//! Mark-and-sweep collection.
//!
//! The mark phase walks the object graph from the root environment with an
//! explicit worklist, short-circuiting on the mark bit, so cycles (a
//! closure capturing the very environment that binds it) terminate.  The
//! proof shows the marked set is exactly the set reachable from the root,
//! so `gc` realizes the model's `gc_spec`: it reclaims precisely the
//! unreachable, not-yet-free slots of both arenas and leaves every mark
//! bit clear for the next cycle.
use vstd::prelude::*;

verus! {

use crate::interpreter::arena::swept_indices;
use crate::interpreter::heap::Allocator;
use crate::interpreter::model::{
    MCont, MEnv, MHeap, MSlot, MStep, MVal, gc_spec, heap_wf, new_free_ints, reach_edge, reachable,
    reaches_in, step_env_children, step_val_children, val_env_children, val_val_children,
};
use crate::interpreter::value::{EnvPtr, Step, ValPtr, Value};

/// One entry of the mark worklist: an object of either arena.
enum GcObj {
    Val(ValPtr),
    Env(EnvPtr),
}

/// The object number of a worklist entry: environments are numbered after
/// the values.
spec fn obj_of(h: MHeap, o: GcObj) -> int {
    match o {
        GcObj::Val(p) => p@,
        GcObj::Env(p) => p@ + h.vals.len(),
    }
}

/// Is object `o` marked in heap `h`?
pub open spec fn obj_marked(h: MHeap, o: int) -> bool {
    if o < h.vals.len() {
        h.vals[o].marked
    } else {
        h.envs[o - h.vals.len()].marked
    }
}

/// Is `o` a valid object number of `h`?
pub open spec fn obj_in_bounds(h: MHeap, o: int) -> bool {
    0 <= o < h.vals.len() + h.envs.len()
}

/// Does the entry point into its own arena?
spec fn obj_valid(h: MHeap, o: GcObj) -> bool {
    match o {
        GcObj::Val(p) => p@ < h.vals.len(),
        GcObj::Env(p) => p@ < h.envs.len(),
    }
}

/// No mark bit is set: how every collection cycle must begin.
pub open spec fn marks_clear(h: MHeap) -> bool {
    &&& forall|i: int| 0 <= i < h.vals.len() ==> !(#[trigger] h.vals[i]).marked
    &&& forall|i: int| 0 <= i < h.envs.len() ==> !(#[trigger] h.envs[i]).marked
}

/// The two heaps hold the same objects and free bookkeeping and differ at
/// most in their mark bits.
pub open spec fn same_heap_mod_marks(h1: MHeap, h2: MHeap) -> bool {
    &&& h1.vals.len() == h2.vals.len()
    &&& h1.envs.len() == h2.envs.len()
    &&& forall|i: int|
        0 <= i < h1.vals.len() ==> (#[trigger] h2.vals[i]).item == h1.vals[i].item
            && h2.vals[i].free == h1.vals[i].free
    &&& forall|i: int|
        0 <= i < h1.envs.len() ==> (#[trigger] h2.envs[i]).item == h1.envs[i].item
            && h2.envs[i].free == h1.envs[i].free
    &&& h1.vfree == h2.vfree
    &&& h1.efree == h2.efree
}

/// Does the worklist hold object `b`?
spec fn wl_has(h: MHeap, wl: Seq<GcObj>, b: int) -> bool {
    exists|k: int| 0 <= k < wl.len() && obj_of(h, #[trigger] wl[k]) == b
}

/// In a well-formed heap every edge ends at a valid object.
proof fn lemma_edge_in_bounds(h: MHeap, a: int, b: int)
    requires
        heap_wf(h),
        obj_in_bounds(h, a),
        reach_edge(h, a, b),
    ensures
        obj_in_bounds(h, b),
{
}

/// Reachability extends along an edge.
proof fn lemma_edge_reachable(h: MHeap, src: int, a: int, b: int)
    requires
        obj_in_bounds(h, a),
        reach_edge(h, a, b),
        reachable(h, src, a),
    ensures
        reachable(h, src, b),
{
    let n = choose|n: nat| reaches_in(h, src, a, n);
    assert(reaches_in(h, src, b, n + 1));
}

/// A marked set that contains the source and is closed under edges covers
/// everything reachable from the source.
proof fn lemma_closed_covers_reachable(h: MHeap, hm: MHeap, src: int, b: int, n: nat)
    requires
        heap_wf(h),
        same_heap_mod_marks(h, hm),
        obj_marked(hm, src),
        forall|o: int, c: int|
            obj_in_bounds(h, o) && obj_marked(hm, o) && reach_edge(h, o, c) ==> obj_marked(hm, c),
        reaches_in(h, src, b, n),
    ensures
        obj_marked(hm, b),
    decreases n,
{
    if b != src && n != 0 {
        let a = choose|a: int|
            reaches_in(h, src, a, (n - 1) as nat) && 0 <= a < h.vals.len() + h.envs.len()
                && reach_edge(h, a, b);
        lemma_closed_covers_reachable(h, hm, src, a, (n - 1) as nat);
    }
}

/// The number of unmarked entries below `n`.
spec fn count_unmarked(marks: Seq<bool>, n: int) -> int
    decreases n,
{
    if n <= 0 {
        0
    } else {
        count_unmarked(marks, n - 1) + if marks[n - 1] {
            0int
        } else {
            1int
        }
    }
}

proof fn lemma_count_unmarked_same(m1: Seq<bool>, m2: Seq<bool>, n: int)
    requires
        forall|i: int| 0 <= i < n ==> m1[i] == m2[i],
    ensures
        count_unmarked(m1, n) == count_unmarked(m2, n),
    decreases n,
{
    if n > 0 {
        lemma_count_unmarked_same(m1, m2, n - 1);
    }
}

proof fn lemma_count_unmarked_update(m1: Seq<bool>, m2: Seq<bool>, n: int, at: int)
    requires
        0 <= at < n,
        !m1[at],
        m2[at],
        forall|i: int| 0 <= i < n && i != at ==> m1[i] == m2[i],
    ensures
        count_unmarked(m2, n) < count_unmarked(m1, n),
    decreases n,
{
    if at == n - 1 {
        lemma_count_unmarked_same(m1, m2, n - 1);
    } else {
        lemma_count_unmarked_update(m1, m2, n - 1, at);
    }
}

proof fn lemma_count_unmarked_nonneg(marks: Seq<bool>, n: int)
    ensures
        count_unmarked(marks, n) >= 0,
    decreases n,
{
    if n > 0 {
        lemma_count_unmarked_nonneg(marks, n - 1);
    }
}

/// The termination measure of the mark loop: how many objects are still
/// unmarked.
spec fn total_unmarked(h: MHeap) -> int {
    count_unmarked(Seq::new(h.vals.len(), |i: int| h.vals[i].marked), h.vals.len() as int)
        + count_unmarked(Seq::new(h.envs.len(), |i: int| h.envs[i].marked), h.envs.len() as int)
}

/// The sweep list is the same whether the keep-decision is phrased over
/// mark bits or over reachability, once the two agree.
proof fn lemma_swept_matches(freed: Seq<bool>, marks: Seq<bool>, kept: Seq<bool>, n: int)
    requires
        forall|i: int| 0 <= i < n ==> marks[i] == kept[i],
        0 <= n <= usize::MAX,
    ensures
        Seq::new(
            swept_indices(freed, marks, n).len(),
            |j: int| swept_indices(freed, marks, n)[j] as int,
        ) =~= new_free_ints(freed, kept, n),
    decreases n,
{
    if n > 0 {
        lemma_swept_matches(freed, marks, kept, n - 1);
        if !freed[n - 1] && !marks[n - 1] {
            assert(swept_indices(freed, marks, n) == swept_indices(freed, marks, n - 1).push(
                (n - 1) as usize,
            ));
            assert(new_free_ints(freed, kept, n) == new_free_ints(freed, kept, n - 1).push(n - 1));
        } else {
            assert(swept_indices(freed, marks, n) == swept_indices(freed, marks, n - 1));
            assert(new_free_ints(freed, kept, n) == new_free_ints(freed, kept, n - 1));
        }
    }
}

/// Every object a value points at is in the list `ch`.
spec fn val_children_listed(h: MHeap, v: MVal, ch: Seq<GcObj>) -> bool {
    &&& forall|b: int| val_val_children(v).contains(b) ==> wl_has(h, ch, b)
    &&& forall|e: int| val_env_children(v).contains(e) ==> wl_has(h, ch, e + h.vals.len())
}

/// Every object an environment points at is in the list `ch`.
spec fn env_children_listed(h: MHeap, e: MEnv, ch: Seq<GcObj>) -> bool {
    &&& (match e.parent {
        None => true,
        Some(p) => wl_has(h, ch, p + h.vals.len()),
    })
    &&& forall|i: int|
        0 <= i < e.bindings.len() ==> wl_has(h, ch, (#[trigger] e.bindings[i]).1)
}

/// Growing the list keeps everything it already held.
proof fn lemma_wl_grow(h: MHeap, ch0: Seq<GcObj>, ch1: Seq<GcObj>, c: GcObj)
    requires
        ch1 == ch0.push(c),
    ensures
        forall|b: int| wl_has(h, ch0, b) ==> wl_has(h, ch1, b),
        wl_has(h, ch1, obj_of(h, c)),
{
    assert forall|b: int| wl_has(h, ch0, b) implies wl_has(h, ch1, b) by {
        let k = choose|k: int| 0 <= k < ch0.len() && obj_of(h, ch0[k]) == b;
        assert(obj_of(h, ch1[k]) == b);
    }
    assert(obj_of(h, ch1[ch1.len() - 1]) == obj_of(h, c));
}

impl Allocator {
    /// Collect the children of the value at `p` into a worklist fragment:
    /// every object the value points at, each a valid index.
    fn val_children(&self, p: ValPtr, Ghost(h): Ghost<MHeap>) -> (ch: Vec<GcObj>)
        requires
            h == self@,
            heap_wf(h),
            p@ < self@.vals.len(),
        ensures
            val_children_listed(h, h.vals[p@].item, ch@),
            forall|k: int|
                0 <= k < ch@.len() ==> obj_valid(h, #[trigger] ch@[k]) && reach_edge(
                    h,
                    p@,
                    obj_of(h, ch@[k]),
                ),
    {
        let v = self.values.get(p.index);
        let ghost mv = h.vals[p@].item;
        proof {
            assert(crate::interpreter::model::val_wf(h, mv));
        }
        let mut ch: Vec<GcObj> = Vec::new();
        match v {
            Value::Cons(a, b) => {
                let ghost c0 = ch@;
                ch.push(GcObj::Val(*a));
                proof {
                    lemma_wl_grow(h, c0, ch@, GcObj::Val(*a));
                    assert(val_val_children(mv).contains(a@));
                }
                let ghost c1 = ch@;
                ch.push(GcObj::Val(*b));
                proof {
                    lemma_wl_grow(h, c1, ch@, GcObj::Val(*b));
                    assert(val_val_children(mv).contains(b@));
                    assert(ch@[0] == GcObj::Val(*a));
                }
            },
            Value::Function(f) => {
                let ghost c0 = ch@;
                ch.push(GcObj::Env(f.env));
                proof {
                    lemma_wl_grow(h, c0, ch@, GcObj::Env(f.env));
                    assert(val_env_children(mv).contains(f.env@));
                }
            },
            Value::Continuation(c) => {
                let ghost mc = mv->Cont_0;
                proof {
                    assert(crate::interpreter::model::cont_wf(h, mc));
                }
                let rn = c.results.len();
                let mut i: usize = 0;
                while i < rn
                    invariant
                        rn == c.results@.len(),
                        i <= rn,
                        heap_wf(h),
                        p@ < h.vals.len(),
                        mv == h.vals[p@].item,
                        mv is Cont,
                        mc == mv->Cont_0,
                        mc.results == c.results.deep_view(),
                        forall|k: int| 0 <= k < i ==> wl_has(h, ch@, #[trigger] mc.results[k]),
                        forall|k: int|
                            0 <= k < ch@.len() ==> obj_valid(h, #[trigger] ch@[k]) && reach_edge(
                                h,
                                p@,
                                obj_of(h, ch@[k]),
                            ),
                    decreases rn - i,
                {
                    let ghost c0 = ch@;
                    ch.push(GcObj::Val(c.results[i]));
                    proof {
                        lemma_wl_grow(h, c0, ch@, GcObj::Val(c.results@[i as int]));
                        assert(mc.results[i as int] == c.results@[i as int]@);
                        assert(mc.results.contains(mc.results[i as int]));
                        assert(val_val_children(mv).contains(mc.results[i as int]));
                        assert(crate::interpreter::model::cont_wf(h, mc));
                    }
                    i = i + 1;
                }
                let sn = c.saved_results.len();
                let mut j: usize = 0;
                while j < sn
                    invariant
                        sn == c.saved_results@.len(),
                        j <= sn,
                        heap_wf(h),
                        p@ < h.vals.len(),
                        mv == h.vals[p@].item,
                        mv is Cont,
                        mc == mv->Cont_0,
                        mc.results == c.results.deep_view(),
                        mc.saved == c.saved_results.deep_view(),
                        forall|k: int|
                            0 <= k < mc.results.len() ==> wl_has(h, ch@, #[trigger] mc.results[k]),
                        forall|jj: int, k: int|
                            0 <= jj < j && 0 <= k < mc.saved[jj].len() ==> wl_has(
                                h,
                                ch@,
                                #[trigger] mc.saved[jj][k],
                            ),
                        forall|k: int|
                            0 <= k < ch@.len() ==> obj_valid(h, #[trigger] ch@[k]) && reach_edge(
                                h,
                                p@,
                                obj_of(h, ch@[k]),
                            ),
                    decreases sn - j,
                {
                    let row = &c.saved_results[j];
                    let rm = row.len();
                    let mut k: usize = 0;
                    while k < rm
                        invariant
                            rm == row@.len(),
                            j < sn,
                            sn == c.saved_results@.len(),
                            row@ == c.saved_results@[j as int]@,
                            k <= rm,
                            heap_wf(h),
                            p@ < h.vals.len(),
                            mv == h.vals[p@].item,
                            mv is Cont,
                            mc == mv->Cont_0,
                            mc.results == c.results.deep_view(),
                            mc.saved == c.saved_results.deep_view(),
                            forall|kk: int|
                                0 <= kk < mc.results.len() ==> wl_has(
                                    h,
                                    ch@,
                                    #[trigger] mc.results[kk],
                                ),
                            forall|jj: int, kk: int|
                                0 <= jj < j && 0 <= kk < mc.saved[jj].len() ==> wl_has(
                                    h,
                                    ch@,
                                    #[trigger] mc.saved[jj][kk],
                                ),
                            forall|kk: int|
                                0 <= kk < k ==> wl_has(h, ch@, #[trigger] mc.saved[j as int][kk]),
                            forall|kk: int|
                                0 <= kk < ch@.len() ==> obj_valid(h, #[trigger] ch@[kk])
                                    && reach_edge(h, p@, obj_of(h, ch@[kk])),
                        decreases rm - k,
                    {
                        let ghost c0 = ch@;
                        ch.push(GcObj::Val(row[k]));
                        proof {
                            lemma_wl_grow(h, c0, ch@, GcObj::Val(row@[k as int]));
                            assert(mc.saved[j as int] == c.saved_results@[j as int].deep_view());
                            assert(mc.saved[j as int][k as int] == row@[k as int]@);
                            assert(val_val_children(mv).contains(mc.saved[j as int][k as int]));
                            assert(crate::interpreter::model::cont_wf(h, mc));
                        }
                        k = k + 1;
                    }
                    j = j + 1;
                }
                let tn = c.next_steps.len();
                let mut t: usize = 0;
                while t < tn
                    invariant
                        tn == c.next_steps@.len(),
                        t <= tn,
                        heap_wf(h),
                        p@ < h.vals.len(),
                        mv == h.vals[p@].item,
                        mv is Cont,
                        mc == mv->Cont_0,
                        mc.results == c.results.deep_view(),
                        mc.saved == c.saved_results.deep_view(),
                        mc.steps == c.next_steps.deep_view(),
                        forall|kk: int|
                            0 <= kk < mc.results.len() ==> wl_has(h, ch@, #[trigger] mc.results[kk]),
                        forall|jj: int, kk: int|
                            0 <= jj < mc.saved.len() && 0 <= kk < mc.saved[jj].len() ==> wl_has(
                                h,
                                ch@,
                                #[trigger] mc.saved[jj][kk],
                            ),
                        forall|tt: int, b: int|
                            0 <= tt < t && #[trigger] step_val_children(mc.steps[tt]).contains(b)
                                ==> wl_has(h, ch@, b),
                        forall|tt: int, e: int|
                            0 <= tt < t && #[trigger] step_env_children(mc.steps[tt]).contains(e)
                                ==> wl_has(h, ch@, e + h.vals.len()),
                        forall|kk: int|
                            0 <= kk < ch@.len() ==> obj_valid(h, #[trigger] ch@[kk]) && reach_edge(
                                h,
                                p@,
                                obj_of(h, ch@[kk]),
                            ),
                    decreases tn - t,
                {
                    let ghost mst = mc.steps[t as int];
                    proof {
                        assert(mst == c.next_steps@[t as int]@);
                        assert(mc.steps.contains(mst));
                        assert(crate::interpreter::model::step_wf(h, mst));
                    }
                    match &c.next_steps[t] {
                        Step::Eval { node, env } => {
                            let ghost c0 = ch@;
                            ch.push(GcObj::Val(*node));
                            proof {
                                lemma_wl_grow(h, c0, ch@, GcObj::Val(*node));
                                assert(step_val_children(mst).contains(node@));
                                assert(val_val_children(mv).contains(node@));
                            }
                            let ghost c1 = ch@;
                            ch.push(GcObj::Env(*env));
                            proof {
                                lemma_wl_grow(h, c1, ch@, GcObj::Env(*env));
                                assert(step_env_children(mst).contains(env@));
                                assert(val_env_children(mv).contains(env@));
                            }
                        },
                        Step::IfBranch { then_node, else_node, env } => {
                            let ghost c0 = ch@;
                            ch.push(GcObj::Val(*then_node));
                            proof {
                                lemma_wl_grow(h, c0, ch@, GcObj::Val(*then_node));
                                assert(step_val_children(mst).contains(then_node@));
                                assert(val_val_children(mv).contains(then_node@));
                            }
                            let ghost c1 = ch@;
                            ch.push(GcObj::Val(*else_node));
                            proof {
                                lemma_wl_grow(h, c1, ch@, GcObj::Val(*else_node));
                                assert(step_val_children(mst).contains(else_node@));
                                assert(val_val_children(mv).contains(else_node@));
                            }
                            let ghost c2 = ch@;
                            ch.push(GcObj::Env(*env));
                            proof {
                                lemma_wl_grow(h, c2, ch@, GcObj::Env(*env));
                                assert(step_env_children(mst).contains(env@));
                                assert(val_env_children(mv).contains(env@));
                            }
                        },
                        Step::DefineBind { name, env } => {
                            let ghost c0 = ch@;
                            ch.push(GcObj::Env(*env));
                            proof {
                                lemma_wl_grow(h, c0, ch@, GcObj::Env(*env));
                                assert(step_env_children(mst).contains(env@));
                                assert(val_env_children(mv).contains(env@));
                            }
                        },
                        Step::Apply { env } => {
                            let ghost c0 = ch@;
                            ch.push(GcObj::Env(*env));
                            proof {
                                lemma_wl_grow(h, c0, ch@, GcObj::Env(*env));
                                assert(step_env_children(mst).contains(env@));
                                assert(val_env_children(mv).contains(env@));
                            }
                        },
                    }
                    t = t + 1;
                }
                proof {
                    assert forall|b: int|
                        val_val_children(mv).contains(b) implies wl_has(h, ch@, b) by {
                        if mc.results.contains(b) {
                            let k = choose|k: int|
                                0 <= k < mc.results.len() && mc.results[k] == b;
                            assert(wl_has(h, ch@, mc.results[k]));
                        } else if exists|jj: int|
                            0 <= jj < mc.saved.len() && #[trigger] mc.saved[jj].contains(b) {
                            let jj = choose|jj: int|
                                0 <= jj < mc.saved.len() && #[trigger] mc.saved[jj].contains(b);
                            let kk = choose|kk: int|
                                0 <= kk < mc.saved[jj].len() && mc.saved[jj][kk] == b;
                            assert(wl_has(h, ch@, mc.saved[jj][kk]));
                        } else {
                            let tt = choose|tt: int|
                                0 <= tt < mc.steps.len() && step_val_children(
                                    #[trigger] mc.steps[tt],
                                ).contains(b);
                            assert(wl_has(h, ch@, b));
                        }
                    }
                    assert forall|e: int|
                        val_env_children(mv).contains(e) implies wl_has(h, ch@, e + h.vals.len()) by {
                        let tt = choose|tt: int|
                            0 <= tt < mc.steps.len() && step_env_children(
                                #[trigger] mc.steps[tt],
                            ).contains(e);
                        assert(wl_has(h, ch@, e + h.vals.len()));
                    }
                }
            },
            _ => {},
        }
        ch
    }

    /// Collect the children of the environment at `p`: its parent and
    /// every bound value.
    fn env_children(&self, p: EnvPtr, Ghost(h): Ghost<MHeap>) -> (ch: Vec<GcObj>)
        requires
            h == self@,
            heap_wf(h),
            p@ < self@.envs.len(),
        ensures
            env_children_listed(h, h.envs[p@].item, ch@),
            forall|k: int|
                0 <= k < ch@.len() ==> obj_valid(h, #[trigger] ch@[k]) && reach_edge(
                    h,
                    p@ + h.vals.len(),
                    obj_of(h, ch@[k]),
                ),
    {
        let e = self.environments.get(p.index);
        let ghost me = h.envs[p@].item;
        proof {
            assert(crate::interpreter::model::env_wf(h, me));
        }
        let mut ch: Vec<GcObj> = Vec::new();
        match e.parent {
            Some(par) => {
                let ghost c0 = ch@;
                ch.push(GcObj::Env(par));
                proof {
                    lemma_wl_grow(h, c0, ch@, GcObj::Env(par));
                    assert(me.parent == Some(par@));
                }
            },
            None => {},
        }
        let bn = e.bindings.len();
        let mut bi: usize = 0;
        while bi < bn
            invariant
                bn == e.bindings@.len(),
                bi <= bn,
                heap_wf(h),
                p@ < h.envs.len(),
                me == h.envs[p@].item,
                me == e@,
                (match me.parent {
                    None => true,
                    Some(q) => wl_has(h, ch@, q + h.vals.len()),
                }),
                forall|k: int| 0 <= k < bi ==> wl_has(h, ch@, (#[trigger] me.bindings[k]).1),
                forall|k: int|
                    0 <= k < ch@.len() ==> obj_valid(h, #[trigger] ch@[k]) && reach_edge(
                        h,
                        p@ + h.vals.len(),
                        obj_of(h, ch@[k]),
                    ),
            decreases bn - bi,
        {
            let ghost c0 = ch@;
            ch.push(GcObj::Val(e.bindings[bi].1));
            proof {
                lemma_wl_grow(h, c0, ch@, GcObj::Val(e.bindings@[bi as int].1));
                assert(me.bindings[bi as int] == (
                    e.bindings@[bi as int].0@,
                    e.bindings@[bi as int].1@,
                ));
                assert((me.bindings[bi as int]).1 == e.bindings@[bi as int].1@);
                assert(crate::interpreter::model::env_wf(h, me));
            }
            bi = bi + 1;
        }
        ch
    }

    /// Mark every object reachable from the entries of the worklist.
    fn mark_objects(&mut self, wl: Vec<GcObj>, Ghost(src): Ghost<int>)
        requires
            old(self).arenas_wf(),
            heap_wf(old(self)@),
            forall|k: int|
                0 <= k < wl@.len() ==> obj_valid(old(self)@, #[trigger] wl@[k]) && reachable(
                    old(self)@,
                    src,
                    obj_of(old(self)@, wl@[k]),
                ),
        ensures
            final(self).arenas_wf(),
            same_heap_mod_marks(old(self)@, final(self)@),
            forall|o: int|
                obj_in_bounds(old(self)@, o) && obj_marked(old(self)@, o) ==> obj_marked(
                    final(self)@,
                    o,
                ),
            forall|b: int| wl_has(old(self)@, wl@, b) ==> obj_marked(final(self)@, b),
            forall|o: int|
                obj_in_bounds(old(self)@, o) && obj_marked(final(self)@, o) ==> obj_marked(
                    old(self)@,
                    o,
                ) || reachable(old(self)@, src, o),
            forall|o: int, b: int|
                obj_in_bounds(old(self)@, o) && obj_marked(final(self)@, o) && !obj_marked(
                    old(self)@,
                    o,
                ) && reach_edge(old(self)@, o, b) ==> obj_marked(final(self)@, b),
    {
        let ghost pre = self@;
        let ghost wl_orig = wl@;
        let mut wl = wl;
        while wl.len() > 0
            invariant
                self.arenas_wf(),
                heap_wf(pre),
                same_heap_mod_marks(pre, self@),
                forall|o: int|
                    obj_in_bounds(pre, o) && obj_marked(pre, o) ==> obj_marked(self@, o),
                forall|k: int|
                    0 <= k < wl@.len() ==> obj_valid(pre, #[trigger] wl@[k]) && reachable(
                        pre,
                        src,
                        obj_of(pre, wl@[k]),
                    ),
                forall|k: int|
                    0 <= k < wl_orig.len() ==> obj_valid(pre, #[trigger] wl_orig[k]),
                forall|b: int|
                    wl_has(pre, wl_orig, b) ==> obj_marked(self@, b) || wl_has(pre, wl@, b),
                forall|o: int|
                    obj_in_bounds(pre, o) && obj_marked(self@, o) ==> obj_marked(pre, o)
                        || reachable(pre, src, o),
                forall|o: int, b: int|
                    obj_in_bounds(pre, o) && obj_marked(self@, o) && !obj_marked(pre, o)
                        && reach_edge(pre, o, b) ==> obj_marked(self@, b) || wl_has(pre, wl@, b),
            decreases total_unmarked(self@), wl@.len(),
        {
            let ghost mid = self@;
            let ghost wl0 = wl@;
            let next = wl.pop().unwrap();
            let ghost ob = obj_of(pre, next);
            proof {
                assert(wl0[wl0.len() - 1] == next);
                assert(wl0.drop_last() =~= wl@);
                assert(obj_valid(pre, next) && reachable(pre, src, ob));
                assert(obj_in_bounds(pre, ob));
                assert forall|b: int| wl_has(pre, wl0, b) implies wl_has(pre, wl@, b) || b == ob by {
                    let k = choose|k: int| 0 <= k < wl0.len() && obj_of(pre, wl0[k]) == b;
                    if k < wl0.len() - 1 {
                        assert(obj_of(pre, wl@[k]) == b);
                    }
                }
            }
            let prev = match next {
                GcObj::Val(p) => self.values.mark(p.index),
                GcObj::Env(p) => self.environments.mark(p.index),
            };
            proof {
                assert forall|i: int|
                    0 <= i < pre.vals.len() implies (#[trigger] self@.vals[i]).item
                    == mid.vals[i].item && self@.vals[i].free == mid.vals[i].free by {}
                assert forall|i: int|
                    0 <= i < pre.envs.len() implies (#[trigger] self@.envs[i]).item
                    == mid.envs[i].item && self@.envs[i].free == mid.envs[i].free by {}
                assert(self@.vfree =~= mid.vfree);
                assert(self@.efree =~= mid.efree);
                assert(same_heap_mod_marks(pre, self@));
                assert(obj_marked(self@, ob));
                assert forall|o: int|
                    obj_in_bounds(pre, o) && obj_marked(mid, o) implies obj_marked(self@, o) by {}
                assert forall|o: int|
                    obj_in_bounds(pre, o) && obj_marked(self@, o) && o != ob implies obj_marked(
                    mid,
                    o,
                ) by {}
                if prev {
                    let m1 = Seq::new(mid.vals.len(), |i: int| mid.vals[i].marked);
                    let m2 = Seq::new(self@.vals.len(), |i: int| self@.vals[i].marked);
                    let e1 = Seq::new(mid.envs.len(), |i: int| mid.envs[i].marked);
                    let e2 = Seq::new(self@.envs.len(), |i: int| self@.envs[i].marked);
                    lemma_count_unmarked_same(m1, m2, mid.vals.len() as int);
                    lemma_count_unmarked_same(e1, e2, mid.envs.len() as int);
                    lemma_count_unmarked_nonneg(m2, self@.vals.len() as int);
                    lemma_count_unmarked_nonneg(e2, self@.envs.len() as int);
                    assert(total_unmarked(self@) == total_unmarked(mid));
                    assert forall|b: int|
                        wl_has(pre, wl_orig, b) implies obj_marked(self@, b) || wl_has(
                        pre,
                        wl@,
                        b,
                    ) by {
                        if !obj_marked(self@, b) && wl_has(pre, wl_orig, b) {
                            let k0 = choose|k0: int|
                                0 <= k0 < wl_orig.len() && obj_of(pre, #[trigger] wl_orig[k0])
                                    == b;
                            assert(obj_valid(pre, wl_orig[k0]));
                            assert(obj_in_bounds(pre, b));
                            assert(wl_has(pre, wl0, b));
                            assert(wl_has(pre, wl@, b) || b == ob);
                        }
                    }
                    assert forall|o: int, b: int|
                        obj_in_bounds(pre, o) && obj_marked(self@, o) && !obj_marked(pre, o)
                            && reach_edge(pre, o, b) implies obj_marked(self@, b) || wl_has(
                        pre,
                        wl@,
                        b,
                    ) by {
                        if !obj_marked(self@, b) {
                            assert(obj_marked(mid, o));
                            lemma_edge_in_bounds(pre, o, b);
                            assert(obj_marked(mid, b) || wl_has(pre, wl0, b));
                            assert(wl_has(pre, wl0, b));
                            assert(wl_has(pre, wl@, b) || b == ob);
                        }
                    }
                }
            }
            if prev {
                continue;
            }
            proof {
                let m1 = Seq::new(mid.vals.len(), |i: int| mid.vals[i].marked);
                let m2 = Seq::new(self@.vals.len(), |i: int| self@.vals[i].marked);
                let e1 = Seq::new(mid.envs.len(), |i: int| mid.envs[i].marked);
                let e2 = Seq::new(self@.envs.len(), |i: int| self@.envs[i].marked);
                if ob < pre.vals.len() {
                    lemma_count_unmarked_update(m1, m2, mid.vals.len() as int, ob);
                    lemma_count_unmarked_same(e1, e2, mid.envs.len() as int);
                } else {
                    lemma_count_unmarked_same(m1, m2, mid.vals.len() as int);
                    lemma_count_unmarked_update(e1, e2, mid.envs.len() as int, ob - pre.vals.len());
                }
                lemma_count_unmarked_nonneg(m2, self@.vals.len() as int);
                lemma_count_unmarked_nonneg(e2, self@.envs.len() as int);
                assert(total_unmarked(self@) < total_unmarked(mid));
                assert(total_unmarked(self@) >= 0);
            }
            let ghost marked_heap = self@;
            let children = match next {
                GcObj::Val(p) => self.val_children(p, Ghost(marked_heap)),
                GcObj::Env(p) => self.env_children(p, Ghost(marked_heap)),
            };
            proof {
                assert(heap_wf(marked_heap)) by {
                    lemma_heap_wf_mod_marks(pre, marked_heap);
                }
                assert forall|k: int|
                    0 <= k < children@.len() implies obj_valid(pre, #[trigger] children@[k])
                        && reachable(pre, src, obj_of(pre, children@[k])) by {
                    assert(obj_of(marked_heap, children@[k]) == obj_of(pre, children@[k]));
                    lemma_same_edge(pre, marked_heap, ob, obj_of(pre, children@[k]));
                    lemma_edge_reachable(pre, src, ob, obj_of(pre, children@[k]));
                }
            }
            let cn = children.len();
            let mut ci: usize = 0;
            let ghost wl_before = wl@;
            while ci < cn
                invariant
                    cn == children@.len(),
                    ci <= cn,
                    forall|k: int|
                        0 <= k < children@.len() ==> obj_valid(pre, #[trigger] children@[k])
                            && reachable(pre, src, obj_of(pre, children@[k])),
                    forall|k: int|
                        0 <= k < wl@.len() ==> obj_valid(pre, #[trigger] wl@[k]) && reachable(
                            pre,
                            src,
                            obj_of(pre, wl@[k]),
                        ),
                    forall|b: int| wl_has(pre, wl_before, b) ==> wl_has(pre, wl@, b),
                    forall|k: int|
                        0 <= k < ci ==> wl_has(pre, wl@, obj_of(pre, #[trigger] children@[k])),
                decreases cn - ci,
            {
                let ghost wlp = wl@;
                let c = match &children[ci] {
                    GcObj::Val(p2) => GcObj::Val(*p2),
                    GcObj::Env(p2) => GcObj::Env(*p2),
                };
                proof {
                    assert(c == children@[ci as int]);
                }
                wl.push(c);
                proof {
                    lemma_wl_grow(pre, wlp, wl@, c);
                }
                ci = ci + 1;
            }
            proof {
                let hm = self@;
                assert forall|o: int, b: int|
                    obj_in_bounds(pre, o) && obj_marked(hm, o) && !obj_marked(pre, o) && reach_edge(
                    pre,
                    o,
                    b,
                ) implies obj_marked(hm, b) || wl_has(pre, wl@, b) by {
                    lemma_edge_in_bounds(pre, o, b);
                    if o == ob {
                        lemma_children_cover_edges(pre, marked_heap, next, ob, children@, b);
                        let k = choose|k: int|
                            0 <= k < children@.len() && obj_of(pre, children@[k]) == b;
                        assert(wl_has(pre, wl@, obj_of(pre, children@[k])));
                    } else {
                        assert(obj_marked(mid, o));
                        assert(obj_marked(mid, b) || wl_has(pre, wl0, b));
                        if !obj_marked(mid, b) {
                            assert(wl_has(pre, wl0, b));
                            assert(wl_has(pre, wl@, b) || b == ob);
                        }
                    }
                }
                assert forall|b: int|
                    wl_has(pre, wl_orig, b) implies obj_marked(self@, b) || wl_has(pre, wl@, b) by {
                    if !obj_marked(self@, b) {
                        let k0 = choose|k0: int|
                            0 <= k0 < wl_orig.len() && obj_of(pre, #[trigger] wl_orig[k0]) == b;
                        assert(obj_valid(pre, wl_orig[k0]));
                        assert(obj_in_bounds(pre, b));
                        assert(obj_marked(mid, b) || wl_has(pre, wl0, b));
                        assert(wl_has(pre, wl0, b));
                        assert(wl_has(pre, wl@, b) || b == ob);
                    }
                }
            }
        }
        proof {
            assert forall|b: int| wl_has(pre, wl_orig, b) implies obj_marked(self@, b) by {
                let k0 = choose|k0: int|
                    0 <= k0 < wl_orig.len() && obj_of(pre, #[trigger] wl_orig[k0]) == b;
                assert(obj_valid(pre, wl_orig[k0]));
                assert(obj_in_bounds(pre, b));
                assert(wl@.len() == 0);
                assert(!wl_has(pre, wl@, b));
            }
        }
    }

    /// A collection rooted at `leaf`: mark everything reachable from that
    /// environment, sweep both arenas, and clear the mark bits so the next
    /// cycle starts clean.  The result is exactly the model's `gc_spec`.
    pub fn gc(&mut self, leaf: EnvPtr)
        requires
            old(self).arenas_wf(),
            heap_wf(old(self)@),
            marks_clear(old(self)@),
            leaf@ < old(self)@.envs.len(),
        ensures
            final(self).arenas_wf(),
            final(self)@ == gc_spec(old(self)@, leaf@),
            heap_wf(final(self)@),
            marks_clear(final(self)@),
    {
        let ghost pre = self@;
        let ghost src = leaf@ + pre.vals.len();
        let nvals = self.values.items.len();
        let nenvs = self.environments.items.len();
        proof {
            assert(nvals as int == pre.vals.len());
            assert(nenvs as int == pre.envs.len());
        }
        let mut wl: Vec<GcObj> = Vec::new();
        wl.push(GcObj::Env(leaf));
        proof {
            assert(obj_of(pre, wl@[0]) == src);
            assert(reaches_in(pre, src, src, 0));
        }
        let ghost wl_view = wl@;
        self.mark_objects(wl, Ghost(src));
        let ghost hm = self@;
        proof {
            assert(obj_marked(hm, src)) by {
                assert(obj_of(pre, wl_view[0]) == src);
                assert(wl_has(pre, wl_view, src));
            }
            assert forall|o: int| obj_in_bounds(pre, o) implies obj_marked(hm, o) == reachable(
                pre,
                src,
                o,
            ) by {
                if obj_marked(hm, o) {
                    assert(reachable(pre, src, o));
                }
                if reachable(pre, src, o) {
                    let n = choose|n: nat| reaches_in(pre, src, o, n);
                    lemma_closed_covers_reachable(pre, hm, src, o, n);
                }
            }
        }
        let ghost vm_pre = self.values.marked@;
        let ghost vf_pre = self.values.freed@;
        let ghost vfree_pre = self.values.free@;
        let ghost em_pre = self.environments.marked@;
        let ghost ef_pre = self.environments.freed@;
        let ghost efree_pre = self.environments.free@;
        self.values.sweep();
        self.environments.sweep();
        self.values.clear_marks();
        self.environments.clear_marks();
        proof {
            let fin = self@;
            let gs = gc_spec(pre, leaf@);
            assert forall|i: int| 0 <= i < pre.vals.len() implies fin.vals[i] == gs.vals[i] by {
                assert(obj_in_bounds(pre, i));
                assert(hm.vals[i].marked == reachable(pre, src, i));
            }
            assert forall|i: int| 0 <= i < pre.envs.len() implies fin.envs[i] == gs.envs[i] by {
                assert(obj_in_bounds(pre, i + pre.vals.len()));
                assert(hm.envs[i].marked == reachable(pre, src, i + pre.vals.len()));
            }
            let vkept = Seq::new(pre.vals.len(), |i: int| reachable(pre, src, i));
            let ekept = Seq::new(pre.envs.len(), |i: int| reachable(pre, src, i + pre.vals.len()));
            assert(vf_pre.len() == pre.vals.len());
            assert forall|i: int| 0 <= i < pre.vals.len() implies vf_pre[i] == pre.vals[i].free by {
                assert(hm.vals[i].free == vf_pre[i]);
                assert(hm.vals[i].free == pre.vals[i].free);
            }
            assert(vf_pre =~= Seq::new(pre.vals.len(), |i: int| pre.vals[i].free));
            assert forall|i: int| 0 <= i < pre.vals.len() implies vm_pre[i] == vkept[i] by {
                assert(obj_in_bounds(pre, i));
                assert(vm_pre[i] == hm.vals[i].marked);
            }
            lemma_swept_matches(vf_pre, vm_pre, vkept, pre.vals.len() as int);
            assert(ef_pre.len() == pre.envs.len());
            assert forall|i: int| 0 <= i < pre.envs.len() implies ef_pre[i] == pre.envs[i].free by {
                assert(hm.envs[i].free == ef_pre[i]);
                assert(hm.envs[i].free == pre.envs[i].free);
            }
            assert(ef_pre =~= Seq::new(pre.envs.len(), |i: int| pre.envs[i].free));
            assert forall|i: int| 0 <= i < pre.envs.len() implies em_pre[i] == ekept[i] by {
                assert(obj_in_bounds(pre, i + pre.vals.len()));
                assert(em_pre[i] == hm.envs[i].marked);
            }
            lemma_swept_matches(ef_pre, em_pre, ekept, pre.envs.len() as int);
            let vswept = swept_indices(vf_pre, vm_pre, pre.vals.len() as int);
            let vints = Seq::new(vswept.len(), |j: int| vswept[j] as int);
            let eswept = swept_indices(ef_pre, em_pre, pre.envs.len() as int);
            let eints = Seq::new(eswept.len(), |j: int| eswept[j] as int);
            assert(self.values.free@ == vfree_pre + vswept);
            assert(self.environments.free@ == efree_pre + eswept);
            assert(pre.vfree =~= Seq::new(vfree_pre.len(), |j: int| vfree_pre[j] as int));
            assert forall|j: int| 0 <= j < fin.vfree.len() implies fin.vfree[j] == gs.vfree[j] by {
                if j < vfree_pre.len() {
                    assert(self.values.free@[j] == vfree_pre[j]);
                    assert(gs.vfree[j] == pre.vfree[j]);
                } else {
                    assert(self.values.free@[j] == vswept[j - vfree_pre.len()]);
                    assert(vints[j - vfree_pre.len()] == new_free_ints(
                        vf_pre,
                        vkept,
                        pre.vals.len() as int,
                    )[j - vfree_pre.len()]);
                    assert(gs.vfree[j] == new_free_ints(vf_pre, vkept, pre.vals.len() as int)[j
                        - vfree_pre.len()]);
                }
            }
            assert forall|j: int| 0 <= j < fin.efree.len() implies fin.efree[j] == gs.efree[j] by {
                if j < efree_pre.len() {
                    assert(self.environments.free@[j] == efree_pre[j]);
                    assert(gs.efree[j] == pre.efree[j]);
                } else {
                    assert(self.environments.free@[j] == eswept[j - efree_pre.len()]);
                    assert(eints[j - efree_pre.len()] == new_free_ints(
                        ef_pre,
                        ekept,
                        pre.envs.len() as int,
                    )[j - efree_pre.len()]);
                    assert(gs.efree[j] == new_free_ints(ef_pre, ekept, pre.envs.len() as int)[j
                        - efree_pre.len()]);
                }
            }
            assert(fin.vfree.len() == gs.vfree.len());
            assert(fin.efree.len() == gs.efree.len());
            assert(fin.vfree =~= gs.vfree);
            assert(fin.efree =~= gs.efree);
            assert(fin.vals =~= gs.vals);
            assert(fin.envs =~= gs.envs);
            assert(fin =~= gs);
            assert forall|i: int| 0 <= i < fin.vals.len() implies crate::interpreter::model::val_wf(
                fin,
                (#[trigger] fin.vals[i]).item,
            ) by {
                crate::interpreter::model::lemma_val_wf_len(pre, fin, pre.vals[i].item);
            }
            assert forall|i: int| 0 <= i < fin.envs.len() implies crate::interpreter::model::env_wf(
                fin,
                (#[trigger] fin.envs[i]).item,
            ) by {
                crate::interpreter::model::lemma_env_wf_len(pre, fin, pre.envs[i].item);
            }
        }
    }
}

/// Mark bits play no part in well-formedness.
proof fn lemma_heap_wf_mod_marks(h1: MHeap, h2: MHeap)
    requires
        heap_wf(h1),
        same_heap_mod_marks(h1, h2),
    ensures
        heap_wf(h2),
{
    assert forall|i: int| 0 <= i < h2.vals.len() implies crate::interpreter::model::val_wf(
        h2,
        (#[trigger] h2.vals[i]).item,
    ) by {
        assert(h2.vals[i].item == h1.vals[i].item);
        crate::interpreter::model::lemma_val_wf_len(h1, h2, h1.vals[i].item);
    }
    assert forall|i: int| 0 <= i < h2.envs.len() implies crate::interpreter::model::env_wf(
        h2,
        (#[trigger] h2.envs[i]).item,
    ) by {
        assert(h2.envs[i].item == h1.envs[i].item);
        crate::interpreter::model::lemma_env_wf_len(h1, h2, h1.envs[i].item);
    }
}

/// Edges are a function of payloads alone, so heaps that differ only in
/// mark bits have the same edges.
proof fn lemma_same_edge(h1: MHeap, h2: MHeap, a: int, b: int)
    requires
        same_heap_mod_marks(h1, h2),
        obj_in_bounds(h1, a),
        reach_edge(h2, a, b),
    ensures
        reach_edge(h1, a, b),
{
    if a < h1.vals.len() {
        assert(h2.vals[a].item == h1.vals[a].item);
    } else {
        assert(h2.envs[a - h1.vals.len()].item == h1.envs[a - h1.vals.len()].item);
    }
}

/// The freshly collected children lists cover every edge out of the
/// visited object.
proof fn lemma_children_cover_edges(
    pre: MHeap,
    marked_heap: MHeap,
    next: GcObj,
    ob: int,
    ch: Seq<GcObj>,
    b: int,
)
    requires
        same_heap_mod_marks(pre, marked_heap),
        ob == obj_of(pre, next),
        obj_valid(pre, next),
        (match next {
            GcObj::Val(p) => val_children_listed(marked_heap, marked_heap.vals[p@].item, ch),
            GcObj::Env(p) => env_children_listed(marked_heap, marked_heap.envs[p@].item, ch),
        }),
        reach_edge(pre, ob, b),
    ensures
        wl_has(pre, ch, b),
{
    match next {
        GcObj::Val(p) => {
            assert(marked_heap.vals[p@].item == pre.vals[p@].item);
            if b < pre.vals.len() {
                assert(val_val_children(pre.vals[p@].item).contains(b));
            } else {
                assert(val_env_children(pre.vals[p@].item).contains(b - pre.vals.len()));
            }
            assert(wl_has(marked_heap, ch, b));
            lemma_wl_has_same(pre, marked_heap, ch, b);
        },
        GcObj::Env(p) => {
            assert(marked_heap.envs[p@].item == pre.envs[p@].item);
            let e = pre.envs[p@].item;
            if b >= pre.vals.len() {
                assert(e.parent == Some(b - pre.vals.len()));
            } else {
                let i = choose|i: int|
                    0 <= i < e.bindings.len() && (#[trigger] e.bindings[i]).1 == b;
                assert(wl_has(marked_heap, ch, e.bindings[i].1));
            }
            assert(wl_has(marked_heap, ch, b));
            lemma_wl_has_same(pre, marked_heap, ch, b);
        },
    }
}

proof fn lemma_wl_has_same(h1: MHeap, h2: MHeap, ch: Seq<GcObj>, b: int)
    requires
        h1.vals.len() == h2.vals.len(),
        wl_has(h2, ch, b),
    ensures
        wl_has(h1, ch, b),
{
    let k = choose|k: int| 0 <= k < ch.len() && obj_of(h2, ch[k]) == b;
    assert(obj_of(h1, ch[k]) == b);
}

} // verus!
