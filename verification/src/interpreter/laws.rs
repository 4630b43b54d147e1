//! General laws of the machine, each proved from the model's transition
//! functions alone.
use vstd::prelude::*;

verus! {

use crate::interpreter::model::{
    MAst, MCont, MHeap, MSlot, MState, MStep, MVal, alloc_val, apply_effect, assoc, bind,
    define_bind_effect, elems, eval_effect, gc_spec, if_branch_effect, lookup, lower, lower_list,
    native_effect, new_free_ints, reachable, wrap_prod, wrap_sum,
};
use crate::interpreter::value::NativeFn;

/// `if` evaluates only the branch the condition selects: when the
/// condition's value is not `#f`, the machine's next state does not
/// depend on the else branch at all — so that branch can trigger no
/// effect; symmetrically for `#t` and the then branch.
pub proof fn lemma_if_evaluates_one_branch(
    s: MState,
    then_node: int,
    else_a: int,
    else_b: int,
    then_a: int,
    then_b: int,
    cond_false: int,
    env: int,
)
    requires
        s.results.len() > 0,
    ensures
        s.heap.vals[s.results.last()].item != MVal::Boolean(false) ==> if_branch_effect(
            s,
            then_node,
            else_a,
            env,
        ) == if_branch_effect(s, then_node, else_b, env),
        s.heap.vals[s.results.last()].item == MVal::Boolean(false) ==> if_branch_effect(
            s,
            then_a,
            cond_false,
            env,
        ) == if_branch_effect(s, then_b, cond_false, env),
{
}

/// Binding a name makes it the one found: looking the name up right
/// after `define` bound it yields exactly the defined value.
pub proof fn lemma_assoc_after_bind(bs: Seq<(Seq<char>, int)>, name: Seq<char>, v: int)
    ensures
        assoc(bind(bs, name, v), name) == Some(v),
    decreases bs.len(),
{
    if exists|j: int| 0 <= j < bs.len() && bs[j].0 == name {
        let mapped = bind(bs, name, v);
        let j0 = choose|j: int| 0 <= j < bs.len() && bs[j].0 == name;
        assert(exists|j: int| 0 <= j < bs.len() && (#[trigger] bs[j]).0 == name);
        lemma_assoc_mapped(bs, name, v, 0);
        assert(mapped.skip(0) =~= mapped);
    } else {
        lemma_assoc_pushed(bs, name, v);
    }
}

proof fn lemma_assoc_mapped(bs: Seq<(Seq<char>, int)>, name: Seq<char>, v: int, k: int)
    requires
        0 <= k <= bs.len(),
        exists|j: int| k <= j < bs.len() && (#[trigger] bs[j]).0 == name,
        bind(bs, name, v).len() == bs.len(),
        forall|j: int|
            0 <= j < bs.len() ==> (#[trigger] bind(bs, name, v)[j]) == (if bs[j].0 == name {
                (name, v)
            } else {
                bs[j]
            }),
    ensures
        assoc(bind(bs, name, v).skip(k), name) == Some(v),
    decreases bs.len() - k,
{
    let mapped = bind(bs, name, v);
    assert(mapped.skip(k)[0] == mapped[k]);
    if bs[k].0 == name {
        assert(mapped[k] == (name, v));
    } else {
        assert(mapped[k] == bs[k]);
        assert(exists|j: int| k + 1 <= j < bs.len() && (#[trigger] bs[j]).0 == name) by {
            let j0 = choose|j: int| k <= j < bs.len() && (#[trigger] bs[j]).0 == name;
            assert(j0 != k);
        }
        lemma_assoc_mapped(bs, name, v, k + 1);
        assert(mapped.skip(k).drop_first() =~= mapped.skip(k + 1));
    }
}

proof fn lemma_assoc_pushed(bs: Seq<(Seq<char>, int)>, name: Seq<char>, v: int)
    requires
        forall|j: int| 0 <= j < bs.len() ==> (#[trigger] bs[j]).0 != name,
    ensures
        assoc(bs.push((name, v)), name) == Some(v),
    decreases bs.len(),
{
    if bs.len() == 0 {
        assert(bs.push((name, v))[0] == (name, v));
    } else {
        assert(bs.push((name, v))[0] == bs[0]);
        lemma_assoc_pushed(bs.drop_first(), name, v);
        assert(bs.push((name, v)).drop_first() =~= bs.drop_first().push((name, v)));
    }
}

/// `define` followed by a reference returns the defined value: after the
/// binding step writes `name` into the environment, looking `name` up
/// there resolves to the very handle that was bound.
pub proof fn lemma_define_then_lookup(s: MState, name: Seq<char>, env: int, fuel: nat)
    requires
        s.results.len() == 1,
        0 <= env < s.heap.envs.len(),
        fuel >= 1,
    ensures
        lookup(define_bind_effect(s, name, env).heap, env, name, fuel) == Some(s.results.last()),
{
    let s2 = define_bind_effect(s, name, env);
    let e2 = s2.heap.envs[env].item;
    assert(e2.bindings == bind(s.heap.envs[env].item.bindings, name, s.results.last()));
    lemma_assoc_after_bind(s.heap.envs[env].item.bindings, name, s.results.last());
}

/// Re-invoking a continuation restores its snapshot: the machine's
/// pending steps, result stack and saved stacks become exactly the
/// captured ones, whatever expression context the call stands in, with
/// the one argument pushed as the resumed computation's value.
pub proof fn lemma_continuation_restores_snapshot(s: MState, env: int, c: MCont)
    requires
        s.saved.len() > 0,
        s.results.len() == 2,
        s.heap.vals[s.results[0]].item == MVal::Cont(c),
    ensures
        apply_effect(s, env) == (MState {
            steps: c.steps,
            results: c.results.push(s.results[1]),
            saved: c.saved,
            heap: s.heap,
            error: s.error,
        }),
{
    let restored = MState { results: s.saved.last(), saved: s.saved.drop_last(), ..s };
    assert(s.results.drop_first() =~= seq![s.results[1]]);
    assert(apply_effect(s, env) =~= (MState {
        steps: c.steps,
        results: c.results.push(s.results[1]),
        saved: c.saved,
        heap: s.heap,
        error: s.error,
    }));
}

/// Collecting over an unrooted allocation strictly grows the free list:
/// if some value slot is live but unreachable from the root, `gc-run`
/// reclaims at least one slot, so the heap profile's free count strictly
/// increases.
pub proof fn lemma_gc_frees_unreachable(h: MHeap, root: int, i: int)
    requires
        0 <= i < h.vals.len(),
        !h.vals[i].free,
        !reachable(h, root + h.vals.len(), i),
    ensures
        gc_spec(h, root).vfree.len() > h.vfree.len(),
{
    let freed = Seq::new(h.vals.len(), |q: int| h.vals[q].free);
    let kept = Seq::new(h.vals.len(), |q: int| reachable(h, root + h.vals.len(), q));
    lemma_new_free_nonempty(freed, kept, h.vals.len() as int, i);
}

proof fn lemma_new_free_nonempty(freed: Seq<bool>, kept: Seq<bool>, n: int, i: int)
    requires
        0 <= i < n,
        !freed[i],
        !kept[i],
    ensures
        new_free_ints(freed, kept, n).len() > 0,
    decreases n,
{
    if i < n - 1 {
        lemma_new_free_nonempty(freed, kept, n - 1, i);
    }
}

/// The mathematical sum of a sequence of integers.
pub open spec fn int_sum(xs: Seq<i64>) -> int
    decreases xs.len(),
{
    if xs.len() == 0 {
        0
    } else {
        int_sum(xs.drop_last()) + xs.last()
    }
}

/// The mathematical product of a sequence of integers.
pub open spec fn int_prod(xs: Seq<i64>) -> int
    decreases xs.len(),
{
    if xs.len() == 0 {
        1
    } else {
        int_prod(xs.drop_last()) * xs.last()
    }
}

/// Every partial sum representable: no prefix of the fold leaves the
/// 64-bit range.
pub open spec fn sums_in_range(xs: Seq<i64>) -> bool
    decreases xs.len(),
{
    i64::MIN <= int_sum(xs) <= i64::MAX && (xs.len() == 0 || sums_in_range(xs.drop_last()))
}

pub open spec fn prods_in_range(xs: Seq<i64>) -> bool
    decreases xs.len(),
{
    i64::MIN <= int_prod(xs) <= i64::MAX && (xs.len() == 0 || prods_in_range(xs.drop_last()))
}

/// `(+ x1 … xn)` is the sum of its arguments whenever the running sums
/// stay in the 64-bit range; the empty sum is 0.  (On a fold that leaves
/// the range the machine's addition wraps, as `wrap_sum` states.)
pub proof fn lemma_plus_is_sum(xs: Seq<i64>)
    requires
        sums_in_range(xs),
    ensures
        wrap_sum(xs) == int_sum(xs),
    decreases xs.len(),
{
    if xs.len() > 0 {
        lemma_plus_is_sum(xs.drop_last());
    }
}

/// `(* x1 … xn)` is the product of its arguments whenever the running
/// products stay in the 64-bit range; the empty product is 1.
pub proof fn lemma_times_is_prod(xs: Seq<i64>)
    requires
        prods_in_range(xs),
    ensures
        wrap_prod(xs) == int_prod(xs),
    decreases xs.len(),
{
    if xs.len() > 0 {
        lemma_times_is_prod(xs.drop_last());
    }
}

/// The `+` primitive pushes exactly one new value, the integer sum of
/// its arguments, whenever every argument is an integer whose running
/// sums stay in range; with any non-integer argument it is the
/// all-integers error.
pub proof fn lemma_plus_law(s: MState, env: int, args: Seq<int>)
    requires
        crate::interpreter::model::all_ints(s.heap.vals, args),
        sums_in_range(crate::interpreter::model::int_args(s.heap.vals, args)),
    ensures
        ({
            let xs = crate::interpreter::model::int_args(s.heap.vals, args);
            let (h2, p) = alloc_val(s.heap, MVal::Int(wrap_sum(xs)));
            &&& native_effect(s, env, NativeFn::Plus, args) == (MState {
                heap: h2,
                results: s.results.push(p),
                ..s
            })
            &&& h2.vals[p].item == MVal::Int(wrap_sum(xs))
            &&& wrap_sum(xs) == int_sum(xs)
        }),
{
    let xs = crate::interpreter::model::int_args(s.heap.vals, args);
    lemma_plus_is_sum(xs);
    let (h2, p) = alloc_val(s.heap, MVal::Int(wrap_sum(xs)));
    assert(native_effect(s, env, NativeFn::Plus, args) =~= (MState {
        heap: h2,
        results: s.results.push(p),
        ..s
    }));
}

/// The `*` primitive, likewise, pushes the integer product.
pub proof fn lemma_times_law(s: MState, env: int, args: Seq<int>)
    requires
        crate::interpreter::model::all_ints(s.heap.vals, args),
        prods_in_range(crate::interpreter::model::int_args(s.heap.vals, args)),
    ensures
        ({
            let xs = crate::interpreter::model::int_args(s.heap.vals, args);
            let (h2, p) = alloc_val(s.heap, MVal::Int(wrap_prod(xs)));
            &&& native_effect(s, env, NativeFn::Times, args) == (MState {
                heap: h2,
                results: s.results.push(p),
                ..s
            })
            &&& h2.vals[p].item == MVal::Int(wrap_prod(xs))
            &&& wrap_prod(xs) == int_prod(xs)
        }),
{
    let xs = crate::interpreter::model::int_args(s.heap.vals, args);
    lemma_times_is_prod(xs);
    let (h2, p) = alloc_val(s.heap, MVal::Int(wrap_prod(xs)));
    assert(native_effect(s, env, NativeFn::Times, args) =~= (MState {
        heap: h2,
        results: s.results.push(p),
        ..s
    }));
}


// ---------------------------------------------------------------------------
// Lowering round-trips through list destructuring
// ---------------------------------------------------------------------------
/// Is the value at `p` the lowered form of `ast`: a live slot holding the
/// corresponding leaf, or, for a syntax list, a right-nested chain of live
/// pairs whose heads lower the elements and whose spine ends in nil?
pub open spec fn is_lowering(vals: Seq<MSlot<MVal>>, p: int, ast: MAst) -> bool
    decreases ast, 0int,
{
    &&& 0 <= p < vals.len()
    &&& !vals[p].free
    &&& match ast {
        MAst::Int(i) => vals[p].item == MVal::Int(i),
        MAst::Boolean(b) => vals[p].item == MVal::Boolean(b),
        MAst::Sym(name) => vals[p].item == MVal::Sym(name),
        MAst::List(l) => is_elems_lowering(vals, p, l, 0),
    }
}

/// Is the value at `p` the lowered chain of the elements `l[k..]`?
pub open spec fn is_elems_lowering(vals: Seq<MSlot<MVal>>, p: int, l: Seq<MAst>, k: int) -> bool
    decreases l, l.len() - k, 1int,
{
    &&& 0 <= p < vals.len()
    &&& !vals[p].free
    &&& if k >= l.len() || k < 0 {
        vals[p].item == MVal::Nil
    } else {
        match vals[p].item {
            MVal::Cons(h, t) => is_lowering(vals, h, l[k]) && is_elems_lowering(vals, t, l, k + 1),
            _ => false,
        }
    }
}

/// The value slots' free stack is in shape: every entry points at a slot
/// flagged free, and no entry repeats.
pub open spec fn vfree_ok(h: MHeap) -> bool {
    &&& forall|j: int| 0 <= j < h.vfree.len() ==> 0 <= #[trigger] h.vfree[j] < h.vals.len()
    &&& forall|j: int| 0 <= j < h.vfree.len() ==> h.vals[#[trigger] h.vfree[j]].free
    &&& forall|j: int, j2: int|
        0 <= j < j2 < h.vfree.len() ==> h.vfree[j] != h.vfree[j2]
}

/// The slots of `vals2` agree with `vals1` on every live slot, and no
/// slot shrank away: allocation touches only free or fresh slots.
pub open spec fn live_slots_kept(vals1: Seq<MSlot<MVal>>, vals2: Seq<MSlot<MVal>>) -> bool {
    &&& vals2.len() >= vals1.len()
    &&& forall|q: int|
        0 <= q < vals1.len() && !(#[trigger] vals1[q]).free ==> vals2[q] == vals1[q]
}

/// Allocation keeps the free stack in shape and every live slot intact.
proof fn lemma_alloc_val_keeps(h: MHeap, v: MVal)
    requires
        vfree_ok(h),
    ensures
        vfree_ok(alloc_val(h, v).0),
        live_slots_kept(h.vals, alloc_val(h, v).0.vals),
        ({
            let (h2, p) = alloc_val(h, v);
            &&& 0 <= p < h2.vals.len()
            &&& h2.vals[p].item == v
            &&& !h2.vals[p].free
        }),
{
    let (h2, p) = alloc_val(h, v);
    if !(h.vfree.len() == 0 || !(0 <= h.vfree.last() < h.vals.len())) {
        assert(h.vals[p].free);
        assert forall|j: int| 0 <= j < h2.vfree.len() implies h2.vals[#[trigger] h2.vfree[j]].free by {
            assert(h2.vfree[j] == h.vfree[j]);
            assert(h.vfree[j] != p);
        }
    }
}

/// A lowered value stays lowered while its slots stay live.
proof fn lemma_is_lowering_frame(
    vals1: Seq<MSlot<MVal>>,
    vals2: Seq<MSlot<MVal>>,
    p: int,
    ast: MAst,
)
    requires
        live_slots_kept(vals1, vals2),
        is_lowering(vals1, p, ast),
    ensures
        is_lowering(vals2, p, ast),
    decreases ast, 0int,
{
    match ast {
        MAst::List(l) => {
            lemma_is_elems_lowering_frame(vals1, vals2, p, l, 0);
        },
        _ => {},
    }
}

proof fn lemma_is_elems_lowering_frame(
    vals1: Seq<MSlot<MVal>>,
    vals2: Seq<MSlot<MVal>>,
    p: int,
    l: Seq<MAst>,
    k: int,
)
    requires
        live_slots_kept(vals1, vals2),
        is_elems_lowering(vals1, p, l, k),
    ensures
        is_elems_lowering(vals2, p, l, k),
    decreases l, l.len() - k, 1int,
{
    if !(k >= l.len() || k < 0) {
        match vals1[p].item {
            MVal::Cons(h, t) => {
                lemma_is_lowering_frame(vals1, vals2, h, l[k]);
                lemma_is_elems_lowering_frame(vals1, vals2, t, l, k + 1);
            },
            _ => {},
        }
    }
}

/// What `lower` allocates is a lowering of the tree, and everything live
/// before is untouched.
pub proof fn lemma_lower_is_lowering(h: MHeap, ast: MAst)
    requires
        vfree_ok(h),
    ensures
        ({
            let (h2, p) = lower(h, ast);
            &&& is_lowering(h2.vals, p, ast)
            &&& vfree_ok(h2)
            &&& live_slots_kept(h.vals, h2.vals)
        }),
    decreases ast, 0int,
{
    match ast {
        MAst::Int(i) => {
            lemma_alloc_val_keeps(h, MVal::Int(i));
        },
        MAst::Boolean(b) => {
            lemma_alloc_val_keeps(h, MVal::Boolean(b));
        },
        MAst::Sym(name) => {
            lemma_alloc_val_keeps(h, MVal::Sym(name));
        },
        MAst::List(l) => {
            lemma_alloc_val_keeps(h, MVal::Nil);
            let (h1, pnil) = alloc_val(h, MVal::Nil);
            assert(is_elems_lowering(h1.vals, pnil, l, l.len() as int));
            assert(l.take(l.len() as int) =~= l);
            lemma_lower_list_is(h1, l, l.len() as int, pnil);
            lemma_live_slots_trans(h.vals, h1.vals, lower_list(h1, l, pnil).0.vals);
        },
    }
}

proof fn lemma_live_slots_trans(
    a: Seq<MSlot<MVal>>,
    b: Seq<MSlot<MVal>>,
    c: Seq<MSlot<MVal>>,
)
    requires
        live_slots_kept(a, b),
        live_slots_kept(b, c),
    ensures
        live_slots_kept(a, c),
{
}

proof fn lemma_lower_list_is(h: MHeap, l: Seq<MAst>, k: int, tail: int)
    requires
        vfree_ok(h),
        0 <= k <= l.len(),
        is_elems_lowering(h.vals, tail, l, k),
    ensures
        ({
            let (h2, p) = lower_list(h, l.take(k), tail);
            &&& is_elems_lowering(h2.vals, p, l, 0)
            &&& vfree_ok(h2)
            &&& live_slots_kept(h.vals, h2.vals)
        }),
    decreases l, k, 0int,
{
    if k == 0 {
        assert(l.take(0) =~= Seq::<MAst>::empty());
        assert(lower_list(h, l.take(0), tail) == (h, tail));
    } else {
        let pre = l.take(k);
        assert(pre.len() == k);
        assert(pre.last() == l[k - 1]);
        assert(decreases_to!(l => l[k - 1]));
        lemma_lower_is_lowering(h, l[k - 1]);
        let (ha, pe) = lower(h, l[k - 1]);
        lemma_is_elems_lowering_frame(h.vals, ha.vals, tail, l, k);
        lemma_alloc_val_keeps(ha, MVal::Cons(pe, tail));
        let (hb, pc) = alloc_val(ha, MVal::Cons(pe, tail));
        lemma_is_lowering_frame(ha.vals, hb.vals, pe, l[k - 1]);
        lemma_is_elems_lowering_frame(ha.vals, hb.vals, tail, l, k);
        assert(is_elems_lowering(hb.vals, pc, l, k - 1));
        assert(pre.drop_last() =~= l.take(k - 1));
        lemma_lower_list_is(hb, l, k - 1, pc);
        lemma_live_slots_trans(h.vals, ha.vals, hb.vals);
        lemma_live_slots_trans(h.vals, hb.vals, lower_list(hb, l.take(k - 1), pc).0.vals);
        assert(lower_list(h, pre, tail) == lower_list(hb, pre.drop_last(), pc));
    }
}

/// Lowering a syntax list of length n and walking the resulting cons
/// spine back yields exactly n handles, the i-th the lowered form of the
/// i-th element.
pub proof fn lemma_lowering_round_trip(vals: Seq<MSlot<MVal>>, p: int, l: Seq<MAst>, fuel: nat)
    requires
        is_lowering(vals, p, MAst::List(l)),
        fuel >= l.len(),
    ensures
        (match elems(vals, p, fuel) {
            Some(hs) => hs.len() == l.len() && forall|i: int|
                0 <= i < l.len() ==> is_lowering(vals, #[trigger] hs[i], l[i]),
            None => false,
        }),
{
    lemma_elems_of_lowered_chain(vals, p, l, 0, fuel);
    match elems(vals, p, fuel) {
        Some(hs) => {
            assert forall|i: int| 0 <= i < l.len() implies is_lowering(vals, #[trigger] hs[i], l[i]) by {
                assert(is_lowering(vals, hs[i], l[0 + i]));
            }
        },
        None => {},
    }
}

proof fn lemma_elems_of_lowered_chain(
    vals: Seq<MSlot<MVal>>,
    p: int,
    l: Seq<MAst>,
    k: int,
    fuel: nat,
)
    requires
        0 <= k <= l.len(),
        is_elems_lowering(vals, p, l, k),
        fuel >= l.len() - k,
    ensures
        (match elems(vals, p, fuel) {
            Some(hs) => hs.len() == l.len() - k && forall|i: int|
                0 <= i < l.len() - k ==> is_lowering(vals, #[trigger] hs[i], l[k + i]),
            None => false,
        }),
    decreases l.len() - k,
{
    if k == l.len() {
        assert(vals[p].item == MVal::Nil);
    } else {
        match vals[p].item {
            MVal::Cons(h, t) => {
                lemma_elems_of_lowered_chain(vals, t, l, k + 1, (fuel - 1) as nat);
                let rest = elems(vals, t, (fuel - 1) as nat)->Some_0;
                assert(elems(vals, p, fuel) == Some(seq![h] + rest));
                assert forall|i: int|
                    0 <= i < l.len() - k implies is_lowering(
                    vals,
                    #[trigger] (seq![h] + rest)[i],
                    l[k + i],
                ) by {
                    if i == 0 {
                        assert((seq![h] + rest)[0] == h);
                    } else {
                        assert((seq![h] + rest)[i] == rest[i - 1]);
                        assert(is_lowering(vals, rest[i - 1], l[k + 1 + (i - 1)]));
                    }
                }
            },
            _ => {},
        }
    }
}

/// `(quote x)` evaluates to the lowered form of `x` unchanged: on a node
/// that is the lowering of the two-element list `(quote x)`, the machine
/// pushes the very handle of `x`'s lowered form and touches nothing else
/// — no allocation, no other stack, no error.
pub proof fn lemma_quote_evaluates_to_lowered_form(s: MState, node: int, x: MAst, env: int)
    requires
        is_lowering(s.heap.vals, node, MAst::List(seq![MAst::Sym("quote"@), x])),
    ensures
        ({
            let s2 = eval_effect(s, node, env);
            &&& s2.heap == s.heap
            &&& s2.steps == s.steps
            &&& s2.saved == s.saved
            &&& s2.error == s.error
            &&& s2.results == s.results.push(s2.results.last())
            &&& is_lowering(s.heap.vals, s2.results.last(), x)
        }),
{
    let l = seq![MAst::Sym("quote"@), x];
    let vals = s.heap.vals;
    match vals[node].item {
        MVal::Cons(hd, tl) => {
            assert(is_lowering(vals, hd, l[0]));
            assert(is_elems_lowering(vals, tl, l, 1));
            assert(vals.len() >= 1);
            lemma_elems_of_lowered_chain(vals, tl, l, 1, vals.len() as nat);
            let rest = elems(vals, tl, vals.len() as nat)->Some_0;
            assert(rest.len() == 1);
            assert(is_lowering(vals, rest[0], x));
            let nodes = seq![hd] + rest;
            assert(nodes.len() == 2);
            assert(nodes[1] == rest[0]);
            assert(vals[hd].item == MVal::Sym("quote"@));
            proof_strlit_distinct();
            assert(eval_effect(s, node, env) == crate::interpreter::model::quote_form_effect(
                s,
                nodes,
                env,
            ));
            let s2 = eval_effect(s, node, env);
            assert(s2.results == s.results.push(nodes[1]));
            assert(s2.results.last() == nodes[1]);
        },
        _ => {
            assert(false);
        },
    }
}

/// The four special-form keywords are four different words.
proof fn proof_strlit_distinct()
    ensures
        "quote"@ != "if"@,
        "quote"@ != "lambda"@,
        "quote"@ != "define"@,
{
    reveal_strlit("quote");
    reveal_strlit("if");
    reveal_strlit("lambda");
    reveal_strlit("define");
    assert("quote"@.len() == 5);
    assert("if"@.len() == 2);
    assert("lambda"@.len() == 6);
    assert("define"@.len() == 6);
    assert("quote"@[0] == 'q');
}


// ---------------------------------------------------------------------------
// Applying the identity closure returns its argument
// ---------------------------------------------------------------------------
/// The syntax tree of `((lambda (x) x) v)`.
pub open spec fn identity_application_ast(v: MAst) -> MAst {
    MAst::List(
        seq![
            MAst::List(
                seq![
                    MAst::Sym("lambda"@),
                    MAst::List(seq![MAst::Sym("x"@)]),
                    MAst::Sym("x"@),
                ],
            ),
            v,
        ],
    )
}

/// `((lambda (x) x) v) = v` for any self-evaluating `v`: from the lowered
/// application node, four turns of the driver leave exactly the handle of
/// `v`'s lowered form on the result stack, with the pending work, the
/// saved stacks and the error as they were.
pub proof fn lemma_identity_application(s: MState, node: int, env: int, v: MAst)
    requires
        vfree_ok(s.heap),
        is_lowering(s.heap.vals, node, identity_application_ast(v)),
        v is Int || v is Boolean,
        s.error is None,
    ensures
        ({
            let fin = crate::interpreter::model::run_steps(eval_effect(s, node, env), 4);
            &&& fin.steps == s.steps
            &&& fin.saved == s.saved
            &&& fin.error is None
            &&& fin.results.len() == s.results.len() + 1
            &&& fin.results.drop_last() == s.results
            &&& is_lowering(fin.heap.vals, fin.results.last(), v)
        }),
{
    let vals = s.heap.vals;
    let lam_ast = MAst::List(
        seq![MAst::Sym("lambda"@), MAst::List(seq![MAst::Sym("x"@)]), MAst::Sym("x"@)],
    );
    let outer = seq![lam_ast, v];
    reveal_strlit("lambda");
    reveal_strlit("if");
    reveal_strlit("x");
    assert("lambda"@ != "if"@) by {
        assert("lambda"@.len() == 6);
        assert("if"@.len() == 2);
    }
    // The outer node: Cons(lam, Cons(v, Nil)).
    let hd = vals[node].item->Cons_0;
    let tl = vals[node].item->Cons_1;
    assert(is_lowering(vals, hd, lam_ast));
    assert(is_elems_lowering(vals, tl, outer, 1));
    let hv = vals[tl].item->Cons_0;
    let t2 = vals[tl].item->Cons_1;
    assert(is_lowering(vals, hv, v));
    assert(is_elems_lowering(vals, t2, outer, 2));
    assert(vals[t2].item == MVal::Nil);
    assert(node != tl && tl != t2 && node != t2);
    assert(vals.len() >= 3);
    lemma_elems_of_lowered_chain(vals, tl, outer, 1, vals.len() as nat);
    let rest0 = elems(vals, tl, vals.len() as nat)->Some_0;
    assert(rest0.len() == 1 && rest0[0] == hv) by {
        assert(is_lowering(vals, rest0[0], outer[1int + 0]));
        assert(elems(vals, tl, vals.len() as nat) == Some(
            seq![hv] + elems(vals, t2, (vals.len() - 1) as nat)->Some_0,
        ));
    }
    let nodes0 = seq![hd] + rest0;
    // The head is itself a pair, so this is a function application.
    assert(vals[hd].item is Cons);
    let s1 = eval_effect(s, node, env);
    assert(s1 == crate::interpreter::model::func_call_effect(s, nodes0, env));
    assert(nodes0.len() == 2 && nodes0[0] == hd && nodes0[1] == hv);
    let rev = crate::interpreter::model::eval_steps_rev(nodes0, env);
    assert(rev.len() == 2);
    assert(rev[0] == MStep::Eval { node: hv, env });
    assert(rev[1] == MStep::Eval { node: hd, env });
    assert(s1.steps == s.steps.push(MStep::Apply { env }) + rev);
    assert(s1.steps.len() == s.steps.len() + 3);
    assert(s1.steps.last() == MStep::Eval { node: hd, env });

    // Turn 1: evaluate the lambda form; a closure is allocated.
    let s1p = MState { steps: s1.steps.drop_last(), ..s1 };
    let s2 = crate::interpreter::model::step_once(s1);
    assert(s2 == eval_effect(s1p, hd, env));
    let lhd = vals[hd].item->Cons_0;
    let ltl = vals[hd].item->Cons_1;
    assert(is_lowering(vals, lhd, lam_ast->List_0[0]));
    assert(is_elems_lowering(vals, ltl, lam_ast->List_0, 1));
    lemma_elems_of_lowered_chain(vals, ltl, lam_ast->List_0, 1, vals.len() as nat);
    let lrest = elems(vals, ltl, vals.len() as nat)->Some_0;
    assert(lrest.len() == 2);
    assert(is_lowering(vals, lrest[0], lam_ast->List_0[1]));
    assert(is_lowering(vals, lrest[1], lam_ast->List_0[2]));
    let lnodes = seq![lhd] + lrest;
    assert(vals[lhd].item == MVal::Sym("lambda"@));
    assert(lnodes.len() == 3);
    let pn = lnodes[1];
    let bn = lnodes[2];
    assert(is_elems_lowering(vals, pn, seq![MAst::Sym("x"@)], 0));
    let pxh = vals[pn].item->Cons_0;
    let pxt = vals[pn].item->Cons_1;
    assert(is_lowering(vals, pxh, MAst::Sym("x"@)));
    assert(is_elems_lowering(vals, pxt, seq![MAst::Sym("x"@)], 1));
    assert(vals[pxt].item == MVal::Nil);
    lemma_elems_of_lowered_chain(vals, pxt, seq![MAst::Sym("x"@)], 1, (vals.len() - 1) as nat);
    assert(crate::interpreter::model::node_elems(vals, pn, vals.len() as nat) == Some(
        seq![pxh] + elems(vals, pxt, (vals.len() - 1) as nat)->Some_0,
    ));
    let pelems = seq![pxh];
    assert(seq![pxh] + elems(vals, pxt, (vals.len() - 1) as nat)->Some_0 =~= pelems);
    crate::interpreter::model::lemma_symbol_names_all(vals, pelems, seq!["x"@]);
    let fv = MVal::Fun(
        crate::interpreter::model::MFun { params: seq!["x"@], env, body: bn },
    );
    let (h2, fp) = alloc_val(s.heap, fv);
    assert(s2 == (MState { heap: h2, results: Seq::empty().push(fp), ..s1p }));
    lemma_alloc_val_keeps(s.heap, fv);
    assert(h2.vals[fp].item == fv);

    // Turn 2: the operand is self-evaluating.
    assert(s2.steps.last() == MStep::Eval { node: hv, env });
    let s2p = MState { steps: s2.steps.drop_last(), ..s2 };
    let s3 = crate::interpreter::model::step_once(s2);
    lemma_is_lowering_frame(vals, h2.vals, hv, v);
    assert(s3 == (MState { results: s2p.results.push(hv), ..s2p }));
    assert(s3.results =~= seq![fp, hv]);

    // Turn 3: apply the closure; a child environment binds x to v.
    assert(s3.steps =~= s.steps.push(MStep::Apply { env }));
    assert(s3.steps.last() == MStep::Apply { env });
    let s3p = MState { steps: s3.steps.drop_last(), ..s3 };
    let s4 = crate::interpreter::model::step_once(s3);
    assert(s4 == apply_effect(s3p, env));
    assert(s3p.saved.last() == s.results);
    assert(s3p.results.drop_first() =~= seq![hv]);
    let be = crate::interpreter::model::bind_params(seq!["x"@], seq![hv], 1);
    assert(be =~= seq![("x"@, hv)]) by {
        assert(crate::interpreter::model::bind_params(seq!["x"@], seq![hv], 0)
            == Seq::<(Seq<char>, int)>::empty());
        assert(be == bind(Seq::empty(), "x"@, hv));
    }
    let ne = crate::interpreter::model::MEnv { parent: Some(env), bindings: be };
    let (h3, ep) = crate::interpreter::model::alloc_env(h2, ne);
    assert(s4 == (MState {
        heap: h3,
        steps: s.steps.push(MStep::Eval { node: bn, env: ep }),
        results: s.results,
        saved: s.saved,
        error: s.error,
    })) by {
        assert(s3p.steps =~= s.steps);
        assert(apply_effect(s3p, env) =~= (MState {
            heap: h3,
            steps: s.steps.push(MStep::Eval { node: bn, env: ep }),
            results: s.results,
            saved: s.saved,
            error: s.error,
        }));
    }
    assert(h3.vals == h2.vals);
    assert(0 <= ep < h3.envs.len());
    assert(h3.envs[ep].item == ne);

    // Turn 4: the body is the parameter; looking it up yields v's handle.
    let s4p = MState { steps: s4.steps.drop_last(), ..s4 };
    let s5 = crate::interpreter::model::step_once(s4);
    assert(s5 == eval_effect(s4p, bn, ep));
    lemma_is_lowering_frame(vals, h2.vals, bn, MAst::Sym("x"@));
    assert(h3.vals[bn].item == MVal::Sym("x"@));
    assert(h3.envs.len() >= 1);
    assert(assoc(be, "x"@) == Some(hv));
    assert(lookup(h3, ep, "x"@, h3.envs.len() as nat) == Some(hv));
    assert(s5 == (MState { results: s.results.push(hv), ..s4p }));
    assert(s4p.steps =~= s.steps);

    // The four turns together.
    crate::interpreter::model::lemma_run_steps_snoc(s1, 0);
    crate::interpreter::model::lemma_run_steps_snoc(s1, 1);
    crate::interpreter::model::lemma_run_steps_snoc(s1, 2);
    crate::interpreter::model::lemma_run_steps_snoc(s1, 3);
    assert(crate::interpreter::model::run_steps(s1, 1) == s2);
    assert(crate::interpreter::model::run_steps(s1, 2) == s3);
    assert(crate::interpreter::model::run_steps(s1, 3) == s4);
    assert(crate::interpreter::model::run_steps(s1, 4) == s5);
    lemma_is_lowering_frame(vals, h2.vals, hv, v);
    assert(s5.results.drop_last() =~= s.results);
}


/// The syntax tree of `((lambda () v))`.
pub open spec fn thunk_application_ast(v: MAst) -> MAst {
    MAst::List(
        seq![MAst::List(seq![MAst::Sym("lambda"@), MAst::List(Seq::empty()), v])],
    )
}

/// `((lambda () v)) = v` for any self-evaluating `v`: from the lowered
/// application of a parameterless closure, three turns of the driver
/// leave exactly the handle of `v`'s lowered form on the result stack.
pub proof fn lemma_thunk_application(s: MState, node: int, env: int, v: MAst)
    requires
        vfree_ok(s.heap),
        is_lowering(s.heap.vals, node, thunk_application_ast(v)),
        v is Int || v is Boolean,
        s.error is None,
    ensures
        ({
            let fin = crate::interpreter::model::run_steps(eval_effect(s, node, env), 3);
            &&& fin.steps == s.steps
            &&& fin.saved == s.saved
            &&& fin.error is None
            &&& fin.results.len() == s.results.len() + 1
            &&& fin.results.drop_last() == s.results
            &&& is_lowering(fin.heap.vals, fin.results.last(), v)
        }),
{
    let vals = s.heap.vals;
    let lam_ast = MAst::List(seq![MAst::Sym("lambda"@), MAst::List(Seq::empty()), v]);
    let outer = seq![lam_ast];
    reveal_strlit("lambda");
    reveal_strlit("if");
    assert("lambda"@ != "if"@) by {
        assert("lambda"@.len() == 6);
        assert("if"@.len() == 2);
    }
    // The outer node: Cons(lam, Nil).
    let hd = vals[node].item->Cons_0;
    let tl = vals[node].item->Cons_1;
    assert(is_lowering(vals, hd, lam_ast));
    assert(is_elems_lowering(vals, tl, outer, 1));
    assert(vals[tl].item == MVal::Nil);
    lemma_elems_of_lowered_chain(vals, tl, outer, 1, vals.len() as nat);
    let rest0 = elems(vals, tl, vals.len() as nat)->Some_0;
    assert(rest0.len() == 0);
    let nodes0 = seq![hd] + rest0;
    assert(nodes0 =~= seq![hd]);
    assert(vals[hd].item is Cons);
    let s1 = eval_effect(s, node, env);
    assert(s1 == crate::interpreter::model::func_call_effect(s, nodes0, env));
    let rev = crate::interpreter::model::eval_steps_rev(nodes0, env);
    assert(rev.len() == 1);
    assert(rev[0] == MStep::Eval { node: hd, env });
    assert(s1.steps == s.steps.push(MStep::Apply { env }) + rev);
    assert(s1.steps.last() == MStep::Eval { node: hd, env });

    // Turn 1: evaluate the lambda form; a parameterless closure is made.
    let s1p = MState { steps: s1.steps.drop_last(), ..s1 };
    let s2 = crate::interpreter::model::step_once(s1);
    assert(s2 == eval_effect(s1p, hd, env));
    let lhd = vals[hd].item->Cons_0;
    let ltl = vals[hd].item->Cons_1;
    assert(is_lowering(vals, lhd, lam_ast->List_0[0]));
    assert(is_elems_lowering(vals, ltl, lam_ast->List_0, 1));
    lemma_elems_of_lowered_chain(vals, ltl, lam_ast->List_0, 1, vals.len() as nat);
    let lrest = elems(vals, ltl, vals.len() as nat)->Some_0;
    assert(lrest.len() == 2);
    assert(is_lowering(vals, lrest[0], lam_ast->List_0[1]));
    assert(is_lowering(vals, lrest[1], lam_ast->List_0[2]));
    let lnodes = seq![lhd] + lrest;
    assert(vals[lhd].item == MVal::Sym("lambda"@));
    assert(lnodes.len() == 3);
    let pn = lnodes[1];
    let bn = lnodes[2];
    assert(is_elems_lowering(vals, pn, Seq::empty(), 0));
    assert(vals[pn].item == MVal::Nil);
    assert(crate::interpreter::model::node_elems(vals, pn, vals.len() as nat) == Some(
        Seq::<int>::empty(),
    ));
    crate::interpreter::model::lemma_symbol_names_all(vals, Seq::empty(), Seq::empty());
    let fv = MVal::Fun(
        crate::interpreter::model::MFun { params: Seq::empty(), env, body: bn },
    );
    let (h2, fp) = alloc_val(s.heap, fv);
    assert(s2 == (MState { heap: h2, results: Seq::empty().push(fp), ..s1p }));
    lemma_alloc_val_keeps(s.heap, fv);
    assert(h2.vals[fp].item == fv);

    // Turn 2: apply the closure; an empty child environment is made.
    assert(s2.steps =~= s.steps.push(MStep::Apply { env }));
    assert(s2.steps.last() == MStep::Apply { env });
    let s2p = MState { steps: s2.steps.drop_last(), ..s2 };
    let s3 = crate::interpreter::model::step_once(s2);
    assert(s3 == apply_effect(s2p, env));
    assert(s2p.saved.last() == s.results);
    assert(s2p.results.drop_first() =~= Seq::<int>::empty());
    let be = crate::interpreter::model::bind_params(Seq::empty(), Seq::empty(), 0);
    assert(be =~= Seq::<(Seq<char>, int)>::empty());
    let ne = crate::interpreter::model::MEnv { parent: Some(env), bindings: be };
    let (h3, ep) = crate::interpreter::model::alloc_env(h2, ne);
    assert(s3 == (MState {
        heap: h3,
        steps: s.steps.push(MStep::Eval { node: bn, env: ep }),
        results: s.results,
        saved: s.saved,
        error: s.error,
    })) by {
        assert(s2p.steps =~= s.steps);
        assert(apply_effect(s2p, env) =~= (MState {
            heap: h3,
            steps: s.steps.push(MStep::Eval { node: bn, env: ep }),
            results: s.results,
            saved: s.saved,
            error: s.error,
        }));
    }
    assert(h3.vals == h2.vals);

    // Turn 3: the body is `v` itself, which evaluates to its own handle.
    let s3p = MState { steps: s3.steps.drop_last(), ..s3 };
    let s4 = crate::interpreter::model::step_once(s3);
    assert(s4 == eval_effect(s3p, bn, ep));
    lemma_is_lowering_frame(vals, h2.vals, bn, v);
    assert(s4 == (MState { results: s.results.push(bn), ..s3p }));
    assert(s3p.steps =~= s.steps);

    // The three turns together.
    crate::interpreter::model::lemma_run_steps_snoc(s1, 0);
    crate::interpreter::model::lemma_run_steps_snoc(s1, 1);
    crate::interpreter::model::lemma_run_steps_snoc(s1, 2);
    assert(crate::interpreter::model::run_steps(s1, 1) == s2);
    assert(crate::interpreter::model::run_steps(s1, 2) == s3);
    assert(crate::interpreter::model::run_steps(s1, 3) == s4);
    assert(s4.results.drop_last() =~= s.results);
}


/// Lexical scope and closure capture rest on this: the closure a
/// `lambda` form builds captures the environment current at the lambda
/// site — the argument `env` itself — never any caller's; and applying a
/// closure evaluates its body in a fresh child of that captured
/// environment.
pub proof fn lemma_lambda_captures_current_env(s: MState, nodes: Seq<int>, env: int)
    requires
        nodes.len() == 3,
        crate::interpreter::model::node_elems(
            s.heap.vals,
            nodes[1],
            s.heap.vals.len() as nat,
        ) is Some,
        crate::interpreter::model::symbol_names(
            s.heap.vals,
            crate::interpreter::model::node_elems(
                s.heap.vals,
                nodes[1],
                s.heap.vals.len() as nat,
            )->Some_0,
        ) is Some,
    ensures
        ({
            let s2 = crate::interpreter::model::lambda_form_effect(s, nodes, env);
            &&& s2.results.len() == s.results.len() + 1
            &&& s2.heap.vals[s2.results.last()].item->Fun_0.env == env
            &&& s2.heap.vals[s2.results.last()].item->Fun_0.body == nodes[2]
        }),
{
    let pd = crate::interpreter::model::node_elems(
        s.heap.vals,
        nodes[1],
        s.heap.vals.len() as nat,
    )->Some_0;
    let names = crate::interpreter::model::symbol_names(s.heap.vals, pd)->Some_0;
    let fv = MVal::Fun(
        crate::interpreter::model::MFun { params: names, env, body: nodes[2] },
    );
    let (h2, fp) = alloc_val(s.heap, fv);
    assert(h2.vals[fp].item == fv);
}


/// The delivered value of `((lambda (x) x) v)`: starting quiescent — no
/// pending steps, no results, no error — every terminal state the driver
/// can reach from the lowered application holds exactly one result, the
/// handle of `v`'s lowered form.  Together with the driver's contract
/// this pins `run`'s answer.
pub proof fn lemma_identity_application_delivers(
    s: MState,
    node: int,
    env: int,
    v: MAst,
    n: nat,
)
    requires
        vfree_ok(s.heap),
        is_lowering(s.heap.vals, node, identity_application_ast(v)),
        v is Int || v is Boolean,
        s.error is None,
        s.steps.len() == 0,
        s.results.len() == 0,
        crate::interpreter::model::terminal(
            crate::interpreter::model::run_steps(eval_effect(s, node, env), n),
        ),
    ensures
        ({
            let fin = crate::interpreter::model::run_steps(eval_effect(s, node, env), n);
            &&& fin.error is None
            &&& fin.steps.len() == 0
            &&& fin.results.len() == 1
            &&& is_lowering(fin.heap.vals, fin.results[0], v)
        }),
{
    lemma_identity_application(s, node, env, v);
    let s1 = eval_effect(s, node, env);
    assert(crate::interpreter::model::terminal(crate::interpreter::model::run_steps(s1, 4)));
    crate::interpreter::model::lemma_terminal_unique(s1, 4, n);
}

/// The delivered value of `((lambda () v))`, likewise: from a quiescent
/// start, every terminal state holds exactly the handle of `v`'s lowered
/// form.
pub proof fn lemma_thunk_application_delivers(s: MState, node: int, env: int, v: MAst, n: nat)
    requires
        vfree_ok(s.heap),
        is_lowering(s.heap.vals, node, thunk_application_ast(v)),
        v is Int || v is Boolean,
        s.error is None,
        s.steps.len() == 0,
        s.results.len() == 0,
        crate::interpreter::model::terminal(
            crate::interpreter::model::run_steps(eval_effect(s, node, env), n),
        ),
    ensures
        ({
            let fin = crate::interpreter::model::run_steps(eval_effect(s, node, env), n);
            &&& fin.error is None
            &&& fin.steps.len() == 0
            &&& fin.results.len() == 1
            &&& is_lowering(fin.heap.vals, fin.results[0], v)
        }),
{
    lemma_thunk_application(s, node, env, v);
    let s1 = eval_effect(s, node, env);
    assert(crate::interpreter::model::terminal(crate::interpreter::model::run_steps(s1, 3)));
    crate::interpreter::model::lemma_terminal_unique(s1, 3, n);
}

} // verus!
