//! The two arenas and the environment chain.
//!
//! Values and environments live in separate typed arenas behind copyable
//! handles, so closures and continuations can form cycles without leaking:
//! the mark phase short-circuits on the mark bit.  The contracts relate
//! every operation to the ghost heap `MHeap` of the model.
use vstd::prelude::*;

verus! {

use crate::interpreter::arena::ItemAllocator;
use crate::interpreter::model::{
    MEnv, MHeap, MSlot, MVal, alloc_env, alloc_val, assoc, bind, env_wf, heap_wf, lookup, val_wf,
};
use crate::interpreter::value::{EnvPtr, ValPtr, Value};
use crate::strutil::str_eq;

/// An environment: an optional parent and its own bindings, name to value
/// handle, oldest first with unique names.  The root environment (the
/// built-ins) has no parent; children are created by function application.
pub struct Environment {
    pub parent: Option<EnvPtr>,
    pub bindings: Vec<(String, ValPtr)>,
}

impl View for Environment {
    type V = MEnv;

    open spec fn view(&self) -> MEnv {
        MEnv { parent: self.parent.deep_view(), bindings: self.bindings.deep_view() }
    }
}

impl Environment {
    /// A child of `parent` with the given initial bindings, as created for
    /// a function application.
    pub fn new_child_with_bindings(parent: EnvPtr, bindings: Vec<(String, ValPtr)>) -> (r: Self)
        ensures
            r@ == (MEnv { parent: Some(parent@), bindings: bindings.deep_view() }),
    {
        Environment { parent: Some(parent), bindings }
    }

    /// A root environment with the given bindings and no parent.
    pub fn new_with_bindings(bindings: Vec<(String, ValPtr)>) -> (r: Self)
        ensures
            r@ == (MEnv { parent: None, bindings: bindings.deep_view() }),
    {
        Environment { parent: None, bindings }
    }

    /// Move this environment into the arena and return its handle.
    pub fn gc(self, heap: &mut Allocator) -> (r: EnvPtr)
        requires
            old(heap).arenas_wf(),
        ensures
            final(heap).arenas_wf(),
            final(heap)@ == alloc_env(old(heap)@, self@).0,
            r@ == alloc_env(old(heap)@, self@).1,
            heap_wf(old(heap)@) && env_wf(old(heap)@, self@) ==> heap_wf(final(heap)@),
    {
        heap.new_env(self)
    }
}

/// The heap profile: the size of each arena and how many of its slots are
/// free.
pub struct GCInfo {
    pub values_heap_size: usize,
    pub values_heap_free: usize,
    pub environments_heap_size: usize,
    pub environments_heap_free: usize,
}

/// Both arenas of the interpreter.
pub struct Allocator {
    pub values: ItemAllocator<Value>,
    pub environments: ItemAllocator<Environment>,
}

impl View for Allocator {
    type V = MHeap;

    open spec fn view(&self) -> MHeap {
        MHeap {
            vals: Seq::new(
                self.values.items@.len(),
                |i: int|
                    MSlot {
                        item: self.values.items@[i]@,
                        marked: self.values.marked@[i],
                        free: self.values.freed@[i],
                    },
            ),
            vfree: Seq::new(self.values.free@.len(), |j: int| self.values.free@[j] as int),
            envs: Seq::new(
                self.environments.items@.len(),
                |i: int|
                    MSlot {
                        item: self.environments.items@[i]@,
                        marked: self.environments.marked@[i],
                        free: self.environments.freed@[i],
                    },
            ),
            efree: Seq::new(
                self.environments.free@.len(),
                |j: int| self.environments.free@[j] as int,
            ),
        }
    }
}

impl Allocator {
    /// Both arenas keep their free stacks in shape.
    pub open spec fn arenas_wf(&self) -> bool {
        self.values.wf() && self.environments.wf()
    }

    pub fn new() -> (r: Self)
        ensures
            r.arenas_wf(),
            r@.vals.len() == 0,
            r@.envs.len() == 0,
            r@.vfree.len() == 0,
            r@.efree.len() == 0,
    {
        Allocator { values: ItemAllocator::new(), environments: ItemAllocator::new() }
    }

    /// Allocate a value; the model transition is `alloc_val`.
    pub fn new_val(&mut self, val: Value) -> (p: ValPtr)
        requires
            old(self).arenas_wf(),
        ensures
            final(self).arenas_wf(),
            final(self)@ == alloc_val(old(self)@, val@).0,
            p@ == alloc_val(old(self)@, val@).1,
            p@ < final(self)@.vals.len(),
            heap_wf(old(self)@) && val_wf(old(self)@, val@) ==> heap_wf(final(self)@),
            forall|q: int|
                0 <= q < old(self)@.vals.len() && !(#[trigger] old(self)@.vals[q]).free && q != p@
                    ==> final(self)@.vals[q] == old(self)@.vals[q],
            forall|q: int|
                0 <= q < final(self)@.vals.len() && (#[trigger] final(self)@.vals[q]).marked ==> q
                    < old(self)@.vals.len() && old(self)@.vals[q].marked,
            final(self)@.envs == old(self)@.envs,
            final(self)@.vals.len() >= old(self)@.vals.len(),
    {
        let ghost pre = self@;
        let ghost target = alloc_val(pre, val@);
        let idx = self.values.allocate(val);
        proof {
            assert forall|j: int| 0 <= j < pre.vfree.len() implies 0 <= #[trigger] pre.vfree[j]
                < pre.vals.len() by {
                assert(old(self).values.free@[j] < old(self).values.items@.len());
            }
            if pre.vfree.len() == 0 {
                assert(self@.vals =~= pre.vals.push(
                    MSlot { item: val@, marked: false, free: false },
                ));
                assert(self@.vfree =~= pre.vfree);
            } else {
                assert(idx == pre.vfree.last());
                assert(self@.vals =~= pre.vals.update(
                    idx as int,
                    MSlot { item: val@, marked: false, free: false },
                ));
                assert(self@.vfree =~= pre.vfree.drop_last());
            }
            assert(self@.envs =~= pre.envs);
            assert(self@.efree =~= pre.efree);
            assert(self@ =~= target.0);
            if heap_wf(pre) && val_wf(pre, val@) {
                crate::interpreter::model::lemma_heap_wf_after_alloc_val(pre, val@);
            }
        }
        ValPtr { index: idx }
    }

    /// Allocate an environment; the model transition is `alloc_env`.
    pub fn new_env(&mut self, env: Environment) -> (p: EnvPtr)
        requires
            old(self).arenas_wf(),
        ensures
            final(self).arenas_wf(),
            final(self)@ == alloc_env(old(self)@, env@).0,
            p@ == alloc_env(old(self)@, env@).1,
            p@ < final(self)@.envs.len(),
            heap_wf(old(self)@) && env_wf(old(self)@, env@) ==> heap_wf(final(self)@),
            forall|q: int|
                0 <= q < old(self)@.envs.len() && !(#[trigger] old(self)@.envs[q]).free && q != p@
                    ==> final(self)@.envs[q] == old(self)@.envs[q],
            forall|q: int|
                0 <= q < final(self)@.envs.len() && (#[trigger] final(self)@.envs[q]).marked ==> q
                    < old(self)@.envs.len() && old(self)@.envs[q].marked,
            final(self)@.vals == old(self)@.vals,
            final(self)@.envs.len() >= old(self)@.envs.len(),
    {
        let ghost pre = self@;
        let ghost target = alloc_env(pre, env@);
        let idx = self.environments.allocate(env);
        proof {
            assert forall|j: int| 0 <= j < pre.efree.len() implies 0 <= #[trigger] pre.efree[j]
                < pre.envs.len() by {
                assert(old(self).environments.free@[j] < old(self).environments.items@.len());
            }
            if pre.efree.len() == 0 {
                assert(self@.envs =~= pre.envs.push(
                    MSlot { item: env@, marked: false, free: false },
                ));
                assert(self@.efree =~= pre.efree);
            } else {
                assert(idx == pre.efree.last());
                assert(self@.envs =~= pre.envs.update(
                    idx as int,
                    MSlot { item: env@, marked: false, free: false },
                ));
                assert(self@.efree =~= pre.efree.drop_last());
            }
            assert(self@.vals =~= pre.vals);
            assert(self@.vfree =~= pre.vfree);
            assert(self@ =~= target.0);
            if heap_wf(pre) && env_wf(pre, env@) {
                crate::interpreter::model::lemma_heap_wf_after_alloc_env(pre, env@);
            }
        }
        EnvPtr { index: idx }
    }

    /// Read the value behind a handle.
    pub fn get_val(&self, p: ValPtr) -> (r: &Value)
        requires
            p@ < self@.vals.len(),
        ensures
            r@ == self@.vals[p@].item,
    {
        self.values.get(p.index)
    }

    /// Resolve `name` in the chain starting at `env`: the local bindings
    /// first, then the parent, recursively.  Returns the bound value
    /// handle, or `None` when the symbol is unbound in the whole chain.
    pub fn get_bound_ptr(&self, env: EnvPtr, name: &str) -> (r: Option<ValPtr>)
        requires
            heap_wf(self@),
            env@ < self@.envs.len(),
        ensures
            r.deep_view() == lookup(self@, env@, name@, self@.envs.len() as nat),
    {
        let mut e = env;
        let mut fuel: usize = self.environments.items.len();
        loop
            invariant
                heap_wf(self@),
                e@ < self@.envs.len(),
                fuel <= self@.envs.len(),
                lookup(self@, env@, name@, self@.envs.len() as nat) == lookup(
                    self@,
                    e@,
                    name@,
                    fuel as nat,
                ),
            decreases fuel,
        {
            if fuel == 0 {
                return None;
            }
            let envr = self.environments.get(e.index);
            proof {
                assert(envr@ == self@.envs[e@].item);
            }
            match assoc_get(&envr.bindings, name) {
                Some(v) => {
                    return Some(v);
                },
                None => {
                    match envr.parent {
                        None => {
                            return None;
                        },
                        Some(p) => {
                            e = p;
                            fuel = fuel - 1;
                        },
                    }
                },
            }
        }
    }

    /// Bind `name` to `value` in exactly the environment `env`, replacing
    /// an existing binding of the same name; parents are never touched.
    pub fn set_bound_value(&mut self, env: EnvPtr, name: String, value: ValPtr)
        requires
            old(self).arenas_wf(),
            env@ < old(self)@.envs.len(),
        ensures
            final(self).arenas_wf(),
            final(self)@ == (MHeap {
                envs: old(self)@.envs.update(
                    env@,
                    MSlot {
                        item: MEnv {
                            parent: old(self)@.envs[env@].item.parent,
                            bindings: bind(old(self)@.envs[env@].item.bindings, name@, value@),
                        },
                        ..old(self)@.envs[env@]
                    },
                ),
                ..old(self)@
            }),
            heap_wf(old(self)@) && value@ < old(self)@.vals.len() ==> heap_wf(final(self)@),
    {
        let ghost pre = self@;
        let envr = self.environments.get(env.index);
        let parent = envr.parent;
        let new_bindings = rebind(&envr.bindings, name.as_str(), value);
        let new_env = Environment { parent, bindings: new_bindings };
        self.environments.set_item(env.index, new_env);
        proof {
            assert(self@.envs =~= pre.envs.update(
                env@,
                MSlot {
                    item: MEnv {
                        parent: pre.envs[env@].item.parent,
                        bindings: bind(pre.envs[env@].item.bindings, name@, value@),
                    },
                    ..pre.envs[env@]
                },
            ));
            assert(self@.vals =~= pre.vals);
            assert(self@.vfree =~= pre.vfree);
            assert(self@.efree =~= pre.efree);
            assert(self@ =~= (MHeap {
                envs: pre.envs.update(
                    env@,
                    MSlot {
                        item: MEnv {
                            parent: pre.envs[env@].item.parent,
                            bindings: bind(pre.envs[env@].item.bindings, name@, value@),
                        },
                        ..pre.envs[env@]
                    },
                ),
                ..pre
            }));
            if heap_wf(pre) && value@ < pre.vals.len() {
                crate::interpreter::model::lemma_heap_wf_after_bind(pre, env@, name@, value@);
            }
        }
    }

    /// The heap profile: arena sizes and free counts.
    pub fn profile(&self) -> (r: GCInfo)
        ensures
            r.values_heap_size == self@.vals.len(),
            r.values_heap_free == self@.vfree.len(),
            r.environments_heap_size == self@.envs.len(),
            r.environments_heap_free == self@.efree.len(),
    {
        GCInfo {
            values_heap_size: self.values.items.len(),
            values_heap_free: self.values.free.len(),
            environments_heap_size: self.environments.items.len(),
            environments_heap_free: self.environments.free.len(),
        }
    }
}

/// The first binding of `name` in the list, if any; the executable form of
/// the model's `assoc`.
fn assoc_get(bs: &Vec<(String, ValPtr)>, name: &str) -> (r: Option<ValPtr>)
    ensures
        r.deep_view() == assoc(bs.deep_view(), name@),
{
    let n = bs.len();
    let mut i: usize = 0;
    proof {
        assert(bs.deep_view().skip(0) =~= bs.deep_view());
    }
    while i < n
        invariant
            n == bs@.len(),
            i <= n,
            assoc(bs.deep_view(), name@) == assoc(bs.deep_view().skip(i as int), name@),
            forall|j: int| 0 <= j < i ==> (#[trigger] bs.deep_view()[j]).0 != name@,
        decreases n - i,
    {
        let hit = str_eq(bs[i].0.as_str(), name);
        proof {
            assert(bs.deep_view().skip(i as int)[0] == bs.deep_view()[i as int]);
        }
        if hit {
            return Some(bs[i].1);
        }
        proof {
            assert(bs.deep_view().skip(i as int).drop_first() =~= bs.deep_view().skip(i + 1));
        }
        i = i + 1;
    }
    proof {
        assert(bs.deep_view().skip(n as int).len() == 0);
    }
    None
}

/// The first `i` bindings after rebinding `name` to `v` in place.
spec fn rebound_prefix(bs: Seq<(Seq<char>, int)>, name: Seq<char>, v: int, i: int) -> Seq<
    (Seq<char>, int),
> {
    Seq::new(
        i as nat,
        |j: int|
            if bs[j].0 == name {
                (name, v)
            } else {
                bs[j]
            },
    )
}

/// A copy of the binding list with `name` bound to `v`: an existing
/// binding of `name` is replaced in place, otherwise the new binding is
/// appended; the executable form of the model's `bind`.
pub(crate) fn rebind(bs: &Vec<(String, ValPtr)>, name: &str, v: ValPtr) -> (r: Vec<(String, ValPtr)>)
    ensures
        r.deep_view() == bind(bs.deep_view(), name@, v@),
{
    let n = bs.len();
    let mut r: Vec<(String, ValPtr)> = Vec::new();
    let mut found = false;
    let mut i: usize = 0;
    proof {
        assert(r.deep_view() =~= rebound_prefix(bs.deep_view(), name@, v@, 0));
    }
    while i < n
        invariant
            n == bs@.len(),
            i <= n,
            r@.len() == i,
            found == exists|j: int| 0 <= j < i && (#[trigger] bs.deep_view()[j]).0 == name@,
            r.deep_view() == rebound_prefix(bs.deep_view(), name@, v@, i as int),
        decreases n - i,
    {
        let ghost r0 = r@;
        let ghost d0 = r.deep_view();
        let hit = str_eq(bs[i].0.as_str(), name);
        proof {
            assert(bs.deep_view()[i as int] == (bs@[i as int].0@, bs@[i as int].1@));
        }
        if hit {
            r.push((String::from_str(name), v));
            found = true;
            proof {
                assert(r.deep_view() =~= d0.push((name@, v@)));
            }
        } else {
            r.push((bs[i].0.clone(), bs[i].1));
            proof {
                assert(r.deep_view() =~= d0.push(bs.deep_view()[i as int]));
            }
        }
        proof {
            assert(r.deep_view() =~= rebound_prefix(bs.deep_view(), name@, v@, i + 1));
            if hit {
                assert((bs.deep_view()[i as int]).0 == name@);
            }
        }
        i = i + 1;
    }
    if !found {
        r.push((String::from_str(name), v));
        proof {
            assert(rebound_prefix(bs.deep_view(), name@, v@, n as int) =~= bs.deep_view());
            assert(r.deep_view() =~= bs.deep_view().push((name@, v@)));
        }
    } else {
        proof {
            assert(r.deep_view() =~= Seq::new(
                bs.deep_view().len(),
                |j: int|
                    if bs.deep_view()[j].0 == name@ {
                        (name@, v@)
                    } else {
                        bs.deep_view()[j]
                    },
            ));
        }
    }
    r
}

} // verus!
