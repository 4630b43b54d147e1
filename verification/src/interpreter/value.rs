//! Runtime values and the defunctionalized step representation.
//!
//! A step is a small tagged unit of deferred work over plain data, so a
//! continuation can snapshot the pending steps by copying them; an opaque
//! closure could not be captured this way.
use vstd::prelude::*;

verus! {

use crate::interpreter::model::{MAst, MCont, MFun, MStep, MVal, heap_wf, lower, lower_list};
use crate::interpreter::heap::Allocator;
use crate::parse::{AST, asts_view};

broadcast use vstd::std_specs::vec::group_vec_axioms, vstd::seq::group_seq_axioms;


/// A handle to a value slot: copyable, non-owning; the arena owns the
/// object.  Value handles and environment handles are distinct types and
/// cannot be interchanged.
#[derive(Clone, Copy, PartialEq, Eq, Structural, Debug)]
pub struct ValPtr {
    pub index: usize,
}

/// A handle to an environment slot.
#[derive(Clone, Copy, PartialEq, Eq, Structural, Debug)]
pub struct EnvPtr {
    pub index: usize,
}

impl View for ValPtr {
    type V = int;

    open spec fn view(&self) -> int {
        self.index as int
    }
}

impl DeepView for ValPtr {
    type V = int;

    open spec fn deep_view(&self) -> int {
        self.index as int
    }
}

impl View for EnvPtr {
    type V = int;

    open spec fn view(&self) -> int {
        self.index as int
    }
}

impl DeepView for EnvPtr {
    type V = int;

    open spec fn deep_view(&self) -> int {
        self.index as int
    }
}

/// The built-in primitives.  Keeping them as a closed set of tags (rather
/// than host function pointers) lets the apply step dispatch on plain
/// data.
#[derive(Clone, Copy, PartialEq, Eq, Structural, Debug)]
pub enum NativeFn {
    /// `+`: integer sum, 0 when empty.
    Plus,
    /// `*`: integer product, 1 when empty.
    Times,
    /// `i=`: integer equality.
    IntEq,
    /// `-`: integer difference.
    Minus,
    /// `cons`: allocate a pair.
    MakeCons,
    /// `call/cc`: reify the current continuation and pass it on.
    CallCc,
    /// `last`: the last argument.
    Last,
    /// `gc-profile`: report the heap profile.
    GcProfile,
    /// `gc-run`: collect garbage rooted at the caller's environment.
    GcRun,
}

/// One pending unit of work on the evaluator's step stack.
pub enum Step {
    /// Evaluate `node` in `env` and push its value.
    Eval { node: ValPtr, env: EnvPtr },
    /// Pop the evaluated condition and evaluate one branch.
    IfBranch { then_node: ValPtr, else_node: ValPtr, env: EnvPtr },
    /// Pop the evaluated right-hand side and bind it to `name` in `env`.
    DefineBind { name: String, env: EnvPtr },
    /// Pop the evaluated callee and operands and apply.
    Apply { env: EnvPtr },
}

impl View for Step {
    type V = MStep;

    open spec fn view(&self) -> MStep {
        match self {
            Step::Eval { node, env } => MStep::Eval { node: node@, env: env@ },
            Step::IfBranch { then_node, else_node, env } => MStep::IfBranch {
                then_node: then_node@,
                else_node: else_node@,
                env: env@,
            },
            Step::DefineBind { name, env } => MStep::DefineBind { name: name@, env: env@ },
            Step::Apply { env } => MStep::Apply { env: env@ },
        }
    }
}

impl DeepView for Step {
    type V = MStep;

    open spec fn deep_view(&self) -> MStep {
        self.view()
    }
}

/// A closure: ordered parameter names, the environment captured at the
/// `lambda` site, and the handle of the body expression.
pub struct Function {
    pub args: Vec<String>,
    pub env: EnvPtr,
    pub body: ValPtr,
}

/// A reified continuation: deep copies of the evaluator's pending steps,
/// result stack, and saved result stacks at capture time.
pub struct Continuation {
    pub next_steps: Vec<Step>,
    pub results: Vec<ValPtr>,
    pub saved_results: Vec<Vec<ValPtr>>,
}

impl View for Continuation {
    type V = MCont;

    open spec fn view(&self) -> MCont {
        MCont {
            steps: self.next_steps.deep_view(),
            results: self.results.deep_view(),
            saved: self.saved_results.deep_view(),
        }
    }
}

/// A runtime value: the tagged sum the evaluator works on.  The canonical
/// list is a right spine of `Cons` cells ending in `Nil`.
pub enum Value {
    Integer(i64),
    Bool(bool),
    Function(Function),
    NativeFunction(NativeFn),
    Symbol(String),
    Nil,
    Cons(ValPtr, ValPtr),
    Continuation(Continuation),
}

impl View for Value {
    type V = MVal;

    open spec fn view(&self) -> MVal {
        match self {
            Value::Integer(i) => MVal::Int(*i),
            Value::Bool(b) => MVal::Boolean(*b),
            Value::Function(f) => MVal::Fun(
                MFun { params: f.args.deep_view(), env: f.env@, body: f.body@ },
            ),
            Value::NativeFunction(nf) => MVal::Native(*nf),
            Value::Symbol(s) => MVal::Sym(s@),
            Value::Nil => MVal::Nil,
            Value::Cons(a, b) => MVal::Cons(a@, b@),
            Value::Continuation(c) => MVal::Cont(c@),
        }
    }
}

impl DeepView for Value {
    type V = MVal;

    open spec fn deep_view(&self) -> MVal {
        self.view()
    }
}

impl Value {
    /// Move this value into the arena and return its handle.
    pub fn gc(self, heap: &mut Allocator) -> (r: ValPtr)
        requires
            old(heap).arenas_wf(),
        ensures
            final(heap).arenas_wf(),
            final(heap)@ == crate::interpreter::model::alloc_val(old(heap)@, self@).0,
            r@ == crate::interpreter::model::alloc_val(old(heap)@, self@).1,
            heap_wf(old(heap)@) && crate::interpreter::model::val_wf(old(heap)@, self@)
                ==> heap_wf(final(heap)@),
    {
        heap.new_val(self)
    }

    /// Lower a syntax tree into allocated values: integers, booleans and
    /// symbols map one to one, and a syntax list becomes a right-nested
    /// chain of pairs ending in nil; the model transition is `lower`.
    pub fn from_ast(node: &AST, heap: &mut Allocator) -> (r: ValPtr)
        requires
            old(heap).arenas_wf(),
            heap_wf(old(heap)@),
        ensures
            final(heap).arenas_wf(),
            final(heap)@ == lower(old(heap)@, node@).0,
            r@ == lower(old(heap)@, node@).1,
            heap_wf(final(heap)@),
            r@ < final(heap)@.vals.len(),
            final(heap)@.envs == old(heap)@.envs,
            final(heap)@.vals.len() >= old(heap)@.vals.len(),
            forall|q: int|
                0 <= q < final(heap)@.vals.len() && (#[trigger] final(heap)@.vals[q]).marked ==> q
                    < old(heap)@.vals.len() && old(heap)@.vals[q].marked,
        decreases node,
    {
        match node {
            AST::Integer(i) => heap.new_val(Value::Integer(*i)),
            AST::Bool(b) => heap.new_val(Value::Bool(*b)),
            AST::Symbol(s) => heap.new_val(Value::Symbol(s.clone())),
            AST::List(l) => {
                let ghost pre = heap@;
                let ghost lv = asts_view(l@);
                let mut res = heap.new_val(Value::Nil);
                proof {
                    assert(lv.take(l@.len() as int) =~= lv);
                }
                let mut idx = l.len();
                while idx > 0
                    invariant
                        heap.arenas_wf(),
                        heap_wf(heap@),
                        idx <= l@.len(),
                        lv == asts_view(l@),
                        node@ == MAst::List(lv),
                        *node == AST::List(*l),
                        res@ < heap@.vals.len(),
                        heap@.envs == pre.envs,
                        heap@.vals.len() >= pre.vals.len(),
                        forall|q: int|
                            0 <= q < heap@.vals.len() && (#[trigger] heap@.vals[q]).marked ==> q
                                < pre.vals.len() && pre.vals[q].marked,
                        lower(pre, node@).0 == lower_list(heap@, lv.take(idx as int), res@).0,
                        lower(pre, node@).1 == lower_list(heap@, lv.take(idx as int), res@).1,
                    decreases idx,
                {
                    idx = idx - 1;
                    let ghost hb = heap@;
                    let ghost resb = res@;
                    proof {
                        assert(decreases_to!(*node => *l));
                        assert(decreases_to!(*l => l@));
                        assert(decreases_to!(l@ => l@[idx as int]));
                    }
                    let pe = Value::from_ast(&l[idx], heap);
                    proof {
                        assert(lv.take(idx + 1).len() == idx + 1);
                        assert(lv.take(idx + 1).last() == lv[idx as int]);
                        assert(lv[idx as int] == l@[idx as int]@);
                        assert(lv.take(idx + 1).drop_last() =~= lv.take(idx as int));
                        assert(crate::interpreter::model::val_wf(
                            heap@,
                            MVal::Cons(pe@, resb),
                        ));
                    }
                    let pc = heap.new_val(Value::Cons(pe, res));
                    res = pc;
                    proof {
                        assert forall|q: int|
                            0 <= q < heap@.vals.len() && (#[trigger] heap@.vals[q]).marked
                                implies q < pre.vals.len() && pre.vals[q].marked by {}
                    }
                }
                proof {
                    assert(lv.take(0) =~= Seq::<MAst>::empty());
                    assert(lower_list(heap@, lv.take(0), res@).0 == heap@);
                    assert(lower_list(heap@, lv.take(0), res@).1 == res@);
                }
                res
            },
        }
    }
}

/// A deep copy of one step; handles are plain indices, so only the bound
/// name of a `DefineBind` needs a fresh `String`.
pub fn step_clone(s: &Step) -> (r: Step)
    ensures
        r@ == s@,
{
    match s {
        Step::Eval { node, env } => Step::Eval { node: *node, env: *env },
        Step::IfBranch { then_node, else_node, env } => Step::IfBranch {
            then_node: *then_node,
            else_node: *else_node,
            env: *env,
        },
        Step::DefineBind { name, env } => Step::DefineBind { name: name.clone(), env: *env },
        Step::Apply { env } => Step::Apply { env: *env },
    }
}

/// A deep copy of a step list, for capturing or re-invoking a
/// continuation: every step is copyable data.
pub fn clone_steps(steps: &Vec<Step>) -> (r: Vec<Step>)
    ensures
        r.deep_view() == steps.deep_view(),
{
    let mut r: Vec<Step> = Vec::new();
    let n = steps.len();
    let mut i: usize = 0;
    while i < n
        invariant
            n == steps@.len(),
            i <= n,
            r@.len() == i,
            forall|j: int| #![auto] 0 <= j < i ==> r@[j]@ == steps@[j]@,
        decreases n - i,
    {
        r.push(step_clone(&steps[i]));
        i = i + 1;
    }
    proof {
        assert(r.deep_view() =~= steps.deep_view());
    }
    r
}

/// A copy of a result stack: handles are plain indices.
pub fn clone_ptrs(ptrs: &Vec<ValPtr>) -> (r: Vec<ValPtr>)
    ensures
        r.deep_view() == ptrs.deep_view(),
        r@ == ptrs@,
{
    let mut r: Vec<ValPtr> = Vec::new();
    let n = ptrs.len();
    let mut i: usize = 0;
    while i < n
        invariant
            n == ptrs@.len(),
            i <= n,
            r@ =~= ptrs@.take(i as int),
        decreases n - i,
    {
        r.push(ptrs[i]);
        i = i + 1;
    }
    proof {
        assert(r@ =~= ptrs@);
        assert(r.deep_view() =~= ptrs.deep_view());
    }
    r
}

/// A copy of the stack of saved result stacks.
pub fn clone_saved(saved: &Vec<Vec<ValPtr>>) -> (r: Vec<Vec<ValPtr>>)
    ensures
        r.deep_view() == saved.deep_view(),
{
    let mut r: Vec<Vec<ValPtr>> = Vec::new();
    let n = saved.len();
    let mut i: usize = 0;
    while i < n
        invariant
            n == saved@.len(),
            i <= n,
            r@.len() == i,
            forall|j: int| #![auto] 0 <= j < i ==> r@[j].deep_view() == saved@[j].deep_view(),
        decreases n - i,
    {
        r.push(clone_ptrs(&saved[i]));
        i = i + 1;
    }
    proof {
        assert(r.deep_view() =~= saved.deep_view());
    }
    r
}

} // verus!
