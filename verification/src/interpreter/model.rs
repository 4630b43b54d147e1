//! The mathematical model of the interpreter.
//!
//! Every executable structure of the evaluation engine has a ghost
//! counterpart here: heaps are sequences of slots, environments map symbol
//! names to value handles, pending work is a sequence of step descriptions.
//! The contracts of the executable code state that each operation performs
//! exactly the transition written down in this module, so the semantics of
//! the language is fixed by these spec functions alone.
use vstd::prelude::*;

verus! {

use crate::interpreter::value::NativeFn;

broadcast use vstd::seq::group_seq_axioms;


/// A syntax tree, abstractly: what `parse` produces, with symbol names as
/// character sequences.
#[verifier::ext_equal]
pub ghost enum MAst {
    Int(i64),
    Boolean(bool),
    Sym(Seq<char>),
    List(Seq<MAst>),
}

/// A closure: parameter names, the environment captured at the `lambda`
/// site, and the handle of the body expression.
#[verifier::ext_equal]
pub ghost struct MFun {
    pub params: Seq<Seq<char>>,
    pub env: int,
    pub body: int,
}

/// A reified continuation: a snapshot of the evaluator's pending steps,
/// result stack and saved result stacks.
#[verifier::ext_equal]
pub ghost struct MCont {
    pub steps: Seq<MStep>,
    pub results: Seq<int>,
    pub saved: Seq<Seq<int>>,
}

/// A runtime value.  `Cons` holds two value handles; `Fun` a closure;
/// `Native` one of the built-in primitives; `Cont` a continuation snapshot.
#[verifier::ext_equal]
pub ghost enum MVal {
    Int(i64),
    Boolean(bool),
    Sym(Seq<char>),
    Nil,
    Cons(int, int),
    Fun(MFun),
    Native(NativeFn),
    Cont(MCont),
}

/// An environment: an optional parent handle and a list of bindings from
/// symbol name to value handle, oldest first, names unique.
#[verifier::ext_equal]
pub ghost struct MEnv {
    pub parent: Option<int>,
    pub bindings: Seq<(Seq<char>, int)>,
}

/// One pending unit of work on the evaluator's step stack.
#[verifier::ext_equal]
pub ghost enum MStep {
    /// Evaluate the node in the environment and push its value.
    Eval { node: int, env: int },
    /// Pop the evaluated condition; evaluate one branch.
    IfBranch { then_node: int, else_node: int, env: int },
    /// Pop the evaluated right-hand side; bind it; push nil.
    DefineBind { name: Seq<char>, env: int },
    /// Pop the evaluated callee and operands; apply.
    Apply { env: int },
}

/// An arena slot: payload plus the mark and free flags.
#[verifier::ext_equal]
pub ghost struct MSlot<A> {
    pub item: A,
    pub marked: bool,
    pub free: bool,
}

/// Both arenas: value slots and environment slots, each with its stack of
/// reusable indices.
#[verifier::ext_equal]
pub ghost struct MHeap {
    pub vals: Seq<MSlot<MVal>>,
    pub vfree: Seq<int>,
    pub envs: Seq<MSlot<MEnv>>,
    pub efree: Seq<int>,
}

/// The whole machine: the heap, the step stack, the result stack, the
/// saved result stacks, and the pending error if any.
#[verifier::ext_equal]
pub ghost struct MState {
    pub heap: MHeap,
    pub steps: Seq<MStep>,
    pub results: Seq<int>,
    pub saved: Seq<Seq<int>>,
    pub error: Option<Seq<char>>,
}

// ---------------------------------------------------------------------------
// Allocation
// ---------------------------------------------------------------------------
/// Allocate a value slot: reuse the top of the free stack when one is
/// available, append a slot otherwise.  Returns the new heap and the handle.
pub open spec fn alloc_val(h: MHeap, v: MVal) -> (MHeap, int) {
    let slot = MSlot { item: v, marked: false, free: false };
    if h.vfree.len() == 0 || !(0 <= h.vfree.last() < h.vals.len()) {
        (MHeap { vals: h.vals.push(slot), ..h }, h.vals.len() as int)
    } else {
        let p = h.vfree.last();
        (MHeap { vals: h.vals.update(p, slot), vfree: h.vfree.drop_last(), ..h }, p)
    }
}

/// Allocate an environment slot, as `alloc_val` does for values.
pub open spec fn alloc_env(h: MHeap, e: MEnv) -> (MHeap, int) {
    let slot = MSlot { item: e, marked: false, free: false };
    if h.efree.len() == 0 || !(0 <= h.efree.last() < h.envs.len()) {
        (MHeap { envs: h.envs.push(slot), ..h }, h.envs.len() as int)
    } else {
        let p = h.efree.last();
        (MHeap { envs: h.envs.update(p, slot), efree: h.efree.drop_last(), ..h }, p)
    }
}

// ---------------------------------------------------------------------------
// Environments
// ---------------------------------------------------------------------------
/// The first binding of `name`, searching oldest first.  Since `bind`
/// keeps names unique the first match is the only one.
pub open spec fn assoc(bs: Seq<(Seq<char>, int)>, name: Seq<char>) -> Option<int>
    decreases bs.len(),
{
    if bs.len() == 0 {
        None
    } else if bs[0].0 == name {
        Some(bs[0].1)
    } else {
        assoc(bs.drop_first(), name)
    }
}

/// Insert-or-update: replace the target of an existing binding of `name`,
/// or append a new binding.
pub open spec fn bind(bs: Seq<(Seq<char>, int)>, name: Seq<char>, v: int) -> Seq<
    (Seq<char>, int),
> {
    if exists|j: int| 0 <= j < bs.len() && bs[j].0 == name {
        Seq::new(
            bs.len(),
            |j: int|
                if bs[j].0 == name {
                    (name, v)
                } else {
                    bs[j]
                },
        )
    } else {
        bs.push((name, v))
    }
}

/// Bind the first `n` parameter names to the first `n` argument handles in
/// order; a repeated name ends up bound to its last argument.
pub open spec fn bind_params(params: Seq<Seq<char>>, args: Seq<int>, n: int) -> Seq<
    (Seq<char>, int),
>
    decreases n,
{
    if n <= 0 {
        Seq::empty()
    } else {
        bind(bind_params(params, args, n - 1), params[n - 1], args[n - 1])
    }
}

/// Binding parameters to argument handles keeps every target in bounds.
pub proof fn lemma_bind_params_in_bounds(
    params: Seq<Seq<char>>,
    args: Seq<int>,
    n: int,
    bound: int,
)
    requires
        n <= args.len(),
        forall|i: int| 0 <= i < args.len() ==> 0 <= #[trigger] args[i] < bound,
    ensures
        forall|i: int|
            0 <= i < bind_params(params, args, n).len() ==> 0 <= (#[trigger] bind_params(
                params,
                args,
                n,
            )[i]).1 < bound,
    decreases n,
{
    if n > 0 {
        lemma_bind_params_in_bounds(params, args, n - 1, bound);
        let prev = bind_params(params, args, n - 1);
        let cur = bind_params(params, args, n);
        assert forall|i: int| 0 <= i < cur.len() implies 0 <= (#[trigger] cur[i]).1 < bound by {
            if exists|j: int| 0 <= j < prev.len() && prev[j].0 == params[n - 1] {
                assert(cur[i] == if prev[i].0 == params[n - 1] {
                    (params[n - 1], args[n - 1])
                } else {
                    prev[i]
                });
            } else {
                if i < prev.len() {
                    assert(cur[i] == prev[i]);
                } else {
                    assert(cur[i] == (params[n - 1], args[n - 1]));
                }
            }
        }
    }
}

/// Look `name` up in the chain starting at environment `e`: the local
/// bindings first, then the parent, recursively.  `fuel` bounds the walk;
/// any chain of distinct environments is shorter than the arena, so a fuel
/// of the arena's size resolves every lookup the evaluator can pose.
pub open spec fn lookup(h: MHeap, e: int, name: Seq<char>, fuel: nat) -> Option<int>
    decreases fuel,
{
    if fuel == 0 {
        None
    } else {
        match assoc(h.envs[e].item.bindings, name) {
            Some(v) => Some(v),
            None => match h.envs[e].item.parent {
                None => None,
                Some(p) => lookup(h, p, name, (fuel - 1) as nat),
            },
        }
    }
}

// ---------------------------------------------------------------------------
// Lists
// ---------------------------------------------------------------------------
/// The elements of the list starting at `p`: nil is the empty list, a cons
/// cell contributes its head, anything else is a malformed list (`None`).
/// `fuel` bounds the walk down the spine.
pub open spec fn elems(vals: Seq<MSlot<MVal>>, p: int, fuel: nat) -> Option<Seq<int>>
    decreases fuel,
{
    match vals[p].item {
        MVal::Nil => Some(Seq::empty()),
        MVal::Cons(hd, tl) => {
            if fuel == 0 {
                None
            } else {
                match elems(vals, tl, (fuel - 1) as nat) {
                    None => None,
                    Some(rest) => Some(seq![hd] + rest),
                }
            }
        },
        _ => None,
    }
}

/// The elements of the list value at `p` itself: nil is empty, a pair
/// contributes its head and the walk of its tail, anything else is
/// malformed.
pub open spec fn node_elems(vals: Seq<MSlot<MVal>>, p: int, fuel: nat) -> Option<Seq<int>> {
    match vals[p].item {
        MVal::Nil => Some(Seq::empty()),
        MVal::Cons(hd, tl) => match elems(vals, tl, fuel) {
            None => None,
            Some(rest) => Some(seq![hd] + rest),
        },
        _ => None,
    }
}

// ---------------------------------------------------------------------------
// Lowering
// ---------------------------------------------------------------------------
/// Lower a syntax tree to allocated values: integers, booleans and
/// symbols map one to one; a syntax list becomes a right-nested chain of
/// pairs ending in nil, built back to front after the nil sentinel.
pub open spec fn lower(h: MHeap, ast: MAst) -> (MHeap, int)
    decreases ast,
{
    match ast {
        MAst::Int(i) => alloc_val(h, MVal::Int(i)),
        MAst::Boolean(b) => alloc_val(h, MVal::Boolean(b)),
        MAst::Sym(s) => alloc_val(h, MVal::Sym(s)),
        MAst::List(l) => {
            let (h1, pnil) = alloc_val(h, MVal::Nil);
            lower_list(h1, l, pnil)
        },
    }
}

/// Lower the elements of a syntax list from the back, consing each onto
/// the chain built so far.
pub open spec fn lower_list(h: MHeap, l: Seq<MAst>, tail: int) -> (MHeap, int)
    decreases l,
{
    if l.len() == 0 {
        (h, tail)
    } else {
        let (h1, pe) = lower(h, l.last());
        let (h2, pc) = alloc_val(h1, MVal::Cons(pe, tail));
        lower_list(h2, l.drop_last(), pc)
    }
}

// ---------------------------------------------------------------------------
// Printing
// ---------------------------------------------------------------------------
/// The character of a single decimal digit.
pub open spec fn digit_char(d: int) -> char {
    if d == 0 {
        '0'
    } else if d == 1 {
        '1'
    } else if d == 2 {
        '2'
    } else if d == 3 {
        '3'
    } else if d == 4 {
        '4'
    } else if d == 5 {
        '5'
    } else if d == 6 {
        '6'
    } else if d == 7 {
        '7'
    } else if d == 8 {
        '8'
    } else {
        '9'
    }
}

/// The decimal digits of a non-negative integer, most significant first.
pub open spec fn dec_nat(n: int) -> Seq<char>
    decreases n,
{
    if n < 10 {
        seq![digit_char(n)]
    } else {
        dec_nat(n / 10).push(digit_char(n % 10))
    }
}

/// The decimal rendering of an integer, with a leading minus sign when
/// negative.
pub open spec fn dec_int(i: int) -> Seq<char> {
    if i < 0 {
        seq!['-'] + dec_nat(-i)
    } else {
        dec_nat(i)
    }
}

/// The printed form of a value: integers in decimal, `#t`/`#f`, symbols
/// as their name, `()` for nil, `(<car> . <cdr>)` for pairs, and an
/// opaque form for functions and continuations.  `fuel` bounds the
/// recursion into pairs; no acyclic heap ever exhausts it.
pub open spec fn print_v(vals: Seq<MSlot<MVal>>, v: MVal, fuel: nat) -> Seq<char>
    decreases fuel,
{
    match v {
        MVal::Int(i) => dec_int(i as int),
        MVal::Boolean(b) => if b {
            "#t"@
        } else {
            "#f"@
        },
        MVal::Sym(name) => name,
        MVal::Nil => "()"@,
        MVal::Fun(_) => "<lisp function>"@,
        MVal::Native(_) => "<native function>"@,
        MVal::Cont(_) => "<continuation>"@,
        MVal::Cons(a, b) => {
            if fuel == 0 {
                "..."@
            } else {
                "("@ + print_v(vals, vals[a].item, (fuel - 1) as nat) + " . "@ + print_v(
                    vals,
                    vals[b].item,
                    (fuel - 1) as nat,
                ) + ")"@
            }
        },
    }
}

/// The printed form of the value at `p`.
pub open spec fn print_val(vals: Seq<MSlot<MVal>>, p: int, fuel: nat) -> Seq<char> {
    print_v(vals, vals[p].item, fuel)
}

// ---------------------------------------------------------------------------
// Error messages
// ---------------------------------------------------------------------------
pub open spec fn msg_unbound(name: Seq<char>) -> Seq<char> {
    "unbound symbol: "@ + name
}

pub open spec fn msg_empty_list() -> Seq<char> {
    "cannot evaluate empty list"@
}

pub open spec fn msg_bad_list() -> Seq<char> {
    "attempt to evaluate malformed list"@
}

pub open spec fn msg_invalid_if() -> Seq<char> {
    "invalid structure for if expression"@
}

pub open spec fn msg_invalid_lambda() -> Seq<char> {
    "invalid structure for lambda expression"@
}

pub open spec fn msg_invalid_define() -> Seq<char> {
    "invalid structure for define expression"@
}

pub open spec fn msg_invalid_quote() -> Seq<char> {
    "invalid structure for quote expression"@
}

pub open spec fn msg_wrong_args(expected: int, received: int) -> Seq<char> {
    "wrong number of arguments: expected "@ + dec_nat(expected) + ", received "@ + dec_nat(
        received,
    )
}

pub open spec fn msg_cont_one_arg() -> Seq<char> {
    "continuation must be called with 1 argument"@
}

pub open spec fn msg_non_function(printed: Seq<char>) -> Seq<char> {
    "attempt to call a non-function value: "@ + printed
}

/// The driver found its own bookkeeping out of shape: a step needed a
/// result or a saved frame that was not there.  No reachable machine state
/// produces this.
pub open spec fn msg_state() -> Seq<char> {
    "evaluator state corrupted"@
}

/// Record an error; the rest of the state is left as it stands (the driver
/// clears it when it reports).
pub open spec fn err(s: MState, msg: Seq<char>) -> MState {
    MState { error: Some(msg), ..s }
}

// ---------------------------------------------------------------------------
// Well-formedness: every handle stored anywhere points into its arena.
// ---------------------------------------------------------------------------
pub open spec fn step_wf(h: MHeap, st: MStep) -> bool {
    match st {
        MStep::Eval { node, env } => 0 <= node < h.vals.len() && 0 <= env < h.envs.len(),
        MStep::IfBranch { then_node, else_node, env } => 0 <= then_node < h.vals.len() && 0
            <= else_node < h.vals.len() && 0 <= env < h.envs.len(),
        MStep::DefineBind { name, env } => 0 <= env < h.envs.len(),
        MStep::Apply { env } => 0 <= env < h.envs.len(),
    }
}

pub open spec fn cont_wf(h: MHeap, c: MCont) -> bool {
    &&& forall|i: int| 0 <= i < c.steps.len() ==> step_wf(h, #[trigger] c.steps[i])
    &&& forall|i: int| 0 <= i < c.results.len() ==> 0 <= #[trigger] c.results[i] < h.vals.len()
    &&& forall|i: int, j: int|
        0 <= i < c.saved.len() && 0 <= j < c.saved[i].len() ==> 0 <= #[trigger] c.saved[i][j]
            < h.vals.len()
}

pub open spec fn val_wf(h: MHeap, v: MVal) -> bool {
    match v {
        MVal::Cons(a, b) => 0 <= a < h.vals.len() && 0 <= b < h.vals.len(),
        MVal::Fun(f) => 0 <= f.env < h.envs.len() && 0 <= f.body < h.vals.len(),
        MVal::Cont(c) => cont_wf(h, c),
        _ => true,
    }
}

pub open spec fn env_wf(h: MHeap, e: MEnv) -> bool {
    &&& match e.parent {
        None => true,
        Some(p) => 0 <= p < h.envs.len(),
    }
    &&& forall|i: int|
        0 <= i < e.bindings.len() ==> 0 <= (#[trigger] e.bindings[i]).1 < h.vals.len()
}

pub open spec fn heap_wf(h: MHeap) -> bool {
    &&& forall|i: int| #![auto] 0 <= i < h.vals.len() ==> val_wf(h, h.vals[i].item)
    &&& forall|i: int| #![auto] 0 <= i < h.envs.len() ==> env_wf(h, h.envs[i].item)
    &&& forall|j: int| 0 <= j < h.vfree.len() ==> 0 <= #[trigger] h.vfree[j] < h.vals.len()
    &&& forall|j: int| 0 <= j < h.efree.len() ==> 0 <= #[trigger] h.efree[j] < h.envs.len()
}

pub open spec fn steps_wf(h: MHeap, steps: Seq<MStep>) -> bool {
    forall|i: int| 0 <= i < steps.len() ==> step_wf(h, #[trigger] steps[i])
}

pub open spec fn results_wf(h: MHeap, rs: Seq<int>) -> bool {
    forall|i: int| 0 <= i < rs.len() ==> 0 <= #[trigger] rs[i] < h.vals.len()
}

pub open spec fn saved_wf(h: MHeap, sv: Seq<Seq<int>>) -> bool {
    forall|i: int, j: int|
        0 <= i < sv.len() && 0 <= j < sv[i].len() ==> 0 <= #[trigger] sv[i][j] < h.vals.len()
}

pub open spec fn state_wf(s: MState) -> bool {
    &&& heap_wf(s.heap)
    &&& steps_wf(s.heap, s.steps)
    &&& results_wf(s.heap, s.results)
    &&& saved_wf(s.heap, s.saved)
}

/// Handle bounds only grow under allocation, so well-formed pending state
/// stays well-formed on any larger heap.
pub proof fn lemma_pending_wf_grow(
    h1: MHeap,
    h2: MHeap,
    steps: Seq<MStep>,
    rs: Seq<int>,
    sv: Seq<Seq<int>>,
)
    requires
        h2.vals.len() >= h1.vals.len(),
        h2.envs.len() >= h1.envs.len(),
    ensures
        steps_wf(h1, steps) ==> steps_wf(h2, steps),
        results_wf(h1, rs) ==> results_wf(h2, rs),
        saved_wf(h1, sv) ==> saved_wf(h2, sv),
{
    if steps_wf(h1, steps) {
        assert forall|i: int| 0 <= i < steps.len() implies step_wf(h2, #[trigger] steps[i]) by {
            assert(step_wf(h1, steps[i]));
        }
    }
}

/// Handle bounds only grow: a value well-formed for a heap stays
/// well-formed for any heap with at least as many slots.
pub proof fn lemma_val_wf_len(h1: MHeap, h2: MHeap, v: MVal)
    requires
        h2.vals.len() >= h1.vals.len(),
        h2.envs.len() >= h1.envs.len(),
        val_wf(h1, v),
    ensures
        val_wf(h2, v),
{
    match v {
        MVal::Cont(c) => {
            assert forall|i: int| 0 <= i < c.steps.len() implies step_wf(h2, #[trigger] c.steps[i]) by {
                assert(step_wf(h1, c.steps[i]));
            }
        },
        _ => {},
    }
}

pub proof fn lemma_env_wf_len(h1: MHeap, h2: MHeap, e: MEnv)
    requires
        h2.vals.len() >= h1.vals.len(),
        h2.envs.len() >= h1.envs.len(),
        env_wf(h1, e),
    ensures
        env_wf(h2, e),
{
}

pub proof fn lemma_heap_wf_after_alloc_val(h: MHeap, v: MVal)
    requires
        heap_wf(h),
        val_wf(h, v),
    ensures
        heap_wf(alloc_val(h, v).0),
{
    let h2 = alloc_val(h, v).0;
    assert forall|i: int| 0 <= i < h2.vals.len() implies val_wf(h2, #[trigger] h2.vals[i].item) by {
        if h2.vals[i].item == v {
            lemma_val_wf_len(h, h2, v);
        } else {
            assert(h2.vals[i].item == h.vals[i].item);
            lemma_val_wf_len(h, h2, h.vals[i].item);
        }
    }
    assert forall|i: int| 0 <= i < h2.envs.len() implies env_wf(h2, #[trigger] h2.envs[i].item) by {
        lemma_env_wf_len(h, h2, h.envs[i].item);
    }
}

pub proof fn lemma_heap_wf_after_alloc_env(h: MHeap, e: MEnv)
    requires
        heap_wf(h),
        env_wf(h, e),
    ensures
        heap_wf(alloc_env(h, e).0),
{
    let h2 = alloc_env(h, e).0;
    assert forall|i: int| 0 <= i < h2.vals.len() implies val_wf(h2, #[trigger] h2.vals[i].item) by {
        lemma_val_wf_len(h, h2, h.vals[i].item);
    }
    assert forall|i: int| 0 <= i < h2.envs.len() implies env_wf(h2, #[trigger] h2.envs[i].item) by {
        if h2.envs[i].item == e {
            lemma_env_wf_len(h, h2, e);
        } else {
            assert(h2.envs[i].item == h.envs[i].item);
            lemma_env_wf_len(h, h2, h.envs[i].item);
        }
    }
}

/// Rebinding a name in one environment keeps the heap well-formed.
pub proof fn lemma_heap_wf_after_bind(h: MHeap, env: int, name: Seq<char>, v: int)
    requires
        heap_wf(h),
        0 <= env < h.envs.len(),
        0 <= v < h.vals.len(),
    ensures
        heap_wf(
            MHeap {
                envs: h.envs.update(
                    env,
                    MSlot {
                        item: MEnv {
                            parent: h.envs[env].item.parent,
                            bindings: bind(h.envs[env].item.bindings, name, v),
                        },
                        ..h.envs[env]
                    },
                ),
                ..h
            },
        ),
{
    let e = h.envs[env].item;
    let bs2 = bind(e.bindings, name, v);
    let e2 = MEnv { parent: e.parent, bindings: bs2 };
    let h2 = MHeap {
        envs: h.envs.update(env, MSlot { item: e2, ..h.envs[env] }),
        ..h
    };
    assert forall|i: int|
        0 <= i < bs2.len() implies 0 <= (#[trigger] bs2[i]).1 < h.vals.len() by {
        if exists|j: int| 0 <= j < e.bindings.len() && e.bindings[j].0 == name {
            assert(bs2[i] == if e.bindings[i].0 == name {
                (name, v)
            } else {
                e.bindings[i]
            });
        } else {
            if i < e.bindings.len() {
                assert(bs2[i] == e.bindings[i]);
            } else {
                assert(bs2[i] == (name, v));
            }
        }
    }
    assert(env_wf(h, e2));
    assert forall|i: int| 0 <= i < h2.vals.len() implies val_wf(h2, #[trigger] h2.vals[i].item) by {
        lemma_val_wf_len(h, h2, h.vals[i].item);
    }
    assert forall|i: int| 0 <= i < h2.envs.len() implies env_wf(h2, #[trigger] h2.envs[i].item) by {
        if i == env {
            lemma_env_wf_len(h, h2, e2);
        } else {
            lemma_env_wf_len(h, h2, h.envs[i].item);
        }
    }
}

// ---------------------------------------------------------------------------
// The transition function
// ---------------------------------------------------------------------------
/// The steps that evaluate `nodes[0]`, …, `nodes[n-1]` in that order once
/// popped from the stack: the stack is LIFO, so they stand reversed.
pub open spec fn eval_steps_rev(nodes: Seq<int>, env: int) -> Seq<MStep> {
    Seq::new(nodes.len(), |i: int| MStep::Eval { node: nodes[nodes.len() - 1 - i], env })
}

/// Begin a function application `(nodes[0] nodes[1] …)`: set the current
/// results aside, push an apply step, and push one evaluation step per
/// element, the callee's on top.
pub open spec fn func_call_effect(s: MState, nodes: Seq<int>, env: int) -> MState {
    MState {
        saved: s.saved.push(s.results),
        results: Seq::empty(),
        steps: s.steps.push(MStep::Apply { env }) + eval_steps_rev(nodes, env),
        ..s
    }
}

/// Evaluate the node at `node` in environment `env`: self-evaluating
/// values push their own handle; symbols look themselves up; nil and
/// malformed lists are errors; special forms push their steps; any other
/// list begins a function application.
pub open spec fn eval_effect(s: MState, node: int, env: int) -> MState {
    match s.heap.vals[node].item {
        MVal::Int(_) => MState { results: s.results.push(node), ..s },
        MVal::Boolean(_) => MState { results: s.results.push(node), ..s },
        MVal::Native(_) => MState { results: s.results.push(node), ..s },
        MVal::Fun(_) => MState { results: s.results.push(node), ..s },
        MVal::Cont(_) => MState { results: s.results.push(node), ..s },
        MVal::Sym(name) => {
            match lookup(s.heap, env, name, s.heap.envs.len() as nat) {
                Some(v) => MState { results: s.results.push(v), ..s },
                None => err(s, msg_unbound(name)),
            }
        },
        MVal::Nil => err(s, msg_empty_list()),
        MVal::Cons(hd, tl) => {
            match elems(s.heap.vals, tl, s.heap.vals.len() as nat) {
                None => err(s, msg_bad_list()),
                Some(rest) => {
                    let nodes = seq![hd] + rest;
                    match s.heap.vals[hd].item {
                        MVal::Sym(sym) => {
                            if sym == "if"@ {
                                if_form_effect(s, nodes, env)
                            } else if sym == "lambda"@ {
                                lambda_form_effect(s, nodes, env)
                            } else if sym == "quote"@ {
                                quote_form_effect(s, nodes, env)
                            } else if sym == "define"@ {
                                define_form_effect(s, nodes, env)
                            } else {
                                func_call_effect(s, nodes, env)
                            }
                        },
                        _ => func_call_effect(s, nodes, env),
                    }
                },
            }
        },
    }
}

/// `(if c t e)`: push the branch step, then the step that evaluates `c`.
pub open spec fn if_form_effect(s: MState, nodes: Seq<int>, env: int) -> MState {
    if nodes.len() != 4 {
        err(s, msg_invalid_if())
    } else {
        MState {
            steps: s.steps.push(
                MStep::IfBranch { then_node: nodes[2], else_node: nodes[3], env },
            ).push(MStep::Eval { node: nodes[1], env }),
            ..s
        }
    }
}

/// `(quote x)`: push the handle of `x` itself, unevaluated.
pub open spec fn quote_form_effect(s: MState, nodes: Seq<int>, env: int) -> MState {
    if nodes.len() != 2 {
        err(s, msg_invalid_quote())
    } else {
        MState { results: s.results.push(nodes[1]), ..s }
    }
}

/// `(define name expr)`: push the binding step, then the step that
/// evaluates `expr`.
pub open spec fn define_form_effect(s: MState, nodes: Seq<int>, env: int) -> MState {
    if nodes.len() != 3 {
        err(s, msg_invalid_define())
    } else {
        match s.heap.vals[nodes[1]].item {
            MVal::Sym(name) => MState {
                steps: s.steps.push(MStep::DefineBind { name, env }).push(
                    MStep::Eval { node: nodes[2], env },
                ),
                ..s
            },
            _ => err(s, msg_invalid_define()),
        }
    }
}

/// Do all the values in the list starting at `p` print as symbols?  Their
/// names, in order, if so.
pub open spec fn symbol_names(vals: Seq<MSlot<MVal>>, hs: Seq<int>) -> Option<Seq<Seq<char>>>
    decreases hs.len(),
{
    if hs.len() == 0 {
        Some(Seq::empty())
    } else {
        match vals[hs[0]].item {
            MVal::Sym(name) => match symbol_names(vals, hs.drop_first()) {
                None => None,
                Some(rest) => Some(seq![name] + rest),
            },
            _ => None,
        }
    }
}

/// A found binding is one of the list's targets.
pub proof fn lemma_assoc_in_bounds(bs: Seq<(Seq<char>, int)>, name: Seq<char>, bound: int)
    requires
        forall|i: int| 0 <= i < bs.len() ==> 0 <= (#[trigger] bs[i]).1 < bound,
        assoc(bs, name) is Some,
    ensures
        0 <= assoc(bs, name)->0 < bound,
    decreases bs.len(),
{
    if bs.len() > 0 && bs[0].0 != name {
        lemma_assoc_in_bounds(bs.drop_first(), name, bound);
    }
}

/// A successful lookup yields a value handle of the arena.
pub proof fn lemma_lookup_in_bounds(h: MHeap, e: int, name: Seq<char>, fuel: nat)
    requires
        heap_wf(h),
        0 <= e < h.envs.len(),
    ensures
        lookup(h, e, name, fuel) is Some ==> 0 <= lookup(h, e, name, fuel)->0 < h.vals.len(),
    decreases fuel,
{
    if fuel > 0 {
        assert(env_wf(h, h.envs[e].item));
        if assoc(h.envs[e].item.bindings, name) is Some {
            lemma_assoc_in_bounds(h.envs[e].item.bindings, name, h.vals.len() as int);
        } else {
            match h.envs[e].item.parent {
                None => {},
                Some(p) => {
                    lemma_lookup_in_bounds(h, p, name, (fuel - 1) as nat);
                },
            }
        }
    }
}

/// When every listed value is a symbol, `symbol_names` returns exactly
/// their names.
pub proof fn lemma_symbol_names_all(
    vals: Seq<MSlot<MVal>>,
    hs: Seq<int>,
    nm: Seq<Seq<char>>,
)
    requires
        nm.len() == hs.len(),
        forall|j: int|
            0 <= j < hs.len() ==> vals[#[trigger] hs[j]].item == MVal::Sym(nm[j]),
    ensures
        symbol_names(vals, hs) == Some(nm),
    decreases hs.len(),
{
    if hs.len() == 0 {
        assert(nm =~= Seq::<Seq<char>>::empty());
    } else {
        lemma_symbol_names_all(vals, hs.drop_first(), nm.drop_first());
        assert(vals[hs[0]].item == MVal::Sym(nm[0]));
        assert(seq![nm[0]] + nm.drop_first() =~= nm);
    }
}

/// One non-symbol in the list makes `symbol_names` fail.
pub proof fn lemma_symbol_names_none(vals: Seq<MSlot<MVal>>, hs: Seq<int>, i: int)
    requires
        0 <= i < hs.len(),
        !(vals[hs[i]].item is Sym),
    ensures
        symbol_names(vals, hs) is None,
    decreases hs.len(),
{
    if i > 0 {
        if vals[hs[0]].item is Sym {
            lemma_symbol_names_none(vals, hs.drop_first(), i - 1);
        }
    }
}

/// `(lambda (x1 … xn) body)`: build a closure over the current
/// environment and push its handle.  The parameter position must be a
/// proper (possibly empty) list of symbols.
pub open spec fn lambda_form_effect(s: MState, nodes: Seq<int>, env: int) -> MState {
    if nodes.len() != 3 {
        err(s, msg_invalid_lambda())
    } else {
        match node_elems(s.heap.vals, nodes[1], s.heap.vals.len() as nat) {
            None => err(s, msg_invalid_lambda()),
            Some(param_nodes) => {
                match symbol_names(s.heap.vals, param_nodes) {
                    None => err(s, msg_invalid_lambda()),
                    Some(names) => {
                        let f = MVal::Fun(MFun { params: names, env, body: nodes[2] });
                        let (h2, fp) = alloc_val(s.heap, f);
                        MState { heap: h2, results: s.results.push(fp), ..s }
                    },
                }
            },
        }
    }
}

/// The branch step of `if`: pop the condition's value; evaluate the else
/// branch if it is `#f`, the then branch otherwise.  The branch not taken
/// is never evaluated.
pub open spec fn if_branch_effect(s: MState, then_node: int, else_node: int, env: int) -> MState {
    if s.results.len() == 0 {
        err(s, msg_state())
    } else {
        let c = s.results.last();
        let popped = MState { results: s.results.drop_last(), ..s };
        if popped.heap.vals[c].item == MVal::Boolean(false) {
            MState {
                steps: popped.steps.push(MStep::Eval { node: else_node, env }),
                ..popped
            }
        } else {
            MState {
                steps: popped.steps.push(MStep::Eval { node: then_node, env }),
                ..popped
            }
        }
    }
}

/// The binding step of `define`: pop the value, bind it to `name` in the
/// step's own environment (never a parent), and push nil as the form's
/// result.
pub open spec fn define_bind_effect(s: MState, name: Seq<char>, env: int) -> MState {
    if s.results.len() != 1 || !(0 <= env < s.heap.envs.len()) {
        err(s, msg_state())
    } else {
        let v = s.results.last();
        let e = s.heap.envs[env].item;
        let e2 = MEnv { bindings: bind(e.bindings, name, v), ..e };
        let h2 = MHeap {
            envs: s.heap.envs.update(env, MSlot { item: e2, ..s.heap.envs[env] }),
            ..s.heap
        };
        let (h3, nil_p) = alloc_val(h2, MVal::Nil);
        MState { heap: h3, results: s.results.drop_last().push(nil_p), ..s }
    }
}

/// The apply step: take this call's evaluated callee and operands off the
/// result stack, restore the caller's results, and dispatch on the callee:
/// a closure gets a fresh child environment binding its parameters and its
/// body is evaluated there; a native primitive runs; a continuation
/// replaces the machine's pending work with its snapshot and hands it the
/// single argument; anything else is an error naming the printed value.
pub open spec fn apply_effect(s: MState, env: int) -> MState {
    if s.saved.len() == 0 || s.results.len() == 0 {
        err(s, msg_state())
    } else {
        let vals_list = s.results;
        let restored = MState { results: s.saved.last(), saved: s.saved.drop_last(), ..s };
        let f = vals_list[0];
        let args = vals_list.drop_first();
        match restored.heap.vals[f].item {
            MVal::Fun(fun) => {
                if fun.params.len() != args.len() {
                    err(restored, msg_wrong_args(fun.params.len() as int, args.len() as int))
                } else {
                    let e = MEnv {
                        parent: Some(fun.env),
                        bindings: bind_params(fun.params, args, args.len() as int),
                    };
                    let (h2, ep) = alloc_env(restored.heap, e);
                    MState {
                        heap: h2,
                        steps: restored.steps.push(MStep::Eval { node: fun.body, env: ep }),
                        ..restored
                    }
                }
            },
            MVal::Native(nf) => native_effect(restored, env, nf, args),
            MVal::Cont(c) => {
                if args.len() != 1 {
                    err(restored, msg_cont_one_arg())
                } else {
                    MState {
                        steps: c.steps,
                        results: c.results.push(args[0]),
                        saved: c.saved,
                        ..restored
                    }
                }
            },
            _ => err(
                restored,
                msg_non_function(
                    print_val(restored.heap.vals, f, restored.heap.vals.len() as nat),
                ),
            ),
        }
    }
}

// ---------------------------------------------------------------------------
// Native primitives
// ---------------------------------------------------------------------------
/// Are all the argument values integers?
pub open spec fn all_ints(vals: Seq<MSlot<MVal>>, args: Seq<int>) -> bool {
    forall|i: int| 0 <= i < args.len() ==> vals[args[i]].item is Int
}

/// The integer payloads of the arguments.
pub open spec fn int_args(vals: Seq<MSlot<MVal>>, args: Seq<int>) -> Seq<i64> {
    args.map(|i: int, p: int| vals[p].item->Int_0)
}

/// The sum of a sequence of 64-bit integers, wrapping on overflow as the
/// machine's addition does; the empty sum is 0.
pub open spec fn wrap_sum(xs: Seq<i64>) -> i64
    decreases xs.len(),
{
    if xs.len() == 0 {
        0
    } else {
        vstd::wrapping::i64_specs::wrapping_add(wrap_sum(xs.drop_last()), xs.last())
    }
}

/// The product of a sequence of 64-bit integers, wrapping on overflow; the
/// empty product is 1.
pub open spec fn wrap_prod(xs: Seq<i64>) -> i64
    decreases xs.len(),
{
    if xs.len() == 0 {
        1
    } else {
        vstd::wrapping::i64_specs::wrapping_mul(wrap_prod(xs.drop_last()), xs.last())
    }
}

/// Push a freshly allocated value as the native's one result.
pub open spec fn push_new_val(s: MState, v: MVal) -> MState {
    let (h2, p) = alloc_val(s.heap, v);
    MState { heap: h2, results: s.results.push(p), ..s }
}

/// What each built-in primitive does, given the caller's environment and
/// the evaluated argument handles.  Every primitive pushes exactly one
/// result or records an error.
pub open spec fn native_effect(s: MState, env: int, nf: NativeFn, args: Seq<int>) -> MState {
    match nf {
        NativeFn::Plus => {
            if !all_ints(s.heap.vals, args) {
                err(s, "all arguments to '+' must be integers"@)
            } else {
                push_new_val(s, MVal::Int(wrap_sum(int_args(s.heap.vals, args))))
            }
        },
        NativeFn::Times => {
            if !all_ints(s.heap.vals, args) {
                err(s, "all arguments to '*' must be integers"@)
            } else {
                push_new_val(s, MVal::Int(wrap_prod(int_args(s.heap.vals, args))))
            }
        },
        NativeFn::IntEq => {
            if args.len() != 2 {
                err(s, "i= takes 2 arguments"@)
            } else if !(s.heap.vals[args[0]].item is Int) {
                err(s, "the first argument to 'i=' must be an integer"@)
            } else if !(s.heap.vals[args[1]].item is Int) {
                err(s, "the second argument to 'i=' must be an integer"@)
            } else {
                push_new_val(
                    s,
                    MVal::Boolean(
                        s.heap.vals[args[0]].item->Int_0 == s.heap.vals[args[1]].item->Int_0,
                    ),
                )
            }
        },
        NativeFn::Minus => {
            if args.len() != 2 {
                err(s, "'-' takes 2 arguments"@)
            } else if !(s.heap.vals[args[0]].item is Int) {
                err(s, "the first argument to '-' must be an integer"@)
            } else if !(s.heap.vals[args[1]].item is Int) {
                err(s, "the second argument to '-' must be an integer"@)
            } else {
                push_new_val(
                    s,
                    MVal::Int(
                        vstd::wrapping::i64_specs::wrapping_sub(
                            s.heap.vals[args[0]].item->Int_0,
                            s.heap.vals[args[1]].item->Int_0,
                        ),
                    ),
                )
            }
        },
        NativeFn::MakeCons => {
            if args.len() != 2 {
                err(s, "cons takes 2 arguments"@)
            } else {
                push_new_val(s, MVal::Cons(args[0], args[1]))
            }
        },
        NativeFn::CallCc => {
            if args.len() != 1 {
                err(s, "call/cc takes 1 argument"@)
            } else {
                let snapshot = MCont { steps: s.steps, results: s.results, saved: s.saved };
                let (h2, kp) = alloc_val(s.heap, MVal::Cont(snapshot));
                let s2 = MState { heap: h2, ..s };
                func_call_effect(s2, seq![args[0], kp], env)
            }
        },
        NativeFn::Last => {
            if args.len() == 0 {
                err(s, "last requires at least 1 argument"@)
            } else {
                MState { results: s.results.push(args.last()), ..s }
            }
        },
        NativeFn::GcProfile => push_new_val(s, MVal::Nil),
        NativeFn::GcRun => {
            let s2 = MState { heap: gc_spec(s.heap, env), ..s };
            push_new_val(s2, MVal::Nil)
        },
    }
}

// ---------------------------------------------------------------------------
// Reachability and collection
// ---------------------------------------------------------------------------
/// The value handles embedded in a pending step.
pub open spec fn step_val_children(st: MStep) -> Set<int> {
    match st {
        MStep::Eval { node, env } => set![node],
        MStep::IfBranch { then_node, else_node, env } => set![then_node, else_node],
        MStep::DefineBind { name, env } => Set::empty(),
        MStep::Apply { env } => Set::empty(),
    }
}

/// The environment handle a pending step works in.
pub open spec fn step_env_children(st: MStep) -> Set<int> {
    match st {
        MStep::Eval { node, env } => set![env],
        MStep::IfBranch { then_node, else_node, env } => set![env],
        MStep::DefineBind { name, env } => set![env],
        MStep::Apply { env } => set![env],
    }
}

/// The value handles a value points at directly: a pair's head and tail; a
/// continuation's result stacks and the handles embedded in its snapshot
/// of pending steps.
pub open spec fn val_val_children(v: MVal) -> Set<int> {
    match v {
        MVal::Cons(a, b) => set![a, b],
        MVal::Cont(c) => Set::new(
            |p: int|
                c.results.contains(p) || (exists|i: int|
                    0 <= i < c.saved.len() && c.saved[i].contains(p)) || (exists|i: int|
                    0 <= i < c.steps.len() && step_val_children(#[trigger] c.steps[i]).contains(p)),
        ),
        _ => Set::empty(),
    }
}

/// The environment handles a value points at: a closure's captured
/// environment, or the environments of a continuation's pending steps.
pub open spec fn val_env_children(v: MVal) -> Set<int> {
    match v {
        MVal::Fun(f) => set![f.env],
        MVal::Cont(c) => Set::new(
            |e: int|
                exists|i: int|
                    0 <= i < c.steps.len() && step_env_children(#[trigger] c.steps[i]).contains(e),
        ),
        _ => Set::empty(),
    }
}

/// One object of either arena, for reachability: environments are
/// numbered after the values.
pub open spec fn reach_edge(h: MHeap, a: int, b: int) -> bool {
    let nv = h.vals.len() as int;
    if a < nv {
        (b < nv && val_val_children(h.vals[a].item).contains(b)) || (b >= nv && val_env_children(
            h.vals[a].item,
        ).contains(b - nv))
    } else {
        let e = h.envs[a - nv].item;
        (b >= nv && e.parent == Some(b - nv)) || (b < nv && exists|i: int|
            0 <= i < e.bindings.len() && e.bindings[i].1 == b)
    }
}

/// Reachability from object `src` in at most `n` edge steps (an object is
/// a value handle, or an environment handle shifted past the values).
pub open spec fn reaches_in(h: MHeap, src: int, b: int, n: nat) -> bool
    decreases n,
{
    if b == src {
        true
    } else if n == 0 {
        false
    } else {
        exists|a: int|
            reaches_in(h, src, a, (n - 1) as nat) && 0 <= a < h.vals.len() + h.envs.len()
                && reach_edge(h, a, b)
    }
}

/// Is object `b` reachable from object `src`?
pub open spec fn reachable(h: MHeap, src: int, b: int) -> bool {
    exists|n: nat| reaches_in(h, src, b, n)
}

/// A collection rooted at `root`: every object unreachable from the root
/// and not already free is reclaimed — its free flag is set and its index
/// joins its arena's free stack in ascending order — and all mark bits are
/// left clear for the next cycle.  Payloads are untouched.
pub open spec fn gc_spec(h: MHeap, root: int) -> MHeap {
    let nv = h.vals.len() as int;
    let src = root + nv;
    MHeap {
        vals: Seq::new(
            h.vals.len(),
            |i: int|
                MSlot {
                    marked: false,
                    free: h.vals[i].free || !reachable(h, src, i),
                    ..h.vals[i]
                },
        ),
        vfree: h.vfree + new_free_ints(
            Seq::new(h.vals.len(), |i: int| h.vals[i].free),
            Seq::new(h.vals.len(), |i: int| reachable(h, src, i)),
            h.vals.len() as int,
        ),
        envs: Seq::new(
            h.envs.len(),
            |i: int|
                MSlot {
                    marked: false,
                    free: h.envs[i].free || !reachable(h, src, i + nv),
                    ..h.envs[i]
                },
        ),
        efree: h.efree + new_free_ints(
            Seq::new(h.envs.len(), |i: int| h.envs[i].free),
            Seq::new(h.envs.len(), |i: int| reachable(h, src, i + nv)),
            h.envs.len() as int,
        ),
    }
}

/// The indices below `n` that a sweep reclaims: not already free and not
/// reachable (equivalently, unmarked after a complete mark phase).
pub open spec fn new_free_ints(freed: Seq<bool>, kept: Seq<bool>, n: int) -> Seq<int>
    decreases n,
{
    if n <= 0 {
        Seq::empty()
    } else if !freed[n - 1] && !kept[n - 1] {
        new_free_ints(freed, kept, n - 1).push(n - 1)
    } else {
        new_free_ints(freed, kept, n - 1)
    }
}

// ---------------------------------------------------------------------------
// The driver
// ---------------------------------------------------------------------------
/// One turn of the driver: pop the top step and perform it.  A state with
/// no steps or a recorded error is left unchanged.
pub open spec fn step_once(s: MState) -> MState {
    if s.steps.len() == 0 || s.error is Some {
        s
    } else {
        let st = s.steps.last();
        let s2 = MState { steps: s.steps.drop_last(), ..s };
        match st {
            MStep::Eval { node, env } => eval_effect(s2, node, env),
            MStep::IfBranch { then_node, else_node, env } => if_branch_effect(
                s2,
                then_node,
                else_node,
                env,
            ),
            MStep::DefineBind { name, env } => define_bind_effect(s2, name, env),
            MStep::Apply { env } => apply_effect(s2, env),
        }
    }
}

/// The machine after `n` turns of the driver.
pub open spec fn run_steps(s: MState, n: nat) -> MState
    decreases n,
{
    if n == 0 {
        s
    } else {
        run_steps(step_once(s), (n - 1) as nat)
    }
}

/// Allocation appends or reuses, so arena sizes never shrink.
pub proof fn lemma_alloc_lens(h: MHeap, v: MVal, e: MEnv)
    ensures
        alloc_val(h, v).0.vals.len() >= h.vals.len(),
        alloc_val(h, v).0.envs.len() == h.envs.len(),
        alloc_env(h, e).0.envs.len() >= h.envs.len(),
        alloc_env(h, e).0.vals.len() == h.vals.len(),
{
}

pub proof fn lemma_native_effect_lens(s: MState, env: int, nf: NativeFn, args: Seq<int>)
    ensures
        native_effect(s, env, nf, args).heap.vals.len() >= s.heap.vals.len(),
        native_effect(s, env, nf, args).heap.envs.len() >= s.heap.envs.len(),
{
    match nf {
        NativeFn::GcRun => {
            assert(gc_spec(s.heap, env).vals.len() == s.heap.vals.len());
            assert(gc_spec(s.heap, env).envs.len() == s.heap.envs.len());
        },
        _ => {},
    }
}

pub proof fn lemma_eval_effect_lens(s: MState, node: int, env: int)
    ensures
        eval_effect(s, node, env).heap.vals.len() >= s.heap.vals.len(),
        eval_effect(s, node, env).heap.envs.len() >= s.heap.envs.len(),
{
}

pub proof fn lemma_apply_effect_lens(s: MState, env: int)
    ensures
        apply_effect(s, env).heap.vals.len() >= s.heap.vals.len(),
        apply_effect(s, env).heap.envs.len() >= s.heap.envs.len(),
{
    if !(s.saved.len() == 0 || s.results.len() == 0) {
        let restored = MState { results: s.saved.last(), saved: s.saved.drop_last(), ..s };
        let f = s.results[0];
        let args = s.results.drop_first();
        match restored.heap.vals[f].item {
            MVal::Native(nf) => {
                lemma_native_effect_lens(restored, env, nf, args);
            },
            _ => {},
        }
    }
}

/// No transition shrinks an arena: allocation appends or reuses, and
/// collection only flips flags.
pub proof fn lemma_step_once_lens(s: MState)
    ensures
        step_once(s).heap.vals.len() >= s.heap.vals.len(),
        step_once(s).heap.envs.len() >= s.heap.envs.len(),
{
    if !(s.steps.len() == 0 || s.error is Some) {
        let st = s.steps.last();
        let s2 = MState { steps: s.steps.drop_last(), ..s };
        match st {
            MStep::Eval { node, env } => {
                lemma_eval_effect_lens(s2, node, env);
            },
            MStep::IfBranch { then_node, else_node, env } => {},
            MStep::DefineBind { name, env } => {},
            MStep::Apply { env } => {
                lemma_apply_effect_lens(s2, env);
            },
        }
    }
}

pub proof fn lemma_run_steps_lens(s: MState, n: nat)
    ensures
        run_steps(s, n).heap.vals.len() >= s.heap.vals.len(),
        run_steps(s, n).heap.envs.len() >= s.heap.envs.len(),
    decreases n,
{
    if n > 0 {
        lemma_step_once_lens(s);
        lemma_run_steps_lens(step_once(s), (n - 1) as nat);
    }
}

/// Peeling a turn off the far end: `n + 1` turns are `n` turns followed
/// by one more.
pub proof fn lemma_run_steps_snoc(s: MState, n: nat)
    ensures
        run_steps(s, n + 1) == step_once(run_steps(s, n)),
    decreases n,
{
    if n == 0 {
        assert(run_steps(s, 1) == run_steps(step_once(s), 0));
        assert(run_steps(step_once(s), 0) == step_once(s));
        assert(run_steps(s, 0) == s);
    } else {
        lemma_run_steps_snoc(step_once(s), (n - 1) as nat);
        assert(run_steps(s, n + 1) == run_steps(step_once(s), n));
        assert(run_steps(s, n) == run_steps(step_once(s), (n - 1) as nat));
    }
}

/// One top-level form taken from state `s` to its outcome: the form is
/// lowered, the lowered node is evaluated in `env`, and the driver runs
/// the machine.  On `Ok(p)` some number of turns reaches an empty step
/// stack whose one result `p` is popped as the form's value; on
/// `Err(msg)` either the evaluation itself recorded the error, or some
/// number of turns reached a state carrying it (or a genuinely broken
/// terminal state, or — with steps still pending, so never past a normal
/// terminal state — the driver's full step budget), and in every error
/// case the transient state is cleared.
pub open spec fn form_outcome(
    s: MState,
    ast: MAst,
    env: int,
    fin: MState,
    r: Result<int, Seq<char>>,
) -> bool {
    let lowered = lower(s.heap, ast);
    let s1 = eval_effect(MState { heap: lowered.0, ..s }, lowered.1, env);
    match r {
        Ok(p) => s1.error is None && exists|n: nat|
            {
                let t = #[trigger] run_steps(s1, n);
                &&& t.error is None
                &&& t.steps.len() == 0
                &&& t.results == seq![p]
                &&& fin == (MState { results: Seq::empty(), ..t })
            },
        Err(msg) => (s1.error is Some && msg == s1.error->0 && fin == (MState {
            steps: Seq::empty(),
            results: Seq::empty(),
            saved: Seq::empty(),
            error: None,
            ..s1
        })) || (s1.error is None && exists|n: nat|
            {
                let t = #[trigger] run_steps(s1, n);
                &&& (t.error == Some(msg) || (t.error is None && msg == msg_state() && ((
                t.steps.len() == 0 && t.results.len() != 1) || (t.steps.len() > 0 && n
                    >= u64::MAX))))
                &&& fin == (MState {
                    steps: Seq::empty(),
                    results: Seq::empty(),
                    saved: Seq::empty(),
                    error: None,
                    ..t
                })
            }),
    }
}

/// A whole non-empty program from state `s` under environment `env`: the
/// forms run in order, each to completion under `form_outcome`; the
/// program's value is the last form's value, and the first error ends
/// the program.
pub open spec fn program_outcome(
    s: MState,
    asts: Seq<MAst>,
    env: int,
    fin: MState,
    r: Result<int, Seq<char>>,
) -> bool
    decreases asts.len(),
{
    if asts.len() == 0 {
        false
    } else if asts.len() == 1 {
        form_outcome(s, asts[0], env, fin, r)
    } else {
        (exists|mid: MState, p: int|
            #[trigger] form_outcome(s, asts[0], env, mid, Ok(p)) && program_outcome(
                mid,
                asts.drop_first(),
                env,
                fin,
                r,
            )) || (r is Err && form_outcome(s, asts[0], env, fin, r))
    }
}

/// A state the driver stops at: an error is recorded or no step remains.
pub open spec fn terminal(s: MState) -> bool {
    s.error is Some || s.steps.len() == 0
}

/// Driving splits: `a + b` turns are `a` turns and then `b` more.
pub proof fn lemma_run_steps_add(s: MState, a: nat, b: nat)
    ensures
        run_steps(s, a + b) == run_steps(run_steps(s, a), b),
    decreases a,
{
    if a > 0 {
        lemma_run_steps_add(step_once(s), (a - 1) as nat, b);
    }
}

/// A terminal state stays put: the driver's turns change nothing.
pub proof fn lemma_terminal_stable(t: MState, k: nat)
    requires
        terminal(t),
    ensures
        run_steps(t, k) == t,
    decreases k,
{
    if k > 0 {
        assert(step_once(t) == t);
        lemma_terminal_stable(t, (k - 1) as nat);
    }
}

/// The driver's outcome is unique: any two turn counts that both reach a
/// terminal state reach the same one.  With this, `run`'s contract pins
/// the delivered value whenever any terminal state is known — for
/// example the ones the application laws compute.
pub proof fn lemma_terminal_unique(s: MState, a: nat, b: nat)
    requires
        terminal(run_steps(s, a)),
        terminal(run_steps(s, b)),
    ensures
        run_steps(s, a) == run_steps(s, b),
{
    if a <= b {
        lemma_run_steps_add(s, a, (b - a) as nat);
        lemma_terminal_stable(run_steps(s, a), (b - a) as nat);
    } else {
        lemma_run_steps_add(s, b, (a - b) as nat);
        lemma_terminal_stable(run_steps(s, b), (a - b) as nat);
    }
}

/// Success is owed: once any turn count below the driver's step budget
/// reaches a normal terminal state — no error, no step left, exactly one
/// result — no turn count can witness the driver's error clause.  A
/// terminal witness rules out the first two disjuncts through
/// `lemma_terminal_unique`; a non-terminal one lies before the normal
/// stop, hence below the budget.  So `run`'s contract forces `Ok` there,
/// and `lemma_terminal_unique` pins the delivered value.
pub proof fn lemma_error_excluded(s: MState, n0: nat, n: nat, msg: Seq<char>)
    requires
        n0 < u64::MAX,
        run_steps(s, n0).error is None,
        run_steps(s, n0).steps.len() == 0,
        run_steps(s, n0).results.len() == 1,
    ensures
        ({
            let t = run_steps(s, n);
            !(t.error == Some(msg) || (t.error is None && msg == msg_state() && ((t.steps.len()
                == 0 && t.results.len() != 1) || (t.steps.len() > 0 && n >= u64::MAX))))
        }),
{
    let t0 = run_steps(s, n0);
    let t = run_steps(s, n);
    if t.error is Some || t.steps.len() == 0 {
        lemma_terminal_unique(s, n0, n);
    } else if n >= n0 {
        lemma_run_steps_add(s, n0, (n - n0) as nat);
        lemma_terminal_stable(t0, (n - n0) as nat);
    }
}

/// A finished run: some number of turns reaches either an error or an
/// empty step stack with exactly one result — the answer.
pub open spec fn run_outcome(s: MState, fin: MState) -> bool {
    exists|n: nat| fin == run_steps(s, n) && (fin.error is Some || fin.steps.len() == 0)
}

} // verus!
