//! The built-in primitives and the root environment that binds them.
//!
//! Every primitive either pushes exactly one result handle or records an
//! error; each one's contract is the corresponding case of the model's
//! `native_effect`.
use std::io::Write;
use vstd::prelude::*;

verus! {

use vstd::string::StringExecFns;
use crate::interpreter::heap::{Allocator, Environment, GCInfo};
use crate::interpreter::machine::{Error, Interpreter};
use crate::interpreter::model::{
    MState, MVal, all_ints, err, int_args, lemma_pending_wf_grow, native_effect, push_new_val,
    results_wf, val_wf, wrap_prod, wrap_sum,
};
use crate::interpreter::value::{Continuation, EnvPtr, NativeFn, ValPtr, Value, clone_ptrs,
    clone_saved, clone_steps};

/// Record an error; nothing else changes until the driver reports it.
pub(crate) fn set_error(interp: &mut Interpreter, msg: String)
    requires
        old(interp).wf(),
    ensures
        final(interp).wf(),
        final(interp)@ == err(old(interp)@, msg@),
{
    interp.error = Some(Error { message: msg });
    proof {
        assert(interp@ =~= err(old(interp)@, msg@));
    }
}

/// Allocate `v` and push its handle as the one result of a primitive.
fn push_result_val(interp: &mut Interpreter, v: Value)
    requires
        old(interp).wf(),
        val_wf(old(interp)@.heap, v@),
    ensures
        final(interp).wf(),
        final(interp)@ == push_new_val(old(interp)@, v@),
{
    let ghost pre = interp@;
    let p = interp.heap.new_val(v);
    interp.results.push(p);
    proof {
        assert(interp.results.deep_view() =~= pre.results.push(p@));
        assert(interp@ =~= push_new_val(pre, v@));
        lemma_pending_wf_grow(pre.heap, interp@.heap, interp@.steps, pre.results, interp@.saved);
        assert(results_wf(interp@.heap, interp@.results)) by {
            assert forall|j: int|
                0 <= j < interp@.results.len() implies 0 <= #[trigger] interp@.results[j]
                    < interp@.heap.vals.len() by {
                if j < pre.results.len() {
                    assert(interp@.results[j] == pre.results[j]);
                }
            }
        }
    }
}

/// `+`: the sum of any number of integers, wrapping on overflow; the
/// empty sum is 0.
pub(crate) fn plus(interp: &mut Interpreter, env: EnvPtr, args: &Vec<ValPtr>)
    requires
        old(interp).wf(),
        env@ < old(interp)@.heap.envs.len(),
        forall|i: int|
            0 <= i < args.deep_view().len() ==> 0 <= #[trigger] args.deep_view()[i]
                < old(interp)@.heap.vals.len(),
    ensures
        final(interp).wf(),
        final(interp)@ == native_effect(old(interp)@, env@, NativeFn::Plus, args.deep_view()),
{
    let ghost pre = interp@;
    let ghost av = args.deep_view();
    let mut sum: i64 = 0;
    let n = args.len();
    let mut i: usize = 0;
    proof {
        assert(int_args(pre.heap.vals, av.take(0)) =~= Seq::<i64>::empty());
    }
    while i < n
        invariant
            old(interp).wf(),
            interp.heap == old(interp).heap,
            interp@ == pre,
            pre == old(interp)@,
            av == args.deep_view(),
            n == args@.len(),
            i <= n,
            forall|j: int| 0 <= j < av.len() ==> 0 <= #[trigger] av[j] < pre.heap.vals.len(),
            forall|j: int| 0 <= j < i ==> pre.heap.vals[#[trigger] av[j]].item is Int,
            sum == wrap_sum(int_args(pre.heap.vals, av.take(i as int))),
        decreases n - i,
    {
        match interp.heap.get_val(args[i]) {
            Value::Integer(v) => {
                let ghost s0 = sum;
                sum = sum.wrapping_add(*v);
                proof {
                    let t = int_args(pre.heap.vals, av.take(i + 1));
                    assert(av.take(i + 1).drop_last() =~= av.take(i as int));
                    assert(t.drop_last() =~= int_args(pre.heap.vals, av.take(i as int)));
                    assert(t.last() == pre.heap.vals[av[i as int]].item->Int_0);
                    assert(sum == wrap_sum(t));
                }
            },
            _ => {
                set_error(interp, String::from_str("all arguments to '+' must be integers"));
                proof {
                    assert(!all_ints(pre.heap.vals, av));
                }
                return;
            },
        }
        i = i + 1;
    }
    proof {
        assert(av.take(n as int) =~= av);
        assert(all_ints(pre.heap.vals, av));
    }
    push_result_val(interp, Value::Integer(sum));
}

/// `*`: the product of any number of integers, wrapping on overflow; the
/// empty product is 1.
pub(crate) fn times(interp: &mut Interpreter, env: EnvPtr, args: &Vec<ValPtr>)
    requires
        old(interp).wf(),
        env@ < old(interp)@.heap.envs.len(),
        forall|i: int|
            0 <= i < args.deep_view().len() ==> 0 <= #[trigger] args.deep_view()[i]
                < old(interp)@.heap.vals.len(),
    ensures
        final(interp).wf(),
        final(interp)@ == native_effect(old(interp)@, env@, NativeFn::Times, args.deep_view()),
{
    let ghost pre = interp@;
    let ghost av = args.deep_view();
    let mut prod: i64 = 1;
    let n = args.len();
    let mut i: usize = 0;
    proof {
        assert(int_args(pre.heap.vals, av.take(0)) =~= Seq::<i64>::empty());
    }
    while i < n
        invariant
            old(interp).wf(),
            interp.heap == old(interp).heap,
            interp@ == pre,
            pre == old(interp)@,
            av == args.deep_view(),
            n == args@.len(),
            i <= n,
            forall|j: int| 0 <= j < av.len() ==> 0 <= #[trigger] av[j] < pre.heap.vals.len(),
            forall|j: int| 0 <= j < i ==> pre.heap.vals[#[trigger] av[j]].item is Int,
            prod == wrap_prod(int_args(pre.heap.vals, av.take(i as int))),
        decreases n - i,
    {
        match interp.heap.get_val(args[i]) {
            Value::Integer(v) => {
                let ghost p0 = prod;
                prod = prod.wrapping_mul(*v);
                proof {
                    let t = int_args(pre.heap.vals, av.take(i + 1));
                    assert(av.take(i + 1).drop_last() =~= av.take(i as int));
                    assert(t.drop_last() =~= int_args(pre.heap.vals, av.take(i as int)));
                    assert(t.last() == pre.heap.vals[av[i as int]].item->Int_0);
                    assert(prod == wrap_prod(t));
                }
            },
            _ => {
                set_error(interp, String::from_str("all arguments to '*' must be integers"));
                proof {
                    assert(!all_ints(pre.heap.vals, av));
                }
                return;
            },
        }
        i = i + 1;
    }
    proof {
        assert(av.take(n as int) =~= av);
        assert(all_ints(pre.heap.vals, av));
    }
    push_result_val(interp, Value::Integer(prod));
}

/// `i=`: integer equality of exactly two integers.
pub(crate) fn ieq(interp: &mut Interpreter, env: EnvPtr, args: &Vec<ValPtr>)
    requires
        old(interp).wf(),
        env@ < old(interp)@.heap.envs.len(),
        forall|i: int|
            0 <= i < args.deep_view().len() ==> 0 <= #[trigger] args.deep_view()[i]
                < old(interp)@.heap.vals.len(),
    ensures
        final(interp).wf(),
        final(interp)@ == native_effect(old(interp)@, env@, NativeFn::IntEq, args.deep_view()),
{
    if args.len() != 2 {
        set_error(interp, String::from_str("i= takes 2 arguments"));
        return;
    }
    let i1: i64 = match interp.heap.get_val(args[0]) {
        Value::Integer(v) => *v,
        _ => {
            set_error(interp, String::from_str("the first argument to 'i=' must be an integer"));
            return;
        },
    };
    let i2: i64 = match interp.heap.get_val(args[1]) {
        Value::Integer(v) => *v,
        _ => {
            set_error(interp, String::from_str("the second argument to 'i=' must be an integer"));
            return;
        },
    };
    push_result_val(interp, Value::Bool(i1 == i2));
}

/// `-`: the difference of exactly two integers, wrapping on overflow.
pub(crate) fn minus(interp: &mut Interpreter, env: EnvPtr, args: &Vec<ValPtr>)
    requires
        old(interp).wf(),
        env@ < old(interp)@.heap.envs.len(),
        forall|i: int|
            0 <= i < args.deep_view().len() ==> 0 <= #[trigger] args.deep_view()[i]
                < old(interp)@.heap.vals.len(),
    ensures
        final(interp).wf(),
        final(interp)@ == native_effect(old(interp)@, env@, NativeFn::Minus, args.deep_view()),
{
    if args.len() != 2 {
        set_error(interp, String::from_str("'-' takes 2 arguments"));
        return;
    }
    let i1: i64 = match interp.heap.get_val(args[0]) {
        Value::Integer(v) => *v,
        _ => {
            set_error(interp, String::from_str("the first argument to '-' must be an integer"));
            return;
        },
    };
    let i2: i64 = match interp.heap.get_val(args[1]) {
        Value::Integer(v) => *v,
        _ => {
            set_error(interp, String::from_str("the second argument to '-' must be an integer"));
            return;
        },
    };
    push_result_val(interp, Value::Integer(i1.wrapping_sub(i2)));
}

/// `cons`: allocate a pair of the two arguments.
pub(crate) fn cons(interp: &mut Interpreter, env: EnvPtr, args: &Vec<ValPtr>)
    requires
        old(interp).wf(),
        env@ < old(interp)@.heap.envs.len(),
        forall|i: int|
            0 <= i < args.deep_view().len() ==> 0 <= #[trigger] args.deep_view()[i]
                < old(interp)@.heap.vals.len(),
    ensures
        final(interp).wf(),
        final(interp)@ == native_effect(old(interp)@, env@, NativeFn::MakeCons, args.deep_view()),
{
    if args.len() != 2 {
        set_error(interp, String::from_str("cons takes 2 arguments"));
        return;
    }
    proof {
        assert(args.deep_view()[0] == args@[0]@);
        assert(args.deep_view()[1] == args@[1]@);
    }
    push_result_val(interp, Value::Cons(args[0], args[1]));
}

/// `call/cc`: reify the current continuation — a deep copy of the pending
/// steps, the result stack, and the saved result stacks — and apply the
/// one argument to it.
pub(crate) fn call_with_cc(interp: &mut Interpreter, env: EnvPtr, args: &Vec<ValPtr>)
    requires
        old(interp).wf(),
        env@ < old(interp)@.heap.envs.len(),
        forall|i: int|
            0 <= i < args.deep_view().len() ==> 0 <= #[trigger] args.deep_view()[i]
                < old(interp)@.heap.vals.len(),
    ensures
        final(interp).wf(),
        final(interp)@ == native_effect(old(interp)@, env@, NativeFn::CallCc, args.deep_view()),
{
    let ghost pre = interp@;
    if args.len() != 1 {
        set_error(interp, String::from_str("call/cc takes 1 argument"));
        return;
    }
    let snap_steps = clone_steps(&interp.next_steps);
    let snap_results = clone_ptrs(&interp.results);
    let snap_saved = clone_saved(&interp.saved_results);
    let cont = Value::Continuation(
        Continuation {
            next_steps: snap_steps,
            results: snap_results,
            saved_results: snap_saved,
        },
    );
    proof {
        assert(cont@ == MVal::Cont(
            crate::interpreter::model::MCont {
                steps: pre.steps,
                results: pre.results,
                saved: pre.saved,
            },
        ));
        assert(val_wf(pre.heap, cont@));
    }
    let kp = interp.heap.new_val(cont);
    proof {
        lemma_pending_wf_grow(pre.heap, interp@.heap, interp@.steps, interp@.results, interp@.saved);
    }
    let mut call: Vec<ValPtr> = Vec::new();
    call.push(args[0]);
    call.push(kp);
    proof {
        assert(call.deep_view() =~= seq![args.deep_view()[0], kp@]);
        assert(args.deep_view()[0] == args@[0]@);
    }
    interp.handle_func_call(call, env);
    proof {
        assert(final(interp)@ == native_effect(pre, env@, NativeFn::CallCc, args.deep_view()));
    }
}

/// `last`: the last of at least one argument.
pub(crate) fn last(interp: &mut Interpreter, env: EnvPtr, args: &Vec<ValPtr>)
    requires
        old(interp).wf(),
        env@ < old(interp)@.heap.envs.len(),
        forall|i: int|
            0 <= i < args.deep_view().len() ==> 0 <= #[trigger] args.deep_view()[i]
                < old(interp)@.heap.vals.len(),
    ensures
        final(interp).wf(),
        final(interp)@ == native_effect(old(interp)@, env@, NativeFn::Last, args.deep_view()),
{
    let ghost pre = interp@;
    if args.len() == 0 {
        set_error(interp, String::from_str("last requires at least 1 argument"));
        return;
    }
    interp.results.push(args[args.len() - 1]);
    proof {
        assert(args.deep_view()[args.deep_view().len() - 1] == args@[args@.len() - 1]@);
        assert(interp.results.deep_view() =~= pre.results.push(args.deep_view().last()));
        assert(interp@ =~= (MState { results: pre.results.push(args.deep_view().last()), ..pre }));
    }
}

/// Relies on `std::io::stdout` and `writeln!` to print the heap profile:
/// one line per arena, carrying exactly the size and allocated counts
/// handed in.
#[verifier::external_body]
fn print_profile(
    values_size: usize,
    values_allocated: usize,
    environments_size: usize,
    environments_allocated: usize,
) {
    let mut out = std::io::stdout();
    let _ = writeln!(out, "values: size: {}, allocated: {}", values_size, values_allocated);
    let _ = writeln!(
        out,
        "environments: size: {}, allocated: {}",
        environments_size,
        environments_allocated,
    );
}

/// `gc-profile`: print the heap profile — each arena's size and its
/// allocated (non-free) count — and return nil.
pub(crate) fn gc_profile(interp: &mut Interpreter, env: EnvPtr, args: &Vec<ValPtr>)
    requires
        old(interp).wf(),
        env@ < old(interp)@.heap.envs.len(),
    ensures
        final(interp).wf(),
        final(interp)@ == native_effect(old(interp)@, env@, NativeFn::GcProfile, args.deep_view()),
{
    let info = interp.heap.profile();
    proof {
        crate::interpreter::arena::lemma_free_le_size(&interp.heap.values);
        crate::interpreter::arena::lemma_free_le_size(&interp.heap.environments);
    }
    let values_allocated = info.values_heap_size - info.values_heap_free;
    let environments_allocated = info.environments_heap_size - info.environments_heap_free;
    print_profile(
        info.values_heap_size,
        values_allocated,
        info.environments_heap_size,
        environments_allocated,
    );
    push_result_val(interp, Value::Nil);
}

/// `gc-run`: collect garbage rooted at the caller's environment and
/// return nil.
pub(crate) fn gc_run(interp: &mut Interpreter, env: EnvPtr, args: &Vec<ValPtr>)
    requires
        old(interp).wf(),
        env@ < old(interp)@.heap.envs.len(),
    ensures
        final(interp).wf(),
        final(interp)@ == native_effect(old(interp)@, env@, NativeFn::GcRun, args.deep_view()),
{
    let ghost pre = interp@;
    interp.heap.gc(env);
    proof {
        assert(interp@.heap.vals.len() == pre.heap.vals.len());
        assert(interp@.heap.envs.len() == pre.heap.envs.len());
        lemma_pending_wf_grow(pre.heap, interp@.heap, interp@.steps, interp@.results, interp@.saved);
        assert(crate::interpreter::model::saved_wf(interp@.heap, interp@.saved));
        assert(interp@ =~= (MState {
            heap: crate::interpreter::model::gc_spec(pre.heap, env@),
            ..pre
        }));
    }
    push_result_val(interp, Value::Nil);
}

/// Dispatch a primitive by its tag.
pub(crate) fn apply_native(interp: &mut Interpreter, nf: NativeFn, env: EnvPtr, args: &Vec<ValPtr>)
    requires
        old(interp).wf(),
        env@ < old(interp)@.heap.envs.len(),
        forall|i: int|
            0 <= i < args.deep_view().len() ==> 0 <= #[trigger] args.deep_view()[i]
                < old(interp)@.heap.vals.len(),
    ensures
        final(interp).wf(),
        final(interp)@ == native_effect(old(interp)@, env@, nf, args.deep_view()),
{
    match nf {
        NativeFn::Plus => plus(interp, env, args),
        NativeFn::Times => times(interp, env, args),
        NativeFn::IntEq => ieq(interp, env, args),
        NativeFn::Minus => minus(interp, env, args),
        NativeFn::MakeCons => cons(interp, env, args),
        NativeFn::CallCc => call_with_cc(interp, env, args),
        NativeFn::Last => last(interp, env, args),
        NativeFn::GcProfile => gc_profile(interp, env, args),
        NativeFn::GcRun => gc_run(interp, env, args),
    }
}

/// Construct the root environment: every primitive under its surface
/// name, plus `nil` bound to the empty-list sentinel.
#[verifier::rlimit(100)]
pub fn build(heap: &mut Allocator) -> (r: EnvPtr)
    requires
        old(heap).arenas_wf(),
        heap_wf_of(old(heap)@),
    ensures
        final(heap).arenas_wf(),
        heap_wf_of(final(heap)@),
        r@ < final(heap)@.envs.len(),
        final(heap)@.envs[r@].item.parent is None,
        builtins_bound(final(heap)@, r@),
        final(heap)@.vals.len() >= old(heap)@.vals.len(),
        final(heap)@.envs.len() >= old(heap)@.envs.len(),
        forall|q: int|
            0 <= q < final(heap)@.vals.len() && (#[trigger] final(heap)@.vals[q]).marked ==> q
                < old(heap)@.vals.len() && old(heap)@.vals[q].marked,
        forall|q: int|
            0 <= q < final(heap)@.envs.len() && (#[trigger] final(heap)@.envs[q]).marked ==> q
                < old(heap)@.envs.len() && old(heap)@.envs[q].marked,
{
    let p0 = heap.new_val(Value::NativeFunction(NativeFn::Plus));
    let p1 = heap.new_val(Value::NativeFunction(NativeFn::Times));
    let p2 = heap.new_val(Value::NativeFunction(NativeFn::IntEq));
    let p3 = heap.new_val(Value::NativeFunction(NativeFn::Minus));
    let p4 = heap.new_val(Value::NativeFunction(NativeFn::MakeCons));
    let p5 = heap.new_val(Value::NativeFunction(NativeFn::CallCc));
    let p6 = heap.new_val(Value::NativeFunction(NativeFn::Last));
    let p7 = heap.new_val(Value::NativeFunction(NativeFn::GcProfile));
    let p8 = heap.new_val(Value::NativeFunction(NativeFn::GcRun));
    let p9 = heap.new_val(Value::Nil);
    proof {
        assert(heap@.vals[p0@].item == MVal::Native(NativeFn::Plus));
        assert(heap@.vals[p1@].item == MVal::Native(NativeFn::Times));
        assert(heap@.vals[p2@].item == MVal::Native(NativeFn::IntEq));
        assert(heap@.vals[p3@].item == MVal::Native(NativeFn::Minus));
        assert(heap@.vals[p4@].item == MVal::Native(NativeFn::MakeCons));
        assert(heap@.vals[p5@].item == MVal::Native(NativeFn::CallCc));
        assert(heap@.vals[p6@].item == MVal::Native(NativeFn::Last));
        assert(heap@.vals[p7@].item == MVal::Native(NativeFn::GcProfile));
        assert(heap@.vals[p8@].item == MVal::Native(NativeFn::GcRun));
        assert(heap@.vals[p9@].item == MVal::Nil);
    }
    let mut bindings: Vec<(String, ValPtr)> = Vec::new();
    bindings.push((String::from_str("+"), p0));
    bindings.push((String::from_str("*"), p1));
    bindings.push((String::from_str("i="), p2));
    bindings.push((String::from_str("-"), p3));
    bindings.push((String::from_str("cons"), p4));
    bindings.push((String::from_str("call/cc"), p5));
    bindings.push((String::from_str("last"), p6));
    bindings.push((String::from_str("gc-profile"), p7));
    bindings.push((String::from_str("gc-run"), p8));
    bindings.push((String::from_str("nil"), p9));
    proof {
        assert(bindings.deep_view() =~= seq![
            ("+"@, p0@),
            ("*"@, p1@),
            ("i="@, p2@),
            ("-"@, p3@),
            ("cons"@, p4@),
            ("call/cc"@, p5@),
            ("last"@, p6@),
            ("gc-profile"@, p7@),
            ("gc-run"@, p8@),
            ("nil"@, p9@),
        ]);
    }
    let env = Environment::new_with_bindings(bindings);
    proof {
        assert(crate::interpreter::model::env_wf(heap@, env@));
    }
    let r = heap.new_env(env);
    r
}

/// Shorthand for the model's heap well-formedness, for the signature
/// above.
pub open spec fn heap_wf_of(h: crate::interpreter::model::MHeap) -> bool {
    crate::interpreter::model::heap_wf(h)
}

/// The heap `h` is `h0` after the root environment of the built-ins was
/// installed: the environment at `e` has no parent and binds every
/// primitive, and no arena shrank.
pub open spec fn built_from(h0: crate::interpreter::model::MHeap, h: crate::interpreter::model::MHeap, e: int) -> bool {
    &&& 0 <= e < h.envs.len()
    &&& h.envs[e].item.parent is None
    &&& builtins_bound(h, e)
    &&& h.vals.len() >= h0.vals.len()
    &&& h.envs.len() >= h0.envs.len()
}

/// The root environment binds each primitive under its surface name and
/// `nil` to the empty-list sentinel, in this order.
pub open spec fn builtins_bound(h: crate::interpreter::model::MHeap, e: int) -> bool {
    let bs = h.envs[e].item.bindings;
    &&& bs.len() == 10
    &&& bs[0].0 == "+"@ && h.vals[bs[0].1].item == MVal::Native(NativeFn::Plus)
    &&& bs[1].0 == "*"@ && h.vals[bs[1].1].item == MVal::Native(NativeFn::Times)
    &&& bs[2].0 == "i="@ && h.vals[bs[2].1].item == MVal::Native(NativeFn::IntEq)
    &&& bs[3].0 == "-"@ && h.vals[bs[3].1].item == MVal::Native(NativeFn::Minus)
    &&& bs[4].0 == "cons"@ && h.vals[bs[4].1].item == MVal::Native(NativeFn::MakeCons)
    &&& bs[5].0 == "call/cc"@ && h.vals[bs[5].1].item == MVal::Native(NativeFn::CallCc)
    &&& bs[6].0 == "last"@ && h.vals[bs[6].1].item == MVal::Native(NativeFn::Last)
    &&& bs[7].0 == "gc-profile"@ && h.vals[bs[7].1].item == MVal::Native(NativeFn::GcProfile)
    &&& bs[8].0 == "gc-run"@ && h.vals[bs[8].1].item == MVal::Native(NativeFn::GcRun)
    &&& bs[9].0 == "nil"@ && h.vals[bs[9].1].item == MVal::Nil
    &&& forall|i: int| 0 <= i < bs.len() ==> 0 <= (#[trigger] bs[i]).1 < h.vals.len()
}

} // verus!
