//! The stepwise evaluator.
//!
//! Evaluation progresses as an explicit LIFO stack of pending steps over
//! plain data, so the current continuation can be reified as an ordinary
//! value and re-invoked later.  Each operation's contract states that it
//! performs exactly the corresponding transition of the model in
//! `model.rs`; the driver `run` then realizes an iterated `step_once`.
use vstd::prelude::*;

verus! {

use crate::interpreter::gc::marks_clear;
use crate::interpreter::heap::Allocator;
use crate::interpreter::model::{
    MStep, MState, MVal, elems, eval_effect, func_call_effect, heap_wf, state_wf, step_once,
    run_steps, msg_state,
};
use crate::strutil::str_eq;
use crate::interpreter::value::{EnvPtr, Step, ValPtr, Value};

/// A runtime error, surfaced at the interpreter boundary as a plain
/// message.
#[derive(Debug)]
pub struct Error {
    pub message: String,
}

/// The evaluation engine: the two arenas, the stack of pending steps, the
/// result stack, the stack of saved result stacks, and the pending error.
pub struct Interpreter {
    pub heap: Allocator,
    pub next_steps: Vec<Step>,
    pub results: Vec<ValPtr>,
    pub saved_results: Vec<Vec<ValPtr>>,
    pub error: Option<Error>,
}

impl View for Interpreter {
    type V = MState;

    open spec fn view(&self) -> MState {
        MState {
            heap: self.heap@,
            steps: self.next_steps.deep_view(),
            results: self.results.deep_view(),
            saved: self.saved_results.deep_view(),
            error: match self.error {
                None => None,
                Some(ref e) => Some(e.message@),
            },
        }
    }
}

impl Interpreter {
    /// The machine's standing invariant: the arenas' bookkeeping is in
    /// shape, every handle stored anywhere points into its arena, and no
    /// mark bit is left set between collections.
    pub open spec fn wf(&self) -> bool {
        &&& self.heap.arenas_wf()
        &&& state_wf(self@)
        &&& marks_clear(self@.heap)
    }

    /// A fresh interpreter: empty heap, no pending work, no error.
    pub fn new() -> (r: Self)
        ensures
            r.wf(),
            r@.heap.vals.len() == 0,
            r@.heap.envs.len() == 0,
            r@.steps.len() == 0,
            r@.results.len() == 0,
            r@.saved.len() == 0,
            r@.error is None,
    {
        Interpreter {
            heap: Allocator::new(),
            next_steps: Vec::new(),
            results: Vec::new(),
            saved_results: Vec::new(),
            error: None,
        }
    }

    /// Drop all transient run state, leaving the heap as it stands, so
    /// the interpreter can be reused after an error.
    pub fn clear_run_state(&mut self)
        ensures
            final(self)@ == (MState {
                steps: Seq::empty(),
                results: Seq::empty(),
                saved: Seq::empty(),
                error: None,
                ..old(self)@
            }),
            old(self).wf() ==> final(self).wf(),
    {
        self.next_steps = Vec::new();
        self.results = Vec::new();
        self.saved_results = Vec::new();
        self.error = None;
        proof {
            assert(self@ =~= (MState {
                steps: Seq::empty(),
                results: Seq::empty(),
                saved: Seq::empty(),
                error: None,
                ..old(self)@
            }));
        }
    }

    /// Walk the spine of the list `Cons(head, tail)`, collecting the
    /// elements in order; `None` when some tail is neither a pair nor
    /// nil — a malformed list.
    pub fn cons_list_to_vector(&self, head: ValPtr, tail: ValPtr) -> (r: Option<Vec<ValPtr>>)
        requires
            heap_wf(self@.heap),
            head@ < self@.heap.vals.len(),
            tail@ < self@.heap.vals.len(),
        ensures
            (match elems(self@.heap.vals, tail@, self@.heap.vals.len() as nat) {
                None => r is None,
                Some(rest) => r is Some && r->0.deep_view() == seq![head@] + rest,
            }),
            r is Some ==> forall|i: int|
                0 <= i < r->0.deep_view().len() ==> 0 <= #[trigger] r->0.deep_view()[i]
                    < self@.heap.vals.len(),
    {
        let ghost vals = self@.heap.vals;
        let ghost total: nat = self@.heap.vals.len() as nat;
        let mut res: Vec<ValPtr> = Vec::new();
        res.push(head);
        let mut ptr = tail;
        let mut fuel: usize = self.heap.values.items.len();
        proof {
            assert(fuel as nat == total);
            assert(res.deep_view() =~= seq![head@]);
            assert(opt_prepend(seq![head@], elems(vals, tail@, total)) == opt_prepend(
                res.deep_view(),
                elems(vals, ptr@, fuel as nat),
            ));
        }
        loop
            invariant
                heap_wf(self@.heap),
                vals == self@.heap.vals,
                total == self@.heap.vals.len() as nat,
                ptr@ < vals.len(),
                fuel <= vals.len(),
                res.deep_view().len() >= 1,
                res.deep_view().len() + fuel <= vals.len() + 1,
                res.deep_view()[0] == head@,
                forall|i: int|
                    0 <= i < res.deep_view().len() ==> 0 <= #[trigger] res.deep_view()[i]
                        < vals.len(),
                opt_prepend(seq![head@], elems(vals, tail@, total)) == opt_prepend(
                    res.deep_view(),
                    elems(vals, ptr@, fuel as nat),
                ),
            decreases fuel,
        {
            match self.heap.get_val(ptr) {
                Value::Cons(hd, tl) => {
                    if fuel == 0 {
                        proof {
                            assert(elems(vals, ptr@, 0nat) is None);
                        }
                        return None;
                    }
                    let ghost d0 = res.deep_view();
                    res.push(*hd);
                    proof {
                        assert(res.deep_view() =~= d0.push(hd@));
                        assert(crate::interpreter::model::val_wf(
                            self@.heap,
                            self@.heap.vals[ptr@].item,
                        ));
                        let inner = elems(vals, tl@, (fuel - 1) as nat);
                        match inner {
                            None => {
                                assert(elems(vals, ptr@, fuel as nat) is None);
                            },
                            Some(rest) => {
                                assert(elems(vals, ptr@, fuel as nat) == Some(seq![hd@] + rest));
                                assert(d0.push(hd@) + rest =~= d0 + (seq![hd@] + rest));
                            },
                        }
                    }
                    ptr = *tl;
                    fuel = fuel - 1;
                },
                Value::Nil => {
                    proof {
                        assert(elems(vals, ptr@, fuel as nat) == Some(Seq::<int>::empty()));
                        assert(res.deep_view() + Seq::<int>::empty() =~= res.deep_view());
                        assert(opt_prepend(res.deep_view(), elems(vals, ptr@, fuel as nat))
                            == Some(res.deep_view()));
                        let e = elems(vals, tail@, total);
                        assert(opt_prepend(seq![head@], e) == Some(res.deep_view()));
                        assert(e is Some);
                        assert(seq![head@] + e->0 == res.deep_view());
                        assert(res.len() == res.deep_view().len());
                    }
                    return Some(res);
                },
                _ => {
                    proof {
                        assert(elems(vals, ptr@, fuel as nat) is None);
                    }
                    return None;
                },
            }
        }
    }

    /// Begin a function application `(nodes[0] nodes[1] …)`: set the
    /// current results aside, push the apply step, and push one
    /// evaluation step per element, the callee's on top, so the callee
    /// and operands evaluate left to right.
    pub fn handle_func_call(&mut self, nodes: Vec<ValPtr>, env: EnvPtr)
        requires
            old(self).wf(),
            env@ < old(self)@.heap.envs.len(),
            forall|i: int|
                0 <= i < nodes.deep_view().len() ==> 0 <= #[trigger] nodes.deep_view()[i]
                    < old(self)@.heap.vals.len(),
        ensures
            final(self).wf(),
            final(self)@ == func_call_effect(old(self)@, nodes.deep_view(), env@),
    {
        let ghost pre = self@;
        let ghost ns = nodes.deep_view();
        let mut prior: Vec<ValPtr> = Vec::new();
        core::mem::swap(&mut self.results, &mut prior);
        self.saved_results.push(prior);
        self.next_steps.push(Step::Apply { env });
        proof {
            assert(self.saved_results.deep_view() =~= pre.saved.push(pre.results));
            assert(self.next_steps.deep_view() =~= pre.steps.push(MStep::Apply { env: env@ }));
            assert(self.results.deep_view() =~= Seq::<int>::empty());
        }
        let ghost g0 = self@;
        let n = nodes.len();
        let mut i: usize = 0;
        while i < n
            invariant
                n == nodes@.len(),
                ns == nodes.deep_view(),
                i <= n,
                self.heap == old(self).heap,
                self@.heap == g0.heap,
                self@.results == g0.results,
                self@.saved == g0.saved,
                self@.error == g0.error,
                self.next_steps.deep_view() =~= g0.steps + crate::interpreter::model::eval_steps_rev(
                    ns,
                    env@,
                ).take(i as int),
            decreases n - i,
        {
            let ghost st0 = self.next_steps.deep_view();
            self.next_steps.push(Step::Eval { node: nodes[n - 1 - i], env });
            proof {
                assert(self.next_steps.deep_view() =~= st0.push(
                    MStep::Eval { node: nodes@[n - 1 - i as int]@, env: env@ },
                ));
                assert(crate::interpreter::model::eval_steps_rev(ns, env@)[i as int]
                    == MStep::Eval { node: ns[ns.len() - 1 - i], env: env@ });
                assert(ns[ns.len() - 1 - i] == nodes@[n - 1 - i as int]@);
                assert(self.next_steps.deep_view() =~= g0.steps
                    + crate::interpreter::model::eval_steps_rev(ns, env@).take(i + 1));
            }
            i = i + 1;
        }
        proof {
            assert(crate::interpreter::model::eval_steps_rev(ns, env@).take(n as int)
                =~= crate::interpreter::model::eval_steps_rev(ns, env@));
            assert(self@ =~= func_call_effect(pre, ns, env@));
            assert(crate::interpreter::model::saved_wf(pre.heap, self@.saved)) by {
                assert forall|a: int, b: int|
                    0 <= a < self@.saved.len() && 0 <= b < self@.saved[a].len() implies 0
                    <= #[trigger] self@.saved[a][b] < pre.heap.vals.len() by {
                    if a < pre.saved.len() {
                        assert(self@.saved[a] == pre.saved[a]);
                    } else {
                        assert(self@.saved[a] == pre.results);
                    }
                }
            }
            assert(crate::interpreter::model::steps_wf(pre.heap, self@.steps)) by {
                assert forall|k: int|
                    0 <= k < self@.steps.len() implies crate::interpreter::model::step_wf(
                    pre.heap,
                    #[trigger] final(self)@.steps[k],
                ) by {
                    if k < pre.steps.len() {
                        assert(self@.steps[k] == pre.steps[k]);
                    } else if k == pre.steps.len() {
                        assert(self@.steps[k] == MStep::Apply { env: env@ });
                    } else {
                        let j = k - pre.steps.len() - 1;
                        assert(self@.steps[k]
                            == crate::interpreter::model::eval_steps_rev(ns, env@)[j]);
                    }
                }
            }
        }
    }

    /// `(if c t e)`: push the branch step, then the step that evaluates
    /// the condition, so the condition is evaluated first and only one
    /// branch is ever evaluated.
    fn form_if(&mut self, nodes: &Vec<ValPtr>, env: EnvPtr)
        requires
            old(self).wf(),
            env@ < old(self)@.heap.envs.len(),
            forall|i: int|
                0 <= i < nodes.deep_view().len() ==> 0 <= #[trigger] nodes.deep_view()[i]
                    < old(self)@.heap.vals.len(),
        ensures
            final(self).wf(),
            final(self)@ == crate::interpreter::model::if_form_effect(
                old(self)@,
                nodes.deep_view(),
                env@,
            ),
    {
        let ghost pre = self@;
        if nodes.len() != 4 {
            self.error = Some(
                Error { message: String::from_str("invalid structure for if expression") },
            );
            proof {
                assert(self@ =~= crate::interpreter::model::err(
                    pre,
                    crate::interpreter::model::msg_invalid_if(),
                ));
            }
            return;
        }
        let ghost st0 = self.next_steps.deep_view();
        self.next_steps.push(Step::IfBranch { then_node: nodes[2], else_node: nodes[3], env });
        proof {
            assert(self.next_steps.deep_view() =~= st0.push(
                MStep::IfBranch {
                    then_node: nodes.deep_view()[2],
                    else_node: nodes.deep_view()[3],
                    env: env@,
                },
            ));
        }
        let ghost st1 = self.next_steps.deep_view();
        self.next_steps.push(Step::Eval { node: nodes[1], env });
        proof {
            assert(self.next_steps.deep_view() =~= st1.push(
                MStep::Eval { node: nodes.deep_view()[1], env: env@ },
            ));
            assert(self@ =~= crate::interpreter::model::if_form_effect(
                pre,
                nodes.deep_view(),
                env@,
            ));
            assert forall|k: int|
                0 <= k < self@.steps.len() implies crate::interpreter::model::step_wf(
                pre.heap,
                #[trigger] self@.steps[k],
            ) by {
                if k < pre.steps.len() {
                    assert(self@.steps[k] == pre.steps[k]);
                }
            }
        }
    }

    /// `(quote x)`: push the handle of `x` itself, unevaluated.
    fn form_quote(&mut self, nodes: &Vec<ValPtr>, env: EnvPtr)
        requires
            old(self).wf(),
            forall|i: int|
                0 <= i < nodes.deep_view().len() ==> 0 <= #[trigger] nodes.deep_view()[i]
                    < old(self)@.heap.vals.len(),
        ensures
            final(self).wf(),
            final(self)@ == crate::interpreter::model::quote_form_effect(
                old(self)@,
                nodes.deep_view(),
                env@,
            ),
    {
        let ghost pre = self@;
        if nodes.len() != 2 {
            self.error = Some(
                Error { message: String::from_str("invalid structure for quote expression") },
            );
            proof {
                assert(self@ =~= crate::interpreter::model::err(
                    pre,
                    crate::interpreter::model::msg_invalid_quote(),
                ));
            }
            return;
        }
        self.results.push(nodes[1]);
        proof {
            assert(self.results.deep_view() =~= pre.results.push(nodes.deep_view()[1]));
            assert(self@ =~= (MState {
                results: pre.results.push(nodes.deep_view()[1]),
                ..pre
            }));
        }
    }

    /// `(define name expr)`: push the binding step, then the step that
    /// evaluates the right-hand side.
    fn form_define(&mut self, nodes: &Vec<ValPtr>, env: EnvPtr)
        requires
            old(self).wf(),
            env@ < old(self)@.heap.envs.len(),
            forall|i: int|
                0 <= i < nodes.deep_view().len() ==> 0 <= #[trigger] nodes.deep_view()[i]
                    < old(self)@.heap.vals.len(),
        ensures
            final(self).wf(),
            final(self)@ == crate::interpreter::model::define_form_effect(
                old(self)@,
                nodes.deep_view(),
                env@,
            ),
    {
        let ghost pre = self@;
        if nodes.len() != 3 {
            self.error = Some(
                Error { message: String::from_str("invalid structure for define expression") },
            );
            proof {
                assert(self@ =~= crate::interpreter::model::err(
                    pre,
                    crate::interpreter::model::msg_invalid_define(),
                ));
            }
            return;
        }
        let name: String = match self.heap.get_val(nodes[1]) {
            Value::Symbol(s) => s.clone(),
            _ => {
                self.error = Some(
                    Error { message: String::from_str("invalid structure for define expression") },
                );
                proof {
                    assert(self@ =~= crate::interpreter::model::err(
                        pre,
                        crate::interpreter::model::msg_invalid_define(),
                    ));
                }
                return;
            },
        };
        let ghost st0 = self.next_steps.deep_view();
        self.next_steps.push(Step::DefineBind { name, env });
        proof {
            assert(self.next_steps.deep_view() =~= st0.push(
                MStep::DefineBind {
                    name: pre.heap.vals[nodes.deep_view()[1]].item->Sym_0,
                    env: env@,
                },
            ));
        }
        let ghost st1 = self.next_steps.deep_view();
        self.next_steps.push(Step::Eval { node: nodes[2], env });
        proof {
            assert(self.next_steps.deep_view() =~= st1.push(
                MStep::Eval { node: nodes.deep_view()[2], env: env@ },
            ));
            assert(self@ =~= crate::interpreter::model::define_form_effect(
                pre,
                nodes.deep_view(),
                env@,
            ));
            assert forall|k: int|
                0 <= k < self@.steps.len() implies crate::interpreter::model::step_wf(
                pre.heap,
                #[trigger] self@.steps[k],
            ) by {
                if k < pre.steps.len() {
                    assert(self@.steps[k] == pre.steps[k]);
                }
            }
        }
    }

    /// `(lambda (x1 … xn) body)`: build a closure capturing the current
    /// environment and push its handle.  The parameter position must be a
    /// proper (possibly empty) list of symbols.
    fn form_lambda(&mut self, nodes: &Vec<ValPtr>, env: EnvPtr)
        requires
            old(self).wf(),
            env@ < old(self)@.heap.envs.len(),
            forall|i: int|
                0 <= i < nodes.deep_view().len() ==> 0 <= #[trigger] nodes.deep_view()[i]
                    < old(self)@.heap.vals.len(),
        ensures
            final(self).wf(),
            final(self)@ == crate::interpreter::model::lambda_form_effect(
                old(self)@,
                nodes.deep_view(),
                env@,
            ),
    {
        let ghost pre = self@;
        if nodes.len() != 3 {
            self.error = Some(
                Error { message: String::from_str("invalid structure for lambda expression") },
            );
            proof {
                assert(self@ =~= crate::interpreter::model::err(
                    pre,
                    crate::interpreter::model::msg_invalid_lambda(),
                ));
            }
            return;
        }
        let param_nodes: Vec<ValPtr> = match self.heap.get_val(nodes[1]) {
            Value::Nil => {
                let v: Vec<ValPtr> = Vec::new();
                proof {
                    assert(v.deep_view() =~= Seq::<int>::empty());
                }
                v
            },
            Value::Cons(ph, pt) => {
                let (ph, pt) = (*ph, *pt);
                match self.cons_list_to_vector(ph, pt) {
                    Some(v) => v,
                    None => {
                        self.error = Some(
                            Error {
                                message: String::from_str(
                                    "invalid structure for lambda expression",
                                ),
                            },
                        );
                        proof {
                            assert(self@ =~= crate::interpreter::model::err(
                                pre,
                                crate::interpreter::model::msg_invalid_lambda(),
                            ));
                        }
                        return;
                    },
                }
            },
            _ => {
                self.error = Some(
                    Error { message: String::from_str("invalid structure for lambda expression") },
                );
                proof {
                    assert(self@ =~= crate::interpreter::model::err(
                        pre,
                        crate::interpreter::model::msg_invalid_lambda(),
                    ));
                }
                return;
            },
        };
        let ghost pd = param_nodes.deep_view();
        proof {
            assert(crate::interpreter::model::node_elems(
                pre.heap.vals,
                nodes.deep_view()[1],
                pre.heap.vals.len() as nat,
            ) == Some(pd));
            assert(forall|j: int| 0 <= j < pd.len() ==> 0 <= #[trigger] pd[j]
                < pre.heap.vals.len());
        }
        let pn = param_nodes.len();
        let mut names: Vec<String> = Vec::new();
        let mut pi: usize = 0;
        while pi < pn
            invariant
                old(self).wf(),
                self.heap == old(self).heap,
                self@ == pre,
                pre == old(self)@,
                env@ < pre.heap.envs.len(),
                nodes.deep_view().len() == 3,
                forall|j: int|
                    0 <= j < nodes.deep_view().len() ==> 0 <= #[trigger] nodes.deep_view()[j]
                        < pre.heap.vals.len(),
                crate::interpreter::model::node_elems(
                    pre.heap.vals,
                    nodes.deep_view()[1],
                    pre.heap.vals.len() as nat,
                ) == Some(pd),
                pn == param_nodes@.len(),
                pd == param_nodes.deep_view(),
                pi <= pn,
                forall|j: int| 0 <= j < pd.len() ==> 0 <= #[trigger] pd[j] < pre.heap.vals.len(),
                names@.len() == pi,
                forall|j: int|
                    0 <= j < pi ==> pre.heap.vals[#[trigger] pd[j]].item == MVal::Sym(
                        names.deep_view()[j],
                    ),
            decreases pn - pi,
        {
            match self.heap.get_val(param_nodes[pi]) {
                Value::Symbol(s) => {
                    let ghost nm0 = names.deep_view();
                    names.push(s.clone());
                    proof {
                        assert(names.deep_view() =~= nm0.push(
                            pre.heap.vals[pd[pi as int]].item->Sym_0,
                        ));
                    }
                },
                _ => {
                    self.error = Some(
                        Error {
                            message: String::from_str("invalid structure for lambda expression"),
                        },
                    );
                    proof {
                        crate::interpreter::model::lemma_symbol_names_none(
                            pre.heap.vals,
                            pd,
                            pi as int,
                        );
                        assert(self@ =~= crate::interpreter::model::err(
                            pre,
                            crate::interpreter::model::msg_invalid_lambda(),
                        ));
                    }
                    return;
                },
            }
            pi = pi + 1;
        }
        proof {
            crate::interpreter::model::lemma_symbol_names_all(
                pre.heap.vals,
                pd,
                names.deep_view(),
            );
        }
        let ghost nm = names.deep_view();
        let f = self.heap.new_val(
            Value::Function(crate::interpreter::value::Function { args: names, env, body: nodes[2] }),
        );
        self.results.push(f);
        proof {
            let fv = MVal::Fun(
                crate::interpreter::model::MFun {
                    params: nm,
                    env: env@,
                    body: nodes.deep_view()[2],
                },
            );
            assert(crate::interpreter::model::val_wf(pre.heap, fv));
            assert(self.heap@ == crate::interpreter::model::alloc_val(pre.heap, fv).0);
            assert(self.results.deep_view() =~= pre.results.push(
                crate::interpreter::model::alloc_val(pre.heap, fv).1,
            ));
            assert(self@ =~= crate::interpreter::model::lambda_form_effect(
                pre,
                nodes.deep_view(),
                env@,
            ));
            crate::interpreter::model::lemma_pending_wf_grow(
                pre.heap,
                self@.heap,
                self@.steps,
                pre.results,
                self@.saved,
            );
            assert(crate::interpreter::model::results_wf(self@.heap, self@.results)) by {
                assert forall|j: int|
                    0 <= j < self@.results.len() implies 0 <= #[trigger] self@.results[j]
                        < self@.heap.vals.len() by {
                    if j < pre.results.len() {
                        assert(self@.results[j] == pre.results[j]);
                    }
                }
            }
        }
    }

    /// Evaluate the node at `node` in `env`: the model transition is
    /// `eval_effect`.  Self-evaluating values push their own handle;
    /// symbols look themselves up; nil and malformed lists are errors;
    /// the four special forms push their steps; any other list begins a
    /// function application.
    pub fn eval_node(&mut self, node: ValPtr, env: EnvPtr)
        requires
            old(self).wf(),
            node@ < old(self)@.heap.vals.len(),
            env@ < old(self)@.heap.envs.len(),
        ensures
            final(self).wf(),
            final(self)@ == eval_effect(old(self)@, node@, env@),
    {
        let ghost pre = self@;
        let mut is_cons = false;
        let mut hd = node;
        let mut tl = node;
        match self.heap.get_val(node) {
            Value::Integer(_) | Value::Bool(_) | Value::NativeFunction(_) | Value::Function(_)
                | Value::Continuation(_) => {
                self.results.push(node);
                proof {
                    assert(self.results.deep_view() =~= pre.results.push(node@));
                    assert(self@ =~= (MState { results: pre.results.push(node@), ..pre }));
                }
                return;
            },
            Value::Symbol(s) => {
                match self.heap.get_bound_ptr(env, s.as_str()) {
                    Some(p) => {
                        self.results.push(p);
                        proof {
                            crate::interpreter::model::lemma_lookup_in_bounds(
                                pre.heap,
                                env@,
                                s@,
                                pre.heap.envs.len() as nat,
                            );
                            assert(self.results.deep_view() =~= pre.results.push(p@));
                            assert(self@ =~= (MState {
                                results: pre.results.push(p@),
                                ..pre
                            }));
                        }
                    },
                    None => {
                        let mut msg = String::from_str("unbound symbol: ");
                        msg.append(s.as_str());
                        self.error = Some(Error { message: msg });
                        proof {
                            assert(self@ =~= crate::interpreter::model::err(
                                pre,
                                crate::interpreter::model::msg_unbound(
                                    pre.heap.vals[node@].item->Sym_0,
                                ),
                            ));
                        }
                    },
                }
                return;
            },
            Value::Nil => {
                self.error = Some(
                    Error { message: String::from_str("cannot evaluate empty list") },
                );
                proof {
                    assert(self@ =~= crate::interpreter::model::err(
                        pre,
                        crate::interpreter::model::msg_empty_list(),
                    ));
                }
                return;
            },
            Value::Cons(h, t) => {
                is_cons = true;
                hd = *h;
                tl = *t;
            },
        }
        let nodes_vec: Vec<ValPtr> = match self.cons_list_to_vector(hd, tl) {
            Some(v) => v,
            None => {
                self.error = Some(
                    Error { message: String::from_str("attempt to evaluate malformed list") },
                );
                proof {
                    assert(self@ =~= crate::interpreter::model::err(
                        pre,
                        crate::interpreter::model::msg_bad_list(),
                    ));
                }
                return;
            },
        };
        let ghost ns = nodes_vec.deep_view();
        proof {
            assert(ns.len() >= 1);
            assert(ns[0] == hd@);
        }
        let sym_opt: Option<String> = match self.heap.get_val(nodes_vec[0]) {
            Value::Symbol(s) => Some(s.clone()),
            _ => None,
        };
        match sym_opt {
            Some(s) => {
                proof {
                    assert(pre.heap.vals[ns[0]].item == MVal::Sym(s@));
                }
                if str_eq(s.as_str(), "if") {
                    self.form_if(&nodes_vec, env);
                } else if str_eq(s.as_str(), "lambda") {
                    self.form_lambda(&nodes_vec, env);
                } else if str_eq(s.as_str(), "quote") {
                    self.form_quote(&nodes_vec, env);
                } else if str_eq(s.as_str(), "define") {
                    self.form_define(&nodes_vec, env);
                } else {
                    self.handle_func_call(nodes_vec, env);
                }
            },
            None => {
                proof {
                    assert(!(pre.heap.vals[ns[0]].item is Sym));
                }
                self.handle_func_call(nodes_vec, env);
            },
        }
    }

    /// The branch step of `if`: pop the condition's value and evaluate
    /// the else branch exactly when it is `#f`, the then branch
    /// otherwise.  The branch not taken is never evaluated.
    pub fn run_if_branch(&mut self, then_node: ValPtr, else_node: ValPtr, env: EnvPtr)
        requires
            old(self).wf(),
            then_node@ < old(self)@.heap.vals.len(),
            else_node@ < old(self)@.heap.vals.len(),
            env@ < old(self)@.heap.envs.len(),
        ensures
            final(self).wf(),
            final(self)@ == crate::interpreter::model::if_branch_effect(
                old(self)@,
                then_node@,
                else_node@,
                env@,
            ),
    {
        let ghost pre = self@;
        if self.results.len() == 0 {
            self.error = Some(Error { message: String::from_str("evaluator state corrupted") });
            proof {
                assert(self@ =~= crate::interpreter::model::err(pre, msg_state()));
            }
            return;
        }
        let c = self.results.pop().unwrap();
        proof {
            assert(self.results.deep_view() =~= pre.results.drop_last());
            assert(c@ == pre.results.last());
        }
        let is_false = matches!(self.heap.get_val(c), Value::Bool(false));
        proof {
            assert(is_false == (pre.heap.vals[c@].item == MVal::Boolean(false)));
        }
        let ghost mid = self@;
        if is_false {
            self.next_steps.push(Step::Eval { node: else_node, env });
            proof {
                assert(self.next_steps.deep_view() =~= mid.steps.push(
                    MStep::Eval { node: else_node@, env: env@ },
                ));
                assert(self@ =~= crate::interpreter::model::if_branch_effect(
                    pre,
                    then_node@,
                    else_node@,
                    env@,
                ));
            }
        } else {
            self.next_steps.push(Step::Eval { node: then_node, env });
            proof {
                assert(self.next_steps.deep_view() =~= mid.steps.push(
                    MStep::Eval { node: then_node@, env: env@ },
                ));
                assert(self@ =~= crate::interpreter::model::if_branch_effect(
                    pre,
                    then_node@,
                    else_node@,
                    env@,
                ));
            }
        }
        proof {
            assert forall|k: int|
                0 <= k < self@.steps.len() implies crate::interpreter::model::step_wf(
                pre.heap,
                #[trigger] self@.steps[k],
            ) by {
                if k < pre.steps.len() {
                    assert(self@.steps[k] == pre.steps[k]);
                }
            }
        }
    }

    /// The binding step of `define`: pop the evaluated value, bind it in
    /// exactly the step's environment, and push nil as the form's result.
    pub fn run_define_bind(&mut self, name: String, env: EnvPtr)
        requires
            old(self).wf(),
            env@ < old(self)@.heap.envs.len(),
        ensures
            final(self).wf(),
            final(self)@ == crate::interpreter::model::define_bind_effect(
                old(self)@,
                name@,
                env@,
            ),
    {
        let ghost pre = self@;
        if self.results.len() != 1 {
            self.error = Some(Error { message: String::from_str("evaluator state corrupted") });
            proof {
                assert(self@ =~= crate::interpreter::model::err(pre, msg_state()));
            }
            return;
        }
        let v = self.results.pop().unwrap();
        proof {
            assert(self.results.deep_view() =~= pre.results.drop_last());
            assert(v@ == pre.results.last());
        }
        self.heap.set_bound_value(env, name, v);
        let nil_p = self.heap.new_val(Value::Nil);
        self.results.push(nil_p);
        proof {
            assert(self.results.deep_view() =~= pre.results.drop_last().push(nil_p@));
            assert(self@ =~= crate::interpreter::model::define_bind_effect(pre, name@, env@));
            crate::interpreter::model::lemma_pending_wf_grow(
                pre.heap,
                self@.heap,
                self@.steps,
                pre.results,
                self@.saved,
            );
            assert(crate::interpreter::model::results_wf(self@.heap, self@.results)) by {
                assert forall|j: int|
                    0 <= j < self@.results.len() implies 0 <= #[trigger] self@.results[j]
                        < self@.heap.vals.len() by {
                    if j < pre.results.len() - 1 {
                        assert(self@.results[j] == pre.results[j]);
                    }
                }
            }
        }
    }

    /// The apply step: take this call's evaluated callee and operands off
    /// the result stack, restore the caller's results, and dispatch: a
    /// closure gets a fresh child environment binding its parameters in
    /// order and its body is evaluated there; a primitive runs; a
    /// continuation replaces the machine's pending work with its snapshot
    /// and is handed its single argument; anything else is an error
    /// naming the printed value.
    pub fn run_apply(&mut self, env: EnvPtr)
        requires
            old(self).wf(),
            env@ < old(self)@.heap.envs.len(),
        ensures
            final(self).wf(),
            final(self)@ == crate::interpreter::model::apply_effect(old(self)@, env@),
    {
        let ghost pre = self@;
        if self.saved_results.len() == 0 || self.results.len() == 0 {
            self.error = Some(Error { message: String::from_str("evaluator state corrupted") });
            proof {
                assert(self@ =~= crate::interpreter::model::err(pre, msg_state()));
            }
            return;
        }
        let mut vals_list = self.saved_results.pop().unwrap();
        core::mem::swap(&mut self.results, &mut vals_list);
        proof {
            assert(self.saved_results.deep_view() =~= pre.saved.drop_last());
            assert(self.results.deep_view() == pre.saved.last());
            assert(vals_list.deep_view() == pre.results);
        }
        let ghost restored = (MState {
            results: pre.saved.last(),
            saved: pre.saved.drop_last(),
            ..pre
        });
        proof {
            assert(self@ =~= restored);
        }
        let f = vals_list[0];
        let mut args: Vec<ValPtr> = Vec::new();
        let vn = vals_list.len();
        let mut j: usize = 1;
        while j < vn
            invariant
                vn == vals_list@.len(),
                1 <= j <= vn,
                args@.len() == j - 1,
                forall|k: int| 0 <= k < j - 1 ==> (#[trigger] args@[k]) == vals_list@[k + 1],
            decreases vn - j,
        {
            args.push(vals_list[j]);
            j = j + 1;
        }
        proof {
            assert forall|k: int|
                0 <= k < args@.len() implies args.deep_view()[k] == vals_list.deep_view()[k
                + 1] by {
                assert(args@[k] == vals_list@[k + 1]);
            }
            assert(args.deep_view() =~= pre.results.drop_first());
            assert(f@ == pre.results[0]);
        }
        let ghost av = args.deep_view();
        match self.heap.get_val(f) {
            Value::Function(func) => {
                let params_len = func.args.len();
                if params_len != args.len() {
                    let mut msg = String::from_str("wrong number of arguments: expected ");
                    let d1 = crate::strutil::usize_dec_string(params_len);
                    msg.append(d1.as_str());
                    msg.append(", received ");
                    let d2 = crate::strutil::usize_dec_string(args.len());
                    msg.append(d2.as_str());
                    self.error = Some(Error { message: msg });
                    proof {
                        assert(msg@ =~= crate::interpreter::model::msg_wrong_args(
                            pre.heap.vals[f@].item->Fun_0.params.len() as int,
                            av.len() as int,
                        ));
                        assert(self@ =~= crate::interpreter::model::err(
                            restored,
                            crate::interpreter::model::msg_wrong_args(
                                pre.heap.vals[f@].item->Fun_0.params.len() as int,
                                av.len() as int,
                            ),
                        ));
                    }
                    return;
                }
                let fenv = func.env;
                let body = func.body;
                let ghost mfun = pre.heap.vals[f@].item->Fun_0;
                let mut bs: Vec<(String, ValPtr)> = Vec::new();
                let mut bi: usize = 0;
                proof {
                    assert(bs.deep_view() =~= crate::interpreter::model::bind_params(
                        mfun.params,
                        av,
                        0,
                    ));
                }
                while bi < params_len
                    invariant
                        params_len == func.args@.len(),
                        params_len == av.len(),
                        mfun.params == func.args.deep_view(),
                        av.len() == args@.len(),
                        av == args.deep_view(),
                        bi <= params_len,
                        bs.deep_view() == crate::interpreter::model::bind_params(
                            mfun.params,
                            av,
                            bi as int,
                        ),
                    decreases params_len - bi,
                {
                    let nb = crate::interpreter::heap::rebind(
                        &bs,
                        func.args[bi].as_str(),
                        args[bi],
                    );
                    bs = nb;
                    proof {
                        assert(func.args@[bi as int]@ == mfun.params[bi as int]);
                        assert(args@[bi as int]@ == av[bi as int]);
                    }
                    bi = bi + 1;
                }
                let new_env = crate::interpreter::heap::Environment::new_child_with_bindings(
                    fenv,
                    bs,
                );
                proof {
                    assert(crate::interpreter::model::val_wf(pre.heap, pre.heap.vals[f@].item));
                    crate::interpreter::model::lemma_bind_params_in_bounds(
                        mfun.params,
                        av,
                        params_len as int,
                        pre.heap.vals.len() as int,
                    );
                    assert(crate::interpreter::model::env_wf(restored.heap, new_env@));
                }
                let ep = self.heap.new_env(new_env);
                self.next_steps.push(Step::Eval { node: body, env: ep });
                proof {
                    assert(self.next_steps.deep_view() =~= restored.steps.push(
                        MStep::Eval { node: mfun.body, env: ep@ },
                    ));
                    assert(self@ =~= crate::interpreter::model::apply_effect(pre, env@));
                    crate::interpreter::model::lemma_pending_wf_grow(
                        pre.heap,
                        self@.heap,
                        restored.steps,
                        self@.results,
                        self@.saved,
                    );
                    assert(crate::interpreter::model::steps_wf(self@.heap, self@.steps)) by {
                        assert forall|k: int|
                            0 <= k < self@.steps.len() implies crate::interpreter::model::step_wf(
                            self@.heap,
                            #[trigger] self@.steps[k],
                        ) by {
                            if k < restored.steps.len() {
                                assert(self@.steps[k] == restored.steps[k]);
                                assert(crate::interpreter::model::step_wf(pre.heap, restored.steps[k]));
                            }
                        }
                    }
                    assert(crate::interpreter::model::results_wf(self@.heap, self@.results)) by {
                        assert forall|k: int|
                            0 <= k < self@.results.len() implies 0 <= #[trigger] self@.results[k]
                                < self@.heap.vals.len() by {
                            assert(self@.results[k] == pre.saved.last()[k]);
                        }
                    }
                }
            },
            Value::NativeFunction(nf) => {
                let nf = *nf;
                crate::interpreter::stdlib::apply_native(self, nf, env, &args);
                proof {
                    assert(final(self)@ == crate::interpreter::model::apply_effect(pre, env@));
                }
            },
            Value::Continuation(c) => {
                if args.len() != 1 {
                    self.error = Some(
                        Error {
                            message: String::from_str(
                                "continuation must be called with 1 argument",
                            ),
                        },
                    );
                    proof {
                        assert(self@ =~= crate::interpreter::model::err(
                            restored,
                            crate::interpreter::model::msg_cont_one_arg(),
                        ));
                    }
                    return;
                }
                let new_steps = crate::interpreter::value::clone_steps(&c.next_steps);
                let new_results = crate::interpreter::value::clone_ptrs(&c.results);
                let new_saved = crate::interpreter::value::clone_saved(&c.saved_results);
                let ghost mc = pre.heap.vals[f@].item->Cont_0;
                proof {
                    assert(crate::interpreter::model::val_wf(pre.heap, pre.heap.vals[f@].item));
                    assert(new_steps.deep_view() == mc.steps);
                    assert(new_results.deep_view() == mc.results);
                    assert(new_saved.deep_view() == mc.saved);
                }
                self.next_steps = new_steps;
                self.results = new_results;
                self.saved_results = new_saved;
                self.results.push(args[0]);
                proof {
                    assert(self.results.deep_view() =~= mc.results.push(av[0]));
                    assert(self@ =~= crate::interpreter::model::apply_effect(pre, env@));
                    assert(crate::interpreter::model::results_wf(self@.heap, self@.results)) by {
                        assert forall|k: int|
                            0 <= k < self@.results.len() implies 0 <= #[trigger] self@.results[k]
                                < self@.heap.vals.len() by {
                            if k < mc.results.len() {
                                assert(self@.results[k] == mc.results[k]);
                            } else {
                                assert(self@.results[k] == av[0]);
                            }
                        }
                    }
                }
            },
            _ => {
                let printed = self.heap.get_val(f).to_string(&self.heap);
                let mut msg = String::from_str("attempt to call a non-function value: ");
                msg.append(printed.as_str());
                self.error = Some(Error { message: msg });
                proof {
                    assert(crate::interpreter::model::val_wf(pre.heap, pre.heap.vals[f@].item));
                    assert(msg@ =~= crate::interpreter::model::msg_non_function(
                        crate::interpreter::model::print_val(
                            restored.heap.vals,
                            f@,
                            restored.heap.vals.len() as nat,
                        ),
                    ));
                    assert(self@ =~= crate::interpreter::model::err(
                        restored,
                        crate::interpreter::model::msg_non_function(
                            crate::interpreter::model::print_val(
                                restored.heap.vals,
                                f@,
                                restored.heap.vals.len() as nat,
                            ),
                        ),
                    ));
                }
            },
        }
    }

    /// The driver: report a pending error at once; otherwise pop and
    /// perform steps until none remain or one records an error.  On
    /// success exactly one value is left on the result stack — the
    /// answer; any other count means the machine's own bookkeeping broke,
    /// which no reachable state produces.  Whenever an error is reported,
    /// the pending-error case included, the transient state — steps,
    /// results and saved results — is cleared so the interpreter can be
    /// reused.  The driver carries a step budget of 2^64, which no
    /// computation that finishes at all comes near; a program still
    /// running — steps pending — after that many steps is abandoned with
    /// the bookkeeping error, so on a machine that reaches a normal
    /// terminal state within the budget the bookkeeping error cannot
    /// stand in for the answer.
    pub fn run(&mut self) -> (r: Result<ValPtr, Error>)
        requires
            old(self).wf(),
        ensures
            final(self).wf(),
            old(self)@.error is Some ==> r is Err && r->Err_0.message@ == old(self)@.error->0
                && final(self)@ == (MState {
                    steps: Seq::empty(),
                    results: Seq::empty(),
                    saved: Seq::empty(),
                    error: None,
                    ..old(self)@
                }),
            old(self)@.error is None && r is Ok ==> exists|n: nat|
                {
                    let fin = #[trigger] run_steps(old(self)@, n);
                    &&& fin.error is None
                    &&& fin.steps.len() == 0
                    &&& fin.results == seq![r->Ok_0@]
                    &&& final(self)@ == (MState { results: Seq::empty(), ..fin })
                },
            old(self)@.error is None && r is Err ==> exists|n: nat|
                {
                    let fin = #[trigger] run_steps(old(self)@, n);
                    &&& (fin.error == Some(r->Err_0.message@) || (fin.error is None
                        && r->Err_0.message@ == msg_state() && ((fin.steps.len() == 0
                        && fin.results.len() != 1) || (fin.steps.len() > 0 && n >= u64::MAX))))
                    &&& final(self)@ == (MState {
                        steps: Seq::empty(),
                        results: Seq::empty(),
                        saved: Seq::empty(),
                        error: None,
                        ..fin
                    })
                },
            r is Ok ==> r->Ok_0@ < final(self)@.heap.vals.len(),
            final(self)@.heap.vals.len() >= old(self)@.heap.vals.len(),
            final(self)@.heap.envs.len() >= old(self)@.heap.envs.len(),
    {
        let ghost pre = self@;
        if self.error.is_some() {
            let mut taken: Option<Error> = None;
            core::mem::swap(&mut self.error, &mut taken);
            let e = taken.unwrap();
            self.clear_run_state();
            proof {
                assert(self@ =~= (MState {
                    steps: Seq::empty(),
                    results: Seq::empty(),
                    saved: Seq::empty(),
                    error: None,
                    ..pre
                }));
            }
            return Err(e);
        }
        let ghost mut n: nat = 0nat;
        let mut budget: u64 = u64::MAX;
        while self.next_steps.len() > 0
            invariant
                self.wf(),
                self@.error is None,
                pre.error is None,
                pre == old(self)@,
                self@ == run_steps(pre, n),
                n + budget == u64::MAX,
            decreases budget,
        {
            if budget == 0 {
                let ghost fin = self@;
                let e = Error { message: String::from_str("evaluator state corrupted") };
                self.clear_run_state();
                proof {
                    crate::interpreter::model::lemma_run_steps_lens(pre, n);
                    assert(e.message@ == msg_state());
                    assert(fin.steps.len() > 0);
                    assert(self@ =~= (MState {
                        steps: Seq::empty(),
                        results: Seq::empty(),
                        saved: Seq::empty(),
                        error: None,
                        ..fin
                    }));
                }
                return Err(e);
            }
            budget = budget - 1;
            let st = self.next_steps.pop().unwrap();
            let ghost before = self@;
            let ghost stv = st@;
            proof {
                assert(self.next_steps.deep_view() =~= run_steps(pre, n).steps.drop_last());
                assert(stv == run_steps(pre, n).steps.last());
                assert(before =~= (MState { steps: run_steps(pre, n).steps.drop_last(), ..run_steps(pre, n) }));
            }
            match st {
                Step::Eval { node, env } => {
                    proof {
                        assert(crate::interpreter::model::step_wf(before.heap, stv));
                    }
                    self.eval_node(node, env);
                },
                Step::IfBranch { then_node, else_node, env } => {
                    proof {
                        assert(crate::interpreter::model::step_wf(before.heap, stv));
                    }
                    self.run_if_branch(then_node, else_node, env);
                },
                Step::DefineBind { name, env } => {
                    proof {
                        assert(crate::interpreter::model::step_wf(before.heap, stv));
                    }
                    self.run_define_bind(name, env);
                },
                Step::Apply { env } => {
                    proof {
                        assert(crate::interpreter::model::step_wf(before.heap, stv));
                    }
                    self.run_apply(env);
                },
            }
            proof {
                crate::interpreter::model::lemma_run_steps_snoc(pre, n);
                assert(step_once(run_steps(pre, n)) == self@);
                n = n + 1;
                assert(self@ == run_steps(pre, n));
            }
            if self.error.is_some() {
                let ghost fin = self@;
                let mut taken: Option<Error> = None;
                core::mem::swap(&mut self.error, &mut taken);
                let e = taken.unwrap();
                self.clear_run_state();
                proof {
                    crate::interpreter::model::lemma_run_steps_lens(pre, n);
                    assert(fin == run_steps(pre, n));
                    assert(fin.error == Some(e.message@));
                    assert(self@ =~= (MState {
                        steps: Seq::empty(),
                        results: Seq::empty(),
                        saved: Seq::empty(),
                        error: None,
                        ..fin
                    }));
                }
                return Err(e);
            }
        }
        let ghost fin = self@;
        proof {
            crate::interpreter::model::lemma_run_steps_lens(pre, n);
            assert(fin == run_steps(pre, n));
            assert(fin.steps.len() == 0);
            assert(fin.error is None);
        }
        if self.results.len() == 1 {
            proof {
                assert(0 <= fin.results[0] < fin.heap.vals.len());
            }
            let p = self.results.pop().unwrap();
            proof {
                assert(fin.results =~= seq![p@]);
                assert(self@ =~= (MState { results: Seq::empty(), ..fin }));
            }
            Ok(p)
        } else {
            let e = Error { message: String::from_str("evaluator state corrupted") };
            self.clear_run_state();
            proof {
                assert(e.message@ == msg_state());
                assert(self@ =~= (MState {
                    steps: Seq::empty(),
                    results: Seq::empty(),
                    saved: Seq::empty(),
                    error: None,
                    ..fin
                }));
            }
            Err(e)
        }
    }

    /// Lower a syntax tree and evaluate the resulting node in `env`.
    pub fn eval_ast(&mut self, node: &crate::parse::AST, env: EnvPtr)
        requires
            old(self).wf(),
            env@ < old(self)@.heap.envs.len(),
        ensures
            final(self).wf(),
            final(self)@ == eval_effect(
                (MState {
                    heap: crate::interpreter::model::lower(old(self)@.heap, node@).0,
                    ..old(self)@
                }),
                crate::interpreter::model::lower(old(self)@.heap, node@).1,
                env@,
            ),
            final(self)@.heap.envs.len() >= old(self)@.heap.envs.len(),
    {
        let ghost pre = self@;
        let p = Value::from_ast(node, &mut self.heap);
        proof {
            crate::interpreter::model::lemma_pending_wf_grow(
                pre.heap,
                self@.heap,
                self@.steps,
                self@.results,
                self@.saved,
            );
            assert(self@ =~= (MState {
                heap: crate::interpreter::model::lower(pre.heap, node@).0,
                ..pre
            }));
            crate::interpreter::model::lemma_eval_effect_lens(self@, p@, env@);
        }
        self.eval_node(p, env);
    }

}

/// Run a whole program: bind the built-ins once, then lower and evaluate
/// each top-level form in order under that environment, so `define`
/// persists across forms.  The result is the last form's value, nil for
/// an empty program; the first error aborts the rest.  The contract says
/// exactly that, through the model's `program_outcome`: from the state
/// after the built-ins were installed, the forms run in order under
/// `form_outcome`, the last value is returned on `Ok` and the first
/// error on `Err`.
pub fn eval_program(interp: &mut Interpreter, nodes: &Vec<crate::parse::AST>) -> (r: Result<
    ValPtr,
    Error,
>)
    requires
        old(interp).wf(),
        old(interp)@.error is None,
    ensures
        final(interp).wf(),
        r is Ok ==> r->Ok_0@ < final(interp)@.heap.vals.len(),
        exists|benv: int, h0: crate::interpreter::model::MHeap|
            {
                let s0 = (MState { heap: h0, ..old(interp)@ });
                &&& #[trigger] crate::interpreter::stdlib::built_from(
                    old(interp)@.heap,
                    h0,
                    benv,
                )
                &&& if nodes.deep_view().len() == 0 {
                    &&& r is Ok
                    &&& final(interp)@ == (MState {
                        heap: crate::interpreter::model::alloc_val(h0, MVal::Nil).0,
                        ..s0
                    })
                    &&& r->Ok_0@ == crate::interpreter::model::alloc_val(h0, MVal::Nil).1
                    &&& final(interp)@.heap.vals[r->Ok_0@].item == MVal::Nil
                } else {
                    crate::interpreter::model::program_outcome(
                        s0,
                        nodes.deep_view(),
                        benv,
                        final(interp)@,
                        (match r {
                            Ok(p) => Ok(p@),
                            Err(e) => Err(e.message@),
                        }),
                    )
                }
            },
{
    let ghost pre = interp@;
    let env = crate::interpreter::stdlib::build(&mut interp.heap);
    proof {
        crate::interpreter::model::lemma_pending_wf_grow(
            pre.heap,
            interp@.heap,
            interp@.steps,
            interp@.results,
            interp@.saved,
        );
        assert(interp.wf());
    }
    let ghost h0 = interp@.heap;
    let ghost benv: int = env@;
    let ghost s0 = (MState { heap: h0, ..pre });
    proof {
        assert(crate::interpreter::stdlib::built_from(pre.heap, h0, benv));
        assert(interp@ =~= s0);
    }
    if nodes.len() == 0 {
        let p = interp.heap.new_val(Value::Nil);
        proof {
            crate::interpreter::model::lemma_pending_wf_grow(
                pre.heap,
                interp@.heap,
                interp@.steps,
                interp@.results,
                interp@.saved,
            );
            assert(interp@ =~= (MState {
                heap: crate::interpreter::model::alloc_val(h0, MVal::Nil).0,
                ..s0
            }));
        }
        return Ok(p);
    }
    let ghost asts = nodes.deep_view();
    let n = nodes.len();
    let mut i: usize = 0;
    let mut last: Option<ValPtr> = None;
    proof {
        assert(asts.skip(0) =~= asts);
        assert(interp@ == s0);
    }
    while i < n
        invariant
            n == nodes@.len(),
            n > 0,
            i <= n,
            asts == nodes.deep_view(),
            asts.len() == n,
            pre == old(interp)@,
            s0 == (MState { heap: h0, ..pre }),
            crate::interpreter::stdlib::built_from(pre.heap, h0, benv),
            interp.wf(),
            interp@.error is None,
            env@ == benv,
            benv < interp@.heap.envs.len(),
            i > 0 ==> last is Some && last->0@ < interp@.heap.vals.len(),
            i < n ==> forall|fin: MState, rr: Result<int, Seq<char>>|
                crate::interpreter::model::program_outcome(
                    interp@,
                    asts.skip(i as int),
                    benv,
                    fin,
                    rr,
                ) ==> crate::interpreter::model::program_outcome(s0, asts, benv, fin, rr),
            i == n ==> last is Some && crate::interpreter::model::program_outcome(
                s0,
                asts,
                benv,
                interp@,
                Ok(last->0@),
            ),
        decreases n - i,
    {
        let ghost cur = interp@;
        interp.eval_ast(&nodes[i], env);
        let ghost lowered = crate::interpreter::model::lower(cur.heap, asts[i as int]);
        let ghost s1 = interp@;
        proof {
            assert(nodes@[i as int].deep_view() == asts[i as int]);
            assert(s1 == eval_effect(
                (MState { heap: lowered.0, ..cur }),
                lowered.1,
                benv,
            ));
        }
        match interp.run() {
            Err(e) => {
                proof {
                    assert(crate::interpreter::model::form_outcome(
                        cur,
                        asts[i as int],
                        benv,
                        interp@,
                        Err(e.message@),
                    )) by {
                        if s1.error is None {
                            let nw = choose|nw: nat|
                                {
                                    let fin = #[trigger] run_steps(s1, nw);
                                    &&& (fin.error == Some(e.message@) || (fin.error is None
                                        && e.message@ == msg_state() && ((fin.steps.len() == 0
                                        && fin.results.len() != 1) || (fin.steps.len() > 0 && nw
                                        >= u64::MAX))))
                                    &&& interp@ == (MState {
                                        steps: Seq::empty(),
                                        results: Seq::empty(),
                                        saved: Seq::empty(),
                                        error: None,
                                        ..fin
                                    })
                                };
                            assert(run_steps(s1, nw) == run_steps(s1, nw));
                        }
                    }
                    let sk = asts.skip(i as int);
                    assert(sk[0] == asts[i as int]);
                    assert(sk.len() == n - i);
                    assert(crate::interpreter::model::program_outcome(
                        cur,
                        sk,
                        benv,
                        interp@,
                        Err(e.message@),
                    ));
                    assert(crate::interpreter::model::program_outcome(
                        s0,
                        asts,
                        benv,
                        interp@,
                        Err(e.message@),
                    ));
                }
                return Err(e);
            },
            Ok(p) => {
                proof {
                    assert(s1.error is None);
                    assert(crate::interpreter::model::form_outcome(
                        cur,
                        asts[i as int],
                        benv,
                        interp@,
                        Ok(p@),
                    )) by {
                        let nw = choose|nw: nat|
                            {
                                let fin = #[trigger] run_steps(s1, nw);
                                &&& fin.error is None
                                &&& fin.steps.len() == 0
                                &&& fin.results == seq![p@]
                                &&& interp@ == (MState { results: Seq::empty(), ..fin })
                            };
                        assert(run_steps(s1, nw) == run_steps(s1, nw));
                    }
                    let sk = asts.skip(i as int);
                    assert(sk[0] == asts[i as int]);
                    assert(sk.len() == n - i);
                    if i + 1 == n {
                        assert(crate::interpreter::model::program_outcome(
                            cur,
                            sk,
                            benv,
                            interp@,
                            Ok(p@),
                        ));
                        assert(crate::interpreter::model::program_outcome(
                            s0,
                            asts,
                            benv,
                            interp@,
                            Ok(p@),
                        ));
                    } else {
                        let ghost nxt = interp@;
                        assert forall|fin: MState, rr: Result<int, Seq<char>>|
                            crate::interpreter::model::program_outcome(
                                nxt,
                                asts.skip(i + 1),
                                benv,
                                fin,
                                rr,
                            ) implies crate::interpreter::model::program_outcome(
                            s0,
                            asts,
                            benv,
                            fin,
                            rr,
                        ) by {
                            assert(sk.drop_first() =~= asts.skip(i + 1));
                            assert(crate::interpreter::model::form_outcome(
                                cur,
                                sk[0],
                                benv,
                                nxt,
                                Ok(p@),
                            ));
                            assert(crate::interpreter::model::program_outcome(
                                cur,
                                sk,
                                benv,
                                fin,
                                rr,
                            ));
                        }
                    }
                }
                last = Some(p);
            },
        }
        i = i + 1;
    }
    Ok(last.unwrap())
}

/// Prepend a prefix to the elements of a possibly-failed list walk.
pub open spec fn opt_prepend(prefix: Seq<int>, rest: Option<Seq<int>>) -> Option<Seq<int>> {
    match rest {
        None => None,
        Some(s) => Some(prefix + s),
    }
}

} // verus!
