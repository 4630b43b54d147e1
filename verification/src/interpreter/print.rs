//! Rendering values as text: integers in decimal, `#t`/`#f`, symbols as
//! their name, `()` for nil, the dotted-pair form `(<car> . <cdr>)` for
//! pairs, and opaque forms for functions and continuations.
use vstd::prelude::*;

verus! {

use vstd::string::StringExecFns;
use crate::interpreter::heap::Allocator;
use crate::interpreter::model::{heap_wf, print_v, val_wf};
use crate::interpreter::value::Value;
use crate::strutil::i64_dec_string;

impl Value {
    /// The printed form of this value; pairs recurse through the arena.
    pub fn to_string(&self, heap: &Allocator) -> (r: String)
        requires
            heap_wf(heap@),
            val_wf(heap@, self@),
        ensures
            r@ == print_v(heap@.vals, self@, heap@.vals.len() as nat),
    {
        let fuel = heap.values.items.len();
        self.to_string_fuel(heap, fuel)
    }

    /// As `to_string`, with an explicit recursion bound.
    fn to_string_fuel(&self, heap: &Allocator, fuel: usize) -> (r: String)
        requires
            heap_wf(heap@),
            val_wf(heap@, self@),
        ensures
            r@ == print_v(heap@.vals, self@, fuel as nat),
        decreases fuel,
    {
        match self {
            Value::Integer(i) => i64_dec_string(*i),
            Value::Bool(b) => {
                if *b {
                    proof {
                        reveal_strlit("#t");
                    }
                    String::from_str("#t")
                } else {
                    proof {
                        reveal_strlit("#f");
                    }
                    String::from_str("#f")
                }
            },
            Value::Symbol(s) => s.clone(),
            Value::Nil => String::from_str("()"),
            Value::Function(_) => String::from_str("<lisp function>"),
            Value::NativeFunction(_) => String::from_str("<native function>"),
            Value::Continuation(_) => String::from_str("<continuation>"),
            Value::Cons(a, b) => {
                if fuel == 0 {
                    String::from_str("...")
                } else {
                    proof {
                        assert(val_wf(heap@, heap@.vals[a@].item));
                        assert(val_wf(heap@, heap@.vals[b@].item));
                    }
                    let left = heap.get_val(*a).to_string_fuel(heap, fuel - 1);
                    let right = heap.get_val(*b).to_string_fuel(heap, fuel - 1);
                    let mut out = String::from_str("(");
                    out.append(left.as_str());
                    out.append(" . ");
                    out.append(right.as_str());
                    out.append(")");
                    proof {
                        assert(out@ =~= "("@ + left@ + " . "@ + right@ + ")"@);
                    }
                    out
                }
            },
        }
    }
}

} // verus!
