//! The parser: tokens to syntax trees.
//!
//! A parenthesised group becomes a list; integers and symbols map to
//! their own nodes; the boolean literals `#t` and `#f` become first-class
//! boolean nodes.  A stray `)` and a missing `)` are the two syntax
//! errors, each located at the offending token.  The spec functions
//! alongside mirror the recursive descent exactly.
use vstd::prelude::*;

verus! {

use vstd::string::StringExecFns;
use crate::interpreter::model::MAst;

broadcast use vstd::std_specs::vec::group_vec_axioms;

use crate::lex::{AnnotatedToken, MTok, MTokAt, Token};
use crate::strutil::str_eq;

/// A node of the syntax tree.
#[derive(PartialEq, Debug)]
pub enum AST {
    List(Vec<AST>),
    Integer(i64),
    Symbol(String),
    Bool(bool),
}

/// The views of a sequence of nodes.
pub open spec fn asts_view(items: Seq<AST>) -> Seq<MAst>
    decreases items,
{
    Seq::new(
        items.len(),
        |i: int|
            if 0 <= i < items.len() {
                items[i].view()
            } else {
                MAst::Int(0)
            },
    )
}

impl View for AST {
    type V = MAst;

    open spec fn view(&self) -> MAst
        decreases self,
    {
        match self {
            AST::Integer(i) => MAst::Int(*i),
            AST::Bool(b) => MAst::Boolean(*b),
            AST::Symbol(s) => MAst::Sym(s@),
            AST::List(items) => MAst::List(asts_view(items@)),
        }
    }
}

impl DeepView for AST {
    type V = MAst;

    open spec fn deep_view(&self) -> MAst {
        self.view()
    }
}

/// A syntax error, located by line and column.
#[derive(Debug)]
pub struct Error {
    pub line: u64,
    pub column: u64,
    pub message: String,
}

/// A parse error, abstractly: a stray `)`, or a `(` whose match is
/// missing, located at the offending token.
#[verifier::ext_equal]
pub ghost enum MParseErr {
    Unmatched { line: int, col: int },
    Missing { line: int, col: int },
}

impl View for Error {
    type V = MParseErr;

    open spec fn view(&self) -> MParseErr {
        if self.message@ == "unmatched ')'"@ {
            MParseErr::Unmatched { line: self.line as int, col: self.column as int }
        } else {
            MParseErr::Missing { line: self.line as int, col: self.column as int }
        }
    }
}

/// The token views of a token sequence.
pub open spec fn toks_view(ts: Seq<AnnotatedToken>) -> Seq<MTokAt> {
    Seq::new(ts.len(), |i: int| ts[i]@)
}

/// Turn a symbol name into a node: the boolean literals `#t` and `#f`
/// become boolean nodes, everything else stays a symbol.
pub open spec fn sym_node(name: Seq<char>) -> MAst {
    if name == "#t"@ {
        MAst::Boolean(true)
    } else if name == "#f"@ {
        MAst::Boolean(false)
    } else {
        MAst::Sym(name)
    }
}

/// Parse one node at position `i`: an integer or symbol stands alone; a
/// `(` opens a list that runs to its matching `)`; a stray `)` is an
/// error.
pub open spec fn parse_node_at(ts: Seq<MTokAt>, i: int) -> Result<(MAst, int), MParseErr>
    decreases ts.len() - i, 0int,
{
    if i < 0 || i >= ts.len() {
        Err(MParseErr::Missing { line: 0, col: 0 })
    } else {
        match ts[i].tok {
            MTok::Num(v) => Ok((MAst::Int(v), i + 1)),
            MTok::Sym(name) => Ok((sym_node(name), i + 1)),
            MTok::RPar => Err(MParseErr::Unmatched { line: ts[i].line, col: ts[i].col }),
            MTok::LPar => {
                match parse_items(ts, i + 1, ts[i].line, ts[i].col) {
                    Err(e) => Err(e),
                    Ok((items, j)) => Ok((MAst::List(items), j)),
                }
            },
        }
    }
}

/// Parse list elements from position `i` up to the matching `)`;
/// `(eline, ecol)` locate the `(` for the missing-`)` error.
pub open spec fn parse_items(ts: Seq<MTokAt>, i: int, eline: int, ecol: int) -> Result<
    (Seq<MAst>, int),
    MParseErr,
>
    decreases ts.len() - i, 1int,
{
    if i < 0 || i >= ts.len() {
        Err(MParseErr::Missing { line: eline, col: ecol })
    } else if ts[i].tok is RPar {
        Ok((Seq::empty(), i + 1))
    } else {
        match parse_node_at(ts, i) {
            Err(e) => Err(e),
            Ok((a, j)) => {
                if i < j <= ts.len() {
                    match parse_items(ts, j, eline, ecol) {
                        Err(e) => Err(e),
                        Ok((rest, k)) => Ok((seq![a] + rest, k)),
                    }
                } else {
                    Err(MParseErr::Missing { line: eline, col: ecol })
                }
            },
        }
    }
}

/// Parsing consumes at least one token and never runs past the end.
pub proof fn lemma_parse_progress(ts: Seq<MTokAt>, i: int, eline: int, ecol: int)
    ensures
        (match parse_node_at(ts, i) {
            Ok((a, j)) => i < j <= ts.len(),
            Err(_) => true,
        }),
        (match parse_items(ts, i, eline, ecol) {
            Ok((items, j)) => i < j <= ts.len(),
            Err(_) => true,
        }),
    decreases ts.len() - i, 2int,
{
    if 0 <= i < ts.len() {
        if ts[i].tok is LPar {
            lemma_parse_items_progress(ts, i + 1, ts[i].line, ts[i].col);
        }
        if !(ts[i].tok is RPar) {
            match parse_node_at(ts, i) {
                Ok((a, j)) => {
                    if i < j <= ts.len() {
                        lemma_parse_items_progress(ts, j, eline, ecol);
                    }
                },
                Err(_) => {},
            }
        }
    }
}

pub proof fn lemma_parse_items_progress(ts: Seq<MTokAt>, i: int, eline: int, ecol: int)
    ensures
        (match parse_items(ts, i, eline, ecol) {
            Ok((items, j)) => i < j <= ts.len(),
            Err(_) => true,
        }),
    decreases ts.len() - i, 3int,
{
    if 0 <= i < ts.len() && !(ts[i].tok is RPar) {
        lemma_parse_progress(ts, i, eline, ecol);
        match parse_node_at(ts, i) {
            Ok((a, j)) => {
                if i < j <= ts.len() {
                    lemma_parse_items_progress(ts, j, eline, ecol);
                }
            },
            Err(_) => {},
        }
    }
}

/// All top-level nodes from position `i` on.
pub open spec fn parse_all(ts: Seq<MTokAt>, i: int) -> Result<Seq<MAst>, MParseErr>
    decreases ts.len() - i,
{
    if i >= ts.len() {
        Ok(Seq::empty())
    } else {
        match parse_node_at(ts, i) {
            Err(e) => Err(e),
            Ok((a, j)) => {
                if i < j <= ts.len() {
                    match parse_all(ts, j) {
                        Err(e) => Err(e),
                        Ok(rest) => Ok(seq![a] + rest),
                    }
                } else {
                    Ok(Seq::empty())
                }
            },
        }
    }
}

/// A stray-`)` error at the given position.
fn err_unmatched(line: u64, column: u64) -> (r: Error)
    ensures
        r@ == (MParseErr::Unmatched { line: line as int, col: column as int }),
{
    proof {
        reveal_strlit("unmatched ')'");
    }
    Error { line, column, message: String::from_str("unmatched ')'") }
}

/// A missing-`)` error located at the unmatched `(`.
fn err_missing(line: u64, column: u64) -> (r: Error)
    ensures
        r@ == (MParseErr::Missing { line: line as int, col: column as int }),
{
    proof {
        reveal_strlit("unmatched ')'");
        reveal_strlit("missing matching ')'");
        assert("missing matching ')'"@ != "unmatched ')'"@) by {
            assert("missing matching ')'"@.len() != "unmatched ')'"@.len());
        }
    }
    Error { line, column, message: String::from_str("missing matching ')'") }
}

/// Parse one node starting at token `i`.
fn parse_node(toks: &[AnnotatedToken], i: usize) -> (r: Result<(AST, usize), Error>)
    requires
        i <= toks@.len(),
    ensures
        (match parse_node_at(toks_view(toks@), i as int) {
            Ok((a, j)) => r is Ok && r->Ok_0.0@ == a && r->Ok_0.1 == j && i < j <= toks@.len(),
            Err(e) => r is Err && r->Err_0@ == e,
        }),
    decreases toks@.len() - i, 1int,
{
    let ghost ts = toks_view(toks@);
    proof {
        lemma_parse_progress(ts, i as int, 0, 0);
    }
    if i >= toks.len() {
        proof {
            assert(parse_node_at(ts, i as int) == Err::<(MAst, int), MParseErr>(
                MParseErr::Missing { line: 0, col: 0 },
            ));
        }
        return Err(err_missing(0, 0));
    }
    let first = &toks[i];
    proof {
        assert(ts[i as int] == toks@[i as int]@);
    }
    match &first.token {
        Token::Integer(v) => Ok((AST::Integer(*v), i + 1)),
        Token::Symbol(s) => {
            if str_eq(s.as_str(), "#t") {
                Ok((AST::Bool(true), i + 1))
            } else if str_eq(s.as_str(), "#f") {
                Ok((AST::Bool(false), i + 1))
            } else {
                Ok((AST::Symbol(s.clone()), i + 1))
            }
        },
        Token::Rparen => Err(err_unmatched(first.line, first.column)),
        Token::Lparen => {
            let eline = first.line;
            let ecolumn = first.column;
            let mut items: Vec<AST> = Vec::new();
            let mut j = i + 1;
            proof {
                assert(Seq::new(items@.len(), |k: int| items@[k]@) =~= Seq::<MAst>::empty());
            }
            loop
                invariant
                    i < j <= toks@.len() + 1,
                    j <= toks@.len(),
                    ts == toks_view(toks@),
                    i < toks@.len(),
                    ts[i as int].tok is LPar,
                    ts[i as int].line == eline as int,
                    ts[i as int].col == ecolumn as int,
                    (match parse_items(ts, i + 1, eline as int, ecolumn as int) {
                        Ok((all, k)) => match parse_items(ts, j as int, eline as int, ecolumn as int) {
                            Ok((rest, k2)) => all == Seq::new(items@.len(), |q: int| items@[q]@)
                                + rest && k == k2,
                            Err(_) => false,
                        },
                        Err(e) => match parse_items(ts, j as int, eline as int, ecolumn as int) {
                            Ok(_) => false,
                            Err(e2) => e == e2,
                        },
                    }),
                decreases toks@.len() - j,
            {
                if j >= toks.len() {
                    proof {
                        assert(parse_items(ts, j as int, eline as int, ecolumn as int)
                            == Err::<(Seq<MAst>, int), MParseErr>(
                            MParseErr::Missing { line: eline as int, col: ecolumn as int },
                        ));
                    }
                    return Err(err_missing(eline, ecolumn));
                }
                proof {
                    assert(ts[j as int] == toks@[j as int]@);
                }
                let is_rpar = matches!(&toks[j].token, Token::Rparen);
                if is_rpar {
                    proof {
                        assert(parse_items(ts, j as int, eline as int, ecolumn as int)
                            == Ok::<(Seq<MAst>, int), MParseErr>((Seq::empty(), j + 1)));
                        assert(Seq::new(items@.len(), |q: int| items@[q]@) + Seq::<
                            MAst,
                        >::empty() =~= Seq::new(items@.len(), |q: int| items@[q]@));
                        assert(asts_view(items@) =~= Seq::new(items@.len(), |q: int| items@[q]@));
                        lemma_parse_items_progress(ts, i + 1, eline as int, ecolumn as int);
                    }
                    return Ok((AST::List(items), j + 1));
                }
                proof {
                    lemma_parse_progress(ts, j as int, eline as int, ecolumn as int);
                }
                match parse_node(toks, j) {
                    Err(e) => {
                        return Err(e);
                    },
                    Ok((a, j2)) => {
                        let ghost items0 = Seq::new(items@.len(), |q: int| items@[q]@);
                        items.push(a);
                        proof {
                            assert(Seq::new(items@.len(), |q: int| items@[q]@) =~= items0.push(
                                a@,
                            ));
                            lemma_parse_items_progress(
                                ts,
                                j2 as int,
                                eline as int,
                                ecolumn as int,
                            );
                            match parse_items(ts, j2 as int, eline as int, ecolumn as int) {
                                Ok((rest, k2)) => {
                                    assert(items0 + (seq![a@] + rest) =~= items0.push(a@) + rest);
                                },
                                Err(_) => {},
                            }
                        }
                        j = j2;
                    },
                }
            }
        },
    }
}

/// Parse a whole token stream into the top-level syntax trees.
pub fn parse(tokens: &[AnnotatedToken]) -> (r: Result<Vec<AST>, Error>)
    ensures
        (match parse_all(toks_view(tokens@), 0) {
            Ok(asts) => r is Ok && r->Ok_0.deep_view() == asts,
            Err(e) => r is Err && r->Err_0@ == e,
        }),
{
    let ghost ts = toks_view(tokens@);
    let mut res: Vec<AST> = Vec::new();
    let mut i: usize = 0;
    proof {
        assert(res.deep_view() =~= Seq::<MAst>::empty());
    }
    loop
        invariant
            i <= tokens@.len(),
            ts == toks_view(tokens@),
            (match parse_all(ts, 0) {
                Ok(all) => match parse_all(ts, i as int) {
                    Ok(rest) => all == res.deep_view() + rest,
                    Err(_) => false,
                },
                Err(e) => match parse_all(ts, i as int) {
                    Ok(_) => false,
                    Err(e2) => e == e2,
                },
            }),
        decreases tokens@.len() - i,
    {
        if i >= tokens.len() {
            proof {
                assert(parse_all(ts, i as int) == Ok::<Seq<MAst>, MParseErr>(Seq::empty()));
                assert(res.deep_view() + Seq::<MAst>::empty() =~= res.deep_view());
            }
            return Ok(res);
        }
        match parse_node(tokens, i) {
            Err(e) => {
                return Err(e);
            },
            Ok((a, j)) => {
                let ghost d0 = res.deep_view();
                res.push(a);
                proof {
                    assert(res.deep_view() =~= d0.push(a@));
                    match parse_all(ts, j as int) {
                        Ok(rest) => {
                            assert(parse_all(ts, i as int) == Ok::<Seq<MAst>, MParseErr>(
                                seq![a@] + rest,
                            ));
                            assert(d0 + (seq![a@] + rest) =~= d0.push(a@) + rest);
                        },
                        Err(_) => {},
                    }
                }
                i = j;
            },
        }
    }
}

} // verus!
