//! The lexer: whitespace-separated source text to tokens.
//!
//! Parentheses delimit lists; a run starting with a numeric character must
//! be a base-10 integer; every other non-whitespace, non-paren run is a
//! symbol.  Each token carries the line and column where it began.  The
//! spec functions alongside mirror the scan exactly, one token at a time.
use vstd::prelude::*;

verus! {

use vstd::string::StrSliceExecFns;
use vstd::string::StringExecFns;
use vstd::wrapping::i64_specs;

/// One token of source text.
#[derive(PartialEq, Debug)]
pub enum Token {
    Lparen,
    Rparen,
    Integer(i64),
    Symbol(String),
}

/// A token together with the line and column where it began (both
/// starting at 0).
#[derive(PartialEq, Debug)]
pub struct AnnotatedToken {
    pub token: Token,
    pub line: u64,
    pub column: u64,
}

/// A syntax error, located by line and column.
#[derive(Debug)]
pub struct Error {
    pub line: u64,
    pub column: u64,
    pub message: String,
}

/// A token, abstractly.
#[verifier::ext_equal]
pub ghost enum MTok {
    LPar,
    RPar,
    Num(i64),
    Sym(Seq<char>),
}

/// A located token, abstractly.
#[verifier::ext_equal]
pub ghost struct MTokAt {
    pub tok: MTok,
    pub line: int,
    pub col: int,
}

/// A located lex error, abstractly.
#[verifier::ext_equal]
pub ghost struct MLexErr {
    pub line: int,
    pub col: int,
}

impl View for Token {
    type V = MTok;

    open spec fn view(&self) -> MTok {
        match self {
            Token::Lparen => MTok::LPar,
            Token::Rparen => MTok::RPar,
            Token::Integer(v) => MTok::Num(*v),
            Token::Symbol(s) => MTok::Sym(s@),
        }
    }
}

impl View for AnnotatedToken {
    type V = MTokAt;

    open spec fn view(&self) -> MTokAt {
        MTokAt { tok: self.token@, line: self.line as int, col: self.column as int }
    }
}

impl DeepView for AnnotatedToken {
    type V = MTokAt;

    open spec fn deep_view(&self) -> MTokAt {
        self.view()
    }
}

/// What `char::is_whitespace` answers beyond ASCII.  The name stands for
/// the non-ASCII part of the Unicode White_Space property, a function of
/// the character alone; the trusted wrapper below ties it to the standard
/// library.
pub uninterp spec fn ws_char_high(c: char) -> bool;

/// Is `c` whitespace, as the scanner sees it?  On ASCII this is exactly
/// space, tab, newline, carriage return, vertical tab and form feed —
/// the ASCII members of the Unicode White_Space property — stated
/// outright; beyond ASCII it is the named `ws_char_high`.
pub open spec fn ws_char(c: char) -> bool {
    if c <= '\u{7f}' {
        c == ' ' || c == '\t' || c == '\n' || c == '\r' || c == '\u{b}' || c == '\u{c}'
    } else {
        ws_char_high(c)
    }
}

/// On ASCII, `ws_char` holds exactly for space, tab, newline, carriage
/// return, vertical tab and form feed: the pinned cases, for callers that
/// read `tokenize`'s contract on concrete ASCII text.
pub proof fn lemma_ws_char_ascii(c: char)
    requires
        c <= '\u{7f}',
    ensures
        ws_char(c) == (c == ' ' || c == '\t' || c == '\n' || c == '\r' || c == '\u{b}' || c
            == '\u{c}'),
{
}

/// Relies on `char::is_whitespace`: true exactly on the Unicode
/// White_Space property, a function of the character alone.  Its ASCII
/// members are the six characters `ws_char` lists; beyond ASCII the
/// result carries the name `ws_char_high`.
#[verifier::external_body]
fn is_ws(c: char) -> (r: bool)
    ensures
        r == ws_char(c),
        c > '\u{7f}' ==> r == ws_char_high(c),
{
    c.is_whitespace()
}

/// What `char::is_numeric` answers beyond ASCII.  The name stands for the
/// non-ASCII part of the Unicode N categories, a function of the
/// character alone; the trusted wrapper below ties it to the standard
/// library.
pub uninterp spec fn numeric_char_high(c: char) -> bool;

/// Does `c` start an integer token?  On ASCII this is exactly the ten
/// digits `0` to `9` — the ASCII members of the Unicode N categories —
/// stated outright; beyond ASCII it is the named `numeric_char_high`.
pub open spec fn numeric_char(c: char) -> bool {
    if c <= '\u{7f}' {
        '0' <= c && c <= '9'
    } else {
        numeric_char_high(c)
    }
}

/// On ASCII, `numeric_char` holds exactly for the ten digits: the pinned
/// cases, for callers that read `tokenize`'s contract on concrete ASCII
/// text.
pub proof fn lemma_numeric_char_ascii(c: char)
    requires
        c <= '\u{7f}',
    ensures
        numeric_char(c) == ('0' <= c && c <= '9'),
{
}

/// Relies on `char::is_numeric`: true exactly on the Unicode N
/// categories, a function of the character alone.  Its ASCII members are
/// the ten digits `numeric_char` lists; beyond ASCII the result carries
/// the name `numeric_char_high`.
#[verifier::external_body]
fn is_num(c: char) -> (r: bool)
    ensures
        r == numeric_char(c),
        c > '\u{7f}' ==> r == numeric_char_high(c),
{
    c.is_numeric()
}

/// The value of a decimal digit, `None` for any other character.
fn digit10(c: char) -> (r: Option<u32>)
    ensures
        ('0' <= c && c <= '9') ==> r == Some((c as u32 - '0' as u32) as u32),
        !('0' <= c && c <= '9') ==> r is None,
{
    if '0' <= c && c <= '9' {
        Some(c as u32 - '0' as u32)
    } else {
        None
    }
}

/// Does position `i` end the current token: end of input, whitespace, or
/// a parenthesis?
pub open spec fn at_delim(s: Seq<char>, i: int) -> bool {
    i >= s.len() || ws_char(s[i]) || s[i] == '(' || s[i] == ')'
}

/// Advance one character, tracking line and column: a newline starts the
/// next line at column 0, anything else moves one column right.
pub open spec fn advance(c: char, line: int, col: int) -> (int, int) {
    if c == '\n' {
        (line + 1, 0)
    } else {
        (line, col + 1)
    }
}

/// Skip whitespace; the resulting position, line and column.
pub open spec fn skip_ws(s: Seq<char>, i: int, line: int, col: int) -> (int, int, int)
    decreases s.len() - i,
{
    if i >= s.len() || !ws_char(s[i]) {
        (i, line, col)
    } else {
        let (l2, c2) = advance(s[i], line, col);
        skip_ws(s, i + 1, l2, c2)
    }
}

/// Skipping whitespace moves forward and stops before a non-whitespace
/// character.
pub proof fn lemma_skip_ws_props(s: Seq<char>, i: int, line: int, col: int)
    requires
        0 <= i <= s.len(),
    ensures
        ({
            let (i1, l1, c1) = skip_ws(s, i, line, col);
            &&& i <= i1 <= s.len()
            &&& (i1 < s.len() ==> !ws_char(s[i1]))
        }),
    decreases s.len() - i,
{
    if i < s.len() && ws_char(s[i]) {
        let (l2, c2) = advance(s[i], line, col);
        lemma_skip_ws_props(s, i + 1, l2, c2);
    }
}

/// The position where the symbol beginning at `i` ends, with the line and
/// column there.
pub open spec fn sym_scan(s: Seq<char>, i: int, line: int, col: int) -> (int, int, int)
    decreases s.len() - i,
{
    if at_delim(s, i) {
        (i, line, col)
    } else {
        let (l2, c2) = advance(s[i], line, col);
        sym_scan(s, i + 1, l2, c2)
    }
}

pub proof fn lemma_sym_scan_bounds(s: Seq<char>, i: int, line: int, col: int)
    requires
        0 <= i <= s.len(),
    ensures
        i <= sym_scan(s, i, line, col).0 <= s.len(),
        !at_delim(s, i) ==> i < sym_scan(s, i, line, col).0,
    decreases s.len() - i,
{
    if !at_delim(s, i) {
        let (l2, c2) = advance(s[i], line, col);
        lemma_sym_scan_bounds(s, i + 1, l2, c2);
    }
}

/// Scan the rest of an integer token that began at `(tl, tc)` with
/// accumulated value `acc`; a non-digit before the next delimiter is an
/// error at its own position.  Digits accumulate in base 10 with the
/// machine's wrapping arithmetic.
pub open spec fn scan_int(
    s: Seq<char>,
    i: int,
    line: int,
    col: int,
    tl: int,
    tc: int,
    acc: i64,
) -> Result<(MTokAt, int, int, int), MLexErr>
    decreases s.len() - i,
{
    if at_delim(s, i) {
        Ok((MTokAt { tok: MTok::Num(acc), line: tl, col: tc }, i, line, col))
    } else {
        let c = s[i];
        let (l2, c2) = advance(c, line, col);
        if '0' <= c && c <= '9' {
            let d = (c as u32 - '0' as u32) as i64;
            scan_int(
                s,
                i + 1,
                l2,
                c2,
                tl,
                tc,
                i64_specs::wrapping_add(i64_specs::wrapping_mul(acc, 10), d),
            )
        } else {
            Err(MLexErr { line: l2, col: c2 - 1 })
        }
    }
}

pub proof fn lemma_scan_int_bounds(
    s: Seq<char>,
    i: int,
    line: int,
    col: int,
    tl: int,
    tc: int,
    acc: i64,
)
    requires
        0 <= i <= s.len(),
    ensures
        (match scan_int(s, i, line, col, tl, tc, acc) {
            Ok((t, i2, l2, c2)) => i <= i2 <= s.len() && (!at_delim(s, i) ==> i < i2),
            Err(_) => true,
        }),
    decreases s.len() - i,
{
    if !at_delim(s, i) {
        let c = s[i];
        let (l2, c2) = advance(c, line, col);
        if '0' <= c && c <= '9' {
            let d = (c as u32 - '0' as u32) as i64;
            lemma_scan_int_bounds(
                s,
                i + 1,
                l2,
                c2,
                tl,
                tc,
                i64_specs::wrapping_add(i64_specs::wrapping_mul(acc, 10), d),
            );
        }
    }
}

/// The next token after position `i`, if any: skip whitespace, then a
/// parenthesis is a token of its own, a numeric character begins an
/// integer, and anything else begins a symbol whose name runs to the next
/// delimiter.
pub open spec fn next_token(s: Seq<char>, i: int, line: int, col: int) -> Result<
    Option<(MTokAt, int, int, int)>,
    MLexErr,
> {
    let (i1, l1, c1) = skip_ws(s, i, line, col);
    if i1 >= s.len() {
        Ok(None)
    } else if s[i1] == '(' {
        Ok(Some((MTokAt { tok: MTok::LPar, line: l1, col: c1 }, i1 + 1, l1, c1 + 1)))
    } else if s[i1] == ')' {
        Ok(Some((MTokAt { tok: MTok::RPar, line: l1, col: c1 }, i1 + 1, l1, c1 + 1)))
    } else if numeric_char(s[i1]) {
        match scan_int(s, i1, l1, c1, l1, c1, 0) {
            Ok(t) => Ok(Some(t)),
            Err(e) => Err(e),
        }
    } else {
        let (i2, l2, c2) = sym_scan(s, i1, l1, c1);
        Ok(Some((MTokAt { tok: MTok::Sym(s.subrange(i1, i2)), line: l1, col: c1 }, i2, l2, c2)))
    }
}

/// All tokens from position `i` on.
pub open spec fn lex_all(s: Seq<char>, i: int, line: int, col: int) -> Result<
    Seq<MTokAt>,
    MLexErr,
>
    decreases s.len() - i,
{
    match next_token(s, i, line, col) {
        Err(e) => Err(e),
        Ok(None) => Ok(Seq::empty()),
        Ok(Some((t, i2, l2, c2))) => {
            if i < i2 <= s.len() {
                match lex_all(s, i2, l2, c2) {
                    Err(e) => Err(e),
                    Ok(rest) => Ok(seq![t] + rest),
                }
            } else {
                Ok(Seq::empty())
            }
        },
    }
}

/// The scanner's cursor: a position in the text and the line and column
/// it stands at.
struct Lexer<'a> {
    text: &'a str,
    n: usize,
    pos: usize,
    line: u64,
    column: u64,
}

impl<'a> Lexer<'a> {
    spec fn wf(&self) -> bool {
        &&& self.n == self.text@.len()
        &&& self.pos <= self.n
        &&& self.line <= self.pos
        &&& self.column <= self.pos
    }

    fn new(source: &'a str) -> (r: Lexer<'a>)
        ensures
            r.wf(),
            r.text@ == source@,
            r.pos == 0,
            r.line == 0,
            r.column == 0,
    {
        let n = source.unicode_len();
        Lexer { text: source, n, pos: 0, line: 0, column: 0 }
    }

    /// Consume one character, updating the line and column.
    fn next_chr(&mut self) -> (c: char)
        requires
            old(self).wf(),
            old(self).pos < old(self).n,
        ensures
            final(self).wf(),
            final(self).text == old(self).text,
            final(self).n == old(self).n,
            c == old(self).text@[old(self).pos as int],
            final(self).pos == old(self).pos + 1,
            (final(self).line as int, final(self).column as int) == advance(
                c,
                old(self).line as int,
                old(self).column as int,
            ),
    {
        let c = self.text.get_char(self.pos);
        proof {
            assert(usize::MAX <= u64::MAX);
        }
        self.pos = self.pos + 1;
        if c == '\n' {
            self.column = 0;
            self.line = self.line + 1;
        } else {
            self.column = self.column + 1;
        }
        c
    }

    /// Skip to the next non-whitespace character.
    fn dump_whitespace(&mut self)
        requires
            old(self).wf(),
        ensures
            final(self).wf(),
            final(self).text == old(self).text,
            final(self).n == old(self).n,
            (final(self).pos as int, final(self).line as int, final(self).column as int)
                == skip_ws(
                old(self).text@,
                old(self).pos as int,
                old(self).line as int,
                old(self).column as int,
            ),
    {
        loop
            invariant
                self.wf(),
                self.text == old(self).text,
                self.n == old(self).n,
                skip_ws(
                    old(self).text@,
                    old(self).pos as int,
                    old(self).line as int,
                    old(self).column as int,
                ) == skip_ws(self.text@, self.pos as int, self.line as int, self.column as int),
            decreases self.n - self.pos,
        {
            if self.pos >= self.n {
                return;
            }
            let c = self.text.get_char(self.pos);
            if is_ws(c) {
                let _ = self.next_chr();
            } else {
                return;
            }
        }
    }

    /// Does the cursor stand at a token boundary?
    fn at_delimiter(&self) -> (r: bool)
        requires
            self.wf(),
        ensures
            r == at_delim(self.text@, self.pos as int),
            (self.pos < self.n && self.text@[self.pos as int] == '\n') ==> r,
    {
        if self.pos >= self.n {
            return true;
        }
        let c = self.text.get_char(self.pos);
        is_ws(c) || c == '(' || c == ')'
    }

    /// Scan an integer token from the cursor; an error names the position
    /// of the offending character.
    fn get_integer(&mut self) -> (r: Result<AnnotatedToken, Error>)
        requires
            old(self).wf(),
        ensures
            final(self).wf(),
            final(self).text == old(self).text,
            final(self).n == old(self).n,
            (match scan_int(
                old(self).text@,
                old(self).pos as int,
                old(self).line as int,
                old(self).column as int,
                old(self).line as int,
                old(self).column as int,
                0,
            ) {
                Ok((t, i2, l2, c2)) => r is Ok && r->Ok_0@ == t && final(self).pos == i2
                    && final(self).line == l2 && final(self).column == c2,
                Err(e) => r is Err && r->Err_0.line == e.line && r->Err_0.column == e.col,
            }),
    {
        let ghost s = self.text@;
        let tline = self.line;
        let tcolumn = self.column;
        let mut val: i64 = 0;
        loop
            invariant
                self.wf(),
                self.text == old(self).text,
                self.n == old(self).n,
                tline == old(self).line,
                tcolumn == old(self).column,
                scan_int(
                    s,
                    old(self).pos as int,
                    old(self).line as int,
                    old(self).column as int,
                    old(self).line as int,
                    old(self).column as int,
                    0,
                ) == scan_int(
                    s,
                    self.pos as int,
                    self.line as int,
                    self.column as int,
                    tline as int,
                    tcolumn as int,
                    val,
                ),
                s == self.text@,
            decreases self.n - self.pos,
        {
            if self.at_delimiter() {
                return Ok(
                    AnnotatedToken { token: Token::Integer(val), line: tline, column: tcolumn },
                );
            }
            let c = self.next_chr();
            match digit10(c) {
                Some(d) => {
                    val = val.wrapping_mul(10).wrapping_add(d as i64);
                },
                None => {
                    proof {
                        assert(c != '\n');
                        assert(self.column >= 1);
                    }
                    return Err(
                        Error {
                            line: self.line,
                            column: self.column - 1,
                            message: String::from_str("unable to parse integer value"),
                        },
                    );
                },
            }
        }
    }

    /// Scan a symbol token from the cursor; symbols never fail.
    fn get_symbol(&mut self) -> (r: AnnotatedToken)
        requires
            old(self).wf(),
        ensures
            final(self).wf(),
            final(self).text == old(self).text,
            final(self).n == old(self).n,
            ({
                let (i2, l2, c2) = sym_scan(
                    old(self).text@,
                    old(self).pos as int,
                    old(self).line as int,
                    old(self).column as int,
                );
                &&& r@ == (MTokAt {
                    tok: MTok::Sym(old(self).text@.subrange(old(self).pos as int, i2)),
                    line: old(self).line as int,
                    col: old(self).column as int,
                })
                &&& final(self).pos == i2
                &&& final(self).line == l2
                &&& final(self).column == c2
            }),
    {
        let ghost s = self.text@;
        let start = self.pos;
        let tline = self.line;
        let tcolumn = self.column;
        loop
            invariant
                self.wf(),
                self.text == old(self).text,
                self.n == old(self).n,
                s == self.text@,
                start <= self.pos,
                start == old(self).pos,
                tline == old(self).line,
                tcolumn == old(self).column,
                sym_scan(s, old(self).pos as int, old(self).line as int, old(self).column as int)
                    == sym_scan(s, self.pos as int, self.line as int, self.column as int),
            decreases self.n - self.pos,
        {
            if self.at_delimiter() {
                let name = self.text.substring_char(start, self.pos);
                let token = Token::Symbol(String::from_str(name));
                return AnnotatedToken { token, line: tline, column: tcolumn };
            }
            let _ = self.next_chr();
        }
    }

    /// The next token, `Ok(None)` at end of input.
    fn next(&mut self) -> (r: Result<Option<AnnotatedToken>, Error>)
        requires
            old(self).wf(),
        ensures
            final(self).wf(),
            final(self).text == old(self).text,
            final(self).n == old(self).n,
            (match next_token(
                old(self).text@,
                old(self).pos as int,
                old(self).line as int,
                old(self).column as int,
            ) {
                Ok(None) => r is Ok && r->Ok_0 is None,
                Ok(Some((t, i2, l2, c2))) => r is Ok && r->Ok_0 is Some && r->Ok_0->0@ == t
                    && final(self).pos == i2 && final(self).line == l2 && final(self).column == c2
                    && old(self).pos < i2 <= old(self).n,
                Err(e) => r is Err && r->Err_0.line == e.line && r->Err_0.column == e.col,
            }),
    {
        let ghost s = self.text@;
        let ghost pre = (self.pos as int, self.line as int, self.column as int);
        self.dump_whitespace();
        proof {
            lemma_skip_ws_props(s, pre.0, pre.1, pre.2);
        }
        if self.pos >= self.n {
            return Ok(None);
        }
        let c = self.text.get_char(self.pos);
        proof {
            assert(!ws_char(s[self.pos as int]));
        }
        if c == '(' {
            let _ = self.next_chr();
            proof {
                assert(self.column >= 1);
            }
            return Ok(
                Some(
                    AnnotatedToken {
                        token: Token::Lparen,
                        line: self.line,
                        column: self.column - 1,
                    },
                ),
            );
        }
        if c == ')' {
            let _ = self.next_chr();
            proof {
                assert(self.column >= 1);
            }
            return Ok(
                Some(
                    AnnotatedToken {
                        token: Token::Rparen,
                        line: self.line,
                        column: self.column - 1,
                    },
                ),
            );
        }
        if is_num(c) {
            proof {
                assert(!at_delim(s, self.pos as int));
                lemma_scan_int_bounds(
                    s,
                    self.pos as int,
                    self.line as int,
                    self.column as int,
                    self.line as int,
                    self.column as int,
                    0,
                );
            }
            match self.get_integer() {
                Ok(t) => Ok(Some(t)),
                Err(e) => Err(e),
            }
        } else {
            proof {
                assert(!at_delim(s, self.pos as int));
                lemma_sym_scan_bounds(s, self.pos as int, self.line as int, self.column as int);
            }
            Ok(Some(self.get_symbol()))
        }
    }
}

/// Split source text into located tokens, or report the first syntax
/// error.
pub fn tokenize(source: &str) -> (r: Result<Vec<AnnotatedToken>, Error>)
    ensures
        (match lex_all(source@, 0, 0, 0) {
            Ok(ts) => r is Ok && r->Ok_0.deep_view() == ts,
            Err(e) => r is Err && r->Err_0.line == e.line && r->Err_0.column == e.col,
        }),
{
    let ghost s = source@;
    let mut lexer = Lexer::new(source);
    let mut res: Vec<AnnotatedToken> = Vec::new();
    proof {
        assert(res.deep_view() =~= Seq::<MTokAt>::empty());
    }
    loop
        invariant
            lexer.wf(),
            lexer.text@ == s,
            s == source@,
            (match lex_all(s, 0, 0, 0) {
                Ok(ts) => match lex_all(
                    s,
                    lexer.pos as int,
                    lexer.line as int,
                    lexer.column as int,
                ) {
                    Ok(rest) => ts == res.deep_view() + rest,
                    Err(_) => false,
                },
                Err(e) => match lex_all(
                    s,
                    lexer.pos as int,
                    lexer.line as int,
                    lexer.column as int,
                ) {
                    Ok(_) => false,
                    Err(e2) => e == e2,
                },
            }),
        decreases lexer.n - lexer.pos,
    {
        let ghost cur = (lexer.pos as int, lexer.line as int, lexer.column as int);
        match lexer.next() {
            Err(e) => {
                return Err(e);
            },
            Ok(None) => {
                proof {
                    assert(lex_all(s, cur.0, cur.1, cur.2) == Ok::<Seq<MTokAt>, MLexErr>(
                        Seq::empty(),
                    ));
                    assert(res.deep_view() + Seq::<MTokAt>::empty() =~= res.deep_view());
                }
                return Ok(res);
            },
            Ok(Some(t)) => {
                let ghost d0 = res.deep_view();
                res.push(t);
                proof {
                    assert(res.deep_view() =~= d0.push(t@));
                    let nt = next_token(s, cur.0, cur.1, cur.2);
                    let (tt, i2, l2, c2) = nt->Ok_0->0;
                    match lex_all(s, i2, l2, c2) {
                        Ok(rest) => {
                            assert(lex_all(s, cur.0, cur.1, cur.2) == Ok::<Seq<MTokAt>, MLexErr>(
                                seq![tt] + rest,
                            ));
                            assert(d0 + (seq![tt] + rest) =~= d0.push(tt) + rest);
                        },
                        Err(_) => {},
                    }
                }
            },
        }
    }
}

} // verus!
