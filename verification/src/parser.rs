//! Recursive-descent parser for the textual grammar language.
//!
//! The parser walks a vector of code points with a cursor, trying
//! alternatives in order and moving the cursor back on failure, while
//! the farthest failure position (`ffp`) only ever moves forward.
//! Single-character alternatives are first-class values (`Matcher`),
//! so ordered choice over them has an exact contract.

#![verifier::loop_isolation(false)]

use vstd::prelude::*;

verus! {

use crate::ast::{SemExpr, SemExprUnaryOp, SemValue, AST};
use crate::text::chars_of;

/// A parsing error: either a backtracking failure with the farthest
/// failure position and a diagnostic message, or a numeric literal
/// that does not fit the number type.
#[derive(Debug)]
pub enum Error {
    BacktrackError(usize, String),
    ParseIntError(String),
}

/// The parser: a cursor over a sequence of code points, together with
/// the farthest failure position (`ffp`) reached so far.
pub struct Parser {
    pub cursor: usize,
    pub ffp: usize,
    pub source: Vec<char>,
}

impl Parser {
    /// The parser's basic well-formedness: the cursor never passes the
    /// farthest failure position, which never passes the input's end.
    pub open spec fn wf(&self) -> bool {
        self.cursor <= self.ffp <= self.source@.len()
    }

    pub fn new(s: &str) -> (r: Self)
        ensures
            r.wf(),
            r.cursor == 0,
            r.ffp == 0,
            r.source@ == s@,
    {
        Parser { cursor: 0, ffp: 0, source: chars_of(s) }
    }
}

/// What the parser never undoes: the input is untouched, and neither
/// the cursor nor the farthest failure position moves backwards.
pub open spec fn progressed(pre: Parser, post: Parser) -> bool {
    &&& post.source == pre.source
    &&& pre.cursor <= post.cursor
    &&& pre.ffp <= post.ffp
}

/// The parser consumed exactly one code point: the cursor moved one
/// step and pushed the farthest failure position along when it
/// passed it.
pub open spec fn took_one(pre: Parser, post: Parser) -> bool {
    &&& post.cursor == pre.cursor + 1
    &&& post.ffp == if pre.cursor + 1 > pre.ffp {
        (pre.cursor + 1) as usize
    } else {
        pre.ffp
    }
    &&& post.source == pre.source
}

/// A backtracking error carrying the given farthest failure
/// position.
pub open spec fn is_backtrack(r: Error, p: usize) -> bool {
    r matches Error::BacktrackError(q, _) && q == p
}

/// A single-character expectation: one concrete code point, or an
/// inclusive range of code points.
#[derive(Clone, Copy, Debug)]
pub enum Matcher {
    Expect(char),
    ExpectRange(char, char),
}

/// Whether the expectation accepts the code point.
pub open spec fn matcher_hits(m: Matcher, c: char) -> bool {
    match m {
        Matcher::Expect(e) => c == e,
        Matcher::ExpectRange(a, b) => a <= c && c <= b,
    }
}

/// Whether any of the expectations accepts the code point.
pub open spec fn any_hits(ms: Seq<Matcher>, c: char) -> bool {
    exists|i: int| 0 <= i < ms.len() && matcher_hits(ms[i], c)
}

/// The length of the run of code points from position `i` that the
/// expectations accept.
pub open spec fn run_len(src: Seq<char>, i: int, ms: Seq<Matcher>) -> int
    decreases src.len() - i when i <= src.len()
{
    if 0 <= i < src.len() && any_hits(ms, src[i]) {
        1 + run_len(src, i + 1, ms)
    } else {
        0
    }
}

/// The number of leading code points of `pat` that match the input
/// at position `i`.
pub open spec fn match_len(src: Seq<char>, i: int, pat: Seq<char>) -> int
    decreases pat.len(),
{
    if pat.len() == 0 {
        0
    } else if i < src.len() && 0 <= i && src[i] == pat[0] {
        1 + match_len(src, i + 1, pat.drop_first())
    } else {
        0
    }
}

proof fn lemma_match_two(src: Seq<char>, i: int, a: char, b: char)
    requires
        0 <= i,
        match_len(src, i, seq![a, b]) == 2,
    ensures
        i + 1 < src.len(),
        src[i] == a,
        src[i + 1] == b,
{
    assert(seq![a, b].drop_first() =~= seq![b]);
    assert(seq![b].drop_first() =~= Seq::<char>::empty());
    if !(i < src.len() && src[i] == a) {
        assert(match_len(src, i, seq![a, b]) == 0);
    }
    assert(match_len(src, i, seq![a, b]) == 1 + match_len(src, i + 1, seq![b]));
    if !(i + 1 < src.len() && src[i + 1] == b) {
        assert(match_len(src, i + 1, seq![b]) == 0);
    }
}

proof fn lemma_match_len_bounds(src: Seq<char>, i: int, pat: Seq<char>)
    ensures
        0 <= match_len(src, i, pat) <= pat.len(),
    decreases pat.len(),
{
    if pat.len() > 0 && 0 <= i < src.len() && src[i] == pat[0] {
        lemma_match_len_bounds(src, i + 1, pat.drop_first());
    }
}

impl Parser {
    /// Produces a backtracking error that records the farthest
    /// failure position, with `msg` attached for diagnostics.
    pub fn err(&mut self, msg: String) -> (r: Error)
        ensures
            *final(self) == *old(self),
            is_backtrack(r, old(self).ffp),
    {
        Error::BacktrackError(self.ffp, msg)
    }

    /// Whether the cursor stands at the end of the input.
    pub fn eof(&self) -> (r: bool)
        ensures
            r == (self.cursor == self.source@.len()),
    {
        self.cursor == self.source.len()
    }

    /// Moves the cursor one code point forward, pushing the farthest
    /// failure position along when it passes it.
    pub fn next(&mut self)
        requires
            old(self).wf(),
            old(self).cursor < old(self).source@.len(),
        ensures
            final(self).wf(),
            took_one(*old(self), *final(self)),
    {
        proof {
            vstd::std_specs::vec::axiom_spec_len(&self.source);
        }
        self.cursor = self.cursor + 1;
        if self.cursor > self.ffp {
            self.ffp = self.cursor;
        }
    }

    /// The code point under the cursor, or a backtracking error at
    /// the end of the input.  Does not move the cursor.
    pub fn current(&mut self) -> (r: Result<char, Error>)
        requires
            old(self).wf(),
        ensures
            *final(self) == *old(self),
            if old(self).cursor < old(self).source@.len() {
                r matches Ok(c) && c == old(self).source@[old(self).cursor as int]
            } else {
                r matches Err(e) && is_backtrack(e, old(self).ffp)
            },
    {
        if !self.eof() {
            return Ok(self.source[self.cursor]);
        }
        let m = "EOF".to_owned();
        Err(self.err(m))
    }

    /// Consumes and returns the code point under the cursor; a
    /// backtracking error at the end of the input.
    pub fn any(&mut self) -> (r: Result<char, Error>)
        requires
            old(self).wf(),
        ensures
            final(self).wf(),
            if old(self).cursor < old(self).source@.len() {
                (r matches Ok(c) && c == old(self).source@[old(self).cursor as int]) && took_one(
                    *old(self),
                    *final(self),
                )
            } else {
                (r matches Err(e) && is_backtrack(e, old(self).ffp)) && *final(self) == *old(self)
            },
    {
        let current = match self.current() {
            Ok(c) => c,
            Err(e) => {
                return Err(e);
            },
        };
        self.next();
        Ok(current)
    }

    /// Consumes the code point under the cursor when it equals
    /// `expected`; otherwise leaves the parser unchanged and reports
    /// a backtracking error.
    pub fn expect(&mut self, expected: char) -> (r: Result<char, Error>)
        requires
            old(self).wf(),
        ensures
            final(self).wf(),
            if old(self).cursor < old(self).source@.len() && old(self).source@[old(
                self,
            ).cursor as int] == expected {
                (r matches Ok(c) && c == expected) && took_one(*old(self), *final(self))
            } else {
                (r matches Err(e) && is_backtrack(e, old(self).ffp)) && *final(self) == *old(self)
            },
    {
        let current = match self.current() {
            Ok(c) => c,
            Err(e) => {
                return Err(e);
            },
        };
        if current == expected {
            self.next();
            return Ok(current);
        }
        let m = msg_expected(expected, current);
        Err(self.err(m))
    }

    /// Consumes the code point under the cursor when it lies in the
    /// inclusive range `a ..= b`; otherwise leaves the parser
    /// unchanged and reports a backtracking error.
    pub fn expect_range(&mut self, a: char, b: char) -> (r: Result<char, Error>)
        requires
            old(self).wf(),
        ensures
            final(self).wf(),
            if old(self).cursor < old(self).source@.len() && a <= old(self).source@[old(
                self,
            ).cursor as int] && old(self).source@[old(self).cursor as int] <= b {
                (r matches Ok(c) && c == old(self).source@[old(self).cursor as int]) && took_one(
                    *old(self),
                    *final(self),
                )
            } else {
                (r matches Err(e) && is_backtrack(e, old(self).ffp)) && *final(self) == *old(self)
            },
    {
        let current = match self.current() {
            Ok(c) => c,
            Err(e) => {
                return Err(e);
            },
        };
        if a <= current && current <= b {
            self.next();
            return Ok(current);
        }
        let m = msg_expected_range(a, b, current);
        Err(self.err(m))
    }

    /// Consumes the code points of `expected` one by one.  On a
    /// mismatch the cursor is left after the part that did match, and
    /// a backtracking error is reported.
    #[verifier::rlimit(50)]
    pub fn expect_str(&mut self, expected: &str) -> (r: Result<String, Error>)
        requires
            old(self).wf(),
        ensures
            final(self).wf(),
            ({
                let k = match_len(old(self).source@, old(self).cursor as int, expected@);
                &&& 0 <= k <= expected@.len()
                &&& final(self).cursor == old(self).cursor + k
                &&& final(self).source == old(self).source
                &&& final(self).ffp == if old(self).cursor + k > old(self).ffp {
                    (old(self).cursor + k) as usize
                } else {
                    old(self).ffp
                }
                &&& if k == expected@.len() {
                    r matches Ok(s) && s@ == expected@
                } else {
                    r matches Err(e) && is_backtrack(e, final(self).ffp)
                }
            }),
    {
        let pat = crate::text::chars_of(expected);
        let mut j: usize = 0;
        proof {
            assert(expected@.skip(0) =~= expected@);
            lemma_match_len_bounds(old(self).source@, old(self).cursor as int, expected@);
        }
        while j < pat.len()
            invariant
                j <= pat@.len(),
                self.wf(),
                self.source == old(self).source,
                self.cursor == old(self).cursor + j,
                self.ffp == if old(self).cursor + j > old(self).ffp {
                    (old(self).cursor + j) as usize
                } else {
                    old(self).ffp
                },
                match_len(old(self).source@, old(self).cursor as int, expected@) == j + match_len(
                    self.source@,
                    self.cursor as int,
                    expected@.skip(j as int),
                ),
            decreases pat@.len() - j,
        {
            proof {
                assert(expected@.skip(j as int).drop_first() =~= expected@.skip(j + 1));
                assert(expected@.skip(j as int)[0] == expected@[j as int]);
            }
            match self.expect(pat[j]) {
                Ok(_) => {},
                Err(e) => {
                    return Err(e);
                },
            }
            j += 1;
        }
        Ok(expected.to_owned())
    }
}

/// The diagnostic text for a single mismatched code point.
fn msg_expected(expected: char, got: char) -> String {
    let mut m = String::new();
    m.append("Expected `");
    m.push(expected);
    m.append("' but got `");
    m.push(got);
    m.append("' instead");
    m
}

/// The diagnostic text for a code point outside an expected range.
fn msg_expected_range(a: char, b: char, got: char) -> String {
    let mut m = String::new();
    m.append("Expected char between `");
    m.push(a);
    m.append("' and `");
    m.push(b);
    m.append("' but got `");
    m.push(got);
    m.append("' instead");
    m
}

proof fn lemma_run_len_bounds(src: Seq<char>, i: int, ms: Seq<Matcher>)
    requires
        0 <= i <= src.len(),
    ensures
        run_len(src, i, ms) >= 0,
        i + run_len(src, i, ms) <= src.len(),
        forall|j: int| i <= j < i + run_len(src, i, ms) ==> any_hits(ms, #[trigger] src[j]),
    decreases src.len() - i,
{
    if i < src.len() && any_hits(ms, src[i]) {
        lemma_run_len_bounds(src, i + 1, ms);
    }
}

impl Parser {
    /// Whether the expectation accepts the code point.
    pub fn matcher_check(m: &Matcher, c: char) -> (r: bool)
        ensures
            r == matcher_hits(*m, c),
    {
        match m {
            Matcher::Expect(e) => c == *e,
            Matcher::ExpectRange(a, b) => *a <= c && c <= *b,
        }
    }

    /// Ordered choice over single-character expectations: consumes
    /// the code point under the cursor when some expectation accepts
    /// it, and otherwise leaves the parser unchanged and reports a
    /// backtracking error.
    pub fn choice(&mut self, funcs: Vec<Matcher>) -> (r: Result<char, Error>)
        requires
            old(self).wf(),
        ensures
            final(self).wf(),
            if old(self).cursor < old(self).source@.len() && any_hits(
                funcs@,
                old(self).source@[old(self).cursor as int],
            ) {
                (r matches Ok(c) && c == old(self).source@[old(self).cursor as int]) && took_one(
                    *old(self),
                    *final(self),
                )
            } else {
                (r matches Err(e) && is_backtrack(e, old(self).ffp)) && *final(self) == *old(self)
            },
    {
        if !self.eof() {
            let c = self.source[self.cursor];
            let mut i: usize = 0;
            while i < funcs.len()
                invariant
                    i <= funcs@.len(),
                    forall|k: int| 0 <= k < i ==> !matcher_hits(funcs@[k], c),
                    *self == *old(self),
                decreases funcs@.len() - i,
            {
                if Self::matcher_check(&funcs[i], c) {
                    self.next();
                    return Ok(c);
                }
                i += 1;
            }
        }
        let m = "CHOICE".to_owned();
        Err(self.err(m))
    }

    /// The not-predicate over a single-character expectation:
    /// succeeds exactly when the expectation does not accept the
    /// code point under the cursor (or the input is exhausted), and
    /// never moves the cursor.  A rejected code point still pushes
    /// the farthest failure position past itself.
    pub fn not(&mut self, func: Matcher) -> (r: Result<(), Error>)
        requires
            old(self).wf(),
        ensures
            final(self).wf(),
            final(self).cursor == old(self).cursor,
            final(self).source == old(self).source,
            if old(self).cursor < old(self).source@.len() && matcher_hits(
                func,
                old(self).source@[old(self).cursor as int],
            ) {
                (r matches Err(e) && is_backtrack(e, final(self).ffp)) && final(self).ffp == if old(
                    self,
                ).cursor + 1 > old(self).ffp {
                    (old(self).cursor + 1) as usize
                } else {
                    old(self).ffp
                }
            } else {
                r is Ok && final(self).ffp == old(self).ffp
            },
    {
        let cursor = self.cursor;
        let mut hit = false;
        if !self.eof() {
            let c = self.source[self.cursor];
            if Self::matcher_check(&func, c) {
                self.next();
                hit = true;
            }
        }
        self.cursor = cursor;
        if hit {
            let m = "NOT".to_owned();
            return Err(self.err(m));
        }
        Ok(())
    }

    /// Consumes the longest run of code points that the expectations
    /// accept, and returns them in order.  Never fails.
    pub fn zero_or_more(&mut self, funcs: Vec<Matcher>) -> (r: Result<Vec<char>, Error>)
        requires
            old(self).wf(),
        ensures
            final(self).wf(),
            ({
                let k = run_len(old(self).source@, old(self).cursor as int, funcs@);
                &&& r matches Ok(v) && v@ == old(self).source@.subrange(
                    old(self).cursor as int,
                    old(self).cursor + k,
                )
                &&& final(self).cursor == old(self).cursor + k
                &&& final(self).source == old(self).source
                &&& final(self).ffp == if old(self).cursor + k > old(self).ffp {
                    (old(self).cursor + k) as usize
                } else {
                    old(self).ffp
                }
            }),
    {
        let mut out: Vec<char> = Vec::new();
        loop
            invariant
                self.wf(),
                self.source == old(self).source,
                self.cursor == old(self).cursor + out@.len(),
                out@ == old(self).source@.subrange(old(self).cursor as int, self.cursor as int),
                self.ffp == if self.cursor > old(self).ffp {
                    self.cursor
                } else {
                    old(self).ffp
                },
                run_len(old(self).source@, old(self).cursor as int, funcs@) == out@.len()
                    + run_len(self.source@, self.cursor as int, funcs@),
            decreases self.source@.len() - self.cursor,
        {
            if self.eof() {
                break ;
            }
            let c = self.source[self.cursor];
            let mut hit = false;
            let mut i: usize = 0;
            while i < funcs.len()
                invariant
                    i <= funcs@.len(),
                    hit ==> any_hits(funcs@, c),
                    !hit ==> forall|k: int| 0 <= k < i ==> !matcher_hits(funcs@[k], c),
                decreases funcs@.len() - i,
            {
                if Self::matcher_check(&funcs[i], c) {
                    hit = true;
                    break ;
                }
                i += 1;
            }
            if !hit {
                break ;
            }
            self.next();
            out.push(c);
            proof {
                assert(out@ =~= old(self).source@.subrange(
                    old(self).cursor as int,
                    self.cursor as int,
                ));
            }
        }
        proof {
            assert(out@ =~= old(self).source@.subrange(
                old(self).cursor as int,
                old(self).cursor + out@.len(),
            ));
        }
        Ok(out)
    }

    /// Consumes a run of at least one code point that the
    /// expectations accept; with no accepted code point under the
    /// cursor it leaves the parser unchanged and reports a
    /// backtracking error.
    pub fn one_or_more(&mut self, funcs: Vec<Matcher>) -> (r: Result<Vec<char>, Error>)
        requires
            old(self).wf(),
        ensures
            final(self).wf(),
            if old(self).cursor < old(self).source@.len() && any_hits(
                funcs@,
                old(self).source@[old(self).cursor as int],
            ) {
                ({
                    let k = run_len(old(self).source@, old(self).cursor as int, funcs@);
                    &&& k >= 1
                    &&& r matches Ok(v) && v@ == old(self).source@.subrange(
                        old(self).cursor as int,
                        old(self).cursor + k,
                    )
                    &&& final(self).cursor == old(self).cursor + k
                    &&& final(self).source == old(self).source
                    &&& final(self).ffp == if old(self).cursor + k > old(self).ffp {
                        (old(self).cursor + k) as usize
                    } else {
                        old(self).ffp
                    }
                })
            } else {
                (r matches Err(e) && is_backtrack(e, old(self).ffp)) && *final(self) == *old(self)
            },
    {
        if !self.eof() {
            let c = self.source[self.cursor];
            let mut i: usize = 0;
            while i < funcs.len()
                invariant
                    i <= funcs@.len(),
                    forall|k: int| 0 <= k < i ==> !matcher_hits(funcs@[k], c),
                    *self == *old(self),
                decreases funcs@.len() - i,
            {
                if Self::matcher_check(&funcs[i], c) {
                    proof {
                        assert(matcher_hits(funcs@[i as int], c));
                        assert(any_hits(funcs@, c));
                        lemma_run_len_bounds(self.source@, self.cursor as int, funcs@);
                        assert(run_len(self.source@, self.cursor as int, funcs@) == 1 + run_len(
                            self.source@,
                            self.cursor + 1,
                            funcs@,
                        ));
                        lemma_run_len_bounds(self.source@, self.cursor + 1, funcs@);
                    }
                    return self.zero_or_more(funcs);
                }
                i += 1;
            }
        }
        let m = "CHOICE".to_owned();
        Err(self.err(m))
    }
}

/// The replacement for an escape sequence, when the character after
/// the backslash is one of the recognized escape characters.
pub open spec fn escape_map(c: char) -> Option<char> {
    match c {
        'n' => Some('\n'),
        'r' => Some('\r'),
        't' => Some('\t'),
        '\'' => Some('\''),
        '"' => Some('"'),
        ']' => Some(']'),
        '[' => Some('['),
        '\\' => Some('\\'),
        _ => None,
    }
}

/// The expectations that start an identifier: a letter or an
/// underscore.
pub open spec fn ident_start_ms() -> Seq<Matcher> {
    seq![
        Matcher::ExpectRange('a', 'z'),
        Matcher::ExpectRange('A', 'Z'),
        Matcher::Expect('_'),
    ]
}

/// The expectations that continue an identifier: a letter, a digit
/// or an underscore.
pub open spec fn ident_cont_ms() -> Seq<Matcher> {
    seq![
        Matcher::ExpectRange('a', 'z'),
        Matcher::ExpectRange('A', 'Z'),
        Matcher::ExpectRange('0', '9'),
        Matcher::Expect('_'),
    ]
}

/// The precedence level a superscript digit stands for, if the code
/// point is one of the superscript digits one through nine.
pub open spec fn superscript_value(c: char) -> Option<usize> {
    match c {
        '\u{b9}' => Some(1usize),
        '\u{b2}' => Some(2usize),
        '\u{b3}' => Some(3usize),
        '\u{2074}' => Some(4usize),
        '\u{2075}' => Some(5usize),
        '\u{2076}' => Some(6usize),
        '\u{2077}' => Some(7usize),
        '\u{2078}' => Some(8usize),
        '\u{2079}' => Some(9usize),
        _ => None,
    }
}

impl Parser {
    /// The end-of-file rule: succeeds exactly at the end of the
    /// input, and never moves the cursor.
    pub fn parse_eof(&mut self) -> (r: Result<(), Error>)
        requires
            old(self).wf(),
        ensures
            *final(self) == *old(self),
            if old(self).cursor == old(self).source@.len() {
                r is Ok
            } else {
                r matches Err(e) && is_backtrack(e, old(self).ffp)
            },
    {
        if self.eof() {
            return Ok(());
        }
        let m = "NOT".to_owned();
        Err(self.err(m))
    }

    /// An end of line: a carriage-return/line-feed pair, or either
    /// alone.
    pub fn parse_eol(&mut self) -> (r: Result<(), Error>)
        requires
            old(self).wf(),
        ensures
            final(self).wf(),
            ({
                let src = old(self).source@;
                let c0 = old(self).cursor as int;
                if c0 < src.len() && src[c0] == '\r' && c0 + 1 < src.len() && src[c0 + 1] == '\n' {
                    (r is Ok && final(self).cursor == c0 + 2) && final(self).source == old(
                        self,
                    ).source && final(self).ffp == if c0 + 2 > old(self).ffp {
                        (c0 + 2) as usize
                    } else {
                        old(self).ffp
                    }
                } else if c0 < src.len() && (src[c0] == '\r' || src[c0] == '\n') {
                    r is Ok && took_one(*old(self), *final(self))
                } else {
                    (r matches Err(e) && is_backtrack(e, old(self).ffp)) && *final(self) == *old(
                        self,
                    )
                }
            }),
    {
        let c = match self.current() {
            Ok(c) => c,
            Err(e) => {
                return Err(e);
            },
        };
        if c == '\r' {
            self.next();
            match self.current() {
                Ok(c2) => {
                    if c2 == '\n' {
                        self.next();
                    }
                },
                Err(_) => {},
            }
            return Ok(());
        }
        if c == '\n' {
            self.next();
            return Ok(());
        }
        let m = "CHOICE".to_owned();
        Err(self.err(m))
    }

    /// A space: a blank, a tab, or an end of line.
    pub fn parse_space(&mut self) -> (r: Result<(), Error>)
        requires
            old(self).wf(),
        ensures
            final(self).wf(),
            progressed(*old(self), *final(self)),
            r is Ok ==> final(self).cursor > old(self).cursor,
            r is Err ==> *final(self) == *old(self),
            ({
                let src = old(self).source@;
                let c0 = old(self).cursor as int;
                (c0 < src.len() && (src[c0] == ' ' || src[c0] == '\t' || src[c0] == '\r'
                    || src[c0] == '\n')) == (r is Ok)
            }),
    {
        let c = match self.current() {
            Ok(c) => c,
            Err(e) => {
                return Err(e);
            },
        };
        if c == ' ' || c == '\t' {
            self.next();
            return Ok(());
        }
        self.parse_eol()
    }

    /// A comment: a hash sign, anything up to an end of line, and
    /// the end of line itself.  A comment that the input ends inside
    /// is not accepted.
    pub fn parse_comment(&mut self) -> (r: Result<(), Error>)
        requires
            old(self).wf(),
        ensures
            final(self).wf(),
            progressed(*old(self), *final(self)),
            r is Ok ==> final(self).cursor > old(self).cursor,
            ({
                let src = old(self).source@;
                let c0 = old(self).cursor as int;
                !(c0 < src.len() && src[c0] == '#') ==> (r is Err && *final(self) == *old(self))
            }),
    {
        match self.expect('#') {
            Ok(_) => {},
            Err(e) => {
                return Err(e);
            },
        }
        loop
            invariant
                self.wf(),
                self.source == old(self).source,
                old(self).cursor < self.cursor,
                old(self).ffp <= self.ffp,
            decreases self.source@.len() - self.cursor,
        {
            let c = match self.current() {
                Ok(c) => c,
                Err(_) => {
                    break ;
                },
            };
            if c == '\r' || c == '\n' {
                break ;
            }
            self.next();
        }
        self.parse_eol()
    }

    /// Spacing: any run of spaces and complete comments.
    pub fn parse_spacing(&mut self) -> (r: Result<(), Error>)
        requires
            old(self).wf(),
        ensures
            final(self).wf(),
            progressed(*old(self), *final(self)),
            r is Ok,
    {
        loop
            invariant
                self.wf(),
                self.source == old(self).source,
                old(self).cursor <= self.cursor,
                old(self).ffp <= self.ffp,
            decreases self.source@.len() - self.cursor,
        {
            let c = match self.current() {
                Ok(c) => c,
                Err(_) => {
                    break ;
                },
            };
            if c == ' ' || c == '\t' || c == '\r' || c == '\n' {
                match self.parse_space() {
                    Ok(_) => {},
                    Err(_) => {
                        break ;
                    },
                }
            } else if c == '#' {
                let saved = self.cursor;
                match self.parse_comment() {
                    Ok(_) => {},
                    Err(_) => {
                        self.cursor = saved;
                        break ;
                    },
                }
            } else {
                break ;
            }
        }
        Ok(())
    }

    /// An escaped character: a backslash followed by one of the
    /// recognized escape characters, standing for the mapped code
    /// point.
    pub fn parse_char_escaped(&mut self) -> (r: Result<char, Error>)
        requires
            old(self).wf(),
        ensures
            final(self).wf(),
            progressed(*old(self), *final(self)),
            ({
                let src = old(self).source@;
                let c0 = old(self).cursor as int;
                if c0 < src.len() && src[c0] == '\\' {
                    if c0 + 1 < src.len() && escape_map(src[c0 + 1]) is Some {
                        (r matches Ok(c) && escape_map(src[c0 + 1]) == Some(c))
                            && final(self).cursor == c0 + 2
                    } else {
                        r is Err && final(self).cursor == c0 + 1
                    }
                } else {
                    r is Err && final(self).cursor == c0
                }
            }),
    {
        match self.expect('\\') {
            Ok(_) => {},
            Err(e) => {
                return Err(e);
            },
        }
        let c = match self.current() {
            Ok(c) => c,
            Err(e) => {
                return Err(e);
            },
        };
        let mapped: Option<char> = match c {
            'n' => Some('\n'),
            'r' => Some('\r'),
            't' => Some('\t'),
            '\'' => Some('\''),
            '"' => Some('"'),
            ']' => Some(']'),
            '[' => Some('['),
            '\\' => Some('\\'),
            _ => None,
        };
        match mapped {
            Some(m) => {
                self.next();
                Ok(m)
            },
            None => {
                let m = "CHOICE".to_owned();
                Err(self.err(m))
            },
        }
    }

    /// A plain character: any code point but a backslash.
    pub fn parse_char_non_escaped(&mut self) -> (r: Result<char, Error>)
        requires
            old(self).wf(),
        ensures
            final(self).wf(),
            progressed(*old(self), *final(self)),
            final(self).cursor == old(self).cursor || final(self).cursor == old(self).cursor + 1,
            ({
                let src = old(self).source@;
                let c0 = old(self).cursor as int;
                if c0 < src.len() && src[c0] != '\\' {
                    (r matches Ok(c) && c == src[c0]) && final(self).cursor == c0 + 1
                } else {
                    r is Err && final(self).cursor == c0
                }
            }),
    {
        match self.not(Matcher::Expect('\\')) {
            Ok(_) => {},
            Err(e) => {
                return Err(e);
            },
        }
        self.any()
    }

    /// One character of a literal or class: an escape sequence, or
    /// any plain code point.
    pub fn parse_char(&mut self) -> (r: Result<char, Error>)
        requires
            old(self).wf(),
        ensures
            final(self).wf(),
            progressed(*old(self), *final(self)),
            r is Err ==> final(self).cursor == old(self).cursor,
            ({
                let src = old(self).source@;
                let c0 = old(self).cursor as int;
                if c0 < src.len() && src[c0] == '\\' {
                    if c0 + 1 < src.len() && escape_map(src[c0 + 1]) is Some {
                        (r matches Ok(c) && escape_map(src[c0 + 1]) == Some(c))
                            && final(self).cursor == c0 + 2
                    } else {
                        r is Err
                    }
                } else if c0 < src.len() {
                    (r matches Ok(c) && c == src[c0]) && final(self).cursor == c0 + 1
                } else {
                    r is Err
                }
            }),
    {
        let saved = self.cursor;
        match self.parse_char_escaped() {
            Ok(c) => {
                return Ok(c);
            },
            Err(_) => {
                self.cursor = saved;
            },
        }
        self.parse_char_non_escaped()
    }

    /// A dot: consumes `.` and any spacing after it.
    pub fn parse_dot(&mut self) -> (r: Result<char, Error>)
        requires
            old(self).wf(),
        ensures
            final(self).wf(),
            progressed(*old(self), *final(self)),
            r is Err ==> *final(self) == *old(self),
            ({
                let src = old(self).source@;
                let c0 = old(self).cursor as int;
                if c0 < src.len() && src[c0] == '.' {
                    (r matches Ok(c) && c == '.') && final(self).cursor > c0
                } else {
                    r is Err
                }
            }),
    {
        let r = match self.expect('.') {
            Ok(c) => c,
            Err(e) => {
                return Err(e);
            },
        };
        match self.parse_spacing() {
            Ok(_) => {},
            Err(e) => {
                return Err(e);
            },
        }
        Ok(r)
    }

    /// An identifier: a letter or underscore followed by letters,
    /// digits and underscores, with any spacing after it.  Returns
    /// exactly the identifier's code points.
    pub fn parse_identifier(&mut self) -> (r: Result<String, Error>)
        requires
            old(self).wf(),
        ensures
            final(self).wf(),
            progressed(*old(self), *final(self)),
            r is Ok ==> final(self).cursor > old(self).cursor,
            r is Err ==> *final(self) == *old(self),
            ({
                let src = old(self).source@;
                let c0 = old(self).cursor as int;
                if c0 < src.len() && any_hits(ident_start_ms(), src[c0]) {
                    let k = 1 + run_len(src, c0 + 1, ident_cont_ms());
                    r matches Ok(s) && s@ == src.subrange(c0, c0 + k)
                } else {
                    r is Err
                }
            }),
    {
        let start_ms: Vec<Matcher> = vec![
            Matcher::ExpectRange('a', 'z'),
            Matcher::ExpectRange('A', 'Z'),
            Matcher::Expect('_'),
        ];
        proof {
            assert(start_ms@ =~= ident_start_ms());
        }
        let first = match self.choice(start_ms) {
            Ok(c) => c,
            Err(e) => {
                return Err(e);
            },
        };
        let cont_ms: Vec<Matcher> = vec![
            Matcher::ExpectRange('a', 'z'),
            Matcher::ExpectRange('A', 'Z'),
            Matcher::ExpectRange('0', '9'),
            Matcher::Expect('_'),
        ];
        proof {
            assert(cont_ms@ =~= ident_cont_ms());
        }
        let mut chars: Vec<char> = vec![first];
        let mut tail = match self.zero_or_more(cont_ms) {
            Ok(v) => v,
            Err(e) => {
                return Err(e);
            },
        };
        chars.append(&mut tail);
        let id = crate::text::string_from_chars(&chars);
        proof {
            let src = old(self).source@;
            let c0 = old(self).cursor as int;
            let k = 1 + run_len(src, c0 + 1, ident_cont_ms());
            lemma_run_len_bounds(src, c0 + 1, ident_cont_ms());
            assert(id@ =~= src.subrange(c0, c0 + k));
        }
        match self.parse_spacing() {
            Ok(_) => {},
            Err(e) => {
                return Err(e);
            },
        }
        Ok(id)
    }

    /// A label marker: a caret or its double-arrow form, followed by
    /// the label's identifier.
    pub fn parse_label(&mut self) -> (r: Result<String, Error>)
        requires
            old(self).wf(),
        ensures
            final(self).wf(),
            progressed(*old(self), *final(self)),
            r is Ok ==> final(self).cursor > old(self).cursor,
            r is Err ==> final(self).cursor == old(self).cursor,
    {
        let saved = self.cursor;
        let marks: Vec<Matcher> = vec![Matcher::Expect('^'), Matcher::Expect('\u{21d1}')];
        match self.choice(marks) {
            Ok(_) => {},
            Err(e) => {
                return Err(e);
            },
        }
        match self.parse_identifier() {
            Ok(id) => Ok(id),
            Err(e) => {
                self.cursor = saved;
                Err(e)
            },
        }
    }

    /// A precedence superscript: one of the superscript digits one
    /// through nine, as a string.
    pub fn parse_superscript(&mut self) -> (r: Result<String, Error>)
        requires
            old(self).wf(),
        ensures
            final(self).wf(),
            progressed(*old(self), *final(self)),
            r is Ok ==> final(self).cursor == old(self).cursor + 1,
            r is Err ==> *final(self) == *old(self),
            ({
                let src = old(self).source@;
                let c0 = old(self).cursor as int;
                if c0 < src.len() && superscript_value(src[c0]) is Some {
                    r matches Ok(s) && s@ == seq![src[c0]]
                } else {
                    r is Err
                }
            }),
    {
        let c = match self.current() {
            Ok(c) => c,
            Err(e) => {
                return Err(e);
            },
        };
        match Self::superscript_check(c) {
            Some(_) => {
                self.next();
                Ok(crate::text::char_string(c))
            },
            None => {
                let m = "CHOICE".to_owned();
                Err(self.err(m))
            },
        }
    }

    /// The precedence level a superscript digit stands for.
    pub fn superscript_check(c: char) -> (r: Option<usize>)
        ensures
            r == superscript_value(c),
    {
        match c {
            '\u{b9}' => Some(1),
            '\u{b2}' => Some(2),
            '\u{b3}' => Some(3),
            '\u{2074}' => Some(4),
            '\u{2075}' => Some(5),
            '\u{2076}' => Some(6),
            '\u{2077}' => Some(7),
            '\u{2078}' => Some(8),
            '\u{2079}' => Some(9),
            _ => None,
        }
    }
}

/// The value of a decimal digit.
pub open spec fn digit_val(c: char) -> int {
    c as int - '0' as int
}

/// The value of a string of decimal digits.
pub open spec fn dec_val(s: Seq<char>) -> int
    decreases s.len(),
{
    if s.len() == 0 {
        0
    } else {
        dec_val(s.drop_last()) * 10 + digit_val(s.last())
    }
}

/// The value of a hexadecimal digit.
pub open spec fn hex_digit_val(c: char) -> int {
    if '0' <= c && c <= '9' {
        c as int - '0' as int
    } else if 'a' <= c && c <= 'f' {
        10 + c as int - 'a' as int
    } else {
        10 + c as int - 'A' as int
    }
}

/// The value of a string of hexadecimal digits.
pub open spec fn hex_val(s: Seq<char>) -> int
    decreases s.len(),
{
    if s.len() == 0 {
        0
    } else {
        hex_val(s.drop_last()) * 16 + hex_digit_val(s.last())
    }
}

/// Every code point of the string is a decimal digit.
pub open spec fn all_digits(s: Seq<char>) -> bool {
    forall|i: int| 0 <= i < s.len() ==> '0' <= #[trigger] s[i] && s[i] <= '9'
}

/// Every code point of the string is a hexadecimal digit.
pub open spec fn all_hex_digits(s: Seq<char>) -> bool {
    forall|i: int|
        0 <= i < s.len() ==> ('0' <= #[trigger] s[i] && s[i] <= '9') || ('a' <= s[i] && s[i]
            <= 'f') || ('A' <= s[i] && s[i] <= 'F')
}

/// The expectation for a decimal digit.
pub open spec fn digits_ms() -> Seq<Matcher> {
    seq![Matcher::ExpectRange('0', '9')]
}

/// The expectations for a hexadecimal digit.
pub open spec fn hex_digits_ms() -> Seq<Matcher> {
    seq![
        Matcher::ExpectRange('0', '9'),
        Matcher::ExpectRange('a', 'f'),
        Matcher::ExpectRange('A', 'F'),
    ]
}

proof fn lemma_dec_val_extend(s: Seq<char>, j: int)
    requires
        0 <= j < s.len(),
    ensures
        dec_val(s.subrange(0, j + 1)) == dec_val(s.subrange(0, j)) * 10 + digit_val(s[j]),
{
    assert(s.subrange(0, j + 1).drop_last() =~= s.subrange(0, j));
    assert(s.subrange(0, j + 1).last() == s[j]);
}

proof fn lemma_hex_val_extend(s: Seq<char>, j: int)
    requires
        0 <= j < s.len(),
    ensures
        hex_val(s.subrange(0, j + 1)) == hex_val(s.subrange(0, j)) * 16 + hex_digit_val(s[j]),
{
    assert(s.subrange(0, j + 1).drop_last() =~= s.subrange(0, j));
    assert(s.subrange(0, j + 1).last() == s[j]);
}

proof fn lemma_dec_val_nonneg(s: Seq<char>)
    requires
        all_digits(s),
    ensures
        dec_val(s) >= 0,
    decreases s.len(),
{
    if s.len() > 0 {
        assert(all_digits(s.drop_last())) by {
            assert(forall|i: int| 0 <= i < s.len() - 1 ==> s.drop_last()[i] == s[i]);
        }
        lemma_dec_val_nonneg(s.drop_last());
        assert(dec_val(s.drop_last()) * 10 >= 0) by (nonlinear_arith)
            requires
                dec_val(s.drop_last()) >= 0,
        ;
    }
}

proof fn lemma_hex_val_nonneg(s: Seq<char>)
    requires
        all_hex_digits(s),
    ensures
        hex_val(s) >= 0,
    decreases s.len(),
{
    if s.len() > 0 {
        assert(all_hex_digits(s.drop_last())) by {
            assert(forall|i: int| 0 <= i < s.len() - 1 ==> s.drop_last()[i] == s[i]);
        }
        lemma_hex_val_nonneg(s.drop_last());
        assert(hex_val(s.drop_last()) * 16 >= 0) by (nonlinear_arith)
            requires
                hex_val(s.drop_last()) >= 0,
        ;
    }
}

proof fn lemma_dec_val_prefix_le(s: Seq<char>, j: int)
    requires
        all_digits(s),
        0 <= j <= s.len(),
    ensures
        dec_val(s.subrange(0, j)) <= dec_val(s),
    decreases s.len() - j,
{
    if j < s.len() {
        lemma_dec_val_extend(s, j);
        assert(all_digits(s.subrange(0, j)));
        lemma_dec_val_nonneg(s.subrange(0, j));
        assert(dec_val(s.subrange(0, j)) * 10 >= dec_val(s.subrange(0, j))) by (nonlinear_arith)
            requires
                dec_val(s.subrange(0, j)) >= 0,
        ;
        assert(digit_val(s[j]) >= 0);
        lemma_dec_val_prefix_le(s, j + 1);
    } else {
        assert(s.subrange(0, j) =~= s);
    }
}

proof fn lemma_hex_val_prefix_le(s: Seq<char>, j: int)
    requires
        all_hex_digits(s),
        0 <= j <= s.len(),
    ensures
        hex_val(s.subrange(0, j)) <= hex_val(s),
    decreases s.len() - j,
{
    if j < s.len() {
        lemma_hex_val_extend(s, j);
        assert(all_hex_digits(s.subrange(0, j)));
        lemma_hex_val_nonneg(s.subrange(0, j));
        assert(hex_val(s.subrange(0, j)) * 16 >= hex_val(s.subrange(0, j))) by (nonlinear_arith)
            requires
                hex_val(s.subrange(0, j)) >= 0,
        ;
        assert(hex_digit_val(s[j]) >= 0);
        lemma_hex_val_prefix_le(s, j + 1);
    } else {
        assert(s.subrange(0, j) =~= s);
    }
}

/// The value of a string of decimal digits as an `i64`; an error
/// exactly when the value does not fit.
pub fn dec_to_i64(digits: &Vec<char>) -> (r: Result<i64, Error>)
    requires
        all_digits(digits@),
    ensures
        if dec_val(digits@) <= i64::MAX {
            r matches Ok(n) && n == dec_val(digits@)
        } else {
            r matches Err(e) && e is ParseIntError
        },
{
    let mut acc: i64 = 0;
    let mut j: usize = 0;
    proof {
        assert(digits@.subrange(0, 0) =~= Seq::<char>::empty());
    }
    while j < digits.len()
        invariant
            j <= digits@.len(),
            0 <= acc,
            acc == dec_val(digits@.subrange(0, j as int)),
        decreases digits@.len() - j,
    {
        let c = digits[j];
        let d = (c as u32 - '0' as u32) as i64;
        proof {
            assert('0' <= digits@[j as int] && digits@[j as int] <= '9');
            assert(d == digit_val(digits@[j as int]));
            lemma_dec_val_extend(digits@, j as int);
        }
        if acc > 922337203685477580i64 || (acc == 922337203685477580i64 && d > 7) {
            proof {
                assert(acc * 10 + d > i64::MAX) by (nonlinear_arith)
                    requires
                        0 <= d <= 9,
                        acc > 922337203685477580i64 || (acc == 922337203685477580i64 && d > 7),
                ;
                lemma_dec_val_prefix_le(digits@, j + 1);
            }
            return Err(Error::ParseIntError("number too large to fit in target type".to_owned()));
        }
        proof {
            assert(acc * 10 + d <= i64::MAX) by (nonlinear_arith)
                requires
                    0 <= d <= 9,
                    0 <= acc,
                    !(acc > 922337203685477580i64 || (acc == 922337203685477580i64 && d > 7)),
            ;
        }
        acc = acc * 10 + d;
        j += 1;
    }
    proof {
        assert(digits@.subrange(0, digits@.len() as int) =~= digits@);
    }
    Ok(acc)
}

/// The value of a string of hexadecimal digits as an `i64`; an error
/// exactly when the value does not fit.
pub fn hex_to_i64(digits: &Vec<char>) -> (r: Result<i64, Error>)
    requires
        all_hex_digits(digits@),
    ensures
        if hex_val(digits@) <= i64::MAX {
            r matches Ok(n) && n == hex_val(digits@)
        } else {
            r matches Err(e) && e is ParseIntError
        },
{
    let mut acc: i64 = 0;
    let mut j: usize = 0;
    proof {
        assert(digits@.subrange(0, 0) =~= Seq::<char>::empty());
    }
    while j < digits.len()
        invariant
            j <= digits@.len(),
            0 <= acc,
            acc == hex_val(digits@.subrange(0, j as int)),
        decreases digits@.len() - j,
    {
        let c = digits[j];
        let d: i64 = if c <= '9' {
            (c as u32 - '0' as u32) as i64
        } else if c >= 'a' {
            (c as u32 - 'a' as u32) as i64 + 10
        } else {
            (c as u32 - 'A' as u32) as i64 + 10
        };
        proof {
            assert(d == hex_digit_val(digits@[j as int]));
            lemma_hex_val_extend(digits@, j as int);
        }
        if acc > 576460752303423487i64 {
            proof {
                assert(acc * 16 + d > i64::MAX) by (nonlinear_arith)
                    requires
                        0 <= d <= 15,
                        acc > 576460752303423487i64,
                ;
                lemma_hex_val_prefix_le(digits@, j + 1);
            }
            return Err(Error::ParseIntError("number too large to fit in target type".to_owned()));
        }
        proof {
            assert(acc * 16 + d <= i64::MAX) by (nonlinear_arith)
                requires
                    0 <= d <= 15,
                    0 <= acc <= 576460752303423487i64,
            ;
        }
        acc = acc * 16 + d;
        j += 1;
    }
    proof {
        assert(digits@.subrange(0, digits@.len() as int) =~= digits@);
    }
    Ok(acc)
}

impl Parser {
    /// A decimal number: a nonzero digit followed by any digits, or
    /// a single zero, with spacing after it.  The value is exactly
    /// the digits' value; a value that does not fit an `i64` is a
    /// numeric-range error.
    pub fn parse_decimal_number(&mut self) -> (r: Result<i64, Error>)
        requires
            old(self).wf(),
        ensures
            final(self).wf(),
            progressed(*old(self), *final(self)),
            r is Ok ==> final(self).cursor > old(self).cursor,
            ({
                let src = old(self).source@;
                let c0 = old(self).cursor as int;
                if c0 < src.len() && '1' <= src[c0] && src[c0] <= '9' {
                    let ds = src.subrange(c0, c0 + run_len(src, c0, digits_ms()));
                    if dec_val(ds) <= i64::MAX {
                        r matches Ok(n) && n == dec_val(ds)
                    } else {
                        r matches Err(e) && e is ParseIntError
                    }
                } else if c0 < src.len() && src[c0] == '0' {
                    r matches Ok(n) && n == 0
                } else {
                    r is Err && *final(self) == *old(self)
                }
            }),
    {
        let c = match self.current() {
            Ok(c) => c,
            Err(e) => {
                return Err(e);
            },
        };
        let ghost src = self.source@;
        let ghost c0 = self.cursor as int;
        let digits: Vec<char>;
        if '1' <= c && c <= '9' {
            let ms: Vec<Matcher> = vec![Matcher::ExpectRange('0', '9')];
            proof {
                assert(ms@ =~= digits_ms());
                assert(matcher_hits(digits_ms()[0], src[c0]));
            }
            digits = match self.one_or_more(ms) {
                Ok(v) => v,
                Err(e) => {
                    proof {
                        assert(false);
                    }
                    return Err(e);
                },
            };
            proof {
                lemma_run_len_bounds(src, c0, digits_ms());
            }
        } else if c == '0' {
            self.next();
            digits = vec!['0'];
            proof {
                assert(digits@.drop_last() =~= Seq::<char>::empty());
                assert(digits@.last() == '0');
                assert(digit_val('0') == 0);
                assert(dec_val(digits@.drop_last()) == 0);
                assert(dec_val(digits@) == 0);
            }
        } else {
            let m = "CHOICE".to_owned();
            return Err(self.err(m));
        }
        match self.parse_spacing() {
            Ok(_) => {},
            Err(e) => {
                return Err(e);
            },
        }
        dec_to_i64(&digits)
    }

    /// A hexadecimal number: `0x` followed by hexadecimal digits,
    /// with spacing after it.  The value is exactly the digits'
    /// value; one that does not fit an `i64` is a numeric-range
    /// error.
    pub fn parse_hexadecimal_number(&mut self) -> (r: Result<i64, Error>)
        requires
            old(self).wf(),
        ensures
            final(self).wf(),
            progressed(*old(self), *final(self)),
            r is Ok ==> final(self).cursor > old(self).cursor,
            (r matches Err(e) && e is BacktrackError) ==> final(self).cursor <= old(self).cursor
                + 2,
            ({
                let src = old(self).source@;
                let c0 = old(self).cursor as int;
                if c0 + 2 < src.len() && src[c0] == '0' && src[c0 + 1] == 'x' && any_hits(
                    hex_digits_ms(),
                    src[c0 + 2],
                ) {
                    let ds = src.subrange(c0 + 2, c0 + 2 + run_len(src, c0 + 2, hex_digits_ms()));
                    if hex_val(ds) <= i64::MAX {
                        r matches Ok(n) && n == hex_val(ds)
                    } else {
                        r matches Err(e) && e is ParseIntError
                    }
                } else {
                    r matches Err(e) && e matches Error::BacktrackError(p, m)
                }
            }),
    {
        proof {
            reveal_strlit("0x");
        }
        match self.expect_str("0x") {
            Ok(_) => {
                proof {
                    let src = old(self).source@;
                    let c0 = old(self).cursor as int;
                    assert("0x"@ =~= seq!['0', 'x']);
                    assert("0x"@.drop_first() =~= seq!['x']);
                    assert(seq!['x'].drop_first() =~= Seq::<char>::empty());
                    if c0 + 1 < src.len() && src[c0] == '0' && src[c0 + 1] == 'x' {
                        assert(match_len(src, c0 + 2, Seq::<char>::empty()) == 0);
                        assert(match_len(src, c0 + 1, seq!['x']) == 1);
                        assert(match_len(src, c0, seq!['0', 'x']) == 2);
                        assert(match_len(src, c0, "0x"@) == 2);
                    }
                }
            },
            Err(e) => {
                proof {
                    let src = old(self).source@;
                    let c0 = old(self).cursor as int;
                    assert("0x"@ =~= seq!['0', 'x']);
                    assert("0x"@.drop_first() =~= seq!['x']);
                    assert(seq!['x'].drop_first() =~= Seq::<char>::empty());
                    if c0 + 1 < src.len() && src[c0] == '0' && src[c0 + 1] == 'x' {
                        assert(match_len(src, c0 + 2, Seq::<char>::empty()) == 0);
                        assert(match_len(src, c0 + 1, seq!['x']) == 1);
                        assert(match_len(src, c0, seq!['0', 'x']) == 2);
                        assert(match_len(src, c0, "0x"@) == 2);
                    }
                }
                return Err(e);
            },
        };
        let ghost src = self.source@;
        let ghost c2 = self.cursor as int;
        let ms: Vec<Matcher> = vec![
            Matcher::ExpectRange('0', '9'),
            Matcher::ExpectRange('a', 'f'),
            Matcher::ExpectRange('A', 'F'),
        ];
        proof {
            assert(ms@ =~= hex_digits_ms());
        }
        let digits = match self.one_or_more(ms) {
            Ok(v) => v,
            Err(e) => {
                return Err(e);
            },
        };
        proof {
            lemma_run_len_bounds(src, c2, hex_digits_ms());
        }
        match self.parse_spacing() {
            Ok(_) => {},
            Err(e) => {
                return Err(e);
            },
        }
        proof {
            let c0 = old(self).cursor as int;
            assert(c2 == c0 + 2);
            assert(digits@ == src.subrange(c0 + 2, c0 + 2 + run_len(src, c0 + 2, hex_digits_ms())));
            assert(src == old(self).source@);
            assert("0x"@ =~= seq!['0', 'x']);
            lemma_match_two(src, c0, '0', 'x');
            assert(src[c0] == '0' && src[c0 + 1] == 'x');
            assert(c0 + 2 < src.len());
            assert(any_hits(hex_digits_ms(), src[c0 + 2]));
            assert(all_hex_digits(digits@));
        }
        hex_to_i64(&digits)
    }
}

impl Parser {
    /// A string literal in single or double quotes; the value is the
    /// literal's characters with escapes replaced.
    pub fn parse_literal_string(&mut self) -> (r: Result<String, Error>)
        requires
            old(self).wf(),
        ensures
            final(self).wf(),
            progressed(*old(self), *final(self)),
            r is Ok ==> final(self).cursor > old(self).cursor,
    {
        let saved = self.cursor;
        match self.parse_simple_quote() {
            Ok(s) => {
                return Ok(s);
            },
            Err(_) => {
                self.cursor = saved;
            },
        }
        match self.parse_double_quote() {
            Ok(s) => Ok(s),
            Err(e) => Err(e),
        }
    }

    /// A string literal in single quotes.
    pub fn parse_simple_quote(&mut self) -> (r: Result<String, Error>)
        requires
            old(self).wf(),
        ensures
            final(self).wf(),
            progressed(*old(self), *final(self)),
            r is Ok ==> final(self).cursor > old(self).cursor,
    {
        self.parse_quoted('\'')
    }

    /// A string literal in double quotes.
    pub fn parse_double_quote(&mut self) -> (r: Result<String, Error>)
        requires
            old(self).wf(),
        ensures
            final(self).wf(),
            progressed(*old(self), *final(self)),
            r is Ok ==> final(self).cursor > old(self).cursor,
    {
        self.parse_quoted('"')
    }

    /// A string literal between two occurrences of the quote
    /// character: any characters other than the quote, with escapes
    /// replaced.
    fn parse_quoted(&mut self, quote: char) -> (r: Result<String, Error>)
        requires
            old(self).wf(),
        ensures
            final(self).wf(),
            progressed(*old(self), *final(self)),
            r is Ok ==> final(self).cursor > old(self).cursor,
            r is Ok ==> old(self).cursor < old(self).source@.len() && old(self).source@[old(
                self,
            ).cursor as int] == quote,
    {
        match self.expect(quote) {
            Ok(_) => {},
            Err(e) => {
                return Err(e);
            },
        }
        let mut chars: Vec<char> = Vec::new();
        loop
            invariant
                self.wf(),
                self.source == old(self).source,
                old(self).cursor < self.cursor,
                old(self).ffp <= self.ffp,
            decreases self.source@.len() - self.cursor,
        {
            match self.current() {
                Ok(c) => {
                    if c == quote {
                        break ;
                    }
                },
                Err(_) => {
                    break ;
                },
            }
            match self.parse_char() {
                Ok(c) => {
                    chars.push(c);
                },
                Err(_) => {
                    break ;
                },
            }
        }
        match self.expect(quote) {
            Ok(_) => {},
            Err(e) => {
                return Err(e);
            },
        }
        match self.parse_spacing() {
            Ok(_) => {},
            Err(e) => {
                return Err(e);
            },
        }
        Ok(crate::text::string_from_chars(&chars))
    }

    /// A literal: a single character becomes a character node, a
    /// longer or empty literal a string node.
    pub fn parse_literal(&mut self) -> (r: Result<AST, Error>)
        requires
            old(self).wf(),
        ensures
            final(self).wf(),
            progressed(*old(self), *final(self)),
            r is Ok ==> final(self).cursor > old(self).cursor,
            r matches Ok(a) ==> (a is Char || a is String),
    {
        let litstr = match self.parse_literal_string() {
            Ok(s) => s,
            Err(e) => {
                return Err(e);
            },
        };
        if litstr.as_str().unicode_len() == 1 {
            Ok(AST::Char(litstr.as_str().get_char(0)))
        } else {
            Ok(AST::String(litstr))
        }
    }

    /// A range inside a class: two characters joined by a dash, or a
    /// single character.
    pub fn parse_range(&mut self) -> (r: Result<AST, Error>)
        requires
            old(self).wf(),
        ensures
            final(self).wf(),
            progressed(*old(self), *final(self)),
            r is Ok ==> final(self).cursor > old(self).cursor,
            r is Err ==> final(self).cursor == old(self).cursor,
            r matches Ok(a) ==> (a is Range || a is Char),
    {
        let saved = self.cursor;
        match self.parse_char() {
            Ok(left) => {
                match self.expect('-') {
                    Ok(_) => {
                        match self.parse_char() {
                            Ok(right) => {
                                return Ok(AST::Range(left, right));
                            },
                            Err(_) => {
                                self.cursor = saved;
                            },
                        }
                    },
                    Err(_) => {
                        self.cursor = saved;
                    },
                }
            },
            Err(_) => {
                self.cursor = saved;
            },
        }
        match self.parse_char() {
            Ok(c) => Ok(AST::Char(c)),
            Err(e) => {
                self.cursor = saved;
                Err(e)
            },
        }
    }

    /// A character class: ranges and characters between brackets,
    /// read as an ordered choice.
    pub fn parse_class(&mut self) -> (r: Result<Vec<AST>, Error>)
        requires
            old(self).wf(),
        ensures
            final(self).wf(),
            progressed(*old(self), *final(self)),
            r is Ok ==> final(self).cursor > old(self).cursor,
            r matches Ok(v) ==> forall|i: int|
                0 <= i < v@.len() ==> (#[trigger] v@[i] is Range || v@[i] is Char),
    {
        match self.expect('[') {
            Ok(_) => {},
            Err(e) => {
                return Err(e);
            },
        }
        let mut output: Vec<AST> = Vec::new();
        loop
            invariant
                self.wf(),
                self.source == old(self).source,
                old(self).cursor < self.cursor,
                old(self).ffp <= self.ffp,
                forall|i: int|
                    0 <= i < output@.len() ==> (#[trigger] output@[i] is Range || output@[i]
                        is Char),
            decreases self.source@.len() - self.cursor,
        {
            match self.current() {
                Ok(c) => {
                    if c == ']' {
                        break ;
                    }
                },
                Err(_) => {
                    break ;
                },
            }
            match self.parse_range() {
                Ok(a) => {
                    output.push(a);
                },
                Err(_) => {
                    break ;
                },
            }
        }
        match self.expect(']') {
            Ok(_) => {},
            Err(e) => {
                return Err(e);
            },
        }
        match self.parse_spacing() {
            Ok(_) => {},
            Err(e) => {
                return Err(e);
            },
        }
        Ok(output)
    }

    /// A number: a hexadecimal number, or a decimal number.
    pub fn parse_number(&mut self) -> (r: Result<SemValue, Error>)
        requires
            old(self).wf(),
        ensures
            final(self).wf(),
            progressed(*old(self), *final(self)),
            r is Ok ==> final(self).cursor > old(self).cursor,
            r is Err ==> final(self).cursor == old(self).cursor,
            ({
                let src = old(self).source@;
                let c0 = old(self).cursor as int;
                let hex_form = c0 + 2 < src.len() && src[c0] == '0' && src[c0 + 1] == 'x'
                    && any_hits(hex_digits_ms(), src[c0 + 2]);
                let hs = src.subrange(c0 + 2, c0 + 2 + run_len(src, c0 + 2, hex_digits_ms()));
                let ds = src.subrange(c0, c0 + run_len(src, c0, digits_ms()));
                if hex_form && hex_val(hs) <= i64::MAX {
                    r matches Ok(v) && v == SemValue::Number(hex_val(hs) as i64)
                } else if c0 < src.len() && '1' <= src[c0] && src[c0] <= '9' && dec_val(ds)
                    <= i64::MAX {
                    r matches Ok(v) && v == SemValue::Number(dec_val(ds) as i64)
                } else if c0 < src.len() && src[c0] == '0' {
                    r matches Ok(v) && v == SemValue::Number(0i64)
                } else {
                    r is Err
                }
            }),
    {
        let saved = self.cursor;
        match self.parse_hexadecimal_number() {
            Ok(n) => {
                return Ok(SemValue::Number(n));
            },
            Err(_) => {
                self.cursor = saved;
            },
        }
        match self.parse_decimal_number() {
            Ok(n) => Ok(SemValue::Number(n)),
            Err(_) => {
                self.cursor = saved;
                let m = "CHOICE".to_owned();
                Err(self.err(m))
            },
        }
    }

    /// A boolean literal: `true` or `false`, with spacing after it.
    pub fn parse_bool(&mut self) -> (r: Result<SemValue, Error>)
        requires
            old(self).wf(),
        ensures
            final(self).wf(),
            progressed(*old(self), *final(self)),
            r is Ok ==> final(self).cursor > old(self).cursor,
            r is Err ==> final(self).cursor == old(self).cursor,
            ({
                let src = old(self).source@;
                let c0 = old(self).cursor as int;
                if match_len(src, c0, "true"@) == 4 {
                    r matches Ok(v) && v == SemValue::Bool(true)
                } else if match_len(src, c0, "false"@) == 5 {
                    r matches Ok(v) && v == SemValue::Bool(false)
                } else {
                    r is Err
                }
            }),
    {
        proof {
            reveal_strlit("true");
            reveal_strlit("false");
        }
        let saved = self.cursor;
        match self.expect_str("true") {
            Ok(_) => {
                match self.parse_spacing() {
                    Ok(_) => {},
                    Err(e) => {
                        return Err(e);
                    },
                }
                return Ok(SemValue::Bool(true));
            },
            Err(_) => {
                self.cursor = saved;
            },
        }
        match self.expect_str("false") {
            Ok(_) => {
                match self.parse_spacing() {
                    Ok(_) => {},
                    Err(e) => {
                        return Err(e);
                    },
                }
                Ok(SemValue::Bool(false))
            },
            Err(_) => {
                self.cursor = saved;
                let m = "CHOICE".to_owned();
                Err(self.err(m))
            },
        }
    }
}

impl Parser {
    /// Whether the two code points stand at the cursor, without
    /// consuming anything.  A partial match still pushes the
    /// farthest failure position.
    fn lookahead_pair(&mut self, a: char, b: char) -> (r: bool)
        requires
            old(self).wf(),
        ensures
            final(self).wf(),
            final(self).cursor == old(self).cursor,
            final(self).source == old(self).source,
            old(self).ffp <= final(self).ffp,
    {
        let saved = self.cursor;
        let mut found = false;
        match self.expect(a) {
            Ok(_) => {
                match self.expect(b) {
                    Ok(_) => {
                        found = true;
                    },
                    Err(_) => {},
                }
            },
            Err(_) => {},
        }
        self.cursor = saved;
        found
    }

    /// Whether an identifier followed by an equals sign stands at
    /// the cursor, without consuming anything.
    fn lookahead_ident_eq(&mut self) -> (r: bool)
        requires
            old(self).wf(),
        ensures
            final(self).wf(),
            final(self).cursor == old(self).cursor,
            final(self).source == old(self).source,
            old(self).ffp <= final(self).ffp,
    {
        let saved = self.cursor;
        let mut found = false;
        match self.parse_identifier() {
            Ok(_) => {
                match self.expect('=') {
                    Ok(_) => {
                        found = true;
                    },
                    Err(_) => {},
                }
            },
            Err(_) => {},
        }
        self.cursor = saved;
        found
    }

    /// An expression: one or more sequences separated by slashes,
    /// read as an ordered choice.  Never fails.
    pub fn parse_expression(&mut self) -> (r: Result<AST, Error>)
        requires
            old(self).wf(),
        ensures
            final(self).wf(),
            progressed(*old(self), *final(self)),
            r is Ok,
            r matches Ok(a) ==> (a is Sequence || (a is Choice && a->Choice_0@.len() >= 2)),
        decreases self.source@.len() - self.cursor, 6int,
    {
        let first = match self.parse_sequence() {
            Ok(a) => a,
            Err(e) => {
                return Err(e);
            },
        };
        let mut choices: Vec<AST> = vec![first];
        loop
            invariant
                self.wf(),
                self.source == old(self).source,
                old(self).cursor <= self.cursor,
                old(self).ffp <= self.ffp,
                choices@.len() >= 1,
                choices@[0] is Sequence,
            decreases self.source@.len() - self.cursor,
        {
            match self.expect('/') {
                Ok(_) => {},
                Err(_) => {
                    break ;
                },
            }
            match self.parse_spacing() {
                Ok(_) => {},
                Err(_) => {
                    break ;
                },
            }
            match self.parse_sequence() {
                Ok(a) => {
                    choices.push(a);
                },
                Err(_) => {
                    break ;
                },
            }
        }
        if choices.len() == 1 {
            match choices.pop() {
                Some(a) => Ok(a),
                None => {
                    // cannot happen: the vector holds exactly one choice
                    proof {
                        assert(false);
                    }
                    Err(Error::ParseIntError(String::new()))
                },
            }
        } else {
            Ok(AST::Choice(choices))
        }
    }

    /// A sequence: as many prefixed items as stand here; an empty
    /// sequence holds the empty expression.  Never fails.
    pub fn parse_sequence(&mut self) -> (r: Result<AST, Error>)
        requires
            old(self).wf(),
        ensures
            final(self).wf(),
            progressed(*old(self), *final(self)),
            r is Ok,
            r matches Ok(a) ==> a is Sequence && a->Sequence_0@.len() >= 1,
        decreases self.source@.len() - self.cursor, 5int,
    {
        let mut seq: Vec<AST> = Vec::new();
        loop
            invariant
                self.wf(),
                self.source == old(self).source,
                old(self).cursor <= self.cursor,
                old(self).ffp <= self.ffp,
            decreases self.source@.len() - self.cursor,
        {
            match self.parse_prefix() {
                Ok(a) => {
                    seq.push(a);
                },
                Err(_) => {
                    break ;
                },
            }
        }
        if seq.len() == 0 {
            Ok(AST::Sequence(vec![AST::Empty]))
        } else {
            Ok(AST::Sequence(seq))
        }
    }

    /// A prefixed item: an optional and- or not-predicate marker
    /// before a labeled item.
    pub fn parse_prefix(&mut self) -> (r: Result<AST, Error>)
        requires
            old(self).wf(),
        ensures
            final(self).wf(),
            progressed(*old(self), *final(self)),
            r is Ok ==> final(self).cursor > old(self).cursor,
            ({
                let src = old(self).source@;
                let c0 = old(self).cursor as int;
                r matches Ok(a) ==> c0 < src.len() && if src[c0] == '&' {
                    a is And
                } else if src[c0] == '!' {
                    a is Not
                } else {
                    true
                }
            }),
        decreases self.source@.len() - self.cursor, 4int,
    {
        let c = match self.current() {
            Ok(c) => c,
            Err(e) => {
                return Err(e);
            },
        };
        if c == '&' {
            self.next();
            match self.parse_spacing() {
                Ok(_) => {},
                Err(e) => {
                    return Err(e);
                },
            }
            match self.parse_labeled() {
                Ok(a) => Ok(AST::And(Box::new(a))),
                Err(e) => Err(e),
            }
        } else if c == '!' {
            self.next();
            match self.parse_spacing() {
                Ok(_) => {},
                Err(e) => {
                    return Err(e);
                },
            }
            match self.parse_labeled() {
                Ok(a) => Ok(AST::Not(Box::new(a))),
                Err(e) => Err(e),
            }
        } else {
            self.parse_labeled()
        }
    }

    /// A labeled item: a suffixed item, optionally followed by a
    /// recovery label.
    pub fn parse_labeled(&mut self) -> (r: Result<AST, Error>)
        requires
            old(self).wf(),
        ensures
            final(self).wf(),
            progressed(*old(self), *final(self)),
            r is Ok ==> final(self).cursor > old(self).cursor,
            r is Err ==> final(self).cursor == old(self).cursor,
        decreases self.source@.len() - self.cursor, 3int,
    {
        let suffix = match self.parse_suffix() {
            Ok(a) => a,
            Err(e) => {
                return Err(e);
            },
        };
        match self.parse_label() {
            Ok(label) => Ok(AST::Label(label, Box::new(suffix))),
            Err(_) => Ok(suffix),
        }
    }

    /// A suffixed item: a primary item with an optional repetition
    /// marker or precedence superscript.
    pub fn parse_suffix(&mut self) -> (r: Result<AST, Error>)
        requires
            old(self).wf(),
        ensures
            final(self).wf(),
            progressed(*old(self), *final(self)),
            r is Ok ==> final(self).cursor > old(self).cursor,
            r is Err ==> final(self).cursor == old(self).cursor,
        decreases self.source@.len() - self.cursor, 2int,
    {
        let primary = match self.parse_primary() {
            Ok(a) => a,
            Err(e) => {
                return Err(e);
            },
        };
        let c = match self.current() {
            Ok(c) => c,
            Err(_) => {
                return Ok(primary);
            },
        };
        if c == '?' {
            self.next();
            match self.parse_spacing() {
                Ok(_) => {},
                Err(e) => {
                    return Err(e);
                },
            }
            Ok(AST::Optional(Box::new(primary)))
        } else if c == '*' {
            self.next();
            match self.parse_spacing() {
                Ok(_) => {},
                Err(e) => {
                    return Err(e);
                },
            }
            Ok(AST::ZeroOrMore(Box::new(primary)))
        } else if c == '+' {
            self.next();
            match self.parse_spacing() {
                Ok(_) => {},
                Err(e) => {
                    return Err(e);
                },
            }
            Ok(AST::OneOrMore(Box::new(primary)))
        } else {
            match Self::superscript_check(c) {
                Some(level) => {
                    self.next();
                    match self.parse_spacing() {
                        Ok(_) => {},
                        Err(e) => {
                            return Err(e);
                        },
                    }
                    Ok(AST::Precedence(Box::new(primary), level))
                },
                None => Ok(primary),
            }
        }
    }

    /// A primary item: a rule reference, a parenthesized expression,
    /// a node or list template, a literal, a class, or the any-dot.
    pub fn parse_primary(&mut self) -> (r: Result<AST, Error>)
        requires
            old(self).wf(),
        ensures
            final(self).wf(),
            progressed(*old(self), *final(self)),
            r is Ok ==> final(self).cursor > old(self).cursor,
            r is Err ==> final(self).cursor == old(self).cursor,
            ({
                let src = old(self).source@;
                let c0 = old(self).cursor as int;
                r matches Ok(a) ==> c0 < src.len() && if ('a' <= src[c0] && src[c0] <= 'z') || (
                    'A' <= src[c0] && src[c0] <= 'Z') || src[c0] == '_' {
                    a is Identifier
                } else if src[c0] == '{' {
                    a is Node || a is List
                } else if src[c0] == '\'' || src[c0] == '"' {
                    a is Char || a is String
                } else if src[c0] == '[' {
                    a is Choice
                } else if src[c0] == '.' {
                    a is Any
                } else {
                    src[c0] == '('
                }
            }),
        decreases self.source@.len() - self.cursor, 1int,
    {
        let saved = self.cursor;
        let c = match self.current() {
            Ok(c) => c,
            Err(e) => {
                return Err(e);
            },
        };
        if ('a' <= c && c <= 'z') || ('A' <= c && c <= 'Z') || c == '_' {
            let id = match self.parse_identifier() {
                Ok(id) => id,
                Err(e) => {
                    return Err(e);
                },
            };
            let defines = self.lookahead_pair('<', '-');
            let acts = self.lookahead_pair('-', '>');
            let labels = self.lookahead_ident_eq();
            if defines || acts || labels {
                self.cursor = saved;
                let m = "NOT".to_owned();
                return Err(self.err(m));
            }
            Ok(AST::Identifier(id))
        } else if c == '(' {
            self.next();
            match self.parse_spacing() {
                Ok(_) => {},
                Err(e) => {
                    return Err(e);
                },
            }
            let expr = match self.parse_expression() {
                Ok(a) => a,
                Err(e) => {
                    self.cursor = saved;
                    return Err(e);
                },
            };
            match self.expect(')') {
                Ok(_) => {},
                Err(e) => {
                    self.cursor = saved;
                    return Err(e);
                },
            }
            match self.parse_spacing() {
                Ok(_) => {},
                Err(e) => {
                    return Err(e);
                },
            }
            Ok(expr)
        } else if c == '{' {
            match self.parse_node() {
                Ok(a) => {
                    return Ok(a);
                },
                Err(_) => {
                    self.cursor = saved;
                },
            }
            match self.parse_list() {
                Ok(a) => Ok(a),
                Err(e) => {
                    self.cursor = saved;
                    Err(e)
                },
            }
        } else if c == '\'' || c == '"' {
            match self.parse_literal() {
                Ok(a) => Ok(a),
                Err(e) => {
                    self.cursor = saved;
                    Err(e)
                },
            }
        } else if c == '[' {
            match self.parse_class() {
                Ok(v) => Ok(AST::Choice(v)),
                Err(e) => {
                    self.cursor = saved;
                    Err(e)
                },
            }
        } else if c == '.' {
            match self.parse_dot() {
                Ok(_) => Ok(AST::Any),
                Err(e) => Err(e),
            }
        } else {
            let m = "CHOICE".to_owned();
            Err(self.err(m))
        }
    }

    /// A node template: a braced, named list of expressions, which
    /// matches a node with that name.
    pub fn parse_node(&mut self) -> (r: Result<AST, Error>)
        requires
            old(self).wf(),
        ensures
            final(self).wf(),
            progressed(*old(self), *final(self)),
            r is Ok ==> final(self).cursor > old(self).cursor,
            r matches Ok(a) ==> a is Node,
        decreases self.source@.len() - self.cursor, 0int,
    {
        match self.expect('{') {
            Ok(_) => {},
            Err(e) => {
                return Err(e);
            },
        }
        match self.parse_spacing() {
            Ok(_) => {},
            Err(e) => {
                return Err(e);
            },
        }
        let name = match self.parse_identifier() {
            Ok(id) => id,
            Err(e) => {
                return Err(e);
            },
        };
        match self.expect(':') {
            Ok(_) => {},
            Err(e) => {
                return Err(e);
            },
        }
        match self.parse_spacing() {
            Ok(_) => {},
            Err(e) => {
                return Err(e);
            },
        }
        let mut items: Vec<AST> = Vec::new();
        loop
            invariant
                self.wf(),
                self.source == old(self).source,
                old(self).cursor < self.cursor,
                old(self).ffp <= self.ffp,
            decreases self.source@.len() - self.cursor,
        {
            match self.current() {
                Ok(c) => {
                    if c == '}' {
                        break ;
                    }
                },
                Err(_) => {
                    break ;
                },
            }
            let before = self.cursor;
            match self.parse_expression() {
                Ok(a) => {
                    if self.cursor == before {
                        break ;
                    }
                    items.push(a);
                },
                Err(_) => {
                    break ;
                },
            }
        }
        match self.expect('}') {
            Ok(_) => {},
            Err(e) => {
                return Err(e);
            },
        }
        match self.parse_spacing() {
            Ok(_) => {},
            Err(e) => {
                return Err(e);
            },
        }
        Ok(AST::Node(name, items))
    }

    /// A list template: a braced list of expressions, which matches
    /// a list of their values.
    pub fn parse_list(&mut self) -> (r: Result<AST, Error>)
        requires
            old(self).wf(),
        ensures
            final(self).wf(),
            progressed(*old(self), *final(self)),
            r is Ok ==> final(self).cursor > old(self).cursor,
            r matches Ok(a) ==> a is List,
        decreases self.source@.len() - self.cursor, 0int,
    {
        match self.expect('{') {
            Ok(_) => {},
            Err(e) => {
                return Err(e);
            },
        }
        match self.parse_spacing() {
            Ok(_) => {},
            Err(e) => {
                return Err(e);
            },
        }
        let mut exprs: Vec<AST> = Vec::new();
        loop
            invariant
                self.wf(),
                self.source == old(self).source,
                old(self).cursor < self.cursor,
                old(self).ffp <= self.ffp,
            decreases self.source@.len() - self.cursor,
        {
            match self.current() {
                Ok(c) => {
                    if c == '}' {
                        break ;
                    }
                },
                Err(_) => {
                    break ;
                },
            }
            let before = self.cursor;
            match self.parse_expression() {
                Ok(a) => {
                    if self.cursor == before {
                        break ;
                    }
                    exprs.push(a);
                },
                Err(_) => {
                    break ;
                },
            }
        }
        match self.expect('}') {
            Ok(_) => {},
            Err(e) => {
                return Err(e);
            },
        }
        match self.parse_spacing() {
            Ok(_) => {},
            Err(e) => {
                return Err(e);
            },
        }
        Ok(AST::List(exprs))
    }
}

impl Parser {
    /// Reads the whole grammar text fed to the constructor and
    /// returns its abstract syntax tree.
    pub fn parse(&mut self) -> (r: Result<AST, Error>)
        requires
            old(self).wf(),
        ensures
            final(self).wf(),
            progressed(*old(self), *final(self)),
            r is Ok ==> final(self).cursor == final(self).source@.len(),
            r matches Ok(a) ==> a is Grammar && a->Grammar_0@.len() >= 1,
            r matches Err(e) ==> is_backtrack(e, final(self).ffp),
    {
        self.parse_grammar()
    }

    /// A grammar: spacing, one or more definitions, label
    /// definitions and semantic actions, and the end of the input.
    pub fn parse_grammar(&mut self) -> (r: Result<AST, Error>)
        requires
            old(self).wf(),
        ensures
            final(self).wf(),
            progressed(*old(self), *final(self)),
            r is Ok ==> final(self).cursor == final(self).source@.len(),
            r matches Ok(a) ==> a is Grammar && a->Grammar_0@.len() >= 1,
            r matches Err(e) ==> is_backtrack(e, final(self).ffp),
    {
        match self.parse_spacing() {
            Ok(_) => {},
            Err(e) => {
                return Err(e);
            },
        }
        let mut defs: Vec<AST> = Vec::new();
        loop
            invariant
                self.wf(),
                self.source == old(self).source,
                old(self).cursor <= self.cursor,
                old(self).ffp <= self.ffp,
            decreases self.source@.len() - self.cursor,
        {
            let saved = self.cursor;
            match self.parse_label_definition() {
                Ok(d) => {
                    defs.push(d);
                    continue ;
                },
                Err(_) => {
                    self.cursor = saved;
                },
            }
            match self.parse_semaction() {
                Ok(d) => {
                    defs.push(d);
                    continue ;
                },
                Err(_) => {
                    self.cursor = saved;
                },
            }
            match self.parse_definition() {
                Ok(d) => {
                    defs.push(d);
                    continue ;
                },
                Err(_) => {
                    self.cursor = saved;
                    break ;
                },
            }
        }
        if defs.len() == 0 {
            let m = "CHOICE".to_owned();
            return Err(self.err(m));
        }
        match self.parse_eof() {
            Ok(_) => {},
            Err(e) => {
                return Err(e);
            },
        }
        Ok(AST::Grammar(defs))
    }

    /// A definition: an identifier, a left arrow, and the
    /// expression it stands for.
    pub fn parse_definition(&mut self) -> (r: Result<AST, Error>)
        requires
            old(self).wf(),
        ensures
            final(self).wf(),
            progressed(*old(self), *final(self)),
            r is Ok ==> final(self).cursor > old(self).cursor,
            ({
                let src = old(self).source@;
                let c0 = old(self).cursor as int;
                r matches Ok(a) ==> a matches AST::Definition(name, _b) && c0 < src.len()
                    && any_hits(ident_start_ms(), src[c0]) && name@ == src.subrange(
                    c0,
                    c0 + 1 + run_len(src, c0 + 1, ident_cont_ms()),
                )
            }),
    {
        let id = match self.parse_identifier() {
            Ok(id) => id,
            Err(e) => {
                return Err(e);
            },
        };
        match self.expect('<') {
            Ok(_) => {},
            Err(e) => {
                return Err(e);
            },
        }
        match self.expect('-') {
            Ok(_) => {},
            Err(e) => {
                return Err(e);
            },
        }
        match self.parse_spacing() {
            Ok(_) => {},
            Err(e) => {
                return Err(e);
            },
        }
        let expr = match self.parse_expression() {
            Ok(a) => a,
            Err(e) => {
                return Err(e);
            },
        };
        Ok(AST::Definition(id, Box::new(expr)))
    }

    /// A label definition: the word `label`, the label's name, an
    /// equals sign and the text it reports.
    pub fn parse_label_definition(&mut self) -> (r: Result<AST, Error>)
        requires
            old(self).wf(),
        ensures
            final(self).wf(),
            progressed(*old(self), *final(self)),
            r is Ok ==> final(self).cursor > old(self).cursor,
            r matches Ok(a) ==> a is LabelDefinition,
    {
        proof {
            reveal_strlit("label");
        }
        match self.expect_str("label") {
            Ok(_) => {},
            Err(e) => {
                return Err(e);
            },
        }
        match self.parse_spacing() {
            Ok(_) => {},
            Err(e) => {
                return Err(e);
            },
        }
        let label = match self.parse_identifier() {
            Ok(id) => id,
            Err(e) => {
                return Err(e);
            },
        };
        match self.expect('=') {
            Ok(_) => {},
            Err(e) => {
                return Err(e);
            },
        }
        match self.parse_spacing() {
            Ok(_) => {},
            Err(e) => {
                return Err(e);
            },
        }
        let literal = match self.parse_literal_string() {
            Ok(s) => s,
            Err(e) => {
                return Err(e);
            },
        };
        Ok(AST::LabelDefinition(label, literal))
    }

    /// A semantic action: an identifier, a right arrow, and the
    /// expression to evaluate.
    pub fn parse_semaction(&mut self) -> (r: Result<AST, Error>)
        requires
            old(self).wf(),
        ensures
            final(self).wf(),
            progressed(*old(self), *final(self)),
            r is Ok ==> final(self).cursor > old(self).cursor,
            ({
                let src = old(self).source@;
                let c0 = old(self).cursor as int;
                r matches Ok(a) ==> a matches AST::SemanticAction(name, _e) && c0 < src.len()
                    && any_hits(ident_start_ms(), src[c0]) && name@ == src.subrange(
                    c0,
                    c0 + 1 + run_len(src, c0 + 1, ident_cont_ms()),
                )
            }),
    {
        let id = match self.parse_identifier() {
            Ok(id) => id,
            Err(e) => {
                return Err(e);
            },
        };
        match self.expect('-') {
            Ok(_) => {},
            Err(e) => {
                return Err(e);
            },
        }
        match self.expect('>') {
            Ok(_) => {},
            Err(e) => {
                return Err(e);
            },
        }
        match self.parse_spacing() {
            Ok(_) => {},
            Err(e) => {
                return Err(e);
            },
        }
        let expr = match self.parse_sem_expr() {
            Ok(a) => a,
            Err(e) => {
                return Err(e);
            },
        };
        Ok(AST::SemanticAction(id, Box::new(expr)))
    }

    /// A semantic-action expression: a parenthesized expression, a
    /// unary operation, a value, a call, or an identifier, tried in
    /// that order.
    pub fn parse_sem_expr(&mut self) -> (r: Result<SemExpr, Error>)
        requires
            old(self).wf(),
        ensures
            final(self).wf(),
            progressed(*old(self), *final(self)),
            r is Ok ==> final(self).cursor > old(self).cursor,
            r is Err ==> final(self).cursor == old(self).cursor,
        decreases self.source@.len() - self.cursor, 5int,
    {
        let saved = self.cursor;
        match self.parse_sem_expr_parens() {
            Ok(e) => {
                return Ok(e);
            },
            Err(_) => {
                self.cursor = saved;
            },
        }
        match self.parse_sem_unary() {
            Ok(e) => {
                return Ok(e);
            },
            Err(_) => {
                self.cursor = saved;
            },
        }
        match self.parse_sem_val() {
            Ok(e) => {
                return Ok(e);
            },
            Err(_) => {
                self.cursor = saved;
            },
        }
        match self.parse_sem_call() {
            Ok(e) => {
                return Ok(e);
            },
            Err(_) => {
                self.cursor = saved;
            },
        }
        match self.parse_sem_id() {
            Ok(e) => Ok(e),
            Err(_) => {
                self.cursor = saved;
                let m = "CHOICE".to_owned();
                Err(self.err(m))
            },
        }
    }

    /// A parenthesized semantic-action expression.
    pub fn parse_sem_expr_parens(&mut self) -> (r: Result<SemExpr, Error>)
        requires
            old(self).wf(),
        ensures
            final(self).wf(),
            progressed(*old(self), *final(self)),
            r is Ok ==> final(self).cursor > old(self).cursor,
        decreases self.source@.len() - self.cursor, 4int,
    {
        match self.expect('(') {
            Ok(_) => {},
            Err(e) => {
                return Err(e);
            },
        }
        let expr = match self.parse_sem_expr() {
            Ok(e) => e,
            Err(e) => {
                return Err(e);
            },
        };
        match self.expect(')') {
            Ok(_) => {},
            Err(e) => {
                return Err(e);
            },
        }
        Ok(expr)
    }

    /// A unary semantic-action operation: a sign before an
    /// expression.
    pub fn parse_sem_unary(&mut self) -> (r: Result<SemExpr, Error>)
        requires
            old(self).wf(),
        ensures
            final(self).wf(),
            progressed(*old(self), *final(self)),
            r is Ok ==> final(self).cursor > old(self).cursor,
        decreases self.source@.len() - self.cursor, 3int,
    {
        let c = match self.current() {
            Ok(c) => c,
            Err(e) => {
                return Err(e);
            },
        };
        let op = if c == '-' {
            SemExprUnaryOp::Negative
        } else if c == '+' {
            SemExprUnaryOp::Positive
        } else {
            let m = "CHOICE".to_owned();
            return Err(self.err(m));
        };
        self.next();
        let expr = match self.parse_sem_expr() {
            Ok(e) => e,
            Err(e) => {
                return Err(e);
            },
        };
        Ok(SemExpr::UnaryOp(op, Box::new(expr)))
    }

    /// A semantic-action identifier reference.
    pub fn parse_sem_id(&mut self) -> (r: Result<SemExpr, Error>)
        requires
            old(self).wf(),
        ensures
            final(self).wf(),
            progressed(*old(self), *final(self)),
            r is Ok ==> final(self).cursor > old(self).cursor,
            r is Err ==> *final(self) == *old(self),
    {
        match self.parse_identifier() {
            Ok(id) => Ok(SemExpr::Identifier(id)),
            Err(e) => Err(e),
        }
    }

    /// A semantic-action call: a function name and its
    /// parenthesized comma-separated arguments.
    pub fn parse_sem_call(&mut self) -> (r: Result<SemExpr, Error>)
        requires
            old(self).wf(),
        ensures
            final(self).wf(),
            progressed(*old(self), *final(self)),
            r is Ok ==> final(self).cursor > old(self).cursor,
        decreases self.source@.len() - self.cursor, 1int,
    {
        let name = match self.parse_identifier() {
            Ok(id) => id,
            Err(e) => {
                return Err(e);
            },
        };
        match self.expect('(') {
            Ok(_) => {},
            Err(e) => {
                return Err(e);
            },
        }
        match self.parse_spacing() {
            Ok(_) => {},
            Err(e) => {
                return Err(e);
            },
        }
        let mut params: Vec<SemExpr> = Vec::new();
        match self.parse_sem_expr() {
            Ok(v) => {
                params.push(v);
                loop
                    invariant
                        self.wf(),
                        self.source == old(self).source,
                        old(self).cursor < self.cursor,
                        old(self).ffp <= self.ffp,
                    decreases self.source@.len() - self.cursor,
                {
                    match self.expect(',') {
                        Ok(_) => {},
                        Err(_) => {
                            break ;
                        },
                    }
                    match self.parse_spacing() {
                        Ok(_) => {},
                        Err(_) => {
                            break ;
                        },
                    }
                    match self.parse_sem_expr() {
                        Ok(v) => {
                            params.push(v);
                        },
                        Err(_) => {
                            break ;
                        },
                    }
                }
            },
            Err(_) => {},
        }
        match self.expect(')') {
            Ok(_) => {},
            Err(e) => {
                return Err(e);
            },
        }
        match self.parse_spacing() {
            Ok(_) => {},
            Err(e) => {
                return Err(e);
            },
        }
        Ok(SemExpr::Call(name, params))
    }

    /// A semantic-action value: a number, a boolean, a literal, a
    /// variable, or a list, tried in that order.
    pub fn parse_sem_val(&mut self) -> (r: Result<SemExpr, Error>)
        requires
            old(self).wf(),
        ensures
            final(self).wf(),
            progressed(*old(self), *final(self)),
            r is Ok ==> final(self).cursor > old(self).cursor,
        decreases self.source@.len() - self.cursor, 2int,
    {
        let saved = self.cursor;
        match self.parse_number() {
            Ok(v) => {
                return Ok(SemExpr::Value(v));
            },
            Err(_) => {
                self.cursor = saved;
            },
        }
        match self.parse_bool() {
            Ok(v) => {
                return Ok(SemExpr::Value(v));
            },
            Err(_) => {
                self.cursor = saved;
            },
        }
        match self.parse_sem_lit() {
            Ok(v) => {
                return Ok(SemExpr::Value(v));
            },
            Err(_) => {
                self.cursor = saved;
            },
        }
        match self.parse_sem_var() {
            Ok(v) => {
                return Ok(SemExpr::Value(v));
            },
            Err(_) => {
                self.cursor = saved;
            },
        }
        match self.parse_sem_list() {
            Ok(v) => Ok(SemExpr::Value(v)),
            Err(e) => {
                self.cursor = saved;
                Err(e)
            },
        }
    }

    /// A literal semantic-action value: a character or a string.
    pub fn parse_sem_lit(&mut self) -> (r: Result<SemValue, Error>)
        requires
            old(self).wf(),
        ensures
            final(self).wf(),
            progressed(*old(self), *final(self)),
            r is Ok ==> final(self).cursor > old(self).cursor,
    {
        match self.parse_literal() {
            Ok(AST::Char(c)) => Ok(SemValue::Char(c)),
            Ok(AST::String(s)) => Ok(SemValue::String(s)),
            Ok(_) => {
                proof {
                    assert(false);
                }
                let m = "CHOICE".to_owned();
                Err(self.err(m))
            },
            Err(e) => Err(e),
        }
    }

    /// A semantic-action variable: a percent sign and the
    /// variable's number.
    pub fn parse_sem_var(&mut self) -> (r: Result<SemValue, Error>)
        requires
            old(self).wf(),
        ensures
            final(self).wf(),
            progressed(*old(self), *final(self)),
            r is Ok ==> final(self).cursor > old(self).cursor,
    {
        match self.expect('%') {
            Ok(_) => {},
            Err(e) => {
                return Err(e);
            },
        }
        let ghost mid = *self;
        let var = match self.parse_decimal_number() {
            Ok(n) => n,
            Err(e) => {
                return Err(e);
            },
        };
        proof {
            let src = mid.source@;
            let c0 = mid.cursor as int;
            if c0 < src.len() && '1' <= src[c0] && src[c0] <= '9' {
                let ds = src.subrange(c0, c0 + run_len(src, c0, digits_ms()));
                lemma_run_len_bounds(src, c0, digits_ms());
                assert(all_digits(ds));
                lemma_dec_val_nonneg(ds);
            }
            assert(var >= 0);
        }
        match self.parse_spacing() {
            Ok(_) => {},
            Err(e) => {
                return Err(e);
            },
        }
        Ok(SemValue::Variable(var as usize))
    }

    /// A semantic-action list: braced, comma-separated expressions.
    pub fn parse_sem_list(&mut self) -> (r: Result<SemValue, Error>)
        requires
            old(self).wf(),
        ensures
            final(self).wf(),
            progressed(*old(self), *final(self)),
            r is Ok ==> final(self).cursor > old(self).cursor,
        decreases self.source@.len() - self.cursor, 0int,
    {
        match self.expect('{') {
            Ok(_) => {},
            Err(e) => {
                return Err(e);
            },
        }
        match self.parse_spacing() {
            Ok(_) => {},
            Err(e) => {
                return Err(e);
            },
        }
        let mut items: Vec<SemExpr> = Vec::new();
        match self.parse_sem_expr() {
            Ok(v) => {
                items.push(v);
                loop
                    invariant
                        self.wf(),
                        self.source == old(self).source,
                        old(self).cursor < self.cursor,
                        old(self).ffp <= self.ffp,
                    decreases self.source@.len() - self.cursor,
                {
                    match self.expect(',') {
                        Ok(_) => {},
                        Err(_) => {
                            break ;
                        },
                    }
                    match self.parse_spacing() {
                        Ok(_) => {},
                        Err(_) => {
                            break ;
                        },
                    }
                    match self.parse_sem_expr() {
                        Ok(v) => {
                            items.push(v);
                        },
                        Err(_) => {
                            break ;
                        },
                    }
                }
            },
            Err(_) => {},
        }
        match self.expect('}') {
            Ok(_) => {},
            Err(e) => {
                return Err(e);
            },
        }
        match self.parse_spacing() {
            Ok(_) => {},
            Err(e) => {
                return Err(e);
            },
        }
        Ok(SemValue::List(items))
    }
}

/// What expansion does to one node: a definition's body is wrapped
/// in a node template named after the definition, a grammar is
/// expanded definition by definition, and everything else is left
/// as it stands.
pub open spec fn is_expanded(orig: AST, out: AST) -> bool
    decreases orig,
{
    match orig {
        AST::Grammar(defs) => {
            &&& out matches AST::Grammar(odefs)
            &&& odefs@.len() == defs@.len()
            &&& (forall|i: int|
                0 <= i < defs@.len() ==> is_expanded(#[trigger] defs@[i], odefs@[i]))
        },
        AST::Definition(name, expr) => {
            &&& out matches AST::Definition(n2, b)
            &&& n2@ == name@
            &&& *b matches AST::Node(n3, items)
            &&& n3@ == name@
            &&& items@.len() == 1
            &&& items@[0] == *expr
        },
        _ => out == orig,
    }
}

/// Wraps every definition's body in a node template that carries
/// the definition's name, so that a successful match of the
/// production builds a node labeled with it.
pub fn expand(ast: AST) -> (r: Result<AST, Error>)
    ensures
        r matches Ok(out) && is_expanded(ast, out),
    decreases ast,
{
    let ghost a0 = ast;
    match ast {
        AST::Grammar(definitions) => {
            let mut definitions = definitions;
            let ghost defs0 = definitions@;
            let mut out: Vec<AST> = Vec::new();
            let mut i: usize = 0;
            while definitions.len() > 0
                invariant
                    defs0 == a0->Grammar_0@,
                    i + definitions@.len() == defs0.len(),
                    definitions@ == defs0.skip(i as int),
                    out@.len() == i,
                    forall|j: int| 0 <= j < i ==> is_expanded(defs0[j], #[trigger] out@[j]),
                decreases definitions@.len(),
            {
                let d = definitions.remove(0);
                proof {
                    assert(defs0.skip(i as int)[0] == defs0[i as int]);
                    assert(d == defs0[i as int]);
                    assert(definitions@ =~= defs0.skip(i + 1));
                    assert(decreases_to!(a0 => a0->Grammar_0));
                    assert(decreases_to!(a0->Grammar_0 => a0->Grammar_0@));
                    assert(decreases_to!(a0->Grammar_0@ => a0->Grammar_0@[i as int]));
                }
                let e = match expand(d) {
                    Ok(e) => e,
                    Err(e) => {
                        proof {
                            assert(false);
                        }
                        return Err(e);
                    },
                };
                out.push(e);
                proof {
                    vstd::std_specs::vec::axiom_spec_len(&out);
                }
                i += 1;
            }
            Ok(AST::Grammar(out))
        },
        AST::Definition(name, expr) => {
            Ok(AST::Definition(name.clone(), Box::new(AST::Node(name, vec![*expr]))))
        },
        n => Ok(n),
    }
}

} // verus!
