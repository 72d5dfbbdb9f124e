//! The parsing machine: a stack-based bytecode interpreter whose
//! instructions implement PEG operators directly.
//!
//! A `Program` is an immutable instruction vector plus a mapping from
//! production entry addresses to production names.  The `VM` walks the
//! instructions, moving a cursor over the input, pushing backtrack and
//! call frames onto a single tagged stack, emitting captured `Value`s
//! into the innermost call frame, and memoizing seeds of left-recursive
//! productions so that their matches can be grown iteratively.

#![verifier::loop_isolation(false)]

use vstd::prelude::*;

verus! {

/// A match artifact: a single code point, a text fragment, a labeled
/// node with ordered children, a list, or an error marker.  Values are
/// built by the machine and never mutated afterwards.
#[derive(Debug, PartialEq)]
pub enum Value {
    Chr(char),
    Str(String),
    Node { name: String, children: Vec<Value> },
    List(Vec<Value>),
    Error { label: String, message: Option<String> },
}

/// One machine instruction.  `Choice`, `Commit`, `CommitB`, `Call` and
/// `CallB` use offsets relative to the instruction's own address;
/// `Jump` is absolute.
#[derive(Clone, Copy, Debug, PartialEq, Eq, Structural)]
pub enum Instruction {
    Halt,
    Any,
    Capture,
    Char(char),
    Choice(usize),
    Commit(usize),
    CommitB(usize),
    Fail,
    Jump(usize),
    Call(usize, usize),
    CallB(usize, usize),
    Return,
}

/// A matching error.  `LeftRec` is a sentinel that marks an
/// in-progress left-recursive seed inside the memo table; `Overflow`
/// reports a malformed program (program counter or stack misuse) and
/// is never caught by backtracking.
#[derive(Debug, PartialEq)]
pub enum Error {
    Fail,
    LeftRec,
    Overflow,
    Matching(String, String),
    EOF,
}

/// Builds a copy of a matching error, equal to the given one.
pub fn dup_error(e: &Error) -> (r: Error)
    ensures
        r == *e,
{
    match e {
        Error::Fail => Error::Fail,
        Error::LeftRec => Error::LeftRec,
        Error::Overflow => Error::Overflow,
        Error::Matching(exp, act) => Error::Matching(exp.clone(), act.clone()),
        Error::EOF => Error::EOF,
    }
}

/// An immutable program: the instruction vector and the production
/// names, keyed by entry address.  An address without a name yields a
/// node labeled with the empty string.
#[derive(Debug)]
pub struct Program {
    pub names: Vec<(usize, String)>,
    pub code: Vec<Instruction>,
}

/// The name stored for `address`, if any: the first pair in `names`
/// whose key equals the address.
pub open spec fn name_lookup(names: Seq<(usize, String)>, address: usize) -> Option<Seq<char>>
    decreases names.len(),
{
    if names.len() == 0 {
        None
    } else if names[0].0 == address {
        Some(names[0].1@)
    } else {
        name_lookup(names.drop_first(), address)
    }
}

impl Program {
    /// The label for a node produced at `address`: the stored name, or
    /// the empty string when the address has none.
    pub fn name_at(&self, address: usize) -> (r: String)
        ensures
            match name_lookup(self.names@, address) {
                Some(s) => r@ == s,
                None => r@ == Seq::<char>::empty(),
            },
    {
        let mut i: usize = 0;
        proof {
            assert(self.names@.skip(0) =~= self.names@);
        }
        while i < self.names.len()
            invariant
                i <= self.names@.len(),
                name_lookup(self.names@, address) == name_lookup(self.names@.skip(i as int), address),
            decreases self.names@.len() - i,
        {
            proof {
                assert(self.names@.skip(i as int).drop_first() =~= self.names@.skip(i + 1));
            }
            if self.names[i].0 == address {
                assert(self.names@.skip(i as int)[0] == self.names@[i as int]);
                return self.names[i].1.clone();
            }
            i += 1;
        }
        String::new()
    }
}

/// The frame kind: a backtrack frame restores the machine on failure,
/// a call frame anchors a production invocation.
#[derive(Clone, Copy, Debug, PartialEq, Eq, Structural)]
pub enum StackFrameType {
    Backtrack,
    Call,
}

/// One stack record.  For a backtrack frame, `program_counter`,
/// `cursor` and `capture` are meaningful.  For a call frame,
/// `program_counter` is the return address, `address` and `precedence`
/// describe the callee, `captures` holds the child values, and for a
/// left-recursive call `cursor` holds the entry cursor and `result`
/// the current seed.
#[derive(Debug)]
pub struct StackFrame {
    pub ftype: StackFrameType,
    pub program_counter: usize,
    pub cursor: Result<usize, Error>,
    pub result: Result<usize, Error>,
    pub address: usize,
    pub precedence: usize,
    pub capture: usize,
    pub captures: Vec<Value>,
}

impl StackFrame {
    /// A backtrack frame: saves the input cursor, the alternative's
    /// address, and the capture count of the enclosing call frame.
    pub fn new_backtrack(cursor: usize, pc: usize, capture: usize) -> (r: Self)
        ensures
            r.ftype == StackFrameType::Backtrack,
            r.program_counter == pc,
            r.capture == capture,
            r.cursor == Result::<usize, Error>::Ok(cursor),
            r.captures@ == Seq::<Value>::empty(),
            r.result == Result::<usize, Error>::Err(Error::Fail),
            r.address == 0,
            r.precedence == 0,
    {
        StackFrame {
            ftype: StackFrameType::Backtrack,
            program_counter: pc,
            capture: capture,
            cursor: Ok(cursor),
            captures: Vec::new(),
            address: 0,
            result: Err(Error::Fail),
            precedence: 0,
        }
    }

    /// An ordinary call frame: records the return address, the callee
    /// address and its precedence, with no entry cursor.
    pub fn new_call(pc: usize, address: usize, precedence: usize) -> (r: Self)
        ensures
            r.ftype == StackFrameType::Call,
            r.program_counter == pc,
            r.cursor == Result::<usize, Error>::Err(Error::Fail),
            r.result == Result::<usize, Error>::Err(Error::Fail),
            r.address == address,
            r.precedence == precedence,
            r.capture == 0,
            r.captures@ == Seq::<Value>::empty(),
    {
        StackFrame {
            ftype: StackFrameType::Call,
            program_counter: pc,
            cursor: Err(Error::Fail),
            result: Err(Error::Fail),
            address: address,
            precedence: precedence,
            capture: 0,
            captures: Vec::new(),
        }
    }

    /// A left-recursive call frame: also stores the entry cursor and
    /// starts its seed result at the `LeftRec` sentinel.
    pub fn new_lrcall(cursor: usize, pc: usize, address: usize, precedence: usize) -> (r: Self)
        ensures
            r.ftype == StackFrameType::Call,
            r.program_counter == pc,
            r.cursor == Result::<usize, Error>::Ok(cursor),
            r.result == Result::<usize, Error>::Err(Error::LeftRec),
            r.address == address,
            r.precedence == precedence,
            r.capture == 0,
            r.captures@ == Seq::<Value>::empty(),
    {
        StackFrame {
            ftype: StackFrameType::Call,
            program_counter: pc,
            cursor: Ok(cursor),
            result: Err(Error::LeftRec),
            address: address,
            precedence: precedence,
            captures: Vec::new(),
            capture: 0,
        }
    }
}

/// One memoized seed for a left-recursive production: the cursor the
/// production has reached so far (or the `LeftRec` sentinel while the
/// first attempt is still running), the precedence it was entered
/// with, and the number of completed growth iterations.
#[derive(Debug)]
pub struct LeftRecTableEntry {
    pub cursor: Result<usize, Error>,
    pub precedence: usize,
    pub bound: usize,
}

/// The key of a memo row: the production's entry address and the
/// input position the call started at.
pub open spec fn memo_key(t: (usize, usize, LeftRecTableEntry)) -> (usize, usize) {
    (t.0, t.1)
}

/// The memo table as a map from (address, entry cursor) to its entry.
pub open spec fn memo_view(m: Seq<(usize, usize, LeftRecTableEntry)>) -> Map<
    (usize, usize),
    LeftRecTableEntry,
>
    decreases m.len(),
{
    if m.len() == 0 {
        Map::empty()
    } else {
        memo_view(m.drop_last()).insert(memo_key(m.last()), m.last().2)
    }
}

/// No two memo rows share a key.
pub open spec fn memo_keys_unique(m: Seq<(usize, usize, LeftRecTableEntry)>) -> bool {
    forall|i: int, j: int|
        0 <= i < j < m.len() ==> #[trigger] memo_key(m[i]) != #[trigger] memo_key(m[j])
}

proof fn lemma_memo_view_contains(m: Seq<(usize, usize, LeftRecTableEntry)>, k: (usize, usize))
    ensures
        memo_view(m).contains_key(k) <==> exists|i: int| 0 <= i < m.len() && memo_key(m[i]) == k,
    decreases m.len(),
{
    if m.len() > 0 {
        lemma_memo_view_contains(m.drop_last(), k);
        if memo_view(m).contains_key(k) {
            if memo_key(m.last()) == k {
                assert(memo_key(m[m.len() - 1]) == k);
            } else {
                let i = choose|i: int| 0 <= i < m.drop_last().len() && memo_key(
                    m.drop_last()[i],
                ) == k;
                assert(memo_key(m[i]) == k);
            }
        }
        if exists|i: int| 0 <= i < m.len() && memo_key(m[i]) == k {
            let i = choose|i: int| 0 <= i < m.len() && memo_key(m[i]) == k;
            if i < m.len() - 1 {
                assert(memo_key(m.drop_last()[i]) == k);
            }
        }
    }
}

proof fn lemma_memo_view_at(m: Seq<(usize, usize, LeftRecTableEntry)>, i: int)
    requires
        memo_keys_unique(m),
        0 <= i < m.len(),
    ensures
        memo_view(m).contains_key(memo_key(m[i])),
        memo_view(m)[memo_key(m[i])] == m[i].2,
    decreases m.len(),
{
    lemma_memo_view_contains(m, memo_key(m[i]));
    if i < m.len() - 1 {
        assert(memo_key(m.drop_last()[i]) == memo_key(m[i]));
        lemma_memo_view_at(m.drop_last(), i);
        assert(memo_key(m[m.len() - 1]) != memo_key(m[i]));
    }
}

proof fn lemma_memo_view_update(m: Seq<(usize, usize, LeftRecTableEntry)>, i: int, e: LeftRecTableEntry)
    requires
        memo_keys_unique(m),
        0 <= i < m.len(),
    ensures
        memo_view(m.update(i, (m[i].0, m[i].1, e))) == memo_view(m).insert(memo_key(m[i]), e),
        memo_keys_unique(m.update(i, (m[i].0, m[i].1, e))),
    decreases m.len(),
{
    let m2 = m.update(i, (m[i].0, m[i].1, e));
    assert forall|a: int, b: int| 0 <= a < b < m2.len() implies #[trigger] memo_key(m2[a])
        != #[trigger] memo_key(m2[b]) by {
        assert(memo_key(m2[a]) == memo_key(m[a]));
        assert(memo_key(m2[b]) == memo_key(m[b]));
    }
    if i == m.len() - 1 {
        assert(m2.drop_last() =~= m.drop_last());
        assert(memo_view(m2) == memo_view(m.drop_last()).insert(memo_key(m[i]), e));
        assert(memo_view(m) == memo_view(m.drop_last()).insert(memo_key(m[i]), m[i].2));
        assert(memo_view(m).insert(memo_key(m[i]), e) == memo_view(m.drop_last()).insert(
            memo_key(m[i]),
            m[i].2,
        ).insert(memo_key(m[i]), e));
        assert(memo_view(m.drop_last()).insert(memo_key(m[i]), m[i].2).insert(memo_key(m[i]), e)
            =~= memo_view(m.drop_last()).insert(memo_key(m[i]), e));
    } else {
        assert(m2.drop_last() =~= m.drop_last().update(i, (m[i].0, m[i].1, e)));
        assert(m.drop_last()[i] == m[i]);
        lemma_memo_view_update(m.drop_last(), i, e);
        assert(memo_view(m2) == memo_view(m.drop_last()).insert(memo_key(m[i]), e).insert(
            memo_key(m.last()),
            m.last().2,
        ));
        assert(memo_key(m[m.len() - 1]) != memo_key(m[i]));
        assert(memo_view(m.drop_last()).insert(memo_key(m[i]), e).insert(
            memo_key(m.last()),
            m.last().2,
        ) =~= memo_view(m.drop_last()).insert(memo_key(m.last()), m.last().2).insert(
            memo_key(m[i]),
            e,
        ));
    }
}

/// One entry never shrinks: its growth bound never decreases and a
/// cursor that has reached a position never regresses.
pub open spec fn entry_le(e1: LeftRecTableEntry, e2: LeftRecTableEntry) -> bool {
    &&& e1.bound <= e2.bound
    &&& (e1.cursor matches Ok(c1) ==> e2.cursor matches Ok(c2) && c1 <= c2)
}

/// Memo monotonicity: every key of `m1` is still present in `m2` with
/// an entry at least as advanced.
pub open spec fn memo_extends(
    m1: Map<(usize, usize), LeftRecTableEntry>,
    m2: Map<(usize, usize), LeftRecTableEntry>,
) -> bool {
    forall|k: (usize, usize)| #[trigger]
        m1.contains_key(k) ==> m2.contains_key(k) && entry_le(m1[k], m2[k])
}

/// Memo monotonicity is reflexive.
pub proof fn lemma_memo_extends_refl(m: Map<(usize, usize), LeftRecTableEntry>)
    ensures
        memo_extends(m, m),
{
}

/// Memo monotonicity is transitive, so it holds across any sequence
/// of machine steps within one match: for each key, the stored cursor
/// never regresses and the growth bound never decreases.
pub proof fn lemma_memo_extends_trans(
    m1: Map<(usize, usize), LeftRecTableEntry>,
    m2: Map<(usize, usize), LeftRecTableEntry>,
    m3: Map<(usize, usize), LeftRecTableEntry>,
)
    requires
        memo_extends(m1, m2),
        memo_extends(m2, m3),
    ensures
        memo_extends(m1, m3),
{
}

/// The index of the nearest call frame strictly below position `j`,
/// or -1 when every frame below `j` is a backtrack frame.
pub open spec fn prev_call(stack: Seq<StackFrame>, j: int) -> int
    decreases j,
{
    if j <= 0 {
        -1
    } else if 0 <= j - 1 < stack.len() && stack[j - 1].ftype == StackFrameType::Call {
        j - 1
    } else {
        prev_call(stack, j - 1)
    }
}

/// The index of the innermost call frame of the whole stack, or -1.
pub open spec fn innermost_call(stack: Seq<StackFrame>) -> int {
    prev_call(stack, stack.len() as int)
}

proof fn lemma_prev_call_props(stack: Seq<StackFrame>, j: int)
    requires
        0 <= j <= stack.len(),
    ensures
        -1 <= prev_call(stack, j) < j,
        prev_call(stack, j) >= 0 ==> stack[prev_call(stack, j)].ftype == StackFrameType::Call,
        forall|k: int| prev_call(stack, j) < k < j ==> stack[k].ftype == StackFrameType::Backtrack,
    decreases j,
{
    if j > 0 {
        lemma_prev_call_props(stack, j - 1);
    }
}

proof fn lemma_prev_call_prefix(s1: Seq<StackFrame>, s2: Seq<StackFrame>, j: int)
    requires
        0 <= j <= s1.len(),
        j <= s2.len(),
        forall|k: int| 0 <= k < j ==> s1[k] == s2[k],
    ensures
        prev_call(s1, j) == prev_call(s2, j),
    decreases j,
{
    if j > 0 {
        lemma_prev_call_prefix(s1, s2, j - 1);
    }
}

/// The index of the topmost backtrack frame, or -1 when there is none:
/// the frame failure propagation restores.
pub open spec fn top_backtrack_from(stack: Seq<StackFrame>, j: int) -> int
    decreases j,
{
    if j <= 0 {
        -1
    } else if 0 <= j - 1 < stack.len() && stack[j - 1].ftype == StackFrameType::Backtrack {
        j - 1
    } else {
        top_backtrack_from(stack, j - 1)
    }
}

pub open spec fn top_backtrack(stack: Seq<StackFrame>) -> int {
    top_backtrack_from(stack, stack.len() as int)
}

proof fn lemma_top_backtrack_props(stack: Seq<StackFrame>, j: int)
    requires
        0 <= j <= stack.len(),
    ensures
        -1 <= top_backtrack_from(stack, j) < j,
        top_backtrack_from(stack, j) >= 0 ==> stack[top_backtrack_from(stack, j)].ftype
            == StackFrameType::Backtrack,
        forall|k: int|
            top_backtrack_from(stack, j) < k < j ==> stack[k].ftype == StackFrameType::Call,
    decreases j,
{
    if j > 0 {
        lemma_top_backtrack_props(stack, j - 1);
    }
}

/// A backtrack frame's saved capture count never exceeds the current
/// capture count of its enclosing call frame.
pub open spec fn backtrack_count_ok(stack: Seq<StackFrame>, j: int) -> bool {
    let p = prev_call(stack, j);
    if p >= 0 {
        stack[j].capture <= stack[p].captures@.len()
    } else {
        stack[j].capture == 0
    }
}

/// The capture discipline over the whole stack: every backtrack
/// frame's saved count is within its enclosing call frame's capture
/// list, and saved counts grow from older to newer backtrack frames
/// of the same enclosing call.
pub open spec fn captures_wf(stack: Seq<StackFrame>) -> bool {
    &&& (forall|j: int|
        0 <= j < stack.len() && stack[j].ftype == StackFrameType::Backtrack
            ==> #[trigger] backtrack_count_ok(stack, j))
    &&& (forall|i: int, j: int|
        0 <= i < j < stack.len() && stack[i].ftype == StackFrameType::Backtrack
            && stack[j].ftype == StackFrameType::Backtrack && #[trigger] prev_call(stack, i)
            == #[trigger] prev_call(stack, j) ==> stack[i].capture <= stack[j].capture)
}

/// The left-recursion key a frame holds, if it is a left-recursive
/// call frame: its address paired with its entry cursor.
pub open spec fn lr_key(f: StackFrame) -> Option<(usize, usize)> {
    match f.cursor {
        Ok(ec) => if f.ftype == StackFrameType::Call {
            Some((f.address, ec))
        } else {
            None
        },
        Err(_) => None,
    }
}

/// A single frame's well-formedness with respect to the farthest
/// failure position: saved cursors and results never pass it, a
/// backtrack frame always carries a saved cursor, and a call frame
/// with nonzero precedence is a left-recursive call with an entry
/// cursor.
pub open spec fn frame_wf(f: StackFrame, ffp: usize) -> bool {
    &&& (f.cursor matches Ok(c) ==> c <= ffp)
    &&& (f.result matches Ok(c) ==> c <= ffp)
    &&& (f.ftype == StackFrameType::Backtrack ==> f.cursor is Ok)
    &&& (f.ftype == StackFrameType::Call && f.precedence > 0 ==> f.cursor is Ok)
}

/// A left-recursive call frame is linked to the memo table: its key is
/// present and the stored cursor is the frame's current seed result.
pub open spec fn lr_frame_linked(
    f: StackFrame,
    memo: Map<(usize, usize), LeftRecTableEntry>,
) -> bool {
    lr_key(f) matches Some(k) ==> memo.contains_key(k) && memo[k].cursor == f.result
}

proof fn lemma_prev_call_skip_backtracks(s: Seq<StackFrame>, i: int, j: int)
    requires
        0 <= i <= j <= s.len(),
        forall|k: int| i <= k < j ==> s[k].ftype == StackFrameType::Backtrack,
    ensures
        prev_call(s, j) == prev_call(s, i),
    decreases j - i,
{
    if i < j {
        lemma_prev_call_skip_backtracks(s, i, j - 1);
    }
}

proof fn lemma_prev_call_same_ftypes(s1: Seq<StackFrame>, s2: Seq<StackFrame>, j: int)
    requires
        0 <= j <= s1.len(),
        j <= s2.len(),
        forall|k: int| 0 <= k < j ==> s1[k].ftype == s2[k].ftype,
    ensures
        prev_call(s1, j) == prev_call(s2, j),
    decreases j,
{
    if j > 0 {
        lemma_prev_call_same_ftypes(s1, s2, j - 1);
    }
}

proof fn lemma_captures_wf_prefix(s: Seq<StackFrame>, n: int)
    requires
        captures_wf(s),
        0 <= n <= s.len(),
    ensures
        captures_wf(s.subrange(0, n)),
{
    let s2 = s.subrange(0, n);
    assert forall|j: int|
        0 <= j < s2.len() && s2[j].ftype == StackFrameType::Backtrack implies #[trigger]
        backtrack_count_ok(s2, j) by {
        lemma_prev_call_props(s, j);
        lemma_prev_call_prefix(s2, s, j);
        assert(backtrack_count_ok(s, j));
    }
    assert forall|i: int, j: int|
        0 <= i < j < s2.len() && s2[i].ftype == StackFrameType::Backtrack && s2[j].ftype
            == StackFrameType::Backtrack && #[trigger] prev_call(s2, i) == #[trigger] prev_call(
            s2,
            j,
        ) implies s2[i].capture <= s2[j].capture by {
        lemma_prev_call_prefix(s2, s, i);
        lemma_prev_call_prefix(s2, s, j);
    }
}

/// The machine state.  `cursor` is the input position, or the error
/// that is currently propagating; `ffp` the farthest input position
/// any attempt has reached; `accumulator` the single pending value the
/// next `Capture` instruction would take.
#[derive(Debug)]
pub struct VM {
    pub cursor: Result<usize, Error>,
    pub ffp: usize,
    pub source: Vec<char>,
    pub program: Program,
    pub program_counter: usize,
    pub stack: Vec<StackFrame>,
    pub lrmemo: Vec<(usize, usize, LeftRecTableEntry)>,
    pub accumulator: Option<Value>,
}

impl VM {
    /// The machine's invariant, preserved by every dispatch step.
    pub open spec fn wf(&self) -> bool {
        &&& (self.cursor matches Ok(c) ==> c <= self.ffp)
        &&& (self.cursor matches Err(e) ==> !(e is LeftRec) && !(e is Overflow))
        &&& self.ffp <= self.source@.len()
        &&& (forall|i: int|
            0 <= i < self.stack@.len() ==> #[trigger] frame_wf(self.stack@[i], self.ffp))
        &&& captures_wf(self.stack@)
        &&& memo_keys_unique(self.lrmemo@)
        &&& (forall|i: int|
            0 <= i < self.stack@.len() ==> #[trigger] lr_frame_linked(
                self.stack@[i],
                memo_view(self.lrmemo@),
            ))
        &&& (forall|i: int, j: int|
            0 <= i < j < self.stack@.len() && #[trigger] lr_key(self.stack@[i]) is Some
                ==> lr_key(self.stack@[i]) != #[trigger] lr_key(self.stack@[j]))
        &&& (forall|k: (usize, usize)| #[trigger]
            memo_view(self.lrmemo@).contains_key(k) ==> (memo_view(self.lrmemo@)[k].cursor
                matches Ok(c) ==> c <= self.ffp))
    }

    pub fn new(program: Program) -> (r: Self)
        ensures
            r.wf(),
            r.ffp == 0,
            r.cursor == Result::<usize, Error>::Ok(0usize),
            r.source@ == Seq::<char>::empty(),
            r.program == program,
            r.program_counter == 0,
            r.stack@ == Seq::<StackFrame>::empty(),
            r.lrmemo@ == Seq::<(usize, usize, LeftRecTableEntry)>::empty(),
            r.accumulator is None,
    {
        VM {
            ffp: 0,
            cursor: Ok(0),
            source: Vec::new(),
            program: program,
            program_counter: 0,
            stack: Vec::new(),
            lrmemo: Vec::new(),
            accumulator: None,
        }
    }

    /// Moves the cursor one code point forward, pushing the farthest
    /// failure position along with it when it passes it.
    pub fn advance_cursor(&mut self) -> (r: Result<(), Error>)
        requires
            old(self).wf(),
            old(self).cursor matches Ok(c) && c < old(self).source@.len(),
        ensures
            final(self).wf(),
            r is Ok,
            ({
                let c = old(self).cursor->Ok_0;
                &&& final(self).cursor == Result::<usize, Error>::Ok((c + 1) as usize)
                &&& final(self).ffp == if c + 1 > old(self).ffp {
                    (c + 1) as usize
                } else {
                    old(self).ffp
                }
            }),
            final(self).source == old(self).source,
            final(self).program == old(self).program,
            final(self).program_counter == old(self).program_counter,
            final(self).stack == old(self).stack,
            final(self).lrmemo == old(self).lrmemo,
            final(self).accumulator == old(self).accumulator,
            old(self).ffp <= final(self).ffp,
    {
        proof {
            vstd::std_specs::vec::axiom_spec_len(&self.source);
        }
        let cursor = match &self.cursor {
            Ok(c) => *c + 1,
            Err(_) => {
                return Err(Error::Overflow);
            },
        };
        if cursor > self.ffp {
            self.ffp = cursor;
        }
        self.cursor = Ok(cursor);
        proof {
            assert forall|i: int| 0 <= i < self.stack@.len() implies #[trigger] frame_wf(
                self.stack@[i],
                self.ffp,
            ) by {
                assert(frame_wf(self.stack@[i], old(self).ffp));
            }
            assert forall|k: (usize, usize)| #[trigger]
                memo_view(self.lrmemo@).contains_key(k) implies (memo_view(self.lrmemo@)[k].cursor
                matches Ok(c) ==> c <= self.ffp) by {
                assert(memo_view(old(self).lrmemo@).contains_key(k));
            }
        }
        Ok(())
    }

    /// The frame on top of the stack; `Overflow` when the stack is
    /// empty.
    pub fn stkpeek(&self) -> (r: Result<&StackFrame, Error>)
        ensures
            match r {
                Ok(f) => self.stack@.len() >= 1 && *f == self.stack@.last(),
                Err(e) => self.stack@.len() == 0 && e == Error::Overflow,
            },
    {
        let len = self.stack.len();
        if len < 1 {
            return Err(Error::Overflow);
        }
        Ok(&self.stack[len - 1])
    }

    /// Removes and returns the frame on top of the stack; `Overflow`
    /// when the stack is empty.
    pub fn stkpop(&mut self) -> (r: Result<StackFrame, Error>)
        requires
            old(self).wf(),
        ensures
            final(self).wf(),
            old(self).stack@.len() == 0 ==> (r matches Err(e) && e == Error::Overflow
                && final(self).stack@ == old(self).stack@),
            old(self).stack@.len() >= 1 ==> {
                &&& r matches Ok(f) && f == old(self).stack@.last()
                &&& final(self).stack@ == old(self).stack@.drop_last()
            },
            final(self).cursor == old(self).cursor,
            final(self).ffp == old(self).ffp,
            final(self).source == old(self).source,
            final(self).program == old(self).program,
            final(self).program_counter == old(self).program_counter,
            final(self).lrmemo == old(self).lrmemo,
            final(self).accumulator == old(self).accumulator,
    {
        match self.stack.pop() {
            Some(f) => {
                proof {
                    assert(self.stack@ =~= old(self).stack@.subrange(
                        0,
                        old(self).stack@.len() - 1,
                    ));
                    lemma_captures_wf_prefix(old(self).stack@, old(self).stack@.len() - 1);
                    assert forall|i: int| 0 <= i < self.stack@.len() implies #[trigger] frame_wf(
                        self.stack@[i],
                        self.ffp,
                    ) by {
                        assert(self.stack@[i] == old(self).stack@[i]);
                        assert(frame_wf(old(self).stack@[i], old(self).ffp));
                    }
                    assert forall|i: int| 0 <= i < self.stack@.len() implies #[trigger]
                        lr_frame_linked(self.stack@[i], memo_view(self.lrmemo@)) by {
                        assert(self.stack@[i] == old(self).stack@[i]);
                        assert(lr_frame_linked(old(self).stack@[i], memo_view(old(self).lrmemo@)));
                    }
                    assert forall|i: int, j: int|
                        0 <= i < j < self.stack@.len() && #[trigger] lr_key(self.stack@[i])
                            is Some implies lr_key(self.stack@[i]) != #[trigger] lr_key(
                        self.stack@[j],
                    ) by {
                        assert(self.stack@[i] == old(self).stack@[i]);
                        assert(self.stack@[j] == old(self).stack@[j]);
                    }
                }
                Ok(f)
            },
            None => Err(Error::Overflow),
        }
    }

    /// The number of values captured so far by the innermost call
    /// frame; zero when frames exist but none is a call frame, and a
    /// stack-underflow `Overflow` when the stack is empty.
    pub fn captured_len(&self) -> (r: Result<usize, Error>)
        ensures
            ({
                let p = innermost_call(self.stack@);
                if self.stack@.len() == 0 {
                    r matches Err(e) && e == Error::Overflow
                } else if p >= 0 {
                    r matches Ok(n) && n == self.stack@[p].captures@.len()
                } else {
                    r matches Ok(n) && n == 0
                }
            }),
    {
        if self.stack.len() == 0 {
            return Err(Error::Overflow);
        }
        let mut i: usize = self.stack.len();
        while i > 0
            invariant
                i <= self.stack@.len(),
                forall|k: int| i <= k < self.stack@.len() ==> self.stack@[k].ftype
                    == StackFrameType::Backtrack,
            decreases i,
        {
            if self.stack[i - 1].ftype == StackFrameType::Call {
                proof {
                    lemma_prev_call_skip_backtracks(self.stack@, i as int, self.stack@.len() as int);
                }
                return Ok(self.stack[i - 1].captures.len());
            }
            i -= 1;
        }
        proof {
            lemma_prev_call_skip_backtracks(self.stack@, 0, self.stack@.len() as int);
        }
        Ok(0)
    }

    /// Appends a value to the capture list of the innermost call
    /// frame, skipping backtrack frames; a no-op when no call frame is
    /// on the stack.
    pub fn capture(&mut self, v: Value) -> (r: Result<(), Error>)
        requires
            old(self).wf(),
        ensures
            final(self).wf(),
            r is Ok,
            capture_rel(*old(self), *final(self), v),
            final(self).program_counter == old(self).program_counter,
            final(self).accumulator == old(self).accumulator,
    {
        let ghost pre = *old(self);
        let mut i: usize = self.stack.len();
        while i > 0
            invariant
                i <= self.stack@.len(),
                forall|k: int| i <= k < self.stack@.len() ==> self.stack@[k].ftype
                    == StackFrameType::Backtrack,
                *self == pre,
                pre == *old(self),
            decreases i,
        {
            if self.stack[i - 1].ftype == StackFrameType::Call {
                proof {
                    lemma_prev_call_skip_backtracks(self.stack@, i as int, self.stack@.len() as int);
                    assert(innermost_call(self.stack@) == i - 1);
                }
                let p = i - 1;
                self.stack[p].captures.push(v);
                proof {
                    self.lemma_capture_push_wf(pre, p as int);
                }
                return Ok(());
            }
            i -= 1;
        }
        proof {
            lemma_prev_call_skip_backtracks(self.stack@, 0, self.stack@.len() as int);
        }
        Ok(())
    }

    /// After a capture-list push at call-frame index `p`, the machine
    /// invariant still holds.
    proof fn lemma_capture_push_wf(&self, pre: VM, p: int)
        requires
            pre.wf(),
            0 <= p < pre.stack@.len(),
            pre.stack@[p].ftype == StackFrameType::Call,
            self.stack@.len() == pre.stack@.len(),
            forall|i: int| 0 <= i < pre.stack@.len() && i != p ==> self.stack@[i] == pre.stack@[i],
            self.stack@[p].captures@.len() >= pre.stack@[p].captures@.len(),
            frames_eq_but_captures(self.stack@[p], pre.stack@[p]),
            self.cursor == pre.cursor,
            self.ffp == pre.ffp,
            self.source == pre.source,
            self.program == pre.program,
            self.program_counter == pre.program_counter,
            self.lrmemo == pre.lrmemo,
            self.accumulator == pre.accumulator,
        ensures
            self.wf(),
    {
        assert forall|i: int| 0 <= i < self.stack@.len() implies #[trigger] frame_wf(
            self.stack@[i],
            self.ffp,
        ) by {
            assert(frame_wf(pre.stack@[i], pre.ffp));
        }
        assert forall|i: int| 0 <= i < self.stack@.len() implies #[trigger] lr_frame_linked(
            self.stack@[i],
            memo_view(self.lrmemo@),
        ) by {
            assert(lr_frame_linked(pre.stack@[i], memo_view(pre.lrmemo@)));
            assert(lr_key(self.stack@[i]) == lr_key(pre.stack@[i]));
            assert(self.stack@[i].result == pre.stack@[i].result);
        }
        assert forall|i: int, j: int|
            0 <= i < j < self.stack@.len() && #[trigger] lr_key(self.stack@[i]) is Some implies
            lr_key(self.stack@[i]) != #[trigger] lr_key(self.stack@[j]) by {
            assert(lr_key(self.stack@[i]) == lr_key(pre.stack@[i]));
            assert(lr_key(self.stack@[j]) == lr_key(pre.stack@[j]));
        }
        assert forall|j: int|
            0 <= j < self.stack@.len() && self.stack@[j].ftype
                == StackFrameType::Backtrack implies #[trigger] backtrack_count_ok(
            self.stack@,
            j,
        ) by {
            lemma_prev_call_props(pre.stack@, j);
            lemma_prev_call_same_ftypes(self.stack@, pre.stack@, j);
            assert(backtrack_count_ok(pre.stack@, j));
            let q = prev_call(pre.stack@, j);
            if q >= 0 && q != p {
                assert(self.stack@[q] == pre.stack@[q]);
            }
        }
        assert forall|i: int, j: int|
            0 <= i < j < self.stack@.len() && self.stack@[i].ftype == StackFrameType::Backtrack
                && self.stack@[j].ftype == StackFrameType::Backtrack && #[trigger] prev_call(
            self.stack@,
            i,
        ) == #[trigger] prev_call(self.stack@, j) implies self.stack@[i].capture
            <= self.stack@[j].capture by {
            lemma_prev_call_same_ftypes(self.stack@, pre.stack@, i);
            lemma_prev_call_same_ftypes(self.stack@, pre.stack@, j);
            assert(self.stack@[i].capture == pre.stack@[i].capture);
            assert(self.stack@[j].capture == pre.stack@[j].capture);
        }
    }

    /// Discards values captured after a saved point: truncates the
    /// innermost call frame's capture list to `how_many` values.  The
    /// caller must know, from the saved-count discipline, that no
    /// remaining backtrack frame recorded a larger count.
    pub fn pop_captured(&mut self, how_many: usize)
        requires
            old(self).wf(),
            ({
                let p = innermost_call(old(self).stack@);
                forall|j: int|
                    0 <= j < old(self).stack@.len() && old(self).stack@[j].ftype
                        == StackFrameType::Backtrack && #[trigger] prev_call(old(self).stack@, j)
                        == p ==> old(self).stack@[j].capture <= how_many
            }),
        ensures
            final(self).wf(),
            ({
                let p = innermost_call(old(self).stack@);
                if p >= 0 {
                    &&& final(self).stack@.len() == old(self).stack@.len()
                    &&& (forall|i: int|
                        0 <= i < old(self).stack@.len() && i != p ==> final(self).stack@[i]
                            == old(self).stack@[i])
                    &&& final(self).stack@[p].captures@ == if how_many
                        <= old(self).stack@[p].captures@.len() {
                        old(self).stack@[p].captures@.subrange(0, how_many as int)
                    } else {
                        old(self).stack@[p].captures@
                    }
                    &&& frames_eq_but_captures(final(self).stack@[p], old(self).stack@[p])
                } else {
                    final(self).stack@ == old(self).stack@
                }
            }),
            final(self).cursor == old(self).cursor,
            final(self).ffp == old(self).ffp,
            final(self).source == old(self).source,
            final(self).program == old(self).program,
            final(self).program_counter == old(self).program_counter,
            final(self).lrmemo == old(self).lrmemo,
            final(self).accumulator == old(self).accumulator,
    {
        let ghost pre = *old(self);
        let mut i: usize = self.stack.len();
        while i > 0
            invariant
                i <= self.stack@.len(),
                forall|k: int| i <= k < self.stack@.len() ==> self.stack@[k].ftype
                    == StackFrameType::Backtrack,
                *self == pre,
                pre == *old(self),
            decreases i,
        {
            if self.stack[i - 1].ftype == StackFrameType::Call {
                proof {
                    lemma_prev_call_skip_backtracks(self.stack@, i as int, self.stack@.len() as int);
                    assert(innermost_call(self.stack@) == i - 1);
                }
                let p = i - 1;
                self.stack[p].captures.truncate(how_many);
                proof {
                    assert(self.stack@[p as int].captures@.len() >= how_many || self.stack@[
                        p as int
                    ].captures@ == pre.stack@[p as int].captures@);
                    self.lemma_pop_captured_wf(pre, p as int, how_many);
                }
                return ;
            }
            i -= 1;
        }
        proof {
            lemma_prev_call_skip_backtracks(self.stack@, 0, self.stack@.len() as int);
        }
    }

    /// After truncating the capture list at call-frame index `p` to a
    /// count no smaller than any remaining saved count, the machine
    /// invariant still holds.
    proof fn lemma_pop_captured_wf(&self, pre: VM, p: int, how_many: usize)
        requires
            pre.wf(),
            0 <= p < pre.stack@.len(),
            pre.stack@[p].ftype == StackFrameType::Call,
            innermost_call(pre.stack@) == p,
            forall|j: int|
                0 <= j < pre.stack@.len() && pre.stack@[j].ftype == StackFrameType::Backtrack
                    && #[trigger] prev_call(pre.stack@, j) == p ==> pre.stack@[j].capture
                    <= how_many,
            self.stack@.len() == pre.stack@.len(),
            forall|i: int| 0 <= i < pre.stack@.len() && i != p ==> self.stack@[i] == pre.stack@[i],
            self.stack@[p].captures@.len() >= how_many || self.stack@[p].captures@
                == pre.stack@[p].captures@,
            frames_eq_but_captures(self.stack@[p], pre.stack@[p]),
            self.cursor == pre.cursor,
            self.ffp == pre.ffp,
            self.source == pre.source,
            self.program == pre.program,
            self.program_counter == pre.program_counter,
            self.lrmemo == pre.lrmemo,
            self.accumulator == pre.accumulator,
        ensures
            self.wf(),
    {
        assert forall|i: int| 0 <= i < self.stack@.len() implies #[trigger] frame_wf(
            self.stack@[i],
            self.ffp,
        ) by {
            assert(frame_wf(pre.stack@[i], pre.ffp));
        }
        assert forall|i: int| 0 <= i < self.stack@.len() implies #[trigger] lr_frame_linked(
            self.stack@[i],
            memo_view(self.lrmemo@),
        ) by {
            assert(lr_frame_linked(pre.stack@[i], memo_view(pre.lrmemo@)));
            assert(lr_key(self.stack@[i]) == lr_key(pre.stack@[i]));
            assert(self.stack@[i].result == pre.stack@[i].result);
        }
        assert forall|i: int, j: int|
            0 <= i < j < self.stack@.len() && #[trigger] lr_key(self.stack@[i]) is Some implies
            lr_key(self.stack@[i]) != #[trigger] lr_key(self.stack@[j]) by {
            assert(lr_key(self.stack@[i]) == lr_key(pre.stack@[i]));
            assert(lr_key(self.stack@[j]) == lr_key(pre.stack@[j]));
        }
        assert forall|j: int|
            0 <= j < self.stack@.len() && self.stack@[j].ftype
                == StackFrameType::Backtrack implies #[trigger] backtrack_count_ok(
            self.stack@,
            j,
        ) by {
            lemma_prev_call_props(pre.stack@, j);
            lemma_prev_call_same_ftypes(self.stack@, pre.stack@, j);
            assert(backtrack_count_ok(pre.stack@, j));
            let q = prev_call(pre.stack@, j);
            if q >= 0 && q != p {
                assert(self.stack@[q] == pre.stack@[q]);
            }
        }
        assert forall|i: int, j: int|
            0 <= i < j < self.stack@.len() && self.stack@[i].ftype == StackFrameType::Backtrack
                && self.stack@[j].ftype == StackFrameType::Backtrack && #[trigger] prev_call(
            self.stack@,
            i,
        ) == #[trigger] prev_call(self.stack@, j) implies self.stack@[i].capture
            <= self.stack@[j].capture by {
            lemma_prev_call_same_ftypes(self.stack@, pre.stack@, i);
            lemma_prev_call_same_ftypes(self.stack@, pre.stack@, j);
            assert(self.stack@[i].capture == pre.stack@[i].capture);
            assert(self.stack@[j].capture == pre.stack@[j].capture);
        }
    }
}

/// The error that failure propagation records: the error already on
/// the cursor, or a plain `Fail` when the cursor is still a position.
pub open spec fn fail_err(pre_cursor: Result<usize, Error>) -> Error {
    match pre_cursor {
        Err(e) => e,
        Ok(_) => Error::Fail,
    }
}

/// Exactly what failure propagation does: pop frames down to the
/// topmost backtrack frame, restore the cursor and program counter it
/// saved, and truncate the enclosing call frame's captures to its
/// saved count; when no backtrack frame exists, empty the stack and
/// end the match with the recorded error on the cursor.
pub open spec fn fail_rel(pre: VM, post: VM, r: Result<(), Error>) -> bool {
    let err = fail_err(pre.cursor);
    let b = top_backtrack(pre.stack@);
    &&& post.ffp == pre.ffp
    &&& post.source == pre.source
    &&& post.program == pre.program
    &&& post.lrmemo == pre.lrmemo
    &&& post.accumulator == pre.accumulator
    &&& if b >= 0 {
        let f = pre.stack@[b];
        let p = prev_call(pre.stack@, b);
        &&& r is Ok
        &&& post.cursor == f.cursor
        &&& post.program_counter == f.program_counter
        &&& post.stack@.len() == b
        &&& (forall|i: int| 0 <= i < b && i != p ==> post.stack@[i] == pre.stack@[i])
        &&& (p >= 0 ==> frames_eq_but_captures(post.stack@[p], pre.stack@[p])
            && post.stack@[p].captures@ == if f.capture <= pre.stack@[p].captures@.len() {
            pre.stack@[p].captures@.subrange(0, f.capture as int)
        } else {
            pre.stack@[p].captures@
        })
    } else {
        &&& r matches Err(e) && e == err
        &&& post.cursor == Result::<usize, Error>::Err(err)
        &&& post.stack@.len() == 0
        &&& post.program_counter == pre.program_counter
    }
}

proof fn lemma_top_backtrack_skip_calls(s: Seq<StackFrame>, i: int, j: int)
    requires
        0 <= i <= j <= s.len(),
        forall|k: int| i <= k < j ==> s[k].ftype == StackFrameType::Call,
    ensures
        top_backtrack_from(s, j) == top_backtrack_from(s, i),
    decreases j - i,
{
    if i < j {
        lemma_top_backtrack_skip_calls(s, i, j - 1);
    }
}

impl VM {
    /// Failure propagation: records the current error, pops frames
    /// until a backtrack frame is found, restores the cursor and
    /// program counter it saved, and discards captures made since its
    /// choice point.  With no backtrack frame left, the match ends
    /// with the recorded error.  After a restoration the enclosing
    /// call frame holds exactly as many captures as the corresponding
    /// choice recorded.
    pub fn fail(&mut self) -> (r: Result<(), Error>)
        requires
            old(self).wf(),
        ensures
            final(self).wf(),
            fail_rel(*old(self), *final(self), r),
            r matches Err(e) ==> !(e is LeftRec) && !(e is Overflow),
            ({
                let b = top_backtrack(old(self).stack@);
                let p = prev_call(old(self).stack@, b);
                b >= 0 && p >= 0 ==> final(self).stack@[p].captures@.len() == old(
                    self,
                ).stack@[b].capture
            }),
    {
        let error = match &self.cursor {
            Err(e) => dup_error(e),
            Ok(_) => Error::Fail,
        };
        loop
            invariant
                self.wf(),
                self.stack@.len() <= old(self).stack@.len(),
                self.stack@ =~= old(self).stack@.subrange(0, self.stack@.len() as int),
                forall|k: int|
                    self.stack@.len() <= k < old(self).stack@.len() ==> old(self).stack@[k].ftype
                        == StackFrameType::Call,
                error == fail_err(old(self).cursor),
                self.cursor == old(self).cursor,
                self.ffp == old(self).ffp,
                self.source == old(self).source,
                self.program == old(self).program,
                self.program_counter == old(self).program_counter,
                self.lrmemo == old(self).lrmemo,
                self.accumulator == old(self).accumulator,
            decreases self.stack@.len(),
        {
            let ghost cur = *self;
            match self.stkpop() {
                Err(_) => {
                    proof {
                        lemma_top_backtrack_skip_calls(
                            old(self).stack@,
                            0,
                            old(self).stack@.len() as int,
                        );
                    }
                    self.cursor = Err(dup_error(&error));
                    return Err(error);
                },
                Ok(f) => {
                    let ghost b = cur.stack@.len() - 1;
                    proof {
                        assert(cur.stack@.last() == old(self).stack@[b]);
                    }
                    if f.ftype == StackFrameType::Backtrack {
                        proof {
                            lemma_top_backtrack_skip_calls(
                                old(self).stack@,
                                b + 1,
                                old(self).stack@.len() as int,
                            );
                            assert(top_backtrack(old(self).stack@) == b);
                        }
                        self.program_counter = f.program_counter;
                        match f.cursor {
                            Ok(saved) => {
                                proof {
                                    assert(frame_wf(old(self).stack@[b], old(self).ffp));
                                }
                                self.cursor = Ok(saved);
                            },
                            Err(_) => {
                                proof {
                                    assert(frame_wf(old(self).stack@[b], old(self).ffp));
                                    assert(false);
                                }
                                return Err(Error::Overflow);
                            },
                        }
                        proof {
                            lemma_prev_call_prefix(self.stack@, old(self).stack@, b as int);
                            lemma_prev_call_props(old(self).stack@, b as int);
                            let p = prev_call(old(self).stack@, b as int);
                            assert(innermost_call(self.stack@) == p);
                            assert forall|j: int|
                                0 <= j < self.stack@.len() && self.stack@[j].ftype
                                    == StackFrameType::Backtrack && #[trigger] prev_call(
                                self.stack@,
                                j,
                            ) == innermost_call(self.stack@) implies self.stack@[j].capture
                                <= f.capture by {
                                lemma_prev_call_prefix(self.stack@, old(self).stack@, j);
                                assert(old(self).stack@[j].ftype == StackFrameType::Backtrack);
                                assert(old(self).stack@[b].ftype == StackFrameType::Backtrack);
                                assert(prev_call(old(self).stack@, j) == prev_call(
                                    old(self).stack@,
                                    b as int,
                                ));
                            }
                            if p >= 0 {
                                assert(backtrack_count_ok(old(self).stack@, b as int));
                                assert(old(self).stack@[b].capture <= old(
                                    self,
                                ).stack@[p].captures@.len());
                            }
                        }
                        self.pop_captured(f.capture);
                        return Ok(());
                    }
                },
            }
        }
    }
}

/// Exactly what a call instruction does.  With precedence zero it
/// pushes an ordinary call frame and jumps to the callee.  With a
/// positive precedence it consults the memo: on a miss it pushes a
/// left-recursive call frame, seeds the memo with the `LeftRec`
/// sentinel and enters the callee; on an entry still carrying the
/// sentinel, or one whose precedence exceeds the call's, it fails; on
/// a settled entry it takes the memoized cursor and steps over the
/// call.
pub open spec fn inst_call_rel(
    pre: VM,
    post: VM,
    address: usize,
    precedence: usize,
    r: Result<(), Error>,
) -> bool {
    let c = pre.cursor->Ok_0;
    let key = (address, c);
    let m = memo_view(pre.lrmemo@);
    if precedence == 0 {
        &&& r is Ok
        &&& post.stack@.len() == pre.stack@.len() + 1
        &&& (forall|i: int| 0 <= i < pre.stack@.len() ==> post.stack@[i] == pre.stack@[i])
        &&& post.stack@.last().ftype == StackFrameType::Call
        &&& post.stack@.last().program_counter == pre.program_counter + 1
        &&& post.stack@.last().address == address
        &&& post.stack@.last().precedence == 0
        &&& post.stack@.last().cursor is Err
        &&& post.stack@.last().captures@.len() == 0
        &&& post.program_counter == address
        &&& post.cursor == pre.cursor
        &&& post.lrmemo == pre.lrmemo
        &&& post.accumulator == pre.accumulator
        &&& same_ctx(pre, post)
    } else if !m.contains_key(key) {
        &&& r is Ok
        &&& post.stack@.len() == pre.stack@.len() + 1
        &&& (forall|i: int| 0 <= i < pre.stack@.len() ==> post.stack@[i] == pre.stack@[i])
        &&& post.stack@.last().ftype == StackFrameType::Call
        &&& post.stack@.last().program_counter == pre.program_counter + 1
        &&& post.stack@.last().address == address
        &&& post.stack@.last().precedence == precedence
        &&& post.stack@.last().cursor == Result::<usize, Error>::Ok(c)
        &&& post.stack@.last().result == Result::<usize, Error>::Err(Error::LeftRec)
        &&& post.stack@.last().captures@.len() == 0
        &&& post.program_counter == address
        &&& post.cursor == pre.cursor
        &&& memo_view(post.lrmemo@) == m.insert(
            key,
            LeftRecTableEntry {
                cursor: Result::<usize, Error>::Err(Error::LeftRec),
                precedence: precedence,
                bound: 0,
            },
        )
        &&& post.accumulator == pre.accumulator
        &&& same_ctx(pre, post)
    } else if m[key].cursor is Err || precedence < m[key].precedence {
        fail_rel(pre, post, r)
    } else {
        &&& r is Ok
        &&& post.cursor == Result::<usize, Error>::Ok(m[key].cursor->Ok_0)
        &&& post.program_counter == pre.program_counter + 1
        &&& post.stack@ == pre.stack@
        &&& post.lrmemo == pre.lrmemo
        &&& post.accumulator == pre.accumulator
        &&& same_ctx(pre, post)
    }
}

/// The parts of the machine no call or return step ever touches:
/// the input, the program, and the farthest failure position is never
/// reduced.
pub open spec fn same_ctx(pre: VM, post: VM) -> bool {
    &&& post.source == pre.source
    &&& post.program == pre.program
    &&& post.ffp == pre.ffp
}

/// The two frames agree on every field except the capture list.
pub open spec fn frames_eq_but_captures(f1: StackFrame, f2: StackFrame) -> bool {
    &&& f1.ftype == f2.ftype
    &&& f1.program_counter == f2.program_counter
    &&& f1.cursor == f2.cursor
    &&& f1.result == f2.result
    &&& f1.address == f2.address
    &&& f1.precedence == f2.precedence
    &&& f1.capture == f2.capture
}

impl VM {
    /// The index of the memo row for `(address, cursor)`, if the
    /// table holds one.
    fn memo_find(&self, address: usize, cursor: usize) -> (r: Option<usize>)
        requires
            memo_keys_unique(self.lrmemo@),
        ensures
            match r {
                Some(i) => i < self.lrmemo@.len() && memo_key(self.lrmemo@[i as int]) == (
                    address,
                    cursor,
                ) && memo_view(self.lrmemo@).contains_key((address, cursor)) && memo_view(
                    self.lrmemo@,
                )[(address, cursor)] == self.lrmemo@[i as int].2,
                None => !memo_view(self.lrmemo@).contains_key((address, cursor)),
            },
    {
        let mut i: usize = 0;
        while i < self.lrmemo.len()
            invariant
                i <= self.lrmemo@.len(),
                forall|k: int| 0 <= k < i ==> #[trigger] memo_key(self.lrmemo@[k]) != (
                    address,
                    cursor,
                ),
            decreases self.lrmemo@.len() - i,
        {
            if self.lrmemo[i].0 == address && self.lrmemo[i].1 == cursor {
                proof {
                    lemma_memo_view_at(self.lrmemo@, i as int);
                }
                return Some(i);
            }
            i += 1;
        }
        proof {
            lemma_memo_view_contains(self.lrmemo@, (address, cursor));
        }
        None
    }

    /// A call instruction: an ordinary call pushes a call frame and
    /// enters the callee; a left-recursive call goes through the memo
    /// table, seeding it on the first visit, failing while the seed is
    /// unsettled or the precedence is too low, and reusing the settled
    /// seed otherwise.  The memo table only ever grows forward.
    pub fn inst_call(&mut self, address: usize, precedence: usize) -> (r: Result<(), Error>)
        requires
            old(self).wf(),
            old(self).cursor is Ok,
            old(self).program_counter < old(self).program.code@.len(),
        ensures
            final(self).wf(),
            memo_extends(memo_view(old(self).lrmemo@), memo_view(final(self).lrmemo@)),
            inst_call_rel(*old(self), *final(self), address, precedence, r),
    {
        let code_len = self.program.code.len();
        assert(self.program_counter < code_len);
        let cursor = match &self.cursor {
            Ok(c) => *c,
            Err(e) => {
                return Err(dup_error(e));
            },
        };
        if precedence == 0 {
            self.stack.push(StackFrame::new_call(self.program_counter + 1, address, precedence));
            self.program_counter = address;
            proof {
                self.lemma_push_wf(*old(self));
            }
            return Ok(());
        }
        match self.memo_find(address, cursor) {
            None => {
                self.stack.push(
                    StackFrame::new_lrcall(cursor, self.program_counter + 1, address, precedence),
                );
                self.program_counter = address;
                let entry = LeftRecTableEntry {
                    cursor: Err(Error::LeftRec),
                    precedence: precedence,
                    bound: 0,
                };
                self.lrmemo.push((address, cursor, entry));
                proof {
                    self.lemma_lr_push_wf(*old(self), address, cursor, precedence);
                }
                Ok(())
            },
            Some(i) => {
                let hit = match &self.lrmemo[i].2.cursor {
                    Err(_) => None,
                    Ok(cp) => {
                        if precedence < self.lrmemo[i].2.precedence {
                            None
                        } else {
                            Some(*cp)
                        }
                    },
                };
                match hit {
                    None => {
                        let r = self.fail();
                        proof {
                            lemma_memo_extends_refl(memo_view(self.lrmemo@));
                        }
                        r
                    },
                    Some(cp) => {
                        proof {
                            let key = (address, cursor);
                            assert(memo_view(self.lrmemo@).contains_key(key));
                            assert(memo_view(self.lrmemo@)[key].cursor matches Ok(c) ==> c
                                <= self.ffp);
                        }
                        self.cursor = Ok(cp);
                        self.program_counter = self.program_counter + 1;
                        proof {
                            lemma_memo_extends_refl(memo_view(self.lrmemo@));
                        }
                        Ok(())
                    },
                }
            },
        }
    }

    /// After pushing an ordinary call frame, the machine invariant
    /// still holds.
    proof fn lemma_push_wf(&self, pre: VM)
        requires
            pre.wf(),
            self.stack@.len() == pre.stack@.len() + 1,
            forall|i: int| 0 <= i < pre.stack@.len() ==> self.stack@[i] == pre.stack@[i],
            self.stack@.last().ftype == StackFrameType::Call,
            self.stack@.last().cursor is Err,
            self.stack@.last().result is Err,
            self.stack@.last().precedence == 0,
            self.cursor == pre.cursor,
            self.ffp == pre.ffp,
            self.source == pre.source,
            self.program == pre.program,
            self.lrmemo == pre.lrmemo,
            self.accumulator == pre.accumulator,
        ensures
            self.wf(),
    {
        let n = pre.stack@.len() as int;
        assert forall|i: int| 0 <= i < self.stack@.len() implies #[trigger] frame_wf(
            self.stack@[i],
            self.ffp,
        ) by {
            if i < n {
                assert(frame_wf(pre.stack@[i], pre.ffp));
            }
        }
        assert forall|i: int| 0 <= i < self.stack@.len() implies #[trigger] lr_frame_linked(
            self.stack@[i],
            memo_view(self.lrmemo@),
        ) by {
            if i < n {
                assert(lr_frame_linked(pre.stack@[i], memo_view(pre.lrmemo@)));
            } else {
                assert(lr_key(self.stack@[i]) is None);
            }
        }
        assert forall|i: int, j: int|
            0 <= i < j < self.stack@.len() && #[trigger] lr_key(self.stack@[i]) is Some implies
            lr_key(self.stack@[i]) != #[trigger] lr_key(self.stack@[j]) by {
            if j < n {
                assert(lr_key(self.stack@[i]) == lr_key(pre.stack@[i]));
                assert(lr_key(self.stack@[j]) == lr_key(pre.stack@[j]));
            } else {
                assert(lr_key(self.stack@[j]) is None);
            }
        }
        assert forall|j: int|
            0 <= j < self.stack@.len() && self.stack@[j].ftype
                == StackFrameType::Backtrack implies #[trigger] backtrack_count_ok(
            self.stack@,
            j,
        ) by {
            lemma_prev_call_prefix(pre.stack@, self.stack@, j);
            lemma_prev_call_props(pre.stack@, j);
            assert(backtrack_count_ok(pre.stack@, j));
        }
        assert forall|i: int, j: int|
            0 <= i < j < self.stack@.len() && self.stack@[i].ftype == StackFrameType::Backtrack
                && self.stack@[j].ftype == StackFrameType::Backtrack && #[trigger] prev_call(
            self.stack@,
            i,
        ) == #[trigger] prev_call(self.stack@, j) implies self.stack@[i].capture
            <= self.stack@[j].capture by {
            lemma_prev_call_prefix(pre.stack@, self.stack@, i);
            lemma_prev_call_prefix(pre.stack@, self.stack@, j);
        }
    }

    /// After pushing a left-recursive call frame and seeding the memo
    /// with the `LeftRec` sentinel under a fresh key, the machine
    /// invariant still holds.
    proof fn lemma_lr_push_wf(&self, pre: VM, address: usize, cursor: usize, precedence: usize)
        requires
            pre.wf(),
            pre.cursor == Result::<usize, Error>::Ok(cursor),
            !memo_view(pre.lrmemo@).contains_key((address, cursor)),
            self.stack@.len() == pre.stack@.len() + 1,
            forall|i: int| 0 <= i < pre.stack@.len() ==> self.stack@[i] == pre.stack@[i],
            self.stack@.last().ftype == StackFrameType::Call,
            self.stack@.last().cursor == Result::<usize, Error>::Ok(cursor),
            self.stack@.last().result == Result::<usize, Error>::Err(Error::LeftRec),
            self.stack@.last().address == address,
            self.stack@.last().precedence == precedence,
            self.lrmemo@ == pre.lrmemo@.push(
                (
                    address,
                    cursor,
                    LeftRecTableEntry {
                        cursor: Result::<usize, Error>::Err(Error::LeftRec),
                        precedence: precedence,
                        bound: 0,
                    },
                ),
            ),
            self.cursor == pre.cursor,
            self.ffp == pre.ffp,
            self.source == pre.source,
            self.program == pre.program,
            self.accumulator == pre.accumulator,
        ensures
            self.wf(),
            memo_view(self.lrmemo@) == memo_view(pre.lrmemo@).insert(
                (address, cursor),
                LeftRecTableEntry {
                    cursor: Result::<usize, Error>::Err(Error::LeftRec),
                    precedence: precedence,
                    bound: 0,
                },
            ),
            memo_extends(memo_view(pre.lrmemo@), memo_view(self.lrmemo@)),
    {
        let n = pre.stack@.len() as int;
        let key = (address, cursor);
        let entry = LeftRecTableEntry {
            cursor: Result::<usize, Error>::Err(Error::LeftRec),
            precedence: precedence,
            bound: 0,
        };
        assert(self.lrmemo@.drop_last() =~= pre.lrmemo@);
        assert(memo_view(self.lrmemo@) == memo_view(pre.lrmemo@).insert(key, entry));
        lemma_memo_view_contains(pre.lrmemo@, key);
        assert forall|i: int, j: int| 0 <= i < j < self.lrmemo@.len() implies #[trigger] memo_key(
            self.lrmemo@[i],
        ) != #[trigger] memo_key(self.lrmemo@[j]) by {
            if j < pre.lrmemo@.len() {
                assert(memo_key(pre.lrmemo@[i]) != memo_key(pre.lrmemo@[j]));
            } else {
                assert(memo_key(self.lrmemo@[j]) == key);
            }
        }
        assert forall|i: int| 0 <= i < self.stack@.len() implies #[trigger] frame_wf(
            self.stack@[i],
            self.ffp,
        ) by {
            if i < n {
                assert(frame_wf(pre.stack@[i], pre.ffp));
            }
        }
        assert forall|i: int| 0 <= i < self.stack@.len() implies #[trigger] lr_frame_linked(
            self.stack@[i],
            memo_view(self.lrmemo@),
        ) by {
            if i < n {
                assert(lr_frame_linked(pre.stack@[i], memo_view(pre.lrmemo@)));
                match lr_key(pre.stack@[i]) {
                    Some(k0) => {
                        assert(k0 != key);
                    },
                    None => {},
                }
            }
        }
        assert forall|i: int, j: int|
            0 <= i < j < self.stack@.len() && #[trigger] lr_key(self.stack@[i]) is Some implies
            lr_key(self.stack@[i]) != #[trigger] lr_key(self.stack@[j]) by {
            if j < n {
                assert(lr_key(self.stack@[i]) == lr_key(pre.stack@[i]));
                assert(lr_key(self.stack@[j]) == lr_key(pre.stack@[j]));
            } else {
                assert(lr_key(self.stack@[j]) == Some::<(usize, usize)>(key));
                assert(lr_frame_linked(pre.stack@[i], memo_view(pre.lrmemo@)));
            }
        }
        assert forall|j: int|
            0 <= j < self.stack@.len() && self.stack@[j].ftype
                == StackFrameType::Backtrack implies #[trigger] backtrack_count_ok(
            self.stack@,
            j,
        ) by {
            lemma_prev_call_prefix(pre.stack@, self.stack@, j);
            lemma_prev_call_props(pre.stack@, j);
            assert(backtrack_count_ok(pre.stack@, j));
        }
        assert forall|i: int, j: int|
            0 <= i < j < self.stack@.len() && self.stack@[i].ftype == StackFrameType::Backtrack
                && self.stack@[j].ftype == StackFrameType::Backtrack && #[trigger] prev_call(
            self.stack@,
            i,
        ) == #[trigger] prev_call(self.stack@, j) implies self.stack@[i].capture
            <= self.stack@[j].capture by {
            lemma_prev_call_prefix(pre.stack@, self.stack@, i);
            lemma_prev_call_prefix(pre.stack@, self.stack@, j);
        }
    }
}

/// The two frames agree on every field except the seed result.
pub open spec fn frames_eq_but_result(f1: StackFrame, f2: StackFrame) -> bool {
    &&& f1.ftype == f2.ftype
    &&& f1.program_counter == f2.program_counter
    &&& f1.cursor == f2.cursor
    &&& f1.address == f2.address
    &&& f1.precedence == f2.precedence
    &&& f1.capture == f2.capture
    &&& f1.captures == f2.captures
}

/// The growth bound after one more completed iteration.
pub open spec fn grow_bound(b: usize) -> usize {
    if b == usize::MAX {
        b
    } else {
        (b + 1) as usize
    }
}

/// The accumulator holds the node a return synthesizes from a call
/// frame: labeled with the production's stored name (or the empty
/// string) and carrying the frame's captures, in order, as children.
pub open spec fn acc_is_node(acc: Option<Value>, program: Program, f: StackFrame) -> bool {
    &&& acc matches Some(v) && v matches Value::Node { name, children } && children@ == f.captures@
        && name@ == match name_lookup(program.names@, f.address) {
        Some(s) => s,
        None => Seq::<char>::empty(),
    }
}

/// Exactly what a return instruction does.  From an ordinary call
/// frame it pops the frame, returns to the saved address and places
/// the synthesized node in the accumulator.  From a left-recursive
/// call frame it either grows the seed - storing the new cursor in
/// frame and memo, rewinding the cursor to the entry position and
/// re-entering the production - or, when no progress was made, pops
/// the frame, settles the cursor at the seed result and synthesizes
/// the node.  A return with no call frame on top is a malformed
/// program.
pub open spec fn inst_return_rel(pre: VM, post: VM, r: Result<(), Error>) -> bool {
    let c = pre.cursor->Ok_0;
    if pre.stack@.len() == 0 {
        r matches Err(e) && e == Error::Overflow && post == pre
    } else {
        let f = pre.stack@.last();
        if f.ftype == StackFrameType::Backtrack {
            r matches Err(e) && e == Error::Overflow && post == pre
        } else if f.precedence == 0 {
            &&& r is Ok
            &&& post.stack@ == pre.stack@.drop_last()
            &&& post.program_counter == f.program_counter
            &&& post.cursor == pre.cursor
            &&& acc_is_node(post.accumulator, pre.program, f)
            &&& post.lrmemo == pre.lrmemo
            &&& same_ctx(pre, post)
        } else {
            let grown = f.result is Err || c > f.result->Ok_0;
            let ec = f.cursor->Ok_0;
            let key = (f.address, ec);
            if grown {
                &&& r is Ok
                &&& post.stack@.len() == pre.stack@.len()
                &&& (forall|i: int|
                    0 <= i < pre.stack@.len() - 1 ==> post.stack@[i] == pre.stack@[i])
                &&& frames_eq_but_result(post.stack@.last(), f)
                &&& post.stack@.last().result == Result::<usize, Error>::Ok(c)
                &&& post.cursor == Result::<usize, Error>::Ok(ec)
                &&& post.program_counter == f.address
                &&& post.accumulator == pre.accumulator
                &&& memo_view(post.lrmemo@) == memo_view(pre.lrmemo@).insert(
                    key,
                    LeftRecTableEntry {
                        cursor: Result::<usize, Error>::Ok(c),
                        precedence: memo_view(pre.lrmemo@)[key].precedence,
                        bound: grow_bound(memo_view(pre.lrmemo@)[key].bound),
                    },
                )
                &&& same_ctx(pre, post)
            } else {
                &&& r is Ok
                &&& post.stack@ == pre.stack@.drop_last()
                &&& post.cursor == f.result
                &&& post.program_counter == f.program_counter
                &&& acc_is_node(post.accumulator, pre.program, f)
                &&& post.lrmemo == pre.lrmemo
                &&& same_ctx(pre, post)
            }
        }
    }
}

impl VM {
    /// A return instruction: pops the innermost call frame and
    /// synthesizes its node, or grows a left-recursive seed and
    /// re-enters the production.
    pub fn inst_return(&mut self) -> (r: Result<(), Error>)
        requires
            old(self).wf(),
            old(self).cursor is Ok,
        ensures
            final(self).wf(),
            memo_extends(memo_view(old(self).lrmemo@), memo_view(final(self).lrmemo@)),
            inst_return_rel(*old(self), *final(self), r),
    {
        proof {
            lemma_memo_extends_refl(memo_view(self.lrmemo@));
        }
        let len = self.stack.len();
        if len == 0 {
            return Err(Error::Overflow);
        }
        if self.stack[len - 1].ftype == StackFrameType::Backtrack {
            return Err(Error::Overflow);
        }
        let cursor = match &self.cursor {
            Ok(c) => *c,
            Err(_) => {
                proof {
                    assert(false);
                }
                return Err(Error::Overflow);
            },
        };
        if self.stack[len - 1].precedence == 0 {
            let f = match self.stkpop() {
                Ok(f) => f,
                Err(e) => {
                    return Err(e);
                },
            };
            self.program_counter = f.program_counter;
            let name = self.program.name_at(f.address);
            self.accumulator = Some(Value::Node { name: name, children: f.captures });
            return Ok(());
        }
        let grown = match &self.stack[len - 1].result {
            Err(_) => true,
            Ok(rv) => cursor > *rv,
        };
        if grown {
            let address = self.stack[len - 1].address;
            let ec = match &self.stack[len - 1].cursor {
                Ok(e) => *e,
                Err(_) => {
                    proof {
                        assert(frame_wf(self.stack@[len - 1], self.ffp));
                        assert(false);
                    }
                    return Err(Error::Overflow);
                },
            };
            let idx = match self.memo_find(address, ec) {
                Some(i) => i,
                None => {
                    proof {
                        assert(lr_frame_linked(self.stack@[len - 1], memo_view(self.lrmemo@)));
                        assert(false);
                    }
                    return Err(Error::Overflow);
                },
            };
            let ob = self.lrmemo[idx].2.bound;
            let nb = if ob == usize::MAX {
                ob
            } else {
                ob + 1
            };
            let eprec = self.lrmemo[idx].2.precedence;
            let ghost pre = *self;
            self.stack[len - 1].result = Ok(cursor);
            self.lrmemo[idx] = (
                address,
                ec,
                LeftRecTableEntry { cursor: Ok(cursor), precedence: eprec, bound: nb },
            );
            self.cursor = Ok(ec);
            self.program_counter = address;
            proof {
                self.lemma_lr_grow_wf(pre, len - 1, idx as int, cursor);
            }
            Ok(())
        } else {
            let f = match self.stkpop() {
                Ok(f) => f,
                Err(e) => {
                    return Err(e);
                },
            };
            self.program_counter = f.program_counter;
            match f.result {
                Ok(rv) => {
                    proof {
                        assert(frame_wf(old(self).stack@.last(), old(self).ffp));
                    }
                    self.cursor = Ok(rv);
                },
                Err(_) => {
                    proof {
                        assert(false);
                    }
                    return Err(Error::Overflow);
                },
            }
            let name = self.program.name_at(f.address);
            self.accumulator = Some(Value::Node { name: name, children: f.captures });
            Ok(())
        }
    }

    /// After one growth step of a left-recursive seed - the top
    /// frame's result and the memo entry both advanced to the current
    /// cursor, the machine cursor rewound to the entry position - the
    /// machine invariant still holds and the memo has only advanced.
    proof fn lemma_lr_grow_wf(&self, pre: VM, top: int, idx: int, c: usize)
        requires
            pre.wf(),
            pre.cursor == Result::<usize, Error>::Ok(c),
            0 <= top == pre.stack@.len() - 1,
            0 <= idx < pre.lrmemo@.len(),
            pre.stack@[top].ftype == StackFrameType::Call,
            pre.stack@[top].precedence > 0,
            pre.stack@[top].result is Err || c > pre.stack@[top].result->Ok_0,
            memo_key(pre.lrmemo@[idx]) == (pre.stack@[top].address, pre.stack@[top].cursor->Ok_0),
            pre.stack@[top].cursor is Ok,
            self.stack@.len() == pre.stack@.len(),
            forall|i: int| 0 <= i < top ==> self.stack@[i] == pre.stack@[i],
            frames_eq_but_result(self.stack@[top], pre.stack@[top]),
            self.stack@[top].result == Result::<usize, Error>::Ok(c),
            self.lrmemo@ == pre.lrmemo@.update(
                idx,
                (
                    pre.lrmemo@[idx].0,
                    pre.lrmemo@[idx].1,
                    LeftRecTableEntry {
                        cursor: Result::<usize, Error>::Ok(c),
                        precedence: pre.lrmemo@[idx].2.precedence,
                        bound: grow_bound(pre.lrmemo@[idx].2.bound),
                    },
                ),
            ),
            self.cursor == pre.stack@[top].cursor,
            self.ffp == pre.ffp,
            self.source == pre.source,
            self.program == pre.program,
            self.accumulator == pre.accumulator,
        ensures
            self.wf(),
            memo_extends(memo_view(pre.lrmemo@), memo_view(self.lrmemo@)),
            memo_view(self.lrmemo@) == memo_view(pre.lrmemo@).insert(
                memo_key(pre.lrmemo@[idx]),
                LeftRecTableEntry {
                    cursor: Result::<usize, Error>::Ok(c),
                    precedence: memo_view(pre.lrmemo@)[memo_key(pre.lrmemo@[idx])].precedence,
                    bound: grow_bound(memo_view(pre.lrmemo@)[memo_key(pre.lrmemo@[idx])].bound),
                },
            ),
    {
        let key = memo_key(pre.lrmemo@[idx]);
        let newe = LeftRecTableEntry {
            cursor: Result::<usize, Error>::Ok(c),
            precedence: pre.lrmemo@[idx].2.precedence,
            bound: grow_bound(pre.lrmemo@[idx].2.bound),
        };
        lemma_memo_view_at(pre.lrmemo@, idx);
        lemma_memo_view_update(pre.lrmemo@, idx, newe);
        assert(frame_wf(pre.stack@[top], pre.ffp));
        assert(lr_frame_linked(pre.stack@[top], memo_view(pre.lrmemo@)));
        assert(memo_view(pre.lrmemo@)[key].cursor == pre.stack@[top].result);
        assert forall|k: (usize, usize)| #[trigger]
            memo_view(pre.lrmemo@).contains_key(k) implies memo_view(self.lrmemo@).contains_key(k)
            && entry_le(memo_view(pre.lrmemo@)[k], memo_view(self.lrmemo@)[k]) by {
            if k != key {
                assert(memo_view(self.lrmemo@)[k] == memo_view(pre.lrmemo@)[k]);
            } else {
                assert(memo_view(pre.lrmemo@)[key].cursor == pre.stack@[top].result);
                assert(memo_view(self.lrmemo@)[key] == newe);
            }
        }
        assert forall|k: (usize, usize)| #[trigger]
            memo_view(self.lrmemo@).contains_key(k) implies (memo_view(self.lrmemo@)[k].cursor
            matches Ok(cv) ==> cv <= self.ffp) by {
            if k == key {
                assert(memo_view(self.lrmemo@)[key] == newe);
            } else {
                assert(memo_view(pre.lrmemo@).contains_key(k));
                assert(memo_view(self.lrmemo@)[k] == memo_view(pre.lrmemo@)[k]);
            }
        }
        assert forall|i: int| 0 <= i < self.stack@.len() implies #[trigger] frame_wf(
            self.stack@[i],
            self.ffp,
        ) by {
            assert(frame_wf(pre.stack@[i], pre.ffp));
            if i == top {
                assert(pre.cursor->Ok_0 <= pre.ffp);
            }
        }
        assert forall|i: int| 0 <= i < self.stack@.len() implies #[trigger] lr_frame_linked(
            self.stack@[i],
            memo_view(self.lrmemo@),
        ) by {
            assert(lr_frame_linked(pre.stack@[i], memo_view(pre.lrmemo@)));
            assert(lr_key(self.stack@[i]) == lr_key(pre.stack@[i]));
            if i != top {
                match lr_key(pre.stack@[i]) {
                    Some(k0) => {
                        assert(lr_key(pre.stack@[top]) == Some::<(usize, usize)>(key));
                        if i < top {
                            assert(lr_key(pre.stack@[i]) != lr_key(pre.stack@[top]));
                        }
                        assert(k0 != key);
                        assert(memo_view(self.lrmemo@)[k0] == memo_view(pre.lrmemo@)[k0]);
                    },
                    None => {},
                }
            }
        }
        assert forall|i: int, j: int|
            0 <= i < j < self.stack@.len() && #[trigger] lr_key(self.stack@[i]) is Some implies
            lr_key(self.stack@[i]) != #[trigger] lr_key(self.stack@[j]) by {
            assert(lr_key(self.stack@[i]) == lr_key(pre.stack@[i]));
            assert(lr_key(self.stack@[j]) == lr_key(pre.stack@[j]));
        }
        assert forall|j: int|
            0 <= j < self.stack@.len() && self.stack@[j].ftype
                == StackFrameType::Backtrack implies #[trigger] backtrack_count_ok(
            self.stack@,
            j,
        ) by {
            lemma_prev_call_props(pre.stack@, j);
            lemma_prev_call_same_ftypes(self.stack@, pre.stack@, j);
            assert(backtrack_count_ok(pre.stack@, j));
            let q = prev_call(pre.stack@, j);
            if q >= 0 && q != top {
                assert(self.stack@[q] == pre.stack@[q]);
            }
        }
        assert forall|i: int, j: int|
            0 <= i < j < self.stack@.len() && self.stack@[i].ftype == StackFrameType::Backtrack
                && self.stack@[j].ftype == StackFrameType::Backtrack && #[trigger] prev_call(
            self.stack@,
            i,
        ) == #[trigger] prev_call(self.stack@, j) implies self.stack@[i].capture
            <= self.stack@[j].capture by {
            lemma_prev_call_same_ftypes(self.stack@, pre.stack@, i);
            lemma_prev_call_same_ftypes(self.stack@, pre.stack@, j);
            assert(self.stack@[i].capture == pre.stack@[i].capture);
            assert(self.stack@[j].capture == pre.stack@[j].capture);
        }
    }
}

/// Idempotence of a memo hit: a call with positive precedence that
/// finds a settled memo entry leaves the memo table untouched, so two
/// consecutive calls to the same address at the same cursor advance
/// the cursor to the same memoized position.
pub proof fn lemma_memo_hit_idempotent(
    pre1: VM,
    post1: VM,
    r1: Result<(), Error>,
    pre2: VM,
    post2: VM,
    r2: Result<(), Error>,
    address: usize,
    precedence: usize,
)
    requires
        inst_call_rel(pre1, post1, address, precedence, r1),
        inst_call_rel(pre2, post2, address, precedence, r2),
        pre1.cursor is Ok,
        pre1.cursor == pre2.cursor,
        memo_view(pre1.lrmemo@) == memo_view(pre2.lrmemo@),
        precedence > 0,
        memo_view(pre1.lrmemo@).contains_key((address, pre1.cursor->Ok_0)),
        memo_view(pre1.lrmemo@)[(address, pre1.cursor->Ok_0)].cursor is Ok,
        precedence >= memo_view(pre1.lrmemo@)[(address, pre1.cursor->Ok_0)].precedence,
    ensures
        r1 is Ok,
        r2 is Ok,
        post1.cursor == post2.cursor,
        post1.cursor == Result::<usize, Error>::Ok(
            memo_view(pre1.lrmemo@)[(address, pre1.cursor->Ok_0)].cursor->Ok_0,
        ),
        memo_view(post1.lrmemo@) == memo_view(pre1.lrmemo@),
        post1.stack@ == pre1.stack@,
{
}


/// Exactly what a capture append does: the value joins the innermost
/// call frame's capture list, skipping backtrack frames; with no call
/// frame on the stack the value is dropped.  Cursor, farthest failure
/// position, memo, input and program are untouched.
pub open spec fn capture_rel(pre: VM, post: VM, v: Value) -> bool {
    let p = innermost_call(pre.stack@);
    &&& if p >= 0 {
        &&& post.stack@.len() == pre.stack@.len()
        &&& (forall|i: int|
            0 <= i < pre.stack@.len() && i != p ==> post.stack@[i] == pre.stack@[i])
        &&& post.stack@[p].captures@ == pre.stack@[p].captures@.push(v)
        &&& frames_eq_but_captures(post.stack@[p], pre.stack@[p])
    } else {
        post.stack@ == pre.stack@
    }
    &&& post.cursor == pre.cursor
    &&& post.ffp == pre.ffp
    &&& post.source == pre.source
    &&& post.program == pre.program
    &&& post.lrmemo == pre.lrmemo
}

/// The parts of the machine that reading a code point never touches.
pub open spec fn same_frame_state(pre: VM, post: VM) -> bool {
    &&& post.stack@ == pre.stack@
    &&& post.lrmemo == pre.lrmemo
    &&& post.source == pre.source
    &&& post.program == pre.program
}

/// The step of `Any` or `Char` at the end of the input: the cursor
/// takes the end-of-file error and nothing else moves.
pub open spec fn cursor_err_eof(pre: VM, post: VM) -> bool {
    &&& post.cursor == Result::<usize, Error>::Err(Error::EOF)
    &&& post.ffp == pre.ffp
    &&& post.program_counter == pre.program_counter
    &&& post.accumulator == pre.accumulator
    &&& same_frame_state(pre, post)
}

/// The step of `Char` on a mismatch: the cursor takes a matching
/// error carrying the expected and the actual code point.
pub open spec fn cursor_err_matching(pre: VM, post: VM, expected: char, actual: char) -> bool {
    &&& post.cursor matches Err(e) && e matches Error::Matching(ex, ac) && ex@ == seq![expected]
        && ac@ == seq![actual]
    &&& post.ffp == pre.ffp
    &&& post.program_counter == pre.program_counter
    &&& post.accumulator == pre.accumulator
    &&& same_frame_state(pre, post)
}

/// The step of `Any` or `Char` on a match: the code point lands in
/// the accumulator, the cursor moves one step (pushing the farthest
/// failure position along), and the program counter advances.
pub open spec fn consumed_char(pre: VM, post: VM, ch: char) -> bool {
    let c = pre.cursor->Ok_0;
    &&& post.accumulator == Some(Value::Chr(ch))
    &&& post.cursor == Result::<usize, Error>::Ok((c + 1) as usize)
    &&& post.ffp == if c + 1 > pre.ffp {
        (c + 1) as usize
    } else {
        pre.ffp
    }
    &&& post.program_counter == pre.program_counter + 1
    &&& same_frame_state(pre, post)
}

/// The step of `Choice`: a backtrack frame joins the stack, saving
/// the cursor, the alternative's address and the innermost call
/// frame's capture count, and the program counter advances.
pub open spec fn pushed_backtrack(pre: VM, post: VM, alternative: usize) -> bool {
    let p = innermost_call(pre.stack@);
    &&& post.stack@.len() == pre.stack@.len() + 1
    &&& (forall|i: int| 0 <= i < pre.stack@.len() ==> post.stack@[i] == pre.stack@[i])
    &&& post.stack@.last().ftype == StackFrameType::Backtrack
    &&& post.stack@.last().program_counter == alternative
    &&& post.stack@.last().cursor == Result::<usize, Error>::Ok(pre.cursor->Ok_0)
    &&& post.stack@.last().capture == if p >= 0 {
        pre.stack@[p].captures@.len()
    } else {
        0
    }
    &&& post.stack@.last().captures@.len() == 0
    &&& post.stack@.last().result is Err
    &&& post.program_counter == pre.program_counter + 1
    &&& post.cursor == pre.cursor
    &&& post.ffp == pre.ffp
    &&& post.accumulator == pre.accumulator
    &&& post.lrmemo == pre.lrmemo
    &&& post.source == pre.source
    &&& post.program == pre.program
}

/// The step of `Commit` or `CommitB`: the top frame is dropped and
/// the program counter moves to the given address.
pub open spec fn committed(pre: VM, post: VM, new_pc: usize) -> bool {
    &&& post.stack@ == pre.stack@.drop_last()
    &&& post.program_counter == new_pc
    &&& post.cursor == pre.cursor
    &&& post.ffp == pre.ffp
    &&& post.accumulator == pre.accumulator
    &&& post.lrmemo == pre.lrmemo
    &&& post.source == pre.source
    &&& post.program == pre.program
}

/// The step of `Jump`: only the program counter moves, to the
/// absolute address.
pub open spec fn jumped(pre: VM, post: VM, index: usize) -> bool {
    &&& post.program_counter == index
    &&& post.cursor == pre.cursor
    &&& post.ffp == pre.ffp
    &&& post.accumulator == pre.accumulator
    &&& same_frame_state(pre, post)
}

/// The step of `Capture` with an empty accumulator: a silent no-op
/// but for the program counter.
pub open spec fn stepped_over(pre: VM, post: VM) -> bool {
    &&& post.program_counter == pre.program_counter + 1
    &&& post.cursor == pre.cursor
    &&& post.ffp == pre.ffp
    &&& post.accumulator == pre.accumulator
    &&& same_frame_state(pre, post)
}

/// How a call or return step's own result shows up at the dispatch
/// loop: a success continues the match, an error ends it.
pub open spec fn step_outcome(rr: Result<(), Error>) -> Option<Result<(), Error>> {
    match rr {
        Ok(_) => None,
        Err(e) => Some(Result::<(), Error>::Err(e)),
    }
}

/// Failure propagation as one dispatch step: restoring a backtrack
/// frame continues the match; an empty unwind ends it with the
/// recorded error.
pub open spec fn fail_step(pre: VM, post: VM, r: Option<Result<(), Error>>) -> bool {
    if top_backtrack(pre.stack@) >= 0 {
        fail_rel(pre, post, Result::<(), Error>::Ok(())) && r is None
    } else {
        fail_rel(pre, post, Result::<(), Error>::Err(fail_err(pre.cursor))) && r == Some(
            Result::<(), Error>::Err(fail_err(pre.cursor)),
        )
    }
}

/// One dispatch step of the machine, exactly as the loop takes it:
/// from a state about to fetch, either the match ends with a result
/// (`r` is `Some`) or the machine continues in the post state (`r`
/// is `None`).  A program counter past the code, a stack underflow
/// or an unrepresentable address ends the match as `Overflow`; an
/// erroneous cursor dispatches failure propagation; otherwise the
/// fetched instruction acts as its relation says.
pub open spec fn step_rel(pre: VM, post: VM, r: Option<Result<(), Error>>) -> bool {
    let pc = pre.program_counter;
    let code = pre.program.code@;
    if pc >= code.len() {
        r == Some(Result::<(), Error>::Err(Error::Overflow)) && post == pre
    } else if pre.cursor is Err {
        fail_step(pre, post, r)
    } else {
        let c = pre.cursor->Ok_0 as int;
        let src = pre.source@;
        match code[pc as int] {
            Instruction::Halt => r == Some(Result::<(), Error>::Ok(())) && post == pre,
            Instruction::Any => {
                if c >= src.len() {
                    r is None && cursor_err_eof(pre, post)
                } else {
                    r is None && consumed_char(pre, post, src[c])
                }
            },
            Instruction::Char(expected) => {
                if c >= src.len() {
                    r is None && cursor_err_eof(pre, post)
                } else if src[c] != expected {
                    r is None && cursor_err_matching(pre, post, expected, src[c])
                } else {
                    r is None && consumed_char(pre, post, expected)
                }
            },
            Instruction::Choice(offset) => {
                if offset > usize::MAX - pc || pre.stack@.len() == 0 {
                    r == Some(Result::<(), Error>::Err(Error::Overflow)) && post == pre
                } else {
                    r is None && pushed_backtrack(pre, post, (pc + offset) as usize)
                }
            },
            Instruction::Commit(offset) => {
                if pre.stack@.len() == 0 || offset > usize::MAX - pc {
                    r == Some(Result::<(), Error>::Err(Error::Overflow)) && post == pre
                } else {
                    r is None && committed(pre, post, (pc + offset) as usize)
                }
            },
            Instruction::CommitB(offset) => {
                if pre.stack@.len() == 0 || offset > pc {
                    r == Some(Result::<(), Error>::Err(Error::Overflow)) && post == pre
                } else {
                    r is None && committed(pre, post, (pc - offset) as usize)
                }
            },
            Instruction::Fail => fail_step(pre, post, r),
            Instruction::Jump(index) => r is None && jumped(pre, post, index),
            Instruction::Call(offset, k) => {
                if offset > usize::MAX - pc {
                    r == Some(Result::<(), Error>::Err(Error::Overflow)) && post == pre
                } else {
                    exists|rr: Result<(), Error>|
                        #[trigger] inst_call_rel(pre, post, (pc + offset) as usize, k, rr) && r
                            == step_outcome(rr)
                }
            },
            Instruction::CallB(offset, k) => {
                if offset > pc {
                    r == Some(Result::<(), Error>::Err(Error::Overflow)) && post == pre
                } else {
                    exists|rr: Result<(), Error>|
                        #[trigger] inst_call_rel(pre, post, (pc - offset) as usize, k, rr) && r
                            == step_outcome(rr)
                }
            },
            Instruction::Return => {
                exists|rr: Result<(), Error>|
                    #[trigger] inst_return_rel(pre, post, rr) && r == step_outcome(rr)
            },
            Instruction::Capture => {
                match pre.accumulator {
                    Some(v) => r is None && capture_rel(pre, post, v) && post.accumulator is None
                        && post.program_counter == pre.program_counter + 1,
                    None => r is None && stepped_over(pre, post),
                }
            },
        }
    }
}

/// The machine `t` stands `n` continuing dispatch steps after `s`.
pub open spec fn reaches(s: VM, t: VM, n: nat) -> bool
    decreases n,
{
    if n == 0 {
        t == s
    } else {
        exists|mid: VM| #[trigger] step_rel(s, mid, None) && reaches(mid, t, (n - 1) as nat)
    }
}

/// The machine starting at `s` takes `n` continuing dispatch steps
/// and then one final step that ends the match with `res`.
pub open spec fn runs_to(s: VM, post: VM, res: Result<(), Error>, n: nat) -> bool {
    exists|mid: VM| #[trigger] reaches(s, mid, n) && step_rel(mid, post, Some(res))
}

/// The state a match starts from: the given machine with the input
/// installed as its source.
pub open spec fn started(pre: VM, input: Seq<char>, s0: VM) -> bool {
    &&& s0.source@ == input
    &&& s0.cursor == pre.cursor
    &&& s0.ffp == pre.ffp
    &&& s0.program == pre.program
    &&& s0.program_counter == pre.program_counter
    &&& s0.stack == pre.stack
    &&& s0.lrmemo == pre.lrmemo
    &&& s0.accumulator == pre.accumulator
}

proof fn lemma_reaches_extend(s: VM, mid: VM, t: VM, n: nat)
    requires
        reaches(s, mid, n),
        step_rel(mid, t, None),
    ensures
        reaches(s, t, n + 1),
    decreases n,
{
    if n == 0 {
        assert(reaches(t, t, 0));
        assert(step_rel(s, t, None));
    } else {
        let m1 = choose|m1: VM| #[trigger] step_rel(s, m1, None) && reaches(m1, mid, (n - 1) as nat);
        lemma_reaches_extend(m1, mid, t, (n - 1) as nat);
        assert(step_rel(s, m1, None) && reaches(m1, t, n));
    }
}

impl VM {
    /// After pushing a backtrack frame whose saved count is the
    /// enclosing call frame's current capture count, the machine
    /// invariant still holds.
    proof fn lemma_backtrack_push_wf(&self, pre: VM)
        requires
            pre.wf(),
            self.stack@.len() == pre.stack@.len() + 1,
            forall|i: int| 0 <= i < pre.stack@.len() ==> self.stack@[i] == pre.stack@[i],
            self.stack@.last().ftype == StackFrameType::Backtrack,
            self.stack@.last().cursor matches Ok(c) && c <= pre.ffp,
            self.stack@.last().result is Err,
            self.stack@.last().capture == ({
                let p = innermost_call(pre.stack@);
                if p >= 0 {
                    pre.stack@[p].captures@.len()
                } else {
                    0
                }
            }),
            self.cursor == pre.cursor,
            self.ffp == pre.ffp,
            self.source == pre.source,
            self.program == pre.program,
            self.lrmemo == pre.lrmemo,
            self.accumulator == pre.accumulator,
        ensures
            self.wf(),
    {
        let n = pre.stack@.len() as int;
        lemma_prev_call_props(pre.stack@, n);
        assert forall|i: int| 0 <= i < self.stack@.len() implies #[trigger] frame_wf(
            self.stack@[i],
            self.ffp,
        ) by {
            if i < n {
                assert(frame_wf(pre.stack@[i], pre.ffp));
            }
        }
        assert forall|i: int| 0 <= i < self.stack@.len() implies #[trigger] lr_frame_linked(
            self.stack@[i],
            memo_view(self.lrmemo@),
        ) by {
            if i < n {
                assert(lr_frame_linked(pre.stack@[i], memo_view(pre.lrmemo@)));
            } else {
                assert(lr_key(self.stack@[i]) is None);
            }
        }
        assert forall|i: int, j: int|
            0 <= i < j < self.stack@.len() && #[trigger] lr_key(self.stack@[i]) is Some implies
            lr_key(self.stack@[i]) != #[trigger] lr_key(self.stack@[j]) by {
            if j < n {
                assert(lr_key(self.stack@[i]) == lr_key(pre.stack@[i]));
                assert(lr_key(self.stack@[j]) == lr_key(pre.stack@[j]));
            } else {
                assert(lr_key(self.stack@[j]) is None);
            }
        }
        assert forall|j: int|
            0 <= j < self.stack@.len() && self.stack@[j].ftype
                == StackFrameType::Backtrack implies #[trigger] backtrack_count_ok(
            self.stack@,
            j,
        ) by {
            if j < n {
                lemma_prev_call_prefix(pre.stack@, self.stack@, j);
                lemma_prev_call_props(pre.stack@, j);
                assert(backtrack_count_ok(pre.stack@, j));
            } else {
                lemma_prev_call_prefix(pre.stack@, self.stack@, n);
                assert(prev_call(self.stack@, j) == innermost_call(pre.stack@));
            }
        }
        assert forall|i: int, j: int|
            0 <= i < j < self.stack@.len() && self.stack@[i].ftype == StackFrameType::Backtrack
                && self.stack@[j].ftype == StackFrameType::Backtrack && #[trigger] prev_call(
            self.stack@,
            i,
        ) == #[trigger] prev_call(self.stack@, j) implies self.stack@[i].capture
            <= self.stack@[j].capture by {
            lemma_prev_call_prefix(pre.stack@, self.stack@, i);
            lemma_prev_call_props(pre.stack@, i);
            if j < n {
                lemma_prev_call_prefix(pre.stack@, self.stack@, j);
            } else {
                lemma_prev_call_prefix(pre.stack@, self.stack@, n);
                assert(prev_call(self.stack@, j) == innermost_call(pre.stack@));
                assert(backtrack_count_ok(pre.stack@, i));
            }
        }
    }

    /// Runs the program against an input: walks the instructions from
    /// address zero, dispatching one instruction per step, until a
    /// `Halt` succeeds or the failure-propagation pass runs out of
    /// frames.  A step budget guards against programs that never
    /// halt; when it runs out the match is abandoned as malformed,
    /// like any other `Overflow`.
    ///
    /// The result and the final machine are exactly what the
    /// dispatch semantics gives: from the starting state with the
    /// input installed, some chain of `step_rel` steps reaches the
    /// final state and produces the result - or the budget of
    /// `usize::MAX` genuine steps was spent, the final state is
    /// reached by that many steps, and the match ends as `Overflow`.
    /// On success the cursor is a position within the input that the
    /// farthest failure position has reached too, and the machine
    /// stands on the `Halt` instruction.  A failed match ends with
    /// its error on the cursor and an empty stack.
    pub fn run(&mut self, input: &str) -> (r: Result<(), Error>)
        requires
            old(self).wf(),
            old(self).cursor == Result::<usize, Error>::Ok(0usize),
            old(self).ffp == 0,
            old(self).stack@.len() == 0,
            old(self).lrmemo@.len() == 0,
        ensures
            final(self).wf(),
            final(self).source@ == input@,
            final(self).program == old(self).program,
            r is Ok ==> (final(self).cursor matches Ok(c) && c <= final(self).source@.len() && c
                <= final(self).ffp && final(self).program_counter
                < final(self).program.code@.len()
                && final(self).program.code@[final(self).program_counter as int]
                == Instruction::Halt),
            r is Err && !(r->Err_0 is Overflow) ==> (final(self).cursor matches Err(e2) && e2
                == r->Err_0 && final(self).stack@.len() == 0),
            exists|s0: VM, n: nat|
                #![trigger runs_to(s0, *final(self), r, n)]
                #![trigger reaches(s0, *final(self), n)]
                started(*old(self), input@, s0) && (runs_to(s0, *final(self), r, n) || (r
                    == Result::<(), Error>::Err(Error::Overflow) && reaches(s0, *final(self), n)
                    && n >= usize::MAX)),
    {
        self.source = crate::text::chars_of(input);
        let ghost s0 = *self;
        proof {
            assert(started(*old(self), input@, s0));
            assert(reaches(s0, *self, 0));
        }
        let mut fuel: usize = usize::MAX;
        let ghost mut steps: nat = 0;
        loop
            invariant
                self.wf(),
                self.source@ == input@,
                self.program == old(self).program,
                started(*old(self), input@, s0),
                reaches(s0, *self, steps),
                steps + fuel == usize::MAX,
            decreases fuel,
        {
            if fuel == 0 {
                return Err(Error::Overflow);
            }
            fuel = fuel - 1;
            let ghost cur = *self;
            let code_len = self.program.code.len();
            if self.program_counter >= code_len {
                proof {
                    assert(step_rel(cur, *self, Some(Result::<(), Error>::Err(Error::Overflow))));
                    assert(runs_to(s0, *self, Result::<(), Error>::Err(Error::Overflow), steps));
                }
                return Err(Error::Overflow);
            }
            if self.cursor.is_err() {
                match self.fail() {
                    Ok(_) => {
                        proof {
                            assert(fail_step(cur, *self, Option::<Result<(), Error>>::None));
                            assert(step_rel(cur, *self, Option::<Result<(), Error>>::None));
                            lemma_reaches_extend(s0, cur, *self, steps);
                            steps = steps + 1;
                        }
                        continue ;
                    },
                    Err(e) => {
                        proof {
                            assert(step_rel(cur, *self, Some(Result::<(), Error>::Err(e))));
                            assert(runs_to(s0, *self, Result::<(), Error>::Err(e), steps));
                        }
                        return Err(e);
                    },
                }
            }
            let cursor = match &self.cursor {
                Ok(c) => *c,
                Err(_) => {
                    proof {
                        assert(false);
                    }
                    return Err(Error::Overflow);
                },
            };
            let source_len = self.source.len();
            match self.program.code[self.program_counter] {
                Instruction::Halt => {
                    proof {
                        assert(step_rel(cur, *self, Some(Result::<(), Error>::Ok(()))));
                        assert(runs_to(s0, *self, Result::<(), Error>::Ok(()), steps));
                    }
                    return Ok(());
                },
                Instruction::Any => {
                    if cursor >= source_len {
                        self.cursor = Err(Error::EOF);
                        proof {
                            assert(cursor_err_eof(cur, *self));
                        }
                    } else {
                        self.accumulator = Some(Value::Chr(self.source[cursor]));
                        match self.advance_cursor() {
                            Ok(_) => {},
                            Err(e) => {
                                return Err(e);
                            },
                        }
                        self.program_counter = self.program_counter + 1;
                        proof {
                            assert(consumed_char(cur, *self, cur.source@[cursor as int]));
                        }
                    }
                },
                Instruction::Char(expected) => {
                    if cursor >= source_len {
                        self.cursor = Err(Error::EOF);
                        proof {
                            assert(cursor_err_eof(cur, *self));
                        }
                    } else {
                        let current = self.source[cursor];
                        if current != expected {
                            self.cursor = Err(
                                Error::Matching(
                                    crate::text::char_string(expected),
                                    crate::text::char_string(current),
                                ),
                            );
                            proof {
                                assert(cursor_err_matching(cur, *self, expected, current));
                            }
                        } else {
                            self.accumulator = Some(Value::Chr(current));
                            match self.advance_cursor() {
                                Ok(_) => {},
                                Err(e) => {
                                    return Err(e);
                                },
                            }
                            self.program_counter = self.program_counter + 1;
                            proof {
                                assert(consumed_char(cur, *self, expected));
                            }
                        }
                    }
                },
                Instruction::Choice(offset) => {
                    if offset > usize::MAX - self.program_counter {
                        proof {
                            assert(step_rel(
                                cur,
                                *self,
                                Some(Result::<(), Error>::Err(Error::Overflow)),
                            ));
                            assert(runs_to(
                                s0,
                                *self,
                                Result::<(), Error>::Err(Error::Overflow),
                                steps,
                            ));
                        }
                        return Err(Error::Overflow);
                    }
                    let alternative = self.program_counter + offset;
                    let count = match self.captured_len() {
                        Ok(n) => n,
                        Err(e) => {
                            proof {
                                assert(step_rel(
                                    cur,
                                    *self,
                                    Some(Result::<(), Error>::Err(Error::Overflow)),
                                ));
                                assert(runs_to(
                                    s0,
                                    *self,
                                    Result::<(), Error>::Err(Error::Overflow),
                                    steps,
                                ));
                            }
                            return Err(e);
                        },
                    };
                    let ghost pre = *self;
                    self.stack.push(StackFrame::new_backtrack(cursor, alternative, count));
                    proof {
                        self.lemma_backtrack_push_wf(pre);
                    }
                    self.program_counter = self.program_counter + 1;
                    proof {
                        assert(pushed_backtrack(cur, *self, alternative));
                    }
                },
                Instruction::Commit(offset) => {
                    if self.stack.len() == 0 {
                        proof {
                            assert(step_rel(
                                cur,
                                *self,
                                Some(Result::<(), Error>::Err(Error::Overflow)),
                            ));
                            assert(runs_to(
                                s0,
                                *self,
                                Result::<(), Error>::Err(Error::Overflow),
                                steps,
                            ));
                        }
                        return Err(Error::Overflow);
                    }
                    if offset > usize::MAX - self.program_counter {
                        proof {
                            assert(step_rel(
                                cur,
                                *self,
                                Some(Result::<(), Error>::Err(Error::Overflow)),
                            ));
                            assert(runs_to(
                                s0,
                                *self,
                                Result::<(), Error>::Err(Error::Overflow),
                                steps,
                            ));
                        }
                        return Err(Error::Overflow);
                    }
                    let _ = self.stkpop();
                    self.program_counter = self.program_counter + offset;
                    proof {
                        assert(committed(cur, *self, (cur.program_counter + offset) as usize));
                    }
                },
                Instruction::CommitB(offset) => {
                    if self.stack.len() == 0 {
                        proof {
                            assert(step_rel(
                                cur,
                                *self,
                                Some(Result::<(), Error>::Err(Error::Overflow)),
                            ));
                            assert(runs_to(
                                s0,
                                *self,
                                Result::<(), Error>::Err(Error::Overflow),
                                steps,
                            ));
                        }
                        return Err(Error::Overflow);
                    }
                    if offset > self.program_counter {
                        proof {
                            assert(step_rel(
                                cur,
                                *self,
                                Some(Result::<(), Error>::Err(Error::Overflow)),
                            ));
                            assert(runs_to(
                                s0,
                                *self,
                                Result::<(), Error>::Err(Error::Overflow),
                                steps,
                            ));
                        }
                        return Err(Error::Overflow);
                    }
                    let _ = self.stkpop();
                    self.program_counter = self.program_counter - offset;
                    proof {
                        assert(committed(cur, *self, (cur.program_counter - offset) as usize));
                    }
                },
                Instruction::Fail => {
                    match self.fail() {
                        Ok(_) => {
                            proof {
                                assert(fail_step(cur, *self, Option::<Result<(), Error>>::None));
                            }
                        },
                        Err(e) => {
                            proof {
                                assert(step_rel(cur, *self, Some(Result::<(), Error>::Err(e))));
                                assert(runs_to(s0, *self, Result::<(), Error>::Err(e), steps));
                            }
                            return Err(e);
                        },
                    }
                },
                Instruction::Jump(index) => {
                    self.program_counter = index;
                    proof {
                        assert(jumped(cur, *self, index));
                    }
                },
                Instruction::Call(offset, precedence) => {
                    if offset > usize::MAX - self.program_counter {
                        proof {
                            assert(step_rel(
                                cur,
                                *self,
                                Some(Result::<(), Error>::Err(Error::Overflow)),
                            ));
                            assert(runs_to(
                                s0,
                                *self,
                                Result::<(), Error>::Err(Error::Overflow),
                                steps,
                            ));
                        }
                        return Err(Error::Overflow);
                    }
                    let address = self.program_counter + offset;
                    match self.inst_call(address, precedence) {
                        Ok(_) => {
                            proof {
                                assert(inst_call_rel(
                                    cur,
                                    *self,
                                    address,
                                    precedence,
                                    Result::<(), Error>::Ok(()),
                                ));
                            }
                        },
                        Err(e) => {
                            proof {
                                assert(step_rel(cur, *self, Some(Result::<(), Error>::Err(e))));
                                assert(runs_to(s0, *self, Result::<(), Error>::Err(e), steps));
                            }
                            return Err(e);
                        },
                    }
                },
                Instruction::CallB(offset, precedence) => {
                    if offset > self.program_counter {
                        proof {
                            assert(step_rel(
                                cur,
                                *self,
                                Some(Result::<(), Error>::Err(Error::Overflow)),
                            ));
                            assert(runs_to(
                                s0,
                                *self,
                                Result::<(), Error>::Err(Error::Overflow),
                                steps,
                            ));
                        }
                        return Err(Error::Overflow);
                    }
                    let address = self.program_counter - offset;
                    match self.inst_call(address, precedence) {
                        Ok(_) => {
                            proof {
                                assert(inst_call_rel(
                                    cur,
                                    *self,
                                    address,
                                    precedence,
                                    Result::<(), Error>::Ok(()),
                                ));
                            }
                        },
                        Err(e) => {
                            proof {
                                assert(step_rel(cur, *self, Some(Result::<(), Error>::Err(e))));
                                assert(runs_to(s0, *self, Result::<(), Error>::Err(e), steps));
                            }
                            return Err(e);
                        },
                    }
                },
                Instruction::Return => {
                    match self.inst_return() {
                        Ok(_) => {
                            proof {
                                assert(inst_return_rel(cur, *self, Result::<(), Error>::Ok(())));
                            }
                        },
                        Err(e) => {
                            proof {
                                assert(step_rel(cur, *self, Some(Result::<(), Error>::Err(e))));
                                assert(runs_to(s0, *self, Result::<(), Error>::Err(e), steps));
                            }
                            return Err(e);
                        },
                    }
                },
                Instruction::Capture => {
                    match self.accumulator.take() {
                        Some(v) => {
                            let ghost gv = v;
                            match self.capture(v) {
                                Ok(_) => {},
                                Err(e) => {
                                    return Err(e);
                                },
                            }
                            self.program_counter = self.program_counter + 1;
                            proof {
                                assert(capture_rel(cur, *self, gv));
                            }
                        },
                        None => {
                            self.program_counter = self.program_counter + 1;
                            proof {
                                assert(stepped_over(cur, *self));
                            }
                        },
                    }
                },
            }
            proof {
                assert(step_rel(cur, *self, Option::<Result<(), Error>>::None));
                lemma_reaches_extend(s0, cur, *self, steps);
                steps = steps + 1;
            }
        }
    }
}

} // verus!
