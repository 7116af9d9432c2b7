use vstd::prelude::*;
use vstd::string::StrSliceExecFns;
use crate::record::Record;

verus! {

/// Relies on String::push: appends the given character to the end of
/// the string.
pub assume_specification[ String::push ](s: &mut String, c: char)
    ensures
        final(s)@ == old(s)@.push(c),
;

/// The model of a cursor position: an offset into the character
/// sequence, together with the (row, column) of the last consumed
/// character.
pub ghost struct Pos {
    pub at: int,
    pub row: int,
    pub col: int,
}

/// The model of a `StreamIterator`: the characters it walks over and
/// the position reached so far.
pub ghost struct IterModel {
    pub s: Seq<char>,
    pub pos: Pos,
}

/// The position before anything has been consumed.
pub open spec fn start_pos() -> Pos {
    Pos { at: 0, row: 1, col: 0 }
}

/// Row and column bookkeeping for one consumed character: a newline
/// opens the next row at column 0; any other character widens the
/// current row by one column.
pub open spec fn step_pos(s: Seq<char>, p: Pos) -> Pos {
    if s[p.at] == '\n' {
        Pos { at: p.at + 1, row: p.row + 1, col: 0 }
    } else {
        Pos { at: p.at + 1, row: p.row, col: p.col + 1 }
    }
}

/// `step_pos` iterated `n` times.
pub open spec fn advance_pos(s: Seq<char>, p: Pos, n: nat) -> Pos
    decreases n,
{
    if n == 0 {
        p
    } else {
        advance_pos(s, step_pos(s, p), (n - 1) as nat)
    }
}

/// Advancing moves the offset by exactly the number of steps, and rows
/// and columns stay within one step of it.
pub proof fn lemma_advance_pos(s: Seq<char>, p: Pos, n: nat)
    requires
        0 <= p.col,
    ensures
        advance_pos(s, p, n).at == p.at + n,
        p.row <= advance_pos(s, p, n).row <= p.row + n,
        0 <= advance_pos(s, p, n).col <= p.col + n,
    decreases n,
{
    if n > 0 {
        lemma_advance_pos(s, step_pos(s, p), (n - 1) as nat);
    }
}

/// Advancing moves the offset by exactly the number of steps.
pub proof fn lemma_advance_pos_at(s: Seq<char>, p: Pos, n: nat)
    ensures
        advance_pos(s, p, n).at == p.at + n,
    decreases n,
{
    if n > 0 {
        lemma_advance_pos_at(s, step_pos(s, p), (n - 1) as nat);
    }
}

/// Advancing one more step advances the already reached position.
pub proof fn lemma_advance_pos_snoc(s: Seq<char>, p: Pos, n: nat)
    ensures
        advance_pos(s, p, n + 1) == step_pos(s, advance_pos(s, p, n)),
    decreases n,
{
    reveal_with_fuel(advance_pos, 2);
    if n > 0 {
        lemma_advance_pos_snoc(s, step_pos(s, p), (n - 1) as nat);
    }
}

impl IterModel {
    /// Bounds that every reachable iterator state obeys.
    pub open spec fn wf(self) -> bool {
        &&& 0 <= self.pos.at <= self.s.len()
        &&& self.s.len() < usize::MAX
        &&& 1 <= self.pos.row <= self.pos.at + 1
        &&& 0 <= self.pos.col <= self.pos.at
    }
}

/// A minimal random-access cursor over the input characters, tracking
/// the current offset and the row/column of the last consumed
/// character.
pub struct StreamIterator {
    contents: Vec<char>,
    pos: usize,
    record: Record,
}

impl View for StreamIterator {
    type V = IterModel;

    closed spec fn view(&self) -> IterModel {
        IterModel {
            s: self.contents@,
            pos: Pos { at: self.pos as int, row: self.record@.0, col: self.record@.1 },
        }
    }
}

impl StreamIterator {
    /// A fresh cursor at the start of `stream`.
    pub fn new(stream: &str) -> (it: StreamIterator)
        requires
            stream@.len() < usize::MAX,
        ensures
            it@ == (IterModel { s: stream@, pos: start_pos() }),
            it@.wf(),
    {
        let n = stream.unicode_len();
        let mut contents: Vec<char> = Vec::new();
        let mut i: usize = 0;
        while i < n
            invariant
                i <= n,
                n == stream@.len(),
                contents@ == stream@.subrange(0, i as int),
            decreases n - i,
        {
            contents.push(stream.get_char(i));
            proof {
                assert(contents@ =~= stream@.subrange(0, i + 1));
            }
            i = i + 1;
        }
        proof {
            assert(contents@ =~= stream@);
        }
        StreamIterator { contents, pos: 0, record: Record { pos: (1, 0) } }
    }

    /// The character at the current offset, left unconsumed; `None` at
    /// the end of the stream.
    pub fn peek(&self) -> (c: Option<char>)
        ensures
            c == (if self@.pos.at < self@.s.len() {
                Some(self@.s[self@.pos.at])
            } else {
                None::<char>
            }),
    {
        if self.pos < self.contents.len() {
            Some(self.contents[self.pos])
        } else {
            None
        }
    }

    /// The most recently consumed character; `None` before the first
    /// consumption.
    pub fn last(&self) -> (c: Option<char>)
        ensures
            c == (if 1 <= self@.pos.at <= self@.s.len() {
                Some(self@.s[self@.pos.at - 1])
            } else {
                None::<char>
            }),
    {
        if 1 <= self.pos && self.pos <= self.contents.len() {
            Some(self.contents[self.pos - 1])
        } else {
            None
        }
    }

    /// Consumes and returns the character at the current offset,
    /// updating the row/column record; `None` (and no change) at the
    /// end of the stream.
    pub fn next(&mut self) -> (c: Option<char>)
        requires
            old(self)@.wf(),
        ensures
            final(self)@.wf(),
            final(self)@.s == old(self)@.s,
            if old(self)@.pos.at < old(self)@.s.len() {
                c == Some(old(self)@.s[old(self)@.pos.at])
                    && final(self)@.pos == step_pos(old(self)@.s, old(self)@.pos)
            } else {
                c == None::<char> && final(self)@ == old(self)@
            },
    {
        if self.pos < self.contents.len() {
            let c = self.contents[self.pos];
            if c == '\n' {
                self.record = Record { pos: (self.record.pos.0 + 1, 0) };
            } else {
                self.record = Record { pos: (self.record.pos.0, self.record.pos.1 + 1) };
            }
            self.pos = self.pos + 1;
            Some(c)
        } else {
            None
        }
    }

    /// The current raw offset.
    pub fn position(&self) -> (p: usize)
        ensures
            p as int == self@.pos.at,
    {
        self.pos
    }

    /// The matched text for the half-open offset range `start..end`.
    pub fn grab(&self, start: usize, end: usize) -> (text: String)
        requires
            start <= end,
            end as int <= self@.s.len(),
        ensures
            text@ == self@.s.subrange(start as int, end as int),
    {
        let mut text = String::new();
        let mut i = start;
        while i < end
            invariant
                start <= i <= end,
                end as int <= self@.s.len(),
                text@ == self@.s.subrange(start as int, i as int),
            decreases end - i,
        {
            text.push(self.contents[i]);
            proof {
                assert(text@ =~= self@.s.subrange(start as int, i + 1));
            }
            i = i + 1;
        }
        text
    }

    /// The row/column of the last consumed character.
    pub fn record(&self) -> (r: Record)
        ensures
            r@ == (self@.pos.row, self@.pos.col),
    {
        self.record
    }

    /// The number of characters in the stream.
    pub(crate) fn len(&self) -> (n: usize)
        ensures
            n as int == self@.s.len(),
    {
        self.contents.len()
    }

    /// The character at an arbitrary offset, for lookahead.
    pub(crate) fn char_at(&self, i: usize) -> (c: char)
        requires
            (i as int) < self@.s.len(),
        ensures
            c == self@.s[i as int],
    {
        self.contents[i]
    }
}

} // verus!
