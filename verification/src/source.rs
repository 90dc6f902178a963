//! Character sources for the reader: [`SliceSource`] over source text and
//! [`ChainSource`] over a string already in the arena.
//!
//! A source is modelled by the whole text it delivers, `text()`, and the
//! number of characters already consumed, `offset()`; what is left to read
//! is [`rest_of`].

use vstd::prelude::*;
use vstd::string::StringSliceAdditionalSpecFns;
use crate::types::ArenaIndex;
use crate::value::{Value, ordered, refs_below, chain_chars, intern_cell};
use crate::lisp::Lisp;

verus! {

/// Space, tab, newline and carriage return.
pub open spec fn is_ws(c: char) -> bool {
    c == ' ' || c == '\t' || c == '\n' || c == '\r'
}

/// What is left after whitespace and `;` line comments.
pub open spec fn skip_ws_spec(s: Seq<char>) -> Seq<char>
    decreases s.len(), 1int,
{
    if s.len() == 0 {
        s
    } else if is_ws(s[0]) {
        skip_ws_spec(s.drop_first())
    } else if s[0] == ';' {
        skip_comment_spec(s.drop_first())
    } else {
        s
    }
}

/// What is left after the rest of a comment (through its newline) and the
/// whitespace and comments that follow it.
pub open spec fn skip_comment_spec(s: Seq<char>) -> Seq<char>
    decreases s.len(), 0int,
{
    if s.len() == 0 {
        s
    } else if s[0] == '\n' {
        skip_ws_spec(s.drop_first())
    } else {
        skip_comment_spec(s.drop_first())
    }
}

/// Skipping whitespace never lengthens the text, and what it leaves does
/// not start with whitespace or a comment.
pub proof fn lemma_skip_ws(s: Seq<char>)
    ensures
        skip_ws_spec(s).len() <= s.len(),
        skip_ws_spec(s).len() > 0 ==> !is_ws(skip_ws_spec(s)[0]) && skip_ws_spec(s)[0] != ';',
        skip_ws_spec(skip_ws_spec(s)) == skip_ws_spec(s),
    decreases s.len(), 1int,
{
    if s.len() > 0 {
        if is_ws(s[0]) {
            lemma_skip_ws(s.drop_first());
        } else if s[0] == ';' {
            lemma_skip_comment(s.drop_first());
        }
    }
}

proof fn lemma_skip_comment(s: Seq<char>)
    ensures
        skip_comment_spec(s).len() <= s.len(),
        skip_comment_spec(s).len() > 0 ==> !is_ws(skip_comment_spec(s)[0])
            && skip_comment_spec(s)[0] != ';',
        skip_ws_spec(skip_comment_spec(s)) == skip_comment_spec(s),
    decreases s.len(), 0int,
{
    if s.len() > 0 {
        if s[0] == '\n' {
            lemma_skip_ws(s.drop_first());
        } else {
            lemma_skip_comment(s.drop_first());
        }
    }
}

/// The 1-based line and column after reading the text `s`.
pub open spec fn line_col(s: Seq<char>) -> (int, int)
    decreases s.len(),
{
    if s.len() == 0 {
        (1, 1)
    } else {
        let p = line_col(s.drop_last());
        if s.last() == '\n' {
            (p.0 + 1, 1)
        } else {
            (p.0, p.1 + 1)
        }
    }
}

/// Lines and columns are 1-based: both are at least 1 after any text, and
/// at most one more than its length.
pub proof fn lemma_line_col_positive(s: Seq<char>)
    ensures
        1 <= line_col(s).0 <= s.len() + 1,
        1 <= line_col(s).1 <= s.len() + 1,
    decreases s.len(),
{
    if s.len() > 0 {
        lemma_line_col_positive(s.drop_last());
    }
}

/// The number of newlines in `s`.
pub open spec fn newlines(s: Seq<char>) -> nat {
    s.filter(|c: char| c == '\n').len()
}

/// Positions count lines and columns: the line after reading `s` is one
/// more than the newlines in `s`, and the column is one more than the
/// characters read since the last newline (since the start, when there is
/// none).
pub proof fn lemma_line_col_counts(s: Seq<char>)
    ensures
        line_col(s).0 == 1 + newlines(s),
        (forall|i: int| 0 <= i < s.len() ==> s[i] != '\n') ==> line_col(s).1 == s.len() + 1,
    decreases s.len(),
{
    reveal(Seq::filter);
    if s.len() > 0 {
        let p = s.drop_last();
        lemma_line_col_counts(p);
        if forall|i: int| 0 <= i < s.len() ==> s[i] != '\n' {
            assert forall|i: int| 0 <= i < p.len() implies p[i] != '\n' by {
                assert(p[i] == s[i]);
            }
            assert(s[s.len() - 1] != '\n');
        }
    }
}

/// After a newline, the column counts from 1 again: reading `a`, a
/// newline and then `b` without newlines leaves the column one more than
/// the length of `b`.
pub proof fn lemma_column_after_newline(a: Seq<char>, b: Seq<char>)
    requires
        forall|i: int| 0 <= i < b.len() ==> b[i] != '\n',
    ensures
        line_col(a + (seq!['\n'] + b)).1 == b.len() + 1,
    decreases b.len(),
{
    let s = a + (seq!['\n'] + b);
    if b.len() == 0 {
        assert(s.drop_last() =~= a);
        assert(s.last() == '\n');
    } else {
        let b1 = b.drop_last();
        assert(s.drop_last() =~= a + (seq!['\n'] + b1));
        assert(s.last() == b.last());
        assert(b[b.len() - 1] != '\n');
        assert forall|i: int| 0 <= i < b1.len() implies b1[i] != '\n' by {
            assert(b1[i] == b[i]);
        }
        lemma_column_after_newline(a, b1);
    }
}

/// `x` as a `u32`, saturating at `u32::MAX`.
pub open spec fn clamp(x: int) -> u32 {
    if x > u32::MAX {
        u32::MAX
    } else {
        x as u32
    }
}

/// The 1-based line and column after reading `s`, saturating at `u32::MAX`.
pub open spec fn clamped_line_col(s: Seq<char>) -> (u32, u32) {
    (clamp(line_col(s).0), clamp(line_col(s).1))
}

/// The position after reading `c` at position `p`: a newline starts the
/// next line at column 1, any other character moves one column on.
pub open spec fn next_pos(p: (u32, u32), c: char) -> (u32, u32) {
    if c == '\n' {
        (clamp(p.0 + 1), 1u32)
    } else {
        (p.0, clamp(p.1 + 1))
    }
}

/// Reading one more character moves the position as [`next_pos`] says.
pub proof fn lemma_next_pos(s: Seq<char>, c: char)
    ensures
        clamped_line_col(s.push(c)) == next_pos(clamped_line_col(s), c),
{
    assert(s.push(c).drop_last() =~= s);
    lemma_line_col_positive(s);
}

/// Bytes read one by one as characters.
pub open spec fn byte_chars(b: Seq<u8>) -> Seq<char> {
    b.map_values(|x: u8| x as char)
}

/// What is left to read from a source.
pub open spec fn rest_of<S: CharSource>(s: &S) -> Seq<char> {
    s.text().skip(s.offset())
}

/// A source of characters for the reader.
pub trait CharSource: Sized {
    /// Everything this source delivers, from its start.
    spec fn text(&self) -> Seq<char>;

    /// How many characters of `text()` have been consumed.
    spec fn offset(&self) -> int;

    /// The position that `position` reports.
    spec fn pos(&self) -> (u32, u32);

    /// The source's invariant.
    spec fn wf(&self) -> bool;

    /// Read and consume the next character, or `None` at the end.
    fn read_char(&mut self) -> (r: Option<char>)
        requires
            old(self).wf(),
        ensures
            final(self).wf(),
            final(self).text() == old(self).text(),
            old(self).text().skip(old(self).offset()).len() == 0 ==> r is None
                && final(self).offset() == old(self).offset()
                && final(self).text().skip(final(self).offset()) == old(self).text().skip(old(self).offset()),
            old(self).text().skip(old(self).offset()).len() > 0 ==> r == Some(old(self).text().skip(old(self).offset())[0])
                && final(self).offset() == old(self).offset() + 1
                && final(self).text().skip(final(self).offset()) == old(self).text().skip(old(self).offset()).drop_first(),
            r is None ==> final(self).pos() == old(self).pos(),
            r matches Some(c) ==> final(self).pos() == next_pos(old(self).pos(), c),
    ;

    /// The next character without consuming it, or `None` at the end.
    fn peek_char(&mut self) -> (r: Option<char>)
        requires
            old(self).wf(),
        ensures
            *final(self) == *old(self),
            old(self).text().skip(old(self).offset()).len() == 0 ==> r is None,
            old(self).text().skip(old(self).offset()).len() > 0 ==> r == Some(old(self).text().skip(old(self).offset())[0]),
    ;

    /// The current 1-based line and column.
    fn position(&self) -> (r: (u32, u32))
        requires
            self.wf(),
        ensures
            r == self.pos(),
    ;

    /// Positions are 1-based: line and column are at least 1.
    proof fn lemma_pos_one_based(&self)
        requires
            self.wf(),
        ensures
            self.pos().0 >= 1,
            self.pos().1 >= 1,
    ;
}

/// What one call of [`CharSource::read_char`] does to a source, as its
/// contract states it: the text stays, and the next unread character, if
/// any, is returned and consumed.
pub open spec fn read_step<S: CharSource>(before: S, after: S, r: Option<char>) -> bool {
    &&& after.text() == before.text()
    &&& rest_of(&before).len() == 0 ==> r is None && after.offset() == before.offset()
    &&& rest_of(&before).len() > 0 ==> r == Some(rest_of(&before)[0]) && after.offset()
        == before.offset() + 1
}

/// The `k`-th of the reads that start at offset `o` of `t`: the character
/// there, or `None` past the end.
pub open spec fn kth_read(t: Seq<char>, o: int, k: int) -> Option<char> {
    if o + k < t.len() {
        Some(t[o + k])
    } else {
        None
    }
}

/// The offset after `k` reads that start at offset `o` of `t`.
pub open spec fn offset_after(t: Seq<char>, o: int, k: int) -> int {
    if o + k < t.len() {
        o + k
    } else {
        t.len() as int
    }
}

/// Successive reads deliver the unread text in order, one character each,
/// and then `None` on every later call: for states `states[0]`,
/// `states[1]`, ... of one source, each the result of a `read_char` on the
/// one before with result `results[k]`, the `k`-th result is the character
/// `k` places after the starting offset, or `None` past the end.
pub proof fn lemma_successive_reads<S: CharSource>(states: Seq<S>, results: Seq<Option<char>>)
    requires
        states.len() == results.len() + 1,
        0 <= states[0].offset() <= states[0].text().len(),
        forall|k: int|
            0 <= k < results.len() ==> #[trigger] read_step(states[k], states[k + 1], results[k]),
    ensures
        forall|k: int|
            0 <= k < states.len() ==> (#[trigger] states[k]).text() == states[0].text()
                && states[k].offset() == offset_after(states[0].text(), states[0].offset(), k),
        forall|k: int|
            0 <= k < results.len() ==> #[trigger] results[k] == kth_read(
                states[0].text(),
                states[0].offset(),
                k,
            ),
    decreases results.len(),
{
    if results.len() > 0 {
        let n = results.len() - 1;
        let st = states.take(n + 1);
        let rs = results.take(n);
        assert forall|k: int| 0 <= k < rs.len() implies #[trigger] read_step(
            st[k],
            st[k + 1],
            rs[k],
        ) by {
            assert(read_step(states[k], states[k + 1], results[k]));
        }
        lemma_successive_reads(st, rs);
        let t = states[0].text();
        let o = states[0].offset();
        assert(st[n] == states[n]);
        assert(states[n].text() == t && states[n].offset() == offset_after(t, o, n));
        assert(read_step(states[n], states[n + 1], results[n]));
        assert forall|k: int| 0 <= k < states.len() implies (#[trigger] states[k]).text() == t
            && states[k].offset() == offset_after(t, o, k) by {
            if k < n + 1 {
                assert(st[k] == states[k]);
            }
        }
        assert forall|k: int| 0 <= k < results.len() implies #[trigger] results[k] == kth_read(
            t,
            o,
            k,
        ) by {
            if k < n {
                assert(rs[k] == results[k]);
            }
        }
    }
}

/// Character source over source text, read byte by byte.
pub struct SliceSource<'a> {
    input: &'a [u8],
    pos: usize,
    line: u32,
    col: u32,
}

impl<'a> SliceSource<'a> {
    /// The bytes of the source text.
    pub closed spec fn bytes(&self) -> Seq<u8> {
        self.input@
    }

    /// The source text as characters.
    closed spec fn chars(&self) -> Seq<char> {
        byte_chars(self.input@)
    }

    /// The characters not yet consumed.
    closed spec fn remaining(&self) -> Seq<char> {
        self.chars().skip(self.pos as int)
    }

    /// The position fields follow the consumed text.
    closed spec fn inv(&self) -> bool {
        &&& self.pos <= self.input@.len()
        &&& (self.line, self.col) == clamped_line_col(self.chars().take(self.pos as int))
    }

    /// A source positioned at the start of `input` (line 1, column 1).
    pub fn new(input: &'a str) -> (s: Self)
        ensures
            s.wf(),
            s.bytes() == input.spec_bytes(),
            s.text() == byte_chars(input.spec_bytes()),
            s.offset() == 0,
            s.pos() == (1u32, 1u32),
    {
        let s = SliceSource { input: input.as_bytes(), pos: 0, line: 1, col: 1 };
        assert(s.text().take(0) =~= Seq::<char>::empty());
        s
    }

    /// Whether non-whitespace input remains. Skips whitespace and comments,
    /// so that the next read sees meaningful input.
    pub fn has_more(&mut self) -> (r: bool)
        requires
            old(self).wf(),
        ensures
            final(self).wf(),
            final(self).text() == old(self).text(),
            rest_of(final(self)) == skip_ws_spec(rest_of(old(self))),
            r == (rest_of(final(self)).len() > 0),
    {
        while self.pos < self.input.len()
            invariant
                self.inv(),
                self.chars() == old(self).chars(),
                self.input@.len() == old(self).input@.len(),
                skip_ws_spec(self.remaining()) == skip_ws_spec(old(self).remaining()),
            decreases self.input@.len() - self.pos,
        {
            let b = self.input[self.pos];
            let ghost p0 = self.pos;
            proof {
                self.lemma_rest_first();
            }
            if b == 10 {
                self.advance();
            } else if b == 32 || b == 9 || b == 13 {
                self.advance();
            } else if b == 59 {
                self.advance();
                while self.pos < self.input.len() && self.input[self.pos] != 10
                    invariant
                        self.inv(),
                        self.chars() == old(self).chars(),
                        self.input@.len() == old(self).input@.len(),
                        self.pos > p0,
                        skip_comment_spec(self.remaining()) == skip_ws_spec(old(self).remaining()),
                    decreases self.input@.len() - self.pos,
                {
                    proof {
                        self.lemma_rest_first();
                    }
                    self.advance();
                }
                proof {
                    if self.pos < self.input@.len() {
                        self.lemma_rest_first();
                    } else {
                        assert(self.remaining().len() == 0);
                    }
                }
            } else {
                return true;
            }
        }
        proof {
            self.lemma_rest_first();
        }
        false
    }

    proof fn lemma_rest_first(&self)
        requires
            self.inv(),
        ensures
            self.remaining().len() == self.input@.len() - self.pos,
            self.pos < self.input@.len() ==> self.remaining()[0] == (self.input@[self.pos as int] as char),
    {
    }

    /// Consume one byte, keeping the line and column.
    fn advance(&mut self)
        requires
            old(self).inv(),
            old(self).pos < old(self).input@.len(),
        ensures
            final(self).inv(),
            final(self).input == old(self).input,
            final(self).pos == old(self).pos + 1,
            final(self).chars() == old(self).chars(),
            final(self).remaining() == old(self).remaining().drop_first(),
            (final(self).line, final(self).col) == next_pos(
                (old(self).line, old(self).col),
                old(self).chars()[old(self).pos as int],
            ),
    {
        let ghost t = self.chars();
        let ghost p = self.pos as int;
        assert(t.take(p + 1) =~= t.take(p).push(t[p]));
        proof {
            lemma_next_pos(t.take(p), t[p]);
        }
        if self.input[self.pos] == 10 {
            self.line = self.line.saturating_add(1);
            self.col = 1;
        } else {
            self.col = self.col.saturating_add(1);
        }
        self.pos = self.pos + 1;
        assert(t.skip(p + 1) =~= t.skip(p).drop_first());
    }
}

/// A source over text reports the 1-based line and column that follow the
/// text it has consumed (saturating at `u32::MAX`); both are at least 1, so
/// every parse error read from text carries a 1-based position.
pub proof fn lemma_slice_position(src: &SliceSource)
    requires
        src.wf(),
    ensures
        src.text() == byte_chars(src.bytes()),
        0 <= src.offset() <= src.text().len(),
        src.pos() == clamped_line_col(src.text().take(src.offset())),
        src.pos().0 >= 1,
        src.pos().1 >= 1,
{
    lemma_line_col_positive(src.text().take(src.offset()));
}

impl<'a> CharSource for SliceSource<'a> {
    closed spec fn text(&self) -> Seq<char> {
        self.chars()
    }

    closed spec fn offset(&self) -> int {
        self.pos as int
    }

    /// The line and column after the consumed text.
    closed spec fn pos(&self) -> (u32, u32) {
        (self.line, self.col)
    }

    closed spec fn wf(&self) -> bool {
        self.inv()
    }

    fn read_char(&mut self) -> (r: Option<char>) {
        if self.pos < self.input.len() {
            proof {
                self.lemma_rest_first();
            }
            let ch = self.input[self.pos] as char;
            self.advance();
            Some(ch)
        } else {
            None
        }
    }

    fn peek_char(&mut self) -> (r: Option<char>) {
        if self.pos < self.input.len() {
            proof {
                self.lemma_rest_first();
            }
            Some(self.input[self.pos] as char)
        } else {
            None
        }
    }

    fn position(&self) -> (r: (u32, u32)) {
        (self.line, self.col)
    }

    proof fn lemma_pos_one_based(&self) {
        lemma_line_col_positive(self.chars().take(self.pos as int));
    }
}

/// Character source over a string (a chain of character cells) in the
/// arena. It reads from a copy of the arena taken when it is made; the
/// reader only appends slots, so the chain it reads is the same.
pub struct ChainSource {
    slots: Vec<Value>,
    cursor: ArenaIndex,
    line: u32,
    col: u32,
    text: Ghost<Seq<char>>,
    offset: Ghost<int>,
}

impl ChainSource {
    /// A source that delivers the characters of the chain at `cursor`.
    pub fn new(arena: &Lisp, cursor: ArenaIndex) -> (s: Self)
        requires
            arena.wf(),
        ensures
            s.wf(),
            s.text() == chain_chars(arena.cells(), cursor@ as int),
            s.offset() == 0,
            s.pos() == (1u32, 1u32),
    {
        let slots = arena.snapshot();
        let ghost text = chain_chars(arena.cells(), cursor@ as int);
        let s = ChainSource { slots, cursor, line: 1, col: 1, text: Ghost(text), offset: Ghost(0) };
        assert(text.skip(0) =~= text);
        assert(text.take(0) =~= Seq::<char>::empty());
        s
    }
}

/// A source over a chain reports the 1-based line and column that follow
/// the characters it has delivered (saturating at `u32::MAX`), as a source
/// over text does.
pub proof fn lemma_chain_position(src: &ChainSource)
    requires
        src.wf(),
    ensures
        0 <= src.offset() <= src.text().len(),
        src.pos() == clamped_line_col(src.text().take(src.offset())),
        src.pos().0 >= 1,
        src.pos().1 >= 1,
{
    lemma_line_col_positive(src.text().take(src.offset()));
}

impl CharSource for ChainSource {
    closed spec fn text(&self) -> Seq<char> {
        self.text@
    }

    closed spec fn offset(&self) -> int {
        self.offset@
    }

    /// The line and column after the delivered characters.
    closed spec fn pos(&self) -> (u32, u32) {
        (self.line, self.col)
    }

    closed spec fn wf(&self) -> bool {
        &&& ordered(self.slots@)
        &&& self.slots@.len() > intern_cell() ==> !(self.slots@[intern_cell()] is CharPair)
        &&& 0 <= self.offset@ <= self.text@.len()
        &&& chain_chars(self.slots@, self.cursor@ as int) == self.text@.skip(self.offset@)
        &&& (self.line, self.col) == clamped_line_col(self.text@.take(self.offset@))
    }

    fn read_char(&mut self) -> (r: Option<char>) {
        if self.cursor.is_nil() {
            return None;
        }
        let i = self.cursor.raw();
        if i >= self.slots.len() {
            return None;
        }
        match self.slots[i] {
            Value::CharPair { ch, cdr } => {
                assert(i as int != intern_cell());
                assert(refs_below(self.slots@[i as int], i as int));
                let ghost t = self.text@;
                let ghost k = self.offset@;
                assert(t.skip(k).len() > 0);
                assert(chain_chars(self.slots@, i as int) == seq![ch] + chain_chars(
                    self.slots@,
                    cdr@ as int,
                ));
                assert(t.skip(k)[0] == ch);
                assert(t[k] == ch);
                assert(t.take(k + 1) =~= t.take(k).push(ch));
                proof {
                    lemma_next_pos(t.take(k), ch);
                }
                self.cursor = cdr;
                self.offset = Ghost(k + 1);
                if ch == '\n' {
                    self.line = self.line.saturating_add(1);
                    self.col = 1;
                } else {
                    self.col = self.col.saturating_add(1);
                }
                assert(t.skip(k + 1) =~= t.skip(k).drop_first());
                assert(chain_chars(self.slots@, self.cursor@ as int) == self.text@.skip(self.offset@));
                Some(ch)
            },
            _ => None,
        }
    }

    fn peek_char(&mut self) -> (r: Option<char>) {
        if self.cursor.is_nil() {
            return None;
        }
        let i = self.cursor.raw();
        if i >= self.slots.len() {
            return None;
        }
        match self.slots[i] {
            Value::CharPair { ch, .. } => Some(ch),
            _ => None,
        }
    }

    fn position(&self) -> (r: (u32, u32)) {
        (self.line, self.col)
    }

    proof fn lemma_pos_one_based(&self) {
        lemma_line_col_positive(self.text@.take(self.offset@));
    }
}

} // verus!
