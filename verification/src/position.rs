//! Byte offsets to editor positions, and back.
//!
//! The compiler counts bytes; an editor counts UTF-16 code units within a line, which is
//! neither bytes nor characters. Getting this wrong is invisible in ASCII and silently
//! misplaces every span after the first non-ASCII character of a line.
//!
//! The index is built once per document version and binary-searched, rather than scanning
//! from the start for each diagnostic.

use crate::utf::{
    byte_len, chars_before, is_boundary, lemma_byte_len_monotone, lemma_byte_len_push,
    lemma_byte_len_strict, lemma_char_at, lemma_chars_before, lemma_take_bytes,
    lemma_utf16_at_most_bytes, lemma_utf16_concat, lemma_whole_is_boundary, units_of, utf16_len,
    utf16_width, width_of,
};
use vstd::prelude::*;
use vstd::utf8::*;

verus! {

/// A place in a document as an editor names it: a line, and UTF-16 code units into it.
#[derive(Debug, Clone, Copy, PartialEq, Eq, Structural)]
pub struct Position {
    pub line: u32,
    pub character: u32,
}

/// Two positions, the second one excluded.
#[derive(Debug, Clone, Copy, PartialEq, Eq, Structural)]
pub struct Range {
    pub start: Position,
    pub end: Position,
}

/// How many line breaks a text holds.
pub open spec fn newlines(s: Seq<char>) -> nat
    decreases s.len(),
{
    if s.len() == 0 {
        0
    } else if s.last() == '\n' {
        newlines(s.drop_last()) + 1
    } else {
        newlines(s.drop_last())
    }
}

/// What follows the last line break of a text.
pub open spec fn line_tail(s: Seq<char>) -> Seq<char>
    decreases s.len(),
{
    if s.len() == 0 || s.last() == '\n' {
        Seq::empty()
    } else {
        line_tail(s.drop_last()).push(s.last())
    }
}

/// The byte offset at which each line of a text begins.
pub open spec fn line_starts(s: Seq<char>) -> Seq<nat>
    decreases s.len(),
{
    if s.len() == 0 {
        seq![0]
    } else if s.last() == '\n' {
        line_starts(s.drop_last()).push(byte_len(s))
    } else {
        line_starts(s.drop_last())
    }
}

/// How many characters come before line `l`, which is to say after the `l`-th line break.
pub open spec fn line_begin(s: Seq<char>, l: nat) -> nat
    decreases s.len(),
{
    if l == 0 || s.len() == 0 {
        0
    } else if s.last() == '\n' && newlines(s) == l {
        s.len()
    } else {
        line_begin(s.drop_last(), l)
    }
}

/// How many characters come before the end of line `l`, its line break included.
pub open spec fn line_end(s: Seq<char>, l: nat) -> nat {
    if l < newlines(s) {
        line_begin(s, l + 1)
    } else {
        s.len()
    }
}

/// How many characters of a line it takes to reach `units` UTF-16 code units, or all of them
/// when the line is shorter.
pub open spec fn reach(line: Seq<char>, units: int) -> nat
    decreases line.len(),
{
    if line.len() == 0 || units <= 0 {
        0
    } else {
        1 + reach(line.drop_first(), units - utf16_width(line[0]))
    }
}

/// The offset itself, or the end of the text when it lies beyond.
pub open spec fn clamped(text: Seq<char>, offset: int) -> int {
    if offset > byte_len(text) {
        byte_len(text) as int
    } else {
        offset
    }
}

/// Whether an offset has a position: it begins a character, or it lies at or past the end.
pub open spec fn has_position(text: Seq<char>, offset: int) -> bool {
    is_boundary(text, clamped(text, offset))
}

/// The position of a byte offset: line breaks before it, and code units since the last one.
pub open spec fn position_of(text: Seq<char>, offset: int) -> Position {
    let before = text.take(chars_before(text, clamped(text, offset)));
    Position {
        line: newlines(before) as u32,
        character: utf16_len(line_tail(before)) as u32,
    }
}

/// Whether the counts of an offset's position fit a position's 32 bits.
pub open spec fn countable(text: Seq<char>, offset: int) -> bool {
    let before = text.take(chars_before(text, clamped(text, offset)));
    newlines(before) <= u32::MAX && utf16_len(line_tail(before)) <= u32::MAX
}

/// The byte offset of a position.
pub open spec fn offset_of(text: Seq<char>, pos: Position) -> nat {
    if pos.line > newlines(text) {
        byte_len(text)
    } else {
        let from = line_begin(text, pos.line as nat) as int;
        let to = line_end(text, pos.line as nat) as int;
        byte_len(text.take(from + reach(text.subrange(from, to), pos.character as int)))
    }
}

proof fn lemma_newlines_monotone(text: Seq<char>, j: int, k: int)
    requires
        0 <= j <= k <= text.len(),
    ensures
        newlines(text.take(j)) <= newlines(text.take(k)),
    decreases k - j,
{
    if j < k {
        lemma_newlines_monotone(text, j, k - 1);
        assert(text.take(k).drop_last() =~= text.take(k - 1));
    }
}

proof fn lemma_newlines_at_most_len(s: Seq<char>)
    ensures
        newlines(s) <= s.len(),
    decreases s.len(),
{
    if s.len() > 0 {
        lemma_newlines_at_most_len(s.drop_last());
    }
}

/// One entry per line, the first one 0, none past the end.
proof fn lemma_starts_shape(s: Seq<char>)
    ensures
        line_starts(s).len() == newlines(s) + 1,
        line_starts(s)[0] == 0,
        forall|i: int| 0 <= i < line_starts(s).len() ==> #[trigger] line_starts(s)[i] <= byte_len(s),
    decreases s.len(),
{
    if s.len() > 0 {
        lemma_starts_shape(s.drop_last());
        assert(s.drop_last().push(s.last()) =~= s);
        lemma_byte_len_push(s.drop_last(), s.last());
    }
}

/// The lines of a prefix begin where those of the text do; the others begin after it.
proof fn lemma_starts_prefix(text: Seq<char>, k: int)
    requires
        0 <= k <= text.len(),
    ensures
        line_starts(text.take(k)).len() <= line_starts(text).len(),
        line_starts(text.take(k)) == line_starts(text).take(
            line_starts(text.take(k)).len() as int,
        ),
        forall|i: int|
            line_starts(text.take(k)).len() <= i < line_starts(text).len()
                ==> #[trigger] line_starts(text)[i] > byte_len(text.take(k)),
    decreases text.len() - k,
{
    if k == text.len() {
        assert(text.take(k) =~= text);
        assert(line_starts(text).take(line_starts(text).len() as int) =~= line_starts(text));
    } else {
        lemma_starts_prefix(text, k + 1);
        let next = text.take(k + 1);
        assert(next.drop_last() =~= text.take(k));
        lemma_byte_len_strict(text, k, k + 1);
        let here = line_starts(text.take(k));
        assert(line_starts(next).take(here.len() as int) =~= here);
        assert(line_starts(text).take(here.len() as int) =~= here) by {
            assert(line_starts(text).take(line_starts(next).len() as int).take(here.len() as int)
                =~= line_starts(text).take(here.len() as int));
        }
        assert forall|i: int| here.len() <= i < line_starts(text).len() implies #[trigger] line_starts(
            text,
        )[i] > byte_len(text.take(k)) by {
            if i < line_starts(next).len() {
                assert(line_starts(text)[i] == line_starts(next)[i]);
            }
        }
    }
}

/// Where line `l` of a prefix begins, it begins in the whole text.
proof fn lemma_begin_prefix(text: Seq<char>, k: int, l: nat)
    requires
        0 <= k <= text.len(),
        l <= newlines(text.take(k)),
    ensures
        line_begin(text, l) == line_begin(text.take(k), l),
        line_begin(text, l) <= k,
    decreases text.len() - k,
{
    if k == text.len() {
        assert(text.take(k) =~= text);
        lemma_begin_at_most_len(text, l);
    } else {
        let next = text.take(k + 1);
        assert(next.drop_last() =~= text.take(k));
        lemma_begin_prefix(text, k + 1, l);
        lemma_begin_at_most_len(text.take(k), l);
        if text.take(k).len() == 0 {
            reveal_with_fuel(newlines, 2);
        }
    }
}

proof fn lemma_begin_at_most_len(s: Seq<char>, l: nat)
    ensures
        line_begin(s, l) <= s.len(),
    decreases s.len(),
{
    if s.len() > 0 {
        lemma_begin_at_most_len(s.drop_last(), l);
    }
}

/// The text since the last line break is what lies between the line's beginning and here.
proof fn lemma_tail(text: Seq<char>, k: int)
    requires
        0 <= k <= text.len(),
    ensures
        ({
            let b = line_begin(text, newlines(text.take(k))) as int;
            &&& 0 <= b <= k
            &&& line_tail(text.take(k)) == text.subrange(b, k)
        }),
    decreases k,
{
    let here = text.take(k);
    lemma_begin_prefix(text, k, newlines(here));
    if k == 0 {
        assert(text.subrange(0, 0) =~= Seq::<char>::empty());
    } else if here.last() == '\n' {
        assert(line_begin(here, newlines(here)) == k);
        assert(text.subrange(k, k) =~= Seq::<char>::empty());
    } else {
        lemma_tail(text, k - 1);
        assert(here.drop_last() =~= text.take(k - 1));
        let b = line_begin(text, newlines(here)) as int;
        assert(text.subrange(b, k - 1).push(text[k - 1]) =~= text.subrange(b, k));
    }
}

/// Where each line begins, in characters and in bytes.
proof fn lemma_starts_begin(text: Seq<char>, l: nat)
    requires
        l <= newlines(text),
    ensures
        line_begin(text, l) <= text.len(),
        line_starts(text).len() == newlines(text) + 1,
        line_starts(text)[l as int] == byte_len(text.take(line_begin(text, l) as int)),
        newlines(text.take(line_begin(text, l) as int)) == l,
    decreases text.len(),
{
    lemma_starts_shape(text);
    lemma_begin_at_most_len(text, l);
    if l == 0 {
        assert(text.take(0) =~= Seq::<char>::empty());
    } else if text.last() == '\n' && newlines(text) == l {
        assert(text.take(text.len() as int) =~= text);
        lemma_starts_shape(text.drop_last());
    } else {
        lemma_starts_begin(text.drop_last(), l);
        lemma_starts_shape(text.drop_last());
        let b = line_begin(text, l) as int;
        assert(text.drop_last().take(b) =~= text.take(b));
    }
}

/// Walking `n` characters into a line that has not used up its units so far walks on.
proof fn lemma_reach_split(line: Seq<char>, n: int, units: int)
    requires
        0 <= n <= line.len(),
        n == 0 || utf16_len(line.take(n - 1)) < units,
    ensures
        reach(line, units) == n + reach(line.skip(n), units - utf16_len(line.take(n))),
    decreases n,
{
    if n == 0 {
        assert(line.skip(0) =~= line);
        assert(line.take(0) =~= Seq::<char>::empty());
    } else {
        assert(line.take(n).drop_last() =~= line.take(n - 1));
        if n > 1 {
            assert(line.take(n - 1).drop_last() =~= line.take(n - 2));
        }
        lemma_reach_split(line, n - 1, units);
        let rest = line.skip(n - 1);
        assert(rest.drop_first() =~= line.skip(n));
        assert(rest[0] == line[n - 1]);
    }
}

/// Line start offsets for one document, for turning byte offsets into positions.
pub struct LineIndex {
    /// Byte offset of the first character of each line. Always starts with 0, so a document
    /// with no newlines still has one entry.
    starts: Vec<usize>,
    text: String,
}

impl View for LineIndex {
    type V = Seq<char>;

    /// A line index stands for the text it indexes.
    closed spec fn view(&self) -> Seq<char> {
        self.text@
    }
}

impl LineIndex {
    #[verifier::type_invariant]
    spec fn indexed(self) -> bool {
        &&& self.starts@.len() == line_starts(self.text@).len()
        &&& forall|i: int|
            0 <= i < self.starts@.len() ==> #[trigger] self.starts@[i] == line_starts(
                self.text@,
            )[i]
    }

    pub fn new(text: &str) -> (index: LineIndex)
        ensures
            index@ == text@,
    {
        let bytes = text.as_bytes();
        let len: usize = bytes.len();
        let mut starts: Vec<usize> = Vec::new();
        starts.push(0);
        let mut i: usize = 0;
        let ghost mut k: int = 0;
        proof {
            assert(text@.take(0) =~= Seq::<char>::empty());
        }
        while i < len
            invariant
                bytes@ == encode_utf8(text@),
                len == bytes@.len(),
                0 <= k <= text@.len(),
                i == byte_len(text@.take(k)),
                i <= len,
                starts@.len() == line_starts(text@.take(k)).len(),
                forall|j: int|
                    0 <= j < starts@.len() ==> #[trigger] starts@[j] == line_starts(
                        text@.take(k),
                    )[j],
            decreases len - i,
        {
            proof {
                if k == text@.len() {
                    assert(text@.take(k) =~= text@);
                }
                lemma_char_at(text@, k);
                assert(text@.take(k + 1).drop_last() =~= text@.take(k));
            }
            let b: u8 = bytes[i];
            i = i + width_of(b);
            if b == 0x0A {
                starts.push(i);
            }
            proof {
                k = k + 1;
            }
        }
        proof {
            if k < text@.len() {
                lemma_char_at(text@, k);
            }
            assert(text@.take(k) =~= text@);
        }
        LineIndex { starts, text: text.to_owned() }
    }

    pub fn text(&self) -> (text: &str)
        ensures
            text@ == self@,
    {
        self.text.as_str()
    }

    /// The position of a byte offset. An offset past the end clamps to the end of the
    /// document: a span that runs off the end is a compiler bug, but dropping the diagnostic
    /// in an editor session is a worse answer than pointing at the last character.
    pub fn position(&self, offset: usize) -> (pos: Position)
        requires
            has_position(self@, offset as int),
        ensures
            pos == position_of(self@, offset as int),
    {
        proof {
            use_type_invariant(self);
        }
        let ghost text = self.text@;
        let bytes = self.text.as_str().as_bytes();
        let len: usize = bytes.len();
        let at: usize = if offset < len {
            offset
        } else {
            len
        };
        let ghost k = chars_before(text, at as int);
        proof {
            assert(at == clamped(text, offset as int));
            lemma_starts_prefix(text, k);
            lemma_starts_shape(text.take(k));
            lemma_starts_shape(text);
            assert forall|i: int| 0 <= i < line_starts(text.take(k)).len() implies #[trigger] line_starts(
                text,
            )[i] <= at by {
                assert(line_starts(text)[i] == line_starts(text.take(k))[i]);
            }
        }
        let ghost lines = line_starts(text.take(k)).len();
        let mut lo: usize = 0;
        let mut hi: usize = self.starts.len();
        while lo < hi
            invariant
                lo <= hi <= self.starts@.len(),
                self.starts@.len() == line_starts(text).len(),
                lines <= line_starts(text).len(),
                forall|i: int|
                    0 <= i < self.starts@.len() ==> #[trigger] self.starts@[i] == line_starts(
                        text,
                    )[i],
                forall|i: int|
                    #![trigger line_starts(text)[i]]
                    0 <= i < lines ==> line_starts(text)[i] <= at,
                forall|i: int|
                    lines <= i < line_starts(text).len() ==> #[trigger] line_starts(text)[i] > at,
                lo <= lines <= hi,
            decreases hi - lo,
        {
            let mid: usize = lo + (hi - lo) / 2;
            if self.starts[mid] <= at {
                lo = mid + 1;
            } else {
                hi = mid;
            }
        }
        let line: usize = lo - 1;
        let mut i: usize = self.starts[line];
        let mut units: usize = 0;
        let ghost b = line_begin(text, line as nat) as int;
        let ghost mut j: int = b;
        proof {
            lemma_tail(text, k);
            lemma_newlines_monotone(text, k, text.len() as int);
            assert(text.take(text.len() as int) =~= text);
            lemma_starts_begin(text, line as nat);
            assert(text.subrange(b, b) =~= Seq::<char>::empty());
        }
        while i < at
            invariant
                bytes@ == encode_utf8(text),
                0 <= b <= j <= k <= text.len(),
                i == byte_len(text.take(j)),
                at == byte_len(text.take(k)),
                at <= bytes@.len(),
                units == utf16_len(text.subrange(b, j)),
                units <= i,
            decreases at - i,
        {
            proof {
                if j < k {
                    lemma_char_at(text, j);
                    lemma_byte_len_monotone(text, j + 1, k);
                }
                assert(text.subrange(b, j + 1).drop_last() =~= text.subrange(b, j));
            }
            let first: u8 = bytes[i];
            units = units + units_of(first);
            i = i + width_of(first);
            proof {
                j = j + 1;
            }
        }
        proof {
            if j < k {
                lemma_byte_len_strict(text, j, k);
            }
        }
        Position { line: line as u32, character: units as u32 }
    }

    /// The byte offset of a position: `position` run backwards.
    ///
    /// Out-of-range input clamps rather than failing. An editor can legitimately ask about a
    /// position one past the end of a line, and a client racing a document change can ask
    /// about a line that no longer exists. Neither deserves an error response.
    pub fn offset(&self, pos: Position) -> (offset: usize)
        ensures
            offset == offset_of(self@, pos),
            is_boundary(self@, offset as int),
    {
        proof {
            use_type_invariant(self);
        }
        let ghost text = self.text@;
        let bytes = self.text.as_str().as_bytes();
        let line: usize = pos.line as usize;
        proof {
            lemma_starts_shape(text);
            assert(text.take(text.len() as int) =~= text);
        }
        if line >= self.starts.len() {
            proof {
                lemma_chars_before(text, text.len() as int);
            }
            return bytes.len();
        }
        let start: usize = self.starts[line];
        let end: usize = if line + 1 < self.starts.len() {
            self.starts[line + 1]
        } else {
            bytes.len()
        };
        let ghost from = line_begin(text, line as nat) as int;
        let ghost to = line_end(text, line as nat) as int;
        let ghost whole = text.subrange(from, to);
        proof {
            lemma_starts_begin(text, line as nat);
            if line < newlines(text) {
                lemma_starts_begin(text, line as nat + 1);
                lemma_newlines_monotone_strict(text, from, to);
            }
        }
        let mut i: usize = start;
        let mut units: usize = 0;
        let ghost mut n: int = 0;
        proof {
            assert(whole.take(0) =~= Seq::<char>::empty());
        }
        while i < end
            invariant
                bytes@ == encode_utf8(text),
                0 <= from <= to <= text.len(),
                whole == text.subrange(from, to),
                0 <= n <= to - from,
                i == byte_len(text.take(from + n)),
                end == byte_len(text.take(to)),
                end <= bytes@.len(),
                units == utf16_len(whole.take(n)),
                units <= i,
                n == 0 || utf16_len(whole.take(n - 1)) < pos.character,
                line == pos.line,
                from == line_begin(text, line as nat),
                to == line_end(text, line as nat),
                line <= newlines(text),
                text == self@,
            decreases end - i,
        {
            proof {
                lemma_reach_split(whole, n, pos.character as int);
                lemma_chars_before(text, from + n);
            }
            if units >= pos.character as usize {
                return i;
            }
            proof {
                if n < to - from {
                    lemma_char_at(text, from + n);
                    lemma_byte_len_monotone(text, from + n + 1, to);
                    assert(whole[n] == text[from + n]);
                    assert(whole.take(n + 1).drop_last() =~= whole.take(n));
                }
            }
            let first: u8 = bytes[i];
            units = units + units_of(first);
            i = i + width_of(first);
            proof {
                n = n + 1;
            }
        }
        proof {
            if n < to - from {
                lemma_byte_len_strict(text, from + n, to);
            }
            lemma_reach_split(whole, n, pos.character as int);
            assert(whole.skip(n).len() == 0);
            lemma_chars_before(text, to);
        }
        end
    }
}

/// More line breaks take more characters.
proof fn lemma_newlines_monotone_strict(text: Seq<char>, j: int, k: int)
    requires
        0 <= j <= text.len(),
        0 <= k <= text.len(),
        newlines(text.take(j)) < newlines(text.take(k)),
    ensures
        j < k,
{
    if k <= j {
        lemma_newlines_monotone(text, k, j);
    }
}

/// Whether one position comes before another.
pub open spec fn comes_before(a: Position, b: Position) -> bool {
    a.line < b.line || (a.line == b.line && a.character < b.character)
}

/// Whether a position is another or comes before it.
pub open spec fn not_after(a: Position, b: Position) -> bool {
    a == b || comes_before(a, b)
}

/// Asking for the position of an offset and then for the offset of that position gets back to
/// the start, wherever the counts of the position fit.
pub proof fn law_offsets_and_positions_round_trip(text: Seq<char>, offset: int)
    requires
        is_boundary(text, offset),
        countable(text, offset),
    ensures
        offset_of(text, position_of(text, offset)) == offset,
{
    let k = chars_before(text, offset);
    let before = text.take(k);
    let l = newlines(before);
    lemma_byte_len_monotone(text, k, text.len() as int);
    assert(text.take(text.len() as int) =~= text);
    lemma_newlines_monotone(text, k, text.len() as int);
    lemma_tail(text, k);
    let from = line_begin(text, l) as int;
    let to = line_end(text, l) as int;
    lemma_starts_begin(text, l);
    if l < newlines(text) {
        lemma_starts_begin(text, l + 1);
        lemma_newlines_monotone_strict(text, k, to);
    }
    let line = text.subrange(from, to);
    let n = k - from;
    assert(line.take(n) =~= line_tail(before));
    let units = utf16_len(line.take(n)) as int;
    if n > 0 {
        assert(line.take(n).drop_last() =~= line.take(n - 1));
    }
    lemma_reach_split(line, n, units);
}

/// In a text of fewer than four gigabytes the counts of every position fit.
pub proof fn law_positions_fit_an_ordinary_text(text: Seq<char>, offset: int)
    requires
        has_position(text, offset),
        byte_len(text) <= u32::MAX,
    ensures
        countable(text, offset),
{
    let k = chars_before(text, clamped(text, offset));
    let before = text.take(k);
    lemma_byte_len_monotone(text, k, text.len() as int);
    assert(text.take(text.len() as int) =~= text);
    lemma_newlines_at_most_len(before);
    lemma_utf16_at_most_bytes(before);
    lemma_tail(text, k);
    let b = line_begin(text, newlines(before)) as int;
    assert(before =~= text.take(b) + text.subrange(b, k));
    lemma_utf16_concat(text.take(b), text.subrange(b, k));
}

/// An offset past the end has the position of the end.
pub proof fn law_an_offset_past_the_end_clamps(text: Seq<char>, offset: int)
    requires
        offset >= byte_len(text),
    ensures
        has_position(text, offset),
        position_of(text, offset) == position_of(text, byte_len(text) as int),
{
    assert(text.take(text.len() as int) =~= text);
    lemma_chars_before(text, text.len() as int);
}

/// A later offset never has an earlier position, and a later boundary has a later one.
pub proof fn law_positions_keep_the_order_of_offsets(text: Seq<char>, a: int, b: int)
    requires
        has_position(text, a),
        has_position(text, b),
        a <= b,
        countable(text, a),
        countable(text, b),
    ensures
        position_of(text, a) == position_of(text, b) || comes_before(
            position_of(text, a),
            position_of(text, b),
        ),
        a < b <= byte_len(text) ==> comes_before(position_of(text, a), position_of(text, b)),
{
    let j = chars_before(text, clamped(text, a));
    let k = chars_before(text, clamped(text, b));
    if k < j {
        lemma_byte_len_strict(text, k, j);
    }
    lemma_newlines_monotone(text, j, k);
    lemma_tail(text, j);
    lemma_tail(text, k);
    if j < k && newlines(text.take(j)) == newlines(text.take(k)) {
        let from = line_begin(text, newlines(text.take(j))) as int;
        assert(text.subrange(from, k) =~= text.subrange(from, j) + text.subrange(j, k));
        lemma_utf16_concat(text.subrange(from, j), text.subrange(j, k));
        lemma_utf16_at_most_bytes(text.subrange(j, k));
    }
}

/// A position stays on its line: its offset is never before the line's beginning, and never
/// past the beginning of the next line however large its character count is.
pub proof fn law_an_offset_stays_on_its_line(text: Seq<char>, pos: Position)
    requires
        pos.line <= newlines(text),
    ensures
        line_starts(text)[pos.line as int] <= offset_of(text, pos),
        pos.line < newlines(text) ==> offset_of(text, pos) <= line_starts(text)[pos.line + 1],
        offset_of(text, pos) <= byte_len(text),
        pos.character >= utf16_len(
            text.subrange(
                line_begin(text, pos.line as nat) as int,
                line_end(text, pos.line as nat) as int,
            ),
        ) ==> offset_of(text, pos) == byte_len(
            text.take(line_end(text, pos.line as nat) as int),
        ),
{
    let l = pos.line as nat;
    let from = line_begin(text, l) as int;
    let to = line_end(text, l) as int;
    lemma_starts_begin(text, l);
    if l < newlines(text) {
        lemma_starts_begin(text, l + 1);
        lemma_newlines_monotone_strict(text, from, to);
    }
    let line = text.subrange(from, to);
    lemma_reach_bounded(line, pos.character as int);
    let r = reach(line, pos.character as int) as int;
    lemma_byte_len_monotone(text, from, from + r);
    lemma_byte_len_monotone(text, from + r, to);
    lemma_byte_len_monotone(text, to, text.len() as int);
    assert(text.take(text.len() as int) =~= text);
    if pos.character >= utf16_len(line) && line.len() > 0 {
        assert(line.take(line.len() as int) =~= line);
        lemma_reach_split(line, line.len() as int, pos.character as int);
    }
}

proof fn lemma_reach_bounded(line: Seq<char>, units: int)
    ensures
        reach(line, units) <= line.len(),
    decreases line.len(),
{
    if line.len() > 0 && units > 0 {
        lemma_reach_bounded(line.drop_first(), units - utf16_width(line[0]));
    }
}

/// A line that does not exist stands for the end of the text.
pub proof fn law_a_line_that_does_not_exist_clamps(text: Seq<char>, pos: Position)
    requires
        pos.line > newlines(text),
    ensures
        offset_of(text, pos) == byte_len(text),
{
}

/// Positions count lines and UTF-16 code units: the first is the text's beginning, a line break
/// leads to the beginning of the next line, and any other character leads one code unit on, or
/// two where it takes a surrogate pair.
pub proof fn law_positions_count_lines_and_code_units(text: Seq<char>, k: int)
    requires
        0 <= k < text.len(),
        countable(text, byte_len(text.take(k)) as int),
        countable(text, byte_len(text.take(k + 1)) as int),
    ensures
        position_of(text, 0) == (Position { line: 0, character: 0 }),
        ({
            let here = position_of(text, byte_len(text.take(k)) as int);
            let next = position_of(text, byte_len(text.take(k + 1)) as int);
            if text[k] == '\n' {
                next.line == here.line + 1 && next.character == 0
            } else {
                next.line == here.line && next.character == here.character + (if (text[k] as u32)
                    >= 0x10000 {
                    2int
                } else {
                    1int
                })
            }
        }),
{
    lemma_chars_before(text, 0);
    lemma_chars_before(text, k);
    lemma_chars_before(text, k + 1);
    lemma_take_bytes(text, k);
    lemma_take_bytes(text, k + 1);
    assert(text.take(0) =~= Seq::<char>::empty());
    assert(byte_len(text.take(0)) == 0);
    let (a, b) = (text.take(k), text.take(k + 1));
    assert(b.drop_last() =~= a);
    assert(line_tail(text.take(0)) =~= Seq::<char>::empty());
    if text[k] != '\n' {
        assert(line_tail(b) =~= line_tail(a).push(text[k]));
        assert(line_tail(b).drop_last() =~= line_tail(a));
    }
}

/// Line breaks are counted one by one.
pub proof fn law_line_breaks_are_counted(a: Seq<char>, c: char)
    ensures
        newlines(Seq::<char>::empty()) == 0,
        newlines(a.push(c)) == newlines(a) + (if c == '\n' {
            1int
        } else {
            0int
        }),
{
    assert(a.push(c).drop_last() =~= a);
}

proof fn lemma_reach_least(line: Seq<char>, units: int)
    ensures
        reach(line, units) <= line.len(),
        reach(line, units) == line.len() || utf16_len(line.take(reach(line, units) as int))
            >= units,
        forall|j: int|
            0 <= j < reach(line, units) ==> utf16_len(#[trigger] line.take(j)) < units,
    decreases line.len(),
{
    if line.len() == 0 || units <= 0 {
    } else {
        let rest = line.drop_first();
        let left = units - utf16_width(line[0]);
        lemma_reach_least(rest, left);
        assert forall|j: int| 0 < j <= line.len() implies utf16_len(#[trigger] line.take(j))
            == utf16_width(line[0]) + utf16_len(rest.take(j - 1)) by {
            assert(line.take(j) =~= seq![line[0]] + rest.take(j - 1));
            lemma_utf16_concat(seq![line[0]], rest.take(j - 1));
            assert(seq![line[0]].drop_last() =~= Seq::<char>::empty());
            reveal_with_fuel(utf16_len, 2);
        }
        let r = reach(line, units) as int;
        assert(utf16_len(line.take(r)) == utf16_width(line[0]) + utf16_len(rest.take(r - 1)));
        assert forall|j: int| 0 <= j < r implies utf16_len(#[trigger] line.take(j)) < units by {
            if j == 0 {
                assert(line.take(0) =~= Seq::<char>::empty());
            } else {
                assert(utf16_len(rest.take(j - 1)) < left);
            }
        }
    }
}

proof fn lemma_line_begins(text: Seq<char>, from: int, l: nat)
    requires
        0 <= from <= text.len(),
        from == 0 || text[from - 1] == '\n',
        newlines(text.take(from)) == l,
    ensures
        line_begin(text, l) == from,
{
    lemma_begin_prefix(text, from, l);
    if from == 0 {
        assert(text.take(0) =~= Seq::<char>::empty());
    } else {
        assert(text.take(from).last() == '\n');
        assert(text.take(from).drop_last() =~= text.take(from - 1));
    }
}

proof fn lemma_same_line(text: Seq<char>, from: int, j: int)
    requires
        0 <= from <= j <= text.len(),
        forall|i: int| from <= i < j ==> #[trigger] text[i] != '\n',
    ensures
        newlines(text.take(j)) == newlines(text.take(from)),
    decreases j - from,
{
    if from < j {
        lemma_same_line(text, from, j - 1);
        assert(text.take(j).drop_last() =~= text.take(j - 1));
    }
}

/// A position stands for the first place of its line that is at least that many UTF-16 code units
/// into it, or for the line's end where there is none. The line begins at `from`, after as many
/// line breaks as its number says, and ends at `to`, after the next one or with the text.
pub proof fn law_an_offset_is_the_first_place_far_enough(
    text: Seq<char>,
    pos: Position,
    from: int,
    to: int,
) -> (k: int)
    requires
        0 <= from <= to <= text.len(),
        newlines(text.take(from)) == pos.line,
        from == 0 || text[from - 1] == '\n',
        forall|i: int| from <= i < to - 1 ==> #[trigger] text[i] != '\n',
        from < to && text[to - 1] == '\n' || to == text.len(),
    ensures
        from <= k <= to,
        offset_of(text, pos) == byte_len(text.take(k)),
        k == to || utf16_len(text.subrange(from, k)) >= pos.character,
        forall|j: int|
            from <= j < k ==> utf16_len(#[trigger] text.subrange(from, j)) < pos.character,
{
    let l = pos.line as nat;
    lemma_line_begins(text, from, l);
    lemma_newlines_monotone(text, from, text.len() as int);
    assert(text.take(text.len() as int) =~= text);
    if from < to && text[to - 1] == '\n' {
        lemma_same_line(text, from, to - 1);
        assert(text.take(to).drop_last() =~= text.take(to - 1));
        assert(newlines(text.take(to)) == l + 1);
        lemma_line_begins(text, to, l + 1);
        lemma_newlines_monotone(text, to, text.len() as int);
    } else {
        if from < to {
            assert forall|i: int| from <= i < to implies #[trigger] text[i] != '\n' by {}
        }
        lemma_same_line(text, from, to);
    }
    assert(line_end(text, l) == to);
    let line = text.subrange(from, to);
    lemma_reach_least(line, pos.character as int);
    let k = from + reach(line, pos.character as int);
    assert(line.take(k - from) =~= text.subrange(from, k));
    assert forall|j: int| from <= j < k implies utf16_len(#[trigger] text.subrange(from, j))
        < pos.character by {
        assert(line.take(j - from) =~= text.subrange(from, j));
    }
    k
}

/// An offset has a position exactly when it lies between two characters, at either end of the
/// text, or past its end.
pub proof fn law_what_has_a_position(text: Seq<char>, offset: int)
    ensures
        offset > byte_len(text) ==> has_position(text, offset),
        0 <= offset <= byte_len(text) ==> (has_position(text, offset) <==> exists|k: int|
            0 <= k <= text.len() && offset == #[trigger] byte_len(text.take(k))),
{
    lemma_whole_is_boundary(text);
}

/// Of two positions on different lines the one on the upper line comes first, of two on one line
/// the one further left; and one is not after another where the other does not come before it.
pub proof fn law_positions_are_in_reading_order(a: Position, b: Position)
    ensures
        a.line < b.line ==> comes_before(a, b) && !comes_before(b, a),
        a.line == b.line ==> (comes_before(a, b) <==> a.character < b.character),
        not_after(a, b) <==> !comes_before(b, a),
{
}

} // verus!
