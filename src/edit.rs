//! Structural edit descriptors: a text change told in the byte offsets and
//! byte-oriented rows and columns that the parser keeps in its trees.

use crate::error::AnalysisError;
use crate::text::{
    char_at_position, lemma_encode_concat, lemma_take_mono, lemma_take_step, newlines, utf8_column,
    utf8_len, utf8_width, Document, Position,
};
use vstd::utf8::{encode_scalar, encode_utf8};
use vstd::prelude::*;
use vstd::string::StrSliceExecFns;

verus! {

/// A row and a byte column in a text.
#[derive(Debug, Clone, Copy, PartialEq, Eq, Structural)]
pub struct Point {
    pub row: usize,
    pub column: usize,
}

/// One text change: the byte span `start_byte..old_end_byte` of the old text
/// became `start_byte..new_end_byte` of the new one.
#[derive(Debug, Clone, Copy, PartialEq, Eq, Structural)]
pub struct InputEdit {
    pub start_byte: usize,
    pub old_end_byte: usize,
    pub new_end_byte: usize,
    pub start_position: Point,
    pub old_end_position: Point,
    pub new_end_position: Point,
}

/// Conversion from a value of the editor protocol.
pub trait FromLsp<T>: Sized {
    /// The value that `value` converts to.
    spec fn spec_from_lsp(value: T) -> Self;

    fn from_lsp(value: T) -> (r: Self)
        ensures
            r == Self::spec_from_lsp(value),
    ;
}

impl FromLsp<Position> for Point {
    /// The row is the line and the column the character of the position,
    /// taken over as they stand: the column counts code units, which is the
    /// byte column only on lines of ASCII text. `Document::byte_point` gives
    /// the byte column of any line.
    open spec fn spec_from_lsp(value: Position) -> Point {
        Point { row: value.line as usize, column: value.character as usize }
    }

    fn from_lsp(value: Position) -> (r: Point) {
        Point { row: value.line as usize, column: value.character as usize }
    }
}

/// `p` is the point of character index `c` of `s`.
pub open spec fn is_point_of(s: Seq<char>, c: int, p: Point) -> bool {
    &&& p.row == newlines(s.take(c))
    &&& p.column == utf8_column(s, c)
}

/// `e` describes replacing the characters `start..old_end` of `before` by
/// those of `before` that end at `new_end` in `after`: offsets and points of
/// the start and the old end are taken in `before`, of the new end in `after`.
pub open spec fn describes_edit(
    e: InputEdit,
    before: Seq<char>,
    after: Seq<char>,
    start: int,
    old_end: int,
    new_end: int,
) -> bool {
    &&& 0 <= start <= old_end <= before.len()
    &&& start <= new_end <= after.len()
    &&& before.take(start) == after.take(start)
    &&& before.skip(old_end) == after.skip(new_end)
    &&& e.start_byte == utf8_len(before.take(start))
    &&& e.old_end_byte == utf8_len(before.take(old_end))
    &&& e.new_end_byte == utf8_len(after.take(new_end))
    &&& is_point_of(before, start, e.start_position)
    &&& is_point_of(before, old_end, e.old_end_position)
    &&& is_point_of(after, new_end, e.new_end_position)
}

/// Number of line-feed bytes in `b`.
pub open spec fn byte_newlines(b: Seq<u8>) -> int
    decreases b.len(),
{
    if b.len() == 0 {
        0
    } else {
        (if b[0] == 10u8 {
            1int
        } else {
            0int
        }) + byte_newlines(b.drop_first())
    }
}

/// Bytes between offset `i` of `b` and the line feed before it, or the start.
pub open spec fn byte_column(b: Seq<u8>, i: int) -> int
    decreases i,
{
    if i <= 0 || i > b.len() || b[i - 1] == 10u8 {
        0
    } else {
        byte_column(b, i - 1) + 1
    }
}

/// `p` is the row and byte column of offset `i` of `b`.
pub open spec fn is_byte_point(b: Seq<u8>, i: int, p: Point) -> bool {
    &&& p.row == byte_newlines(b.take(i))
    &&& p.column == byte_column(b, i)
}

/// `e` describes, in bytes alone, the change that turned `before` into
/// `after`: what the parser asks of an edit before it re-parses.
pub open spec fn edit_fits(e: InputEdit, before: Seq<u8>, after: Seq<u8>) -> bool {
    &&& e.start_byte <= e.old_end_byte <= before.len()
    &&& e.start_byte <= e.new_end_byte <= after.len()
    &&& before.take(e.start_byte as int) == after.take(e.start_byte as int)
    &&& before.skip(e.old_end_byte as int) == after.skip(e.new_end_byte as int)
    &&& is_byte_point(before, e.start_byte as int, e.start_position)
    &&& is_byte_point(before, e.old_end_byte as int, e.old_end_position)
    &&& is_byte_point(after, e.new_end_byte as int, e.new_end_position)
}

proof fn lemma_byte_newlines_concat(a: Seq<u8>, b: Seq<u8>)
    ensures
        byte_newlines(a + b) == byte_newlines(a) + byte_newlines(b),
    decreases a.len(),
{
    if a.len() == 0 {
        assert(a + b =~= b);
    } else {
        assert((a + b).drop_first() =~= a.drop_first() + b);
        lemma_byte_newlines_concat(a.drop_first(), b);
    }
}

proof fn lemma_byte_newlines_none(b: Seq<u8>)
    requires
        forall|k: int| 0 <= k < b.len() ==> b[k] != 10u8,
    ensures
        byte_newlines(b) == 0,
    decreases b.len(),
{
    if b.len() > 0 {
        lemma_byte_newlines_none(b.drop_first());
    }
}

/// The encoding of a character holds a line-feed byte only if it is a line
/// feed, and then it is that single byte.
proof fn lemma_scalar_bytes(c: char)
    ensures
        c == '\n' ==> encode_scalar(c as u32) == seq![10u8],
        c != '\n' ==> forall|k: int|
            0 <= k < encode_scalar(c as u32).len() ==> #[trigger] encode_scalar(c as u32)[k]
                != 10u8,
{
    let v = c as u32;
    vstd::utf8::char_u32_cast('\n', 10u32);
    if v <= 0x7F {
        assert(v <= 0x7F ==> ((v & 0x7F) as u8) as u32 == v) by (bit_vector);
        if v == 10 {
            vstd::utf8::char_u32_cast(c, 10u32);
        }
    } else {
        assert((0x80u8 | ((v & 0x3F) as u8)) >= 0x80u8) by (bit_vector);
        assert((0x80u8 | (((v >> 6) & 0x3F) as u8)) >= 0x80u8) by (bit_vector);
        assert((0x80u8 | (((v >> 12) & 0x3F) as u8)) >= 0x80u8) by (bit_vector);
        assert((0xC0u8 | (((v >> 6) & 0x1F) as u8)) >= 0xC0u8) by (bit_vector);
        assert((0xE0u8 | (((v >> 12) & 0x0F) as u8)) >= 0xE0u8) by (bit_vector);
        assert((0xF0u8 | (((v >> 18) & 0x7) as u8)) >= 0xF0u8) by (bit_vector);
    }
}

/// Line feeds are counted alike in characters and in their encoding.
proof fn lemma_encode_newlines(s: Seq<char>)
    ensures
        byte_newlines(encode_utf8(s)) == newlines(s),
    decreases s.len(),
{
    if s.len() > 0 {
        lemma_encode_newlines(s.drop_first());
        lemma_scalar_bytes(s[0]);
        lemma_byte_newlines_concat(encode_scalar(s[0] as u32), encode_utf8(s.drop_first()));
        if s[0] == '\n' {
            assert(byte_newlines(seq![10u8]) == 1 + byte_newlines(seq![10u8].drop_first()));
            assert(seq![10u8].drop_first() =~= Seq::<u8>::empty());
        } else {
            lemma_byte_newlines_none(encode_scalar(s[0] as u32));
        }
    }
}

/// Past `k` bytes with no line feed the byte column grows by `k`.
proof fn lemma_byte_column_run(b: Seq<u8>, i: int, k: int)
    requires
        0 <= i,
        0 <= k,
        i + k <= b.len(),
        forall|j: int| i <= j < i + k ==> b[j] != 10u8,
    ensures
        byte_column(b, i + k) == byte_column(b, i) + k,
    decreases k,
{
    if k > 0 {
        lemma_byte_column_run(b, i, k - 1);
    }
}

/// The encoding of a prefix is a prefix of the encoding, and the rest likewise.
proof fn lemma_encode_split(s: Seq<char>, c: int)
    requires
        0 <= c <= s.len(),
    ensures
        encode_utf8(s).take(utf8_len(s.take(c))) == encode_utf8(s.take(c)),
        encode_utf8(s).skip(utf8_len(s.take(c))) == encode_utf8(s.skip(c)),
        encode_utf8(s).len() == utf8_len(s),
{
    assert(s =~= s.take(c) + s.skip(c));
    lemma_encode_concat(s.take(c), s.skip(c));
    assert(encode_utf8(s).take(utf8_len(s.take(c))) =~= encode_utf8(s.take(c)));
    assert(encode_utf8(s).skip(utf8_len(s.take(c))) =~= encode_utf8(s.skip(c)));
}

/// The point of a character index is the byte point of its offset.
proof fn lemma_point_bytes(s: Seq<char>, c: int)
    requires
        0 <= c <= s.len(),
    ensures
        byte_newlines(encode_utf8(s).take(utf8_len(s.take(c)))) == newlines(s.take(c)),
        byte_column(encode_utf8(s), utf8_len(s.take(c))) == utf8_column(s, c),
    decreases c,
{
    lemma_encode_split(s, c);
    lemma_encode_newlines(s.take(c));
    if c > 0 {
        lemma_point_bytes(s, c - 1);
        lemma_take_step(s, c - 1);
        lemma_take_mono(s, c, s.len() as int);
        let b = encode_utf8(s);
        let i = utf8_len(s.take(c - 1));
        let w = utf8_width(s[c - 1]);
        let ch = encode_scalar(s[c - 1] as u32);
        assert(s.take(c) =~= s.take(c - 1) + seq![s[c - 1]]);
        lemma_encode_concat(s.take(c - 1), seq![s[c - 1]]);
        assert(encode_utf8(seq![s[c - 1]]) =~= ch + encode_utf8(seq![s[c - 1]].drop_first()));
        assert(seq![s[c - 1]].drop_first() =~= Seq::<char>::empty());
        assert(encode_utf8(seq![s[c - 1]]) =~= ch);
        assert(s.take(s.len() as int) =~= s);
        let tc = encode_utf8(s.take(c));
        assert(tc =~= encode_utf8(s.take(c - 1)) + ch);
        assert(b.take(i + w) == tc);
        assert forall|j: int| i <= j < i + w implies b[j] == ch[j - i] by {
            assert(b.take(i + w)[j] == b[j]);
            assert(tc[j] == ch[j - i]);
        }
        lemma_scalar_bytes(s[c - 1]);
        if s[c - 1] == '\n' {
            assert(b[i + w - 1] == 10u8);
        } else {
            lemma_byte_column_run(b, i, w);
        }
    }
}

/// A descriptor of a change of characters is one of the change of their
/// encodings.
pub proof fn lemma_edit_fits(
    e: InputEdit,
    before: Seq<char>,
    after: Seq<char>,
    start: int,
    old_end: int,
    new_end: int,
)
    requires
        describes_edit(e, before, after, start, old_end, new_end),
    ensures
        edit_fits(e, encode_utf8(before), encode_utf8(after)),
{
    lemma_encode_split(before, start);
    lemma_encode_split(before, old_end);
    lemma_encode_split(after, start);
    lemma_encode_split(after, new_end);
    lemma_take_mono(before, start, old_end);
    lemma_take_mono(before, old_end, before.len() as int);
    lemma_take_mono(after, start, new_end);
    lemma_take_mono(after, new_end, after.len() as int);
    assert(before.take(before.len() as int) =~= before);
    assert(after.take(after.len() as int) =~= after);
    lemma_point_bytes(before, start);
    lemma_point_bytes(before, old_end);
    lemma_point_bytes(after, new_end);
}

/// `after` is `before` with the characters `start..end` replaced by `text`.
pub open spec fn replaced(before: Seq<char>, start: int, end: int, text: Seq<char>) -> Seq<char> {
    before.take(start) + text + before.skip(end)
}

/// The range `start..end` of positions names a range of characters of `s`.
pub open spec fn valid_range(s: Seq<char>, start: Position, end: Position) -> bool {
    exists|cs: int, ce: int|
        char_at_position(s, start, cs) && char_at_position(s, end, ce) && cs <= ce
}

/// Replaces the characters between positions `start` and `end` by `text`, and
/// returns the descriptor of that change: the start and old end measured in
/// the text before it, the new end in the text after it. Fails with
/// `RangeError`, leaving the document as it was, when the range is not one of
/// the document.
pub fn apply_delta(doc: &mut Document, start: Position, end: Position, text: &str) -> (r: Result<
    InputEdit,
    AnalysisError,
>)
    ensures
        r is Ok <==> valid_range(old(doc)@, start, end),
        r matches Ok(e) ==> exists|cs: int, ce: int|
            char_at_position(old(doc)@, start, cs) && char_at_position(old(doc)@, end, ce)
                && final(doc)@ == replaced(old(doc)@, cs, ce, text@) && describes_edit(
                e,
                old(doc)@,
                final(doc)@,
                cs,
                ce,
                cs + text@.len(),
            ),
        r matches Err(e) ==> e == AnalysisError::RangeError && final(doc)@ == old(doc)@,
{
    let ghost before = doc@;
    let start_char = match doc.position_to_char(start) {
        Ok(c) => c,
        Err(e) => {
            return Err(e);
        },
    };
    let old_end_char = match doc.position_to_char(end) {
        Ok(c) => c,
        Err(e) => {
            return Err(e);
        },
    };
    if start_char > old_end_char {
        proof {
            assert forall|cs: int, ce: int|
                char_at_position(before, start, cs) && char_at_position(before, end, ce) implies cs
                > ce by {
                crate::text::lemma_position_unique(before, start, cs, start_char as int);
                crate::text::lemma_position_unique(before, end, ce, old_end_char as int);
            }
        }
        return Err(AnalysisError::RangeError);
    }
    let old_len = doc.len_chars();
    let start_byte = match doc.char_to_byte(start_char) {
        Ok(b) => b,
        Err(e) => {
            return Err(e);
        },
    };
    let old_end_byte = match doc.char_to_byte(old_end_char) {
        Ok(b) => b,
        Err(e) => {
            return Err(e);
        },
    };
    let (start_row, start_column) = doc.byte_point(start_char);
    let (old_end_row, old_end_column) = doc.byte_point(old_end_char);
    match doc.remove(start_char, old_end_char) {
        Ok(()) => {},
        Err(e) => {
            return Err(e);
        },
    }
    match doc.insert(start_char, text) {
        Ok(()) => {},
        Err(e) => {
            return Err(e);
        },
    }
    let ghost after = doc@;
    proof {
        let mid = before.take(start_char as int) + before.skip(old_end_char as int);
        assert(mid.take(start_char as int) =~= before.take(start_char as int));
        assert(mid.skip(start_char as int) =~= before.skip(old_end_char as int));
        assert(after =~= replaced(before, start_char as int, old_end_char as int, text@));
    }
    let new_len = doc.len_chars();
    let new_end_char = new_len - (old_len - old_end_char);
    proof {
        assert(new_end_char == start_char + text@.len());
        assert(after.take(start_char as int) =~= before.take(start_char as int));
        assert(after.skip(new_end_char as int) =~= before.skip(old_end_char as int));
    }
    let new_end_byte = match doc.char_to_byte(new_end_char) {
        Ok(b) => b,
        Err(e) => {
            return Err(e);
        },
    };
    let (new_end_row, new_end_column) = doc.byte_point(new_end_char);
    let edit = InputEdit {
        start_byte,
        old_end_byte,
        new_end_byte,
        start_position: Point { row: start_row, column: start_column },
        old_end_position: Point { row: old_end_row, column: old_end_column },
        new_end_position: Point { row: new_end_row, column: new_end_column },
    };
    assert(describes_edit(
        edit,
        before,
        after,
        start_char as int,
        old_end_char as int,
        start_char + text@.len(),
    ));
    Ok(edit)
}

} // verus!
