//! Text buffer over a rope, with conversions among line/UTF-16 positions,
//! character indices and UTF-8 byte offsets.

use crate::error::AnalysisError;
use ropey::Rope;
use vstd::prelude::*;
use vstd::utf8::*;

verus! {

#[verifier::external_type_specification]
#[verifier::external_body]
pub struct ExRope(Rope);

#[verifier::external_type_specification]
#[verifier::external_body]
pub struct ExRopeyError(ropey::Error);

/// The characters that a rope holds, in order.
pub uninterp spec fn rope_chars(r: Rope) -> Seq<char>;

/// Number of UTF-8 bytes that encode `c`.
pub open spec fn utf8_width(c: char) -> int {
    encode_scalar(c as u32).len() as int
}

/// Number of UTF-16 code units that encode `c`.
pub open spec fn utf16_width(c: char) -> int {
    if (c as u32) >= 0x10000 {
        2
    } else {
        1
    }
}

/// Length of the UTF-8 encoding of `s`.
pub open spec fn utf8_len(s: Seq<char>) -> int {
    encode_utf8(s).len() as int
}

/// Length of the UTF-16 encoding of `s`.
pub open spec fn utf16_len(s: Seq<char>) -> int
    decreases s.len(),
{
    if s.len() == 0 {
        0
    } else {
        utf16_width(s[0]) + utf16_len(s.drop_first())
    }
}

/// Number of line feeds in `s`.
pub open spec fn newlines(s: Seq<char>) -> int
    decreases s.len(),
{
    if s.len() == 0 {
        0
    } else {
        (if s[0] == '\n' {
            1int
        } else {
            0int
        }) + newlines(s.drop_first())
    }
}

/// Number of lines of `s`: one more than its line feeds.
pub open spec fn line_count(s: Seq<char>) -> int {
    newlines(s) + 1
}

/// `i` is the character index where line `line` of `s` starts.
pub open spec fn is_line_start(s: Seq<char>, line: int, i: int) -> bool {
    &&& 0 <= i <= s.len()
    &&& i == 0 || s[i - 1] == '\n'
    &&& newlines(s.take(i)) == line
}

/// UTF-16 column of character index `c`: code units since the start of its line.
pub open spec fn utf16_column(s: Seq<char>, c: int) -> int
    decreases c,
{
    if c <= 0 || c > s.len() || s[c - 1] == '\n' {
        0
    } else {
        utf16_column(s, c - 1) + utf16_width(s[c - 1])
    }
}

/// Byte column of character index `c`: UTF-8 bytes since the start of its line.
pub open spec fn utf8_column(s: Seq<char>, c: int) -> int
    decreases c,
{
    if c <= 0 || c > s.len() || s[c - 1] == '\n' {
        0
    } else {
        utf8_column(s, c - 1) + utf8_width(s[c - 1])
    }
}

/// `c` is the character index of byte offset `b`: the character whose encoding
/// holds that byte, or the end of the text for the offset one past the end.
pub open spec fn char_of_byte(s: Seq<char>, b: int, c: int) -> bool {
    &&& 0 <= c <= s.len()
    &&& utf8_len(s.take(c)) <= b
    &&& c == s.len() ==> b == utf8_len(s)
    &&& c < s.len() ==> b < utf8_len(s.take(c + 1))
}

/// `c` is the character index of UTF-16 offset `u`, in the same sense.
pub open spec fn char_of_utf16(s: Seq<char>, u: int, c: int) -> bool {
    &&& 0 <= c <= s.len()
    &&& utf16_len(s.take(c)) <= u
    &&& c == s.len() ==> u == utf16_len(s)
    &&& c < s.len() ==> u < utf16_len(s.take(c + 1))
}

pub proof fn lemma_encode_concat(a: Seq<char>, b: Seq<char>)
    ensures
        encode_utf8(a + b) == encode_utf8(a) + encode_utf8(b),
    decreases a.len(),
{
    if a.len() == 0 {
        assert(a + b =~= b);
        assert(encode_utf8(a) + encode_utf8(b) =~= encode_utf8(b));
    } else {
        assert((a + b).drop_first() =~= a.drop_first() + b);
        lemma_encode_concat(a.drop_first(), b);
        assert((a + b)[0] == a[0]);
        assert(encode_utf8(a + b) =~= encode_utf8(a) + encode_utf8(b));
    }
}

pub proof fn lemma_utf16_concat(a: Seq<char>, b: Seq<char>)
    ensures
        utf16_len(a + b) == utf16_len(a) + utf16_len(b),
    decreases a.len(),
{
    if a.len() == 0 {
        assert(a + b =~= b);
    } else {
        assert((a + b).drop_first() =~= a.drop_first() + b);
        lemma_utf16_concat(a.drop_first(), b);
    }
}

pub proof fn lemma_newlines_concat(a: Seq<char>, b: Seq<char>)
    ensures
        newlines(a + b) == newlines(a) + newlines(b),
    decreases a.len(),
{
    if a.len() == 0 {
        assert(a + b =~= b);
    } else {
        assert((a + b).drop_first() =~= a.drop_first() + b);
        lemma_newlines_concat(a.drop_first(), b);
    }
}

/// One more character adds its own width to each measure of a prefix.
pub proof fn lemma_take_step(s: Seq<char>, i: int)
    requires
        0 <= i < s.len(),
    ensures
        utf8_len(s.take(i + 1)) == utf8_len(s.take(i)) + utf8_width(s[i]),
        utf16_len(s.take(i + 1)) == utf16_len(s.take(i)) + utf16_width(s[i]),
        newlines(s.take(i + 1)) == newlines(s.take(i)) + (if s[i] == '\n' {
            1int
        } else {
            0int
        }),
{
    let one = seq![s[i]];
    assert(s.take(i + 1) =~= s.take(i) + one);
    lemma_encode_concat(s.take(i), one);
    lemma_utf16_concat(s.take(i), one);
    lemma_newlines_concat(s.take(i), one);
    assert(one.drop_first() =~= Seq::<char>::empty());
    assert(one[0] == s[i]);
    assert(encode_utf8(one) =~= encode_scalar(s[i] as u32) + encode_utf8(one.drop_first()));
    assert(encode_utf8(one) =~= encode_scalar(s[i] as u32));
    assert(utf16_len(one) == utf16_width(s[i]) + utf16_len(one.drop_first()));
    assert(newlines(one) == (if s[i] == '\n' {
        1int
    } else {
        0int
    }) + newlines(one.drop_first()));
}

/// Every measure grows with the prefix, the two encodings strictly.
pub proof fn lemma_take_mono(s: Seq<char>, i: int, j: int)
    requires
        0 <= i <= j <= s.len(),
    ensures
        utf8_len(s.take(i)) + (j - i) <= utf8_len(s.take(j)),
        utf16_len(s.take(i)) + (j - i) <= utf16_len(s.take(j)),
        newlines(s.take(i)) <= newlines(s.take(j)),
    decreases j - i,
{
    if i < j {
        lemma_take_mono(s, i, j - 1);
        lemma_take_step(s, j - 1);
        assert(encode_scalar(s[j - 1] as u32).len() >= 1);
    }
}

/// A start `i` of a line comes at or before every index on that line.
pub proof fn lemma_line_start_before(s: Seq<char>, line: int, i: int, c: int)
    requires
        is_line_start(s, line, i),
        0 <= c <= s.len(),
        newlines(s.take(c)) == line,
    ensures
        i <= c,
{
    if i > c {
        lemma_take_step(s, i - 1);
        lemma_take_mono(s, c, i - 1);
    }
}

/// The characters of line `line` are exactly the indices from its start `ls`
/// up to `le`, the index of its line feed or the end of the text.
pub proof fn lemma_line_span(s: Seq<char>, line: int, ls: int, le: int)
    requires
        is_line_start(s, line, ls),
        ls <= le <= s.len(),
        le == s.len() || s[le] == '\n',
        newlines(s.take(le)) == line,
    ensures
        forall|c: int|
            0 <= c <= s.len() ==> (#[trigger] newlines(s.take(c)) == line <==> ls <= c <= le),
{
    assert forall|c: int| 0 <= c <= s.len() implies (#[trigger] newlines(s.take(c)) == line <==> ls
        <= c <= le) by {
        if c < ls {
            lemma_take_step(s, ls - 1);
            lemma_take_mono(s, c, ls - 1);
        } else if c > le {
            lemma_take_step(s, le);
            lemma_take_mono(s, le + 1, c);
        } else {
            lemma_take_mono(s, ls, c);
            lemma_take_mono(s, c, le);
        }
    }
}

/// On one line, a column is the distance from the line start in either encoding.
pub proof fn lemma_columns(s: Seq<char>, line: int, ls: int, c: int)
    requires
        is_line_start(s, line, ls),
        ls <= c <= s.len(),
        newlines(s.take(c)) == line,
    ensures
        utf16_column(s, c) == utf16_len(s.take(c)) - utf16_len(s.take(ls)),
        utf8_column(s, c) == utf8_len(s.take(c)) - utf8_len(s.take(ls)),
    decreases c - ls,
{
    if c > ls {
        lemma_take_step(s, c - 1);
        lemma_take_mono(s, ls, c - 1);
        lemma_columns(s, line, ls, c - 1);
    }
}

/// At most one character index holds a given byte offset.
pub proof fn lemma_char_of_byte_unique(s: Seq<char>, b: int, c: int)
    requires
        char_of_byte(s, b, c),
    ensures
        forall|d: int| #[trigger] char_of_byte(s, b, d) ==> d == c,
{
    assert forall|d: int| #[trigger] char_of_byte(s, b, d) implies d == c by {
        if d < c {
            lemma_take_mono(s, d + 1, c);
        } else if d > c {
            lemma_take_mono(s, c + 1, d);
        }
    }
}

/// Converting a character index to its byte offset and back gives the index
/// again, and the byte offset of that index is the offset started from.
pub proof fn lemma_char_byte_round_trip(s: Seq<char>, c: int)
    requires
        0 <= c <= s.len(),
    ensures
        char_of_byte(s, utf8_len(s.take(c)), c),
        forall|d: int| #[trigger]
            char_of_byte(s, utf8_len(s.take(c)), d) ==> d == c && utf8_len(s.take(d)) == utf8_len(
                s.take(c),
            ),
{
    assert(s.take(s.len() as int) =~= s);
    if c < s.len() {
        lemma_take_mono(s, c, c + 1);
    } else {
        assert(s.take(c) =~= s);
    }
    lemma_char_of_byte_unique(s, utf8_len(s.take(c)), c);
}

/// A position names at most one character index.
pub proof fn lemma_position_unique(s: Seq<char>, p: Position, c: int, d: int)
    requires
        char_at_position(s, p, c),
        char_at_position(s, p, d),
    ensures
        c == d,
{
    let ls = choose|i: int| is_line_start(s, p.line as int, i);
    assert(exists|i: int| is_line_start(s, p.line as int, i)) by {
        lemma_line_start_exists(s, c);
    }
    lemma_line_start_before(s, p.line as int, ls, c);
    lemma_line_start_before(s, p.line as int, ls, d);
    lemma_columns(s, p.line as int, ls, c);
    lemma_columns(s, p.line as int, ls, d);
    if c < d {
        lemma_take_mono(s, c, d);
    } else if d < c {
        lemma_take_mono(s, d, c);
    }
}

/// The line of every index has a start.
pub proof fn lemma_line_start_exists(s: Seq<char>, c: int)
    requires
        0 <= c <= s.len(),
    ensures
        exists|i: int| is_line_start(s, newlines(s.take(c)), i),
    decreases c,
{
    if c == 0 {
        assert(is_line_start(s, newlines(s.take(c)), 0));
    } else {
        lemma_take_step(s, c - 1);
        if s[c - 1] == '\n' {
            assert(is_line_start(s, newlines(s.take(c)), c));
        } else {
            lemma_line_start_exists(s, c - 1);
        }
    }
}

/// A protocol position: a line and a column counted in UTF-16 code units.
#[derive(Debug, Clone, Copy, PartialEq, Eq, Structural)]
pub struct Position {
    pub line: u32,
    pub character: u32,
}

/// `c` is the character index at position `p` of `s`.
pub open spec fn char_at_position(s: Seq<char>, p: Position, c: int) -> bool {
    &&& 0 <= c <= s.len()
    &&& newlines(s.take(c)) == p.line
    &&& utf16_column(s, c) == p.character
}

/// The largest value of a `u32`.
pub const U32_MAX: u64 = 0xffff_ffff;

/// The text of one document: a sequence of characters in a rope.
pub struct Document {
    rope: Rope,
}

impl View for Document {
    type V = Seq<char>;

    closed spec fn view(&self) -> Seq<char> {
        rope_chars(self.rope)
    }
}

impl Document {
    /// A document holding `text`.
    pub fn from_str(text: &str) -> (d: Document)
        ensures
            d@ == text@,
    {
        Document { rope: rope_from_str(text) }
    }

    /// A copy holding the same text.
    pub fn duplicate(&self) -> (d: Document)
        ensures
            d@ == self@,
    {
        Document { rope: self.rope.clone() }
    }

    /// Number of characters.
    pub fn len_chars(&self) -> (n: usize)
        ensures
            n == self@.len(),
    {
        rope_len_chars(&self.rope)
    }

    /// Number of lines: one more than the line feeds.
    pub fn len_lines(&self) -> (n: usize)
        ensures
            n == line_count(self@),
    {
        rope_len_lines(&self.rope)
    }

    /// Number of UTF-8 bytes.
    pub fn len_bytes(&self) -> (n: usize)
        ensures
            n == utf8_len(self@),
    {
        let n = rope_len_chars(&self.rope);
        proof {
            assert(self@.take(n as int) =~= self@);
        }
        rope_char_to_byte(&self.rope, n)
    }

    /// The UTF-8 encoding of the text.
    pub fn bytes(&self) -> (b: Vec<u8>)
        ensures
            b@ == encode_utf8(self@),
    {
        rope_bytes(&self.rope)
    }

    /// Byte offset of character index `c`.
    pub fn char_to_byte(&self, c: usize) -> (r: Result<usize, AnalysisError>)
        ensures
            r is Ok <==> c <= self@.len(),
            r matches Ok(b) ==> b == utf8_len(self@.take(c as int)),
            r matches Err(e) ==> e == AnalysisError::RangeError,
    {
        if c > rope_len_chars(&self.rope) {
            return Err(AnalysisError::RangeError);
        }
        Ok(rope_char_to_byte(&self.rope, c))
    }

    /// Character index of byte offset `b`: the character whose encoding holds it.
    pub fn byte_to_char(&self, b: usize) -> (r: Result<usize, AnalysisError>)
        ensures
            r is Ok <==> b <= utf8_len(self@),
            r matches Ok(c) ==> char_of_byte(self@, b as int, c as int),
            r matches Err(e) ==> e == AnalysisError::RangeError,
    {
        if b > self.len_bytes() {
            return Err(AnalysisError::RangeError);
        }
        Ok(rope_byte_to_char(&self.rope, b))
    }

    /// Character index at position `p`. Fails when the line does not exist,
    /// when the column lies past the line's end, or when it falls inside a
    /// character that takes two code units.
    pub fn position_to_char(&self, p: Position) -> (r: Result<usize, AnalysisError>)
        ensures
            r is Ok <==> exists|c: int| char_at_position(self@, p, c),
            r matches Ok(c) ==> char_at_position(self@, p, c as int),
            r matches Err(e) ==> e == AnalysisError::RangeError,
    {
        let ghost s = self@;
        let n_lines = rope_len_lines(&self.rope);
        let len = rope_len_chars(&self.rope);
        let line = p.line as usize;
        if line >= n_lines {
            proof {
                assert forall|c: int| !char_at_position(s, p, c) by {
                    if 0 <= c <= s.len() {
                        lemma_take_mono(s, c, s.len() as int);
                        assert(s.take(s.len() as int) =~= s);
                    }
                }
            }
            return Err(AnalysisError::RangeError);
        }
        let ls = rope_line_to_char(&self.rope, line);
        let le = if line + 1 < n_lines {
            let next = rope_line_to_char(&self.rope, line + 1);
            proof {
                if next <= ls {
                    lemma_take_mono(s, next as int, ls as int);
                }
                lemma_take_step(s, next - 1);
            }
            next - 1
        } else {
            proof {
                assert(s.take(len as int) =~= s);
                lemma_take_mono(s, ls as int, len as int);
            }
            len
        };
        proof {
            lemma_line_span(s, line as int, ls as int, le as int);
            lemma_take_mono(s, ls as int, le as int);
            lemma_take_mono(s, le as int, len as int);
            assert(s.take(len as int) =~= s);
        }
        let u_ls = rope_char_to_utf16(&self.rope, ls);
        let u_le = rope_char_to_utf16(&self.rope, le);
        if p.character as usize > u_le - u_ls {
            proof {
                assert forall|c: int| !char_at_position(s, p, c) by {
                    if 0 <= c <= s.len() && newlines(s.take(c)) == line {
                        lemma_columns(s, line as int, ls as int, c);
                        lemma_take_mono(s, c, le as int);
                    }
                }
            }
            return Err(AnalysisError::RangeError);
        }
        let u = u_ls + p.character as usize;
        let c = rope_utf16_to_char(&self.rope, u);
        let u_c = rope_char_to_utf16(&self.rope, c);
        if u_c != u {
            proof {
                assert forall|d: int| !char_at_position(s, p, d) by {
                    if 0 <= d <= s.len() && newlines(s.take(d)) == line {
                        lemma_columns(s, line as int, ls as int, d);
                        if d <= c {
                            lemma_take_mono(s, d, c as int);
                        } else {
                            lemma_take_mono(s, c + 1, d);
                        }
                    }
                }
            }
            return Err(AnalysisError::RangeError);
        }
        proof {
            if c < ls {
                lemma_take_mono(s, c as int, ls as int);
            }
            if c > le {
                lemma_take_mono(s, le as int, c as int);
            }
            lemma_columns(s, line as int, ls as int, c as int);
            assert(char_at_position(s, p, c as int));
        }
        Ok(c)
    }

    /// Position of character index `c`. Fails when `c` is past the end or
    /// when its line or column does not fit in a `u32`.
    pub fn char_to_position(&self, c: usize) -> (r: Result<Position, AnalysisError>)
        ensures
            r is Ok <==> c <= self@.len() && newlines(self@.take(c as int)) <= U32_MAX
                && utf16_column(self@, c as int) <= U32_MAX,
            r matches Ok(p) ==> char_at_position(self@, p, c as int),
            r matches Err(e) ==> e == AnalysisError::RangeError,
    {
        let ghost s = self@;
        if c > rope_len_chars(&self.rope) {
            return Err(AnalysisError::RangeError);
        }
        let (line, column) = self.utf16_point(c);
        if line as u64 > U32_MAX || column as u64 > U32_MAX {
            return Err(AnalysisError::RangeError);
        }
        Ok(Position { line: line as u32, character: column as u32 })
    }

    /// Line and UTF-16 column of character index `c`.
    fn utf16_point(&self, c: usize) -> (r: (usize, usize))
        requires
            c <= self@.len(),
        ensures
            r.0 == newlines(self@.take(c as int)),
            r.1 == utf16_column(self@, c as int),
    {
        let ghost s = self@;
        let line = rope_char_to_line(&self.rope, c);
        proof {
            lemma_take_mono(s, c as int, s.len() as int);
            assert(s.take(s.len() as int) =~= s);
        }
        let ls = rope_line_to_char(&self.rope, line);
        proof {
            lemma_line_start_before(s, line as int, ls as int, c as int);
            lemma_columns(s, line as int, ls as int, c as int);
            lemma_take_mono(s, ls as int, c as int);
        }
        let u_c = rope_char_to_utf16(&self.rope, c);
        let u_ls = rope_char_to_utf16(&self.rope, ls);
        (line, u_c - u_ls)
    }

    /// Row and byte column of character index `c`, as the parser counts them.
    pub fn byte_point(&self, c: usize) -> (r: (usize, usize))
        requires
            c <= self@.len(),
        ensures
            r.0 == newlines(self@.take(c as int)),
            r.1 == utf8_column(self@, c as int),
    {
        let ghost s = self@;
        let line = rope_char_to_line(&self.rope, c);
        proof {
            lemma_take_mono(s, c as int, s.len() as int);
            assert(s.take(s.len() as int) =~= s);
        }
        let ls = rope_line_to_char(&self.rope, line);
        proof {
            lemma_line_start_before(s, line as int, ls as int, c as int);
            lemma_columns(s, line as int, ls as int, c as int);
            lemma_take_mono(s, ls as int, c as int);
        }
        let b_c = rope_char_to_byte(&self.rope, c);
        let b_ls = rope_char_to_byte(&self.rope, ls);
        (line, b_c - b_ls)
    }

    /// Byte offset of position `p`.
    pub fn position_to_byte(&self, p: Position) -> (r: Result<usize, AnalysisError>)
        ensures
            r is Ok <==> exists|c: int| char_at_position(self@, p, c),
            r matches Ok(b) ==> exists|c: int|
                char_at_position(self@, p, c) && b == utf8_len(self@.take(c)),
            r matches Err(e) ==> e == AnalysisError::RangeError,
    {
        let c = self.position_to_char(p)?;
        let b = rope_char_to_byte(&self.rope, c);
        Ok(b)
    }

    /// Position of byte offset `b`.
    pub fn byte_to_position(&self, b: usize) -> (r: Result<Position, AnalysisError>)
        ensures
            r is Ok ==> b <= utf8_len(self@),
            b <= utf8_len(self@) ==> (r is Ok <==> exists|c: int|
                char_of_byte(self@, b as int, c) && newlines(self@.take(c)) <= U32_MAX
                    && utf16_column(self@, c) <= U32_MAX),
            r matches Ok(p) ==> exists|c: int|
                char_of_byte(self@, b as int, c) && char_at_position(self@, p, c),
            r matches Err(e) ==> e == AnalysisError::RangeError,
    {
        let c = self.byte_to_char(b)?;
        proof {
            lemma_char_of_byte_unique(self@, b as int, c as int);
        }
        self.char_to_position(c)
    }

    /// Inserts `text` before character index `c`; fails when `c` is past the
    /// end, leaving the text as it was.
    pub fn insert(&mut self, c: usize, text: &str) -> (r: Result<(), AnalysisError>)
        ensures
            r is Ok <==> c <= old(self)@.len(),
            r is Ok ==> final(self)@ == old(self)@.take(c as int) + text@ + old(self)@.skip(
                c as int,
            ),
            r matches Err(e) ==> e == AnalysisError::RangeError && final(self)@ == old(self)@,
    {
        match rope_try_insert(&mut self.rope, c, text) {
            Ok(()) => Ok(()),
            Err(_) => Err(AnalysisError::RangeError),
        }
    }

    /// Removes the characters in `start..end`; fails when the range is
    /// reversed or past the end, leaving the text as it was.
    pub fn remove(&mut self, start: usize, end: usize) -> (r: Result<(), AnalysisError>)
        ensures
            r is Ok <==> start <= end <= old(self)@.len(),
            r is Ok ==> final(self)@ == old(self)@.take(start as int) + old(self)@.skip(
                end as int,
            ),
            r matches Err(e) ==> e == AnalysisError::RangeError && final(self)@ == old(self)@,
    {
        match rope_try_remove(&mut self.rope, start, end) {
            Ok(()) => Ok(()),
            Err(_) => Err(AnalysisError::RangeError),
        }
    }
}

/// Relies on `Rope::clone`: a rope holding the same characters.
pub assume_specification[ <Rope as Clone>::clone ](r: &Rope) -> (c: Rope)
    ensures
        rope_chars(c) == rope_chars(*r),
;

/// Relies on `Rope::from_str`: the rope holds the characters of `text`.
#[verifier::external_body]
fn rope_from_str(text: &str) -> (r: Rope)
    ensures
        rope_chars(r) == text@,
{
    Rope::from_str(text)
}

/// Relies on `Rope::len_chars`: the number of characters held.
#[verifier::external_body]
fn rope_len_chars(r: &Rope) -> (n: usize)
    ensures
        n == rope_chars(*r).len(),
{
    r.len_chars()
}

/// Relies on `Rope::len_lines`: one more than the line breaks, which are line
/// feeds alone with ropey's line-break features off.
#[verifier::external_body]
fn rope_len_lines(r: &Rope) -> (n: usize)
    ensures
        n == line_count(rope_chars(*r)),
{
    r.len_lines()
}

/// Relies on `Rope::char_to_byte`: the UTF-8 length of the characters before `c`.
#[verifier::external_body]
fn rope_char_to_byte(r: &Rope, c: usize) -> (b: usize)
    requires
        c <= rope_chars(*r).len(),
    ensures
        b == utf8_len(rope_chars(*r).take(c as int)),
{
    r.char_to_byte(c)
}

/// Relies on `Rope::byte_to_char`: the character that holds byte `b`.
#[verifier::external_body]
fn rope_byte_to_char(r: &Rope, b: usize) -> (c: usize)
    requires
        b <= utf8_len(rope_chars(*r)),
    ensures
        char_of_byte(rope_chars(*r), b as int, c as int),
{
    r.byte_to_char(b)
}

/// Relies on `Rope::char_to_utf16_cu`: the UTF-16 length of the characters before `c`.
#[verifier::external_body]
fn rope_char_to_utf16(r: &Rope, c: usize) -> (u: usize)
    requires
        c <= rope_chars(*r).len(),
    ensures
        u == utf16_len(rope_chars(*r).take(c as int)),
{
    r.char_to_utf16_cu(c)
}

/// Relies on `Rope::utf16_cu_to_char`: the character that holds code unit `u`.
#[verifier::external_body]
fn rope_utf16_to_char(r: &Rope, u: usize) -> (c: usize)
    requires
        u <= utf16_len(rope_chars(*r)),
    ensures
        char_of_utf16(rope_chars(*r), u as int, c as int),
{
    r.utf16_cu_to_char(u)
}

/// Relies on `Rope::char_to_line`: the number of line feeds before `c`.
#[verifier::external_body]
fn rope_char_to_line(r: &Rope, c: usize) -> (l: usize)
    requires
        c <= rope_chars(*r).len(),
    ensures
        l == newlines(rope_chars(*r).take(c as int)),
{
    r.char_to_line(c)
}

/// Relies on `Rope::line_to_char`: the character index where a line starts.
#[verifier::external_body]
fn rope_line_to_char(r: &Rope, l: usize) -> (c: usize)
    requires
        l < line_count(rope_chars(*r)),
    ensures
        is_line_start(rope_chars(*r), l as int, c as int),
{
    r.line_to_char(l)
}

/// Relies on `Rope::try_insert`: fails exactly when `c` is past the end, and
/// otherwise puts the characters of `text` before index `c`.
#[verifier::external_body]
fn rope_try_insert(r: &mut Rope, c: usize, text: &str) -> (res: Result<(), ropey::Error>)
    ensures
        res is Ok <==> c <= rope_chars(*old(r)).len(),
        res is Ok ==> rope_chars(*final(r)) == rope_chars(*old(r)).take(c as int) + text@
            + rope_chars(*old(r)).skip(c as int),
        res is Err ==> rope_chars(*final(r)) == rope_chars(*old(r)),
{
    r.try_insert(c, text)
}

/// Relies on `Rope::try_remove`: fails exactly when the range is reversed or
/// past the end, and otherwise drops the characters in `start..end`.
#[verifier::external_body]
fn rope_try_remove(r: &mut Rope, start: usize, end: usize) -> (res: Result<(), ropey::Error>)
    ensures
        res is Ok <==> start <= end <= rope_chars(*old(r)).len(),
        res is Ok ==> rope_chars(*final(r)) == rope_chars(*old(r)).take(start as int)
            + rope_chars(*old(r)).skip(end as int),
        res is Err ==> rope_chars(*final(r)) == rope_chars(*old(r)),
{
    r.try_remove(start..end)
}

/// Relies on `Rope::bytes`: the UTF-8 encoding of the characters held.
#[verifier::external_body]
fn rope_bytes(r: &Rope) -> (b: Vec<u8>)
    ensures
        b@ == encode_utf8(rope_chars(*r)),
{
    r.bytes().collect()
}

} // verus!
