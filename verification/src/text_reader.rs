//! Input text reader: iterates over the characters of an input slice,
//! allows peeking, tracks the current position, and slices the input
//! between two previously observed positions.

use crate::position::{can_advance, char_utf8_len, spec_advance, Position, Span};
use vstd::prelude::*;
use vstd::utf8::{char_is_scalar, encode_scalar, encode_utf8};

verus! {

/// The total UTF-8 byte width of the first `n` characters of `s`.
pub open spec fn prefix_bytes(s: Seq<char>, n: int) -> int
    decreases n,
{
    if n <= 0 {
        0
    } else {
        prefix_bytes(s, n - 1) + char_utf8_len(s[n - 1])
    }
}

/// The position reached after reading the first `n` characters of `s`,
/// starting from the first position of any input.
pub open spec fn pos_after(s: Seq<char>, n: int) -> Position
    decreases n,
{
    if n <= 0 {
        Position::spec_new()
    } else {
        spec_advance(pos_after(s, n - 1), s[n - 1])
    }
}

/// `b` is a byte offset lying on a character boundary of `s`.
pub open spec fn is_boundary(s: Seq<char>, b: int) -> bool {
    exists|n: int| 0 <= n <= s.len() && prefix_bytes(s, n) == b
}

/// The index of the character that starts at byte offset `b` of `s`.
pub open spec fn char_index_of(s: Seq<char>, b: int) -> int {
    choose|n: int| 0 <= n <= s.len() && prefix_bytes(s, n) == b
}

/// The byte width of the encoding of one character agrees with vstd's
/// UTF-8 encoding of its scalar value.
proof fn lemma_scalar_len(c: char)
    ensures
        encode_scalar(c as u32).len() == char_utf8_len(c),
{
    char_is_scalar(c);
}

/// Appending one character appends its scalar encoding.
proof fn lemma_encode_push(s: Seq<char>, c: char)
    ensures
        encode_utf8(s.push(c)) == encode_utf8(s) + encode_scalar(c as u32),
    decreases s.len(),
{
    if s.len() == 0 {
        assert(s.push(c)[0] == c);
        assert(s.push(c).drop_first() =~= Seq::<char>::empty());
        assert(encode_utf8(Seq::<char>::empty()) =~= Seq::<u8>::empty());
        assert(encode_utf8(s) =~= Seq::<u8>::empty());
        assert(encode_utf8(s.push(c)) =~= encode_utf8(s) + encode_scalar(c as u32));
    } else {
        lemma_encode_push(s.drop_first(), c);
        assert(s.push(c)[0] == s[0]);
        assert(s.push(c).drop_first() =~= s.drop_first().push(c));
        assert(encode_utf8(s.push(c)) =~= encode_utf8(s) + encode_scalar(c as u32));
    }
}

/// The byte width of a character prefix agrees with the length of its
/// UTF-8 encoding.
proof fn lemma_prefix_bytes_encode(s: Seq<char>, n: int)
    requires
        0 <= n <= s.len(),
    ensures
        prefix_bytes(s, n) == encode_utf8(s.take(n)).len(),
    decreases n,
{
    if n == 0 {
        assert(s.take(0) =~= Seq::<char>::empty());
    } else {
        lemma_prefix_bytes_encode(s, n - 1);
        assert(s.take(n) =~= s.take(n - 1).push(s[n - 1]));
        lemma_encode_push(s.take(n - 1), s[n - 1]);
        lemma_scalar_len(s[n - 1]);
    }
}

/// Each character contributes at least one byte, so prefix widths grow
/// strictly with the number of characters.
pub proof fn lemma_prefix_bytes_mono(s: Seq<char>, m: int, n: int)
    requires
        0 <= m < n <= s.len(),
    ensures
        prefix_bytes(s, m) < prefix_bytes(s, n),
        prefix_bytes(s, n) - prefix_bytes(s, m) >= n - m,
    decreases n,
{
    if m < n - 1 {
        lemma_prefix_bytes_mono(s, m, n - 1);
    }
}

/// Row and column never exceed the number of characters read plus one,
/// and the byte index is the prefix width.
pub proof fn lemma_pos_after(s: Seq<char>, n: int)
    requires
        0 <= n <= s.len(),
        encode_utf8(s).len() < usize::MAX,
    ensures
        1 <= pos_after(s, n).row <= n + 1,
        1 <= pos_after(s, n).col <= n + 1,
        pos_after(s, n).index == prefix_bytes(s, n),
        n <= prefix_bytes(s, n) <= encode_utf8(s).len(),
    decreases n,
{
    lemma_prefix_bytes_encode(s, n);
    assert(s.take(s.len() as int) =~= s);
    lemma_prefix_bytes_encode(s, s.len() as int);
    if n < s.len() {
        lemma_prefix_bytes_mono(s, n, s.len() as int);
    }
    if n == 0 {
        assert(s.take(0) =~= Seq::<char>::empty());
    } else {
        lemma_pos_after(s, n - 1);
        lemma_scalar_len(s[n - 1]);
        lemma_prefix_bytes_mono(s, 0, n);
    }
}

/// Relies on str::len: the result is the length in bytes of the slice,
/// which equals the length of the UTF-8 encoding of its characters and,
/// like any slice length, is below `isize::MAX`.
#[verifier::external_body]
fn byte_len(s: &str) -> (n: usize)
    ensures
        n == encode_utf8(s@).len(),
        n < usize::MAX,
{
    s.len()
}

/// Input text reader. Yields the input characters one by one and allows
/// peeking. Provides built-in functionality for obtaining input slices
/// between previously observed positions.
#[derive(Debug, Clone)]
pub struct TextReader<'a> {
    input: &'a str,
    read: usize,
    position: Position,
}

impl<'a> TextReader<'a> {
    /// The characters of the underlying input.
    pub closed spec fn text(&self) -> Seq<char> {
        self.input@
    }

    /// How many characters have been read so far.
    pub closed spec fn read(&self) -> int {
        self.read as int
    }

    /// The reader's position bookkeeping is consistent with the number of
    /// characters read.
    pub closed spec fn wf(&self) -> bool {
        &&& 0 <= self.read <= self.input@.len()
        &&& self.position == pos_after(self.input@, self.read as int)
        &&& encode_utf8(self.input@).len() < usize::MAX
    }

    /// Create a new TextReader over an input slice.
    pub fn new(input: &'a str) -> (r: TextReader<'a>)
        ensures
            r.wf(),
            r.text() == input@,
            r.read() == 0,
    {
        let _n = byte_len(input);
        TextReader { input, read: 0, position: Position::new() }
    }

    /// Peek the next character of the input without consuming it.
    pub fn peek(&self) -> (r: Option<char>)
        requires
            self.wf(),
        ensures
            r == (if self.read() < self.text().len() {
                Some(self.text()[self.read()])
            } else {
                None::<char>
            }),
    {
        if self.read < self.input.unicode_len() {
            Some(self.input.get_char(self.read))
        } else {
            None
        }
    }

    /// Read the next character of the input, advancing the position.
    pub fn next(&mut self) -> (r: Option<char>)
        requires
            old(self).wf(),
        ensures
            final(self).wf(),
            final(self).text() == old(self).text(),
            r == (if old(self).read() < old(self).text().len() {
                Some(old(self).text()[old(self).read()])
            } else {
                None::<char>
            }),
            final(self).read() == (if old(self).read() < old(self).text().len() {
                old(self).read() + 1
            } else {
                old(self).read()
            }),
    {
        if self.read < self.input.unicode_len() {
            let c = self.input.get_char(self.read);
            proof {
                lemma_pos_after(self.input@, self.read as int);
                lemma_pos_after(self.input@, self.read + 1);
            }
            assert(can_advance(self.position, c));
            self.position.advance(c);
            self.read = self.read + 1;
            Some(c)
        } else {
            None
        }
    }

    /// Get the current position of the read text.
    pub fn current_position(&self) -> (r: Position)
        requires
            self.wf(),
        ensures
            r == pos_after(self.text(), self.read()),
    {
        self.position
    }

    /// Find the index of the character that starts at byte offset `b`.
    fn char_index(&self, b: usize) -> (n: usize)
        requires
            self.wf(),
            is_boundary(self.text(), b as int),
        ensures
            n <= self.text().len(),
            prefix_bytes(self.text(), n as int) == b,
            n == char_index_of(self.text(), b as int),
    {
        let len = self.input.unicode_len();
        let mut n: usize = 0;
        let mut bytes: usize = 0;
        while n < len && bytes < b
            invariant
                self.wf(),
                0 <= n <= len,
                len == self.text().len(),
                bytes == prefix_bytes(self.text(), n as int),
                bytes <= b,
                is_boundary(self.text(), b as int),
                b <= usize::MAX,
            decreases len - n,
        {
            let c = self.input.get_char(n);
            proof {
                lemma_pos_after(self.text(), n + 1);
                let m = choose|m: int|
                    0 <= m <= self.text().len() && prefix_bytes(self.text(), m) == b;
                if m <= n {
                    if m < n {
                        lemma_prefix_bytes_mono(self.text(), m, n as int);
                    }
                    assert(false);
                }
                if n + 1 < m {
                    lemma_prefix_bytes_mono(self.text(), n + 1, m);
                }
                if n + 1 <= m {
                    lemma_prefix_bytes_mono(self.text(), n as int, m);
                }
            }
            bytes = bytes + Position::utf8_len(c);
            n = n + 1;
        }
        proof {
            let m = choose|m: int| 0 <= m <= self.text().len() && prefix_bytes(self.text(), m) == b;
            if m < n {
                lemma_prefix_bytes_mono(self.text(), m, n as int);
            }
            if n < m {
                lemma_prefix_bytes_mono(self.text(), n as int, m);
            }
            assert(prefix_bytes(self.text(), n as int) == b);
        }
        n
    }

    /// Get a slice of the input between two positions.
    ///
    /// Both byte offsets must lie on character boundaries of the input,
    /// in order; positions previously produced by this reader always do.
    pub fn input_slice(&self, range: Span) -> (r: &'a str)
        requires
            self.wf(),
            is_boundary(self.text(), range.start.index as int),
            is_boundary(self.text(), range.end.index as int),
            range.start.index <= range.end.index,
        ensures
            r@ == self.text().subrange(
                char_index_of(self.text(), range.start.index as int),
                char_index_of(self.text(), range.end.index as int),
            ),
    {
        let from = self.char_index(range.start.index);
        let to = self.char_index(range.end.index);
        proof {
            if to < from {
                lemma_prefix_bytes_mono(self.text(), to as int, from as int);
            }
        }
        self.input.substring_char(from, to)
    }

    /// Get a slice of the input between the supplied position and the
    /// position of the last read character.
    pub fn input_slice_from(&self, from: Position) -> (r: &'a str)
        requires
            self.wf(),
            is_boundary(self.text(), from.index as int),
            from.index <= prefix_bytes(self.text(), self.read()),
        ensures
            r@ == self.text().subrange(
                char_index_of(self.text(), from.index as int),
                self.read(),
            ),
    {
        let start = self.char_index(from.index);
        proof {
            lemma_pos_after(self.text(), self.read as int);
            if self.read < start {
                lemma_prefix_bytes_mono(self.text(), self.read(), start as int);
                assert(false);
            }
            if (start as int) < self.read() {
                lemma_prefix_bytes_mono(self.text(), start as int, self.read());
            }
            assert(char_index_of(self.text(), prefix_bytes(self.text(), self.read()))
                == self.read()) by {
                let m = char_index_of(self.text(), prefix_bytes(self.text(), self.read()));
                assert(0 <= m <= self.text().len() && prefix_bytes(self.text(), m)
                    == prefix_bytes(self.text(), self.read()));
                if m < self.read() {
                    lemma_prefix_bytes_mono(self.text(), m, self.read());
                }
                if self.read() < m {
                    lemma_prefix_bytes_mono(self.text(), self.read(), m);
                }
            }
        }
        self.input.substring_char(start, self.read)
    }

    /// A well-formed reader has read at most its whole text.
    pub proof fn lemma_bounds(&self)
        requires
            self.wf(),
        ensures
            0 <= self.read() <= self.text().len(),
    {
    }

    /// What the reader's bookkeeping guarantees about any prefix of its
    /// text: the position after `n` characters has the prefix's byte width
    /// as its index, that byte offset lies on a character boundary, and it
    /// identifies the character index `n` uniquely.
    pub proof fn lemma_prefix(&self, n: int)
        requires
            self.wf(),
            0 <= n <= self.text().len(),
        ensures
            pos_after(self.text(), n).index == prefix_bytes(self.text(), n),
            is_boundary(self.text(), prefix_bytes(self.text(), n)),
            char_index_of(self.text(), prefix_bytes(self.text(), n)) == n,
            n <= prefix_bytes(self.text(), n),
            forall|m: int|
                0 <= m < n ==> prefix_bytes(self.text(), m) < prefix_bytes(self.text(), n),
            forall|m: int|
                n < m <= self.text().len() ==> prefix_bytes(self.text(), n) < prefix_bytes(
                    self.text(),
                    m,
                ),
    {
        let s = self.text();
        lemma_pos_after(s, n);
        assert(prefix_bytes(s, n) == prefix_bytes(s, n));
        assert(is_boundary(s, prefix_bytes(s, n)));
        let m = char_index_of(s, prefix_bytes(s, n));
        assert(0 <= m <= s.len() && prefix_bytes(s, m) == prefix_bytes(s, n));
        if m < n {
            lemma_prefix_bytes_mono(s, m, n);
        }
        if n < m {
            lemma_prefix_bytes_mono(s, n, m);
        }
        assert forall|k: int| 0 <= k < n implies prefix_bytes(s, k) < prefix_bytes(s, n) by {
            lemma_prefix_bytes_mono(s, k, n);
        }
        assert forall|k: int| n < k <= s.len() implies prefix_bytes(s, n) < prefix_bytes(
            s,
            k,
        ) by {
            lemma_prefix_bytes_mono(s, n, k);
        }
        if n > 0 {
            lemma_prefix_bytes_mono(s, 0, n);
        }
    }

    /// The current position's byte offset always lies on a boundary.
    pub proof fn lemma_position_boundary(&self)
        requires
            self.wf(),
        ensures
            is_boundary(self.text(), pos_after(self.text(), self.read()).index as int),
            char_index_of(self.text(), pos_after(self.text(), self.read()).index as int)
                == self.read(),
            pos_after(self.text(), self.read()).index == prefix_bytes(self.text(), self.read()),
    {
        lemma_pos_after(self.text(), self.read());
        assert(prefix_bytes(self.text(), self.read())
            == pos_after(self.text(), self.read()).index as int);
        let b = pos_after(self.text(), self.read()).index as int;
        assert(is_boundary(self.text(), b));
        let m = char_index_of(self.text(), b);
        assert(0 <= m <= self.text().len() && prefix_bytes(self.text(), m) == b);
        if m < self.read() {
            lemma_prefix_bytes_mono(self.text(), m, self.read());
        }
        if self.read() < m {
            lemma_prefix_bytes_mono(self.text(), self.read(), m);
        }
    }
}

} // verus!
