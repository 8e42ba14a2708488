//! A model of text as a sequence of characters: UTF-8 byte offsets, and the
//! line and column reached after a prefix of the text.
use vstd::prelude::*;
use vstd::utf8::{
    char_is_scalar, encode_scalar, encode_utf8, encode_utf8_first_scalar, encode_utf8_valid_utf8,
    is_char_boundary, pop_first_scalar,
};

verus! {

/// Number of bytes in the UTF-8 encoding of `c`.
pub open spec fn char_width(c: char) -> nat {
    if (c as u32) <= 0x7f {
        1
    } else if (c as u32) <= 0x7ff {
        2
    } else if (c as u32) <= 0xffff {
        3
    } else {
        4
    }
}

/// Number of bytes in the UTF-8 encoding of `s`.
pub open spec fn byte_len(s: Seq<char>) -> nat
    decreases s.len(),
{
    if s.len() == 0 {
        0
    } else {
        byte_len(s.drop_last()) + char_width(s.last())
    }
}

/// Byte offset, in the encoding of `s`, of the character at index `k`.
pub open spec fn byte_offset(s: Seq<char>, k: int) -> nat {
    byte_len(s.take(k))
}

/// `b` is a byte offset that does not fall inside the encoding of a character.
pub open spec fn is_boundary(s: Seq<char>, b: int) -> bool {
    exists|k: int| 0 <= k <= s.len() && byte_offset(s, k) == b
}

/// The index of the character that starts at byte offset `b`.
pub open spec fn char_index(s: Seq<char>, b: int) -> int {
    choose|k: int| 0 <= k <= s.len() && byte_offset(s, k) == b
}

/// Number of line feeds in `s`.
pub open spec fn newlines(s: Seq<char>) -> nat
    decreases s.len(),
{
    if s.len() == 0 {
        0
    } else {
        newlines(s.drop_last()) + if s.last() == '\n' {
            1nat
        } else {
            0nat
        }
    }
}

/// The 1-based line reached after reading `s`.
pub open spec fn line_after(s: Seq<char>) -> nat {
    newlines(s) + 1
}

/// The 1-based column reached after reading `s`: one more than the number of
/// characters since the last line feed.
pub open spec fn column_after(s: Seq<char>) -> nat
    decreases s.len(),
{
    if s.len() == 0 {
        1
    } else if s.last() == '\n' {
        1
    } else {
        column_after(s.drop_last()) + 1
    }
}

/// Index of the first character of line `n` (1-based): the shortest prefix of
/// `s` that holds `n - 1` line feeds. `None` where `s` has fewer line feeds.
pub open spec fn line_start(s: Seq<char>, n: nat) -> Option<nat>
    decreases s.len(),
{
    if n <= 1 {
        Some(0)
    } else if s.len() == 0 {
        None
    } else if newlines(s.drop_last()) >= n - 1 {
        line_start(s.drop_last(), n)
    } else if newlines(s) == n - 1 {
        Some(s.len())
    } else {
        None
    }
}

/// The encoding of one character is `char_width` bytes long.
proof fn lemma_encode_scalar_len(c: char)
    ensures
        encode_scalar(c as u32).len() == char_width(c),
{
    char_is_scalar(c);
}

/// Splitting a sequence splits its byte length.
pub proof fn lemma_byte_len_concat(a: Seq<char>, b: Seq<char>)
    ensures
        byte_len(a + b) == byte_len(a) + byte_len(b),
    decreases b.len(),
{
    if b.len() == 0 {
        assert(a + b =~= a);
    } else {
        lemma_byte_len_concat(a, b.drop_last());
        assert((a + b).drop_last() =~= a + b.drop_last());
    }
}

/// The UTF-8 encoding of `s` is `byte_len(s)` bytes long.
pub proof fn lemma_encoding_len(s: Seq<char>)
    ensures
        encode_utf8(s).len() == byte_len(s),
    decreases s.len(),
{
    if s.len() > 0 {
        lemma_encoding_len(s.drop_first());
        lemma_encode_scalar_len(s[0]);
        lemma_byte_len_concat(seq![s[0]], s.drop_first());
        assert(seq![s[0]] + s.drop_first() =~= s);
        lemma_byte_len_single(s[0]);
    }
}

proof fn lemma_byte_len_single(c: char)
    ensures
        byte_len(seq![c]) == char_width(c),
{
    assert(seq![c].drop_last() =~= Seq::<char>::empty());
    assert(byte_len(seq![c].drop_last()) == 0);
}

/// Past the first character, offsets are those of the rest shifted by its width.
proof fn lemma_offset_after_first(s: Seq<char>, k: int)
    requires
        1 <= k <= s.len(),
    ensures
        byte_offset(s, k) == char_width(s[0]) + byte_offset(s.drop_first(), k - 1),
{
    assert(s.take(k) =~= seq![s[0]] + s.drop_first().take(k - 1));
    lemma_byte_len_concat(seq![s[0]], s.drop_first().take(k - 1));
    lemma_byte_len_single(s[0]);
}

/// The character boundaries of the UTF-8 encoding of `s` are those of the model.
pub proof fn lemma_char_boundary(s: Seq<char>, b: int)
    requires
        0 <= b,
    ensures
        is_char_boundary(encode_utf8(s), b) <==> is_boundary(s, b),
    decreases s.len(),
{
    let bytes = encode_utf8(s);
    encode_utf8_valid_utf8(s);
    assert(byte_offset(s, 0) == 0) by {
        assert(s.take(0) =~= Seq::<char>::empty());
    }
    if b == 0 {
    } else if s.len() == 0 {
        assert forall|k: int| 0 <= k <= s.len() implies byte_offset(s, k) != b by {
            assert(s.take(k) =~= Seq::<char>::empty());
        }
    } else {
        let t = s.drop_first();
        let w = char_width(s[0]);
        lemma_encoding_len(s);
        encode_utf8_first_scalar(s);
        lemma_encode_scalar_len(s[0]);
        assert(pop_first_scalar(bytes) =~= encode_utf8(t));
        if b > bytes.len() {
            assert forall|k: int| 0 <= k <= s.len() implies byte_offset(s, k) != b by {
                lemma_offset_monotonic(s, k, k);
            }
        } else if b < w {
            assert(!is_char_boundary(encode_utf8(t), b - w));
            assert forall|k: int| 0 <= k <= s.len() implies byte_offset(s, k) != b by {
                if k >= 1 {
                    lemma_offset_after_first(s, k);
                }
            }
        } else {
            lemma_char_boundary(t, b - w);
            if is_boundary(s, b) {
                let k = choose|k: int| 0 <= k <= s.len() && byte_offset(s, k) == b;
                lemma_offset_after_first(s, k);
                assert(0 <= k - 1 <= t.len() && byte_offset(t, k - 1) == b - w);
            }
            if is_boundary(t, b - w) {
                let k = choose|k: int| 0 <= k <= t.len() && byte_offset(t, k) == b - w;
                lemma_offset_after_first(s, k + 1);
                assert(0 <= k + 1 <= s.len() && byte_offset(s, k + 1) == b);
            }
        }
    }
}

/// Byte offsets grow with the character index, by at least one per character.
pub proof fn lemma_offset_monotonic(s: Seq<char>, i: int, j: int)
    requires
        0 <= i <= j <= s.len(),
    ensures
        byte_offset(s, i) + (j - i) <= byte_offset(s, j),
        byte_offset(s, j) <= byte_len(s),
    decreases j - i,
{
    if i < j {
        lemma_offset_monotonic(s, i, j - 1);
        assert(s.take(j).drop_last() =~= s.take(j - 1));
    }
    lemma_byte_len_concat(s.take(j), s.skip(j));
    assert(s.take(j) + s.skip(j) =~= s);
}

/// A boundary names exactly one character index.
pub proof fn lemma_char_index(s: Seq<char>, b: int)
    requires
        is_boundary(s, b),
    ensures
        0 <= char_index(s, b) <= s.len(),
        byte_offset(s, char_index(s, b)) == b,
        forall|k: int| 0 <= k <= s.len() && byte_offset(s, k) == b ==> k == char_index(s, b),
{
    let i = char_index(s, b);
    assert forall|k: int| 0 <= k <= s.len() && byte_offset(s, k) == b implies k == i by {
        if k < i {
            lemma_offset_monotonic(s, k, i);
        } else if i < k {
            lemma_offset_monotonic(s, i, k);
        }
    }
}

/// Line and column counts never outrun the text they are read from.
pub proof fn lemma_line_column_bounds(s: Seq<char>)
    ensures
        newlines(s) <= s.len(),
        1 <= column_after(s) <= s.len() + 1,
    decreases s.len(),
{
    if s.len() > 0 {
        lemma_line_column_bounds(s.drop_last());
    }
}

/// A prefix never holds more line feeds than the whole.
pub proof fn lemma_newlines_prefix(s: Seq<char>, k: int)
    requires
        0 <= k <= s.len(),
    ensures
        newlines(s.take(k)) <= newlines(s),
    decreases s.len(),
{
    if k < s.len() {
        lemma_newlines_prefix(s.drop_last(), k);
        assert(s.drop_last().take(k) =~= s.take(k));
    } else {
        assert(s.take(k) =~= s);
    }
}

/// Where the prefix `s[..k]` ends in the `(n - 1)`-th line feed, line `n` starts at `k`.
pub proof fn lemma_line_start_found(s: Seq<char>, n: nat, k: int)
    requires
        n >= 2,
        1 <= k <= s.len(),
        s[k - 1] == '\n',
        newlines(s.take(k)) == n - 1,
    ensures
        line_start(s, n) == Some(k as nat),
    decreases s.len(),
{
    if k == s.len() {
        assert(s.take(k) =~= s);
        assert(s.drop_last() =~= s.take(k - 1));
        assert(s.take(k).drop_last() =~= s.take(k - 1));
    } else {
        let t = s.drop_last();
        assert(t.take(k) =~= s.take(k));
        lemma_newlines_prefix(t, k);
        lemma_line_start_found(t, n, k);
    }
}

/// In text that holds a line feed, the last one sits just before the
/// `column_after(t) - 1` characters that end the text.
pub proof fn lemma_last_line(t: Seq<char>)
    requires
        newlines(t) >= 1,
    ensures
        ({
            let m = t.len() + 1 - column_after(t);
            &&& 1 <= m <= t.len()
            &&& t[m - 1] == '\n'
            &&& newlines(t.take(m)) == newlines(t)
        }),
    decreases t.len(),
{
    lemma_line_column_bounds(t);
    if t.last() == '\n' {
        assert(t.take(t.len() as int) =~= t);
    } else {
        let d = t.drop_last();
        lemma_last_line(d);
        let m = t.len() + 1 - column_after(t);
        assert(d.take(m) =~= t.take(m));
    }
}

/// On the first line the column is one more than the characters read.
pub proof fn lemma_first_line(t: Seq<char>)
    requires
        newlines(t) == 0,
    ensures
        column_after(t) == t.len() + 1,
    decreases t.len(),
{
    if t.len() > 0 {
        lemma_first_line(t.drop_last());
    }
}

/// Reading `s[..k]` and then no line feed leaves the line where it was and
/// moves the column on by the characters read.
pub proof fn lemma_same_line(s: Seq<char>, k: int, p: int)
    requires
        0 <= k <= p <= s.len(),
        forall|x: int| k <= x < p ==> s[x] != '\n',
    ensures
        newlines(s.take(p)) == newlines(s.take(k)),
        k >= 1 && s[k - 1] == '\n' ==> column_after(s.take(p)) == 1 + (p - k),
    decreases p - k,
{
    if k < p {
        lemma_same_line(s, k, p - 1);
        assert(s.take(p).drop_last() =~= s.take(p - 1));
    } else if k >= 1 && s[k - 1] == '\n' {
        assert(s.take(k).drop_last() =~= s.take(k - 1));
    }
}

/// The byte length of `s[i..j]` is the distance between their offsets.
pub proof fn lemma_slice_bytes(s: Seq<char>, i: int, j: int)
    requires
        0 <= i <= j <= s.len(),
    ensures
        byte_offset(s, j) == byte_offset(s, i) + byte_len(s.subrange(i, j)),
{
    assert(s.take(j) =~= s.take(i) + s.subrange(i, j));
    lemma_byte_len_concat(s.take(i), s.subrange(i, j));
}

/// Where line `n` starts, a line feed ends the `n - 1` lines before it.
pub proof fn lemma_line_start_facts(s: Seq<char>, n: nat)
    requires
        n >= 2,
        line_start(s, n) is Some,
    ensures
        ({
            let first = line_start(s, n)->0 as int;
            &&& 1 <= first <= s.len()
            &&& s[first - 1] == '\n'
            &&& newlines(s.take(first)) == n - 1
        }),
    decreases s.len(),
{
    if newlines(s.drop_last()) >= n - 1 {
        let d = s.drop_last();
        lemma_line_start_facts(d, n);
        let first = line_start(s, n)->0 as int;
        assert(d.take(first) =~= s.take(first));
    } else {
        assert(s.take(s.len() as int) =~= s);
    }
}

/// Text with fewer than `n - 1` line feeds has no line `n`.
pub proof fn lemma_line_start_missing(s: Seq<char>, n: nat)
    requires
        n >= 2,
        newlines(s) < n - 1,
    ensures
        line_start(s, n) is None,
    decreases s.len(),
{
    if s.len() > 0 {
        lemma_line_start_missing(s.drop_last(), n);
    }
}

/// Length in bytes of the UTF-8 encoding of `source`.
pub fn byte_length(source: &str) -> (n: usize)
    ensures
        n == byte_len(source@),
{
    let bytes = source.as_bytes();
    proof {
        lemma_encoding_len(source@);
    }
    bytes.len()
}

/// Exact width of a character's encoding, as `char::len_utf8` gives it.
pub fn utf8_width(c: char) -> (r: usize)
    ensures
        r == char_width(c),
{
    let v = c as u32;
    if v <= 0x7f {
        1
    } else if v <= 0x7ff {
        2
    } else if v <= 0xffff {
        3
    } else {
        4
    }
}

} // verus!
