//! Character-level helpers: prefix tests on UTF-8 strings, padding, and
//! the letter alphabet used by the board.
use vstd::prelude::*;
use vstd::string::*;
use vstd::utf8::*;

verus! {

broadcast use vstd::string::group_string_axioms;

/// Number of bytes in the UTF-8 encoding of `s` (what `str::len` reports).
pub open spec fn utf8_len(s: Seq<char>) -> nat {
    encode_utf8(s).len()
}

/// Appends a character to a `String`.
pub assume_specification[ String::push ](s: &mut String, ch: char)
    ensures
        final(s)@ == old(s)@.push(ch),
;

/// The encoding of a concatenation is the concatenation of the encodings.
pub proof fn lemma_encode_concat(a: Seq<char>, b: Seq<char>)
    ensures
        encode_utf8(a + b) == encode_utf8(a) + encode_utf8(b),
    decreases a.len(),
{
    if a.len() == 0 {
        assert(a + b =~= b);
        assert(encode_utf8(a) + encode_utf8(b) =~= encode_utf8(b));
    } else {
        assert((a + b).drop_first() =~= a.drop_first() + b);
        assert((a + b)[0] == a[0]);
        lemma_encode_concat(a.drop_first(), b);
        assert(encode_utf8(a + b) =~= encode_utf8(a) + encode_utf8(b));
    }
}

/// A single character takes one to four bytes.
pub proof fn lemma_char_utf8_len(c: char)
    ensures
        1 <= utf8_len(seq![c]) <= 4,
{
    let s = seq![c];
    assert(s.drop_first() =~= Seq::<char>::empty());
    assert(encode_utf8(Seq::<char>::empty()) =~= Seq::<u8>::empty());
    assert(encode_utf8(s) =~= encode_scalar(c as u32) + encode_utf8(s.drop_first()));
    assert(1 <= encode_scalar(c as u32).len() <= 4);
}

/// An ASCII character takes one byte.
pub proof fn lemma_ascii_char_len(c: char)
    requires
        '\0' <= c <= '\u{7f}',
    ensures
        utf8_len(seq![c]) == 1,
{
    let s = seq![c];
    assert(s.drop_first() =~= Seq::<char>::empty());
    assert(encode_utf8(Seq::<char>::empty()) =~= Seq::<u8>::empty());
    assert(encode_utf8(s) =~= encode_scalar(c as u32) + encode_utf8(s.drop_first()));
    assert(has_width_1_encoding(c as u32));
    assert(encode_scalar(c as u32).len() == 1);
}

/// In the encoding of an ASCII text every byte offset up to its length is a
/// character boundary.
pub proof fn lemma_ascii_boundaries(s: Seq<char>, i: int)
    requires
        is_ascii_chars(s),
        0 <= i <= utf8_len(s),
    ensures
        is_char_boundary(encode_utf8(s), i),
        utf8_len(s) == s.len(),
{
    is_ascii_chars_encode_utf8(s);
    is_ascii_chars_nat_bound(s);
    encode_utf8_valid_utf8(s);
    let b = encode_utf8(s);
    is_char_boundary_start_end_of_seq(b);
    if i < b.len() {
        assert((s[i] as nat) < 128);
        assert(s[i] as u8 == b[i]);
        assert(b[i] <= 0x7f);
        is_char_boundary_iff_is_leading_byte(b, i);
    }
}

/// Whether `sub` is a prefix of `word`. Both are compared as UTF-8 strings:
/// when `sub` is not longer than `word` in bytes, `word` is cut after as
/// many bytes as `sub` has, which requires that cut to fall on a character
/// boundary of `word`.
pub fn substr_compare(sub: &String, word: &String) -> (r: bool)
    requires
        utf8_len(sub@) <= usize::MAX,
        utf8_len(word@) <= usize::MAX,
        utf8_len(sub@) <= utf8_len(word@) ==> is_char_boundary(
            encode_utf8(word@),
            utf8_len(sub@) as int,
        ),
    ensures
        r == sub@.is_prefix_of(word@),
{
    let ghost bytes = encode_utf8(word@);
    proof {
        encode_utf8_valid_utf8(word@);
        encode_utf8_decode_utf8(word@);
        encode_utf8_decode_utf8(sub@);
        if sub@.is_prefix_of(word@) {
            let rest = word@.subrange(sub@.len() as int, word@.len() as int);
            assert(word@ =~= sub@ + rest);
            lemma_encode_concat(sub@, rest);
        }
    }
    let n = sub.as_str().len();
    assert(n == utf8_len(sub@));
    let word_len = word.as_str().len();
    assert(word_len == utf8_len(word@));
    if n <= word_len {
        let (head, _tail) = word.as_str().split_at(n);
        proof {
            encode_utf8_decode_utf8(head@);
            decode_utf8_split(bytes, n as int);
            assert(head@ == decode_utf8(bytes.subrange(0, n as int)));
            if sub@.is_prefix_of(word@) {
                assert(bytes.subrange(0, n as int) =~= encode_utf8(sub@));
            }
        }
        let head_string = head.to_string();
        if head_string.eq(sub) {
            return true;
        }
    }
    false
}

/// `w` followed by spaces up to `width` characters, as `{:<width$}` formats it.
pub open spec fn pad_spec(w: Seq<char>, width: nat) -> Seq<char> {
    if w.len() >= width {
        w
    } else {
        w + Seq::new((width - w.len()) as nat, |i: int| ' ')
    }
}

/// Appends `w` to `out`, left-aligned in a field of `width` characters.
pub fn push_padded(out: &mut String, w: &str, width: usize)
    ensures
        final(out)@ == old(out)@ + pad_spec(w@, width as nat),
{
    out.append(w);
    let n = w.unicode_len();
    if n < width {
        let mut k: usize = n;
        while k < width
            invariant
                n <= k <= width,
                n == w@.len(),
                out@ == old(out)@ + w@ + Seq::new((k - n) as nat, |i: int| ' '),
            decreases width - k,
        {
            out.push(' ');
            k = k + 1;
            assert(out@ =~= old(out)@ + w@ + Seq::new((k - n) as nat, |i: int| ' '));
        }
        assert(out@ =~= old(out)@ + pad_spec(w@, width as nat));
    } else {
        assert(out@ =~= old(out)@ + pad_spec(w@, width as nat));
    }
}

/// The character sequences of a list of strings.
pub open spec fn texts(v: Seq<String>) -> Seq<Seq<char>> {
    v.map_values(|s: String| s@)
}

/// Whether `w` occurs in `list` (what `list.contains(w)` reports).
pub fn contains_word(list: &Vec<String>, w: &String) -> (r: bool)
    ensures
        r == texts(list@).contains(w@),
{
    let mut i: usize = 0;
    while i < list.len()
        invariant
            i <= list.len(),
            forall|j: int| 0 <= j < i ==> texts(list@)[j] != w@,
        decreases list.len() - i,
    {
        if list[i].eq(w) {
            assert(texts(list@)[i as int] == w@);
            return true;
        }
        i = i + 1;
    }
    false
}

} // verus!
