use vstd::prelude::*;
use vstd::utf8::*;
use vstd::string::StringSliceAdditionalSpecFns;

verus! {

broadcast use vstd::utf8::encode_utf8_valid_utf8;

/// Number of bytes in the UTF-8 encoding of `c`.
pub open spec fn utf8_width(c: char) -> nat {
    let v = c as u32;
    if v <= 0x7F {
        1
    } else if v <= 0x7FF {
        2
    } else if v <= 0xFFFF {
        3
    } else {
        4
    }
}

/// Number of UTF-16 code units that encode `c`.
pub open spec fn utf16_width(c: char) -> nat {
    if (c as u32) <= 0xFFFF {
        1
    } else {
        2
    }
}

/// Number of bytes in the UTF-8 encoding of `s`.
pub open spec fn utf8_len(s: Seq<char>) -> nat
    decreases s.len(),
{
    if s.len() == 0 {
        0
    } else {
        utf8_width(s[0]) + utf8_len(s.drop_first())
    }
}

/// Number of UTF-16 code units in the encoding of `s`.
pub open spec fn utf16_len(s: Seq<char>) -> nat
    decreases s.len(),
{
    if s.len() == 0 {
        0
    } else {
        utf16_width(s[0]) + utf16_len(s.drop_first())
    }
}

/// Byte offset of the character with index `i` in `s`.
pub open spec fn byte_offset(s: Seq<char>, i: int) -> nat {
    utf8_len(s.take(i))
}

pub proof fn lemma_utf8_len_concat(a: Seq<char>, b: Seq<char>)
    ensures
        utf8_len(a + b) == utf8_len(a) + utf8_len(b),
        utf16_len(a + b) == utf16_len(a) + utf16_len(b),
    decreases a.len(),
{
    if a.len() == 0 {
        assert(a + b =~= b);
    } else {
        lemma_utf8_len_concat(a.drop_first(), b);
        assert((a + b).drop_first() =~= a.drop_first() + b);
    }
}

pub proof fn lemma_utf8_len_single(c: char)
    ensures
        utf8_len(seq![c]) == utf8_width(c),
        utf16_len(seq![c]) == utf16_width(c),
{
    assert(seq![c].drop_first() =~= Seq::<char>::empty());
    reveal_with_fuel(utf8_len, 2);
    reveal_with_fuel(utf16_len, 2);
}

/// Offsets grow by the width of each character.
pub proof fn lemma_byte_offset_step(s: Seq<char>, i: int)
    requires
        0 <= i < s.len(),
    ensures
        byte_offset(s, i + 1) == byte_offset(s, i) + utf8_width(s[i]),
        utf16_len(s.take(i + 1)) == utf16_len(s.take(i)) + utf16_width(s[i]),
{
    assert(s.take(i + 1) =~= s.take(i) + seq![s[i]]);
    lemma_utf8_len_concat(s.take(i), seq![s[i]]);
    lemma_utf8_len_single(s[i]);
}

/// The encoding of a part of `s` spans the difference of the offsets of its ends.
pub proof fn lemma_subrange_len(s: Seq<char>, a: int, b: int)
    requires
        0 <= a <= b <= s.len(),
    ensures
        byte_offset(s, b) == byte_offset(s, a) + utf8_len(s.subrange(a, b)),
        utf16_len(s.take(b)) == utf16_len(s.take(a)) + utf16_len(s.subrange(a, b)),
{
    assert(s.take(b) =~= s.take(a) + s.subrange(a, b));
    lemma_utf8_len_concat(s.take(a), s.subrange(a, b));
}

/// Extending a part of `s` by one character adds that character's width.
pub proof fn lemma_subrange_step(s: Seq<char>, a: int, k: int)
    requires
        0 <= a <= k < s.len(),
    ensures
        utf8_len(s.subrange(a, k + 1)) == utf8_len(s.subrange(a, k)) + utf8_width(s[k]),
        utf16_len(s.subrange(a, k + 1)) == utf16_len(s.subrange(a, k)) + utf16_width(s[k]),
{
    lemma_subrange_len(s, a, k);
    lemma_subrange_len(s, a, k + 1);
    lemma_byte_offset_step(s, k);
}

/// Offsets are monotonic in the character index.
pub proof fn lemma_byte_offset_mono(s: Seq<char>, i: int, j: int)
    requires
        0 <= i <= j <= s.len(),
    ensures
        byte_offset(s, i) <= byte_offset(s, j),
        i < j ==> byte_offset(s, i) < byte_offset(s, j),
    decreases j - i,
{
    if i < j {
        lemma_byte_offset_mono(s, i, j - 1);
        lemma_byte_offset_step(s, j - 1);
    }
}

/// UTF-16 offsets are strictly monotonic in the character index.
pub proof fn lemma_utf16_mono(s: Seq<char>, i: int, j: int)
    requires
        0 <= i <= j <= s.len(),
    ensures
        utf16_len(s.take(i)) <= utf16_len(s.take(j)),
        i < j ==> utf16_len(s.take(i)) < utf16_len(s.take(j)),
    decreases j - i,
{
    if i < j {
        lemma_utf16_mono(s, i, j - 1);
        lemma_byte_offset_step(s, j - 1);
    }
}

/// The offset of the end of `s` is its byte length.
pub proof fn lemma_byte_offset_end(s: Seq<char>)
    ensures
        byte_offset(s, s.len() as int) == utf8_len(s),
{
    assert(s.take(s.len() as int) =~= s);
}

pub proof fn lemma_utf8_len_encode(s: Seq<char>)
    ensures
        utf8_len(s) == encode_utf8(s).len(),
    decreases s.len(),
{
    if s.len() > 0 {
        lemma_utf8_len_encode(s.drop_first());
        char_is_scalar(s[0]);
    }
}

pub proof fn lemma_encode_concat(a: Seq<char>, b: Seq<char>)
    ensures
        encode_utf8(a + b) == encode_utf8(a) + encode_utf8(b),
    decreases a.len(),
{
    if a.len() == 0 {
        assert(a + b =~= b);
        assert(encode_utf8(a) + encode_utf8(b) =~= encode_utf8(b));
    } else {
        lemma_encode_concat(a.drop_first(), b);
        assert((a + b).drop_first() =~= a.drop_first() + b);
        assert((a + b)[0] == a[0]);
        assert(encode_utf8(a + b) =~= encode_scalar(a[0] as u32) + (encode_utf8(a.drop_first())
            + encode_utf8(b)));
    }
}

pub proof fn lemma_char_boundary_concat(a: Seq<char>, b: Seq<char>)
    ensures
        is_char_boundary(encode_utf8(a + b), encode_utf8(a).len() as int),
    decreases a.len(),
{
    let bytes = encode_utf8(a + b);
    if a.len() == 0 {
    } else {
        let ab = a + b;
        lemma_char_boundary_concat(a.drop_first(), b);
        assert(ab.drop_first() =~= a.drop_first() + b);
        encode_utf8_first_scalar(ab);
        assert(pop_first_scalar(bytes) =~= encode_utf8(ab.drop_first()));
        char_is_scalar(a[0]);
        assert(encode_utf8(a).len() == encode_scalar(a[0] as u32).len() + encode_utf8(
            a.drop_first(),
        ).len());
    }
}

/// The part of `s` between the characters with indices `i` and `j`, given
/// by their byte offsets `start` and `end`.
pub fn slice_chars<'a>(
    s: &'a str,
    start: usize,
    end: usize,
    Ghost(i): Ghost<int>,
    Ghost(j): Ghost<int>,
) -> (r: &'a str)
    requires
        0 <= i <= j <= s@.len(),
        start == byte_offset(s@, i),
        end == byte_offset(s@, j),
    ensures
        r@ == s@.subrange(i, j),
{
    let ghost c = s@;
    proof {
        assert(c =~= c.take(i) + c.skip(i));
        lemma_utf8_len_encode(c.take(i));
        lemma_char_boundary_concat(c.take(i), c.skip(i));
        lemma_encode_concat(c.take(i), c.skip(i));
    }
    let (_, rest) = s.split_at(start);
    proof {
        assert(rest.spec_bytes() =~= encode_utf8(c.skip(i)));
        encode_utf8_decode_utf8(rest@);
        encode_utf8_decode_utf8(c.skip(i));
        assert(rest@ == c.skip(i));
        let r = c.skip(i);
        let k = j - i;
        assert(r =~= r.take(k) + r.skip(k));
        assert(r.take(k) =~= c.subrange(i, j));
        assert(c.take(j) =~= c.take(i) + r.take(k));
        lemma_utf8_len_concat(c.take(i), r.take(k));
        lemma_utf8_len_encode(r.take(k));
        lemma_char_boundary_concat(r.take(k), r.skip(k));
        lemma_encode_concat(r.take(k), r.skip(k));
    }
    let (mid, _) = rest.split_at(end - start);
    proof {
        let r = c.skip(i);
        let k = j - i;
        assert(mid.spec_bytes() =~= encode_utf8(r.take(k)));
        encode_utf8_decode_utf8(mid@);
        encode_utf8_decode_utf8(r.take(k));
    }
    mid
}

/// Number of bytes that encode `c` in UTF-8 (`char::len_utf8`).
pub fn char_len_utf8(c: char) -> (r: u32)
    ensures
        r == utf8_width(c),
        1 <= r <= 4,
{
    let v = c as u32;
    if v <= 0x7F {
        1
    } else if v <= 0x7FF {
        2
    } else if v <= 0xFFFF {
        3
    } else {
        4
    }
}

/// Number of UTF-16 code units that encode `c` (`char::len_utf16`).
pub fn char_len_utf16(c: char) -> (r: u32)
    ensures
        r == utf16_width(c),
        1 <= r <= 2,
{
    if (c as u32) <= 0xFFFF {
        1
    } else {
        2
    }
}

/// A character never needs more UTF-16 units than UTF-8 bytes.
pub proof fn lemma_utf16_le_utf8(s: Seq<char>)
    ensures
        utf16_len(s) <= utf8_len(s),
    decreases s.len(),
{
    if s.len() > 0 {
        lemma_utf16_le_utf8(s.drop_first());
    }
}

/// Byte length of `s`, as `str::len` gives it, in terms of its characters.
pub proof fn lemma_str_len(s: &str)
    ensures
        s.spec_bytes().len() == utf8_len(s@),
        utf8_len(s@) <= usize::MAX ==> s.len() == utf8_len(s@),
{
    lemma_utf8_len_encode(s@);
}

/// `String::push`: appends `c` to `s`.
#[verifier::external_body]
pub fn push_char(s: &mut String, c: char)
    ensures
        final(s)@ == old(s)@.push(c),
{
    s.push(c);
}

/// The characters of `s`, in order.
pub fn chars_of(s: &str) -> (v: Vec<char>)
    ensures
        v@ == s@,
{
    let mut v: Vec<char> = Vec::new();
    for c in it: s.chars()
        invariant
            v@ == it.seq().take(it.index()),
    {
        v.push(c);
    }
    v
}

/// Whether two strings hold the same characters.
pub fn str_eq(a: &str, b: &str) -> (r: bool)
    ensures
        r == (a@ == b@),
{
    let va = chars_of(a);
    let vb = chars_of(b);
    if va.len() != vb.len() {
        return false;
    }
    let mut i: usize = 0;
    while i < va.len()
        invariant
            va@ == a@,
            vb@ == b@,
            va.len() == vb.len(),
            i <= va.len(),
            forall|k: int| 0 <= k < i ==> va@[k] == vb@[k],
        decreases va.len() - i,
    {
        if va[i] != vb[i] {
            return false;
        }
        i = i + 1;
    }
    assert(va@ =~= vb@);
    true
}

/// The bytes of the character at index `j` stand in the encoding of `s` at
/// its byte offset.
pub proof fn lemma_encode_at(s: Seq<char>, j: int)
    requires
        0 <= j < s.len(),
    ensures
        encode_utf8(s).len() == utf8_len(s),
        encode_utf8(seq![s[j]]).len() == utf8_width(s[j]),
        byte_offset(s, j) + utf8_width(s[j]) <= utf8_len(s),
        forall|b: int|
            0 <= b < utf8_width(s[j]) ==> #[trigger] encode_utf8(s)[byte_offset(s, j) + b]
                == encode_utf8(seq![s[j]])[b],
{
    let a = s.take(j);
    let c = seq![s[j]];
    let rest = s.skip(j + 1);
    assert(s =~= a + c + rest);
    lemma_encode_concat(a + c, rest);
    lemma_encode_concat(a, c);
    lemma_utf8_len_encode(a);
    lemma_utf8_len_encode(c);
    lemma_utf8_len_encode(s);
    lemma_utf8_len_single(s[j]);
    lemma_byte_offset_step(s, j);
    lemma_byte_offset_mono(s, j + 1, s.len() as int);
    lemma_byte_offset_end(s);
}

/// Encoding a text with one more character appends that character's bytes.
pub proof fn lemma_encode_push(t: Seq<char>, c: char)
    ensures
        encode_utf8(t.push(c)) == encode_utf8(t) + encode_utf8(seq![c]),
        encode_utf8(t).len() == utf8_len(t),
        encode_utf8(seq![c]).len() == utf8_width(c),
{
    assert(t.push(c) =~= t + seq![c]);
    lemma_encode_concat(t, seq![c]);
    lemma_utf8_len_encode(t);
    lemma_utf8_len_encode(seq![c]);
    lemma_utf8_len_single(c);
}

} // verus!
