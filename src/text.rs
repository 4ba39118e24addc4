use vstd::prelude::*;
use vstd::utf8::*;
use vstd::string::*;

verus! {

broadcast use vstd::utf8::encode_utf8_valid_utf8, vstd::utf8::encode_utf8_decode_utf8;

/// The UTF-8 bytes of a character sequence.
pub open spec fn utf8(s: Seq<char>) -> Seq<u8> {
    encode_utf8(s)
}

/// An ASCII byte: a whole character of its own in UTF-8.
pub open spec fn is_ascii_byte(c: u8) -> bool {
    c < 0x80
}

/// A cut at `i` that cannot split a character: at either end of `b`, or
/// next to an ASCII byte.
pub open spec fn ascii_cut(b: Seq<u8>, i: int) -> bool {
    ||| i == 0
    ||| i == b.len()
    ||| (0 <= i < b.len() && is_ascii_byte(b[i]))
    ||| (0 < i <= b.len() && is_ascii_byte(b[i - 1]))
}

/// Encoding distributes over concatenation.
pub proof fn lemma_utf8_concat(a: Seq<char>, b: Seq<char>)
    ensures
        utf8(a + b) == utf8(a) + utf8(b),
    decreases a.len(),
{
    if a.len() == 0 {
        assert(a + b =~= b);
    } else {
        lemma_utf8_concat(a.drop_first(), b);
        assert((a + b).drop_first() =~= a.drop_first() + b);
        assert((a + b)[0] == a[0]);
    }
}

/// An ASCII character is encoded as its own code.
pub proof fn lemma_utf8_ascii_char(c: char)
    requires
        (c as u32) < 0x80,
    ensures
        utf8(seq![c]) == seq![(c as u32) as u8],
{
    let x = c as u32;
    assert(x & 0x7F == x) by (bit_vector)
        requires
            x < 0x80,
    ;
    let one = seq![c];
    assert(one.drop_first() =~= Seq::<char>::empty());
    assert(one[0] == c);
    assert(encode_utf8(Seq::<char>::empty()) == Seq::<u8>::empty());
    assert(encode_utf8(one) == encode_scalar(one[0] as u32) + encode_utf8(one.drop_first()));
    assert(encode_scalar(x) == seq![(x & 0x7F) as u8]);
    assert(utf8(seq![c]) =~= seq![x as u8]);
}

/// Two character sequences with the same encoding are equal.
pub proof fn lemma_utf8_injective(a: Seq<char>, b: Seq<char>)
    requires
        utf8(a) == utf8(b),
    ensures
        a == b,
{
    assert(decode_utf8(encode_utf8(a)) == a);
    assert(decode_utf8(encode_utf8(b)) == b);
}

/// A cut next to an ASCII byte of valid UTF-8 is a character boundary.
pub proof fn lemma_ascii_cut_boundary(b: Seq<u8>, i: int)
    requires
        valid_utf8(b),
        0 <= i <= b.len(),
        ascii_cut(b, i),
    ensures
        is_char_boundary(b, i),
{
    is_char_boundary_start_end_of_seq(b);
    if i == 0 || i == b.len() {
    } else if is_ascii_byte(b[i]) {
        is_char_boundary_iff_not_is_continuation_byte(b, i);
    } else {
        is_char_boundary_iff_not_is_continuation_byte(b, i - 1);
        valid_utf8_split(b, i - 1);
        let c = b.subrange(i - 1, b.len() as int);
        assert(c[0] == b[i - 1]);
        assert(length_of_first_scalar(c) == 1);
        let d = pop_first_scalar(c);
        assert(d =~= b.subrange(i, b.len() as int));
        assert(valid_utf8(d));
        assert(d[0] == b[i]);
        assert(!is_continuation_byte(b[i]));
        is_char_boundary_iff_not_is_continuation_byte(b, i);
    }
}

/// Boundaries of a valid sequence stay boundaries in the suffix that starts
/// at one of them.
pub proof fn lemma_suffix_boundary(b: Seq<u8>, s: int, e: int)
    requires
        valid_utf8(b),
        0 <= s <= e <= b.len(),
        is_char_boundary(b, s),
        is_char_boundary(b, e),
    ensures
        valid_utf8(b.subrange(s, b.len() as int)),
        is_char_boundary(b.subrange(s, b.len() as int), e - s),
{
    valid_utf8_split(b, s);
    let c = b.subrange(s, b.len() as int);
    is_char_boundary_start_end_of_seq(c);
    if e < b.len() {
        is_char_boundary_iff_not_is_continuation_byte(b, e);
        is_char_boundary_iff_not_is_continuation_byte(c, e - s);
        assert(c[e - s] == b[e]);
    }
}

/// Boundaries of a valid sequence up to one of them stay boundaries in the
/// prefix that ends there.
pub proof fn lemma_prefix_boundary(b: Seq<u8>, k: int, i: int)
    requires
        valid_utf8(b),
        0 <= i <= k <= b.len(),
        is_char_boundary(b, k),
        is_char_boundary(b, i),
    ensures
        valid_utf8(b.subrange(0, k)),
        is_char_boundary(b.subrange(0, k), i),
{
    valid_utf8_split(b, k);
    let c = b.subrange(0, k);
    is_char_boundary_start_end_of_seq(c);
    if i < k {
        is_char_boundary_iff_not_is_continuation_byte(b, i);
        is_char_boundary_iff_not_is_continuation_byte(c, i);
    }
}

/// Concatenating valid sequences gives a valid sequence, in which the
/// boundaries of either part remain boundaries.
pub proof fn lemma_concat_boundary(x: Seq<u8>, y: Seq<u8>, i: int)
    requires
        valid_utf8(x),
        valid_utf8(y),
        (0 <= i <= x.len() && is_char_boundary(x, i)) || (x.len() <= i <= x.len() + y.len()
            && is_char_boundary(y, i - x.len())),
    ensures
        valid_utf8(x + y),
        is_char_boundary(x + y, i),
{
    valid_utf8_concat(x, y);
    let z = x + y;
    is_char_boundary_start_end_of_seq(z);
    if 0 < i < z.len() {
        is_char_boundary_iff_not_is_continuation_byte(z, i);
        if i < x.len() {
            is_char_boundary_iff_not_is_continuation_byte(x, i);
        } else if i == x.len() {
            assert(valid_first_scalar(y));
            assert(z[i] == y[0]);
        } else {
            is_char_boundary_iff_not_is_continuation_byte(y, i - x.len());
        }
    }
}

/// Copies the bytes `start..end` of `s` into a new string. Both cuts must sit
/// on character boundaries.
pub fn substring(s: &str, start: usize, end: usize) -> (r: String)
    requires
        start <= end <= s.spec_bytes().len(),
        is_char_boundary(s.spec_bytes(), start as int),
        is_char_boundary(s.spec_bytes(), end as int),
    ensures
        utf8(r@) == s.spec_bytes().subrange(start as int, end as int),
{
    let ghost b = s.spec_bytes();
    proof {
        lemma_suffix_boundary(b, start as int, end as int);
    }
    let (_pre, rest) = s.split_at(start);
    let (mid, _post) = rest.split_at(end - start);
    proof {
        assert(mid.spec_bytes() =~= b.subrange(start as int, end as int));
    }
    mid.to_owned()
}

/// Copies the bytes `start..end` of `s`, where both cuts lie next to ASCII
/// bytes or at the ends.
pub fn ascii_substring(s: &str, start: usize, end: usize) -> (r: String)
    requires
        start <= end <= s.spec_bytes().len(),
        ascii_cut(s.spec_bytes(), start as int),
        ascii_cut(s.spec_bytes(), end as int),
    ensures
        utf8(r@) == s.spec_bytes().subrange(start as int, end as int),
{
    proof {
        lemma_ascii_cut_boundary(s.spec_bytes(), start as int);
        lemma_ascii_cut_boundary(s.spec_bytes(), end as int);
    }
    substring(s, start, end)
}

/// Appends `t` to `s`.
pub fn push_text(s: &mut String, t: &str)
    ensures
        final(s)@ == old(s)@ + t@,
        utf8(final(s)@) == utf8(old(s)@) + t.spec_bytes(),
{
    proof {
        lemma_utf8_concat(s@, t@);
    }
    s.append(t);
}

} // verus!
