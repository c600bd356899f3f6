use vstd::prelude::*;
use vstd::utf8::*;
use vstd::string::StringSliceAdditionalSpecFns;

verus! {

broadcast use group_utf8_lib;

/// Whitespace bytes: those ASCII characters that `char::is_whitespace` accepts.
pub open spec fn is_space(b: u8) -> bool {
    b == 32u8 || (9u8 <= b && b <= 13u8)
}

/// Bytes that may appear in an identifier: ASCII letters, digits and `_`.
pub open spec fn is_ident_byte(b: u8) -> bool {
    (48u8 <= b && b <= 57u8) || (65u8 <= b && b <= 90u8) || (97u8 <= b && b <= 122u8) || b == 95u8
}

/// The first position at or after `j` that does not hold whitespace, or the end of `t`.
pub open spec fn skip_space(t: Seq<u8>, j: int) -> int
    decreases t.len() - j,
{
    if j < 0 || j >= t.len() || !is_space(t[j]) {
        j
    } else {
        skip_space(t, j + 1)
    }
}

/// The first position at or after `j` that does not hold an identifier byte, or the end of `t`.
pub open spec fn skip_ident(t: Seq<u8>, j: int) -> int
    decreases t.len() - j,
{
    if j < 0 || j >= t.len() || !is_ident_byte(t[j]) {
        j
    } else {
        skip_ident(t, j + 1)
    }
}

pub fn is_space_byte(b: u8) -> (r: bool)
    ensures
        r == is_space(b),
{
    b == 32u8 || (9u8 <= b && b <= 13u8)
}

pub fn is_ident_char(b: u8) -> (r: bool)
    ensures
        r == is_ident_byte(b),
{
    (48u8 <= b && b <= 57u8) || (65u8 <= b && b <= 90u8) || (97u8 <= b && b <= 122u8) || b == 95u8
}

pub fn space_end(t: &[u8], j: usize) -> (r: usize)
    requires
        j <= t@.len(),
    ensures
        r as int == skip_space(t@, j as int),
        j <= r <= t@.len(),
{
    let mut k: usize = j;
    while k < t.len() && is_space_byte(t[k])
        invariant
            j <= k <= t@.len(),
            skip_space(t@, j as int) == skip_space(t@, k as int),
        decreases t@.len() - k,
    {
        k = k + 1;
    }
    k
}

pub fn ident_end(t: &[u8], j: usize) -> (r: usize)
    requires
        j <= t@.len(),
    ensures
        r as int == skip_ident(t@, j as int),
        j <= r <= t@.len(),
        forall|k: int| j <= k < r ==> is_ident_byte(#[trigger] t@[k]),
{
    let mut k: usize = j;
    while k < t.len() && is_ident_char(t[k])
        invariant
            j <= k <= t@.len(),
            skip_ident(t@, j as int) == skip_ident(t@, k as int),
            forall|m: int| j <= m < k ==> is_ident_byte(#[trigger] t@[m]),
        decreases t@.len() - k,
    {
        k = k + 1;
    }
    k
}

/// Whether the position `i` of the UTF-8 text `t` falls before an ASCII byte or at its end.
pub open spec fn ascii_edge(t: Seq<u8>, i: int) -> bool {
    0 <= i <= t.len() && (i == t.len() || t[i] < 128u8)
}

/// The text between two byte positions that both border ASCII bytes.
pub fn slice_str(s: &str, lo: usize, hi: usize) -> (r: String)
    requires
        lo <= hi,
        ascii_edge(s.spec_bytes(), lo as int),
        ascii_edge(s.spec_bytes(), hi as int),
    ensures
        encode_utf8(r@) == s.spec_bytes().subrange(lo as int, hi as int),
{
    let ghost t = s.spec_bytes();
    proof {
        encode_utf8_valid_utf8(s@);
        assert(valid_utf8(t));
        if lo < t.len() {
            is_char_boundary_iff_not_is_continuation_byte(t, lo as int);
            assert(is_char_boundary(t, lo as int));
        } else {
            assert(is_char_boundary(t, t.len() as int));
        }
        if hi < t.len() {
            is_char_boundary_iff_not_is_continuation_byte(t, hi as int);
            assert(is_char_boundary(t, hi as int));
        } else {
            assert(is_char_boundary(t, t.len() as int));
        }
    }
    let (_, tail) = s.split_at(lo);
    proof {
        assert(valid_utf8(tail.spec_bytes()));
        if hi < t.len() {
            assert(tail.spec_bytes()[hi - lo] == t[hi as int]);
            assert(is_char_boundary(tail.spec_bytes(), hi - lo));
        } else {
            assert(is_char_boundary(tail.spec_bytes(), tail.spec_bytes().len() as int));
        }
    }
    let (mid, _) = tail.split_at(hi - lo);
    assert(mid.spec_bytes() =~= t.subrange(lo as int, hi as int));
    mid.to_owned()
}

pub fn bytes_eq(a: &[u8], b: &[u8]) -> (r: bool)
    ensures
        r == (a@ == b@),
{
    if a.len() != b.len() {
        return false;
    }
    let mut k: usize = 0;
    while k < a.len()
        invariant
            k <= a@.len(),
            a@.len() == b@.len(),
            forall|m: int| 0 <= m < k ==> a@[m] == b@[m],
        decreases a@.len() - k,
    {
        if a[k] != b[k] {
            return false;
        }
        k = k + 1;
    }
    assert(a@ =~= b@);
    true
}

/// The UTF-8 bytes of `s`.
pub fn string_bytes(s: &String) -> (r: &[u8])
    ensures
        r@ == encode_utf8(s@),
{
    s.as_str().as_bytes()
}

/// A single ASCII byte is valid UTF-8.
pub proof fn lemma_ascii_valid(x: u8)
    requires
        x < 128u8,
    ensures
        valid_utf8(seq![x]),
{
    let s = seq![x];
    assert((x & 0x7fu8) <= 0x7fu8) by (bit_vector);
    assert(valid_first_scalar(s));
    assert(pop_first_scalar(s) =~= Seq::<u8>::empty());
    assert(valid_utf8(pop_first_scalar(s)));
}

/// In valid UTF-8, the position after an ASCII byte is a character boundary.
pub proof fn lemma_after_ascii(s: Seq<u8>, i: int)
    requires
        valid_utf8(s),
        0 < i <= s.len(),
        s[i - 1] < 128u8,
    ensures
        is_char_boundary(s, i),
{
    if i == s.len() {
        is_char_boundary_start_end_of_seq(s);
    } else {
        is_char_boundary_iff_not_is_continuation_byte(s, i - 1);
        valid_utf8_split(s, i - 1);
        let u = s.subrange(i - 1, s.len() as int);
        assert(u[0] == s[i - 1]);
        assert(pop_first_scalar(u) =~= s.subrange(i, s.len() as int));
        let v = s.subrange(i, s.len() as int);
        assert(valid_utf8(v));
        assert(valid_first_scalar(v));
        assert(v[0] == s[i]);
        is_char_boundary_iff_not_is_continuation_byte(s, i);
    }
}

/// A range of valid UTF-8 between two character boundaries is valid UTF-8.
pub proof fn lemma_range_valid(s: Seq<u8>, a: int, b: int)
    requires
        valid_utf8(s),
        0 <= a <= b <= s.len(),
        is_char_boundary(s, a),
        is_char_boundary(s, b),
    ensures
        valid_utf8(s.subrange(a, b)),
{
    valid_utf8_split(s, b);
    let p = s.subrange(0, b);
    if a < b {
        is_char_boundary_iff_not_is_continuation_byte(s, a);
        assert(p[a] == s[a]);
        is_char_boundary_iff_not_is_continuation_byte(p, a);
        valid_utf8_split(p, a);
        assert(p.subrange(a, b) =~= s.subrange(a, b));
    } else {
        assert(s.subrange(a, b) =~= Seq::<u8>::empty());
    }
}

/// In valid UTF-8, the position of an ASCII byte is a character boundary.
pub proof fn lemma_at_ascii(s: Seq<u8>, i: int)
    requires
        valid_utf8(s),
        0 <= i <= s.len(),
        i == s.len() || s[i] < 128u8,
    ensures
        is_char_boundary(s, i),
{
    if i == s.len() {
        is_char_boundary_start_end_of_seq(s);
    } else {
        is_char_boundary_iff_not_is_continuation_byte(s, i);
    }
}

} // verus!
