use vstd::prelude::*;
use vstd::utf8::*;
use vstd::string::StringSliceAdditionalSpecFns;
use crate::text::{is_space, skip_space, is_space_byte, space_end, lemma_ascii_valid, lemma_after_ascii, lemma_at_ascii, lemma_range_valid};

verus! {

/// A keycode that the keymap declares in its `enum custom_keycodes { ... };` block.
#[derive(Debug)]
pub struct CustomKeycode {
    pub name: String,
}

/// Whether `t` holds the bytes `w` from position `i` on.
pub open spec fn word_at(t: Seq<u8>, i: int, w: Seq<u8>) -> bool {
    0 <= i && i + w.len() <= t.len() && t.subrange(i, i + w.len()) == w
}

/// The bytes of `enum`.
pub open spec fn enum_word() -> Seq<u8> {
    seq![101u8, 110u8, 117u8, 109u8]
}

/// The bytes of `custom_keycodes`.
pub open spec fn custom_word() -> Seq<u8> {
    seq![99u8, 117u8, 115u8, 116u8, 111u8, 109u8, 95u8, 107u8, 101u8, 121u8, 99u8, 111u8, 100u8, 101u8, 115u8]
}

/// The first position at or after `j` that holds the byte `b`, or the end of `t`.
pub open spec fn find_byte(t: Seq<u8>, j: int, b: u8) -> int
    decreases t.len() - j,
{
    if j < 0 || j >= t.len() || t[j] == b {
        j
    } else {
        find_byte(t, j + 1, b)
    }
}

/// The body of an enumeration block `enum custom_keycodes { body };` that starts at `i`,
/// as a byte range: `enum`, whitespace, `custom_keycodes`, optional whitespace, `{`, a
/// non-empty body up to the first `}`, then `};`.
pub open spec fn block_at(t: Seq<u8>, i: int) -> Option<(int, int)> {
    let k = skip_space(t, i + 4);
    let m = skip_space(t, k + 15);
    let hi = find_byte(t, m + 1, 125u8);
    if word_at(t, i, enum_word()) && k > i + 4 && word_at(t, k, custom_word()) && m < t.len()
        && t[m] == 123u8 && hi > m + 1 && hi + 1 < t.len() && t[hi + 1] == 59u8 {
        Some((m + 1, hi))
    } else {
        None
    }
}

/// The body of the first enumeration block at or after `i`.
pub open spec fn first_block(t: Seq<u8>, i: int) -> Option<(int, int)>
    decreases t.len() - i,
{
    if i < 0 || i >= t.len() {
        None
    } else if block_at(t, i) is Some {
        block_at(t, i)
    } else {
        first_block(t, i + 1)
    }
}

/// The body with each line's `//` comment removed and the lines joined by a space
/// (a line ends at `\n`, or at `\r\n`).
pub open spec fn strip_comments(b: Seq<u8>, in_comment: bool) -> Seq<u8>
    decreases b.len(),
{
    if b.len() == 0 {
        Seq::empty()
    } else if b[0] == 10u8 {
        seq![32u8] + strip_comments(b.drop_first(), false)
    } else if in_comment {
        strip_comments(b.drop_first(), true)
    } else if b.len() > 1 && b[0] == 47u8 && b[1] == 47u8 {
        strip_comments(b.drop_first(), true)
    } else if b.len() > 1 && b[0] == 13u8 && b[1] == 10u8 {
        strip_comments(b.drop_first(), false)
    } else {
        seq![b[0]] + strip_comments(b.drop_first(), false)
    }
}

/// `hi` moved left past the whitespace that ends `c[lo..hi]`.
pub open spec fn trim_end(c: Seq<u8>, lo: int, hi: int) -> int
    decreases hi - lo,
{
    if hi > lo && is_space(c[hi - 1]) {
        trim_end(c, lo, hi - 1)
    } else {
        hi
    }
}

/// The name that the comma-separated piece `c[lo..hi]` declares: the piece up to its first
/// `=`, without surrounding whitespace.
pub open spec fn piece_name(c: Seq<u8>, lo: int, hi: int) -> Seq<u8> {
    let eq = find_byte(c, lo, 61u8);
    let stop = if eq < hi { eq } else { hi };
    let start = if skip_space(c, lo) < stop { skip_space(c, lo) } else { stop };
    c.subrange(start, trim_end(c, start, stop))
}

/// The names declared by the pieces of `c` from position `j` on, in order; empty names
/// are left out.
pub open spec fn names_from(c: Seq<u8>, j: int) -> Seq<Seq<u8>>
    decreases c.len() - j,
{
    if j < 0 || j > c.len() {
        Seq::empty()
    } else {
        let e = find_byte(c, j, 44u8);
        let name = piece_name(c, j, e);
        let here = if name.len() > 0 { seq![name] } else { Seq::empty() };
        if j <= e < c.len() {
            here + names_from(c, e + 1)
        } else {
            here
        }
    }
}

/// The names that the first custom-keycode block of `t` declares.
pub open spec fn custom_names(t: Seq<u8>) -> Seq<Seq<u8>> {
    match first_block(t, 0) {
        Some((lo, hi)) => names_from(strip_comments(t.subrange(lo, hi), false), 0),
        None => Seq::empty(),
    }
}

/// Relies on `String::from_utf8_lossy`: bytes that are valid UTF-8 come back unchanged.
#[verifier::external_body]
fn string_from_bytes(b: &[u8]) -> (r: String)
    ensures
        valid_utf8(b@) ==> encode_utf8(r@) == b@,
{
    String::from_utf8_lossy(b).into_owned()
}

fn find_byte_exec(t: &[u8], j: usize, b: u8) -> (r: usize)
    requires
        j <= t@.len(),
    ensures
        r as int == find_byte(t@, j as int, b),
        j <= r <= t@.len(),
        r < t@.len() ==> t@[r as int] == b,
{
    let mut k: usize = j;
    while k < t.len() && t[k] != b
        invariant
            j <= k <= t@.len(),
            find_byte(t@, j as int, b) == find_byte(t@, k as int, b),
        decreases t@.len() - k,
    {
        k = k + 1;
    }
    k
}

fn word_at_exec(t: &[u8], i: usize, w: &Vec<u8>) -> (r: bool)
    ensures
        r == word_at(t@, i as int, w@),
{
    if i > t.len() || w.len() > t.len() - i {
        return false;
    }
    let n = t.len();
    let mut k: usize = 0;
    while k < w.len()
        invariant
            n == t@.len(),
            k <= w@.len(),
            i + w@.len() <= t@.len(),
            forall|m: int| 0 <= m < k ==> t@[i + m] == w@[m],
        decreases w@.len() - k,
    {
        if t[i + k] != w[k] {
            assert(t@.subrange(i as int, i + w@.len())[k as int] != w@[k as int]);
            return false;
        }
        k = k + 1;
    }
    assert(t@.subrange(i as int, i + w@.len()) =~= w@);
    true
}

fn enum_word_exec() -> (r: Vec<u8>)
    ensures
        r@ == enum_word(),
{
    let r: Vec<u8> = vec![101u8, 110u8, 117u8, 109u8];
    assert(r@ =~= enum_word());
    r
}

fn custom_word_exec() -> (r: Vec<u8>)
    ensures
        r@ == custom_word(),
{
    let r: Vec<u8> = vec![99u8, 117u8, 115u8, 116u8, 111u8, 109u8, 95u8, 107u8, 101u8, 121u8, 99u8, 111u8, 100u8, 101u8, 115u8];
    assert(r@ =~= custom_word());
    r
}

fn block_at_exec(t: &[u8], i: usize, ew: &Vec<u8>, cw: &Vec<u8>) -> (r: Option<(usize, usize)>)
    requires
        i < t@.len(),
        ew@ == enum_word(),
        cw@ == custom_word(),
    ensures
        match block_at(t@, i as int) {
            Some((lo, hi)) => r == Some((lo as usize, hi as usize)) && i < lo <= hi < t@.len(),
            None => r.is_none(),
        },
{
    let n = t.len();
    if !word_at_exec(t, i, ew) {
        return None;
    }
    assert(i + 4 <= n);
    let k = space_end(t, i + 4);
    if k <= i + 4 || !word_at_exec(t, k, cw) {
        return None;
    }
    assert(k + 15 <= n);
    let m = space_end(t, k + 15);
    if m >= t.len() || t[m] != 123u8 {
        return None;
    }
    let hi = find_byte_exec(t, m + 1, 125u8);
    if hi <= m + 1 || hi >= n || hi + 1 >= n || t[hi + 1] != 59u8 {
        return None;
    }
    Some((m + 1, hi))
}

fn strip_comments_exec(t: &[u8], lo: usize, hi: usize) -> (r: Vec<u8>)
    requires
        lo <= hi <= t@.len(),
    ensures
        r@ == strip_comments(t@.subrange(lo as int, hi as int), false),
{
    let mut out: Vec<u8> = Vec::new();
    let mut in_comment = false;
    let mut i: usize = lo;
    while i < hi
        invariant
            lo <= i <= hi <= t@.len(),
            strip_comments(t@.subrange(lo as int, hi as int), false)
                == out@ + strip_comments(t@.subrange(i as int, hi as int), in_comment),
        decreases hi - i,
    {
        let ghost s = t@.subrange(i as int, hi as int);
        assert(s.drop_first() =~= t@.subrange(i + 1, hi as int));
        assert(s[0] == t@[i as int]);
        let b = t[i];
        if b == 10u8 {
            proof {
                assert(out@ + (seq![32u8] + strip_comments(s.drop_first(), false))
                    =~= out@.push(32u8) + strip_comments(s.drop_first(), false));
            }
            out.push(32u8);
            in_comment = false;
        } else if in_comment {
        } else if i + 1 < hi && b == 47u8 && t[i + 1] == 47u8 {
            assert(s[1] == t@[i + 1]);
            in_comment = true;
        } else if i + 1 < hi && b == 13u8 && t[i + 1] == 10u8 {
            assert(s[1] == t@[i + 1]);
        } else {
            proof {
                if s.len() > 1 {
                    assert(s[1] == t@[i + 1]);
                }
                assert(out@ + (seq![b] + strip_comments(s.drop_first(), false))
                    =~= out@.push(b) + strip_comments(s.drop_first(), false));
            }
            out.push(b);
        }
        i = i + 1;
    }
    assert(strip_comments(t@.subrange(i as int, hi as int), in_comment) =~= Seq::<u8>::empty());
    assert(out@ + Seq::<u8>::empty() =~= out@);
    out
}

fn trim_end_exec(c: &[u8], lo: usize, hi: usize) -> (r: usize)
    requires
        lo <= hi <= c@.len(),
    ensures
        r as int == trim_end(c@, lo as int, hi as int),
        lo <= r <= hi,
{
    let mut k: usize = hi;
    while k > lo && is_space_byte(c[k - 1])
        invariant
            lo <= k <= hi <= c@.len(),
            trim_end(c@, lo as int, hi as int) == trim_end(c@, lo as int, k as int),
        decreases k,
    {
        k = k - 1;
    }
    k
}

/// Lists the keycodes that the first `enum custom_keycodes { ... };` block of `content`
/// declares, in declaration order: comments are dropped, each comma-separated piece gives
/// the identifier left of its `=` (if any), and empty pieces are skipped.
pub fn parse_custom_keycodes(content: &str) -> (r: Vec<CustomKeycode>)
    ensures
        r@.len() == custom_names(content.spec_bytes()).len(),
        forall|k: int| 0 <= k < r@.len()
            ==> encode_utf8((#[trigger] r@[k]).name@) == custom_names(content.spec_bytes())[k],
{
    let t = content.as_bytes();
    let ew = enum_word_exec();
    let cw = custom_word_exec();
    let mut out: Vec<CustomKeycode> = Vec::new();
    let mut i: usize = 0;
    let mut found: Option<(usize, usize)> = None;
    while i < t.len() && found.is_none()
        invariant
            i <= t@.len(),
            t@ == content.spec_bytes(),
            ew@ == enum_word(),
            cw@ == custom_word(),
            match found {
                Some((lo, hi)) => first_block(t@, 0) == Some((lo as int, hi as int)) && lo <= hi < t@.len(),
                None => first_block(t@, 0) == first_block(t@, i as int),
            },
        decreases t@.len() - i + (if found is None { 1int } else { 0 }),
    {
        match block_at_exec(t, i, &ew, &cw) {
            Some(b) => {
                found = Some(b);
            },
            None => {
                i = i + 1;
            },
        }
    }
    let (lo, hi) = match found {
        Some(b) => b,
        None => {
            return out;
        },
    };
    let c = strip_comments_exec(t, lo, hi);
    proof {
        lemma_first_block(t@, 0);
        encode_utf8_valid_utf8(content@);
        lemma_after_ascii(t@, lo as int);
        lemma_at_ascii(t@, hi as int);
        lemma_range_valid(t@, lo as int, hi as int);
        lemma_strip_valid(t@.subrange(lo as int, hi as int), false);
    }
    let ghost names = custom_names(t@);
    let ghost mut done: Seq<Seq<u8>> = Seq::empty();
    let mut j: usize = 0;
    loop
        invariant
            j <= c@.len(),
            t@ == content.spec_bytes(),
            names == custom_names(t@),
            names == done + names_from(c@, j as int),
            out@.len() == done.len(),
            valid_utf8(c@),
            j == 0 || c@[j - 1] == 44u8,
            forall|k: int| 0 <= k < out@.len() ==> encode_utf8((#[trigger] out@[k]).name@) == done[k],
        decreases c@.len() - j,
    {
        let e = find_byte_exec(&c, j, 44u8);
        let eq = find_byte_exec(&c, j, 61u8);
        let stop = if eq < e { eq } else { e };
        let sp = space_end(&c, j);
        let start = if sp < stop { sp } else { stop };
        let end = trim_end_exec(&c, start, stop);
        let ghost name = piece_name(c@, j as int, e as int);
        assert(name == c@.subrange(start as int, end as int));
        if end > start {
            proof {
                lemma_piece_valid(c@, j as int, e as int);
            }
            let bytes = vstd::slice::slice_subrange(c.as_slice(), start, end);
            let kc = CustomKeycode { name: string_from_bytes(bytes) };
            proof {
                done = done.push(name);
            }
            out.push(kc);
        }
        if e < c.len() {
            proof {
                if name.len() > 0 {
                    assert(names_from(c@, j as int) == seq![name] + names_from(c@, e + 1));
                } else {
                    assert(names_from(c@, j as int) == names_from(c@, e + 1));
                }
            }
            j = e + 1;
        } else {
            return out;
        }
    }
}

proof fn lemma_find_byte(t: Seq<u8>, j: int, b: u8)
    requires
        0 <= j <= t.len(),
    ensures
        j <= find_byte(t, j, b) <= t.len(),
        find_byte(t, j, b) < t.len() ==> t[find_byte(t, j, b)] == b,
    decreases t.len() - j,
{
    if j < t.len() && t[j] != b {
        lemma_find_byte(t, j + 1, b);
    }
}

proof fn lemma_skip_space(t: Seq<u8>, j: int)
    requires
        0 <= j <= t.len(),
    ensures
        j <= skip_space(t, j) <= t.len(),
        forall|k: int| j <= k < skip_space(t, j) ==> is_space(#[trigger] t[k]),
    decreases t.len() - j,
{
    if j < t.len() && is_space(t[j]) {
        lemma_skip_space(t, j + 1);
    }
}

proof fn lemma_trim_end(c: Seq<u8>, lo: int, hi: int)
    requires
        0 <= lo <= hi <= c.len(),
    ensures
        lo <= trim_end(c, lo, hi) <= hi,
        trim_end(c, lo, hi) < hi ==> is_space(c[trim_end(c, lo, hi)]),
    decreases hi - lo,
{
    if hi > lo && is_space(c[hi - 1]) {
        lemma_trim_end(c, lo, hi - 1);
    }
}

proof fn lemma_first_block(t: Seq<u8>, i: int)
    requires
        0 <= i,
    ensures
        first_block(t, i) matches Some((lo, hi)) ==> 0 < lo <= hi < t.len() && t[lo - 1] == 123u8
            && t[hi] == 125u8,
    decreases t.len() - i,
{
    if 0 <= i < t.len() {
        if block_at(t, i) is Some {
            assert(enum_word().len() == 4);
            assert(custom_word().len() == 15);
            lemma_skip_space(t, i + 4);
            let k = skip_space(t, i + 4);
            lemma_skip_space(t, k + 15);
            let m = skip_space(t, k + 15);
            lemma_find_byte(t, m + 1, 125u8);
        } else {
            lemma_first_block(t, i + 1);
        }
    }
}

/// The bytes of `b` from `n` on, where the first `n` are not ASCII, strip as the part of a
/// character that they are: kept outside a comment, dropped inside one.
proof fn lemma_strip_prefix(b: Seq<u8>, n: int, ic: bool)
    requires
        0 <= n <= b.len(),
        forall|k: int| 0 <= k < n ==> b[k] >= 128u8,
    ensures
        strip_comments(b, ic) == (if ic { Seq::empty() } else { b.subrange(0, n) })
            + strip_comments(b.subrange(n, b.len() as int), ic),
    decreases n,
{
    if n == 0 {
        assert(b.subrange(0, b.len() as int) =~= b);
        assert(b.subrange(0, 0) =~= Seq::<u8>::empty());
        assert(Seq::<u8>::empty() + strip_comments(b, ic) =~= strip_comments(b, ic));
    } else {
        let rest = b.drop_first();
        assert forall|k: int| 0 <= k < n - 1 implies rest[k] >= 128u8 by {
            assert(rest[k] == b[k + 1]);
        }
        lemma_strip_prefix(rest, n - 1, ic);
        assert(rest.subrange(n - 1, rest.len() as int) =~= b.subrange(n, b.len() as int));
        if ic {
            assert(Seq::<u8>::empty() + strip_comments(b.subrange(n, b.len() as int), ic)
                =~= strip_comments(b.subrange(n, b.len() as int), ic));
        } else {
            assert(seq![b[0]] + (rest.subrange(0, n - 1) + strip_comments(b.subrange(n, b.len() as int), ic))
                =~= b.subrange(0, n) + strip_comments(b.subrange(n, b.len() as int), ic));
        }
    }
}

/// Stripping comments from valid UTF-8 leaves valid UTF-8.
proof fn lemma_strip_valid(b: Seq<u8>, ic: bool)
    requires
        valid_utf8(b),
    ensures
        valid_utf8(strip_comments(b, ic)),
    decreases b.len(),
{
    if b.len() == 0 {
        assert(strip_comments(b, ic) =~= Seq::<u8>::empty());
        assert(valid_utf8(Seq::<u8>::empty()));
    } else {
        assert(valid_first_scalar(b));
        let rest = pop_first_scalar(b);
        assert(valid_utf8(rest));
        if b[0] < 128u8 {
            assert(rest =~= b.drop_first());
            lemma_strip_valid(rest, false);
            lemma_strip_valid(rest, true);
            if b[0] == 10u8 {
                lemma_ascii_valid(32u8);
                valid_utf8_concat(seq![32u8], strip_comments(rest, false));
            } else if ic {
            } else if b.len() > 1 && b[0] == 47u8 && b[1] == 47u8 {
            } else if b.len() > 1 && b[0] == 13u8 && b[1] == 10u8 {
            } else {
                lemma_ascii_valid(b[0]);
                valid_utf8_concat(seq![b[0]], strip_comments(rest, false));
            }
        } else {
            let n = length_of_first_scalar(b);
            assert(2 <= n <= 4 && n <= b.len());
            assert forall|k: int| 0 <= k < n implies b[k] >= 128u8 by {}
            lemma_strip_prefix(b, n, ic);
            assert(rest =~= b.subrange(n, b.len() as int));
            lemma_strip_valid(rest, ic);
            if !ic {
                is_char_boundary_start_end_of_seq(b);
                if n < b.len() {
                    assert(valid_first_scalar(rest));
                    assert(rest[0] == b[n]);
                    is_char_boundary_iff_not_is_continuation_byte(b, n);
                }
                lemma_range_valid(b, 0, n);
                valid_utf8_concat(b.subrange(0, n), strip_comments(rest, ic));
            }
        }
    }
}

/// The name that a piece declares is valid UTF-8 when the stripped body is.
proof fn lemma_piece_valid(c: Seq<u8>, j: int, e: int)
    requires
        valid_utf8(c),
        0 <= j <= c.len(),
        j == 0 || c[j - 1] == 44u8,
        e == find_byte(c, j, 44u8),
    ensures
        valid_utf8(piece_name(c, j, e)),
{
    lemma_find_byte(c, j, 44u8);
    lemma_find_byte(c, j, 61u8);
    lemma_skip_space(c, j);
    let eq = find_byte(c, j, 61u8);
    let stop = if eq < e { eq } else { e };
    let sk = skip_space(c, j);
    let start = if sk < stop { sk } else { stop };
    lemma_trim_end(c, start, stop);
    let end = trim_end(c, start, stop);
    if start < end {
        if start == j {
            if j == 0 {
                is_char_boundary_start_end_of_seq(c);
            } else {
                lemma_after_ascii(c, j);
            }
        } else {
            assert(is_space(c[start - 1]));
            lemma_after_ascii(c, start);
        }
        if end < stop {
            lemma_at_ascii(c, end);
        } else {
            lemma_at_ascii(c, stop);
        }
        lemma_range_valid(c, start, end);
    }
}

/// `c[a..b]` declares the identifier `c[s..e]`: whitespace, the identifier, whitespace, and
/// then the end of the piece or an `=` followed by an assigned value.
pub open spec fn declares(c: Seq<u8>, a: int, b: int, s: int, e: int) -> bool {
    &&& 0 <= a <= s < e <= b <= c.len()
    &&& forall|m: int| a <= m < s ==> is_space(#[trigger] c[m])
    &&& forall|m: int| s <= m < e ==> crate::text::is_ident_byte(#[trigger] c[m])
    &&& skip_space(c, e) == b || (skip_space(c, e) < b && c[skip_space(c, e)] == 61u8)
    &&& forall|m: int| a <= m < b ==> #[trigger] c[m] != 44u8
}

/// The start of the `i`-th comma-separated piece, given the positions of the commas.
pub open spec fn piece_start(commas: Seq<int>, i: int) -> int {
    if i == 0 { 0 } else { commas[i - 1] + 1 }
}

/// The end of the `i`-th comma-separated piece of a text of `len` bytes.
pub open spec fn piece_end(commas: Seq<int>, len: int, i: int) -> int {
    if i == commas.len() { len } else { commas[i] }
}

proof fn lemma_find_byte_at(t: Seq<u8>, j: int, b: u8, p: int)
    requires
        0 <= j <= p <= t.len(),
        forall|m: int| j <= m < p ==> t[m] != b,
        p == t.len() || t[p] == b,
    ensures
        find_byte(t, j, b) == p,
    decreases p - j,
{
    if j < p {
        lemma_find_byte_at(t, j + 1, b, p);
    }
}

proof fn lemma_skip_space_at(t: Seq<u8>, j: int, p: int)
    requires
        0 <= j <= p < t.len(),
        forall|m: int| j <= m < p ==> is_space(t[m]),
        !is_space(t[p]),
    ensures
        skip_space(t, j) == p,
    decreases p - j,
{
    if j < p {
        lemma_skip_space_at(t, j + 1, p);
    }
}

proof fn lemma_trim_end_at(c: Seq<u8>, lo: int, e: int, hi: int)
    requires
        0 <= lo < e <= hi <= c.len(),
        !is_space(c[e - 1]),
        forall|m: int| e <= m < hi ==> is_space(c[m]),
    ensures
        trim_end(c, lo, hi) == e,
    decreases hi - e,
{
    if hi > e {
        lemma_trim_end_at(c, lo, e, hi - 1);
    }
}

proof fn lemma_declared_name(c: Seq<u8>, a: int, b: int, s: int, e: int)
    requires
        declares(c, a, b, s, e),
        b == c.len() || c[b] == 44u8,
    ensures
        find_byte(c, a, 44u8) == b,
        piece_name(c, a, b) == c.subrange(s, e),
{
    lemma_find_byte_at(c, a, 44u8, b);
    lemma_skip_space(c, e);
    let k = skip_space(c, e);
    assert(!is_space(c[s]));
    lemma_skip_space_at(c, a, s);
    assert forall|m: int| a <= m < k implies c[m] != 61u8 by {
        if m >= e {
            assert(is_space(c[m]));
        } else if m < s {
            assert(is_space(c[m]));
        } else {
            assert(crate::text::is_ident_byte(c[m]));
        }
    }
    if k < b {
        lemma_find_byte_at(c, a, 61u8, k);
    } else {
        lemma_find_byte(c, a, 61u8);
        if find_byte(c, a, 61u8) < b {
            assert(c[find_byte(c, a, 61u8)] == 61u8);
        }
    }
    let stop = k;
    lemma_trim_end_at(c, s, e, stop);
}

/// A declaration list: pieces separated by the commas at `commas` (all the commas of `c`),
/// each declaring the identifier that `ids` gives, with or without an assigned value. Its
/// names are those identifiers, in order; assigned values are dropped.
pub proof fn lemma_declarations_give_names(c: Seq<u8>, commas: Seq<int>, ids: Seq<(int, int)>)
    requires
        ids.len() == commas.len() + 1,
        forall|i: int| 0 <= i < commas.len() ==> 0 <= #[trigger] commas[i] < c.len() && c[commas[i]] == 44u8,
        forall|i: int| 0 <= i <= commas.len() ==> declares(c, piece_start(commas, i),
            piece_end(commas, c.len() as int, i), (#[trigger] ids[i]).0, ids[i].1),
    ensures
        names_from(c, 0) == ids.map_values(|p: (int, int)| c.subrange(p.0, p.1)),
{
    lemma_names_suffix(c, commas, ids, 0);
    assert(ids.subrange(0, ids.len() as int) =~= ids);
}

proof fn lemma_names_suffix(c: Seq<u8>, commas: Seq<int>, ids: Seq<(int, int)>, i: int)
    requires
        0 <= i <= commas.len(),
        ids.len() == commas.len() + 1,
        forall|i: int| 0 <= i < commas.len() ==> 0 <= #[trigger] commas[i] < c.len() && c[commas[i]] == 44u8,
        forall|i: int| 0 <= i <= commas.len() ==> declares(c, piece_start(commas, i),
            piece_end(commas, c.len() as int, i), (#[trigger] ids[i]).0, ids[i].1),
    ensures
        names_from(c, piece_start(commas, i))
            == ids.subrange(i, ids.len() as int).map_values(|p: (int, int)| c.subrange(p.0, p.1)),
    decreases commas.len() - i,
{
    let a = piece_start(commas, i);
    let b = piece_end(commas, c.len() as int, i);
    let p = ids[i];
    assert(declares(c, a, b, p.0, p.1));
    if i < commas.len() {
        assert(c[commas[i]] == 44u8);
    }
    lemma_declared_name(c, a, b, p.0, p.1);
    let name = c.subrange(p.0, p.1);
    assert(name.len() > 0);
    let f = |q: (int, int)| c.subrange(q.0, q.1);
    if i < commas.len() {
        lemma_names_suffix(c, commas, ids, i + 1);
        assert(piece_start(commas, i + 1) == b + 1);
        assert(names_from(c, a) == seq![name] + names_from(c, b + 1));
        assert(ids.subrange(i, ids.len() as int).map_values(f)
            =~= seq![name] + ids.subrange(i + 1, ids.len() as int).map_values(f));
    } else {
        assert(names_from(c, a) == seq![name]);
        assert(ids.subrange(i, ids.len() as int).map_values(f) =~= seq![name]);
    }
}

} // verus!
