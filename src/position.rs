use vstd::prelude::*;
use vstd::string::StringSliceAdditionalSpecFns;

verus! {

/// Whether a byte continues a multi-byte UTF-8 sequence (and so starts no character).
pub open spec fn is_cont(b: u8) -> bool {
    128u8 <= b && b < 192u8
}

/// The UTF-16 code units that byte `k` of `t` adds to a column: one for each byte that
/// starts a character, and one more for the byte after the start of a four-byte
/// character, whose UTF-16 form is a surrogate pair.
pub open spec fn unit_width(t: Seq<u8>, k: int) -> nat {
    if !is_cont(t[k]) {
        1
    } else if k > 0 && t[k - 1] >= 240u8 {
        1
    } else {
        0
    }
}

/// Whether `off` falls on a character boundary of `t`.
pub open spec fn is_boundary(t: Seq<u8>, off: int) -> bool {
    0 <= off <= t.len() && (off == t.len() || !is_cont(t[off]))
}

/// The zero-based line of byte offset `off`: the newlines before it.
pub open spec fn line_of(t: Seq<u8>, off: int) -> nat
    decreases off,
{
    if off <= 0 {
        0
    } else if t[off - 1] == 10u8 {
        line_of(t, off - 1) + 1
    } else {
        line_of(t, off - 1)
    }
}

/// The UTF-16 column of byte offset `off`: the code units between the start of its line
/// and `off`.
pub open spec fn col_of(t: Seq<u8>, off: int) -> nat
    decreases off,
{
    if off <= 0 {
        0
    } else if t[off - 1] == 10u8 {
        0
    } else {
        col_of(t, off - 1) + unit_width(t, off - 1)
    }
}

/// The offset at which line `n` starts, searching from `p`, the start of a line.
pub open spec fn find_line(t: Seq<u8>, p: int, n: nat) -> Option<int>
    decreases n, t.len() - p,
{
    if n == 0 {
        Some(p)
    } else if p < 0 || p >= t.len() {
        None
    } else if t[p] == 10u8 {
        find_line(t, p + 1, (n - 1) as nat)
    } else {
        find_line(t, p + 1, n)
    }
}

/// Walks a line from `p`, where `acc` code units lie behind, to the first character
/// boundary at which `col` units lie behind; stops at the end of the line.
pub open spec fn walk_to_col(t: Seq<u8>, p: int, acc: nat, col: nat) -> int
    decreases t.len() - p,
{
    if p < 0 || p >= t.len() || t[p] == 10u8 || (acc >= col && !is_cont(t[p])) {
        p
    } else {
        walk_to_col(t, p + 1, acc + unit_width(t, p), col)
    }
}

/// The byte offset of column `col` of line `line`, or `None` where the text has no such line.
pub open spec fn offset_at(t: Seq<u8>, line: nat, col: nat) -> Option<int> {
    match find_line(t, 0, line) {
        Some(s) => Some(walk_to_col(t, s, 0, col)),
        None => None,
    }
}

fn unit_width_exec(t: &[u8], k: usize) -> (r: usize)
    requires
        k < t@.len(),
    ensures
        r as nat == unit_width(t@, k as int),
        r <= 1,
{
    let b = t[k];
    if !(128u8 <= b && b < 192u8) {
        1
    } else if k > 0 && t[k - 1] >= 240u8 {
        1
    } else {
        0
    }
}

/// The line and UTF-16 column of a byte offset in `text`.
pub fn position_of(text: &str, off: usize) -> (r: (usize, usize))
    requires
        off <= text.spec_bytes().len(),
    ensures
        r.0 as nat == line_of(text.spec_bytes(), off as int),
        r.1 as nat == col_of(text.spec_bytes(), off as int),
{
    let t = text.as_bytes();
    let mut line: usize = 0;
    let mut col: usize = 0;
    let mut k: usize = 0;
    while k < off
        invariant
            k <= off <= t@.len(),
            line <= k,
            col <= k,
            line as nat == line_of(t@, k as int),
            col as nat == col_of(t@, k as int),
        decreases off - k,
    {
        if t[k] == 10u8 {
            line = line + 1;
            col = 0;
        } else {
            col = col + unit_width_exec(t, k);
        }
        k = k + 1;
    }
    (line, col)
}

/// The byte offset of a line and UTF-16 column of `text`: the first character boundary of
/// that line at which the column is reached, or the end of the line. `None` where the text
/// has fewer lines.
pub fn offset_of(text: &str, line: usize, col: usize) -> (r: Option<usize>)
    ensures
        match offset_at(text.spec_bytes(), line as nat, col as nat) {
            Some(o) => r is Some && r->Some_0 as int == o,
            None => r.is_none(),
        },
        r is Some ==> r->Some_0 <= text.spec_bytes().len(),
{
    let t = text.as_bytes();
    let mut p: usize = 0;
    let mut n: usize = line;
    while n > 0
        invariant
            p <= t@.len(),
            t@ == text.spec_bytes(),
            find_line(t@, 0, line as nat) == find_line(t@, p as int, n as nat),
        decreases n, t@.len() - p,
    {
        if p >= t.len() {
            return None;
        }
        if t[p] == 10u8 {
            n = n - 1;
        }
        p = p + 1;
    }
    let mut acc: usize = 0;
    while p < t.len() && t[p] != 10u8 && !(acc >= col && !(128u8 <= t[p] && t[p] < 192u8))
        invariant
            p <= t@.len(),
            t@ == text.spec_bytes(),
            acc <= p,
            find_line(t@, 0, line as nat) is Some,
            walk_to_col(t@, find_line(t@, 0, line as nat)->Some_0, 0, col as nat)
                == walk_to_col(t@, p as int, acc as nat, col as nat),
        decreases t@.len() - p,
    {
        acc = acc + unit_width_exec(t, p);
        p = p + 1;
    }
    Some(p)
}

/// The start of the line that holds offset `off`.
pub open spec fn line_start(t: Seq<u8>, off: int) -> int
    decreases off,
{
    if off <= 0 {
        0
    } else if t[off - 1] == 10u8 {
        off
    } else {
        line_start(t, off - 1)
    }
}

/// The newlines in `t[p..q]`.
pub open spec fn newlines(t: Seq<u8>, p: int, q: int) -> nat
    decreases q - p,
{
    if q <= p {
        0
    } else if t[q - 1] == 10u8 {
        newlines(t, p, q - 1) + 1
    } else {
        newlines(t, p, q - 1)
    }
}

proof fn lemma_line_of_newlines(t: Seq<u8>, off: int)
    requires
        0 <= off <= t.len(),
    ensures
        line_of(t, off) == newlines(t, 0, off),
    decreases off,
{
    if off > 0 {
        lemma_line_of_newlines(t, off - 1);
    }
}

proof fn lemma_newlines_front(t: Seq<u8>, p: int, q: int)
    requires
        0 <= p < q <= t.len(),
    ensures
        newlines(t, p, q) == newlines(t, p + 1, q) + (if t[p] == 10u8 { 1nat } else { 0nat }),
    decreases q - p,
{
    if q > p + 1 {
        lemma_newlines_front(t, p, q - 1);
    } else {
        assert(newlines(t, p, p) == 0);
        assert(newlines(t, p + 1, p + 1) == 0);
    }
}

proof fn lemma_line_start(t: Seq<u8>, off: int)
    requires
        0 <= off <= t.len(),
    ensures
        0 <= line_start(t, off) <= off,
        line_start(t, off) == 0 || t[line_start(t, off) - 1] == 10u8,
        forall|k: int| line_start(t, off) <= k < off ==> t[k] != 10u8,
        col_of(t, line_start(t, off)) == 0,
    decreases off,
{
    if off > 0 && t[off - 1] != 10u8 {
        lemma_line_start(t, off - 1);
    }
}

proof fn lemma_no_newline_start(t: Seq<u8>, a: int, off: int)
    requires
        0 <= a <= off <= t.len(),
        a == 0 || t[a - 1] == 10u8,
        forall|k: int| a <= k < off ==> t[k] != 10u8,
    ensures
        line_start(t, off) == a,
        newlines(t, a, off) == 0,
    decreases off,
{
    if off > a {
        lemma_no_newline_start(t, a, off - 1);
    }
}

proof fn lemma_find_line(t: Seq<u8>, p: int, off: int)
    requires
        0 <= p <= off <= t.len(),
        newlines(t, p, off) == 0 ==> line_start(t, off) == p,
    ensures
        find_line(t, p, newlines(t, p, off)) == Some(line_start(t, off)),
    decreases off - p,
{
    let n = newlines(t, p, off);
    if n > 0 {
        if p == off {
            assert(false);
        }
        lemma_newlines_front(t, p, off);
        if t[p] == 10u8 {
            if newlines(t, p + 1, off) == 0 {
                assert forall|k: int| p + 1 <= k < off implies t[k] != 10u8 by {
                    if t[k] == 10u8 {
                        lemma_newline_counted(t, p + 1, k, off);
                    }
                }
                lemma_no_newline_start(t, p + 1, off);
            }
        }
        lemma_find_line(t, p + 1, off);
    }
}

proof fn lemma_newline_counted(t: Seq<u8>, p: int, k: int, q: int)
    requires
        0 <= p <= k < q <= t.len(),
        t[k] == 10u8,
    ensures
        newlines(t, p, q) > 0,
    decreases q - p,
{
    if q > k + 1 {
        lemma_newline_counted(t, p, k, q - 1);
    }
}

proof fn lemma_col_mono(t: Seq<u8>, p: int, q: int)
    requires
        0 <= p <= q <= t.len(),
        forall|k: int| p <= k < q ==> t[k] != 10u8,
    ensures
        col_of(t, p) <= col_of(t, q),
    decreases q - p,
{
    if q > p {
        lemma_col_mono(t, p, q - 1);
    }
}

/// The first character boundary at or after `off`.
pub open spec fn next_boundary(t: Seq<u8>, off: int) -> int
    decreases t.len() - off,
{
    if off < 0 || off >= t.len() || !is_cont(t[off]) {
        off
    } else {
        next_boundary(t, off + 1)
    }
}

proof fn lemma_next_boundary(t: Seq<u8>, off: int, r: int)
    requires
        0 <= off <= r <= t.len(),
        forall|k: int| off <= k < r ==> is_cont(t[k]),
        r == t.len() || !is_cont(t[r]),
    ensures
        next_boundary(t, off) == r,
    decreases r - off,
{
    if off < r {
        lemma_next_boundary(t, off + 1, r);
    }
}

proof fn lemma_walk_tail(t: Seq<u8>, off: int, r: int, c: nat)
    requires
        0 <= off <= r <= t.len(),
        forall|k: int| off <= k < r ==> is_cont(t[k]),
        c <= col_of(t, r),
    ensures
        walk_to_col(t, r, col_of(t, r), c) == next_boundary(t, off),
    decreases t.len() - r,
{
    if r < t.len() && is_cont(t[r]) {
        assert(t[r] != 10u8);
        assert(col_of(t, r + 1) == col_of(t, r) + unit_width(t, r));
        lemma_walk_tail(t, off, r + 1, c);
    } else {
        lemma_next_boundary(t, off, r);
    }
}

proof fn lemma_walk(t: Seq<u8>, p: int, off: int)
    requires
        0 <= p <= off <= t.len(),
        forall|k: int| p <= k < off ==> t[k] != 10u8,
    ensures
        walk_to_col(t, p, col_of(t, p), col_of(t, off)) == next_boundary(t, off),
    decreases off - p,
{
    if p < off {
        assert(t[p] != 10u8);
        lemma_col_mono(t, p + 1, off);
        assert(col_of(t, p + 1) == col_of(t, p) + unit_width(t, p));
        lemma_walk(t, p + 1, off);
    } else {
        lemma_walk_tail(t, off, off, col_of(t, off));
    }
}

/// Mapping a byte offset to its line and UTF-16 column, and that position back to an offset,
/// gives the offset again where it falls on a character boundary, and otherwise the nearest
/// boundary after it.
pub proof fn lemma_position_round_trip(t: Seq<u8>, off: int)
    requires
        0 <= off <= t.len(),
    ensures
        offset_at(t, line_of(t, off), col_of(t, off)) == Some(next_boundary(t, off)),
        is_boundary(t, off) ==> next_boundary(t, off) == off,
{
    lemma_line_start(t, off);
    let s = line_start(t, off);
    lemma_line_of_newlines(t, off);
    if newlines(t, 0, off) == 0 {
        assert forall|k: int| 0 <= k < off implies t[k] != 10u8 by {
            if t[k] == 10u8 {
                lemma_newline_counted(t, 0, k, off);
            }
        }
        lemma_no_newline_start(t, 0, off);
    }
    lemma_find_line(t, 0, off);
    lemma_walk(t, s, off);
}

} // verus!
