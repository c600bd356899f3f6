use vstd::prelude::*;
use vstd::utf8::*;
use vstd::string::StringSliceAdditionalSpecFns;
use crate::text::{
    is_space, is_ident_byte, skip_space, skip_ident, is_space_byte, space_end, ident_end,
    ascii_edge, slice_str,
};

verus! {

/// One layer definition `[name] = MACRO(...)` found in a keymap.
#[derive(Debug)]
pub struct Layer {
    pub name: String,
    pub macro_name: String,
    pub key_count: usize,
    /// Byte range of the whole definition, from `[` to just past the closing delimiter.
    pub span: std::ops::Range<usize>,
}

/// What the scanner reports for one layer, in terms of the document's bytes.
pub struct LayerSpec {
    pub name: Seq<u8>,
    pub macro_name: Seq<u8>,
    pub key_count: nat,
    pub start: int,
    pub end: int,
}

impl Layer {
    pub open spec fn matches(&self, l: LayerSpec) -> bool {
        &&& encode_utf8(self.name@) == l.name
        &&& encode_utf8(self.macro_name@) == l.macro_name
        &&& self.key_count as nat == l.key_count
        &&& self.span.start as int == l.start
        &&& self.span.end as int == l.end
    }
}

pub open spec fn layers_match(v: Seq<Layer>, s: Seq<LayerSpec>) -> bool {
    &&& v.len() == s.len()
    &&& forall|k: int| 0 <= k < v.len() ==> (#[trigger] v[k]).matches(s[k])
}

pub open spec fn is_opener(b: u8) -> bool {
    b == 40u8 || b == 91u8 || b == 123u8
}

pub open spec fn is_closer(b: u8) -> bool {
    b == 41u8 || b == 93u8 || b == 125u8
}

pub open spec fn is_comma(b: u8) -> bool {
    b == 44u8
}

/// Counts the top-level arguments of a macro's argument list `s`, which starts just after
/// its opening parenthesis, given the nesting `depth`, the arguments `count`ed so far and
/// whether the current argument has `content` yet.
/// Returns the number of arguments and the number of bytes consumed: up to and including
/// the top-level closing delimiter, or all of `s` when there is none.
pub open spec fn key_scan(s: Seq<u8>, depth: nat, count: nat, content: bool) -> (nat, nat)
    decreases s.len(),
{
    if s.len() == 0 {
        (count, 0)
    } else if is_closer(s[0]) && depth == 0 {
        (if content { count + 1 } else { count }, 1)
    } else {
        let r = if is_opener(s[0]) {
            key_scan(s.drop_first(), depth + 1, count, true)
        } else if is_closer(s[0]) {
            key_scan(s.drop_first(), (depth - 1) as nat, count, content)
        } else if is_comma(s[0]) && depth == 0 {
            key_scan(s.drop_first(), depth, if content { count + 1 } else { count }, false)
        } else if is_comma(s[0]) || is_space(s[0]) {
            key_scan(s.drop_first(), depth, count, content)
        } else {
            key_scan(s.drop_first(), depth, count, true)
        };
        (r.0, r.1 + 1)
    }
}

/// Counts the top-level arguments of the argument list that starts at `start`.
fn count_keys_from(t: &[u8], start: usize) -> (r: (usize, usize))
    requires
        start <= t@.len(),
    ensures
        (r.0 as nat, r.1 as nat) == key_scan(t@.subrange(start as int, t@.len() as int), 0, 0, false),
        r.1 <= t@.len() - start,
{
    let ghost full = t@.subrange(start as int, t@.len() as int);
    let mut depth: usize = 0;
    let mut count: usize = 0;
    let mut content = false;
    let mut i: usize = start;
    while i < t.len()
        invariant
            start <= i <= t@.len(),
            depth <= i - start,
            count <= i - start,
            full == t@.subrange(start as int, t@.len() as int),
            key_scan(full, 0, 0, false) == ({
                let r = key_scan(t@.subrange(i as int, t@.len() as int), depth as nat, count as nat, content);
                (r.0, (r.1 + (i - start)) as nat)
            }),
        decreases t@.len() - i,
    {
        let b = t[i];
        let ghost s = t@.subrange(i as int, t@.len() as int);
        assert(s.drop_first() =~= t@.subrange(i + 1, t@.len() as int));
        assert(s[0] == b);
        if (b == 41u8 || b == 93u8 || b == 125u8) && depth == 0 {
            let n = if content { count + 1 } else { count };
            return (n, i + 1 - start);
        }
        if b == 40u8 || b == 91u8 || b == 123u8 {
            depth = depth + 1;
            content = true;
        } else if b == 41u8 || b == 93u8 || b == 125u8 {
            depth = depth - 1;
        } else if b == 44u8 && depth == 0 {
            if content {
                count = count + 1;
            }
            content = false;
        } else if b == 44u8 || is_space_byte(b) {
        } else {
            content = true;
        }
        i = i + 1;
    }
    assert(t@.subrange(i as int, t@.len() as int).len() == 0);
    (count, t.len() - start)
}

/// Counts the top-level arguments of a macro's argument list, which `text` holds from just
/// after the opening parenthesis: returns the count and the bytes consumed.
pub fn count_keys_in_macro(text: &str) -> (r: (usize, usize))
    ensures
        (r.0 as nat, r.1 as nat) == key_scan(text.spec_bytes(), 0, 0, false),
{
    let t = text.as_bytes();
    assert(t@.subrange(0, t@.len() as int) =~= t@);
    count_keys_from(t, 0)
}

/// The byte positions of a layer header `[name] = MACRO(` that starts at `i`.
pub struct HeaderSpec {
    pub name_lo: int,
    pub name_hi: int,
    pub macro_lo: int,
    pub macro_hi: int,
    pub end: int,
}

/// The layer header that starts at `i`, if any: `[`, one or more identifier bytes, `]`,
/// optional whitespace, `=`, optional whitespace, one or more identifier bytes, optional
/// whitespace and `(`. Its `end` lies just past the `(`.
pub open spec fn header_at(t: Seq<u8>, i: int) -> Option<HeaderSpec> {
    let name_hi = skip_ident(t, i + 1);
    let eq = skip_space(t, name_hi + 1);
    let macro_lo = skip_space(t, eq + 1);
    let macro_hi = skip_ident(t, macro_lo);
    let paren = skip_space(t, macro_hi);
    if 0 <= i && i < t.len() && t[i] == 91u8 && name_hi > i + 1 && name_hi < t.len()
        && t[name_hi] == 93u8 && eq < t.len() && t[eq] == 61u8 && macro_hi > macro_lo
        && paren < t.len() && t[paren] == 40u8 {
        Some(HeaderSpec { name_lo: i + 1, name_hi, macro_lo, macro_hi, end: paren + 1 })
    } else {
        None
    }
}

/// The layer whose header `h` starts at `i`.
pub open spec fn layer_of(t: Seq<u8>, i: int, h: HeaderSpec) -> LayerSpec {
    let keys = key_scan(t.subrange(h.end, t.len() as int), 0, 0, false);
    LayerSpec {
        name: t.subrange(h.name_lo, h.name_hi),
        macro_name: t.subrange(h.macro_lo, h.macro_hi),
        key_count: keys.0,
        start: i,
        end: h.end + keys.1,
    }
}

/// The layers defined in `t` from position `i` on, in order. The search for the next header
/// resumes just past the previous header's `(`.
pub open spec fn layers_from(t: Seq<u8>, i: int) -> Seq<LayerSpec>
    decreases t.len() - i,
{
    if i < 0 || i >= t.len() {
        Seq::empty()
    } else {
        match header_at(t, i) {
            Some(h) => if h.end > i {
                seq![layer_of(t, i, h)].add(layers_from(t, h.end))
            } else {
                Seq::empty()
            },
            None => layers_from(t, i + 1),
        }
    }
}

fn find_header(t: &[u8], i: usize) -> (r: Option<(usize, usize, usize, usize, usize)>)
    requires
        i < t@.len(),
    ensures
        match header_at(t@, i as int) {
            Some(h) => r == Some((h.name_lo as usize, h.name_hi as usize, h.macro_lo as usize,
                h.macro_hi as usize, h.end as usize)) && h.end <= t@.len()
                && i < h.name_lo < h.name_hi < h.end
                && h.name_hi < h.macro_lo < h.macro_hi < h.end,
            None => r.is_none(),
        },
{
    if t[i] != 91u8 {
        return None;
    }
    let name_hi = ident_end(t, i + 1);
    if name_hi <= i + 1 || name_hi >= t.len() || t[name_hi] != 93u8 {
        return None;
    }
    let eq = space_end(t, name_hi + 1);
    if eq >= t.len() || t[eq] != 61u8 {
        return None;
    }
    let macro_lo = space_end(t, eq + 1);
    let macro_hi = ident_end(t, macro_lo);
    if macro_hi <= macro_lo {
        return None;
    }
    let paren = space_end(t, macro_hi);
    if paren >= t.len() || t[paren] != 40u8 {
        return None;
    }
    Some((i + 1, name_hi, macro_lo, macro_hi, paren + 1))
}

/// Finds every layer definition `[name] = MACRO(...)` in `content`, in order of appearance,
/// with the number of top-level arguments of each and its byte span.
pub fn parse_layers(content: &str) -> (r: Vec<Layer>)
    ensures
        layers_match(r@, layers_from(content.spec_bytes(), 0)),
        forall|k: int| 0 <= k < r@.len() ==> (#[trigger] r@[k]).span.start <= r@[k].span.end
            <= content.spec_bytes().len(),
{
    let t = content.as_bytes();
    let mut out: Vec<Layer> = Vec::new();
    let ghost mut done: Seq<LayerSpec> = Seq::empty();
    let mut i: usize = 0;
    while i < t.len()
        invariant
            i <= t@.len(),
            t@ == content.spec_bytes(),
            layers_match(out@, done),
            forall|k: int| 0 <= k < out@.len() ==> (#[trigger] out@[k]).span.start <= out@[k].span.end
                <= t@.len(),
            layers_from(t@, 0) == done + layers_from(t@, i as int),
        decreases t@.len() - i,
    {
        match find_header(t, i) {
            Some((name_lo, name_hi, macro_lo, macro_hi, end)) => {
                let ghost h = header_at(t@, i as int)->Some_0;
                let (keys, used) = count_keys_from(t, end);
                let name = slice_str(content, name_lo, name_hi);
                let macro_name = slice_str(content, macro_lo, macro_hi);
                let layer = Layer { name, macro_name, key_count: keys, span: i..end + used };
                proof {
                    let l = layer_of(t@, i as int, h);
                    assert(layer.matches(l));
                    done = done.push(l);
                    assert(layers_from(t@, i as int) == seq![l].add(layers_from(t@, end as int)));
                }
                out.push(layer);
                i = end;
            },
            None => {
                i = i + 1;
            },
        }
    }
    assert(done == layers_from(t@, 0));
    out
}

/// Whether `s`, read from nesting depth `d`, closes every delimiter it opens and the `d`
/// that were open before it, never closes more than are open, and holds no comma at depth 0.
pub open spec fn nest_ok(s: Seq<u8>, d: nat) -> bool
    decreases s.len(),
{
    if s.len() == 0 {
        d == 0
    } else if is_opener(s[0]) {
        nest_ok(s.drop_first(), d + 1)
    } else if is_closer(s[0]) {
        d > 0 && nest_ok(s.drop_first(), (d - 1) as nat)
    } else if is_comma(s[0]) {
        d > 0 && nest_ok(s.drop_first(), d)
    } else {
        nest_ok(s.drop_first(), d)
    }
}

pub open spec fn has_nonspace(s: Seq<u8>) -> bool {
    exists|k: int| 0 <= k < s.len() && !is_space(#[trigger] s[k])
}

/// A well-formed macro argument: balanced delimiters, no top-level comma, and something
/// other than whitespace in it. Nested calls such as `LT(1, KC_B)` are arguments.
pub open spec fn is_arg(s: Seq<u8>) -> bool {
    nest_ok(s, 0) && has_nonspace(s)
}

/// The arguments joined by commas: `a0,a1,...`.
pub open spec fn join_args(args: Seq<Seq<u8>>) -> Seq<u8>
    decreases args.len(),
{
    if args.len() <= 1 {
        if args.len() == 1 { args[0] } else { Seq::empty() }
    } else {
        args[0] + seq![44u8] + join_args(args.drop_first())
    }
}

pub open spec fn all_spaces(s: Seq<u8>) -> bool {
    forall|k: int| 0 <= k < s.len() ==> is_space(#[trigger] s[k])
}

proof fn lemma_nest(s: Seq<u8>, r: Seq<u8>, d: nat, n: nat, c: bool)
    requires
        nest_ok(s, d),
        d > 0 ==> c,
    ensures
        key_scan(s + r, d, n, c) == ({
            let k = key_scan(r, 0, n, c || has_nonspace(s));
            (k.0, k.1 + s.len())
        }),
    decreases s.len(),
{
    if s.len() > 0 {
        let t = s.drop_first();
        assert((s + r).drop_first() =~= t + r);
        assert((s + r)[0] == s[0]);
        let b = s[0];
        if is_opener(b) {
            lemma_nest(t, r, d + 1, n, true);
            assert(has_nonspace(s));
        } else if is_closer(b) {
            lemma_nest(t, r, (d - 1) as nat, n, c);
        } else if is_comma(b) {
            lemma_nest(t, r, d, n, c);
        } else if is_space(b) {
            lemma_nest(t, r, d, n, c);
            if has_nonspace(t) {
                let k = choose|k: int| 0 <= k < t.len() && !is_space(#[trigger] t[k]);
                assert(s[k + 1] == t[k]);
            }
            if has_nonspace(s) {
                let k = choose|k: int| 0 <= k < s.len() && !is_space(#[trigger] s[k]);
                assert(t[k - 1] == s[k]);
            }
        } else {
            lemma_nest(t, r, d, n, true);
            assert(!is_space(s[0]));
        }
    }
}

proof fn lemma_spaces(s: Seq<u8>, r: Seq<u8>, n: nat, c: bool)
    requires
        all_spaces(s),
    ensures
        key_scan(s + r, 0, n, c) == ({
            let k = key_scan(r, 0, n, c);
            (k.0, k.1 + s.len())
        }),
    decreases s.len(),
{
    if s.len() > 0 {
        let t = s.drop_first();
        assert((s + r).drop_first() =~= t + r);
        assert((s + r)[0] == s[0]);
        assert(is_space(s[0]));
        assert forall|k: int| 0 <= k < t.len() implies is_space(#[trigger] t[k]) by {
            assert(t[k] == s[k + 1]);
        }
        lemma_spaces(t, r, n, c);
    }
}

proof fn lemma_join(args: Seq<Seq<u8>>, r: Seq<u8>, n: nat, c: bool)
    requires
        args.len() >= 1,
        forall|k: int| 0 <= k < args.len() ==> is_arg(#[trigger] args[k]),
    ensures
        key_scan(join_args(args) + r, 0, n, c) == ({
            let k = key_scan(r, 0, (n + args.len() - 1) as nat, true);
            (k.0, k.1 + join_args(args).len())
        }),
    decreases args.len(),
{
    assert(is_arg(args[0]));
    if args.len() == 1 {
        lemma_nest(args[0], r, 0, n, c);
    } else {
        let rest = args.drop_first();
        assert forall|k: int| 0 <= k < rest.len() implies is_arg(#[trigger] rest[k]) by {
            assert(rest[k] == args[k + 1]);
        }
        let tail = seq![44u8] + join_args(rest) + r;
        assert(join_args(args) + r =~= args[0] + tail);
        lemma_nest(args[0], tail, 0, n, c);
        assert(tail.drop_first() =~= join_args(rest) + r);
        assert(tail[0] == 44u8);
        lemma_join(rest, r, n + 1, false);
    }
}

/// A layer whose argument list holds the well-formed arguments `args`, separated by
/// commas and closed by `)`, has exactly `args.len()` keys, however deeply each argument
/// nests, and its span ends just past that `)`.
pub proof fn lemma_layer_counts_arguments(t: Seq<u8>, i: int, args: Seq<Seq<u8>>, rest: Seq<u8>)
    requires
        header_at(t, i) is Some,
        t.subrange(header_at(t, i)->Some_0.end, t.len() as int) == join_args(args) + seq![41u8] + rest,
        args.len() >= 1,
        forall|k: int| 0 <= k < args.len() ==> is_arg(#[trigger] args[k]),
    ensures
        layer_of(t, i, header_at(t, i)->Some_0).key_count == args.len(),
        layer_of(t, i, header_at(t, i)->Some_0).end
            == header_at(t, i)->Some_0.end + join_args(args).len() + 1,
{
    let r = seq![41u8] + rest;
    assert(join_args(args) + seq![41u8] + rest =~= join_args(args) + r);
    lemma_join(args, r, 0, false);
    assert(r[0] == 41u8);
}

/// An argument list of whitespace only, as in `MACRO( )`, has no keys.
pub proof fn lemma_layer_empty_arguments(t: Seq<u8>, i: int, ws: Seq<u8>, rest: Seq<u8>)
    requires
        header_at(t, i) is Some,
        t.subrange(header_at(t, i)->Some_0.end, t.len() as int) == ws + seq![41u8] + rest,
        all_spaces(ws),
    ensures
        layer_of(t, i, header_at(t, i)->Some_0).key_count == 0,
{
    let r = seq![41u8] + rest;
    assert(ws + seq![41u8] + rest =~= ws + r);
    lemma_spaces(ws, r, 0, false);
    assert(r[0] == 41u8);
}

/// A comma after the last argument, before the closing `)`, adds no phantom key.
pub proof fn lemma_layer_trailing_comma(
    t: Seq<u8>,
    i: int,
    args: Seq<Seq<u8>>,
    ws: Seq<u8>,
    rest: Seq<u8>,
)
    requires
        header_at(t, i) is Some,
        t.subrange(header_at(t, i)->Some_0.end, t.len() as int)
            == join_args(args) + seq![44u8] + ws + seq![41u8] + rest,
        args.len() >= 1,
        forall|k: int| 0 <= k < args.len() ==> is_arg(#[trigger] args[k]),
        all_spaces(ws),
    ensures
        layer_of(t, i, header_at(t, i)->Some_0).key_count == args.len(),
{
    let r2 = seq![41u8] + rest;
    let r1 = seq![44u8] + (ws + r2);
    assert(join_args(args) + seq![44u8] + ws + seq![41u8] + rest =~= join_args(args) + r1);
    lemma_join(args, r1, 0, false);
    assert(r1[0] == 44u8);
    assert(r1.drop_first() =~= ws + r2);
    lemma_spaces(ws, r2, args.len(), false);
    assert(r2[0] == 41u8);
}

} // verus!
