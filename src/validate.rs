use vstd::prelude::*;
use vstd::utf8::*;
use vstd::string::StringSliceAdditionalSpecFns;
use crate::text::{is_ident_byte, skip_ident, is_ident_char, ident_end, bytes_eq, string_bytes};
use crate::custom::{CustomKeycode, word_at};
use crate::layers::Layer;
use crate::knowledge::KnowledgeBase;
use crate::document::{DocumentData, text_bytes};
use crate::position::{line_of, col_of, position_of};

verus! {

/// The expected key count of one layout macro, from the keyboard's layout descriptor.
#[derive(Debug, Clone)]
pub struct LayoutSize {
    pub name: String,
    pub key_count: usize,
}

/// What a finding reports.
#[derive(Debug)]
pub enum FindingKind {
    /// The text of the span is a keycode that is neither standard nor declared in the file.
    UnknownKeycode,
    /// The layer in the span passes `found` keys to `macro_name`, which expects `expected`.
    LayerMismatch { macro_name: String, expected: usize, found: usize },
}

/// One problem found in a document, with its byte span and its start and end as
/// (line, UTF-16 column).
#[derive(Debug)]
pub struct Finding {
    pub kind: FindingKind,
    pub span: std::ops::Range<usize>,
    pub start: (usize, usize),
    pub end: (usize, usize),
}

/// A finding in terms of the document's bytes: `mismatch` holds the macro name, the
/// expected and the found key count of a layer mismatch, and is `None` for an unknown keycode.
pub struct FindingSpec {
    pub mismatch: Option<(Seq<char>, nat, nat)>,
    pub start: int,
    pub end: int,
}

impl Finding {
    pub open spec fn matches(&self, t: Seq<u8>, f: FindingSpec) -> bool {
        &&& match self.kind {
            FindingKind::UnknownKeycode => f.mismatch is None,
            FindingKind::LayerMismatch { macro_name, expected, found } => f.mismatch
                == Some((macro_name@, expected as nat, found as nat)),
        }
        &&& self.span.start as int == f.start
        &&& self.span.end as int == f.end
        &&& self.start.0 as nat == line_of(t, f.start)
        &&& self.start.1 as nat == col_of(t, f.start)
        &&& self.end.0 as nat == line_of(t, f.end)
        &&& self.end.1 as nat == col_of(t, f.end)
    }
}

pub open spec fn findings_match(t: Seq<u8>, v: Seq<Finding>, s: Seq<FindingSpec>) -> bool {
    &&& v.len() == s.len()
    &&& forall|k: int| 0 <= k < v.len() ==> (#[trigger] v[k]).matches(t, s[k])
}

/// The bytes of `KC_`.
pub open spec fn keycode_prefix() -> Seq<u8> {
    seq![75u8, 67u8, 95u8]
}

/// The end of the keycode token that starts at `i`, if one does: `KC_` and one or more
/// identifier bytes, not preceded by an identifier byte; the token runs to the end of its
/// identifier.
pub open spec fn token_at(t: Seq<u8>, i: int) -> Option<int> {
    let e = skip_ident(t, i + 3);
    if 0 <= i < t.len() && (i == 0 || !is_ident_byte(t[i - 1])) && word_at(t, i, keycode_prefix())
        && e > i + 3 {
        Some(e)
    } else {
        None
    }
}

/// Whether `name` is a standard keycode or one that `customs` declares.
pub open spec fn is_known(kb: KnowledgeBase, customs: Seq<CustomKeycode>, name: Seq<u8>) -> bool {
    kb.has_keycode(name) || exists|k: int| 0 <= k < customs.len() && encode_utf8(#[trigger] customs[k].name@) == name
}

/// One finding for each keycode token from position `i` on that is not known, in order.
pub open spec fn keycode_findings(t: Seq<u8>, kb: KnowledgeBase, customs: Seq<CustomKeycode>, i: int) -> Seq<FindingSpec>
    decreases t.len() - i,
{
    if i < 0 || i >= t.len() {
        Seq::empty()
    } else {
        match token_at(t, i) {
            Some(e) => if i < e <= t.len() {
                let here = if is_known(kb, customs, t.subrange(i, e)) {
                    Seq::empty()
                } else {
                    seq![FindingSpec { mismatch: None, start: i, end: e }]
                };
                here + keycode_findings(t, kb, customs, e)
            } else {
                Seq::empty()
            },
            None => keycode_findings(t, kb, customs, i + 1),
        }
    }
}

/// The key count that the first entry of `desc` named `name` gives.
pub open spec fn expected_count(desc: Seq<LayoutSize>, name: Seq<char>) -> Option<nat>
    decreases desc.len(),
{
    if desc.len() == 0 {
        None
    } else if desc[0].name@ == name {
        Some(desc[0].key_count as nat)
    } else {
        expected_count(desc.drop_first(), name)
    }
}

/// One finding for each of the first `n` layers whose macro the descriptor knows with
/// another key count, in order.
pub open spec fn layout_findings(layers: Seq<Layer>, desc: Seq<LayoutSize>, n: int) -> Seq<FindingSpec>
    decreases n,
{
    if n <= 0 || n > layers.len() {
        Seq::empty()
    } else {
        let l = layers[n - 1];
        let here = match expected_count(desc, l.macro_name@) {
            Some(c) => if c != l.key_count as nat {
                seq![FindingSpec {
                    mismatch: Some((l.macro_name@, c, l.key_count as nat)),
                    start: l.span.start as int,
                    end: l.span.end as int,
                }]
            } else {
                Seq::empty()
            },
            None => Seq::empty(),
        };
        layout_findings(layers, desc, n - 1) + here
    }
}

/// All findings for a document: the unknown keycodes, then, where a layout descriptor
/// was found, the layers whose key count differs from it.
pub open spec fn all_findings(doc: DocumentData, kb: KnowledgeBase, desc: Option<Vec<LayoutSize>>) -> Seq<FindingSpec> {
    let t = text_bytes(doc.content);
    keycode_findings(t, kb, doc.custom_keycodes@, 0) + match desc {
        Some(d) => layout_findings(doc.layers@, d@, doc.layers@.len() as int),
        None => Seq::empty(),
    }
}

fn token_at_exec(t: &[u8], i: usize, prefix: &Vec<u8>) -> (r: Option<usize>)
    requires
        i < t@.len(),
        prefix@ == keycode_prefix(),
    ensures
        match token_at(t@, i as int) {
            Some(e) => r == Some(e as usize) && i + 3 < e <= t@.len(),
            None => r.is_none(),
        },
{
    if i > 0 && is_ident_char(t[i - 1]) {
        return None;
    }
    if t.len() - i < 3 {
        return None;
    }
    let n = t.len();
    let mut k: usize = 0;
    while k < 3
        invariant
            n == t@.len(),
            k <= 3,
            i + 3 <= t@.len(),
            prefix@ == keycode_prefix(),
            forall|m: int| 0 <= m < k ==> t@[i + m] == prefix@[m],
        decreases 3 - k,
    {
        if t[i + k] != prefix[k] {
            assert(t@.subrange(i as int, i + 3)[k as int] != keycode_prefix()[k as int]);
            return None;
        }
        k = k + 1;
    }
    assert(t@.subrange(i as int, i + 3) =~= keycode_prefix());
    let e = ident_end(t, i + 3);
    if e <= i + 3 {
        return None;
    }
    Some(e)
}

fn prefix_exec() -> (r: Vec<u8>)
    ensures
        r@ == keycode_prefix(),
{
    let r: Vec<u8> = vec![75u8, 67u8, 95u8];
    assert(r@ =~= keycode_prefix());
    r
}

/// Whether `name` is a standard keycode or one that `customs` declares.
pub fn is_known_keycode(kb: &KnowledgeBase, customs: &Vec<CustomKeycode>, name: &[u8]) -> (r: bool)
    ensures
        r == is_known(*kb, customs@, name@),
{
    if kb.keycode_index(name).is_some() {
        return true;
    }
    let mut k: usize = 0;
    while k < customs.len()
        invariant
            k <= customs@.len(),
            !kb.has_keycode(name@),
            forall|m: int| 0 <= m < k ==> encode_utf8(#[trigger] customs@[m].name@) != name@,
        decreases customs@.len() - k,
    {
        if bytes_eq(string_bytes(&customs[k].name), name) {
            return true;
        }
        k = k + 1;
    }
    false
}

/// The key count that the first entry of `desc` named `name` gives.
pub fn lookup_layout(desc: &Vec<LayoutSize>, name: &String) -> (r: Option<usize>)
    ensures
        match expected_count(desc@, name@) {
            Some(c) => r is Some && r->Some_0 as nat == c,
            None => r.is_none(),
        },
{
    assert(desc@.subrange(0, desc@.len() as int) =~= desc@);
    let mut k: usize = 0;
    while k < desc.len()
        invariant
            k <= desc@.len(),
            expected_count(desc@, name@) == expected_count(desc@.subrange(k as int, desc@.len() as int), name@),
        decreases desc@.len() - k,
    {
        let ghost rest = desc@.subrange(k as int, desc@.len() as int);
        assert(rest.drop_first() =~= desc@.subrange(k + 1, desc@.len() as int));
        assert(rest[0] == desc@[k as int]);
        if desc[k].name == *name {
            return Some(desc[k].key_count);
        }
        k = k + 1;
    }
    None
}

/// Checks a document: one finding for each keycode token (`KC_` and an identifier) that is
/// neither standard nor declared in the document, in order; then, where the keyboard's
/// layout descriptor `desc` is at hand, one for each layer whose macro it lists with
/// another key count, in order.
pub fn validate(doc: &DocumentData, kb: &KnowledgeBase, desc: &Option<Vec<LayoutSize>>) -> (r: Vec<Finding>)
    requires
        doc.wf(),
    ensures
        findings_match(text_bytes(doc.content), r@, all_findings(*doc, *kb, *desc)),
{
    let text = doc.content.as_str();
    let t = text.as_bytes();
    let ghost tb = text_bytes(doc.content);
    assert(t@ == tb);
    let prefix = prefix_exec();
    let mut out: Vec<Finding> = Vec::new();
    let ghost mut done: Seq<FindingSpec> = Seq::empty();
    let mut i: usize = 0;
    while i < t.len()
        invariant
            i <= t@.len(),
            t@ == tb,
            text.spec_bytes() == tb,
            tb == text_bytes(doc.content),
            prefix@ == keycode_prefix(),
            findings_match(tb, out@, done),
            keycode_findings(tb, *kb, doc.custom_keycodes@, 0)
                == done + keycode_findings(tb, *kb, doc.custom_keycodes@, i as int),
        decreases t@.len() - i,
    {
        match token_at_exec(t, i, &prefix) {
            Some(e) => {
                let name = vstd::slice::slice_subrange(t, i, e);
                let ghost here = if is_known(*kb, doc.custom_keycodes@, t@.subrange(i as int, e as int)) {
                    Seq::<FindingSpec>::empty()
                } else {
                    seq![FindingSpec { mismatch: None, start: i as int, end: e as int }]
                };
                assert(keycode_findings(tb, *kb, doc.custom_keycodes@, i as int)
                    == here + keycode_findings(tb, *kb, doc.custom_keycodes@, e as int));
                if !is_known_keycode(kb, &doc.custom_keycodes, name) {
                    let start = position_of(text, i);
                    let end = position_of(text, e);
                    let f = Finding { kind: FindingKind::UnknownKeycode, span: i..e, start, end };
                    proof {
                        assert(f.matches(tb, here[0]));
                    }
                    out.push(f);
                }
                proof {
                    done = done + here;
                }
                i = e;
            },
            None => {
                i = i + 1;
            },
        }
    }
    assert(done == keycode_findings(tb, *kb, doc.custom_keycodes@, 0));
    match desc {
        Some(d) => {
            let mut k: usize = 0;
            while k < doc.layers.len()
                invariant
                    k <= doc.layers@.len(),
                    doc.wf(),
                    text.spec_bytes() == tb,
                    tb == text_bytes(doc.content),
                    findings_match(tb, out@, done + layout_findings(doc.layers@, d@, k as int)),
                decreases doc.layers@.len() - k,
            {
                let l = &doc.layers[k];
                let ghost before = done + layout_findings(doc.layers@, d@, k as int);
                let ghost lf = layout_findings(doc.layers@, d@, k as int);
                assert(l == doc.layers@[k as int]);
                match lookup_layout(d, &l.macro_name) {
                    Some(c) => {
                        if c != l.key_count {
                            let start = position_of(text, l.span.start);
                            let end = position_of(text, l.span.end);
                            let f = Finding {
                                kind: FindingKind::LayerMismatch {
                                    macro_name: l.macro_name.clone(),
                                    expected: c,
                                    found: l.key_count,
                                },
                                span: l.span.start..l.span.end,
                                start,
                                end,
                            };
                            let ghost fs = FindingSpec {
                                mismatch: Some((l.macro_name@, c as nat, l.key_count as nat)),
                                start: l.span.start as int,
                                end: l.span.end as int,
                            };
                            assert(layout_findings(doc.layers@, d@, k as int + 1) == lf + seq![fs]);
                            assert(f.matches(tb, fs));
                            out.push(f);
                            proof {
                                assert(done + (lf + seq![fs]) =~= before.push(fs));
                            }
                        } else {
                            assert(layout_findings(doc.layers@, d@, k as int + 1) == lf + Seq::<FindingSpec>::empty());
                            assert(lf + Seq::<FindingSpec>::empty() =~= lf);
                        }
                    },
                    None => {
                        assert(layout_findings(doc.layers@, d@, k as int + 1) == lf + Seq::<FindingSpec>::empty());
                        assert(lf + Seq::<FindingSpec>::empty() =~= lf);
                    },
                }
                k = k + 1;
            }
        },
        None => {
            assert(done + Seq::<FindingSpec>::empty() =~= done);
        },
    }
    out
}

/// Each keycode finding spans exactly one keycode token of the text, from its first byte to
/// its last, that is neither standard nor declared; the findings follow the text's order and
/// do not overlap, so each occurrence is reported at most once.
pub proof fn lemma_keycode_findings_are_unknown_tokens(
    t: Seq<u8>,
    kb: KnowledgeBase,
    customs: Seq<CustomKeycode>,
    i: int,
)
    requires
        0 <= i,
    ensures
        forall|k: int| 0 <= k < keycode_findings(t, kb, customs, i).len() ==> {
            let f = #[trigger] keycode_findings(t, kb, customs, i)[k];
            &&& f.mismatch is None
            &&& i <= f.start
            &&& token_at(t, f.start) == Some(f.end)
            &&& !is_known(kb, customs, t.subrange(f.start, f.end))
        },
        forall|a: int, b: int| 0 <= a < b < keycode_findings(t, kb, customs, i).len()
            ==> keycode_findings(t, kb, customs, i)[a].end <= keycode_findings(t, kb, customs, i)[b].start,
    decreases t.len() - i,
{
    if i < t.len() {
        match token_at(t, i) {
            Some(e) => {
                if i < e <= t.len() {
                    lemma_keycode_findings_are_unknown_tokens(t, kb, customs, e);
                    let rest = keycode_findings(t, kb, customs, e);
                    let all = keycode_findings(t, kb, customs, i);
                    if is_known(kb, customs, t.subrange(i, e)) {
                        assert(all =~= Seq::<FindingSpec>::empty() + rest);
                    } else {
                        let f0 = FindingSpec { mismatch: None, start: i, end: e };
                        assert(all =~= seq![f0] + rest);
                        assert forall|a: int, b: int| 0 <= a < b < all.len() implies all[a].end <= all[b].start by {
                            if a == 0 {
                                assert(all[b] == rest[b - 1]);
                            } else {
                                assert(all[a] == rest[a - 1]);
                                assert(all[b] == rest[b - 1]);
                            }
                        }
                        assert forall|k: int| 0 <= k < all.len() implies {
                            let f = #[trigger] all[k];
                            &&& f.mismatch is None
                            &&& i <= f.start
                            &&& token_at(t, f.start) == Some(f.end)
                            &&& !is_known(kb, customs, t.subrange(f.start, f.end))
                        } by {
                            if k > 0 {
                                assert(all[k] == rest[k - 1]);
                            }
                        }
                    }
                }
            },
            None => {
                lemma_keycode_findings_are_unknown_tokens(t, kb, customs, i + 1);
            },
        }
    }
}

} // verus!
