use vstd::prelude::*;
use vstd::utf8::*;
use crate::text::{is_ident_byte, skip_ident, is_ident_char, ident_end, bytes_eq, string_bytes};
use crate::custom::CustomKeycode;
use crate::knowledge::KnowledgeBase;
use crate::document::{DocumentData, text_bytes};
use crate::position::{offset_at, offset_of};

verus! {

/// What the word under the cursor names.
#[derive(Debug, Clone, Copy, PartialEq, Eq)]
pub enum HoverTarget {
    /// The standard keycode at this index of the knowledge base.
    Keycode(usize),
    /// The standard macro at this index of the knowledge base.
    Macro(usize),
    /// The custom keycode at this index of the document's declarations.
    Custom(usize),
}

/// The start of the identifier that ends at or runs through `off`.
pub open spec fn word_start(t: Seq<u8>, off: int) -> int
    decreases off,
{
    if off > 0 && off <= t.len() && is_ident_byte(t[off - 1]) {
        word_start(t, off - 1)
    } else {
        off
    }
}

/// The word under the cursor at line `line`, UTF-16 column `col`, as a byte range.
pub open spec fn word_under(t: Seq<u8>, line: nat, col: nat) -> Option<(int, int)> {
    match offset_at(t, line, col) {
        Some(o) => if word_start(t, o) < skip_ident(t, o) {
            Some((word_start(t, o), skip_ident(t, o)))
        } else {
            None
        },
        None => None,
    }
}

pub open spec fn custom_declares(customs: Seq<CustomKeycode>, name: Seq<u8>) -> bool {
    exists|k: int| 0 <= k < customs.len() && encode_utf8(#[trigger] customs[k].name@) == name
}

/// Whether `r` is what a hover on the word `w` shows: a standard keycode first, then a
/// standard macro, then a custom keycode of the document.
pub open spec fn hover_matches(kb: KnowledgeBase, customs: Seq<CustomKeycode>, w: Seq<u8>, r: Option<HoverTarget>) -> bool {
    match r {
        Some(HoverTarget::Keycode(k)) => k < kb.keycodes@.len() && encode_utf8(kb.keycodes@[k as int].name@) == w,
        Some(HoverTarget::Macro(k)) => !kb.has_keycode(w) && k < kb.macros@.len()
            && encode_utf8(kb.macros@[k as int].name@) == w,
        Some(HoverTarget::Custom(k)) => !kb.has_keycode(w) && !kb.has_macro(w) && k < customs.len()
            && encode_utf8(customs[k as int].name@) == w,
        None => !kb.has_keycode(w) && !kb.has_macro(w) && !custom_declares(customs, w),
    }
}

fn word_start_exec(t: &[u8], off: usize) -> (r: usize)
    requires
        off <= t@.len(),
    ensures
        r as int == word_start(t@, off as int),
        r <= off,
{
    let mut k: usize = off;
    while k > 0 && is_ident_char(t[k - 1])
        invariant
            k <= off <= t@.len(),
            word_start(t@, off as int) == word_start(t@, k as int),
        decreases k,
    {
        k = k - 1;
    }
    k
}

/// Resolves what the word at line `line`, UTF-16 column `col` of the document names, for
/// a hover: `None` where there is no such line, no identifier there, or nothing known by
/// that name.
pub fn hover_target(doc: &DocumentData, kb: &KnowledgeBase, line: usize, col: usize) -> (r: Option<HoverTarget>)
    ensures
        match word_under(text_bytes(doc.content), line as nat, col as nat) {
            Some((a, b)) => hover_matches(*kb, doc.custom_keycodes@, text_bytes(doc.content).subrange(a, b), r),
            None => r.is_none(),
        },
{
    let text = doc.content.as_str();
    let t = text.as_bytes();
    assert(t@ == text_bytes(doc.content));
    let off = match offset_of(text, line, col) {
        Some(o) => o,
        None => {
            return None;
        },
    };
    let a = word_start_exec(t, off);
    let b = ident_end(t, off);
    if a >= b {
        return None;
    }
    let w = vstd::slice::slice_subrange(t, a, b);
    assert(word_under(t@, line as nat, col as nat) == Some((a as int, b as int)));
    if let Some(k) = kb.keycode_index(w) {
        return Some(HoverTarget::Keycode(k));
    }
    if let Some(k) = kb.macro_index(w) {
        return Some(HoverTarget::Macro(k));
    }
    let mut k: usize = 0;
    while k < doc.custom_keycodes.len()
        invariant
            k <= doc.custom_keycodes@.len(),
            t@ == text_bytes(doc.content),
            w@ == t@.subrange(a as int, b as int),
            word_under(t@, line as nat, col as nat) == Some((a as int, b as int)),
            !kb.has_keycode(w@),
            !kb.has_macro(w@),
            forall|m: int| 0 <= m < k ==> encode_utf8(#[trigger] doc.custom_keycodes@[m].name@) != w@,
        decreases doc.custom_keycodes@.len() - k,
    {
        if bytes_eq(string_bytes(&doc.custom_keycodes[k].name), w) {
            return Some(HoverTarget::Custom(k));
        }
        k = k + 1;
    }
    None
}

} // verus!
