use vstd::prelude::*;
use crate::knowledge::KnowledgeBase;
use crate::document::DocumentData;

verus! {

/// A completion candidate, by its index in the table it comes from.
#[derive(Debug, Clone, Copy, PartialEq, Eq)]
pub enum Candidate {
    Keycode(usize),
    Layer(usize),
    Custom(usize),
    Macro(usize),
}

pub open spec fn keycode_candidates(n: nat) -> Seq<Candidate> {
    Seq::new(n, |k: int| Candidate::Keycode(k as usize))
}

pub open spec fn layer_candidates(n: nat) -> Seq<Candidate> {
    Seq::new(n, |k: int| Candidate::Layer(k as usize))
}

pub open spec fn custom_candidates(n: nat) -> Seq<Candidate> {
    Seq::new(n, |k: int| Candidate::Custom(k as usize))
}

pub open spec fn macro_candidates(n: nat) -> Seq<Candidate> {
    Seq::new(n, |k: int| Candidate::Macro(k as usize))
}

/// The candidates a completion offers: every standard keycode, then the document's layers
/// and custom keycodes (when the document is open), then every standard macro.
pub open spec fn all_candidates(kb: KnowledgeBase, doc: Option<DocumentData>) -> Seq<Candidate> {
    keycode_candidates(kb.keycodes@.len()) + match doc {
        Some(d) => layer_candidates(d.layers@.len()) + custom_candidates(d.custom_keycodes@.len()),
        None => Seq::empty(),
    } + macro_candidates(kb.macros@.len())
}

/// Lists the completion candidates for a document.
pub fn completion_candidates(kb: &KnowledgeBase, doc: Option<&DocumentData>) -> (r: Vec<Candidate>)
    ensures
        r@ == all_candidates(*kb, match doc {
            Some(d) => Some(*d),
            None => None,
        }),
{
    let mut out: Vec<Candidate> = Vec::new();
    let mut k: usize = 0;
    while k < kb.keycodes.len()
        invariant
            k <= kb.keycodes@.len(),
            out@ == keycode_candidates(k as nat),
        decreases kb.keycodes@.len() - k,
    {
        out.push(Candidate::Keycode(k));
        k = k + 1;
        assert(out@ =~= keycode_candidates(k as nat));
    }
    let ghost head = out@;
    let ghost mid: Seq<Candidate> = Seq::empty();
    if let Some(d) = doc {
        let mut k: usize = 0;
        while k < d.layers.len()
            invariant
                k <= d.layers@.len(),
                out@ == head + layer_candidates(k as nat),
            decreases d.layers@.len() - k,
        {
            out.push(Candidate::Layer(k));
            k = k + 1;
            assert(out@ =~= head + layer_candidates(k as nat));
        }
        let mut k: usize = 0;
        while k < d.custom_keycodes.len()
            invariant
                k <= d.custom_keycodes@.len(),
                out@ == head + layer_candidates(d.layers@.len()) + custom_candidates(k as nat),
            decreases d.custom_keycodes@.len() - k,
        {
            out.push(Candidate::Custom(k));
            k = k + 1;
            assert(out@ =~= head + layer_candidates(d.layers@.len()) + custom_candidates(k as nat));
        }
        proof {
            mid = layer_candidates(d.layers@.len()) + custom_candidates(d.custom_keycodes@.len());
            assert(out@ =~= head + mid);
        }
    } else {
        assert(out@ =~= head + mid);
    }
    let mut k: usize = 0;
    while k < kb.macros.len()
        invariant
            k <= kb.macros@.len(),
            out@ == head + mid + macro_candidates(k as nat),
        decreases kb.macros@.len() - k,
    {
        out.push(Candidate::Macro(k));
        k = k + 1;
        assert(out@ =~= head + mid + macro_candidates(k as nat));
    }
    out
}

} // verus!
