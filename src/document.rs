use vstd::prelude::*;
use vstd::utf8::*;
use crate::layers::{Layer, layers_match, layers_from, parse_layers};
use crate::custom::{CustomKeycode, custom_names, parse_custom_keycodes};

verus! {

/// The UTF-8 bytes of a document's text.
pub open spec fn text_bytes(s: String) -> Seq<u8> {
    encode_utf8(s@)
}

/// A document's text with what the scanners found in it.
pub struct DocumentData {
    pub content: String,
    pub layers: Vec<Layer>,
    pub custom_keycodes: Vec<CustomKeycode>,
}

impl DocumentData {
    /// The layers and custom keycodes are those of `content`.
    pub open spec fn wf(&self) -> bool {
        let t = text_bytes(self.content);
        &&& layers_match(self.layers@, layers_from(t, 0))
        &&& forall|k: int| 0 <= k < self.layers@.len() ==> (#[trigger] self.layers@[k]).span.start
            <= self.layers@[k].span.end <= t.len()
        &&& self.custom_keycodes@.len() == custom_names(t).len()
        &&& forall|k: int| 0 <= k < self.custom_keycodes@.len()
            ==> encode_utf8((#[trigger] self.custom_keycodes@[k]).name@) == custom_names(t)[k]
    }

    /// Scans `content` and keeps it together with what was found, as one record.
    pub fn new(content: String) -> (r: DocumentData)
        ensures
            r.wf(),
            r.content@ == content@,
    {
        let layers = parse_layers(content.as_str());
        let custom_keycodes = parse_custom_keycodes(content.as_str());
        DocumentData { content, layers, custom_keycodes }
    }
}

} // verus!
