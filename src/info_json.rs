use vstd::prelude::*;

verus! {

/// Which layout descriptor file a directory holds.
#[derive(Debug, Clone, Copy, PartialEq, Eq)]
pub enum DescriptorFile {
    InfoJson,
    KeyboardJson,
}

/// What one directory holds of the two descriptor files.
#[derive(Debug, Clone, Copy)]
pub struct DirProbe {
    pub has_info_json: bool,
    pub has_keyboard_json: bool,
}

/// The first directory, in the order given, that holds a descriptor; `info.json` is preferred
/// to `keyboard.json` in the same directory.
pub open spec fn first_descriptor(probes: Seq<DirProbe>, i: int) -> Option<(int, DescriptorFile)>
    decreases probes.len() - i,
{
    if i < 0 || i >= probes.len() {
        None
    } else if probes[i].has_info_json {
        Some((i, DescriptorFile::InfoJson))
    } else if probes[i].has_keyboard_json {
        Some((i, DescriptorFile::KeyboardJson))
    } else {
        first_descriptor(probes, i + 1)
    }
}

/// Picks the layout descriptor for a document. `probes` describes the document's directory
/// and then each of its ancestors, outward; the result is the index of the nearest one
/// that holds a descriptor, and which file it is.
pub fn find_info_json_path(probes: &Vec<DirProbe>) -> (r: Option<(usize, DescriptorFile)>)
    ensures
        match first_descriptor(probes@, 0) {
            Some((i, f)) => r == Some((i as usize, f)),
            None => r.is_none(),
        },
{
    let mut i: usize = 0;
    while i < probes.len()
        invariant
            i <= probes@.len(),
            first_descriptor(probes@, 0) == first_descriptor(probes@, i as int),
        decreases probes@.len() - i,
    {
        let p = probes[i];
        if p.has_info_json {
            return Some((i, DescriptorFile::InfoJson));
        }
        if p.has_keyboard_json {
            return Some((i, DescriptorFile::KeyboardJson));
        }
        i = i + 1;
    }
    None
}

} // verus!
