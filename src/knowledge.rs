use vstd::prelude::*;
use vstd::utf8::*;
use crate::text::{bytes_eq, string_bytes};

verus! {

/// A standard keycode and its documentation.
#[derive(Debug)]
pub struct Keycode {
    pub name: String,
    pub description: String,
    pub doc: String,
    pub category: String,
}

/// A standard macro and its documentation.
#[derive(Debug)]
pub struct Macro {
    pub name: String,
    pub detail: String,
    pub description: String,
    pub doc: String,
}

/// Whether no entry of `s` after entry `k` has its name.
pub open spec fn last_of_name(s: Seq<Seq<char>>, k: int) -> bool {
    forall|j: int| k < j < s.len() ==> s[j] != s[k]
}

/// `out` holds, once each and in any order, the last entry of `input` under each name:
/// what a table filled from `input` in order keeps.
pub open spec fn keycodes_last_wins(input: Seq<Keycode>, out: Seq<Keycode>) -> bool {
    &&& forall|a: int, b: int| 0 <= a < b < out.len() ==> out[a].name@ != out[b].name@
    &&& forall|k: int| 0 <= k < out.len() ==> last_entry(keycode_names(input), input, #[trigger] out[k])
    &&& forall|j: int| 0 <= j < input.len() ==> keycode_names(out).contains(#[trigger] keycode_names(input)[j])
}

/// `out` holds, once each and in any order, the last entry of `input` under each name:
/// what a table filled from `input` in order keeps.
pub open spec fn macros_last_wins(input: Seq<Macro>, out: Seq<Macro>) -> bool {
    &&& forall|a: int, b: int| 0 <= a < b < out.len() ==> out[a].name@ != out[b].name@
    &&& forall|k: int| 0 <= k < out.len() ==> last_entry(macro_names(input), input, #[trigger] out[k])
    &&& forall|j: int| 0 <= j < input.len() ==> macro_names(out).contains(#[trigger] macro_names(input)[j])
}

/// `x` is an entry of `input` after which no entry has its name (`names` gives the names).
pub open spec fn last_entry<T>(names: Seq<Seq<char>>, input: Seq<T>, x: T) -> bool {
    exists|j: int| 0 <= j < input.len() && input[j] == x && last_of_name(names, j)
}

pub open spec fn keycode_names(s: Seq<Keycode>) -> Seq<Seq<char>> {
    s.map_values(|k: Keycode| k.name@)
}

pub open spec fn macro_names(s: Seq<Macro>) -> Seq<Seq<char>> {
    s.map_values(|m: Macro| m.name@)
}

/// The standard keycodes and macros, each name at most once.
pub struct KnowledgeBase {
    pub keycodes: Vec<Keycode>,
    pub macros: Vec<Macro>,
}

impl KnowledgeBase {
    pub open spec fn wf(&self) -> bool {
        &&& forall|a: int, b: int| 0 <= a < b < self.keycodes@.len()
            ==> self.keycodes@[a].name@ != self.keycodes@[b].name@
        &&& forall|a: int, b: int| 0 <= a < b < self.macros@.len()
            ==> self.macros@[a].name@ != self.macros@[b].name@
    }

    /// Whether a keycode of this name, given by its UTF-8 bytes, is known.
    pub open spec fn has_keycode(&self, name: Seq<u8>) -> bool {
        exists|k: int| 0 <= k < self.keycodes@.len() && encode_utf8(#[trigger] self.keycodes@[k].name@) == name
    }

    pub open spec fn has_macro(&self, name: Seq<u8>) -> bool {
        exists|k: int| 0 <= k < self.macros@.len() && encode_utf8(#[trigger] self.macros@[k].name@) == name
    }

    /// Builds the tables from the entries in the order given; where two entries share a
    /// name, the later one is kept.
    pub fn new(keycodes: Vec<Keycode>, macros: Vec<Macro>) -> (r: KnowledgeBase)
        ensures
            r.wf(),
            keycodes_last_wins(keycodes@, r.keycodes@),
            macros_last_wins(macros@, r.macros@),
    {
        KnowledgeBase { keycodes: dedup_keycodes(keycodes), macros: dedup_macros(macros) }
    }

    /// The index of the keycode whose name has the UTF-8 bytes `name`.
    pub fn keycode_index(&self, name: &[u8]) -> (r: Option<usize>)
        ensures
            match r {
                Some(k) => k < self.keycodes@.len() && encode_utf8(self.keycodes@[k as int].name@) == name@,
                None => !self.has_keycode(name@),
            },
    {
        let mut k: usize = 0;
        while k < self.keycodes.len()
            invariant
                k <= self.keycodes@.len(),
                forall|j: int| 0 <= j < k ==> encode_utf8(#[trigger] self.keycodes@[j].name@) != name@,
            decreases self.keycodes@.len() - k,
        {
            if bytes_eq(string_bytes(&self.keycodes[k].name), name) {
                return Some(k);
            }
            k = k + 1;
        }
        None
    }

    /// The index of the macro whose name has the UTF-8 bytes `name`.
    pub fn macro_index(&self, name: &[u8]) -> (r: Option<usize>)
        ensures
            match r {
                Some(k) => k < self.macros@.len() && encode_utf8(self.macros@[k as int].name@) == name@,
                None => !self.has_macro(name@),
            },
    {
        let mut k: usize = 0;
        while k < self.macros.len()
            invariant
                k <= self.macros@.len(),
                forall|j: int| 0 <= j < k ==> encode_utf8(#[trigger] self.macros@[j].name@) != name@,
            decreases self.macros@.len() - k,
        {
            if bytes_eq(string_bytes(&self.macros[k].name), name) {
                return Some(k);
            }
            k = k + 1;
        }
        None
    }
}

fn dedup_keycodes(input: Vec<Keycode>) -> (r: Vec<Keycode>)
    ensures
        keycodes_last_wins(input@, r@),
        forall|a: int, b: int| 0 <= a < b < r@.len() ==> r@[a].name@ != r@[b].name@,
{
    let ghost orig = input@;
    let ghost on = keycode_names(orig);
    let ghost mut src: Seq<int> = Seq::empty();
    let ghost mut cov: Seq<int> = Seq::new(orig.len(), |i: int| 0int);
    let mut rest = input;
    let mut out: Vec<Keycode> = Vec::new();
    while rest.len() > 0
        invariant
            rest@ == orig.subrange(0, rest@.len() as int),
            rest@.len() <= orig.len(),
            on == keycode_names(orig),
            on.len() == orig.len(),
            src.len() == out@.len(),
            cov.len() == orig.len(),
            forall|a: int, b: int| 0 <= a < b < out@.len() ==> out@[a].name@ != out@[b].name@,
            forall|k: int| 0 <= k < out@.len() ==> rest@.len() <= #[trigger] src[k] < orig.len()
                && out@[k] == orig[src[k]] && last_of_name(on, src[k]),
            forall|j: int| rest@.len() <= j < orig.len() ==> 0 <= #[trigger] cov[j] < out@.len()
                && out@[cov[j]].name@ == on[j],
        decreases rest@.len(),
    {
        let ghost prev_rest = rest@;
        let item = rest.pop().unwrap();
        let ghost j = rest@.len() as int;
        assert(item == prev_rest[j]);
        assert(item == orig[j]);
        assert(on[j] == item.name@);
        let mut seen = false;
        let mut m: usize = 0;
        let ghost mut at: int = 0;
        while m < out.len()
            invariant
                m <= out@.len(),
                seen ==> 0 <= at < out@.len() && out@[at].name@ == item.name@,
                !seen ==> forall|k: int| 0 <= k < m ==> (#[trigger] out@[k]).name@ != item.name@,
            decreases out@.len() - m,
        {
            if out[m].name == item.name {
                seen = true;
                proof {
                    at = m as int;
                }
            }
            m = m + 1;
        }
        let ghost prev = out@;
        if !seen {
            proof {
                assert forall|i: int| j < i < on.len() implies on[i] != on[j] by {
                    if on[i] == on[j] {
                        assert(out@[cov[i]].name@ == item.name@);
                    }
                }
                assert(last_of_name(on, j));
            }
            out.push(item);
            proof {
                src = src.push(j);
                cov = cov.update(j, prev.len() as int);
                assert forall|k: int| 0 <= k < out@.len() implies rest@.len() <= #[trigger] src[k] < orig.len()
                    && out@[k] == orig[src[k]] && last_of_name(on, src[k]) by {
                    if k < prev.len() {
                        assert(out@[k] == prev[k]);
                    }
                }
                assert forall|i: int| rest@.len() <= i < orig.len() implies 0 <= #[trigger] cov[i] < out@.len()
                    && out@[cov[i]].name@ == on[i] by {
                    if i != j {
                        assert(out@[cov[i]] == prev[cov[i]]);
                    }
                }
            }
        } else {
            proof {
                cov = cov.update(j, at);
            }
        }
    }
    proof {
        assert forall|k: int| 0 <= k < out@.len() implies last_entry(keycode_names(orig), orig, #[trigger] out@[k]) by {
            assert(orig[src[k]] == out@[k]);
        }
        assert forall|j: int| 0 <= j < orig.len() implies keycode_names(out@).contains(#[trigger] keycode_names(orig)[j]) by {
            assert(keycode_names(out@)[cov[j]] == out@[cov[j]].name@);
        }
    }
    out
}

fn dedup_macros(input: Vec<Macro>) -> (r: Vec<Macro>)
    ensures
        macros_last_wins(input@, r@),
        forall|a: int, b: int| 0 <= a < b < r@.len() ==> r@[a].name@ != r@[b].name@,
{
    let ghost orig = input@;
    let ghost on = macro_names(orig);
    let ghost mut src: Seq<int> = Seq::empty();
    let ghost mut cov: Seq<int> = Seq::new(orig.len(), |i: int| 0int);
    let mut rest = input;
    let mut out: Vec<Macro> = Vec::new();
    while rest.len() > 0
        invariant
            rest@ == orig.subrange(0, rest@.len() as int),
            rest@.len() <= orig.len(),
            on == macro_names(orig),
            on.len() == orig.len(),
            src.len() == out@.len(),
            cov.len() == orig.len(),
            forall|a: int, b: int| 0 <= a < b < out@.len() ==> out@[a].name@ != out@[b].name@,
            forall|k: int| 0 <= k < out@.len() ==> rest@.len() <= #[trigger] src[k] < orig.len()
                && out@[k] == orig[src[k]] && last_of_name(on, src[k]),
            forall|j: int| rest@.len() <= j < orig.len() ==> 0 <= #[trigger] cov[j] < out@.len()
                && out@[cov[j]].name@ == on[j],
        decreases rest@.len(),
    {
        let ghost prev_rest = rest@;
        let item = rest.pop().unwrap();
        let ghost j = rest@.len() as int;
        assert(item == prev_rest[j]);
        assert(item == orig[j]);
        assert(on[j] == item.name@);
        let mut seen = false;
        let mut m: usize = 0;
        let ghost mut at: int = 0;
        while m < out.len()
            invariant
                m <= out@.len(),
                seen ==> 0 <= at < out@.len() && out@[at].name@ == item.name@,
                !seen ==> forall|k: int| 0 <= k < m ==> (#[trigger] out@[k]).name@ != item.name@,
            decreases out@.len() - m,
        {
            if out[m].name == item.name {
                seen = true;
                proof {
                    at = m as int;
                }
            }
            m = m + 1;
        }
        let ghost prev = out@;
        if !seen {
            proof {
                assert forall|i: int| j < i < on.len() implies on[i] != on[j] by {
                    if on[i] == on[j] {
                        assert(out@[cov[i]].name@ == item.name@);
                    }
                }
                assert(last_of_name(on, j));
            }
            out.push(item);
            proof {
                src = src.push(j);
                cov = cov.update(j, prev.len() as int);
                assert forall|k: int| 0 <= k < out@.len() implies rest@.len() <= #[trigger] src[k] < orig.len()
                    && out@[k] == orig[src[k]] && last_of_name(on, src[k]) by {
                    if k < prev.len() {
                        assert(out@[k] == prev[k]);
                    }
                }
                assert forall|i: int| rest@.len() <= i < orig.len() implies 0 <= #[trigger] cov[i] < out@.len()
                    && out@[cov[i]].name@ == on[i] by {
                    if i != j {
                        assert(out@[cov[i]] == prev[cov[i]]);
                    }
                }
            }
        } else {
            proof {
                cov = cov.update(j, at);
            }
        }
    }
    proof {
        assert forall|k: int| 0 <= k < out@.len() implies last_entry(macro_names(orig), orig, #[trigger] out@[k]) by {
            assert(orig[src[k]] == out@[k]);
        }
        assert forall|j: int| 0 <= j < orig.len() implies macro_names(out@).contains(#[trigger] macro_names(orig)[j]) by {
            assert(macro_names(out@)[cov[j]] == out@[cov[j]].name@);
        }
    }
    out
}

} // verus!
