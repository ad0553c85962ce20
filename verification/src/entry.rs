//! The entry model: the atomic unit of a listing result.
//!
//! An entry is a byte-string name together with an optional opaque metadata
//! payload. An absent payload marks a directory placeholder rather than a
//! leaf object. Agreement across disks is decided by byte-identity of the
//! name and the payload; a directory marker never agrees with an object.

use vstd::prelude::*;
use crate::order::{lex_lt, NameCmp, compare_names};

verus! {

/// The path separator that terminates directory-marker names.
pub const SLASH: u8 = 47;

/// One discovered cache entry.
pub struct Entry {
    /// Key of the entry; sort order over entries is `lex_lt` on this field.
    pub name: Vec<u8>,
    /// Opaque per-object metadata bytes; `None` marks a plain directory.
    pub metadata: Option<Vec<u8>>,
}

/// Mathematical image of an [`Entry`].
pub struct EntryV {
    pub name: Seq<u8>,
    pub metadata: Option<Seq<u8>>,
}

impl View for Entry {
    type V = EntryV;

    open spec fn view(&self) -> EntryV {
        EntryV {
            name: self.name@,
            metadata: match self.metadata {
                Some(m) => Some(m@),
                None => None,
            },
        }
    }
}

/// The views of a sequence of entries.
pub open spec fn entry_views(s: Seq<Entry>) -> Seq<EntryV> {
    s.map(|i: int, e: Entry| e@)
}

/// Whether an entry stands for a non-leaf branch: it carries no object
/// metadata, or its name ends in the path separator.
pub open spec fn spec_is_dir(e: EntryV) -> bool {
    e.metadata is None || (e.name.len() > 0 && e.name[e.name.len() - 1] == SLASH)
}

/// Strictly ascending, duplicate-free name order: the invariant of every
/// single-disk walk output.
pub open spec fn entries_sorted(s: Seq<EntryV>) -> bool {
    forall|i: int, j: int| 0 <= i < j < s.len() ==> lex_lt(s[i].name, s[j].name)
}

impl Entry {
    /// Whether this entry is a directory placeholder rather than an object.
    pub fn is_dir(&self) -> (r: bool)
        ensures
            r == spec_is_dir(self@),
    {
        match &self.metadata {
            None => true,
            Some(_) => {
                let n = self.name.len();
                n > 0 && self.name[n - 1] == SLASH
            },
        }
    }
}

/// An exact copy of a byte string.
pub fn copy_bytes(v: &Vec<u8>) -> (r: Vec<u8>)
    ensures
        r@ == v@,
{
    let mut r: Vec<u8> = Vec::new();
    let mut i: usize = 0;
    while i < v.len()
        invariant
            i <= v.len(),
            r@ =~= v@.subrange(0, i as int),
        decreases v.len() - i,
    {
        r.push(v[i]);
        i = i + 1;
    }
    proof {
        assert(r@ =~= v@);
    }
    r
}

/// An exact copy of an entry.
pub fn copy_entry(e: &Entry) -> (r: Entry)
    ensures
        r@ == e@,
{
    let metadata = match &e.metadata {
        Some(m) => Some(copy_bytes(m)),
        None => None,
    };
    Entry { name: copy_bytes(&e.name), metadata }
}

/// Byte-identity of two entries: same name, same payload presence and bytes.
pub fn entries_equal(a: &Entry, b: &Entry) -> (r: bool)
    ensures
        r == (a@ == b@),
{
    let names_same = match compare_names(&a.name, &b.name) {
        NameCmp::Same => true,
        _ => false,
    };
    if !names_same {
        return false;
    }
    match (&a.metadata, &b.metadata) {
        (None, None) => true,
        (Some(x), Some(y)) => {
            let r = match compare_names(x, y) {
                NameCmp::Same => true,
                _ => false,
            };
            r
        },
        _ => false,
    }
}

} // verus!
