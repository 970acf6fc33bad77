//! Namespace URIs and qualified-name matching.

use vstd::prelude::*;

verus! {

/// WordprocessingML main namespace.
pub const W_NS: &'static str = "http://schemas.openxmlformats.org/wordprocessingml/2006/main";

/// Relationships namespace.
pub const R_NS: &'static str = "http://schemas.openxmlformats.org/officeDocument/2006/relationships";

/// Markup compatibility namespace.
pub const MC_NS: &'static str = "http://schemas.openxmlformats.org/markup-compatibility/2006";

/// Office math namespace.
pub const M_NS: &'static str = "http://schemas.openxmlformats.org/officeDocument/2006/math";

/// The position of the first `:` in a qualified name.
pub open spec fn first_colon(tag: Seq<u8>) -> Option<int>
    decreases tag.len(),
{
    if tag.len() == 0 {
        None
    } else if tag[0] == 58u8 {
        Some(0)
    } else {
        match first_colon(tag.drop_first()) {
            Some(i) => Some(i + 1),
            None => None,
        }
    }
}

/// Whether the tag, with or without its prefix, is `local_name`: the whole
/// tag equals it, or the part after the first `:` does.
pub open spec fn local_name_matches(tag: Seq<u8>, local_name: Seq<u8>) -> bool {
    tag == local_name || (first_colon(tag) matches Some(p) && tag.skip(p + 1) == local_name)
}

/// Check if a qualified name matches a local name, ignoring any prefix.
pub fn matches_local_name(tag: &[u8], local_name: &[u8]) -> (r: bool)
    ensures
        r == local_name_matches(tag@, local_name@),
{
    proof { assert(tag@.skip(0) =~= tag@); }
    if bytes_eq(tag, local_name, 0) {
        return true;
    }
    let mut i: usize = 0;
    while i < tag.len()
        invariant
            i <= tag@.len(),
            tag@ != local_name@,
            first_colon(tag@) == match first_colon(tag@.skip(i as int)) {
                Some(k) => Some(k + i),
                None => None,
            },
        decreases tag@.len() - i,
    {
        proof { assert(tag@.skip(i as int).drop_first() =~= tag@.skip(i + 1)); }
        if tag[i] == 58u8 {
            proof { assert(tag@.skip(i as int)[0] == 58u8); }
            let r = bytes_eq(tag, local_name, i + 1);
            return r;
        }
        i = i + 1;
    }
    proof { assert(tag@.skip(i as int) =~= Seq::<u8>::empty()); }
    false
}

/// Whether `a` from position `start` on equals `b`.
fn bytes_eq(a: &[u8], b: &[u8], start: usize) -> (r: bool)
    requires
        start <= a@.len(),
    ensures
        r == (a@.skip(start as int) == b@),
{
    let alen = a.len();
    if alen - start != b.len() {
        proof {
            assert(a@.skip(start as int).len() != b@.len());
        }
        return false;
    }
    let mut k: usize = 0;
    while k < b.len()
        invariant
            start <= a@.len(),
            a@.len() - start == b@.len(),
            a@.len() == alen,
            k <= b@.len(),
            forall|m: int| 0 <= m < k ==> a@[start + m] == b@[m],
        decreases b@.len() - k,
    {
        if a[start + k] != b[k] {
            proof { assert(a@.skip(start as int)[k as int] != b@[k as int]); }
            return false;
        }
        k = k + 1;
    }
    proof { assert(a@.skip(start as int) =~= b@); }
    true
}

} // verus!
