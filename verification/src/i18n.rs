//! Language codes: which of the supported interface languages are written
//! right to left (the layout mirrors for those).
use vstd::prelude::*;
use vstd::string::StringSliceAdditionalSpecFns;

verus! {

/// The language codes written right to left: Arabic, Persian and Urdu.
pub open spec fn rtl_code(code: Seq<u8>) -> bool {
    ||| code == "ar".spec_bytes()
    ||| code == "fa".spec_bytes()
    ||| code == "ur".spec_bytes()
}

/// Byte-wise equality of two strings.
fn same_bytes(a: &[u8], b: &[u8]) -> (r: bool)
    ensures
        r == (a@ == b@),
{
    if a.len() != b.len() {
        return false;
    }
    let mut t: usize = 0;
    while t < a.len()
        invariant
            a@.len() == b@.len(),
            t <= a@.len(),
            forall|q: int| 0 <= q < t ==> a@[q] == b@[q],
        decreases a@.len() - t,
    {
        if a[t] != b[t] {
            return false;
        }
        t += 1;
    }
    assert(a@ =~= b@);
    true
}

/// True if `code` is written right-to-left.
pub fn is_rtl(code: &str) -> (r: bool)
    ensures
        r == rtl_code(code.spec_bytes()),
{
    let c = code.as_bytes();
    same_bytes(c, "ar".as_bytes()) || same_bytes(c, "fa".as_bytes()) || same_bytes(c, "ur".as_bytes())
}

} // verus!
