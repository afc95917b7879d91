//! Small questions about archive member names.
use vstd::prelude::*;

verus! {

/// Whether `s` has a `/` in it, that is, whether an archive member of
/// that name lies inside a directory.
pub fn has_dir(s: String) -> (r: bool)
    ensures
        r == s@.contains('/'),
{
    let n = s.unicode_len();
    let mut i: usize = 0;
    while i < n
        invariant
            n == s@.len(),
            0 <= i <= n,
            forall|j: int| 0 <= j < i ==> s@[j] != '/',
        decreases n - i,
    {
        if s.as_str().get_char(i) == '/' {
            return true;
        }
        i = i + 1;
    }
    false
}

} // verus!
