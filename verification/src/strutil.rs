//! Small verified string utilities.

use vstd::prelude::*;
use vstd::string::StrSliceExecFns;

verus! {

/// Whether two string slices hold the same characters.
pub fn str_eq(a: &str, b: &str) -> (r: bool)
    ensures
        r == (a@ == b@),
{
    let n = a.unicode_len();
    let m = b.unicode_len();
    if n != m {
        return false;
    }
    let mut j: usize = 0;
    loop
        invariant
            0 <= j <= n,
            n == a@.len(),
            n == b@.len(),
            forall|t: int| 0 <= t < j ==> a@[t] == b@[t],
        ensures
            j < n ==> a@[j as int] != b@[j as int],
            j == n ==> forall|t: int| 0 <= t < n ==> a@[t] == b@[t],
        decreases n - j,
    {
        if j >= n {
            break;
        }
        if a.get_char(j) != b.get_char(j) {
            break;
        }
        j = j + 1;
    }
    if j == n {
        proof {
            assert(a@ =~= b@);
        }
        true
    } else {
        proof {
            if a@ == b@ {
                assert(a@[j as int] == b@[j as int]);
            }
        }
        false
    }
}

/// An element-wise copy of a vector of strings, with the copy's contents
/// known to the verifier.
pub fn dup_strings(v: &Vec<String>) -> (r: Vec<String>)
    ensures
        r@ == v@,
{
    let mut r: Vec<String> = Vec::new();
    let mut i: usize = 0;
    while i < v.len()
        invariant
            0 <= i <= v@.len(),
            r@ == v@.subrange(0, i as int),
        decreases v@.len() - i,
    {
        r.push(v[i].clone());
        proof {
            assert(r@ =~= v@.subrange(0, i + 1));
        }
        i = i + 1;
    }
    proof {
        assert(v@.subrange(0, v@.len() as int) =~= v@);
    }
    r
}

} // verus!
