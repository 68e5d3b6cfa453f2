//! Plaintexts and the end-of-round comparison against the ground truth.

use vstd::prelude::*;

verus! {

broadcast use vstd::array::group_array_axioms;

/// A plaintext as the crypto context produces it: thirty bytes.
pub type Plaintext = [u8; 30];

/// Byte-wise equality of two plaintexts.
pub fn plaintext_eq(a: &Plaintext, b: &Plaintext) -> (r: bool)
    ensures
        r == (*a == *b),
{
    let mut i: usize = 0;
    while i < 30
        invariant
            i <= 30,
            forall|k: int| 0 <= k < i ==> a[k] == b[k],
        decreases 30 - i,
    {
        if a[i] != b[i] {
            return false;
        }
        i = i + 1;
    }
    assert(*a =~= *b);
    true
}

/// Whether `p` occurs in `v`.
pub fn contains_plaintext(v: &Vec<Plaintext>, p: &Plaintext) -> (r: bool)
    ensures
        r == v@.contains(*p),
{
    let mut i: usize = 0;
    while i < v.len()
        invariant
            i <= v@.len(),
            forall|k: int| 0 <= k < i ==> v@[k] != *p,
        decreases v@.len() - i,
    {
        if plaintext_eq(&v[i], p) {
            return true;
        }
        i = i + 1;
    }
    false
}

/// Whether every plaintext of `a` occurs in `b`.
fn all_contained(a: &Vec<Plaintext>, b: &Vec<Plaintext>) -> (r: bool)
    ensures
        r == a@.to_set().subset_of(b@.to_set()),
{
    let mut i: usize = 0;
    while i < a.len()
        invariant
            i <= a@.len(),
            forall|k: int| 0 <= k < i ==> b@.contains(#[trigger] a@[k]),
        decreases a@.len() - i,
    {
        if !contains_plaintext(b, &a[i]) {
            assert(a@.to_set().contains(a@[i as int]));
            return false;
        }
        i = i + 1;
    }
    assert forall|p: Plaintext| a@.to_set().contains(p) implies b@.to_set().contains(p) by {
        let k = choose|k: int| 0 <= k < a@.len() && a@[k] == p;
    }
    true
}

/// Compares the recovered plaintexts with the ground truth as sets: order
/// and repetitions do not matter.
pub fn plaintexts_match(recovered: &Vec<Plaintext>, truth: &Vec<Plaintext>) -> (r: bool)
    ensures
        r == (recovered@.to_set() == truth@.to_set()),
{
    let r = all_contained(recovered, truth) && all_contained(truth, recovered);
    if r {
        assert(recovered@.to_set() =~= truth@.to_set());
    }
    r
}

} // verus!
