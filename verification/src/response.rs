//! The consolidated view of one identity cluster, as answered to callers.

use vstd::prelude::*;

verus! {

/// The consolidated view of a cluster: the surviving primary's id, the
/// distinct emails and phone numbers across the cluster (the primary's own
/// first, then by first appearance), and the secondary ids in ascending
/// order.
pub struct ContactResponse {
    pub primary_contact_id: i32,
    pub emails: Vec<String>,
    pub phone_numbers: Vec<String>,
    pub secondary_contact_ids: Vec<i32>,
}

/// The envelope a successful submission is answered with.
pub struct ContactWrapper {
    pub contact: ContactResponse,
}

/// Whether `v` already holds a string with the characters of `s`.
pub fn vec_contains_string(v: &Vec<String>, s: &String) -> (r: bool)
    ensures
        r == v.deep_view().contains(s@),
{
    let n = v.len();
    for i in 0..n
        invariant
            n == v.len(),
            forall|k: int| 0 <= k < i ==> v.deep_view()[k] != s@,
    {
        if v[i].eq(s) {
            proof {
                assert(v.deep_view()[i as int] == s@);
            }
            return true;
        }
    }
    proof {
        assert forall|k: int| 0 <= k < v.deep_view().len() implies v.deep_view()[k] != s@ by {}
    }
    false
}

} // verus!
