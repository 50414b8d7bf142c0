//! The `Contact` record and its mathematical model.

use vstd::prelude::*;
use crate::LinkPrecedence;

verus! {

/// Mathematical model of a stored contact row: the id as an unbounded
/// integer, the two contact fields as optional character sequences, and the
/// link to the primary ancestor, if any.
pub ghost struct ContactV {
    pub id: int,
    pub email: Option<Seq<char>>,
    pub phone: Option<Seq<char>>,
    pub precedence: LinkPrecedence,
    pub linked_id: Option<int>,
}

/// One row of the identity store. `linked_id` is present if and only if the
/// row is a `Secondary`, and then names the id of its `Primary` ancestor.
pub struct Contact {
    pub id: i32,
    pub linked_id: Option<i32>,
    pub email: Option<String>,
    pub phone_number: Option<String>,
    pub link_precedence: LinkPrecedence,
}

impl View for Contact {
    type V = ContactV;

    open spec fn view(&self) -> ContactV {
        ContactV {
            id: self.id as int,
            email: self.email.deep_view(),
            phone: self.phone_number.deep_view(),
            precedence: self.link_precedence,
            linked_id: match self.linked_id {
                Some(l) => Some(l as int),
                None => None,
            },
        }
    }
}

impl DeepView for Contact {
    type V = ContactV;

    open spec fn deep_view(&self) -> ContactV {
        self.view()
    }
}

impl Clone for Contact {
    fn clone(&self) -> (r: Self)
        ensures
            r@ == self@,
    {
        Contact {
            id: self.id,
            linked_id: self.linked_id,
            email: clone_opt_string(&self.email),
            phone_number: clone_opt_string(&self.phone_number),
            link_precedence: self.link_precedence,
        }
    }
}

/// An incoming submission: at least one of the two fields must be present
/// for the submission to be accepted.
pub struct IdentifyBody {
    pub email: Option<String>,
    pub phone_number: Option<String>,
}

/// Clones an optional string, preserving its value exactly.
pub fn clone_opt_string(o: &Option<String>) -> (r: Option<String>)
    ensures
        r.deep_view() == o.deep_view(),
{
    match o {
        Some(s) => Some(s.clone()),
        None => None,
    }
}

/// Value equality of two optional strings.
pub fn opt_string_eq(a: &Option<String>, b: &Option<String>) -> (r: bool)
    ensures
        r == (a.deep_view() == b.deep_view()),
{
    match (a, b) {
        (Some(x), Some(y)) => x.eq(y),
        (None, None) => true,
        _ => false,
    }
}

/// Whether a stored row matches a submission: equal on the submitted email
/// or equal on the submitted phone number (an absent field matches nothing).
pub open spec fn c_matches(c: ContactV, e: Option<Seq<char>>, p: Option<Seq<char>>) -> bool {
    (e is Some && c.email == e) || (p is Some && c.phone == p)
}

/// Executable counterpart of [`c_matches`].
pub fn contact_matches(c: &Contact, email: &Option<String>, phone_number: &Option<String>) -> (r:
    bool)
    ensures
        r == c_matches(c@, email.deep_view(), phone_number.deep_view()),
{
    (email.is_some() && opt_string_eq(&c.email, email)) || (phone_number.is_some()
        && opt_string_eq(&c.phone_number, phone_number))
}

} // verus!
