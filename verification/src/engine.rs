//! The reconciliation engine: classifies an incoming submission, issues the
//! store mutations that preserve the identity-graph invariants, and answers
//! the consolidated view.

use vstd::prelude::*;
use crate::contact::{c_matches, clone_opt_string, opt_string_eq, Contact, ContactV, IdentifyBody};
use crate::LinkPrecedence;
use crate::model::{
    cluster_emails, cluster_phones, cluster_secondary_ids, contributes_new, demote_ids_from,
    demotion_ids, email_in_rows, first_match_from, first_primary_from, first_primary_in, has_match,
    lemma_first_match_from, lemma_first_primary_from, lemma_merged_wf, lemma_survivor_props,
    merged, needs_new_row, phone_in_rows, reconcile_spec, survivor_id, survivor_of_matches, wf_at,
};
use crate::response::ContactWrapper;
use crate::store::IdentityStore;

verus! {

/// How a submission can fail.
#[derive(Clone, Copy, PartialEq, Eq, Structural, Debug)]
pub enum IdentityError {
    /// Both identity fields were absent; the store is never touched.
    InvalidRequest,
    /// An invariant of the stored graph was found broken, such as an attempt
    /// to demote a row that is already `Secondary`.
    InternalConsistencyViolation,
}

/// Classifies one submission and applies the mutations it calls for:
/// a brand-new `Primary` when nothing matches, demotions (with re-pointing)
/// when two independent primaries turn out to be the same identity, and a
/// new `Secondary` row when the submission contributes a field not yet
/// stored. Returns the id of the cluster's surviving primary.
pub fn reconcile(
    store: &mut IdentityStore,
    email: &Option<String>,
    phone_number: &Option<String>,
) -> (r: Result<i32, IdentityError>)
    requires
        old(store).wf(),
        old(store)@.len() + 1 < i32::MAX as int,
    ensures
        match r {
            Ok(pid) => {
                &&& email.deep_view() is Some || phone_number.deep_view() is Some
                &&& final(store)@ == reconcile_spec(
                    old(store)@,
                    email.deep_view(),
                    phone_number.deep_view(),
                ).0
                &&& pid as int == reconcile_spec(
                    old(store)@,
                    email.deep_view(),
                    phone_number.deep_view(),
                ).1
                &&& final(store).wf()
            },
            Err(err) => {
                &&& err == IdentityError::InvalidRequest
                &&& email.deep_view() is None && phone_number.deep_view() is None
                &&& final(store)@ == old(store)@
            },
        },
{
    let ghost s = store@;
    let ghost e = email.deep_view();
    let ghost p = phone_number.deep_view();
    if email.is_none() && phone_number.is_none() {
        return Err(IdentityError::InvalidRequest);
    }
    match store.first_match_index(email, phone_number) {
        None => {
            // no row matches: the submission is a brand-new identity
            let id = store.insert_primary(clone_opt_string(email), clone_opt_string(phone_number));
            proof {
                assert(!has_match(s, e, p));
                assert(store@ == reconcile_spec(s, e, p).0);
            }
            Ok(id)
        },
        Some(fm) => {
            let surv: i32 = match store.first_primary_match_index(email, phone_number) {
                Some(fp) => {
                    proof {
                        assert(wf_at(s, fp as int));
                    }
                    store.contact_at(fp).id
                },
                None => {
                    // only secondaries match: follow the oldest match one
                    // hop up to its primary ancestor
                    proof {
                        lemma_first_primary_from(s, e, p, 0);
                        lemma_first_match_from(s, e, p, 0);
                        assert(!(c_matches(s[fm as int], e, p)
                            && s[fm as int].precedence is Primary));
                        assert(wf_at(s, fm as int));
                    }
                    store.contact_at(fm).linked_id.unwrap()
                },
            };
            proof {
                assert(surv as int == survivor_id(s, e, p));
                lemma_survivor_props(s, e, p);
            }
            let need = (email.is_some() && !store.email_present_among_matches(
                email,
                phone_number,
            )) || (phone_number.is_some() && !store.phone_present_among_matches(
                email,
                phone_number,
            ));
            proof {
                assert(need == needs_new_row(s, e, p));
            }
            store.merge_matched_primaries(email, phone_number, surv);
            proof {
                lemma_merged_wf(s, e, p, surv as int);
            }
            if need {
                store.insert_secondary(
                    clone_opt_string(email),
                    clone_opt_string(phone_number),
                    surv,
                );
            }
            proof {
                assert(store@ == reconcile_spec(s, e, p).0);
                assert(surv as int == reconcile_spec(s, e, p).1);
            }
            Ok(surv)
        },
    }
}

/// Reads the surviving primary's id off a matched row list: the oldest
/// `Primary` among the rows, or the primary ancestor of the oldest row when
/// only secondaries matched. `None` on an empty list, or if the oldest row
/// carries no link — with a well-formed store neither arises for a
/// non-empty match.
pub fn surviving_primary_id(matched: &Vec<Contact>) -> (r: Option<i32>)
    ensures
        match r {
            Some(id) => survivor_of_matches(matched.deep_view()) == Some(id as int),
            None => survivor_of_matches(matched.deep_view()) is None,
        },
{
    let ghost m = matched.deep_view();
    let n = matched.len();
    if n == 0 {
        return None;
    }
    for i in 0..n
        invariant
            m == matched.deep_view(),
            n == m.len(),
            n > 0,
            first_primary_in(m, 0) == first_primary_in(m, i as int),
    {
        let c = &matched[i];
        if c.link_precedence == LinkPrecedence::Primary {
            return Some(c.id);
        }
    }
    matched[0].linked_id
}

/// The ids of the matched `Primary` rows that must be demoted under the
/// survivor: every matched `Primary` except the survivor itself, oldest
/// first.
pub fn demotion_targets(matched: &Vec<Contact>, surviving_id: i32) -> (r: Vec<i32>)
    ensures
        r@.len() == demotion_ids(matched.deep_view(), surviving_id as int).len(),
        forall|k: int|
            0 <= k < r@.len() ==> #[trigger] r@[k] as int == demotion_ids(
                matched.deep_view(),
                surviving_id as int,
            )[k],
{
    let ghost m = matched.deep_view();
    let mut r: Vec<i32> = Vec::new();
    let ghost mut g: Seq<int> = Seq::empty();
    let n = matched.len();
    for i in 0..n
        invariant
            m == matched.deep_view(),
            n == m.len(),
            demote_ids_from(m, surviving_id as int, i as int, g) == demotion_ids(
                m,
                surviving_id as int,
            ),
            r@.len() == g.len(),
            forall|k: int| 0 <= k < g.len() ==> #[trigger] r@[k] as int == g[k],
    {
        let c = &matched[i];
        if c.link_precedence == LinkPrecedence::Primary && c.id != surviving_id {
            r.push(c.id);
            proof {
                g = g.push(m[i as int].id);
            }
        }
    }
    r
}

/// Whether a submission contributes a field that none of the matched rows
/// already carries, so that a new `Secondary` row must be inserted.
pub fn contributes_new_information(
    matched: &Vec<Contact>,
    email: &Option<String>,
    phone_number: &Option<String>,
) -> (r: bool)
    ensures
        r == contributes_new(matched.deep_view(), email.deep_view(), phone_number.deep_view()),
{
    let ghost m = matched.deep_view();
    let ghost e = email.deep_view();
    let ghost p = phone_number.deep_view();
    let n = matched.len();
    let mut email_seen = false;
    let mut phone_seen = false;
    for i in 0..n
        invariant
            m == matched.deep_view(),
            e == email.deep_view(),
            p == phone_number.deep_view(),
            n == m.len(),
            email_seen ==> email_in_rows(m, e),
            !email_seen ==> forall|k: int| 0 <= k < i ==> (#[trigger] m[k]).email != e,
            phone_seen ==> phone_in_rows(m, p),
            !phone_seen ==> forall|k: int| 0 <= k < i ==> (#[trigger] m[k]).phone != p,
    {
        let c = &matched[i];
        if !email_seen && opt_string_eq(&c.email, email) {
            proof {
                assert(m[i as int].email == e);
            }
            email_seen = true;
        }
        if !phone_seen && opt_string_eq(&c.phone_number, phone_number) {
            proof {
                assert(m[i as int].phone == p);
            }
            phone_seen = true;
        }
    }
    (email.is_some() && !email_seen) || (phone_number.is_some() && !phone_seen)
}

/// Handles one submission end to end: validates it, reconciles it into the
/// store, and answers the consolidated view of the resulting cluster.
pub fn identify(store: &mut IdentityStore, body: &IdentifyBody) -> (r: Result<
    ContactWrapper,
    IdentityError,
>)
    requires
        old(store).wf(),
        old(store)@.len() + 1 < i32::MAX as int,
    ensures
        match r {
            Ok(w) => {
                &&& body.email.deep_view() is Some || body.phone_number.deep_view() is Some
                &&& final(store)@ == reconcile_spec(
                    old(store)@,
                    body.email.deep_view(),
                    body.phone_number.deep_view(),
                ).0
                &&& final(store).wf()
                &&& w.contact.primary_contact_id as int == reconcile_spec(
                    old(store)@,
                    body.email.deep_view(),
                    body.phone_number.deep_view(),
                ).1
                &&& w.contact.emails.deep_view() == cluster_emails(
                    final(store)@,
                    w.contact.primary_contact_id as int,
                )
                &&& w.contact.phone_numbers.deep_view() == cluster_phones(
                    final(store)@,
                    w.contact.primary_contact_id as int,
                )
                &&& w.contact.secondary_contact_ids@.len() == cluster_secondary_ids(
                    final(store)@,
                    w.contact.primary_contact_id as int,
                ).len()
                &&& forall|k: int|
                    0 <= k < w.contact.secondary_contact_ids@.len()
                        ==> #[trigger] w.contact.secondary_contact_ids@[k] as int
                        == cluster_secondary_ids(
                        final(store)@,
                        w.contact.primary_contact_id as int,
                    )[k]
            },
            Err(err) => {
                &&& err == IdentityError::InvalidRequest
                &&& body.email.deep_view() is None && body.phone_number.deep_view() is None
                &&& final(store)@ == old(store)@
            },
        },
{
    match reconcile(store, &body.email, &body.phone_number) {
        Err(err) => Err(err),
        Ok(pid) => Ok(ContactWrapper { contact: store.cluster_of(pid) }),
    }
}

} // verus!
