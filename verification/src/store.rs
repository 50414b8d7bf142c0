//! The identity store: durable table of [`Contact`] rows and the mutation
//! primitives that keep the link graph consistent.

use vstd::prelude::*;
use crate::LinkPrecedence;
use crate::contact::{c_matches, clone_opt_string, contact_matches, opt_string_eq, Contact, ContactV};
use crate::engine::IdentityError;
use crate::model::{
    cluster_emails, cluster_phones, cluster_secondary_ids, demoted, demoted_at,
    email_among_matches, emails_from, first_match_from, first_primary_from, is_member,
    lemma_demoted_wf, lemma_merged_wf, lemma_wf_push, matched_of, matches_from, merged, merged_at,
    new_primary_v, new_secondary_v, phone_among_matches, phones_from, sec_ids_from, wf, wf_at,
};
use crate::response::{vec_contains_string, ContactResponse};

verus! {

/// The store of every contact row, in creation order. Ids are assigned
/// densely from 1, so the position of a row, its id, and its creation time
/// order all agree.
pub struct IdentityStore {
    contacts: Vec<Contact>,
}

impl View for IdentityStore {
    type V = Seq<ContactV>;

    closed spec fn view(&self) -> Seq<ContactV> {
        self.contacts.deep_view()
    }
}

impl IdentityStore {
    /// The store invariant; see [`wf`].
    pub open spec fn wf(&self) -> bool {
        wf(self@)
    }

    /// An empty store.
    pub fn new() -> (s: Self)
        ensures
            s@ == Seq::<ContactV>::empty(),
            s.wf(),
    {
        let s = IdentityStore { contacts: Vec::new() };
        proof {
            assert(s@ =~= Seq::<ContactV>::empty());
        }
        s
    }

    /// How many rows the store holds.
    pub fn contact_count(&self) -> (n: usize)
        ensures
            n == self@.len(),
    {
        self.contacts.len()
    }

    /// The row at position `i` (so the row whose id is `i + 1`).
    pub fn contact_at(&self, i: usize) -> (c: &Contact)
        requires
            i < self@.len(),
        ensures
            c@ == self@[i as int],
    {
        &self.contacts[i]
    }

    /// Every row whose email or phone number equals the submitted one,
    /// oldest first.
    pub fn find_matching(&self, email: &Option<String>, phone_number: &Option<String>) -> (r: Vec<
        Contact,
    >)
        ensures
            r.deep_view() == matched_of(self@, email.deep_view(), phone_number.deep_view()),
    {
        let ghost e = email.deep_view();
        let ghost p = phone_number.deep_view();
        let mut r: Vec<Contact> = Vec::new();
        proof {
            assert(r.deep_view() =~= Seq::<ContactV>::empty());
        }
        let n = self.contacts.len();
        for i in 0..n
            invariant
                n == self@.len(),
                e == email.deep_view(),
                p == phone_number.deep_view(),
                matches_from(self@, e, p, i as int, r.deep_view()) == matched_of(self@, e, p),
        {
            let c = &self.contacts[i];
            if contact_matches(c, email, phone_number) {
                let ghost prev = r.deep_view();
                r.push(c.clone());
                proof {
                    assert(r.deep_view() =~= prev.push(self@[i as int]));
                }
            }
        }
        r
    }

    /// Position of the oldest matching row, if any.
    pub fn first_match_index(&self, email: &Option<String>, phone_number: &Option<String>) -> (r:
        Option<usize>)
        ensures
            match r {
                Some(k) => k as int == first_match_from(
                    self@,
                    email.deep_view(),
                    phone_number.deep_view(),
                    0,
                ) && (k as int) < self@.len(),
                None => first_match_from(self@, email.deep_view(), phone_number.deep_view(), 0)
                    == self@.len(),
            },
    {
        let ghost e = email.deep_view();
        let ghost p = phone_number.deep_view();
        let n = self.contacts.len();
        for i in 0..n
            invariant
                n == self@.len(),
                e == email.deep_view(),
                p == phone_number.deep_view(),
                first_match_from(self@, e, p, 0) == first_match_from(self@, e, p, i as int),
        {
            if contact_matches(&self.contacts[i], email, phone_number) {
                return Some(i);
            }
        }
        None
    }

    /// Position of the oldest matching `Primary` row, if any.
    pub fn first_primary_match_index(
        &self,
        email: &Option<String>,
        phone_number: &Option<String>,
    ) -> (r: Option<usize>)
        ensures
            match r {
                Some(k) => k as int == first_primary_from(
                    self@,
                    email.deep_view(),
                    phone_number.deep_view(),
                    0,
                ) && (k as int) < self@.len(),
                None => first_primary_from(self@, email.deep_view(), phone_number.deep_view(), 0)
                    == self@.len(),
            },
    {
        let ghost e = email.deep_view();
        let ghost p = phone_number.deep_view();
        let n = self.contacts.len();
        for i in 0..n
            invariant
                n == self@.len(),
                e == email.deep_view(),
                p == phone_number.deep_view(),
                first_primary_from(self@, e, p, 0) == first_primary_from(self@, e, p, i as int),
        {
            let c = &self.contacts[i];
            if c.link_precedence == LinkPrecedence::Primary && contact_matches(
                c,
                email,
                phone_number,
            ) {
                return Some(i);
            }
        }
        None
    }

    /// Whether the submitted email already stands on some matching row.
    pub fn email_present_among_matches(
        &self,
        email: &Option<String>,
        phone_number: &Option<String>,
    ) -> (r: bool)
        ensures
            r == email_among_matches(self@, email.deep_view(), phone_number.deep_view()),
    {
        let ghost e = email.deep_view();
        let ghost p = phone_number.deep_view();
        let n = self.contacts.len();
        for i in 0..n
            invariant
                n == self@.len(),
                e == email.deep_view(),
                p == phone_number.deep_view(),
                forall|k: int|
                    0 <= k < i ==> !(#[trigger] c_matches(self@[k], e, p) && self@[k].email == e),
        {
            let c = &self.contacts[i];
            if contact_matches(c, email, phone_number) && opt_string_eq(&c.email, email) {
                proof {
                    assert(c_matches(self@[i as int], e, p) && self@[i as int].email == e);
                }
                return true;
            }
        }
        false
    }

    /// Whether the submitted phone number already stands on some matching
    /// row.
    pub fn phone_present_among_matches(
        &self,
        email: &Option<String>,
        phone_number: &Option<String>,
    ) -> (r: bool)
        ensures
            r == phone_among_matches(self@, email.deep_view(), phone_number.deep_view()),
    {
        let ghost e = email.deep_view();
        let ghost p = phone_number.deep_view();
        let n = self.contacts.len();
        for i in 0..n
            invariant
                n == self@.len(),
                e == email.deep_view(),
                p == phone_number.deep_view(),
                forall|k: int|
                    0 <= k < i ==> !(#[trigger] c_matches(self@[k], e, p) && self@[k].phone == p),
        {
            let c = &self.contacts[i];
            if contact_matches(c, email, phone_number) && opt_string_eq(&c.phone_number, phone_number) {
                proof {
                    assert(c_matches(self@[i as int], e, p) && self@[i as int].phone == p);
                }
                return true;
            }
        }
        false
    }

    /// The merge step of one submission: every matching `Primary` other
    /// than the survivor is demoted to `Secondary` under the survivor, and
    /// the secondaries of each demoted row are re-pointed at the survivor,
    /// so the link graph stays flat.
    pub fn merge_matched_primaries(
        &mut self,
        email: &Option<String>,
        phone_number: &Option<String>,
        surviving_id: i32,
    )
        requires
            old(self).wf(),
            1 <= surviving_id as int <= old(self)@.len(),
            old(self)@[surviving_id as int - 1].precedence is Primary,
            forall|k: int|
                0 <= k < old(self)@.len() && #[trigger] c_matches(
                    old(self)@[k],
                    email.deep_view(),
                    phone_number.deep_view(),
                ) && old(self)@[k].precedence is Primary ==> surviving_id as int <= k + 1,
        ensures
            final(self)@ == merged(
                old(self)@,
                email.deep_view(),
                phone_number.deep_view(),
                surviving_id as int,
            ),
            final(self).wf(),
    {
        let ghost s = self@;
        let ghost e = email.deep_view();
        let ghost p = phone_number.deep_view();
        let mut out: Vec<Contact> = Vec::new();
        let n = self.contacts.len();
        for i in 0..n
            invariant
                self@ == s,
                self.wf(),
                n == s.len(),
                e == email.deep_view(),
                p == phone_number.deep_view(),
                1 <= surviving_id as int <= s.len(),
                out.deep_view().len() == i,
                forall|k: int|
                    0 <= k < i ==> out.deep_view()[k] == merged_at(
                        s,
                        e,
                        p,
                        surviving_id as int,
                        k,
                    ),
        {
            proof {
                assert(wf_at(s, i as int));
            }
            let ghost prev = out.deep_view();
            let c = &self.contacts[i];
            if c.link_precedence == LinkPrecedence::Primary {
                if contact_matches(c, email, phone_number) && c.id != surviving_id {
                    out.push(
                        Contact {
                            id: c.id,
                            linked_id: Some(surviving_id),
                            email: clone_opt_string(&c.email),
                            phone_number: clone_opt_string(&c.phone_number),
                            link_precedence: LinkPrecedence::Secondary,
                        },
                    );
                } else {
                    out.push(c.clone());
                }
            } else {
                let l = match c.linked_id {
                    Some(l) => l,
                    None => 0,
                };
                proof {
                    assert(s[i as int].linked_id is Some);
                    assert(1 <= l as int <= i as int);
                    assert(wf_at(s, l as int - 1));
                }
                let target = &self.contacts[(l - 1) as usize];
                if l != surviving_id && contact_matches(target, email, phone_number) {
                    out.push(
                        Contact {
                            id: c.id,
                            linked_id: Some(surviving_id),
                            email: clone_opt_string(&c.email),
                            phone_number: clone_opt_string(&c.phone_number),
                            link_precedence: LinkPrecedence::Secondary,
                        },
                    );
                } else {
                    out.push(c.clone());
                }
            }
            proof {
                assert(out.deep_view().len() == i + 1);
                assert forall|k: int| 0 <= k < i + 1 implies out.deep_view()[k] == merged_at(
                    s,
                    e,
                    p,
                    surviving_id as int,
                    k,
                ) by {
                    if k < i {
                        assert(out.deep_view()[k] == prev[k]);
                    } else {
                        assert(out.deep_view()[i as int] == out@[i as int]@);
                    }
                }
            }
        }
        self.contacts = out;
        proof {
            assert(self@ =~= merged(s, e, p, surviving_id as int));
            lemma_merged_wf(s, e, p, surviving_id as int);
        }
    }

    /// Creates a brand-new `Primary` row carrying the submitted pair and
    /// returns its id.
    pub fn insert_primary(&mut self, email: Option<String>, phone_number: Option<String>) -> (id:
        i32)
        requires
            old(self).wf(),
            old(self)@.len() + 1 < i32::MAX as int,
            email is Some || phone_number is Some,
        ensures
            id as int == old(self)@.len() + 1,
            final(self)@ == old(self)@.push(
                new_primary_v(
                    email.deep_view(),
                    phone_number.deep_view(),
                    old(self)@.len() as int + 1,
                ),
            ),
            final(self).wf(),
    {
        let ghost pre = self@;
        let id = (self.contacts.len() as i32) + 1;
        let c = Contact {
            id,
            linked_id: None,
            email,
            phone_number,
            link_precedence: LinkPrecedence::Primary,
        };
        self.contacts.push(c);
        proof {
            assert(self@ =~= pre.push(
                new_primary_v(email.deep_view(), phone_number.deep_view(), pre.len() as int + 1),
            ));
            lemma_wf_push(
                pre,
                new_primary_v(email.deep_view(), phone_number.deep_view(), pre.len() as int + 1),
            );
        }
        id
    }

    /// Creates a new `Secondary` row carrying the submitted pair under the
    /// existing primary with id `linked_id`, and returns the new row's id.
    pub fn insert_secondary(
        &mut self,
        email: Option<String>,
        phone_number: Option<String>,
        linked_id: i32,
    ) -> (id: i32)
        requires
            old(self).wf(),
            old(self)@.len() + 1 < i32::MAX as int,
            email is Some || phone_number is Some,
            1 <= linked_id as int <= old(self)@.len(),
            old(self)@[linked_id as int - 1].precedence is Primary,
        ensures
            id as int == old(self)@.len() + 1,
            final(self)@ == old(self)@.push(
                new_secondary_v(
                    email.deep_view(),
                    phone_number.deep_view(),
                    old(self)@.len() as int + 1,
                    linked_id as int,
                ),
            ),
            final(self).wf(),
    {
        let ghost pre = self@;
        let id = (self.contacts.len() as i32) + 1;
        let c = Contact {
            id,
            linked_id: Some(linked_id),
            email,
            phone_number,
            link_precedence: LinkPrecedence::Secondary,
        };
        self.contacts.push(c);
        proof {
            assert(self@ =~= pre.push(
                new_secondary_v(
                    email.deep_view(),
                    phone_number.deep_view(),
                    pre.len() as int + 1,
                    linked_id as int,
                ),
            ));
            lemma_wf_push(
                pre,
                new_secondary_v(
                    email.deep_view(),
                    phone_number.deep_view(),
                    pre.len() as int + 1,
                    linked_id as int,
                ),
            );
        }
        id
    }

    /// The consolidated view of the cluster headed by `primary_contact_id`:
    /// distinct emails and phone numbers across the primary and its
    /// secondaries in creation order (the primary, as the oldest member,
    /// contributes first), and the secondary ids ascending.
    pub fn cluster_of(&self, primary_contact_id: i32) -> (r: ContactResponse)
        ensures
            r.primary_contact_id == primary_contact_id,
            r.emails.deep_view() == cluster_emails(self@, primary_contact_id as int),
            r.phone_numbers.deep_view() == cluster_phones(self@, primary_contact_id as int),
            r.secondary_contact_ids@.len() == cluster_secondary_ids(
                self@,
                primary_contact_id as int,
            ).len(),
            forall|k: int|
                0 <= k < r.secondary_contact_ids@.len()
                    ==> #[trigger] r.secondary_contact_ids@[k] as int == cluster_secondary_ids(
                    self@,
                    primary_contact_id as int,
                )[k],
    {
        let ghost s = self@;
        let ghost pid = primary_contact_id as int;
        let n = self.contacts.len();

        let mut emails: Vec<String> = Vec::new();
        proof {
            assert(emails.deep_view() =~= Seq::<Seq<char>>::empty());
        }
        for i in 0..n
            invariant
                n == s.len(),
                s == self@,
                pid == primary_contact_id as int,
                emails_from(s, pid, i as int, emails.deep_view()) == cluster_emails(s, pid),
        {
            let c = &self.contacts[i];
            let memb = c.id == primary_contact_id || (match c.linked_id {
                Some(l) => l == primary_contact_id,
                None => false,
            });
            proof {
                assert(memb == is_member(s, pid, i as int));
            }
            if memb {
                match &c.email {
                    Some(em) => {
                        if !vec_contains_string(&emails, em) {
                            let ghost prev = emails.deep_view();
                            emails.push(em.clone());
                            proof {
                                assert(emails.deep_view() =~= prev.push(em@));
                            }
                        }
                    },
                    None => {},
                }
            }
        }

        let mut phone_numbers: Vec<String> = Vec::new();
        proof {
            assert(phone_numbers.deep_view() =~= Seq::<Seq<char>>::empty());
        }
        for i in 0..n
            invariant
                n == s.len(),
                s == self@,
                pid == primary_contact_id as int,
                phones_from(s, pid, i as int, phone_numbers.deep_view()) == cluster_phones(s, pid),
        {
            let c = &self.contacts[i];
            let memb = c.id == primary_contact_id || (match c.linked_id {
                Some(l) => l == primary_contact_id,
                None => false,
            });
            proof {
                assert(memb == is_member(s, pid, i as int));
            }
            if memb {
                match &c.phone_number {
                    Some(ph) => {
                        if !vec_contains_string(&phone_numbers, ph) {
                            let ghost prev = phone_numbers.deep_view();
                            phone_numbers.push(ph.clone());
                            proof {
                                assert(phone_numbers.deep_view() =~= prev.push(ph@));
                            }
                        }
                    },
                    None => {},
                }
            }
        }

        let mut secondary_contact_ids: Vec<i32> = Vec::new();
        let ghost mut gids: Seq<int> = Seq::empty();
        for i in 0..n
            invariant
                n == s.len(),
                s == self@,
                pid == primary_contact_id as int,
                sec_ids_from(s, pid, i as int, gids) == cluster_secondary_ids(s, pid),
                secondary_contact_ids@.len() == gids.len(),
                forall|k: int|
                    0 <= k < gids.len()
                        ==> #[trigger] secondary_contact_ids@[k] as int == gids[k],
        {
            let c = &self.contacts[i];
            let linked = match c.linked_id {
                Some(l) => l == primary_contact_id,
                None => false,
            };
            if linked {
                secondary_contact_ids.push(c.id);
                proof {
                    gids = gids.push(s[i as int].id);
                }
            }
        }

        ContactResponse { primary_contact_id, emails, phone_numbers, secondary_contact_ids }
    }

    /// Demotes the `Primary` row with id `id` to `Secondary` under the older
    /// primary with id `linked_id`, re-pointing the demoted row's own
    /// secondaries so the graph stays flat. Fails, changing nothing, when no
    /// such row exists or the target is already `Secondary` — an internal
    /// consistency error, since callers only ever demote primaries.
    pub fn demote_to_secondary(&mut self, id: i32, linked_id: i32) -> (r: Result<
        (),
        IdentityError,
    >)
        requires
            old(self).wf(),
            1 <= linked_id as int,
            (linked_id as int) < id as int,
            old(self)@[linked_id as int - 1].precedence is Primary,
        ensures
            match r {
                Ok(()) => {
                    &&& 1 <= id as int <= old(self)@.len()
                    &&& old(self)@[id as int - 1].precedence is Primary
                    &&& final(self)@ == demoted(old(self)@, id as int, linked_id as int)
                    &&& final(self).wf()
                },
                Err(err) => {
                    &&& err == IdentityError::InternalConsistencyViolation
                    &&& final(self)@ == old(self)@
                    &&& !(1 <= id as int <= old(self)@.len() && old(self)@[id as int
                        - 1].precedence is Primary)
                },
            },
    {
        let ghost s = self@;
        let n = self.contacts.len();
        if id < 1 || (id as usize) > n {
            return Err(IdentityError::InternalConsistencyViolation);
        }
        let idx = (id as usize) - 1;
        proof {
            assert(wf_at(s, idx as int));
        }
        if self.contacts[idx].link_precedence == LinkPrecedence::Secondary {
            return Err(IdentityError::InternalConsistencyViolation);
        }
        let mut out: Vec<Contact> = Vec::new();
        for i in 0..n
            invariant
                self@ == s,
                self.wf(),
                n == s.len(),
                1 <= linked_id as int,
                (linked_id as int) < id as int,
                id as int <= s.len(),
                out.deep_view().len() == i,
                forall|k: int|
                    0 <= k < i ==> out.deep_view()[k] == demoted_at(
                        s,
                        id as int,
                        linked_id as int,
                        k,
                    ),
        {
            let ghost prev = out.deep_view();
            let c = &self.contacts[i];
            let relink = match c.linked_id {
                Some(l) => l == id,
                None => false,
            };
            if c.id == id {
                out.push(
                    Contact {
                        id: c.id,
                        linked_id: Some(linked_id),
                        email: clone_opt_string(&c.email),
                        phone_number: clone_opt_string(&c.phone_number),
                        link_precedence: LinkPrecedence::Secondary,
                    },
                );
            } else if relink {
                out.push(
                    Contact {
                        id: c.id,
                        linked_id: Some(linked_id),
                        email: clone_opt_string(&c.email),
                        phone_number: clone_opt_string(&c.phone_number),
                        link_precedence: c.link_precedence,
                    },
                );
            } else {
                out.push(c.clone());
            }
            proof {
                assert forall|k: int| 0 <= k < i + 1 implies out.deep_view()[k] == demoted_at(
                    s,
                    id as int,
                    linked_id as int,
                    k,
                ) by {
                    if k < i {
                        assert(out.deep_view()[k] == prev[k]);
                    } else {
                        assert(out.deep_view()[i as int] == out@[i as int]@);
                    }
                }
            }
        }
        self.contacts = out;
        proof {
            assert(self@ =~= demoted(s, id as int, linked_id as int));
            lemma_demoted_wf(s, id as int, linked_id as int);
        }
        Ok(())
    }
}

} // verus!
