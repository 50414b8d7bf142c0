//! The guarantees of the reconciliation algorithm, stated and proved over
//! the functional model that `reconcile` is pinned to.

use vstd::prelude::*;
use crate::contact::{c_matches, ContactV};
use crate::model::{
    cluster_emails, cluster_phones, cluster_secondary_ids, first_match_from, first_primary_from,
    has_match, is_member, lemma_emails_from_member,
    lemma_first_match_from, lemma_first_match_is, lemma_first_primary_from, lemma_first_primary_is,
    lemma_merged_wf, lemma_phones_from_member, lemma_sec_ids_from_member, lemma_sec_ids_from_skip,
    lemma_survivor_props, lemma_wf_push, merged, needs_new_row, new_primary_v, new_secondary_v,
    reconcile_spec, survivor_id, wf, wf_at,
};

verus! {

/// Graph flatness: a row's link, when present, names an existing row that is
/// itself `Primary` — never another `Secondary`.
pub proof fn lemma_graph_flat(s: Seq<ContactV>, i: int)
    requires
        wf(s),
        0 <= i < s.len(),
        s[i].linked_id is Some,
    ensures
        1 <= s[i].linked_id.unwrap() <= s.len(),
        s[s[i].linked_id.unwrap() - 1].precedence is Primary,
{
    assert(wf_at(s, i));
    assert(wf_at(s, s[i].linked_id.unwrap() - 1));
}

/// Every submission keeps the store well-formed — in particular the link
/// graph stays flat — and grows it by at most one row.
pub proof fn lemma_reconcile_preserves_wf(
    s: Seq<ContactV>,
    e: Option<Seq<char>>,
    p: Option<Seq<char>>,
)
    requires
        wf(s),
        s.len() + 1 < i32::MAX as int,
        e is Some || p is Some,
    ensures
        wf(reconcile_spec(s, e, p).0),
        s.len() <= reconcile_spec(s, e, p).0.len() <= s.len() + 1,
{
    if !has_match(s, e, p) {
        lemma_wf_push(s, new_primary_v(e, p, s.len() as int + 1));
    } else {
        let surv = survivor_id(s, e, p);
        lemma_survivor_props(s, e, p);
        lemma_merged_wf(s, e, p, surv);
        if needs_new_row(s, e, p) {
            lemma_wf_push(
                merged(s, e, p, surv),
                new_secondary_v(e, p, s.len() as int + 1, surv),
            );
        }
    }
}

/// Oldest wins: whenever any matching `Primary` exists, the id a submission
/// resolves to belongs to an existing matching-or-ancestor `Primary`, and no
/// matching `Primary` is older than it — ties cannot arise because ids are
/// assigned in creation order.
pub proof fn lemma_oldest_primary_survives(
    s: Seq<ContactV>,
    e: Option<Seq<char>>,
    p: Option<Seq<char>>,
)
    requires
        wf(s),
        has_match(s, e, p),
    ensures
        reconcile_spec(s, e, p).1 == survivor_id(s, e, p),
        1 <= survivor_id(s, e, p) <= s.len(),
        s[survivor_id(s, e, p) - 1].precedence is Primary,
        forall|k: int|
            0 <= k < s.len() && #[trigger] c_matches(s[k], e, p) && s[k].precedence is Primary
                ==> survivor_id(s, e, p) <= s[k].id,
{
    lemma_survivor_props(s, e, p);
    assert forall|k: int|
        0 <= k < s.len() && #[trigger] c_matches(s[k], e, p)
            && s[k].precedence is Primary implies survivor_id(s, e, p) <= s[k].id by {
        assert(wf_at(s, k));
    }
}

/// A submission matching no existing row creates exactly one new `Primary`
/// carrying the submitted pair, and the new cluster has no secondaries.
pub proof fn lemma_new_identity(s: Seq<ContactV>, e: Option<Seq<char>>, p: Option<Seq<char>>)
    requires
        wf(s),
        s.len() + 1 < i32::MAX as int,
        e is Some || p is Some,
        !has_match(s, e, p),
    ensures
        reconcile_spec(s, e, p).0 == s.push(new_primary_v(e, p, s.len() as int + 1)),
        reconcile_spec(s, e, p).1 == s.len() + 1,
        cluster_secondary_ids(reconcile_spec(s, e, p).0, s.len() as int + 1)
            == Seq::<int>::empty(),
{
    let s2 = reconcile_spec(s, e, p).0;
    let pid = s.len() as int + 1;
    assert forall|k: int| 0 <= k < s2.len() implies (#[trigger] s2[k]).linked_id != Some(pid) by {
        if k < s.len() {
            assert(wf_at(s, k));
        }
    }
    lemma_sec_ids_from_skip(s2, pid, 0, Seq::empty());
}

/// New information under an existing primary: when a submission's email
/// belongs to exactly one row — a `Primary` — and its phone number is new,
/// exactly one new `Secondary` is created under that primary, and the
/// cluster's phone numbers now include the new one.
pub proof fn lemma_new_information(s: Seq<ContactV>, em: Seq<char>, ph: Seq<char>, i: int)
    requires
        wf(s),
        s.len() + 1 < i32::MAX as int,
        0 <= i < s.len(),
        s[i].precedence is Primary,
        s[i].email == Some(em),
        s[i].phone != Some(ph),
        forall|j: int| 0 <= j < s.len() && j != i ==> !c_matches(#[trigger] s[j], Some(em), Some(ph)),
    ensures
        reconcile_spec(s, Some(em), Some(ph)).1 == s[i].id,
        reconcile_spec(s, Some(em), Some(ph)).0 == s.push(
            new_secondary_v(Some(em), Some(ph), s.len() as int + 1, s[i].id),
        ),
        cluster_phones(reconcile_spec(s, Some(em), Some(ph)).0, s[i].id).contains(ph),
{
    let e = Some(em);
    let p = Some(ph);
    assert(wf_at(s, i));
    assert(c_matches(s[i], e, p));
    lemma_first_match_is(s, e, p, i);
    lemma_first_primary_is(s, e, p, i);
    let surv = survivor_id(s, e, p);
    assert(surv == i + 1);
    assert(merged(s, e, p, surv) =~= s) by {
        assert forall|k: int| 0 <= k < s.len() implies merged(s, e, p, surv)[k] == s[k] by {
            assert(wf_at(s, k));
            let c = s[k];
            if c.precedence is Primary {
                if c_matches(c, e, p) {
                    assert(k == i);
                }
            } else {
                let l = c.linked_id.unwrap();
                if c_matches(s[l - 1], e, p) {
                    assert(l - 1 == i);
                }
            }
        }
    }
    assert(!crate::model::phone_among_matches(s, e, p)) by {
        assert forall|k: int|
            0 <= k < s.len() && #[trigger] c_matches(s[k], e, p) implies s[k].phone != p by {
            assert(k == i);
        }
    }
    assert(needs_new_row(s, e, p));
    let s2 = reconcile_spec(s, e, p).0;
    assert(s2 == s.push(new_secondary_v(e, p, s.len() as int + 1, surv)));
    assert(crate::model::is_member(s2, surv, s.len() as int));
    lemma_phones_from_member(s2, surv, 0, Seq::empty(), s.len() as int);
}

/// Merge of two independent identities: when the submitted email belongs to
/// an older `Primary` and the submitted phone number to a younger,
/// independent `Primary`, the younger is demoted under the older, the older
/// is untouched, no row is added, and the older's consolidated view now
/// carries both fields and the younger's id.
pub proof fn lemma_merge_two_primaries(s: Seq<ContactV>, em: Seq<char>, ph: Seq<char>, a: int, b: int)
    requires
        wf(s),
        0 <= a < b < s.len(),
        s[a].precedence is Primary,
        s[a].email == Some(em),
        s[b].precedence is Primary,
        s[b].phone == Some(ph),
        forall|j: int|
            0 <= j < s.len() && c_matches(#[trigger] s[j], Some(em), Some(ph)) ==> j == a || j
                == b,
    ensures
        reconcile_spec(s, Some(em), Some(ph)).1 == s[a].id,
        reconcile_spec(s, Some(em), Some(ph)).0.len() == s.len(),
        reconcile_spec(s, Some(em), Some(ph)).0[a] == s[a],
        reconcile_spec(s, Some(em), Some(ph)).0[b] == (ContactV {
            id: s[b].id,
            email: s[b].email,
            phone: s[b].phone,
            precedence: crate::LinkPrecedence::Secondary,
            linked_id: Some(s[a].id),
        }),
        cluster_emails(reconcile_spec(s, Some(em), Some(ph)).0, s[a].id).contains(em),
        cluster_phones(reconcile_spec(s, Some(em), Some(ph)).0, s[a].id).contains(ph),
        cluster_secondary_ids(reconcile_spec(s, Some(em), Some(ph)).0, s[a].id).contains(s[b].id),
        forall|i: int|
            0 <= i < s.len() && (is_member(s, s[a].id, i) || is_member(s, s[b].id, i))
                ==> #[trigger] is_member(reconcile_spec(s, Some(em), Some(ph)).0, s[a].id, i),
{
    let e = Some(em);
    let p = Some(ph);
    assert(wf_at(s, a));
    assert(wf_at(s, b));
    assert(c_matches(s[a], e, p));
    assert(c_matches(s[b], e, p));
    lemma_first_match_is(s, e, p, a);
    lemma_first_primary_is(s, e, p, a);
    let surv = survivor_id(s, e, p);
    assert(surv == a + 1);
    assert(crate::model::email_among_matches(s, e, p));
    assert(crate::model::phone_among_matches(s, e, p));
    assert(!needs_new_row(s, e, p));
    let m = reconcile_spec(s, e, p).0;
    assert(m == merged(s, e, p, surv));
    assert(m[a] == s[a]);
    assert(m[b] == (ContactV {
        id: s[b].id,
        email: s[b].email,
        phone: s[b].phone,
        precedence: crate::LinkPrecedence::Secondary,
        linked_id: Some(s[a].id),
    }));
    assert(is_member(m, surv, a));
    assert(is_member(m, surv, b));
    lemma_emails_from_member(m, surv, 0, Seq::empty(), a);
    lemma_phones_from_member(m, surv, 0, Seq::empty(), b);
    lemma_sec_ids_from_member(m, surv, 0, Seq::empty(), b);
    // every member of either old cluster is absorbed by the survivor:
    // no member is left behind and no second primary remains
    assert forall|i: int|
        0 <= i < s.len() && (is_member(s, s[a].id, i) || is_member(
            s,
            s[b].id,
            i,
        )) implies #[trigger] is_member(m, s[a].id, i) by {
        assert(wf_at(s, i));
    }
}

/// Every cluster has exactly one `Primary`: within the cluster headed by the
/// primary with id `pid`, the head is the only `Primary` member.
pub proof fn lemma_one_primary_per_cluster(s: Seq<ContactV>, pid: int, i: int)
    requires
        wf(s),
        1 <= pid <= s.len(),
        s[pid - 1].precedence is Primary,
        0 <= i < s.len(),
        is_member(s, pid, i),
        s[i].precedence is Primary,
    ensures
        i == pid - 1,
{
    assert(wf_at(s, i));
}

/// Idempotence: submitting the same pair a second time changes nothing —
/// the store stays exactly as the first submission left it and the same
/// primary id (hence the identical consolidated view) is answered.
pub proof fn lemma_idempotent(s: Seq<ContactV>, e: Option<Seq<char>>, p: Option<Seq<char>>)
    requires
        wf(s),
        s.len() + 1 < i32::MAX as int,
        e is Some || p is Some,
    ensures
        reconcile_spec(reconcile_spec(s, e, p).0, e, p) == reconcile_spec(s, e, p),
{
    let s1 = reconcile_spec(s, e, p).0;
    let pid1 = reconcile_spec(s, e, p).1;
    let n = s.len() as int;
    if !has_match(s, e, p) {
        let c0 = new_primary_v(e, p, n + 1);
        lemma_first_match_from(s, e, p, 0);
        assert(s1 == s.push(c0));
        assert(c_matches(s1[n], e, p));
        assert forall|j: int| 0 <= j < n implies !c_matches(#[trigger] s1[j], e, p) by {
            assert(s1[j] == s[j]);
        }
        lemma_first_match_is(s1, e, p, n);
        lemma_first_primary_is(s1, e, p, n);
        assert(survivor_id(s1, e, p) == n + 1);
        if e is Some {
            assert(s1[n].email == e);
        }
        if p is Some {
            assert(s1[n].phone == p);
        }
        assert(!needs_new_row(s1, e, p));
        assert(merged(s1, e, p, n + 1) =~= s1) by {
            assert forall|k: int| 0 <= k < s1.len() implies merged(s1, e, p, n + 1)[k]
                == s1[k] by {
                if k < n {
                    assert(wf_at(s, k));
                    assert(s1[k] == s[k]);
                    if !(s[k].precedence is Primary) {
                        let l = s[k].linked_id.unwrap();
                        assert(s1[l - 1] == s[l - 1]);
                        assert(!c_matches(s1[l - 1], e, p));
                    }
                }
            }
        }
        assert(reconcile_spec(s1, e, p) == (s1, pid1));
    } else {
        let surv = survivor_id(s, e, p);
        lemma_survivor_props(s, e, p);
        lemma_merged_wf(s, e, p, surv);
        let m = merged(s, e, p, surv);
        let need = needs_new_row(s, e, p);
        let c1 = new_secondary_v(e, p, n + 1, surv);
        if need {
            assert(s1 == m.push(c1));
            lemma_wf_push(m, c1);
            assert forall|k: int| 0 <= k < n implies s1[k] == m[k] by {}
        } else {
            assert(s1 == m);
        }
        assert(wf(s1));
        assert(s1.len() == if need { n + 1 } else { n as int });
        // matching is preserved row by row: the merge changes no email or
        // phone number
        assert forall|k: int| 0 <= k < n implies (c_matches(#[trigger] s1[k], e, p) <==> c_matches(
            s[k],
            e,
            p,
        )) by {
            assert(s1[k] == m[k]);
            assert(m[k].email == s[k].email && m[k].phone == s[k].phone);
        }
        // the oldest match sits at the same position
        let fm = first_match_from(s, e, p, 0);
        lemma_first_match_from(s, e, p, 0);
        assert(c_matches(s1[fm], e, p));
        assert forall|j: int| 0 <= j < fm implies !c_matches(#[trigger] s1[j], e, p) by {}
        lemma_first_match_is(s1, e, p, fm);
        // the survivor resolves to the same id again
        let fp = first_primary_from(s, e, p, 0);
        lemma_first_primary_from(s, e, p, 0);
        if fp < n {
            assert(wf_at(s, fp));
            assert(surv == fp + 1);
            assert(m[fp].precedence is Primary);
            assert(s1[fp] == m[fp]);
            assert(c_matches(s1[fp], e, p));
            assert forall|j: int|
                0 <= j < fp implies !(#[trigger] c_matches(s1[j], e, p)
                && s1[j].precedence is Primary) by {
                if c_matches(s1[j], e, p) && s1[j].precedence is Primary {
                    assert(s1[j] == m[j]);
                    assert(s[j].precedence is Primary);
                    assert(c_matches(s[j], e, p));
                }
            }
            lemma_first_primary_is(s1, e, p, fp);
            assert(m[fp].id == s[fp].id);
            assert(survivor_id(s1, e, p) == surv);
        } else {
            assert forall|k: int|
                0 <= k < s1.len() implies !(#[trigger] c_matches(s1[k], e, p)
                && s1[k].precedence is Primary) by {
                if k < n {
                    if c_matches(s1[k], e, p) && s1[k].precedence is Primary {
                        assert(s1[k] == m[k]);
                        assert(s[k].precedence is Primary);
                        assert(c_matches(s[k], e, p));
                    }
                }
            }
            crate::model::lemma_no_primary_match(s1, e, p);
            assert(wf_at(s, fm));
            assert(!(s[fm].precedence is Primary));
            let l = s[fm].linked_id.unwrap();
            assert(surv == l);
            assert(m[fm] == s[fm]);
            assert(s1[fm].linked_id == Some(surv));
            assert(survivor_id(s1, e, p) == surv);
        }
        // the repeated pair contributes no new field
        if need {
            assert(c_matches(s1[n], e, p));
            if e is Some {
                assert(s1[n].email == e);
            }
            if p is Some {
                assert(s1[n].phone == p);
            }
            assert(!needs_new_row(s1, e, p));
        } else {
            if e is Some {
                let k = choose|k: int|
                    0 <= k < s.len() && #[trigger] c_matches(s[k], e, p) && s[k].email == e;
                assert(c_matches(s1[k], e, p) && s1[k].email == e);
            }
            if p is Some {
                let k = choose|k: int|
                    0 <= k < s.len() && #[trigger] c_matches(s[k], e, p) && s[k].phone == p;
                assert(c_matches(s1[k], e, p) && s1[k].phone == p);
            }
            assert(!needs_new_row(s1, e, p));
        }
        // the second merge touches nothing: the only matching primary left
        // is the survivor itself
        assert(merged(s1, e, p, surv) =~= s1) by {
            assert forall|k: int| 0 <= k < s1.len() implies merged(s1, e, p, surv)[k] == s1[k] by {
                assert(wf_at(s1, k));
                let c = s1[k];
                if c.precedence is Primary {
                    if c_matches(c, e, p) {
                        assert(k < n);
                        assert(s1[k] == m[k]);
                        assert(c_matches(s[k], e, p));
                        assert(s[k].id == surv);
                    }
                } else {
                    let l2 = c.linked_id.unwrap();
                    assert(wf_at(s1, l2 - 1));
                    if c_matches(s1[l2 - 1], e, p) && l2 != surv {
                        assert(l2 - 1 < n);
                        assert(s1[l2 - 1] == m[l2 - 1]);
                        assert(s[l2 - 1].precedence is Primary);
                        assert(c_matches(s[l2 - 1], e, p));
                        assert(s[l2 - 1].id == surv);
                        assert(wf_at(s, l2 - 1));
                    }
                }
            }
        }
        assert(reconcile_spec(s1, e, p) == (s1, pid1));
    }
}

} // verus!
