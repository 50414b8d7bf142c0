//! Functional model of the identity store and of one reconciliation step.
//!
//! The store is modelled as a sequence of [`ContactV`] rows in creation
//! order; ids are assigned densely from 1, so creation order, id order and
//! sequence order all coincide, which realises the "oldest first, ties by
//! lowest id" ordering demanded of the store.

use vstd::prelude::*;
use crate::LinkPrecedence;
use crate::contact::{c_matches, ContactV};

verus! {

/// Well-formedness of one row within the store.
pub open spec fn wf_at(s: Seq<ContactV>, i: int) -> bool {
    let c = s[i];
    &&& c.id == i + 1
    &&& (c.email is Some || c.phone is Some)
    &&& (c.precedence is Primary <==> c.linked_id is None)
    &&& match c.linked_id {
        Some(l) => 1 <= l <= i && s[l - 1].precedence is Primary,
        None => true,
    }
}

/// Well-formedness of the whole store: ids are dense from 1 (so every id
/// fits in an `i32`), every row carries at least one contact field, a row is
/// `Primary` exactly when it has no link, and every link points to a strictly
/// older row that is itself `Primary` — the graph is flat.
pub open spec fn wf(s: Seq<ContactV>) -> bool {
    &&& s.len() < i32::MAX as int
    &&& forall|i: int| 0 <= i < s.len() ==> #[trigger] wf_at(s, i)
}

/// Index of the first row at or after `i` that matches the submission;
/// `s.len()` if none does.
pub open spec fn first_match_from(
    s: Seq<ContactV>,
    e: Option<Seq<char>>,
    p: Option<Seq<char>>,
    i: int,
) -> int
    decreases s.len() - i,
{
    if i < 0 || i >= s.len() {
        s.len() as int
    } else if c_matches(s[i], e, p) {
        i
    } else {
        first_match_from(s, e, p, i + 1)
    }
}

/// Index of the first matching `Primary` row at or after `i`; `s.len()` if
/// none exists.
pub open spec fn first_primary_from(
    s: Seq<ContactV>,
    e: Option<Seq<char>>,
    p: Option<Seq<char>>,
    i: int,
) -> int
    decreases s.len() - i,
{
    if i < 0 || i >= s.len() {
        s.len() as int
    } else if c_matches(s[i], e, p) && s[i].precedence is Primary {
        i
    } else {
        first_primary_from(s, e, p, i + 1)
    }
}

pub open spec fn has_match(s: Seq<ContactV>, e: Option<Seq<char>>, p: Option<Seq<char>>) -> bool {
    first_match_from(s, e, p, 0) < s.len()
}

/// The id of the primary that survives the submission: the oldest matching
/// `Primary`, or, when only secondaries match, the primary ancestor of the
/// oldest matching row. Meaningful only when `has_match` holds.
pub open spec fn survivor_id(s: Seq<ContactV>, e: Option<Seq<char>>, p: Option<Seq<char>>) -> int {
    let fp = first_primary_from(s, e, p, 0);
    if fp < s.len() {
        s[fp].id
    } else {
        match s[first_match_from(s, e, p, 0)].linked_id {
            Some(l) => l,
            None => 0,
        }
    }
}

/// One row of the store after the merge step: a matching `Primary` other
/// than the survivor is demoted under the survivor, and every `Secondary` of
/// such a demoted row is re-pointed at the survivor, keeping the graph flat.
/// All other rows, and every id, email and phone number, are unchanged.
pub open spec fn merged_at(
    s: Seq<ContactV>,
    e: Option<Seq<char>>,
    p: Option<Seq<char>>,
    surv: int,
    i: int,
) -> ContactV {
    let c = s[i];
    if c.precedence is Primary {
        if c_matches(c, e, p) && c.id != surv {
            ContactV {
                id: c.id,
                email: c.email,
                phone: c.phone,
                precedence: LinkPrecedence::Secondary,
                linked_id: Some(surv),
            }
        } else {
            c
        }
    } else {
        match c.linked_id {
            Some(l) => if 1 <= l <= s.len() && s[l - 1].precedence is Primary && c_matches(
                s[l - 1],
                e,
                p,
            ) && l != surv {
                ContactV {
                    id: c.id,
                    email: c.email,
                    phone: c.phone,
                    precedence: c.precedence,
                    linked_id: Some(surv),
                }
            } else {
                c
            },
            None => c,
        }
    }
}

/// The whole store after the merge step.
pub open spec fn merged(
    s: Seq<ContactV>,
    e: Option<Seq<char>>,
    p: Option<Seq<char>>,
    surv: int,
) -> Seq<ContactV> {
    Seq::new(s.len(), |i: int| merged_at(s, e, p, surv, i))
}

/// A freshly created `Primary` row.
pub open spec fn new_primary_v(e: Option<Seq<char>>, p: Option<Seq<char>>, id: int) -> ContactV {
    ContactV { id, email: e, phone: p, precedence: LinkPrecedence::Primary, linked_id: None }
}

/// A freshly created `Secondary` row under the primary with id `linked`.
pub open spec fn new_secondary_v(
    e: Option<Seq<char>>,
    p: Option<Seq<char>>,
    id: int,
    linked: int,
) -> ContactV {
    ContactV {
        id,
        email: e,
        phone: p,
        precedence: LinkPrecedence::Secondary,
        linked_id: Some(linked),
    }
}

/// Whether the submitted email already stands on some matching row.
pub open spec fn email_among_matches(
    s: Seq<ContactV>,
    e: Option<Seq<char>>,
    p: Option<Seq<char>>,
) -> bool {
    exists|i: int| 0 <= i < s.len() && #[trigger] c_matches(s[i], e, p) && s[i].email == e
}

/// Whether the submitted phone number already stands on some matching row.
pub open spec fn phone_among_matches(
    s: Seq<ContactV>,
    e: Option<Seq<char>>,
    p: Option<Seq<char>>,
) -> bool {
    exists|i: int| 0 <= i < s.len() && #[trigger] c_matches(s[i], e, p) && s[i].phone == p
}

/// Whether the submission contributes a field not yet present among the
/// matching rows, so that a new `Secondary` row must record it.
pub open spec fn needs_new_row(
    s: Seq<ContactV>,
    e: Option<Seq<char>>,
    p: Option<Seq<char>>,
) -> bool {
    ||| (e is Some && !email_among_matches(s, e, p))
    ||| (p is Some && !phone_among_matches(s, e, p))
}

/// The full effect of one submission on the store, together with the id of
/// the resulting primary. Meaningful only when at least one field of the
/// submission is present.
pub open spec fn reconcile_spec(
    s: Seq<ContactV>,
    e: Option<Seq<char>>,
    p: Option<Seq<char>>,
) -> (Seq<ContactV>, int) {
    if !has_match(s, e, p) {
        (s.push(new_primary_v(e, p, s.len() as int + 1)), s.len() as int + 1)
    } else {
        let surv = survivor_id(s, e, p);
        let s1 = merged(s, e, p, surv);
        if needs_new_row(s, e, p) {
            (s1.push(new_secondary_v(e, p, s.len() as int + 1, surv)), surv)
        } else {
            (s1, surv)
        }
    }
}

/// Whether row `i` belongs to the cluster headed by the primary with id
/// `pid`: it is that primary itself, or a secondary linked to it.
pub open spec fn is_member(s: Seq<ContactV>, pid: int, i: int) -> bool {
    s[i].id == pid || s[i].linked_id == Some(pid)
}

/// The distinct emails of the cluster members at or after `i`, in creation
/// order, appended to `acc`. Because the primary is the oldest row of its
/// cluster, its email (when present) heads the list built from `i == 0`.
pub open spec fn emails_from(s: Seq<ContactV>, pid: int, i: int, acc: Seq<Seq<char>>) -> Seq<
    Seq<char>,
>
    decreases s.len() - i,
{
    if i < 0 || i >= s.len() {
        acc
    } else {
        let acc2 = if is_member(s, pid, i) && s[i].email is Some && !acc.contains(
            s[i].email.unwrap(),
        ) {
            acc.push(s[i].email.unwrap())
        } else {
            acc
        };
        emails_from(s, pid, i + 1, acc2)
    }
}

/// The distinct emails of the cluster headed by `pid`, oldest first.
pub open spec fn cluster_emails(s: Seq<ContactV>, pid: int) -> Seq<Seq<char>> {
    emails_from(s, pid, 0, Seq::empty())
}

/// The distinct phone numbers of the cluster members at or after `i`,
/// appended to `acc`.
pub open spec fn phones_from(s: Seq<ContactV>, pid: int, i: int, acc: Seq<Seq<char>>) -> Seq<
    Seq<char>,
>
    decreases s.len() - i,
{
    if i < 0 || i >= s.len() {
        acc
    } else {
        let acc2 = if is_member(s, pid, i) && s[i].phone is Some && !acc.contains(
            s[i].phone.unwrap(),
        ) {
            acc.push(s[i].phone.unwrap())
        } else {
            acc
        };
        phones_from(s, pid, i + 1, acc2)
    }
}

/// The distinct phone numbers of the cluster headed by `pid`, oldest first.
pub open spec fn cluster_phones(s: Seq<ContactV>, pid: int) -> Seq<Seq<char>> {
    phones_from(s, pid, 0, Seq::empty())
}

/// The ids of the secondaries linked to `pid`, at or after `i`, ascending,
/// appended to `acc`.
pub open spec fn sec_ids_from(s: Seq<ContactV>, pid: int, i: int, acc: Seq<int>) -> Seq<int>
    decreases s.len() - i,
{
    if i < 0 || i >= s.len() {
        acc
    } else {
        let acc2 = if s[i].linked_id == Some(pid) {
            acc.push(s[i].id)
        } else {
            acc
        };
        sec_ids_from(s, pid, i + 1, acc2)
    }
}

/// The ids of the secondaries linked to `pid`, in ascending order.
pub open spec fn cluster_secondary_ids(s: Seq<ContactV>, pid: int) -> Seq<int> {
    sec_ids_from(s, pid, 0, Seq::empty())
}

/// Index of the first `Primary` row of a matched list at or after `i`;
/// `m.len()` if none.
pub open spec fn first_primary_in(m: Seq<ContactV>, i: int) -> int
    decreases m.len() - i,
{
    if i < 0 || i >= m.len() {
        m.len() as int
    } else if m[i].precedence is Primary {
        i
    } else {
        first_primary_in(m, i + 1)
    }
}

/// The survivor read off a matched row list alone: the oldest `Primary`
/// among the rows, or, when only secondaries matched, the primary ancestor
/// of the oldest row.
pub open spec fn survivor_of_matches(m: Seq<ContactV>) -> Option<int> {
    if m.len() == 0 {
        None
    } else {
        let fp = first_primary_in(m, 0);
        if fp < m.len() {
            Some(m[fp].id)
        } else {
            m[0].linked_id
        }
    }
}

/// The ids of the `Primary` rows of a matched list, other than the
/// survivor, at or after `i`, appended to `acc`.
pub open spec fn demote_ids_from(m: Seq<ContactV>, surv: int, i: int, acc: Seq<int>) -> Seq<int>
    decreases m.len() - i,
{
    if i < 0 || i >= m.len() {
        acc
    } else {
        let acc2 = if m[i].precedence is Primary && m[i].id != surv {
            acc.push(m[i].id)
        } else {
            acc
        };
        demote_ids_from(m, surv, i + 1, acc2)
    }
}

/// The ids of the matched `Primary` rows that must be demoted under the
/// survivor, oldest first.
pub open spec fn demotion_ids(m: Seq<ContactV>, surv: int) -> Seq<int> {
    demote_ids_from(m, surv, 0, Seq::empty())
}

/// Whether some row of a matched list already carries this email.
pub open spec fn email_in_rows(m: Seq<ContactV>, e: Option<Seq<char>>) -> bool {
    exists|k: int| 0 <= k < m.len() && (#[trigger] m[k]).email == e
}

/// Whether some row of a matched list already carries this phone number.
pub open spec fn phone_in_rows(m: Seq<ContactV>, p: Option<Seq<char>>) -> bool {
    exists|k: int| 0 <= k < m.len() && (#[trigger] m[k]).phone == p
}

/// Whether a submission adds a field not present in the matched rows.
pub open spec fn contributes_new(
    m: Seq<ContactV>,
    e: Option<Seq<char>>,
    p: Option<Seq<char>>,
) -> bool {
    ||| (e is Some && !email_in_rows(m, e))
    ||| (p is Some && !phone_in_rows(m, p))
}

/// One row of the store after demoting the row with id `id` under the
/// primary with id `linked`: the target becomes `Secondary` under `linked`,
/// its own secondaries are re-pointed at `linked`, everything else is
/// unchanged.
pub open spec fn demoted_at(s: Seq<ContactV>, id: int, linked: int, i: int) -> ContactV {
    let c = s[i];
    if c.id == id {
        ContactV {
            id: c.id,
            email: c.email,
            phone: c.phone,
            precedence: LinkPrecedence::Secondary,
            linked_id: Some(linked),
        }
    } else if c.linked_id == Some(id) {
        ContactV {
            id: c.id,
            email: c.email,
            phone: c.phone,
            precedence: c.precedence,
            linked_id: Some(linked),
        }
    } else {
        c
    }
}

/// The whole store after one demotion.
pub open spec fn demoted(s: Seq<ContactV>, id: int, linked: int) -> Seq<ContactV> {
    Seq::new(s.len(), |i: int| demoted_at(s, id, linked, i))
}

/// Demoting an existing `Primary` under an older `Primary` keeps the store
/// well-formed.
pub proof fn lemma_demoted_wf(s: Seq<ContactV>, id: int, linked: int)
    requires
        wf(s),
        1 <= linked < id <= s.len(),
        s[linked - 1].precedence is Primary,
        s[id - 1].precedence is Primary,
    ensures
        wf(demoted(s, id, linked)),
{
    let d = demoted(s, id, linked);
    assert forall|i: int| 0 <= i < d.len() implies wf_at(d, i) by {
        assert(wf_at(s, i));
        assert(wf_at(s, id - 1));
        assert(wf_at(s, linked - 1));
        let c = s[i];
        if c.id == id {
            assert(d[linked - 1] == s[linked - 1]);
        } else if c.linked_id == Some(id) {
            assert(d[linked - 1] == s[linked - 1]);
        } else {
            match c.linked_id {
                Some(l) => {
                    assert(wf_at(s, l - 1));
                    assert(d[l - 1] == s[l - 1]);
                },
                None => {},
            }
        }
    }
}

/// If no row at or after `i` is linked to `pid`, the id list stays `acc`.
pub proof fn lemma_sec_ids_from_skip(s: Seq<ContactV>, pid: int, i: int, acc: Seq<int>)
    requires
        0 <= i <= s.len(),
        forall|k: int| i <= k < s.len() ==> (#[trigger] s[k]).linked_id != Some(pid),
    ensures
        sec_ids_from(s, pid, i, acc) == acc,
    decreases s.len() - i,
{
    if i < s.len() {
        lemma_sec_ids_from_skip(s, pid, i + 1, acc);
    }
}

/// Whatever the accumulator already holds stays in the final email list.
pub proof fn lemma_emails_from_keeps(
    s: Seq<ContactV>,
    pid: int,
    i: int,
    acc: Seq<Seq<char>>,
    x: Seq<char>,
)
    requires
        0 <= i <= s.len(),
        acc.contains(x),
    ensures
        emails_from(s, pid, i, acc).contains(x),
    decreases s.len() - i,
{
    if i < s.len() {
        let acc2 = if is_member(s, pid, i) && s[i].email is Some && !acc.contains(
            s[i].email.unwrap(),
        ) {
            acc.push(s[i].email.unwrap())
        } else {
            acc
        };
        let j = choose|j: int| 0 <= j < acc.len() && acc[j] == x;
        assert(acc2[j] == x);
        lemma_emails_from_keeps(s, pid, i + 1, acc2, x);
    }
}

/// The email of any cluster member at or after `i` ends up in the list.
pub proof fn lemma_emails_from_member(
    s: Seq<ContactV>,
    pid: int,
    i: int,
    acc: Seq<Seq<char>>,
    j: int,
)
    requires
        0 <= i <= j < s.len(),
        is_member(s, pid, j),
        s[j].email is Some,
    ensures
        emails_from(s, pid, i, acc).contains(s[j].email.unwrap()),
    decreases s.len() - i,
{
    let v = s[j].email.unwrap();
    let acc2 = if is_member(s, pid, i) && s[i].email is Some && !acc.contains(
        s[i].email.unwrap(),
    ) {
        acc.push(s[i].email.unwrap())
    } else {
        acc
    };
    if i == j {
        if !acc.contains(v) {
            assert(acc2[acc.len() as int] == v);
            assert(acc2.contains(v));
        } else {
            let k = choose|k: int| 0 <= k < acc.len() && acc[k] == v;
            assert(acc2[k] == v);
        }
        lemma_emails_from_keeps(s, pid, i + 1, acc2, v);
    } else {
        lemma_emails_from_member(s, pid, i + 1, acc2, j);
    }
}

/// Whatever the accumulator already holds stays in the final phone list.
pub proof fn lemma_phones_from_keeps(
    s: Seq<ContactV>,
    pid: int,
    i: int,
    acc: Seq<Seq<char>>,
    x: Seq<char>,
)
    requires
        0 <= i <= s.len(),
        acc.contains(x),
    ensures
        phones_from(s, pid, i, acc).contains(x),
    decreases s.len() - i,
{
    if i < s.len() {
        let acc2 = if is_member(s, pid, i) && s[i].phone is Some && !acc.contains(
            s[i].phone.unwrap(),
        ) {
            acc.push(s[i].phone.unwrap())
        } else {
            acc
        };
        let j = choose|j: int| 0 <= j < acc.len() && acc[j] == x;
        assert(acc2[j] == x);
        lemma_phones_from_keeps(s, pid, i + 1, acc2, x);
    }
}

/// The phone number of any cluster member at or after `i` ends up in the
/// list.
pub proof fn lemma_phones_from_member(
    s: Seq<ContactV>,
    pid: int,
    i: int,
    acc: Seq<Seq<char>>,
    j: int,
)
    requires
        0 <= i <= j < s.len(),
        is_member(s, pid, j),
        s[j].phone is Some,
    ensures
        phones_from(s, pid, i, acc).contains(s[j].phone.unwrap()),
    decreases s.len() - i,
{
    let v = s[j].phone.unwrap();
    let acc2 = if is_member(s, pid, i) && s[i].phone is Some && !acc.contains(
        s[i].phone.unwrap(),
    ) {
        acc.push(s[i].phone.unwrap())
    } else {
        acc
    };
    if i == j {
        if !acc.contains(v) {
            assert(acc2[acc.len() as int] == v);
            assert(acc2.contains(v));
        } else {
            let k = choose|k: int| 0 <= k < acc.len() && acc[k] == v;
            assert(acc2[k] == v);
        }
        lemma_phones_from_keeps(s, pid, i + 1, acc2, v);
    } else {
        lemma_phones_from_member(s, pid, i + 1, acc2, j);
    }
}

/// Whatever the accumulator already holds stays in the final id list.
pub proof fn lemma_sec_ids_from_keeps(s: Seq<ContactV>, pid: int, i: int, acc: Seq<int>, x: int)
    requires
        0 <= i <= s.len(),
        acc.contains(x),
    ensures
        sec_ids_from(s, pid, i, acc).contains(x),
    decreases s.len() - i,
{
    if i < s.len() {
        let acc2 = if s[i].linked_id == Some(pid) {
            acc.push(s[i].id)
        } else {
            acc
        };
        let j = choose|j: int| 0 <= j < acc.len() && acc[j] == x;
        assert(acc2[j] == x);
        lemma_sec_ids_from_keeps(s, pid, i + 1, acc2, x);
    }
}

/// The id of any secondary at or after `i` linked to `pid` ends up in the
/// id list.
pub proof fn lemma_sec_ids_from_member(s: Seq<ContactV>, pid: int, i: int, acc: Seq<int>, j: int)
    requires
        0 <= i <= j < s.len(),
        s[j].linked_id == Some(pid),
    ensures
        sec_ids_from(s, pid, i, acc).contains(s[j].id),
    decreases s.len() - i,
{
    let acc2 = if s[i].linked_id == Some(pid) {
        acc.push(s[i].id)
    } else {
        acc
    };
    if i == j {
        assert(acc2[acc.len() as int] == s[j].id);
        assert(acc2.contains(s[j].id));
        lemma_sec_ids_from_keeps(s, pid, i + 1, acc2, s[j].id);
    } else {
        lemma_sec_ids_from_member(s, pid, i + 1, acc2, j);
    }
}

/// Appending a row with the next dense id, at least one contact field, and
/// a link (if any) to an existing primary keeps the store well-formed.
pub proof fn lemma_wf_push(s: Seq<ContactV>, c: ContactV)
    requires
        wf(s),
        s.len() + 1 < i32::MAX as int,
        c.id == s.len() + 1,
        c.email is Some || c.phone is Some,
        c.precedence is Primary <==> c.linked_id is None,
        match c.linked_id {
            Some(l) => 1 <= l <= s.len() && s[l - 1].precedence is Primary,
            None => true,
        },
    ensures
        wf(s.push(c)),
{
    let s2 = s.push(c);
    assert forall|i: int| 0 <= i < s2.len() implies wf_at(s2, i) by {
        if i < s.len() {
            assert(wf_at(s, i));
        }
    }
}

/// The matching rows at or after `i`, in store order, appended to `acc`.
pub open spec fn matches_from(
    s: Seq<ContactV>,
    e: Option<Seq<char>>,
    p: Option<Seq<char>>,
    i: int,
    acc: Seq<ContactV>,
) -> Seq<ContactV>
    decreases s.len() - i,
{
    if i < 0 || i >= s.len() {
        acc
    } else if c_matches(s[i], e, p) {
        matches_from(s, e, p, i + 1, acc.push(s[i]))
    } else {
        matches_from(s, e, p, i + 1, acc)
    }
}

/// Every row matching the submission, oldest first.
pub open spec fn matched_of(
    s: Seq<ContactV>,
    e: Option<Seq<char>>,
    p: Option<Seq<char>>,
) -> Seq<ContactV> {
    matches_from(s, e, p, 0, Seq::empty())
}

/// `first_match_from` returns the least matching index at or after `i`.
pub proof fn lemma_first_match_from(
    s: Seq<ContactV>,
    e: Option<Seq<char>>,
    p: Option<Seq<char>>,
    i: int,
)
    requires
        0 <= i <= s.len(),
    ensures
        i <= first_match_from(s, e, p, i) <= s.len(),
        first_match_from(s, e, p, i) < s.len() ==> c_matches(
            s[first_match_from(s, e, p, i)],
            e,
            p,
        ),
        forall|k: int| i <= k < first_match_from(s, e, p, i) ==> !#[trigger] c_matches(s[k], e, p),
    decreases s.len() - i,
{
    if i < s.len() && !c_matches(s[i], e, p) {
        lemma_first_match_from(s, e, p, i + 1);
    }
}

/// `first_primary_from` returns the least matching-primary index at or
/// after `i`.
pub proof fn lemma_first_primary_from(
    s: Seq<ContactV>,
    e: Option<Seq<char>>,
    p: Option<Seq<char>>,
    i: int,
)
    requires
        0 <= i <= s.len(),
    ensures
        i <= first_primary_from(s, e, p, i) <= s.len(),
        first_primary_from(s, e, p, i) < s.len() ==> c_matches(
            s[first_primary_from(s, e, p, i)],
            e,
            p,
        ) && s[first_primary_from(s, e, p, i)].precedence is Primary,
        forall|k: int|
            i <= k < first_primary_from(s, e, p, i) ==> !(#[trigger] c_matches(s[k], e, p)
                && s[k].precedence is Primary),
    decreases s.len() - i,
{
    if i < s.len() && !(c_matches(s[i], e, p) && s[i].precedence is Primary) {
        lemma_first_primary_from(s, e, p, i + 1);
    }
}

/// If `k` matches and nothing before `k` does, then `k` is the first match.
pub proof fn lemma_first_match_is(
    s: Seq<ContactV>,
    e: Option<Seq<char>>,
    p: Option<Seq<char>>,
    k: int,
)
    requires
        0 <= k < s.len(),
        c_matches(s[k], e, p),
        forall|j: int| 0 <= j < k ==> !#[trigger] c_matches(s[j], e, p),
    ensures
        first_match_from(s, e, p, 0) == k,
{
    lemma_first_match_from(s, e, p, 0);
}

/// If `k` is a matching primary and no earlier row is one, then `k` is the
/// first matching primary.
pub proof fn lemma_first_primary_is(
    s: Seq<ContactV>,
    e: Option<Seq<char>>,
    p: Option<Seq<char>>,
    k: int,
)
    requires
        0 <= k < s.len(),
        c_matches(s[k], e, p),
        s[k].precedence is Primary,
        forall|j: int|
            0 <= j < k ==> !(#[trigger] c_matches(s[j], e, p) && s[j].precedence is Primary),
    ensures
        first_primary_from(s, e, p, 0) == k,
{
    lemma_first_primary_from(s, e, p, 0);
}

/// In a well-formed store with at least one matching row, the survivor is
/// an existing `Primary`, and no matching `Primary` is older than it.
pub proof fn lemma_survivor_props(s: Seq<ContactV>, e: Option<Seq<char>>, p: Option<Seq<char>>)
    requires
        wf(s),
        has_match(s, e, p),
    ensures
        1 <= survivor_id(s, e, p) <= s.len(),
        s[survivor_id(s, e, p) - 1].precedence is Primary,
        forall|k: int|
            0 <= k < s.len() && #[trigger] c_matches(s[k], e, p) && s[k].precedence is Primary
                ==> survivor_id(s, e, p) <= k + 1,
{
    let fp = first_primary_from(s, e, p, 0);
    let fm = first_match_from(s, e, p, 0);
    lemma_first_primary_from(s, e, p, 0);
    lemma_first_match_from(s, e, p, 0);
    if fp < s.len() {
        assert(wf_at(s, fp));
    } else {
        assert(wf_at(s, fm));
        assert(!(c_matches(s[fm], e, p) && s[fm].precedence is Primary));
        let l = s[fm].linked_id.unwrap();
        assert(wf_at(s, l - 1));
    }
}

/// The merge step keeps the store well-formed, changes no id, email or
/// phone number, leaves the survivor untouched, and leaves a row `Primary`
/// exactly when it was `Primary` and is not demoted.
pub proof fn lemma_merged_wf(
    s: Seq<ContactV>,
    e: Option<Seq<char>>,
    p: Option<Seq<char>>,
    surv: int,
)
    requires
        wf(s),
        1 <= surv <= s.len(),
        s[surv - 1].precedence is Primary,
        forall|k: int|
            0 <= k < s.len() && #[trigger] c_matches(s[k], e, p) && s[k].precedence is Primary
                ==> surv <= k + 1,
    ensures
        wf(merged(s, e, p, surv)),
        merged(s, e, p, surv).len() == s.len(),
        forall|i: int|
            0 <= i < s.len() ==> (#[trigger] merged(s, e, p, surv)[i]).id == s[i].id && merged(
                s,
                e,
                p,
                surv,
            )[i].email == s[i].email && merged(s, e, p, surv)[i].phone == s[i].phone,
        merged(s, e, p, surv)[surv - 1] == s[surv - 1],
        forall|i: int|
            0 <= i < s.len() ==> ((#[trigger] merged(s, e, p, surv)[i]).precedence is Primary
                <==> (s[i].precedence is Primary && (c_matches(s[i], e, p) ==> s[i].id == surv))),
{
    let m = merged(s, e, p, surv);
    assert(wf_at(s, surv - 1));
    assert forall|i: int| 0 <= i < m.len() implies wf_at(m, i) by {
        assert(wf_at(s, i));
        let c = s[i];
        if c.precedence is Primary {
            if c_matches(c, e, p) && c.id != surv {
                // demoted: its new link points at the older survivor, which
                // stays primary because it is never itself demoted
                assert(surv <= i);
                assert(m[surv - 1] == s[surv - 1]);
            }
        } else {
            let l = c.linked_id.unwrap();
            assert(wf_at(s, l - 1));
            if c_matches(s[l - 1], e, p) && l != surv {
                // re-pointed at the survivor
                assert(surv <= l - 1 + 1);
                assert(m[surv - 1] == s[surv - 1]);
            } else {
                // untouched: its target is not demoted
                assert(m[l - 1] == s[l - 1]);
            }
        }
    }
}

/// If no primary row matches, `first_primary_from` runs off the end.
pub proof fn lemma_no_primary_match(s: Seq<ContactV>, e: Option<Seq<char>>, p: Option<Seq<char>>)
    requires
        forall|j: int|
            0 <= j < s.len() ==> !(#[trigger] c_matches(s[j], e, p) && s[j].precedence is Primary),
    ensures
        first_primary_from(s, e, p, 0) == s.len(),
{
    lemma_first_primary_from(s, e, p, 0);
}

} // verus!
