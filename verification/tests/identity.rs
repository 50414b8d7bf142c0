use identity_reconciliation::contact::{Contact, IdentifyBody};
use identity_reconciliation::engine::{
    contributes_new_information, demotion_targets, identify, reconcile, surviving_primary_id,
    IdentityError,
};
use identity_reconciliation::store::IdentityStore;
use identity_reconciliation::LinkPrecedence;

fn s(x: &str) -> Option<String> {
    Some(x.to_string())
}

fn body(email: Option<String>, phone_number: Option<String>) -> IdentifyBody {
    IdentifyBody { email, phone_number }
}

#[test]
fn rejects_submission_with_both_fields_absent() {
    let mut store = IdentityStore::new();
    let r = identify(&mut store, &body(None, None));
    assert!(matches!(r, Err(IdentityError::InvalidRequest)));
    assert_eq!(store.contact_count(), 0);
}

#[test]
fn new_pair_creates_one_primary_with_no_secondaries() {
    let mut store = IdentityStore::new();
    let w = identify(&mut store, &body(s("a@x.com"), None)).unwrap();
    assert_eq!(store.contact_count(), 1);
    assert_eq!(w.contact.primary_contact_id, 1);
    assert_eq!(w.contact.emails, vec!["a@x.com".to_string()]);
    assert_eq!(w.contact.phone_numbers, Vec::<String>::new());
    assert_eq!(w.contact.secondary_contact_ids, Vec::<i32>::new());
}

#[test]
fn scenario_primary_then_secondary_then_pure_read() {
    let mut store = IdentityStore::new();

    let w1 = identify(&mut store, &body(s("a@x.com"), None)).unwrap();
    assert_eq!(w1.contact.primary_contact_id, 1);
    assert_eq!(w1.contact.emails, vec!["a@x.com".to_string()]);
    assert_eq!(w1.contact.phone_numbers, Vec::<String>::new());
    assert_eq!(w1.contact.secondary_contact_ids, Vec::<i32>::new());

    let w2 = identify(&mut store, &body(s("a@x.com"), s("555"))).unwrap();
    assert_eq!(store.contact_count(), 2);
    assert_eq!(w2.contact.primary_contact_id, 1);
    assert_eq!(w2.contact.emails, vec!["a@x.com".to_string()]);
    assert_eq!(w2.contact.phone_numbers, vec!["555".to_string()]);
    assert_eq!(w2.contact.secondary_contact_ids, vec![2]);

    let w3 = identify(&mut store, &body(None, s("555"))).unwrap();
    assert_eq!(store.contact_count(), 2);
    assert_eq!(w3.contact.primary_contact_id, 1);
    assert_eq!(w3.contact.emails, vec!["a@x.com".to_string()]);
    assert_eq!(w3.contact.phone_numbers, vec!["555".to_string()]);
    assert_eq!(w3.contact.secondary_contact_ids, vec![2]);
}

#[test]
fn resubmitting_the_same_pair_changes_nothing() {
    let mut store = IdentityStore::new();
    let w1 = identify(&mut store, &body(s("a@x.com"), s("111"))).unwrap();
    let count = store.contact_count();
    let w2 = identify(&mut store, &body(s("a@x.com"), s("111"))).unwrap();
    assert_eq!(store.contact_count(), count);
    assert_eq!(w1.contact.primary_contact_id, w2.contact.primary_contact_id);
    assert_eq!(w1.contact.emails, w2.contact.emails);
    assert_eq!(w1.contact.phone_numbers, w2.contact.phone_numbers);
    assert_eq!(w1.contact.secondary_contact_ids, w2.contact.secondary_contact_ids);
}

#[test]
fn new_phone_under_known_email_creates_linked_secondary() {
    let mut store = IdentityStore::new();
    identify(&mut store, &body(s("e@x.com"), None)).unwrap();
    let w = identify(&mut store, &body(s("e@x.com"), s("777"))).unwrap();
    assert_eq!(store.contact_count(), 2);
    assert_eq!(w.contact.primary_contact_id, 1);
    assert!(w.contact.phone_numbers.contains(&"777".to_string()));
    assert_eq!(w.contact.secondary_contact_ids, vec![2]);
    let rows = store.find_matching(&None, &s("777"));
    assert_eq!(rows.len(), 1);
    assert_eq!(rows[0].id, 2);
    assert_eq!(rows[0].link_precedence, LinkPrecedence::Secondary);
    assert_eq!(rows[0].linked_id, Some(1));
}

#[test]
fn linking_two_primaries_demotes_the_younger() {
    let mut store = IdentityStore::new();
    identify(&mut store, &body(s("e1@x.com"), None)).unwrap();
    identify(&mut store, &body(None, s("222"))).unwrap();
    assert_eq!(store.contact_count(), 2);

    let w = identify(&mut store, &body(s("e1@x.com"), s("222"))).unwrap();
    // both fields were already known, so no row is added
    assert_eq!(store.contact_count(), 2);
    assert_eq!(w.contact.primary_contact_id, 1);
    assert_eq!(w.contact.emails, vec!["e1@x.com".to_string()]);
    assert_eq!(w.contact.phone_numbers, vec!["222".to_string()]);
    assert_eq!(w.contact.secondary_contact_ids, vec![2]);

    let rows = store.find_matching(&None, &s("222"));
    assert_eq!(rows.len(), 1);
    assert_eq!(rows[0].link_precedence, LinkPrecedence::Secondary);
    assert_eq!(rows[0].linked_id, Some(1));
}

#[test]
fn oldest_primary_survives_whatever_field_names_it() {
    // here the submitted phone belongs to the older primary and the email
    // to the younger: the older one must still survive
    let mut store = IdentityStore::new();
    identify(&mut store, &body(None, s("333"))).unwrap();
    identify(&mut store, &body(s("e2@x.com"), None)).unwrap();

    let w = identify(&mut store, &body(s("e2@x.com"), s("333"))).unwrap();
    assert_eq!(w.contact.primary_contact_id, 1);
    assert_eq!(w.contact.secondary_contact_ids, vec![2]);
    let rows = store.find_matching(&s("e2@x.com"), &None);
    assert_eq!(rows[0].linked_id, Some(1));
}

#[test]
fn graph_stays_flat_when_a_demoted_primary_had_secondaries() {
    let mut store = IdentityStore::new();
    identify(&mut store, &body(s("old@x.com"), None)).unwrap();
    identify(&mut store, &body(None, s("444"))).unwrap();
    identify(&mut store, &body(s("extra@x.com"), s("444"))).unwrap();
    assert_eq!(store.contact_count(), 3);

    // email names row 1, phone names the cluster of row 2: rows 2 and 3
    // must both end up under row 1
    let w = identify(&mut store, &body(s("old@x.com"), s("444"))).unwrap();
    assert_eq!(store.contact_count(), 3);
    assert_eq!(w.contact.primary_contact_id, 1);
    let mut ids = w.contact.secondary_contact_ids.clone();
    ids.sort();
    assert_eq!(ids, vec![2, 3]);
    for i in 0..store.contact_count() {
        let c = store.contact_at(i);
        match c.linked_id {
            None => assert_eq!(c.link_precedence, LinkPrecedence::Primary),
            Some(l) => {
                assert_eq!(c.link_precedence, LinkPrecedence::Secondary);
                let ancestor = store.contact_at((l - 1) as usize);
                assert_eq!(ancestor.link_precedence, LinkPrecedence::Primary);
            },
        }
    }
}

#[test]
fn matching_only_a_secondary_attaches_to_its_ancestor() {
    let mut store = IdentityStore::new();
    identify(&mut store, &body(s("e1@x.com"), None)).unwrap();
    identify(&mut store, &body(s("e1@x.com"), s("555"))).unwrap();

    // the phone belongs to secondary row 2; the new email must be stored
    // under row 2's ancestor, row 1, not under row 2
    let w = identify(&mut store, &body(s("e2@x.com"), s("555"))).unwrap();
    assert_eq!(store.contact_count(), 3);
    assert_eq!(w.contact.primary_contact_id, 1);
    assert_eq!(
        w.contact.emails,
        vec!["e1@x.com".to_string(), "e2@x.com".to_string()],
    );
    assert_eq!(w.contact.phone_numbers, vec!["555".to_string()]);
    assert_eq!(w.contact.secondary_contact_ids, vec![2, 3]);
}

#[test]
fn primary_email_heads_the_consolidated_list() {
    let mut store = IdentityStore::new();
    identify(&mut store, &body(s("first@x.com"), s("888"))).unwrap();
    identify(&mut store, &body(s("second@x.com"), s("888"))).unwrap();
    let w = identify(&mut store, &body(None, s("888"))).unwrap();
    assert_eq!(
        w.contact.emails,
        vec!["first@x.com".to_string(), "second@x.com".to_string()],
    );
}

#[test]
fn find_matching_returns_rows_matching_either_field_oldest_first() {
    let mut store = IdentityStore::new();
    identify(&mut store, &body(s("a@x.com"), None)).unwrap();
    identify(&mut store, &body(None, s("999"))).unwrap();
    identify(&mut store, &body(s("b@x.com"), None)).unwrap();
    let rows = store.find_matching(&s("a@x.com"), &s("999"));
    assert_eq!(rows.len(), 2);
    assert_eq!(rows[0].id, 1);
    assert_eq!(rows[1].id, 2);
}

#[test]
fn reconcile_reports_the_surviving_id_without_reading_back() {
    let mut store = IdentityStore::new();
    assert_eq!(reconcile(&mut store, &s("a@x.com"), &None), Ok(1));
    assert_eq!(reconcile(&mut store, &s("a@x.com"), &s("12")), Ok(1));
    assert_eq!(reconcile(&mut store, &None, &s("34")), Ok(3));
    assert_eq!(reconcile(&mut store, &s("a@x.com"), &s("34")), Ok(1));
    assert_eq!(reconcile(&mut store, &None, &None), Err(IdentityError::InvalidRequest));
}

#[test]
fn demote_to_secondary_moves_a_primary_and_its_dependents() {
    let mut store = IdentityStore::new();
    identify(&mut store, &body(s("a@x.com"), None)).unwrap();
    identify(&mut store, &body(None, s("11"))).unwrap();
    identify(&mut store, &body(s("c@x.com"), s("11"))).unwrap();
    // rows: 1 primary, 2 primary, 3 secondary under 2
    assert_eq!(store.demote_to_secondary(2, 1), Ok(()));
    let second = store.contact_at(1);
    assert_eq!(second.link_precedence, LinkPrecedence::Secondary);
    assert_eq!(second.linked_id, Some(1));
    let third = store.contact_at(2);
    assert_eq!(third.linked_id, Some(1));
}

#[test]
fn demote_to_secondary_rejects_missing_or_secondary_targets() {
    let mut store = IdentityStore::new();
    identify(&mut store, &body(s("a@x.com"), None)).unwrap();
    identify(&mut store, &body(s("a@x.com"), s("11"))).unwrap();
    // row 2 is already secondary
    assert_eq!(
        store.demote_to_secondary(2, 1),
        Err(IdentityError::InternalConsistencyViolation),
    );
    // row 9 does not exist
    assert_eq!(
        store.demote_to_secondary(9, 1),
        Err(IdentityError::InternalConsistencyViolation),
    );
    assert_eq!(store.contact_count(), 2);
}

fn row(id: i32, email: Option<String>, phone_number: Option<String>, linked_id: Option<i32>) -> Contact {
    Contact {
        id,
        linked_id,
        email,
        phone_number,
        link_precedence: if linked_id.is_none() {
            LinkPrecedence::Primary
        } else {
            LinkPrecedence::Secondary
        },
    }
}

#[test]
fn surviving_primary_is_the_oldest_primary_in_the_matches() {
    let matched = vec![
        row(3, s("a@x.com"), None, Some(2)),
        row(4, None, s("1"), None),
        row(6, None, s("1"), None),
    ];
    assert_eq!(surviving_primary_id(&matched), Some(4));
}

#[test]
fn surviving_primary_falls_back_to_the_oldest_ancestor() {
    let matched = vec![row(3, s("a@x.com"), None, Some(2)), row(5, None, s("1"), Some(4))];
    assert_eq!(surviving_primary_id(&matched), Some(2));
    assert_eq!(surviving_primary_id(&Vec::new()), None);
}

#[test]
fn demotion_targets_lists_every_primary_but_the_survivor() {
    let matched = vec![
        row(1, s("a@x.com"), None, None),
        row(2, None, s("1"), None),
        row(3, s("b@x.com"), None, Some(1)),
        row(4, None, s("2"), None),
    ];
    assert_eq!(demotion_targets(&matched, 1), vec![2, 4]);
}

#[test]
fn new_information_is_detected_per_field() {
    let matched = vec![row(1, s("a@x.com"), None, None)];
    assert!(contributes_new_information(&matched, &s("a@x.com"), &s("5")));
    assert!(contributes_new_information(&matched, &s("b@x.com"), &None));
    assert!(!contributes_new_information(&matched, &s("a@x.com"), &None));
    assert!(!contributes_new_information(&matched, &None, &None));
}

#[test]
fn merging_two_populated_clusters_leaves_one_primary() {
    let mut store = IdentityStore::new();
    identify(&mut store, &body(s("a@x.com"), s("1"))).unwrap();
    identify(&mut store, &body(s("b@x.com"), s("1"))).unwrap();
    identify(&mut store, &body(s("c@y.com"), s("2"))).unwrap();
    identify(&mut store, &body(s("d@y.com"), s("2"))).unwrap();
    assert_eq!(store.contact_count(), 4);

    // the email names the first cluster, the phone the second: everything
    // must end up under row 1, and nothing new is stored
    let w = identify(&mut store, &body(s("a@x.com"), s("2"))).unwrap();
    assert_eq!(store.contact_count(), 4);
    assert_eq!(w.contact.primary_contact_id, 1);
    assert_eq!(w.contact.secondary_contact_ids, vec![2, 3, 4]);
    assert_eq!(
        w.contact.emails,
        vec![
            "a@x.com".to_string(),
            "b@x.com".to_string(),
            "c@y.com".to_string(),
            "d@y.com".to_string(),
        ],
    );
    assert_eq!(w.contact.phone_numbers, vec!["1".to_string(), "2".to_string()]);
    let mut primaries = 0;
    for i in 0..store.contact_count() {
        if store.contact_at(i).link_precedence == LinkPrecedence::Primary {
            primaries += 1;
        }
    }
    assert_eq!(primaries, 1);
}
