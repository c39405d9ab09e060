use aimstore::effort::Effort;
use aimstore::records::{Address, Aim, EntryKind, QueryError, Record};
use aimstore::store::{LinkFilter, Store};

fn plain_aim(title: &str) -> Aim {
    Aim {
        title: title.to_owned(),
        description: format!("description of {}", title),
        effort: Effort::Hours(2),
        timestamp_ms: 1_600_000_000_000,
        color: ['a', 'b', 'c', 'd', 'e', 'f'],
        tags: vec!["one".to_owned(), "two".to_owned()],
    }
}

fn owner() -> Address {
    Address::from_bytes(vec![7, 7, 7, 7])
}

fn addr(bytes: &[u8]) -> Address {
    Address::from_bytes(bytes.to_vec())
}

#[test]
fn commit_identical_content_twice_yields_same_address() {
    let mut store = Store::new();
    let a1 = store.commit(&Record::Aim(plain_aim("alpha"))).unwrap();
    let a2 = store.commit(&Record::Aim(plain_aim("alpha"))).unwrap();
    assert_eq!(a1, a2);
    let b = store.commit(&Record::Aim(plain_aim("beta"))).unwrap();
    assert_ne!(a1, b);
    // Committing beta again still finds the single stored copy.
    let b2 = store.commit(&Record::Aim(plain_aim("beta"))).unwrap();
    assert_eq!(b, b2);
}

#[test]
fn the_address_depends_on_the_content_alone() {
    // The same record gets the same address in stores with different
    // histories, and in every store the address is derived from the bytes,
    // not from what was committed before.
    let mut fresh = Store::new();
    let in_fresh = fresh.commit(&Record::Aim(plain_aim("alpha"))).unwrap();

    let mut busy = Store::new();
    busy.commit(&Record::Aim(plain_aim("beta"))).unwrap();
    busy.commit(&Record::Aim(plain_aim("gamma"))).unwrap();
    let in_busy = busy.commit(&Record::Aim(plain_aim("alpha"))).unwrap();

    assert_eq!(in_fresh, in_busy);
    assert_eq!(
        fresh.get(&in_fresh).unwrap().bytes,
        busy.get(&in_busy).unwrap().bytes
    );
}

#[test]
fn linking_twice_appends_two_distinct_link_addresses() {
    let mut store = Store::new();
    let base = addr(&[10]);
    let target = addr(&[20]);
    let l1 = store.link(base.clone(), target.clone(), "t".to_owned(), "".to_owned());
    let l2 = store.link(base.clone(), target.clone(), "t".to_owned(), "".to_owned());
    assert_ne!(l1, l2);
    let hits = store.links_from(&base, &LinkFilter::Exactly("t".to_owned()));
    assert_eq!(hits.len(), 2);
    assert_eq!(hits[0].0, target);
    assert_eq!(hits[1].0, target);
    assert_eq!(hits[0].2, l1);
    assert_eq!(hits[1].2, l2);
}

#[test]
fn links_from_filters_by_exact_type_and_any() {
    let mut store = Store::new();
    let base = addr(&[1]);
    store.link(base.clone(), addr(&[2]), "created_aim".to_owned(), "".to_owned());
    store.link(base.clone(), addr(&[3]), "other".to_owned(), "".to_owned());
    store.link(addr(&[9]), addr(&[4]), "created_aim".to_owned(), "".to_owned());
    let exact = store.links_from(&base, &LinkFilter::Exactly("created_aim".to_owned()));
    assert_eq!(exact.len(), 1);
    assert_eq!(exact[0].0, addr(&[2]));
    let any = store.links_from(&base, &LinkFilter::Any);
    assert_eq!(any.len(), 2);
    assert_eq!(any[0].0, addr(&[2]));
    assert_eq!(any[1].0, addr(&[3]));
}

#[test]
fn listing_drops_a_wrongly_typed_target_and_keeps_the_rest() {
    let mut store = Store::new();
    store
        .handle_create_aim(
            owner(),
            "first".to_owned(),
            "d".to_owned(),
            Effort::Days(1),
            1,
            ['1', '1', '1', '1', '1', '1'],
            vec![],
        )
        .unwrap();
    // A profile entry linked under the aim listing's link type.
    let paddr = store.handle_create_profile(owner(), "not an aim".to_owned()).unwrap();
    store.link(owner(), paddr, "created_aim".to_owned(), "".to_owned());
    store
        .handle_create_aim(
            owner(),
            "second".to_owned(),
            "d".to_owned(),
            Effort::Days(1),
            2,
            ['1', '1', '1', '1', '1', '1'],
            vec![],
        )
        .unwrap();
    let links = store.links_from(&owner(), &LinkFilter::Exactly("created_aim".to_owned()));
    assert_eq!(links.len(), 3);
    let aims = store.handle_get_aims(owner()).unwrap();
    assert_eq!(aims.len(), 2);
    assert_eq!(aims[0].title, "first");
    assert_eq!(aims[1].title, "second");
}

#[test]
fn listing_drops_undecodable_bytes_and_dangling_targets() {
    let mut store = Store::new();
    let garbage = store.put(EntryKind::Aim, vec![1, 2, 3]);
    store.link(owner(), garbage, "created_aim".to_owned(), "".to_owned());
    store.link(owner(), addr(&[99, 99]), "created_aim".to_owned(), "".to_owned());
    store
        .handle_create_aim(
            owner(),
            "only".to_owned(),
            "d".to_owned(),
            Effort::Minutes(5),
            3,
            ['0', '0', '0', '0', '0', '0'],
            vec![],
        )
        .unwrap();
    let aims = store.handle_get_aims(owner()).unwrap();
    assert_eq!(aims.len(), 1);
    assert_eq!(aims[0].title, "only");
}

#[test]
fn aim_details_reports_not_found_and_malformed_exactly() {
    let mut store = Store::new();
    let aaddr = store
        .handle_create_aim(
            owner(),
            "detailed".to_owned(),
            "full".to_owned(),
            Effort::Weeks(3),
            77,
            ['f', 'a', 'c', 'a', 'd', 'e'],
            vec!["tagged".to_owned()],
        )
        .unwrap();
    let paddr = store.handle_create_profile(owner(), "someone".to_owned()).unwrap();

    let details = store.handle_get_aim_details(aaddr).unwrap();
    assert_eq!(details.aim.title, "detailed");
    assert_eq!(details.aim.description, "full");
    assert_eq!(details.aim.effort, Effort::Weeks(3));
    assert_eq!(details.aim.timestamp_ms, 77);
    assert_eq!(details.aim.color, ['f', 'a', 'c', 'a', 'd', 'e']);
    assert_eq!(details.aim.tags, vec!["tagged".to_owned()]);

    assert_eq!(
        store.handle_get_aim_details(addr(&[200, 200])).unwrap_err(),
        QueryError::NotFound
    );
    assert_eq!(store.handle_get_aim_details(paddr).unwrap_err(), QueryError::Malformed);
}

#[test]
fn update_commits_a_new_entry_and_keeps_the_old_one() {
    let mut store = Store::new();
    let old = store
        .handle_create_aim(
            owner(),
            "v1".to_owned(),
            "d".to_owned(),
            Effort::Hours(1),
            1,
            ['0', '0', '0', '0', '0', '0'],
            vec![],
        )
        .unwrap();
    let new = store
        .handle_update_aim(
            old.clone(),
            "v2".to_owned(),
            "d".to_owned(),
            Effort::Hours(1),
            1,
            ['0', '0', '0', '0', '0', '0'],
            vec![],
        )
        .unwrap();
    assert_ne!(old, new);
    assert_eq!(store.handle_get_aim_details(old).unwrap().aim.title, "v1");
    assert_eq!(store.handle_get_aim_details(new).unwrap().aim.title, "v2");
}

#[test]
fn stored_entries_decode_only_under_their_own_kind() {
    let mut store = Store::new();
    let address = store.commit(&Record::Aim(plain_aim("typed"))).unwrap();
    let entry = store.get(&address).expect("committed entry must resolve");
    assert!(matches!(entry.decode(EntryKind::Aim), Ok(Record::Aim(_))));
    assert_eq!(
        entry.decode(EntryKind::Connection).unwrap_err(),
        aimstore::records::DecodeError::SchemaMismatch
    );
    assert_eq!(
        entry.decode(EntryKind::Profile).unwrap_err(),
        aimstore::records::DecodeError::SchemaMismatch
    );
    assert!(store.get(&addr(&[5, 5, 5])).is_none());
}

#[test]
fn list_entities_returns_decodable_records_of_the_requested_kind() {
    let mut store = Store::new();
    let a = store.commit(&Record::Aim(plain_aim("listed"))).unwrap();
    let p = store.handle_create_profile(owner(), "listed profile".to_owned()).unwrap();
    store.link(owner(), a, "mixed".to_owned(), "".to_owned());
    store.link(owner(), p, "mixed".to_owned(), "".to_owned());
    let as_aims = store.list_entities(owner(), "mixed".to_owned(), EntryKind::Aim).unwrap();
    assert_eq!(as_aims.len(), 1);
    assert!(matches!(&as_aims[0], Record::Aim(aim) if aim.title == "listed"));
    let as_profiles = store.list_entities(owner(), "mixed".to_owned(), EntryKind::Profile).unwrap();
    assert_eq!(as_profiles.len(), 1);
    assert!(matches!(&as_profiles[0], Record::Profile(pr) if pr.name == "listed profile"));
}

#[test]
fn unicode_fields_survive_a_round_trip_through_the_store() {
    let mut store = Store::new();
    let aim = Aim {
        title: "Ziel: Weltfrieden \u{1F30D}".to_owned(),
        description: "u\u{308}ber alles".to_owned(),
        effort: Effort::Years(1),
        timestamp_ms: -5,
        color: ['\u{1F534}', '0', 'f', '\u{00e9}', '5', '5'],
        tags: vec!["\u{00fc}".to_owned(), "".to_owned()],
    };
    let address = store.commit(&Record::Aim(aim.clone())).unwrap();
    let details = store.handle_get_aim_details(address).unwrap();
    assert_eq!(details.aim, aim);
}
