use aimstore::effort::Effort;
use aimstore::graph::{handle_get_agent_address, handle_get_my_agent_address};
use aimstore::records::{Address, Record};
use aimstore::store::{LinkFilter, Store};

fn owner() -> Address {
    Address::from_bytes(vec![42])
}

fn create_aim(store: &mut Store, title: &str) -> Address {
    store
        .handle_create_aim(
            owner(),
            title.to_owned(),
            format!("about {}", title),
            Effort::Hours(4),
            1_600_000_000_000,
            ['2', '2', '2', '2', '2', '2'],
            vec![],
        )
        .unwrap()
}

#[test]
fn connection_is_traversable_in_both_directions_with_its_weight() {
    let mut store = Store::new();
    let a = create_aim(&mut store, "contributor");
    let b = create_aim(&mut store, "receiver");
    store.handle_create_connection(a.clone(), b.clone(), 3).unwrap();

    let receiving = store.handle_get_receiving_aims(a.clone()).unwrap();
    assert_eq!(receiving.len(), 1);
    assert_eq!(receiving[0].aim.title, "receiver");
    assert_eq!(receiving[0].aim_address, b);
    assert_eq!(receiving[0].connection.contributing, a);
    assert_eq!(receiving[0].connection.receiving, b);
    assert_eq!(receiving[0].connection.contribution, 3);

    let contributing = store.handle_get_contributing_aims(b).unwrap();
    assert_eq!(contributing.len(), 1);
    assert_eq!(contributing[0].aim.title, "contributor");
    assert_eq!(contributing[0].aim_address, a);
    assert_eq!(contributing[0].connection.contribution, 3);
    assert_eq!(contributing[0].connection_address, receiving[0].connection_address);
}

#[test]
fn end_to_end_commit_connect_and_list_in_creation_order() {
    let mut store = Store::new();
    let a = create_aim(&mut store, "A");
    let b = create_aim(&mut store, "B");
    store.handle_create_connection(a.clone(), b.clone(), 3).unwrap();

    let connected = store.get_connected_aims(a.clone(), "contributes_to".to_owned()).unwrap();
    assert_eq!(connected.len(), 1);
    assert_eq!(connected[0].aim.title, "B");
    assert_eq!(connected[0].connection.contributing, a);
    assert_eq!(connected[0].connection.receiving, b);
    assert_eq!(connected[0].connection.contribution, 3);

    let aims = store.handle_get_aims(owner()).unwrap();
    assert_eq!(aims.len(), 2);
    assert_eq!(aims[0].title, "A");
    assert_eq!(aims[1].title, "B");
}

#[test]
fn traversal_follows_only_the_first_aim_link_of_a_connection() {
    let mut store = Store::new();
    let a = create_aim(&mut store, "start");
    let b = create_aim(&mut store, "first far side");
    let c = create_aim(&mut store, "second far side");
    store.handle_create_connection(a.clone(), b, 1).unwrap();
    let conns = store.links_from(&a, &LinkFilter::Exactly("contributes_to_connection".to_owned()));
    assert_eq!(conns.len(), 1);
    let caddr = conns[0].0.clone();
    // A second _aim link on the same connection: the index keeps it, the
    // traversal ignores it.
    store.link(caddr, c, "contributes_to_aim".to_owned(), "".to_owned());
    let connected = store.handle_get_receiving_aims(a).unwrap();
    assert_eq!(connected.len(), 1);
    assert_eq!(connected[0].aim.title, "first far side");
}

#[test]
fn traversal_keeps_connection_creation_order() {
    let mut store = Store::new();
    let a = create_aim(&mut store, "hub");
    let b = create_aim(&mut store, "spoke one");
    let c = create_aim(&mut store, "spoke two");
    store.handle_create_connection(a.clone(), b, 1).unwrap();
    store.handle_create_connection(a.clone(), c, 2).unwrap();
    let connected = store.handle_get_receiving_aims(a).unwrap();
    assert_eq!(connected.len(), 2);
    assert_eq!(connected[0].aim.title, "spoke one");
    assert_eq!(connected[0].connection.contribution, 1);
    assert_eq!(connected[1].aim.title, "spoke two");
    assert_eq!(connected[1].connection.contribution, 2);
}

#[test]
fn creating_the_same_connection_twice_doubles_the_traversal() {
    let mut store = Store::new();
    let a = create_aim(&mut store, "repeat source");
    let b = create_aim(&mut store, "repeat sink");
    store.handle_create_connection(a.clone(), b.clone(), 5).unwrap();
    store.handle_create_connection(a.clone(), b.clone(), 5).unwrap();
    // Identical content commits once, but each link call appends its own
    // index entry: the traversal sees two candidates for one record.
    let connected = store.handle_get_receiving_aims(a).unwrap();
    assert_eq!(connected.len(), 2);
    assert_eq!(connected[0].aim_address, b);
    assert_eq!(connected[1].aim_address, b);
    assert_eq!(connected[0].connection_address, connected[1].connection_address);
    assert_eq!(connected[0].connection.contribution, 5);
    assert_eq!(connected[1].connection.contribution, 5);
}

#[test]
fn traversal_drops_a_connection_whose_far_aim_is_corrupt() {
    let mut store = Store::new();
    let a = create_aim(&mut store, "start");
    let b = create_aim(&mut store, "good far side");
    let paddr = store.handle_create_profile(owner(), "imposter".to_owned()).unwrap();
    // One good connection, then one whose far side is a profile.
    store.handle_create_connection(a.clone(), b, 2).unwrap();
    store.handle_create_connection(a.clone(), paddr, 5).unwrap();
    let connected = store.handle_get_receiving_aims(a).unwrap();
    assert_eq!(connected.len(), 1);
    assert_eq!(connected[0].aim.title, "good far side");
    assert_eq!(connected[0].connection.contribution, 2);
}

#[test]
fn receiving_and_contributing_aim_creation_write_the_connection() {
    let mut store = Store::new();
    let root = create_aim(&mut store, "root of work");
    let downstream = store
        .handle_create_receiving_aim(
            owner(),
            "downstream".to_owned(),
            "d".to_owned(),
            Effort::Days(2),
            5,
            ['3', '3', '3', '3', '3', '3'],
            vec![],
            root.clone(),
        )
        .unwrap();
    let receiving = store.handle_get_receiving_aims(root.clone()).unwrap();
    assert_eq!(receiving.len(), 1);
    assert_eq!(receiving[0].aim_address, downstream);
    assert_eq!(receiving[0].connection.contribution, 1);

    let upstream = store
        .handle_create_contributing_aim(
            owner(),
            "upstream".to_owned(),
            "d".to_owned(),
            Effort::Days(2),
            6,
            ['4', '4', '4', '4', '4', '4'],
            vec![],
            root.clone(),
        )
        .unwrap();
    let contributing = store.handle_get_contributing_aims(root).unwrap();
    assert_eq!(contributing.len(), 1);
    assert_eq!(contributing[0].aim_address, upstream);
    assert_eq!(contributing[0].connection.contribution, 1);
}

#[test]
fn root_aim_is_created_once_and_found_afterwards() {
    let mut store = Store::new();
    assert_eq!(store.handle_get_root_aim_address(owner()).unwrap(), None);
    let first = store.handle_get_root_aim_address_or_create(owner()).unwrap();
    let second = store.handle_get_root_aim_address_or_create(owner()).unwrap();
    assert_eq!(first, second);
    assert_eq!(
        store.handle_get_root_aim_address(owner()).unwrap(),
        Some(first.clone())
    );
    let links = store.links_from(&owner(), &LinkFilter::Exactly("has_root_aim".to_owned()));
    assert_eq!(links.len(), 1);
    let details = store.handle_get_aim_details(first).unwrap();
    assert_eq!(details.aim.title, "root aim");
    assert_eq!(details.aim.effort, Effort::Years(100));
}

#[test]
fn explicit_root_aim_creation_returns_the_aim_address() {
    let mut store = Store::new();
    let address = store.handle_create_root_aim(owner()).unwrap();
    let details = store.handle_get_aim_details(address.clone()).unwrap();
    assert_eq!(details.aim.title, "root aim");
    assert_eq!(store.handle_get_root_aim_address(owner()).unwrap(), Some(address));
}

#[test]
fn singletons_of_different_owners_are_independent() {
    let mut store = Store::new();
    let first_owner = Address::from_bytes(vec![1]);
    let second_owner = Address::from_bytes(vec![2]);
    let one = store.handle_get_root_aim_address_or_create(first_owner.clone()).unwrap();
    let two = store.handle_get_root_aim_address_or_create(second_owner.clone()).unwrap();
    // The root aim record is identical content, so it is stored once.
    assert_eq!(one, two);
    assert_eq!(
        store.links_from(&first_owner, &LinkFilter::Exactly("has_root_aim".to_owned())).len(),
        1
    );
    assert_eq!(
        store.links_from(&second_owner, &LinkFilter::Exactly("has_root_aim".to_owned())).len(),
        1
    );
}

#[test]
fn get_or_create_singleton_keeps_the_first_record() {
    let mut store = Store::new();
    let record = Record::Aim(aimstore::records::Aim {
        title: "well known".to_owned(),
        description: "d".to_owned(),
        effort: Effort::Months(1),
        timestamp_ms: 0,
        color: ['5', '5', '5', '5', '5', '5'],
        tags: vec![],
    });
    let a1 = store.get_or_create_singleton(owner(), "has_thing".to_owned(), &record).unwrap();
    let a2 = store.get_or_create_singleton(owner(), "has_thing".to_owned(), &record).unwrap();
    assert_eq!(a1, a2);
    assert_eq!(
        store.links_from(&owner(), &LinkFilter::Exactly("has_thing".to_owned())).len(),
        1
    );
}

#[test]
fn profiles_list_with_and_without_addresses() {
    let mut store = Store::new();
    let first_addr = store.handle_create_profile(owner(), "first name".to_owned()).unwrap();
    let second_addr = store.handle_create_profile(owner(), "second name".to_owned()).unwrap();
    let with = store.handle_get_my_profiles(owner()).unwrap();
    assert_eq!(with.len(), 2);
    assert_eq!(with[0].address, first_addr);
    assert_eq!(with[0].entry.name, "first name");
    assert_eq!(with[0].entry.creator, owner());
    assert_eq!(with[1].address, second_addr);
    assert_eq!(with[1].entry.name, "second name");
    let without = store.handle_get_my_profiles_without_addresses(owner()).unwrap();
    assert_eq!(without.len(), 2);
    assert_eq!(without[0].name, "first name");
    assert_eq!(without[1].name, "second name");
}

#[test]
fn agent_address_is_the_callers_identity() {
    assert_eq!(handle_get_agent_address(owner()).unwrap(), owner());
    let other = Address::from_bytes(vec![1, 2, 3]);
    assert_eq!(handle_get_my_agent_address(other.clone()).unwrap(), other);
}
