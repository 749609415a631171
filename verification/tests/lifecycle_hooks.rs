use recipro_backend::greeting::greet;
use recipro_backend::lifecycle::{Phase, Service};
use recipro_backend::snapshot::{encode, SnapshotError};
use recipro_backend::store::Store;

fn who() -> Vec<u8> {
    vec![4, 2]
}

#[test]
fn a_new_service_is_fresh_and_empty() {
    let service = Service::new();
    assert_eq!(service.phase(), Phase::Fresh);
    assert_eq!(service.store().len(), 0);
    assert_eq!(service.store().next_id(), 0);
}

#[test]
fn on_start_gives_an_empty_store_and_the_first_id_is_zero() {
    let mut service = Service::new();
    service.on_start();
    assert_eq!(service.phase(), Phase::Running);
    assert!(service.get_all_posts().is_empty());
    assert_eq!(service.store().next_id(), 0);
    let first = service.create_post(String::from("first"), who(), 1);
    assert_eq!(first.id, 0);
}

#[test]
fn on_suspend_hands_out_the_snapshot_and_changes_no_record() {
    let mut service = Service::new();
    service.on_start();
    service.create_post(String::from("kept"), who(), 11);
    let before = service.get_all_posts();
    let blob = service.on_suspend();
    assert_eq!(service.phase(), Phase::Suspended);
    assert_eq!(service.get_all_posts(), before);
    assert_eq!(service.store().next_id(), 1);
    assert_eq!(blob, encode(service.store()));
}

#[test]
fn suspend_then_resume_in_a_new_process_keeps_every_field_and_the_cursor() {
    let mut old = Service::new();
    old.on_start();
    for n in 0..10u64 {
        old.create_post(format!("entry {}", n), vec![n as u8], 500 + n);
    }
    let records = old.get_all_posts();
    let blob = old.on_suspend();

    let mut new = Service::new();
    assert_eq!(new.on_resume(&blob), Ok(()));
    assert_eq!(new.phase(), Phase::Running);
    assert_eq!(new.get_all_posts(), records);
    assert_eq!(new.store().next_id(), 10);

    let mut straight = Store::new();
    for n in 0..10u64 {
        straight.create(format!("entry {}", n), vec![n as u8], 500 + n);
    }
    let expected = straight.create(String::from("after"), who(), 999);
    let got = new.create_post(String::from("after"), who(), 999);
    assert_eq!(got, expected);
    assert_eq!(got.id, 10);
}

#[test]
fn the_cycle_can_be_gone_through_many_times() {
    let mut service = Service::new();
    service.on_start();
    for round in 0..5u64 {
        let r = service.create_post(format!("round {}", round), who(), round);
        assert_eq!(r.id, round);
        let blob = service.on_suspend();
        assert_eq!(service.on_resume(&blob), Ok(()));
        assert_eq!(service.phase(), Phase::Running);
    }
    let ids: Vec<u64> = service.get_all_posts().iter().map(|r| r.id).collect();
    assert_eq!(ids, vec![0, 1, 2, 3, 4]);
}

#[test]
fn a_refused_snapshot_leaves_the_service_as_it_was() {
    let mut service = Service::new();
    service.on_start();
    service.create_post(String::from("safe"), who(), 1);
    let before = service.get_all_posts();
    let mut blob = service.on_suspend();
    blob.pop();
    assert_eq!(service.on_resume(&blob), Err(SnapshotError::Malformed));
    assert_eq!(service.phase(), Phase::Suspended);
    assert_eq!(service.get_all_posts(), before);
    assert_eq!(service.store().next_id(), 1);
}

#[test]
fn a_snapshot_that_breaks_the_invariant_is_refused() {
    let mut service = Service::new();
    service.on_start();
    service.create_post(String::from("one"), who(), 1);
    let mut blob = service.on_suspend();
    blob[0] = 0;
    let mut fresh = Service::new();
    assert_eq!(fresh.on_resume(&blob), Err(SnapshotError::Inconsistent));
    assert_eq!(fresh.phase(), Phase::Fresh);
    assert_eq!(fresh.store().len(), 0);
}

#[test]
fn on_start_clears_what_was_there() {
    let mut service = Service::new();
    service.on_start();
    service.create_post(String::from("gone"), who(), 1);
    service.on_start();
    assert_eq!(service.store().len(), 0);
    assert_eq!(service.store().next_id(), 0);
    assert_eq!(service.get_post(0), None);
}

#[test]
fn hello_world_again() {
    let mut service = Service::new();
    service.on_start();

    let hello = service.create_post(String::from("hello"), who(), 100);
    assert_eq!(hello.id, 0);
    assert_eq!(hello.content, "hello");

    let world = service.create_post(String::from("world"), who(), 101);
    assert_eq!(world.id, 1);
    assert_eq!(world.content, "world");

    assert_eq!(service.get_post(0), Some(hello.clone()));
    assert_eq!(service.get_post(5), None);
    assert_eq!(service.get_all_posts(), vec![hello.clone(), world.clone()]);

    let blob = service.on_suspend();
    assert_eq!(service.on_resume(&blob), Ok(()));

    let again = service.create_post(String::from("again"), who(), 102);
    assert_eq!(again.id, 2);
    assert_eq!(again.content, "again");
    assert_eq!(service.get_all_posts(), vec![hello, world, again]);
}

#[test]
fn greet_wraps_the_name() {
    assert_eq!(greet(String::from("world")), "Hello, world!");
    assert_eq!(greet(String::new()), "Hello, !");
}
