use recipro_backend::record::Record;
use recipro_backend::store::Store;

fn alice() -> Vec<u8> {
    vec![0xa1, 0x1c, 0x0e]
}

fn bob() -> Vec<u8> {
    vec![0xb0, 0x0b]
}

#[test]
fn a_new_store_is_empty_with_cursor_zero() {
    let store = Store::new();
    assert_eq!(store.len(), 0);
    assert_eq!(store.next_id(), 0);
    assert!(store.list().is_empty());
    assert!(store.records().is_empty());
    assert!(!store.is_exhausted());
}

#[test]
fn create_returns_the_record_it_stored() {
    let mut store = Store::new();
    let r = store.create(String::from("hello"), alice(), 1_700_000_000_000_000_000);
    assert_eq!(
        r,
        Record {
            id: 0,
            author: alice(),
            content: String::from("hello"),
            created_at: 1_700_000_000_000_000_000,
        }
    );
    assert_eq!(store.next_id(), 1);
    assert_eq!(store.len(), 1);
}

#[test]
fn identifiers_are_distinct_and_rise_in_call_order() {
    let mut store = Store::new();
    let mut ids: Vec<u64> = Vec::new();
    for n in 0..50u64 {
        let r = store.create(format!("post {}", n), alice(), 1000 + n);
        ids.push(r.id);
    }
    for i in 1..ids.len() {
        assert!(ids[i - 1] < ids[i]);
    }
    for (i, id) in ids.iter().enumerate() {
        assert_eq!(*id, i as u64);
    }
    assert_eq!(store.next_id(), 50);
}

#[test]
fn get_after_create_returns_an_equal_record() {
    let mut store = Store::new();
    store.create(String::from("first"), alice(), 10);
    let made = store.create(String::from("second"), bob(), 20);
    let found = store.get(made.id);
    assert_eq!(found, Some(made));
    let first = store.get(0).unwrap();
    assert_eq!(first.content, "first");
    assert_eq!(first.author, alice());
    assert_eq!(first.created_at, 10);
}

#[test]
fn get_finds_every_record_among_many() {
    let mut store = Store::new();
    for n in 0..33u64 {
        store.create(format!("text {}", n), bob(), n * 7);
    }
    for n in 0..33u64 {
        let r = store.get(n).unwrap();
        assert_eq!(r.id, n);
        assert_eq!(r.content, format!("text {}", n));
        assert_eq!(r.created_at, n * 7);
    }
    assert_eq!(store.get(33), None);
}

#[test]
fn get_of_an_identifier_never_given_out_is_absent() {
    let mut store = Store::new();
    assert_eq!(store.get(0), None);
    store.create(String::from("only"), alice(), 1);
    assert_eq!(store.get(1), None);
    assert_eq!(store.get(5), None);
    assert_eq!(store.get(u64::MAX), None);
}

#[test]
fn list_is_in_ascending_order_whatever_was_read_between() {
    let mut store = Store::new();
    store.create(String::from("a"), alice(), 1);
    assert!(store.get(0).is_some());
    store.create(String::from("b"), bob(), 2);
    assert!(store.get(7).is_none());
    store.create(String::from("c"), alice(), 3);
    let all = store.list();
    let ids: Vec<u64> = all.iter().map(|r| r.id).collect();
    assert_eq!(ids, vec![0, 1, 2]);
    let texts: Vec<&str> = all.iter().map(|r| r.content.as_str()).collect();
    assert_eq!(texts, vec!["a", "b", "c"]);
    assert_eq!(&all, store.records());
}

#[test]
fn list_is_a_copy_that_later_creations_do_not_change() {
    let mut store = Store::new();
    store.create(String::from("a"), alice(), 1);
    let before = store.list();
    store.create(String::from("b"), alice(), 2);
    assert_eq!(before.len(), 1);
    assert_eq!(store.list().len(), 2);
}

#[test]
fn empty_and_large_text_are_accepted() {
    let mut store = Store::new();
    let empty = store.create(String::new(), Vec::new(), 0);
    assert_eq!(empty.content, "");
    assert!(empty.author.is_empty());
    let big = "x".repeat(200_000);
    let large = store.create(big.clone(), alice(), 0);
    assert_eq!(large.id, 1);
    assert_eq!(store.get(1).unwrap().content, big);
}

#[test]
fn a_record_clone_is_equal_in_every_field() {
    let r = Record { id: 9, author: bob(), content: String::from("né"), created_at: 77 };
    let c = r.clone();
    assert_eq!(c, r);
    assert_eq!(c.id, 9);
    assert_eq!(c.author, bob());
    assert_eq!(c.content, "né");
    assert_eq!(c.created_at, 77);
}

fn record(id: u64) -> Record {
    Record { id, author: alice(), content: format!("r{}", id), created_at: id + 100 }
}

#[test]
fn from_parts_takes_rising_identifiers_below_the_cursor() {
    let store = Store::from_parts(vec![record(2), record(5), record(6)], 9).unwrap();
    assert_eq!(store.next_id(), 9);
    assert_eq!(store.len(), 3);
    assert_eq!(store.get(5), Some(record(5)));
    assert_eq!(store.get(3), None);
    assert_eq!(store.get(0), None);
    assert_eq!(store.get(8), None);
    assert_eq!(store.list(), vec![record(2), record(5), record(6)]);
}

#[test]
fn from_parts_takes_nothing_at_all() {
    let store = Store::from_parts(Vec::new(), 0).unwrap();
    assert_eq!(store.len(), 0);
    assert_eq!(store.next_id(), 0);
}

#[test]
fn from_parts_refuses_an_identifier_at_the_cursor() {
    assert!(Store::from_parts(vec![record(0), record(1)], 1).is_none());
    assert!(Store::from_parts(vec![record(0)], 0).is_none());
}

#[test]
fn from_parts_refuses_identifiers_that_do_not_rise() {
    assert!(Store::from_parts(vec![record(1), record(0)], 5).is_none());
    assert!(Store::from_parts(vec![record(0), record(3), record(3)], 5).is_none());
    assert!(Store::from_parts(vec![record(0), record(4), record(2), record(6)], 7).is_none());
}

#[test]
fn creation_goes_on_from_the_cursor_of_a_sparse_store() {
    let mut store = Store::from_parts(vec![record(2), record(5)], 9).unwrap();
    let r = store.create(String::from("next"), bob(), 1);
    assert_eq!(r.id, 9);
    assert_eq!(store.next_id(), 10);
    assert_eq!(store.get(9), Some(r));
}

#[test]
fn a_store_at_the_last_identifier_is_exhausted() {
    let full = Store::from_parts(Vec::new(), u64::MAX).unwrap();
    assert!(full.is_exhausted());
    let mut nearly = Store::from_parts(Vec::new(), u64::MAX - 1).unwrap();
    assert!(!nearly.is_exhausted());
    let r = nearly.create(String::from("last"), alice(), 0);
    assert_eq!(r.id, u64::MAX - 1);
    assert!(nearly.is_exhausted());
}

#[test]
fn the_default_store_is_the_empty_one() {
    let mut store = Store::default();
    assert_eq!(store.len(), 0);
    assert_eq!(store.next_id(), 0);
    assert_eq!(store.create(String::from("x"), alice(), 1).id, 0);
}
