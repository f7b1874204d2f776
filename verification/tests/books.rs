use graphql_test::books::{interval_step, BookChanged, BookStore, MutationType};
use graphql_test::decimal::ParseIdError;
use graphql_test::keyed_broker::KeyedBroker;

fn events() -> KeyedBroker<BookChanged> {
    KeyedBroker::new()
}

#[test]
fn create_books() {
    let mut ev = events();
    let mut store = BookStore::new();
    assert_eq!(store.books().len(), 0);
    let book_id = store.create_book(&mut ev, "nn".to_string(), "aa b".to_string());
    let books = store.books();
    assert_eq!(books.len(), 1);
    let book = &books[0];
    assert_eq!(book.name, "nn");
    assert_eq!(book.author, "aa b");
    assert_eq!(book.id, book_id);
}

#[test]
fn ids_are_keys_in_decimal() {
    let mut ev = events();
    let mut store = BookStore::new();
    let a = store.create_book(&mut ev, "a".to_string(), "x".to_string());
    let b = store.create_book(&mut ev, "b".to_string(), "y".to_string());
    let c = store.create_book(&mut ev, "c".to_string(), "z".to_string());
    assert_eq!((a.as_str(), b.as_str(), c.as_str()), ("0", "1", "2"));
    let names: Vec<String> = store.books().into_iter().map(|b| b.name).collect();
    assert_eq!(names, vec!["a", "b", "c"]);
}

#[test]
fn created_book_is_found_by_its_id() {
    let mut ev = events();
    let mut store = BookStore::new();
    let id = store.create_book(&mut ev, "Dune".to_string(), "Herbert".to_string());
    let book = store.book(&id).unwrap().unwrap();
    assert_eq!(book.id, id);
    assert_eq!(book.name, "Dune");
    assert_eq!(book.author, "Herbert");
    assert!(store.book("1").unwrap().is_none());
}

#[test]
fn subscribers_get_created_and_deleted_events() {
    let mut ev = events();
    let (_, mut rx) = ev.subscribe(String::new());
    let (_, mut other) = ev.subscribe("other".to_string());
    let mut store = BookStore::new();
    let id = store.create_book(&mut ev, "a".to_string(), "x".to_string());
    let e = rx.try_next().unwrap().unwrap();
    assert_eq!(e.mutation_type, MutationType::Created);
    assert_eq!(e.id, id);
    assert_eq!(store.delete_book(&mut ev, &id), Ok(true));
    let e = rx.try_next().unwrap().unwrap();
    assert_eq!(e.mutation_type, MutationType::Deleted);
    assert_eq!(e.id, "0");
    // nothing more, and nothing under another key
    assert!(rx.try_next().is_err());
    assert!(other.try_next().is_err());
    // a failed deletion announces nothing
    assert_eq!(store.delete_book(&mut ev, &id), Ok(false));
    assert!(rx.try_next().is_err());
}

#[test]
fn delete_removes_the_book_once() {
    let mut ev = events();
    let mut store = BookStore::new();
    let id = store.create_book(&mut ev, "a".to_string(), "x".to_string());
    store.create_book(&mut ev, "b".to_string(), "y".to_string());
    assert_eq!(store.delete_book(&mut ev, &id), Ok(true));
    assert!(store.book(&id).unwrap().is_none());
    assert_eq!(store.delete_book(&mut ev, &id), Ok(false));
    assert_eq!(store.books().len(), 1);
}

#[test]
fn delete_event_names_the_key_in_decimal() {
    let mut ev = events();
    let (_, mut rx) = ev.subscribe(String::new());
    let mut store = BookStore::new();
    store.create_book(&mut ev, "a".to_string(), "x".to_string());
    store.create_book(&mut ev, "b".to_string(), "y".to_string());
    assert_eq!(store.delete_book(&mut ev, "+01"), Ok(true));
    rx.try_next().unwrap();
    rx.try_next().unwrap();
    let e = rx.try_next().unwrap().unwrap();
    assert_eq!(e.mutation_type, MutationType::Deleted);
    assert_eq!(e.id, "1");
}

#[test]
fn freed_key_is_used_again() {
    let mut ev = events();
    let mut store = BookStore::new();
    store.create_book(&mut ev, "a".to_string(), "x".to_string());
    store.create_book(&mut ev, "b".to_string(), "y".to_string());
    store.create_book(&mut ev, "c".to_string(), "y".to_string());
    store.delete_book(&mut ev, "0").unwrap();
    store.delete_book(&mut ev, "2").unwrap();
    // the key freed last comes first
    let id = store.create_book(&mut ev, "d".to_string(), "z".to_string());
    assert_eq!(id, "2");
    let id = store.create_book(&mut ev, "e".to_string(), "w".to_string());
    assert_eq!(id, "0");
    let id = store.create_book(&mut ev, "f".to_string(), "w".to_string());
    assert_eq!(id, "3");
}

#[test]
fn bad_ids_are_refused() {
    let mut ev = events();
    let mut store = BookStore::new();
    store.create_book(&mut ev, "a".to_string(), "x".to_string());
    assert_eq!(store.delete_book(&mut ev, "x").unwrap_err(), ParseIdError::InvalidDigit);
    assert_eq!(store.delete_book(&mut ev, "").unwrap_err(), ParseIdError::Empty);
    assert_eq!(store.book("99999999999999999999999").unwrap_err(), ParseIdError::Overflow);
    assert_eq!(store.books().len(), 1);
}

#[test]
fn subscription_filter() {
    let created = BookChanged { mutation_type: MutationType::Created, id: "0".to_string() };
    let deleted = BookChanged { mutation_type: MutationType::Deleted, id: "0".to_string() };
    assert!(created.matches(None));
    assert!(deleted.matches(None));
    assert!(created.matches(Some(MutationType::Created)));
    assert!(!created.matches(Some(MutationType::Deleted)));
    assert!(deleted.matches(Some(MutationType::Deleted)));
}

#[test]
fn interval_accumulates_its_step() {
    let mut v = 0;
    for _ in 0..5 {
        v = interval_step(v, 3).unwrap();
    }
    assert_eq!(v, 15);
    assert_eq!(interval_step(i32::MAX, 1), None);
    assert_eq!(interval_step(i32::MIN, -1), None);
    assert_eq!(interval_step(-4, 1), Some(-3));
}

#[test]
fn filtered_subscriber_sees_announced_events_of_its_kind_in_order() {
    let mut ev = events();
    let mut store = BookStore::new();
    // an event before the subscription is not seen
    store.create_book(&mut ev, "early".to_string(), "x".to_string());
    let (_, mut rx) = ev.subscribe(String::new());
    store.create_book(&mut ev, "a".to_string(), "x".to_string());
    assert_eq!(store.delete_book(&mut ev, "0"), Ok(true));
    store.create_book(&mut ev, "b".to_string(), "y".to_string());
    let mut all = Vec::new();
    while let Ok(Some(e)) = rx.try_next() {
        all.push(e);
    }
    let seen: Vec<(MutationType, String)> =
        all.iter().map(|e| (e.mutation_type, e.id.clone())).collect();
    assert_eq!(
        seen,
        vec![
            (MutationType::Created, "1".to_string()),
            (MutationType::Deleted, "0".to_string()),
            (MutationType::Created, "0".to_string()),
        ]
    );
    let created: Vec<String> = all
        .iter()
        .filter(|e| e.matches(Some(MutationType::Created)))
        .map(|e| e.id.clone())
        .collect();
    assert_eq!(created, vec!["1".to_string(), "0".to_string()]);
}
