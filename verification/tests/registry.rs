use entity_registry::{Error, Registry};

#[test]
fn test_create_user() {
    let mut service = Registry::new();
    let user = service.create("John Doe".to_string(), "john@example.com".to_string()).unwrap();
    assert_eq!(user.name, "John Doe");
}

#[test]
fn test_get_user() {
    let mut service = Registry::new();
    let _ = service.create("Jane".to_string(), "jane@example.com".to_string());
    let user = service.get(1);
    assert!(user.is_some());
}

#[test]
fn create_assigns_sequential_ids() {
    let mut reg = Registry::new();
    let a = reg.create("John Doe".to_string(), "john@example.com".to_string()).unwrap();
    assert_eq!(a.id, 1);
    assert_eq!(a.name, "John Doe");
    assert_eq!(a.email, "john@example.com");
    let b = reg.create("Jane".to_string(), "jane@example.com".to_string()).unwrap();
    assert_eq!(b.id, 2);
    assert_eq!(reg.len(), 2);
}

#[test]
fn create_rejects_empty_name() {
    let mut reg = Registry::new();
    let r = reg.create("".to_string(), "x@example.com".to_string());
    assert!(matches!(r, Err(Error::InvalidInput(_))));
    assert_eq!(reg.len(), 0);
}

#[test]
fn create_rejects_empty_email() {
    let mut reg = Registry::new();
    let r = reg.create("A".to_string(), "".to_string());
    assert!(matches!(r, Err(Error::InvalidInput(_))));
    assert_eq!(reg.len(), 0);
}

#[test]
fn create_checks_name_before_email() {
    let mut reg = Registry::new();
    let r = reg.create("".to_string(), "".to_string());
    match r {
        Err(Error::InvalidInput(msg)) => assert_eq!(msg, "Name cannot be empty"),
        _ => panic!("expected InvalidInput"),
    }
}

#[test]
fn get_returns_exactly_the_stored_ids() {
    let mut reg = Registry::new();
    reg.create("A".to_string(), "a@example.com".to_string()).unwrap();
    reg.create("B".to_string(), "b@example.com".to_string()).unwrap();
    reg.create("C".to_string(), "c@example.com".to_string()).unwrap();
    assert!(reg.get(0).is_none());
    for k in 1u32..=3 {
        let rec = reg.get(k).unwrap();
        assert_eq!(rec.id, k);
    }
    assert_eq!(reg.get(2).unwrap().name, "B");
    assert!(reg.get(4).is_none());
    assert!(reg.get(u32::MAX).is_none());
}

#[test]
fn get_on_empty_registry_is_none() {
    let reg = Registry::new();
    assert!(reg.get(1).is_none());
}

#[test]
fn find_by_name_returns_matching_subset_in_id_order() {
    let mut reg = Registry::new();
    reg.create("John Doe".to_string(), "john@example.com".to_string()).unwrap();
    reg.create("Jane".to_string(), "jane@example.com".to_string()).unwrap();
    reg.create("Bob".to_string(), "bob@example.com".to_string()).unwrap();

    let js = reg.find_by_name("J");
    assert_eq!(js.len(), 2);
    assert_eq!(js[0].id, 1);
    assert_eq!(js[1].id, 2);

    let jane = reg.find_by_name("Jane");
    assert_eq!(jane.len(), 1);
    assert_eq!(jane[0].name, "Jane");

    assert!(reg.find_by_name("zzz").is_empty());
}

#[test]
fn find_by_name_is_case_sensitive() {
    let mut reg = Registry::new();
    reg.create("Jane".to_string(), "jane@example.com".to_string()).unwrap();
    assert!(reg.find_by_name("jane").is_empty());
    assert_eq!(reg.find_by_name("ane").len(), 1);
}

#[test]
fn find_by_name_empty_term_returns_all() {
    let mut reg = Registry::new();
    reg.create("John Doe".to_string(), "john@example.com".to_string()).unwrap();
    reg.create("Jane".to_string(), "jane@example.com".to_string()).unwrap();
    let all = reg.find_by_name("");
    assert_eq!(all.len(), 2);
    assert_eq!(all[0].id, 1);
    assert_eq!(all[1].id, 2);
    let empty = Registry::new();
    assert!(empty.find_by_name("").is_empty());
}

#[test]
fn full_scenario() {
    let mut reg = Registry::new();
    let john = reg.create("John Doe".to_string(), "john@example.com".to_string()).unwrap();
    assert_eq!(john.id, 1);
    let jane = reg.create("Jane".to_string(), "jane@example.com".to_string()).unwrap();
    assert_eq!(jane.id, 2);
    let got = reg.get(1).unwrap();
    assert_eq!(got.name, "John Doe");
    let only_jane = reg.find_by_name("Jane");
    assert_eq!(only_jane.len(), 1);
    assert_eq!(only_jane[0].id, 2);
    let both = reg.find_by_name("J");
    assert_eq!(both.len(), 2);
    assert_eq!(both[0].name, "John Doe");
    assert_eq!(both[1].name, "Jane");
}

#[test]
fn error_detail_carries_the_message() {
    let e = Error::NotFound("no such record".to_string());
    assert_eq!(e.detail(), "no such record");
    let io = Error::Io("disk full".to_string());
    assert_eq!(io.detail(), "disk full");
    let ser = Error::Serialization("bad encoding".to_string());
    assert_eq!(ser.detail(), "bad encoding");
}
