use cluster_client::db_client::pool::StandalonePool;
use cluster_client::model::{Endpoint, WriteRequest};
use std::cell::RefCell;
use std::sync::Arc;

fn ep(addr: &str) -> Endpoint {
    Endpoint::new(addr.to_string())
}

#[test]
fn handle_is_built_once_per_endpoint() {
    let asked: RefCell<Vec<String>> = RefCell::new(Vec::new());
    let mut pool = StandalonePool::new(|addr: String| {
        asked.borrow_mut().push(addr.clone());
        addr
    });
    let first = pool.get_or_create(&ep("1.1.1.1:1111"));
    assert_eq!(*first, "1.1.1.1:1111");
    assert_eq!(*asked.borrow(), vec!["1.1.1.1:1111".to_string()]);
    for _ in 0..5 {
        let again = pool.get_or_create(&ep("1.1.1.1:1111"));
        assert!(Arc::ptr_eq(&first, &again));
    }
    assert_eq!(asked.borrow().len(), 1);
}

#[test]
fn endpoints_get_handles_of_their_own() {
    let asked: RefCell<Vec<String>> = RefCell::new(Vec::new());
    let mut pool = StandalonePool::new(|addr: String| {
        asked.borrow_mut().push(addr.clone());
        format!("<{}>", addr)
    });
    let a = pool.get_or_create(&ep("a:1"));
    let b = pool.get_or_create(&ep("b:2"));
    let c = pool.get_or_create(&ep("c:3"));
    assert_eq!((a.as_str(), b.as_str(), c.as_str()), ("<a:1>", "<b:2>", "<c:3>"));
    assert!(!Arc::ptr_eq(&a, &b));
    assert!(!Arc::ptr_eq(&b, &c));
    assert!(Arc::ptr_eq(&b, &pool.get_or_create(&ep("b:2"))));
    assert!(Arc::ptr_eq(&a, &pool.get_or_create(&ep("a:1"))));
    assert!(Arc::ptr_eq(&c, &pool.get_or_create(&ep("c:3"))));
    assert_eq!(*asked.borrow(), vec!["a:1".to_string(), "b:2".to_string(), "c:3".to_string()]);
}

#[test]
fn handle_outlives_its_callers() {
    let mut pool = StandalonePool::new(|addr: String| addr);
    let first = pool.get_or_create(&ep("a:1"));
    let raw = Arc::as_ptr(&first);
    assert_eq!(Arc::strong_count(&first), 2);
    drop(first);
    let again = pool.get_or_create(&ep("a:1"));
    assert_eq!(Arc::as_ptr(&again), raw);
}

#[test]
fn endpoints_are_told_apart_by_address() {
    assert!(ep("a:1").same_node(&ep("a:1")));
    assert!(!ep("a:1").same_node(&ep("a:2")));
    assert_eq!(ep("a:1"), Endpoint { addr: "a:1".to_string() });
    assert_eq!(ep("a:1").as_str(), "a:1");
}

#[test]
fn request_holds_one_entry_per_name() {
    let mut req: WriteRequest<Vec<f64>> = WriteRequest::new();
    assert!(req.is_empty());
    assert_eq!(req.insert("cpu".to_string(), vec![0.5]), None);
    assert_eq!(req.insert("mem".to_string(), vec![1.5, 2.5]), None);
    assert_eq!(req.insert("cpu".to_string(), vec![9.0]), Some(vec![0.5]));
    assert_eq!(req.len(), 2);
    assert!(!req.is_empty());
    assert_eq!(req.names(), vec!["cpu".to_string(), "mem".to_string()]);
    assert_eq!(req.get(&"cpu".to_string()), Some(&vec![9.0]));
    assert_eq!(req.get(&"mem".to_string()), Some(&vec![1.5, 2.5]));
    assert_eq!(req.get(&"disk".to_string()), None);
    assert_eq!(req.position(&"mem".to_string()), Some(1));
    assert_eq!(req.position(&"disk".to_string()), None);
}

#[test]
fn request_clone_and_entries_keep_the_order() {
    let mut req: WriteRequest<u8> = WriteRequest::default();
    req.insert("b".to_string(), 2);
    req.insert("a".to_string(), 1);
    req.insert("c".to_string(), 3);
    let copy = req.clone();
    assert_eq!(copy.names(), req.names());
    assert_eq!(
        copy.into_entries(),
        vec![("b".to_string(), 2), ("a".to_string(), 1), ("c".to_string(), 3)]
    );
}
