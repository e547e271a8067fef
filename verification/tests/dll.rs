use lowpoly::dll::DLL;

#[test]
fn accessors_work() {
    let dll = DLL::new(vec![0, 1, 2, 3, 4, 5, 6, 7, 8, 9]);
    assert_eq!(dll.head().unwrap().value, 0);
    assert_eq!(dll.get(1).unwrap().value, 1);
    assert_eq!(dll.tail().unwrap().value, 9);
    let before_tail = dll.tail().unwrap().prev().unwrap();
    assert_eq!(dll.get(before_tail).unwrap().value, 8);
    let after_second = dll.get(1).unwrap().next().unwrap();
    assert_eq!(dll.get(after_second).unwrap().value, 2);
}

#[test]
fn empty_list_has_no_ends() {
    let dll: DLL<u8> = DLL::new(vec![]);
    assert_eq!(dll.len(), 0);
    assert!(dll.head().is_none());
    assert!(dll.tail().is_none());
    assert!(dll.get(0).is_none());
}

#[test]
fn get_walks_the_links() {
    let dll = DLL::new(vec!['a', 'b', 'c']);
    assert_eq!(dll.len(), 3);
    assert_eq!(dll.get(0).unwrap().value, 'a');
    assert_eq!(dll.get(2).unwrap().value, 'c');
    assert!(dll.get(3).is_none());
    assert!(dll.get(4).is_none());
    assert!(dll.head().unwrap().prev().is_none());
    assert!(dll.tail().unwrap().next().is_none());
    assert_eq!(dll.get(1).unwrap().prev(), Some(0));
    assert_eq!(dll.get(1).unwrap().next(), Some(2));
}
