use lowpoly::cons::List;

#[test]
fn a_list_hands_out_its_first_and_its_second_value() {
    let a = List::cons(13, List::new(14));
    assert_eq!(List::car(&a), Ok(&13));
    assert_eq!(List::cadr(&a), Ok(&14));
    let rest = List::cdr(&a).unwrap();
    assert_eq!(List::car(rest), Ok(&14));
    assert!(matches!(List::cdr(rest), Ok(List::Nil)));
}

#[test]
fn the_empty_list_has_neither_head_nor_tail() {
    let nil: List<u8> = List::Nil;
    assert_eq!(List::car(&nil), Err("Cannot get car of Nil"));
    assert!(matches!(List::cdr(&nil), Err("Cannot get cdr of Nil")));
}

#[test]
fn a_list_of_one_has_no_second_value() {
    let one = List::new('x');
    assert_eq!(List::cadr(&one), Err("Cannot get car of Nil"));
}
