use algorithms::data_structures::linked_list::first;
use algorithms::data_structures::linked_list::second;

#[test]
fn first_test() {
    let mut list = first::List::new();

    assert_eq!(None, list.pop());

    list.push(1);
    list.push(2);
    list.push(3);

    assert_eq!(Some(3), list.pop());
    assert_eq!(Some(2), list.pop());

    list.push(4);
    list.push(5);

    assert_eq!(Some(5), list.pop());
    assert_eq!(Some(4), list.pop());
    assert_eq!(Some(1), list.pop());
    assert_eq!(None, list.pop());
}

#[test]
fn second_test() {
    let mut list = second::List::new();

    assert_eq!(None, list.pop());

    list.push(1);
    list.push(2);
    list.push(3);

    assert_eq!(Some(3), list.pop());
    assert_eq!(Some(2), list.pop());

    list.push(4);
    list.push(5);

    assert_eq!(Some(5), list.pop());
    assert_eq!(Some(4), list.pop());
    assert_eq!(Some(1), list.pop());
    assert_eq!(None, list.pop());
}

#[test]
fn peek() {
    let mut list = second::List::new();

    assert_eq!(None, list.peek());
    assert_eq!(None, list.peek_mut());

    list.push(1);
    list.push(2);
    list.push(3);

    assert_eq!(Some(&3), list.peek());
    assert_eq!(Some(&mut 3), list.peek_mut());

    list.peek_mut().map(|value| *value = 42);

    assert_eq!(Some(&42), list.peek());
    assert_eq!(Some(42), list.pop());
}

#[test]
fn into_iter() {
    let mut list = second::List::new();

    list.push(1);
    list.push(2);
    list.push(3);

    let mut iter = list.into_iter();
    assert_eq!(iter.next(), Some(3));
    assert_eq!(iter.next(), Some(2));
    assert_eq!(iter.next(), Some(1));
    assert_eq!(iter.next(), None);
}

#[test]
fn second_list_holds_owned_values() {
    let mut list = second::List::new();
    list.push(String::from("a"));
    list.push(String::from("b"));
    assert_eq!(Some(&String::from("b")), list.peek());
    if let Some(top) = list.peek_mut() {
        top.push('!');
    }
    assert_eq!(Some(String::from("b!")), list.pop());
    assert_eq!(Some(String::from("a")), list.pop());
    assert_eq!(None, list.pop());
    assert_eq!(None, list.peek());
}

#[test]
fn popping_an_empty_first_list_changes_nothing() {
    let mut list = first::List::new();
    assert_eq!(None, list.pop());
    assert_eq!(None, list.pop());
    list.push(-7);
    assert_eq!(Some(-7), list.pop());
    assert_eq!(None, list.pop());
}
