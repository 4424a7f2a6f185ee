use radix_trie::{new_trie, Node};

#[test]
fn new_default_tree() {
    let tr = new_trie::<u8>();
    assert_eq!("", tr.frag);
}

#[test]
fn shared_pref() {
    assert_eq!(Some(5), Node::<u8>::shared_pref_idx("romane", "romanus"));
}

#[test]
fn compare_paths() {
    // Same string
    assert_eq!((Some("abc"), None, None), Node::<u8>::cmp_frag("abc", "abc"));
    // Shared prefix with remainder on the input string
    assert_eq!((Some("abc"), Some("d"), None), Node::<u8>::cmp_frag("abcd", "abc"));
    // Shared prefix with remainder on the existing prefix, new prefix.
    assert_eq!((Some("ab"), None, Some("c")), Node::<u8>::cmp_frag("ab", "abc"));
    // Shared prefix with remainder on input and existing string
    assert_eq!(
        (Some("abc"), Some("def"), Some("hij")),
        Node::<u8>::cmp_frag("abcdef", "abchij")
    );
    // No match
    assert_eq!((None, None, None), Node::<u8>::cmp_frag("some", "noen"));
}

#[test]
fn romane_romanus_test() {
    let mut tr = new_trie::<u8>();
    tr.add("romane", 1);
    tr.add("romanus", 2);
    tr.add("romulus", 3);
    tr.add("rubens", 4);
    tr.add("ruber", 5);
    tr.add("rubicon", 6);
    tr.add("rubicundus", 7);
    assert_eq!(Some(1), tr.find("romane").unwrap().value);
    assert_eq!(Some(2), tr.find("romanus").unwrap().value);
    assert_eq!(Some(3), tr.find("romulus").unwrap().value);
    assert_eq!(Some(4), tr.find("rubens").unwrap().value);
    assert_eq!(Some(5), tr.find("ruber").unwrap().value);
    assert_eq!(Some(6), tr.find("rubicon").unwrap().value);
    assert_eq!(Some(7), tr.find("rubicundus").unwrap().value);
}

#[test]
fn new_insertion_becomes_prefix_test() {
    let mut tr = new_trie::<u8>();
    tr.add("/abc", 1);
    assert_eq!("/abc", tr.children[0].frag);
    tr.add("/ab", 2);
    assert_eq!("/ab", tr.children[0].frag);
    assert_eq!("c", tr.children[0].children[0].frag);
    assert_eq!(Some(2), tr.find("/ab").unwrap().value);
    assert_eq!(Some(1), tr.find("/abc").unwrap().value);
}

#[test]
fn new_insertion_added_to_existing_prefix_test() {
    let mut tr = new_trie::<u8>();
    tr.add("/abc", 1);
    assert_eq!("/abc", tr.children[0].frag);
    tr.add("/abcdef", 2);
    assert_eq!("/abc", tr.children[0].frag);
    assert_eq!("def", tr.children[0].children[0].frag);
    assert_eq!(Some(1), tr.find("/abc").unwrap().value);
    assert_eq!(Some(2), tr.find("/abcdef").unwrap().value);
}

#[test]
fn new_insertion_with_shared_prefix_chars_test() {
    let mut tr = new_trie::<u8>();
    tr.add("/abc", 1);
    tr.add("/def", 2);
    assert_eq!("/", tr.children[0].frag);
    assert_eq!("abc", tr.children[0].children[0].frag);
    assert_eq!("def", tr.children[0].children[1].frag);
    assert_eq!(Some(1), tr.find("/abc").unwrap().value);
    assert_eq!(Some(2), tr.find("/def").unwrap().value);
    assert!(tr.children[0].children[0].children.is_empty());
    assert!(tr.children[0].children[1].children.is_empty());
}

#[test]
fn new_prefix_with_value() {
    let mut tr = new_trie::<u8>();
    tr.add("newsomething", 1);
    tr.add("newprefix", 2);
    // this will promote a 'new' node with two nodes 'something' and 'prefix'.
    assert_eq!(None, tr.find("new").unwrap().value);
    assert_eq!(Some(1), tr.find("newsomething").unwrap().value);
    assert_eq!(Some(2), tr.find("newprefix").unwrap().value);
}

#[test]
fn override_value() {
    let mut tr = new_trie::<u8>();
    tr.add("newsomething", 1);
    tr.add("newprefix", 2);
    // this will promote a 'new' node with two nodes 'something' and 'prefix'.
    assert_eq!(None, tr.find("new").unwrap().value);
    assert_eq!(Some(1), tr.find("newsomething").unwrap().value);
    assert_eq!(Some(2), tr.find("newprefix").unwrap().value);
    //override
    tr.add("new", 3);
    tr.add("newprefix", 22);
    assert_eq!(Some(3), tr.find("new").unwrap().value);
    assert_eq!(Some(22), tr.find("newprefix").unwrap().value);
}

type AValueType = fn(i32, i32) -> i32;

fn sum_of(x: i32, y: i32) -> i32 {
    x + y
}

#[test]
fn tree_with_custom_value() {
    let mut tr = new_trie::<AValueType>();
    let add_fn: AValueType = sum_of;
    tr.add("add_fn", add_fn);
    let adder = tr.find("add_fn").unwrap().value.unwrap();
    assert_eq!(42, adder(20, 22));
}
