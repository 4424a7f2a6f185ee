use radix_trie::prefix::starts_with;
use radix_trie::{new_trie, Node};

fn count_nodes(n: &Node<u8>) -> usize {
    let mut total = 1;
    for c in &n.children {
        total += count_nodes(c);
    }
    total
}

#[test]
fn empty_trie_has_bare_root() {
    let tr = new_trie::<u8>();
    assert_eq!("", tr.frag);
    assert_eq!(None, tr.value);
    assert!(tr.children.is_empty());
    let d: Node<u8> = Node::default();
    assert_eq!("", d.frag);
    assert_eq!(None, d.value);
    assert!(d.children.is_empty());
    let n: Node<u8> = Node::new();
    assert!(n.children.is_empty());
}

#[test]
fn empty_trie_finds_nothing() {
    let tr = new_trie::<u8>();
    assert!(tr.find("a").is_none());
    assert!(tr.find("anything").is_none());
    // the empty key ends at the root, which holds no value
    assert_eq!(None, tr.find("").unwrap().value);
}

#[test]
fn round_trip_single_key() {
    let mut tr = new_trie::<u8>();
    tr.add("key", 9);
    let n = tr.find("key").unwrap();
    assert_eq!(Some(9), n.value);
    assert_eq!("key", n.frag);
    assert!(n.children.is_empty());
}

#[test]
fn add_returns_the_trie() {
    let mut tr = new_trie::<u8>();
    tr.add("a", 1).add("b", 2);
    assert_eq!(2, tr.children.len());
    assert_eq!(Some(1), tr.find("a").unwrap().value);
    assert_eq!(Some(2), tr.find("b").unwrap().value);
}

#[test]
fn overwrite_keeps_one_node_per_key() {
    let mut tr = new_trie::<u8>();
    tr.add("alpha", 1);
    tr.add("alphabet", 2);
    tr.add("beta", 3);
    let before = count_nodes(&tr);
    tr.add("alpha", 10);
    tr.add("alphabet", 20);
    tr.add("beta", 30);
    assert_eq!(before, count_nodes(&tr));
    assert_eq!(Some(10), tr.find("alpha").unwrap().value);
    assert_eq!(Some(20), tr.find("alphabet").unwrap().value);
    assert_eq!(Some(30), tr.find("beta").unwrap().value);
}

#[test]
fn unrelated_keys_become_sibling_leaves() {
    let mut tr = new_trie::<u8>();
    tr.add("abc", 1);
    tr.add("xyz", 2);
    assert_eq!(2, tr.children.len());
    assert_eq!("abc", tr.children[0].frag);
    assert_eq!(Some(1), tr.children[0].value);
    assert!(tr.children[0].children.is_empty());
    assert_eq!("xyz", tr.children[1].frag);
    assert_eq!(Some(2), tr.children[1].value);
    assert!(tr.children[1].children.is_empty());
}

#[test]
fn prefix_splitting_makes_a_junction() {
    let mut tr = new_trie::<u8>();
    tr.add("newsomething", 1);
    tr.add("newprefix", 2);
    assert_eq!(1, tr.children.len());
    let j = &tr.children[0];
    assert_eq!("new", j.frag);
    assert_eq!(None, j.value);
    assert_eq!(2, j.children.len());
    assert_eq!("something", j.children[0].frag);
    assert_eq!(Some(1), j.children[0].value);
    assert_eq!("prefix", j.children[1].frag);
    assert_eq!(Some(2), j.children[1].value);
    let found = tr.find("new").unwrap();
    assert_eq!("new", found.frag);
    assert_eq!(None, found.value);
}

#[test]
fn shrink_on_subset() {
    let mut tr = new_trie::<u8>();
    tr.add("/users", 1);
    tr.add("/user/x", 2);
    assert_eq!(1, tr.children.len());
    let j = &tr.children[0];
    assert_eq!("/user", j.frag);
    assert_eq!(None, j.value);
    assert_eq!(2, j.children.len());
    assert_eq!("s", j.children[0].frag);
    assert_eq!(Some(1), j.children[0].value);
    assert_eq!("/x", j.children[1].frag);
    assert_eq!(Some(2), j.children[1].value);
    assert_eq!(Some(1), tr.find("/users").unwrap().value);
    assert_eq!(Some(2), tr.find("/user/x").unwrap().value);
}

#[test]
fn new_key_that_is_a_prefix_wraps_the_old_node() {
    let mut tr = new_trie::<u8>();
    tr.add("abcdef", 1);
    tr.add("abcxyz", 2);
    tr.add("abc", 3);
    assert_eq!(1, tr.children.len());
    let n = &tr.children[0];
    assert_eq!("abc", n.frag);
    assert_eq!(Some(3), n.value);
    assert_eq!(2, n.children.len());
    tr.add("ab", 4);
    let top = &tr.children[0];
    assert_eq!("ab", top.frag);
    assert_eq!(Some(4), top.value);
    assert_eq!(1, top.children.len());
    assert_eq!("c", top.children[0].frag);
    assert_eq!(Some(3), top.children[0].value);
    assert_eq!(2, top.children[0].children.len());
    assert_eq!(Some(1), tr.find("abcdef").unwrap().value);
    assert_eq!(Some(2), tr.find("abcxyz").unwrap().value);
}

#[test]
fn changed_child_moves_to_the_end() {
    let mut tr = new_trie::<u8>();
    tr.add("apple", 1);
    tr.add("berry", 2);
    tr.add("cherry", 3);
    tr.add("apricot", 4);
    assert_eq!(3, tr.children.len());
    assert_eq!("berry", tr.children[0].frag);
    assert_eq!("cherry", tr.children[1].frag);
    assert_eq!("ap", tr.children[2].frag);
    tr.add("berry", 20);
    assert_eq!("berry", tr.children[0].frag);
    assert_eq!(Some(20), tr.children[0].value);
    tr.add("berries", 5);
    assert_eq!("cherry", tr.children[0].frag);
    assert_eq!("ap", tr.children[1].frag);
    assert_eq!("berr", tr.children[2].frag);
}

#[test]
fn descending_keeps_the_child_in_place() {
    let mut tr = new_trie::<u8>();
    tr.add("a", 1);
    tr.add("b", 2);
    tr.add("ab", 3);
    assert_eq!(2, tr.children.len());
    assert_eq!("a", tr.children[0].frag);
    assert_eq!(Some(1), tr.children[0].value);
    assert_eq!("b", tr.children[0].children[0].frag);
    assert_eq!(Some(3), tr.children[0].children[0].value);
    assert_eq!("b", tr.children[1].frag);
}

#[test]
fn absent_keys_are_not_found() {
    let mut tr = new_trie::<u8>();
    tr.add("romane", 1);
    tr.add("romanus", 2);
    tr.add("rubens", 3);
    // diverges partway through an edge
    assert!(tr.find("rox").is_none());
    assert!(tr.find("roma").is_none());
    assert!(tr.find("rub").is_none());
    // longer than a stored key
    assert!(tr.find("romanes").is_none());
    assert!(tr.find("rubenss").is_none());
    // nothing in common
    assert!(tr.find("x").is_none());
    // a junction is a node, but holds no value
    assert_eq!(None, tr.find("r").unwrap().value);
    assert_eq!(None, tr.find("roman").unwrap().value);
}

#[test]
fn other_keys_keep_their_values() {
    let mut tr = new_trie::<u8>();
    tr.add("test", 1);
    tr.add("team", 2);
    tr.add("toast", 3);
    tr.add("te", 4);
    tr.add("tester", 5);
    assert_eq!(Some(1), tr.find("test").unwrap().value);
    assert_eq!(Some(2), tr.find("team").unwrap().value);
    assert_eq!(Some(3), tr.find("toast").unwrap().value);
    assert_eq!(Some(4), tr.find("te").unwrap().value);
    assert_eq!(Some(5), tr.find("tester").unwrap().value);
    assert_eq!(None, tr.find("t").unwrap().value);
    assert!(tr.find("tes").is_none());
}

#[test]
fn empty_key_is_an_inert_leaf() {
    let mut tr = new_trie::<u8>();
    tr.add("", 7);
    assert_eq!(1, tr.children.len());
    assert_eq!("", tr.children[0].frag);
    assert_eq!(Some(7), tr.children[0].value);
    // the empty key ends at the root, whose value never changes
    assert_eq!(None, tr.find("").unwrap().value);
    tr.add("abc", 1);
    assert_eq!(2, tr.children.len());
    assert_eq!(Some(1), tr.find("abc").unwrap().value);
    tr.add("", 8);
    assert_eq!(3, tr.children.len());
    assert_eq!(Some(1), tr.find("abc").unwrap().value);
    assert_eq!(None, tr.find("").unwrap().value);
}

#[test]
fn multi_byte_keys_split_at_characters() {
    let mut tr = new_trie::<u8>();
    tr.add("héllo", 1);
    tr.add("hélas", 2);
    tr.add("日本語", 3);
    tr.add("日本", 4);
    tr.add("日本酒", 5);
    assert_eq!(Some(1), tr.find("héllo").unwrap().value);
    assert_eq!(Some(2), tr.find("hélas").unwrap().value);
    assert_eq!(Some(3), tr.find("日本語").unwrap().value);
    assert_eq!(Some(4), tr.find("日本").unwrap().value);
    assert_eq!(Some(5), tr.find("日本酒").unwrap().value);
    assert_eq!(None, tr.find("hél").unwrap().value);
    assert!(tr.find("h").is_none());
    assert!(tr.find("日").is_none());
    assert_eq!("hél", tr.children[0].frag);
    assert_eq!("lo", tr.children[0].children[0].frag);
    assert_eq!("as", tr.children[0].children[1].frag);
    assert_eq!("日本", tr.children[1].frag);
    assert_eq!("語", tr.children[1].children[0].frag);
    assert_eq!("酒", tr.children[1].children[1].frag);
}

#[test]
fn multi_byte_fragments_compare_by_character() {
    assert_eq!(Some(3), Node::<u8>::shared_pref_idx("héllo", "hélas"));
    assert_eq!(Some(2), Node::<u8>::shared_pref_idx("日本語", "日本酒"));
    assert_eq!(None, Node::<u8>::shared_pref_idx("é", "e"));
    assert_eq!(
        (Some("hél"), Some("lo"), Some("as")),
        Node::<u8>::cmp_frag("héllo", "hélas")
    );
    assert_eq!((Some("日本"), Some("語"), None), Node::<u8>::cmp_frag("日本語", "日本"));
    assert_eq!((Some("日本"), None, Some("酒")), Node::<u8>::cmp_frag("日本", "日本酒"));
}

#[test]
fn shared_prefix_lengths() {
    assert_eq!(None, Node::<u8>::shared_pref_idx("", ""));
    assert_eq!(None, Node::<u8>::shared_pref_idx("abc", ""));
    assert_eq!(None, Node::<u8>::shared_pref_idx("", "abc"));
    assert_eq!(None, Node::<u8>::shared_pref_idx("abc", "xbc"));
    assert_eq!(Some(1), Node::<u8>::shared_pref_idx("abc", "axc"));
    assert_eq!(Some(3), Node::<u8>::shared_pref_idx("abc", "abc"));
    assert_eq!(Some(3), Node::<u8>::shared_pref_idx("abc", "abcd"));
    assert_eq!((None, None, None), Node::<u8>::cmp_frag("", "abc"));
    assert_eq!((None, None, None), Node::<u8>::cmp_frag("", ""));
}

#[test]
fn starts_with_compares_characters() {
    assert!(starts_with("abc", ""));
    assert!(starts_with("abc", "ab"));
    assert!(starts_with("abc", "abc"));
    assert!(!starts_with("abc", "abcd"));
    assert!(!starts_with("abc", "b"));
    assert!(starts_with("日本語", "日本"));
    assert!(!starts_with("é", "e"));
    assert!(starts_with("", ""));
}

#[test]
fn first_related_finds_the_child() {
    let mut tr = new_trie::<u8>();
    tr.add("apple", 1);
    tr.add("berry", 2);
    assert_eq!(None, Node::first_related("cherry", &tr));
    assert_eq!(Some((1, "berr", Some("ies"), Some("y"))), Node::first_related("berries", &tr));
    assert_eq!(Some((0, "apple", None, None)), Node::first_related("apple", &tr));
}

#[test]
fn lookup_below_a_node() {
    let mut tr = new_trie::<u8>();
    tr.add("/abc", 1);
    tr.add("/abd", 2);
    let j = &tr.children[0];
    assert_eq!(Some(1), Node::find_in_node(j, "/abc").unwrap().value);
    assert_eq!(Some(2), Node::find_in_children(j, "d").unwrap().value);
    assert!(Node::find_in_children(j, "x").is_none());
    assert!(Node::find_in_node(j, "abc").is_none());
}

#[test]
fn add_to_node_grows_any_node() {
    let mut n = new_trie::<u8>();
    Node::add_to_node("one", 1, &mut n);
    Node::add_to_node("only", 2, &mut n);
    assert_eq!("on", n.children[0].frag);
    assert_eq!(Some(1), n.find("one").unwrap().value);
    assert_eq!(Some(2), n.find("only").unwrap().value);
}
