use bulldag::edge::Edge;
use bulldag::index::Index;
use bulldag::keyset::KeySet;

#[test]
fn integer_keys_compare_by_value() {
    assert!(7usize.same_key(&7usize));
    assert!(!7usize.same_key(&8usize));
    assert!(0u8.same_key(&0u8));
    assert!(!255u8.same_key(&0u8));
    assert!(65535u16.same_key(&65535u16));
    assert!(!1u32.same_key(&2u32));
    assert!(u64::MAX.same_key(&u64::MAX));
    assert!(!u128::MAX.same_key(&0u128));
    assert!((-1i8).same_key(&-1i8));
    assert!(!(-1i16).same_key(&1i16));
    assert!(i32::MIN.same_key(&i32::MIN));
    assert!(!i64::MIN.same_key(&i64::MAX));
    assert!((-5i128).same_key(&-5i128));
}

#[test]
fn integer_keys_copy_themselves() {
    assert_eq!(7usize.clone_key(), 7usize);
    assert_eq!(200u8.clone_key(), 200u8);
    assert_eq!(9u16.clone_key(), 9u16);
    assert_eq!(9u32.clone_key(), 9u32);
    assert_eq!(u64::MAX.clone_key(), u64::MAX);
    assert_eq!(u128::MAX.clone_key(), u128::MAX);
    assert_eq!((-3i8).clone_key(), -3i8);
    assert_eq!((-3i16).clone_key(), -3i16);
    assert_eq!((-3i32).clone_key(), -3i32);
    assert_eq!(i64::MIN.clone_key(), i64::MIN);
    assert_eq!(i128::MIN.clone_key(), i128::MIN);
}

#[test]
fn string_slices_compare_by_content() {
    let left: &str = "source";
    let owned = String::from("source");
    let right: &str = owned.as_str();
    assert!(left.same_key(&right));
    assert!(!left.same_key(&"sourcf"));
    assert!(!left.same_key(&"sourc"));
    assert!(!left.same_key(&"sources"));
    assert!("".same_key(&""));
    assert!(!"".same_key(&"a"));
    assert!("naïve-ключ-鍵".same_key(&"naïve-ключ-鍵"));
    assert!(!"naïve".same_key(&"naive"));
    assert_eq!(left.clone_key(), "source");
}

#[test]
fn strings_compare_by_content() {
    let a = String::from("reference");
    let b = String::from("reference");
    let c = String::from("Reference");
    assert!(a.same_key(&b));
    assert!(!a.same_key(&c));
    assert_eq!(a.clone_key(), "reference");
}

#[test]
fn byte_arrays_compare_by_content() {
    let zero = [0u8; 32];
    let mut last = [0u8; 32];
    last[31] = 1;
    let mut first = [0u8; 32];
    first[0] = 1;
    assert!(zero.same_key(&[0u8; 32]));
    assert!(!zero.same_key(&last));
    assert!(!zero.same_key(&first));
    assert!(last.same_key(&last.clone_key()));
    assert_eq!(first.clone_key(), first);
}

#[test]
fn edges_compare_by_both_ends() {
    let e = Edge::new("a", "b");
    assert!(e.same_key(&Edge::new("a", "b")));
    assert!(!e.same_key(&Edge::new("b", "a")));
    assert!(!e.same_key(&Edge::new("a", "c")));
    assert!(!e.same_key(&Edge::new("c", "b")));
    let copy = e.clone_key();
    assert_eq!(copy.get_source(), "a");
    assert_eq!(copy.get_reference(), "b");
    assert!(e == copy);
}

#[test]
fn edge_getters_return_the_ends() {
    let e: Edge<u32> = Edge::new(3, 9);
    assert_eq!(e.get_source(), 3);
    assert_eq!(e.get_reference(), 9);
    let c = e.clone();
    assert_eq!(c.get_source(), 3);
    assert_eq!(c.get_reference(), 9);
}

#[test]
fn new_key_set_is_empty() {
    let set: KeySet<u64> = KeySet::new();
    assert_eq!(set.len(), 0);
    assert!(set.is_empty());
    assert!(!set.contains(&0));
    assert_eq!(set.position(&0), None);
}

#[test]
fn key_set_holds_each_key_once() {
    let mut set: KeySet<&str> = KeySet::new();
    assert!(set.insert("a"));
    assert!(set.insert("b"));
    assert!(!set.insert("a"));
    assert_eq!(set.len(), 2);
    assert!(!set.is_empty());
    assert!(set.contains(&"a"));
    assert!(set.contains(&"b"));
    assert!(!set.contains(&"c"));
}

#[test]
fn key_set_keeps_the_order_of_arrival() {
    let mut set: KeySet<u8> = KeySet::new();
    set.insert(30);
    set.insert(10);
    set.insert(20);
    set.insert(10);
    assert_eq!(set.len(), 3);
    assert_eq!(*set.get(0), 30);
    assert_eq!(*set.get(1), 10);
    assert_eq!(*set.get(2), 20);
    assert_eq!(set.position(&30), Some(0));
    assert_eq!(set.position(&10), Some(1));
    assert_eq!(set.position(&20), Some(2));
    assert_eq!(set.position(&40), None);
}

#[test]
fn key_set_remove_takes_one_key_out() {
    let mut set: KeySet<u8> = KeySet::new();
    set.insert(1);
    set.insert(2);
    set.insert(3);
    assert!(set.remove(&2));
    assert!(!set.remove(&2));
    assert!(!set.remove(&9));
    assert_eq!(set.len(), 2);
    assert!(set.contains(&1));
    assert!(!set.contains(&2));
    assert!(set.contains(&3));
    assert_eq!(*set.get(0), 1);
    assert_eq!(*set.get(1), 3);
    assert!(set.remove(&1));
    assert!(set.remove(&3));
    assert!(set.is_empty());
}

#[test]
fn key_set_clone_is_independent() {
    let mut set: KeySet<String> = KeySet::new();
    set.insert(String::from("x"));
    set.insert(String::from("y"));
    let mut copy = set.clone();
    assert_eq!(copy.len(), 2);
    assert_eq!(copy.get(0), "x");
    assert_eq!(copy.get(1), "y");
    copy.insert(String::from("z"));
    copy.remove(&String::from("x"));
    assert_eq!(set.len(), 2);
    assert!(set.contains(&String::from("x")));
    assert!(!set.contains(&String::from("z")));
    assert_eq!(copy.len(), 2);
}
