use meta_cache::arrays::{check_fits, MAX_ARRAY_VALUES, MAX_VALUE_BYTES};
use meta_cache::heap::TimeHeap;
use meta_cache::node::Node;
use meta_cache::predicate::{Predicate, ValueSet};
use meta_cache::row::FieldData;
use meta_cache::value::Value;

fn values(items: &[&str]) -> Vec<Value> {
    items.iter().map(|s| Value::new(s.to_string())).collect()
}

fn texts(node: &Node) -> Vec<String> {
    (0..node.len()).map(|i| node.value_at(i).as_str().to_string()).collect()
}

#[test]
fn interior_entry_takes_the_latest_time_and_survives_pruning() {
    let mut node = Node::new();
    assert!(node.insert(&values(&["a", "x"]), 0, 1000));
    assert!(node.insert(&values(&["a", "y"]), 0, 5000));
    assert_eq!(node.len(), 1);
    assert_eq!(node.last_seen_at(0), 5000);
    let became_empty = node.remove_before(3000);
    assert!(!became_empty);
    assert_eq!(texts(&node), vec!["a".to_string()]);
    let below = node.child_at(0).unwrap();
    assert_eq!(texts(below), vec!["y".to_string()]);
    assert_eq!(below.last_seen_at(0), 5000);
    assert_eq!(node.cardinality(), 1);
}

#[test]
fn remove_before_keeps_what_is_strictly_newer() {
    let mut node = Node::new();
    node.insert(&values(&["a"]), 0, 10);
    node.insert(&values(&["b"]), 0, 20);
    node.insert(&values(&["c"]), 0, 30);
    assert!(!node.remove_before(20));
    assert_eq!(texts(&node), vec!["c".to_string()]);
    assert!(node.remove_before(30));
    assert_eq!(node.len(), 0);
}

#[test]
fn remove_before_on_an_empty_node() {
    let mut node = Node::new();
    assert!(node.remove_before(0));
    assert_eq!(node.cardinality(), 0);
}

#[test]
fn insert_keeps_values_in_ascending_order() {
    let mut node = Node::new();
    for v in ["m", "b", "z", "a", "mm", "B"] {
        assert!(node.insert(&values(&[v]), 0, 1));
    }
    assert!(!node.insert(&values(&["b"]), 0, 2));
    assert_eq!(
        texts(&node),
        vec!["B", "a", "b", "m", "mm", "z"].into_iter().map(String::from).collect::<Vec<_>>()
    );
    assert_eq!(node.last_seen_at(2), 2);
    assert_eq!(node.last_seen_at(1), 1);
}

#[test]
fn insert_from_a_later_position() {
    let mut node = Node::new();
    assert!(node.insert(&values(&["skipped", "a", "b"]), 1, 7));
    assert_eq!(texts(&node), vec!["a".to_string()]);
    assert_eq!(texts(node.child_at(0).unwrap()), vec!["b".to_string()]);
    assert!(node.child_at(0).unwrap().child_at(0).is_none());
}

#[test]
fn find_n_oldest_keeps_the_smallest_times() {
    let mut node = Node::new();
    node.insert(&values(&["a", "p"]), 0, 50);
    node.insert(&values(&["a", "q"]), 0, 10);
    node.insert(&values(&["b", "p"]), 0, 30);
    node.insert(&values(&["c", "p"]), 0, 20);
    node.insert(&values(&["c", "q"]), 0, 40);
    let mut heap = TimeHeap::new();
    node.find_n_oldest(3, &mut heap);
    assert_eq!(heap.len(), 3);
    assert_eq!(heap.peek(), Some(30));
    assert_eq!(heap.pop(), Some(30));
    assert_eq!(heap.pop(), Some(20));
    assert_eq!(heap.pop(), Some(10));
    assert_eq!(heap.pop(), None);
}

#[test]
fn remove_n_oldest_cuts_at_the_nth_time() {
    let mut node = Node::new();
    node.insert(&values(&["a", "p"]), 0, 10);
    node.insert(&values(&["b", "p"]), 0, 30);
    node.insert(&values(&["c", "p"]), 0, 20);
    node.insert(&values(&["c", "q"]), 0, 40);
    node.remove_n_oldest(2);
    assert_eq!(texts(&node), vec!["b".to_string(), "c".to_string()]);
    assert_eq!(texts(node.child_at(1).unwrap()), vec!["q".to_string()]);
    assert_eq!(node.cardinality(), 2);
}

#[test]
fn heap_offer_replaces_only_a_newer_time() {
    let mut heap = TimeHeap::new();
    heap.offer(2, 5);
    heap.offer(2, 9);
    heap.offer(2, 9);
    assert_eq!(heap.len(), 2);
    assert_eq!(heap.peek(), Some(9));
    heap.offer(2, 7);
    assert_eq!(heap.peek(), Some(7));
    heap.offer(2, 7);
    assert_eq!(heap.peek(), Some(7));
    assert_eq!(heap.len(), 2);
    assert_eq!(heap.pop(), Some(7));
    assert_eq!(heap.pop(), Some(5));
}

#[test]
fn heap_without_room_takes_nothing() {
    let mut heap = TimeHeap::new();
    heap.offer(0, 1);
    assert_eq!(heap.len(), 0);
    assert_eq!(heap.peek(), None);
}

#[test]
fn heap_push_keeps_the_newest_on_top() {
    let mut heap = TimeHeap::new();
    assert_eq!(heap.peek(), None);
    for t in [3, -1, 8, 8, 0] {
        heap.push(t);
    }
    assert_eq!(heap.len(), 5);
    assert_eq!(heap.pop(), Some(8));
    assert_eq!(heap.pop(), Some(8));
    assert_eq!(heap.pop(), Some(3));
    assert_eq!(heap.pop(), Some(0));
    assert_eq!(heap.pop(), Some(-1));
}

#[test]
fn evaluate_predicate_picks_in_ascending_order() {
    let mut node = Node::new();
    node.insert(&values(&["c"]), 0, 30);
    node.insert(&values(&["a"]), 0, 10);
    node.insert(&values(&["b"]), 0, 20);
    let picked = node.evaluate_predicate(10, &Predicate::new_in(vec!["c".to_string(), "a".to_string(), "b".to_string()]));
    let got: Vec<&str> = picked.iter().map(|(v, _)| v.as_str()).collect();
    assert_eq!(got, vec!["b", "c"]);
    assert!(picked.iter().all(|(_, n)| n.is_none()));
    let picked = node.evaluate_predicate(0, &Predicate::new_not_in(vec!["b".to_string()]));
    let got: Vec<&str> = picked.iter().map(|(v, _)| v.as_str()).collect();
    assert_eq!(got, vec!["a", "c"]);
}

#[test]
fn evaluate_predicates_repeats_parent_values() {
    let mut node = Node::new();
    node.insert(&values(&["a", "x"]), 0, 1);
    node.insert(&values(&["a", "y"]), 0, 2);
    node.insert(&values(&["b", "x"]), 0, 3);
    let mut builders: Vec<Vec<Value>> = vec![vec![Value::new("kept".to_string())], vec![]];
    let count = node.evaluate_predicates(1, &vec![None, None], 0, &mut builders);
    assert_eq!(count, 2);
    let first: Vec<&str> = builders[0].iter().map(|v| v.as_str()).collect();
    let second: Vec<&str> = builders[1].iter().map(|v| v.as_str()).collect();
    assert_eq!(first, vec!["kept", "a", "b"]);
    assert_eq!(second, vec!["y", "x"]);
}

#[test]
fn values_are_ordered_by_their_bytes() {
    let a = Value::new("a".to_string());
    let ab = Value::new("ab".to_string());
    let z = Value::new("z".to_string());
    let e = Value::new("\u{e9}".to_string());
    let upper = Value::new("Z".to_string());
    assert!(a.precedes(&ab));
    assert!(!ab.precedes(&a));
    assert!(!a.precedes(&a));
    assert!(z.precedes(&e));
    assert!(!e.precedes(&z));
    assert!(upper.precedes(&a));
    assert!(a.same(&a.clone()));
    assert!(!a.same(&ab));
    assert!(Value::new(String::new()).precedes(&a));
}

#[test]
fn value_of_a_string_field() {
    assert_eq!(Value::from_field(&FieldData::Key("k".to_string())).as_str(), "k");
    assert_eq!(Value::from_field(&FieldData::Tag("t".to_string())).as_str(), "t");
    assert_eq!(Value::from_field(&FieldData::String("s".to_string())).as_str(), "s");
    assert!(FieldData::Tag("t".to_string()).is_text());
    assert!(!FieldData::Timestamp(1).is_text());
    assert!(!FieldData::Integer(1).is_text());
    assert!(!FieldData::UInteger(1).is_text());
    assert!(!FieldData::Float(0).is_text());
    assert!(!FieldData::Boolean(true).is_text());
}

#[test]
fn predicate_values_are_sorted_and_distinct() {
    let p = Predicate::new_in(vec!["b".to_string(), "a".to_string(), "b".to_string(), "c".to_string()]);
    let set = p.values();
    assert_eq!(set.len(), 3);
    assert_eq!(set.get(0).as_str(), "a");
    assert_eq!(set.get(1).as_str(), "b");
    assert_eq!(set.get(2).as_str(), "c");
    assert!(matches!(p, Predicate::In(_)));
    assert!(matches!(Predicate::new_not_in(vec![]), Predicate::NotIn(_)));
}

#[test]
fn predicate_tests_a_value() {
    let within = Predicate::new_in(vec!["a".to_string(), "b".to_string()]);
    let without = Predicate::new_not_in(vec!["a".to_string(), "b".to_string()]);
    let a = Value::new("a".to_string());
    let c = Value::new("c".to_string());
    assert!(within.test(&a));
    assert!(!within.test(&c));
    assert!(!without.test(&a));
    assert!(without.test(&c));
}

#[test]
fn predicate_reads_as_text() {
    assert_eq!(Predicate::new_in(vec!["b".to_string(), "a".to_string()]).render(), "IN (a,b)");
    assert_eq!(Predicate::new_not_in(vec!["x".to_string()]).render(), "NOT IN (x)");
    assert_eq!(Predicate::new_in(vec![]).render(), "IN ()");
}

#[test]
fn value_set_insert_and_contains() {
    let mut set = ValueSet::new();
    set.insert(Value::new("m".to_string()));
    set.insert(Value::new("a".to_string()));
    set.insert(Value::new("m".to_string()));
    assert_eq!(set.len(), 2);
    assert!(set.contains(&Value::new("a".to_string())));
    assert!(!set.contains(&Value::new("b".to_string())));
    assert_eq!(set.get(0).as_str(), "a");
}

#[test]
fn inclusion_set_looks_up_only_what_the_node_holds() {
    let mut node = Node::new();
    for (i, v) in ["d", "b", "f", "h", "j"].iter().enumerate() {
        node.insert(&values(&[v]), 0, 10 * (i as i64 + 1));
    }
    let wanted = Predicate::new_in(
        ["a", "b", "c", "j", "k", "f"].iter().map(|s| s.to_string()).collect(),
    );
    let picked = node.evaluate_predicate(0, &wanted);
    let got: Vec<&str> = picked.iter().map(|(v, _)| v.as_str()).collect();
    assert_eq!(got, vec!["b", "f", "j"]);
    let picked = node.evaluate_predicate(20, &wanted);
    let got: Vec<&str> = picked.iter().map(|(v, _)| v.as_str()).collect();
    assert_eq!(got, vec!["f", "j"]);
    let picked = node.evaluate_predicate(0, &Predicate::new_in(vec![]));
    assert!(picked.is_empty());
}

#[test]
fn many_values_stay_in_order() {
    let mut node = Node::new();
    let mut expected: Vec<String> = Vec::new();
    for i in 0..200u32 {
        let text = format!("v{:03}", (i * 37) % 200);
        assert!(node.insert(&values(&[&text]), 0, i as i64));
        expected.push(text);
    }
    expected.sort();
    assert_eq!(texts(&node), expected);
    for i in 0..200u32 {
        let text = format!("v{:03}", i);
        assert!(!node.insert(&values(&[&text]), 0, 1000));
    }
    assert_eq!(node.cardinality(), 200);
}

#[test]
fn remove_before_keeps_the_order_of_what_stays() {
    let mut node = Node::new();
    for i in 0..50i64 {
        node.insert(&values(&[&format!("v{:02}", i)]), 0, i % 5);
    }
    assert!(!node.remove_before(2));
    let left = texts(&node);
    assert_eq!(left.len(), 20);
    let mut sorted = left.clone();
    sorted.sort();
    assert_eq!(left, sorted);
    for i in 0..node.len() {
        assert!(node.last_seen_at(i) > 2);
    }
    assert_eq!(left[0], "v03");
    assert_eq!(left[1], "v04");
    assert_eq!(left[2], "v08");
}

#[test]
fn interior_entry_without_leaves_left_is_removed() {
    let mut node = Node::new();
    node.insert(&values(&["a", "x"]), 0, 10);
    node.insert(&values(&["b", "y"]), 0, 20);
    assert!(!node.remove_before(10));
    assert_eq!(texts(&node), vec!["b".to_string()]);
    assert!(node.remove_before(20));
}

#[test]
fn interior_entry_stays_while_a_leaf_is_left() {
    let mut node = Node::new();
    node.insert(&values(&["a", "x"]), 0, 50);
    node.insert(&values(&["a", "y"]), 0, 10);
    assert_eq!(node.last_seen_at(0), 10);
    assert!(!node.remove_before(20));
    assert_eq!(texts(node.child_at(0).unwrap()), vec!["x".to_string()]);
}

#[test]
fn copies_of_sets_and_values_are_equal() {
    let p = Predicate::new_in(vec!["b".to_string(), "a".to_string()]);
    let q = p.clone();
    assert_eq!(p, q);
    assert_eq!(q.render(), "IN (a,b)");
    let v = Value::from("text".to_string());
    assert_eq!(v.clone(), v);
    assert_eq!(v.as_str(), "text");
    assert!(Value::new("a".to_string()) < Value::new("b".to_string()));
}

#[test]
fn short_values_fit_an_array() {
    assert!(check_fits(&values(&["a", "", "longer than twelve bytes"])));
    assert!(check_fits(&values(&[])));
    assert_eq!(MAX_ARRAY_VALUES, (1 << 27) - 1);
    assert_eq!(MAX_VALUE_BYTES, i32::MAX as usize);
    assert_eq!(Value::new("h\u{e9}".to_string()).len(), 3);
}
