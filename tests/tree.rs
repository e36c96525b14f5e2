use filter::generate::generate_customers;
use filter::tree::{Customer, TreeNode, Value, SPLIT_THRESHOLD};

fn reported(tree: &TreeNode, date: i32) -> Vec<i32> {
    let mut out = Vec::new();
    tree.dispatch(date, &mut out);
    out
}

fn brute_force(customers: &[Customer], date: i32) -> Vec<i32> {
    customers
        .iter()
        .filter(|c| c.start <= date && date <= c.end)
        .map(|c| c.id)
        .collect()
}

fn split_nodes_span_more_than_one_date(node: &TreeNode) -> bool {
    match &node.value {
        Value::Partial(_) => true,
        Value::Parent(left, right) => {
            node.min != node.max
                && split_nodes_span_more_than_one_date(left)
                && split_nodes_span_more_than_one_date(right)
        }
    }
}

#[test]
fn concrete_scenario_threshold_two() {
    let mut tree = TreeNode::with_threshold(1, 100, 2);
    tree.insert(Customer { id: 1, start: 1, end: 50 });
    tree.insert(Customer { id: 2, start: 51, end: 100 });
    tree.insert(Customer { id: 3, start: 1, end: 100 });
    assert_eq!(reported(&tree, 75), vec![3, 2]);
    assert_eq!(reported(&tree, 25), vec![3, 1]);
    assert_eq!(reported(&tree, 100), vec![3, 2]);
    // A date outside the domain is not specified; it must simply not panic.
    let _ = reported(&tree, 200);
}

#[test]
fn concrete_scenario_default_threshold() {
    let mut tree = TreeNode::new(1, 100);
    assert_eq!(tree.threshold, SPLIT_THRESHOLD);
    tree.insert(Customer { id: 1, start: 1, end: 50 });
    tree.insert(Customer { id: 2, start: 51, end: 100 });
    tree.insert(Customer { id: 3, start: 1, end: 100 });
    assert_eq!(reported(&tree, 75), vec![3, 2]);
    assert_eq!(reported(&tree, 25), vec![3, 1]);
    assert_eq!(reported(&tree, 100), vec![3, 2]);
}

#[test]
fn new_tree_is_one_empty_leaf() {
    let tree = TreeNode::new(1, 1000);
    assert_eq!(tree.leaves(), 1);
    assert_eq!(tree.mid, 500);
    assert!(reported(&tree, 1).is_empty());
    assert!(reported(&tree, 1000).is_empty());
}

#[test]
fn midpoint_rounds_down() {
    let tree = TreeNode::new(1, 100);
    assert_eq!(tree.mid, 50);
    let tree = TreeNode::new(3, 6);
    assert_eq!(tree.mid, 4);
    let tree = TreeNode::new(i32::MAX - 1, i32::MAX);
    assert_eq!(tree.mid, i32::MAX - 1);
}

#[test]
fn dispatch_matches_brute_force_for_every_threshold() {
    let customers = generate_customers(2000, 1000, 10);
    for threshold in [0usize, 1, 2, 10, 100] {
        let tree = TreeNode::build(1, 1000, threshold, &customers);
        for date in 1..=1000 {
            let mut got = reported(&tree, date);
            let mut want = brute_force(&customers, date);
            got.sort();
            want.sort();
            assert_eq!(got, want, "threshold {} date {}", threshold, date);
        }
    }
}

#[test]
fn dispatch_does_not_depend_on_insertion_order() {
    let customers = generate_customers(500, 300, 40);
    let mut reversed = customers.clone();
    reversed.reverse();
    let a = TreeNode::build(1, 300, 3, &customers);
    let b = TreeNode::build(1, 300, 3, &reversed);
    for date in 1..=300 {
        let mut x = reported(&a, date);
        let mut y = reported(&b, date);
        x.sort();
        y.sort();
        assert_eq!(x, y);
    }
}

#[test]
fn no_id_reported_twice_across_split_boundaries() {
    let mut tree = TreeNode::with_threshold(1, 64, 1);
    for id in 1..=40 {
        tree.insert(Customer { id, start: 2 + id % 5, end: 60 - id % 7 });
    }
    assert!(tree.leaves() > 1);
    for date in 1..=64 {
        let mut got = reported(&tree, date);
        let n = got.len();
        got.sort();
        got.dedup();
        assert_eq!(got.len(), n);
    }
}

#[test]
fn splitting_keeps_single_dates_whole() {
    let mut tree = TreeNode::with_threshold(1, 2, 1);
    for id in 1..=20 {
        tree.insert(Customer { id, start: 1, end: 1 });
    }
    assert_eq!(tree.leaves(), 2);
    assert!(split_nodes_span_more_than_one_date(&tree));
    assert_eq!(reported(&tree, 1).len(), 20);
    assert!(reported(&tree, 2).is_empty());
}

#[test]
fn leaf_of_one_date_keeps_growing_without_split() {
    let mut tree = TreeNode::with_threshold(7, 7, 2);
    for id in 1..=5 {
        tree.insert(Customer { id, start: 1, end: 7 });
    }
    assert_eq!(tree.leaves(), 1);
    assert_eq!(tree.full_customers.len(), 5);
    assert_eq!(reported(&tree, 7), vec![1, 2, 3, 4, 5]);
}

#[test]
fn full_cover_stops_at_coarsest_node() {
    let mut tree = TreeNode::with_threshold(1, 8, 1);
    tree.insert(Customer { id: 1, start: 1, end: 3 });
    tree.insert(Customer { id: 2, start: 6, end: 8 });
    assert_eq!(tree.leaves(), 2);
    tree.insert(Customer { id: 3, start: 1, end: 4 });
    match &tree.value {
        Value::Parent(left, _) => assert_eq!(left.full_customers.len(), 1),
        Value::Partial(_) => panic!("expected a split root"),
    }
    assert_eq!(reported(&tree, 4), vec![3]);
    assert_eq!(reported(&tree, 2), vec![3, 1]);
    assert_eq!(reported(&tree, 7), vec![2]);
}

#[test]
fn empty_range_never_matches() {
    let mut tree = TreeNode::new(1, 10);
    tree.insert(Customer { id: 9, start: 6, end: 4 });
    for date in 1..=10 {
        assert!(reported(&tree, date).is_empty());
    }
}

#[test]
fn dispatch_appends_to_what_is_there() {
    let mut tree = TreeNode::new(1, 10);
    tree.insert(Customer { id: 4, start: 2, end: 3 });
    let mut out = vec![99];
    tree.dispatch(3, &mut out);
    assert_eq!(out, vec![99, 4]);
}

#[test]
fn generated_customers_are_fixed() {
    let customers = generate_customers(3, 100000, 10);
    let got: Vec<(i32, i32, i32)> = customers.iter().map(|c| (c.id, c.start, c.end)).collect();
    assert_eq!(got, vec![(1, 87856, 87865), (2, 23782, 23783), (3, 59800, 59807)]);
}

#[test]
fn generated_customers_stay_in_domain() {
    let customers = generate_customers(1000, 50, 7);
    assert_eq!(customers.len(), 1000);
    for (i, c) in customers.iter().enumerate() {
        assert_eq!(c.id, i as i32 + 1);
        assert!(1 <= c.start && c.start < c.end && c.end <= 50);
        assert!(c.end - c.start <= 7);
    }
    assert!(generate_customers(0, 50, 7).is_empty());
}

#[test]
fn cascading_split_keeps_insertion_order() {
    let mut tree = TreeNode::new(1, 100);
    for id in 1..=11 {
        tree.insert(Customer { id, start: 1, end: 1 });
    }
    assert_eq!(reported(&tree, 1), (1..=11).collect::<Vec<i32>>());
    assert!(reported(&tree, 2).is_empty());
    assert_eq!(tree.leaves(), 8);
}

#[test]
fn split_node_leaves_the_missed_half_alone() {
    let mut tree = TreeNode::with_threshold(1, 8, 1);
    tree.insert(Customer { id: 1, start: 1, end: 2 });
    tree.insert(Customer { id: 2, start: 6, end: 7 });
    let upper_before = match &tree.value {
        Value::Parent(_, right) => match &right.value {
            Value::Partial(list) => list.clone(),
            Value::Parent(_, _) => panic!("upper half should not be split"),
        },
        Value::Partial(_) => panic!("expected a split root"),
    };
    tree.insert(Customer { id: 3, start: 2, end: 3 });
    match &tree.value {
        Value::Parent(left, right) => {
            match &right.value {
                Value::Partial(list) => {
                    let ids: Vec<i32> = list.iter().map(|c| c.id).collect();
                    let before: Vec<i32> = upper_before.iter().map(|c| c.id).collect();
                    assert_eq!(ids, before);
                }
                Value::Parent(_, _) => panic!("upper half should not be split"),
            }
            assert!(matches!(left.value, Value::Parent(_, _)));
        }
        Value::Partial(_) => panic!("expected a split root"),
    }
    assert_eq!(reported(&tree, 2), vec![1, 3]);
}
