use boggle::server::{dead_connections, remove_positions};

#[test]
fn dead_connections_lists_gone_positions() {
    assert_eq!(dead_connections(&vec![false, true, false, true]), vec![1, 3]);
    assert_eq!(dead_connections(&vec![false, false]), Vec::<usize>::new());
    assert_eq!(dead_connections(&Vec::new()), Vec::<usize>::new());
}

#[test]
fn remove_positions_drops_exactly_the_listed_ones() {
    let mut v = vec!['a', 'b', 'c', 'd'];
    let removed = remove_positions(&mut v, &vec![1, 2]);
    assert_eq!(removed, vec!['b', 'c']);
    assert_eq!(v, vec!['a', 'd']);
}

#[test]
fn remove_positions_keeps_order_and_ignores_far_positions() {
    let mut v = vec![10, 20, 30, 40, 50];
    let removed = remove_positions(&mut v, &vec![4, 0, 9]);
    assert_eq!(removed, vec![10, 50]);
    assert_eq!(v, vec![20, 30, 40]);
    let mut none: Vec<i32> = vec![1, 2];
    assert_eq!(remove_positions(&mut none, &Vec::new()), Vec::<i32>::new());
    assert_eq!(none, vec![1, 2]);
}

#[test]
fn dead_connections_then_removal_keeps_the_live_ones() {
    let mut conns = vec!["w", "x", "y", "z"];
    let gone = vec![false, true, true, false];
    let dropped = remove_positions(&mut conns, &dead_connections(&gone));
    assert_eq!(dropped, vec!["x", "y"]);
    assert_eq!(conns, vec!["w", "z"]);
}
