use common_tree::Node;

//
//       ------------------o(root)---------------
//      /                                        \
//     o(level1_1)                               o(level1_2)
//    /           \                              /
//   o(level2_2)   o(level2_3)                  o(level2_1)
//
fn get_tree2() -> Node<String> {
    let s = format!("root");
    let mut root = Node::new(s);
    let level1_data = String::from("level1_1");
    let level1_2_data = String::from("level1_2");
    let level2_1_data = String::from("level2_1");
    let level2_2_data = String::from("level2_2");
    let level2_3_data = String::from("level2_3");
    let mut level1 = Node::new(level1_data.clone());
    let mut level1_2 = Node::new(level1_2_data.clone());
    let level2_1 = Node::new(level2_1_data.clone());
    let level2_2 = Node::new(level2_2_data.clone());
    let level2_3 = Node::new(level2_3_data.clone());
    level1_2.add(level2_1);
    level1.add(level2_2);
    level1.add(level2_3);
    root.add(level1);
    root.add(level1_2);
    return root;
}

#[test]
fn traversal_works() {
    let root = get_tree2();
    let mut dfs_str = String::new();
    let mut bfs_str = String::new();
    for d in root.deepth_first_search() {
        dfs_str = format!("{}-{}", dfs_str, d);
    }
    assert_eq!(
        dfs_str,
        String::from("-root-level1_1-level2_2-level2_3-level1_2-level2_1")
    );
    for d in root.breadth_first_search() {
        bfs_str = format!("{}-{}", bfs_str, d);
    }
    assert_eq!(
        bfs_str,
        String::from("-root-level1_1-level1_2-level2_2-level2_3-level2_1")
    );
}

#[test]
fn depth_first_order_exact() {
    let root = get_tree2();
    let order: Vec<&String> = root.deepth_first_search();
    let expected = vec![
        "root", "level1_1", "level2_2", "level2_3", "level1_2", "level2_1",
    ];
    assert_eq!(order.len(), expected.len());
    for (got, want) in order.iter().zip(expected.iter()) {
        assert_eq!(got.as_str(), *want);
    }
}

#[test]
fn breadth_first_order_exact() {
    let root = get_tree2();
    let order: Vec<&String> = root.breadth_first_search();
    let expected = vec![
        "root", "level1_1", "level1_2", "level2_2", "level2_3", "level2_1",
    ];
    assert_eq!(order.len(), expected.len());
    for (got, want) in order.iter().zip(expected.iter()) {
        assert_eq!(got.as_str(), *want);
    }
}

#[test]
fn traversals_visit_every_node_once() {
    let root = get_tree2();
    // six nodes in the sample tree, each visited exactly once
    let dfs = root.deepth_first_search();
    let bfs = root.breadth_first_search();
    assert_eq!(dfs.len(), 6);
    assert_eq!(bfs.len(), 6);
    let mut dfs_sorted: Vec<&String> = dfs.clone();
    let mut bfs_sorted: Vec<&String> = bfs.clone();
    dfs_sorted.sort();
    bfs_sorted.sort();
    assert_eq!(dfs_sorted, bfs_sorted);
}

#[test]
fn traversal_of_single_node() {
    let root = Node::new(99u64);
    let dfs = root.deepth_first_search();
    let bfs = root.breadth_first_search();
    assert_eq!(dfs.len(), 1);
    assert_eq!(bfs.len(), 1);
    assert_eq!(*dfs[0], 99);
    assert_eq!(*bfs[0], 99);
}

#[test]
fn traversal_leaves_tree_unchanged() {
    let root = get_tree2();
    let _ = root.deepth_first_search();
    let _ = root.breadth_first_search();
    assert_eq!(root.children().len(), 2);
    assert_eq!(root.data(), &String::from("root"));
    assert_eq!(
        root.child(0).unwrap().child(1).unwrap().data(),
        &String::from("level2_3")
    );
}
