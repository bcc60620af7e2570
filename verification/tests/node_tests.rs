use common_tree::Node;

#[test]
fn data_works() {
    let s = format!("hello");
    let mut node = Node::new(s.clone());
    assert_eq!(node.data(), &s);
    let s2 = format!("world");
    let data = node.data_mut();
    *data = s2.clone();
    assert_eq!(node.data(), &s2);
}

#[test]
fn child_works() {
    let s = format!("root");
    let mut root = Node::new(s);
    let level1_data = String::from("level1_1");
    let level1_2_data = String::from("level1_2");
    let level2_1_data = String::from("level2_1");
    let level1 = Node::new(level1_data.clone());
    let mut level1_2 = Node::new(level1_2_data.clone());
    let level2_1 = Node::new(level2_1_data.clone());

    level1_2.add(level2_1);
    root.add(level1);
    root.add(level1_2);
    assert_eq!(root.children().len(), 2);
    assert_eq!(root.child(0).unwrap().data(), &level1_data);
    assert_eq!(root.child(1).unwrap().data(), &level1_2_data);
    assert_eq!(root.child(0).unwrap().children().len(), 0);
    assert_eq!(root.child(1).unwrap().children().len(), 1);
    assert_eq!(
        root.child(1).unwrap().child(0).unwrap().data(),
        &level2_1_data
    );

    let level1_2_mut_opt = root.child_mut(1);
    assert!(level1_2_mut_opt.is_some());
    let level1_2_new_data = String::from("level1_2_new_data");
    let level1_2_mut = level1_2_mut_opt.unwrap();
    *(level1_2_mut.data_mut()) = level1_2_new_data.clone();
    assert_eq!(level1_2_mut.data(), &level1_2_new_data);
}

//    ---o(root)--
//   /            \
//  o(level1_1)    o(level1_2)
//                 /
//                o(level2_1)
fn get_tree() -> Node<String> {
    let s = format!("root");
    let mut root = Node::new(s);
    let level1_data = String::from("level1_1");
    let level1_2_data = String::from("level1_2");
    let level2_1_data = String::from("level2_1");
    let level1 = Node::new(level1_data.clone());
    let mut level1_2 = Node::new(level1_2_data.clone());
    let level2_1 = Node::new(level2_1_data.clone());
    level1_2.add(level2_1);
    root.add(level1);
    root.add(level1_2);
    return root;
}

#[test]
fn child_path_works() {
    let root = get_tree();
    let root1: Option<&Node<String>> = root.child_by_path(&vec![0]);
    assert!(root1.is_some());
    assert_eq!(root1.unwrap().data(), &String::from("root"));
    let level2_1 = root.child_by_path(&vec![0, 1, 0]);
    assert!(level2_1.is_some());
    assert_eq!(level2_1.unwrap().data(), &String::from("level2_1"));
}

#[test]
fn last_child_level_works() {
    let root = get_tree();
    assert_eq!(
        root.last_child_by_level(0).unwrap().data(),
        &String::from("root")
    );
    assert_eq!(
        root.last_child_by_level(1).unwrap().data(),
        &String::from("level1_2")
    );
    assert_eq!(
        root.last_child_by_level(2).unwrap().data(),
        &String::from("level2_1")
    );
    assert!(root.last_child_by_level(3).is_none());
    assert!(root.last_child_by_level(4).is_none());
}

#[test]
fn payload_roundtrip() {
    let mut node = Node::new(11u64);
    assert_eq!(*node.data(), 11);
    *node.data_mut() = 42;
    assert_eq!(*node.data(), 42);
}

#[test]
fn insertion_order_kept() {
    let mut root = Node::new(0u32);
    root.add(Node::new(10));
    root.add(Node::new(20));
    root.add(Node::new(30));
    assert_eq!(root.children().len(), 3);
    assert_eq!(*root.child(0).unwrap().data(), 10);
    assert_eq!(*root.child(1).unwrap().data(), 20);
    assert_eq!(*root.child(2).unwrap().data(), 30);
    assert_eq!(*root.last_child().unwrap().data(), 30);
}

#[test]
fn out_of_range_is_absent() {
    let mut root = Node::new(0u32);
    assert!(root.last_child().is_none());
    assert!(root.child(0).is_none());
    root.add(Node::new(1));
    root.add(Node::new(2));
    assert!(root.child(2).is_none());
    assert!(root.child(3).is_none());
    assert!(root.child_mut(2).is_none());
    assert!(root.child(1).is_some());
}

#[test]
fn last_child_mut_on_childless() {
    let mut root = Node::new(5i32);
    assert!(root.last_child_mut().is_none());
    root.add(Node::new(7));
    *root.last_child_mut().unwrap().data_mut() = 8;
    assert_eq!(*root.child(0).unwrap().data(), 8);
}

#[test]
fn empty_and_short_paths_return_receiver() {
    let root = get_tree();
    let by_empty = root.child_by_path(&vec![]);
    assert_eq!(by_empty.unwrap().data(), &String::from("root"));
    let by_self = root.child_by_path(&vec![9]);
    assert_eq!(by_self.unwrap().data(), &String::from("root"));
}

#[test]
fn path_short_circuits_on_missing_step() {
    let root = get_tree();
    assert!(root.child_by_path(&vec![0, 5]).is_none());
    assert!(root.child_by_path(&vec![0, 5, 0]).is_none());
    assert!(root.child_by_path(&vec![0, 1, 0, 0]).is_none());
}

#[test]
fn path_first_element_ignored() {
    let root = get_tree();
    let a = root.child_by_path(&vec![0, 1, 0]);
    let b = root.child_by_path(&vec![7, 1, 0]);
    assert_eq!(a.unwrap().data(), b.unwrap().data());
    assert_eq!(
        root.child_by_path(&vec![0, 0]).unwrap().data(),
        &String::from("level1_1")
    );
}

#[test]
fn child_mut_by_path_mutates_target() {
    let mut root = get_tree();
    let target = root.child_mut_by_path(&vec![0, 1, 0]);
    *target.unwrap().data_mut() = String::from("renamed");
    assert_eq!(
        root.child(1).unwrap().child(0).unwrap().data(),
        &String::from("renamed")
    );
    assert!(root.child_mut_by_path(&vec![0, 3]).is_none());
}

#[test]
fn last_child_mut_by_level_mutates_target() {
    let mut root = get_tree();
    *root.last_child_mut_by_level(2).unwrap().data_mut() = String::from("deep");
    assert_eq!(
        root.last_child_by_level(2).unwrap().data(),
        &String::from("deep")
    );
    assert!(root.last_child_mut_by_level(3).is_none());
}

#[test]
fn children_mut_allows_structural_change() {
    let mut root = Node::new(1u8);
    root.add(Node::new(2));
    let kids = root.children_mut();
    kids.push(Node::new(3));
    assert_eq!(root.children().len(), 2);
    assert_eq!(*root.child(1).unwrap().data(), 3);
    assert_eq!(*root.last_child().unwrap().data(), 3);
}
