use dirtree::DirNode;

#[test]
fn dirnode_new() {
    let node = DirNode::new("gary");
    let another_node = DirNode::new("jon");
    assert_ne!(node.name(), another_node.name());
}

#[test]
fn dirnode_add_child() {
    let mut parent_node = DirNode::new("parent");
    let child_node = DirNode::new("child");
    let child_name = child_node.name().to_string();
    let _ = parent_node.add_child(child_node);
    assert_eq!(child_name, parent_node.children()[0].name());
}

#[test]
fn dirnode_index_for_child() {
    let mut parent_node = DirNode::new("parent");
    let child_node = DirNode::new("child");
    let child_name = child_node.name().to_string();
    let _ = parent_node.add_child(child_node);
    assert_eq!(0, parent_node.index_for_child(&child_name).unwrap());
}

#[test]
fn add_child_keeps_names_in_order_and_refuses_duplicates() {
    let mut parent = DirNode::new("p");
    assert!(parent.add_child(DirNode::new("b")).is_ok());
    assert!(parent.add_child(DirNode::new("a")).is_ok());
    assert!(parent.add_child(DirNode::new("B")).is_ok());
    let back = parent.add_child(DirNode::new("a"));
    assert_eq!(back.unwrap_err().name(), "a");
    let names: Vec<&str> = parent.children().iter().map(|c| c.name()).collect();
    assert_eq!(names, vec!["B", "a", "b"]);
}

#[test]
fn remove_child_and_child_named() {
    let mut parent = DirNode::new("p");
    let mut x = DirNode::new("x");
    assert!(x.add_child(DirNode::new("inner")).is_ok());
    assert!(parent.add_child(x).is_ok());
    assert!(parent.child_named("x").is_some());
    assert!(parent.child_named("y").is_none());
    assert!(parent.remove_child("y").is_none());
    let gone = parent.remove_child("x").unwrap();
    assert_eq!(gone.name(), "x");
    assert_eq!(gone.children()[0].name(), "inner");
    assert!(parent.children().is_empty());
    assert_eq!(parent.index_for_child("x"), None);
}

#[test]
fn set_name_renames_only_the_node() {
    let mut n = DirNode::new("old");
    assert!(n.add_child(DirNode::new("kid")).is_ok());
    n.set_name(String::from("new"));
    assert_eq!(n.name(), "new");
    assert_eq!(n.children()[0].name(), "kid");
}

#[test]
fn resolve_reports_how_far_it_got() {
    let mut t = dirtree::DirTree::new();
    t.execute("CREATE a").unwrap();
    t.execute("CREATE a/b").unwrap();
    let path = vec![String::from("a"), String::from("b"), String::from("c")];
    assert_eq!(t.root().resolve(&path, 2).unwrap().name(), "b");
    assert_eq!(t.root().resolve(&path, 3).err(), Some(2));
    let other = vec![String::from("z"), String::from("b")];
    assert_eq!(other.len(), 2);
    assert_eq!(t.root().resolve(&other, 2).err(), Some(0));
}
