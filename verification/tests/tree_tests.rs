use std::collections::HashMap;

use silk::http::path::{HttpNode, HttpNodeTree, Segment, SegmentParseError, ServiceCollection};

fn services(n: u32) -> ServiceCollection<u32> {
    ServiceCollection::default().set_get(n)
}

#[test]
fn route_then_lookup_binds_every_pattern() {
    let mut tree: HttpNodeTree<u32> = HttpNodeTree::new();
    assert_eq!(Ok(()), tree.add_service("/hello/{user}/posts/{id}", services(7)));
    let (node, vars) = tree.get_node("/hello/steve/posts/42").unwrap().unwrap();
    assert_eq!(Some(&7), node.methods.get());
    let mut expected = HashMap::new();
    expected.insert("user".to_string(), "steve".to_string());
    expected.insert("id".to_string(), "42".to_string());
    assert_eq!(expected, vars);
}

#[test]
fn unknown_path_finds_nothing() {
    let mut tree: HttpNodeTree<u32> = HttpNodeTree::new();
    assert!(tree.add_service("/home", services(1)).is_ok());
    assert!(tree.get_node("/away").is_none());
    assert!(tree.get_node("").is_none());
}

#[test]
fn bad_segment_in_a_lookup_is_reported() {
    let tree: HttpNodeTree<u32> = HttpNodeTree::new();
    assert_eq!(Some(Err(SegmentParseError::EmptyPattern)), tree.get_node("/{}").map(|r| r.map(|_| ())));
}

#[test]
fn failed_registration_keeps_the_nodes_added_before_it() {
    let mut tree: HttpNodeTree<u32> = HttpNodeTree::new();
    assert_eq!(
        Err(SegmentParseError::ExpectedClosingCurly),
        tree.add_service("/a/{b", services(1))
    );
    assert_eq!(1, tree.root.leaves.len());
    assert_eq!(Segment::Static("/a".to_string()), tree.root.leaves[0].segment);
    assert!(tree.root.leaves[0].methods.get().is_none());
}

#[test]
fn repeated_segment_stops_the_registration() {
    let mut tree: HttpNodeTree<u32> = HttpNodeTree::new();
    assert!(tree.add_service("/a/a", services(3)).is_ok());
    assert_eq!(1, tree.root.leaves.len());
    assert!(tree.root.leaves[0].leaves.is_empty());
    assert_eq!(Some(&3), tree.root.leaves[0].methods.get());
    assert!(tree.get_node("/a/a").is_none());
}

#[test]
fn root_path_registers_at_the_root() {
    let mut tree: HttpNodeTree<u32> = HttpNodeTree::new();
    assert!(tree.add_service("/", services(9)).is_ok());
    let (node, vars) = tree.get_node("/").unwrap().unwrap();
    assert_eq!(Some(&9), node.methods.get());
    assert!(vars.is_empty());
}

#[test]
fn static_children_stay_in_front() {
    let mut tree: HttpNodeTree<u32> = HttpNodeTree::new();
    assert!(tree.add_service("/home/{user}", services(1)).is_ok());
    assert!(tree.add_service("/home/valia", services(2)).is_ok());
    assert!(tree.add_service("/home/anna", services(3)).is_ok());
    let home = &tree.root.leaves[0];
    let kinds: Vec<bool> = home.leaves.iter().map(|n| n.segment.is_static()).collect();
    assert_eq!(vec![true, true, false], kinds);
}

#[test]
fn adding_a_static_beside_existing_children_registers_at_the_new_child() {
    let mut tree: HttpNodeTree<u32> = HttpNodeTree::new();
    assert!(tree.add_service("/home/{user}", services(1)).is_ok());
    assert!(tree.add_service("/home/valia", services(2)).is_ok());
    let home = &tree.root.leaves[0];
    assert_eq!(Some(&2), home.leaves[0].methods.get());
    assert_eq!(Some(&1), home.leaves[1].methods.get());
    let (node, _) = tree.get_node("/home/valia").unwrap().unwrap();
    assert_eq!(Some(&2), node.methods.get());
    let (node, _) = tree.get_node("/home/steve").unwrap().unwrap();
    assert_eq!(Some(&1), node.methods.get());
}

#[test]
fn pattern_in_a_request_binds_its_name_without_first_character() {
    let mut tree: HttpNodeTree<u32> = HttpNodeTree::new();
    assert!(tree.add_service("/home/{user}", services(1)).is_ok());
    let (_, vars) = tree.get_node("/home/{xy}").unwrap().unwrap();
    assert_eq!(Some(&"y".to_string()), vars.get("user"));
}

#[test]
fn lookup_breaks_only_on_multibyte_pattern_values() {
    let mut tree: HttpNodeTree<u32> = HttpNodeTree::new();
    assert!(tree.add_service("/a/{x}", services(1)).is_ok());
    assert!(tree.lookup_breaks("/a/{éa}"));
    assert!(!tree.lookup_breaks("/a/{ab}"));
    assert!(!tree.lookup_breaks("/a/é"));
}

#[test]
fn node_children_are_found_by_segment() {
    let mut node: HttpNode<u32> = HttpNode::new(Segment::Static("/".to_string()), ServiceCollection::default());
    assert_eq!(0, node.get_leave_idx_or_add(Segment::Pattern { reference: "p".to_string() }));
    assert_eq!(0, node.get_leave_idx_or_add(Segment::Static("/s".to_string())));
    assert_eq!(0, node.get_leave_idx_or_add(Segment::Static("/s".to_string())));
    assert_eq!(2, node.get_leave_idx_or_add(Segment::Pattern { reference: "q".to_string() }));
    let found = node.get_leave(&Segment::Pattern { reference: "p".to_string() }).unwrap();
    assert!(!found.segment.is_static());
    assert!(node.get_leave(&Segment::Static("/t".to_string())).is_none());
    let mut vars = HashMap::new();
    let entered = node.get_leave_path_vars(Segment::Static("/t".to_string()), &mut vars).unwrap();
    assert!(!entered.segment.is_static());
    assert_eq!(Some(&"t".to_string()), vars.get("p"));
}
