use std::collections::{HashMap, VecDeque};

use silk::http::path::{HttpNode, HttpNodeTree, PathVariables, Segment, ServiceCollection};

#[test]
fn parses_correct_static_segment() {
    let input = "/home".to_string();
    let expected = Segment::Static("/home".to_string());
    assert_eq!(Ok(expected), Segment::parse(input));
}

#[test]
fn parses_correct_pattern_segment() {
    let input = "/{name}".to_string();
    let expected = Segment::Pattern {
        reference: String::from("name"),
    };
    assert_eq!(Ok(expected), Segment::parse(input));
}

#[test]
fn segment_parse_path() {
    let input = "/home/{name}/hello";
    let expected = vec![
        Segment::Static("/home".to_string()),
        Segment::Pattern {
            reference: String::from("name"),
        },
        Segment::Static("/hello".to_string()),
    ];
    let iter = Segment::parse_path(input);
    for (parsed_seg, expected_seg) in iter.into_iter().zip(expected) {
        assert_eq!(Ok(expected_seg), parsed_seg);
    }
}

#[test]
fn segment_parse_path_single_slash() {
    let input = "/";
    let expected = Segment::Static("/".to_string());
    let mut iter = Segment::parse_path(input);
    assert_eq!(1, iter.len());
    assert_eq!(Ok(expected), iter.remove(0));
}

#[test]
fn tree_adds_non_existent() {
    let path = "/home/user";
    let expected = HttpNodeTree {
        root: HttpNode {
            segment: Segment::Static("/".to_string()),
            leaves: vec![HttpNode {
                segment: Segment::Static("/home".to_string()),
                leaves: vec![HttpNode {
                    segment: Segment::Static("/user".to_string()),
                    leaves: VecDeque::new(),
                    methods: ServiceCollection::default(),
                }]
                .into(),
                methods: ServiceCollection::default(),
            }]
            .into(),
            methods: ServiceCollection::default(),
        },
    };
    let mut tree: HttpNodeTree<()> = HttpNodeTree::new();
    let res = tree.add_service(path, ServiceCollection::default());
    assert_eq!(Ok(()), res);
    assert_eq!(expected, tree);
}

#[test]
fn tree_extend_path() {
    let initial_path = "/home";
    let follow_up_path = "/home/user";
    let expected = HttpNodeTree {
        root: HttpNode {
            segment: Segment::Static("/".to_string()),
            leaves: vec![HttpNode {
                segment: Segment::Static("/home".to_string()),
                leaves: vec![HttpNode {
                    segment: Segment::Static("/user".to_string()),
                    leaves: VecDeque::new(),
                    methods: ServiceCollection::default(),
                }]
                .into(),
                methods: ServiceCollection::default(),
            }]
            .into(),
            methods: ServiceCollection::default(),
        },
    };
    let mut tree: HttpNodeTree<()> = HttpNodeTree::new();
    assert!(
        tree.add_service(initial_path, ServiceCollection::default())
            .is_ok()
    );

    assert!(
        tree.add_service(follow_up_path, ServiceCollection::default())
            .is_ok()
    );

    assert_eq!(expected, tree);
}

#[test]
fn tree_get_node_static() {
    let input = "/home/user";
    let mut tree: HttpNodeTree<()> = HttpNodeTree::new();
    assert!(
        tree.add_service(input, ServiceCollection::default())
            .is_ok()
    );
    let expected = HttpNode {
        segment: Segment::Static("/user".to_string()),
        leaves: VecDeque::new(),
        methods: ServiceCollection::default(),
    };
    let (node, vars) = tree.get_node(input).unwrap().unwrap();
    assert_eq!(HashMap::new(), vars);
    assert_eq!(&expected, node);
}

#[test]
fn tree_get_node_pattern() {
    let register_input = "/home/{user}";
    let incoming_input = "/home/Steve";
    let mut tree: HttpNodeTree<()> = HttpNodeTree::new();
    assert!(
        tree.add_service(register_input, ServiceCollection::default())
            .is_ok()
    );
    let expected = HttpNode {
        segment: Segment::Pattern {
            reference: String::from("user"),
        },
        leaves: VecDeque::new(),
        methods: ServiceCollection::default(),
    };
    let mut expected_path_vars = PathVariables::new();
    expected_path_vars.insert("user".to_string(), "Steve".to_string());
    let res = tree.get_node(incoming_input);

    assert_eq!(Some(Ok((&expected, expected_path_vars))), res);
}

#[test]
fn tree_prefer_static_path_over_pattern() {
    let register_input_pattern = "/home/{user}";
    let register_input_static = "/home/valia";
    let incoming_pattern = "/home/steve";
    let mut tree: HttpNodeTree<()> = HttpNodeTree::new();
    assert!(
        tree.add_service(register_input_pattern, ServiceCollection::default())
            .is_ok()
    );
    assert!(
        tree.add_service(register_input_static, ServiceCollection::default())
            .is_ok()
    );
    let expected = HttpNode {
        segment: Segment::Static("/valia".to_string()),
        leaves: VecDeque::new(),
        methods: ServiceCollection::default(),
    };
    let expected_path_vars = PathVariables::new();

    let res = tree.get_node(register_input_static);
    assert_eq!(Some(Ok((&expected, expected_path_vars))), res);

    let expected = HttpNode {
        segment: Segment::Pattern {
            reference: String::from("user"),
        },
        leaves: VecDeque::new(),
        methods: ServiceCollection::default(),
    };
    let mut expected_path_vars = PathVariables::new();
    expected_path_vars.insert("user".to_string(), "steve".to_string());

    let res = tree.get_node(incoming_pattern);
    assert_eq!(Some(Ok((&expected, expected_path_vars))), res);
}

#[test]
fn tree_return_root() {
    let dummy_register = "/home";
    let mut tree: HttpNodeTree<()> = HttpNodeTree::new();
    assert!(
        tree.add_service(dummy_register, ServiceCollection::default())
            .is_ok()
    );

    let mut expected = HttpNode::default();
    expected.get_leave_idx_or_add(Segment::Static("/home".to_string()));
    let expected_path_vars = PathVariables::new();

    assert_eq!(
        Some(Ok((&expected, expected_path_vars))),
        tree.get_node("/")
    );
}
