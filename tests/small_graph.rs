use intern_str::builder::{AddError, AsciiGraph, Builder, IgnoreCase, Utf8Graph};
use intern_str::{CaseInsensitive, Graph, Node};

#[derive(Debug, Copy, Clone, PartialEq, Eq)]
enum Color {
    Red,
    Gray,
    Green,
    Black,
    Blue,
    Beige,
}

fn color_nodes() -> Vec<Node<'static, &'static str, Option<Color>>> {
    vec![
        // Default trap node.
        Node::new(&[], None, 0, usize::MAX),
        // Origin node.
        Node::new(&[("B", 4), ("G", 3), ("R", 2)], None, 0, 1),
        // Node for "R".
        Node::new(&[("ed", 5)], None, 0, 2),
        // Node for "G"
        Node::new(&[("r", 6)], None, 0, 1),
        // Node for "B"
        Node::new(&[("e", 8), ("l", 7)], None, 0, 1),
        // Node for "Red"
        Node::new(&[], Some(Color::Red), 0, 1),
        // Node for "Gr"
        Node::new(&[("ay", 9), ("ee", 10)], None, 0, 2),
        // Node for "Bl"
        Node::new(&[("ac", 11), ("ue", 12)], None, 0, 2),
        // Node for "Be",
        Node::new(&[("ige", 13)], None, 0, 3),
        // Node for "Gray"
        Node::new(&[], Some(Color::Gray), 0, 1),
        // Node for "Gree"
        Node::new(&[("n", 14)], None, 0, 1),
        // Node for "Blac"
        Node::new(&[("k", 15)], None, 0, 1),
        // Node for "Blue"
        Node::new(&[], Some(Color::Blue), 0, 1),
        // Node for "Beige"
        Node::new(&[], Some(Color::Beige), 0, 1),
        // Node for "Green"
        Node::new(&[], Some(Color::Green), 0, 1),
        // Node for "Black"
        Node::new(&[], Some(Color::Black), 0, 1),
    ]
}

#[test]
fn smoke() {
    let nodes = color_nodes();
    let graph = Graph::new(&nodes, 1);
    assert_eq!(*graph.process("Red"), Some(Color::Red));
    assert_eq!(*graph.process("Gray"), Some(Color::Gray));
    assert_eq!(*graph.process("Green"), Some(Color::Green));
    assert_eq!(*graph.process("Black"), Some(Color::Black));
    assert_eq!(*graph.process("Blue"), Some(Color::Blue));
    assert_eq!(*graph.process("Beige"), Some(Color::Beige));
    assert_eq!(*graph.process("Redish"), None);
    assert_eq!(*graph.process("Re"), None);
    assert_eq!(*graph.process(""), None);
    assert_eq!(*graph.process("Indigo"), None);
}

#[test]
fn builder() {
    // Begin building a graph.
    let mut builder = Builder::<Color, Utf8Graph>::new();
    builder.add("Red".to_string(), Color::Red).unwrap();
    builder.add("Gray".to_string(), Color::Gray).unwrap();
    builder.add("Green".to_string(), Color::Green).unwrap();
    builder.add("Black".to_string(), Color::Black).unwrap();
    builder.add("Blue".to_string(), Color::Blue).unwrap();
    builder.add("Beige".to_string(), Color::Beige).unwrap();

    // Finish the graph.
    let mut buffer = vec![];
    let graph = builder.build(&mut buffer);

    // Test the graph.
    assert_eq!(*graph.process("Red"), Some(Color::Red));
    assert_eq!(*graph.process("Gray"), Some(Color::Gray));
    assert_eq!(*graph.process("Green"), Some(Color::Green));
    assert_eq!(*graph.process("Black"), Some(Color::Black));
    assert_eq!(*graph.process("Blue"), Some(Color::Blue));
    assert_eq!(*graph.process("Beige"), Some(Color::Beige));
    assert_eq!(*graph.process("Redish"), None);
    assert_eq!(*graph.process("Re"), None);
    assert_eq!(*graph.process(""), None);
    assert_eq!(*graph.process("Indigo"), None);
}

#[test]
fn builder_graph_layout() {
    let mut builder = Builder::<u32, Utf8Graph>::new();
    builder.add("ab".to_string(), 1).unwrap();
    builder.add("ac".to_string(), 2).unwrap();
    let mut buffer = vec![];
    let graph = builder.build(&mut buffer);
    let nodes = graph.nodes();
    // The trap node comes first and the root last.
    assert_eq!(nodes[0].inputs().len(), 0);
    assert_eq!(*nodes[0].output(), None);
    assert_eq!(nodes[0].default(), 0);
    assert_eq!(nodes[0].amount(), usize::MAX);
    assert_eq!(graph.start(), nodes.len() - 1);
    let root = &nodes[graph.start()];
    assert_eq!(root.inputs().len(), 1);
    assert_eq!(root.inputs()[0].0, "a");
    assert_eq!(root.amount(), 1);
    let inner = &nodes[root.inputs()[0].1];
    assert_eq!(inner.inputs().len(), 2);
    assert_eq!(inner.inputs()[0].0, "b");
    assert_eq!(inner.inputs()[1].0, "c");
    assert_eq!(*graph.process("ab"), Some(1));
    assert_eq!(*graph.process("ac"), Some(2));
    assert_eq!(*graph.process("a"), None);
}

#[test]
fn duplicate_key_keeps_first_payload() {
    let mut builder = Builder::<u32, Utf8Graph>::new();
    assert!(builder.add("key".to_string(), 1).is_ok());
    match builder.add("key".to_string(), 2) {
        Err(AddError::Duplicate(k, v)) => {
            assert_eq!(k, "key");
            assert_eq!(v, 2);
        }
        _ => panic!("expected a duplicate"),
    }
    let mut buffer = vec![];
    let graph = builder.build(&mut buffer);
    assert_eq!(*graph.process("key"), Some(1));
}

#[test]
fn duplicate_below_split() {
    let mut builder = Builder::<u32, Utf8Graph>::new();
    builder.add("Blue".to_string(), 1).unwrap();
    builder.add("Black".to_string(), 2).unwrap();
    assert!(matches!(builder.add("Blue".to_string(), 3), Err(AddError::Duplicate(_, 3))));
    // A key that ends at an inner node takes a payload there.
    assert!(builder.add("Bl".to_string(), 4).is_ok());
    assert!(matches!(builder.add("Bl".to_string(), 5), Err(AddError::Duplicate(_, 5))));
    let mut buffer = vec![];
    let graph = builder.build(&mut buffer);
    assert_eq!(*graph.process("Blue"), Some(1));
    assert_eq!(*graph.process("Black"), Some(2));
    assert_eq!(*graph.process("Bl"), Some(4));
}

#[test]
fn empty_key_is_rejected() {
    let mut builder = Builder::<u32, Utf8Graph>::new();
    assert!(matches!(builder.add(String::new(), 7), Err(AddError::Empty(7))));
    let mut buffer = vec![];
    let graph = builder.build(&mut buffer);
    // Only the trap node and the root.
    assert_eq!(graph.nodes().len(), 2);
    assert_eq!(*graph.process(""), None);
}

#[test]
fn non_ascii_key_is_rejected_by_ascii_builder() {
    let mut builder = Builder::<u32, AsciiGraph>::new();
    match builder.add("caf\u{e9}".to_string(), 9) {
        Err(AddError::Invalid(k, v)) => {
            assert_eq!(k, "caf\u{e9}");
            assert_eq!(v, 9);
        }
        _ => panic!("expected an invalid key"),
    }
    builder.add("cafe".to_string(), 1).unwrap();
    let mut buffer = vec![];
    let graph = builder.build(&mut buffer);
    assert_eq!(graph.nodes().len(), 3);
    assert_eq!(*graph.process(&b"cafe"[..]), Some(1));
    assert_eq!(*graph.process("caf\u{e9}".as_bytes()), None);
}

#[test]
fn case_insensitive_lookup() {
    let mut builder = Builder::<u32, IgnoreCase<Utf8Graph>>::new();
    builder.add("Red".to_string(), 1).unwrap();
    builder.add("GREEN".to_string(), 2).unwrap();
    assert!(matches!(builder.add("RED".to_string(), 3), Err(AddError::Duplicate(_, 3))));
    let mut buffer = vec![];
    let graph = builder.build(&mut buffer);
    assert_eq!(*graph.process(CaseInsensitive("RED")), Some(1));
    assert_eq!(*graph.process(CaseInsensitive("red")), Some(1));
    assert_eq!(*graph.process(CaseInsensitive("Red")), Some(1));
    assert_eq!(*graph.process(CaseInsensitive("green")), Some(2));
    assert_eq!(*graph.process(CaseInsensitive("Blue")), None);
}

#[test]
fn case_insensitive_ascii_bytes() {
    let mut builder = Builder::<u32, IgnoreCase<AsciiGraph>>::new();
    builder.add("Text/HTML".to_string(), 1).unwrap();
    builder.add("text/plain".to_string(), 2).unwrap();
    let mut buffer = vec![];
    let graph = builder.build(&mut buffer);
    assert_eq!(*graph.process(CaseInsensitive(&b"TEXT/html"[..])), Some(1));
    assert_eq!(*graph.process(CaseInsensitive(&b"Text/Plain"[..])), Some(2));
    assert_eq!(*graph.process(CaseInsensitive(&b"text/"[..])), None);
}

#[test]
fn multibyte_keys() {
    let mut builder = Builder::<u32, Utf8Graph>::new();
    builder.add("caf\u{e9}".to_string(), 1).unwrap();
    builder.add("caf\u{e8}".to_string(), 2).unwrap();
    builder.add("\u{e9}t\u{e9}".to_string(), 3).unwrap();
    builder.add("\u{e8}re".to_string(), 4).unwrap();
    let mut buffer = vec![];
    let graph = builder.build(&mut buffer);
    assert_eq!(*graph.process("caf\u{e9}"), Some(1));
    assert_eq!(*graph.process("caf\u{e8}"), Some(2));
    assert_eq!(*graph.process("caf"), None);
    assert_eq!(*graph.process("caf\u{ea}"), None);
    assert_eq!(*graph.process("\u{e9}"), None);
}

#[test]
fn empty_builder_layout() {
    let builder = Builder::<u32, Utf8Graph>::new();
    let mut buffer = vec![Node::new(&[], Some(9), 0, 3)];
    let graph = builder.build(&mut buffer);
    assert_eq!(graph.nodes().len(), 2);
    assert_eq!(graph.start(), 1);
    assert_eq!(*graph.nodes()[0].output(), None);
    assert_eq!(graph.nodes()[1].inputs().len(), 0);
    assert_eq!(graph.nodes()[1].amount(), 1);
    assert_eq!(*graph.process("x"), None);
}

#[test]
fn built_layout_facts() {
    let mut builder = Builder::<u32, Utf8Graph>::new();
    for (i, k) in ["Red", "Gray", "Green", "Black", "Blue", "Beige", "Re"].iter().enumerate() {
        builder.add(k.to_string(), i as u32).unwrap();
    }
    let mut buffer = vec![];
    let graph = builder.build(&mut buffer);
    let nodes = graph.nodes();
    assert_eq!(graph.start(), nodes.len() - 1);
    assert!(nodes[0].inputs().is_empty());
    for (i, node) in nodes.iter().enumerate() {
        assert_eq!(node.default(), 0);
        if i == 0 {
            continue;
        }
        if node.inputs().is_empty() {
            assert_eq!(node.amount(), 1);
        }
        for (chunk, target) in node.inputs() {
            assert!(*target >= 1 && *target < i);
            assert_eq!(chunk.len(), node.amount());
        }
    }
    let outputs: Vec<u32> = nodes.iter().filter_map(|n| *n.output()).collect();
    assert_eq!(outputs.len(), 7);
    assert_eq!(*graph.process("Redish"), None);
    assert_eq!(*graph.process("Re"), Some(6));
}

#[test]
fn marker_types_copy_and_compare() {
    let a: IgnoreCase<Utf8Graph> = IgnoreCase::default();
    let b = a;
    assert_eq!(a, b);
    let c = b.clone();
    assert_eq!(c, a);
}

#[test]
fn one_node_per_payload() {
    let mut builder = Builder::<u32, AsciiGraph>::new();
    for (i, k) in ["ab", "abcd", "abx", "q"].iter().enumerate() {
        builder.add(k.to_string(), i as u32).unwrap();
    }
    let mut buffer = vec![];
    let graph = builder.build(&mut buffer);
    let mut outputs: Vec<u32> = graph.nodes().iter().filter_map(|n| *n.output()).collect();
    outputs.sort();
    assert_eq!(outputs, vec![0, 1, 2, 3]);
    assert_eq!(*graph.process(&b"abcx"[..]), None);
    assert_eq!(*graph.process(&b"abc"[..]), None);
    assert_eq!(*graph.process(&b"ab"[..]), Some(0));
    assert_eq!(*graph.process(&b"abx"[..]), Some(2));
}
