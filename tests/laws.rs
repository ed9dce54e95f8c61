use intern_str::builder::{AsciiGraph, Builder, IgnoreCase, Utf8Graph};
use intern_str::{CaseInsensitive, Graph, Node};

#[test]
fn round_trip_on_built_ascii_graph() {
    let keys = ["text/html", "text/plain", "image/png", "image/jpeg", "a", "ab", "abc"];
    let mut builder = Builder::<usize, AsciiGraph>::new();
    for (i, k) in keys.iter().enumerate() {
        builder.add(k.to_string(), i).unwrap();
    }
    let mut buffer = vec![];
    let graph = builder.build(&mut buffer);
    for (i, k) in keys.iter().enumerate() {
        assert_eq!(*graph.process(k.as_bytes()), Some(i));
    }
}

#[test]
fn round_trip_on_literal_graph() {
    // "on" -> 1, "of" -> 2, written out by hand.
    let nodes: Vec<Node<'static, &'static [u8], Option<u32>>> = vec![
        Node::new(&[], None, 0, usize::MAX),
        Node::new(&[], Some(2), 0, 1),
        Node::new(&[], Some(1), 0, 1),
        Node::new(&[(b"f", 1), (b"n", 2)], None, 0, 1),
        Node::new(&[(b"o", 3)], None, 0, 1),
    ];
    let graph = Graph::new(&nodes, 4);
    assert_eq!(*graph.process(&b"on"[..]), Some(1));
    assert_eq!(*graph.process(&b"of"[..]), Some(2));
    assert_eq!(*graph.process(&b"o"[..]), None);
    assert_eq!(*graph.process(&b"ox"[..]), None);
}

#[test]
fn negative_lookup_for_prefixes_and_absent_keys() {
    let mut builder = Builder::<u32, Utf8Graph>::new();
    builder.add("Green".to_string(), 1).unwrap();
    builder.add("Gray".to_string(), 2).unwrap();
    let mut buffer = vec![];
    let graph = builder.build(&mut buffer);
    assert_eq!(*graph.process("G"), None);
    assert_eq!(*graph.process("Gre"), None);
    assert_eq!(*graph.process("Blue"), None);
    assert_eq!(*graph.process(""), None);
}

#[test]
fn probe_shorter_than_next_chunk_stops_at_key() {
    // Below "a" the only edge is "bcd": a probe with fewer bytes left than
    // that chunk stops at the node of "a" and yields its payload.
    let mut builder = Builder::<u32, Utf8Graph>::new();
    builder.add("a".to_string(), 1).unwrap();
    builder.add("abcd".to_string(), 2).unwrap();
    let mut buffer = vec![];
    let graph = builder.build(&mut buffer);
    assert_eq!(*graph.process("a"), Some(1));
    assert_eq!(*graph.process("abcd"), Some(2));
    assert_eq!(*graph.process("ab"), Some(1));
    assert_eq!(*graph.process("abce"), None);
}

#[test]
fn case_fold_invariance_on_bytes() {
    let mut builder = Builder::<u32, IgnoreCase<AsciiGraph>>::new();
    builder.add("Red".to_string(), 7).unwrap();
    let mut buffer = vec![];
    let graph = builder.build(&mut buffer);
    assert_eq!(*graph.process(CaseInsensitive(&b"RED"[..])), Some(7));
    assert_eq!(*graph.process(CaseInsensitive(&b"red"[..])), Some(7));
    assert_eq!(*graph.process(CaseInsensitive(&b"Red"[..])), Some(7));
    assert_eq!(*graph.process(CaseInsensitive(&b"rEd"[..])), Some(7));
}

#[test]
fn case_insensitive_equality() {
    assert!(CaseInsensitive("Text/HTML") == CaseInsensitive("text/html"));
    assert!(CaseInsensitive("Text") != CaseInsensitive("Texts"));
    assert!(CaseInsensitive(&b"ab"[..]) != CaseInsensitive(&b"ac"[..]));
    assert!(CaseInsensitive("ABC") < CaseInsensitive("abd"));
    assert!(CaseInsensitive("b") > CaseInsensitive("ABC"));
    assert_eq!(
        CaseInsensitive("Red").partial_cmp(&CaseInsensitive("rED")),
        Some(std::cmp::Ordering::Equal)
    );
}

fn word(mut n: usize) -> String {
    // A distinct lowercase word for each number.
    let mut s = String::new();
    loop {
        s.push((b'a' + (n % 26) as u8) as char);
        n /= 26;
        if n == 0 {
            break;
        }
    }
    s
}

#[test]
fn scale_ten_thousand_words() {
    let n = 12_000;
    let mut builder = Builder::<usize, IgnoreCase<Utf8Graph>>::new();
    for i in 0..n {
        builder.add(word(i), i).unwrap();
    }
    let mut buffer = vec![];
    let graph = builder.build(&mut buffer);
    for i in 0..n {
        let w = word(i);
        assert_eq!(*graph.process(CaseInsensitive(w.as_str())), Some(i));
        let upper = w.to_uppercase();
        assert_eq!(*graph.process(CaseInsensitive(upper.as_str())), Some(i));
    }
    assert_eq!(*graph.process(CaseInsensitive("sfdlkjafldksakdfls")), None);
}

#[test]
fn scale_ascii_words() {
    let n = 10_000;
    let mut builder = Builder::<usize, AsciiGraph>::new();
    for i in 0..n {
        builder.add(format!("w{}", word(i)), i).unwrap();
    }
    let mut buffer = vec![];
    let graph = builder.build(&mut buffer);
    for i in 0..n {
        let w = format!("w{}", word(i));
        assert_eq!(*graph.process(w.as_bytes()), Some(i));
    }
}
