use vector_index::codec::{decode_string, decode_vector, encode_string, encode_vector};
use vector_index::elements::{Edge, Node, SegmentId, Vector};
use vector_index::graph_layer::GraphLayer;
use vector_index::index::Index;
use vector_index::lock::LockIndex;
use vector_index::segment::SegmentStorage;

fn node(tag: usize) -> Node {
    Node {
        key: SegmentId { off: tag, len: 1 },
        vector: SegmentId { off: tag, len: 1 },
    }
}

#[test]
fn string_codec_round_trips() {
    for key in ["", "a", "alpha", "héllo wörld", "日本語"] {
        let bytes = encode_string(key);
        let back = decode_string(&bytes).unwrap();
        assert_eq!(back, key);
    }
}

#[test]
fn string_codec_exact_bytes() {
    let bytes = encode_string("ab");
    assert_eq!(bytes, vec![2, 0, 0, 0, 0, 0, 0, 0, 97, 98]);
}

#[test]
fn string_codec_rejects_bad_images() {
    assert!(decode_string(&vec![]).is_none());
    assert!(decode_string(&vec![1, 0, 0, 0, 0, 0, 0]).is_none());
    // header says two bytes, only one follows
    assert!(decode_string(&vec![2, 0, 0, 0, 0, 0, 0, 0, 97]).is_none());
    // payload is not valid UTF-8
    assert!(decode_string(&vec![1, 0, 0, 0, 0, 0, 0, 0, 0xff]).is_none());
}

#[test]
fn vector_codec_round_trips() {
    for coords in [vec![], vec![1.0f32], vec![0.5, -2.25, 1e20, 0.0]] {
        let v = Vector {
            raw: coords.iter().map(|c: &f32| c.to_bits()).collect(),
        };
        let bytes = encode_vector(&v);
        let back = decode_vector(&bytes).unwrap();
        assert_eq!(back.raw, v.raw);
    }
}

#[test]
fn vector_codec_exact_bytes() {
    let v = Vector { raw: vec![1, 0x01020304] };
    let bytes = encode_vector(&v);
    assert_eq!(bytes, vec![2, 0, 0, 0, 1, 0, 0, 0, 4, 3, 2, 1]);
}

#[test]
fn vector_codec_rejects_bad_images() {
    assert!(decode_vector(&vec![]).is_none());
    // count says one coordinate, none follows
    assert!(decode_vector(&vec![1, 0, 0, 0]).is_none());
    // trailing garbage
    assert!(decode_vector(&vec![0, 0, 0, 0, 9]).is_none());
}

#[test]
fn segment_storage_basics() {
    let mut s = SegmentStorage::create();
    let a = s.insert(&vec![1, 2, 3]);
    let b = s.insert(&vec![4, 5]);
    assert_eq!(s.read(a), vec![1, 2, 3]);
    assert_eq!(s.read(b), vec![4, 5]);
    assert_eq!(s.live_segments(), 2);
    s.delete_segment(a);
    assert_eq!(s.live_segments(), 1);
    assert_eq!(s.read(b), vec![4, 5]);
    assert_eq!(s.data_len(), 5);
}

#[test]
fn graph_layer_edges_overwrite() {
    let mut l = GraphLayer::new();
    let a = node(1);
    let b = node(2);
    l.add_node(a);
    l.add_node(a);
    l.add_node(b);
    assert_eq!(l.no_nodes(), 2);
    l.add_edge(Edge { from: a, to: b, dist: 7 });
    l.add_edge(Edge { from: a, to: b, dist: 9 });
    let edges = l.get_edges(a);
    assert_eq!(edges.len(), 1);
    assert_eq!(edges[0].dist, 9);
    l.remove_edge(a, b);
    assert!(l.get_edges(a).is_empty());
    l.remove_node(a);
    assert!(!l.has_node(a));
    assert!(l.has_node(b));
    assert_eq!(l.some_node(), Some(b));
    assert!(!l.is_empty());
}

#[test]
fn lock_facade_round_trip() {
    let disk = vector_index::disk::Disk::create();
    let index = Index::writer(&disk);
    let mut shared = LockIndex::new(index, disk);
    let v = Vector { raw: vec![1.0f32.to_bits()] };
    let n = shared.add_node("alpha".to_string(), v, 1).unwrap();
    let other = shared.clone();
    assert_eq!(other.no_layers(), 2);
    assert!(other.is_node_at(1, n));
    assert!(!other.is_node_at(5, n));
    assert_eq!(other.get_node("alpha"), Some(n));
    assert_eq!(other.get_node_key(n).unwrap(), "alpha");
    assert_eq!(other.get_node_vector(n).unwrap().raw, vec![1.0f32.to_bits()]);
    shared.add_label("alpha".to_string(), "red".to_string());
    assert!(other.has_labels(n, &["red".to_string()]));
    shared.connect(
        1,
        Edge { from: n, to: n, dist: 0 },
    );
    assert_eq!(other.out_edges(1, n).len(), 1);
    assert_eq!(other.in_edges(1, n).len(), 1);
    shared.disconnect(1, n, n);
    assert!(other.out_edges(1, n).is_empty());
    shared.commit();
    shared.erase(n);
    shared.commit();
    shared.run_garbage_collection();
    assert_eq!(other.no_nodes(), 0);
    assert!(other.node_keys().is_empty());
    assert!(other.get_entry_point().is_none());
    assert_eq!(other.get_prefixed("al").len(), 0);
    assert!(!other.has_node("alpha"));
    shared.reload();
    let st = other.stats();
    assert_eq!(st.nodes_in_total, 0);
}

#[test]
fn node_codec_round_trips() {
    let n = Node {
        key: SegmentId { off: 7, len: 13 },
        vector: SegmentId { off: 20, len: 8 },
    };
    let bytes = vector_index::codec::encode_node(n);
    assert_eq!(bytes.len(), 32);
    assert_eq!(vector_index::codec::decode_node(&bytes), Some(n));
    assert!(vector_index::codec::decode_node(&vec![0; 31]).is_none());
}

#[test]
fn edge_codec_round_trips() {
    let e = Edge {
        from: node(1),
        to: node(2),
        dist: 0.75f32.to_bits(),
    };
    let bytes = vector_index::codec::encode_edge(e);
    assert_eq!(bytes.len(), 68);
    assert_eq!(vector_index::codec::decode_edge(&bytes), Some(e));
    assert!(vector_index::codec::decode_edge(&vec![0; 67]).is_none());
}

#[test]
fn log_codec_round_trips() {
    let without = vector_index::elements::GraphLog {
        entry_point: None,
        max_layer: 3,
        version_number: 12345678901234567890,
    };
    let bytes = vector_index::codec::encode_log(&without);
    assert_eq!(bytes.len(), 25);
    let back = vector_index::codec::decode_log(&bytes).unwrap();
    assert!(back.entry_point.is_none());
    assert_eq!(back.max_layer, 3);
    assert_eq!(back.version_number, 12345678901234567890);

    let with = vector_index::elements::GraphLog {
        entry_point: Some(vector_index::elements::EntryPoint {
            node: node(9),
            layer: 4,
        }),
        max_layer: 5,
        version_number: 42,
    };
    let bytes = vector_index::codec::encode_log(&with);
    assert_eq!(bytes.len(), 65);
    let back = vector_index::codec::decode_log(&bytes).unwrap();
    assert_eq!(back.entry_point, with.entry_point);
    assert_eq!(back.max_layer, 5);
    assert_eq!(back.version_number, 42);
    assert!(vector_index::codec::decode_log(&vec![2; 25]).is_none());
}

#[test]
fn layer_codec_encodes_counts_first() {
    let mut l = GraphLayer::new();
    l.add_node(node(1));
    l.add_edge(Edge { from: node(1), to: node(1), dist: 3 });
    let bytes = vector_index::codec::encode_layer(&l);
    assert_eq!(bytes.len(), 8 + 32 + 8 + 68);
    assert_eq!(bytes[0], 1);
    assert_eq!(bytes[8 + 32], 1);
}
