use vector_index::disk::Disk;
use vector_index::elements::{Edge, EntryPoint, Vector};
use vector_index::index::Index;

fn vec_of(coords: &[f32]) -> Vector {
    Vector {
        raw: coords.iter().map(|c| c.to_bits()).collect(),
    }
}

fn coords_of(v: &Vector) -> Vec<f32> {
    v.raw.iter().map(|b| f32::from_bits(*b)).collect()
}

#[test]
fn empty_open() {
    let mut disk = Disk::create();
    let mut w = Index::writer(&disk);
    assert_eq!(w.no_nodes(), 0);
    assert_eq!(w.no_layers(), 0);
    assert!(w.get_entry_point().is_none());
    w.commit(&mut disk);
    assert_eq!(disk.meta.log.version_number, 1);
}

#[test]
fn single_insert() {
    let mut disk = Disk::create();
    let mut w = Index::writer(&disk);
    let n = w.add_node(&mut disk, "alpha".to_string(), vec_of(&[1.0, 0.0]), 2);
    assert_eq!(w.no_layers(), 3);
    assert!(w.is_node_at(0, n));
    assert!(w.is_node_at(2, n));
    assert!(!w.is_node_at(3, n));
    w.set_entry_point(EntryPoint { node: n, layer: 2 });
    assert_eq!(w.get_entry_point().unwrap().layer, 2);
}

#[test]
fn connect_disconnect_symmetry() {
    let mut disk = Disk::create();
    let mut w = Index::writer(&disk);
    let a = w.add_node(&mut disk, "a".to_string(), vec_of(&[1.0, 0.0]), 0);
    let b = w.add_node(&mut disk, "b".to_string(), vec_of(&[0.0, 1.0]), 0);
    w.connect(
        0,
        Edge {
            from: a,
            to: b,
            dist: 0.5f32.to_bits(),
        },
    );
    let out = w.out_edges(0, a);
    assert_eq!(out.len(), 1);
    assert_eq!(out[0].to, b);
    assert_eq!(f32::from_bits(out[0].dist), 0.5);
    let inn = w.in_edges(0, b);
    assert_eq!(inn.len(), 1);
    assert_eq!(inn[0].to, a);
    assert_eq!(f32::from_bits(inn[0].dist), 0.5);
    w.disconnect(0, a, b);
    assert!(w.out_edges(0, a).is_empty());
    assert!(w.in_edges(0, b).is_empty());
}

#[test]
fn erase_with_layer_collapse() {
    let mut disk = Disk::create();
    let mut w = Index::writer(&disk);
    let n1 = w.add_node(&mut disk, "one".to_string(), vec_of(&[1.0]), 0);
    let n2 = w.add_node(&mut disk, "two".to_string(), vec_of(&[2.0]), 0);
    let n3 = w.add_node(&mut disk, "three".to_string(), vec_of(&[3.0]), 2);
    assert_eq!(w.no_layers(), 3);
    w.erase(&mut disk, n3);
    assert_eq!(w.no_layers(), 1);
    assert_eq!(w.get_entry_point().unwrap().layer, 0);
    assert!(w.is_node_at(0, n1));
    assert!(w.is_node_at(0, n2));
    assert!(!w.is_node_at(0, n3));
}

#[test]
fn commit_and_gc_reclaims() {
    let mut disk = Disk::create();
    let mut w = Index::writer(&disk);
    let mut nodes = Vec::new();
    for i in 0..10 {
        let key = format!("key{}", i);
        nodes.push(w.add_node(&mut disk, key, vec_of(&[i as f32]), 0));
    }
    for n in nodes.iter().take(5) {
        w.erase(&mut disk, *n);
    }
    w.commit(&mut disk);
    w.run_garbage_collection(&mut disk);
    assert_eq!(disk.key_storage.live_segments(), 5);
    assert_eq!(disk.vector_storage.live_segments(), 5);
    assert_eq!(w.node_keys(&disk).len(), 5);
}

#[test]
fn add_erase_commit_gc_leaves_nothing() {
    let mut disk = Disk::create();
    let mut w = Index::writer(&disk);
    let n = w.add_node(&mut disk, "gone".to_string(), vec_of(&[1.0, 2.0]), 1);
    w.erase(&mut disk, n);
    w.commit(&mut disk);
    w.run_garbage_collection(&mut disk);
    assert_eq!(w.no_nodes(), 0);
    assert_eq!(disk.key_storage.live_segments(), 0);
    assert_eq!(disk.vector_storage.live_segments(), 0);
}

#[test]
fn reopen_agrees_with_last_commit() {
    let mut disk = Disk::create();
    let mut w = Index::writer(&disk);
    let a = w.add_node(&mut disk, "a".to_string(), vec_of(&[1.0, 0.0]), 1);
    let b = w.add_node(&mut disk, "b".to_string(), vec_of(&[0.0, 1.0]), 0);
    w.connect(
        1,
        Edge {
            from: a,
            to: a,
            dist: 0.0f32.to_bits(),
        },
    );
    w.connect(
        0,
        Edge {
            from: a,
            to: b,
            dist: 0.25f32.to_bits(),
        },
    );
    w.set_entry_point(EntryPoint { node: a, layer: 1 });
    w.commit(&mut disk);
    let r = Index::reader(&disk);
    let ws = w.stats();
    let rs = r.stats();
    assert_eq!(ws.nodes_per_out_layer, rs.nodes_per_out_layer);
    assert_eq!(ws.nodes_in_total, rs.nodes_in_total);
    assert_eq!(w.get_entry_point(), r.get_entry_point());
    assert_eq!(w.no_layers(), r.no_layers());
    let we = w.out_edges(0, a);
    let re = r.out_edges(0, a);
    assert_eq!(we.len(), re.len());
    assert_eq!(we[0], re[0]);
}

#[test]
fn persisted_node_round_trip() {
    let mut disk = Disk::create();
    let mut w = Index::writer(&disk);
    let v = vec_of(&[0.25, -1.5, 3.0]);
    let n = w.add_node(&mut disk, "alpha".to_string(), v.clone(), 1);
    w.commit(&mut disk);
    let r = Index::reader(&disk);
    let found = r.get_node(&disk, "alpha").unwrap();
    assert_eq!(found, n);
    let stored = r.get_node_vector(&disk, found);
    assert_eq!(coords_of(&stored), coords_of(&v));
    assert_eq!(r.get_node_key(&disk, found), "alpha");
}

#[test]
fn reload_is_idempotent() {
    let mut disk = Disk::create();
    let mut w = Index::writer(&disk);
    w.add_node(&mut disk, "x".to_string(), vec_of(&[1.0]), 0);
    w.commit(&mut disk);
    let mut r = Index::reader(&disk);
    w.add_node(&mut disk, "y".to_string(), vec_of(&[2.0]), 0);
    w.commit(&mut disk);
    r.reload(&disk);
    let ts1 = r.time_stamp;
    let nodes1 = r.no_nodes();
    r.reload(&disk);
    assert_eq!(r.time_stamp, ts1);
    assert_eq!(r.no_nodes(), nodes1);
}

#[test]
fn cross_process_reload() {
    let mut disk = Disk::create();
    let mut a = Index::writer(&disk);
    a.add_node(&mut disk, "first".to_string(), vec_of(&[1.0]), 0);
    a.commit(&mut disk);
    let mut b = Index::reader(&disk);
    let v_before = b.time_stamp;
    a.add_node(&mut disk, "second".to_string(), vec_of(&[2.0]), 1);
    a.commit(&mut disk);
    assert_eq!(disk.meta.log.version_number, v_before + 1);
    b.reload(&disk);
    assert_eq!(b.time_stamp, v_before + 1);
    assert_eq!(b.stats().nodes_in_total, 2);
    assert_eq!(b.no_layers(), a.no_layers());
}

#[test]
fn version_strictly_increases() {
    let mut disk = Disk::create();
    let mut w = Index::writer(&disk);
    let mut last = disk.meta.log.version_number;
    for i in 0..4 {
        w.add_node(&mut disk, format!("k{}", i), vec_of(&[i as f32]), 0);
        w.commit(&mut disk);
        assert!(disk.meta.log.version_number > last);
        last = disk.meta.log.version_number;
    }
}

#[test]
fn labels_and_prefixes() {
    let mut disk = Disk::create();
    let mut w = Index::writer(&disk);
    let n = w.add_node(&mut disk, "doc/1".to_string(), vec_of(&[1.0]), 0);
    w.add_node(&mut disk, "doc/2".to_string(), vec_of(&[2.0]), 0);
    w.add_node(&mut disk, "other".to_string(), vec_of(&[3.0]), 0);
    w.add_label(&mut disk, "doc/1".to_string(), "red".to_string());
    w.add_label(&mut disk, "doc/1".to_string(), "blue".to_string());
    assert!(w.has_labels(&disk, n, &["red".to_string(), "blue".to_string()]));
    assert!(!w.has_labels(&disk, n, &["red".to_string(), "green".to_string()]));
    let pref = w.get_prefixed(&disk, "doc/");
    assert_eq!(pref.len(), 2);
    assert!(pref.contains(&"doc/1".to_string()));
    assert!(pref.contains(&"doc/2".to_string()));
    assert!(w.has_node(&disk, "other"));
    assert!(!w.has_node(&disk, "missing"));
    assert!(w.get_node(&disk, "missing").is_none());
}

#[test]
fn prefixed_keys_come_sorted() {
    let mut disk = Disk::create();
    let mut w = Index::writer(&disk);
    for key in ["doc/zeta", "doc/alpha", "other", "doc/mid"] {
        w.add_node(&mut disk, key.to_string(), vec_of(&[1.0]), 0);
    }
    let pref = w.get_prefixed(&disk, "doc/");
    assert_eq!(pref, vec!["doc/alpha", "doc/mid", "doc/zeta"]);
    let all = w.get_prefixed(&disk, "");
    assert_eq!(all, vec!["doc/alpha", "doc/mid", "doc/zeta", "other"]);
}

#[test]
fn add_node_grows_the_count_by_one() {
    let mut disk = Disk::create();
    let mut w = Index::writer(&disk);
    for i in 0..4 {
        assert_eq!(w.no_nodes(), i);
        w.add_node(&mut disk, format!("k{}", i), vec_of(&[i as f32]), 0);
        assert_eq!(w.no_nodes(), i + 1);
    }
}

#[test]
fn reader_in_edges_are_empty() {
    let mut disk = Disk::create();
    let mut w = Index::writer(&disk);
    let a = w.add_node(&mut disk, "a".to_string(), vec_of(&[1.0]), 0);
    let b = w.add_node(&mut disk, "b".to_string(), vec_of(&[2.0]), 0);
    w.connect(
        0,
        Edge {
            from: a,
            to: b,
            dist: 0.5f32.to_bits(),
        },
    );
    w.commit(&mut disk);
    let r = Index::reader(&disk);
    assert!(r.in_edges(0, b).is_empty());
    assert_eq!(w.in_edges(0, b).len(), 1);
}

#[test]
fn entry_point_is_monotone() {
    let mut disk = Disk::create();
    let mut w = Index::writer(&disk);
    let lo = w.add_node(&mut disk, "lo".to_string(), vec_of(&[1.0]), 0);
    let hi = w.add_node(&mut disk, "hi".to_string(), vec_of(&[2.0]), 3);
    w.set_entry_point(EntryPoint { node: hi, layer: 3 });
    w.set_entry_point(EntryPoint { node: lo, layer: 0 });
    let ep = w.get_entry_point().unwrap();
    assert_eq!(ep.node, hi);
    assert_eq!(ep.layer, 3);
}

#[test]
fn overwriting_a_key_rebinds_it() {
    let mut disk = Disk::create();
    let mut w = Index::writer(&disk);
    let n1 = w.add_node(&mut disk, "k".to_string(), vec_of(&[1.0]), 0);
    let n2 = w.add_node(&mut disk, "k".to_string(), vec_of(&[2.0]), 0);
    assert_ne!(n1, n2);
    assert_eq!(w.get_node(&disk, "k"), Some(n2));
}
