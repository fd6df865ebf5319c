use fj_topology::{Handle, Handles, Instance, Vertex};

fn vertices(core: &mut Instance, n: usize) -> Vec<Handle<Vertex>> {
    (0..n).map(|_| core.insert_vertex(Vertex {})).collect()
}

fn ids(handles: &Handles<Vertex>) -> Vec<usize> {
    handles.iter().iter().map(|h| h.id()).collect()
}

#[test]
fn length_and_indices() {
    let mut core = Instance::new();
    let hs = vertices(&mut core, 3);
    let handles = Handles::new(hs.clone());

    assert_eq!(handles.len(), 3);
    assert!(!handles.is_empty());
    for (i, h) in hs.iter().enumerate() {
        assert_eq!(handles.nth(i).unwrap().id(), h.id());
        for k in 0..4 {
            assert_eq!(handles.nth_circular(i + k * 3).id(), h.id());
        }
    }
    assert!(handles.nth(3).is_none());
}

#[test]
fn duplicates_are_detected() {
    let mut core = Instance::new();
    let hs = vertices(&mut core, 2);
    assert!(Handles::are_distinct(&vec![hs[0], hs[1]]));
    assert!(!Handles::are_distinct(&vec![hs[0], hs[1], hs[0]]));
    assert!(Handles::<Vertex>::are_distinct(&vec![]));
}

#[test]
fn empty_collection() {
    let handles: Handles<Vertex> = Handles::new(vec![]);
    assert!(handles.is_empty());
    assert_eq!(handles.len(), 0);
    assert!(handles.pairs().is_empty());
}

#[test]
fn replace_keeps_order() {
    let mut core = Instance::new();
    let hs = vertices(&mut core, 4);
    let handles = Handles::new(vec![hs[0], hs[1], hs[2]]);

    let replaced = handles.replace(&hs[1], vec![hs[3]]).unwrap();
    assert_eq!(ids(&replaced), vec![hs[0].id(), hs[3].id(), hs[2].id()]);
    // the receiver is unchanged
    assert_eq!(ids(&handles), vec![hs[0].id(), hs[1].id(), hs[2].id()]);
}

#[test]
fn replace_missing_target() {
    let mut core = Instance::new();
    let hs = vertices(&mut core, 4);
    let handles = Handles::new(vec![hs[0], hs[1], hs[2]]);
    assert!(handles.replace(&hs[3], vec![hs[3]]).is_none());
}

#[test]
fn replace_with_multiple_splices_in_place() {
    let mut core = Instance::new();
    let hs = vertices(&mut core, 5);
    let handles = Handles::new(vec![hs[0], hs[1], hs[2]]);

    let replaced = handles.replace(&hs[1], vec![hs[3], hs[4]]).unwrap();
    assert_eq!(ids(&replaced), vec![hs[0].id(), hs[3].id(), hs[4].id(), hs[2].id()]);

    let removed = handles.replace(&hs[0], vec![]).unwrap();
    assert_eq!(ids(&removed), vec![hs[1].id(), hs[2].id()]);
}

#[test]
fn update_in_place() {
    let mut core = Instance::new();
    let hs = vertices(&mut core, 4);
    let handles = Handles::new(vec![hs[0], hs[1], hs[2]]);
    let replacement = hs[3];

    let updated = handles.update(&hs[1], |_| replacement);
    assert_eq!(ids(&updated), vec![hs[0].id(), hs[3].id(), hs[2].id()]);
}

#[test]
fn index_and_successor() {
    let mut core = Instance::new();
    let hs = vertices(&mut core, 4);
    let handles = Handles::new(vec![hs[0], hs[1], hs[2]]);

    assert_eq!(handles.index_of(&hs[2]), Some(2));
    assert_eq!(handles.index_of(&hs[3]), None);
    assert_eq!(handles.after(&hs[0]).unwrap().id(), hs[1].id());
    assert_eq!(handles.after(&hs[2]).unwrap().id(), hs[0].id());
    assert!(handles.after(&hs[3]).is_none());
}

#[test]
fn pairs_are_circular() {
    let mut core = Instance::new();
    let hs = vertices(&mut core, 3);
    let handles = Handles::new(hs.clone());

    let pairs: Vec<(usize, usize)> = handles.pairs().iter().map(|(a, b)| (a.id(), b.id())).collect();
    assert_eq!(
        pairs,
        vec![(hs[0].id(), hs[1].id()), (hs[1].id(), hs[2].id()), (hs[2].id(), hs[0].id())]
    );

    let single = Handles::new(vec![hs[0]]);
    let pairs: Vec<(usize, usize)> = single.pairs().iter().map(|(a, b)| (a.id(), b.id())).collect();
    assert_eq!(pairs, vec![(hs[0].id(), hs[0].id())]);
}

#[test]
fn extended_and_without() {
    let mut core = Instance::new();
    let hs = vertices(&mut core, 4);
    let handles = Handles::new(vec![hs[0], hs[1]]);

    let extended = handles.extended(vec![hs[2], hs[3]]);
    assert_eq!(ids(&extended), vec![hs[0].id(), hs[1].id(), hs[2].id(), hs[3].id()]);

    let without = extended.without(&hs[1]);
    assert_eq!(ids(&without), vec![hs[0].id(), hs[2].id(), hs[3].id()]);

    let unchanged = handles.without(&hs[3]);
    assert_eq!(ids(&unchanged), vec![hs[0].id(), hs[1].id()]);
}

#[test]
fn store_hands_out_fresh_handles() {
    let mut core = Instance::new();
    let a = core.insert_vertex(Vertex {});
    let b = core.insert_vertex(Vertex {});
    assert_ne!(a.id(), b.id());
    assert_eq!(core.vertices.len(), 2);
    assert!(a == a.clone());
    assert!(a != b);
}
