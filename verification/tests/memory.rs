//! The environment chain: frames, lookups, snapshots, splicing, the
//! constants pool and the name table.

use lispvm::data::MemData;
use lispvm::err::Error;
use lispvm::mem::{Environment, Store};

#[test]
fn define_and_get() {
    let mut store = Store::new();
    let env = Environment::new(&mut store);
    env.define(&mut store, 1, MemData::Int(42)).unwrap();

    let got = env.get(&store, &1).unwrap();
    assert!(got.eq(&MemData::Int(42)).unwrap());

    // The most recent binding for an id wins.
    env.define(&mut store, 1, MemData::Int(43)).unwrap();
    let got = env.get(&store, &1).unwrap();
    assert!(got.eq(&MemData::Int(43)).unwrap());

    match env.get(&store, &2) {
        Err(Error::VariableNotFound(0, 2)) => {}
        other => panic!("unexpected: {:?}", other),
    }
}

#[test]
fn frames_push_and_pop() {
    let mut store = Store::new();
    let mut env = Environment::new(&mut store);
    let before = env;

    env.new_frame(&mut store);
    assert_ne!(env, before);
    env.pop_frame(&store).unwrap();

    // Popping the pushed frame restores the very same handle.
    assert_eq!(env, before);

    // Popping the sole frame fails.
    match env.pop_frame(&store) {
        Err(Error::IllegalStackPop) => {}
        other => panic!("unexpected: {:?}", other),
    }
}

#[test]
fn lookup_walks_the_chain() {
    let mut store = Store::new();
    let mut env = Environment::new(&mut store);
    env.define(&mut store, 1, MemData::Int(1)).unwrap();
    env.new_frame(&mut store);
    env.define(&mut store, 2, MemData::Int(2)).unwrap();

    // Both the tail frame and its parent are visible.
    assert!(env.get(&store, &2).unwrap().eq(&MemData::Int(2)).unwrap());
    assert!(env.get(&store, &1).unwrap().eq(&MemData::Int(1)).unwrap());

    // A binding in the tail shadows the parent's.
    env.define(&mut store, 1, MemData::Int(10)).unwrap();
    assert!(env.get(&store, &1).unwrap().eq(&MemData::Int(10)).unwrap());

    env.pop_frame(&store).unwrap();
    assert!(env.get(&store, &1).unwrap().eq(&MemData::Int(1)).unwrap());
}

#[test]
fn snapshots_survive_pops() {
    let mut store = Store::new();
    let mut env = Environment::new(&mut store);
    env.new_frame(&mut store);
    env.define(&mut store, 7, MemData::Str("kept".to_string()))
        .unwrap();

    // A snapshot is just a copy of the handle.
    let snapshot = env;
    env.pop_frame(&store).unwrap();

    // The running environment no longer sees the binding, but the
    // snapshot still does.
    assert!(env.get(&store, &7).is_err());
    assert!(snapshot
        .get(&store, &7)
        .unwrap()
        .eq(&MemData::Str("kept".to_string()))
        .unwrap());
}

#[test]
fn sharing_through_snapshots() {
    let mut store = Store::new();
    let env = Environment::new(&mut store);
    let alias = env;

    // A binding made through one handle is seen through the other:
    // both denote the same frame.
    env.define(&mut store, 3, MemData::Int(30)).unwrap();
    assert!(alias.get(&store, &3).unwrap().eq(&MemData::Int(30)).unwrap());
}

#[test]
fn max_id_covers_owned_frames() {
    let mut store = Store::new();
    let mut env = Environment::new(&mut store);
    assert_eq!(env.max_id(&store), None);

    env.define(&mut store, 4, MemData::Nil).unwrap();
    env.new_frame(&mut store);
    env.define(&mut store, 9, MemData::Nil).unwrap();
    assert_eq!(env.max_id(&store), Some(9));

    assert_eq!(env.new_ident_id(&mut store, None), 10);
}

#[test]
fn constants_pool() {
    let mut store = Store::new();
    let env = Environment::new(&mut store);
    assert_eq!(env.max_const_id(&store), None);

    let c0 = env.load_const(&mut store, MemData::Int(11));
    let c1 = env.load_const(&mut store, MemData::Str("x".to_string()));
    assert_eq!((c0, c1), (0, 1));
    assert_eq!(env.max_const_id(&store), Some(1));

    assert!(env.get_const(&store, &0).unwrap().eq(&MemData::Int(11)).unwrap());
    match env.get_const(&store, &5) {
        Err(Error::ConstantNotFound(5)) => {}
        other => panic!("unexpected: {:?}", other),
    }
}

#[test]
fn name_table() {
    let mut store = Store::new();
    let env = Environment::new(&mut store);
    assert_eq!(env.get_ident(&store, &"x".to_string()), None);

    env.bind_var_string(&mut store, "x".to_string(), 3);
    assert_eq!(env.get_ident(&store, &"x".to_string()), Some(3));

    // Allocating with a name binds the name to the fresh id.
    env.define(&mut store, 3, MemData::Nil).unwrap();
    let id = env.new_ident_id(&mut store, Some("y".to_string()));
    assert_eq!(id, 4);
    assert_eq!(env.get_ident(&store, &"y".to_string()), Some(4));

    // Rebinding a name shadows the old association.
    env.bind_var_string(&mut store, "x".to_string(), 9);
    assert_eq!(env.get_ident(&store, &"x".to_string()), Some(9));
}

#[test]
fn append_splices_chains() {
    let mut store = Store::new();
    let mut base = Environment::new(&mut store);
    base.define(&mut store, 1, MemData::Int(100)).unwrap();

    let other = Environment::new(&mut store);
    other.define(&mut store, 2, MemData::Int(200)).unwrap();

    let other_handle = other;
    base.append(&mut store, other);

    // The spliced chain sees its own frames first, then the base's.
    assert!(base.get(&store, &2).unwrap().eq(&MemData::Int(200)).unwrap());
    assert!(base.get(&store, &1).unwrap().eq(&MemData::Int(100)).unwrap());

    // The spliced environment's own handle now sees the base's
    // frames too: the nodes are shared, not copied.
    assert!(other_handle
        .get(&store, &1)
        .unwrap()
        .eq(&MemData::Int(100))
        .unwrap());
}
