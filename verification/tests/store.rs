use dfs::global_store::{GlobalStore, MemStore, Peer, PutStatus, StorableRoot};

fn root(name: &str, path: &str) -> StorableRoot {
    StorableRoot { name: name.to_string(), path: path.to_string() }
}

#[test]
fn put_without_overwrite_never_mutates() {
    let mut s = MemStore::new();
    let id = uuid::Uuid::from_u128(77).as_u128();
    let first = s.put_root(id, &root("alpha", "/a"), false).unwrap();
    assert!(matches!(first, PutStatus::Okay));
    let second = s.put_root(id, &root("beta", "/b"), false).unwrap();
    assert!(matches!(second, PutStatus::Exists));
    let kept = s.get_root(id).unwrap().unwrap();
    assert_eq!(kept.name, "alpha");
    assert_eq!(kept.path, "/a");
}

#[test]
fn put_with_overwrite_always_replaces() {
    let mut s = MemStore::new();
    let id = uuid::Uuid::from_u128(8).as_u128();
    assert!(matches!(s.put_root(id, &root("alpha", "/a"), true).unwrap(), PutStatus::Okay));
    assert!(matches!(s.put_root(id, &root("beta", "/b"), true).unwrap(), PutStatus::Okay));
    let now = s.get_root(id).unwrap().unwrap();
    assert_eq!(now.name, "beta");
    assert_eq!(now.path, "/b");
}

#[test]
fn peers_round_trip() {
    let mut s = MemStore::new();
    let a = uuid::Uuid::from_u128(1).as_u128();
    let b = uuid::Uuid::from_u128(2).as_u128();
    assert!(s.get_peer(a).unwrap().is_none());
    s.put_peer(a, &Peer { addr: "10.0.0.1:4000".to_string() }, false).unwrap();
    s.put_peer(b, &Peer { addr: "10.0.0.2:4000".to_string() }, false).unwrap();
    assert_eq!(s.get_peer(a).unwrap().unwrap().addr, "10.0.0.1:4000");
    let all = s.get_all_peers().unwrap();
    assert_eq!(all.len(), 2);
    let second = s.put_peer(a, &Peer { addr: "10.9.9.9:1".to_string() }, false).unwrap();
    assert!(second.already_exists());
    assert_eq!(s.get_all_peers().unwrap().len(), 2);
}

#[test]
fn roots_by_name_and_listing() {
    let mut s = MemStore::new();
    s.put_root(1, &root("music", "/srv/music"), false).unwrap();
    s.put_root(2, &root("docs", "/srv/docs"), false).unwrap();
    let found = s.get_root_by_name(&"docs".to_string()).unwrap().unwrap();
    assert_eq!(found.path, "/srv/docs");
    assert!(s.get_root_by_name(&"video".to_string()).unwrap().is_none());
    let all = s.get_all_roots().unwrap();
    assert_eq!(all.len(), 2);
    assert!(all.iter().any(|r| r.name == "music"));
    assert!(all.iter().any(|r| r.name == "docs"));
}

#[test]
fn put_status_to_err() {
    let occupied = PutStatus::Exists;
    let free = PutStatus::Okay;
    assert!(free.to_err(|| "boom").is_ok());
    assert_eq!(occupied.to_err(|| "boom").unwrap_err(), "boom");
    assert!(occupied.already_exists());
    assert!(!free.already_exists());
}
