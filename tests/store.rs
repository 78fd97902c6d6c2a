use peer::meta::{get_peer_key, MetaFile, PeerConfig};
use peer::store::{
    add_leeched_file_to_db, add_seed_file_to_db, get_buffermap, get_file, get_file_from_peer, get_leeching_files,
    get_peer, get_peers_from_file, get_seeding_files, lookup_buffermap, remove_file_from_db, remove_peer_from_db,
    register_found_files, remove_peer_to_file, set_buffermap, set_file, set_peer, set_peer_to_file, StoreError,
    SwarmState,
};

fn me() -> PeerConfig {
    PeerConfig { address: "0.0.0.0".to_string(), port: 54321 }
}

fn meta(name: &str, length: usize, hash: &str) -> MetaFile {
    MetaFile { file_name: name.to_string(), length, piece_size: 10, hash: hash.to_string() }
}

fn sorted_hashes(v: &[MetaFile]) -> Vec<String> {
    let mut h: Vec<String> = v.iter().map(|m| m.hash.clone()).collect();
    h.sort();
    h
}

// The third file has length 95 so that its buffermap of ten entries has the
// file's buffermap length (95 / 10 + 1).
#[test]
fn test_get_seeding_or_leeching() {
    let mut db = SwarmState::new(me());
    let meta1 = meta("test", 10, "hash");
    let meta2 = meta("test2", 10, "hash2");
    let meta3 = meta("test3", 95, "hash3");
    let mut buffermap: Vec<u8> = vec![1u8; 10];
    buffermap[0] = 0;
    add_seed_file_to_db(&mut db, meta1).unwrap();
    add_leeched_file_to_db(&mut db, meta2).unwrap();
    set_peer_to_file(&mut db, me(), meta3, buffermap).unwrap();

    let result = get_seeding_files(&db);
    assert_eq!(result[0].hash, "hash");
    let result = get_leeching_files(&db);
    assert_eq!(result.len(), 2);
    assert_eq!(sorted_hashes(&result), vec!["hash2".to_string(), "hash3".to_string()]);
}

#[test]
fn test_remove_peer_to_file() {
    let mut db = SwarmState::new(me());
    let peer1 = PeerConfig { address: "1.1.1.1".to_string(), port: 1234 };
    let peer2 = PeerConfig { address: "2.2.2.2".to_string(), port: 1234 };
    let m = meta("test", 95, "hash1");
    let buffermap = vec![1u8; 10];
    let buffermap2 = vec![0u8; 10];
    set_peer_to_file(&mut db, peer1.clone(), m.clone(), buffermap).unwrap();
    set_peer_to_file(&mut db, peer2.clone(), m.clone(), buffermap2.clone()).unwrap();
    assert!(!get_peers_from_file(&db, "hash1".to_string()).is_empty());
    assert_eq!(get_peers_from_file(&db, "hash1".to_string()).len(), 2);
    remove_peer_to_file(&mut db, peer1, "hash1".to_string());
    assert!(!get_peers_from_file(&db, "hash1".to_string()).is_empty());
    assert_eq!(get_peers_from_file(&db, "hash1".to_string()).len(), 1);
}

#[test]
fn test_get_peer_from_file() {
    let mut db = SwarmState::new(me());
    let peer1 = PeerConfig { address: "1.1.1.1".to_string(), port: 1234 };
    let peer2 = PeerConfig { address: "2.2.2.2".to_string(), port: 1234 };
    let peer3 = PeerConfig { address: "3.3.3.3".to_string(), port: 1234 };
    let m = meta("test", 95, "hash1");
    let buffermap = vec![1u8; 10];
    let buffermap2 = vec![0u8; 10];
    set_peer_to_file(&mut db, peer1.clone(), m.clone(), buffermap).unwrap();
    set_peer_to_file(&mut db, peer2.clone(), m.clone(), buffermap2.clone()).unwrap();
    let result = get_peers_from_file(&db, "hash1".to_string());
    assert!(!result.is_empty());
    assert_eq!(result.len(), 2);
    assert_eq!(result[0].address, "1.1.1.1".to_string());
    assert_eq!(result[1].address, "2.2.2.2".to_string());
    set_peer_to_file(&mut db, peer3.clone(), m, buffermap2).unwrap();
    let result = get_peers_from_file(&db, "hash1".to_string());
    assert!(!result.is_empty());
    assert_eq!(result.len(), 3);
    assert_eq!(result[0].address, "1.1.1.1".to_string());
    assert_eq!(result[1].address, "3.3.3.3".to_string());
    assert_eq!(result[2].address, "2.2.2.2".to_string());
}

#[test]
fn test_set_peer_to_file() {
    let mut db = SwarmState::new(me());
    let peer1 = PeerConfig { address: "1.1.1.1".to_string(), port: 1234 };
    let m = meta("test", 95, "hash1");
    let buffermap = vec![1u8; 10];
    set_peer_to_file(&mut db, peer1.clone(), m, buffermap).unwrap();
    assert!(get_buffermap(&db, peer1, "hash1").is_some());
}

#[test]
fn test_remove_file_from_db() {
    let mut db = SwarmState::new(me());
    let m = meta("test", 10, "hash");
    let file1 = "hash";
    let file2 = "hash2";
    let peer = "1.1.1.1:1234";
    let buffermap = vec![1u8; 10];
    set_buffermap(&mut db, file1.to_string(), peer.to_string(), buffermap.clone()).unwrap();
    set_buffermap(&mut db, file2.to_string(), peer.to_string(), buffermap.clone()).unwrap();
    let result = lookup_buffermap(&db, file1, peer);
    assert_eq!(result.unwrap(), buffermap);
    let result = lookup_buffermap(&db, file2, peer);
    assert_eq!(result.unwrap(), buffermap);
    remove_file_from_db(&mut db, m);
    let result = lookup_buffermap(&db, peer, file1);
    assert!(result.is_none());
    let result = lookup_buffermap(&db, file2, peer);
    assert_eq!(result.unwrap(), buffermap);
}

#[test]
fn test_get_buffermap() {
    let mut db = SwarmState::new(me());
    let peer = "1.1.1.1:1234";
    let file = "hash";
    let buffermap: Vec<u8> = vec![1u8; 10];
    set_buffermap(&mut db, file.to_string(), peer.to_string(), buffermap.clone()).unwrap();
    let result = lookup_buffermap(&db, file, peer).unwrap();
    assert_eq!(result, buffermap);
}

#[test]
fn test_set_buffermap() {
    let mut db = SwarmState::new(me());
    let peer = "1.1.1.1:1234";
    let peer2 = "2.2.2.2:1234";
    let file = "hash";
    let file2 = "hash2";
    let buffermap: Vec<u8> = vec![1u8; 10];
    let buffermap2: Vec<u8> = vec![0u8; 10];
    set_buffermap(&mut db, file.to_string(), peer.to_string(), buffermap.clone()).unwrap();
    assert_eq!(lookup_buffermap(&db, file, peer).unwrap(), buffermap);
    set_buffermap(&mut db, file2.to_string(), peer2.to_string(), buffermap2.clone()).unwrap();
    assert_eq!(lookup_buffermap(&db, file2, peer2).unwrap(), buffermap2);
}

#[test]
fn test_get_peer_key() {
    let peer = PeerConfig { address: "1.1.1.1".to_string(), port: 1234 };
    let expected = "1.1.1.1:1234".to_string();
    let result = get_peer_key(peer);
    assert_eq!(result, expected);
}

#[test]
fn test_get_peer() {
    let mut db = SwarmState::new(me());
    let peer = PeerConfig { address: "1.1.1.1".to_string(), port: 1234 };
    let emptypeer = PeerConfig { address: "".to_string(), port: 0 };
    set_peer(&mut db, "1.1.1.1:1234", peer.clone());
    let result = match get_peer(&db, "1.1.1.1:1234") {
        Some(value) => value.clone(),
        None => emptypeer,
    };
    assert_eq!(result.address, peer.address);
}

#[test]
fn test_set_peer() {
    let mut db = SwarmState::new(me());
    let peer = PeerConfig { address: "1.1.1.1".to_string(), port: 1234 };
    let emptypeer = PeerConfig { address: "".to_string(), port: 0 };
    let key = "1.1.1.1:1234";
    set_peer(&mut db, key, peer);
    let result = match get_peer(&db, "1.1.1.1:1234") {
        Some(value) => value.clone(),
        None => emptypeer,
    };
    assert_eq!(result.port, 1234);
}

#[test]
fn seed_leech_classification() {
    let mut db = SwarmState::new(me());
    add_seed_file_to_db(&mut db, meta("a", 10, "h1")).unwrap();
    add_leeched_file_to_db(&mut db, meta("b", 10, "h2")).unwrap();
    let local = vec![1u8, 0, 1, 1, 1, 1, 1, 1, 1, 1, 1];
    set_peer_to_file(&mut db, me(), meta("c", 100, "h3"), local).unwrap();
    let seeding = get_seeding_files(&db);
    assert_eq!(sorted_hashes(&seeding), vec!["h1".to_string()]);
    let leeching = get_leeching_files(&db);
    assert_eq!(sorted_hashes(&leeching), vec!["h2".to_string(), "h3".to_string()]);
    for s in &seeding {
        assert!(leeching.iter().all(|l| l.hash != s.hash));
    }
}

#[test]
fn buffermap_lengths_follow_the_file() {
    let mut db = SwarmState::new(me());
    add_leeched_file_to_db(&mut db, meta("a", 25, "f")).unwrap();
    let local = lookup_buffermap(&db, "f", "0.0.0.0:54321").unwrap();
    assert_eq!(local, vec![0u8, 0, 0]);
    assert_eq!(
        set_buffermap(&mut db, "f".to_string(), "9.9.9.9:1".to_string(), vec![1u8; 4]),
        Err(StoreError::LengthMismatch)
    );
    assert!(lookup_buffermap(&db, "f", "9.9.9.9:1").is_none());
    assert_eq!(set_buffermap(&mut db, "f".to_string(), "9.9.9.9:1".to_string(), vec![1u8; 3]), Ok(()));
    assert_eq!(set_file(&mut db, meta("a", 45, "f")), Err(StoreError::LengthMismatch));
    assert_eq!(get_file(&db, "f").unwrap().length, 25);
}

#[test]
fn zero_piece_size_is_refused() {
    let mut db = SwarmState::new(me());
    let mut m = meta("z", 10, "z");
    m.piece_size = 0;
    assert_eq!(add_seed_file_to_db(&mut db, m.clone()), Err(StoreError::BadMeta));
    assert_eq!(set_file(&mut db, m), Err(StoreError::BadMeta));
    assert!(get_file(&db, "z").is_none());
}

#[test]
fn removing_a_file_removes_its_buffermaps() {
    let mut db = SwarmState::new(me());
    let m = meta("a", 15, "f");
    add_seed_file_to_db(&mut db, m.clone()).unwrap();
    set_buffermap(&mut db, "f".to_string(), "1.1.1.1:1".to_string(), vec![0u8, 1]).unwrap();
    remove_file_from_db(&mut db, m);
    assert!(get_file(&db, "f").is_none());
    assert!(lookup_buffermap(&db, "f", "1.1.1.1:1").is_none());
    assert!(lookup_buffermap(&db, "f", "0.0.0.0:54321").is_none());
    assert!(get_peers_from_file(&db, "f".to_string()).is_empty());
}

#[test]
fn removing_a_peer_removes_it_everywhere() {
    let mut db = SwarmState::new(me());
    let p = PeerConfig { address: "1.1.1.1".to_string(), port: 7 };
    set_peer_to_file(&mut db, p.clone(), meta("a", 15, "f"), vec![1u8, 1]).unwrap();
    set_peer_to_file(&mut db, p.clone(), meta("b", 5, "g"), vec![1u8]).unwrap();
    assert_eq!(get_file_from_peer(&db, p.clone()).len(), 2);
    remove_peer_from_db(&mut db, p.clone());
    assert!(get_peer(&db, "1.1.1.1:7").is_none());
    assert!(get_buffermap(&db, p.clone(), "f").is_none());
    assert!(get_buffermap(&db, p.clone(), "g").is_none());
    assert!(get_file_from_peer(&db, p).is_empty());
}

#[test]
fn peer_keys_that_name_no_peer_are_skipped() {
    let mut db = SwarmState::new(me());
    set_buffermap(&mut db, "f".to_string(), "nokey".to_string(), vec![1u8]).unwrap();
    set_buffermap(&mut db, "f".to_string(), "1.2.3.4:080".to_string(), vec![1u8]).unwrap();
    set_buffermap(&mut db, "f".to_string(), "5.6.7.8:80".to_string(), vec![1u8]).unwrap();
    let peers = get_peers_from_file(&db, "f".to_string());
    assert_eq!(peers.len(), 1);
    assert_eq!(peers[0].address, "5.6.7.8");
    assert_eq!(peers[0].port, 80);
}

#[test]
fn found_files_are_registered_as_leeched() {
    let mut db = SwarmState::new(me());
    let mut bad = meta("bad", 10, "hb");
    bad.piece_size = 0;
    let found = vec![meta("a", 25, "ha"), bad, meta("c", 5, "hc")];
    register_found_files(&mut db, &found);
    assert_eq!(lookup_buffermap(&db, "ha", "0.0.0.0:54321").unwrap(), vec![0u8, 0, 0]);
    assert_eq!(lookup_buffermap(&db, "hc", "0.0.0.0:54321").unwrap(), vec![0u8]);
    assert!(get_file(&db, "hb").is_none());
    assert_eq!(sorted_hashes(&get_leeching_files(&db)), vec!["ha".to_string(), "hc".to_string()]);
    assert!(get_peer(&db, "0.0.0.0:54321").is_some());
}
