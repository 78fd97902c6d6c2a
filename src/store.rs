//! The swarm state store: which files are known, which peers are known, and
//! for each file the buffermap of each peer that holds some of it.
use vstd::prelude::*;
use crate::meta::{
    buffer_len, get_peer_key, meta_ok, peer_key, MetaFile, MetaFileView, PeerConfig, PeerView,
};
use crate::tables::{key_views, BufferTable, FileTable, PeerMaps, PeerTable};
use crate::text::{
    chars_of, dec, decimal, find, find_char, has_prefix_at, lemma_find, parse_usize, push_chars, slice,
};
use crate::meta::u16_of;

verus! {

/// The store as mathematics: the file table, the peer directory, the
/// buffermaps of each file by peer key, and the local peer.
pub struct StoreView {
    pub files: Map<Seq<char>, MetaFileView>,
    pub peers: Map<Seq<char>, PeerView>,
    pub buffermaps: Map<Seq<char>, Map<Seq<char>, Seq<u8>>>,
    pub me: PeerView,
}

/// The store. Every operation keeps `store_inv`.
pub struct SwarmState {
    files: FileTable,
    peers: PeerTable,
    buffermaps: BufferTable,
    me: PeerConfig,
}

impl View for SwarmState {
    type V = StoreView;

    closed spec fn view(&self) -> StoreView {
        StoreView {
            files: self.files@,
            peers: self.peers@,
            buffermaps: self.buffermaps@,
            me: self.me@,
        }
    }
}

/// The buffermaps known for file `f`, none where the file has no table.
pub open spec fn maps_of(v: StoreView, f: Seq<char>) -> Map<Seq<char>, Seq<u8>> {
    if v.buffermaps.contains_key(f) {
        v.buffermaps[f]
    } else {
        Map::empty()
    }
}

/// Every known file is keyed by its identifier and has a defined buffermap
/// length, and every buffermap of a known file has that length.
pub open spec fn store_inv(v: StoreView) -> bool {
    &&& forall|f: Seq<char>| #[trigger]
        v.files.contains_key(f) ==> v.files[f].hash == f && meta_ok(v.files[f])
    &&& forall|f: Seq<char>, p: Seq<char>|
        v.files.contains_key(f) && #[trigger] maps_of(v, f).contains_key(p) ==> maps_of(v, f)[p].len()
            == buffer_len(v.files[f])
}

/// The local peer's key.
pub open spec fn my_key(v: StoreView) -> Seq<char> {
    peer_key(v.me)
}

/// `m` may be registered: its buffermap length is defined and every
/// buffermap already stored for it has that length.
pub open spec fn file_fits(v: StoreView, m: MetaFileView) -> bool {
    &&& meta_ok(m)
    &&& forall|p: Seq<char>| #[trigger]
        maps_of(v, m.hash).contains_key(p) ==> maps_of(v, m.hash)[p].len() == buffer_len(m)
}

/// Buffermap `m` may be stored for file `f` and peer `p`: it has the file's
/// buffermap length where the file is known, and the length of the map it
/// replaces where there is one.
pub open spec fn map_fits(v: StoreView, f: Seq<char>, p: Seq<char>, m: Seq<u8>) -> bool {
    &&& v.files.contains_key(f) ==> m.len() == buffer_len(v.files[f])
    &&& maps_of(v, f).contains_key(p) ==> m.len() == maps_of(v, f)[p].len()
}

/// `v` with buffermap `m` stored for file `f` and peer `p`.
pub open spec fn with_map(v: StoreView, f: Seq<char>, p: Seq<char>, m: Seq<u8>) -> StoreView {
    StoreView { buffermaps: v.buffermaps.insert(f, maps_of(v, f).insert(p, m)), ..v }
}

/// `n` copies of `b`.
pub open spec fn filled(n: int, b: u8) -> Seq<u8> {
    Seq::new(n as nat, |i: int| b)
}

/// Why the store refused an update.
#[derive(Debug, Clone, Copy, PartialEq, Eq)]
pub enum StoreError {
    /// The file's piece size is zero, or its buffermap length does not fit.
    BadMeta,
    /// A buffermap's length differs from the one its file or its slot demands.
    LengthMismatch,
}

/// Pushing onto a sequence adds the element to its set.
pub proof fn lemma_push_to_set<A>(s: Seq<A>, x: A)
    ensures
        s.push(x).to_set() == s.to_set().insert(x),
{
    assert forall|y: A| s.push(x).to_set().contains(y) <==> s.to_set().insert(x).contains(y) by {
        if s.push(x).contains(y) {
            let j = choose|j: int| 0 <= j < s.push(x).len() && s.push(x)[j] == y;
            if j < s.len() {
                assert(s[j] == y);
            }
        }
        if s.contains(y) {
            let j = choose|j: int| 0 <= j < s.len() && s[j] == y;
            assert(s.push(x)[j] == y);
        }
        if y == x {
            assert(s.push(x)[s.len() as int] == x);
        }
    }
    assert(s.push(x).to_set() =~= s.to_set().insert(x));
}

/// The invariant speaks of the file table and the buffermaps alone.
pub proof fn lemma_inv_frame(a: StoreView, b: StoreView)
    requires
        store_inv(a),
        a.files == b.files,
        a.buffermaps == b.buffermaps,
    ensures
        store_inv(b),
{
    assert forall|f: Seq<char>, p: Seq<char>|
        b.files.contains_key(f) && #[trigger] maps_of(b, f).contains_key(p) implies maps_of(b, f)[p].len()
            == buffer_len(b.files[f]) by {
        assert(maps_of(a, f) == maps_of(b, f));
    }
}

fn filled_vec(n: usize, b: u8) -> (r: Vec<u8>)
    ensures
        r@ == filled(n as int, b),
{
    let mut r: Vec<u8> = Vec::new();
    let mut i: usize = 0;
    while i < n
        invariant
            i <= n,
            r@ == filled(i as int, b),
        decreases n - i,
    {
        r.push(b);
        assert(r@ =~= filled(i + 1, b));
        i = i + 1;
    }
    r
}

/// A buffermap of `n` zeros.
pub fn zeros_vec(n: usize) -> (r: Vec<u8>)
    ensures
        r@ == filled(n as int, 0),
{
    filled_vec(n, 0)
}

fn copy_bytes(v: &Vec<u8>) -> (r: Vec<u8>)
    ensures
        r@ == v@,
{
    let mut r: Vec<u8> = Vec::new();
    let mut i: usize = 0;
    while i < v.len()
        invariant
            i <= v@.len(),
            r@ == v@.take(i as int),
        decreases v@.len() - i,
    {
        r.push(v[i]);
        assert(v@.take(i + 1) == v@.take(i as int).push(v@[i as int]));
        i = i + 1;
    }
    assert(v@.take(v@.len() as int) == v@);
    r
}

fn all_of_len(t: &PeerMaps, n: usize) -> (r: bool)
    ensures
        r == forall|p: Seq<char>| #[trigger] t@.contains_key(p) ==> t@[p].len() == n,
{
    let ks = t.keys();
    let mut i: usize = 0;
    while i < ks.len()
        invariant
            i <= ks@.len(),
            key_views(ks@).to_set() == t@.dom(),
            forall|j: int| 0 <= j < i ==> t@[#[trigger] key_views(ks@)[j]].len() == n,
        decreases ks@.len() - i,
    {
        assert(key_views(ks@)[i as int] == ks@[i as int]@);
        match t.get(ks[i].as_str()) {
            Some(m) => {
                if m.len() != n {
                    assert(key_views(ks@).to_set().contains(ks@[i as int]@));
                    return false;
                }
            },
            None => {
                assert(key_views(ks@).to_set().contains(ks@[i as int]@));
            },
        }
        i = i + 1;
    }
    assert forall|p: Seq<char>| #[trigger] t@.contains_key(p) implies t@[p].len() == n by {
        assert(key_views(ks@).to_set().contains(p));
        let j = choose|j: int| 0 <= j < key_views(ks@).len() && key_views(ks@)[j] == p;
    }
    true
}

impl SwarmState {
    /// An empty store for the local peer `me`.
    pub fn new(me: PeerConfig) -> (r: SwarmState)
        ensures
            r@.files.dom() == Set::<Seq<char>>::empty(),
            r@.peers.dom() == Set::<Seq<char>>::empty(),
            r@.buffermaps.dom() == Set::<Seq<char>>::empty(),
            r@.me == me@,
            store_inv(r@),
    {
        SwarmState { files: FileTable::new(), peers: PeerTable::new(), buffermaps: BufferTable::new(), me }
    }

    /// The local peer.
    pub fn me(&self) -> (r: PeerConfig)
        ensures
            r@ == self@.me,
    {
        self.me.duplicate()
    }
}

/// The peer stored under `key`.
pub fn get_peer(db: &SwarmState, key: &str) -> (r: Option<PeerConfig>)
    ensures
        match r {
            Some(p) => db@.peers.contains_key(key@) && p@ == db@.peers[key@],
            None => !db@.peers.contains_key(key@),
        },
{
    match db.peers.get(key) {
        Some(p) => Some(p.duplicate()),
        None => None,
    }
}

/// Stores `peer` under `key` in the peer directory.
pub fn set_peer(db: &mut SwarmState, key: &str, peer: PeerConfig)
    requires
        store_inv(old(db)@),
    ensures
        store_inv(final(db)@),
        final(db)@ == (StoreView { peers: old(db)@.peers.insert(key@, peer@), ..old(db)@ }),
{
    db.peers.insert(key.to_owned(), peer);
    proof {
        lemma_inv_frame(old(db)@, db@);
    }
}

/// The file whose identifier is `key`.
pub fn get_file(db: &SwarmState, key: &str) -> (r: Option<MetaFile>)
    ensures
        match r {
            Some(m) => db@.files.contains_key(key@) && m@ == db@.files[key@],
            None => !db@.files.contains_key(key@),
        },
{
    match db.files.get(key) {
        Some(m) => Some(m.duplicate()),
        None => None,
    }
}

/// Registers `file` under its identifier, replacing any earlier record.
pub fn set_file(db: &mut SwarmState, file: MetaFile) -> (r: Result<(), StoreError>)
    requires
        store_inv(old(db)@),
    ensures
        store_inv(final(db)@),
        !meta_ok(file@) ==> r == Err::<(), StoreError>(StoreError::BadMeta) && final(db)@ == old(db)@,
        meta_ok(file@) && !file_fits(old(db)@, file@) ==> r == Err::<(), StoreError>(
            StoreError::LengthMismatch,
        ) && final(db)@ == old(db)@,
        file_fits(old(db)@, file@) ==> r is Ok && final(db)@ == (StoreView {
            files: old(db)@.files.insert(file@.hash, file@),
            ..old(db)@
        }),
{
    if file.piece_size == 0 || file.length / file.piece_size == usize::MAX {
        return Err(StoreError::BadMeta);
    }
    let n = file.length / file.piece_size + 1;
    let fits = match db.buffermaps.get(file.hash.as_str()) {
        Some(t) => {
            assert(maps_of(db@, file@.hash) == t@);
            all_of_len(t, n)
        },
        None => {
            assert(maps_of(db@, file@.hash) =~= Map::empty());
            true
        },
    };
    if !fits {
        assert(!file_fits(db@, file@));
        return Err(StoreError::LengthMismatch);
    }
    let key = file.hash.clone();
    let ghost before = db@;
    let ghost m = file@;
    db.files.insert(key, file);
    proof {
        let v = db@;
        assert forall|f: Seq<char>, p: Seq<char>|
            v.files.contains_key(f) && #[trigger] maps_of(v, f).contains_key(p) implies maps_of(v, f)[p].len()
                == buffer_len(v.files[f]) by {
            assert(maps_of(v, f) == maps_of(before, f));
            if f == m.hash {
                assert(maps_of(before, m.hash).contains_key(p));
            }
        }
    }
    Ok(())
}

/// The buffermap stored for file `file_key` and peer `peer_key`.
pub fn lookup_buffermap(db: &SwarmState, file_key: &str, peer_key: &str) -> (r: Option<Vec<u8>>)
    ensures
        match r {
            Some(m) => maps_of(db@, file_key@).contains_key(peer_key@) && m@ == maps_of(db@, file_key@)[peer_key@],
            None => !maps_of(db@, file_key@).contains_key(peer_key@),
        },
{
    match db.buffermaps.get(file_key) {
        Some(t) => match t.get(peer_key) {
            Some(m) => Some(copy_bytes(m)),
            None => None,
        },
        None => None,
    }
}

/// The buffermap that peer `config` has of file `key`.
pub fn get_buffermap(db: &SwarmState, config: PeerConfig, key: &str) -> (r: Option<Vec<u8>>)
    ensures
        match r {
            Some(m) => maps_of(db@, key@).contains_key(peer_key(config@)) && m@ == maps_of(db@, key@)[peer_key(config@)],
            None => !maps_of(db@, key@).contains_key(peer_key(config@)),
        },
{
    let pk = get_peer_key(config);
    lookup_buffermap(db, key, pk.as_str())
}

/// Stores `buffermap` as what peer `peer_key` has of file `file_key`: a new
/// entry, or one that overwrites an entry of the same length.
pub fn set_buffermap(db: &mut SwarmState, file_key: String, peer_key: String, buffermap: Vec<u8>) -> (r:
    Result<(), StoreError>)
    requires
        store_inv(old(db)@),
    ensures
        store_inv(final(db)@),
        map_fits(old(db)@, file_key@, peer_key@, buffermap@) ==> r is Ok && final(db)@ == with_map(
            old(db)@,
            file_key@,
            peer_key@,
            buffermap@,
        ),
        !map_fits(old(db)@, file_key@, peer_key@, buffermap@) ==> r == Err::<(), StoreError>(
            StoreError::LengthMismatch,
        ) && final(db)@ == old(db)@,
{
    match db.files.get(file_key.as_str()) {
        Some(meta) => {
            assert(db@.files.contains_key(file_key@));
            assert(meta_ok(db@.files[file_key@]));
            if buffermap.len() != meta.length / meta.piece_size + 1 {
                return Err(StoreError::LengthMismatch);
            }
        },
        None => {},
    }
    match db.buffermaps.get(file_key.as_str()) {
        Some(t) => match t.get(peer_key.as_str()) {
            Some(m) => {
                if m.len() != buffermap.len() {
                    return Err(StoreError::LengthMismatch);
                }
            },
            None => {},
        },
        None => {},
    }
    let ghost before = db@;
    let mut t = match db.buffermaps.remove(file_key.as_str()) {
        Some(t) => t,
        None => PeerMaps::new(),
    };
    assert(t@ =~= maps_of(before, file_key@));
    t.insert(peer_key, buffermap);
    db.buffermaps.insert(file_key, t);
    assert(db@.buffermaps =~= with_map(before, file_key@, peer_key@, buffermap@).buffermaps);
    assert(db@ == with_map(before, file_key@, peer_key@, buffermap@));
    proof {
        let v = db@;
        assert forall|f: Seq<char>, p: Seq<char>|
            v.files.contains_key(f) && #[trigger] maps_of(v, f).contains_key(p) implies maps_of(v, f)[p].len()
                == buffer_len(v.files[f]) by {
            if f == file_key@ {
                if p != peer_key@ {
                    assert(maps_of(before, f).contains_key(p));
                }
            } else {
                assert(maps_of(v, f) == maps_of(before, f));
            }
        }
    }
    Ok(())
}

/// `v` once file `m` is registered with buffermap `bm` for peer key `p`.
pub open spec fn registered(v: StoreView, m: MetaFileView, p: Seq<char>, bm: Seq<u8>) -> StoreView {
    StoreView {
        files: v.files.insert(m.hash, m),
        buffermaps: v.buffermaps.insert(m.hash, maps_of(v, m.hash).insert(p, bm)),
        ..v
    }
}

proof fn lemma_registered_inv(v: StoreView, m: MetaFileView, p: Seq<char>, bm: Seq<u8>)
    requires
        store_inv(v),
        file_fits(v, m),
        bm.len() == buffer_len(m),
    ensures
        store_inv(registered(v, m, p, bm)),
{
    let w = registered(v, m, p, bm);
    assert forall|f: Seq<char>, q: Seq<char>|
        w.files.contains_key(f) && #[trigger] maps_of(w, f).contains_key(q) implies maps_of(w, f)[q].len()
            == buffer_len(w.files[f]) by {
        if f == m.hash {
            if q != p {
                assert(maps_of(v, m.hash).contains_key(q));
            }
        } else {
            assert(maps_of(w, f) == maps_of(v, f));
        }
    }
}

/// Registers `m` with buffermap `bm` for peer key `pk`, once `m` is known to fit.
fn register(db: &mut SwarmState, file: MetaFile, pk: String, bm: Vec<u8>)
    requires
        store_inv(old(db)@),
        file_fits(old(db)@, file@),
        bm@.len() == buffer_len(file@),
    ensures
        store_inv(final(db)@),
        final(db)@ == registered(old(db)@, file@, pk@, bm@),
{
    let ghost v = db@;
    let ghost m = file@;
    let h = file.hash.clone();
    let r = set_file(db, file);
    assert(r is Ok);
    assert(map_fits(db@, h@, pk@, bm@)) by {
        if maps_of(db@, h@).contains_key(pk@) {
            assert(maps_of(v, m.hash).contains_key(pk@));
        }
    }
    let r2 = set_buffermap(db, h, pk, bm);
    assert(r2 is Ok);
    assert(db@.buffermaps =~= registered(v, m, pk@, bm@).buffermaps);
    proof {
        lemma_registered_inv(v, m, pk@, bm@);
    }
}

fn check_meta(db: &SwarmState, file: &MetaFile) -> (r: Result<usize, StoreError>)
    requires
        store_inv(db@),
    ensures
        !meta_ok(file@) ==> r == Err::<usize, StoreError>(StoreError::BadMeta),
        meta_ok(file@) && !file_fits(db@, file@) ==> r == Err::<usize, StoreError>(StoreError::LengthMismatch),
        file_fits(db@, file@) ==> (r matches Ok(n) && n == buffer_len(file@)),
{
    if file.piece_size == 0 || file.length / file.piece_size == usize::MAX {
        return Err(StoreError::BadMeta);
    }
    let n = file.length / file.piece_size + 1;
    let fits = match db.buffermaps.get(file.hash.as_str()) {
        Some(t) => {
            assert(maps_of(db@, file@.hash) == t@);
            all_of_len(t, n)
        },
        None => {
            assert(maps_of(db@, file@.hash) =~= Map::empty());
            true
        },
    };
    if !fits {
        assert(!file_fits(db@, file@));
        return Err(StoreError::LengthMismatch);
    }
    Ok(n)
}

/// Registers a file that the local peer seeds: its record, the local peer in
/// the directory, and a local buffermap of ones.
pub fn add_seed_file_to_db(db: &mut SwarmState, file: MetaFile) -> (r: Result<(), StoreError>)
    requires
        store_inv(old(db)@),
    ensures
        store_inv(final(db)@),
        !meta_ok(file@) ==> r == Err::<(), StoreError>(StoreError::BadMeta) && final(db)@ == old(db)@,
        meta_ok(file@) && !file_fits(old(db)@, file@) ==> r == Err::<(), StoreError>(
            StoreError::LengthMismatch,
        ) && final(db)@ == old(db)@,
        file_fits(old(db)@, file@) ==> r is Ok && final(db)@ == registered(
            StoreView { peers: old(db)@.peers.insert(my_key(old(db)@), old(db)@.me), ..old(db)@ },
            file@,
            my_key(old(db)@),
            filled(buffer_len(file@), 1),
        ),
{
    let n = match check_meta(db, &file) {
        Ok(n) => n,
        Err(e) => {
            return Err(e);
        },
    };
    let ghost v = db@;
    let me = db.me.duplicate();
    let pk = get_peer_key(me.duplicate());
    set_peer(db, pk.as_str(), me);
    assert(maps_of(db@, file@.hash) == maps_of(v, file@.hash));
    let ones = filled_vec(n, 1);
    register(db, file, pk, ones);
    Ok(())
}

/// Registers a file that the local peer downloads: its record and a local
/// buffermap of zeros.
pub fn add_leeched_file_to_db(db: &mut SwarmState, file: MetaFile) -> (r: Result<(), StoreError>)
    requires
        store_inv(old(db)@),
    ensures
        store_inv(final(db)@),
        !meta_ok(file@) ==> r == Err::<(), StoreError>(StoreError::BadMeta) && final(db)@ == old(db)@,
        meta_ok(file@) && !file_fits(old(db)@, file@) ==> r == Err::<(), StoreError>(
            StoreError::LengthMismatch,
        ) && final(db)@ == old(db)@,
        file_fits(old(db)@, file@) ==> r is Ok && final(db)@ == registered(
            old(db)@,
            file@,
            my_key(old(db)@),
            filled(buffer_len(file@), 0),
        ),
{
    let n = match check_meta(db, &file) {
        Ok(n) => n,
        Err(e) => {
            return Err(e);
        },
    };
    let pk = get_peer_key(db.me.duplicate());
    let zeros = filled_vec(n, 0);
    register(db, file, pk, zeros);
    Ok(())
}

/// Records that peer `config` holds `buffermap` of `file`: the peer in the
/// directory under its key, the file's record, and the buffermap.
pub fn set_peer_to_file(db: &mut SwarmState, config: PeerConfig, file: MetaFile, buffermap: Vec<u8>) -> (r:
    Result<(), StoreError>)
    requires
        store_inv(old(db)@),
    ensures
        store_inv(final(db)@),
        !meta_ok(file@) ==> r == Err::<(), StoreError>(StoreError::BadMeta) && final(db)@ == old(db)@,
        meta_ok(file@) && !(file_fits(old(db)@, file@) && buffermap@.len() == buffer_len(file@)) ==> r
            == Err::<(), StoreError>(StoreError::LengthMismatch) && final(db)@ == old(db)@,
        file_fits(old(db)@, file@) && buffermap@.len() == buffer_len(file@) ==> r is Ok && final(db)@
            == registered(
            StoreView { peers: old(db)@.peers.insert(peer_key(config@), config@), ..old(db)@ },
            file@,
            peer_key(config@),
            buffermap@,
        ),
{
    let n = match check_meta(db, &file) {
        Ok(n) => n,
        Err(e) => {
            return Err(e);
        },
    };
    if buffermap.len() != n {
        return Err(StoreError::LengthMismatch);
    }
    let ghost v = db@;
    let pk = get_peer_key(config.duplicate());
    set_peer(db, pk.as_str(), config);
    assert(maps_of(db@, file@.hash) == maps_of(v, file@.hash));
    register(db, file, pk, buffermap);
    Ok(())
}

/// Forgets `file`: its record and every buffermap of it.
pub fn remove_file_from_db(db: &mut SwarmState, file: MetaFile)
    requires
        store_inv(old(db)@),
    ensures
        store_inv(final(db)@),
        final(db)@ == (StoreView {
            files: old(db)@.files.remove(file@.hash),
            buffermaps: old(db)@.buffermaps.remove(file@.hash),
            ..old(db)@
        }),
        !final(db)@.files.contains_key(file@.hash),
        !final(db)@.buffermaps.contains_key(file@.hash),
{
    let ghost v = db@;
    db.files.remove(file.hash.as_str());
    let _ = db.buffermaps.remove(file.hash.as_str());
    proof {
        let w = db@;
        assert forall|f: Seq<char>| #[trigger] w.files.contains_key(f) implies w.files[f].hash == f && meta_ok(
            w.files[f],
        ) by {
            assert(v.files.contains_key(f));
        }
        assert forall|f: Seq<char>, p: Seq<char>|
            w.files.contains_key(f) && #[trigger] maps_of(w, f).contains_key(p) implies maps_of(w, f)[p].len()
                == buffer_len(w.files[f]) by {
            assert(maps_of(w, f) == maps_of(v, f));
        }
    }
}

/// `t` without peer key `p`'s buffermap in the table of file `f`.
pub open spec fn without_in(t: Map<Seq<char>, Map<Seq<char>, Seq<u8>>>, f: Seq<char>, p: Seq<char>) -> Map<
    Seq<char>,
    Map<Seq<char>, Seq<u8>>,
> {
    if t.contains_key(f) {
        t.insert(f, t[f].remove(p))
    } else {
        t
    }
}

/// Forgets what peer `config` holds of file `key`.
pub fn remove_peer_to_file(db: &mut SwarmState, config: PeerConfig, key: String)
    requires
        store_inv(old(db)@),
    ensures
        store_inv(final(db)@),
        final(db)@ == (StoreView {
            buffermaps: without_in(old(db)@.buffermaps, key@, peer_key(config@)),
            ..old(db)@
        }),
{
    let ghost v = db@;
    let pk = get_peer_key(config);
    match db.buffermaps.remove(key.as_str()) {
        Some(mut t) => {
            t.remove(pk.as_str());
            db.buffermaps.insert(key, t);
            assert(db@.buffermaps =~= without_in(v.buffermaps, key@, pk@));
        },
        None => {
            assert(db@.buffermaps =~= v.buffermaps);
        },
    }
    proof {
        let w = db@;
        assert forall|f: Seq<char>, p: Seq<char>|
            w.files.contains_key(f) && #[trigger] maps_of(w, f).contains_key(p) implies maps_of(w, f)[p].len()
                == buffer_len(w.files[f]) by {
            assert(maps_of(v, f).contains_key(p));
        }
    }
}

/// Forgets peer `config`: its directory entry and its buffermap of every file.
pub fn remove_peer_from_db(db: &mut SwarmState, config: PeerConfig)
    requires
        store_inv(old(db)@),
    ensures
        store_inv(final(db)@),
        final(db)@.files == old(db)@.files,
        final(db)@.me == old(db)@.me,
        final(db)@.peers == old(db)@.peers.remove(peer_key(config@)),
        final(db)@.buffermaps.dom() == old(db)@.buffermaps.dom(),
        forall|f: Seq<char>| #[trigger]
            final(db)@.buffermaps.contains_key(f) ==> final(db)@.buffermaps[f] == old(db)@.buffermaps[f].remove(
                peer_key(config@),
            ),
        !final(db)@.peers.contains_key(peer_key(config@)),
        forall|f: Seq<char>| !(#[trigger] maps_of(final(db)@, f)).contains_key(peer_key(config@)),
{
    let ghost v = db@;
    let pk = get_peer_key(config);
    db.peers.remove(pk.as_str());
    let ks = db.buffermaps.keys();
    let ghost kv = key_views(ks@);
    let mut i: usize = 0;
    while i < ks.len()
        invariant
            i <= ks@.len(),
            kv == key_views(ks@),
            kv.no_duplicates(),
            kv.to_set() == v.buffermaps.dom(),
            db@.files == v.files,
            db@.me == v.me,
            db@.peers == v.peers.remove(pk@),
            db@.buffermaps.dom() == v.buffermaps.dom(),
            forall|j: int| 0 <= j < i ==> db@.buffermaps[#[trigger] kv[j]] == v.buffermaps[kv[j]].remove(pk@),
            forall|f: Seq<char>| #[trigger]
                db@.buffermaps.contains_key(f) && !kv.take(i as int).contains(f) ==> db@.buffermaps[f]
                    == v.buffermaps[f],
        decreases ks@.len() - i,
    {
        let ghost before = db@;
        let k = &ks[i];
        assert(kv[i as int] == k@);
        assert(kv.to_set().contains(k@));
        let taken = db.buffermaps.remove(k.as_str());
        match taken {
            Some(mut t) => {
                t.remove(pk.as_str());
                db.buffermaps.insert(k.clone(), t);
            },
            None => {},
        }
        assert(db@.buffermaps.dom() =~= v.buffermaps.dom());
        assert(!kv.take(i as int).contains(k@)) by {
            if kv.take(i as int).contains(k@) {
                let j = choose|j: int| 0 <= j < i && kv.take(i as int)[j] == k@;
                assert(kv[j] == kv[i as int]);
            }
        }
        assert forall|j: int| 0 <= j < i + 1 implies db@.buffermaps[#[trigger] kv[j]] == v.buffermaps[kv[j]].remove(
            pk@,
        ) by {
            if j < i {
                assert(kv[j] != kv[i as int]);
            }
        }
        assert forall|f: Seq<char>| #[trigger]
            db@.buffermaps.contains_key(f) && !kv.take(i + 1).contains(f) implies db@.buffermaps[f]
                == v.buffermaps[f] by {
            assert(kv.take(i + 1)[i as int] == kv[i as int]);
            assert(f != k@);
            if kv.take(i as int).contains(f) {
                let j = choose|j: int| 0 <= j < i && kv.take(i as int)[j] == f;
                assert(kv.take(i + 1)[j] == f);
            }
            assert(before.buffermaps.contains_key(f));
            assert(db@.buffermaps[f] == before.buffermaps[f]);
        }
        i = i + 1;
    }
    proof {
        let w = db@;
        assert forall|f: Seq<char>| #[trigger] w.buffermaps.contains_key(f) implies w.buffermaps[f]
            == v.buffermaps[f].remove(pk@) by {
            assert(kv.to_set().contains(f));
            let j = choose|j: int| 0 <= j < kv.len() && kv[j] == f;
        }
        assert forall|f: Seq<char>| !(#[trigger] maps_of(w, f)).contains_key(pk@) by {
            if w.buffermaps.contains_key(f) {
                assert(w.buffermaps[f] == v.buffermaps[f].remove(pk@));
            }
        }
        assert forall|f: Seq<char>, p: Seq<char>|
            w.files.contains_key(f) && #[trigger] maps_of(w, f).contains_key(p) implies maps_of(w, f)[p].len()
                == buffer_len(w.files[f]) by {
            assert(w.buffermaps[f] == v.buffermaps[f].remove(pk@));
            assert(maps_of(v, f).contains_key(p));
        }
    }
}

/// Every entry of `m` is one.
pub open spec fn all_ones(m: Seq<u8>) -> bool {
    forall|i: int| 0 <= i < m.len() ==> m[i] == 1
}

/// Some entry of `m` is zero.
pub open spec fn has_zero(m: Seq<u8>) -> bool {
    exists|i: int| 0 <= i < m.len() && m[i] == 0
}

/// The local peer holds every piece of known file `f`.
pub open spec fn seeding(v: StoreView, f: Seq<char>) -> bool {
    &&& v.files.contains_key(f)
    &&& maps_of(v, f).contains_key(my_key(v))
    &&& all_ones(maps_of(v, f)[my_key(v)])
}

/// The local peer lacks some piece of known file `f`.
pub open spec fn leeching(v: StoreView, f: Seq<char>) -> bool {
    &&& v.files.contains_key(f)
    &&& maps_of(v, f).contains_key(my_key(v))
    &&& has_zero(maps_of(v, f)[my_key(v)])
}

/// Peer key `k` has a non-empty buffermap of known file `f`.
pub open spec fn held_by(v: StoreView, f: Seq<char>, k: Seq<char>) -> bool {
    &&& v.files.contains_key(f)
    &&& maps_of(v, f).contains_key(k)
    &&& maps_of(v, f)[k].len() > 0
}

pub open spec fn seeding_set(v: StoreView) -> Set<Seq<char>> {
    Set::new(|f: Seq<char>| seeding(v, f))
}

pub open spec fn leeching_set(v: StoreView) -> Set<Seq<char>> {
    Set::new(|f: Seq<char>| leeching(v, f))
}

/// The identifiers of a list of files.
pub open spec fn hashes(r: Seq<MetaFile>) -> Seq<Seq<char>> {
    r.map_values(|m: MetaFile| m.hash@)
}

/// `r` lists, once each and in some order, the records of the files of `s`.
pub open spec fn lists(v: StoreView, r: Seq<MetaFile>, s: Set<Seq<char>>) -> bool {
    &&& hashes(r).no_duplicates()
    &&& hashes(r).to_set() == s
    &&& forall|i: int| #![trigger r[i]]
        0 <= i < r.len() ==> v.files.contains_key(r[i].hash@) && v.files[r[i].hash@] == r[i]@
}

enum Criterion {
    Seeding,
    Leeching,
    HeldBy(String),
}

spec fn meets(v: StoreView, f: Seq<char>, c: Criterion) -> bool {
    match c {
        Criterion::Seeding => seeding(v, f),
        Criterion::Leeching => leeching(v, f),
        Criterion::HeldBy(k) => held_by(v, f, k@),
    }
}

fn all_ones_vec(m: &Vec<u8>) -> (r: bool)
    ensures
        r == all_ones(m@),
{
    let mut i: usize = 0;
    while i < m.len()
        invariant
            i <= m@.len(),
            forall|j: int| 0 <= j < i ==> m@[j] == 1,
        decreases m@.len() - i,
    {
        if m[i] != 1 {
            return false;
        }
        i = i + 1;
    }
    true
}

fn has_zero_vec(m: &Vec<u8>) -> (r: bool)
    ensures
        r == has_zero(m@),
{
    let mut i: usize = 0;
    while i < m.len()
        invariant
            i <= m@.len(),
            forall|j: int| 0 <= j < i ==> m@[j] != 0,
        decreases m@.len() - i,
    {
        if m[i] == 0 {
            return true;
        }
        i = i + 1;
    }
    false
}

fn files_meeting(db: &SwarmState, c: &Criterion) -> (r: Vec<MetaFile>)
    requires
        store_inv(db@),
    ensures
        lists(db@, r@, Set::new(|f: Seq<char>| meets(db@, f, *c))),
{
    let v = Ghost(db@);
    let me_key = get_peer_key(db.me.duplicate());
    let ks = db.buffermaps.keys();
    let ghost kv = key_views(ks@);
    let mut res: Vec<MetaFile> = Vec::new();
    assert(hashes(res@).to_set() =~= Set::new(|f: Seq<char>| kv.take(0).contains(f) && meets(v@, f, *c)));
    assert(hashes(res@) =~= Seq::<Seq<char>>::empty());
    let mut i: usize = 0;
    while i < ks.len()
        invariant
            i <= ks@.len(),
            v@ == db@,
            store_inv(v@),
            me_key@ == my_key(v@),
            kv == key_views(ks@),
            kv.no_duplicates(),
            kv.to_set() == v@.buffermaps.dom(),
            lists(v@, res@, Set::new(|f: Seq<char>| kv.take(i as int).contains(f) && meets(v@, f, *c))),
        decreases ks@.len() - i,
    {
        let k = &ks[i];
        let ghost next = kv.take(i + 1);
        let ghost prev = kv.take(i as int);
        assert(kv[i as int] == k@);
        let ok = match db.buffermaps.get(k.as_str()) {
            Some(t) => {
                assert(maps_of(v@, k@) == t@);
                let who = match c {
                    Criterion::HeldBy(p) => p.as_str(),
                    _ => me_key.as_str(),
                };
                match t.get(who) {
                    Some(m) => match c {
                        Criterion::Seeding => all_ones_vec(m),
                        Criterion::Leeching => has_zero_vec(m),
                        Criterion::HeldBy(_) => m.len() > 0,
                    },
                    None => false,
                }
            },
            None => false,
        };
        let ghost old_res = res@;
        let ghost s_old = Set::new(|f: Seq<char>| prev.contains(f) && meets(v@, f, *c));
        let ghost s_new = Set::new(|f: Seq<char>| next.contains(f) && meets(v@, f, *c));
        assert(next == prev.push(k@));
        assert(!prev.contains(k@)) by {
            if prev.contains(k@) {
                let j = choose|j: int| 0 <= j < i && prev[j] == k@;
                assert(kv[j] == kv[i as int]);
            }
        }
        let mut pushed = false;
        if ok {
            match db.files.get(k.as_str()) {
                Some(m) => {
                    let m = m.duplicate();
                    assert(m.hash@ == k@);
                    res.push(m);
                    pushed = true;
                    assert(hashes(res@) == hashes(old_res).push(k@));
                    assert(!hashes(old_res).contains(k@)) by {
                        if hashes(old_res).contains(k@) {
                            let j = choose|j: int| 0 <= j < hashes(old_res).len() && hashes(old_res)[j] == k@;
                            assert(hashes(old_res).to_set().contains(k@));
                        }
                    }
                    assert forall|a: int, b: int|
                        0 <= a < hashes(res@).len() && 0 <= b < hashes(res@).len() && a != b implies hashes(
                        res@,
                    )[a] != hashes(res@)[b] by {
                        if a < old_res.len() && b < old_res.len() {
                        } else if a < old_res.len() {
                            assert(hashes(old_res)[a] == hashes(res@)[a]);
                        } else {
                            assert(hashes(old_res)[b] == hashes(res@)[b]);
                        }
                    }
                    assert(hashes(res@).to_set() =~= s_new) by {
                        assert forall|f: Seq<char>| hashes(res@).to_set().contains(f) implies s_new.contains(f) by {
                            if f != k@ {
                                let j = choose|j: int| 0 <= j < hashes(res@).len() && hashes(res@)[j] == f;
                                assert(hashes(old_res)[j] == f);
                                assert(hashes(old_res).to_set().contains(f));
                                let jj = choose|jj: int| 0 <= jj < i && prev[jj] == f;
                                assert(next[jj] == f);
                            } else {
                                assert(next[i as int] == f);
                            }
                        }
                        assert forall|f: Seq<char>| s_new.contains(f) implies hashes(res@).to_set().contains(f) by {
                            if f != k@ {
                                let j = choose|j: int| 0 <= j < i + 1 && next[j] == f;
                                assert(j < i);
                                assert(prev[j] == f);
                                assert(s_old.contains(f));
                                let jj = choose|jj: int| 0 <= jj < hashes(old_res).len() && hashes(old_res)[jj] == f;
                                assert(hashes(res@)[jj] == f);
                            } else {
                                assert(hashes(res@)[old_res.len() as int] == f);
                            }
                        }
                    }
                },
                None => {},
            }
        }
        if !pushed {
            assert(!meets(v@, k@, *c));
            assert(s_new =~= s_old) by {
                assert forall|f: Seq<char>| s_new.contains(f) implies s_old.contains(f) by {
                    let j = choose|j: int| 0 <= j < i + 1 && next[j] == f;
                    if j < i {
                        assert(prev[j] == f);
                    }
                }
                assert forall|f: Seq<char>| s_old.contains(f) implies s_new.contains(f) by {
                    let j = choose|j: int| 0 <= j < i && prev[j] == f;
                    assert(next[j] == f);
                }
            }
        }
        i = i + 1;
    }
    assert(kv.take(kv.len() as int) == kv);
    assert(Set::new(|f: Seq<char>| kv.take(kv.len() as int).contains(f) && meets(v@, f, *c)) =~= Set::new(
        |f: Seq<char>| meets(v@, f, *c),
    )) by {
        assert forall|f: Seq<char>| meets(v@, f, *c) implies kv.contains(f) by {
            assert(v@.buffermaps.contains_key(f));
            assert(kv.to_set().contains(f));
        }
    }
    res
}

/// The files that the local peer seeds: those whose local buffermap is all ones.
pub fn get_seeding_files(db: &SwarmState) -> (r: Vec<MetaFile>)
    requires
        store_inv(db@),
    ensures
        lists(db@, r@, seeding_set(db@)),
{
    let r = files_meeting(db, &Criterion::Seeding);
    assert(Set::new(|f: Seq<char>| meets(db@, f, Criterion::Seeding)) =~= seeding_set(db@));
    r
}

/// The files that the local peer downloads: those whose local buffermap has a zero.
pub fn get_leeching_files(db: &SwarmState) -> (r: Vec<MetaFile>)
    requires
        store_inv(db@),
    ensures
        lists(db@, r@, leeching_set(db@)),
{
    let r = files_meeting(db, &Criterion::Leeching);
    assert(Set::new(|f: Seq<char>| meets(db@, f, Criterion::Leeching)) =~= leeching_set(db@));
    r
}

/// The files of which peer `config` has a non-empty buffermap.
pub fn get_file_from_peer(db: &SwarmState, config: PeerConfig) -> (r: Vec<MetaFile>)
    requires
        store_inv(db@),
    ensures
        lists(db@, r@, Set::new(|f: Seq<char>| held_by(db@, f, peer_key(config@)))),
{
    let ghost k = peer_key(config@);
    let pk = get_peer_key(config);
    let c = Criterion::HeldBy(pk);
    let r = files_meeting(db, &c);
    assert(Set::new(|f: Seq<char>| meets(db@, f, c)) =~= Set::new(|f: Seq<char>| held_by(db@, f, k)));
    r
}

/// Every buffermap of a known file has that file's buffermap length.
pub proof fn lemma_buffermap_lengths(v: StoreView)
    requires
        store_inv(v),
    ensures
        forall|f: Seq<char>, p: Seq<char>|
            v.files.contains_key(f) && v.buffermaps.contains_key(f) && #[trigger] v.buffermaps[f].contains_key(p)
                ==> v.buffermaps[f][p].len() == v.files[f].length / v.files[f].piece_size + 1,
{
    assert forall|f: Seq<char>, p: Seq<char>|
        v.files.contains_key(f) && v.buffermaps.contains_key(f) && #[trigger] v.buffermaps[f].contains_key(p)
            implies v.buffermaps[f][p].len() == v.files[f].length / v.files[f].piece_size + 1 by {
        assert(maps_of(v, f).contains_key(p));
    }
}

/// No file is at once seeded and leeched.
pub proof fn lemma_seeding_leeching_disjoint(v: StoreView)
    ensures
        seeding_set(v).disjoint(leeching_set(v)),
{
    assert forall|f: Seq<char>| seeding_set(v).contains(f) implies !leeching_set(v).contains(f) by {
        if leeching(v, f) {
            let m = maps_of(v, f)[my_key(v)];
            let i = choose|i: int| 0 <= i < m.len() && m[i] == 0;
        }
    }
}

/// The peer that a key names, where the key is `address:port` with an
/// address free of `:` and a port written as `dec` writes it.
pub open spec fn split_peer_key(k: Seq<char>) -> Option<PeerView> {
    let i = find(k, ':');
    if i < k.len() {
        let rest = k.subrange(i as int + 1, k.len() as int);
        match u16_of(rest) {
            Some(p) => if dec(p as nat) == rest {
                Some(PeerView { address: k.take(i as int), port: p })
            } else {
                None
            },
            None => None,
        }
    } else {
        None
    }
}

/// The keys of a list of peers.
pub open spec fn peer_keys(r: Seq<PeerConfig>) -> Seq<Seq<char>> {
    r.map_values(|p: PeerConfig| peer_key(p@))
}

/// A key that names a peer is that peer's key.
pub proof fn lemma_split_peer_key(k: Seq<char>)
    requires
        split_peer_key(k) is Some,
    ensures
        peer_key(split_peer_key(k)->0) == k,
{
    lemma_find(k, ':');
    let i = find(k, ':') as int;
    assert(k =~= k.take(i).push(':') + k.subrange(i + 1, k.len() as int));
}

fn parse_peer_key(k: &String) -> (r: Option<PeerConfig>)
    ensures
        match r {
            Some(p) => split_peer_key(k@) == Some(p@),
            None => split_peer_key(k@) is None,
        },
{
    let cs = chars_of(k.as_str());
    assert(cs@.subrange(0, cs@.len() as int) == cs@);
    proof {
        lemma_find(cs@, ':');
    }
    let i = find_char(&cs, 0, cs.len(), ':');
    if i == cs.len() {
        return None;
    }
    let port = match parse_usize(&cs, i + 1, cs.len()) {
        Some(v) => if v <= 65535 {
            v as u16
        } else {
            return None;
        },
        None => {
            return None;
        },
    };
    let d = chars_of(decimal(port as usize).as_str());
    if !(d.len() == cs.len() - (i + 1) && has_prefix_at(&cs, i + 1, &d)) {
        return None;
    }
    let addr = slice(&cs, 0, i);
    let mut address = String::new();
    push_chars(&mut address, &addr);
    assert(Seq::<char>::empty() + addr@ == addr@);
    assert(cs@.take(i as int) == cs@.subrange(0, i as int));
    Some(PeerConfig { address, port })
}

/// The peers that hold some of file `key`: each peer key of its buffermap
/// table that names a peer, as that peer, once each and in some order.
pub fn get_peers_from_file(db: &SwarmState, key: String) -> (r: Vec<PeerConfig>)
    ensures
        peer_keys(r@).no_duplicates(),
        peer_keys(r@).to_set() == maps_of(db@, key@).dom().filter(|k: Seq<char>| split_peer_key(k) is Some),
        forall|i: int| 0 <= i < r@.len() ==> split_peer_key(#[trigger] peer_keys(r@)[i]) == Some(r@[i]@),
{
    let ghost t = maps_of(db@, key@);
    let ghost target = t.dom().filter(|k: Seq<char>| split_peer_key(k) is Some);
    let mut res: Vec<PeerConfig> = Vec::new();
    let tab = match db.buffermaps.get(key.as_str()) {
        Some(tab) => tab,
        None => {
            assert(peer_keys(res@).to_set() =~= target);
            assert(peer_keys(res@) =~= Seq::<Seq<char>>::empty());
            return res;
        },
    };
    assert(tab@ == t);
    let ks = tab.keys();
    let ghost kv = key_views(ks@);
    assert(peer_keys(res@).to_set() =~= kv.take(0).to_set().filter(|k: Seq<char>| split_peer_key(k) is Some));
    assert(peer_keys(res@) =~= Seq::<Seq<char>>::empty());
    let mut i: usize = 0;
    while i < ks.len()
        invariant
            i <= ks@.len(),
            kv == key_views(ks@),
            kv.no_duplicates(),
            kv.to_set() == t.dom(),
            peer_keys(res@).no_duplicates(),
            peer_keys(res@).to_set() == kv.take(i as int).to_set().filter(|k: Seq<char>| split_peer_key(k) is Some),
            forall|j: int| 0 <= j < res@.len() ==> split_peer_key(#[trigger] peer_keys(res@)[j]) == Some(res@[j]@),
        decreases ks@.len() - i,
    {
        let k = &ks[i];
        let ghost prev = kv.take(i as int);
        let ghost next = kv.take(i + 1);
        assert(kv[i as int] == k@);
        assert(next == prev.push(k@));
        assert(!prev.contains(k@)) by {
            if prev.contains(k@) {
                let j = choose|j: int| 0 <= j < i && prev[j] == k@;
                assert(kv[j] == kv[i as int]);
            }
        }
        let ghost old_res = res@;
        match parse_peer_key(k) {
            Some(p) => {
                proof {
                    lemma_split_peer_key(k@);
                }
                res.push(p);
                assert(peer_keys(res@) == peer_keys(old_res).push(k@));
                assert(!peer_keys(old_res).contains(k@)) by {
                    if peer_keys(old_res).contains(k@) {
                        let j = choose|j: int| 0 <= j < peer_keys(old_res).len() && peer_keys(old_res)[j] == k@;
                        assert(peer_keys(old_res).to_set().contains(k@));
                        assert(prev.to_set().contains(k@));
                    }
                }
                assert forall|a: int, b: int|
                    0 <= a < peer_keys(res@).len() && 0 <= b < peer_keys(res@).len() && a != b implies peer_keys(
                    res@,
                )[a] != peer_keys(res@)[b] by {
                    if a < old_res.len() && b < old_res.len() {
                    } else if a < old_res.len() {
                        assert(peer_keys(old_res)[a] == peer_keys(res@)[a]);
                    } else {
                        assert(peer_keys(old_res)[b] == peer_keys(res@)[b]);
                    }
                }
                proof {
                    lemma_push_to_set(prev, k@);
                }
                proof {
                    lemma_push_to_set(peer_keys(old_res), k@);
                }
                assert(next.to_set().filter(|k: Seq<char>| split_peer_key(k) is Some) =~= prev.to_set().filter(
                    |k: Seq<char>| split_peer_key(k) is Some,
                ).insert(k@));
                assert forall|j: int| 0 <= j < res@.len() implies split_peer_key(#[trigger] peer_keys(res@)[j])
                    == Some(res@[j]@) by {
                    if j < old_res.len() {
                        assert(peer_keys(res@)[j] == peer_keys(old_res)[j]);
                    }
                }
            },
            None => {
                proof {
                    lemma_push_to_set(prev, k@);
                }
                assert(next.to_set().filter(|k: Seq<char>| split_peer_key(k) is Some) =~= prev.to_set().filter(
                    |k: Seq<char>| split_peer_key(k) is Some,
                ));
            },
        }
        i = i + 1;
    }
    assert(kv.take(kv.len() as int) == kv);
    res
}

/// Every buffermap stored for file `key`, with its peer key, once each and in some order.
pub fn file_maps(db: &SwarmState, key: &str) -> (r: Vec<(String, Vec<u8>)>)
    ensures
        r@.map_values(|e: (String, Vec<u8>)| e.0@).no_duplicates(),
        r@.map_values(|e: (String, Vec<u8>)| e.0@).to_set() == maps_of(db@, key@).dom(),
        forall|i: int| #![trigger r@[i]]
            0 <= i < r@.len() ==> maps_of(db@, key@).contains_key(r@[i].0@) && maps_of(db@, key@)[r@[i].0@]
                == r@[i].1@,
{
    let mut res: Vec<(String, Vec<u8>)> = Vec::new();
    let tab = match db.buffermaps.get(key) {
        Some(tab) => tab,
        None => {
            assert(res@.map_values(|e: (String, Vec<u8>)| e.0@).to_set() =~= maps_of(db@, key@).dom());
            assert(res@.map_values(|e: (String, Vec<u8>)| e.0@) =~= Seq::<Seq<char>>::empty());
            return res;
        },
    };
    let ghost t = tab@;
    assert(t == maps_of(db@, key@));
    let ks = tab.keys();
    let ghost kv = key_views(ks@);
    let mut i: usize = 0;
    while i < ks.len()
        invariant
            i <= ks@.len(),
            t == tab@,
            kv == key_views(ks@),
            kv.to_set() == t.dom(),
            res@.map_values(|e: (String, Vec<u8>)| e.0@) == kv.take(i as int),
            forall|j: int| #![trigger res@[j]]
                0 <= j < res@.len() ==> t.contains_key(res@[j].0@) && t[res@[j].0@] == res@[j].1@,
        decreases ks@.len() - i,
    {
        let k = &ks[i];
        assert(kv[i as int] == k@);
        assert(kv.to_set().contains(k@));
        match tab.get(k.as_str()) {
            Some(m) => {
                let ghost old_res = res@;
                let kk = k.clone();
                res.push((kk, copy_bytes(m)));
                assert(res@.map_values(|e: (String, Vec<u8>)| e.0@) =~= old_res.map_values(
                    |e: (String, Vec<u8>)| e.0@,
                ).push(k@));
                assert(kv.take(i + 1) == kv.take(i as int).push(k@));
                assert forall|j: int| #![trigger res@[j]]
                    0 <= j < res@.len() implies t.contains_key(res@[j].0@) && t[res@[j].0@] == res@[j].1@ by {
                    if j < old_res.len() {
                        assert(res@[j] == old_res[j]);
                    }
                }
            },
            None => {},
        }
        i = i + 1;
    }
    assert(kv.take(kv.len() as int) == kv);
    res
}

/// `v` once the local peer is recorded as holding none of file `m`, where
/// `m` may be registered; `v` unchanged otherwise.
pub open spec fn found_step(v: StoreView, m: MetaFileView) -> StoreView {
    if file_fits(v, m) {
        registered(
            StoreView { peers: v.peers.insert(my_key(v), v.me), ..v },
            m,
            my_key(v),
            filled(buffer_len(m), 0),
        )
    } else {
        v
    }
}

/// `v` once each file of `fs` has gone through `found_step`, in order.
pub open spec fn found_all(v: StoreView, fs: Seq<MetaFileView>) -> StoreView
    decreases fs.len(),
{
    if fs.len() == 0 {
        v
    } else {
        found_step(found_all(v, fs.drop_last()), fs.last())
    }
}

/// Records the files that a search found as files the local peer may
/// download: each with a local buffermap of zeros. A file whose record does
/// not fit is passed over.
pub fn register_found_files(db: &mut SwarmState, files: &Vec<MetaFile>)
    requires
        store_inv(old(db)@),
    ensures
        store_inv(final(db)@),
        final(db)@ == found_all(old(db)@, files@.map_values(|m: MetaFile| m@)),
{
    let ghost v0 = db@;
    let ghost fs = files@.map_values(|m: MetaFile| m@);
    let mut i: usize = 0;
    assert(fs.take(0) =~= Seq::<MetaFileView>::empty());
    while i < files.len()
        invariant
            i <= files@.len(),
            fs == files@.map_values(|m: MetaFile| m@),
            store_inv(db@),
            db@ == found_all(v0, fs.take(i as int)),
        decreases files@.len() - i,
    {
        let m = files[i].duplicate();
        assert(fs.take(i + 1).drop_last() == fs.take(i as int));
        assert(fs.take(i + 1).last() == m@);
        let ghost before = db@;
        match check_meta(db, &m) {
            Ok(n) => {
                let me = db.me.duplicate();
                let zeros = filled_vec(n, 0);
                let r = set_peer_to_file(db, me, m, zeros);
                assert(r is Ok);
            },
            Err(_) => {},
        }
        assert(db@ == found_step(before, fs[i as int]));
        i = i + 1;
    }
    assert(fs.take(fs.len() as int) == fs);
}

} // verus!
