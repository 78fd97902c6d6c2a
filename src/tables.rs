//! The four hash tables of the swarm store, each kept in a `hashbrown::HashMap`
//! keyed by `String`. `hashbrown::HashMap` has an allocator parameter whose
//! trait the crate does not export, so the map type cannot be declared to the
//! verifier; each table is an opaque struct around one instead. What each
//! table holds is named by a spec function over the keys' views; the wrappers
//! state what each `HashMap` method does to it.
use vstd::prelude::*;
use crate::meta::{MetaFile, MetaFileView, PeerConfig, PeerView};

verus! {

/// Views of a sequence of `String` keys.
pub open spec fn key_views(ks: Seq<String>) -> Seq<Seq<char>> {
    ks.map_values(|k: String| k@)
}

/// The peer directory: peer key to peer.
#[verifier::external_body]
pub struct PeerTable {
    map: hashbrown::HashMap<String, PeerConfig>,
}

/// What a `PeerTable` holds.
pub uninterp spec fn peer_entries(t: PeerTable) -> Map<Seq<char>, PeerView>;

impl View for PeerTable {
    type V = Map<Seq<char>, PeerView>;

    open spec fn view(&self) -> Map<Seq<char>, PeerView> {
        peer_entries(*self)
    }
}

impl PeerTable {
    /// Relies on `hashbrown::HashMap::new`: an empty map.
    #[verifier::external_body]
    pub(crate) fn new() -> (r: PeerTable)
        ensures
            peer_entries(r).dom() == Set::<Seq<char>>::empty(),
    {
        PeerTable { map: hashbrown::HashMap::new() }
    }

    /// Relies on `hashbrown::HashMap::get`: the value stored under `k`.
    #[verifier::external_body]
    pub(crate) fn get(&self, k: &str) -> (r: Option<&PeerConfig>)
        ensures
            match r {
                Some(p) => peer_entries(*self).contains_key(k@) && p@ == peer_entries(*self)[k@],
                None => !peer_entries(*self).contains_key(k@),
            },
    {
        self.map.get(k)
    }

    /// Relies on `hashbrown::HashMap::insert`: `v` is stored under `k`, replacing any value.
    #[verifier::external_body]
    pub(crate) fn insert(&mut self, k: String, v: PeerConfig)
        ensures
            peer_entries(*final(self)) == peer_entries(*old(self)).insert(k@, v@),
    {
        self.map.insert(k, v);
    }

    /// Relies on `hashbrown::HashMap::remove`: no value is left under `k`.
    #[verifier::external_body]
    pub(crate) fn remove(&mut self, k: &str)
        ensures
            peer_entries(*final(self)) == peer_entries(*old(self)).remove(k@),
    {
        self.map.remove(k);
    }
}

/// The file table: file identifier to file record.
#[verifier::external_body]
pub struct FileTable {
    map: hashbrown::HashMap<String, MetaFile>,
}

/// What a `FileTable` holds.
pub uninterp spec fn file_entries(t: FileTable) -> Map<Seq<char>, MetaFileView>;

impl View for FileTable {
    type V = Map<Seq<char>, MetaFileView>;

    open spec fn view(&self) -> Map<Seq<char>, MetaFileView> {
        file_entries(*self)
    }
}

impl FileTable {
    /// Relies on `hashbrown::HashMap::new`: an empty map.
    #[verifier::external_body]
    pub(crate) fn new() -> (r: FileTable)
        ensures
            file_entries(r).dom() == Set::<Seq<char>>::empty(),
    {
        FileTable { map: hashbrown::HashMap::new() }
    }

    /// Relies on `hashbrown::HashMap::get`: the value stored under `k`.
    #[verifier::external_body]
    pub(crate) fn get(&self, k: &str) -> (r: Option<&MetaFile>)
        ensures
            match r {
                Some(m) => file_entries(*self).contains_key(k@) && m@ == file_entries(*self)[k@],
                None => !file_entries(*self).contains_key(k@),
            },
    {
        self.map.get(k)
    }

    /// Relies on `hashbrown::HashMap::insert`: `v` is stored under `k`, replacing any value.
    #[verifier::external_body]
    pub(crate) fn insert(&mut self, k: String, v: MetaFile)
        ensures
            file_entries(*final(self)) == file_entries(*old(self)).insert(k@, v@),
    {
        self.map.insert(k, v);
    }

    /// Relies on `hashbrown::HashMap::remove`: no value is left under `k`.
    #[verifier::external_body]
    pub(crate) fn remove(&mut self, k: &str)
        ensures
            file_entries(*final(self)) == file_entries(*old(self)).remove(k@),
    {
        self.map.remove(k);
    }
}

/// The buffermaps of one file: peer key to buffermap.
#[verifier::external_body]
pub struct PeerMaps {
    map: hashbrown::HashMap<String, Vec<u8>>,
}

/// What a `PeerMaps` holds.
pub uninterp spec fn map_entries(t: PeerMaps) -> Map<Seq<char>, Seq<u8>>;

impl View for PeerMaps {
    type V = Map<Seq<char>, Seq<u8>>;

    open spec fn view(&self) -> Map<Seq<char>, Seq<u8>> {
        map_entries(*self)
    }
}

impl PeerMaps {
    /// Relies on `hashbrown::HashMap::new`: an empty map.
    #[verifier::external_body]
    pub(crate) fn new() -> (r: PeerMaps)
        ensures
            map_entries(r).dom() == Set::<Seq<char>>::empty(),
    {
        PeerMaps { map: hashbrown::HashMap::new() }
    }

    /// Relies on `hashbrown::HashMap::get`: the value stored under `k`.
    #[verifier::external_body]
    pub(crate) fn get(&self, k: &str) -> (r: Option<&Vec<u8>>)
        ensures
            match r {
                Some(m) => map_entries(*self).contains_key(k@) && m@ == map_entries(*self)[k@],
                None => !map_entries(*self).contains_key(k@),
            },
    {
        self.map.get(k)
    }

    /// Relies on `hashbrown::HashMap::insert`: `v` is stored under `k`, replacing any value.
    #[verifier::external_body]
    pub(crate) fn insert(&mut self, k: String, v: Vec<u8>)
        ensures
            map_entries(*final(self)) == map_entries(*old(self)).insert(k@, v@),
    {
        self.map.insert(k, v);
    }

    /// Relies on `hashbrown::HashMap::remove`: no value is left under `k`.
    #[verifier::external_body]
    pub(crate) fn remove(&mut self, k: &str)
        ensures
            map_entries(*final(self)) == map_entries(*old(self)).remove(k@),
    {
        self.map.remove(k);
    }

    /// Relies on `hashbrown::HashMap::keys`: every key once, in the map's own order.
    #[verifier::external_body]
    pub(crate) fn keys(&self) -> (r: Vec<String>)
        ensures
            key_views(r@).no_duplicates(),
            key_views(r@).to_set() == map_entries(*self).dom(),
    {
        self.map.keys().cloned().collect()
    }
}

/// The buffermap store: file identifier to that file's buffermaps.
#[verifier::external_body]
pub struct BufferTable {
    map: hashbrown::HashMap<String, PeerMaps>,
}

/// What a `BufferTable` holds, each file's buffermaps by their contents.
pub uninterp spec fn buffer_entries(t: BufferTable) -> Map<Seq<char>, Map<Seq<char>, Seq<u8>>>;

impl View for BufferTable {
    type V = Map<Seq<char>, Map<Seq<char>, Seq<u8>>>;

    open spec fn view(&self) -> Map<Seq<char>, Map<Seq<char>, Seq<u8>>> {
        buffer_entries(*self)
    }
}

impl BufferTable {
    /// Relies on `hashbrown::HashMap::new`: an empty map.
    #[verifier::external_body]
    pub(crate) fn new() -> (r: BufferTable)
        ensures
            buffer_entries(r).dom() == Set::<Seq<char>>::empty(),
    {
        BufferTable { map: hashbrown::HashMap::new() }
    }

    /// Relies on `hashbrown::HashMap::get`: the value stored under `k`.
    #[verifier::external_body]
    pub(crate) fn get(&self, k: &str) -> (r: Option<&PeerMaps>)
        ensures
            match r {
                Some(t) => buffer_entries(*self).contains_key(k@) && t@ == buffer_entries(*self)[k@],
                None => !buffer_entries(*self).contains_key(k@),
            },
    {
        self.map.get(k)
    }

    /// Relies on `hashbrown::HashMap::insert`: `v` is stored under `k`, replacing any value.
    #[verifier::external_body]
    pub(crate) fn insert(&mut self, k: String, v: PeerMaps)
        ensures
            buffer_entries(*final(self)) == buffer_entries(*old(self)).insert(k@, v@),
    {
        self.map.insert(k, v);
    }

    /// Relies on `hashbrown::HashMap::remove`: the value that was under `k`
    /// is handed back and none is left there.
    #[verifier::external_body]
    pub(crate) fn remove(&mut self, k: &str) -> (r: Option<PeerMaps>)
        ensures
            buffer_entries(*final(self)) == buffer_entries(*old(self)).remove(k@),
            match r {
                Some(t) => buffer_entries(*old(self)).contains_key(k@) && t@ == buffer_entries(*old(self))[k@],
                None => !buffer_entries(*old(self)).contains_key(k@),
            },
    {
        self.map.remove(k)
    }

    /// Relies on `hashbrown::HashMap::keys`: every key once, in the map's own order.
    #[verifier::external_body]
    pub(crate) fn keys(&self) -> (r: Vec<String>)
        ensures
            key_views(r@).no_duplicates(),
            key_views(r@).to_set() == buffer_entries(*self).dom(),
    {
        self.map.keys().cloned().collect()
    }
}

} // verus!
