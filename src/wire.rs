//! The decisions of the peer-wire tasks: what to answer, what to record,
//! when to go on. Sockets, disk and timers stay with the caller.
use vstd::prelude::*;
use std::collections::VecDeque;
use crate::codec::{havef, map_text, seedf, seed_entries, texts};
use crate::meta::{get_peer_key, peer_key, MetaFile, PeerConfig};
use crate::parser::{have_spec, parse_request, request_spec, Have, Request};
use crate::store::{
    get_peers_from_file, lemma_push_to_set, peer_keys, split_peer_key, StoreView,
    filled, get_leeching_files, get_seeding_files, hashes, leeching_set, lists, lookup_buffermap, maps_of,
    my_key, seeding_set, set_buffermap, store_inv, with_map, StoreError, SwarmState, map_fits,
};
use crate::text::{dec, join, trim};

verus! {

/// The piece size used for a file that the store does not know.
pub const DEFAULT_CHUNK_SIZE: usize = 1024;

/// How many empty rounds a serving connection waits for a next request.
pub const MAX_RETRY: usize = 20;

/// How many download loops run at once against one peer for one file.
pub const WORKERS_PER_PEER: usize = 3;

/// The piece size of file `key`, or the default one for an unknown file.
pub open spec fn chunk_size_spec(v: crate::store::StoreView, key: Seq<char>) -> usize {
    if v.files.contains_key(key) {
        v.files[key].piece_size
    } else {
        DEFAULT_CHUNK_SIZE
    }
}

/// The piece size that requests for file `key` use.
pub fn chunk_size_of(db: &SwarmState, key: &str) -> (r: usize)
    requires
        store_inv(db@),
    ensures
        r == chunk_size_spec(db@, key@),
        r > 0,
{
    match crate::store::get_file(db, key) {
        Some(m) => {
            assert(db@.files.contains_key(key@));
            m.piece_size
        },
        None => DEFAULT_CHUNK_SIZE,
    }
}

/// How many pieces one request for file `key` asks for, so that a request
/// carries about `length_tcp` bytes.
pub fn pieces_per_request(db: &SwarmState, key: &str, length_tcp: usize) -> (r: usize)
    requires
        store_inv(db@),
    ensures
        r == length_tcp / chunk_size_spec(db@, key@),
{
    length_tcp / chunk_size_of(db, key)
}

/// Records the buffermap that a `have` message from `peer` carries.
pub fn store_have_to_db(db: &mut SwarmState, peer: PeerConfig, have: Have) -> (r: Result<(), StoreError>)
    requires
        store_inv(old(db)@),
    ensures
        store_inv(final(db)@),
        map_fits(old(db)@, have.key@, peer_key(peer@), have.buffermap@) ==> r is Ok && final(db)@ == with_map(
            old(db)@,
            have.key@,
            peer_key(peer@),
            have.buffermap@,
        ),
        !map_fits(old(db)@, have.key@, peer_key(peer@), have.buffermap@) ==> r is Err && final(db)@ == old(db)@,
{
    let pk = get_peer_key(peer);
    set_buffermap(db, have.key, pk, have.buffermap)
}

/// The local buffermap of `key`, or zeros as long as `fallback_len`.
pub open spec fn local_or_zeros(v: crate::store::StoreView, key: Seq<char>, fallback_len: usize) -> Seq<u8> {
    if maps_of(v, key).contains_key(my_key(v)) {
        maps_of(v, key)[my_key(v)]
    } else {
        filled(fallback_len as int, 0)
    }
}

/// The answer to a `have` message for `key` whose buffermap had
/// `remote_len` entries: the local buffermap, or zeros where there is none.
pub fn have_reply(db: &SwarmState, key: String, remote_len: usize) -> (r: String)
    ensures
        r@ == "have "@ + key@ + " "@ + map_text(local_or_zeros(db@, key@, remote_len)) + "\n"@,
{
    let mk = get_peer_key(db.me());
    let m = match lookup_buffermap(db, key.as_str(), mk.as_str()) {
        Some(m) => m,
        None => crate::store::zeros_vec(remote_len),
    };
    havef(key, m)
}

/// The answer to an `interested` message for `key`: the local buffermap,
/// where there is one.
pub fn interested_reply(db: &SwarmState, key: String) -> (r: Option<String>)
    ensures
        maps_of(db@, key@).contains_key(my_key(db@)) ==> (r matches Some(s) && s@ == "have "@ + key@ + " "@
            + map_text(maps_of(db@, key@)[my_key(db@)]) + "\n"@),
        !maps_of(db@, key@).contains_key(my_key(db@)) ==> r is None,
{
    let mk = get_peer_key(db.me());
    match lookup_buffermap(db, key.as_str(), mk.as_str()) {
        Some(m) => Some(havef(key, m)),
        None => None,
    }
}

/// Records the buffermap of `peer` that its reply to `interested` carries,
/// as its buffermap of file `key`. A reply that is no `have` line changes nothing.
pub fn record_have_reply(db: &mut SwarmState, peer: PeerConfig, key: String, reply: &str) -> (r: Result<(), StoreError>)
    requires
        store_inv(old(db)@),
    ensures
        store_inv(final(db)@),
        match have_spec(trim(reply@)) {
            Some((_, b)) => if map_fits(old(db)@, key@, peer_key(peer@), b) {
                r is Ok && final(db)@ == with_map(old(db)@, key@, peer_key(peer@), b)
            } else {
                r is Err && final(db)@ == old(db)@
            },
            None => r is Ok && final(db)@ == old(db)@,
        },
{
    match crate::parser::parse_have_from_have(reply.to_owned()) {
        Some(h) => {
            let pk = get_peer_key(peer);
            set_buffermap(db, key, pk, h.buffermap)
        },
        None => Ok(()),
    }
}

/// `m` with each requested index that was not received set back to zero.
pub open spec fn unreserved(m: Seq<u8>, requested: Seq<usize>, received: Seq<usize>) -> Seq<u8> {
    Seq::new(
        m.len(),
        |i: int| if requested.contains(i as usize) && !received.contains(i as usize) { 0u8 } else { m[i] },
    )
}

/// Some requested index was not received.
pub open spec fn missing(requested: Seq<usize>, received: Seq<usize>) -> bool {
    exists|k: int| 0 <= k < requested.len() && !received.contains(#[trigger] requested[k])
}

fn contains_index(v: &Vec<usize>, x: usize) -> (r: bool)
    ensures
        r == v@.contains(x),
{
    let mut i: usize = 0;
    while i < v.len()
        invariant
            i <= v@.len(),
            forall|j: int| 0 <= j < i ==> v@[j] != x,
        decreases v@.len() - i,
    {
        if v[i] == x {
            return true;
        }
        i = i + 1;
    }
    false
}

/// After a download round of file `file_key`: gives back the reservation of
/// every requested index that did not arrive, so that a later round asks again.
pub fn unreserve(db: &mut SwarmState, file_key: &String, requested: &Vec<usize>, received: &Vec<usize>)
    requires
        store_inv(old(db)@),
    ensures
        store_inv(final(db)@),
        maps_of(old(db)@, file_key@).contains_key(my_key(old(db)@)) && missing(requested@, received@) ==> final(db)@
            == with_map(
            old(db)@,
            file_key@,
            my_key(old(db)@),
            unreserved(maps_of(old(db)@, file_key@)[my_key(old(db)@)], requested@, received@),
        ),
        !(maps_of(old(db)@, file_key@).contains_key(my_key(old(db)@)) && missing(requested@, received@))
            ==> final(db)@ == old(db)@,
{
    let mk = get_peer_key(db.me());
    let mut m = match lookup_buffermap(db, file_key.as_str(), mk.as_str()) {
        Some(m) => m,
        None => {
            return;
        },
    };
    let ghost m0 = m@;
    let mut any = false;
    let mut k: usize = 0;
    while k < requested.len()
        invariant
            k <= requested@.len(),
            m@.len() == m0.len(),
            m@ == Seq::new(
                m0.len(),
                |i: int|
                    if requested@.take(k as int).contains(i as usize) && !received@.contains(i as usize) {
                        0u8
                    } else {
                        m0[i]
                    },
            ),
            any == exists|j: int| 0 <= j < k && !received@.contains(#[trigger] requested@[j]),
        decreases requested@.len() - k,
    {
        let x = requested[k];
        let ghost prev = requested@.take(k as int);
        assert(requested@.take(k + 1) == prev.push(x));
        if !contains_index(received, x) {
            any = true;
            if x < m.len() {
                m.set(x, 0);
            }
        }
        assert forall|i: int| 0 <= i < m0.len() implies (#[trigger] prev.push(x).contains(i as usize) == (prev.contains(
            i as usize,
        ) || x == i as usize)) by {
            if prev.push(x).contains(i as usize) {
                let j = choose|j: int| 0 <= j < prev.push(x).len() && prev.push(x)[j] == i as usize;
                if j < prev.len() {
                    assert(prev[j] == i as usize);
                }
            }
            if prev.contains(i as usize) {
                let j = choose|j: int| 0 <= j < prev.len() && prev[j] == i as usize;
                assert(prev.push(x)[j] == i as usize);
            }
            if x == i as usize {
                assert(prev.push(x)[prev.len() as int] == x);
            }
        }
        assert(m@ =~= Seq::new(
            m0.len(),
            |i: int|
                if requested@.take(k + 1).contains(i as usize) && !received@.contains(i as usize) {
                    0u8
                } else {
                    m0[i]
                },
        ));
        k = k + 1;
    }
    assert(requested@.take(requested@.len() as int) == requested@);
    assert(m@ =~= unreserved(m0, requested@, received@));
    if any {
        let r = set_buffermap(db, file_key.clone(), mk, m);
        assert(r is Ok);
    }
}

/// What a serving connection does once its `data` reply is sent.
pub enum Next {
    /// Nothing came: wait another round, this one being the given retry.
    Again(usize),
    /// Stop serving this connection.
    Stop,
    /// A next request came.
    Request(Request),
}

/// A serving connection sends the `data` reply only on its first round, and
/// only for a non-empty request.
pub fn should_send(retry: usize, nb_pieces: usize) -> (r: bool)
    ensures
        r == (retry == 0 && nb_pieces > 0),
{
    retry == 0 && nb_pieces > 0
}

/// A serving connection on round `retry` is still served: it ends once more
/// than `MAX_RETRY` rounds have passed.
pub fn serving_continues(retry: usize) -> (r: bool)
    ensures
        r == (retry <= MAX_RETRY),
{
    retry <= MAX_RETRY
}

/// What a serving connection does after reading `reply` on round `retry`:
/// an empty read is one more empty round, up to `MAX_RETRY` of them; past
/// `MAX_RETRY` rounds the connection is no longer served, whatever came.
pub fn getpieces_next(reply: &str, retry: usize) -> (r: Next)
    ensures
        retry > MAX_RETRY ==> r is Stop,
        retry < MAX_RETRY && reply@.len() == 0 ==> (r matches Next::Again(n) && n == retry + 1),
        retry == MAX_RETRY && reply@.len() == 0 ==> r is Stop,
        retry <= MAX_RETRY && reply@.len() > 0 ==> (r matches Next::Request(q) && q@ == request_spec(reply@)),
{
    if retry > MAX_RETRY {
        Next::Stop
    } else if reply.is_empty() {
        if retry < MAX_RETRY {
            Next::Again(retry + 1)
        } else {
            Next::Stop
        }
    } else {
        Next::Request(parse_request(reply))
    }
}

/// The byte range of piece `index` of a file of `file_len` bytes cut in
/// pieces of `chunk_size`: its offset, and how many bytes it has (fewer for
/// the last piece, none past the end). None where the offset overflows.
pub fn chunk_span(file_len: u64, chunk_size: usize, index: usize) -> (r: Option<(u64, usize)>)
    ensures
        index * chunk_size > u64::MAX ==> r is None,
        index * chunk_size <= u64::MAX ==> (r matches Some((start, n)) && start == index * chunk_size && n == if start
            >= file_len {
            0
        } else if file_len - start < chunk_size {
            file_len - start
        } else {
            chunk_size as int
        }),
{
    assert((index as int) * (chunk_size as int) <= u128::MAX) by (nonlinear_arith)
        requires
            index <= usize::MAX,
            chunk_size <= usize::MAX,
            usize::MAX <= u64::MAX,
    ;
    let start128: u128 = index as u128 * chunk_size as u128;
    if start128 > u64::MAX as u128 {
        return None;
    }
    let start = start128 as u64;
    if start >= file_len {
        return Some((start, 0));
    }
    let rest = file_len - start;
    if rest < chunk_size as u64 {
        Some((start, rest as usize))
    } else {
        Some((start, chunk_size))
    }
}

/// The `update` message: `update seed [{hash} ...] leech [{hash} ...]`.
pub fn update_message(seeds: &Vec<MetaFile>, leeches: &Vec<MetaFile>) -> (r: String)
    ensures
        r@ == "update seed ["@ + join(hashes(seeds@), ' ') + "] leech ["@ + join(hashes(leeches@), ' ') + "]\n"@,
{
    let s = hash_strings(seeds);
    let l = hash_strings(leeches);
    let mut m = String::new();
    m.append("update seed [");
    push_list(&mut m, &s);
    m.append("] leech [");
    push_list(&mut m, &l);
    m.append("]\n");
    m
}

fn hash_strings(v: &Vec<MetaFile>) -> (r: Vec<String>)
    ensures
        texts(r@) == hashes(v@),
{
    let mut r: Vec<String> = Vec::new();
    let mut i: usize = 0;
    while i < v.len()
        invariant
            i <= v@.len(),
            texts(r@) == hashes(v@).take(i as int),
        decreases v@.len() - i,
    {
        let ghost before = r@;
        r.push(v[i].hash.clone());
        assert(texts(r@) =~= texts(before).push(v@[i as int].hash@));
        assert(hashes(v@).take(i + 1) =~= hashes(v@).take(i as int).push(v@[i as int].hash@));
        i = i + 1;
    }
    assert(hashes(v@).take(v@.len() as int) == hashes(v@));
    r
}

fn push_list(s: &mut String, parts: &Vec<String>)
    ensures
        final(s)@ == old(s)@ + join(texts(parts@), ' '),
{
    let joined = crate::codec::dataf_body(parts);
    s.append(joined.as_str());
}

/// The `update` message for the store: the files seeded and the files
/// leeched, each list in the order the store gives.
pub fn updatef(db: &SwarmState) -> (r: String)
    requires
        store_inv(db@),
    ensures
        exists|s: Seq<MetaFile>, l: Seq<MetaFile>|
            lists(db@, s, seeding_set(db@)) && lists(db@, l, leeching_set(db@)) && r@ == "update seed ["@ + join(
                hashes(s),
                ' ',
            ) + "] leech ["@ + join(hashes(l), ' ') + "]\n"@,
{
    let seeds = get_seeding_files(db);
    let leeches = get_leeching_files(db);
    update_message(&seeds, &leeches)
}

/// The `announce` message for the store: the seeded files, the local port,
/// and the hashes of the leeched files.
pub fn announce_message(db: &SwarmState, port: u16) -> (r: String)
    requires
        store_inv(db@),
    ensures
        exists|s: Seq<MetaFile>, l: Seq<MetaFile>|
            lists(db@, s, seeding_set(db@)) && lists(db@, l, leeching_set(db@)) && r@ == "announce listen "@ + dec(
                port as nat,
            ) + " seed ["@ + join(seed_entries(s), ' ') + "] leech ["@ + join(hashes(l), ' ') + "]\r\n"@,
{
    let seeds = get_seeding_files(db);
    let leeches = get_leeching_files(db);
    let l = hash_strings(&leeches);
    seedf(seeds, crate::text::decimal(port as usize), l)
}

/// A first-in, first-out queue of tasks.
pub struct TaskQueue<T> {
    items: VecDeque<T>,
}

impl<T> TaskQueue<T> {
    pub closed spec fn view(&self) -> Seq<T> {
        self.items@
    }

    /// An empty queue.
    pub fn new() -> (r: TaskQueue<T>)
        ensures
            r.view().len() == 0,
    {
        TaskQueue { items: VecDeque::new() }
    }

    /// How many tasks wait.
    pub fn len(&self) -> (r: usize)
        ensures
            r == self.view().len(),
    {
        self.items.len()
    }

    /// Queues `task` last.
    pub fn add_task(&mut self, task: T)
        ensures
            final(self).view() == old(self).view().push(task),
    {
        self.items.push_back(task);
    }

    /// Takes the task that has waited longest.
    pub fn next_task(&mut self) -> (r: Option<T>)
        ensures
            old(self).view().len() == 0 ==> r is None && final(self).view() == old(self).view(),
            old(self).view().len() > 0 ==> r == Some(old(self).view()[0]) && final(self).view() == old(
                self,
            ).view().drop_first(),
    {
        self.items.pop_front()
    }
}

/// The keys of the peers of file `k` other than the local peer.
pub open spec fn other_peers_of(v: StoreView, k: Seq<char>) -> Set<Seq<char>> {
    maps_of(v, k).dom().filter(|q: Seq<char>| split_peer_key(q) is Some && split_peer_key(q) != Some(v.me))
}

/// The peers of file `key` other than the local peer, once each and in some order.
pub fn other_peers(db: &SwarmState, key: String) -> (r: Vec<PeerConfig>)
    ensures
        peer_keys(r@).no_duplicates(),
        peer_keys(r@).to_set() == other_peers_of(db@, key@),
        forall|i: int| 0 <= i < r@.len() ==> split_peer_key(#[trigger] peer_keys(r@)[i]) == Some(r@[i]@),
{
    let ghost k = key@;
    let ps = get_peers_from_file(db, key);
    let me = db.me();
    let ghost pk = peer_keys(ps@);
    let ghost pred = |q: Seq<char>| split_peer_key(q) != Some(me@);
    let mut out: Vec<PeerConfig> = Vec::new();
    assert(peer_keys(out@) =~= Seq::<Seq<char>>::empty());
    assert(pk.take(0).to_set().filter(pred) =~= Set::<Seq<char>>::empty());
    let mut j: usize = 0;
    while j < ps.len()
        invariant
            j <= ps@.len(),
            pk == peer_keys(ps@),
            me@ == db@.me,
            pk.no_duplicates(),
            forall|i: int| 0 <= i < ps@.len() ==> split_peer_key(#[trigger] pk[i]) == Some(ps@[i]@),
            pred == (|q: Seq<char>| split_peer_key(q) != Some(me@)),
            peer_keys(out@).no_duplicates(),
            peer_keys(out@).to_set() == pk.take(j as int).to_set().filter(pred),
            forall|i: int| 0 <= i < out@.len() ==> split_peer_key(#[trigger] peer_keys(out@)[i]) == Some(out@[i]@),
        decreases ps@.len() - j,
    {
        let p = &ps[j];
        let ghost kj = pk[j as int];
        assert(kj == peer_key(p@));
        assert(pk.take(j + 1) == pk.take(j as int).push(kj));
        proof {
            lemma_push_to_set(pk.take(j as int), kj);
        }
        let same = p.address.eq(&me.address) && p.port == me.port;
        assert(same == (p@ == me@));
        if !same {
            let ghost before = out@;
            out.push(p.duplicate());
            assert(peer_keys(out@) =~= peer_keys(before).push(kj));
            assert(!peer_keys(before).contains(kj)) by {
                if peer_keys(before).contains(kj) {
                    let q = choose|q: int| 0 <= q < peer_keys(before).len() && peer_keys(before)[q] == kj;
                    assert(peer_keys(before).to_set().contains(kj));
                    assert(pk.take(j as int).to_set().contains(kj));
                    let w = choose|w: int| 0 <= w < j && pk.take(j as int)[w] == kj;
                    assert(pk[w] == pk[j as int]);
                }
            }
            assert forall|a: int, b: int|
                0 <= a < peer_keys(out@).len() && 0 <= b < peer_keys(out@).len() && a != b implies peer_keys(
                out@,
            )[a] != peer_keys(out@)[b] by {
                if a < before.len() && b < before.len() {
                } else if a < before.len() {
                    assert(peer_keys(before)[a] == peer_keys(out@)[a]);
                } else {
                    assert(peer_keys(before)[b] == peer_keys(out@)[b]);
                }
            }
            proof {
                lemma_push_to_set(peer_keys(before), kj);
            }
            assert(pk.take(j + 1).to_set().filter(pred) =~= pk.take(j as int).to_set().filter(pred).insert(kj));
            assert forall|i: int| 0 <= i < out@.len() implies split_peer_key(#[trigger] peer_keys(out@)[i])
                == Some(out@[i]@) by {
                if i < before.len() {
                    assert(peer_keys(out@)[i] == peer_keys(before)[i]);
                }
            }
        } else {
            assert(pk.take(j + 1).to_set().filter(pred) =~= pk.take(j as int).to_set().filter(pred));
        }
        j = j + 1;
    }
    assert(pk.take(pk.len() as int) == pk);
    assert(pk.to_set().filter(pred) =~= other_peers_of(db@, k));
    out
}

/// One round of the have broadcaster for a leeched file: the file, the
/// `have` line of its local buffermap, and the other peers to send it to.
pub struct HaveRound {
    pub key: String,
    pub message: String,
    pub peers: Vec<PeerConfig>,
}

/// What round `r` of the have broadcaster holds for leeched file `k`.
pub open spec fn round_for(v: StoreView, k: Seq<char>, r: HaveRound) -> bool {
    &&& r.key@ == k
    &&& r.message@ == "have "@ + k + " "@ + map_text(maps_of(v, k)[my_key(v)]) + "\n"@
    &&& peer_keys(r.peers@).no_duplicates()
    &&& peer_keys(r.peers@).to_set() == other_peers_of(v, k)
    &&& forall|j: int| 0 <= j < r.peers@.len() ==> split_peer_key(#[trigger] peer_keys(r.peers@)[j]) == Some(r.peers@[j]@)
}

/// The rounds of the have broadcaster: one per leeched file.
pub fn have_rounds(db: &SwarmState) -> (r: Vec<HaveRound>)
    requires
        store_inv(db@),
    ensures
        exists|l: Seq<MetaFile>|
            lists(db@, l, leeching_set(db@)) && r@.len() == l.len() && forall|i: int|
                0 <= i < r@.len() ==> round_for(db@, #[trigger] l[i].hash@, r@[i]),
{
    let files = get_leeching_files(db);
    let mk = get_peer_key(db.me());
    let mut rounds: Vec<HaveRound> = Vec::new();
    let mut i: usize = 0;
    while i < files.len()
        invariant
            i <= files@.len(),
            lists(db@, files@, leeching_set(db@)),
            mk@ == my_key(db@),
            rounds@.len() == i,
            forall|q: int| 0 <= q < i ==> round_for(db@, #[trigger] files@[q].hash@, rounds@[q]),
        decreases files@.len() - i,
    {
        let f = &files[i];
        assert(crate::store::hashes(files@)[i as int] == f.hash@);
        assert(crate::store::hashes(files@).to_set().contains(f.hash@));
        assert(leeching_set(db@).contains(f.hash@));
        let local = match lookup_buffermap(db, f.hash.as_str(), mk.as_str()) {
            Some(m) => m,
            None => {
                assert(false);
                Vec::new()
            },
        };
        let message = havef(f.hash.clone(), local);
        let peers = other_peers(db, f.hash.clone());
        let ghost before = rounds@;
        rounds.push(HaveRound { key: f.hash.clone(), message, peers });
        assert forall|q: int| 0 <= q < i + 1 implies round_for(db@, #[trigger] files@[q].hash@, rounds@[q]) by {
            if q < i {
                assert(rounds@[q] == before[q]);
            }
        }
        i = i + 1;
    }
    assert(lists(db@, files@, leeching_set(db@)) && rounds@.len() == files@.len());
    rounds
}

/// What the reply to a download round's `getpieces` asks of the round.
pub enum RoundReply {
    /// Pieces came: write them, give back the reservation of each requested
    /// piece that did not, and go on.
    Pieces(Vec<(usize, Vec<u8>)>),
    /// No `data` line came: give back every reservation and go on.
    Nothing,
    /// A `data` line that cannot be read: end this download loop.
    Abort,
}

/// Reads the reply to a download round's `getpieces`.
pub fn round_reply(answer: &str) -> (r: RoundReply)
    ensures
        !(answer@.len() >= 5 && answer@.take(5) == "data "@) ==> r is Nothing,
        answer@.len() >= 5 && answer@.take(5) == "data "@ && crate::parser::data_spec(trim(answer@)) is None
            ==> r is Abort,
        answer@.len() >= 5 && answer@.take(5) == "data "@ ==> match crate::parser::data_spec(trim(answer@)) {
            Some((_, p)) => r matches RoundReply::Pieces(v) && crate::parser::pieces_view(v@) == p,
            None => r is Abort,
        },
{
    match crate::answers::ExpectData.check_answer(answer) {
        Ok(a) => match crate::answers::ExpectData.retrieve_data(a.as_str()) {
            crate::answers::Answer::Data(v) => RoundReply::Pieces(v),
            _ => RoundReply::Abort,
        },
        Err(crate::answers::AnswerError::InvalidInput) => RoundReply::Nothing,
        Err(_) => RoundReply::Abort,
    }
}

} // verus!
