//! Rarest-first piece selection with local reservation.
use vstd::prelude::*;
use crate::meta::{get_peer_key, peer_key};
use crate::store::{
    file_maps, filled, lemma_push_to_set, lookup_buffermap, map_fits, maps_of, my_key, set_buffermap,
    store_inv, with_map, StoreView, SwarmState,
};

verus! {

/// Peer map `m` and the target's map `remote` both hold index `i`.
pub open spec fn contributes(m: Seq<u8>, remote: Seq<u8>, i: int) -> bool {
    0 <= i < m.len() && 0 <= i < remote.len() && m[i] as int + remote[i] as int == 2
}

/// The peers other than `target` that hold index `i` together with it.
pub open spec fn supporters(t: Map<Seq<char>, Seq<u8>>, target: Seq<char>, i: int) -> Set<Seq<char>> {
    t.dom().filter(|p: Seq<char>| p != target && contributes(t[p], t[target], i))
}

/// How common index `i` is among the peers that hold it with `target`; lower is rarer.
pub open spec fn score(t: Map<Seq<char>, Seq<u8>>, target: Seq<char>, i: int) -> nat {
    supporters(t, target, i).len()
}

/// Index `a` is picked before index `b`: a lower score, or an equal score and a lower index.
pub open spec fn ranks_before(t: Map<Seq<char>, Seq<u8>>, target: Seq<char>, a: int, b: int) -> bool {
    score(t, target, a) < score(t, target, b) || (score(t, target, a) == score(t, target, b) && a < b)
}

/// The number of zero entries of `m`.
pub open spec fn zeros(m: Seq<u8>) -> nat
    decreases m.len(),
{
    if m.len() == 0 {
        0
    } else {
        zeros(m.drop_last()) + if m.last() == 0 {
            1nat
        } else {
            0nat
        }
    }
}

/// The local buffermap that a selection for `target` starts from: the stored
/// one, or zeros as long as the target's.
pub open spec fn local_before(v: StoreView, f: Seq<char>, target: Seq<char>) -> Seq<u8> {
    if maps_of(v, f).contains_key(my_key(v)) {
        maps_of(v, f)[my_key(v)]
    } else {
        filled(maps_of(v, f)[target].len() as int, 0)
    }
}

/// `m` with the indices of `r` set to one.
pub open spec fn reserved(m: Seq<u8>, r: Seq<usize>) -> Seq<u8> {
    Seq::new(m.len(), |i: int| if r.contains(i as usize) { 1u8 } else { m[i] })
}

/// A selection can be made from `target` for file `f`: it is another peer
/// with a buffermap of the file.
pub open spec fn can_select(v: StoreView, f: Seq<char>, target: Seq<char>) -> bool {
    target != my_key(v) && maps_of(v, f).contains_key(target)
}

pub open spec fn min_nat(a: nat, b: nat) -> nat {
    if a < b { a } else { b }
}

proof fn lemma_zeros_update(m: Seq<u8>, c: int)
    requires
        0 <= c < m.len(),
        m[c] == 0,
    ensures
        zeros(m.update(c, 1)) + 1 == zeros(m),
    decreases m.len(),
{
    let u = m.update(c, 1);
    if c == m.len() - 1 {
        assert(u.drop_last() == m.drop_last());
    } else {
        lemma_zeros_update(m.drop_last(), c);
        assert(u.drop_last() == m.drop_last().update(c, 1));
    }
}

proof fn lemma_zeros_exist(m: Seq<u8>)
    requires
        zeros(m) > 0,
    ensures
        exists|i: int| 0 <= i < m.len() && m[i] == 0,
    decreases m.len(),
{
    if m.last() != 0 {
        lemma_zeros_exist(m.drop_last());
        let i = choose|i: int| 0 <= i < m.drop_last().len() && m.drop_last()[i] == 0;
        assert(m[i] == 0);
    } else {
        assert(m[m.len() - 1] == 0);
    }
}

proof fn lemma_filter_insert_len(s: Set<Seq<char>>, k: Seq<char>, p: spec_fn(Seq<char>) -> bool)
    requires
        s.finite(),
        !s.contains(k),
    ensures
        s.insert(k).filter(p).len() == s.filter(p).len() + if p(k) {
            1nat
        } else {
            0nat
        },
{
    broadcast use vstd::set::group_set_axioms;
    if p(k) {
        assert(s.insert(k).filter(p) =~= s.filter(p).insert(k));
    } else {
        assert(s.insert(k).filter(p) =~= s.filter(p));
    }
}

fn count_zeros(m: &Vec<u8>) -> (r: usize)
    ensures
        r == zeros(m@),
{
    let mut cnt: usize = 0;
    let mut i: usize = 0;
    while i < m.len()
        invariant
            i <= m@.len(),
            cnt == zeros(m@.take(i as int)),
            cnt <= i,
        decreases m@.len() - i,
    {
        assert(m@.take(i + 1).drop_last() == m@.take(i as int));
        if m[i] == 0 {
            cnt = cnt + 1;
        }
        i = i + 1;
    }
    assert(m@.take(m@.len() as int) == m@);
    cnt
}

/// The scores of the indices of a map of length `len`, counted over `pairs`.
fn scores_of(pairs: &Vec<(String, Vec<u8>)>, target: &String, remote: &Vec<u8>, len: usize, t: Ghost<
    Map<Seq<char>, Seq<u8>>,
>) -> (r: Vec<usize>)
    requires
        pairs@.map_values(|e: (String, Vec<u8>)| e.0@).no_duplicates(),
        pairs@.map_values(|e: (String, Vec<u8>)| e.0@).to_set() == t@.dom(),
        forall|i: int| #![trigger pairs@[i]]
            0 <= i < pairs@.len() ==> t@.contains_key(pairs@[i].0@) && t@[pairs@[i].0@] == pairs@[i].1@,
        t@.contains_key(target@),
        t@[target@] == remote@,
    ensures
        r@.len() == len,
        forall|i: int| 0 <= i < len ==> r@[i] == score(t@, target@, i),
{
    let ghost ks = pairs@.map_values(|e: (String, Vec<u8>)| e.0@);
    let mut scores: Vec<usize> = Vec::new();
    let mut i: usize = 0;
    while i < len
        invariant
            i <= len,
            scores@.len() == i,
            forall|x: int| 0 <= x < i ==> scores@[x] == 0,
        decreases len - i,
    {
        scores.push(0);
        i = i + 1;
    }
    let mut j: usize = 0;
    proof {
        assert forall|x: int| 0 <= x < len implies scores@[x] == ks.take(0).to_set().filter(
            |p: Seq<char>| p != target@ && contributes(t@[p], t@[target@], x),
        ).len() by {
            assert(ks.take(0).to_set() =~= Set::<Seq<char>>::empty());
            assert(ks.take(0).to_set().filter(|p: Seq<char>| p != target@ && contributes(t@[p], t@[target@], x))
                =~= Set::<Seq<char>>::empty());
        }
    }
    while j < pairs.len()
        invariant
            j <= pairs@.len(),
            ks == pairs@.map_values(|e: (String, Vec<u8>)| e.0@),
            ks.no_duplicates(),
            ks.to_set() == t@.dom(),
            forall|i: int| #![trigger pairs@[i]]
                0 <= i < pairs@.len() ==> t@.contains_key(pairs@[i].0@) && t@[pairs@[i].0@] == pairs@[i].1@,
            t@[target@] == remote@,
            scores@.len() == len,
            forall|x: int| 0 <= x < len ==> scores@[x] <= j,
            forall|x: int| 0 <= x < len ==> scores@[x] == ks.take(j as int).to_set().filter(
                |p: Seq<char>| p != target@ && contributes(t@[p], t@[target@], x),
            ).len(),
        decreases pairs@.len() - j,
    {
        let k = &pairs[j].0;
        let m = &pairs[j].1;
        let ghost kj = ks[j as int];
        assert(kj == k@);
        assert(t@[k@] == m@);
        let is_target = k.eq(target);
        let ghost before = scores@;
        let mut i: usize = 0;
        while i < len
            invariant
                i <= len,
                j < pairs.len(),
                scores@.len() == len,
                before.len() == len,
                forall|x: int| 0 <= x < len ==> before[x] <= j,
                forall|x: int| i <= x < len ==> scores@[x] == before[x],
                forall|x: int| 0 <= x < i ==> scores@[x] == before[x] + if !is_target && contributes(
                    m@,
                    remote@,
                    x,
                ) {
                    1int
                } else {
                    0int
                },
            decreases len - i,
        {
            if !is_target && i < m.len() && i < remote.len() && (m[i] as u16 + remote[i] as u16) == 2 {
                assert(scores@[i as int] == before[i as int]);
                assert(before[i as int] <= j);
                scores.set(i, scores[i] + 1);
            }
            i = i + 1;
        }
        proof {
            assert(ks.take(j + 1) == ks.take(j as int).push(kj));
            lemma_push_to_set(ks.take(j as int), kj);
            assert(!ks.take(j as int).to_set().contains(kj)) by {
                if ks.take(j as int).contains(kj) {
                    let q = choose|q: int| 0 <= q < j && ks.take(j as int)[q] == kj;
                    assert(ks[q] == ks[j as int]);
                }
            }
            assert(is_target == (kj == target@));
            assert forall|x: int| 0 <= x < len implies scores@[x] == ks.take(j + 1).to_set().filter(
                |p: Seq<char>| p != target@ && contributes(t@[p], t@[target@], x),
            ).len() by {
                lemma_filter_insert_len(
                    ks.take(j as int).to_set(),
                    kj,
                    |p: Seq<char>| p != target@ && contributes(t@[p], t@[target@], x),
                );
            }
        }
        j = j + 1;
    }
    proof {
        assert(ks.take(ks.len() as int) == ks);
        assert forall|x: int| 0 <= x < len implies scores@[x] == score(t@, target@, x) by {
            assert(ks.take(ks.len() as int).to_set().filter(
                |p: Seq<char>| p != target@ && contributes(t@[p], t@[target@], x),
            ) == supporters(t@, target@, x));
        }
    }
    scores
}

/// Picks up to `nb_pieces` indices of file `file_key` to request from peer
/// `peer_key`: among the indices the local peer lacks, those of lowest score,
/// ties going to the lower index, in that order. They are reserved (set to one
/// in the local buffermap) before the call returns. Nothing is picked, and
/// nothing changes, where `peer_key` is the local peer or has no buffermap of
/// the file.
pub fn get_wanted_piece_from_peer(db: &mut SwarmState, peer_key: &String, file_key: &String, nb_pieces: usize) -> (r:
    Vec<usize>)
    requires
        store_inv(old(db)@),
    ensures
        store_inv(final(db)@),
        !can_select(old(db)@, file_key@, peer_key@) ==> r@.len() == 0 && final(db)@ == old(db)@,
        can_select(old(db)@, file_key@, peer_key@) ==> ({
            let m = local_before(old(db)@, file_key@, peer_key@);
            let t = maps_of(old(db)@, file_key@);
            &&& r@.len() == min_nat(nb_pieces as nat, zeros(m))
            &&& r@.no_duplicates()
            &&& forall|k: int| 0 <= k < r@.len() ==> #[trigger] r@[k] < m.len() && m[r@[k] as int] == 0
            &&& final(db)@ == with_map(old(db)@, file_key@, my_key(old(db)@), reserved(m, r@))
            &&& forall|k: int| 0 <= k < r@.len() ==> reserved(m, r@)[#[trigger] r@[k] as int] == 1
            &&& forall|q: int, b: int|
                #![trigger r@[q], m[b]]
                0 <= q < r@.len() && 0 <= b < m.len() && m[b] == 0 && !r@.contains(b as usize) ==> ranks_before(
                    t,
                    peer_key@,
                    r@[q] as int,
                    b,
                )
            &&& forall|k: int, l: int| 0 <= k < l < r@.len() ==> ranks_before(t, peer_key@, #[trigger] r@[k] as int, #[trigger] r@[l] as int)
        }),
{
    let ghost v = db@;
    let ghost f = file_key@;
    let ghost t = maps_of(v, f);
    let me_key = get_peer_key(db.me());
    if me_key.eq(peer_key) {
        return Vec::new();
    }
    let remote = match lookup_buffermap(db, file_key.as_str(), peer_key.as_str()) {
        Some(m) => m,
        None => {
            return Vec::new();
        },
    };
    let local = match lookup_buffermap(db, file_key.as_str(), me_key.as_str()) {
        Some(m) => m,
        None => crate::store::zeros_vec(remote.len()),
    };
    let ghost m = local@;
    assert(m == local_before(v, f, peer_key@));
    let len = local.len();
    let pairs = file_maps(db, file_key.as_str());
    let scores = scores_of(&pairs, peer_key, &remote, len, Ghost(t));
    let remaining = count_zeros(&local);
    let n = if nb_pieces < remaining {
        nb_pieces
    } else {
        remaining
    };
    let mut cur = local;
    let mut r: Vec<usize> = Vec::new();
    assert(cur@ =~= reserved(m, r@));
    let mut k: usize = 0;
    while k < n
        invariant
            k <= n,
            n == min_nat(nb_pieces as nat, zeros(m)),
            len == m.len(),
            cur@.len() == len,
            scores@.len() == len,
            forall|i: int| 0 <= i < len ==> scores@[i] == score(t, peer_key@, i),
            r@.len() == k,
            r@.no_duplicates(),
            forall|q: int| 0 <= q < r@.len() ==> #[trigger] r@[q] < len && m[r@[q] as int] == 0,
            cur@ == reserved(m, r@),
            zeros(cur@) + k == zeros(m),
            forall|q: int, b: int|
                #![trigger r@[q], cur@[b]]
                0 <= q < r@.len() && 0 <= b < len && cur@[b] == 0 ==> ranks_before(t, peer_key@, r@[q] as int, b),
            forall|q: int, l: int| 0 <= q < l < r@.len() ==> ranks_before(t, peer_key@, #[trigger] r@[q] as int, #[trigger] r@[l] as int),
        decreases n - k,
    {
        proof {
            lemma_zeros_exist(cur@);
        }
        let mut found = false;
        let mut best: usize = 0;
        let mut i: usize = 0;
        while i < len
            invariant
                i <= len,
                len == cur@.len(),
                scores@.len() == len,
                forall|x: int| 0 <= x < len ==> scores@[x] == score(t, peer_key@, x),
                found ==> best < i && cur@[best as int] == 0,
                found ==> forall|x: int| 0 <= x < i && cur@[x] == 0 && x != best ==> ranks_before(t, peer_key@, best as int, x),
                !found ==> forall|x: int| 0 <= x < i ==> cur@[x] != 0,
            decreases len - i,
        {
            if cur[i] == 0 {
                if !found || scores[i] < scores[best] {
                    found = true;
                    best = i;
                }
            }
            i = i + 1;
        }
        assert(found);
        let ghost old_cur = cur@;
        let ghost old_r = r@;
        cur.set(best, 1);
        r.push(best);
        proof {
            lemma_zeros_update(old_cur, best as int);
            assert(!old_r.contains(best)) by {
                if old_r.contains(best) {
                    let q = choose|q: int| 0 <= q < old_r.len() && old_r[q] == best;
                    assert(old_cur[best as int] == 1);
                }
            }
            assert(cur@ =~= reserved(m, r@)) by {
                assert forall|i: int| 0 <= i < len implies cur@[i] == reserved(m, r@)[i] by {
                    if i == best {
                        assert(r@[old_r.len() as int] == best);
                    } else {
                        assert(r@.contains(i as usize) == old_r.contains(i as usize)) by {
                            if r@.contains(i as usize) {
                                let q = choose|q: int| 0 <= q < r@.len() && r@[q] == i as usize;
                                assert(q < old_r.len());
                                assert(old_r[q] == i as usize);
                            }
                            if old_r.contains(i as usize) {
                                let q = choose|q: int| 0 <= q < old_r.len() && old_r[q] == i as usize;
                                assert(r@[q] == i as usize);
                            }
                        }
                    }
                }
            }
            assert forall|q: int, b: int|
                #![trigger r@[q], cur@[b]]
                0 <= q < r@.len() && 0 <= b < len && cur@[b] == 0 implies ranks_before(t, peer_key@, r@[q] as int, b) by {
                assert(b != best);
                assert(old_cur[b] == 0);
                if q < old_r.len() {
                    assert(old_r[q] == r@[q]);
                } else {
                    assert(r@[q] == best);
                }
            }
            assert forall|q: int, l: int| 0 <= q < l < r@.len() implies ranks_before(t, peer_key@, #[trigger] r@[q] as int, #[trigger] r@[l] as int) by {
                if l == old_r.len() {
                    assert(old_r[q] == r@[q]);
                    assert(old_cur[best as int] == 0);
                    assert(r@[l] == best);
                } else {
                    assert(old_r[q] == r@[q] && old_r[l] == r@[l]);
                }
            }
        }
        k = k + 1;
    }
    proof {
        assert forall|q: int, b: int|
            #![trigger r@[q], m[b]]
            0 <= q < r@.len() && 0 <= b < m.len() && m[b] == 0 && !r@.contains(b as usize) implies ranks_before(
                t,
                peer_key@,
                r@[q] as int,
                b,
            ) by {
            assert(cur@[b] == reserved(m, r@)[b]);
        }
        assert(map_fits(v, f, my_key(v), cur@)) by {
            if v.files.contains_key(f) {
                if !t.contains_key(my_key(v)) {
                    assert(t.contains_key(peer_key@));
                }
            }
        }
    }
    let _ = set_buffermap(db, file_key.clone(), me_key, cur);
    r
}

} // verus!
