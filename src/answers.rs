//! Checking and reading the one-line answers that the tracker and other
//! peers send back.
use vstd::prelude::*;
use crate::meta::{u16_of, MetaFile, MetaFileView, PeerConfig, PeerView};
use crate::parser::{
    after_verb, bracket_bounds, bracketed, data_of, data_spec, key_and_rest, key_end,
    pieces_view, string_of, trimmed, verb_at_start, Data,
};
use crate::text::{
    chars_of, find, find_char, is_alnum, is_trim, lemma_find, parse_usize, slice, split_chars, split_on, trim,
    usize_of, views,
};

verus! {

/// Why an answer was refused.
#[derive(Debug, Clone, Copy, PartialEq, Eq)]
pub enum AnswerError {
    /// Not the answer that was expected.
    BadAnswer,
    /// Not a `data` line at all: no data came this round.
    InvalidInput,
    /// A `data` line that cannot be read.
    Malformed,
}

/// A peer that holds a file, as the tracker lists it.
#[derive(Debug, Clone)]
pub struct Peer {
    pub hash: String,
    pub length_tcp: usize,
    pub config: PeerConfig,
}

/// What an answer carries.
#[derive(Debug, Clone)]
pub enum Answer {
    /// The tracker took the request.
    Accepted,
    List(Vec<MetaFile>),
    Peers(Vec<Peer>),
    Data(Vec<(usize, Vec<u8>)>),
}

/// Expects `ok`.
pub struct ExpectOk;

/// Expects `list [{name} {length} {piece size} {hash} ...]`.
pub struct ExpectList;

/// Expects `peers {key} [{address}:{port} ...]`.
pub struct ExpectPeers;

/// Expects `data {key} [{index}:{base64} ...]`.
pub struct ExpectData;

/// The first line of `s`, without its line end (`\n` or `\r\n`).
pub open spec fn first_line(s: Seq<char>) -> Seq<char> {
    let l = s.take(find(s, '\n') as int);
    if l.len() > 0 && l.last() == '\r' {
        l.drop_last()
    } else {
        l
    }
}

pub open spec fn accepted_text() -> Seq<char> {
    "Correct tracker answer"@
}

fn accepted() -> (r: String)
    ensures
        r@ == accepted_text(),
{
    let mut s = String::new();
    s.append("Correct tracker answer");
    s
}

fn first_line_of(answer: &str) -> (r: Vec<char>)
    ensures
        r@ == first_line(answer@),
{
    let cs = chars_of(answer);
    assert(cs@.subrange(0, cs@.len() as int) == cs@);
    proof {
        lemma_find(cs@, '\n');
    }
    let i = find_char(&cs, 0, cs.len(), '\n');
    let hi = if i > 0 && cs[i - 1] == '\r' {
        i - 1
    } else {
        i
    };
    let r = slice(&cs, 0, hi);
    assert(cs@.take(i as int) == cs@.subrange(0, i as int));
    assert(r@ =~= first_line(cs@));
    r
}

impl ExpectOk {
    /// Accepts an answer whose first line is `ok`.
    pub fn check_answer(&self, answer: &str) -> (r: Result<String, AnswerError>)
        ensures
            first_line(answer@) == "ok"@ ==> (r matches Ok(s) && s@ == accepted_text()),
            first_line(answer@) != "ok"@ ==> r == Err::<String, AnswerError>(AnswerError::BadAnswer),
    {
        let l = first_line_of(answer);
        let ok = chars_of("ok");
        proof {
            reveal_strlit("ok");
        }
        if l.len() == 2 && has_prefix(&l, &ok) {
            assert(l@ =~= "ok"@);
            Ok(accepted())
        } else {
            assert(l@ != "ok"@) by {
                if l@ == "ok"@ {
                    assert(l@.take(2) =~= l@);
                }
            }
            Err(AnswerError::BadAnswer)
        }
    }

    /// The content of an `ok` answer.
    pub fn retrieve_data(&self, _answer: &str) -> (r: Answer)
        ensures
            r is Accepted,
    {
        Answer::Accepted
    }
}

fn has_prefix(v: &Vec<char>, p: &Vec<char>) -> (r: bool)
    ensures
        r == (p@.len() <= v@.len() && v@.take(p@.len() as int) == p@),
{
    let r = crate::text::has_prefix_at(v, 0, p);
    assert(p@.len() <= v@.len() ==> v@.subrange(0, p@.len() as int) == v@.take(p@.len() as int));
    r
}

/// A file name token: non-empty, with no blank in it.
pub open spec fn name_ok(s: Seq<char>) -> bool {
    s.len() > 0 && forall|i: int| 0 <= i < s.len() ==> !is_trim(#[trigger] s[i])
}

/// A hash token: non-empty, of letters, digits and `_`.
pub open spec fn word_ok(s: Seq<char>) -> bool {
    s.len() > 0 && forall|i: int| 0 <= i < s.len() ==> is_alnum(#[trigger] s[i]) || s[i] == '_'
}

/// A listed file: `{name} {length} {piece size} {hash}`.
pub open spec fn entry_of(name: Seq<char>, len: Seq<char>, piece: Seq<char>, hash: Seq<char>) -> Option<MetaFileView> {
    if name_ok(name) && word_ok(hash) {
        match (usize_of(len), usize_of(piece)) {
            (Some(l), Some(p)) => Some(MetaFileView { file_name: name, length: l, piece_size: p, hash }),
            _ => None,
        }
    } else {
        None
    }
}

/// The files that a run of tokens lists, four tokens each.
pub open spec fn entries_of(ts: Seq<Seq<char>>) -> Option<Seq<MetaFileView>>
    decreases ts.len(),
{
    if ts.len() == 0 {
        Some(Seq::<MetaFileView>::empty())
    } else if ts.len() < 4 {
        None
    } else {
        let n = ts.len() as int;
        match (entries_of(ts.take(n - 4)), entry_of(ts[n - 4], ts[n - 3], ts[n - 2], ts[n - 1])) {
            (Some(v), Some(e)) => Some(v.push(e)),
            _ => None,
        }
    }
}

/// The tokens of a `list` line: `list [` then space-separated tokens, a space
/// allowed before and after the closing `]`.
pub open spec fn list_tokens(l: Seq<char>) -> Option<Seq<Seq<char>>> {
    match after_verb(l, "list ["@) {
        None => None,
        Some(rest) => {
            let r2 = if rest.len() > 0 && rest.last() == ' ' {
                rest.drop_last()
            } else {
                rest
            };
            if r2.len() > 0 && r2.last() == ']' {
                let body = r2.drop_last();
                if body.len() == 0 {
                    Some(Seq::<Seq<char>>::empty())
                } else {
                    let ts = split_on(body, ' ');
                    if ts.last().len() == 0 {
                        Some(ts.drop_last())
                    } else {
                        Some(ts)
                    }
                }
            } else {
                None
            }
        },
    }
}

/// The files that a `list` answer lists, where its first line is one.
pub open spec fn list_spec(answer: Seq<char>) -> Option<Seq<MetaFileView>> {
    match list_tokens(first_line(answer)) {
        Some(ts) => entries_of(ts),
        None => None,
    }
}

/// `v` without the files whose hash an earlier file has.
pub open spec fn dedup(v: Seq<MetaFileView>) -> Seq<MetaFileView>
    decreases v.len(),
{
    if v.len() == 0 {
        v
    } else {
        let d = dedup(v.drop_last());
        if exists|i: int| 0 <= i < d.len() && d[i].hash == v.last().hash {
            d
        } else {
            d.push(v.last())
        }
    }
}

pub open spec fn metas(v: Seq<MetaFile>) -> Seq<MetaFileView> {
    v.map_values(|m: MetaFile| m@)
}

fn token_name_ok(t: &Vec<char>) -> (r: bool)
    ensures
        r == name_ok(t@),
{
    if t.len() == 0 {
        return false;
    }
    let mut i: usize = 0;
    while i < t.len()
        invariant
            i <= t@.len(),
            forall|j: int| 0 <= j < i ==> !is_trim(#[trigger] t@[j]),
        decreases t@.len() - i,
    {
        let c = t[i];
        if c == ' ' || c == '\t' || c == '\n' || c == '\r' || c == '\x0B' || c == '\x0C' || c == '\0' {
            return false;
        }
        i = i + 1;
    }
    true
}

fn token_word_ok(t: &Vec<char>) -> (r: bool)
    ensures
        r == word_ok(t@),
{
    if t.len() == 0 {
        return false;
    }
    let mut i: usize = 0;
    while i < t.len()
        invariant
            i <= t@.len(),
            forall|j: int| 0 <= j < i ==> is_alnum(#[trigger] t@[j]) || t@[j] == '_',
        decreases t@.len() - i,
    {
        let c = t[i];
        if !(('0' <= c && c <= '9') || ('a' <= c && c <= 'z') || ('A' <= c && c <= 'Z') || c == '_') {
            return false;
        }
        i = i + 1;
    }
    true
}

fn entry_at(ts: &Vec<Vec<char>>, at: usize) -> (r: Option<MetaFile>)
    requires
        at + 4 <= ts.len(),
    ensures
        match r {
            Some(m) => entry_of(ts@[at as int]@, ts@[at + 1]@, ts@[at + 2]@, ts@[at + 3]@) == Some(m@),
            None => entry_of(ts@[at as int]@, ts@[at + 1]@, ts@[at + 2]@, ts@[at + 3]@) is None,
        },
{
    let name = &ts[at];
    let len = &ts[at + 1];
    let piece = &ts[at + 2];
    let hash = &ts[at + 3];
    if !token_name_ok(name) || !token_word_ok(hash) {
        return None;
    }
    assert(len@.subrange(0, len@.len() as int) == len@);
    assert(piece@.subrange(0, piece@.len() as int) == piece@);
    assert(name@.subrange(0, name@.len() as int) == name@);
    assert(hash@.subrange(0, hash@.len() as int) == hash@);
    match (parse_usize(len, 0, len.len()), parse_usize(piece, 0, piece.len())) {
        (Some(l), Some(p)) => Some(
            MetaFile {
                file_name: string_of(name, 0, name.len()),
                length: l,
                piece_size: p,
                hash: string_of(hash, 0, hash.len()),
            },
        ),
        _ => None,
    }
}

proof fn lemma_entries_prefix(ts: Seq<Seq<char>>, g: int)
    requires
        0 <= 4 * g <= ts.len(),
        ts.len() % 4 == 0,
        entries_of(ts.take(4 * g)) is None,
    ensures
        entries_of(ts) is None,
    decreases ts.len() - 4 * g,
{
    if 4 * g < ts.len() {
        assert(ts.take(4 * g + 4).take(4 * g) == ts.take(4 * g));
        assert(entries_of(ts.take(4 * (g + 1))) is None);
        lemma_entries_prefix(ts, g + 1);
    } else {
        assert(ts.take(4 * g) == ts);
    }
}

proof fn lemma_entries_len(ts: Seq<Seq<char>>)
    requires
        entries_of(ts) is Some,
    ensures
        ts.len() % 4 == 0,
    decreases ts.len(),
{
    if ts.len() > 0 {
        lemma_entries_len(ts.take(ts.len() - 4));
    }
}

/// The files listed by the tokens `ts[0..n]`.
fn entries_at(ts: &Vec<Vec<char>>, n: usize) -> (r: Option<Vec<MetaFile>>)
    requires
        n <= ts@.len(),
    ensures
        match r {
            Some(v) => entries_of(views(ts@).take(n as int)) == Some(metas(v@)),
            None => entries_of(views(ts@).take(n as int)) is None,
        },
{
    let ghost tv = views(ts@).take(n as int);
    if n % 4 != 0 {
        proof {
            if entries_of(tv) is Some {
                lemma_entries_len(tv);
            }
        }
        return None;
    }
    let mut v: Vec<MetaFile> = Vec::new();
    let mut g: usize = 0;
    assert(tv.take(0) =~= Seq::<Seq<char>>::empty());
    assert(metas(v@) =~= Seq::<MetaFileView>::empty());
    while g < n / 4
        invariant
            n % 4 == 0,
            n <= ts@.len(),
            g <= n / 4,
            tv == views(ts@).take(n as int),
            entries_of(tv.take(4 * g)) == Some(metas(v@)),
        decreases n / 4 - g,
    {
        let ghost t4 = tv.take(4 * g + 4);
        assert(t4.take(4 * g) == tv.take(4 * g));
        assert(t4[4 * g as int] == ts@[4 * g as int]@);
        assert(t4[4 * g + 1] == ts@[4 * g + 1]@);
        assert(t4[4 * g + 2] == ts@[4 * g + 2]@);
        assert(t4[4 * g + 3] == ts@[4 * g + 3]@);
        assert(4 * g + 4 <= n);
        match entry_at(ts, 4 * g) {
            Some(m) => {
                let ghost before = v@;
                v.push(m);
                assert(metas(v@) =~= metas(before).push(m@));
            },
            None => {
                assert(entries_of(t4) is None);
                proof {
                    assert(tv.len() % 4 == 0);
                    lemma_entries_prefix(tv, g + 1);
                }
                return None;
            },
        }
        g = g + 1;
    }
    assert(tv.take(4 * g) == tv);
    Some(v)
}

fn list_entries(answer: &str) -> (r: Option<Vec<MetaFile>>)
    ensures
        match r {
            Some(v) => list_spec(answer@) == Some(metas(v@)),
            None => list_spec(answer@) is None,
        },
{
    let l = first_line_of(answer);
    proof {
        reveal_strlit("list [");
    }
    if !verb_at_start(&l, "list [") {
        return None;
    }
    let mut hi = l.len();
    if hi > 6 && l[hi - 1] == ' ' {
        hi = hi - 1;
    }
    let ghost rest = l@.skip(6);
    let ghost r2 = if rest.len() > 0 && rest.last() == ' ' {
        rest.drop_last()
    } else {
        rest
    };
    assert(r2 =~= l@.subrange(6, hi as int));
    if !(hi > 6 && l[hi - 1] == ']') {
        return None;
    }
    let body_hi = hi - 1;
    assert(r2.drop_last() =~= l@.subrange(6, body_hi as int));
    if body_hi == 6 {
        let v: Vec<MetaFile> = Vec::new();
        assert(metas(v@) =~= Seq::<MetaFileView>::empty());
        return Some(v);
    }
    let ts = split_chars(&l, 6, body_hi, ' ');
    let n = ts.len();
    proof {
        crate::text::lemma_split_len(l@.subrange(6, body_hi as int), ' ');
    }
    let count = if ts[n - 1].len() == 0 {
        n - 1
    } else {
        n
    };
    assert(views(ts@).last() == ts@[n - 1]@);
    assert(views(ts@).take(n as int) == views(ts@));
    assert(views(ts@).drop_last() == views(ts@).take(n - 1));
    entries_at(&ts, count)
}

fn seen_hash(res: &Vec<MetaFile>, h: &String) -> (r: bool)
    ensures
        r == exists|i: int| 0 <= i < res@.len() && res@[i]@.hash == h@,
{
    let mut i: usize = 0;
    while i < res.len()
        invariant
            i <= res@.len(),
            forall|j: int| 0 <= j < i ==> res@[j]@.hash != h@,
        decreases res@.len() - i,
    {
        if res[i].hash.eq(h) {
            return true;
        }
        i = i + 1;
    }
    false
}

fn dedup_files(v: Vec<MetaFile>) -> (r: Vec<MetaFile>)
    ensures
        metas(r@) == dedup(metas(v@)),
{
    let mut res: Vec<MetaFile> = Vec::new();
    let mut i: usize = 0;
    assert(metas(v@).take(0) =~= Seq::<MetaFileView>::empty());
    assert(metas(res@) =~= Seq::<MetaFileView>::empty());
    while i < v.len()
        invariant
            i <= v@.len(),
            metas(res@) == dedup(metas(v@).take(i as int)),
        decreases v@.len() - i,
    {
        let m = &v[i];
        let ghost pre = metas(v@).take(i + 1);
        assert(pre.drop_last() == metas(v@).take(i as int));
        assert(pre.last() == m@);
        let seen = seen_hash(&res, &m.hash);
        assert(seen == exists|q: int| 0 <= q < metas(res@).len() && metas(res@)[q].hash == pre.last().hash) by {
            if seen {
                let q = choose|q: int| 0 <= q < res@.len() && res@[q]@.hash == m.hash@;
                assert(metas(res@)[q] == res@[q]@);
            }
            if exists|q: int| 0 <= q < metas(res@).len() && metas(res@)[q].hash == pre.last().hash {
                let q = choose|q: int| 0 <= q < metas(res@).len() && metas(res@)[q].hash == pre.last().hash;
                assert(metas(res@)[q] == res@[q]@);
            }
        }
        if !seen {
            let ghost before = res@;
            res.push(m.duplicate());
            assert(metas(res@) =~= metas(before).push(m@));
        }
        i = i + 1;
    }
    assert(metas(v@).take(v@.len() as int) == metas(v@));
    res
}

impl ExpectList {
    /// Accepts an answer whose first line is a `list` line.
    pub fn check_answer(&self, answer: &str) -> (r: Result<String, AnswerError>)
        ensures
            list_spec(answer@) is Some ==> (r matches Ok(s) && s@ == accepted_text()),
            list_spec(answer@) is None ==> r == Err::<String, AnswerError>(AnswerError::BadAnswer),
    {
        match list_entries(answer) {
            Some(_) => Ok(accepted()),
            None => Err(AnswerError::BadAnswer),
        }
    }

    /// The files that a `list` answer lists, each hash once (its first
    /// entry kept), in the answer's order; none for another answer.
    pub fn retrieve_data(&self, answer: &str) -> (r: Answer)
        ensures
            r matches Answer::List(v) && metas(v@) == match list_spec(answer@) {
                Some(es) => dedup(es),
                None => Seq::<MetaFileView>::empty(),
            },
    {
        match list_entries(answer) {
            Some(v) => Answer::List(dedup_files(v)),
            None => {
                let v: Vec<MetaFile> = Vec::new();
                assert(metas(v@) =~= Seq::<MetaFileView>::empty());
                Answer::List(v)
            },
        }
    }
}

/// A peer as the tracker writes it: `{address}:{port}`.
pub open spec fn tracker_peer(e: Seq<char>) -> Option<PeerView> {
    let c = find(e, ':');
    if c < e.len() {
        match u16_of(e.skip(c as int + 1)) {
            Some(p) => Some(PeerView { address: e.take(c as int), port: p }),
            None => None,
        }
    } else {
        None
    }
}

pub open spec fn tracker_peers(parts: Seq<Seq<char>>) -> Option<Seq<PeerView>>
    decreases parts.len(),
{
    if parts.len() == 0 {
        Some(Seq::<PeerView>::empty())
    } else {
        match (tracker_peers(parts.drop_last()), tracker_peer(parts.last())) {
            (Some(v), Some(p)) => Some(v.push(p)),
            _ => None,
        }
    }
}

/// The file and the peers of a `peers` answer, read once its ends are cleared.
pub open spec fn peers_spec(answer: Seq<char>) -> Option<(Seq<char>, Seq<PeerView>)> {
    let t = trim(answer);
    match after_verb(t, "peers "@) {
        Some(rest) => match key_and_rest(rest) {
            Some((k, after)) => match bracketed(after) {
                Some(inner) => if inner.len() == 0 {
                    Some((k, Seq::<PeerView>::empty()))
                } else {
                    match tracker_peers(split_on(inner, ' ')) {
                        Some(ps) => Some((k, ps)),
                        None => None,
                    }
                },
                None => None,
            },
            None => None,
        },
        None => None,
    }
}

pub open spec fn peer_views(v: Seq<Peer>) -> Seq<PeerView> {
    v.map_values(|p: Peer| p.config@)
}

proof fn lemma_peers_prefix(parts: Seq<Seq<char>>, i: int)
    requires
        0 <= i <= parts.len(),
        tracker_peers(parts.take(i)) is None,
    ensures
        tracker_peers(parts) is None,
    decreases parts.len() - i,
{
    if i < parts.len() {
        assert(parts.take(i + 1).drop_last() == parts.take(i));
        lemma_peers_prefix(parts, i + 1);
    } else {
        assert(parts.take(i) == parts);
    }
}

fn peer_at(e: &Vec<char>) -> (r: Option<PeerConfig>)
    ensures
        match r {
            Some(p) => tracker_peer(e@) == Some(p@),
            None => tracker_peer(e@) is None,
        },
{
    assert(e@.subrange(0, e@.len() as int) == e@);
    proof {
        lemma_find(e@, ':');
    }
    let c = find_char(e, 0, e.len(), ':');
    if c == e.len() {
        return None;
    }
    assert(e@.subrange(c + 1, e@.len() as int) == e@.skip(c + 1));
    assert(e@.subrange(0, c as int) == e@.take(c as int));
    match parse_usize(e, c + 1, e.len()) {
        Some(v) => if v <= 65535 {
            Some(PeerConfig { address: string_of(e, 0, c), port: v as u16 })
        } else {
            None
        },
        None => None,
    }
}

/// The file key and the peers of a `peers` answer.
fn peers_of(answer: &str) -> (r: Option<(String, Vec<PeerConfig>)>)
    ensures
        match r {
            Some((k, v)) => peers_spec(answer@) == Some((k@, v@.map_values(|p: PeerConfig| p@))),
            None => peers_spec(answer@) is None,
        },
{
    let t = trimmed(answer);
    proof {
        reveal_strlit("peers ");
    }
    if !verb_at_start(&t, "peers ") {
        return None;
    }
    let e = match key_end(&t, 6) {
        None => {
            return None;
        },
        Some(e) => e,
    };
    assert(t@.skip(6).skip(e - 6 + 1) =~= t@.skip(e + 1));
    let (lo, hi) = match bracket_bounds(&t, e + 1) {
        None => {
            return None;
        },
        Some(b) => b,
    };
    let key = string_of(&t, 6, e);
    let mut v: Vec<PeerConfig> = Vec::new();
    if lo == hi {
        assert(v@.map_values(|p: PeerConfig| p@) =~= Seq::<PeerView>::empty());
        return Some((key, v));
    }
    let parts = split_chars(&t, lo, hi, ' ');
    let ghost pv = views(parts@);
    assert(peers_spec(answer@) == match tracker_peers(pv) {
        Some(ps) => Some((t@.subrange(6, e as int), ps)),
        None => None,
    });
    let mut i: usize = 0;
    assert(pv.take(0) =~= Seq::<Seq<char>>::empty());
    assert(v@.map_values(|p: PeerConfig| p@) =~= Seq::<PeerView>::empty());
    while i < parts.len()
        invariant
            i <= parts@.len(),
            pv == views(parts@),
            peers_spec(answer@) == match tracker_peers(pv) {
                Some(ps) => Some((t@.subrange(6, e as int), ps)),
                None => None,
            },
            key@ == t@.subrange(6, e as int),
            tracker_peers(pv.take(i as int)) == Some(v@.map_values(|p: PeerConfig| p@)),
        decreases parts@.len() - i,
    {
        let part = &parts[i];
        assert(pv[i as int] == part@);
        assert(pv.take(i + 1).drop_last() == pv.take(i as int));
        assert(pv.take(i + 1).last() == part@);
        match peer_at(part) {
            Some(p) => {
                let ghost before = v@;
                v.push(p);
                assert(v@.map_values(|p: PeerConfig| p@) =~= before.map_values(|p: PeerConfig| p@).push(p@));
            },
            None => {
                assert(tracker_peers(pv.take(i + 1)) is None);
                proof {
                    lemma_peers_prefix(pv, i + 1);
                }
                return None;
            },
        }
        i = i + 1;
    }
    assert(pv.take(pv.len() as int) == pv);
    Some((key, v))
}

impl ExpectPeers {
    /// Accepts a `peers` answer, handing it back.
    pub fn check_answer(&self, answer: &str) -> (r: Result<String, AnswerError>)
        ensures
            peers_spec(answer@) is Some ==> (r matches Ok(s) && s@ == answer@),
            peers_spec(answer@) is None ==> r == Err::<String, AnswerError>(AnswerError::BadAnswer),
    {
        match peers_of(answer) {
            Some(_) => Ok(answer.to_owned()),
            None => Err(AnswerError::BadAnswer),
        }
    }

    /// The peers of a `peers` answer other than `me`, in the answer's order,
    /// each for the answer's file; none for another answer.
    pub fn retrieve_data(&self, answer: &str, me: &PeerConfig) -> (r: Answer)
        ensures
            r matches Answer::Peers(v) && match peers_spec(answer@) {
                Some((k, ps)) => peer_views(v@) == ps.filter(|p: PeerView| p != me@) && forall|i: int|
                    0 <= i < v@.len() ==> (#[trigger] v@[i]).hash@ == k && v@[i].length_tcp == 0,
                None => v@.len() == 0,
            },
    {
        let mut res: Vec<Peer> = Vec::new();
        match peers_of(answer) {
            None => Answer::Peers(res),
            Some((key, ps)) => {
                let ghost pv = ps@.map_values(|p: PeerConfig| p@);
                let mut i: usize = 0;
                proof {
                    reveal(Seq::filter);
                }
                assert(pv.take(0).filter(|p: PeerView| p != me@) =~= Seq::<PeerView>::empty());
                assert(peer_views(res@) =~= Seq::<PeerView>::empty());
                while i < ps.len()
                    invariant
                        i <= ps@.len(),
                        pv == ps@.map_values(|p: PeerConfig| p@),
                        peer_views(res@) == pv.take(i as int).filter(|p: PeerView| p != me@),
                        forall|j: int| 0 <= j < res@.len() ==> (#[trigger] res@[j]).hash@ == key@ && res@[j].length_tcp == 0,
                    decreases ps@.len() - i,
                {
                    let p = &ps[i];
                    assert(pv.take(i + 1).drop_last() == pv.take(i as int));
                    assert(pv.take(i + 1).last() == p@);
                    proof {
                        reveal(Seq::filter);
                    }
                    let same = p.address.eq(&me.address) && p.port == me.port;
                    if !same {
                        let ghost before = res@;
                        res.push(Peer { hash: key.clone(), length_tcp: 0, config: p.duplicate() });
                        assert(peer_views(res@) =~= peer_views(before).push(p@));
                        assert forall|j: int| 0 <= j < res@.len() implies (#[trigger] res@[j]).hash@ == key@
                            && res@[j].length_tcp == 0 by {
                            if j < before.len() {
                                assert(res@[j] == before[j]);
                            }
                        }
                    } else {
                        assert(p@ == me@);
                    }
                    i = i + 1;
                }
                assert(pv.take(pv.len() as int) == pv);
                Answer::Peers(res)
            },
        }
    }
}

impl ExpectData {
    /// Accepts a `data` line; one that does not begin with `data ` is no
    /// data at all, one that does but cannot be read is malformed.
    pub fn check_answer(&self, answer: &str) -> (r: Result<String, AnswerError>)
        ensures
            !(answer@.len() >= 5 && answer@.take(5) == "data "@) ==> r == Err::<String, AnswerError>(
                AnswerError::InvalidInput,
            ),
            answer@.len() >= 5 && answer@.take(5) == "data "@ && data_spec(trim(answer@)) is None ==> r == Err::<
                String,
                AnswerError,
            >(AnswerError::Malformed),
            answer@.len() >= 5 && answer@.take(5) == "data "@ && data_spec(trim(answer@)) is Some ==> (r matches Ok(s)
                && s@ == answer@),
    {
        let cs = chars_of(answer);
        proof {
            reveal_strlit("data ");
        }
        if !verb_at_start(&cs, "data ") {
            return Err(AnswerError::InvalidInput);
        }
        let t = trimmed(answer);
        match data_of(&t) {
            Some(_) => Ok(answer.to_owned()),
            None => Err(AnswerError::Malformed),
        }
    }

    /// The pieces of a `data` line, in order; none for another line.
    pub fn retrieve_data(&self, answer: &str) -> (r: Answer)
        ensures
            r matches Answer::Data(v) && match data_spec(trim(answer@)) {
                Some((k, p)) => pieces_view(v@) == p,
                None => v@.len() == 0,
            },
    {
        let t = trimmed(answer);
        match data_of(&t) {
            Some(d) => Answer::Data(d.pieces),
            None => Answer::Data(Vec::new()),
        }
    }
}

} // verus!
