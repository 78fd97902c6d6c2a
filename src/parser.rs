//! Reading the first line that a peer receives into the request it makes.
use vstd::prelude::*;
use crate::codec::{b64_bytes, b64_dec};
use crate::text::{
    all_alnum, chars_of, find, find_char, has_prefix_at, lemma_find, parse_usize, push_chars, slice,
    split_chars, split_on, trim, trim_bounds, usize_of, views,
};

verus! {

/// A `have` message: a file and a buffermap of it.
#[derive(Debug, Clone)]
pub struct Have {
    pub key: String,
    pub buffermap: Vec<u8>,
}

/// A `getpieces` request: a file and the indices of the pieces wanted.
#[derive(Debug, Clone)]
pub struct Getpieces {
    pub key: String,
    pub pieces: Vec<usize>,
}

/// An `interested` request: a file.
#[derive(Debug, Clone)]
pub struct Interested {
    pub key: String,
}

/// A `data` message: a file and pieces of it by index.
#[derive(Debug, Clone)]
pub struct Data {
    pub key: String,
    pub pieces: Vec<(usize, Vec<u8>)>,
}

/// What a received line asks for.
#[derive(Debug, Clone)]
pub enum Request {
    Data(Data),
    Have(Have),
    Getpieces(Getpieces),
    Interested(Interested),
    /// A line that no grammar accepts.
    Empty,
}

pub enum RequestView {
    Data { key: Seq<char>, chunks: Seq<(usize, Seq<u8>)> },
    Have { key: Seq<char>, buffermap: Seq<u8> },
    Getpieces { key: Seq<char>, pieces: Seq<usize> },
    Interested { key: Seq<char> },
    Empty,
}

pub open spec fn pieces_view(p: Seq<(usize, Vec<u8>)>) -> Seq<(usize, Seq<u8>)> {
    p.map_values(|e: (usize, Vec<u8>)| (e.0, e.1@))
}

impl View for Request {
    type V = RequestView;

    open spec fn view(&self) -> RequestView {
        match self {
            Request::Data(d) => RequestView::Data { key: d.key@, chunks: pieces_view(d.pieces@) },
            Request::Have(h) => RequestView::Have { key: h.key@, buffermap: h.buffermap@ },
            Request::Getpieces(g) => RequestView::Getpieces { key: g.key@, pieces: g.pieces@ },
            Request::Interested(i) => RequestView::Interested { key: i.key@ },
            Request::Empty => RequestView::Empty,
        }
    }
}

/// What follows `verb` at the start of `t`.
pub open spec fn after_verb(t: Seq<char>, verb: Seq<char>) -> Option<Seq<char>> {
    if t.len() >= verb.len() && t.take(verb.len() as int) == verb {
        Some(t.skip(verb.len() as int))
    } else {
        None
    }
}

/// A key of letters and digits, the single space after it, and what follows.
pub open spec fn key_and_rest(s: Seq<char>) -> Option<(Seq<char>, Seq<char>)> {
    let i = find(s, ' ');
    if i < s.len() && all_alnum(s.take(i as int)) {
        Some((s.take(i as int), s.skip(i as int + 1)))
    } else {
        None
    }
}

/// What stands between a leading `[` and a trailing `]`.
pub open spec fn bracketed(s: Seq<char>) -> Option<Seq<char>> {
    if s.len() >= 2 && s[0] == '[' && s.last() == ']' {
        Some(s.subrange(1, s.len() - 1))
    } else {
        None
    }
}

pub open spec fn all_bits(s: Seq<char>) -> bool {
    forall|i: int| 0 <= i < s.len() ==> #[trigger] s[i] == '0' || s[i] == '1'
}

pub open spec fn bits_of(s: Seq<char>) -> Seq<u8> {
    Seq::new(s.len(), |i: int| if s[i] == '1' { 1u8 } else { 0u8 })
}

/// The indices that space-separated decimal tokens write, empty tokens skipped.
pub open spec fn indices_of(parts: Seq<Seq<char>>) -> Option<Seq<usize>>
    decreases parts.len(),
{
    if parts.len() == 0 {
        Some(Seq::<usize>::empty())
    } else {
        match indices_of(parts.drop_last()) {
            None => None,
            Some(v) => if parts.last().len() == 0 {
                Some(v)
            } else {
                match usize_of(parts.last()) {
                    Some(x) => Some(v.push(x)),
                    None => None,
                }
            },
        }
    }
}

/// A piece of a `data` message: `index:base64`.
pub open spec fn piece_of(e: Seq<char>) -> Option<(usize, Seq<u8>)> {
    let c = find(e, ':');
    if c < e.len() {
        match (usize_of(e.take(c as int)), b64_bytes(e.skip(c as int + 1))) {
            (Some(i), Some(b)) => Some((i, b)),
            _ => None,
        }
    } else {
        None
    }
}

pub open spec fn pieces_of(parts: Seq<Seq<char>>) -> Option<Seq<(usize, Seq<u8>)>>
    decreases parts.len(),
{
    if parts.len() == 0 {
        Some(Seq::<(usize, Seq<u8>)>::empty())
    } else {
        match (pieces_of(parts.drop_last()), piece_of(parts.last())) {
            (Some(v), Some(p)) => Some(v.push(p)),
            _ => None,
        }
    }
}

/// The pieces listed between the brackets of a `data` message.
pub open spec fn data_pieces(inner: Seq<char>) -> Option<Seq<(usize, Seq<u8>)>> {
    if inner.len() == 0 {
        Some(Seq::<(usize, Seq<u8>)>::empty())
    } else {
        pieces_of(split_on(inner, ' '))
    }
}

/// `data {key} [{index}:{base64} ...]`
pub open spec fn data_spec(t: Seq<char>) -> Option<(Seq<char>, Seq<(usize, Seq<u8>)>)> {
    match after_verb(t, "data "@) {
        Some(rest) => match key_and_rest(rest) {
            Some((k, after)) => match bracketed(after) {
                Some(inner) => match data_pieces(inner) {
                    Some(p) => Some((k, p)),
                    None => None,
                },
                None => None,
            },
            None => None,
        },
        None => None,
    }
}

/// `have {key} {digits 0 and 1}`
pub open spec fn have_spec(t: Seq<char>) -> Option<(Seq<char>, Seq<u8>)> {
    match after_verb(t, "have "@) {
        Some(rest) => match key_and_rest(rest) {
            Some((k, b)) => if all_bits(b) {
                Some((k, bits_of(b)))
            } else {
                None
            },
            None => None,
        },
        None => None,
    }
}

/// `getpieces {key} [{index} ...]`
pub open spec fn getpieces_spec(t: Seq<char>) -> Option<(Seq<char>, Seq<usize>)> {
    match after_verb(t, "getpieces "@) {
        Some(rest) => match key_and_rest(rest) {
            Some((k, after)) => match bracketed(after) {
                Some(inner) => match indices_of(split_on(inner, ' ')) {
                    Some(v) => Some((k, v)),
                    None => None,
                },
                None => None,
            },
            None => None,
        },
        None => None,
    }
}

/// `interested {key}`
pub open spec fn interested_spec(t: Seq<char>) -> Option<Seq<char>> {
    match after_verb(t, "interested "@) {
        Some(k) => if all_alnum(k) {
            Some(k)
        } else {
            None
        },
        None => None,
    }
}

/// The request that a received line makes, read once its ends are cleared.
pub open spec fn request_spec(line: Seq<char>) -> RequestView {
    let t = trim(line);
    match data_spec(t) {
        Some((k, p)) => RequestView::Data { key: k, chunks: p },
        None => match have_spec(t) {
            Some((k, b)) => RequestView::Have { key: k, buffermap: b },
            None => match getpieces_spec(t) {
                Some((k, v)) => RequestView::Getpieces { key: k, pieces: v },
                None => match interested_spec(t) {
                    Some(k) => RequestView::Interested { key: k },
                    None => RequestView::Empty,
                },
            },
        },
    }
}

pub(crate) fn string_of(cs: &Vec<char>, lo: usize, hi: usize) -> (r: String)
    requires
        lo <= hi <= cs@.len(),
    ensures
        r@ == cs@.subrange(lo as int, hi as int),
{
    let part = slice(cs, lo, hi);
    let mut s = String::new();
    push_chars(&mut s, &part);
    assert(Seq::<char>::empty() + part@ == part@);
    s
}

pub(crate) fn verb_at_start(t: &Vec<char>, verb: &str) -> (r: bool)
    ensures
        r == (after_verb(t@, verb@) is Some),
{
    let v = chars_of(verb);
    let r = has_prefix_at(t, 0, &v);
    assert(t@.subrange(0, v@.len() as int) == t@.take(v@.len() as int));
    r
}

pub(crate) fn alnum_range(t: &Vec<char>, lo: usize, hi: usize) -> (r: bool)
    requires
        lo <= hi <= t@.len(),
    ensures
        r == all_alnum(t@.subrange(lo as int, hi as int)),
{
    let mut i: usize = lo;
    while i < hi
        invariant
            lo <= i <= hi <= t@.len(),
            all_alnum(t@.subrange(lo as int, i as int)),
        decreases hi - i,
    {
        let c = t[i];
        if !(('0' <= c && c <= '9') || ('a' <= c && c <= 'z') || ('A' <= c && c <= 'Z')) {
            assert(t@.subrange(lo as int, hi as int)[i - lo] == c);
            return false;
        }
        assert(t@.subrange(lo as int, i + 1) == t@.subrange(lo as int, i as int).push(c));
        i = i + 1;
    }
    true
}

/// Where `t` from `start` is a key, a space and more: the index of that space.
pub(crate) fn key_end(t: &Vec<char>, start: usize) -> (r: Option<usize>)
    requires
        start <= t@.len(),
    ensures
        r is None <==> key_and_rest(t@.skip(start as int)) is None,
        r matches Some(e) ==> start <= e < t@.len() && e < usize::MAX && key_and_rest(t@.skip(start as int)) == Some(
            (t@.subrange(start as int, e as int), t@.skip(e + 1)),
        ),
{
    let ghost s = t@.skip(start as int);
    assert(t@.subrange(start as int, t@.len() as int) == s);
    proof {
        lemma_find(s, ' ');
    }
    let i = find_char(t, start, t.len(), ' ');
    if i == t.len() {
        return None;
    }
    if !alnum_range(t, start, i) {
        assert(s.take(i - start) == t@.subrange(start as int, i as int));
        return None;
    }
    assert(s.take(i - start) == t@.subrange(start as int, i as int));
    assert(s.skip(i - start + 1) =~= t@.skip(i + 1));
    Some(i)
}

fn parse_bits(t: &Vec<char>, lo: usize) -> (r: Option<Vec<u8>>)
    requires
        lo <= t@.len(),
    ensures
        all_bits(t@.skip(lo as int)) ==> (r matches Some(v) && v@ == bits_of(t@.skip(lo as int))),
        !all_bits(t@.skip(lo as int)) ==> r is None,
{
    let ghost s = t@.skip(lo as int);
    let mut v: Vec<u8> = Vec::new();
    let mut i: usize = lo;
    while i < t.len()
        invariant
            lo <= i <= t@.len(),
            s == t@.skip(lo as int),
            v@.len() == i - lo,
            forall|j: int| 0 <= j < i - lo ==> #[trigger] s[j] == '0' || s[j] == '1',
            forall|j: int| 0 <= j < i - lo ==> v@[j] == #[trigger] bits_of(s)[j],
        decreases t@.len() - i,
    {
        let c = t[i];
        assert(s[i - lo] == c);
        if c == '1' {
            v.push(1);
        } else if c == '0' {
            v.push(0);
        } else {
            return None;
        }
        i = i + 1;
    }
    assert(v@ =~= bits_of(s));
    Some(v)
}

proof fn lemma_indices_prefix(parts: Seq<Seq<char>>, i: int)
    requires
        0 <= i <= parts.len(),
        indices_of(parts.take(i)) is None,
    ensures
        indices_of(parts) is None,
    decreases parts.len() - i,
{
    if i < parts.len() {
        assert(parts.take(i + 1).drop_last() == parts.take(i));
        lemma_indices_prefix(parts, i + 1);
    } else {
        assert(parts.take(i) == parts);
    }
}

proof fn lemma_pieces_prefix(parts: Seq<Seq<char>>, i: int)
    requires
        0 <= i <= parts.len(),
        pieces_of(parts.take(i)) is None,
    ensures
        pieces_of(parts) is None,
    decreases parts.len() - i,
{
    if i < parts.len() {
        assert(parts.take(i + 1).drop_last() == parts.take(i));
        lemma_pieces_prefix(parts, i + 1);
    } else {
        assert(parts.take(i) == parts);
    }
}

/// Where `t` from `start` is `[...]` to its end: the bounds of what the brackets hold.
pub(crate) fn bracket_bounds(t: &Vec<char>, start: usize) -> (r: Option<(usize, usize)>)
    requires
        start <= t@.len(),
    ensures
        r is None <==> bracketed(t@.skip(start as int)) is None,
        r matches Some((a, b)) ==> a <= b <= t@.len() && bracketed(t@.skip(start as int)) == Some(
            t@.subrange(a as int, b as int),
        ),
{
    let ghost s = t@.skip(start as int);
    if t.len() - start >= 2 && t[start] == '[' && t[t.len() - 1] == ']' {
        assert(s[0] == '[' && s.last() == ']');
        assert(s.subrange(1, s.len() - 1) == t@.subrange(start + 1, t@.len() - 1));
        Some((start + 1, t.len() - 1))
    } else {
        assert(!(s.len() >= 2 && s[0] == '[' && s.last() == ']')) by {
            if s.len() >= 2 {
                assert(s[0] == t@[start as int]);
                assert(s.last() == t@[t@.len() - 1]);
            }
        }
        None
    }
}

fn have_of(t: &Vec<char>) -> (r: Option<Have>)
    ensures
        match r {
            Some(h) => have_spec(t@) == Some((h.key@, h.buffermap@)),
            None => have_spec(t@) is None,
        },
{
    proof {
        reveal_strlit("have ");
    }
    if !verb_at_start(t, "have ") {
        return None;
    }
    match key_end(t, 5) {
        None => None,
        Some(e) => match parse_bits(t, e + 1) {
            None => None,
            Some(bits) => Some(Have { key: string_of(t, 5, e), buffermap: bits }),
        },
    }
}

fn interested_of(t: &Vec<char>) -> (r: Option<Interested>)
    ensures
        match r {
            Some(x) => interested_spec(t@) == Some(x.key@),
            None => interested_spec(t@) is None,
        },
{
    proof {
        reveal_strlit("interested ");
    }
    if !verb_at_start(t, "interested ") {
        return None;
    }
    assert(t@.skip(11) == t@.subrange(11, t@.len() as int));
    if !alnum_range(t, 11, t.len()) {
        return None;
    }
    Some(Interested { key: string_of(t, 11, t.len()) })
}

fn getpieces_of(t: &Vec<char>) -> (r: Option<Getpieces>)
    ensures
        match r {
            Some(g) => getpieces_spec(t@) == Some((g.key@, g.pieces@)),
            None => getpieces_spec(t@) is None,
        },
{
    proof {
        reveal_strlit("getpieces ");
    }
    if !verb_at_start(t, "getpieces ") {
        return None;
    }
    let e = match key_end(t, 10) {
        None => {
            return None;
        },
        Some(e) => e,
    };
    assert(t@.skip(10).skip(e - 10 + 1) =~= t@.skip(e + 1));
    let (lo, hi) = match bracket_bounds(t, e + 1) {
        None => {
            return None;
        },
        Some(b) => b,
    };
    let parts = split_chars(t, lo, hi, ' ');
    let ghost pv = views(parts@);
    assert(getpieces_spec(t@) == match indices_of(pv) {
        Some(v) => Some((t@.subrange(10, e as int), v)),
        None => None,
    });
    let mut v: Vec<usize> = Vec::new();
    let mut i: usize = 0;
    assert(pv.take(0) =~= Seq::<Seq<char>>::empty());
    while i < parts.len()
        invariant
            i <= parts@.len(),
            pv == views(parts@),
            getpieces_spec(t@) == match indices_of(pv) {
                Some(v) => Some((t@.subrange(10, e as int), v)),
                None => None,
            },
            10 <= e <= t@.len(),
            indices_of(pv.take(i as int)) == Some(v@),
        decreases parts@.len() - i,
    {
        let part = &parts[i];
        assert(pv[i as int] == part@);
        assert(pv.take(i + 1).drop_last() == pv.take(i as int));
        assert(pv.take(i + 1).last() == part@);
        if part.len() > 0 {
            assert(part@.subrange(0, part@.len() as int) == part@);
            match parse_usize(part, 0, part.len()) {
                Some(x) => {
                    v.push(x);
                },
                None => {
                    assert(usize_of(part@) is None);
                    assert(indices_of(pv.take(i + 1)) is None);
                    proof {
                        lemma_indices_prefix(pv, i + 1);
                    }
                    return None;
                },
            }
        }
        i = i + 1;
    }
    assert(pv.take(pv.len() as int) == pv);
    Some(Getpieces { key: string_of(t, 10, e), pieces: v })
}

fn piece_at(part: &Vec<char>) -> (r: Option<(usize, Vec<u8>)>)
    ensures
        match r {
            Some(p) => piece_of(part@) == Some((p.0, p.1@)),
            None => piece_of(part@) is None,
        },
{
    assert(part@.subrange(0, part@.len() as int) == part@);
    proof {
        lemma_find(part@, ':');
    }
    let c = find_char(part, 0, part.len(), ':');
    if c == part.len() {
        return None;
    }
    assert(part@.subrange(0, c as int) == part@.take(c as int));
    let idx = parse_usize(part, 0, c);
    let payload = string_of(part, c + 1, part.len());
    assert(part@.subrange(c + 1, part@.len() as int) == part@.skip(c + 1));
    let bytes = b64_dec(payload.as_str());
    match (idx, bytes) {
        (Some(i), Some(b)) => Some((i, b)),
        _ => None,
    }
}

/// What a `data` line (its ends already cleared) carries.
pub(crate) fn data_of(t: &Vec<char>) -> (r: Option<Data>)
    ensures
        match r {
            Some(d) => data_spec(t@) == Some((d.key@, pieces_view(d.pieces@))),
            None => data_spec(t@) is None,
        },
{
    proof {
        reveal_strlit("data ");
    }
    if !verb_at_start(t, "data ") {
        return None;
    }
    let e = match key_end(t, 5) {
        None => {
            return None;
        },
        Some(e) => e,
    };
    assert(t@.skip(5).skip(e - 5 + 1) =~= t@.skip(e + 1));
    let (lo, hi) = match bracket_bounds(t, e + 1) {
        None => {
            return None;
        },
        Some(b) => b,
    };
    let mut v: Vec<(usize, Vec<u8>)> = Vec::new();
    if lo == hi {
        assert(pieces_view(v@) =~= Seq::<(usize, Seq<u8>)>::empty());
        return Some(Data { key: string_of(t, 5, e), pieces: v });
    }
    let parts = split_chars(t, lo, hi, ' ');
    let ghost pv = views(parts@);
    assert(data_spec(t@) == match pieces_of(pv) {
        Some(p) => Some((t@.subrange(5, e as int), p)),
        None => None,
    });
    let mut i: usize = 0;
    assert(pv.take(0) =~= Seq::<Seq<char>>::empty());
    assert(pieces_view(v@) =~= Seq::<(usize, Seq<u8>)>::empty());
    while i < parts.len()
        invariant
            i <= parts@.len(),
            pv == views(parts@),
            data_spec(t@) == match pieces_of(pv) {
                Some(p) => Some((t@.subrange(5, e as int), p)),
                None => None,
            },
            5 <= e <= t@.len(),
            pieces_of(pv.take(i as int)) == Some(pieces_view(v@)),
        decreases parts@.len() - i,
    {
        let part = &parts[i];
        assert(pv[i as int] == part@);
        assert(pv.take(i + 1).drop_last() == pv.take(i as int));
        assert(pv.take(i + 1).last() == part@);
        match piece_at(part) {
            Some(p) => {
                let ghost before = v@;
                v.push(p);
                assert(pieces_view(v@) =~= pieces_view(before).push((p.0, p.1@)));
            },
            None => {
                assert(pieces_of(pv.take(i + 1)) is None);
                proof {
                    lemma_pieces_prefix(pv, i + 1);
                }
                return None;
            },
        }
        i = i + 1;
    }
    assert(pv.take(pv.len() as int) == pv);
    Some(Data { key: string_of(t, 5, e), pieces: v })
}

/// `line` with its ends cleared, as characters.
pub(crate) fn trimmed(line: &str) -> (r: Vec<char>)
    ensures
        r@ == trim(line@),
{
    let cs = chars_of(line);
    let (lo, hi) = trim_bounds(&cs);
    slice(&cs, lo, hi)
}

/// The request that a received line makes.
pub fn parse_request(request: &str) -> (r: Request)
    ensures
        r@ == request_spec(request@),
{
    let t = trimmed(request);
    if let Some(d) = data_of(&t) {
        return Request::Data(d);
    }
    if let Some(h) = have_of(&t) {
        return Request::Have(h);
    }
    if let Some(g) = getpieces_of(&t) {
        return Request::Getpieces(g);
    }
    if let Some(i) = interested_of(&t) {
        return Request::Interested(i);
    }
    Request::Empty
}

/// The `have` message that a line carries, if it carries one.
pub fn parse_have_from_have(request: String) -> (r: Option<Have>)
    ensures
        match r {
            Some(h) => have_spec(trim(request@)) == Some((h.key@, h.buffermap@)),
            None => have_spec(trim(request@)) is None,
        },
{
    let t = trimmed(request.as_str());
    have_of(&t)
}

/// The `data` message that a line carries, if it carries one.
pub fn parse_data(request: &str) -> (r: Option<Data>)
    ensures
        match r {
            Some(d) => data_spec(trim(request@)) == Some((d.key@, pieces_view(d.pieces@))),
            None => data_spec(trim(request@)) is None,
        },
{
    let t = trimmed(request);
    data_of(&t)
}

} // verus!
