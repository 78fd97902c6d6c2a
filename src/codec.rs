//! The line formats of the messages that a peer sends, to other peers and to
//! the tracker.
use vstd::prelude::*;
use crate::meta::MetaFile;
use crate::text::{dec, join, push_decimal, trim, ws_trim, ws_trim_bounds, chars_of, push_chars, slice};
use crate::parser::{pieces_view, request_spec, RequestView};
use crate::roundtrip::{encodes_back, lemma_data_round_trip, piece_text, piece_texts};

verus! {

/// The standard base64 encoding (with padding) of a byte sequence.
pub uninterp spec fn b64_text(b: Seq<u8>) -> Seq<char>;

/// The bytes that a standard base64 text decodes to, where it is one.
pub uninterp spec fn b64_bytes(s: Seq<char>) -> Option<Seq<u8>>;

/// A character of the standard base64 alphabet, or its padding.
pub open spec fn is_b64_char(c: char) -> bool {
    crate::text::is_alnum(c) || c == '+' || c == '/' || c == '='
}

/// Relies on base64's `STANDARD` engine, `Engine::encode`: the padded
/// standard-alphabet encoding of `data`, which `Engine::decode` of the same
/// engine takes back to `data`. The encoded length must not overflow.
#[verifier::external_body]
pub(crate) fn b64_enc(data: &Vec<u8>) -> (r: String)
    requires
        data@.len() <= usize::MAX / 2,
    ensures
        r@ == b64_text(data@),
        b64_bytes(r@) == Some(data@),
        forall|i: int| 0 <= i < r@.len() ==> is_b64_char(#[trigger] r@[i]),
{
    base64::Engine::encode(&base64::engine::general_purpose::STANDARD, data)
}

/// Relies on base64's `STANDARD` engine, `Engine::decode`: the bytes that
/// `text` encodes, or an error where it is not a padded standard encoding.
#[verifier::external_body]
pub(crate) fn b64_dec(text: &str) -> (r: Option<Vec<u8>>)
    ensures
        match r {
            Some(v) => b64_bytes(text@) == Some(v@),
            None => b64_bytes(text@) is None,
        },
{
    base64::Engine::decode(&base64::engine::general_purpose::STANDARD, text).ok()
}

/// The views of a sequence of strings.
pub open spec fn texts(v: Seq<String>) -> Seq<Seq<char>> {
    v.map_values(|s: String| s@)
}

/// Appends the strings of `parts` with a space between each two.
fn push_joined(s: &mut String, parts: &Vec<String>)
    ensures
        final(s)@ == old(s)@ + join(texts(parts@), ' '),
{
    let mut i: usize = 0;
    while i < parts.len()
        invariant
            i <= parts@.len(),
            s@ == old(s)@ + join(texts(parts@).take(i as int), ' '),
        decreases parts@.len() - i,
    {
        let ghost prev = s@;
        proof {
            reveal_strlit(" ");
        }
        if i > 0 {
            s.append(" ");
        }
        s.append(parts[i].as_str());
        assert(texts(parts@).take(i + 1).drop_last() == texts(parts@).take(i as int));
        assert(texts(parts@)[i as int] == parts@[i as int]@);
        if i == 0 {
            assert(texts(parts@).take(1) == seq![parts@[0]@]);
            assert(old(s)@ + join(texts(parts@).take(0), ' ') == old(s)@);
        }
        assert(s@ =~= old(s)@ + join(texts(parts@).take(i + 1), ' '));
        i = i + 1;
    }
    assert(texts(parts@).take(parts@.len() as int) == texts(parts@));
}

/// The strings of `parts`, a space between each two.
pub(crate) fn dataf_body(parts: &Vec<String>) -> (r: String)
    ensures
        r@ == join(texts(parts@), ' '),
{
    let mut s = String::new();
    push_joined(&mut s, parts);
    assert(Seq::<char>::empty() + join(texts(parts@), ' ') == join(texts(parts@), ' '));
    s
}

/// The `data` message: `data {key} [{piece} {piece} ...]`, each piece being
/// `index:base64`.
pub fn dataf(key: &String, pieces: Vec<String>) -> (r: String)
    ensures
        r@ == "data "@ + key@ + " ["@ + join(texts(pieces@), ' ') + "]\n"@,
{
    let mut s = String::new();
    s.append("data ");
    s.append(key.as_str());
    s.append(" [");
    push_joined(&mut s, &pieces);
    s.append("]\n");
    assert(s@ =~= "data "@ + key@ + " ["@ + join(texts(pieces@), ' ') + "]\n"@);
    s
}

/// The decimal forms of a list of indices.
pub open spec fn decs(v: Seq<usize>) -> Seq<Seq<char>> {
    v.map_values(|x: usize| dec(x as nat))
}

/// The `getpieces` message: `getpieces {key} [{index} {index} ...]`, the key
/// cleared of surrounding white space.
pub fn getpiecesf(key: String, pieces: Vec<usize>) -> (r: String)
    ensures
        r@ == "getpieces "@ + ws_trim(key@) + " ["@ + join(decs(pieces@), ' ') + "]\n"@,
{
    let mut parts: Vec<String> = Vec::new();
    let mut i: usize = 0;
    while i < pieces.len()
        invariant
            i <= pieces@.len(),
            texts(parts@) == decs(pieces@).take(i as int),
        decreases pieces@.len() - i,
    {
        let d = crate::text::decimal(pieces[i]);
        let ghost before = parts@;
        parts.push(d);
        assert(texts(parts@) =~= texts(before).push(d@));
        assert(decs(pieces@).take(i + 1) =~= decs(pieces@).take(i as int).push(dec(pieces@[i as int] as nat)));
        i = i + 1;
    }
    assert(decs(pieces@).take(pieces@.len() as int) == decs(pieces@));
    let cs = chars_of(key.as_str());
    let (lo, hi) = ws_trim_bounds(&cs);
    let k = slice(&cs, lo, hi);
    let mut s = String::new();
    s.append("getpieces ");
    push_chars(&mut s, &k);
    s.append(" [");
    push_joined(&mut s, &parts);
    s.append("]\n");
    assert(s@ =~= "getpieces "@ + ws_trim(key@) + " ["@ + join(decs(pieces@), ' ') + "]\n"@);
    s
}

/// The `interested` message: `interested {key}`.
pub fn interestedf(key: String) -> (r: String)
    ensures
        r@ == "interested "@ + key@ + "\n"@,
{
    let mut s = String::new();
    s.append("interested ");
    s.append(key.as_str());
    s.append("\n");
    s
}

/// A buffermap as text: the decimal form of each entry, run together.
pub open spec fn map_text(m: Seq<u8>) -> Seq<char>
    decreases m.len(),
{
    if m.len() == 0 {
        Seq::<char>::empty()
    } else {
        map_text(m.drop_last()) + dec(m.last() as nat)
    }
}

/// The `have` message: `have {key} {buffermap}`.
pub fn havef(key: String, buffermap: Vec<u8>) -> (r: String)
    ensures
        r@ == "have "@ + key@ + " "@ + map_text(buffermap@) + "\n"@,
{
    let mut s = String::new();
    s.append("have ");
    s.append(key.as_str());
    s.append(" ");
    let ghost start = s@;
    let mut i: usize = 0;
    while i < buffermap.len()
        invariant
            i <= buffermap@.len(),
            s@ == start + map_text(buffermap@.take(i as int)),
        decreases buffermap@.len() - i,
    {
        assert(buffermap@.take(i + 1).drop_last() == buffermap@.take(i as int));
        push_decimal(&mut s, buffermap[i] as usize);
        i = i + 1;
    }
    assert(buffermap@.take(buffermap@.len() as int) == buffermap@);
    s.append("\n");
    s
}

/// A seeded file as the announcement lists it: `{name} {length} {piece size} {hash}`.
pub open spec fn seed_entry(m: crate::meta::MetaFileView) -> Seq<char> {
    m.file_name + " "@ + dec(m.length as nat) + " "@ + dec(m.piece_size as nat) + " "@ + m.hash
}

pub open spec fn seed_entries(v: Seq<MetaFile>) -> Seq<Seq<char>> {
    v.map_values(|m: MetaFile| seed_entry(m@))
}

/// The `announce` message: `announce listen {port} seed [{entry} ...] leech [{hash} ...]`.
pub fn seedf(seeded: Vec<MetaFile>, peer_port: String, leeched: Vec<String>) -> (r: String)
    ensures
        r@ == "announce listen "@ + peer_port@ + " seed ["@ + join(seed_entries(seeded@), ' ') + "] leech ["@
            + join(texts(leeched@), ' ') + "]\r\n"@,
{
    let mut entries: Vec<String> = Vec::new();
    let mut i: usize = 0;
    while i < seeded.len()
        invariant
            i <= seeded@.len(),
            texts(entries@) == seed_entries(seeded@).take(i as int),
        decreases seeded@.len() - i,
    {
        let m = &seeded[i];
        let mut e = m.file_name.clone();
        e.append(" ");
        push_decimal(&mut e, m.length);
        e.append(" ");
        push_decimal(&mut e, m.piece_size);
        e.append(" ");
        e.append(m.hash.as_str());
        assert(e@ =~= seed_entry(m@));
        let ghost before = entries@;
        entries.push(e);
        assert(texts(entries@) =~= texts(before).push(seed_entry(m@)));
        assert(seed_entries(seeded@).take(i + 1) =~= seed_entries(seeded@).take(i as int).push(seed_entry(m@)));
        i = i + 1;
    }
    assert(seed_entries(seeded@).take(seeded@.len() as int) == seed_entries(seeded@));
    let mut s = String::new();
    s.append("announce listen ");
    s.append(peer_port.as_str());
    s.append(" seed [");
    push_joined(&mut s, &entries);
    s.append("] leech [");
    push_joined(&mut s, &leeched);
    s.append("]\r\n");
    assert(s@ =~= "announce listen "@ + peer_port@ + " seed ["@ + join(seed_entries(seeded@), ' ') + "] leech ["@
        + join(texts(leeched@), ' ') + "]\r\n"@);
    s
}

/// The criteria of a `look` request: a quoted file name and a size criterion
/// (an operator and a number, such as `<"10"`), each where given.
pub open spec fn look_criteria(filename: Seq<char>, filesize: Seq<char>) -> Seq<char> {
    let name = if filename.len() > 0 {
        "filename=\""@ + filename + "\""@
    } else {
        Seq::<char>::empty()
    };
    let size = if filesize.len() > 0 {
        if filename.len() > 0 {
            " filesize"@ + filesize
        } else {
            "filesize"@ + filesize
        }
    } else {
        Seq::<char>::empty()
    };
    name + size
}

/// The `look` message: `look [{criteria}]`.
pub fn lookf(filename: String, filesize: String) -> (r: String)
    ensures
        r@ == "look ["@ + look_criteria(filename@, filesize@) + "]\n"@,
{
    let mut s = String::new();
    s.append("look [");
    proof {
        reveal_strlit("filename=\"");
        reveal_strlit("\"");
        reveal_strlit(" filesize");
        reveal_strlit("filesize");
    }
    let named = !filename.as_str().is_empty();
    if named {
        s.append("filename=\"");
        s.append(filename.as_str());
        s.append("\"");
    }
    if !filesize.as_str().is_empty() {
        if named {
            s.append(" filesize");
        } else {
            s.append("filesize");
        }
        s.append(filesize.as_str());
    }
    s.append("]\n");
    assert(s@ =~= "look ["@ + look_criteria(filename@, filesize@) + "]\n"@);
    s
}

/// The `getfile` message: `getfile {key}`.
pub fn getfilef(key: String) -> (r: String)
    ensures
        r@ == "getfile "@ + key@ + "\n"@,
{
    let mut s = String::new();
    s.append("getfile ");
    s.append(key.as_str());
    s.append("\n");
    s
}

/// The `data` reply carrying `chunks`: each piece written `index:base64`.
/// Read back, as a request or as the answer `ExpectData` takes, it gives the
/// same key and the same chunks, byte for byte.
pub fn data_format(key: &String, chunks: &Vec<(usize, Vec<u8>)>) -> (r: String)
    requires
        forall|j: int| 0 <= j < chunks@.len() ==> (#[trigger] chunks@[j]).1@.len() <= usize::MAX / 2,
    ensures
        r@ == "data "@ + key@ + " ["@ + join(piece_texts(pieces_view(chunks@)), ' ') + "]\n"@,
        crate::text::all_alnum(key@) ==> request_spec(r@) == (RequestView::Data {
            key: key@,
            chunks: pieces_view(chunks@),
        }),
        crate::text::all_alnum(key@) ==> crate::parser::data_spec(trim(r@)) == Some((key@, pieces_view(chunks@))),
        r@.len() >= 5 && r@.take(5) == "data "@,
{
    let ghost ch = pieces_view(chunks@);
    let mut parts: Vec<String> = Vec::new();
    let mut i: usize = 0;
    while i < chunks.len()
        invariant
            i <= chunks@.len(),
            ch == pieces_view(chunks@),
            forall|j: int| 0 <= j < chunks@.len() ==> (#[trigger] chunks@[j]).1@.len() <= usize::MAX / 2,
            texts(parts@) == piece_texts(ch).take(i as int),
            forall|j: int| 0 <= j < i ==> encodes_back(#[trigger] ch[j].1),
        decreases chunks@.len() - i,
    {
        let (idx, bytes) = (chunks[i].0, &chunks[i].1);
        assert(ch[i as int] == (idx, bytes@));
        let mut e = crate::text::decimal(idx);
        e.append(":");
        let enc = b64_enc(bytes);
        e.append(enc.as_str());
        assert(e@ == piece_text(idx, bytes@));
        let ghost before = parts@;
        parts.push(e);
        assert(texts(parts@) =~= texts(before).push(piece_text(idx, bytes@)));
        assert(piece_texts(ch).take(i + 1) =~= piece_texts(ch).take(i as int).push(piece_text(idx, bytes@)));
        i = i + 1;
    }
    assert(piece_texts(ch).take(ch.len() as int) == piece_texts(ch));
    let r = dataf(key, parts);
    proof {
        reveal_strlit("data ");
        assert(r@.take(5) =~= "data "@);
        if crate::text::all_alnum(key@) {
            lemma_data_round_trip(key@, ch);
        }
    }
    r
}

} // verus!
