//! Reading back what the formatters write.
use vstd::prelude::*;
use crate::codec::{b64_bytes, b64_text, decs, is_b64_char, map_text};
use crate::parser::{
    after_verb, bits_of, bracketed, data_pieces, data_spec, indices_of, key_and_rest, piece_of, pieces_of, request_spec,
    RequestView,
};
use crate::text::{
    all_alnum, all_digits, dec, is_alnum, is_trim, join, lacks, lemma_dec, lemma_find_after, lemma_split_join,
    split_on, trim, trim_end, trim_start, ws_trim,
};

verus! {

proof fn lemma_trim_line(x: Seq<char>)
    requires
        x.len() > 0,
        !is_trim(x[0]),
        !is_trim(x.last()),
    ensures
        trim(x + "\n"@) == x,
{
    reveal_strlit("\n");
    let y = x + "\n"@;
    assert(y[0] == x[0]);
    assert(trim_start(y) == y);
    assert(y.drop_last() =~= x);
    assert(y.last() == '\n');
    assert(trim_end(y) == trim_end(x));
}

proof fn lemma_trim_alnum(k: Seq<char>)
    requires
        all_alnum(k),
    ensures
        ws_trim(k) == k,
{
    if k.len() > 0 {
        assert(is_alnum(k[0]));
        assert(is_alnum(k[k.len() - 1]));
    }
}

proof fn lemma_alnum_lacks(k: Seq<char>, c: char)
    requires
        all_alnum(k),
        !is_alnum(c),
    ensures
        lacks(k, c),
{
    assert forall|i: int| 0 <= i < k.len() implies #[trigger] k[i] != c by {
        assert(is_alnum(k[i]));
    }
}

/// `verb + k + " " + rest` splits into `k` and `rest`.
proof fn lemma_head(verb: Seq<char>, k: Seq<char>, rest: Seq<char>)
    requires
        all_alnum(k),
    ensures
        after_verb(verb + k + " "@ + rest, verb) == Some(k + " "@ + rest),
        key_and_rest(k + " "@ + rest) == Some((k, rest)),
{
    reveal_strlit(" ");
    let x = verb + k + " "@ + rest;
    assert(x.take(verb.len() as int) =~= verb);
    assert(x.skip(verb.len() as int) =~= k + " "@ + rest);
    lemma_alnum_lacks(k, ' ');
    let s = k + " "@ + rest;
    assert(s =~= k.push(' ') + rest);
    lemma_find_after(k, ' ', rest);
    assert(s.take(k.len() as int) =~= k);
    assert(s.skip(k.len() as int + 1) =~= rest);
}

proof fn lemma_map_text_bits(m: Seq<u8>)
    requires
        forall|i: int| 0 <= i < m.len() ==> m[i] <= 1,
    ensures
        map_text(m).len() == m.len(),
        forall|i: int| 0 <= i < m.len() ==> map_text(m)[i] == if m[i] == 1 { '1' } else { '0' },
    decreases m.len(),
{
    if m.len() > 0 {
        lemma_map_text_bits(m.drop_last());
        let d = dec(m.last() as nat);
        assert(d == seq![if m.last() == 1 { '1' } else { '0' }]);
        assert forall|i: int| 0 <= i < m.len() implies map_text(m)[i] == if m[i] == 1 { '1' } else { '0' } by {
            if i < m.len() - 1 {
                assert(map_text(m)[i] == map_text(m.drop_last())[i]);
                assert(m.drop_last()[i] == m[i]);
            }
        }
    }
}

/// A `have` message reads back as the key and the buffermap it was made of,
/// for a key of letters and digits and a non-empty buffermap of zeros and ones.
pub proof fn lemma_have_round_trip(k: Seq<char>, m: Seq<u8>)
    requires
        all_alnum(k),
        m.len() > 0,
        forall|i: int| 0 <= i < m.len() ==> m[i] <= 1,
    ensures
        request_spec("have "@ + k + " "@ + map_text(m) + "\n"@) == (RequestView::Have { key: k, buffermap: m }),
{
    reveal_strlit("have ");
    reveal_strlit("data ");
    reveal_strlit(" ");
    lemma_map_text_bits(m);
    let b = map_text(m);
    let x = "have "@ + k + " "@ + b;
    assert(x[0] == 'h');
    assert(x.last() == b.last());
    lemma_trim_line(x);
    assert(after_verb(x, "data "@) is None) by {
        assert(x.take(5)[0] != "data "@[0]);
    }
    lemma_head("have "@, k, b);
    assert forall|i: int| 0 <= i < b.len() implies #[trigger] b[i] == '0' || b[i] == '1' by {
        assert(map_text(m)[i] == if m[i] == 1 { '1' } else { '0' });
    }
    assert(bits_of(b) =~= m);
}

proof fn lemma_indices_decs(idx: Seq<usize>)
    ensures
        indices_of(decs(idx)) == Some(idx),
    decreases idx.len(),
{
    if idx.len() > 0 {
        lemma_indices_decs(idx.drop_last());
        assert(decs(idx).drop_last() =~= decs(idx.drop_last()));
        lemma_dec(idx.last() as nat);
        assert(decs(idx).last() == dec(idx.last() as nat));
        assert(idx.drop_last().push(idx.last()) =~= idx);
    } else {
        assert(decs(idx) =~= Seq::<Seq<char>>::empty());
    }
}

proof fn lemma_digits_lack(s: Seq<char>, c: char)
    requires
        all_digits(s),
        !('0' <= c && c <= '9'),
    ensures
        lacks(s, c),
{
    assert forall|i: int| 0 <= i < s.len() implies #[trigger] s[i] != c by {
        assert('0' <= s[i] && s[i] <= '9');
    }
}

/// A `getpieces` message reads back as its key and its indices, in order,
/// for a key of letters and digits.
pub proof fn lemma_getpieces_round_trip(k: Seq<char>, idx: Seq<usize>)
    requires
        all_alnum(k),
    ensures
        request_spec("getpieces "@ + ws_trim(k) + " ["@ + join(decs(idx), ' ') + "]\n"@) == (RequestView::Getpieces {
            key: k,
            pieces: idx,
        }),
{
    reveal_strlit("getpieces ");
    reveal_strlit("data ");
    reveal_strlit("have ");
    reveal_strlit(" [");
    reveal_strlit(" ");
    reveal_strlit("]\n");
    reveal_strlit("]");
    lemma_trim_alnum(k);
    let j = join(decs(idx), ' ');
    let inner = "["@ + j + "]"@;
    reveal_strlit("[");
    let line = "getpieces "@ + k + " ["@ + j + "]\n"@;
    let x = "getpieces "@ + k + " "@ + inner;
    assert(line =~= x + "\n"@) by {
        reveal_strlit("\n");
    }
    assert(x[0] == 'g');
    assert(x.last() == ']');
    lemma_trim_line(x);
    assert(after_verb(x, "data "@) is None) by {
        assert(x.take(5)[0] != "data "@[0]);
    }
    assert(after_verb(x, "have "@) is None) by {
        assert(x.take(5)[0] != "have "@[0]);
    }
    lemma_head("getpieces "@, k, inner);
    assert(inner.subrange(1, inner.len() - 1) =~= j);
    assert(bracketed(inner) == Some(j));
    lemma_indices_decs(idx);
    if idx.len() == 0 {
        assert(decs(idx) =~= Seq::<Seq<char>>::empty());
        assert(j =~= Seq::<char>::empty());
        assert(split_on(j, ' ') == seq![Seq::<char>::empty()]);
        assert(seq![Seq::<char>::empty()].drop_last() =~= Seq::<Seq<char>>::empty());
    } else {
        assert forall|i: int| 0 <= i < decs(idx).len() implies lacks(#[trigger] decs(idx)[i], ' ') by {
            lemma_dec(idx[i] as nat);
            lemma_digits_lack(dec(idx[i] as nat), ' ');
        }
        lemma_split_join(decs(idx), ' ');
    }
}

/// A piece of a `data` message as the formatter writes it.
pub open spec fn piece_text(i: usize, b: Seq<u8>) -> Seq<char> {
    dec(i as nat) + ":"@ + b64_text(b)
}

pub open spec fn piece_texts(ch: Seq<(usize, Seq<u8>)>) -> Seq<Seq<char>> {
    ch.map_values(|e: (usize, Seq<u8>)| piece_text(e.0, e.1))
}

/// The base64 text of `b` holds only alphabet characters and decodes to `b`.
pub open spec fn encodes_back(b: Seq<u8>) -> bool {
    &&& b64_bytes(b64_text(b)) == Some(b)
    &&& forall|i: int| 0 <= i < b64_text(b).len() ==> is_b64_char(#[trigger] b64_text(b)[i])
}

proof fn lemma_piece_round_trip(i: usize, b: Seq<u8>)
    requires
        encodes_back(b),
    ensures
        piece_of(piece_text(i, b)) == Some((i, b)),
        lacks(piece_text(i, b), ' '),
{
    reveal_strlit(":");
    lemma_dec(i as nat);
    lemma_digits_lack(dec(i as nat), ':');
    let d = dec(i as nat);
    let s = piece_text(i, b);
    assert(s =~= d.push(':') + b64_text(b));
    lemma_find_after(d, ':', b64_text(b));
    assert(s.take(d.len() as int) =~= d);
    assert(s.skip(d.len() as int + 1) =~= b64_text(b));
    assert forall|q: int| 0 <= q < s.len() implies #[trigger] s[q] != ' ' by {
        if q < d.len() {
            assert(s[q] == d[q]);
            assert('0' <= d[q] && d[q] <= '9');
        } else if q > d.len() {
            assert(s[q] == b64_text(b)[q - d.len() - 1]);
            assert(is_b64_char(b64_text(b)[q - d.len() - 1]));
        }
    }
}

proof fn lemma_pieces_texts(ch: Seq<(usize, Seq<u8>)>)
    requires
        forall|j: int| 0 <= j < ch.len() ==> encodes_back(#[trigger] ch[j].1),
    ensures
        pieces_of(piece_texts(ch)) == Some(ch),
        forall|j: int| 0 <= j < ch.len() ==> lacks(#[trigger] piece_texts(ch)[j], ' '),
    decreases ch.len(),
{
    if ch.len() > 0 {
        let init = ch.drop_last();
        assert forall|j: int| 0 <= j < init.len() implies encodes_back(#[trigger] init[j].1) by {
            assert(init[j] == ch[j]);
        }
        lemma_pieces_texts(init);
        assert(piece_texts(ch).drop_last() =~= piece_texts(init));
        let last = ch.last();
        assert(encodes_back(ch[ch.len() - 1].1));
        lemma_piece_round_trip(last.0, last.1);
        assert(piece_texts(ch).last() == piece_text(last.0, last.1));
        assert(init.push(last) =~= ch);
        assert forall|j: int| 0 <= j < ch.len() implies lacks(#[trigger] piece_texts(ch)[j], ' ') by {
            if j < ch.len() - 1 {
                assert(piece_texts(ch)[j] == piece_texts(init)[j]);
            }
        }
    } else {
        assert(piece_texts(ch) =~= Seq::<Seq<char>>::empty());
    }
}

/// A `data` message reads back as its key and its pieces, byte for byte and
/// in order, for a key of letters and digits and pieces whose base64 texts
/// decode back (as base64's standard engine guarantees for its own output).
pub proof fn lemma_data_round_trip(k: Seq<char>, ch: Seq<(usize, Seq<u8>)>)
    requires
        all_alnum(k),
        forall|j: int| 0 <= j < ch.len() ==> encodes_back(#[trigger] ch[j].1),
    ensures
        request_spec("data "@ + k + " ["@ + join(piece_texts(ch), ' ') + "]\n"@) == (RequestView::Data {
            key: k,
            chunks: ch,
        }),
        data_spec(trim("data "@ + k + " ["@ + join(piece_texts(ch), ' ') + "]\n"@)) == Some((k, ch)),
        ("data "@ + k + " ["@ + join(piece_texts(ch), ' ') + "]\n"@).take(5) == "data "@,
{
    reveal_strlit("data ");
    reveal_strlit(" [");
    reveal_strlit(" ");
    reveal_strlit("]\n");
    reveal_strlit("]");
    reveal_strlit("[");
    let j = join(piece_texts(ch), ' ');
    let inner = "["@ + j + "]"@;
    let line = "data "@ + k + " ["@ + j + "]\n"@;
    let x = "data "@ + k + " "@ + inner;
    assert(line =~= x + "\n"@) by {
        reveal_strlit("\n");
    }
    assert(x[0] == 'd');
    assert(x.last() == ']');
    lemma_trim_line(x);
    assert(line.take(5) =~= "data "@);
    lemma_head("data "@, k, inner);
    assert(inner.subrange(1, inner.len() - 1) =~= j);
    assert(bracketed(inner) == Some(j));
    lemma_pieces_texts(ch);
    if ch.len() == 0 {
        assert(piece_texts(ch) =~= Seq::<Seq<char>>::empty());
        assert(j =~= Seq::<char>::empty());
        assert(data_pieces(j) == Some(ch));
    } else {
        lemma_split_join(piece_texts(ch), ' ');
        assert(j.len() > 0) by {
            assert(j.len() >= piece_texts(ch)[0].len()) by {
                lemma_join_len(piece_texts(ch), ' ');
            }
            reveal_strlit(":");
            assert(piece_texts(ch)[0].len() > 0) by {
                lemma_dec(ch[0].0 as nat);
            }
        }
    }
}

proof fn lemma_join_len(parts: Seq<Seq<char>>, c: char)
    requires
        parts.len() > 0,
    ensures
        join(parts, c).len() >= parts[0].len(),
    decreases parts.len(),
{
    if parts.len() > 1 {
        lemma_join_len(parts.drop_last(), c);
    }
}

} // verus!
