//! Query strings and request paths: `parse_query` and `percent_decode_path`.

use vstd::prelude::*;
use crate::ext::{url_decode, url_decoded};
use crate::text::{
    join, join_exec, lemma_split_concat, lemma_split_free, lemma_split_nonempty, split, split_exec,
    split_once, split_once_exec, views,
};
use vstd::utf8::{encode_scalar, encode_utf8, encode_utf8_decode_utf8, encode_utf8_valid_utf8};
use crate::ext::percent_decode;

verus! {

/// `urlencoding::decode(s).unwrap_or(s)`: the decoded text, or `s` itself when decoding fails.
pub open spec fn decode_or_keep(s: Seq<char>) -> Seq<char> {
    match url_decoded(s) {
        Some(d) => d,
        None => s,
    }
}

pub fn decode_or_keep_exec(s: &str) -> (res: String)
    ensures
        res@ == decode_or_keep(s@),
{
    match url_decode(s) {
        Some(d) => d,
        None => s.to_owned(),
    }
}

/// One `key=value` piece of a query: split at the first `=` (no `=`: the value is empty), both
/// halves decoded.
pub open spec fn query_pair(p: Seq<char>) -> (Seq<char>, Seq<char>) {
    match split_once(p, '=') {
        Some((k, v)) => (decode_or_keep(k), decode_or_keep(v)),
        None => (decode_or_keep(p), decode_or_keep(Seq::empty())),
    }
}

/// The pairs of the pieces `parts`, the empty pieces skipped, in order.
pub open spec fn query_pairs(parts: Seq<Seq<char>>) -> Seq<(Seq<char>, Seq<char>)>
    decreases parts.len(),
{
    if parts.len() == 0 {
        Seq::empty()
    } else if parts.last().len() == 0 {
        query_pairs(parts.drop_last())
    } else {
        query_pairs(parts.drop_last()).push(query_pair(parts.last()))
    }
}

/// The pairs of the raw query `raw`, split at `&`.
pub open spec fn parse_query_spec(raw: Seq<char>) -> Seq<(Seq<char>, Seq<char>)> {
    query_pairs(split(raw, '&'))
}

/// The value of the last pair whose key is `key`: what a `HashMap` collected from the pairs holds.
pub open spec fn lookup(pairs: Seq<(Seq<char>, Seq<char>)>, key: Seq<char>) -> Option<Seq<char>>
    decreases pairs.len(),
{
    if pairs.len() == 0 {
        None
    } else if pairs.last().0 == key {
        Some(pairs.last().1)
    } else {
        lookup(pairs.drop_last(), key)
    }
}

/// A parsed query string: its decoded pairs in order of appearance.
pub struct Query {
    pub pairs: Vec<(String, String)>,
}

impl Query {
    pub open spec fn pairs_view(&self) -> Seq<(Seq<char>, Seq<char>)> {
        self.pairs@.map_values(|p: (String, String)| (p.0@, p.1@))
    }

    /// The value stored for `key`; a later pair wins over an earlier one.
    pub fn get(&self, key: &str) -> (res: Option<String>)
        ensures
            match res {
                Some(v) => lookup(self.pairs_view(), key@) == Some(v@),
                None => lookup(self.pairs_view(), key@) is None,
            },
    {
        let mut i: usize = self.pairs.len();
        assert(self.pairs_view().take(i as int) == self.pairs_view());
        while i > 0
            invariant
                i <= self.pairs.len(),
                lookup(self.pairs_view(), key@) == lookup(self.pairs_view().take(i as int), key@),
            decreases i,
        {
            let ghost t = self.pairs_view().take(i as int);
            assert(t.drop_last() == self.pairs_view().take(i - 1));
            assert(t.last() == (self.pairs@[i - 1].0@, self.pairs@[i - 1].1@));
            if self.pairs[i - 1].0 == key.to_owned() {
                return Some(self.pairs[i - 1].1.clone());
            }
            i -= 1;
        }
        None
    }

    /// Whether some pair has the key `key`.
    pub fn contains_key(&self, key: &str) -> (res: bool)
        ensures
            res == (lookup(self.pairs_view(), key@) is Some),
    {
        self.get(key).is_some()
    }
}

/// `parse_query`: the raw query split at `&`, empty pieces skipped, each piece split at its
/// first `=` and both halves percent-decoded (kept as they are when that fails).
pub fn parse_query(raw: &str) -> (res: Query)
    ensures
        res.pairs_view() == parse_query_spec(raw@),
{
    let parts = split_exec(raw, '&');
    let mut pairs: Vec<(String, String)> = Vec::new();
    let mut i: usize = 0;
    while i < parts.len()
        invariant
            i <= parts.len(),
            views(parts@) == split(raw@, '&'),
            pairs@.map_values(|p: (String, String)| (p.0@, p.1@)) == query_pairs(
                views(parts@).take(i as int),
            ),
        decreases parts.len() - i,
    {
        let ghost before = pairs@;
        proof {
            assert(views(parts@).take(i + 1).drop_last() == views(parts@).take(i as int));
            assert(views(parts@).take(i + 1).last() == parts@[i as int]@);
        }
        let p = &parts[i];
        if !p.as_str().is_empty() {
            let pair = match split_once_exec(p.as_str(), '=') {
                Some((k, v)) => (decode_or_keep_exec(k.as_str()), decode_or_keep_exec(v.as_str())),
                None => (decode_or_keep_exec(p.as_str()), decode_or_keep_exec("")),
            };
            proof {
                reveal_strlit("");
            }
            pairs.push(pair);
            assert(pairs@.map_values(|p: (String, String)| (p.0@, p.1@)) =~= before.map_values(
                |p: (String, String)| (p.0@, p.1@),
            ).push((pair.0@, pair.1@)));
        }
        i += 1;
    }
    assert(views(parts@).take(parts.len() as int) == views(parts@));
    Query { pairs }
}

/// `percent_decode_path`: each `/`-separated segment decoded on its own, then joined with `/`.
pub open spec fn percent_decode_path_spec(path: Seq<char>) -> Seq<char> {
    join(split(path, '/').map_values(|p: Seq<char>| decode_or_keep(p)), seq!['/'])
}

pub fn percent_decode_path(path: &str) -> (res: String)
    ensures
        res@ == percent_decode_path_spec(path@),
{
    let parts = split_exec(path, '/');
    let mut decoded: Vec<String> = Vec::new();
    let mut i: usize = 0;
    assert(views(decoded@) =~= views(parts@).take(0).map_values(|p: Seq<char>| decode_or_keep(p)));
    while i < parts.len()
        invariant
            i <= parts.len(),
            decoded.len() == i,
            views(parts@) == split(path@, '/'),
            views(decoded@) == views(parts@).take(i as int).map_values(
                |p: Seq<char>| decode_or_keep(p),
            ),
        decreases parts.len() - i,
    {
        let d = decode_or_keep_exec(parts[i].as_str());
        let ghost before = decoded@;
        decoded.push(d);
        i += 1;
        assert(views(decoded@) =~= views(parts@).take(i as int).map_values(
            |p: Seq<char>| decode_or_keep(p),
        )) by {
            assert forall|j: int| 0 <= j < i implies views(decoded@)[j] == views(parts@).take(
                i as int,
            ).map_values(|p: Seq<char>| decode_or_keep(p))[j] by {
                if j < i - 1 {
                    assert(decoded@[j] == before[j]);
                    assert(views(before)[j] == views(parts@).take(i - 1).map_values(
                        |p: Seq<char>| decode_or_keep(p),
                    )[j]);
                }
            }
        }
    }
    assert(views(parts@).take(parts.len() as int) == views(parts@));
    let sep = "/";
    proof {
        reveal_strlit("/");
        assert(sep@ =~= seq!['/']);
    }
    let res = join_exec(&decoded, sep);
    assert(views(decoded@) == split(path@, '/').map_values(|p: Seq<char>| decode_or_keep(p)));
    res
}

proof fn lemma_scalar_has_no_percent(u: u32)
    requires
        u != 37,
    ensures
        forall|i: int| 0 <= i < encode_scalar(u).len() ==> encode_scalar(u)[i] != 37,
{
    assert(u <= 0x7f ==> (u & 0x7f) as u8 != 37) by (bit_vector)
        requires
            u != 37,
    ;
    assert(0xC0 | ((u >> 6) & 0x1F) as u8 != 37) by (bit_vector);
    assert(0xE0 | ((u >> 12) & 0x0F) as u8 != 37) by (bit_vector);
    assert(0xF0 | ((u >> 18) & 0x7) as u8 != 37) by (bit_vector);
    assert(0x80 | (u & 0x3F) as u8 != 37) by (bit_vector);
    assert(0x80 | ((u >> 6) & 0x3F) as u8 != 37) by (bit_vector);
    assert(0x80 | ((u >> 12) & 0x3F) as u8 != 37) by (bit_vector);
}

proof fn lemma_encode_has_no_percent(s: Seq<char>)
    requires
        !s.contains('%'),
    ensures
        forall|i: int| 0 <= i < encode_utf8(s).len() ==> encode_utf8(s)[i] != 37,
    decreases s.len(),
{
    if s.len() > 0 {
        assert(!s.drop_first().contains('%')) by {
            if s.drop_first().contains('%') {
                let k = choose|k: int| 0 <= k < s.drop_first().len() && s.drop_first()[k] == '%';
                assert(s[k + 1] == '%');
            }
        }
        lemma_encode_has_no_percent(s.drop_first());
        assert(s[0] != '%');
        assert((s[0] as u32) != 37) by {
            if (s[0] as u32) == 37 {
                vstd::utf8::char_u32_cast(s[0], 37);
                vstd::utf8::char_u32_cast('%', '%' as u32);
            }
        }
        lemma_scalar_has_no_percent(s[0] as u32);
        let a = encode_scalar(s[0] as u32);
        let b = encode_utf8(s.drop_first());
        assert forall|i: int| 0 <= i < encode_utf8(s).len() implies encode_utf8(s)[i] != 37 by {
            if i < a.len() {
                assert(encode_utf8(s)[i] == a[i]);
            } else {
                assert(encode_utf8(s)[i] == b[i - a.len()]);
            }
        }
    }
}

proof fn lemma_percent_decode_plain(b: Seq<u8>)
    requires
        forall|i: int| 0 <= i < b.len() ==> b[i] != 37,
    ensures
        percent_decode(b) == b,
    decreases b.len(),
{
    if b.len() > 0 {
        assert forall|i: int| 0 <= i < b.drop_first().len() implies b.drop_first()[i] != 37 by {
            assert(b.drop_first()[i] == b[i + 1]);
        }
        lemma_percent_decode_plain(b.drop_first());
        assert(seq![b[0]] + b.drop_first() =~= b);
    }
}

/// A text without `%` decodes to itself.
pub proof fn lemma_plain_text_decodes_to_itself(s: Seq<char>)
    requires
        !s.contains('%'),
    ensures
        decode_or_keep(s) == s,
{
    lemma_encode_has_no_percent(s);
    lemma_percent_decode_plain(encode_utf8(s));
    encode_utf8_valid_utf8(s);
    encode_utf8_decode_utf8(s);
}

proof fn lemma_split_pieces_within(s: Seq<char>, sep: char, c: char)
    requires
        !s.contains(c),
    ensures
        forall|k: int| 0 <= k < split(s, sep).len() ==> !(#[trigger] split(s, sep)[k]).contains(c),
    decreases s.len(),
{
    if s.len() > 0 {
        assert(!s.drop_last().contains(c)) by {
            if s.drop_last().contains(c) {
                let j = choose|j: int| 0 <= j < s.drop_last().len() && s.drop_last()[j] == c;
                assert(s[j] == c);
            }
        }
        lemma_split_pieces_within(s.drop_last(), sep, c);
        crate::text::lemma_split_nonempty(s.drop_last(), sep);
        let p = split(s.drop_last(), sep);
        assert(s.last() != c) by {
            assert(s[s.len() - 1] == s.last());
        }
        assert forall|k: int| 0 <= k < split(s, sep).len() implies !(#[trigger] split(s, sep)[k]).contains(c) by {
            if s.last() == sep {
                if k < p.len() {
                    assert(split(s, sep)[k] == p[k]);
                } else {
                    assert(split(s, sep)[k] =~= Seq::<char>::empty());
                }
            } else {
                if k < p.len() - 1 {
                    assert(split(s, sep)[k] == p[k]);
                } else {
                    let q = p.last().push(s.last());
                    assert(split(s, sep)[k] == q);
                    if q.contains(c) {
                        let j = choose|j: int| 0 <= j < q.len() && q[j] == c;
                        assert(p.last() == p[p.len() - 1]);
                        if j < p.last().len() {
                            assert(p.last()[j] == q[j]);
                        }
                    }
                }
            }
        }
    }
}

/// A request path without `%` is the object key as it is: decoding leaves it unchanged.
pub proof fn law_plain_path_unchanged(path: Seq<char>)
    requires
        !path.contains('%'),
    ensures
        percent_decode_path_spec(path) == path,
{
    let pieces = split(path, '/');
    lemma_split_pieces_within(path, '/', '%');
    let m = pieces.map_values(|p: Seq<char>| decode_or_keep(p));
    assert forall|k: int| 0 <= k < pieces.len() implies m[k] == pieces[k] by {
        lemma_plain_text_decodes_to_itself(pieces[k]);
    }
    assert(m =~= pieces);
    crate::text::law_join_split(path, '/');
}


/// `s` with each `%` written as `%25`, as a client percent-encodes a key's literal `%`.
pub open spec fn escape_percent(s: Seq<char>) -> Seq<char>
    decreases s.len(),
{
    if s.len() == 0 {
        s
    } else if s[0] == '%' {
        seq!['%', '2', '5'] + escape_percent(s.drop_first())
    } else {
        seq![s[0]] + escape_percent(s.drop_first())
    }
}

proof fn lemma_escape_keeps_out(s: Seq<char>, c: char)
    requires
        !s.contains(c),
        c != '%' && c != '2' && c != '5',
    ensures
        !escape_percent(s).contains(c),
    decreases s.len(),
{
    if s.len() > 0 {
        assert(!s.drop_first().contains(c)) by {
            if s.drop_first().contains(c) {
                let k = choose|k: int| 0 <= k < s.drop_first().len() && s.drop_first()[k] == c;
                assert(s[k + 1] == c);
            }
        }
        lemma_escape_keeps_out(s.drop_first(), c);
        let r = escape_percent(s.drop_first());
        let h = if s[0] == '%' {
            seq!['%', '2', '5']
        } else {
            seq![s[0]]
        };
        assert(escape_percent(s) == h + r);
        assert(s[0] != c);
        assert forall|j: int| 0 <= j < (h + r).len() implies (h + r)[j] != c by {
            if j >= h.len() {
                assert((h + r)[j] == r[j - h.len()]);
            }
        }
    }
}

proof fn lemma_percent_decode_after_plain(a: Seq<u8>, b: Seq<u8>)
    requires
        forall|i: int| 0 <= i < a.len() ==> a[i] != 37,
    ensures
        percent_decode(a + b) == a + percent_decode(b),
    decreases a.len(),
{
    if a.len() == 0 {
        assert(a + b =~= b);
        assert(a + percent_decode(b) =~= percent_decode(b));
    } else {
        assert forall|i: int| 0 <= i < a.drop_first().len() implies a.drop_first()[i] != 37 by {
            assert(a.drop_first()[i] == a[i + 1]);
        }
        lemma_percent_decode_after_plain(a.drop_first(), b);
        assert((a + b)[0] == a[0]);
        assert((a + b).drop_first() =~= a.drop_first() + b);
        assert(seq![a[0]] + (a.drop_first() + percent_decode(b)) =~= a + percent_decode(b));
    }
}

/// Percent-decoding the UTF-8 bytes of an escaped text gives the text's own bytes.
proof fn lemma_decode_escaped_bytes(s: Seq<char>)
    ensures
        percent_decode(encode_utf8(escape_percent(s))) == encode_utf8(s),
    decreases s.len(),
{
    if s.len() > 0 {
        lemma_decode_escaped_bytes(s.drop_first());
        let rest = escape_percent(s.drop_first());
        let rb = encode_utf8(rest);
        if s[0] == '%' {
            let e = seq!['%', '2', '5'] + rest;
            assert(e[0] == '%' && e.drop_first()[0] == '2' && e.drop_first().drop_first()[0] == '5');
            assert(e.drop_first().drop_first().drop_first() =~= rest);
            assert(('%' as u32) == 37 && ('2' as u32) == 50 && ('5' as u32) == 53);
            assert((37u32 & 0x7F) as u8 == 37u8) by (bit_vector);
            assert((50u32 & 0x7F) as u8 == 50u8) by (bit_vector);
            assert((53u32 & 0x7F) as u8 == 53u8) by (bit_vector);
            assert(encode_scalar(37) =~= seq![37u8]);
            assert(encode_scalar(50) =~= seq![50u8]);
            assert(encode_scalar(53) =~= seq![53u8]);
            let eb = encode_utf8(e);
            assert(encode_utf8(e.drop_first().drop_first()) == seq![53u8] + rb);
            assert(encode_utf8(e.drop_first()) == seq![50u8] + (seq![53u8] + rb));
            assert(eb == seq![37u8] + (seq![50u8] + (seq![53u8] + rb)));
            assert(eb =~= seq![37u8, 50u8, 53u8] + rb);
            assert(eb[0] == 37 && eb[1] == 50 && eb[2] == 53);
            assert(eb.skip(3) =~= rb);
            assert(encode_utf8(s) == encode_scalar(s[0] as u32) + encode_utf8(s.drop_first()));
            assert(percent_decode(eb) == seq![37u8] + percent_decode(rb));
        } else {
            let e = seq![s[0]] + rest;
            assert(e[0] == s[0]);
            assert(e.drop_first() =~= rest);
            assert((s[0] as u32) != 37) by {
                if (s[0] as u32) == 37 {
                    vstd::utf8::char_u32_cast(s[0], 37);
                    vstd::utf8::char_u32_cast('%', '%' as u32);
                }
            }
            lemma_scalar_has_no_percent(s[0] as u32);
            let h = encode_scalar(s[0] as u32);
            assert(encode_utf8(e) == h + rb);
            lemma_percent_decode_after_plain(h, rb);
        }
    }
}

/// An escaped text decodes to the text.
proof fn lemma_escaped_decodes(s: Seq<char>)
    ensures
        decode_or_keep(escape_percent(s)) == s,
{
    lemma_decode_escaped_bytes(s);
    encode_utf8_valid_utf8(s);
    encode_utf8_decode_utf8(s);
}

/// Splitting pieces joined with a separator that none of them holds gives the pieces back.
proof fn lemma_split_of_join(l: Seq<Seq<char>>, sep: char)
    requires
        l.len() >= 1,
        forall|i: int| 0 <= i < l.len() ==> !(#[trigger] l[i]).contains(sep),
    ensures
        split(join(l, seq![sep]), sep) == l,
    decreases l.len(),
{
    if l.len() == 1 {
        lemma_split_free(l[0], sep);
        assert(l =~= seq![l[0]]);
    } else {
        let ld = l.drop_last();
        assert forall|i: int| 0 <= i < ld.len() implies !(#[trigger] ld[i]).contains(sep) by {
            assert(ld[i] == l[i]);
        }
        lemma_split_of_join(ld, sep);
        assert(!l.last().contains(sep)) by {
            assert(l[l.len() - 1] == l.last());
        }
        lemma_split_free(l.last(), sep);
        lemma_split_concat(join(ld, seq![sep]), l.last(), sep);
        assert(ld + seq![l.last()] =~= l);
    }
}

/// A key decodes back from its request path: with each segment's `%` sent as `%25`, decoding the
/// path, one pass per segment, gives the key itself, whatever `%` it holds.
pub proof fn law_escaped_key_decodes_back(key: Seq<char>)
    ensures
        percent_decode_path_spec(
            join(split(key, '/').map_values(|p: Seq<char>| escape_percent(p)), seq!['/']),
        ) == key,
{
    let pieces = split(key, '/');
    crate::text::lemma_split_pieces_free(key, '/');
    lemma_split_nonempty(key, '/');
    let esc = pieces.map_values(|p: Seq<char>| escape_percent(p));
    assert forall|i: int| 0 <= i < esc.len() implies !(#[trigger] esc[i]).contains('/') by {
        assert(!pieces[i].contains('/'));
        lemma_escape_keeps_out(pieces[i], '/');
    }
    lemma_split_of_join(esc, '/');
    let dec = esc.map_values(|p: Seq<char>| decode_or_keep(p));
    assert forall|i: int| 0 <= i < dec.len() implies dec[i] == pieces[i] by {
        lemma_escaped_decodes(pieces[i]);
    }
    assert(dec =~= pieces);
    crate::text::law_join_split(key, '/');
}

} // verus!
