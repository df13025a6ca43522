//! The Quark session cookie: reading `Set-Cookie` values and rewriting one cookie pair.

use vstd::prelude::*;
use crate::text::{
    append, chars_of, find_char, find_char_exec, join, join_exec, split, split_exec, starts_with,
    starts_with_exec, string_of_range, string_push, trim, trim_exec, views, contains, occurs_at,
    is_ws, lemma_split_concat, lemma_split_free, lemma_split_pieces_free, lemma_trim_run,
    lemma_trim_twice, lemma_trim_leading_space, lemma_trim_keeps_free, lemma_strip_back_index,
    lemma_trim_of_trimmed, strip_front, ws_pred,
};

verus! {

/// `name=`.
pub open spec fn name_eq(name: Seq<char>) -> Seq<char> {
    name.push('=')
}

/// The text of a `Set-Cookie` value before its first `;`: its `name=value` pair.
pub open spec fn first_attr(s: Seq<char>) -> Seq<char> {
    match find_char(s, ';') {
        Some(i) => s.take(i),
        None => s,
    }
}

/// The value that a `Set-Cookie` header sets for `name`, if it sets that cookie.
pub open spec fn set_cookie_value_of(set_cookie: Seq<char>, name: Seq<char>) -> Option<Seq<char>> {
    let f = first_attr(set_cookie);
    if starts_with(f, name_eq(name)) {
        Some(f.skip(name.len() as int + 1))
    } else {
        None
    }
}

fn name_eq_exec(name: &str) -> (res: String)
    ensures
        res@ == name_eq(name@),
{
    let mut s = String::new();
    append(&mut s, name);
    string_push(&mut s, '=');
    assert(s@ =~= name_eq(name@));
    s
}

/// `parse_set_cookie_value`: the value of `name` in the `name=value` pair that opens `set_cookie`.
pub fn parse_set_cookie_value(set_cookie: &str, name: &str) -> (res: Option<String>)
    ensures
        match res {
            Some(v) => set_cookie_value_of(set_cookie@, name@) == Some(v@),
            None => set_cookie_value_of(set_cookie@, name@) is None,
        },
{
    let cs = chars_of(set_cookie);
    let end = match find_char_exec(&cs, ';') {
        Some(i) => {
            proof {
                crate::text::lemma_find_char(cs@, ';');
            }
            i
        },
        None => cs.len(),
    };
    let first = string_of_range(&cs, 0, end);
    assert(first@ == first_attr(set_cookie@));
    let prefix = name_eq_exec(name);
    if starts_with_exec(first.as_str(), prefix.as_str()) {
        let fc = chars_of(first.as_str());
        let pc = chars_of(prefix.as_str());
        let v = string_of_range(&fc, pc.len(), fc.len());
        Some(v)
    } else {
        None
    }
}

/// The trimmed, non-empty pieces among `pieces`.
pub open spec fn cookie_parts(pieces: Seq<Seq<char>>) -> Seq<Seq<char>>
    decreases pieces.len(),
{
    if pieces.len() == 0 {
        Seq::empty()
    } else if trim(pieces.last()).len() == 0 {
        cookie_parts(pieces.drop_last())
    } else {
        cookie_parts(pieces.drop_last()).push(trim(pieces.last()))
    }
}

/// `name=value`.
pub open spec fn pair(name: Seq<char>, value: Seq<char>) -> Seq<char> {
    name_eq(name) + value
}

/// Each part that sets `name` replaced by `name=value`.
pub open spec fn replace_pairs(parts: Seq<Seq<char>>, name: Seq<char>, value: Seq<char>) -> Seq<
    Seq<char>,
> {
    parts.map_values(
        |p: Seq<char>|
            if starts_with(p, name_eq(name)) {
                pair(name, value)
            } else {
                p
            },
    )
}

pub open spec fn sets_name(parts: Seq<Seq<char>>, name: Seq<char>) -> bool {
    exists|i: int| 0 <= i < parts.len() && starts_with(#[trigger] parts[i], name_eq(name))
}

pub open spec fn semi_space() -> Seq<char> {
    seq![';', ' ']
}

/// The cookie header `cookie` with the pair of `name` set to `value`: every pair of `name` is
/// rewritten, or the pair is added at the end; pairs are trimmed and joined with `"; "`.
pub open spec fn with_cookie(cookie: Seq<char>, name: Seq<char>, value: Seq<char>) -> Seq<char> {
    let parts = cookie_parts(split(cookie, ';'));
    let r = replace_pairs(parts, name, value);
    join(
        if sets_name(parts, name) {
            r
        } else {
            r.push(pair(name, value))
        },
        semi_space(),
    )
}

/// `set_cookie_value`.
pub fn set_cookie_value(cookie: &str, name: &str, value: &str) -> (res: String)
    ensures
        res@ == with_cookie(cookie@, name@, value@),
{
    let pieces = split_exec(cookie, ';');
    let prefix = name_eq_exec(name);
    let mut kv = prefix.clone();
    append(&mut kv, value);
    assert(kv@ == pair(name@, value@));
    let mut found = false;
    let mut parts: Vec<String> = Vec::new();
    let ghost trimmed: Seq<Seq<char>> = Seq::empty();
    let mut i: usize = 0;
    assert(views(parts@) =~= replace_pairs(trimmed, name@, value@));
    assert(views(pieces@).take(0) =~= Seq::<Seq<char>>::empty());
    while i < pieces.len()
        invariant
            i <= pieces.len(),
            parts@.len() == trimmed.len(),
            views(pieces@) == split(cookie@, ';'),
            prefix@ == name_eq(name@),
            kv@ == pair(name@, value@),
            trimmed == cookie_parts(views(pieces@).take(i as int)),
            views(parts@) == replace_pairs(trimmed, name@, value@),
            found == sets_name(trimmed, name@),
        decreases pieces.len() - i,
    {
        proof {
            assert(views(pieces@).take(i + 1).drop_last() == views(pieces@).take(i as int));
            assert(views(pieces@).take(i + 1).last() == pieces@[i as int]@);
        }
        let t = trim_exec(pieces[i].as_str());
        if !t.as_str().is_empty() {
            let ghost old_trimmed = trimmed;
            let ghost old_parts = parts@;
            let hit = starts_with_exec(t.as_str(), prefix.as_str());
            if hit {
                parts.push(kv.clone());
                found = true;
            } else {
                parts.push(t);
            }
            proof {
                trimmed = old_trimmed.push(t@);
                assert(views(parts@) =~= replace_pairs(trimmed, name@, value@)) by {
                    assert forall|j: int| 0 <= j < trimmed.len() implies views(parts@)[j]
                        == replace_pairs(trimmed, name@, value@)[j] by {
                        if j < old_trimmed.len() {
                            assert(parts@[j] == old_parts[j]);
                            assert(views(old_parts)[j] == replace_pairs(old_trimmed, name@, value@)[j]);
                        }
                    }
                }
                if hit {
                    assert(starts_with(trimmed[old_trimmed.len() as int], name_eq(name@)));
                } else if found {
                    let k = choose|k: int|
                        0 <= k < old_trimmed.len() && starts_with(
                            #[trigger] old_trimmed[k],
                            name_eq(name@),
                        );
                    assert(trimmed[k] == old_trimmed[k]);
                } else {
                    assert forall|k: int| 0 <= k < trimmed.len() implies !starts_with(
                        #[trigger] trimmed[k],
                        name_eq(name@),
                    ) by {
                        if k < old_trimmed.len() {
                            assert(trimmed[k] == old_trimmed[k]);
                        }
                    }
                }
            }
        }
        i += 1;
    }
    assert(views(pieces@).take(pieces.len() as int) == views(pieces@));
    if !found {
        let ghost before = parts@;
        parts.push(kv);
        assert(views(parts@) =~= views(before).push(pair(name@, value@)));
    }
    let sep = "; ";
    proof {
        reveal_strlit("; ");
        assert(sep@ =~= semi_space());
    }
    join_exec(&parts, sep)
}

pub open spec fn puus() -> Seq<char> {
    seq!['_', '_', 'p', 'u', 'u', 's']
}

pub open spec fn pus() -> Seq<char> {
    seq!['_', '_', 'p', 'u', 's']
}

/// The cookie after one `Set-Cookie` value: its `__puus`, then its `__pus` pair, applied.
pub open spec fn apply_set_cookie(cookie: Seq<char>, set_cookie: Seq<char>) -> Seq<char> {
    let c1 = match set_cookie_value_of(set_cookie, puus()) {
        Some(v) => with_cookie(cookie, puus(), v),
        None => cookie,
    };
    match set_cookie_value_of(set_cookie, pus()) {
        Some(v) => with_cookie(c1, pus(), v),
        None => c1,
    }
}

/// The cookie after the `Set-Cookie` values `values`, in order.
pub open spec fn apply_set_cookies(cookie: Seq<char>, values: Seq<Seq<char>>) -> Seq<char>
    decreases values.len(),
{
    if values.len() == 0 {
        cookie
    } else {
        apply_set_cookie(apply_set_cookies(cookie, values.drop_last()), values.last())
    }
}

/// `QuarkClient::update_cookie`: the session cookie after the response's `Set-Cookie` headers
/// (those readable as text), each giving its `__puus` and `__pus` pairs.
pub fn update_cookie(cookie: &str, set_cookies: &Vec<String>) -> (res: String)
    ensures
        res@ == apply_set_cookies(cookie@, views(set_cookies@)),
{
    let mut c = cookie.to_owned();
    let n1 = "__puus";
    let n2 = "__pus";
    proof {
        reveal_strlit("__puus");
        reveal_strlit("__pus");
        assert(n1@ =~= puus());
        assert(n2@ =~= pus());
    }
    let mut i: usize = 0;
    assert(views(set_cookies@).take(0) =~= Seq::<Seq<char>>::empty());
    while i < set_cookies.len()
        invariant
            i <= set_cookies.len(),
            n1@ == puus(),
            n2@ == pus(),
            c@ == apply_set_cookies(cookie@, views(set_cookies@).take(i as int)),
        decreases set_cookies.len() - i,
    {
        proof {
            assert(views(set_cookies@).take(i + 1).drop_last() == views(set_cookies@).take(
                i as int,
            ));
            assert(views(set_cookies@).take(i + 1).last() == set_cookies@[i as int]@);
        }
        let s = set_cookies[i].as_str();
        if let Some(v) = parse_set_cookie_value(s, n1) {
            c = set_cookie_value(c.as_str(), n1, v.as_str());
        }
        if let Some(v) = parse_set_cookie_value(s, n2) {
            c = set_cookie_value(c.as_str(), n2, v.as_str());
        }
        i += 1;
    }
    assert(views(set_cookies@).take(set_cookies.len() as int) == views(set_cookies@));
    c
}

proof fn lemma_occurs_extend(s: Seq<char>, t: Seq<char>, p: Seq<char>, i: int)
    requires
        occurs_at(s, p, i),
    ensures
        occurs_at(s + t, p, i),
{
    assert((s + t).subrange(i, i + p.len()) =~= s.subrange(i, i + p.len()));
}

/// A joined sequence holds each of its parts.
pub proof fn lemma_join_contains(parts: Seq<Seq<char>>, sep: Seq<char>, k: int)
    requires
        0 <= k < parts.len(),
    ensures
        contains(join(parts, sep), parts[k]),
    decreases parts.len(),
{
    if parts.len() == 1 {
        assert(occurs_at(join(parts, sep), parts[k], 0)) by {
            assert(parts[0].subrange(0, parts[0].len() as int) =~= parts[0]);
        }
    } else {
        let front = join(parts.drop_last(), sep);
        if k == parts.len() - 1 {
            let i: int = (front.len() + sep.len()) as int;
            assert((front + sep + parts.last()).subrange(i, i + parts.last().len() as int)
                =~= parts.last());
            assert(occurs_at(join(parts, sep), parts[k], i));
        } else {
            lemma_join_contains(parts.drop_last(), sep, k);
            let i = choose|i: int| occurs_at(front, parts[k], i);
            lemma_occurs_extend(front, sep + parts.last(), parts[k], i);
            assert(front + (sep + parts.last()) == front + sep + parts.last());
            assert(occurs_at(join(parts, sep), parts[k], i));
        }
    }
}

/// After `set_cookie_value(cookie, name, value)` the cookie holds the pair `name=value`.
pub proof fn law_set_cookie_holds_pair(cookie: Seq<char>, name: Seq<char>, value: Seq<char>)
    ensures
        contains(with_cookie(cookie, name, value), pair(name, value)),
{
    let parts = cookie_parts(split(cookie, ';'));
    let r = replace_pairs(parts, name, value);
    if sets_name(parts, name) {
        let k = choose|k: int| 0 <= k < parts.len() && starts_with(#[trigger] parts[k], name_eq(name));
        lemma_join_contains(r, semi_space(), k);
    } else {
        lemma_join_contains(r.push(pair(name, value)), semi_space(), r.len() as int);
    }
}


/// The pairs of a cookie are trimmed, not empty, and hold no `;`, when its pieces hold none.
proof fn lemma_cookie_parts_clean(pieces: Seq<Seq<char>>)
    requires
        forall|i: int| 0 <= i < pieces.len() ==> !(#[trigger] pieces[i]).contains(';'),
    ensures
        forall|i: int|
            0 <= i < cookie_parts(pieces).len() ==> {
                &&& !(#[trigger] cookie_parts(pieces)[i]).contains(';')
                &&& cookie_parts(pieces)[i].len() > 0
                &&& trim(cookie_parts(pieces)[i]) == cookie_parts(pieces)[i]
            },
    decreases pieces.len(),
{
    if pieces.len() > 0 {
        lemma_cookie_parts_clean(pieces.drop_last());
        let x = pieces.last();
        assert(!x.contains(';'));
        lemma_trim_keeps_free(x, ';');
        lemma_trim_twice(x);
        let p = cookie_parts(pieces.drop_last());
        assert forall|i: int| 0 <= i < cookie_parts(pieces).len() implies {
            &&& !(#[trigger] cookie_parts(pieces)[i]).contains(';')
            &&& cookie_parts(pieces)[i].len() > 0
            &&& trim(cookie_parts(pieces)[i]) == cookie_parts(pieces)[i]
        } by {
            if i < p.len() {
                assert(cookie_parts(pieces)[i] == p[i]);
            }
        }
    }
}

/// The pairs read back from pairs joined with `"; "` are those pairs, trimmed.
proof fn lemma_parts_of_joined(l: Seq<Seq<char>>)
    requires
        l.len() >= 1,
        forall|i: int|
            0 <= i < l.len() ==> !(#[trigger] l[i]).contains(';') && trim(l[i]).len() > 0,
    ensures
        cookie_parts(split(join(l, semi_space()), ';')) == l.map_values(|x: Seq<char>| trim(x)),
    decreases l.len(),
{
    if l.len() == 1 {
        assert(!l[0].contains(';'));
        lemma_split_free(l[0], ';');
        assert(seq![l[0]].drop_last() =~= Seq::<Seq<char>>::empty());
        assert(seq![l[0]].last() == l[0]);
        assert(cookie_parts(Seq::<Seq<char>>::empty()) == Seq::<Seq<char>>::empty());
        assert(l =~= seq![l[0]]);
        assert(cookie_parts(seq![l[0]]) =~= seq![trim(l[0])]);
        assert(l.map_values(|x: Seq<char>| trim(x)) =~= seq![trim(l[0])]);
    } else {
        let ld = l.drop_last();
        let x = l.last();
        assert forall|i: int| 0 <= i < ld.len() implies !(#[trigger] ld[i]).contains(';') && trim(
            ld[i],
        ).len() > 0 by {
            assert(ld[i] == l[i]);
        }
        lemma_parts_of_joined(ld);
        assert(!x.contains(';') && trim(x).len() > 0);
        let y = seq![' '] + x;
        let front = join(ld, semi_space());
        assert(join(l, semi_space()) =~= front + seq![';'] + y);
        lemma_split_concat(front, y, ';');
        assert(!y.contains(';')) by {
            if y.contains(';') {
                let j = choose|j: int| 0 <= j < y.len() && y[j] == ';';
                assert(j > 0);
                assert(y[j] == x[j - 1]);
            }
        }
        lemma_split_free(y, ';');
        lemma_trim_leading_space(x);
        let pieces = split(front, ';') + seq![y];
        assert(pieces.drop_last() =~= split(front, ';'));
        assert(pieces.last() == y);
        assert(l.map_values(|x: Seq<char>| trim(x)) =~= ld.map_values(|x: Seq<char>| trim(x)).push(
            trim(x),
        ));
    }
}

/// The pair `name=value`, trimmed, still sets `name` and is not empty, when `name` does not
/// start with white space.
proof fn lemma_trim_pair(name: Seq<char>, value: Seq<char>)
    requires
        name.len() == 0 || !is_ws(name[0]),
    ensures
        trim(pair(name, value)).len() > 0,
        starts_with(trim(pair(name, value)), name_eq(name)),
{
    let p = pair(name, value);
    assert(p[name.len() as int] == '=');
    assert(!is_ws('='));
    assert(!is_ws(p[0])) by {
        if name.len() > 0 {
            assert(p[0] == name[0]);
        }
    }
    assert(strip_front(p, ws_pred()) == p);
    let k = lemma_strip_back_index(p, ws_pred());
    assert(k > name.len()) by {
        if k <= name.len() {
            assert(ws_pred()(p[name.len() as int]));
        }
    }
    assert(trim(p) == p.take(k));
    assert(p.take(k).take(name.len() as int + 1) =~= name_eq(name));
}

/// Setting a cookie twice is setting it once to the second value: the second write wins, and
/// writing the same value again changes nothing. `name` and the first value hold no `;`, and
/// `name` does not start with white space, so that the first write reads back as one pair.
pub proof fn law_set_cookie_last_wins(
    cookie: Seq<char>,
    name: Seq<char>,
    v1: Seq<char>,
    v2: Seq<char>,
)
    requires
        !name.contains(';'),
        !v1.contains(';'),
        name.len() == 0 || !is_ws(name[0]),
    ensures
        with_cookie(with_cookie(cookie, name, v1), name, v2) == with_cookie(cookie, name, v2),
{
    let parts = cookie_parts(split(cookie, ';'));
    lemma_split_pieces_free(cookie, ';');
    lemma_cookie_parts_clean(split(cookie, ';'));
    let kv1 = pair(name, v1);
    assert(!kv1.contains(';')) by {
        if kv1.contains(';') {
            let j = choose|j: int| 0 <= j < kv1.len() && kv1[j] == ';';
            if j < name.len() {
                assert(kv1[j] == name[j]);
            } else if j > name.len() {
                assert(kv1[j] == v1[j - name.len() - 1]);
            }
        }
    }
    lemma_trim_pair(name, v1);
    let r1 = replace_pairs(parts, name, v1);
    let l1 = if sets_name(parts, name) {
        r1
    } else {
        r1.push(kv1)
    };
    assert forall|i: int| 0 <= i < l1.len() implies !(#[trigger] l1[i]).contains(';') && trim(
        l1[i],
    ).len() > 0 by {
        if i < parts.len() {
            assert(r1[i] == (if starts_with(parts[i], name_eq(name)) {
                kv1
            } else {
                parts[i]
            }));
        }
    }
    assert(l1.len() >= 1) by {
        if sets_name(parts, name) {
            let k = choose|k: int| 0 <= k < parts.len() && starts_with(#[trigger] parts[k], name_eq(name));
        }
    }
    lemma_parts_of_joined(l1);
    let parts1 = l1.map_values(|x: Seq<char>| trim(x));
    assert(cookie_parts(split(with_cookie(cookie, name, v1), ';')) == parts1);
    let r2 = replace_pairs(parts, name, v2);
    let target = if sets_name(parts, name) {
        r2
    } else {
        r2.push(pair(name, v2))
    };
    assert(sets_name(parts1, name)) by {
        if sets_name(parts, name) {
            let k = choose|k: int| 0 <= k < parts.len() && starts_with(#[trigger] parts[k], name_eq(name));
            assert(parts1[k] == trim(kv1));
        } else {
            assert(parts1[parts.len() as int] == trim(kv1));
        }
    }
    let got = replace_pairs(parts1, name, v2);
    assert(got =~= target) by {
        assert forall|i: int| 0 <= i < got.len() implies got[i] == target[i] by {
            if i < parts.len() {
                assert(trim(parts[i]) == parts[i]);
                if starts_with(parts[i], name_eq(name)) {
                    assert(l1[i] == kv1);
                } else {
                    assert(l1[i] == parts[i]);
                }
            } else {
                assert(!sets_name(parts, name));
                assert(l1[i] == kv1);
            }
        }
    }
}

} // verus!
