//! Sequences of distinct keys, and lookups in lists keyed by strings.
use crate::text::{contains_word, views};
use vstd::prelude::*;

verus! {

/// The distinct elements of `s`, each at the place where it first occurs.
pub open spec fn distinct<A>(s: Seq<A>) -> Seq<A>
    decreases s.len(),
{
    if s.len() == 0 {
        s
    } else if s.drop_last().contains(s.last()) {
        distinct(s.drop_last())
    } else {
        distinct(s.drop_last()).push(s.last())
    }
}

/// `distinct(s)` holds exactly the elements of `s`, each once.
pub proof fn lemma_distinct<A>(s: Seq<A>)
    ensures
        distinct(s).no_duplicates(),
        forall|x: A| #[trigger] distinct(s).contains(x) <==> s.contains(x),
        distinct(s).len() <= s.len(),
    decreases s.len(),
{
    if s.len() > 0 {
        let t = s.drop_last();
        lemma_distinct(t);
        assert forall|x: A| #[trigger] s.contains(x) <==> (t.contains(x) || x == s.last()) by {
            if s.contains(x) {
                let k = choose|k: int| 0 <= k < s.len() && s[k] == x;
                if k < s.len() - 1 {
                    assert(t[k] == x);
                }
            }
            if t.contains(x) {
                let k = choose|k: int| 0 <= k < t.len() && t[k] == x;
                assert(s[k] == x);
            }
            if x == s.last() {
                assert(s[s.len() - 1] == x);
            }
        }
        if !t.contains(s.last()) {
            let d = distinct(t);
            assert forall|x: A| #[trigger] d.push(s.last()).contains(x) <==> (d.contains(x) || x
                == s.last()) by {
                if d.push(s.last()).contains(x) {
                    let k = choose|k: int| 0 <= k < d.len() + 1 && d.push(s.last())[k] == x;
                    if k < d.len() {
                        assert(d[k] == x);
                    }
                }
                if d.contains(x) {
                    let k = choose|k: int| 0 <= k < d.len() && d[k] == x;
                    assert(d.push(s.last())[k] == x);
                }
                if x == s.last() {
                    assert(d.push(s.last())[d.len() as int] == x);
                }
            }
            let e = d.push(s.last());
            assert forall|i: int, j: int| 0 <= i < e.len() && 0 <= j < e.len() && i != j
                implies e[i]
                != e[j] by {
                if i == d.len() {
                    assert(d.contains(e[j]));
                } else if j == d.len() {
                    assert(d.contains(e[i]));
                }
            }
        }
    }
}

/// The distinct strings of `v` (compared by their characters), in order of
/// first occurrence.
pub fn distinct_strings(v: &Vec<String>) -> (r: Vec<String>)
    ensures
        views(r@) == distinct(views(v@)),
{
    let mut out: Vec<String> = Vec::new();
    for i in 0..v.len()
        invariant
            views(out@) == distinct(views(v@).take(i as int)),
    {
        let ghost pre = views(v@).take(i as int);
        let ghost next = views(v@).take(i + 1);
        assert(next.drop_last() =~= pre);
        assert(next.last() == v@[i as int]@);
        proof {
            lemma_distinct(pre);
        }
        if !contains_word(&out, &v[i]) {
            let s = v[i].clone();
            proof {
                assert(views(out@.push(s)) =~= views(out@).push(s@));
            }
            out.push(s);
        }
    }
    assert(views(v@).take(v.len() as int) =~= views(v@));
    out
}

/// A copy of `v`.
pub fn copy_strings(v: &Vec<String>) -> (r: Vec<String>)
    ensures
        r@ == v@,
{
    let mut out: Vec<String> = Vec::new();
    for i in 0..v.len()
        invariant
            out@ == v@.take(i as int),
    {
        assert(v@.take(i + 1) =~= v@.take(i as int).push(v@[i as int]));
        out.push(v[i].clone());
    }
    assert(v@.take(v.len() as int) =~= v@);
    out
}

/// The keys of a keyed list.
pub open spec fn keys_of<T>(entries: Seq<(String, T)>) -> Seq<Seq<char>> {
    entries.map_values(|e: (String, T)| e.0@)
}

pub proof fn lemma_keys_push<T>(entries: Seq<(String, T)>, e: (String, T))
    ensures
        keys_of(entries.push(e)) == keys_of(entries).push(e.0@),
{
    assert(keys_of(entries.push(e)) =~= keys_of(entries).push(e.0@));
}

/// `p` is the position of the first occurrence of `k` in `keys`, or `None`
/// when `k` does not occur.
pub open spec fn is_position(p: Option<usize>, keys: Seq<Seq<char>>, k: Seq<char>) -> bool {
    match p {
        None => !keys.contains(k),
        Some(i) => i < keys.len() && keys[i as int] == k && forall|j: int|
            0 <= j < i ==> keys[j] != k,
    }
}

/// `f` of the value of the first entry with key `k`, or `default` when no
/// entry has that key.
pub open spec fn value_for<T, V>(
    entries: Seq<(String, T)>,
    k: Seq<char>,
    f: spec_fn(T) -> V,
    default: V,
) -> V
    decreases entries.len(),
{
    if entries.len() == 0 {
        default
    } else if entries[0].0@ == k {
        f(entries[0].1)
    } else {
        value_for(entries.drop_first(), k, f, default)
    }
}

/// The views of the first entry with key `k`, or the empty list when no entry
/// has that key.
pub open spec fn entry_for(entries: Seq<(String, Vec<String>)>, k: Seq<char>) -> Seq<Seq<char>> {
    value_for(entries, k, |v: Vec<String>| views(v@), Seq::empty())
}

/// The first entry with key `k` is the one at the first position of `k`.
pub proof fn lemma_value_for<T, V>(
    entries: Seq<(String, T)>,
    k: Seq<char>,
    f: spec_fn(T) -> V,
    default: V,
    p: Option<usize>,
)
    requires
        is_position(p, keys_of(entries), k),
    ensures
        value_for(entries, k, f, default) == match p {
            None => default,
            Some(i) => f(entries[i as int].1),
        },
    decreases entries.len(),
{
    if entries.len() > 0 {
        let rest = entries.drop_first();
        assert(keys_of(entries)[0] == entries[0].0@);
        if entries[0].0@ != k {
            let q: Option<usize> = match p {
                None => None,
                Some(i) => Some((i - 1) as usize),
            };
            match p {
                None => {
                    assert forall|j: int| 0 <= j < keys_of(rest).len() implies keys_of(rest)[j] != k by {
                        assert(keys_of(rest)[j] == keys_of(entries)[j + 1]);
                    }
                },
                Some(i) => {
                    assert(keys_of(rest)[i - 1] == keys_of(entries)[i as int]);
                    assert forall|j: int| 0 <= j < i - 1 implies keys_of(rest)[j] != k by {
                        assert(keys_of(rest)[j] == keys_of(entries)[j + 1]);
                    }
                },
            }
            lemma_value_for(rest, k, f, default, q);
        } else {
            match p {
                None => {
                    assert(keys_of(entries).contains(k));
                },
                Some(i) => {
                    if i > 0 {
                        assert(keys_of(entries)[0] == k);
                    }
                },
            }
        }
    }
}

/// A key has at most one first position.
pub proof fn lemma_position_unique(p: Option<usize>, q: Option<usize>, keys: Seq<Seq<char>>, k: Seq<char>)
    requires
        is_position(p, keys, k),
        is_position(q, keys, k),
    ensures
        p == q,
{
    match (p, q) {
        (Some(i), Some(j)) => {
            if i < j {
                assert(keys[i as int] == k);
            } else if j < i {
                assert(keys[j as int] == k);
            }
        },
        (Some(i), None) => {
            assert(keys[i as int] == k);
        },
        (None, Some(j)) => {
            assert(keys[j as int] == k);
        },
        (None, None) => {},
    }
}

/// The position of the first entry with key `key`, if there is one.
pub fn position_of<T>(entries: &Vec<(String, T)>, key: &String) -> (r: Option<usize>)
    ensures
        is_position(r, keys_of(entries@), key@),
{
    let mut i: usize = 0;
    while i < entries.len()
        invariant
            i <= entries.len(),
            forall|j: int| 0 <= j < i ==> entries@[j].0@ != key@,
        decreases entries.len() - i,
    {
        if entries[i].0 == *key {
            assert(keys_of(entries@)[i as int] == key@);
            assert forall|j: int| 0 <= j < i implies keys_of(entries@)[j] != key@ by {
                assert(entries@[j].0@ != key@);
            }
            return Some(i);
        }
        i = i + 1;
    }
    assert forall|j: int| 0 <= j < keys_of(entries@).len() implies keys_of(entries@)[j]
        != key@ by {
        assert(entries@[j].0@ != key@);
    }
    None
}

/// For each of `keys`, its position in `a` and in `b`.
pub fn align<T, U>(keys: &Vec<String>, a: &Vec<(String, T)>, b: &Vec<(String, U)>) -> (r: Vec<
    (Option<usize>, Option<usize>),
>)
    ensures
        r@.len() == keys@.len(),
        forall|i: int|
            0 <= i < r@.len() ==> is_position((#[trigger] r@[i]).0, keys_of(a@), keys@[i]@)
                && is_position(r@[i].1, keys_of(b@), keys@[i]@),
{
    let mut out: Vec<(Option<usize>, Option<usize>)> = Vec::new();
    for i in 0..keys.len()
        invariant
            out@.len() == i,
            forall|j: int|
                0 <= j < i ==> is_position((#[trigger] out@[j]).0, keys_of(a@), keys@[j]@)
                    && is_position(out@[j].1, keys_of(b@), keys@[j]@),
    {
        out.push((position_of(a, &keys[i]), position_of(b, &keys[i])));
    }
    out
}

/// The keys of both lists, each once: those of `a` in order, then those of
/// `b` that `a` lacks.
pub fn merged_keys<T, U>(a: &Vec<(String, T)>, b: &Vec<(String, U)>) -> (r: Vec<String>)
    ensures
        views(r@) == distinct(keys_of(a@) + keys_of(b@)),
{
    let mut all: Vec<String> = Vec::new();
    for i in 0..a.len()
        invariant
            views(all@) == keys_of(a@).take(i as int),
    {
        let s = a[i].0.clone();
        proof {
            assert(views(all@.push(s)) =~= views(all@).push(s@));
            assert(keys_of(a@).take(i + 1) =~= keys_of(a@).take(i as int).push(s@));
        }
        all.push(s);
    }
    assert(keys_of(a@).take(a.len() as int) =~= keys_of(a@));
    for j in 0..b.len()
        invariant
            views(all@) == keys_of(a@) + keys_of(b@).take(j as int),
    {
        let s = b[j].0.clone();
        proof {
            assert(views(all@.push(s)) =~= views(all@).push(s@));
            assert(keys_of(b@).take(j + 1) =~= keys_of(b@).take(j as int).push(s@));
        }
        all.push(s);
    }
    assert(keys_of(b@).take(b.len() as int) =~= keys_of(b@));
    distinct_strings(&all)
}

} // verus!
