use vstd::prelude::*;
use crate::models::Repository;
use crate::tally::{is_tally_of, labels, tally_keys};

verus! {

/// Star counts never increase along `rs`.
pub open spec fn stars_sorted(rs: Seq<Repository>) -> bool {
    forall|a: int, b: int| 0 <= a < b < rs.len() ==> rs[a].stargazers_count >= rs[b].stargazers_count
}

/// Counts never increase along `t`.
pub open spec fn counts_sorted(t: Seq<(String, usize)>) -> bool {
    forall|a: int, b: int| 0 <= a < b < t.len() ==> t[a].1 >= t[b].1
}

/// The items of `s` whose key is `v`, in their order in `s`.
pub open spec fn with_key<T>(s: Seq<T>, key: spec_fn(T) -> int, v: int) -> Seq<T> {
    s.filter(|x: T| key(x) == v)
}

/// A value that is ranked by a whole-number key.
pub trait SortKey {
    spec fn spec_key(&self) -> int;

    fn sort_key(&self) -> (k: u64)
        ensures
            k as int == self.spec_key(),
    ;
}

impl SortKey for Repository {
    open spec fn spec_key(&self) -> int {
        self.stargazers_count as int
    }

    fn sort_key(&self) -> (k: u64) {
        self.stargazers_count
    }
}

impl SortKey for (String, usize) {
    open spec fn spec_key(&self) -> int {
        self.1 as int
    }

    fn sort_key(&self) -> (k: u64) {
        self.1 as u64
    }
}

/// The key of a value, as a function.
pub open spec fn key_of<T: SortKey>() -> spec_fn(T) -> int {
    |x: T| x.spec_key()
}

/// Keys never increase along `s`.
pub open spec fn key_sorted<T: SortKey>(s: Seq<T>) -> bool {
    forall|a: int, b: int| 0 <= a < b < s.len() ==> s[a].spec_key() >= s[b].spec_key()
}

/// The repositories of `rs` with exactly `v` stars, in their order in `rs`.
pub open spec fn with_stars(rs: Seq<Repository>, v: u64) -> Seq<Repository> {
    with_key(rs, key_of::<Repository>(), v as int)
}

/// The entries of `t` with count `v`, in their order in `t`.
pub open spec fn with_count(t: Seq<(String, usize)>, v: usize) -> Seq<(String, usize)> {
    with_key(t, key_of::<(String, usize)>(), v as int)
}

proof fn lemma_filter_none<T>(s: Seq<T>, key: spec_fn(T) -> int, v: int)
    requires
        forall|k: int| 0 <= k < s.len() ==> key(s[k]) != v,
    ensures
        with_key(s, key, v) == Seq::<T>::empty(),
    decreases s.len(),
{
    reveal(Seq::filter);
    if s.len() > 0 {
        lemma_filter_none(s.drop_last(), key, v);
    }
}

proof fn lemma_filter_empty<T>(key: spec_fn(T) -> int, v: int)
    ensures
        with_key(Seq::<T>::empty(), key, v) == Seq::<T>::empty(),
{
    reveal(Seq::filter);
    assert(with_key(Seq::<T>::empty(), key, v) =~= Seq::<T>::empty());
}

proof fn lemma_filter_single<T>(x: T, key: spec_fn(T) -> int, v: int)
    ensures
        with_key(seq![x], key, v) == if key(x) == v {
            seq![x]
        } else {
            Seq::<T>::empty()
        },
{
    reveal(Seq::filter);
    assert(seq![x].drop_last() =~= Seq::<T>::empty());
    lemma_filter_empty(key, v);
    assert(Seq::<T>::empty().push(x) =~= seq![x]);
}

proof fn lemma_filter_split<T>(rest: Seq<T>, best: int, key: spec_fn(T) -> int, v: int)
    requires
        0 <= best < rest.len(),
    ensures
        with_key(rest, key, v) == with_key(rest.take(best), key, v) + with_key(seq![rest[best]], key, v)
            + with_key(rest.skip(best + 1), key, v),
        with_key(rest.remove(best), key, v) == with_key(rest.take(best), key, v) + with_key(
            rest.skip(best + 1),
            key,
            v,
        ),
{
    let a = rest.take(best);
    let b = rest.skip(best + 1);
    let xs = seq![rest[best]];
    let pred = |y: T| key(y) == v;
    assert(rest =~= (a + xs) + b);
    assert(rest.remove(best) =~= a + b);
    Seq::filter_distributes_over_add(a + xs, b, pred);
    Seq::filter_distributes_over_add(a, xs, pred);
    Seq::filter_distributes_over_add(a, b, pred);
}

/// Moving the first item with the greatest key from `rest` to the end of
/// `out` keeps, for every key, the order of the items that have it.
proof fn lemma_stable_step<T>(out: Seq<T>, rest: Seq<T>, best: int, key: spec_fn(T) -> int, v: int)
    requires
        0 <= best < rest.len(),
        forall|b: int| 0 <= b < best ==> key(rest[b]) < key(rest[best]),
    ensures
        with_key(out.push(rest[best]), key, v) + with_key(rest.remove(best), key, v) == with_key(
            out,
            key,
            v,
        ) + with_key(rest, key, v),
{
    let x = rest[best];
    let xs = seq![x];
    lemma_filter_split(rest, best, key, v);
    assert(out.push(x) =~= out + xs);
    Seq::filter_distributes_over_add(out, xs, |y: T| key(y) == v);
    let fo = with_key(out, key, v);
    let fa = with_key(rest.take(best), key, v);
    let fb = with_key(rest.skip(best + 1), key, v);
    let fx = with_key(xs, key, v);
    assert(with_key(out.push(x), key, v) == fo + fx);
    lemma_filter_single(x, key, v);
    if key(x) == v {
        assert forall|k: int| 0 <= k < rest.take(best).len() implies key(rest.take(best)[k]) != v by {
            assert(rest.take(best)[k] == rest[k]);
        }
        lemma_filter_none(rest.take(best), key, v);
        assert(fo + fx + (fa + fb) =~= fo + (fa + fx + fb));
    } else {
        assert(fo + fx + (fa + fb) =~= fo + (fa + fx + fb));
    }
}

/// Orders `items` by descending key; among equal keys the earlier item
/// stays first.
pub fn sort_desc_by_key<T: SortKey>(items: Vec<T>) -> (r: Vec<T>)
    ensures
        r@.to_multiset() == items@.to_multiset(),
        r@.len() == items@.len(),
        key_sorted(r@),
        forall|v: int| #[trigger] with_key(r@, key_of::<T>(), v) == with_key(items@, key_of::<T>(), v),
{
    broadcast use vstd::seq_lib::group_to_multiset_ensures;

    let ghost key = key_of::<T>();
    let mut rest = items;
    let mut out: Vec<T> = Vec::new();
    proof {
        assert forall|v: int| #[trigger] with_key(out@, key, v) + with_key(rest@, key, v) == with_key(items@, key, v) by {
            lemma_filter_empty(key, v);
            assert(out@ =~= Seq::<T>::empty());
            assert(with_key(out@, key, v) + with_key(rest@, key, v) =~= with_key(rest@, key, v));
        }
    }
    while rest.len() > 0
        invariant
            key == key_of::<T>(),
            out@.to_multiset().add(rest@.to_multiset()) == items@.to_multiset(),
            out@.len() + rest@.len() == items@.len(),
            key_sorted(out@),
            forall|a: int, b: int|
                0 <= a < out@.len() && 0 <= b < rest@.len() ==> #[trigger] out@[a].spec_key()
                    >= #[trigger] rest@[b].spec_key(),
            forall|v: int| #[trigger] with_key(out@, key, v) + with_key(rest@, key, v) == with_key(items@, key, v),
        decreases rest.len(),
    {
        let mut best: usize = 0;
        let mut best_key: u64 = rest[0].sort_key();
        let mut k: usize = 1;
        while k < rest.len()
            invariant
                0 <= best < rest@.len(),
                1 <= k <= rest@.len(),
                best_key as int == rest@[best as int].spec_key(),
                forall|b: int| 0 <= b < k ==> rest@[best as int].spec_key() >= #[trigger] rest@[b].spec_key(),
                forall|b: int| 0 <= b < best ==> #[trigger] rest@[b].spec_key() < rest@[best as int].spec_key(),
            decreases rest.len() - k,
        {
            let key_k = rest[k].sort_key();
            if key_k > best_key {
                best = k;
                best_key = key_k;
            }
            k = k + 1;
        }
        let ghost old_rest = rest@;
        let ghost old_out = out@;
        let x = rest.remove(best);
        proof {
            vstd::seq_lib::to_multiset_remove(old_rest, best as int);
            assert(forall|b: int| 0 <= b < rest@.len() ==> #[trigger] rest@[b] == old_rest[if b < best { b } else { b + 1 }]);
        }
        out.push(x);
        proof {
            assert(out@ == old_out.push(x));
            assert forall|v: int| #[trigger] with_key(out@, key, v) + with_key(rest@, key, v) == with_key(items@, key, v) by {
                assert(forall|b: int| 0 <= b < best ==> key(old_rest[b]) < key(old_rest[best as int]));
                lemma_stable_step(old_out, old_rest, best as int, key, v);
                assert(old_out.push(old_rest[best as int]) == out@);
                assert(old_rest.remove(best as int) == rest@);
                assert(with_key(old_out, key, v) + with_key(old_rest, key, v) == with_key(items@, key, v));
            }
            vstd::seq_lib::to_multiset_build(old_out, x);
            assert(old_rest.to_multiset().count(x) > 0) by {
                vstd::seq_lib::to_multiset_contains(old_rest, x);
            }
            assert(rest@.to_multiset() == old_rest.to_multiset().remove(x));
            assert(out@.to_multiset() == old_out.to_multiset().insert(x));
            assert(out@.to_multiset().add(rest@.to_multiset()) =~= old_out.to_multiset().add(old_rest.to_multiset()));
            assert forall|a: int, b: int|
                0 <= a < out@.len() && 0 <= b < rest@.len() implies #[trigger] out@[a].spec_key()
                    >= #[trigger] rest@[b].spec_key() by {
                let ob = if b < best { b } else { b + 1 };
                assert(rest@[b] == old_rest[ob]);
                if a < old_out.len() {
                    assert(out@[a] == old_out[a]);
                    assert(old_out[a].spec_key() >= old_rest[ob].spec_key());
                }
            }
            assert forall|a: int, b: int| 0 <= a < b < out@.len() implies out@[a].spec_key() >= out@[b].spec_key() by {
                if b == old_out.len() {
                    assert(out@[a] == old_out[a]);
                    assert(old_out[a].spec_key() >= old_rest[best as int].spec_key());
                } else {
                    assert(out@[a] == old_out[a]);
                    assert(out@[b] == old_out[b]);
                }
            }
        }
    }
    proof {
        assert forall|v: int| #[trigger] with_key(out@, key, v) == with_key(items@, key, v) by {
            lemma_filter_empty(key, v);
            assert(rest@ =~= Seq::<T>::empty());
            assert(with_key(out@, key, v) + with_key(rest@, key, v) =~= with_key(out@, key, v));
        }
    }
    out
}

/// Reorders the repositories from most to fewest stars. Among equal star
/// counts the earlier repository stays first.
pub fn rank_repositories_by_stars(repos: Vec<Repository>) -> (r: Vec<Repository>)
    ensures
        r@.to_multiset() == repos@.to_multiset(),
        r@.len() == repos@.len(),
        stars_sorted(r@),
        forall|v: u64| #[trigger] with_stars(r@, v) == with_stars(repos@, v),
{
    let r = sort_desc_by_key(repos);
    assert forall|v: u64| #[trigger] with_stars(r@, v) == with_stars(repos@, v) by {
        assert(with_key(r@, key_of::<Repository>(), v as int) == with_key(repos@, key_of::<Repository>(), v as int));
    }
    r
}

/// The smaller of `n` and `len`.
pub open spec fn min_len(n: usize, len: nat) -> int {
    if n < len { n as int } else { len as int }
}

/// Keeps the first `n` items, or all of them when there are fewer.
pub fn select_top<T>(items: Vec<T>, n: usize) -> (r: Vec<T>)
    ensures
        r@ == items@.take(min_len(n, items@.len())),
        r@.len() <= n,
        r@.len() <= items@.len(),
{
    let mut r = items;
    r.truncate(n);
    r
}

/// `s` orders the entries of `t` by descending count, equal counts in their
/// order in `t`.
pub open spec fn is_ranking_of(t: Seq<(String, usize)>, s: Seq<(String, usize)>) -> bool {
    &&& s.to_multiset() == t.to_multiset()
    &&& s.len() == t.len()
    &&& counts_sorted(s)
    &&& forall|v: usize| #[trigger] with_count(s, v) == with_count(t, v)
}

/// `top` holds the `n` entries of `t` with the highest counts, in descending
/// order of count: it is a prefix of the ranking of `t`.
pub open spec fn is_top_of(t: Seq<(String, usize)>, n: usize, top: Seq<(String, usize)>) -> bool {
    exists|s: Seq<(String, usize)>| #[trigger] is_ranking_of(t, s) && top == s.take(min_len(n, t.len()))
}

/// The `n` most frequent entries of a tally, most frequent first.
pub fn top_languages(tally: Vec<(String, usize)>, n: usize) -> (r: Vec<(String, usize)>)
    ensures
        is_top_of(tally@, n, r@),
        counts_sorted(r@),
        r@.len() == min_len(n, tally@.len()),
{
    let sorted = sort_desc_by_key(tally);
    let r = select_top(sorted, n);
    proof {
        assert forall|v: usize| #[trigger] with_count(sorted@, v) == with_count(tally@, v) by {
            assert(with_key(sorted@, key_of::<(String, usize)>(), v as int) == with_key(tally@, key_of::<(String, usize)>(), v as int));
        }
        assert(is_ranking_of(tally@, sorted@));
        assert(is_top_of(tally@, n, r@));
    }
    r
}

/// Ranking a tally of any repositories and keeping its top `n` entries gives
/// `min(n, distinct labels)` entries, sorted by non-increasing count.
pub proof fn top_of_tally_law(
    rs: Seq<Repository>,
    t: Seq<(String, usize)>,
    n: usize,
    top: Seq<(String, usize)>,
)
    requires
        is_tally_of(rs, t),
        is_top_of(t, n, top),
    ensures
        top.len() == min_len(n, labels(rs).len()),
        forall|a: int, b: int| 0 <= a < b < top.len() ==> top[a].1 >= top[b].1,
{
    tally_keys(t).unique_seq_to_set();
    let s = choose|s: Seq<(String, usize)>| #[trigger] is_ranking_of(t, s) && top == s.take(min_len(n, t.len()));
    assert forall|a: int, b: int| 0 <= a < b < top.len() implies top[a].1 >= top[b].1 by {
        assert(top[a] == s[a] && top[b] == s[b]);
    }
}

} // verus!
