use vstd::prelude::*;
use crate::models::Repository;

verus! {

/// The label a repository is tallied under: its language, or "Unknown".
pub open spec fn label(r: Repository) -> Seq<char> {
    match r.language {
        Some(l) => l@,
        None => seq!['U', 'n', 'k', 'n', 'o', 'w', 'n'],
    }
}

/// How many repositories of `rs` carry the label `l`.
pub open spec fn count_label(rs: Seq<Repository>, l: Seq<char>) -> nat
    decreases rs.len(),
{
    if rs.len() == 0 {
        0
    } else {
        count_label(rs.drop_last(), l) + if label(rs.last()) == l {
            1nat
        } else {
            0nat
        }
    }
}

/// The set of distinct labels carried by the repositories of `rs`.
pub open spec fn labels(rs: Seq<Repository>) -> Set<Seq<char>> {
    Set::new(|l: Seq<char>| exists|i: int| 0 <= i < rs.len() && label(rs[i]) == l)
}

/// The labels of a tally, in order.
pub open spec fn tally_keys(t: Seq<(String, usize)>) -> Seq<Seq<char>> {
    t.map_values(|e: (String, usize)| e.0@)
}

/// The sum of the counts of a tally.
pub open spec fn total(t: Seq<(String, usize)>) -> nat
    decreases t.len(),
{
    if t.len() == 0 {
        0
    } else {
        total(t.drop_last()) + t.last().1 as nat
    }
}

/// `t` tallies the labels of `rs`: one entry per distinct label, each with
/// the number of repositories that carry it.
pub open spec fn is_tally_of(rs: Seq<Repository>, t: Seq<(String, usize)>) -> bool {
    &&& tally_keys(t).no_duplicates()
    &&& tally_keys(t).to_set() == labels(rs)
    &&& forall|j: int| 0 <= j < t.len() ==> #[trigger] t[j].1 == count_label(rs, t[j].0@)
}

proof fn lemma_total_update(t: Seq<(String, usize)>, j: int, e: (String, usize))
    requires
        0 <= j < t.len(),
    ensures
        total(t.update(j, e)) == total(t) - t[j].1 + e.1,
    decreases t.len(),
{
    if j == t.len() - 1 {
        assert(t.update(j, e).drop_last() =~= t.drop_last());
    } else {
        lemma_total_update(t.drop_last(), j, e);
        assert(t.update(j, e).drop_last() =~= t.drop_last().update(j, e));
    }
}

proof fn lemma_count_step(rs: Seq<Repository>, i: int, l: Seq<char>)
    requires
        0 <= i < rs.len(),
    ensures
        count_label(rs.take(i + 1), l) == count_label(rs.take(i), l) + if label(rs[i]) == l {
            1nat
        } else {
            0nat
        },
{
    assert(rs.take(i + 1).drop_last() =~= rs.take(i));
}

/// What the tally loop keeps after reading the first `i` repositories.
spec fn tally_inv(rs: Seq<Repository>, i: int, t: Seq<(String, usize)>) -> bool {
    &&& 0 <= i <= rs.len()
    &&& tally_keys(t).no_duplicates()
    &&& forall|j: int|
        0 <= j < t.len() ==> #[trigger] t[j].1 == count_label(rs.take(i), t[j].0@)
    &&& forall|j: int| 0 <= j < t.len() ==> #[trigger] t[j].1 > 0
    &&& forall|m: int| 0 <= m < i ==> tally_keys(t).contains(label(#[trigger] rs[m]))
    &&& forall|l: Seq<char>|
        !tally_keys(t).contains(l) ==> count_label(#[trigger] rs.take(i), l) == 0
    &&& total(t) == i
}

/// Reading repository `i`, whose label already has the entry `f`.
proof fn lemma_tally_bump(rs: Seq<Repository>, i: int, t: Seq<(String, usize)>, f: int, e: (String, usize))
    requires
        tally_inv(rs, i, t),
        i < rs.len(),
        0 <= f < t.len(),
        t[f].0@ == label(rs[i]),
        e.0 == t[f].0,
        e.1 == t[f].1 + 1,
    ensures
        tally_inv(rs, i + 1, t.update(f, e)),
{
    let u = t.update(f, e);
    lemma_total_update(t, f, e);
    assert(tally_keys(u) =~= tally_keys(t));
    assert forall|j: int| 0 <= j < u.len() implies #[trigger] u[j].1 == count_label(
        rs.take(i + 1),
        u[j].0@,
    ) by {
        lemma_count_step(rs, i, u[j].0@);
        if j != f {
            assert(tally_keys(t)[j] != tally_keys(t)[f]);
        }
    }
    assert forall|l: Seq<char>| !tally_keys(u).contains(l) implies count_label(
        #[trigger] rs.take(i + 1),
        l,
    ) == 0 by {
        lemma_count_step(rs, i, l);
        assert(tally_keys(u)[f] == label(rs[i]));
    }
}

/// Reading repository `i`, whose label has no entry yet.
proof fn lemma_tally_new(rs: Seq<Repository>, i: int, t: Seq<(String, usize)>, e: (String, usize))
    requires
        tally_inv(rs, i, t),
        i < rs.len(),
        forall|k: int| 0 <= k < t.len() ==> t[k].0@ != label(rs[i]),
        e.0@ == label(rs[i]),
        e.1 == 1,
    ensures
        tally_inv(rs, i + 1, t.push(e)),
{
    let u = t.push(e);
    assert(u.drop_last() =~= t);
    assert(tally_keys(u) =~= tally_keys(t).push(e.0@));
    assert(!tally_keys(t).contains(e.0@)) by {
        if tally_keys(t).contains(e.0@) {
            let k = choose|k: int| 0 <= k < t.len() && tally_keys(t)[k] == e.0@;
            assert(t[k].0@ == e.0@);
        }
    }
    assert forall|a: int, b: int| 0 <= a < b < tally_keys(u).len() implies tally_keys(u)[a]
        != tally_keys(u)[b] by {
        if b == t.len() {
            assert(tally_keys(u)[a] == tally_keys(t)[a]);
        } else {
            assert(tally_keys(u)[a] == tally_keys(t)[a]);
            assert(tally_keys(u)[b] == tally_keys(t)[b]);
        }
    }
    assert(count_label(rs.take(i), e.0@) == 0);
    assert forall|m: int| 0 <= m < i + 1 implies tally_keys(u).contains(
        label(#[trigger] rs[m]),
    ) by {
        if m == i {
            assert(tally_keys(u)[t.len() as int] == e.0@);
        } else {
            let k = choose|k: int| 0 <= k < t.len() && tally_keys(t)[k] == label(rs[m]);
            assert(tally_keys(u)[k] == label(rs[m]));
        }
    }
    assert forall|j: int| 0 <= j < u.len() implies #[trigger] u[j].1 == count_label(
        rs.take(i + 1),
        u[j].0@,
    ) by {
        lemma_count_step(rs, i, u[j].0@);
    }
    assert forall|l: Seq<char>| !tally_keys(u).contains(l) implies count_label(
        #[trigger] rs.take(i + 1),
        l,
    ) == 0 by {
        lemma_count_step(rs, i, l);
        assert(tally_keys(u)[t.len() as int] == e.0@);
        if tally_keys(t).contains(l) {
            let k = choose|k: int| 0 <= k < t.len() && tally_keys(t)[k] == l;
            assert(tally_keys(u)[k] == l);
        }
    }
}

/// Once every repository is read, the tally is complete.
proof fn lemma_tally_done(rs: Seq<Repository>, t: Seq<(String, usize)>)
    requires
        tally_inv(rs, rs.len() as int, t),
    ensures
        is_tally_of(rs, t),
        t.len() == labels(rs).len(),
{
    assert(rs.take(rs.len() as int) =~= rs);
    assert(tally_keys(t).to_set() =~= labels(rs)) by {
        assert forall|l: Seq<char>| tally_keys(t).to_set().contains(l) implies labels(
            rs,
        ).contains(l) by {
            let k = choose|k: int| 0 <= k < t.len() && tally_keys(t)[k] == l;
            assert(t[k].0@ == l);
            assert(t[k].1 == count_label(rs, l) && t[k].1 > 0);
            lemma_count_positive(rs, l);
        }
        assert forall|l: Seq<char>| labels(rs).contains(l) implies tally_keys(
            t,
        ).to_set().contains(l) by {
            let m = choose|m: int| 0 <= m < rs.len() && label(rs[m]) == l;
            assert(tally_keys(t).contains(label(rs[m])));
        }
    }
    tally_keys(t).unique_seq_to_set();
}

/// The label of a repository, as an owned string.
fn label_of(r: &Repository) -> (k: String)
    ensures
        k@ == label(*r),
{
    match &r.language {
        Some(l) => l.clone(),
        None => {
            let unknown = "Unknown";
            proof {
                reveal_strlit("Unknown");
            }
            let k = String::from_str(unknown);
            assert(k@ =~= seq!['U', 'n', 'k', 'n', 'o', 'w', 'n']);
            k
        },
    }
}

/// Counts how many repositories use each language, absent languages under
/// "Unknown".
pub fn tally_languages(repos: &Vec<Repository>) -> (t: Vec<(String, usize)>)
    ensures
        is_tally_of(repos@, t@),
        total(t@) == repos@.len(),
        t@.len() == labels(repos@).len(),
        forall|j: int| 0 <= j < t@.len() ==> #[trigger] t@[j].1 > 0,
{
    let mut t: Vec<(String, usize)> = Vec::new();
    let mut i: usize = 0;
    proof {
        assert forall|l: Seq<char>| !tally_keys(t@).contains(l) implies count_label(
            #[trigger] repos@.take(0),
            l,
        ) == 0 by {
            assert(repos@.take(0).len() == 0);
        }
    }
    while i < repos.len()
        invariant
            tally_inv(repos@, i as int, t@),
        decreases repos.len() - i,
    {
        let key = label_of(&repos[i]);
        let mut found: usize = t.len();
        let mut j: usize = 0;
        while j < t.len() && found == t.len()
            invariant
                j <= t@.len(),
                found <= t@.len(),
                found < t@.len() ==> t@[found as int].0@ == key@,
                found == t@.len() ==> forall|k: int| 0 <= k < j ==> t@[k].0@ != key@,
            decreases t.len() - j,
        {
            if t[j].0 == key {
                found = j;
            }
            j = j + 1;
        }
        let ghost old_t = t@;
        if found < t.len() {
            let c = t[found].1;
            proof {
                lemma_count_bound(repos@.take(i as int), key@);
            }
            let k2 = t[found].0.clone();
            t.set(found, (k2, c + 1));
            proof {
                lemma_tally_bump(repos@, i as int, old_t, found as int, (k2, (c + 1) as usize));
            }
        } else {
            t.push((key, 1));
            proof {
                lemma_tally_new(repos@, i as int, old_t, (key, 1usize));
            }
        }
        i = i + 1;
    }
    proof {
        lemma_tally_done(repos@, t@);
    }
    t
}

proof fn lemma_count_positive(rs: Seq<Repository>, l: Seq<char>)
    requires
        count_label(rs, l) > 0,
    ensures
        labels(rs).contains(l),
    decreases rs.len(),
{
    if label(rs.last()) == l {
        assert(label(rs[rs.len() - 1]) == l);
    } else {
        lemma_count_positive(rs.drop_last(), l);
        let m = choose|m: int| 0 <= m < rs.drop_last().len() && label(rs.drop_last()[m]) == l;
        assert(label(rs[m]) == l);
    }
}

proof fn lemma_count_bound(rs: Seq<Repository>, l: Seq<char>)
    ensures
        count_label(rs, l) <= rs.len(),
    decreases rs.len(),
{
    if rs.len() > 0 {
        lemma_count_bound(rs.drop_last(), l);
    }
}

} // verus!
