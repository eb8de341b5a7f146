//! The selection filter: restricts the aggregated map to dependencies whose
//! name starts with one of the configured prefixes; an empty prefix set
//! keeps the map unchanged.

use vstd::prelude::*;

use crate::aggregate::{clone_projects, entries_view, has_key, key_idx, projects_at, AggMap};
use crate::dep::DepView;
use crate::text::{starts_with_lit, strs_view};

verus! {

/// Whether `name` starts with at least one of `prefixes` (case-sensitive,
/// exact prefix match).
pub open spec fn matches_any_prefix(name: Seq<char>, prefixes: Seq<Seq<char>>) -> bool {
    exists|p: int| 0 <= p < prefixes.len() && prefixes[p].is_prefix_of(name)
}

/// What filtering keeps: every entry when the prefix set is empty, otherwise
/// exactly the entries whose dependency name matches a prefix, in order.
pub open spec fn filter_agg(m: Seq<(DepView, Seq<Seq<char>>)>, prefixes: Seq<Seq<char>>) -> Seq<
    (DepView, Seq<Seq<char>>),
> {
    if prefixes.len() == 0 {
        m
    } else {
        m.filter(|e: (DepView, Seq<Seq<char>>)| matches_any_prefix(e.0.name, prefixes))
    }
}

/// Whether `name` starts with at least one of `prefixes`.
pub fn name_matches(name: &String, prefixes: &Vec<String>) -> (r: bool)
    ensures
        r == matches_any_prefix(name@, strs_view(prefixes@)),
{
    let n = prefixes.len();
    let mut p: usize = 0;
    while p < n
        invariant
            n == prefixes@.len(),
            p <= n,
            forall|t: int| 0 <= t < p ==> !(#[trigger] strs_view(prefixes@)[t]).is_prefix_of(
                name@,
            ),
        decreases n - p,
    {
        if starts_with_lit(name.as_str(), prefixes[p].as_str()) {
            proof {
                assert(strs_view(prefixes@)[p as int].is_prefix_of(name@));
            }
            return true;
        }
        p += 1;
    }
    false
}

/// Restricts the map to the dependencies whose name matches one of the
/// prefixes; with no prefixes configured, returns the map unchanged.
pub fn filter_by_prefixes(m: AggMap, prefixes: &Vec<String>) -> (r: AggMap)
    ensures
        r@ == filter_agg(m@, strs_view(prefixes@)),
{
    let ghost pv = strs_view(prefixes@);
    let ghost pred = |e: (DepView, Seq<Seq<char>>)| matches_any_prefix(e.0.name, pv);
    if prefixes.is_empty() {
        return m;
    }
    let n = m.entries.len();
    let mut kept: Vec<(crate::dep::Dependency, Vec<String>)> = Vec::new();
    let mut k: usize = 0;
    proof {
        reveal(Seq::filter);
        assert(m@.take(0) =~= Seq::<(DepView, Seq<Seq<char>>)>::empty());
        assert(entries_view(kept@) =~= m@.take(0).filter(pred));
    }
    while k < n
        invariant
            n == m.entries@.len(),
            k <= n,
            pv == strs_view(prefixes@),
            pv.len() > 0,
            pred == (|e: (DepView, Seq<Seq<char>>)| matches_any_prefix(e.0.name, pv)),
            entries_view(kept@) == m@.take(k as int).filter(pred),
        decreases n - k,
    {
        let ghost pre = entries_view(kept@);
        proof {
            reveal(Seq::filter);
            assert(m@.take(k + 1).drop_last() =~= m@.take(k as int));
            assert(m@.take(k + 1).last() == m@[k as int]);
        }
        let e = &m.entries[k];
        proof {
            assert(m@[k as int] == (e.0@, e.1.deep_view()));
        }
        if name_matches(&e.0.name, prefixes) {
            let entry = (e.0.duplicate(), clone_projects(&e.1));
            kept.push(entry);
            proof {
                assert(entries_view(kept@) =~~= pre.push((e.0@, e.1.deep_view())));
                assert(m@.take(k + 1).filter(pred) == pre.push(m@[k as int]));
            }
        } else {
            proof {
                assert(m@.take(k + 1).filter(pred) == pre);
            }
        }
        k += 1;
    }
    proof {
        assert(m@.take(n as int) =~= m@);
    }
    AggMap { entries: kept }
}

/// Filtering is a pure subset operation on the keys: a dependency survives
/// exactly when it is in the original map and (with a non-empty prefix set)
/// its name matches a prefix, and a surviving dependency keeps its project
/// list. With an empty prefix set, filtering is the identity.
pub proof fn lemma_filter_subset(m: Seq<(DepView, Seq<Seq<char>>)>, prefixes: Seq<Seq<char>>)
    ensures
        forall|d: DepView|
            has_key(filter_agg(m, prefixes), d) <==> has_key(m, d) && (prefixes.len() == 0
                || matches_any_prefix(d.name, prefixes)),
        forall|d: DepView|
            has_key(filter_agg(m, prefixes), d) ==> projects_at(filter_agg(m, prefixes), d)
                == projects_at(m, d),
        prefixes.len() == 0 ==> filter_agg(m, prefixes) == m,
    decreases m.len(),
{
    if prefixes.len() == 0 {
    } else {
        let pred = |e: (DepView, Seq<Seq<char>>)| matches_any_prefix(e.0.name, prefixes);
        if m.len() == 0 {
            reveal(Seq::filter);
        } else {
            lemma_filter_subset(m.drop_last(), prefixes);
            assert forall|d: DepView|
                (has_key(filter_agg(m, prefixes), d) <==> has_key(m, d) && matches_any_prefix(
                    d.name,
                    prefixes,
                )) && (has_key(filter_agg(m, prefixes), d) ==> projects_at(
                    filter_agg(m, prefixes),
                    d,
                ) == projects_at(m, d)) by {
                lemma_filter_subset_step(m, prefixes, d);
            }
        }
    }
}

/// One step of the filter subset argument, for a single dependency.
proof fn lemma_filter_subset_step(
    m: Seq<(DepView, Seq<Seq<char>>)>,
    prefixes: Seq<Seq<char>>,
    d: DepView,
)
    requires
        m.len() > 0,
        prefixes.len() > 0,
        forall|dd: DepView|
            has_key(filter_agg(m.drop_last(), prefixes), dd) <==> has_key(m.drop_last(), dd)
                && matches_any_prefix(dd.name, prefixes),
        forall|dd: DepView|
            has_key(filter_agg(m.drop_last(), prefixes), dd) ==> projects_at(
                filter_agg(m.drop_last(), prefixes),
                dd,
            ) == projects_at(m.drop_last(), dd),
    ensures
        has_key(filter_agg(m, prefixes), d) <==> has_key(m, d) && matches_any_prefix(
            d.name,
            prefixes,
        ),
        has_key(filter_agg(m, prefixes), d) ==> projects_at(filter_agg(m, prefixes), d)
            == projects_at(m, d),
{
    reveal(Seq::filter);
    let pred = |e: (DepView, Seq<Seq<char>>)| matches_any_prefix(e.0.name, prefixes);
    let pre = m.drop_last();
    let e = m.last();
    let f = filter_agg(m, prefixes);
    let fpre = filter_agg(pre, prefixes);
    assert(f == if pred(e) {
        fpre.push(e)
    } else {
        fpre
    });
    assert(pre.push(e) =~= m);
    assert(has_key(fpre, d) <==> has_key(pre, d) && matches_any_prefix(d.name, prefixes));
    if has_key(fpre, d) {
        assert(projects_at(fpre, d) == projects_at(pre, d));
    }
    assert(pred(e) == matches_any_prefix(e.0.name, prefixes));
    lemma_key_end(pre, e, d);
    lemma_key_idx_facts(fpre, d);
    lemma_key_idx_facts(pre, d);
    if pred(e) {
        lemma_key_end(fpre, e, d);
    }
    if has_key(pre, d) {
        // the key was already present; its entry and list carry over
        assert(has_key(m, d) && projects_at(m, d) == projects_at(pre, d));
    } else if e.0 == d {
        // the key enters with the last entry, in the original and, when its
        // name matches, in the filtered map as well
        assert(has_key(m, d) && projects_at(m, d) == e.1);
        if pred(e) {
            assert(!has_key(fpre, d));
            assert(has_key(f, d) && projects_at(f, d) == e.1);
        }
    } else {
        assert(!has_key(m, d));
        assert(!has_key(f, d));
    }
}

/// How `key_idx` and `projects_at` behave when one entry is appended.
proof fn lemma_key_end(m: Seq<(DepView, Seq<Seq<char>>)>, e: (DepView, Seq<Seq<char>>), d: DepView)
    ensures
        has_key(m, d) ==> key_idx(m.push(e), d) == key_idx(m, d) && projects_at(m.push(e), d)
            == projects_at(m, d),
        !has_key(m, d) && e.0 == d ==> key_idx(m.push(e), d) == m.len() && projects_at(
            m.push(e),
            d,
        ) == e.1,
        !has_key(m, d) && e.0 != d ==> !has_key(m.push(e), d),
    decreases m.len(),
{
    lemma_key_idx_facts(m, d);
    if has_key(m, d) {
        lemma_key_idx_keep_prefix(m, e, d);
        assert(m.push(e)[key_idx(m, d)] == m[key_idx(m, d)]);
    } else {
        if e.0 == d {
            lemma_key_idx_exact_push(m, e, d);
        } else {
            lemma_key_idx_exact_none(m, e, d);
        }
    }
}

/// `key_idx` facts restated for use at a single key.
proof fn lemma_key_idx_facts(m: Seq<(DepView, Seq<Seq<char>>)>, d: DepView)
    ensures
        has_key(m, d) ==> 0 <= key_idx(m, d) < m.len() && m[key_idx(m, d)].0 == d,
        has_key(m, d) ==> forall|t: int| 0 <= t < key_idx(m, d) ==> m[t].0 != d,
        !has_key(m, d) ==> forall|t: int| 0 <= t < m.len() ==> m[t].0 != d,
{
    crate::aggregate::lemma_key_idx(m, d);
}

/// Appending anything after a present key leaves its first index unchanged.
proof fn lemma_key_idx_keep_prefix(
    m: Seq<(DepView, Seq<Seq<char>>)>,
    e: (DepView, Seq<Seq<char>>),
    d: DepView,
)
    requires
        has_key(m, d),
    ensures
        key_idx(m.push(e), d) == key_idx(m, d),
{
    lemma_key_idx_facts(m, d);
    assert forall|t: int| 0 <= t < key_idx(m, d) implies m.push(e)[t].0 != d by {
        assert(m.push(e)[t] == m[t]);
    }
    assert(m.push(e)[key_idx(m, d)] == m[key_idx(m, d)]);
    crate::aggregate::lemma_key_idx_exact(m.push(e), d, key_idx(m, d));
}

/// Appending the key's first entry places its index at the end.
proof fn lemma_key_idx_exact_push(
    m: Seq<(DepView, Seq<Seq<char>>)>,
    e: (DepView, Seq<Seq<char>>),
    d: DepView,
)
    requires
        !has_key(m, d),
        e.0 == d,
    ensures
        key_idx(m.push(e), d) == m.len(),
{
    lemma_key_idx_facts(m, d);
    assert forall|t: int| 0 <= t < m.len() implies m.push(e)[t].0 != d by {
        assert(m.push(e)[t] == m[t]);
    }
    crate::aggregate::lemma_key_idx_exact(m.push(e), d, m.len() as int);
}

/// Appending an entry with another key keeps an absent key absent.
proof fn lemma_key_idx_exact_none(
    m: Seq<(DepView, Seq<Seq<char>>)>,
    e: (DepView, Seq<Seq<char>>),
    d: DepView,
)
    requires
        !has_key(m, d),
        e.0 != d,
    ensures
        !has_key(m.push(e), d),
{
    lemma_key_idx_facts(m, d);
    assert forall|t: int| 0 <= t < m.push(e).len() implies m.push(e)[t].0 != d by {
        if t < m.len() {
            assert(m.push(e)[t] == m[t]);
        }
    }
    crate::aggregate::lemma_key_idx_exact(m.push(e), d, m.push(e).len() as int);
}

} // verus!
