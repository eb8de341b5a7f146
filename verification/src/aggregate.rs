//! The dependency aggregator: folds the parser's observations into a map
//! from each unique dependency record to the ordered list of projects that
//! own it, so a dependency shared by several projects surfaces once.
//!
//! The map is an insertion-ordered association list with pairwise-distinct
//! keys; dependencies are compared by all four fields.

use vstd::prelude::*;

use crate::dep::{DepView, Dependency};
use crate::parser::obs_view;

verus! {

/// Index of the first entry of `m` whose key is `d`, or `-1` if none is.
pub open spec fn key_idx(m: Seq<(DepView, Seq<Seq<char>>)>, d: DepView) -> int
    decreases m.len(),
{
    if m.len() == 0 {
        -1
    } else if m[0].0 == d {
        0
    } else if key_idx(m.skip(1), d) < 0 {
        -1
    } else {
        key_idx(m.skip(1), d) + 1
    }
}

/// Whether `m` has an entry for `d`.
pub open spec fn has_key(m: Seq<(DepView, Seq<Seq<char>>)>, d: DepView) -> bool {
    key_idx(m, d) >= 0
}

/// The project list `m` holds for `d` (meaningful when `has_key(m, d)`).
pub open spec fn projects_at(m: Seq<(DepView, Seq<Seq<char>>)>, d: DepView) -> Seq<Seq<char>> {
    m[key_idx(m, d)].1
}

/// One aggregation step: append the project to the dependency's entry, or
/// open a new entry at the end for a first-seen dependency.
pub open spec fn agg_insert(m: Seq<(DepView, Seq<Seq<char>>)>, o: (Seq<char>, DepView)) -> Seq<
    (DepView, Seq<Seq<char>>),
> {
    let i = key_idx(m, o.1);
    if i < 0 {
        m.push((o.1, seq![o.0]))
    } else {
        m.update(i, (o.1, m[i].1.push(o.0)))
    }
}

/// The aggregation of an observation sequence, folded left to right.
pub open spec fn agg_of(obs: Seq<(Seq<char>, DepView)>) -> Seq<(DepView, Seq<Seq<char>>)>
    decreases obs.len(),
{
    if obs.len() == 0 {
        Seq::empty()
    } else {
        agg_insert(agg_of(obs.drop_last()), obs.last())
    }
}

/// The projects of the observations that mention `d`, in observation order.
pub open spec fn projects_of(obs: Seq<(Seq<char>, DepView)>, d: DepView) -> Seq<Seq<char>>
    decreases obs.len(),
{
    if obs.len() == 0 {
        Seq::empty()
    } else if obs.last().1 == d {
        projects_of(obs.drop_last(), d).push(obs.last().0)
    } else {
        projects_of(obs.drop_last(), d)
    }
}

/// The number of observations that mention `d`.
pub open spec fn obs_count(obs: Seq<(Seq<char>, DepView)>, d: DepView) -> nat
    decreases obs.len(),
{
    if obs.len() == 0 {
        0
    } else if obs.last().1 == d {
        obs_count(obs.drop_last(), d) + 1
    } else {
        obs_count(obs.drop_last(), d)
    }
}

/// The keys of an aggregation map are pairwise distinct.
pub open spec fn agg_keys_distinct(m: Seq<(DepView, Seq<Seq<char>>)>) -> bool {
    forall|i: int, j: int| 0 <= i < j < m.len() ==> m[i].0 != m[j].0
}

/// `key_idx` points at the first entry carrying `d`, or reports that none
/// does.
pub proof fn lemma_key_idx(m: Seq<(DepView, Seq<Seq<char>>)>, d: DepView)
    ensures
        key_idx(m, d) >= 0 ==> key_idx(m, d) < m.len() && m[key_idx(m, d)].0 == d,
        key_idx(m, d) >= 0 ==> forall|t: int| 0 <= t < key_idx(m, d) ==> m[t].0 != d,
        key_idx(m, d) < 0 ==> forall|t: int| 0 <= t < m.len() ==> m[t].0 != d,
    decreases m.len(),
{
    if m.len() == 0 {
    } else if m[0].0 == d {
    } else {
        lemma_key_idx(m.skip(1), d);
        if key_idx(m, d) >= 0 {
            assert(m[key_idx(m, d)] == m.skip(1)[key_idx(m.skip(1), d)]);
            assert forall|t: int| 0 <= t < key_idx(m, d) implies m[t].0 != d by {
                if t > 0 {
                    assert(m[t] == m.skip(1)[t - 1]);
                }
            }
        } else {
            assert forall|t: int| 0 <= t < m.len() implies m[t].0 != d by {
                if t > 0 {
                    assert(m[t] == m.skip(1)[t - 1]);
                }
            }
        }
    }
}

/// A scan that saw `k` entries with other keys, stopped by the end of `m` or
/// by an entry keyed `d`, found `key_idx`.
pub proof fn lemma_key_idx_exact(m: Seq<(DepView, Seq<Seq<char>>)>, d: DepView, k: int)
    requires
        0 <= k <= m.len(),
        forall|t: int| 0 <= t < k ==> m[t].0 != d,
        k < m.len() ==> m[k].0 == d,
    ensures
        k == m.len() ==> key_idx(m, d) == -1,
        k < m.len() ==> key_idx(m, d) == k,
    decreases k,
{
    if k == 0 {
        if m.len() > 0 && m[0].0 != d {
            lemma_key_idx(m.skip(1), d);
        }
    } else {
        assert forall|t: int| 0 <= t < k - 1 implies m.skip(1)[t].0 != d by {
            assert(m.skip(1)[t] == m[t + 1]);
        }
        if k - 1 < m.skip(1).len() {
            assert(m.skip(1)[k - 1] == m[k]);
        }
        lemma_key_idx_exact(m.skip(1), d, k - 1);
    }
}

/// `key_idx` only reads the keys: maps with pointwise-equal keys agree on it.
proof fn lemma_key_idx_same_keys(
    m1: Seq<(DepView, Seq<Seq<char>>)>,
    m2: Seq<(DepView, Seq<Seq<char>>)>,
    d: DepView,
)
    requires
        m1.len() == m2.len(),
        forall|t: int| 0 <= t < m1.len() ==> m1[t].0 == m2[t].0,
    ensures
        key_idx(m1, d) == key_idx(m2, d),
    decreases m1.len(),
{
    if m1.len() == 0 {
    } else {
        assert forall|t: int| 0 <= t < m1.skip(1).len() implies m1.skip(1)[t].0 == m2.skip(1)[t].0
        by {
            assert(m1.skip(1)[t] == m1[t + 1]);
            assert(m2.skip(1)[t] == m2[t + 1]);
        }
        lemma_key_idx_same_keys(m1.skip(1), m2.skip(1), d);
    }
}

/// Appending an entry with another key does not move a key's first index.
proof fn lemma_key_idx_push(
    m: Seq<(DepView, Seq<Seq<char>>)>,
    e: (DepView, Seq<Seq<char>>),
    d: DepView,
)
    requires
        e.0 != d,
    ensures
        key_idx(m.push(e), d) == key_idx(m, d),
    decreases m.len(),
{
    if m.len() == 0 {
        assert(m.push(e)[0] == e);
        assert(m.push(e).skip(1) =~= Seq::<(DepView, Seq<Seq<char>>)>::empty());
        assert(key_idx(m.push(e).skip(1), d) == -1);
        assert(key_idx(m.push(e), d) == -1);
    } else {
        assert(m.push(e)[0] == m[0]);
        assert(m.push(e).skip(1) =~= m.skip(1).push(e));
        lemma_key_idx_push(m.skip(1), e, d);
        assert(key_idx(m.push(e).skip(1), d) == key_idx(m.skip(1), d));
        if m[0].0 == d {
            assert(key_idx(m.push(e), d) == 0);
        } else if key_idx(m.skip(1), d) < 0 {
            assert(key_idx(m.push(e), d) == -1);
        } else {
            assert(key_idx(m.push(e), d) == key_idx(m.skip(1), d) + 1);
        }
    }
}

/// The central shape of aggregation: a dependency has an entry exactly when
/// some observation mentions it, and its project list is precisely the
/// projects of its observations, in observation order.
pub proof fn lemma_agg_characterization(obs: Seq<(Seq<char>, DepView)>)
    ensures
        forall|d: DepView| has_key(agg_of(obs), d) <==> projects_of(obs, d).len() > 0,
        forall|d: DepView|
            has_key(agg_of(obs), d) ==> projects_at(agg_of(obs), d) == projects_of(obs, d),
    decreases obs.len(),
{
    if obs.len() == 0 {
    } else {
        let pre = obs.drop_last();
        let o = obs.last();
        let m = agg_of(pre);
        let m2 = agg_of(obs);
        lemma_agg_characterization(pre);
        lemma_key_idx(m, o.1);
        assert(m2 == agg_insert(m, o));
        let i = key_idx(m, o.1);
        assert forall|d: DepView| has_key(m2, d) <==> projects_of(obs, d).len() > 0 by {
            lemma_agg_char_step(obs, d);
        }
        assert forall|d: DepView| has_key(m2, d) implies projects_at(m2, d) == projects_of(
            obs,
            d,
        ) by {
            lemma_agg_char_step(obs, d);
        }
    }
}

/// One step of the characterization, for a single dependency.
proof fn lemma_agg_char_step(obs: Seq<(Seq<char>, DepView)>, d: DepView)
    requires
        obs.len() > 0,
        forall|dd: DepView|
            has_key(agg_of(obs.drop_last()), dd) <==> projects_of(obs.drop_last(), dd).len() > 0,
        forall|dd: DepView|
            has_key(agg_of(obs.drop_last()), dd) ==> projects_at(agg_of(obs.drop_last()), dd)
                == projects_of(obs.drop_last(), dd),
    ensures
        has_key(agg_of(obs), d) <==> projects_of(obs, d).len() > 0,
        has_key(agg_of(obs), d) ==> projects_at(agg_of(obs), d) == projects_of(obs, d),
{
    let pre = obs.drop_last();
    let o = obs.last();
    let m = agg_of(pre);
    let m2 = agg_of(obs);
    lemma_key_idx(m, o.1);
    lemma_key_idx(m, d);
    let i = key_idx(m, o.1);
    assert(m2 == agg_insert(m, o));
    assert(has_key(m, d) <==> projects_of(pre, d).len() > 0);
    if has_key(m, d) {
        assert(projects_at(m, d) == projects_of(pre, d));
    }
    assert(has_key(m, o.1) <==> projects_of(pre, o.1).len() > 0);
    if has_key(m, o.1) {
        assert(projects_at(m, o.1) == projects_of(pre, o.1));
    }
    if i < 0 {
        // first observation of o.1: a fresh entry is appended
        if d == o.1 {
            lemma_key_idx_exact(m2, d, m.len() as int);
            assert(m2[m.len() as int].1 == seq![o.0]);
            assert(projects_of(pre, d).len() == 0);
            assert(projects_of(pre, d) =~= Seq::<Seq<char>>::empty());
            assert(projects_of(obs, d) =~= seq![o.0]);
        } else {
            lemma_key_idx_push(m, (o.1, seq![o.0]), d);
            assert(key_idx(m2, d) == key_idx(m, d));
            if key_idx(m, d) >= 0 {
                assert(m2[key_idx(m, d)] == m[key_idx(m, d)]);
            }
            assert(projects_of(obs, d) == projects_of(pre, d));
        }
    } else {
        // o.1 already has an entry at i, whose list is extended
        assert(m2 == m.update(i, (o.1, m[i].1.push(o.0))));
        assert forall|t: int| 0 <= t < m.len() implies m[t].0 == m2[t].0 by {}
        lemma_key_idx_same_keys(m, m2, d);
        if d == o.1 {
            assert(key_idx(m2, d) == i);
            assert(m2[i].1 == m[i].1.push(o.0));
            assert(projects_of(obs, d) == projects_of(pre, d).push(o.0));
        } else {
            if key_idx(m, d) >= 0 {
                assert(key_idx(m, d) != i);
                assert(m2[key_idx(m2, d)].1 == m[key_idx(m, d)].1);
            }
            assert(projects_of(obs, d) == projects_of(pre, d));
        }
    }
}

/// Aggregation never produces two entries with the same key.
pub proof fn lemma_agg_keys_distinct(obs: Seq<(Seq<char>, DepView)>)
    ensures
        agg_keys_distinct(agg_of(obs)),
    decreases obs.len(),
{
    if obs.len() == 0 {
    } else {
        let pre = obs.drop_last();
        let o = obs.last();
        let m = agg_of(pre);
        let m2 = agg_of(obs);
        lemma_agg_keys_distinct(pre);
        lemma_key_idx(m, o.1);
        let i = key_idx(m, o.1);
        if i < 0 {
            assert forall|a: int, b: int| 0 <= a < b < m2.len() implies m2[a].0 != m2[b].0 by {
                if b < m.len() {
                    assert(m2[a] == m[a] && m2[b] == m[b]);
                } else {
                    assert(m2[a] == m[a] && m2[b].0 == o.1);
                }
            }
        } else {
            assert forall|a: int, b: int| 0 <= a < b < m2.len() implies m2[a].0 != m2[b].0 by {
                assert(m2[a].0 == m[a].0 && m2[b].0 == m[b].0);
            }
        }
    }
}

/// Two observation sequences that attribute, for every dependency, the same
/// projects in the same order aggregate to maps that agree on every
/// dependency: the same keys, each with the same project list. The order in
/// which different dependencies' rows interleave does not matter.
pub proof fn lemma_agg_order_independent(
    obs1: Seq<(Seq<char>, DepView)>,
    obs2: Seq<(Seq<char>, DepView)>,
)
    requires
        forall|d: DepView| #[trigger] projects_of(obs1, d) == projects_of(obs2, d),
    ensures
        forall|d: DepView| has_key(agg_of(obs1), d) <==> has_key(agg_of(obs2), d),
        forall|d: DepView|
            has_key(agg_of(obs1), d) ==> projects_at(agg_of(obs1), d) == projects_at(
                agg_of(obs2),
                d,
            ),
{
    lemma_agg_characterization(obs1);
    lemma_agg_characterization(obs2);
}

/// Rows identical in all four dependency fields collapse into one entry
/// whose project list is exactly as long as the number of such rows.
pub proof fn lemma_agg_dedup(obs: Seq<(Seq<char>, DepView)>, d: DepView)
    ensures
        agg_keys_distinct(agg_of(obs)),
        obs_count(obs, d) > 0 ==> has_key(agg_of(obs), d) && projects_at(agg_of(obs), d).len()
            == obs_count(obs, d),
{
    lemma_agg_keys_distinct(obs);
    lemma_agg_characterization(obs);
    lemma_projects_count(obs, d);
}

/// The project list of `d`'s observations is one entry per observation.
proof fn lemma_projects_count(obs: Seq<(Seq<char>, DepView)>, d: DepView)
    ensures
        projects_of(obs, d).len() == obs_count(obs, d),
    decreases obs.len(),
{
    if obs.len() == 0 {
    } else {
        lemma_projects_count(obs.drop_last(), d);
    }
}

/// The views of aggregation entries.
pub open spec fn entries_view(es: Seq<(Dependency, Vec<String>)>) -> Seq<
    (DepView, Seq<Seq<char>>),
> {
    es.map_values(|e: (Dependency, Vec<String>)| (e.0@, e.1.deep_view()))
}

/// The aggregation map: insertion-ordered entries, one per unique
/// dependency record, each carrying the owning projects in first-seen order.
#[derive(Debug)]
pub struct AggMap {
    pub entries: Vec<(Dependency, Vec<String>)>,
}

impl View for AggMap {
    type V = Seq<(DepView, Seq<Seq<char>>)>;

    open spec fn view(&self) -> Seq<(DepView, Seq<Seq<char>>)> {
        entries_view(self.entries@)
    }
}

impl AggMap {
    /// The number of distinct dependencies held.
    pub fn len(&self) -> (n: usize)
        ensures
            n == self@.len(),
    {
        self.entries.len()
    }

    /// The dependency of the entry at position `i`.
    pub fn dependency_at(&self, i: usize) -> (d: &Dependency)
        requires
            i < self@.len(),
        ensures
            d@ == self@[i as int].0,
    {
        &self.entries[i].0
    }

    /// The owning projects of the entry at position `i`.
    pub fn projects_at_index(&self, i: usize) -> (p: &Vec<String>)
        requires
            i < self@.len(),
        ensures
            p.deep_view() == self@[i as int].1,
    {
        &self.entries[i].1
    }
}

/// Copies a project list element by element.
pub(crate) fn clone_projects(v: &Vec<String>) -> (r: Vec<String>)
    ensures
        r.deep_view() == v.deep_view(),
        r@.len() == v@.len(),
{
    let n = v.len();
    let mut r: Vec<String> = Vec::new();
    let mut i: usize = 0;
    while i < n
        invariant
            n == v@.len(),
            i <= n,
            r@.len() == i,
            forall|t: int| 0 <= t < i ==> r@[t] == v@[t],
        decreases n - i,
    {
        r.push(v[i].clone());
        i += 1;
    }
    proof {
        assert(r.deep_view() =~~= v.deep_view());
    }
    r
}

/// Position of the first entry holding the same dependency record, if any.
fn find_key(entries: &Vec<(Dependency, Vec<String>)>, d: &Dependency) -> (r: Option<usize>)
    ensures
        match r {
            Some(i) => i < entries@.len() && entries@[i as int].0@ == d@ && forall|t: int|
                0 <= t < i ==> entries@[t].0@ != d@,
            None => forall|t: int| 0 <= t < entries@.len() ==> entries@[t].0@ != d@,
        },
{
    let n = entries.len();
    let mut i: usize = 0;
    while i < n
        invariant
            n == entries@.len(),
            i <= n,
            forall|t: int| 0 <= t < i ==> entries@[t].0@ != d@,
        decreases n - i,
    {
        if entries[i].0 == *d {
            return Some(i);
        }
        i += 1;
    }
    None
}

/// Folds the parser's observations into the aggregation map: a first-seen
/// dependency opens a new entry at the end; a repeated one gets the project
/// appended to its existing entry.
pub fn aggregate(obs: &Vec<(String, Dependency)>) -> (m: AggMap)
    ensures
        m@ == agg_of(obs_view(obs@)),
        agg_keys_distinct(m@),
{
    let ghost ov = obs_view(obs@);
    let n = obs.len();
    let mut entries: Vec<(Dependency, Vec<String>)> = Vec::new();
    let mut k: usize = 0;
    proof {
        assert(ov.take(0) =~= Seq::<(Seq<char>, DepView)>::empty());
        assert(entries_view(entries@) =~= Seq::<(DepView, Seq<Seq<char>>)>::empty());
    }
    while k < n
        invariant
            n == obs@.len(),
            ov == obs_view(obs@),
            k <= n,
            entries_view(entries@) == agg_of(ov.take(k as int)),
        decreases n - k,
    {
        let ghost mv = entries_view(entries@);
        proof {
            assert(ov.take(k + 1).drop_last() =~= ov.take(k as int));
            assert(ov.take(k + 1).last() == ov[k as int]);
            assert(agg_of(ov.take(k + 1)) == agg_insert(mv, ov[k as int]));
            assert(ov[k as int] == (obs@[k as int].0@, obs@[k as int].1@));
        }
        let o = &obs[k];
        let project = o.0.clone();
        match find_key(&entries, &o.1) {
            None => {
                proof {
                    assert forall|t: int| 0 <= t < mv.len() implies mv[t].0 != o.1@ by {
                        assert(mv[t].0 == entries@[t].0@);
                    }
                    lemma_key_idx_exact(mv, o.1@, mv.len() as int);
                }
                let mut ps: Vec<String> = Vec::new();
                ps.push(project);
                entries.push((o.1.duplicate(), ps));
                proof {
                    assert(entries_view(entries@) =~~= mv.push((o.1@, seq![o.0@])));
                }
            },
            Some(i) => {
                proof {
                    assert forall|t: int| 0 <= t < i implies mv[t].0 != o.1@ by {
                        assert(mv[t].0 == entries@[t].0@);
                    }
                    assert(mv[i as int].0 == entries@[i as int].0@);
                    lemma_key_idx_exact(mv, o.1@, i as int);
                }
                let mut pair = entries.remove(i);
                pair.1.push(project);
                entries.insert(i, pair);
                proof {
                    assert(entries_view(entries@) =~~= mv.update(
                        i as int,
                        (o.1@, mv[i as int].1.push(o.0@)),
                    ));
                }
            },
        }
        k += 1;
    }
    proof {
        assert(ov.take(n as int) =~= ov);
        lemma_agg_keys_distinct(ov);
    }
    AggMap { entries }
}

} // verus!
