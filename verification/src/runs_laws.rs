//! There is one way to merge distinct positions.
use vstd::prelude::*;
use crate::runs::{Run, fully_merged, grouped, is_member, made_of, precedes, runs_of, starts_before};

verus! {

/// Whether a position lies in a run.
pub open spec fn covers(run: Run, item: (u64, u64)) -> bool {
    run.group == item.0 && run.start <= item.1 < run.start + run.len
}

/// Runs that share distinct items out, with their members.
spec fn table(
    items: Seq<(u64, u64)>,
    cap: int,
    runs: Seq<Run>,
    members: Seq<Seq<int>>,
) -> bool {
    items.no_duplicates() && grouped(items, cap, runs, members) && fully_merged(runs, cap)
}

/// The position that a run covers is that of one of its members.
proof fn lemma_covered_member(
    items: Seq<(u64, u64)>,
    cap: int,
    runs: Seq<Run>,
    members: Seq<Seq<int>>,
    k: int,
    i: int,
)
    requires
        items.no_duplicates(),
        made_of(items, cap, runs, members),
        0 <= k < runs.len(),
        0 <= i < items.len(),
        covers(runs[k], items[i]),
    ensures
        0 <= items[i].1 - runs[k].start < members[k].len(),
        members[k][items[i].1 - runs[k].start] == i,
{
    let x = items[i].1 - runs[k].start;
    assert(members[k].len() == runs[k].len);
    let j = members[k][x];
    assert(items[j] == items[i]);
}

/// No position lies in two runs.
proof fn lemma_one_run(
    items: Seq<(u64, u64)>,
    cap: int,
    runs: Seq<Run>,
    members: Seq<Seq<int>>,
    k: int,
    l: int,
    i: int,
)
    requires
        table(items, cap, runs, members),
        0 <= k < runs.len(),
        0 <= l < runs.len(),
        0 <= i < items.len(),
        covers(runs[k], items[i]),
        covers(runs[l], items[i]),
    ensures
        k == l,
{
    lemma_covered_member(items, cap, runs, members, k, i);
    lemma_covered_member(items, cap, runs, members, l, i);
    let (x, y) = (items[i].1 - runs[k].start, items[i].1 - runs[l].start);
    assert(members[k][x] == members[l][y]);
}

/// Every position lies in a run.
proof fn lemma_some_run(
    items: Seq<(u64, u64)>,
    cap: int,
    runs: Seq<Run>,
    members: Seq<Seq<int>>,
    i: int,
) -> (k: int)
    requires
        table(items, cap, runs, members),
        0 <= i < items.len(),
    ensures
        0 <= k < runs.len(),
        covers(runs[k], items[i]),
{
    assert(is_member(members, i));
    let (k, x) = choose|k: int, x: int|
        0 <= k < members.len() && 0 <= x < members[k].len() && #[trigger] members[k][x] == i;
    assert(members[k].len() == runs[k].len) by {
        assert(runs[k] == runs[k]);
    }
    k
}

/// Each position of a run is that of an item.
proof fn lemma_item_at(
    items: Seq<(u64, u64)>,
    cap: int,
    runs: Seq<Run>,
    members: Seq<Seq<int>>,
    k: int,
    p: int,
) -> (i: int)
    requires
        table(items, cap, runs, members),
        0 <= k < runs.len(),
        runs[k].start <= p < runs[k].start + runs[k].len,
    ensures
        0 <= i < items.len(),
        items[i].0 == runs[k].group,
        items[i].1 == p,
{
    assert(members[k].len() == runs[k].len);
    let x = p - runs[k].start;
    assert(items[members[k][x]].1 == runs[k].start + x);
    members[k][x]
}

/// A run of the one table does not start within a run of the other.
proof fn lemma_no_start_within(
    items: Seq<(u64, u64)>,
    cap: int,
    r1: Seq<Run>,
    m1: Seq<Seq<int>>,
    r2: Seq<Run>,
    m2: Seq<Seq<int>>,
    k: int,
    l: int,
    i: int,
    j: int,
    before: int,
)
    requires
        table(items, cap, r1, m1),
        table(items, cap, r2, m2),
        0 <= k < r1.len(),
        0 <= l < r2.len(),
        0 <= before < r1.len(),
        0 <= i < items.len(),
        0 <= j < items.len(),
        covers(r1[k], items[i]),
        covers(r2[l], items[i]),
        items[j].0 == items[i].0,
        items[j].1 == items[i].1 - 1,
        covers(r2[l], items[j]),
        covers(r1[before], items[j]),
        r1[before].start == r2[l].start,
    ensures
        items[i].1 != r1[k].start,
{
    if items[i].1 == r1[k].start {
        if covers(r1[before], items[i]) {
            lemma_one_run(items, cap, r1, m1, k, before, i);
        }
        assert(r1[before].start + r1[before].len == r1[k].start);
        assert(r1[before].len == cap);
        assert(r2[l].len <= cap);
    }
}

/// In both tables a position lies in runs that start alike.
proof fn lemma_same_start(
    items: Seq<(u64, u64)>,
    cap: int,
    r1: Seq<Run>,
    m1: Seq<Seq<int>>,
    r2: Seq<Run>,
    m2: Seq<Seq<int>>,
    k: int,
    l: int,
    i: int,
)
    requires
        table(items, cap, r1, m1),
        table(items, cap, r2, m2),
        0 <= k < r1.len(),
        0 <= l < r2.len(),
        0 <= i < items.len(),
        covers(r1[k], items[i]),
        covers(r2[l], items[i]),
    ensures
        r1[k].start == r2[l].start,
    decreases items[i].1,
{
    let p = items[i].1 as int;
    if p > r1[k].start && p > r2[l].start {
        let j = lemma_item_at(items, cap, r1, m1, k, p - 1);
        lemma_same_start(items, cap, r1, m1, r2, m2, k, l, j);
    } else if p > r2[l].start {
        let j = lemma_item_at(items, cap, r2, m2, l, p - 1);
        let before = lemma_some_run(items, cap, r1, m1, j);
        lemma_same_start(items, cap, r1, m1, r2, m2, before, l, j);
        lemma_no_start_within(items, cap, r1, m1, r2, m2, k, l, i, j, before);
    } else if p > r1[k].start {
        let j = lemma_item_at(items, cap, r1, m1, k, p - 1);
        let before = lemma_some_run(items, cap, r2, m2, j);
        lemma_same_start(items, cap, r1, m1, r2, m2, k, before, j);
        lemma_no_start_within(items, cap, r2, m2, r1, m1, l, k, i, j, before);
    }
}

/// A run of the one table is not shorter than that of the other.
proof fn lemma_not_shorter(
    items: Seq<(u64, u64)>,
    cap: int,
    r1: Seq<Run>,
    m1: Seq<Seq<int>>,
    r2: Seq<Run>,
    m2: Seq<Seq<int>>,
    k: int,
    l: int,
)
    requires
        table(items, cap, r1, m1),
        table(items, cap, r2, m2),
        0 <= k < r1.len(),
        0 <= l < r2.len(),
        r1[k].group == r2[l].group,
        r1[k].start == r2[l].start,
    ensures
        r1[k].len >= r2[l].len,
{
    if r1[k].len < r2[l].len {
        let j = lemma_item_at(items, cap, r2, m2, l, r1[k].start + r1[k].len);
        let other = lemma_some_run(items, cap, r1, m1, j);
        lemma_same_start(items, cap, r1, m1, r2, m2, other, l, j);
        assert(r1[k].len >= 1);
        let first = lemma_item_at(items, cap, r1, m1, k, r1[k].start as int);
        lemma_one_run(items, cap, r1, m1, k, other, first);
    }
}

/// Each run of the one table is one of the other, with the same members.
proof fn lemma_same_run(
    items: Seq<(u64, u64)>,
    cap: int,
    r1: Seq<Run>,
    m1: Seq<Seq<int>>,
    r2: Seq<Run>,
    m2: Seq<Seq<int>>,
    k: int,
) -> (l: int)
    requires
        table(items, cap, r1, m1),
        table(items, cap, r2, m2),
        0 <= k < r1.len(),
    ensures
        0 <= l < r2.len(),
        r1[k] == r2[l],
        m1[k] == m2[l],
{
    assert(r1[k].len >= 1);
    let i = lemma_item_at(items, cap, r1, m1, k, r1[k].start as int);
    let l = lemma_some_run(items, cap, r2, m2, i);
    lemma_same_start(items, cap, r1, m1, r2, m2, k, l, i);
    lemma_not_shorter(items, cap, r1, m1, r2, m2, k, l);
    lemma_not_shorter(items, cap, r2, m2, r1, m1, l, k);
    assert(m1[k].len() == r1[k].len);
    assert(m2[l].len() == r2[l].len);
    assert forall|x: int| 0 <= x < m1[k].len() implies m1[k][x] == m2[l][x] by {
        assert(items[m1[k][x]] == items[m2[l][x]]);
    }
    assert(m1[k] =~= m2[l]);
    l
}

/// Where two tables agree up to a place, they agree at it.
proof fn lemma_same_place(
    items: Seq<(u64, u64)>,
    cap: int,
    r1: Seq<Run>,
    m1: Seq<Seq<int>>,
    r2: Seq<Run>,
    m2: Seq<Seq<int>>,
    t: int,
)
    requires
        table(items, cap, r1, m1),
        table(items, cap, r2, m2),
        0 <= t < r1.len(),
        t <= r2.len(),
        forall|s: int| 0 <= s < t ==> r1[s] == r2[s],
    ensures
        t < r2.len(),
        r1[t] == r2[t],
{
    let l = lemma_same_run(items, cap, r1, m1, r2, m2, t);
    assert(r1[t].len >= 1);
    let i = lemma_item_at(items, cap, r1, m1, t, r1[t].start as int);
    if l < t {
        assert(r1[l] == r2[l]);
        lemma_one_run(items, cap, r1, m1, l, t, i);
    }
    let k = lemma_same_run(items, cap, r2, m2, r1, m1, t);
    assert(r2[t].len >= 1);
    let j = lemma_item_at(items, cap, r2, m2, t, r2[t].start as int);
    if k < t {
        assert(r1[k] == r2[k]);
        lemma_one_run(items, cap, r2, m2, k, t, j);
    }
    if l > t && k > t {
        assert(starts_before(m2[t], m2[l]));
        assert(starts_before(m1[t], m1[k]));
        let (a, b) = (m1[t], m1[k]);
        let x = choose|x: int| 0 <= x < a.len() && precedes(#[trigger] a[x], b);
        let y = choose|y: int| 0 <= y < b.len() && precedes(#[trigger] b[y], a);
        assert(a[x] < b[y]);
        assert(b[y] < a[x]);
    }
}

/// Tables agree at every place.
proof fn lemma_same_upto(
    items: Seq<(u64, u64)>,
    cap: int,
    r1: Seq<Run>,
    m1: Seq<Seq<int>>,
    r2: Seq<Run>,
    m2: Seq<Seq<int>>,
    t: int,
)
    requires
        table(items, cap, r1, m1),
        table(items, cap, r2, m2),
        0 <= t <= r1.len(),
    ensures
        t <= r2.len(),
        forall|s: int| 0 <= s < t ==> r1[s] == r2[s],
    decreases t,
{
    if t > 0 {
        lemma_same_upto(items, cap, r1, m1, r2, m2, t - 1);
        lemma_same_place(items, cap, r1, m1, r2, m2, t - 1);
    }
}

/// Distinct positions have one list of runs: what merging returns for them is
/// determined by the positions, their ranks and the cap alone.
pub proof fn law_runs_unique(items: Seq<(u64, u64)>, cap: int, a: Seq<Run>, b: Seq<Run>)
    requires
        items.no_duplicates(),
        runs_of(items, cap, a),
        runs_of(items, cap, b),
    ensures
        a == b,
{
    let ma = choose|members: Seq<Seq<int>>| #[trigger] grouped(items, cap, a, members);
    let mb = choose|members: Seq<Seq<int>>| #[trigger] grouped(items, cap, b, members);
    lemma_same_upto(items, cap, a, ma, b, mb, a.len() as int);
    lemma_same_upto(items, cap, b, mb, a, ma, b.len() as int);
    assert(a =~= b);
}

/// The same positions merge into the same runs, also where some occur twice:
/// the ranks decide the order of the runs only.
pub proof fn law_same_runs(items: Seq<(u64, u64)>, cap: int, a: Seq<Run>, b: Seq<Run>)
    requires
        runs_of(items, cap, a),
        runs_of(items, cap, b),
    ensures
        a.to_multiset() == b.to_multiset(),
{
}

/// The runs cover each position, and nothing but the positions.
pub proof fn law_runs_cover(items: Seq<(u64, u64)>, cap: int, runs: Seq<Run>)
    requires
        runs_of(items, cap, runs),
    ensures
        forall|i: int|
            #![trigger items[i]]
            0 <= i < items.len() ==> exists|k: int|
                0 <= k < runs.len() && covers(#[trigger] runs[k], items[i]),
        forall|k: int, p: u64|
            #![trigger runs[k], items.contains((runs[k].group, p))]
            0 <= k < runs.len() && runs[k].start <= p < runs[k].start + runs[k].len
                ==> items.contains((runs[k].group, p)),
{
    let members = choose|members: Seq<Seq<int>>| #[trigger] grouped(items, cap, runs, members);
    assert forall|i: int| #![trigger items[i]] 0 <= i < items.len() implies exists|k: int|
        0 <= k < runs.len() && covers(#[trigger] runs[k], items[i]) by {
        assert(is_member(members, i));
        let (k, x) = choose|k: int, x: int|
            0 <= k < members.len() && 0 <= x < members[k].len() && #[trigger] members[k][x] == i;
        assert(covers(runs[k], items[i]));
    }
    assert forall|k: int, p: u64|
        #![trigger runs[k], items.contains((runs[k].group, p))]
        0 <= k < runs.len() && runs[k].start <= p < runs[k].start + runs[k].len implies
        items.contains((runs[k].group, p)) by {
        assert(members[k].len() == runs[k].len);
        let j = members[k][p - runs[k].start];
        assert(items[j] == (runs[k].group, p));
    }
}

/// Distinct positions are merged into disjoint runs.
pub proof fn law_runs_disjoint(
    items: Seq<(u64, u64)>,
    cap: int,
    runs: Seq<Run>,
    k: int,
    l: int,
    p: u64,
)
    requires
        items.no_duplicates(),
        runs_of(items, cap, runs),
        0 <= k < runs.len(),
        0 <= l < runs.len(),
        runs[k].group == runs[l].group,
        covers(runs[k], (runs[k].group, p)),
        covers(runs[l], (runs[l].group, p)),
    ensures
        k == l,
{
    let members = choose|members: Seq<Seq<int>>| #[trigger] grouped(items, cap, runs, members);
    let i = lemma_item_at(items, cap, runs, members, k, p as int);
    lemma_one_run(items, cap, runs, members, k, l, i);
}

/// The run with the first item comes first.
pub proof fn law_first_item_first(items: Seq<(u64, u64)>, cap: int, runs: Seq<Run>)
    requires
        runs_of(items, cap, runs),
        items.len() > 0,
    ensures
        runs.len() > 0,
        covers(runs[0], items[0]),
{
    let members = choose|members: Seq<Seq<int>>| #[trigger] grouped(items, cap, runs, members);
    assert(is_member(members, 0));
    let (k, x) = choose|k: int, x: int|
        0 <= k < members.len() && 0 <= x < members[k].len() && #[trigger] members[k][x] == 0;
    if k > 0 {
        assert(starts_before(members[0], members[k]));
        let y = choose|y: int|
            0 <= y < members[0].len() && precedes(#[trigger] members[0][y], members[k]);
        assert(members[0][y] < members[k][x]);
    }
    assert(members[k].len() == runs[k].len) by {
        assert(runs[k] == runs[k]);
    }
}

/// There are no more runs than items.
pub proof fn law_no_more_runs_than_items(items: Seq<(u64, u64)>, cap: int, runs: Seq<Run>)
    requires
        runs_of(items, cap, runs),
    ensures
        runs.len() <= items.len(),
{
    let members = choose|members: Seq<Seq<int>>| #[trigger] grouped(items, cap, runs, members);
    let firsts = Seq::new(runs.len(), |k: int| members[k][0]);
    assert forall|k: int, l: int|
        0 <= k < firsts.len() && 0 <= l < firsts.len() && k != l implies firsts[k] != firsts[l] by {
        assert(runs[k].len >= 1 && runs[l].len >= 1);
        assert(members[k][0] == firsts[k] && members[l][0] == firsts[l]);
    }
    assert forall|k: int| 0 <= k < firsts.len() implies 0 <= #[trigger] firsts[k] < items.len() by {
        assert(runs[k].len >= 1);
        assert(members[k][0] == firsts[k]);
    }
    crate::plan_lemmas::lemma_pigeonhole(firsts, items.len() as int);
}

} // verus!
