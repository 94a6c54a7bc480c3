//! Merging of ranked positions into runs.
//!
//! A list of positions, each in a group, stands in rank order. Adjacent
//! positions of a group are merged into runs of a bounded length, and the runs
//! are put in the order of their earliest rank.
use vstd::prelude::*;
use crate::sorting::{lemma_same_elements, sort_triples, sorted_triples, triple_le};

verus! {

/// Adjacent positions of one group.
#[derive(Clone, Copy, Debug, PartialEq, Eq)]
pub struct Run {
    pub group: u64,
    pub start: u64,
    pub len: u64,
}

/// Whether each run consists of the positions of its members, one after the
/// other, and is not longer than `cap`.
pub open spec fn made_of(
    items: Seq<(u64, u64)>,
    cap: int,
    runs: Seq<Run>,
    members: Seq<Seq<int>>,
) -> bool {
    &&& members.len() == runs.len()
    &&& forall|k: int|
        #![trigger runs[k]]
        0 <= k < runs.len() ==> 1 <= runs[k].len <= cap && members[k].len() == runs[k].len
    &&& forall|k: int, x: int|
        #![trigger members[k][x]]
        0 <= k < members.len() && 0 <= x < members[k].len() ==> {
            &&& 0 <= members[k][x] < items.len()
            &&& items[members[k][x]].0 == runs[k].group
            &&& items[members[k][x]].1 == runs[k].start + x
        }
}

/// Whether some run has the item `i` as a member.
pub open spec fn is_member(members: Seq<Seq<int>>, i: int) -> bool {
    exists|k: int, x: int|
        0 <= k < members.len() && 0 <= x < members[k].len() && #[trigger] members[k][x] == i
}

/// Whether no item is a member twice.
pub open spec fn each_member_once(members: Seq<Seq<int>>) -> bool {
    forall|k: int, x: int, l: int, y: int|
        #![trigger members[k][x], members[l][y]]
        0 <= k < members.len() && 0 <= x < members[k].len() && 0 <= l < members.len() && 0 <= y
            < members[l].len() && members[k][x] == members[l][y] ==> k == l && x == y
}

/// Whether `first` comes before all of `others`.
pub open spec fn precedes(first: int, others: Seq<int>) -> bool {
    forall|y: int| 0 <= y < others.len() ==> first < #[trigger] others[y]
}

/// Whether some member of `a` comes before all members of `b`.
pub open spec fn starts_before(a: Seq<int>, b: Seq<int>) -> bool {
    exists|x: int| 0 <= x < a.len() && precedes(#[trigger] a[x], b)
}

/// Whether runs stand in the order of their earliest members.
pub open spec fn by_earliest(members: Seq<Seq<int>>) -> bool {
    forall|k: int, l: int|
        #![trigger members[k], members[l]]
        0 <= k < l < members.len() ==> starts_before(members[k], members[l])
}

/// Whether the runs share the items out among them, in the order of their
/// earliest ranks.
pub open spec fn grouped(
    items: Seq<(u64, u64)>,
    cap: int,
    runs: Seq<Run>,
    members: Seq<Seq<int>>,
) -> bool {
    &&& made_of(items, cap, runs, members)
    &&& forall|i: int| 0 <= i < items.len() ==> #[trigger] is_member(members, i)
    &&& each_member_once(members)
    &&& by_earliest(members)
}

/// Whether a run that another one continues has the full length.
pub open spec fn fully_merged(runs: Seq<Run>, cap: int) -> bool {
    forall|k: int, l: int|
        #![trigger runs[k], runs[l]]
        0 <= k < runs.len() && 0 <= l < runs.len() && runs[k].group == runs[l].group
            && runs[k].start + runs[k].len == runs[l].start ==> runs[k].len == cap
}

/// Whether a position comes before another, or is the same.
pub open spec fn position_le(a: (u64, u64), b: (u64, u64)) -> bool {
    a.0 < b.0 || (a.0 == b.0 && a.1 <= b.1)
}

/// The items in the order of their positions.
pub open spec fn by_position(items: Seq<(u64, u64)>) -> Seq<(u64, u64)> {
    items.sort_by(|a: (u64, u64), b: (u64, u64)| position_le(a, b))
}

/// Whether an item continues a run that is still shorter than `cap`.
pub open spec fn continues(run: Run, item: (u64, u64), cap: int) -> bool {
    run.group == item.0 && run.start + run.len == item.1 && run.len < cap
}

/// Positions merged one after the other: one that continues the last run joins
/// it, any other one starts a run of its own.
pub open spec fn merged(positions: Seq<(u64, u64)>, cap: int) -> Seq<Run>
    decreases positions.len(),
{
    if positions.len() == 0 {
        Seq::empty()
    } else {
        let runs = merged(positions.drop_last(), cap);
        let item = positions.last();
        if runs.len() > 0 && continues(runs.last(), item, cap) {
            runs.drop_last().push(Run { len: (runs.last().len + 1) as u64, ..runs.last() })
        } else {
            runs.push(Run { group: item.0, start: item.1, len: 1 })
        }
    }
}

/// Whether `runs` are the runs of `items`: what the items merge into in the
/// order of their positions, shared out and put in the order of the earliest
/// ranks. Where no position occurs twice no two runs could be one.
pub open spec fn runs_of(items: Seq<(u64, u64)>, cap: int, runs: Seq<Run>) -> bool {
    &&& exists|members: Seq<Seq<int>>| #[trigger] grouped(items, cap, runs, members)
    &&& runs.to_multiset() == merged(by_position(items), cap).to_multiset()
    &&& items.no_duplicates() ==> fully_merged(runs, cap)
}

/// The items with their ranks.
spec fn ranked(items: Seq<(u64, u64)>) -> Seq<(u64, u64, u64)> {
    Seq::new(items.len(), |i: int| (items[i].0, items[i].1, i as u64))
}

/// The positions of ranked items.
spec fn positions(sorted: Seq<(u64, u64, u64)>) -> Seq<(u64, u64)> {
    sorted.map_values(|item: (u64, u64, u64)| (item.0, item.1))
}

/// What is in two sequences equally often is so after a map.
pub proof fn lemma_same_map<A, B>(a: Seq<A>, b: Seq<A>, f: spec_fn(A) -> B)
    requires
        a.to_multiset() == b.to_multiset(),
    ensures
        a.map_values(f).to_multiset() == b.map_values(f).to_multiset(),
    decreases a.len(),
{
    broadcast use vstd::seq_lib::group_to_multiset_ensures;

    assert(a.len() == a.to_multiset().len());
    assert(b.len() == b.to_multiset().len());
    if a.len() == 0 {
        assert(a =~= b);
    } else {
        let last = a.last();
        let init = a.drop_last();
        assert(a =~= init.push(last));
        assert(a[a.len() - 1] == last);
        assert(a.contains(last));
        assert(b.to_multiset().count(last) > 0);
        assert(b.contains(last));
        let i = choose|i: int| 0 <= i < b.len() && b[i] == last;
        let rest = b.remove(i);
        assert(rest.to_multiset() == b.to_multiset().remove(last));
        assert(a.remove(a.len() - 1) =~= init);
        assert(init.to_multiset() == a.to_multiset().remove(last));
        lemma_same_map(init, rest, f);
        let (x, y) = (a.map_values(f), b.map_values(f));
        assert(y.remove(i) =~= rest.map_values(f));
        assert(x.remove(a.len() - 1) =~= init.map_values(f));
        assert(y[i] == f(last) && x[a.len() - 1] == f(last));
        assert(x.contains(f(last)) && y.contains(f(last)));
        assert(x.to_multiset() =~= x.to_multiset().remove(f(last)).insert(f(last)));
        assert(y.to_multiset() =~= y.to_multiset().remove(f(last)).insert(f(last)));
    }
}

/// Sorted items stand in the order of their positions.
proof fn lemma_positions(items: Seq<(u64, u64)>, sorted: Seq<(u64, u64, u64)>)
    requires
        sorted_triples(sorted),
        sorted.to_multiset() == ranked(items).to_multiset(),
    ensures
        positions(sorted) == by_position(items),
{
    let leq = |a: (u64, u64), b: (u64, u64)| position_le(a, b);
    let f = |item: (u64, u64, u64)| (item.0, item.1);
    lemma_same_map(sorted, ranked(items), f);
    assert(positions(ranked(items)) =~= items);
    assert(vstd::relations::total_ordering(leq)) by {
        assert(vstd::relations::reflexive(leq));
        assert(vstd::relations::antisymmetric(leq));
        assert(vstd::relations::transitive(leq));
        assert(vstd::relations::strongly_connected(leq));
    }
    items.lemma_sort_by_ensures(leq);
    let all = positions(sorted);
    assert(vstd::relations::sorted_by(all, leq)) by {
        assert forall|i: int, j: int| 0 <= i < j < all.len() implies #[trigger] leq(
            all[i],
            all[j],
        ) by {
            assert(triple_le(sorted[i], sorted[j]));
        }
    }
    vstd::seq_lib::lemma_sorted_unique(all, by_position(items), leq);
}

/// Where merging stands after the first `j` of the sorted items: `members`
/// tells what the runs are made of.
spec fn merged_upto(
    items: Seq<(u64, u64)>,
    cap: int,
    sorted: Seq<(u64, u64, u64)>,
    j: int,
    runs: Seq<Run>,
    ranks: Seq<u64>,
    members: Seq<Seq<int>>,
) -> bool {
    &&& made_of(items, cap, runs, members)
    &&& each_member_once(members)
    &&& ranks.len() == runs.len()
    &&& forall|t: int|
        #![trigger sorted[t]]
        0 <= t < j ==> is_member(members, sorted[t].2 as int)
    &&& forall|k: int, x: int|
        #![trigger members[k][x]]
        0 <= k < members.len() && 0 <= x < members[k].len() ==> exists|t: int|
            0 <= t < j && #[trigger] sorted[t].2 == members[k][x]
    &&& forall|k: int|
        #![trigger ranks[k]]
        0 <= k < ranks.len() ==> is_earliest(ranks[k] as int, members[k])
}

/// Whether the item of rank `i` is among `sorted`.
spec fn has_rank(sorted: Seq<(u64, u64, u64)>, i: int) -> bool {
    exists|t: int| 0 <= t < sorted.len() && #[trigger] sorted[t].2 == i
}

/// Whether `rank` is the least of `of`.
spec fn is_earliest(rank: int, of: Seq<int>) -> bool {
    &&& of.contains(rank)
    &&& forall|x: int| 0 <= x < of.len() ==> rank <= #[trigger] of[x]
}

/// Whether the runs, in the order of positions, are as long as possible.
spec fn packed(
    sorted: Seq<(u64, u64, u64)>,
    j: int,
    runs: Seq<Run>,
    cap: int,
) -> bool {
    &&& fully_merged(runs, cap)
    &&& j > 0 ==> runs.len() > 0 && ends_at(runs.last(), sorted[j - 1])
    &&& forall|k: int|
        #![trigger runs[k]]
        0 <= k < runs.len() - 1 ==> runs[k].group < runs.last().group || (runs[k].group
            == runs.last().group && runs[k].start + runs[k].len <= runs.last().start)
}

/// Whether an item is the last of a run.
spec fn ends_at(run: Run, item: (u64, u64, u64)) -> bool {
    run.group == item.0 && run.start + run.len == item.1 + 1
}

proof fn lemma_ranked(items: Seq<(u64, u64)>, sorted: Seq<(u64, u64, u64)>)
    requires
        items.len() <= u64::MAX,
        sorted.to_multiset() == ranked(items).to_multiset(),
    ensures
        sorted.len() == items.len(),
        forall|t: int|
            #![trigger sorted[t]]
            0 <= t < sorted.len() ==> {
                &&& sorted[t].2 < items.len()
                &&& items[sorted[t].2 as int] == (sorted[t].0, sorted[t].1)
            },
        forall|t: int, u: int|
            #![trigger sorted[t], sorted[u]]
            0 <= t < u < sorted.len() ==> sorted[t].2 != sorted[u].2,
        forall|i: int| 0 <= i < items.len() ==> #[trigger] has_rank(sorted, i),
{
    let all = ranked(items);
    lemma_same_elements(all, sorted);
    assert(all.no_duplicates()) by {
        assert forall|i: int, j: int|
            0 <= i < all.len() && 0 <= j < all.len() && i != j implies all[i] != all[j] by {
            assert(all[i].2 == i && all[j].2 == j);
        }
    }
    assert forall|t: int| #![trigger sorted[t]] 0 <= t < sorted.len() implies {
        &&& sorted[t].2 < items.len()
        &&& items[sorted[t].2 as int] == (sorted[t].0, sorted[t].1)
    } by {
        assert(sorted.contains(sorted[t]));
        assert(all.contains(sorted[t]));
        let i = choose|i: int| 0 <= i < all.len() && all[i] == sorted[t];
        assert(all[i].2 == i);
    }
    assert forall|t: int, u: int|
        #![trigger sorted[t], sorted[u]]
        0 <= t < u < sorted.len() implies sorted[t].2 != sorted[u].2 by {
        if sorted[t].2 == sorted[u].2 {
            assert(sorted[t] == sorted[u]);
        }
    }
    assert forall|i: int| 0 <= i < items.len() implies #[trigger] has_rank(sorted, i) by {
        assert(all.contains(all[i]));
        assert(sorted.contains(all[i]));
        let t = choose|t: int| 0 <= t < sorted.len() && sorted[t] == all[i];
        assert(sorted[t].2 == i);
    }
}

/// An item that starts a run of its own.
proof fn lemma_new_run(
    items: Seq<(u64, u64)>,
    cap: int,
    sorted: Seq<(u64, u64, u64)>,
    j: int,
    runs: Seq<Run>,
    ranks: Seq<u64>,
    members: Seq<Seq<int>>,
)
    requires
        merged_upto(items, cap, sorted, j, runs, ranks, members),
        0 <= j < sorted.len(),
        cap >= 1,
        sorted[j].2 < items.len(),
        items[sorted[j].2 as int] == (sorted[j].0, sorted[j].1),
        forall|t: int| #![trigger sorted[t]] 0 <= t < j ==> sorted[t].2 != sorted[j].2,
    ensures
        merged_upto(
            items,
            cap,
            sorted,
            j + 1,
            runs.push(Run { group: sorted[j].0, start: sorted[j].1, len: 1 }),
            ranks.push(sorted[j].2),
            members.push(seq![sorted[j].2 as int]),
        ),
{
    let rank = sorted[j].2 as int;
    let runs2 = runs.push(Run { group: sorted[j].0, start: sorted[j].1, len: 1 });
    let ranks2 = ranks.push(sorted[j].2);
    let members2 = members.push(seq![rank]);
    assert forall|k: int, x: int|
        #![trigger members2[k][x]]
        0 <= k < members2.len() && 0 <= x < members2[k].len() implies {
        &&& 0 <= members2[k][x] < items.len()
        &&& items[members2[k][x]].0 == runs2[k].group
        &&& items[members2[k][x]].1 == runs2[k].start + x
        &&& exists|t: int| 0 <= t < j + 1 && #[trigger] sorted[t].2 == members2[k][x]
    } by {
        if k < members.len() {
            assert(members2[k][x] == members[k][x]);
            assert(runs2[k] == runs[k]);
            let t = choose|t: int| 0 <= t < j && #[trigger] sorted[t].2 == members[k][x];
            assert(sorted[t].2 == members2[k][x]);
        } else {
            assert(sorted[j].2 == members2[k][x]);
        }
    }
    assert forall|k: int| #![trigger runs2[k]] 0 <= k < runs2.len() implies 1 <= runs2[k].len <= cap
        && members2[k].len() == runs2[k].len by {
        if k < runs.len() {
            assert(runs2[k] == runs[k]);
        }
    }
    assert forall|k: int, x: int, l: int, y: int|
        #![trigger members2[k][x], members2[l][y]]
        0 <= k < members2.len() && 0 <= x < members2[k].len() && 0 <= l < members2.len() && 0 <= y
            < members2[l].len() && members2[k][x] == members2[l][y] implies k == l && x == y by {
        if k < members.len() && l < members.len() {
            assert(members2[k][x] == members[k][x] && members2[l][y] == members[l][y]);
        } else if k < members.len() {
            assert(members2[k][x] == members[k][x]);
            let t = choose|t: int| 0 <= t < j && #[trigger] sorted[t].2 == members[k][x];
            assert(false);
        } else if l < members.len() {
            assert(members2[l][y] == members[l][y]);
            let t = choose|t: int| 0 <= t < j && #[trigger] sorted[t].2 == members[l][y];
            assert(false);
        }
    }
    assert forall|t: int| #![trigger sorted[t]] 0 <= t < j + 1 implies is_member(
        members2,
        sorted[t].2 as int,
    ) by {
        if t < j {
            let (k, x) = choose|k: int, x: int|
                0 <= k < members.len() && 0 <= x < members[k].len() && #[trigger] members[k][x]
                    == sorted[t].2 as int;
            assert(members2[k][x] == sorted[t].2 as int);
        } else {
            assert(members2[members.len() as int][0] == rank);
        }
    }
    assert forall|k: int| #![trigger ranks2[k]] 0 <= k < ranks2.len() implies is_earliest(
        ranks2[k] as int,
        members2[k],
    ) by {
        if k < ranks.len() {
            assert(is_earliest(ranks[k] as int, members[k]));
        } else {
            assert(members2[k][0] == rank);
        }
    }
}

/// An item that continues the last run.
proof fn lemma_longer_run(
    items: Seq<(u64, u64)>,
    cap: int,
    sorted: Seq<(u64, u64, u64)>,
    j: int,
    runs: Seq<Run>,
    ranks: Seq<u64>,
    members: Seq<Seq<int>>,
)
    requires
        merged_upto(items, cap, sorted, j, runs, ranks, members),
        0 <= j < sorted.len(),
        runs.len() > 0,
        runs.last().len < cap,
        runs.last().len < u64::MAX,
        runs.last().group == sorted[j].0,
        runs.last().start + runs.last().len == sorted[j].1,
        sorted[j].2 < items.len(),
        items[sorted[j].2 as int] == (sorted[j].0, sorted[j].1),
        forall|t: int| #![trigger sorted[t]] 0 <= t < j ==> sorted[t].2 != sorted[j].2,
    ensures
        ({
            let last = runs.len() - 1;
            let rank = sorted[j].2;
            merged_upto(
                items,
                cap,
                sorted,
                j + 1,
                runs.update(last, Run { len: (runs[last].len + 1) as u64, ..runs[last] }),
                ranks.update(
                    last,
                    if rank < ranks[last] {
                        rank
                    } else {
                        ranks[last]
                    },
                ),
                members.update(last, members[last].push(rank as int)),
            )
        }),
{
    let last = runs.len() - 1;
    let rank = sorted[j].2;
    let runs2 = runs.update(last, Run { len: (runs[last].len + 1) as u64, ..runs[last] });
    let ranks2 = ranks.update(
        last,
        if rank < ranks[last] {
            rank
        } else {
            ranks[last]
        },
    );
    let members2 = members.update(last, members[last].push(rank as int));
    assert(members[last].len() == runs[last].len);
    assert forall|k: int, x: int|
        #![trigger members2[k][x]]
        0 <= k < members2.len() && 0 <= x < members2[k].len() implies {
        &&& 0 <= members2[k][x] < items.len()
        &&& items[members2[k][x]].0 == runs2[k].group
        &&& items[members2[k][x]].1 == runs2[k].start + x
        &&& exists|t: int| 0 <= t < j + 1 && #[trigger] sorted[t].2 == members2[k][x]
    } by {
        if k < last || x < members[last].len() {
            assert(members2[k][x] == members[k][x]);
            let t = choose|t: int| 0 <= t < j && #[trigger] sorted[t].2 == members[k][x];
            assert(sorted[t].2 == members2[k][x]);
        } else {
            assert(members2[k][x] == rank);
            assert(sorted[j].2 == members2[k][x]);
        }
    }
    assert forall|k: int| #![trigger runs2[k]] 0 <= k < runs2.len() implies 1 <= runs2[k].len <= cap
        && members2[k].len() == runs2[k].len by {
        if k < last {
            assert(runs2[k] == runs[k]);
        }
    }
    assert forall|k: int, x: int, l: int, y: int|
        #![trigger members2[k][x], members2[l][y]]
        0 <= k < members2.len() && 0 <= x < members2[k].len() && 0 <= l < members2.len() && 0 <= y
            < members2[l].len() && members2[k][x] == members2[l][y] implies k == l && x == y by {
        let k_old = k < last || x < members[last].len();
        let l_old = l < last || y < members[last].len();
        if k_old && l_old {
            assert(members2[k][x] == members[k][x] && members2[l][y] == members[l][y]);
        } else if k_old {
            assert(members2[k][x] == members[k][x]);
            let t = choose|t: int| 0 <= t < j && #[trigger] sorted[t].2 == members[k][x];
            assert(false);
        } else if l_old {
            assert(members2[l][y] == members[l][y]);
            let t = choose|t: int| 0 <= t < j && #[trigger] sorted[t].2 == members[l][y];
            assert(false);
        }
    }
    assert forall|t: int| #![trigger sorted[t]] 0 <= t < j + 1 implies is_member(
        members2,
        sorted[t].2 as int,
    ) by {
        if t < j {
            let (k, x) = choose|k: int, x: int|
                0 <= k < members.len() && 0 <= x < members[k].len() && #[trigger] members[k][x]
                    == sorted[t].2 as int;
            assert(members2[k][x] == sorted[t].2 as int);
        } else {
            assert(members2[last][members[last].len() as int] == rank);
        }
    }
    assert forall|k: int| #![trigger ranks2[k]] 0 <= k < ranks2.len() implies is_earliest(
        ranks2[k] as int,
        members2[k],
    ) by {
        assert(is_earliest(ranks[k] as int, members[k]));
        if k == last {
            let w = choose|w: int| 0 <= w < members[k].len() && members[k][w] == ranks[k] as int;
            assert(members2[k][w] == ranks[k] as int);
            assert(members2[k][members[last].len() as int] == rank);
            assert forall|x: int| 0 <= x < members2[k].len() implies ranks2[k]
                <= #[trigger] members2[k][x] by {
                if x < members[k].len() {
                    assert(members2[k][x] == members[k][x]);
                }
            }
        }
    }
}

/// Distinct positions in ascending order.
spec fn ascending(sorted: Seq<(u64, u64, u64)>) -> bool {
    forall|t: int, u: int|
        #![trigger sorted[t], sorted[u]]
        0 <= t < u < sorted.len() ==> sorted[t].0 < sorted[u].0 || (sorted[t].0 == sorted[u].0
            && sorted[t].1 < sorted[u].1)
}

proof fn lemma_ascending(items: Seq<(u64, u64)>, sorted: Seq<(u64, u64, u64)>)
    requires
        items.no_duplicates(),
        sorted_triples(sorted),
        forall|t: int|
            #![trigger sorted[t]]
            0 <= t < sorted.len() ==> {
                &&& sorted[t].2 < items.len()
                &&& items[sorted[t].2 as int] == (sorted[t].0, sorted[t].1)
            },
        forall|t: int, u: int|
            #![trigger sorted[t], sorted[u]]
            0 <= t < u < sorted.len() ==> sorted[t].2 != sorted[u].2,
    ensures
        ascending(sorted),
{
    assert forall|t: int, u: int|
        #![trigger sorted[t], sorted[u]]
        0 <= t < u < sorted.len() implies sorted[t].0 < sorted[u].0 || (sorted[t].0 == sorted[u].0
        && sorted[t].1 < sorted[u].1) by {
        assert(triple_le(sorted[t], sorted[u]));
        assert(items[sorted[t].2 as int] != items[sorted[u].2 as int]);
    }
}

proof fn lemma_packed_new(
    sorted: Seq<(u64, u64, u64)>,
    j: int,
    runs: Seq<Run>,
    cap: int,
)
    requires
        ascending(sorted),
        packed(sorted, j, runs, cap),
        0 <= j < sorted.len(),
        cap >= 1,
        j == 0 ==> runs.len() == 0,
        forall|k: int| #![trigger runs[k]] 0 <= k < runs.len() ==> 1 <= runs[k].len <= cap,
        runs.len() > 0 ==> runs.last().group != sorted[j].0 || runs.last().start
            + runs.last().len != sorted[j].1 || runs.last().len == cap,
    ensures
        packed(
            sorted,
            j + 1,
            runs.push(Run { group: sorted[j].0, start: sorted[j].1, len: 1 }),
            cap,
        ),
{
    let new = Run { group: sorted[j].0, start: sorted[j].1, len: 1 };
    let runs2 = runs.push(new);
    assert forall|k: int| #![trigger runs[k]] 0 <= k < runs.len() implies runs[k].group < new.group
        || (runs[k].group == new.group && runs[k].start + runs[k].len <= new.start) by {
        assert(sorted[j - 1].0 < sorted[j].0 || (sorted[j - 1].0 == sorted[j].0 && sorted[j - 1].1
            < sorted[j].1));
        assert(ends_at(runs.last(), sorted[j - 1]));
        assert(1 <= runs[runs.len() - 1].len);
    }
    assert forall|k: int, l: int|
        #![trigger runs2[k], runs2[l]]
        0 <= k < runs2.len() && 0 <= l < runs2.len() && runs2[k].group == runs2[l].group
            && runs2[k].start + runs2[k].len == runs2[l].start implies runs2[k].len == cap by {
        if k < runs.len() {
            assert(runs2[k] == runs[k]);
        }
        if l < runs.len() {
            assert(runs2[l] == runs[l]);
        }
        if k < runs.len() && l == runs.len() {
            if k < runs.len() - 1 {
                assert(1 <= runs[runs.len() - 1].len);
                assert(runs[k].group < runs.last().group || (runs[k].group == runs.last().group
                    && runs[k].start + runs[k].len <= runs.last().start));
                assert(runs[runs.len() - 1].group <= new.group);
            }
        }
    }
    assert forall|k: int| #![trigger runs2[k]] 0 <= k < runs2.len() - 1 implies runs2[k].group
        < runs2.last().group || (runs2[k].group == runs2.last().group && runs2[k].start
        + runs2[k].len <= runs2.last().start) by {
        assert(runs2[k] == runs[k]);
    }
}

proof fn lemma_packed_longer(
    sorted: Seq<(u64, u64, u64)>,
    j: int,
    runs: Seq<Run>,
    cap: int,
)
    requires
        packed(sorted, j, runs, cap),
        0 < j < sorted.len(),
        runs.len() > 0,
        forall|k: int| #![trigger runs[k]] 0 <= k < runs.len() ==> 1 <= runs[k].len <= cap,
        runs.last().len < u64::MAX,
        runs.last().group == sorted[j].0,
        runs.last().start + runs.last().len == sorted[j].1,
    ensures
        ({
            let last = runs.len() - 1;
            packed(
                sorted,
                j + 1,
                runs.update(last, Run { len: (runs[last].len + 1) as u64, ..runs[last] }),
                cap,
            )
        }),
{
    let last = runs.len() - 1;
    let runs2 = runs.update(last, Run { len: (runs[last].len + 1) as u64, ..runs[last] });
    assert forall|k: int, l: int|
        #![trigger runs2[k], runs2[l]]
        0 <= k < runs2.len() && 0 <= l < runs2.len() && runs2[k].group == runs2[l].group
            && runs2[k].start + runs2[k].len == runs2[l].start implies runs2[k].len == cap by {
        if k < last {
            assert(runs2[k] == runs[k]);
            assert(runs2[l].start == runs[l].start && runs2[l].group == runs[l].group);
            assert(runs[k].len == cap);
        } else if l < last {
            assert(runs2[l] == runs[l]);
            assert(1 <= runs[l].len);
        }
    }
    assert forall|k: int| #![trigger runs2[k]] 0 <= k < runs2.len() - 1 implies runs2[k].group
        < runs2.last().group || (runs2[k].group == runs2.last().group && runs2[k].start
        + runs2[k].len <= runs2.last().start) by {
        assert(runs2[k] == runs[k]);
    }
}

/// Merges adjacent positions of sorted items into runs, and tells the earliest
/// rank of each.
fn merge_sorted(
    items: &Vec<(u64, u64)>,
    sorted: &Vec<(u64, u64, u64)>,
    cap: u64,
) -> (res: (Vec<Run>, Vec<u64>))
    requires
        cap >= 1,
        sorted_triples(sorted@),
        sorted@.len() == items@.len(),
        forall|t: int|
            #![trigger sorted@[t]]
            0 <= t < sorted@.len() ==> {
                &&& sorted@[t].2 < items@.len()
                &&& items@[sorted@[t].2 as int] == (sorted@[t].0, sorted@[t].1)
            },
        forall|t: int, u: int|
            #![trigger sorted@[t], sorted@[u]]
            0 <= t < u < sorted@.len() ==> sorted@[t].2 != sorted@[u].2,
    ensures
        exists|members: Seq<Seq<int>>| #[trigger]
            merged_upto(
                items@,
                cap as int,
                sorted@,
                sorted@.len() as int,
                res.0@,
                res.1@,
                members,
            ),
        res.0@ == merged(positions(sorted@), cap as int),
        items@.no_duplicates() ==> fully_merged(res.0@, cap as int),
{
    let mut runs: Vec<Run> = Vec::new();
    let mut ranks: Vec<u64> = Vec::new();
    let ghost mut members: Seq<Seq<int>> = Seq::empty();
    let mut j: usize = 0;
    proof {
        if items@.no_duplicates() {
            lemma_ascending(items@, sorted@);
        }
        assert(positions(sorted@).take(0) =~= Seq::empty());
    }
    while j < sorted.len()
        invariant
            j <= sorted@.len(),
            cap >= 1,
            items@.no_duplicates() ==> ascending(sorted@),
            sorted@.len() == items@.len(),
            forall|t: int|
                #![trigger sorted@[t]]
                0 <= t < sorted@.len() ==> {
                    &&& sorted@[t].2 < items@.len()
                    &&& items@[sorted@[t].2 as int] == (sorted@[t].0, sorted@[t].1)
                },
            forall|t: int, u: int|
                #![trigger sorted@[t], sorted@[u]]
                0 <= t < u < sorted@.len() ==> sorted@[t].2 != sorted@[u].2,
            merged_upto(
                items@,
                cap as int,
                sorted@,
                j as int,
                runs@,
                ranks@,
                members,
            ),
            runs@ == merged(positions(sorted@).take(j as int), cap as int),
            j == 0 ==> runs@.len() == 0,
            j > 0 ==> runs@.len() > 0,
            items@.no_duplicates() ==> packed(sorted@, j as int, runs@, cap as int),
        decreases sorted@.len() - j,
    {
        let item: (u64, u64, u64) = sorted[j];
        let ghost before = (runs@, ranks@, members);
        let count: usize = runs.len();
        let mut joins: bool = false;
        if count > 0 {
            let last: Run = runs[count - 1];
            joins = last.group == item.0 && item.1 > last.start && item.1 - last.start
                == last.len && last.len < cap;
            assert(1 <= runs@[count - 1].len <= cap);
        }
        proof {
            let upto = positions(sorted@).take(j + 1);
            assert(upto.drop_last() =~= positions(sorted@).take(j as int));
            assert(upto.last() == (item.0, item.1));
        }
        if joins {
            proof {
                lemma_longer_run(
                    items@,
                    cap as int,
                    sorted@,
                    j as int,
                    runs@,
                    ranks@,
                    members,
                );
                if items@.no_duplicates() {
                    lemma_packed_longer(sorted@, j as int, runs@, cap as int);
                }
            }
            let last: Run = runs[count - 1];
            runs[count - 1] = Run { group: last.group, start: last.start, len: last.len + 1 };
            assert(runs@ =~= before.0.drop_last().push(runs@.last()));
            if item.2 < ranks[count - 1] {
                ranks[count - 1] = item.2;
            }
            proof {
                members = members.update(
                    count - 1,
                    members[count - 1].push(item.2 as int),
                );
                assert(ranks@ =~= before.1.update(
                    count - 1,
                    if item.2 < before.1[count - 1] {
                        item.2
                    } else {
                        before.1[count - 1]
                    },
                ));
            }
        } else {
            proof {
                lemma_new_run(items@, cap as int, sorted@, j as int, runs@, ranks@, members);
                if items@.no_duplicates() {
                    lemma_packed_new(sorted@, j as int, runs@, cap as int);
                }
            }
            runs.push(Run { group: item.0, start: item.1, len: 1 });
            ranks.push(item.2);
            proof {
                members = members.push(seq![item.2 as int]);
            }
        }
        j = j + 1;
    }
    assert(j == sorted@.len());
    assert(positions(sorted@).take(j as int) =~= positions(sorted@));
    let res: (Vec<Run>, Vec<u64>) = (runs, ranks);
    assert(merged_upto(
        items@,
        cap as int,
        sorted@,
        sorted@.len() as int,
        res.0@,
        res.1@,
        members,
    ));
    res
}

/// The runs in the order of their earliest ranks.
spec fn ordered(runs: Seq<Run>, order: Seq<(u64, u64, u64)>) -> Seq<Run> {
    Seq::new(order.len(), |m: int| runs[order[m].1 as int])
}

proof fn lemma_grouped(
    items: Seq<(u64, u64)>,
    cap: int,
    sorted: Seq<(u64, u64, u64)>,
    runs: Seq<Run>,
    ranks: Seq<u64>,
    members: Seq<Seq<int>>,
    order: Seq<(u64, u64, u64)>,
)
    requires
        merged_upto(items, cap, sorted, sorted.len() as int, runs, ranks, members),
        forall|i: int| 0 <= i < items.len() ==> #[trigger] has_rank(sorted, i),
        sorted_triples(order),
        order.len() == runs.len(),
        forall|m: int|
            #![trigger order[m]]
            0 <= m < order.len() ==> order[m].1 < runs.len() && order[m].0
                == ranks[order[m].1 as int],
        forall|m: int, l: int|
            #![trigger order[m], order[l]]
            0 <= m < l < order.len() ==> order[m].1 != order[l].1,
        forall|k: int| 0 <= k < runs.len() ==> #[trigger] has_place(order, k),
    ensures
        exists|ms: Seq<Seq<int>>| #[trigger] grouped(items, cap, ordered(runs, order), ms),
        fully_merged(runs, cap) ==> fully_merged(ordered(runs, order), cap),
{
    let out = ordered(runs, order);
    let ms = Seq::new(order.len(), |m: int| members[order[m].1 as int]);
    assert forall|m: int, x: int|
        #![trigger ms[m][x]]
        0 <= m < ms.len() && 0 <= x < ms[m].len() implies {
        &&& 0 <= ms[m][x] < items.len()
        &&& items[ms[m][x]].0 == out[m].group
        &&& items[ms[m][x]].1 == out[m].start + x
    } by {
        assert(ms[m][x] == members[order[m].1 as int][x]);
    }
    assert forall|m: int| #![trigger out[m]] 0 <= m < out.len() implies 1 <= out[m].len <= cap
        && ms[m].len() == out[m].len by {
        assert(out[m] == runs[order[m].1 as int]);
    }
    assert forall|i: int| 0 <= i < items.len() implies #[trigger] is_member(ms, i) by {
        assert(has_rank(sorted, i));
        let t = choose|t: int| 0 <= t < sorted.len() && #[trigger] sorted[t].2 == i;
        assert(is_member(members, sorted[t].2 as int));
        let (k, x) = choose|k: int, x: int|
            0 <= k < members.len() && 0 <= x < members[k].len() && #[trigger] members[k][x] == i;
        assert(has_place(order, k));
        let m = choose|m: int| 0 <= m < order.len() && (#[trigger] order[m]).1 == k;
        assert(ms[m][x] == i);
    }
    assert forall|k: int, x: int, l: int, y: int|
        #![trigger ms[k][x], ms[l][y]]
        0 <= k < ms.len() && 0 <= x < ms[k].len() && 0 <= l < ms.len() && 0 <= y < ms[l].len()
            && ms[k][x] == ms[l][y] implies k == l && x == y by {
        assert(ms[k][x] == members[order[k].1 as int][x]);
        assert(ms[l][y] == members[order[l].1 as int][y]);
        assert(order[k].1 == order[l].1);
    }
    assert forall|k: int, l: int|
        #![trigger ms[k], ms[l]]
        0 <= k < l < ms.len() implies starts_before(ms[k], ms[l]) by {
        let (a, b) = (order[k].1 as int, order[l].1 as int);
        assert(triple_le(order[k], order[l]));
        assert(is_earliest(ranks[a] as int, members[a]));
        assert(is_earliest(ranks[b] as int, members[b]));
        let x = choose|x: int| 0 <= x < members[a].len() && members[a][x] == ranks[a] as int;
        let y = choose|y: int| 0 <= y < members[b].len() && members[b][y] == ranks[b] as int;
        assert(ms[k][x] == ranks[a] as int);
        assert(members[a][x] != members[b][y]);
        assert(precedes(ms[k][x], ms[l]));
    }
    assert(grouped(items, cap, out, ms));
    if fully_merged(runs, cap) {
        assert forall|k: int, l: int|
            #![trigger out[k], out[l]]
            0 <= k < out.len() && 0 <= l < out.len() && out[k].group == out[l].group
                && out[k].start + out[k].len == out[l].start implies out[k].len == cap by {
            assert(out[k] == runs[order[k].1 as int]);
            assert(out[l] == runs[order[l].1 as int]);
        }
    }
}

/// Whether run `k` is among the ordered ones.
spec fn has_place(order: Seq<(u64, u64, u64)>, k: int) -> bool {
    exists|m: int| 0 <= m < order.len() && (#[trigger] order[m]).1 == k
}

/// The runs with their earliest ranks, to be sorted.
spec fn placed_runs(ranks: Seq<u64>) -> Seq<(u64, u64, u64)> {
    Seq::new(ranks.len(), |k: int| (ranks[k], k as u64, 0u64))
}

proof fn lemma_order(ranks: Seq<u64>, order: Seq<(u64, u64, u64)>)
    requires
        ranks.len() <= u64::MAX,
        order.to_multiset() == placed_runs(ranks).to_multiset(),
    ensures
        order.len() == ranks.len(),
        forall|m: int|
            #![trigger order[m]]
            0 <= m < order.len() ==> order[m].1 < ranks.len() && order[m].0
                == ranks[order[m].1 as int],
        forall|m: int, l: int|
            #![trigger order[m], order[l]]
            0 <= m < l < order.len() ==> order[m].1 != order[l].1,
        forall|k: int| 0 <= k < ranks.len() ==> #[trigger] has_place(order, k),
{
    let all = placed_runs(ranks);
    lemma_same_elements(all, order);
    assert(all.no_duplicates()) by {
        assert forall|i: int, j: int|
            0 <= i < all.len() && 0 <= j < all.len() && i != j implies all[i] != all[j] by {
            assert(all[i].1 == i && all[j].1 == j);
        }
    }
    assert forall|m: int| #![trigger order[m]] 0 <= m < order.len() implies order[m].1
        < ranks.len() && order[m].0 == ranks[order[m].1 as int] && order[m].2 == 0 by {
        assert(order.contains(order[m]));
        assert(all.contains(order[m]));
        let i = choose|i: int| 0 <= i < all.len() && all[i] == order[m];
        assert(all[i].1 == i);
    }
    assert forall|m: int, l: int|
        #![trigger order[m], order[l]]
        0 <= m < l < order.len() implies order[m].1 != order[l].1 by {
        if order[m].1 == order[l].1 {
            assert(order[m] == order[l]);
        }
    }
    assert forall|k: int| 0 <= k < ranks.len() implies #[trigger] has_place(order, k) by {
        assert(all.contains(all[k]));
        assert(order.contains(all[k]));
        let m = choose|m: int| 0 <= m < order.len() && order[m] == all[k];
        assert(order[m].1 == k);
    }
}

/// Reordering keeps the runs.
proof fn lemma_reordered(runs: Seq<Run>, ranks: Seq<u64>, order: Seq<(u64, u64, u64)>)
    requires
        runs.len() == ranks.len(),
        ranks.len() <= u64::MAX,
        order.to_multiset() == placed_runs(ranks).to_multiset(),
    ensures
        ordered(runs, order).to_multiset() == runs.to_multiset(),
{
    let f = |place: (u64, u64, u64)| runs[place.1 as int];
    lemma_same_map(order, placed_runs(ranks), f);
    assert(order.map_values(f) =~= ordered(runs, order));
    assert(placed_runs(ranks).map_values(f) =~= runs);
}

/// Merges positions in rank order into runs of at most `cap` positions each,
/// in the order of their earliest ranks.
pub fn merge_runs(items: &Vec<(u64, u64)>, cap: u64) -> (runs: Vec<Run>)
    requires
        cap >= 1,
    ensures
        runs_of(items@, cap as int, runs@),
{
    let mut sorted: Vec<(u64, u64, u64)> = Vec::new();
    let mut i: usize = 0;
    while i < items.len()
        invariant
            i <= items@.len(),
            sorted@ == ranked(items@).take(i as int),
        decreases items@.len() - i,
    {
        sorted.push((items[i].0, items[i].1, i as u64));
        assert(ranked(items@).take(i + 1) =~= ranked(items@).take(i as int).push(
            ranked(items@)[i as int],
        ));
        i = i + 1;
    }
    assert(ranked(items@).take(i as int) =~= ranked(items@));
    sort_triples(&mut sorted);
    proof {
        lemma_ranked(items@, sorted@);
        lemma_positions(items@, sorted@);
    }
    let (runs, ranks): (Vec<Run>, Vec<u64>) = merge_sorted(items, &sorted, cap);
    let ghost members = choose|members: Seq<Seq<int>>| #[trigger]
        merged_upto(
            items@,
            cap as int,
            sorted@,
            sorted@.len() as int,
            runs@,
            ranks@,
            members,
        );
    let mut order: Vec<(u64, u64, u64)> = Vec::new();
    let mut k: usize = 0;
    while k < ranks.len()
        invariant
            k <= ranks@.len(),
            order@ == placed_runs(ranks@).take(k as int),
        decreases ranks@.len() - k,
    {
        order.push((ranks[k], k as u64, 0));
        assert(placed_runs(ranks@).take(k + 1) =~= placed_runs(ranks@).take(k as int).push(
            placed_runs(ranks@)[k as int],
        ));
        k = k + 1;
    }
    assert(placed_runs(ranks@).take(k as int) =~= placed_runs(ranks@));
    sort_triples(&mut order);
    proof {
        lemma_order(ranks@, order@);
        lemma_reordered(runs@, ranks@, order@);
        lemma_grouped(items@, cap as int, sorted@, runs@, ranks@, members, order@);
    }
    let mut out: Vec<Run> = Vec::new();
    let mut m: usize = 0;
    while m < order.len()
        invariant
            m <= order@.len(),
            forall|l: int|
                #![trigger order@[l]]
                0 <= l < order@.len() ==> order@[l].1 < runs@.len(),
            out@ == ordered(runs@, order@).take(m as int),
        decreases order@.len() - m,
    {
        assert(order@[m as int].1 < runs@.len());
        out.push(runs[order[m].1 as usize]);
        assert(ordered(runs@, order@).take(m + 1) =~= ordered(runs@, order@).take(m as int).push(
            ordered(runs@, order@)[m as int],
        ));
        m = m + 1;
    }
    assert(ordered(runs@, order@).take(m as int) =~= ordered(runs@, order@));
    out
}

} // verus!
