//! Gaps against the selection.
use vstd::prelude::*;
use crate::extents::object_blocks;
use crate::plan_lemmas::{distinct_blocks, lemma_missing_bounds};
use crate::plan_model::{Need, Progress, Stack, missing_blocks, selects, total_blocks_upto};

verus! {

/// How many of the blocks are blocks of a layer.
pub open spec fn selected_in(blocks: Seq<Need>, layer: usize) -> int
    decreases blocks.len(),
{
    if blocks.len() == 0 {
        0
    } else {
        selected_in(blocks.drop_last(), layer) + if blocks.last().layer == layer {
            1int
        } else {
            0int
        }
    }
}

proof fn lemma_missing_push(blocks: Seq<Need>, x: Need, layer: usize, n: int)
    requires
        !selects(blocks, x.layer, x.block as int),
    ensures
        missing_blocks(blocks.push(x), layer, n) == missing_blocks(blocks, layer, n) - if x.layer
            == layer && x.block < n {
            1int
        } else {
            0int
        },
    decreases n,
{
    if n > 0 {
        lemma_missing_push(blocks, x, layer, n - 1);
        let more = blocks.push(x);
        assert(selects(more, layer, n - 1) <==> selects(blocks, layer, n - 1) || (x.layer == layer
            && x.block == n - 1)) by {
            if selects(blocks, layer, n - 1) {
                let i = choose|i: int|
                    0 <= i < blocks.len() && (#[trigger] blocks[i]).layer == layer
                        && blocks[i].block == n - 1;
                assert(more[i] == blocks[i]);
            }
            if x.layer == layer && x.block == n - 1 {
                assert(more[blocks.len() as int] == x);
            }
            if selects(more, layer, n - 1) {
                let i = choose|i: int|
                    0 <= i < more.len() && (#[trigger] more[i]).layer == layer && more[i].block == n
                        - 1;
                if i < blocks.len() {
                    assert(blocks[i] == more[i]);
                }
            }
        }
    }
}

proof fn lemma_nothing_selected(layer: usize, n: int)
    requires
        0 <= n,
    ensures
        missing_blocks(Seq::empty(), layer, n) == n,
    decreases n,
{
    if n > 0 {
        lemma_nothing_selected(layer, n - 1);
        assert(!selects(Seq::empty(), layer, n - 1));
    }
}

/// What is selected of a layer and what is missing are all its blocks.
proof fn lemma_selected_and_missing(blocks: Seq<Need>, layer: usize, n: int)
    requires
        0 <= n,
        distinct_blocks(blocks),
        forall|i: int|
            0 <= i < blocks.len() && (#[trigger] blocks[i]).layer == layer ==> blocks[i].block < n,
    ensures
        missing_blocks(blocks, layer, n) + selected_in(blocks, layer) == n,
    decreases blocks.len(),
{
    if blocks.len() == 0 {
        assert(blocks =~= Seq::empty());
        lemma_nothing_selected(layer, n);
    } else {
        let init = blocks.drop_last();
        let x = blocks.last();
        assert(blocks =~= init.push(x));
        assert forall|i: int, j: int|
            #![trigger init[i], init[j]]
            0 <= i < j < init.len() implies init[i].layer != init[j].layer || init[i].block
            != init[j].block by {
            assert(init[i] == blocks[i] && init[j] == blocks[j]);
        }
        assert forall|i: int|
            0 <= i < init.len() && (#[trigger] init[i]).layer == layer implies init[i].block < n by {
            assert(init[i] == blocks[i]);
        }
        lemma_selected_and_missing(init, layer, n);
        assert(!selects(init, x.layer, x.block as int)) by {
            if selects(init, x.layer, x.block as int) {
                let i = choose|i: int|
                    0 <= i < init.len() && (#[trigger] init[i]).layer == x.layer && init[i].block
                        == x.block as int;
                assert(blocks[i] == init[i]);
                assert(blocks[blocks.len() - 1] == x);
            }
        }
        assert(blocks[blocks.len() - 1] == x);
        lemma_missing_push(init, x, layer, n);
    }
}

/// How many of the blocks are blocks of the first `n` layers.
spec fn selected_upto(blocks: Seq<Need>, n: int) -> int
    decreases n,
{
    if n <= 0 {
        0
    } else {
        selected_upto(blocks, n - 1) + selected_in(blocks, (n - 1) as usize)
    }
}

proof fn lemma_selected_upto_push(blocks: Seq<Need>, x: Need, n: int)
    requires
        0 <= n <= usize::MAX,
    ensures
        selected_upto(blocks.push(x), n) == selected_upto(blocks, n) + if x.layer < n {
            1int
        } else {
            0int
        },
    decreases n,
{
    assert(blocks.push(x).drop_last() =~= blocks);
    if n > 0 {
        lemma_selected_upto_push(blocks, x, n - 1);
    }
}

proof fn lemma_nothing_upto(n: int)
    ensures
        selected_upto(Seq::empty(), n) == 0,
    decreases n,
{
    if n > 0 {
        lemma_nothing_upto(n - 1);
    }
}

proof fn lemma_selected_total(blocks: Seq<Need>, n: int)
    requires
        0 <= n <= usize::MAX,
        forall|i: int| 0 <= i < blocks.len() ==> (#[trigger] blocks[i]).layer < n,
    ensures
        selected_upto(blocks, n) == blocks.len(),
    decreases blocks.len(),
{
    if blocks.len() == 0 {
        assert(blocks =~= Seq::empty());
        lemma_nothing_upto(n);
    } else {
        let init = blocks.drop_last();
        assert(blocks =~= init.push(blocks.last()));
        assert forall|i: int| 0 <= i < init.len() implies (#[trigger] init[i]).layer < n by {
            assert(init[i] == blocks[i]);
        }
        assert(blocks[blocks.len() - 1].layer < n);
        lemma_selected_total(init, n);
        lemma_selected_upto_push(init, blocks.last(), n);
    }
}

proof fn lemma_none_in(blocks: Seq<Need>, layer: usize)
    requires
        forall|i: int| 0 <= i < blocks.len() ==> (#[trigger] blocks[i]).layer != layer,
    ensures
        selected_in(blocks, layer) == 0,
    decreases blocks.len(),
{
    if blocks.len() > 0 {
        let init = blocks.drop_last();
        assert forall|i: int| 0 <= i < init.len() implies (#[trigger] init[i]).layer != layer by {
            assert(init[i] == blocks[i]);
        }
        assert(blocks[blocks.len() - 1].layer != layer);
        lemma_none_in(init, layer);
    }
}

impl Stack {
    proof fn lemma_selected_bounded(self, blocks: Seq<Need>, n: int)
        requires
            distinct_blocks(blocks),
            self.in_objects(blocks),
            0 <= n <= self.layers.len() <= usize::MAX,
        ensures
            selected_upto(blocks, n) <= total_blocks_upto(self.layers, n),
        decreases n,
    {
        if n > 0 {
            self.lemma_selected_bounded(blocks, n - 1);
            let layer = (n - 1) as usize;
            let total = object_blocks(self.layers[n - 1].size as int);
            lemma_selected_and_missing(blocks, layer, total);
            lemma_missing_bounds(blocks, layer, total);
        }
    }

    /// There are no more distinct blocks than the layers have.
    pub proof fn lemma_blocks_bounded(self, blocks: Seq<Need>)
        requires
            distinct_blocks(blocks),
            self.in_objects(blocks),
            self.layers.len() <= usize::MAX,
        ensures
            blocks.len() <= self.total_blocks(),
    {
        let n = self.layers.len() as int;
        self.lemma_selected_bounded(blocks, n);
        lemma_selected_total(blocks, n);
    }

    /// Blocks of the first `n` layers, of those that contribute.
    pub open spec fn contributing_blocks(self, p: Progress, n: int) -> int
        decreases n,
    {
        if n <= 0 {
            0
        } else {
            self.contributing_blocks(p, n - 1) + if p.objects.contains((n - 1) as usize) {
                object_blocks(self.layers[n - 1].size as int)
            } else {
                0
            }
        }
    }

    proof fn lemma_gap_complement(self, p: Progress, budget: int, n: int)
        requires
            self.wf(),
            self.well_planned(p, budget),
            0 <= n <= self.layers.len(),
        ensures
            self.gap_blocks(p, n) + selected_upto(p.blocks, n) == self.contributing_blocks(p, n),
        decreases n,
    {
        if n > 0 {
            self.lemma_gap_complement(p, budget, n - 1);
            let layer = (n - 1) as usize;
            if p.objects.contains(layer) {
                let total = object_blocks(self.layers[n - 1].size as int);
                assert forall|i: int|
                    0 <= i < p.blocks.len() && (#[trigger] p.blocks[i]).layer == layer implies
                    p.blocks[i].block < total by {
                }
                lemma_selected_and_missing(p.blocks, layer, total);
            } else {
                assert forall|i: int| 0 <= i < p.blocks.len() implies (#[trigger] p.blocks[i]).layer
                    != layer by {
                    assert(p.objects.contains(p.blocks[i].layer));
                }
                lemma_none_in(p.blocks, layer);
            }
        }
    }

    /// The gaps are the complement of the selection: what is selected and what
    /// is missing are together the blocks of the contributing objects.
    pub proof fn law_gaps_complement_selection(self, p: Progress, budget: int)
        requires
            self.wf(),
            self.well_planned(p, budget),
        ensures
            self.gap_blocks(p, self.layers.len() as int) + p.blocks.len()
                == self.contributing_blocks(p, self.layers.len() as int),
    {
        let n = self.layers.len() as int;
        self.lemma_gap_complement(p, budget, n);
        lemma_selected_total(p.blocks, n);
    }
}

} // verus!
