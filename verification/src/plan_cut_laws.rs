//! Answers of the merged index, and the same answers cut into pieces.
use vstd::prelude::*;
use crate::extents::{
    LayerLayout, OBJECT_BLOCK_BYTES, PlanError, aligned_blocks, first_block, last_block,
    zfile_blocks,
};
use crate::plan_lemmas::{lemma_extend_blocks, lemma_extend_blocks_push, lemma_extend_concat};
use crate::plan_model::{
    Need, PAGE_SECTORS, SECTOR_BYTES, SegmentMapping, Stack, backed, backs, data_needs,
    extend_blocks, page_backed, selects,
};

verus! {

/// Dependencies without repetitions, each at its first occurrence.
pub open spec fn first_uses(deps: Seq<(usize, u32)>) -> Seq<Need> {
    extend_blocks(Seq::empty(), data_needs(deps))
}

/// Repetitions do not matter to what is selected.
pub proof fn lemma_first_uses(have: Seq<Need>, more: Seq<Need>)
    ensures
        extend_blocks(have, more) == extend_blocks(have, extend_blocks(Seq::empty(), more)),
    decreases more.len(),
{
    if more.len() > 0 {
        let init = more.drop_last();
        let x = more.last();
        let none = Seq::<Need>::empty();
        lemma_first_uses(have, init);
        let uses = extend_blocks(none, init);
        if selects(uses, x.layer, x.block as int) {
            lemma_extend_blocks(none, init);
            let k = choose|k: int|
                0 <= k < uses.len() && (#[trigger] uses[k]).layer == x.layer && uses[k].block
                    == x.block as int;
            assert(init.contains(uses[k]));
            let j = choose|j: int| 0 <= j < init.len() && init[j] == uses[k];
            lemma_extend_blocks(have, init);
            assert(selects(extend_blocks(have, init), init[j].layer, init[j].block as int));
        } else {
            lemma_extend_blocks_push(have, uses, x);
        }
    }
}

/// Dependencies with the same first uses are the same, up to repetitions.
pub proof fn lemma_same_uses(a: Seq<(usize, u32)>, b: Seq<(usize, u32)>)
    requires
        first_uses(a) == first_uses(b),
    ensures
        forall|d: (usize, u32)| #[trigger] a.contains(d) <==> b.contains(d),
{
    assert forall|d: (usize, u32)| #[trigger] a.contains(d) <==> b.contains(d) by {
        if a.contains(d) {
            lemma_used(a, b, d);
        }
        if b.contains(d) {
            lemma_used(b, a, d);
        }
    }
}

proof fn lemma_used(a: Seq<(usize, u32)>, b: Seq<(usize, u32)>, d: (usize, u32))
    requires
        first_uses(a) == first_uses(b),
        a.contains(d),
    ensures
        b.contains(d),
{
    let none = Seq::<Need>::empty();
    let i = choose|i: int| 0 <= i < a.len() && a[i] == d;
    lemma_extend_blocks(none, data_needs(a));
    assert(data_needs(a)[i].layer == d.0);
    let uses = first_uses(a);
    assert(selects(uses, data_needs(a)[i].layer, data_needs(a)[i].block as int));
    let k = choose|k: int|
        0 <= k < uses.len() && (#[trigger] uses[k]).layer == d.0 && uses[k].block == d.1 as int;
    lemma_extend_blocks(none, data_needs(b));
    assert(data_needs(b).contains(first_uses(b)[k]));
    let j = choose|j: int| 0 <= j < data_needs(b).len() && data_needs(b)[j] == uses[k];
    assert(b[j] == d);
}

/// First uses go together.
pub proof fn lemma_uses_concat(
    a: Seq<(usize, u32)>,
    b: Seq<(usize, u32)>,
    c: Seq<(usize, u32)>,
    d: Seq<(usize, u32)>,
)
    requires
        first_uses(a) == first_uses(c),
        first_uses(b) == first_uses(d),
    ensures
        first_uses(a + b) == first_uses(c + d),
{
    let none = Seq::<Need>::empty();
    assert(data_needs(a + b) =~= data_needs(a) + data_needs(b));
    assert(data_needs(c + d) =~= data_needs(c) + data_needs(d));
    lemma_extend_concat(none, Seq::empty(), data_needs(a), data_needs(b));
    lemma_extend_concat(none, Seq::empty(), data_needs(c), data_needs(d));
    lemma_first_uses(first_uses(a), data_needs(b));
    lemma_first_uses(first_uses(a), data_needs(d));
}

/// What was used before adds no first use.
proof fn lemma_uses_again(a: Seq<(usize, u32)>, x: Seq<(usize, u32)>)
    requires
        forall|i: int| 0 <= i < x.len() ==> a.contains(#[trigger] x[i]),
    ensures
        first_uses(a + x) == first_uses(a),
    decreases x.len(),
{
    if x.len() == 0 {
        assert(a + x =~= a);
    } else {
        let init = x.drop_last();
        let d = x.last();
        assert forall|i: int| 0 <= i < init.len() implies a.contains(#[trigger] init[i]) by {
            assert(init[i] == x[i]);
        }
        lemma_uses_again(a, init);
        assert(a.contains(x[x.len() - 1]));
        let k = choose|k: int| 0 <= k < a.len() && a[k] == d;
        let none = Seq::<Need>::empty();
        assert(data_needs(a + x).drop_last() =~= data_needs(a + init));
        assert(data_needs(a + x).last() == data_needs(a)[k]);
        lemma_extend_blocks(none, data_needs(a));
        assert(selects(first_uses(a), data_needs(a)[k].layer, data_needs(a)[k].block as int));
    }
}

/// The blocks `from..=to` of a layer.
spec fn interval(layer: usize, from: int, to: int) -> Seq<(usize, u32)> {
    if to < from {
        Seq::empty()
    } else {
        Seq::new((to - from + 1) as nat, |i: int| (layer, (from + i) as u32))
    }
}

/// `blocks` as blocks of a layer.
spec fn of_layer(layer: usize, blocks: Seq<u32>) -> Seq<(usize, u32)> {
    blocks.map_values(|b: u32| (layer, b))
}

/// Two intervals that follow each other, or overlap, are used like one.
proof fn lemma_intervals(layer: usize, from: int, mid: int, next: int, to: int)
    requires
        0 <= from <= next <= mid + 1,
        mid <= to <= u32::MAX,
    ensures
        first_uses(interval(layer, from, mid) + interval(layer, next, to)) == first_uses(
            interval(layer, from, to),
        ),
{
    let a = interval(layer, from, mid);
    let x = interval(layer, next, mid);
    let r = interval(layer, mid + 1, to);
    assert(interval(layer, next, to) =~= x + r);
    assert(interval(layer, from, to) =~= a + r) by {
        if mid < from {
            assert(mid + 1 == from);
        }
    }
    assert forall|i: int| 0 <= i < x.len() implies a.contains(#[trigger] x[i]) by {
        assert(a[next - from + i] == x[i]);
    }
    lemma_uses_again(a, x);
    lemma_uses_concat(a + x, r, a, r);
    assert(a + (x + r) =~= (a + x) + r);
}

/// The blocks behind an extent as an interval.
proof fn lemma_aligned_interval(layer: usize, offset: int, len: int, size: int)
    requires
        0 <= offset,
        0 < len,
        aligned_blocks(offset, len, size) is Ok,
    ensures
        of_layer(layer, aligned_blocks(offset, len, size)->Ok_0) == interval(
            layer,
            first_block(offset),
            last_block(offset, len, size),
        ),
{
    let blocks = aligned_blocks(offset, len, size)->Ok_0;
    assert(of_layer(layer, blocks) =~= interval(
        layer,
        first_block(offset),
        last_block(offset, len, size),
    ));
}

/// An extent that is cut in two is used like the whole.
proof fn lemma_aligned_cut(layer: usize, offset: int, head: int, len: int, size: int)
    requires
        0 <= offset,
        0 < head < len,
        aligned_blocks(offset, len, size) is Ok || (aligned_blocks(offset, head, size) is Ok
            && aligned_blocks(offset + head, len - head, size) is Ok),
    ensures
        aligned_blocks(offset, len, size) is Ok,
        aligned_blocks(offset, head, size) is Ok,
        aligned_blocks(offset + head, len - head, size) is Ok,
        first_uses(
            of_layer(layer, aligned_blocks(offset, head, size)->Ok_0) + of_layer(
                layer,
                aligned_blocks(offset + head, len - head, size)->Ok_0,
            ),
        ) == first_uses(of_layer(layer, aligned_blocks(offset, len, size)->Ok_0)),
{
    let b = OBJECT_BLOCK_BYTES as int;
    let from = first_block(offset);
    let to = last_block(offset, len, size);
    let mid = last_block(offset, head, size);
    let next = first_block(offset + head);
    let end = (offset + head - 1) / b;
    assert(end <= next <= end + 1 && from <= end && next <= (offset + len - 1) / b) by {
        assert(b == 262144);
    }
    assert(mid <= to);
    assert(last_block(offset + head, len - head, size) == to);
    lemma_aligned_interval(layer, offset, len, size);
    lemma_aligned_interval(layer, offset, head, size);
    lemma_aligned_interval(layer, offset + head, len - head, size);
    if next <= mid + 1 {
        if to <= u32::MAX {
            lemma_intervals(layer, from, mid, next, to);
        } else {
            assert(interval(layer, from, mid) + interval(layer, next, to) =~= interval(
                layer,
                from,
                to,
            ));
        }
    } else {
        assert(mid == to);
        assert(interval(layer, from, mid) + interval(layer, next, to) =~= interval(
            layer,
            from,
            to,
        ));
    }
}

/// Compressed blocks of a jump table, part after part.
proof fn lemma_zfile_parts(
    extents: Seq<(u64, u64)>,
    tar_base: int,
    size: int,
    idx: int,
    mid: int,
    last: int,
)
    requires
        idx <= mid + 1 <= last + 1,
        zfile_blocks(extents, tar_base, size, idx, last) is Ok || (zfile_blocks(
            extents,
            tar_base,
            size,
            idx,
            mid,
        ) is Ok && zfile_blocks(extents, tar_base, size, mid + 1, last) is Ok),
    ensures
        zfile_blocks(extents, tar_base, size, idx, last) is Ok,
        zfile_blocks(extents, tar_base, size, idx, mid) is Ok,
        zfile_blocks(extents, tar_base, size, mid + 1, last) is Ok,
        zfile_blocks(extents, tar_base, size, idx, last)->Ok_0 == zfile_blocks(
            extents,
            tar_base,
            size,
            idx,
            mid,
        )->Ok_0 + zfile_blocks(extents, tar_base, size, mid + 1, last)->Ok_0,
    decreases mid + 1 - idx,
{
    let whole = zfile_blocks(extents, tar_base, size, idx, last)->Ok_0;
    let rest = zfile_blocks(extents, tar_base, size, mid + 1, last)->Ok_0;
    if idx > mid {
        assert(Seq::<u32>::empty() + whole =~= whole);
    } else {
        lemma_zfile_parts(extents, tar_base, size, idx + 1, mid, last);
        let head = aligned_blocks(extents[idx].0 + tar_base, extents[idx].1 as int, size)->Ok_0;
        let middle = zfile_blocks(extents, tar_base, size, idx + 1, mid)->Ok_0;
        assert(head + (middle + rest) =~= (head + middle) + rest);
    }
}

/// Compressed blocks that follow each other, or overlap, are used like one
/// run of them.
proof fn lemma_zfile_cut(
    layer: usize,
    extents: Seq<(u64, u64)>,
    tar_base: int,
    size: int,
    idx: int,
    mid: int,
    next: int,
    last: int,
)
    requires
        idx <= next <= mid + 1 <= last + 1,
        zfile_blocks(extents, tar_base, size, idx, last) is Ok || (zfile_blocks(
            extents,
            tar_base,
            size,
            idx,
            mid,
        ) is Ok && zfile_blocks(extents, tar_base, size, next, last) is Ok),
    ensures
        zfile_blocks(extents, tar_base, size, idx, last) is Ok,
        zfile_blocks(extents, tar_base, size, idx, mid) is Ok,
        zfile_blocks(extents, tar_base, size, next, last) is Ok,
        first_uses(
            of_layer(layer, zfile_blocks(extents, tar_base, size, idx, mid)->Ok_0) + of_layer(
                layer,
                zfile_blocks(extents, tar_base, size, next, last)->Ok_0,
            ),
        ) == first_uses(
            of_layer(layer, zfile_blocks(extents, tar_base, size, idx, last)->Ok_0),
        ),
{
    if zfile_blocks(extents, tar_base, size, idx, last) is Err {
        lemma_zfile_parts(extents, tar_base, size, next, mid, last);
    }
    lemma_zfile_parts(extents, tar_base, size, idx, mid, last);
    lemma_zfile_parts(extents, tar_base, size, idx, next - 1, last);
    lemma_zfile_parts(extents, tar_base, size, idx, next - 1, mid);
    lemma_zfile_parts(extents, tar_base, size, next, mid, last);
    let front = zfile_blocks(extents, tar_base, size, idx, next - 1)->Ok_0;
    let head = zfile_blocks(extents, tar_base, size, idx, mid)->Ok_0;
    let middle = zfile_blocks(extents, tar_base, size, next, mid)->Ok_0;
    let rest = zfile_blocks(extents, tar_base, size, mid + 1, last)->Ok_0;
    let a = of_layer(layer, head);
    let x = of_layer(layer, middle);
    let r = of_layer(layer, rest);
    assert(of_layer(layer, middle + rest) =~= x + r);
    assert(of_layer(layer, head + rest) =~= a + r);
    assert forall|i: int| 0 <= i < x.len() implies a.contains(#[trigger] x[i]) by {
        assert(a[front.len() + i] == x[i]);
    }
    lemma_uses_again(a, x);
    lemma_uses_concat(a + x, r, a, r);
    assert(a + (x + r) =~= (a + x) + r);
}

/// An extent of a layer that is cut in two is used like the whole.
proof fn lemma_extent_cut(
    layer: usize,
    layout: LayerLayout,
    offset: int,
    head: int,
    len: int,
    size: int,
)
    requires
        0 <= offset,
        0 <= head <= len,
        layout.blocks_of(offset, len, size) is Ok || (layout.blocks_of(offset, head, size) is Ok
            && layout.blocks_of(offset + head, len - head, size) is Ok),
    ensures
        layout.blocks_of(offset, len, size) is Ok,
        layout.blocks_of(offset, head, size) is Ok,
        layout.blocks_of(offset + head, len - head, size) is Ok,
        first_uses(
            of_layer(layer, layout.blocks_of(offset, head, size)->Ok_0) + of_layer(
                layer,
                layout.blocks_of(offset + head, len - head, size)->Ok_0,
            ),
        ) == first_uses(of_layer(layer, layout.blocks_of(offset, len, size)->Ok_0)),
{
    let whole = of_layer(layer, layout.blocks_of(offset, len, size)->Ok_0);
    if head == 0 || head == len {
        let none = of_layer(layer, Seq::empty());
        assert(none + whole =~= whole);
        assert(whole + none =~= whole);
    } else {
        match layout {
            LayerLayout::Raw { tar_base } => {
                lemma_aligned_cut(layer, offset + tar_base, head, len, size);
            },
            LayerLayout::ZFile { block_size, extents, tar_base } => {
                let b = block_size as int;
                let idx = offset / b;
                let mid = (offset + head - 1) / b;
                let next = (offset + head) / b;
                let last = (offset + len - 1) / b;
                assert(idx <= next <= mid + 1 && mid <= last) by (nonlinear_arith)
                    requires
                        b > 0,
                        0 <= offset,
                        0 < head < len,
                        idx == offset / b,
                        mid == (offset + head - 1) / b,
                        next == (offset + head) / b,
                        last == (offset + len - 1) / b,
                ;
                lemma_zfile_cut(layer, extents@, tar_base as int, size, idx, mid, next, last);
            },
        }
    }
}

/// The error of a result.
pub open spec fn error_of<T>(res: Result<T, PlanError>) -> Option<PlanError> {
    match res {
        Ok(_) => None,
        Err(e) => Some(e),
    }
}

/// The error of the first of two results that has one.
pub open spec fn first_error<T>(
    a: Result<T, PlanError>,
    b: Result<T, PlanError>,
) -> Option<PlanError> {
    if a is Err {
        error_of(a)
    } else {
        error_of(b)
    }
}

/// Parts of a jump table fail like the whole.
proof fn lemma_zfile_errors(
    extents: Seq<(u64, u64)>,
    tar_base: int,
    size: int,
    idx: int,
    mid: int,
    last: int,
)
    requires
        idx <= mid + 1 <= last + 1,
    ensures
        error_of(zfile_blocks(extents, tar_base, size, idx, last)) == first_error(
            zfile_blocks(extents, tar_base, size, idx, mid),
            zfile_blocks(extents, tar_base, size, mid + 1, last),
        ),
    decreases mid + 1 - idx,
{
    if idx <= mid {
        lemma_zfile_errors(extents, tar_base, size, idx + 1, mid, last);
    }
}

/// An extent of a layer that is cut in two fails like the whole.
proof fn lemma_extent_errors(layout: LayerLayout, offset: int, head: int, len: int, size: int)
    requires
        0 <= offset,
        0 <= head <= len,
    ensures
        error_of(layout.blocks_of(offset, len, size)) == first_error(
            layout.blocks_of(offset, head, size),
            layout.blocks_of(offset + head, len - head, size),
        ),
{
    if 0 < head < len {
        match layout {
            LayerLayout::Raw { tar_base } => {
                let at = offset + tar_base;
                if aligned_blocks(at, len, size) is Ok || (aligned_blocks(at, head, size) is Ok
                    && aligned_blocks(at + head, len - head, size) is Ok) {
                    lemma_aligned_cut(0, at, head, len, size);
                }
            },
            LayerLayout::ZFile { block_size, extents, tar_base } => {
                let b = block_size as int;
                let idx = offset / b;
                let mid = (offset + head - 1) / b;
                let next = (offset + head) / b;
                let last = (offset + len - 1) / b;
                if b > 0 {
                    assert(idx <= next <= mid + 1 && mid <= last) by (nonlinear_arith)
                        requires
                            b > 0,
                            0 <= offset,
                            0 < head < len,
                            idx == offset / b,
                            mid == (offset + head - 1) / b,
                            next == (offset + head) / b,
                            last == (offset + len - 1) / b,
                    ;
                    lemma_zfile_errors(extents@, tar_base as int, size, idx, mid, last);
                    lemma_zfile_errors(extents@, tar_base as int, size, idx, next - 1, mid);
                    lemma_zfile_errors(extents@, tar_base as int, size, next, mid, last);
                }
            },
        }
    }
}

/// Whether `pieces` are the answers `whole`, each of them whole or cut into
/// pieces that follow each other.
pub open spec fn cut_of(whole: Seq<SegmentMapping>, pieces: Seq<SegmentMapping>) -> bool
    decreases pieces.len(),
{
    if pieces.len() == 0 || whole.len() == 0 {
        pieces.len() == 0 && whole.len() == 0
    } else {
        let m = whole.last();
        let x = pieces.last();
        &&& x.tag == m.tag
        &&& x.physical == m.physical
        &&& x.length <= m.length
        &&& x.physical ==> x.offset == m.offset + m.length - x.length && x.moffset == m.moffset
            + m.length - x.length
        &&& if x.length == m.length {
            cut_of(whole.drop_last(), pieces.drop_last())
        } else {
            let rest = SegmentMapping { length: (m.length - x.length) as u32, ..m };
            cut_of(whole.drop_last().push(rest), pieces.drop_last())
        }
    }
}

impl Stack {
    proof fn lemma_mapping_cut(self, m: SegmentMapping, rest: SegmentMapping, x: SegmentMapping)
        requires
            x.physical && m.physical,
            x.tag == m.tag,
            x.length <= m.length,
            x.moffset == m.moffset + m.length - x.length,
            rest == (SegmentMapping { length: (m.length - x.length) as u32, ..m }),
            self.mapping_blocks(m) is Ok || (self.mapping_blocks(rest) is Ok
                && self.mapping_blocks(x) is Ok),
        ensures
            self.mapping_blocks(m) is Ok,
            self.mapping_blocks(rest) is Ok,
            self.mapping_blocks(x) is Ok,
            first_uses(
                of_layer(self.layer_of(m) as usize, self.mapping_blocks(rest)->Ok_0) + of_layer(
                    self.layer_of(m) as usize,
                    self.mapping_blocks(x)->Ok_0,
                ),
            ) == first_uses(
                of_layer(self.layer_of(m) as usize, self.mapping_blocks(m)->Ok_0),
            ),
    {
        let layer = self.layer_of(m);
        assert(m.moffset * SECTOR_BYTES + rest.length * SECTOR_BYTES == x.moffset * SECTOR_BYTES);
        assert(m.length * SECTOR_BYTES - rest.length * SECTOR_BYTES == x.length * SECTOR_BYTES);
        lemma_extent_cut(
            layer as usize,
            self.opened[layer].layout,
            m.moffset * SECTOR_BYTES,
            rest.length * SECTOR_BYTES,
            m.length * SECTOR_BYTES,
            self.layers[layer].size as int,
        );
    }

    /// What one more answer adds.
    proof fn lemma_resolve_push(self, before: Seq<SegmentMapping>, m: SegmentMapping)
        requires
            self.resolve(before) is Ok,
        ensures
            !m.physical ==> self.resolve(before.push(m)) == self.resolve(before),
            m.physical && self.mapping_blocks(m) is Ok ==> self.resolve(before.push(m)) == Ok::<
                Seq<(usize, u32)>,
                PlanError,
            >(
                self.resolve(before)->Ok_0 + of_layer(
                    self.layer_of(m) as usize,
                    self.mapping_blocks(m)->Ok_0,
                ),
            ),
            m.physical ==> (self.resolve(before.push(m)) is Ok <==> self.mapping_blocks(m) is Ok),
    {
        assert(before.push(m).drop_last() =~= before);
        if m.physical && self.mapping_blocks(m) is Ok {
            assert(self.mapping_blocks(m)->Ok_0.map_values(
                |b: u32| (self.layer_of(m) as usize, b),
            ) =~= of_layer(self.layer_of(m) as usize, self.mapping_blocks(m)->Ok_0));
        }
    }

    /// Answers that are cut into pieces lead to the same blocks, in the same
    /// order of first use.
    pub proof fn law_cut_answers_have_the_same_uses(
        self,
        whole: Seq<SegmentMapping>,
        pieces: Seq<SegmentMapping>,
    )
        requires
            cut_of(whole, pieces),
            self.resolve(whole) is Ok || self.resolve(pieces) is Ok,
        ensures
            self.resolve(whole) is Ok,
            self.resolve(pieces) is Ok,
            first_uses(self.resolve(pieces)->Ok_0) == first_uses(self.resolve(whole)->Ok_0),
            backed(pieces) == backed(whole),
        decreases pieces.len(),
    {
        if pieces.len() > 0 {
            let m = whole.last();
            let x = pieces.last();
            let front = whole.drop_last();
            let init = pieces.drop_last();
            let rest = SegmentMapping { length: (m.length - x.length) as u32, ..m };
            assert(whole =~= front.push(m));
            assert(pieces =~= init.push(x));
            lemma_backed_push(front, m);
            lemma_backed_push(front, rest);
            lemma_backed_push(init, x);
            let layer = self.layer_of(m) as usize;
            if x.length == m.length {
                if m.physical {
                    assert(self.mapping_blocks(x) == self.mapping_blocks(m));
                }
                self.law_cut_answers_have_the_same_uses(front, init);
                self.lemma_resolve_push(front, m);
                self.lemma_resolve_push(init, x);
                if m.physical {
                    let blocks = of_layer(layer, self.mapping_blocks(m)->Ok_0);
                    lemma_uses_concat(
                        self.resolve(init)->Ok_0,
                        blocks,
                        self.resolve(front)->Ok_0,
                        blocks,
                    );
                }
            } else {
                if self.resolve(whole) is Ok {
                    self.lemma_resolve_push(front, m);
                    self.lemma_resolve_push(front, rest);
                    if m.physical {
                        self.lemma_mapping_cut(m, rest, x);
                    }
                }
                self.law_cut_answers_have_the_same_uses(front.push(rest), init);
                assert(front.push(rest).drop_last() =~= front);
                self.lemma_resolve_push(front, rest);
                self.lemma_resolve_push(front, m);
                self.lemma_resolve_push(init, x);
                if m.physical {
                    self.lemma_mapping_cut(m, rest, x);
                    let a = self.resolve(front)->Ok_0;
                    let b = of_layer(layer, self.mapping_blocks(rest)->Ok_0);
                    let c = of_layer(layer, self.mapping_blocks(x)->Ok_0);
                    lemma_uses_concat(self.resolve(init)->Ok_0, c, a + b, c);
                    assert((a + b) + c =~= a + (b + c));
                    lemma_uses_concat(
                        a,
                        b + c,
                        a,
                        of_layer(layer, self.mapping_blocks(m)->Ok_0),
                    );
                }
            }
        }
    }
}

impl Stack {
    proof fn lemma_mapping_errors(
        self,
        m: SegmentMapping,
        rest: SegmentMapping,
        x: SegmentMapping,
    )
        requires
            x.physical && m.physical,
            x.tag == m.tag,
            x.length <= m.length,
            x.moffset == m.moffset + m.length - x.length,
            rest == (SegmentMapping { length: (m.length - x.length) as u32, ..m }),
        ensures
            error_of(self.mapping_blocks(m)) == first_error(
                self.mapping_blocks(rest),
                self.mapping_blocks(x),
            ),
    {
        let layer = self.layer_of(m);
        assert(m.moffset * SECTOR_BYTES + rest.length * SECTOR_BYTES == x.moffset * SECTOR_BYTES);
        assert(m.length * SECTOR_BYTES - rest.length * SECTOR_BYTES == x.length * SECTOR_BYTES);
        lemma_extent_errors(
            self.opened[layer].layout,
            m.moffset * SECTOR_BYTES,
            rest.length * SECTOR_BYTES,
            m.length * SECTOR_BYTES,
            self.layers[layer].size as int,
        );
    }

    proof fn lemma_resolve_errors(self, before: Seq<SegmentMapping>, m: SegmentMapping)
        ensures
            error_of(self.resolve(before.push(m))) == if self.resolve(before) is Err {
                error_of(self.resolve(before))
            } else if m.physical {
                error_of(self.mapping_blocks(m))
            } else {
                None
            },
    {
        assert(before.push(m).drop_last() =~= before);
    }

    /// Answers that are cut into pieces fail alike.
    pub proof fn law_cut_answers_fail_alike(
        self,
        whole: Seq<SegmentMapping>,
        pieces: Seq<SegmentMapping>,
    )
        requires
            cut_of(whole, pieces),
        ensures
            error_of(self.resolve(whole)) == error_of(self.resolve(pieces)),
        decreases pieces.len(),
    {
        if pieces.len() > 0 {
            let m = whole.last();
            let x = pieces.last();
            let front = whole.drop_last();
            let init = pieces.drop_last();
            let rest = SegmentMapping { length: (m.length - x.length) as u32, ..m };
            assert(whole =~= front.push(m));
            assert(pieces =~= init.push(x));
            self.lemma_resolve_errors(front, m);
            self.lemma_resolve_errors(init, x);
            if x.length == m.length {
                if m.physical {
                    assert(self.mapping_blocks(x) == self.mapping_blocks(m));
                }
                self.law_cut_answers_fail_alike(front, init);
            } else {
                self.law_cut_answers_fail_alike(front.push(rest), init);
                self.lemma_resolve_errors(front, rest);
                if m.physical {
                    self.lemma_mapping_errors(m, rest, x);
                }
            }
        }
    }
}

/// Whether one of the answers maps the sector to a physical range.
pub open spec fn covered(mappings: Seq<SegmentMapping>, sector: int) -> bool {
    exists|i: int| 0 <= i < mappings.len() && #[trigger] holds(mappings[i], sector)
}

/// Whether an answer maps the sector to a physical range.
pub open spec fn holds(m: SegmentMapping, sector: int) -> bool {
    m.physical && m.offset <= sector < m.offset + m.length
}

proof fn lemma_covered_push(before: Seq<SegmentMapping>, m: SegmentMapping, sector: int)
    ensures
        covered(before.push(m), sector) == (covered(before, sector) || holds(m, sector)),
{
    let more = before.push(m);
    assert(more[before.len() as int] == m);
    if covered(before, sector) {
        let i = choose|i: int| 0 <= i < before.len() && #[trigger] holds(before[i], sector);
        assert(holds(more[i], sector));
    }
    if covered(more, sector) && !holds(m, sector) {
        let i = choose|i: int| 0 <= i < more.len() && #[trigger] holds(more[i], sector);
        assert(holds(before[i], sector));
    }
}

/// Answers that are cut into pieces map the same sectors.
pub proof fn law_cut_answers_map_the_same_sectors(
    whole: Seq<SegmentMapping>,
    pieces: Seq<SegmentMapping>,
    sector: int,
)
    requires
        cut_of(whole, pieces),
    ensures
        covered(whole, sector) == covered(pieces, sector),
    decreases pieces.len(),
{
    if pieces.len() > 0 {
        let m = whole.last();
        let x = pieces.last();
        let front = whole.drop_last();
        let init = pieces.drop_last();
        let rest = SegmentMapping { length: (m.length - x.length) as u32, ..m };
        assert(whole =~= front.push(m));
        assert(pieces =~= init.push(x));
        lemma_covered_push(front, m, sector);
        lemma_covered_push(front, rest, sector);
        lemma_covered_push(init, x, sector);
        if x.length == m.length {
            law_cut_answers_map_the_same_sectors(front, init, sector);
        } else {
            law_cut_answers_map_the_same_sectors(front.push(rest), init, sector);
        }
    }
}

/// A page is backed where one of its sectors is mapped to a physical range.
pub proof fn lemma_page_sectors(mappings: Seq<SegmentMapping>, page: int)
    ensures
        page_backed(mappings, page) <==> exists|sector: int|
            8 * page <= sector < 8 * page + 8 && #[trigger] covered(mappings, sector),
{
    if page_backed(mappings, page) {
        let i = choose|i: int| 0 <= i < mappings.len() && #[trigger] backs(mappings[i], page);
        let m = mappings[i];
        assert((page + 1) * PAGE_SECTORS == 8 * page + 8 && page * PAGE_SECTORS == 8 * page);
        let sector = if m.offset >= 8 * page {
            m.offset as int
        } else {
            8 * page
        };
        assert(holds(mappings[i], sector));
        assert(covered(mappings, sector));
    }
    if exists|sector: int|
        8 * page <= sector < 8 * page + 8 && #[trigger] covered(mappings, sector) {
        let sector = choose|sector: int|
            8 * page <= sector < 8 * page + 8 && #[trigger] covered(mappings, sector);
        let i = choose|i: int| 0 <= i < mappings.len() && #[trigger] holds(mappings[i], sector);
        assert((page + 1) * PAGE_SECTORS == 8 * page + 8 && page * PAGE_SECTORS == 8 * page);
        assert(backs(mappings[i], page));
    }
}

/// Answers that are cut into pieces back the same pages.
pub proof fn law_cut_answers_back_the_same_pages(
    whole: Seq<SegmentMapping>,
    pieces: Seq<SegmentMapping>,
    page: int,
)
    requires
        cut_of(whole, pieces),
    ensures
        page_backed(whole, page) == page_backed(pieces, page),
{
    lemma_page_sectors(whole, page);
    lemma_page_sectors(pieces, page);
    assert forall|sector: int| #[trigger] covered(whole, sector) == covered(pieces, sector) by {
        law_cut_answers_map_the_same_sectors(whole, pieces, sector);
    }
    if page_backed(whole, page) {
        let sector = choose|sector: int|
            8 * page <= sector < 8 * page + 8 && #[trigger] covered(whole, sector);
        assert(covered(pieces, sector));
    }
    if page_backed(pieces, page) {
        let sector = choose|sector: int|
            8 * page <= sector < 8 * page + 8 && #[trigger] covered(pieces, sector);
        assert(covered(whole, sector));
    }
}

proof fn lemma_backed_push(before: Seq<SegmentMapping>, m: SegmentMapping)
    ensures
        backed(before.push(m)) == (backed(before) || m.physical),
{
    let more = before.push(m);
    assert(more[before.len() as int] == m);
    if backed(before) {
        let i = choose|i: int| 0 <= i < before.len() && (#[trigger] before[i]).physical;
        assert(more[i] == before[i]);
    }
}

} // verus!
