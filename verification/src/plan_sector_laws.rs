//! Answers of the index, sector by sector: how they are cut into ranges does
//! not matter.
use vstd::prelude::*;
use crate::plan_cut_laws::{
    cut_of, error_of, first_uses, law_cut_answers_back_the_same_pages, lemma_first_uses,
};
use crate::plan_lemmas::{lemma_extend_concat, lemma_extend_objects, lemma_extend_objects_push};
use crate::plan_model::{
    Need, Progress, SegmentMapping, Stack, Weight, backed, backs, data_needs, extend_blocks,
    extend_objects, flat, layer_order, page_backed, selects,
};

verus! {

/// A sector of the image with the layer tag and the layer sector behind it.
pub struct MappedSector {
    pub sector: int,
    pub tag: u32,
    pub moffset: int,
}

/// The sectors that an answer maps to a physical range.
pub open spec fn sectors_of(m: SegmentMapping) -> Seq<MappedSector> {
    if m.physical {
        Seq::new(
            m.length as nat,
            |i: int| MappedSector { sector: m.offset + i, tag: m.tag, moffset: m.moffset + i },
        )
    } else {
        Seq::empty()
    }
}

/// The sectors that some answers map to physical ranges, in order.
pub open spec fn sectors(answers: Seq<SegmentMapping>) -> Seq<MappedSector>
    decreases answers.len(),
{
    if answers.len() == 0 {
        Seq::empty()
    } else {
        sectors(answers.drop_last()) + sectors_of(answers.last())
    }
}

/// Whether the physical ranges of the answers are not empty, and have sector
/// numbers of 64 bits.
pub open spec fn proper(answers: Seq<SegmentMapping>) -> bool {
    forall|i: int|
        #![trigger answers[i]]
        0 <= i < answers.len() && answers[i].physical ==> {
            &&& answers[i].length > 0
            &&& answers[i].offset + answers[i].length - 1 <= u64::MAX
            &&& answers[i].moffset + answers[i].length - 1 <= u64::MAX
        }
}

/// Whether some answers map the same sectors in the same order, however they
/// are cut.
pub open spec fn same_sectors(a: Seq<SegmentMapping>, b: Seq<SegmentMapping>) -> bool {
    proper(a) && proper(b) && sectors(a) == sectors(b)
}

/// Sectors as answers of one sector each.
spec fn singles(list: Seq<MappedSector>) -> Seq<SegmentMapping> {
    list.map_values(
        |s: MappedSector|
            SegmentMapping {
                offset: s.sector as u64,
                moffset: s.moffset as u64,
                length: 1,
                tag: s.tag,
                physical: true,
            },
    )
}

/// The answers that have a physical range.
spec fn physical_only(answers: Seq<SegmentMapping>) -> Seq<SegmentMapping>
    decreases answers.len(),
{
    if answers.len() == 0 {
        Seq::empty()
    } else if answers.last().physical {
        physical_only(answers.drop_last()).push(answers.last())
    } else {
        physical_only(answers.drop_last())
    }
}

proof fn lemma_physical_only(answers: Seq<SegmentMapping>)
    requires
        proper(answers),
    ensures
        proper(physical_only(answers)),
        sectors(physical_only(answers)) == sectors(answers),
        forall|i: int|
            0 <= i < physical_only(answers).len() ==> (#[trigger] physical_only(
                answers,
            )[i]).physical,
        forall|m: SegmentMapping|
            m.physical ==> (#[trigger] physical_only(answers).contains(m) <==> answers.contains(m)),
    decreases answers.len(),
{
    if answers.len() > 0 {
        let init = answers.drop_last();
        let last = answers.last();
        let kept = physical_only(init);
        let all = physical_only(answers);
        lemma_proper_init(answers);
        lemma_physical_only(init);
        if last.physical {
            assert(all.drop_last() =~= kept);
            assert(answers[answers.len() - 1] == last);
            assert forall|i: int| #![trigger all[i]] 0 <= i < all.len() && all[i].physical implies {
                &&& all[i].length > 0
                &&& all[i].offset + all[i].length - 1 <= u64::MAX
                &&& all[i].moffset + all[i].length - 1 <= u64::MAX
            } by {
                if i < kept.len() {
                    assert(all[i] == kept[i]);
                }
            }
        } else {
            assert(sectors(answers) =~= sectors(init));
        }
        assert forall|m: SegmentMapping| m.physical implies (#[trigger] all.contains(m)
            <==> answers.contains(m)) by {
            if all.contains(m) {
                let i = choose|i: int| 0 <= i < all.len() && all[i] == m;
                if i < kept.len() {
                    assert(kept[i] == m);
                    assert(kept.contains(m));
                    let j = choose|j: int| 0 <= j < init.len() && init[j] == m;
                    assert(answers[j] == m);
                } else {
                    assert(answers[answers.len() - 1] == m);
                }
            }
            if answers.contains(m) {
                let j = choose|j: int| 0 <= j < answers.len() && answers[j] == m;
                if j < init.len() {
                    assert(init[j] == m);
                    assert(init.contains(m));
                    assert(kept.contains(m));
                    let i = choose|i: int| 0 <= i < kept.len() && kept[i] == m;
                    assert(all[i] == m);
                } else {
                    assert(all[kept.len() as int] == m);
                }
            }
        }
    }
}

proof fn lemma_proper_init(answers: Seq<SegmentMapping>)
    requires
        proper(answers),
        answers.len() > 0,
    ensures
        proper(answers.drop_last()),
{
    let init = answers.drop_last();
    assert forall|i: int| #![trigger init[i]] 0 <= i < init.len() && init[i].physical implies {
        &&& init[i].length > 0
        &&& init[i].offset + init[i].length - 1 <= u64::MAX
        &&& init[i].moffset + init[i].length - 1 <= u64::MAX
    } by {
        assert(init[i] == answers[i]);
    }
}

/// Answers with physical ranges only can be cut into their sectors.
proof fn lemma_cut_into_sectors(whole: Seq<SegmentMapping>)
    requires
        proper(whole),
        forall|i: int| 0 <= i < whole.len() ==> (#[trigger] whole[i]).physical,
    ensures
        cut_of(whole, singles(sectors(whole))),
    decreases sectors(whole).len(),
{
    let list = sectors(whole);
    let pieces = singles(list);
    if whole.len() > 0 {
        let m = whole.last();
        let front = whole.drop_last();
        let n = whole.len() - 1;
        assert(whole[n] == m);
        let own = sectors_of(m);
        assert(own.len() == m.length);
        assert(list.last() == own.last());
        assert(own.last() == own[m.length - 1]);
        let x = pieces.last();
        assert(x == singles(list)[list.len() - 1]);
        assert(pieces.drop_last() =~= singles(list.drop_last()));
        if m.length == 1 {
            assert(list.drop_last() =~= sectors(front));
            lemma_proper_init(whole);
            assert forall|i: int| 0 <= i < front.len() implies (#[trigger] front[i]).physical by {
                assert(front[i] == whole[i]);
            }
            lemma_cut_into_sectors(front);
        } else {
            let rest = SegmentMapping { length: (m.length - 1) as u32, ..m };
            let shorter = front.push(rest);
            assert(shorter.drop_last() =~= front);
            assert(sectors_of(rest) =~= own.drop_last());
            assert(list.drop_last() =~= sectors(shorter));
            assert forall|i: int| #![trigger shorter[i]] 0 <= i < shorter.len() implies {
                &&& shorter[i].physical
                &&& shorter[i].length > 0
                &&& shorter[i].offset + shorter[i].length - 1 <= u64::MAX
                &&& shorter[i].moffset + shorter[i].length - 1 <= u64::MAX
            } by {
                if i < n {
                    assert(shorter[i] == whole[i]);
                }
            }
            lemma_cut_into_sectors(shorter);
        }
    }
}

impl Stack {
    proof fn lemma_physical_resolves(self, answers: Seq<SegmentMapping>)
        ensures
            self.resolve(physical_only(answers)) == self.resolve(answers),
        decreases answers.len(),
    {
        if answers.len() > 0 {
            let kept = physical_only(answers.drop_last());
            self.lemma_physical_resolves(answers.drop_last());
            if answers.last().physical {
                assert(kept.push(answers.last()).drop_last() =~= kept);
            }
        }
    }

    /// Answers that map the same sectors lead to the same blocks, in the same
    /// order of first use, however they are cut.
    pub proof fn law_same_sectors_have_the_same_uses(
        self,
        a: Seq<SegmentMapping>,
        b: Seq<SegmentMapping>,
    )
        requires
            same_sectors(a, b),
            self.resolve(a) is Ok || self.resolve(b) is Ok,
        ensures
            self.resolve(a) is Ok,
            self.resolve(b) is Ok,
            first_uses(self.resolve(b)->Ok_0) == first_uses(self.resolve(a)->Ok_0),
            backed(b) == backed(a),
    {
        let (p, q) = (physical_only(a), physical_only(b));
        let s = singles(sectors(a));
        lemma_physical_only(a);
        lemma_physical_only(b);
        lemma_cut_into_sectors(p);
        lemma_cut_into_sectors(q);
        self.lemma_physical_resolves(a);
        self.lemma_physical_resolves(b);
        if self.resolve(a) is Ok {
            self.law_cut_answers_have_the_same_uses(p, s);
            self.law_cut_answers_have_the_same_uses(q, s);
        } else {
            self.law_cut_answers_have_the_same_uses(q, s);
            self.law_cut_answers_have_the_same_uses(p, s);
        }
        lemma_backed_physical(a);
        lemma_backed_physical(b);
    }
}

impl Stack {
    /// Answers that map the same sectors fail alike.
    pub proof fn law_same_sectors_fail_alike(
        self,
        a: Seq<SegmentMapping>,
        b: Seq<SegmentMapping>,
    )
        requires
            same_sectors(a, b),
        ensures
            error_of(self.resolve(a)) == error_of(self.resolve(b)),
    {
        let (p, q) = (physical_only(a), physical_only(b));
        let s = singles(sectors(a));
        lemma_physical_only(a);
        lemma_physical_only(b);
        lemma_cut_into_sectors(p);
        lemma_cut_into_sectors(q);
        self.lemma_physical_resolves(a);
        self.lemma_physical_resolves(b);
        self.law_cut_answers_fail_alike(p, s);
        self.law_cut_answers_fail_alike(q, s);
    }
}

/// Layers come in with the first uses.
proof fn lemma_first_layers(have: Seq<usize>, more: Seq<Need>)
    ensures
        extend_objects(have, more) == extend_objects(have, extend_blocks(Seq::empty(), more)),
    decreases more.len(),
{
    if more.len() > 0 {
        let init = more.drop_last();
        let x = more.last();
        let none = Seq::<Need>::empty();
        let uses = extend_blocks(none, init);
        lemma_first_layers(have, init);
        if selects(uses, x.layer, x.block as int) {
            let k = choose|k: int|
                0 <= k < uses.len() && (#[trigger] uses[k]).layer == x.layer && uses[k].block
                    == x.block as int;
            lemma_extend_objects(have, uses);
            assert(extend_objects(have, uses).contains(uses[k].layer));
        } else {
            lemma_extend_objects_push(have, uses, x);
        }
    }
}

/// The layers of dependencies, as they come in.
proof fn lemma_layer_order_uses(deps: Seq<(usize, u32)>)
    ensures
        layer_order(deps) == extend_objects(Seq::empty(), data_needs(deps)),
    decreases deps.len(),
{
    if deps.len() > 0 {
        lemma_layer_order_uses(deps.drop_last());
        assert(data_needs(deps).drop_last() =~= data_needs(deps.drop_last()));
    }
}

impl Stack {
    /// Dependencies with the same first uses are taken alike.
    proof fn lemma_same_uses_staged(
        self,
        p: Progress,
        a: Seq<(usize, u32)>,
        b: Seq<(usize, u32)>,
        weight: Weight,
        budget: int,
    )
        requires
            first_uses(a) == first_uses(b),
        ensures
            self.stage(p, a, weight, budget) == self.stage(p, b, weight, budget),
    {
        let none = Seq::<usize>::empty();
        lemma_layer_order_uses(a);
        lemma_layer_order_uses(b);
        lemma_first_layers(none, data_needs(a));
        lemma_first_layers(none, data_needs(b));
        assert(layer_order(a) == layer_order(b));
        if self.metadata_needs(layer_order(a), p.objects) is Ok {
            let meta = self.metadata_needs(layer_order(a), p.objects)->Ok_0;
            let blocks = extend_blocks(p.blocks, meta);
            let objects = extend_objects(p.objects, meta);
            lemma_extend_concat(p.blocks, p.objects, meta, data_needs(a));
            lemma_extend_concat(p.blocks, p.objects, meta, data_needs(b));
            lemma_first_uses(blocks, data_needs(a));
            lemma_first_uses(blocks, data_needs(b));
            lemma_first_layers(objects, data_needs(a));
            lemma_first_layers(objects, data_needs(b));
        }
    }

    /// Answers that map the same sectors are taken alike.
    pub proof fn law_same_sectors_are_taken_alike(
        self,
        p: Progress,
        a: Seq<SegmentMapping>,
        b: Seq<SegmentMapping>,
        weight: Weight,
        budget: int,
    )
        requires
            same_sectors(a, b),
        ensures
            self.take_unit(p, a, weight, budget) == self.take_unit(p, b, weight, budget),
    {
        self.law_same_sectors_fail_alike(a, b);
        if self.resolve(a) is Ok {
            self.law_same_sectors_have_the_same_uses(a, b);
            self.lemma_same_uses_staged(
                p,
                self.resolve(a)->Ok_0,
                self.resolve(b)->Ok_0,
                weight,
                budget,
            );
        }
    }
}

proof fn lemma_backed_physical(answers: Seq<SegmentMapping>)
    requires
        proper(answers),
    ensures
        backed(physical_only(answers)) == backed(answers),
        forall|page: int| #[trigger]
            page_backed(physical_only(answers), page) == page_backed(answers, page),
{
    lemma_physical_only(answers);
    let kept = physical_only(answers);
    if backed(answers) {
        let i = choose|i: int| 0 <= i < answers.len() && (#[trigger] answers[i]).physical;
        assert(answers.contains(answers[i]));
        assert(kept.contains(answers[i]));
        let j = choose|j: int| 0 <= j < kept.len() && kept[j] == answers[i];
        assert(kept[j].physical);
    }
    if backed(kept) {
        let j = choose|j: int| 0 <= j < kept.len() && (#[trigger] kept[j]).physical;
        assert(kept.contains(kept[j]));
        assert(answers.contains(kept[j]));
        let i = choose|i: int| 0 <= i < answers.len() && answers[i] == kept[j];
        assert(answers[i].physical);
    }
    assert forall|page: int| #[trigger] page_backed(kept, page) == page_backed(answers, page) by {
        if page_backed(kept, page) {
            let j = choose|j: int| 0 <= j < kept.len() && #[trigger] backs(kept[j], page);
            assert(kept.contains(kept[j]));
            assert(answers.contains(kept[j]));
            let i = choose|i: int| 0 <= i < answers.len() && answers[i] == kept[j];
            assert(backs(answers[i], page));
        }
        if page_backed(answers, page) {
            let i = choose|i: int| 0 <= i < answers.len() && #[trigger] backs(answers[i], page);
            assert(answers.contains(answers[i]));
            assert(kept.contains(answers[i]));
            let j = choose|j: int| 0 <= j < kept.len() && kept[j] == answers[i];
            assert(backs(kept[j], page));
        }
    }
}

/// Answers that map the same sectors back the same pages.
pub proof fn law_same_sectors_back_the_same_pages(
    a: Seq<SegmentMapping>,
    b: Seq<SegmentMapping>,
    page: int,
)
    requires
        same_sectors(a, b),
    ensures
        page_backed(a, page) == page_backed(b, page),
{
    let (p, q) = (physical_only(a), physical_only(b));
    let s = singles(sectors(a));
    lemma_physical_only(a);
    lemma_physical_only(b);
    lemma_cut_into_sectors(p);
    lemma_cut_into_sectors(q);
    law_cut_answers_back_the_same_pages(p, s, page);
    law_cut_answers_back_the_same_pages(q, s, page);
    lemma_backed_physical(a);
    lemma_backed_physical(b);
}

/// Where the sectors of a memory image lie: the tag of the layer and the
/// sector of the layer file, or nowhere.
pub type ImageMap = spec_fn(int) -> Option<(u32, u64)>;

/// The sectors `from..to` of an image that lie somewhere, in order.
pub open spec fn mapped(image: ImageMap, from: int, to: int) -> Seq<MappedSector>
    decreases to - from,
{
    if to <= from {
        Seq::empty()
    } else {
        let before = mapped(image, from, to - 1);
        match image(to - 1) {
            Some((tag, moffset)) => before.push(
                MappedSector { sector: to - 1, tag, moffset: moffset as int },
            ),
            None => before,
        }
    }
}

/// Whether an answer has this sector.
pub open spec fn has_sector(m: SegmentMapping, sector: int) -> bool {
    m.physical && m.offset <= sector < m.offset + m.length
}

/// Whether a sector of an answer lies where the answer has it.
pub open spec fn lies_at(image: ImageMap, m: SegmentMapping, sector: int) -> bool {
    image(sector) matches Some((tag, moffset)) && tag == m.tag && moffset == m.moffset + (sector
        - m.offset)
}

/// Whether the answers tell where the sectors `from..to` of an image lie: their
/// physical ranges are sectors of these in ascending order, lie where the image
/// has them, and leave out no sector that lies somewhere.
pub open spec fn describes(
    image: ImageMap,
    from: int,
    to: int,
    answers: Seq<SegmentMapping>,
) -> bool {
    &&& forall|i: int|
        #![trigger answers[i]]
        0 <= i < answers.len() && answers[i].physical ==> {
            &&& answers[i].length > 0
            &&& from <= answers[i].offset
            &&& answers[i].offset + answers[i].length <= to
        }
    &&& forall|i: int, j: int|
        #![trigger answers[i], answers[j]]
        0 <= i < j < answers.len() && answers[i].physical && answers[j].physical
            ==> answers[i].offset + answers[i].length <= answers[j].offset
    &&& forall|i: int, sector: int|
        0 <= i < answers.len() && #[trigger] has_sector(answers[i], sector) ==> lies_at(
            image,
            answers[i],
            sector,
        )
    &&& forall|sector: int|
        from <= sector < to && #[trigger] image(sector) is Some ==> exists|i: int|
            0 <= i < answers.len() && #[trigger] has_sector(answers[i], sector)
}

/// Answers that tell where sectors lie have sector numbers of 64 bits.
pub proof fn lemma_described_proper(
    image: ImageMap,
    from: int,
    to: int,
    answers: Seq<SegmentMapping>,
)
    requires
        to <= u64::MAX,
        describes(image, from, to, answers),
    ensures
        proper(answers),
{
    assert forall|i: int|
        #![trigger answers[i]]
        0 <= i < answers.len() && answers[i].physical implies {
        &&& answers[i].length > 0
        &&& answers[i].offset + answers[i].length - 1 <= u64::MAX
        &&& answers[i].moffset + answers[i].length - 1 <= u64::MAX
    } by {
        assert(has_sector(answers[i], answers[i].offset + answers[i].length - 1));
    }
}

/// Sectors that lie nowhere add nothing.
proof fn lemma_mapped_nothing(image: ImageMap, from: int, mid: int, to: int)
    requires
        from <= mid <= to,
        forall|sector: int| mid <= sector < to ==> #[trigger] image(sector) is None,
    ensures
        mapped(image, from, to) == mapped(image, from, mid),
    decreases to - mid,
{
    if mid < to {
        assert(image(to - 1) is None);
        lemma_mapped_nothing(image, from, mid, to - 1);
    }
}

/// The sectors of one answer.
proof fn lemma_mapped_answer(image: ImageMap, from: int, m: SegmentMapping, n: int)
    requires
        m.physical,
        from <= m.offset,
        0 <= n <= m.length,
        forall|sector: int| #[trigger]
            has_sector(m, sector) ==> lies_at(image, m, sector),
    ensures
        mapped(image, from, m.offset + n) == mapped(image, from, m.offset as int) + sectors_of(
            m,
        ).take(n),
    decreases n,
{
    let own = sectors_of(m);
    if n == 0 {
        assert(own.take(0) =~= Seq::empty());
        assert(mapped(image, from, m.offset as int) + Seq::empty() =~= mapped(
            image,
            from,
            m.offset as int,
        ));
    } else {
        lemma_mapped_answer(image, from, m, n - 1);
        assert(has_sector(m, m.offset + n - 1));
        assert(own.take(n) =~= own.take(n - 1).push(own[n - 1]));
    }
}

/// Answers that tell where sectors lie have just these sectors.
pub proof fn lemma_described(
    image: ImageMap,
    from: int,
    to: int,
    answers: Seq<SegmentMapping>,
)
    requires
        from <= to,
        describes(image, from, to, answers),
    ensures
        sectors(answers) == mapped(image, from, to),
    decreases answers.len(),
{
    if answers.len() == 0 {
        assert forall|sector: int| from <= sector < to implies #[trigger] image(sector) is None by {
            if image(sector) is Some {
                let i = choose|i: int|
                    0 <= i < answers.len() && #[trigger] has_sector(answers[i], sector);
            }
        }
        lemma_mapped_nothing(image, from, from, to);
    } else {
        let init = answers.drop_last();
        let m = answers.last();
        let n = answers.len() - 1;
        assert(answers[n] == m);
        if !m.physical {
            lemma_described_init(image, from, to, answers, to);
            lemma_described(image, from, to, init);
            assert(sectors(answers) =~= sectors(init));
        } else {
            let end = m.offset + m.length;
            lemma_described_init(image, from, to, answers, m.offset as int);
            lemma_described(image, from, m.offset as int, init);
            assert forall|sector: int| #[trigger] has_sector(m, sector) implies lies_at(
                image,
                m,
                sector,
            ) by {
                assert(has_sector(answers[n], sector));
            }
            lemma_mapped_answer(image, from, m, m.length as int);
            assert(sectors_of(m).take(m.length as int) =~= sectors_of(m));
            assert forall|sector: int| end <= sector < to implies #[trigger] image(
                sector,
            ) is None by {
                if image(sector) is Some {
                    let i = choose|i: int|
                        0 <= i < answers.len() && #[trigger] has_sector(answers[i], sector);
                    assert(answers[i].physical);
                    if i < n {
                        assert(answers[i].offset + answers[i].length <= answers[n].offset);
                    }
                }
            }
            lemma_mapped_nothing(image, from, end, to);
        }
    }
}

/// All answers but the last tell where the sectors before it lie.
proof fn lemma_described_init(
    image: ImageMap,
    from: int,
    to: int,
    answers: Seq<SegmentMapping>,
    upto: int,
)
    requires
        answers.len() > 0,
        describes(image, from, to, answers),
        upto == if answers.last().physical {
            answers.last().offset as int
        } else {
            to
        },
    ensures
        describes(image, from, upto, answers.drop_last()),
{
    let init = answers.drop_last();
    let n = answers.len() - 1;
    assert forall|i: int| #![trigger init[i]] 0 <= i < init.len() && init[i].physical implies {
        &&& init[i].length > 0
        &&& from <= init[i].offset
        &&& init[i].offset + init[i].length <= upto
    } by {
        assert(init[i] == answers[i]);
        assert(answers[n] == answers.last());
    }
    assert forall|i: int, j: int|
        #![trigger init[i], init[j]]
        0 <= i < j < init.len() && init[i].physical && init[j].physical implies init[i].offset
        + init[i].length <= init[j].offset by {
        assert(init[i] == answers[i] && init[j] == answers[j]);
    }
    assert forall|i: int, sector: int|
        0 <= i < init.len() && #[trigger] has_sector(init[i], sector) implies lies_at(
        image,
        init[i],
        sector,
    ) by {
        assert(has_sector(answers[i], sector));
    }
    assert forall|sector: int|
        from <= sector < upto && #[trigger] image(sector) is Some implies exists|i: int|
        0 <= i < init.len() && #[trigger] has_sector(init[i], sector) by {
        assert(answers[n] == answers.last());
        let i = choose|i: int|
            0 <= i < answers.len() && #[trigger] has_sector(answers[i], sector);
        assert(has_sector(init[i], sector));
    }
}

/// Sectors one after the other.
pub proof fn lemma_mapped_concat(image: ImageMap, from: int, mid: int, to: int)
    requires
        from <= mid <= to,
    ensures
        mapped(image, from, to) == mapped(image, from, mid) + mapped(image, mid, to),
    decreases to - mid,
{
    if mid < to {
        lemma_mapped_concat(image, from, mid, to - 1);
        assert(mapped(image, from, to) =~= mapped(image, from, mid) + mapped(image, mid, to));
    } else {
        assert(mapped(image, from, mid) + Seq::empty() =~= mapped(image, from, mid));
    }
}

/// The sectors of answers one after the other.
pub proof fn lemma_sectors_concat(a: Seq<SegmentMapping>, b: Seq<SegmentMapping>)
    ensures
        sectors(a + b) == sectors(a) + sectors(b),
    decreases b.len(),
{
    if b.len() == 0 {
        assert(a + b =~= a);
        assert(sectors(a) + Seq::empty() =~= sectors(a));
    } else {
        assert((a + b).drop_last() =~= a + b.drop_last());
        lemma_sectors_concat(a, b.drop_last());
        assert(sectors(a + b) =~= sectors(a) + sectors(b));
    }
}

/// Whether the `j`-th of some answers tell where the sectors from one bound to
/// the next lie.
pub open spec fn told(
    image: ImageMap,
    bounds: Seq<int>,
    answers: Seq<Vec<SegmentMapping>>,
    j: int,
) -> bool {
    bounds[j] <= bounds[j + 1] && describes(image, bounds[j], bounds[j + 1], answers[j]@)
}

/// Answers for runs of sectors that follow each other, each of them told of
/// as an image has it, together tell of all these sectors. The runs start and
/// end at `bounds`.
pub proof fn lemma_flat_described(
    image: ImageMap,
    bounds: Seq<int>,
    answers: Seq<Vec<SegmentMapping>>,
)
    requires
        bounds.len() == answers.len() + 1,
        forall|j: int| 0 <= j < answers.len() ==> #[trigger] told(image, bounds, answers, j),
    ensures
        bounds[0] <= bounds.last(),
        sectors(flat(answers)) == mapped(image, bounds[0], bounds.last()),
    decreases answers.len(),
{
    if answers.len() > 0 {
        let init = answers.drop_last();
        let before = bounds.drop_last();
        let n = answers.len() - 1;
        assert forall|j: int| 0 <= j < init.len() implies #[trigger] told(
            image,
            before,
            init,
            j,
        ) by {
            assert(told(image, bounds, answers, j));
        }
        lemma_flat_described(image, before, init);
        assert(told(image, bounds, answers, n));
        lemma_described(image, bounds[n], bounds[n + 1], answers[n]@);
        lemma_sectors_concat(flat(init), answers.last()@);
        lemma_mapped_concat(image, bounds[0], bounds[n], bounds[n + 1]);
    }
}

} // verus!
