//! Laws on what stands at the library's edge: digests in hexadecimal, pack
//! references, opened layers and the input of the statistics tool.
use vstd::prelude::*;
use crate::codec_laws::{le_value, lemma_le64};
use crate::digest::{hex, hex_sha256, sha256};
use crate::extent_laws::stores;
use crate::extents::{LayerLayout, PlanError};
use crate::opened_layer::{ZFileTable, open_layer};
use crate::pack_plan::{PackPlan, placed};
use crate::plan_model::{OpenedLayer, ReadOnlyLayerMetadata};
use crate::plan_stats::{
    LayerSpec, StatsInputError, blocks_of_object, blocks_per_object, decimal, is_digit,
    next_equals, number, pages_upto, parse_layer_spec, parse_page_list, unsigned_digits,
};
use crate::snapshot::{MemoryStartupPackInfo, ResolvedStartupPack, resolve_startup_pack_ref};
use crate::wire::u64_at;

verus! {

/// Whether a character is the lower-case hexadecimal digit of a number.
pub open spec fn hex_digit_of(c: char, n: int) -> bool {
    (0 <= n < 10 && c as int == 48 + n) || (10 <= n < 16 && c as int == 97 + (n - 10))
}

/// Bytes in hexadecimal have two lower-case digits each, the higher one first.
pub proof fn law_hex(bytes: &[u8], out: String, i: int)
    requires
        call_ensures(hex, (bytes,), out),
        0 <= i < bytes@.len(),
    ensures
        out@.len() == 2 * bytes@.len(),
        exists|high: int, low: int| #[trigger]
            hex_digit_of(out@[2 * i], high) && #[trigger] hex_digit_of(out@[2 * i + 1], low)
                && bytes@[i] == 16 * high + low,
{
    let (high, low) = (bytes@[i] as int / 16, bytes@[i] as int % 16);
    assert((2 * i) / 2 == i && (2 * i + 1) / 2 == i);
    assert(hex_digit_of(out@[2 * i], high));
    assert(hex_digit_of(out@[2 * i + 1], low));
}

/// The hexadecimal digest of some bytes has 64 digits, two for each byte of
/// their SHA-256 digest.
pub proof fn law_hex_sha256(bytes: &[u8], out: String, i: int)
    requires
        call_ensures(hex_sha256, (bytes,), out),
        0 <= i < 32,
    ensures
        out@.len() == 64,
        sha256(bytes@).len() == 32,
        exists|high: int, low: int| #[trigger]
            hex_digit_of(out@[2 * i], high) && #[trigger] hex_digit_of(out@[2 * i + 1], low)
                && sha256(bytes@)[i] == 16 * high + low,
{
    let digest = sha256(bytes@);
    let (high, low) = (digest[i] as int / 16, digest[i] as int % 16);
    assert((2 * i) / 2 == i && (2 * i + 1) / 2 == i);
    assert(hex_digit_of(out@[2 * i], high));
    assert(hex_digit_of(out@[2 * i + 1], low));
}

/// A pack is referred to exactly where there is a descriptor and consumption is
/// enabled, and the reference says what the descriptor says.
pub proof fn law_pack_reference<F: FnOnce() -> String>(
    info: Option<&MemoryStartupPackInfo>,
    consume_enabled: bool,
    url: F,
    res: Option<ResolvedStartupPack>,
)
    requires
        call_ensures(resolve_startup_pack_ref::<F>, (info, consume_enabled, url), res),
    ensures
        !consume_enabled ==> res is None,
        info is None ==> res is None,
        consume_enabled && info is Some ==> {
            &&& res is Some
            &&& call_ensures(url, (), res->0.url)
            &&& res->0.pack_size == info->0.pack_size
            &&& res->0.index_sha256 == info->0.index_sha256
            &&& res->0.mem_virtual_size == info->0.mem_virtual_size
        },
{
}

/// A layer can be opened exactly where its metadata was found. It stores its
/// bytes as they are, or as its jump table says, behind the start of its file
/// in the tar archive, where it lies in one.
pub proof fn law_opened_layer(
    tar_base: Option<u64>,
    zfile: Option<ZFileTable>,
    metadata: Option<ReadOnlyLayerMetadata>,
    res: Result<OpenedLayer, PlanError>,
    x: int,
    at: int,
)
    requires
        call_ensures(open_layer, (tar_base, zfile, metadata), res),
    ensures
        res is Ok <==> metadata is Some,
        res is Err ==> res->Err_0 == PlanError::LayerMetadataMissing,
        res is Ok ==> {
            let base = if tar_base is Some {
                tar_base->0 as int
            } else {
                0
            };
            &&& res->Ok_0.metadata == metadata->0
            &&& zfile is Some <==> res->Ok_0.layout is ZFile
            &&& zfile is None ==> (stores(res->Ok_0.layout, x, at) <==> at == base + x)
            &&& zfile matches Some(z) ==> (stores(res->Ok_0.layout, x, at) <==> {
                let extent = z.extents@[x / z.block_size as int];
                extent.0 <= at - base < extent.0 + extent.1
            })
            &&& zfile matches Some(z) ==> (res->Ok_0.layout matches LayerLayout::ZFile {
                block_size,
                extents,
                ..
            } && block_size == z.block_size && extents == z.extents)
        },
{
}

/// Whether an offset of a page list, of eight bytes each, is past the last page
/// that has a number of 32 bits.
pub open spec fn past_last_page(raw: Seq<u8>, i: int) -> bool {
    le_value(raw, 8 * i, 8) >= 0x1_0000_0000 * 4096
}

/// A page list is read exactly where it is a whole number of offsets of eight
/// bytes each and all their pages have numbers of 32 bits. It gives the page of
/// each offset; otherwise the first offset without such a page is the error.
pub proof fn law_page_list(raw: &[u8], res: Result<Vec<u32>, StatsInputError>, i: int)
    requires
        call_ensures(parse_page_list, (raw,), res),
    ensures
        raw@.len() % 8 != 0 ==> res == Err::<Vec<u32>, StatsInputError>(
            StatsInputError::PagesNotAligned { len: raw@.len() as usize },
        ),
        res is Ok <==> raw@.len() % 8 == 0 && forall|k: int|
            0 <= k < raw@.len() as int / 8 ==> !#[trigger] past_last_page(raw@, k),
        res is Ok ==> res->Ok_0@.len() * 8 == raw@.len(),
        res is Ok && 0 <= i < res->Ok_0@.len() ==> res->Ok_0@[i] * 4096 <= le_value(
            raw@,
            8 * i,
            8,
        ) < (res->Ok_0@[i] + 1) * 4096,
        raw@.len() % 8 == 0 && 0 <= i < raw@.len() as int / 8 && past_last_page(raw@, i) && (
        forall|k: int| 0 <= k < i ==> !#[trigger] past_last_page(raw@, k)) ==> res == Err::<
            Vec<u32>,
            StatsInputError,
        >(StatsInputError::PageIndexOverflow { offset: le_value(raw@, 8 * i, 8) as u64 }),
{
    if raw@.len() % 8 == 0 {
        let n = raw@.len() as int / 8;
        lemma_pages(raw@, n);
        if pages_upto(raw@, n) is Ok && 0 <= i < n {
            lemma_page_at(raw@, n, i);
        }
        if 0 <= i < n && past_last_page(raw@, i) && (forall|k: int|
            0 <= k < i ==> !#[trigger] past_last_page(raw@, k)) {
            lemma_page_error(raw@, n, i);
        }
    }
}

proof fn lemma_pages(raw: Seq<u8>, n: int)
    requires
        0 <= n,
        8 * n <= raw.len(),
    ensures
        pages_upto(raw, n) is Ok <==> forall|k: int|
            0 <= k < n ==> !#[trigger] past_last_page(raw, k),
        pages_upto(raw, n) matches Ok(pages) ==> pages.len() == n,
    decreases n,
{
    if n > 0 {
        lemma_pages(raw, n - 1);
        lemma_le64(raw, 8 * (n - 1));
        assert(past_last_page(raw, n - 1) <==> u64_at(raw, 8 * (n - 1)) / 4096 > u32::MAX);
        if pages_upto(raw, n) is Ok {
            assert forall|k: int| 0 <= k < n implies !#[trigger] past_last_page(raw, k) by {}
        }
    }
}

proof fn lemma_page_at(raw: Seq<u8>, n: int, i: int)
    requires
        0 <= i < n,
        8 * n <= raw.len(),
        pages_upto(raw, n) is Ok,
    ensures
        pages_upto(raw, n)->Ok_0.len() == n,
        pages_upto(raw, n)->Ok_0[i] * 4096 <= le_value(raw, 8 * i, 8) < (pages_upto(
            raw,
            n,
        )->Ok_0[i] + 1) * 4096,
    decreases n,
{
    lemma_pages(raw, n);
    lemma_pages(raw, n - 1);
    if i < n - 1 {
        lemma_page_at(raw, n - 1, i);
    } else {
        lemma_le64(raw, 8 * (n - 1));
    }
}

proof fn lemma_page_error(raw: Seq<u8>, n: int, i: int)
    requires
        0 <= i < n,
        8 * n <= raw.len(),
        past_last_page(raw, i),
        forall|k: int| 0 <= k < i ==> !#[trigger] past_last_page(raw, k),
    ensures
        pages_upto(raw, n) == Err::<Seq<u32>, StatsInputError>(
            StatsInputError::PageIndexOverflow { offset: le_value(raw, 8 * i, 8) as u64 },
        ),
    decreases n,
{
    lemma_le64(raw, 8 * i);
    if i < n - 1 {
        lemma_page_error(raw, n - 1, i);
    } else {
        lemma_pages(raw, n - 1);
    }
}

/// Ten to the power of `n`.
pub open spec fn power_of_ten(n: int) -> int
    decreases n,
{
    if n <= 0 {
        1
    } else {
        10 * power_of_ten(n - 1)
    }
}

/// The number that decimal digits stand for, from the first digit on, each
/// weighed by how many digits follow it.
pub open spec fn weighed(digits: Seq<u8>, i: int) -> int
    decreases digits.len() - i,
{
    if i < 0 || i >= digits.len() {
        0
    } else {
        (digits[i] - 48) * power_of_ten(digits.len() - 1 - i) + weighed(digits, i + 1)
    }
}

proof fn lemma_weighed(digits: Seq<u8>, i: int)
    requires
        digits.len() > 0,
        0 <= i < digits.len(),
    ensures
        weighed(digits, i) == 10 * weighed(digits.drop_last(), i) + (digits.last() - 48),
    decreases digits.len() - i,
{
    let init = digits.drop_last();
    let n = digits.len();
    if i < n - 1 {
        lemma_weighed(digits, i + 1);
        assert(init[i] == digits[i]);
        assert(power_of_ten(n - 1 - i) == 10 * power_of_ten(n - 2 - i));
        let (d, p) = (digits[i] - 48, power_of_ten(n - 2 - i));
        assert(d * (10 * p) == 10 * (d * p)) by (nonlinear_arith);
    } else {
        assert(weighed(digits, n as int) == 0);
        assert(weighed(init, i) == 0);
        assert(power_of_ten(0) == 1);
    }
}

proof fn lemma_decimal(digits: Seq<u8>)
    ensures
        decimal(digits) == weighed(digits, 0),
    decreases digits.len(),
{
    if digits.len() > 0 {
        lemma_decimal(digits.drop_last());
        lemma_weighed(digits, 0);
    }
}

/// Whether a text is a decimal number: digits behind an optional plus sign, one
/// at least.
pub open spec fn is_decimal(text: Seq<u8>) -> bool {
    let sign = if text.len() > 0 && text[0] == 0x2b {
        1int
    } else {
        0
    };
    &&& text.len() > sign
    &&& forall|i: int| sign <= i < text.len() ==> 48 <= #[trigger] text[i] <= 57
}

/// The value of a decimal number.
pub open spec fn decimal_value(text: Seq<u8>) -> int {
    weighed(
        text,
        if text.len() > 0 && text[0] == 0x2b {
            1
        } else {
            0
        },
    )
}

proof fn lemma_number(text: Seq<u8>)
    ensures
        number(text) is Some <==> is_decimal(text) && decimal_value(text) <= u64::MAX,
        number(text) matches Some(n) ==> n == decimal_value(text),
{
    let digits = unsigned_digits(text);
    lemma_decimal(digits);
    if text.len() > 0 && text[0] == 0x2b {
        lemma_skip_sign(text, 1);
        assert forall|i: int| 0 <= i < digits.len() implies #[trigger] digits[i] == text[i + 1] by {}
        if is_decimal(text) {
            assert forall|i: int| 0 <= i < digits.len() implies is_digit(#[trigger] digits[i]) by {
                assert(48 <= text[i + 1] <= 57);
            }
        }
        if number(text) is Some {
            assert forall|i: int| 1 <= i < text.len() implies 48 <= #[trigger] text[i] <= 57 by {
                assert(is_digit(digits[i - 1]));
            }
        }
        if is_decimal(text) && decimal_value(text) <= u64::MAX {
            lemma_value_not_negative(digits);
        }
    } else {
        if is_decimal(text) {
            assert forall|i: int| 0 <= i < digits.len() implies is_digit(#[trigger] digits[i]) by {
                assert(48 <= text[i] <= 57);
            }
            lemma_value_not_negative(digits);
        }
        if number(text) is Some {
            assert forall|i: int| 0 <= i < text.len() implies 48 <= #[trigger] text[i] <= 57 by {
                assert(is_digit(digits[i]));
            }
        }
    }
    if number(text) is Some {
        lemma_value_not_negative(digits);
    }
}

proof fn lemma_value_not_negative(digits: Seq<u8>)
    requires
        forall|i: int| 0 <= i < digits.len() ==> is_digit(#[trigger] digits[i]),
    ensures
        decimal(digits) >= 0,
    decreases digits.len(),
{
    if digits.len() > 0 {
        let init = digits.drop_last();
        assert forall|i: int| 0 <= i < init.len() implies is_digit(#[trigger] init[i]) by {
            assert(init[i] == digits[i]);
        }
        lemma_value_not_negative(init);
        assert(is_digit(digits[digits.len() - 1]));
    }
}

proof fn lemma_skip_sign(text: Seq<u8>, i: int)
    requires
        1 <= i <= text.len(),
    ensures
        weighed(text, i) == weighed(text.skip(1), i - 1),
    decreases text.len() - i,
{
    if i < text.len() {
        lemma_skip_sign(text, i + 1);
        assert(text.skip(1)[i - 1] == text[i]);
    }
}

/// Whether `a` and `b` are the places of the first two equals signs of a text.
pub open spec fn parted_at(text: Seq<u8>, a: int, b: int) -> bool {
    &&& 0 <= a < b < text.len()
    &&& text[a] == 0x3d
    &&& text[b] == 0x3d
    &&& forall|i: int| 0 <= i < b && i != a ==> #[trigger] text[i] != 0x3d
}

proof fn lemma_next_equals(text: Seq<u8>, i: int)
    requires
        0 <= i,
    ensures
        match next_equals(text, i) {
            Some(a) => i <= a < text.len() && text[a] == 0x3d && forall|k: int|
                i <= k < a ==> #[trigger] text[k] != 0x3d,
            None => forall|k: int| i <= k < text.len() ==> #[trigger] text[k] != 0x3d,
        },
    decreases text.len() - i,
{
    if i < text.len() && text[i] != 0x3d {
        lemma_next_equals(text, i + 1);
    }
}

/// A layer argument is read exactly where it has two equals signs and a decimal
/// number of 64 bits between the first two: the path ends before the first one,
/// the number is the size, and the digest starts behind the second one.
pub proof fn law_layer_argument(
    text: &[u8],
    res: Result<LayerSpec, StatsInputError>,
    a: int,
    b: int,
)
    requires
        call_ensures(parse_layer_spec, (text,), res),
    ensures
        parted_at(text@, a, b) ==> {
            let size = text@.subrange(a + 1, b);
            &&& res is Ok <==> is_decimal(size) && decimal_value(size) <= u64::MAX
            &&& res is Ok ==> res->Ok_0.path_end == a && res->Ok_0.digest_start == b + 1
                && res->Ok_0.size == decimal_value(size)
            &&& res is Err ==> res->Err_0 == StatsInputError::InvalidSize
        },
        (forall|i: int, j: int| !#[trigger] parted_at(text@, i, j)) ==> res == Err::<
            LayerSpec,
            StatsInputError,
        >(StatsInputError::InvalidLayerSpec),
{
    let t = text@;
    assert(t.len() == text.len());
    lemma_next_equals(t, 0);
    if let Some(first) = next_equals(t, 0) {
        lemma_next_equals(t, first + 1);
        if let Some(second) = next_equals(t, first + 1) {
            assert(parted_at(t, first, second)) by {
                assert forall|i: int| 0 <= i < second && i != first implies #[trigger] t[i]
                    != 0x3d by {}
            }
            lemma_number(t.subrange(first + 1, second));
            if parted_at(t, a, b) {
                if first < a {
                    assert(t[first] != 0x3d);
                } else if a < first {
                    assert(t[a] != 0x3d);
                } else if second < b {
                    assert(t[second] != 0x3d);
                } else if b < second {
                    assert(t[b] != 0x3d);
                }
            }
        } else if parted_at(t, a, b) {
            if first < a {
                assert(t[first] != 0x3d);
            } else if a < first {
                assert(t[a] != 0x3d);
            } else {
                assert(t[b] != 0x3d);
            }
        }
    } else if parted_at(t, a, b) {
        assert(t[a] != 0x3d);
    }
}

/// The blocks of a plan that are those of an object.
pub open spec fn object_places(plan: PackPlan, object: int) -> Set<int> {
    Set::new(|b: int| 0 <= b < plan.blocks@.len() && plan.blocks@[b].object == object)
}

/// For each object the number of its blocks in the plan.
pub proof fn law_blocks_per_object(plan: PackPlan, counts: Vec<u64>, object: int)
    requires
        placed(plan.objects@, plan.blocks@),
        call_ensures(blocks_per_object, (&plan,), counts),
        0 <= object < plan.objects@.len(),
    ensures
        counts@.len() == plan.objects@.len(),
        object_places(plan, object).finite(),
        counts@[object] == object_places(plan, object).len(),
{
    lemma_places(plan, plan.blocks@.len() as int, object);
    assert(plan.blocks@.take(plan.blocks@.len() as int) =~= plan.blocks@);
    assert(places_upto(plan, plan.blocks@.len() as int, object) =~= object_places(plan, object));
}

spec fn places_upto(plan: PackPlan, n: int, object: int) -> Set<int> {
    Set::new(|b: int| 0 <= b < n && plan.blocks@[b].object == object)
}

proof fn lemma_places(plan: PackPlan, n: int, object: int)
    requires
        0 <= n <= plan.blocks@.len(),
    ensures
        places_upto(plan, n, object).finite(),
        places_upto(plan, n, object).len() == blocks_of_object(plan.blocks@.take(n), object),
    decreases n,
{
    let upto = places_upto(plan, n, object);
    if n == 0 {
        assert(upto =~= Set::empty());
    } else {
        lemma_places(plan, n - 1, object);
        let before = places_upto(plan, n - 1, object);
        assert(plan.blocks@.take(n).drop_last() =~= plan.blocks@.take(n - 1));
        if plan.blocks@[n - 1].object == object {
            assert(upto =~= before.insert(n - 1));
        } else {
            assert(upto =~= before);
        }
    }
}

} // verus!
