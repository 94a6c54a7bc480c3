//! Little-endian numbers in byte strings.
use vstd::prelude::*;

verus! {

/// The four bytes of a number, lowest first.
pub open spec fn le32(x: u32) -> Seq<u8> {
    seq![
        (x % 0x100) as u8,
        (x / 0x100 % 0x100) as u8,
        (x / 0x1_0000 % 0x100) as u8,
        (x / 0x100_0000) as u8,
    ]
}

/// The eight bytes of a number, lowest first.
pub open spec fn le64(x: u64) -> Seq<u8> {
    le32((x % 0x1_0000_0000) as u32) + le32((x / 0x1_0000_0000) as u32)
}

/// The number that the four bytes at `at` stand for.
pub open spec fn u32_at(s: Seq<u8>, at: int) -> u32 {
    (s[at] + s[at + 1] * 0x100 + s[at + 2] * 0x1_0000 + s[at + 3] * 0x100_0000) as u32
}

/// The number that the eight bytes at `at` stand for.
pub open spec fn u64_at(s: Seq<u8>, at: int) -> u64 {
    (u32_at(s, at) + u32_at(s, at + 4) * 0x1_0000_0000) as u64
}

/// Numbers, eight bytes each.
pub open spec fn words(ws: Seq<u64>) -> Seq<u8>
    decreases ws.len(),
{
    if ws.len() == 0 {
        Seq::empty()
    } else {
        words(ws.drop_last()) + le64(ws.last())
    }
}

/// The `n` numbers of eight bytes each from `at` on.
pub open spec fn words_at(s: Seq<u8>, at: int, n: int) -> Seq<u64> {
    Seq::new(n as nat, |i: int| u64_at(s, at + 8 * i))
}

/// A number is read back from its bytes, wherever they stand.
pub proof fn lemma_read_u32(x: u32, before: Seq<u8>, after: Seq<u8>)
    ensures
        u32_at(before + le32(x) + after, before.len() as int) == x,
{
    let s = before + le32(x) + after;
    let n = before.len() as int;
    assert(s[n] == le32(x)[0]);
    assert(s[n + 1] == le32(x)[1]);
    assert(s[n + 2] == le32(x)[2]);
    assert(s[n + 3] == le32(x)[3]);
}

/// A number is read back from its bytes, wherever they stand.
pub proof fn lemma_read_u64(x: u64, before: Seq<u8>, after: Seq<u8>)
    ensures
        u64_at(before + le64(x) + after, before.len() as int) == x,
{
    let (lo, hi) = ((x % 0x1_0000_0000) as u32, (x / 0x1_0000_0000) as u32);
    lemma_read_u32(lo, before, le32(hi) + after);
    assert(before + le32(lo) + (le32(hi) + after) =~= before + le64(x) + after);
    lemma_read_u32(hi, before + le32(lo), after);
    assert(before + le32(lo) + le32(hi) + after =~= before + le64(x) + after);
}

/// Four bytes are the bytes of the number that they stand for.
pub proof fn lemma_write_u32(s: Seq<u8>, at: int)
    requires
        0 <= at,
        at + 4 <= s.len(),
    ensures
        le32(u32_at(s, at)) == s.subrange(at, at + 4),
{
    let x = u32_at(s, at);
    let (a, b, c, d) = (s[at] as int, s[at + 1] as int, s[at + 2] as int, s[at + 3] as int);
    assert(x == a + b * 0x100 + c * 0x1_0000 + d * 0x100_0000);
    assert(x / 0x100 == b + c * 0x100 + d * 0x1_0000);
    assert(x / 0x1_0000 == c + d * 0x100);
    assert(x / 0x100_0000 == d);
    assert(le32(x) =~= s.subrange(at, at + 4));
}

/// Eight bytes are the bytes of the number that they stand for.
pub proof fn lemma_write_u64(s: Seq<u8>, at: int)
    requires
        0 <= at,
        at + 8 <= s.len(),
    ensures
        le64(u64_at(s, at)) == s.subrange(at, at + 8),
{
    lemma_write_u32(s, at);
    lemma_write_u32(s, at + 4);
    let (lo, hi) = (u32_at(s, at), u32_at(s, at + 4));
    assert(u64_at(s, at) % 0x1_0000_0000 == lo);
    assert(u64_at(s, at) / 0x1_0000_0000 == hi);
    assert(s.subrange(at, at + 4) + s.subrange(at + 4, at + 8) =~= s.subrange(at, at + 8));
}

pub proof fn lemma_words_len(ws: Seq<u64>)
    ensures
        words(ws).len() == 8 * ws.len(),
    decreases ws.len(),
{
    if ws.len() > 0 {
        lemma_words_len(ws.drop_last());
    }
}

/// Numbers are read back from their bytes, wherever they stand.
pub proof fn lemma_read_words(ws: Seq<u64>, before: Seq<u8>, after: Seq<u8>)
    ensures
        words_at(before + words(ws) + after, before.len() as int, ws.len() as int) == ws,
    decreases ws.len(),
{
    let s = before + words(ws) + after;
    if ws.len() > 0 {
        let init = ws.drop_last();
        let rest = le64(ws.last()) + after;
        lemma_read_words(init, before, rest);
        assert(before + words(init) + rest =~= s);
        lemma_words_len(init);
        lemma_read_u64(ws.last(), before + words(init), after);
        assert(before + words(init) + le64(ws.last()) + after =~= s);
        assert forall|i: int| 0 <= i < ws.len() implies words_at(
            s,
            before.len() as int,
            ws.len() as int,
        )[i] == ws[i] by {
            if i < init.len() {
                assert(words_at(s, before.len() as int, init.len() as int)[i] == init[i]);
            }
        }
    }
    assert(words_at(s, before.len() as int, ws.len() as int) =~= ws);
}

/// Bytes are the bytes of the numbers that they stand for.
pub proof fn lemma_write_words(s: Seq<u8>, at: int, n: int)
    requires
        0 <= at,
        0 <= n,
        at + 8 * n <= s.len(),
    ensures
        words(words_at(s, at, n)) == s.subrange(at, at + 8 * n),
    decreases n,
{
    if n == 0 {
        assert(words_at(s, at, n) =~= Seq::empty());
        assert(s.subrange(at, at) =~= Seq::empty());
    } else {
        lemma_write_words(s, at, n - 1);
        assert(words_at(s, at, n).drop_last() =~= words_at(s, at, n - 1));
        lemma_write_u64(s, at + 8 * (n - 1));
        assert(s.subrange(at, at + 8 * (n - 1)) + s.subrange(at + 8 * (n - 1), at + 8 * n)
            =~= s.subrange(at, at + 8 * n));
    }
}

/// Appends the four bytes of a number.
pub fn push_u32(out: &mut Vec<u8>, x: u32)
    ensures
        final(out)@ == old(out)@ + le32(x),
{
    let ghost before = out@;
    out.push((x % 0x100) as u8);
    out.push((x / 0x100 % 0x100) as u8);
    out.push((x / 0x1_0000 % 0x100) as u8);
    out.push((x / 0x100_0000) as u8);
    assert(out@ =~= before + le32(x));
}

/// Appends the eight bytes of a number.
pub fn push_u64(out: &mut Vec<u8>, x: u64)
    ensures
        final(out)@ == old(out)@ + le64(x),
{
    let ghost before = out@;
    push_u32(out, (x % 0x1_0000_0000) as u32);
    push_u32(out, (x / 0x1_0000_0000) as u32);
    assert(out@ =~= before + le64(x));
}

/// Reads the number in the four bytes at `at`.
pub fn read_u32(bytes: &[u8], at: usize) -> (x: u32)
    requires
        at + 4 <= bytes@.len(),
    ensures
        x == u32_at(bytes@, at as int),
{
    bytes[at] as u32 + bytes[at + 1] as u32 * 0x100 + bytes[at + 2] as u32 * 0x1_0000
        + bytes[at + 3] as u32 * 0x100_0000
}

/// Reads the number in the eight bytes at `at`.
pub fn read_u64(bytes: &[u8], at: usize) -> (x: u64)
    requires
        at + 8 <= bytes@.len(),
    ensures
        x == u64_at(bytes@, at as int),
{
    assert(bytes@.len() == bytes.len());
    read_u32(bytes, at) as u64 + read_u32(bytes, at + 4) as u64 * 0x1_0000_0000
}

/// Whether `bytes` starts with `magic`.
pub fn starts_with(bytes: &[u8], magic: &[u8; 8]) -> (res: bool)
    ensures
        res == (bytes@.len() >= 8 && bytes@.take(8) == magic@),
{
    if bytes.len() < 8 {
        return false;
    }
    let mut i: usize = 0;
    while i < 8
        invariant
            i <= 8,
            bytes@.len() >= 8,
            forall|k: int| 0 <= k < i ==> bytes@[k] == magic@[k],
        decreases 8 - i,
    {
        if bytes[i] != magic[i] {
            assert(bytes@.take(8)[i as int] != magic@[i as int]);
            return false;
        }
        i = i + 1;
    }
    assert(bytes@.take(8) =~= magic@);
    true
}

/// Appends a magic number.
pub fn push_magic(out: &mut Vec<u8>, magic: &[u8; 8])
    ensures
        final(out)@ == old(out)@ + magic@,
{
    let ghost before = out@;
    let mut i: usize = 0;
    assert(magic@.take(0) =~= Seq::empty());
    assert(out@ =~= before + magic@.take(0));
    while i < 8
        invariant
            i <= 8,
            out@ == before + magic@.take(i as int),
        decreases 8 - i,
    {
        out.push(magic[i]);
        assert(magic@.take(i + 1) =~= magic@.take(i as int).push(magic@[i as int]));
        assert(out@ =~= before + magic@.take(i + 1));
        i = i + 1;
    }
    assert(magic@.take(8) =~= magic@);
}

} // verus!
