//! Content digests in hexadecimal.
use vstd::prelude::*;
use vstd::string::*;

verus! {

/// The SHA-256 digest of some bytes.
pub uninterp spec fn sha256(data: Seq<u8>) -> Seq<u8>;

/// `Sha256::digest` of the `sha2` crate: the digest depends on the bytes
/// alone and has 32 bytes.
#[verifier::external_body]
fn sha256_digest(data: &[u8]) -> (digest: Vec<u8>)
    ensures
        digest@ == sha256(data@),
        digest@.len() == 32,
{
    <sha2::Sha256 as sha2::Digest>::digest(data).to_vec()
}

/// The lower-case hexadecimal digit of a number below 16.
pub open spec fn hex_char(n: int) -> char {
    if n < 10 {
        (0x30 + n) as char
    } else {
        (0x57 + n) as char
    }
}

/// Bytes as two lower-case hexadecimal digits each, the higher one first.
pub open spec fn hex_of(bytes: Seq<u8>) -> Seq<char> {
    Seq::new(
        2 * bytes.len(),
        |i: int|
            if i % 2 == 0 {
                hex_char(bytes[i / 2] as int / 16)
            } else {
                hex_char(bytes[i / 2] as int % 16)
            },
    )
}

fn hex_digit(n: u8) -> (digit: &'static str)
    requires
        n < 16,
    ensures
        digit@ == seq![hex_char(n as int)],
{
    proof {
        reveal_strlit("0");
        reveal_strlit("1");
        reveal_strlit("2");
        reveal_strlit("3");
        reveal_strlit("4");
        reveal_strlit("5");
        reveal_strlit("6");
        reveal_strlit("7");
        reveal_strlit("8");
        reveal_strlit("9");
        reveal_strlit("a");
        reveal_strlit("b");
        reveal_strlit("c");
        reveal_strlit("d");
        reveal_strlit("e");
        reveal_strlit("f");
    }
    let digit: &'static str = match n {
        0 => "0",
        1 => "1",
        2 => "2",
        3 => "3",
        4 => "4",
        5 => "5",
        6 => "6",
        7 => "7",
        8 => "8",
        9 => "9",
        10 => "a",
        11 => "b",
        12 => "c",
        13 => "d",
        14 => "e",
        _ => "f",
    };
    assert(digit@ =~= seq![hex_char(n as int)]);
    digit
}

/// Bytes in lower-case hexadecimal.
pub fn hex(bytes: &[u8]) -> (out: String)
    ensures
        out@ == hex_of(bytes@),
{
    let mut out: String = String::new();
    let mut i: usize = 0;
    assert(out@ =~= hex_of(bytes@.take(0)));
    while i < bytes.len()
        invariant
            i <= bytes@.len(),
            out@ == hex_of(bytes@.take(i as int)),
        decreases bytes@.len() - i,
    {
        let byte: u8 = bytes[i];
        let ghost before = out@;
        out.append(hex_digit(byte / 16));
        out.append(hex_digit(byte % 16));
        proof {
            let next = hex_of(bytes@.take(i + 1));
            assert(out@ =~= next) by {
                assert forall|k: int| 0 <= k < next.len() implies out@[k] == next[k] by {
                    if k < before.len() {
                        assert(before[k] == hex_of(bytes@.take(i as int))[k]);
                        assert(bytes@.take(i + 1)[k / 2] == bytes@.take(i as int)[k / 2]);
                    }
                }
            }
        }
        i = i + 1;
    }
    assert(bytes@.take(i as int) =~= bytes@);
    out
}

/// The hexadecimal SHA-256 digest of some bytes.
pub fn hex_sha256(bytes: &[u8]) -> (out: String)
    ensures
        out@ == hex_of(sha256(bytes@)),
        out@.len() == 64,
{
    let digest: Vec<u8> = sha256_digest(bytes);
    hex(digest.as_slice())
}

/// Different byte strings have different hexadecimal forms.
pub proof fn law_hex_injective(a: Seq<u8>, b: Seq<u8>)
    requires
        hex_of(a) == hex_of(b),
    ensures
        a == b,
{
    assert(hex_of(a).len() == 2 * a.len());
    assert(hex_of(b).len() == 2 * b.len());
    assert forall|i: int| 0 <= i < a.len() implies a[i] == b[i] by {
        lemma_hex_digits(a, i);
        lemma_hex_digits(b, i);
        lemma_hex_char(a[i] as int / 16, b[i] as int / 16);
        lemma_hex_char(a[i] as int % 16, b[i] as int % 16);
    }
    assert(a =~= b);
}

proof fn lemma_hex_digits(a: Seq<u8>, i: int)
    requires
        0 <= i < a.len(),
    ensures
        hex_of(a)[2 * i] == hex_char(a[i] as int / 16),
        hex_of(a)[2 * i + 1] == hex_char(a[i] as int % 16),
{
    assert((2 * i) / 2 == i && (2 * i + 1) / 2 == i);
}

proof fn lemma_hex_char(m: int, n: int)
    requires
        0 <= m < 16,
        0 <= n < 16,
        hex_char(m) == hex_char(n),
    ensures
        m == n,
{
    assert(hex_char(m) as int == if m < 10 { 0x30 + m } else { 0x57 + m });
    assert(hex_char(n) as int == if n < 10 { 0x30 + n } else { 0x57 + n });
}

} // verus!
