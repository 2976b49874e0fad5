//! The key of a table entry: a document id as eight bytes, most significant
//! byte first, so that the order of the keys as byte strings is the order of
//! the ids as numbers.

use vstd::prelude::*;

verus! {

/// The eight bytes of `x`, most significant first.
pub open spec fn be_bytes(x: u64) -> Seq<u8> {
    seq![
        (x / 0x100_0000_0000_0000) as u8,
        (x / 0x1_0000_0000_0000 % 0x100) as u8,
        (x / 0x100_0000_0000 % 0x100) as u8,
        (x / 0x1_0000_0000 % 0x100) as u8,
        (x / 0x100_0000 % 0x100) as u8,
        (x / 0x1_0000 % 0x100) as u8,
        (x / 0x100 % 0x100) as u8,
        (x % 0x100) as u8,
    ]
}

/// The number that eight bytes stand for, most significant first.
pub open spec fn be_value(bytes: Seq<u8>) -> int
    recommends
        bytes.len() == 8,
{
    bytes[0] * 0x100_0000_0000_0000 + bytes[1] * 0x1_0000_0000_0000 + bytes[2] * 0x100_0000_0000
        + bytes[3] * 0x1_0000_0000 + bytes[4] * 0x100_0000 + bytes[5] * 0x1_0000 + bytes[6] * 0x100
        + bytes[7]
}

/// Whether `a` comes before `b` from position `from` on, given that they agree
/// before it.
pub open spec fn lex_lt_from(a: Seq<u8>, b: Seq<u8>, from: int) -> bool
    decreases b.len() - from,
{
    if from < 0 || from >= b.len() {
        false
    } else if from >= a.len() {
        true
    } else if a[from] != b[from] {
        a[from] < b[from]
    } else {
        lex_lt_from(a, b, from + 1)
    }
}

/// Byte-wise lexicographic order: the first byte that differs decides, and a
/// proper prefix comes before what it is a prefix of.
pub open spec fn lex_lt(a: Seq<u8>, b: Seq<u8>) -> bool {
    lex_lt_from(a, b, 0)
}

/// Decoding undoes encoding.
pub proof fn lemma_value_of_bytes(x: u64)
    ensures
        be_bytes(x).len() == 8,
        be_value(be_bytes(x)) == x,
{
    assert(x == (x / 0x100_0000_0000_0000) * 0x100_0000_0000_0000 + (x / 0x1_0000_0000_0000 % 0x100)
        * 0x1_0000_0000_0000 + (x / 0x100_0000_0000 % 0x100) * 0x100_0000_0000 + (x / 0x1_0000_0000
        % 0x100) * 0x1_0000_0000 + (x / 0x100_0000 % 0x100) * 0x100_0000 + (x / 0x1_0000 % 0x100)
        * 0x1_0000 + (x / 0x100 % 0x100) * 0x100 + x % 0x100) by (bit_vector);
    assert(x / 0x100_0000_0000_0000 < 0x100) by (bit_vector);
}

/// Encoding undoes decoding: eight bytes are the key of the number they stand
/// for, which fits in 64 bits.
pub proof fn lemma_bytes_of_value(bytes: Seq<u8>)
    requires
        bytes.len() == 8,
    ensures
        0 <= be_value(bytes) <= u64::MAX,
        be_bytes(be_value(bytes) as u64) == bytes,
{
    let b0 = bytes[0] as u64;
    let b1 = bytes[1] as u64;
    let b2 = bytes[2] as u64;
    let b3 = bytes[3] as u64;
    let b4 = bytes[4] as u64;
    let b5 = bytes[5] as u64;
    let b6 = bytes[6] as u64;
    let b7 = bytes[7] as u64;
    let v = be_value(bytes) as u64;
    assert(v / 0x100_0000_0000_0000 == b0 && v / 0x1_0000_0000_0000 % 0x100 == b1 && v
        / 0x100_0000_0000 % 0x100 == b2 && v / 0x1_0000_0000 % 0x100 == b3 && v / 0x100_0000 % 0x100
        == b4 && v / 0x1_0000 % 0x100 == b5 && v / 0x100 % 0x100 == b6 && v % 0x100 == b7)
        by (bit_vector)
        requires
            b0 < 0x100 && b1 < 0x100 && b2 < 0x100 && b3 < 0x100 && b4 < 0x100 && b5 < 0x100 && b6
                < 0x100 && b7 < 0x100,
            v == b0 * 0x100_0000_0000_0000 + b1 * 0x1_0000_0000_0000 + b2 * 0x100_0000_0000 + b3
                * 0x1_0000_0000 + b4 * 0x100_0000 + b5 * 0x1_0000 + b6 * 0x100 + b7,
    ;
    assert(be_bytes(v) =~= bytes);
}

/// Two ids have the same key only if they are the same id.
pub proof fn lemma_bytes_injective(x: u64, y: u64)
    requires
        be_bytes(x) == be_bytes(y),
    ensures
        x == y,
{
    lemma_value_of_bytes(x);
    lemma_value_of_bytes(y);
}

/// The order of two keys as byte strings is the order of their ids as numbers.
pub proof fn lemma_order_preserved(x: u64, y: u64)
    ensures
        lex_lt(be_bytes(x), be_bytes(y)) <==> x < y,
{
    lemma_value_of_bytes(x);
    lemma_value_of_bytes(y);
    lemma_order_of_values(be_bytes(x), be_bytes(y));
}

/// The order of two well-formed keys is the order of the numbers they stand for.
pub proof fn lemma_order_of_values(a: Seq<u8>, b: Seq<u8>)
    requires
        a.len() == 8,
        b.len() == 8,
    ensures
        lex_lt(a, b) <==> be_value(a) < be_value(b),
{
    reveal_with_fuel(lex_lt_from, 9);
}

/// The key of a document id.
pub fn encode(id: u64) -> (key: [u8; 8])
    ensures
        key@ == be_bytes(id),
{
    let key: [u8; 8] = [
        (id / 0x100_0000_0000_0000) as u8,
        (id / 0x1_0000_0000_0000 % 0x100) as u8,
        (id / 0x100_0000_0000 % 0x100) as u8,
        (id / 0x1_0000_0000 % 0x100) as u8,
        (id / 0x100_0000 % 0x100) as u8,
        (id / 0x1_0000 % 0x100) as u8,
        (id / 0x100 % 0x100) as u8,
        (id % 0x100) as u8,
    ];
    assert(key@ =~= be_bytes(id));
    key
}

/// The document id that a key stands for.
pub fn decode(key: &[u8; 8]) -> (id: u64)
    ensures
        id == be_value(key@),
        be_bytes(id) == key@,
{
    proof {
        lemma_bytes_of_value(key@);
    }
    let b0: u64 = key[0] as u64;
    let b1: u64 = key[1] as u64;
    let b2: u64 = key[2] as u64;
    let b3: u64 = key[3] as u64;
    let b4: u64 = key[4] as u64;
    let b5: u64 = key[5] as u64;
    let b6: u64 = key[6] as u64;
    let b7: u64 = key[7] as u64;
    b0 * 0x100_0000_0000_0000 + b1 * 0x1_0000_0000_0000 + b2 * 0x100_0000_0000 + b3 * 0x1_0000_0000
        + b4 * 0x100_0000 + b5 * 0x1_0000 + b6 * 0x100 + b7
}

} // verus!
