use vstd::prelude::*;

verus! {

/// The number that four bytes denote when read little-endian.
pub open spec fn le_value(b: Seq<u8>) -> nat
    recommends
        b.len() >= 4,
{
    b[0] as nat + 256 * (b[1] as nat) + 65536 * (b[2] as nat) + 16777216 * (b[3] as nat)
}

/// The four bytes of `n`, least significant first.
pub open spec fn le_bytes(n: u32) -> Seq<u8> {
    seq![
        (n % 256) as u8,
        ((n / 256) % 256) as u8,
        ((n / 65536) % 256) as u8,
        (n / 16777216) as u8,
    ]
}

/// Encoding and decoding invert each other on every `u32`.
pub proof fn lemma_round_trip(n: u32)
    ensures
        le_bytes(n).len() == 4,
        le_value(le_bytes(n)) == n,
{
    let b = le_bytes(n);
    assert(b[0] as nat + 256 * (b[1] as nat) + 65536 * (b[2] as nat) + 16777216 * (b[3] as nat)
        == n) by (nonlinear_arith)
        requires
            b[0] == n % 256,
            b[1] == (n / 256) % 256,
            b[2] == (n / 65536) % 256,
            b[3] == n / 16777216,
    ;
}

/// Converts `n` to its four little-endian bytes.
pub fn u32_to_bytes(n: u32) -> (r: [u8; 4])
    ensures
        r@ == le_bytes(n),
        le_value(r@) == n,
{
    let bytes: [u8; 4] = [
        (n % 256) as u8,
        ((n / 256) % 256) as u8,
        ((n / 65536) % 256) as u8,
        (n / 16777216) as u8,
    ];
    proof {
        lemma_round_trip(n);
        assert(bytes@ =~= le_bytes(n));
    }
    bytes
}

/// Reads the first four bytes of `bytes` as a little-endian `u32`.
pub fn bytes_to_u32(bytes: &[u8]) -> (r: u32)
    requires
        bytes@.len() >= 4,
    ensures
        r == le_value(bytes@),
{
    let b0 = bytes[0] as u32;
    let b1 = bytes[1] as u32;
    let b2 = bytes[2] as u32;
    let b3 = bytes[3] as u32;
    assert(b0 + 256 * b1 + 65536 * b2 + 16777216 * b3 <= u32::MAX) by (nonlinear_arith)
        requires
            b0 < 256,
            b1 < 256,
            b2 < 256,
            b3 < 256,
    ;
    b0 + 256 * b1 + 65536 * b2 + 16777216 * b3
}

} // verus!
