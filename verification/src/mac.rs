//! MAC addresses as integer keys.
//!
//! The six bytes of a MAC address are read big-endian into a `u64` below
//! 2^48. Comparing keys as integers compares the addresses byte by byte,
//! which is the order the byte arrays sort in.
use vstd::prelude::*;
use vstd::arithmetic::div_mod::{lemma_div_denominator, lemma_fundamental_div_mod};

verus! {

/// Keys are below 2^48.
pub const MAC_KEY_LIMIT: u64 = 0x1_0000_0000_0000;

/// The key of a six-byte address.
pub open spec fn mac_key_spec(m: Seq<u8>) -> int {
    ((((m[0] * 256 + m[1]) * 256 + m[2]) * 256 + m[3]) * 256 + m[4]) * 256 + m[5]
}

/// Byte `i` (0 = most significant) of a 48-bit key.
pub open spec fn key_byte(k: int, i: int) -> u8 {
    ((k / pow256(5 - i)) % 256) as u8
}

/// 256 to the power `e`, for `0 <= e <= 5`.
pub open spec fn pow256(e: int) -> int {
    if e <= 0 {
        1
    } else if e == 1 {
        0x100
    } else if e == 2 {
        0x1_0000
    } else if e == 3 {
        0x100_0000
    } else if e == 4 {
        0x1_0000_0000
    } else {
        0x100_0000_0000
    }
}

/// The bytes of a 48-bit key, most significant first.
pub open spec fn key_bytes(k: int) -> Seq<u8> {
    Seq::new(6, |i: int| key_byte(k, i))
}

/// Reads a MAC address as a key.
pub fn mac_to_key(mac: [u8; 6]) -> (k: u64)
    ensures
        k == mac_key_spec(mac@),
        k < MAC_KEY_LIMIT,
{
    let k = ((((mac[0] as u64 * 256 + mac[1] as u64) * 256 + mac[2] as u64) * 256
        + mac[3] as u64) * 256 + mac[4] as u64) * 256 + mac[5] as u64;
    k
}

pub proof fn lemma_key_bytes_roundtrip(k: int)
    requires
        0 <= k < 0x1_0000_0000_0000,
    ensures
        mac_key_spec(key_bytes(k)) == k,
        key_bytes(k).len() == 6,
{
    let b = key_bytes(k);
    let q1 = k / 0x100;
    let q2 = q1 / 0x100;
    let q3 = q2 / 0x100;
    let q4 = q3 / 0x100;
    let q5 = q4 / 0x100;
    lemma_div_denominator(k, 0x100, 0x100);
    lemma_div_denominator(k, 0x1_0000, 0x100);
    lemma_div_denominator(k, 0x100_0000, 0x100);
    lemma_div_denominator(k, 0x1_0000_0000, 0x100);
    assert(q2 == k / 0x1_0000);
    assert(q3 == k / 0x100_0000);
    assert(q4 == k / 0x1_0000_0000);
    assert(q5 == k / 0x100_0000_0000);
    lemma_fundamental_div_mod(k, 0x100);
    lemma_fundamental_div_mod(q1, 0x100);
    lemma_fundamental_div_mod(q2, 0x100);
    lemma_fundamental_div_mod(q3, 0x100);
    lemma_fundamental_div_mod(q4, 0x100);
    lemma_fundamental_div_mod(q5, 0x100);
    assert(q5 < 0x100);
    assert(q5 / 0x100 == 0);
    assert(b[0] == q5 % 256);
    assert(b[1] == q4 % 256);
    assert(b[2] == q3 % 256);
    assert(b[3] == q2 % 256);
    assert(b[4] == q1 % 256);
    assert(b[5] == k % 256);
}

/// The six bytes of a key, most significant first.
pub fn key_to_mac(k: u64) -> (mac: [u8; 6])
    requires
        k < MAC_KEY_LIMIT,
    ensures
        mac@ == key_bytes(k as int),
        mac_key_spec(mac@) == k,
{
    let mac: [u8; 6] = [
        ((k / 0x100_0000_0000) % 256) as u8,
        ((k / 0x1_0000_0000) % 256) as u8,
        ((k / 0x100_0000) % 256) as u8,
        ((k / 0x1_0000) % 256) as u8,
        ((k / 0x100) % 256) as u8,
        (k % 256) as u8,
    ];
    proof {
        lemma_key_bytes_roundtrip(k as int);
        assert(mac@ =~= key_bytes(k as int));
    }
    mac
}

/// Reading an address as a key and back gives the same address.
pub proof fn lemma_mac_roundtrip(m: Seq<u8>)
    requires
        m.len() == 6,
    ensures
        0 <= mac_key_spec(m) < 0x1_0000_0000_0000,
        key_bytes(mac_key_spec(m)) == m,
{
    let k = mac_key_spec(m);
    assert(0 <= k < 0x1_0000_0000_0000);
    assert(key_bytes(k) =~= m) by {
        assert(key_byte(k, 0) == m[0]) by (nonlinear_arith)
            requires
                k == ((((m[0] * 256 + m[1]) * 256 + m[2]) * 256 + m[3]) * 256 + m[4]) * 256 + m[5],
                0 <= m[0] < 256, 0 <= m[1] < 256, 0 <= m[2] < 256,
                0 <= m[3] < 256, 0 <= m[4] < 256, 0 <= m[5] < 256,
                key_byte(k, 0) == ((k / 0x100_0000_0000) % 256) as u8,
        ;
        assert(key_byte(k, 1) == m[1]) by (nonlinear_arith)
            requires
                k == ((((m[0] * 256 + m[1]) * 256 + m[2]) * 256 + m[3]) * 256 + m[4]) * 256 + m[5],
                0 <= m[0] < 256, 0 <= m[1] < 256, 0 <= m[2] < 256,
                0 <= m[3] < 256, 0 <= m[4] < 256, 0 <= m[5] < 256,
                key_byte(k, 1) == ((k / 0x1_0000_0000) % 256) as u8,
        ;
        assert(key_byte(k, 2) == m[2]) by (nonlinear_arith)
            requires
                k == ((((m[0] * 256 + m[1]) * 256 + m[2]) * 256 + m[3]) * 256 + m[4]) * 256 + m[5],
                0 <= m[0] < 256, 0 <= m[1] < 256, 0 <= m[2] < 256,
                0 <= m[3] < 256, 0 <= m[4] < 256, 0 <= m[5] < 256,
                key_byte(k, 2) == ((k / 0x100_0000) % 256) as u8,
        ;
        assert(key_byte(k, 3) == m[3]) by (nonlinear_arith)
            requires
                k == ((((m[0] * 256 + m[1]) * 256 + m[2]) * 256 + m[3]) * 256 + m[4]) * 256 + m[5],
                0 <= m[0] < 256, 0 <= m[1] < 256, 0 <= m[2] < 256,
                0 <= m[3] < 256, 0 <= m[4] < 256, 0 <= m[5] < 256,
                key_byte(k, 3) == ((k / 0x1_0000) % 256) as u8,
        ;
        assert(key_byte(k, 4) == m[4]) by (nonlinear_arith)
            requires
                k == ((((m[0] * 256 + m[1]) * 256 + m[2]) * 256 + m[3]) * 256 + m[4]) * 256 + m[5],
                0 <= m[0] < 256, 0 <= m[1] < 256, 0 <= m[2] < 256,
                0 <= m[3] < 256, 0 <= m[4] < 256, 0 <= m[5] < 256,
                key_byte(k, 4) == ((k / 0x100) % 256) as u8,
        ;
        assert(key_byte(k, 5) == m[5]) by (nonlinear_arith)
            requires
                k == ((((m[0] * 256 + m[1]) * 256 + m[2]) * 256 + m[3]) * 256 + m[4]) * 256 + m[5],
                0 <= m[0] < 256, 0 <= m[1] < 256, 0 <= m[2] < 256,
                0 <= m[3] < 256, 0 <= m[4] < 256, 0 <= m[5] < 256,
                key_byte(k, 5) == (k % 256) as u8,
        ;
    }
}

/// `a` sorts before `b` byte by byte.
pub open spec fn lex_less(a: Seq<u8>, b: Seq<u8>) -> bool {
    exists|k: int| 0 <= k < a.len() && k < b.len() && a.take(k) == b.take(k) && #[trigger] a[k] < b[k]
}

/// Equal prefixes up to `k` and a smaller byte at `k` give a smaller key.
proof fn lemma_key_less_at(a: Seq<u8>, b: Seq<u8>, k: int)
    requires
        a.len() == 6,
        b.len() == 6,
        0 <= k < 6,
        a.take(k) == b.take(k),
        a[k] < b[k],
    ensures
        mac_key_spec(a) < mac_key_spec(b),
{
    let (a0, a1, a2, a3, a4, a5) = (a[0] as int, a[1] as int, a[2] as int, a[3] as int, a[4] as int, a[5] as int);
    let (b0, b1, b2, b3, b4, b5) = (b[0] as int, b[1] as int, b[2] as int, b[3] as int, b[4] as int, b[5] as int);
    let ka = mac_key_spec(a);
    let kb = mac_key_spec(b);
    assert(ka == a0 * 0x100_0000_0000 + a1 * 0x1_0000_0000 + a2 * 0x100_0000 + a3 * 0x1_0000 + a4 * 0x100 + a5);
    assert(kb == b0 * 0x100_0000_0000 + b1 * 0x1_0000_0000 + b2 * 0x100_0000 + b3 * 0x1_0000 + b4 * 0x100 + b5);
    assert(0 <= a1 < 256 && 0 <= a2 < 256 && 0 <= a3 < 256 && 0 <= a4 < 256 && 0 <= a5 < 256);
    assert(0 <= b1 < 256 && 0 <= b2 < 256 && 0 <= b3 < 256 && 0 <= b4 < 256 && 0 <= b5 < 256);
    if k >= 1 {
        assert(a[0] == a.take(k)[0]);
        assert(b[0] == b.take(k)[0]);
    }
    if k >= 2 {
        assert(a[1] == a.take(k)[1]);
        assert(b[1] == b.take(k)[1]);
    }
    if k >= 3 {
        assert(a[2] == a.take(k)[2]);
        assert(b[2] == b.take(k)[2]);
    }
    if k >= 4 {
        assert(a[3] == a.take(k)[3]);
        assert(b[3] == b.take(k)[3]);
    }
    if k >= 5 {
        assert(a[4] == a.take(k)[4]);
        assert(b[4] == b.take(k)[4]);
    }
}

/// Comparing keys compares the addresses byte by byte, so sorting keys
/// sorts the addresses.
pub proof fn lemma_mac_key_order(a: Seq<u8>, b: Seq<u8>)
    requires
        a.len() == 6,
        b.len() == 6,
    ensures
        mac_key_spec(a) < mac_key_spec(b) <==> lex_less(a, b),
{
    if lex_less(a, b) {
        let k = choose|k: int| 0 <= k < a.len() && k < b.len() && a.take(k) == b.take(k) && #[trigger] a[k] < b[k];
        lemma_key_less_at(a, b, k);
    }
    if mac_key_spec(a) < mac_key_spec(b) {
        // The first byte where they differ decides.
        let k: int = if a[0] != b[0] {
            0
        } else if a[1] != b[1] {
            1
        } else if a[2] != b[2] {
            2
        } else if a[3] != b[3] {
            3
        } else if a[4] != b[4] {
            4
        } else {
            5
        };
        if a[k] == b[k] {
            assert(a =~= b);
        }
        assert(a.take(k) =~= b.take(k));
        if a[k] > b[k] {
            lemma_key_less_at(b, a, k);
        }
        assert(a[k] < b[k]);
    }
}

} // verus!
