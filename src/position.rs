//! Placement of a protocol identifier among the leaves of a tree.

use vstd::prelude::*;

verus! {

/// A 256-bit identifier of an independent protocol.
pub type ProtocolId = [u8; 32];

/// A 256-bit digest committed to by a protocol.
pub type Message = [u8; 32];

/// The unsigned integer that the bytes encode, least significant byte first.
pub open spec fn le_value(b: Seq<u8>) -> nat
    decreases b.len(),
{
    if b.len() == 0 {
        0
    } else {
        b[0] as nat + 256 * le_value(b.drop_first())
    }
}

/// The divisor of the reduction: `width - cofactor`, saturating, and never
/// below one.
pub open spec fn modulus(cofactor: int, width: int) -> int {
    if width - cofactor >= 1 {
        width - cofactor
    } else {
        1
    }
}

/// The slot of `id` in a tree of `width` leaves under `cofactor`.
pub open spec fn pos_of(id: Seq<u8>, cofactor: int, width: int) -> int {
    le_value(id) as int % modulus(cofactor, width)
}

/// The value of the bytes of `b` from index `i` on.
proof fn lemma_le_value_step(b: Seq<u8>, i: int)
    requires
        0 <= i < b.len(),
    ensures
        le_value(b.subrange(i, b.len() as int)) == b[i] as nat + 256 * le_value(
            b.subrange(i + 1, b.len() as int),
        ),
{
    let t = b.subrange(i, b.len() as int);
    assert(t.drop_first() =~= b.subrange(i + 1, b.len() as int));
}

/// The remainder of the little-endian value of `bytes` divided by `m`, by
/// Horner's rule from the most significant byte down.
fn le_rem(bytes: &[u8; 32], m: u32) -> (r: u32)
    requires
        m > 0,
    ensures
        r as int == le_value(bytes@) as int % (m as int),
{
    let mut r: u64 = 0;
    let mut i: usize = 32;
    proof {
        assert(bytes@.subrange(32, 32) =~= Seq::<u8>::empty());
        assert(le_value(bytes@.subrange(32, 32)) == 0);
        vstd::arithmetic::div_mod::lemma_small_mod(0, m as nat);
    }
    while i > 0
        invariant
            i <= 32,
            bytes@.len() == 32,
            m > 0,
            r < m,
            r as int == le_value(bytes@.subrange(i as int, 32)) as int % (m as int),
        decreases i,
    {
        i = i - 1;
        let ghost rest = le_value(bytes@.subrange(i + 1 as int, 32)) as int;
        proof {
            lemma_le_value_step(bytes@, i as int);
            assert(r * 256 + 255 < 0x1_0000_0000_0000) by (nonlinear_arith)
                requires
                    r < m,
                    m <= 0xffff_ffff,
            ;
            // (b + 256 * rest) % m == (b + 256 * (rest % m)) % m
            vstd::arithmetic::div_mod::lemma_mul_mod_noop_right(256, rest, m as int);
            vstd::arithmetic::div_mod::lemma_add_mod_noop_right(
                bytes@[i as int] as int,
                256 * rest,
                m as int,
            );
            vstd::arithmetic::div_mod::lemma_add_mod_noop_right(
                bytes@[i as int] as int,
                256 * (rest % (m as int)),
                m as int,
            );
        }
        r = (r * 256 + bytes[i] as u64) % (m as u64);
    }
    proof {
        assert(bytes@.subrange(0, 32) =~= bytes@);
    }
    r as u32
}

/// The position that `protocol_id` takes among `width` leaves when the
/// reduction modulus is narrowed by `cofactor`.
pub fn protocol_id_pos(protocol_id: ProtocolId, cofactor: u16, width: u32) -> (r: u32)
    requires
        width > 0,
    ensures
        r as int == pos_of(protocol_id@, cofactor as int, width as int),
        (r as int) < modulus(cofactor as int, width as int),
        r < width,
{
    let m: u32 = if width > cofactor as u32 {
        width - cofactor as u32
    } else {
        1
    };
    le_rem(&protocol_id, m)
}

} // verus!
