//! Blinded transaction outpoints: a transaction id and output number hidden
//! behind a double SHA-256 together with a random blinding factor.

use crate::digest::append_bytes;
use vstd::prelude::*;

verus! {

/// What double SHA-256 gives for `data`.
pub uninterp spec fn sha256d_of(data: Seq<u8>) -> Seq<u8>;

/// Relies on bitcoin_hashes' `sha256d::Hash::hash`: the double SHA-256 digest
/// of `data`, as 32 bytes.
#[verifier::external_body]
fn sha256d_bytes(data: &[u8]) -> (r: [u8; 32])
    ensures
        r@ == sha256d_of(data@),
{
    let h = <bitcoin::hashes::sha256d::Hash as bitcoin::hashes::Hash>::hash(data);
    bitcoin::hashes::Hash::to_byte_array(h)
}

/// The `n` least significant bytes of `x`, most significant first.
pub open spec fn be_bytes(x: nat, n: nat) -> Seq<u8>
    decreases n,
{
    if n == 0 {
        Seq::empty()
    } else {
        be_bytes(x / 256, (n - 1) as nat) + seq![(x % 256) as u8]
    }
}

fn push_be(v: &mut Vec<u8>, x: u64, n: usize)
    requires
        n <= 8,
    ensures
        final(v)@ == old(v)@ + be_bytes(x as nat, n as nat),
{
    let mut bytes: Vec<u8> = Vec::new();
    let mut cur: u64 = x;
    let mut i: usize = 0;
    while i < n
        invariant
            i <= n,
            be_bytes(x as nat, n as nat) == be_bytes(cur as nat, (n - i) as nat) + bytes@,
        decreases n - i,
    {
        let ghost rest = be_bytes((cur / 256) as nat, (n - i - 1) as nat);
        let ghost b = bytes@;
        assert(be_bytes(cur as nat, (n - i) as nat) == rest + seq![(cur % 256) as u8]);
        bytes.insert(0, (cur % 256) as u8);
        assert(rest + bytes@ =~= rest + seq![(cur % 256) as u8] + b);
        cur = cur / 256;
        i = i + 1;
    }
    assert(be_bytes(cur as nat, 0) =~= Seq::<u8>::empty());
    assert(be_bytes(x as nat, n as nat) =~= bytes@);
    append_bytes(v, bytes.as_slice());
}

/// The blinded form of an outpoint.
#[derive(Clone, Copy, PartialEq, Eq, Debug, Hash)]
pub struct OutpointHash(pub [u8; 32]);

/// An outpoint with the blinding factor that hides it.
#[derive(Clone, Copy, PartialEq, Eq, Debug, Hash, Default)]
pub struct OutpointReveal {
    /// Blinding factor against a search over the known transaction ids.
    pub blinding: u64,
    /// Id of the transaction.
    pub txid: [u8; 32],
    /// Number of the output in the transaction.
    pub vout: u32,
}

impl OutpointHash {
    /// Commits to a revealed outpoint: double SHA-256 of the preimage.
    pub fn commit(reveal: &OutpointReveal) -> (r: OutpointHash)
        ensures
            r.0@ == sha256d_of(outpoint_preimage(reveal.blinding, reveal.txid@, reveal.vout)),
    {
        let mut buf: Vec<u8> = Vec::new();
        push_be(&mut buf, reveal.blinding, 8);
        append_bytes(&mut buf, &reveal.txid);
        push_be(&mut buf, reveal.vout as u64, 4);
        OutpointHash(sha256d_bytes(buf.as_slice()))
    }

    /// Blinds an outpoint with a fresh random factor.
    pub fn from_outpoint(txid: [u8; 32], vout: u32) -> (r: OutpointHash)
        ensures
            exists|b: u64| r.0@ == sha256d_of(outpoint_preimage(b, txid@, vout)),
    {
        OutpointReveal::from_outpoint(txid, vout).commit_conceal()
    }
}

/// The bytes that are hashed: blinding and output number big-endian, the
/// transaction id between them.
pub open spec fn outpoint_preimage(blinding: u64, txid: Seq<u8>, vout: u32) -> Seq<u8> {
    be_bytes(blinding as nat, 8) + txid + be_bytes(vout as nat, 4)
}

impl OutpointReveal {
    /// An outpoint hidden by the given blinding factor.
    pub fn with_blinding(txid: [u8; 32], vout: u32, blinding: u64) -> (r: OutpointReveal)
        ensures
            r.txid == txid,
            r.vout == vout,
            r.blinding == blinding,
    {
        OutpointReveal { blinding, txid, vout }
    }

    /// An outpoint hidden by a fresh random blinding factor.
    pub fn from_outpoint(txid: [u8; 32], vout: u32) -> (r: OutpointReveal)
        ensures
            r.txid == txid,
            r.vout == vout,
    {
        let blinding = crate::tree::random_entropy();
        OutpointReveal { blinding, txid, vout }
    }

    /// The transaction id and output number that are hidden.
    pub fn outpoint(&self) -> (r: ([u8; 32], u32))
        ensures
            r == (self.txid, self.vout),
    {
        (self.txid, self.vout)
    }

    /// The blinded form of this outpoint.
    pub fn outpoint_hash(&self) -> (r: OutpointHash)
        ensures
            r.0@ == sha256d_of(outpoint_preimage(self.blinding, self.txid@, self.vout)),
    {
        OutpointHash::commit(self)
    }

    /// The concealed form: the blinded hash.
    pub fn commit_conceal(&self) -> (r: OutpointHash)
        ensures
            r.0@ == sha256d_of(outpoint_preimage(self.blinding, self.txid@, self.vout)),
    {
        self.outpoint_hash()
    }
}

} // verus!
