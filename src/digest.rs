//! Hashing: SHA-256, tag-hashing and the reduction of leaves to one node.

use vstd::prelude::*;

verus! {

/// What SHA-256 gives for `data`.
pub uninterp spec fn sha256_of(data: Seq<u8>) -> Seq<u8>;

/// Relies on bitcoin_hashes' `sha256::Hash::hash`: the SHA-256 digest of
/// `data`, as 32 bytes.
#[verifier::external_body]
fn sha256_bytes(data: &[u8]) -> (r: [u8; 32])
    ensures
        r@ == sha256_of(data@),
{
    let h = <bitcoin::hashes::sha256::Hash as bitcoin::hashes::Hash>::hash(data);
    bitcoin::hashes::Hash::to_byte_array(h)
}

/// The SHA-256 digest of `data`.
pub fn sha256(data: &Vec<u8>) -> (r: [u8; 32])
    ensures
        r@ == sha256_of(data@),
{
    sha256_bytes(data.as_slice())
}

/// Appends `s` to `v`.
pub fn append_bytes(v: &mut Vec<u8>, s: &[u8])
    ensures
        final(v)@ == old(v)@ + s@,
{
    let mut i: usize = 0;
    while i < s.len()
        invariant
            i <= s@.len(),
            v@ == old(v)@ + s@.subrange(0, i as int),
        decreases s@.len() - i,
    {
        v.push(s[i]);
        i = i + 1;
        assert(s@.subrange(0, i as int) == s@.subrange(0, i - 1 as int).push(s@[i - 1]));
    }
    assert(s@.subrange(0, s@.len() as int) == s@);
}

/// Tag-hash: SHA-256 over the digest of the tag, twice, followed by `msg`.
pub open spec fn tag_hash_of(tag: Seq<u8>, msg: Seq<u8>) -> Seq<u8> {
    sha256_of(sha256_of(tag) + sha256_of(tag) + msg)
}

/// Tag-hashes `msg` under `tag`.
pub fn tag_hash(tag: &[u8], msg: &[u8]) -> (r: [u8; 32])
    ensures
        r@ == tag_hash_of(tag@, msg@),
{
    let mut t: Vec<u8> = Vec::new();
    append_bytes(&mut t, tag);
    let th = sha256(&t);
    let mut buf: Vec<u8> = Vec::new();
    append_bytes(&mut buf, &th);
    append_bytes(&mut buf, &th);
    append_bytes(&mut buf, msg);
    proof {
        assert(t@ == tag@);
    }
    sha256(&buf)
}

/// An inner node over two children, under the tree's tag.
pub open spec fn node_of(tag: Seq<u8>, left: Seq<u8>, right: Seq<u8>) -> Seq<u8> {
    sha256_of(tag + left + right)
}

/// One level up: each pair of neighbours joined, a last odd node paired with
/// itself.
pub open spec fn level_up(tag: Seq<u8>, s: Seq<Seq<u8>>) -> Seq<Seq<u8>> {
    Seq::new(
        ((s.len() + 1) / 2) as nat,
        |i: int|
            node_of(
                tag,
                s[2 * i],
                if 2 * i + 1 < s.len() {
                    s[2 * i + 1]
                } else {
                    s[2 * i]
                },
            ),
    )
}

/// The root of the Merkle tree over `s`; the empty sequence has no node and
/// yields an empty one.
pub open spec fn merkle_root(tag: Seq<u8>, s: Seq<Seq<u8>>) -> Seq<u8>
    decreases s.len(),
{
    if s.len() == 0 {
        Seq::empty()
    } else if s.len() == 1 {
        s[0]
    } else {
        merkle_root(tag, level_up(tag, s))
    }
}

/// The views of a sequence of nodes.
pub open spec fn views(s: Seq<[u8; 32]>) -> Seq<Seq<u8>> {
    s.map_values(|a: [u8; 32]| a@)
}

fn node(tag: &[u8], left: &[u8; 32], right: &[u8; 32]) -> (r: [u8; 32])
    ensures
        r@ == node_of(tag@, left@, right@),
{
    let mut buf: Vec<u8> = Vec::new();
    append_bytes(&mut buf, tag);
    append_bytes(&mut buf, left);
    append_bytes(&mut buf, right);
    sha256(&buf)
}

/// Reduces a non-empty sequence of leaves to its Merkle root.
pub fn merklize(tag: &[u8], leaves: Vec<[u8; 32]>) -> (r: [u8; 32])
    requires
        leaves@.len() > 0,
    ensures
        r@ == merkle_root(tag@, views(leaves@)),
{
    let mut cur = leaves;
    while cur.len() > 1
        invariant
            cur@.len() > 0,
            merkle_root(tag@, views(cur@)) == merkle_root(tag@, views(leaves@)),
        decreases cur@.len(),
    {
        let n = cur.len();
        let mut next: Vec<[u8; 32]> = Vec::new();
        let pairs: usize = n / 2 + n % 2;
        let mut j: usize = 0;
        while j < pairs
            invariant
                n == cur@.len(),
                n > 1,
                pairs == (n + 1) / 2,
                j <= pairs,
                next@.len() == j,
                forall|k: int|
                    0 <= k < next@.len() ==> #[trigger] next@[k]@ == level_up(
                        tag@,
                        views(cur@),
                    )[k],
            decreases pairs - j,
        {
            let i: usize = 2 * j;
            let right: &[u8; 32] = if i + 1 < n {
                &cur[i + 1]
            } else {
                &cur[i]
            };
            let h = node(tag, &cur[i], right);
            next.push(h);
            j = j + 1;
        }
        proof {
            assert(views(next@) =~= level_up(tag@, views(cur@)));
        }
        cur = next;
    }
    cur[0]
}

} // verus!
