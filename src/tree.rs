//! The multi-protocol Merkle tree: its construction by a bounded search over
//! depth and cofactor, its root and its commitment id.

use std::collections::BTreeMap;

use crate::digest::{append_bytes, merkle_root, merklize, sha256, sha256_of, tag_hash, tag_hash_of, views};
use crate::position::{pos_of, protocol_id_pos, Message, ProtocolId};
use vstd::arithmetic::power2::{lemma2_to64, lemma_pow2_strictly_increases, lemma_pow2_unfold, pow2};
use vstd::prelude::*;

verus! {

broadcast use vstd::laws_cmp::group_laws_cmp, vstd::std_specs::btree::group_btree_axioms;

/// Number of cofactors tried at one depth, at most, past the first.
pub const COFACTOR_ATTEMPTS: u16 = 500;

/// The deepest tree that can be built.
pub const MAX_DEPTH: u8 = 31;

/// Failures of building a tree.
#[derive(Clone, Copy, PartialEq, Eq, Structural, Debug, Hash)]
pub enum Error {
    /// No messages and a zero minimal depth.
    Empty,
    /// More messages than the widest tree has leaves.
    TooManyMessages(usize),
    /// No depth and cofactor within the bounds place the messages on
    /// distinct leaves.
    CantFitInMaxSlots(usize),
}

/// What a tree is built from.
pub struct MultiSource {
    /// The messages, by their protocol.
    pub messages: Vec<(ProtocolId, Message)>,
    /// The smallest depth the tree may have.
    pub min_depth: u8,
    /// Entropy for the placeholder leaves; a random one is drawn where absent.
    pub static_entropy: Option<u64>,
}

/// A built tree.
#[derive(Clone, Debug)]
pub struct MerkleTree {
    /// Depth of the tree, the base-2 logarithm of its width.
    pub depth: u8,
    /// Entropy from which the placeholder leaves are derived.
    pub entropy: u64,
    /// Narrows the modulus of the slot reduction.
    pub cofactor: u16,
    /// The messages committed to, by their protocol.
    pub messages: Vec<(ProtocolId, Message)>,
    /// The inhabited leaves, by slot.
    pub map: BTreeMap<u32, (ProtocolId, Message)>,
}

/// The slot of `id` among `width` leaves under `cofactor`.
pub open spec fn slot(id: Seq<u8>, cofactor: int, width: int) -> u32 {
    pos_of(id, cofactor, width) as u32
}

/// The largest number of messages that a tree takes.
pub open spec fn max_messages() -> nat {
    pow2(31)
}

/// No two entries of `s` land on one slot.
pub open spec fn fits(s: Seq<(ProtocolId, Message)>, cofactor: int, width: int) -> bool {
    forall|a: int, b: int|
        0 <= a < s.len() && 0 <= b < s.len() && a != b ==> slot(s[a].0@, cofactor, width) != slot(
            s[b].0@,
            cofactor,
            width,
        )
}

/// Each entry of `s` stored at its slot, in order, a later one over an
/// earlier.
pub open spec fn placement(s: Seq<(ProtocolId, Message)>, cofactor: int, width: int) -> Map<
    u32,
    (ProtocolId, Message),
>
    decreases s.len(),
{
    if s.len() == 0 {
        Map::empty()
    } else {
        placement(s.drop_last(), cofactor, width).insert(
            slot(s.last().0@, cofactor, width),
            s.last(),
        )
    }
}

/// The largest cofactor tried at depth `d` of a search that starts at
/// `min_depth`: the width of the depth before, one at the first, and never
/// past the number of attempts.
pub open spec fn cofactor_limit(min_depth: nat, d: nat) -> nat {
    let prev = if d == min_depth {
        1
    } else {
        pow2((d - 1) as nat)
    };
    if prev < COFACTOR_ATTEMPTS as nat {
        prev
    } else {
        COFACTOR_ATTEMPTS as nat
    }
}

/// Depth `d` is wide enough and some cofactor in range places all of `s`.
pub open spec fn depth_fits(s: Seq<(ProtocolId, Message)>, min_depth: nat, d: nat) -> bool {
    &&& pow2(d) >= s.len()
    &&& exists|c: int|
        0 <= c <= cofactor_limit(min_depth, d) && #[trigger] fits(s, c, pow2(d) as int)
}

impl MultiSource {
    /// Keys unique and the minimal depth in range.
    pub open spec fn wf(&self) -> bool {
        &&& self.min_depth <= MAX_DEPTH
        &&& forall|a: int, b: int|
            0 <= a < self.messages@.len() && 0 <= b < self.messages@.len() && a != b
                ==> self.messages@[a].0@ != self.messages@[b].0@
    }
}

impl MerkleTree {
    /// The number of leaves.
    pub open spec fn width_spec(&self) -> nat {
        pow2(self.depth as nat)
    }

    /// Depth in range, every message on a slot of its own, and the slot map
    /// exactly the placement of the messages.
    pub open spec fn wf(&self) -> bool {
        &&& self.depth <= MAX_DEPTH
        &&& self.messages@.len() <= self.width_spec()
        &&& fits(self.messages@, self.cofactor as int, self.width_spec() as int)
        &&& self.map@ == placement(
            self.messages@,
            self.cofactor as int,
            self.width_spec() as int,
        )
    }
}

/// What building a tree from `messages`, `min_depth` and `static_entropy`
/// returns: the first error that applies, else the tree of the least depth
/// that fits and, at that depth, the least cofactor.
pub open spec fn commit_outcome(
    messages: Seq<(ProtocolId, Message)>,
    min_depth: nat,
    static_entropy: Option<u64>,
    r: Result<MerkleTree, Error>,
) -> bool {
    let n = messages.len();
    let empty = min_depth == 0 && n == 0;
    match r {
        Err(Error::Empty) => empty,
        Err(Error::TooManyMessages(k)) => !empty && k == n && n > max_messages(),
        Err(Error::CantFitInMaxSlots(k)) => {
            &&& !empty
            &&& k == n
            &&& n <= max_messages()
            &&& forall|d: nat| min_depth <= d <= MAX_DEPTH ==> !#[trigger] depth_fits(messages, min_depth, d)
        },
        Ok(t) => {
            &&& !empty
            &&& n <= max_messages()
            &&& min_depth <= t.depth <= MAX_DEPTH
            &&& depth_fits(messages, min_depth, t.depth as nat)
            &&& forall|d: nat| min_depth <= d < t.depth ==> !#[trigger] depth_fits(messages, min_depth, d)
            &&& t.cofactor <= cofactor_limit(min_depth, t.depth as nat)
            &&& forall|c: int| 0 <= c < t.cofactor ==> !#[trigger] fits(messages, c, t.width_spec() as int)
            &&& t.messages@ == messages
            &&& t.wf()
            &&& static_entropy matches Some(e) ==> t.entropy == e
        },
    }
}

/// A slot is taken in the placement of `s` exactly when some entry lands on it.
pub proof fn lemma_placement_dom(s: Seq<(ProtocolId, Message)>, cofactor: int, width: int, p: u32)
    ensures
        placement(s, cofactor, width).contains_key(p) <==> exists|a: int|
            0 <= a < s.len() && #[trigger] slot(s[a].0@, cofactor, width) == p,
    decreases s.len(),
{
    if s.len() > 0 {
        let t = s.drop_last();
        lemma_placement_dom(t, cofactor, width, p);
        if placement(s, cofactor, width).contains_key(p) {
            if slot(s.last().0@, cofactor, width) == p {
                assert(slot(s[s.len() - 1].0@, cofactor, width) == p);
            } else {
                let a = choose|a: int| 0 <= a < t.len() && #[trigger] slot(t[a].0@, cofactor, width) == p;
                assert(s[a] == t[a]);
            }
        }
        if exists|a: int| 0 <= a < s.len() && #[trigger] slot(s[a].0@, cofactor, width) == p {
            let a = choose|a: int| 0 <= a < s.len() && #[trigger] slot(s[a].0@, cofactor, width) == p;
            if a < s.len() - 1 {
                assert(t[a] == s[a]);
            }
        }
    }
}

/// Where the entries of `s` land on distinct slots, each is found at its slot.
pub proof fn lemma_placement_at(s: Seq<(ProtocolId, Message)>, cofactor: int, width: int, i: int)
    requires
        fits(s, cofactor, width),
        0 <= i < s.len(),
    ensures
        placement(s, cofactor, width).contains_key(slot(s[i].0@, cofactor, width)),
        placement(s, cofactor, width)[slot(s[i].0@, cofactor, width)] == s[i],
    decreases s.len(),
{
    let t = s.drop_last();
    if i < s.len() - 1 {
        assert(fits(t, cofactor, width)) by {
            assert forall|a: int, b: int|
                0 <= a < t.len() && 0 <= b < t.len() && a != b implies slot(t[a].0@, cofactor, width)
                != slot(t[b].0@, cofactor, width) by {
                assert(t[a] == s[a] && t[b] == s[b]);
            }
        }
        lemma_placement_at(t, cofactor, width, i);
        assert(t[i] == s[i]);
        assert(slot(s[i].0@, cofactor, width) != slot(s[s.len() - 1].0@, cofactor, width));
    }
}

/// Relies on rand's `random::<u64>`: a fresh random 64-bit value, of which
/// nothing is promised.
#[verifier::external_body]
pub(crate) fn random_entropy() -> (r: u64) {
    rand::random::<u64>()
}

/// Places every message at its slot under `cofactor` and `width`; `None` where
/// two of them land on one slot.
fn place(
    messages: &Vec<(ProtocolId, Message)>,
    cofactor: u16,
    width: u32,
) -> (r: Option<BTreeMap<u32, (ProtocolId, Message)>>)
    requires
        width > 0,
    ensures
        r is Some <==> fits(messages@, cofactor as int, width as int),
        r matches Some(m) ==> m@ == placement(messages@, cofactor as int, width as int),
{
    let mut map: BTreeMap<u32, (ProtocolId, Message)> = BTreeMap::new();
    let mut i: usize = 0;
    while i < messages.len()
        invariant
            width > 0,
            i <= messages@.len(),
            fits(messages@.take(i as int), cofactor as int, width as int),
            map@ == placement(messages@.take(i as int), cofactor as int, width as int),
        decreases messages@.len() - i,
    {
        let (protocol, message) = messages[i];
        let pos = protocol_id_pos(protocol, cofactor, width);
        let ghost s = messages@.take(i as int);
        let ghost s1 = messages@.take(i + 1 as int);
        proof {
            assert(s1.drop_last() =~= s);
            assert(pos == slot(protocol@, cofactor as int, width as int));
            lemma_placement_dom(s, cofactor as int, width as int, pos);
        }
        if map.insert(pos, (protocol, message)).is_some() {
            proof {
                let a = choose|a: int|
                    0 <= a < s.len() && #[trigger] slot(s[a].0@, cofactor as int, width as int)
                        == pos;
                assert(messages@[a] == s[a]);
                assert(slot(messages@[a].0@, cofactor as int, width as int) == slot(
                    messages@[i as int].0@,
                    cofactor as int,
                    width as int,
                ));
            }
            return None;
        }
        proof {
            assert forall|a: int, b: int|
                0 <= a < s1.len() && 0 <= b < s1.len() && a != b implies slot(
                s1[a].0@,
                cofactor as int,
                width as int,
            ) != slot(s1[b].0@, cofactor as int, width as int) by {
                if a < i && b < i {
                    assert(s1[a] == s[a] && s1[b] == s[b]);
                } else if a < i {
                    assert(s1[a] == s[a]);
                } else if b < i {
                    assert(s1[b] == s[b]);
                }
            }
        }
        i = i + 1;
    }
    proof {
        assert(messages@.take(messages@.len() as int) =~= messages@);
    }
    Some(map)
}

impl MerkleTree {
    /// Builds the tree of the least depth, from `source.min_depth` up, and
    /// at that depth of the least cofactor, that puts every message on a leaf
    /// of its own.
    #[verifier::loop_isolation(false)]
    pub fn try_commit(source: &MultiSource) -> (r: Result<MerkleTree, Error>)
        requires
            source.min_depth <= MAX_DEPTH,
        ensures
            commit_outcome(source.messages@, source.min_depth as nat, source.static_entropy, r),
    {
        let msg_count = source.messages.len();
        proof {
            lemma2_to64();
        }
        if source.min_depth == 0 && msg_count == 0 {
            return Err(Error::Empty);
        }
        if msg_count > 0x8000_0000 {
            return Err(Error::TooManyMessages(msg_count));
        }
        let entropy = match source.static_entropy {
            Some(e) => e,
            None => random_entropy(),
        };
        let ghost s = source.messages@;
        let ghost md = source.min_depth as nat;

        let mut depth: u8 = 0;
        let mut width: u32 = 1;
        while depth < source.min_depth
            invariant
                depth <= source.min_depth <= MAX_DEPTH,
                width as nat == pow2(depth as nat),
            decreases source.min_depth - depth,
        {
            proof {
                lemma2_to64();
                lemma_pow2_unfold((depth + 1) as nat);
                if depth + 1 < 31 {
                    lemma_pow2_strictly_increases((depth + 1) as nat, 31);
                }
            }
            width = width * 2;
            depth = depth + 1;
        }
        let mut prev_width: u32 = 1;
        loop
            invariant
                s == source.messages@,
                md == source.min_depth,
                md <= depth <= MAX_DEPTH,
                width as nat == pow2(depth as nat),
                prev_width as nat == (if depth == md {
                    1
                } else {
                    pow2((depth - 1) as nat)
                }),
                msg_count == s.len(),
                0 < s.len() || 0 < md,
                s.len() <= max_messages(),
                static_entropy_ok(source.static_entropy, entropy),
                forall|d: nat| md <= d < depth ==> !#[trigger] depth_fits(s, md, d),
            decreases MAX_DEPTH - depth,
        {
            proof {
                vstd::arithmetic::power2::lemma_pow2_pos(depth as nat);
            }
            let limit: u16 = if prev_width < COFACTOR_ATTEMPTS as u32 {
                prev_width as u16
            } else {
                COFACTOR_ATTEMPTS
            };
            if width as usize >= msg_count {
                let mut cofactor: u16 = 0;
                while cofactor <= limit
                    invariant
                        width > 0,
                        limit <= COFACTOR_ATTEMPTS,
                        limit as nat == cofactor_limit(md, depth as nat),
                        width as nat == pow2(depth as nat),
                        s == source.messages@,
                        cofactor <= limit + 1,
                        forall|c: int| 0 <= c < cofactor ==> !#[trigger] fits(s, c, width as int),
                    decreases limit + 1 - cofactor,
                {
                    if let Some(map) = place(&source.messages, cofactor, width) {
                        let tree = MerkleTree {
                            depth,
                            entropy,
                            cofactor,
                            messages: copy_messages(&source.messages),
                            map,
                        };
                        proof {
                            assert(tree.messages@ == s);
                            assert(fits(s, cofactor as int, pow2(depth as nat) as int));
                            assert(depth_fits(s, md, depth as nat));
                        }
                        return Ok(tree);
                    }
                    cofactor = cofactor + 1;
                }
            }
            proof {
                assert(!depth_fits(s, md, depth as nat));
            }
            if depth == MAX_DEPTH {
                return Err(Error::CantFitInMaxSlots(msg_count));
            }
            proof {
                lemma2_to64();
                lemma_pow2_unfold((depth + 1) as nat);
                if depth + 1 < 31 {
                    lemma_pow2_strictly_increases((depth + 1) as nat, 31);
                }
            }
            prev_width = width;
            width = width * 2;
            depth = depth + 1;
        }
    }
}

fn copy_messages(v: &Vec<(ProtocolId, Message)>) -> (r: Vec<(ProtocolId, Message)>)
    ensures
        r@ == v@,
{
    let mut r: Vec<(ProtocolId, Message)> = Vec::new();
    let mut i: usize = 0;
    while i < v.len()
        invariant
            i <= v@.len(),
            r@ == v@.take(i as int),
        decreases v@.len() - i,
    {
        r.push(v[i]);
        i = i + 1;
        assert(r@ =~= v@.take(i as int));
    }
    assert(v@.take(v@.len() as int) =~= v@);
    r
}

spec fn static_entropy_ok(static_entropy: Option<u64>, entropy: u64) -> bool {
    static_entropy matches Some(e) ==> entropy == e
}


/// Tag of the Merkle hashing of this tree: a 64-bit big-endian constant.
pub const MERKLE_TAG: [u8; 8] = [108, 110, 112, 98, 112, 48, 48, 52];

/// Tag of the commitment id.
pub const TAG: [u8; 32] = [
    117, 114, 110, 58, 108, 110, 112, 98, 112, 58, 108, 110, 112, 98, 112, 48, 48, 48, 52, 58,
    116, 114, 101, 101, 58, 118, 48, 49, 35, 50, 51, 65,
];

/// The `n` least significant bytes of `x`, least significant first.
pub open spec fn le_bytes(x: nat, n: nat) -> Seq<u8>
    decreases n,
{
    if n == 0 {
        Seq::empty()
    } else {
        seq![(x % 256) as u8] + le_bytes(x / 256, (n - 1) as nat)
    }
}

/// Appends the `n` least significant bytes of `x` to `v`.
fn push_le(v: &mut Vec<u8>, x: u64, n: usize)
    ensures
        final(v)@ == old(v)@ + le_bytes(x as nat, n as nat),
{
    let mut cur: u64 = x;
    let mut i: usize = 0;
    while i < n
        invariant
            i <= n,
            v@ + le_bytes(cur as nat, (n - i) as nat) == old(v)@ + le_bytes(x as nat, n as nat),
        decreases n - i,
    {
        let ghost before = v@;
        let ghost rest = le_bytes((cur / 256) as nat, (n - i - 1) as nat);
        assert(le_bytes(cur as nat, (n - i) as nat) == seq![(cur % 256) as u8] + rest);
        v.push((cur % 256) as u8);
        assert(v@ + rest =~= before + (seq![(cur % 256) as u8] + rest));
        cur = cur / 256;
        i = i + 1;
    }
}

/// The leaf of an inhabited slot.
pub open spec fn inhabited_leaf(protocol: Seq<u8>, message: Seq<u8>) -> Seq<u8> {
    sha256_of(MERKLE_TAG@ + seq![0u8] + protocol + message)
}

/// The placeholder leaf of an empty slot, from the entropy and the slot.
pub open spec fn entropy_leaf(entropy: u64, pos: u32) -> Seq<u8> {
    sha256_of(MERKLE_TAG@ + seq![1u8] + le_bytes(entropy as nat, 8) + le_bytes(pos as nat, 4))
}

impl MerkleTree {
    /// The leaf at `pos`: the message placed there, else a placeholder.
    pub open spec fn leaf_view(&self, pos: u32) -> Seq<u8> {
        if self.map@.contains_key(pos) {
            inhabited_leaf(self.map@[pos].0@, self.map@[pos].1@)
        } else {
            entropy_leaf(self.entropy, pos)
        }
    }

    /// All the leaves, slot by slot.
    pub open spec fn leaves_view(&self) -> Seq<Seq<u8>> {
        Seq::new(self.width_spec(), |i: int| self.leaf_view(i as u32))
    }

    /// The Merkle root of the leaves.
    pub open spec fn root_view(&self) -> Seq<u8> {
        merkle_root(MERKLE_TAG@, self.leaves_view())
    }

    /// What concealing the tree leaves visible.
    pub open spec fn concealed_view(&self) -> Seq<u8> {
        self.root_view()
    }

    /// The bytes that the commitment id is taken over.
    pub open spec fn commit_encoding_view(&self) -> Seq<u8> {
        node_encoding_of(self.concealed_view())
    }

    /// The commitment id.
    pub open spec fn commitment_id_view(&self) -> Seq<u8> {
        tag_hash_of(TAG@, self.commit_encoding_view())
    }

    fn leaf(&self, pos: u32) -> (r: [u8; 32])
        ensures
            r@ == self.leaf_view(pos),
    {
        let mut buf: Vec<u8> = Vec::new();
        append_bytes(&mut buf, &MERKLE_TAG);
        match self.map.get(&pos) {
            Some(entry) => {
                buf.push(0u8);
                append_bytes(&mut buf, &entry.0);
                append_bytes(&mut buf, &entry.1);
                proof {
                    assert(buf@ =~= MERKLE_TAG@ + seq![0u8] + entry.0@ + entry.1@);
                }
            },
            None => {
                buf.push(1u8);
                push_le(&mut buf, self.entropy, 8);
                push_le(&mut buf, pos as u64, 4);
                proof {
                    assert(buf@ =~= MERKLE_TAG@ + seq![1u8] + le_bytes(self.entropy as nat, 8)
                        + le_bytes(pos as nat, 4));
                }
            },
        }
        sha256(&buf)
    }

    /// The Merkle root over all the leaves, inhabited or placeholders.
    pub fn root(&self) -> (r: [u8; 32])
        requires
            self.depth <= MAX_DEPTH,
        ensures
            r@ == self.root_view(),
    {
        let width = self.width();
        let mut leaves: Vec<[u8; 32]> = Vec::new();
        let mut pos: u32 = 0;
        while pos < width
            invariant
                width as nat == self.width_spec(),
                pos <= width,
                views(leaves@) =~= self.leaves_view().take(pos as int),
            decreases width - pos,
        {
            let l = self.leaf(pos);
            let ghost before = leaves@;
            leaves.push(l);
            proof {
                assert(self.leaves_view()[pos as int] == self.leaf_view(pos));
                assert(leaves@ == before.push(l));
                assert(views(leaves@) =~= views(before).push(l@));
                assert(self.leaves_view().take(pos + 1 as int) =~= self.leaves_view().take(
                    pos as int,
                ).push(self.leaf_view(pos)));
            }
            pos = pos + 1;
        }
        proof {
            vstd::arithmetic::power2::lemma_pow2_pos(self.depth as nat);
            assert(self.leaves_view().take(width as int) =~= self.leaves_view());
        }
        merklize(&MERKLE_TAG, leaves)
    }

    /// The concealed form of the tree: its root.
    pub fn conceal(&self) -> (r: [u8; 32])
        requires
            self.depth <= MAX_DEPTH,
        ensures
            r@ == self.concealed_view(),
    {
        self.root()
    }

    /// The canonical bytes that the commitment is taken over: those of the
    /// concealed form alone.
    pub fn commit_encode(&self) -> (r: Vec<u8>)
        requires
            self.depth <= MAX_DEPTH,
        ensures
            r@ == self.commit_encoding_view(),
    {
        let root = self.conceal();
        node_encode(&root)
    }

    /// The commitment id: the root tag-hashed under the tree's tag.
    pub fn commitment_id(&self) -> (r: [u8; 32])
        requires
            self.depth <= MAX_DEPTH,
        ensures
            r@ == self.commitment_id_view(),
            r@ == tag_hash_of(TAG@, self.root_view()),
    {
        let enc = self.commit_encode();
        tag_hash(&TAG, enc.as_slice())
    }

    /// The position of `protocol_id` under this tree's cofactor and width.
    pub fn protocol_id_pos(&self, protocol_id: ProtocolId) -> (r: u32)
        requires
            self.depth <= MAX_DEPTH,
        ensures
            r == slot(protocol_id@, self.cofactor as int, self.width_spec() as int),
            (r as nat) < self.width_spec(),
    {
        let w = self.width();
        proof {
            vstd::arithmetic::power2::lemma_pow2_pos(self.depth as nat);
        }
        protocol_id_pos(protocol_id, self.cofactor, w)
    }

    /// The number of leaves, two to the power of the depth.
    pub fn width(&self) -> (r: u32)
        requires
            self.depth <= MAX_DEPTH,
        ensures
            r as nat == self.width_spec(),
    {
        pow2_u32(self.depth)
    }

    /// The depth of the tree.
    pub fn depth(&self) -> (r: u8)
        ensures
            r == self.depth,
    {
        self.depth
    }

    /// The entropy of the placeholder leaves.
    pub fn entropy(&self) -> (r: u64)
        ensures
            r == self.entropy,
    {
        self.entropy
    }

    /// The cofactor of the slot reduction.
    pub fn cofactor(&self) -> (r: u16)
        ensures
            r == self.cofactor,
    {
        self.cofactor
    }
}

/// The canonical encoding of a node: its 32 bytes as they are.
pub open spec fn node_encoding_of(node: Seq<u8>) -> Seq<u8> {
    node
}

/// Encodes a node canonically.
pub fn node_encode(node: &[u8; 32]) -> (r: Vec<u8>)
    ensures
        r@ == node_encoding_of(node@),
{
    let mut r: Vec<u8> = Vec::new();
    append_bytes(&mut r, node);
    r
}

/// Two to the power of `d`.
fn pow2_u32(d: u8) -> (r: u32)
    requires
        d <= MAX_DEPTH,
    ensures
        r as nat == pow2(d as nat),
{
    let mut r: u32 = 1;
    let mut i: u8 = 0;
    proof {
        lemma2_to64();
    }
    while i < d
        invariant
            i <= d <= MAX_DEPTH,
            r as nat == pow2(i as nat),
        decreases d - i,
    {
        proof {
            lemma2_to64();
            lemma_pow2_unfold((i + 1) as nat);
            if i + 1 < 31 {
                lemma_pow2_strictly_increases((i + 1) as nat, 31);
            }
        }
        r = r * 2;
        i = i + 1;
    }
    r
}

/// Whenever some depth within the bounds fits a non-empty set of at most
/// `2^31` messages, building succeeds, the tree is at least as wide as the
/// number of messages, the messages take distinct slots, and each is stored
/// at the slot that the reduction gives for its protocol.
pub proof fn lemma_commit_places_all(
    messages: Seq<(ProtocolId, Message)>,
    min_depth: nat,
    static_entropy: Option<u64>,
    r: Result<MerkleTree, Error>,
)
    requires
        commit_outcome(messages, min_depth, static_entropy, r),
        0 < messages.len() <= max_messages(),
        exists|d: nat| min_depth <= d <= MAX_DEPTH && #[trigger] depth_fits(messages, min_depth, d),
    ensures
        r matches Ok(t) && {
            &&& t.width_spec() >= messages.len()
            &&& forall|i: int, j: int|
                0 <= i < messages.len() && 0 <= j < messages.len() && i != j ==> slot(
                    messages[i].0@,
                    t.cofactor as int,
                    t.width_spec() as int,
                ) != slot(messages[j].0@, t.cofactor as int, t.width_spec() as int)
            &&& forall|i: int|
                #![trigger messages[i]]
                0 <= i < messages.len() ==> t.map@.contains_key(
                    slot(messages[i].0@, t.cofactor as int, t.width_spec() as int),
                ) && t.map@[slot(messages[i].0@, t.cofactor as int, t.width_spec() as int)]
                    == messages[i]
        },
{
    if let Ok(t) = r {
        assert forall|i: int| #![trigger messages[i]] 0 <= i < messages.len() implies t.map@.contains_key(
            slot(messages[i].0@, t.cofactor as int, t.width_spec() as int),
        ) && t.map@[slot(messages[i].0@, t.cofactor as int, t.width_spec() as int)]
            == messages[i] by {
            lemma_placement_at(messages, t.cofactor as int, t.width_spec() as int, i);
        }
    }
}

/// Building with zero messages and a zero minimal depth fails with `Empty`.
pub proof fn lemma_commit_empty(
    static_entropy: Option<u64>,
    r: Result<MerkleTree, Error>,
)
    requires
        commit_outcome(Seq::empty(), 0, static_entropy, r),
    ensures
        r == Err::<MerkleTree, Error>(Error::Empty),
{
}

/// The concealed form of a tree is its root.
pub proof fn lemma_conceal_is_root(t: MerkleTree)
    ensures
        t.concealed_view() == t.root_view(),
{
}

/// The bytes that a tree commits through are the encoding of its root alone.
pub proof fn lemma_commit_encoding_is_root(t: MerkleTree)
    ensures
        t.commit_encoding_view() == node_encoding_of(t.root_view()),
{
}

/// The commitment id is the root tag-hashed under the tree's tag.
pub proof fn lemma_commitment_id_of_root(t: MerkleTree)
    ensures
        t.commitment_id_view() == tag_hash_of(TAG@, t.root_view()),
{
}

/// Two trees agree in every field that the commitment depends on.
pub open spec fn same_tree(a: MerkleTree, b: MerkleTree) -> bool {
    &&& a.depth == b.depth
    &&& a.entropy == b.entropy
    &&& a.cofactor == b.cofactor
    &&& a.messages@ == b.messages@
    &&& a.map@ == b.map@
}

/// Building twice from the same source with the same static entropy gives the
/// same result.
pub proof fn lemma_commit_deterministic(
    messages: Seq<(ProtocolId, Message)>,
    min_depth: nat,
    entropy: u64,
    r1: Result<MerkleTree, Error>,
    r2: Result<MerkleTree, Error>,
)
    requires
        commit_outcome(messages, min_depth, Some(entropy), r1),
        commit_outcome(messages, min_depth, Some(entropy), r2),
    ensures
        match (r1, r2) {
            (Ok(a), Ok(b)) => same_tree(a, b),
            (Err(e1), Err(e2)) => e1 == e2,
            _ => false,
        },
{
    match (r1, r2) {
        (Ok(a), Ok(b)) => {
            if a.depth < b.depth {
                assert(!depth_fits(messages, min_depth, a.depth as nat));
            }
            if b.depth < a.depth {
                assert(!depth_fits(messages, min_depth, b.depth as nat));
            }
            if a.cofactor < b.cofactor {
                assert(!fits(messages, a.cofactor as int, b.width_spec() as int));
            }
            if b.cofactor < a.cofactor {
                assert(!fits(messages, b.cofactor as int, a.width_spec() as int));
            }
        },
        (Ok(a), Err(e)) => {
            if e matches Error::CantFitInMaxSlots(_) {
                assert(!depth_fits(messages, min_depth, a.depth as nat));
            }
        },
        (Err(e), Ok(b)) => {
            if e matches Error::CantFitInMaxSlots(_) {
                assert(!depth_fits(messages, min_depth, b.depth as nat));
            }
        },
        _ => {},
    }
}

impl MultiSource {
    /// A source with no messages.
    pub fn new(min_depth: u8, static_entropy: Option<u64>) -> (r: MultiSource)
        requires
            min_depth <= MAX_DEPTH,
        ensures
            r.wf(),
            r.messages@.len() == 0,
            r.min_depth == min_depth,
            r.static_entropy == static_entropy,
    {
        MultiSource { messages: Vec::new(), min_depth, static_entropy }
    }

    /// Sets the message of `protocol`, in place of an earlier one of the same
    /// protocol or after the others.
    pub fn insert(&mut self, protocol: ProtocolId, message: Message)
        requires
            old(self).wf(),
        ensures
            final(self).wf(),
            final(self).min_depth == old(self).min_depth,
            final(self).static_entropy == old(self).static_entropy,
            forall|i: int|
                0 <= i < old(self).messages@.len() && old(self).messages@[i].0@ == protocol@
                    ==> final(self).messages@ == old(self).messages@.update(i, (protocol, message)),
            (forall|i: int|
                0 <= i < old(self).messages@.len() ==> old(self).messages@[i].0@ != protocol@)
                ==> final(self).messages@ == old(self).messages@.push((protocol, message)),
    {
        let mut i: usize = 0;
        while i < self.messages.len()
            invariant
                i <= self.messages@.len(),
                self.messages@ == old(self).messages@,
                self.min_depth == old(self).min_depth,
                self.static_entropy == old(self).static_entropy,
                old(self).wf(),
                forall|k: int| 0 <= k < i ==> self.messages@[k].0@ != protocol@,
            decreases self.messages@.len() - i,
        {
            if same_bytes(&self.messages[i].0, &protocol) {
                self.messages.set(i, (protocol, message));
                proof {
                    assert forall|a: int, b: int|
                        0 <= a < self.messages@.len() && 0 <= b < self.messages@.len() && a != b
                            implies self.messages@[a].0@ != self.messages@[b].0@ by {
                        assert(old(self).messages@[i as int].0@ == protocol@);
                        if a != i && b != i {
                            assert(self.messages@[a] == old(self).messages@[a]);
                            assert(self.messages@[b] == old(self).messages@[b]);
                        } else if a == i {
                            assert(self.messages@[b] == old(self).messages@[b]);
                            assert(old(self).messages@[b].0@ != old(self).messages@[a].0@);
                        } else {
                            assert(self.messages@[a] == old(self).messages@[a]);
                            assert(old(self).messages@[a].0@ != old(self).messages@[b].0@);
                        }
                    }
                }
                return;
            }
            i = i + 1;
        }
        let ghost before = self.messages@;
        self.messages.push((protocol, message));
        proof {
            assert forall|a: int, b: int|
                0 <= a < self.messages@.len() && 0 <= b < self.messages@.len() && a != b
                    implies self.messages@[a].0@ != self.messages@[b].0@ by {
                if a < before.len() {
                    assert(self.messages@[a] == before[a]);
                }
                if b < before.len() {
                    assert(self.messages@[b] == before[b]);
                }
            }
        }
    }
}

/// Whether two identifiers are equal.
fn same_bytes(a: &[u8; 32], b: &[u8; 32]) -> (r: bool)
    ensures
        r == (a@ == b@),
{
    let mut i: usize = 0;
    while i < 32
        invariant
            i <= 32,
            a@.len() == 32,
            b@.len() == 32,
            forall|k: int| 0 <= k < i ==> a@[k] == b@[k],
        decreases 32 - i,
    {
        if a[i] != b[i] {
            return false;
        }
        i = i + 1;
    }
    assert(a@ =~= b@);
    true
}

} // verus!
