use std::collections::{BTreeMap, BTreeSet};

use mpc_tree::{protocol_id_pos, Error, MerkleTree, Message, MultiSource, ProtocolId, TAG};

fn make_random_messages(no: u32) -> BTreeMap<ProtocolId, Message> {
    let mut msgs = BTreeMap::new();
    for _ in 0..no {
        let low: u128 = rand::random::<u128>();
        let mut protocol_id = [0u8; 32];
        protocol_id[..16].copy_from_slice(&low.to_le_bytes());
        let msg = rand::random::<u8>();
        msgs.insert(protocol_id, [msg; 32]);
    }
    msgs
}

fn source_of(msgs: &BTreeMap<ProtocolId, Message>, static_entropy: Option<u64>) -> MultiSource {
    let mut src = MultiSource::new(0, static_entropy);
    for (pid, msg) in msgs {
        src.insert(*pid, *msg);
    }
    src
}

fn make_random_tree(msgs: &BTreeMap<ProtocolId, Message>) -> MerkleTree {
    MerkleTree::try_commit(&source_of(msgs, None)).unwrap()
}

fn stored_message(tree: &MerkleTree, pid: &ProtocolId) -> Option<Message> {
    tree.messages.iter().find(|(p, _)| p == pid).map(|(_, m)| *m)
}

fn sha256_raw(data: &[u8]) -> [u8; 32] {
    let h = <bitcoin::hashes::sha256::Hash as bitcoin::hashes::Hash>::hash(data);
    bitcoin::hashes::Hash::to_byte_array(h)
}

#[test]
#[should_panic(expected = "Empty")]
fn tree_empty() {
    let msgs = make_random_messages(0);
    make_random_tree(&msgs);
}

#[test]
fn tree_sizing() {
    for size in 1..16 {
        let msgs = make_random_messages(size);
        make_random_tree(&msgs);
    }
    for exp in 5..=8 {
        let size = 2u32.pow(exp);

        let msgs = make_random_messages(size);
        make_random_tree(&msgs);

        let msgs = make_random_messages(size - 9);
        make_random_tree(&msgs);

        let msgs = make_random_messages(size + 13);
        make_random_tree(&msgs);
    }
}

#[test]
fn tree_huge() {
    let count = 1_048_576 / 128;
    let msgs = make_random_messages(count);
    let tree = make_random_tree(&msgs);
    println!(
        "Tree with {} protocol-messages: depth {}, cofactor {}",
        count, tree.depth, tree.cofactor
    );
}

#[test]
fn tree_structure() {
    let msgs = make_random_messages(9);
    let tree = make_random_tree(&msgs);
    assert!(tree.depth() > 3);
    assert!(tree.width() > 9);
    let mut set = BTreeSet::<u32>::new();
    for (pid, msg) in msgs {
        let pos = tree.protocol_id_pos(pid);
        assert!(set.insert(pos));
        assert_eq!(stored_message(&tree, &pid), Some(msg));
    }
}

#[test]
fn tree_conceal() {
    let msgs = make_random_messages(9);
    let tree = make_random_tree(&msgs);
    assert_eq!(tree.conceal(), tree.root());
}

#[test]
fn tree_id() {
    let msgs = make_random_messages(9);
    let tree = make_random_tree(&msgs);
    let id = tree.commitment_id();
    let root = tree.root();

    let enc1 = tree.commit_encode();
    let enc2 = root.to_vec();
    // Commitment encoding must be equal to the value of the Merkle root
    assert_eq!(enc1, enc2);

    let tag_digest = sha256_raw(&TAG);
    let mut engine = Vec::new();
    engine.extend_from_slice(&tag_digest);
    engine.extend_from_slice(&tag_digest);
    engine.extend_from_slice(&root);
    let cmt = sha256_raw(&engine);
    // Commitment id must be equal to the tag-hashed Merkle tree root
    assert_eq!(&id, &cmt);
}

#[test]
fn tree_id_entropy() {
    let msgs = make_random_messages(9);
    let mut tree = make_random_tree(&msgs);
    let id1 = tree.commitment_id();

    tree.entropy = loop {
        let entropy = rand::random();
        if entropy != tree.entropy {
            break entropy;
        }
    };
    let id2 = tree.commitment_id();

    assert_ne!(id1, id2);
}

#[test]
fn scalability() {
    let mut depths = vec![];
    let mut cofacs = vec![];
    for _ in 0..10 {
        let msgs = make_random_messages(500);
        let tree = make_random_tree(&msgs);
        depths.push(tree.depth);
        cofacs.push(tree.cofactor);
    }
    let davg = depths.iter().map(|v| *v as u32).sum::<u32>() as f32 / 10f32;
    println!("Depth: avg={davg:.2} {depths:?}");
    println!("Cofactors: {cofacs:?}");
    assert!(davg <= 15f32);
}
