use mpc_tree::{
    merklize, protocol_id_pos, sha256, tag_hash, Error, MerkleTree, MultiSource, OutpointHash,
    OutpointReveal, MERKLE_TAG, TAG,
};

fn id_of(value: u64) -> [u8; 32] {
    let mut id = [0u8; 32];
    id[..8].copy_from_slice(&value.to_le_bytes());
    id
}

#[test]
fn position_reduces_little_endian_value() {
    assert_eq!(protocol_id_pos(id_of(10), 0, 8), 2);
    assert_eq!(protocol_id_pos(id_of(10), 3, 8), 0);
    assert_eq!(protocol_id_pos(id_of(13), 1, 8), 6);
    assert_eq!(protocol_id_pos(id_of(0x0102), 0, 1024), 0x102);
}

#[test]
fn position_modulus_floors_at_one() {
    assert_eq!(protocol_id_pos(id_of(12345), 8, 8), 0);
    assert_eq!(protocol_id_pos(id_of(12345), 500, 8), 0);
}

#[test]
fn position_reads_high_bytes() {
    let mut id = [0u8; 32];
    id[31] = 1;
    // 2^248 mod 7 == 2^(248 mod 3) == 4
    assert_eq!(protocol_id_pos(id, 0, 7), 4);
}

#[test]
fn sha256_known_vector() {
    let d = sha256(&b"abc".to_vec());
    assert_eq!(
        d.iter().map(|b| format!("{b:02x}")).collect::<String>(),
        "ba7816bf8f01cfea414140de5dae2223b00361a396177a9cb410ff61f20015ad"
    );
}

#[test]
fn empty_source_fails() {
    let src = MultiSource::new(0, Some(1));
    assert_eq!(MerkleTree::try_commit(&src).unwrap_err(), Error::Empty);
}

#[test]
fn empty_source_with_depth_succeeds() {
    let src = MultiSource::new(2, Some(1));
    let tree = MerkleTree::try_commit(&src).unwrap();
    assert_eq!(tree.depth(), 2);
    assert_eq!(tree.width(), 4);
    assert_eq!(tree.cofactor(), 0);
    assert!(tree.map.is_empty());
}

#[test]
fn colliding_ids_cannot_fit() {
    let src = MultiSource {
        messages: vec![(id_of(5), [1u8; 32]), (id_of(5), [2u8; 32])],
        min_depth: 31,
        static_entropy: Some(0),
    };
    assert_eq!(MerkleTree::try_commit(&src).unwrap_err(), Error::CantFitInMaxSlots(2));
}

#[test]
fn distinct_ids_congruent_everywhere_cannot_fit() {
    // Both ids are congruent modulo 2^31 and modulo 2^31 - 1, the only two
    // moduli tried at depth 31.
    let mut src = MultiSource::new(31, Some(0));
    src.insert(id_of(0), [1u8; 32]);
    src.insert(id_of((1u64 << 62) - (1u64 << 31)), [2u8; 32]);
    assert_eq!(MerkleTree::try_commit(&src).unwrap_err(), Error::CantFitInMaxSlots(2));
}

#[test]
fn insert_replaces_same_protocol() {
    let mut src = MultiSource::new(0, None);
    src.insert(id_of(1), [1u8; 32]);
    src.insert(id_of(2), [2u8; 32]);
    src.insert(id_of(1), [3u8; 32]);
    assert_eq!(src.messages, vec![(id_of(1), [3u8; 32]), (id_of(2), [2u8; 32])]);
}

#[test]
fn smallest_depth_and_cofactor_chosen() {
    let mut src = MultiSource::new(0, Some(7));
    // 0 and 2 collide modulo 2 at depth one, so depth two is needed.
    src.insert(id_of(0), [1u8; 32]);
    src.insert(id_of(2), [2u8; 32]);
    let tree = MerkleTree::try_commit(&src).unwrap();
    assert_eq!(tree.depth(), 2);
    assert_eq!(tree.cofactor(), 0);
    assert_eq!(tree.entropy(), 7);
    assert_eq!(tree.map.get(&0), Some(&(id_of(0), [1u8; 32])));
    assert_eq!(tree.map.get(&2), Some(&(id_of(2), [2u8; 32])));
}

#[test]
fn cofactor_resolves_collision() {
    let mut src = MultiSource::new(2, Some(7));
    // Modulo 4, 1 and 5 collide; with cofactor 1 (modulo 3) they land on 1 and 2.
    src.insert(id_of(1), [1u8; 32]);
    src.insert(id_of(5), [2u8; 32]);
    let tree = MerkleTree::try_commit(&src).unwrap();
    assert_eq!(tree.depth(), 2);
    assert_eq!(tree.cofactor(), 1);
    assert_eq!(tree.protocol_id_pos(id_of(1)), 1);
    assert_eq!(tree.protocol_id_pos(id_of(5)), 2);
}

#[test]
fn single_leaf_root_and_id() {
    let mut src = MultiSource::new(0, Some(5));
    src.insert([7u8; 32], [9u8; 32]);
    let tree = MerkleTree::try_commit(&src).unwrap();
    assert_eq!(tree.depth(), 0);
    let root = tree.root();
    assert_eq!(
        root,
        [
            98, 194, 115, 169, 210, 90, 8, 112, 6, 81, 31, 115, 87, 11, 255, 120, 244, 60, 45,
            137, 234, 117, 113, 210, 174, 106, 35, 90, 112, 60, 146, 151
        ]
    );
    assert_eq!(
        tree.commitment_id(),
        [
            14, 224, 236, 210, 8, 96, 22, 215, 220, 214, 197, 60, 25, 27, 181, 21, 63, 137, 11,
            10, 229, 67, 123, 104, 143, 71, 112, 216, 204, 96, 221, 245
        ]
    );
    assert_eq!(tag_hash(&TAG, &root), tree.commitment_id());
}

#[test]
fn placeholder_leaf_root() {
    let mut src = MultiSource::new(1, Some(5));
    src.insert([7u8; 32], [9u8; 32]);
    let tree = MerkleTree::try_commit(&src).unwrap();
    assert_eq!(tree.width(), 2);
    assert_eq!(tree.protocol_id_pos([7u8; 32]), 1);
    assert_eq!(
        tree.root(),
        [
            223, 59, 50, 32, 98, 129, 94, 181, 234, 68, 86, 164, 100, 35, 34, 108, 175, 121, 124,
            121, 202, 29, 52, 47, 37, 84, 204, 59, 22, 232, 80, 144
        ]
    );
}

#[test]
fn merklize_pairs_nodes() {
    let a = [1u8; 32];
    let b = [2u8; 32];
    let mut buf = MERKLE_TAG.to_vec();
    buf.extend_from_slice(&a);
    buf.extend_from_slice(&b);
    assert_eq!(merklize(&MERKLE_TAG, vec![a, b]), sha256(&buf));
    assert_eq!(merklize(&MERKLE_TAG, vec![a]), a);
}

#[test]
fn commit_is_deterministic() {
    let build = || {
        let mut src = MultiSource::new(0, Some(42));
        for i in 0..20u64 {
            src.insert(id_of(i * 7919 + 3), [i as u8; 32]);
        }
        MerkleTree::try_commit(&src).unwrap()
    };
    let t1 = build();
    let t2 = build();
    assert_eq!(t1.depth, t2.depth);
    assert_eq!(t1.cofactor, t2.cofactor);
    assert_eq!(t1.entropy, t2.entropy);
    assert_eq!(t1.map, t2.map);
    assert_eq!(t1.commitment_id(), t2.commitment_id());
}

#[test]
fn all_messages_placed_at_their_position() {
    let mut src = MultiSource::new(0, Some(3));
    for i in 0..100u64 {
        src.insert(id_of(i.wrapping_mul(0x9E37_79B9_7F4A_7C15)), [i as u8; 32]);
    }
    let tree = MerkleTree::try_commit(&src).unwrap();
    assert!(tree.width() >= 100);
    assert_eq!(tree.map.len(), 100);
    for (pid, msg) in &src.messages {
        let pos = protocol_id_pos(*pid, tree.cofactor, tree.width());
        assert_eq!(tree.map.get(&pos), Some(&(*pid, *msg)));
    }
}

#[test]
fn entropy_changes_commitment() {
    let mut src = MultiSource::new(3, Some(1));
    src.insert(id_of(1), [1u8; 32]);
    let mut tree = MerkleTree::try_commit(&src).unwrap();
    let id1 = tree.commitment_id();
    tree.entropy = 2;
    assert_ne!(id1, tree.commitment_id());
}

#[test]
fn outpoint_hash_known_vector() {
    let mut txid = [0u8; 32];
    for (i, b) in txid.iter_mut().enumerate() {
        *b = i as u8;
    }
    let reveal = OutpointReveal::with_blinding(txid, 3, 0x0102030405060708);
    let expected = OutpointHash([
        174, 189, 176, 41, 22, 163, 115, 109, 95, 172, 218, 155, 28, 63, 210, 253, 4, 21, 129,
        145, 93, 28, 168, 31, 237, 240, 114, 67, 53, 33, 50, 140,
    ]);
    assert_eq!(reveal.outpoint_hash(), expected);
    assert_eq!(OutpointHash::commit(&reveal), expected);
    assert_eq!(reveal.commit_conceal(), expected);
    assert_eq!(reveal.outpoint(), (txid, 3));
}

#[test]
fn outpoint_random_blinding_keeps_outpoint() {
    let reveal = OutpointReveal::from_outpoint([4u8; 32], 9);
    assert_eq!(reveal.txid, [4u8; 32]);
    assert_eq!(reveal.vout, 9);
}
