use data_encoding::BASE32;
use filehash::TigerTreeCore;
use tiger::{Digest, Tiger};

const LEAF: usize = 1024;

fn tth_of(data: &[u8]) -> Vec<u8> {
    let mut h = TigerTreeCore::new();
    h.update_data(data);
    h.finalize(&[])
}

fn leaf_hash(data: &[u8]) -> Vec<u8> {
    let mut content = vec![0u8];
    content.extend_from_slice(data);
    Tiger::digest(&content).to_vec()
}

fn node_hash(left: &[u8], right: &[u8]) -> Vec<u8> {
    let mut content = vec![1u8];
    content.extend_from_slice(left);
    content.extend_from_slice(right);
    Tiger::digest(&content).to_vec()
}

#[test]
fn empty_input_is_the_leaf_sigil_digest() {
    let d = tth_of(&[]);
    assert_eq!(d, Tiger::digest([0u8]).to_vec());
}

#[test]
fn empty_input_matches_the_published_root() {
    let d = tth_of(&[]);
    let rendered: String = BASE32.encode(&d).trim_end_matches('=').to_string();
    assert_eq!(rendered, "LWPNACQDBZRYXW3VHJVCJ64QBZNGHOHHHZWCLNQ");
}

#[test]
fn short_input_is_a_single_leaf() {
    let mut content: Vec<u8> = Vec::new();
    for i in 0..700usize {
        content.push((i % 256) as u8);
    }
    let d = tth_of(&content);
    assert_eq!(d, leaf_hash(&content));
}

#[test]
fn exactly_one_leaf_is_a_single_leaf() {
    let content = vec![0x33u8; LEAF];
    let d = tth_of(&content);
    assert_eq!(d, leaf_hash(&content));
}

#[test]
fn two_leaves_make_one_node() {
    let mut content = vec![0x44u8; LEAF];
    for i in 0..100usize {
        content.push((i % 256) as u8);
    }
    let d = tth_of(&content);
    let l1 = leaf_hash(&content[..LEAF]);
    let l2 = leaf_hash(&content[LEAF..]);
    assert_eq!(d, node_hash(&l1, &l2));
}

#[test]
fn three_leaves_pass_the_last_one_through() {
    let mut content: Vec<u8> = Vec::new();
    for i in 0..(2 * LEAF + 50) {
        content.push((i % 256) as u8);
    }
    let d = tth_of(&content);
    let l1 = leaf_hash(&content[..LEAF]);
    let l2 = leaf_hash(&content[LEAF..2 * LEAF]);
    let l3 = leaf_hash(&content[2 * LEAF..]);
    assert_eq!(d, node_hash(&node_hash(&l1, &l2), &l3));
}

#[test]
fn five_leaves_reduce_level_by_level() {
    let content = vec![0x7eu8; 4 * LEAF + 1];
    let d = tth_of(&content);
    let l1 = leaf_hash(&content[..LEAF]);
    let l2 = leaf_hash(&content[LEAF..2 * LEAF]);
    let l3 = leaf_hash(&content[2 * LEAF..3 * LEAF]);
    let l4 = leaf_hash(&content[3 * LEAF..4 * LEAF]);
    let l5 = leaf_hash(&content[4 * LEAF..]);
    let n12 = node_hash(&l1, &l2);
    let n34 = node_hash(&l3, &l4);
    let n1234 = node_hash(&n12, &n34);
    assert_eq!(d, node_hash(&n1234, &l5));
}

#[test]
fn incremental_feeding_matches_one_shot() {
    let mut content: Vec<u8> = Vec::new();
    for i in 0..(3 * LEAF + 123) {
        content.push((i % 249) as u8);
    }
    let one_shot = tth_of(&content);

    let mut h = TigerTreeCore::new();
    h.update_data(&content[..10]);
    h.update_data(&content[10..LEAF]);
    h.update_data(&content[LEAF..LEAF + 1]);
    h.update_data(&content[LEAF + 1..2 * LEAF + 511]);
    let split = h.finalize(&content[2 * LEAF + 511..]);
    assert_eq!(one_shot, split);
}

#[test]
fn tree_absorb_blocks_matches_byte_feeding() {
    let blocks: Vec<[u8; 64]> = vec![[0x55u8; 64]; 40];
    let mut flat: Vec<u8> = Vec::new();
    for b in &blocks {
        flat.extend_from_slice(b);
    }
    let mut h = TigerTreeCore::new();
    h.absorb_blocks(&blocks);
    let d1 = h.finalize(&[]);
    assert_eq!(d1, tth_of(&flat));

    let mut h2 = TigerTreeCore::new();
    for b in &blocks {
        h2.absorb_block(b);
    }
    assert_eq!(h2.finalize(&[]), d1);
}

#[test]
fn tree_finalize_resets_the_engine() {
    let mut h = TigerTreeCore::new();
    h.update_data(&[1, 2, 3]);
    let _ = h.finalize(&[]);
    let d = h.finalize(&[]);
    assert_eq!(d, Tiger::digest([0u8]).to_vec());
}

#[test]
fn tree_reset_discards_absorbed_bytes() {
    let mut h = TigerTreeCore::new();
    h.update_data(&[9, 9, 9]);
    h.reset();
    h.update_data(&[1, 2]);
    let d = h.finalize(&[3]);
    assert_eq!(d, leaf_hash(&[1, 2, 3]));
}

#[test]
fn tree_scheme_name() {
    assert_eq!(TigerTreeCore::alg_name(), "TigerTree");
}

#[test]
fn tree_default_is_a_fresh_engine() {
    let mut h = TigerTreeCore::default();
    let d = h.finalize(&[0x42]);
    assert_eq!(d, leaf_hash(&[0x42]));
}
