use filehash::Ed2kCore;
use md4::{Digest, Md4};

const UNIT: usize = 9_728_000;

fn ed2k_of(data: &[u8]) -> Vec<u8> {
    let mut h = Ed2kCore::new();
    h.update_data(data);
    h.finalize(&[])
}

#[test]
fn ed2k_9728000() {
    let n = 9728000;
    let mut content: Vec<u8> = Vec::with_capacity(n);
    for _ in 0..n {
        content.push(0u8);
    }
    assert_eq!(content.len(), 9728000_usize);
    let d = ed2k_of(&content);
    assert_eq!(
        d,
        vec![
            0xd7, 0xde, 0xf2, 0x62, 0xa1, 0x27, 0xcd, 0x79, 0x09, 0x6a, 0x10, 0x8e, 0x7a, 0x9f,
            0xc1, 0x38,
        ]
    );
}

#[test]
fn ed2k_19456000() {
    let n = 19456000;
    let mut content: Vec<u8> = Vec::with_capacity(n);
    for _ in 0..n {
        content.push(0u8);
    }
    assert_eq!(content.len(), 19456000_usize);
    let d = ed2k_of(&content);
    assert_eq!(
        d,
        vec![
            0x19, 0x4e, 0xe9, 0xe4, 0xfa, 0x79, 0xb2, 0xee, 0x9f, 0x88, 0x29, 0x28, 0x4c, 0x46,
            0x60, 0x51,
        ]
    );
}

#[test]
fn empty_input_is_plain_md4_of_nothing() {
    let d = ed2k_of(&[]);
    assert_eq!(d, Md4::digest([]).to_vec());
}

#[test]
fn short_input_is_plain_md4() {
    let mut content: Vec<u8> = Vec::new();
    for i in 0..1000usize {
        content.push((i % 251) as u8);
    }
    let d = ed2k_of(&content);
    assert_eq!(d, Md4::digest(&content).to_vec());
}

#[test]
fn exactly_one_unit_is_plain_md4() {
    let content = vec![0xabu8; UNIT];
    let d = ed2k_of(&content);
    assert_eq!(d, Md4::digest(&content).to_vec());
}

#[test]
fn two_exact_units_hash_the_chunk_digests() {
    let content = vec![0u8; 2 * UNIT];
    let d = ed2k_of(&content);
    let c1 = Md4::digest(&content[..UNIT]);
    let c2 = Md4::digest(&content[UNIT..]);
    let mut cat: Vec<u8> = Vec::new();
    cat.extend_from_slice(&c1);
    cat.extend_from_slice(&c2);
    assert_eq!(d, Md4::digest(&cat).to_vec());
}

#[test]
fn one_byte_past_a_unit_closes_the_first_chunk() {
    let mut content = vec![0u8; UNIT];
    content.push(0x5a);
    let d = ed2k_of(&content);
    let c1 = Md4::digest(&content[..UNIT]);
    let c2 = Md4::digest(&content[UNIT..]);
    let mut cat: Vec<u8> = Vec::new();
    cat.extend_from_slice(&c1);
    cat.extend_from_slice(&c2);
    assert_eq!(d, Md4::digest(&cat).to_vec());
}

#[test]
fn chunking_of_the_input_stream_does_not_change_the_digest() {
    let mut content: Vec<u8> = Vec::new();
    for i in 0..5000usize {
        content.push((i % 256) as u8);
    }
    let one_shot = ed2k_of(&content);

    let mut h = Ed2kCore::new();
    h.update_data(&content[..1]);
    h.update_data(&content[1..64]);
    h.update_data(&content[64..3001]);
    h.update_data(&content[3001..3001]);
    let split = h.finalize(&content[3001..]);
    assert_eq!(one_shot, split);
}

#[test]
fn absorb_blocks_matches_byte_feeding() {
    let blocks: Vec<[u8; 64]> = vec![[0x11u8; 64]; 160];
    let mut flat: Vec<u8> = Vec::new();
    for b in &blocks {
        flat.extend_from_slice(b);
    }
    let mut h = Ed2kCore::new();
    h.absorb_blocks(&blocks);
    let d1 = h.finalize(&[]);

    let d2 = ed2k_of(&flat);
    assert_eq!(d1, d2);

    let mut h3 = Ed2kCore::new();
    for b in &blocks {
        h3.absorb_block(b);
    }
    let d3 = h3.finalize(&[]);
    assert_eq!(d1, d3);
}

#[test]
fn finalize_resets_the_engine() {
    let mut h = Ed2kCore::new();
    h.update_data(&[1, 2, 3]);
    let _ = h.finalize(&[]);
    let d = h.finalize(&[]);
    assert_eq!(d, Md4::digest([]).to_vec());
}

#[test]
fn reset_discards_absorbed_bytes() {
    let mut h = Ed2kCore::new();
    h.update_data(&[9, 9, 9]);
    h.reset();
    h.update_data(&[1, 2]);
    let d = h.finalize(&[3]);
    assert_eq!(d, Md4::digest([1u8, 2, 3]).to_vec());
}

#[test]
fn cloned_engine_forks_the_computation() {
    let mut content: Vec<u8> = Vec::new();
    for i in 0..4000usize {
        content.push((i % 253) as u8);
    }
    let mut h = Ed2kCore::new();
    h.update_data(&content[..1500]);
    let mut fork = h.clone();
    let d1 = h.finalize(&content[1500..1500]);
    fork.update_data(&content[1500..]);
    let d2 = fork.finalize(&[]);
    assert_eq!(d1, Md4::digest(&content[..1500]).to_vec());
    assert_eq!(d2, Md4::digest(&content).to_vec());
}

#[test]
fn linear_scheme_name() {
    assert_eq!(Ed2kCore::alg_name(), "Ed2k");
}

#[test]
fn default_is_a_fresh_engine() {
    let mut h = Ed2kCore::default();
    let d = h.finalize(&[0x42]);
    assert_eq!(d, Md4::digest([0x42u8]).to_vec());
}
