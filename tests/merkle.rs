use num_bigint::BigUint;
use starknet_crypto::poseidon_hash;
use starknet_types_core::felt::Felt;
use zk100::assembler::{encode_programs, parse_assembly};
use zk100::instruction::{Dst, Inst, Op, Src};
use zk100::merkle::{bytes_to_felt252, compute_program_merkle_root, merkle_root};

fn felt(v: u32) -> [u8; 32] {
    let mut b = [0u8; 32];
    b[28..].copy_from_slice(&v.to_be_bytes());
    b
}

fn poseidon(x: &[u8; 32], y: &[u8; 32]) -> [u8; 32] {
    poseidon_hash(Felt::from_bytes_be(x), Felt::from_bytes_be(y)).to_bytes_be()
}

#[test]
fn test_poseidon_hash_pair() {
    let left = felt(100);
    let right = felt(200);
    let result = merkle_root(&[left, right]);

    let result2 = merkle_root(&[left, right]);
    assert_eq!(result, result2);

    let result3 = merkle_root(&[right, left]);
    assert_ne!(result, result3);
}

#[test]
fn test_felt_conversion() {
    let original = BigUint::from(12345u32);
    let field = merkle_root(&[felt(12345)]);
    let converted_back = BigUint::from_bytes_be(&field);
    assert_eq!(original, converted_back);
}

#[test]
fn test_merkle_root_single() {
    let leaves = vec![felt(12345)];
    let root = merkle_root(&leaves);
    assert_eq!(root, felt(12345));
}

#[test]
fn test_merkle_root_two() {
    let leaves = vec![felt(100), felt(200)];
    let root = merkle_root(&leaves);
    let expected = poseidon(&felt(100), &felt(200));
    assert_eq!(root, expected);
}

#[test]
fn test_poseidon_test_vectors() {
    let result1 = poseidon(&felt(100), &felt(200));
    println!("Rust hash_pair(100, 200) = {}", bytes_to_felt252(&result1));

    let leaves1 = vec![felt(12345)];
    let result2 = merkle_root(&leaves1);
    println!("Rust merkle_root([12345]) = {}", bytes_to_felt252(&result2));
    assert_eq!(result2, felt(12345));

    let leaves2 = vec![felt(100), felt(200)];
    let result3 = merkle_root(&leaves2);
    println!("Rust merkle_root([100, 200]) = {}", bytes_to_felt252(&result3));
    assert_eq!(result3, result1);

    let leaves3: Vec<[u8; 32]> = vec![];
    let result4 = merkle_root(&leaves3);
    println!("Rust merkle_root([]) = {}", bytes_to_felt252(&result4));
    assert_eq!(result4, felt(0));
}

#[test]
fn test_simple_program() {
    let nop = Inst {
        op: Op::Nop,
        src: Src::Nil,
        dst: Dst::Nil,
    };
    let mov_42_out = Inst {
        op: Op::Mov,
        src: Src::Lit(42),
        dst: Dst::Out,
    };
    let hlt = Inst {
        op: Op::Hlt,
        src: Src::Nil,
        dst: Dst::Nil,
    };

    assert_eq!(nop.encode(), 0xc0201);
    assert_eq!(mov_42_out.encode(), 0x2a010002);
    assert_eq!(hlt.encode(), 0xd0201);

    let programs = vec![
        vec![vec![nop.clone()], vec![nop.clone()]],
        vec![vec![nop.clone()], vec![mov_42_out, hlt]],
    ];

    let root = compute_program_merkle_root(&programs);
    let root_hex = bytes_to_felt252(&root);
    println!("Rust merkle root: {}", root_hex);
    assert_eq!(root.len(), 32);

    let n = felt(0xc0201);
    let leaf11 = poseidon(&felt(0x2a010002), &felt(0xd0201));
    let expected = poseidon(&poseidon(&n, &n), &poseidon(&n, &leaf11));
    assert_eq!(root, expected.to_vec());
}

#[test]
fn test_empty_program_merkle() {
    let programs = vec![vec![vec![], vec![]], vec![vec![], vec![]]];

    let root = compute_program_merkle_root(&programs);
    assert_eq!(root.len(), 32);
    let z = felt(0);
    let zz = poseidon(&z, &z);
    assert_eq!(root, poseidon(&zz, &zz).to_vec());
}

#[test]
fn test_bytes_to_felt252() {
    let bytes = vec![0x12, 0x34, 0x56, 0x78];
    let felt = bytes_to_felt252(&bytes);
    assert_eq!(felt, "0x12345678");
}

#[test]
fn empty_list_reduces_to_zero() {
    assert_eq!(merkle_root(&[]), [0u8; 32]);
}

#[test]
fn single_element_is_not_hashed() {
    let x = poseidon(&felt(7), &felt(9));
    assert_eq!(merkle_root(&[x]), x);
}

#[test]
fn three_leaves_pad_with_zero() {
    let (a, b, c) = (felt(1), felt(2), felt(3));
    let expected = poseidon(&poseidon(&a, &b), &poseidon(&c, &felt(0)));
    assert_eq!(merkle_root(&[a, b, c]), expected);
    assert_ne!(merkle_root(&[a, b, c]), poseidon(&poseidon(&a, &b), &c));
}

#[test]
fn five_leaves_pad_to_eight() {
    let xs: Vec<[u8; 32]> = (1..=5).map(felt).collect();
    let z = felt(0);
    let l1 = [
        poseidon(&xs[0], &xs[1]),
        poseidon(&xs[2], &xs[3]),
        poseidon(&xs[4], &z),
        poseidon(&z, &z),
    ];
    let l2 = [poseidon(&l1[0], &l1[1]), poseidon(&l1[2], &l1[3])];
    assert_eq!(merkle_root(&xs), poseidon(&l2[0], &l2[1]));
}

#[test]
fn commitment_follows_the_image() {
    let a = parse_assembly("NODE (0,0)\nMOV 42, OUT\nHLT\nNODE (1,1)\nNOP\n").unwrap();
    let b = parse_assembly("NODE (0,0)\nmov 42, out\nhlt\nNODE (1,1)\nnop\n").unwrap();
    assert_eq!(encode_programs(&a).unwrap(), encode_programs(&b).unwrap());
    assert_eq!(compute_program_merkle_root(&a), compute_program_merkle_root(&b));

    let c = parse_assembly("NODE (0,0)\nMOV 43, OUT\nHLT\nNODE (1,1)\nNOP\n").unwrap();
    assert_ne!(compute_program_merkle_root(&a), compute_program_merkle_root(&c));
    let d = parse_assembly("NODE (0,0)\nMOV 42, OUT\nHLT\nNODE (1,0)\nNOP\n").unwrap();
    assert_ne!(compute_program_merkle_root(&a), compute_program_merkle_root(&d));
}

#[test]
fn hex_matches_big_integer_formatting() {
    let samples: Vec<Vec<u8>> = vec![
        vec![],
        vec![0],
        vec![0, 0, 0],
        vec![0, 0x0f, 0xa0],
        vec![0xff; 5],
        vec![0x01, 0x00, 0x00],
        felt(0xdead_beef).to_vec(),
    ];
    for s in samples {
        let expected = format!("0x{}", BigUint::from_bytes_be(&s).to_str_radix(16));
        assert_eq!(bytes_to_felt252(&s), expected);
    }
    assert_eq!(bytes_to_felt252(&[0u8; 32]), "0x0");
    assert_eq!(bytes_to_felt252(&[0, 0x0f, 0xa0]), "0xfa0");
}
