//! The commitment over a program: a two-level Merkle tree of Poseidon
//! hashes over the Stark prime field.
//!
//! Field elements are held as their 32 big-endian bytes. A list of elements
//! reduces to one: the empty list to zero, a single element to itself, and
//! a longer list is padded with zeros to the next power of two and hashed
//! pairwise, left then right, level by level. Each node's instruction words
//! reduce to the node's leaf (zero for an empty node); the node leaves, in
//! row-major order, reduce to the root.
//!
//! This is the field-arithmetic commitment that an external verifier over
//! the same field recomputes; a tree of a general-purpose byte hash would
//! give different roots and is not offered.
use crate::assembler::{
    flat_nodes, image, lemma_flat_nodes_fit, lemma_flat_nodes_push, lemma_nodes_image_injective,
    lengths_fit, node_words, programs_view, Programs,
};
use crate::instruction::Inst;
use crate::text::{hex_bytes, hex_of_bytes, string_from};
use starknet_crypto::poseidon_hash;
use starknet_types_core::felt::Felt;
use vstd::prelude::*;

verus! {

/// The Poseidon hash of two field elements, each given and returned as 32
/// big-endian bytes.
pub uninterp spec fn poseidon_of(x: Seq<u8>, y: Seq<u8>) -> Seq<u8>;

/// Relies on `starknet_crypto::poseidon_hash`, the Poseidon hash of two
/// Stark field elements (left, then right), with `Felt::from_bytes_be`
/// (which reduces 32 bytes modulo the field's prime and never fails) and
/// `Felt::to_bytes_be` converting from and to 32 big-endian bytes.
#[verifier::external_body]
fn hash_pair(x: &[u8; 32], y: &[u8; 32]) -> (r: [u8; 32])
    ensures
        r@ == poseidon_of(x@, y@),
{
    poseidon_hash(Felt::from_bytes_be(x), Felt::from_bytes_be(y)).to_bytes_be()
}

/// The zero element.
pub open spec fn zero_felt() -> Seq<u8> {
    Seq::new(32, |i: int| 0u8)
}

/// A 32-bit word as a field element: 28 zero bytes, then the word's four
/// bytes, most significant first.
pub open spec fn word_felt(w: u32) -> Seq<u8> {
    Seq::new(28, |i: int| 0u8) + seq![(w >> 24u32) as u8, (w >> 16u32) as u8, (w >> 8u32) as u8, w as u8]
}

/// The least power of two that is at least `n`.
pub open spec fn pad_len(n: nat) -> nat
    decreases n,
{
    if n <= 1 {
        1
    } else {
        2 * pad_len((n / 2 + n % 2) as nat)
    }
}

/// `xs` followed by zeros up to the next power of two.
pub open spec fn padded(xs: Seq<Seq<u8>>) -> Seq<Seq<u8>> {
    xs + Seq::new((pad_len(xs.len()) - xs.len()) as nat, |i: int| zero_felt())
}

/// One level of the tree: each element at an even index hashed with the
/// one after it (zero where there is none).
pub open spec fn pair_level(xs: Seq<Seq<u8>>) -> Seq<Seq<u8>> {
    Seq::new(
        (xs.len() + 1) / 2,
        |i: int|
            poseidon_of(
                xs[2 * i],
                if 2 * i + 1 < xs.len() {
                    xs[2 * i + 1]
                } else {
                    zero_felt()
                },
            ),
    )
}

/// The level-by-level reduction of `xs` down to one element.
pub open spec fn fold_levels(xs: Seq<Seq<u8>>) -> Seq<u8>
    decreases xs.len(),
{
    if xs.len() <= 1 {
        xs[0]
    } else {
        fold_levels(pair_level(xs))
    }
}

/// The Merkle root of a list of field elements.
pub open spec fn merkle(xs: Seq<Seq<u8>>) -> Seq<u8> {
    if xs.len() == 0 {
        zero_felt()
    } else if xs.len() == 1 {
        xs[0]
    } else {
        fold_levels(padded(xs))
    }
}

/// The leaf of a node with instruction words `ws`.
pub open spec fn words_leaf(ws: Seq<u32>) -> Seq<u8> {
    if ws.len() == 0 {
        zero_felt()
    } else {
        merkle(ws.map_values(|w: u32| word_felt(w)))
    }
}

/// The commitment root of a grid.
pub open spec fn commitment(g: Seq<Seq<Seq<Inst>>>) -> Seq<u8> {
    merkle(flat_nodes(g).map_values(|p: Seq<Inst>| words_leaf(node_words(p))))
}

pub open spec fn felts(v: Seq<[u8; 32]>) -> Seq<Seq<u8>> {
    v.map_values(|a: [u8; 32]| a@)
}

/// Every node's padded tree, and the padded tree of the node leaves, fit
/// in memory.
pub open spec fn trees_fit(g: Seq<Seq<Seq<Inst>>>) -> bool {
    &&& pad_len(flat_nodes(g).len()) <= usize::MAX
    &&& forall|r: int, c: int|
        0 <= r < g.len() && 0 <= c < g[r].len() ==> pad_len((#[trigger] g[r][c]).len())
            <= usize::MAX
}

fn zero_bytes() -> (r: [u8; 32])
    ensures
        r@ == zero_felt(),
{
    let r = [0u8; 32];
    assert(r@ =~= zero_felt());
    r
}

/// The least power of two that is at least `n`.
fn padded_len(n: usize) -> (r: usize)
    requires
        pad_len(n as nat) <= usize::MAX,
    ensures
        r == pad_len(n as nat),
    decreases n,
{
    if n <= 1 {
        1
    } else {
        let h = n / 2 + n % 2;
        assert(pad_len(n as nat) == 2 * pad_len(h as nat));
        2 * padded_len(h)
    }
}

proof fn lemma_pad_len_ge(n: nat)
    ensures
        pad_len(n) >= n,
        pad_len(n) >= 1,
    decreases n,
{
    if n > 1 {
        lemma_pad_len_ge((n / 2 + n % 2) as nat);
    }
}

/// One level of the tree.
fn hash_level(level: &Vec<[u8; 32]>) -> (r: Vec<[u8; 32]>)
    ensures
        r@.len() == (level@.len() + 1) / 2,
        felts(r@) == pair_level(felts(level@)),
{
    let ghost xs = felts(level@);
    let n = level.len();
    let half = n / 2 + n % 2;
    let mut next: Vec<[u8; 32]> = Vec::new();
    let mut j: usize = 0;
    while j < half
        invariant
            xs == felts(level@),
            n == level@.len(),
            half == (n + 1) / 2,
            j <= half,
            next@.len() == j,
            forall|k: int| 0 <= k < j ==> (#[trigger] next@[k])@ == pair_level(xs)[k],
        decreases half - j,
    {
        let i = 2 * j;
        let left = level[i];
        let right = if i + 1 < n {
            level[i + 1]
        } else {
            zero_bytes()
        };
        let h = hash_pair(&left, &right);
        next.push(h);
        j = j + 1;
    }
    assert(felts(next@) =~= pair_level(xs));
    next
}

/// The Merkle root of `leaves`: zero for none, the element itself for one,
/// otherwise the root of the zero-padded power-of-two tree.
pub fn merkle_root(leaves: &[[u8; 32]]) -> (r: [u8; 32])
    requires
        pad_len(leaves@.len()) <= usize::MAX,
    ensures
        r@ == merkle(felts(leaves@)),
        leaves@.len() == 0 ==> r@ == zero_felt(),
        leaves@.len() == 1 ==> r == leaves@[0],
{
    let n = leaves.len();
    if n == 0 {
        return zero_bytes();
    }
    if n == 1 {
        return leaves[0];
    }
    let power = padded_len(n);
    proof {
        lemma_pad_len_ge(n as nat);
    }
    let mut level: Vec<[u8; 32]> = Vec::new();
    let mut i: usize = 0;
    while i < n
        invariant
            i <= n == leaves@.len(),
            level@ == leaves@.take(i as int),
        decreases n - i,
    {
        level.push(leaves[i]);
        i = i + 1;
        assert(level@ =~= leaves@.take(i as int));
    }
    assert(leaves@.take(n as int) =~= leaves@);
    while level.len() < power
        invariant
            n <= level@.len() <= power,
            power == pad_len(n as nat),
            felts(level@) == felts(leaves@) + Seq::new(
                (level@.len() - n) as nat,
                |k: int| zero_felt(),
            ),
        decreases power - level@.len(),
    {
        let z = zero_bytes();
        let ghost before = level@;
        level.push(z);
        assert(felts(level@) =~= felts(before).push(zero_felt()));
        assert(felts(level@) =~= felts(leaves@) + Seq::new(
            (level@.len() - n) as nat,
            |k: int| zero_felt(),
        ));
    }
    let ghost start = felts(level@);
    assert(start =~= padded(felts(leaves@)));
    while level.len() > 1
        invariant
            level@.len() >= 1,
            fold_levels(felts(level@)) == fold_levels(start),
        decreases level@.len(),
    {
        level = hash_level(&level);
    }
    level[0]
}

/// The field element of a 32-bit word.
fn word_bytes(w: u32) -> (r: [u8; 32])
    ensures
        r@ == word_felt(w),
{
    let r: [u8; 32] = [
        0,
        0,
        0,
        0,
        0,
        0,
        0,
        0,
        0,
        0,
        0,
        0,
        0,
        0,
        0,
        0,
        0,
        0,
        0,
        0,
        0,
        0,
        0,
        0,
        0,
        0,
        0,
        0,
        #[verifier::truncate]
        ((w >> 24u32) as u8),
        #[verifier::truncate]
        ((w >> 16u32) as u8),
        #[verifier::truncate]
        ((w >> 8u32) as u8),
        #[verifier::truncate]
        (w as u8),
    ];
    assert(r@ =~= word_felt(w));
    r
}

/// The leaf of one node.
fn node_leaf(prog: &Vec<Inst>) -> (r: [u8; 32])
    requires
        pad_len(prog@.len()) <= usize::MAX,
    ensures
        r@ == words_leaf(node_words(prog@)),
{
    if prog.len() == 0 {
        return zero_bytes();
    }
    let mut data: Vec<[u8; 32]> = Vec::new();
    let mut i: usize = 0;
    while i < prog.len()
        invariant
            i <= prog@.len(),
            felts(data@) == node_words(prog@).take(i as int).map_values(|w: u32| word_felt(w)),
        decreases prog@.len() - i,
    {
        let w = prog[i].encode();
        let ghost before = data@;
        data.push(word_bytes(w));
        assert(felts(data@) =~= felts(before).push(word_felt(w)));
        assert(node_words(prog@).take(i + 1) =~= node_words(prog@).take(i as int).push(w));
        i = i + 1;
        assert(felts(data@) =~= node_words(prog@).take(i as int).map_values(
            |w: u32| word_felt(w),
        ));
    }
    assert(node_words(prog@).take(i as int) =~= node_words(prog@));
    merkle_root(&data)
}

/// The commitment root of the grid as 32 big-endian bytes: the Merkle root
/// of the node leaves in row-major order.
pub fn compute_program_merkle_root(programs: &Programs) -> (r: Vec<u8>)
    requires
        trees_fit(programs_view(*programs)),
    ensures
        r@ == commitment(programs_view(*programs)),
        r@.len() == 32,
{
    let ghost g = programs_view(*programs);
    let mut leaves: Vec<[u8; 32]> = Vec::new();
    let mut r: usize = 0;
    assert(g.take(0) =~= Seq::<Seq<Seq<Inst>>>::empty());
    assert(felts(leaves@) =~= flat_nodes(g.take(0)).map_values(
        |p: Seq<Inst>| words_leaf(node_words(p)),
    ));
    while r < programs.len()
        invariant
            r <= programs@.len(),
            g == programs_view(*programs),
            trees_fit(g),
            felts(leaves@) == flat_nodes(g.take(r as int)).map_values(
                |p: Seq<Inst>| words_leaf(node_words(p)),
            ),
        decreases programs@.len() - r,
    {
        let row = &programs[r];
        let ghost gr = g[r as int];
        let ghost before = felts(leaves@);
        let mut c: usize = 0;
        while c < row.len()
            invariant
                c <= row@.len(),
                r < programs@.len(),
                g == programs_view(*programs),
                trees_fit(g),
                gr == g[r as int],
                gr == row@.map_values(|prog: Vec<Inst>| prog@),
                before == flat_nodes(g.take(r as int)).map_values(
                    |p: Seq<Inst>| words_leaf(node_words(p)),
                ),
                felts(leaves@) == before + gr.take(c as int).map_values(
                    |p: Seq<Inst>| words_leaf(node_words(p)),
                ),
            decreases row@.len() - c,
        {
            assert(pad_len(g[r as int][c as int].len()) <= usize::MAX);
            let leaf = node_leaf(&row[c]);
            let ghost prior = leaves@;
            leaves.push(leaf);
            assert(felts(leaves@) =~= felts(prior).push(leaf@));
            assert(gr.take(c + 1) =~= gr.take(c as int).push(gr[c as int]));
            c = c + 1;
            assert(felts(leaves@) =~= before + gr.take(c as int).map_values(
                |p: Seq<Inst>| words_leaf(node_words(p)),
            ));
        }
        proof {
            assert(gr.take(c as int) =~= gr);
            assert(g.take(r + 1) =~= g.take(r as int).push(gr));
            lemma_flat_nodes_push(g.take(r as int), gr);
            assert(felts(leaves@) =~= flat_nodes(g.take(r + 1)).map_values(
                |p: Seq<Inst>| words_leaf(node_words(p)),
            ));
        }
        r = r + 1;
    }
    assert(g.take(r as int) =~= g);
    assert(leaves@.len() == flat_nodes(g).len());
    let root = merkle_root(&leaves);
    let mut out: Vec<u8> = Vec::new();
    let mut i: usize = 0;
    while i < 32
        invariant
            i <= 32,
            root@.len() == 32,
            out@ == root@.take(i as int),
        decreases 32 - i,
    {
        out.push(root[i]);
        i = i + 1;
        assert(out@ =~= root@.take(i as int));
    }
    assert(root@.take(32) =~= root@);
    out
}

/// Big-endian bytes as `0x` and their lowercase hexadecimal value, with no
/// leading zeros (`0x0` for zero).
pub fn bytes_to_felt252(bytes: &[u8]) -> (r: String)
    ensures
        r@ == seq!['0', 'x'] + hex_of_bytes(bytes@),
{
    let mut cs = vec!['0', 'x'];
    let mut digits = hex_bytes(bytes);
    let ghost d = digits@;
    cs.append(&mut digits);
    assert(cs@ =~= seq!['0', 'x'] + d);
    string_from(&cs)
}

/// The empty list reduces to the zero element.
pub proof fn lemma_merkle_empty()
    ensures
        merkle(Seq::empty()) == zero_felt(),
{
}

/// A single element reduces to itself, not to a hash of it.
pub proof fn lemma_merkle_single(x: Seq<u8>)
    ensures
        merkle(seq![x]) == x,
{
}

/// Three elements `[a, b, c]` are padded to `[a, b, c, 0]`, hashed as
/// `(hash(a, b), hash(c, 0))`, then once more.
pub proof fn lemma_merkle_three(a: Seq<u8>, b: Seq<u8>, c: Seq<u8>)
    ensures
        merkle(seq![a, b, c]) == poseidon_of(poseidon_of(a, b), poseidon_of(c, zero_felt())),
{
    let z = zero_felt();
    assert(pad_len(1) == 1);
    assert(pad_len(2) == 2);
    assert(pad_len(3) == 4);
    let p = padded(seq![a, b, c]);
    assert(p =~= seq![a, b, c, z]);
    let l1 = pair_level(p);
    assert(l1 =~= seq![poseidon_of(a, b), poseidon_of(c, z)]);
    let l2 = pair_level(l1);
    assert(l2 =~= seq![poseidon_of(poseidon_of(a, b), poseidon_of(c, z))]);
    assert(fold_levels(l2) == l2[0]);
    assert(fold_levels(l1) == fold_levels(l2));
    assert(fold_levels(p) == fold_levels(l1));
}

/// The commitment is a function of the encoded image: two grids that
/// encode (their node lengths fit their words, exactly the grids on which
/// `encode_programs` succeeds) to equal images have the same root.
pub proof fn lemma_commitment_from_image(g1: Seq<Seq<Seq<Inst>>>, g2: Seq<Seq<Seq<Inst>>>)
    requires
        lengths_fit(g1),
        lengths_fit(g2),
        image(g1) == image(g2),
    ensures
        commitment(g1) == commitment(g2),
{
    let a = flat_nodes(g1);
    let b = flat_nodes(g2);
    lemma_flat_nodes_fit(g1);
    lemma_flat_nodes_fit(g2);
    lemma_nodes_image_injective(a, b);
    let la = a.map_values(|p: Seq<Inst>| words_leaf(node_words(p)));
    let lb = b.map_values(|p: Seq<Inst>| words_leaf(node_words(p)));
    assert(la =~= lb);
}

} // verus!
