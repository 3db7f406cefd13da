//! The public arguments handed to the prover: lengths and values as
//! `0x`-prefixed lowercase hexadecimal JSON strings.
use crate::text::{
    chars_of, hex_of_nat, hex_u64, split_chars, split_on, string_from, trim, trimmed,
    unsigned_decimal, unsigned_within, views,
};
use serde_json::Value;
use vstd::prelude::*;

verus! {

#[verifier::external_type_specification]
#[verifier::external_body]
pub struct ExValue(Value);

/// The JSON string value holding the text `s`.
pub uninterp spec fn json_text(s: Seq<char>) -> Value;

/// Relies on `serde_json::Value::String`: the JSON string value that holds
/// the given text.
#[verifier::external_body]
fn json_string(s: String) -> (r: Value)
    ensures
        r == json_text(s@),
{
    Value::String(s)
}

/// `v` as `0x` and its lowercase hexadecimal digits.
pub open spec fn hex_arg(v: nat) -> Seq<char> {
    seq!['0', 'x'] + hex_of_nat(v)
}

pub open spec fn hex_args(vs: Seq<u32>) -> Seq<Seq<char>> {
    vs.map_values(|v: u32| hex_arg(v as nat))
}

/// The argument texts: the length of `inputs` and each input, the length of
/// `expected` and each expected value, the length of `prog_words` and each
/// word.
pub open spec fn arg_texts(inputs: Seq<u32>, expected: Seq<u32>, prog_words: Seq<u32>) -> Seq<
    Seq<char>,
> {
    seq![hex_arg(inputs.len())] + hex_args(inputs) + seq![hex_arg(expected.len())] + hex_args(
        expected,
    ) + seq![hex_arg(prog_words.len())] + hex_args(prog_words)
}

/// `v` as `0x` and its lowercase hexadecimal digits.
fn hex_text(v: u64) -> (r: String)
    ensures
        r@ == hex_arg(v as nat),
{
    let mut cs = vec!['0', 'x'];
    let mut digits = hex_u64(v);
    let ghost d = digits@;
    cs.append(&mut digits);
    assert(cs@ =~= seq!['0', 'x'] + d);
    string_from(&cs)
}

pub open spec fn texts(v: Seq<String>) -> Seq<Seq<char>> {
    v.map_values(|s: String| s@)
}

/// Appends the length of `vs` and then each value of `vs`.
fn push_array(out: &mut Vec<String>, vs: &[u32])
    ensures
        texts(final(out)@) == texts(old(out)@) + seq![hex_arg(vs@.len())] + hex_args(vs@),
{
    let ghost base = texts(old(out)@);
    out.push(hex_text(vs.len() as u64));
    let mut i: usize = 0;
    assert(texts(out@) =~= base + seq![hex_arg(vs@.len())] + hex_args(vs@.take(0)));
    while i < vs.len()
        invariant
            i <= vs@.len(),
            texts(out@) == base + seq![hex_arg(vs@.len())] + hex_args(vs@.take(i as int)),
        decreases vs@.len() - i,
    {
        let ghost prev = texts(out@);
        let t = hex_text(vs[i] as u64);
        let ghost tv = t@;
        out.push(t);
        assert(texts(out@) =~= prev.push(tv));
        assert(hex_args(vs@.take(i + 1)) =~= hex_args(vs@.take(i as int)).push(hex_arg(vs@[i as int] as nat)));
        i = i + 1;
        assert(texts(out@) =~= base + seq![hex_arg(vs@.len())] + hex_args(vs@.take(i as int)));
    }
    assert(vs@.take(i as int) =~= vs@);
}

/// The texts of the prover's public arguments: `inputs`, `expected` and
/// `prog_words`, each array as its length followed by its values, every
/// number as `0x` and its lowercase hexadecimal digits.
pub fn arg_texts_of(inputs: &[u32], expected: &[u32], prog_words: &[u32]) -> (r: Vec<String>)
    ensures
        texts(r@) == arg_texts(inputs@, expected@, prog_words@),
{
    let mut out: Vec<String> = Vec::new();
    assert(texts(out@) =~= Seq::<Seq<char>>::empty());
    push_array(&mut out, inputs);
    push_array(&mut out, expected);
    push_array(&mut out, prog_words);
    assert(texts(out@) =~= arg_texts(inputs@, expected@, prog_words@));
    out
}

/// The prover's public arguments: the texts of `arg_texts_of`, each as a
/// JSON string.
pub fn generate_args(inputs: &[u32], expected: &[u32], prog_words: &[u32]) -> (r: Vec<Value>)
    ensures
        r@ == arg_texts(inputs@, expected@, prog_words@).map_values(|t: Seq<char>| json_text(t)),
{
    let ts = arg_texts_of(inputs, expected, prog_words);
    let ghost tv = texts(ts@);
    let mut args: Vec<Value> = Vec::new();
    let mut i: usize = 0;
    while i < ts.len()
        invariant
            i <= ts@.len(),
            tv == texts(ts@),
            args@ == tv.take(i as int).map_values(|t: Seq<char>| json_text(t)),
        decreases ts@.len() - i,
    {
        args.push(json_string(ts[i].clone()));
        i = i + 1;
        assert(args@ =~= tv.take(i as int).map_values(|t: Seq<char>| json_text(t)));
    }
    assert(tv.take(i as int) =~= tv);
    args
}

/// The values that the comma-separated pieces `ps` hold, in order: each
/// piece trimmed and read as a `u32`; pieces that are not one are skipped.
pub open spec fn u32_pieces(ps: Seq<Seq<char>>) -> Seq<u32>
    decreases ps.len(),
{
    if ps.len() == 0 {
        Seq::empty()
    } else {
        let prev = u32_pieces(ps.drop_last());
        match unsigned_within(trim(ps.last()), 0xffff_ffff) {
            Some(v) => prev.push(v as u32),
            None => prev,
        }
    }
}

/// The `u32` values of a comma-separated list.
pub open spec fn u32_list(s: Seq<char>) -> Seq<u32> {
    if s.len() == 0 {
        Seq::empty()
    } else {
        u32_pieces(split_on(s, ','))
    }
}

/// Reads a comma-separated list of `u32` values, skipping the pieces that
/// are not one.
pub fn parse_u32_array(s: &str) -> (r: Vec<u32>)
    ensures
        r@ == u32_list(s@),
{
    let cs = chars_of(s);
    if cs.len() == 0 {
        return Vec::new();
    }
    let pieces = split_chars(&cs, ',');
    let ghost pv = views(pieces@);
    let mut out: Vec<u32> = Vec::new();
    let mut i: usize = 0;
    assert(pv.take(0) =~= Seq::<Seq<char>>::empty());
    while i < pieces.len()
        invariant
            i <= pieces@.len(),
            pv == views(pieces@),
            out@ == u32_pieces(pv.take(i as int)),
        decreases pieces@.len() - i,
    {
        assert(pv.take(i + 1).drop_last() =~= pv.take(i as int));
        assert(pv.take(i + 1).last() == pieces@[i as int]@);
        let t = trimmed(&pieces[i]);
        match unsigned_decimal(&t, 0xffff_ffff) {
            Some(v) => {
                out.push(v as u32);
            },
            None => {},
        }
        i = i + 1;
    }
    assert(pv.take(i as int) =~= pv);
    out
}

} // verus!
