//! Operations, operands and the 32-bit instruction word.
//!
//! Word layout, most significant bit first:
//! literal low byte (8) | source port (2) | destination port (2) |
//! operation (4) | source tag (8) | destination tag (8).
//!
//! The literal field holds only the low byte of a literal: larger literals
//! lose their high bits. The layout is kept as it is so that consumers of
//! the word stream decode it unchanged.
use crate::text::{
    chars_of, copy_range, has_prefix, numeral_from, same_chars, signed_i32, starts_with, to_upper,
    unsigned_decimal, unsigned_within, upper_of,
};
use vstd::prelude::*;

verus! {

/// An operation; `code` gives its number, 1 to 13, in the instruction word.
#[derive(Debug, Clone, Copy, PartialEq, Eq, Structural)]
pub enum Op {
    Mov,
    Add,
    Sub,
    Neg,
    Sav,
    Swp,
    Jmp,
    Jz,
    Jnz,
    Jgz,
    Jlz,
    Nop,
    Hlt,
}

/// A port direction; `code` gives its number, 0 to 3.
#[derive(Debug, Clone, Copy, PartialEq, Eq, Structural)]
pub enum PortTag {
    Up,
    Down,
    Left,
    Right,
}

#[derive(Debug, Clone, Copy, PartialEq, Eq, Structural)]
pub enum Src {
    Lit(u32),
    Acc,
    Nil,
    In,
    P(PortTag),
    Last,
}

#[derive(Debug, Clone, Copy, PartialEq, Eq, Structural)]
pub enum Dst {
    Acc,
    Nil,
    Out,
    P(PortTag),
    Last,
}

#[derive(Debug, Clone, Copy, PartialEq, Eq, Structural)]
pub struct Inst {
    pub op: Op,
    pub src: Src,
    pub dst: Dst,
}

/// Why a mnemonic or an operand was not understood.
#[derive(Debug, Clone, Copy, PartialEq, Eq, Structural)]
pub enum ParseError {
    UnknownOperation,
    UnknownPort,
    InvalidSource,
    InvalidDestination,
}

/// Whether `u` holds exactly the characters of `w`.
fn is_word(u: &[char], w: Vec<char>) -> (r: bool)
    ensures
        r == (u@ == w@),
{
    same_chars(u, w.as_slice())
}

/// The operation whose mnemonic, in upper case, is `u`.
pub open spec fn op_named(u: Seq<char>) -> Result<Op, ParseError> {
    if u == seq!['M', 'O', 'V'] {
        Ok(Op::Mov)
    } else if u == seq!['A', 'D', 'D'] {
        Ok(Op::Add)
    } else if u == seq!['S', 'U', 'B'] {
        Ok(Op::Sub)
    } else if u == seq!['N', 'E', 'G'] {
        Ok(Op::Neg)
    } else if u == seq!['S', 'A', 'V'] {
        Ok(Op::Sav)
    } else if u == seq!['S', 'W', 'P'] {
        Ok(Op::Swp)
    } else if u == seq!['J', 'M', 'P'] {
        Ok(Op::Jmp)
    } else if u == seq!['J', 'Z'] {
        Ok(Op::Jz)
    } else if u == seq!['J', 'N', 'Z'] {
        Ok(Op::Jnz)
    } else if u == seq!['J', 'G', 'Z'] {
        Ok(Op::Jgz)
    } else if u == seq!['J', 'L', 'Z'] {
        Ok(Op::Jlz)
    } else if u == seq!['N', 'O', 'P'] {
        Ok(Op::Nop)
    } else if u == seq!['H', 'L', 'T'] {
        Ok(Op::Hlt)
    } else {
        Err(ParseError::UnknownOperation)
    }
}

/// The port direction whose name, in upper case, is `u`.
pub open spec fn port_named(u: Seq<char>) -> Result<PortTag, ParseError> {
    if u == seq!['U', 'P'] {
        Ok(PortTag::Up)
    } else if u == seq!['D', 'O', 'W', 'N'] {
        Ok(PortTag::Down)
    } else if u == seq!['L', 'E', 'F', 'T'] {
        Ok(PortTag::Left)
    } else if u == seq!['R', 'I', 'G', 'H', 'T'] {
        Ok(PortTag::Right)
    } else {
        Err(ParseError::UnknownPort)
    }
}

/// A 32-bit value as its two's-complement bit pattern.
pub open spec fn twos_u32(v: int) -> u32 {
    if v >= 0 {
        v as u32
    } else {
        (v + 0x1_0000_0000) as u32
    }
}

/// The source operand written `s`, whose upper-case form is `u`: a
/// register or port name (matched in upper case), else an unsigned or a
/// signed 32-bit decimal literal.
pub open spec fn src_named(s: Seq<char>, u: Seq<char>) -> Result<Src, ParseError> {
    if u == seq!['A', 'C', 'C'] {
        Ok(Src::Acc)
    } else if u == seq!['N', 'I', 'L'] {
        Ok(Src::Nil)
    } else if u == seq!['I', 'N'] {
        Ok(Src::In)
    } else if u == seq!['L', 'A', 'S', 'T'] {
        Ok(Src::Last)
    } else if starts_with(u, seq!['P', ':']) {
        match port_named(upper_of(u.skip(2))) {
            Ok(p) => Ok(Src::P(p)),
            Err(e) => Err(e),
        }
    } else {
        match unsigned_within(s, 0xffff_ffff) {
            Some(v) => Ok(Src::Lit(v as u32)),
            None => match signed_i32(s) {
                Some(v) => Ok(Src::Lit(twos_u32(v))),
                None => Err(ParseError::InvalidSource),
            },
        }
    }
}

/// The destination operand whose upper-case form is `u`.
pub open spec fn dst_named(u: Seq<char>) -> Result<Dst, ParseError> {
    if u == seq!['A', 'C', 'C'] {
        Ok(Dst::Acc)
    } else if u == seq!['N', 'I', 'L'] {
        Ok(Dst::Nil)
    } else if u == seq!['O', 'U', 'T'] {
        Ok(Dst::Out)
    } else if u == seq!['L', 'A', 'S', 'T'] {
        Ok(Dst::Last)
    } else if starts_with(u, seq!['P', ':']) {
        match port_named(upper_of(u.skip(2))) {
            Ok(p) => Ok(Dst::P(p)),
            Err(e) => Err(e),
        }
    } else {
        Err(ParseError::InvalidDestination)
    }
}

impl Op {
    pub open spec fn spec_code(self) -> u32 {
        match self {
            Op::Mov => 1,
            Op::Add => 2,
            Op::Sub => 3,
            Op::Neg => 4,
            Op::Sav => 5,
            Op::Swp => 6,
            Op::Jmp => 7,
            Op::Jz => 8,
            Op::Jnz => 9,
            Op::Jgz => 10,
            Op::Jlz => 11,
            Op::Nop => 12,
            Op::Hlt => 13,
        }
    }

    /// The operation's code, 1 to 13.
    pub fn code(&self) -> (r: u32)
        ensures
            r == self.spec_code(),
    {
        match self {
            Op::Mov => 1,
            Op::Add => 2,
            Op::Sub => 3,
            Op::Neg => 4,
            Op::Sav => 5,
            Op::Swp => 6,
            Op::Jmp => 7,
            Op::Jz => 8,
            Op::Jnz => 9,
            Op::Jgz => 10,
            Op::Jlz => 11,
            Op::Nop => 12,
            Op::Hlt => 13,
        }
    }

    /// The operation named by the upper-case mnemonic `u`.
    pub fn from_upper(u: &[char]) -> (r: Result<Op, ParseError>)
        ensures
            r == op_named(u@),
    {
        if is_word(u, vec!['M', 'O', 'V']) {
            Ok(Op::Mov)
        } else if is_word(u, vec!['A', 'D', 'D']) {
            Ok(Op::Add)
        } else if is_word(u, vec!['S', 'U', 'B']) {
            Ok(Op::Sub)
        } else if is_word(u, vec!['N', 'E', 'G']) {
            Ok(Op::Neg)
        } else if is_word(u, vec!['S', 'A', 'V']) {
            Ok(Op::Sav)
        } else if is_word(u, vec!['S', 'W', 'P']) {
            Ok(Op::Swp)
        } else if is_word(u, vec!['J', 'M', 'P']) {
            Ok(Op::Jmp)
        } else if is_word(u, vec!['J', 'Z']) {
            Ok(Op::Jz)
        } else if is_word(u, vec!['J', 'N', 'Z']) {
            Ok(Op::Jnz)
        } else if is_word(u, vec!['J', 'G', 'Z']) {
            Ok(Op::Jgz)
        } else if is_word(u, vec!['J', 'L', 'Z']) {
            Ok(Op::Jlz)
        } else if is_word(u, vec!['N', 'O', 'P']) {
            Ok(Op::Nop)
        } else if is_word(u, vec!['H', 'L', 'T']) {
            Ok(Op::Hlt)
        } else {
            Err(ParseError::UnknownOperation)
        }
    }

    /// The operation named by the mnemonic `s`, in any case.
    pub fn from_chars(s: &[char]) -> (r: Result<Op, ParseError>)
        ensures
            r == op_named(upper_of(s@)),
    {
        let u = to_upper(s);
        Op::from_upper(&u)
    }

    /// The operation named by the mnemonic `s`, in any case.
    pub fn from_str(s: &str) -> (r: Result<Op, ParseError>)
        ensures
            r == op_named(upper_of(s@)),
    {
        let cs = chars_of(s);
        Op::from_chars(&cs)
    }
}

impl PortTag {
    pub open spec fn spec_code(self) -> u32 {
        match self {
            PortTag::Up => 0,
            PortTag::Down => 1,
            PortTag::Left => 2,
            PortTag::Right => 3,
        }
    }

    /// The direction's code, 0 to 3.
    pub fn code(&self) -> (r: u32)
        ensures
            r == self.spec_code(),
    {
        match self {
            PortTag::Up => 0,
            PortTag::Down => 1,
            PortTag::Left => 2,
            PortTag::Right => 3,
        }
    }

    /// The direction named by the upper-case `u`.
    pub fn from_upper(u: &[char]) -> (r: Result<PortTag, ParseError>)
        ensures
            r == port_named(u@),
    {
        if is_word(u, vec!['U', 'P']) {
            Ok(PortTag::Up)
        } else if is_word(u, vec!['D', 'O', 'W', 'N']) {
            Ok(PortTag::Down)
        } else if is_word(u, vec!['L', 'E', 'F', 'T']) {
            Ok(PortTag::Left)
        } else if is_word(u, vec!['R', 'I', 'G', 'H', 'T']) {
            Ok(PortTag::Right)
        } else {
            Err(ParseError::UnknownPort)
        }
    }

    /// The direction named by `s`, in any case.
    pub fn from_chars(s: &[char]) -> (r: Result<PortTag, ParseError>)
        ensures
            r == port_named(upper_of(s@)),
    {
        let u = to_upper(s);
        PortTag::from_upper(&u)
    }

    /// The direction named by `s`, in any case.
    pub fn from_str(s: &str) -> (r: Result<PortTag, ParseError>)
        ensures
            r == port_named(upper_of(s@)),
    {
        let cs = chars_of(s);
        PortTag::from_chars(&cs)
    }
}

/// The port named after the `P:` of the upper-case operand `u`.
fn port_after_prefix(u: &[char]) -> (r: Result<PortTag, ParseError>)
    requires
        starts_with(u@, seq!['P', ':']),
    ensures
        r == port_named(upper_of(u@.skip(2))),
{
    let rest = copy_range(u, 2, u.len());
    assert(rest@ =~= u@.skip(2));
    PortTag::from_chars(&rest)
}

/// Whether the upper-case operand `u` starts with `P:`.
fn has_port_prefix(u: &[char]) -> (r: bool)
    ensures
        r == starts_with(u@, seq!['P', ':']),
{
    let p = vec!['P', ':'];
    assert(p@ =~= seq!['P', ':']);
    has_prefix(u, p.as_slice())
}

impl Src {
    pub open spec fn spec_to_code(self) -> u8 {
        match self {
            Src::Lit(_) => 0,
            Src::Acc => 1,
            Src::Nil => 2,
            Src::In => 3,
            Src::P(_) => 4,
            Src::Last => 5,
        }
    }

    /// The operand kind's tag, 0 to 5.
    pub fn to_code(&self) -> (r: u8)
        ensures
            r == self.spec_to_code(),
    {
        match self {
            Src::Lit(_) => 0,
            Src::Acc => 1,
            Src::Nil => 2,
            Src::In => 3,
            Src::P(_) => 4,
            Src::Last => 5,
        }
    }

    /// The source operand written `s`, given its upper-case form `u`.
    pub fn from_upper(s: &[char], u: &[char]) -> (r: Result<Src, ParseError>)
        ensures
            r == src_named(s@, u@),
    {
        if is_word(u, vec!['A', 'C', 'C']) {
            return Ok(Src::Acc);
        }
        if is_word(u, vec!['N', 'I', 'L']) {
            return Ok(Src::Nil);
        }
        if is_word(u, vec!['I', 'N']) {
            return Ok(Src::In);
        }
        if is_word(u, vec!['L', 'A', 'S', 'T']) {
            return Ok(Src::Last);
        }
        if has_port_prefix(u) {
            return match port_after_prefix(u) {
                Ok(p) => Ok(Src::P(p)),
                Err(e) => Err(e),
            };
        }
        match unsigned_decimal(s, 0xffff_ffff) {
            Some(v) => Ok(Src::Lit(v as u32)),
            None => {
                if s.len() > 0 && s[0] == '-' {
                    assert(s@.subrange(1, s@.len() as int) =~= s@.drop_first());
                    match numeral_from(s, 1, 0x8000_0000) {
                        Some(m) => {
                            let lit: u32 = if m == 0 {
                                0
                            } else {
                                (0x1_0000_0000u64 - m) as u32
                            };
                            Ok(Src::Lit(lit))
                        },
                        None => Err(ParseError::InvalidSource),
                    }
                } else {
                    match unsigned_decimal(s, 0x7fff_ffff) {
                        Some(v) => Ok(Src::Lit(v as u32)),
                        None => Err(ParseError::InvalidSource),
                    }
                }
            },
        }
    }

    /// The source operand written `s`.
    pub fn from_chars(s: &[char]) -> (r: Result<Src, ParseError>)
        ensures
            r == src_named(s@, upper_of(s@)),
    {
        let u = to_upper(s);
        Src::from_upper(s, &u)
    }

    /// The source operand written `s`.
    pub fn from_str(s: &str) -> (r: Result<Src, ParseError>)
        ensures
            r == src_named(s@, upper_of(s@)),
    {
        let cs = chars_of(s);
        Src::from_chars(&cs)
    }
}

impl Dst {
    pub open spec fn spec_to_code(self) -> u8 {
        match self {
            Dst::Acc => 0,
            Dst::Nil => 1,
            Dst::Out => 2,
            Dst::P(_) => 3,
            Dst::Last => 4,
        }
    }

    /// The operand kind's tag, 0 to 4.
    pub fn to_code(&self) -> (r: u8)
        ensures
            r == self.spec_to_code(),
    {
        match self {
            Dst::Acc => 0,
            Dst::Nil => 1,
            Dst::Out => 2,
            Dst::P(_) => 3,
            Dst::Last => 4,
        }
    }

    /// The destination operand whose upper-case form is `u`.
    pub fn from_upper(u: &[char]) -> (r: Result<Dst, ParseError>)
        ensures
            r == dst_named(u@),
    {
        if is_word(u, vec!['A', 'C', 'C']) {
            Ok(Dst::Acc)
        } else if is_word(u, vec!['N', 'I', 'L']) {
            Ok(Dst::Nil)
        } else if is_word(u, vec!['O', 'U', 'T']) {
            Ok(Dst::Out)
        } else if is_word(u, vec!['L', 'A', 'S', 'T']) {
            Ok(Dst::Last)
        } else if has_port_prefix(u) {
            match port_after_prefix(u) {
                Ok(p) => Ok(Dst::P(p)),
                Err(e) => Err(e),
            }
        } else {
            Err(ParseError::InvalidDestination)
        }
    }

    /// The destination operand written `s`.
    pub fn from_chars(s: &[char]) -> (r: Result<Dst, ParseError>)
        ensures
            r == dst_named(upper_of(s@)),
    {
        let u = to_upper(s);
        Dst::from_upper(&u)
    }

    /// The destination operand written `s`.
    pub fn from_str(s: &str) -> (r: Result<Dst, ParseError>)
        ensures
            r == dst_named(upper_of(s@)),
    {
        let cs = chars_of(s);
        Dst::from_chars(&cs)
    }
}

/// The literal carried by a source operand, 0 for any other kind.
pub open spec fn lit_field(src: Src) -> u32 {
    match src {
        Src::Lit(v) => v,
        _ => 0,
    }
}

/// The direction code of a source port, 0 for any other kind.
pub open spec fn src_port_field(src: Src) -> u32 {
    match src {
        Src::P(p) => p.spec_code(),
        _ => 0,
    }
}

/// The direction code of a destination port, 0 for any other kind.
pub open spec fn dst_port_field(dst: Dst) -> u32 {
    match dst {
        Dst::P(p) => p.spec_code(),
        _ => 0,
    }
}

/// The instruction word: each field masked to its width and shifted into
/// place. Only the low byte of a literal is kept.
pub open spec fn pack(lit: u32, sp: u32, dp: u32, op: u32, st: u32, dt: u32) -> u32 {
    ((lit & 0xff) << 24u32) | ((sp & 0x3) << 22u32) | ((dp & 0x3) << 20u32) | ((op & 0xf)
        << 16u32) | ((st & 0xff) << 8u32) | (dt & 0xff)
}

impl Inst {
    pub open spec fn spec_encode(self) -> u32 {
        pack(
            lit_field(self.src),
            src_port_field(self.src),
            dst_port_field(self.dst),
            self.op.spec_code(),
            self.src.spec_to_code() as u32,
            self.dst.spec_to_code() as u32,
        )
    }

    /// The instruction's 32-bit word.
    pub fn encode(&self) -> (r: u32)
        ensures
            r == self.spec_encode(),
    {
        let lit_val: u32 = match self.src {
            Src::Lit(val) => val,
            _ => 0,
        };
        let src_port: u32 = match self.src {
            Src::P(port) => port.code(),
            _ => 0,
        };
        let dst_port: u32 = match self.dst {
            Dst::P(port) => port.code(),
            _ => 0,
        };
        ((lit_val & 0xff) << 24u32) | ((src_port & 0x3) << 22u32) | ((dst_port & 0x3) << 20u32) | ((
        self.op.code() & 0xf) << 16u32) | ((self.src.to_code() as u32 & 0xff) << 8u32) | (
        self.dst.to_code() as u32 & 0xff)
    }
}

/// The fields of a packed word read back: the literal's low byte, the two
/// port directions, the operation code and the two operand tags.
pub proof fn lemma_pack_fields(lit: u32, sp: u32, dp: u32, op: u32, st: u32, dt: u32)
    requires
        sp < 4,
        dp < 4,
        op < 16,
        st < 256,
        dt < 256,
    ensures
        (pack(lit, sp, dp, op, st, dt) >> 24u32) & 0xff == lit & 0xff,
        (pack(lit, sp, dp, op, st, dt) >> 22u32) & 0x3 == sp,
        (pack(lit, sp, dp, op, st, dt) >> 20u32) & 0x3 == dp,
        (pack(lit, sp, dp, op, st, dt) >> 16u32) & 0xf == op,
        (pack(lit, sp, dp, op, st, dt) >> 8u32) & 0xff == st,
        pack(lit, sp, dp, op, st, dt) & 0xff == dt,
{
    assert((pack(lit, sp, dp, op, st, dt) >> 24u32) & 0xff == lit & 0xff) by (bit_vector);
    assert(sp < 4 ==> (pack(lit, sp, dp, op, st, dt) >> 22u32) & 0x3 == sp) by (bit_vector);
    assert(dp < 4 ==> (pack(lit, sp, dp, op, st, dt) >> 20u32) & 0x3 == dp) by (bit_vector);
    assert(op < 16 ==> (pack(lit, sp, dp, op, st, dt) >> 16u32) & 0xf == op) by (bit_vector);
    assert(st < 256 ==> (pack(lit, sp, dp, op, st, dt) >> 8u32) & 0xff == st) by (bit_vector);
    assert(dt < 256 ==> pack(lit, sp, dp, op, st, dt) & 0xff == dt) by (bit_vector);
}

/// Decoding the bit fields of an instruction's word gives back its
/// operation code, its two operand tags, its two port directions and the
/// low byte of its literal.
pub proof fn lemma_encode_round_trip(i: Inst)
    ensures
        (i.spec_encode() >> 24u32) & 0xff == lit_field(i.src) & 0xff,
        (i.spec_encode() >> 22u32) & 0x3 == src_port_field(i.src),
        (i.spec_encode() >> 20u32) & 0x3 == dst_port_field(i.dst),
        (i.spec_encode() >> 16u32) & 0xf == i.op.spec_code(),
        (i.spec_encode() >> 8u32) & 0xff == i.src.spec_to_code() as u32,
        i.spec_encode() & 0xff == i.dst.spec_to_code() as u32,
{
    lemma_pack_fields(
        lit_field(i.src),
        src_port_field(i.src),
        dst_port_field(i.dst),
        i.op.spec_code(),
        i.src.spec_to_code() as u32,
        i.dst.spec_to_code() as u32,
    );
}

} // verus!
