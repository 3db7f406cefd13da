use zk100::instruction::{Dst, Inst, Op, ParseError, PortTag, Src};

#[test]
fn test_op_from_str() {
    assert_eq!(Op::from_str("MOV").unwrap(), Op::Mov);
    assert_eq!(Op::from_str("add").unwrap(), Op::Add);
    assert_eq!(Op::from_str("HLT").unwrap(), Op::Hlt);
    assert!(Op::from_str("INVALID").is_err());
}

#[test]
fn test_src_from_str() {
    assert_eq!(Src::from_str("ACC").unwrap(), Src::Acc);
    assert_eq!(Src::from_str("42").unwrap(), Src::Lit(42));
    assert_eq!(Src::from_str("-5").unwrap(), Src::Lit(0xFFFFFFFB));
    assert_eq!(Src::from_str("P:UP").unwrap(), Src::P(PortTag::Up));
}

#[test]
fn test_encode_instruction() {
    let nop = Inst {
        op: Op::Nop,
        src: Src::Nil,
        dst: Dst::Nil,
    };
    assert_eq!(nop.encode(), 0x00C0201);

    let mov_lit = Inst {
        op: Op::Mov,
        src: Src::Lit(42),
        dst: Dst::Acc,
    };
    assert_eq!(mov_lit.encode(), 0x2A010000);
}

#[test]
fn op_codes_and_case() {
    assert_eq!(Op::from_str("jnz").unwrap(), Op::Jnz);
    assert_eq!(Op::from_str("Jz").unwrap(), Op::Jz);
    assert_eq!(Op::from_str("nop").unwrap().code(), 12);
    assert_eq!(Op::from_str("hlt").unwrap().code(), 13);
    assert_eq!(Op::Mov.code(), 1);
    assert_eq!(Op::from_str(""), Err(ParseError::UnknownOperation));
}

#[test]
fn port_tags() {
    assert_eq!(PortTag::from_str("down").unwrap(), PortTag::Down);
    assert_eq!(PortTag::from_str("Left").unwrap().code(), 2);
    assert_eq!(PortTag::from_str("RIGHT").unwrap().code(), 3);
    assert_eq!(PortTag::from_str("north"), Err(ParseError::UnknownPort));
}

#[test]
fn source_operands() {
    assert_eq!(Src::from_str("nil").unwrap(), Src::Nil);
    assert_eq!(Src::from_str("In").unwrap(), Src::In);
    assert_eq!(Src::from_str("last").unwrap(), Src::Last);
    assert_eq!(Src::from_str("p:right").unwrap(), Src::P(PortTag::Right));
    assert_eq!(Src::from_str("+7").unwrap(), Src::Lit(7));
    assert_eq!(Src::from_str("4294967295").unwrap(), Src::Lit(u32::MAX));
    assert_eq!(Src::from_str("-2147483648").unwrap(), Src::Lit(0x8000_0000));
    assert_eq!(Src::from_str("-0").unwrap(), Src::Lit(0));
    assert_eq!(Src::from_str("4294967296"), Err(ParseError::InvalidSource));
    assert_eq!(Src::from_str("-2147483649"), Err(ParseError::InvalidSource));
    assert_eq!(Src::from_str("loop"), Err(ParseError::InvalidSource));
    assert_eq!(Src::from_str("-"), Err(ParseError::InvalidSource));
    assert_eq!(Src::from_str("P:SIDEWAYS"), Err(ParseError::UnknownPort));
    assert_eq!(Src::from_str("ACC").unwrap().to_code(), 1);
    assert_eq!(Src::Lit(3).to_code(), 0);
    assert_eq!(Src::Last.to_code(), 5);
}

#[test]
fn destination_operands() {
    assert_eq!(Dst::from_str("acc").unwrap(), Dst::Acc);
    assert_eq!(Dst::from_str("OUT").unwrap(), Dst::Out);
    assert_eq!(Dst::from_str("P:down").unwrap(), Dst::P(PortTag::Down));
    assert_eq!(Dst::from_str("IN"), Err(ParseError::InvalidDestination));
    assert_eq!(Dst::from_str("42"), Err(ParseError::InvalidDestination));
    assert_eq!(Dst::from_str("P:x"), Err(ParseError::UnknownPort));
    assert_eq!(Dst::Nil.to_code(), 1);
    assert_eq!(Dst::P(PortTag::Up).to_code(), 3);
    assert_eq!(Dst::Last.to_code(), 4);
}

#[test]
fn encoded_fields_decode_back() {
    let cases = [
        Inst { op: Op::Mov, src: Src::P(PortTag::Left), dst: Dst::P(PortTag::Right) },
        Inst { op: Op::Jgz, src: Src::Lit(0x1234_56ab), dst: Dst::Nil },
        Inst { op: Op::Swp, src: Src::Nil, dst: Dst::Nil },
        Inst { op: Op::Mov, src: Src::Last, dst: Dst::Out },
    ];
    for i in cases {
        let w = i.encode();
        let lit = match i.src {
            Src::Lit(v) => v & 0xff,
            _ => 0,
        };
        let sp = match i.src {
            Src::P(p) => p.code(),
            _ => 0,
        };
        let dp = match i.dst {
            Dst::P(p) => p.code(),
            _ => 0,
        };
        assert_eq!((w >> 24) & 0xff, lit);
        assert_eq!((w >> 22) & 0x3, sp);
        assert_eq!((w >> 20) & 0x3, dp);
        assert_eq!((w >> 16) & 0xf, i.op.code());
        assert_eq!((w >> 8) & 0xff, i.src.to_code() as u32);
        assert_eq!(w & 0xff, i.dst.to_code() as u32);
    }
    let mov = Inst { op: Op::Mov, src: Src::P(PortTag::Left), dst: Dst::P(PortTag::Right) };
    assert_eq!(mov.encode(), 0x00b1_0403);
}

#[test]
fn literal_keeps_low_byte_only() {
    let a = Inst { op: Op::Add, src: Src::Lit(0x1ff), dst: Dst::Nil };
    let b = Inst { op: Op::Add, src: Src::Lit(0xff), dst: Dst::Nil };
    assert_eq!(a.encode(), b.encode());
    assert_eq!(a.encode(), 0xff02_0001);
}
