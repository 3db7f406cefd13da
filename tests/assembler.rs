use zk100::assembler::{encode_programs, parse_assembly, AsmError, AsmErrorKind};
use zk100::instruction::{Dst, Inst, Op, ParseError, PortTag, Src};

#[test]
fn test_parse_simple_program() {
    let code = r#"
# Simple test program
NODE (0,0)
NOP
HLT

NODE (0,1)
# Empty node
"#;

    let programs = parse_assembly(code).unwrap();
    assert_eq!(programs[0][0].len(), 2);
    assert_eq!(programs[0][1].len(), 0);
    assert_eq!(programs[1][0].len(), 0);
    assert_eq!(programs[1][1].len(), 0);
}

#[test]
fn test_parse_with_labels() {
    let code = r#"
NODE (0,0)
loop:
    ADD 1
    JNZ loop
    HLT
"#;

    let programs = parse_assembly(code).unwrap();
    assert_eq!(programs[0][0].len(), 3);
    if let Src::Lit(target) = programs[0][0][1].src {
        assert_eq!(target, 0);
    } else {
        panic!("Expected literal jump target");
    }
}

#[test]
fn test_parse_port_communication() {
    let code = r#"
NODE (0,0)
MOV 42, P:RIGHT
HLT

NODE (0,1)
MOV P:LEFT, ACC
HLT
"#;

    let programs = parse_assembly(code).unwrap();
    assert_eq!(programs[0][0].len(), 2);
    assert_eq!(programs[0][1].len(), 2);
}

#[test]
fn test_encode_programs() {
    let code = r#"
NODE (0,0)
NOP
HLT
"#;

    let programs = parse_assembly(code).unwrap();
    let words = encode_programs(&programs).unwrap();

    assert_eq!(words.len(), 6);
    assert_eq!(words[0], 2);
    assert_eq!(words[3], 0);
    assert_eq!(words[4], 0);
    assert_eq!(words[5], 0);
}

#[test]
fn nop_hlt_image() {
    let programs = parse_assembly("NODE (0,0)\nNOP\nHLT\n").unwrap();
    let nop = Inst { op: Op::Nop, src: Src::Nil, dst: Dst::Nil };
    let hlt = Inst { op: Op::Hlt, src: Src::Nil, dst: Dst::Nil };
    let words = encode_programs(&programs).unwrap();
    assert_eq!(words, vec![2, nop.encode(), hlt.encode(), 0, 0, 0]);
    assert_eq!(words, vec![2, 0x000c_0201, 0x000d_0201, 0, 0, 0]);
}

#[test]
fn jump_to_top_label_is_zero() {
    let programs = parse_assembly("NODE (0,0)\nloop:\nADD 1\nJNZ loop\n").unwrap();
    assert_eq!(programs[0][0].len(), 2);
    assert_eq!(programs[0][0][0], Inst { op: Op::Add, src: Src::Lit(1), dst: Dst::Nil });
    assert_eq!(programs[0][0][1], Inst { op: Op::Jnz, src: Src::Lit(0), dst: Dst::Nil });
}

#[test]
fn label_after_instructions_counts_them() {
    let code = "NODE (1,0)\nNOP\nSAV\nmid:\nSWP\nJMP mid\nMOV mid, ACC\nJZ end\nend:\n";
    let programs = parse_assembly(code).unwrap();
    let p = &programs[1][0];
    assert_eq!(p.len(), 6);
    assert_eq!(p[3].src, Src::Lit(2));
    assert_eq!(p[4], Inst { op: Op::Mov, src: Src::Lit(2), dst: Dst::Acc });
    assert_eq!(p[5].src, Src::Lit(6));
}

#[test]
fn labels_are_per_node() {
    let code = "NODE (0,0)\nNOP\nx:\nHLT\nNODE (1,1)\nJMP x\n";
    let r = parse_assembly(code);
    assert_eq!(r, Err(AsmError { line: 6, kind: AsmErrorKind::Parse(ParseError::InvalidSource) }));
}

#[test]
fn later_label_declaration_wins() {
    let code = "NODE (0,0)\na:\nNOP\na:\nJMP a\n";
    let programs = parse_assembly(code).unwrap();
    assert_eq!(programs[0][0][1].src, Src::Lit(1));
}

#[test]
fn empty_text_encodes_four_zeros() {
    let programs = parse_assembly("").unwrap();
    assert_eq!(encode_programs(&programs).unwrap(), vec![0, 0, 0, 0]);
    let programs = parse_assembly("# only a comment\nNOP\nloop:\n").unwrap();
    assert_eq!(encode_programs(&programs).unwrap(), vec![0, 0, 0, 0]);
}

#[test]
fn declared_empty_nodes_encode_four_zeros() {
    let code = "NODE (0,0)\nNODE (0,1)\n// nothing\nNODE (1,0)\nNODE (1,1)\n";
    let programs = parse_assembly(code).unwrap();
    assert_eq!(encode_programs(&programs).unwrap(), vec![0, 0, 0, 0]);
}

#[test]
fn row_major_image_with_ports() {
    let code = "NODE (1,1)\nMOV P:UP, OUT\nNODE (0,1)\nmov in, p:down\nNODE (0,0)\nneg\n";
    let programs = parse_assembly(code).unwrap();
    let words = encode_programs(&programs).unwrap();
    let neg = Inst { op: Op::Neg, src: Src::Nil, dst: Dst::Nil };
    let m01 = Inst { op: Op::Mov, src: Src::In, dst: Dst::P(PortTag::Down) };
    let m11 = Inst { op: Op::Mov, src: Src::P(PortTag::Up), dst: Dst::Out };
    assert_eq!(words, vec![1, neg.encode(), 1, m01.encode(), 0, 1, m11.encode()]);
    assert_eq!(m11.encode(), 0x0001_0402);
}

#[test]
fn assembly_is_deterministic() {
    let code = "NODE (0,1)\nstart:\nMOV IN, ACC\nADD -3\nJGZ start\nMOV ACC, OUT\n";
    let a = encode_programs(&parse_assembly(code).unwrap()).unwrap();
    let b = encode_programs(&parse_assembly(code).unwrap()).unwrap();
    assert_eq!(a, b);
    assert_eq!(a[0], 0);
    assert_eq!(a[1], 4);
}

#[test]
fn lines_before_any_node_are_dropped() {
    let code = "FOO BAR\nNODE (0,0)\n  NOP  \r\n";
    let programs = parse_assembly(code).unwrap();
    assert_eq!(programs[0][0].len(), 1);
}

#[test]
fn bad_coordinates() {
    let e = AsmErrorKind::BadCoordinate;
    assert_eq!(parse_assembly("NODE (2,0)\n"), Err(AsmError { line: 1, kind: e }));
    assert_eq!(parse_assembly("\nNODE (0,1,1)\n"), Err(AsmError { line: 2, kind: e }));
    assert_eq!(parse_assembly("NODE (a,0)\n"), Err(AsmError { line: 1, kind: e }));
    assert_eq!(parse_assembly("NODE (0,0) x\nNOP\nNODE 1,1"), Ok(parse_assembly("NODE (0,0)\nNOP\nNODE (1,1)").unwrap()));
    assert!(parse_assembly("NODE (1,+1)\nNOP\n").unwrap()[1][1].len() == 1);
}

#[test]
fn first_pass_errors_come_first() {
    let code = "NODE (0,0)\nBOGUS\nNODE (5,5)\n";
    assert_eq!(parse_assembly(code), Err(AsmError { line: 3, kind: AsmErrorKind::BadCoordinate }));
}

#[test]
fn operand_errors() {
    assert_eq!(
        parse_assembly("NODE (0,0)\nADD\n"),
        Err(AsmError { line: 2, kind: AsmErrorKind::MissingOperand })
    );
    assert_eq!(
        parse_assembly("NODE (0,0)\nMOV 1,ACC\n"),
        Err(AsmError { line: 2, kind: AsmErrorKind::MissingOperand })
    );
    assert_eq!(
        parse_assembly("NODE (0,0)\nFLY 3\n"),
        Err(AsmError { line: 2, kind: AsmErrorKind::Parse(ParseError::UnknownOperation) })
    );
    assert_eq!(
        parse_assembly("NODE (0,0)\nMOV 1, P:NORTH\n"),
        Err(AsmError { line: 2, kind: AsmErrorKind::Parse(ParseError::UnknownPort) })
    );
    assert_eq!(
        parse_assembly("NODE (0,0)\nNOP\nADD nowhere\n"),
        Err(AsmError { line: 3, kind: AsmErrorKind::Parse(ParseError::InvalidSource) })
    );
    assert_eq!(
        parse_assembly("NODE (0,0)\nMOV 1, 2\n"),
        Err(AsmError { line: 2, kind: AsmErrorKind::Parse(ParseError::InvalidDestination) })
    );
}

#[test]
fn earlier_node_error_reported_first() {
    let code = "NODE (1,0)\nADD x\nNODE (0,1)\nSUB y\n";
    assert_eq!(
        parse_assembly(code),
        Err(AsmError { line: 4, kind: AsmErrorKind::Parse(ParseError::InvalidSource) })
    );
}

#[test]
fn surplus_operands_are_rejected() {
    let extra = |line: usize| Err(AsmError { line, kind: AsmErrorKind::ExtraOperand });
    assert_eq!(parse_assembly("NODE (0,0)\nNOP 5\n"), extra(2));
    assert_eq!(parse_assembly("NODE (0,0)\nNOP\nHLT ACC\n"), extra(3));
    assert_eq!(parse_assembly("NODE (0,0)\nADD 1 2\n"), extra(2));
    assert_eq!(parse_assembly("NODE (0,0)\nJMP a b\na:\n"), extra(2));
    assert_eq!(parse_assembly("NODE (0,0)\nMOV a, b, c\n"), extra(2));
    assert_eq!(parse_assembly("NODE (0,0)\nMOV 1, ACC OUT\n"), extra(2));
}

#[test]
fn exact_operand_counts_are_accepted() {
    let programs = parse_assembly("NODE (0,0)\nSWP\nSUB 3\nMOV 4, OUT\n").unwrap();
    assert_eq!(programs[0][0][0], Inst { op: Op::Swp, src: Src::Nil, dst: Dst::Nil });
    assert_eq!(programs[0][0][1], Inst { op: Op::Sub, src: Src::Lit(3), dst: Dst::Nil });
    assert_eq!(programs[0][0][2], Inst { op: Op::Mov, src: Src::Lit(4), dst: Dst::Out });
}

#[test]
fn node_directive_is_case_sensitive() {
    let programs = parse_assembly("node (0,0)\nNOP\n").unwrap();
    assert_eq!(encode_programs(&programs).unwrap(), vec![0, 0, 0, 0]);
}
