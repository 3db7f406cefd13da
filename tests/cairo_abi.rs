use serde_json::Value;
use zk100::cairo_abi::{arg_texts_of, generate_args, parse_u32_array};

#[test]
fn test_generate_args_empty() {
    let inputs = vec![];
    let expected = vec![];
    let prog_words = vec![];

    let args = generate_args(&inputs, &expected, &prog_words);

    assert_eq!(args.len(), 3);
    assert_eq!(args[0], Value::String("0x0".to_string()));
    assert_eq!(args[1], Value::String("0x0".to_string()));
    assert_eq!(args[2], Value::String("0x0".to_string()));
}

#[test]
fn test_generate_args_with_data() {
    let inputs = vec![1, 2, 3];
    let expected = vec![10, 20];
    let prog_words = vec![100, 200, 300, 400];

    let args = generate_args(&inputs, &expected, &prog_words);

    assert_eq!(args.len(), 12);
    assert_eq!(args[0], Value::String("0x3".to_string()));
    assert_eq!(args[1], Value::String("0x1".to_string()));
    assert_eq!(args[2], Value::String("0x2".to_string()));
    assert_eq!(args[3], Value::String("0x3".to_string()));
    assert_eq!(args[4], Value::String("0x2".to_string()));
    assert_eq!(args[5], Value::String("0xa".to_string()));
    assert_eq!(args[6], Value::String("0x14".to_string()));
    assert_eq!(args[7], Value::String("0x4".to_string()));
    assert_eq!(args[8], Value::String("0x64".to_string()));
    assert_eq!(args[9], Value::String("0xc8".to_string()));
    assert_eq!(args[10], Value::String("0x12c".to_string()));
    assert_eq!(args[11], Value::String("0x190".to_string()));
}

#[test]
fn test_parse_u32_array() {
    assert_eq!(parse_u32_array(""), Vec::<u32>::new());
    assert_eq!(parse_u32_array("42"), vec![42u32]);
    assert_eq!(parse_u32_array("1,2,3"), vec![1u32, 2, 3]);
    assert_eq!(parse_u32_array("10, 20, 30"), vec![10u32, 20, 30]);
}

#[test]
fn args_hex_edge_values() {
    let args = generate_args(&[0, u32::MAX, 42], &[], &[0x000c_0201]);
    assert_eq!(args[0], Value::String("0x3".to_string()));
    assert_eq!(args[1], Value::String("0x0".to_string()));
    assert_eq!(args[2], Value::String("0xffffffff".to_string()));
    assert_eq!(args[3], Value::String("0x2a".to_string()));
    assert_eq!(args[4], Value::String("0x0".to_string()));
    assert_eq!(args[5], Value::String("0x1".to_string()));
    assert_eq!(args[6], Value::String("0xc0201".to_string()));
}

#[test]
fn u32_list_skips_bad_pieces() {
    assert_eq!(parse_u32_array("5,,x, +6 ,4294967296,4294967295"), vec![5u32, 6, u32::MAX]);
    assert_eq!(parse_u32_array(" , "), Vec::<u32>::new());
    assert_eq!(parse_u32_array("-1,7"), vec![7u32]);
}

#[test]
fn argument_texts() {
    let texts = arg_texts_of(&[255], &[16, 0], &[]);
    assert_eq!(texts, vec!["0x1", "0xff", "0x2", "0x10", "0x0", "0x0"]);
    let args = generate_args(&[255], &[16, 0], &[]);
    let expected: Vec<Value> = texts.into_iter().map(Value::String).collect();
    assert_eq!(args, expected);
}
