use reikura::tools::assembler::{Labels, Serializer, build_isf, parse_all_labels, parse_line, split_lines};
use reikura::tools::params::{AsmError, ParamParser, Value};
use reikura::gdl::scenario::Scenario;
use reikura::util::text::chars_of;

#[test]
fn test_param_parser() {
    let mut parser = ParamParser::new(
        r#"
            989,"Test", "Foo\nBar", "Foo\s", 87, 54535,-2
        "#
        .trim(),
    );

    assert_eq!(parser.next().unwrap(), "989");
    assert_eq!(parser.read_string().unwrap(), "Test");
    assert_eq!(parser.read_string().unwrap(), "Foo\nBar");
    assert!(parser.read_string().is_err());
    assert_eq!(parser.next().unwrap(), "\"Foo\\s\"");
    assert_eq!(parser.read_num::<u8>().unwrap(), 87);
    assert_eq!(parser.read_num::<u16>().unwrap(), 54535);
    assert_eq!(parser.read_num::<i32>().unwrap(), -2);

    let mut parser = ParamParser::new(
        r#"
            @78,%-12,%99,7892,   -232
        "#
        .trim(),
    );
    assert_eq!(parser.read_value().unwrap(), Value::Register(78));
    assert_eq!(parser.read_value().unwrap(), Value::Random(-12));
    assert_eq!(parser.read_value().unwrap(), Value::Random(99));
    assert_eq!(parser.read_value().unwrap(), Value::Literal(7892));
    assert_eq!(parser.read_value().unwrap(), Value::Literal(-232));
}

#[test]
fn read_num_follows_integer_parsing() {
    let mut p = ParamParser::new("256, +5, -0, 65535, -2147483648, 12x, ");
    assert_eq!(p.read_num::<u8>(), Err(AsmError::InvalidNumber));
    assert_eq!(p.read_num::<u8>(), Ok(5));
    assert_eq!(p.read_num::<u8>(), Err(AsmError::InvalidNumber));
    assert_eq!(p.read_num::<u16>(), Ok(65535));
    assert_eq!(p.read_num::<i32>(), Ok(i32::MIN));
    assert_eq!(p.read_num::<u32>(), Err(AsmError::InvalidNumber));
    assert_eq!(p.read_num::<u32>(), Err(AsmError::UnexpectedEndOfParam));
}

#[test]
fn read_string_errors() {
    let mut p = ParamParser::new("abc");
    assert_eq!(p.read_string(), Err(AsmError::NotAString));
    let mut p = ParamParser::new("\"abc");
    assert_eq!(p.read_string(), Err(AsmError::UnexpectedEndOfString));
    let mut p = ParamParser::new("\"a\\qb\"");
    assert_eq!(p.read_string(), Err(AsmError::InvalidEscape('q')));
    let mut p = ParamParser::new("\"a,b\\\"c\\\\\", 5");
    assert_eq!(p.read_string().unwrap(), "a,b\"c\\");
    assert_eq!(p.read_num::<u8>(), Ok(5));
    assert!(p.is_exhausted());
}

#[test]
fn read_label_and_assetname() {
    let mut p = ParamParser::new("LABEL_0001, 1abc, \"x\", START");
    assert_eq!(p.read_label().unwrap(), "LABEL_0001");
    assert_eq!(p.read_label(), Err(AsmError::InvalidLabel));
    assert_eq!(p.read_label(), Err(AsmError::InvalidLabel));
    assert_eq!(p.read_label().unwrap(), "START");
    assert_eq!(p.read_label(), Err(AsmError::UnexpectedEndOfParam));

    let mut p = ParamParser::new("\"0123456789AB\", \"0123456789ABC\"");
    assert_eq!(p.read_assetname().unwrap(), "0123456789AB");
    assert_eq!(p.read_assetname(), Err(AsmError::AssetNameTooLong));
}

#[test]
fn read_value_errors() {
    let mut p = ParamParser::new("@70000, %x, y");
    assert_eq!(p.read_value(), Err(AsmError::InvalidRegister));
    assert_eq!(p.read_value(), Err(AsmError::InvalidRandom));
    assert_eq!(p.read_value(), Err(AsmError::InvalidValue));
}

#[test]
fn param_count_counts_the_last_parameter() {
    let mut p = ParamParser::new("1, 2, 3");
    assert_eq!(p.param_count(), 1);
    let mut p = ParamParser::new("1,");
    assert_eq!(p.param_count(), 0);
    let mut p = ParamParser::new("");
    assert!(p.is_exhausted());
    assert_eq!(p.param_count(), 0);
}

#[test]
fn parse_line_splits_at_first_space() {
    let (mnemonic, mut params) = parse_line("JP LABEL_0001, x");
    assert_eq!(mnemonic, "JP");
    assert_eq!(params.read_label().unwrap(), "LABEL_0001");
    assert_eq!(params.next().unwrap(), "x");
    let (mnemonic, mut params) = parse_line("ED");
    assert_eq!(mnemonic, "ED");
    assert!(params.is_exhausted());
}

#[test]
fn serializer_encodes_instructions() {
    let mut s = Serializer::new(0x10);
    s.write_num(1u8);
    s.write_num(0x0203u16);
    s.write_value(Value::Register(5));
    s.write_value(Value::Random(99));
    s.write_value(Value::Random(-12));
    s.write_value(Value::Literal(-2));
    s.write_string("ab");
    let mut out = Vec::new();
    let n = s.serialize_into(&mut out);
    assert_eq!(n, 23);
    let expected: Vec<u8> = vec![
        0x10, 23, 1, 3, 2, 5, 0, 0, 0x40, 0x63, 0, 0, 0x20, 0xF4, 0xFF, 0xFF, 0xFF, 0xFE, 0xFF,
        0xFF, 0xFF, b'a', b'b',
    ];
    assert_eq!(out, expected);
}

#[test]
fn serializer_long_instruction() {
    let mut s = Serializer::new(7);
    s.write_bytes(&[9u8; 200]);
    let mut out = vec![0xEE];
    let n = s.serialize_into(&mut out);
    assert_eq!(n, 203);
    assert_eq!(out.len(), 1 + 203);
    assert_eq!(&out[..4], &[0xEE, 7, 0xCB, 0x80]);
    assert!(out[4..].iter().all(|b| *b == 9));
}

#[test]
fn labels_are_numbered_in_order() {
    let labels = parse_all_labels("#A:\n  foo\n  #B:  \r\n").unwrap();
    assert_eq!(labels.get_label_index(&chars_of("A")), Ok(0));
    assert_eq!(labels.get_label_index(&chars_of("B")), Ok(1));
    assert_eq!(labels.get_label_index(&chars_of("C")), Err(AsmError::UndefinedLabel));
    assert_eq!(labels.subroutine_offsets(), &vec![0, 0]);
}

#[test]
fn duplicate_label_is_refused_with_its_line() {
    let r = parse_all_labels("#START:\n  JP START\n#END:\r\n#START:");
    assert!(matches!(r, Err(AsmError::DuplicateLabel { line: 3 })));
}

#[test]
fn new_subroutine_records_offsets() {
    let mut labels = Labels::new();
    labels.new_label(&chars_of("A"), 0).unwrap();
    labels.new_label(&chars_of("B"), 1).unwrap();
    assert_eq!(labels.new_subroutine(&chars_of("B"), 300), Ok(()));
    assert_eq!(labels.new_subroutine(&chars_of("C"), 1), Err(AsmError::LabelNotFound));
    assert_eq!(labels.subroutine_offsets(), &vec![0, 300]);
    assert_eq!(labels.new_label(&chars_of("A"), 9), Err(AsmError::DuplicateLabel { line: 9 }));
    assert_eq!(labels.get_label_index(&chars_of("A")), Ok(2));
}

#[test]
fn split_lines_like_str_lines() {
    let text = "a\r\nb\n\nc\r";
    let lines = split_lines(&chars_of(text));
    let expected: Vec<Vec<char>> = text.lines().map(|l| l.chars().collect()).collect();
    assert_eq!(lines, expected);
    assert!(split_lines(&chars_of("")).is_empty());
    assert_eq!(split_lines(&chars_of("x\n")).len(), 1);
}

#[test]
fn built_isf_loads_back() {
    let subs = vec![0u32, 5, 0x0102_0304];
    let code = vec![1u8, 2, 3, 0xFF, 0x80];
    let file = build_isf(&subs, &code);
    assert_eq!(file.len(), 8 + 12 + 5);
    assert_eq!(&file[..8], &[20, 0, 0, 0, 0x95, 0x97, 0, 0]);
    let s = Scenario::load(String::from("test"), file).unwrap();
    assert_eq!(s.code_offset, 20);
    assert_eq!(s.code, code);
    assert_eq!(s.subroutines, vec![0usize, 5, 0x0102_0304]);
    assert_eq!(s.name, "test");
}

use reikura::tools::assemble::{LineError, OpcodeTable, assemble};

fn opcode_table() -> OpcodeTable {
    let mut t = OpcodeTable::new();
    for (name, op) in [("ED", 0x00u8), ("JP", 0x01), ("LS", 0x05), ("SK", 0x10), ("ONJP", 0x20), ("CNS", 0x30), ("CALC", 0x40)] {
        assert!(t.insert(name, op));
    }
    assert!(!t.insert("ED", 0x7F));
    t
}

#[test]
fn opcode_table_lookup() {
    let t = opcode_table();
    assert_eq!(t.get(&chars_of("ED")), Some(0x00));
    assert_eq!(t.get(&chars_of("ONJP")), Some(0x20));
    assert_eq!(t.get(&chars_of("NOPE")), None);
}

#[test]
fn assemble_a_scenario() {
    let text = "; comment\n#START:\n  SK 12, 1\n  JP END\n#END:\n  ONJP @3, START, END\n  CNS 1, 2, \"名\\n\"\n  ED\n";
    let file = assemble(text, &opcode_table()).unwrap();
    let s = Scenario::load(String::new(), file).unwrap();
    let mut code = vec![0x10, 5, 12, 0, 1, 0x01, 4, 1, 0];
    code.extend_from_slice(&[0x20, 11, 3, 0, 0, 0x40, 2, 0, 0, 1, 0]);
    code.extend_from_slice(&[0x30, 2 + 2 + 4, 1, 2]);
    code.extend_from_slice("名\n".as_bytes());
    code.extend_from_slice(&[0x00, 2]);
    assert_eq!(s.code_offset, 16);
    assert_eq!(s.subroutines, vec![0, 9]);
    assert_eq!(s.code, code);
}

#[test]
fn assemble_errors_name_their_line() {
    let t = opcode_table();
    assert_eq!(
        assemble("ED\nFOO 1", &t),
        Err(LineError { line: 1, error: AsmError::InvalidInstruction })
    );
    assert_eq!(
        assemble("CALC 1", &t),
        Err(LineError { line: 0, error: AsmError::UnimplementedInstruction })
    );
    assert_eq!(
        assemble("\n\nSK 70000, 1", &t),
        Err(LineError { line: 2, error: AsmError::InvalidNumber })
    );
    assert_eq!(
        assemble("JP NOPE", &t),
        Err(LineError { line: 0, error: AsmError::UndefinedLabel })
    );
    assert_eq!(
        assemble("#A:\n#A:", &t),
        Err(LineError { line: 1, error: AsmError::DuplicateLabel { line: 1 } })
    );
    assert_eq!(
        assemble("LS \"0123456789ABC\"", &t),
        Err(LineError { line: 0, error: AsmError::AssetNameTooLong })
    );
}

#[test]
fn assemble_empty_scenario() {
    let file = assemble("", &opcode_table()).unwrap();
    assert_eq!(file, vec![8, 0, 0, 0, 0x95, 0x97, 0, 0]);
}
