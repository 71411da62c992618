use reikura::tools::disassembler::{
    Formatter, display_bytes, display_bytes_as_string, display_label, display_message,
    display_string, display_value, get_obfuscated, signature_bytes,
};
use reikura::tools::packer::{PackEntry, PackError, create_header, header_fits};
use reikura::tools::params::{ParamParser, Value};
use reikura::util::encoding::InvalidSJIS;

#[test]
fn bytes_and_strings() {
    assert_eq!(display_bytes(&[0x0A, 0xFF]), "<0A FF>");
    assert_eq!(display_bytes(&[0x00]), "<00>");
    assert_eq!(display_bytes(&[]), "");
    assert_eq!(display_string("a\"b\\c\nd\re"), "\"a\\\"b\\\\c\\nd\\re\"");
    assert_eq!(display_message("[x]\\\n"), "[\\[x\\]\\\\\\n]");
    assert_eq!(display_message("\"ok\""), "[\"ok\"]");
}

#[test]
fn values_and_labels() {
    assert_eq!(display_value(Value::Literal(-5)), "-5");
    assert_eq!(display_value(Value::Literal(7892)), "7892");
    assert_eq!(display_value(Value::Register(78)), "@78");
    assert_eq!(display_value(Value::Random(-12)), "%-12");
    assert_eq!(display_label(7), "LABEL_0007");
    assert_eq!(display_label(12345), "LABEL_12345");
}

#[test]
fn shift_jis_strings() {
    assert_eq!(display_bytes_as_string(b"a\"b").unwrap(), "\"a\\\"b\"");
    assert_eq!(display_bytes_as_string(&[0x82, 0xA0]).unwrap(), "\"あ\"");
    assert!(matches!(display_bytes_as_string(&[0x82]), Err(InvalidSJIS::DecodeError(_))));
}

#[test]
fn formatter_lines() {
    let mut f = Formatter::new("JP", 0x10);
    f.add_param("LABEL_0001");
    f.add_param("5");
    assert_eq!(f.write(), format!("    {:16} {}\n", "JP", "LABEL_0001, 5"));
    assert_eq!(Formatter::new("", 0xAB).write(), "    <AB>\n");
    let mut f = Formatter::new("AVERYLONGMNEMONIC", 1);
    f.add_param("1");
    assert_eq!(f.write(), "    AVERYLONGMNEMONIC 1\n");
}

#[test]
fn obfuscation_signature() {
    let mut data = b"abc".to_vec();
    data.extend_from_slice(&signature_bytes());
    assert_eq!(get_obfuscated(&data), Some(3));
    assert_eq!(get_obfuscated(b"abc"), None);
    assert_eq!(get_obfuscated(b"abcSECRETFILTER100b"), None);
    assert_eq!(get_obfuscated(b"SECRETFILTER100a"), Some(0));
}

#[test]
fn written_values_read_back() {
    for v in [
        Value::Literal(0),
        Value::Literal(-2147483648),
        Value::Literal(2147483647),
        Value::Register(0),
        Value::Register(65535),
        Value::Random(-12),
        Value::Random(99),
    ] {
        let text = display_value(v);
        assert_eq!(ParamParser::new(&text).read_value(), Ok(v));
    }
}

#[test]
fn written_strings_read_back() {
    for s in ["", "plain", "a\"b\\c\nd\re", "comma, inside", "\\n"] {
        let text = display_string(s);
        let mut p = ParamParser::new(&text);
        assert_eq!(p.read_string().unwrap(), s);
    }
}

#[test]
fn archive_header() {
    let mut name = [0u8; 12];
    name[..4].copy_from_slice(b"data");
    let entries = vec![
        PackEntry { filename: b"a.txt".to_vec(), size: 5 },
        PackEntry { filename: b"b".to_vec(), size: 20 },
    ];
    let h = create_header(name, &entries).unwrap();
    let mut expected = b"SM2MPX10".to_vec();
    expected.extend_from_slice(&2u32.to_le_bytes());
    expected.extend_from_slice(&72u32.to_le_bytes());
    expected.extend_from_slice(&name);
    expected.extend_from_slice(&32u32.to_le_bytes());
    expected.extend_from_slice(b"a.txt\0\0\0\0\0\0\0");
    expected.extend_from_slice(&80u32.to_le_bytes());
    expected.extend_from_slice(&5u32.to_le_bytes());
    expected.extend_from_slice(b"b\0\0\0\0\0\0\0\0\0\0\0");
    expected.extend_from_slice(&96u32.to_le_bytes());
    expected.extend_from_slice(&20u32.to_le_bytes());
    expected.extend_from_slice(&[0u8; 8]);
    assert_eq!(h, expected);
}

#[test]
fn archive_header_refuses_bad_names() {
    let entries = vec![
        PackEntry { filename: b"ok".to_vec(), size: 1 },
        PackEntry { filename: b"thirteen_char".to_vec(), size: 1 },
    ];
    assert!(matches!(create_header([0; 12], &entries), Err(PackError::IllegalFilename(ref f)) if f == b"thirteen_char"));
    let entries = vec![PackEntry { filename: vec![b'a', 0xC3, 0xA9], size: 1 }];
    assert!(matches!(create_header([0; 12], &entries), Err(PackError::IllegalFilename(_))));
    let h = create_header([0; 12], &[]).unwrap();
    assert_eq!(h.len(), 32);
}

#[test]
fn header_fits_checks_the_addresses() {
    let small = vec![PackEntry { filename: b"A.TXT".to_vec(), size: 10 }];
    assert!(header_fits(&small));
    let huge = vec![
        PackEntry { filename: b"A.TXT".to_vec(), size: u32::MAX - 20 },
        PackEntry { filename: b"B.TXT".to_vec(), size: 1 },
    ];
    assert!(!header_fits(&huge));
    // the start of the first file after an illegal name is never computed
    let stops = vec![
        PackEntry { filename: b"A.TXT".to_vec(), size: 1 },
        PackEntry { filename: b"FAR TOO LONG NAME".to_vec(), size: u32::MAX },
        PackEntry { filename: b"C.TXT".to_vec(), size: u32::MAX },
    ];
    assert!(header_fits(&stops));
    assert!(matches!(create_header(*b"ARCHIVE\0\0\0\0\0", &stops), Err(PackError::IllegalFilename(_))));
}
