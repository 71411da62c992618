use reikura::gdl::scenario::Scenario;
use reikura::tools::disassemble::{DisasmError, disassemble, value_from_word};
use reikura::tools::params::Value;

fn scenario(code: Vec<u8>, subroutines: Vec<usize>) -> Scenario {
    Scenario { code_offset: 8, name: String::from("s"), code, subroutines }
}

fn names() -> Vec<String> {
    let mut names = vec![String::new(); 256];
    for (op, name) in [(0x10, "SK"), (0x11, "JP"), (0x12, "WSH"), (0x13, "ONJP"), (0x14, "CNS")] {
        names[op] = name.to_owned();
    }
    names
}

#[test]
fn disassemble_writes_lines_and_labels() {
    let code = vec![
        0x10, 5, 0x02, 0x01, 7, // SK 258, 7
        0x11, 4, 1, 0, // JP LABEL_0001
        0x20, 3, 0xAB, // unnamed
        0x12, 6, 5, 0, 0, 0x40, // WSH @5
        0x13, 11, 1, 0, 0, 0, 2, 0, 0, 1, 0, // ONJP 1, LABEL_0000, LABEL_0001
        0x14, 6, 1, 2, b'h', b'i', // CNS 1, 2, "hi"
        0x00, 0x00, // end
        0xFF,
    ];
    let text = disassemble(&scenario(code, vec![0, 5]), &names(), &[]).unwrap();
    let expected = [
        "#LABEL_0000:\n",
        "    SK               258, 7\n",
        "\n#LABEL_0001:\n",
        "    JP               LABEL_0001\n",
        "    <20>             <AB>\n",
        "    WSH              @5\n",
        "    ONJP             1, LABEL_0000, LABEL_0001\n",
        "    CNS              1, 2, \"hi\"\n",
    ]
    .concat();
    assert_eq!(text, expected);
}

#[test]
fn disassemble_errors() {
    let names = names();
    assert_eq!(
        disassemble(&scenario(vec![0x10, 5, 0x02], vec![]), &names, &[]),
        Err(DisasmError::EndOfScenario)
    );
    assert_eq!(
        disassemble(&scenario(vec![0x10, 3, 0x02], vec![]), &names, &[]),
        Err(DisasmError::MissingParams)
    );
    assert_eq!(
        disassemble(&scenario(vec![0x10, 1], vec![]), &names, &[]),
        Err(DisasmError::InvalidLength)
    );
    assert_eq!(
        disassemble(&scenario(vec![0x14, 5, 1, 2, 0x82], vec![]), &names, &[]),
        Err(DisasmError::InvalidText)
    );
    assert_eq!(disassemble(&scenario(vec![], vec![]), &names, &[]), Ok(String::new()));
}

#[test]
fn long_instruction_lengths_take_two_bytes() {
    let mut code = vec![0x20, 0x83, 0x80];
    code.extend(std::iter::repeat(0x11).take(0x83 - 3));
    let text = disassemble(&scenario(code, vec![]), &names(), &[]).unwrap();
    assert!(text.starts_with("    <20>             <11 11"));
    assert!(text.ends_with("11>\n"));
}

#[test]
fn value_operands_decode() {
    assert_eq!(value_from_word(0x4000_0007), Value::Register(7));
    assert_eq!(value_from_word(0x2000_0063), Value::Random(99));
    assert_eq!(value_from_word(0xFFFF_FFFE), Value::Literal(-2));
    assert_eq!(value_from_word(12), Value::Literal(12));
}

#[test]
fn instructions_only_the_disassembler_reads() {
    let mut names = names();
    names[0x15] = "GC".to_owned();
    names[0x16] = "GF".to_owned();
    let code = vec![0x15, 9, 7, 0, 0, 0, 1, 2, 3, 0x16, 2];
    let text = disassemble(&scenario(code, vec![]), &names, &[]).unwrap();
    assert_eq!(text, ["    GC               7, 1, 2, 3\n", "    GF\n"].concat());
}

#[test]
fn messages_use_the_character_table() {
    let mut names = names();
    names[0x17] = "PM".to_owned();
    let mut charset = vec![Vec::new(); 128];
    charset[1] = vec![0x82, 0xA0]; // あ
    charset[2] = b"A".to_vec();
    // PM 3: command 2, a message "あA" + "B" + "[", command 4 with 9, then the end
    let params = [3, 2, 0xFF, 1, 2, 0x7F, b'B', 0x7F, b'[', 0, 4, 9, 0];
    let mut code = vec![0x17, (params.len() + 2) as u8];
    code.extend_from_slice(&params);
    let text = disassemble(&scenario(code, vec![]), &names, &charset).unwrap();
    assert_eq!(text, "    PM               3, 2, [あAB\\[], 4, 9\n");
    let unterminated = vec![0x17, 5, 3, 0xFF, 1];
    assert_eq!(
        disassemble(&scenario(unterminated, vec![]), &names, &charset),
        Err(DisasmError::MissingParams)
    );
}

#[test]
fn long_length_with_low_byte_below_0x80_reads_as_short() {
    let mut code = vec![0x20, 0x03, 0x81];
    code.extend(std::iter::repeat(0x00).take(0x100));
    let text = disassemble(&scenario(code, vec![]), &names(), &[]).unwrap();
    assert_eq!(text, "    <20>             <81>\n");
}
