use reikura::gdl::scenario::Scenario;
use reikura::tools::assemble::{OpcodeTable, assemble};
use reikura::tools::disassemble::disassemble;

fn table() -> [(&'static str, u8); 7] {
    [("ED", 0x00), ("JP", 0x01), ("SK", 0x10), ("WSH", 0x12), ("HS", 0x15), ("FLN", 0x16), ("ONJP", 0x20)]
}

fn names() -> Vec<String> {
    let mut names = vec![String::new(); 256];
    for (name, op) in table() {
        names[op as usize] = name.to_owned();
    }
    names
}

fn opcodes() -> OpcodeTable {
    let mut t = OpcodeTable::new();
    for (name, op) in table() {
        assert!(t.insert(name, op));
    }
    t
}

#[test]
fn disassembly_assembles_back_to_the_scenario() {
    let code = vec![
        0x10, 5, 0x02, 0x01, 7, // SK 258, 7
        0x01, 4, 2, 0, // JP LABEL_0002
        0x12, 6, 5, 0, 0, 0x40, // WSH @5
        0x15, 8, 9, 0, 0xFE, 0xFF, 0xFF, 0xFF, // HS 9, -2
        0x16, 4, 0x34, 0x12, // FLN 4660
        0x20, 11, 3, 0, 0, 0x40, 2, 4, 0, 1, 0, // ONJP @3, LABEL_0004, LABEL_0001
        0x00, 2, // ED
    ];
    let subs = vec![0, 0, 5, 23, 40];
    let s = Scenario { code_offset: 28, name: String::from("s"), code: code.clone(), subroutines: subs.clone() };
    let text = disassemble(&s, &names(), &[]).unwrap();
    let file = assemble(&text, &opcodes()).unwrap();
    let back = Scenario::load(String::from("s"), file).unwrap();
    assert_eq!(back.code, code);
    assert_eq!(back.subroutines, subs);
}
