use reikura::gdl::parser::{Parser, ParserError, ScenarioParser, SeekFrom};
use reikura::gdl::scenario::{Cipher, IsfMetadata, Scenario, ScenarioError, decipher, encipher_rotate};
use reikura::util::stack::StackError;

fn scenario(code: Vec<u8>, subroutines: Vec<usize>) -> Scenario {
    Scenario { code_offset: 8, name: String::from("s"), code, subroutines }
}

#[test]
fn load_xor_version() {
    let data = vec![12, 0, 0, 0, 0x89, 0xCE, 0x55, 0, 0x56, 0x55, 0x55, 0x55, 0xFF];
    let s = Scenario::load(String::from("x"), data).unwrap();
    assert_eq!(s.code_offset, 12);
    assert_eq!(s.subroutines, vec![3]);
    assert_eq!(s.code, vec![0xAA]);
    assert_eq!(s.sub_offset(0), Some(3));
    assert_eq!(s.sub_offset(1), None);
}

#[test]
fn load_invert_and_plain_versions() {
    let data = vec![8, 0, 0, 0, 0x97, 0xD1, 0, 0, 0x00, 0xF0];
    let s = Scenario::load(String::new(), data).unwrap();
    assert_eq!(s.code, vec![0xFF, 0x0F]);
    assert!(s.subroutines.is_empty());
    let data = vec![9, 0, 0, 0, 0x8D, 0xF7, 7, 7, 1, 2, 3];
    let s = Scenario::load(String::new(), data).unwrap();
    assert_eq!(s.subroutines, Vec::<usize>::new());
    assert_eq!(s.code, vec![2, 3]);
}

#[test]
fn load_errors() {
    assert_eq!(
        Scenario::load(String::new(), vec![1, 2, 3]).err(),
        Some(ScenarioError::HeaderTooShort)
    );
    assert_eq!(
        Scenario::load(String::new(), vec![8, 0, 0, 0, 1, 2, 0, 0]).err(),
        Some(ScenarioError::UnsupportedVersion(1, 2))
    );
    assert_eq!(
        Scenario::load(String::new(), vec![100, 0, 0, 0, 0x8D, 0xF7, 0, 0]).err(),
        Some(ScenarioError::InvalidCodeOffset(100))
    );
    assert_eq!(
        Scenario::load(String::new(), vec![4, 0, 0, 0, 0x8D, 0xF7, 0, 0]).err(),
        Some(ScenarioError::InvalidCodeOffset(4))
    );
}

#[test]
fn header_and_cipher() {
    let m = IsfMetadata::parse(&[0x10, 0x02, 0, 0, 0x95, 0x97, 9, 1]).unwrap();
    assert_eq!(m.bytecode_offset, 0x0210);
    assert_eq!(m.version, [0x95, 0x97]);
    assert_eq!(m.xor_key, 9);
    assert_eq!(m.reserved, 1);
    assert_eq!(m.cipher(), Some(Cipher::Rotate));
    assert_eq!(encipher_rotate(0b1100_0001), 0b0000_0111);
    assert_eq!(decipher(Cipher::Rotate, 0b0000_0111), 0b1100_0001);
    for b in 0..=255u8 {
        assert_eq!(decipher(Cipher::Rotate, encipher_rotate(b)), b);
    }
    assert_eq!(decipher(Cipher::Xor(0x0F), 0xF0), 0xFF);
    assert_eq!(decipher(Cipher::Invert, 0x0F), 0xF0);
    assert_eq!(decipher(Cipher::Plain, 0x42), 0x42);
}

#[test]
fn parser_reads_opcodes_and_bytes() {
    let mut p = ScenarioParser::new(scenario(vec![1, 2, 3, 4], vec![]));
    assert_eq!(p.peek_opcode(), Some(1));
    assert_eq!(p.read_opcode(), Ok(1));
    assert_eq!(p.read_bytes(2), Ok(vec![2, 3]));
    assert_eq!(p.read_bytes(2), Err(ParserError::EndOfScenario));
    assert_eq!(p.remaining_len(), 1);
    assert_eq!(p.cur_offset(), 8 + 3);
    assert_eq!(p.read_opcode(), Ok(4));
    assert_eq!(p.read_opcode(), Err(ParserError::EndOfScenario));
    assert_eq!(p.remaining_len(), 0);
}

#[test]
fn parser_read_fills_buffer() {
    let mut p = ScenarioParser::new(scenario(vec![1, 2, 3], vec![]));
    let mut buf = [9u8; 2];
    assert_eq!(p.read(&mut buf), 2);
    assert_eq!(buf, [1, 2]);
    let mut buf = [9u8; 4];
    assert_eq!(p.read(&mut buf), 1);
    assert_eq!(buf, [3, 9, 9, 9]);
}

#[test]
fn subroutine_call_and_return() {
    let mut p = ScenarioParser::new(scenario(vec![0; 10], vec![4, 7]));
    p.ip = 2;
    assert_eq!(p.call_sub(1), Ok(()));
    assert_eq!(p.ip, 7);
    assert_eq!(p.call_sub(5), Err(ParserError::SubroutineIndex(5)));
    assert_eq!(p.ip, 7);
    assert_eq!(p.ret_sub(), Ok(()));
    assert_eq!(p.ip, 2);
    assert_eq!(p.ret_sub(), Err(ParserError::SubroutineReturn(StackError::Underflow)));
    assert_eq!(p.jump_sub(0), Ok(()));
    assert_eq!(p.ip, 4);
}

#[test]
fn subroutine_stack_overflows() {
    let mut p = ScenarioParser::new(scenario(vec![0; 4], vec![1]));
    for _ in 0..1024 {
        assert_eq!(p.call_sub(0), Ok(()));
    }
    assert_eq!(p.call_sub(0), Err(ParserError::SubroutineCall(StackError::Overflow)));
    assert_eq!(p.stack.len(), 1024);
}

#[test]
fn seek_moves_the_instruction_pointer() {
    let mut p = ScenarioParser::new(scenario(vec![0; 10], vec![]));
    assert_eq!(p.seek(SeekFrom::Start(3)), Ok(3));
    assert_eq!(p.seek(SeekFrom::Current(2)), Ok(5));
    assert_eq!(p.seek(SeekFrom::Current(-6)), Err(ParserError::InvalidSeek));
    assert_eq!(p.ip, 5);
    assert_eq!(p.seek(SeekFrom::End(0)), Ok(10));
    assert_eq!(p.seek(SeekFrom::End(-11)), Err(ParserError::InvalidSeek));
}

#[test]
fn scene_call_and_return() {
    let mut parser = Parser::new(scenario(vec![1, 2, 3], vec![]));
    parser.state.ip = 2;
    assert_eq!(parser.call_scene(scenario(vec![9], vec![])), Ok(()));
    assert_eq!(parser.state.ip, 0);
    assert_eq!(parser.state.scenario.code, vec![9]);
    parser.state.ip = 1;
    assert_eq!(parser.ret_scene(), Ok(()));
    assert_eq!(parser.state.ip, 2);
    assert_eq!(parser.state.scenario.code, vec![1, 2, 3]);
    assert_eq!(parser.ret_scene(), Err(ParserError::SceneReturn(StackError::Underflow)));
    parser.jump_scene(scenario(vec![5, 5], vec![]));
    assert_eq!(parser.state.scenario.code, vec![5, 5]);
    assert_eq!(parser.state.ip, 0);
}

#[test]
fn read_param_reads_little_endian_numbers() {
    let mut p = ScenarioParser::new(scenario(vec![0x07, 0x34, 0x12, 0xFE, 0xFF, 0xFF, 0xFF, 0x01], vec![]));
    assert_eq!(p.read_param::<u8>(), Ok(0x07));
    assert_eq!(p.read_param::<u16>(), Ok(0x1234));
    assert_eq!(p.read_param::<i32>(), Ok(-2));
    assert_eq!(p.ip, 7);
    assert_eq!(p.read_param::<u16>(), Err(ParserError::EndOfScenario));
    assert_eq!(p.ip, 7);
    assert_eq!(p.read_param::<u8>(), Ok(1));
}
