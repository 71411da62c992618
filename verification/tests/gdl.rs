use reikura::gdl::instruction::{
    AudioTrack, InstructionError, SET, Setinsidevol, TOGGLE, UNSET, rt, sk, sks, sp, sret, timerend,
    timerget, timerset,
};
use reikura::gdl::parser::{Parser, ParserError};
use reikura::gdl::scenario::Scenario;
use reikura::gdl::secretfilter::{
    Deobfuscator, FILTER_LEN, FilterError, KnownFilter, base36_diff, decode, decode_base36_digit,
    extract_filter, find_marker, get_key, get_known_filter, update_key,
};
use reikura::gdl::vm::{FRAME_NANOS, State, Timer, VmContext, WaitStep, wait_step};
use reikura::util::stack::StackError;

fn ctx() -> VmContext {
    VmContext::new()
}

#[test]
fn fresh_context() {
    let c = ctx();
    assert_eq!(c.flags.len(), 2048);
    assert_eq!(c.registers.len(), 2048);
    assert!(c.timer.is_none());
    assert!(c.wait_duration.is_none());
    assert_eq!(c.char_names.len(), 256);
    assert_eq!(c.flag_groups.len(), 256);
}

#[test]
fn sk_commands() {
    let mut c = ctx();
    assert_eq!(sk(&mut c, 3, SET), Ok(()));
    assert_eq!(c.flags.get(3), Some(true));
    assert_eq!(sk(&mut c, 3, TOGGLE), Ok(()));
    assert_eq!(c.flags.get(3), Some(false));
    assert_eq!(sk(&mut c, 4, TOGGLE), Ok(()));
    assert_eq!(sk(&mut c, 4, UNSET), Ok(()));
    assert_eq!(c.flags.get(4), Some(false));
    assert_eq!(sk(&mut c, 5, 7), Err(InstructionError::UnrecognizedFlagValue(7)));
    assert_eq!(c.flags.get(5), Some(false));
}

#[test]
fn sks_ranges_stop_before_end_and_last_flag() {
    let mut c = ctx();
    assert_eq!(sks(&mut c, 10, 20, SET), Ok(()));
    assert_eq!(c.flags.get(9), Some(false));
    assert_eq!(c.flags.get(10), Some(true));
    assert_eq!(c.flags.get(19), Some(true));
    assert_eq!(c.flags.get(20), Some(false));
    assert_eq!(sks(&mut c, 2040, 5000, SET), Ok(()));
    assert_eq!(c.flags.get(2046), Some(true));
    assert_eq!(c.flags.get(2047), Some(false));
    assert_eq!(sks(&mut c, 15, 25, TOGGLE), Ok(()));
    assert_eq!(c.flags.get(15), Some(false));
    assert_eq!(c.flags.get(22), Some(true));
    assert_eq!(sks(&mut c, 0, 5, 3), Err(InstructionError::UnrecognizedFlagValue(3)));
}

#[test]
fn sp_defines_flag_groups() {
    let mut c = ctx();
    assert_eq!(sp(&mut c, &[5, 2, 0, 2, 0, 0x01, 0x80, 1, 0, 1, 0, 0x04, 0xFF]), Ok(()));
    assert_eq!(c.flag_groups[5], Some(vec![16, 31, 10]));
    assert_eq!(sp(&mut c, &[6, 0xFF]), Ok(()));
    assert_eq!(c.flag_groups[6], Some(vec![]));
    assert_eq!(sp(&mut c, &[5, 2, 0]), Err(InstructionError::InvalidParamTerminator));
    assert_eq!(sp(&mut c, &[]), Err(InstructionError::InvalidParamTerminator));
    assert_eq!(sp(&mut c, &[0xFF]), Err(InstructionError::EndOfParams));
    assert_eq!(sp(&mut c, &[7, 2, 0, 3, 0, 1, 0xFF]), Err(InstructionError::EndOfParams));
    assert_eq!(c.flag_groups[7], None);
    assert_eq!(c.flag_groups[5], Some(vec![16, 31, 10]));
}

#[test]
fn timer_instructions() {
    let mut c = ctx();
    assert_eq!(timerget(&mut c, 1), Err(InstructionError::TimerNotSet));
    timerset(&mut c, 0);
    assert!(c.timer.is_some());
    assert_eq!(timerget(&mut c, 1), Ok(()));
    assert!(c.registers.get(1).unwrap() >= 0);
    timerend(&mut c);
    assert!(c.timer.is_none());
}

#[test]
fn timer_readings() {
    let t = Timer::new(1000);
    assert_eq!(t.reading_at(1500), 500);
    assert_eq!(t.reading_at(0), -1000);
    let t = Timer::new(i32::MIN + 1);
    assert_eq!(t.reading_at(10), i32::MAX);
    assert!(Timer::new(-5).get() >= 5);
}

#[test]
fn state_changes() {
    let mut s = State::Running;
    s.wait(std::time::Duration::from_millis(5));
    assert!(matches!(s, State::Wait { duration, .. } if duration.as_millis() == 5));
    s.wait_click();
    assert!(matches!(s, State::WaitClick));
    s.wait_text();
    assert!(matches!(s, State::WaitText));
    s.wait_voice();
    assert!(matches!(s, State::WaitVoice));
    s.wait_video();
    assert!(matches!(s, State::WaitVideo));
    s.run();
    assert!(matches!(s, State::Running));
    s.exit();
    assert!(matches!(s, State::Exit));
}

fn scenario(code: Vec<u8>, subroutines: Vec<usize>) -> Scenario {
    Scenario { code_offset: 8, name: String::new(), code, subroutines }
}

#[test]
fn return_instructions() {
    let mut p = Parser::new(scenario(vec![0; 8], vec![6]));
    assert_eq!(
        rt(&mut p),
        Err(InstructionError::Parser(ParserError::SubroutineReturn(StackError::Underflow)))
    );
    p.state.ip = 3;
    p.state.call_sub(0).unwrap();
    assert_eq!(rt(&mut p), Ok(()));
    assert_eq!(p.state.ip, 3);
    assert_eq!(
        sret(&mut p),
        Err(InstructionError::Parser(ParserError::SceneReturn(StackError::Underflow)))
    );
    p.call_scene(scenario(vec![1], vec![])).unwrap();
    assert_eq!(sret(&mut p), Ok(()));
    assert_eq!(p.state.ip, 3);
}

#[test]
fn base36_helpers() {
    assert_eq!(decode_base36_digit(b'0'), 0);
    assert_eq!(decode_base36_digit(b'Z'), 35);
    assert_eq!(decode_base36_digit(b'a'), 10);
    assert_eq!(base36_diff(6, 6), b'G');
    assert_eq!(base36_diff(7, 6), b'5');
    assert_eq!(base36_diff(6, 7), b'D');
    let mut digits = *b"0G";
    decode(&mut digits);
    assert_eq!(digits, [0x06, 0x00]);
}

fn zero_filter() -> [u8; 2048] {
    [b'0'; 2048]
}

#[test]
fn key_from_a_uniform_filter() {
    let mut filter = zero_filter();
    decode(&mut filter);
    let key = get_key(&filter);
    assert_eq!(key, vec![b'G'; 16]);
    let mut k = key.clone();
    update_key(&mut k, 0, &filter);
    assert_eq!(k, vec![b'0'; 16]);
    update_key(&mut k, 16, &filter);
    assert_eq!(k, vec![b'K'; 16]);
}

#[test]
fn deobfuscate_with_a_uniform_filter() {
    let d = Deobfuscator::new(zero_filter());
    let mut data = [0u8; 20];
    d.deobfuscate(&mut data);
    let mut expected = [48u8; 20];
    for b in &mut expected[16..] {
        *b = 75;
    }
    assert_eq!(data, expected);
    d.deobfuscate(&mut data);
    assert_eq!(data, [0u8; 20]);
}

#[test]
fn filter_search() {
    let mut exe = vec![1u8, 2];
    exe.extend_from_slice(b"UOB0GMVM");
    exe.extend(std::iter::repeat(b'0').take(2040));
    let found = Deobfuscator::try_filter_search(&exe).unwrap();
    let mut filter = zero_filter();
    filter[..8].copy_from_slice(b"UOB0GMVM");
    let direct = Deobfuscator::new(filter);
    let mut a = *b"some scenario bytes";
    let mut b = a;
    found.deobfuscate(&mut a);
    direct.deobfuscate(&mut b);
    assert_eq!(a, b);
    assert!(Deobfuscator::try_filter_search(&exe[..2047]).is_none());
    assert!(Deobfuscator::try_filter_search(b"no marker here").is_none());
}

#[test]
fn known_filters() {
    assert_eq!(get_known_filter("KANAOKA"), Some(KnownFilter::Kanaoka));
    assert_eq!(get_known_filter("KZNRUS"), Some(KnownFilter::Kznr));
    assert_eq!(get_known_filter("PURUCXUS"), Some(KnownFilter::Puruc));
    assert_eq!(get_known_filter("PURUCX"), Some(KnownFilter::Puruc));
    assert_eq!(get_known_filter("TOSHIAKI"), Some(KnownFilter::Toshiaki));
    assert_eq!(get_known_filter("UMINOEX"), Some(KnownFilter::Uminoex));
    assert_eq!(get_known_filter("YUKIUS"), Some(KnownFilter::Yuki));
    assert_eq!(get_known_filter("yuki"), None);
    assert_eq!(get_known_filter(""), None);
}

#[test]
fn find_marker_gives_the_first_position() {
    assert_eq!(find_marker(b"xxUOB0GMVMyyUOB0GMVM"), Some(2));
    assert_eq!(find_marker(b"UOB0GMV"), None);
    assert_eq!(find_marker(b""), None);
}

#[test]
fn extract_filter_takes_the_characters_after_the_marker() {
    let mut exe = b"MZ\0\0".to_vec();
    exe.extend_from_slice(b"UOB0GMVM");
    exe.extend(std::iter::repeat(b'Q').take(FILTER_LEN - 8));
    exe.extend_from_slice(b"\0tail");
    let filter = extract_filter(&exe).unwrap();
    assert_eq!(&filter[..8], b"UOB0GMVM");
    assert!(filter[8..].iter().all(|&b| b == b'Q'));
}

#[test]
fn extract_filter_errors() {
    assert_eq!(extract_filter(b"no marker here"), Err(FilterError::NotFound));
    let mut short = b"UOB0GMVM".to_vec();
    short.extend(std::iter::repeat(b'A').take(100));
    assert_eq!(extract_filter(&short), Err(FilterError::Invalid));
    let mut bad = b"UOB0GMVM".to_vec();
    bad.extend(std::iter::repeat(b'A').take(FILTER_LEN - 9));
    bad.push(b'-');
    assert_eq!(extract_filter(&bad), Err(FilterError::Invalid));
}

#[test]
fn setinsidevol_picks_the_track() {
    assert_eq!(Setinsidevol::execute(0, 128, true, false), Ok((AudioTrack::Voice, 128)));
    assert_eq!(Setinsidevol::execute(1, 255, false, true), Ok((AudioTrack::Bgm, 255)));
    assert_eq!(
        Setinsidevol::execute(1, 3, true, false),
        Err(InstructionError::TrackNotLoaded(AudioTrack::Bgm))
    );
    assert_eq!(Setinsidevol::execute(2, 3, true, true), Err(InstructionError::InvalidTrack(2)));
    assert_eq!(
        Setinsidevol::execute(2, 256, true, true),
        Err(InstructionError::VolumeOutOfRange(256))
    );
    assert_eq!(
        Setinsidevol::execute(0, -1, true, true),
        Err(InstructionError::VolumeOutOfRange(-1))
    );
}

#[test]
fn wait_step_sleeps_at_most_a_frame() {
    assert_eq!(wait_step(0, 100_000_000), WaitStep::Sleep(FRAME_NANOS));
    assert_eq!(wait_step(95_000_000, 100_000_000), WaitStep::Sleep(5_000_000));
    assert_eq!(wait_step(100_000_000, 100_000_000), WaitStep::Sleep(0));
    assert_eq!(wait_step(100_000_001, 100_000_000), WaitStep::Resume);
}
