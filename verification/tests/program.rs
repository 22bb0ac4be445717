use mus_asm::lexer::{tokenize, Token};
use mus_asm::program::{
    delay_length, opcode_from_name, parse_reg, parse_usize, voice_index, waveform_from_name, Action,
    Opcode, Program, Step, StepError, Waveform, MAX_DELAY_SAMPLES,
};

fn step(next: usize, action: Action) -> Result<Step, StepError> {
    Ok(Step { action, next })
}

#[test]
fn waveform_names() {
    assert_eq!(waveform_from_name("sine"), Waveform::Sine);
    assert_eq!(waveform_from_name("square"), Waveform::Square);
    assert_eq!(waveform_from_name("tri"), Waveform::Triangle);
    assert_eq!(waveform_from_name("saw"), Waveform::Sawtooth);
    assert_eq!(waveform_from_name("noise"), Waveform::Noise);
    assert_eq!(waveform_from_name("triangle"), Waveform::Sine);
    assert_eq!(waveform_from_name(""), Waveform::Sine);
}

#[test]
fn opcode_names() {
    assert_eq!(opcode_from_name("delay"), Some(Opcode::Delay));
    assert_eq!(opcode_from_name("jnz"), Some(Opcode::Jnz));
    assert_eq!(opcode_from_name("note_off"), Some(Opcode::NoteOff));
    assert_eq!(opcode_from_name("MOV"), None);
}

#[test]
fn parse_usize_matches_std() {
    for s in [
        "", "+", "-", "0", "7", "+5", "-5", "007", " 1", "1 ", "12a", "18446744073709551615",
        "18446744073709551616", "99999999999999999999999", "\u{0663}", "+-1", "++1",
    ] {
        assert_eq!(parse_usize(s), s.parse::<usize>().ok(), "input {:?}", s);
    }
}

#[test]
fn parse_reg_matches_slice_and_parse() {
    for s in ["r0", "r1", "r7", "r8", "r99", "r+3", "r-3", "r", "rx", "r007", "r18446744073709551616", "r\u{0663}"] {
        let expected = s[1..].parse::<usize>().unwrap_or(0).min(7);
        assert_eq!(parse_reg(s), expected, "register {:?}", s);
    }
}

#[test]
fn voice_and_delay_clamps() {
    assert_eq!(voice_index(0), 0);
    assert_eq!(voice_index(7), 7);
    assert_eq!(voice_index(8), 7);
    assert_eq!(voice_index(usize::MAX), 7);
    assert_eq!(delay_length(0), 0);
    assert_eq!(delay_length(1000), 1000);
    assert_eq!(delay_length(MAX_DELAY_SAMPLES), MAX_DELAY_SAMPLES - 1);
    assert_eq!(delay_length(MAX_DELAY_SAMPLES - 1), MAX_DELAY_SAMPLES - 1);
}

#[test]
fn steps_through_instructions() {
    let tokens = tokenize("delay 100 0.5 0.3\nvoice 2\nwave noise\nmov r1, 0.5\nadd r9, -1\nnote_on\nnote_off\nout\nfill 20\n").unwrap();
    let p = Program::new(&tokens);
    assert_eq!(p.len(), 21);
    assert_eq!(p.step(0, false), step(4, Action::Delay { time: 1, feedback: 2, mix: 3 }));
    assert_eq!(p.step(4, false), step(6, Action::SelectVoice { number: 5 }));
    assert_eq!(p.step(6, false), step(8, Action::SetWave(Waveform::Noise)));
    assert_eq!(p.step(8, false), step(12, Action::Mov { register: 1, value: 11 }));
    assert_eq!(p.step(12, false), step(16, Action::Add { register: 7, value: 15 }));
    assert_eq!(p.step(16, false), step(17, Action::NoteOn));
    assert_eq!(p.step(17, false), step(18, Action::NoteOff));
    assert_eq!(p.step(18, false), step(19, Action::Out));
    assert_eq!(p.step(19, false), step(21, Action::Fill { count: 20 }));
}

#[test]
fn incomplete_instructions_pass() {
    let tokens = tokenize("delay 1 2\nvoice saw\nwave 3\nmov 1, 2\nfill\nbogus").unwrap();
    let p = Program::new(&tokens);
    // delay with two numbers only
    assert_eq!(p.step(0, false), step(1, Action::Pass));
    assert_eq!(p.step(1, false), step(2, Action::Pass));
    assert_eq!(p.step(2, false), step(3, Action::Pass));
    // voice followed by an instruction
    assert_eq!(p.step(3, false), step(4, Action::Pass));
    // wave followed by a number
    assert_eq!(p.step(5, false), step(6, Action::Pass));
    // mov without a register
    assert_eq!(p.step(7, false), step(8, Action::Pass));
    // fill followed by an instruction
    assert_eq!(p.step(11, false), step(12, Action::Pass));
    // unknown instruction
    assert_eq!(p.step(12, false), step(13, Action::Pass));
}

#[test]
fn jumps_go_to_last_definition_of_label() {
    let tokens = tokenize("a: out\na: out\njmp a\njnz a\njnz b").unwrap();
    let p = Program::new(&tokens);
    assert_eq!(p.label_target("a"), Some(2));
    assert_eq!(p.label_target("b"), None);
    assert_eq!(p.step(4, false), step(2, Action::Pass));
    assert_eq!(p.step(4, true), step(2, Action::Pass));
    // jnz jumps when the zero flag is clear, and goes on past its operand when it is set
    assert_eq!(p.step(6, false), step(2, Action::Pass));
    assert_eq!(p.step(6, true), step(8, Action::Pass));
    // an unknown label is an error only when the jump is taken
    assert_eq!(p.step(8, false), Err(StepError::UnknownLabel));
    assert_eq!(p.step(8, true), step(10, Action::Pass));
}

#[test]
fn jump_at_end_without_operand_passes() {
    let tokens = tokenize("jmp").unwrap();
    let p = Program::new(&tokens);
    assert_eq!(p.step(0, false), step(1, Action::Pass));
}

#[test]
fn malformed_register_is_refused() {
    let tokens = vec![
        Token::Instruction("mov".to_string()),
        Token::Register(String::new()),
        Token::Comma,
        Token::Number("1".to_string()),
    ];
    let p = Program::new(&tokens);
    assert_eq!(p.step(0, false), Err(StepError::MalformedRegister));
}

#[test]
fn register_operands_skip_the_separator() {
    let tokens = tokenize("mov r2 out 5").unwrap();
    let p = Program::new(&tokens);
    assert_eq!(p.step(0, false), step(4, Action::Mov { register: 2, value: 3 }));
}

#[test]
fn lexed_registers_never_malformed() {
    let tokens = tokenize("mov r1, 1\nadd r99, 2\nmov r\u{0663}, 3\nadd r, 4").unwrap();
    let p = Program::new(&tokens);
    for pc in 0..p.len() {
        for zero in [false, true] {
            assert_ne!(p.step(pc, zero), Err(StepError::MalformedRegister));
        }
    }
}

#[test]
fn voice_numbers_above_seven_step_alike() {
    let t1 = tokenize("voice 9\nout").unwrap();
    let t2 = tokenize("voice 7\nout").unwrap();
    let (p1, p2) = (Program::new(&t1), Program::new(&t2));
    for pc in 0..p1.len() {
        assert_eq!(p1.step(pc, false), p2.step(pc, false));
    }
    assert_eq!(voice_index(9), voice_index(7));
}
