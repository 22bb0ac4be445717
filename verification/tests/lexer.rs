use mus_asm::text::ascii_char_classes;
use mus_asm::lexer::{tokenize, LexError, Lexer, Token, MAX_TOKENS};

fn ins(s: &str) -> Token {
    Token::Instruction(s.to_string())
}
fn reg(s: &str) -> Token {
    Token::Register(s.to_string())
}
fn num(s: &str) -> Token {
    Token::Number(s.to_string())
}
fn label(s: &str) -> Token {
    Token::Label(s.to_string())
}

fn all_tokens(src: &str) -> Vec<Token> {
    let mut lexer = Lexer::new(src);
    let mut out = Vec::new();
    loop {
        let t = lexer.next_token();
        if t == Token::EOF {
            break;
        }
        out.push(t);
    }
    out
}

#[test]
fn lexes_a_register_move_with_comment() {
    assert_eq!(
        all_tokens("mov r4, 0.005  ; Slow attack\n"),
        vec![ins("mov"), reg("r4"), Token::Comma, num("0.005")]
    );
}

#[test]
fn lexes_labels_and_jumps() {
    assert_eq!(
        all_tokens("loop:\n  fill 100\n  jnz loop\n"),
        vec![label("loop"), ins("fill"), num("100"), ins("jnz"), ins("loop")]
    );
}

#[test]
fn comment_runs_to_end_of_line_only() {
    assert_eq!(all_tokens("; all of this, r1: 5\nout"), vec![ins("out")]);
    assert_eq!(all_tokens(";;;"), vec![]);
}

#[test]
fn identifiers_take_underscores_and_digits() {
    assert_eq!(all_tokens("note_on note_off a1_b2"), vec![ins("note_on"), ins("note_off"), ins("a1_b2")]);
}

#[test]
fn register_needs_r_and_numeric_rest() {
    assert_eq!(all_tokens("r r0 r12 r1a rx R1"), vec![ins("r"), reg("r0"), reg("r12"), ins("r1a"), ins("rx"), ins("R1")]);
}

#[test]
fn register_with_non_ascii_digits() {
    // U+0663 ARABIC-INDIC DIGIT THREE is numeric
    assert_eq!(all_tokens("r\u{0663}"), vec![reg("r\u{0663}")]);
}

#[test]
fn numbers_take_digits_dots_and_minus() {
    assert_eq!(
        all_tokens("-1.5 .5 7. 1-2 -- . 42"),
        vec![num("-1.5"), num(".5"), num("7."), num("1-2"), num("--"), num("."), num("42")]
    );
}

#[test]
fn lone_minus_is_skipped() {
    assert_eq!(all_tokens("- 3"), vec![num("3")]);
    assert_eq!(all_tokens("add r1, - 1"), vec![ins("add"), reg("r1"), Token::Comma, num("1")]);
}

#[test]
fn unknown_characters_are_skipped() {
    assert_eq!(all_tokens("#out @ $ fill"), vec![ins("out"), ins("fill")]);
}

#[test]
fn number_ends_identifier_boundary() {
    // a number followed by letters: the letters start a new token
    assert_eq!(all_tokens("12abc"), vec![num("12"), ins("abc")]);
}

#[test]
fn label_colon_must_follow_directly() {
    assert_eq!(all_tokens("end :"), vec![ins("end")]);
    assert_eq!(all_tokens("end:"), vec![label("end")]);
}

#[test]
fn eof_repeats() {
    let mut lexer = Lexer::new("out  \n\t ");
    assert_eq!(lexer.next_token(), ins("out"));
    assert_eq!(lexer.next_token(), Token::EOF);
    assert_eq!(lexer.next_token(), Token::EOF);
    assert_eq!(lexer.next_token(), Token::EOF);
}

#[test]
fn empty_input_gives_eof() {
    let mut lexer = Lexer::new("");
    assert_eq!(lexer.next_token(), Token::EOF);
}

#[test]
fn non_ascii_letters_make_identifiers() {
    assert_eq!(all_tokens("été"), vec![ins("été")]);
}

#[test]
fn skip_whitespace_and_comment_move_position() {
    let mut lexer = Lexer::new("   ; note\nout");
    lexer.skip_whitespace();
    lexer.skip_comment();
    assert_eq!(lexer.next_token(), ins("out"));
}

#[test]
fn tokenize_reads_a_program() {
    let src = "voice 1\nwave saw\nmov r1, 0.5\nnote_on\nfill 10\n";
    assert_eq!(
        tokenize(src),
        Ok(vec![
            ins("voice"),
            num("1"),
            ins("wave"),
            ins("saw"),
            ins("mov"),
            reg("r1"),
            Token::Comma,
            num("0.5"),
            ins("note_on"),
            ins("fill"),
            num("10"),
        ])
    );
}

#[test]
fn tokenize_accepts_the_most_tokens() {
    let src = ",".repeat(MAX_TOKENS);
    let tokens = tokenize(&src).unwrap();
    assert_eq!(tokens.len(), MAX_TOKENS);
}

#[test]
fn tokenize_refuses_too_many_tokens() {
    let src = ",".repeat(MAX_TOKENS + 1);
    assert_eq!(tokenize(&src), Err(LexError::TooManyTokens));
}

fn listed_whitespace(u: u32) -> bool {
    (0x09..=0x0D).contains(&u)
        || u == 0x20
        || u == 0x85
        || u == 0xA0
        || u == 0x1680
        || (0x2000..=0x200A).contains(&u)
        || u == 0x2028
        || u == 0x2029
        || u == 0x202F
        || u == 0x205F
        || u == 0x3000
}

#[test]
fn whitespace_is_the_listed_characters() {
    for u in 0..=0x10FFFFu32 {
        if let Some(c) = char::from_u32(u) {
            assert_eq!(c.is_whitespace(), listed_whitespace(u), "U+{:04X}", u);
        }
    }
}

#[test]
fn ascii_classes_are_letters_and_digits() {
    for u in 0..0x80u32 {
        let c = char::from_u32(u).unwrap();
        assert_eq!(c.is_alphabetic(), c.is_ascii_alphabetic());
        assert_eq!(c.is_numeric(), c.is_ascii_digit());
    }
}

#[test]
fn every_listed_blank_separates_tokens() {
    for b in ["\t", "\n", "\u{0B}", "\u{0C}", "\r", " ", "\u{85}", "\u{A0}", "\u{1680}", "\u{2003}", "\u{2028}", "\u{2029}", "\u{202F}", "\u{205F}", "\u{3000}"] {
        let src = format!("out{}fill", b);
        assert_eq!(all_tokens(&src), vec![ins("out"), ins("fill")], "blank {:?}", b);
    }
}

#[test]
fn end_of_input_within_length_plus_one_calls() {
    for src in ["", "out", "a,b,c", "mov r1, 0.5 ; x\n-", "- - -", ",,,,"] {
        let n = src.chars().count();
        let mut lexer = Lexer::new(src);
        let mut seen_end = false;
        for _ in 0..(n + 1) {
            if lexer.next_token() == Token::EOF {
                seen_end = true;
            }
        }
        assert!(seen_end, "source {:?}", src);
        assert!(tokenize(src).unwrap().len() <= n);
    }
}

#[test]
fn ascii_char_classes_report_letters_and_digits() {
    assert_eq!(ascii_char_classes('m'), (true, false));
    assert_eq!(ascii_char_classes('7'), (false, true));
    assert_eq!(ascii_char_classes(','), (false, false));
    assert_eq!(ascii_char_classes('é'), (true, false));
}
