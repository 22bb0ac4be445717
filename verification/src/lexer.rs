use vstd::prelude::*;
use vstd::std_specs::iter::IteratorSpec;

use crate::text::{
    char_is_alphabetic, char_is_numeric, char_is_whitespace, is_alphabetic, is_alphanumeric,
    is_numeric, is_whitespace, push_char,
};

verus! {

/// A token of a `.mus` source. A number keeps the characters it was written with; its
/// floating-point value is read from them by whoever plays the program.
#[derive(Debug, PartialEq)]
pub enum Token {
    Instruction(String),
    Register(String),
    Number(String),
    Label(String),
    Comma,
    EOF,
}

/// The mathematical value of a token.
pub enum SpecToken {
    Instruction(Seq<char>),
    Register(Seq<char>),
    Number(Seq<char>),
    Label(Seq<char>),
    Comma,
    Eof,
}

impl View for Token {
    type V = SpecToken;

    open spec fn view(&self) -> SpecToken {
        match self {
            Token::Instruction(s) => SpecToken::Instruction(s@),
            Token::Register(s) => SpecToken::Register(s@),
            Token::Number(s) => SpecToken::Number(s@),
            Token::Label(s) => SpecToken::Label(s@),
            Token::Comma => SpecToken::Comma,
            Token::EOF => SpecToken::Eof,
        }
    }
}

/// The classes of characters over which the lexer runs.
pub enum CharClass {
    /// Space between tokens.
    Blank,
    /// Anything up to the end of a line.
    InLine,
    /// Letters, digits and `_`: the body of an identifier.
    Word,
    /// Digits, `.` and `-`: the body of a number.
    NumberBody,
}

pub open spec fn in_class(k: CharClass, c: char) -> bool {
    match k {
        CharClass::Blank => char_is_whitespace(c),
        CharClass::InLine => c != '\n',
        CharClass::Word => char_is_alphabetic(c) || char_is_numeric(c) || c == '_',
        CharClass::NumberBody => char_is_numeric(c) || c == '.' || c == '-',
    }
}

/// The first position at or after `p` whose character is not of class `k` (or the end).
pub open spec fn scan_end(s: Seq<char>, p: nat, k: CharClass) -> nat
    decreases s.len() - p,
{
    if p < s.len() && in_class(k, s[p as int]) {
        scan_end(s, p + 1, k)
    } else {
        p
    }
}

pub proof fn lemma_scan_end(s: Seq<char>, p: nat, k: CharClass)
    requires
        p <= s.len(),
    ensures
        p <= scan_end(s, p, k) <= s.len(),
        forall|i: int| p <= i < scan_end(s, p, k) ==> in_class(k, #[trigger] s[i]),
        scan_end(s, p, k) < s.len() ==> !in_class(k, s[scan_end(s, p, k) as int]),
        p < s.len() && in_class(k, s[p as int]) ==> p < scan_end(s, p, k),
    decreases s.len() - p,
{
    if p < s.len() && in_class(k, s[p as int]) {
        lemma_scan_end(s, p + 1, k);
    }
}

/// An identifier names a register when it is `r` followed by one or more numeric characters.
pub open spec fn is_register_name(text: Seq<char>) -> bool {
    &&& text.len() >= 2
    &&& text[0] == 'r'
    &&& forall|i: int| 1 <= i < text.len() ==> char_is_numeric(#[trigger] text[i])
}

pub open spec fn has_numeric(text: Seq<char>) -> bool {
    exists|i: int| 0 <= i < text.len() && char_is_numeric(#[trigger] text[i])
}

/// The token that starts at or after position `p` of `s`, and the position after it.
/// Blanks, `;` comments up to the end of the line, a lone `-`, and characters that start no
/// token are passed over.
pub open spec fn spec_next_token(s: Seq<char>, p: nat) -> (SpecToken, nat)
    decreases s.len() - p,
{
    if p > s.len() {
        (SpecToken::Eof, p)
    } else {
        let q = scan_end(s, p, CharClass::Blank);
        if q >= s.len() {
            (SpecToken::Eof, q)
        } else {
            let c = s[q as int];
            if c == ';' {
                proof {
                    lemma_scan_end(s, p, CharClass::Blank);
                    lemma_scan_end(s, q + 1, CharClass::InLine);
                }
                spec_next_token(s, scan_end(s, q + 1, CharClass::InLine))
            } else if c == ',' {
                (SpecToken::Comma, q + 1)
            } else if char_is_alphabetic(c) {
                let e = scan_end(s, q, CharClass::Word);
                let text = s.subrange(q as int, e as int);
                if e < s.len() && s[e as int] == ':' {
                    (SpecToken::Label(text), e + 1)
                } else if is_register_name(text) {
                    (SpecToken::Register(text), e)
                } else {
                    (SpecToken::Instruction(text), e)
                }
            } else if char_is_numeric(c) || c == '-' || c == '.' {
                let e = scan_end(s, q, CharClass::NumberBody);
                let text = s.subrange(q as int, e as int);
                if !has_numeric(text) && text =~= seq!['-'] {
                    proof {
                        lemma_scan_end(s, p, CharClass::Blank);
                        lemma_scan_end(s, q + 1, CharClass::NumberBody);
                    }
                    spec_next_token(s, e)
                } else {
                    (SpecToken::Number(text), e)
                }
            } else {
                proof {
                    lemma_scan_end(s, p, CharClass::Blank);
                }
                spec_next_token(s, q + 1)
            }
        }
    }
}

/// From a position inside the input, the lexer ends inside the input, moves forward, and
/// moves strictly forward unless it has reached the end.
pub proof fn lemma_next_token_progress(s: Seq<char>, p: nat)
    requires
        p <= s.len(),
    ensures
        p <= spec_next_token(s, p).1 <= s.len(),
        !(spec_next_token(s, p).0 is Eof) ==> p < spec_next_token(s, p).1,
        spec_next_token(s, p).0 is Eof ==> spec_next_token(s, p).1 == s.len(),
    decreases s.len() - p,
{
    let q = scan_end(s, p, CharClass::Blank);
    lemma_scan_end(s, p, CharClass::Blank);
    if q < s.len() {
        let c = s[q as int];
        if c == ';' {
            lemma_scan_end(s, q + 1, CharClass::InLine);
            lemma_next_token_progress(s, scan_end(s, q + 1, CharClass::InLine));
        } else if c == ',' {
        } else if char_is_alphabetic(c) {
            lemma_scan_end(s, q, CharClass::Word);
            assert(in_class(CharClass::Word, c));
        } else if char_is_numeric(c) || c == '-' || c == '.' {
            lemma_scan_end(s, q, CharClass::NumberBody);
            lemma_scan_end(s, q + 1, CharClass::NumberBody);
            assert(in_class(CharClass::NumberBody, c));
            let e = scan_end(s, q, CharClass::NumberBody);
            let text = s.subrange(q as int, e as int);
            if !has_numeric(text) && text =~= seq!['-'] {
                lemma_next_token_progress(s, e);
            }
        } else {
            lemma_next_token_progress(s, q + 1);
        }
    }
}

/// Once the lexer has reached the end of its input it stays there: the token after an end of
/// input is again the end of input, at the same position.
pub proof fn lemma_end_of_input_repeats(s: Seq<char>, p: nat)
    requires
        p <= s.len(),
        spec_next_token(s, p).0 is Eof,
    ensures
        spec_next_token(s, p).1 == s.len(),
        spec_next_token(s, spec_next_token(s, p).1) == (SpecToken::Eof, s.len()),
{
    lemma_next_token_progress(s, p);
}

/// A source of `n` characters holds at most `n` tokens: from position `p`, at most
/// `s.len() - p` tokens come before the end of input.
pub proof fn lemma_tokens_bounded(s: Seq<char>, p: nat)
    requires
        p <= s.len(),
    ensures
        spec_tokens_from(s, p).len() <= s.len() - p,
    decreases s.len() - p,
{
    if !(spec_next_token(s, p).0 is Eof) {
        lemma_next_token_progress(s, p);
        lemma_tokens_bounded(s, spec_next_token(s, p).1);
    }
}

/// The position of a lexer that started at `p` after `k` calls of `next_token`.
pub open spec fn pos_after_calls(s: Seq<char>, p: nat, k: nat) -> nat
    decreases k,
{
    if k == 0 {
        p
    } else {
        spec_next_token(s, pos_after_calls(s, p, (k - 1) as nat)).1
    }
}

proof fn lemma_pos_after_calls(s: Seq<char>, p: nat, k: nat)
    requires
        p <= s.len(),
    ensures
        pos_after_calls(s, p, k) <= s.len(),
        pos_after_calls(s, p, k) >= p + k || pos_after_calls(s, p, k) == s.len(),
    decreases k,
{
    if k > 0 {
        let q = pos_after_calls(s, p, (k - 1) as nat);
        lemma_pos_after_calls(s, p, (k - 1) as nat);
        lemma_next_token_progress(s, q);
    }
}

/// The end of input comes within `n + 1` calls: from position `p`, call number
/// `s.len() - p + 1` (and every later one) answers the end of input.
pub proof fn lemma_end_of_input_within_reach(s: Seq<char>, p: nat, k: nat)
    requires
        p <= s.len(),
        k >= s.len() - p,
    ensures
        spec_next_token(s, pos_after_calls(s, p, k)).0 is Eof,
        pos_after_calls(s, p, k) == s.len(),
{
    lemma_pos_after_calls(s, p, k);
    lemma_scan_end(s, s.len(), CharClass::Blank);
}

/// The tokens of `s` from position `p` on, up to the end of input (which is not among them).
pub open spec fn spec_tokens_from(s: Seq<char>, p: nat) -> Seq<SpecToken>
    decreases s.len() - p,
{
    if p > s.len() || spec_next_token(s, p).0 is Eof {
        Seq::empty()
    } else {
        proof {
            lemma_next_token_progress(s, p);
        }
        seq![spec_next_token(s, p).0] + spec_tokens_from(s, spec_next_token(s, p).1)
    }
}

/// All the tokens of a source, up to the end of input.
pub open spec fn spec_tokens(s: Seq<char>) -> Seq<SpecToken> {
    spec_tokens_from(s, 0)
}

/// The lexer makes a register token only of a register name.
pub proof fn lemma_next_token_register(s: Seq<char>, p: nat)
    requires
        p <= s.len(),
    ensures
        spec_next_token(s, p).0 matches SpecToken::Register(r) ==> is_register_name(r),
    decreases s.len() - p,
{
    let q = scan_end(s, p, CharClass::Blank);
    lemma_scan_end(s, p, CharClass::Blank);
    if q < s.len() {
        let c = s[q as int];
        if c == ';' {
            lemma_scan_end(s, q + 1, CharClass::InLine);
            lemma_next_token_register(s, scan_end(s, q + 1, CharClass::InLine));
        } else if c == ',' {
        } else if char_is_alphabetic(c) {
        } else if char_is_numeric(c) || c == '-' || c == '.' {
            lemma_scan_end(s, q, CharClass::NumberBody);
            lemma_scan_end(s, q + 1, CharClass::NumberBody);
            let e = scan_end(s, q, CharClass::NumberBody);
            let text = s.subrange(q as int, e as int);
            if !has_numeric(text) && text =~= seq!['-'] {
                lemma_next_token_register(s, e);
            }
        } else {
            lemma_next_token_register(s, q + 1);
        }
    }
}

/// Every register token among the tokens of a source is a register name.
pub proof fn lemma_tokens_registers(s: Seq<char>, p: nat)
    requires
        p <= s.len(),
    ensures
        forall|i: int|
            0 <= i < spec_tokens_from(s, p).len() ==> (#[trigger] spec_tokens_from(s, p)[i] matches SpecToken::Register(
                r,
            ) ==> is_register_name(r)),
    decreases s.len() - p,
{
    if !(spec_next_token(s, p).0 is Eof) {
        lemma_next_token_progress(s, p);
        lemma_next_token_register(s, p);
        let q = spec_next_token(s, p).1;
        lemma_tokens_registers(s, q);
        let all = spec_tokens_from(s, p);
        assert forall|i: int| 0 <= i < all.len() implies (#[trigger] all[i] matches SpecToken::Register(
            r,
        ) ==> is_register_name(r)) by {
            if i > 0 {
                assert(all[i] == spec_tokens_from(s, q)[i - 1]);
            }
        }
    }
}

/// The most tokens that a source may hold.
pub const MAX_TOKENS: usize = 1_000_000;

/// Why a source could not be turned into tokens.
#[derive(Debug, PartialEq, Eq)]
pub enum LexError {
    /// The source holds more than `MAX_TOKENS` tokens.
    TooManyTokens,
}

pub open spec fn token_views(v: Seq<Token>) -> Seq<SpecToken> {
    v.map_values(|t: Token| t@)
}

/// Reads every token of `source` up to the end of input; refused when there are more than
/// `MAX_TOKENS` of them.
pub fn tokenize(source: &str) -> (res: Result<Vec<Token>, LexError>)
    ensures
        match res {
            Ok(v) => spec_tokens(source@).len() <= MAX_TOKENS && token_views(v@) == spec_tokens(
                source@,
            ),
            Err(e) => e == LexError::TooManyTokens && spec_tokens(source@).len() > MAX_TOKENS,
        },
{
    let ghost s = source@;
    let mut lexer = Lexer::new(source);
    let mut tokens: Vec<Token> = Vec::new();
    assert(token_views(tokens@) =~= Seq::<SpecToken>::empty());
    loop
        invariant
            lexer.wf(),
            lexer.input() == s,
            s == source@,
            tokens.len() <= MAX_TOKENS,
            spec_tokens(s) == token_views(tokens@) + spec_tokens_from(s, lexer.pos()),
        decreases s.len() - lexer.pos(),
    {
        let ghost p = lexer.pos();
        let ghost before = tokens@;
        let t = lexer.next_token();
        proof {
            lemma_next_token_progress(s, p);
        }
        if let Token::EOF = t {
            assert(spec_tokens_from(s, p) =~= Seq::<SpecToken>::empty());
            assert(spec_tokens(s) =~= token_views(tokens@));
            return Ok(tokens);
        }
        let ghost tv = t@;
        tokens.push(t);
        proof {
            assert(token_views(tokens@) =~= token_views(before).push(tv));
            assert(spec_tokens_from(s, p) == seq![tv] + spec_tokens_from(s, lexer.pos()));
            assert(spec_tokens(s) =~= token_views(tokens@) + spec_tokens_from(s, lexer.pos()));
        }
        if tokens.len() > MAX_TOKENS {
            return Err(LexError::TooManyTokens);
        }
    }
}

/// A lexer over the characters of a source text.
pub struct Lexer {
    input: Vec<char>,
    pos: usize,
}

impl Lexer {
    /// The characters of the source.
    pub closed spec fn input(&self) -> Seq<char> {
        self.input@
    }

    /// The position of the next character to read.
    pub closed spec fn pos(&self) -> nat {
        self.pos as nat
    }

    pub open spec fn wf(&self) -> bool {
        self.pos() <= self.input().len()
    }

    /// A lexer at the start of `input`.
    pub fn new(input: &str) -> (lexer: Self)
        ensures
            lexer.wf(),
            lexer.input() == input@,
            lexer.pos() == 0,
    {
        let mut chars: Vec<char> = Vec::new();
        let mut it = input.chars();
        proof {
            vstd::string::axiom_spec_iter(input);
        }
        loop
            invariant
                chars@ + it.remaining() == input@,
                it.decrease() is Some,
            ensures
                chars@ == input@,
            decreases it.decrease()->0,
        {
            let ghost before = it;
            let next = it.next();
            proof {
                vstd::string::next_postcondition(&before, &it, next);
            }
            match next {
                Some(c) => {
                    chars.push(c);
                    assert(chars@ + it.remaining() =~= input@) by {
                        assert(before.remaining() =~= seq![c] + it.remaining());
                    }
                },
                None => {
                    assert(chars@ =~= input@);
                    break;
                },
            }
        }
        Lexer { input: chars, pos: 0 }
    }

    /// Returns the next token and moves past it; at the end of the input, `EOF` again and
    /// again.
    pub fn next_token(&mut self) -> (tok: Token)
        requires
            old(self).wf(),
        ensures
            final(self).wf(),
            final(self).input() == old(self).input(),
            (tok@, final(self).pos()) == spec_next_token(old(self).input(), old(self).pos()),
    {
        let ghost s = self.input@;
        let ghost goal = spec_next_token(s, self.pos as nat);
        let n = self.input.len();
        loop
            invariant
                self.wf(),
                self.input@ == s,
                s == old(self).input(),
                goal == spec_next_token(old(self).input(), old(self).pos()),
                n == s.len(),
                spec_next_token(s, self.pos as nat) == goal,
            decreases n - self.pos,
        {
            let ghost p = self.pos as nat;
            self.skip_whitespace();
            let q = self.pos;
            proof {
                lemma_scan_end(s, p, CharClass::Blank);
            }
            if q >= n {
                return Token::EOF;
            }
            let ch = self.input[q];
            if ch == ';' {
                self.skip_comment();
                proof {
                    assert(in_class(CharClass::InLine, ch));
                    assert(scan_end(s, q as nat, CharClass::InLine) == scan_end(s, (q + 1) as nat, CharClass::InLine));
                    lemma_scan_end(s, (q + 1) as nat, CharClass::InLine);
                }
                continue;
            }
            if ch == ',' {
                self.pos = q + 1;
                return Token::Comma;
            }
            if is_alphabetic(ch) {
                return self.read_identifier();
            }
            if is_numeric(ch) || ch == '-' || ch == '.' {
                match self.read_number() {
                    Some(t) => {
                        return t;
                    },
                    None => {
                        continue;
                    },
                }
            }
            self.pos = q + 1;
        }
    }

    /// Reads an identifier that starts at the current position: a label when `:` follows it
    /// (the `:` is consumed), a register when it is `r` and numeric characters, else an
    /// instruction.
    fn read_identifier(&mut self) -> (tok: Token)
        requires
            old(self).wf(),
            old(self).pos() < old(self).input().len(),
            char_is_alphabetic(old(self).input()[old(self).pos() as int]),
        ensures
            final(self).wf(),
            final(self).input() == old(self).input(),
            ({
                let s = old(self).input();
                let q = old(self).pos();
                let e = scan_end(s, q, CharClass::Word);
                let text = s.subrange(q as int, e as int);
                (tok@, final(self).pos()) == if e < s.len() && s[e as int] == ':' {
                    (SpecToken::Label(text), e + 1)
                } else if is_register_name(text) {
                    (SpecToken::Register(text), e)
                } else {
                    (SpecToken::Instruction(text), e)
                }
            }),
    {
        let ghost s = self.input@;
        let start = self.pos;
        let n = self.input.len();
        proof {
            lemma_scan_end(s, start as nat, CharClass::Word);
        }
        while self.pos < n && (is_alphanumeric(self.input[self.pos]) || self.input[self.pos]
            == '_')
            invariant
                self.input@ == s,
                n == s.len(),
                start <= self.pos <= n,
                scan_end(s, self.pos as nat, CharClass::Word) == scan_end(
                    s,
                    start as nat,
                    CharClass::Word,
                ),
            decreases n - self.pos,
        {
            self.pos = self.pos + 1;
        }
        let end = self.pos;
        let mut text = String::new();
        let mut i = start;
        while i < end
            invariant
                self.input@ == s,
                n == s.len(),
                start <= i <= end <= n,
                text@ == s.subrange(start as int, i as int),
            decreases end - i,
        {
            push_char(&mut text, self.input[i]);
            i = i + 1;
            assert(text@ =~= s.subrange(start as int, i as int));
        }
        if end < n && self.input[end] == ':' {
            self.pos = end + 1;
            return Token::Label(text);
        }
        let mut is_register = end - start >= 2 && self.input[start] == 'r';
        let mut j = start + 1;
        while is_register && j < end
            invariant
                self.input@ == s,
                n == s.len(),
                start + 1 <= j <= end <= n,
                is_register ==> (end - start >= 2 && s[start as int] == 'r' && forall|k: int|
                    start + 1 <= k < j ==> char_is_numeric(#[trigger] s[k])),
                !is_register ==> !is_register_name(s.subrange(start as int, end as int)),
            decreases end - j,
        {
            if !is_numeric(self.input[j]) {
                is_register = false;
                assert(s.subrange(start as int, end as int)[j - start] == s[j as int]);
            }
            j = j + 1;
        }
        proof {
            let t = s.subrange(start as int, end as int);
            if is_register {
                assert forall|k: int| 1 <= k < t.len() implies char_is_numeric(#[trigger] t[k]) by {
                    assert(t[k] == s[start + k]);
                }
            }
        }
        if is_register {
            Token::Register(text)
        } else {
            Token::Instruction(text)
        }
    }

    /// Reads a number that starts at the current position: the longest run of numeric
    /// characters, `.` and `-`. A lone `-` is no number: `None`, with the lexer moved past it.
    fn read_number(&mut self) -> (tok: Option<Token>)
        requires
            old(self).wf(),
            old(self).pos() < old(self).input().len(),
            in_class(CharClass::NumberBody, old(self).input()[old(self).pos() as int]),
        ensures
            final(self).wf(),
            final(self).input() == old(self).input(),
            ({
                let s = old(self).input();
                let q = old(self).pos();
                let e = scan_end(s, q, CharClass::NumberBody);
                let text = s.subrange(q as int, e as int);
                &&& final(self).pos() == e
                &&& q < e
                &&& match tok {
                    None => !has_numeric(text) && text =~= seq!['-'],
                    Some(t) => !(!has_numeric(text) && text =~= seq!['-']) && t@ == SpecToken::Number(text),
                }
            }),
    {
        let ghost s = self.input@;
        let start = self.pos;
        let n = self.input.len();
        let mut has_digit = false;
        proof {
            lemma_scan_end(s, start as nat, CharClass::NumberBody);
        }
        while self.pos < n
            invariant
                self.input@ == s,
                n == s.len(),
                start <= self.pos <= n,
                scan_end(s, self.pos as nat, CharClass::NumberBody) == scan_end(
                    s,
                    start as nat,
                    CharClass::NumberBody,
                ),
                has_digit == has_numeric(s.subrange(start as int, self.pos as int)),
            ensures
                self.input@ == s,
                self.pos == scan_end(s, start as nat, CharClass::NumberBody),
                has_digit == has_numeric(s.subrange(start as int, self.pos as int)),
            decreases n - self.pos,
        {
            let ch = self.input[self.pos];
            let ghost old_pos = self.pos;
            if is_numeric(ch) {
                has_digit = true;
                self.pos = self.pos + 1;
            } else if ch == '.' || ch == '-' {
                self.pos = self.pos + 1;
            } else {
                break;
            }
            proof {
                let a = s.subrange(start as int, old_pos as int);
                let b = s.subrange(start as int, self.pos as int);
                assert(b =~= a.push(ch));
                if has_numeric(a) {
                    let i = choose|i: int| 0 <= i < a.len() && char_is_numeric(#[trigger] a[i]);
                    assert(b[i] == a[i]);
                }
                if has_numeric(b) {
                    let i = choose|i: int| 0 <= i < b.len() && char_is_numeric(#[trigger] b[i]);
                    if i < a.len() {
                        assert(a[i] == b[i]);
                    }
                }
                if char_is_numeric(ch) {
                    assert(b[a.len() as int] == ch);
                }
            }
        }
        let end = self.pos;
        let ghost text = s.subrange(start as int, end as int);
        if !has_digit && end - start == 1 && self.input[start] == '-' {
            assert(text =~= seq!['-']);
            return None;
        }
        assert(!(text =~= seq!['-']) || has_digit) by {
            if text =~= seq!['-'] {
                assert(text.len() == 1 && text[0] == s[start as int]);
            }
        }
        let mut t = String::new();
        let mut i = start;
        while i < end
            invariant
                self.input@ == s,
                n == s.len(),
                start <= i <= end <= n,
                t@ == s.subrange(start as int, i as int),
            decreases end - i,
        {
            push_char(&mut t, self.input[i]);
            i = i + 1;
            assert(t@ =~= s.subrange(start as int, i as int));
        }
        Some(Token::Number(t))
    }

    /// Moves past blank characters.
    pub fn skip_whitespace(&mut self)
        requires
            old(self).wf(),
        ensures
            final(self).wf(),
            final(self).input() == old(self).input(),
            final(self).pos() == scan_end(old(self).input(), old(self).pos(), CharClass::Blank),
    {
        let ghost s = self.input@;
        let ghost p = self.pos as nat;
        let n = self.input.len();
        while self.pos < n && is_whitespace(self.input[self.pos])
            invariant
                self.input@ == s,
                n == s.len(),
                p <= self.pos <= n,
                scan_end(s, self.pos as nat, CharClass::Blank) == scan_end(s, p, CharClass::Blank),
            decreases n - self.pos,
        {
            self.pos = self.pos + 1;
        }
    }

    /// Moves to the end of the current line: to the next `\n`, which stays unread, or to the
    /// end of the input.
    pub fn skip_comment(&mut self)
        requires
            old(self).wf(),
        ensures
            final(self).wf(),
            final(self).input() == old(self).input(),
            final(self).pos() == scan_end(old(self).input(), old(self).pos(), CharClass::InLine),
    {
        let ghost s = self.input@;
        let ghost p = self.pos as nat;
        let n = self.input.len();
        while self.pos < n && self.input[self.pos] != '\n'
            invariant
                self.input@ == s,
                n == s.len(),
                p <= self.pos <= n,
                scan_end(s, self.pos as nat, CharClass::InLine) == scan_end(s, p, CharClass::InLine),
            decreases n - self.pos,
        {
            self.pos = self.pos + 1;
        }
    }
}

} // verus!

verus! {

/// Scanning in the second part of a concatenation is scanning that part alone, moved by the
/// length of the first.
proof fn lemma_scan_end_shift(pre: Seq<char>, r: Seq<char>, j: nat, k: CharClass)
    requires
        j <= r.len(),
    ensures
        scan_end(pre + r, pre.len() + j, k) == pre.len() + scan_end(r, j, k),
    decreases r.len() - j,
{
    let s = pre + r;
    if j < r.len() {
        assert(s[(pre.len() + j) as int] == r[j as int]);
        if in_class(k, r[j as int]) {
            lemma_scan_end_shift(pre, r, j + 1, k);
        }
    }
}

/// The lexer reads the second part of a concatenation as it reads that part alone.
proof fn lemma_next_token_shift(pre: Seq<char>, r: Seq<char>, j: nat)
    requires
        j <= r.len(),
    ensures
        spec_next_token(pre + r, pre.len() + j) == (
            spec_next_token(r, j).0,
            pre.len() + spec_next_token(r, j).1,
        ),
    decreases r.len() - j,
{
    let s = pre + r;
    let d = pre.len();
    lemma_scan_end_shift(pre, r, j, CharClass::Blank);
    lemma_scan_end(r, j, CharClass::Blank);
    let q = scan_end(r, j, CharClass::Blank);
    if q < r.len() {
        let c = r[q as int];
        assert(s[(d + q) as int] == c);
        if c == ';' {
            lemma_scan_end(r, q + 1, CharClass::InLine);
            lemma_scan_end_shift(pre, r, q + 1, CharClass::InLine);
            lemma_next_token_shift(pre, r, scan_end(r, q + 1, CharClass::InLine));
        } else if c == ',' {
        } else if char_is_alphabetic(c) {
            lemma_scan_end(r, q, CharClass::Word);
            lemma_scan_end_shift(pre, r, q, CharClass::Word);
            let e = scan_end(r, q, CharClass::Word);
            assert(s.subrange((d + q) as int, (d + e) as int) =~= r.subrange(q as int, e as int));
            if e < r.len() {
                assert(s[(d + e) as int] == r[e as int]);
            }
        } else if char_is_numeric(c) || c == '-' || c == '.' {
            lemma_scan_end(r, q, CharClass::NumberBody);
            lemma_scan_end(r, q + 1, CharClass::NumberBody);
            lemma_scan_end_shift(pre, r, q, CharClass::NumberBody);
            let e = scan_end(r, q, CharClass::NumberBody);
            assert(s.subrange((d + q) as int, (d + e) as int) =~= r.subrange(q as int, e as int));
            let text = r.subrange(q as int, e as int);
            if !has_numeric(text) && text =~= seq!['-'] {
                lemma_next_token_shift(pre, r, e);
            }
        } else {
            lemma_next_token_shift(pre, r, q + 1);
        }
    }
}

/// The tokens of the second part of a concatenation, read from there on, are those of that
/// part alone.
proof fn lemma_tokens_shift(pre: Seq<char>, r: Seq<char>, j: nat)
    requires
        j <= r.len(),
    ensures
        spec_tokens_from(pre + r, pre.len() + j) == spec_tokens_from(r, j),
    decreases r.len() - j,
{
    lemma_next_token_shift(pre, r, j);
    if !(spec_next_token(r, j).0 is Eof) {
        lemma_next_token_progress(r, j);
        lemma_tokens_shift(pre, r, spec_next_token(r, j).1);
    }
}

/// Where skipping blanks from two positions stops at the same place, the lexer reads the
/// same token from both.
proof fn lemma_same_blank_end(s: Seq<char>, x: nat, y: nat)
    requires
        x <= s.len(),
        y <= s.len(),
        scan_end(s, x, CharClass::Blank) == scan_end(s, y, CharClass::Blank),
    ensures
        spec_next_token(s, x) == spec_next_token(s, y),
        spec_tokens_from(s, x) == spec_tokens_from(s, y),
{
}

/// Skipping a comment moves to the first newline at or after the position, or to the end of
/// the input: every character passed over is not a newline, and the one stopped at is.
pub proof fn lemma_comment_runs_to_newline(s: Seq<char>, p: nat)
    requires
        p <= s.len(),
    ensures
        p <= scan_end(s, p, CharClass::InLine) <= s.len(),
        forall|i: int| p <= i < scan_end(s, p, CharClass::InLine) ==> #[trigger] s[i] != '\n',
        scan_end(s, p, CharClass::InLine) == s.len() || s[scan_end(s, p, CharClass::InLine) as int]
            == '\n',
{
    lemma_scan_end(s, p, CharClass::InLine);
}

proof fn lemma_scan_line_over(c: Seq<char>, tail: Seq<char>, j: nat)
    requires
        j <= c.len(),
        forall|i: int| 0 <= i < c.len() ==> #[trigger] c[i] != '\n',
        tail.len() == 0 || tail[0] == '\n',
    ensures
        scan_end(c + tail, j, CharClass::InLine) == c.len(),
    decreases c.len() - j,
{
    let s = c + tail;
    if j < c.len() {
        assert(s[j as int] == c[j as int]);
        lemma_scan_line_over(c, tail, j + 1);
    } else if tail.len() > 0 {
        assert(s[c.len() as int] == '\n');
    }
}

/// A `;` comment is passed over up to its newline: the tokens of `;`, a comment text `c`
/// without newlines, a newline, then `rest` are the tokens of `rest`.
pub proof fn lemma_comment_line_is_skipped(c: Seq<char>, rest: Seq<char>)
    requires
        forall|i: int| 0 <= i < c.len() ==> #[trigger] c[i] != '\n',
    ensures
        spec_tokens(seq![';'] + c + seq!['\n'] + rest) == spec_tokens(rest),
{
    let pre = seq![';'] + c + seq!['\n'];
    let s = pre + rest;
    assert(seq![';'] + c + seq!['\n'] + rest =~= s);
    let nl = c.len() + 1;
    // nothing blank comes before the ';'
    assert(s[0] == ';');
    assert(!char_is_whitespace(';'));
    assert(scan_end(s, 0, CharClass::Blank) == 0);
    // the comment stops at the newline
    let body = seq![';'] + c;
    assert(s =~= body + (seq!['\n'] + rest));
    assert forall|i: int| 0 <= i < body.len() implies #[trigger] body[i] != '\n' || i == 0 by {
        if i > 0 {
            assert(body[i] == c[i - 1]);
        }
    }
    lemma_scan_line_over_from_one(c, rest);
    assert(scan_end(s, 1, CharClass::InLine) == nl);
    // the newline is blank, so the lexer goes on as from the start of `rest`
    assert(s[nl as int] == '\n');
    assert(char_is_whitespace('\n'));
    lemma_scan_end_shift(pre, rest, 0, CharClass::Blank);
    assert(scan_end(s, nl, CharClass::Blank) == scan_end(s, pre.len(), CharClass::Blank));
    lemma_same_blank_end(s, nl, pre.len());
    lemma_tokens_shift(pre, rest, 0);
    lemma_next_token_progress(s, nl);
    assert(spec_next_token(s, 0) == spec_next_token(s, nl));
    if spec_next_token(s, 0).0 is Eof {
    } else {
        assert(spec_tokens_from(s, 0) == spec_tokens_from(s, nl));
    }
    assert(spec_tokens_from(s, 0) == spec_tokens_from(s, pre.len()));
    assert(pre.len() + 0 == pre.len());
}

proof fn lemma_scan_line_over_from_one(c: Seq<char>, rest: Seq<char>)
    requires
        forall|i: int| 0 <= i < c.len() ==> #[trigger] c[i] != '\n',
    ensures
        scan_end(seq![';'] + c + seq!['\n'] + rest, 1, CharClass::InLine) == c.len() + 1,
{
    let s = seq![';'] + c + seq!['\n'] + rest;
    let pre = seq![';'];
    let r = c + seq!['\n'] + rest;
    assert(s =~= pre + r);
    lemma_scan_end_shift(pre, r, 0, CharClass::InLine);
    assert(c + seq!['\n'] + rest =~= c + (seq!['\n'] + rest));
    lemma_scan_line_over(c, seq!['\n'] + rest, 0);
}

/// A `;` comment that reaches the end of the input leaves no token.
pub proof fn lemma_comment_to_end_is_skipped(c: Seq<char>)
    requires
        forall|i: int| 0 <= i < c.len() ==> #[trigger] c[i] != '\n',
    ensures
        spec_tokens(seq![';'] + c) == Seq::<SpecToken>::empty(),
{
    let s = seq![';'] + c;
    assert(s[0] == ';');
    assert(!char_is_whitespace(';'));
    let pre = seq![';'];
    lemma_scan_end_shift(pre, c, 0, CharClass::InLine);
    assert(c =~= c + Seq::<char>::empty());
    lemma_scan_line_over(c, Seq::<char>::empty(), 0);
    assert(scan_end(s, 1, CharClass::InLine) == s.len());
    assert(scan_end(s, 0, CharClass::Blank) == 0);
    lemma_scan_end(s, s.len(), CharClass::Blank);
    assert(spec_next_token(s, s.len()).0 is Eof);
    assert(spec_next_token(s, 0) == spec_next_token(s, s.len()));
    assert(spec_next_token(s, 0).0 is Eof);
}

} // verus!

verus! {

/// Where every character from `p` up to `q` is of class `k` and the one at `q` is not (or
/// `q` is the end), scanning from `p` stops at `q`.
proof fn lemma_scan_all(s: Seq<char>, p: nat, q: nat, k: CharClass)
    requires
        p <= q <= s.len(),
        forall|i: int| p <= i < q ==> in_class(k, #[trigger] s[i]),
        q == s.len() || !in_class(k, s[q as int]),
    ensures
        scan_end(s, p, k) == q,
    decreases q - p,
{
    if p < q {
        lemma_scan_all(s, p + 1, q, k);
    }
}

/// After a token that ends at `e`, followed at most by a newline, the lexer reads `rest`.
proof fn lemma_after_separator(pre: Seq<char>, rest: Seq<char>, e: nat)
    requires
        e == pre.len() || (e + 1 == pre.len() && pre[e as int] == '\n'),
    ensures
        spec_tokens_from(pre + rest, e) == spec_tokens(rest),
{
    let s = pre + rest;
    if e + 1 == pre.len() {
        assert(s[e as int] == '\n');
        assert(char_is_whitespace('\n'));
        lemma_scan_end(s, e + 1, CharClass::Blank);
        assert(scan_end(s, e, CharClass::Blank) == scan_end(s, pre.len(), CharClass::Blank));
        lemma_same_blank_end(s, e, pre.len());
    }
    lemma_tokens_shift(pre, rest, 0);
}

/// The tokens of a source whose first token is `t`, ending at `e`, are `t` and then the
/// tokens from `e`.
proof fn lemma_first_token(s: Seq<char>, t: SpecToken, e: nat)
    requires
        spec_next_token(s, 0) == (t, e),
        !(t is Eof),
    ensures
        spec_tokens(s) == seq![t] + spec_tokens_from(s, e),
{
}

/// A comma is a token of its own: the tokens of `,` then `rest` are a comma and the tokens
/// of `rest`.
pub proof fn lemma_comma_token(rest: Seq<char>)
    ensures
        spec_tokens(seq![','] + rest) == seq![SpecToken::Comma] + spec_tokens(rest),
{
    let pre = seq![','];
    let s = pre + rest;
    assert(s[0] == ',');
    assert(!char_is_whitespace(','));
    assert(scan_end(s, 0, CharClass::Blank) == 0);
    lemma_first_token(s, SpecToken::Comma, 1);
    lemma_after_separator(pre, rest, 1);
}

/// The requirements on a word: it starts with an alphabetic character that starts no comment
/// or separator, and all its characters are letters, digits or `_` (as std answers them).
pub open spec fn is_word(w: Seq<char>) -> bool {
    &&& w.len() > 0
    &&& char_is_alphabetic(w[0])
    &&& w[0] != ';' && w[0] != ','
    &&& !char_is_whitespace(w[0])
    &&& forall|i: int| 0 <= i < w.len() ==> in_class(CharClass::Word, #[trigger] w[i])
}

/// A word followed by `:` is a label: the tokens of `w:` then `rest` are `Label(w)` and the
/// tokens of `rest` (where std answers that `:` is neither alphabetic nor numeric).
pub proof fn lemma_label_token(w: Seq<char>, rest: Seq<char>)
    requires
        is_word(w),
        !char_is_alphabetic(':'),
        !char_is_numeric(':'),
    ensures
        spec_tokens(w + seq![':'] + rest) == seq![SpecToken::Label(w)] + spec_tokens(rest),
{
    let pre = w + seq![':'];
    let s = pre + rest;
    assert(w + seq![':'] + rest =~= s);
    assert forall|i: int| 0 <= i < w.len() implies in_class(CharClass::Word, #[trigger] s[i]) by {
        assert(s[i] == w[i]);
    }
    assert(s[w.len() as int] == ':');
    lemma_scan_all(s, 0, w.len(), CharClass::Word);
    assert(s[0] == w[0]);
    assert(scan_end(s, 0, CharClass::Blank) == 0);
    assert(s.subrange(0, w.len() as int) =~= w);
    lemma_first_token(s, SpecToken::Label(w), w.len() + 1);
    lemma_after_separator(pre, rest, w.len() + 1);
}

/// A word followed by a newline is a register when it is `r` and numeric characters, and an
/// instruction otherwise (where std answers that a newline is neither alphabetic nor
/// numeric).
pub proof fn lemma_word_token(w: Seq<char>, rest: Seq<char>)
    requires
        is_word(w),
        !char_is_alphabetic('\n'),
        !char_is_numeric('\n'),
    ensures
        spec_tokens(w + seq!['\n'] + rest) == seq![
            if w[0] == 'r' && w.len() >= 2 && (forall|i: int|
                1 <= i < w.len() ==> char_is_numeric(#[trigger] w[i])) {
                SpecToken::Register(w)
            } else {
                SpecToken::Instruction(w)
            },
        ] + spec_tokens(rest),
{
    let pre = w + seq!['\n'];
    let s = pre + rest;
    assert(w + seq!['\n'] + rest =~= s);
    assert forall|i: int| 0 <= i < w.len() implies in_class(CharClass::Word, #[trigger] s[i]) by {
        assert(s[i] == w[i]);
    }
    assert(s[w.len() as int] == '\n');
    lemma_scan_all(s, 0, w.len(), CharClass::Word);
    assert(s[0] == w[0]);
    assert(scan_end(s, 0, CharClass::Blank) == 0);
    assert(s.subrange(0, w.len() as int) =~= w);
    let t = if is_register_name(w) {
        SpecToken::Register(w)
    } else {
        SpecToken::Instruction(w)
    };
    assert(spec_next_token(s, 0) == (t, w.len()));
    lemma_first_token(s, t, w.len());
    lemma_after_separator(pre, rest, w.len());
}

/// Digits, `.` and `-` followed by a newline make a number (unless it is a lone `-`, and
/// where std answers that its first character is not alphabetic and a newline is not
/// numeric): the tokens are `Number(n)` and the tokens of `rest`.
pub proof fn lemma_number_token(n: Seq<char>, rest: Seq<char>)
    requires
        n.len() > 0,
        !char_is_alphabetic(n[0]),
        n[0] != ';' && n[0] != ',',
        !char_is_whitespace(n[0]),
        forall|i: int| 0 <= i < n.len() ==> in_class(CharClass::NumberBody, #[trigger] n[i]),
        n != seq!['-'],
        !char_is_numeric('\n'),
    ensures
        spec_tokens(n + seq!['\n'] + rest) == seq![SpecToken::Number(n)] + spec_tokens(rest),
{
    let pre = n + seq!['\n'];
    let s = pre + rest;
    assert(n + seq!['\n'] + rest =~= s);
    assert forall|i: int| 0 <= i < n.len() implies in_class(CharClass::NumberBody, #[trigger] s[i]) by {
        assert(s[i] == n[i]);
    }
    assert(s[n.len() as int] == '\n');
    lemma_scan_all(s, 0, n.len(), CharClass::NumberBody);
    assert(s[0] == n[0]);
    assert(in_class(CharClass::NumberBody, n[0]));
    assert(scan_end(s, 0, CharClass::Blank) == 0);
    assert(s.subrange(0, n.len() as int) =~= n);
    assert(!(n =~= seq!['-']));
    assert(spec_next_token(s, 0) == (SpecToken::Number(n), n.len()));
    lemma_first_token(s, SpecToken::Number(n), n.len());
    lemma_after_separator(pre, rest, n.len());
}

/// A lone `-` is no token: the tokens of `-`, a newline, then `rest` are the tokens of
/// `rest` (where std answers that `-` is neither alphabetic nor numeric and a newline is not
/// numeric).
pub proof fn lemma_lone_minus_is_skipped(rest: Seq<char>)
    requires
        !char_is_alphabetic('-'),
        !char_is_numeric('-'),
        !char_is_numeric('\n'),
    ensures
        spec_tokens(seq!['-', '\n'] + rest) == spec_tokens(rest),
{
    let pre = seq!['-', '\n'];
    let s = pre + rest;
    assert(s[0] == '-');
    assert(s[1] == '\n');
    assert(!char_is_whitespace('-'));
    assert(scan_end(s, 0, CharClass::Blank) == 0);
    lemma_scan_all(s, 0, 1, CharClass::NumberBody);
    let text = s.subrange(0, 1);
    assert(text =~= seq!['-']);
    assert(!has_numeric(text)) by {
        if has_numeric(text) {
            let i = choose|i: int| 0 <= i < text.len() && char_is_numeric(#[trigger] text[i]);
            assert(text[i] == '-');
        }
    }
    assert(spec_next_token(s, 0) == spec_next_token(s, 1));
    assert(char_is_whitespace('\n'));
    lemma_scan_end(s, 2, CharClass::Blank);
    assert(scan_end(s, 1, CharClass::Blank) == scan_end(s, 2, CharClass::Blank));
    lemma_same_blank_end(s, 1, 2);
    assert(spec_tokens_from(s, 0) == spec_tokens_from(s, 1));
    lemma_tokens_shift(pre, rest, 0);
}

} // verus!
