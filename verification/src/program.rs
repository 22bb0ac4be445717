use vstd::prelude::*;

use crate::lexer::{token_views, SpecToken, Token};
use crate::text::str_equal;

verus! {

/// The number of voices; `voice n` selects `min(n, VOICE_COUNT - 1)`.
pub const VOICE_COUNT: usize = 8;

/// The number of registers of each voice; `rN` names `min(N, REGISTER_COUNT - 1)`.
pub const REGISTER_COUNT: usize = 8;

/// Length, in samples, of the delay line (two seconds at 44.1 kHz).
pub const MAX_DELAY_SAMPLES: usize = 88200;

/// The oscillator shape of a voice.
#[derive(Clone, Copy, Debug, PartialEq, Eq, Structural)]
pub enum Waveform {
    Sine,
    Square,
    Triangle,
    Sawtooth,
    Noise,
}

/// The shape that `wave <name>` selects; an unknown name selects a sine.
pub open spec fn spec_waveform(name: Seq<char>) -> Waveform {
    if name == "sine"@ {
        Waveform::Sine
    } else if name == "square"@ {
        Waveform::Square
    } else if name == "tri"@ {
        Waveform::Triangle
    } else if name == "saw"@ {
        Waveform::Sawtooth
    } else if name == "noise"@ {
        Waveform::Noise
    } else {
        Waveform::Sine
    }
}

/// The shape that `wave <name>` selects.
pub fn waveform_from_name(name: &str) -> (w: Waveform)
    ensures
        w == spec_waveform(name@),
{
    if str_equal(name, "sine") {
        Waveform::Sine
    } else if str_equal(name, "square") {
        Waveform::Square
    } else if str_equal(name, "tri") {
        Waveform::Triangle
    } else if str_equal(name, "saw") {
        Waveform::Sawtooth
    } else if str_equal(name, "noise") {
        Waveform::Noise
    } else {
        Waveform::Sine
    }
}

/// The instructions of the machine.
#[derive(Clone, Copy, Debug, PartialEq, Eq, Structural)]
pub enum Opcode {
    Delay,
    Voice,
    Wave,
    Mov,
    Add,
    NoteOn,
    NoteOff,
    Out,
    Fill,
    Jmp,
    Jnz,
}

pub open spec fn spec_opcode(name: Seq<char>) -> Option<Opcode> {
    if name == "delay"@ {
        Some(Opcode::Delay)
    } else if name == "voice"@ {
        Some(Opcode::Voice)
    } else if name == "wave"@ {
        Some(Opcode::Wave)
    } else if name == "mov"@ {
        Some(Opcode::Mov)
    } else if name == "add"@ {
        Some(Opcode::Add)
    } else if name == "note_on"@ {
        Some(Opcode::NoteOn)
    } else if name == "note_off"@ {
        Some(Opcode::NoteOff)
    } else if name == "out"@ {
        Some(Opcode::Out)
    } else if name == "fill"@ {
        Some(Opcode::Fill)
    } else if name == "jmp"@ {
        Some(Opcode::Jmp)
    } else if name == "jnz"@ {
        Some(Opcode::Jnz)
    } else {
        None
    }
}

/// The instruction that a mnemonic names, if any.
pub fn opcode_from_name(name: &str) -> (op: Option<Opcode>)
    ensures
        op == spec_opcode(name@),
{
    if str_equal(name, "delay") {
        Some(Opcode::Delay)
    } else if str_equal(name, "voice") {
        Some(Opcode::Voice)
    } else if str_equal(name, "wave") {
        Some(Opcode::Wave)
    } else if str_equal(name, "mov") {
        Some(Opcode::Mov)
    } else if str_equal(name, "add") {
        Some(Opcode::Add)
    } else if str_equal(name, "note_on") {
        Some(Opcode::NoteOn)
    } else if str_equal(name, "note_off") {
        Some(Opcode::NoteOff)
    } else if str_equal(name, "out") {
        Some(Opcode::Out)
    } else if str_equal(name, "fill") {
        Some(Opcode::Fill)
    } else if str_equal(name, "jmp") {
        Some(Opcode::Jmp)
    } else if str_equal(name, "jnz") {
        Some(Opcode::Jnz)
    } else {
        None
    }
}

// ---------------------------------------------------------------------------------------
// Registers
// ---------------------------------------------------------------------------------------

pub open spec fn is_ascii_digit(c: char) -> bool {
    '0' <= c <= '9'
}

/// The value of a string of decimal digits.
pub open spec fn digits_value(d: Seq<char>) -> nat
    decreases d.len(),
{
    if d.len() == 0 {
        0
    } else {
        digits_value(d.drop_last()) * 10 + (d.last() as nat - '0' as nat) as nat
    }
}

/// The digits part of a decimal number: what follows an optional leading `+`.
pub open spec fn unsigned_digits(s: Seq<char>) -> Seq<char> {
    if s.len() > 0 && s[0] == '+' {
        s.drop_first()
    } else {
        s
    }
}

/// The value of one or more ASCII digits, where it fits in a `usize`.
pub open spec fn spec_parse_digits(d: Seq<char>) -> Option<usize> {
    if d.len() > 0 && (forall|i: int| 0 <= i < d.len() ==> is_ascii_digit(#[trigger] d[i]))
        && digits_value(d) <= usize::MAX {
        Some(digits_value(d) as usize)
    } else {
        None
    }
}

/// What `str::parse::<usize>` gives: an optional `+`, then one or more ASCII digits whose
/// value fits in a `usize`.
pub open spec fn spec_parse_usize(s: Seq<char>) -> Option<usize> {
    spec_parse_digits(unsigned_digits(s))
}

proof fn lemma_digits_value_grows(d: Seq<char>, i: int)
    requires
        0 <= i <= d.len(),
        forall|k: int| 0 <= k < d.len() ==> is_ascii_digit(#[trigger] d[k]),
    ensures
        digits_value(d.take(i)) <= digits_value(d),
    decreases d.len(),
{
    if i < d.len() {
        let e = d.drop_last();
        assert(forall|k: int| 0 <= k < e.len() ==> is_ascii_digit(#[trigger] e[k]) ) by {
            assert forall|k: int| 0 <= k < e.len() implies is_ascii_digit(#[trigger] e[k]) by {
                assert(e[k] == d[k]);
            }
        }
        lemma_digits_value_grows(e, i);
        assert(e.take(i) =~= d.take(i));
    } else {
        assert(d.take(i) =~= d);
    }
}

/// Parses a decimal `usize` as `str::parse::<usize>` does.
pub fn parse_usize(s: &str) -> (r: Option<usize>)
    ensures
        r == spec_parse_usize(s@),
{
    let n = s.unicode_len();
    let mut i: usize = 0;
    if n > 0 && s.get_char(0) == '+' {
        i = 1;
    }
    let start = i;
    let ghost d = unsigned_digits(s@);
    assert(d =~= s@.subrange(start as int, n as int));
    if start == n {
        return None;
    }
    let mut value: usize = 0;
    while i < n
        invariant
            n == s@.len(),
            start <= i <= n,
            d =~= s@.subrange(start as int, n as int),
            d == unsigned_digits(s@),
            start < n,
            forall|k: int| start <= k < i ==> is_ascii_digit(#[trigger] s@[k]),
            value as nat == digits_value(d.take(i - start)),
        decreases n - i,
    {
        let c = s.get_char(i);
        if !('0' <= c && c <= '9') {
            assert(d[i - start] == c);
            return None;
        }
        let digit = (c as u32 - '0' as u32) as usize;
        proof {
            let t = d.take(i + 1 - start);
            assert(t.drop_last() =~= d.take(i - start));
            assert(t.last() == c);
        }
        if value > (usize::MAX - digit) / 10 {
            proof {
                assert(value * 10 + digit > usize::MAX) by (nonlinear_arith)
                    requires
                        value > (usize::MAX - digit) / 10,
                        digit <= 9,
                ;
                let t = d.take(i + 1 - start);
                assert(digits_value(t) == value * 10 + digit);
                // A longer prefix only makes the value larger; if every character is a digit
                // the whole value is too large, and otherwise the parse fails anyway.
                if forall|k: int| 0 <= k < d.len() ==> is_ascii_digit(#[trigger] d[k]) {
                    lemma_digits_value_grows(d, i + 1 - start);
                }
            }
            return None;
        }
        assert(value * 10 + digit <= usize::MAX) by (nonlinear_arith)
            requires
                value <= (usize::MAX - digit) / 10,
                digit <= 9,
        ;
        value = value * 10 + digit;
        i = i + 1;
    }
    assert(d.take(n - start) =~= d);
    Some(value)
}

/// The register that a register token `name` (such as `r3`) designates: the number after its
/// first character, or 0 where that is no decimal number, at most `REGISTER_COUNT - 1`.
pub open spec fn spec_register_index(name: Seq<char>) -> usize {
    match spec_parse_usize(name.drop_first()) {
        Some(n) => if n < REGISTER_COUNT {
            n
        } else {
            (REGISTER_COUNT - 1) as usize
        },
        None => 0,
    }
}

/// The register that a register token designates. Its first character must be ASCII (it is
/// `r` in every register token).
pub fn parse_reg(name: &str) -> (r: usize)
    requires
        name@.len() > 0,
        (name@[0] as u32) < 0x80,
    ensures
        r == spec_register_index(name@),
        r < REGISTER_COUNT,
{
    let n = name.unicode_len();
    let rest = name.substring_char(1, n);
    match parse_usize(rest) {
        Some(v) => if v < REGISTER_COUNT {
            v
        } else {
            REGISTER_COUNT - 1
        },
        None => 0,
    }
}

/// The voice that `voice n` selects: `n`, at most the last voice.
pub open spec fn spec_voice_index(n: usize) -> usize {
    if n < VOICE_COUNT {
        n
    } else {
        (VOICE_COUNT - 1) as usize
    }
}

/// Every number from the last voice on selects the last voice.
pub proof fn lemma_voice_index_saturates(n: usize)
    requires
        n >= VOICE_COUNT - 1,
    ensures
        spec_voice_index(n) == spec_voice_index((VOICE_COUNT - 1) as usize),
        spec_voice_index(n) == VOICE_COUNT - 1,
{
}

/// The voice that `voice n` selects.
pub fn voice_index(n: usize) -> (r: usize)
    ensures
        r == spec_voice_index(n),
        r < VOICE_COUNT,
{
    if n < VOICE_COUNT {
        n
    } else {
        VOICE_COUNT - 1
    }
}

/// The delay, in samples, that `delay t ...` sets: `t`, at most one less than the length of
/// the delay line.
pub fn delay_length(t: usize) -> (r: usize)
    ensures
        r == if t < MAX_DELAY_SAMPLES {
            t
        } else {
            (MAX_DELAY_SAMPLES - 1) as usize
        },
        r < MAX_DELAY_SAMPLES,
{
    if t < MAX_DELAY_SAMPLES {
        t
    } else {
        MAX_DELAY_SAMPLES - 1
    }
}

// ---------------------------------------------------------------------------------------
// Labels
// ---------------------------------------------------------------------------------------

/// Where each label of a token sequence points: the position of its last definition.
pub open spec fn spec_labels(t: Seq<SpecToken>) -> Map<Seq<char>, nat>
    decreases t.len(),
{
    if t.len() == 0 {
        Map::empty()
    } else {
        let m = spec_labels(t.drop_last());
        match t.last() {
            SpecToken::Label(name) => m.insert(name, (t.len() - 1) as nat),
            _ => m,
        }
    }
}

/// A label is defined exactly when it occurs in the tokens, and it points at its last
/// definition.
pub proof fn lemma_label_is_last_definition(t: Seq<SpecToken>, name: Seq<char>)
    ensures
        spec_labels(t).contains_key(name) <==> exists|i: int|
            0 <= i < t.len() && #[trigger] t[i] == SpecToken::Label(name),
        spec_labels(t).contains_key(name) ==> {
            let i = spec_labels(t)[name] as int;
            &&& 0 <= i < t.len()
            &&& t[i] == SpecToken::Label(name)
            &&& forall|j: int| i < j < t.len() ==> #[trigger] t[j] != SpecToken::Label(name)
        },
    decreases t.len(),
{
    if t.len() > 0 {
        let u = t.drop_last();
        let last = (t.len() - 1) as int;
        lemma_label_is_last_definition(u, name);
        assert forall|i: int| 0 <= i < u.len() implies #[trigger] u[i] == t[i] by {}
        if exists|i: int| 0 <= i < t.len() && #[trigger] t[i] == SpecToken::Label(name) {
            let i = choose|i: int| 0 <= i < t.len() && #[trigger] t[i] == SpecToken::Label(name);
            if i < u.len() {
                assert(u[i] == t[i]);
            }
        }
        if t[last] == SpecToken::Label(name) {
            assert(spec_labels(t) == spec_labels(u).insert(name, last as nat));
        } else {
            assert(spec_labels(t).contains_key(name) == spec_labels(u).contains_key(name));
            if spec_labels(u).contains_key(name) {
                let i = spec_labels(u)[name] as int;
                assert(spec_labels(t)[name] == spec_labels(u)[name]);
                assert(u[i] == t[i]);
                assert forall|j: int| i < j < t.len() implies #[trigger] t[j] != SpecToken::Label(
                    name,
                ) by {
                    if j < last {
                        assert(u[j] == t[j]);
                    }
                }
            }
        }
    }
}

/// The position of `name` among `names`, if it is there.
fn find_name(names: &Vec<String>, name: &str) -> (r: Option<usize>)
    ensures
        match r {
            Some(j) => j < names.len() && names[j as int]@ == name@,
            None => forall|k: int| 0 <= k < names.len() ==> #[trigger] names[k]@ != name@,
        },
{
    let m = names.len();
    let mut j: usize = 0;
    while j < m
        invariant
            m == names.len(),
            0 <= j <= m,
            forall|k: int| 0 <= k < j ==> #[trigger] names[k]@ != name@,
        decreases m - j,
    {
        if str_equal(names[j].as_str(), name) {
            return Some(j);
        }
        j = j + 1;
    }
    None
}

// ---------------------------------------------------------------------------------------
// Stepping through a program
// ---------------------------------------------------------------------------------------

/// What one instruction asks of the voices. Operands that are numbers are given as the
/// positions of their `Number` tokens.
#[derive(Debug, PartialEq, Eq)]
pub enum Action {
    /// Nothing: a label, a separator, an unknown or incomplete instruction, or a jump.
    Pass,
    /// `delay t f m`: set the delay time, feedback and mix.
    Delay { time: usize, feedback: usize, mix: usize },
    /// `voice n`: select the voice that the following instructions address.
    SelectVoice { number: usize },
    /// `wave name`: set the oscillator shape of the current voice.
    SetWave(Waveform),
    /// `mov rN, v`: set register `register` of the current voice.
    Mov { register: usize, value: usize },
    /// `add rN, v`: add to register `register` of the current voice.
    Add { register: usize, value: usize },
    /// Start the attack of the current voice.
    NoteOn,
    /// Start the release of the current voice.
    NoteOff,
    /// Emit one sample.
    Out,
    /// `fill n`: emit `n` samples.
    Fill { count: usize },
}

/// One step of a program: what to do, and where to go on.
#[derive(Debug, PartialEq, Eq)]
pub struct Step {
    pub action: Action,
    pub next: usize,
}

/// A step that the machine cannot take.
#[derive(Debug, PartialEq, Eq)]
pub enum StepError {
    /// A jump to a label that the program does not define.
    UnknownLabel,
    /// A register operand whose name is empty or starts with a character beyond ASCII.
    MalformedRegister,
}

pub open spec fn is_number_at(t: Seq<SpecToken>, i: int) -> bool {
    0 <= i < t.len() && t[i] is Number
}

pub open spec fn register_name_ok(name: Seq<char>) -> bool {
    name.len() > 0 && (name[0] as u32) < 0x80
}

pub open spec fn pass_step(pc: int) -> Result<Step, StepError> {
    Ok(Step { action: Action::Pass, next: (pc + 1) as usize })
}

/// A jump to label `name`.
pub open spec fn jump_step(t: Seq<SpecToken>, name: Seq<char>) -> Result<Step, StepError> {
    if spec_labels(t).contains_key(name) {
        Ok(Step { action: Action::Pass, next: spec_labels(t)[name] as usize })
    } else {
        Err(StepError::UnknownLabel)
    }
}

/// `mov` and `add`: a register at `pc + 1` and a number at `pc + 3` (the comma between them
/// is not looked at).
pub open spec fn register_step(t: Seq<SpecToken>, pc: int, is_add: bool) -> Result<
    Step,
    StepError,
> {
    if pc + 1 < t.len() && is_number_at(t, pc + 3) {
        match t[pc + 1] {
            SpecToken::Register(r) => if !register_name_ok(r) {
                Err(StepError::MalformedRegister)
            } else if is_add {
                Ok(
                    Step {
                        action: Action::Add {
                            register: spec_register_index(r),
                            value: (pc + 3) as usize,
                        },
                        next: (pc + 4) as usize,
                    },
                )
            } else {
                Ok(
                    Step {
                        action: Action::Mov {
                            register: spec_register_index(r),
                            value: (pc + 3) as usize,
                        },
                        next: (pc + 4) as usize,
                    },
                )
            },
            _ => pass_step(pc),
        }
    } else {
        pass_step(pc)
    }
}

/// The step that the instruction at `pc` takes, where the zero flag of the current voice is
/// `zero_flag`.
pub open spec fn spec_step(t: Seq<SpecToken>, pc: int, zero_flag: bool) -> Result<
    Step,
    StepError,
> {
    match t[pc] {
        SpecToken::Instruction(name) => match spec_opcode(name) {
            Some(Opcode::Delay) => if is_number_at(t, pc + 1) && is_number_at(t, pc + 2)
                && is_number_at(t, pc + 3) {
                Ok(
                    Step {
                        action: Action::Delay {
                            time: (pc + 1) as usize,
                            feedback: (pc + 2) as usize,
                            mix: (pc + 3) as usize,
                        },
                        next: (pc + 4) as usize,
                    },
                )
            } else {
                pass_step(pc)
            },
            Some(Opcode::Voice) => if is_number_at(t, pc + 1) {
                Ok(
                    Step {
                        action: Action::SelectVoice { number: (pc + 1) as usize },
                        next: (pc + 2) as usize,
                    },
                )
            } else {
                pass_step(pc)
            },
            Some(Opcode::Wave) => if pc + 1 < t.len() {
                match t[pc + 1] {
                    SpecToken::Instruction(w) => Ok(
                        Step {
                            action: Action::SetWave(spec_waveform(w)),
                            next: (pc + 2) as usize,
                        },
                    ),
                    _ => pass_step(pc),
                }
            } else {
                pass_step(pc)
            },
            Some(Opcode::Mov) => register_step(t, pc, false),
            Some(Opcode::Add) => register_step(t, pc, true),
            Some(Opcode::NoteOn) => Ok(Step { action: Action::NoteOn, next: (pc + 1) as usize }),
            Some(Opcode::NoteOff) => Ok(
                Step { action: Action::NoteOff, next: (pc + 1) as usize },
            ),
            Some(Opcode::Out) => Ok(Step { action: Action::Out, next: (pc + 1) as usize }),
            Some(Opcode::Fill) => if is_number_at(t, pc + 1) {
                Ok(
                    Step {
                        action: Action::Fill { count: (pc + 1) as usize },
                        next: (pc + 2) as usize,
                    },
                )
            } else {
                pass_step(pc)
            },
            Some(Opcode::Jmp) => if pc + 1 < t.len() {
                match t[pc + 1] {
                    SpecToken::Instruction(l) => jump_step(t, l),
                    _ => pass_step(pc),
                }
            } else {
                pass_step(pc)
            },
            Some(Opcode::Jnz) => if pc + 1 < t.len() {
                match t[pc + 1] {
                    SpecToken::Instruction(l) => if !zero_flag {
                        jump_step(t, l)
                    } else {
                        Ok(Step { action: Action::Pass, next: (pc + 2) as usize })
                    },
                    _ => pass_step(pc),
                }
            } else {
                pass_step(pc)
            },
            None => pass_step(pc),
        },
        _ => pass_step(pc),
    }
}

/// A token sequence ready to be run, with its labels resolved.
pub struct Program<'a> {
    tokens: &'a [Token],
    label_names: Vec<String>,
    label_targets: Vec<usize>,
}

impl<'a> Program<'a> {
    /// The tokens of the program.
    pub closed spec fn tokens(&self) -> Seq<SpecToken> {
        token_views(self.tokens@)
    }

    /// Where each label points.
    pub open spec fn labels(&self) -> Map<Seq<char>, nat> {
        spec_labels(self.tokens())
    }

    pub closed spec fn wf(&self) -> bool {
        let m = self.labels();
        &&& self.label_names.len() == self.label_targets.len()
        &&& forall|j: int|
            0 <= j < self.label_names.len() ==> #[trigger] m.contains_key(self.label_names[j]@)
                && m[self.label_names[j]@] == self.label_targets[j]
        &&& forall|k: Seq<char>|
            #[trigger] m.contains_key(k) ==> exists|j: int|
                0 <= j < self.label_names.len() && #[trigger] self.label_names[j]@ == k
        &&& forall|a: int, b: int|
            0 <= a < b < self.label_names.len() ==> #[trigger] self.label_names[a]@
                != #[trigger] self.label_names[b]@
    }

    /// Reads the labels of `tokens`.
    pub fn new(tokens: &'a [Token]) -> (p: Self)
        ensures
            p.wf(),
            p.tokens() == token_views(tokens@),
    {
        let ghost t = token_views(tokens@);
        let mut names: Vec<String> = Vec::new();
        let mut targets: Vec<usize> = Vec::new();
        let n = tokens.len();
        let mut i: usize = 0;
        while i < n
            invariant
                n == tokens@.len(),
                t == token_views(tokens@),
                0 <= i <= n,
                names.len() == targets.len(),
                forall|j: int|
                    0 <= j < names.len() ==> #[trigger] spec_labels(t.take(i as int)).contains_key(
                        names[j]@,
                    ) && spec_labels(t.take(i as int))[names[j]@] == targets[j],
                forall|k: Seq<char>|
                    #[trigger] spec_labels(t.take(i as int)).contains_key(k) ==> exists|j: int|
                        0 <= j < names.len() && #[trigger] names[j]@ == k,
                forall|a: int, b: int|
                    0 <= a < b < names.len() ==> #[trigger] names[a]@ != #[trigger] names[b]@,
            decreases n - i,
        {
            let ghost before = spec_labels(t.take(i as int));
            proof {
                assert(t.take(i + 1).drop_last() =~= t.take(i as int));
                assert(t.take(i + 1).last() == tokens@[i as int]@);
            }
            match &tokens[i] {
                Token::Label(name) => {
                    let ghost after = before.insert(name@, i as nat);
                    let ghost old_names = names@;
                    let ghost old_targets = targets@;
                    assert(spec_labels(t.take(i + 1)) == after);
                    match find_name(&names, name.as_str()) {
                        Some(j) => {
                            targets.set(j, i);
                            assert forall|k: int| 0 <= k < names.len() implies #[trigger] after.contains_key(
                                names[k]@,
                            ) && after[names[k]@] == targets[k] by {
                                if k != j {
                                    assert(old_names[k]@ != old_names[j as int]@);
                                    assert(before.contains_key(names[k]@));
                                }
                            }
                        },
                        None => {
                            let copy = name.clone();
                            names.push(copy);
                            targets.push(i);
                            assert forall|a: int, b: int|
                                0 <= a < b < names.len() implies #[trigger] names[a]@
                                != #[trigger] names[b]@ by {
                                if b == names.len() - 1 {
                                    assert(names[b]@ == name@);
                                    assert(names[a] == old_names[a]);
                                } else {
                                    assert(names[a] == old_names[a]);
                                    assert(names[b] == old_names[b]);
                                }
                            }
                            assert forall|k: int| 0 <= k < names.len() implies #[trigger] after.contains_key(
                                names[k]@,
                            ) && after[names[k]@] == targets[k] by {
                                if k < names.len() - 1 {
                                    assert(names[k] == old_names[k]);
                                    assert(targets[k] == old_targets[k]);
                                    assert(before.contains_key(names[k]@));
                                }
                            }
                        },
                    }
                    assert forall|k: Seq<char>| #[trigger] after.contains_key(k) implies exists|jj: int|
                        0 <= jj < names.len() && #[trigger] names[jj]@ == k by {
                        if k == name@ {
                            if names.len() > old_names.len() {
                                assert(names[names.len() - 1]@ == k);
                            } else {
                                let j = choose|j: int| 0 <= j < names.len() && names[j]@ == name@ ;
                                assert(names[j]@ == k);
                            }
                        } else {
                            assert(before.contains_key(k));
                            let jj = choose|jj: int| 0 <= jj < old_names.len() && #[trigger] old_names[jj]@ == k;
                            assert(names[jj] == old_names[jj]);
                        }
                    }
                },
                _ => {
                    assert(spec_labels(t.take(i + 1)) == before);
                },
            }
            i = i + 1;
        }
        assert(t.take(n as int) =~= t);
        Program { tokens, label_names: names, label_targets: targets }
    }

    /// The number of tokens.
    pub fn len(&self) -> (n: usize)
        ensures
            n == self.tokens().len(),
    {
        self.tokens.len()
    }

    /// The tokens of the program.
    pub fn token_slice(&self) -> (t: &'a [Token])
        ensures
            token_views(t@) == self.tokens(),
    {
        self.tokens
    }

    /// The position that label `name` points at, if the program defines it.
    pub fn label_target(&self, name: &str) -> (r: Option<usize>)
        requires
            self.wf(),
        ensures
            r == if self.labels().contains_key(name@) {
                Some(self.labels()[name@] as usize)
            } else {
                None
            },
    {
        match find_name(&self.label_names, name) {
            Some(j) => Some(self.label_targets[j]),
            None => {
                proof {
                    if self.labels().contains_key(name@) {
                        let j = choose|j: int|
                            0 <= j < self.label_names.len() && #[trigger] self.label_names[j]@
                                == name@;
                        assert(self.label_names[j]@ == name@);
                    }
                }
                None
            },
        }
    }

    fn jump(&self, name: &String) -> (r: Result<Step, StepError>)
        requires
            self.wf(),
        ensures
            r == jump_step(self.tokens(), name@),
    {
        match self.label_target(name.as_str()) {
            Some(x) => Ok(Step { action: Action::Pass, next: x }),
            None => Err(StepError::UnknownLabel),
        }
    }

    fn number_at(&self, i: usize) -> (b: bool)
        ensures
            b == is_number_at(self.tokens(), i as int),
    {
        if i < self.tokens.len() {
            assert(self.tokens()[i as int] == self.tokens@[i as int]@);
            match &self.tokens[i] {
                Token::Number(_) => true,
                _ => false,
            }
        } else {
            false
        }
    }

    fn register_operation(&self, pc: usize, is_add: bool) -> (r: Result<Step, StepError>)
        requires
            pc < self.tokens().len(),
        ensures
            r == register_step(self.tokens(), pc as int, is_add),
    {
        let n = self.tokens.len();
        if pc + 1 < n && n - pc > 3 && self.number_at(pc + 3) {
            assert(self.tokens()[pc + 1] == self.tokens@[pc + 1]@);
            match &self.tokens[pc + 1] {
                Token::Register(r) => {
                    let len = r.as_str().unicode_len();
                    if len == 0 || r.as_str().get_char(0) as u32 >= 0x80 {
                        return Err(StepError::MalformedRegister);
                    }
                    let register = parse_reg(r.as_str());
                    if is_add {
                        Ok(Step { action: Action::Add { register, value: pc + 3 }, next: pc + 4 })
                    } else {
                        Ok(Step { action: Action::Mov { register, value: pc + 3 }, next: pc + 4 })
                    }
                },
                _ => Ok(Step { action: Action::Pass, next: pc + 1 }),
            }
        } else {
            Ok(Step { action: Action::Pass, next: pc + 1 })
        }
    }

    /// The step that the instruction at `pc` takes, where the zero flag of the current voice
    /// is `zero_flag`.
    pub fn step(&self, pc: usize, zero_flag: bool) -> (r: Result<Step, StepError>)
        requires
            self.wf(),
            pc < self.tokens().len(),
        ensures
            r == spec_step(self.tokens(), pc as int, zero_flag),
    {
        let n = self.tokens.len();
        let pass = Step { action: Action::Pass, next: pc + 1 };
        assert(self.tokens()[pc as int] == self.tokens@[pc as int]@);
        let name = match &self.tokens[pc] {
            Token::Instruction(name) => name,
            _ => {
                return Ok(pass);
            },
        };
        let op = match opcode_from_name(name.as_str()) {
            Some(op) => op,
            None => {
                return Ok(pass);
            },
        };
        match op {
            Opcode::Delay => {
                if self.number_at(pc + 1) && self.number_at(pc + 2) && self.number_at(pc + 3) {
                    Ok(
                        Step {
                            action: Action::Delay { time: pc + 1, feedback: pc + 2, mix: pc + 3 },
                            next: pc + 4,
                        },
                    )
                } else {
                    Ok(pass)
                }
            },
            Opcode::Voice => {
                if self.number_at(pc + 1) {
                    Ok(Step { action: Action::SelectVoice { number: pc + 1 }, next: pc + 2 })
                } else {
                    Ok(pass)
                }
            },
            Opcode::Wave => {
                if pc + 1 < n {
                    assert(self.tokens()[pc + 1] == self.tokens@[pc + 1]@);
                    match &self.tokens[pc + 1] {
                        Token::Instruction(w) => Ok(
                            Step {
                                action: Action::SetWave(waveform_from_name(w.as_str())),
                                next: pc + 2,
                            },
                        ),
                        _ => Ok(pass),
                    }
                } else {
                    Ok(pass)
                }
            },
            Opcode::Mov => self.register_operation(pc, false),
            Opcode::Add => self.register_operation(pc, true),
            Opcode::NoteOn => Ok(Step { action: Action::NoteOn, next: pc + 1 }),
            Opcode::NoteOff => Ok(Step { action: Action::NoteOff, next: pc + 1 }),
            Opcode::Out => Ok(Step { action: Action::Out, next: pc + 1 }),
            Opcode::Fill => {
                if self.number_at(pc + 1) {
                    Ok(Step { action: Action::Fill { count: pc + 1 }, next: pc + 2 })
                } else {
                    Ok(pass)
                }
            },
            Opcode::Jmp => {
                if pc + 1 < n {
                    assert(self.tokens()[pc + 1] == self.tokens@[pc + 1]@);
                    match &self.tokens[pc + 1] {
                        Token::Instruction(l) => self.jump(l),
                        _ => Ok(pass),
                    }
                } else {
                    Ok(pass)
                }
            },
            Opcode::Jnz => {
                if pc + 1 < n {
                    assert(self.tokens()[pc + 1] == self.tokens@[pc + 1]@);
                    match &self.tokens[pc + 1] {
                        Token::Instruction(l) => {
                            if !zero_flag {
                                self.jump(l)
                            } else {
                                Ok(Step { action: Action::Pass, next: pc + 2 })
                            }
                        },
                        _ => Ok(pass),
                    }
                } else {
                    Ok(pass)
                }
            },
        }
    }
}

} // verus!

verus! {

/// The shape of a step: the operands it names are number tokens, a register is one of the
/// voice's registers, and the next position is further on (by at most four tokens) or is
/// the definition of a label.
pub proof fn lemma_step_shape(t: Seq<SpecToken>, pc: int, zero_flag: bool)
    requires
        0 <= pc < t.len(),
        t.len() <= usize::MAX,
        spec_step(t, pc, zero_flag) is Ok,
    ensures
        ({
            let st = spec_step(t, pc, zero_flag)->Ok_0;
            &&& (pc < st.next <= pc + 4) || (spec_labels(t).contains_key(
                t[pc + 1]->Instruction_0,
            ) && st.next == spec_labels(t)[t[pc + 1]->Instruction_0] && st.next < t.len()
                && st.action == Action::Pass)
            &&& match st.action {
                Action::Delay { time, feedback, mix } => is_number_at(t, time as int)
                    && is_number_at(t, feedback as int) && is_number_at(t, mix as int),
                Action::SelectVoice { number } => is_number_at(t, number as int),
                Action::Mov { register, value } => register < REGISTER_COUNT && is_number_at(
                    t,
                    value as int,
                ),
                Action::Add { register, value } => register < REGISTER_COUNT && is_number_at(
                    t,
                    value as int,
                ),
                Action::Fill { count } => is_number_at(t, count as int),
                _ => true,
            }
        }),
{
    match t[pc] {
        SpecToken::Instruction(name) => {
            if pc + 1 < t.len() {
                match t[pc + 1] {
                    SpecToken::Instruction(l) => {
                        lemma_label_is_last_definition(t, l);
                    },
                    _ => {},
                }
            }
        },
        _ => {},
    }
}

/// `jnz label` jumps to the label when the zero flag of the current voice is clear, and
/// goes on past its operand when it is set.
pub proof fn lemma_jnz_jumps_unless_zero(
    t: Seq<SpecToken>,
    pc: int,
    zero_flag: bool,
    label: Seq<char>,
)
    requires
        0 <= pc,
        pc + 1 < t.len(),
        t[pc] == SpecToken::Instruction("jnz"@),
        t[pc + 1] == SpecToken::Instruction(label),
    ensures
        spec_step(t, pc, zero_flag) == if zero_flag {
            Ok(Step { action: Action::Pass, next: (pc + 2) as usize })
        } else {
            jump_step(t, label)
        },
{
    reveal_strlit("delay");
    reveal_strlit("voice");
    reveal_strlit("wave");
    reveal_strlit("mov");
    reveal_strlit("add");
    reveal_strlit("note_on");
    reveal_strlit("note_off");
    reveal_strlit("out");
    reveal_strlit("fill");
    reveal_strlit("jmp");
    reveal_strlit("jnz");
    // the mnemonics of three letters differ from `jnz` in their first or second letter
    assert("jnz"@[0] != "mov"@[0]);
    assert("jnz"@[0] != "add"@[0]);
    assert("jnz"@[0] != "out"@[0]);
    assert("jnz"@[1] != "jmp"@[1]);
    assert(spec_opcode("jnz"@) == Some(Opcode::Jnz));
}

/// Every register token that the lexer produces is well formed, so a program read by the
/// lexer never stops on a malformed register.
pub proof fn lemma_lexed_programs_have_good_registers(s: Seq<char>, pc: int, zero_flag: bool)
    requires
        0 <= pc < crate::lexer::spec_tokens(s).len(),
    ensures
        spec_step(crate::lexer::spec_tokens(s), pc, zero_flag) != Err::<Step, StepError>(
            StepError::MalformedRegister,
        ),
{
    let t = crate::lexer::spec_tokens(s);
    crate::lexer::lemma_tokens_registers(s, 0);
    if pc + 1 < t.len() {
        match t[pc + 1] {
            SpecToken::Register(r) => {
                assert(crate::lexer::is_register_name(r));
                assert(r[0] == 'r');
            },
            _ => {},
        }
    }
}

/// Two token sequences that differ at most in the text of their numbers.
pub open spec fn same_but_numbers(t1: Seq<SpecToken>, t2: Seq<SpecToken>) -> bool {
    &&& t1.len() == t2.len()
    &&& forall|i: int|
        0 <= i < t1.len() ==> #[trigger] t1[i] == t2[i] || (t1[i] is Number && t2[i] is Number)
}

proof fn lemma_labels_ignore_numbers(t1: Seq<SpecToken>, t2: Seq<SpecToken>)
    requires
        same_but_numbers(t1, t2),
    ensures
        spec_labels(t1) == spec_labels(t2),
    decreases t1.len(),
{
    if t1.len() > 0 {
        let u1 = t1.drop_last();
        let u2 = t2.drop_last();
        assert forall|i: int| 0 <= i < u1.len() implies #[trigger] u1[i] == u2[i] || (
        u1[i] is Number && u2[i] is Number) by {
            assert(u1[i] == t1[i] && u2[i] == t2[i]);
        }
        lemma_labels_ignore_numbers(u1, u2);
        assert(t1[t1.len() - 1] == t2[t2.len() - 1] || (t1[t1.len() - 1] is Number && t2[t2.len()
            - 1] is Number));
    }
}

/// A step depends on a number operand only through its position: where two programs differ
/// only in the text of numbers, every step of one is the same as that of the other. With
/// `lemma_voice_index_saturates`, `voice n` for any `n` of at least 7 selects voice 7, just
/// as `voice 7` does.
pub proof fn lemma_steps_ignore_number_text(
    t1: Seq<SpecToken>,
    t2: Seq<SpecToken>,
    pc: int,
    zero_flag: bool,
)
    requires
        same_but_numbers(t1, t2),
        0 <= pc < t1.len(),
    ensures
        spec_step(t1, pc, zero_flag) == spec_step(t2, pc, zero_flag),
{
    lemma_labels_ignore_numbers(t1, t2);
    assert(t1[pc] == t2[pc] || (t1[pc] is Number && t2[pc] is Number));
    if pc + 1 < t1.len() {
        assert(t1[pc + 1] == t2[pc + 1] || (t1[pc + 1] is Number && t2[pc + 1] is Number));
    }
    if pc + 2 < t1.len() {
        assert(t1[pc + 2] == t2[pc + 2] || (t1[pc + 2] is Number && t2[pc + 2] is Number));
    }
    if pc + 3 < t1.len() {
        assert(t1[pc + 3] == t2[pc + 3] || (t1[pc + 3] is Number && t2[pc + 3] is Number));
    }
}

} // verus!

verus! {

/// A token that is not an instruction (a label, a register, a number, a comma) does
/// nothing and is passed over by exactly one position.
pub proof fn lemma_non_instructions_pass(t: Seq<SpecToken>, pc: int, zero_flag: bool)
    requires
        0 <= pc < t.len(),
        !(t[pc] is Instruction),
    ensures
        spec_step(t, pc, zero_flag) == Ok::<Step, StepError>(
            Step { action: Action::Pass, next: (pc + 1) as usize },
        ),
{
}

/// `voice n` selects voice `n` itself for each of the voices, and the last voice for any
/// larger `n`.
pub proof fn lemma_voice_index_selects_own_voice(n: usize)
    ensures
        n < VOICE_COUNT ==> spec_voice_index(n) == n,
        n >= VOICE_COUNT ==> spec_voice_index(n) == VOICE_COUNT - 1,
        spec_voice_index(n) <= n,
{
}

/// A register token names the register of its digit: `r0` to `r7` name registers 0 to 7,
/// `r8` and `r9` the last register.
pub proof fn lemma_register_of_digit(c: char)
    requires
        '0' <= c <= '9',
    ensures
        (c as int - '0' as int) < REGISTER_COUNT ==> spec_register_index(seq!['r', c]) == (c
            as int - '0' as int),
        (c as int - '0' as int) >= REGISTER_COUNT ==> spec_register_index(seq!['r', c])
            == REGISTER_COUNT - 1,
{
    let name = seq!['r', c];
    let rest = name.drop_first();
    assert(rest =~= seq![c]);
    assert(rest[0] != '+');
    assert(unsigned_digits(rest) == rest);
    assert(rest.drop_last() =~= Seq::<char>::empty());
    assert(digits_value(Seq::<char>::empty()) == 0);
    assert(rest.last() == c);
    assert(digits_value(rest) == (c as int - '0' as int));
    assert(is_ascii_digit(rest[0]));
}

/// A register name `r` followed by decimal digits names the register of their value, at
/// most the last one; a name whose rest is no decimal number names register 0.
pub proof fn lemma_register_of_digits(digits: Seq<char>)
    requires
        digits.len() > 0,
        forall|i: int| 0 <= i < digits.len() ==> is_ascii_digit(#[trigger] digits[i]),
        digits_value(digits) <= usize::MAX,
    ensures
        digits_value(digits) < REGISTER_COUNT ==> spec_register_index(seq!['r'] + digits)
            == digits_value(digits),
        digits_value(digits) >= REGISTER_COUNT ==> spec_register_index(seq!['r'] + digits)
            == REGISTER_COUNT - 1,
{
    assert((seq!['r'] + digits).drop_first() =~= digits);
    assert(is_ascii_digit(digits[0]));
    assert(digits[0] != '+');
}

/// The step of `wave w` sets the shape that `w` names: `sine`, `square`, `tri`, `saw` and
/// `noise` name the five shapes, and any other name the sine; the step goes on past `w`.
pub proof fn lemma_wave_sets_named_shape(
    t: Seq<SpecToken>,
    pc: int,
    zero_flag: bool,
    w: Seq<char>,
)
    requires
        0 <= pc,
        pc + 1 < t.len(),
        t.len() <= usize::MAX,
        t[pc] == SpecToken::Instruction("wave"@),
        t[pc + 1] == SpecToken::Instruction(w),
    ensures
        ({
            let r = spec_step(t, pc, zero_flag);
            let a = r->Ok_0.action;
            &&& r is Ok
            &&& r->Ok_0.next == pc + 2
            &&& w == "sine"@ ==> a == Action::SetWave(Waveform::Sine)
            &&& w == "square"@ ==> a == Action::SetWave(Waveform::Square)
            &&& w == "tri"@ ==> a == Action::SetWave(Waveform::Triangle)
            &&& w == "saw"@ ==> a == Action::SetWave(Waveform::Sawtooth)
            &&& w == "noise"@ ==> a == Action::SetWave(Waveform::Noise)
            &&& (w != "sine"@ && w != "square"@ && w != "tri"@ && w != "saw"@ && w != "noise"@)
                ==> a == Action::SetWave(Waveform::Sine)
        }),
{
    reveal_strlit("delay");
    reveal_strlit("voice");
    reveal_strlit("wave");
    reveal_strlit("sine");
    reveal_strlit("square");
    reveal_strlit("tri");
    reveal_strlit("saw");
    reveal_strlit("noise");
    assert("wave"@[0] != "delay"@[0]);
    assert("wave"@[0] != "voice"@[0]);
    assert(spec_opcode("wave"@) == Some(Opcode::Wave));
    // the five names differ pairwise
    assert("saw"@[1] != "sine"@[1]);
    assert("saw"@.len() != "square"@.len());
    assert("saw"@[0] != "tri"@[0]);
    assert("tri"@[0] != "sine"@[0]);
    assert("tri"@.len() != "square"@.len());
    assert("noise"@[0] != "sine"@[0]);
    assert("noise"@[0] != "square"@[0]);
    assert("noise"@[0] != "tri"@[0]);
    assert("noise"@[0] != "saw"@[0]);
    assert("square"@.len() != "sine"@.len());
    let r = spec_step(t, pc, zero_flag);
    assert(r == Ok::<Step, StepError>(
        Step { action: Action::SetWave(spec_waveform(w)), next: (pc + 2) as usize },
    ));
    assert(w == "sine"@ ==> spec_waveform(w) == Waveform::Sine);
    assert(w == "square"@ ==> spec_waveform(w) == Waveform::Square);
    assert(w == "tri"@ ==> spec_waveform(w) == Waveform::Triangle);
    assert(w == "saw"@ ==> spec_waveform(w) == Waveform::Sawtooth);
    assert(w == "noise"@ ==> spec_waveform(w) == Waveform::Noise);
}

} // verus!

verus! {

/// The mnemonics of the instructions.
pub proof fn lemma_mnemonics()
    ensures
        spec_opcode("delay"@) == Some(Opcode::Delay),
        spec_opcode("voice"@) == Some(Opcode::Voice),
        spec_opcode("wave"@) == Some(Opcode::Wave),
        spec_opcode("mov"@) == Some(Opcode::Mov),
        spec_opcode("add"@) == Some(Opcode::Add),
        spec_opcode("note_on"@) == Some(Opcode::NoteOn),
        spec_opcode("note_off"@) == Some(Opcode::NoteOff),
        spec_opcode("out"@) == Some(Opcode::Out),
        spec_opcode("fill"@) == Some(Opcode::Fill),
        spec_opcode("jmp"@) == Some(Opcode::Jmp),
        spec_opcode("jnz"@) == Some(Opcode::Jnz),
{
    reveal_strlit("delay");
    reveal_strlit("voice");
    reveal_strlit("wave");
    reveal_strlit("mov");
    reveal_strlit("add");
    reveal_strlit("note_on");
    reveal_strlit("note_off");
    reveal_strlit("out");
    reveal_strlit("fill");
    reveal_strlit("jmp");
    reveal_strlit("jnz");
    // same lengths are told apart by a letter
    assert("delay"@[0] != "voice"@[0]);
    assert("wave"@[0] != "fill"@[0]);
    assert("mov"@[0] != "add"@[0]);
    assert("mov"@[0] != "out"@[0]);
    assert("mov"@[0] != "jmp"@[0]);
    assert("mov"@[0] != "jnz"@[0]);
    assert("add"@[0] != "out"@[0]);
    assert("add"@[0] != "jmp"@[0]);
    assert("add"@[0] != "jnz"@[0]);
    assert("out"@[0] != "jmp"@[0]);
    assert("out"@[0] != "jnz"@[0]);
    assert("jmp"@[1] != "jnz"@[1]);
    assert("note_off"@.len() != "note_on"@.len());
    assert("note_off"@ != "note_on"@);
}

/// `note_on`, `note_off` and `out` act on their own and go on to the next token.
pub proof fn lemma_plain_instructions(t: Seq<SpecToken>, pc: int, zero_flag: bool)
    requires
        0 <= pc < t.len(),
        t.len() <= usize::MAX,
    ensures
        t[pc] == SpecToken::Instruction("note_on"@) ==> spec_step(t, pc, zero_flag) == Ok::<
            Step,
            StepError,
        >(Step { action: Action::NoteOn, next: (pc + 1) as usize }),
        t[pc] == SpecToken::Instruction("note_off"@) ==> spec_step(t, pc, zero_flag) == Ok::<
            Step,
            StepError,
        >(Step { action: Action::NoteOff, next: (pc + 1) as usize }),
        t[pc] == SpecToken::Instruction("out"@) ==> spec_step(t, pc, zero_flag) == Ok::<
            Step,
            StepError,
        >(Step { action: Action::Out, next: (pc + 1) as usize }),
{
    lemma_mnemonics();
}

/// `voice n`, `fill n` and `delay t f m` name the positions of their number operands and
/// go on past them; without their numbers they do nothing and go on to the next token.
pub proof fn lemma_number_instructions(t: Seq<SpecToken>, pc: int, zero_flag: bool)
    requires
        0 <= pc < t.len(),
        t.len() <= usize::MAX,
    ensures
        t[pc] == SpecToken::Instruction("voice"@) ==> spec_step(t, pc, zero_flag) == if pc + 1
            < t.len() && t[pc + 1] is Number {
            Ok::<Step, StepError>(
                Step {
                    action: Action::SelectVoice { number: (pc + 1) as usize },
                    next: (pc + 2) as usize,
                },
            )
        } else {
            Ok(Step { action: Action::Pass, next: (pc + 1) as usize })
        },
        t[pc] == SpecToken::Instruction("fill"@) ==> spec_step(t, pc, zero_flag) == if pc + 1
            < t.len() && t[pc + 1] is Number {
            Ok::<Step, StepError>(
                Step {
                    action: Action::Fill { count: (pc + 1) as usize },
                    next: (pc + 2) as usize,
                },
            )
        } else {
            Ok(Step { action: Action::Pass, next: (pc + 1) as usize })
        },
        t[pc] == SpecToken::Instruction("delay"@) ==> spec_step(t, pc, zero_flag) == if pc + 3
            < t.len() && t[pc + 1] is Number && t[pc + 2] is Number && t[pc + 3] is Number {
            Ok::<Step, StepError>(
                Step {
                    action: Action::Delay {
                        time: (pc + 1) as usize,
                        feedback: (pc + 2) as usize,
                        mix: (pc + 3) as usize,
                    },
                    next: (pc + 4) as usize,
                },
            )
        } else {
            Ok(Step { action: Action::Pass, next: (pc + 1) as usize })
        },
{
    lemma_mnemonics();
}

/// `mov rN, v` sets and `add rN, v` adds to register `N` (at most the last) of the current
/// voice, naming the position of `v` and going on past it; the token between them is not
/// looked at.
pub proof fn lemma_register_instructions(
    t: Seq<SpecToken>,
    pc: int,
    zero_flag: bool,
    r: Seq<char>,
)
    requires
        0 <= pc,
        pc + 3 < t.len(),
        t.len() <= usize::MAX,
        t[pc + 1] == SpecToken::Register(r),
        t[pc + 3] is Number,
        r.len() > 0,
        (r[0] as u32) < 0x80,
    ensures
        t[pc] == SpecToken::Instruction("mov"@) ==> spec_step(t, pc, zero_flag) == Ok::<
            Step,
            StepError,
        >(
            Step {
                action: Action::Mov {
                    register: spec_register_index(r),
                    value: (pc + 3) as usize,
                },
                next: (pc + 4) as usize,
            },
        ),
        t[pc] == SpecToken::Instruction("add"@) ==> spec_step(t, pc, zero_flag) == Ok::<
            Step,
            StepError,
        >(
            Step {
                action: Action::Add {
                    register: spec_register_index(r),
                    value: (pc + 3) as usize,
                },
                next: (pc + 4) as usize,
            },
        ),
{
    lemma_mnemonics();
}

/// `jmp l` goes to the last definition of label `l`, and fails when `l` is defined nowhere.
pub proof fn lemma_jmp_goes_to_last_definition(
    t: Seq<SpecToken>,
    pc: int,
    zero_flag: bool,
    l: Seq<char>,
)
    requires
        0 <= pc,
        pc + 1 < t.len(),
        t.len() <= usize::MAX,
        t[pc] == SpecToken::Instruction("jmp"@),
        t[pc + 1] == SpecToken::Instruction(l),
    ensures
        (forall|i: int| 0 <= i < t.len() ==> #[trigger] t[i] != SpecToken::Label(l))
            ==> spec_step(t, pc, zero_flag) == Err::<Step, StepError>(StepError::UnknownLabel),
        (exists|i: int| 0 <= i < t.len() && #[trigger] t[i] == SpecToken::Label(l)) ==> ({
            let r = spec_step(t, pc, zero_flag);
            let target = r->Ok_0.next as int;
            &&& r is Ok
            &&& r->Ok_0.action == Action::Pass
            &&& 0 <= target < t.len()
            &&& t[target] == SpecToken::Label(l)
            &&& forall|j: int| target < j < t.len() ==> #[trigger] t[j] != SpecToken::Label(l)
        }),
{
    lemma_mnemonics();
    lemma_label_is_last_definition(t, l);
}

} // verus!

verus! {

/// How a decimal number reads: no sign other than one leading `+` is taken, nothing reads as
/// no number, and one more digit multiplies the value by ten and adds the digit.
pub proof fn lemma_parse_usize_laws(d: Seq<char>, c: char)
    requires
        d.len() > 0,
        forall|i: int| 0 <= i < d.len() ==> is_ascii_digit(#[trigger] d[i]),
        '0' <= c <= '9',
    ensures
        spec_parse_usize(Seq::<char>::empty()) is None,
        spec_parse_usize(seq!['+']) is None,
        spec_parse_usize(seq!['-'] + d) is None,
        spec_parse_usize(seq!['+'] + d) == spec_parse_usize(d),
        spec_parse_usize(d) matches Some(v) ==> (v * 10 + (c as int - '0' as int) <= usize::MAX
            ==> spec_parse_usize(d.push(c)) == Some((v * 10 + (c as int - '0' as int)) as usize)),
        spec_parse_usize(d) is None ==> spec_parse_usize(d.push(c)) is None,
{
    let m = seq!['-'] + d;
    assert(m[0] == '-');
    assert(!is_ascii_digit(m[0]));
    assert(unsigned_digits(m) == m);
    let p = seq!['+'] + d;
    assert(p.drop_first() =~= d);
    assert(d[0] != '+');
    assert(unsigned_digits(d) == d);
    let e = d.push(c);
    assert(e[0] == d[0]);
    assert(unsigned_digits(e) == e);
    assert(e.drop_last() =~= d);
    assert forall|i: int| 0 <= i < e.len() implies is_ascii_digit(#[trigger] e[i]) by {
        if i < d.len() {
            assert(e[i] == d[i]);
        }
    }
    assert(seq!['+'].drop_first() =~= Seq::<char>::empty());
}

} // verus!
