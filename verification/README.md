# mus_asm

A small assembler-like language for sound: a `.mus` source is read into tokens, run as a
program over eight voices with ADSR envelopes and a global delay, and written as a mono
16-bit WAV file.

Layout:

- `src/` — the verified library (Verus):
  - `lexer.rs`: tokens, the lexer and the whole-source tokenizer, with the token grammar
    stated as spec functions;
  - `program.rs`: instruction decoding, label resolution and one program step;
  - `delay.rs`: the delay line (a ring buffer read by age);
  - `noise.rs`: the integer state of the noise oscillator;
  - `chunks.rs`: gathering samples into chunks for the cache;
  - `wav.rs`: the WAV header and sample encoding;
  - `text.rs`: the calls into `char` and `String` that the lexer makes.
- `app/` — the program: argument handling, files, and the floating-point synthesis
  (oscillators, envelopes, mixing), driven step by step by the library.
- `tests/` — tests of the library.
