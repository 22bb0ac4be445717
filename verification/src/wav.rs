use vstd::prelude::*;

verus! {

/// Samples per second of the output.
pub const SAMPLE_RATE: u32 = 44100;

/// Channels of the output (mono).
pub const CHANNELS: u16 = 1;

/// Bits of each sample.
pub const BITS_PER_SAMPLE: u16 = 16;

/// The length of a canonical WAV header.
pub const HEADER_LEN: usize = 44;

/// The little-endian bytes of a 32-bit value.
pub open spec fn le_u32(x: u32) -> Seq<u8> {
    seq![
        (x % 256) as u8,
        ((x / 256) % 256) as u8,
        ((x / 65536) % 256) as u8,
        (x / 16777216) as u8,
    ]
}

/// The little-endian bytes of a 16-bit value.
pub open spec fn le_u16(x: u16) -> Seq<u8> {
    seq![(x % 256) as u8, (x / 256) as u8]
}

/// The little-endian two's-complement bytes of a signed 16-bit sample.
pub open spec fn le_i16(x: i16) -> Seq<u8> {
    let u: int = if x < 0 {
        x + 65536
    } else {
        x as int
    };
    seq![(u % 256) as u8, (u / 256) as u8]
}

/// The four ASCII bytes of a chunk tag.
pub open spec fn tag(a: char, b: char, c: char, d: char) -> Seq<u8> {
    seq![a as u8, b as u8, c as u8, d as u8]
}

/// The size field of the `data` chunk for `total_samples` 16-bit samples: twice the number of
/// samples, cut to 32 bits.
pub open spec fn spec_data_size(total_samples: nat) -> u32 {
    ((total_samples * 2) % 0x1_0000_0000) as u32
}

/// The 44-byte header of a mono 16-bit PCM WAV file at 44.1 kHz whose `data` chunk holds
/// `data_size` bytes.
pub open spec fn spec_wav_header(data_size: u32) -> Seq<u8> {
    tag('R', 'I', 'F', 'F') + le_u32((36 + data_size) as u32) + tag('W', 'A', 'V', 'E') + tag(
        'f',
        'm',
        't',
        ' ',
    ) + le_u32(16) + le_u16(1) + le_u16(CHANNELS) + le_u32(SAMPLE_RATE) + le_u32(
        (SAMPLE_RATE * CHANNELS as u32 * BITS_PER_SAMPLE as u32 / 8) as u32,
    ) + le_u16((CHANNELS * BITS_PER_SAMPLE / 8) as u16) + le_u16(BITS_PER_SAMPLE) + tag(
        'd',
        'a',
        't',
        'a',
    ) + le_u32(data_size)
}

/// The bytes of a run of samples, each little-endian, in order.
pub open spec fn spec_encode_samples(s: Seq<i16>) -> Seq<u8>
    decreases s.len(),
{
    if s.len() == 0 {
        Seq::empty()
    } else {
        spec_encode_samples(s.drop_last()) + le_i16(s.last())
    }
}

fn push_tag(out: &mut Vec<u8>, a: char, b: char, c: char, d: char)
    requires
        (a as u32) < 128,
        (b as u32) < 128,
        (c as u32) < 128,
        (d as u32) < 128,
    ensures
        final(out)@ == old(out)@ + tag(a, b, c, d),
{
    out.push(a as u8);
    out.push(b as u8);
    out.push(c as u8);
    out.push(d as u8);
    assert(final(out)@ =~= old(out)@ + tag(a, b, c, d));
}

fn push_u32(out: &mut Vec<u8>, x: u32)
    ensures
        final(out)@ == old(out)@ + le_u32(x),
{
    out.push((x % 256) as u8);
    out.push(((x / 256) % 256) as u8);
    out.push(((x / 65536) % 256) as u8);
    out.push((x / 16777216) as u8);
    assert(final(out)@ =~= old(out)@ + le_u32(x));
}

fn push_u16(out: &mut Vec<u8>, x: u16)
    ensures
        final(out)@ == old(out)@ + le_u16(x),
{
    out.push((x % 256) as u8);
    out.push((x / 256) as u8);
    assert(final(out)@ =~= old(out)@ + le_u16(x));
}

/// The header of a WAV file that holds `total_samples` samples. Refused, as the size
/// arithmetic would overflow, where twice the number of samples does not fit in a `usize` or
/// the RIFF size (36 more than the data size) does not fit in 32 bits.
pub fn wav_header(total_samples: usize) -> (h: Vec<u8>)
    requires
        total_samples * 2 <= usize::MAX,
        spec_data_size(total_samples as nat) + 36 <= u32::MAX,
    ensures
        h@ == spec_wav_header(spec_data_size(total_samples as nat)),
        h@.len() == HEADER_LEN,
{
    let bytes = total_samples * 2;
    // the size field keeps the low 32 bits of the byte count
    let data_size = (bytes as u64 % 0x1_0000_0000) as u32;
    let sample_rate: u32 = SAMPLE_RATE;
    let channels: u16 = CHANNELS;
    let bits_per_sample: u16 = BITS_PER_SAMPLE;
    let mut out: Vec<u8> = Vec::new();
    // the RIFF header
    push_tag(&mut out, 'R', 'I', 'F', 'F');
    push_u32(&mut out, 36 + data_size);
    push_tag(&mut out, 'W', 'A', 'V', 'E');
    // the fmt chunk
    push_tag(&mut out, 'f', 'm', 't', ' ');
    push_u32(&mut out, 16);
    push_u16(&mut out, 1);
    push_u16(&mut out, channels);
    push_u32(&mut out, sample_rate);
    push_u32(&mut out, sample_rate * channels as u32 * bits_per_sample as u32 / 8);
    push_u16(&mut out, channels * bits_per_sample / 8);
    push_u16(&mut out, bits_per_sample);
    // the data chunk
    push_tag(&mut out, 'd', 'a', 't', 'a');
    push_u32(&mut out, data_size);
    out
}

/// The bytes of `samples`, each as two little-endian bytes, in order.
pub fn encode_samples(samples: &[i16]) -> (bytes: Vec<u8>)
    requires
        samples@.len() * 2 <= usize::MAX,
    ensures
        bytes@ == spec_encode_samples(samples@),
{
    let mut out: Vec<u8> = Vec::new();
    let n = samples.len();
    let mut i: usize = 0;
    while i < n
        invariant
            n == samples@.len(),
            0 <= i <= n,
            out@ == spec_encode_samples(samples@.take(i as int)),
        decreases n - i,
    {
        let x = samples[i];
        let u: u32 = if x < 0 {
            (x as i32 + 65536) as u32
        } else {
            x as u32
        };
        out.push((u % 256) as u8);
        out.push((u / 256) as u8);
        proof {
            let t = samples@.take(i + 1);
            assert(t.drop_last() =~= samples@.take(i as int));
            assert(t.last() == x);
        }
        i = i + 1;
        assert(out@ =~= spec_encode_samples(samples@.take(i as int)));
    }
    assert(samples@.take(n as int) =~= samples@);
    out
}

/// Each sample takes two bytes, and sample `i` lies at bytes `2 * i` and `2 * i + 1`.
pub proof fn lemma_encoded_layout(s: Seq<i16>)
    ensures
        spec_encode_samples(s).len() == 2 * s.len(),
        forall|i: int|
            0 <= i < s.len() ==> spec_encode_samples(s).subrange(2 * i, 2 * i + 2) == le_i16(
                #[trigger] s[i],
            ),
    decreases s.len(),
{
    if s.len() > 0 {
        let u = s.drop_last();
        lemma_encoded_layout(u);
        let e = spec_encode_samples(s);
        assert forall|i: int| 0 <= i < s.len() implies e.subrange(2 * i, 2 * i + 2) == le_i16(
            #[trigger] s[i],
        ) by {
            if i < u.len() {
                assert(u[i] == s[i]);
                assert(e.subrange(2 * i, 2 * i + 2) =~= spec_encode_samples(u).subrange(
                    2 * i,
                    2 * i + 2,
                ));
            } else {
                assert(e.subrange(2 * i, 2 * i + 2) =~= le_i16(s.last()));
            }
        }
    }
}

/// A sample is read back from its two bytes: low byte plus 256 times the high byte, taken
/// as two's complement.
pub proof fn lemma_le_i16_round_trip(x: i16)
    ensures
        ({
            let b = le_i16(x);
            let u = b[0] as int + 256 * b[1] as int;
            x == if u >= 32768 {
                u - 65536
            } else {
                u
            }
        }),
{
}

} // verus!

verus! {

/// The value of four little-endian bytes.
pub open spec fn read_u32_le(b: Seq<u8>, at: int) -> int {
    b[at] as int + 256 * b[at + 1] as int + 65536 * b[at + 2] as int + 16777216 * b[at + 3] as int
}

/// The value of two little-endian bytes.
pub open spec fn read_u16_le(b: Seq<u8>, at: int) -> int {
    b[at] as int + 256 * b[at + 1] as int
}

/// The fields of the header read back as a mono 16-bit PCM file at 44.1 kHz: `RIFF` and the
/// size of the rest of the file, `WAVE`, a 16-byte `fmt ` chunk (PCM, one channel, 44100
/// samples and 88200 bytes a second, two bytes a frame, 16 bits a sample), and `data` with
/// its size.
pub proof fn lemma_header_fields(data_size: u32)
    requires
        data_size + 36 <= u32::MAX,
    ensures
        ({
            let h = spec_wav_header(data_size);
            &&& h.len() == 44
            &&& h[0] == 82 && h[1] == 73 && h[2] == 70 && h[3] == 70
            &&& read_u32_le(h, 4) == data_size + 36
            &&& h[8] == 87 && h[9] == 65 && h[10] == 86 && h[11] == 69
            &&& h[12] == 102 && h[13] == 109 && h[14] == 116 && h[15] == 32
            &&& read_u32_le(h, 16) == 16
            &&& read_u16_le(h, 20) == 1
            &&& read_u16_le(h, 22) == 1
            &&& read_u32_le(h, 24) == 44100
            &&& read_u32_le(h, 28) == 88200
            &&& read_u16_le(h, 32) == 2
            &&& read_u16_le(h, 34) == 16
            &&& h[36] == 100 && h[37] == 97 && h[38] == 116 && h[39] == 97
            &&& read_u32_le(h, 40) == data_size
        }),
{
    let h = spec_wav_header(data_size);
    lemma_le_u32_reads_back((36 + data_size) as u32);
    lemma_le_u32_reads_back(data_size);
    assert(le_u32((36 + data_size) as u32) =~= h.subrange(4, 8));
    assert(le_u32(data_size) =~= h.subrange(40, 44));
    assert(le_u32(16) =~= h.subrange(16, 20));
    assert(le_u32(44100) =~= h.subrange(24, 28));
    assert(le_u32(88200) =~= h.subrange(28, 32));
}

/// Four little-endian bytes read back as the value they were made of.
pub proof fn lemma_le_u32_reads_back(x: u32)
    ensures
        read_u32_le(le_u32(x), 0) == x,
{
    let b = le_u32(x);
    assert(x == x % 256 + 256 * ((x / 256) % 256) + 65536 * ((x / 65536) % 256) + 16777216 * (x
        / 16777216)) by (nonlinear_arith);
}

} // verus!
