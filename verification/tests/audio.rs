use mus_asm::chunks::{FinishedChunks, SampleChunks, CHUNK_SIZE};
use mus_asm::delay::DelayLine;
use mus_asm::noise::{NoiseGenerator, NOISE_SEED};
use mus_asm::wav::{encode_samples, wav_header, HEADER_LEN};

#[test]
fn noise_follows_the_recurrence() {
    let mut g = NoiseGenerator::new();
    let mut s: u32 = NOISE_SEED;
    for _ in 0..1000 {
        s = s.wrapping_mul(1103515245).wrapping_add(12345);
        s &= 0x7FFF_FFFF;
        let r = g.next_state();
        assert_eq!(r, s);
        assert!(r <= 0x7FFF_FFFF);
    }
}

#[test]
fn noise_first_value() {
    let mut g = NoiseGenerator::new();
    // (12345 * 1103515245 + 12345) mod 2^31
    assert_eq!(g.next_state(), 1406932606);
}

#[test]
fn delay_line_reads_back_writes() {
    let mut d: DelayLine<i32> = DelayLine::new(4, 0);
    assert_eq!(d.capacity(), 4);
    for k in 1..=4 {
        assert_eq!(d.read(k), 0);
    }
    d.write(1);
    d.write(2);
    d.write(3);
    assert_eq!(d.read(1), 3);
    assert_eq!(d.read(2), 2);
    assert_eq!(d.read(3), 1);
    assert_eq!(d.read(4), 0);
    d.write(4);
    d.write(5);
    assert_eq!(d.read(1), 5);
    assert_eq!(d.read(4), 2);
}

#[test]
fn delay_line_matches_ring_index_formula() {
    // a plain ring: write at ptr, read at (ptr + cap - t) % cap, then ptr advances
    let cap = 7usize;
    let mut ring = vec![0i64; cap];
    let mut ptr = 0usize;
    let mut d: DelayLine<i64> = DelayLine::new(cap, 0);
    for v in 1..50i64 {
        for t in 1..cap {
            assert_eq!(d.read(t), ring[(ptr + cap - t) % cap]);
        }
        ring[ptr] = v * 3;
        ptr = (ptr + 1) % cap;
        d.write(v * 3);
    }
}

#[test]
fn chunks_come_out_full_then_rest() {
    let mut c = SampleChunks::new();
    for k in 0..(CHUNK_SIZE - 1) {
        assert_eq!(c.push(k as i16), None);
    }
    let full = c.push(-1).unwrap();
    assert_eq!(full.len(), CHUNK_SIZE);
    assert_eq!(full[0], 0);
    assert_eq!(full[CHUNK_SIZE - 1], -1);
    assert_eq!(c.chunk_count(), 1);
    for k in 0..5 {
        assert_eq!(c.push(k), None);
    }
    assert_eq!(c.total(), CHUNK_SIZE + 5);
    let done = c.finish();
    assert_eq!(done, FinishedChunks { rest: Some(vec![0, 1, 2, 3, 4]), chunk_count: 2, total: CHUNK_SIZE + 5 });
}

#[test]
fn no_samples_no_chunks() {
    let c = SampleChunks::new();
    assert_eq!(c.finish(), FinishedChunks { rest: None, chunk_count: 0, total: 0 });
}

#[test]
fn chunk_count_is_total_rounded_up() {
    for n in [0usize, 1, 8191, 8192, 8193, 16384, 20000] {
        let mut c = SampleChunks::new();
        let mut all: Vec<i16> = Vec::new();
        let mut joined: Vec<i16> = Vec::new();
        for k in 0..n {
            let s = (k % 30000) as i16;
            all.push(s);
            if let Some(chunk) = c.push(s) {
                assert_eq!(chunk.len(), CHUNK_SIZE);
                joined.extend_from_slice(&chunk);
            }
            assert_eq!(c.total(), k + 1);
            assert_eq!(c.total(), CHUNK_SIZE * c.chunk_count() + (k + 1) % CHUNK_SIZE);
        }
        let done = c.finish();
        if let Some(rest) = done.rest {
            joined.extend_from_slice(&rest);
        }
        assert_eq!(done.chunk_count, (n + CHUNK_SIZE - 1) / CHUNK_SIZE);
        assert_eq!(done.total, n);
        assert_eq!(joined, all);
    }
}

fn reference_header(total_samples: usize) -> Vec<u8> {
    let data_size = (total_samples * 2) as u32;
    let mut h = Vec::new();
    h.extend_from_slice(b"RIFF");
    h.extend_from_slice(&(36 + data_size).to_le_bytes());
    h.extend_from_slice(b"WAVE");
    h.extend_from_slice(b"fmt ");
    h.extend_from_slice(&16u32.to_le_bytes());
    h.extend_from_slice(&1u16.to_le_bytes());
    h.extend_from_slice(&1u16.to_le_bytes());
    h.extend_from_slice(&44100u32.to_le_bytes());
    h.extend_from_slice(&88200u32.to_le_bytes());
    h.extend_from_slice(&2u16.to_le_bytes());
    h.extend_from_slice(&16u16.to_le_bytes());
    h.extend_from_slice(b"data");
    h.extend_from_slice(&data_size.to_le_bytes());
    h
}

#[test]
fn wav_header_bytes() {
    for n in [0usize, 1, 3, 44100, 123456789, 0x7FFF_FFEE] {
        let h = wav_header(n);
        assert_eq!(h.len(), HEADER_LEN);
        assert_eq!(h, reference_header(n), "samples {}", n);
    }
}

#[test]
fn wav_header_of_three_samples() {
    let h = wav_header(3);
    assert_eq!(&h[0..4], b"RIFF");
    assert_eq!(&h[4..8], &[42, 0, 0, 0]);
    assert_eq!(&h[40..44], &[6, 0, 0, 0]);
}

#[test]
fn samples_encode_little_endian() {
    assert_eq!(
        encode_samples(&[1, -1, 256, i16::MIN, i16::MAX]),
        vec![1, 0, 255, 255, 0, 1, 0, 128, 255, 127]
    );
    assert_eq!(encode_samples(&[]), Vec::<u8>::new());
    let samples: Vec<i16> = (-300..300).map(|x| (x * 97) as i16).collect();
    let expected: Vec<u8> = samples.iter().flat_map(|s| s.to_le_bytes()).collect();
    assert_eq!(encode_samples(&samples), expected);
}

#[test]
fn samples_read_back_from_their_bytes() {
    for x in [0i16, 1, -1, 255, 256, -256, i16::MIN, i16::MAX, 12345, -12345] {
        let b = encode_samples(&[x]);
        let u = b[0] as i32 + 256 * b[1] as i32;
        let back = if u >= 32768 { u - 65536 } else { u };
        assert_eq!(back, x as i32);
    }
}
