//! Cross-implementation properties and edge cases.

use is_utf8::lemire;
use is_utf8::libcore;
use is_utf8::range;
use is_utf8::simdutf8check_avx;
use is_utf8::simdutf8check_sse;

/// Every validator of the crate, by name.
fn all_validators() -> Vec<(&'static str, fn(&[u8]) -> bool)> {
    vec![
        ("libcore", libcore::is_utf8 as fn(&[u8]) -> bool),
        ("lemire_sse", lemire::sse::is_utf8),
        ("lemire_avx", lemire::avx::is_utf8),
        ("lemire_avx_ascii", lemire::avx::is_utf8_ascii_path),
        ("range_sse", range::sse::is_utf8),
        ("range_avx", range::avx::is_utf8),
        ("validate_utf8_fast", simdutf8check_sse::validate_utf8_fast),
        ("validate_utf8_fast_avx", simdutf8check_avx::validate_utf8_fast_avx),
        (
            "validate_utf8_fast_avx_asciipath",
            simdutf8check_avx::validate_utf8_fast_avx_asciipath,
        ),
    ]
}

fn assert_all(bytes: &[u8], expected: bool) {
    for (name, f) in all_validators() {
        assert_eq!(f(bytes), expected, "validator {} disagrees on {:?}", name, bytes);
    }
}

#[test]
fn agreement_on_assorted_inputs() {
    // Deterministically generated byte soup: every implementation must
    // return the same verdict as the byte-by-byte reference.
    let mut seed: u64 = 0x2545F4914F6CDD1D;
    for len in 0..200usize {
        let mut v = Vec::with_capacity(len);
        for _ in 0..len {
            seed = seed.wrapping_mul(6364136223846793005).wrapping_add(1442695040888963407);
            // Bias towards structured bytes so valid sequences appear.
            let b = match (seed >> 60) & 3 {
                0 => 0x41,
                1 => 0x80 | ((seed >> 33) & 0x3F) as u8,
                2 => [0xC2, 0xDF, 0xE0, 0xED, 0xEF, 0xF0, 0xF4, 0xC0][((seed >> 33) & 7) as usize],
                _ => (seed >> 33) as u8,
            };
            v.push(b);
        }
        let expected = libcore::is_utf8(&v);
        assert_all(&v, expected);
    }
}

#[test]
fn idempotence() {
    let samples: [&[u8]; 4] = [b"plain ascii", &[0xF0, 0x9F, 0x98, 0x80], &[0xC0, 0x80], &[]];
    for (_, f) in all_validators() {
        for s in samples.iter() {
            let first = f(s);
            for _ in 0..3 {
                assert_eq!(f(s), first);
            }
        }
    }
}

#[test]
fn overlong_rejection() {
    assert_all(&[0xC0, 0x80], false);
    assert_all(&[0xE0, 0x80, 0x80], false);
    assert_all(&[0xF0, 0x80, 0x80, 0x80], false);
}

#[test]
fn surrogate_rejection() {
    assert_all(&[0xED, 0xA0, 0x80], false);
}

#[test]
fn boundary_acceptance() {
    assert_all(&[0xF4, 0x8F, 0xBF, 0xBF], true);
    assert_all(&[0xF4, 0x90, 0x80, 0x80], false);
}

#[test]
fn ascii_passthrough() {
    for b in 0x00u8..=0x7F {
        assert_all(&[b], true);
    }
    assert_all(&[0x80], false);
    assert_all(&[0xFF], false);
}

#[test]
fn truncation_makes_invalid() {
    // Dropping the last byte of a trailing multi-byte sequence must flip
    // the verdict, at several positions relative to chunk boundaries.
    for pad in [0usize, 5, 13, 14, 15, 16, 29, 30, 31, 32, 47, 63] {
        let mut v = vec![b'x'; pad];
        v.extend_from_slice(&[0xE2, 0x82, 0xAC]);
        assert_all(&v, true);
        v.pop();
        assert_all(&v, false);
    }
}

#[test]
fn multi_chunk_boundary_stress() {
    // A valid 4-byte sequence that starts at the last byte of one chunk
    // and finishes in the next must validate; with its last byte removed
    // it must not.  Exercised at both 16-byte and 32-byte boundaries.
    for chunk in [16usize, 32] {
        for extra in [0usize, 1, 3] {
            let mut v = vec![b'a'; chunk - 1];
            v.extend_from_slice(&[0xF0, 0x9F, 0x92, 0x96]);
            v.extend(std::iter::repeat(b'z').take(extra));
            assert_all(&v, true);
            let mut w = vec![b'a'; chunk - 1];
            w.extend_from_slice(&[0xF0, 0x9F, 0x92]);
            w.extend(std::iter::repeat(b'z').take(extra));
            assert_all(&w, false);
        }
    }
}

#[test]
fn whole_chunk_inputs() {
    // Inputs that are an exact number of chunks take the end-of-input
    // path instead of the padded-tail path.
    for n in [16usize, 32, 64] {
        assert_all(&vec![b'q'; n], true);
        let mut v = vec![b'q'; n - 1];
        v.push(0xC2);
        assert_all(&v, false);
        let mut w = vec![b'q'; n - 2];
        w.extend_from_slice(&[0xC2, 0xA0]);
        assert_all(&w, true);
    }
}

#[test]
fn empty_input_is_valid() {
    assert_all(&[], true);
}

#[test]
fn chunk_step_reports_errors() {
    // Drive the chunk-step functions directly, as the validators do.
    let zeros16 = vec![0u8; 16];
    let previous = simdutf8check_sse::processed_utf_bytes {
        rawbytes: zeros16.clone(),
        high_nibbles: zeros16.clone(),
        carried_continuations: zeros16.clone(),
    };
    let mut has_error = vec![0u8; 16];
    let good: Vec<u8> = b"0123456789abcdef".to_vec();
    let next = simdutf8check_sse::checkUTF8Bytes(&good, &previous, &mut has_error);
    assert!(has_error.iter().all(|&b| b == 0));
    let mut bad: Vec<u8> = b"0123456789abcdef".to_vec();
    bad[7] = 0xFF;
    let mut has_error2 = vec![0u8; 16];
    simdutf8check_sse::checkUTF8Bytes(&bad, &next, &mut has_error2);
    assert!(has_error2.iter().any(|&b| b != 0));

    let zeros32 = vec![0u8; 32];
    let previous32 = simdutf8check_avx::avx_processed_utf_bytes {
        rawbytes: zeros32.clone(),
        high_nibbles: zeros32.clone(),
        carried_continuations: zeros32.clone(),
    };
    let mut has_error32 = vec![0u8; 32];
    let good32: Vec<u8> = b"0123456789abcdef0123456789abcdef".to_vec();
    let next32 = simdutf8check_avx::avxcheckUTF8Bytes(&good32, &previous32, &mut has_error32);
    assert!(has_error32.iter().all(|&b| b == 0));
    // The ASCII fast path keeps the previous state on an ASCII chunk.
    let mut has_error32b = vec![0u8; 32];
    let kept = simdutf8check_avx::avxcheckUTF8Bytes_asciipath(
        &good32,
        &next32,
        &mut has_error32b,
    );
    assert!(has_error32b.iter().all(|&b| b == 0));
    assert_eq!(kept.rawbytes, next32.rawbytes);
}
