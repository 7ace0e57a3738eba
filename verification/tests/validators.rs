//! The shared validator test suite, run against every implementation.

use is_utf8::lemire;
use is_utf8::libcore;
use is_utf8::range;
use is_utf8::simdutf8check_avx;
use is_utf8::simdutf8check_sse;

/// A buffer holding every Unicode scalar value encoded as UTF-8.
fn all_scalar_values() -> Vec<u8> {
    let mut s = String::new();
    for c in 0u32..=0x10FFFF {
        if let Some(ch) = char::from_u32(c) {
            s.push(ch);
        }
    }
    s.into_bytes()
}

/// The same buffer with garbage bytes interspersed and appended.
fn all_scalar_values_with_garbage() -> Vec<u8> {
    let mut v = all_scalar_values();
    let mut seed: u64 = 0x9E3779B97F4A7C15;
    let mut garbage = Vec::new();
    for _ in 0..4096 {
        seed = seed.wrapping_mul(6364136223846793005).wrapping_add(1442695040888963407);
        garbage.push((seed >> 33) as u8);
    }
    let mid = v.len() / 2;
    let mut out = Vec::new();
    out.extend_from_slice(&v[..mid]);
    out.push(0xFF);
    out.extend_from_slice(&garbage);
    out.extend_from_slice(&v[mid..]);
    v = out;
    v
}

/// Deterministic pseudo-random bytes; certainly invalid because a FF
/// byte is planted.
fn random_bytes() -> Vec<u8> {
    let mut v = Vec::new();
    let mut seed: u64 = 0x853C49E6748FEA9B;
    for _ in 0..524288 {
        seed = seed.wrapping_mul(6364136223846793005).wrapping_add(1442695040888963407);
        v.push((seed >> 33) as u8);
    }
    v[1000] = 0xFF;
    v
}

// Adapted test suite from gnzlbg's is_utf8 crate.
fn create_tests(test_function: fn(&[u8]) -> bool) {
    // deny overlong encodings
    assert_eq!(test_function(&[0xc0, 0x80]), false);
    assert_eq!(test_function(&[0xc0, 0xae]), false);
    assert_eq!(test_function(&[0xe0, 0x80, 0x80]), false);
    assert_eq!(test_function(&[0xe0, 0x80, 0xaf]), false);
    assert_eq!(test_function(&[0xe0, 0x81, 0x81]), false);
    assert_eq!(test_function(&[0xf0, 0x82, 0x82, 0xac]), false);
    assert_eq!(test_function(&[0xf4, 0x90, 0x80, 0x80]), false);

    // deny surrogates
    assert_eq!(test_function(&[0xED, 0xA0, 0x80]), false);
    assert_eq!(test_function(&[0xED, 0xBF, 0xBF]), false);

    assert_eq!(test_function(&[0xC2, 0x80]), true);
    assert_eq!(test_function(&[0xDF, 0xBF]), true);
    assert_eq!(test_function(&[0xE0, 0xA0, 0x80]), true);
    assert_eq!(test_function(&[0xED, 0x9F, 0xBF]), true);
    assert_eq!(test_function(&[0xEE, 0x80, 0x80]), true);
    assert_eq!(test_function(&[0xEF, 0xBF, 0xBF]), true);
    assert_eq!(test_function(&[0xF0, 0x90, 0x80, 0x80]), true);
    assert_eq!(test_function(&[0xF4, 0x8F, 0xBF, 0xBF]), true);

    // from: http://www.cl.cam.ac.uk/~mgk25/ucs/examples/UTF-8-test.txt
    assert_eq!(
        test_function("\u{3BA}\u{1F79}\u{3C3}\u{3BC}\u{3B5}".as_bytes()),
        true
    );

    // 2.1 First possible sequence of a certain length: 1 to 6 bytes
    assert_eq!(test_function(&[0]), true);
    assert_eq!(test_function(&[0xC2, 0x80]), true);
    assert_eq!(test_function(&[0xE0, 0xA0, 0x80]), true);
    assert_eq!(test_function(&[0xF0, 0x90, 0x80, 0x80]), true);
    assert_eq!(test_function(&[0xF8, 0x88, 0x80, 0x80, 0x80]), false);
    assert_eq!(test_function(&[0xFC, 0x84, 0x80, 0x80, 0x80, 0x80]), false);

    // 2.2 Last possible sequence of a certain length: 1 to 6 bytes
    assert_eq!(test_function(&[0x7F]), true);
    assert_eq!(test_function(&[0xDF, 0xBF]), true);
    assert_eq!(test_function(&[0xEF, 0xBF, 0xBF]), true);
    assert_eq!(test_function(&[0xF7, 0xBF, 0xBF, 0xBF]), false);
    assert_eq!(test_function(&[0xFB, 0xBF, 0xBF, 0xBF, 0xBF]), false);
    assert_eq!(test_function(&[0xFD, 0xBF, 0xBF, 0xBF, 0xBF, 0xBF]), false);

    // 2.3 Other boundary conditions
    assert_eq!(test_function(&[0xED, 0x9F, 0xBF]), true);
    assert_eq!(test_function(&[0xEE, 0x80, 0x80]), true);
    assert_eq!(test_function(&[0xEF, 0xBF, 0xBD]), true);
    assert_eq!(test_function(&[0xF4, 0x8F, 0xBF, 0xBF]), true);
    assert_eq!(test_function(&[0xF4, 0x90, 0x80, 0x80]), false);

    // 3.1  Unexpected continuation bytes
    assert_eq!(test_function(&[0x80]), false);
    assert_eq!(test_function(&[0xbf]), false);
    assert_eq!(test_function(&[0x80, 0xBF]), false);
    assert_eq!(test_function(&[0x80, 0xBF, 0x80]), false);
    assert_eq!(test_function(&[0x80, 0xBF, 0x80, 0xBF]), false);
    assert_eq!(test_function(&[0x80, 0xBF, 0x80, 0xBF, 0x80]), false);
    assert_eq!(test_function(&[0x80, 0xBF, 0x80, 0xBF, 0x80, 0xBF]), false);
    assert_eq!(test_function(&[0x80, 0xBF, 0x80, 0xBF, 0x80, 0xBF, 0x80]), false);

    // 3.1.9 Sequence of all 64 possible continuation bytes (0x80-0xbf):
    let continuation_bytes = [
        0x80, 0x81, 0x82, 0x83, 0x84, 0x85, 0x86, 0x87, 0x88, 0x89, 0x8A, 0x8B, 0x8C, 0x8D,
        0x8E, 0x8F, 0x90, 0x91, 0x92, 0x93, 0x94, 0x95, 0x96, 0x97, 0x98, 0x99, 0x9A, 0x9B,
        0x9C, 0x9D, 0x9E, 0x9F, 0xA0, 0xA1, 0xA2, 0xA3, 0xA4, 0xA5, 0xA6, 0xA7, 0xA8, 0xA9,
        0xAA, 0xAB, 0xAC, 0xAD, 0xAE, 0xAF, 0xB0, 0xB1, 0xB2, 0xB3, 0xB4, 0xB5, 0xB6, 0xB7,
        0xB8, 0xB9, 0xBA, 0xBB, 0xBC, 0xBD, 0xBE, 0xBF,
    ];
    assert_eq!(test_function(&continuation_bytes), false);
    for &b in continuation_bytes.iter() {
        assert_eq!(test_function(&[b]), false);
    }

    // 3.2  Lonely start characters
    let lonely_start_characters_2 = [
        0xC0, 0xC1, 0xC2, 0xC3, 0xC4, 0xC5, 0xC6, 0xC7, 0xC8, 0xC9, 0xCA, 0xCB, 0xCC, 0xCD,
        0xCE, 0xCF, 0xD0, 0xD1, 0xD2, 0xD3, 0xD4, 0xD5, 0xD6, 0xD7, 0xD8, 0xD9, 0xDA, 0xDB,
        0xDC, 0xDD, 0xDE, 0xDF,
    ];
    assert_eq!(test_function(&lonely_start_characters_2), false);
    for &b in &lonely_start_characters_2 {
        assert_eq!(test_function(&[b]), false);
    }

    let lonely_start_characters_3 = [
        0xE0, 0xE1, 0xE2, 0xE3, 0xE4, 0xE5, 0xE6, 0xE7, 0xE8, 0xE9, 0xEA, 0xEB, 0xEC, 0xED,
        0xEE, 0xEF,
    ];
    assert_eq!(test_function(&lonely_start_characters_3), false);
    for &b in &lonely_start_characters_3 {
        assert_eq!(test_function(&[b]), false);
    }

    let lonely_start_characters_4 = [0xF0, 0xF1, 0xF2, 0xF3, 0xF4, 0xF5, 0xF6, 0xF7];
    assert_eq!(test_function(&lonely_start_characters_4), false);
    for &b in &lonely_start_characters_4 {
        assert_eq!(test_function(&[b]), false);
    }

    let lonely_start_characters_5 = [0xF8, 0xF9, 0xFA, 0xFB];
    assert_eq!(test_function(&lonely_start_characters_5), false);
    for &b in &lonely_start_characters_5 {
        assert_eq!(test_function(&[b]), false);
    }

    let lonely_start_characters_6 = [0xFC, 0xFD];
    assert_eq!(test_function(&lonely_start_characters_6), false);
    for &b in &lonely_start_characters_6 {
        assert_eq!(test_function(&[b]), false);
    }

    // 3.3 Sequences with last continuation byte missing
    assert_eq!(test_function(&[0xC0]), false);
    assert_eq!(test_function(&[0xE0, 0x80]), false);
    assert_eq!(test_function(&[0xF0, 0x80, 0x80]), false);
    assert_eq!(test_function(&[0xF8, 0x80, 0x80, 0x80]), false);
    assert_eq!(test_function(&[0xFC, 0x80, 0x80, 0x80, 0x80]), false);
    assert_eq!(test_function(&[0xDF]), false);
    assert_eq!(test_function(&[0xEF, 0xBF]), false);
    assert_eq!(test_function(&[0xF7, 0xBF, 0xBF]), false);
    assert_eq!(test_function(&[0xFB, 0xBF, 0xBF, 0xBF]), false);
    assert_eq!(test_function(&[0xFD, 0xBF, 0xBF, 0xBF, 0xBF]), false);

    // 3.4 Concatenation of incomplete sequences
    let incomplete = [
        0xC0, 0xE0, 0x80, 0xF0, 0x80, 0x80, 0xF8, 0x80, 0x80, 0x80, 0xFC, 0x80, 0x80, 0x80,
        0x80, 0xDF, 0xEF, 0xBF, 0xF7, 0xBF, 0xBF, 0xFB, 0xBF, 0xBF, 0xBF, 0xFD, 0xBF, 0xBF,
        0xBF, 0xBF,
    ];
    assert_eq!(test_function(&incomplete), false);

    // 3.5 Impossible bytes
    assert_eq!(test_function(&[0xFE]), false);
    assert_eq!(test_function(&[0xFF]), false);
    assert_eq!(test_function(&[0xFE, 0xFE, 0xFF, 0xFF]), false);

    // 4. Overlong sequences
    assert_eq!(test_function(&[0xC0, 0xAF]), false);
    assert_eq!(test_function(&[0xE0, 0x80, 0xAF]), false);
    assert_eq!(test_function(&[0xF0, 0x80, 0x80, 0xAF]), false);
    assert_eq!(test_function(&[0xF8, 0x80, 0x80, 0x80, 0xAF]), false);
    assert_eq!(test_function(&[0xFC, 0x80, 0x80, 0x80, 0x80, 0xAF]), false);

    assert_eq!(test_function(&[0xC0, 0x80]), false);
    assert_eq!(test_function(&[0xE0, 0x80, 0x80]), false);
    assert_eq!(test_function(&[0xF0, 0x80, 0x80, 0x80]), false);
    assert_eq!(test_function(&[0xF8, 0x80, 0x80, 0x80, 0x80]), false);
    assert_eq!(test_function(&[0xFC, 0x80, 0x80, 0x80, 0x80, 0x80]), false);

    // 5. Illegal code positions
    assert_eq!(test_function(&[0xed, 0xa0, 0x80]), false);
    assert_eq!(test_function(&[0xed, 0xad, 0xbf]), false);
    assert_eq!(test_function(&[0xed, 0xae, 0x80]), false);
    assert_eq!(test_function(&[0xed, 0xaf, 0xbf]), false);
    assert_eq!(test_function(&[0xed, 0xb0, 0x80]), false);
    assert_eq!(test_function(&[0xed, 0xbe, 0x80]), false);
    assert_eq!(test_function(&[0xed, 0xbf, 0xbf]), false);

    assert_eq!(test_function(&[0xed, 0xa0, 0x80, 0xed, 0xb0, 0x80]), false);
    assert_eq!(test_function(&[0xed, 0xa0, 0x80, 0xed, 0xbf, 0xbf]), false);
    assert_eq!(test_function(&[0xed, 0xad, 0xbf, 0xed, 0xb0, 0x80]), false);
    assert_eq!(test_function(&[0xed, 0xad, 0xbf, 0xed, 0xbf, 0xbf]), false);
    assert_eq!(test_function(&[0xed, 0xae, 0x80, 0xed, 0xb0, 0x80]), false);
    assert_eq!(test_function(&[0xed, 0xae, 0x80, 0xed, 0xbf, 0xbf]), false);
    assert_eq!(test_function(&[0xed, 0xaf, 0xbf, 0xed, 0xb0, 0x80]), false);
    assert_eq!(test_function(&[0xed, 0xaf, 0xbf, 0xed, 0xbf, 0xbf]), false);

    // Larger sample inputs.
    let utf8_sample = "\u{3BA}\u{1F79}\u{3C3}\u{3BC}\u{3B5} Hello, world! \
                       \u{4F60}\u{597D} \u{1F600}\u{1F680} caf\u{E9} na\u{EF}ve"
        .repeat(64);
    assert_eq!(test_function(utf8_sample.as_bytes()), true);
    let ascii_sample = "The quick brown fox jumps over the lazy dog. 0123456789\r\n".repeat(96);
    assert_eq!(test_function(ascii_sample.as_bytes()), true);
    let mostly_ascii_sample =
        "Mostly ASCII text with an occasional caf\u{E9} and sm\u{F6}rg\u{E5}sbord.\r\n"
            .repeat(96);
    assert_eq!(test_function(mostly_ascii_sample.as_bytes()), true);
    assert_eq!(test_function(&all_scalar_values()), true);
    assert_eq!(test_function(&all_scalar_values_with_garbage()), false);
    assert_eq!(test_function(&random_bytes()), false);
}

#[test]
fn test_lemire_avx() {
    create_tests(lemire::avx::is_utf8);
}

#[test]
fn test_lemire_avx_ascii() {
    create_tests(lemire::avx::is_utf8_ascii_path);
}

#[test]
fn test_lemire_sse() {
    create_tests(lemire::sse::is_utf8);
}

#[test]
fn test_libcore() {
    create_tests(libcore::is_utf8);
}

#[test]
fn test_range_sse() {
    create_tests(range::sse::is_utf8);
}

#[test]
fn test_range_avx() {
    create_tests(range::avx::is_utf8);
}

#[test]
fn test_validate_utf8_fast() {
    create_tests(simdutf8check_sse::validate_utf8_fast);
}

#[test]
fn test_validate_utf8_fast_avx() {
    create_tests(simdutf8check_avx::validate_utf8_fast_avx);
}

#[test]
fn test_validate_utf8_fast_avx_asciipath() {
    create_tests(simdutf8check_avx::validate_utf8_fast_avx_asciipath);
}
