use huff::encode::{full_encode, Encoder};
use huff::tree::{build_tree, compute_frequencies, tree_to_code, Codeword, HuffError};

fn bit_sequence_to_string(words: &[u64]) -> String {
    let mut output = String::new();
    for &w in words {
        let s: String = format!("{:b}", w).chars().rev().collect();
        output.push_str(&s);
    }
    output
}

fn strip_indent(s: &'static str) -> String {
    let mut output = String::new();
    for line in s.lines() {
        let trimmed = line.trim();
        if !trimmed.is_empty() {
            output.push_str(trimmed);
            output.push('\n');
        }
    }
    output
}

fn code_bits(cw: &Codeword) -> String {
    let mut s = String::new();
    for i in 0..cw.bit_len {
        let bit = (cw.bits[i / 64] >> (i % 64)) & 1 == 1;
        s.push(if bit { '1' } else { '0' });
    }
    s
}

fn fmt_code(code: &[Codeword]) -> String {
    let mut out = String::new();
    for s in 0..256usize {
        if code[s].bit_len > 0 {
            out.push_str(&format!("{}: {}\n", s as u8 as char, code_bits(&code[s])));
        }
    }
    out
}

#[test]
fn test_full_encode() {
    let (code, output) = full_encode(b"appends_a_given_slice").unwrap();
    println!("{}", fmt_code(&code));
    assert_eq!(
        fmt_code(&code),
        strip_indent(
            "
            _: 101
            a: 000
            c: 11110
            d: 11101
            e: 110
            g: 11111
            i: 011
            l: 1000
            n: 010
            p: 001
            s: 1001
            v: 11100
            "
        )
    );
    assert_eq!(
        bit_sequence_to_string(&output),
        "000001001110010111011001101000101111110111110011001010110011111111011".to_string()
    );
}

#[test]
fn test_full_encode_empty_input() {
    assert!(matches!(full_encode(b""), Err(HuffError::EmptyInput)));
}

#[test]
fn test_single_symbol_alphabet() {
    // 130 occurrences of one symbol: a one-bit codeword `0`, packed into
    // ceil(130 / 64) = 3 words whose low 130 bits are all zero.
    let input = [b'x'; 130];
    let (code, output) = full_encode(&input).unwrap();
    assert_eq!(code[b'x' as usize].bit_len, 1);
    assert_eq!(code_bits(&code[b'x' as usize]), "0");
    assert_eq!(output, vec![0u64, 0, 0]);
}

#[test]
fn test_single_symbol_exact_words() {
    let input = [b'q'; 128];
    let (_, output) = full_encode(&input).unwrap();
    assert_eq!(output, vec![0u64, 0]);
}

#[test]
fn test_chunked_encoding_matches_whole() {
    let input: Vec<u8> = b"the quick brown fox jumps over the lazy dog".to_vec();
    let (_, whole) = full_encode(&input).unwrap();

    let code = tree_to_code(&build_tree(&compute_frequencies(&input)).unwrap());
    let mut encoder = Encoder::new(&code);
    let mut collected: Vec<u64> = Vec::new();
    // feed the input through two-byte chunks into a two-word buffer
    for chunk in input.chunks(2) {
        let mut off = 0;
        while off < chunk.len() {
            let mut buffer: Vec<u64> = vec![0; 2];
            let (consumed, written) = encoder.encode(&chunk[off..], &mut buffer);
            collected.extend_from_slice(&buffer[..written]);
            off += consumed;
        }
    }
    let mut tail: Vec<u64> = vec![0];
    if encoder.finish(&mut tail) == 1 {
        collected.push(tail[0]);
    }
    assert_eq!(collected, whole);
}

#[test]
fn test_encode_backpressure() {
    let input: Vec<u8> = b"abracadabra abracadabra abracadabra abracadabra abracadabra".to_vec();
    let code = tree_to_code(&build_tree(&compute_frequencies(&input)).unwrap());
    let mut encoder = Encoder::new(&code);
    let mut buffer: Vec<u64> = vec![0];
    // a one-word buffer cannot hold the whole stream at once
    let (consumed, written) = encoder.encode(&input, &mut buffer);
    assert!(consumed < input.len());
    assert!(written <= 1);
    // resuming at the unconsumed symbol completes the stream
    let mut collected: Vec<u64> = Vec::new();
    collected.extend_from_slice(&buffer[..written]);
    let mut off = consumed;
    while off < input.len() {
        let mut buf2: Vec<u64> = vec![0];
        let (c, w) = encoder.encode(&input[off..], &mut buf2);
        collected.extend_from_slice(&buf2[..w]);
        off += c;
    }
    let mut tail: Vec<u64> = vec![0];
    if encoder.finish(&mut tail) == 1 {
        collected.push(tail[0]);
    }
    let (_, whole) = full_encode(&input).unwrap();
    assert_eq!(collected, whole);
}

fn stream_bit(words: &[u64], tail: u64, i: usize) -> bool {
    let full = words.len() * 64;
    let w = if i < full { words[i / 64] } else { tail };
    (w >> (i % 64)) & 1 == 1
}

#[test]
fn test_long_codeword_packing() {
    // a hand-built code with a 100-bit codeword exercises whole-word copies
    // and the carry of overflow bits between output words
    let mut code: Vec<Codeword> = (0..256).map(|_| Codeword::empty()).collect();
    let long_bits: Vec<bool> = (0..100).map(|i| (i * 7) % 3 == 0).collect();
    code[0] = Codeword::from_bits(&long_bits);
    code[1] = Codeword::from_bits(&[true]);
    let mut encoder = Encoder::new(&code);
    let mut out: Vec<u64> = vec![0; 8];
    // 1 + 100 + 100 = 201 bits: three full words and nine pending bits
    let (consumed, written) = encoder.encode(&[1, 0, 0], &mut out);
    assert_eq!(consumed, 3);
    assert_eq!(written, 3);
    let mut tail: Vec<u64> = vec![0];
    assert_eq!(encoder.finish(&mut tail), 1);
    let mut expected: Vec<bool> = vec![true];
    expected.extend(&long_bits);
    expected.extend(&long_bits);
    for i in 0..201 {
        assert_eq!(stream_bit(&out[..3], tail[0], i), expected[i], "bit {}", i);
    }
    for i in 201..256 {
        assert!(!stream_bit(&out[..3], tail[0], i), "padding bit {}", i);
    }
}

#[test]
fn test_word_aligned_codeword() {
    // encoding from a word-aligned state exercises the zero-offset carry
    let mut code: Vec<Codeword> = (0..256).map(|_| Codeword::empty()).collect();
    let long_bits: Vec<bool> = (0..100).map(|i| i % 5 < 2).collect();
    code[0] = Codeword::from_bits(&long_bits);
    let mut encoder = Encoder::new(&code);
    let mut out: Vec<u64> = vec![0; 4];
    // 200 bits: three full words, eight pending bits
    let (consumed, written) = encoder.encode(&[0, 0], &mut out);
    assert_eq!((consumed, written), (2, 3));
    let mut tail: Vec<u64> = vec![0];
    assert_eq!(encoder.finish(&mut tail), 1);
    let mut expected: Vec<bool> = Vec::new();
    expected.extend(&long_bits);
    expected.extend(&long_bits);
    for i in 0..200 {
        assert_eq!(stream_bit(&out[..3], tail[0], i), expected[i], "bit {}", i);
    }
}

#[test]
fn test_codeword_at_full_capacity() {
    // a 256-bit codeword after a one-bit codeword spans five output words
    let mut code: Vec<Codeword> = (0..256).map(|_| Codeword::empty()).collect();
    let full_bits: Vec<bool> = (0..256).map(|i| (i / 3) % 2 == 0).collect();
    code[1] = Codeword::from_bits(&[true]);
    code[2] = Codeword::from_bits(&full_bits);
    assert_eq!(code[2].bit_len, 256);
    let mut encoder = Encoder::new(&code);
    let mut out: Vec<u64> = vec![0; 8];
    // 1 + 256 = 257 bits: four full words and one pending bit
    let (consumed, written) = encoder.encode(&[1, 2], &mut out);
    assert_eq!((consumed, written), (2, 4));
    let mut tail: Vec<u64> = vec![0];
    assert_eq!(encoder.finish(&mut tail), 1);
    let mut expected: Vec<bool> = vec![true];
    expected.extend(&full_bits);
    for i in 0..257 {
        assert_eq!(stream_bit(&out[..4], tail[0], i), expected[i], "bit {}", i);
    }
}

#[test]
fn test_finish_without_pending_writes_nothing() {
    let code = tree_to_code(&build_tree(&compute_frequencies(b"aa")).unwrap());
    let mut encoder = Encoder::new(&code);
    let mut buffer: Vec<u64> = vec![7];
    assert_eq!(encoder.finish(&mut buffer), 0);
    assert_eq!(buffer, vec![7]);
}

#[test]
fn test_prefix_free_codewords() {
    let (code, _) = full_encode(b"appends_a_given_slice").unwrap();
    let words: Vec<String> = (0..256usize)
        .filter(|&s| code[s].bit_len > 0)
        .map(|s| code_bits(&code[s]))
        .collect();
    for a in 0..words.len() {
        for b in 0..words.len() {
            if a != b {
                assert!(!words[b].starts_with(&words[a]));
            }
        }
    }
}

#[test]
fn test_weighted_length_matches_stream() {
    let input = b"appends_a_given_slice";
    let freqs = compute_frequencies(input);
    let (code, output) = full_encode(input).unwrap();
    let weighted: usize = freqs
        .iter()
        .map(|&(sym, count)| count * code[sym as usize].bit_len)
        .sum();
    // 74 valid bits fill one word and spill 10 bits into a second,
    // zero-padded word; the formatter stops at its highest set bit.
    assert_eq!(weighted, 74);
    assert_eq!(output.len(), (weighted + 63) / 64);
    assert_eq!(bit_sequence_to_string(&output).len(), 69);
}
