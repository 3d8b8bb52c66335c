use huff::tree::{
    build_tree, compute_frequencies, tree_to_code, Codeword, HuffError, Tree, B0, B1,
};

fn fmt_codeword(cw: &Codeword) -> String {
    let mut s = String::from("[");
    for i in 0..cw.bit_len {
        let bit = (cw.bits[i / 64] >> (i % 64)) & 1 == 1;
        s.push(if bit { '1' } else { '0' });
    }
    s.push(']');
    s
}

#[test]
fn test_compute_frequencies() {
    assert_eq!(
        compute_frequencies(b"ABCAAABABABC"),
        vec![(b'A', 6), (b'B', 4), (b'C', 2)]
    );
    assert_eq!(compute_frequencies(b""), vec![]);
}

#[test]
fn test_build_tree() {
    assert_eq!(
        build_tree(&vec![(b'A', 6), (b'B', 4), (b'C', 2)]).unwrap(),
        Tree::Branch(
            Box::new(Tree::Leaf(b'A')),
            Box::new(Tree::Branch(
                Box::new(Tree::Leaf(b'C')),
                Box::new(Tree::Leaf(b'B'))
            ))
        )
    );
}

#[test]
fn test_build_tree_empty_input() {
    assert_eq!(build_tree(&vec![]), Err(HuffError::EmptyInput));
}

#[test]
fn test_tree_to_code() {
    let code = tree_to_code(&Tree::Branch(
        Box::new(Tree::Leaf(b'A')),
        Box::new(Tree::Branch(
            Box::new(Tree::Branch(
                Box::new(Tree::Leaf(b'C')),
                Box::new(Tree::Leaf(b'E')),
            )),
            Box::new(Tree::Leaf(b'B')),
        )),
    ));
    assert_eq!(fmt_codeword(&code[b'A' as usize]), "[0]");
    assert_eq!(fmt_codeword(&code[b'B' as usize]), "[11]");
    assert_eq!(fmt_codeword(&code[b'C' as usize]), "[100]");
    assert_eq!(fmt_codeword(&code[b'E' as usize]), "[101]");
}

#[test]
fn test_tree_to_code_one_symbol() {
    let code = tree_to_code(&Tree::Leaf(b'A'));
    assert_eq!(fmt_codeword(&code[b'A' as usize]), "[0]");
}

#[test]
fn test_tree_to_code_absent_symbols_empty() {
    let code = tree_to_code(&Tree::Leaf(b'A'));
    assert_eq!(code.len(), 256);
    for s in 0..256usize {
        if s != b'A' as usize {
            assert!(code[s].is_empty());
            assert_eq!(code[s].bit_len, 0);
        }
    }
}

#[test]
fn test_codeword_push_pop() {
    let mut cw = Codeword::empty();
    assert!(cw.is_empty());
    cw.push_bit(B1);
    cw.push_bit(B0);
    cw.push_bit(B1);
    assert_eq!(fmt_codeword(&cw), "[101]");
    cw.pop_bit();
    assert_eq!(fmt_codeword(&cw), "[10]");
    assert_eq!(cw.bit_len, 2);
    assert!(!cw.is_empty());
}

#[test]
fn test_codeword_from_bits() {
    let cw = Codeword::from_bits(&[B0, B1, B0, B1, B1, B0]);
    assert_eq!(fmt_codeword(&cw), "[010110]");
    assert_eq!(cw.bit_len, 6);
}

#[test]
fn test_codeword_across_word_boundary() {
    let mut cw = Codeword::empty();
    for i in 0..70 {
        cw.push_bit(i % 3 == 0);
    }
    assert_eq!(cw.bit_len, 70);
    for i in 0..70 {
        let bit = (cw.bits[i / 64] >> (i % 64)) & 1 == 1;
        assert_eq!(bit, i % 3 == 0);
    }
    for _ in 0..70 {
        cw.pop_bit();
    }
    assert!(cw.is_empty());
    assert_eq!(cw.bits, vec![0u64; 4]);
}
