use tfp::sequence::{scan_set, Base, MinusStrand, ParseError, PlusStrand, Sequence};

#[test]
fn complement_pairs_bases() {
    assert_eq!(Base::A.complement(), Base::T);
    assert_eq!(Base::T.complement(), Base::A);
    assert_eq!(Base::C.complement(), Base::G);
    assert_eq!(Base::G.complement(), Base::C);
}

#[test]
fn base_index_round_trip() {
    for i in 0..4usize {
        assert_eq!(Base::from_index(i).index(), i);
    }
    assert_eq!(Base::G.index(), 2);
}

#[test]
fn base_from_char_rejects_other_symbols() {
    assert_eq!(Base::from_char('C'), Ok(Base::C));
    assert_eq!(Base::from_char('a'), Err(ParseError::UnexpectedBase('a')));
    assert_eq!(Base::from_char('N'), Err(ParseError::UnexpectedBase('N')));
}

#[test]
fn plus_strand_from_text() {
    let p = PlusStrand::from_str("seq1", "ACGT").unwrap();
    assert_eq!(p.name, "seq1");
    assert_eq!(p.seq, vec![Base::A, Base::C, Base::G, Base::T]);
}

#[test]
fn plus_strand_reports_first_bad_symbol() {
    let e = PlusStrand::from_str("s", "ACXGN").unwrap_err();
    assert_eq!(e, ParseError::UnexpectedBase('X'));
}

#[test]
fn plus_strand_empty_text() {
    let p = PlusStrand::from_str("empty", "").unwrap();
    assert!(p.seq.is_empty());
    assert!(Sequence::Plus(p).is_empty());
}

#[test]
fn minus_strand_reverses_without_complement() {
    let p = PlusStrand::from_str("s", "AACG").unwrap();
    let m = MinusStrand::from_plus(&p);
    assert_eq!(m.name, "s");
    assert_eq!(m.seq, vec![Base::G, Base::C, Base::A, Base::A]);
    assert_eq!(m.seq.len(), p.seq.len());
}

#[test]
fn sequence_accessors() {
    let p = PlusStrand::from_str("fw", "GATTACA").unwrap();
    let m = MinusStrand::from_plus(&p);
    let s = Sequence::Plus(p);
    assert_eq!(s.len(), 7);
    assert_eq!(s.name(), "fw");
    assert!(s.is_forward());
    assert_eq!(s.as_slice()[1], Base::A);
    let r = Sequence::Minus(m);
    assert!(!r.is_forward());
    assert_eq!(r.as_slice()[0], Base::A);
    assert_eq!(r.as_slice()[1], Base::C);
    assert!(!r.is_empty());
}

#[test]
fn scan_set_holds_both_strands_in_order() {
    let a = PlusStrand::from_str("a", "ACG").unwrap();
    let b = PlusStrand::from_str("b", "TTA").unwrap();
    let s = scan_set(vec![a, b]);
    assert_eq!(s.len(), 4);
    assert!(s[0].is_forward() && s[0].name() == "a");
    assert!(s[1].is_forward() && s[1].name() == "b");
    assert!(!s[2].is_forward() && s[2].name() == "a");
    assert_eq!(s[2].as_slice(), &[Base::G, Base::C, Base::A]);
    assert!(!s[3].is_forward() && s[3].name() == "b");
    assert_eq!(s[3].as_slice(), &[Base::A, Base::T, Base::T]);
}

#[test]
fn scan_set_of_nothing_is_empty() {
    assert!(scan_set(Vec::new()).is_empty());
}
