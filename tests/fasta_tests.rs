use tfp::fasta::Fasta;
use tfp::sequence::{Base, ParseError};

#[test]
fn parses_two_records() {
    let text = ">seq1 some description\nACGT\nTTAA\n>seq2\nGG CC\n";
    let r = Fasta::parse_many(text);
    assert_eq!(r.len(), 2);
    assert_eq!(r[0].name, "seq1");
    assert_eq!(r[0].seq, "ACGTTTAA");
    assert_eq!(r[1].name, "seq2");
    assert_eq!(r[1].seq, "GGCC");
}

#[test]
fn name_ends_at_tab_and_crlf_is_blank() {
    let r = Fasta::parse_many(">x\tdesc\r\nAC\r\nGT\r\n");
    assert_eq!(r.len(), 1);
    assert_eq!(r[0].name, "x");
    assert_eq!(r[0].seq, "ACGT");
}

#[test]
fn text_without_header_has_no_records() {
    assert!(Fasta::parse_many("ACGT\n").is_empty());
    assert!(Fasta::parse_many("").is_empty());
}

#[test]
fn record_to_strand() {
    let r = Fasta::parse_many(">s\nACGA\n");
    let p = r[0].to_strand().unwrap();
    assert_eq!(p.name, "s");
    assert_eq!(p.seq, vec![Base::A, Base::C, Base::G, Base::A]);
}

#[test]
fn record_with_bad_symbol_fails() {
    let r = Fasta::parse_many(">s\nACNGA\n");
    assert_eq!(r[0].to_strand().unwrap_err(), ParseError::UnexpectedBase('N'));
}

#[test]
fn parse_reads_first_record_only() {
    let (f, rest) = Fasta::parse(">a\nAC\n>b\nGT\n").unwrap();
    assert_eq!(f.name, "a");
    assert_eq!(f.seq, "AC");
    assert_eq!(rest, ">b\nGT\n");
    assert!(Fasta::parse("a\nAC\n").is_none());
    assert!(Fasta::parse("").is_none());
}
