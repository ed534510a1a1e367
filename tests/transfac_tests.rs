use tfp::transfac::{matrix_shape, parse_line, TransfacParseError, TransfacTag};

fn row(i: usize) -> TransfacTag<f32> {
    TransfacTag::Row(i, vec![1.0, 0.0, 2.0, 3.0])
}

#[test]
fn tag_accessors() {
    let id: TransfacTag<f32> = TransfacTag::Id("M00001".to_string());
    assert_eq!(id.get_name(), Some("M00001"));
    assert!(id.get_row().is_none());
    assert!(id.get_po().is_none());
    let po: TransfacTag<f32> = TransfacTag::Po(vec!["A".to_string(), "C".to_string()]);
    assert_eq!(po.get_po().map(|v| v.len()), Some(2));
    assert!(po.get_name().is_none());
    let r = row(3);
    let (i, v) = r.get_row().unwrap();
    assert_eq!(i, 3);
    assert_eq!(v[3], 3.0);
    assert!(TransfacTag::<f32>::Ignore.get_name().is_none());
}

#[test]
fn shape_takes_first_id_and_largest_row() {
    let tags = vec![
        TransfacTag::Po(vec!["A".to_string()]),
        TransfacTag::Id("first".to_string()),
        row(2),
        row(5),
        row(1),
        TransfacTag::Id("second".to_string()),
    ];
    assert_eq!(matrix_shape(&tags), Ok(("first".to_string(), 6)));
}

#[test]
fn shape_without_id_fails() {
    let tags = vec![row(0), row(1)];
    assert_eq!(matrix_shape(&tags), Err(TransfacParseError::NoId));
    let none: Vec<TransfacTag<f32>> = Vec::new();
    assert_eq!(matrix_shape(&none), Err(TransfacParseError::NoId));
}

#[test]
fn shape_without_rows_fails() {
    let tags: Vec<TransfacTag<f32>> = vec![TransfacTag::Id("m".to_string()), TransfacTag::Ignore];
    assert_eq!(matrix_shape(&tags), Err(TransfacParseError::NoRows));
}

#[test]
fn reads_two_matrix_records() {
    let text = "AC  M00001\nXX\nID  V$MYOD_01\nPO  A  C  G  T\n01  1  2  3  4\n02 0.5 0 0 7 T\nXX\n//\nID second\r\n00 1 1 1 1\r\n//\n";
    let r = tfp::transfac::parse_matrices(text);
    assert_eq!(r.len(), 2);
    assert_eq!(r[0].len(), 4);
    assert_eq!(r[0][0].get_name(), Some("V$MYOD_01"));
    let po = r[0][1].get_po().unwrap();
    assert_eq!(po, &vec!["A".to_string(), "C".to_string(), "G".to_string(), "T".to_string()]);
    let (i, v) = r[0][3].get_row().unwrap();
    assert_eq!(i, 2);
    assert_eq!(v, &vec!["0.5".to_string(), "0".to_string(), "0".to_string(), "7".to_string()]);
    assert_eq!(r[1][0].get_name(), Some("second"));
    assert_eq!(r[1][1].get_row().unwrap().0, 0);
    assert_eq!(matrix_shape(&r[0]), Err(TransfacParseError::TooShort(3)));
}

#[test]
fn line_classification() {
    let chars = |s: &str| s.chars().collect::<Vec<char>>();
    assert!(matches!(parse_line(&chars("IDX")), TransfacTag::Ignore));
    assert!(matches!(parse_line(&chars("ID\tname")), TransfacTag::Id(n) if n == "name"));
    assert!(matches!(parse_line(&chars("PO")), TransfacTag::Po(v) if v.is_empty()));
    assert!(matches!(parse_line(&chars("P0 A C G T")), TransfacTag::Ignore));
    assert!(matches!(parse_line(&chars("12x 1 2")), TransfacTag::Ignore));
    assert!(matches!(parse_line(&chars("99999999999999999999999 1")), TransfacTag::Ignore));
    assert!(matches!(parse_line(&chars("7")), TransfacTag::Row(7, v) if v.is_empty()));
}

#[test]
fn text_without_records_gives_none() {
    assert!(tfp::transfac::parse_matrices("").is_empty());
    assert!(tfp::transfac::parse_matrices("XX\n//\nCC comment\n//").is_empty());
}

#[test]
fn row_values_stop_at_consensus_letter() {
    let r = parse_line(&"05 1 +2 .5 -0 A 7".chars().collect::<Vec<char>>());
    let (i, v) = r.get_row().unwrap();
    assert_eq!(i, 5);
    assert_eq!(v, &vec!["1".to_string(), "+2".to_string(), ".5".to_string(), "-0".to_string()]);
}

#[test]
fn shape_rejects_fewer_than_five_rows() {
    let tags = vec![TransfacTag::Id("m".to_string()), row(0), row(3)];
    assert_eq!(matrix_shape(&tags), Err(TransfacParseError::TooShort(4)));
    let tags = vec![TransfacTag::Id("m".to_string()), row(4)];
    assert_eq!(matrix_shape(&tags), Ok(("m".to_string(), 5)));
}
