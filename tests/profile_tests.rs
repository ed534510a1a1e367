use tfp::profile::{parse_profile_line, parse_profiles, resolve_thresholds, Threshold};

fn chars(s: &str) -> Vec<char> {
    s.chars().collect()
}

#[test]
fn reads_profile_lines() {
    let text = "1,0.85,0.85,M00162,V$OCT1_06\n1, 0.7 ,0.9 , M00172 ,V$AP1FJ_Q2\n";
    let r = parse_profiles(text);
    assert_eq!(r.len(), 2);
    assert_eq!(r[0].css, "0.85");
    assert_eq!(r[0].mss, "0.85");
    assert_eq!(r[0].accession, "M00162");
    assert_eq!(r[0].id, "V$OCT1_06");
    assert_eq!(r[1].css, "0.7");
    assert_eq!(r[1].mss, "0.9");
    assert_eq!(r[1].accession, "M00172");
    assert_eq!(r[1].id, "V$AP1FJ_Q2");
}

#[test]
fn reading_stops_at_first_other_line() {
    let text = "1,0.85,0.85,M00205,V$GRE_C\n# comment\n1,0.5,0.5,M00206,V$HNF1_C\n";
    let r = parse_profiles(text);
    assert_eq!(r.len(), 1);
    assert_eq!(r[0].accession, "M00205");
    assert_eq!(r[0].id, "V$GRE_C");
}

#[test]
fn profile_line_shape() {
    let p = parse_profile_line(&chars("1,0.85,0.80,M00205,V$GRE_C")).unwrap();
    assert_eq!(p.css, "0.85");
    assert_eq!(p.mss, "0.80");
    assert_eq!(p.id, "V$GRE_C");
    assert!(parse_profile_line(&chars("2,0.85,0.85,M00205,x")).is_none());
    assert!(parse_profile_line(&chars("1,0.85,0.85,M00205")).is_none());
    assert!(parse_profile_line(&chars("1,0.85,0.85,M0$205,x")).is_none());
    assert!(parse_profile_line(&chars("1,,0.85,M00205,x")).is_none());
    assert!(parse_profile_line(&chars(" 1,0.85,0.85,M00205,x")).is_none());
    assert!(parse_profiles("").is_empty());
}

#[test]
fn later_threshold_entry_wins_and_defaults_fill_in() {
    let t = |id: &str, css: f32, mss: f32| Threshold { id: id.to_string(), css: css.to_bits(), mss: mss.to_bits() };
    let ts = vec![t("V$GRE_C", 0.8, 0.7), t("V$OCT1_06", 0.6, 0.5), t("V$GRE_C", 0.9, 0.95)];
    let d = (0.1f32.to_bits(), 0.2f32.to_bits());
    assert_eq!(resolve_thresholds(&ts, &"V$GRE_C".to_string(), d.0, d.1), (0.9f32.to_bits(), 0.95f32.to_bits()));
    assert_eq!(resolve_thresholds(&ts, &"V$OCT1_06".to_string(), d.0, d.1), (0.6f32.to_bits(), 0.5f32.to_bits()));
    assert_eq!(resolve_thresholds(&ts, &"M00205".to_string(), d.0, d.1), d);
    assert_eq!(resolve_thresholds(&Vec::new(), &"x".to_string(), d.0, d.1), d);
}
