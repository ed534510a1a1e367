use tfp::anchor::{find_core, TfpError};
use tfp::scan::{core_candidates, key_at, kmer_at, select_hits, Candidate, TABLE_LEN};
use tfp::score::score_ge;
use tfp::sequence::{scan_set, Base, MinusStrand, PlusStrand, Sequence};

fn bits(x: f32) -> u32 {
    x.to_bits()
}

#[test]
fn score_order_follows_float_order() {
    let values = [-3.5f32, -1.0, -0.0, 0.0, 0.25, 1.0, 7.0, f32::INFINITY];
    for a in values {
        for b in values {
            assert_eq!(score_ge(bits(a), bits(b)), a >= b, "{a} >= {b}");
        }
    }
}

#[test]
fn core_tie_picks_last_window() {
    // Windows 1 and 3 share the largest sum.
    let sums = vec![bits(1.0), bits(2.5), bits(0.5), bits(2.5)];
    assert_eq!(find_core(8, &sums), Ok(3));
}

#[test]
fn core_single_maximum() {
    let sums = vec![bits(1.0), bits(4.0), bits(0.5)];
    assert_eq!(find_core(7, &sums), Ok(1));
    assert_eq!(find_core(5, &vec![bits(0.1)]), Ok(0));
}

#[test]
fn core_rejects_short_matrix() {
    assert_eq!(find_core(4, &Vec::new()), Err(TfpError::MatrixToShort(4)));
    assert_eq!(find_core(0, &Vec::new()), Err(TfpError::MatrixToShort(0)));
}

#[test]
fn kmer_keys_are_base_four_numbers() {
    let s = [Base::A, Base::C, Base::G, Base::T, Base::A, Base::C];
    assert_eq!(key_at(&s, 0), 0 * 256 + 1 * 64 + 2 * 16 + 3 * 4);
    assert_eq!(key_at(&s, 1), 1 * 256 + 2 * 64 + 3 * 16 + 0 * 4 + 1);
    assert_eq!(key_at(&[Base::T; 5], 0), TABLE_LEN - 1);
}

#[test]
fn kmer_table_order() {
    assert_eq!(kmer_at(0), vec![Base::A; 5]);
    assert_eq!(kmer_at(1), vec![Base::A, Base::A, Base::A, Base::A, Base::C]);
    assert_eq!(kmer_at(4), vec![Base::A, Base::A, Base::A, Base::C, Base::A]);
    for k in 0..TABLE_LEN {
        assert_eq!(key_at(&kmer_at(k), 0), k);
    }
}

fn table_with(key: usize, value: f32, rest: f32) -> Vec<u32> {
    let mut t = vec![bits(rest); TABLE_LEN];
    t[key] = bits(value);
    t
}

#[test]
fn six_base_sequence_six_row_matrix_has_one_window() {
    // Anchor at row 0 of a 6-row matrix over "ACGTAC": one window, at position 0.
    let p = PlusStrand::from_str("s", "ACGTAC").unwrap();
    let seq = Sequence::Plus(p);
    let key = key_at(seq.as_slice(), 0);
    let table = table_with(key, 1.0, 0.0);
    let c = core_candidates(&seq, 6, 0, &table, bits(0.0));
    assert_eq!(c, vec![Candidate { anchor: 0, start: 0, pos: 0, css: bits(1.0) }]);
}

#[test]
fn windows_stop_where_the_matrix_still_fits() {
    let p = PlusStrand::from_str("s", "ACGTACGTAC").unwrap();
    let seq = Sequence::Plus(p);
    let table = vec![bits(0.5); TABLE_LEN];
    // 7 rows, anchor at row 2: full windows start at 0..=3, anchors at 2..=5.
    let c = core_candidates(&seq, 7, 2, &table, bits(0.0));
    let anchors: Vec<usize> = c.iter().map(|c| c.anchor).collect();
    let starts: Vec<usize> = c.iter().map(|c| c.start).collect();
    assert_eq!(anchors, vec![2, 3, 4, 5]);
    assert_eq!(starts, vec![0, 1, 2, 3]);
}

#[test]
fn short_sequence_gives_no_windows() {
    let seq = Sequence::Plus(PlusStrand::from_str("s", "ACGTA").unwrap());
    let table = vec![bits(1.0); TABLE_LEN];
    assert!(core_candidates(&seq, 6, 0, &table, bits(0.0)).is_empty());
}

#[test]
fn core_threshold_filters_windows() {
    let seq = Sequence::Plus(PlusStrand::from_str("s", "AAAAAC").unwrap());
    let table = table_with(1, 0.9, 0.2);
    let c = core_candidates(&seq, 5, 0, &table, bits(0.5));
    assert_eq!(c, vec![Candidate { anchor: 1, start: 1, pos: 1, css: bits(0.9) }]);
    let all = core_candidates(&seq, 5, 0, &table, bits(0.2));
    assert_eq!(all.len(), 2);
}

#[test]
fn reverse_strand_reports_forward_coordinates() {
    let p = PlusStrand::from_str("s", "AAAAAACG").unwrap();
    let m = Sequence::Minus(MinusStrand::from_plus(&p));
    let table = vec![bits(1.0); TABLE_LEN];
    let c = core_candidates(&m, 5, 0, &table, bits(0.0));
    let pos: Vec<usize> = c.iter().map(|c| c.pos).collect();
    // Reverse anchors 0 to 3 map to 8 - i - 5.
    assert_eq!(pos, vec![3, 2, 1, 0]);
}

#[test]
fn palindrome_strands_mirror_each_other() {
    let p = PlusStrand::from_str("pal", "ACGTTGCA").unwrap();
    let set = scan_set(vec![p]);
    let mut table = vec![bits(0.0); TABLE_LEN];
    for k in 0..TABLE_LEN {
        table[k] = bits((k % 7) as f32 / 7.0);
    }
    let f = core_candidates(&set[0], 6, 1, &table, bits(0.1));
    let m = core_candidates(&set[1], 6, 1, &table, bits(0.1));
    assert_eq!(f.len(), m.len());
    for (a, b) in f.iter().zip(m.iter()) {
        assert_eq!(a.css, b.css);
        assert_eq!(b.pos, 8 - a.pos - 5);
    }
}

#[test]
fn mss_threshold_selects_hits() {
    let cands = vec![
        Candidate { anchor: 0, start: 0, pos: 0, css: bits(0.9) },
        Candidate { anchor: 1, start: 1, pos: 1, css: bits(0.8) },
    ];
    let mss = vec![bits(0.4), bits(0.95)];
    let hits = select_hits(&cands, &mss, bits(0.5));
    assert_eq!(hits.len(), 1);
    assert_eq!(hits[0].pos, 1);
    assert_eq!(hits[0].mss, bits(0.95));
    assert_eq!(hits[0].css, bits(0.8));
}

#[test]
fn raising_thresholds_never_adds_hits() {
    let seq = Sequence::Plus(PlusStrand::from_str("s", "ACGTACGTTGCAAC").unwrap());
    let mut table = vec![0u32; TABLE_LEN];
    for k in 0..TABLE_LEN {
        table[k] = bits((k % 11) as f32 / 10.0);
    }
    let run = |ct: f32, mt: f32| {
        let c = core_candidates(&seq, 6, 1, &table, bits(ct));
        let mss: Vec<u32> = c.iter().map(|c| bits(((c.start * 3) % 5) as f32 / 4.0)).collect();
        select_hits(&c, &mss, bits(mt))
    };
    let low = run(0.2, 0.25);
    for (ct, mt) in [(0.2, 0.5), (0.5, 0.25), (0.7, 0.75), (1.0, 1.0)] {
        let high = run(ct, mt);
        assert!(high.len() <= low.len());
        for h in &high {
            assert!(low.contains(h));
        }
    }
}
