use tfp::plan::scan_jobs;

#[test]
fn jobs_skip_matrices_that_were_not_built() {
    let jobs = scan_jobs(&vec![true, false, true], 2);
    assert_eq!(jobs, vec![(0, 0), (0, 1), (2, 0), (2, 1)]);
}

#[test]
fn no_matrices_or_no_strands_gives_no_jobs() {
    assert!(scan_jobs(&Vec::new(), 4).is_empty());
    assert!(scan_jobs(&vec![true, true], 0).is_empty());
    assert!(scan_jobs(&vec![false], 3).is_empty());
}
