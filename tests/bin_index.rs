use bin_index::{standardize, Bin, BinError, BinTable};

fn fixture() -> Vec<Bin> {
    vec![
        Bin::new(100, 200).unwrap(),
        Bin::new(100, 300).unwrap(),
        Bin::new(200, 300).unwrap(),
        Bin::new(150, 250).unwrap(),
        Bin::new(150, 200).unwrap(),
    ]
}

fn scan(bins: &[Bin], v: u64) -> Vec<Bin> {
    bins.iter().copied().filter(|b| b.from <= v && v < b.to).collect()
}

#[test]
fn it_works() {
    let bin1 = Bin::new(100, 200).unwrap();
    let bin2 = Bin::new(100, 300).unwrap();
    let bin3 = Bin::new(200, 300).unwrap();
    let bin4 = Bin::new(150, 250).unwrap();
    let bin5 = Bin::new(150, 200).unwrap();

    let table = vec![bin1, bin2, bin3, bin4, bin5];
    let bin_table = BinTable::from(table);

    println!("{}", bin_table.to_pretty_string());

    let pan = standardize(195456).unwrap();
    println!("{} -> {:?}", pan, bin_table.locate(pan));

    let pan = standardize(345).unwrap();
    println!("{} -> {:?}", pan, bin_table.locate(pan));

    let pan = standardize(20963).unwrap();
    println!("{} -> {:?}", pan, bin_table.locate(pan));
}

#[test]
fn standardize_scales_by_digit_count() {
    assert_eq!(standardize(0), Ok(0));
    assert_eq!(standardize(5), Ok(500000));
    assert_eq!(standardize(12), Ok(120000));
    assert_eq!(standardize(345), Ok(345000));
    assert_eq!(standardize(4321), Ok(432100));
    assert_eq!(standardize(20963), Ok(209630));
    assert_eq!(standardize(195456), Ok(195456));
    assert_eq!(standardize(999999), Ok(999999));
}

#[test]
fn standardize_results_have_six_digits() {
    for v in [1u64, 9, 10, 99, 100, 999, 1000, 9999, 10000, 99999, 100000, 999999] {
        let n = standardize(v).unwrap();
        assert_eq!(n.to_string().len(), 6, "value {}", v);
    }
}

#[test]
fn standardize_refuses_seven_digits() {
    assert_eq!(standardize(1_000_000), Err(BinError::TooManyDigits));
    assert_eq!(standardize(u64::MAX), Err(BinError::TooManyDigits));
}

#[test]
fn bin_new_widens_upper_bound() {
    assert_eq!(Bin::new(100, 200), Ok(Bin { from: 100000, to: 200999 }));
    assert_eq!(Bin::new(1, 2), Ok(Bin { from: 100000, to: 299999 }));
    assert_eq!(Bin::new(42, 42), Ok(Bin { from: 420000, to: 429999 }));
    assert_eq!(Bin::new(123456, 123457), Ok(Bin { from: 123456, to: 123457 }));
}

#[test]
fn bin_new_errors() {
    assert_eq!(Bin::new(1_000_000, 2_000_000), Err(BinError::TooManyDigits));
    assert_eq!(Bin::new(100, 1_000_000), Err(BinError::TooManyDigits));
    assert_eq!(Bin::new(1, 300), Err(BinError::MixedDigitCounts));
    assert_eq!(Bin::new(300, 100), Err(BinError::ReversedBounds));
}

#[test]
fn fixture_boundaries_are_complete() {
    let t = BinTable::from(fixture());
    let bounds: Vec<u64> = t.table.iter().map(|e| e.0).collect();
    assert_eq!(bounds, vec![0, 100000, 150000, 200000, 200999, 250999, 300999, u64::MAX]);
}

#[test]
fn fixture_coverage_matches_brute_force() {
    let bins = fixture();
    let t = BinTable::from(bins.clone());
    for i in 0..t.table.len() - 1 {
        let (lo, hi) = (t.table[i].0, t.table[i + 1].0);
        let expected: Vec<Bin> =
            bins.iter().copied().filter(|b| b.from <= lo && b.to >= hi).collect();
        assert_eq!(t.table[i].1, expected, "cell {}", lo);
    }
    assert!(t.table[t.table.len() - 1].1.is_empty());
}

#[test]
fn fixture_query_inside_four_bins() {
    let bins = fixture();
    let t = BinTable::from(bins.clone());
    let r = t.locate(195456);
    assert_eq!(r, vec![bins[0], bins[1], bins[3], bins[4]]);
    assert!(!r.contains(&Bin { from: 200000, to: 300999 }));
}

#[test]
fn fixture_query_below_all_bins_is_empty() {
    let t = BinTable::from(fixture());
    assert!(t.locate(20963).is_empty());
    assert!(t.locate(0).is_empty());
}

#[test]
fn fixture_query_above_all_bins_is_empty() {
    let t = BinTable::from(fixture());
    assert!(t.locate(345000).is_empty());
    assert!(t.locate(300999).is_empty());
    assert!(t.locate(u64::MAX).is_empty());
}

#[test]
fn query_at_upper_bound_belongs_to_next_cell() {
    let bins = fixture();
    let t = BinTable::from(bins.clone());
    // 200999 is the upper bound of the first and last bins: it starts a new cell
    // that neither covers.
    assert_eq!(t.locate(200999), vec![bins[1], bins[2], bins[3]]);
    assert_eq!(t.locate(200998), vec![bins[0], bins[1], bins[2], bins[3], bins[4]]);
}

#[test]
fn query_matches_linear_scan() {
    let sets: Vec<Vec<Bin>> = vec![
        fixture(),
        vec![],
        vec![Bin::new(1, 1).unwrap()],
        vec![Bin::new(5, 6).unwrap(), Bin::new(6, 7).unwrap(), Bin::new(1, 9).unwrap()],
        vec![Bin::new(12, 34).unwrap(), Bin::new(123, 345).unwrap(), Bin::new(1234, 4567).unwrap()],
    ];
    for bins in sets {
        let t = BinTable::from(bins.clone());
        let mut values: Vec<u64> = vec![0, 1, 999999, 1_000_000, u64::MAX];
        for b in &bins {
            for v in [b.from, b.to] {
                values.extend([v.saturating_sub(1), v, v.saturating_add(1)]);
            }
        }
        for v in (0..1_000_000u64).step_by(997) {
            values.push(v);
        }
        for v in values {
            assert_eq!(t.locate(v), scan(&bins, v), "value {}", v);
        }
    }
}

#[test]
fn query_is_deterministic() {
    let t = BinTable::from(fixture());
    for v in [0u64, 150000, 195456, 200999, 300999, u64::MAX] {
        assert_eq!(t.locate(v), t.locate(v));
    }
}

#[test]
fn empty_index_has_two_empty_cells() {
    let t = BinTable::from(vec![]);
    assert_eq!(t.table, vec![(0, vec![]), (u64::MAX, vec![])]);
    assert!(t.locate(123456).is_empty());
}

#[test]
fn empty_table_answers_nothing() {
    let t = BinTable { table: vec![] };
    assert!(t.locate(5).is_empty());
    let t = BinTable { table: vec![(10, vec![Bin { from: 10, to: 20 }])] };
    assert!(t.locate(5).is_empty());
    assert_eq!(t.locate(10), vec![Bin { from: 10, to: 20 }]);
}

#[test]
fn bin_to_string() {
    assert_eq!(Bin::new(100, 200).unwrap().to_string(), "100000 - 200999");
    assert_eq!(Bin { from: 0, to: 7 }.to_string(), "0 - 7");
}

#[test]
fn pretty_string_lists_cells() {
    let t = BinTable::from(vec![Bin::new(1, 2).unwrap()]);
    assert_eq!(
        t.to_pretty_string(),
        "\n0\n100000\n    100000 - 299999\n299999\n18446744073709551615"
    );
}

#[test]
fn build_normalizes_then_indexes() {
    let raw = vec![(100, 200), (100, 300), (200, 300), (150, 250), (150, 200)];
    let t = BinTable::build(&raw).unwrap();
    assert_eq!(t.table, BinTable::from(fixture()).table);
}

#[test]
fn build_reports_first_error() {
    assert_eq!(
        BinTable::build(&vec![(1, 2), (5, 1), (1, 300)]).err(),
        Some(BinError::ReversedBounds)
    );
    assert_eq!(
        BinTable::build(&vec![(1, 2), (1234567, 1234568)]).err(),
        Some(BinError::TooManyDigits)
    );
    assert!(BinTable::build(&vec![]).is_ok());
}
