use iiac_perf::bands::{boundary_names, group3, BandLabels};

#[test]
fn generated_boundaries_match_documented_ladder() {
    let b = boundary_names();
    let zpn: Vec<&str> = b.iter().map(|x| x.zpn.as_str()).collect();
    assert_eq!(
        zpn,
        [
            "min", "z4", "z3", "z2", "p10", "p20", "p30", "p40", "p50", "p60", "p70", "p80",
            "p90", "n2", "n3", "n4", "n5", "n6", "n7", "n8", "n9", "n10", "max",
        ]
    );
    let frac: Vec<&str> = b.iter().map(|x| x.frac.as_str()).collect();
    assert_eq!(
        frac,
        [
            "min",
            "0.000_1",
            "0.001",
            "0.01",
            "0.10",
            "0.20",
            "0.30",
            "0.40",
            "0.50",
            "0.60",
            "0.70",
            "0.80",
            "0.90",
            "0.99",
            "0.999",
            "0.999_9",
            "0.999_99",
            "0.999_999",
            "0.999_999_9",
            "0.999_999_99",
            "0.999_999_999",
            "0.999_999_999_9",
            "max",
        ]
    );
}

#[test]
fn styles_name_themselves_and_label_a_boundary() {
    assert_eq!(BandLabels::Zpn.as_str(), "zpn");
    assert_eq!(BandLabels::Frac.as_str(), "frac");
    assert_eq!(BandLabels::Both.as_str(), "both");
    let b = boundary_names();
    assert_eq!(b[15].label(BandLabels::Zpn), "n4");
    assert_eq!(b[15].label(BandLabels::Frac), "0.999_9");
    assert_eq!(group3("9999"), "999_9");
}

#[test]
fn the_trimmed_row_names_its_range_in_the_tables_style() {
    assert_eq!(BandLabels::Frac.trim_label(), "min..0.99");
    assert_eq!(BandLabels::Zpn.trim_label(), "min..n2");
    assert_eq!(BandLabels::Both.trim_label(), "min..n2");
}
