use iiac_perf::bands::BandLabels;
use iiac_perf::config::{FreqConfig, PinFreq, RawPinFreq};
use iiac_perf::validate::{validate, RawBenches, RawKeys, Readings, RecordTarget};

fn empty() -> RawKeys {
    RawKeys {
        benches: None,
        band_labels: None,
        decimals: None,
        blocks: None,
        runs: None,
        pin_freq: None,
        freq: None,
        duration_set: false,
        total_duration_set: false,
        pin_cpus: None,
        record_set: false,
        record_dir: None,
        record_file: None,
        tag_keys: Vec::new(),
    }
}

fn read() -> Readings {
    Readings {
        duration: None,
        settle_time: None,
        warm_cap: None,
        block_sleep: None,
        block_warmup: None,
        run_sleep: None,
        trim_runs: None,
        total_duration: None,
    }
}

#[test]
fn empty_is_all_none() {
    let c = validate(&empty(), &read()).unwrap();
    assert_eq!((c.benches, c.band_labels, c.pin_freq, c.record), (None, None, None, None));
}

#[test]
fn benches_take_a_list_or_one_name() {
    let mut k = empty();
    k.benches = Some(RawBenches::One("all".into()));
    assert_eq!(validate(&k, &read()).unwrap().benches, Some(vec!["all".to_string()]));
    k.benches = Some(RawBenches::List(vec!["a".into(), "b".into()]));
    assert_eq!(validate(&k, &read()).unwrap().benches, Some(vec!["a".to_string(), "b".to_string()]));
    k.benches = Some(RawBenches::List(Vec::new()));
    assert_eq!(validate(&k, &read()).unwrap_err(), "benches: an empty list names no bench");
    k.benches = Some(RawBenches::List(vec!["a".into(), "  ".into()]));
    assert_eq!(validate(&k, &read()).unwrap_err(), "benches: a name is empty");
}

#[test]
fn bad_band_labels_and_out_of_range_counts_err() {
    let mut k = empty();
    k.band_labels = Some("both".into());
    assert_eq!(validate(&k, &read()).unwrap().band_labels, Some(BandLabels::Both));
    k.band_labels = Some("nope".into());
    assert_eq!(validate(&k, &read()).unwrap_err(), "band_labels: \"nope\" is not one of zpn, frac, both");
    let mut k = empty();
    k.decimals = Some(4);
    assert_eq!(validate(&k, &read()).unwrap_err(), "decimals: 4 exceeds the maximum of 3");
    let mut k = empty();
    k.blocks = Some(0);
    assert_eq!(validate(&k, &read()).unwrap_err(), "blocks: 0 is outside 1..=1000");
    let mut k = empty();
    k.runs = Some(1001);
    assert_eq!(validate(&k, &read()).unwrap_err(), "runs: 1001 is outside 1..=1000");
}

#[test]
fn the_first_fault_in_key_order_is_the_refusal() {
    let mut k = empty();
    k.runs = Some(0);
    k.decimals = Some(9);
    let mut r = read();
    r.duration = Some("duration: -1 is negative".into());
    assert_eq!(validate(&k, &r).unwrap_err(), "decimals: 9 exceeds the maximum of 3");
    k.decimals = None;
    assert_eq!(validate(&k, &r).unwrap_err(), "duration: -1 is negative");
    r.duration = None;
    assert_eq!(validate(&k, &r).unwrap_err(), "runs: 0 is outside 1..=1000");
}

#[test]
fn pins_freq_and_record_keys_are_read_here() {
    let mut k = empty();
    k.pin_freq = Some(RawPinFreq::Word("min_mhz".into()));
    assert_eq!(validate(&k, &read()).unwrap().pin_freq, Some(PinFreq::MinMhz));
    k.pin_freq = Some(RawPinFreq::Word("no".into()));
    assert_eq!(validate(&k, &read()).unwrap().pin_freq, None);
    k.freq = Some(FreqConfig {
        governor: "g".into(),
        epp: None,
        boost: None,
        min_mhz: Some(4000),
        max_mhz: Some(3000),
        pin_mhz: None,
    });
    assert_eq!(validate(&k, &read()).unwrap_err(), "freq: min_mhz 4000 exceeds max_mhz 3000");
    let mut k = empty();
    k.duration_set = true;
    k.total_duration_set = true;
    assert_eq!(validate(&k, &read()).unwrap_err(), "duration and total_duration are both set: keep one");
    let mut k = empty();
    k.pin_cpus = Some(" ".into());
    assert_eq!(validate(&k, &read()).unwrap_err(), "pin_cpus: empty");
    let mut k = empty();
    k.record_set = true;
    assert!(validate(&k, &read()).unwrap_err().starts_with("record: a path's shape"));
    let mut k = empty();
    k.record_dir = Some("runs".into());
    assert_eq!(validate(&k, &read()).unwrap().record, Some(RecordTarget::Dir("runs".into())));
    k.record_file = Some("f".into());
    assert_eq!(validate(&k, &read()).unwrap_err(), "record_dir and record_file are both set: keep one");
    let mut k = empty();
    k.record_file = Some(String::new());
    assert_eq!(validate(&k, &read()).unwrap_err(), "record_file: empty");
}

#[test]
fn the_first_bad_tag_in_sorted_order_is_named() {
    let mut k = empty();
    k.tag_keys = vec!["ok".into(), "z=1".into(), "b=2".into()];
    assert_eq!(validate(&k, &read()).unwrap_err(), "tags: \"b=2\" is empty or holds '='");
    k.tag_keys = vec!["ok".into(), String::new()];
    assert_eq!(validate(&k, &read()).unwrap_err(), "tags: \"\" is empty or holds '='");
    k.tag_keys = vec!["ok".into()];
    assert!(validate(&k, &read()).is_ok());
}

#[test]
fn every_style_name_reads_back_as_its_style() {
    for b in [BandLabels::Zpn, BandLabels::Frac, BandLabels::Both] {
        let mut k = empty();
        k.band_labels = Some(b.as_str().to_string());
        assert_eq!(validate(&k, &read()).unwrap().band_labels, Some(b));
    }
}

#[test]
fn an_accepted_config_holds_its_values_in_range() {
    let mut k = empty();
    k.benches = Some(RawBenches::List(vec!["a".into(), "b".into()]));
    k.decimals = Some(3);
    k.blocks = Some(1000);
    k.runs = Some(1);
    k.pin_cpus = Some("0-3".into());
    k.record_file = Some("r.jsonl".into());
    k.tag_keys = vec!["host".into()];
    let c = validate(&k, &read()).unwrap();
    assert_eq!(c.benches, Some(vec!["a".to_string(), "b".to_string()]));
    assert_eq!(c.record, Some(RecordTarget::File("r.jsonl".into())));
    k.tag_keys = vec!["a=b".into()];
    assert_eq!(validate(&k, &read()).unwrap_err(), "tags: \"a=b\" is empty or holds '='");
}
