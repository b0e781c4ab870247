use iiac_perf::config::{FreqConfig, RawPinFreq};
use iiac_perf::layers::{
    key_name, overlay, Layer, DURATION, FREQ, N_KEYS, PIN_FREQ, RECORD_DIR, RECORD_FILE, TAGS,
    TOTAL_DURATION,
};

/// A file's layer setting `keys` to their values.
fn file(keys: &[(usize, &str)]) -> Layer<String> {
    let mut l = Layer::new();
    for (k, v) in keys {
        l.values[*k] = Some(v.to_string());
    }
    l
}

fn freq(governor: &str, max: Option<u64>) -> FreqConfig {
    FreqConfig {
        governor: governor.to_string(),
        epp: None,
        boost: None,
        min_mhz: None,
        max_mhz: max,
        pin_mhz: None,
    }
}

#[test]
fn a_later_files_values_replace_the_earlier_ones_whole() {
    let mut base: Layer<String> = Layer::new();
    overlay(&mut base, file(&[(0, "a,b"), (3, "1")]), "xdg.md").unwrap();
    overlay(&mut base, file(&[(0, "c")]), "local.md").unwrap();
    assert_eq!(base.values[0].as_deref(), Some("c"));
    assert_eq!(base.values[3].as_deref(), Some("1"));
    assert_eq!(base.sources[0].as_deref(), Some("local.md"));
    assert_eq!(base.sources[3].as_deref(), Some("xdg.md"));
    assert_eq!(key_name(0), "benches");
    assert_eq!(key_name(FREQ), "freq");
}

#[test]
fn the_nearer_files_duration_choice_clears_the_other() {
    let mut base: Layer<String> = Layer::new();
    overlay(&mut base, file(&[(DURATION, "5")]), "xdg.md").unwrap();
    overlay(&mut base, file(&[(TOTAL_DURATION, "60")]), "local.md").unwrap();
    assert_eq!(base.values[DURATION], None);
    assert_eq!(base.sources[DURATION], None);
    assert_eq!(base.values[TOTAL_DURATION].as_deref(), Some("60"));
    let err = overlay(&mut base, file(&[(DURATION, "1"), (TOTAL_DURATION, "2")]), "both.md").unwrap_err();
    assert_eq!(err, "both.md: duration and total_duration are both set: keep one");
}

#[test]
fn the_nearer_files_record_mode_clears_the_other() {
    let mut base: Layer<String> = Layer::new();
    overlay(&mut base, file(&[(RECORD_DIR, "runs/")]), "xdg.md").unwrap();
    overlay(&mut base, file(&[(RECORD_FILE, "all.jsonl")]), "local.md").unwrap();
    assert_eq!(base.values[RECORD_DIR], None);
    assert_eq!(base.values[RECORD_FILE].as_deref(), Some("all.jsonl"));
    let err = overlay(&mut Layer::new(), file(&[(RECORD_DIR, "d"), (RECORD_FILE, "f")]), "both.md").unwrap_err();
    assert_eq!(err, "both.md: record_dir and record_file are both set: keep one");
    base.note_record_source();
    assert_eq!(base.source("record"), Some("local.md"));
}

#[test]
fn the_record_source_is_the_directorys_file_or_none() {
    let mut base: Layer<String> = Layer::new();
    overlay(&mut base, file(&[(RECORD_DIR, "runs/")]), "xdg.md").unwrap();
    base.note_record_source();
    assert_eq!(base.source("record"), Some("xdg.md"));
    let mut none: Layer<String> = Layer::new();
    overlay(&mut none, file(&[(DURATION, "5")]), "xdg.md").unwrap();
    none.note_record_source();
    assert_eq!(none.source("record"), None);
}

#[test]
fn tags_and_profiles_merge_by_entry_and_freq_replaces_whole() {
    let mut base: Layer<String> = Layer::new();
    let mut xdg = file(&[]);
    xdg.tags = vec![("box".into(), "a".into()), ("site".into(), "lab".into())];
    xdg.profiles = vec![("smt".into(), "3,9".into())];
    xdg.freq = Some(freq("powersave", Some(4000)));
    overlay(&mut base, xdg, "xdg.md").unwrap();
    let mut local = file(&[]);
    local.tags = vec![("box".into(), "b".into())];
    local.profiles = vec![("ccx".into(), "3,2".into())];
    local.freq = Some(freq("performance", None));
    overlay(&mut base, local, "local.md").unwrap();
    let mut tags = base.tags.clone();
    tags.sort();
    assert_eq!(tags, [("box".to_string(), "b".to_string()), ("site".to_string(), "lab".to_string())]);
    let mut profiles = base.profiles.clone();
    profiles.sort();
    assert_eq!(profiles, [("ccx".to_string(), "3,2".to_string()), ("smt".to_string(), "3,9".to_string())]);
    // The whole table replaces: no max_mhz carried over from the lower file.
    assert_eq!(base.freq, Some(freq("performance", None)));
    assert_eq!(base.sources[TAGS].as_deref(), Some("local.md"));
    assert_eq!(base.sources[FREQ].as_deref(), Some("local.md"));
}

#[test]
fn a_files_no_leaves_a_lower_files_pin_in_place() {
    let mut base: Layer<String> = Layer::new();
    let mut xdg = file(&[]);
    xdg.pin_freq = Some(RawPinFreq::Mhz(3801));
    overlay(&mut base, xdg, "xdg.md").unwrap();
    let mut local = file(&[]);
    local.pin_freq = Some(RawPinFreq::Word("no".into()));
    overlay(&mut base, local, "local.md").unwrap();
    assert_eq!(base.pin_freq, Some(RawPinFreq::Mhz(3801)));
    assert_eq!(base.sources[PIN_FREQ].as_deref(), Some("xdg.md"));
    let mut bad = file(&[]);
    bad.pin_freq = Some(RawPinFreq::Word("fast".into()));
    let err = overlay(&mut base, bad, "bad.md").unwrap_err();
    assert!(err.starts_with("bad.md: pin_freq: \"fast\""), "{err}");
    assert_eq!(base.values.len(), N_KEYS);
}

#[test]
fn a_named_files_run_keys_stand_alone_over_the_hosts_facts() {
    const BENCHES: usize = 0;
    const DECIMALS: usize = 3;
    const BLOCKS: usize = 6;
    const RUNS: usize = 9;
    let mut host: Layer<String> = Layer::new();
    let mut xdg = file(&[(BLOCKS, "10")]);
    xdg.tags = vec![("host".into(), "a".into())];
    xdg.profiles = vec![("smt".into(), "0,12".into())];
    xdg.freq = Some(freq("powersave", None));
    overlay(&mut host, xdg, "xdg/config.toml").unwrap();
    overlay(&mut host, file(&[(RUNS, "2")]), "work/iiac-perf.toml").unwrap();
    assert_eq!(host.values[BLOCKS].as_deref(), Some("10"));
    assert_eq!(host.values[RUNS].as_deref(), Some("2"));

    // The host's run keys are gone, sources and all, and its facts stay.
    let mut c = host.clone().host_facts();
    overlay(&mut c, file(&[(BENCHES, "min-now"), (DECIMALS, "2")]), "work/run.toml").unwrap();
    assert_eq!((c.values[BLOCKS].as_deref(), c.values[RUNS].as_deref()), (None, None));
    assert_eq!(c.values[DECIMALS].as_deref(), Some("2"));
    assert!(c.tags.is_empty());
    assert_eq!(c.sources[BLOCKS], None);
    assert_eq!(c.sources[TAGS], None);
    assert_eq!(c.profiles, [("smt".to_string(), "0,12".to_string())]);
    assert_eq!(c.sources[FREQ].as_deref(), Some("xdg/config.toml"));
    assert_eq!(c.sources[DECIMALS].as_deref(), Some("work/run.toml"));

    // A named file's own [freq] is the nearest, so it wins, whole.
    let mut c = host.host_facts();
    let mut pinned = file(&[]);
    pinned.freq = Some(freq("schedutil", None));
    overlay(&mut c, pinned, "work/pinned.toml").unwrap();
    assert_eq!(c.freq.unwrap().governor, "schedutil");
}

#[test]
fn a_keys_source_is_found_by_its_name() {
    let mut base: Layer<String> = Layer::new();
    overlay(&mut base, file(&[(0, "a,b"), (3, "1")]), "xdg.md").unwrap();
    let mut local = file(&[(0, "c")]);
    local.freq = Some(freq("performance", None));
    overlay(&mut base, local, "local.md").unwrap();
    assert_eq!(base.source("benches"), Some("local.md"));
    assert_eq!(base.source("decimals"), Some("xdg.md"));
    assert_eq!(base.source("freq"), Some("local.md"));
    assert_eq!(base.source("blocks"), None);
    assert_eq!(base.source("no_such_key"), None);
}
