use iiac_perf::config::{pin_freq_from_raw, validate_freq, FreqConfig, PinFreq, RawPinFreq};

fn freq(governor: &str, min: Option<u64>, max: Option<u64>, pin: Option<u64>) -> FreqConfig {
    FreqConfig {
        governor: governor.to_string(),
        epp: None,
        boost: None,
        min_mhz: min,
        max_mhz: max,
        pin_mhz: pin,
    }
}

#[test]
fn pin_freq_takes_a_frequency_or_a_freq_key() {
    let word = |w: &str| pin_freq_from_raw(&RawPinFreq::Word(w.to_string()));
    assert_eq!(pin_freq_from_raw(&RawPinFreq::Mhz(3801)), Ok(Some(PinFreq::Mhz(3801))));
    assert_eq!(word("pin_mhz"), Ok(Some(PinFreq::PinMhz)));
    assert_eq!(word("min_mhz"), Ok(Some(PinFreq::MinMhz)));
    assert_eq!(word("max_mhz"), Ok(Some(PinFreq::MaxMhz)));
    // "no" in a file is no opinion, the same as leaving the key out.
    assert_eq!(word("no"), Ok(None));
    // A quoted frequency reads as the flag's text does.
    assert_eq!(word("3801"), Ok(Some(PinFreq::Mhz(3801))));
    assert!(pin_freq_from_raw(&RawPinFreq::Mhz(0)).is_err(), "0 passed");
    for bad in ["", "pin", "off"] {
        assert!(word(bad).is_err(), "{bad} passed");
    }
    assert_eq!(PinFreq::from_flag(None), Ok(PinFreq::PinMhz));
    assert_eq!(PinFreq::from_flag(Some("pin_mhz")), Ok(PinFreq::PinMhz));
    assert_eq!(PinFreq::from_flag(Some("min_mhz")), Ok(PinFreq::MinMhz));
    assert_eq!(PinFreq::from_flag(Some("max_mhz")), Ok(PinFreq::MaxMhz));
    assert_eq!(PinFreq::from_flag(Some("4701")), Ok(PinFreq::Mhz(4701)));
    // On the line "no" cancels a file's pin for this run.
    assert_eq!(PinFreq::from_flag(Some("no")), Ok(PinFreq::Off));
    for bad in ["", "0", "off", "false", "fast"] {
        assert!(PinFreq::from_flag(Some(bad)).is_err(), "{bad:?} passed");
    }
}

#[test]
fn the_freq_summary_reads_as_one_line() {
    let f = FreqConfig {
        governor: "powersave".to_string(),
        epp: Some("balance_performance".to_string()),
        boost: Some(true),
        min_mhz: Some(1745),
        max_mhz: Some(4673),
        pin_mhz: Some(3801),
    };
    assert_eq!(
        f.summary(),
        "powersave, EPP balance_performance, boost on, clamp 1745-4673 MHz, pin 3801 MHz"
    );
    let bare = freq("ondemand", None, Some(2400), None);
    assert_eq!(bare.summary(), "ondemand, clamp undeclared-2400 (incomplete)");
}

#[test]
fn freq_rejects_zero_and_inverted_clamps() {
    assert!(validate_freq(&freq("g", None, None, Some(0))).is_err());
    assert!(validate_freq(&freq("g", Some(4000), Some(3000), None)).is_err());
    assert!(validate_freq(&freq("g", Some(550), Some(5573), None)).is_ok());
}

#[test]
fn freq_refusals_name_the_key() {
    assert_eq!(validate_freq(&freq("", None, None, None)), Err("freq.governor: empty".to_string()));
    assert_eq!(
        validate_freq(&freq("g", Some(0), Some(0), None)),
        Err("freq.min_mhz: 0 is not a frequency".to_string())
    );
    assert_eq!(
        validate_freq(&freq("g", Some(10), Some(0), None)),
        Err("freq.max_mhz: 0 is not a frequency".to_string())
    );
    assert_eq!(
        validate_freq(&freq("g", Some(4000), Some(3000), None)),
        Err("freq: min_mhz 4000 exceeds max_mhz 3000".to_string())
    );
}

#[test]
fn a_pin_word_refusal_quotes_the_word() {
    assert_eq!(
        PinFreq::parse_word("fast"),
        Err("\"fast\" is not a frequency in MHz, \"pin_mhz\", \"min_mhz\", \"max_mhz\", or \"no\"".to_string())
    );
    assert_eq!(PinFreq::parse_word("0"), Err("0 is not a frequency".to_string()));
    assert_eq!(PinFreq::parse_word("+12"), Ok(Some(PinFreq::Mhz(12))));
    assert_eq!(
        pin_freq_from_raw(&RawPinFreq::Word("fast".to_string())),
        Err("pin_freq: \"fast\" is not a frequency in MHz, \"pin_mhz\", \"min_mhz\", \"max_mhz\", or \"no\"".to_string())
    );
}

use iiac_perf::config::{find_named, join_path, named_in, resolve_carrier, xdg_target, Found, Place};

fn nothing() -> Found {
    Found { is_file: false, md: false, toml: false }
}

#[test]
fn resolve_prefers_lone_carrier_and_rejects_both() {
    let md = "dir/config.md".to_string();
    let toml = "dir/config.toml".to_string();
    assert_eq!(resolve_carrier(md.clone(), toml.clone(), false, false).unwrap(), None);
    assert_eq!(resolve_carrier(md.clone(), toml.clone(), false, true).unwrap(), Some(toml.clone()));
    let err = resolve_carrier(md.clone(), toml.clone(), true, true).unwrap_err();
    assert!(err.contains("config.md"), "unexpected error: {err}");
    assert!(err.contains("config.toml"), "unexpected error: {err}");
    assert_eq!(resolve_carrier(md.clone(), toml, true, false).unwrap(), Some(md));
}

#[test]
fn paths_join_as_the_platform_joins() {
    assert_eq!(join_path("/home/u/.config/iiac-perf", "config.md"), "/home/u/.config/iiac-perf/config.md");
    assert_eq!(join_path("/", "x"), "/x");
    assert_eq!(join_path("", "x"), "x");
    assert_eq!(join_path("/home/u", "/etc/run.toml"), "/etc/run.toml");
}

#[test]
fn the_xdg_target_is_the_present_carrier_else_markdown() {
    assert_eq!(xdg_target(None, true, true), Ok(None));
    assert_eq!(xdg_target(Some("/x"), false, false), Ok(Some("/x/config.md".to_string())));
    assert_eq!(xdg_target(Some("/x"), false, true), Ok(Some("/x/config.toml".to_string())));
    assert!(xdg_target(Some("/x"), true, true).is_err());
}

#[test]
fn a_named_config_is_the_file_or_its_one_carrier() {
    let file = Found { is_file: true, md: false, toml: false };
    assert_eq!(named_in("queue", file), Ok(Some("queue".to_string())));
    assert_eq!(named_in("queue.md", nothing()), Ok(None));
    let md = Found { is_file: false, md: true, toml: false };
    assert_eq!(named_in("queue", md), Ok(Some("queue.md".to_string())));
    let both = Found { is_file: false, md: true, toml: true };
    assert!(named_in("queue", both).is_err());
}

#[test]
fn a_named_file_is_found_in_the_first_place_that_has_it() {
    let places = vec![
        Place { dir: "/a/b".to_string(), found: nothing() },
        Place { dir: "/a".to_string(), found: Found { is_file: false, md: false, toml: true } },
        Place { dir: "/xdg".to_string(), found: Found { is_file: true, md: false, toml: false } },
    ];
    assert_eq!(find_named("queue", nothing(), &places), Ok("/a/queue.toml".to_string()));
    let none = vec![
        Place { dir: "/a/b".to_string(), found: nothing() },
        Place { dir: "/a".to_string(), found: nothing() },
    ];
    assert_eq!(
        find_named("queue", nothing(), &none),
        Err("the run's config queue not found, as given or with .md or .toml, in:\n  /a/b\n  /a".to_string())
    );
    assert_eq!(
        find_named("queue.md", nothing(), &none),
        Err("the run's config queue.md not found, in:\n  /a/b\n  /a".to_string())
    );
    assert_eq!(find_named("", nothing(), &none), Err("the run's config: empty name".to_string()));
    assert_eq!(
        find_named("/abs/q", nothing(), &places),
        Err("the run's config /abs/q not found".to_string())
    );
    let md = Found { is_file: false, md: true, toml: false };
    assert_eq!(find_named("/abs/q", md, &none), Ok("/abs/q.md".to_string()));
}

use iiac_perf::config::{layer_files, Dir};

fn dir(d: &str, md: bool, toml: bool) -> Dir {
    Dir { dir: d.to_string(), md, toml }
}

#[test]
fn the_local_file_is_the_nearest_up_the_parents_and_no_higher_one() {
    let xdg = dir("/home/u/.config/iiac-perf", true, false);
    let up = vec![dir("/w/a/b", false, false), dir("/w/a", true, false), dir("/w", false, true)];
    assert_eq!(
        layer_files(Some(&xdg), &up, true),
        Ok(vec!["/home/u/.config/iiac-perf/config.md".to_string(), "/w/a/iiac-perf.md".to_string()])
    );
    let here = vec![dir("/w/a", false, true), dir("/w", true, false)];
    assert_eq!(layer_files(None, &here, true), Ok(vec!["iiac-perf.toml".to_string()]));
    assert_eq!(layer_files(None, &here, false), Ok(vec!["/w/a/iiac-perf.toml".to_string()]));
    assert_eq!(layer_files(None, &vec![dir("/", false, false)], true), Ok(Vec::new()));
    assert!(layer_files(None, &vec![dir("/w", true, true)], true).is_err());
}

use iiac_perf::config::{parse_error, record_refusal};

#[test]
fn a_parse_error_cuts_its_quoted_lines_and_keeps_the_caret() {
    let long = format!("1 | {}", "x".repeat(150));
    let message = format!("TOML parse error at line 1, column 5\n  |\n{long}\n  |     ^\ninvalid key\n");
    let want = format!(
        "parsing f.toml: TOML parse error at line 1, column 5\n  |\n1 | {}...\n  |     ^\ninvalid key",
        "x".repeat(96)
    );
    assert_eq!(parse_error("f.toml", &message), want);
    // A short quoted line, and a long line that quotes nothing, are left whole.
    let short = "  12 | blocks = ?";
    let prose = "y".repeat(120);
    let message = format!("{short}\n{prose}");
    assert_eq!(parse_error("g.md", &message), format!("parsing g.md: {short}\n{prose}"));
    assert_eq!(parse_error("h.toml", ""), "parsing h.toml: ");
}

#[test]
fn a_record_given_as_a_config_is_refused_by_name() {
    assert_eq!(
        record_refusal("runs.jsonl", "  {\"series\": \"s\"}\n").as_deref(),
        Some(
            "runs.jsonl holds JSON, a record rather than a config: `iiac-perf init-config --from-record runs.jsonl` writes a config from a record"
        )
    );
    assert_eq!(record_refusal("c.toml", "blocks = 1\n"), None);
    assert_eq!(record_refusal("c.toml", ""), None);
}

#[test]
fn a_record_given_as_a_config_is_named_and_a_long_line_is_cut() {
    let record = "{\"schema_version\":8,\"bench\":\"min-now\"}\n";
    let err = record_refusal("r.jsonl", record).expect("a record is refused");
    assert!(err.contains("a record rather than a config"), "{err}");
    assert!(err.contains("--from-record r.jsonl"), "{err}");
    // A bad line past the cap is quoted to the cap and no further.
    let long = format!("blocks = 1 {}\n", "x".repeat(300));
    let e = toml::from_str::<toml::Table>(&long).unwrap_err().to_string();
    let err = parse_error("c.toml", &e);
    let source = err
        .lines()
        .find(|l| l.starts_with("1 |"))
        .expect("the line is quoted");
    assert!(source.ends_with("...") && source.chars().count() == 100 + 3);
    // A column past the cut keeps its caret.
    let far = format!("blocks = {} x\n", "1".repeat(200));
    let e = toml::from_str::<toml::Table>(&far).unwrap_err().to_string();
    let err = parse_error("c.toml", &e);
    assert!(err.lines().any(|l| l.trim_end().ends_with('^')), "{err}");
}

use iiac_perf::config::resolve_pin;

fn profiles(entries: &[(&str, &str)]) -> Vec<(String, String)> {
    entries.iter().map(|(a, b)| (a.to_string(), b.to_string())).collect()
}

#[test]
fn profiles_parse_and_resolve() {
    let c = profiles(&[("smt", "0,12"), ("ccx", "0,1")]);
    assert_eq!(resolve_pin(&c, "smt").unwrap(), "0,12");
    assert_eq!(resolve_pin(&c, "ccx").unwrap(), "0,1");
    // A CPU list passes through untouched, and an empty spec clears a file's pin.
    assert_eq!(resolve_pin(&c, "0,3-5").unwrap(), "0,3-5");
    assert_eq!(resolve_pin(&c, "").unwrap(), "");
}

#[test]
fn an_undeclared_profile_name_names_the_hosts_file_and_what_it_declares() {
    let c = profiles(&[("smt", "0,12")]);
    let err = resolve_pin(&c, "x-ccx").unwrap_err();
    assert!(err.contains("[profiles]"), "got: {err}");
    // A host with profiles leads with the ones it has, since naming one is the nearer fix
    // than declaring another, and a host that cannot form the hop never will.
    assert!(err.contains("declares: smt = \"0,12\""), "got: {err}");
    assert!(err.contains("Name one of those"), "got: {err}");
    // A host with none gets the how-to instead, and the command that writes the file.
    let bare = profiles(&[]);
    assert!(resolve_pin(&bare, "smt").unwrap_err().contains("setup-freq"));
    assert!(
        resolve_pin(&bare, "smt").unwrap_err().contains("declares none"),
        "a host with no profiles says so"
    );
}

#[test]
fn the_declared_profiles_are_listed_by_name_the_later_entry_winning() {
    let c = profiles(&[("smt", "0,12"), ("ccx", "0,1"), ("smt", "3,9")]);
    assert_eq!(resolve_pin(&c, "smt").unwrap(), "3,9");
    let err = resolve_pin(&c, "x-ccx").unwrap_err();
    assert_eq!(
        err.lines().take(2).collect::<Vec<_>>(),
        [
            "\"x-ccx\" is no declared profile and is not a CPU list.",
            "This host declares: ccx = \"0,1\", smt = \"3,9\".",
        ]
    );
    // A name that opens with a digit is taken for a CPU list.
    assert_eq!(resolve_pin(&c, "9smt").unwrap(), "9smt");
}
