use iiac_perf::host::Host;
use iiac_perf::tables::Entry;
use iiac_perf::init_config::{
    adapt, annotated, beside, carried_toml, chosen, in_carrier, key_name, listing, render, shown, table_name, to_toml,
    uncommented, Recorded, RunTable, RunValue, Section, SetValue,
};

#[test]
fn a_hash_with_no_space_is_a_key() {
    assert_eq!(uncommented("#blocks = 100"), Some("blocks = 100"));
    assert_eq!(uncommented("# a comment"), None);
    assert_eq!(uncommented("#"), None);
    assert_eq!(uncommented("blocks = 100"), None);
    assert_eq!(uncommented("#[freq]"), Some("[freq]"));
}

#[test]
fn headers_and_keys_name_what_they_set() {
    assert_eq!(table_name("[freq]"), Some("freq"));
    assert_eq!(table_name("[]"), Some(""));
    assert_eq!(table_name("["), None);
    assert_eq!(table_name("freq]"), None);
    assert_eq!(key_name("blocks = 100"), Some("blocks"));
    assert_eq!(key_name("  tags =a=b"), Some("tags"));
    assert_eq!(key_name("blocks"), None);
}

#[test]
fn the_toml_carrier_keeps_fences_and_headings_only() {
    let md = "# Title\n\nProse.\n\n## Run\n\n```toml\n#blocks = 100\n```\n\n```sh\nls\n```\n";
    let head = "# iiac-perf config: every key, commented out at its default, or at a sample where it has none.\n\
                # Uncomment a line to set it. `iiac-perf init-config` prints this file with the prose that\n\
                # explains each key, and docs/config.md is the reference.\n";
    assert_eq!(to_toml(md), format!("{head}\n# ---- Run ----\n\n#blocks = 100\n"));
    assert_eq!(to_toml(""), head);
    // A CRLF file reads the same.
    assert_eq!(to_toml("```toml\r\na = 1\r\n```\r\n"), format!("{head}a = 1\n"));
}

#[test]
fn a_backup_sits_beside_its_file_and_the_carrier_follows_the_extension() {
    assert_eq!(beside("queue.md", ".bak"), "queue.md.bak");
    let md = "```toml\nx = 1\n```\n".to_string();
    assert_eq!(in_carrier("a/c.md", md.clone()), md);
    assert!(in_carrier("a/c.toml", md.clone()).ends_with("\nx = 1\n"));
    assert_eq!(shown(Some("s1"), "none"), "s1");
    assert_eq!(shown(None, "none"), "none");
}

#[test]
fn a_config_file_carries_toml_by_its_extension() {
    let md = "prose\n```toml\nx = 1\n```\n".to_string();
    assert_eq!(carried_toml("a/c.md", md.clone()), to_toml(&md));
    assert!(carried_toml("a/c.md", md.clone()).ends_with("\nx = 1\n"));
    assert_eq!(carried_toml("a/c.toml", "x = 1\n".to_string()), "x = 1\n");
    assert_eq!(carried_toml("a/c", md.clone()), md);
}

/// A small template in the starting config's shape: prose, then a fence per section, every key
/// commented out, a table's fence to itself.
const TEMPLATE: &str = "# iiac-perf config\n\
\n\
Every key is commented out; this prose replicates the docs.\n\
\n\
## Blocks\n\
\n\
```toml\n\
#blocks = 100\n\
#decimals = 1\n\
# a comment about blocks\n\
#pin_freq = \"min_mhz\"\n\
```\n\
\n\
## Tags\n\
\n\
```toml\n\
#[tags]\n\
#host = \"sample\"\n\
```\n\
\n\
## Profiles\n\
\n\
```toml\n\
#[profiles]\n\
#ccd = \"0-5\"\n\
```\n\
\n\
## Freq\n\
\n\
```toml\n\
#[freq]\n\
#governor = \"powersave\"\n\
#epp = \"balance_performance\"\n\
```\n";

fn set(key: &str, text: &str, table: Option<&str>) -> SetValue {
    SetValue {
        key: key.to_string(),
        text: text.to_string(),
        table: match table {
            Some(t) => Section::Toml(t.to_string()),
            None => Section::Unwritable("unsupported".to_string()),
        },
    }
}

#[test]
fn the_bare_template_renders_as_itself() {
    assert_eq!(render(TEMPLATE, None, None).unwrap(), TEMPLATE);
    assert_eq!(render(TEMPLATE, Some(&Vec::new()), None).unwrap(), TEMPLATE);
}

#[test]
fn a_live_freq_section_replaces_the_sample() {
    let section = vec![
        "[freq]".to_string(),
        "governor = \"schedutil\"".to_string(),
        "# pin_mhz omitted: the base clock".to_string(),
    ];
    let text = render(TEMPLATE, None, Some(&section)).unwrap();
    assert!(
        text.contains("```toml\n[freq]\ngovernor = \"schedutil\"\n# pin_mhz omitted: the base clock\n```\n"),
        "got: {text}"
    );
    assert!(!text.contains("balance_performance"), "got: {text}");
    assert!(text.contains("#[tags]\n#host = \"sample\"\n"), "got: {text}");
}

#[test]
fn from_carries_a_files_own_values_and_nothing_else() {
    let old = vec![
        set("benches", "[\"min-now\", \"std-now\"]", None),
        set("blocks", "10", None),
        set("verbose", "true", None),
        set("tags", "", Some("[tags]\n\"odd key\" = \"a \\\"quoted\\\" value\"\n")),
        set("profiles", "", Some("[profiles]\nsmt = \"0,12\"\n")),
        set(
            "freq",
            "",
            Some("[freq]\ngovernor = \"powersave\"\nmin_mhz = 1745\nmax_mhz = 4673\n"),
        ),
    ];
    let new = render(TEMPLATE, Some(&old), None).unwrap();
    // A key the old file leaves alone stays commented, and the sample tables are gone.
    assert!(new.contains("\n#decimals = 1\n"), "got: {new}");
    assert!(new.contains("\nblocks = 10\n"), "got: {new}");
    assert!(!new.contains("ccd ="), "got: {new}");
    assert!(new.contains("```toml\n[profiles]\nsmt = \"0,12\"\n```\n"), "got: {new}");
    assert!(new.contains("\n[tags]\n\"odd key\" = \"a \\\"quoted\\\" value\"\n```"), "got: {new}");
    assert!(!new.contains("balance_performance"), "got: {new}");
    // The TOML carrier says the same.
    let as_toml = to_toml(&new);
    assert!(as_toml.starts_with("# iiac-perf config: every key"));
    assert!(
        as_toml.contains("\n# ---- Blocks ----\n\nblocks = 10\n"),
        "got: {as_toml}"
    );
    // No prose: every comment is the head, a heading, or a key.
    assert!(!as_toml.contains("replicates"), "got: {as_toml}");
}

#[test]
fn a_table_that_will_not_write_as_toml_stops_the_render() {
    let old = vec![set("tags", "", None)];
    assert_eq!(
        render(TEMPLATE, Some(&old), None),
        Err("[tags] will not write back as TOML: unsupported".to_string())
    );
    // A table the template never reaches cannot stop it.
    let old = vec![set("nowhere", "", None), set("blocks", "7", None)];
    let text = render(TEMPLATE, Some(&old), None).unwrap();
    assert!(text.contains("\nblocks = 7\n#decimals = 1\n"), "got: {text}");
}

#[test]
fn a_key_inside_a_table_is_never_set_as_a_top_level_key() {
    // `host` is a key the file sets at the top level, and the template's `#host` sits in a
    // table's fence: it stays commented.
    let old = vec![set("host", "\"x\"", None)];
    let text = render(TEMPLATE, Some(&old), None).unwrap();
    assert!(text.contains("#[tags]\n#host = \"sample\"\n"), "got: {text}");
    let line = "#blocks = 100\r\n";
    assert_eq!(render(line, Some(&vec![set("blocks", "3", None)]), None).unwrap(), "#blocks = 100\n");
    let fenced = "```toml\r\n#blocks = 100\r\n```";
    assert_eq!(
        render(fenced, Some(&vec![set("blocks", "3", None)]), None).unwrap(),
        "```toml\nblocks = 3\n```\n"
    );
}

/// A host shaped like the 3900X, `kernel` and `rustc` as given.
fn host(name: &str, kernel: &str, rustc: &str) -> Host {
    Host {
        name: name.to_string(),
        cpu_model: Some("AMD Ryzen 9 3900X 12-Core Processor".to_string()),
        ram_bytes: None,
        cache_line_bytes: Some(64),
        caches: Vec::new(),
        kernel: Some(kernel.to_string()),
        rustc: rustc.to_string(),
    }
}

/// A run config of single values.
fn table(pairs: &[(&str, RunValue)]) -> RunTable {
    pairs.iter().map(|(k, v)| (k.to_string(), Entry::Value(v.clone()))).collect()
}

/// A run config that says nothing.
fn no_facts() -> RunTable {
    Vec::new()
}

/// A table's entries in key order, to compare as TOML tables compare.
fn sorted(mut t: RunTable) -> RunTable {
    t.sort_by(|a, b| a.0.cmp(&b.0));
    t
}

fn text(s: &str) -> RunValue {
    RunValue::Text(s.to_string())
}

/// A recorded run of `series` whose config is `run`, pinned at `placement`.
fn recorded(series: &str, run: RunTable, placement: Option<&str>) -> Recorded {
    Recorded {
        series: Some(series.to_string()),
        bench: "ice-rr-2t".to_string(),
        label: None,
        run,
        pin_placement: placement.map(str::to_string),
        host: host("3900x", "7.2.3", "rustc 1.98.0"),
        version: "0.1.0".to_string(),
    }
}

#[test]
fn a_record_file_of_several_invocations_needs_a_series() {
    let one = recorded("20260921T154030.304Z", no_facts(), None);
    let two = recorded("20260921T160000.001Z", no_facts(), None);
    let same = vec![one.clone(), one.clone()];
    assert_eq!(chosen(&same, None).unwrap(), &one);
    let both = vec![one.clone(), two.clone()];
    let err = chosen(&both, None).unwrap_err();
    assert!(
        err.contains("--series") && err.contains("20260921T160000.001Z"),
        "{err}"
    );
    assert_eq!(chosen(&both, Some("20260921T160000.001Z")).unwrap(), &two);
    assert!(chosen(&both, Some("nope")).unwrap_err().contains("nope"));
}

#[test]
fn a_listing_names_each_series_once_with_its_benches() {
    let mut a = recorded("s1", no_facts(), None);
    a.label = Some("quiet".to_string());
    let mut b = recorded("s2", no_facts(), None);
    b.bench = "min-now".to_string();
    let mut c = recorded("s1", no_facts(), None);
    c.bench = "std-now".to_string();
    let mut d = recorded("s1", no_facts(), None);
    d.label = Some("other".to_string());
    let mut e = recorded("x", no_facts(), None);
    e.series = None;
    let runs = vec![a, b, c, d, e];
    assert_eq!(
        listing(&runs),
        "  s1  label quiet  benches ice-rr-2t, std-now\n  s2  label -  benches min-now\n  none  label -  benches ice-rr-2t"
    );
    assert_eq!(chosen(&runs, Some("none")).unwrap().series, None);
    assert_eq!(
        chosen(&runs, None).unwrap_err(),
        format!("the file holds several invocations: pick one with --series ID\n{}", listing(&runs))
    );
    assert_eq!(listing(&vec![]), "");
}

#[test]
fn a_records_host_facts_are_named_for_this_host_or_left_out() {
    let profiles = vec![
        ("ccx".to_string(), "3,2".to_string()),
        ("smt".to_string(), "3,9".to_string()),
    ];
    let here = host("7600x", "7.2.6", "rustc 1.98.0");
    // A pool of numbers at a placement this host declares becomes its profile, and a clock
    // in MHz and a record path are left out, each with its reason.
    let run = recorded(
        "s",
        table(&[
            ("blocks", RunValue::Integer(10)),
            ("pin_cpus", text("11,23")),
            ("pin_freq", RunValue::Integer(3801)),
            ("record_dir", text("runs")),
        ]),
        Some("SMT"),
    );
    let a = adapt(run, &profiles, &here, "0.1.0");
    let want = table(&[("blocks", RunValue::Integer(10)), ("pin_cpus", text("smt"))]);
    assert_eq!(sorted(a.table.clone()), sorted(want));
    assert_eq!(a.pin_profile, Some("smt".to_string()));
    let keys: Vec<&str> = a.left_out.iter().map(|(k, _)| k.as_str()).collect();
    assert_eq!(keys, ["pin_freq", "record_dir"]);
    assert!(a.left_out[0].1.contains("3801 MHz"), "{:?}", a.left_out);
    // Only what differs is noted: the kernel, not the cpu or the compiler.
    assert!(a.notes.iter().any(|n| n.starts_with("kernel differs")));
    assert!(
        !a.notes
            .iter()
            .any(|n| n.starts_with("cpu") || n.starts_with("rustc"))
    );
    // A placement this host has no profile for is left out, as is one with no name.
    let x = recorded("s", table(&[("pin_cpus", text("0,6"))]), Some("x-CCX"));
    let a = adapt(x, &profiles, &here, "0.1.0");
    assert!(a.table.is_empty());
    assert_eq!(a.pin_profile, None);
    let keys: Vec<&str> = a.left_out.iter().map(|(k, _)| k.as_str()).collect();
    assert_eq!(keys, ["pin_cpus"]);
    assert!(
        a.left_out[0].1.contains("no x-ccx profile"),
        "{:?}",
        a.left_out
    );
    // A profile name is already this host's way of saying it.
    let named = recorded(
        "s",
        table(&[("pin_cpus", text("smt")), ("pin_freq", text("pin_mhz"))]),
        Some("SMT"),
    );
    let a = adapt(named.clone(), &profiles, &here, "0.1.0");
    assert_eq!(a.table, named.run);
    assert_eq!(a.pin_profile, None);
    assert!(a.left_out.is_empty());
}

#[test]
fn an_adapted_records_notes_and_reasons_read_in_full() {
    let profiles = vec![("smt".to_string(), "3,9".to_string())];
    let mut here = host("7600x", "7.2.3", "rustc 1.99.0");
    here.cpu_model = None;
    let run = recorded(
        "s",
        table(&[
            ("pin_cpus", text("11,23")),
            ("pin_freq", RunValue::Integer(-5)),
            ("record_file", text("r.jsonl")),
            ("inner", RunValue::Other("[1, 2]".to_string())),
        ]),
        Some("SMT"),
    );
    let a = adapt(run, &profiles, &here, "0.2.0");
    assert_eq!(
        sorted(a.table.clone()),
        sorted(table(&[("inner", RunValue::Other("[1, 2]".to_string())), ("pin_cpus", text("smt"))]))
    );
    assert_eq!(
        a.notes,
        [
            "from the record: series s, label -, written by iiac-perf 0.1.0 on 3900x",
            "pin_cpus: 3900x's 11,23 was SMT, so this host's smt profile, 3,9",
            "cpu differs: AMD Ryzen 9 3900X 12-Core Processor on 3900x, unknown here",
            "rustc differs: rustc 1.98.0 on 3900x, rustc 1.99.0 here",
            "version differs: 0.1.0 on 3900x, 0.2.0 here",
        ]
    );
    assert_eq!(
        a.left_out,
        [
            (
                "pin_freq".to_string(),
                "the record pinned 3900x's clock at -5 MHz, and \"pin_mhz\" names this host's own"
                    .to_string()
            ),
            (
                "record_file".to_string(),
                "the record's record_file was \"r.jsonl\" on 3900x".to_string()
            ),
        ]
    );
    let unplaced = recorded(
        "s",
        table(&[("pin_cpus", text("0,6")), ("record_dir", RunValue::Other("[\"a\"]".to_string()))]),
        None,
    );
    let a = adapt(unplaced, &profiles, &here, "0.1.0");
    assert!(a.table.is_empty());
    assert_eq!(a.left_out[1].1, "the record's record_dir was [\"a\"] on 3900x");
    assert_eq!(
        a.left_out[0].1,
        "the record pinned 3900x's cpus 0,6, of unknown placement, and no profile names that placement"
    );
}

#[test]
fn a_left_out_key_gets_its_reason_above_it_in_either_carrier() {
    let note = vec!["the record pinned 3801 MHz".to_string()];
    let text = annotated(TEMPLATE, "pin_freq", &note);
    // A comment sets nothing: without it the text is the template again.
    assert_eq!(text.replace("# the record pinned 3801 MHz\n", ""), TEMPLATE);
    let at = text
        .find("# the record pinned 3801 MHz\n")
        .expect("the note is there");
    assert!(text[at..].lines().nth(1).unwrap().starts_with("#pin_freq"));
    assert!(to_toml(&text).contains("# the record pinned 3801 MHz\n"));
}

#[test]
fn a_note_goes_above_the_first_fenced_key_line_only() {
    let text = "#blocks = 1\n```toml\n# blocks = 2\n#blocks = 3\n#blocks = 4\n```\n";
    let note = vec!["first".to_string(), "second".to_string()];
    assert_eq!(
        annotated(text, "blocks", &note),
        "#blocks = 1\n```toml\n# blocks = 2\n# first\n# second\n#blocks = 3\n#blocks = 4\n```\n"
    );
    // A key no line sets leaves the text as it was.
    assert_eq!(annotated(text, "runs", &note), text);
}
