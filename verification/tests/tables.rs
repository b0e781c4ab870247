use iiac_perf::tables::{filled_values, host_start, merged, run_table, Entry, HostFile};

type Table = Vec<(String, Entry<String>)>;

fn val(k: &str, v: &str) -> (String, Entry<String>) {
    (k.to_string(), Entry::Value(v.to_string()))
}

fn table(k: &str, entries: &[(&str, &str)]) -> (String, Entry<String>) {
    (
        k.to_string(),
        Entry::Table(entries.iter().map(|(a, b)| (a.to_string(), b.to_string())).collect()),
    )
}

/// A table as sorted `key = value` lines, a table's entries as `key.entry = value`, a later
/// entry for a key winning.
fn lines(t: &Table) -> Vec<String> {
    let mut out = std::collections::BTreeMap::new();
    for (k, e) in t {
        match e {
            Entry::Value(v) => {
                out.insert(k.clone(), v.clone());
            }
            Entry::Table(es) => {
                let mut inner = std::collections::BTreeMap::new();
                for (a, b) in es {
                    inner.insert(a.clone(), b.clone());
                }
                let joined: Vec<String> = inner.iter().map(|(a, b)| format!("{a}={b}")).collect();
                out.insert(k.clone(), format!("{{{}}}", joined.join(",")));
            }
        }
    }
    out.iter().map(|(k, v)| format!("{k} = {v}")).collect()
}

fn file(path: &str, table: Table, pin_freq_no: bool) -> HostFile<String> {
    HostFile { path: path.to_string(), table, pin_freq_no }
}

#[test]
fn the_hosts_run_keys_are_the_start_and_its_facts_are_not() {
    let xdg = file(
        "xdg/config.toml",
        vec![
            val("blocks", "50"),
            val("duration", "5"),
            val("pin_freq", "3801"),
            table("profiles", &[("smt", "\"0,12\"")]),
            table("freq", &[("governor", "\"powersave\"")]),
        ],
        false,
    );
    let local = file(
        "iiac-perf.toml",
        vec![
            val("blocks", "100"),
            val("block_warmup", "\"2ms\""),
            val("total_duration", "60"),
            val("pin_freq", "\"no\""),
        ],
        true,
    );
    let line = vec![val("block_warmup", "\"1ms\""), val("runs", "2")];
    let keys: Vec<String> = line.iter().map(|(k, _)| k.clone()).collect();
    let (start, taken) = host_start(vec![xdg, local], &keys);
    let c = filled_values(Some(start), line).unwrap();
    // The nearer file wins, its duration choice clears the other, and its "no" leaves the
    // lower file's pin standing, as the loader has them.
    assert_eq!(
        lines(&c),
        [
            "block_warmup = \"1ms\"",
            "blocks = 100",
            "pin_freq = 3801",
            "runs = 2",
            "total_duration = 60",
        ]
    );
    // Each file is named with what came from it, and nothing the line or a nearer file set.
    assert_eq!(taken.len(), 2, "got: {taken:?}");
    assert!(taken[0].ends_with("config.toml: pin_freq"), "got: {taken:?}");
    assert!(
        taken[1].ends_with("iiac-perf.toml: blocks, total_duration"),
        "got: {taken:?}"
    );
    assert_eq!(taken[0], "from xdg/config.toml: pin_freq");
}

#[test]
fn a_runs_table_is_its_files_keys_and_the_lines_over_them() {
    let f = file(
        "iiac-perf.toml",
        vec![
            val("blocks", "10"),
            val("pin_cpus", "\"smt\""),
            val("record_dir", "\"runs\""),
            table("profiles", &[("smt", "\"0,12\"")]),
        ],
        false,
    );
    let line = vec![val("blocks", "20"), val("record_file", "\"r.jsonl\"")];
    let run = run_table(vec![f], line);
    assert_eq!(
        lines(&run),
        ["blocks = 20", "pin_cpus = \"smt\"", "record_file = \"r.jsonl\""]
    );
}

#[test]
fn the_lines_values_go_over_the_files() {
    let old = vec![
        val("total_duration", "60"),
        val("blocks", "100"),
        table("tags", &[("host", "\"a\""), ("run", "\"1\"")]),
    ];
    let line = vec![
        val("duration", "0.5"),
        val("pin_freq", "\"pin_mhz\""),
        table("tags", &[("run", "\"2\"")]),
    ];
    let c = merged(old, line);
    assert_eq!(
        lines(&c),
        [
            "blocks = 100",
            "duration = 0.5",
            "pin_freq = \"pin_mhz\"",
            "tags = {host=\"a\",run=\"2\"}",
        ]
    );
    // The line alone, no file, and nothing at all.
    let alone = filled_values(None, vec![val("blocks", "10")]).unwrap();
    assert_eq!(lines(&alone), ["blocks = 10"]);
    assert_eq!(filled_values::<String>(None, Vec::new()), None);
    // The record modes are one choice as the durations are.
    let c = filled_values(
        Some(vec![val("record_dir", "\"runs\"")]),
        vec![val("record_file", "\"r.jsonl\"")],
    )
    .unwrap();
    assert_eq!(lines(&c), ["record_file = \"r.jsonl\""]);
}

#[test]
fn a_value_over_a_table_replaces_it_and_a_table_over_a_value_too() {
    let c = merged(
        vec![table("tags", &[("a", "1")]), val("pin_cpus", "\"0,1\"")],
        vec![val("tags", "\"x\""), table("pin_cpus", &[("b", "2")])],
    );
    assert_eq!(lines(&c), ["pin_cpus = {b=2}", "tags = \"x\""]);
    // A line setting both sides of a choice keeps both, the file's cleared.
    let c = merged(
        vec![val("duration", "1"), val("total_duration", "2")],
        vec![val("duration", "3"), val("total_duration", "4")],
    );
    assert_eq!(lines(&c), ["duration = 3", "total_duration = 4"]);
}

#[test]
fn the_same_line_twice_is_the_line_once() {
    let old = || {
        vec![
            val("total_duration", "60"),
            val("blocks", "100"),
            table("tags", &[("host", "\"a\""), ("run", "\"1\"")]),
        ]
    };
    let line = || vec![val("duration", "0.5"), table("tags", &[("run", "\"2\"")])];
    let once = merged(old(), line());
    let twice = merged(merged(old(), line()), line());
    assert_eq!(lines(&once), lines(&twice));
}
