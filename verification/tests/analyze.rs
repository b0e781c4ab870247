use iiac_perf::analyze::{compare_hint, note_lines, padded, shown, side_names, widths, Sides};

#[test]
fn sides_parse_a_key_and_two_or_more_values() {
    let s = Sides::parse("condition=sleep, nosleep").unwrap();
    assert_eq!((s.key.as_str(), s.values.len()), ("condition", 2));
    assert!(Sides::parse("condition=sleep").is_err());
    assert!(Sides::parse("condition=").is_err());
    assert!(Sides::parse("=a,b").is_err());
    // A key alone is every value the records hold.
    let all = Sides::parse("bench").unwrap();
    assert_eq!((all.key.as_str(), all.values.len()), ("bench", 0));
}

#[test]
fn records_given_as_the_sides_get_the_line_to_run() {
    let spec = "records/knobs.jsonl";
    let benches = vec!["zcr-mpsc-2t".to_string(), "zcr-spsc-v3-2t".to_string()];
    let hint = compare_hint(spec, true, &benches).expect("a path is recognized");
    assert!(
        hint.contains(&format!("analyze {spec} --compare\n")),
        "{hint}"
    );
    assert!(hint.contains("zcr-spsc-v3-2t"), "{hint}");
    assert_eq!(compare_hint("condition=a,b", true, &benches), None);
    assert_eq!(compare_hint("no/such/path", false, &benches), None);
}

#[test]
fn sides_values_are_trimmed_and_empty_ones_dropped() {
    let s = Sides::parse(" bench = a , ,b ,c ").unwrap();
    assert_eq!(s.key, "bench");
    assert_eq!(s.values, ["a", "b", "c"]);
    let err = Sides::parse("bench=a").unwrap_err();
    assert_eq!(
        err,
        "'bench=a' is not KEY or KEY=A,B, as in condition=sleep,nosleep"
    );
    assert!(Sides::parse("  ").is_err());
    assert!(Sides::parse("k=,,").is_err());
}

#[test]
fn the_hint_names_the_benches_only_when_there_are_some() {
    let hint = compare_hint("r.jsonl", true, &Vec::new()).unwrap();
    assert_eq!(
        hint,
        "'r.jsonl' is records, and --compare takes the sides: name the records first, as in\n  \
         iiac-perf analyze r.jsonl --compare\n\
         which compares every bench, or --compare bench=A,B for two of them"
    );
    let hint = compare_hint("r.jsonl", true, &vec!["a".to_string(), "b".to_string()]).unwrap();
    assert!(hint.ends_with("\nIts benches: a, b"), "{hint}");
}

#[test]
fn the_host_column_shows_only_across_hosts() {
    let dims: Vec<String> = ["bench", "host", "condition"].iter().map(|s| s.to_string()).collect();
    assert_eq!(shown(&dims, true), [0, 1, 2]);
    assert_eq!(shown(&dims, false), [0, 2]);
}

#[test]
fn the_label_table_pads_to_the_widest_cell() {
    let heads: Vec<String> = vec!["bench".into(), "n".into()];
    let labels = vec![
        vec!["zcr-mpsc-2t".to_string(), "1".to_string()],
        vec!["a".to_string(), "1000".to_string()],
    ];
    let w = widths(&heads, &labels);
    assert_eq!(w, [13, 6]);
    let row = padded(&labels[1], &w);
    assert_eq!(row, "a            1000  ");
    // Fewer widths than values: as many as both give.
    assert_eq!(padded(&labels[0], &w[..1]), "zcr-mpsc-2t  ");
}

use iiac_perf::analyze::Plan;

fn specs(list: &[&str]) -> Vec<Sides> {
    list.iter().map(|s| Sides::parse(s).unwrap()).collect()
}

#[test]
fn repeated_compares_add_their_pairs_in_the_order_given() {
    let all = vec!["a".to_string()];
    // A against B and A against C, and nothing else.
    let plan = Plan::of(&specs(&["bench=a,b", "bench=a,c"]), &all).unwrap();
    assert_eq!(plan.values, ["a", "b", "c"]);
    assert_eq!(plan.steps, [(0, 1), (0, 2)]);
    // A ladder is each against the first and the one before, and a pair given twice is one.
    let plan = Plan::of(&specs(&["bench=a,b,c", "bench=a,b"]), &all).unwrap();
    assert_eq!(plan.steps, [(0, 1), (0, 2), (1, 2)]);
    // One analysis compares on one key.
    let err = Plan::of(&specs(&["bench=a,b", "cond=x,y"]), &all).unwrap_err();
    assert!(err.contains("different keys"), "{err}");
}

#[test]
fn a_key_alone_compares_every_value_the_records_hold() {
    let all: Vec<String> = vec!["v0".into(), "v1".into(), "v2".into()];
    let plan = Plan::of(&specs(&["bench"]), &all).unwrap();
    assert_eq!(plan.key, "bench");
    assert_eq!(plan.values, ["v0", "v1", "v2"]);
    assert_eq!(plan.steps, [(0, 1), (0, 2), (1, 2)]);
    let err = Plan::of(&specs(&["bench"]), &vec!["only".to_string()]).unwrap_err();
    assert_eq!(err, "the records hold 1 value of bench, only, and a comparison needs two");
    let err = Plan::of(&specs(&["bench"]), &Vec::new()).unwrap_err();
    assert_eq!(err, "the records hold 0 values of bench, , and a comparison needs two");
}

use iiac_perf::analyze::{alternating, differing, groups, invocations, pairing, value, values_in_order, Labels, Pairing};

fn inv(bench: &str, t_start: &str, tags: &[(&str, &str)]) -> Labels {
    Labels {
        series: "s".to_string(),
        bench: bench.to_string(),
        host: "h".to_string(),
        file: "f.jsonl".to_string(),
        tags: tags.iter().map(|(k, v)| (k.to_string(), v.to_string())).collect(),
        t_start: t_start.to_string(),
        params: Vec::new(),
    }
}

/// An invocation of `bench` run with `params`.
fn ran(bench: &str, params: &[(&str, &str)]) -> Labels {
    let mut l = inv(bench, "t", &[]);
    l.params = params.iter().map(|(k, v)| (k.to_string(), v.to_string())).collect();
    l
}

#[test]
fn the_sides_parameters_that_differ_are_named_and_the_bench_list_is_not() {
    let a = vec![ran("x", &[("blocks", "10"), ("benches", "x"), ("runs", "10")])];
    let b = vec![ran("x", &[("blocks", "100"), ("benches", "y"), ("runs", "10")])];
    assert_eq!(differing(&a, &b), ["blocks (10 / 100)"]);
}

#[test]
fn each_sides_values_are_listed_once_in_order_and_the_keys_in_order() {
    let a = vec![
        ran("x", &[("runs", "10"), ("blocks", "20")]),
        ran("x", &[("runs", "10"), ("blocks", "10"), ("record", "a.jsonl")]),
    ];
    let b = vec![
        ran("x", &[("runs", "5"), ("blocks", "10"), ("tags", "t")]),
        ran("x", &[("blocks", "20"), ("pin_cpus", "smt")]),
    ];
    assert_eq!(
        differing(&a, &b),
        ["pin_cpus ( / smt)", "runs (10 / 5)"]
    );
    assert!(differing(&a, &a).is_empty());
    assert!(differing(&vec![], &vec![]).is_empty());
}

#[test]
fn unnamed_sides_are_every_value_in_the_order_it_first_ran() {
    let invs = vec![
        inv("v1", "2026-01-01T00:00:02.000Z", &[]),
        inv("v0", "2026-01-01T00:00:01.000Z", &[]),
        inv("v0", "2026-01-01T00:01:01.000Z", &[]),
        inv("v2", "2026-01-01T00:00:03.000Z", &[]),
    ];
    assert_eq!(values_in_order(&invs, "bench"), ["v0", "v1", "v2"]);
}

#[test]
fn a_tag_absent_from_a_record_reads_as_a_dash() {
    let a = inv("b", "2026-01-01T00:00:01.000Z", &[("condition", "sleep")]);
    let b = inv("b", "2026-01-01T00:00:00.000Z", &[]);
    assert_eq!(value(&a, "condition"), "sleep");
    assert_eq!(value(&b, "condition"), "-");
    assert_eq!(value(&a, "host"), "h");
    assert_eq!(value(&a, "file"), "f.jsonl");
    assert_eq!(values_in_order(&vec![a, b], "condition"), ["-", "sleep"]);
    // One start shared: the values in their own order.
    let t = "2026-01-01T00:00:00.000Z";
    assert_eq!(values_in_order(&vec![inv("z", t, &[]), inv("a", t, &[])], "bench"), ["a", "z"]);
    assert!(values_in_order(&Vec::new(), "bench").is_empty());
}

/// An invocation of `series` that started at `t_start`.
fn stamped(series: &str, t_start: &str) -> Labels {
    let mut l = inv("x", t_start, &[]);
    l.series = series.to_string();
    l
}

#[test]
fn one_each_uses_the_claim_the_two_make_together() {
    let a = vec![stamped("s1", "2026-01-01T00:00:00.000Z")];
    let b = vec![stamped("s2", "2026-01-01T01:00:00.000Z")];
    let (how, pairs) = pairing(&a, &b).unwrap();
    assert_eq!(how, Pairing::OneEach);
    assert_eq!(pairs, [(0, 0)]);
    assert_eq!(how.text(), "one each");
}

#[test]
fn shared_series_pair_by_series_and_alternating_sides_as_neighbours() {
    // A ladder: both benches in each of three invocations.
    let a: Vec<Labels> = (0..3).map(|i| stamped(&format!("s{i}"), "2026-01-01T00:00:00.000Z")).collect();
    let b: Vec<Labels> = (0..3).map(|i| stamped(&format!("s{i}"), "2026-01-01T00:00:00.000Z")).collect();
    let (how, pairs) = pairing(&a, &b).unwrap();
    assert_eq!(how, Pairing::Series(3));
    assert_eq!(pairs, [(0, 0), (1, 1), (2, 2)]);
    // Alternating in time, A B A B, drift and all: neighbours pair.
    let times = ["00", "01", "02", "03"];
    let a: Vec<Labels> = [0, 2]
        .iter()
        .map(|&i| stamped(&format!("a{i}"), &format!("2026-01-01T00:{}:00.000Z", times[i])))
        .collect();
    let b: Vec<Labels> = [1, 3]
        .iter()
        .map(|&i| stamped(&format!("b{i}"), &format!("2026-01-01T00:{}:00.000Z", times[i])))
        .collect();
    assert_eq!(pairing(&a, &b).unwrap().0, Pairing::Alternating(2));
    // Not alternating, A A B B: the groups compare whole.
    let b2: Vec<Labels> = b
        .iter()
        .map(|i| Labels { t_start: "2026-01-01T01:00:00.000Z".to_string(), ..i.clone() })
        .collect();
    assert_eq!(pairing(&a, &b2).unwrap(), (Pairing::Groups(2, 2), vec![]));
}

#[test]
fn neighbours_pair_whichever_side_ran_first_and_a_trailing_one_is_dropped() {
    // B A B A B: pairs are (A, B) index pairs, the last B left over.
    let a = vec![stamped("a0", "t1"), stamped("a1", "t3")];
    let b = vec![stamped("b0", "t0"), stamped("b1", "t2"), stamped("b2", "t4")];
    assert_eq!(alternating(&a, &b), Some(vec![(0, 0), (1, 1)]));
    // One pair is too few.
    assert_eq!(alternating(&vec![stamped("a", "t0")], &vec![stamped("b", "t1")]), None);
    // Equal times keep A before B.
    let a = vec![stamped("a0", "t"), stamped("a1", "u")];
    let b = vec![stamped("b0", "t"), stamped("b1", "u")];
    assert_eq!(alternating(&a, &b), Some(vec![(0, 0), (1, 1)]));
    assert_eq!(pairing(&a, &vec![]), None);
}

#[test]
fn a_pairing_reads_as_its_kind_and_counts() {
    assert_eq!(Pairing::Series(3).text(), "series x3");
    assert_eq!(Pairing::Alternating(2).text(), "alternating x2");
    assert_eq!(Pairing::Groups(2, 5).text(), "groups 2/5");
    assert_eq!(Pairing::OneEach.text(), "one each");
}

#[test]
fn groups_come_in_key_order_and_keep_session_order_inside() {
    let invs = vec![
        inv("x", "t0", &[("condition", "quiet")]),
        inv("y", "t1", &[]),
        inv("x", "t2", &[("condition", "busy")]),
        inv("y", "t3", &[("condition", "quiet")]),
        inv("x", "t4", &[("condition", "quiet")]),
    ];
    let dims = vec!["condition".to_string()];
    let g = groups(&invs, &dims);
    let keys: Vec<Vec<String>> = g.iter().map(|(k, _)| k.clone()).collect();
    assert_eq!(keys, [vec!["-".to_string()], vec!["busy".to_string()], vec!["quiet".to_string()]]);
    let members: Vec<Vec<usize>> = g.iter().map(|(_, m)| m.clone()).collect();
    assert_eq!(members, [vec![1], vec![2], vec![0, 3, 4]]);
    // Two dimensions: the bench first, then the condition.
    let dims = vec!["bench".to_string(), "condition".to_string()];
    let g = groups(&invs, &dims);
    let keys: Vec<String> = g.iter().map(|(k, _)| k.join("/")).collect();
    assert_eq!(keys, ["x/busy", "x/quiet", "y/-", "y/quiet"]);
    assert_eq!(g[1].1, [0, 4]);
    // No dimensions: one group of everything.
    let g = groups(&invs, &vec![]);
    assert_eq!(g.len(), 1);
    assert_eq!(g[0].1, [0, 1, 2, 3, 4]);
    assert!(groups(&vec![], &dims).is_empty());
}

#[test]
fn runs_gather_into_invocations_in_session_order_and_run_order() {
    let run = |series: &str, bench: &str, file: &str, t_start: &str| {
        let mut l = inv(bench, t_start, &[]);
        l.series = series.to_string();
        l.file = file.to_string();
        l
    };
    let runs = vec![
        run("s2", "x", "b.jsonl", "t2b"),
        run("s1", "x", "a.jsonl", "t1"),
        run("s2", "x", "c.jsonl", "t2a"),
        run("s1", "y", "a.jsonl", "t1y"),
    ];
    let numbers = vec![2, 1, 1, 1];
    let got = invocations(&runs, &numbers);
    let keys: Vec<(String, String)> = got.iter().map(|(l, _)| (l.series.clone(), l.bench.clone())).collect();
    assert_eq!(
        keys,
        [
            ("s1".to_string(), "x".to_string()),
            ("s1".to_string(), "y".to_string()),
            ("s2".to_string(), "x".to_string()),
        ]
    );
    let order: Vec<Vec<usize>> = got.iter().map(|(_, r)| r.clone()).collect();
    assert_eq!(order, [vec![1], vec![3], vec![2, 0]]);
    // The first run by number gives the labels, the first read gives the file.
    assert_eq!(got[2].0.t_start, "t2a");
    assert_eq!(got[2].0.file, "b.jsonl");
    // Equal numbers keep the order they were read in.
    let same = invocations(&vec![run("s", "x", "f", "a"), run("s", "x", "f", "b")], &vec![3, 3]);
    assert_eq!(same[0].1, [0, 1]);
    assert!(invocations(&vec![], &vec![]).is_empty());
}

#[test]
fn sides_go_by_their_values_or_by_letters_and_a_legend() {
    let short = vec!["sleep".to_string(), "nosleep".to_string()];
    assert_eq!(side_names("condition", &short), (short.clone(), String::new()));
    let long = vec![
        "records/a-very-long-file-name.jsonl".to_string(),
        "b.jsonl".to_string(),
    ];
    let (names, legend) = side_names("record", &long);
    assert_eq!(names, ["A", "B"]);
    assert_eq!(
        legend,
        "A = record records/a-very-long-file-name.jsonl\nB = record b.jsonl\n\n"
    );
    let many: Vec<String> = (0..28).map(|i| format!("{i:0>25}")).collect();
    let (names, _) = side_names("k", &many);
    assert_eq!((names[25].as_str(), names[26].as_str(), names[27].as_str()), ("Z", "A", "B"));
}

#[test]
fn a_note_for_several_comparisons_prints_once() {
    let n = |note: &str, who: &str| (note.to_string(), who.to_string());
    let notes = vec![
        n("the sides ran differently: inner", "ice a -> b"),
        n("apart", "ice a -> b"),
        n("the sides ran differently: inner", "std a -> b"),
    ];
    assert_eq!(
        note_lines(&notes, 2),
        [
            "every comparison: the sides ran differently: inner",
            "ice a -> b: apart",
        ]
    );
    assert_eq!(
        note_lines(&notes, 3),
        [
            "ice a -> b, std a -> b: the sides ran differently: inner",
            "ice a -> b: apart",
        ]
    );
    assert_eq!(note_lines(&vec![n("x", "only")], 1), ["only: x"]);
    assert!(note_lines(&Vec::new(), 0).is_empty());
}
