use iiac_perf::host::{cache_from, cpu_model, mem_total_bytes, parse_size};

#[test]
fn cpuinfo_and_meminfo_parse_their_lines() {
    let cpuinfo = "processor\t: 0\nmodel name\t: AMD Ryzen 9 3900X 12-Core Processor\n";
    assert_eq!(
        cpu_model(cpuinfo).as_deref(),
        Some("AMD Ryzen 9 3900X 12-Core Processor")
    );
    assert_eq!(cpu_model(""), None);
    assert_eq!(
        mem_total_bytes("MemTotal:       32767688 kB\nMemFree: 1 kB\n"),
        Some(32_767_688 * 1024)
    );
    assert_eq!(mem_total_bytes("MemFree: 1 kB\n"), None);
}

#[test]
fn sizes_convert_their_suffix() {
    assert_eq!(parse_size("32K"), Some(32 * 1024));
    assert_eq!(parse_size("16384K"), Some(16384 * 1024));
    assert_eq!(parse_size("1M"), Some(1024 * 1024));
    assert_eq!(parse_size("64"), Some(64));
    assert_eq!(parse_size(""), None);
    assert_eq!(parse_size("K"), None);
}

#[test]
fn a_model_line_with_no_value_is_absent() {
    assert_eq!(cpu_model("model name\t:   \n"), None);
    assert_eq!(cpu_model("model name\n"), None);
    assert_eq!(cpu_model("x\nmodel name: A\nmodel name: B\n").as_deref(), Some("A"));
    assert_eq!(mem_total_bytes("MemTotal: lots kB\n"), None);
    assert_eq!(mem_total_bytes("MemTotal:\n"), None);
}

#[test]
fn a_gigabyte_suffix_and_a_bad_count() {
    assert_eq!(parse_size("2G"), Some(2 * 1024 * 1024 * 1024));
    assert_eq!(parse_size("12Q"), None);
    assert_eq!(parse_size("-1K"), None);
}

#[test]
fn a_cache_entry_needs_all_four_files() {
    let c = cache_from("1\n", "Data\n", "32K\n", "0,12\n").expect("whole");
    assert_eq!((c.level, c.kind.as_str(), c.size_bytes, c.shared_cpus.as_str()), (1, "Data", 32 * 1024, "0,12"));
    assert!(cache_from("x", "Data", "32K", "0").is_none());
    assert!(cache_from("1", "  ", "32K", "0").is_none());
    assert!(cache_from("1", "Data", "32", "").is_none());
    assert!(cache_from("1", "Data", "", "0").is_none());
}

use iiac_perf::host::{index_order, line_index, line_size, size_is_read, Cache};

fn names(ns: &[&str]) -> Vec<String> {
    ns.iter().map(|n| n.to_string()).collect()
}

#[test]
fn cache_indices_sort_by_number_with_the_unnumbered_first() {
    let got = index_order(&names(&["index10", "power", "index2", "indexx", "index0", "uevent", "index1"]));
    assert_eq!(got, ["indexx", "index0", "index1", "index2", "index10"]);
    assert!(index_order(&names(&["power"])).is_empty());
    // Equal numbers keep the order they were listed in.
    assert_eq!(index_order(&names(&["index01", "index1"])), ["index01", "index1"]);
}

#[test]
fn the_line_size_comes_from_l1_data_else_the_first_index() {
    let cache = |level: u32, kind: &str| Cache {
        level,
        kind: kind.to_string(),
        size_bytes: 1,
        shared_cpus: "0".to_string(),
    };
    let caches = vec![cache(1, "Instruction"), cache(1, "Data"), cache(2, "Unified")];
    assert_eq!(line_index(&caches, 4), Some(1));
    assert_eq!(line_index(&caches, 1), Some(0));
    assert_eq!(line_index(&vec![cache(2, "Unified")], 3), Some(0));
    assert_eq!(line_index(&caches, 0), None);
    assert_eq!(line_size("64\n"), Some(64));
    assert_eq!(line_size("4294967296"), None);
    assert_eq!(line_size(""), None);
}

#[test]
fn a_size_is_read_only_past_a_good_level_and_type() {
    assert!(size_is_read("1\n", "Data\n"));
    assert!(!size_is_read("x", "Data"));
    assert!(!size_is_read("1", "  "));
    assert!(!size_is_read("4294967296", "Data"));
}
