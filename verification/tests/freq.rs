use iiac_perf::freq::{boost_field, clock_stable, field_of, read_stats, FreqSample, PolicyField};

fn s(cpu: usize, khz: u64) -> Option<FreqSample> {
    Some(FreqSample { cpu, khz })
}

#[test]
fn the_window_stats_count_only_readable_samples() {
    assert_eq!(read_stats(&[]), (u64::MAX, 0, 0));
    assert_eq!(read_stats(&[None, s(2, 10), s(2, 30), None, s(2, 20)]), (10, 30, 3));
}

#[test]
fn a_still_single_core_clock_is_stable_and_a_moving_one_is_not() {
    assert!(clock_stable(&[s(0, 4_000_000), s(0, 3_960_000), s(0, 4_000_000)]));
    assert!(!clock_stable(&[s(0, 4_000_000), s(0, 3_959_999)]));
    assert!(!clock_stable(&[s(1, 3_000_000), s(1, 4_000_000)]));
}

#[test]
fn a_gap_a_migration_or_a_zero_clock_falls_back_to_timing_only() {
    assert!(clock_stable(&[s(0, 4_000_000), None, s(0, 2_000_000)]));
    assert!(clock_stable(&[s(0, 4_000_000), s(1, 2_000_000)]));
    assert!(clock_stable(&[s(0, 0), s(0, 0)]));
    assert!(clock_stable(&[]));
}

#[test]
fn a_policy_field_is_the_first_reading_and_whether_all_agree() {
    assert_eq!(field_of(&vec![]), None);
    let same = field_of(&vec!["powersave".to_string(), "powersave".to_string()]);
    assert_eq!(
        same,
        Some(PolicyField { value: "powersave".to_string(), uniform: true })
    );
    let mixed = field_of(&vec!["powersave".to_string(), "performance".to_string()]);
    assert_eq!(
        mixed,
        Some(PolicyField { value: "powersave".to_string(), uniform: false })
    );
}

#[test]
fn boost_prefers_the_per_cpu_files_then_the_global_knob() {
    let per = Some(PolicyField { value: "1".to_string(), uniform: false });
    assert_eq!(boost_field(per.clone(), Some("0\n".to_string())), per);
    assert_eq!(
        boost_field(None, Some("0\n".to_string())),
        Some(PolicyField { value: "0".to_string(), uniform: true })
    );
    assert_eq!(boost_field(None, None), None);
}

use iiac_perf::freq::cpu_ids;

#[test]
fn the_topology_entries_name_the_cpus_ascending() {
    let names: Vec<String> = ["cpu10", "cpufreq", "cpu2", "cpuidle", "cpu0", "online", "cpu1", "cpu+3"]
        .iter()
        .map(|n| n.to_string())
        .collect();
    assert_eq!(cpu_ids(&names), [0, 1, 2, 3, 10]);
    assert!(cpu_ids(&vec!["power".to_string()]).is_empty());
}
