use iiac_perf::freq::FreqSample;
use iiac_perf::gauge::{dominant_cpu, dominant_cpu_only, filtered_clock_stable, score_letter};

fn s(cpu: usize, khz: u64) -> Option<FreqSample> {
    Some(FreqSample { cpu, khz })
}

#[test]
fn scores_map_to_letters_with_no_e() {
    let letters: Vec<char> = (0..6).map(score_letter).collect();
    assert_eq!(letters, ['A', 'B', 'C', 'D', 'F', 'F']);
    assert_eq!(score_letter(255), 'F');
}

#[test]
fn the_most_sampled_cpu_wins_and_ties_go_to_the_lowest_id() {
    let clock: Vec<_> = (0..16)
        .map(|i| if i % 4 == 0 { s(7, 3_200_000) } else { s(0, 4_090_000) })
        .collect();
    assert_eq!(dominant_cpu(&clock), Some(0));
    assert_eq!(dominant_cpu(&[s(5, 1), s(3, 1), None, s(5, 2), s(3, 2)]), Some(3));
    assert_eq!(dominant_cpu(&[None, None]), None);
    assert_eq!(dominant_cpu(&[]), None);
}

#[test]
fn other_cpus_samples_become_gaps_in_place() {
    let clock = vec![s(7, 3_200_000), s(0, 4_090_000), None, s(0, 4_100_000)];
    let only = dominant_cpu_only(&clock);
    assert_eq!(only, vec![None, s(0, 4_090_000), None, s(0, 4_100_000)]);
    assert_eq!(dominant_cpu_only(&[None]), vec![None]);
}

#[test]
fn the_filtered_gate_skips_gaps_and_needs_two_readings() {
    assert_eq!(filtered_clock_stable(&[s(0, 4_000_000), None]), None);
    assert_eq!(filtered_clock_stable(&[s(0, 0), s(0, 0)]), None);
    assert_eq!(
        filtered_clock_stable(&[s(0, 4_000_000), None, s(0, 3_960_000)]),
        Some(true)
    );
    assert_eq!(
        filtered_clock_stable(&[s(0, 4_000_000), None, s(0, 3_959_999)]),
        Some(false)
    );
    let wander = [s(0, 4_000_000), None, s(0, 3_520_000), None, s(0, 4_000_000)];
    assert_eq!(filtered_clock_stable(&wander), Some(false));
}
