use iiac_perf::harness::{cpu_for, round_elapsed_ps, SeamClock, WarmExit};

#[test]
fn round_elapsed_ps_keeps_sub_ns_precision() {
    // 156 ns over 33 calls = 4.727 ns/call: recorded as 4,727 ps instead of the 5 ns that
    // ns-rounding gave.
    assert_eq!(round_elapsed_ps(156_000, 33), 4_727);
    // Saturates instead of overflowing on absurd inputs.
    assert_eq!(round_elapsed_ps(u128::MAX - 1, 1), u64::MAX);
}

#[test]
fn per_call_values_round_halves_up() {
    assert_eq!(round_elapsed_ps(3, 2), 2);
    assert_eq!(round_elapsed_ps(5, 4), 1);
    assert_eq!(round_elapsed_ps(6, 4), 2);
    assert_eq!(round_elapsed_ps(0, 7), 0);
}

#[test]
fn threads_wrap_around_the_pool() {
    assert_eq!(cpu_for(&[], 3), None);
    assert_eq!(cpu_for(&[4, 9], 0), Some(4));
    assert_eq!(cpu_for(&[4, 9], 1), Some(9));
    assert_eq!(cpu_for(&[4, 9], 2), Some(4));
}

#[test]
fn seam_reads_and_warm_exits_compare_by_value() {
    let a = SeamClock { t_ns: 1, cpu: 2, khz: 3 };
    assert_eq!(a, SeamClock { t_ns: 1, cpu: 2, khz: 3 });
    assert_ne!(WarmExit::Settled, WarmExit::Unstable);
    assert_ne!(WarmExit::Unstable, WarmExit::Uncertified);
}
