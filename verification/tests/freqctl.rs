use iiac_perf::config::FreqConfig;
use iiac_perf::freqctl::{
    assess, cpu_list, ghz, pin_plan, resolve_pin, resolve_steady, restore_plan, state_line,
    suggest_start, suggest_step, SuggestAction,
    suggest_candidates, BaseClock, BoostKnob, BoxCaps, CpuCaps, CpuState, RunPin,
    SUGGEST_MAX_CANDIDATES,
};

/// A two-CPU box shaped like the 3900X: EPP, global boost, continuous range.
fn amd_caps() -> BoxCaps {
    BoxCaps {
        cpus: vec![
            CpuCaps {
                cpu: 0,
                hw_min_khz: 550_000,
                hw_max_khz: 3_800_000,
                avail_khz: None,
            },
            CpuCaps {
                cpu: 1,
                hw_min_khz: 550_000,
                hw_max_khz: 3_800_000,
                avail_khz: None,
            },
        ],
        has_epp: true,
        governors: Some(vec!["performance".into(), "powersave".into()]),
        epp_prefs: Some(vec!["performance".into(), "balance_performance".into()]),
        boost: BoostKnob::Global,
    }
}

/// A one-CPU box shaped like the Pi: no EPP, no boost, discrete frequencies.
fn pi_caps() -> BoxCaps {
    BoxCaps {
        cpus: vec![CpuCaps {
            cpu: 0,
            hw_min_khz: 1_500_000,
            hw_max_khz: 2_400_000,
            avail_khz: Some(vec![1_500_000, 2_400_000]),
        }],
        has_epp: false,
        governors: Some(vec!["ondemand".into(), "performance".into()]),
        epp_prefs: None,
        boost: BoostKnob::Absent,
    }
}

fn full_cfg() -> FreqConfig {
    FreqConfig {
        governor: "powersave".into(),
        epp: Some("balance_performance".into()),
        boost: Some(true),
        min_mhz: None,
        max_mhz: None,
        pin_mhz: None,
    }
}

#[test]
fn steady_refuses_with_no_config() {
    let err = resolve_steady(None, &amd_caps()).unwrap_err();
    assert!(err.contains("no [freq] steady state"), "got: {err}");
    assert!(err.contains("read-freq --as-config"), "got: {err}");
}

#[test]
fn steady_requires_the_knobs_the_box_has() {
    let mut cfg = full_cfg();
    cfg.epp = None;
    let err = resolve_steady(Some(&cfg), &amd_caps()).unwrap_err();
    assert!(err.contains("declare freq.epp"), "got: {err}");
    assert!(err.contains("balance_performance"), "got: {err}");

    let mut cfg = full_cfg();
    cfg.boost = None;
    let err = resolve_steady(Some(&cfg), &amd_caps()).unwrap_err();
    assert!(err.contains("declare freq.boost"), "got: {err}");
}

#[test]
fn steady_rejects_knobs_the_box_lacks() {
    let mut cfg = full_cfg();
    cfg.governor = "ondemand".into();
    let err = resolve_steady(Some(&cfg), &pi_caps()).unwrap_err();
    assert!(err.contains("freq.epp is declared"), "got: {err}");

    let mut cfg = full_cfg();
    cfg.epp = None;
    cfg.governor = "ondemand".into();
    let err = resolve_steady(Some(&cfg), &pi_caps()).unwrap_err();
    assert!(err.contains("freq.boost is declared"), "got: {err}");
}

#[test]
fn steady_validates_tokens_against_the_box() {
    let mut cfg = full_cfg();
    cfg.governor = "schedutil".into();
    let err = resolve_steady(Some(&cfg), &amd_caps()).unwrap_err();
    assert!(err.contains("schedutil"), "got: {err}");
    assert!(err.contains("performance, powersave"), "got: {err}");

    let mut cfg = full_cfg();
    cfg.epp = Some("power".into());
    let err = resolve_steady(Some(&cfg), &amd_caps()).unwrap_err();
    assert!(err.contains("freq.epp"), "got: {err}");
}

#[test]
fn steady_validates_clamps_against_the_range() {
    let mut cfg = full_cfg();
    cfg.max_mhz = Some(5000);
    let err = resolve_steady(Some(&cfg), &amd_caps()).unwrap_err();
    assert!(err.contains("outside cpu0's range"), "got: {err}");
    assert!(err.contains("550-3800"), "got: {err}");
}

#[test]
fn restore_plan_is_floor_first_and_complete() {
    let steady = resolve_steady(Some(&full_cfg()), &amd_caps()).unwrap();
    let plan = restore_plan(&steady, &amd_caps());
    let writes: Vec<(&str, &str)> = plan.iter().map(|(p, t)| (p.as_str(), t.as_str())).collect();
    // Governor and EPP lead, boost follows, then per-CPU staged clamps.
    assert_eq!(
        writes,
        vec![
            (
                "/sys/devices/system/cpu/cpu0/cpufreq/scaling_governor",
                "powersave"
            ),
            (
                "/sys/devices/system/cpu/cpu0/cpufreq/energy_performance_preference",
                "balance_performance"
            ),
            (
                "/sys/devices/system/cpu/cpu1/cpufreq/scaling_governor",
                "powersave"
            ),
            (
                "/sys/devices/system/cpu/cpu1/cpufreq/energy_performance_preference",
                "balance_performance"
            ),
            ("/sys/devices/system/cpu/cpufreq/boost", "1"),
            (
                "/sys/devices/system/cpu/cpu0/cpufreq/scaling_min_freq",
                "550000"
            ),
            (
                "/sys/devices/system/cpu/cpu0/cpufreq/scaling_max_freq",
                "3800000"
            ),
            (
                "/sys/devices/system/cpu/cpu0/cpufreq/scaling_min_freq",
                "550000"
            ),
            (
                "/sys/devices/system/cpu/cpu1/cpufreq/scaling_min_freq",
                "550000"
            ),
            (
                "/sys/devices/system/cpu/cpu1/cpufreq/scaling_max_freq",
                "3800000"
            ),
            (
                "/sys/devices/system/cpu/cpu1/cpufreq/scaling_min_freq",
                "550000"
            ),
        ]
    );
}

#[test]
fn pin_plan_pins_min_max_and_boost_off() {
    let plan = pin_plan(3_800_000, &amd_caps()).unwrap();
    assert_eq!(
        plan[0],
        (
            "/sys/devices/system/cpu/cpufreq/boost".to_string(),
            "0".to_string()
        )
    );
    // Per CPU: staged floor, then max, then min, all at the pin.
    assert_eq!(plan[1].1, "550000");
    assert_eq!(plan[2].1, "3800000");
    assert_eq!(plan[3].1, "3800000");
    assert_eq!(plan.len(), 1 + 2 * 3);
}

#[test]
fn pin_plan_validates_range_and_discrete_lists() {
    let err = pin_plan(5_000_000, &amd_caps()).unwrap_err();
    assert!(
        err.contains("outside cpu0's range 550-3800 MHz"),
        "got: {err}"
    );

    let err = pin_plan(2_000_000, &pi_caps()).unwrap_err();
    assert!(err.contains("discrete frequencies"), "got: {err}");
    assert!(err.contains("1500, 2400"), "got: {err}");

    assert!(pin_plan(2_400_000, &pi_caps()).is_ok());
}

#[test]
fn resolve_pin_precedence_is_cli_config_base() {
    let mut cfg = full_cfg();
    cfg.pin_mhz = Some(3600);
    let (khz, source) = resolve_pin(Some(&cfg), Some(3000), None).unwrap();
    assert_eq!(khz, 3_000_000);
    assert!(source.contains("command line"));
    let (khz, source) = resolve_pin(Some(&cfg), None, None).unwrap();
    assert_eq!(khz, 3_600_000);
    assert!(source.contains("pin_mhz"));
    assert!(resolve_pin(None, Some(0), None).is_err());
}

#[test]
fn suggest_candidates_descend_the_discrete_list() {
    let v = suggest_candidates(&pi_caps(), None).unwrap();
    assert_eq!(v, vec![2_400_000, 1_500_000]);
}

#[test]
fn suggest_candidates_step_down_from_the_base_clock() {
    let v = suggest_candidates(&amd_caps(), Some(3_800_000)).unwrap();
    assert_eq!(v[0], 3_800_000);
    assert_eq!(v[1], 3_700_000);
    assert_eq!(v.len(), SUGGEST_MAX_CANDIDATES);
    assert_eq!(*v.last().unwrap(), 2_700_000);
}

#[test]
fn suggest_candidates_need_a_base_on_continuous_drivers() {
    assert!(suggest_candidates(&amd_caps(), None).is_err());
}

#[test]
fn assess_holds_only_a_stable_on_target_series() {
    // Stable on target: held.
    let h = assess(&[3_790_000, 3_800_000, 3_800_000], 3_800_000).unwrap();
    assert!(h.held);
    // Stable but sagged below the target: not held.
    let h = assess(&[3_500_000, 3_500_000, 3_510_000], 3_800_000).unwrap();
    assert!(!h.held);
    // Median on target but unstable across the run: not held.
    let h = assess(&[3_400_000, 3_800_000, 3_800_000], 3_800_000).unwrap();
    assert!(!h.held);
    // Nothing sampled: unverifiable, never held.
    assert!(assess(&[], 3_800_000).is_none());
}

#[test]
fn cpu_list_compresses_runs() {
    assert_eq!(cpu_list(&[0, 1, 2, 3, 8]), "0-3,8");
    assert_eq!(cpu_list(&[5]), "5");
    assert_eq!(cpu_list(&[0, 2, 4]), "0,2,4");
}

#[test]
fn ghz_formats_two_decimals() {
    assert_eq!(ghz(3_800_000), "3.80");
    assert_eq!(ghz(550_000), "0.55");
}

#[test]
fn state_line_translates_boost_and_omits_absent_fields() {
    let state = CpuState {
        governor: Some("powersave".into()),
        epp: None,
        boost: Some("1".into()),
        min_khz: Some(550_000),
        max_khz: Some(3_800_000),
    };
    let line = state_line(&state, Some(("avg", 3_790_000)), "", None);
    assert!(line.starts_with("governor=powersave boost=on clamp=0.55-3.80GHz avg=3.79GHz"));
    assert!(!line.contains("epp="));
}

// ---- more cases ----

#[test]
fn the_full_steady_state_is_taken_over_in_khz() {
    let mut cfg = full_cfg();
    cfg.min_mhz = Some(1000);
    cfg.max_mhz = Some(3000);
    let s = resolve_steady(Some(&cfg), &amd_caps()).unwrap();
    assert_eq!(s.governor, "powersave");
    assert_eq!(s.epp.as_deref(), Some("balance_performance"));
    assert_eq!(s.boost, Some(true));
    assert_eq!((s.min_khz, s.max_khz), (Some(1_000_000), Some(3_000_000)));
}

#[test]
fn every_steady_refusal_reads_in_full() {
    let mut cfg = full_cfg();
    cfg.governor = "schedutil".into();
    assert_eq!(
        resolve_steady(Some(&cfg), &amd_caps()).unwrap_err(),
        "freq.governor \"schedutil\" is not available on this box (available: performance, powersave)"
    );
    let mut cfg = full_cfg();
    cfg.epp = None;
    assert_eq!(
        resolve_steady(Some(&cfg), &amd_caps()).unwrap_err(),
        "this box exposes energy_performance_preference: declare freq.epp (available: performance, balance_performance)"
    );
    let mut cfg = full_cfg();
    cfg.min_mhz = Some(100);
    assert_eq!(
        resolve_steady(Some(&cfg), &amd_caps()).unwrap_err(),
        "freq.min_mhz 100 MHz is outside cpu0's range 550-3800 MHz"
    );
}

#[test]
fn a_per_cpu_boost_writes_every_cpu() {
    let mut caps = amd_caps();
    caps.boost = BoostKnob::PerCpu;
    let plan = pin_plan(3_000_000, &caps).unwrap();
    assert_eq!(plan[0].0, "/sys/devices/system/cpu/cpu0/cpufreq/boost");
    assert_eq!(plan[1].0, "/sys/devices/system/cpu/cpu1/cpufreq/boost");
    assert_eq!(plan[0].1, "0");
    assert_eq!(plan.len(), 2 + 2 * 3);
    assert_eq!(
        plan[7],
        (
            "/sys/devices/system/cpu/cpu1/cpufreq/scaling_min_freq".to_string(),
            "3000000".to_string()
        )
    );
}

#[test]
fn the_base_clock_is_the_last_resort_and_a_missing_one_refuses() {
    let base = BaseClock {
        khz: 3_600_000,
        source: "base_frequency".to_string(),
    };
    let (khz, source) = resolve_pin(None, None, Some(&base)).unwrap();
    assert_eq!(khz, 3_600_000);
    assert_eq!(source, "base clock from base_frequency");
    let err = resolve_pin(Some(&full_cfg()), None, None).unwrap_err();
    assert!(err.starts_with("no pin target"), "got: {err}");
}

#[test]
fn a_discrete_list_is_deduplicated_and_capped() {
    let mut caps = pi_caps();
    let list: Vec<u64> = (0..20).map(|i| 1_000_000 + 100_000 * (i % 15)).collect();
    caps.cpus[0].avail_khz = Some(list);
    let v = suggest_candidates(&caps, None).unwrap();
    assert_eq!(v.len(), 12);
    assert_eq!(v[0], 2_400_000);
    assert_eq!(v[11], 1_300_000);
    assert!(v.windows(2).all(|w| w[0] > w[1]));
}

#[test]
fn the_candidates_are_as_many_as_the_distinct_values_or_rungs() {
    let mut caps = pi_caps();
    caps.cpus[0].avail_khz = Some(vec![1_500_000, 2_400_000, 1_500_000, 600_000, 2_400_000]);
    let v = suggest_candidates(&caps, None).unwrap();
    assert_eq!(v, vec![2_400_000, 1_500_000, 600_000]);
    let mut caps = amd_caps();
    caps.cpus[0].hw_min_khz = 3_550_000;
    let v = suggest_candidates(&caps, Some(3_800_000)).unwrap();
    assert_eq!(v, vec![3_800_000, 3_700_000, 3_600_000]);
    caps.cpus[0].hw_min_khz = 3_900_000;
    assert_eq!(suggest_candidates(&caps, Some(3_800_000)).unwrap(), Vec::<u64>::new());
}

#[test]
fn a_ladder_stops_at_the_floor() {
    let mut caps = amd_caps();
    caps.cpus[0].hw_min_khz = 3_500_000;
    let v = suggest_candidates(&caps, Some(4_000_000)).unwrap();
    assert_eq!(v, vec![3_800_000, 3_700_000, 3_600_000, 3_500_000]);
    let caps = BoxCaps {
        cpus: vec![],
        ..amd_caps()
    };
    assert_eq!(
        suggest_candidates(&caps, Some(1)).unwrap_err(),
        "no CPUs under /sys/devices/system/cpu"
    );
}

#[test]
fn assess_reports_the_order_statistics() {
    let h = assess(&[3_800_000, 3_700_000, 3_900_000, 3_750_000], 3_800_000).unwrap();
    assert_eq!(h.n, 4);
    assert_eq!((h.min_khz, h.med_khz, h.max_khz), (3_700_000, 3_800_000, 3_900_000));
    assert!(!h.held);
}

#[test]
fn ghz_rounds_to_the_nearest_hundredth() {
    assert_eq!(ghz(3_794_999), "3.79");
    assert_eq!(ghz(3_795_001), "3.80");
    assert_eq!(ghz(0), "0.00");
    assert_eq!(ghz(12_340_000), "12.34");
}

#[test]
fn ghz_rounds_the_double_it_divides() {
    assert_eq!(ghz(3_805_000), "3.81");
    assert_eq!(ghz(1_015_000), "1.01");
    assert_eq!(ghz(125_000), "0.12");
    assert_eq!(ghz(135_000), "0.14");
    assert_eq!(ghz(2_005_000), "2.00");
    assert_eq!(ghz(u64::MAX), "18446744073709.55");
}

#[test]
fn a_state_with_nothing_says_so_and_the_base_rides_the_line() {
    let empty = CpuState {
        governor: None,
        epp: None,
        boost: None,
        min_khz: None,
        max_khz: None,
    };
    assert_eq!(state_line(&empty, None, "", None), "cpufreq not exposed");
    let base = BaseClock {
        khz: 3_800_000,
        source: "cpuinfo".to_string(),
    };
    let state = CpuState {
        boost: Some("x".into()),
        ..empty
    };
    assert_eq!(
        state_line(&state, Some(("cur", 2_000_000)), "cpu0-3: ", Some(&base)),
        "cpu0-3: boost=x cur=2.00GHz base=3.80GHz(cpuinfo)"
    );
}

#[test]
fn engaging_plans_the_pin_and_carries_the_way_home() {
    let mut cfg = full_cfg();
    cfg.pin_mhz = Some(3000);
    let (pin, writes) = RunPin::engage(Some(&cfg), None, &amd_caps(), None).unwrap();
    assert_eq!(pin.khz, 3_000_000);
    assert_eq!(pin.source, "config pin_mhz");
    assert_eq!(writes, pin_plan(3_000_000, &amd_caps()).unwrap());
    let steady = resolve_steady(Some(&cfg), &amd_caps()).unwrap();
    assert_eq!(pin.restore, restore_plan(&steady, &amd_caps()));
    assert!(RunPin::engage(None, Some(3000), &amd_caps(), None).is_err());
}

use iiac_perf::freqctl::{as_config, caps_from, state_groups, state_lines, token_list, CpuRead};
use iiac_perf::text::words;

fn st(gov: &str, min: u64, max: u64) -> CpuState {
    CpuState {
        governor: Some(gov.to_string()),
        epp: None,
        boost: Some("1".to_string()),
        min_khz: Some(min),
        max_khz: Some(max),
    }
}

#[test]
fn token_lists_split_on_whitespace() {
    assert_eq!(words(" performance  powersave\n"), ["performance", "powersave"]);
    assert!(words("   ").is_empty());
    assert_eq!(token_list(Some("a\tb")), Some(vec!["a".to_string(), "b".to_string()]));
    assert_eq!(token_list(None), None);
}

#[test]
fn capabilities_come_from_what_the_files_said() {
    let reads = vec![
        CpuRead { cpu: 0, range: Some((550_000, 3_800_000)), avail_khz: None },
        CpuRead { cpu: 1, range: Some((550_000, 3_800_000)), avail_khz: Some(vec![1, 2]) },
    ];
    let caps = caps_from(reads, false, true, true, Some("performance powersave"), None).unwrap();
    assert_eq!(caps.cpus.len(), 2);
    assert_eq!(caps.cpus[1].avail_khz, Some(vec![1, 2]));
    assert_eq!(caps.boost, BoostKnob::Global);
    assert_eq!(caps.governors, Some(vec!["performance".to_string(), "powersave".to_string()]));
    assert_eq!(caps.epp_prefs, None);
    assert!(caps.has_epp);
    assert_eq!(
        caps_from(Vec::new(), true, true, true, None, None).unwrap_err(),
        "no CPUs under /sys/devices/system/cpu"
    );
    let reads = vec![
        CpuRead { cpu: 0, range: Some((1, 2)), avail_khz: None },
        CpuRead { cpu: 5, range: None, avail_khz: None },
    ];
    assert_eq!(
        caps_from(reads, true, false, false, None, None).unwrap_err(),
        "cpu5 exposes no cpufreq range (cpuinfo_min_freq/cpuinfo_max_freq): nothing to control"
    );
}

#[test]
fn cpus_group_by_state_in_sorted_order() {
    let cpus = vec![0, 1, 2, 3];
    let states = vec![
        st("powersave", 550_000, 3_800_000),
        st("performance", 550_000, 3_800_000),
        st("powersave", 550_000, 3_800_000),
        st("performance", 550_000, 3_800_000),
    ];
    let groups = state_groups(&cpus, &states);
    assert_eq!(groups.len(), 2);
    assert_eq!(groups[0].0.governor.as_deref(), Some("performance"));
    assert_eq!(groups[0].1, [1, 3]);
    assert_eq!(groups[1].1, [0, 2]);
    let cur = vec![Some(("avg".to_string(), 3_790_000)); 4];
    let lines = state_lines(&cpus, &states, &cur, None);
    assert_eq!(
        lines,
        [
            "cpu1,3: governor=performance boost=on clamp=0.55-3.80GHz avg=3.79GHz",
            "cpu0,2: governor=powersave boost=on clamp=0.55-3.80GHz avg=3.79GHz",
        ]
    );
    let one = state_lines(&vec![0, 1], &vec![st("g", 1_000_000, 2_000_000); 2], &vec![None, None], None);
    assert_eq!(one, ["governor=g boost=on clamp=1.00-2.00GHz"]);
    assert_eq!(state_lines(&Vec::new(), &Vec::new(), &Vec::new(), None), ["cpufreq not exposed"]);
}

#[test]
fn the_live_state_reads_back_as_a_freq_section() {
    let mut s = st("powersave", 550_000, 3_800_000);
    s.epp = Some("balance_performance".to_string());
    let base = BaseClock { khz: 3_800_000, source: "the cpuinfo table".to_string() };
    let lines = as_config(&vec![0, 1], &vec![s.clone(), s.clone()], Some((550_000, 4_673_000)), Some(&base)).unwrap();
    assert_eq!(
        lines,
        [
            "[freq]",
            "governor = \"powersave\"",
            "epp = \"balance_performance\"",
            "boost = true",
            "# min_mhz / max_mhz omitted: the hardware range (550-4673 MHz)",
            "# pin_mhz omitted: the base clock (3800 MHz from the cpuinfo table)",
        ]
    );
    let mut other = s.clone();
    other.boost = Some("x".to_string());
    let lines = as_config(&vec![4, 5], &vec![other, s.clone()], None, None).unwrap();
    assert_eq!(lines[1], "# cpu policy groups disagree: these are cpu4's values");
    assert_eq!(lines[4], "# boost token \"x\" unrecognized: declare boost by hand");
    assert_eq!(lines[5], "# pin_mhz: no base clock discoverable, declare one before pinning");
    let mut none = s;
    none.governor = None;
    assert_eq!(
        as_config(&vec![0], &vec![none], None, None).unwrap_err(),
        "cpufreq exposes no scaling_governor: nothing to declare"
    );
    assert_eq!(as_config(&Vec::new(), &Vec::new(), None, None).unwrap_err(), "no CPUs under /sys/devices/system/cpu");
}

/// Run the descent over `candidates`, each candidate's delivered series given.
fn descend(candidates: &Vec<u64>, series: &[Vec<u64>]) -> (SuggestAction, usize) {
    let mut step = suggest_start(candidates);
    let mut i = 0;
    while let SuggestAction::Pin(khz) = step {
        assert_eq!(khz, candidates[i]);
        let hold = assess(&series[i], khz);
        step = suggest_step(candidates, i, &hold);
        i += 1;
    }
    (step, i)
}

#[test]
fn the_descent_stops_at_the_highest_candidate_that_held() {
    let candidates = vec![3_800_000, 3_700_000, 3_600_000];
    let series = vec![
        vec![3_500_000, 3_500_000],
        vec![3_700_000, 3_700_000],
        vec![3_600_000, 3_600_000],
    ];
    assert_eq!(descend(&candidates, &series), (SuggestAction::Suggest(3_700_000), 2));
    let sagging = vec![vec![3_000_000], vec![], vec![3_000_000]];
    assert_eq!(descend(&candidates, &sagging), (SuggestAction::GiveUp, 3));
    assert_eq!(descend(&Vec::new(), &[]), (SuggestAction::GiveUp, 0));
}
