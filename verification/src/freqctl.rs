//! CPU-frequency control: the plans behind `pin-freq`, `restore-freq`, `suggest-freq` and the
//! `--pin-freq` run guard, and the lines `read-freq` prints.
//!
//! Writes are staged as ordered **plans** of (path, token) pairs because cpufreq rejects
//! `min > max`: every clamp move goes floor-first (min to the hardware floor, then max, then
//! min), so each intermediate write is valid from any starting state. A pin is `min = max` at
//! the target with boost off. Restore converges to a steady state the user *declared* in the
//! config's `[freq]` section, validated here against what the box exposes.
//!
//! Reading sysfs and executing a plan are the caller's: everything here is decided from values.

use vstd::prelude::*;
use vstd::relations::{sorted_by, total_ordering};
use vstd::arithmetic::power2::{
    pow2, lemma2_to64, lemma2_to64_rest, lemma_pow2_adds, lemma_pow2_pos,
    lemma_pow2_strictly_increases, lemma_pow2_unfold,
};
use vstd::seq_lib::seq_to_set_is_finite;
use vstd::set_lib::{lemma_int_range, lemma_len_subset, set_int_range};
use vstd::arithmetic::div_mod::{
    lemma_div_is_ordered, lemma_div_is_ordered_by_denominator, lemma_multiply_divide_lt,
};
use crate::config::{freq_fault, FreqConfig};
use crate::text::{
    debug_quote, debug_quoted, decimal, digit, digit_char, join, joined, push_char, push_decimal,
    push_str, string_of, two_digits, contains_string, words, words_from, less_text, str_eq,
    text_lt, lemma_text_lt_irreflexive, lemma_text_lt_transitive, lemma_text_lt_total,
};

verus! {

/// An ordered plan as its text: (path, token) pairs.
pub type PlanView = Seq<(Seq<char>, Seq<char>)>;

/// An ordered list of sysfs writes: (absolute path, token). Order is load-bearing.
pub type Plan = Vec<(String, String)>;

/// Which boost control the box exposes, decided once at capability read.
#[derive(Debug, Clone, Copy, PartialEq, Eq, Structural)]
pub enum BoostKnob {
    /// No boost control at all.
    Absent,
    /// Per-CPU `cpufreq/boost` files.
    PerCpu,
    /// The single global `cpufreq/boost` file.
    Global,
}

/// One CPU's write targets and validation data.
#[derive(Debug, Clone, PartialEq, Eq)]
pub struct CpuCaps {
    /// The logical CPU number.
    pub cpu: usize,
    /// `cpuinfo_min_freq` (kHz): the hardware floor, and the staging value for clamp moves.
    pub hw_min_khz: u64,
    /// `cpuinfo_max_freq` (kHz): the hardware ceiling.
    pub hw_max_khz: u64,
    /// Discrete `scaling_available_frequencies` (kHz) where the driver lists them, `None` on
    /// continuous-range drivers.
    pub avail_khz: Option<Vec<u64>>,
}

/// What the box exposes: write targets plus the data that validates a declared state.
#[derive(Debug, Clone, PartialEq, Eq)]
pub struct BoxCaps {
    /// Per-CPU capabilities, ascending by CPU.
    pub cpus: Vec<CpuCaps>,
    /// Whether `energy_performance_preference` exists.
    pub has_epp: bool,
    /// `scaling_available_governors`, when readable.
    pub governors: Option<Vec<String>>,
    /// `energy_performance_available_preferences`, when readable.
    pub epp_prefs: Option<Vec<String>>,
    /// Which boost control exists.
    pub boost: BoostKnob,
}

/// The declared steady state, validated against the box: what `restore-freq` converges to.
#[derive(Debug, Clone, PartialEq, Eq)]
pub struct Steady {
    /// The declared governor token.
    pub governor: String,
    /// The declared EPP token, present exactly when the box has EPP.
    pub epp: Option<String>,
    /// The declared boost switch, present exactly when the box has a boost knob.
    pub boost: Option<bool>,
    /// Declared lower clamp (kHz), `None` meaning each CPU's hardware floor.
    pub min_khz: Option<u64>,
    /// Declared upper clamp (kHz), `None` meaning each CPU's hardware ceiling.
    pub max_khz: Option<u64>,
}

/// The box's base clock: the manufacturer's guaranteed all-core sustained frequency, and the
/// file or table it was read from.
#[derive(Debug, Clone, PartialEq, Eq)]
pub struct BaseClock {
    /// The base clock (kHz).
    pub khz: u64,
    /// Where it was read from, as a phrase.
    pub source: String,
}

// ---------------------------------------------------------------------------------------------
// Paths and single writes.
// ---------------------------------------------------------------------------------------------

/// Path of one per-CPU cpufreq knob.
pub open spec fn knob_path(cpu: nat, name: Seq<char>) -> Seq<char> {
    "/sys/devices/system/cpu/cpu"@ + decimal(cpu) + "/cpufreq/"@ + name
}

/// The kernel's single boost knob when the driver has no per-CPU `boost` files.
pub open spec fn global_boost_path() -> Seq<char> {
    "/sys/devices/system/cpu/cpufreq/boost"@
}

/// Path of one per-CPU cpufreq knob.
pub fn knob(cpu: usize, name: &str) -> (r: String)
    ensures
        r@ == knob_path(cpu as nat, name@),
{
    let mut s = string_of("/sys/devices/system/cpu/cpu");
    push_decimal(&mut s, cpu as u64);
    push_str(&mut s, "/cpufreq/");
    push_str(&mut s, name);
    s
}

/// The global boost knob's path.
pub fn global_boost() -> (r: String)
    ensures
        r@ == global_boost_path(),
{
    string_of("/sys/devices/system/cpu/cpufreq/boost")
}

/// The boost token for a switch.
pub open spec fn boost_token(enabled: bool) -> Seq<char> {
    if enabled {
        "1"@
    } else {
        "0"@
    }
}

/// The writes concatenated over `cpus` in order, `f` giving each CPU's.
pub open spec fn each_cpu(cpus: Seq<CpuCaps>, f: spec_fn(CpuCaps) -> PlanView) -> PlanView
    decreases cpus.len(),
{
    if cpus.len() == 0 {
        Seq::empty()
    } else {
        each_cpu(cpus.drop_last(), f) + f(cpus.last())
    }
}

/// One more CPU's writes onto a prefix's.
pub proof fn lemma_each_cpu_step(cpus: Seq<CpuCaps>, f: spec_fn(CpuCaps) -> PlanView, i: int)
    requires
        0 <= i < cpus.len(),
    ensures
        each_cpu(cpus.take(i + 1), f) == each_cpu(cpus.take(i), f) + f(cpus[i]),
{
    assert(cpus.take(i + 1).drop_last() =~= cpus.take(i));
}

/// The boost writes for `enabled`, empty when the box has no knob.
pub open spec fn spec_boost_writes(caps: BoxCaps, enabled: bool) -> PlanView {
    match caps.boost {
        BoostKnob::Absent => Seq::empty(),
        BoostKnob::Global => seq![(global_boost_path(), boost_token(enabled))],
        BoostKnob::PerCpu => each_cpu(
            caps.cpus@,
            |c: CpuCaps| seq![(knob_path(c.cpu as nat, "boost"@), boost_token(enabled))],
        ),
    }
}

/// The boost writes for `enabled`, empty when the box has no knob.
pub fn boost_writes(caps: &BoxCaps, enabled: bool) -> (r: Plan)
    ensures
        r.deep_view() == spec_boost_writes(*caps, enabled),
{
    let token = if enabled {
        "1"
    } else {
        "0"
    };
    let mut plan: Plan = Vec::new();
    match caps.boost {
        BoostKnob::Absent => {},
        BoostKnob::Global => {
            plan.push((global_boost(), string_of(token)));
        },
        BoostKnob::PerCpu => {
            let ghost f = |c: CpuCaps| seq![(knob_path(c.cpu as nat, "boost"@), boost_token(enabled))];
            let mut i: usize = 0;
            while i < caps.cpus.len()
                invariant
                    i <= caps.cpus.len(),
                    token@ == boost_token(enabled),
                    f == (|c: CpuCaps| seq![(knob_path(c.cpu as nat, "boost"@), boost_token(enabled))]),
                    plan.deep_view() == each_cpu(caps.cpus@.take(i as int), f),
                decreases caps.cpus.len() - i,
            {
                proof {
                    lemma_each_cpu_step(caps.cpus@, f, i as int);
                }
                let ghost before = plan.deep_view();
                plan.push((knob(caps.cpus[i].cpu, "boost"), string_of(token)));
                assert(f(caps.cpus@[i as int]) == seq![(knob_path(caps.cpus@[i as int].cpu as nat, "boost"@), boost_token(enabled))]);
                assert(plan.deep_view() =~= before + f(caps.cpus@[i as int]));
                assert(plan.deep_view() =~= each_cpu(caps.cpus@.take(i + 1), f));
                i = i + 1;
            }
            assert(caps.cpus@.take(caps.cpus.len() as int) =~= caps.cpus@);
        },
    }
    assert(plan.deep_view() =~= spec_boost_writes(*caps, enabled));
    plan
}

/// The clamp writes taking one CPU from any state to `[min_khz, max_khz]`, floor-first.
pub open spec fn spec_clamp_writes(c: CpuCaps, min_khz: u64, max_khz: u64) -> PlanView {
    seq![
        (knob_path(c.cpu as nat, "scaling_min_freq"@), decimal(c.hw_min_khz as nat)),
        (knob_path(c.cpu as nat, "scaling_max_freq"@), decimal(max_khz as nat)),
        (knob_path(c.cpu as nat, "scaling_min_freq"@), decimal(min_khz as nat)),
    ]
}

/// The clamp writes taking one CPU from any state to `[min_khz, max_khz]`, floor-first so every
/// intermediate write is valid.
pub fn clamp_writes(c: &CpuCaps, min_khz: u64, max_khz: u64) -> (r: Plan)
    ensures
        r.deep_view() == spec_clamp_writes(*c, min_khz, max_khz),
{
    let mut plan: Plan = Vec::new();
    let mut t0 = String::new();
    push_decimal(&mut t0, c.hw_min_khz);
    plan.push((knob(c.cpu, "scaling_min_freq"), t0));
    let mut t1 = String::new();
    push_decimal(&mut t1, max_khz);
    plan.push((knob(c.cpu, "scaling_max_freq"), t1));
    let mut t2 = String::new();
    push_decimal(&mut t2, min_khz);
    plan.push((knob(c.cpu, "scaling_min_freq"), t2));
    assert(plan.deep_view() =~= spec_clamp_writes(*c, min_khz, max_khz));
    plan
}

/// Append every write of `more` to `plan`.
fn extend_plan(plan: &mut Plan, more: Plan)
    ensures
        final(plan).deep_view() == old(plan).deep_view() + more.deep_view(),
{
    let mut more = more;
    let ghost a = plan.deep_view();
    let ghost b = more.deep_view();
    plan.append(&mut more);
    assert(plan.deep_view() =~= a + b);
}

// ---------------------------------------------------------------------------------------------
// Restore and pin plans.
// ---------------------------------------------------------------------------------------------

/// One CPU's governor and EPP writes.
pub open spec fn governor_writes(s: Steady) -> spec_fn(CpuCaps) -> PlanView {
    |c: CpuCaps|
        {
            let g = seq![(knob_path(c.cpu as nat, "scaling_governor"@), s.governor@)];
            match s.epp {
                Some(e) => g.push((knob_path(c.cpu as nat, "energy_performance_preference"@), e@)),
                None => g,
            }
        }
}

/// One CPU's clamp writes converging it to the steady state's clamps, a missing clamp being
/// that CPU's hardware limit.
pub open spec fn restore_clamps(s: Steady) -> spec_fn(CpuCaps) -> PlanView {
    |c: CpuCaps|
        spec_clamp_writes(
            c,
            match s.min_khz {
                Some(k) => k,
                None => c.hw_min_khz,
            },
            match s.max_khz {
                Some(k) => k,
                None => c.hw_max_khz,
            },
        )
}

/// The plan converging the box to `steady`: governor and EPP first, then boost, then the
/// clamps.
pub open spec fn spec_restore_plan(s: Steady, caps: BoxCaps) -> PlanView {
    each_cpu(caps.cpus@, governor_writes(s)) + match s.boost {
        Some(e) => spec_boost_writes(caps, e),
        None => Seq::empty(),
    } + each_cpu(caps.cpus@, restore_clamps(s))
}

/// The plan converging the box to `steady`: governor and EPP first (amd-pstate ties the legal
/// EPP values to the governor), then boost, then the clamps.
pub fn restore_plan(steady: &Steady, caps: &BoxCaps) -> (r: Plan)
    ensures
        r.deep_view() == spec_restore_plan(*steady, *caps),
{
    let mut plan: Plan = Vec::new();
    let ghost g = governor_writes(*steady);
    let mut i: usize = 0;
    while i < caps.cpus.len()
        invariant
            i <= caps.cpus.len(),
            g == governor_writes(*steady),
            plan.deep_view() == each_cpu(caps.cpus@.take(i as int), g),
        decreases caps.cpus.len() - i,
    {
        proof {
            lemma_each_cpu_step(caps.cpus@, g, i as int);
        }
        let cpu = caps.cpus[i].cpu;
        plan.push((knob(cpu, "scaling_governor"), steady.governor.clone()));
        if let Some(epp) = &steady.epp {
            plan.push((knob(cpu, "energy_performance_preference"), epp.clone()));
        }
        assert(plan.deep_view() =~= each_cpu(caps.cpus@.take(i + 1), g));
        i = i + 1;
    }
    assert(caps.cpus@.take(caps.cpus.len() as int) =~= caps.cpus@);
    let ghost p1 = plan.deep_view();
    if let Some(enabled) = steady.boost {
        extend_plan(&mut plan, boost_writes(caps, enabled));
    }
    let ghost p2 = plan.deep_view();
    let ghost rc = restore_clamps(*steady);
    let mut i: usize = 0;
    while i < caps.cpus.len()
        invariant
            i <= caps.cpus.len(),
            rc == restore_clamps(*steady),
            plan.deep_view() == p2 + each_cpu(caps.cpus@.take(i as int), rc),
        decreases caps.cpus.len() - i,
    {
        proof {
            lemma_each_cpu_step(caps.cpus@, rc, i as int);
        }
        let c = &caps.cpus[i];
        let min_khz = match steady.min_khz {
            Some(k) => k,
            None => c.hw_min_khz,
        };
        let max_khz = match steady.max_khz {
            Some(k) => k,
            None => c.hw_max_khz,
        };
        extend_plan(&mut plan, clamp_writes(c, min_khz, max_khz));
        assert(plan.deep_view() =~= p2 + each_cpu(caps.cpus@.take(i + 1), rc));
        i = i + 1;
    }
    assert(plan.deep_view() =~= spec_restore_plan(*steady, *caps));
    plan
}

/// One clamp write as a move: the end it sets (`true` for the floor, `scaling_min_freq`;
/// `false` for the ceiling, `scaling_max_freq`) and the kHz value written.
pub type ClampMove = (bool, u64);

/// The moves of [`clamp_writes`], in order: the floor to the hardware floor, the ceiling to its
/// target, the floor to its target.
pub open spec fn clamp_moves(c: CpuCaps, min_khz: u64, max_khz: u64) -> Seq<ClampMove> {
    seq![(true, c.hw_min_khz), (false, max_khz), (true, min_khz)]
}

/// A move as the write a plan holds: the knob's path and the value's decimal token.
pub open spec fn move_write(c: CpuCaps) -> spec_fn(ClampMove) -> (Seq<char>, Seq<char>) {
    |m: ClampMove|
        (
            knob_path(
                c.cpu as nat,
                if m.0 {
                    "scaling_min_freq"@
                } else {
                    "scaling_max_freq"@
                },
            ),
            decimal(m.1 as nat),
        )
}

/// A CPU's clamp pair `(floor, ceiling)` as cpufreq allows it: ordered, within the hardware
/// range.
pub open spec fn valid_clamps(c: CpuCaps, lo: u64, hi: u64) -> bool {
    c.hw_min_khz <= lo <= hi <= c.hw_max_khz
}

/// cpufreq's rule for one clamp write onto the pair `state`: the value must lie in the hardware
/// range and leave the floor no higher than the ceiling, else the write is refused (`None`).
pub open spec fn apply_move(c: CpuCaps, state: (u64, u64), m: ClampMove) -> Option<(u64, u64)> {
    if m.1 < c.hw_min_khz || m.1 > c.hw_max_khz {
        None
    } else if m.0 {
        if m.1 <= state.1 {
            Some((m.1, state.1))
        } else {
            None
        }
    } else {
        if state.0 <= m.1 {
            Some((state.0, m.1))
        } else {
            None
        }
    }
}

/// The pair after `moves` in order from `state`, `None` when any write is refused.
pub open spec fn apply_moves(c: CpuCaps, state: (u64, u64), moves: Seq<ClampMove>) -> Option<
    (u64, u64),
>
    decreases moves.len(),
{
    if moves.len() == 0 {
        Some(state)
    } else {
        match apply_move(c, state, moves[0]) {
            Some(next) => apply_moves(c, next, moves.drop_first()),
            None => None,
        }
    }
}

/// Floor-first clamp writes are valid from any starting state: whatever pair cpufreq holds, the
/// writes [`clamp_writes`] plans for a target inside the hardware range are each accepted, in
/// order, and leave the CPU at exactly the target pair.
pub proof fn clamp_writes_hold_from_any_state(c: CpuCaps, min_khz: u64, max_khz: u64, lo: u64, hi: u64)
    requires
        valid_clamps(c, lo, hi),
        valid_clamps(c, min_khz, max_khz),
    ensures
        spec_clamp_writes(c, min_khz, max_khz) == clamp_moves(c, min_khz, max_khz).map_values(
            move_write(c),
        ),
        apply_moves(c, (lo, hi), clamp_moves(c, min_khz, max_khz)) == Some((min_khz, max_khz)),
{
    let moves = clamp_moves(c, min_khz, max_khz);
    assert(spec_clamp_writes(c, min_khz, max_khz) =~= moves.map_values(move_write(c)));
    let s1 = (c.hw_min_khz, hi);
    let s2 = (c.hw_min_khz, max_khz);
    assert(apply_move(c, (lo, hi), moves[0]) == Some(s1));
    assert(apply_move(c, s1, moves.drop_first()[0]) == Some(s2));
    assert(apply_move(c, s2, moves.drop_first().drop_first()[0]) == Some((min_khz, max_khz)));
    let m1 = moves.drop_first();
    let m2 = m1.drop_first();
    let m3 = m2.drop_first();
    assert(m3 =~= Seq::<ClampMove>::empty());
    assert(apply_moves(c, (min_khz, max_khz), m3) == Some((min_khz, max_khz)));
    assert(apply_moves(c, s2, m2) == Some((min_khz, max_khz)));
    assert(apply_moves(c, s1, m1) == Some((min_khz, max_khz)));
}

/// The pair a CPU's restore moves it to: the declared clamps, a missing one being the CPU's
/// hardware limit.
pub open spec fn restore_target(s: Steady, c: CpuCaps) -> (u64, u64) {
    (
        match s.min_khz {
            Some(k) => k,
            None => c.hw_min_khz,
        },
        match s.max_khz {
            Some(k) => k,
            None => c.hw_max_khz,
        },
    )
}

/// A search that finds no fault found none at any CPU.
pub proof fn lemma_no_fault_anywhere(cpus: Seq<CpuCaps>, f: spec_fn(CpuCaps) -> Option<Seq<char>>, i: int)
    requires
        first_fault(cpus, f) is None,
        0 <= i < cpus.len(),
    ensures
        f(cpus[i]) is None,
    decreases cpus.len(),
{
    if i > 0 {
        lemma_no_fault_anywhere(cpus.drop_first(), f, i - 1);
        assert(cpus.drop_first()[i - 1] == cpus[i]);
    }
}

/// Restore converges to the declared state from any starting point, and is idempotent: for a
/// `[freq]` table that passes its own checks and the box's, every CPU's restore writes are
/// accepted from whatever clamp pair it holds, end at the declared pair, and, run again from
/// there, leave it where it is. Nothing about the start is remembered or needed.
pub proof fn restore_converges_from_any_state(cfg: FreqConfig, caps: BoxCaps, i: int, lo: u64, hi: u64)
    requires
        freq_fault(cfg) is None,
        mhz_fits(cfg.min_mhz),
        mhz_fits(cfg.max_mhz),
        spec_resolve_steady(Some(cfg), caps) is Ok,
        0 <= i < caps.cpus.len(),
        valid_clamps(caps.cpus@[i], lo, hi),
    ensures
        ({
            let s = spec_resolve_steady(Some(cfg), caps)->Ok_0;
            let c = caps.cpus@[i];
            let t = restore_target(s, c);
            &&& (restore_clamps(s))(c) == clamp_moves(c, t.0, t.1).map_values(move_write(c))
            &&& apply_moves(c, (lo, hi), clamp_moves(c, t.0, t.1)) == Some(t)
            &&& apply_moves(c, t, clamp_moves(c, t.0, t.1)) == Some(t)
        }),
{
    let s = spec_resolve_steady(Some(cfg), caps)->Ok_0;
    let c = caps.cpus@[i];
    let t = restore_target(s, c);
    let f = clamp_fault(khz_of(cfg.min_mhz), khz_of(cfg.max_mhz));
    lemma_no_fault_anywhere(caps.cpus@, f, i);
    assert(f(c) is None);
    assert(valid_clamps(c, t.0, t.1));
    clamp_writes_hold_from_any_state(c, t.0, t.1, lo, hi);
    clamp_writes_hold_from_any_state(c, t.0, t.1, t.0, t.1);
}

/// One CPU's capability files as read: its number, its hardware range when both
/// `cpuinfo_min_freq` and `cpuinfo_max_freq` read, and its discrete frequencies.
#[derive(Debug, Clone, PartialEq, Eq)]
pub struct CpuRead {
    /// The logical CPU number.
    pub cpu: usize,
    /// `(cpuinfo_min_freq, cpuinfo_max_freq)` in kHz, `None` when either is missing.
    pub range: Option<(u64, u64)>,
    /// `scaling_available_frequencies` (kHz), when the driver lists them.
    pub avail_khz: Option<Vec<u64>>,
}

/// The first CPU whose range did not read, from `i` on.
pub open spec fn first_rangeless(reads: Seq<CpuRead>, i: int) -> Option<int>
    decreases reads.len() - i,
{
    if i < 0 || i >= reads.len() {
        None
    } else if reads[i].range is None {
        Some(i)
    } else {
        first_rangeless(reads, i + 1)
    }
}

/// The refusal of a CPU without a cpufreq range.
pub open spec fn no_range(cpu: usize) -> Seq<char> {
    "cpu"@ + decimal(cpu as nat) + " exposes no cpufreq range (cpuinfo_min_freq/cpuinfo_max_freq): nothing to control"@
}

/// The boost control the first CPU's files show: per-CPU `boost`, else the global knob.
pub open spec fn spec_boost_knob(per_cpu: bool, global: bool) -> BoostKnob {
    if per_cpu {
        BoostKnob::PerCpu
    } else if global {
        BoostKnob::Global
    } else {
        BoostKnob::Absent
    }
}

/// A token-list file's words, when it read.
pub open spec fn token_words(text: Option<&str>) -> Option<Seq<Seq<char>>> {
    match text {
        Some(t) => Some(words_from(t@, 0)),
        None => None,
    }
}

/// An optional kHz list's view.
pub open spec fn opt_khz(l: Option<Vec<u64>>) -> Option<Seq<u64>> {
    match l {
        Some(v) => Some(v@),
        None => None,
    }
}

/// An optional list's view.
pub open spec fn opt_list(l: Option<Vec<String>>) -> Option<Seq<Seq<char>>> {
    match l {
        Some(v) => Some(v.deep_view()),
        None => None,
    }
}

/// One whitespace-separated token-list file's tokens, `None` when it did not read.
pub fn token_list(text: Option<&str>) -> (r: Option<Vec<String>>)
    ensures
        opt_list(r) == token_words(text),
{
    match text {
        Some(t) => Some(words(t)),
        None => None,
    }
}

/// The box's capabilities from what its files said: each CPU's range and discrete list, in
/// CPU order, and, from the first CPU, whether EPP and which boost control exist and the
/// governor and EPP token lists. Errors when there is no cpufreq to control (a VM, typically),
/// naming what is missing.
pub fn caps_from(
    reads: Vec<CpuRead>,
    per_cpu_boost: bool,
    global_boost: bool,
    has_epp: bool,
    governors: Option<&str>,
    epp_prefs: Option<&str>,
) -> (r: Result<BoxCaps, String>)
    ensures
        reads.len() == 0 ==> (r matches Err(e) && e@ == "no CPUs under /sys/devices/system/cpu"@),
        reads.len() > 0 && first_rangeless(reads@, 0) is Some ==> (r matches Err(e) && e@ == no_range(
            reads@[first_rangeless(reads@, 0)->0].cpu,
        )),
        r is Ok <==> (reads.len() > 0 && first_rangeless(reads@, 0) is None),
        r matches Ok(caps) ==> {
            &&& caps.cpus.len() == reads.len()
            &&& forall|i: int|
                0 <= i < reads.len() ==> {
                    &&& (#[trigger] caps.cpus@[i]).cpu == reads@[i].cpu
                    &&& (caps.cpus@[i].hw_min_khz, caps.cpus@[i].hw_max_khz) == reads@[i].range->0
                    &&& opt_khz(caps.cpus@[i].avail_khz) == opt_khz(reads@[i].avail_khz)
                }
            &&& caps.has_epp == has_epp
            &&& caps.boost == spec_boost_knob(per_cpu_boost, global_boost)
            &&& opt_list(caps.governors) == token_words(governors)
            &&& opt_list(caps.epp_prefs) == token_words(epp_prefs)
        },
{
    if reads.len() == 0 {
        return Err(string_of("no CPUs under /sys/devices/system/cpu"));
    }
    let mut cpus: Vec<CpuCaps> = Vec::new();
    let ghost rs = reads@;
    let mut i: usize = 0;
    while i < reads.len()
        invariant
            i <= reads.len(),
            reads.len() > 0,
            reads@ == rs,
            first_rangeless(rs, 0) == first_rangeless(rs, i as int),
            cpus.len() == i,
            forall|j: int|
                0 <= j < i ==> {
                    &&& (#[trigger] cpus@[j]).cpu == rs[j].cpu
                    &&& rs[j].range is Some
                    &&& (cpus@[j].hw_min_khz, cpus@[j].hw_max_khz) == rs[j].range->0
                    &&& opt_khz(cpus@[j].avail_khz) == opt_khz(rs[j].avail_khz)
                },
        decreases reads.len() - i,
    {
        match reads[i].range {
            None => {
                let mut e = string_of("cpu");
                push_decimal(&mut e, reads[i].cpu as u64);
                push_str(
                    &mut e,
                    " exposes no cpufreq range (cpuinfo_min_freq/cpuinfo_max_freq): nothing to control",
                );
                return Err(e);
            },
            Some((lo, hi)) => {
                let avail = match &reads[i].avail_khz {
                    Some(v) => Some(v.clone()),
                    None => None,
                };
                cpus.push(CpuCaps { cpu: reads[i].cpu, hw_min_khz: lo, hw_max_khz: hi, avail_khz: avail });
            },
        }
        i = i + 1;
    }
    let boost = if per_cpu_boost {
        BoostKnob::PerCpu
    } else if global_boost {
        BoostKnob::Global
    } else {
        BoostKnob::Absent
    };
    Ok(BoxCaps {
        cpus,
        has_epp,
        governors: token_list(governors),
        epp_prefs: token_list(epp_prefs),
        boost,
    })
}

/// The first fault `f` finds among `cpus`, in order.
pub open spec fn first_fault(cpus: Seq<CpuCaps>, f: spec_fn(CpuCaps) -> Option<Seq<char>>) -> Option<
    Seq<char>,
>
    decreases cpus.len(),
{
    if cpus.len() == 0 {
        None
    } else {
        match f(cpus[0]) {
            Some(e) => Some(e),
            None => first_fault(cpus.drop_first(), f),
        }
    }
}

/// A CPU without a fault passes the search on to the next.
pub proof fn lemma_first_fault_step(
    cpus: Seq<CpuCaps>,
    f: spec_fn(CpuCaps) -> Option<Seq<char>>,
    i: int,
)
    requires
        0 <= i < cpus.len(),
    ensures
        first_fault(cpus.skip(i), f) == match f(cpus[i]) {
            Some(e) => Some(e),
            None => first_fault(cpus.skip(i + 1), f),
        },
{
    assert(cpus.skip(i)[0] == cpus[i]);
    assert(cpus.skip(i).drop_first() =~= cpus.skip(i + 1));
}

/// A kHz value outside a CPU's hardware range, as the refusal says it.
pub open spec fn outside_range(khz: u64, c: CpuCaps) -> Seq<char> {
    decimal((khz / 1000) as nat) + " MHz is outside cpu"@ + decimal(c.cpu as nat) + "'s range "@
        + decimal((c.hw_min_khz / 1000) as nat) + "-"@ + decimal((c.hw_max_khz / 1000) as nat)
        + " MHz"@
}

/// A CPU's discrete frequencies in MHz, as the refusal lists them.
pub open spec fn mhz_list(avail: Seq<u64>) -> Seq<Seq<char>> {
    avail.map_values(|k: u64| decimal((k / 1000) as nat))
}

/// Why a pin at `khz` does not fit CPU `c`, `None` when it does.
pub open spec fn pin_fault(khz: u64) -> spec_fn(CpuCaps) -> Option<Seq<char>> {
    |c: CpuCaps|
        match c.avail_khz {
            Some(a) => if a@.contains(khz) {
                None
            } else {
                Some(
                    decimal((khz / 1000) as nat) + " MHz is not one of cpu"@ + decimal(
                        c.cpu as nat,
                    ) + "'s discrete frequencies ("@ + joined(mhz_list(a@), ", "@) + " MHz)"@,
                )
            },
            None => if c.hw_min_khz <= khz && khz <= c.hw_max_khz {
                None
            } else {
                Some(outside_range(khz, c))
            },
        }
}

/// Every CPU pinned at `khz`: boost off, then each CPU's floor-first clamp to `khz`.
pub open spec fn pin_writes(khz: u64, caps: BoxCaps) -> PlanView {
    spec_boost_writes(caps, false) + each_cpu(
        caps.cpus@,
        |c: CpuCaps| spec_clamp_writes(c, khz, khz),
    )
}

/// What [`pin_plan`] gives: the first CPU the target does not fit refuses it, else the writes.
pub open spec fn spec_pin_plan(khz: u64, caps: BoxCaps) -> Result<PlanView, Seq<char>> {
    match first_fault(caps.cpus@, pin_fault(khz)) {
        Some(e) => Err(e),
        None => Ok(pin_writes(khz, caps)),
    }
}

/// Whether `v` holds `x`.
pub fn contains_u64(v: &Vec<u64>, x: u64) -> (r: bool)
    ensures
        r == v@.contains(x),
{
    let mut i: usize = 0;
    while i < v.len()
        invariant
            i <= v.len(),
            forall|j: int| 0 <= j < i ==> v@[j] != x,
        decreases v.len() - i,
    {
        if v[i] == x {
            return true;
        }
        i = i + 1;
    }
    false
}

/// `khz` outside CPU `c`'s range, as the refusal says it.
fn outside_range_text(khz: u64, c: &CpuCaps) -> (r: String)
    ensures
        r@ == outside_range(khz, *c),
{
    let mut e = String::new();
    push_decimal(&mut e, khz / 1000);
    push_str(&mut e, " MHz is outside cpu");
    push_decimal(&mut e, c.cpu as u64);
    push_str(&mut e, "'s range ");
    push_decimal(&mut e, c.hw_min_khz / 1000);
    push_str(&mut e, "-");
    push_decimal(&mut e, c.hw_max_khz / 1000);
    push_str(&mut e, " MHz");
    assert(e@ =~= outside_range(khz, *c));
    e
}

/// Why a pin at `khz` does not fit CPU `c`, `None` when it does.
fn cpu_pin_fault(khz: u64, c: &CpuCaps) -> (r: Option<String>)
    ensures
        match r {
            Some(e) => (pin_fault(khz))(*c) == Some(e@),
            None => (pin_fault(khz))(*c) is None,
        },
{
    match &c.avail_khz {
        Some(avail) => {
            if contains_u64(avail, khz) {
                None
            } else {
                let mut mhz: Vec<String> = Vec::new();
                let mut i: usize = 0;
                while i < avail.len()
                    invariant
                        i <= avail.len(),
                        mhz.deep_view() == mhz_list(avail@.take(i as int)),
                    decreases avail.len() - i,
                {
                    let mut s = String::new();
                    push_decimal(&mut s, avail[i] / 1000);
                    assert(s@ =~= decimal((avail@[i as int] / 1000) as nat));
                    let ghost before = mhz.deep_view();
                    mhz.push(s);
                    assert(mhz.deep_view() =~= before.push(decimal((avail@[i as int] / 1000) as nat)));
                    assert(mhz_list(avail@.take(i + 1)) =~= mhz_list(avail@.take(i as int)).push(
                        decimal((avail@[i as int] / 1000) as nat),
                    ));
                    assert(mhz.deep_view() =~= mhz_list(avail@.take(i + 1)));
                    i = i + 1;
                }
                assert(avail@.take(avail.len() as int) =~= avail@);
                let mut e = String::new();
                push_decimal(&mut e, khz / 1000);
                push_str(&mut e, " MHz is not one of cpu");
                push_decimal(&mut e, c.cpu as u64);
                push_str(&mut e, "'s discrete frequencies (");
                let list = join(&mhz, ", ");
                push_str(&mut e, list.as_str());
                push_str(&mut e, " MHz)");
                Some(e)
            }
        },
        None => {
            if c.hw_min_khz <= khz && khz <= c.hw_max_khz {
                None
            } else {
                Some(outside_range_text(khz, c))
            }
        },
    }
}

/// The plan pinning every CPU at `khz`: boost off, then `min = max = khz`. Errors when the
/// target does not fit a CPU, naming that CPU's valid values.
pub fn pin_plan(khz: u64, caps: &BoxCaps) -> (r: Result<Plan, String>)
    ensures
        match r {
            Ok(p) => spec_pin_plan(khz, *caps) == Ok::<PlanView, Seq<char>>(p.deep_view()),
            Err(e) => spec_pin_plan(khz, *caps) == Err::<PlanView, Seq<char>>(e@),
        },
{
    let ghost f = pin_fault(khz);
    assert(caps.cpus@.skip(0) =~= caps.cpus@);
    let mut i: usize = 0;
    while i < caps.cpus.len()
        invariant
            i <= caps.cpus.len(),
            f == pin_fault(khz),
            first_fault(caps.cpus@, f) == first_fault(caps.cpus@.skip(i as int), f),
        decreases caps.cpus.len() - i,
    {
        proof {
            lemma_first_fault_step(caps.cpus@, f, i as int);
        }
        if let Some(e) = cpu_pin_fault(khz, &caps.cpus[i]) {
            return Err(e);
        }
        i = i + 1;
    }
    assert(caps.cpus@.skip(caps.cpus.len() as int) =~= Seq::<CpuCaps>::empty());
    let mut plan = boost_writes(caps, false);
    let ghost p0 = plan.deep_view();
    let ghost cw = |c: CpuCaps| spec_clamp_writes(c, khz, khz);
    let mut i: usize = 0;
    while i < caps.cpus.len()
        invariant
            i <= caps.cpus.len(),
            cw == (|c: CpuCaps| spec_clamp_writes(c, khz, khz)),
            plan.deep_view() == p0 + each_cpu(caps.cpus@.take(i as int), cw),
        decreases caps.cpus.len() - i,
    {
        proof {
            lemma_each_cpu_step(caps.cpus@, cw, i as int);
        }
        extend_plan(&mut plan, clamp_writes(&caps.cpus[i], khz, khz));
        assert(plan.deep_view() =~= p0 + each_cpu(caps.cpus@.take(i + 1), cw));
        i = i + 1;
    }
    assert(caps.cpus@.take(caps.cpus.len() as int) =~= caps.cpus@);
    Ok(plan)
}

// ---------------------------------------------------------------------------------------------
// The declared steady state against the box.
// ---------------------------------------------------------------------------------------------

/// The refusal printed when no `[freq]` table is declared.
pub open spec fn no_steady_text() -> Seq<char> {
    "no [freq] steady state is declared, so a pin would have no way home.\n\
     Add a [freq] section to the config, usually ~/.config/iiac-perf/config.md (in a toml \
     fence).\n\
     `iiac-perf read-freq --as-config` prints the current state in that form, ready to paste.\n\
     Under sudo, $HOME may be root's. The project-local ./iiac-perf.md works there too."@
}

/// The refusal printed when no `[freq]` table is declared: pinning without a declared way home
/// is exactly the failure mode this design exists against.
pub fn no_steady_state() -> (r: String)
    ensures
        r@ == no_steady_text(),
{
    string_of(
        "no [freq] steady state is declared, so a pin would have no way home.\n\
     Add a [freq] section to the config, usually ~/.config/iiac-perf/config.md (in a toml \
     fence).\n\
     `iiac-perf read-freq --as-config` prints the current state in that form, ready to paste.\n\
     Under sudo, $HOME may be root's. The project-local ./iiac-perf.md works there too.",
    )
}

/// A declared token the box does not offer, with what it does offer.
pub open spec fn not_available(what: Seq<char>, tok: Seq<char>, list: Seq<Seq<char>>) -> Seq<char> {
    what + " "@ + debug_quoted(tok) + " is not available on this box (available: "@ + joined(
        list,
        ", "@,
    ) + ")"@
}

/// A declared token the box does not offer, with what it does offer.
fn not_available_text(what: &str, tok: &str, list: &Vec<String>) -> (r: String)
    ensures
        r@ == not_available(what@, tok@, list.deep_view()),
{
    let mut e = string_of(what);
    push_str(&mut e, " ");
    let q = debug_quote(tok);
    push_str(&mut e, q.as_str());
    push_str(&mut e, " is not available on this box (available: ");
    let j = join(list, ", ");
    push_str(&mut e, j.as_str());
    push_str(&mut e, ")");
    assert(e@ =~= not_available(what@, tok@, list.deep_view()));
    e
}

/// The refusal when the box has EPP and the table declares none.
pub open spec fn epp_missing(prefs: Option<Vec<String>>) -> Seq<char> {
    "this box exposes energy_performance_preference: declare freq.epp"@ + match prefs {
        Some(p) => " (available: "@ + joined(p.deep_view(), ", "@) + ")"@,
        None => Seq::empty(),
    }
}

/// An MHz value in kHz.
pub open spec fn khz_of(m: Option<u64>) -> Option<u64> {
    match m {
        Some(v) => Some((v * 1000) as u64),
        None => None,
    }
}

/// An MHz value whose kHz fits a `u64`.
pub open spec fn mhz_fits(m: Option<u64>) -> bool {
    match m {
        Some(v) => v * 1000 <= u64::MAX,
        None => true,
    }
}

/// A declared clamp (kHz) outside CPU `c`'s hardware range.
pub open spec fn out_of_range(k: Option<u64>, c: CpuCaps) -> bool {
    match k {
        Some(v) => !(c.hw_min_khz <= v && v <= c.hw_max_khz),
        None => false,
    }
}

/// The first declared clamp outside CPU `c`'s hardware range, `min_mhz` checked first.
pub open spec fn clamp_fault(min_khz: Option<u64>, max_khz: Option<u64>) -> spec_fn(CpuCaps) -> Option<
    Seq<char>,
> {
    |c: CpuCaps|
        if out_of_range(min_khz, c) {
            Some("freq.min_mhz "@ + outside_range(min_khz.unwrap(), c))
        } else if out_of_range(max_khz, c) {
            Some("freq.max_mhz "@ + outside_range(max_khz.unwrap(), c))
        } else {
            None
        }
}

/// Whether `list`, when readable, lacks `tok`.
pub open spec fn lacks(list: Option<Vec<String>>, tok: Seq<char>) -> bool {
    match list {
        Some(l) => !l.deep_view().contains(tok),
        None => false,
    }
}

/// The declared table as a reference-free option.
pub open spec fn opt_cfg(cfg: Option<&FreqConfig>) -> Option<FreqConfig> {
    match cfg {
        Some(c) => Some(*c),
        None => None,
    }
}

/// What [`resolve_steady`] decides: the first refusal in the documented order, else the
/// validated steady state.
pub open spec fn spec_resolve_steady(cfg: Option<FreqConfig>, caps: BoxCaps) -> Result<
    Steady,
    Seq<char>,
> {
    match cfg {
        None => Err(no_steady_text()),
        Some(c) => if lacks(caps.governors, c.governor@) {
            Err(not_available("freq.governor"@, c.governor@, caps.governors.unwrap().deep_view()))
        } else if caps.has_epp && c.epp is None {
            Err(epp_missing(caps.epp_prefs))
        } else if !caps.has_epp && c.epp is Some {
            Err("freq.epp is declared but this box exposes no energy_performance_preference"@)
        } else if caps.has_epp && lacks(caps.epp_prefs, c.epp.unwrap()@) {
            Err(not_available("freq.epp"@, c.epp.unwrap()@, caps.epp_prefs.unwrap().deep_view()))
        } else if caps.boost == BoostKnob::Absent && c.boost is Some {
            Err("freq.boost is declared but this box exposes no boost control"@)
        } else if caps.boost != BoostKnob::Absent && c.boost is None {
            Err("this box exposes a boost control: declare freq.boost"@)
        } else {
            match first_fault(caps.cpus@, clamp_fault(khz_of(c.min_mhz), khz_of(c.max_mhz))) {
                Some(e) => Err(e),
                None => Ok(
                    Steady {
                        governor: c.governor,
                        epp: c.epp,
                        boost: c.boost,
                        min_khz: khz_of(c.min_mhz),
                        max_khz: khz_of(c.max_mhz),
                    },
                ),
            }
        },
    }
}

/// The first declared clamp outside CPU `c`'s hardware range.
fn cpu_clamp_fault(min_khz: Option<u64>, max_khz: Option<u64>, c: &CpuCaps) -> (r: Option<String>)
    ensures
        match r {
            Some(e) => (clamp_fault(min_khz, max_khz))(*c) == Some(e@),
            None => (clamp_fault(min_khz, max_khz))(*c) is None,
        },
{
    if let Some(k) = min_khz {
        if !(c.hw_min_khz <= k && k <= c.hw_max_khz) {
            let mut e = string_of("freq.min_mhz ");
            let t = outside_range_text(k, c);
            push_str(&mut e, t.as_str());
            return Some(e);
        }
    }
    if let Some(k) = max_khz {
        if !(c.hw_min_khz <= k && k <= c.hw_max_khz) {
            let mut e = string_of("freq.max_mhz ");
            let t = outside_range_text(k, c);
            push_str(&mut e, t.as_str());
            return Some(e);
        }
    }
    None
}

/// A copy of an optional token.
fn clone_opt(o: &Option<String>) -> (r: Option<String>)
    ensures
        r == *o,
{
    match o {
        Some(s) => Some(s.clone()),
        None => None,
    }
}

/// Validate the declared `[freq]` table against the box's capabilities.
///
/// A knob the box exposes must be declared (restoring around it would silently leave a pin's
/// residue), and a knob the box lacks must not be (the declaration would be fiction).
#[verifier::loop_isolation(false)]
pub fn resolve_steady(cfg: Option<&FreqConfig>, caps: &BoxCaps) -> (r: Result<Steady, String>)
    requires
        match cfg {
            Some(c) => mhz_fits(c.min_mhz) && mhz_fits(c.max_mhz),
            None => true,
        },
    ensures
        crate::config::same_result(r, spec_resolve_steady(opt_cfg(cfg), *caps)),
{
    let cfg = match cfg {
        Some(c) => c,
        None => {
            return Err(no_steady_state());
        },
    };
    if let Some(governors) = &caps.governors {
        if !contains_string(governors, &cfg.governor) {
            return Err(not_available_text("freq.governor", cfg.governor.as_str(), governors));
        }
    }
    match (caps.has_epp, &cfg.epp) {
        (true, None) => {
            let mut e = string_of(
                "this box exposes energy_performance_preference: declare freq.epp",
            );
            if let Some(p) = &caps.epp_prefs {
                push_str(&mut e, " (available: ");
                let j = join(p, ", ");
                push_str(&mut e, j.as_str());
                push_str(&mut e, ")");
            }
            assert(e@ =~= epp_missing(caps.epp_prefs));
            return Err(e);
        },
        (false, Some(_)) => {
            return Err(
                string_of(
                    "freq.epp is declared but this box exposes no \
                        energy_performance_preference",
                ),
            );
        },
        (true, Some(epp)) => {
            if let Some(prefs) = &caps.epp_prefs {
                if !contains_string(prefs, epp) {
                    return Err(not_available_text("freq.epp", epp.as_str(), prefs));
                }
            }
        },
        (false, None) => {},
    }
    match (caps.boost, cfg.boost) {
        (BoostKnob::Absent, Some(_)) => {
            return Err(string_of("freq.boost is declared but this box exposes no boost control"));
        },
        (BoostKnob::PerCpu, None) | (BoostKnob::Global, None) => {
            return Err(string_of("this box exposes a boost control: declare freq.boost"));
        },
        _ => {},
    }
    let min_khz = match cfg.min_mhz {
        Some(m) => Some(m * 1000),
        None => None,
    };
    let max_khz = match cfg.max_mhz {
        Some(m) => Some(m * 1000),
        None => None,
    };
    let ghost f = clamp_fault(min_khz, max_khz);
    assert(caps.cpus@.skip(0) =~= caps.cpus@);
    let mut i: usize = 0;
    while i < caps.cpus.len()
        invariant
            i <= caps.cpus.len(),
            f == clamp_fault(min_khz, max_khz),
            first_fault(caps.cpus@, f) == first_fault(caps.cpus@.skip(i as int), f),
        decreases caps.cpus.len() - i,
    {
        proof {
            lemma_first_fault_step(caps.cpus@, f, i as int);
        }
        if let Some(e) = cpu_clamp_fault(min_khz, max_khz, &caps.cpus[i]) {
            return Err(e);
        }
        i = i + 1;
    }
    assert(caps.cpus@.skip(caps.cpus.len() as int) =~= Seq::<CpuCaps>::empty());
    Ok(
        Steady {
            governor: cfg.governor.clone(),
            epp: clone_opt(&cfg.epp),
            boost: cfg.boost,
            min_khz,
            max_khz,
        },
    )
}

// ---------------------------------------------------------------------------------------------
// The pin target.
// ---------------------------------------------------------------------------------------------

/// The refusal when no pin target can be found.
pub open spec fn no_pin_target_text() -> Seq<char> {
    "no pin target: none given, no [freq] pin_mhz configured, and no base clock discoverable on this box"@
}

/// What [`resolve_pin`] decides: the command line, else the config's `pin_mhz`, else the base
/// clock; the kHz target and a phrase saying where it came from.
pub open spec fn spec_resolve_pin(
    cfg: Option<FreqConfig>,
    cli_mhz: Option<u64>,
    base: Option<BaseClock>,
) -> Result<(u64, Seq<char>), Seq<char>> {
    match cli_mhz {
        Some(m) => if m == 0 {
            Err("0 is not a frequency"@)
        } else {
            Ok(((m * 1000) as u64, "given on the command line"@))
        },
        None => {
            let pin = match cfg {
                Some(c) => c.pin_mhz,
                None => None,
            };
            match pin {
                Some(m) => Ok(((m * 1000) as u64, "config pin_mhz"@)),
                None => match base {
                    Some(b) => Ok((b.khz, "base clock from "@ + b.source@)),
                    None => Err(no_pin_target_text()),
                },
            }
        },
    }
}

/// The pin target's precedence: a frequency given on the command line wins (0 refused);
/// without one, the `[freq]` table's `pin_mhz` is the target whatever base clock the box
/// exposes; only without both is the base clock the target; and with none of the three there
/// is no target. The target is in kHz, the MHz given times 1000.
pub proof fn the_pin_target_follows_its_precedence(
    cfg: Option<FreqConfig>,
    cli_mhz: Option<u64>,
    base: Option<BaseClock>,
    other_base: Option<BaseClock>,
)
    requires
        pin_fits(cfg, cli_mhz),
    ensures
        cli_mhz is Some && cli_mhz->0 > 0 ==> spec_resolve_pin(cfg, cli_mhz, base) is Ok
            && spec_resolve_pin(cfg, cli_mhz, base)->Ok_0.0 == cli_mhz->0 * 1000 && spec_resolve_pin(
            cfg,
            cli_mhz,
            base,
        )->Ok_0.1 == "given on the command line"@,
        cli_mhz == Some(0u64) ==> spec_resolve_pin(cfg, cli_mhz, base) == Err::<(u64, Seq<char>), Seq<char>>(
            "0 is not a frequency"@,
        ),
        cli_mhz is None && cfg is Some && cfg->0.pin_mhz is Some ==> spec_resolve_pin(cfg, cli_mhz, base)
            is Ok && spec_resolve_pin(cfg, cli_mhz, base)->Ok_0.0 == cfg->0.pin_mhz->0 * 1000
            && spec_resolve_pin(cfg, cli_mhz, base)->Ok_0.1 == "config pin_mhz"@,
        cli_mhz is None && !(cfg is Some && cfg->0.pin_mhz is Some) ==> spec_resolve_pin(
            cfg,
            cli_mhz,
            base,
        ) == match base {
            Some(b) => Ok::<(u64, Seq<char>), Seq<char>>((b.khz, "base clock from "@ + b.source@)),
            None => Err(no_pin_target_text()),
        },
        (cli_mhz is Some || (cfg is Some && cfg->0.pin_mhz is Some)) ==> spec_resolve_pin(
            cfg,
            cli_mhz,
            base,
        ) == spec_resolve_pin(cfg, cli_mhz, other_base),
{
}

/// Whether a target fits in kHz wherever [`resolve_pin`] multiplies.
pub open spec fn pin_fits(cfg: Option<FreqConfig>, cli_mhz: Option<u64>) -> bool {
    &&& mhz_fits(cli_mhz)
    &&& cli_mhz is None ==> match cfg {
        Some(c) => mhz_fits(c.pin_mhz),
        None => true,
    }
}

/// A pin target and where it came from, compared with its spec by the phrase's text.
pub open spec fn same_target(r: Result<(u64, String), String>, s: Result<(u64, Seq<char>), Seq<char>>) -> bool {
    match r {
        Ok((k, w)) => s == Ok::<(u64, Seq<char>), Seq<char>>((k, w@)),
        Err(e) => s == Err::<(u64, Seq<char>), Seq<char>>(e@),
    }
}

/// Resolve the pin target: the command line, else the config's `pin_mhz`, else the base clock.
/// Returns the kHz value and a human phrase saying where it came from.
pub fn resolve_pin(
    cfg: Option<&FreqConfig>,
    cli_mhz: Option<u64>,
    base: Option<&BaseClock>,
) -> (r: Result<(u64, String), String>)
    requires
        pin_fits(opt_cfg(cfg), cli_mhz),
    ensures
        same_target(
            r,
            spec_resolve_pin(
                opt_cfg(cfg),
                cli_mhz,
                match base {
                    Some(b) => Some(*b),
                    None => None,
                },
            ),
        ),
        cli_mhz is Some && cli_mhz->0 > 0 ==> r is Ok && r->Ok_0.0 == cli_mhz->0 * 1000
            && r->Ok_0.1@ == "given on the command line"@,
        cli_mhz is None && cfg is Some && cfg->0.pin_mhz is Some ==> r is Ok && r->Ok_0.0
            == cfg->0.pin_mhz->0 * 1000 && r->Ok_0.1@ == "config pin_mhz"@,
        cli_mhz is None && !(cfg is Some && cfg->0.pin_mhz is Some) && base is Some ==> r is Ok
            && r->Ok_0.0 == base->0.khz && r->Ok_0.1@ == "base clock from "@ + base->0.source@,
{
    if let Some(mhz) = cli_mhz {
        if mhz == 0 {
            return Err(string_of("0 is not a frequency"));
        }
        return Ok((mhz * 1000, string_of("given on the command line")));
    }
    let pin = match cfg {
        Some(f) => f.pin_mhz,
        None => None,
    };
    if let Some(mhz) = pin {
        return Ok((mhz * 1000, string_of("config pin_mhz")));
    }
    match base {
        Some(b) => {
            let mut w = string_of("base clock from ");
            push_str(&mut w, b.source.as_str());
            Ok((b.khz, w))
        },
        None => Err(
            string_of(
                "no pin target: none given, no [freq] pin_mhz configured, and no base \
                     clock discoverable on this box",
            ),
        ),
    }
}

// ---------------------------------------------------------------------------------------------
// The suggest-freq ladder and its outcome.
// ---------------------------------------------------------------------------------------------

/// Continuous-driver descent step: 100 MHz per candidate.
pub const SUGGEST_STEP_KHZ: u64 = 100_000;

/// Cap on candidates tried.
pub const SUGGEST_MAX_CANDIDATES: usize = 12;

/// `r` is the largest distinct values of `a`, descending, at most `cap` of them.
pub open spec fn largest_distinct(r: Seq<u64>, a: Seq<u64>, cap: nat) -> bool {
    &&& r.len() <= cap
    &&& forall|i: int, j: int| 0 <= i < j < r.len() ==> r[i] > r[j]
    &&& forall|i: int| 0 <= i < r.len() ==> a.contains(#[trigger] r[i])
    &&& forall|x: u64| a.contains(x) ==> r.contains(x) || (r.len() == cap && x < r[cap - 1])
}

/// How many steps of [`SUGGEST_STEP_KHZ`] fit from `top` down to `floor`, capped.
pub open spec fn ladder_len(top: u64, floor: u64) -> nat {
    if top < floor {
        0
    } else {
        let n = ((top - floor) / (SUGGEST_STEP_KHZ as int) + 1) as nat;
        if n < SUGGEST_MAX_CANDIDATES {
            n
        } else {
            SUGGEST_MAX_CANDIDATES as nat
        }
    }
}

/// The continuous-driver ladder: `top`, then [`SUGGEST_STEP_KHZ`] lower each, down to `floor`.
pub open spec fn ladder(top: u64, floor: u64) -> Seq<u64> {
    Seq::new(ladder_len(top, floor), |i: int| (top - SUGGEST_STEP_KHZ * i) as u64)
}

/// `n`, or [`SUGGEST_MAX_CANDIDATES`] when `n` is more.
pub open spec fn capped(n: nat) -> nat {
    if n < SUGGEST_MAX_CANDIDATES {
        n
    } else {
        SUGGEST_MAX_CANDIDATES as nat
    }
}

/// The rungs `i` of a descent from `top` in steps of [`SUGGEST_STEP_KHZ`] that stay at or above
/// `floor`.
pub open spec fn rungs(top: u64, floor: u64) -> Set<int> {
    Set::new(|i: int| 0 <= i && top - SUGGEST_STEP_KHZ * i >= floor)
}

/// The largest distinct values of a list, up to the cap, are as many as the list has distinct
/// values, up to the cap.
pub proof fn lemma_distinct_count(r: Seq<u64>, a: Seq<u64>)
    requires
        largest_distinct(r, a, SUGGEST_MAX_CANDIDATES as nat),
    ensures
        r.len() == capped(a.to_set().len()),
{
    assert(r.no_duplicates()) by {
        assert forall|i: int, j: int|
            0 <= i < r.len() && 0 <= j < r.len() && i != j implies r[i] != r[j] by {
            if i < j {
                assert(r[i] > r[j]);
            } else {
                assert(r[j] > r[i]);
            }
        }
    }
    r.unique_seq_to_set();
    seq_to_set_is_finite(a);
    seq_to_set_is_finite(r);
    assert(r.to_set().subset_of(a.to_set())) by {
        assert forall|x: u64| r.to_set().contains(x) implies a.to_set().contains(x) by {
            let k = choose|k: int| 0 <= k < r.len() && r[k] == x;
            assert(a.contains(r[k]));
        }
    }
    lemma_len_subset(r.to_set(), a.to_set());
    if r.len() < SUGGEST_MAX_CANDIDATES {
        assert(a.to_set().subset_of(r.to_set()));
        lemma_len_subset(a.to_set(), r.to_set());
    }
}

/// The ladder from `top` down to `floor` holds one value per rung that stays at or above
/// `floor`, up to the cap, each `top` less a whole number of steps and none below `floor`.
pub proof fn lemma_ladder_count(top: u64, floor: u64)
    ensures
        ladder(top, floor).len() == capped(rungs(top, floor).len()),
        forall|i: int|
            0 <= i < ladder(top, floor).len() ==> #[trigger] ladder(top, floor)[i] as int == top
                - SUGGEST_STEP_KHZ * i && ladder(top, floor)[i] >= floor,
{
    let n: int = if top < floor {
        0
    } else {
        (top - floor) / (SUGGEST_STEP_KHZ as int) + 1
    };
    assert(rungs(top, floor) =~= set_int_range(0, n)) by {
        assert forall|i: int| rungs(top, floor).contains(i) <==> set_int_range(0, n).contains(i) by {
            if 0 <= i && top >= floor {
                let d: int = top - floor;
                assert(SUGGEST_STEP_KHZ * i <= d <==> i <= d / (SUGGEST_STEP_KHZ as int)) by (
                nonlinear_arith)
                    requires
                        d >= 0,
                        i >= 0,
                        SUGGEST_STEP_KHZ == 100000,
                ;
            }
        }
    }
    lemma_int_range(0, n);
    assert forall|i: int| 0 <= i < ladder(top, floor).len() implies #[trigger] ladder(top, floor)[i]
        as int == top - SUGGEST_STEP_KHZ * i && ladder(top, floor)[i] >= floor by {
        assert(set_int_range(0, n).contains(i));
        assert(rungs(top, floor).contains(i));
    }
}

/// The refusal of a box with no CPUs.
pub open spec fn no_cpus_text() -> Seq<char> {
    "no CPUs under /sys/devices/system/cpu"@
}

/// The refusal of a continuous-range driver with no base clock.
pub open spec fn no_base_text() -> Seq<char> {
    "no base clock discoverable, so the boost-off ceiling is unknown on this continuous-range driver"@
}

/// The smaller of two values.
pub open spec fn min_u64(a: u64, b: u64) -> u64 {
    if a < b {
        a
    } else {
        b
    }
}

/// The candidate ladder, descending from max-with-boost-off: a discrete driver's available
/// list, its largest distinct values first, or [`SUGGEST_STEP_KHZ`] steps down from the base
/// clock (the boost-off ceiling) on a continuous-range driver.
pub fn suggest_candidates(caps: &BoxCaps, base_khz: Option<u64>) -> (r: Result<Vec<u64>, String>)
    ensures
        caps.cpus.len() == 0 ==> (r matches Err(e) && e@ == no_cpus_text()),
        caps.cpus.len() > 0 ==> match caps.cpus@[0].avail_khz {
            Some(a) => (r matches Ok(v) && largest_distinct(
                v@,
                a@,
                SUGGEST_MAX_CANDIDATES as nat,
            )),
            None => match base_khz {
                None => (r matches Err(e) && e@ == no_base_text()),
                Some(b) => (r matches Ok(v) && v@ == ladder(
                    min_u64(b, caps.cpus@[0].hw_max_khz),
                    caps.cpus@[0].hw_min_khz,
                )),
            },
        },
        caps.cpus.len() > 0 ==> match (r, caps.cpus@[0].avail_khz, base_khz) {
            (Ok(v), Some(a), _) => v.len() == capped(a@.to_set().len()),
            (Ok(v), None, Some(b)) => {
                let top = min_u64(b, caps.cpus@[0].hw_max_khz);
                let floor = caps.cpus@[0].hw_min_khz;
                &&& v.len() == capped(rungs(top, floor).len())
                &&& forall|i: int|
                    0 <= i < v.len() ==> #[trigger] v@[i] as int == top - SUGGEST_STEP_KHZ * i
                        && v@[i] >= floor
            },
            _ => true,
        },
{
    if caps.cpus.len() == 0 {
        return Err(string_of("no CPUs under /sys/devices/system/cpu"));
    }
    let c0 = &caps.cpus[0];
    if let Some(avail) = &c0.avail_khz {
        let mut v: Vec<u64> = Vec::new();
        let mut bound: Option<u64> = None;
        while v.len() < SUGGEST_MAX_CANDIDATES
            invariant_except_break
                v.len() <= SUGGEST_MAX_CANDIDATES,
                forall|i: int, j: int| 0 <= i < j < v.len() ==> v@[i] > v@[j],
                forall|i: int| 0 <= i < v.len() ==> avail@.contains(#[trigger] v@[i]),
                bound is None <==> v.len() == 0,
                bound matches Some(b) ==> b == v@.last(),
                forall|x: u64|
                    avail@.contains(x) ==> bound is None || v@.contains(x) || x < bound.unwrap(),
            ensures
                largest_distinct(v@, avail@, SUGGEST_MAX_CANDIDATES as nat),
            decreases SUGGEST_MAX_CANDIDATES - v.len(),
        {
            let mut best: Option<u64> = None;
            let mut j: usize = 0;
            while j < avail.len()
                invariant
                    j <= avail.len(),
                    best matches Some(b) ==> avail@.contains(b) && (bound matches Some(c) ==> b
                        < c),
                    forall|k: int|
                        0 <= k < j && (bound matches Some(c) ==> #[trigger] avail@[k] < c) ==> (best matches Some(
                            b,
                        ) && avail@[k] <= b),
                decreases avail.len() - j,
            {
                let x = avail[j];
                let below = match bound {
                    Some(c) => x < c,
                    None => true,
                };
                if below {
                    match best {
                        Some(b) => {
                            if x > b {
                                best = Some(x);
                            }
                        },
                        None => {
                            best = Some(x);
                        },
                    }
                }
                j = j + 1;
            }
            match best {
                None => {
                    assert forall|x: u64| avail@.contains(x) implies v@.contains(x) by {
                        let k = choose|k: int| 0 <= k < avail@.len() && avail@[k] == x;
                        if bound is None {
                            assert(avail@[k] == x);
                        }
                    }
                    break;
                },
                Some(b) => {
                    let ghost old_v = v@;
                    v.push(b);
                    bound = Some(b);
                    assert forall|x: u64| avail@.contains(x) implies v@.contains(x) || x < b by {
                        if !(x < b) && !old_v.contains(x) {
                            let k = choose|k: int| 0 <= k < avail@.len() && avail@[k] == x;
                            assert(avail@[k] <= b);
                            assert(x == b);
                            assert(v@[v.len() - 1] == b);
                        } else if old_v.contains(x) {
                            let k = choose|k: int| 0 <= k < old_v.len() && old_v[k] == x;
                            assert(v@[k] == x);
                        }
                    }
                },
            }
        }
        proof {
            lemma_distinct_count(v@, avail@);
        }
        return Ok(v);
    }
    let base = match base_khz {
        Some(b) => b,
        None => {
            return Err(
                string_of(
                    "no base clock discoverable, so the boost-off ceiling is unknown on this \
             continuous-range driver",
                ),
            );
        },
    };
    let top = if base < c0.hw_max_khz {
        base
    } else {
        c0.hw_max_khz
    };
    let floor = c0.hw_min_khz;
    let mut v: Vec<u64> = Vec::new();
    let mut k = top;
    while k >= floor && v.len() < SUGGEST_MAX_CANDIDATES
        invariant_except_break
            v.len() <= SUGGEST_MAX_CANDIDATES,
            k as int == top - SUGGEST_STEP_KHZ * v.len(),
            top >= floor ==> v.len() <= ladder_len(top, floor),
            top < floor ==> v.len() == 0,
            forall|i: int| 0 <= i < v.len() ==> v@[i] == top - SUGGEST_STEP_KHZ * i,
        ensures
            v@ == ladder(top, floor),
        decreases SUGGEST_MAX_CANDIDATES - v.len(),
    {
        v.push(k);
        if k < SUGGEST_STEP_KHZ {
            assert(v@ =~= ladder(top, floor));
            break;
        }
        k = k - SUGGEST_STEP_KHZ;
    }
    assert(v@ =~= ladder(top, floor));
    proof {
        lemma_ladder_count(top, floor);
    }
    Ok(v)
}

/// Ascending order on clock readings.
pub open spec fn le_u64() -> spec_fn(u64, u64) -> bool {
    |a: u64, b: u64| a <= b
}

/// A series in ascending order, as a sort gives it.
pub open spec fn ascending(s: Seq<u64>) -> Seq<u64> {
    s.sort_by(le_u64())
}

/// Every element no larger than the ones after it.
pub open spec fn is_ascending(s: Seq<u64>) -> bool {
    forall|i: int, j: int| 0 <= i < j < s.len() ==> s[i] <= s[j]
}

/// Ascending order on readings is a total order.
pub proof fn lemma_le_u64_total()
    ensures
        total_ordering(le_u64()),
{
    assert(total_ordering(le_u64()));
}

/// A series sorted ascending, as `sort_unstable` leaves it.
pub fn sorted_ascending(series: &[u64]) -> (r: Vec<u64>)
    ensures
        r@ == ascending(series@),
{
    broadcast use vstd::seq_lib::group_to_multiset_ensures;

    let mut v: Vec<u64> = Vec::new();
    let mut i: usize = 0;
    while i < series.len()
        invariant
            i <= series.len(),
            is_ascending(v@),
            v@.to_multiset() == series@.take(i as int).to_multiset(),
        decreases series.len() - i,
    {
        let x = series[i];
        let mut p: usize = 0;
        while p < v.len() && v[p] <= x
            invariant
                p <= v.len(),
                forall|q: int| 0 <= q < p ==> v@[q] <= x,
            decreases v.len() - p,
        {
            p = p + 1;
        }
        let ghost old_v = v@;
        v.insert(p, x);
        assert(is_ascending(v@)) by {
            assert forall|a: int, b: int| 0 <= a < b < v@.len() implies v@[a] <= v@[b] by {
                if a < p && b == p {
                } else if a < p && b > p {
                    assert(v@[b] == old_v[b - 1]);
                    assert(old_v[a] <= old_v[b - 1]);
                } else if a == p {
                    assert(v@[b] == old_v[b - 1]);
                    assert(p < old_v.len() && !(old_v[p as int] <= x) || p == old_v.len());
                    if p < old_v.len() {
                        assert(old_v[p as int] <= old_v[b - 1]);
                    }
                } else if a > p {
                    assert(v@[a] == old_v[a - 1]);
                    assert(v@[b] == old_v[b - 1]);
                } else {
                    assert(v@[a] == old_v[a]);
                    assert(v@[b] == old_v[b]);
                }
            }
        }
        assert(series@.take(i + 1) =~= series@.take(i as int).push(x));
        assert(v@ == old_v.insert(p as int, x));
        proof {
            vstd::seq_lib::to_multiset_insert(old_v, p as int, x);
            vstd::seq_lib::to_multiset_build(series@.take(i as int), x);
        }
        assert(series@.take(i as int).push(x).to_multiset() == series@.take(
            i as int,
        ).to_multiset().insert(x));
        i = i + 1;
    }
    assert(series@.take(series.len() as int) =~= series@);
    proof {
        lemma_le_u64_total();
        series@.lemma_sort_by_ensures(le_u64());
        assert(sorted_by(v@, le_u64()));
        vstd::seq_lib::lemma_sorted_unique(v@, ascending(series@), le_u64());
    }
    v
}

/// How one candidate fared: its clock readings measured against the pin target.
#[derive(Debug, Clone, Copy, PartialEq, Eq, Structural)]
pub struct Hold {
    /// Samples collected while the bench ran.
    pub n: usize,
    /// Slowest delivered sample (kHz).
    pub min_khz: u64,
    /// Median delivered sample (kHz).
    pub med_khz: u64,
    /// Fastest delivered sample (kHz).
    pub max_khz: u64,
    /// Whether the candidate held: series stable within the 1% band and its median on the
    /// target.
    pub held: bool,
}

/// `spread` within the 1% band of `of` (a positive reference): `spread / of <= 1%`, in exact
/// integer form.
pub open spec fn within_band(spread: int, of: int) -> bool {
    of > 0 && 100 * spread <= of
}

/// The distance between two readings.
pub open spec fn abs_diff(a: u64, b: u64) -> int {
    if a >= b {
        a - b
    } else {
        b - a
    }
}

/// What [`assess`] says of a series: `None` when empty, else its slowest, median and fastest
/// readings, held when stable and on target.
pub open spec fn spec_assess(series: Seq<u64>, target: u64) -> Option<Hold> {
    if series.len() == 0 {
        None
    } else {
        let v = ascending(series);
        let mn = v[0];
        let md = v[(series.len() / 2) as int];
        let mx = v[series.len() - 1];
        Some(
            Hold {
                n: series.len() as usize,
                min_khz: mn,
                med_khz: md,
                max_khz: mx,
                held: within_band(mx - mn, mx as int) && within_band(
                    abs_diff(md, target),
                    target as int,
                ),
            },
        )
    }
}

/// Assess a sampled series against the pin target. `None` when nothing was sampled, which is
/// never a hold: an unverifiable claim must fail rather than grade well.
pub fn assess(series: &[u64], target_khz: u64) -> (r: Option<Hold>)
    ensures
        r == spec_assess(series@, target_khz),
{
    if series.len() == 0 {
        return None;
    }
    let v = sorted_ascending(series);
    proof {
        lemma_le_u64_total();
        series@.lemma_sort_by_ensures(le_u64());
        assert(v@.to_multiset().len() == series@.to_multiset().len());
        vstd::seq_lib::lemma_multiset_commutative(v@, Seq::<u64>::empty());
        assert(v@.len() == series@.len()) by {
            broadcast use vstd::seq_lib::group_to_multiset_ensures;
        }
    }
    let n = v.len();
    let min_khz = v[0];
    let med_khz = v[n / 2];
    let max_khz = v[n - 1];
    proof {
        assert(sorted_by(v@, le_u64()));
        assert(le_u64()(v@[0], v@[n - 1]) || n == 1);
    }
    let spread = if max_khz >= min_khz {
        max_khz - min_khz
    } else {
        0
    };
    let stable = max_khz > 0 && (spread as u128) * 100 <= max_khz as u128;
    let off = if med_khz >= target_khz {
        med_khz - target_khz
    } else {
        target_khz - med_khz
    };
    let on_target = target_khz > 0 && (off as u128) * 100 <= target_khz as u128;
    Some(Hold { n: series.len(), min_khz, med_khz, max_khz, held: stable && on_target })
}

// ---------------------------------------------------------------------------------------------
// The state display: read-freq's lines.
// ---------------------------------------------------------------------------------------------

/// The compressed list's parts from index `i`, the current run having started at `start`.
pub open spec fn runs_from(s: Seq<usize>, i: int, start: usize) -> Seq<Seq<char>>
    decreases s.len() - i,
{
    if i < 0 || i >= s.len() {
        Seq::empty()
    } else if i + 1 >= s.len() {
        seq![run_text(start, s[i])]
    } else if s[i + 1] == s[i] + 1 {
        runs_from(s, i + 1, start)
    } else {
        seq![run_text(start, s[i])] + runs_from(s, i + 1, s[i + 1])
    }
}

/// One run of consecutive CPUs: `5`, or `0-3`.
pub open spec fn run_text(a: usize, b: usize) -> Seq<char> {
    if a == b {
        decimal(a as nat)
    } else {
        decimal(a as nat) + "-"@ + decimal(b as nat)
    }
}

/// A CPU list compressed to runs: `[0,1,2,3,8]` is `0-3,8`.
pub open spec fn cpu_list_text(s: Seq<usize>) -> Seq<char> {
    if s.len() == 0 {
        Seq::empty()
    } else {
        joined(runs_from(s, 0, s[0]), ","@)
    }
}

/// One run's text.
fn run_string(a: usize, b: usize) -> (r: String)
    ensures
        r@ == run_text(a, b),
{
    let mut r = String::new();
    push_decimal(&mut r, a as u64);
    if a != b {
        push_str(&mut r, "-");
        push_decimal(&mut r, b as u64);
    }
    assert(r@ =~= run_text(a, b));
    r
}

/// A compressed CPU list: `[0,1,2,3,8]` -> `0-3,8`.
pub fn cpu_list(cpus: &[usize]) -> (r: String)
    requires
        forall|k: int| 0 <= k < cpus.len() - 1 ==> cpus@[k] < usize::MAX,
    ensures
        r@ == cpu_list_text(cpus@),
{
    let mut parts: Vec<String> = Vec::new();
    let ghost total = if cpus.len() == 0 {
        Seq::<Seq<char>>::empty()
    } else {
        runs_from(cpus@, 0, cpus@[0])
    };
    let mut i: usize = 0;
    while i < cpus.len()
        invariant
            i <= cpus.len(),
            forall|k: int| 0 <= k < cpus.len() - 1 ==> cpus@[k] < usize::MAX,
            total == (if cpus.len() == 0 {
                Seq::<Seq<char>>::empty()
            } else {
                runs_from(cpus@, 0, cpus@[0])
            }),
            i < cpus.len() ==> total == parts.deep_view() + runs_from(cpus@, i as int, cpus@[i as int]),
            i >= cpus.len() ==> total == parts.deep_view(),
        decreases cpus.len() - i,
    {
        let start = cpus[i];
        let mut end = start;
        let ghost i0 = i;
        while i + 1 < cpus.len() && cpus[i + 1] == end + 1
            invariant
                i0 <= i < cpus.len(),
                forall|k: int| 0 <= k < cpus.len() - 1 ==> cpus@[k] < usize::MAX,
                end == cpus@[i as int],
                total == parts.deep_view() + runs_from(cpus@, i as int, start),
            decreases cpus.len() - i,
        {
            i = i + 1;
            end = cpus[i];
        }
        let ghost before = parts.deep_view();
        parts.push(run_string(start, end));
        assert(parts.deep_view() =~= before.push(run_text(start, end)));
        i = i + 1;
        assert(total =~= parts.deep_view() + if i < cpus.len() {
            runs_from(cpus@, i as int, cpus@[i as int])
        } else {
            Seq::empty()
        });
    }
    join(&parts, ",")
}

/// `n / d` rounded to the nearest integer, an exact half going to the even neighbour.
pub open spec fn round_half_even(n: nat, d: nat) -> nat {
    let q = n / d;
    let r = n % d;
    if 2 * r > d || (2 * r == d && q % 2 == 1) {
        q + 1
    } else {
        q
    }
}

/// The least `e >= from` (at most 64) with `n < 2^(53 + e)`: a double holds `n` as a 53-bit
/// significand times `2^e`.
pub open spec fn f64_exponent(n: nat, from: nat) -> nat
    decreases 64 - from,
{
    if from < 64 && n >= pow2(53 + from) {
        f64_exponent(n, from + 1)
    } else {
        from
    }
}

/// The least `k >= from` (at most 200) with `f * 2^k >= 2^52 * 10^6`: the shift that puts
/// `f * 2^k / 10^6` in `[2^52, 2^53)`, where the 53 bits of a double are its integer part.
pub open spec fn quotient_shift(f: nat, from: nat) -> nat
    decreases 200 - from,
{
    if from < 200 && f * pow2(from) < 4503599627370496000000 {
        quotient_shift(f, from + 1)
    } else {
        from
    }
}

/// The hundredths of a GHz that `{:.2}` prints for `khz as f64 / 1e6`: `khz` as the nearest
/// double (`f * 2^e`), divided by `10^6` and rounded to the nearest double (`m * 2^(e - k)`),
/// then rounded to hundredths; each rounding takes an exact half to the even neighbour.
pub open spec fn ghz_hundredths(khz: u64) -> nat {
    let e = f64_exponent(khz as nat, 0);
    let f = round_half_even(khz as nat, pow2(e));
    let k = quotient_shift(f, 0);
    let m = round_half_even(f * pow2(k), 1000000);
    round_half_even(m * 100 * pow2(e), pow2(k))
}

/// kHz as GHz with two decimals, as `{:.2}` prints `khz as f64 / 1e6`: `3800000` is `3.80`,
/// `3805000` is `3.81` (the double just above the half).
pub open spec fn ghz_text(khz: u64) -> Seq<char> {
    let centi = ghz_hundredths(khz);
    decimal(centi / 100) + "."@ + two_digits(centi % 100)
}

/// `n / d` rounded half to even, on machine integers.
fn div_half_even(n: u128, d: u128) -> (q: u128)
    requires
        d > 0,
        n / d < u128::MAX,
    ensures
        q == round_half_even(n as nat, d as nat),
{
    let q = n / d;
    let r = n % d;
    if r > d - r || (r == d - r && q % 2 == 1) {
        q + 1
    } else {
        q
    }
}

/// The hundredths that [`ghz`] prints, computed exactly on integers.
fn ghz_centi(khz: u64) -> (c: u64)
    ensures
        c == ghz_hundredths(khz),
{
    if khz == 0 {
        proof {
            let k = quotient_shift(0, 0);
            lemma_pow2_pos(k);
            lemma_pow2_pos(53);
            assert(pow2(0) == 1) by {
                lemma2_to64();
            }
            assert(f64_exponent(0, 0) == 0);
            assert(round_half_even(0, 1) == 0);
            assert(round_half_even(0, 1000000) == 0);
            assert(round_half_even(0, pow2(k)) == 0);
        }
        return 0;
    }
    let n: u128 = khz as u128;
    let mut e: u64 = 0;
    let mut p: u128 = 1;
    proof {
        lemma2_to64();
    }
    while e < 64 && n >= 9007199254740992u128 * p
        invariant
            1 <= n <= u64::MAX,
            e <= 64,
            p == pow2(e as nat),
            1 <= p <= 4096,
            e > 0 ==> 9007199254740992 * p <= 2 * n,
            f64_exponent(n as nat, 0) == f64_exponent(n as nat, e as nat),
        decreases 64 - e,
    {
        proof {
            lemma_pow2_adds(53, e as nat);
            lemma2_to64_rest();
        }
        p = p * 2;
        e = e + 1;
        proof {
            lemma_pow2_unfold(e as nat);
        }
    }
    proof {
        lemma2_to64();
        lemma2_to64_rest();
        lemma_pow2_adds(53, e as nat);
        if e == 64 {
            assert(false);
        }
        assert(f64_exponent(n as nat, e as nat) == e);
        lemma_multiply_divide_lt(n as int, p as int, 9007199254740992);
        if e > 0 {
            assert(n / p >= 4503599627370496) by (nonlinear_arith)
                requires
                    9007199254740992 * p <= 2 * n,
                    p > 0,
            {
                assert(4503599627370496 * p <= n);
            }
        }
    }
    let f = div_half_even(n, p);
    assert(1 <= f <= 9007199254740992);
    let mut k: u64 = 0;
    let mut pk: u128 = 1;
    let mut x: u128 = f;
    assert(pow2(0) == 1) by {
        lemma2_to64();
    }
    while k < 200 && x < 4503599627370496000000u128
        invariant
            1 <= f <= 9007199254740992,
            k <= 200,
            pk == pow2(k as nat),
            x == f * pk,
            1 <= pk <= x < 9007199254740992000000,
            quotient_shift(f as nat, 0) == quotient_shift(f as nat, k as nat),
        decreases 200 - k,
    {
        assert(f * (pk * 2) == (f * pk) * 2) by (nonlinear_arith);
        x = x * 2;
        pk = pk * 2;
        k = k + 1;
        proof {
            lemma_pow2_unfold(k as nat);
        }
    }
    proof {
        if k == 200 {
            lemma_pow2_strictly_increases(74, 200);
            lemma_pow2_adds(64, 10);
            lemma2_to64();
            assert(false);
        }
        assert(quotient_shift(f as nat, k as nat) == k);
        assert(pk >= 500000) by (nonlinear_arith)
            requires
                x == f * pk,
                x >= 4503599627370496000000,
                f <= 9007199254740992,
        {
            if pk < 500000 {
                assert(f * pk <= 9007199254740992 * pk);
            }
        }
    }
    let m = div_half_even(x, 1000000);
    assert(m <= 9007199254740992);
    assert(m * 100 * p <= 9007199254740992 * 100 * 4096) by (nonlinear_arith)
        requires
            m <= 9007199254740992,
            p <= 4096,
    {
    }
    let num = m * 100 * p;
    proof {
        lemma_div_is_ordered_by_denominator(num as int, 500000, pk as int);
        lemma_div_is_ordered(num as int, 3689348814741910323200int, 500000);
    }
    let c = div_half_even(num, pk);
    assert(c <= 9007199254740992);
    c as u64
}

/// kHz as a `GHz` display value with two decimals (`3800000` -> `3.80`).
pub fn ghz(khz: u64) -> (r: String)
    ensures
        r@ == ghz_text(khz),
{
    let centi = ghz_centi(khz);
    let mut s = String::new();
    push_decimal(&mut s, centi / 100);
    push_str(&mut s, ".");
    push_char(&mut s, digit((centi % 100) / 10));
    push_char(&mut s, digit(centi % 10));
    assert(((centi % 100) / 10) % 10 == (centi % 100) / 10);
    assert((centi % 100) % 10 == centi % 10);
    assert(two_digits((centi % 100) as nat) =~= seq![
        digit_char(((centi % 100) / 10) as nat),
        digit_char((centi % 10) as nat),
    ]);
    assert(s@ =~= decimal((centi / 100) as nat) + "."@ + two_digits((centi % 100) as nat));
    s
}

/// One CPU's displayable policy state, `None` fields simply omitted from the line.
#[derive(Debug, Clone, PartialEq, Eq, PartialOrd, Ord)]
pub struct CpuState {
    /// `scaling_governor`.
    pub governor: Option<String>,
    /// `energy_performance_preference`.
    pub epp: Option<String>,
    /// The boost token (`1` / `0`), per-CPU or global.
    pub boost: Option<String>,
    /// `scaling_min_freq` (kHz).
    pub min_khz: Option<u64>,
    /// `scaling_max_freq` (kHz).
    pub max_khz: Option<u64>,
}

/// A boost token as the state line says it: `1` is `on`, `0` is `off`, anything else itself.
pub open spec fn boost_word(b: Seq<char>) -> Seq<char> {
    if b == "1"@ {
        "on"@
    } else if b == "0"@ {
        "off"@
    } else {
        b
    }
}

/// The state line's fields, in order.
pub open spec fn state_parts(
    st: CpuState,
    cur: Option<(Seq<char>, u64)>,
    base: Option<BaseClock>,
) -> Seq<Seq<char>> {
    let p0 = Seq::<Seq<char>>::empty();
    let p1 = match st.governor {
        Some(g) => p0.push("governor="@ + g@),
        None => p0,
    };
    let p2 = match st.epp {
        Some(e) => p1.push("epp="@ + e@),
        None => p1,
    };
    let p3 = match st.boost {
        Some(b) => p2.push("boost="@ + boost_word(b@)),
        None => p2,
    };
    let p4 = match (st.min_khz, st.max_khz) {
        (Some(mn), Some(mx)) => p3.push("clamp="@ + ghz_text(mn) + "-"@ + ghz_text(mx) + "GHz"@),
        _ => p3,
    };
    let p5 = match cur {
        Some((label, khz)) => p4.push(label + "="@ + ghz_text(khz) + "GHz"@),
        None => p4,
    };
    let p6 = match base {
        Some(b) => p5.push("base="@ + ghz_text(b.khz) + "GHz("@ + b.source@ + ")"@),
        None => p5,
    };
    if p6.len() == 0 {
        seq!["cpufreq not exposed"@]
    } else {
        p6
    }
}

/// Render one policy group's state line. `prefix` carries the `cpuN-M: ` label when the box has
/// more than one group, and the base-clock suffix rides every line so a cut single line still
/// carries it.
pub fn state_line(
    state: &CpuState,
    cur: Option<(&str, u64)>,
    prefix: &str,
    base: Option<&BaseClock>,
) -> (r: String)
    ensures
        r@ == prefix@ + joined(
            state_parts(
                *state,
                match cur {
                    Some((l, k)) => Some((l@, k)),
                    None => None,
                },
                match base {
                    Some(b) => Some(*b),
                    None => None,
                },
            ),
            " "@,
        ),
{
    let mut parts: Vec<String> = Vec::new();
    if let Some(g) = &state.governor {
        let mut p = string_of("governor=");
        push_str(&mut p, g.as_str());
        parts.push(p);
    }
    if let Some(e) = &state.epp {
        let mut p = string_of("epp=");
        push_str(&mut p, e.as_str());
        parts.push(p);
    }
    if let Some(b) = &state.boost {
        let mut p = string_of("boost=");
        if crate::text::str_eq(b.as_str(), "1") {
            push_str(&mut p, "on");
        } else if crate::text::str_eq(b.as_str(), "0") {
            push_str(&mut p, "off");
        } else {
            push_str(&mut p, b.as_str());
        }
        parts.push(p);
    }
    if let (Some(mn), Some(mx)) = (state.min_khz, state.max_khz) {
        let mut p = string_of("clamp=");
        let a = ghz(mn);
        push_str(&mut p, a.as_str());
        push_str(&mut p, "-");
        let b = ghz(mx);
        push_str(&mut p, b.as_str());
        push_str(&mut p, "GHz");
        parts.push(p);
    }
    if let Some((label, khz)) = cur {
        let mut p = string_of(label);
        push_str(&mut p, "=");
        let g = ghz(khz);
        push_str(&mut p, g.as_str());
        push_str(&mut p, "GHz");
        parts.push(p);
    }
    if let Some(b) = base {
        let mut p = string_of("base=");
        let g = ghz(b.khz);
        push_str(&mut p, g.as_str());
        push_str(&mut p, "GHz(");
        push_str(&mut p, b.source.as_str());
        push_str(&mut p, ")");
        parts.push(p);
    }
    if parts.len() == 0 {
        parts.push(string_of("cpufreq not exposed"));
    }
    assert(parts.deep_view() =~= state_parts(
        *state,
        match cur {
            Some((l, k)) => Some((l@, k)),
            None => None,
        },
        match base {
            Some(b) => Some(*b),
            None => None,
        },
    ));
    let mut line = string_of(prefix);
    let j = join(&parts, " ");
    push_str(&mut line, j.as_str());
    line
}

// ---------------------------------------------------------------------------------------------
// The command words' decisions and the --pin-freq run guard.
// ---------------------------------------------------------------------------------------------

/// What `pin-freq` and the run guard decide: a validated steady state, a resolved target that
/// fits every CPU, and so the pin's writes, the restore plan, the target and its source; the
/// first refusal otherwise, in that order.
pub open spec fn spec_engage(
    cfg: Option<FreqConfig>,
    cli_mhz: Option<u64>,
    caps: BoxCaps,
    base: Option<BaseClock>,
) -> Result<(u64, Seq<char>, PlanView, PlanView), Seq<char>> {
    match spec_resolve_steady(cfg, caps) {
        Err(e) => Err(e),
        Ok(steady) => match spec_resolve_pin(cfg, cli_mhz, base) {
            Err(e) => Err(e),
            Ok((khz, source)) => match spec_pin_plan(khz, caps) {
                Err(e) => Err(e),
                Ok(pin) => Ok((khz, source, spec_restore_plan(steady, caps), pin)),
            },
        },
    }
}

/// A base clock as a reference-free option.
pub open spec fn opt_base(base: Option<&BaseClock>) -> Option<BaseClock> {
    match base {
        Some(b) => Some(*b),
        None => None,
    }
}

/// A live run pin: the pinned frequency, where it came from, and the restore plan that must run
/// when the run ends, on every exit path.
#[derive(Debug)]
pub struct RunPin {
    /// The pinned frequency (kHz), for the Setup block's row.
    pub khz: u64,
    /// Where the target came from, for the same row.
    pub source: String,
    /// The restore plan the guard executes.
    pub restore: Plan,
}

impl RunPin {
    /// Validate and plan a pin against the box `caps`: the declared steady state must fit the
    /// box, the target must resolve and fit every CPU. Returns the pin, carrying its restore
    /// plan, and the writes that pin the box; the caller applies them, running the restore plan
    /// best-effort if a write fails.
    pub fn engage(
        cfg: Option<&FreqConfig>,
        cli_mhz: Option<u64>,
        caps: &BoxCaps,
        base: Option<&BaseClock>,
    ) -> (r: Result<(RunPin, Plan), String>)
        requires
            match cfg {
                Some(c) => mhz_fits(c.min_mhz) && mhz_fits(c.max_mhz),
                None => true,
            },
            pin_fits(opt_cfg(cfg), cli_mhz),
        ensures
            match r {
                Ok((pin, writes)) => spec_engage(opt_cfg(cfg), cli_mhz, *caps, opt_base(base)) == Ok::<
                    (u64, Seq<char>, PlanView, PlanView),
                    Seq<char>,
                >((pin.khz, pin.source@, pin.restore.deep_view(), writes.deep_view())),
                Err(e) => spec_engage(opt_cfg(cfg), cli_mhz, *caps, opt_base(base)) == Err::<
                    (u64, Seq<char>, PlanView, PlanView),
                    Seq<char>,
                >(e@),
            },
    {
        let steady = resolve_steady(cfg, caps)?;
        let restore = restore_plan(&steady, caps);
        let (khz, source) = match resolve_pin(cfg, cli_mhz, base) {
            Ok(t) => t,
            Err(e) => {
                return Err(e);
            },
        };
        let pin = match pin_plan(khz, caps) {
            Ok(p) => p,
            Err(e) => {
                return Err(e);
            },
        };
        Ok((RunPin { khz, source, restore }, pin))
    }
}

/// What `restore-freq` decides: the restore plan of the validated steady state.
pub fn restore_command_plan(cfg: Option<&FreqConfig>, caps: &BoxCaps) -> (r: Result<Plan, String>)
    requires
        match cfg {
            Some(c) => mhz_fits(c.min_mhz) && mhz_fits(c.max_mhz),
            None => true,
        },
    ensures
        match r {
            Ok(p) => spec_resolve_steady(opt_cfg(cfg), *caps) matches Ok(st)
                && p.deep_view() == spec_restore_plan(st, *caps),
            Err(e) => spec_resolve_steady(opt_cfg(cfg), *caps) == Err::<Steady, Seq<char>>(e@),
        },
{
    let steady = resolve_steady(cfg, caps)?;
    Ok(restore_plan(&steady, caps))
}

/// What `suggest-freq` decides before it runs anything: the restore plan of the validated
/// steady state and the candidate ladder.
pub fn suggest_command_plan(cfg: Option<&FreqConfig>, caps: &BoxCaps, base_khz: Option<u64>) -> (r:
    Result<(Plan, Vec<u64>), String>)
    requires
        match cfg {
            Some(c) => mhz_fits(c.min_mhz) && mhz_fits(c.max_mhz),
            None => true,
        },
    ensures
        match r {
            Ok((p, _)) => spec_resolve_steady(opt_cfg(cfg), *caps) matches Ok(st)
                && p.deep_view() == spec_restore_plan(st, *caps),
            Err(e) => spec_resolve_steady(opt_cfg(cfg), *caps) == Err::<Steady, Seq<char>>(e@)
                || (spec_resolve_steady(opt_cfg(cfg), *caps) is Ok && (caps.cpus.len() == 0
                    ==> e@ == no_cpus_text()) && (caps.cpus.len() > 0 ==> caps.cpus@[0].avail_khz
                is None && base_khz is None && e@ == no_base_text())),
        },
        r matches Ok((_, v)) ==> caps.cpus.len() > 0 && match caps.cpus@[0].avail_khz {
            Some(a) => largest_distinct(v@, a@, SUGGEST_MAX_CANDIDATES as nat),
            None => base_khz matches Some(b) && v@ == ladder(
                min_u64(b, caps.cpus@[0].hw_max_khz),
                caps.cpus@[0].hw_min_khz,
            ),
        },
{
    let steady = resolve_steady(cfg, caps)?;
    let restore = restore_plan(&steady, caps);
    let candidates = suggest_candidates(caps, base_khz)?;
    Ok((restore, candidates))
}


/// A CPU state's fields as values: what two states are compared by.
pub open spec fn state_key(s: CpuState) -> (
    Option<Seq<char>>,
    Option<Seq<char>>,
    Option<Seq<char>>,
    Option<u64>,
    Option<u64>,
) {
    (opt_view(s.governor), opt_view(s.epp), opt_view(s.boost), s.min_khz, s.max_khz)
}

/// An optional text's view.
pub open spec fn opt_view(o: Option<String>) -> Option<Seq<char>> {
    match o {
        Some(s) => Some(s@),
        None => None,
    }
}

/// Whether two optional texts hold the same.
fn same_text(a: &Option<String>, b: &Option<String>) -> (r: bool)
    ensures
        r == (opt_view(*a) == opt_view(*b)),
{
    match (a, b) {
        (Some(x), Some(y)) => str_eq(x.as_str(), y.as_str()),
        (None, None) => true,
        _ => false,
    }
}

/// Whether two CPUs show the same policy state.
pub fn same_state(a: &CpuState, b: &CpuState) -> (r: bool)
    ensures
        r == (state_key(*a) == state_key(*b)),
{
    same_text(&a.governor, &b.governor) && same_text(&a.epp, &b.epp) && same_text(&a.boost, &b.boost)
        && a.min_khz == b.min_khz && a.max_khz == b.max_khz
}

/// `a` sorts before `b` as `Option`'s order sorts: `None` first, then by the text.
pub open spec fn opt_text_lt(a: Option<Seq<char>>, b: Option<Seq<char>>) -> bool {
    match (a, b) {
        (None, Some(_)) => true,
        (Some(x), Some(y)) => text_lt(x, y),
        _ => false,
    }
}

/// `a` sorts before `b` as `Option`'s order sorts: `None` first, then by value.
pub open spec fn opt_u64_lt(a: Option<u64>, b: Option<u64>) -> bool {
    match (a, b) {
        (None, Some(_)) => true,
        (Some(x), Some(y)) => x < y,
        _ => false,
    }
}

/// `a` sorts before `b` field by field, in declaration order, as the state's `Ord` sorts:
/// governor, EPP, boost, floor, ceiling.
pub open spec fn state_lt(a: CpuState, b: CpuState) -> bool {
    let (ka, kb) = (state_key(a), state_key(b));
    if ka.0 != kb.0 {
        opt_text_lt(ka.0, kb.0)
    } else if ka.1 != kb.1 {
        opt_text_lt(ka.1, kb.1)
    } else if ka.2 != kb.2 {
        opt_text_lt(ka.2, kb.2)
    } else if ka.3 != kb.3 {
        opt_u64_lt(ka.3, kb.3)
    } else {
        opt_u64_lt(ka.4, kb.4)
    }
}

/// Whether `a` sorts before `b`.
fn opt_less(a: &Option<String>, b: &Option<String>) -> (r: bool)
    ensures
        r == opt_text_lt(opt_view(*a), opt_view(*b)),
{
    match (a, b) {
        (None, Some(_)) => true,
        (Some(x), Some(y)) => less_text(x.as_str(), y.as_str()),
        _ => false,
    }
}

/// Whether `a` sorts before `b`.
fn opt_u64_less(a: Option<u64>, b: Option<u64>) -> (r: bool)
    ensures
        r == opt_u64_lt(a, b),
{
    match (a, b) {
        (None, Some(_)) => true,
        (Some(x), Some(y)) => x < y,
        _ => false,
    }
}

/// Whether state `a` sorts before state `b`.
pub fn state_less(a: &CpuState, b: &CpuState) -> (r: bool)
    ensures
        r == state_lt(*a, *b),
{
    if !same_text(&a.governor, &b.governor) {
        opt_less(&a.governor, &b.governor)
    } else if !same_text(&a.epp, &b.epp) {
        opt_less(&a.epp, &b.epp)
    } else if !same_text(&a.boost, &b.boost) {
        opt_less(&a.boost, &b.boost)
    } else if a.min_khz != b.min_khz {
        opt_u64_less(a.min_khz, b.min_khz)
    } else {
        opt_u64_less(a.max_khz, b.max_khz)
    }
}

/// A copy of a state, field by field.
pub fn copy_state(s: &CpuState) -> (r: CpuState)
    ensures
        state_key(r) == state_key(*s),
{
    CpuState {
        governor: copy_text(&s.governor),
        epp: copy_text(&s.epp),
        boost: copy_text(&s.boost),
        min_khz: s.min_khz,
        max_khz: s.max_khz,
    }
}

/// A copy of an optional text.
fn copy_text(o: &Option<String>) -> (r: Option<String>)
    ensures
        opt_view(r) == opt_view(*o),
{
    match o {
        Some(t) => Some(t.clone()),
        None => None,
    }
}

/// The states' order is a strict total order on what the states show: never a state before
/// itself, transitive, and of two states showing different things one sorts first.
pub proof fn lemma_state_order(a: CpuState, b: CpuState, c: CpuState)
    ensures
        !state_lt(a, a),
        state_lt(a, b) && state_lt(b, c) ==> state_lt(a, c),
        state_key(a) != state_key(b) ==> state_lt(a, b) || state_lt(b, a),
        state_key(a) == state_key(b) ==> (state_lt(a, c) == state_lt(b, c) && state_lt(c, a)
            == state_lt(c, b)),
{
    let (ka, kb, kc) = (state_key(a), state_key(b), state_key(c));
    if ka.0 is Some {
        lemma_text_lt_irreflexive(ka.0->0);
    }
    if ka.1 is Some {
        lemma_text_lt_irreflexive(ka.1->0);
    }
    if ka.2 is Some {
        lemma_text_lt_irreflexive(ka.2->0);
    }
    if ka.0 is Some && kb.0 is Some && kc.0 is Some && text_lt(ka.0->0, kb.0->0) && text_lt(kb.0->0, kc.0->0) {
        lemma_text_lt_transitive(ka.0->0, kb.0->0, kc.0->0);
    }
    if ka.1 is Some && kb.1 is Some && kc.1 is Some && text_lt(ka.1->0, kb.1->0) && text_lt(kb.1->0, kc.1->0) {
        lemma_text_lt_transitive(ka.1->0, kb.1->0, kc.1->0);
    }
    if ka.2 is Some && kb.2 is Some && kc.2 is Some && text_lt(ka.2->0, kb.2->0) && text_lt(kb.2->0, kc.2->0) {
        lemma_text_lt_transitive(ka.2->0, kb.2->0, kc.2->0);
    }
    if ka.0 is Some && kb.0 is Some && ka.0 != kb.0 {
        lemma_text_lt_total(ka.0->0, kb.0->0);
    }
    if ka.1 is Some && kb.1 is Some && ka.1 != kb.1 {
        lemma_text_lt_total(ka.1->0, kb.1->0);
    }
    if ka.2 is Some && kb.2 is Some && ka.2 != kb.2 {
        lemma_text_lt_total(ka.2->0, kb.2->0);
    }
    if ka.0 is Some && kb.0 is Some && ka.0 == kb.0 {
        lemma_text_lt_irreflexive(ka.0->0);
    }
    if kc.0 is Some {
        lemma_text_lt_irreflexive(kc.0->0);
    }
    if kc.1 is Some {
        lemma_text_lt_irreflexive(kc.1->0);
    }
    if kc.2 is Some {
        lemma_text_lt_irreflexive(kc.2->0);
    }
    if kb.0 is Some {
        lemma_text_lt_irreflexive(kb.0->0);
    }
    if kb.1 is Some {
        lemma_text_lt_irreflexive(kb.1->0);
    }
    if kb.2 is Some {
        lemma_text_lt_irreflexive(kb.2->0);
    }
}

/// The CPUs of `cpus` whose state is `key`'s, in order.
pub open spec fn cpus_with(cpus: Seq<usize>, states: Seq<CpuState>, key: CpuState) -> Seq<usize>
    decreases cpus.len(),
{
    if cpus.len() == 0 {
        Seq::empty()
    } else {
        let rest = cpus_with(cpus.drop_last(), states, key);
        if state_key(states[cpus.len() - 1]) == state_key(key) {
            rest.push(cpus.last())
        } else {
            rest
        }
    }
}

/// One more CPU onto the groups of the CPUs before it.
pub proof fn lemma_cpus_with_step(cpus: Seq<usize>, states: Seq<CpuState>, key: CpuState, n: int)
    requires
        0 <= n < cpus.len(),
    ensures
        cpus_with(cpus.take(n + 1), states, key) == if state_key(states[n]) == state_key(key) {
            cpus_with(cpus.take(n), states, key).push(cpus[n])
        } else {
            cpus_with(cpus.take(n), states, key)
        },
{
    assert(cpus.take(n + 1).drop_last() =~= cpus.take(n));
}

/// The policy groups of `cpus`, whose states are `states`: one group per distinct state, in
/// the states' sorted order, each with the CPUs showing it, in the order given.
pub open spec fn groups_of(
    cpus: Seq<usize>,
    states: Seq<CpuState>,
    groups: Seq<(CpuState, Vec<usize>)>,
) -> bool {
    &&& forall|g: int, h: int|
        #![trigger groups[g], groups[h]]
        0 <= g < h < groups.len() ==> state_lt(groups[g].0, groups[h].0)
    &&& forall|g: int|
        0 <= g < groups.len() ==> (#[trigger] groups[g]).1@ == cpus_with(cpus, states, groups[g].0)
            && groups[g].1@.len() > 0
    &&& forall|k: CpuState|
        (forall|g: int| 0 <= g < groups.len() ==> state_key(#[trigger] groups[g].0) != state_key(k))
            ==> #[trigger] cpus_with(cpus, states, k).len() == 0
}

/// Group CPUs by the policy state they show, the groups in the states' sorted order and each
/// group's CPUs in the order given, as a map keyed by the state collects them.
pub fn state_groups(cpus: &Vec<usize>, states: &Vec<CpuState>) -> (r: Vec<(CpuState, Vec<usize>)>)
    requires
        cpus.len() == states.len(),
    ensures
        groups_of(cpus@, states@, r@),
{
    let mut groups: Vec<(CpuState, Vec<usize>)> = Vec::new();
    let mut i: usize = 0;
    assert forall|k: CpuState| (forall|g: int| 0 <= g < groups.len() ==> state_key(#[trigger] groups@[g].0) != state_key(k))
        implies #[trigger] cpus_with(cpus@.take(0), states@, k).len() == 0 by {
        assert(cpus@.take(0) =~= Seq::<usize>::empty());
    }
    while i < cpus.len()
        invariant
            i <= cpus.len() == states.len(),
            groups_of(cpus@.take(i as int), states@, groups@),
        decreases cpus.len() - i,
    {
        let st = &states[i];
        let mut g: usize = 0;
        while g < groups.len() && state_less(&groups[g].0, st)
            invariant
                g <= groups.len(),
                forall|h: int| 0 <= h < g ==> state_lt(#[trigger] groups@[h].0, *st),
            decreases groups.len() - g,
        {
            g = g + 1;
        }
        let ghost old_groups = groups@;
        let ghost pre = cpus@.take(i as int);
        let ghost post = cpus@.take(i + 1);
        proof {
            assert forall|k: CpuState| #[trigger] cpus_with(post, states@, k) == if state_key(
                states@[i as int],
            ) == state_key(k) {
                cpus_with(pre, states@, k).push(cpus@[i as int])
            } else {
                cpus_with(pre, states@, k)
            } by {
                lemma_cpus_with_step(cpus@, states@, k, i as int);
            }
        }
        if g < groups.len() && same_state(&groups[g].0, st) {
            proof {
                // No other group shows this state: the groups before sort before it, the ones
                // after sort after group g, which shows it.
                assert forall|h: int| 0 <= h < old_groups.len() && h != g implies state_key(
                    #[trigger] old_groups[h].0,
                ) != state_key(*st) by {
                    lemma_state_order(old_groups[h].0, *st, old_groups[g as int].0);
                    lemma_state_order(old_groups[g as int].0, *st, old_groups[h].0);
                    if h > g {
                        assert(state_lt(old_groups[g as int].0, old_groups[h].0));
                    }
                }
            }
            let mut here: (CpuState, Vec<usize>) = (copy_state(st), Vec::new());
            groups.set_and_swap(g, &mut here);
            let (key, mut members) = here;
            members.push(cpus[i]);
            groups.set(g, (key, members));
            proof {
                assert forall|h: int, j: int|
                    #![trigger groups@[h], groups@[j]]
                    0 <= h < j < groups.len() implies state_lt(groups@[h].0, groups@[j].0) by {
                    assert(state_lt(old_groups[h].0, old_groups[j].0));
                }
                assert forall|h: int| 0 <= h < groups.len() implies (#[trigger] groups@[h]).1@
                    == cpus_with(post, states@, groups@[h].0) && groups@[h].1@.len() > 0 by {
                    assert(groups@[h].0 == old_groups[h].0);
                }
                assert forall|k: CpuState|
                    (forall|h: int| 0 <= h < groups.len() ==> state_key(#[trigger] groups@[h].0)
                        != state_key(k)) implies #[trigger] cpus_with(post, states@, k).len() == 0 by {
                    assert(state_key(groups@[g as int].0) != state_key(k));
                    assert forall|h: int| 0 <= h < old_groups.len() implies state_key(
                        #[trigger] old_groups[h].0,
                    ) != state_key(k) by {
                        assert(groups@[h].0 == old_groups[h].0);
                    }
                }
            }
        } else {
            proof {
                // The state is new: every group before sorts before it, every group from `g`
                // on after it.
                assert forall|h: int| 0 <= h < old_groups.len() implies state_key(
                    #[trigger] old_groups[h].0,
                ) != state_key(*st) by {
                    lemma_state_order(old_groups[h].0, *st, *st);
                    if h >= g {
                        lemma_state_order(old_groups[g as int].0, *st, old_groups[h].0);
                        if h > g {
                            assert(state_lt(old_groups[g as int].0, old_groups[h].0));
                            lemma_state_order(old_groups[g as int].0, old_groups[h].0, *st);
                        }
                    }
                }
                assert(cpus_with(pre, states@, *st).len() == 0);
            }
            let mut one: Vec<usize> = Vec::new();
            one.push(cpus[i]);
            groups.insert(g, (copy_state(st), one));
            proof {
                assert forall|h: int, j: int|
                    #![trigger groups@[h], groups@[j]]
                    0 <= h < j < groups.len() implies state_lt(groups@[h].0, groups@[j].0) by {
                    if j < g {
                        assert(state_lt(old_groups[h].0, old_groups[j].0));
                    } else if j == g {
                        lemma_state_order(groups@[h].0, old_groups[h].0, *st);
                        lemma_state_order(*st, groups@[j].0, groups@[h].0);
                    } else if h == g {
                        lemma_state_order(old_groups[g as int].0, *st, *st);
                        lemma_state_order(*st, old_groups[g as int].0, old_groups[j - 1].0);
                        if j - 1 > g {
                            assert(state_lt(old_groups[g as int].0, old_groups[j - 1].0));
                            lemma_state_order(*st, old_groups[g as int].0, old_groups[j - 1].0);
                        }
                        lemma_state_order(groups@[h].0, *st, groups@[j].0);
                    } else if h < g {
                        lemma_state_order(old_groups[h].0, *st, *st);
                        lemma_state_order(old_groups[g as int].0, *st, *st);
                        lemma_state_order(*st, old_groups[g as int].0, old_groups[j - 1].0);
                        if j - 1 > g {
                            assert(state_lt(old_groups[g as int].0, old_groups[j - 1].0));
                        }
                        lemma_state_order(old_groups[h].0, *st, old_groups[j - 1].0);
                        assert(state_lt(old_groups[h].0, old_groups[j - 1].0));
                    } else {
                        assert(state_lt(old_groups[h - 1].0, old_groups[j - 1].0));
                    }
                }
                assert forall|h: int| 0 <= h < groups.len() implies (#[trigger] groups@[h]).1@
                    == cpus_with(post, states@, groups@[h].0) && groups@[h].1@.len() > 0 by {
                    if h < g {
                        assert(groups@[h] == old_groups[h]);
                    } else if h > g {
                        assert(groups@[h] == old_groups[h - 1]);
                    }
                }
                assert forall|k: CpuState|
                    (forall|h: int| 0 <= h < groups.len() ==> state_key(#[trigger] groups@[h].0)
                        != state_key(k)) implies #[trigger] cpus_with(post, states@, k).len() == 0 by {
                    assert(state_key(groups@[g as int].0) != state_key(k));
                    assert forall|h: int| 0 <= h < old_groups.len() implies state_key(
                        #[trigger] old_groups[h].0,
                    ) != state_key(k) by {
                        if h < g {
                            assert(groups@[h] == old_groups[h]);
                        } else {
                            assert(groups@[h + 1] == old_groups[h]);
                        }
                    }
                }
            }
        }
        i = i + 1;
    }
    assert(cpus@.take(cpus.len() as int) =~= cpus@);
    groups
}


/// The reading for `cpu`: the entry beside its first place in `cpus`.
pub open spec fn cur_of(cpus: Seq<usize>, cur: Seq<Option<(String, u64)>>, cpu: usize) -> Option<
    (Seq<char>, u64),
>
    decreases cpus.len(),
{
    if cpus.len() == 0 {
        None
    } else if cpus[0] == cpu {
        match cur[0] {
            Some((l, k)) => Some((l@, k)),
            None => None,
        }
    } else {
        cur_of(cpus.drop_first(), cur.drop_first(), cpu)
    }
}

/// A group's line: its CPUs as a prefix when the box has more than one group, then its state.
pub open spec fn group_line(
    gr: (CpuState, Vec<usize>),
    one: bool,
    cpus: Seq<usize>,
    cur: Seq<Option<(String, u64)>>,
    base: Option<BaseClock>,
) -> Seq<char> {
    (if one {
        Seq::empty()
    } else {
        "cpu"@ + cpu_list_text(gr.1@) + ": "@
    }) + joined(state_parts(gr.0, cur_of(cpus, cur, gr.1@[0]), base), " "@)
}

/// The box's state lines for its groups.
pub open spec fn lines_of(
    groups: Seq<(CpuState, Vec<usize>)>,
    cpus: Seq<usize>,
    cur: Seq<Option<(String, u64)>>,
    base: Option<BaseClock>,
) -> Seq<Seq<char>> {
    if groups.len() == 0 {
        seq!["cpufreq not exposed"@]
    } else {
        groups.map_values(
            |gr: (CpuState, Vec<usize>)| group_line(gr, groups.len() == 1, cpus, cur, base),
        )
    }
}

/// The reading beside `cpu`'s first place in `cpus`.
fn cur_for<'a>(cpus: &Vec<usize>, cur: &'a Vec<Option<(String, u64)>>, cpu: usize) -> (r: Option<(&'a str, u64)>)
    requires
        cpus.len() == cur.len(),
    ensures
        match r {
            Some((l, k)) => cur_of(cpus@, cur@, cpu) == Some((l@, k)),
            None => cur_of(cpus@, cur@, cpu) is None,
        },
{
    assert(cpus@.skip(0) =~= cpus@);
    assert(cur@.skip(0) =~= cur@);
    let mut i: usize = 0;
    while i < cpus.len()
        invariant
            i <= cpus.len() == cur.len(),
            cur_of(cpus@, cur@, cpu) == cur_of(cpus@.skip(i as int), cur@.skip(i as int), cpu),
        decreases cpus.len() - i,
    {
        assert(cpus@.skip(i as int).drop_first() =~= cpus@.skip(i + 1));
        assert(cur@.skip(i as int).drop_first() =~= cur@.skip(i + 1));
        if cpus[i] == cpu {
            return match &cur[i] {
                Some((l, k)) => Some((l.as_str(), *k)),
                None => None,
            };
        }
        i = i + 1;
    }
    None
}

/// The box's state lines, one per policy group: CPUs sharing an identical (governor, EPP,
/// boost, clamp) state collapse into one line, and a single-group box (the common case) prints
/// exactly one line with no CPU prefix. `cur` is each CPU's current-frequency reading, beside
/// it in `cpus`; only each group's first CPU's is shown.
pub fn state_lines(
    cpus: &Vec<usize>,
    states: &Vec<CpuState>,
    cur: &Vec<Option<(String, u64)>>,
    base: Option<&BaseClock>,
) -> (r: Vec<String>)
    requires
        cpus.len() == states.len(),
        cpus.len() == cur.len(),
        forall|k: int| 0 <= k < cpus.len() ==> cpus@[k] < usize::MAX,
    ensures
        exists|gs: Seq<(CpuState, Vec<usize>)>|
            groups_of(cpus@, states@, gs) && r.deep_view() == lines_of(
                gs,
                cpus@,
                cur@,
                match base {
                    Some(b) => Some(*b),
                    None => None,
                },
            ),
{
    let groups = state_groups(cpus, states);
    let ghost b = match base {
        Some(b) => Some(*b),
        None => None,
    };
    let mut lines: Vec<String> = Vec::new();
    if groups.len() == 0 {
        lines.push(string_of("cpufreq not exposed"));
        assert(lines.deep_view() =~= lines_of(groups@, cpus@, cur@, b));
        return lines;
    }
    let one = groups.len() == 1;
    let mut g: usize = 0;
    while g < groups.len()
        invariant
            g <= groups.len(),
            groups.len() > 0,
            one == (groups.len() == 1),
            b == match base {
                Some(x) => Some(*x),
                None => None,
            },
            cpus.len() == cur.len(),
            groups_of(cpus@, states@, groups@),
            forall|k: int| 0 <= k < cpus.len() ==> cpus@[k] < usize::MAX,
            lines.len() == g,
            forall|h: int|
                0 <= h < g ==> (#[trigger] lines@[h])@ == group_line(groups@[h], one, cpus@, cur@, b),
        decreases groups.len() - g,
    {
        let members = &groups[g].1;
        assert(members@.len() > 0);
        proof {
            assert forall|k: int| 0 <= k < members.len() - 1 implies members@[k] < usize::MAX by {
                lemma_cpus_with_member(cpus@, states@, groups@[g as int].0, k);
            }
        }
        let prefix = if one {
            String::new()
        } else {
            let mut p = string_of("cpu");
            let l = cpu_list(members.as_slice());
            push_str(&mut p, l.as_str());
            push_str(&mut p, ": ");
            p
        };
        assert(prefix@ == if one {
            Seq::<char>::empty()
        } else {
            "cpu"@ + cpu_list_text(members@) + ": "@
        });
        let first = members[0];
        let c = cur_for(cpus, cur, first);
        let ghost cv = match c {
            Some((l, k)) => Some((l@, k)),
            None => None,
        };
        assert(cv == cur_of(cpus@, cur@, groups@[g as int].1@[0]));
        let line = state_line(&groups[g].0, c, prefix.as_str(), base);
        assert(line@ == prefix@ + joined(state_parts(groups@[g as int].0, cv, b), " "@));
        assert(line@ == group_line(groups@[g as int], one, cpus@, cur@, b));
        let ghost before = lines@;
        lines.push(line);
        assert(forall|h: int| 0 <= h < g ==> lines@[h] == before[h]);
        g = g + 1;
    }
    assert(lines.deep_view() =~= lines_of(groups@, cpus@, cur@, b));
    lines
}

/// Every CPU a group lists is one of `cpus`.
pub proof fn lemma_cpus_with_member(cpus: Seq<usize>, states: Seq<CpuState>, key: CpuState, k: int)
    requires
        0 <= k < cpus_with(cpus, states, key).len(),
    ensures
        cpus.contains(cpus_with(cpus, states, key)[k]),
    decreases cpus.len(),
{
    let rest = cpus_with(cpus.drop_last(), states, key);
    if k < rest.len() {
        lemma_cpus_with_member(cpus.drop_last(), states, key, k);
        let j = choose|j: int| 0 <= j < cpus.drop_last().len() && cpus.drop_last()[j] == rest[k];
        assert(cpus[j] == rest[k]);
    } else {
        assert(cpus[cpus.len() - 1] == cpus_with(cpus, states, key)[k]);
    }
}

/// The paste-ready `[freq]` section for a box whose CPUs are `cpus`, showing `states`: the first
/// CPU's values, a note when the CPUs disagree, the boost token as a switch, and comments for
/// what is left undeclared: the hardware range and the base clock.
pub open spec fn spec_as_config(
    cpus: Seq<usize>,
    states: Seq<CpuState>,
    hw: Option<(u64, u64)>,
    base: Option<BaseClock>,
) -> Result<Seq<Seq<char>>, Seq<char>> {
    if cpus.len() == 0 {
        Err("no CPUs under /sys/devices/system/cpu"@)
    } else if states[0].governor is None {
        Err("cpufreq exposes no scaling_governor: nothing to declare"@)
    } else {
        let s = states[0];
        let l0 = seq!["[freq]"@];
        let l1 = if exists|i: int| 0 <= i < states.len() && state_key(#[trigger] states[i]) != state_key(s) {
            l0.push("# cpu policy groups disagree: these are cpu"@ + decimal(cpus[0] as nat) + "'s values"@)
        } else {
            l0
        };
        let l2 = l1.push("governor = "@ + debug_quoted(s.governor->0@));
        let l3 = match s.epp {
            Some(e) => l2.push("epp = "@ + debug_quoted(e@)),
            None => l2,
        };
        let l4 = match s.boost {
            Some(b) => if b@ == "1"@ {
                l3.push("boost = true"@)
            } else if b@ == "0"@ {
                l3.push("boost = false"@)
            } else {
                l3.push("# boost token "@ + debug_quoted(b@) + " unrecognized: declare boost by hand"@)
            },
            None => l3,
        };
        let l5 = match hw {
            Some((mn, mx)) => l4.push(
                "# min_mhz / max_mhz omitted: the hardware range ("@ + decimal((mn / 1000) as nat) + "-"@
                    + decimal((mx / 1000) as nat) + " MHz)"@,
            ),
            None => l4,
        };
        Ok(
            match base {
                Some(b) => l5.push(
                    "# pin_mhz omitted: the base clock ("@ + decimal((b.khz / 1000) as nat) + " MHz from "@
                        + b.source@ + ")"@,
                ),
                None => l5.push("# pin_mhz: no base clock discoverable, declare one before pinning"@),
            },
        )
    }
}

/// The `read-freq --as-config` text: the current state as a paste-ready `[freq]` section, from
/// the CPUs' states, the first CPU's hardware range when it reads, and the base clock when one
/// is known.
pub fn as_config(
    cpus: &Vec<usize>,
    states: &Vec<CpuState>,
    hw: Option<(u64, u64)>,
    base: Option<&BaseClock>,
) -> (r: Result<Vec<String>, String>)
    requires
        cpus.len() == states.len(),
    ensures
        match r {
            Ok(lines) => spec_as_config(
                cpus@,
                states@,
                hw,
                match base {
                    Some(b) => Some(*b),
                    None => None,
                },
            ) == Ok::<Seq<Seq<char>>, Seq<char>>(lines.deep_view()),
            Err(e) => spec_as_config(
                cpus@,
                states@,
                hw,
                match base {
                    Some(b) => Some(*b),
                    None => None,
                },
            ) == Err::<Seq<Seq<char>>, Seq<char>>(e@),
        },
{
    proof {
        reveal_strlit("1");
        reveal_strlit("0");
    }
    if cpus.len() == 0 {
        return Err(string_of("no CPUs under /sys/devices/system/cpu"));
    }
    let state = &states[0];
    let governor = match &state.governor {
        Some(g) => g,
        None => {
            return Err(string_of("cpufreq exposes no scaling_governor: nothing to declare"));
        },
    };
    let mut lines: Vec<String> = Vec::new();
    lines.push(string_of("[freq]"));
    let mut i: usize = 0;
    let mut agree = true;
    while i < states.len()
        invariant
            i <= states.len(),
            states.len() > 0,
            agree == forall|j: int| 0 <= j < i ==> state_key(#[trigger] states@[j]) == state_key(states@[0]),
        decreases states.len() - i,
    {
        if !same_state(&states[i], &states[0]) {
            agree = false;
        }
        i = i + 1;
    }
    if !agree {
        let mut l = string_of("# cpu policy groups disagree: these are cpu");
        push_decimal(&mut l, cpus[0] as u64);
        push_str(&mut l, "'s values");
        lines.push(l);
    }
    let mut l = string_of("governor = ");
    let q = debug_quote(governor.as_str());
    push_str(&mut l, q.as_str());
    lines.push(l);
    if let Some(epp) = &state.epp {
        let mut l = string_of("epp = ");
        let q = debug_quote(epp.as_str());
        push_str(&mut l, q.as_str());
        lines.push(l);
    }
    if let Some(b) = &state.boost {
        if str_eq(b.as_str(), "1") {
            lines.push(string_of("boost = true"));
        } else if str_eq(b.as_str(), "0") {
            lines.push(string_of("boost = false"));
        } else {
            let mut l = string_of("# boost token ");
            let q = debug_quote(b.as_str());
            push_str(&mut l, q.as_str());
            push_str(&mut l, " unrecognized: declare boost by hand");
            lines.push(l);
        }
    }
    if let Some((mn, mx)) = hw {
        let mut l = string_of("# min_mhz / max_mhz omitted: the hardware range (");
        push_decimal(&mut l, mn / 1000);
        push_str(&mut l, "-");
        push_decimal(&mut l, mx / 1000);
        push_str(&mut l, " MHz)");
        lines.push(l);
    }
    match base {
        Some(b) => {
            let mut l = string_of("# pin_mhz omitted: the base clock (");
            push_decimal(&mut l, b.khz / 1000);
            push_str(&mut l, " MHz from ");
            push_str(&mut l, b.source.as_str());
            push_str(&mut l, ")");
            lines.push(l);
        },
        None => {
            lines.push(string_of("# pin_mhz: no base clock discoverable, declare one before pinning"));
        },
    }
    assert(lines.deep_view() =~= spec_as_config(
        cpus@,
        states@,
        hw,
        match base {
            Some(b) => Some(*b),
            None => None,
        },
    )->Ok_0);
    Ok(lines)
}

/// What the `suggest-freq` descent does next: pin a candidate and run the bench under it,
/// suggest the candidate that held, or give up when the ladder is spent.
#[derive(Debug, Clone, Copy, PartialEq, Eq, Structural)]
pub enum SuggestAction {
    /// Pin this candidate (kHz) and run the bench.
    Pin(u64),
    /// This candidate (kHz) held: suggest it.
    Suggest(u64),
    /// No candidate held.
    GiveUp,
}

/// The descent's first step: the top candidate, or nothing to try.
pub fn suggest_start(candidates: &Vec<u64>) -> (r: SuggestAction)
    ensures
        r == if candidates.len() > 0 {
            SuggestAction::Pin(candidates@[0])
        } else {
            SuggestAction::GiveUp
        },
{
    if candidates.len() > 0 {
        SuggestAction::Pin(candidates[0])
    } else {
        SuggestAction::GiveUp
    }
}

/// The action after candidate `i`, given whether it held: suggest it, else pin the next one
/// down, else give up.
pub open spec fn step_action(candidates: Seq<u64>, i: int, held: bool) -> SuggestAction {
    if held {
        SuggestAction::Suggest(candidates[i])
    } else if i + 1 < candidates.len() {
        SuggestAction::Pin(candidates[i + 1])
    } else {
        SuggestAction::GiveUp
    }
}

/// Where the descent ends when candidate `i` is pinned and each outcome is answered with
/// [`step_action`], the next candidate pinned after each step that pins.
pub open spec fn stepped(candidates: Seq<u64>, held: Seq<bool>, i: int) -> SuggestAction
    decreases candidates.len() - i,
{
    if i < 0 || i >= candidates.len() {
        SuggestAction::GiveUp
    } else {
        match step_action(candidates, i, held[i]) {
            SuggestAction::Pin(_) => stepped(candidates, held, i + 1),
            a => a,
        }
    }
}

/// Where the whole descent ends: [`suggest_start`]'s action, followed by [`suggest_step`]'s
/// until one does not pin.
pub open spec fn run_descent(candidates: Seq<u64>, held: Seq<bool>) -> SuggestAction {
    if candidates.len() > 0 {
        stepped(candidates, held, 0)
    } else {
        SuggestAction::GiveUp
    }
}

/// Stepping from candidate `i` ends where the descent from `i` does.
proof fn lemma_stepped_is_descent(candidates: Seq<u64>, held: Seq<bool>, i: int)
    requires
        held.len() == candidates.len(),
        0 <= i <= candidates.len(),
    ensures
        stepped(candidates, held, i) == descent(candidates, held, i),
    decreases candidates.len() - i,
{
    if i < candidates.len() {
        lemma_stepped_is_descent(candidates, held, i + 1);
    }
}

/// Starting with [`suggest_start`] and answering each pinned candidate's outcome with
/// [`suggest_step`] ends where [`descent`] says: at the highest candidate that held, or giving
/// up when none did.
pub proof fn stepping_from_the_start_is_the_descent(candidates: Seq<u64>, held: Seq<bool>)
    requires
        held.len() == candidates.len(),
    ensures
        run_descent(candidates, held) == descent(candidates, held, 0),
{
    lemma_stepped_is_descent(candidates, held, 0);
}

/// The descent's step after candidate `i`'s outcome: a candidate that held is the suggestion,
/// and otherwise the next one down is pinned, until the ladder is spent. No samples is a
/// failure: unverifiable is not held.
pub fn suggest_step(candidates: &Vec<u64>, i: usize, hold: &Option<Hold>) -> (r: SuggestAction)
    requires
        i < candidates.len(),
    ensures
        r == step_action(candidates@, i as int, hold matches Some(h) && h.held),
{
    match hold {
        Some(h) => {
            if h.held {
                return SuggestAction::Suggest(candidates[i]);
            }
        },
        None => {},
    }
    if i + 1 < candidates.len() {
        SuggestAction::Pin(candidates[i + 1])
    } else {
        SuggestAction::GiveUp
    }
}

/// The line a candidate's outcome prints.
pub open spec fn hold_text(khz: u64, hold: Option<Hold>) -> Seq<char> {
    "candidate "@ + decimal((khz / 1000) as nat) + match hold {
        None => " MHz: no clock samples, not held (unverifiable is a failure)"@,
        Some(h) => (if h.held {
            " MHz: held. Delivered "@
        } else {
            " MHz: not held. Delivered "@
        }) + ghz_text(h.min_khz) + "-"@ + ghz_text(h.max_khz) + " GHz, median "@ + ghz_text(
            h.med_khz,
        ) + ", "@ + decimal(h.n as nat) + " samples"@,
    }
}

/// The line a candidate's outcome prints.
pub fn hold_line(khz: u64, hold: &Option<Hold>) -> (r: String)
    ensures
        r@ == hold_text(khz, *hold),
{
    let mut l = string_of("candidate ");
    push_decimal(&mut l, khz / 1000);
    match hold {
        None => {
            push_str(&mut l, " MHz: no clock samples, not held (unverifiable is a failure)");
        },
        Some(h) => {
            if h.held {
                push_str(&mut l, " MHz: held. Delivered ");
            } else {
                push_str(&mut l, " MHz: not held. Delivered ");
            }
            let a = ghz(h.min_khz);
            push_str(&mut l, a.as_str());
            push_str(&mut l, "-");
            let b = ghz(h.max_khz);
            push_str(&mut l, b.as_str());
            push_str(&mut l, " GHz, median ");
            let c = ghz(h.med_khz);
            push_str(&mut l, c.as_str());
            push_str(&mut l, ", ");
            push_decimal(&mut l, h.n as u64);
            push_str(&mut l, " samples");
        },
    }
    l
}

/// Where the descent from candidate `i` ends, given each candidate's outcome: the first held
/// candidate from `i` down, or nothing.
pub open spec fn descent(candidates: Seq<u64>, held: Seq<bool>, i: int) -> SuggestAction
    decreases candidates.len() - i,
{
    if i < 0 || i >= candidates.len() {
        SuggestAction::GiveUp
    } else if held[i] {
        SuggestAction::Suggest(candidates[i])
    } else {
        descent(candidates, held, i + 1)
    }
}

/// The descent suggests the highest candidate that holds: stepping down a descending ladder
/// with [`suggest_step`], the first candidate held is suggested, no held candidate is higher,
/// and the descent gives up exactly when none holds.
pub proof fn descent_suggests_the_highest_held(candidates: Seq<u64>, held: Seq<bool>, i: int)
    requires
        held.len() == candidates.len(),
        forall|a: int, b: int| 0 <= a < b < candidates.len() ==> candidates[a] > candidates[b],
        0 <= i <= candidates.len(),
    ensures
        descent(candidates, held, i) is GiveUp <==> forall|j: int| i <= j < candidates.len() ==> !held[j],
        descent(candidates, held, i) matches SuggestAction::Suggest(k) ==> exists|j: int|
            i <= j < candidates.len() && held[j] && candidates[j] == k,
        descent(candidates, held, i) matches SuggestAction::Suggest(k) ==> forall|j: int|
            i <= j < candidates.len() && held[j] ==> candidates[j] <= k,
        descent(candidates, held, i) !is Pin,
    decreases candidates.len() - i,
{
    if i < candidates.len() && !held[i] {
        descent_suggests_the_highest_held(candidates, held, i + 1);
    }
}
} // verus!
