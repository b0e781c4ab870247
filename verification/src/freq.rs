//! cpufreq readings, in two jobs: what the CPU is doing *now*, and what it has been *told to
//! do*. The sysfs reads themselves are the caller's; this module holds what a reading means.
//!
//! - **Delivered frequency** ([`FreqSample`], [`clock_stable`]) feeds the warm loop's clock test:
//!   `cpuinfo_avg_freq` where the driver provides it, nothing otherwise.
//! - **Policy** ([`Policy`], [`PolicyField`]) is the standing configuration: which driver,
//!   governor, EPP and boost setting the box is running under, provenance rather than
//!   measurement.

use vstd::prelude::*;
use crate::freqctl::within_band;
use crate::analyze::{by_number, in_number_order, insert_run, lemma_number_order_unique};
use crate::text::{chars_of, spec_parse_u64, starts_with};

verus! {

/// One delivered-frequency sample: which logical CPU it was read on, and the kHz value.
#[derive(Debug, Clone, Copy, PartialEq, Eq, Structural)]
pub struct FreqSample {
    /// Logical CPU the calling thread was on at the read.
    pub cpu: usize,
    /// Delivered frequency (kHz) as the driver reports it.
    pub khz: u64,
}

/// The fastest readable sample of a window, 0 when none is readable.
pub open spec fn read_max(s: Seq<Option<FreqSample>>) -> u64
    decreases s.len(),
{
    if s.len() == 0 {
        0
    } else {
        let m = read_max(s.drop_last());
        match s.last() {
            Some(f) => if f.khz > m {
                f.khz
            } else {
                m
            },
            None => m,
        }
    }
}

/// The slowest readable sample of a window, `u64::MAX` when none is readable.
pub open spec fn read_min(s: Seq<Option<FreqSample>>) -> u64
    decreases s.len(),
{
    if s.len() == 0 {
        u64::MAX
    } else {
        let m = read_min(s.drop_last());
        match s.last() {
            Some(f) => if f.khz < m {
                f.khz
            } else {
                m
            },
            None => m,
        }
    }
}

/// How many samples of a window are readable.
pub open spec fn readable(s: Seq<Option<FreqSample>>) -> nat
    decreases s.len(),
{
    if s.len() == 0 {
        0
    } else {
        readable(s.drop_last()) + if s.last() is Some {
            1nat
        } else {
            0nat
        }
    }
}

/// Every sample read, all on one CPU.
pub open spec fn clean_same_cpu(s: Seq<Option<FreqSample>>) -> bool {
    &&& forall|i: int| 0 <= i < s.len() ==> (#[trigger] s[i]) is Some
    &&& forall|i: int, j: int|
        0 <= i < s.len() && 0 <= j < s.len() ==> (#[trigger] s[i]).unwrap().cpu == (
        #[trigger] s[j]).unwrap().cpu
}

/// What [`clock_stable`] says of a window: held within the 1% band, timing-only (`true`)
/// without a clean same-CPU series or any nonzero reading.
pub open spec fn spec_clock_stable(s: Seq<Option<FreqSample>>) -> bool {
    if !clean_same_cpu(s) || read_max(s) == 0 {
        true
    } else {
        within_band(read_max(s) - read_min(s), read_max(s) as int)
    }
}

/// Extending a window by one sample.
pub proof fn lemma_read_step(s: Seq<Option<FreqSample>>, i: int)
    requires
        0 <= i < s.len(),
    ensures
        s.take(i + 1).drop_last() == s.take(i),
        s.take(i + 1).last() == s[i],
{
    assert(s.take(i + 1).drop_last() =~= s.take(i));
}

/// The slowest reading is no faster than the fastest, once one exists.
pub proof fn lemma_min_le_max(s: Seq<Option<FreqSample>>)
    ensures
        readable(s) > 0 ==> read_min(s) <= read_max(s),
        readable(s) == 0 ==> read_max(s) == 0 && read_min(s) == u64::MAX,
    decreases s.len(),
{
    if s.len() > 0 {
        lemma_min_le_max(s.drop_last());
    }
}

/// The fastest, slowest and count of readable samples of a window.
pub fn read_stats(samples: &[Option<FreqSample>]) -> (r: (u64, u64, usize))
    ensures
        r.0 == read_min(samples@),
        r.1 == read_max(samples@),
        r.2 == readable(samples@),
{
    let mut min = u64::MAX;
    let mut max = 0u64;
    let mut n: usize = 0;
    let mut i: usize = 0;
    while i < samples.len()
        invariant
            i <= samples.len(),
            min == read_min(samples@.take(i as int)),
            max == read_max(samples@.take(i as int)),
            n == readable(samples@.take(i as int)),
            n <= i,
        decreases samples.len() - i,
    {
        proof {
            lemma_read_step(samples@, i as int);
        }
        if let Some(f) = samples[i] {
            if f.khz < min {
                min = f.khz;
            }
            if f.khz > max {
                max = f.khz;
            }
            n = n + 1;
        }
        i = i + 1;
    }
    assert(samples@.take(samples.len() as int) =~= samples@);
    (min, max, n)
}

/// Whether the delivered clock held still across a window's samples: the test the warm exit and
/// the settle scan share. Anything short of clean same-CPU readings falls back to timing-only
/// (`true`): a missing reading or a mid-window migration leaves no single-core series to judge.
pub fn clock_stable(samples: &[Option<FreqSample>]) -> (r: bool)
    ensures
        r == spec_clock_stable(samples@),
{
    let mut cpu: Option<usize> = None;
    let mut i: usize = 0;
    while i < samples.len()
        invariant
            i <= samples.len(),
            forall|j: int| 0 <= j < i ==> (#[trigger] samples@[j]) is Some,
            cpu is None <==> i == 0,
            cpu matches Some(c) ==> forall|j: int| 0 <= j < i ==> (#[trigger] samples@[j]).unwrap().cpu
                == c,
        decreases samples.len() - i,
    {
        match samples[i] {
            None => {
                return true;
            },
            Some(f) => {
                match cpu {
                    None => {
                        cpu = Some(f.cpu);
                    },
                    Some(c) => {
                        if c != f.cpu {
                            assert(samples@[0].unwrap().cpu != samples@[i as int].unwrap().cpu);
                            return true;
                        }
                    },
                }
            },
        }
        i = i + 1;
    }
    let (min, max, _) = read_stats(samples);
    if max == 0 {
        return true;
    }
    proof {
        lemma_min_le_max(samples@);
        if readable(samples@) == 0 {
            assert(read_max(samples@) == 0);
        }
    }
    ((max - min) as u128) * 100 <= max as u128
}

/// One policy value, plus whether every CPU that exposes it agrees.
#[derive(Debug, Clone, PartialEq, Eq)]
pub struct PolicyField {
    /// The first CPU's raw sysfs token.
    pub value: String,
    /// True when every CPU exposing this file reports the same token.
    pub uniform: bool,
}

/// The box's cpufreq policy: the knobs that decide how the CPU picks a frequency. Every field
/// is an `Option` because absence is a real answer, not a default to invent.
#[derive(Debug, Clone, PartialEq, Eq)]
pub struct Policy {
    /// `scaling_driver`, e.g. `amd-pstate-epp`.
    pub driver: Option<PolicyField>,
    /// `scaling_governor`, e.g. `powersave`.
    pub governor: Option<PolicyField>,
    /// `energy_performance_preference`, absent outside EPP-capable drivers.
    pub epp: Option<PolicyField>,
    /// `boost` as its raw `1` / `0` token.
    pub boost: Option<PolicyField>,
    /// `scaling_min_freq` (kHz) as its raw token: the governor's lower clamp.
    pub scaling_min_freq: Option<PolicyField>,
    /// `scaling_max_freq` (kHz) as its raw token: the governor's upper clamp.
    pub scaling_max_freq: Option<PolicyField>,
}

/// What one policy field's readings across the CPUs that expose it say: the first reading,
/// and whether the rest agree with it; nothing when no CPU exposes it.
pub open spec fn spec_field(values: Seq<Seq<char>>) -> Option<(Seq<char>, bool)> {
    if values.len() == 0 {
        None
    } else {
        Some((values[0], forall|i: int| 0 <= i < values.len() ==> #[trigger] values[i] == values[0]))
    }
}

/// One policy field from the readings of every CPU that exposes it, in CPU order.
pub fn field_of(values: &Vec<String>) -> (r: Option<PolicyField>)
    ensures
        match r {
            Some(f) => spec_field(values.deep_view()) == Some((f.value@, f.uniform)),
            None => spec_field(values.deep_view()) is None,
        },
{
    if values.len() == 0 {
        return None;
    }
    let first = &values[0];
    let mut uniform = true;
    let mut i: usize = 1;
    while i < values.len()
        invariant
            1 <= i <= values.len(),
            first@ == values.deep_view()[0],
            uniform == forall|j: int| 0 <= j < i ==> #[trigger] values.deep_view()[j] == values.deep_view()[0],
        decreases values.len() - i,
    {
        let same = values[i] == *first;
        assert(values.deep_view()[i as int] == values@[i as int]@);
        if !same {
            uniform = false;
        }
        proof {
            if uniform {
                assert forall|j: int| 0 <= j < i + 1 implies #[trigger] values.deep_view()[j]
                    == values.deep_view()[0] by {
                    if j == i {
                    }
                }
            }
        }
        i = i + 1;
    }
    Some(PolicyField { value: first.clone(), uniform })
}

/// The boost field: the per-CPU files' reading when any exists, else the single global knob's
/// token, uniform by construction.
pub fn boost_field(per_cpu: Option<PolicyField>, global: Option<String>) -> (r: Option<PolicyField>)
    ensures
        per_cpu is Some ==> r == per_cpu,
        per_cpu is None ==> match global {
            Some(g) => r matches Some(f) && f.value@ == crate::text::trimmed(g@) && f.uniform,
            None => r is None,
        },
{
    if per_cpu.is_some() {
        return per_cpu;
    }
    match global {
        Some(g) => Some(PolicyField { value: crate::text::trim(g.as_str()), uniform: true }),
        None => None,
    }
}


/// The logical CPU a topology entry names: `cpuN` is CPU `N`; `cpufreq`, `cpuidle` and the rest
/// name none.
pub open spec fn cpu_id(name: Seq<char>) -> Option<u64> {
    if starts_with(name, "cpu"@) {
        match spec_parse_u64(name.skip(3)) {
            Some(n) => if n <= usize::MAX {
                Some(n)
            } else {
                None
            },
            None => None,
        }
    } else {
        None
    }
}

/// The positions of the entries that name a CPU.
pub open spec fn cpu_positions(names: Seq<Seq<char>>) -> Set<usize> {
    Set::new(|i: usize| i < names.len() && cpu_id(names[i as int]) is Some)
}

/// Each entry's CPU, 0 for one that names none.
pub open spec fn cpu_keys(names: Seq<Seq<char>>) -> Seq<u64> {
    names.map_values(
        |n: Seq<char>|
            match cpu_id(n) {
                Some(c) => c,
                None => 0,
            },
    )
}

/// The CPU an entry names, when it names one.
fn cpu_of(name: &str) -> (r: Option<usize>)
    ensures
        match r {
            Some(c) => cpu_id(name@) == Some(c as u64),
            None => cpu_id(name@) is None,
        },
{
    let v = chars_of(name);
    assert(v@.subrange(0, v@.len() as int) =~= name@);
    proof {
        reveal_strlit("cpu");
    }
    if v.len() < 3 || v[0] != 'c' || v[1] != 'p' || v[2] != 'u' {
        if v.len() >= 3 {
            assert(name@.subrange(0, 3)[0] == v@[0]);
            assert(name@.subrange(0, 3)[1] == v@[1]);
            assert(name@.subrange(0, 3)[2] == v@[2]);
        }
        return None;
    }
    assert(name@.subrange(0, 3) =~= "cpu"@);
    let n = name.unicode_len();
    let rest = name.substring_char(3, n);
    assert(rest@ =~= name@.skip(3));
    match crate::text::parse_u64(rest) {
        Some(x) => if x <= usize::MAX as u64 {
            Some(x as usize)
        } else {
            None
        },
        None => None,
    }
}

/// The logical CPUs the topology directory's entries name, ascending.
pub fn cpu_ids(names: &Vec<String>) -> (r: Vec<usize>)
    ensures
        r.len() == by_number(cpu_keys(names.deep_view()), cpu_positions(names.deep_view())).len(),
        forall|j: int|
            0 <= j < r.len() ==> (#[trigger] r@[j]) as u64 == cpu_keys(names.deep_view())[by_number(
                cpu_keys(names.deep_view()),
                cpu_positions(names.deep_view()),
            )[j] as int],
{
    let ghost ns = names.deep_view();
    let ghost ks = cpu_keys(ns);
    let mut keys: Vec<u64> = Vec::new();
    let mut named: Vec<bool> = Vec::new();
    let mut i: usize = 0;
    while i < names.len()
        invariant
            i <= names.len(),
            ns == names.deep_view(),
            ks == cpu_keys(ns),
            keys@ == ks.take(i as int),
            named.len() == i,
            forall|h: int| 0 <= h < i ==> (#[trigger] named@[h]) == (cpu_id(ns[h]) is Some),
        decreases names.len() - i,
    {
        assert(ns[i as int] == names@[i as int]@);
        match cpu_of(names[i].as_str()) {
            Some(c) => {
                keys.push(c as u64);
                named.push(true);
            },
            None => {
                keys.push(0);
                named.push(false);
            },
        }
        assert(keys@ =~= ks.take(i + 1));
        i = i + 1;
    }
    assert(ks.take(names.len() as int) =~= ks);
    let mut q: Vec<usize> = Vec::new();
    let mut j: usize = 0;
    assert(q@.to_set() =~= Set::<usize>::empty());
    while j < names.len()
        invariant
            j <= names.len(),
            ns == names.deep_view(),
            keys@ == ks,
            keys.len() == names.len(),
            named.len() == names.len(),
            forall|h: int| 0 <= h < names.len() ==> (#[trigger] named@[h]) == (cpu_id(ns[h]) is Some),
            forall|h: int| 0 <= h < q@.len() ==> (#[trigger] q@[h]) < j,
            in_number_order(ks, q@),
            q@.to_set() == Set::new(|x: usize| x < j && cpu_id(ns[x as int]) is Some),
        decreases names.len() - j,
    {
        if named[j] {
            assert(!q@.contains(j)) by {
                if q@.contains(j) {
                    let h = choose|h: int| 0 <= h < q@.len() && q@[h] == j;
                }
            }
            insert_run(&keys, &mut q, j);
        }
        assert(q@.to_set() =~= Set::new(|x: usize| x < j + 1 && cpu_id(ns[x as int]) is Some));
        assert forall|h: int| 0 <= h < q@.len() implies (#[trigger] q@[h]) < j + 1 by {
            assert(q@.to_set().contains(q@[h]));
        }
        j = j + 1;
    }
    assert(q@.to_set() =~= cpu_positions(ns));
    proof {
        let c = by_number(ks, cpu_positions(ns));
        assert(in_number_order(ks, c) && c.to_set() == cpu_positions(ns));
        lemma_number_order_unique(ks, c, q@);
    }
    assert forall|h: int| 0 <= h < q@.len() implies (#[trigger] q@[h]) < names.len() && cpu_id(
        ns[q@[h] as int],
    ) is Some by {
        assert(q@.to_set().contains(q@[h]));
    }
    let mut out: Vec<usize> = Vec::new();
    let mut m: usize = 0;
    while m < q.len()
        invariant
            m <= q.len(),
            keys@ == ks,
            keys.len() == names.len(),
            ns == names.deep_view(),
            ks == cpu_keys(ns),
            forall|h: int| 0 <= h < q@.len() ==> (#[trigger] q@[h]) < names.len() && cpu_id(
                ns[q@[h] as int],
            ) is Some,
            out.len() == m,
            forall|h: int| 0 <= h < m ==> (#[trigger] out@[h]) as u64 == ks[q@[h] as int],
        decreases q.len() - m,
    {
        let k = keys[q[m]];
        assert(k <= usize::MAX) by {
            assert(cpu_id(ns[q@[m as int] as int]) is Some);
            assert(ks[q@[m as int] as int] == cpu_id(ns[q@[m as int] as int]).unwrap());
        }
        let ghost before = out@;
        out.push(k as usize);
        assert(out@ =~= before.push(k as usize));
        m = m + 1;
    }
    out
}
} // verus!
