//! Grades and the clock series behind them: the letter a score maps to, and the per-core view
//! of a clock-sample series that the settle scan and the clock statistics read.

use vstd::prelude::*;
use crate::freq::{FreqSample, read_max, read_min, read_stats, readable};
use crate::freqctl::within_band;

verus! {

/// The letter of a 0..=4 score (no 'E': 4 and above is 'F').
pub open spec fn letter_of(s: u8) -> char {
    if s == 0 {
        'A'
    } else if s == 1 {
        'B'
    } else if s == 2 {
        'C'
    } else if s == 3 {
        'D'
    } else {
        'F'
    }
}

/// Map a 0..=4 score to its letter (no 'E': 4 is 'F').
pub fn score_letter(s: u8) -> (r: char)
    ensures
        r == letter_of(s),
{
    match s {
        0 => 'A',
        1 => 'B',
        2 => 'C',
        3 => 'D',
        _ => 'F',
    }
}

/// What [`filtered_clock_stable`] says: `None` below two readable samples or with no nonzero
/// one, else whether the readable samples held within the 1% band.
pub open spec fn spec_filtered_stable(s: Seq<Option<FreqSample>>) -> Option<bool> {
    if readable(s) < 2 || read_max(s) == 0 {
        None
    } else {
        Some(within_band(read_max(s) - read_min(s), read_max(s) as int))
    }
}

/// The clock test over a dominant-CPU-filtered series: the readable samples are one core's
/// whole series, so the gaps are skipped rather than disabling the test. `None` when fewer
/// than two samples are readable, which says nothing about stillness.
pub fn filtered_clock_stable(clock: &[Option<FreqSample>]) -> (r: Option<bool>)
    ensures
        r == spec_filtered_stable(clock@),
{
    let (min, max, n) = read_stats(clock);
    if n < 2 || max == 0 {
        return None;
    }
    proof {
        crate::freq::lemma_min_le_max(clock@);
    }
    Some(((max - min) as u128) * 100 <= max as u128)
}

/// How many readable samples of a window were read on `cpu`.
pub open spec fn cpu_count(s: Seq<Option<FreqSample>>, cpu: usize) -> nat
    decreases s.len(),
{
    if s.len() == 0 {
        0
    } else {
        cpu_count(s.drop_last(), cpu) + if s.last() matches Some(f) && f.cpu == cpu {
            1nat
        } else {
            0nat
        }
    }
}

/// `d` is the most-sampled CPU of the window, the lowest id among ties.
pub open spec fn is_dominant(s: Seq<Option<FreqSample>>, d: usize) -> bool {
    &&& cpu_count(s, d) > 0
    &&& forall|c: usize| #[trigger] cpu_count(s, c) <= cpu_count(s, d)
    &&& forall|c: usize| #[trigger] cpu_count(s, c) == cpu_count(s, d) ==> d <= c
}

/// The dominant CPU of a window, `None` when nothing in it is readable.
pub open spec fn dominant_of(s: Seq<Option<FreqSample>>) -> Option<usize> {
    if exists|d: usize| is_dominant(s, d) {
        Some(choose|d: usize| is_dominant(s, d))
    } else {
        None
    }
}

/// A window has at most one dominant CPU.
pub proof fn lemma_dominant_unique(s: Seq<Option<FreqSample>>, a: usize, b: usize)
    requires
        is_dominant(s, a),
        is_dominant(s, b),
    ensures
        a == b,
{
    assert(cpu_count(s, a) <= cpu_count(s, b));
    assert(cpu_count(s, b) <= cpu_count(s, a));
}

/// A CPU not seen in the window has no samples in it.
pub proof fn lemma_count_unseen(s: Seq<Option<FreqSample>>, c: usize)
    requires
        forall|i: int| 0 <= i < s.len() ==> !((#[trigger] s[i]) matches Some(f) && f.cpu == c),
    ensures
        cpu_count(s, c) == 0,
    decreases s.len(),
{
    if s.len() > 0 {
        lemma_count_unseen(s.drop_last(), c);
    }
}

/// A CPU seen in the window has samples in it.
pub proof fn lemma_count_seen(s: Seq<Option<FreqSample>>, i: int)
    requires
        0 <= i < s.len(),
        s[i] is Some,
    ensures
        cpu_count(s, s[i].unwrap().cpu) > 0,
    decreases s.len(),
{
    if i < s.len() - 1 {
        assert(s.drop_last()[i] == s[i]);
        lemma_count_seen(s.drop_last(), i);
    }
}

/// A CPU with samples in the window is seen in it.
pub proof fn lemma_count_positive_seen(s: Seq<Option<FreqSample>>, c: usize)
    requires
        cpu_count(s, c) > 0,
    ensures
        exists|i: int| 0 <= i < s.len() && ((#[trigger] s[i]) matches Some(f) && f.cpu == c),
    decreases s.len(),
{
    if cpu_count(s.drop_last(), c) > 0 {
        lemma_count_positive_seen(s.drop_last(), c);
        let i = choose|i: int| 0 <= i < s.drop_last().len() && ((#[trigger] s.drop_last()[i]) matches Some(f)
            && f.cpu == c);
        assert(s[i] == s.drop_last()[i]);
    } else {
        assert(s[s.len() - 1] == s.last());
    }
}

/// The samples of `clock` read on `cpu`.
fn count_cpu(clock: &[Option<FreqSample>], cpu: usize) -> (r: usize)
    ensures
        r == cpu_count(clock@, cpu),
{
    let mut n: usize = 0;
    let mut i: usize = 0;
    while i < clock.len()
        invariant
            i <= clock.len(),
            n == cpu_count(clock@.take(i as int), cpu),
            n <= i,
        decreases clock.len() - i,
    {
        assert(clock@.take(i + 1).drop_last() =~= clock@.take(i as int));
        if let Some(f) = clock[i] {
            if f.cpu == cpu {
                n = n + 1;
            }
        }
        i = i + 1;
    }
    assert(clock@.take(clock.len() as int) =~= clock@);
    n
}

/// The most-sampled CPU of a window, the lowest id among ties; `None` when nothing is readable.
pub fn dominant_cpu(clock: &[Option<FreqSample>]) -> (r: Option<usize>)
    ensures
        r == dominant_of(clock@),
{
    let mut best: Option<(usize, usize)> = None;
    let mut i: usize = 0;
    while i < clock.len()
        invariant
            i <= clock.len(),
            best matches Some((d, n)) ==> n == cpu_count(clock@, d) && n > 0,
            forall|j: int|
                0 <= j < i && (#[trigger] clock@[j]) is Some ==> (best matches Some((d, n))
                    && cpu_count(clock@, clock@[j].unwrap().cpu) <= n && (cpu_count(
                    clock@,
                    clock@[j].unwrap().cpu,
                ) == n ==> d <= clock@[j].unwrap().cpu)),
            best is None ==> forall|j: int| 0 <= j < i ==> (#[trigger] clock@[j]) is None,
        decreases clock.len() - i,
    {
        if let Some(f) = clock[i] {
            let n = count_cpu(clock, f.cpu);
            proof {
                lemma_count_seen(clock@, i as int);
            }
            let take = match best {
                None => true,
                Some((d, m)) => n > m || (n == m && f.cpu < d),
            };
            if take {
                best = Some((f.cpu, n));
            }
        }
        i = i + 1;
    }
    match best {
        None => {
            assert forall|c: usize| #[trigger] cpu_count(clock@, c) == 0 by {
                if cpu_count(clock@, c) > 0 {
                    lemma_count_positive_seen(clock@, c);
                }
            }
            assert(!exists|d: usize| is_dominant(clock@, d));
            None
        },
        Some((d, n)) => {
            assert forall|c: usize| #[trigger] cpu_count(clock@, c) <= cpu_count(clock@, d) && (
            cpu_count(clock@, c) == cpu_count(clock@, d) ==> d <= c) by {
                if cpu_count(clock@, c) > 0 {
                    lemma_count_positive_seen(clock@, c);
                    let j = choose|j: int| 0 <= j < clock@.len() && ((#[trigger] clock@[j]) matches Some(f)
                        && f.cpu == c);
                    assert(clock@[j] is Some);
                }
            }
            assert(is_dominant(clock@, d));
            proof {
                let e = choose|e: usize| is_dominant(clock@, e);
                lemma_dominant_unique(clock@, d, e);
            }
            Some(d)
        },
    }
}

/// The series reduced to its dominant CPU: samples from other CPUs become `None`, positions
/// preserved so probe-index alignment survives.
pub open spec fn keep_cpu(s: Seq<Option<FreqSample>>, d: Option<usize>) -> Seq<Option<FreqSample>> {
    s.map_values(
        |x: Option<FreqSample>|
            match x {
                Some(f) => if d == Some(f.cpu) {
                    Some(f)
                } else {
                    None
                },
                None => None,
            },
    )
}

/// The series reduced to its dominant CPU: samples from other CPUs become `None`, positions
/// preserved so probe-index alignment survives. On an unpinned run the sampler reads whichever
/// CPU the scheduler placed the thread on; the most-sampled core's readings are the one whole
/// per-core story the series holds. Ties break to the lowest CPU id.
pub fn dominant_cpu_only(clock: &[Option<FreqSample>]) -> (r: Vec<Option<FreqSample>>)
    ensures
        r@ == keep_cpu(clock@, dominant_of(clock@)),
{
    let d = dominant_cpu(clock);
    let mut out: Vec<Option<FreqSample>> = Vec::new();
    let mut i: usize = 0;
    while i < clock.len()
        invariant
            i <= clock.len(),
            out@ == keep_cpu(clock@.take(i as int), d),
        decreases clock.len() - i,
    {
        let kept = match clock[i] {
            Some(f) => if d == Some(f.cpu) {
                Some(f)
            } else {
                None
            },
            None => None,
        };
        out.push(kept);
        assert(out@ =~= keep_cpu(clock@.take(i + 1), d));
        i = i + 1;
    }
    assert(clock@.take(clock.len() as int) =~= clock@);
    out
}

} // verus!
