//! Validating a merged config: which value is refused, in which order, and what the accepted
//! values mean.
//!
//! The keys read here are the ones whose rule is a rule on text or integers. The seconds keys,
//! the spans and the trim are read by the caller, in floating point; what each of those
//! readings refused is handed in, and this module places its refusal in the order the keys are
//! checked, so a file with several faults is always refused for the same one.

use vstd::prelude::*;
use crate::bands::{style_name, BandLabels};
use crate::config::{
    freq_fault, pin_freq_from_raw, same_result, spec_pin_freq_from_raw, validate_freq, FreqConfig,
    PinFreq, RawPinFreq,
};
use crate::text::{
    debug_quote, debug_quoted, decimal, less_text, push_decimal, push_str, str_eq, string_of, text_lt,
    trim, trimmed,
};

verus! {

/// `benches` as a config file spells it: a list of bench names, or one name such as `"all"`.
#[derive(Debug, Clone, PartialEq, Eq)]
pub enum RawBenches {
    /// One bench name, a prefix, or `"all"`.
    One(String),
    /// Several, each a name, a prefix, or `"all"`.
    List(Vec<String>),
}

/// The merged keys whose rules are read here, as the files spelled them.
#[derive(Debug, Clone, PartialEq, Eq)]
pub struct RawKeys {
    /// `benches`.
    pub benches: Option<RawBenches>,
    /// `band_labels`, the style's name.
    pub band_labels: Option<String>,
    /// `decimals`.
    pub decimals: Option<u8>,
    /// `blocks`.
    pub blocks: Option<u64>,
    /// `runs`.
    pub runs: Option<u64>,
    /// `pin_freq`.
    pub pin_freq: Option<RawPinFreq>,
    /// The `[freq]` table.
    pub freq: Option<FreqConfig>,
    /// `duration` is set.
    pub duration_set: bool,
    /// `total_duration` is set.
    pub total_duration_set: bool,
    /// `pin_cpus`.
    pub pin_cpus: Option<String>,
    /// The retired `record` key is set.
    pub record_set: bool,
    /// `record_dir`, as the path's text.
    pub record_dir: Option<String>,
    /// `record_file`, as the path's text.
    pub record_file: Option<String>,
    /// The keys of `[tags]`.
    pub tag_keys: Vec<String>,
}

/// What the caller's own readings of the seconds, span and trim keys refused, each already
/// naming its key; `None` for a key that read, or is absent.
#[derive(Debug, Clone, PartialEq, Eq)]
pub struct Readings {
    /// `duration`.
    pub duration: Option<String>,
    /// `settle_time`.
    pub settle_time: Option<String>,
    /// `warm_cap`.
    pub warm_cap: Option<String>,
    /// `block_sleep`.
    pub block_sleep: Option<String>,
    /// `block_warmup`.
    pub block_warmup: Option<String>,
    /// `run_sleep`.
    pub run_sleep: Option<String>,
    /// `trim_runs`.
    pub trim_runs: Option<String>,
    /// `total_duration`.
    pub total_duration: Option<String>,
}

/// Where records go: a file per invocation in a directory, or every record appended to one
/// file.
#[derive(Debug, Clone, PartialEq, Eq)]
pub enum RecordTarget {
    /// `record_dir`.
    Dir(String),
    /// `record_file`.
    File(String),
}

/// What the checked keys mean once accepted.
#[derive(Debug, Clone, PartialEq, Eq)]
pub struct Checked {
    /// The benches to run, never empty.
    pub benches: Option<Vec<String>>,
    /// The band-label style.
    pub band_labels: Option<BandLabels>,
    /// The run's clock pin, `None` for no key or `"no"`.
    pub pin_freq: Option<PinFreq>,
    /// The record target.
    pub record: Option<RecordTarget>,
}

/// The most digits `decimals` may ask for.
pub const DECIMALS_MAX: u8 = 3;
/// Fewest blocks a config may ask for.
pub const BLOCKS_MIN: u64 = 1;
/// Most blocks a config may ask for.
pub const BLOCKS_MAX: u64 = 1000;
/// Fewest runs per bench a config may ask for.
pub const RUNS_MIN: u64 = 1;
/// Most runs per bench a config may ask for.
pub const RUNS_MAX: u64 = 1000;

/// An optional text's view.
pub open spec fn opt_text(o: Option<String>) -> Option<Seq<char>> {
    match o {
        Some(s) => Some(s@),
        None => None,
    }
}

/// The names `benches` gives: its one name, or its list.
pub open spec fn bench_names(b: Option<RawBenches>) -> Seq<Seq<char>> {
    match b {
        None => Seq::<Seq<char>>::empty(),
        Some(RawBenches::One(n)) => seq![n@],
        Some(RawBenches::List(ns)) => ns.deep_view(),
    }
}

/// A name that is only whitespace.
pub open spec fn blank(s: Seq<char>) -> bool {
    trimmed(s).len() == 0
}

/// The fault of `benches`: an empty list, or a name that is only whitespace.
pub open spec fn benches_fault(b: Option<RawBenches>) -> Option<Seq<char>> {
    let names = bench_names(b);
    if b is None {
        None
    } else if names.len() == 0 {
        Some("benches: an empty list names no bench"@)
    } else if exists|i: int| 0 <= i < names.len() && #[trigger] blank(names[i]) {
        Some("benches: a name is empty"@)
    } else {
        None
    }
}

/// A style's name as a config file spells it.
pub open spec fn style_of(name: Seq<char>) -> Option<BandLabels> {
    if name == "zpn"@ {
        Some(BandLabels::Zpn)
    } else if name == "frac"@ {
        Some(BandLabels::Frac)
    } else if name == "both"@ {
        Some(BandLabels::Both)
    } else {
        None
    }
}

/// A style's own name reads back as that style: `band_labels = NAME`, NAME the name a style
/// prints as, is accepted and means that style.
pub proof fn a_style_name_reads_back(b: BandLabels)
    ensures
        style_of(style_name(b)) == Some(b),
{
    reveal_strlit("zpn");
    reveal_strlit("frac");
    reveal_strlit("both");
    assert("zpn"@.len() != "frac"@.len());
    assert("zpn"@.len() != "both"@.len());
    assert("frac"@[0] != "both"@[0]);
}

/// The fault of a `[tags]` key: empty, or holding `=`, since a tag reaches the record as
/// `KEY=VALUE` split at its first `=`.
pub open spec fn bad_tag(k: Seq<char>) -> bool {
    k.len() == 0 || k.contains('=')
}

/// The first bad tag key in sorted order, as a map's keys are walked.
pub open spec fn first_bad_tag(keys: Seq<Seq<char>>) -> Option<Seq<char>>
    decreases keys.len(),
{
    if keys.len() == 0 {
        None
    } else {
        let rest = first_bad_tag(keys.drop_last());
        let k = keys.last();
        if !bad_tag(k) {
            rest
        } else {
            match rest {
                None => Some(k),
                Some(m) => if text_lt(k, m) {
                    Some(k)
                } else {
                    Some(m)
                },
            }
        }
    }
}

/// The refusal of the retired `record` key.
pub open spec fn record_retired() -> Seq<char> {
    "record: a path's shape no longer picks the mode, so the key is gone: set record_dir = \"DIR\" for a file per invocation, or record_file = \"PATH\" to append every record to one file"@
}

/// The first fault of the merged keys, in the order they are checked.
pub open spec fn spec_fault(raw: RawKeys, read: Readings) -> Option<Seq<char>> {
    if benches_fault(raw.benches) is Some {
        benches_fault(raw.benches)
    } else if raw.band_labels is Some && style_of(raw.band_labels->0@) is None {
        Some("band_labels: "@ + debug_quoted(raw.band_labels->0@) + " is not one of zpn, frac, both"@)
    } else if raw.decimals is Some && raw.decimals->0 > DECIMALS_MAX {
        Some("decimals: "@ + decimal(raw.decimals->0 as nat) + " exceeds the maximum of 3"@)
    } else if read.duration is Some {
        opt_text(read.duration)
    } else if read.settle_time is Some {
        opt_text(read.settle_time)
    } else if read.warm_cap is Some {
        opt_text(read.warm_cap)
    } else if raw.blocks is Some && !(BLOCKS_MIN <= raw.blocks->0 <= BLOCKS_MAX) {
        Some("blocks: "@ + decimal(raw.blocks->0 as nat) + " is outside 1..=1000"@)
    } else if read.block_sleep is Some {
        opt_text(read.block_sleep)
    } else if read.block_warmup is Some {
        opt_text(read.block_warmup)
    } else if raw.runs is Some && !(RUNS_MIN <= raw.runs->0 <= RUNS_MAX) {
        Some("runs: "@ + decimal(raw.runs->0 as nat) + " is outside 1..=1000"@)
    } else if read.run_sleep is Some {
        opt_text(read.run_sleep)
    } else if read.trim_runs is Some {
        opt_text(read.trim_runs)
    } else if raw.pin_freq is Some && spec_pin_freq_from_raw(raw.pin_freq->0) is Err {
        Some(spec_pin_freq_from_raw(raw.pin_freq->0)->Err_0)
    } else if raw.freq is Some && freq_fault(raw.freq->0) is Some {
        freq_fault(raw.freq->0)
    } else if read.total_duration is Some {
        opt_text(read.total_duration)
    } else if raw.duration_set && raw.total_duration_set {
        Some("duration and total_duration are both set: keep one"@)
    } else if raw.pin_cpus is Some && trimmed(raw.pin_cpus->0@).len() == 0 {
        Some("pin_cpus: empty"@)
    } else if raw.record_set {
        Some(record_retired())
    } else if raw.record_dir is Some && raw.record_file is Some {
        Some("record_dir and record_file are both set: keep one"@)
    } else if raw.record_dir is Some && raw.record_dir->0@.len() == 0 {
        Some("record_dir: empty"@)
    } else if raw.record_file is Some && raw.record_file->0@.len() == 0 {
        Some("record_file: empty"@)
    } else if first_bad_tag(raw.tag_keys.deep_view()) is Some {
        Some(
            "tags: "@ + debug_quoted(first_bad_tag(raw.tag_keys.deep_view())->0)
                + " is empty or holds '='"@,
        )
    } else {
        None
    }
}

/// No key of a list whose first bad key is none is bad.
proof fn lemma_no_bad_tag(keys: Seq<Seq<char>>)
    requires
        first_bad_tag(keys) is None,
    ensures
        forall|i: int| 0 <= i < keys.len() ==> !bad_tag(#[trigger] keys[i]),
    decreases keys.len(),
{
    if keys.len() > 0 {
        lemma_no_bad_tag(keys.drop_last());
        assert forall|i: int| 0 <= i < keys.len() implies !bad_tag(#[trigger] keys[i]) by {
            if i < keys.len() - 1 {
                assert(keys.drop_last()[i] == keys[i]);
            }
        }
    }
}

/// An accepted config holds only values in range: `benches` names at least one bench and no
/// blank one, `band_labels` is a style, `decimals` is at most 3, `blocks` and `runs` are in
/// `1..=1000`, `duration` and `total_duration` are not both set, `pin_cpus` is not blank, the
/// retired `record` key is absent, at most one of `record_dir` and `record_file` is set and
/// neither is empty, no tag key is empty or holds `=`, `pin_freq` reads and `[freq]` passes its
/// own check, and none of the caller's readings refused.
pub proof fn accepted_keys_are_in_range(raw: RawKeys, read: Readings)
    requires
        spec_fault(raw, read) is None,
    ensures
        raw.benches is Some ==> bench_names(raw.benches).len() > 0 && forall|i: int|
            0 <= i < bench_names(raw.benches).len() ==> !blank(
                #[trigger] bench_names(raw.benches)[i],
            ),
        raw.band_labels is Some ==> style_of(raw.band_labels->0@) is Some,
        raw.decimals is Some ==> raw.decimals->0 <= DECIMALS_MAX,
        raw.blocks is Some ==> BLOCKS_MIN <= raw.blocks->0 <= BLOCKS_MAX,
        raw.runs is Some ==> RUNS_MIN <= raw.runs->0 <= RUNS_MAX,
        !(raw.duration_set && raw.total_duration_set),
        raw.pin_cpus is Some ==> trimmed(raw.pin_cpus->0@).len() > 0,
        !raw.record_set,
        !(raw.record_dir is Some && raw.record_file is Some),
        raw.record_dir is Some ==> raw.record_dir->0@.len() > 0,
        raw.record_file is Some ==> raw.record_file->0@.len() > 0,
        forall|i: int| 0 <= i < raw.tag_keys.len() ==> !bad_tag(#[trigger] raw.tag_keys@[i]@),
        raw.pin_freq is Some ==> spec_pin_freq_from_raw(raw.pin_freq->0) is Ok,
        raw.freq is Some ==> freq_fault(raw.freq->0) is None,
        read.duration is None && read.settle_time is None && read.warm_cap is None,
        read.block_sleep is None && read.block_warmup is None && read.run_sleep is None,
        read.trim_runs is None && read.total_duration is None,
{
    lemma_no_bad_tag(raw.tag_keys.deep_view());
    assert forall|i: int| 0 <= i < raw.tag_keys.len() implies !bad_tag(#[trigger] raw.tag_keys@[i]@) by {
        assert(raw.tag_keys.deep_view()[i] == raw.tag_keys@[i]@);
    }
}

/// The benches an accepted `benches` names.
pub open spec fn benches_meaning(b: Option<RawBenches>) -> Option<Seq<Seq<char>>> {
    if b is Some {
        Some(bench_names(b))
    } else {
        None
    }
}

/// The record target accepted `record_dir` and `record_file` name.
pub open spec fn record_meaning(dir: Option<String>, file: Option<String>) -> Option<(bool, Seq<char>)> {
    match (dir, file) {
        (Some(d), _) => Some((true, d@)),
        (None, Some(f)) => Some((false, f@)),
        (None, None) => None,
    }
}

/// A `Checked`'s meaning matches what the raw keys say.
pub open spec fn checked_means(c: Checked, raw: RawKeys) -> bool {
    &&& match c.benches {
        Some(v) => benches_meaning(raw.benches) == Some(v.deep_view()),
        None => benches_meaning(raw.benches) is None,
    }
    &&& c.band_labels == match raw.band_labels {
        Some(n) => style_of(n@),
        None => None,
    }
    &&& c.pin_freq == match raw.pin_freq {
        Some(r) => spec_pin_freq_from_raw(r)->Ok_0,
        None => None,
    }
    &&& match c.record {
        Some(RecordTarget::Dir(d)) => record_meaning(raw.record_dir, raw.record_file) == Some(
            (true, d@),
        ),
        Some(RecordTarget::File(f)) => record_meaning(raw.record_dir, raw.record_file) == Some(
            (false, f@),
        ),
        None => record_meaning(raw.record_dir, raw.record_file) is None,
    }
}

/// Whether a tag key is refused.
fn is_bad_tag(k: &str) -> (r: bool)
    ensures
        r == bad_tag(k@),
{
    let v = crate::text::chars_of(k);
    assert(v@ == k@) by {
        assert(v@.subrange(0, v@.len() as int) =~= v@);
    }
    if v.len() == 0 {
        return true;
    }
    let mut i: usize = 0;
    while i < v.len()
        invariant
            i <= v.len(),
            v@ == k@,
            forall|j: int| 0 <= j < i ==> v@[j] != '=',
        decreases v.len() - i,
    {
        if v[i] == '=' {
            assert(k@.contains('=')) by {
                assert(k@[i as int] == '=');
            }
            return true;
        }
        i = i + 1;
    }
    false
}

/// The first refused tag key in sorted order.
fn tag_fault(keys: &Vec<String>) -> (r: Option<String>)
    ensures
        opt_text(r) == first_bad_tag(keys.deep_view()),
{
    let ghost ks = keys.deep_view();
    let mut best: Option<String> = None;
    let mut i: usize = 0;
    while i < keys.len()
        invariant
            i <= keys.len(),
            ks == keys.deep_view(),
            opt_text(best) == first_bad_tag(ks.take(i as int)),
        decreases keys.len() - i,
    {
        assert(ks.take(i + 1).drop_last() =~= ks.take(i as int));
        assert(ks.take(i + 1).last() == keys@[i as int]@);
        if is_bad_tag(keys[i].as_str()) {
            let take = match &best {
                None => true,
                Some(m) => less_text(keys[i].as_str(), m.as_str()),
            };
            if take {
                best = Some(keys[i].clone());
            }
        }
        i = i + 1;
    }
    assert(ks.take(keys.len() as int) =~= ks);
    best
}

/// Check the merged keys in order and say what the accepted ones mean. The first fault found
/// is the refusal, whatever follows it.
pub fn validate(raw: &RawKeys, read: &Readings) -> (r: Result<Checked, String>)
    ensures
        match r {
            Ok(c) => spec_fault(*raw, *read) is None && checked_means(c, *raw),
            Err(e) => spec_fault(*raw, *read) == Some(e@),
        },
{
    proof {
        reveal_strlit("zpn");
        reveal_strlit("frac");
        reveal_strlit("both");
        assert("zpn"@.len() != "frac"@.len());
        assert("frac"@[0] != "both"@[0]);
    }
    let benches: Option<Vec<String>> = match &raw.benches {
        None => None,
        Some(RawBenches::One(n)) => {
            let mut v: Vec<String> = Vec::new();
            v.push(n.clone());
            assert(v.deep_view() =~= seq![n@]);
            Some(v)
        },
        Some(RawBenches::List(ns)) => Some(ns.clone()),
    };
    if let Some(names) = &benches {
        assert(names.deep_view() == benches_meaning(raw.benches)->0);
        if names.len() == 0 {
            return Err(string_of("benches: an empty list names no bench"));
        }
        let mut i: usize = 0;
        while i < names.len()
            invariant
                i <= names.len(),
                benches_meaning(raw.benches) is Some,
                names.deep_view() == benches_meaning(raw.benches)->0,
                forall|j: int| 0 <= j < i ==> !blank(#[trigger] names.deep_view()[j]),
            decreases names.len() - i,
        {
            let t = trim(names[i].as_str());
            if t.as_str().unicode_len() == 0 {
                let ghost nm = benches_meaning(raw.benches)->0;
                assert(nm[i as int] == names.deep_view()[i as int]);
                assert(blank(nm[i as int]));
                return Err(string_of("benches: a name is empty"));
            }
            assert(names.deep_view()[i as int] == names@[i as int]@);
            i = i + 1;
        }
    }
    let band_labels = match &raw.band_labels {
        None => None,
        Some(s) => {
            if str_eq(s.as_str(), "zpn") {
                Some(BandLabels::Zpn)
            } else if str_eq(s.as_str(), "frac") {
                Some(BandLabels::Frac)
            } else if str_eq(s.as_str(), "both") {
                Some(BandLabels::Both)
            } else {
                let mut e = string_of("band_labels: ");
                let q = debug_quote(s.as_str());
                push_str(&mut e, q.as_str());
                push_str(&mut e, " is not one of zpn, frac, both");
                return Err(e);
            }
        },
    };
    if let Some(d) = raw.decimals {
        if d > DECIMALS_MAX {
            let mut e = string_of("decimals: ");
            push_decimal(&mut e, d as u64);
            push_str(&mut e, " exceeds the maximum of 3");
            return Err(e);
        }
    }
    if let Some(e) = &read.duration {
        return Err(e.clone());
    }
    if let Some(e) = &read.settle_time {
        return Err(e.clone());
    }
    if let Some(e) = &read.warm_cap {
        return Err(e.clone());
    }
    if let Some(n) = raw.blocks {
        if !(BLOCKS_MIN <= n && n <= BLOCKS_MAX) {
            let mut e = string_of("blocks: ");
            push_decimal(&mut e, n);
            push_str(&mut e, " is outside 1..=1000");
            return Err(e);
        }
    }
    if let Some(e) = &read.block_sleep {
        return Err(e.clone());
    }
    if let Some(e) = &read.block_warmup {
        return Err(e.clone());
    }
    if let Some(n) = raw.runs {
        if !(RUNS_MIN <= n && n <= RUNS_MAX) {
            let mut e = string_of("runs: ");
            push_decimal(&mut e, n);
            push_str(&mut e, " is outside 1..=1000");
            return Err(e);
        }
    }
    if let Some(e) = &read.run_sleep {
        return Err(e.clone());
    }
    if let Some(e) = &read.trim_runs {
        return Err(e.clone());
    }
    let pin_freq = match &raw.pin_freq {
        None => None,
        Some(r) => match pin_freq_from_raw(r) {
            Ok(p) => p,
            Err(e) => {
                return Err(e);
            },
        },
    };
    if let Some(f) = &raw.freq {
        match validate_freq(f) {
            Ok(()) => {},
            Err(e) => {
                return Err(e);
            },
        }
    }
    if let Some(e) = &read.total_duration {
        return Err(e.clone());
    }
    if raw.duration_set && raw.total_duration_set {
        return Err(string_of("duration and total_duration are both set: keep one"));
    }
    if let Some(s) = &raw.pin_cpus {
        let t = trim(s.as_str());
        if t.as_str().unicode_len() == 0 {
            return Err(string_of("pin_cpus: empty"));
        }
    }
    if raw.record_set {
        return Err(
            string_of(
                "record: a path's shape no longer picks the mode, so the key is gone: set record_dir = \"DIR\" for a file per invocation, or record_file = \"PATH\" to append every record to one file",
            ),
        );
    }
    let record = match (&raw.record_dir, &raw.record_file) {
        (Some(_), Some(_)) => {
            return Err(string_of("record_dir and record_file are both set: keep one"));
        },
        (Some(d), None) => {
            if d.as_str().unicode_len() == 0 {
                return Err(string_of("record_dir: empty"));
            }
            Some(RecordTarget::Dir(d.clone()))
        },
        (None, Some(f)) => {
            if f.as_str().unicode_len() == 0 {
                return Err(string_of("record_file: empty"));
            }
            Some(RecordTarget::File(f.clone()))
        },
        (None, None) => None,
    };
    match tag_fault(&raw.tag_keys) {
        Some(k) => {
            let mut e = string_of("tags: ");
            let q = debug_quote(k.as_str());
            push_str(&mut e, q.as_str());
            push_str(&mut e, " is empty or holds '='");
            return Err(e);
        },
        None => {},
    }
    Ok(Checked { benches, band_labels, pin_freq, record })
}

} // verus!
