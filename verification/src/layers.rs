//! How config files layer: each file read onto the ones before it, the nearer winning per key.
//!
//! A scalar key a file sets replaces the lower file's and names this file as its source; the
//! two durations are one choice, and so are the two record modes, so a file setting one clears
//! the other below it and a file setting both is refused; `[tags]` and `[profiles]` merge by
//! entry, the file's entries winning; `[freq]` replaces whole, never field-merges. A file's
//! `pin_freq = "no"` is no key at all, so it neither overrides a lower file's pin nor claims to
//! be its source.
//!
//! The values themselves are the caller's type `V`, carried and never read: what a value means
//! is decided when the merged layer is validated.

use vstd::prelude::*;
use crate::config::{pin_freq_from_raw, spec_pin_freq_from_raw, FreqConfig, RawPinFreq};
use crate::text::{push_str, str_eq, string_of};

verus! {

/// How many scalar keys a file may set, `pin_freq` among them.
pub const N_KEYS: usize = 24;
/// `duration`'s index.
pub const DURATION: usize = 1;
/// `pin_freq`'s index: its value is kept typed in [`Layer::pin_freq`], its slot stays empty.
pub const PIN_FREQ: usize = 12;
/// `total_duration`'s index.
pub const TOTAL_DURATION: usize = 13;
/// The source slot of the record target: the retired `record` key's, and, once the target is
/// accepted, the file that set it.
pub const RECORD: usize = 17;
/// `record_dir`'s index.
pub const RECORD_DIR: usize = 18;
/// `record_file`'s index.
pub const RECORD_FILE: usize = 19;
/// The source slot of `[tags]`.
pub const TAGS: usize = 24;
/// The source slot of `[freq]`.
pub const FREQ: usize = 25;
/// How many source slots a layer keeps: the scalar keys, `tags` and `freq`.
pub const N_SOURCES: usize = 26;

/// The config keys by source slot, in the order a file's values are taken, then `tags` and
/// `freq`.
pub open spec fn key_names() -> Seq<Seq<char>> {
    seq![
        "benches"@, "duration"@, "band_labels"@, "decimals"@, "settle_time"@, "warm_cap"@,
        "blocks"@, "block_sleep"@, "block_warmup"@, "runs"@, "run_sleep"@, "trim_runs"@,
        "pin_freq"@, "total_duration"@, "samples"@, "inner"@, "pin_cpus"@, "record"@,
        "record_dir"@, "record_file"@, "env_probe"@, "inhibit"@, "ticks"@, "verbose"@, "tags"@,
        "freq"@,
    ]
}

/// The config key at `index`, in the order a file's values are taken; the source slots after
/// the scalar keys are `tags` and `freq`.
pub fn key_name(index: usize) -> (r: &'static str)
    requires
        index < N_SOURCES,
    ensures
        r@ == key_names()[index as int],
{
    match index {
        0 => "benches",
        1 => "duration",
        2 => "band_labels",
        3 => "decimals",
        4 => "settle_time",
        5 => "warm_cap",
        6 => "blocks",
        7 => "block_sleep",
        8 => "block_warmup",
        9 => "runs",
        10 => "run_sleep",
        11 => "trim_runs",
        12 => "pin_freq",
        13 => "total_duration",
        14 => "samples",
        15 => "inner",
        16 => "pin_cpus",
        17 => "record",
        18 => "record_dir",
        19 => "record_file",
        20 => "env_probe",
        21 => "inhibit",
        22 => "ticks",
        23 => "verbose",
        24 => "tags",
        _ => "freq",
    }
}

/// One file's config, or several layered: each scalar key's value by index, `pin_freq` typed,
/// the `[tags]` and `[profiles]` entries, the `[freq]` table, and the file that set each key.
#[derive(Debug, Clone)]
pub struct Layer<V> {
    /// Each scalar key's value by index, `None` when no file set it.
    pub values: Vec<Option<V>>,
    /// `pin_freq` as a file spells it.
    pub pin_freq: Option<RawPinFreq>,
    /// The record's tags: key, value.
    pub tags: Vec<(String, String)>,
    /// Named pin profiles: name, CPU spec.
    pub profiles: Vec<(String, String)>,
    /// The declared `[freq]` table.
    pub freq: Option<FreqConfig>,
    /// The file that set each key, by source slot, `None` when none did.
    pub sources: Vec<Option<String>>,
}

/// Whether slot `i` is the first whose key is named `key`.
pub open spec fn first_named(i: int, key: Seq<char>) -> bool {
    key_names()[i] == key && forall|j: int| 0 <= j < i ==> key_names()[j] != key
}

/// The entries as a map, a later entry for a key winning as a later insert does.
pub open spec fn entries_map(s: Seq<(String, String)>) -> Map<Seq<char>, Seq<char>>
    decreases s.len(),
{
    if s.len() == 0 {
        Map::empty()
    } else {
        entries_map(s.drop_last()).insert(s.last().0@, s.last().1@)
    }
}

/// A source slot's path as text.
pub open spec fn source_view(s: Option<String>) -> Option<Seq<char>> {
    match s {
        Some(p) => Some(p@),
        None => None,
    }
}

impl<V> Layer<V> {
    /// The layer's shape: a slot for every key and every source, and `pin_freq`'s scalar slot
    /// empty.
    pub open spec fn wf(self) -> bool {
        &&& self.values.len() == N_KEYS
        &&& self.values@[PIN_FREQ as int] is None
        &&& self.sources.len() == N_SOURCES
    }

    /// The tags as a map.
    pub open spec fn tag_map(self) -> Map<Seq<char>, Seq<char>> {
        entries_map(self.tags@)
    }

    /// The profiles as a map.
    pub open spec fn profile_map(self) -> Map<Seq<char>, Seq<char>> {
        entries_map(self.profiles@)
    }

    /// The file that set the key in source slot `i`.
    pub open spec fn source_at(self, i: int) -> Option<Seq<char>> {
        source_view(self.sources@[i])
    }

    /// A layer no file has set anything in.
    pub fn new() -> (l: Layer<V>)
        ensures
            l.wf(),
            forall|i: int| 0 <= i < N_KEYS ==> #[trigger] l.values@[i] is None,
            forall|i: int| 0 <= i < N_SOURCES ==> #[trigger] l.sources@[i] is None,
            l.pin_freq is None,
            l.tags@.len() == 0,
            l.profiles@.len() == 0,
            l.freq is None,
    {
        let mut values: Vec<Option<V>> = Vec::new();
        let mut i: usize = 0;
        while i < N_KEYS
            invariant
                i <= N_KEYS,
                values.len() == i,
                forall|j: int| 0 <= j < i ==> #[trigger] values@[j] is None,
            decreases N_KEYS - i,
        {
            values.push(None);
            i = i + 1;
        }
        let mut sources: Vec<Option<String>> = Vec::new();
        let mut i: usize = 0;
        while i < N_SOURCES
            invariant
                i <= N_SOURCES,
                sources.len() == i,
                forall|j: int| 0 <= j < i ==> #[trigger] sources@[j] is None,
            decreases N_SOURCES - i,
        {
            sources.push(None);
            i = i + 1;
        }
        Layer { values, pin_freq: None, tags: Vec::new(), profiles: Vec::new(), freq: None, sources }
    }

    /// The file that set config key `key`, or `None` when no file did or no key is so named.
    pub fn source(&self, key: &str) -> (r: Option<&str>)
        requires
            self.wf(),
        ensures
            match r {
                Some(p) => exists|i: int|
                    0 <= i < N_SOURCES && first_named(i, key@) && self.source_at(i) == Some(p@),
                None => forall|i: int|
                    0 <= i < N_SOURCES && #[trigger] first_named(i, key@) ==> self.source_at(i) is None,
            },
    {
        let mut i: usize = 0;
        while i < N_SOURCES
            invariant
                i <= N_SOURCES,
                self.wf(),
                forall|j: int| 0 <= j < i ==> #[trigger] key_names()[j] != key@,
            decreases N_SOURCES - i,
        {
            if str_eq(key_name(i), key) {
                assert(first_named(i as int, key@));
                assert forall|j: int| 0 <= j < N_SOURCES && #[trigger] first_named(j, key@) implies j == i by {
                    if j < i {
                        assert(key_names()[j] != key@);
                    } else if j > i {
                        assert(key_names()[i as int] == key@);
                    }
                }
                return match &self.sources[i] {
                    Some(p) => Some(p.as_str()),
                    None => None,
                };
            }
            i = i + 1;
        }
        None
    }

    /// What the host's files keep giving a run whose keys come from a named file: `[freq]` and
    /// `[profiles]`, `[freq]`'s source with them, and nothing else.
    pub fn host_facts(self) -> (r: Layer<V>)
        requires
            self.wf(),
        ensures
            r.wf(),
            forall|i: int| 0 <= i < N_KEYS ==> #[trigger] r.values@[i] is None,
            forall|i: int| 0 <= i < N_SOURCES ==> #[trigger] r.source_at(i) == if i == FREQ {
                self.source_at(i)
            } else {
                None
            },
            r.pin_freq is None,
            r.tags@.len() == 0,
            r.profiles@ == self.profiles@,
            r.freq == self.freq,
    {
        let mut kept = Layer::new();
        let Layer { values: _, pin_freq: _, tags: _, profiles, freq, sources } = self;
        let freq_source = match &sources[FREQ] {
            Some(p) => Some(p.clone()),
            None => None,
        };
        kept.sources.set(FREQ, freq_source);
        kept.profiles = profiles;
        kept.freq = freq;
        kept
    }

    /// Name the record target's source, as an accepted config does: whichever of `record_dir`
    /// and `record_file` set the target, its file is the record's source; with neither set,
    /// nothing changes.
    pub fn note_record_source(&mut self)
        requires
            old(self).wf(),
        ensures
            final(self).wf(),
            final(self).values@ == old(self).values@,
            final(self).pin_freq == old(self).pin_freq,
            final(self).tags@ == old(self).tags@,
            final(self).profiles@ == old(self).profiles@,
            final(self).freq == old(self).freq,
            forall|i: int|
                0 <= i < N_SOURCES && i != RECORD ==> #[trigger] final(self).source_at(i)
                    == old(self).source_at(i),
            final(self).source_at(RECORD as int) == if old(self).source_at(RECORD_DIR as int) is Some {
                old(self).source_at(RECORD_DIR as int)
            } else if old(self).source_at(RECORD_FILE as int) is Some {
                old(self).source_at(RECORD_FILE as int)
            } else {
                old(self).source_at(RECORD as int)
            },
    {
        let from = match &self.sources[RECORD_DIR] {
            Some(p) => Some(p.clone()),
            None => match &self.sources[RECORD_FILE] {
                Some(p) => Some(p.clone()),
                None => None,
            },
        };
        if from.is_some() {
            self.sources.set(RECORD, from);
        }
    }
}

/// Entries concatenated map as the first's, overridden by the second's.
pub proof fn lemma_entries_append(a: Seq<(String, String)>, b: Seq<(String, String)>)
    ensures
        entries_map(a + b) == entries_map(a).union_prefer_right(entries_map(b)),
    decreases b.len(),
{
    if b.len() == 0 {
        assert(a + b =~= a);
        assert(entries_map(a).union_prefer_right(entries_map(b)) =~= entries_map(a));
    } else {
        lemma_entries_append(a, b.drop_last());
        assert((a + b).drop_last() =~= a + b.drop_last());
        assert((a + b).last() == b.last());
        assert(entries_map(a + b) =~= entries_map(a).union_prefer_right(entries_map(b)));
    }
}

/// The keys of `s`'s entries.
pub open spec fn entry_keys(s: Seq<(String, String)>) -> Set<Seq<char>> {
    entries_map(s).dom()
}

/// The entries of `base` whose key `over` does not set, in order.
pub open spec fn kept_entries(base: Seq<(String, String)>, over: Set<Seq<char>>) -> Seq<
    (String, String),
> {
    base.filter(|e: (String, String)| !over.contains(e.0@))
}

/// Dropping the entries another map sets drops those keys from the map.
pub proof fn lemma_kept_entries(base: Seq<(String, String)>, over: Set<Seq<char>>)
    ensures
        entries_map(kept_entries(base, over)) == entries_map(base).remove_keys(over),
    decreases base.len(),
{
    reveal(Seq::filter);
    if base.len() == 0 {
        assert(entries_map(base).remove_keys(over) =~= Map::empty());
    } else {
        lemma_kept_entries(base.drop_last(), over);
        let x = base.last();
        if over.contains(x.0@) {
            assert(entries_map(kept_entries(base, over)) =~= entries_map(base).remove_keys(over));
        } else {
            assert(kept_entries(base, over) =~= kept_entries(base.drop_last(), over).push(x));
            assert(kept_entries(base, over).drop_last() =~= kept_entries(base.drop_last(), over));
            assert(entries_map(kept_entries(base, over)) =~= entries_map(base).remove_keys(over));
        }
    }
}

/// An entry's key is a key of the map.
pub proof fn lemma_key_present(s: Seq<(String, String)>, i: int)
    requires
        0 <= i < s.len(),
    ensures
        entry_keys(s).contains(s[i].0@),
    decreases s.len(),
{
    if i < s.len() - 1 {
        lemma_key_present(s.drop_last(), i);
        assert(s.drop_last()[i] == s[i]);
    }
}

/// A key no entry has is no key of the map.
pub proof fn lemma_key_absent(s: Seq<(String, String)>, k: Seq<char>)
    requires
        forall|j: int| 0 <= j < s.len() ==> (#[trigger] s[j]).0@ != k,
    ensures
        !entry_keys(s).contains(k),
    decreases s.len(),
{
    if s.len() > 0 {
        assert forall|j: int| 0 <= j < s.drop_last().len() implies (#[trigger] s.drop_last()[j]).0@
            != k by {
            assert(s.drop_last()[j] == s[j]);
        }
        lemma_key_absent(s.drop_last(), k);
        assert(s[s.len() - 1].0@ != k);
    }
}

/// Whether `entries` sets key `k`.
fn has_key(entries: &Vec<(String, String)>, k: &String) -> (r: bool)
    ensures
        r == entry_keys(entries@).contains(k@),
{
    let mut i: usize = 0;
    while i < entries.len()
        invariant
            i <= entries.len(),
            forall|j: int| 0 <= j < i ==> (#[trigger] entries@[j]).0@ != k@,
        decreases entries.len() - i,
    {
        if entries[i].0 == *k {
            proof {
                lemma_key_present(entries@, i as int);
            }
            return true;
        }
        i = i + 1;
    }
    proof {
        lemma_key_absent(entries@, k@);
    }
    false
}

/// Merge `over`'s entries into `base` by key, `over`'s winning.
fn merge_entries(base: &mut Vec<(String, String)>, over: Vec<(String, String)>)
    ensures
        entries_map(final(base)@) == entries_map(old(base)@).union_prefer_right(entries_map(over@)),
{
    let ghost keys = entry_keys(over@);
    let mut kept: Vec<(String, String)> = Vec::new();
    let mut i: usize = 0;
    while i < base.len()
        invariant
            i <= base.len(),
            keys == entry_keys(over@),
            kept@ == kept_entries(base@.take(i as int), keys),
        decreases base.len() - i,
    {
        reveal(Seq::filter);
        assert(base@.take(i + 1).drop_last() =~= base@.take(i as int));
        if !has_key(&over, &base[i].0) {
            let ghost before = kept@;
            kept.push((base[i].0.clone(), base[i].1.clone()));
            assert(kept@ =~= before.push(base@[i as int]));
        }
        assert(kept@ =~= kept_entries(base@.take(i + 1), keys));
        i = i + 1;
    }
    assert(base@.take(base.len() as int) =~= base@);
    proof {
        lemma_kept_entries(base@, keys);
        lemma_entries_append(kept@, over@);
        assert(entries_map(base@).remove_keys(keys).union_prefer_right(entries_map(over@))
            =~= entries_map(base@).union_prefer_right(entries_map(over@)));
    }
    let mut over = over;
    kept.append(&mut over);
    *base = kept;
}

/// What layering `over` onto `base` leaves: `Err` with the refusal, or the layered config.
/// Stated key by key in [`overlay`]'s contract.
pub open spec fn pin_no(raw: Option<RawPinFreq>) -> bool {
    match raw {
        Some(r) => spec_pin_freq_from_raw(r) == Ok::<Option<crate::config::PinFreq>, Seq<char>>(
            None,
        ),
        None => false,
    }
}

/// The refusal of a file's `pin_freq`, prefixed with the file.
pub open spec fn pin_refusal(raw: Option<RawPinFreq>) -> Option<Seq<char>> {
    match raw {
        Some(r) => match spec_pin_freq_from_raw(r) {
            Err(e) => Some(e),
            Ok(_) => None,
        },
        None => None,
    }
}

/// Keys `i` and `o` are one choice: the two durations, or the two record modes.
pub open spec fn paired_key(i: int, o: int) -> bool {
    ||| (i == DURATION && o == TOTAL_DURATION)
    ||| (i == TOTAL_DURATION && o == DURATION)
    ||| (i == RECORD_DIR && o == RECORD_FILE)
    ||| (i == RECORD_FILE && o == RECORD_DIR)
}

/// Read one file's config `over`, from `path`, onto `base`: each scalar it sets replaces
/// `base`'s and records `path` as its source; `[tags]` and `[profiles]` merge by entry, the
/// file's winning; `[freq]` replaces whole. A file's `pin_freq` is checked here, where its path
/// is known, and `"no"` becomes no key. A file setting both durations, or both record modes,
/// is refused; setting one clears the other below it.
pub fn overlay<V>(base: &mut Layer<V>, over: Layer<V>, path: &str) -> (r: Result<(), String>)
    requires
        old(base).wf(),
        over.wf(),
    ensures
        final(base).wf(),
        // A refused pin_freq: the refusal, prefixed with the file, and nothing changed.
        pin_refusal(over.pin_freq) matches Some(e) ==> (r matches Err(m) && m@ == path@ + ": "@ + e
            && *final(base) == *old(base)),
        pin_refusal(over.pin_freq) is None && over.values@[DURATION as int] is Some
            && over.values@[TOTAL_DURATION as int] is Some ==> (r matches Err(m) && m@ == path@
            + ": duration and total_duration are both set: keep one"@ && *final(base) == *old(base)),
        pin_refusal(over.pin_freq) is None && !(over.values@[DURATION as int] is Some
            && over.values@[TOTAL_DURATION as int] is Some) && over.values@[RECORD_DIR as int] is Some
            && over.values@[RECORD_FILE as int] is Some ==> (r matches Err(m) && m@ == path@
            + ": record_dir and record_file are both set: keep one"@),
        r is Ok <==> (pin_refusal(over.pin_freq) is None && !(over.values@[DURATION as int] is Some
            && over.values@[TOTAL_DURATION as int] is Some) && !(over.values@[RECORD_DIR as int] is Some
            && over.values@[RECORD_FILE as int] is Some)),
        r is Ok ==> forall|i: int|
            0 <= i < N_KEYS && i != DURATION && i != TOTAL_DURATION && i != RECORD_DIR && i
                != RECORD_FILE ==> #[trigger] final(base).values@[i] == if over.values@[i] is Some {
                over.values@[i]
            } else {
                old(base).values@[i]
            },
        r is Ok ==> forall|i: int|
            0 <= i < N_KEYS && i != DURATION && i != TOTAL_DURATION && i != RECORD_DIR && i
                != RECORD_FILE && i != PIN_FREQ ==> #[trigger] final(base).source_at(i) == if over.values@[i] is Some {
                Some(path@)
            } else {
                old(base).source_at(i)
            },
        r is Ok ==> forall|i: int, o: int|
            #![trigger final(base).values@[i], over.values@[o]]
            paired_key(i, o) ==> final(base).values@[i] == if over.values@[i] is Some {
                over.values@[i]
            } else if over.values@[o] is Some {
                None
            } else {
                old(base).values@[i]
            },
        r is Ok ==> forall|i: int, o: int|
            #![trigger final(base).source_at(i), over.values@[o]]
            paired_key(i, o) ==> final(base).source_at(i) == if over.values@[i] is Some {
                Some(path@)
            } else if over.values@[o] is Some {
                None
            } else {
                old(base).source_at(i)
            },
        r is Ok ==> final(base).pin_freq == if over.pin_freq is Some && !pin_no(over.pin_freq) {
            over.pin_freq
        } else {
            old(base).pin_freq
        },
        r is Ok ==> final(base).source_at(PIN_FREQ as int) == if over.pin_freq is Some && !pin_no(
            over.pin_freq,
        ) {
            Some(path@)
        } else {
            old(base).source_at(PIN_FREQ as int)
        },
        r is Ok ==> final(base).tag_map() == old(base).tag_map().union_prefer_right(over.tag_map()),
        r is Ok ==> final(base).source_at(TAGS as int) == if over.tags@.len() > 0 {
            Some(path@)
        } else {
            old(base).source_at(TAGS as int)
        },
        r is Ok ==> final(base).freq == if over.freq is Some {
            over.freq
        } else {
            old(base).freq
        },
        r is Ok ==> final(base).source_at(FREQ as int) == if over.freq is Some {
            Some(path@)
        } else {
            old(base).source_at(FREQ as int)
        },
        r is Ok ==> final(base).profile_map() == old(base).profile_map().union_prefer_right(
            over.profile_map(),
        ),
{
    let mut over = over;
    let ghost orig = over.pin_freq;
    if let Some(raw) = &over.pin_freq {
        match pin_freq_from_raw(raw) {
            Err(e) => {
                let mut m = string_of(path);
                push_str(&mut m, ": ");
                push_str(&mut m, e.as_str());
                return Err(m);
            },
            Ok(None) => {
                over.pin_freq = None;
            },
            Ok(Some(_)) => {},
        }
    }
    assert(over.pin_freq == if orig is Some && !pin_no(orig) {
        orig
    } else {
        None
    });
    let d = over.values[DURATION].is_some();
    let td = over.values[TOTAL_DURATION].is_some();
    if d && td {
        let mut m = string_of(path);
        push_str(&mut m, ": duration and total_duration are both set: keep one");
        return Err(m);
    }
    if d {
        base.values.set(TOTAL_DURATION, None);
        base.sources.set(TOTAL_DURATION, None);
    } else if td {
        base.values.set(DURATION, None);
        base.sources.set(DURATION, None);
    }
    let rd = over.values[RECORD_DIR].is_some();
    let rf = over.values[RECORD_FILE].is_some();
    if rd && rf {
        let mut m = string_of(path);
        push_str(&mut m, ": record_dir and record_file are both set: keep one");
        return Err(m);
    }
    if rd {
        base.values.set(RECORD_FILE, None);
        base.sources.set(RECORD_FILE, None);
    } else if rf {
        base.values.set(RECORD_DIR, None);
        base.sources.set(RECORD_DIR, None);
    }
    let ghost cleared = *base;
    assert(forall|j: int|
        0 <= j < N_SOURCES && j != DURATION && j != TOTAL_DURATION && j != RECORD_DIR && j
            != RECORD_FILE ==> #[trigger] cleared.sources@[j] == old(base).sources@[j]);
    assert(forall|j: int|
        0 <= j < N_KEYS && j != DURATION && j != TOTAL_DURATION && j != RECORD_DIR && j
            != RECORD_FILE ==> #[trigger] cleared.values@[j] == old(base).values@[j]);
    let ghost ov = over.values@;
    let ghost rest = (over.pin_freq, over.tags, over.profiles, over.freq);
    let mut i: usize = 0;
    while i < N_KEYS
        invariant
            i <= N_KEYS,
            base.wf(),
            ov.len() == N_KEYS,
            ov[PIN_FREQ as int] is None,
            (over.pin_freq, over.tags, over.profiles, over.freq) == rest,
            over.values.len() == N_KEYS,
            forall|j: int| i <= j < N_KEYS ==> #[trigger] over.values@[j] == ov[j],
            forall|j: int|
                0 <= j < N_KEYS ==> #[trigger] base.values@[j] == if j < i && ov[j] is Some {
                    ov[j]
                } else {
                    cleared.values@[j]
                },
            forall|j: int|
                0 <= j < N_SOURCES ==> #[trigger] source_view(base.sources@[j]) == if j < i && j
                    < N_KEYS && ov[j] is Some {
                    Some(path@)
                } else {
                    source_view(cleared.sources@[j])
                },
            base.pin_freq == cleared.pin_freq,
            base.tags == cleared.tags,
            base.profiles == cleared.profiles,
            base.freq == cleared.freq,
        decreases N_KEYS - i,
    {
        if over.values[i].is_some() {
            let mut v: Option<V> = None;
            over.values.set_and_swap(i, &mut v);
            base.values.set(i, v);
            base.sources.set(i, Some(string_of(path)));
        }
        i = i + 1;
    }
    if over.pin_freq.is_some() {
        base.pin_freq = over.pin_freq;
        base.sources.set(PIN_FREQ, Some(string_of(path)));
    }

    if over.tags.len() > 0 {
        base.sources.set(TAGS, Some(string_of(path)));
    }
    let ghost tags_before = base.tags@;
    assert(tags_before == old(base).tags@);
    let ghost over_tags = over.tags@;
    merge_entries(&mut base.tags, over.tags);
    assert(entries_map(base.tags@) == entries_map(tags_before).union_prefer_right(entries_map(over_tags)));
    if over.freq.is_some() {
        base.freq = over.freq;
        base.sources.set(FREQ, Some(string_of(path)));
    }
    merge_entries(&mut base.profiles, over.profiles);
    Ok(())
}

} // verus!
