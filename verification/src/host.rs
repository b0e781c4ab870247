//! The host block of a record: what box produced it. The files and syscalls are read by the
//! caller; what their text means is decided here.
//!
//! - **Absent is null**: a field a box may not expose is an `Option`, never a default.
//! - **Units in the names**, as the rest of the record does.
//! - **Caches as the kernel says them**: one entry per sysfs cache index, so L1 appears twice
//!   (Data and Instruction) and the array's length is the depth.

use vstd::prelude::*;
use crate::analyze::{by_number, in_number_order, insert_run, lemma_number_order_unique};
use crate::text::{
    chars_of, find_char, find_char_in, find_line, find_line_bounds, lemma_skip_shift, parse_u64_chars, skip_in,
    skip_white, skip_word, spec_parse_u64, string_from_chars, trim_bounds, trimmed, starts_with, str_eq,
};

verus! {

/// Where the box produced a record: hostname, CPU, memory, caches, kernel, and toolchain.
#[derive(Debug, Clone, PartialEq, Eq)]
pub struct Host {
    /// The hostname, `unknown-host` when the syscall fails.
    pub name: String,
    /// `model name` from `/proc/cpuinfo`.
    pub cpu_model: Option<String>,
    /// `MemTotal` from `/proc/meminfo`, what the kernel has, less than what is installed.
    pub ram_bytes: Option<u64>,
    /// L1D's `coherency_line_size`, the false-sharing constant the rings are sized by.
    pub cache_line_bytes: Option<u32>,
    /// One entry per sysfs cache index of CPU 0, in index order.
    pub caches: Vec<Cache>,
    /// The kernel release from `uname`.
    pub kernel: Option<String>,
    /// The compiler that built this binary.
    pub rustc: String,
}

/// One cache as sysfs describes it under `/sys/devices/system/cpu/cpu0/cache/indexN/`.
#[derive(Debug, Clone, PartialEq, Eq)]
pub struct Cache {
    /// `level`: 1, 2, 3.
    pub level: u32,
    /// `type`: `Data`, `Instruction`, or `Unified`.
    pub kind: String,
    /// `size`, converted from its `K` / `M` spelling.
    pub size_bytes: u64,
    /// `shared_cpu_list`, verbatim: the CPUs this cache serves.
    pub shared_cpus: String,
}

/// The value of a `key: value` line: what follows its first `:`, trimmed; `None` without one.
pub open spec fn colon_value(l: Seq<char>) -> Option<Seq<char>> {
    let k = find_char(l, 0, ':');
    if k < l.len() {
        Some(trimmed(l.subrange(k + 1, l.len() as int)))
    } else {
        None
    }
}

/// The first `model name` line's value, nonempty.
pub open spec fn spec_cpu_model(cpuinfo: Seq<char>) -> Option<Seq<char>> {
    match find_line(cpuinfo, 0, "model name"@) {
        Some(l) => match colon_value(l) {
            Some(v) => if v.len() > 0 {
                Some(v)
            } else {
                None
            },
            None => None,
        },
        None => None,
    }
}

/// The first `model name` line's value.
pub fn cpu_model(cpuinfo: &str) -> (r: Option<String>)
    ensures
        match r {
            Some(m) => spec_cpu_model(cpuinfo@) == Some(m@),
            None => spec_cpu_model(cpuinfo@) is None,
        },
{
    let v = chars_of(cpuinfo);
    let (a, b) = match find_line_bounds(&v, 0, "model name") {
        Some(bounds) => bounds,
        None => {
            return None;
        },
    };
    let ghost l = v@.subrange(a as int, b as int);
    let k = find_char_in(&v, a, b, ':');
    if k >= b {
        return None;
    }
    assert(l.subrange(k - a + 1, l.len() as int) =~= v@.subrange(k + 1, b as int));
    let (c, d) = trim_bounds(&v, k + 1, b);
    if c == d {
        return None;
    }
    Some(string_from_chars(&v, c, d))
}

/// The second whitespace-separated token of a line, as `split_whitespace().nth(1)` gives it.
pub open spec fn second_token(l: Seq<char>) -> Option<Seq<char>> {
    let a = skip_white(l, 0);
    let b = skip_word(l, a);
    let c = skip_white(l, b);
    let d = skip_word(l, c);
    if c < l.len() {
        Some(l.subrange(c, d))
    } else {
        None
    }
}

/// The `MemTotal:` line's kilobyte count, when it parses.
pub open spec fn mem_total_kb(meminfo: Seq<char>) -> Option<u64> {
    match find_line(meminfo, 0, "MemTotal:"@) {
        Some(l) => match second_token(l) {
            Some(t) => spec_parse_u64(t),
            None => None,
        },
        None => None,
    }
}

/// `MemTotal:  32767688 kB` as bytes.
pub open spec fn spec_mem_total_bytes(meminfo: Seq<char>) -> Option<u64> {
    match mem_total_kb(meminfo) {
        Some(kb) => Some((kb * 1024) as u64),
        None => None,
    }
}

/// `MemTotal:  32767688 kB` as bytes.
pub fn mem_total_bytes(meminfo: &str) -> (r: Option<u64>)
    requires
        match mem_total_kb(meminfo@) {
            Some(kb) => kb * 1024 <= u64::MAX,
            None => true,
        },
    ensures
        r == spec_mem_total_bytes(meminfo@),
{
    match mem_total_kib(meminfo) {
        Some(kb) => Some(kb * 1024),
        None => None,
    }
}

/// `MemTotal:`'s kilobyte count, when the line is there and its count parses: what
/// [`mem_total_bytes`] multiplies, so a caller can see whether the bytes fit first.
pub fn mem_total_kib(meminfo: &str) -> (r: Option<u64>)
    ensures
        r == mem_total_kb(meminfo@),
{
    let v = chars_of(meminfo);
    let (lo, hi) = match find_line_bounds(&v, 0, "MemTotal:") {
        Some(bounds) => bounds,
        None => {
            return None;
        },
    };
    let ghost l = v@.subrange(lo as int, hi as int);
    let a = skip_in(&v, lo, hi, false);
    let b = skip_in(&v, a, hi, true);
    let c = skip_in(&v, b, hi, false);
    let d = skip_in(&v, c, hi, true);
    proof {
        lemma_skip_shift(v@, lo as int, hi as int, lo as int, false);
        assert(v@.subrange(lo as int, hi as int) =~= l);
        lemma_skip_shift(v@, lo as int, hi as int, a as int, true);
        lemma_skip_shift(v@, lo as int, hi as int, b as int, false);
        lemma_skip_shift(v@, lo as int, hi as int, c as int, true);
    }
    if c >= hi {
        return None;
    }
    assert(l.subrange(c - lo, d - lo) =~= v@.subrange(c as int, d as int));
    parse_u64_chars(&v, c, d)
}

/// The unit multiplier of a sysfs cache size's last character, with the digits' end.
pub open spec fn size_unit(s: Seq<char>) -> (int, u64) {
    if s.len() > 0 && s.last() == 'K' {
        (s.len() - 1, 1024)
    } else if s.len() > 0 && s.last() == 'M' {
        (s.len() - 1, 1_048_576u64)
    } else if s.len() > 0 && s.last() == 'G' {
        (s.len() - 1, 1_073_741_824u64)
    } else {
        (s.len() as int, 1)
    }
}

/// The count a sysfs cache size spells, before its unit.
pub open spec fn size_count(s: Seq<char>) -> Option<u64> {
    if s.len() == 0 {
        None
    } else {
        spec_parse_u64(s.subrange(0, size_unit(s).0))
    }
}

/// sysfs cache sizes: `32K`, `16384K`, `1M`, or a bare byte count.
pub open spec fn spec_parse_size(s: Seq<char>) -> Option<u64> {
    match size_count(s) {
        Some(n) => Some((n * size_unit(s).1) as u64),
        None => None,
    }
}

/// Whether a size's byte count fits a `u64`.
pub open spec fn size_fits(s: Seq<char>) -> bool {
    match size_count(s) {
        Some(n) => n * size_unit(s).1 <= u64::MAX,
        None => true,
    }
}

/// Whether a cache size's byte count fits a `u64`: whether [`parse_size`] may be asked for it.
pub fn size_fits_u64(s: &str) -> (r: bool)
    ensures
        r == size_fits(s@),
{
    let v = chars_of(s);
    if v.len() == 0 {
        return true;
    }
    let last = v[v.len() - 1];
    let (end, mult): (usize, u64) = if last == 'K' {
        (v.len() - 1, 1024)
    } else if last == 'M' {
        (v.len() - 1, 1024 * 1024)
    } else if last == 'G' {
        (v.len() - 1, 1024 * 1024 * 1024)
    } else {
        (v.len(), 1)
    };
    assert(v@.subrange(0, v@.len() as int) =~= s@);
    assert(v@.subrange(0, end as int) =~= s@.subrange(0, size_unit(s@).0));
    match parse_u64_chars(&v, 0, end) {
        Some(n) => n <= u64::MAX / mult,
        None => true,
    }
}

/// sysfs cache sizes: `32K`, `16384K`, `1M`, or a bare byte count.
pub fn parse_size(s: &str) -> (r: Option<u64>)
    requires
        size_fits(s@),
    ensures
        r == spec_parse_size(s@),
{
    let v = chars_of(s);
    if v.len() == 0 {
        return None;
    }
    let last = v[v.len() - 1];
    let (end, mult): (usize, u64) = if last == 'K' {
        (v.len() - 1, 1024)
    } else if last == 'M' {
        (v.len() - 1, 1024 * 1024)
    } else if last == 'G' {
        (v.len() - 1, 1024 * 1024 * 1024)
    } else {
        (v.len(), 1)
    };
    match parse_u64_chars(&v, 0, end) {
        Some(n) => Some(n * mult),
        None => None,
    }
}

/// What one cache index's four files say: its level, type, size and sharing list, each
/// trimmed; `None` when any is missing or malformed.
pub open spec fn spec_cache_from(
    level: Seq<char>,
    kind: Seq<char>,
    size: Seq<char>,
    shared: Seq<char>,
) -> Option<(u32, Seq<char>, u64, Seq<char>)> {
    match spec_parse_u64(trimmed(level)) {
        Some(l) => if l > u32::MAX || trimmed(kind).len() == 0 {
            None
        } else {
            match spec_parse_size(trimmed(size)) {
                Some(b) => if trimmed(shared).len() == 0 {
                    None
                } else {
                    Some((l as u32, trimmed(kind), b, trimmed(shared)))
                },
                None => None,
            }
        },
        None => None,
    }
}

/// Whether reading an index's files gets as far as its size: a level that is a `u32` and a
/// type that is not empty.
pub open spec fn reaches_size(level: Seq<char>, kind: Seq<char>) -> bool {
    match spec_parse_u64(trimmed(level)) {
        Some(l) => l <= u32::MAX && trimmed(kind).len() > 0,
        None => false,
    }
}

/// One cache entry from its index directory's `level`, `type`, `size` and `shared_cpu_list`
/// texts (empty for an unreadable file); `None` when any is missing or malformed.
pub fn cache_from(level: &str, kind: &str, size: &str, shared: &str) -> (r: Option<Cache>)
    requires
        reaches_size(level@, kind@) ==> size_fits(trimmed(size@)),
    ensures
        match r {
            Some(c) => spec_cache_from(level@, kind@, size@, shared@) == Some(
                (c.level, c.kind@, c.size_bytes, c.shared_cpus@),
            ),
            None => spec_cache_from(level@, kind@, size@, shared@) is None,
        },
{
    let lv = crate::text::trim(level);
    let l = match crate::text::parse_u64(lv.as_str()) {
        Some(l) => l,
        None => {
            return None;
        },
    };
    if l > 0xffff_ffff {
        return None;
    }
    let kind_t = crate::text::trim(kind);
    if kind_t.as_str().unicode_len() == 0 {
        return None;
    }
    let size_t = crate::text::trim(size);
    let size_bytes = match parse_size(size_t.as_str()) {
        Some(b) => b,
        None => {
            return None;
        },
    };
    let shared_t = crate::text::trim(shared);
    if shared_t.as_str().unicode_len() == 0 {
        return None;
    }
    Some(Cache { level: l as u32, kind: kind_t, size_bytes, shared_cpus: shared_t })
}


/// A text as `str::parse::<u32>` reads it.
pub open spec fn spec_parse_u32(s: Seq<char>) -> Option<u32> {
    match spec_parse_u64(s) {
        Some(x) => if x <= u32::MAX {
            Some(x as u32)
        } else {
            None
        },
        None => None,
    }
}

/// A cache index entry's sort key: the number after `index`, one up, and 0 when the rest is no
/// number, so those sort first as `None` does before `Some`.
pub open spec fn index_key(name: Seq<char>) -> u64 {
    if name.len() < 5 {
        0
    } else {
        match spec_parse_u32(name.skip(5)) {
            Some(x) => (x + 1) as u64,
            None => 0,
        }
    }
}

/// Whether a directory entry is a cache index: its name starts with `index`.
pub open spec fn is_index(name: Seq<char>) -> bool {
    starts_with(name, "index"@)
}

/// The positions of `names` that are cache indices.
pub open spec fn index_positions(names: Seq<Seq<char>>) -> Set<usize> {
    Set::new(|i: usize| i < names.len() && is_index(names[i as int]))
}

/// The sort keys of `names`, by position.
pub open spec fn index_keys(names: Seq<Seq<char>>) -> Seq<u64> {
    names.map_values(|n: Seq<char>| index_key(n))
}

/// Whether a reading's text starts with `index`.
fn index_entry(name: &str) -> (r: bool)
    ensures
        r == is_index(name@),
{
    let v = chars_of(name);
    assert(v@.subrange(0, v@.len() as int) =~= name@);
    proof {
        reveal_strlit("index");
    }
    if v.len() < 5 {
        return false;
    }
    let r = v[0] == 'i' && v[1] == 'n' && v[2] == 'd' && v[3] == 'e' && v[4] == 'x';
    assert(r == (v@.subrange(0, 5) =~= "index"@));
    r
}

/// A text read as `u32`.
fn parse_u32(s: &str) -> (r: Option<u32>)
    ensures
        r == spec_parse_u32(s@),
{
    match crate::text::parse_u64(s) {
        Some(x) => if x <= 0xffff_ffff {
            Some(x as u32)
        } else {
            None
        },
        None => None,
    }
}

/// The cache directory's `indexN` entries among `names`, in index order: by the number after
/// `index`, names whose rest is no number first, ties in the order given.
pub fn index_order(names: &Vec<String>) -> (r: Vec<String>)
    ensures
        r.len() == by_number(index_keys(names.deep_view()), index_positions(names.deep_view())).len(),
        forall|j: int|
            0 <= j < r.len() ==> (#[trigger] r@[j])@ == names.deep_view()[by_number(
                index_keys(names.deep_view()),
                index_positions(names.deep_view()),
            )[j] as int],
{
    let ghost ns = names.deep_view();
    let ghost ks = index_keys(ns);
    let mut keys: Vec<u64> = Vec::new();
    let mut i: usize = 0;
    while i < names.len()
        invariant
            i <= names.len(),
            ns == names.deep_view(),
            ks == index_keys(ns),
            keys@ == ks.take(i as int),
        decreases names.len() - i,
    {
        assert(ns[i as int] == names@[i as int]@);
        let n = names[i].as_str();
        let len = n.unicode_len();
        let k: u64 = if len >= 5 {
            let rest = n.substring_char(5, len);
            assert(rest@ =~= ns[i as int].skip(5));
            match parse_u32(rest) {
                Some(x) => x as u64 + 1,
                None => 0,
            }
        } else {
            0
        };
        keys.push(k);
        assert(keys@ =~= ks.take(i + 1));
        i = i + 1;
    }
    assert(ks.take(names.len() as int) =~= ks);
    let mut q: Vec<usize> = Vec::new();
    let mut j: usize = 0;
    assert(q@.to_set() =~= Set::<usize>::empty());
    while j < names.len()
        invariant
            j <= names.len(),
            ns == names.deep_view(),
            keys@ == ks,
            keys.len() == names.len(),
            forall|h: int| 0 <= h < q@.len() ==> (#[trigger] q@[h]) < j,
            in_number_order(ks, q@),
            q@.to_set() == Set::new(|x: usize| x < j && is_index(ns[x as int])),
        decreases names.len() - j,
    {
        if index_entry(names[j].as_str()) {
            assert(ns[j as int] == names@[j as int]@);
            assert(!q@.contains(j)) by {
                if q@.contains(j) {
                    let h = choose|h: int| 0 <= h < q@.len() && q@[h] == j;
                }
            }
            insert_run(&keys, &mut q, j);
            assert(q@.to_set() =~= Set::new(|x: usize| x < j + 1 && is_index(ns[x as int])));
        } else {
            assert(ns[j as int] == names@[j as int]@);
            assert(q@.to_set() =~= Set::new(|x: usize| x < j + 1 && is_index(ns[x as int])));
        }
        assert forall|h: int| 0 <= h < q@.len() implies (#[trigger] q@[h]) < j + 1 by {
            assert(q@.to_set().contains(q@[h]));
        }
        j = j + 1;
    }
    assert(q@.to_set() =~= index_positions(ns));
    proof {
        let c = by_number(ks, index_positions(ns));
        assert(in_number_order(ks, c) && c.to_set() == index_positions(ns));
        lemma_number_order_unique(ks, c, q@);
    }
    let mut out: Vec<String> = Vec::new();
    let mut m: usize = 0;
    while m < q.len()
        invariant
            m <= q.len(),
            ns == names.deep_view(),
            forall|h: int| 0 <= h < q@.len() ==> (#[trigger] q@[h]) < names.len(),
            out.len() == m,
            forall|h: int| 0 <= h < m ==> (#[trigger] out@[h])@ == ns[q@[h] as int],
        decreases q.len() - m,
    {
        let c = names[q[m]].clone();
        assert(ns[q@[m as int] as int] == names@[q@[m as int] as int]@);
        out.push(c);
        m = m + 1;
    }
    out
}

/// Which index's `coherency_line_size` gives the line size: the one at the position of the
/// first cache entry that is L1 Data, when there are that many indices, else the first index.
pub open spec fn spec_line_index(caches: Seq<Cache>, count: nat) -> Option<nat> {
    let l1d = first_l1d(caches);
    if l1d < caches.len() && l1d < count {
        Some(l1d)
    } else if count > 0 {
        Some(0)
    } else {
        None
    }
}

/// The position of the first L1 Data cache entry, `caches.len()` when none is.
pub open spec fn first_l1d(caches: Seq<Cache>) -> nat
    decreases caches.len(),
{
    if caches.len() == 0 {
        0
    } else if caches[0].level == 1 && caches[0].kind@ == "Data"@ {
        0
    } else {
        1 + first_l1d(caches.drop_first())
    }
}

/// Which of `count` indices, in index order, gives the line size: the L1 data cache's, or the
/// first index when no entry names L1 Data; none when there are no indices.
pub fn line_index(caches: &Vec<Cache>, count: usize) -> (r: Option<usize>)
    ensures
        match r {
            Some(i) => spec_line_index(caches@, count as nat) == Some(i as nat),
            None => spec_line_index(caches@, count as nat) is None,
        },
{
    let mut i: usize = 0;
    assert(caches@.skip(0) =~= caches@);
    while i < caches.len() && !(caches[i].level == 1 && str_eq(caches[i].kind.as_str(), "Data"))
        invariant
            i <= caches.len(),
            first_l1d(caches@) == i + first_l1d(caches@.skip(i as int)),
        decreases caches.len() - i,
    {
        assert(caches@.skip(i as int)[0] == caches@[i as int]);
        assert(caches@.skip(i as int).drop_first() =~= caches@.skip(i + 1));
        i = i + 1;
    }
    if i < caches.len() {
        assert(caches@.skip(i as int)[0] == caches@[i as int]);
    }
    if i < caches.len() && i < count {
        Some(i)
    } else if count > 0 {
        Some(0)
    } else {
        None
    }
}

/// The line size `coherency_line_size` reads: its trimmed text as a `u32`.
pub fn line_size(text: &str) -> (r: Option<u32>)
    ensures
        r == spec_parse_u32(trimmed(text@)),
{
    let t = crate::text::trim(text);
    parse_u32(t.as_str())
}

/// Whether reading an index's files gets as far as its size: a level that is a `u32` and a
/// type that is not empty, so the size is parsed and multiplied.
pub fn size_is_read(level: &str, kind: &str) -> (r: bool)
    ensures
        r == reaches_size(level@, kind@),
{
    let l = crate::text::trim(level);
    match crate::text::parse_u64(l.as_str()) {
        Some(x) => x <= 0xffff_ffff && crate::text::trim(kind).as_str().unicode_len() > 0,
        None => false,
    }
}
} // verus!
