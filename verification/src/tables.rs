//! Config tables as the starting config combines them: a file's top-level keys, each a value or
//! a table of values, and a command line's keys over them. The values themselves are the
//! caller's type, carried and never read; what decides is the keys.
//!
//! - A key the line sets replaces the file's, except that a table the line sets joins the file's
//!   table of that name, the line's entries winning.
//! - `duration` and `total_duration` are one choice, and so are `record_dir` and `record_file`:
//!   the line's pick clears the file's other one.

use vstd::prelude::*;
use crate::text::{
    contains_string, insert_text, join, joined, lemma_sorted_of, push_str, sorted_of, str_eq,
    strictly_sorted, string_of,
};

verus! {

/// A top-level config entry: one value, or a table's values by key.
#[derive(Debug, Clone, PartialEq, Eq)]
pub enum Entry<V> {
    /// A value.
    Value(V),
    /// A table: its entries in order, a later entry for a key winning.
    Table(Vec<(String, V)>),
}

/// An entry as a map reads it: a value, or a table's values by key.
pub enum Shape<V> {
    /// A value.
    Value(V),
    /// A table's values by key.
    Table(Map<Seq<char>, V>),
}

/// Entries by key, a later entry for a key winning as a later insert does.
pub open spec fn keyed<T>(s: Seq<(String, T)>) -> Map<Seq<char>, T>
    decreases s.len(),
{
    if s.len() == 0 {
        Map::empty()
    } else {
        keyed(s.drop_last()).insert(s.last().0@, s.last().1)
    }
}

/// No key twice, as in a map's entries.
pub open spec fn unique_keys<T>(s: Seq<(String, T)>) -> bool {
    forall|i: int, j: int| 0 <= i < j < s.len() ==> (#[trigger] s[i]).0@ != (#[trigger] s[j]).0@
}

/// An entry as a map reads it.
pub open spec fn shape<V>(e: Entry<V>) -> Shape<V> {
    match e {
        Entry::Value(v) => Shape::Value(v),
        Entry::Table(t) => Shape::Table(keyed(t@)),
    }
}

/// A table's entries by key.
pub open spec fn table_map<V>(t: Seq<(String, Entry<V>)>) -> Map<Seq<char>, Shape<V>> {
    keyed(t).map_values(|e: Entry<V>| shape(e))
}

/// The key a key is one choice with: `duration` and `total_duration`, `record_dir` and
/// `record_file`.
pub open spec fn partner(k: Seq<char>) -> Option<Seq<char>> {
    if k == "duration"@ {
        Some("total_duration"@)
    } else if k == "total_duration"@ {
        Some("duration"@)
    } else if k == "record_dir"@ {
        Some("record_file"@)
    } else if k == "record_file"@ {
        Some("record_dir"@)
    } else {
        None
    }
}

/// Whether keys `line` set clear `k`: they make the choice `k` is the other side of.
pub open spec fn cleared_by(k: Seq<char>, line: Set<Seq<char>>) -> bool {
    partner(k) matches Some(p) && line.contains(p)
}

/// `line`'s keys over `old`'s: a key replaces, a table joins the file's table of that name with
/// its entries winning, and the line's choice of `duration` or `total_duration`, or of
/// `record_dir` or `record_file`, clears the file's other one.
pub open spec fn merged_map<V>(old: Map<Seq<char>, Shape<V>>, line: Map<Seq<char>, Shape<V>>) -> Map<
    Seq<char>,
    Shape<V>,
> {
    Map::new(
        |k: Seq<char>| line.contains_key(k) || (old.contains_key(k) && !cleared_by(k, line.dom())),
        |k: Seq<char>|
            if line.contains_key(k) {
                if old.contains_key(k) && !cleared_by(k, line.dom()) {
                    match (old[k], line[k]) {
                        (Shape::Table(a), Shape::Table(b)) => Shape::Table(a.union_prefer_right(b)),
                        _ => line[k],
                    }
                } else {
                    line[k]
                }
            } else {
                old[k]
            },
    )
}

/// The keys of entries.
pub open spec fn keys_of<T>(s: Seq<(String, T)>) -> Set<Seq<char>> {
    Set::new(|k: Seq<char>| exists|i: int| 0 <= i < s.len() && (#[trigger] s[i]).0@ == k)
}

/// Entries by key hold exactly the entries' keys.
pub proof fn lemma_keyed_dom<T>(s: Seq<(String, T)>)
    ensures
        keyed(s).dom() == keys_of(s),
    decreases s.len(),
{
    if s.len() > 0 {
        let p = s.drop_last();
        lemma_keyed_dom(p);
        assert forall|k: Seq<char>| keyed(s).dom().contains(k) <==> #[trigger] keys_of(s).contains(k) by {
            if keys_of(s).contains(k) {
                let i = choose|i: int| 0 <= i < s.len() && (#[trigger] s[i]).0@ == k;
                if i < s.len() - 1 {
                    assert(p[i] == s[i]);
                    assert(keys_of(p).contains(k));
                }
            }
            if keys_of(p).contains(k) {
                let i = choose|i: int| 0 <= i < p.len() && (#[trigger] p[i]).0@ == k;
                assert(s[i] == p[i]);
            }
            if k == s.last().0@ {
                assert(s[s.len() - 1] == s.last());
            }
        }
        assert(keyed(s).dom() =~= keys_of(s));
    } else {
        assert(keys_of(s) =~= Set::empty());
    }
}

/// With no key twice, each entry is what its key maps to.
pub proof fn lemma_keyed_unique<T>(s: Seq<(String, T)>, i: int)
    requires
        unique_keys(s),
        0 <= i < s.len(),
    ensures
        keyed(s).contains_key(s[i].0@),
        keyed(s)[s[i].0@] == s[i].1,
    decreases s.len(),
{
    if i < s.len() - 1 {
        let p = s.drop_last();
        assert(unique_keys(p)) by {
            assert forall|a: int, b: int| 0 <= a < b < p.len() implies (#[trigger] p[a]).0@ != (#[trigger] p[b]).0@ by {
                assert(p[a] == s[a] && p[b] == s[b]);
            }
        }
        assert(p[i] == s[i]);
        lemma_keyed_unique(p, i);
        assert(s[s.len() - 1] == s.last());
    }
}

/// Entries one after the other map as the first's overridden by the second's.
pub proof fn lemma_keyed_append<T>(a: Seq<(String, T)>, b: Seq<(String, T)>)
    ensures
        keyed(a + b) == keyed(a).union_prefer_right(keyed(b)),
    decreases b.len(),
{
    if b.len() == 0 {
        assert(a + b =~= a);
        assert(keyed(a).union_prefer_right(keyed(b)) =~= keyed(a));
    } else {
        lemma_keyed_append(a, b.drop_last());
        assert((a + b).drop_last() =~= a + b.drop_last());
        assert((a + b).last() == b.last());
        assert(keyed(a + b) =~= keyed(a).union_prefer_right(keyed(b)));
    }
}

/// With no key twice, taking an entry out takes its key out.
pub proof fn lemma_keyed_remove<T>(s: Seq<(String, T)>, j: int)
    requires
        unique_keys(s),
        0 <= j < s.len(),
    ensures
        unique_keys(s.remove(j)),
        keyed(s.remove(j)) == keyed(s).remove(s[j].0@),
{
    let r = s.remove(j);
    let k = s[j].0@;
    assert(unique_keys(r)) by {
        assert forall|a: int, b: int| 0 <= a < b < r.len() implies (#[trigger] r[a]).0@ != (#[trigger] r[b]).0@ by {
            let sa = if a < j { a } else { a + 1 };
            let sb = if b < j { b } else { b + 1 };
            assert(r[a] == s[sa] && r[b] == s[sb]);
        }
    }
    lemma_keyed_dom(s);
    lemma_keyed_dom(r);
    assert forall|x: Seq<char>| #[trigger] keyed(r).contains_key(x) <==> keyed(s).remove(k).contains_key(x) by {
        if keyed(r).contains_key(x) {
            let a = choose|a: int| 0 <= a < r.len() && (#[trigger] r[a]).0@ == x;
            let sa = if a < j { a } else { a + 1 };
            assert(r[a] == s[sa]);
            assert(keys_of(s).contains(x));
        }
        if keyed(s).remove(k).contains_key(x) {
            let a = choose|a: int| 0 <= a < s.len() && (#[trigger] s[a]).0@ == x;
            if a < j {
                assert(r[a] == s[a]);
            } else {
                assert(a != j);
                assert(r[a - 1] == s[a]);
            }
            assert(keys_of(r).contains(x));
        }
    }
    assert forall|x: Seq<char>| #[trigger] keyed(r).contains_key(x) implies keyed(r)[x] == keyed(s)[x] by {
        let a = choose|a: int| 0 <= a < r.len() && (#[trigger] r[a]).0@ == x;
        let sa = if a < j { a } else { a + 1 };
        assert(r[a] == s[sa]);
        lemma_keyed_unique(r, a);
        lemma_keyed_unique(s, sa);
    }
    assert(keyed(r) =~= keyed(s).remove(k));
}

/// One more entry maps as an insert of it.
pub proof fn lemma_table_push<V>(s: Seq<(String, Entry<V>)>, x: (String, Entry<V>))
    ensures
        table_map(s.push(x)) == table_map(s).insert(x.0@, shape(x.1)),
{
    assert(s.push(x).drop_last() =~= s);
    assert(table_map(s.push(x)) =~= table_map(s).insert(x.0@, shape(x.1)));
}

/// Tables one after the other map as the first's overridden by the second's.
pub proof fn lemma_table_append<V>(a: Seq<(String, Entry<V>)>, b: Seq<(String, Entry<V>)>)
    ensures
        table_map(a + b) == table_map(a).union_prefer_right(table_map(b)),
{
    lemma_keyed_append(a, b);
    assert(table_map(a + b) =~= table_map(a).union_prefer_right(table_map(b)));
}

/// The key `k` is one choice with, when it is one.
fn partner_of(k: &str) -> (r: Option<&'static str>)
    ensures
        match r {
            Some(p) => partner(k@) == Some(p@),
            None => partner(k@) is None,
        },
{
    proof {
        reveal_strlit("duration");
        reveal_strlit("total_duration");
        reveal_strlit("record_dir");
        reveal_strlit("record_file");
    }
    if str_eq(k, "duration") {
        Some("total_duration")
    } else if str_eq(k, "total_duration") {
        Some("duration")
    } else if str_eq(k, "record_dir") {
        Some("record_file")
    } else if str_eq(k, "record_file") {
        Some("record_dir")
    } else {
        None
    }
}

/// Whether the line's keys `keys` clear `k`.
fn is_cleared(k: &str, keys: &Vec<String>) -> (r: bool)
    ensures
        r == cleared_by(k@, keys.deep_view().to_set()),
{
    match partner_of(k) {
        Some(p) => {
            let ps = string_of(p);
            contains_string(keys, &ps)
        },
        None => false,
    }
}

/// Where the entry for `k` stands, when there is one.
fn find_key<T>(s: &Vec<(String, T)>, k: &str) -> (r: Option<usize>)
    ensures
        match r {
            Some(j) => j < s.len() && s@[j as int].0@ == k@,
            None => !keys_of(s@).contains(k@),
        },
{
    let mut i: usize = 0;
    while i < s.len()
        invariant
            i <= s.len(),
            forall|j: int| 0 <= j < i ==> (#[trigger] s@[j]).0@ != k@,
        decreases s.len() - i,
    {
        if str_eq(s[i].0.as_str(), k) {
            return Some(i);
        }
        i = i + 1;
    }
    None
}

/// The keys of `line`, in order.
fn key_list<T>(line: &Vec<(String, T)>) -> (r: Vec<String>)
    ensures
        r.deep_view().to_set() == keys_of(line@),
{
    let mut r: Vec<String> = Vec::new();
    let mut i: usize = 0;
    while i < line.len()
        invariant
            i <= line.len(),
            r.len() == i,
            forall|j: int| 0 <= j < i ==> #[trigger] r.deep_view()[j] == line@[j].0@,
        decreases line.len() - i,
    {
        let ghost before = r.deep_view();
        r.push(line[i].0.clone());
        assert(r.deep_view() =~= before.push(line@[i as int].0@));
        i = i + 1;
    }
    assert forall|k: Seq<char>| #[trigger] r.deep_view().to_set().contains(k) <==> keys_of(line@).contains(k) by {
        if keys_of(line@).contains(k) {
            let j = choose|j: int| 0 <= j < line@.len() && (#[trigger] line@[j]).0@ == k;
            assert(r.deep_view()[j] == k);
        }
    }
    assert(r.deep_view().to_set() =~= keys_of(line@));
    r
}

/// The keys among the first `i` of `o` that the line's keys `lk` do not clear.
pub open spec fn kept_keys<T>(o: Seq<(String, T)>, i: int, lk: Set<Seq<char>>) -> Set<Seq<char>> {
    Set::new(|k: Seq<char>| exists|m: int| 0 <= m < i && (#[trigger] o[m]).0@ == k && !cleared_by(k, lk))
}

/// `line`'s keys over `old`'s: a key replaces, a table the line sets joins the file's table of
/// that name with the line's entries winning, and the line's choice of `duration` or
/// `total_duration`, or of `record_dir` or `record_file`, clears the file's other one.
#[verifier::rlimit(40)]
pub fn merged<V>(old: Vec<(String, Entry<V>)>, line: Vec<(String, Entry<V>)>) -> (r: Vec<(String, Entry<V>)>)
    requires
        unique_keys(old@),
        unique_keys(line@),
    ensures
        unique_keys(r@),
        table_map(r@) == merged_map(table_map(old@), table_map(line@)),
{
    let ghost o = old@;
    let ghost l = line@;
    let ghost lk = keys_of(l);
    let ghost to = table_map(o);
    let ghost tl = table_map(l);
    let keys = key_list(&line);
    proof {
        lemma_keyed_dom(o);
        lemma_keyed_dom(l);
        assert(tl.dom() == lk);
    }
    let mut old = old;
    let mut rest = line;
    let mut out: Vec<(String, Entry<V>)> = Vec::new();
    let ghost mut i: int = 0;
    assert(old@ =~= o.skip(0));
    assert(kept_keys(o, 0, lk) =~= Set::empty());
    assert(keyed(rest@) =~= keyed(l).remove_keys(kept_keys(o, 0, lk)));
    assert(table_map(out@) =~= merged_map(to, tl).restrict(kept_keys(o, 0, lk)));
    while old.len() > 0
        invariant
            0 <= i <= o.len(),
            old@ == o.skip(i),
            unique_keys(o),
            unique_keys(l),
            lk == keys_of(l),
            keys.deep_view().to_set() == lk,
            to == table_map(o),
            tl == table_map(l),
            tl.dom() == lk,
            to.dom() == keys_of(o),
            unique_keys(rest@),
            unique_keys(out@),
            keyed(rest@) == keyed(l).remove_keys(kept_keys(o, i, lk)),
            table_map(out@) == merged_map(to, tl).restrict(kept_keys(o, i, lk)),
            keys_of(out@) == kept_keys(o, i, lk),
        decreases old.len(),
    {
        let ghost before_out = out@;
        let ghost before_rest = rest@;
        assert(o.skip(i)[0] == o[i]);
        let (k, oe) = old.remove(0);
        assert(old@ =~= o.skip(i + 1));
        proof {
            lemma_keyed_unique(o, i);
            lemma_keyed_dom(rest@);
            lemma_keyed_dom(out@);
        }
        let ghost kk = k@;
        let ghost k_new = !cleared_by(kk, lk) && !kept_keys(o, i, lk).contains(kk);
        if is_cleared(k.as_str(), &keys) {
            assert(kept_keys(o, i + 1, lk) =~= kept_keys(o, i, lk));
        } else {
            assert(!kept_keys(o, i, lk).contains(kk)) by {
                if kept_keys(o, i, lk).contains(kk) {
                    let m = choose|m: int| 0 <= m < i && (#[trigger] o[m]).0@ == kk && !cleared_by(kk, lk);
                }
            }
            assert(kept_keys(o, i + 1, lk) =~= kept_keys(o, i, lk).insert(kk));
            match find_key(&rest, k.as_str()) {
                None => {
                    assert(!tl.contains_key(kk)) by {
                        if tl.contains_key(kk) {
                            assert(keyed(rest@).contains_key(kk));
                        }
                    }
                    assert(to.contains_key(kk) && to[kk] == shape(oe));
                    assert(merged_map(to, tl)[kk] == shape(oe));
                    proof {
                        lemma_table_push(out@, (k, oe));
                    }
                    out.push((k, oe));
                    assert(table_map(out@) == table_map(before_out).insert(kk, merged_map(to, tl)[kk]));
                },
                Some(j) => {
                    proof {
                        lemma_keyed_unique(rest@, j as int);
                        lemma_keyed_remove(rest@, j as int);
                    }
                    let (_, le) = rest.remove(j);
                    assert(keyed(l).contains_key(kk) && keyed(l)[kk] == le);
                    assert(tl.contains_key(kk) && tl[kk] == shape(le));
                    assert(to.contains_key(kk) && to[kk] == shape(oe));
                    match (oe, le) {
                        (Entry::Table(mut have), Entry::Table(mut more)) => {
                            let ghost h = have@;
                            let ghost m = more@;
                            have.append(&mut more);
                            proof {
                                lemma_keyed_append(h, m);
                                lemma_table_push(out@, (k, Entry::Table(have)));
                            }
                            assert(merged_map(to, tl)[kk] == Shape::Table(keyed(h).union_prefer_right(keyed(m))));
                            out.push((k, Entry::Table(have)));
                            assert(table_map(out@) == table_map(before_out).insert(kk, merged_map(to, tl)[kk]));
                        },
                        (oe, le) => {
                            assert(!(oe is Table && le is Table));
                            assert(merged_map(to, tl)[kk] == shape(le));
                            proof {
                                lemma_table_push(out@, (k, le));
                            }
                            out.push((k, le));
                            assert(table_map(out@) == table_map(before_out).insert(kk, merged_map(to, tl)[kk]));
                        },
                    }
                },
            }
            proof {
                let n = out@.len() - 1;
                assert(out@ =~= before_out.push(out@[n]));
                assert(out@[n].0@ == kk);
                assert forall|a: int, b: int| 0 <= a < b < out@.len() implies (#[trigger] out@[a]).0@ != (#[trigger] out@[b]).0@ by {
                    if b == n {
                        assert(keys_of(before_out).contains(out@[a].0@));
                    }
                }
                assert(keyed(rest@) =~= keyed(l).remove_keys(kept_keys(o, i + 1, lk)));
                assert(table_map(out@) =~= merged_map(to, tl).restrict(kept_keys(o, i + 1, lk)));
                assert forall|x: Seq<char>| #[trigger] keys_of(out@).contains(x) <==> kept_keys(o, i + 1, lk).contains(x) by {
                    if keys_of(out@).contains(x) {
                        let a = choose|a: int| 0 <= a < out@.len() && (#[trigger] out@[a]).0@ == x;
                        if a < n {
                            assert(keys_of(before_out).contains(x));
                        }
                    }
                    if kept_keys(o, i, lk).contains(x) {
                        let a = choose|a: int| 0 <= a < before_out.len() && (#[trigger] before_out[a]).0@ == x;
                        assert(out@[a] == before_out[a]);
                    }
                    if x == kk {
                        assert(out@[n].0@ == kk);
                    }
                }
                assert(keys_of(out@) =~= kept_keys(o, i + 1, lk));
            }
        }
        proof {
            i = i + 1;
        }
    }
    assert(o.skip(i).len() == 0);
    assert(i == o.len());
    let ghost pre = out@;
    let ghost tail = rest@;
    proof {
        lemma_keyed_dom(tail);
        lemma_keyed_dom(pre);
    }
    out.append(&mut rest);
    proof {
        lemma_table_append(pre, tail);
        assert forall|x: Seq<char>| #[trigger] kept_keys(o, i, lk).contains(x) <==> (to.contains_key(x) && !cleared_by(x, lk)) by {
            if to.contains_key(x) && !cleared_by(x, lk) {
                assert(keys_of(o).contains(x));
                let m = choose|m: int| 0 <= m < o.len() && (#[trigger] o[m]).0@ == x;
            }
        }
        assert(keyed(tail) == keyed(l).remove_keys(kept_keys(o, i, lk)));
        assert forall|a: int, b: int| 0 <= a < b < out@.len() implies (#[trigger] out@[a]).0@ != (#[trigger] out@[b]).0@ by {
            if a < pre.len() && b >= pre.len() {
                assert(out@[a] == pre[a]);
                assert(out@[b] == tail[b - pre.len()]);
                assert(keys_of(pre).contains(out@[a].0@));
                assert(keys_of(tail).contains(out@[b].0@));
            } else if b < pre.len() {
                assert(out@[a] == pre[a] && out@[b] == pre[b]);
            } else {
                assert(out@[a] == tail[a - pre.len()] && out@[b] == tail[b - pre.len()]);
            }
        }
        assert(table_map(out@) =~= merged_map(to, tl));
    }
    out
}


/// One of the host's files as the starting config reads it: the path it is named by, its
/// top-level entries, and whether its `pin_freq` is the word `no`.
#[derive(Debug, Clone, PartialEq, Eq)]
pub struct HostFile<V> {
    /// The path, as the note names it.
    pub path: String,
    /// Its top-level entries, no key twice.
    pub table: Vec<(String, Entry<V>)>,
    /// Whether its `pin_freq` is `"no"`, which in a file is no opinion.
    pub pin_freq_no: bool,
}

/// A host file's run keys: its `[freq]` and `[profiles]` stay the host's, and a `pin_freq` of
/// `no` is no key, so a lower file's pin stands.
pub open spec fn run_map<V>(f: HostFile<V>) -> Map<Seq<char>, Shape<V>> {
    let t = table_map(f.table@).remove("freq"@).remove("profiles"@);
    if f.pin_freq_no {
        t.remove("pin_freq"@)
    } else {
        t
    }
}

/// The files' run keys layered in order, the later winning as [`merged_map`] has it.
pub open spec fn start_map<V>(files: Seq<HostFile<V>>) -> Map<Seq<char>, Shape<V>>
    decreases files.len(),
{
    if files.len() == 0 {
        Map::empty()
    } else {
        merged_map(start_map(files.drop_last()), run_map(files.last()))
    }
}

/// Whether file `at` is where the start takes `k` from: it sets `k`, no later file does, the
/// line neither sets `k` (but for `tags`, which joins) nor makes the choice that clears it.
pub open spec fn taken_from<V>(files: Seq<HostFile<V>>, line: Set<Seq<char>>, at: int, k: Seq<char>) -> bool {
    &&& run_map(files[at]).contains_key(k)
    &&& forall|b: int| at < b < files.len() ==> !(#[trigger] run_map(files[b])).contains_key(k)
    &&& (k == "tags"@ || !line.contains(k))
    &&& !cleared_by(k, line)
}

/// The keys of `keys` file `at` gives the start, in `keys`' order.
pub open spec fn taken_keys<V>(files: Seq<HostFile<V>>, line: Set<Seq<char>>, at: int, keys: Seq<Seq<char>>) -> Seq<
    Seq<char>,
>
    decreases keys.len(),
{
    if keys.len() == 0 {
        Seq::empty()
    } else {
        let rest = taken_keys(files, line, at, keys.drop_last());
        if taken_from(files, line, at, keys.last()) {
            rest.push(keys.last())
        } else {
            rest
        }
    }
}

/// The notes of the files among the first `n` that give the start a key: each names its path
/// and the keys, ascending.
pub open spec fn taken_notes<V>(files: Seq<HostFile<V>>, line: Set<Seq<char>>, n: int) -> Seq<Seq<char>>
    decreases n,
{
    if n <= 0 {
        Seq::empty()
    } else {
        let rest = taken_notes(files, line, n - 1);
        let keys = taken_keys(files, line, n - 1, sorted_of(start_map(files).dom()));
        if keys.len() > 0 {
            rest.push("from "@ + files[n - 1].path@ + ": "@ + joined(keys, ", "@))
        } else {
            rest
        }
    }
}

/// Take the entry for `k` out of `t`, when there is one.
fn drop_key<V>(t: &mut Vec<(String, Entry<V>)>, k: &str)
    requires
        unique_keys(old(t)@),
    ensures
        unique_keys(final(t)@),
        table_map(final(t)@) == table_map(old(t)@).remove(k@),
{
    proof {
        lemma_keyed_dom(t@);
    }
    match find_key(t, k) {
        Some(j) => {
            proof {
                lemma_keyed_remove(t@, j as int);
            }
            t.remove(j);
            assert(table_map(t@) =~= table_map(old(t)@).remove(k@));
        },
        None => {
            assert(table_map(t@) =~= table_map(old(t)@).remove(k@));
        },
    }
}

/// The run keys `files` set, layered in their order, the later winning, and a note per file
/// naming what the start takes from it, so nothing is inherited without a word. What `line`
/// sets is the line's, not a file's. `[freq]` and `[profiles]` are the host's and stay there.
#[verifier::rlimit(40)]
pub fn host_start<V>(files: Vec<HostFile<V>>, line: &Vec<String>) -> (r: (Vec<(String, Entry<V>)>, Vec<String>))
    requires
        forall|i: int| 0 <= i < files.len() ==> unique_keys((#[trigger] files@[i]).table@),
    ensures
        unique_keys(r.0@),
        table_map(r.0@) == start_map(files@),
        r.1.deep_view() == taken_notes(files@, line.deep_view().to_set(), files.len() as int),
{
    let ghost fs = files@;
    let ghost lset = line.deep_view().to_set();
    let n = files.len();
    let mut files = files;
    let mut paths: Vec<String> = Vec::new();
    let mut key_lists: Vec<Vec<String>> = Vec::new();
    let mut start: Vec<(String, Entry<V>)> = Vec::new();
    let mut i: usize = 0;
    assert(table_map(start@) =~= start_map(fs.take(0)));
    while files.len() > 0
        invariant
            i <= n == fs.len(),
            files@ == fs.skip(i as int),
            forall|a: int| 0 <= a < fs.len() ==> unique_keys((#[trigger] fs[a]).table@),
            unique_keys(start@),
            table_map(start@) == start_map(fs.take(i as int)),
            paths.len() == i,
            key_lists.len() == i,
            forall|a: int| 0 <= a < i ==> (#[trigger] paths@[a])@ == fs[a].path@,
            forall|a: int| 0 <= a < i ==> (#[trigger] key_lists@[a]).deep_view().to_set() == run_map(fs[a]).dom(),
        decreases files.len(),
    {
        assert(fs.skip(i as int)[0] == fs[i as int]);
        let f = files.remove(0);
        assert(files@ =~= fs.skip(i + 1));
        let HostFile { path, table, pin_freq_no } = f;
        let mut t = table;
        drop_key(&mut t, "freq");
        drop_key(&mut t, "profiles");
        if pin_freq_no {
            drop_key(&mut t, "pin_freq");
        }
        assert(table_map(t@) =~= run_map(fs[i as int]));
        let keys = key_list(&t);
        proof {
            lemma_keyed_dom(t@);
        }
        assert(keys.deep_view().to_set() == run_map(fs[i as int]).dom());
        paths.push(path);
        key_lists.push(keys);
        let ghost before = start@;
        start = merged(start, t);
        assert(fs.take(i + 1).drop_last() =~= fs.take(i as int));
        assert(fs.take(i + 1).last() == fs[i as int]);
        i = i + 1;
    }
    assert(fs.take(n as int) =~= fs);
    // The start's keys, ascending.
    let all = key_list(&start);
    let mut sorted: Vec<String> = Vec::new();
    let mut j: usize = 0;
    proof {
        lemma_keyed_dom(start@);
    }
    assert(sorted.deep_view().to_set() =~= Set::<Seq<char>>::empty());
    while j < all.len()
        invariant
            j <= all.len(),
            strictly_sorted(sorted.deep_view()),
            sorted.deep_view().to_set() == all.deep_view().take(j as int).to_set(),
        decreases all.len() - j,
    {
        insert_text(&mut sorted, all[j].clone());
        assert(all.deep_view().take(j + 1) =~= all.deep_view().take(j as int).push(all.deep_view()[j as int]));
        proof {
            all.deep_view().take(j as int).lemma_push_to_set_commute(all.deep_view()[j as int]);
        }
        j = j + 1;
    }
    assert(all.deep_view().take(all.len() as int) =~= all.deep_view());
    assert(table_map(start@).dom() =~= keyed(start@).dom());
    assert(sorted.deep_view().to_set() == start_map(fs).dom());
    proof {
        lemma_sorted_of(sorted.deep_view(), start_map(fs).dom());
    }
    let ghost ks = sorted.deep_view();
    let mut notes: Vec<String> = Vec::new();
    let mut at: usize = 0;
    while at < n
        invariant
            at <= n == fs.len() == paths.len() == key_lists.len(),
            ks == sorted.deep_view(),
            ks == sorted_of(start_map(fs).dom()),
            forall|a: int| 0 <= a < n ==> (#[trigger] paths@[a])@ == fs[a].path@,
            forall|a: int| 0 <= a < n ==> (#[trigger] key_lists@[a]).deep_view().to_set() == run_map(fs[a]).dom(),
            lset == line.deep_view().to_set(),
            notes.deep_view() == taken_notes(fs, lset, at as int),
        decreases n - at,
    {
        let mut taken: Vec<String> = Vec::new();
        let mut q: usize = 0;
        while q < sorted.len()
            invariant
                at < n == fs.len() == key_lists.len(),
                q <= sorted.len(),
                ks == sorted.deep_view(),
                forall|a: int| 0 <= a < n ==> (#[trigger] key_lists@[a]).deep_view().to_set() == run_map(fs[a]).dom(),
                lset == line.deep_view().to_set(),
                taken.deep_view() == taken_keys(fs, lset, at as int, ks.take(q as int)),
            decreases sorted.len() - q,
        {
            let k = &sorted[q];
            assert(ks[q as int] == k@);
            let here = contains_string(&key_lists[at], k);
            let mut later = false;
            let mut b: usize = at + 1;
            while b < n
                invariant
                    at < b <= n == fs.len() == key_lists.len(),
                    forall|a: int| 0 <= a < n ==> (#[trigger] key_lists@[a]).deep_view().to_set() == run_map(fs[a]).dom(),
                    later == exists|c: int| at < c < b && (#[trigger] run_map(fs[c])).contains_key(k@),
                decreases n - b,
            {
                if contains_string(&key_lists[b], k) {
                    later = true;
                }
                proof {
                    assert(key_lists@[b as int].deep_view().to_set().contains(k@) == key_lists@[b as int].deep_view().contains(k@));
                }
                b = b + 1;
            }
            let free = str_eq(k.as_str(), "tags") || !contains_string(line, k);
            let cleared = is_cleared(k.as_str(), line);
            proof {
                assert(key_lists@[at as int].deep_view().to_set().contains(k@) == key_lists@[at as int].deep_view().contains(k@));
                assert(lset.contains(k@) == line.deep_view().contains(k@));
                reveal_strlit("tags");
                assert(ks.take(q + 1).drop_last() =~= ks.take(q as int));
                assert(ks.take(q + 1).last() == k@);
            }
            if here && !later && free && !cleared {
                taken.push(k.clone());
            }
            assert(taken.deep_view() =~= taken_keys(fs, lset, at as int, ks.take(q + 1)));
            q = q + 1;
        }
        assert(ks.take(sorted.len() as int) =~= ks);
        if taken.len() > 0 {
            let mut note = string_of("from ");
            push_str(&mut note, paths[at].as_str());
            push_str(&mut note, ": ");
            let list = join(&taken, ", ");
            push_str(&mut note, list.as_str());
            notes.push(note);
        }
        assert(notes.deep_view() =~= taken_notes(fs, lset, at + 1));
        at = at + 1;
    }
    (start, notes)
}

/// What the template is filled with: `old`'s values with `line`'s over them, the line's alone
/// when there is no file, and nothing when neither sets anything.
pub open spec fn spec_filled<V>(old: Option<Seq<(String, Entry<V>)>>, line: Seq<(String, Entry<V>)>) -> Option<
    Map<Seq<char>, Shape<V>>,
> {
    match old {
        None => if line.len() == 0 {
            None
        } else {
            Some(table_map(line))
        },
        Some(o) => Some(merged_map(table_map(o), table_map(line))),
    }
}

/// The values the template is filled with: `old`'s with `line`'s over them, the line's alone
/// when there is no file, and none when neither sets anything.
pub fn filled_values<V>(old: Option<Vec<(String, Entry<V>)>>, line: Vec<(String, Entry<V>)>) -> (r: Option<
    Vec<(String, Entry<V>)>,
>)
    requires
        match old {
            Some(o) => unique_keys(o@),
            None => true,
        },
        unique_keys(line@),
    ensures
        match r {
            Some(t) => unique_keys(t@) && spec_filled(
                match old {
                    Some(o) => Some(o@),
                    None => None,
                },
                line@,
            ) == Some(table_map(t@)),
            None => spec_filled(
                match old {
                    Some(o) => Some(o@),
                    None => None,
                },
                line@,
            ) is None,
        },
{
    match old {
        None => if line.len() == 0 {
            None
        } else {
            Some(line)
        },
        Some(o) => Some(merged(o, line)),
    }
}

/// The run as a config file spells it, what a record carries: the run keys `files` set,
/// layered as [`host_start`] layers them, and `line`'s over them.
pub fn run_table<V>(files: Vec<HostFile<V>>, line: Vec<(String, Entry<V>)>) -> (r: Vec<(String, Entry<V>)>)
    requires
        forall|i: int| 0 <= i < files.len() ==> unique_keys((#[trigger] files@[i]).table@),
        unique_keys(line@),
    ensures
        unique_keys(r@),
        table_map(r@) == merged_map(start_map(files@), table_map(line@)),
{
    let keys = key_list(&line);
    let (start, _) = host_start(files, &keys);
    merged(start, line)
}

/// A key the layered files set was set by one of them.
pub proof fn lemma_start_key_from_a_file<V>(files: Seq<HostFile<V>>, k: Seq<char>)
    requires
        start_map(files).contains_key(k),
    ensures
        exists|a: int| 0 <= a < files.len() && (#[trigger] run_map(files[a])).contains_key(k),
    decreases files.len(),
{
    let p = files.drop_last();
    if !run_map(files.last()).contains_key(k) {
        lemma_start_key_from_a_file(p, k);
        let a = choose|a: int| 0 <= a < p.len() && (#[trigger] run_map(p[a])).contains_key(k);
        assert(files[a] == p[a]);
    } else {
        assert(files[files.len() - 1] == files.last());
    }
}

/// Nothing the start takes from the host's files comes without a word: each of its keys that
/// the line neither sets nor clears is named by exactly one file's note, the last file that sets
/// it.
pub proof fn start_keys_are_named_once<V>(files: Seq<HostFile<V>>, line: Set<Seq<char>>, k: Seq<char>)
    requires
        start_map(files).contains_key(k),
        k == "tags"@ || !line.contains(k),
        !cleared_by(k, line),
    ensures
        exists|at: int| 0 <= at < files.len() && taken_from(files, line, at, k),
        forall|a: int, b: int|
            0 <= a < files.len() && 0 <= b < files.len() && taken_from(files, line, a, k) && taken_from(
                files,
                line,
                b,
                k,
            ) ==> a == b,
{
    lemma_start_key_from_a_file(files, k);
    let a0 = choose|a: int| 0 <= a < files.len() && (#[trigger] run_map(files[a])).contains_key(k);
    // The last file that sets `k`.
    let last = choose|m: int|
        a0 <= m < files.len() && run_map(files[m]).contains_key(k) && forall|b: int|
            m < b < files.len() ==> !(#[trigger] run_map(files[b])).contains_key(k);
    assert(exists|m: int|
        a0 <= m < files.len() && run_map(files[m]).contains_key(k) && forall|b: int|
            m < b < files.len() ==> !(#[trigger] run_map(files[b])).contains_key(k)) by {
        lemma_last_setter(files, k, a0, files.len() as int);
    }
    assert(taken_from(files, line, last, k));
}

/// Among files `a0..n`, where `a0` sets `k`, there is a last one that sets it.
proof fn lemma_last_setter<V>(files: Seq<HostFile<V>>, k: Seq<char>, a0: int, n: int)
    requires
        0 <= a0 < n <= files.len(),
        run_map(files[a0]).contains_key(k),
    ensures
        exists|m: int|
            a0 <= m < n && run_map(files[m]).contains_key(k) && forall|b: int|
                m < b < n ==> !(#[trigger] run_map(files[b])).contains_key(k),
    decreases n - a0,
{
    if n - 1 == a0 {
        assert(forall|b: int| a0 < b < n ==> !(#[trigger] run_map(files[b])).contains_key(k));
    } else if run_map(files[n - 1]).contains_key(k) {
        assert(forall|b: int| n - 1 < b < n ==> !(#[trigger] run_map(files[b])).contains_key(k));
    } else {
        lemma_last_setter(files, k, a0, n - 1);
        let m = choose|m: int|
            a0 <= m < n - 1 && run_map(files[m]).contains_key(k) && forall|b: int|
                m < b < n - 1 ==> !(#[trigger] run_map(files[b])).contains_key(k);
        assert(forall|b: int| m < b < n ==> !(#[trigger] run_map(files[b])).contains_key(k));
    }
}

/// A choice is made once: when neither the file nor the line sets both `duration` and
/// `total_duration`, or both `record_dir` and `record_file`, neither does the merge.
pub proof fn merged_keeps_one_side_of_a_choice<V>(
    old: Map<Seq<char>, Shape<V>>,
    line: Map<Seq<char>, Shape<V>>,
    k: Seq<char>,
)
    requires
        partner(k) is Some,
        !(old.contains_key(k) && old.contains_key(partner(k).unwrap())),
        !(line.contains_key(k) && line.contains_key(partner(k).unwrap())),
    ensures
        !(merged_map(old, line).contains_key(k) && merged_map(old, line).contains_key(partner(k).unwrap())),
{
    let p = partner(k).unwrap();
    reveal_strlit("duration");
    reveal_strlit("total_duration");
    reveal_strlit("record_dir");
    reveal_strlit("record_file");
    assert("duration"@.len() == 8 && "total_duration"@.len() == 14);
    assert("record_dir"@.len() == 10 && "record_file"@.len() == 11);
    assert("record_dir"@[7] != "record_file"@[7]);
    assert("duration"@ != "record_dir"@ && "duration"@ != "record_file"@);
    assert("total_duration"@ != "record_dir"@ && "total_duration"@ != "record_file"@);
    assert("record_dir"@ != "record_file"@);
    assert(partner(p) == Some(k));
}

/// Setting a line's keys over a file twice is setting them once: `update-config` run again with
/// the same line leaves the file's values as the first run wrote them.
pub proof fn merging_a_line_twice_is_merging_it_once<V>(
    old: Map<Seq<char>, Shape<V>>,
    line: Map<Seq<char>, Shape<V>>,
)
    ensures
        merged_map(merged_map(old, line), line) == merged_map(old, line),
{
    let m = merged_map(old, line);
    let m2 = merged_map(m, line);
    assert forall|k: Seq<char>| #[trigger] m2.contains_key(k) <==> m.contains_key(k) by {}
    assert forall|k: Seq<char>| #[trigger] m2.contains_key(k) implies m2[k] == m[k] by {
        if line.contains_key(k) {
            if m.contains_key(k) && !cleared_by(k, line.dom()) {
                match (m[k], line[k]) {
                    (Shape::Table(a), Shape::Table(b)) => {
                        assert(a.union_prefer_right(b) =~= a) by {
                            if old.contains_key(k) && !cleared_by(k, line.dom()) && old[k] is Table {
                                let c = old[k]->Table_0;
                                assert(a == c.union_prefer_right(b));
                            } else {
                                assert(a == b);
                            }
                        }
                    },
                    _ => {},
                }
            }
        }
    }
    assert(m2 =~= m);
}
} // verus!
