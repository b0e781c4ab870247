//! `analyze`: whether a claim held, read back from records across invocations. What is decided
//! from text lives here: the `--compare` sides, the hint for records given where the sides
//! belong, the plan of comparisons, how the invocations group, how two sides pair, the run
//! parameters they ran differently, and the label table's layout. The statistics themselves,
//! in floating point, are the caller's.

use vstd::prelude::*;
use vstd::utf8::encode_utf8;
use crate::text::{
    chars_of, find_char, find_char_in, joined, push_char, push_str, string_from_chars, string_of,
    trim_bounds, trimmed, join, str_eq, decimal, push_decimal, less_text, text_lt,
    lemma_text_lt_irreflexive, lemma_text_lt_transitive, lemma_text_lt_total, strictly_sorted,
    sorted_of, lemma_sorted_of, lemma_sorted_unique, insert_text, texts_eq,
};

verus! {

/// The values of one key that are the sides of `--compare`: `KEY=A,B` names them, and `KEY`
/// alone takes every value the records hold.
#[derive(Debug, Clone, PartialEq, Eq)]
pub struct Sides {
    /// The key the sides differ in.
    pub key: String,
    /// Its values, the first side first, empty for every value the records hold.
    pub values: Vec<String>,
}

/// `find_char` never moves backwards and stays within the text.
pub proof fn lemma_find_char_bounds(s: Seq<char>, i: int, c: char)
    requires
        0 <= i <= s.len(),
    ensures
        i <= find_char(s, i, c) <= s.len(),
        find_char(s, i, c) < s.len() ==> s[find_char(s, i, c)] == c,
        forall|k: int| i <= k < find_char(s, i, c) ==> s[k] != c,
    decreases s.len() - i,
{
    if i < s.len() && s[i] != c {
        lemma_find_char_bounds(s, i + 1, c);
    }
}

/// The comma-separated values of `s` from index `i`, each trimmed, the empty ones dropped.
pub open spec fn values_from(s: Seq<char>, i: int) -> Seq<Seq<char>>
    decreases s.len() + 1 - i,
    via values_from_decreases
{
    if i < 0 || i > s.len() {
        Seq::empty()
    } else {
        let e = find_char(s, i, ',');
        let t = trimmed(s.subrange(i, e));
        let rest = if e < s.len() {
            values_from(s, e + 1)
        } else {
            Seq::empty()
        };
        if t.len() > 0 {
            seq![t] + rest
        } else {
            rest
        }
    }
}

/// Each value read moves the split forward.
#[via_fn]
proof fn values_from_decreases(s: Seq<char>, i: int) {
    if 0 <= i <= s.len() {
        lemma_find_char_bounds(s, i, ',');
    }
}

/// The refusal of a `--compare` value that is not `KEY` or `KEY=A,B`.
pub open spec fn bad_sides(spec: Seq<char>) -> Seq<char> {
    "'"@ + spec + "' is not KEY or KEY=A,B, as in condition=sleep,nosleep"@
}

/// What [`Sides::parse`] decides: the key before the first `=`, trimmed, and the values after
/// it; refused when the key is empty, when there is exactly one value, or when an `=` is
/// followed by none.
pub open spec fn spec_sides(spec: Seq<char>) -> Result<(Seq<char>, Seq<Seq<char>>), Seq<char>> {
    let k = find_char(spec, 0, '=');
    let has_eq = k < spec.len();
    let key = trimmed(spec.subrange(0, k));
    let values = if has_eq {
        values_from(spec, k + 1)
    } else {
        Seq::empty()
    };
    if key.len() == 0 || values.len() == 1 || (has_eq && values.len() == 0) {
        Err(bad_sides(spec))
    } else {
        Ok((key, values))
    }
}

impl Sides {
    /// Parse `KEY`, or `KEY=A,B[,C...]`.
    pub fn parse(spec: &str) -> (r: Result<Sides, String>)
        ensures
            match r {
                Ok(s) => spec_sides(spec@) == Ok::<(Seq<char>, Seq<Seq<char>>), Seq<char>>(
                    (s.key@, s.values.deep_view()),
                ),
                Err(e) => spec_sides(spec@) == Err::<(Seq<char>, Seq<Seq<char>>), Seq<char>>(e@),
            },
    {
        let v = chars_of(spec);
        let n = v.len();
        let k = find_char_in(&v, 0, n, '=');
        assert(v@.subrange(0, n as int) =~= spec@);
        assert(k == find_char(spec@, 0, '='));
        let has_eq = k < n;
        let (ka, kb) = trim_bounds(&v, 0, k);
        assert(v@.subrange(0, k as int) =~= spec@.subrange(0, k as int));
        let mut values: Vec<String> = Vec::new();
        if has_eq {
            let mut i = k + 1;
            proof {
                lemma_find_char_bounds(spec@, 0, '=');
            }
            loop
                invariant_except_break
                    k + 1 <= i <= n,
                    values_from(spec@, (k + 1) as int) == values.deep_view() + values_from(
                        spec@,
                        i as int,
                    ),
                invariant
                    k < n == v.len(),
                    v@ == spec@,
                ensures
                    values_from(spec@, (k + 1) as int) == values.deep_view(),
                decreases n + 1 - i,
            {
                let e = find_char_in(&v, i, n, ',');
                proof {
                    lemma_find_char_bounds(spec@, i as int, ',');
                    assert(v@.subrange(i as int, n as int) =~= spec@.subrange(i as int, n as int));
                    lemma_find_char_shift(spec@, i as int, 0);
                    assert(v@.subrange(i as int, e as int) =~= spec@.subrange(i as int, e as int));
                }
                let (a, b) = trim_bounds(&v, i, e);
                let ghost t = trimmed(spec@.subrange(i as int, e as int));
                let ghost before = values.deep_view();
                let ghost here: Seq<Seq<char>> = if t.len() > 0 {
                    seq![t]
                } else {
                    Seq::empty()
                };
                if a < b {
                    values.push(string_from_chars(&v, a, b));
                    assert(values.deep_view() =~= before + here);
                } else {
                    assert(values.deep_view() =~= before + here);
                }
                if e >= n {
                    assert(values_from(spec@, i as int) == here + Seq::<Seq<char>>::empty());
                    assert(values_from(spec@, (k + 1) as int) =~= values.deep_view());
                    break;
                }
                assert(values_from(spec@, i as int) == here + values_from(spec@, (e + 1) as int));
                assert(before + (here + values_from(spec@, (e + 1) as int)) =~= values.deep_view()
                    + values_from(spec@, (e + 1) as int));
                i = e + 1;
            }
        }
        if ka == kb || values.len() == 1 || (has_eq && values.len() == 0) {
            let mut e = string_of("'");
            push_str(&mut e, spec);
            push_str(&mut e, "' is not KEY or KEY=A,B, as in condition=sleep,nosleep");
            return Err(e);
        }
        let key = string_from_chars(&v, ka, kb);
        assert(key@ == trimmed(spec@.subrange(0, k as int)));
        assert(has_eq ==> values.deep_view() == values_from(spec@, (k + 1) as int));
        assert(!has_eq ==> values.deep_view() =~= Seq::<Seq<char>>::empty());
        Ok(Sides { key, values })
    }
}

/// Searching a suffix is searching the whole from the suffix's start.
pub proof fn lemma_find_char_shift(s: Seq<char>, at: int, i: int)
    requires
        0 <= at <= s.len(),
        0 <= i <= s.len() - at,
    ensures
        find_char(s.subrange(at, s.len() as int), i, ',') + at == find_char(s, at + i, ','),
    decreases s.len() - at - i,
{
    if i < s.len() - at {
        assert(s.subrange(at, s.len() as int)[i] == s[at + i]);
        lemma_find_char_shift(s, at, i + 1);
    }
}

/// The command's name as a command line spells it.
pub open spec fn bin_name() -> Seq<char> {
    "iiac-perf"@
}

/// What [`compare_hint`] says of records given where the sides belong: the line with the path
/// in place, and the benches the records hold when any.
pub open spec fn hint_text(spec: Seq<char>, benches: Seq<Seq<char>>) -> Seq<char> {
    "'"@ + spec + "' is records, and --compare takes the sides: name the records first, as in\n  "@
        + bin_name() + " analyze "@ + spec
        + " --compare\nwhich compares every bench, or --compare bench=A,B for two of them"@ + if benches.len()
        > 0 {
        "\nIts benches: "@ + joined(benches, ", "@)
    } else {
        Seq::empty()
    }
}

/// What to say when `--compare`'s value is not `KEY=A,B` but a path, the records given where the
/// sides belong: the shape with that path in its place, and the benches it holds, so the line
/// can be copied. `None` when `spec` holds an `=` or names nothing on disk. `on_disk` says
/// whether the path exists; `benches` are the distinct benches its records hold, in order.
pub fn compare_hint(spec: &str, on_disk: bool, benches: &Vec<String>) -> (r: Option<String>)
    ensures
        (find_char(spec@, 0, '=') < spec@.len() || !on_disk) ==> r is None,
        !(find_char(spec@, 0, '=') < spec@.len() || !on_disk) ==> (r matches Some(h) && h@
            == hint_text(spec@, benches.deep_view())),
{
    let v = chars_of(spec);
    let k = find_char_in(&v, 0, v.len(), '=');
    assert(v@.subrange(0, v@.len() as int) =~= spec@);
    if k < v.len() || !on_disk {
        return None;
    }
    let mut hint = string_of("'");
    push_str(&mut hint, spec);
    push_str(
        &mut hint,
        "' is records, and --compare takes the sides: name the records first, as in\n  ",
    );
    push_str(&mut hint, "iiac-perf");
    push_str(&mut hint, " analyze ");
    push_str(&mut hint, spec);
    push_str(
        &mut hint,
        " --compare\nwhich compares every bench, or --compare bench=A,B for two of them",
    );
    if benches.len() > 0 {
        push_str(&mut hint, "\nIts benches: ");
        let j = join(benches, ", ");
        push_str(&mut hint, j.as_str());
    }
    assert(hint@ =~= hint_text(spec@, benches.deep_view()));
    Some(hint)
}

/// Whether `t` stands in `s` as a run of its characters.
pub open spec fn holds_run(s: Seq<char>, t: Seq<char>) -> bool {
    exists|i: int| 0 <= i && i + t.len() <= s.len() && #[trigger] s.subrange(i, i + t.len()) == t
}

/// A run of the middle of `a + m + b`, or of `m` itself, is a run of the whole.
proof fn lemma_run_within(a: Seq<char>, m: Seq<char>, b: Seq<char>, t: Seq<char>)
    requires
        holds_run(m, t),
    ensures
        holds_run(a + m + b, t),
{
    let i = choose|i: int| 0 <= i && i + t.len() <= m.len() && #[trigger] m.subrange(i, i + t.len()) == t;
    let w: int = a.len() + i;
    assert((a + m + b).subrange(w, w + t.len()) =~= t);
}

/// Every part of a joined list is a run of it.
proof fn lemma_joined_holds(parts: Seq<Seq<char>>, sep: Seq<char>, k: int)
    requires
        0 <= k < parts.len(),
    ensures
        holds_run(joined(parts, sep), parts[k]),
    decreases parts.len(),
{
    if parts.len() == 1 {
        let w: int = 0;
        assert(joined(parts, sep).subrange(w, w + parts[k].len()) =~= parts[k]);
    } else if k == parts.len() - 1 {
        let head = joined(parts.drop_last(), sep) + sep;
        let w: int = head.len() as int;
        assert(joined(parts, sep).subrange(w, w + parts[k].len()) =~= parts[k]);
    } else {
        lemma_joined_holds(parts.drop_last(), sep, k);
        assert(parts.drop_last()[k] == parts[k]);
        lemma_run_within(Seq::empty(), joined(parts.drop_last(), sep), sep + parts.last(), parts[k]);
        assert(Seq::<char>::empty() + joined(parts.drop_last(), sep) + (sep + parts.last()) =~= joined(
            parts,
            sep,
        ));
    }
}

/// `find_char` from `i` stops before the end exactly when `c` is there.
proof fn lemma_find_char_found(s: Seq<char>, i: int, c: char)
    requires
        0 <= i <= s.len(),
    ensures
        find_char(s, i, c) < s.len() <==> exists|k: int| i <= k < s.len() && s[k] == c,
    decreases s.len() - i,
{
    if i < s.len() && s[i] != c {
        lemma_find_char_found(s, i + 1, c);
    }
}

/// Records given where the sides belong get the line to run: the hint holds `analyze`, the
/// path and `--compare` as one line to copy, and every bench the records hold; it is given
/// exactly when the value holds no `=` (and names something on disk).
pub proof fn records_get_the_line_to_run(spec: Seq<char>, benches: Seq<Seq<char>>)
    ensures
        find_char(spec, 0, '=') < spec.len() <==> spec.contains('='),
        holds_run(hint_text(spec, benches), bin_name() + " analyze "@ + spec + " --compare\n"@),
        forall|k: int| 0 <= k < benches.len() ==> holds_run(hint_text(spec, benches), #[trigger] benches[k]),
{
    lemma_find_char_found(spec, 0, '=');
    reveal_strlit(" --compare\nwhich compares every bench, or --compare bench=A,B for two of them");
    reveal_strlit(" --compare\n");
    reveal_strlit("which compares every bench, or --compare bench=A,B for two of them");
    let pre = "'"@ + spec + "' is records, and --compare takes the sides: name the records first, as in\n  "@;
    let line = bin_name() + " analyze "@ + spec + " --compare\n"@;
    let after = "which compares every bench, or --compare bench=A,B for two of them"@;
    let tail = if benches.len() > 0 {
        "\nIts benches: "@ + joined(benches, ", "@)
    } else {
        Seq::empty()
    };
    assert(hint_text(spec, benches) =~= pre + line + (after + tail));
    assert(holds_run(line, line)) by {
        let w: int = 0;
        assert(line.subrange(w, w + line.len()) =~= line);
    }
    lemma_run_within(pre, line, after + tail, line);
    assert forall|k: int| 0 <= k < benches.len() implies holds_run(
        hint_text(spec, benches),
        #[trigger] benches[k],
    ) by {
        lemma_joined_holds(benches, ", "@, k);
        let front = pre + line + after + "\nIts benches: "@;
        lemma_run_within(front, joined(benches, ", "@), Seq::empty(), benches[k]);
        assert(front + joined(benches, ", "@) + Seq::<char>::empty() =~= hint_text(spec, benches));
    }
}

/// The letters sides are named by when their values are too long to repeat, `A` on.
pub open spec fn letters() -> Seq<char> {
    "ABCDEFGHIJKLMNOPQRSTUVWXYZ"@
}

/// A side value too long to repeat on every row, as a file name is: over 24 bytes.
pub open spec fn too_long(v: Seq<char>) -> bool {
    byte_len(v) > 24
}

/// The names the sides go by in a comparison's rows: their values, or, when any is too long to
/// repeat, a letter each, `A` on, the letters starting over after `Z`.
pub open spec fn side_names_of(values: Seq<Seq<char>>) -> Seq<Seq<char>> {
    if exists|i: int| 0 <= i < values.len() && too_long(#[trigger] values[i]) {
        Seq::new(values.len(), |i: int| seq![letters()[i % 26]])
    } else {
        values
    }
}

/// The legend that gives each lettered side's value: `A = condition some/long/file.jsonl`, a
/// line each, then a blank line; nothing when the sides go by their values.
pub open spec fn legend_lines(key: Seq<char>, values: Seq<Seq<char>>, n: int) -> Seq<char>
    decreases n,
{
    if n <= 0 {
        Seq::empty()
    } else {
        legend_lines(key, values, n - 1) + seq![letters()[(n - 1) % 26]] + " = "@ + key + " "@
            + values[n - 1] + "\n"@
    }
}

/// A comparison's legend of side names: a line for each lettered side and a blank line, when
/// the sides are lettered.
pub open spec fn legend_text(key: Seq<char>, values: Seq<Seq<char>>) -> Seq<char> {
    if exists|i: int| 0 <= i < values.len() && too_long(#[trigger] values[i]) {
        legend_lines(key, values, values.len() as int) + "\n"@
    } else {
        Seq::empty()
    }
}

/// The letter of side `i`.
fn side_letter(i: usize) -> (r: String)
    ensures
        r@ == seq![letters()[(i % 26) as int]],
{
    let abc = "ABCDEFGHIJKLMNOPQRSTUVWXYZ";
    proof {
        reveal_strlit("ABCDEFGHIJKLMNOPQRSTUVWXYZ");
    }
    let mut r = String::new();
    push_char(&mut r, abc.get_char(i % 26));
    r
}

/// Whether any side value is too long to repeat on every row.
fn any_too_long(values: &Vec<String>) -> (r: bool)
    requires
        forall|i: int| 0 <= i < values.len() ==> byte_len((#[trigger] values@[i])@) <= usize::MAX,
    ensures
        r == exists|i: int| 0 <= i < values.len() && too_long(#[trigger] values.deep_view()[i]),
{
    let mut i: usize = 0;
    while i < values.len()
        invariant
            i <= values.len(),
            forall|j: int| 0 <= j < values.len() ==> byte_len((#[trigger] values@[j])@) <= usize::MAX,
            forall|j: int| 0 <= j < i ==> !too_long(#[trigger] values.deep_view()[j]),
        decreases values.len() - i,
    {
        let b = values[i].as_str().len();
        assert(b == byte_len(values@[i as int]@));
        assert(values.deep_view()[i as int] == values@[i as int]@);
        if b > 24 {
            assert(too_long(values.deep_view()[i as int]));
            return true;
        }
        assert(!too_long(values.deep_view()[i as int]));
        i = i + 1;
    }
    false
}

/// The names the sides go by in a comparison's rows, and the legend that gives each lettered
/// side's value under `key`: the values themselves and no legend, or, when a value is over 24
/// bytes, as a file name is, a letter each and a legend line per side.
pub fn side_names(key: &str, values: &Vec<String>) -> (r: (Vec<String>, String))
    requires
        forall|i: int| 0 <= i < values.len() ==> byte_len((#[trigger] values@[i])@) <= usize::MAX,
    ensures
        r.0.deep_view() == side_names_of(values.deep_view()),
        r.1@ == legend_text(key@, values.deep_view()),
{
    let ghost vs = values.deep_view();
    if !any_too_long(values) {
        let mut names: Vec<String> = Vec::new();
        let mut i: usize = 0;
        while i < values.len()
            invariant
                i <= values.len(),
                vs == values.deep_view(),
                names.deep_view() == vs.take(i as int),
            decreases values.len() - i,
        {
            let c = values[i].clone();
            assert(c@ == vs[i as int]);
            let ghost before = names.deep_view();
            names.push(c);
            assert(names.deep_view() =~= before.push(c@));
            assert(vs.take(i + 1) =~= vs.take(i as int).push(vs[i as int]));
            i = i + 1;
        }
        assert(vs.take(values.len() as int) =~= vs);
        return (names, String::new());
    }
    let mut names: Vec<String> = Vec::new();
    let mut legend = String::new();
    let mut i: usize = 0;
    while i < values.len()
        invariant
            i <= values.len(),
            vs == values.deep_view(),
            names.deep_view() =~= Seq::new(i as nat, |j: int| seq![letters()[j % 26]]),
            legend@ == legend_lines(key@, vs, i as int),
        decreases values.len() - i,
    {
        let l = side_letter(i);
        push_str(&mut legend, l.as_str());
        push_str(&mut legend, " = ");
        push_str(&mut legend, key);
        push_str(&mut legend, " ");
        push_str(&mut legend, values[i].as_str());
        push_str(&mut legend, "\n");
        let ghost before = names.deep_view();
        let ghost lv = l@;
        names.push(l);
        assert(names.deep_view() =~= before.push(lv));
        assert(vs[i as int] == values@[i as int]@);
        assert(legend@ =~= legend_lines(key@, vs, i + 1));
        i = i + 1;
    }
    push_str(&mut legend, "\n");
    (names, legend)
}

/// Notes and the comparisons they hold for, as text: (note, comparison).
pub open spec fn note_pairs(notes: Seq<(String, String)>) -> Seq<(Seq<char>, Seq<char>)> {
    notes.map_values(|p: (String, String)| (p.0@, p.1@))
}

/// The distinct notes, in the order they first come.
pub open spec fn first_notes(notes: Seq<(Seq<char>, Seq<char>)>) -> Seq<Seq<char>>
    decreases notes.len(),
{
    if notes.len() == 0 {
        Seq::empty()
    } else {
        let f = first_notes(notes.drop_last());
        if f.contains(notes.last().0) {
            f
        } else {
            f.push(notes.last().0)
        }
    }
}

/// The comparisons note `t` holds for, in order.
pub open spec fn noted(notes: Seq<(Seq<char>, Seq<char>)>, t: Seq<char>) -> Seq<Seq<char>>
    decreases notes.len(),
{
    if notes.len() == 0 {
        Seq::empty()
    } else {
        noted(notes.drop_last(), t) + if notes.last().0 == t {
            seq![notes.last().1]
        } else {
            Seq::empty()
        }
    }
}

/// Whom a note names: its comparisons, or `every comparison` when it holds for all of several.
pub open spec fn noted_who(names: Seq<Seq<char>>, rows: nat) -> Seq<char> {
    if names.len() == rows && rows > 1 {
        "every comparison"@
    } else {
        joined(names, ", "@)
    }
}

/// A comparison table's notes, each once: whom it holds for, then the note.
pub open spec fn note_lines_of(notes: Seq<(Seq<char>, Seq<char>)>, rows: nat) -> Seq<Seq<char>> {
    first_notes(notes).map_values(|t: Seq<char>| noted_who(noted(notes, t), rows) + ": "@ + t)
}

/// The notes under a comparison table of `rows` comparisons, from (note, comparison) pairs: a
/// note that holds for several comparisons prints once, naming them, or `every comparison`
/// when it holds for all of several; the notes in the order they first come. Each line is
/// `WHO: NOTE`, for the caller to wrap.
pub fn note_lines(notes: &Vec<(String, String)>, rows: usize) -> (r: Vec<String>)
    ensures
        r.deep_view() == note_lines_of(note_pairs(notes@), rows as nat),
{
    let ghost ns = note_pairs(notes@);
    let mut groups: Vec<(String, Vec<String>)> = Vec::new();
    let mut i: usize = 0;
    while i < notes.len()
        invariant
            i <= notes.len(),
            ns == note_pairs(notes@),
            groups.len() == first_notes(ns.take(i as int)).len(),
            forall|j: int| 0 <= j < groups.len() ==> (#[trigger] groups@[j]).0@ == first_notes(
                ns.take(i as int),
            )[j] && groups@[j].1.deep_view() == noted(ns.take(i as int), groups@[j].0@),
            forall|a: int, b: int| 0 <= a < b < groups.len() ==> (#[trigger] groups@[a]).0@
                != (#[trigger] groups@[b]).0@,
            forall|t: Seq<char>|
                !first_notes(ns.take(i as int)).contains(t) ==> #[trigger] noted(ns.take(i as int), t)
                    == Seq::<Seq<char>>::empty(),
        decreases notes.len() - i,
    {
        let ghost pre = ns.take(i as int);
        let ghost post = ns.take(i + 1);
        assert(post.drop_last() =~= pre);
        assert(post.last() == ns[i as int]);
        assert(ns[i as int] == (notes@[i as int].0@, notes@[i as int].1@));
        let note = notes[i].0.as_str();
        let name = notes[i].1.clone();
        let mut j: usize = 0;
        while j < groups.len()
            invariant
                j <= groups.len(),
                forall|k: int| 0 <= k < j ==> (#[trigger] groups@[k]).0@ != note@,
            ensures
                j <= groups.len(),
                forall|k: int| 0 <= k < j ==> (#[trigger] groups@[k]).0@ != note@,
                j < groups.len() ==> groups@[j as int].0@ == note@,
            decreases groups.len() - j,
        {
            if str_eq(groups[j].0.as_str(), note) {
                break;
            }
            j = j + 1;
        }
        if j < groups.len() {
            let ghost old_groups = groups@;
            assert(groups@[j as int].0@ == note@);
            assert(first_notes(pre)[j as int] == note@);
            assert(first_notes(pre).contains(note@));
            assert(first_notes(post) == first_notes(pre));
            let mut g = groups.remove(j);
            let ghost gv = g.1.deep_view();
            g.1.push(name);
            assert(g.1.deep_view() =~= gv.push(notes@[i as int].1@));
            groups.insert(j, g);
            assert forall|k: int| 0 <= k < groups.len() implies (#[trigger] groups@[k]).0@
                == first_notes(post)[k] && groups@[k].1.deep_view() == noted(post, groups@[k].0@) by {
                if k != j {
                    assert(groups@[k] == old_groups[k]);
                    assert(old_groups[k].0@ != note@);
                }
            }
            assert forall|a: int, b: int| 0 <= a < b < groups.len() implies (#[trigger] groups@[a]).0@
                != (#[trigger] groups@[b]).0@ by {
                assert(groups@[a].0@ == old_groups[a].0@);
                assert(groups@[b].0@ == old_groups[b].0@);
            }
            assert forall|t: Seq<char>| !first_notes(post).contains(t) implies #[trigger] noted(post, t)
                == Seq::<Seq<char>>::empty() by {
                assert(t != note@);
                assert(noted(post, t) =~= noted(pre, t));
            }
        } else {
            assert(!first_notes(pre).contains(note@)) by {
                if first_notes(pre).contains(note@) {
                    let k = choose|k: int| 0 <= k < first_notes(pre).len() && first_notes(pre)[k] == note@;
                    assert(groups@[k].0@ == first_notes(pre)[k]);
                }
            }
            assert(first_notes(post) == first_notes(pre).push(note@));
            assert(noted(pre, note@) == Seq::<Seq<char>>::empty());
            let ghost old_groups = groups@;
            let mut names: Vec<String> = Vec::new();
            names.push(name);
            assert(names.deep_view() =~= noted(post, note@));
            groups.push((string_of(note), names));
            assert forall|k: int| 0 <= k < groups.len() implies (#[trigger] groups@[k]).0@
                == first_notes(post)[k] && groups@[k].1.deep_view() == noted(post, groups@[k].0@) by {
                if k < old_groups.len() {
                    assert(groups@[k] == old_groups[k]);
                    assert(old_groups[k].0@ != note@);
                    assert(noted(post, groups@[k].0@) =~= noted(pre, groups@[k].0@));
                }
            }
            assert forall|t: Seq<char>| !first_notes(post).contains(t) implies #[trigger] noted(post, t)
                == Seq::<Seq<char>>::empty() by {
                assert(t != note@) by {
                    assert(first_notes(post)[first_notes(pre).len() as int] == note@);
                }
                assert(!first_notes(pre).contains(t)) by {
                    if first_notes(pre).contains(t) {
                        let k = choose|k: int| 0 <= k < first_notes(pre).len() && first_notes(pre)[k] == t;
                        assert(first_notes(post)[k] == t);
                    }
                }
                assert(noted(post, t) =~= noted(pre, t));
            }
        }
        i = i + 1;
    }
    assert(ns.take(notes.len() as int) =~= ns);
    let ghost want = note_lines_of(ns, rows as nat);
    let mut lines: Vec<String> = Vec::new();
    let mut k: usize = 0;
    while k < groups.len()
        invariant
            k <= groups.len(),
            groups.len() == first_notes(ns).len(),
            want == note_lines_of(ns, rows as nat),
            forall|j: int| 0 <= j < groups.len() ==> (#[trigger] groups@[j]).0@ == first_notes(ns)[j]
                && groups@[j].1.deep_view() == noted(ns, groups@[j].0@),
            lines.deep_view() == want.take(k as int),
        decreases groups.len() - k,
    {
        let mut line = if groups[k].1.len() == rows && rows > 1 {
            string_of("every comparison")
        } else {
            join(&groups[k].1, ", ")
        };
        push_str(&mut line, ": ");
        push_str(&mut line, groups[k].0.as_str());
        let ghost before = lines.deep_view();
        let ghost lv = line@;
        lines.push(line);
        assert(lines.deep_view() =~= before.push(lv));
        assert(want[k as int] == lv);
        assert(want.take(k + 1) =~= want.take(k as int).push(want[k as int]));
        k = k + 1;
    }
    assert(want.take(groups.len() as int) =~= want);
    lines
}

/// Column labels for `dims`, the host left out when every invocation is one host's.
#[verifier::spinoff_prover]
pub fn shown(dims: &[String], hosts: bool) -> (r: Vec<usize>)
    ensures
        forall|k: int| 0 <= k < r.len() ==> #[trigger] r@[k] < dims.len() && (hosts || dims@[r@[k] as int]@
            != "host"@),
        forall|i: int, j: int| 0 <= i < j < r.len() ==> r@[i] < r@[j],
        forall|c: int|
            0 <= c < dims.len() && (hosts || dims@[c]@ != "host"@) ==> r@.contains(c as usize),
{
    let mut r: Vec<usize> = Vec::new();
    let mut i: usize = 0;
    while i < dims.len()
        invariant
            i <= dims.len(),
            forall|k: int| 0 <= k < r.len() ==> #[trigger] r@[k] < i && (hosts || dims@[r@[k] as int]@
                != "host"@),
            forall|a: int, b: int| 0 <= a < b < r.len() ==> r@[a] < r@[b],
            forall|c: int|
                0 <= c < i && (hosts || dims@[c]@ != "host"@) ==> #[trigger] r@.contains(c as usize),
        decreases dims.len() - i,
    {
        let keep = hosts || !str_eq(dims[i].as_str(), "host");
        assert(keep == (hosts || dims@[i as int]@ != "host"@));
        if !keep {
            assert forall|c: int| 0 <= c < i + 1 && (hosts || dims@[c]@ != "host"@) implies #[trigger] r@.contains(
                c as usize,
            ) by {
                assert(c != i);
            }
        }
        if keep {
            let ghost before = r@;
            r.push(i);
            assert forall|c: int| 0 <= c < i + 1 && (hosts || dims@[c]@ != "host"@) implies r@.contains(
                c as usize,
            ) by {
                if c < i {
                    assert(before.contains(c as usize));
                    let k = choose|k: int| 0 <= k < before.len() && before[k] == c as usize;
                    assert(r@[k] == c as usize);
                } else {
                    assert(r@[r.len() - 1] == c as usize);
                }
            }
        }
        assert(forall|c: int| 0 <= c < i + 1 && (hosts || dims@[c]@ != "host"@) ==> #[trigger] r@.contains(c as usize));
        i = i + 1;
    }
    r
}

/// A string's length in bytes, as `str::len` counts it.
pub open spec fn byte_len(s: Seq<char>) -> nat {
    encode_utf8(s).len()
}

/// The widest of a column's head and labels, plus two spaces.
pub open spec fn column_width(head: Seq<char>, labels: Seq<Seq<Seq<char>>>, c: int) -> nat
    decreases labels.len(),
{
    if labels.len() == 0 {
        byte_len(head) + 2
    } else {
        let w = column_width(head, labels.drop_last(), c);
        let l = byte_len(labels.last()[c]) + 2;
        if l > w {
            l
        } else {
            w
        }
    }
}

/// A left-aligned label table: the widths of `heads` and every row of `labels`, two spaces
/// apart.
pub fn widths(heads: &[String], labels: &[Vec<String>]) -> (r: Vec<usize>)
    requires
        forall|k: int| 0 <= k < labels.len() ==> (#[trigger] labels@[k]).len() >= heads.len(),
        forall|k: int, c: int|
            0 <= k < labels.len() && 0 <= c < heads.len() ==> byte_len(
                (#[trigger] labels@[k]@[c])@,
            ) + 2 <= usize::MAX,
        forall|c: int| 0 <= c < heads.len() ==> byte_len((#[trigger] heads@[c])@) + 2 <= usize::MAX,
    ensures
        r.len() == heads.len(),
        forall|c: int|
            0 <= c < heads.len() ==> #[trigger] r@[c] == column_width(
                heads@[c]@,
                labels@.map_values(|l: Vec<String>| l.deep_view()),
                c,
            ),
{
    let ghost rows = labels@.map_values(|l: Vec<String>| l.deep_view());
    let mut r: Vec<usize> = Vec::new();
    let mut c: usize = 0;
    while c < heads.len()
        invariant
            c <= heads.len(),
            rows == labels@.map_values(|l: Vec<String>| l.deep_view()),
            r.len() == c,
            forall|k: int| 0 <= k < labels.len() ==> (#[trigger] labels@[k]).len() >= heads.len(),
            forall|k: int, cc: int|
                0 <= k < labels.len() && 0 <= cc < heads.len() ==> byte_len(
                    (#[trigger] labels@[k]@[cc])@,
                ) + 2 <= usize::MAX,
            forall|cc: int| 0 <= cc < heads.len() ==> byte_len((#[trigger] heads@[cc])@) + 2 <= usize::MAX,
            forall|cc: int| 0 <= cc < c ==> #[trigger] r@[cc] == column_width(heads@[cc]@, rows, cc),
        decreases heads.len() - c,
    {
        let mut w = heads[c].as_str().len() + 2;
        let mut k: usize = 0;
        while k < labels.len()
            invariant
                c < heads.len(),
                k <= labels.len(),
                rows == labels@.map_values(|l: Vec<String>| l.deep_view()),
                forall|kk: int| 0 <= kk < labels.len() ==> (#[trigger] labels@[kk]).len() >= heads.len(),
                forall|kk: int, cc: int|
                    0 <= kk < labels.len() && 0 <= cc < heads.len() ==> byte_len(
                        (#[trigger] labels@[kk]@[cc])@,
                    ) + 2 <= usize::MAX,
                w == column_width(heads@[c as int]@, rows.take(k as int), c as int),
            decreases labels.len() - k,
        {
            let l = labels[k][c].as_str().len() + 2;
            assert(rows.take(k + 1).drop_last() =~= rows.take(k as int));
            assert(rows.take(k + 1).last()[c as int] == labels@[k as int]@[c as int]@);
            if l > w {
                w = l;
            }
            k = k + 1;
        }
        assert(rows.take(labels.len() as int) =~= rows);
        r.push(w);
        c = c + 1;
    }
    r
}

/// A run of `n` spaces.
pub open spec fn spaces(n: nat) -> Seq<char> {
    Seq::new(n, |i: int| ' ')
}

/// `v` left-aligned in a field of `w` characters.
pub open spec fn pad_to(v: Seq<char>, w: nat) -> Seq<char> {
    if v.len() < w {
        v + spaces((w - v.len()) as nat)
    } else {
        v
    }
}

/// The values padded to the widths, side by side, as many as both give.
pub open spec fn padded_text(values: Seq<Seq<char>>, widths: Seq<usize>) -> Seq<char>
    decreases values.len(),
{
    if values.len() == 0 || widths.len() == 0 {
        Seq::empty()
    } else if values.len() > widths.len() {
        padded_text(values.take(widths.len() as int), widths)
    } else {
        padded_text(values.drop_last(), widths) + pad_to(
            values.last(),
            widths[values.len() - 1] as nat,
        )
    }
}

/// `values` padded to `widths`.
pub fn padded(values: &[String], widths: &[usize]) -> (r: String)
    ensures
        r@ == padded_text(values@.map_values(|v: String| v@), widths@),
{
    let ghost vs = values@.map_values(|v: String| v@);
    let n = if values.len() < widths.len() {
        values.len()
    } else {
        widths.len()
    };
    let mut out = String::new();
    let mut i: usize = 0;
    while i < n
        invariant
            i <= n,
            n <= values.len(),
            n <= widths.len(),
            vs == values@.map_values(|v: String| v@),
            out@ == padded_text(vs.take(i as int), widths@),
        decreases n - i,
    {
        let len = values[i].as_str().unicode_len();
        push_str(&mut out, values[i].as_str());
        let mut k = len;
        let ghost base = out@;
        while k < widths[i]
            invariant
                i < n <= widths.len(),
                len <= k,
                k <= widths@[i as int] || k == len,
                out@ == base + spaces((k - len) as nat),
            decreases widths@[i as int] - k,
        {
            push_char(&mut out, ' ');
            k = k + 1;
            assert(out@ =~= base + spaces((k - len) as nat));
        }
        assert(vs.take(i + 1).drop_last() =~= vs.take(i as int));
        assert(vs.take(i + 1).last() == values@[i as int]@);
        assert(out@ =~= padded_text(vs.take(i as int), widths@) + pad_to(
            values@[i as int]@,
            widths@[i as int] as nat,
        ));
        i = i + 1;
    }
    proof {
        if vs.len() > widths@.len() && widths@.len() > 0 {
            assert(vs.take(n as int) =~= vs.take(widths@.len() as int));
        } else if vs.len() > 0 && widths@.len() > 0 {
            assert(vs.take(n as int) =~= vs);
        } else if vs.len() == 0 {
            assert(vs.take(n as int) =~= vs);
        }
    }
    out
}


/// What the comparisons print: the key, every side in the order first named, and the pairs,
/// indices into `values`, in the order given.
#[derive(Debug, Clone, PartialEq, Eq)]
pub struct Plan {
    /// The key the sides differ in.
    pub key: String,
    /// Every side, in the order first named.
    pub values: Vec<String>,
    /// The comparisons, as indices into `values`, in the order given.
    pub steps: Vec<(usize, usize)>,
}

/// Where `v` first stands in `values`, their length when nowhere.
pub open spec fn first_at(values: Seq<Seq<char>>, v: Seq<char>) -> int
    decreases values.len(),
{
    if values.len() == 0 {
        0
    } else if values[0] == v {
        0
    } else {
        1 + first_at(values.drop_first(), v)
    }
}

/// `vs` placed among `values`: each where it first stands, a new one added at the end; the
/// values after, and each one's place.
pub open spec fn places(values: Seq<Seq<char>>, vs: Seq<Seq<char>>) -> (Seq<Seq<char>>, Seq<usize>)
    decreases vs.len(),
{
    if vs.len() == 0 {
        (values, Seq::empty())
    } else {
        let (vals, at) = places(values, vs.drop_last());
        let k = first_at(vals, vs.last());
        if k < vals.len() {
            (vals, at.push(k as usize))
        } else {
            (vals.push(vs.last()), at.push(vals.len() as usize))
        }
    }
}

/// The pairs a list of sides compares: two values one comparison, three or more a ladder,
/// each against the first and against the one before.
pub open spec fn ladder(at: Seq<usize>) -> Seq<(usize, usize)>
    decreases at.len(),
{
    if at.len() <= 1 {
        Seq::empty()
    } else {
        let i = at.len() - 1;
        let p = ladder(at.drop_last()).push((at[0], at[i]));
        if i >= 2 {
            p.push((at[i - 1], at[i]))
        } else {
            p
        }
    }
}

/// `pairs` added to `steps` in order, a pair already there added once.
pub open spec fn add_new(steps: Seq<(usize, usize)>, pairs: Seq<(usize, usize)>) -> Seq<(usize, usize)>
    decreases pairs.len(),
{
    if pairs.len() == 0 {
        steps
    } else {
        let s = add_new(steps, pairs.drop_last());
        if s.contains(pairs.last()) {
            s
        } else {
            s.push(pairs.last())
        }
    }
}

/// The refusal of a key alone when the records hold fewer than two of its values.
pub open spec fn too_few(all: Seq<Seq<char>>, key: Seq<char>) -> Seq<char> {
    "the records hold "@ + decimal(all.len()) + " value"@ + (if all.len() == 1 {
        Seq::empty()
    } else {
        "s"@
    }) + " of "@ + key + ", "@ + joined(all, ", "@) + ", and a comparison needs two"@
}

/// The plan of `specs`, each adding its pairs onto the ones before; a key alone takes `all`,
/// every value the records hold in the order each first ran.
pub open spec fn plan_from(specs: Seq<Sides>, all: Seq<Seq<char>>, key: Seq<char>) -> Result<
    (Seq<Seq<char>>, Seq<(usize, usize)>),
    Seq<char>,
>
    decreases specs.len(),
{
    if specs.len() == 0 {
        Ok((Seq::empty(), Seq::empty()))
    } else {
        match plan_from(specs.drop_last(), all, key) {
            Err(e) => Err(e),
            Ok((vals, steps)) => {
                let sv = specs.last().values.deep_view();
                if sv.len() == 0 && all.len() < 2 {
                    Err(too_few(all, key))
                } else {
                    let vs = if sv.len() == 0 {
                        all
                    } else {
                        sv
                    };
                    let (vals2, at) = places(vals, vs);
                    Ok((vals2, add_new(steps, ladder(at))))
                }
            },
        }
    }
}

/// The first of `specs` from `i` on whose key is not `key`.
pub open spec fn other_key(specs: Seq<Sides>, key: Seq<char>, i: int) -> Option<int>
    decreases specs.len() - i,
{
    if i < 0 || i >= specs.len() {
        None
    } else if specs[i].key@ != key {
        Some(i)
    } else {
        other_key(specs, key, i + 1)
    }
}

/// What [`Plan::of`] decides: one analysis compares on one key, else the plan of every spec.
pub open spec fn spec_plan(specs: Seq<Sides>, all: Seq<Seq<char>>) -> Result<
    (Seq<char>, Seq<Seq<char>>, Seq<(usize, usize)>),
    Seq<char>,
> {
    let key = specs[0].key@;
    match other_key(specs, key, 0) {
        Some(i) => Err(
            "--compare "@ + key + " and --compare "@ + specs[i].key@
                + " compare on different keys: one analysis compares on one"@,
        ),
        None => match plan_from(specs, all, key) {
            Err(e) => Err(e),
            Ok((vals, steps)) => Ok((key, vals, steps)),
        },
    }
}

/// Where `v` first stands in `values`, their length when nowhere.
fn position(values: &Vec<String>, v: &String) -> (r: usize)
    ensures
        r == first_at(values.deep_view(), v@),
        r <= values.len(),
{
    let ghost vs = values.deep_view();
    let mut i: usize = 0;
    assert(vs.skip(0) =~= vs);
    while i < values.len() && !str_eq(values[i].as_str(), v.as_str())
        invariant
            i <= values.len(),
            vs == values.deep_view(),
            first_at(vs, v@) == i + first_at(vs.skip(i as int), v@),
        decreases values.len() - i,
    {
        assert(vs.skip(i as int).drop_first() =~= vs.skip(i + 1));
        i = i + 1;
    }
    if i < values.len() {
        assert(vs.skip(i as int)[0] == values@[i as int]@);
    } else {
        assert(vs.skip(i as int).len() == 0);
    }
    i
}

/// Whether `steps` holds `pair`.
fn has_pair(steps: &Vec<(usize, usize)>, pair: (usize, usize)) -> (r: bool)
    ensures
        r == steps@.contains(pair),
{
    let mut i: usize = 0;
    while i < steps.len()
        invariant
            i <= steps.len(),
            forall|j: int| 0 <= j < i ==> steps@[j] != pair,
        decreases steps.len() - i,
    {
        if steps[i].0 == pair.0 && steps[i].1 == pair.1 {
            assert(steps@[i as int] == pair);
            return true;
        }
        i = i + 1;
    }
    false
}

/// Add `pair` unless `steps` holds it.
fn add_pair(steps: &mut Vec<(usize, usize)>, pair: (usize, usize))
    ensures
        final(steps)@ == if old(steps)@.contains(pair) {
            old(steps)@
        } else {
            old(steps)@.push(pair)
        },
{
    if !has_pair(steps, pair) {
        steps.push(pair);
    }
}

impl Plan {
    /// The plan of every `--compare`, each adding its pairs: two values one comparison, three
    /// or more a ladder, each against the first and against the one before, and a key alone
    /// every value the records hold, `all`, in the order each first ran. A pair given twice
    /// prints once.
    pub fn of(specs: &[Sides], all: &Vec<String>) -> (r: Result<Plan, String>)
        requires
            specs.len() > 0,
        ensures
            match r {
                Ok(p) => spec_plan(specs@, all.deep_view()) == Ok::<
                    (Seq<char>, Seq<Seq<char>>, Seq<(usize, usize)>),
                    Seq<char>,
                >((p.key@, p.values.deep_view(), p.steps@)),
                Err(e) => spec_plan(specs@, all.deep_view()) == Err::<
                    (Seq<char>, Seq<Seq<char>>, Seq<(usize, usize)>),
                    Seq<char>,
                >(e@),
            },
    {
        let key = specs[0].key.clone();
        let mut i: usize = 0;
        while i < specs.len()
            invariant
                i <= specs.len(),
                key@ == specs@[0].key@,
                other_key(specs@, key@, 0) == other_key(specs@, key@, i as int),
            decreases specs.len() - i,
        {
            if !str_eq(specs[i].key.as_str(), key.as_str()) {
                let mut e = string_of("--compare ");
                push_str(&mut e, key.as_str());
                push_str(&mut e, " and --compare ");
                push_str(&mut e, specs[i].key.as_str());
                push_str(&mut e, " compare on different keys: one analysis compares on one");
                return Err(e);
            }
            i = i + 1;
        }
        let mut values: Vec<String> = Vec::new();
        let mut steps: Vec<(usize, usize)> = Vec::new();
        let ghost av = all.deep_view();
        let mut j: usize = 0;
        assert(specs@.take(0) =~= Seq::<Sides>::empty());
        assert(values.deep_view() =~= Seq::<Seq<char>>::empty());
        assert(steps@ =~= Seq::<(usize, usize)>::empty());
        while j < specs.len()
            invariant
                j <= specs.len(),
                key@ == specs@[0].key@,
                av == all.deep_view(),
                other_key(specs@, key@, 0) is None,
                plan_from(specs@.take(j as int), av, key@) == Ok::<
                    (Seq<Seq<char>>, Seq<(usize, usize)>),
                    Seq<char>,
                >((values.deep_view(), steps@)),
            decreases specs.len() - j,
        {
            assert(specs@.take(j + 1).drop_last() =~= specs@.take(j as int));
            assert(specs@.take(j + 1).last() == specs@[j as int]);
            let spec = &specs[j];
            let ghost sv = spec.values.deep_view();
            if spec.values.len() == 0 && all.len() < 2 {
                let mut e = string_of("the records hold ");
                push_decimal(&mut e, all.len() as u64);
                push_str(&mut e, " value");
                if all.len() != 1 {
                    push_str(&mut e, "s");
                }
                push_str(&mut e, " of ");
                push_str(&mut e, key.as_str());
                push_str(&mut e, ", ");
                let list = join(all, ", ");
                push_str(&mut e, list.as_str());
                push_str(&mut e, ", and a comparison needs two");
                proof {
                    lemma_plan_prefix(specs@, av, key@, j as int + 1);
                }
                return Err(e);
            }
            let vs: &Vec<String> = if spec.values.len() == 0 {
                all
            } else {
                &spec.values
            };
            let ghost vals0 = values.deep_view();
            let ghost steps0 = steps@;
            let mut at: Vec<usize> = Vec::new();
            let mut m: usize = 0;
            assert(vs.deep_view().take(0) =~= Seq::<Seq<char>>::empty());
            while m < vs.len()
                invariant
                    m <= vs.len(),
                    places(vals0, vs.deep_view().take(m as int)) == (values.deep_view(), at@),
                    forall|q: int| 0 <= q < at.len() ==> (#[trigger] at@[q]) < values.len(),
                decreases vs.len() - m,
            {
                assert(vs.deep_view().take(m + 1).drop_last() =~= vs.deep_view().take(m as int));
                assert(vs.deep_view().take(m + 1).last() == vs@[m as int]@);
                let k = position(&values, &vs[m]);
                if k < values.len() {
                    at.push(k);
                } else {
                    let ghost before = values.deep_view();
                    values.push(vs[m].clone());
                    assert(values.deep_view() =~= before.push(vs@[m as int]@));
                    at.push(k);
                }
                m = m + 1;
            }
            assert(vs.deep_view().take(vs.len() as int) =~= vs.deep_view());
            let mut q: usize = 1;
            assert(at@.take(1).len() <= 1);
            while q < at.len()
                invariant
                    1 <= q <= at.len() || at.len() == 0,
                    steps@ == add_new(steps0, ladder(at@.take(q as int))),
                decreases at.len() - q,
            {
                assert(at@.take(q + 1).drop_last() =~= at@.take(q as int));
                assert(at@.take(q + 1)[0] == at@[0]);
                assert(at@.take(q + 1)[q as int] == at@[q as int]);
                let ghost l0 = ladder(at@.take(q as int));
                let first = (at[0], at[q]);
                add_pair(&mut steps, first);
                assert(steps@ == add_new(steps0, l0.push(first))) by {
                    assert(l0.push(first).drop_last() =~= l0);
                }
                if q >= 2 {
                    assert(at@.take(q + 1)[q - 1] == at@[q - 1]);
                    let second = (at[q - 1], at[q]);
                    add_pair(&mut steps, second);
                    assert(steps@ == add_new(steps0, l0.push(first).push(second))) by {
                        assert(l0.push(first).push(second).drop_last() =~= l0.push(first));
                    }
                }
                q = q + 1;
            }
            if at.len() > 0 {
                assert(at@.take(at.len() as int) =~= at@);
            } else {
                assert(ladder(at@) =~= Seq::<(usize, usize)>::empty());
                assert(at@.take(1) =~= at@);
            }
            j = j + 1;
        }
        assert(specs@.take(specs.len() as int) =~= specs@);
        Ok(Plan { key, values, steps })
    }
}

/// A refusal part way through the specs is the plan's refusal.
pub proof fn lemma_plan_prefix(specs: Seq<Sides>, all: Seq<Seq<char>>, key: Seq<char>, n: int)
    requires
        0 <= n <= specs.len(),
        plan_from(specs.take(n), all, key) is Err,
    ensures
        plan_from(specs, all, key) == plan_from(specs.take(n), all, key),
    decreases specs.len() - n,
{
    if n < specs.len() {
        assert(specs.take(n + 1).drop_last() =~= specs.take(n));
        lemma_plan_prefix(specs, all, key, n + 1);
    } else {
        assert(specs.take(n) =~= specs);
    }
}

/// What an invocation is labelled by: its bench, host, the file it was read from, its tags,
/// and when its first run started (RFC3339, so text order is time order).
#[derive(Debug, Clone, PartialEq, Eq)]
pub struct Labels {
    /// The series: the invocation that ran it.
    pub series: String,
    /// The bench.
    pub bench: String,
    /// The host.
    pub host: String,
    /// The name of the file it was read from.
    pub file: String,
    /// Its tags: key, value.
    pub tags: Vec<(String, String)>,
    /// Its first run's `t_start`.
    pub t_start: String,
    /// Its run parameters as its records spell them: key, value.
    pub params: Vec<(String, String)>,
}

/// The value of tag `key` among `tags`, the first entry for it.
pub open spec fn tag_value(tags: Seq<(String, String)>, key: Seq<char>) -> Option<Seq<char>>
    decreases tags.len(),
{
    if tags.len() == 0 {
        None
    } else if tags[0].0@ == key {
        Some(tags[0].1@)
    } else {
        tag_value(tags.drop_first(), key)
    }
}

/// An invocation's value of `key`: `bench`, `host`, and `file` are its own, and any other key
/// is a tag's, `-` when the records lack it.
pub open spec fn spec_value(l: Labels, key: Seq<char>) -> Seq<char> {
    if key == "bench"@ {
        l.bench@
    } else if key == "host"@ {
        l.host@
    } else if key == "file"@ {
        l.file@
    } else {
        match tag_value(l.tags@, key) {
            Some(v) => v,
            None => "-"@,
        }
    }
}

/// An invocation's value of `key`: `bench`, `host`, and `file` are its own, and any other key
/// is a tag's, `-` when the records lack it.
pub fn value(l: &Labels, key: &str) -> (r: String)
    ensures
        r@ == spec_value(*l, key@),
{
    if str_eq(key, "bench") {
        return l.bench.clone();
    }
    if str_eq(key, "host") {
        return l.host.clone();
    }
    if str_eq(key, "file") {
        return l.file.clone();
    }
    let mut i: usize = 0;
    assert(l.tags@.skip(0) =~= l.tags@);
    while i < l.tags.len()
        invariant
            i <= l.tags.len(),
            key@ != "bench"@ && key@ != "host"@ && key@ != "file"@,
            tag_value(l.tags@, key@) == tag_value(l.tags@.skip(i as int), key@),
        decreases l.tags.len() - i,
    {
        assert(l.tags@.skip(i as int).drop_first() =~= l.tags@.skip(i + 1));
        assert(l.tags@.skip(i as int)[0] == l.tags@[i as int]);
        if str_eq(l.tags[i].0.as_str(), key) {
            return l.tags[i].1.clone();
        }
        i = i + 1;
    }
    string_of("-")
}

/// The earliest start among the invocations of `invs` whose value of `key` is `v`, from the
/// text order of the times.
pub open spec fn first_start(invs: Seq<Labels>, key: Seq<char>, v: Seq<char>) -> Option<Seq<char>>
    decreases invs.len(),
{
    if invs.len() == 0 {
        None
    } else {
        let rest = first_start(invs.drop_last(), key, v);
        let l = invs.last();
        if spec_value(l, key) != v {
            rest
        } else {
            match rest {
                None => Some(l.t_start@),
                Some(t) => if text_lt(l.t_start@, t) {
                    Some(l.t_start@)
                } else {
                    Some(t)
                },
            }
        }
    }
}

/// `(a, x)` sorts before `(b, y)`: by time, then by value.
pub open spec fn pair_lt(a: Seq<char>, x: Seq<char>, b: Seq<char>, y: Seq<char>) -> bool {
    text_lt(a, b) || (a == b && text_lt(x, y))
}

/// Every value of `key` the invocations hold, once each, ordered by when each first ran and
/// then by the value.
pub open spec fn in_order(invs: Seq<Labels>, key: Seq<char>, r: Seq<Seq<char>>) -> bool {
    &&& forall|i: int| 0 <= i < r.len() ==> first_start(invs, key, #[trigger] r[i]) is Some
    &&& forall|j: int|
        0 <= j < invs.len() ==> r.contains(spec_value(#[trigger] invs[j], key))
    &&& forall|i: int, j: int|
        #![trigger r[i], r[j]]
        0 <= i < j < r.len() ==> pair_lt(
            first_start(invs, key, r[i])->0,
            r[i],
            first_start(invs, key, r[j])->0,
            r[j],
        )
}

/// One more invocation onto the first starts of those before it.
pub proof fn lemma_first_start_step(invs: Seq<Labels>, key: Seq<char>, v: Seq<char>, n: int)
    requires
        0 <= n < invs.len(),
    ensures
        first_start(invs.take(n + 1), key, v) == if spec_value(invs[n], key) != v {
            first_start(invs.take(n), key, v)
        } else {
            match first_start(invs.take(n), key, v) {
                None => Some(invs[n].t_start@),
                Some(t) => if text_lt(invs[n].t_start@, t) {
                    Some(invs[n].t_start@)
                } else {
                    Some(t)
                },
            }
        },
{
    assert(invs.take(n + 1).drop_last() =~= invs.take(n));
}

/// The pair order is a strict total order on distinct pairs.
pub proof fn lemma_pair_order(a: Seq<char>, x: Seq<char>, b: Seq<char>, y: Seq<char>, c: Seq<char>, z: Seq<char>)
    ensures
        !pair_lt(a, x, a, x),
        pair_lt(a, x, b, y) && pair_lt(b, y, c, z) ==> pair_lt(a, x, c, z),
        (a, x) != (b, y) ==> pair_lt(a, x, b, y) || pair_lt(b, y, a, x),
{
    lemma_text_lt_irreflexive(a);
    lemma_text_lt_irreflexive(x);
    lemma_text_lt_irreflexive(b);
    if text_lt(a, b) && text_lt(b, c) {
        lemma_text_lt_transitive(a, b, c);
    }
    if text_lt(x, y) && text_lt(y, z) {
        lemma_text_lt_transitive(x, y, z);
    }
    if a != b {
        lemma_text_lt_total(a, b);
    }
    if x != y {
        lemma_text_lt_total(x, y);
    }
    if text_lt(a, b) && text_lt(b, a) {
        lemma_text_lt_transitive(a, b, a);
    }
}

/// Every value of `key` the invocations hold, ordered by when each first ran: what a key
/// alone compares, in the order a session ran them.
#[verifier::rlimit(60)]
#[verifier::spinoff_prover]
pub fn values_in_order(invs: &Vec<Labels>, key: &str) -> (r: Vec<String>)
    ensures
        in_order(invs@, key@, r.deep_view()),
        forall|i: int, j: int| 0 <= i < j < r.len() ==> r.deep_view()[i] != r.deep_view()[j],
{
    // Each value once, with the earliest start seen so far.
    let mut seen: Vec<(String, String)> = Vec::new();
    let mut n: usize = 0;
    assert(invs@.take(0) =~= Seq::<Labels>::empty());
    while n < invs.len()
        invariant
            n <= invs.len(),
            forall|q: int|
                0 <= q < seen.len() ==> first_start(invs@.take(n as int), key@, (#[trigger] seen@[q]).0@)
                    == Some(seen@[q].1@),
            forall|q: int, p: int| 0 <= q < p < seen.len() ==> (#[trigger] seen@[q]).0@ != (#[trigger] seen@[p]).0@,
            forall|j: int|
                0 <= j < n ==> exists|q: int|
                    0 <= q < seen.len() && (#[trigger] seen@[q]).0@ == spec_value(#[trigger] invs@[j], key@),
        decreases invs.len() - n,
    {
        let v = value(&invs[n], key);
        let t = &invs[n].t_start;
        let ghost pre = invs@.take(n as int);
        let ghost post = invs@.take(n + 1);
        proof {
            assert forall|w: Seq<char>| #[trigger] first_start(post, key@, w) == if spec_value(invs@[n as int], key@) != w {
                first_start(pre, key@, w)
            } else {
                match first_start(pre, key@, w) {
                    None => Some(invs@[n as int].t_start@),
                    Some(u) => if text_lt(invs@[n as int].t_start@, u) {
                        Some(invs@[n as int].t_start@)
                    } else {
                        Some(u)
                    },
                }
            } by {
                lemma_first_start_step(invs@, key@, w, n as int);
            }
            assert forall|j: int| 0 <= j < n implies (#[trigger] post[j]) == invs@[j] by {}
        }
        let mut q: usize = 0;
        while q < seen.len() && !str_eq(seen[q].0.as_str(), v.as_str())
            invariant
                q <= seen.len(),
                forall|p: int| 0 <= p < q ==> (#[trigger] seen@[p]).0@ != v@,
            decreases seen.len() - q,
        {
            q = q + 1;
        }
        let ghost old_seen = seen@;
        if q < seen.len() {
            if less_text(t.as_str(), seen[q].1.as_str()) {
                let name = seen[q].0.clone();
                seen.set(q, (name, t.clone()));
            }
            proof {
                assert forall|p: int| 0 <= p < seen.len() implies first_start(post, key@, (#[trigger] seen@[p]).0@)
                    == Some(seen@[p].1@) by {
                    if p != q {
                        assert(seen@[p] == old_seen[p]);
                    }
                }
                assert forall|j: int| 0 <= j < n + 1 implies exists|k: int|
                    0 <= k < seen.len() && (#[trigger] seen@[k]).0@ == spec_value(#[trigger] invs@[j], key@) by {
                    if j == n {
                        assert(seen@[q as int].0@ == v@);
                    } else {
                        let k = choose|k: int| 0 <= k < old_seen.len() && (#[trigger] old_seen[k]).0@ == spec_value(invs@[j], key@);
                        assert(seen@[k].0@ == old_seen[k].0@);
                    }
                }
            }
        } else {
            proof {
                // A value not seen before has no start yet.
                if first_start(pre, key@, v@) is Some {
                    lemma_first_start_seen(invs@.take(n as int), key@, v@);
                    let j = choose|j: int| 0 <= j < pre.len() && spec_value(pre[j], key@) == v@;
                    assert(pre[j] == invs@[j]);
                    let k = choose|k: int| 0 <= k < old_seen.len() && (#[trigger] old_seen[k]).0@ == spec_value(invs@[j], key@);
                    assert(old_seen[k].0@ != v@);
                }
            }
            seen.push((v, t.clone()));
            proof {
                assert forall|p: int| 0 <= p < seen.len() implies first_start(post, key@, (#[trigger] seen@[p]).0@)
                    == Some(seen@[p].1@) by {
                    if p < old_seen.len() {
                        assert(seen@[p] == old_seen[p]);
                    }
                }
                assert forall|j: int| 0 <= j < n + 1 implies exists|k: int|
                    0 <= k < seen.len() && (#[trigger] seen@[k]).0@ == spec_value(#[trigger] invs@[j], key@) by {
                    if j == n {
                        assert(seen@[old_seen.len() as int].0@ == spec_value(invs@[j], key@));
                    } else {
                        let k = choose|k: int| 0 <= k < old_seen.len() && (#[trigger] old_seen[k]).0@ == spec_value(invs@[j], key@);
                        assert(seen@[k] == old_seen[k]);
                    }
                }
            }
        }
        n = n + 1;
    }
    assert(invs@.take(invs.len() as int) =~= invs@);
    proof {
        reveal(starts_hold);
    }
    let out = sort_pairs(&seen, invs, key);
    let mut r: Vec<String> = Vec::new();
    let mut m: usize = 0;
    while m < out.len()
        invariant
            m <= out.len(),
            r.len() == m,
            forall|q: int| 0 <= q < m ==> (#[trigger] r@[q])@ == out@[q].0@,
        decreases out.len() - m,
    {
        r.push(out[m].0.clone());
        m = m + 1;
    }
    proof {
        reveal(sorted_pairs);
        reveal(starts_hold);
        reveal(same_names);
        assert forall|i: int| 0 <= i < r.len() implies first_start(invs@, key@, #[trigger] r.deep_view()[i]) is Some by {
            assert(r.deep_view()[i] == out@[i].0@);
        }
        assert forall|j: int| 0 <= j < invs.len() implies r.deep_view().contains(spec_value(#[trigger] invs@[j], key@)) by {
            let q = choose|q: int| 0 <= q < seen.len() && (#[trigger] seen@[q]).0@ == spec_value(invs@[j], key@);
            let p = choose|p: int| 0 <= p < out.len() && (#[trigger] out@[p]).0@ == (#[trigger] seen@[q]).0@;
            assert(r.deep_view()[p] == out@[p].0@);
        }
        assert forall|i: int, j: int|
            #![trigger r.deep_view()[i], r.deep_view()[j]]
            0 <= i < j < r.len() implies pair_lt(
                first_start(invs@, key@, r.deep_view()[i])->0,
                r.deep_view()[i],
                first_start(invs@, key@, r.deep_view()[j])->0,
                r.deep_view()[j],
            ) && r.deep_view()[i] != r.deep_view()[j] by {
            assert(r.deep_view()[i] == out@[i].0@);
            assert(r.deep_view()[j] == out@[j].0@);
            assert(pair_lt(out@[i].1@, out@[i].0@, out@[j].1@, out@[j].0@));
            lemma_pair_order(out@[i].1@, out@[i].0@, out@[j].1@, out@[j].0@, out@[j].1@, out@[j].0@);
        }
    }
    r
}

/// The pairs (value, first start) of `seen` sorted by start, then value.
#[verifier::rlimit(40)]
#[verifier::spinoff_prover]
fn sort_pairs(seen: &Vec<(String, String)>, invs: &Vec<Labels>, key: &str) -> (out: Vec<(String, String)>)
    requires
        starts_hold(seen@, invs@, key@),
        forall|q: int, p: int| 0 <= q < p < seen.len() ==> (#[trigger] seen@[q]).0@ != (#[trigger] seen@[p]).0@,
    ensures
        sorted_pairs(out@),
        starts_hold(out@, invs@, key@),
        same_names(out@, seen@, seen.len() as int),
{
    // Insert each into its place by (first start, value).
    let mut out: Vec<(String, String)> = Vec::new();
    let mut k: usize = 0;
    assert(sorted_pairs(out@)) by {
        reveal(sorted_pairs);
    }
    assert(starts_hold(out@, invs@, key@)) by {
        reveal(starts_hold);
    }
    assert(same_names(out@, seen@, 0)) by {
        reveal(same_names);
    }
    while k < seen.len()
        invariant
            k <= seen.len(),
            starts_hold(seen@, invs@, key@),
            forall|q: int, p: int| 0 <= q < p < seen.len() ==> (#[trigger] seen@[q]).0@ != (#[trigger] seen@[p]).0@,
            starts_hold(out@, invs@, key@),
            sorted_pairs(out@),
            same_names(out@, seen@, k as int),
        decreases seen.len() - k,
    {
        let mut g: usize = 0;
        while g < out.len() && (less_text(out[g].1.as_str(), seen[k].1.as_str()) || (str_eq(
            out[g].1.as_str(),
            seen[k].1.as_str(),
        ) && less_text(out[g].0.as_str(), seen[k].0.as_str())))
            invariant
                g <= out.len(),
                k < seen.len(),
                forall|h: int| 0 <= h < g ==> pair_lt((#[trigger] out@[h]).1@, out@[h].0@, seen@[k as int].1@, seen@[k as int].0@),
            decreases out.len() - g,
        {
            g = g + 1;
        }
        let ghost old_out = out@;
        let ghost x = seen@[k as int];
        proof {
            // The new value is none already placed.
            assert forall|h: int| 0 <= h < old_out.len() implies (#[trigger] old_out[h]).0@ != x.0@ by {
                reveal(same_names);
                let q = choose|q: int| 0 <= q < k && (#[trigger] old_out[h]).0@ == (#[trigger] seen@[q]).0@;
                assert(seen@[q].0@ != seen@[k as int].0@);
            }
        }
        let elt = (seen[k].0.clone(), seen[k].1.clone());
        proof {
            assert(first_start(invs@, key@, elt.0@) == Some(elt.1@)) by {
                reveal(starts_hold);
            }
            lemma_insert_sorted(old_out, g as int, elt);
            lemma_insert_starts(old_out, g as int, elt, invs@, key@);
            lemma_insert_members(old_out, g as int, elt, seen@, k as int);
        }
        out.insert(g, elt);
        k = k + 1;
    }
    out
}

/// A value with a first start is some invocation's.
pub proof fn lemma_first_start_seen(invs: Seq<Labels>, key: Seq<char>, v: Seq<char>)
    requires
        first_start(invs, key, v) is Some,
    ensures
        exists|j: int| 0 <= j < invs.len() && spec_value(invs[j], key) == v,
    decreases invs.len(),
{
    if spec_value(invs.last(), key) != v {
        lemma_first_start_seen(invs.drop_last(), key, v);
        let j = choose|j: int| 0 <= j < invs.drop_last().len() && spec_value(invs.drop_last()[j], key) == v;
        assert(invs[j] == invs.drop_last()[j]);
    } else {
        assert(spec_value(invs[invs.len() - 1], key) == v);
    }
}

/// The pairs (value, first start) sort strictly by start, then value.
#[verifier::opaque]
pub open spec fn sorted_pairs(o: Seq<(String, String)>) -> bool {
    forall|q: int, p: int|
        #![trigger o[q], o[p]]
        0 <= q < p < o.len() ==> pair_lt(o[q].1@, o[q].0@, o[p].1@, o[p].0@)
}

/// Each pair's start is its value's first start.
#[verifier::opaque]
pub open spec fn starts_hold(o: Seq<(String, String)>, invs: Seq<Labels>, key: Seq<char>) -> bool {
    forall|q: int| 0 <= q < o.len() ==> first_start(invs, key, (#[trigger] o[q]).0@) == Some(o[q].1@)
}

/// The values of `o` are those of `seen`'s first `k`.
#[verifier::opaque]
pub open spec fn same_names(o: Seq<(String, String)>, seen: Seq<(String, String)>, k: int) -> bool {
    &&& forall|q: int|
        0 <= q < k ==> exists|p: int| 0 <= p < o.len() && (#[trigger] o[p]).0@ == (#[trigger] seen[q]).0@
    &&& forall|p: int|
        0 <= p < o.len() ==> exists|q: int| 0 <= q < k && (#[trigger] o[p]).0@ == (#[trigger] seen[q]).0@
}

/// Inserting a pair where every pair before sorts before it and none after does keeps the
/// pairs sorted, when its value is none of theirs.
pub proof fn lemma_insert_sorted(o: Seq<(String, String)>, g: int, x: (String, String))
    requires
        sorted_pairs(o),
        0 <= g <= o.len(),
        forall|h: int| 0 <= h < g ==> pair_lt((#[trigger] o[h]).1@, o[h].0@, x.1@, x.0@),
        g < o.len() ==> !pair_lt(o[g].1@, o[g].0@, x.1@, x.0@),
        forall|h: int| 0 <= h < o.len() ==> (#[trigger] o[h]).0@ != x.0@,
    ensures
        sorted_pairs(o.insert(g, x)),
{
    reveal(sorted_pairs);
    o.insert_ensures(g, x);
    let n = o.insert(g, x);
    if g < o.len() {
        lemma_pair_order(o[g].1@, o[g].0@, x.1@, x.0@, x.1@, x.0@);
    }
    assert forall|q: int, p: int|
        #![trigger n[q], n[p]]
        0 <= q < p < n.len() implies pair_lt(n[q].1@, n[q].0@, n[p].1@, n[p].0@) by {
        if p < g {
            assert(n[q] == o[q] && n[p] == o[p]);
        } else if p == g {
            assert(n[q] == o[q]);
        } else if q == g {
            assert(n[p] == o[p - 1]);
            if p - 1 > g {
                assert(pair_lt(o[g].1@, o[g].0@, o[p - 1].1@, o[p - 1].0@));
                lemma_pair_order(x.1@, x.0@, o[g].1@, o[g].0@, o[p - 1].1@, o[p - 1].0@);
            }
        } else if q < g {
            assert(n[q] == o[q] && n[p] == o[p - 1]);
            lemma_pair_order(o[q].1@, o[q].0@, x.1@, x.0@, o[g].1@, o[g].0@);
            if p - 1 > g {
                assert(pair_lt(o[g].1@, o[g].0@, o[p - 1].1@, o[p - 1].0@));
                lemma_pair_order(o[q].1@, o[q].0@, o[g].1@, o[g].0@, o[p - 1].1@, o[p - 1].0@);
            }
        } else {
            assert(n[q] == o[q - 1] && n[p] == o[p - 1]);
        }
    }
}

/// Inserting a pair whose start is its value's first start keeps every start a first start.
pub proof fn lemma_insert_starts(
    o: Seq<(String, String)>,
    g: int,
    x: (String, String),
    invs: Seq<Labels>,
    key: Seq<char>,
)
    requires
        starts_hold(o, invs, key),
        0 <= g <= o.len(),
        first_start(invs, key, x.0@) == Some(x.1@),
    ensures
        starts_hold(o.insert(g, x), invs, key),
{
    reveal(starts_hold);
    o.insert_ensures(g, x);
    let n = o.insert(g, x);
    assert forall|q: int| 0 <= q < n.len() implies first_start(invs, key, (#[trigger] n[q]).0@) == Some(n[q].1@) by {
        if q < g {
            assert(n[q] == o[q]);
        } else if q > g {
            assert(n[q] == o[q - 1]);
        }
    }
}

/// Inserting `seen[k]`'s value adds it to the values placed.
#[verifier::spinoff_prover]
#[verifier::rlimit(30)]
pub proof fn lemma_insert_members(
    o: Seq<(String, String)>,
    g: int,
    x: (String, String),
    seen: Seq<(String, String)>,
    k: int,
)
    requires
        same_names(o, seen, k),
        0 <= g <= o.len(),
        0 <= k < seen.len(),
        x.0@ == seen[k].0@,
    ensures
        same_names(o.insert(g, x), seen, k + 1),
{
    reveal(same_names);
    o.insert_ensures(g, x);
    let n = o.insert(g, x);
    assert forall|q: int| 0 <= q < k + 1 implies exists|p: int| 0 <= p < n.len() && (#[trigger] n[p]).0@ == (#[trigger] seen[q]).0@ by {
        if q == k {
            assert(n[g].0@ == seen[q].0@);
        } else {
            let p = choose|p: int| 0 <= p < o.len() && (#[trigger] o[p]).0@ == (#[trigger] seen[q]).0@;
            if p < g {
                assert(n[p] == o[p]);
            } else {
                assert(n[p + 1] == o[p]);
            }
        }
    }
    assert forall|p: int| 0 <= p < n.len() implies exists|q: int| 0 <= q < k + 1 && (#[trigger] n[p]).0@ == (#[trigger] seen[q]).0@ by {
        if p == g {
            assert(n[p].0@ == seen[k].0@);
        } else if p < g {
            assert(n[p] == o[p]);
            let q = choose|q: int| 0 <= q < k && (#[trigger] o[p]).0@ == (#[trigger] seen[q]).0@;
        } else {
            assert(n[p] == o[p - 1]);
            let q = choose|q: int| 0 <= q < k && (#[trigger] o[p - 1]).0@ == (#[trigger] seen[q]).0@;
        }
    }
}

/// Whether a run parameter names what was run rather than how: the bench list, the record
/// sink, the tags.
pub open spec fn names_the_run(k: Seq<char>) -> bool {
    k == "benches"@ || k == "record"@ || k == "tags"@
}

/// The values the invocations `invs` ran parameter `key` at.
pub open spec fn side_values(invs: Seq<Labels>, key: Seq<char>) -> Set<Seq<char>> {
    Set::new(|v: Seq<char>| exists|i: int| 0 <= i < invs.len() && tag_value(#[trigger] invs[i].params@, key) == Some(v))
}

/// The parameter names the pairs `params` carry, less those that name what was run.
pub open spec fn keys_in(params: Seq<(String, String)>) -> Set<Seq<char>> {
    Set::new(|k: Seq<char>| !names_the_run(k) && exists|j: int| 0 <= j < params.len() && (#[trigger] params[j]).0@ == k)
}

/// The parameter names the invocations `invs` carry, less those that name what was run.
pub open spec fn param_keys(invs: Seq<Labels>) -> Set<Seq<char>> {
    Set::new(|k: Seq<char>| exists|i: int| 0 <= i < invs.len() && keys_in(#[trigger] invs[i].params@).contains(k))
}

/// One differing parameter's line: its name, then each side's values, ascending, `|` between.
pub open spec fn differing_line(k: Seq<char>, va: Set<Seq<char>>, vb: Set<Seq<char>>) -> Seq<char> {
    k + " ("@ + joined(sorted_of(va), " | "@) + " / "@ + joined(sorted_of(vb), " | "@) + ")"@
}

/// The lines of the keys of `keys` that the two sides ran at different values, in `keys`' order.
pub open spec fn differing_lines(keys: Seq<Seq<char>>, a: Seq<Labels>, b: Seq<Labels>) -> Seq<Seq<char>>
    decreases keys.len(),
{
    if keys.len() == 0 {
        Seq::empty()
    } else {
        let rest = differing_lines(keys.drop_last(), a, b);
        let k = keys.last();
        if side_values(a, k) != side_values(b, k) {
            rest.push(differing_line(k, side_values(a, k), side_values(b, k)))
        } else {
            rest
        }
    }
}

/// The value of `key` among `params`, the first entry for it.
fn param(params: &Vec<(String, String)>, key: &str) -> (r: Option<String>)
    ensures
        match r {
            Some(v) => tag_value(params@, key@) == Some(v@),
            None => tag_value(params@, key@) is None,
        },
{
    let mut i: usize = 0;
    assert(params@.skip(0) =~= params@);
    while i < params.len()
        invariant
            i <= params.len(),
            tag_value(params@, key@) == tag_value(params@.skip(i as int), key@),
        decreases params.len() - i,
    {
        assert(params@.skip(i as int).drop_first() =~= params@.skip(i + 1));
        assert(params@.skip(i as int)[0] == params@[i as int]);
        if str_eq(params[i].0.as_str(), key) {
            return Some(params[i].1.clone());
        }
        i = i + 1;
    }
    None
}

/// The values `invs` ran `key` at, ascending.
fn side_sorted(invs: &Vec<Labels>, key: &str) -> (r: Vec<String>)
    ensures
        strictly_sorted(r.deep_view()),
        r.deep_view().to_set() == side_values(invs@, key@),
{
    let mut r: Vec<String> = Vec::new();
    let mut i: usize = 0;
    assert(r.deep_view().to_set() =~= Set::empty());
    while i < invs.len()
        invariant
            i <= invs.len(),
            strictly_sorted(r.deep_view()),
            r.deep_view().to_set() == side_values(invs@.take(i as int), key@),
        decreases invs.len() - i,
    {
        let ghost before = r.deep_view().to_set();
        let got = param(&invs[i].params, key);
        match got {
            Some(v) => {
                insert_text(&mut r, v);
            },
            None => {},
        }
        assert(r.deep_view().to_set() =~= side_values(invs@.take(i + 1), key@)) by {
            let t = invs@.take(i + 1);
            assert forall|v: Seq<char>| #[trigger] side_values(t, key@).contains(v) implies r.deep_view().to_set().contains(v) by {
                let k = choose|k: int| 0 <= k < t.len() && tag_value(#[trigger] t[k].params@, key@) == Some(v);
                if k < i {
                    assert(invs@.take(i as int)[k] == t[k]);
                    assert(side_values(invs@.take(i as int), key@).contains(v));
                }
            }
            assert forall|v: Seq<char>| r.deep_view().to_set().contains(v) implies #[trigger] side_values(t, key@).contains(v) by {
                if before.contains(v) {
                    let k = choose|k: int| 0 <= k < i && tag_value(#[trigger] invs@.take(i as int)[k].params@, key@) == Some(v);
                    assert(t[k] == invs@.take(i as int)[k]);
                } else {
                    assert(t[i as int] == invs@[i as int]);
                }
            }
        }
        i = i + 1;
    }
    assert(invs@.take(invs.len() as int) =~= invs@);
    r
}

/// Add the parameter names of `params` that say how a run ran to the ascending `keys`.
fn add_keys(keys: &mut Vec<String>, params: &Vec<(String, String)>)
    requires
        strictly_sorted(old(keys).deep_view()),
    ensures
        strictly_sorted(final(keys).deep_view()),
        final(keys).deep_view().to_set() == old(keys).deep_view().to_set().union(keys_in(params@)),
{
    let ghost start = keys.deep_view().to_set();
    let mut j: usize = 0;
    assert(start.union(keys_in(params@.take(0))) =~= start);
    while j < params.len()
        invariant
            j <= params.len(),
            strictly_sorted(keys.deep_view()),
            keys.deep_view().to_set() == start.union(keys_in(params@.take(j as int))),
        decreases params.len() - j,
    {
        let k = &params[j].0;
        let skip = str_eq(k.as_str(), "benches") || str_eq(k.as_str(), "record") || str_eq(k.as_str(), "tags");
        let ghost before = keys.deep_view().to_set();
        if !skip {
            insert_text(keys, k.clone());
        }
        assert(keys.deep_view().to_set() =~= start.union(keys_in(params@.take(j + 1)))) by {
            let t = params@.take(j + 1);
            assert(t[j as int] == params@[j as int]);
            assert forall|x: Seq<char>| #[trigger] keys_in(t).contains(x) implies before.insert(x).contains(x) && (
            x != params@[j as int].0@ ==> keys_in(params@.take(j as int)).contains(x)) by {
                let m = choose|m: int| 0 <= m < t.len() && (#[trigger] t[m]).0@ == x;
                if x != params@[j as int].0@ {
                    assert(params@.take(j as int)[m] == t[m]);
                }
            }
            assert forall|x: Seq<char>| #[trigger] keys_in(params@.take(j as int)).contains(x) implies keys_in(t).contains(x) by {
                let m = choose|m: int| 0 <= m < j && (#[trigger] params@.take(j as int)[m]).0@ == x;
                assert(t[m] == params@.take(j as int)[m]);
            }
            if !skip {
                assert(keys_in(t).contains(params@[j as int].0@));
            }
        }
        j = j + 1;
    }
    assert(params@.take(params.len() as int) =~= params@);
}

/// The parameter names `invs` carry, added to the ascending `keys`.
fn add_side_keys(keys: &mut Vec<String>, invs: &Vec<Labels>)
    requires
        strictly_sorted(old(keys).deep_view()),
    ensures
        strictly_sorted(final(keys).deep_view()),
        final(keys).deep_view().to_set() == old(keys).deep_view().to_set().union(param_keys(invs@)),
{
    let ghost start = keys.deep_view().to_set();
    let mut i: usize = 0;
    assert(start.union(param_keys(invs@.take(0))) =~= start);
    while i < invs.len()
        invariant
            i <= invs.len(),
            strictly_sorted(keys.deep_view()),
            keys.deep_view().to_set() == start.union(param_keys(invs@.take(i as int))),
        decreases invs.len() - i,
    {
        add_keys(keys, &invs[i].params);
        assert(keys.deep_view().to_set() =~= start.union(param_keys(invs@.take(i + 1)))) by {
            let t = invs@.take(i + 1);
            assert(t[i as int] == invs@[i as int]);
            assert forall|x: Seq<char>| #[trigger] param_keys(t).contains(x) implies keys_in(invs@[i as int].params@).contains(x)
                || param_keys(invs@.take(i as int)).contains(x) by {
                let m = choose|m: int| 0 <= m < t.len() && keys_in(#[trigger] t[m].params@).contains(x);
                if m < i {
                    assert(invs@.take(i as int)[m] == t[m]);
                }
            }
            assert forall|x: Seq<char>| #[trigger] param_keys(invs@.take(i as int)).contains(x) implies param_keys(t).contains(x) by {
                let m = choose|m: int| 0 <= m < i && keys_in(#[trigger] invs@.take(i as int)[m].params@).contains(x);
                assert(t[m] == invs@.take(i as int)[m]);
            }
            assert forall|x: Seq<char>| keys_in(invs@[i as int].params@).contains(x) implies #[trigger] param_keys(t).contains(x) by {
                assert(keys_in(t[i as int].params@).contains(x));
            }
        }
        i = i + 1;
    }
    assert(invs@.take(invs.len() as int) =~= invs@);
}

/// The run parameters the two sides ran differently, each with both sides' values, the keys
/// that name what was run rather than how left out.
pub fn differing(a: &Vec<Labels>, b: &Vec<Labels>) -> (r: Vec<String>)
    ensures
        r.deep_view() == differing_lines(sorted_of(param_keys(a@).union(param_keys(b@))), a@, b@),
{
    let mut keys: Vec<String> = Vec::new();
    assert(keys.deep_view().to_set() =~= Set::empty());
    add_side_keys(&mut keys, a);
    add_side_keys(&mut keys, b);
    proof {
        assert(keys.deep_view().to_set() =~= param_keys(a@).union(param_keys(b@)));
        lemma_sorted_of(keys.deep_view(), param_keys(a@).union(param_keys(b@)));
    }
    let ghost ks = keys.deep_view();
    let mut out: Vec<String> = Vec::new();
    let mut i: usize = 0;
    while i < keys.len()
        invariant
            i <= keys.len(),
            ks == keys.deep_view(),
            out.deep_view() == differing_lines(ks.take(i as int), a@, b@),
        decreases keys.len() - i,
    {
        let k = keys[i].as_str();
        assert(ks[i as int] == k@);
        let va = side_sorted(a, k);
        let vb = side_sorted(b, k);
        let same = texts_eq(&va, &vb);
        proof {
            lemma_sorted_of(va.deep_view(), side_values(a@, k@));
            lemma_sorted_of(vb.deep_view(), side_values(b@, k@));
            if side_values(a@, k@) == side_values(b@, k@) {
                lemma_sorted_unique(va.deep_view(), vb.deep_view());
            }
            assert(ks.take(i + 1).drop_last() =~= ks.take(i as int));
        }
        if !same {
            let mut line = string_of(k);
            push_str(&mut line, " (");
            let ja = join(&va, " | ");
            push_str(&mut line, ja.as_str());
            push_str(&mut line, " / ");
            let jb = join(&vb, " | ");
            push_str(&mut line, jb.as_str());
            push_str(&mut line, ")");
            out.push(line);
            assert(out.deep_view() =~= differing_lines(ks.take(i + 1), a@, b@));
        }
        i = i + 1;
    }
    assert(ks.take(keys.len() as int) =~= ks);
    out
}

/// How a comparison paired the two sides' invocations.
#[derive(Debug, Clone, Copy, PartialEq, Eq, Structural)]
pub enum Pairing {
    /// Invocations sharing a series, `n` pairs: a ladder of benches in one invocation.
    Series(usize),
    /// Neighbours in time, `n` pairs, the sides having alternated.
    Alternating(usize),
    /// The two groups whole, `a` and `b` invocations.
    Groups(usize, usize),
    /// One invocation a side, the claim the two made together.
    OneEach,
}

/// How a pairing reads in the comparison table.
pub open spec fn pairing_text(p: Pairing) -> Seq<char> {
    match p {
        Pairing::Series(n) => "series x"@ + decimal(n as nat),
        Pairing::Alternating(n) => "alternating x"@ + decimal(n as nat),
        Pairing::Groups(a, b) => "groups "@ + decimal(a as nat) + "/"@ + decimal(b as nat),
        Pairing::OneEach => "one each"@,
    }
}

impl Pairing {
    /// How the pairing reads in the comparison table: `series x3`, `groups 2/2`.
    pub fn text(&self) -> (r: String)
        ensures
            r@ == pairing_text(*self),
    {
        let mut r = String::new();
        match self {
            Pairing::Series(n) => {
                push_str(&mut r, "series x");
                push_decimal(&mut r, *n as u64);
            },
            Pairing::Alternating(n) => {
                push_str(&mut r, "alternating x");
                push_decimal(&mut r, *n as u64);
            },
            Pairing::Groups(a, b) => {
                push_str(&mut r, "groups ");
                push_decimal(&mut r, *a as u64);
                push_str(&mut r, "/");
                push_decimal(&mut r, *b as u64);
            },
            Pairing::OneEach => {
                push_str(&mut r, "one each");
            },
        }
        r
    }
}

/// A place in the two sides: an invocation's index, on side B when the flag is set.
pub type Place = (usize, bool);

/// When the invocation at `x` started.
pub open spec fn start_of(a: Seq<Labels>, b: Seq<Labels>, x: Place) -> Seq<char> {
    if x.1 {
        b[x.0 as int].t_start@
    } else {
        a[x.0 as int].t_start@
    }
}

/// The order the sides' invocations ran in: by start time, ties keeping side A's before side
/// B's and each side's in its own order, as a stable sort of A's then B's leaves them.
pub open spec fn ran_before(a: Seq<Labels>, b: Seq<Labels>, x: Place, y: Place) -> bool {
    let (tx, ty) = (start_of(a, b, x), start_of(a, b, y));
    text_lt(tx, ty) || (tx == ty && ((!x.1 && y.1) || (x.1 == y.1 && x.0 < y.0)))
}

/// Every place of the two sides.
pub open spec fn places_of(a: Seq<Labels>, b: Seq<Labels>) -> Set<Place> {
    Set::new(|x: Place| if x.1 { x.0 < b.len() } else { x.0 < a.len() })
}

/// Places in the order they ran, none twice.
pub open spec fn in_run_order(a: Seq<Labels>, b: Seq<Labels>, q: Seq<Place>) -> bool {
    forall|i: int, j: int| 0 <= i < j < q.len() ==> ran_before(a, b, #[trigger] q[i], #[trigger] q[j])
}

/// The sides' invocations in the order they ran.
pub open spec fn run_order(a: Seq<Labels>, b: Seq<Labels>) -> Seq<Place> {
    choose|q: Seq<Place>| in_run_order(a, b, q) && q.to_set() == places_of(a, b)
}

/// Nothing ran before itself.
pub proof fn lemma_ran_before_irreflexive(a: Seq<Labels>, b: Seq<Labels>, x: Place)
    ensures
        !ran_before(a, b, x, x),
{
    lemma_text_lt_irreflexive(start_of(a, b, x));
}

/// Running before is transitive.
pub proof fn lemma_ran_before_transitive(a: Seq<Labels>, b: Seq<Labels>, x: Place, y: Place, z: Place)
    requires
        ran_before(a, b, x, y),
        ran_before(a, b, y, z),
    ensures
        ran_before(a, b, x, z),
{
    let (tx, ty, tz) = (start_of(a, b, x), start_of(a, b, y), start_of(a, b, z));
    if text_lt(tx, ty) && text_lt(ty, tz) {
        lemma_text_lt_transitive(tx, ty, tz);
    }
}

/// Of two different places, one ran before the other.
pub proof fn lemma_ran_before_total(a: Seq<Labels>, b: Seq<Labels>, x: Place, y: Place)
    requires
        x != y,
    ensures
        ran_before(a, b, x, y) || ran_before(a, b, y, x),
{
    let (tx, ty) = (start_of(a, b, x), start_of(a, b, y));
    if tx != ty {
        lemma_text_lt_total(tx, ty);
    }
}

/// Two sequences of the same places, each in the order they ran, are one sequence.
pub proof fn lemma_run_order_unique(a: Seq<Labels>, b: Seq<Labels>, p: Seq<Place>, q: Seq<Place>)
    requires
        in_run_order(a, b, p),
        in_run_order(a, b, q),
        p.to_set() == q.to_set(),
    ensures
        p == q,
    decreases p.len(),
{
    if p.len() == 0 || q.len() == 0 {
        if p.len() > 0 {
            assert(p.to_set().contains(p[0]));
        }
        if q.len() > 0 {
            assert(q.to_set().contains(q[0]));
        }
        assert(p =~= q);
    } else {
        let x = p[0];
        let y = q[0];
        assert(p.to_set().contains(x));
        assert(q.to_set().contains(y));
        let j = choose|j: int| 0 <= j < q.len() && q[j] == x;
        let i = choose|i: int| 0 <= i < p.len() && p[i] == y;
        if j > 0 && i > 0 {
            assert(ran_before(a, b, q[0], q[j]));
            assert(ran_before(a, b, p[0], p[i]));
            lemma_ran_before_transitive(a, b, x, y, x);
            lemma_ran_before_irreflexive(a, b, x);
        }
        assert(x == y);
        let p1 = p.drop_first();
        let q1 = q.drop_first();
        assert forall|z: Place| p1.to_set().contains(z) implies q1.to_set().contains(z) by {
            let k = choose|k: int| 0 <= k < p1.len() && p1[k] == z;
            assert(p.to_set().contains(z));
            let m = choose|m: int| 0 <= m < q.len() && q[m] == z;
            assert(ran_before(a, b, p[0], p[k + 1]));
            if m == 0 {
                lemma_ran_before_irreflexive(a, b, x);
            }
            assert(q1[m - 1] == z);
        }
        assert forall|z: Place| q1.to_set().contains(z) implies p1.to_set().contains(z) by {
            let k = choose|k: int| 0 <= k < q1.len() && q1[k] == z;
            assert(q.to_set().contains(z));
            let m = choose|m: int| 0 <= m < p.len() && p[m] == z;
            assert(ran_before(a, b, q[0], q[k + 1]));
            if m == 0 {
                lemma_ran_before_irreflexive(a, b, x);
            }
            assert(p1[m - 1] == z);
        }
        assert(p1.to_set() =~= q1.to_set());
        lemma_run_order_unique(a, b, p1, q1);
        assert(p =~= seq![x] + p1);
        assert(q =~= seq![y] + q1);
    }
}

/// Whether neighbours in `q` are always from different sides.
pub open spec fn alternates(q: Seq<Place>) -> bool {
    forall|k: int| 0 <= k < q.len() - 1 ==> (#[trigger] q[k]).1 != q[k + 1].1
}

/// Neighbours in `q` as (A, B) index pairs, two by two, a trailing one dropped.
pub open spec fn neighbour_pairs(q: Seq<Place>) -> Seq<(usize, usize)> {
    Seq::new(
        q.len() / 2,
        |p: int|
            if q[2 * p].1 {
                (q[2 * p + 1].0, q[2 * p].0)
            } else {
                (q[2 * p].0, q[2 * p + 1].0)
            },
    )
}

/// The sides as neighbour pairs when their invocations alternate in time, A B A B or B A B A,
/// a trailing unpaired one dropped; `None` when they do not alternate or give fewer than two
/// pairs.
pub open spec fn spec_alternating(a: Seq<Labels>, b: Seq<Labels>) -> Option<Seq<(usize, usize)>> {
    let q = run_order(a, b);
    if alternates(q) && neighbour_pairs(q).len() >= 2 {
        Some(neighbour_pairs(q))
    } else {
        None
    }
}

/// The first invocation of `b` in `series`, `b.len()` when none is.
pub open spec fn first_in_series(b: Seq<Labels>, series: Seq<char>) -> int
    decreases b.len(),
{
    if b.len() == 0 {
        0
    } else if b[0].series@ == series {
        0
    } else {
        1 + first_in_series(b.drop_first(), series)
    }
}

/// Each invocation of `a`, in order, with the first of `b` that shares its series, for those
/// that share one.
pub open spec fn shared_pairs(a: Seq<Labels>, b: Seq<Labels>) -> Seq<(usize, usize)>
    decreases a.len(),
{
    if a.len() == 0 {
        Seq::empty()
    } else {
        let rest = shared_pairs(a.drop_last(), b);
        let j = first_in_series(b, a.last().series@);
        if j < b.len() {
            rest.push(((a.len() - 1) as usize, j as usize))
        } else {
            rest
        }
    }
}

/// How B is set against A, and the pairs of invocations it compares: one each, the pairs that
/// share a series when two or more do, neighbours in time when the sides alternate, and
/// otherwise the two groups whole; nothing when a side is empty.
pub open spec fn spec_pairing(a: Seq<Labels>, b: Seq<Labels>) -> Option<(Pairing, Seq<(usize, usize)>)> {
    if a.len() == 0 || b.len() == 0 {
        None
    } else if a.len() == 1 && b.len() == 1 {
        Some((Pairing::OneEach, seq![(0usize, 0usize)]))
    } else if shared_pairs(a, b).len() >= 2 {
        Some((Pairing::Series(shared_pairs(a, b).len() as usize), shared_pairs(a, b)))
    } else {
        match spec_alternating(a, b) {
            Some(p) => Some((Pairing::Alternating(p.len() as usize), p)),
            None => Some((Pairing::Groups(a.len() as usize, b.len() as usize), Seq::empty())),
        }
    }
}

/// How [`pairing`] sets B against A, `None` when a side has nothing.
pub open spec fn how_paired(a: Seq<Labels>, b: Seq<Labels>) -> Option<Pairing> {
    match spec_pairing(a, b) {
        Some((how, _)) => Some(how),
        None => None,
    }
}

/// The pairs of invocations [`pairing`] compares, none when a side has nothing.
pub open spec fn pairs_of(a: Seq<Labels>, b: Seq<Labels>) -> Seq<(usize, usize)> {
    match spec_pairing(a, b) {
        Some((_, p)) => p,
        None => Seq::empty(),
    }
}

/// Whether a pairing is by series.
pub open spec fn by_series(how: Option<Pairing>) -> bool {
    how matches Some(Pairing::Series(_))
}

/// Whether invocation `i` of `a` shares its series with some invocation of `b`.
pub open spec fn shares_series(a: Seq<Labels>, b: Seq<Labels>, i: int) -> bool {
    exists|j: int| 0 <= j < b.len() && (#[trigger] b[j]).series@ == a[i].series@
}

/// Whether at least two invocations of `a` share their series with `b`.
pub open spec fn two_share(a: Seq<Labels>, b: Seq<Labels>) -> bool {
    exists|i1: int, i2: int|
        0 <= i1 < i2 < a.len() && #[trigger] shares_series(a, b, i1) && #[trigger] shares_series(a, b, i2)
}

/// The first invocation of `b` in a series is in it, and none before it is.
proof fn lemma_first_in_series(b: Seq<Labels>, series: Seq<char>)
    ensures
        0 <= first_in_series(b, series) <= b.len(),
        first_in_series(b, series) < b.len() ==> b[first_in_series(b, series)].series@ == series,
        forall|j: int| 0 <= j < first_in_series(b, series) ==> (#[trigger] b[j]).series@ != series,
    decreases b.len(),
{
    if b.len() > 0 && b[0].series@ != series {
        lemma_first_in_series(b.drop_first(), series);
        assert forall|j: int| 0 <= j < first_in_series(b, series) implies (#[trigger] b[j]).series@
            != series by {
            if j > 0 {
                assert(b[j] == b.drop_first()[j - 1]);
            }
        }
    }
}

/// The pairs that share a series: each an invocation of `a` and the first of `b` in its series,
/// in `a`'s order, every invocation of `a` that shares a series among them.
proof fn lemma_shared_pairs(a: Seq<Labels>, b: Seq<Labels>)
    requires
        a.len() <= usize::MAX,
        b.len() <= usize::MAX,
    ensures
        shared_pairs(a, b).len() <= a.len(),
        forall|k: int|
            0 <= k < shared_pairs(a, b).len() ==> {
                let (i, j) = #[trigger] shared_pairs(a, b)[k];
                &&& i < a.len() && j < b.len()
                &&& b[j as int].series@ == a[i as int].series@
                &&& forall|m: int| 0 <= m < j ==> (#[trigger] b[m]).series@ != a[i as int].series@
            },
        forall|k1: int, k2: int|
            0 <= k1 < k2 < shared_pairs(a, b).len() ==> (#[trigger] shared_pairs(a, b)[k1]).0
                < (#[trigger] shared_pairs(a, b)[k2]).0,
        forall|i: int|
            0 <= i < a.len() ==> (#[trigger] shares_series(a, b, i) <==> exists|k: int|
                0 <= k < shared_pairs(a, b).len() && (#[trigger] shared_pairs(a, b)[k]).0 == i),
    decreases a.len(),
{
    if a.len() > 0 {
        let a1 = a.drop_last();
        lemma_shared_pairs(a1, b);
        let rest = shared_pairs(a1, b);
        let p = shared_pairs(a, b);
        let n = (a.len() - 1) as int;
        let s = a.last().series@;
        lemma_first_in_series(b, s);
        let j = first_in_series(b, s);
        assert(forall|i: int| 0 <= i < a1.len() ==> a1[i] == a[i]);
        assert forall|k: int| 0 <= k < rest.len() implies p[k] == rest[k] by {}
        assert forall|i: int| 0 <= i < a1.len() implies #[trigger] shares_series(a, b, i)
            == shares_series(a1, b, i) by {
            assert(a1[i] == a[i]);
        }
        assert(shares_series(a, b, n) <==> j < b.len()) by {
            if shares_series(a, b, n) {
                let w = choose|w: int| 0 <= w < b.len() && (#[trigger] b[w]).series@ == a[n].series@;
                assert(a[n] == a.last());
                if j >= b.len() {
                    assert(b[w].series@ != s);
                }
            }
            if j < b.len() {
                assert(b[j].series@ == a[n].series@);
            }
        }
        assert forall|i: int| 0 <= i < a.len() implies (#[trigger] shares_series(a, b, i) <==> exists|k: int|
            0 <= k < p.len() && (#[trigger] p[k]).0 == i) by {
            if i < n {
                if shares_series(a1, b, i) {
                    let k = choose|k: int| 0 <= k < rest.len() && (#[trigger] rest[k]).0 == i;
                    assert(p[k] == rest[k]);
                }
                if exists|k: int| 0 <= k < p.len() && (#[trigger] p[k]).0 == i {
                    let k = choose|k: int| 0 <= k < p.len() && (#[trigger] p[k]).0 == i;
                    if k < rest.len() {
                        assert(p[k] == rest[k]);
                    } else {
                        assert(p[k].0 == n);
                    }
                }
            } else {
                if j < b.len() {
                    assert(p[rest.len() as int].0 == n);
                } else {
                    if exists|k: int| 0 <= k < p.len() && (#[trigger] p[k]).0 == i {
                        let k = choose|k: int| 0 <= k < p.len() && (#[trigger] p[k]).0 == i;
                        assert(p[k] == rest[k]);
                    }
                }
            }
        }
        assert forall|k: int| 0 <= k < p.len() implies {
            let (i, jj) = #[trigger] p[k];
            &&& i < a.len() && jj < b.len()
            &&& b[jj as int].series@ == a[i as int].series@
            &&& forall|m: int| 0 <= m < jj ==> (#[trigger] b[m]).series@ != a[i as int].series@
        } by {
            if k < rest.len() {
                assert(p[k] == rest[k]);
                assert(a1[rest[k].0 as int] == a[rest[k].0 as int]);
            } else {
                assert(a[n] == a.last());
            }
        }
    }
}

/// A series pairing needs two invocations of A sharing a series with B: with two or more (and
/// not one invocation a side) the comparison pairs each of them with the first of B in its
/// series, every such invocation of A paired, in A's order; with fewer it never pairs by series,
/// but by neighbours in time or by the groups whole. A side with nothing gives no pairing, and
/// one invocation a side is one pair.
pub proof fn a_series_pairing_needs_two_shared(a: Seq<Labels>, b: Seq<Labels>)
    requires
        a.len() <= usize::MAX,
        b.len() <= usize::MAX,
    ensures
        how_paired(a, b) is None <==> (a.len() == 0 || b.len() == 0),
        a.len() == 1 && b.len() == 1 ==> spec_pairing(a, b) == Some(
            (Pairing::OneEach, seq![(0usize, 0usize)]),
        ),
        a.len() > 0 && b.len() > 0 && !(a.len() == 1 && b.len() == 1) && two_share(a, b)
            ==> by_series(how_paired(a, b)),
        !two_share(a, b) ==> !by_series(how_paired(a, b)),
        by_series(how_paired(a, b)) ==> {
            let p = pairs_of(a, b);
            &&& how_paired(a, b) == Some(Pairing::Series(p.len() as usize))
            &&& p.len() >= 2
            &&& forall|k: int|
                0 <= k < p.len() ==> {
                    let (i, j) = #[trigger] p[k];
                    &&& i < a.len() && j < b.len()
                    &&& b[j as int].series@ == a[i as int].series@
                    &&& forall|m: int| 0 <= m < j ==> (#[trigger] b[m]).series@ != a[i as int].series@
                }
            &&& forall|k1: int, k2: int| 0 <= k1 < k2 < p.len() ==> (#[trigger] p[k1]).0 < (#[trigger] p[k2]).0
            &&& forall|i: int|
                0 <= i < a.len() && #[trigger] shares_series(a, b, i) ==> exists|k: int|
                    0 <= k < p.len() && (#[trigger] p[k]).0 == i
        },
        (how_paired(a, b) matches Some(Pairing::Groups(_, _))) ==> how_paired(a, b) == Some(
            Pairing::Groups(a.len() as usize, b.len() as usize),
        ) && pairs_of(a, b).len() == 0,
        (how_paired(a, b) matches Some(Pairing::Alternating(_))) ==> how_paired(a, b) == Some(
            Pairing::Alternating(pairs_of(a, b).len() as usize),
        ) && pairs_of(a, b).len() >= 2,
        (how_paired(a, b) matches Some(Pairing::Alternating(_))) ==> !two_share(a, b) && alternates(
            run_order(a, b),
        ) && run_order(a, b).len() >= 4,
        (how_paired(a, b) matches Some(Pairing::Groups(_, _))) ==> !two_share(a, b) && !(alternates(
            run_order(a, b),
        ) && run_order(a, b).len() >= 4),
        a.len() > 0 && b.len() > 0 && !(a.len() == 1 && b.len() == 1) && !two_share(a, b) && alternates(
            run_order(a, b),
        ) && run_order(a, b).len() >= 4 ==> (how_paired(a, b) matches Some(Pairing::Alternating(_))),
{
    lemma_shared_pairs(a, b);
    let p = shared_pairs(a, b);
    if two_share(a, b) {
        let (i1, i2) = choose|i1: int, i2: int|
            0 <= i1 < i2 < a.len() && #[trigger] shares_series(a, b, i1) && #[trigger] shares_series(a, b, i2);
        let k1 = choose|k: int| 0 <= k < p.len() && (#[trigger] p[k]).0 == i1;
        let k2 = choose|k: int| 0 <= k < p.len() && (#[trigger] p[k]).0 == i2;
        assert(k1 != k2);
        assert(p.len() >= 2);
    }
    if p.len() >= 2 {
        assert(p[0].0 < p[1].0);
        assert(shares_series(a, b, p[0].0 as int)) by {
            assert(b[p[0].1 as int].series@ == a[p[0].0 as int].series@);
        }
        assert(shares_series(a, b, p[1].0 as int)) by {
            assert(b[p[1].1 as int].series@ == a[p[1].0 as int].series@);
        }
        assert(two_share(a, b));
    }
}

/// The first invocation of `b` in `series`, `b.len()` when none is.
fn find_series(b: &Vec<Labels>, series: &str) -> (r: usize)
    ensures
        r == first_in_series(b@, series@),
        r <= b.len(),
{
    let mut j: usize = 0;
    assert(b@.skip(0) =~= b@);
    while j < b.len()
        invariant
            j <= b.len(),
            first_in_series(b@, series@) == j + first_in_series(b@.skip(j as int), series@),
        decreases b.len() - j,
    {
        assert(b@.skip(j as int)[0] == b@[j as int]);
        if str_eq(b[j].series.as_str(), series) {
            return j;
        }
        assert(b@.skip(j as int).drop_first() =~= b@.skip(j + 1));
        j = j + 1;
    }
    assert(b@.skip(j as int).len() == 0);
    j
}

/// Whether `x` ran before `y`.
fn runs_before(a: &Vec<Labels>, b: &Vec<Labels>, x: Place, y: Place) -> (r: bool)
    requires
        if x.1 { x.0 < b.len() } else { x.0 < a.len() },
        if y.1 { y.0 < b.len() } else { y.0 < a.len() },
    ensures
        r == ran_before(a@, b@, x, y),
{
    let tx = if x.1 { b[x.0].t_start.as_str() } else { a[x.0].t_start.as_str() };
    let ty = if y.1 { b[y.0].t_start.as_str() } else { a[y.0].t_start.as_str() };
    less_text(tx, ty) || (str_eq(tx, ty) && ((!x.1 && y.1) || (x.1 == y.1 && x.0 < y.0)))
}

/// Put `x` in the run-ordered `q`, where it ran.
fn insert_place(a: &Vec<Labels>, b: &Vec<Labels>, q: &mut Vec<Place>, x: Place)
    requires
        in_run_order(a@, b@, old(q)@),
        old(q)@.to_set().subset_of(places_of(a@, b@)),
        places_of(a@, b@).contains(x),
        !old(q)@.contains(x),
    ensures
        in_run_order(a@, b@, final(q)@),
        final(q)@.to_set() == old(q)@.to_set().insert(x),
{
    let ghost o = q@;
    assert forall|h: int| 0 <= h < o.len() implies (if (#[trigger] o[h]).1 {
        o[h].0 < b.len()
    } else {
        o[h].0 < a.len()
    }) by {
        assert(o.to_set().contains(o[h]));
    }
    let mut p: usize = 0;
    while p < q.len() && runs_before(a, b, q[p], x)
        invariant
            p <= q.len(),
            o == q@,
            o.to_set().subset_of(places_of(a@, b@)),
            places_of(a@, b@).contains(x),
            forall|h: int| 0 <= h < o.len() ==> (if (#[trigger] o[h]).1 {
                o[h].0 < b.len()
            } else {
                o[h].0 < a.len()
            }),
            forall|h: int| 0 <= h < p ==> ran_before(a@, b@, #[trigger] o[h], x),
        decreases q.len() - p,
    {
        assert(o.to_set().contains(o[p as int]));
        p = p + 1;
    }
    if p < q.len() {
        proof {
            assert(o.to_set().contains(o[p as int]));
            assert(o[p as int] != x);
            lemma_ran_before_total(a@, b@, o[p as int], x);
        }
    }
    q.insert(p, x);
    let ghost n = q@;
    assert(n =~= o.insert(p as int, x));
    assert forall|i: int, j: int| 0 <= i < j < n.len() implies ran_before(a@, b@, #[trigger] n[i], #[trigger] n[j]) by {
        if j < p {
        } else if j == p {
        } else if i < p {
            lemma_ran_before_transitive(a@, b@, o[i], x, o[p as int]);
            if j - 1 > p {
                lemma_ran_before_transitive(a@, b@, o[i], o[p as int], o[j - 1]);
            }
        } else if i == p {
            if j - 1 > p {
                lemma_ran_before_transitive(a@, b@, x, o[p as int], o[j - 1]);
            }
        } else {
            assert(n[i] == o[i - 1] && n[j] == o[j - 1]);
        }
    }
    assert forall|y: Place| n.to_set().contains(y) <==> o.to_set().insert(x).contains(y) by {
        if n.to_set().contains(y) {
            let k = choose|k: int| 0 <= k < n.len() && n[k] == y;
            if k < p {
                assert(o[k] == y);
            } else if k > p {
                assert(o[k - 1] == y);
            }
        }
        if o.to_set().contains(y) {
            let k = choose|k: int| 0 <= k < o.len() && o[k] == y;
            if k < p {
                assert(n[k] == y);
            } else {
                assert(n[k + 1] == y);
            }
        }
        if y == x {
            assert(n[p as int] == y);
        }
    }
    assert(n.to_set() =~= o.to_set().insert(x));
}

/// The sides' invocations in the order they ran.
fn ordered(a: &Vec<Labels>, b: &Vec<Labels>) -> (r: Vec<Place>)
    ensures
        r@ == run_order(a@, b@),
{
    let mut q: Vec<Place> = Vec::new();
    let mut i: usize = 0;
    assert(q@.to_set() =~= Set::<Place>::empty());
    while i < a.len()
        invariant
            i <= a.len(),
            in_run_order(a@, b@, q@),
            q@.to_set() == Set::new(|x: Place| !x.1 && x.0 < i),
        decreases a.len() - i,
    {
        assert(!q@.contains((i, false))) by {
            if q@.contains((i, false)) {
                assert(q@.to_set().contains((i, false)));
            }
        }
        insert_place(a, b, &mut q, (i, false));
        assert(q@.to_set() =~= Set::new(|x: Place| !x.1 && x.0 < i + 1));
        i = i + 1;
    }
    let mut j: usize = 0;
    assert(Set::new(|x: Place| !x.1 && x.0 < a.len()) =~= Set::new(|x: Place| if x.1 { x.0 < j } else { x.0 < a.len() }));
    while j < b.len()
        invariant
            j <= b.len(),
            in_run_order(a@, b@, q@),
            q@.to_set() == Set::new(|x: Place| if x.1 { x.0 < j } else { x.0 < a.len() }),
        decreases b.len() - j,
    {
        assert(!q@.contains((j, true))) by {
            if q@.contains((j, true)) {
                assert(q@.to_set().contains((j, true)));
            }
        }
        insert_place(a, b, &mut q, (j, true));
        assert(q@.to_set() =~= Set::new(|x: Place| if x.1 { x.0 < j + 1 } else { x.0 < a.len() }));
        j = j + 1;
    }
    assert(q@.to_set() =~= places_of(a@, b@));
    proof {
        let c = run_order(a@, b@);
        assert(in_run_order(a@, b@, c) && c.to_set() == places_of(a@, b@));
        lemma_run_order_unique(a@, b@, c, q@);
    }
    q
}

/// The two sides as neighbour pairs when their invocations alternate in time, A B A B or
/// B A B A, a trailing unpaired one dropped; `None` when they do not alternate or give fewer
/// than two pairs.
pub fn alternating(a: &Vec<Labels>, b: &Vec<Labels>) -> (r: Option<Vec<(usize, usize)>>)
    ensures
        match r {
            Some(p) => spec_alternating(a@, b@) == Some(p@),
            None => spec_alternating(a@, b@) is None,
        },
{
    let q = ordered(a, b);
    let mut k: usize = 0;
    while k < q.len() && k + 1 < q.len()
        invariant
            k <= q.len(),
            q@ == run_order(a@, b@),
            forall|m: int| 0 <= m < k ==> (#[trigger] q@[m]).1 != q@[m + 1].1,
        decreases q.len() - k,
    {
        if q[k].1 == q[k + 1].1 {
            assert(!alternates(q@)) by {
                assert(q@[k as int].1 == q@[k + 1].1);
            }
            return None;
        }
        k = k + 1;
    }
    let mut pairs: Vec<(usize, usize)> = Vec::new();
    let mut p: usize = 0;
    while p < q.len() / 2
        invariant
            p <= q.len() / 2,
            pairs@ == neighbour_pairs(q@).take(p as int),
        decreases q.len() / 2 - p,
    {
        let x = q[2 * p];
        let y = q[2 * p + 1];
        if x.1 {
            pairs.push((y.0, x.0));
        } else {
            pairs.push((x.0, y.0));
        }
        assert(pairs@ =~= neighbour_pairs(q@).take(p + 1));
        p = p + 1;
    }
    assert(neighbour_pairs(q@).take(p as int) =~= neighbour_pairs(q@));
    if pairs.len() >= 2 {
        Some(pairs)
    } else {
        None
    }
}

/// How B is set against A, and the pairs of invocations the comparison takes: one each when a
/// side has one, the pairs sharing a series when two or more do (a ladder of benches in one
/// invocation), neighbours in time when the sides alternate, and otherwise the two groups whole,
/// with no pairs. `None` when a side has nothing.
pub fn pairing(a: &Vec<Labels>, b: &Vec<Labels>) -> (r: Option<(Pairing, Vec<(usize, usize)>)>)
    ensures
        match r {
            Some((how, pairs)) => spec_pairing(a@, b@) == Some((how, pairs@)),
            None => spec_pairing(a@, b@) is None,
        },
        r matches Some((Pairing::Series(n), p)) ==> two_share(a@, b@) && n == p.len() && p.len() >= 2,
        !two_share(a@, b@) ==> !(r matches Some((Pairing::Series(_), _))),
        a.len() > 0 && b.len() > 0 && !(a.len() == 1 && b.len() == 1) && two_share(a@, b@) ==> (r matches Some(
            (Pairing::Series(_), _),
        )),
{
    proof {
        assert(a@.len() == a.len() && b@.len() == b.len());
        a_series_pairing_needs_two_shared(a@, b@);
    }
    if a.len() == 0 || b.len() == 0 {
        return None;
    }
    if a.len() == 1 && b.len() == 1 {
        let mut one: Vec<(usize, usize)> = Vec::new();
        one.push((0, 0));
        assert(one@ =~= seq![(0usize, 0usize)]);
        return Some((Pairing::OneEach, one));
    }
    let mut shared: Vec<(usize, usize)> = Vec::new();
    let mut i: usize = 0;
    while i < a.len()
        invariant
            i <= a.len(),
            shared@ == shared_pairs(a@.take(i as int), b@),
            shared.len() <= i,
        decreases a.len() - i,
    {
        let j = find_series(b, a[i].series.as_str());
        assert(a@.take(i + 1).drop_last() =~= a@.take(i as int));
        assert(a@.take(i + 1).last() == a@[i as int]);
        if j < b.len() {
            shared.push((i, j));
        }
        assert(shared@ =~= shared_pairs(a@.take(i + 1), b@));
        i = i + 1;
    }
    assert(a@.take(a.len() as int) =~= a@);
    if shared.len() >= 2 {
        let n = shared.len();
        return Some((Pairing::Series(n), shared));
    }
    match alternating(a, b) {
        Some(p) => {
            let n = p.len();
            Some((Pairing::Alternating(n), p))
        },
        None => Some((Pairing::Groups(a.len(), b.len()), Vec::new())),
    }
}

/// `a` sorts before `b`, key by key, as a vector of strings sorts.
pub open spec fn key_lt(a: Seq<Seq<char>>, b: Seq<Seq<char>>) -> bool
    decreases a.len(),
{
    if a.len() == 0 {
        b.len() > 0
    } else if b.len() == 0 {
        false
    } else if a[0] != b[0] {
        text_lt(a[0], b[0])
    } else {
        key_lt(a.drop_first(), b.drop_first())
    }
}

/// No key sorts before itself.
pub proof fn lemma_key_lt_irreflexive(a: Seq<Seq<char>>)
    ensures
        !key_lt(a, a),
    decreases a.len(),
{
    if a.len() > 0 {
        lemma_key_lt_irreflexive(a.drop_first());
    }
}

/// Sorting before is transitive.
pub proof fn lemma_key_lt_transitive(a: Seq<Seq<char>>, b: Seq<Seq<char>>, c: Seq<Seq<char>>)
    requires
        key_lt(a, b),
        key_lt(b, c),
    ensures
        key_lt(a, c),
    decreases a.len(),
{
    if a.len() > 0 && b.len() > 0 && c.len() > 0 {
        if a[0] != b[0] && b[0] != c[0] {
            lemma_text_lt_transitive(a[0], b[0], c[0]);
            if a[0] == c[0] {
                lemma_text_lt_irreflexive(a[0]);
            }
        } else if a[0] == b[0] && b[0] == c[0] {
            lemma_key_lt_transitive(a.drop_first(), b.drop_first(), c.drop_first());
        }
    }
}

/// Of two different keys, one sorts before the other.
pub proof fn lemma_key_lt_total(a: Seq<Seq<char>>, b: Seq<Seq<char>>)
    requires
        a != b,
    ensures
        key_lt(a, b) || key_lt(b, a),
    decreases a.len(),
{
    if a.len() > 0 && b.len() > 0 {
        if a[0] != b[0] {
            lemma_text_lt_total(a[0], b[0]);
        } else {
            if a.drop_first() == b.drop_first() {
                assert(a =~= seq![a[0]] + a.drop_first());
                assert(b =~= seq![b[0]] + b.drop_first());
            }
            lemma_key_lt_total(a.drop_first(), b.drop_first());
        }
    } else if a.len() == 0 && b.len() == 0 {
        assert(a =~= b);
    }
}

/// Keys in strictly ascending order, so none twice.
pub open spec fn keys_sorted(q: Seq<Seq<Seq<char>>>) -> bool {
    forall|i: int, j: int| 0 <= i < j < q.len() ==> key_lt(#[trigger] q[i], #[trigger] q[j])
}

/// The keys of a set, in ascending order.
pub open spec fn sorted_keys_of(s: Set<Seq<Seq<char>>>) -> Seq<Seq<Seq<char>>> {
    choose|q: Seq<Seq<Seq<char>>>| keys_sorted(q) && q.to_set() == s
}

/// Two ascending sequences of the same keys are one sequence.
pub proof fn lemma_keys_sorted_unique(p: Seq<Seq<Seq<char>>>, q: Seq<Seq<Seq<char>>>)
    requires
        keys_sorted(p),
        keys_sorted(q),
        p.to_set() == q.to_set(),
    ensures
        p == q,
    decreases p.len(),
{
    if p.len() == 0 || q.len() == 0 {
        if p.len() > 0 {
            assert(p.to_set().contains(p[0]));
        }
        if q.len() > 0 {
            assert(q.to_set().contains(q[0]));
        }
        assert(p =~= q);
    } else {
        let x = p[0];
        let y = q[0];
        assert(p.to_set().contains(x));
        assert(q.to_set().contains(y));
        let j = choose|j: int| 0 <= j < q.len() && q[j] == x;
        let i = choose|i: int| 0 <= i < p.len() && p[i] == y;
        if j > 0 && i > 0 {
            assert(key_lt(q[0], q[j]));
            assert(key_lt(p[0], p[i]));
            lemma_key_lt_transitive(x, y, x);
            lemma_key_lt_irreflexive(x);
        }
        assert(x == y);
        let p1 = p.drop_first();
        let q1 = q.drop_first();
        assert forall|z: Seq<Seq<char>>| p1.to_set().contains(z) implies q1.to_set().contains(z) by {
            let k = choose|k: int| 0 <= k < p1.len() && p1[k] == z;
            assert(p.to_set().contains(z));
            let m = choose|m: int| 0 <= m < q.len() && q[m] == z;
            assert(key_lt(p[0], p[k + 1]));
            if m == 0 {
                lemma_key_lt_irreflexive(x);
            }
            assert(q1[m - 1] == z);
        }
        assert forall|z: Seq<Seq<char>>| q1.to_set().contains(z) implies p1.to_set().contains(z) by {
            let k = choose|k: int| 0 <= k < q1.len() && q1[k] == z;
            assert(q.to_set().contains(z));
            let m = choose|m: int| 0 <= m < p.len() && p[m] == z;
            assert(key_lt(q[0], q[k + 1]));
            if m == 0 {
                lemma_key_lt_irreflexive(x);
            }
            assert(p1[m - 1] == z);
        }
        assert(p1.to_set() =~= q1.to_set());
        lemma_keys_sorted_unique(p1, q1);
        assert(p =~= seq![x] + p1);
        assert(q =~= seq![y] + q1);
    }
}

/// Whether `a` sorts before `b`, key by key.
fn less_key(a: &Vec<String>, b: &Vec<String>) -> (r: bool)
    ensures
        r == key_lt(a.deep_view(), b.deep_view()),
{
    let ghost da = a.deep_view();
    let ghost db = b.deep_view();
    assert(da.skip(0) =~= da);
    assert(db.skip(0) =~= db);
    let mut i: usize = 0;
    while i < a.len() && i < b.len() && str_eq(a[i].as_str(), b[i].as_str())
        invariant
            i <= a.len(),
            i <= b.len(),
            da == a.deep_view(),
            db == b.deep_view(),
            key_lt(da, db) == key_lt(da.skip(i as int), db.skip(i as int)),
        decreases a.len() - i,
    {
        assert(da.skip(i as int).drop_first() =~= da.skip(i + 1));
        assert(db.skip(i as int).drop_first() =~= db.skip(i + 1));
        assert(da.skip(i as int)[0] == da[i as int]);
        assert(db.skip(i as int)[0] == db[i as int]);
        i = i + 1;
    }
    if i == a.len() {
        i < b.len()
    } else if i == b.len() {
        false
    } else {
        assert(da.skip(i as int)[0] == da[i as int]);
        assert(db.skip(i as int)[0] == db[i as int]);
        less_text(a[i].as_str(), b[i].as_str())
    }
}

/// A fresh copy of a list of strings.
fn copy_texts(v: &Vec<String>) -> (r: Vec<String>)
    ensures
        r.deep_view() == v.deep_view(),
{
    let mut r: Vec<String> = Vec::new();
    let mut i: usize = 0;
    while i < v.len()
        invariant
            i <= v.len(),
            r.deep_view() == v.deep_view().take(i as int),
        decreases v.len() - i,
    {
        let ghost before = r.deep_view();
        let c = v[i].clone();
        r.push(c);
        assert(r.deep_view() =~= before.push(c@));
        assert(v.deep_view()[i as int] == v@[i as int]@);
        assert(v.deep_view().take(i + 1) =~= v.deep_view().take(i as int).push(v.deep_view()[i as int]));
        i = i + 1;
    }
    assert(v.deep_view().take(v.len() as int) =~= v.deep_view());
    r
}

/// The keys of a list of key vectors.
pub open spec fn key_views(keys: Seq<Vec<String>>) -> Seq<Seq<Seq<char>>> {
    keys.map_values(|k: Vec<String>| k.deep_view())
}

/// Add `x` to the ascending keys `v`, where it sorts, unless it is there already.
fn insert_key(v: &mut Vec<Vec<String>>, x: Vec<String>)
    requires
        keys_sorted(key_views(old(v)@)),
    ensures
        keys_sorted(key_views(final(v)@)),
        key_views(final(v)@).to_set() == key_views(old(v)@).to_set().insert(x.deep_view()),
{
    let ghost o = key_views(v@);
    let ghost xv = x.deep_view();
    let mut p: usize = 0;
    while p < v.len() && less_key(&v[p], &x)
        invariant
            p <= v.len(),
            o == key_views(v@),
            xv == x.deep_view(),
            forall|h: int| 0 <= h < p ==> key_lt(#[trigger] o[h], xv),
        decreases v.len() - p,
    {
        p = p + 1;
    }
    if p < v.len() {
        if texts_eq(&v[p], &x) {
            assert(o.to_set().insert(xv) =~= o.to_set()) by {
                assert(o[p as int] == xv);
                assert(o.to_set().contains(xv));
            }
            return;
        }
        proof {
            lemma_key_lt_total(o[p as int], xv);
        }
    }
    v.insert(p, x);
    let ghost n = key_views(v@);
    assert(n =~= o.insert(p as int, xv));
    assert forall|i: int, j: int| 0 <= i < j < n.len() implies key_lt(#[trigger] n[i], #[trigger] n[j]) by {
        if j < p {
        } else if j == p {
        } else if i < p {
            lemma_key_lt_transitive(o[i], xv, o[p as int]);
            if j - 1 > p {
                lemma_key_lt_transitive(o[i], o[p as int], o[j - 1]);
            }
        } else if i == p {
            if j - 1 > p {
                lemma_key_lt_transitive(xv, o[p as int], o[j - 1]);
            }
        } else {
            assert(n[i] == o[i - 1] && n[j] == o[j - 1]);
        }
    }
    assert forall|y: Seq<Seq<char>>| n.to_set().contains(y) <==> o.to_set().insert(xv).contains(y) by {
        if n.to_set().contains(y) {
            let k = choose|k: int| 0 <= k < n.len() && n[k] == y;
            if k < p {
                assert(o[k] == y);
            } else if k > p {
                assert(o[k - 1] == y);
            }
        }
        if o.to_set().contains(y) {
            let k = choose|k: int| 0 <= k < o.len() && o[k] == y;
            if k < p {
                assert(n[k] == y);
            } else {
                assert(n[k + 1] == y);
            }
        }
        if y == xv {
            assert(n[p as int] == y);
        }
    }
    assert(n.to_set() =~= o.to_set().insert(xv));
}

/// An invocation's key under dimensions `dims`: its value of each, in their order.
pub open spec fn dims_key(l: Labels, dims: Seq<Seq<char>>) -> Seq<Seq<char>> {
    Seq::new(dims.len(), |d: int| spec_value(l, dims[d]))
}

/// The indices of the first `n` invocations whose key is `k`, in order.
pub open spec fn members(invs: Seq<Labels>, dims: Seq<Seq<char>>, k: Seq<Seq<char>>, n: int) -> Seq<usize>
    decreases n,
{
    if n <= 0 {
        Seq::empty()
    } else {
        let rest = members(invs, dims, k, n - 1);
        if dims_key(invs[n - 1], dims) == k {
            rest.push((n - 1) as usize)
        } else {
            rest
        }
    }
}

/// The keys the invocations hold under `dims`.
pub open spec fn group_keys(invs: Seq<Labels>, dims: Seq<Seq<char>>) -> Set<Seq<Seq<char>>> {
    Set::new(|k: Seq<Seq<char>>| exists|i: int| 0 <= i < invs.len() && dims_key(#[trigger] invs[i], dims) == k)
}

/// An invocation's values of `dims`, in their order.
fn key_of(l: &Labels, dims: &Vec<String>) -> (r: Vec<String>)
    ensures
        r.deep_view() == dims_key(*l, dims.deep_view()),
{
    let mut r: Vec<String> = Vec::new();
    let mut d: usize = 0;
    while d < dims.len()
        invariant
            d <= dims.len(),
            r.deep_view() == dims_key(*l, dims.deep_view()).take(d as int),
        decreases dims.len() - d,
    {
        let v = value(l, dims[d].as_str());
        let ghost before = r.deep_view();
        assert(dims.deep_view()[d as int] == dims@[d as int]@);
        r.push(v);
        assert(r.deep_view() =~= before.push(v@));
        assert(r.deep_view() =~= dims_key(*l, dims.deep_view()).take(d + 1));
        d = d + 1;
    }
    assert(dims_key(*l, dims.deep_view()).take(dims.len() as int) =~= dims_key(*l, dims.deep_view()));
    r
}

/// The invocations grouped by their values of `dims`: the groups in key order, each its key and
/// the indices of its invocations in session order.
pub fn groups(invs: &Vec<Labels>, dims: &Vec<String>) -> (r: Vec<(Vec<String>, Vec<usize>)>)
    ensures
        r@.map_values(|g: (Vec<String>, Vec<usize>)| g.0.deep_view()) == sorted_keys_of(
            group_keys(invs@, dims.deep_view()),
        ),
        forall|g: int|
            0 <= g < r.len() ==> (#[trigger] r@[g]).1@ == members(
                invs@,
                dims.deep_view(),
                r@[g].0.deep_view(),
                invs.len() as int,
            ),
{
    let ghost ds = dims.deep_view();
    let mut keys: Vec<Vec<String>> = Vec::new();
    let mut all: Vec<Vec<String>> = Vec::new();
    let mut i: usize = 0;
    assert(key_views(keys@).to_set() =~= Set::<Seq<Seq<char>>>::empty());
    while i < invs.len()
        invariant
            i <= invs.len(),
            ds == dims.deep_view(),
            keys_sorted(key_views(keys@)),
            key_views(keys@).to_set() == group_keys(invs@.take(i as int), ds),
            all.len() == i,
            forall|j: int| 0 <= j < i ==> (#[trigger] all@[j]).deep_view() == dims_key(invs@[j], ds),
        decreases invs.len() - i,
    {
        let k = key_of(&invs[i], dims);
        let kc = copy_texts(&k);
        let ghost before = key_views(keys@).to_set();
        insert_key(&mut keys, k);
        all.push(kc);
        assert(group_keys(invs@.take(i + 1), ds) =~= before.insert(dims_key(invs@[i as int], ds))) by {
            let t = invs@.take(i + 1);
            assert(t[i as int] == invs@[i as int]);
            assert forall|x: Seq<Seq<char>>| #[trigger] group_keys(t, ds).contains(x) implies before.insert(dims_key(invs@[i as int], ds)).contains(x) by {
                let m = choose|m: int| 0 <= m < t.len() && dims_key(#[trigger] t[m], ds) == x;
                if m < i {
                    assert(invs@.take(i as int)[m] == t[m]);
                    assert(group_keys(invs@.take(i as int), ds).contains(x));
                }
            }
            assert forall|x: Seq<Seq<char>>| before.contains(x) implies #[trigger] group_keys(t, ds).contains(x) by {
                let m = choose|m: int| 0 <= m < i && dims_key(#[trigger] invs@.take(i as int)[m], ds) == x;
                assert(t[m] == invs@.take(i as int)[m]);
            }
            assert(group_keys(t, ds).contains(dims_key(t[i as int], ds)));
        }
        i = i + 1;
    }
    assert(invs@.take(invs.len() as int) =~= invs@);
    proof {
        let c = sorted_keys_of(group_keys(invs@, ds));
        assert(keys_sorted(c) && c.to_set() == group_keys(invs@, ds));
        lemma_keys_sorted_unique(c, key_views(keys@));
    }
    let ghost kv = key_views(keys@);
    let mut out: Vec<(Vec<String>, Vec<usize>)> = Vec::new();
    let mut g: usize = 0;
    while g < keys.len()
        invariant
            g <= keys.len(),
            ds == dims.deep_view(),
            kv == key_views(keys@),
            all.len() == invs.len(),
            forall|j: int| 0 <= j < invs.len() ==> (#[trigger] all@[j]).deep_view() == dims_key(invs@[j], ds),
            out.len() == g,
            forall|h: int| 0 <= h < g ==> (#[trigger] out@[h]).0.deep_view() == kv[h],
            forall|h: int| 0 <= h < g ==> (#[trigger] out@[h]).1@ == members(invs@, ds, kv[h], invs.len() as int),
        decreases keys.len() - g,
    {
        let mut m: Vec<usize> = Vec::new();
        let mut j: usize = 0;
        assert(kv[g as int] == keys@[g as int].deep_view());
        while j < invs.len()
            invariant
                j <= invs.len(),
                all.len() == invs.len(),
                forall|q: int| 0 <= q < invs.len() ==> (#[trigger] all@[q]).deep_view() == dims_key(invs@[q], ds),
                kv[g as int] == keys@[g as int].deep_view(),
                g < keys.len(),
                m@ == members(invs@, ds, kv[g as int], j as int),
            decreases invs.len() - j,
        {
            if texts_eq(&all[j], &keys[g]) {
                m.push(j);
            }
            j = j + 1;
        }
        let key = copy_texts(&keys[g]);
        out.push((key, m));
        g = g + 1;
    }
    assert(out@.map_values(|g: (Vec<String>, Vec<usize>)| g.0.deep_view()) =~= kv);
    out
}

/// The invocation a run belongs to: its series and bench.
pub open spec fn run_key(l: Labels) -> Seq<Seq<char>> {
    seq![l.series@, l.bench@]
}

/// The invocations the runs belong to.
pub open spec fn run_keys(runs: Seq<Labels>) -> Set<Seq<Seq<char>>> {
    Set::new(|k: Seq<Seq<char>>| exists|i: int| 0 <= i < runs.len() && run_key(#[trigger] runs[i]) == k)
}

/// The indices of the first `n` runs of invocation `k`, in the order they were read.
pub open spec fn runs_of(runs: Seq<Labels>, k: Seq<Seq<char>>, n: int) -> Seq<usize>
    decreases n,
{
    if n <= 0 {
        Seq::empty()
    } else {
        let rest = runs_of(runs, k, n - 1);
        if run_key(runs[n - 1]) == k {
            rest.push((n - 1) as usize)
        } else {
            rest
        }
    }
}

/// Run `i` comes before run `j`: a lower run number, or the same number read earlier.
pub open spec fn run_lt(nums: Seq<u64>, i: usize, j: usize) -> bool {
    nums[i as int] < nums[j as int] || (nums[i as int] == nums[j as int] && i < j)
}

/// Runs in run-number order, none twice.
pub open spec fn in_number_order(nums: Seq<u64>, q: Seq<usize>) -> bool {
    forall|i: int, j: int| 0 <= i < j < q.len() ==> run_lt(nums, #[trigger] q[i], #[trigger] q[j])
}

/// A set of runs in run-number order, ties in the order they were read.
pub open spec fn by_number(nums: Seq<u64>, s: Set<usize>) -> Seq<usize> {
    choose|q: Seq<usize>| in_number_order(nums, q) && q.to_set() == s
}

/// Two sequences of the same runs, each in run-number order, are one sequence.
pub proof fn lemma_number_order_unique(nums: Seq<u64>, p: Seq<usize>, q: Seq<usize>)
    requires
        in_number_order(nums, p),
        in_number_order(nums, q),
        p.to_set() == q.to_set(),
    ensures
        p == q,
    decreases p.len(),
{
    if p.len() == 0 || q.len() == 0 {
        if p.len() > 0 {
            assert(p.to_set().contains(p[0]));
        }
        if q.len() > 0 {
            assert(q.to_set().contains(q[0]));
        }
        assert(p =~= q);
    } else {
        let x = p[0];
        let y = q[0];
        assert(p.to_set().contains(x));
        assert(q.to_set().contains(y));
        let j = choose|j: int| 0 <= j < q.len() && q[j] == x;
        let i = choose|i: int| 0 <= i < p.len() && p[i] == y;
        if j > 0 && i > 0 {
            assert(run_lt(nums, q[0], q[j]));
            assert(run_lt(nums, p[0], p[i]));
        }
        assert(x == y);
        let p1 = p.drop_first();
        let q1 = q.drop_first();
        assert forall|z: usize| p1.to_set().contains(z) implies q1.to_set().contains(z) by {
            let k = choose|k: int| 0 <= k < p1.len() && p1[k] == z;
            assert(p.to_set().contains(z));
            let m = choose|m: int| 0 <= m < q.len() && q[m] == z;
            assert(run_lt(nums, p[0], p[k + 1]));
            assert(m != 0);
            assert(q1[m - 1] == z);
        }
        assert forall|z: usize| q1.to_set().contains(z) implies p1.to_set().contains(z) by {
            let k = choose|k: int| 0 <= k < q1.len() && q1[k] == z;
            assert(q.to_set().contains(z));
            let m = choose|m: int| 0 <= m < p.len() && p[m] == z;
            assert(run_lt(nums, q[0], q[k + 1]));
            assert(m != 0);
            assert(p1[m - 1] == z);
        }
        assert(p1.to_set() =~= q1.to_set());
        lemma_number_order_unique(nums, p1, q1);
        assert(p =~= seq![x] + p1);
        assert(q =~= seq![y] + q1);
    }
}

/// Pairs of strings as texts.
pub open spec fn pair_views(v: Seq<(String, String)>) -> Seq<(Seq<char>, Seq<char>)> {
    v.map_values(|p: (String, String)| (p.0@, p.1@))
}

/// A fresh copy of a list of string pairs.
fn copy_pairs(v: &Vec<(String, String)>) -> (r: Vec<(String, String)>)
    ensures
        pair_views(r@) == pair_views(v@),
{
    let mut r: Vec<(String, String)> = Vec::new();
    let mut i: usize = 0;
    while i < v.len()
        invariant
            i <= v.len(),
            pair_views(r@) == pair_views(v@.take(i as int)),
        decreases v.len() - i,
    {
        let a = v[i].0.clone();
        let b = v[i].1.clone();
        let ghost before = r@;
        r.push((a, b));
        assert(r@ =~= before.push((a, b)));
        assert(v@.take(i + 1) =~= v@.take(i as int).push(v@[i as int]));
        assert(pair_views(r@) =~= pair_views(before).push((a@, b@)));
        assert(pair_views(v@.take(i + 1)) =~= pair_views(v@.take(i as int)).push((v@[i as int].0@, v@[i as int].1@)));
        i = i + 1;
    }
    assert(v@.take(v.len() as int) =~= v@);
    r
}

/// An invocation's labels: the first of its runs by number gives them, but for the file, which
/// is the one its first run was read from.
pub open spec fn invocation_labels(l: Labels, first: Labels, read_first: Labels) -> bool {
    &&& l.series@ == first.series@
    &&& l.bench@ == first.bench@
    &&& l.host@ == first.host@
    &&& l.file@ == read_first.file@
    &&& pair_views(l.tags@) == pair_views(first.tags@)
    &&& l.t_start@ == first.t_start@
    &&& pair_views(l.params@) == pair_views(first.params@)
}

/// Put run `x` in the run-number-ordered `q`, where it goes.
pub(crate) fn insert_run(nums: &Vec<u64>, q: &mut Vec<usize>, x: usize)
    requires
        x < nums.len(),
        forall|h: int| 0 <= h < old(q)@.len() ==> (#[trigger] old(q)@[h]) < nums.len(),
        in_number_order(nums@, old(q)@),
        !old(q)@.contains(x),
    ensures
        forall|h: int| 0 <= h < final(q)@.len() ==> (#[trigger] final(q)@[h]) < nums.len(),
        in_number_order(nums@, final(q)@),
        final(q)@.to_set() == old(q)@.to_set().insert(x),
{
    let ghost o = q@;
    let mut p: usize = 0;
    while p < q.len() && (nums[q[p]] < nums[x] || (nums[q[p]] == nums[x] && q[p] < x))
        invariant
            p <= q.len(),
            o == q@,
            x < nums.len(),
            forall|h: int| 0 <= h < o.len() ==> (#[trigger] o[h]) < nums.len(),
            forall|h: int| 0 <= h < p ==> run_lt(nums@, #[trigger] o[h], x),
        decreases q.len() - p,
    {
        p = p + 1;
    }
    if p < q.len() {
        assert(o[p as int] != x);
    }
    q.insert(p, x);
    let ghost n = q@;
    assert(n =~= o.insert(p as int, x));
    assert forall|i: int, j: int| 0 <= i < j < n.len() implies run_lt(nums@, #[trigger] n[i], #[trigger] n[j]) by {
        if i < p && j > p {
            assert(n[j] == o[j - 1]);
            if j - 1 > p {
                assert(run_lt(nums@, o[p as int], o[j - 1]));
            }
        } else if i == p && j > p + 1 {
            assert(run_lt(nums@, o[p as int], o[j - 1]));
        } else if i > p {
            assert(n[i] == o[i - 1] && n[j] == o[j - 1]);
        }
    }
    assert forall|y: usize| n.to_set().contains(y) <==> o.to_set().insert(x).contains(y) by {
        if n.to_set().contains(y) {
            let k = choose|k: int| 0 <= k < n.len() && n[k] == y;
            if k < p {
                assert(o[k] == y);
            } else if k > p {
                assert(o[k - 1] == y);
            }
        }
        if o.to_set().contains(y) {
            let k = choose|k: int| 0 <= k < o.len() && o[k] == y;
            if k < p {
                assert(n[k] == y);
            } else {
                assert(n[k + 1] == y);
            }
        }
        if y == x {
            assert(n[p as int] == y);
        }
    }
    assert(n.to_set() =~= o.to_set().insert(x));
}

/// The runs gathered into invocations, a series' runs of one bench each: the invocations in
/// session order, which is series then bench, each with its labels and its runs' indices in run
/// order. `numbers` are the runs' numbers, by index.
pub fn invocations(runs: &Vec<Labels>, numbers: &Vec<u64>) -> (r: Vec<(Labels, Vec<usize>)>)
    requires
        numbers.len() == runs.len(),
    ensures
        r@.map_values(|x: (Labels, Vec<usize>)| run_key(x.0)) == sorted_keys_of(run_keys(runs@)),
        forall|g: int|
            0 <= g < r.len() ==> (#[trigger] r@[g]).1@ == by_number(
                numbers@,
                runs_of(runs@, run_key(r@[g].0), runs.len() as int).to_set(),
            ),
        forall|g: int|
            0 <= g < r.len() ==> r@[g].1.len() > 0 && invocation_labels(
                (#[trigger] r@[g]).0,
                runs@[r@[g].1@[0] as int],
                runs@[runs_of(runs@, run_key(r@[g].0), runs.len() as int)[0] as int],
            ),
{
    let mut keys: Vec<Vec<String>> = Vec::new();
    let mut i: usize = 0;
    assert(key_views(keys@).to_set() =~= Set::<Seq<Seq<char>>>::empty());
    while i < runs.len()
        invariant
            i <= runs.len(),
            keys_sorted(key_views(keys@)),
            key_views(keys@).to_set() == run_keys(runs@.take(i as int)),
        decreases runs.len() - i,
    {
        let mut k: Vec<String> = Vec::new();
        k.push(runs[i].series.clone());
        k.push(runs[i].bench.clone());
        assert(k.deep_view() =~= run_key(runs@[i as int]));
        let ghost before = key_views(keys@).to_set();
        insert_key(&mut keys, k);
        assert(run_keys(runs@.take(i + 1)) =~= before.insert(run_key(runs@[i as int]))) by {
            let t = runs@.take(i + 1);
            assert(t[i as int] == runs@[i as int]);
            assert forall|x: Seq<Seq<char>>| #[trigger] run_keys(t).contains(x) implies before.insert(run_key(runs@[i as int])).contains(x) by {
                let m = choose|m: int| 0 <= m < t.len() && run_key(#[trigger] t[m]) == x;
                if m < i {
                    assert(runs@.take(i as int)[m] == t[m]);
                    assert(run_keys(runs@.take(i as int)).contains(x));
                }
            }
            assert forall|x: Seq<Seq<char>>| before.contains(x) implies #[trigger] run_keys(t).contains(x) by {
                let m = choose|m: int| 0 <= m < i && run_key(#[trigger] runs@.take(i as int)[m]) == x;
                assert(t[m] == runs@.take(i as int)[m]);
            }
            assert(run_keys(t).contains(run_key(t[i as int])));
        }
        i = i + 1;
    }
    assert(runs@.take(runs.len() as int) =~= runs@);
    proof {
        let c = sorted_keys_of(run_keys(runs@));
        assert(keys_sorted(c) && c.to_set() == run_keys(runs@));
        lemma_keys_sorted_unique(c, key_views(keys@));
    }
    let ghost kv = key_views(keys@);
    let mut out: Vec<(Labels, Vec<usize>)> = Vec::new();
    let mut g: usize = 0;
    while g < keys.len()
        invariant
            g <= keys.len(),
            numbers.len() == runs.len(),
            kv == key_views(keys@),
            kv.to_set() == run_keys(runs@),
            out.len() == g,
            forall|h: int| 0 <= h < g ==> run_key((#[trigger] out@[h]).0) == kv[h],
            forall|h: int|
                0 <= h < g ==> (#[trigger] out@[h]).1@ == by_number(
                    numbers@,
                    runs_of(runs@, kv[h], runs.len() as int).to_set(),
                ),
            forall|h: int|
                0 <= h < g ==> out@[h].1.len() > 0 && invocation_labels(
                    (#[trigger] out@[h]).0,
                    runs@[out@[h].1@[0] as int],
                    runs@[runs_of(runs@, kv[h], runs.len() as int)[0] as int],
                ),
        decreases keys.len() - g,
    {
        let ghost k = kv[g as int];
        assert(k == keys@[g as int].deep_view());
        let mut read: Vec<usize> = Vec::new();
        let mut q: Vec<usize> = Vec::new();
        let mut j: usize = 0;
        while j < runs.len()
            invariant
                j <= runs.len(),
                numbers.len() == runs.len(),
                g < keys.len(),
                k == keys@[g as int].deep_view(),
                read@ == runs_of(runs@, k, j as int),
                forall|h: int| 0 <= h < q@.len() ==> (#[trigger] q@[h]) < j,
                in_number_order(numbers@, q@),
                q@.to_set() == read@.to_set(),
            decreases runs.len() - j,
        {
            let mut rk: Vec<String> = Vec::new();
            rk.push(runs[j].series.clone());
            rk.push(runs[j].bench.clone());
            assert(rk.deep_view() =~= run_key(runs@[j as int]));
            if texts_eq(&rk, &keys[g]) {
                assert(!q@.contains(j)) by {
                    if q@.contains(j) {
                        let h = choose|h: int| 0 <= h < q@.len() && q@[h] == j;
                    }
                }
                let ghost rb = read@;
                insert_run(numbers, &mut q, j);
                read.push(j);
                proof {
                    rb.lemma_push_to_set_commute(j);
                }
            }
            assert forall|h: int| 0 <= h < q@.len() implies (#[trigger] q@[h]) < j + 1 by {
                assert(q@.to_set().contains(q@[h]));
                assert(read@.to_set().contains(q@[h]));
                let m = choose|m: int| 0 <= m < read@.len() && read@[m] == q@[h];
                lemma_runs_of_below(runs@, k, j + 1, m);
            }
            j = j + 1;
        }
        proof {
            let c = by_number(numbers@, read@.to_set());
            assert(in_number_order(numbers@, c) && c.to_set() == read@.to_set());
            lemma_number_order_unique(numbers@, c, q@);
        }
        assert(kv.to_set().contains(k));
        assert(read@.len() > 0) by {
            lemma_runs_of_key(runs@, k);
        }
        assert(q@.len() > 0) by {
            assert(read@.to_set().contains(read@[0]));
        }
        let first = q[0];
        let from = read[0];
        proof {
            lemma_runs_of_below(runs@, k, runs.len() as int, 0);
        }
        let l = &runs[first];
        let labels = Labels {
            series: l.series.clone(),
            bench: l.bench.clone(),
            host: l.host.clone(),
            file: runs[from].file.clone(),
            tags: copy_pairs(&l.tags),
            t_start: l.t_start.clone(),
            params: copy_pairs(&l.params),
        };
        proof {
            assert(q@.to_set().contains(first));
            assert(read@.to_set().contains(first));
            let m = choose|m: int| 0 <= m < read@.len() && read@[m] == first;
            lemma_runs_of_member(runs@, k, runs.len() as int, m);
            assert(run_key(labels) =~= run_key(runs@[first as int]));
        }
        out.push((labels, q));
        g = g + 1;
    }
    assert(out@.map_values(|x: (Labels, Vec<usize>)| run_key(x.0)) =~= kv);
    out
}

/// The runs of an invocation are runs read before `n`.
pub proof fn lemma_runs_of_below(runs: Seq<Labels>, k: Seq<Seq<char>>, n: int, m: int)
    requires
        0 <= m < runs_of(runs, k, n).len(),
    ensures
        runs_of(runs, k, n)[m] < n,
    decreases n,
{
    if n > 0 {
        let rest = runs_of(runs, k, n - 1);
        if m < rest.len() {
            lemma_runs_of_below(runs, k, n - 1, m);
        }
    }
}

/// Each run listed for an invocation belongs to it.
pub proof fn lemma_runs_of_member(runs: Seq<Labels>, k: Seq<Seq<char>>, n: int, m: int)
    requires
        0 <= m < runs_of(runs, k, n).len(),
        n <= runs.len() <= usize::MAX,
    ensures
        run_key(runs[runs_of(runs, k, n)[m] as int]) == k,
    decreases n,
{
    if n > 0 {
        let rest = runs_of(runs, k, n - 1);
        if m < rest.len() {
            lemma_runs_of_member(runs, k, n - 1, m);
            if run_key(runs[n - 1]) == k {
                assert(runs_of(runs, k, n)[m] == rest[m]);
            }
        } else {
            assert(run_key(runs[n - 1]) == k);
            assert(runs_of(runs, k, n)[m] == (n - 1) as usize);
        }
    }
}

/// An invocation the runs belong to has a run.
pub proof fn lemma_runs_of_key(runs: Seq<Labels>, k: Seq<Seq<char>>)
    requires
        run_keys(runs).contains(k),
    ensures
        runs_of(runs, k, runs.len() as int).len() > 0,
{
    let i = choose|i: int| 0 <= i < runs.len() && run_key(#[trigger] runs[i]) == k;
    lemma_runs_of_grows(runs, k, i + 1, runs.len() as int);
}

/// Runs once listed stay listed as more are read.
pub proof fn lemma_runs_of_grows(runs: Seq<Labels>, k: Seq<Seq<char>>, a: int, b: int)
    requires
        0 < a <= b <= runs.len(),
        run_key(runs[a - 1]) == k,
    ensures
        runs_of(runs, k, b).len() > 0,
    decreases b - a,
{
    if b > a {
        lemma_runs_of_grows(runs, k, a, b - 1);
    }
}
} // verus!
