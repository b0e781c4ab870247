//! The starting config's text rules: which template lines are commented-out keys and table
//! headers, the key a line sets, the template filled with a file's values or a live `[freq]`
//! section, a note above a key left out, the markdown carrier rewritten as plain TOML, a
//! record's run made this host's, and the names a rewrite writes beside. The template's text,
//! the TOML values and the files are the caller's.
//!
//! The template's one rule makes this mechanical: inside a `toml` fence a `#` with no space
//! after it is a commented-out key or table header, `#blocks = 100`, and one with a space is a
//! comment.

use vstd::prelude::*;
use crate::text::{
    chars_of, extension, find_char, find_char_in, lemma_line_end_bounds, line_at, line_end,
    path_extension, push_str, starts_with, str_eq, string_of, trim_bounds, trimmed, decimal,
    push_decimal, joined, join, lines_from, line_bounds,
};
use crate::host::Host;
use crate::tables::{
    keyed, keys_of, lemma_keyed_dom, lemma_keyed_unique, lemma_table_push, shape, table_map,
    unique_keys, Entry, Shape,
};

verus! {

/// A template fence line's key text: `#blocks = 100` is `blocks = 100`; a `#` followed by a
/// space, or by nothing, is a comment.
pub open spec fn spec_uncommented(line: Seq<char>) -> Option<Seq<char>> {
    if line.len() > 0 && line[0] == '#' {
        let body = line.drop_first();
        if body.len() == 0 || body[0] == ' ' {
            None
        } else {
            Some(body)
        }
    } else {
        None
    }
}

/// A template fence line as a key line: `#blocks = 100` is `blocks = 100`. A `#` with a space
/// after it is a comment, never a key, which is how a reader tells the two apart too.
pub fn uncommented(line: &str) -> (r: Option<&str>)
    ensures
        match r {
            Some(b) => spec_uncommented(line@) == Some(b@),
            None => spec_uncommented(line@) is None,
        },
{
    let n = line.unicode_len();
    if n == 0 || line.get_char(0) != '#' {
        return None;
    }
    if n == 1 || line.get_char(1) == ' ' {
        return None;
    }
    let body = line.substring_char(1, n);
    assert(body@ =~= line@.drop_first());
    Some(body)
}

/// The table a header line opens: what lies between a leading `[` and a trailing `]`.
pub open spec fn spec_table_name(line: Seq<char>) -> Option<Seq<char>> {
    if line.len() >= 2 && line[0] == '[' && line.last() == ']' {
        Some(line.subrange(1, line.len() - 1))
    } else {
        None
    }
}

/// The table a header line opens: `[freq]` is `freq`.
pub fn table_name(line: &str) -> (r: Option<&str>)
    ensures
        match r {
            Some(t) => spec_table_name(line@) == Some(t@),
            None => spec_table_name(line@) is None,
        },
{
    let n = line.unicode_len();
    if n < 2 || line.get_char(0) != '[' || line.get_char(n - 1) != ']' {
        return None;
    }
    Some(line.substring_char(1, n - 1))
}

/// The key a top-level key line sets: what comes before its first `=`, trimmed.
pub open spec fn spec_key_name(line: Seq<char>) -> Option<Seq<char>> {
    let k = find_char(line, 0, '=');
    if k < line.len() {
        Some(trimmed(line.subrange(0, k)))
    } else {
        None
    }
}

/// The key a top-level key line sets: `blocks = 100` is `blocks`.
pub fn key_name(line: &str) -> (r: Option<&str>)
    ensures
        match r {
            Some(k) => spec_key_name(line@) == Some(k@),
            None => spec_key_name(line@) is None,
        },
{
    let v = chars_of(line);
    let n = v.len();
    assert(v@ == line@) by {
        assert(v@.subrange(0, n as int) =~= v@);
    }
    assert(v@.subrange(0, n as int) =~= line@);
    let k = find_char_in(&v, 0, n, '=');
    assert(k == find_char(line@, 0, '='));
    if k >= n {
        return None;
    }
    let (a, b) = trim_bounds(&v, 0, k);
    assert(v@.subrange(0, k as int) =~= line@.subrange(0, k as int));
    assert(line@.len() == n);
    Some(line.substring_char(a, b))
}

/// `value`, or `absent` in its place: how a note prints a field a record may lack.
pub fn shown<'a>(value: Option<&'a str>, absent: &'a str) -> (r: &'a str)
    ensures
        r@ == match value {
            Some(v) => v@,
            None => absent@,
        },
{
    match value {
        Some(v) => v,
        None => absent,
    }
}

/// What heads the TOML carrier in place of the prose it leaves out.
pub open spec fn toml_head() -> Seq<char> {
    "# iiac-perf config: every key, commented out at its default, or at a sample where it has none.\n# Uncomment a line to set it. `iiac-perf init-config` prints this file with the prose that\n# explains each key, and docs/config.md is the reference.\n"@
}

/// What one markdown line adds to the TOML carrier, and whether a `toml` fence is open after
/// it: a fence line toggles (only a `toml` fence opens), a line inside a fence is kept, a
/// `## ` heading becomes a ruled comment, and prose is dropped.
pub open spec fn toml_step(line: Seq<char>, in_fence: bool) -> (Seq<char>, bool) {
    if starts_with(line, "```"@) {
        (Seq::empty(), !in_fence && starts_with(line, "```toml"@))
    } else if in_fence {
        (line + "\n"@, in_fence)
    } else if starts_with(line, "## "@) {
        ("\n# ---- "@ + line.skip(3) + " ----\n\n"@, in_fence)
    } else {
        (Seq::empty(), in_fence)
    }
}

/// The TOML carrier's body for `lines`, read in order, and whether a fence is left open.
pub open spec fn toml_body(lines: Seq<Seq<char>>) -> (Seq<char>, bool)
    decreases lines.len(),
{
    if lines.len() == 0 {
        (Seq::empty(), false)
    } else {
        let (out, f) = toml_body(lines.drop_last());
        let (piece, g) = toml_step(lines.last(), f);
        (out + piece, g)
    }
}

/// A markdown config as plain TOML: the fences' lines as they are, each section's heading as
/// a ruled comment, and the prose left out.
pub open spec fn spec_to_toml(md: Seq<char>) -> Seq<char> {
    toml_head() + toml_body(lines_from(md, 0)).0
}

/// Whether `v[at..]` starts with `prefix`.
fn starts_at(v: &Vec<char>, at: usize, hi: usize, prefix: &str) -> (r: bool)
    requires
        at <= hi <= v.len(),
    ensures
        r == starts_with(v@.subrange(at as int, hi as int), prefix@),
{
    let p = chars_of(prefix);
    assert(p@ == prefix@) by {
        assert(p@.subrange(0, p@.len() as int) =~= p@);
    }
    if p.len() > hi - at {
        return false;
    }
    let mut k: usize = 0;
    while k < p.len()
        invariant
            at <= hi <= v.len(),
            p.len() <= hi - at,
            p@ == prefix@,
            k <= p.len(),
            forall|j: int| 0 <= j < k ==> v@[at + j] == p@[j],
        decreases p.len() - k,
    {
        if v[at + k] != p[k] {
            assert(v@.subrange(at as int, hi as int).subrange(0, p@.len() as int)[k as int] != p@[k as int]);
            return false;
        }
        k = k + 1;
    }
    assert(v@.subrange(at as int, hi as int).subrange(0, p@.len() as int) =~= p@);
    true
}

/// A markdown config as plain TOML: the fences' lines as they are, each section's heading as a
/// ruled comment, and the prose left out. As comments the prose and the commented keys both
/// begin `# `, and a set key is lost among them, where markdown's fences keep the two apart.
pub fn to_toml(md: &str) -> (r: String)
    ensures
        r@ == spec_to_toml(md@),
{
    let v = chars_of(md);
    let n = v.len();
    assert(v@ == md@) by {
        assert(v@.subrange(0, n as int) =~= v@);
    }
    let mut out = string_of(
        "# iiac-perf config: every key, commented out at its default, or at a sample where it has none.\n# Uncomment a line to set it. `iiac-perf init-config` prints this file with the prose that\n# explains each key, and docs/config.md is the reference.\n",
    );
    let mut in_fence = false;
    let mut i: usize = 0;
    let ghost mut done: Seq<Seq<char>> = Seq::empty();
    while i < n
        invariant
            n == v.len(),
            v@ == md@,
            i <= n,
            lines_from(md@, 0) == done + lines_from(md@, i as int),
            out@ == toml_head() + toml_body(done).0,
            in_fence == toml_body(done).1,
        decreases n - i,
    {
        let mut e = i;
        while e < n && v[e] != '\n'
            invariant
                i <= e <= n == v.len(),
                line_end(v@, i as int) == line_end(v@, e as int),
            decreases n - e,
        {
            e = e + 1;
        }
        proof {
            lemma_line_end_bounds(md@, i as int);
        }
        let mut b = e;
        if e < n && e > i && v[e - 1] == '\r' {
            b = e - 1;
        }
        let ghost line = line_at(md@, i as int);
        assert(line =~= v@.subrange(i as int, b as int));
        let ghost before = done;
        proof {
            done = done.push(line);
            assert(lines_from(md@, i as int) == seq![line] + lines_from(md@, (e + 1) as int));
            assert(before + lines_from(md@, i as int) =~= done + lines_from(md@, (e + 1) as int));
            assert(done.drop_last() =~= before);
        }
        if starts_at(&v, i, b, "```") {
            in_fence = !in_fence && starts_at(&v, i, b, "```toml");
        } else if in_fence {
            let text = string_from_range(&v, i, b);
            push_str(&mut out, text.as_str());
            push_str(&mut out, "\n");
        } else if starts_at(&v, i, b, "## ") {
            proof {
                reveal_strlit("## ");
            }
            push_str(&mut out, "\n# ---- ");
            let text = string_from_range(&v, i + 3, b);
            assert(text@ =~= line.skip(3));
            push_str(&mut out, text.as_str());
            push_str(&mut out, " ----\n\n");
        }
        assert(out@ =~= toml_head() + toml_body(done).0);
        if e >= n {
            i = n;
        } else {
            i = e + 1;
        }
    }
    assert(lines_from(md@, i as int) =~= Seq::<Seq<char>>::empty());
    assert(done =~= lines_from(md@, 0));
    out
}

/// The characters `v[lo..hi]` as a string.
fn string_from_range(v: &Vec<char>, lo: usize, hi: usize) -> (s: String)
    requires
        lo <= hi <= v.len(),
    ensures
        s@ == v@.subrange(lo as int, hi as int),
{
    crate::text::string_from_chars(v, lo, hi)
}

/// `path` with `suffix` after its whole name: `queue.md` and `.bak` is `queue.md.bak`.
pub fn beside(path: &str, suffix: &str) -> (r: String)
    ensures
        r@ == path@ + suffix@,
{
    let mut r = string_of(path);
    push_str(&mut r, suffix);
    r
}

/// `text` in `path`'s carrier: TOML for a `.toml` path, markdown for anything else.
pub fn in_carrier(path: &str, text: String) -> (r: String)
    ensures
        r@ == if path_extension(path@) == Some("toml"@) {
            spec_to_toml(text@)
        } else {
            text@
        },
{
    match extension(path) {
        Some(e) => {
            if str_eq(e.as_str(), "toml") {
                return to_toml(text.as_str());
            }
        },
        None => {},
    }
    text
}

/// The TOML a config file at `path` carries: a `.md` file's fenced blocks, any other file's
/// whole text.
pub fn carried_toml(path: &str, text: String) -> (r: String)
    ensures
        r@ == if path_extension(path@) == Some("md"@) {
            spec_to_toml(text@)
        } else {
            text@
        },
{
    match extension(path) {
        Some(e) => {
            if str_eq(e.as_str(), "md") {
                return to_toml(text.as_str());
            }
        },
        None => {},
    }
    text
}

/// Where an `init-config` line's starting values come from.
#[derive(Debug, Clone, Copy, PartialEq, Eq)]
pub enum Start<'a> {
    /// The host's files, as a plain run layers them.
    Host,
    /// `--from OLD`: this file.
    From(&'a str),
    /// `--config NAME`: the file the search finds.
    Named(&'a str),
    /// `--from-record FILE`: a record's run config, `--series ID` choosing the invocation.
    Record(&'a str, Option<&'a str>),
}

/// What `init-config` does when its PATH already exists.
#[derive(Debug, Clone, Copy, PartialEq, Eq, Structural)]
pub enum Existing {
    /// Refuse, the file left as it is.
    Refuse,
    /// `--overwrite`: replace it, keeping nothing.
    Overwrite,
    /// `--backup`: replace it, the old file kept as `PATH.bak`.
    Backup,
}


/// A value a config file sets, as the template writes it back: under its key on a key line, or
/// as a table's section.
#[derive(Debug, Clone, PartialEq, Eq)]
pub struct SetValue {
    /// The key, or the table's name.
    pub key: String,
    /// The value as it reads after `key = ` on a key line.
    pub text: String,
    /// The value as a TOML section of its own.
    pub table: Section,
}

/// A value written as a TOML section of its own.
#[derive(Debug, Clone, PartialEq, Eq)]
pub enum Section {
    /// The section's text, header first.
    Toml(String),
    /// Why the value will not write as TOML.
    Unwritable(String),
}

/// The values a file sets, when there is a file.
pub open spec fn values_of(old: Option<&Vec<SetValue>>) -> Option<Seq<SetValue>> {
    match old {
        Some(v) => Some(v@),
        None => None,
    }
}

/// A live section's lines, when one is given.
pub open spec fn section_of(section: Option<&Vec<String>>) -> Option<Seq<Seq<char>>> {
    match section {
        Some(f) => Some(f.deep_view()),
        None => None,
    }
}

/// The value `values` sets for `key`, the first entry for it.
pub open spec fn set_value(values: Seq<SetValue>, key: Seq<char>) -> Option<SetValue>
    decreases values.len(),
{
    if values.len() == 0 {
        None
    } else if values[0].key@ == key {
        Some(values[0])
    } else {
        set_value(values.drop_first(), key)
    }
}

/// The lines of a live `[freq]` section, each ended by a newline.
pub open spec fn section_text(lines: Seq<Seq<char>>) -> Seq<char>
    decreases lines.len(),
{
    if lines.len() == 0 {
        Seq::empty()
    } else {
        section_text(lines.drop_last()) + lines.last() + "\n"@
    }
}

/// The lines that replace a table's commented sample, `None` when nothing sets that table: the
/// live section for `[freq]` when one is given, else the table `old` sets, written as TOML.
pub open spec fn spec_table_lines(
    header: Seq<char>,
    old: Option<Seq<SetValue>>,
    freq: Option<Seq<Seq<char>>>,
) -> Result<Option<Seq<char>>, Seq<char>> {
    match spec_table_name(header) {
        None => Ok(None),
        Some(name) => if name == "freq"@ && freq is Some {
            Ok(Some(section_text(freq.unwrap())))
        } else {
            match old {
                None => Ok(None),
                Some(values) => match set_value(values, name) {
                    None => Ok(None),
                    Some(v) => match v.table {
                        Section::Toml(t) => Ok(Some(t@)),
                        Section::Unwritable(e) => Err("["@ + name + "] will not write back as TOML: "@ + e@),
                    },
                },
            }
        },
    }
}

/// The line that replaces a commented top-level key, when `old` sets it.
pub open spec fn spec_key_line(body: Seq<char>, old: Option<Seq<SetValue>>) -> Option<Seq<char>> {
    match spec_key_name(body) {
        None => None,
        Some(key) => match old {
            None => None,
            Some(values) => match set_value(values, key) {
                None => None,
                Some(v) => Some(key + " = "@ + v.text@ + "\n"@),
            },
        },
    }
}

/// Where a template walk stands: inside a fence, dropping a replaced table's sample lines,
/// inside a table's fence.
pub struct Walk {
    /// Inside a `toml` fence.
    pub in_fence: bool,
    /// Dropping the sample lines of a table whose lines were replaced.
    pub dropping: bool,
    /// Inside a table's fence: its lines are the table's entries, not top-level keys.
    pub in_table: bool,
}

/// What one template line writes, and where the walk stands after it.
pub open spec fn render_step(
    line: Seq<char>,
    w: Walk,
    old: Option<Seq<SetValue>>,
    freq: Option<Seq<Seq<char>>>,
) -> Result<(Seq<char>, Walk), Seq<char>> {
    let kept = line + "\n"@;
    if !w.in_fence {
        Ok((kept, Walk { in_fence: starts_with(line, "```toml"@), ..w }))
    } else if starts_with(line, "```"@) {
        Ok((kept, Walk { in_fence: false, dropping: false, in_table: false }))
    } else if w.dropping {
        Ok((Seq::empty(), w))
    } else {
        match spec_uncommented(line) {
            Some(body) => if spec_table_name(body) is Some {
                match spec_table_lines(body, old, freq) {
                    Err(e) => Err(e),
                    Ok(Some(text)) => Ok((text, Walk { dropping: true, in_table: true, ..w })),
                    Ok(None) => Ok((kept, Walk { in_table: true, ..w })),
                }
            } else if !w.in_table {
                match spec_key_line(body, old) {
                    Some(text) => Ok((text, Walk { dropping: false, ..w })),
                    None => Ok((kept, w)),
                }
            } else {
                Ok((kept, w))
            },
            None => Ok((kept, w)),
        }
    }
}

/// The rendering of `lines`, read in order, and where the walk stands after them; the first
/// table that will not write stops it.
pub open spec fn render_body(
    lines: Seq<Seq<char>>,
    old: Option<Seq<SetValue>>,
    freq: Option<Seq<Seq<char>>>,
) -> Result<(Seq<char>, Walk), Seq<char>>
    decreases lines.len(),
{
    if lines.len() == 0 {
        Ok((Seq::empty(), Walk { in_fence: false, dropping: false, in_table: false }))
    } else {
        match render_body(lines.drop_last(), old, freq) {
            Err(e) => Err(e),
            Ok((out, w)) => match render_step(lines.last(), w, old, freq) {
                Err(e) => Err(e),
                Ok((piece, w2)) => Ok((out + piece, w2)),
            },
        }
    }
}

/// The template with `old`'s values set and `freq`'s lines in place of the `[freq]` sample.
pub open spec fn spec_render(
    template: Seq<char>,
    old: Option<Seq<SetValue>>,
    freq: Option<Seq<Seq<char>>>,
) -> Result<Seq<char>, Seq<char>> {
    match render_body(lines_from(template, 0), old, freq) {
        Ok((out, _)) => Ok(out),
        Err(e) => Err(e),
    }
}

/// A walk that has stopped stays stopped, whatever lines follow.
pub proof fn lemma_render_err(
    p: Seq<Seq<char>>,
    q: Seq<Seq<char>>,
    old: Option<Seq<SetValue>>,
    freq: Option<Seq<Seq<char>>>,
    e: Seq<char>,
)
    requires
        render_body(p, old, freq) == Err::<(Seq<char>, Walk), Seq<char>>(e),
    ensures
        render_body(p + q, old, freq) == Err::<(Seq<char>, Walk), Seq<char>>(e),
    decreases q.len(),
{
    if q.len() == 0 {
        assert(p + q =~= p);
    } else {
        lemma_render_err(p, q.drop_last(), old, freq, e);
        assert((p + q).drop_last() =~= p + q.drop_last());
    }
}

/// The entry `values` sets for `key`, the first one.
fn find_value<'a>(values: &'a Vec<SetValue>, key: &str) -> (r: Option<&'a SetValue>)
    ensures
        match r {
            Some(v) => set_value(values@, key@) == Some(*v),
            None => set_value(values@, key@) is None,
        },
{
    let mut i: usize = 0;
    assert(values@.skip(0) =~= values@);
    while i < values.len()
        invariant
            i <= values.len(),
            set_value(values@, key@) == set_value(values@.skip(i as int), key@),
        decreases values.len() - i,
    {
        assert(values@.skip(i as int).drop_first() =~= values@.skip(i + 1));
        assert(values@.skip(i as int)[0] == values@[i as int]);
        if str_eq(values[i].key.as_str(), key) {
            return Some(&values[i]);
        }
        i = i + 1;
    }
    None
}

/// The lines that replace a table's commented sample, `None` when nothing sets that table.
fn table_lines(
    header: &str,
    old: Option<&Vec<SetValue>>,
    freq_section: Option<&Vec<String>>,
) -> (r: Result<Option<String>, String>)
    ensures
        match r {
            Ok(Some(t)) => spec_table_lines(header@, values_of(old), section_of(freq_section)) == Ok::<Option<Seq<char>>, Seq<char>>(Some(t@)),
            Ok(None) => spec_table_lines(header@, values_of(old), section_of(freq_section)) == Ok::<Option<Seq<char>>, Seq<char>>(None),
            Err(e) => spec_table_lines(header@, values_of(old), section_of(freq_section)) == Err::<Option<Seq<char>>, Seq<char>>(e@),
        },
{
    let name = match table_name(header) {
        Some(n) => n,
        None => {
            return Ok(None);
        },
    };
    if str_eq(name, "freq") {
        match freq_section {
            Some(section) => {
                let mut text = String::new();
                let mut i: usize = 0;
                while i < section.len()
                    invariant
                        i <= section.len(),
                        text@ == section_text(section.deep_view().take(i as int)),
                    decreases section.len() - i,
                {
                    push_str(&mut text, section[i].as_str());
                    push_str(&mut text, "\n");
                    assert(section.deep_view().take(i + 1).drop_last() =~= section.deep_view().take(i as int));
                    assert(section.deep_view()[i as int] == section@[i as int]@);
                    i = i + 1;
                }
                assert(section.deep_view().take(section.len() as int) =~= section.deep_view());
                return Ok(Some(text));
            },
            None => {},
        }
    }
    let values = match old {
        Some(v) => v,
        None => {
            return Ok(None);
        },
    };
    match find_value(values, name) {
        None => Ok(None),
        Some(v) => match &v.table {
            Section::Toml(t) => Ok(Some(t.clone())),
            Section::Unwritable(e) => {
                let mut msg = string_of("[");
                push_str(&mut msg, name);
                push_str(&mut msg, "] will not write back as TOML: ");
                push_str(&mut msg, e.as_str());
                Err(msg)
            },
        },
    }
}

/// The line that replaces a commented top-level key, when `old` sets it.
fn key_line(body: &str, old: Option<&Vec<SetValue>>) -> (r: Option<String>)
    ensures
        match r {
            Some(t) => spec_key_line(body@, values_of(old)) == Some(t@),
            None => spec_key_line(body@, values_of(old)) is None,
        },
{
    let key = key_name(body)?;
    let values = old?;
    let v = find_value(values, key)?;
    let mut line = string_of(key);
    push_str(&mut line, " = ");
    push_str(&mut line, v.text.as_str());
    push_str(&mut line, "\n");
    Some(line)
}

/// The template with `old`'s values set and, when given, `freq_section` in place of the
/// `[freq]` sample: the live state's lines, the header first, as `setup-freq` has them. An error
/// when one of `old`'s tables will not write back as TOML, so a file never silently lacks it.
pub fn render(
    template: &str,
    old: Option<&Vec<SetValue>>,
    freq_section: Option<&Vec<String>>,
) -> (r: Result<String, String>)
    ensures
        match r {
            Ok(t) => spec_render(template@, values_of(old), section_of(freq_section)) == Ok::<Seq<char>, Seq<char>>(t@),
            Err(e) => spec_render(template@, values_of(old), section_of(freq_section)) == Err::<Seq<char>, Seq<char>>(e@),
        },
{
    let ghost o = values_of(old);
    let ghost f = section_of(freq_section);
    let v = chars_of(template);
    let n = v.len();
    assert(v@ == template@) by {
        assert(v@.subrange(0, n as int) =~= v@);
    }
    let mut out = String::new();
    let mut in_fence = false;
    let mut dropping = false;
    let mut in_table = false;
    let mut i: usize = 0;
    let ghost mut done: Seq<Seq<char>> = Seq::empty();
    while i < n
        invariant
            n == v.len(),
            v@ == template@,
            o == values_of(old),
            f == section_of(freq_section),
            i <= n,
            lines_from(template@, 0) == done + lines_from(template@, i as int),
            render_body(done, o, f) == Ok::<(Seq<char>, Walk), Seq<char>>((
                out@,
                Walk { in_fence, dropping, in_table },
            )),
        decreases n - i,
    {
        let (b, e) = line_bounds(&v, i);
        let line = string_from_range(&v, i, b);
        let ghost before = done;
        proof {
            lemma_line_end_bounds(template@, i as int);
            done = done.push(line@);
            assert(lines_from(template@, i as int) == seq![line@] + lines_from(template@, (e + 1) as int));
            assert(before + lines_from(template@, i as int) =~= done + lines_from(template@, (e + 1) as int));
            assert(done.drop_last() =~= before);
            assert(done.last() == line@);
        }
        let ghost w = Walk { in_fence, dropping, in_table };
        let ghost out0 = out@;
        assert(line@ == v@.subrange(i as int, b as int));
        if !in_fence {
            in_fence = starts_at(&v, i, b, "```toml");
            push_str(&mut out, line.as_str());
            push_str(&mut out, "\n");
            assert(out@ =~= out0 + (line@ + "\n"@));
        } else if starts_at(&v, i, b, "```") {
            in_fence = false;
            dropping = false;
            in_table = false;
            push_str(&mut out, line.as_str());
            push_str(&mut out, "\n");
            assert(out@ =~= out0 + (line@ + "\n"@));
        } else if !dropping {
            let mut replaced: Option<String> = None;
            match uncommented(line.as_str()) {
                Some(body) => {
                    if table_name(body).is_some() {
                        in_table = true;
                        match table_lines(body, old, freq_section) {
                            Ok(t) => {
                                replaced = t;
                            },
                            Err(err) => {
                                proof {
                                    assert(render_body(done, o, f) == Err::<(Seq<char>, Walk), Seq<char>>(err@));
                                    lemma_render_err(done, lines_from(template@, (e + 1) as int), o, f, err@);
                                }
                                return Err(err);
                            },
                        }
                    } else if !in_table {
                        replaced = key_line(body, old);
                    }
                },
                None => {},
            }
            match replaced {
                Some(text) => {
                    dropping = in_table;
                    push_str(&mut out, text.as_str());
                    assert(out@ =~= out0 + text@);
                },
                None => {
                    push_str(&mut out, line.as_str());
                    push_str(&mut out, "\n");
                    assert(out@ =~= out0 + (line@ + "\n"@));
                },
            }
        } else {
            assert(out@ =~= out0 + Seq::<char>::empty());
        }
        if e >= n {
            i = n;
        } else {
            i = e + 1;
        }
    }
    assert(lines_from(template@, i as int) =~= Seq::<Seq<char>>::empty());
    assert(done =~= lines_from(template@, 0));
    Ok(out)
}

/// A value of a recorded run's config as adapting it reads it: a string, an integer, or any
/// other value, carried as TOML prints it.
#[derive(Debug, Clone, PartialEq, Eq)]
pub enum RunValue {
    /// A string.
    Text(String),
    /// An integer.
    Integer(i64),
    /// Any other value, as TOML prints it.
    Other(String),
}

/// A recorded run's config: its keys, each a value or a table of values, no key twice.
pub type RunTable = Vec<(String, Entry<RunValue>)>;

/// How `toml` prints a string value.
pub uninterp spec fn toml_string_shown(s: Seq<char>) -> Seq<char>;

/// A string as a TOML value prints: `toml::Value::String`'s `Display`, quoted and escaped as
/// `toml` chooses. The contract names the text and does not restate `toml`'s choice of quotes
/// and escapes.
#[verifier::external_body]
fn toml_string(s: &str) -> (r: String)
    ensures
        r@ == toml_string_shown(s@),
{
    toml::Value::String(s.to_string()).to_string()
}

/// The entry a run config holds under `key`.
pub open spec fn run_entry(t: Seq<(String, Entry<RunValue>)>, key: Seq<char>) -> Option<Entry<RunValue>> {
    if keyed(t).contains_key(key) {
        Some(keyed(t)[key])
    } else {
        None
    }
}

/// The string a run config holds under `key`, when it holds one there.
pub open spec fn run_text(t: Seq<(String, Entry<RunValue>)>, key: Seq<char>) -> Option<Seq<char>> {
    match run_entry(t, key) {
        Some(Entry::Value(RunValue::Text(s))) => Some(s@),
        _ => None,
    }
}

/// The integer a run config holds under `key`, when it holds one there.
pub open spec fn run_integer(t: Seq<(String, Entry<RunValue>)>, key: Seq<char>) -> Option<i64> {
    match run_entry(t, key) {
        Some(Entry::Value(RunValue::Integer(i))) => Some(i),
        _ => None,
    }
}

/// How the value a run config holds under `key` prints, when it holds a value there.
pub open spec fn run_shown(t: Seq<(String, Entry<RunValue>)>, key: Seq<char>) -> Option<Seq<char>> {
    match run_entry(t, key) {
        Some(Entry::Value(RunValue::Text(s))) => Some(toml_string_shown(s@)),
        Some(Entry::Value(RunValue::Integer(i))) => Some(signed_decimal(i as int)),
        Some(Entry::Value(RunValue::Other(p))) => Some(p@),
        _ => None,
    }
}

/// A run config a record holds: no key twice, as in the TOML table it was, and its record
/// paths, when set, single values, as a record writes them.
pub open spec fn run_table_wf(t: Seq<(String, Entry<RunValue>)>) -> bool {
    &&& unique_keys(t)
    &&& !(run_entry(t, "record_dir"@) matches Some(Entry::Table(_)))
    &&& !(run_entry(t, "record_file"@) matches Some(Entry::Table(_)))
}

/// A recorded run, as the starting config reads it.
#[derive(Debug, Clone, PartialEq, Eq)]
pub struct Recorded {
    /// The invocation's series id.
    pub series: Option<String>,
    /// The bench.
    pub bench: String,
    /// The invocation's label.
    pub label: Option<String>,
    /// Its run config.
    pub run: RunTable,
    /// The placement label of its pinned pool: `SMT`, `CCX`, `x-CCX`.
    pub pin_placement: Option<String>,
    /// The host that ran it.
    pub host: Host,
    /// The version that wrote it.
    pub version: String,
}

/// A record's run config made this host's: the profile `pin_cpus` names in place of the
/// record's pool, the keys left out with why (they leave the table), and notes on where this
/// host differs from the record's.
#[derive(Debug, Clone, PartialEq, Eq)]
pub struct Adapted {
    /// The run config to write: the record's, the keys left out taken out, and `pin_cpus` the
    /// profile's name when one takes the pool.
    pub table: RunTable,
    /// The profile `pin_cpus` now names, when this host declares one for the pool's placement.
    pub pin_profile: Option<String>,
    /// The keys taken out of the run config, each with why.
    pub left_out: Vec<(String, String)>,
    /// What to tell the user.
    pub notes: Vec<String>,
}

/// An optional string's text.
pub open spec fn text_of(o: Option<String>) -> Option<Seq<char>> {
    match o {
        Some(s) => Some(s@),
        None => None,
    }
}

/// `v`, or `absent` in its place.
pub open spec fn or_text(v: Option<Seq<char>>, absent: Seq<char>) -> Seq<char> {
    match v {
        Some(x) => x,
        None => absent,
    }
}

/// The profile name a placement label is declared under, by the placements rule.
pub open spec fn placement_profile(p: Option<Seq<char>>) -> Option<Seq<char>> {
    match p {
        Some(x) => if x == "SMT"@ {
            Some("smt"@)
        } else if x == "CCX"@ {
            Some("ccx"@)
        } else if x == "x-CCX"@ {
            Some("x-ccx"@)
        } else {
            None
        },
        None => None,
    }
}

/// The value `pairs` holds for `key`, the first entry for it.
pub open spec fn entry(pairs: Seq<(String, String)>, key: Seq<char>) -> Option<Seq<char>>
    decreases pairs.len(),
{
    if pairs.len() == 0 {
        None
    } else if pairs[0].0@ == key {
        Some(pairs[0].1@)
    } else {
        entry(pairs.drop_first(), key)
    }
}

/// An integer as `{}` prints it.
pub open spec fn signed_decimal(i: int) -> Seq<char> {
    if i < 0 {
        "-"@ + decimal((-i) as nat)
    } else {
        decimal(i as nat)
    }
}

/// A `pin_cpus` that is a pool of cpu numbers rather than a profile's name: it starts with a
/// digit.
pub open spec fn is_pool(spec: Seq<char>) -> bool {
    spec.len() > 0 && '0' <= spec[0] <= '9'
}

/// The note that heads an adapted record's: which invocation, and what wrote it where.
pub open spec fn record_note(r: Recorded) -> Seq<char> {
    "from the record: series "@ + or_text(text_of(r.series), "none"@) + ", label "@ + or_text(
        text_of(r.label),
        "-"@,
    ) + ", written by iiac-perf "@ + r.version@ + " on "@ + r.host.name@
}

/// What becomes of a record's pool of cpu numbers: the profile this host declares for its
/// placement, with a note, or the key left out with why.
pub open spec fn pool_outcome(r: Recorded, profiles: Seq<(String, String)>) -> (
    Option<Seq<char>>,
    Seq<(Seq<char>, Seq<char>)>,
    Seq<Seq<char>>,
) {
    let host = r.host.name@;
    let placement = text_of(r.pin_placement);
    match run_text(r.run@, "pin_cpus"@) {
        Some(spec) => if is_pool(spec) {
            let profile = placement_profile(placement);
            if profile is Some && entry(profiles, profile.unwrap()) is Some {
                let name = profile.unwrap();
                (
                    Some(name),
                    Seq::empty(),
                    seq![
                        "pin_cpus: "@ + host + "'s "@ + spec + " was "@ + or_text(placement, "-"@)
                            + ", so this host's "@ + name + " profile, "@ + entry(profiles, name).unwrap()
                    ],
                )
            } else {
                let why = match profile {
                    Some(name) => "this host declares no "@ + name + " profile"@,
                    None => "no profile names that placement"@,
                };
                (
                    None,
                    seq![
                        ("pin_cpus"@, "the record pinned "@ + host + "'s cpus "@ + spec + ", "@
                            + or_text(placement, "of unknown placement"@) + ", and "@ + why)
                    ],
                    Seq::empty(),
                )
            }
        } else {
            (None, Seq::empty(), Seq::empty())
        },
        None => (None, Seq::empty(), Seq::empty()),
    }
}

/// A record path left out: which key, what it was, on which host.
pub open spec fn path_left_out(key: Seq<char>, value: Option<Seq<char>>, host: Seq<char>) -> Seq<
    (Seq<char>, Seq<char>),
> {
    match value {
        Some(v) => seq![(key, "the record's "@ + key + " was "@ + v + " on "@ + host)],
        None => Seq::empty(),
    }
}

/// A note on a fact where this host differs from the record's, none where they agree.
pub open spec fn differs(what: Seq<char>, there: Option<Seq<char>>, ours: Option<Seq<char>>, host: Seq<char>) -> Seq<
    Seq<char>,
> {
    if there != ours {
        seq![
            what + " differs: "@ + or_text(there, "unknown"@) + " on "@ + host + ", "@ + or_text(
                ours,
                "unknown"@,
            ) + " here"@
        ]
    } else {
        Seq::empty()
    }
}

/// The keys a record's run config loses, each with why: its pool when no profile takes it, its
/// clock, its record paths.
pub open spec fn spec_left_out(r: Recorded, profiles: Seq<(String, String)>) -> Seq<(Seq<char>, Seq<char>)> {
    let host = r.host.name@;
    pool_outcome(r, profiles).1 + match run_integer(r.run@, "pin_freq"@) {
        Some(mhz) => seq![
            ("pin_freq"@, "the record pinned "@ + host + "'s clock at "@ + signed_decimal(mhz as int)
                + " MHz, and \"pin_mhz\" names this host's own"@)
        ],
        None => Seq::empty(),
    } + path_left_out("record_dir"@, run_shown(r.run@, "record_dir"@), host) + path_left_out(
        "record_file"@,
        run_shown(r.run@, "record_file"@),
        host,
    )
}

/// The notes on an adapted record: where it came from, its pool's profile, and each of cpu,
/// kernel, compiler and version where this host differs.
pub open spec fn spec_notes(r: Recorded, profiles: Seq<(String, String)>, here: Host, version: Seq<char>) -> Seq<
    Seq<char>,
> {
    let host = r.host.name@;
    seq![record_note(r)] + pool_outcome(r, profiles).2 + differs(
        "cpu"@,
        text_of(r.host.cpu_model),
        text_of(here.cpu_model),
        host,
    ) + differs("kernel"@, text_of(r.host.kernel), text_of(here.kernel), host) + differs(
        "rustc"@,
        Some(r.host.rustc@),
        Some(here.rustc@),
        host,
    ) + differs("version"@, Some(r.version@), Some(version), host)
}

/// A list of pairs of strings as texts.
pub open spec fn pair_texts(v: Seq<(String, String)>) -> Seq<(Seq<char>, Seq<char>)> {
    v.map_values(|p: (String, String)| (p.0@, p.1@))
}

/// An optional string as a borrowed one.
fn as_str_opt(o: &Option<String>) -> (r: Option<&str>)
    ensures
        match r {
            Some(s) => text_of(*o) == Some(s@),
            None => text_of(*o) is None,
        },
{
    match o {
        Some(s) => Some(s.as_str()),
        None => None,
    }
}

/// Whether two optional strings say the same.
fn same_text(a: Option<&str>, b: Option<&str>) -> (r: bool)
    ensures
        r == (match a {
            Some(x) => Some(x@),
            None => None::<Seq<char>>,
        } == match b {
            Some(x) => Some(x@),
            None => None::<Seq<char>>,
        }),
{
    match (a, b) {
        (Some(x), Some(y)) => str_eq(x, y),
        (None, None) => true,
        _ => false,
    }
}

/// Add the note that `what` differs, when it does.
fn note_differs(notes: &mut Vec<String>, what: &str, there: Option<&str>, ours: Option<&str>, host: &str)
    ensures
        final(notes).deep_view() == old(notes).deep_view() + differs(
            what@,
            match there {
                Some(x) => Some(x@),
                None => None::<Seq<char>>,
            },
            match ours {
                Some(x) => Some(x@),
                None => None::<Seq<char>>,
            },
            host@,
        ),
{
    let ghost t = match there {
        Some(x) => Some(x@),
        None => None::<Seq<char>>,
    };
    let ghost u = match ours {
        Some(x) => Some(x@),
        None => None::<Seq<char>>,
    };
    if same_text(there, ours) {
        assert(notes.deep_view() =~= old(notes).deep_view() + Seq::<Seq<char>>::empty());
        return;
    }
    let mut n = string_of(what);
    push_str(&mut n, " differs: ");
    push_str(&mut n, shown(there, "unknown"));
    push_str(&mut n, " on ");
    push_str(&mut n, host);
    push_str(&mut n, ", ");
    push_str(&mut n, shown(ours, "unknown"));
    push_str(&mut n, " here");
    notes.push(n);
    assert(notes.deep_view() =~= old(notes).deep_view() + differs(what@, t, u, host@));
}

/// The profile `profiles` declares under `name`, the first entry for it.
fn profile<'a>(profiles: &'a Vec<(String, String)>, name: &str) -> (r: Option<&'a str>)
    ensures
        match r {
            Some(v) => entry(profiles@, name@) == Some(v@),
            None => entry(profiles@, name@) is None,
        },
{
    let mut i: usize = 0;
    assert(profiles@.skip(0) =~= profiles@);
    while i < profiles.len()
        invariant
            i <= profiles.len(),
            entry(profiles@, name@) == entry(profiles@.skip(i as int), name@),
        decreases profiles.len() - i,
    {
        assert(profiles@.skip(i as int).drop_first() =~= profiles@.skip(i + 1));
        assert(profiles@.skip(i as int)[0] == profiles@[i as int]);
        if str_eq(profiles[i].0.as_str(), name) {
            return Some(profiles[i].1.as_str());
        }
        i = i + 1;
    }
    None
}

/// Append an integer as `{}` prints it.
fn push_signed(s: &mut String, i: i64)
    ensures
        final(s)@ == old(s)@ + signed_decimal(i as int),
{
    if i < 0 {
        push_str(s, "-");
        let a: u64 = (0i128 - (i as i128)) as u64;
        push_decimal(s, a);
    } else {
        push_decimal(s, i as u64);
    }
    assert(final(s)@ =~= old(s)@ + signed_decimal(i as int));
}

/// The entry a run config holds under `key`.
fn find_entry<'a>(t: &'a RunTable, key: &str) -> (r: Option<&'a Entry<RunValue>>)
    requires
        unique_keys(t@),
    ensures
        match r {
            Some(e) => run_entry(t@, key@) == Some(*e),
            None => run_entry(t@, key@) is None,
        },
{
    let mut i: usize = 0;
    while i < t.len()
        invariant
            i <= t.len(),
            unique_keys(t@),
            forall|j: int| 0 <= j < i ==> (#[trigger] t@[j]).0@ != key@,
        decreases t.len() - i,
    {
        if str_eq(t[i].0.as_str(), key) {
            proof {
                lemma_keyed_unique(t@, i as int);
            }
            return Some(&t[i].1);
        }
        i = i + 1;
    }
    proof {
        lemma_keyed_dom(t@);
        assert(!keys_of(t@).contains(key@));
    }
    None
}

/// A record path left out, when the record set one.
fn push_path_left_out(left_out: &mut Vec<(String, String)>, key: &str, table: &RunTable, host: &str)
    requires
        unique_keys(table@),
        !(run_entry(table@, key@) matches Some(Entry::Table(_))),
    ensures
        pair_texts(final(left_out)@) == pair_texts(old(left_out)@) + path_left_out(
            key@,
            run_shown(table@, key@),
            host@,
        ),
{
    let shown: Option<String> = match find_entry(table, key) {
        Some(Entry::Value(RunValue::Text(v))) => Some(toml_string(v.as_str())),
        Some(Entry::Value(RunValue::Integer(i))) => {
            let mut t = String::new();
            push_signed(&mut t, *i);
            Some(t)
        },
        Some(Entry::Value(RunValue::Other(p))) => Some(p.clone()),
        _ => None,
    };
    assert(text_of(shown) == run_shown(table@, key@));
    match shown {
        Some(v) => {
            let mut why = string_of("the record's ");
            push_str(&mut why, key);
            push_str(&mut why, " was ");
            push_str(&mut why, v.as_str());
            push_str(&mut why, " on ");
            push_str(&mut why, host);
            left_out.push((string_of(key), why));
        },
        None => {},
    }
    assert(pair_texts(left_out@) =~= pair_texts(old(left_out)@) + path_left_out(
        key@,
        run_shown(table@, key@),
        host@,
    ));
}

/// The keys adapting takes out of a record's run config: `pin_cpus` when it is a pool of cpu
/// numbers (its profile's name, when one takes it, is set in its place), `pin_freq` when it is a
/// number of MHz, and `record_dir` and `record_file`.
pub open spec fn dropped(r: Recorded) -> Set<Seq<char>> {
    Set::new(
        |k: Seq<char>|
            (k == "pin_cpus"@ && (run_text(r.run@, "pin_cpus"@) matches Some(sp) && is_pool(sp)))
                || (k == "pin_freq"@ && run_integer(r.run@, "pin_freq"@) is Some) || k
                == "record_dir"@ || k == "record_file"@,
    )
}

/// The keys of the entries left out.
pub open spec fn left_keys(r: Recorded, profiles: Seq<(String, String)>) -> Set<Seq<char>> {
    Set::new(
        |k: Seq<char>|
            exists|i: int|
                0 <= i < spec_left_out(r, profiles).len() && (#[trigger] spec_left_out(r, profiles)[i]).0
                    == k,
    )
}

/// Adapting takes out of a record's run config exactly the keys it leaves out, and `pin_cpus`
/// when a profile's name takes its place: of the keys the config holds, the one set is the
/// other.
pub proof fn adapting_takes_out_the_left_out_keys(r: Recorded, profiles: Seq<(String, String)>, k: Seq<char>)
    requires
        run_table_wf(r.run@),
        run_entry(r.run@, k) is Some,
    ensures
        dropped(r).contains(k) <==> (left_keys(r, profiles).contains(k) || (k == "pin_cpus"@
            && pool_outcome(r, profiles).0 is Some)),
{
    reveal_strlit("pin_cpus");
    reveal_strlit("pin_freq");
    reveal_strlit("record_dir");
    reveal_strlit("record_file");
    let host = r.host.name@;
    let p1 = pool_outcome(r, profiles).1;
    let p2 = match run_integer(r.run@, "pin_freq"@) {
        Some(mhz) => seq![
            ("pin_freq"@, "the record pinned "@ + host + "'s clock at "@ + signed_decimal(mhz as int)
                + " MHz, and \"pin_mhz\" names this host's own"@)
        ],
        None => Seq::empty(),
    };
    let p3 = path_left_out("record_dir"@, run_shown(r.run@, "record_dir"@), host);
    let p4 = path_left_out("record_file"@, run_shown(r.run@, "record_file"@), host);
    let all = spec_left_out(r, profiles);
    assert(all == p1 + p2 + p3 + p4);
    assert(p1.len() <= 1 && (p1.len() == 1 ==> p1[0].0 == "pin_cpus"@));
    assert(p2.len() <= 1 && (p2.len() == 1 ==> p2[0].0 == "pin_freq"@));
    assert(p3.len() <= 1 && (p3.len() == 1 ==> p3[0].0 == "record_dir"@));
    assert(p4.len() <= 1 && (p4.len() == 1 ==> p4[0].0 == "record_file"@));
    let n1 = p1.len() as int;
    let n2 = n1 + p2.len();
    let n3 = n2 + p3.len();
    assert forall|i: int| 0 <= i < all.len() implies (#[trigger] all[i]).0 == (if i < n1 {
        "pin_cpus"@
    } else if i < n2 {
        "pin_freq"@
    } else if i < n3 {
        "record_dir"@
    } else {
        "record_file"@
    }) by {
        if i < n1 {
            assert(all[i] == p1[i]);
        } else if i < n2 {
            assert(all[i] == p2[i - n1]);
        } else if i < n3 {
            assert(all[i] == p3[i - n2]);
        } else {
            assert(all[i] == p4[i - n3]);
        }
    }
    assert("pin_cpus"@[4] != "pin_freq"@[4]);
    assert("pin_cpus"@[0] != "record_dir"@[0]);
    assert("pin_freq"@[0] != "record_dir"@[0]);
    assert("record_dir"@.len() != "record_file"@.len());
    if k == "pin_cpus"@ {
        if p1.len() == 1 {
            assert(all[0] == p1[0]);
        }
    } else if k == "pin_freq"@ {
        if p2.len() == 1 {
            assert(all[n1] == p2[0]);
        }
    } else if k == "record_dir"@ {
        assert(p3.len() == 1);
        assert(all[n2] == p3[0]);
    } else if k == "record_file"@ {
        assert(p4.len() == 1);
        assert(all[n3] == p4[0]);
    }
}

/// `src`'s entries whose keys `d` does not hold, in order.
fn without_keys(src: RunTable, drop_cpus: bool, drop_freq: bool, Ghost(d): Ghost<Set<Seq<char>>>) -> (r: RunTable)
    requires
        unique_keys(src@),
        forall|k: Seq<char>|
            #![trigger d.contains(k)]
            d.contains(k) <==> ((k == "pin_cpus"@ && drop_cpus) || (k == "pin_freq"@ && drop_freq)
                || k == "record_dir"@ || k == "record_file"@),
    ensures
        unique_keys(r@),
        keyed(r@) == keyed(src@).remove_keys(d),
{
    let ghost orig = src@;
    let mut src = src;
    let mut out: RunTable = Vec::new();
    assert(orig.take(0) =~= Seq::<(String, Entry<RunValue>)>::empty());
    assert(keyed(out@) =~= keyed(orig.take(0)).remove_keys(d));
    while src.len() > 0
        invariant
            unique_keys(orig),
            src.len() <= orig.len(),
            src@ == orig.skip(orig.len() - src.len()),
            unique_keys(out@),
            forall|j: int|
                0 <= j < out.len() ==> keys_of(orig.take(orig.len() - src.len())).contains(
                    (#[trigger] out@[j]).0@,
                ),
            keyed(out@) == keyed(orig.take(orig.len() - src.len())).remove_keys(d),
            forall|k: Seq<char>|
                #![trigger d.contains(k)]
                d.contains(k) <==> ((k == "pin_cpus"@ && drop_cpus) || (k == "pin_freq"@ && drop_freq)
                    || k == "record_dir"@ || k == "record_file"@),
        decreases src.len(),
    {
        let ghost n = orig.len() - src.len();
        let x = src.remove(0);
        assert(x == orig[n]);
        assert(src@ =~= orig.skip(n + 1));
        assert(orig.take(n + 1).drop_last() =~= orig.take(n));
        assert(orig.take(n + 1).last() == orig[n]);
        assert(keyed(orig.take(n + 1)) == keyed(orig.take(n)).insert(x.0@, x.1));
        assert(!keys_of(orig.take(n)).contains(x.0@)) by {
            if keys_of(orig.take(n)).contains(x.0@) {
                let j = choose|j: int| 0 <= j < orig.take(n).len() && (#[trigger] orig.take(n)[j]).0@ == x.0@;
                assert(orig.take(n)[j] == orig[j]);
            }
        }
        assert forall|j: int| 0 <= j < out.len() implies keys_of(orig.take(n + 1)).contains(
            (#[trigger] out@[j]).0@,
        ) by {
            let m = choose|m: int| 0 <= m < orig.take(n).len() && (#[trigger] orig.take(n)[m]).0@ == out@[j].0@;
            assert(orig.take(n + 1)[m] == orig.take(n)[m]);
        }
        let k = x.0.as_str();
        let drop = (drop_cpus && str_eq(k, "pin_cpus")) || (drop_freq && str_eq(k, "pin_freq"))
            || str_eq(k, "record_dir") || str_eq(k, "record_file");
        assert(drop == d.contains(x.0@));
        if drop {
            assert(keyed(out@) =~= keyed(orig.take(n + 1)).remove_keys(d));
        } else {
            let ghost before = out@;
            out.push(x);
            assert(out@ == before.push(orig[n]));
            assert(out@.drop_last() =~= before);
            assert(keyed(out@) =~= keyed(orig.take(n + 1)).remove_keys(d));
            assert forall|a: int, b: int| 0 <= a < b < out.len() implies (#[trigger] out@[a]).0@
                != (#[trigger] out@[b]).0@ by {
                if b == out.len() - 1 {
                    assert(keys_of(orig.take(n)).contains(before[a].0@));
                }
            }
            assert(keys_of(orig.take(n + 1)).contains(orig[n].0@)) by {
                assert(orig.take(n + 1)[n] == orig[n]);
            }
        }
    }
    assert(orig.take(orig.len() as int) =~= orig);
    out
}

/// `run`'s config with what was true of its host alone named for this one or left out: a pool of
/// cpu numbers becomes the profile `profiles` declares for the record's placement, a clock in MHz
/// and a record path are left out, and every other key is kept as the record has it. Pure, the
/// host's profiles and identity passed in, and `version` the one this build carries. The run is
/// taken whole, its config becoming the adapted one.
pub fn adapt(run: Recorded, profiles: &Vec<(String, String)>, here: &Host, version: &str) -> (r: Adapted)
    requires
        run_table_wf(run.run@),
    ensures
        unique_keys(r.table@),
        pool_outcome(run, profiles@).0 is None ==> table_map(r.table@) == table_map(run.run@).remove_keys(
            dropped(run),
        ),
        pool_outcome(run, profiles@).0 matches Some(name) ==> {
            &&& table_map(r.table@).remove("pin_cpus"@) == table_map(run.run@).remove_keys(dropped(run))
            &&& table_map(r.table@).contains_key("pin_cpus"@)
            &&& table_map(r.table@)["pin_cpus"@] matches Shape::Value(RunValue::Text(t)) && t@ == name
        },
        text_of(r.pin_profile) == pool_outcome(run, profiles@).0,
        pair_texts(r.left_out@) == spec_left_out(run, profiles@),
        r.notes.deep_view() == spec_notes(run, profiles@, *here, version@),
{
    let host = run.host.name.as_str();
    let series = as_str_opt(&run.series);
    let label = as_str_opt(&run.label);
    let placement = as_str_opt(&run.pin_placement);
    let mut notes: Vec<String> = Vec::new();
    let mut first = string_of("from the record: series ");
    push_str(&mut first, shown(series, "none"));
    push_str(&mut first, ", label ");
    push_str(&mut first, shown(label, "-"));
    push_str(&mut first, ", written by iiac-perf ");
    push_str(&mut first, run.version.as_str());
    push_str(&mut first, " on ");
    push_str(&mut first, host);
    notes.push(first);
    assert(notes.deep_view() =~= seq![record_note(run)]);
    let mut left_out: Vec<(String, String)> = Vec::new();
    let mut pin_profile: Option<String> = None;
    let ghost pool = pool_outcome(run, profiles@);
    let cpus_text: Option<&str> = match find_entry(&run.run, "pin_cpus") {
        Some(Entry::Value(RunValue::Text(t))) => Some(t.as_str()),
        _ => None,
    };
    assert(match cpus_text {
        Some(x) => run_text(run.run@, "pin_cpus"@) == Some(x@),
        None => run_text(run.run@, "pin_cpus"@) is None,
    });
    let mut drop_cpus = false;
    match cpus_text {
        Some(spec) => {
            let pooled = spec.unicode_len() > 0 && {
                let c = spec.get_char(0);
                '0' <= c && c <= '9'
            };
            drop_cpus = pooled;
            if pooled {
                let wanted: Option<&str> = match placement {
                    Some(p) => if str_eq(p, "SMT") {
                        Some("smt")
                    } else if str_eq(p, "CCX") {
                        Some("ccx")
                    } else if str_eq(p, "x-CCX") {
                        Some("x-ccx")
                    } else {
                        None
                    },
                    None => None,
                };
                proof {
                    reveal_strlit("smt");
                    reveal_strlit("ccx");
                    reveal_strlit("x-ccx");
                }
                assert(match wanted {
                    Some(w) => placement_profile(text_of(run.pin_placement)) == Some(w@),
                    None => placement_profile(text_of(run.pin_placement)) is None,
                });
                let declared = match wanted {
                    Some(name) => profile(profiles, name),
                    None => None,
                };
                match (wanted, declared) {
                    (Some(name), Some(cpus)) => {
                        pin_profile = Some(string_of(name));
                        let mut n = string_of("pin_cpus: ");
                        push_str(&mut n, host);
                        push_str(&mut n, "'s ");
                        push_str(&mut n, spec);
                        push_str(&mut n, " was ");
                        push_str(&mut n, shown(placement, "-"));
                        push_str(&mut n, ", so this host's ");
                        push_str(&mut n, name);
                        push_str(&mut n, " profile, ");
                        push_str(&mut n, cpus);
                        notes.push(n);
                        assert(notes.deep_view() =~= seq![record_note(run)] + pool.2);
                        assert(left_out@ =~= Seq::<(String, String)>::empty());
                        assert(pair_texts(left_out@) =~= pool.1);
                    },
                    _ => {
                        let mut why = string_of("the record pinned ");
                        push_str(&mut why, host);
                        push_str(&mut why, "'s cpus ");
                        push_str(&mut why, spec);
                        push_str(&mut why, ", ");
                        push_str(&mut why, shown(placement, "of unknown placement"));
                        push_str(&mut why, ", and ");
                        match wanted {
                            Some(name) => {
                                push_str(&mut why, "this host declares no ");
                                push_str(&mut why, name);
                                push_str(&mut why, " profile");
                            },
                            None => {
                                push_str(&mut why, "no profile names that placement");
                            },
                        }
                        assert(why@ =~= pool.1[0].1);
                        left_out.push((string_of("pin_cpus"), why));
                        proof {
                            reveal_strlit("pin_cpus");
                        }
                        assert(pair_texts(left_out@) =~= pool.1);
                        assert(notes.deep_view() =~= seq![record_note(run)] + pool.2);
                    },
                }
            } else {
                assert(pair_texts(left_out@) =~= pool.1);
                assert(notes.deep_view() =~= seq![record_note(run)] + pool.2);
            }
        },
        None => {
            assert(pair_texts(left_out@) =~= pool.1);
            assert(notes.deep_view() =~= seq![record_note(run)] + pool.2);
        },
    }
    let ghost lo1 = pair_texts(left_out@);
    let mut drop_freq = false;
    match find_entry(&run.run, "pin_freq") {
        Some(Entry::Value(RunValue::Integer(mhz))) => {
            let mut why = string_of("the record pinned ");
            push_str(&mut why, host);
            push_str(&mut why, "'s clock at ");
            push_signed(&mut why, *mhz);
            push_str(&mut why, " MHz, and \"pin_mhz\" names this host's own");
            left_out.push((string_of("pin_freq"), why));
            drop_freq = true;
        },
        _ => {},
    }
    push_path_left_out(&mut left_out, "record_dir", &run.run, host);
    push_path_left_out(&mut left_out, "record_file", &run.run, host);
    assert(pair_texts(left_out@) =~= spec_left_out(run, profiles@));
    note_differs(&mut notes, "cpu", as_str_opt(&run.host.cpu_model), as_str_opt(&here.cpu_model), host);
    note_differs(&mut notes, "kernel", as_str_opt(&run.host.kernel), as_str_opt(&here.kernel), host);
    note_differs(&mut notes, "rustc", Some(run.host.rustc.as_str()), Some(here.rustc.as_str()), host);
    note_differs(&mut notes, "version", Some(run.version.as_str()), Some(version), host);
    assert(notes.deep_view() =~= spec_notes(run, profiles@, *here, version@));
    let ghost d = dropped(run);
    let ghost orig = run.run@;
    let Recorded { series: _, bench: _, label: _, run: src, pin_placement: _, host: _, version: _ } = run;
    let mut table = without_keys(src, drop_cpus, drop_freq, Ghost(d));
    assert(table_map(table@) =~= table_map(orig).remove_keys(d));
    match &pin_profile {
        Some(name) => {
            let ghost before = table@;
            proof {
                lemma_keyed_dom(before);
                assert(d.contains("pin_cpus"@));
            }
            let x = (string_of("pin_cpus"), Entry::Value(RunValue::Text(name.clone())));
            proof {
                reveal_strlit("pin_cpus");
            }
            table.push(x);
            proof {
                lemma_table_push(before, x);
                assert(!keys_of(before).contains("pin_cpus"@));
                assert forall|a: int, b: int| 0 <= a < b < table.len() implies (#[trigger] table@[a]).0@
                    != (#[trigger] table@[b]).0@ by {
                    if b == table.len() - 1 {
                        assert(table@[a] == before[a]);
                        assert(keys_of(before).contains(before[a].0@));
                    }
                }
                assert(table_map(table@).remove("pin_cpus"@) =~= table_map(before));
            }
        },
        None => {},
    }
    Adapted { table, pin_profile, left_out, notes }
}

/// Whether run `i` is the first of its series.
pub open spec fn first_of_series(runs: Seq<Recorded>, i: int) -> bool {
    forall|j: int| 0 <= j < i ==> text_of(#[trigger] runs[j].series) != text_of(runs[i].series)
}

/// The benches the runs of series `s` ran, each once, in the order they first ran.
pub open spec fn series_benches(runs: Seq<Recorded>, s: Option<Seq<char>>) -> Seq<Seq<char>>
    decreases runs.len(),
{
    if runs.len() == 0 {
        Seq::empty()
    } else {
        let b = series_benches(runs.drop_last(), s);
        let r = runs.last();
        if text_of(r.series) == s && !b.contains(r.bench@) {
            b.push(r.bench@)
        } else {
            b
        }
    }
}

/// A series' line in a listing: its id, the label its first run carries, its benches.
pub open spec fn group_line(first: Recorded, benches: Seq<Seq<char>>) -> Seq<char> {
    "  "@ + or_text(text_of(first.series), "none"@) + "  label "@ + or_text(text_of(first.label), "-"@)
        + "  benches "@ + joined(benches, ", "@)
}

/// The lines of the series whose first run is among the first `n`, in that order.
pub open spec fn listing_lines(runs: Seq<Recorded>, n: int) -> Seq<Seq<char>>
    decreases n,
{
    if n <= 0 {
        Seq::empty()
    } else {
        let l = listing_lines(runs, n - 1);
        if first_of_series(runs, n - 1) {
            l.push(group_line(runs[n - 1], series_benches(runs, text_of(runs[n - 1].series))))
        } else {
            l
        }
    }
}

/// Each series in a record file, once, in file order: its id, label, and benches.
pub open spec fn spec_listing(runs: Seq<Recorded>) -> Seq<char> {
    joined(listing_lines(runs, runs.len() as int), "\n"@)
}

/// The series a run is listed under.
pub open spec fn series_shown(r: Recorded) -> Seq<char> {
    or_text(text_of(r.series), "none"@)
}

/// Whether two optional strings are equal.
fn same_opt(a: &Option<String>, b: &Option<String>) -> (r: bool)
    ensures
        r == (text_of(*a) == text_of(*b)),
{
    same_text(as_str_opt(a), as_str_opt(b))
}

/// The benches the runs of `runs` in `series` ran, each once, in the order they first ran.
fn benches_of(runs: &Vec<Recorded>, series: &Option<String>) -> (r: Vec<String>)
    ensures
        r.deep_view() == series_benches(runs@, text_of(*series)),
{
    let mut b: Vec<String> = Vec::new();
    let mut i: usize = 0;
    while i < runs.len()
        invariant
            i <= runs.len(),
            b.deep_view() == series_benches(runs@.take(i as int), text_of(*series)),
        decreases runs.len() - i,
    {
        assert(runs@.take(i + 1).drop_last() =~= runs@.take(i as int));
        assert(runs@.take(i + 1).last() == runs@[i as int]);
        if same_opt(&runs[i].series, series) && !crate::text::contains_string(&b, &runs[i].bench) {
            b.push(runs[i].bench.clone());
            assert(b.deep_view() =~= series_benches(runs@.take(i + 1), text_of(*series)));
        }
        i = i + 1;
    }
    assert(runs@.take(runs.len() as int) =~= runs@);
    b
}

/// Each series in a record file, once, in file order: its id, label, and benches.
pub fn listing(runs: &Vec<Recorded>) -> (r: String)
    ensures
        r@ == spec_listing(runs@),
{
    let mut lines: Vec<String> = Vec::new();
    let mut i: usize = 0;
    while i < runs.len()
        invariant
            i <= runs.len(),
            lines.deep_view() == listing_lines(runs@, i as int),
        decreases runs.len() - i,
    {
        let mut first = true;
        let mut j: usize = 0;
        while j < i
            invariant
                j <= i < runs.len(),
                first == forall|k: int| 0 <= k < j ==> text_of(#[trigger] runs@[k].series) != text_of(runs@[i as int].series),
            decreases i - j,
        {
            if same_opt(&runs[j].series, &runs[i].series) {
                first = false;
            }
            j = j + 1;
        }
        if first {
            let benches = benches_of(runs, &runs[i].series);
            let mut line = string_of("  ");
            push_str(&mut line, shown(as_str_opt(&runs[i].series), "none"));
            push_str(&mut line, "  label ");
            push_str(&mut line, shown(as_str_opt(&runs[i].label), "-"));
            push_str(&mut line, "  benches ");
            let joined_benches = join(&benches, ", ");
            push_str(&mut line, joined_benches.as_str());
            lines.push(line);
        }
        assert(lines.deep_view() =~= listing_lines(runs@, i + 1));
        i = i + 1;
    }
    join(&lines, "\n")
}

/// The one invocation a record file names: its only series, or the one `series` picks, by the
/// id its listing shows. Several series and no pick is refused with each listed, since an
/// experiment's file holds many and a guess would start from the wrong one.
pub fn chosen<'a>(runs: &'a Vec<Recorded>, series: Option<&str>) -> (r: Result<&'a Recorded, String>)
    requires
        series is Some || runs.len() > 0,
    ensures
        match series {
            Some(want) => match r {
                Ok(x) => exists|k: int|
                    0 <= k < runs.len() && *x == runs@[k] && series_shown(runs@[k]) == want@ && forall|j: int|
                        0 <= j < k ==> series_shown(#[trigger] runs@[j]) != want@,
                Err(e) => (forall|j: int| 0 <= j < runs.len() ==> series_shown(#[trigger] runs@[j]) != want@)
                    && e@ == "no record has series "@ + want@ + "\n"@ + spec_listing(runs@),
            },
            None => match r {
                Ok(x) => *x == runs@[0] && forall|j: int|
                    0 <= j < runs.len() ==> text_of(#[trigger] runs@[j].series) == text_of(runs@[0].series),
                Err(e) => (exists|j: int|
                    0 <= j < runs.len() && text_of(#[trigger] runs@[j].series) != text_of(runs@[0].series))
                    && e@ == "the file holds several invocations: pick one with --series ID\n"@
                    + spec_listing(runs@),
            },
        },
{
    match series {
        Some(want) => {
            let mut i: usize = 0;
            while i < runs.len()
                invariant
                    i <= runs.len(),
                    series == Some(want),
                    forall|j: int| 0 <= j < i ==> series_shown(#[trigger] runs@[j]) != want@,
                decreases runs.len() - i,
            {
                if str_eq(shown(as_str_opt(&runs[i].series), "none"), want) {
                    assert(series_shown(runs@[i as int]) == want@);
                    return Ok(&runs[i]);
                }
                i = i + 1;
            }
            let mut e = string_of("no record has series ");
            push_str(&mut e, want);
            push_str(&mut e, "\n");
            let l = listing(runs);
            push_str(&mut e, l.as_str());
            Err(e)
        },
        None => {
            let first = &runs[0];
            let mut i: usize = 0;
            while i < runs.len()
                invariant
                    i <= runs.len(),
                    series is None,
                    *first == runs@[0],
                    forall|j: int| 0 <= j < i ==> text_of(#[trigger] runs@[j].series) == text_of(runs@[0].series),
                decreases runs.len() - i,
            {
                if !same_opt(&runs[i].series, &first.series) {
                    assert(text_of(runs@[i as int].series) != text_of(runs@[0].series));
                    let mut e = string_of("the file holds several invocations: pick one with --series ID\n");
                    let l = listing(runs);
                    push_str(&mut e, l.as_str());
                    return Err(e);
                }
                i = i + 1;
            }
            Ok(first)
        },
    }
}

/// Lines, each ended by a newline.
pub open spec fn terminated(lines: Seq<Seq<char>>) -> Seq<char>
    decreases lines.len(),
{
    if lines.len() == 0 {
        Seq::empty()
    } else {
        terminated(lines.drop_last()) + lines.last() + "\n"@
    }
}

/// Lines ended one after the other are the ends of the first lines, then of the rest.
pub proof fn lemma_terminated_append(a: Seq<Seq<char>>, b: Seq<Seq<char>>)
    ensures
        terminated(a + b) == terminated(a) + terminated(b),
    decreases b.len(),
{
    if b.len() == 0 {
        assert(a + b =~= a);
        assert(terminated(a) + terminated(b) =~= terminated(a));
    } else {
        lemma_terminated_append(a, b.drop_last());
        assert((a + b).drop_last() =~= a + b.drop_last());
        assert((a + b).last() == b.last());
        assert(terminated(a + b) =~= terminated(a) + terminated(b));
    }
}

/// With nothing to set and no live section, the walk writes each line as it is and never
/// drops one.
pub proof fn lemma_render_nothing(lines: Seq<Seq<char>>)
    ensures
        render_body(lines, None, None) matches Ok((out, w)) && out == terminated(lines) && !w.dropping,
    decreases lines.len(),
{
    if lines.len() > 0 {
        lemma_render_nothing(lines.drop_last());
    }
}

/// A text whose lines all end in a newline, with no carriage return, is its lines, each ended.
pub proof fn lemma_lines_rejoin(t: Seq<char>, i: int)
    requires
        0 <= i <= t.len(),
        t.len() > 0 ==> t.last() == '\n',
        forall|k: int| 0 <= k < t.len() ==> t[k] != '\r',
    ensures
        terminated(lines_from(t, i)) == t.skip(i),
    decreases t.len() - i,
{
    if i >= t.len() {
        assert(t.skip(i) =~= Seq::<char>::empty());
    } else {
        lemma_line_end_bounds(t, i);
        let e = line_end(t, i);
        if e == t.len() {
            assert(t[t.len() - 1] == t.last());
        }
        assert(e < t.len());
        lemma_lines_rejoin(t, e + 1);
        let l = line_at(t, i);
        assert(l == t.subrange(i, e));
        lemma_terminated_append(seq![l], lines_from(t, e + 1));
        assert(seq![l].drop_last() =~= Seq::<Seq<char>>::empty());
        assert(terminated(seq![l].drop_last()) =~= Seq::<char>::empty());
        assert(seq![l].last() == l);
        assert(terminated(seq![l]) =~= l + "\n"@);
        reveal_strlit("\n");
        assert(t.skip(i) =~= t.subrange(i, e) + "\n"@ + t.skip(e + 1));
    }
}

/// Nothing set, nothing changed: the template rendered with no values and no live `[freq]`
/// section is the template itself, when its lines end in newlines.
pub proof fn bare_render_is_the_template(template: Seq<char>)
    requires
        template.len() > 0 ==> template.last() == '\n',
        forall|k: int| 0 <= k < template.len() ==> template[k] != '\r',
    ensures
        spec_render(template, None, None) == Ok::<Seq<char>, Seq<char>>(template),
{
    lemma_render_nothing(lines_from(template, 0));
    lemma_lines_rejoin(template, 0);
    assert(template.skip(0) =~= template);
}

/// The key a template line leaves commented out, when it is a commented-out key line.
pub open spec fn commented_key(line: Seq<char>) -> Option<Seq<char>> {
    match spec_uncommented(line) {
        Some(body) => spec_key_name(body),
        None => None,
    }
}

/// A note's lines as comments, each `# ` and the line.
pub open spec fn comment_lines(note: Seq<Seq<char>>) -> Seq<char>
    decreases note.len(),
{
    if note.len() == 0 {
        Seq::empty()
    } else {
        comment_lines(note.drop_last()) + "# "@ + note.last() + "\n"@
    }
}

/// What [`annotated`] writes for `lines`, whether a `toml` fence is open after them, and whether
/// the note is in.
pub open spec fn annotate_body(lines: Seq<Seq<char>>, key: Seq<char>, note: Seq<Seq<char>>) -> (
    Seq<char>,
    bool,
    bool,
)
    decreases lines.len(),
{
    if lines.len() == 0 {
        (Seq::empty(), false, false)
    } else {
        let (out, in_fence, done) = annotate_body(lines.drop_last(), key, note);
        let line = lines.last();
        if starts_with(line, "```"@) {
            (out + line + "\n"@, !in_fence && starts_with(line, "```toml"@), done)
        } else if in_fence && !done && commented_key(line) == Some(key) {
            (out + comment_lines(note) + line + "\n"@, in_fence, true)
        } else {
            (out + line + "\n"@, in_fence, done)
        }
    }
}

/// `text` with `note` as comments above the first commented-out `key` line inside a fence, so
/// the file says why a key the record set is not set here. A `# ` line inside a fence is a
/// comment by the template's rule, in either carrier. `note` comes as the lines to write, wrapped
/// as the caller wraps them.
pub fn annotated(text: &str, key: &str, note: &Vec<String>) -> (r: String)
    ensures
        r@ == annotate_body(lines_from(text@, 0), key@, note.deep_view()).0,
{
    let v = chars_of(text);
    let n = v.len();
    assert(v@ == text@) by {
        assert(v@.subrange(0, n as int) =~= v@);
    }
    let mut comments = String::new();
    let mut c: usize = 0;
    while c < note.len()
        invariant
            c <= note.len(),
            comments@ == comment_lines(note.deep_view().take(c as int)),
        decreases note.len() - c,
    {
        push_str(&mut comments, "# ");
        push_str(&mut comments, note[c].as_str());
        push_str(&mut comments, "\n");
        assert(note.deep_view().take(c + 1).drop_last() =~= note.deep_view().take(c as int));
        assert(note.deep_view()[c as int] == note@[c as int]@);
        c = c + 1;
    }
    assert(note.deep_view().take(note.len() as int) =~= note.deep_view());
    let mut out = String::new();
    let mut in_fence = false;
    let mut done = false;
    let mut i: usize = 0;
    let ghost mut seen: Seq<Seq<char>> = Seq::empty();
    while i < n
        invariant
            n == v.len(),
            v@ == text@,
            i <= n,
            comments@ == comment_lines(note.deep_view()),
            lines_from(text@, 0) == seen + lines_from(text@, i as int),
            annotate_body(seen, key@, note.deep_view()) == (out@, in_fence, done),
        decreases n - i,
    {
        let (b, e) = line_bounds(&v, i);
        let line = string_from_range(&v, i, b);
        let ghost before = seen;
        proof {
            lemma_line_end_bounds(text@, i as int);
            seen = seen.push(line@);
            assert(lines_from(text@, i as int) == seq![line@] + lines_from(text@, (e + 1) as int));
            assert(before + lines_from(text@, i as int) =~= seen + lines_from(text@, (e + 1) as int));
            assert(seen.drop_last() =~= before);
            assert(seen.last() == line@);
        }
        let ghost out0 = out@;
        let ghost mut pre: Seq<char> = Seq::empty();
        assert(line@ == v@.subrange(i as int, b as int));
        if starts_at(&v, i, b, "```") {
            in_fence = !in_fence && starts_at(&v, i, b, "```toml");
        } else if in_fence && !done {
            let here = match uncommented(line.as_str()) {
                Some(body) => match key_name(body) {
                    Some(k) => str_eq(k, key),
                    None => false,
                },
                None => false,
            };
            assert(here == (commented_key(line@) == Some(key@)));
            if here {
                push_str(&mut out, comments.as_str());
                done = true;
                proof {
                    pre = comments@;
                }
            }
        }
        push_str(&mut out, line.as_str());
        push_str(&mut out, "\n");
        assert(out@ =~= out0 + pre + line@ + "\n"@);
        if e >= n {
            i = n;
        } else {
            i = e + 1;
        }
    }
    assert(lines_from(text@, i as int) =~= Seq::<Seq<char>>::empty());
    assert(seen =~= lines_from(text@, 0));
    out
}
} // verus!
