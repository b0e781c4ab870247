//! `figures`: what a picture of the records is asked to draw. The choice of runs, the x axis,
//! the output format by the path's extension, and text made safe for SVG are decided here; the
//! drawing itself, in floating point, and the files are outside this crate.

use vstd::prelude::*;
use crate::analyze::{lemma_find_char_bounds, lemma_find_char_shift};
use crate::text::{
    chars_of, extension, find_char, find_char_in, parse_u64_chars, path_extension, push_char,
    push_str, spec_parse_u64, str_eq, string_of, trim_bounds, trimmed,
};

verus! {

/// Which runs of an invocation a panel draws.
#[derive(Debug, Clone, PartialEq, Eq)]
pub enum Show {
    /// Every run.
    All,
    /// Every run, the ones the trim keeps in colour and the ones it drops in faint grey.
    Trim,
    /// The fastest and the slowest run by mean.
    Extremes,
    /// These runs by number, coloured in the order given.
    Runs(Vec<u64>),
}

/// `acc` in front of a list still being read, `None` staying `None`.
pub open spec fn prepend(acc: Seq<u64>, rest: Option<Seq<u64>>) -> Option<Seq<u64>> {
    match rest {
        Some(r) => Some(acc + r),
        None => None,
    }
}

/// The comma-separated run numbers of `s` from index `i`, each trimmed and read as
/// `str::parse::<u64>` reads it; `None` when any piece is not a number.
pub open spec fn runs_from(s: Seq<char>, i: int) -> Option<Seq<u64>>
    decreases s.len() + 1 - i,
    via runs_from_decreases
{
    if i < 0 || i > s.len() {
        Some(Seq::empty())
    } else {
        let e = find_char(s, i, ',');
        match spec_parse_u64(trimmed(s.subrange(i, e))) {
            None => None,
            Some(n) => if e < s.len() {
                prepend(seq![n], runs_from(s, e + 1))
            } else {
                Some(seq![n])
            },
        }
    }
}

/// Each piece read moves the split forward.
#[via_fn]
proof fn runs_from_decreases(s: Seq<char>, i: int) {
    if 0 <= i <= s.len() {
        lemma_find_char_bounds(s, i, ',');
    }
}

/// The run numbers `s` lists, when every piece is a number and none is 0.
pub open spec fn spec_runs(s: Seq<char>) -> Option<Seq<u64>> {
    match runs_from(s, 0) {
        Some(v) => if v.contains(0) {
            None
        } else {
            Some(v)
        },
        None => None,
    }
}

/// The refusal of a `--show` value.
pub open spec fn bad_show(s: Seq<char>) -> Seq<char> {
    "'"@ + s + "' is not all, trim, extremes, or run numbers, as in 3,1,7"@
}

/// Whether `s` is one of the three words.
pub open spec fn show_word(s: Seq<char>) -> bool {
    s == "all"@ || s == "trim"@ || s == "extremes"@
}

impl Show {
    /// Parse `all`, `trim`, `extremes`, or a list of run numbers, `3,1,7`.
    pub fn parse(s: &str) -> (r: Result<Show, String>)
        ensures
            s@ == "all"@ ==> r matches Ok(Show::All),
            s@ == "trim"@ ==> r matches Ok(Show::Trim),
            s@ == "extremes"@ ==> r matches Ok(Show::Extremes),
            !show_word(s@) ==> match spec_runs(s@) {
                Some(v) => (r matches Ok(Show::Runs(w)) && w@ == v),
                None => (r matches Err(e) && e@ == bad_show(s@)),
            },
    {
        proof {
            reveal_strlit("all");
            reveal_strlit("trim");
            reveal_strlit("extremes");
        }
        if str_eq(s, "all") {
            return Ok(Show::All);
        }
        if str_eq(s, "trim") {
            return Ok(Show::Trim);
        }
        if str_eq(s, "extremes") {
            return Ok(Show::Extremes);
        }
        let v = chars_of(s);
        let n = v.len();
        assert(v@ == s@) by {
            assert(v@.subrange(0, n as int) =~= v@);
        }
        let mut runs: Vec<u64> = Vec::new();
        let mut i: usize = 0;
        let mut ok = true;
        loop
            invariant_except_break
                ok,
                i <= n,
                runs_from(s@, 0) == prepend(runs@, runs_from(s@, i as int)),
            invariant
                n == v.len(),
                v@ == s@,
            ensures
                ok ==> runs_from(s@, 0) == Some(runs@),
                !ok ==> runs_from(s@, 0) is None,
            decreases n + 1 - i,
        {
            let e = find_char_in(&v, i, n, ',');
            proof {
                lemma_find_char_bounds(s@, i as int, ',');
                assert(v@.subrange(i as int, n as int) =~= s@.subrange(i as int, n as int));
                lemma_find_char_shift(s@, i as int, 0);
                assert(v@.subrange(i as int, e as int) =~= s@.subrange(i as int, e as int));
            }
            let (a, b) = trim_bounds(&v, i, e);
            assert(runs_from(s@, i as int) == match spec_parse_u64(v@.subrange(a as int, b as int)) {
                None => None,
                Some(m) => if e < n {
                    prepend(seq![m], runs_from(s@, (e + 1) as int))
                } else {
                    Some(seq![m])
                },
            });
            match parse_u64_chars(&v, a, b) {
                None => {
                    ok = false;
                    break;
                },
                Some(num) => {
                    let ghost before = runs@;
                    runs.push(num);
                    if e >= n {
                        assert(runs@ =~= before + seq![num]);
                        break;
                    }
                    assert(runs_from(s@, i as int) == prepend(seq![num], runs_from(s@, (e + 1) as int)));
                    assert(prepend(before, prepend(seq![num], runs_from(s@, (e + 1) as int)))
                        =~= prepend(runs@, runs_from(s@, (e + 1) as int))) by {
                        if runs_from(s@, (e + 1) as int) is Some {
                            assert(before + (seq![num] + runs_from(s@, (e + 1) as int)->0) =~= runs@
                                + runs_from(s@, (e + 1) as int)->0);
                        }
                    }
                    i = e + 1;
                },
            }
        }
        if ok {
            let mut k: usize = 0;
            while k < runs.len() && runs[k] != 0
                invariant
                    k <= runs.len(),
                    forall|j: int| 0 <= j < k ==> runs@[j] != 0,
                decreases runs.len() - k,
            {
                k = k + 1;
            }
            if k == runs.len() {
                assert(!runs@.contains(0));
                return Ok(Show::Runs(runs));
            }
            assert(runs@.contains(0)) by {
                assert(runs@[k as int] == 0);
            }
        }
        let mut e = string_of("'");
        push_str(&mut e, s);
        push_str(&mut e, "' is not all, trim, extremes, or run numbers, as in 3,1,7");
        Err(e)
    }
}

/// The x axis: when each block ran, or its number.
#[derive(Debug, Clone, Copy, PartialEq, Eq, Structural)]
pub enum XAxis {
    /// Seconds from the warm's start, the block sleeps included, so a drift in wall time shows.
    Time,
    /// The block's number, so runs line up block for block.
    Block,
}

/// The refusal of an `--x` value.
pub open spec fn bad_axis(s: Seq<char>) -> Seq<char> {
    "'"@ + s + "' is not time or block"@
}

impl XAxis {
    /// Parse `time` or `block`.
    pub fn parse(s: &str) -> (r: Result<XAxis, String>)
        ensures
            s@ == "time"@ ==> r matches Ok(XAxis::Time),
            s@ == "block"@ ==> r matches Ok(XAxis::Block),
            s@ != "time"@ && s@ != "block"@ ==> (r matches Err(e) && e@ == bad_axis(s@)),
    {
        proof {
            reveal_strlit("time");
            reveal_strlit("block");
            assert("time"@.len() != "block"@.len());
        }
        if str_eq(s, "time") {
            Ok(XAxis::Time)
        } else if str_eq(s, "block") {
            Ok(XAxis::Block)
        } else {
            let mut e = string_of("'");
            push_str(&mut e, s);
            push_str(&mut e, "' is not time or block");
            Err(e)
        }
    }
}

/// One character made safe for SVG text.
pub open spec fn escape_char(c: char) -> Seq<char> {
    if c == '&' {
        "&amp;"@
    } else if c == '<' {
        "&lt;"@
    } else if c == '>' {
        "&gt;"@
    } else {
        seq![c]
    }
}

/// Text made safe for SVG: `&`, `<` and `>` spelled as entities, everything else as it is.
pub open spec fn escaped(s: Seq<char>) -> Seq<char>
    decreases s.len(),
{
    if s.len() == 0 {
        Seq::empty()
    } else {
        escaped(s.drop_last()) + escape_char(s.last())
    }
}

/// Text made safe for SVG.
pub fn escape(s: &str) -> (r: String)
    ensures
        r@ == escaped(s@),
{
    let v = chars_of(s);
    assert(v@ == s@) by {
        assert(v@.subrange(0, v@.len() as int) =~= v@);
    }
    let mut out = String::new();
    let mut i: usize = 0;
    while i < v.len()
        invariant
            i <= v.len(),
            v@ == s@,
            out@ == escaped(s@.take(i as int)),
        decreases v.len() - i,
    {
        let c = v[i];
        assert(s@.take(i + 1).drop_last() =~= s@.take(i as int));
        if c == '&' {
            push_str(&mut out, "&amp;");
        } else if c == '<' {
            push_str(&mut out, "&lt;");
        } else if c == '>' {
            push_str(&mut out, "&gt;");
        } else {
            push_char(&mut out, c);
        }
        i = i + 1;
    }
    assert(s@.take(v.len() as int) =~= s@);
    out
}

/// The format a figure is written in, by its path's extension.
#[derive(Debug, Clone, Copy, PartialEq, Eq, Structural)]
pub enum Format {
    /// `.svg`: the drawing as text.
    Svg,
    /// `.png`: the drawing rasterized.
    Png,
}

/// The refusal of an output path that names neither format.
pub open spec fn bad_format(out: Seq<char>) -> Seq<char> {
    out + ": name a .png or a .svg, the format following the extension"@
}

/// The format `out` names, `.svg` or `.png`.
pub fn format_of(out: &str) -> (r: Result<Format, String>)
    ensures
        path_extension(out@) == Some("svg"@) ==> r matches Ok(Format::Svg),
        path_extension(out@) == Some("png"@) ==> r matches Ok(Format::Png),
        path_extension(out@) != Some("svg"@) && path_extension(out@) != Some("png"@) ==> (r matches Err(e)
            && e@ == bad_format(out@)),
{
    proof {
        reveal_strlit("svg");
        reveal_strlit("png");
        assert("svg"@[0] != "png"@[0]);
    }
    match extension(out) {
        Some(e) => {
            if str_eq(e.as_str(), "svg") {
                return Ok(Format::Svg);
            }
            if str_eq(e.as_str(), "png") {
                return Ok(Format::Png);
            }
        },
        None => {},
    }
    let mut e = string_of(out);
    push_str(&mut e, ": name a .png or a .svg, the format following the extension");
    Err(e)
}

} // verus!
