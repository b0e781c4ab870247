//! Config values with rules of their own: the `[freq]` steady-state table and its one-line
//! summary, the `pin_freq` word a config file or the `--pin-freq` flag gives, a `--pin-cpus`
//! spec resolved against the declared profiles, where the config files are looked for, and what
//! a file that will not parse is told.
//!
//! The files themselves are TOML (or markdown carrying TOML fences), read and layered outside
//! this crate; what a value means, and which values are refused, is decided here.

use vstd::prelude::*;
use crate::text::{
    debug_quote, debug_quoted, decimal, extension, join, joined, parse_u64, path_extension,
    push_decimal, push_str, spec_parse_u64, str_eq, string_of, trim_start, starts_with, lines_from,
    line_bounds, chars_of, string_from_chars, white, lemma_line_end_bounds, sorted_of,
    strictly_sorted, insert_text, lemma_sorted_of,
};
use crate::layers::entries_map;

verus! {

/// A run's clock pin, from `pin_freq` in a config or `--pin-freq` on the line.
#[derive(Debug, Clone, Copy, PartialEq, Eq, Structural)]
pub enum PinFreq {
    /// No pin: `--pin-freq=no`, one run. In a file `"no"` is the same as no key.
    Off,
    /// Pin at the `[freq]` table's `pin_mhz`, else the base clock: `pin_mhz`, and the bare flag.
    PinMhz,
    /// Pin at the `[freq]` table's `min_mhz`.
    MinMhz,
    /// Pin at the `[freq]` table's `max_mhz`.
    MaxMhz,
    /// Pin at this frequency (MHz).
    Mhz(u64),
}

/// `pin_freq` as a config file spells it: a frequency or a word.
#[derive(Debug, Clone, PartialEq, Eq)]
pub enum RawPinFreq {
    /// A frequency in MHz.
    Mhz(u64),
    /// `"pin_mhz"`, `"min_mhz"`, `"max_mhz"`, or `"no"`.
    Word(String),
}

/// The refusal of a `pin_freq` value that is neither a word nor a frequency.
pub open spec fn not_a_pin_word(v: Seq<char>) -> Seq<char> {
    debug_quoted(v) + " is not a frequency in MHz, \"pin_mhz\", \"min_mhz\", \"max_mhz\", or \"no\""@
}

/// What a `pin_freq` word or number means: `Ok(None)` is `no`.
pub open spec fn spec_parse_word(v: Seq<char>) -> Result<Option<PinFreq>, Seq<char>> {
    if v == "pin_mhz"@ {
        Ok(Some(PinFreq::PinMhz))
    } else if v == "min_mhz"@ {
        Ok(Some(PinFreq::MinMhz))
    } else if v == "max_mhz"@ {
        Ok(Some(PinFreq::MaxMhz))
    } else if v == "no"@ {
        Ok(None)
    } else {
        match spec_parse_u64(v) {
            Some(0) => Err("0 is not a frequency"@),
            Some(mhz) => Ok(Some(PinFreq::Mhz(mhz))),
            None => Err(not_a_pin_word(v)),
        }
    }
}

/// The `--pin-freq` flag's meaning: bare is `PinMhz`, `no` is `Off`.
pub open spec fn spec_from_flag(value: Option<Seq<char>>) -> Result<PinFreq, Seq<char>> {
    match value {
        None => Ok(PinFreq::PinMhz),
        Some(v) => match spec_parse_word(v) {
            Ok(Some(p)) => Ok(p),
            Ok(None) => Ok(PinFreq::Off),
            Err(e) => Err(e),
        },
    }
}

/// A file's `pin_freq` meaning, `Ok(None)` for `"no"`.
pub open spec fn spec_pin_freq_from_raw(raw: RawPinFreq) -> Result<Option<PinFreq>, Seq<char>> {
    match raw {
        RawPinFreq::Mhz(m) => if m == 0 {
            Err("pin_freq: 0 is not a frequency"@)
        } else {
            Ok(Some(PinFreq::Mhz(m)))
        },
        RawPinFreq::Word(w) => match spec_parse_word(w@) {
            Ok(p) => Ok(p),
            Err(e) => Err("pin_freq: "@ + e),
        },
    }
}

/// An exec result matches its spec, the error compared by its text.
pub open spec fn same_result<T>(r: Result<T, String>, s: Result<T, Seq<char>>) -> bool {
    match r {
        Ok(v) => s == Ok::<T, Seq<char>>(v),
        Err(e) => s == Err::<T, Seq<char>>(e@),
    }
}

impl PinFreq {
    /// A `pin_freq` word or number as text, shared by the flag and the file: `pin_mhz`,
    /// `min_mhz`, `max_mhz`, `no`, or a frequency in MHz. `None` is `no`.
    pub fn parse_word(value: &str) -> (r: Result<Option<PinFreq>, String>)
        ensures
            same_result(r, spec_parse_word(value@)),
    {
        if str_eq(value, "pin_mhz") {
            return Ok(Some(PinFreq::PinMhz));
        }
        if str_eq(value, "min_mhz") {
            return Ok(Some(PinFreq::MinMhz));
        }
        if str_eq(value, "max_mhz") {
            return Ok(Some(PinFreq::MaxMhz));
        }
        if str_eq(value, "no") {
            return Ok(None);
        }
        match parse_u64(value) {
            Some(0) => Err(string_of("0 is not a frequency")),
            Some(mhz) => Ok(Some(PinFreq::Mhz(mhz))),
            None => {
                let mut e = debug_quote(value);
                push_str(
                    &mut e,
                    " is not a frequency in MHz, \"pin_mhz\", \"min_mhz\", \"max_mhz\", or \"no\"",
                );
                Err(e)
            },
        }
    }

    /// The `--pin-freq` flag's value: bare for [`PinFreq::PinMhz`], `no` for no pin this run, or
    /// any other `pin_freq` value.
    pub fn from_flag(value: Option<&str>) -> (r: Result<PinFreq, String>)
        ensures
            same_result(
                r,
                spec_from_flag(
                    match value {
                        Some(v) => Some(v@),
                        None => None,
                    },
                ),
            ),
    {
        match value {
            None => Ok(PinFreq::PinMhz),
            Some(v) => match PinFreq::parse_word(v) {
                Ok(Some(p)) => Ok(p),
                Ok(None) => Ok(PinFreq::Off),
                Err(e) => Err(e),
            },
        }
    }
}

/// A file's `pin_freq`: `Ok(None)` for `"no"`, which is the same as no key, so a lower file's pin
/// still applies.
pub fn pin_freq_from_raw(raw: &RawPinFreq) -> (r: Result<Option<PinFreq>, String>)
    ensures
        same_result(r, spec_pin_freq_from_raw(*raw)),
{
    match raw {
        RawPinFreq::Mhz(mhz) => {
            if *mhz == 0 {
                Err(string_of("pin_freq: 0 is not a frequency"))
            } else {
                Ok(Some(PinFreq::Mhz(*mhz)))
            }
        },
        RawPinFreq::Word(w) => match PinFreq::parse_word(w.as_str()) {
            Ok(p) => Ok(p),
            Err(e) => {
                let mut m = string_of("pin_freq: ");
                push_str(&mut m, e.as_str());
                Err(m)
            },
        },
    }
}

/// The `[freq]` table: the box's declared steady state, and optionally a pin target.
/// Frequencies are MHz; the kHz conversion happens at the sysfs boundary.
#[derive(Debug, Clone, PartialEq, Eq)]
pub struct FreqConfig {
    /// Steady-state `scaling_governor` token, e.g. `powersave`.
    pub governor: String,
    /// Steady-state `energy_performance_preference` token.
    pub epp: Option<String>,
    /// Steady-state boost switch.
    pub boost: Option<bool>,
    /// Steady-state lower clamp (MHz).
    pub min_mhz: Option<u64>,
    /// Steady-state upper clamp (MHz).
    pub max_mhz: Option<u64>,
    /// Pin target (MHz) for `pin-freq` and `--pin-freq`.
    pub pin_mhz: Option<u64>,
}

/// A clamp end as the summary prints it.
pub open spec fn limit_text(v: Option<u64>) -> Seq<char> {
    match v {
        Some(m) => decimal(m as nat),
        None => "undeclared"@,
    }
}

/// The summary's parts, in order.
pub open spec fn summary_parts(f: FreqConfig) -> Seq<Seq<char>> {
    let p0 = seq![f.governor@];
    let p1 = match f.epp {
        Some(e) => p0.push("EPP "@ + e@),
        None => p0,
    };
    let p2 = match f.boost {
        Some(b) => p1.push(
            "boost "@ + if b {
                "on"@
            } else {
                "off"@
            },
        ),
        None => p1,
    };
    let p3 = match (f.min_mhz, f.max_mhz) {
        (Some(mn), Some(mx)) => p2.push(
            "clamp "@ + decimal(mn as nat) + "-"@ + decimal(mx as nat) + " MHz"@,
        ),
        _ => p2.push(
            "clamp "@ + limit_text(f.min_mhz) + "-"@ + limit_text(f.max_mhz) + " (incomplete)"@,
        ),
    };
    match f.pin_mhz {
        Some(p) => p3.push("pin "@ + decimal(p as nat) + " MHz"@),
        None => p3,
    }
}

/// A clamp end as the summary prints it.
fn push_limit(s: &mut String, v: Option<u64>)
    ensures
        final(s)@ == old(s)@ + limit_text(v),
{
    match v {
        Some(m) => push_decimal(s, m),
        None => push_str(s, "undeclared"),
    }
}

impl FreqConfig {
    /// The declared table in one line, as the `Config:` list and the record print it.
    pub fn summary(&self) -> (r: String)
        ensures
            r@ == joined(summary_parts(*self), ", "@),
    {
        let mut parts: Vec<String> = Vec::new();
        parts.push(self.governor.clone());
        if let Some(epp) = &self.epp {
            let mut p = string_of("EPP ");
            push_str(&mut p, epp.as_str());
            parts.push(p);
        }
        if let Some(boost) = self.boost {
            let mut p = string_of("boost ");
            if boost {
                push_str(&mut p, "on");
            } else {
                push_str(&mut p, "off");
            }
            parts.push(p);
        }
        let mut c = string_of("clamp ");
        match (self.min_mhz, self.max_mhz) {
            (Some(mn), Some(mx)) => {
                push_decimal(&mut c, mn);
                push_str(&mut c, "-");
                push_decimal(&mut c, mx);
                push_str(&mut c, " MHz");
            },
            (mn, mx) => {
                push_limit(&mut c, mn);
                push_str(&mut c, "-");
                push_limit(&mut c, mx);
                push_str(&mut c, " (incomplete)");
            },
        }
        parts.push(c);
        if let Some(pin) = self.pin_mhz {
            let mut p = string_of("pin ");
            push_decimal(&mut p, pin);
            push_str(&mut p, " MHz");
            parts.push(p);
        }
        assert(parts.deep_view() =~= summary_parts(*self));
        join(&parts, ", ")
    }
}

/// The first box-independent fault of a `[freq]` table, `None` when it has none.
pub open spec fn freq_fault(f: FreqConfig) -> Option<Seq<char>> {
    if f.governor@.len() == 0 {
        Some("freq.governor: empty"@)
    } else if f.min_mhz == Some(0u64) {
        Some("freq.min_mhz: 0 is not a frequency"@)
    } else if f.max_mhz == Some(0u64) {
        Some("freq.max_mhz: 0 is not a frequency"@)
    } else if f.pin_mhz == Some(0u64) {
        Some("freq.pin_mhz: 0 is not a frequency"@)
    } else {
        match (f.min_mhz, f.max_mhz) {
            (Some(mn), Some(mx)) => if mn > mx {
                Some(
                    "freq: min_mhz "@ + decimal(mn as nat) + " exceeds max_mhz "@ + decimal(
                        mx as nat,
                    ),
                )
            } else {
                None
            },
            _ => None,
        }
    }
}

/// Validate a `[freq]` table's box-independent facts: frequencies are nonzero and the clamps
/// are ordered. Whether the tokens and values fit the actual box is checked at use time.
pub fn validate_freq(f: &FreqConfig) -> (r: Result<(), String>)
    ensures
        match r {
            Ok(()) => freq_fault(*f) is None,
            Err(e) => freq_fault(*f) == Some(e@),
        },
{
    if f.governor.as_str().unicode_len() == 0 {
        return Err(string_of("freq.governor: empty"));
    }
    if f.min_mhz == Some(0u64) {
        return Err(string_of("freq.min_mhz: 0 is not a frequency"));
    }
    if f.max_mhz == Some(0u64) {
        return Err(string_of("freq.max_mhz: 0 is not a frequency"));
    }
    if f.pin_mhz == Some(0u64) {
        return Err(string_of("freq.pin_mhz: 0 is not a frequency"));
    }
    if let (Some(mn), Some(mx)) = (f.min_mhz, f.max_mhz) {
        if mn > mx {
            let mut e = string_of("freq: min_mhz ");
            push_decimal(&mut e, mn);
            push_str(&mut e, " exceeds max_mhz ");
            push_decimal(&mut e, mx);
            return Err(e);
        }
    }
    Ok(())
}

/// `dir` joined with `name`, as `Path::join` joins on Unix: an absolute `name` replaces `dir`;
/// a relative one follows it, with a `/` between them unless `dir` is empty or already ends in
/// one.
pub open spec fn joined_path(dir: Seq<char>, name: Seq<char>) -> Seq<char> {
    if name.len() > 0 && name[0] == '/' {
        name
    } else if dir.len() == 0 || dir.last() == '/' {
        dir + name
    } else {
        dir + "/"@ + name
    }
}

/// `dir` joined with `name`, as `Path::join` joins on Unix.
pub fn join_path(dir: &str, name: &str) -> (r: String)
    ensures
        r@ == joined_path(dir@, name@),
{
    if name.unicode_len() > 0 && name.get_char(0) == '/' {
        return string_of(name);
    }
    let mut r = string_of(dir);
    let n = dir.unicode_len();
    if n > 0 && dir.get_char(n - 1) != '/' {
        push_str(&mut r, "/");
    }
    push_str(&mut r, name);
    r
}

/// The refusal of a directory holding both carriers.
pub open spec fn both_carriers(md: Seq<char>, toml: Seq<char>) -> Seq<char> {
    "both "@ + md + " and "@ + toml + " exist: keep one (.md is the recommended carrier)"@
}

/// Which carrier a layer holds, given which of its two files exist: the one present, neither,
/// or, both present, a refusal naming both, since a silent precedence would leave the user
/// editing the ignored file with no effect and no clue.
pub open spec fn spec_resolve_carrier(
    md: Seq<char>,
    toml: Seq<char>,
    md_exists: bool,
    toml_exists: bool,
) -> Result<Option<Seq<char>>, Seq<char>> {
    if md_exists && toml_exists {
        Err(both_carriers(md, toml))
    } else if md_exists {
        Ok(Some(md))
    } else if toml_exists {
        Ok(Some(toml))
    } else {
        Ok(None)
    }
}

/// An outcome's view: the strings as their characters.
pub open spec fn carrier_view(r: Result<Option<String>, String>) -> Result<
    Option<Seq<char>>,
    Seq<char>,
> {
    match r {
        Ok(Some(p)) => Ok(Some(p@)),
        Ok(None) => Ok(None),
        Err(e) => Err(e@),
    }
}

/// Resolve which carrier a layer holds: the `.md` file, the `.toml` file, or neither
/// (`Ok(None)`), from whether each exists. Both present is an error naming both paths.
pub fn resolve_carrier(md: String, toml: String, md_exists: bool, toml_exists: bool) -> (r: Result<
    Option<String>,
    String,
>)
    ensures
        carrier_view(r) == spec_resolve_carrier(md@, toml@, md_exists, toml_exists),
{
    if md_exists && toml_exists {
        let mut e = string_of("both ");
        push_str(&mut e, md.as_str());
        push_str(&mut e, " and ");
        push_str(&mut e, toml.as_str());
        push_str(&mut e, " exist: keep one (.md is the recommended carrier)");
        Err(e)
    } else if md_exists {
        Ok(Some(md))
    } else if toml_exists {
        Ok(Some(toml))
    } else {
        Ok(None)
    }
}

/// What the file system says of one place a config may be: whether the candidate path is a
/// file, and whether the candidate with `.md` and with `.toml` appended exists.
#[derive(Debug, Clone, Copy, PartialEq, Eq, Structural)]
pub struct Found {
    /// The candidate itself is a file.
    pub is_file: bool,
    /// The candidate with `.md` appended exists.
    pub md: bool,
    /// The candidate with `.toml` appended exists.
    pub toml: bool,
}

/// Whether a path's extension is one of the two carriers'.
pub open spec fn carrier_extension(path: Seq<char>) -> bool {
    path_extension(path) == Some("md"@) || path_extension(path) == Some("toml"@)
}

/// The file at `candidate`: itself when it is a file, else, when it ends in neither carrier's
/// extension, the one carrier present beside that name, both present an error.
pub open spec fn spec_named_in(candidate: Seq<char>, found: Found) -> Result<
    Option<Seq<char>>,
    Seq<char>,
> {
    if found.is_file {
        Ok(Some(candidate))
    } else if carrier_extension(candidate) {
        Ok(None)
    } else {
        spec_resolve_carrier(candidate + ".md"@, candidate + ".toml"@, found.md, found.toml)
    }
}

/// Whether `path` ends in a carrier's extension.
fn has_carrier_extension(path: &str) -> (r: bool)
    ensures
        r == carrier_extension(path@),
{
    proof {
        reveal_strlit("md");
        reveal_strlit("toml");
        assert("md"@.len() != "toml"@.len());
    }
    match extension(path) {
        Some(e) => str_eq(e.as_str(), "md") || str_eq(e.as_str(), "toml"),
        None => false,
    }
}

/// The file at `candidate`, from what `found` says of it: itself when it is a file, else, when
/// it ends in neither carrier's extension, the one carrier present beside that name.
pub fn named_in(candidate: &str, found: Found) -> (r: Result<Option<String>, String>)
    ensures
        carrier_view(r) == spec_named_in(candidate@, found),
{
    if found.is_file {
        return Ok(Some(string_of(candidate)));
    }
    if has_carrier_extension(candidate) {
        return Ok(None);
    }
    let mut md = string_of(candidate);
    push_str(&mut md, ".md");
    let mut toml = string_of(candidate);
    push_str(&mut toml, ".toml");
    resolve_carrier(md, toml, found.md, found.toml)
}

/// The XDG config file `setup-freq` writes: the carrier already present, else `config.md`, in
/// `dir`; `None` when there is no XDG directory.
pub open spec fn spec_xdg_target(dir: Option<Seq<char>>, md_exists: bool, toml_exists: bool) -> Result<
    Option<Seq<char>>,
    Seq<char>,
> {
    match dir {
        None => Ok(None),
        Some(d) => {
            let md = joined_path(d, "config.md"@);
            match spec_resolve_carrier(md, joined_path(d, "config.toml"@), md_exists, toml_exists) {
                Ok(Some(p)) => Ok(Some(p)),
                Ok(None) => Ok(Some(md)),
                Err(e) => Err(e),
            }
        },
    }
}

/// The XDG config file `setup-freq` writes: the carrier already present in `dir`, else
/// `config.md` there. `None` when neither `XDG_CONFIG_HOME` nor `HOME` gave a directory.
/// `md_exists` and `toml_exists` say whether `config.md` and `config.toml` exist in `dir`.
pub fn xdg_target(dir: Option<&str>, md_exists: bool, toml_exists: bool) -> (r: Result<
    Option<String>,
    String,
>)
    ensures
        carrier_view(r) == spec_xdg_target(
            match dir {
                Some(d) => Some(d@),
                None => None,
            },
            md_exists,
            toml_exists,
        ),
{
    proof {
        reveal_strlit("config.md");
        reveal_strlit("config.toml");
    }
    match dir {
        None => Ok(None),
        Some(d) => {
            let md = join_path(d, "config.md");
            let toml = join_path(d, "config.toml");
            match resolve_carrier(md.clone(), toml, md_exists, toml_exists) {
                Ok(Some(p)) => Ok(Some(p)),
                Ok(None) => Ok(Some(md)),
                Err(e) => Err(e),
            }
        },
    }
}

/// One place `--config NAME` is looked for: the directory, as the refusal lists it, and what
/// the file system says of the name joined to it.
#[derive(Debug, Clone, PartialEq, Eq)]
pub struct Place {
    /// The directory searched.
    pub dir: String,
    /// What exists at the name joined to `dir`.
    pub found: Found,
}

/// The refusal when `--config NAME` is found nowhere: the places tried, one a line, and the
/// forms tried when NAME carries no carrier's extension.
pub open spec fn not_found(name: Seq<char>, tried: Seq<Seq<char>>) -> Seq<char> {
    "the run's config "@ + name + " not found"@ + (if carrier_extension(name) {
        Seq::empty()
    } else {
        ", as given or with .md or .toml"@
    }) + ", in:\n  "@ + joined(tried, "\n  "@)
}

/// The directories of `places` as the refusal lists them.
pub open spec fn place_dirs(places: Seq<Place>) -> Seq<Seq<char>> {
    places.map_values(|p: Place| p.dir@)
}

/// The search for a relative NAME from `places[i]` on: the first place whose candidate is
/// found wins, and a place holding both carriers stops the search with that refusal.
pub open spec fn search_from(name: Seq<char>, places: Seq<Place>, i: int) -> Result<
    Seq<char>,
    Seq<char>,
>
    decreases places.len() - i,
{
    if i < 0 || i >= places.len() {
        Err(not_found(name, place_dirs(places)))
    } else {
        match spec_named_in(joined_path(places[i].dir@, name), places[i].found) {
            Ok(Some(p)) => Ok(p),
            Ok(None) => search_from(name, places, i + 1),
            Err(e) => Err(e),
        }
    }
}

/// What place `k` of the search finds for a relative NAME.
pub open spec fn found_at(name: Seq<char>, places: Seq<Place>, k: int) -> Result<
    Option<Seq<char>>,
    Seq<char>,
> {
    spec_named_in(joined_path(places[k].dir@, name), places[k].found)
}

/// The search from place `i` on ends at the first place there that finds the name or refuses,
/// every place before it finding nothing; when none finds it, the refusal lists every place.
proof fn lemma_search_from(name: Seq<char>, places: Seq<Place>, i: int)
    requires
        0 <= i <= places.len(),
    ensures
        search_from(name, places, i) matches Ok(p) ==> exists|j: int|
            i <= j < places.len() && found_at(name, places, j) == Ok::<
                Option<Seq<char>>,
                Seq<char>,
            >(Some(p)) && forall|k: int| i <= k < j ==> #[trigger] found_at(name, places, k) is Ok
                && found_at(name, places, k)->Ok_0 is None,
        (forall|k: int|
            i <= k < places.len() ==> #[trigger] found_at(name, places, k) == Ok::<
                Option<Seq<char>>,
                Seq<char>,
            >(None)) ==> search_from(name, places, i) == Err::<Seq<char>, Seq<char>>(
            not_found(name, place_dirs(places)),
        ),
    decreases places.len() - i,
{
    if i < places.len() {
        lemma_search_from(name, places, i + 1);
        if let Ok(p) = search_from(name, places, i) {
            if found_at(name, places, i) != Ok::<Option<Seq<char>>, Seq<char>>(Some(p)) {
                let j = choose|j: int|
                    i + 1 <= j < places.len() && found_at(name, places, j) == Ok::<
                        Option<Seq<char>>,
                        Seq<char>,
                    >(Some(p)) && forall|k: int| i + 1 <= k < j ==> #[trigger] found_at(name, places, k) is Ok
                        && found_at(name, places, k)->Ok_0 is None;
                assert(forall|k: int| i <= k < j ==> #[trigger] found_at(name, places, k) is Ok
                    && found_at(name, places, k)->Ok_0 is None);
            }
        }
    }
}

/// The nearest place wins: a relative NAME is found at the first place, in search order, whose
/// candidate is found, every nearer place finding nothing; when no place finds it, the refusal
/// names the NAME and lists every place tried.
pub proof fn the_nearest_place_wins(name: Seq<char>, found: Found, places: Seq<Place>)
    requires
        name.len() > 0,
        name[0] != '/',
    ensures
        spec_find_named(name, found, places) matches Ok(p) ==> exists|j: int|
            0 <= j < places.len() && found_at(name, places, j) == Ok::<
                Option<Seq<char>>,
                Seq<char>,
            >(Some(p)) && forall|k: int| 0 <= k < j ==> #[trigger] found_at(name, places, k) is Ok
                && found_at(name, places, k)->Ok_0 is None,
        (forall|k: int|
            0 <= k < places.len() ==> #[trigger] found_at(name, places, k) == Ok::<
                Option<Seq<char>>,
                Seq<char>,
            >(None)) ==> spec_find_named(name, found, places) == Err::<Seq<char>, Seq<char>>(
            not_found(name, place_dirs(places)),
        ),
{
    lemma_search_from(name, places, 0);
}

/// Where `--config NAME` is found. An absolute NAME is looked for where it says, `found`
/// describing it. A relative one is tried in each of `places` in order, the current directory,
/// its parents up to the root, then the XDG directory, the first found winning.
pub open spec fn spec_find_named(name: Seq<char>, found: Found, places: Seq<Place>) -> Result<
    Seq<char>,
    Seq<char>,
> {
    if name.len() == 0 {
        Err("the run's config: empty name"@)
    } else if name[0] == '/' {
        match spec_named_in(name, found) {
            Ok(Some(p)) => Ok(p),
            Ok(None) => Err("the run's config "@ + name + " not found"@),
            Err(e) => Err(e),
        }
    } else {
        search_from(name, places, 0)
    }
}

/// Find the file `--config NAME` names, from what the file system says of each place: `found`
/// describes an absolute NAME itself, and `places` the name joined to each directory searched
/// for a relative one, in search order. Not found is an error listing the places tried.
pub fn find_named(name: &str, found: Found, places: &Vec<Place>) -> (r: Result<String, String>)
    ensures
        match r {
            Ok(p) => spec_find_named(name@, found, places@) == Ok::<Seq<char>, Seq<char>>(p@),
            Err(e) => spec_find_named(name@, found, places@) == Err::<Seq<char>, Seq<char>>(e@),
        },
{
    let n = name.unicode_len();
    if n == 0 {
        return Err(string_of("the run's config: empty name"));
    }
    if name.get_char(0) == '/' {
        return match named_in(name, found) {
            Ok(Some(p)) => Ok(p),
            Ok(None) => {
                let mut e = string_of("the run's config ");
                push_str(&mut e, name);
                push_str(&mut e, " not found");
                Err(e)
            },
            Err(e) => Err(e),
        };
    }
    let mut tried: Vec<String> = Vec::new();
    let mut i: usize = 0;
    while i < places.len()
        invariant
            i <= places.len(),
            n == name@.len(),
            n > 0 && name@[0] != '/',
            spec_find_named(name@, found, places@) == search_from(name@, places@, i as int),
            tried.deep_view() == place_dirs(places@.take(i as int)),
        decreases places.len() - i,
    {
        let candidate = join_path(places[i].dir.as_str(), name);
        match named_in(candidate.as_str(), places[i].found) {
            Ok(Some(p)) => {
                return Ok(p);
            },
            Ok(None) => {},
            Err(e) => {
                return Err(e);
            },
        }
        let ghost before = tried.deep_view();
        tried.push(places[i].dir.clone());
        assert(tried.deep_view() =~= before.push(places@[i as int].dir@));
        assert(place_dirs(places@.take(i + 1)) =~= place_dirs(places@.take(i as int)).push(
            places@[i as int].dir@,
        ));
        i = i + 1;
    }
    assert(places@.take(places.len() as int) =~= places@);
    let mut e = string_of("the run's config ");
    push_str(&mut e, name);
    push_str(&mut e, " not found");
    if !has_carrier_extension(name) {
        push_str(&mut e, ", as given or with .md or .toml");
    }
    push_str(&mut e, ", in:\n  ");
    let list = join(&tried, "\n  ");
    push_str(&mut e, list.as_str());
    Err(e)
}


/// A directory a plain run looks for a config in, and which carriers exist there.
#[derive(Debug, Clone, PartialEq, Eq)]
pub struct Dir {
    /// The directory.
    pub dir: String,
    /// Its `.md` carrier exists.
    pub md: bool,
    /// Its `.toml` carrier exists.
    pub toml: bool,
}

/// The project-local file a directory's carriers are named by: `iiac-perf.md` or
/// `iiac-perf.toml`.
pub open spec fn local_name(md: bool) -> Seq<char> {
    if md {
        "iiac-perf.md"@
    } else {
        "iiac-perf.toml"@
    }
}

/// The nearest project-local file from `ancestors[i]` up: the first directory holding a carrier
/// ends the search, a directory holding both refuses it. The one found in the process's own
/// directory (`own`, and the first ancestor) is named by its file name alone.
pub open spec fn local_from(ancestors: Seq<Dir>, i: int, own: bool) -> Result<Option<Seq<char>>, Seq<char>>
    decreases ancestors.len() - i,
{
    if i < 0 || i >= ancestors.len() {
        Ok(None)
    } else {
        let d = ancestors[i];
        match spec_resolve_carrier(
            joined_path(d.dir@, "iiac-perf.md"@),
            joined_path(d.dir@, "iiac-perf.toml"@),
            d.md,
            d.toml,
        ) {
            Err(e) => Err(e),
            Ok(Some(p)) => Ok(Some(if own && i == 0 {
                local_name(d.md)
            } else {
                p
            })),
            Ok(None) => local_from(ancestors, i + 1, own),
        }
    }
}

/// What directory `j` of the ancestors gives as the project-local file when it holds one: its
/// one carrier, named by its file name alone in the process's own directory, or the refusal of
/// both.
pub open spec fn local_at(ancestors: Seq<Dir>, j: int, own: bool) -> Result<Option<Seq<char>>, Seq<char>> {
    let d = ancestors[j];
    let md = joined_path(d.dir@, "iiac-perf.md"@);
    let toml = joined_path(d.dir@, "iiac-perf.toml"@);
    if d.md && d.toml {
        Err(both_carriers(md, toml))
    } else if own && j == 0 {
        Ok(Some(local_name(d.md)))
    } else if d.md {
        Ok(Some(md))
    } else {
        Ok(Some(toml))
    }
}

/// Whether directory `k` of the ancestors holds no project-local carrier.
pub open spec fn holds_none(ancestors: Seq<Dir>, k: int) -> bool {
    !ancestors[k].md && !ancestors[k].toml
}

/// From ancestor `i` up, the search ends at the first directory `j` holding a carrier.
proof fn lemma_local_from(ancestors: Seq<Dir>, i: int, j: int, own: bool)
    requires
        0 <= i <= j <= ancestors.len(),
        forall|k: int| i <= k < j ==> #[trigger] holds_none(ancestors, k),
        j < ancestors.len() ==> !holds_none(ancestors, j),
    ensures
        local_from(ancestors, i, own) == if j < ancestors.len() {
            local_at(ancestors, j, own)
        } else {
            Ok(None)
        },
    decreases j - i,
{
    if i < j {
        assert(holds_none(ancestors, i));
        lemma_local_from(ancestors, i + 1, j, own);
    }
}

/// The nearest project-local file wins: searching up from the current directory, the first
/// directory holding a carrier gives the file (by its file name alone in the process's own
/// directory, by its path above it) or, holding both, the refusal naming both; no directory
/// above it is looked at, and none holding one gives no local file.
pub proof fn the_nearest_local_file_wins(ancestors: Seq<Dir>, j: int, own: bool)
    requires
        0 <= j <= ancestors.len(),
        forall|k: int| 0 <= k < j ==> #[trigger] holds_none(ancestors, k),
        j < ancestors.len() ==> !holds_none(ancestors, j),
    ensures
        local_from(ancestors, 0, own) == if j < ancestors.len() {
            local_at(ancestors, j, own)
        } else {
            Ok(None)
        },
{
    lemma_local_from(ancestors, 0, j, own);
}

/// The host's files a plain run layers, those that exist, in load order: the XDG file, then
/// the project-local one, the nearest up from the current directory.
pub open spec fn spec_layer_files(xdg: Option<Dir>, ancestors: Seq<Dir>, own: bool) -> Result<
    Seq<Seq<char>>,
    Seq<char>,
> {
    let x = match xdg {
        Some(d) => spec_resolve_carrier(
            joined_path(d.dir@, "config.md"@),
            joined_path(d.dir@, "config.toml"@),
            d.md,
            d.toml,
        ),
        None => Ok(None),
    };
    match x {
        Err(e) => Err(e),
        Ok(first) => {
            let f0 = match first {
                Some(p) => seq![p],
                None => Seq::empty(),
            };
            match local_from(ancestors, 0, own) {
                Err(e) => Err(e),
                Ok(Some(p)) => Ok(f0.push(p)),
                Ok(None) => Ok(f0),
            }
        },
    }
}

/// The host's files a plain run layers, those that exist, in load order: the XDG file, then
/// the project-local one, the nearest up from the current directory, whose ancestors, itself
/// first, are `ancestors`. `own` says whether that directory is the process's own, so a local
/// file in it is named as it always was, `iiac-perf.md`, and only one found higher by its full
/// path.
pub fn layer_files(xdg: Option<&Dir>, ancestors: &Vec<Dir>, own: bool) -> (r: Result<Vec<String>, String>)
    ensures
        match r {
            Ok(files) => spec_layer_files(
                match xdg {
                    Some(d) => Some(*d),
                    None => None,
                },
                ancestors@,
                own,
            ) == Ok::<Seq<Seq<char>>, Seq<char>>(files.deep_view()),
            Err(e) => spec_layer_files(
                match xdg {
                    Some(d) => Some(*d),
                    None => None,
                },
                ancestors@,
                own,
            ) == Err::<Seq<Seq<char>>, Seq<char>>(e@),
        },
{
    proof {
        reveal_strlit("config.md");
        reveal_strlit("config.toml");
    }
    let mut files: Vec<String> = Vec::new();
    if let Some(d) = xdg {
        let md = join_path(d.dir.as_str(), "config.md");
        let toml = join_path(d.dir.as_str(), "config.toml");
        match resolve_carrier(md, toml, d.md, d.toml) {
            Err(e) => {
                return Err(e);
            },
            Ok(Some(p)) => {
                files.push(p);
                assert(files.deep_view() =~= seq![p@]);
            },
            Ok(None) => {
                assert(files.deep_view() =~= Seq::<Seq<char>>::empty());
            },
        }
    } else {
        assert(files.deep_view() =~= Seq::<Seq<char>>::empty());
    }
    let ghost f0 = files.deep_view();
    let ghost xd = match xdg {
        Some(d) => Some(*d),
        None => None,
    };
    assert(spec_layer_files(xd, ancestors@, own) == match local_from(ancestors@, 0, own) {
        Err(e) => Err(e),
        Ok(Some(p)) => Ok(f0.push(p)),
        Ok(None) => Ok(f0),
    });
    let mut i: usize = 0;
    while i < ancestors.len()
        invariant
            i <= ancestors.len(),
            xd == match xdg {
                Some(d) => Some(*d),
                None => None,
            },
            spec_layer_files(xd, ancestors@, own) == match local_from(ancestors@, 0, own) {
                Err(e) => Err(e),
                Ok(Some(p)) => Ok(f0.push(p)),
                Ok(None) => Ok(f0),
            },
            local_from(ancestors@, 0, own) == local_from(ancestors@, i as int, own),
            files.deep_view() == f0,
        decreases ancestors.len() - i,
    {
        proof {
            reveal_strlit("iiac-perf.md");
            reveal_strlit("iiac-perf.toml");
        }
        let d = &ancestors[i];
        let md = join_path(d.dir.as_str(), "iiac-perf.md");
        let toml = join_path(d.dir.as_str(), "iiac-perf.toml");
        match resolve_carrier(md, toml, d.md, d.toml) {
            Err(e) => {
                return Err(e);
            },
            Ok(Some(p)) => {
                if own && i == 0 {
                    if d.md {
                        files.push(string_of("iiac-perf.md"));
                    } else {
                        files.push(string_of("iiac-perf.toml"));
                    }
                } else {
                    files.push(p);
                }
                assert(files.deep_view() =~= f0.push(local_from(ancestors@, 0, own)->Ok_0->0));
                return Ok(files);
            },
            Ok(None) => {},
        }
        i = i + 1;
    }
    Ok(files)
}

/// Longest quoted line a parse error keeps, so the key it names stays readable.
pub const ERROR_LINE_MAX: usize = 100;

/// How many ASCII digits `s` opens with.
pub open spec fn digit_run(s: Seq<char>) -> nat
    decreases s.len(),
{
    if s.len() > 0 && '0' <= s[0] <= '9' {
        1 + digit_run(s.drop_first())
    } else {
        0
    }
}

/// A line a TOML error quotes from the file: after any indent, a line number, then ` |`.
pub open spec fn quoted_line(line: Seq<char>) -> bool {
    let head = trim_start(line);
    let d = digit_run(head);
    d > 0 && starts_with(head.skip(d as int), " |"@)
}

/// A parse error's line as the message keeps it: a quoted source line past
/// [`ERROR_LINE_MAX`] characters cut there, with `...`; any other line whole.
pub open spec fn cut_line(line: Seq<char>) -> Seq<char> {
    if line.len() > ERROR_LINE_MAX && quoted_line(line) {
        line.take(ERROR_LINE_MAX as int) + "..."@
    } else {
        line
    }
}

/// The lines of `lines`, each as the message keeps it.
pub open spec fn cut_lines(lines: Seq<Seq<char>>) -> Seq<Seq<char>> {
    lines.map_values(|l: Seq<char>| cut_line(l))
}

/// A TOML parse error's message for `path`: each source line it quotes cut to
/// [`ERROR_LINE_MAX`] characters, the caret line under it left whole.
pub open spec fn spec_parse_error(path: Seq<char>, message: Seq<char>) -> Seq<char> {
    "parsing "@ + path + ": "@ + joined(cut_lines(lines_from(message, 0)), "\n"@)
}

/// Whether `v[lo..hi]` is a line a TOML error quotes.
fn is_quoted(v: &Vec<char>, lo: usize, hi: usize) -> (r: bool)
    requires
        lo <= hi <= v.len(),
    ensures
        r == quoted_line(v@.subrange(lo as int, hi as int)),
{
    let ghost line = v@.subrange(lo as int, hi as int);
    let mut a = lo;
    while a < hi && white(v[a])
        invariant
            lo <= a <= hi <= v.len(),
            line == v@.subrange(lo as int, hi as int),
            trim_start(line) == trim_start(v@.subrange(a as int, hi as int)),
        decreases hi - a,
    {
        assert(v@.subrange(a as int, hi as int).drop_first() =~= v@.subrange(a + 1, hi as int));
        a = a + 1;
    }
    let ghost head = v@.subrange(a as int, hi as int);
    assert(trim_start(line) == head);
    let mut d = a;
    while d < hi && '0' <= v[d] && v[d] <= '9'
        invariant
            a <= d <= hi <= v.len(),
            head == v@.subrange(a as int, hi as int),
            digit_run(head) == (d - a) + digit_run(v@.subrange(d as int, hi as int)),
        decreases hi - d,
    {
        assert(v@.subrange(d as int, hi as int).drop_first() =~= v@.subrange(d + 1, hi as int));
        d = d + 1;
    }
    assert(digit_run(v@.subrange(d as int, hi as int)) == 0);
    assert(head.skip((d - a) as int) =~= v@.subrange(d as int, hi as int));
    if d == a {
        return false;
    }
    let bar = hi - d >= 2 && v[d] == ' ' && v[d + 1] == '|';
    proof {
        reveal_strlit(" |");
        let rest = v@.subrange(d as int, hi as int);
        if bar {
            assert(rest.subrange(0, 2) =~= " |"@);
        } else if rest.len() >= 2 {
            assert(rest.subrange(0, 2)[0] == rest[0]);
            assert(rest.subrange(0, 2)[1] == rest[1]);
        }
    }
    bar
}

/// A TOML parse error with each source line it quotes, `N | ...`, cut to [`ERROR_LINE_MAX`]
/// characters. The caret line under it is left whole, so a column past the cut still has its
/// caret. `message` is the parser's own text.
pub fn parse_error(path: &str, message: &str) -> (r: String)
    ensures
        r@ == spec_parse_error(path@, message@),
{
    let v = chars_of(message);
    let n = v.len();
    assert(v@ == message@) by {
        assert(v@.subrange(0, n as int) =~= v@);
    }
    let mut out = string_of("parsing ");
    push_str(&mut out, path);
    push_str(&mut out, ": ");
    let ghost head = out@;
    let mut lines: Vec<String> = Vec::new();
    let mut i: usize = 0;
    let ghost mut done: Seq<Seq<char>> = Seq::empty();
    while i < n
        invariant
            n == v.len(),
            v@ == message@,
            i <= n,
            lines_from(message@, 0) == done + lines_from(message@, i as int),
            lines.deep_view() == cut_lines(done),
        decreases n - i,
    {
        let (b, e) = line_bounds(&v, i);
        proof {
            lemma_line_end_bounds(message@, i as int);
        }
        let ghost line = v@.subrange(i as int, b as int);
        let ghost before = done;
        proof {
            done = done.push(line);
            assert(lines_from(message@, i as int) == seq![line] + lines_from(message@, (e + 1) as int));
            assert(before + lines_from(message@, i as int) =~= done + lines_from(message@, (e + 1) as int));
        }
        let kept = if b - i > ERROR_LINE_MAX && is_quoted(&v, i, b) {
            let mut t = string_from_chars(&v, i, i + ERROR_LINE_MAX);
            push_str(&mut t, "...");
            assert(line.take(ERROR_LINE_MAX as int) =~= v@.subrange(i as int, (i + ERROR_LINE_MAX) as int));
            t
        } else {
            string_from_chars(&v, i, b)
        };
        assert(kept@ == cut_line(line));
        let ghost old_dv = lines.deep_view();
        assert(old_dv == cut_lines(before));
        lines.push(kept);
        assert(lines.deep_view() =~= old_dv.push(kept@));
        assert(cut_lines(done) =~= cut_lines(before).push(cut_line(line)));
        if e >= n {
            i = n;
        } else {
            i = e + 1;
        }
    }
    assert(lines_from(message@, i as int) =~= Seq::<Seq<char>>::empty());
    assert(done =~= lines_from(message@, 0));
    let body = join(&lines, "\n");
    push_str(&mut out, body.as_str());
    out
}

/// What a config file that holds a record is told: a JSON object opens with `{`, which no config
/// does, and a TOML error on one quotes a record line too long to read.
pub open spec fn spec_record_refusal(path: Seq<char>, text: Seq<char>) -> Option<Seq<char>> {
    if starts_with(trim_start(text), "{"@) {
        Some(path + " holds JSON, a record rather than a config: `iiac-perf init-config --from-record "@
            + path + "` writes a config from a record"@)
    } else {
        None
    }
}

/// The refusal of a config file that holds a record rather than a config, by name: `None` for
/// any other text.
pub fn record_refusal(path: &str, text: &str) -> (r: Option<String>)
    ensures
        match r {
            Some(e) => spec_record_refusal(path@, text@) == Some(e@),
            None => spec_record_refusal(path@, text@) is None,
        },
{
    let v = chars_of(text);
    let n = v.len();
    assert(v@ == text@) by {
        assert(v@.subrange(0, n as int) =~= v@);
    }
    let mut a: usize = 0;
    assert(v@.subrange(0, n as int) =~= text@);
    while a < n && white(v[a])
        invariant
            a <= n == v.len(),
            v@ == text@,
            trim_start(text@) == trim_start(v@.subrange(a as int, n as int)),
        decreases n - a,
    {
        assert(v@.subrange(a as int, n as int).drop_first() =~= v@.subrange(a + 1, n as int));
        a = a + 1;
    }
    let ghost rest = v@.subrange(a as int, n as int);
    proof {
        reveal_strlit("{");
        if a < n {
            assert(rest.subrange(0, 1)[0] == rest[0]);
        }
    }
    if a < n && v[a] == '{' {
        assert(rest.subrange(0, 1) =~= "{"@);
        let mut e = string_of(path);
        push_str(&mut e, " holds JSON, a record rather than a config: `iiac-perf init-config --from-record ");
        push_str(&mut e, path);
        push_str(&mut e, "` writes a config from a record");
        return Some(e);
    }
    None
}

/// A spec that names no profile: it opens with something other than an ASCII digit, which every
/// CPU list opens with. An empty spec is none, since `--pin-cpus ""` clears a file's pin.
pub open spec fn names_a_profile(spec: Seq<char>) -> bool {
    spec.len() > 0 && !('0' <= spec[0] <= '9')
}

/// What a host declares, as the refusal lists it: each profile as `name = "cpus"`, by name.
pub open spec fn declared_text(profiles: Map<Seq<char>, Seq<char>>) -> Seq<char> {
    joined(
        sorted_of(profiles.dom()).map_values(|n: Seq<char>| n + " = "@ + debug_quoted(profiles[n])),
        ", "@,
    )
}

/// The refusal of a `--pin-cpus` spec that names no declared profile: the fix is the host's own
/// file, so it names that file, shows an entry's shape, and says what this host declares, since
/// "none" and "a different set" are different mistakes.
pub open spec fn no_such_profile_text(profiles: Map<Seq<char>, Seq<char>>, spec: Seq<char>) -> Seq<char> {
    if profiles.dom() == Set::<Seq<char>>::empty() {
        debug_quoted(spec)
            + " is no declared profile and is not a CPU list, and this host declares none.\nA pin named rather than numbered is what lets one config serve every host, so the names belong to the host: add a [profiles] table beside [freq] in ~/.config/iiac-perf/config.toml, each entry a name and a CPU spec, as in `smt = \"3,9\"` for the two threads of one core or `ccx = \"3,2\"` for two cores sharing a last-level cache. `lscpu -e` shows which CPUs pair.\n`iiac-perf setup-freq` creates that file when it is missing, and docs/config.md explains the table."@
    } else {
        debug_quoted(spec) + " is no declared profile and is not a CPU list.\nThis host declares: "@
            + declared_text(profiles) + ".\nName one of those, give a CPU spec instead, or add "@
            + debug_quoted(spec)
            + " to [profiles] in ~/.config/iiac-perf/config.toml. A host that cannot form the hop a name means, an SMT pair where nothing pairs, leaves the name out rather than aliasing it to a different hop, so a config asking for it belongs to another host."@
    }
}

/// What [`resolve_pin`] gives: the profile a spec names, the spec itself when it is a CPU list
/// (or empty), and the refusal when it is a name no profile has.
pub open spec fn spec_resolve_pin(profiles: Map<Seq<char>, Seq<char>>, spec: Seq<char>) -> Result<
    Seq<char>,
    Seq<char>,
> {
    if profiles.contains_key(spec) {
        Ok(profiles[spec])
    } else if names_a_profile(spec) {
        Err(no_such_profile_text(profiles, spec))
    } else {
        Ok(spec)
    }
}

/// The value of the last entry for `key`, as a map built by inserting the entries in order has it.
fn last_entry<'a>(entries: &'a Vec<(String, String)>, key: &str) -> (r: Option<&'a str>)
    ensures
        match r {
            Some(v) => entries_map(entries@).contains_key(key@) && entries_map(entries@)[key@] == v@,
            None => !entries_map(entries@).contains_key(key@),
        },
{
    let mut i: usize = entries.len();
    assert(entries@.take(i as int) =~= entries@);
    assert(entries@.skip(i as int) =~= Seq::<(String, String)>::empty());
    assert(entries_map(entries@) =~= entries_map(entries@.take(i as int)).union_prefer_right(
        entries_map(entries@.skip(i as int)),
    ));
    while i > 0
        invariant
            i <= entries.len(),
            entries_map(entries@) == entries_map(entries@.take(i as int)).union_prefer_right(
                entries_map(entries@.skip(i as int)),
            ),
            !entries_map(entries@.skip(i as int)).contains_key(key@),
        decreases i,
    {
        let ghost t = entries@.take(i as int);
        assert(t.drop_last() =~= entries@.take(i - 1));
        assert(t.last() == entries@[i - 1]);
        if str_eq(entries[i - 1].0.as_str(), key) {
            assert(entries_map(entries@).contains_key(key@));
            return Some(entries[i - 1].1.as_str());
        }
        proof {
            crate::layers::lemma_entries_append(seq![entries@[i - 1]], entries@.skip(i as int));
            assert(seq![entries@[i - 1]] + entries@.skip(i as int) =~= entries@.skip(i - 1));
            let one = seq![entries@[i - 1]];
            assert(one.drop_last() =~= Seq::<(String, String)>::empty());
            assert(one.last() == entries@[i - 1]);
            assert(entries_map(one.drop_last()) =~= Map::<Seq<char>, Seq<char>>::empty());
            assert(entries_map(one) =~= Map::<Seq<char>, Seq<char>>::empty().insert(
                entries@[i - 1].0@,
                entries@[i - 1].1@,
            ));
            assert(entries_map(entries@) =~= entries_map(entries@.take(i - 1)).union_prefer_right(
                entries_map(entries@.skip(i - 1)),
            ));
        }
        i = i - 1;
    }
    assert(entries@.take(0) =~= Seq::<(String, String)>::empty());
    assert(entries_map(entries@) =~= entries_map(entries@.skip(0)));
    None
}

/// What a host declares, as the refusal lists it: each profile as `name = "cpus"`, by name.
fn declared(profiles: &Vec<(String, String)>) -> (r: String)
    ensures
        r@ == declared_text(entries_map(profiles@)),
{
    let ghost m = entries_map(profiles@);
    let mut names: Vec<String> = Vec::new();
    let mut i: usize = 0;
    assert(names.deep_view().to_set() =~= Set::<Seq<char>>::empty());
    while i < profiles.len()
        invariant
            i <= profiles.len(),
            strictly_sorted(names.deep_view()),
            names.deep_view().to_set() == crate::layers::entry_keys(profiles@.take(i as int)),
        decreases profiles.len() - i,
    {
        insert_text(&mut names, profiles[i].0.clone());
        assert(profiles@.take(i + 1).drop_last() =~= profiles@.take(i as int));
        assert(profiles@.take(i + 1).last() == profiles@[i as int]);
        assert(crate::layers::entry_keys(profiles@.take(i + 1)) =~= crate::layers::entry_keys(
            profiles@.take(i as int),
        ).insert(profiles@[i as int].0@));
        i = i + 1;
    }
    assert(profiles@.take(profiles.len() as int) =~= profiles@);
    proof {
        lemma_sorted_of(names.deep_view(), m.dom());
    }
    let ghost ns = names.deep_view();
    let ghost f = |n: Seq<char>| n + " = "@ + debug_quoted(m[n]);
    let mut parts: Vec<String> = Vec::new();
    let mut j: usize = 0;
    while j < names.len()
        invariant
            j <= names.len(),
            ns == names.deep_view(),
            ns == sorted_of(m.dom()),
            m == entries_map(profiles@),
            m.dom() == ns.to_set(),
            f == (|n: Seq<char>| n + " = "@ + debug_quoted(m[n])),
            parts.len() == j,
            forall|q: int| 0 <= q < j ==> #[trigger] parts.deep_view()[q] == f(ns[q]),
        decreases names.len() - j,
    {
        assert(ns[j as int] == names@[j as int]@);
        assert(ns.to_set().contains(ns[j as int]));
        let cpus = match last_entry(profiles, names[j].as_str()) {
            Some(c) => c,
            None => {
                assert(false);
                ""
            },
        };
        let mut part = names[j].clone();
        push_str(&mut part, " = ");
        let q = debug_quote(cpus);
        push_str(&mut part, q.as_str());
        let ghost before = parts.deep_view();
        parts.push(part);
        assert(parts.deep_view() =~= before.push(f(ns[j as int])));
        j = j + 1;
    }
    assert(parts.deep_view() =~= ns.map_values(f));
    join(&parts, ", ")
}

/// Resolve a `--pin-cpus` spec against the declared profiles: a spec that names a profile
/// expands to that profile's CPU spec, and a CPU list passes through to be parsed where the pin
/// is made. A spec that is neither, a bare word no `[profiles]` entry names, is refused here
/// rather than left to fail later as a number, since a host that has declared no profiles meets
/// this first and the number's error names no fix. The refusal comes as one paragraph per line,
/// for the caller to wrap.
pub fn resolve_pin<'a>(profiles: &'a Vec<(String, String)>, spec: &'a str) -> (r: Result<&'a str, String>)
    ensures
        match r {
            Ok(s) => spec_resolve_pin(entries_map(profiles@), spec@) == Ok::<Seq<char>, Seq<char>>(s@),
            Err(e) => spec_resolve_pin(entries_map(profiles@), spec@) == Err::<Seq<char>, Seq<char>>(e@),
        },
{
    if let Some(cpus) = last_entry(profiles, spec) {
        return Ok(cpus);
    }
    let n = spec.unicode_len();
    if n > 0 {
        let c = spec.get_char(0);
        if !('0' <= c && c <= '9') {
            let q = debug_quote(spec);
            if profiles.len() == 0 {
                assert(entries_map(profiles@).dom() =~= Set::<Seq<char>>::empty());
                let mut e = q;
                push_str(
                    &mut e,
                    " is no declared profile and is not a CPU list, and this host declares none.\nA pin named rather than numbered is what lets one config serve every host, so the names belong to the host: add a [profiles] table beside [freq] in ~/.config/iiac-perf/config.toml, each entry a name and a CPU spec, as in `smt = \"3,9\"` for the two threads of one core or `ccx = \"3,2\"` for two cores sharing a last-level cache. `lscpu -e` shows which CPUs pair.\n`iiac-perf setup-freq` creates that file when it is missing, and docs/config.md explains the table.",
                );
                return Err(e);
            }
            proof {
                crate::layers::lemma_key_present(profiles@, 0);
            }
            assert(entries_map(profiles@).dom().contains(profiles@[0].0@));
            assert(entries_map(profiles@).dom() != Set::<Seq<char>>::empty());
            let mut e = debug_quote(spec);
            push_str(&mut e, " is no declared profile and is not a CPU list.\nThis host declares: ");
            let d = declared(profiles);
            push_str(&mut e, d.as_str());
            push_str(&mut e, ".\nName one of those, give a CPU spec instead, or add ");
            push_str(&mut e, q.as_str());
            push_str(
                &mut e,
                " to [profiles] in ~/.config/iiac-perf/config.toml. A host that cannot form the hop a name means, an SMT pair where nothing pairs, leaves the name out rather than aliasing it to a different hop, so a config asking for it belongs to another host.",
            );
            return Err(e);
        }
    }
    Ok(spec)
}
} // verus!
