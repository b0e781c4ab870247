//! Report band boundaries and label styles: the min/z/p/n/max ladder the report renders.
//!
//! - Familiar deciles in the body; nines/zeros tails generated from [`Z_DEPTH`]/[`N_DEPTH`].
//!   Fractions and names come from one structural description, so the label styles can never
//!   drift apart and deepening a tail is a one-constant change.
//! - `nK`/`zK` mark the boundary with a fraction 10^-K of samples above (n) or below (z).

use vstd::prelude::*;
use crate::text::{decimal, push_char, push_decimal, push_str, string_of};

verus! {

/// Fast-tail depth: the lowest tail boundary is `z{Z_DEPTH}`.
pub const Z_DEPTH: u64 = 4;

/// Slow-tail depth: the highest tail boundary is `n{N_DEPTH}`.
pub const N_DEPTH: u64 = 10;

/// Band-label style for the report's histogram rows, selected by `--band-labels`.
#[derive(Debug, Clone, Copy, PartialEq, Eq, Structural)]
pub enum BandLabels {
    /// Nines/zeros and decile names (`z3`, `p50`, `n4`).
    Zpn,
    /// Literal boundary fractions with `_` grouping (`0.001`, `0.50`, `0.999_9`).
    Frac,
    /// Zpn and fraction side by side (`n4  0.999_9`).
    Both,
}

/// The lowercase name of a style.
pub open spec fn style_name(s: BandLabels) -> Seq<char> {
    match s {
        BandLabels::Zpn => "zpn"@,
        BandLabels::Frac => "frac"@,
        BandLabels::Both => "both"@,
    }
}

/// The trimmed-stat row range label of a style.
pub open spec fn style_trim_label(s: BandLabels) -> Seq<char> {
    match s {
        BandLabels::Frac => "min..0.99"@,
        _ => "min..n2"@,
    }
}

impl BandLabels {
    /// Lowercase name used on the CLI and in the report header's `labels=` metadata.
    pub fn as_str(self) -> (r: &'static str)
        ensures
            r@ == style_name(self),
    {
        match self {
            BandLabels::Zpn => "zpn",
            BandLabels::Frac => "frac",
            BandLabels::Both => "both",
        }
    }

    /// Trimmed-stat row range label matching the style, so `n2` never appears in a frac-only
    /// table.
    pub fn trim_label(self) -> (r: &'static str)
        ensures
            r@ == style_trim_label(self),
    {
        match self {
            BandLabels::Frac => "min..0.99",
            BandLabels::Zpn | BandLabels::Both => "min..n2",
        }
    }
}

/// `digits` grouped in threes with `_`: `99999` is `999_99`.
pub open spec fn grouped3(d: Seq<char>) -> Seq<char>
    decreases d.len(),
{
    if d.len() == 0 {
        Seq::empty()
    } else {
        let i = d.len() - 1;
        grouped3(d.drop_last()) + if i > 0 && i % 3 == 0 {
            seq!['_', d.last()]
        } else {
            seq![d.last()]
        }
    }
}

/// Group `digits` in threes with `_` so deep nines stay countable at a glance.
pub fn group3(digits: &str) -> (r: String)
    ensures
        r@ == grouped3(digits@),
{
    let d = crate::text::chars_of(digits);
    let mut out = String::new();
    let mut i: usize = 0;
    while i < d.len()
        invariant
            i <= d.len(),
            d@ == digits@,
            out@ == grouped3(d@.take(i as int)),
        decreases d.len() - i,
    {
        assert(d@.take(i + 1).drop_last() =~= d@.take(i as int));
        if i > 0 && i % 3 == 0 {
            push_char(&mut out, '_');
        }
        push_char(&mut out, d[i]);
        assert(out@ =~= grouped3(d@.take(i + 1)));
        i = i + 1;
    }
    assert(d@.take(d.len() as int) =~= d@);
    out
}

/// One report band boundary's two names.
#[derive(Debug, Clone, PartialEq, Eq)]
pub struct BoundaryName {
    /// Nines/zeros or decile name (`z3`, `p50`, `n4`).
    pub zpn: String,
    /// Literal-fraction name, `_`-grouped (`0.001`, `0.999_9`).
    pub frac: String,
}

/// A run of `n` copies of `c`.
pub open spec fn repeat(c: char, n: nat) -> Seq<char> {
    Seq::new(n, |i: int| c)
}

/// The names of the ladder's boundaries, lowest first: min, the zero tail from `z{Z_DEPTH}`
/// up to `z2`, the deciles, the nines tail from `n2` to `n{N_DEPTH}`, and max.
pub open spec fn ladder_names() -> Seq<(Seq<char>, Seq<char>)> {
    seq![("min"@, "min"@)] + Seq::new(
        (Z_DEPTH - 1) as nat,
        |i: int|
            {
                let k = Z_DEPTH - i;
                ("z"@ + decimal(k as nat), "0."@ + grouped3(repeat('0', (k - 1) as nat).push('1')))
            },
    ) + Seq::new(
        9,
        |i: int| ("p"@ + decimal((i + 1) as nat) + "0"@, "0."@ + decimal((i + 1) as nat) + "0"@),
    ) + Seq::new(
        (N_DEPTH - 1) as nat,
        |i: int|
            {
                let k = i + 2;
                ("n"@ + decimal(k as nat), "0."@ + grouped3(repeat('9', k as nat)))
            },
    ) + seq![("max"@, "max"@)]
}

/// The names of one boundary, as a pair.
pub open spec fn name_pair(b: BoundaryName) -> (Seq<char>, Seq<char>) {
    (b.zpn@, b.frac@)
}

/// `n` copies of `c`, then `last` when given.
fn repeated(c: char, n: u64, last: Option<char>) -> (r: String)
    ensures
        r@ == match last {
            Some(l) => repeat(c, n as nat).push(l),
            None => repeat(c, n as nat),
        },
{
    let mut s = String::new();
    let mut i: u64 = 0;
    while i < n
        invariant
            i <= n,
            s@ == repeat(c, i as nat),
        decreases n - i,
    {
        push_char(&mut s, c);
        i = i + 1;
        assert(s@ =~= repeat(c, i as nat));
    }
    if let Some(l) = last {
        push_char(&mut s, l);
    }
    s
}

/// A boundary name: `prefix` then `k` in decimal, then `suffix`.
fn named(prefix: &str, k: u64, suffix: &str) -> (r: String)
    ensures
        r@ == prefix@ + decimal(k as nat) + suffix@,
{
    let mut s = string_of(prefix);
    push_decimal(&mut s, k);
    push_str(&mut s, suffix);
    s
}

/// A tail name: `prefix` then `k` in decimal.
fn tail_name(prefix: &str, k: u64) -> (r: String)
    ensures
        r@ == prefix@ + decimal(k as nat),
{
    let mut s = string_of(prefix);
    push_decimal(&mut s, k);
    s
}

/// `0.` then `digits`, grouped in threes.
fn fraction(digits: &String) -> (r: String)
    ensures
        r@ == "0."@ + grouped3(digits@),
{
    let mut s = string_of("0.");
    let g = group3(digits.as_str());
    push_str(&mut s, g.as_str());
    s
}

/// The report's band boundary names, generated from [`Z_DEPTH`]/[`N_DEPTH`]: familiar deciles
/// in the body, nines/zeros notation in both tails. The fraction each stands for is the
/// caller's: `10^-k` for `zk`, `d/10` for `pd0`, `1 - 10^-k` for `nk`.
pub fn boundary_names() -> (r: Vec<BoundaryName>)
    ensures
        r@.map_values(|b: BoundaryName| name_pair(b)) == ladder_names(),
{
    let mut v: Vec<BoundaryName> = Vec::new();
    v.push(BoundaryName { zpn: string_of("min"), frac: string_of("min") });
    let ghost zs = Seq::new(
        (Z_DEPTH - 1) as nat,
        |i: int|
            {
                let k = Z_DEPTH - i;
                ("z"@ + decimal(k as nat), "0."@ + grouped3(repeat('0', (k - 1) as nat).push('1')))
            },
    );
    let mut k: u64 = Z_DEPTH;
    while k >= 2
        invariant
            1 <= k <= Z_DEPTH,
            zs == Seq::new(
                (Z_DEPTH - 1) as nat,
                |i: int|
                    {
                        let k = Z_DEPTH - i;
                        (
                            "z"@ + decimal(k as nat),
                            "0."@ + grouped3(repeat('0', (k - 1) as nat).push('1')),
                        )
                    },
            ),
            v@.map_values(|b: BoundaryName| name_pair(b)) == seq![("min"@, "min"@)] + zs.take(
                (Z_DEPTH - k) as int,
            ),
        decreases k,
    {
        let digits = repeated('0', k - 1, Some('1'));
        let b = BoundaryName { zpn: tail_name("z", k), frac: fraction(&digits) };
        assert(name_pair(b) == zs[(Z_DEPTH - k) as int]);
        let ghost before = v@;
        v.push(b);
        assert(v@.map_values(|b: BoundaryName| name_pair(b)) =~= before.map_values(
            |b: BoundaryName| name_pair(b),
        ).push(name_pair(b)));
        assert(zs.take((Z_DEPTH - k + 1) as int) =~= zs.take((Z_DEPTH - k) as int).push(
            zs[(Z_DEPTH - k) as int],
        ));
        assert(v@.map_values(|b: BoundaryName| name_pair(b)) =~= seq![("min"@, "min"@)] + zs.take(
            (Z_DEPTH - k + 1) as int,
        ));
        k = k - 1;
    }
    let ghost ds = Seq::new(
        9,
        |i: int| ("p"@ + decimal((i + 1) as nat) + "0"@, "0."@ + decimal((i + 1) as nat) + "0"@),
    );
    let ghost p1 = v@.map_values(|b: BoundaryName| name_pair(b));
    let mut d: u64 = 1;
    while d <= 9
        invariant
            1 <= d <= 10,
            ds == Seq::new(
                9,
                |i: int|
                    ("p"@ + decimal((i + 1) as nat) + "0"@, "0."@ + decimal((i + 1) as nat) + "0"@),
            ),
            v@.map_values(|b: BoundaryName| name_pair(b)) == p1 + ds.take((d - 1) as int),
        decreases 10 - d,
    {
        let b = BoundaryName { zpn: named("p", d, "0"), frac: named("0.", d, "0") };
        assert(name_pair(b) == ds[(d - 1) as int]);
        let ghost before = v@;
        v.push(b);
        assert(v@.map_values(|b: BoundaryName| name_pair(b)) =~= before.map_values(
            |b: BoundaryName| name_pair(b),
        ).push(name_pair(b)));
        assert(ds.take(d as int) =~= ds.take((d - 1) as int).push(ds[(d - 1) as int]));
        assert(v@.map_values(|b: BoundaryName| name_pair(b)) =~= p1 + ds.take(d as int));
        d = d + 1;
    }
    let ghost ns = Seq::new(
        (N_DEPTH - 1) as nat,
        |i: int|
            {
                let k = i + 2;
                ("n"@ + decimal(k as nat), "0."@ + grouped3(repeat('9', k as nat)))
            },
    );
    let ghost p2 = v@.map_values(|b: BoundaryName| name_pair(b));
    let mut k: u64 = 2;
    while k <= N_DEPTH
        invariant
            2 <= k <= N_DEPTH + 1,
            ns == Seq::new(
                (N_DEPTH - 1) as nat,
                |i: int|
                    {
                        let k = i + 2;
                        ("n"@ + decimal(k as nat), "0."@ + grouped3(repeat('9', k as nat)))
                    },
            ),
            v@.map_values(|b: BoundaryName| name_pair(b)) == p2 + ns.take((k - 2) as int),
        decreases N_DEPTH + 1 - k,
    {
        let digits = repeated('9', k, None);
        let b = BoundaryName { zpn: tail_name("n", k), frac: fraction(&digits) };
        assert(name_pair(b) == ns[(k - 2) as int]);
        let ghost before = v@;
        v.push(b);
        assert(v@.map_values(|b: BoundaryName| name_pair(b)) =~= before.map_values(
            |b: BoundaryName| name_pair(b),
        ).push(name_pair(b)));
        assert(ns.take((k - 1) as int) =~= ns.take((k - 2) as int).push(ns[(k - 2) as int]));
        assert(v@.map_values(|b: BoundaryName| name_pair(b)) =~= p2 + ns.take((k - 1) as int));
        k = k + 1;
    }
    let ghost p3 = v@.map_values(|b: BoundaryName| name_pair(b));
    v.push(BoundaryName { zpn: string_of("max"), frac: string_of("max") });
    assert(zs.take((Z_DEPTH - 1) as int) =~= zs);
    assert(ds.take(9) =~= ds);
    assert(ns.take((N_DEPTH - 1) as int) =~= ns);
    assert(v@.map_values(|b: BoundaryName| name_pair(b)) =~= p3 + seq![("max"@, "max"@)]);
    assert(v@.map_values(|b: BoundaryName| name_pair(b)) =~= ladder_names());
    v
}

/// A boundary's row label in a style: min and max carry no fraction, so `both` prints them
/// bare; elsewhere `both` pads zpn to its 3-char maximum so the fraction column aligns.
pub open spec fn label_text(b: (Seq<char>, Seq<char>), style: BandLabels) -> Seq<char> {
    match style {
        BandLabels::Zpn => b.0,
        BandLabels::Frac => b.1,
        BandLabels::Both => if b.0 == b.1 {
            b.0
        } else {
            b.0 + repeat(
                ' ',
                if b.0.len() < 3 {
                    (3 - b.0.len()) as nat
                } else {
                    0
                },
            ) + " "@ + b.1
        },
    }
}

impl BoundaryName {
    /// Row label for this boundary in the given style.
    pub fn label(&self, style: BandLabels) -> (r: String)
        ensures
            r@ == label_text(name_pair(*self), style),
    {
        match style {
            BandLabels::Zpn => self.zpn.clone(),
            BandLabels::Frac => self.frac.clone(),
            BandLabels::Both => {
                if self.zpn == self.frac {
                    self.zpn.clone()
                } else {
                    let mut s = self.zpn.clone();
                    let n = self.zpn.as_str().unicode_len();
                    let pad: u64 = if n < 3 {
                        (3 - n) as u64
                    } else {
                        0
                    };
                    let spaces = repeated(' ', pad, None);
                    push_str(&mut s, spaces.as_str());
                    push_str(&mut s, " ");
                    push_str(&mut s, self.frac.as_str());
                    s
                }
            },
        }
    }
}

} // verus!
