//! Grapheme-cluster break properties and the UAX #29 grapheme rules, phrased
//! as a decision that reads the text before a candidate boundary backward, one
//! scalar at a time.

use crate::word_cat::{extended_pictographic, is_extended_pictographic};
use icu_properties::props::{GraphemeClusterBreak, IndicConjunctBreak};
use icu_properties::CodePointMapData;
use vstd::prelude::*;

verus! {

/// The `Grapheme_Cluster_Break` property value of a scalar, as far as the
/// grapheme rules distinguish them.
#[derive(Clone, Copy, Debug, PartialEq, Eq, Structural)]
pub enum GraphemeCat {
    Any,
    Control,
    CR,
    Extend,
    L,
    LF,
    LV,
    LVT,
    T,
    V,
    SpacingMark,
    Prepend,
    RegionalIndicator,
    ZWJ,
}

/// The `Indic_Conjunct_Break` property value of a scalar.
#[derive(Clone, Copy, Debug, PartialEq, Eq, Structural)]
pub enum InCb {
    NotConjunct,
    Consonant,
    Extend,
    Linker,
}

/// Everything the grapheme rules read of one scalar.
#[derive(Clone, Copy, Debug, PartialEq, Eq, Structural)]
pub struct GInfo {
    pub cat: GraphemeCat,
    pub incb: InCb,
    pub pict: bool,
}

/// The ICU4C `UGraphemeClusterBreak` number that the Unicode character
/// database assigns to `c` (the data compiled into `icu_properties`).
pub uninterp spec fn grapheme_break_value(c: char) -> u16;

/// The ICU4C `UIndicConjunctBreak` number that the Unicode character database
/// assigns to `c` (the data compiled into `icu_properties`).
pub uninterp spec fn indic_conjunct_break_value(c: char) -> u16;

/// Trusted: `CodePointMapData::<GraphemeClusterBreak>::new().get(c)` from
/// `icu_properties`, converted by its `From` impl to its ICU4C number. The
/// contract claims only that the result is a function of `c` alone (the
/// compiled data is a constant table).
#[verifier::external_body]
fn icu_grapheme_break_value(c: char) -> (r: u16)
    ensures
        r == grapheme_break_value(c),
{
    u16::from(CodePointMapData::<GraphemeClusterBreak>::new().get(c))
}

/// Trusted: `CodePointMapData::<IndicConjunctBreak>::new().get(c)` from
/// `icu_properties`, converted by its `From` impl to its ICU4C number. The
/// contract claims only that the result is a function of `c` alone (the
/// compiled data is a constant table).
#[verifier::external_body]
fn icu_indic_conjunct_break_value(c: char) -> (r: u16)
    ensures
        r == indic_conjunct_break_value(c),
{
    u16::from(CodePointMapData::<IndicConjunctBreak>::new().get(c))
}

/// The category named by an ICU4C `UGraphemeClusterBreak` number. The
/// retired emoji classes, which no current scalar carries, fall to `Any`.
pub open spec fn grapheme_cat_of_value(v: u16) -> GraphemeCat {
    if v == 1 {
        GraphemeCat::Control
    } else if v == 2 {
        GraphemeCat::CR
    } else if v == 3 {
        GraphemeCat::Extend
    } else if v == 4 {
        GraphemeCat::L
    } else if v == 5 {
        GraphemeCat::LF
    } else if v == 6 {
        GraphemeCat::LV
    } else if v == 7 {
        GraphemeCat::LVT
    } else if v == 8 {
        GraphemeCat::T
    } else if v == 9 {
        GraphemeCat::V
    } else if v == 10 {
        GraphemeCat::SpacingMark
    } else if v == 11 {
        GraphemeCat::Prepend
    } else if v == 12 {
        GraphemeCat::RegionalIndicator
    } else if v == 17 {
        GraphemeCat::ZWJ
    } else {
        GraphemeCat::Any
    }
}

/// The value named by an ICU4C `UIndicConjunctBreak` number.
pub open spec fn incb_of_value(v: u16) -> InCb {
    if v == 1 {
        InCb::Consonant
    } else if v == 2 {
        InCb::Extend
    } else if v == 3 {
        InCb::Linker
    } else {
        InCb::NotConjunct
    }
}

/// What the grapheme rules read of `c`.
pub open spec fn ginfo(c: char) -> GInfo {
    GInfo {
        cat: grapheme_cat_of_value(grapheme_break_value(c)),
        incb: incb_of_value(indic_conjunct_break_value(c)),
        pict: extended_pictographic(c),
    }
}

fn grapheme_cat_from(v: u16) -> (r: GraphemeCat)
    ensures
        r == grapheme_cat_of_value(v),
{
    match v {
        1 => GraphemeCat::Control,
        2 => GraphemeCat::CR,
        3 => GraphemeCat::Extend,
        4 => GraphemeCat::L,
        5 => GraphemeCat::LF,
        6 => GraphemeCat::LV,
        7 => GraphemeCat::LVT,
        8 => GraphemeCat::T,
        9 => GraphemeCat::V,
        10 => GraphemeCat::SpacingMark,
        11 => GraphemeCat::Prepend,
        12 => GraphemeCat::RegionalIndicator,
        17 => GraphemeCat::ZWJ,
        _ => GraphemeCat::Any,
    }
}

fn incb_from(v: u16) -> (r: InCb)
    ensures
        r == incb_of_value(v),
{
    match v {
        1 => InCb::Consonant,
        2 => InCb::Extend,
        3 => InCb::Linker,
        _ => InCb::NotConjunct,
    }
}

/// Looks up what the grapheme rules read of `c`.
pub fn grapheme_info(c: char) -> (r: GInfo)
    ensures
        r == ginfo(c),
{
    let cat = grapheme_cat_from(icu_grapheme_break_value(c));
    let incb = incb_from(icu_indic_conjunct_break_value(c));
    let pict = is_extended_pictographic(c);
    GInfo { cat, incb, pict }
}

/// A decision about one candidate boundary that is read backward from the
/// candidate. `Start` still needs the scalar just before the candidate; the
/// three rule phases scan further back; `Decided` holds the answer.
#[derive(Clone, Copy, Debug, PartialEq, Eq, Structural)]
pub enum Lookback {
    /// Nothing before the candidate read yet; `after` is the scalar after it.
    Start { after: GInfo },
    /// GB11: scanning `Extend*` before a ZWJ for `Extended_Pictographic`.
    Emoji,
    /// GB12/GB13: counting regional indicators; `odd` is the parity so far.
    Regional { odd: bool },
    /// GB9c: scanning `[Extend Linker]*` for a consonant; `linker` records
    /// whether a linker has been seen.
    Conjunct { linker: bool },
    /// The candidate is a boundary exactly when `boundary` holds.
    Decided { boundary: bool },
}

/// Whether a category breaks on both sides (GB4, GB5).
pub open spec fn is_control_like(c: GraphemeCat) -> bool {
    c == GraphemeCat::Control || c == GraphemeCat::CR || c == GraphemeCat::LF
}

/// The rules applied to the pair `before`, `after` (GB3 to GB13, GB999);
/// `extended` selects extended rather than legacy clusters (GB9a, GB9b and
/// GB9c apply to extended clusters only). Rules that need more context
/// than the pair give the phase that reads it.
pub open spec fn pair_decision(before: GInfo, after: GInfo, extended: bool) -> Lookback {
    let b = before.cat;
    let a = after.cat;
    if b == GraphemeCat::CR && a == GraphemeCat::LF {
        Lookback::Decided { boundary: false }
    } else if is_control_like(b) || is_control_like(a) {
        Lookback::Decided { boundary: true }
    } else if b == GraphemeCat::L && (a == GraphemeCat::L || a == GraphemeCat::V || a
        == GraphemeCat::LV || a == GraphemeCat::LVT) {
        Lookback::Decided { boundary: false }
    } else if (b == GraphemeCat::LV || b == GraphemeCat::V) && (a == GraphemeCat::V || a
        == GraphemeCat::T) {
        Lookback::Decided { boundary: false }
    } else if (b == GraphemeCat::LVT || b == GraphemeCat::T) && a == GraphemeCat::T {
        Lookback::Decided { boundary: false }
    } else if a == GraphemeCat::Extend || a == GraphemeCat::ZWJ {
        Lookback::Decided { boundary: false }
    } else if extended && a == GraphemeCat::SpacingMark {
        Lookback::Decided { boundary: false }
    } else if extended && b == GraphemeCat::Prepend {
        Lookback::Decided { boundary: false }
    } else if extended && after.incb == InCb::Consonant && (before.incb == InCb::Extend
        || before.incb == InCb::Linker) {
        Lookback::Conjunct { linker: before.incb == InCb::Linker }
    } else if b == GraphemeCat::ZWJ && after.pict {
        Lookback::Emoji
    } else if b == GraphemeCat::RegionalIndicator && a == GraphemeCat::RegionalIndicator {
        Lookback::Regional { odd: true }
    } else {
        Lookback::Decided { boundary: true }
    }
}

/// The decision after reading one more scalar `c`, the one before all that
/// was read so far.
pub open spec fn lookback_step(st: Lookback, c: GInfo, extended: bool) -> Lookback {
    match st {
        Lookback::Start { after } => pair_decision(c, after, extended),
        Lookback::Emoji => {
            if c.pict {
                Lookback::Decided { boundary: false }
            } else if c.cat == GraphemeCat::Extend {
                Lookback::Emoji
            } else {
                Lookback::Decided { boundary: true }
            }
        },
        Lookback::Regional { odd } => {
            if c.cat == GraphemeCat::RegionalIndicator {
                Lookback::Regional { odd: !odd }
            } else {
                Lookback::Decided { boundary: !odd }
            }
        },
        Lookback::Conjunct { linker } => {
            if c.incb == InCb::Linker {
                Lookback::Conjunct { linker: true }
            } else if c.incb == InCb::Extend {
                Lookback::Conjunct { linker }
            } else if c.incb == InCb::Consonant {
                Lookback::Decided { boundary: !linker }
            } else {
                Lookback::Decided { boundary: true }
            }
        },
        Lookback::Decided { boundary } => Lookback::Decided { boundary },
    }
}

/// The decision after reading all of `s` backward, from its last scalar to
/// its first.
pub open spec fn scan_back(st: Lookback, s: Seq<char>, extended: bool) -> Lookback
    decreases s.len(),
{
    if s.len() == 0 {
        st
    } else {
        scan_back(lookback_step(st, ginfo(s.last()), extended), s.drop_last(), extended)
    }
}

/// The answer once the start of the document has been reached: every rule
/// that still waits for context fails there, except that a regional
/// indicator pair is kept after an odd count.
pub open spec fn lookback_finish(st: Lookback) -> bool {
    match st {
        Lookback::Decided { boundary } => boundary,
        Lookback::Regional { odd } => !odd,
        _ => true,
    }
}

/// Whether the scalar offset `k` of the document `d` is an extended (or,
/// without `extended`, legacy) grapheme cluster boundary: the start and the
/// end are (GB1, GB2), and an inner offset is decided by the text before it.
pub open spec fn is_grapheme_boundary(d: Seq<char>, k: int, extended: bool) -> bool {
    if 0 <= k < d.len() {
        lookback_finish(scan_back(Lookback::Start { after: ginfo(d[k]) }, d.take(k), extended))
    } else {
        k == d.len()
    }
}

/// Reading `a + b` backward is reading `b`, then `a`.
pub proof fn lemma_scan_back_concat(st: Lookback, a: Seq<char>, b: Seq<char>, extended: bool)
    ensures
        scan_back(st, a + b, extended) == scan_back(scan_back(st, b, extended), a, extended),
    decreases b.len(),
{
    if b.len() == 0 {
        assert(a + b =~= a);
    } else {
        let ab = a + b;
        assert(ab.last() == b.last());
        assert(ab.drop_last() =~= a + b.drop_last());
        lemma_scan_back_concat(
            lookback_step(st, ginfo(b.last()), extended),
            a,
            b.drop_last(),
            extended,
        );
    }
}

/// Once decided, reading more changes nothing.
pub proof fn lemma_scan_back_decided(boundary: bool, s: Seq<char>, extended: bool)
    ensures
        scan_back(Lookback::Decided { boundary }, s, extended) == (Lookback::Decided { boundary }),
    decreases s.len(),
{
    if s.len() > 0 {
        lemma_scan_back_decided(boundary, s.drop_last(), extended);
    }
}

fn is_control_like_exec(c: GraphemeCat) -> (r: bool)
    ensures
        r == is_control_like(c),
{
    match c {
        GraphemeCat::Control | GraphemeCat::CR | GraphemeCat::LF => true,
        _ => false,
    }
}

/// Applies the pair rules to `before`, `after`.
pub fn decide_pair(before: GInfo, after: GInfo, extended: bool) -> (r: Lookback)
    ensures
        r == pair_decision(before, after, extended),
{
    let b = before.cat;
    let a = after.cat;
    if b == GraphemeCat::CR && a == GraphemeCat::LF {
        Lookback::Decided { boundary: false }
    } else if is_control_like_exec(b) || is_control_like_exec(a) {
        Lookback::Decided { boundary: true }
    } else if b == GraphemeCat::L && (a == GraphemeCat::L || a == GraphemeCat::V || a
        == GraphemeCat::LV || a == GraphemeCat::LVT) {
        Lookback::Decided { boundary: false }
    } else if (b == GraphemeCat::LV || b == GraphemeCat::V) && (a == GraphemeCat::V || a
        == GraphemeCat::T) {
        Lookback::Decided { boundary: false }
    } else if (b == GraphemeCat::LVT || b == GraphemeCat::T) && a == GraphemeCat::T {
        Lookback::Decided { boundary: false }
    } else if a == GraphemeCat::Extend || a == GraphemeCat::ZWJ {
        Lookback::Decided { boundary: false }
    } else if extended && a == GraphemeCat::SpacingMark {
        Lookback::Decided { boundary: false }
    } else if extended && b == GraphemeCat::Prepend {
        Lookback::Decided { boundary: false }
    } else if extended && after.incb == InCb::Consonant && (before.incb == InCb::Extend
        || before.incb == InCb::Linker) {
        Lookback::Conjunct { linker: before.incb == InCb::Linker }
    } else if b == GraphemeCat::ZWJ && after.pict {
        Lookback::Emoji
    } else if b == GraphemeCat::RegionalIndicator && a == GraphemeCat::RegionalIndicator {
        Lookback::Regional { odd: true }
    } else {
        Lookback::Decided { boundary: true }
    }
}

/// Reads one more scalar, the one before all that was read so far.
pub fn step_back(st: Lookback, c: GInfo, extended: bool) -> (r: Lookback)
    ensures
        r == lookback_step(st, c, extended),
{
    match st {
        Lookback::Start { after } => decide_pair(c, after, extended),
        Lookback::Emoji => {
            if c.pict {
                Lookback::Decided { boundary: false }
            } else if c.cat == GraphemeCat::Extend {
                Lookback::Emoji
            } else {
                Lookback::Decided { boundary: true }
            }
        },
        Lookback::Regional { odd } => {
            if c.cat == GraphemeCat::RegionalIndicator {
                Lookback::Regional { odd: !odd }
            } else {
                Lookback::Decided { boundary: !odd }
            }
        },
        Lookback::Conjunct { linker } => {
            if c.incb == InCb::Linker {
                Lookback::Conjunct { linker: true }
            } else if c.incb == InCb::Extend {
                Lookback::Conjunct { linker }
            } else if c.incb == InCb::Consonant {
                Lookback::Decided { boundary: !linker }
            } else {
                Lookback::Decided { boundary: true }
            }
        },
        Lookback::Decided { boundary } => Lookback::Decided { boundary },
    }
}

/// The answer at the start of the document.
pub fn finish_at_start(st: Lookback) -> (r: bool)
    ensures
        r == lookback_finish(st),
{
    match st {
        Lookback::Decided { boundary } => boundary,
        Lookback::Regional { odd } => !odd,
        _ => true,
    }
}

/// Reads `s[lo..hi]` backward, stopping early once decided.
pub fn scan_scalars_back(st: Lookback, s: &Vec<char>, lo: usize, hi: usize, extended: bool) -> (r:
    Lookback)
    requires
        lo <= hi <= s.len(),
    ensures
        r == scan_back(st, s@.subrange(lo as int, hi as int), extended),
{
    let mut cur = st;
    let mut i = hi;
    assert(s@.subrange(hi as int, hi as int) =~= Seq::<char>::empty());
    while i > lo
        invariant
            lo <= i <= hi <= s.len(),
            scan_back(st, s@.subrange(lo as int, hi as int), extended) == scan_back(
                cur,
                s@.subrange(lo as int, i as int),
                extended,
            ),
        decreases i,
    {
        if let Lookback::Decided { boundary } = cur {
            proof {
                lemma_scan_back_decided(boundary, s@.subrange(lo as int, i as int), extended);
            }
            return cur;
        }
        let c = s[i - 1];
        let info = grapheme_info(c);
        proof {
            let sub = s@.subrange(lo as int, i as int);
            assert(sub.last() == c);
            assert(sub.drop_last() =~= s@.subrange(lo as int, i - 1));
        }
        cur = step_back(cur, info, extended);
        i = i - 1;
    }
    cur
}

/// Reading a run of regional indicators flips the parity once per indicator.
proof fn lemma_scan_regional_run(odd: bool, run: Seq<char>, extended: bool)
    requires
        forall|j: int| 0 <= j < run.len() ==> (#[trigger] ginfo(run[j])).cat
            == GraphemeCat::RegionalIndicator,
    ensures
        scan_back(Lookback::Regional { odd }, run, extended) == (Lookback::Regional {
            odd: odd != (run.len() % 2 == 1),
        }),
    decreases run.len(),
{
    if run.len() > 0 {
        assert(ginfo(run[run.len() - 1]).cat == GraphemeCat::RegionalIndicator);
        let rest = run.drop_last();
        assert forall|j: int| 0 <= j < rest.len() implies (#[trigger] ginfo(rest[j])).cat
            == GraphemeCat::RegionalIndicator by {
            assert(rest[j] == run[j]);
        }
        lemma_scan_regional_run(!odd, rest, extended);
    }
}

/// Reading a run of conjunct extenders and linkers keeps the conjunct phase
/// and records whether a linker was among them.
proof fn lemma_scan_conjunct_run(linker: bool, run: Seq<char>, extended: bool)
    requires
        forall|j: int| 0 <= j < run.len() ==> (#[trigger] ginfo(run[j])).incb == InCb::Extend
            || ginfo(run[j]).incb == InCb::Linker,
    ensures
        scan_back(Lookback::Conjunct { linker }, run, extended) == (Lookback::Conjunct {
            linker: linker || exists|j: int| 0 <= j < run.len() && (#[trigger] ginfo(run[j])).incb
                == InCb::Linker,
        }),
    decreases run.len(),
{
    if run.len() > 0 {
        let last = run[run.len() - 1];
        assert(ginfo(last).incb == InCb::Extend || ginfo(last).incb == InCb::Linker);
        let rest = run.drop_last();
        assert forall|j: int| 0 <= j < rest.len() implies (#[trigger] ginfo(rest[j])).incb
            == InCb::Extend || ginfo(rest[j]).incb == InCb::Linker by {
            assert(rest[j] == run[j]);
        }
        let l2 = linker || ginfo(last).incb == InCb::Linker;
        lemma_scan_conjunct_run(l2, rest, extended);
        let found = exists|j: int| 0 <= j < run.len() && (#[trigger] ginfo(run[j])).incb
            == InCb::Linker;
        let found_rest = exists|j: int| 0 <= j < rest.len() && (#[trigger] ginfo(rest[j])).incb
            == InCb::Linker;
        if found_rest {
            let j = choose|j: int| 0 <= j < rest.len() && (#[trigger] ginfo(rest[j])).incb
                == InCb::Linker;
            assert(rest[j] == run[j]);
        }
        if found && !(ginfo(last).incb == InCb::Linker) {
            let j = choose|j: int| 0 <= j < run.len() && (#[trigger] ginfo(run[j])).incb
                == InCb::Linker;
            assert(j < rest.len());
            assert(rest[j] == run[j]);
        }
    }
}

/// Reading a run of extenders keeps the emoji phase.
proof fn lemma_scan_emoji_run(run: Seq<char>, extended: bool)
    requires
        forall|j: int| 0 <= j < run.len() ==> (#[trigger] ginfo(run[j])).cat
            == GraphemeCat::Extend && !ginfo(run[j]).pict,
    ensures
        scan_back(Lookback::Emoji, run, extended) == Lookback::Emoji,
    decreases run.len(),
{
    if run.len() > 0 {
        assert(ginfo(run[run.len() - 1]).cat == GraphemeCat::Extend);
        let rest = run.drop_last();
        assert forall|j: int| 0 <= j < rest.len() implies (#[trigger] ginfo(rest[j])).cat
            == GraphemeCat::Extend && !ginfo(rest[j]).pict by {
            assert(rest[j] == run[j]);
        }
        lemma_scan_emoji_run(rest, extended);
    }
}

/// GB12/GB13: before a regional indicator that follows a run of `m`
/// regional indicators (and nothing else that is one), there is a boundary
/// exactly when `m` is even, so indicators pair up from the left. (The
/// scalar after the candidate is no conjunct consonant, as no regional
/// indicator is.)
pub proof fn law_regional_indicator_pairs(d: Seq<char>, k: int, m: int, extended: bool)
    requires
        0 < m <= k < d.len(),
        forall|j: int| k - m <= j <= k ==> (#[trigger] ginfo(d[j])).cat
            == GraphemeCat::RegionalIndicator,
        k - m == 0 || ginfo(d[k - m - 1]).cat != GraphemeCat::RegionalIndicator,
        ginfo(d[k]).incb != InCb::Consonant,
    ensures
        is_grapheme_boundary(d, k, extended) == (m % 2 == 0),
{
    reveal_with_fuel(scan_back, 2);
    let pre = d.take(k - m);
    let run = d.subrange(k - m, k - 1);
    assert(ginfo(d[k - 1]).cat == GraphemeCat::RegionalIndicator);
    assert(ginfo(d[k]).cat == GraphemeCat::RegionalIndicator);
    assert(d.take(k) =~= pre + run + seq![d[k - 1]]);
    lemma_scan_back_concat(Lookback::Start { after: ginfo(d[k]) }, pre + run, seq![d[k - 1]], extended);
    assert(seq![d[k - 1]].drop_last() =~= Seq::<char>::empty());
    assert(seq![d[k - 1]].last() == d[k - 1]);
    let first = scan_back(Lookback::Start { after: ginfo(d[k]) }, seq![d[k - 1]], extended);
    assert(first == (Lookback::Regional { odd: true }));
    lemma_scan_back_concat(first, pre, run, extended);
    assert forall|j: int| 0 <= j < run.len() implies (#[trigger] ginfo(run[j])).cat
        == GraphemeCat::RegionalIndicator by {
        assert(run[j] == d[k - m + j]);
    }
    lemma_scan_regional_run(true, run, extended);
    let odd = true != ((m - 1) % 2 == 1);
    if k - m > 0 {
        assert(pre.last() == d[k - m - 1]);
        lemma_scan_back_decided(!odd, pre.drop_last(), extended);
    } else {
        assert(pre =~= Seq::<char>::empty());
    }
}

/// GB11: an `Extended_Pictographic` scalar, extenders, then ZWJ keep the
/// next `Extended_Pictographic` scalar in their cluster. (The scalar after
/// the candidate is neither a control nor a conjunct consonant, as no
/// pictograph is.)
pub proof fn law_emoji_zwj_sequence(d: Seq<char>, i: int, k: int, extended: bool)
    requires
        0 <= i < k - 1,
        k < d.len(),
        ginfo(d[i]).pict,
        forall|j: int| i < j < k - 1 ==> (#[trigger] ginfo(d[j])).cat == GraphemeCat::Extend
            && !ginfo(d[j]).pict,
        ginfo(d[k - 1]).cat == GraphemeCat::ZWJ,
        ginfo(d[k]).pict,
        !is_control_like(ginfo(d[k]).cat),
        ginfo(d[k]).incb != InCb::Consonant,
    ensures
        !is_grapheme_boundary(d, k, extended),
{
    reveal_with_fuel(scan_back, 2);
    let pre = d.take(i + 1);
    let run = d.subrange(i + 1, k - 1);
    assert(d.take(k) =~= pre + run + seq![d[k - 1]]);
    lemma_scan_back_concat(Lookback::Start { after: ginfo(d[k]) }, pre + run, seq![d[k - 1]], extended);
    assert(seq![d[k - 1]].drop_last() =~= Seq::<char>::empty());
    assert(seq![d[k - 1]].last() == d[k - 1]);
    let first = scan_back(Lookback::Start { after: ginfo(d[k]) }, seq![d[k - 1]], extended);
    if first == Lookback::Emoji {
        lemma_scan_back_concat(first, pre, run, extended);
        assert forall|j: int| 0 <= j < run.len() implies (#[trigger] ginfo(run[j])).cat
            == GraphemeCat::Extend && !ginfo(run[j]).pict by {
            assert(run[j] == d[i + 1 + j]);
        }
        lemma_scan_emoji_run(run, extended);
        assert(pre.last() == d[i]);
        lemma_scan_back_decided(false, pre.drop_last(), extended);
    } else {
        assert(first == (Lookback::Decided { boundary: false }));
        lemma_scan_back_decided(false, pre + run, extended);
    }
}

/// GB9c: in extended clusters, a conjunct consonant, extenders and linkers
/// with at least one linker, then a consonant stay together. (Neither scalar
/// around the candidate is a control, as no conjunct scalar is.)
pub proof fn law_indic_conjunct(d: Seq<char>, i: int, k: int)
    requires
        0 <= i < k - 1,
        k < d.len(),
        ginfo(d[i]).incb == InCb::Consonant,
        forall|j: int| i < j < k ==> (#[trigger] ginfo(d[j])).incb == InCb::Extend || ginfo(
            d[j],
        ).incb == InCb::Linker,
        exists|j: int| i < j < k && (#[trigger] ginfo(d[j])).incb == InCb::Linker,
        ginfo(d[k]).incb == InCb::Consonant,
        !is_control_like(ginfo(d[k - 1]).cat),
        !is_control_like(ginfo(d[k]).cat),
    ensures
        !is_grapheme_boundary(d, k, true),
{
    reveal_with_fuel(scan_back, 2);
    let pre = d.take(i + 1);
    let run = d.subrange(i + 1, k - 1);
    assert(ginfo(d[k - 1]).incb == InCb::Extend || ginfo(d[k - 1]).incb == InCb::Linker);
    assert(d.take(k) =~= pre + run + seq![d[k - 1]]);
    lemma_scan_back_concat(Lookback::Start { after: ginfo(d[k]) }, pre + run, seq![d[k - 1]], true);
    assert(seq![d[k - 1]].drop_last() =~= Seq::<char>::empty());
    assert(seq![d[k - 1]].last() == d[k - 1]);
    let first = scan_back(Lookback::Start { after: ginfo(d[k]) }, seq![d[k - 1]], true);
    if first is Conjunct {
        let l0 = ginfo(d[k - 1]).incb == InCb::Linker;
        assert(first == (Lookback::Conjunct { linker: l0 }));
        lemma_scan_back_concat(first, pre, run, true);
        assert forall|j: int| 0 <= j < run.len() implies (#[trigger] ginfo(run[j])).incb
            == InCb::Extend || ginfo(run[j]).incb == InCb::Linker by {
            assert(run[j] == d[i + 1 + j]);
        }
        lemma_scan_conjunct_run(l0, run, true);
        let w = choose|j: int| i < j < k && (#[trigger] ginfo(d[j])).incb == InCb::Linker;
        if w < k - 1 {
            assert(run[w - i - 1] == d[w]);
        }
        assert(pre.last() == d[i]);
        lemma_scan_back_decided(false, pre.drop_last(), true);
    } else {
        assert(first == (Lookback::Decided { boundary: false }));
        lemma_scan_back_decided(false, pre + run, true);
    }
}

/// An inner candidate is decided first by the pair of scalars around it,
/// then by what lies further back.
proof fn lemma_boundary_by_pair(d: Seq<char>, k: int, extended: bool)
    requires
        0 < k < d.len(),
    ensures
        is_grapheme_boundary(d, k, extended) == lookback_finish(
            scan_back(pair_decision(ginfo(d[k - 1]), ginfo(d[k]), extended), d.take(k - 1), extended),
        ),
{
    let t = d.take(k);
    assert(t.last() == d[k - 1]);
    assert(t.drop_last() =~= d.take(k - 1));
}

/// GB9: no boundary before an `Extend` or ZWJ scalar, unless the scalar
/// before it is a control, CR or LF; in extended and legacy clusters alike.
pub proof fn law_no_break_before_extend_or_zwj(d: Seq<char>, k: int, extended: bool)
    requires
        0 < k < d.len(),
        ginfo(d[k]).cat == GraphemeCat::Extend || ginfo(d[k]).cat == GraphemeCat::ZWJ,
        !is_control_like(ginfo(d[k - 1]).cat),
    ensures
        !is_grapheme_boundary(d, k, extended),
{
    lemma_boundary_by_pair(d, k, extended);
    lemma_scan_back_decided(false, d.take(k - 1), extended);
}

/// GB9a: in extended clusters, no boundary before a `SpacingMark` scalar,
/// unless the scalar before it is a control, CR or LF, whatever it is else.
pub proof fn law_no_break_before_spacing_mark(d: Seq<char>, k: int)
    requires
        0 < k < d.len(),
        ginfo(d[k]).cat == GraphemeCat::SpacingMark,
        !is_control_like(ginfo(d[k - 1]).cat),
    ensures
        !is_grapheme_boundary(d, k, true),
{
    lemma_boundary_by_pair(d, k, true);
    lemma_scan_back_decided(false, d.take(k - 1), true);
}

/// A Hangul syllable category (L, V, T, LV, LVT).
pub open spec fn is_hangul(c: GraphemeCat) -> bool {
    c == GraphemeCat::L || c == GraphemeCat::V || c == GraphemeCat::T || c == GraphemeCat::LV
        || c == GraphemeCat::LVT
}

/// The Hangul syllable sequences that GB6, GB7 and GB8 keep together:
/// L x (L | V | LV | LVT), (LV | V) x (V | T), (LVT | T) x T.
pub open spec fn hangul_joined(b: GraphemeCat, a: GraphemeCat) -> bool {
    ||| b == GraphemeCat::L && (a == GraphemeCat::L || a == GraphemeCat::V || a == GraphemeCat::LV
        || a == GraphemeCat::LVT)
    ||| (b == GraphemeCat::LV || b == GraphemeCat::V) && (a == GraphemeCat::V || a
        == GraphemeCat::T)
    ||| (b == GraphemeCat::LVT || b == GraphemeCat::T) && a == GraphemeCat::T
}

/// GB6-GB8 and GB999 between two Hangul scalars: there is a boundary exactly
/// when the pair is not one that GB6-GB8 keep together, in legacy clusters,
/// and in extended clusters too unless GB9c's consonant rule reads further
/// back (a conjunct consonant after a conjunct extender or linker).
pub proof fn law_hangul_syllables(d: Seq<char>, k: int, extended: bool)
    requires
        0 < k < d.len(),
        is_hangul(ginfo(d[k - 1]).cat),
        is_hangul(ginfo(d[k]).cat),
        extended ==> !(ginfo(d[k]).incb == InCb::Consonant && (ginfo(d[k - 1]).incb
            == InCb::Extend || ginfo(d[k - 1]).incb == InCb::Linker)),
    ensures
        is_grapheme_boundary(d, k, extended) == !hangul_joined(ginfo(d[k - 1]).cat, ginfo(d[k]).cat),
{
    lemma_boundary_by_pair(d, k, extended);
    lemma_scan_back_decided(false, d.take(k - 1), extended);
    lemma_scan_back_decided(true, d.take(k - 1), extended);
}

/// GB3-GB5: no boundary inside CR LF; otherwise a boundary on either side
/// of a control, CR or LF; in extended and legacy clusters alike.
pub proof fn law_controls_break(d: Seq<char>, k: int, extended: bool)
    requires
        0 < k < d.len(),
        is_control_like(ginfo(d[k - 1]).cat) || is_control_like(ginfo(d[k]).cat),
    ensures
        is_grapheme_boundary(d, k, extended) == !(ginfo(d[k - 1]).cat == GraphemeCat::CR && ginfo(
            d[k],
        ).cat == GraphemeCat::LF),
{
    lemma_boundary_by_pair(d, k, extended);
    lemma_scan_back_decided(false, d.take(k - 1), extended);
    lemma_scan_back_decided(true, d.take(k - 1), extended);
}

/// GB9b: in extended clusters, no boundary after a `Prepend` scalar, unless
/// the scalar after it is a control, CR or LF.
pub proof fn law_no_break_after_prepend(d: Seq<char>, k: int)
    requires
        0 < k < d.len(),
        ginfo(d[k - 1]).cat == GraphemeCat::Prepend,
        !is_control_like(ginfo(d[k]).cat),
    ensures
        !is_grapheme_boundary(d, k, true),
{
    lemma_boundary_by_pair(d, k, true);
    lemma_scan_back_decided(false, d.take(k - 1), true);
}

/// GB999: between two scalars that no rule keeps together (no control,
/// CR or LF, no Hangul pair of GB6-GB8, nothing before `Extend` or ZWJ, and
/// in extended clusters nothing before a `SpacingMark` or after a `Prepend`,
/// no conjunct consonant after a conjunct extender or linker, no pictograph
/// after a ZWJ, no pair of regional indicators) there is a boundary.
pub proof fn law_break_otherwise(d: Seq<char>, k: int, extended: bool)
    requires
        0 < k < d.len(),
        ({
            let b = ginfo(d[k - 1]);
            let a = ginfo(d[k]);
            &&& !is_control_like(b.cat) && !is_control_like(a.cat)
            &&& !hangul_joined(b.cat, a.cat)
            &&& a.cat != GraphemeCat::Extend && a.cat != GraphemeCat::ZWJ
            &&& extended ==> a.cat != GraphemeCat::SpacingMark && b.cat != GraphemeCat::Prepend
                && !(a.incb == InCb::Consonant && (b.incb == InCb::Extend || b.incb
                == InCb::Linker))
            &&& !(b.cat == GraphemeCat::ZWJ && a.pict)
            &&& !(b.cat == GraphemeCat::RegionalIndicator && a.cat
                == GraphemeCat::RegionalIndicator)
        }),
    ensures
        is_grapheme_boundary(d, k, extended),
{
    lemma_boundary_by_pair(d, k, extended);
    lemma_scan_back_decided(true, d.take(k - 1), extended);
}

} // verus!
