//! The ranking formulas, in fixed point.
//!
//! A candidate's score combines the weighted match mass, a recency
//! component normalised by the square root of each cue list's length, and
//! a reinforcement-frequency component (base-10 logarithm of the
//! reinforcement count). All values are micro-units: 1.0 is `SCALE`.

use crate::fixed;
use crate::fixed::SCALE;
use vstd::prelude::*;

verus! {

/// One matched cue for a candidate: the reverse-rank `pos` (0 is the most
/// recent position), the cue list's length, and the query weight.
pub struct MatchInfo {
    pub pos: usize,
    pub len: usize,
    pub weight: u64,
}

/// A match is meaningful when the position lies in the list and the
/// weight is a fraction of one unit.
pub open spec fn match_ok(m: MatchInfo) -> bool {
    m.len >= 1 && m.pos < m.len && 1 <= m.weight <= SCALE
}

/// The fixed-point square root of the list length.
pub open spec fn sigma_spec(len: nat) -> nat {
    fixed::isqrt_spec(len * (SCALE as nat) * (SCALE as nat))
}

/// The recency weight `20 / (ratio + 1)` with `ratio = pos / sqrt(len)`.
pub open spec fn w_rec_spec(pos: nat, len: nat) -> nat {
    (20 * (SCALE as nat) * sigma_spec(len)) / (pos * (SCALE as nat) + sigma_spec(len))
}

/// The frequency weight `1 + 5 * (1 - 1 / (ratio + 1))`.
pub open spec fn w_freq_spec(pos: nat, len: nat) -> nat {
    (SCALE as nat) + (5 * (SCALE as nat)) * (pos * (SCALE as nat)) / (pos * (SCALE as nat)
        + sigma_spec(len))
}

/// The recency contribution `1 / (pos + 1)`, with a whole extra unit of
/// freshness bonus at the tail.
pub open spec fn rec_comp_spec(pos: nat) -> nat {
    (SCALE as nat) / (pos + 1) + if pos == 0 {
        SCALE as nat
    } else {
        0
    }
}

/// The weighted sum of the recency contributions.
pub open spec fn sum_rec(ms: Seq<MatchInfo>) -> nat
    decreases ms.len(),
{
    if ms.len() == 0 {
        0
    } else {
        sum_rec(ms.drop_last()) + rec_comp_spec(ms.last().pos as nat) * (
        ms.last().weight as nat) / (SCALE as nat)
    }
}

/// The sum of the recency weights.
pub open spec fn sum_wrec(ms: Seq<MatchInfo>) -> nat
    decreases ms.len(),
{
    if ms.len() == 0 {
        0
    } else {
        sum_wrec(ms.drop_last()) + w_rec_spec(ms.last().pos as nat, ms.last().len as nat)
    }
}

/// The sum of the frequency weights.
pub open spec fn sum_wfreq(ms: Seq<MatchInfo>) -> nat
    decreases ms.len(),
{
    if ms.len() == 0 {
        0
    } else {
        sum_wfreq(ms.drop_last()) + w_freq_spec(ms.last().pos as nat, ms.last().len as nat)
    }
}

/// The weighted match mass: the sum of the matched query weights.
pub open spec fn sum_weight(ms: Seq<MatchInfo>) -> nat
    decreases ms.len(),
{
    if ms.len() == 0 {
        0
    } else {
        sum_weight(ms.drop_last()) + (ms.last().weight as nat)
    }
}

/// The recency score: the weighted recency contributions averaged over
/// the match count.
pub open spec fn recency_spec(ms: Seq<MatchInfo>) -> nat {
    if ms.len() == 0 {
        0
    } else {
        sum_rec(ms) / ms.len()
    }
}

/// The reinforcement-frequency score: `log10` of the reinforcement count
/// in fixed point (zero for a count of zero).
pub open spec fn freq_score_spec(count: nat) -> nat {
    fixed::log10_fp_spec(count)
}

/// The final score: `100 * (weighted match mass) + recency * avg_w_rec +
/// freq * avg_w_freq`, averages over the match count.
pub open spec fn score_spec(ms: Seq<MatchInfo>, count: nat) -> nat {
    if ms.len() == 0 {
        0
    } else {
        let k = ms.len();
        let recency = sum_rec(ms) / k;
        let avg_rec = sum_wrec(ms) / k;
        let avg_freq = sum_wfreq(ms) / k;
        100 * sum_weight(ms) + recency * avg_rec / (SCALE as nat) + freq_score_spec(count)
            * avg_freq / (SCALE as nat)
    }
}

/// Every per-match quantity is bounded: the recency weight by 20 units,
/// the frequency weight by 6 units, the recency contribution by 2 units.
pub proof fn lemma_component_bounds(pos: nat, len: nat)
    requires
        len >= 1,
    ensures
        w_rec_spec(pos, len) <= 20 * SCALE,
        SCALE <= w_freq_spec(pos, len) < 6 * SCALE,
        rec_comp_spec(pos) <= 2 * SCALE,
        sigma_spec(len) >= SCALE,
{
    let sc = SCALE as nat;
    let sg = sigma_spec(len);
    fixed::lemma_isqrt_bounds(len * sc * sc);
    assert(sc * sc <= len * sc * sc) by (nonlinear_arith)
        requires len >= 1,
    {}
    if sg < sc {
        assert((sg + 1) * (sg + 1) <= sc * sc) by (nonlinear_arith)
            requires sg + 1 <= sc,
        {}
    }
    let denom = pos * sc + sg;
    assert(20 * sc * sg <= (20 * sc) * denom) by (nonlinear_arith)
        requires sg <= denom, sc > 0,
    {}
    assert((20 * sc + 1) * denom > 20 * sc * sg) by (nonlinear_arith)
        requires sg <= denom, denom > 0,
    {}
    assert(0 * (denom as int) <= 20 * sc * sg) by (nonlinear_arith) {}
    fixed::lemma_div_bracket((20 * sc * sg) as int, denom as int, 0, (20 * sc + 1) as int);
    assert(pos * sc < denom) by {
        assert(sg >= 1);
    }
    assert((5 * sc) * denom > (5 * sc) * (pos * sc)) by (nonlinear_arith)
        requires pos * sc < denom, sc >= 1,
    {}
    assert(0 * (denom as int) <= (5 * sc) * (pos * sc)) by (nonlinear_arith) {}
    fixed::lemma_div_bracket(((5 * sc) * (pos * sc)) as int, denom as int, 0, (5 * sc) as int);
    assert(sc / (pos + 1) <= sc) by {
        assert((sc + 1) * (pos + 1) > sc) by (nonlinear_arith)
            requires pos >= 0, sc >= 1,
        {}
        assert(0 * ((pos + 1) as int) <= sc) by (nonlinear_arith) {}
        fixed::lemma_div_bracket(sc as int, (pos + 1) as int, 0, (sc + 1) as int);
    }
}

/// The sums are bounded by the match count times the per-match bounds.
pub proof fn lemma_sum_bounds(ms: Seq<MatchInfo>)
    requires
        forall|i: int| 0 <= i < ms.len() ==> match_ok(#[trigger] ms[i]),
    ensures
        sum_weight(ms) <= ms.len() * SCALE,
        sum_rec(ms) <= ms.len() * (2 * SCALE),
        sum_wrec(ms) <= ms.len() * (20 * SCALE),
        sum_wfreq(ms) <= ms.len() * (6 * SCALE),
    decreases ms.len(),
{
    if ms.len() > 0 {
        let pre = ms.drop_last();
        assert(forall|i: int| 0 <= i < pre.len() ==> match_ok(#[trigger] pre[i])) by {
            assert(forall|i: int| 0 <= i < pre.len() ==> pre[i] == ms[i]);
        }
        lemma_sum_bounds(pre);
        let m = ms.last();
        lemma_component_bounds(m.pos as nat, m.len as nat);
        let sc = SCALE as nat;
        assert(rec_comp_spec(m.pos as nat) * (m.weight as nat) <= (2 * sc) * sc)
            by (nonlinear_arith)
            requires rec_comp_spec(m.pos as nat) <= 2 * sc, m.weight as nat <= sc,
        {}
        assert(rec_comp_spec(m.pos as nat) * (m.weight as nat) / sc <= 2 * sc) by {
            assert((2 * sc + 1) * sc > (2 * sc) * sc) by (nonlinear_arith)
                requires sc >= 1,
            {}
            assert(0 * (sc as int) <= rec_comp_spec(m.pos as nat) * (m.weight as nat))
                by (nonlinear_arith)
            {}
            fixed::lemma_div_bracket(
                (rec_comp_spec(m.pos as nat) * (m.weight as nat)) as int,
                sc as int,
                0,
                (2 * sc + 1) as int,
            );
        }
        assert((ms.len() - 1) * SCALE + SCALE == ms.len() * SCALE) by (nonlinear_arith) {}
        assert((ms.len() - 1) * (2 * SCALE) + 2 * SCALE == ms.len() * (2 * SCALE))
            by (nonlinear_arith)
        {}
        assert((ms.len() - 1) * (20 * SCALE) + 20 * SCALE == ms.len() * (20 * SCALE))
            by (nonlinear_arith)
        {}
        assert((ms.len() - 1) * (6 * SCALE) + 6 * SCALE == ms.len() * (6 * SCALE))
            by (nonlinear_arith)
        {}
    }
}

/// With everything else equal, strictly more matched weight scores
/// strictly higher: the ranker is monotone in the weighted match mass.
pub proof fn lemma_score_monotone_in_weight(ms1: Seq<MatchInfo>, ms2: Seq<MatchInfo>, count: nat)
    requires
        ms1.len() == ms2.len(),
        ms1.len() > 0,
        sum_rec(ms1) == sum_rec(ms2),
        sum_wrec(ms1) == sum_wrec(ms2),
        sum_wfreq(ms1) == sum_wfreq(ms2),
        sum_weight(ms1) > sum_weight(ms2),
    ensures
        score_spec(ms1, count) > score_spec(ms2, count),
{
    assert(100 * sum_weight(ms1) >= 100 * sum_weight(ms2) + 100) by (nonlinear_arith)
        requires sum_weight(ms1) > sum_weight(ms2),
    {}
}

/// Freshness: with one shared query cue and equal reinforcement counts
/// (whose frequency score stays below four weight units), the memory at
/// the tail (the most recent position) scores strictly higher than any
/// memory deeper in the list.
pub proof fn lemma_freshness(len: nat, pos2: nat, w: nat, count: nat)
    requires
        1 <= len <= usize::MAX,
        0 < pos2 < len,
        1 <= w <= SCALE,
        freq_score_spec(count) < 4 * w,
    ensures
        score_spec(
            seq![MatchInfo { pos: 0, len: len as usize, weight: w as u64 }],
            count,
        ) > score_spec(
            seq![MatchInfo { pos: pos2 as usize, len: len as usize, weight: w as u64 }],
            count,
        ),
{
    let sc = SCALE as nat;
    let m1 = MatchInfo { pos: 0, len: len as usize, weight: w as u64 };
    let m2 = MatchInfo { pos: pos2 as usize, len: len as usize, weight: w as u64 };
    let s1 = seq![m1];
    let s2 = seq![m2];
    assert(s1.drop_last() =~= Seq::<MatchInfo>::empty());
    assert(s2.drop_last() =~= Seq::<MatchInfo>::empty());
    assert(s1.len() == 1 && s1.last() == m1);
    assert(s2.len() == 1 && s2.last() == m2);
    assert(sum_rec(Seq::<MatchInfo>::empty()) == 0);
    assert(sum_wrec(Seq::<MatchInfo>::empty()) == 0);
    assert(sum_wfreq(Seq::<MatchInfo>::empty()) == 0);
    assert(sum_weight(Seq::<MatchInfo>::empty()) == 0);
    assert(m1.weight as nat == w && m2.weight as nat == w);
    assert(m1.pos as nat == 0 && m2.pos as nat == pos2 && m1.len as nat == len && m2.len as nat
        == len);
    lemma_component_bounds(0, len);
    lemma_component_bounds(pos2, len);
    let sg = sigma_spec(len);
    let freq = freq_score_spec(count);

    // the tail match: recency contribution 2 units, recency weight 20
    // units, frequency weight exactly one unit
    assert(rec_comp_spec(0) == 2 * sc) by {
        vstd::arithmetic::div_mod::lemma_div_basics(sc as int);
    }
    assert(sum_rec(s1) == (2 * sc) * w / (sc));
    assert((2 * sc) * w == (2 * w) * (sc)) by (nonlinear_arith) {}
    assert((2 * w) * (sc) / (sc) == 2 * w) by {
        vstd::arithmetic::div_mod::lemma_div_multiples_vanish(2 * w as int, sc as int);
        assert((sc as int) * (2 * w as int) == (2 * w as int) * (sc as int))
            by (nonlinear_arith)
        {}
    }
    assert(sum_rec(s1) == 2 * w);
    assert(w_rec_spec(0, len) == 20 * sc) by {
        assert(0 * sc + sg == sg);
        vstd::arithmetic::div_mod::lemma_div_multiples_vanish(20 * sc as int, sg as int);
        assert((sg as int) * (20 * sc as int) == (20 * sc as int) * (sg as int))
            by (nonlinear_arith)
        {}
    }
    assert(w_freq_spec(0, len) == sc) by {
        assert(0 * sc == 0nat) by (nonlinear_arith) {}
        assert((5 * sc) * 0nat == 0) by (nonlinear_arith) {}
        vstd::arithmetic::div_mod::lemma_div_of0(sg as int);
    }
    vstd::arithmetic::div_mod::lemma_div_basics(sum_rec(s1) as int);
    vstd::arithmetic::div_mod::lemma_div_basics(sum_wrec(s1) as int);
    vstd::arithmetic::div_mod::lemma_div_basics(sum_wfreq(s1) as int);
    vstd::arithmetic::div_mod::lemma_div_basics(sum_rec(s2) as int);
    vstd::arithmetic::div_mod::lemma_div_basics(sum_wrec(s2) as int);
    vstd::arithmetic::div_mod::lemma_div_basics(sum_wfreq(s2) as int);
    assert(sum_rec(s1) / 1 == 2 * w);
    assert(sum_wrec(s1) / 1 == 20 * sc);
    assert(sum_wfreq(s1) / 1 == sc);
    assert((2 * w) * (20 * sc) / (sc) == 40 * w) by {
        assert((2 * w) * (20 * sc) == (40 * w) * (sc)) by (nonlinear_arith) {}
        vstd::arithmetic::div_mod::lemma_div_multiples_vanish(40 * w as int, sc as int);
        assert((sc as int) * (40 * w as int) == (40 * w as int) * (sc as int))
            by (nonlinear_arith)
        {}
    }
    assert(freq * (sc) / (sc) == freq) by {
        vstd::arithmetic::div_mod::lemma_div_multiples_vanish(freq as int, sc as int);
        assert((sc as int) * (freq as int) == (freq as int) * (sc as int))
            by (nonlinear_arith)
        {}
    }
    assert(score_spec(s1, count) == 100 * w + 40 * w + freq);

    // the deeper match: recency contribution at most half a unit, recency
    // weight at most 20 units, frequency weight below 6 units
    assert(rec_comp_spec(pos2) <= sc / 2) by {
        assert((sc / 2 + 1) * ((pos2 + 1) as int) > sc) by (nonlinear_arith)
            requires pos2 >= 1, sc == 1000000,
        {}
        assert(0 * ((pos2 + 1) as int) <= sc) by (nonlinear_arith) {}
        fixed::lemma_div_bracket(sc as int, (pos2 + 1) as int, 0, (sc / 2 + 1) as int);
    }
    let rc2 = rec_comp_spec(pos2);
    let term2 = rc2 * w / (sc);
    assert(term2 <= w / 2) by {
        assert(rc2 * w <= (sc / 2) * w) by (nonlinear_arith)
            requires rc2 <= sc / 2, w >= 0,
        {}
        assert((sc / 2) * w == (w / 2) * (sc) + (sc / 2) * w - (w / 2) * (
        sc));
        assert(term2 <= (sc / 2) * w / (sc)) by {
            vstd::arithmetic::div_mod::lemma_div_is_ordered(
                (rc2 * w) as int,
                ((sc / 2) * w) as int,
                sc as int,
            );
        }
        assert((sc / 2) * w / (sc) <= w / 2) by {
            assert((sc / 2) * w <= (w / 2) * sc + sc - 1) by (nonlinear_arith)
                requires sc == 1000000, w >= 0, w / 2 >= 0, w % 2 < 2, w == 2 * (w / 2) + w % 2,
            {}
            fixed::lemma_div_bracket(
                ((sc / 2) * w) as int,
                sc as int,
                0,
                (w / 2 + 1) as int,
            );
            assert((w / 2 + 1) * sc > (w / 2) * sc + sc - 1) by (nonlinear_arith) {}
        }
    }
    let rec2 = sum_rec(s2);
    assert(rec2 == term2);
    let wrec2 = sum_wrec(s2);
    let wfreq2 = sum_wfreq(s2);
    assert(rec2 * wrec2 / (sc) <= 10 * w) by {
        assert(rec2 * wrec2 <= (w / 2) * (20 * sc)) by (nonlinear_arith)
            requires rec2 <= w / 2, wrec2 <= 20 * sc, rec2 >= 0, wrec2 >= 0,
        {}
        assert((w / 2) * (20 * sc) == (10 * (w / 2) * 2) * (sc))
            by (nonlinear_arith)
        {}
        assert(10 * (w / 2) * 2 <= 10 * w) by (nonlinear_arith)
            requires w >= 0, w / 2 >= 0, 2 * (w / 2) <= w,
        {}
        vstd::arithmetic::div_mod::lemma_div_is_ordered(
            (rec2 * wrec2) as int,
            ((w / 2) * (20 * sc)) as int,
            sc as int,
        );
        assert(((10 * (w / 2) * 2) * (sc)) / (sc) == 10 * (w / 2) * 2) by {
            vstd::arithmetic::div_mod::lemma_div_multiples_vanish(
                (10 * (w / 2) * 2) as int,
                sc as int,
            );
            assert((sc as int) * ((10 * (w / 2) * 2) as int) == ((10 * (w / 2) * 2) as int) * (
            sc as int)) by (nonlinear_arith) {}
        }
        vstd::arithmetic::div_mod::lemma_div_is_ordered(
            ((w / 2) * (20 * sc)) as int,
            ((10 * (w / 2) * 2) * (sc)) as int,
            sc as int,
        );
    }
    assert(freq * wfreq2 / (sc) <= 6 * freq) by {
        assert(freq * wfreq2 <= (6 * freq) * (sc)) by (nonlinear_arith)
            requires wfreq2 < 6 * sc, freq >= 0,
        {}
        assert((6 * freq + 1) * sc > (6 * freq) * sc) by (nonlinear_arith)
            requires sc >= 1,
        {}
        assert(0 * (sc as int) <= freq * wfreq2) by (nonlinear_arith) {}
        fixed::lemma_div_bracket(
            (freq * wfreq2) as int,
            sc as int,
            0,
            (6 * freq + 1) as int,
        );
    }
    assert(score_spec(s2, count) <= 100 * w + 10 * w + 6 * freq);
    assert(100 * w + 40 * w + freq > 100 * w + 10 * w + 6 * freq) by (nonlinear_arith)
        requires freq < 4 * w, w >= 1,
    {}
}

/// With equal positions, the reinforcement score is exactly the base-10
/// logarithm of the reinforcement count: on an exact power of ten it is
/// the whole number of decades.
pub proof fn lemma_log_frequency(k: nat)
    requires
        k <= 19,
    ensures
        freq_score_spec(fixed::pow10(k)) == k * SCALE,
{
    fixed::lemma_log10_fp_pow10(k);
}

} // verus!

verus! {

/// The computed components of one candidate's score.
pub struct ScoreParts {
    pub score: u64,
    pub recency: u64,
    pub freq: u64,
    pub avg_rec: u64,
    pub avg_freq: u64,
    pub weight_sum: u64,
    pub intersection: u64,
}

/// A bound on the number of matches one candidate can carry (one per
/// query cue), so every sum fits the machine words.
pub const MAX_MATCHES: usize = 100000000;

/// Divide, knowing an upper bound on the quotient.
proof fn lemma_div_le(x: nat, d: nat, b: nat)
    requires
        d >= 1,
        x <= b * d,
    ensures
        x / d <= b,
{
    assert((b + 1) * d > b * d) by (nonlinear_arith)
        requires d >= 1,
    {}
    assert(0 * (d as int) <= x) by (nonlinear_arith) {}
    fixed::lemma_div_bracket(x as int, d as int, 0, (b + 1) as int);
}

/// Score one candidate's matches: all the spec components, computed.
pub fn score_matches(ms: &Vec<MatchInfo>, count: u64) -> (r: ScoreParts)
    requires
        forall|i: int| 0 <= i < ms@.len() ==> match_ok(#[trigger] ms@[i]),
        1 <= ms@.len() <= MAX_MATCHES,
    ensures
        r.score == score_spec(ms@, count as nat),
        r.recency == recency_spec(ms@),
        r.freq == freq_score_spec(count as nat),
        r.weight_sum == sum_weight(ms@),
        r.intersection == 100 * sum_weight(ms@),
        r.avg_rec == sum_wrec(ms@) / ms@.len(),
        r.avg_freq == sum_wfreq(ms@) / ms@.len(),
{
    let mut s_rec: u64 = 0;
    let mut s_wrec: u64 = 0;
    let mut s_wfreq: u64 = 0;
    let mut s_weight: u64 = 0;
    let mut i: usize = 0;
    proof {
        assert(ms@.take(0) =~= Seq::<MatchInfo>::empty());
    }
    while i < ms.len()
        invariant
            i <= ms@.len(),
            ms@.len() <= MAX_MATCHES,
            forall|j: int| 0 <= j < ms@.len() ==> match_ok(#[trigger] ms@[j]),
            s_rec == sum_rec(ms@.take(i as int)),
            s_wrec == sum_wrec(ms@.take(i as int)),
            s_wfreq == sum_wfreq(ms@.take(i as int)),
            s_weight == sum_weight(ms@.take(i as int)),
            s_rec <= i * (2 * SCALE),
            s_wrec <= i * (20 * SCALE),
            s_wfreq <= i * (6 * SCALE),
            s_weight <= i * SCALE,
        decreases ms@.len() - i,
    {
        let m = &ms[i];
        proof {
            lemma_component_bounds(m.pos as nat, m.len as nat);
        }
        let len128 = m.len as u128;
        proof {
            assert(len128 * (SCALE as u128) * (SCALE as u128) <= 0xffffffffffffffffu128
                * 1000000 * 1000000) by (nonlinear_arith)
                requires len128 <= 0xffffffffffffffffu128, SCALE == 1000000,
            {}
        }
        let nsq: u128 = len128 * (SCALE as u128) * (SCALE as u128);
        let sigma128 = fixed::isqrt(nsq);
        proof {
            assert(sigma128 == sigma_spec(m.len as nat));
            assert(sigma_spec(m.len as nat) >= SCALE);
            fixed::lemma_isqrt_bounds(nsq as nat);
            if sigma128 > u64::MAX as u128 {
                assert((sigma128 as nat) * (sigma128 as nat) > nsq as nat) by (nonlinear_arith)
                    requires
                        sigma128 as nat > u64::MAX as nat,
                        nsq as nat <= 0xffffffffffffffffu128 * 1000000 * 1000000,
                {}
            }
        }
        let sigma: u128 = sigma128;
        let pos128 = m.pos as u128;
        proof {
            assert(pos128 * (SCALE as u128) <= 0xffffffffffffffffu128 * 1000000)
                by (nonlinear_arith)
                requires pos128 <= 0xffffffffffffffffu128, SCALE == 1000000,
            {}
            assert(20 * (SCALE as u128) * sigma <= 20 * 1000000 * 0xffffffffffffffffu128)
                by (nonlinear_arith)
                requires sigma <= 0xffffffffffffffffu128, SCALE == 1000000,
            {}
            assert(5 * (SCALE as u128) * (pos128 * (SCALE as u128)) <= 5 * 1000000 * (
            0xffffffffffffffffu128 * 1000000)) by (nonlinear_arith)
                requires pos128 * (SCALE as u128) <= 0xffffffffffffffffu128 * 1000000, SCALE
                    == 1000000,
            {}
        }
        let denom: u128 = pos128 * (SCALE as u128) + sigma;
        let w_rec128: u128 = 20 * (SCALE as u128) * sigma / denom;
        let w_freq128: u128 = (SCALE as u128) + 5 * (SCALE as u128) * (pos128 * (SCALE as u128))
            / denom;
        let rec_comp128: u128 = (SCALE as u128) / (pos128 + 1) + if m.pos == 0 {
            SCALE as u128
        } else {
            0
        };
        proof {
            assert(rec_comp128 == rec_comp_spec(m.pos as nat));
            assert(rec_comp128 <= 2 * SCALE as u128);
            assert(rec_comp128 * (m.weight as u128) <= (2 * SCALE as u128) * (SCALE as u128))
                by (nonlinear_arith)
                requires
                    rec_comp128 <= 2 * SCALE as u128,
                    m.weight as u128 <= SCALE as u128,
            {}
        }
        let term_rec128: u128 = rec_comp128 * (m.weight as u128) / (SCALE as u128);
        proof {
            assert(w_rec128 == w_rec_spec(m.pos as nat, m.len as nat));
            assert(w_freq128 == w_freq_spec(m.pos as nat, m.len as nat));
            lemma_div_le(
                (rec_comp128 * (m.weight as u128)) as nat,
                SCALE as nat,
                (2 * SCALE) as nat,
            );
            assert((rec_comp128 * (m.weight as u128)) as nat == rec_comp_spec(m.pos as nat) * (
            m.weight as nat));
            assert(term_rec128 == rec_comp_spec(m.pos as nat) * (m.weight as nat) / (
            SCALE as nat));
            assert(ms@.take(i + 1).drop_last() =~= ms@.take(i as int));
            assert(ms@.take(i + 1).last() == ms@[i as int]);
            assert(i * (2 * SCALE) + 2 * SCALE == (i + 1) * (2 * SCALE)) by (nonlinear_arith) {}
            assert(i * (20 * SCALE) + 20 * SCALE == (i + 1) * (20 * SCALE))
                by (nonlinear_arith)
            {}
            assert(i * (6 * SCALE) + 6 * SCALE == (i + 1) * (6 * SCALE)) by (nonlinear_arith) {}
            assert(i * SCALE + SCALE == (i + 1) * SCALE) by (nonlinear_arith) {}
            assert(i * (2 * SCALE) <= MAX_MATCHES * (2 * SCALE)) by (nonlinear_arith)
                requires i <= MAX_MATCHES,
            {}
            assert(i * (20 * SCALE) <= MAX_MATCHES * (20 * SCALE)) by (nonlinear_arith)
                requires i <= MAX_MATCHES,
            {}
            assert(i * (6 * SCALE) <= MAX_MATCHES * (6 * SCALE)) by (nonlinear_arith)
                requires i <= MAX_MATCHES,
            {}
            assert(i * SCALE <= MAX_MATCHES * SCALE) by (nonlinear_arith)
                requires i <= MAX_MATCHES,
            {}
        }
        s_rec = s_rec + term_rec128 as u64;
        s_wrec = s_wrec + w_rec128 as u64;
        s_wfreq = s_wfreq + w_freq128 as u64;
        s_weight = s_weight + m.weight;
        i = i + 1;
    }
    proof {
        assert(ms@.take(ms@.len() as int) =~= ms@);
    }
    let k = ms.len() as u64;
    let recency = s_rec / k;
    let avg_rec = s_wrec / k;
    let avg_freq = s_wfreq / k;
    let freq = fixed::log10_fp(count);
    proof {
        lemma_div_le(s_rec as nat, k as nat, (2 * SCALE) as nat);
        lemma_div_le(s_wrec as nat, k as nat, (20 * SCALE) as nat);
        lemma_div_le(s_wfreq as nat, k as nat, (6 * SCALE) as nat);
        assert(s_rec as nat <= (2 * SCALE) * (k as nat)) by (nonlinear_arith)
            requires s_rec as nat <= (k as nat) * (2 * SCALE), SCALE == 1000000,
        {}
        assert(s_wrec as nat <= (20 * SCALE) * (k as nat)) by (nonlinear_arith)
            requires s_wrec as nat <= (k as nat) * (20 * SCALE), SCALE == 1000000,
        {}
        assert(s_wfreq as nat <= (6 * SCALE) * (k as nat)) by (nonlinear_arith)
            requires s_wfreq as nat <= (k as nat) * (6 * SCALE), SCALE == 1000000,
        {}
    }
    proof {
        assert((recency as u128) * (avg_rec as u128) <= (2 * SCALE as u128) * (20
            * SCALE as u128)) by (nonlinear_arith)
            requires recency <= 2 * SCALE, avg_rec <= 20 * SCALE,
        {}
        assert((freq as u128) * (avg_freq as u128) <= (20 * SCALE as u128) * (6
            * SCALE as u128)) by (nonlinear_arith)
            requires freq < 20 * SCALE, avg_freq <= 6 * SCALE,
        {}
    }
    let prod_rec: u128 = (recency as u128) * (avg_rec as u128) / (SCALE as u128);
    let prod_freq: u128 = (freq as u128) * (avg_freq as u128) / (SCALE as u128);
    proof {
        lemma_div_le(
            ((recency as u128) * (avg_rec as u128)) as nat,
            SCALE as nat,
            (40 * SCALE) as nat,
        );
        assert((recency as nat) * (avg_rec as nat) <= (40 * SCALE as nat) * (SCALE as nat))
            by (nonlinear_arith)
            requires recency <= 2 * SCALE, avg_rec <= 20 * SCALE, SCALE == 1000000,
        {}
        lemma_div_le(
            ((freq as u128) * (avg_freq as u128)) as nat,
            SCALE as nat,
            (120 * SCALE) as nat,
        );
        assert((freq as nat) * (avg_freq as nat) <= (120 * SCALE as nat) * (SCALE as nat))
            by (nonlinear_arith)
            requires freq < 20 * SCALE, avg_freq <= 6 * SCALE, SCALE == 1000000,
        {}
        assert(100 * (s_weight as u128) <= 100 * (MAX_MATCHES as u128) * (SCALE as u128))
            by (nonlinear_arith)
            requires s_weight as nat <= MAX_MATCHES * SCALE, SCALE == 1000000,
        {}
    }
    let score128: u128 = 100 * (s_weight as u128) + prod_rec + prod_freq;
    proof {
        assert(score128 <= u64::MAX as u128);
    }
    ScoreParts {
        score: score128 as u64,
        recency,
        freq,
        avg_rec,
        avg_freq,
        weight_sum: s_weight,
        intersection: 100 * s_weight,
    }
}

} // verus!
