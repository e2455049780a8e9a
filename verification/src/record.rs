//! The alias record: the JSON document an alias memory carries as its
//! content, `{from, to, downweight, status, reason}`. The library writes
//! records itself and reads back the rewrite target and its downweight,
//! so both directions have exact contracts over the document's text.

use crate::fixed::SCALE;
use crate::text;
use vstd::prelude::*;

verus! {

/// The six zero-padded fractional digits of a micro-unit value.
pub open spec fn pad6_spec(n: nat) -> Seq<char> {
    seq![
        text::digit_char((n / 100000) % 10),
        text::digit_char((n / 10000) % 10),
        text::digit_char((n / 1000) % 10),
        text::digit_char((n / 100) % 10),
        text::digit_char((n / 10) % 10),
        text::digit_char(n % 10),
    ]
}

/// A weight in micro-units written as a decimal number (`0.850000`).
pub open spec fn weight_text_spec(w: nat) -> Seq<char> {
    text::dec_spec(w / (SCALE as nat)) + seq!['.'] + pad6_spec(w % (SCALE as nat))
}

/// The record text: plain JSON with the fields in a fixed order.
pub open spec fn record_spec(
    from: Seq<char>,
    to: Seq<char>,
    weight: nat,
    status: Seq<char>,
    reason: Seq<char>,
) -> Seq<char> {
    "{\"from\":\""@ + from + "\",\"to\":\""@ + to + "\",\"downweight\":"@ + weight_text_spec(
        weight,
    ) + ",\"status\":\""@ + status + "\",\"reason\":\""@ + reason + "\"}"@
}

/// The rewrite target a record names: split on the quote characters, the
/// eighth field, when the field names sit where a record puts them.
pub open spec fn parse_target_spec(s: Seq<char>) -> Option<Seq<char>> {
    let parts = text::split_spec(s, '"');
    if parts.len() >= 12 && parts[5] == "to"@ && parts[9] == "downweight"@ {
        Some(parts[7])
    } else {
        None
    }
}

/// The downweight a record carries, when its text has the written shape
/// (one leading digit, a point, six digits); a target can be read even
/// when the weight cannot.
pub open spec fn parse_weight_spec(s: Seq<char>) -> Option<u64> {
    if parse_target_spec(s) is Some {
        weight_of_field(text::split_spec(s, '"')[10])
    } else {
        None
    }
}

/// What reading a record finds: the rewrite target together with its
/// downweight when both are readable.
pub open spec fn parse_record_spec(s: Seq<char>) -> Option<(Seq<char>, u64)> {
    match (parse_target_spec(s), parse_weight_spec(s)) {
        (Some(t), Some(w)) => Some((t, w)),
        _ => None,
    }
}

/// The weight read from the text between the quotes after `to`'s value:
/// `:D.DDDDDD,` with one leading digit and six fractional digits.
pub open spec fn weight_of_field(f: Seq<char>) -> Option<u64> {
    if f.len() == 10 && f[0] == ':' && f[2] == '.' && f[9] == ',' {
        let lead = text::digit_val(f[1]);
        let frac = rest_val(0, f.subrange(3, 9));
        match (lead, frac) {
            (Some(l), Some(fr)) => if l * (SCALE as nat) + fr <= u64::MAX {
                Some((l * (SCALE as nat) + fr) as u64)
            } else {
                None
            },
            _ => None,
        }
    } else {
        None
    }
}

/// Write a weight as decimal text.
fn weight_text(w: u64) -> (r: Vec<char>)
    ensures
        r@ == weight_text_spec(w as nat),
{
    let whole = text::dec_chars(w / SCALE);
    let frac = w % SCALE;
    let mut out = whole;
    out.push('.');
    let d0 = digit_of((frac / 100000) % 10);
    let d1 = digit_of((frac / 10000) % 10);
    let d2 = digit_of((frac / 1000) % 10);
    let d3 = digit_of((frac / 100) % 10);
    let d4 = digit_of((frac / 10) % 10);
    let d5 = digit_of(frac % 10);
    out.push(d0);
    out.push(d1);
    out.push(d2);
    out.push(d3);
    out.push(d4);
    out.push(d5);
    proof {
        assert(out@ =~= weight_text_spec(w as nat));
    }
    out
}

/// The character of one digit.
fn digit_of(d: u64) -> (r: char)
    requires
        d < 10,
    ensures
        r == text::digit_char(d as nat),
{
    match d {
        0 => '0',
        1 => '1',
        2 => '2',
        3 => '3',
        4 => '4',
        5 => '5',
        6 => '6',
        7 => '7',
        8 => '8',
        _ => '9',
    }
}

/// Push every character of a string literal's characters onto a vector.
fn push_all(out: &mut Vec<char>, s: &str)
    ensures
        final(out)@ == old(out)@ + s@,
{
    let cs = text::to_chars(s);
    let mut i: usize = 0;
    while i < cs.len()
        invariant
            i <= cs@.len(),
            cs@ == s@,
            out@ =~= old(out)@ + cs@.take(i as int),
        decreases cs@.len() - i,
    {
        out.push(cs[i]);
        proof {
            assert(cs@.take(i + 1) =~= cs@.take(i as int).push(cs@[i as int]));
        }
        i = i + 1;
    }
    proof {
        assert(cs@.take(cs@.len() as int) =~= cs@);
    }
}

/// Write an alias record.
pub fn format_record(from: &str, to: &str, weight: u64, status: &str, reason: &str) -> (r:
    String)
    ensures
        r@ == record_spec(from@, to@, weight as nat, status@, reason@),
{
    let mut out: Vec<char> = Vec::new();
    push_all(&mut out, "{\"from\":\"");
    push_all(&mut out, from);
    push_all(&mut out, "\",\"to\":\"");
    push_all(&mut out, to);
    push_all(&mut out, "\",\"downweight\":");
    let wt = weight_text(weight);
    let mut i: usize = 0;
    let ghost before = out@;
    while i < wt.len()
        invariant
            i <= wt@.len(),
            out@ =~= before + wt@.take(i as int),
        decreases wt@.len() - i,
    {
        out.push(wt[i]);
        proof {
            assert(wt@.take(i + 1) =~= wt@.take(i as int).push(wt@[i as int]));
        }
        i = i + 1;
    }
    proof {
        assert(wt@.take(wt@.len() as int) =~= wt@);
    }
    push_all(&mut out, ",\"status\":\"");
    push_all(&mut out, status);
    push_all(&mut out, "\",\"reason\":\"");
    push_all(&mut out, reason);
    push_all(&mut out, "\"}");
    proof {
        assert(out@ =~= record_spec(from@, to@, weight as nat, status@, reason@));
    }
    text::to_string(&out)
}

/// Read the rewrite target out of an alias record, and the downweight
/// when its text is readable.
pub fn parse_record(s: &str) -> (r: Option<(String, Option<u64>)>)
    ensures
        match r {
            Some(p) => parse_target_spec(s@) == Some(p.0@) && p.1 == parse_weight_spec(s@),
            None => parse_target_spec(s@) is None,
        },
{
    let cs = text::to_chars(s);
    let parts = text::split_chars(&cs, '"');
    proof {
        assert(parts@.len() == text::split_spec(s@, '"').len());
    }
    if parts.len() < 12 {
        return None;
    }
    proof {
        assert(parts@[5]@ == text::split_spec(s@, '"')[5]);
        assert(parts@[7]@ == text::split_spec(s@, '"')[7]);
        assert(parts@[9]@ == text::split_spec(s@, '"')[9]);
        assert(parts@[10]@ == text::split_spec(s@, '"')[10]);
    }
    let p5 = text::to_string(&parts[5]);
    if !text::str_eq(p5.as_str(), "to") {
        return None;
    }
    let p9 = text::to_string(&parts[9]);
    if !text::str_eq(p9.as_str(), "downweight") {
        return None;
    }
    let to = text::to_string(&parts[7]);
    proof {
        assert(parse_target_spec(s@) == Some(to@));
    }
    let f = &parts[10];
    proof {
        assert(f@ == text::split_spec(s@, '"')[10]);
    }
    if f.len() != 10 {
        proof {
            assert(weight_of_field(f@) is None);
        }
        return Some((to, None));
    }
    if f[0] != ':' || f[2] != '.' || f[9] != ',' {
        proof {
            assert(weight_of_field(f@) is None);
        }
        return Some((to, None));
    }
    let lead = match digit_value(f[1]) {
        Some(d) => d,
        None => {
            proof {
                assert(weight_of_field(f@) is None);
            }
            return Some((to, None));
        },
    };
    let mut frac: u64 = 0;
    let mut k: usize = 3;
    while k < 9
        invariant
            3 <= k <= 9,
            f@.len() == 10,
            frac < 1000000,
            rest_val(0, f@.subrange(3, 9)) == rest_val(frac as nat, f@.subrange(k as int, 9)),
            crate::fixed::pow10((k - 3) as nat) > frac as nat,
            text::split_spec(s@, '"').len() >= 12,
            f@ == text::split_spec(s@, '"')[10],
            text::split_spec(s@, '"')[5] == "to"@,
            text::split_spec(s@, '"')[9] == "downweight"@,
            to@ == text::split_spec(s@, '"')[7],
            f@[0] == ':' && f@[2] == '.' && f@[9] == ',',
        decreases 9 - k,
    {
        proof {
            crate::fixed::lemma_pow10_values();
            crate::fixed::lemma_pow10_increases((k - 3) as nat, 6);
        }
        let d = match digit_value(f[k]) {
            Some(d) => d,
            None => {
                proof {
                    let restk = f@.subrange(k as int, 9);
                    assert(restk.len() > 0);
                    assert(restk[0] == f@[k as int]);
                    assert(text::digit_val(restk[0]) is None);
                    lemma_rest_none(frac as nat, restk);
                    assert(rest_val(frac as nat, restk) is None);
                    assert(rest_val(0, f@.subrange(3, 9)) is None);
                    assert(weight_of_field(f@) is None);
                }
                return Some((to, None));
            },
        };
        proof {
            let restk = f@.subrange(k as int, 9);
            let restk1 = f@.subrange(k + 1, 9);
            assert(restk.drop_first() =~= restk1);
            assert(restk[0] == f@[k as int]);
            crate::fixed::lemma_pow10_values();
            crate::fixed::lemma_pow10_increases((k - 3) as nat, 5);
        }
        frac = frac * 10 + d;
        k = k + 1;
    }
    proof {
        assert(f@.subrange(9, 9).len() =~= 0);
        assert(f@.subrange(9, 9) =~= Seq::<char>::empty());
        lemma_rest_empty(frac as nat);
        assert(rest_val(0, f@.subrange(3, 9)) == Some(frac as nat));
    }
    let w = lead * SCALE + frac;
    proof {
        assert(weight_of_field(f@) == Some(w));
    }
    Some((to, Some(w)))
}

/// The value of the remaining digits appended to an accumulator.
pub open spec fn rest_val(acc: nat, rest: Seq<char>) -> Option<nat>
    decreases rest.len(),
{
    if rest.len() == 0 {
        Some(acc)
    } else {
        match text::digit_val(rest[0]) {
            Some(d) => rest_val(acc * 10 + d, rest.drop_first()),
            None => None,
        }
    }
}

/// A non-digit anywhere in the rest reads as nothing.
proof fn lemma_rest_none(acc: nat, rest: Seq<char>)
    requires
        rest.len() > 0,
        text::digit_val(rest[0]) is None,
    ensures
        rest_val(acc, rest) is None,
{
}

/// An empty rest reads as the accumulator.
proof fn lemma_rest_empty(acc: nat)
    ensures
        rest_val(acc, Seq::<char>::empty()) == Some(acc),
{
}

/// The digit value of one character.
fn digit_value(c: char) -> (r: Option<u64>)
    ensures
        match r {
            Some(d) => text::digit_val(c) == Some(d as nat) && d < 10,
            None => text::digit_val(c) is None,
        },
{
    match c {
        '0' => Some(0),
        '1' => Some(1),
        '2' => Some(2),
        '3' => Some(3),
        '4' => Some(4),
        '5' => Some(5),
        '6' => Some(6),
        '7' => Some(7),
        '8' => Some(8),
        '9' => Some(9),
        _ => None,
    }
}

} // verus!
