//! Verified text helpers over character sequences.
//!
//! The library manipulates cues and contents as vectors of characters;
//! everything here is ordinary verified code with exact contracts. Case
//! folding is ASCII-only: the canonical cue alphabet is lowercase ASCII.

use vstd::prelude::*;

verus! {

/// ASCII whitespace, as the trimming here understands it.
pub open spec fn is_space(c: char) -> bool {
    c == ' ' || c == '\t' || c == '\n' || c == '\r'
}

/// The ASCII lowercase of one character; anything but 'A'..'Z' is itself.
pub open spec fn lower_char(c: char) -> char {
    if c == 'A' {
        'a'
    } else if c == 'B' {
        'b'
    } else if c == 'C' {
        'c'
    } else if c == 'D' {
        'd'
    } else if c == 'E' {
        'e'
    } else if c == 'F' {
        'f'
    } else if c == 'G' {
        'g'
    } else if c == 'H' {
        'h'
    } else if c == 'I' {
        'i'
    } else if c == 'J' {
        'j'
    } else if c == 'K' {
        'k'
    } else if c == 'L' {
        'l'
    } else if c == 'M' {
        'm'
    } else if c == 'N' {
        'n'
    } else if c == 'O' {
        'o'
    } else if c == 'P' {
        'p'
    } else if c == 'Q' {
        'q'
    } else if c == 'R' {
        'r'
    } else if c == 'S' {
        's'
    } else if c == 'T' {
        't'
    } else if c == 'U' {
        'u'
    } else if c == 'V' {
        'v'
    } else if c == 'W' {
        'w'
    } else if c == 'X' {
        'x'
    } else if c == 'Y' {
        'y'
    } else if c == 'Z' {
        'z'
    } else {
        c
    }
}

/// The ASCII lowercase of a character sequence.
pub open spec fn lower_seq(s: Seq<char>) -> Seq<char> {
    s.map_values(|c: char| lower_char(c))
}

/// Lowercasing twice is lowercasing once.
pub proof fn lemma_lower_idempotent(s: Seq<char>)
    ensures
        lower_seq(lower_seq(s)) == lower_seq(s),
{
    assert(lower_seq(lower_seq(s)) =~= lower_seq(s));
}

/// The sequence without its leading whitespace.
pub open spec fn trim_front_spec(s: Seq<char>) -> Seq<char>
    decreases s.len(),
{
    if s.len() > 0 && is_space(s[0]) {
        trim_front_spec(s.drop_first())
    } else {
        s
    }
}

/// The sequence without its trailing whitespace.
pub open spec fn trim_back_spec(s: Seq<char>) -> Seq<char>
    decreases s.len(),
{
    if s.len() > 0 && is_space(s[s.len() - 1]) {
        trim_back_spec(s.drop_last())
    } else {
        s
    }
}

/// The sequence without leading and trailing whitespace.
pub open spec fn trim_spec(s: Seq<char>) -> Seq<char> {
    trim_back_spec(trim_front_spec(s))
}

/// A trimmed sequence has no space at either end, so trimming again
/// changes nothing.
pub proof fn lemma_trim_idempotent(s: Seq<char>)
    ensures
        trim_spec(trim_spec(s)) == trim_spec(s),
{
    lemma_trim_front_props(s);
    let f = trim_front_spec(s);
    lemma_trim_back_props(f);
    let t = trim_back_spec(f);
    lemma_trim_back_keeps_front(f);
    assert(trim_front_spec(t) == t);
    assert(trim_back_spec(t) == t);
}

/// What trimming the front leaves: a suffix that no longer starts with a
/// space.
pub proof fn lemma_trim_front_props(s: Seq<char>)
    ensures
        trim_front_spec(s).len() > 0 ==> !is_space(trim_front_spec(s)[0]),
        trim_front_spec(s).len() <= s.len(),
        exists|k: int|
            0 <= k <= s.len() && trim_front_spec(s) == s.subrange(k, s.len() as int)
                && (forall|j: int| 0 <= j < k ==> is_space(s[j])),
    decreases s.len(),
{
    if s.len() > 0 && is_space(s[0]) {
        lemma_trim_front_props(s.drop_first());
        let d = s.drop_first();
        let k0 = choose|k: int|
            0 <= k <= d.len() && trim_front_spec(d) == d.subrange(k, d.len() as int) && (forall|
                j: int,
            | 0 <= j < k ==> is_space(d[j]));
        assert(d.subrange(k0, d.len() as int) =~= s.subrange(k0 + 1, s.len() as int));
        assert forall|j: int| 0 <= j < k0 + 1 implies is_space(s[j]) by {
            if j >= 1 {
                assert(d[j - 1] == s[j]);
                assert(is_space(d[j - 1]));
            }
        }
    } else {
        assert(trim_front_spec(s) == s.subrange(0, s.len() as int)) by {
            assert(s.subrange(0, s.len() as int) =~= s);
        }
    }
}

/// What trimming the back leaves: a prefix that no longer ends with a
/// space.
pub proof fn lemma_trim_back_props(s: Seq<char>)
    ensures
        trim_back_spec(s).len() > 0 ==> !is_space(
            trim_back_spec(s)[trim_back_spec(s).len() - 1],
        ),
        trim_back_spec(s).len() <= s.len(),
        trim_back_spec(s) == s.subrange(0, trim_back_spec(s).len() as int),
    decreases s.len(),
{
    if s.len() > 0 && is_space(s[s.len() - 1]) {
        lemma_trim_back_props(s.drop_last());
        assert(s.drop_last() =~= s.subrange(0, s.len() - 1));
        assert(s.drop_last().subrange(0, trim_back_spec(s).len() as int) =~= s.subrange(
            0,
            trim_back_spec(s).len() as int,
        ));
    } else {
        assert(trim_back_spec(s) == s.subrange(0, trim_back_spec(s).len() as int)) by {
            assert(s.subrange(0, s.len() as int) =~= s);
        }
    }
}

/// Trimming the back of a front-trimmed sequence does not bring a leading
/// space back.
proof fn lemma_trim_back_keeps_front(s: Seq<char>)
    requires
        s.len() > 0 ==> !is_space(s[0]),
    ensures
        trim_back_spec(s).len() > 0 ==> !is_space(trim_back_spec(s)[0]),
        trim_front_spec(trim_back_spec(s)) == trim_back_spec(s),
    decreases s.len(),
{
    lemma_trim_back_props(s);
    let t = trim_back_spec(s);
    if t.len() > 0 {
        assert(t[0] == s[0]);
    }
}

/// Split on a separator character: the fields between the separators, in
/// order, empty fields kept; no separator gives the one whole field.
pub open spec fn split_spec(s: Seq<char>, sep: char) -> Seq<Seq<char>>
    decreases s.len(),
{
    if s.len() == 0 {
        seq![Seq::<char>::empty()]
    } else {
        let rest = split_spec(s.drop_first(), sep);
        if s[0] == sep {
            seq![Seq::<char>::empty()] + rest
        } else {
            seq![seq![s[0]] + rest[0]] + rest.drop_first()
        }
    }
}

/// Splitting always yields at least one field.
pub proof fn lemma_split_len(s: Seq<char>, sep: char)
    ensures
        split_spec(s, sep).len() >= 1,
    decreases s.len(),
{
    if s.len() > 0 {
        lemma_split_len(s.drop_first(), sep);
    }
}

/// How one more character at the end extends a split: a separator opens a
/// new empty field, anything else extends the last field.
pub proof fn lemma_split_push(s: Seq<char>, sep: char, c: char)
    ensures
        split_spec(s.push(c), sep) == if c == sep {
            split_spec(s, sep).push(Seq::<char>::empty())
        } else {
            split_spec(s, sep).update(
                split_spec(s, sep).len() - 1,
                split_spec(s, sep).last().push(c),
            )
        },
    decreases s.len(),
{
    lemma_split_len(s, sep);
    if s.len() == 0 {
        if c == sep {
            assert(split_spec(s.push(c), sep) =~= split_spec(s, sep).push(
                Seq::<char>::empty(),
            )) by {
                assert(s.push(c).drop_first() =~= s);
            }
        } else {
            assert(s.push(c).drop_first() =~= s);
            assert(split_spec(s.push(c), sep) =~= split_spec(s, sep).update(
                0,
                split_spec(s, sep).last().push(c),
            )) by {
                assert(seq![s.push(c)[0]] + split_spec(s, sep)[0] =~= seq![c]);
            }
        }
    } else {
        lemma_split_push(s.drop_first(), sep, c);
        lemma_split_len(s.drop_first(), sep);
        assert(s.push(c).drop_first() =~= s.drop_first().push(c));
        let rest = split_spec(s.drop_first(), sep);
        let restc = split_spec(s.drop_first().push(c), sep);
        if c == sep {
            if s[0] == sep {
                assert(split_spec(s.push(c), sep) =~= split_spec(s, sep).push(
                    Seq::<char>::empty(),
                ));
            } else {
                assert(restc[0] == rest[0]);
                assert(split_spec(s.push(c), sep) =~= split_spec(s, sep).push(
                    Seq::<char>::empty(),
                ));
            }
        } else {
            let full = split_spec(s, sep);
            if s[0] == sep {
                assert(split_spec(s.push(c), sep) =~= full.update(
                    full.len() - 1,
                    full.last().push(c),
                ));
            } else {
                assert(rest.len() >= 1);
                if rest.len() == 1 {
                    assert(restc == rest.update(0, rest.last().push(c)));
                    assert(restc[0] == rest[0].push(c));
                    assert(split_spec(s.push(c), sep) =~= full.update(
                        full.len() - 1,
                        full.last().push(c),
                    ));
                } else {
                    assert(restc[0] == rest[0]);
                    assert(split_spec(s.push(c), sep) =~= full.update(
                        full.len() - 1,
                        full.last().push(c),
                    ));
                }
            }
        }
    }
}

/// Join fields with a separator between consecutive fields.
pub open spec fn join_spec(parts: Seq<Seq<char>>, sep: char) -> Seq<char>
    decreases parts.len(),
{
    if parts.len() == 0 {
        Seq::<char>::empty()
    } else if parts.len() == 1 {
        parts[0]
    } else {
        parts[0] + seq![sep] + join_spec(parts.drop_first(), sep)
    }
}

} // verus!

verus! {

/// The decimal digit character for a value below ten.
pub open spec fn digit_char(d: nat) -> char {
    if d == 0 {
        '0'
    } else if d == 1 {
        '1'
    } else if d == 2 {
        '2'
    } else if d == 3 {
        '3'
    } else if d == 4 {
        '4'
    } else if d == 5 {
        '5'
    } else if d == 6 {
        '6'
    } else if d == 7 {
        '7'
    } else if d == 8 {
        '8'
    } else {
        '9'
    }
}

/// The decimal digits of a number, most significant first.
pub open spec fn dec_spec(n: nat) -> Seq<char>
    decreases n,
{
    if n < 10 {
        seq![digit_char(n)]
    } else {
        dec_spec(n / 10).push(digit_char(n % 10))
    }
}

/// The numeric value of a decimal digit character, or nothing.
pub open spec fn digit_val(c: char) -> Option<nat> {
    if c == '0' {
        Some(0nat)
    } else if c == '1' {
        Some(1nat)
    } else if c == '2' {
        Some(2nat)
    } else if c == '3' {
        Some(3nat)
    } else if c == '4' {
        Some(4nat)
    } else if c == '5' {
        Some(5nat)
    } else if c == '6' {
        Some(6nat)
    } else if c == '7' {
        Some(7nat)
    } else if c == '8' {
        Some(8nat)
    } else if c == '9' {
        Some(9nat)
    } else {
        None
    }
}

/// The value of a digit string (most significant first); nothing when any
/// character is not a digit or the string is empty.
pub open spec fn dec_val(s: Seq<char>) -> Option<nat>
    decreases s.len(),
{
    if s.len() == 0 {
        None
    } else if s.len() == 1 {
        digit_val(s[0])
    } else {
        match (dec_val(s.drop_last()), digit_val(s[s.len() - 1])) {
            (Some(hi), Some(lo)) => Some(hi * 10 + lo),
            _ => None,
        }
    }
}

/// Reading back the decimal digits of `n` gives `n`.
pub proof fn lemma_dec_roundtrip(n: nat)
    ensures
        dec_val(dec_spec(n)) == Some(n),
    decreases n,
{
    if n < 10 {
        assert(dec_val(dec_spec(n)) == digit_val(digit_char(n)));
    } else {
        lemma_dec_roundtrip(n / 10);
        let s = dec_spec(n);
        assert(s.drop_last() =~= dec_spec(n / 10));
        assert(digit_val(digit_char(n % 10)) == Some(n % 10));
        assert(n / 10 * 10 + n % 10 == n) by (nonlinear_arith) {}
    }
}

/// One character, ASCII-lowercased.
pub fn lower_char_exec(c: char) -> (r: char)
    ensures
        r == lower_char(c),
{
    match c {
        'A' => 'a',
        'B' => 'b',
        'C' => 'c',
        'D' => 'd',
        'E' => 'e',
        'F' => 'f',
        'G' => 'g',
        'H' => 'h',
        'I' => 'i',
        'J' => 'j',
        'K' => 'k',
        'L' => 'l',
        'M' => 'm',
        'N' => 'n',
        'O' => 'o',
        'P' => 'p',
        'Q' => 'q',
        'R' => 'r',
        'S' => 's',
        'T' => 't',
        'U' => 'u',
        'V' => 'v',
        'W' => 'w',
        'X' => 'x',
        'Y' => 'y',
        'Z' => 'z',
        other => other,
    }
}

/// The characters of a string, in order.
pub fn to_chars(s: &str) -> (r: Vec<char>)
    ensures
        r@ == s@,
{
    crate::ext::chars_of(s)
}

/// The string holding exactly these characters.
pub fn to_string(v: &Vec<char>) -> (r: String)
    ensures
        r@ == v@,
{
    crate::ext::string_from_chars(v)
}

/// A sequence of characters, ASCII-lowercased.
pub fn lower_chars(v: &Vec<char>) -> (r: Vec<char>)
    ensures
        r@ == lower_seq(v@),
{
    let mut out: Vec<char> = Vec::new();
    let mut i: usize = 0;
    while i < v.len()
        invariant
            i <= v@.len(),
            out@ =~= lower_seq(v@.take(i as int)),
        decreases v@.len() - i,
    {
        out.push(lower_char_exec(v[i]));
        proof {
            assert(v@.take(i + 1) =~= v@.take(i as int).push(v@[i as int]));
            assert(lower_seq(v@.take(i + 1)) =~= lower_seq(v@.take(i as int)).push(
                lower_char(v@[i as int]),
            ));
        }
        i = i + 1;
    }
    proof {
        assert(v@.take(v@.len() as int) =~= v@);
    }
    out
}

/// If the first `k` characters are spaces and the `k`-th is not (or the
/// string ends there), trimming the front leaves exactly the suffix.
proof fn lemma_trim_front_at(s: Seq<char>, k: int)
    requires
        0 <= k <= s.len(),
        forall|j: int| 0 <= j < k ==> is_space(s[j]),
        k < s.len() ==> !is_space(s[k]),
    ensures
        trim_front_spec(s) == s.subrange(k, s.len() as int),
    decreases k,
{
    if k == 0 {
        if s.len() == 0 {
            assert(trim_front_spec(s) =~= s.subrange(0, s.len() as int));
        } else {
            assert(trim_front_spec(s) == s);
            assert(s =~= s.subrange(0, s.len() as int));
        }
    } else {
        let d = s.drop_first();
        lemma_trim_front_at(d, k - 1);
        assert(d.subrange(k - 1, d.len() as int) =~= s.subrange(k, s.len() as int));
    }
}

/// If everything from `e` on is a space and the character before `e` is
/// not (or `e` is zero), trimming the back leaves exactly the prefix.
proof fn lemma_trim_back_at(s: Seq<char>, e: int)
    requires
        0 <= e <= s.len(),
        forall|j: int| e <= j < s.len() ==> is_space(s[j]),
        e > 0 ==> !is_space(s[e - 1]),
    ensures
        trim_back_spec(s) == s.subrange(0, e),
    decreases s.len(),
{
    if s.len() > e {
        lemma_trim_back_at(s.drop_last(), e);
        assert(s.drop_last().subrange(0, e) =~= s.subrange(0, e));
    } else {
        if e == 0 {
            assert(trim_back_spec(s) =~= s.subrange(0, 0));
        } else {
            assert(trim_back_spec(s) == s);
            assert(s =~= s.subrange(0, e));
        }
    }
}

/// Whether the character is ASCII whitespace.
pub fn is_space_exec(c: char) -> (r: bool)
    ensures
        r == is_space(c),
{
    c == ' ' || c == '\t' || c == '\n' || c == '\r'
}

/// The characters with leading and trailing ASCII whitespace removed.
pub fn trim_chars(v: &Vec<char>) -> (r: Vec<char>)
    ensures
        r@ == trim_spec(v@),
{
    let n = v.len();
    let mut start: usize = 0;
    while start < n && is_space_exec(v[start])
        invariant
            start <= n,
            n == v@.len(),
            forall|j: int| 0 <= j < start ==> is_space(v@[j]),
        decreases n - start,
    {
        start = start + 1;
    }
    proof {
        lemma_trim_front_at(v@, start as int);
    }
    let ghost f = trim_front_spec(v@);
    let mut end: usize = n;
    while end > start && is_space_exec(v[end - 1])
        invariant
            start <= end <= n,
            n == v@.len(),
            forall|j: int| end <= j < n ==> is_space(v@[j]),
        decreases end,
    {
        end = end - 1;
    }
    proof {
        assert(f == v@.subrange(start as int, n as int));
        lemma_trim_back_at(f, end - start);
        assert(f.subrange(0, end - start) =~= v@.subrange(start as int, end as int));
    }
    let mut out: Vec<char> = Vec::new();
    let mut i: usize = start;
    while i < end
        invariant
            start <= i <= end <= n,
            n == v@.len(),
            out@ =~= v@.subrange(start as int, i as int),
        decreases end - i,
    {
        out.push(v[i]);
        proof {
            assert(v@.subrange(start as int, i + 1) =~= v@.subrange(start as int, i as int).push(
                v@[i as int],
            ));
        }
        i = i + 1;
    }
    out
}

/// Whether two character vectors hold the same characters.
pub fn eq_chars(a: &Vec<char>, b: &Vec<char>) -> (r: bool)
    ensures
        r == (a@ == b@),
{
    if a.len() != b.len() {
        return false;
    }
    let mut i: usize = 0;
    while i < a.len()
        invariant
            a@.len() == b@.len(),
            i <= a@.len(),
            forall|j: int| 0 <= j < i ==> a@[j] == b@[j],
        decreases a@.len() - i,
    {
        if a[i] != b[i] {
            return false;
        }
        i = i + 1;
    }
    proof {
        assert(a@ =~= b@);
    }
    true
}

/// Whether two strings hold the same characters.
pub fn str_eq(a: &str, b: &str) -> (r: bool)
    ensures
        r == (a@ == b@),
{
    let va = to_chars(a);
    let vb = to_chars(b);
    eq_chars(&va, &vb)
}

/// The fields of the characters split on a separator.
pub fn split_chars(v: &Vec<char>, sep: char) -> (r: Vec<Vec<char>>)
    ensures
        r@.len() == split_spec(v@, sep).len(),
        forall|i: int| 0 <= i < r@.len() ==> r@[i]@ == split_spec(v@, sep)[i],
{
    let mut done: Vec<Vec<char>> = Vec::new();
    let mut cur: Vec<char> = Vec::new();
    let mut i: usize = 0;
    proof {
        assert(v@.take(0) =~= Seq::<char>::empty());
    }
    while i < v.len()
        invariant
            i <= v@.len(),
            split_spec(v@.take(i as int), sep).len() == done@.len() + 1,
            forall|j: int|
                0 <= j < done@.len() ==> done@[j]@ == split_spec(v@.take(i as int), sep)[j],
            cur@ == split_spec(v@.take(i as int), sep).last(),
        decreases v@.len() - i,
    {
        let c = v[i];
        proof {
            lemma_split_push(v@.take(i as int), sep, c);
            assert(v@.take(i + 1) =~= v@.take(i as int).push(c));
        }
        if c == sep {
            done.push(cur);
            cur = Vec::new();
        } else {
            cur.push(c);
        }
        i = i + 1;
    }
    proof {
        assert(v@.take(v@.len() as int) =~= v@);
    }
    done.push(cur);
    done
}

/// The fields joined with the separator between consecutive fields.
pub fn join_chars(parts: &Vec<Vec<char>>, sep: char) -> (r: Vec<char>)
    ensures
        r@ == join_spec(parts@.map_values(|p: Vec<char>| p@), sep),
{
    let ghost views = parts@.map_values(|p: Vec<char>| p@);
    let mut out: Vec<char> = Vec::new();
    let mut i: usize = 0;
    proof {
        assert(views.skip(0) =~= views);
    }
    while i < parts.len()
        invariant
            i <= parts@.len(),
            views == parts@.map_values(|p: Vec<char>| p@),
            join_spec(views, sep) == out@ + join_spec(views.skip(i as int), sep),
            i == parts@.len() ==> out@ == join_spec(views, sep),
        decreases parts@.len() - i,
    {
        let part = &parts[i];
        let mut j: usize = 0;
        let ghost out0 = out@;
        while j < part.len()
            invariant
                j <= part@.len(),
                out@ =~= out0 + part@.take(j as int),
            decreases part@.len() - j,
        {
            out.push(part[j]);
            proof {
                assert(part@.take(j + 1) =~= part@.take(j as int).push(part@[j as int]));
            }
            j = j + 1;
        }
        proof {
            assert(part@.take(part@.len() as int) =~= part@);
            assert(views[i as int] == part@);
        }
        if i + 1 < parts.len() {
            out.push(sep);
            proof {
                let sk = views.skip(i as int);
                assert(sk.len() >= 2);
                assert(sk[0] == views[i as int]);
                assert(sk.drop_first() =~= views.skip(i + 1));
                assert(join_spec(sk, sep) == sk[0] + seq![sep] + join_spec(
                    views.skip(i + 1),
                    sep,
                ));
                assert(out@ =~= (out0 + part@).push(sep));
                assert(join_spec(views, sep) == out@ + join_spec(views.skip(i + 1), sep));
            }
        } else {
            proof {
                let sk = views.skip(i as int);
                assert(sk.len() == 1);
                assert(sk[0] == views[i as int]);
                assert(join_spec(sk, sep) == views[i as int]);
                assert(join_spec(views.skip(parts@.len() as int), sep) =~= Seq::<char>::empty());
                assert(join_spec(views, sep) == out@ + join_spec(
                    views.skip(parts@.len() as int),
                    sep,
                ));
            }
        }
        i = i + 1;
    }
    proof {
        if parts@.len() == 0 {
            assert(join_spec(views, sep) =~= Seq::<char>::empty());
        }
        assert(join_spec(views.skip(parts@.len() as int), sep) =~= Seq::<char>::empty());
    }
    out
}

/// Whether `needle` occurs as a contiguous run inside `hay`.
pub open spec fn is_substring(hay: Seq<char>, needle: Seq<char>) -> bool {
    exists|i: int|
        0 <= i && i + needle.len() <= hay.len() && #[trigger] hay.subrange(i, i + needle.len())
            == needle
}

/// Whether `needle` occurs inside `hay`, by scanning every start.
pub fn contains_chars(hay: &Vec<char>, needle: &Vec<char>) -> (r: bool)
    ensures
        r == is_substring(hay@, needle@),
{
    let n = needle.len();
    let h = hay.len();
    if n > h {
        proof {
            assert(!is_substring(hay@, needle@));
        }
        return false;
    }
    let mut i: usize = 0;
    while i <= h - n
        invariant
            n <= h,
            n == needle@.len(),
            h == hay@.len(),
            i <= h - n + 1,
            forall|k: int| 0 <= k < i ==> #[trigger] hay@.subrange(k, k + needle@.len()) != needle@,
        decreases h + 1 - i,
    {
        let mut j: usize = 0;
        while j < n && hay[i + j] == needle[j]
            invariant
                j <= n,
                i + n <= h,
                n == needle@.len(),
                h == hay@.len(),
                forall|t: int| 0 <= t < j ==> hay@[i + t] == needle@[t],
            decreases n - j,
        {
            j = j + 1;
        }
        if j == n {
            proof {
                assert(hay@.subrange(i as int, i + needle@.len()) =~= needle@);
            }
            return true;
        }
        proof {
            let sub = hay@.subrange(i as int, i + needle@.len());
            assert(sub[j as int] == hay@[i + j]);
            assert(sub != needle@);
        }
        i = i + 1;
    }
    false
}

/// Whether `hay` starts with `prefix`.
pub fn starts_with_chars(hay: &Vec<char>, prefix: &Vec<char>) -> (r: bool)
    ensures
        r == prefix@.is_prefix_of(hay@),
{
    if prefix.len() > hay.len() {
        return false;
    }
    let mut j: usize = 0;
    while j < prefix.len()
        invariant
            prefix@.len() <= hay@.len(),
            j <= prefix@.len(),
            forall|t: int| 0 <= t < j ==> hay@[t] == prefix@[t],
        decreases prefix@.len() - j,
    {
        if hay[j] != prefix[j] {
            proof {
                assert(hay@.subrange(0, prefix@.len() as int)[j as int] != prefix@[j as int]);
            }
            return false;
        }
        j = j + 1;
    }
    proof {
        assert(hay@.subrange(0, prefix@.len() as int) =~= prefix@);
    }
    true
}

/// The decimal digits of a number, as characters.
pub fn dec_chars(n: u64) -> (r: Vec<char>)
    ensures
        r@ == dec_spec(n as nat),
    decreases n,
{
    let d: u64 = n % 10;
    let c = match d {
        0 => '0',
        1 => '1',
        2 => '2',
        3 => '3',
        4 => '4',
        5 => '5',
        6 => '6',
        7 => '7',
        8 => '8',
        _ => '9',
    };
    proof {
        assert(c == digit_char((n % 10) as nat));
    }
    if n < 10 {
        let mut out: Vec<char> = Vec::new();
        out.push(c);
        proof {
            assert(out@ =~= dec_spec(n as nat));
        }
        out
    } else {
        let mut out = dec_chars(n / 10);
        out.push(c);
        out
    }
}

} // verus!

verus! {

/// A sequence with no whitespace at either end trims to itself.
pub proof fn lemma_trim_of_unspaced(s: Seq<char>)
    requires
        s.len() > 0 ==> !is_space(s[0]),
        s.len() > 0 ==> !is_space(s[s.len() - 1]),
    ensures
        trim_spec(s) == s,
{
    lemma_trim_front_at(s, 0);
    assert(s.subrange(0, s.len() as int) =~= s);
    lemma_trim_back_at(s, s.len() as int);
}

} // verus!
