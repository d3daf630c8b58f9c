//! Extraction of a currency mention from free text, and conversion of
//! the amount to USD cents against a historical monthly rate table.
//!
//! The extractor lowercases the text (ASCII case only) and scans it
//! for the leftmost occurrence of either `symbol [space] amount` or
//! `amount [space] symbol`, where a symbol is one of a fixed set of
//! three-letter currency codes and currency signs and an amount is a
//! digit/separator group; letter codes therefore match in any input
//! case.
//! The scan is greedy and leftmost-first, and prefers the
//! symbol-first shape at each position.

use vstd::prelude::*;

use crate::error::WatchIdError;
use crate::identify::{is_digit_c, leading_digits};
use crate::text::str_to_chars;
use crate::tokenize::is_space_c;

verus! {

/// ASCII lowercasing of one character.
pub open spec fn lower_char(c: char) -> char {
    if 'A' <= c && c <= 'Z' {
        ((c as u32) + 32) as char
    } else {
        c
    }
}

/// ASCII lowercasing of a character sequence.
pub open spec fn ascii_lower(s: Seq<char>) -> Seq<char> {
    Seq::new(s.len(), |i: int| lower_char(s[i]))
}

/// ASCII lowercasing, character by character.
pub(crate) fn ascii_lower_exec(s: &Vec<char>) -> (r: Vec<char>)
    ensures
        r@ == ascii_lower(s@),
{
    let mut r: Vec<char> = Vec::new();
    let mut i: usize = 0;
    while i < s.len()
        invariant
            i <= s@.len(),
            r@.len() == i,
            forall|k: int| 0 <= k < i ==> r@[k] == ascii_lower(s@)[k],
        decreases s@.len() - i,
    {
        let c: char = s[i];
        if 'A' <= c && c <= 'Z' {
            let b: u8 = c as u8;
            r.push((b + 32) as char);
        } else {
            r.push(c);
        }
        i = i + 1;
    }
    proof {
        assert(r@ =~= ascii_lower(s@));
    }
    r
}

/// The alternatives of the currency pattern, in preference order:
/// seven letter codes (lowercase, as the scan runs over the
/// lowercased text), then seven currency signs.
pub open spec fn sym_pat(k: int) -> Seq<char> {
    if k == 0 {
        seq!['u', 's', 'd']
    } else if k == 1 {
        seq!['e', 'u', 'r']
    } else if k == 2 {
        seq!['g', 'b', 'p']
    } else if k == 3 {
        seq!['c', 'n', 'y']
    } else if k == 4 {
        seq!['j', 'p', 'y']
    } else if k == 5 {
        seq!['t', 'r', 'y']
    } else if k == 6 {
        seq!['t', 'r', 'l']
    } else if k == 7 {
        seq!['€']
    } else if k == 8 {
        seq!['$']
    } else if k == 9 {
        seq!['£']
    } else if k == 10 {
        seq!['元']
    } else if k == 11 {
        seq!['块']
    } else if k == 12 {
        seq!['¥']
    } else {
        seq!['₺']
    }
}

/// The ISO-style code and canonical sign for a matched alternative, if
/// the fixed code/sign table recognizes it. The code `trl` and the
/// sign `块` can be matched by the pattern but have no table entry,
/// so they yield nothing.
pub open spec fn sym_code(k: int) -> Option<(Seq<char>, char)> {
    if k == 0 {
        Some((seq!['u', 's', 'd'], '$'))
    } else if k == 1 {
        Some((seq!['e', 'u', 'r'], '€'))
    } else if k == 2 {
        Some((seq!['g', 'b', 'p'], '£'))
    } else if k == 3 {
        Some((seq!['c', 'n', 'y'], '元'))
    } else if k == 4 {
        Some((seq!['j', 'p', 'y'], '¥'))
    } else if k == 5 {
        Some((seq!['t', 'r', 'y'], '₺'))
    } else if k == 7 {
        Some((seq!['e', 'u', 'r'], '€'))
    } else if k == 8 {
        Some((seq!['u', 's', 'd'], '$'))
    } else if k == 9 {
        Some((seq!['g', 'b', 'p'], '£'))
    } else if k == 10 {
        Some((seq!['c', 'n', 'y'], '元'))
    } else if k == 12 {
        Some((seq!['j', 'p', 'y'], '¥'))
    } else if k == 13 {
        Some((seq!['t', 'r', 'y'], '₺'))
    } else {
        None
    }
}

/// `pat` occurs in `s` at position `p`.
pub open spec fn pat_at(s: Seq<char>, p: int, pat: Seq<char>) -> bool {
    0 <= p && p + pat.len() <= s.len() && s.subrange(p, p + pat.len()) == pat
}

/// The first pattern alternative, from `k` on, that occurs at `p`.
pub open spec fn sym_match_from(s: Seq<char>, p: int, k: int) -> Option<int>
    decreases 14 - k,
{
    if k >= 14 {
        None
    } else if pat_at(s, p, sym_pat(k)) {
        Some(k)
    } else {
        sym_match_from(s, p, k + 1)
    }
}

/// The first pattern alternative that occurs at `p`, if any.
pub open spec fn sym_match(s: Seq<char>, p: int) -> Option<int> {
    sym_match_from(s, p, 0)
}

/// Whether a three-character pattern occurs at `p`.
fn pat3_at(s: &Vec<char>, p: usize, a: char, b: char, c: char) -> (r: bool)
    requires
        p <= s@.len(),
    ensures
        r == pat_at(s@, p as int, seq![a, b, c]),
{
    if s.len() - p >= 3 && s[p] == a && s[p + 1] == b && s[p + 2] == c {
        proof {
            assert(s@.subrange(p as int, p + 3) =~= seq![a, b, c]);
        }
        true
    } else {
        proof {
            if p + 3 <= s@.len() {
                assert(s@.subrange(p as int, p + 3)[0] == s@[p as int]);
                assert(s@.subrange(p as int, p + 3)[1] == s@[p + 1]);
                assert(s@.subrange(p as int, p + 3)[2] == s@[p + 2]);
            }
        }
        false
    }
}

/// Whether a one-character pattern occurs at `p`.
fn pat1_at(s: &Vec<char>, p: usize, a: char) -> (r: bool)
    requires
        p <= s@.len(),
    ensures
        r == pat_at(s@, p as int, seq![a]),
{
    if p < s.len() && s[p] == a {
        proof {
            assert(s@.subrange(p as int, p + 1) =~= seq![a]);
        }
        true
    } else {
        proof {
            if p + 1 <= s@.len() {
                assert(s@.subrange(p as int, p + 1)[0] == s@[p as int]);
            }
        }
        false
    }
}

/// The first pattern alternative at `p`, with its length.
fn sym_at(s: &Vec<char>, p: usize) -> (r: Option<(usize, usize)>)
    requires
        p <= s@.len(),
    ensures
        match r {
            Some((k, l)) => sym_match(s@, p as int) == Some(k as int) && l == sym_pat(k as int).len()
                && p + l <= s@.len(),
            None => sym_match(s@, p as int) is None,
        },
{
    proof {
        reveal_with_fuel(sym_match_from, 15);
    }
    if pat3_at(s, p, 'u', 's', 'd') {
        return Some((0, 3));
    }
    if pat3_at(s, p, 'e', 'u', 'r') {
        return Some((1, 3));
    }
    if pat3_at(s, p, 'g', 'b', 'p') {
        return Some((2, 3));
    }
    if pat3_at(s, p, 'c', 'n', 'y') {
        return Some((3, 3));
    }
    if pat3_at(s, p, 'j', 'p', 'y') {
        return Some((4, 3));
    }
    if pat3_at(s, p, 't', 'r', 'y') {
        return Some((5, 3));
    }
    if pat3_at(s, p, 't', 'r', 'l') {
        return Some((6, 3));
    }
    if pat1_at(s, p, '€') {
        return Some((7, 1));
    }
    if pat1_at(s, p, '$') {
        return Some((8, 1));
    }
    if pat1_at(s, p, '£') {
        return Some((9, 1));
    }
    if pat1_at(s, p, '元') {
        return Some((10, 1));
    }
    if pat1_at(s, p, '块') {
        return Some((11, 1));
    }
    if pat1_at(s, p, '¥') {
        return Some((12, 1));
    }
    if pat1_at(s, p, '₺') {
        return Some((13, 1));
    }
    None
}

/// An amount separator: `.` or `,`.
pub open spec fn is_sep_c(c: char) -> bool {
    c == '.' || c == ','
}

/// A character an amount group may hold: a digit or a separator.
pub open spec fn is_amt_c(c: char) -> bool {
    is_digit_c(c) || is_sep_c(c)
}

/// Length of the maximal separator prefix.
pub open spec fn leading_seps(t: Seq<char>) -> nat
    decreases t.len(),
{
    if t.len() == 0 || !is_sep_c(t[0]) {
        0
    } else {
        1 + leading_seps(t.drop_first())
    }
}

/// Length of the maximal digit/separator prefix.
pub open spec fn leading_amt(t: Seq<char>) -> nat
    decreases t.len(),
{
    if t.len() == 0 || !is_amt_c(t[0]) {
        0
    } else {
        1 + leading_amt(t.drop_first())
    }
}

/// A digit prefix is never longer than the text.
pub proof fn lemma_leading_digits_le(t: Seq<char>)
    ensures
        leading_digits(t) <= t.len(),
    decreases t.len(),
{
    if t.len() == 0 || !is_digit_c(t[0]) {
    } else {
        lemma_leading_digits_le(t.drop_first());
    }
}

/// A separator prefix is never longer than the text.
pub proof fn lemma_leading_seps_le(t: Seq<char>)
    ensures
        leading_seps(t) <= t.len(),
    decreases t.len(),
{
    if t.len() == 0 || !is_sep_c(t[0]) {
    } else {
        lemma_leading_seps_le(t.drop_first());
    }
}

/// How far the greedy separator-then-three-digits repetition of the
/// amount grammar reaches from the start of `t`.
pub open spec fn groups_len(t: Seq<char>) -> nat
    decreases t.len(),
    via groups_len_dec
{
    let p = leading_seps(t);
    let d = leading_digits(t.subrange(p as int, t.len() as int));
    if d >= 3 {
        p + 3 + groups_len(t.subrange(p + 3 as int, t.len() as int))
    } else {
        0
    }
}

#[via_fn]
proof fn groups_len_dec(t: Seq<char>) {
    lemma_leading_seps_le(t);
    let p = leading_seps(t);
    lemma_leading_digits_le(t.subrange(p as int, t.len() as int));
}

/// Length of the greedy match of the full amount grammar of the
/// symbol-first pattern: a digit run, then separator-and-three-digit
/// groups, then a final separator run with a final digit run.
pub open spec fn amount1_len(t: Seq<char>) -> nat {
    let d0 = leading_digits(t);
    let j = d0 + groups_len(t.subrange(d0 as int, t.len() as int));
    let p2 = leading_seps(t.subrange(j as int, t.len() as int));
    let e = leading_digits(t.subrange((j + p2) as int, t.len() as int));
    j + p2 + e
}

/// Length of the separator run of `s` starting at `from`.
fn seps_from(s: &Vec<char>, from: usize) -> (r: usize)
    requires
        from <= s@.len(),
    ensures
        r == leading_seps(s@.subrange(from as int, s@.len() as int)),
        from + r <= s@.len(),
{
    let n: usize = s.len();
    proof {
        assert(s@.subrange(from as int, n as int).subrange(0, (n - from) as int) =~= s@.subrange(
            from as int,
            n as int,
        ));
    }
    let mut i: usize = from;
    while i < n && sep_at(s, i)
        invariant
            n == s@.len(),
            from <= i <= n,
            leading_seps(s@.subrange(from as int, n as int)) == (i - from) + leading_seps(
                s@.subrange(i as int, n as int),
            ),
        decreases n - i,
    {
        proof {
            let u = s@.subrange(i as int, n as int);
            assert(u[0] == s@[i as int]);
            assert(u.drop_first() =~= s@.subrange(i + 1, n as int));
        }
        i = i + 1;
    }
    proof {
        let u = s@.subrange(i as int, n as int);
        if i < n {
            assert(u[0] == s@[i as int]);
        }
        assert(leading_seps(u) == 0);
    }
    i - from
}

/// Length of the digit/separator run of `s` starting at `from`.
fn amt_from(s: &Vec<char>, from: usize) -> (r: usize)
    requires
        from <= s@.len(),
    ensures
        r == leading_amt(s@.subrange(from as int, s@.len() as int)),
        from + r <= s@.len(),
{
    let n: usize = s.len();
    let mut i: usize = from;
    while i < n && amt_at(s, i)
        invariant
            n == s@.len(),
            from <= i <= n,
            leading_amt(s@.subrange(from as int, n as int)) == (i - from) + leading_amt(
                s@.subrange(i as int, n as int),
            ),
        decreases n - i,
    {
        proof {
            let u = s@.subrange(i as int, n as int);
            assert(u[0] == s@[i as int]);
            assert(u.drop_first() =~= s@.subrange(i + 1, n as int));
        }
        i = i + 1;
    }
    proof {
        let u = s@.subrange(i as int, n as int);
        if i < n {
            assert(u[0] == s@[i as int]);
        }
        assert(leading_amt(u) == 0);
    }
    i - from
}

/// Whether the character at `j` is a separator.
fn sep_at(s: &Vec<char>, j: usize) -> (r: bool)
    requires
        j < s@.len(),
    ensures
        r == is_sep_c(s@[j as int]),
{
    let c: char = s[j];
    c == '.' || c == ','
}

/// Whether the character at `j` is a digit or separator.
fn amt_at(s: &Vec<char>, j: usize) -> (r: bool)
    requires
        j < s@.len(),
    ensures
        r == is_amt_c(s@[j as int]),
{
    let c: char = s[j];
    ('0' <= c && c <= '9') || c == '.' || c == ','
}

/// End position of the separator-and-three-digits repetition starting
/// at `g0`.
fn groups_end_exec(s: &Vec<char>, g0: usize) -> (r: usize)
    requires
        g0 <= s@.len(),
    ensures
        r == g0 + groups_len(s@.subrange(g0 as int, s@.len() as int)),
        g0 <= r <= s@.len(),
{
    let n: usize = s.len();
    let mut j: usize = g0;
    loop
        invariant
            n == s@.len(),
            g0 <= j <= n,
            g0 + groups_len(s@.subrange(g0 as int, n as int)) == j + groups_len(
                s@.subrange(j as int, n as int),
            ),
        decreases n - j,
    {
        let p: usize = seps_from(s, j);
        let d: usize = crate::identify::leading_digits_from(s, j + p);
        proof {
            let t = s@.subrange(j as int, n as int);
            assert(t.subrange(leading_seps(t) as int, t.len() as int) =~= s@.subrange(
                (j + p) as int,
                n as int,
            ));
        }
        if d >= 3 {
            proof {
                let t = s@.subrange(j as int, n as int);
                assert(t.subrange(p + 3, t.len() as int) =~= s@.subrange(
                    (j + p + 3) as int,
                    n as int,
                ));
                assert(groups_len(t) == p + 3 + groups_len(
                    s@.subrange((j + p + 3) as int, n as int),
                ));
            }
            j = j + p + 3;
        } else {
            proof {
                let t = s@.subrange(j as int, n as int);
                assert(groups_len(t) == 0);
            }
            return j;
        }
    }
}

/// End position of the greedy amount match starting at `a`.
fn amount1_end(s: &Vec<char>, a: usize) -> (r: usize)
    requires
        a <= s@.len(),
    ensures
        r == a + amount1_len(s@.subrange(a as int, s@.len() as int)),
        a <= r <= s@.len(),
{
    let n: usize = s.len();
    let ghost t = s@.subrange(a as int, n as int);
    let d0: usize = crate::identify::leading_digits_from(s, a);
    proof {
        assert(t =~= s@.subrange(a as int, n as int));
        assert(t.subrange(leading_digits(t) as int, t.len() as int) =~= s@.subrange(
            (a + d0) as int,
            n as int,
        ));
    }
    let j: usize = groups_end_exec(s, a + d0);
    proof {
        assert(t.subrange((j - a) as int, t.len() as int) =~= s@.subrange(j as int, n as int));
    }
    let p2: usize = seps_from(s, j);
    proof {
        assert(t.subrange((j + p2 - a) as int, t.len() as int) =~= s@.subrange(
            (j + p2) as int,
            n as int,
        ));
    }
    let e: usize = crate::identify::leading_digits_from(s, j + p2);
    j + p2 + e
}

/// One hit of the currency pattern: which alternative matched the
/// symbol, and where the amount group lies.
pub ghost struct ScanHit {
    pub sym: int,
    pub start: int,
    pub end: int,
}

/// The symbol-first pattern at `p`: a symbol, at most one whitespace
/// character, then a greedy amount that must begin with a digit.
pub open spec fn match_a(s: Seq<char>, p: int) -> Option<ScanHit> {
    match sym_match(s, p) {
        None => None,
        Some(k) => {
            let q = p + sym_pat(k).len();
            if q < s.len() && is_space_c(s[q]) && q + 1 < s.len() && is_digit_c(s[q + 1]) {
                Some(
                    ScanHit {
                        sym: k,
                        start: q + 1,
                        end: q + 1 + amount1_len(s.subrange(q + 1, s.len() as int)),
                    },
                )
            } else if q < s.len() && is_digit_c(s[q]) {
                Some(
                    ScanHit { sym: k, start: q, end: q + amount1_len(s.subrange(q, s.len() as int)) },
                )
            } else {
                None
            }
        },
    }
}

/// The symbol that closes an amount-first match ending at `q`: after
/// at most one whitespace character, some pattern alternative.
pub open spec fn closing_sym(s: Seq<char>, q: int) -> Option<int> {
    if q < s.len() && is_space_c(s[q]) && sym_match(s, q + 1) is Some {
        sym_match(s, q + 1)
    } else {
        sym_match(s, q)
    }
}

/// The amount-first pattern with an amount of exactly `k` characters,
/// trying the longest amount first, as the greedy match does.
pub open spec fn match_b_from(s: Seq<char>, p: int, k: int) -> Option<ScanHit>
    decreases k,
{
    if k <= 0 {
        None
    } else {
        match closing_sym(s, p + k) {
            Some(sy) => Some(ScanHit { sym: sy, start: p, end: p + k }),
            None => match_b_from(s, p, k - 1),
        }
    }
}

/// The amount-first pattern at `p`: a digit-led digit/separator run,
/// at most one whitespace character, then a symbol.
pub open spec fn match_b(s: Seq<char>, p: int) -> Option<ScanHit> {
    if 0 <= p < s.len() && is_digit_c(s[p]) {
        match_b_from(s, p, leading_amt(s.subrange(p, s.len() as int)) as int)
    } else {
        None
    }
}

/// The leftmost hit of the whole pattern at or after `p`, with the
/// symbol-first alternative preferred at each position.
pub open spec fn scan_from(s: Seq<char>, p: int) -> Option<ScanHit>
    decreases s.len() - p,
    when 0 <= p
{
    if p >= s.len() {
        None
    } else if match_a(s, p) is Some {
        match_a(s, p)
    } else if match_b(s, p) is Some {
        match_b(s, p)
    } else {
        scan_from(s, p + 1)
    }
}

/// The symbol-first pattern at `p`, executably.
fn match_a_exec(s: &Vec<char>, p: usize) -> (r: Option<(usize, usize, usize)>)
    requires
        p < s@.len(),
    ensures
        match r {
            Some((k, st, en)) => match_a(s@, p as int) == Some(
                ScanHit { sym: k as int, start: st as int, end: en as int },
            ) && st <= en <= s@.len(),
            None => match_a(s@, p as int) is None,
        },
{
    let n: usize = s.len();
    match sym_at(s, p) {
        None => None,
        Some((k, l)) => {
            let q: usize = p + l;
            let space_ok: bool = q < n && space_at(s, q);
            if space_ok && q + 1 < n && crate::identify::digit_at(s, q + 1) {
                let en: usize = amount1_end(s, q + 1);
                Some((k, q + 1, en))
            } else if q < n && crate::identify::digit_at(s, q) {
                let en: usize = amount1_end(s, q);
                Some((k, q, en))
            } else {
                None
            }
        },
    }
}

/// Whether the character at `j` is whitespace.
fn space_at(s: &Vec<char>, j: usize) -> (r: bool)
    requires
        j < s@.len(),
    ensures
        r == is_space_c(s@[j as int]),
{
    let c: char = s[j];
    c == ' ' || c == '\t' || c == '\n' || c == '\r' || c == '\u{b}' || c == '\u{c}'
}

/// The closing symbol after the amount ending at `q`, executably.
fn closing_sym_exec(s: &Vec<char>, q: usize) -> (r: Option<usize>)
    requires
        q <= s@.len(),
    ensures
        match r {
            Some(k) => closing_sym(s@, q as int) == Some(k as int),
            None => closing_sym(s@, q as int) is None,
        },
{
    let n: usize = s.len();
    if q < n && space_at(s, q) {
        match sym_at(s, q + 1) {
            Some((k, _l)) => Some(k),
            None => match sym_at(s, q) {
                Some((k2, _l2)) => Some(k2),
                None => None,
            },
        }
    } else {
        match sym_at(s, q) {
            Some((k, _l)) => Some(k),
            None => None,
        }
    }
}

/// The amount-first pattern at `p`, executably: tries the longest
/// digit/separator run first and shortens it until a symbol closes it.
fn match_b_exec(s: &Vec<char>, p: usize) -> (r: Option<(usize, usize, usize)>)
    requires
        p < s@.len(),
    ensures
        match r {
            Some((k, st, en)) => match_b(s@, p as int) == Some(
                ScanHit { sym: k as int, start: st as int, end: en as int },
            ) && st <= en <= s@.len(),
            None => match_b(s@, p as int) is None,
        },
{
    if !crate::identify::digit_at(s, p) {
        return None;
    }
    let run: usize = amt_from(s, p);
    let mut k: usize = run;
    while k > 0
        invariant
            s@.len() == s.len(),
            p < s@.len(),
            is_digit_c(s@[p as int]),
            run == leading_amt(s@.subrange(p as int, s@.len() as int)),
            p + run <= s@.len(),
            k <= run,
            match_b_from(s@, p as int, run as int) == match_b_from(s@, p as int, k as int),
        decreases k,
    {
        match closing_sym_exec(s, p + k) {
            Some(sy) => {
                return Some((sy, p, p + k));
            },
            None => {
            },
        }
        k = k - 1;
    }
    None
}

/// The leftmost hit of the whole pattern, executably.
fn scan_exec(s: &Vec<char>) -> (r: Option<(usize, usize, usize)>)
    ensures
        match r {
            Some((k, st, en)) => scan_from(s@, 0) == Some(
                ScanHit { sym: k as int, start: st as int, end: en as int },
            ) && st <= en <= s@.len(),
            None => scan_from(s@, 0) is None,
        },
{
    let n: usize = s.len();
    let mut p: usize = 0;
    while p < n
        invariant
            n == s@.len(),
            p <= n,
            scan_from(s@, 0) == scan_from(s@, p as int),
        decreases n - p,
    {
        match match_a_exec(s, p) {
            Some((k, st, en)) => {
                return Some((k, st, en));
            },
            None => {
            },
        }
        match match_b_exec(s, p) {
            Some((k, st, en)) => {
                return Some((k, st, en));
            },
            None => {
            },
        }
        p = p + 1;
    }
    None
}

/// A successful currency extraction: the ISO-style code, the canonical
/// sign of that currency, and the matched amount text.
#[derive(Debug, PartialEq, Eq)]
pub struct CurrencyMatch {
    pub code: String,
    pub symbol: char,
    pub amount: String,
}

/// The extraction result over the lowercased text: the leftmost
/// pattern hit whose symbol the code/sign table recognizes, with the
/// matched amount text.
pub open spec fn extract_spec(sl: Seq<char>) -> Option<(Seq<char>, char, Seq<char>)> {
    match scan_from(sl, 0) {
        None => None,
        Some(h) => match sym_code(h.sym) {
            None => None,
            Some((code, sy)) => Some((code, sy, sl.subrange(h.start, h.end))),
        },
    }
}

/// The code and sign of a recognized alternative, executably.
fn sym_code_exec(k: usize) -> (r: Option<(String, char)>)
    ensures
        match r {
            Some((code, sy)) => sym_code(k as int) == Some((code@, sy)),
            None => sym_code(k as int) is None,
        },
{
    if k == 0 {
        let v: Vec<char> = vec!['u', 's', 'd'];
        proof {
            assert(v@ =~= seq!['u', 's', 'd']);
        }
        Some((crate::text::chars_to_string(&v), '$'))
    } else if k == 1 {
        let v: Vec<char> = vec!['e', 'u', 'r'];
        proof {
            assert(v@ =~= seq!['e', 'u', 'r']);
        }
        Some((crate::text::chars_to_string(&v), '€'))
    } else if k == 2 {
        let v: Vec<char> = vec!['g', 'b', 'p'];
        proof {
            assert(v@ =~= seq!['g', 'b', 'p']);
        }
        Some((crate::text::chars_to_string(&v), '£'))
    } else if k == 3 {
        let v: Vec<char> = vec!['c', 'n', 'y'];
        proof {
            assert(v@ =~= seq!['c', 'n', 'y']);
        }
        Some((crate::text::chars_to_string(&v), '元'))
    } else if k == 4 {
        let v: Vec<char> = vec!['j', 'p', 'y'];
        proof {
            assert(v@ =~= seq!['j', 'p', 'y']);
        }
        Some((crate::text::chars_to_string(&v), '¥'))
    } else if k == 5 {
        let v: Vec<char> = vec!['t', 'r', 'y'];
        proof {
            assert(v@ =~= seq!['t', 'r', 'y']);
        }
        Some((crate::text::chars_to_string(&v), '₺'))
    } else if k == 7 {
        let v: Vec<char> = vec!['e', 'u', 'r'];
        proof {
            assert(v@ =~= seq!['e', 'u', 'r']);
        }
        Some((crate::text::chars_to_string(&v), '€'))
    } else if k == 8 {
        let v: Vec<char> = vec!['u', 's', 'd'];
        proof {
            assert(v@ =~= seq!['u', 's', 'd']);
        }
        Some((crate::text::chars_to_string(&v), '$'))
    } else if k == 9 {
        let v: Vec<char> = vec!['g', 'b', 'p'];
        proof {
            assert(v@ =~= seq!['g', 'b', 'p']);
        }
        Some((crate::text::chars_to_string(&v), '£'))
    } else if k == 10 {
        let v: Vec<char> = vec!['c', 'n', 'y'];
        proof {
            assert(v@ =~= seq!['c', 'n', 'y']);
        }
        Some((crate::text::chars_to_string(&v), '元'))
    } else if k == 12 {
        let v: Vec<char> = vec!['j', 'p', 'y'];
        proof {
            assert(v@ =~= seq!['j', 'p', 'y']);
        }
        Some((crate::text::chars_to_string(&v), '¥'))
    } else if k == 13 {
        let v: Vec<char> = vec!['t', 'r', 'y'];
        proof {
            assert(v@ =~= seq!['t', 'r', 'y']);
        }
        Some((crate::text::chars_to_string(&v), '₺'))
    } else {
        None
    }
}

/// Scans free text for a currency mention.
///
/// The text is ASCII-lowercased and searched for the leftmost
/// occurrence of `symbol [one space] amount` or `amount [one space]
/// symbol`, where a symbol is a three-letter code or a currency sign.
/// On a hit whose symbol the fixed code/sign table knows, the
/// ISO-style code, the sign and the amount text are returned. Fails
/// with `WatchIdError::Currency` exactly when the pattern never fires
/// or the matched alternative (`trl`, `块`) has no table entry, as
/// `extract_spec` states.
pub fn extract_currency(s: &str) -> (r: Result<CurrencyMatch, WatchIdError>)
    ensures
        match r {
            Ok(m) => extract_spec(ascii_lower(s@)) == Some((m.code@, m.symbol, m.amount@)),
            Err(e) => e == WatchIdError::Currency && extract_spec(ascii_lower(s@)) is None,
        },
{
    let cs: Vec<char> = str_to_chars(s);
    let low: Vec<char> = ascii_lower_exec(&cs);
    match scan_exec(&low) {
        None => Err(WatchIdError::Currency),
        Some((k, st, en)) => match sym_code_exec(k) {
            None => Err(WatchIdError::Currency),
            Some((code, sy)) => {
                let amt: Vec<char> = crate::text::sub_vec(&low, st, en);
                let amount: String = crate::text::chars_to_string(&amt);
                Ok(CurrencyMatch { code, symbol: sy, amount })
            },
        },
    }
}

/// The canonical sign for an ISO-style code, if the fixed table has it.
pub open spec fn currency_to_symbol_spec(s: Seq<char>) -> Option<char> {
    if s == seq!['u', 's', 'd'] {
        Some('$')
    } else if s == seq!['e', 'u', 'r'] {
        Some('€')
    } else if s == seq!['g', 'b', 'p'] {
        Some('£')
    } else if s == seq!['c', 'n', 'y'] {
        Some('元')
    } else if s == seq!['j', 'p', 'y'] {
        Some('¥')
    } else if s == seq!['t', 'r', 'y'] {
        Some('₺')
    } else {
        None
    }
}

/// Looks a lowercase ISO-style code up in the fixed code/sign table.
pub fn currency_to_symbol(s: &str) -> (r: Option<char>)
    ensures
        r == currency_to_symbol_spec(s@),
{
    let v: Vec<char> = str_to_chars(s);
    if v.len() != 3 {
        return None;
    }
    let a: char = v[0];
    let b: char = v[1];
    let c: char = v[2];
    proof {
        assert(v@ =~= seq![a, b, c]);
    }
    if a == 'u' && b == 's' && c == 'd' {
        Some('$')
    } else if a == 'e' && b == 'u' && c == 'r' {
        Some('€')
    } else if a == 'g' && b == 'b' && c == 'p' {
        Some('£')
    } else if a == 'c' && b == 'n' && c == 'y' {
        Some('元')
    } else if a == 'j' && b == 'p' && c == 'y' {
        Some('¥')
    } else if a == 't' && b == 'r' && c == 'y' {
        Some('₺')
    } else {
        None
    }
}

/// The ISO-style code of the first table sign that occurs anywhere in
/// the text, if any.
pub open spec fn symbol_to_currency_spec(s: Seq<char>) -> Option<Seq<char>> {
    if crate::identify::has_char(s, '$') {
        Some(seq!['u', 's', 'd'])
    } else if crate::identify::has_char(s, '€') {
        Some(seq!['e', 'u', 'r'])
    } else if crate::identify::has_char(s, '£') {
        Some(seq!['g', 'b', 'p'])
    } else if crate::identify::has_char(s, '元') {
        Some(seq!['c', 'n', 'y'])
    } else if crate::identify::has_char(s, '¥') {
        Some(seq!['j', 'p', 'y'])
    } else if crate::identify::has_char(s, '₺') {
        Some(seq!['t', 'r', 'y'])
    } else {
        None
    }
}

/// Finds the code of the first fixed-table sign contained in the text.
pub fn symbol_to_currency(s: &str) -> (r: Option<String>)
    ensures
        match r {
            Some(code) => symbol_to_currency_spec(s@) == Some(code@),
            None => symbol_to_currency_spec(s@) is None,
        },
{
    let v: Vec<char> = str_to_chars(s);
    if crate::identify::has_char_exec(&v, '$') {
        let code: Vec<char> = vec!['u', 's', 'd'];
        proof {
            assert(code@ =~= seq!['u', 's', 'd']);
        }
        Some(crate::text::chars_to_string(&code))
    } else if crate::identify::has_char_exec(&v, '€') {
        let code: Vec<char> = vec!['e', 'u', 'r'];
        proof {
            assert(code@ =~= seq!['e', 'u', 'r']);
        }
        Some(crate::text::chars_to_string(&code))
    } else if crate::identify::has_char_exec(&v, '£') {
        let code: Vec<char> = vec!['g', 'b', 'p'];
        proof {
            assert(code@ =~= seq!['g', 'b', 'p']);
        }
        Some(crate::text::chars_to_string(&code))
    } else if crate::identify::has_char_exec(&v, '元') {
        let code: Vec<char> = vec!['c', 'n', 'y'];
        proof {
            assert(code@ =~= seq!['c', 'n', 'y']);
        }
        Some(crate::text::chars_to_string(&code))
    } else if crate::identify::has_char_exec(&v, '¥') {
        let code: Vec<char> = vec!['j', 'p', 'y'];
        proof {
            assert(code@ =~= seq!['j', 'p', 'y']);
        }
        Some(crate::text::chars_to_string(&code))
    } else if crate::identify::has_char_exec(&v, '₺') {
        let code: Vec<char> = vec!['t', 'r', 'y'];
        proof {
            assert(code@ =~= seq!['t', 'r', 'y']);
        }
        Some(crate::text::chars_to_string(&code))
    } else {
        None
    }
}

/// Every character of the amount is a digit or a separator.
pub open spec fn all_amt(a: Seq<char>) -> bool {
    forall|i: int| 0 <= i < a.len() ==> is_amt_c(a[i])
}

/// Position of the last separator of the amount, if any.
pub open spec fn last_sep(a: Seq<char>) -> Option<int>
    decreases a.len(),
{
    if a.len() == 0 {
        None
    } else if is_sep_c(a.last()) {
        Some(a.len() - 1)
    } else {
        last_sep(a.drop_last())
    }
}

/// Where the fractional part of the amount begins: at the last
/// separator when it is followed by one or two digits, else the amount
/// is whole and the boundary is its end.
pub open spec fn frac_boundary(a: Seq<char>) -> int {
    match last_sep(a) {
        None => a.len() as int,
        Some(i) => if 1 <= a.len() - 1 - i <= 2 {
            i
        } else {
            a.len() as int
        },
    }
}

/// The decimal value of the digits of `s`, read in order; separators
/// are grouping marks and carry no value.
pub open spec fn digits_value(s: Seq<char>) -> int
    decreases s.len(),
{
    if s.len() == 0 {
        0
    } else {
        let v = digits_value(s.drop_last());
        if is_digit_c(s.last()) {
            v * 10 + (s.last() as int - 48)
        } else {
            v
        }
    }
}

/// The amount in cents: the whole part times one hundred, plus the
/// fractional part scaled to cents (one fractional digit counts
/// tenths).
pub open spec fn cents_value(a: Seq<char>) -> int {
    let b = frac_boundary(a);
    if b == a.len() {
        digits_value(a) * 100
    } else {
        let fl = a.len() - b - 1;
        digits_value(a.subrange(0, b)) * 100 + digits_value(a.subrange(b + 1, a.len() as int)) * (
        if fl == 1 {
            10int
        } else {
            1int
        })
    }
}

/// Parsing an amount text to cents: fails on an empty text, on any
/// character that is not a digit or separator, and on a value past the
/// 64-bit cent cap.
pub open spec fn parse_cents_spec(a: Seq<char>) -> Option<int> {
    if a.len() == 0 || !all_amt(a) {
        None
    } else if cents_value(a) > u64::MAX {
        None
    } else {
        Some(cents_value(a))
    }
}

/// A digit value is never negative.
pub proof fn lemma_digits_value_nonneg(s: Seq<char>)
    ensures
        digits_value(s) >= 0,
    decreases s.len(),
{
    if s.len() > 0 {
        lemma_digits_value_nonneg(s.drop_last());
    }
}

/// The value of a prefix never exceeds the value of the whole text.
pub proof fn lemma_digits_value_prefix(s: Seq<char>, i: int)
    requires
        0 <= i <= s.len(),
    ensures
        digits_value(s.subrange(0, i)) <= digits_value(s),
    decreases s.len() - i,
{
    if i == s.len() {
        assert(s.subrange(0, i) =~= s);
    } else {
        let u = s.subrange(0, i + 1);
        assert(u.drop_last() =~= s.subrange(0, i));
        lemma_digits_value_nonneg(s.subrange(0, i));
        lemma_digits_value_prefix(s, i + 1);
    }
}

/// Everything after the last separator is no separator; with no last
/// separator there is none at all.
pub proof fn lemma_last_sep_props(a: Seq<char>)
    ensures
        match last_sep(a) {
            Some(i) => 0 <= i < a.len() && is_sep_c(a[i]) && (forall|j: int|
                i < j < a.len() ==> !is_sep_c(a[j])),
            None => forall|j: int| 0 <= j < a.len() ==> !is_sep_c(a[j]),
        },
    decreases a.len(),
{
    if a.len() > 0 && !is_sep_c(a.last()) {
        lemma_last_sep_props(a.drop_last());
        assert(forall|j: int| 0 <= j < a.len() - 1 ==> a.drop_last()[j] == a[j]);
    }
}

/// Parses an amount text to cents, exactly as `parse_cents_spec` says.
fn parse_amount_cents(a: &Vec<char>) -> (r: Option<u64>)
    ensures
        match r {
            Some(v) => parse_cents_spec(a@) == Some(v as int),
            None => parse_cents_spec(a@) is None,
        },
{
    let n: usize = a.len();
    if n == 0 {
        return None;
    }
    let mut ls: Option<usize> = None;
    let mut i: usize = 0;
    proof {
        assert(a@.subrange(0, 0) =~= Seq::<char>::empty());
    }
    while i < n
        invariant
            n == a@.len(),
            i <= n,
            forall|k: int| 0 <= k < i ==> is_amt_c(a@[k]),
            last_sep(a@.subrange(0, i as int)) == (match ls {
                Some(si) => Some(si as int),
                None => None,
            }),
            ls matches Some(si) ==> si < i,
        decreases n - i,
    {
        let c: char = a[i];
        proof {
            let u = a@.subrange(0, i + 1);
            assert(u.drop_last() =~= a@.subrange(0, i as int));
            assert(u.last() == a@[i as int]);
        }
        if '0' <= c && c <= '9' {
        } else if c == '.' || c == ',' {
            ls = Some(i);
        } else {
            proof {
                assert(!is_amt_c(a@[i as int]));
            }
            return None;
        }
        i = i + 1;
    }
    proof {
        assert(a@.subrange(0, n as int) =~= a@);
        assert(all_amt(a@));
    }
    let b: usize = match ls {
        None => n,
        Some(si) => {
            if n - 1 - si >= 1 && n - 1 - si <= 2 {
                si
            } else {
                n
            }
        },
    };
    proof {
        assert(b as int == frac_boundary(a@));
        lemma_last_sep_props(a@);
    }
    let ghost w = a@.subrange(0, b as int);
    let mut acc: u64 = 0;
    let mut j: usize = 0;
    proof {
        assert(w.subrange(0, 0) =~= Seq::<char>::empty());
    }
    while j < b
        invariant
            n == a@.len(),
            b <= n,
            all_amt(a@),
            b as int == frac_boundary(a@),
            w == a@.subrange(0, b as int),
            j <= b,
            acc as int == digits_value(w.subrange(0, j as int)),
        decreases b - j,
    {
        let c: char = a[j];
        proof {
            let u = w.subrange(0, j + 1);
            assert(u.drop_last() =~= w.subrange(0, j as int));
            assert(u.last() == w[j as int]);
            assert(w[j as int] == a@[j as int]);
        }
        if '0' <= c && c <= '9' {
            let d: u64 = (c as u8 - 48) as u64;
            if acc > (u64::MAX - d) / 10 {
                proof {
                    assert(digits_value(w.subrange(0, j + 1)) > u64::MAX);
                    lemma_digits_value_prefix(w, j + 1);
                    assert(digits_value(w) > u64::MAX);
                    lemma_digits_value_nonneg(w);
                    if b < n {
                        lemma_digits_value_nonneg(a@.subrange(b + 1, n as int));
                        assert(cents_value(a@) > u64::MAX);
                    } else {
                        assert(w =~= a@);
                        assert(cents_value(a@) > u64::MAX);
                    }
                }
                return None;
            }
            acc = acc * 10 + d;
        }
        j = j + 1;
    }
    proof {
        assert(w.subrange(0, b as int) =~= w);
        assert(acc as int == digits_value(w));
    }
    let cents: u128 = if b == n {
        proof {
            assert(w =~= a@);
        }
        (acc as u128) * 100
    } else {
        let fl: usize = n - b - 1;
        let ghost fseq = a@.subrange(b + 1, n as int);
        proof {
            assert(forall|k: int| b < k < n ==> !is_sep_c(a@[k]));
            assert(forall|k: int| 0 <= k < fseq.len() ==> fseq[k] == a@[b + 1 + k]);
            assert(forall|k: int| 0 <= k < fseq.len() ==> is_digit_c(fseq[k]));
        }
        let fv: u64 = if fl == 1 {
            let c1: char = a[b + 1];
            proof {
                reveal_with_fuel(digits_value, 3);
                assert(fseq =~= seq![c1]);
                assert(fseq.drop_last() =~= Seq::<char>::empty());
                assert(is_digit_c(fseq[0]));
                assert(digits_value(fseq) == c1 as int - 48);
            }
            (c1 as u8 - 48) as u64
        } else {
            let c1: char = a[b + 1];
            let c2: char = a[b + 2];
            proof {
                reveal_with_fuel(digits_value, 4);
                assert(fseq =~= seq![c1, c2]);
                assert(fseq.drop_last() =~= seq![c1]);
                assert(fseq.drop_last().drop_last() =~= Seq::<char>::empty());
                assert(is_digit_c(fseq[0]) && is_digit_c(fseq[1]));
                assert(digits_value(fseq) == (c1 as int - 48) * 10 + (c2 as int - 48));
            }
            ((c1 as u8 - 48) as u64) * 10 + ((c2 as u8 - 48) as u64)
        };
        let mult: u128 = if fl == 1 {
            10
        } else {
            1
        };
        (acc as u128) * 100 + (fv as u128) * mult
    };
    proof {
        assert(cents as int == cents_value(a@));
    }
    if cents > 0xFFFF_FFFF_FFFF_FFFFu128 {
        return None;
    }
    Some(cents as u64)
}

/// One historical rate: the month's timestamp and the rate in
/// millionths (units of the currency per USD, times one million).
#[derive(Clone, Copy, Debug, PartialEq, Eq, Structural)]
pub struct RatePoint {
    pub timestamp: i64,
    pub rate_micro: u64,
}

/// The rate history of one currency code.
pub struct CurrencyRates {
    pub code: String,
    pub rates: Vec<RatePoint>,
}

/// The mathematical content of one currency's rate history.
pub ghost struct CurrencyRatesView {
    pub code: Seq<char>,
    pub rates: Seq<RatePoint>,
}

impl View for CurrencyRates {
    type V = CurrencyRatesView;

    open spec fn view(&self) -> CurrencyRatesView {
        CurrencyRatesView { code: self.code@, rates: self.rates@ }
    }
}

impl DeepView for CurrencyRates {
    type V = CurrencyRatesView;

    open spec fn deep_view(&self) -> CurrencyRatesView {
        self.view()
    }
}

/// The historical monthly rate table, one entry per currency code.
pub type CurrencyRateTable = Vec<CurrencyRates>;

/// Absolute distance between a query timestamp and a rate's timestamp.
pub open spec fn dist(ts: int, p: RatePoint) -> int {
    if ts >= p.timestamp {
        ts - p.timestamp
    } else {
        p.timestamp - ts
    }
}

/// Index of the first minimal-distance rate among the first `n`.
pub open spec fn nearest_in(rates: Seq<RatePoint>, ts: int, n: int) -> int
    decreases n,
{
    if n <= 1 {
        0
    } else {
        let b = nearest_in(rates, ts, n - 1);
        if dist(ts, rates[n - 1]) < dist(ts, rates[b]) {
            n - 1
        } else {
            b
        }
    }
}

/// Index of the first rate at minimal distance from the timestamp.
pub open spec fn nearest_idx(rates: Seq<RatePoint>, ts: int) -> int {
    nearest_in(rates, ts, rates.len() as int)
}

/// The selected rate lies within the prefix and at minimal distance.
pub proof fn lemma_nearest_min(rates: Seq<RatePoint>, ts: int, n: int)
    requires
        1 <= n <= rates.len(),
    ensures
        0 <= nearest_in(rates, ts, n) < n,
        forall|j: int| 0 <= j < n ==> dist(ts, rates[nearest_in(rates, ts, n)]) <= dist(
            ts,
            #[trigger] rates[j],
        ),
    decreases n,
{
    if n > 1 {
        lemma_nearest_min(rates, ts, n - 1);
    }
}

/// For a rate table holding an entry at the exact query timestamp, the
/// selected rate lies at distance zero: conversion at that timestamp
/// uses a rate of that very timestamp.
pub proof fn lemma_exact_timestamp_zero_distance(rates: Seq<RatePoint>, ts: int)
    requires
        exists|j: int| 0 <= j < rates.len() && rates[j].timestamp == ts,
    ensures
        dist(ts, rates[nearest_idx(rates, ts)]) == 0,
        rates[nearest_idx(rates, ts)].timestamp == ts,
{
    let j = choose|j: int| 0 <= j < rates.len() && rates[j].timestamp == ts;
    lemma_nearest_min(rates, ts, rates.len() as int);
    assert(dist(ts, rates[nearest_idx(rates, ts)]) <= dist(ts, rates[j]));
}

/// The first table entry with the given code, from `k` on.
pub open spec fn find_code_from(table: Seq<CurrencyRatesView>, code: Seq<char>, k: int) -> Option<
    int,
>
    decreases table.len() - k,
    when 0 <= k
{
    if k >= table.len() {
        None
    } else if table[k].code == code {
        Some(k)
    } else {
        find_code_from(table, code, k + 1)
    }
}

/// The first table entry with the given code, if any.
pub open spec fn find_code(table: Seq<CurrencyRatesView>, code: Seq<char>) -> Option<int> {
    find_code_from(table, code, 0)
}

/// The converted USD cents: the cent value divided by the rate (in
/// millionths), rounded half up.
pub open spec fn usd_from_cents(cents: int, rate_micro: int) -> int {
    (cents * 1000000 + rate_micro / 2) / rate_micro
}

/// The outcome of the whole conversion over the lowercased text:
/// extraction, cent parsing, rate lookup, nearest-rate selection, and
/// the rounded division, with the error each stage reports.
pub open spec fn usd_outcome(ts: int, sl: Seq<char>, table: Seq<CurrencyRatesView>) -> Result<
    int,
    WatchIdError,
> {
    match extract_spec(sl) {
        None => Err(WatchIdError::Currency),
        Some((code, sym, amt)) => match parse_cents_spec(amt) {
            None => Err(WatchIdError::Currency),
            Some(c) => match find_code(table, code) {
                None => Err(WatchIdError::ConversionRate),
                Some(i) => if table[i].rates.len() == 0 {
                    Err(WatchIdError::ConversionRate)
                } else {
                    let p = table[i].rates[nearest_idx(table[i].rates, ts)];
                    if p.rate_micro == 0 {
                        Err(WatchIdError::Currency)
                    } else {
                        let u = usd_from_cents(c, p.rate_micro as int);
                        if u > u32::MAX {
                            Err(WatchIdError::Currency)
                        } else {
                            Ok(u)
                        }
                    }
                },
            },
        },
    }
}

/// Distance between the query timestamp and a rate's timestamp.
fn dist_exec(ts: i64, p: RatePoint) -> (r: u128)
    ensures
        r as int == dist(ts as int, p),
{
    if ts >= p.timestamp {
        (ts as i128 - p.timestamp as i128) as u128
    } else {
        (p.timestamp as i128 - ts as i128) as u128
    }
}

/// The first table entry carrying the given code, executably.
fn find_code_exec(rates: &CurrencyRateTable, code: &String) -> (r: Option<usize>)
    ensures
        match r {
            Some(i) => find_code(rates.deep_view(), code@) == Some(i as int) && i < rates@.len(),
            None => find_code(rates.deep_view(), code@) is None,
        },
{
    let ghost tv = rates.deep_view();
    let mut i: usize = 0;
    while i < rates.len()
        invariant
            tv == rates.deep_view(),
            tv.len() == rates@.len(),
            i <= rates@.len(),
            find_code(tv, code@) == find_code_from(tv, code@, i as int),
        decreases rates@.len() - i,
    {
        proof {
            assert(tv[i as int] == rates@[i as int]@);
        }
        if rates[i].code.eq(code) {
            return Some(i);
        }
        i = i + 1;
    }
    None
}

/// Converts the first currency mention of the text to USD cents at the
/// rate nearest the given timestamp.
///
/// Fails with `WatchIdError::Currency` when no currency mention is
/// found, the amount does not parse, the selected rate is zero, or the
/// result does not fit unsigned 32-bit cents; and with
/// `WatchIdError::ConversionRate` when the table has no rates for the
/// extracted code — exactly as `usd_outcome` states.
pub fn extract_currency_to_usd(timestamp: i64, s: &str, rates: &CurrencyRateTable) -> (r: Result<
    u32,
    WatchIdError,
>)
    ensures
        match (r, usd_outcome(timestamp as int, ascii_lower(s@), rates.deep_view())) {
            (Ok(v), Ok(u)) => v as int == u,
            (Err(e1), Err(e2)) => e1 == e2,
            _ => false,
        },
{
    let ghost tv = rates.deep_view();
    let m: CurrencyMatch = match extract_currency(s) {
        Ok(m) => m,
        Err(e) => {
            return Err(e);
        },
    };
    let amt: Vec<char> = str_to_chars(m.amount.as_str());
    let cents: u64 = match parse_amount_cents(&amt) {
        Some(c) => c,
        None => {
            return Err(WatchIdError::Currency);
        },
    };
    let ci: usize = match find_code_exec(rates, &m.code) {
        Some(ci) => ci,
        None => {
            return Err(WatchIdError::ConversionRate);
        },
    };
    let rlist: &Vec<RatePoint> = &rates[ci].rates;
    proof {
        assert(rlist@ == tv[ci as int].rates);
    }
    if rlist.len() == 0 {
        return Err(WatchIdError::ConversionRate);
    }
    let mut bi: usize = 0;
    let mut bd: u128 = dist_exec(timestamp, rlist[0]);
    let mut k: usize = 1;
    while k < rlist.len()
        invariant
            1 <= k <= rlist@.len(),
            bi < k,
            bi as int == nearest_in(rlist@, timestamp as int, k as int),
            bd as int == dist(timestamp as int, rlist@[bi as int]),
        decreases rlist@.len() - k,
    {
        let d: u128 = dist_exec(timestamp, rlist[k]);
        if d < bd {
            bi = k;
            bd = d;
        }
        k = k + 1;
    }
    proof {
        assert(bi as int == nearest_idx(rlist@, timestamp as int));
    }
    let p: RatePoint = rlist[bi];
    if p.rate_micro == 0 {
        return Err(WatchIdError::Currency);
    }
    let num: u128 = (cents as u128) * 1000000 + (p.rate_micro as u128) / 2;
    let u: u128 = num / (p.rate_micro as u128);
    proof {
        assert(u as int == usd_from_cents(cents as int, p.rate_micro as int));
    }
    if u > 0xFFFF_FFFFu128 {
        return Err(WatchIdError::Currency);
    }
    Ok(u as u32)
}

} // verus!
