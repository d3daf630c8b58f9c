//! Heuristic identification of a watch brand and model number from the
//! cleaned tokens of a listing title.
//!
//! The model-number scan skips measurement-like and possessive tokens,
//! prefers tokens with at least four consecutive digits, and excludes
//! tokens that look like a calendar-year mention. The brand scan rates
//! every brand of a token table by how many listing tokens fall in the
//! brand's token set, compared as an exact fraction of the set's size.

use vstd::prelude::*;

use crate::error::WatchIdError;
use crate::text::str_to_chars;

verus! {

/// Lowest value the model-number heuristic treats as a calendar year.
pub const MIN_YEAR: usize = 1900;

/// Highest value the model-number heuristic treats as a calendar year:
/// one past the year this table generation was fixed at.
pub const MAX_YEAR: usize = 2027;

/// An ASCII lowercase letter.
pub open spec fn is_lower_c(c: char) -> bool {
    'a' <= c <= 'z'
}

/// An ASCII decimal digit.
pub open spec fn is_digit_c(c: char) -> bool {
    '0' <= c <= '9'
}

/// `c` occurs in `t`.
pub open spec fn has_char(t: Seq<char>, c: char) -> bool {
    exists|i: int| 0 <= i < t.len() && t[i] == c
}

/// The digit-friendly form of a token: every `.` replaced by `0`.
pub open spec fn rep0(t: Seq<char>) -> Seq<char> {
    Seq::new(t.len(), |i: int| if t[i] == '.' { '0' } else { t[i] })
}

/// Length of the maximal lowercase-letter prefix.
pub open spec fn leading_lower(t: Seq<char>) -> nat
    decreases t.len(),
{
    if t.len() == 0 || !is_lower_c(t[0]) {
        0
    } else {
        1 + leading_lower(t.drop_first())
    }
}

/// Length of the maximal lowercase-letter suffix.
pub open spec fn trailing_lower(t: Seq<char>) -> nat
    decreases t.len(),
{
    if t.len() == 0 || !is_lower_c(t.last()) {
        0
    } else {
        1 + trailing_lower(t.drop_last())
    }
}

/// The larger of the leading and trailing lowercase runs.
pub open spec fn alpha_run(t: Seq<char>) -> nat {
    if leading_lower(t) >= trailing_lower(t) {
        leading_lower(t)
    } else {
        trailing_lower(t)
    }
}

/// Length of the maximal digit prefix.
pub open spec fn leading_digits(t: Seq<char>) -> nat
    decreases t.len(),
{
    if t.len() == 0 || !is_digit_c(t[0]) {
        0
    } else {
        1 + leading_digits(t.drop_first())
    }
}

/// Position of the first digit, or the length when there is none.
pub open spec fn first_digit_pos(t: Seq<char>) -> nat
    decreases t.len(),
{
    if t.len() == 0 || is_digit_c(t[0]) {
        0
    } else {
        1 + first_digit_pos(t.drop_first())
    }
}

/// Length of the digit run starting at the first digit of the
/// digit-friendly form of the token.
pub open spec fn digit_run(t: Seq<char>) -> nat {
    let r = rep0(t);
    leading_digits(r.subrange(first_digit_pos(r) as int, r.len() as int))
}

/// Tokens the model-number scan never considers: millimetre sizes,
/// possessives, four-letter plurals, and tokens with `&` or `)`.
pub open spec fn skip_token(t: Seq<char>) -> bool {
    (t.len() >= 2 && t[t.len() - 2] == 'm' && t[t.len() - 1] == 'm') || (t.len() >= 2 && t[t.len()
        - 2] == '\'' && t[t.len() - 1] == 's') || (t.len() == 4 && t[t.len() - 1] == 's')
        || has_char(t, '&') || has_char(t, ')')
}

/// Numeric value of the first four characters of the digit-friendly
/// form, read as a decimal number.
pub open spec fn year_value(t: Seq<char>) -> int {
    let r = rep0(t);
    (r[0] as int - 48) * 1000 + (r[1] as int - 48) * 100 + (r[2] as int - 48) * 10 + (r[3] as int
        - 48)
}

/// The token reads as a plausible calendar-year mention: exactly four
/// leading digits in the digit-friendly form, a value inside the year
/// window, and no lowercase run on either side.
pub open spec fn is_year_token(t: Seq<char>) -> bool {
    digit_run(t) == 4 && rep0(t).len() >= 4 && (forall|i: int|
        0 <= i < 4 ==> is_digit_c(rep0(t)[i])) && MIN_YEAR as int <= year_value(t) <= MAX_YEAR as int
        && alpha_run(t) == 0
}

/// A token beats the current best when it is not skipped, carries at
/// least four consecutive digits, is no shorter and no less alphabetic
/// than the best so far, and is not a year mention.
pub open spec fn qualifies(t: Seq<char>, best_len: nat, best_alpha: nat) -> bool {
    !skip_token(t) && digit_run(t) >= 4 && t.len() >= best_len && alpha_run(t) >= best_alpha
        && !is_year_token(t)
}

/// One step of the model-number scan over `(best, best_len, best_alpha)`.
pub open spec fn model_step(st: (Option<Seq<char>>, nat, nat), t: Seq<char>) -> (
    Option<Seq<char>>,
    nat,
    nat,
) {
    if qualifies(t, st.1, st.2) {
        (Some(t), t.len(), alpha_run(t))
    } else {
        st
    }
}

/// The scan state after reading all tokens in order.
pub open spec fn model_state(toks: Seq<Seq<char>>) -> (Option<Seq<char>>, nat, nat)
    decreases toks.len(),
{
    if toks.len() == 0 {
        (None, 0, 0)
    } else {
        model_step(model_state(toks.drop_last()), toks.last())
    }
}

/// The model number chosen for the token sequence, if any.
pub open spec fn find_model_no_spec(toks: Seq<Seq<char>>) -> Option<Seq<char>> {
    model_state(toks).0
}

/// Whether `c` occurs in `t`.
pub(crate) fn has_char_exec(t: &Vec<char>, c: char) -> (r: bool)
    ensures
        r == has_char(t@, c),
{
    let mut i: usize = 0;
    while i < t.len()
        invariant
            i <= t@.len(),
            forall|k: int| 0 <= k < i ==> t@[k] != c,
        decreases t@.len() - i,
    {
        if t[i] == c {
            return true;
        }
        i = i + 1;
    }
    false
}

/// The digit-friendly form of the token.
fn rep0_exec(t: &Vec<char>) -> (r: Vec<char>)
    ensures
        r@ == rep0(t@),
{
    let mut r: Vec<char> = Vec::new();
    let mut i: usize = 0;
    while i < t.len()
        invariant
            i <= t@.len(),
            r@.len() == i,
            forall|k: int| 0 <= k < i ==> r@[k] == rep0(t@)[k],
        decreases t@.len() - i,
    {
        let c: char = t[i];
        if c == '.' {
            r.push('0');
        } else {
            r.push(c);
        }
        i = i + 1;
    }
    proof {
        assert(r@ =~= rep0(t@));
    }
    r
}

/// Whether the character at `j` is an ASCII lowercase letter.
fn lower_at(t: &Vec<char>, j: usize) -> (r: bool)
    requires
        j < t@.len(),
    ensures
        r == is_lower_c(t@[j as int]),
{
    let c: char = t[j];
    'a' <= c && c <= 'z'
}

/// Whether the character at `j` is an ASCII digit.
pub(crate) fn digit_at(t: &Vec<char>, j: usize) -> (r: bool)
    requires
        j < t@.len(),
    ensures
        r == is_digit_c(t@[j as int]),
{
    let c: char = t[j];
    '0' <= c && c <= '9'
}

/// Length of the maximal lowercase prefix.
fn leading_lower_exec(t: &Vec<char>) -> (r: usize)
    ensures
        r == leading_lower(t@),
{
    let n: usize = t.len();
    proof {
        assert(t@.subrange(0, n as int) =~= t@);
    }
    let mut i: usize = 0;
    while i < n && lower_at(t, i)
        invariant
            n == t@.len(),
            i <= n,
            leading_lower(t@) == i + leading_lower(t@.subrange(i as int, n as int)),
        decreases n - i,
    {
        proof {
            let u = t@.subrange(i as int, n as int);
            assert(u[0] == t@[i as int]);
            assert(u.drop_first() =~= t@.subrange(i + 1, n as int));
        }
        i = i + 1;
    }
    proof {
        let u = t@.subrange(i as int, n as int);
        if i < n {
            assert(u[0] == t@[i as int]);
        }
        assert(leading_lower(u) == 0);
    }
    i
}

/// Length of the maximal lowercase suffix.
fn trailing_lower_exec(t: &Vec<char>) -> (r: usize)
    ensures
        r == trailing_lower(t@),
{
    let n: usize = t.len();
    proof {
        assert(t@.subrange(0, n as int) =~= t@);
    }
    let mut j: usize = n;
    while j > 0 && lower_at(t, j - 1)
        invariant
            n == t@.len(),
            j <= n,
            trailing_lower(t@) == (n - j) + trailing_lower(t@.subrange(0, j as int)),
        decreases j,
    {
        proof {
            let u = t@.subrange(0, j as int);
            assert(u.last() == t@[j - 1]);
            assert(u.drop_last() =~= t@.subrange(0, j - 1));
        }
        j = j - 1;
    }
    proof {
        let u = t@.subrange(0, j as int);
        if j > 0 {
            assert(u.last() == t@[j - 1]);
        }
        assert(trailing_lower(u) == 0);
    }
    n - j
}

/// Position of the first digit of `t`, or its length when none.
fn first_digit_pos_exec(t: &Vec<char>) -> (r: usize)
    ensures
        r == first_digit_pos(t@),
        r <= t@.len(),
{
    let n: usize = t.len();
    proof {
        assert(t@.subrange(0, n as int) =~= t@);
    }
    let mut i: usize = 0;
    while i < n && !digit_at(t, i)
        invariant
            n == t@.len(),
            i <= n,
            first_digit_pos(t@) == i + first_digit_pos(t@.subrange(i as int, n as int)),
        decreases n - i,
    {
        proof {
            let u = t@.subrange(i as int, n as int);
            assert(u[0] == t@[i as int]);
            assert(u.drop_first() =~= t@.subrange(i + 1, n as int));
        }
        i = i + 1;
    }
    proof {
        let u = t@.subrange(i as int, n as int);
        if i < n {
            assert(u[0] == t@[i as int]);
        }
        assert(first_digit_pos(u) == 0);
    }
    i
}

/// Length of the digit run of `t` starting at position `from`.
pub(crate) fn leading_digits_from(t: &Vec<char>, from: usize) -> (r: usize)
    requires
        from <= t@.len(),
    ensures
        r == leading_digits(t@.subrange(from as int, t@.len() as int)),
        from + r <= t@.len(),
{
    let n: usize = t.len();
    let mut i: usize = from;
    while i < n && digit_at(t, i)
        invariant
            n == t@.len(),
            from <= i <= n,
            leading_digits(t@.subrange(from as int, n as int)) == (i - from) + leading_digits(
                t@.subrange(i as int, n as int),
            ),
        decreases n - i,
    {
        proof {
            let u = t@.subrange(i as int, n as int);
            assert(u[0] == t@[i as int]);
            assert(u.drop_first() =~= t@.subrange(i + 1, n as int));
        }
        i = i + 1;
    }
    proof {
        let u = t@.subrange(i as int, n as int);
        if i < n {
            assert(u[0] == t@[i as int]);
        }
        assert(leading_digits(u) == 0);
    }
    i - from
}

/// Finds the best model-number token of the listing, scanning in
/// order. Returns `Err(WatchIdError::ModelNo)` exactly when no token
/// qualifies as `find_model_no_spec` describes.
pub fn find_model_no(tokens: &Vec<String>) -> (r: Result<String, WatchIdError>)
    ensures
        match r {
            Ok(m) => find_model_no_spec(tokens.deep_view()) == Some(m@),
            Err(e) => e == WatchIdError::ModelNo && find_model_no_spec(tokens.deep_view()) is None,
        },
{
    let ghost toks = tokens.deep_view();
    let mut best: Option<usize> = None;
    let mut best_len: usize = 0;
    let mut best_alpha: usize = 0;
    let mut i: usize = 0;
    while i < tokens.len()
        invariant
            toks == tokens.deep_view(),
            toks.len() == tokens@.len(),
            i <= tokens@.len(),
            forall|k: int| 0 <= k < toks.len() ==> toks[k] == tokens@[k]@,
            model_state(toks.subrange(0, i as int)) == (
                match best {
                    Some(j) => Some(toks[j as int]),
                    None => None,
                },
                best_len as nat,
                best_alpha as nat,
            ),
            best matches Some(j) ==> j < i,
        decreases tokens@.len() - i,
    {
        let t: Vec<char> = str_to_chars(tokens[i].as_str());
        proof {
            assert(t@ == toks[i as int]);
            let pre = toks.subrange(0, i + 1);
            assert(pre.drop_last() =~= toks.subrange(0, i as int));
            assert(pre.last() == toks[i as int]);
        }
        let n: usize = t.len();
        let skip: bool = (n >= 2 && {
            let a: char = t[n - 2];
            let b: char = t[n - 1];
            (a == 'm' && b == 'm') || (a == '\'' && b == 's')
        }) || (n == 4 && t[n - 1] == 's') || has_char_exec(&t, '&') || has_char_exec(&t, ')');
        proof {
            assert(skip == skip_token(t@));
        }
        if !skip {
            let r0: Vec<char> = rep0_exec(&t);
            let pos: usize = first_digit_pos_exec(&r0);
            let run: usize = leading_digits_from(&r0, pos);
            proof {
                assert(run == digit_run(t@));
            }
            if run >= 4 {
                let ll: usize = leading_lower_exec(&t);
                let tl: usize = trailing_lower_exec(&t);
                let alpha: usize = if ll >= tl {
                    ll
                } else {
                    tl
                };
                proof {
                    assert(alpha == alpha_run(t@));
                }
                if n >= best_len && alpha >= best_alpha {
                    let mut year: bool = false;
                    if run == 4 && alpha == 0 && r0.len() >= 4 && digit_at(&r0, 0) && digit_at(
                        &r0,
                        1,
                    ) && digit_at(&r0, 2) && digit_at(&r0, 3) {
                        let v: u32 = (r0[0] as u32 - 48) * 1000 + (r0[1] as u32 - 48) * 100 + (
                        r0[2] as u32 - 48) * 10 + (r0[3] as u32 - 48);
                        year = (v as usize) >= MIN_YEAR && (v as usize) <= MAX_YEAR;
                        proof {
                            assert(v as int == year_value(t@));
                        }
                    }
                    proof {
                        assert(year == is_year_token(t@));
                    }
                    if !year {
                        best = Some(i);
                        best_len = n;
                        best_alpha = alpha;
                        proof {
                            assert(qualifies(t@, model_state(toks.subrange(0, i as int)).1,
                                model_state(toks.subrange(0, i as int)).2));
                        }
                    } else {
                        proof {
                            assert(!qualifies(t@, best_len as nat, best_alpha as nat));
                        }
                    }
                } else {
                    proof {
                        assert(!qualifies(t@, best_len as nat, best_alpha as nat));
                    }
                }
            } else {
                proof {
                    assert(!qualifies(t@, best_len as nat, best_alpha as nat));
                }
            }
        } else {
            proof {
                assert(!qualifies(t@, best_len as nat, best_alpha as nat));
            }
        }
        i = i + 1;
    }
    proof {
        assert(toks.subrange(0, toks.len() as int) =~= toks);
    }
    match best {
        Some(j) => Ok(tokens[j].clone()),
        None => Err(WatchIdError::ModelNo),
    }
}

/// One brand of the table: its display name and its token set.
pub struct BrandEntry {
    pub name: String,
    pub tokens: Vec<String>,
}

/// The mathematical content of one brand entry.
pub ghost struct BrandEntryView {
    pub name: Seq<char>,
    pub tokens: Seq<Seq<char>>,
}

impl View for BrandEntry {
    type V = BrandEntryView;

    open spec fn view(&self) -> BrandEntryView {
        BrandEntryView { name: self.name@, tokens: self.tokens.deep_view() }
    }
}

impl DeepView for BrandEntry {
    type V = BrandEntryView;

    open spec fn deep_view(&self) -> BrandEntryView {
        self.view()
    }
}

/// The static brand table: brand display names, each with the token
/// vocabulary that identifies it.
pub type BrandTable = Vec<BrandEntry>;

/// `tok` is one of the tokens of `set`.
pub open spec fn in_set(tok: Seq<char>, set: Seq<Seq<char>>) -> bool {
    exists|j: int| 0 <= j < set.len() && set[j] == tok
}

/// How many listing tokens fall in the brand's token set; a listing
/// token that repeats is counted each time.
pub open spec fn count_matches(toks: Seq<Seq<char>>, set: Seq<Seq<char>>) -> nat
    decreases toks.len(),
{
    if toks.len() == 0 {
        0
    } else {
        count_matches(toks.drop_last(), set) + (if in_set(toks.last(), set) {
            1nat
        } else {
            0nat
        })
    }
}

/// The match fraction of a candidate, capped at one, as a numerator
/// over the size of the brand's token set.
pub open spec fn capped(num: nat, den: nat) -> nat {
    if num <= den {
        num
    } else {
        den
    }
}

/// The brand-scan state: best index, its match count, and its capped
/// match fraction as numerator and denominator.
pub ghost struct BrandBest {
    pub best: Option<int>,
    pub count: nat,
    pub pn: nat,
    pub pd: nat,
}

/// One step of the brand scan: a candidate replaces the best only if
/// its match count is at least the best count and its capped match
/// fraction is strictly greater, compared exactly as rationals.
pub open spec fn brand_step(st: BrandBest, toks: Seq<Seq<char>>, e: BrandEntryView, i: int) -> BrandBest {
    let num = count_matches(toks, e.tokens);
    let den = e.tokens.len();
    if num >= st.count && capped(num, den) * st.pd > st.pn * den {
        BrandBest { best: Some(i), count: num, pn: capped(num, den), pd: den }
    } else {
        st
    }
}

/// The brand-scan state after reading the first `n` table entries.
pub open spec fn brand_state(table: Seq<BrandEntryView>, toks: Seq<Seq<char>>, n: int) -> BrandBest
    decreases n,
{
    if n <= 0 {
        BrandBest { best: None, count: 0, pn: 0, pd: 1 }
    } else {
        brand_step(brand_state(table, toks, n - 1), toks, table[n - 1], n - 1)
    }
}

/// The table index of the brand chosen for the token sequence, if any.
pub open spec fn find_brand_spec(table: Seq<BrandEntryView>, toks: Seq<Seq<char>>) -> Option<int> {
    brand_state(table, toks, table.len() as int).best
}

/// How many listing tokens equal one of the brand's tokens.
fn count_matches_exec(tokens: &Vec<String>, set: &Vec<String>) -> (r: usize)
    ensures
        r == count_matches(tokens.deep_view(), set.deep_view()),
{
    let ghost toks = tokens.deep_view();
    let ghost sv = set.deep_view();
    proof {
        assert(toks.subrange(0, 0) =~= Seq::<Seq<char>>::empty());
    }
    let mut r: usize = 0;
    let mut i: usize = 0;
    while i < tokens.len()
        invariant
            toks == tokens.deep_view(),
            sv == set.deep_view(),
            toks.len() == tokens@.len(),
            sv.len() == set@.len(),
            i <= tokens@.len(),
            r <= i,
            r == count_matches(toks.subrange(0, i as int), sv),
        decreases tokens@.len() - i,
    {
        let mut found: bool = false;
        let mut j: usize = 0;
        while j < set.len()
            invariant
                toks == tokens.deep_view(),
                sv == set.deep_view(),
                toks.len() == tokens@.len(),
                sv.len() == set@.len(),
                i < tokens@.len(),
                j <= set@.len(),
                found ==> in_set(toks[i as int], sv),
                !found ==> forall|k: int| 0 <= k < j ==> sv[k] != toks[i as int],
            decreases set@.len() - j,
        {
            if !found {
                proof {
                    assert(toks[i as int] == tokens@[i as int]@);
                    assert(sv[j as int] == set@[j as int]@);
                }
                if tokens[i].eq(&set[j]) {
                    found = true;
                }
            }
            j = j + 1;
        }
        proof {
            let pre = toks.subrange(0, i + 1);
            assert(pre.drop_last() =~= toks.subrange(0, i as int));
            assert(pre.last() == toks[i as int]);
            assert(found == in_set(toks[i as int], sv));
        }
        if found {
            r = r + 1;
        }
        i = i + 1;
    }
    proof {
        assert(toks.subrange(0, toks.len() as int) =~= toks);
    }
    r
}

/// Finds the brand whose token set best matches the listing tokens.
///
/// A brand replaces the current best only when its match count is at
/// least the best count and its match fraction (match count over the
/// size of its token set, capped at one) is strictly greater, so among
/// equal fractions the earliest table entry wins, and a brand with no
/// matching token is never chosen. Returns `Err(WatchIdError::Brand)`
/// exactly when no brand registers a match.
pub fn find_brand(tokens: &Vec<String>, table: &BrandTable) -> (r: Result<String, WatchIdError>)
    ensures
        match r {
            Ok(name) => {
                &&& find_brand_spec(table.deep_view(), tokens.deep_view()) is Some
                &&& name@ == table.deep_view()[find_brand_spec(
                    table.deep_view(),
                    tokens.deep_view(),
                ).unwrap()].name
            },
            Err(e) => {
                &&& e == WatchIdError::Brand
                &&& find_brand_spec(table.deep_view(), tokens.deep_view()) is None
            },
        },
{
    let ghost tv = table.deep_view();
    let ghost toks = tokens.deep_view();
    let mut best: Option<usize> = None;
    let mut best_count: usize = 0;
    let mut best_pn: usize = 0;
    let mut best_pd: usize = 1;
    let mut i: usize = 0;
    while i < table.len()
        invariant
            tv == table.deep_view(),
            toks == tokens.deep_view(),
            tv.len() == table@.len(),
            i <= table@.len(),
            brand_state(tv, toks, i as int) == (BrandBest {
                best: match best {
                    Some(j) => Some(j as int),
                    None => None,
                },
                count: best_count as nat,
                pn: best_pn as nat,
                pd: best_pd as nat,
            }),
            best matches Some(j) ==> j < i,
        decreases table@.len() - i,
    {
        let entry: &BrandEntry = &table[i];
        proof {
            assert(tv[i as int] == entry@);
        }
        let num: usize = count_matches_exec(tokens, &entry.tokens);
        let den: usize = entry.tokens.len();
        let pn: usize = if num <= den {
            num
        } else {
            den
        };
        proof {
            assert(pn == capped(
                count_matches(toks, entry@.tokens),
                entry@.tokens.len(),
            ));
        }
        proof {
            let m: u128 = 0xFFFF_FFFF_FFFF_FFFFu128;
            assert(pn as u128 <= m && best_pd as u128 <= m && best_pn as u128 <= m && den as u128
                <= m);
            assert((pn as u128) * (best_pd as u128) <= m * m && (best_pn as u128) * (den as u128)
                <= m * m) by (nonlinear_arith)
                requires
                    pn as u128 <= m,
                    best_pd as u128 <= m,
                    best_pn as u128 <= m,
                    den as u128 <= m,
            ;
        }
        if num >= best_count && (pn as u128) * (best_pd as u128) > (best_pn as u128) * (
        den as u128) {
            best = Some(i);
            best_count = num;
            best_pn = pn;
            best_pd = den;
        }
        i = i + 1;
    }
    proof {
        assert(tv.len() == table.deep_view().len());
    }
    match best {
        Some(j) => Ok(table[j].name.clone()),
        None => Err(WatchIdError::Brand),
    }
}

} // verus!
