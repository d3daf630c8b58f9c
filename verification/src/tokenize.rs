//! Normalizes and splits raw listing text into cleaned word tokens.
//!
//! The pipeline lowercases the input, applies canonical (NFD)
//! decomposition, drops every non-ASCII character, splits on
//! whitespace, discards the literal token `&`, and strips marker
//! prefixes and trailing punctuation from each candidate word.
//! Trailing-punctuation stripping removes two characters per strip
//! while the token stays longer than two characters; that heuristic
//! is deliberate and pinned down by the tests.

use vstd::prelude::*;

use unicode_normalization::UnicodeNormalization;

use crate::currency::ascii_lower;
use crate::text::{chars_to_string, sub_vec};

verus! {

/// What `str::to_lowercase` returns: a function of the characters alone.
pub uninterp spec fn lower_of(s: Seq<char>) -> Seq<char>;

/// What canonical (NFD) decomposition returns: a function of the
/// characters alone.
pub uninterp spec fn nfd_of(s: Seq<char>) -> Seq<char>;

/// An ASCII uppercase letter.
pub open spec fn is_upper_c(c: char) -> bool {
    'A' <= c <= 'Z'
}

/// No character of the text is an ASCII uppercase letter.
pub open spec fn no_upper(s: Seq<char>) -> bool {
    forall|k: int| 0 <= k < s.len() ==> !is_upper_c(#[trigger] s[k])
}

/// No token holds an ASCII uppercase letter.
pub open spec fn tokens_no_upper(ts: Seq<Seq<char>>) -> bool {
    forall|i: int| 0 <= i < ts.len() ==> no_upper(#[trigger] ts[i])
}

/// Every character of the text is ASCII.
pub open spec fn all_ascii(s: Seq<char>) -> bool {
    forall|k: int| 0 <= k < s.len() ==> is_ascii_c(#[trigger] s[k])
}

/// Relies on `str::to_lowercase`: the result depends only on the
/// characters of the input, an empty input stays empty, and no
/// lowercase mapping yields an ASCII uppercase letter. On ASCII text
/// the Unicode mapping is exactly the ASCII one — `A`–`Z` shift to
/// `a`–`z` and every other ASCII character is caseless — so the
/// result is the ASCII lowercasing and stays ASCII.
#[verifier::external_body]
pub fn lowercase(s: &str) -> (r: String)
    ensures
        r@ == lower_of(s@),
        s@.len() == 0 ==> r@.len() == 0,
        no_upper(r@),
        all_ascii(s@) ==> r@ == ascii_lower(s@) && all_ascii(r@),
{
    s.to_lowercase()
}

/// Relies on `unicode_normalization`'s `nfd`: canonical decomposition
/// depends only on the characters of the input, and an empty input
/// stays empty. Seven-bit ASCII never decomposes and carries combining
/// class zero, so ASCII text passes through unchanged.
#[verifier::external_body]
pub fn decompose_canonical(s: &str) -> (r: Vec<char>)
    ensures
        r@ == nfd_of(s@),
        s@.len() == 0 ==> r@.len() == 0,
        all_ascii(s@) ==> r@ == s@,
{
    s.chars().nfd().collect()
}

/// An ASCII character.
pub open spec fn is_ascii_c(c: char) -> bool {
    c <= '\u{7f}'
}

/// The subsequence of ASCII characters of `s`, in order.
pub open spec fn keep_ascii(s: Seq<char>) -> Seq<char>
    decreases s.len(),
{
    if s.len() == 0 {
        Seq::empty()
    } else if is_ascii_c(s.last()) {
        keep_ascii(s.drop_last()).push(s.last())
    } else {
        keep_ascii(s.drop_last())
    }
}

/// ASCII whitespace, the whitespace that can survive the ASCII filter.
pub open spec fn is_space_c(c: char) -> bool {
    c == ' ' || c == '\t' || c == '\n' || c == '\r' || c == '\u{b}' || c == '\u{c}'
}

/// Length of the maximal non-whitespace prefix of `s`.
pub open spec fn word_len(s: Seq<char>) -> nat
    decreases s.len(),
{
    if s.len() == 0 || is_space_c(s[0]) {
        0
    } else {
        1 + word_len(s.drop_first())
    }
}

/// The maximal non-whitespace prefix is never longer than the text.
pub proof fn lemma_word_len_le(s: Seq<char>)
    ensures
        word_len(s) <= s.len(),
    decreases s.len(),
{
    if s.len() == 0 || is_space_c(s[0]) {
    } else {
        lemma_word_len_le(s.drop_first());
    }
}

/// The maximal non-whitespace runs of `s`, in order.
pub open spec fn split_ws(s: Seq<char>) -> Seq<Seq<char>>
    decreases s.len(),
    via split_ws_dec
{
    if s.len() == 0 {
        Seq::empty()
    } else if is_space_c(s[0]) {
        split_ws(s.drop_first())
    } else {
        seq![s.subrange(0, word_len(s) as int)] + split_ws(
            s.subrange(word_len(s) as int, s.len() as int),
        )
    }
}

#[via_fn]
proof fn split_ws_dec(s: Seq<char>) {
    if s.len() > 0 && !is_space_c(s[0]) {
        lemma_word_len_le(s);
        assert(word_len(s) >= 1);
    }
}

/// Punctuation that is stripped from the end of a candidate word.
pub open spec fn is_trail_punct(c: char) -> bool {
    c == ')' || c == '-' || c == ',' || c == '.'
}

/// While the word stays longer than two characters and ends in
/// stripped punctuation, remove its last two characters.
pub open spec fn strip_trailing(w: Seq<char>) -> Seq<char>
    decreases w.len(),
{
    if w.len() > 2 && is_trail_punct(w.last()) {
        strip_trailing(w.subrange(0, w.len() - 2))
    } else {
        w
    }
}

/// The word begins with the marker `fsot`.
pub open spec fn starts_fsot(w: Seq<char>) -> bool {
    w.len() >= 4 && w[0] == 'f' && w[1] == 's' && w[2] == 'o' && w[3] == 't'
}

/// Cleans one candidate word: words longer than two characters lose a
/// leading `fsot` marker, then a single leading `(` or `-`, then
/// trailing punctuation as `strip_trailing` describes.
pub open spec fn strip_word(w: Seq<char>) -> Seq<char> {
    if w.len() > 2 {
        let w1 = if starts_fsot(w) {
            w.subrange(4, w.len() as int)
        } else {
            w
        };
        let w2 = if w1.len() > 0 && (w1[0] == '(' || w1[0] == '-') {
            w1.drop_first()
        } else {
            w1
        };
        strip_trailing(w2)
    } else {
        w
    }
}

/// Drops each word equal to `&` and cleans the rest, keeping order.
pub open spec fn clean_words(ws: Seq<Seq<char>>) -> Seq<Seq<char>>
    decreases ws.len(),
{
    if ws.len() == 0 {
        Seq::empty()
    } else {
        let rest = clean_words(ws.drop_last());
        if ws.last() == seq!['&'] {
            rest
        } else {
            rest.push(strip_word(ws.last()))
        }
    }
}

/// The tokens of a raw listing text: lowercase, canonically decompose,
/// keep ASCII, split on whitespace, drop `&`, and clean each word.
pub open spec fn tokenize_spec(s: Seq<char>) -> Seq<Seq<char>> {
    clean_words(split_ws(keep_ascii(nfd_of(lower_of(s)))))
}

/// Whether the character at `j` is not whitespace.
fn not_space_at(s: &Vec<char>, j: usize) -> (r: bool)
    requires
        j < s@.len(),
    ensures
        r == !is_space_c(s@[j as int]),
{
    let c: char = s[j];
    !(c == ' ' || c == '\t' || c == '\n' || c == '\r' || c == '\u{b}' || c == '\u{c}')
}

/// Whether the character at `idx` is stripped trailing punctuation.
fn trail_punct_at(w: &Vec<char>, idx: usize) -> (r: bool)
    requires
        idx < w@.len(),
    ensures
        r == is_trail_punct(w@[idx as int]),
{
    let c: char = w[idx];
    c == ')' || c == '-' || c == ',' || c == '.'
}

/// Keeps the ASCII characters of `v`, in order.
fn filter_ascii(v: &Vec<char>) -> (r: Vec<char>)
    ensures
        r@ == keep_ascii(v@),
{
    let mut r: Vec<char> = Vec::new();
    let mut i: usize = 0;
    while i < v.len()
        invariant
            i <= v@.len(),
            r@ == keep_ascii(v@.subrange(0, i as int)),
        decreases v@.len() - i,
    {
        let c: char = v[i];
        proof {
            let pre = v@.subrange(0, i + 1);
            assert(pre.drop_last() =~= v@.subrange(0, i as int));
            assert(pre.last() == c);
        }
        if c <= '\u{7f}' {
            r.push(c);
        }
        i = i + 1;
    }
    proof {
        assert(v@.subrange(0, v@.len() as int) =~= v@);
    }
    r
}

/// Splits `s` into its maximal non-whitespace runs.
fn split_whitespace_chars(s: &Vec<char>) -> (r: Vec<Vec<char>>)
    ensures
        r.deep_view() == split_ws(s@),
{
    let n: usize = s.len();
    let mut r: Vec<Vec<char>> = Vec::new();
    proof {
        assert(s@.subrange(0, n as int) =~= s@);
        assert(r.deep_view() =~~= Seq::<Seq<char>>::empty());
        assert(r.deep_view() + split_ws(s@) =~~= split_ws(s@));
    }
    let mut i: usize = 0;
    while i < n
        invariant
            n == s@.len(),
            i <= n,
            split_ws(s@) == r.deep_view() + split_ws(s@.subrange(i as int, n as int)),
        decreases n - i,
    {
        let c: char = s[i];
        if c == ' ' || c == '\t' || c == '\n' || c == '\r' || c == '\u{b}' || c == '\u{c}' {
            proof {
                let t = s@.subrange(i as int, n as int);
                assert(is_space_c(t[0]));
                assert(t.drop_first() =~= s@.subrange(i + 1, n as int));
            }
            i = i + 1;
        } else {
            let mut j: usize = i;
            while j < n && not_space_at(s, j)
                invariant
                    n == s@.len(),
                    i <= j <= n,
                    !is_space_c(s@[i as int]),
                    word_len(s@.subrange(i as int, n as int)) == (j - i) + word_len(
                        s@.subrange(j as int, n as int),
                    ),
                decreases n - j,
            {
                proof {
                    let t = s@.subrange(j as int, n as int);
                    assert(t[0] == s@[j as int]);
                    assert(t.drop_first() =~= s@.subrange(j + 1, n as int));
                    assert(word_len(t) == 1 + word_len(s@.subrange(j + 1, n as int)));
                }
                j = j + 1;
            }
            proof {
                let t = s@.subrange(j as int, n as int);
                if j < n {
                    assert(is_space_c(s@[j as int]));
                    assert(t[0] == s@[j as int]);
                    assert(word_len(t) == 0);
                } else {
                    assert(t.len() == 0);
                    assert(word_len(t) == 0);
                }
                let u = s@.subrange(i as int, n as int);
                assert(word_len(u) == j - i);
                assert(split_ws(u) == seq![u.subrange(0, (j - i) as int)] + split_ws(
                    u.subrange((j - i) as int, u.len() as int),
                ));
                assert(u.subrange(0, (j - i) as int) =~= s@.subrange(i as int, j as int));
                assert(u.subrange((j - i) as int, u.len() as int) =~= s@.subrange(
                    j as int,
                    n as int,
                ));
            }
            let w: Vec<char> = sub_vec(s, i, j);
            let ghost old_r = r.deep_view();
            r.push(w);
            proof {
                assert(r.deep_view() =~~= old_r.push(w@));
                assert(old_r.push(w@) =~~= old_r + seq![s@.subrange(i as int, j as int)]);
                assert(r.deep_view() + split_ws(s@.subrange(j as int, n as int)) =~~= old_r
                    + split_ws(s@.subrange(i as int, n as int)));
            }
            i = j;
        }
    }
    proof {
        assert(s@.subrange(n as int, n as int).len() == 0);
        assert(split_ws(s@) =~~= r.deep_view());
    }
    r
}

/// Cleans one candidate word as `strip_word` describes.
fn strip_word_exec(w: &Vec<char>) -> (r: Vec<char>)
    ensures
        r@ == strip_word(w@),
{
    let len: usize = w.len();
    if len <= 2 {
        proof {
            assert(w@.subrange(0, len as int) =~= w@);
        }
        return sub_vec(w, 0, len);
    }
    let mut a: usize = 0;
    let mut b: usize = len;
    if len >= 4 && w[0] == 'f' && w[1] == 's' && w[2] == 'o' && w[3] == 't' {
        a = 4;
    }
    proof {
        let w1 = if starts_fsot(w@) {
            w@.subrange(4, w@.len() as int)
        } else {
            w@
        };
        assert(w1 =~= w@.subrange(a as int, b as int));
    }
    if a < b && (w[a] == '(' || w[a] == '-') {
        proof {
            assert(w@.subrange(a as int, b as int).drop_first() =~= w@.subrange(
                a + 1,
                b as int,
            ));
        }
        a = a + 1;
    }
    proof {
        let w1 = if starts_fsot(w@) {
            w@.subrange(4, w@.len() as int)
        } else {
            w@
        };
        let w2 = if w1.len() > 0 && (w1[0] == '(' || w1[0] == '-') {
            w1.drop_first()
        } else {
            w1
        };
        assert(w2 =~= w@.subrange(a as int, b as int));
        assert(strip_word(w@) == strip_trailing(w@.subrange(a as int, b as int)));
    }
    while b - a > 2 && trail_punct_at(w, b - 1)
        invariant
            a <= b <= w@.len(),
            strip_word(w@) == strip_trailing(w@.subrange(a as int, b as int)),
        decreases b,
    {
        proof {
            let t = w@.subrange(a as int, b as int);
            assert(t.last() == w@[b - 1]);
            assert(t.subrange(0, t.len() - 2) =~= w@.subrange(a as int, b - 2));
        }
        b = b - 2;
    }
    proof {
        let t = w@.subrange(a as int, b as int);
        if t.len() > 2 {
            assert(t.last() == w@[b - 1]);
        }
        assert(!(t.len() > 2 && is_trail_punct(t.last())));
        assert(strip_trailing(t) == t);
    }
    sub_vec(w, a, b)
}

/// Keeping the ASCII characters cannot introduce a capital.
proof fn lemma_keep_ascii_no_upper(x: Seq<char>)
    requires
        no_upper(x),
    ensures
        no_upper(keep_ascii(x)),
    decreases x.len(),
{
    if x.len() > 0 {
        assert(no_upper(x.drop_last())) by {
            assert(forall|k: int| 0 <= k < x.len() - 1 ==> #[trigger] x.drop_last()[k] == x[k]);
        }
        lemma_keep_ascii_no_upper(x.drop_last());
        if is_ascii_c(x.last()) {
            let r = keep_ascii(x.drop_last());
            assert forall|k: int| 0 <= k < r.push(x.last()).len() implies !is_upper_c(
                #[trigger] r.push(x.last())[k],
            ) by {
                if k < r.len() {
                    assert(r.push(x.last())[k] == r[k]);
                } else {
                    assert(r.push(x.last())[k] == x.last());
                }
            }
        }
    }
}

/// Splitting on whitespace cannot introduce a capital in any word.
proof fn lemma_split_ws_no_upper(y: Seq<char>)
    requires
        no_upper(y),
    ensures
        tokens_no_upper(split_ws(y)),
    decreases y.len(),
{
    if y.len() == 0 {
    } else if is_space_c(y[0]) {
        assert(no_upper(y.drop_first())) by {
            assert(forall|k: int| 0 <= k < y.len() - 1 ==> #[trigger] y.drop_first()[k] == y[k + 1]);
        }
        lemma_split_ws_no_upper(y.drop_first());
    } else {
        lemma_word_len_le(y);
        let wl = word_len(y) as int;
        let w = y.subrange(0, wl);
        let suffix = y.subrange(wl, y.len() as int);
        assert(no_upper(w)) by {
            assert(forall|k: int| 0 <= k < wl ==> #[trigger] w[k] == y[k]);
        }
        assert(no_upper(suffix)) by {
            assert(forall|k: int|
                0 <= k < y.len() - wl ==> #[trigger] suffix[k] == y[k + wl]);
        }
        lemma_split_ws_no_upper(suffix);
        let whole = seq![w] + split_ws(suffix);
        assert forall|i: int| 0 <= i < whole.len() implies no_upper(#[trigger] whole[i]) by {
            if i == 0 {
                assert(whole[0] == w);
            } else {
                assert(whole[i] == split_ws(suffix)[i - 1]);
            }
        }
    }
}

/// Trailing-punctuation stripping cannot introduce a capital.
proof fn lemma_strip_trailing_no_upper(w: Seq<char>)
    requires
        no_upper(w),
    ensures
        no_upper(strip_trailing(w)),
    decreases w.len(),
{
    if w.len() > 2 && is_trail_punct(w.last()) {
        let u = w.subrange(0, w.len() - 2);
        assert(no_upper(u)) by {
            assert(forall|k: int| 0 <= k < w.len() - 2 ==> #[trigger] u[k] == w[k]);
        }
        lemma_strip_trailing_no_upper(u);
    }
}

/// Cleaning a word cannot introduce a capital.
proof fn lemma_strip_word_no_upper(w: Seq<char>)
    requires
        no_upper(w),
    ensures
        no_upper(strip_word(w)),
{
    if w.len() > 2 {
        let w1 = if starts_fsot(w) {
            w.subrange(4, w.len() as int)
        } else {
            w
        };
        assert(no_upper(w1)) by {
            if starts_fsot(w) {
                assert(forall|k: int| 0 <= k < w.len() - 4 ==> #[trigger] w1[k] == w[k + 4]);
            }
        }
        let w2 = if w1.len() > 0 && (w1[0] == '(' || w1[0] == '-') {
            w1.drop_first()
        } else {
            w1
        };
        assert(no_upper(w2)) by {
            if w1.len() > 0 && (w1[0] == '(' || w1[0] == '-') {
                assert(forall|k: int|
                    0 <= k < w1.len() - 1 ==> #[trigger] w1.drop_first()[k] == w1[k + 1]);
            }
        }
        lemma_strip_trailing_no_upper(w2);
    }
}

/// Cleaning the word list cannot introduce a capital in any token.
proof fn lemma_clean_words_no_upper(ws: Seq<Seq<char>>)
    requires
        tokens_no_upper(ws),
    ensures
        tokens_no_upper(clean_words(ws)),
    decreases ws.len(),
{
    if ws.len() > 0 {
        assert(tokens_no_upper(ws.drop_last())) by {
            assert(forall|i: int|
                0 <= i < ws.len() - 1 ==> #[trigger] ws.drop_last()[i] == ws[i]);
        }
        lemma_clean_words_no_upper(ws.drop_last());
        let rest = clean_words(ws.drop_last());
        if ws.last() != seq!['&'] {
            lemma_strip_word_no_upper(ws.last());
            assert forall|i: int| 0 <= i < rest.push(strip_word(ws.last())).len() implies no_upper(
                #[trigger] rest.push(strip_word(ws.last()))[i],
            ) by {
                if i < rest.len() {
                    assert(rest.push(strip_word(ws.last()))[i] == rest[i]);
                } else {
                    assert(rest.push(strip_word(ws.last()))[i] == strip_word(ws.last()));
                }
            }
        }
    }
}

/// Turns raw listing text into its cleaned word tokens.
///
/// The result is exactly `tokenize_spec` applied to the input: the
/// text is lowercased and canonically decomposed (both through trusted
/// wrappers over `str::to_lowercase` and `unicode_normalization`),
/// filtered to ASCII, split on whitespace, stripped of `&` words, and
/// each remaining word is cleaned of marker prefixes and trailing
/// punctuation. Empty input yields no tokens.
pub fn tokenize_watch_info(s: &str) -> (r: Vec<String>)
    ensures
        r.deep_view() == tokenize_spec(s@),
        s@.len() == 0 ==> r@.len() == 0,
        all_ascii(s@) ==> tokens_no_upper(r.deep_view()),
{
    let lowered: String = lowercase(s);
    let dec: Vec<char> = decompose_canonical(lowered.as_str());
    let norm: Vec<char> = filter_ascii(&dec);
    let words: Vec<Vec<char>> = split_whitespace_chars(&norm);
    let ghost wseq = split_ws(keep_ascii(nfd_of(lower_of(s@))));
    let mut r: Vec<String> = Vec::new();
    let mut i: usize = 0;
    while i < words.len()
        invariant
            words.deep_view() == wseq,
            words@.len() == wseq.len(),
            i <= words@.len(),
            r.deep_view() == clean_words(wseq.subrange(0, i as int)),
        decreases words@.len() - i,
    {
        let w: &Vec<char> = &words[i];
        proof {
            assert(words.deep_view()[i as int] == w@);
            let pre = wseq.subrange(0, i + 1);
            assert(pre.drop_last() =~= wseq.subrange(0, i as int));
            assert(pre.last() == w@);
        }
        if w.len() == 1 && w[0] == '&' {
            proof {
                assert(w@ =~= seq!['&']);
            }
        } else {
            proof {
                assert(w@ != seq!['&']);
            }
            let stripped: Vec<char> = strip_word_exec(w);
            let tok: String = chars_to_string(&stripped);
            let ghost old_r = r.deep_view();
            r.push(tok);
            proof {
                assert(r.deep_view() =~~= old_r.push(strip_word(w@)));
            }
        }
        i = i + 1;
    }
    proof {
        assert(wseq.subrange(0, wseq.len() as int) =~= wseq);
        assert(r.deep_view() =~~= tokenize_spec(s@));
        if s@.len() == 0 {
            assert(dec@ =~= Seq::<char>::empty());
            assert(norm@ =~= Seq::<char>::empty());
            assert(split_ws(norm@) =~= Seq::<Seq<char>>::empty());
            assert(clean_words(split_ws(norm@)) =~= Seq::<Seq<char>>::empty());
            assert(r@.len() == r.deep_view().len());
        }
        if all_ascii(s@) {
            assert(dec@ == lowered@);
            assert(no_upper(dec@));
            lemma_keep_ascii_no_upper(dec@);
            lemma_split_ws_no_upper(norm@);
            lemma_clean_words_no_upper(split_ws(norm@));
            assert(tokens_no_upper(r.deep_view()));
        }
    }
    r
}

} // verus!
