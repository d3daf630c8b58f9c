//! Character-level helpers shared by the tokenizer, the identifier and
//! the currency engine: decimal rendering of integers, substring search,
//! and conversions between `&str`/`String` and `Vec<char>`.

use vstd::prelude::*;

verus! {

/// The decimal digit character for a value below ten.
pub open spec fn digit_char(d: nat) -> char {
    ((48 + d) as u32) as char
}

/// The decimal rendering of a natural number, most significant digit first.
pub open spec fn dec_str(n: nat) -> Seq<char>
    decreases n,
{
    if n < 10 {
        seq![digit_char(n)]
    } else {
        dec_str(n / 10).push(digit_char(n % 10))
    }
}

/// The sequence `s` reversed.
pub open spec fn rev_seq<A>(s: Seq<A>) -> Seq<A> {
    Seq::new(s.len(), |i: int| s[s.len() - 1 - i])
}

/// Renders a `u64` as its decimal digit characters.
pub fn u64_to_dec_chars(n: u64) -> (r: Vec<char>)
    ensures
        r@ == dec_str(n as nat),
{
    let mut rev: Vec<char> = Vec::new();
    let mut m: u64 = n;
    while m >= 10
        invariant
            dec_str(n as nat) == dec_str(m as nat) + rev_seq(rev@),
        decreases m,
    {
        let d: u64 = m % 10;
        let c: char = (48 + d as u8) as char;
        proof {
            assert(c == digit_char((m % 10) as nat));
            assert(dec_str(m as nat) == dec_str((m / 10) as nat).push(digit_char((m % 10) as nat)));
            assert(dec_str((m / 10) as nat).push(c) + rev_seq(rev@) =~= dec_str((m / 10) as nat)
                + rev_seq(rev@.push(c)));
        }
        rev.push(c);
        m = m / 10;
    }
    let last_c: char = (48 + m as u8) as char;
    proof {
        assert(last_c == digit_char(m as nat));
        assert(dec_str(m as nat) == seq![last_c]);
        assert(seq![last_c] + rev_seq(rev@) =~= rev_seq(rev@.push(last_c)));
    }
    rev.push(last_c);
    proof {
        assert(dec_str(n as nat) == rev_seq(rev@));
    }
    let mut out: Vec<char> = Vec::new();
    let len: usize = rev.len();
    let mut i: usize = 0;
    while i < len
        invariant
            len == rev@.len(),
            i <= len,
            out@ =~= rev_seq(rev@).subrange(0, i as int),
        decreases len - i,
    {
        let c: char = rev[len - 1 - i];
        proof {
            assert(rev_seq(rev@)[i as int] == c);
            assert(rev_seq(rev@).subrange(0, i + 1) =~= rev_seq(rev@).subrange(0, i as int).push(
                c,
            ));
        }
        out.push(c);
        i = i + 1;
    }
    proof {
        assert(out@ =~= rev_seq(rev@));
    }
    out
}

/// Copies the characters of `v` in the range `[a, b)`.
pub fn sub_vec(v: &Vec<char>, a: usize, b: usize) -> (r: Vec<char>)
    requires
        a <= b <= v@.len(),
    ensures
        r@ == v@.subrange(a as int, b as int),
{
    let mut r: Vec<char> = Vec::new();
    let mut i: usize = a;
    while i < b
        invariant
            a <= i <= b <= v@.len(),
            v@.len() == v.len(),
            r@ =~= v@.subrange(a as int, i as int),
        decreases b - i,
    {
        proof {
            assert(v@.subrange(a as int, i + 1) =~= v@.subrange(a as int, i as int).push(
                v@[i as int],
            ));
        }
        r.push(v[i]);
        i = i + 1;
    }
    r
}

/// Relies on `String`'s `FromIterator<char>`: collecting characters
/// yields a string of exactly those characters in order.
#[verifier::external_body]
pub fn chars_to_string(v: &Vec<char>) -> (r: String)
    ensures
        r@ == v@,
{
    v.iter().collect()
}

/// Relies on `str::chars`: the characters of the slice in order.
#[verifier::external_body]
pub fn str_to_chars(s: &str) -> (r: Vec<char>)
    ensures
        r@ == s@,
{
    s.chars().collect()
}

/// Renders a `u64` as a decimal `String`.
pub fn u64_to_string(n: u64) -> (r: String)
    ensures
        r@ == dec_str(n as nat),
{
    let chars = u64_to_dec_chars(n);
    chars_to_string(&chars)
}

/// `n` occurs in `s` starting at position `i`.
pub open spec fn matches_at(s: Seq<char>, n: Seq<char>, i: int) -> bool {
    0 <= i && i + n.len() <= s.len() && s.subrange(i, i + n.len()) == n
}

/// `n` occurs somewhere in `s`.
pub open spec fn contains_seq(s: Seq<char>, n: Seq<char>) -> bool {
    exists|i: int| matches_at(s, n, i)
}

/// Whether `n` occurs in `s` starting at position `i`.
pub fn check_match_at(s: &Vec<char>, n: &Vec<char>, i: usize) -> (r: bool)
    requires
        i + n@.len() <= s@.len(),
    ensures
        r == matches_at(s@, n@, i as int),
{
    let mut j: usize = 0;
    while j < n.len()
        invariant
            i + n@.len() <= s@.len(),
            s@.len() == s.len(),
            j <= n@.len(),
            forall|k: int| 0 <= k < j ==> s@[i + k] == n@[k],
        decreases n@.len() - j,
    {
        if s[i + j] != n[j] {
            proof {
                assert(s@.subrange(i as int, i + n@.len())[j as int] == s@[i + j]);
            }
            return false;
        }
        j = j + 1;
    }
    proof {
        assert(s@.subrange(i as int, i + n@.len()) =~= n@);
    }
    true
}

/// Substring search: whether `n` occurs anywhere in `s`.
pub fn contains_chars(s: &Vec<char>, n: &Vec<char>) -> (r: bool)
    ensures
        r == contains_seq(s@, n@),
{
    if n.len() > s.len() {
        proof {
            assert(forall|i: int| !matches_at(s@, n@, i));
        }
        return false;
    }
    if n.len() == 0 {
        proof {
            assert(s@.subrange(0, 0) =~= n@);
            assert(matches_at(s@, n@, 0));
        }
        return true;
    }
    let last: usize = s.len() - n.len();
    let mut i: usize = 0;
    while i <= last
        invariant
            1 <= n@.len() <= s@.len(),
            s@.len() == s.len(),
            last == s@.len() - n@.len(),
            i <= last + 1,
            forall|k: int| 0 <= k < i ==> !matches_at(s@, n@, k),
        decreases last + 1 - i,
    {
        if check_match_at(s, n, i) {
            return true;
        }
        i = i + 1;
    }
    proof {
        assert(forall|k: int| k > last ==> !matches_at(s@, n@, k));
    }
    false
}

/// Element-wise equality of two character vectors.
pub fn eq_chars(a: &Vec<char>, b: &Vec<char>) -> (r: bool)
    ensures
        r == (a@ == b@),
{
    if a.len() != b.len() {
        return false;
    }
    let mut i: usize = 0;
    while i < a.len()
        invariant
            a@.len() == b@.len(),
            i <= a@.len(),
            forall|k: int| 0 <= k < i ==> a@[k] == b@[k],
        decreases a@.len() - i,
    {
        if a[i] != b[i] {
            return false;
        }
        i = i + 1;
    }
    proof {
        assert(a@ =~= b@);
    }
    true
}

} // verus!
