//! The persisted snapshot format of a price database, and its proof
//! that saving and loading reproduce the database.
//!
//! A snapshot is one JSON object in a fixed canonical shape:
//! `{"name":…,"timestamp":…,"entries":[…],"position":…}`, each entry
//! `{"id":…,"timestamp":…,"price":…,"is_sold":…,"brand":…,
//! "model_no":…}`. The encoder escapes `"` and `\` and writes every
//! other character outside printable ASCII as a lowercase `\u` escape
//! — a surrogate pair of escapes past the basic plane — so a written
//! snapshot is pure ASCII bytes. The decoder reads this object shape;
//! inside strings it also accepts raw UTF-8 sequences, so snapshots
//! written by a serializer that leaves non-ASCII text unescaped load
//! as well. `lemma_snapshot_round_trip` proves that decoding an
//! encoded snapshot yields the name, timestamp, entries and cursor it
//! was made from.

use vstd::prelude::*;
use vstd::utf8::{char_is_scalar, char_u32_cast};

use crate::scrapers::{EntryView, PriceDatabase, RolexForumsEntry};

verus! {

/// A decimal digit byte.
pub open spec fn is_dig_b(b: u8) -> bool {
    48 <= b <= 57
}

/// Length of the maximal digit-byte prefix.
pub open spec fn leading_digb(t: Seq<u8>) -> nat
    decreases t.len(),
{
    if t.len() == 0 || !is_dig_b(t[0]) {
        0
    } else {
        1 + leading_digb(t.drop_first())
    }
}

/// The decimal value of the digit bytes of `t`, read in order.
pub open spec fn byval(t: Seq<u8>) -> int
    decreases t.len(),
{
    if t.len() == 0 {
        0
    } else {
        let v = byval(t.drop_last());
        if is_dig_b(t.last()) {
            v * 10 + (t.last() - 48)
        } else {
            v
        }
    }
}

/// The decimal rendering of a natural number as bytes.
pub open spec fn dec_bytes(n: nat) -> Seq<u8>
    decreases n,
{
    if n < 10 {
        seq![(48 + n) as u8]
    } else {
        dec_bytes(n / 10).push((48 + n % 10) as u8)
    }
}

/// The rendering of a signed number as bytes: a minus sign before the
/// magnitude when negative.
pub open spec fn int_bytes(v: int) -> Seq<u8> {
    if v < 0 {
        seq![45u8] + dec_bytes((-v) as nat)
    } else {
        dec_bytes(v as nat)
    }
}

/// A decimal rendering consists of digit bytes only.
pub proof fn lemma_dec_bytes_digits(n: nat)
    ensures
        dec_bytes(n).len() >= 1,
        forall|k: int| 0 <= k < dec_bytes(n).len() ==> is_dig_b(#[trigger] dec_bytes(n)[k]),
    decreases n,
{
    if n >= 10 {
        lemma_dec_bytes_digits(n / 10);
    }
}

/// Reading a decimal rendering back gives the number.
pub proof fn lemma_byval_dec_bytes(n: nat)
    ensures
        byval(dec_bytes(n)) == n,
    decreases n,
{
    assert(byval(Seq::<u8>::empty()) == 0);
    if n < 10 {
        assert(dec_bytes(n).drop_last() =~= Seq::<u8>::empty());
        assert(dec_bytes(n).last() == (48 + n) as u8);
    } else {
        lemma_byval_dec_bytes(n / 10);
        assert(dec_bytes(n).drop_last() =~= dec_bytes(n / 10));
        assert(dec_bytes(n).last() == (48 + n % 10) as u8);
    }
}

/// A digit value is never negative.
pub proof fn lemma_byval_nonneg(t: Seq<u8>)
    ensures
        byval(t) >= 0,
    decreases t.len(),
{
    if t.len() > 0 {
        lemma_byval_nonneg(t.drop_last());
    }
}

/// The value of a prefix never exceeds the value of the whole text.
pub proof fn lemma_byval_prefix(t: Seq<u8>, i: int)
    requires
        0 <= i <= t.len(),
    ensures
        byval(t.subrange(0, i)) <= byval(t),
    decreases t.len() - i,
{
    if i == t.len() {
        assert(t.subrange(0, i) =~= t);
    } else {
        let u = t.subrange(0, i + 1);
        assert(u.drop_last() =~= t.subrange(0, i));
        lemma_byval_nonneg(t.subrange(0, i));
        lemma_byval_prefix(t, i + 1);
    }
}

/// A digit run of known length: the first `l` bytes are digits and
/// either the text ends there or a non-digit follows.
pub proof fn lemma_digb_run_exact(t: Seq<u8>, l: int)
    requires
        0 <= l <= t.len(),
        forall|k: int| 0 <= k < l ==> is_dig_b(#[trigger] t[k]),
        l == t.len() || !is_dig_b(t[l]),
    ensures
        leading_digb(t) == l,
    decreases l,
{
    if l == 0 {
    } else {
        assert(forall|k: int| 0 <= k < t.len() - 1 ==> t.drop_first()[k] == t[k + 1]);
        lemma_digb_run_exact(t.drop_first(), l - 1);
    }
}

/// Renders a `u64` as decimal bytes.
fn u64_to_dec_bytes(n: u64) -> (r: Vec<u8>)
    ensures
        r@ == dec_bytes(n as nat),
{
    let mut rev: Vec<u8> = Vec::new();
    let mut m: u64 = n;
    while m >= 10
        invariant
            dec_bytes(n as nat) == dec_bytes(m as nat) + crate::text::rev_seq(rev@),
        decreases m,
    {
        let d: u8 = (m % 10) as u8;
        let c: u8 = 48 + d;
        proof {
            assert(dec_bytes(m as nat) == dec_bytes((m / 10) as nat).push((48 + m % 10) as u8));
            assert(dec_bytes((m / 10) as nat).push(c) + crate::text::rev_seq(rev@) =~= dec_bytes(
                (m / 10) as nat,
            ) + crate::text::rev_seq(rev@.push(c)));
        }
        rev.push(c);
        m = m / 10;
    }
    let last_c: u8 = 48 + m as u8;
    proof {
        assert(dec_bytes(m as nat) == seq![last_c]);
        assert(seq![last_c] + crate::text::rev_seq(rev@) =~= crate::text::rev_seq(
            rev@.push(last_c),
        ));
    }
    rev.push(last_c);
    proof {
        assert(dec_bytes(n as nat) == crate::text::rev_seq(rev@));
    }
    let mut out: Vec<u8> = Vec::new();
    let len: usize = rev.len();
    let mut i: usize = 0;
    while i < len
        invariant
            len == rev@.len(),
            i <= len,
            out@ =~= crate::text::rev_seq(rev@).subrange(0, i as int),
        decreases len - i,
    {
        let c: u8 = rev[len - 1 - i];
        proof {
            assert(crate::text::rev_seq(rev@)[i as int] == c);
            assert(crate::text::rev_seq(rev@).subrange(0, i + 1) =~= crate::text::rev_seq(
                rev@,
            ).subrange(0, i as int).push(c));
        }
        out.push(c);
        i = i + 1;
    }
    proof {
        assert(out@ =~= crate::text::rev_seq(rev@));
    }
    out
}

/// Appends the bytes of `v` to `out`.
fn append_bytes(out: &mut Vec<u8>, v: &Vec<u8>)
    ensures
        final(out)@ == old(out)@ + v@,
{
    let mut i: usize = 0;
    while i < v.len()
        invariant
            i <= v@.len(),
            out@ =~= old(out)@ + v@.subrange(0, i as int),
        decreases v@.len() - i,
    {
        proof {
            assert(old(out)@ + v@.subrange(0, i + 1) =~= (old(out)@ + v@.subrange(
                0,
                i as int,
            )).push(v@[i as int]));
        }
        out.push(v[i]);
        i = i + 1;
    }
    proof {
        assert(v@.subrange(0, v@.len() as int) =~= v@);
    }
}

/// Appends a `u64` in decimal.
fn append_u64(out: &mut Vec<u8>, n: u64)
    ensures
        final(out)@ == old(out)@ + dec_bytes(n as nat),
{
    let d: Vec<u8> = u64_to_dec_bytes(n);
    append_bytes(out, &d);
}

/// Appends an `i64`, minus sign first when negative.
fn append_i64(out: &mut Vec<u8>, v: i64)
    ensures
        final(out)@ == old(out)@ + int_bytes(v as int),
{
    if v < 0 {
        out.push(45);
        let mag: u64 = ((-(v as i128)) as u64);
        proof {
            assert(mag as nat == (-(v as int)) as nat);
        }
        let d: Vec<u8> = u64_to_dec_bytes(mag);
        append_bytes(out, &d);
        proof {
            assert(old(out)@.push(45u8) + dec_bytes(mag as nat) =~= old(out)@ + (seq![45u8]
                + dec_bytes(mag as nat)));
        }
    } else {
        append_u64(out, v as u64);
    }
}

/// The hex digit byte for a value below sixteen, lowercase.
pub open spec fn hex_digit(d: int) -> u8 {
    if d < 10 {
        (48 + d) as u8
    } else {
        (87 + d) as u8
    }
}

/// The value of a lowercase hex digit byte, or sixteen when invalid.
pub open spec fn hex_val(b: u8) -> int {
    if 48 <= b <= 57 {
        b - 48
    } else if 97 <= b <= 102 {
        b - 87
    } else {
        16
    }
}

/// One lowercase `\u` escape of a sixteen-bit value.
pub open spec fn u_escape(v: int) -> Seq<u8> {
    seq![
        92u8,
        117u8,
        hex_digit(v / 4096 % 16),
        hex_digit(v / 256 % 16),
        hex_digit(v / 16 % 16),
        hex_digit(v % 16),
    ]
}

/// The snapshot bytes of one character: quote and backslash get a
/// backslash escape, other printable ASCII stands for itself, every
/// other basic-plane character becomes a lowercase `\u` escape, and a
/// supplementary-plane character becomes its surrogate pair of `\u`
/// escapes.
pub open spec fn esc_char(c: char) -> Seq<u8> {
    if c == '"' {
        seq![92u8, 34u8]
    } else if c == '\\' {
        seq![92u8, 92u8]
    } else if ' ' <= c <= '~' {
        seq![c as u8]
    } else if (c as u32) < 65536 {
        u_escape(c as u32 as int)
    } else {
        let u = c as u32 as int - 0x10000;
        u_escape(0xD800 + u / 0x400) + u_escape(0xDC00 + u % 0x400)
    }
}

/// The snapshot bytes of a string's characters.
pub open spec fn esc_str(s: Seq<char>) -> Seq<u8>
    decreases s.len(),
{
    if s.len() == 0 {
        Seq::empty()
    } else {
        esc_char(s[0]) + esc_str(s.drop_first())
    }
}

/// Escaping one more character appends its escape.
pub proof fn lemma_esc_str_snoc(s: Seq<char>, i: int)
    requires
        0 <= i < s.len(),
    ensures
        esc_str(s.subrange(0, i + 1)) == esc_str(s.subrange(0, i)) + esc_char(s[i]),
    decreases i,
{
    if i == 0 {
        assert(s.subrange(0, 1)[0] == s[0]);
        assert(s.subrange(0, 1).drop_first() =~= Seq::<char>::empty());
        assert(s.subrange(0, 0) =~= Seq::<char>::empty());
        assert(esc_char(s[0]) + Seq::<u8>::empty() =~= esc_char(s[0]));
        assert(Seq::<u8>::empty() + esc_char(s[0]) =~= esc_char(s[0]));
    } else {
        lemma_esc_str_snoc(s.drop_first(), i - 1);
        assert(s.subrange(0, i + 1)[0] == s[0]);
        assert(s.subrange(0, i + 1).drop_first() =~= s.drop_first().subrange(0, i));
        assert(s.subrange(0, i)[0] == s[0]);
        assert(s.subrange(0, i).drop_first() =~= s.drop_first().subrange(0, i - 1));
        assert(s.drop_first()[i - 1] == s[i]);
        assert(esc_char(s[0]) + (esc_str(s.drop_first().subrange(0, i - 1)) + esc_char(s[i]))
            =~= (esc_char(s[0]) + esc_str(s.drop_first().subrange(0, i - 1))) + esc_char(s[i]));
    }
}

/// The snapshot piece `{"name":"` as bytes.
pub open spec fn lit_d_name() -> Seq<u8> {
    seq![123u8, 34u8, 110u8, 97u8, 109u8, 101u8, 34u8, 58u8, 34u8]
}

/// The snapshot piece `","timestamp":` as bytes.
pub open spec fn lit_d_ts() -> Seq<u8> {
    seq![34u8, 44u8, 34u8, 116u8, 105u8, 109u8, 101u8, 115u8, 116u8, 97u8, 109u8, 112u8, 34u8, 58u8]
}

/// The snapshot piece `,"entries":[` as bytes.
pub open spec fn lit_d_entries() -> Seq<u8> {
    seq![44u8, 34u8, 101u8, 110u8, 116u8, 114u8, 105u8, 101u8, 115u8, 34u8, 58u8, 91u8]
}

/// The snapshot piece `],"position":` as bytes.
pub open spec fn lit_d_pos() -> Seq<u8> {
    seq![93u8, 44u8, 34u8, 112u8, 111u8, 115u8, 105u8, 116u8, 105u8, 111u8, 110u8, 34u8, 58u8]
}

/// The snapshot piece `}` as bytes.
pub open spec fn lit_d_close() -> Seq<u8> {
    seq![125u8]
}

/// The snapshot piece `{"id":` as bytes.
pub open spec fn lit_e_id() -> Seq<u8> {
    seq![123u8, 34u8, 105u8, 100u8, 34u8, 58u8]
}

/// The snapshot piece `,"timestamp":` as bytes.
pub open spec fn lit_e_ts() -> Seq<u8> {
    seq![44u8, 34u8, 116u8, 105u8, 109u8, 101u8, 115u8, 116u8, 97u8, 109u8, 112u8, 34u8, 58u8]
}

/// The snapshot piece `,"price":` as bytes.
pub open spec fn lit_e_price() -> Seq<u8> {
    seq![44u8, 34u8, 112u8, 114u8, 105u8, 99u8, 101u8, 34u8, 58u8]
}

/// The snapshot piece `,"is_sold":` as bytes.
pub open spec fn lit_e_sold() -> Seq<u8> {
    seq![44u8, 34u8, 105u8, 115u8, 95u8, 115u8, 111u8, 108u8, 100u8, 34u8, 58u8]
}

/// The snapshot piece `,"brand":"` as bytes.
pub open spec fn lit_e_brand() -> Seq<u8> {
    seq![44u8, 34u8, 98u8, 114u8, 97u8, 110u8, 100u8, 34u8, 58u8, 34u8]
}

/// The snapshot piece `","model_no":"` as bytes.
pub open spec fn lit_e_model() -> Seq<u8> {
    seq![34u8, 44u8, 34u8, 109u8, 111u8, 100u8, 101u8, 108u8, 95u8, 110u8, 111u8, 34u8, 58u8, 34u8]
}

/// The snapshot piece `"}` as bytes.
pub open spec fn lit_e_close() -> Seq<u8> {
    seq![34u8, 125u8]
}

/// The snapshot piece `null` as bytes.
pub open spec fn lit_null() -> Seq<u8> {
    seq![110u8, 117u8, 108u8, 108u8]
}

/// The snapshot piece `true` as bytes.
pub open spec fn lit_true() -> Seq<u8> {
    seq![116u8, 114u8, 117u8, 101u8]
}

/// The snapshot piece `false` as bytes.
pub open spec fn lit_false() -> Seq<u8> {
    seq![102u8, 97u8, 108u8, 115u8, 101u8]
}

/// The hex digit byte of a value below sixteen.
fn hexd(d: u32) -> (r: u8)
    requires
        d < 16,
    ensures
        r == hex_digit(d as int),
{
    if d < 10 {
        (48 + d) as u8
    } else {
        (87 + d) as u8
    }
}

/// Appends the escaped bytes of the string.
fn append_escaped(out: &mut Vec<u8>, s: &String)
    ensures
        final(out)@ == old(out)@ + esc_str(s@),
{
    let cs: Vec<char> = crate::text::str_to_chars(s.as_str());
    proof {
        assert(s@.subrange(0, 0) =~= Seq::<char>::empty());
        assert(old(out)@ + Seq::<u8>::empty() =~= old(out)@);
    }
    let mut i: usize = 0;
    while i < cs.len()
        invariant
            cs@ == s@,
            i <= s@.len(),
            out@ == old(out)@ + esc_str(s@.subrange(0, i as int)),
        decreases s@.len() - i,
    {
        let c: char = cs[i];
        proof {
            lemma_esc_str_snoc(s@, i as int);
            assert(c == s@[i as int]);
        }
        let ghost before = out@;
        if c == '"' {
            out.push(92);
            out.push(34);
        } else if c == '\\' {
            out.push(92);
            out.push(92);
        } else if ' ' <= c && c <= '~' {
            out.push(c as u8);
        } else {
            let v: u32 = c as u32;
            if v < 65536 {
                out.push(92);
                out.push(117);
                out.push(hexd(v / 4096 % 16));
                out.push(hexd(v / 256 % 16));
                out.push(hexd(v / 16 % 16));
                out.push(hexd(v % 16));
            } else {
                let u: u32 = v - 65536;
                let hi: u32 = 0xD800 + u / 0x400;
                let lo: u32 = 0xDC00 + u % 0x400;
                out.push(92);
                out.push(117);
                out.push(hexd(hi / 4096 % 16));
                out.push(hexd(hi / 256 % 16));
                out.push(hexd(hi / 16 % 16));
                out.push(hexd(hi % 16));
                out.push(92);
                out.push(117);
                out.push(hexd(lo / 4096 % 16));
                out.push(hexd(lo / 256 % 16));
                out.push(hexd(lo / 16 % 16));
                out.push(hexd(lo % 16));
            }
        }
        proof {
            assert(out@ =~= before + esc_char(c));
            assert(before + esc_char(c) =~= old(out)@ + (esc_str(s@.subrange(0, i as int))
                + esc_char(c)));
        }
        i = i + 1;
    }
    proof {
        assert(s@.subrange(0, s@.len() as int) =~= s@);
    }
}

/// The snapshot bytes of an optional price.
pub open spec fn price_bytes(p: Option<u32>) -> Seq<u8> {
    match p {
        None => lit_null(),
        Some(v) => dec_bytes(v as nat),
    }
}

/// The snapshot bytes of a flag.
pub open spec fn bool_bytes(b: bool) -> Seq<u8> {
    if b {
        lit_true()
    } else {
        lit_false()
    }
}

/// The snapshot bytes of one entry.
pub open spec fn encode_entry_bytes(e: EntryView) -> Seq<u8> {
    lit_e_id() + dec_bytes(e.id as nat) + lit_e_ts() + int_bytes(e.timestamp as int)
        + lit_e_price() + price_bytes(e.price) + lit_e_sold() + bool_bytes(e.is_sold)
        + lit_e_brand() + esc_str(e.brand) + lit_e_model() + esc_str(e.model_no) + lit_e_close()
}

/// The snapshot bytes of the entry list, comma separated.
pub open spec fn encode_entries_bytes(s: Seq<EntryView>) -> Seq<u8>
    decreases s.len(),
{
    if s.len() == 0 {
        Seq::empty()
    } else if s.len() == 1 {
        encode_entry_bytes(s[0])
    } else {
        encode_entry_bytes(s[0]) + seq![44u8] + encode_entries_bytes(s.drop_first())
    }
}

/// The snapshot bytes of a whole database.
pub open spec fn encode_db_bytes(name: Seq<char>, ts: int, entries: Seq<EntryView>, pos: nat) -> Seq<u8> {
    lit_d_name() + esc_str(name) + lit_d_ts() + int_bytes(ts) + lit_d_entries()
        + encode_entries_bytes(entries) + lit_d_pos() + dec_bytes(pos) + lit_d_close()
}

/// Adding one entry appends a comma and its bytes.
pub proof fn lemma_encode_entries_snoc(s: Seq<EntryView>, i: int)
    requires
        1 <= i < s.len(),
    ensures
        encode_entries_bytes(s.subrange(0, i + 1)) == encode_entries_bytes(s.subrange(0, i))
            + seq![44u8] + encode_entry_bytes(s[i]),
    decreases i,
{
    if i == 1 {
        let u = s.subrange(0, 2);
        assert(u[0] == s[0]);
        assert(u.drop_first() =~= s.subrange(1, 2));
        assert(s.subrange(1, 2)[0] == s[1]);
        assert(s.subrange(0, 1)[0] == s[0]);
        assert(encode_entries_bytes(s.subrange(1, 2)) == encode_entry_bytes(s[1]));
        assert(encode_entries_bytes(s.subrange(0, 1)) == encode_entry_bytes(s[0]));
        assert(encode_entry_bytes(s[0]) + seq![44u8] + encode_entry_bytes(s[1]) =~= encode_entry_bytes(
            s[0],
        ) + (seq![44u8] + encode_entry_bytes(s[1])));
    } else {
        lemma_encode_entries_snoc(s.drop_first(), i - 1);
        let a = s.subrange(0, i + 1);
        let b = s.subrange(0, i);
        assert(a[0] == s[0]);
        assert(b[0] == s[0]);
        assert(a.drop_first() =~= s.drop_first().subrange(0, i));
        assert(b.drop_first() =~= s.drop_first().subrange(0, i - 1));
        assert(s.drop_first()[i - 1] == s[i]);
        let e0 = encode_entry_bytes(s[0]);
        let rest_prev = encode_entries_bytes(s.drop_first().subrange(0, i - 1));
        let ei = encode_entry_bytes(s[i]);
        assert(encode_entries_bytes(a) == e0 + seq![44u8] + (rest_prev + seq![44u8] + ei));
        assert(encode_entries_bytes(b) == e0 + seq![44u8] + rest_prev);
        assert(e0 + seq![44u8] + (rest_prev + seq![44u8] + ei) =~= (e0 + seq![44u8] + rest_prev)
            + seq![44u8] + ei);
    }
}

/// Appends the snapshot bytes of one entry.
#[verifier::rlimit(100)]
#[verifier::spinoff_prover]
fn append_entry(out: &mut Vec<u8>, e: &RolexForumsEntry)
    ensures
        final(out)@ == old(out)@ + encode_entry_bytes(e@),
{
    let l: Vec<u8> = vec![123u8, 34u8, 105u8, 100u8, 34u8, 58u8];
    proof {
        assert(l@ =~= lit_e_id());
    }
    append_bytes(out, &l);
    append_u64(out, e.id);
    let l: Vec<u8> = vec![44u8, 34u8, 116u8, 105u8, 109u8, 101u8, 115u8, 116u8, 97u8, 109u8, 112u8, 34u8, 58u8];
    proof {
        assert(l@ =~= lit_e_ts());
    }
    append_bytes(out, &l);
    append_i64(out, e.timestamp);
    let l: Vec<u8> = vec![44u8, 34u8, 112u8, 114u8, 105u8, 99u8, 101u8, 34u8, 58u8];
    proof {
        assert(l@ =~= lit_e_price());
    }
    append_bytes(out, &l);
    match e.price {
        Some(v) => {
            append_u64(out, v as u64);
        },
        None => {
    let l: Vec<u8> = vec![110u8, 117u8, 108u8, 108u8];
    proof {
        assert(l@ =~= lit_null());
    }
    append_bytes(out, &l);
        },
    }
    let l: Vec<u8> = vec![44u8, 34u8, 105u8, 115u8, 95u8, 115u8, 111u8, 108u8, 100u8, 34u8, 58u8];
    proof {
        assert(l@ =~= lit_e_sold());
    }
    append_bytes(out, &l);
    if e.is_sold {
    let l: Vec<u8> = vec![116u8, 114u8, 117u8, 101u8];
    proof {
        assert(l@ =~= lit_true());
    }
    append_bytes(out, &l);
    } else {
    let l: Vec<u8> = vec![102u8, 97u8, 108u8, 115u8, 101u8];
    proof {
        assert(l@ =~= lit_false());
    }
    append_bytes(out, &l);
    }
    let l: Vec<u8> = vec![44u8, 34u8, 98u8, 114u8, 97u8, 110u8, 100u8, 34u8, 58u8, 34u8];
    proof {
        assert(l@ =~= lit_e_brand());
    }
    append_bytes(out, &l);
    append_escaped(out, &e.brand);
    let l: Vec<u8> = vec![34u8, 44u8, 34u8, 109u8, 111u8, 100u8, 101u8, 108u8, 95u8, 110u8, 111u8, 34u8, 58u8, 34u8];
    proof {
        assert(l@ =~= lit_e_model());
    }
    append_bytes(out, &l);
    append_escaped(out, &e.model_no);
    let l: Vec<u8> = vec![34u8, 125u8];
    proof {
        assert(l@ =~= lit_e_close());
    }
    append_bytes(out, &l);
    proof {
        assert(out@ =~= old(out)@ + encode_entry_bytes(e@));
    }
}

/// Encodes a database as its snapshot bytes.
pub fn encode_db(db: &PriceDatabase<RolexForumsEntry>) -> (r: Vec<u8>)
    ensures
        r@ == encode_db_bytes(
            db.name@,
            db.timestamp as int,
            db.entries.deep_view(),
            db.position as nat,
        ),
{
    let ghost ev = db.entries.deep_view();
    let mut o: Vec<u8> = Vec::new();
    let out: &mut Vec<u8> = &mut o;
    let l: Vec<u8> = vec![123u8, 34u8, 110u8, 97u8, 109u8, 101u8, 34u8, 58u8, 34u8];
    proof {
        assert(l@ =~= lit_d_name());
    }
    append_bytes(out, &l);
    append_escaped(out, &db.name);
    let l: Vec<u8> = vec![34u8, 44u8, 34u8, 116u8, 105u8, 109u8, 101u8, 115u8, 116u8, 97u8, 109u8, 112u8, 34u8, 58u8];
    proof {
        assert(l@ =~= lit_d_ts());
    }
    append_bytes(out, &l);
    append_i64(out, db.timestamp);
    let l: Vec<u8> = vec![44u8, 34u8, 101u8, 110u8, 116u8, 114u8, 105u8, 101u8, 115u8, 34u8, 58u8, 91u8];
    proof {
        assert(l@ =~= lit_d_entries());
    }
    append_bytes(out, &l);
    let ghost head = out@;
    let mut i: usize = 0;
    while i < db.entries.len()
        invariant
            ev == db.entries.deep_view(),
            ev.len() == db.entries@.len(),
            i <= ev.len(),
            out@ == head + encode_entries_bytes(ev.subrange(0, i as int)),
        decreases ev.len() - i,
    {
        proof {
            assert(ev[i as int] == db.entries@[i as int]@);
        }
        let ghost before = out@;
        if i > 0 {
            out.push(44);
        }
        append_entry(out, &db.entries[i]);
        proof {
            if i == 0 {
                assert(ev.subrange(0, 1)[0] == ev[0]);
                assert(encode_entries_bytes(ev.subrange(0, 1)) == encode_entry_bytes(ev[0]));
                assert(ev.subrange(0, 0) =~= Seq::<EntryView>::empty());
                assert(out@ =~= head + encode_entries_bytes(ev.subrange(0, 1)));
            } else {
                lemma_encode_entries_snoc(ev, i as int);
                assert(before.push(44u8) =~= before + seq![44u8]);
                assert(out@ =~= (before + seq![44u8]) + encode_entry_bytes(ev[i as int]));
                assert(out@ =~= head + (encode_entries_bytes(ev.subrange(0, i as int))
                    + seq![44u8] + encode_entry_bytes(ev[i as int])));
                assert(encode_entries_bytes(ev.subrange(0, i + 1)) =~= encode_entries_bytes(
                    ev.subrange(0, i as int),
                ) + seq![44u8] + encode_entry_bytes(ev[i as int]));
            }
        }
        i = i + 1;
    }
    proof {
        assert(ev.subrange(0, ev.len() as int) =~= ev);
    }
    let l: Vec<u8> = vec![93u8, 44u8, 34u8, 112u8, 111u8, 115u8, 105u8, 116u8, 105u8, 111u8, 110u8, 34u8, 58u8];
    proof {
        assert(l@ =~= lit_d_pos());
    }
    append_bytes(out, &l);
    append_u64(out, db.position as u64);
    let l: Vec<u8> = vec![125u8];
    proof {
        assert(l@ =~= lit_d_close());
    }
    append_bytes(out, &l);
    proof {
        assert(out@ =~= encode_db_bytes(db.name@, db.timestamp as int, ev, db.position as nat));
    }
    o
}


/// The snapshot piece `,"model_no":"` as bytes.
pub open spec fn lit_p_model() -> Seq<u8> {
    seq![44u8, 34u8, 109u8, 111u8, 100u8, 101u8, 108u8, 95u8, 110u8, 111u8, 34u8, 58u8, 34u8]
}

/// Reads a fixed literal at `i`: the position after it on a match.
pub open spec fn parse_lit(b: Seq<u8>, i: int, lit: Seq<u8>) -> Option<int> {
    if 0 <= i && i + lit.len() <= b.len() && b.subrange(i, i + lit.len() as int) == lit {
        Some(i + lit.len())
    } else {
        None
    }
}

/// Reads an unsigned decimal at `i`: its value and the position after.
pub open spec fn parse_uint(b: Seq<u8>, i: int) -> Option<(int, int)> {
    let t = b.subrange(i, b.len() as int);
    let run = leading_digb(t);
    if run == 0 {
        None
    } else {
        let v = byval(t.subrange(0, run as int));
        if v > u64::MAX {
            None
        } else {
            Some((v, i + run))
        }
    }
}

/// Reads a signed decimal at `i`.
pub open spec fn parse_int(b: Seq<u8>, i: int) -> Option<(int, int)> {
    if 0 <= i && i < b.len() && b[i] == 45 {
        match parse_uint(b, i + 1) {
            Some((v, j)) => if v > 0x8000000000000000 {
                None
            } else {
                Some((-v, j))
            },
            None => None,
        }
    } else {
        match parse_uint(b, i) {
            Some((v, j)) => if v > i64::MAX {
                None
            } else {
                Some((v, j))
            },
            None => None,
        }
    }
}

/// A UTF-8 continuation byte.
pub open spec fn is_cont(b: u8) -> bool {
    0x80 <= b <= 0xBF
}

/// Reads escaped string content — backslash escapes, `\u` escapes
/// including surrogate pairs, and raw UTF-8 sequences — up to and
/// including the closing quote.
pub open spec fn parse_str_content(b: Seq<u8>, i: int) -> Option<(Seq<char>, int)>
    decreases b.len() - i,
    when 0 <= i
{
    if i >= b.len() {
        None
    } else if b[i] == 34 {
        Some((Seq::empty(), i + 1))
    } else if b[i] == 92 {
        if i + 2 <= b.len() && (b[i + 1] == 34 || b[i + 1] == 92) {
            match parse_str_content(b, i + 2) {
                Some((s, j)) => Some((seq![b[i + 1] as char] + s, j)),
                None => None,
            }
        } else if i + 6 <= b.len() && b[i + 1] == 117 {
            let v = hex_val(b[i + 2]) * 4096 + hex_val(b[i + 3]) * 256 + hex_val(b[i + 4]) * 16
                + hex_val(b[i + 5]);
            if hex_val(b[i + 2]) < 16 && hex_val(b[i + 3]) < 16 && hex_val(b[i + 4]) < 16 && hex_val(
                b[i + 5],
            ) < 16 {
                if 0xDC00 <= v <= 0xDFFF {
                    None
                } else if 0xD800 <= v <= 0xDBFF {
                    if i + 12 <= b.len() && b[i + 6] == 92 && b[i + 7] == 117 && hex_val(b[i + 8])
                        < 16 && hex_val(b[i + 9]) < 16 && hex_val(b[i + 10]) < 16 && hex_val(
                        b[i + 11],
                    ) < 16 {
                        let w = hex_val(b[i + 8]) * 4096 + hex_val(b[i + 9]) * 256 + hex_val(
                            b[i + 10],
                        ) * 16 + hex_val(b[i + 11]);
                        if 0xDC00 <= w <= 0xDFFF {
                            let u = 0x10000 + (v - 0xD800) * 0x400 + (w - 0xDC00);
                            match parse_str_content(b, i + 12) {
                                Some((s, j)) => Some((seq![((u as u32) as char)] + s, j)),
                                None => None,
                            }
                        } else {
                            None
                        }
                    } else {
                        None
                    }
                } else {
                    match parse_str_content(b, i + 6) {
                        Some((s, j)) => Some((seq![((v as u32) as char)] + s, j)),
                        None => None,
                    }
                }
            } else {
                None
            }
        } else {
            None
        }
    } else if 32 <= b[i] && b[i] <= 126 {
        match parse_str_content(b, i + 1) {
            Some((s, j)) => Some((seq![b[i] as char] + s, j)),
            None => None,
        }
    } else if 0xC2 <= b[i] && b[i] <= 0xDF {
        if i + 2 <= b.len() && is_cont(b[i + 1]) {
            let v = (b[i] as int - 0xC0) * 64 + (b[i + 1] as int - 0x80);
            match parse_str_content(b, i + 2) {
                Some((s, j)) => Some((seq![((v as u32) as char)] + s, j)),
                None => None,
            }
        } else {
            None
        }
    } else if 0xE0 <= b[i] && b[i] <= 0xEF {
        if i + 3 <= b.len() && is_cont(b[i + 1]) && is_cont(b[i + 2]) {
            let v = (b[i] as int - 0xE0) * 4096 + (b[i + 1] as int - 0x80) * 64 + (b[i + 2] as int
                - 0x80);
            if 0x800 <= v && !(0xD800 <= v <= 0xDFFF) {
                match parse_str_content(b, i + 3) {
                    Some((s, j)) => Some((seq![((v as u32) as char)] + s, j)),
                    None => None,
                }
            } else {
                None
            }
        } else {
            None
        }
    } else if 0xF0 <= b[i] && b[i] <= 0xF4 {
        if i + 4 <= b.len() && is_cont(b[i + 1]) && is_cont(b[i + 2]) && is_cont(b[i + 3]) {
            let v = (b[i] as int - 0xF0) * 0x40000 + (b[i + 1] as int - 0x80) * 4096 + (b[i
                + 2] as int - 0x80) * 64 + (b[i + 3] as int - 0x80);
            if 0x10000 <= v <= 0x10FFFF {
                match parse_str_content(b, i + 4) {
                    Some((s, j)) => Some((seq![((v as u32) as char)] + s, j)),
                    None => None,
                }
            } else {
                None
            }
        } else {
            None
        }
    } else {
        None
    }
}

/// Reads a price: `null` or an unsigned number within 32 bits.
pub open spec fn parse_price(b: Seq<u8>, i: int) -> Option<(Option<u32>, int)> {
    match parse_lit(b, i, lit_null()) {
        Some(j) => Some((None, j)),
        None => match parse_uint(b, i) {
            Some((v, j)) => if v > u32::MAX {
                None
            } else {
                Some((Some(v as u32), j))
            },
            None => None,
        },
    }
}

/// Reads a flag: `true` or `false`.
pub open spec fn parse_bool(b: Seq<u8>, i: int) -> Option<(bool, int)> {
    match parse_lit(b, i, lit_true()) {
        Some(j) => Some((true, j)),
        None => match parse_lit(b, i, lit_false()) {
            Some(j) => Some((false, j)),
            None => None,
        },
    }
}

/// Reads one entry object at `i`.
pub open spec fn parse_entry(b: Seq<u8>, i: int) -> Option<(EntryView, int)> {
    match parse_lit(b, i, lit_e_id()) {
        None => None,
        Some(j1) => match parse_uint(b, j1) {
            None => None,
            Some((idv, j2)) => match parse_lit(b, j2, lit_e_ts()) {
                None => None,
                Some(j3) => match parse_int(b, j3) {
                    None => None,
                    Some((tsv, j4)) => match parse_lit(b, j4, lit_e_price()) {
                        None => None,
                        Some(j5) => match parse_price(b, j5) {
                            None => None,
                            Some((pr, j6)) => match parse_lit(b, j6, lit_e_sold()) {
                                None => None,
                                Some(j7) => match parse_bool(b, j7) {
                                    None => None,
                                    Some((so, j8)) => match parse_lit(b, j8, lit_e_brand()) {
                                        None => None,
                                        Some(j9) => match parse_str_content(b, j9) {
                                            None => None,
                                            Some((br, j10)) => match parse_lit(
                                                b,
                                                j10,
                                                lit_p_model(),
                                            ) {
                                                None => None,
                                                Some(j11) => match parse_str_content(b, j11) {
                                                    None => None,
                                                    Some((mo, j12)) => match parse_lit(
                                                        b,
                                                        j12,
                                                        lit_d_close(),
                                                    ) {
                                                        None => None,
                                                        Some(j13) => Some(
                                                            (
                                                                EntryView {
                                                                    id: idv as u64,
                                                                    timestamp: tsv as i64,
                                                                    price: pr,
                                                                    is_sold: so,
                                                                    brand: br,
                                                                    model_no: mo,
                                                                },
                                                                j13,
                                                            ),
                                                        ),
                                                    },
                                                },
                                            },
                                        },
                                    },
                                },
                            },
                        },
                    },
                },
            },
        },
    }
}

/// Reads a comma-separated entry list, at least one entry.
pub open spec fn parse_entries_rest(b: Seq<u8>, i: int, fuel: nat) -> Option<(Seq<EntryView>, int)>
    decreases fuel,
{
    if fuel == 0 {
        None
    } else {
        match parse_entry(b, i) {
            None => None,
            Some((e, j)) => if 0 <= j < b.len() && b[j] == 44 {
                match parse_entries_rest(b, j + 1, (fuel - 1) as nat) {
                    Some((s, k)) => Some((seq![e] + s, k)),
                    None => None,
                }
            } else {
                Some((seq![e], j))
            },
        }
    }
}

/// Reads a whole snapshot: name, timestamp, entries and cursor. The
/// bytes must hold exactly one snapshot and nothing else.
pub open spec fn decode_db_spec(b: Seq<u8>) -> Option<(Seq<char>, int, Seq<EntryView>, nat)> {
    match parse_lit(b, 0, lit_d_name()) {
        None => None,
        Some(j1) => match parse_str_content(b, j1) {
            None => None,
            Some((name, j2)) => match parse_lit(b, j2, lit_e_ts()) {
                None => None,
                Some(j3) => match parse_int(b, j3) {
                    None => None,
                    Some((tsv, j4)) => match parse_lit(b, j4, lit_d_entries()) {
                        None => None,
                        Some(j5) => {
                            let es = if 0 <= j5 < b.len() && b[j5] == 123 {
                                parse_entries_rest(b, j5, b.len() as nat)
                            } else {
                                Some((Seq::<EntryView>::empty(), j5))
                            };
                            match es {
                                None => None,
                                Some((entries, j6)) => match parse_lit(b, j6, lit_d_pos()) {
                                    None => None,
                                    Some(j7) => match parse_uint(b, j7) {
                                        None => None,
                                        Some((pv, j8)) => if pv > usize::MAX {
                                            None
                                        } else {
                                            match parse_lit(b, j8, lit_d_close()) {
                                                None => None,
                                                Some(j9) => if j9 == b.len() {
                                                    Some((name, tsv, entries, pv as nat))
                                                } else {
                                                    None
                                                },
                                            }
                                        },
                                    },
                                },
                            }
                        },
                    },
                },
            },
        },
    }
}


/// Reading back a rendered unsigned number at its position gives the
/// number, provided no digit follows it.
pub proof fn lemma_parse_uint_at(b: Seq<u8>, i: int, n: nat)
    requires
        0 <= i,
        n <= u64::MAX,
        i + dec_bytes(n).len() <= b.len(),
        b.subrange(i, i + dec_bytes(n).len() as int) == dec_bytes(n),
        i + dec_bytes(n).len() == b.len() || !is_dig_b(b[i + dec_bytes(n).len()]),
    ensures
        parse_uint(b, i) == Some((n as int, i + dec_bytes(n).len() as int)),
{
    let l = dec_bytes(n).len() as int;
    let t = b.subrange(i, b.len() as int);
    lemma_dec_bytes_digits(n);
    assert(t.subrange(0, l) =~= dec_bytes(n));
    assert forall|k: int| 0 <= k < l implies is_dig_b(#[trigger] t[k]) by {
        assert(t[k] == dec_bytes(n)[k]);
    }
    if l < t.len() {
        assert(t[l] == b[i + l]);
    }
    lemma_digb_run_exact(t, l);
    lemma_byval_dec_bytes(n);
}

/// Reading back a rendered signed number gives the number.
pub proof fn lemma_parse_int_at(b: Seq<u8>, i: int, v: int)
    requires
        0 <= i,
        i64::MIN <= v <= i64::MAX,
        i + int_bytes(v).len() <= b.len(),
        b.subrange(i, i + int_bytes(v).len() as int) == int_bytes(v),
        i + int_bytes(v).len() == b.len() || !is_dig_b(b[i + int_bytes(v).len()]),
    ensures
        parse_int(b, i) == Some((v, i + int_bytes(v).len() as int)),
{
    if v < 0 {
        let m = (-v) as nat;
        let l = dec_bytes(m).len() as int;
        assert(int_bytes(v)[0] == 45u8);
        assert(b[i] == b.subrange(i, i + int_bytes(v).len() as int)[0]);
        assert(b[i] == 45u8);
        assert(b.subrange(i + 1, i + 1 + l) =~= dec_bytes(m)) by {
            assert forall|k: int| 0 <= k < l implies b.subrange(i + 1, i + 1 + l)[k] == dec_bytes(
                m,
            )[k] by {
                assert(b.subrange(i + 1, i + 1 + l)[k] == b[i + 1 + k]);
                assert(b[i + 1 + k] == b.subrange(i, i + int_bytes(v).len() as int)[k + 1]);
                assert(int_bytes(v)[k + 1] == dec_bytes(m)[k]);
            }
        }
        lemma_parse_uint_at(b, i + 1, m);
    } else {
        lemma_dec_bytes_digits(v as nat);
        assert(b[i] == b.subrange(i, i + int_bytes(v).len() as int)[0]);
        assert(is_dig_b(b[i]));
        assert(b[i] != 45u8);
        lemma_parse_uint_at(b, i, v as nat);
    }
}

/// Reading back an escaped string and its closing quote gives the
/// characters.
pub proof fn lemma_parse_str_at(b: Seq<u8>, i: int, s: Seq<char>)
    requires
        0 <= i,
        i + esc_str(s).len() + 1 <= b.len(),
        b.subrange(i, i + esc_str(s).len() as int) == esc_str(s),
        b[i + esc_str(s).len()] == 34u8,
    ensures
        parse_str_content(b, i) == Some((s, i + esc_str(s).len() + 1)),
    decreases s.len(),
{
    broadcast use vstd::utf8::char_is_scalar;

    if s.len() == 0 {
        assert(b[i] == 34u8);
        assert(Seq::<char>::empty() =~= s);
    } else {
        let c = s[0];
        let s2 = s.drop_first();
        let ec = esc_char(c);
        let el = ec.len() as int;
        let e = esc_str(s).len() as int;
        assert(esc_str(s) == ec + esc_str(s2));
        assert forall|k: int| 0 <= k < el implies b[i + k] == #[trigger] ec[k] by {
            assert(b[i + k] == b.subrange(i, i + e)[k]);
            assert(esc_str(s)[k] == (ec + esc_str(s2))[k]);
        }
        assert(b[i] == ec[0] && i + 0 == i);
        if el >= 2 {
            assert(b[i + 1] == ec[1]);
        }
        if el >= 6 {
            assert(b[i + 2] == ec[2] && b[i + 3] == ec[3] && b[i + 4] == ec[4]);
            assert(b[i + 5] == ec[5]);
        }
        if el >= 12 {
            assert(b[i + 6] == ec[6] && b[i + 7] == ec[7] && b[i + 8] == ec[8]);
            assert(b[i + 9] == ec[9] && b[i + 10] == ec[10] && b[i + 11] == ec[11]);
        }
        assert(b.subrange(i + el, i + e) =~= esc_str(s2)) by {
            assert forall|k: int| 0 <= k < e - el implies b.subrange(i + el, i + e)[k] == esc_str(
                s2,
            )[k] by {
                assert(b.subrange(i + el, i + e)[k] == b[i + el + k]);
                assert(b[i + el + k] == b.subrange(i, i + e)[k + el]);
                assert((ec + esc_str(s2))[k + el] == esc_str(s2)[k]);
            }
        }
        lemma_parse_str_at(b, i + el, s2);
        assert(seq![c] + s2 =~= s);
        if c == '"' {
            assert(b[i] == 92u8 && b[i + 1] == 34u8);
            assert((34u8 as char) == '"');
        } else if c == '\\' {
            assert(b[i] == 92u8 && b[i + 1] == 92u8);
            assert((92u8 as char) == '\\');
        } else if ' ' <= c && c <= '~' {
            assert(b[i] == c as u8);
            assert(b[i] != 34u8 && b[i] != 92u8 && 32 <= b[i] <= 126);
            assert((b[i] as char) == c);
        } else if (c as u32) < 65536 {
            let v = c as u32;
            vstd::utf8::char_is_scalar(c);
            assert(vstd::utf8::is_scalar(v));
            assert(ec == u_escape(v as int));
            assert(b[i] == 92u8 && b[i + 1] == 117u8);
            assert(b[i + 2] == hex_digit(v as int / 4096 % 16));
            assert(b[i + 3] == hex_digit(v as int / 256 % 16));
            assert(b[i + 4] == hex_digit(v as int / 16 % 16));
            assert(b[i + 5] == hex_digit(v as int % 16));
            assert(forall|d: int| 0 <= d < 16 ==> hex_val(hex_digit(d)) == d);
            let w = hex_val(b[i + 2]) * 4096 + hex_val(b[i + 3]) * 256 + hex_val(b[i + 4]) * 16
                + hex_val(b[i + 5]);
            assert(w == (v as int / 4096 % 16) * 4096 + (v as int / 256 % 16) * 256 + (v as int
                / 16 % 16) * 16 + (v as int % 16));
            assert(v == (v / 4096 % 16) * 4096 + (v / 256 % 16) * 256 + (v / 16 % 16) * 16 + (v
                % 16)) by (bit_vector)
                requires
                    v < 65536u32,
            ;
            assert(w == v as int);
            assert(!(0xD800 <= w <= 0xDFFF)) by {
                if 0xD800 <= w <= 0xDFFF {
                    assert(!vstd::utf8::has_width_1_encoding(v) && !vstd::utf8::has_width_2_encoding(v)
                        && !vstd::utf8::has_width_3_encoding(v) && !vstd::utf8::has_width_4_encoding(
                        v,
                    ));
                }
            }
            vstd::utf8::char_u32_cast(c, v);
            assert(((w as u32) as char) == c);
        } else {
            let v = c as u32;
            vstd::utf8::char_is_scalar(c);
            assert(vstd::utf8::is_scalar(v));
            assert(v <= 0x10FFFF);
            let u = v as int - 0x10000;
            let hi = 0xD800 + u / 0x400;
            let lo = 0xDC00 + u % 0x400;
            assert(0 <= u <= 0xFFFFF);
            assert(0xD800 <= hi <= 0xDBFF);
            assert(0xDC00 <= lo <= 0xDFFF);
            assert(ec == u_escape(hi) + u_escape(lo));
            assert(b[i] == 92u8 && b[i + 1] == 117u8);
            assert(b[i + 6] == 92u8 && b[i + 7] == 117u8);
            assert(forall|d: int| 0 <= d < 16 ==> hex_val(hex_digit(d)) == d);
            assert(b[i + 2] == hex_digit(hi / 4096 % 16) && b[i + 3] == hex_digit(hi / 256 % 16)
                && b[i + 4] == hex_digit(hi / 16 % 16) && b[i + 5] == hex_digit(hi % 16));
            assert(b[i + 8] == hex_digit(lo / 4096 % 16) && b[i + 9] == hex_digit(lo / 256 % 16)
                && b[i + 10] == hex_digit(lo / 16 % 16) && b[i + 11] == hex_digit(lo % 16));
            let hv = hex_val(b[i + 2]) * 4096 + hex_val(b[i + 3]) * 256 + hex_val(b[i + 4]) * 16
                + hex_val(b[i + 5]);
            let lv = hex_val(b[i + 8]) * 4096 + hex_val(b[i + 9]) * 256 + hex_val(b[i + 10]) * 16
                + hex_val(b[i + 11]);
            let hiu = hi as u32;
            let lou = lo as u32;
            assert(hiu == (hiu / 4096 % 16) * 4096 + (hiu / 256 % 16) * 256 + (hiu / 16 % 16) * 16
                + (hiu % 16)) by (bit_vector)
                requires
                    hiu < 65536u32,
            ;
            assert(lou == (lou / 4096 % 16) * 4096 + (lou / 256 % 16) * 256 + (lou / 16 % 16) * 16
                + (lou % 16)) by (bit_vector)
                requires
                    lou < 65536u32,
            ;
            assert(hv == hi);
            assert(lv == lo);
            assert(0x10000 + (hv - 0xD800) * 0x400 + (lv - 0xDC00) == v as int);
            vstd::utf8::char_u32_cast(c, v);
            assert((((0x10000 + (hv - 0xD800) * 0x400 + (lv - 0xDC00)) as u32) as char) == c);
        }
    }
}

/// Reading back a rendered price gives the price.
pub proof fn lemma_parse_price_at(b: Seq<u8>, i: int, p: Option<u32>)
    requires
        0 <= i,
        i + price_bytes(p).len() <= b.len(),
        b.subrange(i, i + price_bytes(p).len() as int) == price_bytes(p),
        i + price_bytes(p).len() == b.len() || !is_dig_b(b[i + price_bytes(p).len()]),
    ensures
        parse_price(b, i) == Some((p, i + price_bytes(p).len() as int)),
{
    match p {
        None => {
            assert(parse_lit(b, i, lit_null()) == Some(i + 4));
        },
        Some(v) => {
            lemma_dec_bytes_digits(v as nat);
            assert(b[i] == b.subrange(i, i + price_bytes(p).len() as int)[0]);
            assert(is_dig_b(b[i]));
            assert(parse_lit(b, i, lit_null()) is None) by {
                if parse_lit(b, i, lit_null()) is Some {
                    assert(b.subrange(i, i + 4)[0] == b[i]);
                    assert(b[i] == 110u8);
                }
            }
            lemma_parse_uint_at(b, i, v as nat);
        },
    }
}

/// Reading back a rendered flag gives the flag.
pub proof fn lemma_parse_bool_at(b: Seq<u8>, i: int, v: bool)
    requires
        0 <= i,
        i + bool_bytes(v).len() <= b.len(),
        b.subrange(i, i + bool_bytes(v).len() as int) == bool_bytes(v),
    ensures
        parse_bool(b, i) == Some((v, i + bool_bytes(v).len() as int)),
{
    if v {
        assert(parse_lit(b, i, lit_true()) == Some(i + 4));
    } else {
        assert(b[i] == b.subrange(i, i + 5)[0]);
        assert(b[i] == 102u8);
        assert(parse_lit(b, i, lit_true()) is None) by {
            if parse_lit(b, i, lit_true()) is Some {
                assert(b.subrange(i, i + 4)[0] == b[i]);
            }
        }
        assert(parse_lit(b, i, lit_false()) == Some(i + 5));
    }
}


/// A piece of a matched region matches at its offset.
proof fn lemma_region_piece(b: Seq<u8>, i: int, whole: Seq<u8>, o: int, p: Seq<u8>)
    requires
        0 <= i,
        i + whole.len() <= b.len(),
        b.subrange(i, i + whole.len() as int) == whole,
        0 <= o,
        o + p.len() <= whole.len(),
        whole.subrange(o, o + p.len() as int) == p,
    ensures
        b.subrange(i + o, i + o + p.len() as int) == p,
{
    assert(b.subrange(i + o, i + o + p.len() as int) =~= p) by {
        assert forall|k: int| 0 <= k < p.len() implies b.subrange(i + o, i + o + p.len() as int)[k]
            == p[k] by {
            assert(b.subrange(i + o, i + o + p.len() as int)[k] == b[i + o + k]);
            assert(b[i + o + k] == b.subrange(i, i + whole.len() as int)[o + k]);
            assert(whole.subrange(o, o + p.len() as int)[k] == whole[o + k]);
        }
    }
}

/// Splitting a matched region at a concatenation boundary.
proof fn lemma_region_split(b: Seq<u8>, i: int, x: Seq<u8>, y: Seq<u8>)
    requires
        0 <= i,
        i + (x + y).len() <= b.len(),
        b.subrange(i, i + (x + y).len() as int) == x + y,
    ensures
        b.subrange(i, i + x.len() as int) == x,
        b.subrange(i + x.len(), i + (x + y).len() as int) == y,
{
    let l = (x + y).len() as int;
    assert(b.subrange(i, i + x.len() as int) =~= x) by {
        assert forall|k: int| 0 <= k < x.len() implies b.subrange(i, i + x.len() as int)[k] == x[k] by {
            assert(b.subrange(i, i + x.len() as int)[k] == b[i + k]);
            assert(b[i + k] == b.subrange(i, i + l)[k]);
            assert((x + y)[k] == x[k]);
        }
    }
    assert(b.subrange(i + x.len(), i + l) =~= y) by {
        assert forall|k: int| 0 <= k < y.len() implies b.subrange(i + x.len(), i + l)[k] == y[k] by {
            assert(b.subrange(i + x.len(), i + l)[k] == b[i + x.len() + k]);
            assert(b[i + x.len() + k] == b.subrange(i, i + l)[k + x.len()]);
            assert((x + y)[k + x.len()] == y[k]);
        }
    }
}

/// Reading back one rendered entry gives the entry.
#[verifier::rlimit(100)]
#[verifier::spinoff_prover]
pub proof fn lemma_parse_entry_at(b: Seq<u8>, i: int, e: EntryView)
    requires
        0 <= i,
        i + encode_entry_bytes(e).len() <= b.len(),
        b.subrange(i, i + encode_entry_bytes(e).len() as int) == encode_entry_bytes(e),
    ensures
        parse_entry(b, i) == Some((e, i + encode_entry_bytes(e).len())),
{
    let p1 = lit_e_id();
    let p2 = dec_bytes(e.id as nat);
    let p3 = lit_e_ts();
    let p4 = int_bytes(e.timestamp as int);
    let p5 = lit_e_price();
    let p6 = price_bytes(e.price);
    let p7 = lit_e_sold();
    let p8 = bool_bytes(e.is_sold);
    let p9 = lit_e_brand();
    let p10 = esc_str(e.brand);
    let p11 = lit_e_model();
    let p12 = esc_str(e.model_no);
    let p13 = lit_e_close();
    let c2 = p1 + p2;
    let c3 = c2 + p3;
    let c4 = c3 + p4;
    let c5 = c4 + p5;
    let c6 = c5 + p6;
    let c7 = c6 + p7;
    let c8 = c7 + p8;
    let c9 = c8 + p9;
    let c10 = c9 + p10;
    let c11 = c10 + p11;
    let c12 = c11 + p12;
    let c13 = c12 + p13;
    assert(encode_entry_bytes(e) == c13);
    lemma_region_split(b, i, c12, p13);
    lemma_region_split(b, i, c11, p12);
    lemma_region_split(b, i, c10, p11);
    lemma_region_split(b, i, c9, p10);
    lemma_region_split(b, i, c8, p9);
    lemma_region_split(b, i, c7, p8);
    lemma_region_split(b, i, c6, p7);
    lemma_region_split(b, i, c5, p6);
    lemma_region_split(b, i, c4, p5);
    lemma_region_split(b, i, c3, p4);
    lemma_region_split(b, i, c2, p3);
    lemma_region_split(b, i, p1, p2);
    let o1 = p1.len() as int;
    let o2 = c2.len() as int;
    let o3 = c3.len() as int;
    let o4 = c4.len() as int;
    let o5 = c5.len() as int;
    let o6 = c6.len() as int;
    let o7 = c7.len() as int;
    let o8 = c8.len() as int;
    let o9 = c9.len() as int;
    let o10 = c10.len() as int;
    let o11 = c11.len() as int;
    let o12 = c12.len() as int;
    let o13 = c13.len() as int;
    // the id literal, then the id number with a comma after it
    assert(parse_lit(b, i, p1) == Some(i + o1));
    assert(b[i + o2] == b.subrange(i + o2, i + o3)[0]);
    assert(b[i + o2] == p3[0]);
    lemma_parse_uint_at(b, i + o1, e.id as nat);
    // the timestamp literal and number with a comma after it
    assert(parse_lit(b, i + o2, p3) == Some(i + o3));
    assert(b[i + o4] == b.subrange(i + o4, i + o5)[0]);
    assert(b[i + o4] == p5[0]);
    lemma_parse_int_at(b, i + o3, e.timestamp as int);
    // the price literal and value with a comma after it
    assert(parse_lit(b, i + o4, p5) == Some(i + o5));
    assert(b[i + o6] == b.subrange(i + o6, i + o7)[0]);
    assert(b[i + o6] == p7[0]);
    lemma_parse_price_at(b, i + o5, e.price);
    // the sold literal and flag
    assert(parse_lit(b, i + o6, p7) == Some(i + o7));
    lemma_parse_bool_at(b, i + o7, e.is_sold);
    // the brand literal, string, and closing quote
    assert(parse_lit(b, i + o8, p9) == Some(i + o9));
    assert(b[i + o10] == b.subrange(i + o10, i + o11)[0]);
    assert(b[i + o10] == p11[0]);
    assert(p11[0] == 34u8);
    lemma_parse_str_at(b, i + o9, e.brand);
    // the model literal continues after the consumed quote
    assert(lit_p_model() =~= p11.subrange(1, p11.len() as int));
    lemma_region_piece(b, i + o10, p11, 1, lit_p_model());
    assert(parse_lit(b, i + o10 + 1, lit_p_model()) == Some(i + o11));
    // the model string and its closing quote
    assert(b[i + o12] == b.subrange(i + o12, i + o13)[0]);
    assert(b[i + o12] == p13[0]);
    assert(p13[0] == 34u8);
    lemma_parse_str_at(b, i + o11, e.model_no);
    // the closing brace continues after the consumed quote
    assert(lit_d_close() =~= p13.subrange(1, p13.len() as int));
    lemma_region_piece(b, i + o12, p13, 1, lit_d_close());
    assert(parse_lit(b, i + o12 + 1, lit_d_close()) == Some(i + o13));
}

/// A rendered entry list is at least as long as the list.
pub proof fn lemma_entries_len_ge(s: Seq<EntryView>)
    ensures
        encode_entries_bytes(s).len() >= s.len(),
    decreases s.len(),
{
    if s.len() > 1 {
        lemma_entries_len_ge(s.drop_first());
    }
}

/// Reading back a rendered entry list gives the entries.
#[verifier::rlimit(100)]
#[verifier::spinoff_prover]
pub proof fn lemma_parse_entries_at(b: Seq<u8>, i: int, s: Seq<EntryView>, fuel: nat)
    requires
        0 <= i,
        s.len() >= 1,
        fuel >= s.len(),
        i + encode_entries_bytes(s).len() < b.len(),
        b.subrange(i, i + encode_entries_bytes(s).len() as int) == encode_entries_bytes(s),
        b[i + encode_entries_bytes(s).len()] != 44u8,
    ensures
        parse_entries_rest(b, i, fuel) == Some((s, i + encode_entries_bytes(s).len())),
    decreases s.len(),
{
    let whole = encode_entries_bytes(s);
    if s.len() == 1 {
        assert(whole == encode_entry_bytes(s[0]));
        lemma_parse_entry_at(b, i, s[0]);
        assert(seq![s[0]] =~= s);
    } else {
        let e0 = encode_entry_bytes(s[0]);
        let rest = encode_entries_bytes(s.drop_first());
        assert(whole == e0 + seq![44u8] + rest);
        let l0 = e0.len() as int;
        lemma_region_split(b, i, e0 + seq![44u8], rest);
        lemma_region_split(b, i, e0, seq![44u8]);
        lemma_parse_entry_at(b, i, s[0]);
        assert(b[i + l0] == b.subrange(i + l0, i + l0 + 1)[0]);
        assert(b[i + l0] == 44u8);
        lemma_parse_entries_at(b, i + l0 + 1, s.drop_first(), (fuel - 1) as nat);
        assert(seq![s[0]] + s.drop_first() =~= s);
    }
}

/// The piece regions of an encoded snapshot.
#[verifier::rlimit(100)]
#[verifier::spinoff_prover]
proof fn lemma_snapshot_regions(name: Seq<char>, ts: i64, entries: Seq<EntryView>, pos: usize)
    ensures
        ({
            let b = encode_db_bytes(name, ts as int, entries, pos as nat);
            let o1 = lit_d_name().len() as int;
            let o2 = o1 + esc_str(name).len();
            let o3 = o2 + lit_d_ts().len();
            let o4 = o3 + int_bytes(ts as int).len();
            let o5 = o4 + lit_d_entries().len();
            let o6 = o5 + encode_entries_bytes(entries).len();
            let o7 = o6 + lit_d_pos().len();
            let o8 = o7 + dec_bytes(pos as nat).len();
            let o9 = o8 + lit_d_close().len();
            &&& b.len() == o9
            &&& b.subrange(0, o1) == lit_d_name()
            &&& b.subrange(o1, o2) == esc_str(name)
            &&& b.subrange(o2, o3) == lit_d_ts()
            &&& b.subrange(o3, o4) == int_bytes(ts as int)
            &&& b.subrange(o4, o5) == lit_d_entries()
            &&& b.subrange(o5, o6) == encode_entries_bytes(entries)
            &&& b.subrange(o6, o7) == lit_d_pos()
            &&& b.subrange(o7, o8) == dec_bytes(pos as nat)
            &&& b.subrange(o8, o9) == lit_d_close()
        }),
{
    let b = encode_db_bytes(name, ts as int, entries, pos as nat);
    let p1 = lit_d_name();
    let p2 = esc_str(name);
    let p3 = lit_d_ts();
    let p4 = int_bytes(ts as int);
    let p5 = lit_d_entries();
    let p6 = encode_entries_bytes(entries);
    let p7 = lit_d_pos();
    let p8 = dec_bytes(pos as nat);
    let p9 = lit_d_close();
    let c2 = p1 + p2;
    let c3 = c2 + p3;
    let c4 = c3 + p4;
    let c5 = c4 + p5;
    let c6 = c5 + p6;
    let c7 = c6 + p7;
    let c8 = c7 + p8;
    let c9 = c8 + p9;
    assert(b == c9);
    assert(b.subrange(0, b.len() as int) =~= b);
    lemma_region_split(b, 0, c8, p9);
    lemma_region_split(b, 0, c7, p8);
    lemma_region_split(b, 0, c6, p7);
    lemma_region_split(b, 0, c5, p6);
    lemma_region_split(b, 0, c4, p5);
    lemma_region_split(b, 0, c3, p4);
    lemma_region_split(b, 0, c2, p3);
    lemma_region_split(b, 0, p1, p2);
}

/// The head steps of reading an encoded snapshot: name and timestamp.
#[verifier::rlimit(100)]
#[verifier::spinoff_prover]
proof fn lemma_snapshot_steps_head(name: Seq<char>, ts: i64, entries: Seq<EntryView>, pos: usize)
    ensures
        ({
            let b = encode_db_bytes(name, ts as int, entries, pos as nat);
            let o1 = lit_d_name().len() as int;
            let o2 = o1 + esc_str(name).len();
            let o3 = o2 + lit_d_ts().len();
            let o4 = o3 + int_bytes(ts as int).len();
            let o5 = o4 + lit_d_entries().len();
            &&& parse_lit(b, 0, lit_d_name()) == Some(o1)
            &&& parse_str_content(b, o1) == Some((name, o2 + 1))
            &&& parse_lit(b, o2 + 1, lit_e_ts()) == Some(o3)
            &&& parse_int(b, o3) == Some((ts as int, o4))
            &&& parse_lit(b, o4, lit_d_entries()) == Some(o5)
        }),
{
    lemma_snapshot_regions(name, ts, entries, pos);
    let b = encode_db_bytes(name, ts as int, entries, pos as nat);
    let p3 = lit_d_ts();
    let p5 = lit_d_entries();
    let o1 = lit_d_name().len() as int;
    let o2 = o1 + esc_str(name).len();
    let o3 = o2 + p3.len();
    let o4 = o3 + int_bytes(ts as int).len();
    let o5 = o4 + p5.len();
    assert(b[o2] == b.subrange(o2, o3)[0]);
    assert(b[o2] == p3[0]);
    assert(p3[0] == 34u8);
    lemma_parse_str_at(b, o1, name);
    assert(lit_e_ts() =~= p3.subrange(1, p3.len() as int));
    lemma_region_piece(b, o2, p3, 1, lit_e_ts());
    assert(b[o4] == b.subrange(o4, o5)[0]);
    assert(b[o4] == p5[0]);
    assert(!is_dig_b(p5[0]));
    lemma_parse_int_at(b, o3 as int, ts as int);
}

/// The tail steps of reading an encoded snapshot: entries and cursor.
#[verifier::rlimit(100)]
#[verifier::spinoff_prover]
proof fn lemma_snapshot_steps_tail(name: Seq<char>, ts: i64, entries: Seq<EntryView>, pos: usize)
    ensures
        ({
            let b = encode_db_bytes(name, ts as int, entries, pos as nat);
            let o5 = lit_d_name().len() + esc_str(name).len() + lit_d_ts().len() + int_bytes(
                ts as int,
            ).len() + lit_d_entries().len();
            let o6 = o5 + encode_entries_bytes(entries).len();
            let o7 = o6 + lit_d_pos().len();
            let o8 = o7 + dec_bytes(pos as nat).len();
            let o9 = o8 + lit_d_close().len();
            &&& (entries.len() == 0 ==> o5 < b.len() && b[o5 as int] == 93u8)
            &&& (entries.len() > 0 ==> o5 < b.len() && b[o5 as int] == 123u8 && parse_entries_rest(
                b,
                o5 as int,
                b.len() as nat,
            ) == Some((entries, o6 as int)))
            &&& parse_lit(b, o6 as int, lit_d_pos()) == Some(o7 as int)
            &&& parse_uint(b, o7 as int) == Some((pos as int, o8 as int))
            &&& parse_lit(b, o8 as int, lit_d_close()) == Some(o9 as int)
            &&& o9 == b.len()
        }),
{
    lemma_snapshot_regions(name, ts, entries, pos);
    let b = encode_db_bytes(name, ts as int, entries, pos as nat);
    let p6 = encode_entries_bytes(entries);
    let p7 = lit_d_pos();
    let p9 = lit_d_close();
    let o5 = lit_d_name().len() + esc_str(name).len() + lit_d_ts().len() + int_bytes(
        ts as int,
    ).len() + lit_d_entries().len();
    let o6 = o5 + p6.len();
    let o7 = o6 + p7.len();
    let o8 = o7 + dec_bytes(pos as nat).len();
    let o9 = o8 + p9.len();
    assert(b[o6 as int] == b.subrange(o6 as int, o7 as int)[0]);
    assert(b[o6 as int] == p7[0]);
    assert(p7[0] == 93u8);
    if entries.len() == 0 {
        assert(p6.len() == 0);
        assert(b[o5 as int] == 93u8);
    } else {
        assert(b[o5 as int] == b.subrange(o5 as int, o6 as int)[0]);
        assert(p6[0] == encode_entry_bytes(entries[0])[0]) by {
            if entries.len() == 1 {
            } else {
                assert(p6 == encode_entry_bytes(entries[0]) + seq![44u8]
                    + encode_entries_bytes(entries.drop_first()));
            }
        }
        assert(encode_entry_bytes(entries[0])[0] == lit_e_id()[0]);
        assert(b[o5 as int] == 123u8);
        lemma_entries_len_ge(entries);
        lemma_parse_entries_at(b, o5 as int, entries, b.len() as nat);
    }
    assert(b[o8 as int] == b.subrange(o8 as int, o9 as int)[0]);
    assert(b[o8 as int] == p9[0]);
    assert(!is_dig_b(p9[0]));
    lemma_parse_uint_at(b, o7 as int, pos as nat);
}

/// Decoding an encoded snapshot yields the name, timestamp, entries
/// and cursor it was made from: a saved database loads back
/// identically.
#[verifier::rlimit(100)]
#[verifier::spinoff_prover]
pub proof fn lemma_snapshot_round_trip(name: Seq<char>, ts: i64, entries: Seq<EntryView>, pos: usize)
    ensures
        decode_db_spec(encode_db_bytes(name, ts as int, entries, pos as nat)) == Some(
            (name, ts as int, entries, pos as nat),
        ),
{
    lemma_snapshot_steps_head(name, ts, entries, pos);
    lemma_snapshot_steps_tail(name, ts, entries, pos);
}


/// Relies on `char::from_u32`: a valid Unicode scalar value converts
/// to exactly that character.
#[verifier::external_body]
fn char_from_scalar(v: u32) -> (r: char)
    requires
        v < 0xD800 || (0xE000 <= v && v <= 0x10FFFF),
    ensures
        r == (v as char),
{
    char::from_u32(v).unwrap()
}

/// Reads a fixed literal, executably.
fn parse_lit_exec(b: &Vec<u8>, i: usize, lit: &Vec<u8>) -> (r: Option<usize>)
    ensures
        match r {
            Some(j) => parse_lit(b@, i as int, lit@) == Some(j as int) && j <= b@.len(),
            None => parse_lit(b@, i as int, lit@) is None,
        },
{
    if i > b.len() || b.len() - i < lit.len() {
        return None;
    }
    let mut k: usize = 0;
    while k < lit.len()
        invariant
            i + lit@.len() <= b@.len(),
            b@.len() == b.len(),
            k <= lit@.len(),
            forall|m: int| 0 <= m < k ==> b@[i + m] == lit@[m],
        decreases lit@.len() - k,
    {
        if b[i + k] != lit[k] {
            proof {
                assert(b@.subrange(i as int, i + lit@.len())[k as int] == b@[i + k]);
            }
            return None;
        }
        k = k + 1;
    }
    proof {
        assert(b@.subrange(i as int, i + lit@.len()) =~= lit@);
    }
    Some(i + lit.len())
}

/// A digit-byte prefix is never longer than the text.
proof fn lemma_leading_digb_le(t: Seq<u8>)
    ensures
        leading_digb(t) <= t.len(),
    decreases t.len(),
{
    if t.len() > 0 && is_dig_b(t[0]) {
        lemma_leading_digb_le(t.drop_first());
    }
}

/// Reads an unsigned decimal, executably.
fn parse_uint_exec(b: &Vec<u8>, i: usize) -> (r: Option<(u64, usize)>)
    requires
        i <= b@.len(),
    ensures
        match r {
            Some((v, j)) => parse_uint(b@, i as int) == Some((v as int, j as int)) && i < j
                <= b@.len(),
            None => parse_uint(b@, i as int) is None,
        },
{
    let n: usize = b.len();
    let ghost t = b@.subrange(i as int, n as int);
    let mut j: usize = i;
    while j < n && dig_at(b, j)
        invariant
            n == b@.len(),
            i <= j <= n,
            leading_digb(t) == (j - i) + leading_digb(b@.subrange(j as int, n as int)),
            t == b@.subrange(i as int, n as int),
        decreases n - j,
    {
        proof {
            let u = b@.subrange(j as int, n as int);
            assert(u[0] == b@[j as int]);
            assert(u.drop_first() =~= b@.subrange(j + 1, n as int));
        }
        j = j + 1;
    }
    proof {
        let u = b@.subrange(j as int, n as int);
        if j < n {
            assert(u[0] == b@[j as int]);
        }
        assert(leading_digb(u) == 0);
        assert(leading_digb(t) == j - i);
    }
    if j == i {
        return None;
    }
    proof {
        assert(t.subrange(0, (j - i) as int) =~= b@.subrange(i as int, j as int));
        assert(b@.subrange(i as int, i as int) =~= Seq::<u8>::empty());
    }
    let ghost w = b@.subrange(i as int, j as int);
    let mut acc: u64 = 0;
    let mut k: usize = i;
    while k < j
        invariant
            n == b@.len(),
            i <= k <= j <= n,
            w == b@.subrange(i as int, j as int),
            t == b@.subrange(i as int, n as int),
            leading_digb(t) == j - i,
            acc as int == byval(b@.subrange(i as int, k as int)),
        decreases j - k,
    {
        let c: u8 = b[k];
        proof {
            let u = b@.subrange(i as int, k + 1);
            assert(u.drop_last() =~= b@.subrange(i as int, k as int));
            assert(u.last() == b@[k as int]);
            assert(b@[k as int] == t[(k - i) as int]);
            lemma_leading_digb_digits(t);
        }
        let d: u64 = (c - 48) as u64;
        if acc > (0xFFFF_FFFF_FFFF_FFFFu64 - d) / 10 {
            proof {
                assert(byval(b@.subrange(i as int, k + 1)) > u64::MAX);
                lemma_byval_prefix(w, k + 1 - i);
                assert(b@.subrange(i as int, k + 1) =~= w.subrange(0, k + 1 - i));
                assert(byval(w) > u64::MAX);
                assert(t.subrange(0, (j - i) as int) =~= w);
                assert(byval(t.subrange(0, (j - i) as int)) > u64::MAX);
            }
            return None;
        }
        acc = acc * 10 + d;
        k = k + 1;
    }
    proof {
        assert(b@.subrange(i as int, j as int) =~= w);
        assert(byval(w) == acc as int);
        assert(byval(t.subrange(0, (j - i) as int)) == acc as int);
    }
    Some((acc, j))
}

/// Every byte of a leading digit run is a digit.
proof fn lemma_leading_digb_digits(t: Seq<u8>)
    ensures
        forall|k: int| 0 <= k < leading_digb(t) && k < t.len() ==> is_dig_b(#[trigger] t[k]),
    decreases t.len(),
{
    if t.len() > 0 && is_dig_b(t[0]) {
        lemma_leading_digb_digits(t.drop_first());
        assert forall|k: int|
            0 <= k < leading_digb(t) && k < t.len() implies is_dig_b(#[trigger] t[k]) by {
            if k > 0 {
                assert(t.drop_first()[k - 1] == t[k]);
                assert(is_dig_b(t.drop_first()[k - 1]));
            }
        }
    }
}

/// Whether the byte at `j` is a digit.
fn dig_at(b: &Vec<u8>, j: usize) -> (r: bool)
    requires
        j < b@.len(),
    ensures
        r == is_dig_b(b@[j as int]),
{
    let c: u8 = b[j];
    48 <= c && c <= 57
}

/// Reads a signed decimal, executably.
fn parse_int_exec(b: &Vec<u8>, i: usize) -> (r: Option<(i64, usize)>)
    requires
        i <= b@.len(),
    ensures
        match r {
            Some((v, j)) => parse_int(b@, i as int) == Some((v as int, j as int)) && j <= b@.len(),
            None => parse_int(b@, i as int) is None,
        },
{
    if i < b.len() && b[i] == 45 {
        match parse_uint_exec(b, i + 1) {
            Some((v, j)) => {
                if v > 0x8000_0000_0000_0000u64 {
                    None
                } else if v == 0x8000_0000_0000_0000u64 {
                    Some((i64::MIN, j))
                } else {
                    Some((-(v as i64), j))
                }
            },
            None => None,
        }
    } else {
        match parse_uint_exec(b, i) {
            Some((v, j)) => {
                if v > i64::MAX as u64 {
                    None
                } else {
                    Some((v as i64, j))
                }
            },
            None => None,
        }
    }
}

/// The value of a lowercase hex digit byte, or sixteen.
fn hex_val_exec(c: u8) -> (r: u8)
    ensures
        r as int == hex_val(c),
{
    if 48 <= c && c <= 57 {
        c - 48
    } else if 97 <= c && c <= 102 {
        c - 87
    } else {
        16
    }
}

/// Reads escaped string content and its closing quote, executably.
#[verifier::rlimit(100)]
fn parse_str_exec(b: &Vec<u8>, i0: usize) -> (r: Option<(Vec<char>, usize)>)
    requires
        i0 <= b@.len(),
    ensures
        match r {
            Some((s, j)) => parse_str_content(b@, i0 as int) == Some((s@, j as int)) && j
                <= b@.len(),
            None => parse_str_content(b@, i0 as int) is None,
        },
{
    let n: usize = b.len();
    let mut acc: Vec<char> = Vec::new();
    let mut i: usize = i0;
    loop
        invariant
            n == b@.len(),
            i0 <= i <= n,
            parse_str_content(b@, i0 as int) == (match parse_str_content(b@, i as int) {
                Some((s, j)) => Some((acc@ + s, j)),
                None => None::<(Seq<char>, int)>,
            }),
        decreases n - i,
    {
        if i >= n {
            return None;
        }
        let c: u8 = b[i];
        if c == 34 {
            proof {
                assert(acc@ + Seq::<char>::empty() =~= acc@);
            }
            return Some((acc, i + 1));
        }
        if c == 92 {
            if n - i < 2 {
                return None;
            }
            let e: u8 = b[i + 1];
            if e == 34 || e == 92 {
                let ghost before = acc@;
                acc.push(e as char);
                proof {
                    assert(acc@ =~= before.push((e as char)));
                    assert forall|s2: Seq<char>| true implies before + (seq![(e as char)] + s2)
                        =~= acc@ + s2 by {}
                }
                i = i + 2;
            } else if e == 117 {
                if n - i < 6 {
                    return None;
                }
                let h3: u8 = hex_val_exec(b[i + 2]);
                let h2: u8 = hex_val_exec(b[i + 3]);
                let h1: u8 = hex_val_exec(b[i + 4]);
                let h0: u8 = hex_val_exec(b[i + 5]);
                if h3 >= 16 || h2 >= 16 || h1 >= 16 || h0 >= 16 {
                    return None;
                }
                let v: u32 = (h3 as u32) * 4096 + (h2 as u32) * 256 + (h1 as u32) * 16 + (
                h0 as u32);
                if 0xDC00 <= v && v <= 0xDFFF {
                    return None;
                }
                if 0xD800 <= v && v <= 0xDBFF {
                    if n - i < 12 || b[i + 6] != 92 || b[i + 7] != 117 {
                        return None;
                    }
                    let g3: u8 = hex_val_exec(b[i + 8]);
                    let g2: u8 = hex_val_exec(b[i + 9]);
                    let g1: u8 = hex_val_exec(b[i + 10]);
                    let g0: u8 = hex_val_exec(b[i + 11]);
                    if g3 >= 16 || g2 >= 16 || g1 >= 16 || g0 >= 16 {
                        return None;
                    }
                    let w: u32 = (g3 as u32) * 4096 + (g2 as u32) * 256 + (g1 as u32) * 16 + (
                    g0 as u32);
                    if !(0xDC00 <= w && w <= 0xDFFF) {
                        return None;
                    }
                    let u: u32 = 0x10000 + (v - 0xD800) * 0x400 + (w - 0xDC00);
                    let ch: char = char_from_scalar(u);
                    let ghost before = acc@;
                    acc.push(ch);
                    proof {
                        assert(acc@ =~= before.push(ch));
                        assert forall|s2: Seq<char>| true implies before + (seq![ch] + s2) =~= acc@
                            + s2 by {}
                    }
                    i = i + 12;
                } else {
                    let ch: char = char_from_scalar(v);
                    let ghost before = acc@;
                    acc.push(ch);
                    proof {
                        assert(acc@ =~= before.push(ch));
                        assert forall|s2: Seq<char>| true implies before + (seq![ch] + s2) =~= acc@
                            + s2 by {}
                    }
                    i = i + 6;
                }
            } else {
                return None;
            }
        } else if 32 <= c && c <= 126 {
            let ghost before = acc@;
            acc.push(c as char);
            proof {
                assert(acc@ =~= before.push((c as char)));
                assert forall|s2: Seq<char>| true implies before + (seq![(c as char)] + s2) =~= acc@
                    + s2 by {}
            }
            i = i + 1;
        } else if 0xC2 <= c && c <= 0xDF {
            if n - i < 2 || !cont_at(b, i + 1) {
                return None;
            }
            let v: u32 = ((c - 0xC0) as u32) * 64 + ((b[i + 1] - 0x80) as u32);
            let ch: char = char_from_scalar(v);
            let ghost before = acc@;
            acc.push(ch);
            proof {
                assert(acc@ =~= before.push(ch));
                assert forall|s2: Seq<char>| true implies before + (seq![ch] + s2) =~= acc@
                    + s2 by {}
            }
            i = i + 2;
        } else if 0xE0 <= c && c <= 0xEF {
            if n - i < 3 || !cont_at(b, i + 1) || !cont_at(b, i + 2) {
                return None;
            }
            let v: u32 = ((c - 0xE0) as u32) * 4096 + ((b[i + 1] - 0x80) as u32) * 64 + ((b[i + 2]
                - 0x80) as u32);
            if !(0x800 <= v) || (0xD800 <= v && v <= 0xDFFF) {
                return None;
            }
            let ch: char = char_from_scalar(v);
            let ghost before = acc@;
            acc.push(ch);
            proof {
                assert(acc@ =~= before.push(ch));
                assert forall|s2: Seq<char>| true implies before + (seq![ch] + s2) =~= acc@
                    + s2 by {}
            }
            i = i + 3;
        } else if 0xF0 <= c && c <= 0xF4 {
            if n - i < 4 || !cont_at(b, i + 1) || !cont_at(b, i + 2) || !cont_at(b, i + 3) {
                return None;
            }
            let v: u32 = ((c - 0xF0) as u32) * 0x40000 + ((b[i + 1] - 0x80) as u32) * 4096 + ((b[i
                + 2] - 0x80) as u32) * 64 + ((b[i + 3] - 0x80) as u32);
            if !(0x10000 <= v && v <= 0x10FFFF) {
                return None;
            }
            let ch: char = char_from_scalar(v);
            let ghost before = acc@;
            acc.push(ch);
            proof {
                assert(acc@ =~= before.push(ch));
                assert forall|s2: Seq<char>| true implies before + (seq![ch] + s2) =~= acc@
                    + s2 by {}
            }
            i = i + 4;
        } else {
            return None;
        }
    }
}

/// Whether the byte at `j` is a UTF-8 continuation byte.
fn cont_at(b: &Vec<u8>, j: usize) -> (r: bool)
    requires
        j < b@.len(),
    ensures
        r == is_cont(b@[j as int]),
{
    let c: u8 = b[j];
    0x80 <= c && c <= 0xBF
}

/// Reads a price, executably.
fn parse_price_exec(b: &Vec<u8>, i: usize) -> (r: Option<(Option<u32>, usize)>)
    requires
        i <= b@.len(),
    ensures
        match r {
            Some((p, j)) => parse_price(b@, i as int) == Some((p, j as int)) && j <= b@.len(),
            None => parse_price(b@, i as int) is None,
        },
{
    let nul: Vec<u8> = vec![110u8, 117u8, 108u8, 108u8];
    proof {
        assert(nul@ =~= lit_null());
    }
    match parse_lit_exec(b, i, &nul) {
        Some(j) => Some((None, j)),
        None => match parse_uint_exec(b, i) {
            Some((v, j)) => {
                if v > 0xFFFF_FFFFu64 {
                    None
                } else {
                    Some((Some(v as u32), j))
                }
            },
            None => None,
        },
    }
}

/// Reads a flag, executably.
fn parse_bool_exec(b: &Vec<u8>, i: usize) -> (r: Option<(bool, usize)>)
    requires
        i <= b@.len(),
    ensures
        match r {
            Some((v, j)) => parse_bool(b@, i as int) == Some((v, j as int)) && j <= b@.len(),
            None => parse_bool(b@, i as int) is None,
        },
{
    let t: Vec<u8> = vec![116u8, 114u8, 117u8, 101u8];
    let f: Vec<u8> = vec![102u8, 97u8, 108u8, 115u8, 101u8];
    proof {
        assert(t@ =~= lit_true());
        assert(f@ =~= lit_false());
    }
    match parse_lit_exec(b, i, &t) {
        Some(j) => Some((true, j)),
        None => match parse_lit_exec(b, i, &f) {
            Some(j) => Some((false, j)),
            None => None,
        },
    }
}


/// Reads one entry object, executably.
#[verifier::rlimit(100)]
#[verifier::spinoff_prover]
fn parse_entry_exec(b: &Vec<u8>, i: usize) -> (r: Option<(RolexForumsEntry, usize)>)
    requires
        i <= b@.len(),
    ensures
        match r {
            Some((e, j)) => parse_entry(b@, i as int) == Some((e@, j as int)) && j <= b@.len(),
            None => parse_entry(b@, i as int) is None,
        },
{
    let l_id: Vec<u8> = vec![123u8, 34u8, 105u8, 100u8, 34u8, 58u8];
    let l_ts: Vec<u8> = vec![44u8, 34u8, 116u8, 105u8, 109u8, 101u8, 115u8, 116u8, 97u8, 109u8, 112u8, 34u8, 58u8];
    let l_price: Vec<u8> = vec![44u8, 34u8, 112u8, 114u8, 105u8, 99u8, 101u8, 34u8, 58u8];
    let l_sold: Vec<u8> = vec![44u8, 34u8, 105u8, 115u8, 95u8, 115u8, 111u8, 108u8, 100u8, 34u8, 58u8];
    let l_brand: Vec<u8> = vec![44u8, 34u8, 98u8, 114u8, 97u8, 110u8, 100u8, 34u8, 58u8, 34u8];
    let l_model: Vec<u8> = vec![44u8, 34u8, 109u8, 111u8, 100u8, 101u8, 108u8, 95u8, 110u8, 111u8, 34u8, 58u8, 34u8];
    let l_close: Vec<u8> = vec![125u8];
    proof {
        assert(l_id@ =~= lit_e_id());
        assert(l_ts@ =~= lit_e_ts());
        assert(l_price@ =~= lit_e_price());
        assert(l_sold@ =~= lit_e_sold());
        assert(l_brand@ =~= lit_e_brand());
        assert(l_model@ =~= lit_p_model());
        assert(l_close@ =~= lit_d_close());
    }
    let j1: usize = match parse_lit_exec(b, i, &l_id) {
        Some(j) => j,
        None => {
            return None;
        },
    };
    let (idv, j2): (u64, usize) = match parse_uint_exec(b, j1) {
        Some(p) => p,
        None => {
            return None;
        },
    };
    let j3: usize = match parse_lit_exec(b, j2, &l_ts) {
        Some(j) => j,
        None => {
            return None;
        },
    };
    let (tsv, j4): (i64, usize) = match parse_int_exec(b, j3) {
        Some(p) => p,
        None => {
            return None;
        },
    };
    let j5: usize = match parse_lit_exec(b, j4, &l_price) {
        Some(j) => j,
        None => {
            return None;
        },
    };
    let (pr, j6): (Option<u32>, usize) = match parse_price_exec(b, j5) {
        Some(p) => p,
        None => {
            return None;
        },
    };
    let j7: usize = match parse_lit_exec(b, j6, &l_sold) {
        Some(j) => j,
        None => {
            return None;
        },
    };
    let (so, j8): (bool, usize) = match parse_bool_exec(b, j7) {
        Some(p) => p,
        None => {
            return None;
        },
    };
    let j9: usize = match parse_lit_exec(b, j8, &l_brand) {
        Some(j) => j,
        None => {
            return None;
        },
    };
    let (br, j10): (Vec<char>, usize) = match parse_str_exec(b, j9) {
        Some(p) => p,
        None => {
            return None;
        },
    };
    let j11: usize = match parse_lit_exec(b, j10, &l_model) {
        Some(j) => j,
        None => {
            return None;
        },
    };
    let (mo, j12): (Vec<char>, usize) = match parse_str_exec(b, j11) {
        Some(p) => p,
        None => {
            return None;
        },
    };
    let j13: usize = match parse_lit_exec(b, j12, &l_close) {
        Some(j) => j,
        None => {
            return None;
        },
    };
    let e = RolexForumsEntry {
        id: idv,
        timestamp: tsv,
        price: pr,
        is_sold: so,
        brand: crate::text::chars_to_string(&br),
        model_no: crate::text::chars_to_string(&mo),
    };
    Some((e, j13))
}

/// Reads a comma-separated entry list, executably.
fn parse_entries_exec(b: &Vec<u8>, i: usize, fuel: usize) -> (r: Option<(
    Vec<RolexForumsEntry>,
    usize,
)>)
    requires
        i <= b@.len(),
    ensures
        match r {
            Some((v, j)) => parse_entries_rest(b@, i as int, fuel as nat) == Some(
                (v.deep_view(), j as int),
            ) && j <= b@.len(),
            None => parse_entries_rest(b@, i as int, fuel as nat) is None,
        },
    decreases fuel,
{
    if fuel == 0 {
        return None;
    }
    match parse_entry_exec(b, i) {
        None => None,
        Some((e, j)) => {
            if j < b.len() && b[j] == 44 {
                match parse_entries_exec(b, j + 1, fuel - 1) {
                    Some((s, k)) => {
                        let ghost tailv = s.deep_view();
                        let mut v: Vec<RolexForumsEntry> = Vec::new();
                        v.push(e);
                        let mut rest: Vec<RolexForumsEntry> = s;
                        let mut m: usize = 0;
                        while m < rest.len()
                            invariant
                                tailv == rest.deep_view(),
                                tailv.len() == rest@.len(),
                                m <= rest@.len(),
                                v.deep_view() =~~= seq![e@] + tailv.subrange(0, m as int),
                            decreases rest@.len() - m,
                        {
                            proof {
                                assert(rest.deep_view()[m as int] == rest@[m as int]@);
                                assert((seq![e@] + tailv.subrange(0, m + 1)) =~= (seq![e@]
                                    + tailv.subrange(0, m as int)).push(tailv[m as int]));
                            }
                            let x: RolexForumsEntry = rest[m].duplicate();
                            let ghost bv = v.deep_view();
                            v.push(x);
                            proof {
                                assert(v.deep_view() =~~= bv.push(tailv[m as int]));
                            }
                            m = m + 1;
                        }
                        proof {
                            assert(tailv.subrange(0, tailv.len() as int) =~= tailv);
                            assert(v.deep_view() =~~= seq![e@] + tailv);
                        }
                        Some((v, k))
                    },
                    None => None,
                }
            } else {
                let mut v: Vec<RolexForumsEntry> = Vec::new();
                v.push(e);
                proof {
                    assert(v.deep_view() =~~= seq![e@]);
                }
                Some((v, j))
            }
        },
    }
}

/// Decodes a snapshot back into a database. Yields nothing unless the
/// bytes hold exactly one canonical snapshot, as `decode_db_spec`
/// states.
#[verifier::rlimit(100)]
#[verifier::spinoff_prover]
pub fn decode_db(bytes: &Vec<u8>) -> (r: Option<PriceDatabase<RolexForumsEntry>>)
    ensures
        match r {
            Some(db) => decode_db_spec(bytes@) == Some(
                (db.name@, db.timestamp as int, db.entries.deep_view(), db.position as nat),
            ),
            None => decode_db_spec(bytes@) is None,
        },
{
    let l_name: Vec<u8> = vec![123u8, 34u8, 110u8, 97u8, 109u8, 101u8, 34u8, 58u8, 34u8];
    let l_ts: Vec<u8> = vec![44u8, 34u8, 116u8, 105u8, 109u8, 101u8, 115u8, 116u8, 97u8, 109u8, 112u8, 34u8, 58u8];
    let l_entries: Vec<u8> = vec![44u8, 34u8, 101u8, 110u8, 116u8, 114u8, 105u8, 101u8, 115u8, 34u8, 58u8, 91u8];
    let l_pos: Vec<u8> = vec![93u8, 44u8, 34u8, 112u8, 111u8, 115u8, 105u8, 116u8, 105u8, 111u8, 110u8, 34u8, 58u8];
    let l_close: Vec<u8> = vec![125u8];
    proof {
        assert(l_name@ =~= lit_d_name());
        assert(l_ts@ =~= lit_e_ts());
        assert(l_entries@ =~= lit_d_entries());
        assert(l_pos@ =~= lit_d_pos());
        assert(l_close@ =~= lit_d_close());
    }
    let j1: usize = match parse_lit_exec(bytes, 0, &l_name) {
        Some(j) => j,
        None => {
            return None;
        },
    };
    let (name, j2): (Vec<char>, usize) = match parse_str_exec(bytes, j1) {
        Some(p) => p,
        None => {
            return None;
        },
    };
    let j3: usize = match parse_lit_exec(bytes, j2, &l_ts) {
        Some(j) => j,
        None => {
            return None;
        },
    };
    let (tsv, j4): (i64, usize) = match parse_int_exec(bytes, j3) {
        Some(p) => p,
        None => {
            return None;
        },
    };
    let j5: usize = match parse_lit_exec(bytes, j4, &l_entries) {
        Some(j) => j,
        None => {
            return None;
        },
    };
    let (entries, j6): (Vec<RolexForumsEntry>, usize) = if j5 < bytes.len() && bytes[j5] == 123 {
        match parse_entries_exec(bytes, j5, bytes.len()) {
            Some(p) => p,
            None => {
                return None;
            },
        }
    } else {
        let v: Vec<RolexForumsEntry> = Vec::new();
        proof {
            assert(v.deep_view() =~~= Seq::<EntryView>::empty());
        }
        (v, j5)
    };
    let j7: usize = match parse_lit_exec(bytes, j6, &l_pos) {
        Some(j) => j,
        None => {
            return None;
        },
    };
    let (pv, j8): (u64, usize) = match parse_uint_exec(bytes, j7) {
        Some(p) => p,
        None => {
            return None;
        },
    };
    if pv > usize::MAX as u64 {
        return None;
    }
    let j9: usize = match parse_lit_exec(bytes, j8, &l_close) {
        Some(j) => j,
        None => {
            return None;
        },
    };
    if j9 != bytes.len() {
        return None;
    }
    Some(
        PriceDatabase {
            name: crate::text::chars_to_string(&name),
            timestamp: tsv,
            entries,
            position: pv as usize,
        },
    )
}

} // verus!
