//! Byte-level text helpers: trimming, case folding, line and field
//! splitting, and decimal numbers. The stores are line-oriented text
//! files, so all of their parsing and rendering bottoms out here.

use vstd::prelude::*;

verus! {

/// Bytes that end or separate fields within a line: space, tab,
/// carriage return, line feed and comma.
pub open spec fn is_sep_byte(b: u8) -> bool {
    b == 32 || b == 9 || b == 13 || b == 10 || b == 44
}

/// Bytes trimmed from the ends of a raw name: ASCII whitespace.
pub open spec fn is_blank_byte(b: u8) -> bool {
    b == 32 || b == 9 || b == 13 || b == 10
}

/// ASCII upper-case letters fold to lower case; all else is unchanged.
pub open spec fn lower_byte(b: u8) -> u8 {
    if 65 <= b && b <= 90 {
        (b + 32) as u8
    } else {
        b
    }
}

pub open spec fn spec_lower(s: Seq<u8>) -> Seq<u8> {
    s.map_values(|b: u8| lower_byte(b))
}

pub open spec fn spec_trim_front(s: Seq<u8>) -> Seq<u8>
    decreases s.len(),
{
    if s.len() > 0 && is_blank_byte(s.first()) {
        spec_trim_front(s.drop_first())
    } else {
        s
    }
}

pub open spec fn spec_trim_back(s: Seq<u8>) -> Seq<u8>
    decreases s.len(),
{
    if s.len() > 0 && is_blank_byte(s.last()) {
        spec_trim_back(s.drop_last())
    } else {
        s
    }
}

/// A raw name with leading and trailing ASCII whitespace removed.
pub open spec fn spec_trim(s: Seq<u8>) -> Seq<u8> {
    spec_trim_back(spec_trim_front(s))
}

/// The normal form under which identities are compared: trimmed and
/// case-folded.
pub open spec fn spec_norm(s: Seq<u8>) -> Seq<u8> {
    spec_lower(spec_trim(s))
}

/// A name the stores can hold: non-empty and free of separator bytes,
/// so that it survives a line- and field-oriented file intact.
pub open spec fn valid_name(s: Seq<u8>) -> bool {
    s.len() > 0 && forall|i: int| 0 <= i < s.len() ==> !is_sep_byte(#[trigger] s[i])
}

pub fn byte_is_sep(b: u8) -> (r: bool)
    ensures
        r == is_sep_byte(b),
{
    b == 32 || b == 9 || b == 13 || b == 10 || b == 44
}

pub fn byte_is_blank(b: u8) -> (r: bool)
    ensures
        r == is_blank_byte(b),
{
    b == 32 || b == 9 || b == 13 || b == 10
}

/// Removes leading and trailing ASCII whitespace.
pub fn trim_bytes(s: &[u8]) -> (r: Vec<u8>)
    ensures
        r@ == spec_trim(s@),
{
    let len: usize = s.len();
    proof {
        assert(s@.subrange(0, len as int) =~= s@);
    }
    let mut lo: usize = 0;
    while lo < len && byte_is_blank(s[lo])
        invariant
            0 <= lo <= len,
            len == s@.len(),
            spec_trim_front(s@) == spec_trim_front(s@.subrange(lo as int, len as int)),
        decreases len - lo,
    {
        proof {
            let sub = s@.subrange(lo as int, len as int);
            assert(sub.drop_first() =~= s@.subrange(lo as int + 1, len as int));
        }
        lo = lo + 1;
    }
    proof {
        assert(spec_trim_front(s@) == s@.subrange(lo as int, len as int));
    }
    let mut hi: usize = len;
    while hi > lo && byte_is_blank(s[hi - 1])
        invariant
            0 <= lo <= hi <= len,
            len == s@.len(),
            spec_trim(s@) == spec_trim_back(s@.subrange(lo as int, hi as int)),
        decreases hi,
    {
        proof {
            let sub = s@.subrange(lo as int, hi as int);
            assert(sub.drop_last() =~= s@.subrange(lo as int, hi as int - 1));
        }
        hi = hi - 1;
    }
    proof {
        assert(spec_trim(s@) == s@.subrange(lo as int, hi as int));
    }
    let mut r: Vec<u8> = Vec::new();
    let mut i: usize = lo;
    while i < hi
        invariant
            lo <= i <= hi <= len,
            len == s@.len(),
            r@ == s@.subrange(lo as int, i as int),
        decreases hi - i,
    {
        r.push(s[i]);
        proof {
            assert(r@ =~= s@.subrange(lo as int, i as int + 1));
        }
        i = i + 1;
    }
    proof {
        assert(r@ == s@.subrange(lo as int, hi as int));
    }
    r
}

/// Case-folds every byte.
pub fn lower_bytes(s: &[u8]) -> (r: Vec<u8>)
    ensures
        r@ == spec_lower(s@),
{
    let len: usize = s.len();
    let mut r: Vec<u8> = Vec::new();
    let mut i: usize = 0;
    while i < len
        invariant
            0 <= i <= len,
            len == s@.len(),
            r@ == spec_lower(s@.take(i as int)),
        decreases len - i,
    {
        let b: u8 = s[i];
        let f: u8 = if 65 <= b && b <= 90 {
            b + 32
        } else {
            b
        };
        r.push(f);
        proof {
            assert(r@ =~= spec_lower(s@.take(i as int + 1)));
        }
        i = i + 1;
    }
    proof {
        assert(s@.take(len as int) =~= s@);
    }
    r
}

/// Trims, then case-folds: the normal form of a raw name.
pub fn normalize(s: &[u8]) -> (r: Vec<u8>)
    ensures
        r@ == spec_norm(s@),
{
    let t = trim_bytes(s);
    lower_bytes(t.as_slice())
}

pub fn is_valid_name(s: &[u8]) -> (r: bool)
    ensures
        r == valid_name(s@),
{
    let len: usize = s.len();
    if len == 0 {
        return false;
    }
    let mut i: usize = 0;
    while i < len
        invariant
            0 <= i <= len,
            len == s@.len(),
            forall|j: int| 0 <= j < i ==> !is_sep_byte(#[trigger] s@[j]),
        decreases len - i,
    {
        if byte_is_sep(s[i]) {
            return false;
        }
        i = i + 1;
    }
    true
}

pub fn bytes_eq(a: &[u8], b: &[u8]) -> (r: bool)
    ensures
        r == (a@ == b@),
{
    let len: usize = a.len();
    if b.len() != len {
        return false;
    }
    let mut i: usize = 0;
    while i < len
        invariant
            0 <= i <= len,
            len == a@.len() == b@.len(),
            forall|j: int| 0 <= j < i ==> a@[j] == b@[j],
        decreases len - i,
    {
        if a[i] != b[i] {
            return false;
        }
        i = i + 1;
    }
    proof {
        assert(a@ =~= b@);
    }
    true
}

/// Appends all of `src` to `dst`.
pub fn push_all(dst: &mut Vec<u8>, src: &[u8])
    ensures
        final(dst)@ == old(dst)@ + src@,
{
    let len: usize = src.len();
    let mut i: usize = 0;
    while i < len
        invariant
            0 <= i <= len,
            len == src@.len(),
            dst@ == old(dst)@ + src@.take(i as int),
        decreases len - i,
    {
        dst.push(src[i]);
        proof {
            assert(old(dst)@ + src@.take(i as int) + seq![src@[i as int]] =~= old(dst)@ + src@.take(
                i as int + 1,
            ));
        }
        i = i + 1;
    }
    proof {
        assert(old(dst)@ + src@.take(len as int) =~= old(dst)@ + src@);
    }
}

pub open spec fn is_digit(b: u8) -> bool {
    48 <= b && b <= 57
}

pub open spec fn all_digits(s: Seq<u8>) -> bool {
    forall|i: int| 0 <= i < s.len() ==> is_digit(#[trigger] s[i])
}

/// The number a run of digit bytes denotes.
pub open spec fn digits_val(s: Seq<u8>) -> int
    decreases s.len(),
{
    if s.len() == 0 {
        0
    } else {
        digits_val(s.drop_last()) * 10 + (s.last() - 48)
    }
}

/// How a decimal field is read: a non-empty, all-digit token whose
/// value fits in a `u64`, else nothing.
pub open spec fn spec_parse_u64(s: Seq<u8>) -> Option<u64> {
    if s.len() > 0 && all_digits(s) && digits_val(s) <= u64::MAX {
        Some(digits_val(s) as u64)
    } else {
        None
    }
}

/// The canonical decimal rendering of a number: no sign, no leading
/// zeros (except for the number zero itself).
pub open spec fn spec_dec(n: nat) -> Seq<u8>
    decreases n,
    via spec_dec_decreases
{
    if n < 10 {
        seq![(48 + n) as u8]
    } else {
        spec_dec((n / 10) as nat) + seq![(48 + n % 10) as u8]
    }
}

#[via_fn]
proof fn spec_dec_decreases(n: nat) {
    if n >= 10 {
        vstd::arithmetic::div_mod::lemma_div_decreases(n as int, 10);
    }
}

pub proof fn lemma_digits_val_nonneg(s: Seq<u8>)
    requires
        all_digits(s),
    ensures
        digits_val(s) >= 0,
    decreases s.len(),
{
    if s.len() > 0 {
        lemma_digits_val_nonneg(s.drop_last());
    }
}

/// A digit run is worth at least any of its prefixes.
pub proof fn lemma_digits_val_prefix(s: Seq<u8>, k: int)
    requires
        all_digits(s),
        0 <= k <= s.len(),
    ensures
        digits_val(s.take(k)) <= digits_val(s),
    decreases s.len() - k,
{
    if k < s.len() {
        assert(s.take(k + 1).drop_last() =~= s.take(k));
        assert(all_digits(s.take(k)));
        lemma_digits_val_nonneg(s.take(k));
        assert(digits_val(s.take(k + 1)) == digits_val(s.take(k)) * 10 + (s[k] - 48));
        lemma_digits_val_prefix(s, k + 1);
    } else {
        assert(s.take(k) =~= s);
    }
}

/// The digits of `spec_dec(n)` denote `n` again.
pub proof fn lemma_dec_digits(n: nat)
    ensures
        spec_dec(n).len() > 0,
        all_digits(spec_dec(n)),
        digits_val(spec_dec(n)) == n,
    decreases n,
{
    if n < 10 {
        let s = spec_dec(n);
        assert(s.drop_last() =~= Seq::<u8>::empty());
        assert(digits_val(Seq::<u8>::empty()) == 0);
        assert(digits_val(s) == 0 * 10 + (s.last() - 48));
    } else {
        vstd::arithmetic::div_mod::lemma_div_decreases(n as int, 10);
        lemma_dec_digits((n / 10) as nat);
        let hd = spec_dec((n / 10) as nat);
        let s = spec_dec(n);
        vstd::arithmetic::div_mod::lemma_fundamental_div_mod(n as int, 10);
        vstd::arithmetic::div_mod::lemma_mod_division_less_than_divisor(n as int, 10);
        assert(s.drop_last() =~= hd);
        assert(s.last() == (48 + n % 10) as u8);
        assert forall|i: int| 0 <= i < s.len() implies is_digit(#[trigger] s[i]) by {
            if i < hd.len() {
                assert(s[i] == hd[i]);
            }
        }
        assert(digits_val(s) == digits_val(hd) * 10 + (s.last() - 48));
    }
}

/// Parsing inverts rendering: a rendered `u64` reads back as itself.
pub proof fn lemma_parse_dec(n: u64)
    ensures
        spec_parse_u64(spec_dec(n as nat)) == Some(n),
{
    lemma_dec_digits(n as nat);
}

proof fn lemma_mul10_low(acc: int, d: int, m: int)
    requires
        0 <= d <= 9,
        0 <= acc,
        0 <= m,
        acc <= (m - d) / 10,
    ensures
        acc * 10 + d <= m,
{
    vstd::arithmetic::div_mod::lemma_fundamental_div_mod(m - d, 10);
    vstd::arithmetic::div_mod::lemma_mod_division_less_than_divisor(m - d, 10);
    let q = (m - d) / 10;
    assert(acc * 10 <= q * 10) by (nonlinear_arith)
        requires
            acc <= q,
    ;
}

proof fn lemma_mul10_high(acc: int, d: int, m: int)
    requires
        0 <= d <= 9,
        0 <= acc,
        0 <= m,
        acc > (m - d) / 10,
    ensures
        acc * 10 + d > m,
{
    vstd::arithmetic::div_mod::lemma_fundamental_div_mod(m - d, 10);
    vstd::arithmetic::div_mod::lemma_mod_division_less_than_divisor(m - d, 10);
    let q = (m - d) / 10;
    assert(acc * 10 >= (q + 1) * 10) by (nonlinear_arith)
        requires
            acc >= q + 1,
    ;
}

/// Reads a decimal `u64` from a byte token, refusing anything that is
/// not a pure digit run or does not fit.
pub fn parse_u64(s: &[u8]) -> (r: Option<u64>)
    ensures
        r == spec_parse_u64(s@),
{
    let len: usize = s.len();
    if len == 0 {
        return None;
    }
    let mut acc: u64 = 0;
    let mut i: usize = 0;
    while i < len
        invariant
            0 <= i <= len,
            len == s@.len(),
            all_digits(s@.take(i as int)),
            acc == digits_val(s@.take(i as int)),
        decreases len - i,
    {
        let b: u8 = s[i];
        if b < 48 || b > 57 {
            return None;
        }
        let d: u64 = (b - 48) as u64;
        proof {
            assert(s@.take(i as int + 1).drop_last() =~= s@.take(i as int));
            lemma_digits_val_nonneg(s@.take(i as int));
        }
        if acc > (u64::MAX - d) / 10 {
            proof {
                lemma_mul10_high(acc as int, d as int, u64::MAX as int);
                if all_digits(s@) {
                    lemma_digits_val_prefix(s@, i as int + 1);
                }
            }
            return None;
        }
        proof {
            lemma_mul10_low(acc as int, d as int, u64::MAX as int);
        }
        acc = acc * 10 + d;
        i = i + 1;
    }
    proof {
        assert(s@.take(len as int) =~= s@);
    }
    Some(acc)
}

/// Renders a `u64` in decimal.
pub fn fmt_u64(n: u64) -> (r: Vec<u8>)
    ensures
        r@ == spec_dec(n as nat),
{
    let mut tmp: Vec<u8> = Vec::new();
    let mut m: u64 = n;
    while m >= 10
        invariant
            spec_dec(n as nat) == spec_dec(m as nat) + tmp@.reverse(),
        decreases m,
    {
        let d: u8 = (m % 10) as u8 + 48;
        proof {
            vstd::arithmetic::div_mod::lemma_fundamental_div_mod(m as int, 10);
            vstd::arithmetic::div_mod::lemma_mod_division_less_than_divisor(m as int, 10);
            vstd::arithmetic::div_mod::lemma_div_decreases(m as int, 10);
            assert((tmp@ + seq![d]).reverse() =~= seq![d] + tmp@.reverse());
            assert(spec_dec((m / 10) as nat) + (seq![d] + tmp@.reverse()) =~= spec_dec(
                (m / 10) as nat,
            ) + seq![d] + tmp@.reverse());
            assert(spec_dec(m as nat) + tmp@.reverse() =~= spec_dec((m / 10) as nat) + seq![d]
                + tmp@.reverse());
        }
        tmp.push(d);
        m = m / 10;
    }
    let mut r: Vec<u8> = Vec::new();
    r.push(48 + m as u8);
    let tlen: usize = tmp.len();
    let mut k: usize = 0;
    while k < tlen
        invariant
            0 <= k <= tlen,
            tlen == tmp@.len(),
            m < 10,
            spec_dec(n as nat) == spec_dec(m as nat) + tmp@.reverse(),
            r@ == spec_dec(m as nat) + tmp@.reverse().take(k as int),
        decreases tlen - k,
    {
        r.push(tmp[tlen - 1 - k]);
        proof {
            assert(tmp@.reverse()[k as int] == tmp@[tlen - 1 - k as int]);
            assert(r@ =~= spec_dec(m as nat) + tmp@.reverse().take(k as int + 1));
        }
        k = k + 1;
    }
    proof {
        assert(tmp@.reverse().take(tlen as int) =~= tmp@.reverse());
    }
    r
}

/// The views of a sequence of byte vectors.
pub open spec fn seq_views(v: Seq<Vec<u8>>) -> Seq<Seq<u8>> {
    Seq::new(v.len(), |k: int| v[k]@)
}

/// Index of the first line feed, or the length if there is none.
pub open spec fn first_nl(s: Seq<u8>) -> nat
    decreases s.len(),
{
    if s.len() == 0 {
        0
    } else if s.first() == 10 {
        0
    } else {
        1 + first_nl(s.drop_first())
    }
}

pub proof fn lemma_first_nl(s: Seq<u8>)
    ensures
        first_nl(s) <= s.len(),
        first_nl(s) < s.len() ==> s[first_nl(s) as int] == 10,
        forall|j: int| 0 <= j < first_nl(s) ==> s[j] != 10,
    decreases s.len(),
{
    if s.len() > 0 && s.first() != 10 {
        lemma_first_nl(s.drop_first());
        assert forall|j: int| 0 <= j < first_nl(s) implies s[j] != 10 by {
            if j > 0 {
                assert(s.drop_first()[j - 1] != 10);
            }
        }
    }
}

pub proof fn lemma_first_nl_at(s: Seq<u8>, k: int)
    requires
        0 <= k <= s.len(),
        forall|j: int| 0 <= j < k ==> s[j] != 10,
        k < s.len() ==> s[k] == 10,
    ensures
        first_nl(s) == k,
{
    lemma_first_nl(s);
    let f = first_nl(s) as int;
    if f < k {
        assert(s[f] != 10);
    }
    if f > k {
        assert(s[k] != 10);
    }
}

/// The lines of a byte text, split on line feeds. A final fragment
/// with no terminator still counts as a line; the empty text has none.
pub open spec fn spec_lines(s: Seq<u8>) -> Seq<Seq<u8>>
    decreases s.len(),
{
    if s.len() == 0 {
        Seq::empty()
    } else {
        let i = first_nl(s) as int;
        if i < s.len() {
            seq![s.take(i)] + spec_lines(s.subrange(i + 1, s.len() as int))
        } else {
            seq![s]
        }
    }
}

/// Peeling one terminated, feed-free line off the front of a text.
pub proof fn lemma_lines_concat(line: Seq<u8>, rest: Seq<u8>)
    requires
        forall|j: int| 0 <= j < line.len() ==> line[j] != 10,
    ensures
        spec_lines(line + seq![10u8] + rest) == seq![line] + spec_lines(rest),
{
    let s = line + seq![10u8] + rest;
    assert(s[line.len() as int] == 10);
    lemma_first_nl_at(s, line.len() as int);
    assert(s.take(line.len() as int) =~= line);
    assert(s.subrange(line.len() as int + 1, s.len() as int) =~= rest);
}

/// Index of the first separator byte, or the length if there is none.
pub open spec fn first_sep(s: Seq<u8>) -> nat
    decreases s.len(),
{
    if s.len() == 0 {
        0
    } else if is_sep_byte(s.first()) {
        0
    } else {
        1 + first_sep(s.drop_first())
    }
}

pub proof fn lemma_first_sep(s: Seq<u8>)
    ensures
        first_sep(s) <= s.len(),
        first_sep(s) < s.len() ==> is_sep_byte(s[first_sep(s) as int]),
        forall|j: int| 0 <= j < first_sep(s) ==> !is_sep_byte(#[trigger] s[j]),
    decreases s.len(),
{
    if s.len() > 0 && !is_sep_byte(s.first()) {
        lemma_first_sep(s.drop_first());
        assert forall|j: int| 0 <= j < first_sep(s) implies !is_sep_byte(#[trigger] s[j]) by {
            if j > 0 {
                assert(!is_sep_byte(s.drop_first()[j - 1]));
            }
        }
    }
}

pub proof fn lemma_first_sep_at(s: Seq<u8>, k: int)
    requires
        0 <= k <= s.len(),
        forall|j: int| 0 <= j < k ==> !is_sep_byte(#[trigger] s[j]),
        k < s.len() ==> is_sep_byte(s[k]),
    ensures
        first_sep(s) == k,
{
    lemma_first_sep(s);
    let f = first_sep(s) as int;
    if f < k {
        assert(!is_sep_byte(s[f]));
    }
    if f > k {
        assert(!is_sep_byte(s[k]));
    }
}

/// The fields of a line: maximal runs of non-separator bytes, in
/// order; separators themselves are dropped.
pub open spec fn spec_fields(s: Seq<u8>) -> Seq<Seq<u8>>
    decreases s.len(),
    via spec_fields_decreases
{
    if s.len() == 0 {
        Seq::empty()
    } else if is_sep_byte(s.first()) {
        spec_fields(s.drop_first())
    } else {
        let t = first_sep(s) as int;
        seq![s.take(t)] + spec_fields(s.subrange(t, s.len() as int))
    }
}

#[via_fn]
proof fn spec_fields_decreases(s: Seq<u8>) {
    if s.len() > 0 && !is_sep_byte(s.first()) {
        lemma_first_sep(s);
        assert(first_sep(s) == 1 + first_sep(s.drop_first()));
    }
}

/// Every field of a line is a usable name: non-empty and free of
/// separator bytes, by construction of the split.
pub proof fn lemma_fields_valid(s: Seq<u8>)
    ensures
        forall|k: int| 0 <= k < spec_fields(s).len() ==> valid_name(#[trigger] spec_fields(s)[k]),
    decreases s.len(),
{
    if s.len() == 0 {
    } else if is_sep_byte(s.first()) {
        lemma_fields_valid(s.drop_first());
        assert(spec_fields(s) == spec_fields(s.drop_first()));
    } else {
        lemma_first_sep(s);
        let t = first_sep(s) as int;
        lemma_fields_valid(s.subrange(t, s.len() as int));
        assert(spec_fields(s) == seq![s.take(t)] + spec_fields(s.subrange(t, s.len() as int)));
        assert(valid_name(s.take(t)));
        assert forall|k: int| 0 <= k < spec_fields(s).len() implies valid_name(
            #[trigger] spec_fields(s)[k],
        ) by {
            if k > 0 {
                assert(spec_fields(s)[k] == spec_fields(s.subrange(t, s.len() as int))[k - 1]);
            }
        }
    }
}

/// Peeling one separator byte off the front of a line.
pub proof fn lemma_fields_sep(b: u8, rest: Seq<u8>)
    requires
        is_sep_byte(b),
    ensures
        spec_fields(seq![b] + rest) == spec_fields(rest),
{
    let s = seq![b] + rest;
    assert(s.drop_first() =~= rest);
}

/// Peeling one separator-free token off the front of a line.
pub proof fn lemma_fields_token(tok: Seq<u8>, rest: Seq<u8>)
    requires
        tok.len() > 0,
        forall|j: int| 0 <= j < tok.len() ==> !is_sep_byte(#[trigger] tok[j]),
        rest.len() > 0 ==> is_sep_byte(rest[0]),
    ensures
        spec_fields(tok + rest) == seq![tok] + spec_fields(rest),
{
    let s = tok + rest;
    assert(!is_sep_byte(s.first()));
    lemma_first_sep_at(s, tok.len() as int);
    assert(s.take(tok.len() as int) =~= tok);
    assert(s.subrange(tok.len() as int, s.len() as int) =~= rest);
}

/// Copies `s[lo..hi]` into a fresh vector.
pub fn copy_range(s: &[u8], lo: usize, hi: usize) -> (r: Vec<u8>)
    requires
        lo <= hi <= s@.len(),
    ensures
        r@ == s@.subrange(lo as int, hi as int),
{
    let mut r: Vec<u8> = Vec::new();
    let mut i: usize = lo;
    while i < hi
        invariant
            lo <= i <= hi <= s@.len(),
            r@ == s@.subrange(lo as int, i as int),
        decreases hi - i,
    {
        r.push(s[i]);
        proof {
            assert(r@ =~= s@.subrange(lo as int, i as int + 1));
        }
        i = i + 1;
    }
    r
}

/// Splits a byte text into its lines.
pub fn split_lines(s: &[u8]) -> (r: Vec<Vec<u8>>)
    ensures
        seq_views(r@) == spec_lines(s@),
{
    let len: usize = s.len();
    let mut r: Vec<Vec<u8>> = Vec::new();
    let mut i: usize = 0;
    proof {
        assert(s@.subrange(0, len as int) =~= s@);
        assert(seq_views(r@) =~= Seq::<Seq<u8>>::empty());
    }
    while i < len
        invariant
            0 <= i <= len,
            len == s@.len(),
            spec_lines(s@) == seq_views(r@) + spec_lines(s@.subrange(i as int, len as int)),
        decreases len - i,
    {
        let ghost prev = r@;
        let mut j: usize = i;
        while j < len && s[j] != 10
            invariant
                i <= j <= len,
                len == s@.len(),
                forall|k: int| i <= k < j ==> s@[k] != 10,
            decreases len - j,
        {
            j = j + 1;
        }
        let chunk = copy_range(s, i, j);
        r.push(chunk);
        proof {
            let sub = s@.subrange(i as int, len as int);
            assert forall|k: int| 0 <= k < j - i implies sub[k] != 10 by {
                assert(sub[k] == s@[i + k]);
            }
            if j < len {
                assert(sub[j - i] == s@[j as int]);
            }
            lemma_first_nl_at(sub, j - i);
            assert(sub.take(j - i) =~= s@.subrange(i as int, j as int));
            assert(seq_views(r@) =~= seq_views(prev) + seq![s@.subrange(i as int, j as int)]);
            if j < len {
                assert(sub.subrange(j - i + 1, sub.len() as int) =~= s@.subrange(
                    j as int + 1,
                    len as int,
                ));
                assert(spec_lines(sub) == seq![s@.subrange(i as int, j as int)] + spec_lines(
                    s@.subrange(j as int + 1, len as int),
                ));
                assert(seq_views(prev) + spec_lines(sub) =~= seq_views(r@) + spec_lines(
                    s@.subrange(j as int + 1, len as int),
                ));
            } else {
                assert(sub =~= s@.subrange(i as int, j as int));
                assert(spec_lines(sub) == seq![sub]);
                assert(s@.subrange(len as int, len as int) =~= Seq::<u8>::empty());
                assert(spec_lines(Seq::<u8>::empty()) == Seq::<Seq<u8>>::empty());
                assert(seq_views(prev) + spec_lines(sub) =~= seq_views(r@) + spec_lines(
                    s@.subrange(len as int, len as int),
                ));
            }
        }
        if j < len {
            i = j + 1;
        } else {
            i = len;
        }
    }
    proof {
        assert(s@.subrange(len as int, len as int) =~= Seq::<u8>::empty());
        assert(seq_views(r@) + spec_lines(Seq::<u8>::empty()) =~= seq_views(r@));
    }
    r
}

/// Splits a line into its fields.
pub fn split_fields(s: &[u8]) -> (r: Vec<Vec<u8>>)
    ensures
        seq_views(r@) == spec_fields(s@),
{
    let len: usize = s.len();
    let mut r: Vec<Vec<u8>> = Vec::new();
    let mut i: usize = 0;
    proof {
        assert(s@.subrange(0, len as int) =~= s@);
        assert(seq_views(r@) =~= Seq::<Seq<u8>>::empty());
    }
    while i < len
        invariant
            0 <= i <= len,
            len == s@.len(),
            spec_fields(s@) == seq_views(r@) + spec_fields(s@.subrange(i as int, len as int)),
        decreases len - i,
    {
        let ghost prev = r@;
        if byte_is_sep(s[i]) {
            proof {
                let sub = s@.subrange(i as int, len as int);
                assert(sub.drop_first() =~= s@.subrange(i as int + 1, len as int));
            }
            i = i + 1;
        } else {
            let mut j: usize = i;
            while j < len && !byte_is_sep(s[j])
                invariant
                    i <= j <= len,
                    len == s@.len(),
                    forall|k: int| i <= k < j ==> !is_sep_byte(#[trigger] s@[k]),
                decreases len - j,
            {
                j = j + 1;
            }
            let tok = copy_range(s, i, j);
            r.push(tok);
            proof {
                let sub = s@.subrange(i as int, len as int);
                assert forall|k: int| 0 <= k < j - i implies !is_sep_byte(#[trigger] sub[k]) by {
                    assert(sub[k] == s@[i + k]);
                }
                if j < len {
                    assert(sub[j - i] == s@[j as int]);
                }
                lemma_first_sep_at(sub, j - i);
                assert(sub.take(j - i) =~= s@.subrange(i as int, j as int));
                assert(!is_sep_byte(sub.first()));
                assert(sub.subrange(j - i, sub.len() as int) =~= s@.subrange(j as int, len as int));
                assert(spec_fields(sub) == seq![s@.subrange(i as int, j as int)] + spec_fields(
                    s@.subrange(j as int, len as int),
                ));
                assert(seq_views(r@) =~= seq_views(prev) + seq![s@.subrange(i as int, j as int)]);
                assert(seq_views(prev) + spec_fields(sub) =~= seq_views(r@) + spec_fields(
                    s@.subrange(j as int, len as int),
                ));
            }
            i = j;
        }
    }
    proof {
        assert(s@.subrange(len as int, len as int) =~= Seq::<u8>::empty());
        assert(seq_views(r@) + spec_fields(Seq::<u8>::empty()) =~= seq_views(r@));
    }
    r
}

} // verus!
