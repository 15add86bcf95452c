//! Byte-level text machinery shared by the record parsers and printers:
//! whitespace scanning, field splitting, trimming, and decimal integer
//! parsing and printing, each with an exact specification.

use vstd::prelude::*;

verus! {

/// The distinct, recoverable ways a text record can be malformed: too few
/// `|`-delimited fields, an unrecognised board character (or a board that
/// runs past the last square), an unparseable score, or an unrecognised
/// outcome token.
#[derive(Clone, Copy, Debug, PartialEq, Eq, Structural)]
pub enum ParseError {
    MissingFields,
    BadBoard,
    BadScore,
    BadOutcome,
}

/// ASCII whitespace, as recognised between the fields of a text record.
pub open spec fn is_space(b: u8) -> bool {
    b == 32 || b == 9 || b == 10 || b == 13 || b == 11 || b == 12
}

pub open spec fn is_digit(b: u8) -> bool {
    48 <= b <= 57
}

/// Number of leading bytes of `s` satisfying "is a space".
pub open spec fn lead_spaces(s: Seq<u8>) -> int
    decreases s.len(),
{
    if s.len() == 0 || !is_space(s[0]) {
        0
    } else {
        1 + lead_spaces(s.drop_first())
    }
}

/// Number of leading bytes of `s` that are not spaces: the length of the
/// whitespace-delimited token starting at `s`.
pub open spec fn lead_nonspaces(s: Seq<u8>) -> int
    decreases s.len(),
{
    if s.len() == 0 || is_space(s[0]) {
        0
    } else {
        1 + lead_nonspaces(s.drop_first())
    }
}

/// Number of leading bytes of `s` different from `c`: the position of the
/// first `c`, or the length of `s` if there is none.
pub open spec fn lead_until(s: Seq<u8>, c: u8) -> int
    decreases s.len(),
{
    if s.len() == 0 || s[0] == c {
        0
    } else {
        1 + lead_until(s.drop_first(), c)
    }
}

/// Number of trailing spaces of `s`.
pub open spec fn trail_spaces(s: Seq<u8>) -> int
    decreases s.len(),
{
    if s.len() == 0 || !is_space(s.last()) {
        0
    } else {
        1 + trail_spaces(s.drop_last())
    }
}

pub proof fn lemma_lead_spaces_le(s: Seq<u8>)
    ensures
        0 <= lead_spaces(s) <= s.len(),
        lead_spaces(s) < s.len() ==> !is_space(s[lead_spaces(s)]),
        forall|k: int| 0 <= k < lead_spaces(s) ==> is_space(s[k]),
    decreases s.len(),
{
    if s.len() > 0 && is_space(s[0]) {
        lemma_lead_spaces_le(s.drop_first());
        assert forall|k: int| 0 <= k < lead_spaces(s) implies is_space(s[k]) by {
            if k > 0 {
                assert(s.drop_first()[k - 1] == s[k]);
            }
        }
    }
}

pub proof fn lemma_lead_nonspaces_le(s: Seq<u8>)
    ensures
        0 <= lead_nonspaces(s) <= s.len(),
    decreases s.len(),
{
    if s.len() > 0 && !is_space(s[0]) {
        lemma_lead_nonspaces_le(s.drop_first());
    }
}

pub proof fn lemma_lead_until_le(s: Seq<u8>, c: u8)
    ensures
        0 <= lead_until(s, c) <= s.len(),
    decreases s.len(),
{
    if s.len() > 0 && s[0] != c {
        lemma_lead_until_le(s.drop_first(), c);
    }
}

pub proof fn lemma_trail_spaces_le(s: Seq<u8>)
    ensures
        0 <= trail_spaces(s) <= s.len(),
    decreases s.len(),
{
    if s.len() > 0 && is_space(s.last()) {
        lemma_trail_spaces_le(s.drop_last());
    }
}

/// `s` with leading and trailing whitespace removed.
pub open spec fn trim(s: Seq<u8>) -> Seq<u8> {
    let a = lead_spaces(s);
    if a == s.len() {
        Seq::empty()
    } else {
        s.subrange(a, s.len() - trail_spaces(s))
    }
}

/// Position of the first non-space byte of `s` at or after `i`.
pub fn skip_spaces(s: &[u8], i: usize) -> (j: usize)
    requires
        i <= s@.len(),
    ensures
        j == i + lead_spaces(s@.skip(i as int)),
        i <= j <= s@.len(),
{
    let mut k = i;
    proof {
        lemma_lead_spaces_le(s@.skip(i as int));
    }
    while k < s.len() && (s[k] == 32 || s[k] == 9 || s[k] == 10 || s[k] == 13 || s[k] == 11
        || s[k] == 12)
        invariant
            i <= k <= s@.len(),
            lead_spaces(s@.skip(i as int)) == (k - i) + lead_spaces(s@.skip(k as int)),
        decreases s@.len() - k,
    {
        proof {
            assert(s@.skip(k as int).drop_first() =~= s@.skip(k + 1));
            lemma_lead_spaces_le(s@.skip(k + 1));
        }
        k += 1;
    }
    proof {
        if k < s@.len() {
            assert(s@.skip(k as int)[0] == s@[k as int]);
        } else {
            assert(s@.skip(k as int).len() == 0);
        }
    }
    k
}

/// Position of the first space at or after `i`, or the end of `s`.
pub fn scan_token(s: &[u8], i: usize) -> (j: usize)
    requires
        i <= s@.len(),
    ensures
        j == i + lead_nonspaces(s@.skip(i as int)),
        i <= j <= s@.len(),
{
    let mut k = i;
    proof {
        lemma_lead_nonspaces_le(s@.skip(i as int));
    }
    while k < s.len() && !(s[k] == 32 || s[k] == 9 || s[k] == 10 || s[k] == 13 || s[k] == 11
        || s[k] == 12)
        invariant
            i <= k <= s@.len(),
            lead_nonspaces(s@.skip(i as int)) == (k - i) + lead_nonspaces(s@.skip(k as int)),
        decreases s@.len() - k,
    {
        proof {
            assert(s@.skip(k as int).drop_first() =~= s@.skip(k + 1));
            lemma_lead_nonspaces_le(s@.skip(k + 1));
        }
        k += 1;
    }
    proof {
        if k < s@.len() {
            assert(s@.skip(k as int)[0] == s@[k as int]);
        } else {
            assert(s@.skip(k as int).len() == 0);
        }
    }
    k
}

/// Position of the first `c` at or after `i`, or the end of `s`.
pub fn find_byte(s: &[u8], i: usize, c: u8) -> (j: usize)
    requires
        i <= s@.len(),
    ensures
        j == i + lead_until(s@.skip(i as int), c),
        i <= j <= s@.len(),
{
    let mut k = i;
    proof {
        lemma_lead_until_le(s@.skip(i as int), c);
    }
    while k < s.len() && s[k] != c
        invariant
            i <= k <= s@.len(),
            lead_until(s@.skip(i as int), c) == (k - i) + lead_until(s@.skip(k as int), c),
        decreases s@.len() - k,
    {
        proof {
            assert(s@.skip(k as int).drop_first() =~= s@.skip(k + 1));
            lemma_lead_until_le(s@.skip(k + 1), c);
        }
        k += 1;
    }
    proof {
        if k < s@.len() {
            assert(s@.skip(k as int)[0] == s@[k as int]);
        } else {
            assert(s@.skip(k as int).len() == 0);
        }
    }
    k
}

/// `s` with surrounding whitespace removed.
pub fn trim_slice<'a>(s: &'a [u8]) -> (r: &'a [u8])
    ensures
        r@ == trim(s@),
{
    proof {
        assert(s@.skip(0) =~= s@);
    }
    let a = skip_spaces(s, 0);
    proof {
        lemma_lead_spaces_le(s@);
    }
    if a == s.len() {
        proof {
            assert(trim(s@) =~= Seq::<u8>::empty());
        }
        return vstd::slice::slice_subrange(s, 0, 0);
    }
    let mut b = s.len();
    proof {
        lemma_trail_spaces_le(s@);
        assert(s@.take(s@.len() as int) =~= s@);
    }
    while b > a && (s[b - 1] == 32 || s[b - 1] == 9 || s[b - 1] == 10 || s[b - 1] == 13 || s[b - 1]
        == 11 || s[b - 1] == 12)
        invariant
            a < s@.len(),
            a < b <= s@.len(),
            !is_space(s@[a as int]),
            trail_spaces(s@) == (s@.len() - b) + trail_spaces(s@.take(b as int)),
        decreases b,
    {
        proof {
            assert(s@.take(b as int).drop_last() =~= s@.take(b - 1));
            assert(s@.take(b as int).last() == s@[b - 1]);
            lemma_trail_spaces_le(s@.take(b - 1));
            assert(b - 1 > a);
        }
        b -= 1;
    }
    proof {
        assert(s@.take(b as int).last() == s@[b - 1]);
        assert(trail_spaces(s@.take(b as int)) == 0);
        assert(trail_spaces(s@) == s@.len() - b);
        assert(trim(s@) =~= s@.subrange(a as int, b as int));
    }
    vstd::slice::slice_subrange(s, a, b)
}

/// The rank fields of a board token: the segments between `/` separators,
/// in the order written.
pub open spec fn split_slash(s: Seq<u8>) -> Seq<Seq<u8>>
    decreases s.len(),
    via split_slash_decreases
{
    let i = lead_until(s, 47);
    if i == s.len() {
        seq![s]
    } else {
        seq![s.take(i)] + split_slash(s.skip(i + 1))
    }
}

#[via_fn]
proof fn split_slash_decreases(s: Seq<u8>) {
    lemma_lead_until_le(s, 47);
}

/// The segments of `s` named by a list of index pairs.
pub open spec fn rows_of(spans: Seq<(usize, usize)>, s: Seq<u8>) -> Seq<Seq<u8>> {
    Seq::new(spans.len(), |k: int| s.subrange(spans[k].0 as int, spans[k].1 as int))
}

/// Finds the `/`-separated segments of `s`, as index pairs.
pub fn collect_rows(s: &[u8]) -> (spans: Vec<(usize, usize)>)
    ensures
        rows_of(spans@, s@) == split_slash(s@),
        forall|k: int|
            0 <= k < spans@.len() ==> (#[trigger] spans@[k]).0 <= spans@[k].1 <= s@.len(),
{
    let mut spans: Vec<(usize, usize)> = Vec::new();
    let mut cur: usize = 0;
    proof {
        assert(rows_of(spans@, s@) =~= Seq::<Seq<u8>>::empty());
        assert(s@.skip(0) =~= s@);
    }
    loop
        invariant_except_break
            cur <= s@.len(),
            split_slash(s@) == rows_of(spans@, s@) + split_slash(s@.skip(cur as int)),
        invariant
            forall|k: int|
                0 <= k < spans@.len() ==> (#[trigger] spans@[k]).0 <= spans@[k].1 <= s@.len(),
        ensures
            rows_of(spans@, s@) == split_slash(s@),
        decreases s@.len() - cur,
    {
        let j = find_byte(s, cur, 47);
        let ghost spans0 = spans@;
        spans.push((cur, j));
        proof {
            let rest = s@.skip(cur as int);
            lemma_lead_until_le(rest, 47);
            let i = lead_until(rest, 47);
            assert(i == j - cur);
            if j == s@.len() {
                assert(rest =~= s@.subrange(cur as int, j as int));
                assert(split_slash(rest) == seq![rest]);
                assert(rows_of(spans@, s@) =~= rows_of(spans0, s@) + seq![
                    s@.subrange(cur as int, j as int),
                ]);
                assert(rows_of(spans@, s@) =~= split_slash(s@));
            } else {
                assert(rest.take(i) =~= s@.subrange(cur as int, j as int));
                assert(rest.skip(i + 1) =~= s@.skip(j + 1));
                assert(split_slash(rest) == seq![s@.subrange(cur as int, j as int)]
                    + split_slash(s@.skip(j + 1)));
                assert(rows_of(spans@, s@) =~= rows_of(spans0, s@) + seq![
                    s@.subrange(cur as int, j as int),
                ]);
                assert(rows_of(spans@, s@) + split_slash(s@.skip(j + 1)) =~= rows_of(spans0, s@)
                    + split_slash(rest));
            }
        }
        if j == s.len() {
            break ;
        }
        cur = j + 1;
    }
    spans
}

/// The value of an all-digit run, most significant digit first.
pub open spec fn digits_val(s: Seq<u8>) -> nat
    decreases s.len(),
{
    if s.len() == 0 {
        0
    } else {
        digits_val(s.drop_last()) * 10 + (s.last() - 48) as nat
    }
}

pub open spec fn all_digits(s: Seq<u8>) -> bool {
    forall|k: int| 0 <= k < s.len() ==> is_digit(#[trigger] s[k])
}

proof fn lemma_digits_val_take_step(s: Seq<u8>, i: int)
    requires
        0 <= i < s.len(),
        is_digit(s[i]),
    ensures
        digits_val(s.take(i + 1)) == digits_val(s.take(i)) * 10 + (s[i] - 48),
{
    assert(s.take(i + 1).drop_last() =~= s.take(i));
    assert(s.take(i + 1).last() == s[i]);
}

proof fn lemma_digits_val_grows(s: Seq<u8>, i: int)
    requires
        0 <= i <= s.len(),
    ensures
        digits_val(s) >= digits_val(s.take(i)),
    decreases s.len() - i,
{
    if i < s.len() {
        assert(s.take(i + 1).drop_last() =~= s.take(i));
        let v = digits_val(s.take(i));
        assert(digits_val(s.take(i + 1)) == v * 10 + (s.take(i + 1).last() - 48) as nat);
        assert(v * 10 >= v);
        lemma_digits_val_grows(s, i + 1);
    } else {
        assert(s.take(i) =~= s);
    }
}

/// The value of a digit run, when it is one and fits below the bound;
/// mirrors how the standard unsigned parsers accept a leading `+`.
pub open spec fn parse_unsigned(s: Seq<u8>, bound: nat) -> Option<nat> {
    let ds = if s.len() > 0 && s[0] == 43 {
        s.drop_first()
    } else {
        s
    };
    if ds.len() > 0 && all_digits(ds) && digits_val(ds) <= bound {
        Some(digits_val(ds))
    } else {
        None
    }
}

/// Digit-run scanner shared by the integer parsers: the value of
/// `s`, if `s` is a non-empty run of digits with value at most `bound`.
fn parse_digits(s: &[u8], bound: u32) -> (r: Option<u32>)
    ensures
        match r {
            Some(v) => s@.len() > 0 && all_digits(s@) && digits_val(s@) == v && v <= bound,
            None => s@.len() == 0 || !all_digits(s@) || digits_val(s@) > bound,
        },
{
    if s.len() == 0 {
        return None;
    }
    let mut acc: u32 = 0;
    let mut i: usize = 0;
    proof {
        assert(s@.take(0) =~= Seq::<u8>::empty());
    }
    while i < s.len()
        invariant
            0 <= i <= s@.len(),
            bound <= u32::MAX,
            acc == digits_val(s@.take(i as int)),
            acc <= bound,
            all_digits(s@.take(i as int)),
        decreases s@.len() - i,
    {
        let b = s[i];
        if b < 48 || b > 57 {
            assert(!is_digit(s@[i as int]));
            return None;
        }
        proof {
            lemma_digits_val_take_step(s@, i as int);
        }
        let d = (b - 48) as u32;
        let next: u64 = (acc as u64) * 10 + (d as u64);
        if next > bound as u64 {
            proof {
                assert(digits_val(s@.take(i + 1)) == acc * 10 + d);
                lemma_digits_val_grows(s@, i + 1);
            }
            return None;
        }
        acc = next as u32;
        proof {
            assert(forall|k: int| 0 <= k < i + 1 ==> is_digit(#[trigger] s@.take(i + 1)[k]));
        }
        i += 1;
    }
    proof {
        assert(s@.take(s@.len() as int) =~= s@);
    }
    Some(acc)
}

/// Value of an unsigned decimal token, or `None` when malformed or above
/// `bound`.
pub fn parse_unsigned_token(s: &[u8], bound: u32) -> (r: Option<u32>)
    ensures
        match r {
            Some(v) => parse_unsigned(s@, bound as nat) == Some(v as nat),
            None => parse_unsigned(s@, bound as nat) is None,
        },
{
    let ds = if s.len() > 0 && s[0] == 43 {
        proof {
            assert(s@.skip(1) =~= s@.drop_first());
        }
        vstd::slice::slice_subrange(s, 1, s.len())
    } else {
        s
    };
    parse_digits(ds, bound)
}

/// The signed score denoted by a decimal token, exactly when the token is
/// an optional sign followed by digits and the value is representable.
pub open spec fn parse_i16_spec(s: Seq<u8>) -> Option<i16> {
    if s.len() == 0 {
        None
    } else if s[0] == 45 {
        let ds = s.drop_first();
        if ds.len() > 0 && all_digits(ds) && digits_val(ds) <= 32768 {
            Some((-(digits_val(ds) as int)) as i16)
        } else {
            None
        }
    } else {
        let ds = if s[0] == 43 {
            s.drop_first()
        } else {
            s
        };
        if ds.len() > 0 && all_digits(ds) && digits_val(ds) <= 32767 {
            Some(digits_val(ds) as i16)
        } else {
            None
        }
    }
}

pub fn parse_i16_token(s: &[u8]) -> (r: Option<i16>)
    ensures
        r == parse_i16_spec(s@),
{
    if s.len() == 0 {
        return None;
    }
    if s[0] == 45 {
        proof {
            assert(s@.skip(1) =~= s@.drop_first());
        }
        let ds = vstd::slice::slice_subrange(s, 1, s.len());
        match parse_digits(ds, 32768) {
            Some(v) => Some((-(v as i32)) as i16),
            None => None,
        }
    } else {
        let ds = if s[0] == 43 {
            proof {
                assert(s@.skip(1) =~= s@.drop_first());
            }
            vstd::slice::slice_subrange(s, 1, s.len())
        } else {
            s
        };
        match parse_digits(ds, 32767) {
            Some(v) => Some(v as i16),
            None => None,
        }
    }
}

/// The decimal digits of `n`, most significant first, no leading zeros.
pub open spec fn dec_digits(n: nat) -> Seq<u8>
    decreases n,
{
    if n < 10 {
        seq![(48 + n) as u8]
    } else {
        dec_digits(n / 10) + seq![(48 + n % 10) as u8]
    }
}

/// Appends the decimal form of `n` to `v`.
pub fn push_dec(v: &mut Vec<u8>, n: u32)
    ensures
        final(v)@ == old(v)@ + dec_digits(n as nat),
    decreases n,
{
    if n < 10 {
        v.push(48 + n as u8);
        proof {
            assert(v@ =~= old(v)@ + dec_digits(n as nat));
        }
    } else {
        push_dec(v, n / 10);
        v.push(48 + (n % 10) as u8);
        proof {
            assert(v@ =~= old(v)@ + dec_digits(n as nat));
        }
    }
}

/// The decimal form of a signed score: a minus sign and the magnitude.
pub open spec fn dec_i16(x: i16) -> Seq<u8> {
    if x < 0 {
        seq![45u8] + dec_digits((-(x as int)) as nat)
    } else {
        dec_digits(x as nat)
    }
}

/// Appends the decimal form of `x` to `v`.
pub fn push_dec_i16(v: &mut Vec<u8>, x: i16)
    ensures
        final(v)@ == old(v)@ + dec_i16(x),
{
    if x < 0 {
        v.push(45);
        let m = -(x as i32);
        push_dec(v, m as u32);
        proof {
            assert(v@ =~= old(v)@ + dec_i16(x));
        }
    } else {
        push_dec(v, x as u32);
    }
}

/// Printed decimal numbers are all digits and read back to the same
/// value.
pub proof fn lemma_dec_digits_value(n: nat)
    ensures
        dec_digits(n).len() >= 1,
        all_digits(dec_digits(n)),
        digits_val(dec_digits(n)) == n,
    decreases n,
{
    if n < 10 {
        let s = dec_digits(n);
        assert(s.drop_last() =~= Seq::<u8>::empty());
        assert(digits_val(s) == digits_val(s.drop_last()) * 10 + (s.last() - 48));
        assert(digits_val(s.drop_last()) == 0);
    } else {
        lemma_dec_digits_value(n / 10);
        let s = dec_digits(n);
        let a = dec_digits(n / 10);
        assert(s.drop_last() =~= a);
        assert(s.last() == (48 + n % 10) as u8);
        assert(digits_val(s) == digits_val(a) * 10 + (n % 10));
        assert(n / 10 * 10 + n % 10 == n);
        assert forall|k: int| 0 <= k < s.len() implies is_digit(#[trigger] s[k]) by {
            if k < a.len() {
                assert(s[k] == a[k]);
            }
        }
    }
}

/// A printed unsigned counter parses back to itself: the round trip of
/// the half-move and full-move fields.
pub proof fn lemma_parse_unsigned_round_trip(n: nat, bound: nat)
    requires
        n <= bound,
    ensures
        parse_unsigned(dec_digits(n), bound) == Some(n),
{
    lemma_dec_digits_value(n);
    let s = dec_digits(n);
    assert(is_digit(s[0]));
}

/// A printed signed score parses back to itself: the round trip of the
/// score field.
pub proof fn lemma_parse_i16_round_trip(x: i16)
    ensures
        parse_i16_spec(dec_i16(x)) == Some(x),
{
    let s = dec_i16(x);
    if x < 0 {
        let m = (-(x as int)) as nat;
        lemma_dec_digits_value(m);
        assert(s[0] == 45);
        assert(s.drop_first() =~= dec_digits(m));
        assert(m <= 32768);
    } else {
        lemma_dec_digits_value(x as nat);
        assert(is_digit(s[0]));
        assert(x <= 32767);
    }
}

/// Every outcome code's printed spelling is among the accepted ones and
/// reads back to the same code.
pub proof fn lemma_outcome_round_trip(c: u8)
    requires
        c <= 2,
    ensures
        outcome_code(
            if c == 2 {
                seq![49u8, 46u8, 48u8]
            } else if c == 1 {
                seq![48u8, 46u8, 53u8]
            } else {
                seq![48u8, 46u8, 48u8]
            },
        ) == Some(c),
{
    if c == 2 {
        assert(seq![49u8, 46u8, 48u8] != seq![48u8, 46u8, 53u8]);
    }
}

/// Every byte of `s` is an ASCII code point.
pub open spec fn ascii_seq(s: Seq<u8>) -> bool {
    forall|i: int| 0 <= i < s.len() ==> (#[trigger] s[i]) < 128
}

pub proof fn lemma_ascii_concat(a: Seq<u8>, b: Seq<u8>)
    requires
        ascii_seq(a),
        ascii_seq(b),
    ensures
        ascii_seq(a + b),
{
    assert forall|i: int| 0 <= i < (a + b).len() implies ((a + b)[i]) < 128 by {
        if i < a.len() {
            assert((a + b)[i] == a[i]);
        } else {
            assert((a + b)[i] == b[i - a.len()]);
        }
    }
}

pub proof fn lemma_dec_digits_ascii(n: nat)
    ensures
        ascii_seq(dec_digits(n)),
{
    lemma_dec_digits_value(n);
}

pub proof fn lemma_dec_i16_ascii(x: i16)
    ensures
        ascii_seq(dec_i16(x)),
{
    if x < 0 {
        lemma_dec_digits_ascii((-(x as int)) as nat);
        lemma_ascii_concat(seq![45u8], dec_digits((-(x as int)) as nat));
    } else {
        lemma_dec_digits_ascii(x as nat);
    }
}

/// The accepted spellings of the three outcome values: win, draw, loss,
/// in plain, bracketed and fractional form.
pub open spec fn outcome_code(s: Seq<u8>) -> Option<u8> {
    if s == seq![49u8, 46u8, 48u8] || s == seq![91u8, 49u8, 46u8, 48u8, 93u8] || s == seq![49u8] {
        Some(2u8)
    } else if s == seq![48u8, 46u8, 53u8] || s == seq![91u8, 48u8, 46u8, 53u8, 93u8] || s == seq![
        49u8,
        47u8,
        50u8,
    ] {
        Some(1u8)
    } else if s == seq![48u8, 46u8, 48u8] || s == seq![91u8, 48u8, 46u8, 48u8, 93u8] || s == seq![
        48u8,
    ] {
        Some(0u8)
    } else {
        None
    }
}

/// Relies on `char::from` for each byte: a `String` whose characters are
/// the bytes of `v`, read as code points.  For ASCII bytes this is the
/// usual text rendering.
#[verifier::external_body]
pub fn bytes_to_string(v: &Vec<u8>) -> (r: String)
    ensures
        r@.len() == v@.len(),
        forall|i: int| 0 <= i < v@.len() && v@[i] < 128 ==> r@[i] == v@[i] as char,
{
    v.iter().map(|&b| char::from(b)).collect()
}

/// Byte-for-byte equality of two runs.
pub fn bytes_eq(a: &[u8], b: &[u8]) -> (r: bool)
    ensures
        r == (a@ == b@),
{
    if a.len() != b.len() {
        return false;
    }
    let mut i: usize = 0;
    while i < a.len()
        invariant
            i <= a@.len(),
            a@.len() == b@.len(),
            forall|k: int| 0 <= k < i ==> a@[k] == b@[k],
        decreases a@.len() - i,
    {
        if a[i] != b[i] {
            return false;
        }
        i += 1;
    }
    proof {
        assert(a@ =~= b@);
    }
    true
}

/// The outcome code named by a token, if any spelling matches.
pub fn outcome_of(s: &[u8]) -> (r: Option<u8>)
    ensures
        r == outcome_code(s@),
{
    let win1: [u8; 3] = [49, 46, 48];
    let win2: [u8; 5] = [91, 49, 46, 48, 93];
    let win3: [u8; 1] = [49];
    let draw1: [u8; 3] = [48, 46, 53];
    let draw2: [u8; 5] = [91, 48, 46, 53, 93];
    let draw3: [u8; 3] = [49, 47, 50];
    let loss1: [u8; 3] = [48, 46, 48];
    let loss2: [u8; 5] = [91, 48, 46, 48, 93];
    let loss3: [u8; 1] = [48];
    proof {
        assert(win1@ =~= seq![49u8, 46u8, 48u8]);
        assert(win2@ =~= seq![91u8, 49u8, 46u8, 48u8, 93u8]);
        assert(win3@ =~= seq![49u8]);
        assert(draw1@ =~= seq![48u8, 46u8, 53u8]);
        assert(draw2@ =~= seq![91u8, 48u8, 46u8, 53u8, 93u8]);
        assert(draw3@ =~= seq![49u8, 47u8, 50u8]);
        assert(loss1@ =~= seq![48u8, 46u8, 48u8]);
        assert(loss2@ =~= seq![91u8, 48u8, 46u8, 48u8, 93u8]);
        assert(loss3@ =~= seq![48u8]);
    }
    if bytes_eq(s, win1.as_slice()) || bytes_eq(s, win2.as_slice()) || bytes_eq(
        s,
        win3.as_slice(),
    ) {
        Some(2)
    } else if bytes_eq(s, draw1.as_slice()) || bytes_eq(s, draw2.as_slice()) || bytes_eq(
        s,
        draw3.as_slice(),
    ) {
        Some(1)
    } else if bytes_eq(s, loss1.as_slice()) || bytes_eq(s, loss2.as_slice()) || bytes_eq(
        s,
        loss3.as_slice(),
    ) {
        Some(0)
    } else {
        None
    }
}

} // verus!
