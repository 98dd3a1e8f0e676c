//! Character-level helpers shared by the version parsers and comparators.

use core::cmp::Ordering;
use vstd::prelude::*;

verus! {

/// An ASCII decimal digit.
pub open spec fn is_digit(c: char) -> bool {
    '0' <= c && c <= '9'
}

/// Length of the longest prefix of `s` whose characters are all digits
/// (when `digits`) or all non-digits (when `!digits`).
pub open spec fn run_len(s: Seq<char>, digits: bool) -> nat
    decreases s.len(),
{
    if s.len() == 0 || is_digit(s[0]) != digits {
        0
    } else {
        1 + run_len(s.drop_first(), digits)
    }
}

pub proof fn lemma_run_len_bound(s: Seq<char>, digits: bool)
    ensures
        run_len(s, digits) <= s.len(),
        forall|j: int| 0 <= j < run_len(s, digits) ==> is_digit(#[trigger] s[j]) == digits,
        run_len(s, digits) < s.len() ==> is_digit(s[run_len(s, digits) as int]) != digits,
    decreases s.len(),
{
    if s.len() > 0 && is_digit(s[0]) == digits {
        lemma_run_len_bound(s.drop_first(), digits);
        assert forall|j: int| 0 <= j < run_len(s, digits) implies is_digit(#[trigger] s[j]) == digits by {
            if j > 0 {
                assert(s[j] == s.drop_first()[j - 1]);
            }
        }
    }
}

/// `run_len` is pinned down by the characters it covers and the one that stops it.
pub proof fn lemma_run_len_exact(s: Seq<char>, digits: bool, n: int)
    requires
        0 <= n <= s.len(),
        forall|j: int| 0 <= j < n ==> is_digit(#[trigger] s[j]) == digits,
        n < s.len() ==> is_digit(s[n]) != digits,
    ensures
        run_len(s, digits) == n,
    decreases n,
{
    if n > 0 {
        assert(is_digit(s[0]) == digits);
        assert forall|j: int| 0 <= j < n - 1 implies is_digit(#[trigger] s.drop_first()[j]) == digits by {
            assert(s.drop_first()[j] == s[j + 1]);
        }
        if n < s.len() {
            assert(s.drop_first()[n - 1] == s[n]);
        }
        lemma_run_len_exact(s.drop_first(), digits, n - 1);
    }
}

/// Splits off the longest prefix of `buf` whose characters satisfy `is_prefix`,
/// leaving the remainder in `buf`.
pub fn take_prefix<'a, F: Fn(char) -> bool>(buf: &mut &'a str, is_prefix: F) -> (prefix: &'a str)
    requires
        forall|c: char| is_prefix.requires((c,)),
    ensures
        prefix@ + final(buf)@ == old(buf)@,
        forall|j: int| 0 <= j < prefix@.len() ==> is_prefix.ensures((#[trigger] prefix@[j],), true),
        final(buf)@.len() > 0 ==> is_prefix.ensures((final(buf)@[0],), false),
{
    let n = buf.unicode_len();
    let mut i: usize = 0;
    while i < n
        invariant_except_break
            forall|j: int| 0 <= j < i ==> is_prefix.ensures((#[trigger] buf@[j],), true),
        invariant
            i <= n,
            n == buf@.len(),
            forall|c: char| is_prefix.requires((c,)),
        ensures
            i <= n,
            forall|j: int| 0 <= j < i ==> is_prefix.ensures((#[trigger] buf@[j],), true),
            i < n ==> is_prefix.ensures((buf@[i as int],), false),
        decreases n - i,
    {
        let c = buf.get_char(i);
        if !is_prefix(c) {
            break;
        }
        i = i + 1;
    }
    let whole: &'a str = *buf;
    let prefix = whole.substring_char(0, i);
    let rest = whole.substring_char(i, n);
    proof {
        assert(prefix@ + rest@ =~= whole@);
        assert forall|j: int| 0 <= j < prefix@.len() implies is_prefix.ensures((#[trigger] prefix@[j],), true) by {
            assert(prefix@[j] == whole@[j]);
        }
        if rest@.len() > 0 {
            assert(rest@[0] == whole@[i as int]);
        }
    }
    *buf = rest;
    prefix
}


/// The three-way comparison of two integers.
pub open spec fn cmp_int(x: int, y: int) -> Ordering {
    if x < y {
        Ordering::Less
    } else if x > y {
        Ordering::Greater
    } else {
        Ordering::Equal
    }
}

/// The value of an ASCII digit.
pub open spec fn digit_value(c: char) -> nat {
    (c as int - '0' as int) as nat
}

/// Every character of `s` is a digit.
pub open spec fn all_digits(s: Seq<char>) -> bool {
    forall|j: int| 0 <= j < s.len() ==> is_digit(#[trigger] s[j])
}

/// The number written by the decimal digits `s`; the empty text reads as zero.
pub open spec fn decimal_value(s: Seq<char>) -> nat
    decreases s.len(),
{
    if s.len() == 0 {
        0
    } else {
        decimal_value(s.drop_last()) * 10 + digit_value(s.last())
    }
}

/// Lexicographic comparison by code point, a shorter prefix first.
pub open spec fn lex_cmp(a: Seq<char>, b: Seq<char>) -> Ordering
    decreases a.len(),
{
    if a.len() == 0 {
        if b.len() == 0 {
            Ordering::Equal
        } else {
            Ordering::Less
        }
    } else if b.len() == 0 {
        Ordering::Greater
    } else if a[0] != b[0] {
        if (a[0] as int) < (b[0] as int) {
            Ordering::Less
        } else {
            Ordering::Greater
        }
    } else {
        lex_cmp(a.drop_first(), b.drop_first())
    }
}

pub open spec fn flip(o: Ordering) -> Ordering {
    match o {
        Ordering::Less => Ordering::Greater,
        Ordering::Equal => Ordering::Equal,
        Ordering::Greater => Ordering::Less,
    }
}

pub proof fn lemma_lex_cmp_laws(a: Seq<char>, b: Seq<char>)
    ensures
        lex_cmp(a, b) == flip(lex_cmp(b, a)),
        lex_cmp(a, b) == Ordering::Equal <==> a == b,
    decreases a.len(),
{
    if a.len() > 0 && b.len() > 0 {
        if a[0] == b[0] {
            lemma_lex_cmp_laws(a.drop_first(), b.drop_first());
            if a.drop_first() == b.drop_first() {
                assert(a =~= seq![a[0]] + a.drop_first());
                assert(b =~= seq![b[0]] + b.drop_first());
            }
        } else {
            assert((a[0] as int) != (b[0] as int));
        }
    } else if a.len() == 0 && b.len() == 0 {
        assert(a =~= b);
    }
}

pub proof fn lemma_lex_cmp_trans(a: Seq<char>, b: Seq<char>, c: Seq<char>)
    requires
        lex_cmp(a, b) != Ordering::Greater,
        lex_cmp(b, c) != Ordering::Greater,
    ensures
        lex_cmp(a, c) != Ordering::Greater,
        lex_cmp(a, b) == Ordering::Less || lex_cmp(b, c) == Ordering::Less ==> lex_cmp(a, c)
            == Ordering::Less,
    decreases a.len(),
{
    lemma_lex_cmp_laws(a, b);
    lemma_lex_cmp_laws(b, c);
    lemma_lex_cmp_laws(a, c);
    if a.len() > 0 && b.len() > 0 && c.len() > 0 {
        if a[0] == b[0] && b[0] == c[0] {
            lemma_lex_cmp_trans(a.drop_first(), b.drop_first(), c.drop_first());
        }
    }
}

/// Compares two `&str` lexicographically by code point.
pub fn str_lex_cmp(a: &str, b: &str) -> (r: Ordering)
    ensures
        r == lex_cmp(a@, b@),
{
    let na = a.unicode_len();
    let nb = b.unicode_len();
    let mut i: usize = 0;
    assert(a@.skip(0) =~= a@);
    assert(b@.skip(0) =~= b@);
    while i < na && i < nb
        invariant
            na == a@.len(),
            nb == b@.len(),
            i <= na,
            i <= nb,
            lex_cmp(a@, b@) == lex_cmp(a@.skip(i as int), b@.skip(i as int)),
        decreases na - i,
    {
        let ca = a.get_char(i);
        let cb = b.get_char(i);
        assert(a@.skip(i as int)[0] == ca);
        assert(b@.skip(i as int)[0] == cb);
        if (ca as u32) < (cb as u32) {
            return Ordering::Less;
        }
        if (ca as u32) > (cb as u32) {
            return Ordering::Greater;
        }
        assert(a@.skip(i as int).drop_first() =~= a@.skip(i + 1));
        assert(b@.skip(i as int).drop_first() =~= b@.skip(i + 1));
        i = i + 1;
    }
    if na == nb {
        Ordering::Equal
    } else if i == na {
        Ordering::Less
    } else {
        Ordering::Greater
    }
}


pub open spec fn pow10(n: nat) -> nat
    decreases n,
{
    if n == 0 {
        1
    } else {
        10 * pow10((n - 1) as nat)
    }
}

pub proof fn lemma_pow10_mono(m: nat, n: nat)
    requires
        m <= n,
    ensures
        pow10(m) <= pow10(n),
        pow10(m) >= 1,
    decreases n,
{
    if n > m {
        lemma_pow10_mono(m, (n - 1) as nat);
    } else if n > 0 {
        lemma_pow10_mono(0, (n - 1) as nat);
    }
}

pub proof fn lemma_value_front(s: Seq<char>)
    requires
        s.len() > 0,
    ensures
        decimal_value(s) == digit_value(s[0]) * pow10((s.len() - 1) as nat) + decimal_value(
            s.drop_first(),
        ),
    decreases s.len(),
{
    if s.len() == 1 {
        assert(s.drop_last().len() == 0);
        assert(s.drop_first().len() == 0);
        assert(decimal_value(s.drop_last()) == 0);
        assert(decimal_value(s.drop_first()) == 0);
        assert(pow10(0) == 1);
        assert(s.last() == s[0]);
        let p0 = pow10(0);
        assert(digit_value(s[0]) * p0 == digit_value(s[0])) by (nonlinear_arith)
            requires
                p0 == 1,
        ;
    } else {
        let t = s.drop_last();
        lemma_value_front(t);
        assert(s.drop_first().drop_last() =~= t.drop_first());
        assert(s.drop_first().last() == s.last());
        assert(t[0] == s[0]);
        let d0 = digit_value(s[0]);
        let p = pow10((t.len() - 1) as nat);
        assert(pow10((s.len() - 1) as nat) == 10 * p);
        assert(decimal_value(s) == decimal_value(t) * 10 + digit_value(s.last()));
        assert(s.drop_first().len() > 0);
        assert(decimal_value(s.drop_first()) == decimal_value(t.drop_first()) * 10 + digit_value(
            s.last(),
        ));
        assert(decimal_value(t) == d0 * p + decimal_value(t.drop_first()));
        assert((d0 * p + decimal_value(t.drop_first())) * 10 == d0 * (10 * p) + decimal_value(
            t.drop_first(),
        ) * 10) by (nonlinear_arith);
        assert(decimal_value(s) == d0 * (10 * p) + decimal_value(s.drop_first()));
        assert(d0 * pow10((s.len() - 1) as nat) == d0 * (10 * p));
    }
}

pub proof fn lemma_value_bound(s: Seq<char>)
    requires
        all_digits(s),
    ensures
        decimal_value(s) < pow10(s.len()),
    decreases s.len(),
{
    if s.len() > 0 {
        let t = s.drop_last();
        assert(all_digits(t)) by {
            assert forall|j: int| 0 <= j < t.len() implies is_digit(#[trigger] t[j]) by {
                assert(t[j] == s[j]);
            }
        }
        assert(is_digit(s[s.len() - 1]));
        lemma_value_bound(t);
    }
}

pub proof fn lemma_value_lower(s: Seq<char>)
    requires
        all_digits(s),
        s.len() > 0,
        s[0] != '0',
    ensures
        decimal_value(s) >= pow10((s.len() - 1) as nat),
{
    lemma_value_front(s);
    assert(is_digit(s[0]));
    let p = pow10((s.len() - 1) as nat);
    assert(digit_value(s[0]) >= 1);
    assert(digit_value(s[0]) * p >= p) by (nonlinear_arith)
        requires
            digit_value(s[0]) >= 1,
    ;
}

/// Leading zeros do not change the number that digits write.
pub proof fn lemma_value_skip_zeros(s: Seq<char>, z: int)
    requires
        0 <= z <= s.len(),
        forall|j: int| 0 <= j < z ==> #[trigger] s[j] == '0',
    ensures
        decimal_value(s) == decimal_value(s.skip(z)),
    decreases z,
{
    if z > 0 {
        lemma_value_front(s);
        assert(digit_value(s[0]) == 0);
        let p = pow10((s.len() - 1) as nat);
        assert(digit_value(s[0]) * p == 0) by (nonlinear_arith)
            requires
                digit_value(s[0]) == 0,
        ;
        assert forall|j: int| 0 <= j < z - 1 implies #[trigger] s.drop_first()[j] == '0' by {
            assert(s.drop_first()[j] == s[j + 1]);
        }
        lemma_value_skip_zeros(s.drop_first(), z - 1);
        assert(s.drop_first().skip(z - 1) =~= s.skip(z));
    } else {
        assert(s.skip(0) =~= s);
    }
}

/// Among digit strings of one length, the lexicographic order is the numeric one.
pub proof fn lemma_value_same_len(a: Seq<char>, b: Seq<char>)
    requires
        all_digits(a),
        all_digits(b),
        a.len() == b.len(),
    ensures
        lex_cmp(a, b) == cmp_int(decimal_value(a) as int, decimal_value(b) as int),
    decreases a.len(),
{
    if a.len() > 0 {
        lemma_value_front(a);
        lemma_value_front(b);
        let p = pow10((a.len() - 1) as nat);
        assert(all_digits(a.drop_first())) by {
            assert forall|j: int| 0 <= j < a.drop_first().len() implies is_digit(
                #[trigger] a.drop_first()[j],
            ) by {
                assert(a.drop_first()[j] == a[j + 1]);
            }
        }
        assert(all_digits(b.drop_first())) by {
            assert forall|j: int| 0 <= j < b.drop_first().len() implies is_digit(
                #[trigger] b.drop_first()[j],
            ) by {
                assert(b.drop_first()[j] == b[j + 1]);
            }
        }
        lemma_value_bound(a.drop_first());
        lemma_value_bound(b.drop_first());
        assert(is_digit(a[0]) && is_digit(b[0]));
        let da = digit_value(a[0]);
        let db = digit_value(b[0]);
        let ra = decimal_value(a.drop_first());
        let rb = decimal_value(b.drop_first());
        if a[0] == b[0] {
            lemma_value_same_len(a.drop_first(), b.drop_first());
        } else if (a[0] as int) < (b[0] as int) {
            assert(da + 1 <= db);
            assert(da * p + ra < db * p + rb) by (nonlinear_arith)
                requires
                    da + 1 <= db,
                    ra < p,
                    rb >= 0,
            ;
        } else {
            assert(db + 1 <= da);
            assert(db * p + rb < da * p + ra) by (nonlinear_arith)
                requires
                    db + 1 <= da,
                    rb < p,
                    ra >= 0,
            ;
        }
    }
}

/// Compares the numbers that two runs of digits write; an empty run reads as zero.
pub fn decimal_cmp(a: &str, b: &str) -> (r: Ordering)
    requires
        all_digits(a@),
        all_digits(b@),
    ensures
        r == cmp_int(decimal_value(a@) as int, decimal_value(b@) as int),
{
    let mut sa: &str = a;
    let mut sb: &str = b;
    let za = take_prefix(&mut sa, |c: char| -> (z: bool) ensures z == (c == '0') { c == '0' });
    let zb = take_prefix(&mut sb, |c: char| -> (z: bool) ensures z == (c == '0') { c == '0' });
    proof {
        assert(sa@ =~= a@.skip(za@.len() as int));
        assert(sb@ =~= b@.skip(zb@.len() as int));
        assert forall|j: int| 0 <= j < za@.len() implies #[trigger] a@[j] == '0' by {
            assert(a@[j] == za@[j]);
        }
        assert forall|j: int| 0 <= j < zb@.len() implies #[trigger] b@[j] == '0' by {
            assert(b@[j] == zb@[j]);
        }
        lemma_value_skip_zeros(a@, za@.len() as int);
        lemma_value_skip_zeros(b@, zb@.len() as int);
        assert(all_digits(sa@)) by {
            assert forall|j: int| 0 <= j < sa@.len() implies is_digit(#[trigger] sa@[j]) by {
                assert(sa@[j] == a@[j + za@.len()]);
            }
        }
        assert(all_digits(sb@)) by {
            assert forall|j: int| 0 <= j < sb@.len() implies is_digit(#[trigger] sb@[j]) by {
                assert(sb@[j] == b@[j + zb@.len()]);
            }
        }
        lemma_value_bound(sa@);
        lemma_value_bound(sb@);
        if sa@.len() > 0 {
            lemma_value_lower(sa@);
        }
        if sb@.len() > 0 {
            lemma_value_lower(sb@);
        }
    }
    let la = sa.unicode_len();
    let lb = sb.unicode_len();
    if la < lb {
        proof {
            lemma_pow10_mono(la as nat, (lb - 1) as nat);
        }
        return Ordering::Less;
    }
    if la > lb {
        proof {
            lemma_pow10_mono(lb as nat, (la - 1) as nat);
        }
        return Ordering::Greater;
    }
    proof {
        lemma_value_same_len(sa@, sb@);
    }
    str_lex_cmp(sa, sb)
}

/// `t` without the one `+` that may lead it.
pub open spec fn unsigned_digits(t: Seq<char>) -> Seq<char> {
    if t.len() > 0 && t[0] == '+' {
        t.drop_first()
    } else {
        t
    }
}

/// What Rust's unsigned parsing reads from `t`: an optional `+`, then one or more
/// digits writing a number no larger than `max`.
pub open spec fn unsigned_text(t: Seq<char>, max: nat) -> Option<nat> {
    let d = unsigned_digits(t);
    if d.len() > 0 && all_digits(d) && decimal_value(d) <= max {
        Some(decimal_value(d))
    } else {
        None
    }
}

pub proof fn lemma_value_prefix_mono(s: Seq<char>, k: int)
    requires
        0 <= k <= s.len(),
    ensures
        decimal_value(s.take(k)) <= decimal_value(s),
    decreases s.len() - k,
{
    if k < s.len() {
        lemma_value_prefix_mono(s.drop_last(), k);
        assert(s.drop_last().take(k) =~= s.take(k));
    } else {
        assert(s.take(k) =~= s);
    }
}

/// Reads an unsigned integer of at most `max` the way Rust's `str::parse` does.
pub fn parse_unsigned(s: &str, max: u32) -> (r: Option<u32>)
    ensures
        match unsigned_text(s@, max as nat) {
            Some(v) => r == Some(v as u32),
            None => r is None,
        },
{
    let n = s.unicode_len();
    let mut start: usize = 0;
    if n > 0 && s.get_char(0) == '+' {
        start = 1;
    }
    let ghost d = unsigned_digits(s@);
    assert(d =~= s@.skip(start as int));
    if start == n {
        return None;
    }
    let mut i: usize = start;
    let mut v: u32 = 0;
    assert(d.take(0) =~= Seq::<char>::empty());
    while i < n
        invariant
            n == s@.len(),
            start <= i <= n,
            d == unsigned_digits(s@),
            d =~= s@.skip(start as int),
            v as nat == decimal_value(d.take(i - start)),
            v <= max,
            all_digits(d.take(i - start)),
        decreases n - i,
    {
        let c = s.get_char(i);
        assert(d[i - start] == c);
        if !('0' <= c && c <= '9') {
            assert(!all_digits(d));
            assert(unsigned_text(s@, max as nat) is None);
            return None;
        }
        let dv: u32 = (c as u32) - 48;
        let nv: u64 = v as u64 * 10 + dv as u64;
        let ghost next = d.take(i - start + 1);
        assert(next.drop_last() =~= d.take(i - start));
        assert(next.last() == c);
        if nv > max as u64 {
            proof {
                if all_digits(d) {
                    lemma_value_prefix_mono(d, i - start + 1);
                }
                assert(unsigned_text(s@, max as nat) is None);
            }
            return None;
        }
        v = nv as u32;
        i = i + 1;
        assert(all_digits(d.take(i - start))) by {
            assert forall|j: int| 0 <= j < i - start implies is_digit(#[trigger] d.take(i - start)[j]) by {
                if j < i - start - 1 {
                    assert(d.take(i - start)[j] == d.take(i - start - 1)[j]);
                }
            }
        }
    }
    assert(d.take(n - start) =~= d);
    Some(v)
}

/// Position of the first `c` in `s`, or `s.len()` when there is none.
pub open spec fn first_pos(s: Seq<char>, c: char) -> nat
    decreases s.len(),
{
    if s.len() == 0 || s[0] == c {
        0
    } else {
        1 + first_pos(s.drop_first(), c)
    }
}

pub proof fn lemma_first_pos_bound(s: Seq<char>, c: char)
    ensures
        first_pos(s, c) <= s.len(),
        first_pos(s, c) < s.len() ==> s[first_pos(s, c) as int] == c,
    decreases s.len(),
{
    if s.len() > 0 && s[0] != c {
        lemma_first_pos_bound(s.drop_first(), c);
        if first_pos(s, c) < s.len() {
            assert(s[first_pos(s, c) as int] == s.drop_first()[first_pos(s.drop_first(), c) as int]);
        }
    }
}

/// A split of `s` into the text before the first `c` and the rest (which starts
/// with `c`, if it is not empty) is the split at `first_pos`.
pub proof fn lemma_first_pos_split(s: Seq<char>, c: char, before: Seq<char>, rest: Seq<char>)
    requires
        before + rest == s,
        forall|j: int| 0 <= j < before.len() ==> #[trigger] before[j] != c,
        rest.len() > 0 ==> rest[0] == c,
    ensures
        first_pos(s, c) == before.len(),
        before == s.take(before.len() as int),
        rest == s.skip(before.len() as int),
    decreases before.len(),
{
    assert(before =~= s.take(before.len() as int));
    assert(rest =~= s.skip(before.len() as int));
    if before.len() > 0 {
        assert(s[0] == before[0]);
        assert(before.drop_first() + rest =~= s.drop_first());
        assert forall|j: int| 0 <= j < before.drop_first().len() implies #[trigger] before.drop_first()[j] != c by {
            assert(before.drop_first()[j] == before[j + 1]);
        }
        lemma_first_pos_split(s.drop_first(), c, before.drop_first(), rest);
    } else if rest.len() > 0 {
        assert(s[0] == rest[0]);
    }
}

/// Splits off the text before the first `sep`; the remainder keeps the `sep`.
pub fn split_before<'a>(buf: &mut &'a str, sep: char) -> (before: &'a str)
    ensures
        before@ == old(buf)@.take(first_pos(old(buf)@, sep) as int),
        final(buf)@ == old(buf)@.skip(first_pos(old(buf)@, sep) as int),
{
    let before = take_prefix(buf, |c: char| -> (b: bool) ensures b == (c != sep) { c != sep });
    proof {
        lemma_first_pos_split(old(buf)@, sep, before@, final(buf)@);
    }
    before
}

/// White space as Rust's `char::is_whitespace` defines it.
pub open spec fn is_space(c: char) -> bool {
    ('\u{9}' <= c && c <= '\u{d}') || c == ' ' || c == '\u{85}' || c == '\u{a0}' || c
        == '\u{1680}' || ('\u{2000}' <= c && c <= '\u{200a}') || c == '\u{2028}' || c == '\u{2029}'
        || c == '\u{202f}' || c == '\u{205f}' || c == '\u{3000}'
}

pub fn char_is_space(c: char) -> (r: bool)
    ensures
        r == is_space(c),
{
    ('\u{9}' <= c && c <= '\u{d}') || c == ' ' || c == '\u{85}' || c == '\u{a0}' || c
        == '\u{1680}' || ('\u{2000}' <= c && c <= '\u{200a}') || c == '\u{2028}' || c == '\u{2029}'
        || c == '\u{202f}' || c == '\u{205f}' || c == '\u{3000}'
}

/// Number of white-space characters that lead `s`.
pub open spec fn lead_space(s: Seq<char>) -> nat
    decreases s.len(),
{
    if s.len() == 0 || !is_space(s[0]) {
        0
    } else {
        1 + lead_space(s.drop_first())
    }
}

/// Number of white-space characters that end `s`.
pub open spec fn trail_space(s: Seq<char>) -> nat
    decreases s.len(),
{
    if s.len() == 0 || !is_space(s.last()) {
        0
    } else {
        1 + trail_space(s.drop_last())
    }
}

/// `s` without leading and trailing white space.
pub open spec fn trimmed(s: Seq<char>) -> Seq<char> {
    let a = lead_space(s);
    if a >= s.len() {
        Seq::empty()
    } else {
        s.subrange(a as int, s.len() - trail_space(s))
    }
}

proof fn lemma_lead_space_exact(s: Seq<char>, n: int)
    requires
        0 <= n <= s.len(),
        forall|j: int| 0 <= j < n ==> is_space(#[trigger] s[j]),
        n < s.len() ==> !is_space(s[n]),
    ensures
        lead_space(s) == n,
    decreases n,
{
    if n > 0 {
        assert forall|j: int| 0 <= j < n - 1 implies is_space(#[trigger] s.drop_first()[j]) by {
            assert(s.drop_first()[j] == s[j + 1]);
        }
        if n < s.len() {
            assert(s.drop_first()[n - 1] == s[n]);
        }
        lemma_lead_space_exact(s.drop_first(), n - 1);
    }
}

proof fn lemma_trail_space_exact(s: Seq<char>, n: int)
    requires
        0 <= n <= s.len(),
        forall|j: int| s.len() - n <= j < s.len() ==> is_space(#[trigger] s[j]),
        n < s.len() ==> !is_space(s[s.len() - n - 1]),
    ensures
        trail_space(s) == n,
    decreases n,
{
    if n > 0 {
        let t = s.drop_last();
        assert forall|j: int| t.len() - (n - 1) <= j < t.len() implies is_space(#[trigger] t[j]) by {
            assert(t[j] == s[j]);
        }
        if n < s.len() {
            assert(t[t.len() - (n - 1) - 1] == s[s.len() - n - 1]);
        }
        lemma_trail_space_exact(t, n - 1);
    }
}

/// `s` without leading and trailing white space, as `str::trim` gives it.
pub fn trim_space(s: &str) -> (r: &str)
    ensures
        r@ == trimmed(s@),
{
    let n = s.unicode_len();
    let mut a: usize = 0;
    while a < n
        invariant_except_break
            forall|j: int| 0 <= j < a ==> is_space(#[trigger] s@[j]),
        invariant
            a <= n,
            n == s@.len(),
        ensures
            a <= n,
            forall|j: int| 0 <= j < a ==> is_space(#[trigger] s@[j]),
            a < n ==> !is_space(s@[a as int]),
        decreases n - a,
    {
        if !char_is_space(s.get_char(a)) {
            break;
        }
        a = a + 1;
    }
    proof {
        lemma_lead_space_exact(s@, a as int);
    }
    if a == n {
        return s.substring_char(0, 0);
    }
    let mut e: usize = n;
    while e > a
        invariant_except_break
            forall|j: int| e <= j < n ==> is_space(#[trigger] s@[j]),
        invariant
            a < n,
            a <= e <= n,
            n == s@.len(),
            !is_space(s@[a as int]),
        ensures
            a < e <= n,
            forall|j: int| e <= j < n ==> is_space(#[trigger] s@[j]),
            !is_space(s@[e - 1]),
        decreases e,
    {
        if !char_is_space(s.get_char(e - 1)) {
            break;
        }
        e = e - 1;
    }
    proof {
        lemma_trail_space_exact(s@, n - e);
    }
    s.substring_char(a, e)
}

/// The digit that writes `d` (for `d < 10`).
pub open spec fn digit_char(d: nat) -> char {
    seq!['0', '1', '2', '3', '4', '5', '6', '7', '8', '9'][d as int]
}

pub proof fn lemma_digit_char(d: nat)
    requires
        d < 10,
    ensures
        is_digit(digit_char(d)),
        digit_value(digit_char(d)) == d,
        digit_char(d) != '+',
{
    let ds = seq!['0', '1', '2', '3', '4', '5', '6', '7', '8', '9'];
    if d == 0 { assert(ds[0] == '0'); }
    else if d == 1 { assert(ds[1] == '1'); }
    else if d == 2 { assert(ds[2] == '2'); }
    else if d == 3 { assert(ds[3] == '3'); }
    else if d == 4 { assert(ds[4] == '4'); }
    else if d == 5 { assert(ds[5] == '5'); }
    else if d == 6 { assert(ds[6] == '6'); }
    else if d == 7 { assert(ds[7] == '7'); }
    else if d == 8 { assert(ds[8] == '8'); }
    else { assert(ds[9] == '9'); }
}

/// `n` written in decimal, without leading zeros.
pub open spec fn decimal_text(n: nat) -> Seq<char>
    decreases n,
{
    if n < 10 {
        seq![digit_char(n)]
    } else {
        decimal_text(n / 10) + seq![digit_char(n % 10)]
    }
}

/// Decimal text reads back as the number it was written from.
pub proof fn lemma_decimal_text(n: nat)
    ensures
        all_digits(decimal_text(n)),
        decimal_value(decimal_text(n)) == n,
        decimal_text(n).len() > 0,
        decimal_text(n)[0] != '+',
    decreases n,
{
    lemma_digit_char(n % 10);
    if n < 10 {
        let t = decimal_text(n);
        assert(t.drop_last().len() == 0);
        assert(decimal_value(t.drop_last()) == 0);
    }
    if n >= 10 {
        lemma_decimal_text(n / 10);
        let t = decimal_text(n);
        let h = decimal_text(n / 10);
        assert(t.drop_last() =~= h);
        assert(t[0] == h[0]);
        assert forall|j: int| 0 <= j < t.len() implies is_digit(#[trigger] t[j]) by {
            if j < h.len() {
                assert(t[j] == h[j]);
            }
        }
    }
}

/// Appends `n`, written in decimal, to `out`.
pub fn push_decimal(out: &mut String, n: u32)
    ensures
        final(out)@ == old(out)@ + decimal_text(n as nat),
    decreases n,
{
    if n >= 10 {
        push_decimal(out, n / 10);
    }
    let d = (n % 10) as usize;
    let digits = "0123456789";
    proof {
        reveal_strlit("0123456789");
    }
    let ch = digits.substring_char(d, d + 1);
    out.append(ch);
    assert(ch@ =~= seq![digit_char(d as nat)]);
    assert(final(out)@ =~= old(out)@ + decimal_text(n as nat));
}

/// Whether two texts are the same.
pub fn str_eq(a: &str, b: &str) -> (r: bool)
    ensures
        r == (a@ == b@),
{
    proof {
        lemma_lex_cmp_laws(a@, b@);
    }
    match str_lex_cmp(a, b) {
        Ordering::Equal => true,
        _ => false,
    }
}

} // verus!
