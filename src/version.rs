//! Module versions: freeform version strings with an optional `epoch:` prefix,
//! ordered by a natural sort in which runs of digits compare as numbers.

use core::cmp::Ordering;
use vstd::prelude::*;

use crate::text::{
    cmp_int, decimal_cmp, decimal_value, is_digit, flip, lemma_lex_cmp_laws, lemma_lex_cmp_trans, lemma_run_len_bound,
    lemma_pow10_mono, lemma_run_len_exact, lemma_value_bound, lemma_value_lower,
    lemma_value_same_len, lemma_value_skip_zeros, lex_cmp, all_digits, run_len,
    parse_unsigned, str_lex_cmp, take_prefix, unsigned_text,
};

verus! {

/// Position of the first `:` in `s`, or `s.len()` when there is none.
pub open spec fn colon_pos(s: Seq<char>) -> nat
    decreases s.len(),
{
    if s.len() == 0 || s[0] == ':' {
        0
    } else {
        1 + colon_pos(s.drop_first())
    }
}

/// The epoch of a version string: the number before its first colon, when
/// that text reads as an unsigned 32-bit integer.
pub open spec fn epoch_of(s: Seq<char>) -> Option<u32> {
    let i = colon_pos(s);
    if i < s.len() {
        match unsigned_text(s.take(i as int), u32::MAX as nat) {
            Some(v) => Some(v as u32),
            None => None,
        }
    } else {
        None
    }
}

/// The epoch, with a missing one read as zero.
pub open spec fn epoch_or_zero(s: Seq<char>) -> u32 {
    match epoch_of(s) {
        Some(e) => e,
        None => 0,
    }
}

/// Where the version body starts: after the epoch's colon, if there is an epoch.
pub open spec fn body_start(s: Seq<char>) -> nat {
    if epoch_of(s) is Some {
        colon_pos(s) + 1
    } else {
        0
    }
}

/// The version body: everything after the epoch's colon, or the whole string.
pub open spec fn body_of(s: Seq<char>) -> Seq<char> {
    s.skip(body_start(s) as int)
}

/// Order of two non-digit segments. A segment that starts with `.` outranks
/// one that does not; a bare `.` outranks a longer `.`-segment; otherwise the
/// segments compare lexicographically.
pub open spec fn seg_cmp(l: Seq<char>, r: Seq<char>) -> Ordering {
    let ld = l.len() > 0 && l[0] == '.';
    let rd = r.len() > 0 && r[0] == '.';
    if ld && !rd {
        Ordering::Greater
    } else if !ld && rd {
        Ordering::Less
    } else if ld && l.len() == 1 && r.len() > 1 {
        Ordering::Greater
    } else if ld && l.len() > 1 && r.len() == 1 {
        Ordering::Less
    } else {
        lex_cmp(l, r)
    }
}

/// The leading non-digit segment of `s`.
pub open spec fn lead_segment(s: Seq<char>) -> Seq<char> {
    s.take(run_len(s, false) as int)
}

/// What follows the leading non-digit segment of `s`.
pub open spec fn after_segment(s: Seq<char>) -> Seq<char> {
    s.skip(run_len(s, false) as int)
}

/// The leading run of digits of `s`.
pub open spec fn lead_number(s: Seq<char>) -> Seq<char> {
    s.take(run_len(s, true) as int)
}

/// What follows the leading run of digits of `s`.
pub open spec fn after_number(s: Seq<char>) -> Seq<char> {
    s.skip(run_len(s, true) as int)
}

/// Natural-sort order of two version bodies: alternately compare a non-digit
/// segment and a number until one side runs out; the side with text left over
/// is the greater.
pub open spec fn body_cmp(l: Seq<char>, r: Seq<char>) -> Ordering
    decreases l.len(),
    via body_cmp_decreases
{
    if l.len() == 0 || r.len() == 0 {
        lex_cmp(l, r)
    } else {
        let c = seg_cmp(lead_segment(l), lead_segment(r));
        if c != Ordering::Equal {
            c
        } else {
            let l1 = after_segment(l);
            let r1 = after_segment(r);
            let n = cmp_int(
                decimal_value(lead_number(l1)) as int,
                decimal_value(lead_number(r1)) as int,
            );
            if n != Ordering::Equal {
                n
            } else {
                body_cmp(after_number(l1), after_number(r1))
            }
        }
    }
}

/// One round of the natural sort consumes at least one character.
pub proof fn lemma_round_shrinks(l: Seq<char>)
    requires
        l.len() > 0,
    ensures
        after_number(after_segment(l)).len() < l.len(),
{
    lemma_run_len_bound(l, false);
    let l1 = after_segment(l);
    lemma_run_len_bound(l1, true);
    if run_len(l, false) == 0 {
        assert(l1 =~= l);
        assert(is_digit(l[0]));
        assert(run_len(l1, true) >= 1);
    }
}

#[via_fn]
proof fn body_cmp_decreases(l: Seq<char>, r: Seq<char>) {
    if l.len() > 0 {
        lemma_round_shrinks(l);
    }
}

/// The order of module versions: by epoch (a missing one is zero), then by body.
pub open spec fn version_cmp(a: Seq<char>, b: Seq<char>) -> Ordering {
    if epoch_or_zero(a) != epoch_or_zero(b) {
        cmp_int(epoch_or_zero(a) as int, epoch_or_zero(b) as int)
    } else {
        body_cmp(body_of(a), body_of(b))
    }
}

/// Removes the leading non-digit segments of both sides and compares them.
pub fn str_cmp(left: &mut &str, right: &mut &str) -> (r: Ordering)
    ensures
        final(left)@ == after_segment(old(left)@),
        final(right)@ == after_segment(old(right)@),
        r == seg_cmp(lead_segment(old(left)@), lead_segment(old(right)@)),
{
    let lp = take_prefix(
        left,
        |c: char| -> (b: bool) ensures b == !is_digit(c) { !('0' <= c && c <= '9') },
    );
    let rp = take_prefix(
        right,
        |c: char| -> (b: bool) ensures b == !is_digit(c) { !('0' <= c && c <= '9') },
    );
    proof {
        lemma_split_run(old(left)@, lp@, final(left)@, false);
        lemma_split_run(old(right)@, rp@, final(right)@, false);
    }
    let ll = lp.unicode_len();
    let rl = rp.unicode_len();
    let ld = ll > 0 && lp.get_char(0) == '.';
    let rd = rl > 0 && rp.get_char(0) == '.';
    if ld && !rd {
        return Ordering::Greater;
    }
    if !ld && rd {
        return Ordering::Less;
    }
    if ld && ll == 1 && rl > 1 {
        return Ordering::Greater;
    }
    if ld && ll > 1 && rl == 1 {
        return Ordering::Less;
    }
    str_lex_cmp(lp, rp)
}

/// Removes the leading runs of digits of both sides and compares the numbers
/// they write (an empty run reads as zero).
pub fn num_cmp(left: &mut &str, right: &mut &str) -> (r: Ordering)
    ensures
        final(left)@ == after_number(old(left)@),
        final(right)@ == after_number(old(right)@),
        r == cmp_int(
            decimal_value(lead_number(old(left)@)) as int,
            decimal_value(lead_number(old(right)@)) as int,
        ),
{
    let lp = take_prefix(
        left,
        |c: char| -> (b: bool) ensures b == is_digit(c) { '0' <= c && c <= '9' },
    );
    let rp = take_prefix(
        right,
        |c: char| -> (b: bool) ensures b == is_digit(c) { '0' <= c && c <= '9' },
    );
    proof {
        lemma_split_run(old(left)@, lp@, final(left)@, true);
        lemma_split_run(old(right)@, rp@, final(right)@, true);
    }
    decimal_cmp(lp, rp)
}

/// A prefix/rest split made by `take_prefix` with a digit test is the run split.
proof fn lemma_split_run(s: Seq<char>, p: Seq<char>, rest: Seq<char>, digits: bool)
    requires
        p + rest == s,
        forall|j: int| 0 <= j < p.len() ==> is_digit(#[trigger] p[j]) == digits,
        rest.len() > 0 ==> is_digit(rest[0]) != digits,
    ensures
        run_len(s, digits) == p.len(),
        p == s.take(p.len() as int),
        rest == s.skip(p.len() as int),
{
    assert forall|j: int| 0 <= j < p.len() implies is_digit(#[trigger] s[j]) == digits by {
        assert(s[j] == p[j]);
    }
    if rest.len() > 0 {
        assert(s[p.len() as int] == rest[0]);
    }
    lemma_run_len_exact(s, digits, p.len() as int);
    assert(p =~= s.take(p.len() as int));
    assert(rest =~= s.skip(p.len() as int));
}


/// A module version string, split once into its epoch and body.
#[derive(Debug)]
pub struct ModuleVersion {
    epoch: Option<u32>,
    mod_version_start: usize,
    string: String,
}

impl View for ModuleVersion {
    type V = Seq<char>;

    closed spec fn view(&self) -> Seq<char> {
        self.string@
    }
}

impl ModuleVersion {
    #[verifier::type_invariant]
    spec fn split_matches(self) -> bool {
        &&& self.epoch == epoch_of(self.string@)
        &&& self.mod_version_start == body_start(self.string@)
    }

    /// Reads the epoch and body of `value`, keeping the text as it is.
    pub fn parse(value: String) -> (r: ModuleVersion)
        ensures
            r@ == value@,
    {
        let ghost s = value@;
        let n = value.as_str().unicode_len();
        let mut rest: &str = value.as_str();
        let before = take_prefix(&mut rest, |c: char| -> (b: bool) ensures b == (c != ':') { c != ':' });
        proof {
            lemma_colon_split(s, before@, rest@);
        }
        if rest.unicode_len() > 0 {
            if let Some(epoch) = parse_unsigned(before, u32::MAX) {
                let start = before.unicode_len() + 1;
                return ModuleVersion { epoch: Some(epoch), mod_version_start: start, string: value };
            }
        }
        ModuleVersion { epoch: None, mod_version_start: 0, string: value }
    }

    /// The epoch, if the version has one.
    pub fn epoch(&self) -> (r: Option<u32>)
        ensures
            r == epoch_of(self@),
    {
        proof {
            use_type_invariant(self);
        }
        self.epoch
    }

    /// The version without its epoch.
    pub fn mod_version(&self) -> (r: &str)
        ensures
            r@ == body_of(self@),
    {
        proof {
            use_type_invariant(self);
            lemma_colon_pos_bound(self.string@);
        }
        let n = self.string.as_str().unicode_len();
        self.string.as_str().substring_char(self.mod_version_start, n)
    }

    /// The whole version string.
    pub fn as_str(&self) -> (r: &str)
        ensures
            r@ == self@,
    {
        self.string.as_str()
    }

    /// Gives back the version string.
    pub fn into_inner(self) -> (r: String)
        ensures
            r@ == self@,
    {
        self.string
    }

    /// Compares two versions: by epoch, then by the natural sort of their bodies.
    pub fn cmp(&self, other: &Self) -> (r: Ordering)
        ensures
            r == version_cmp(self@, other@),
    {
        let ea = match self.epoch() {
            Some(e) => e,
            None => 0,
        };
        let eb = match other.epoch() {
            Some(e) => e,
            None => 0,
        };
        if ea < eb {
            return Ordering::Less;
        }
        if ea > eb {
            return Ordering::Greater;
        }
        let mut left = self.mod_version();
        let mut right = other.mod_version();
        while !left.is_empty() && !right.is_empty()
            invariant
                version_cmp(self@, other@) == body_cmp(left@, right@),
            decreases left@.len(),
        {
            proof {
                lemma_round_shrinks(left@);
            }
            let c = str_cmp(&mut left, &mut right);
            match c {
                Ordering::Equal => {},
                _ => return c,
            }
            let c = num_cmp(&mut left, &mut right);
            match c {
                Ordering::Equal => {},
                _ => return c,
            }
        }
        let le = left.is_empty();
        let re = right.is_empty();
        if le && re {
            Ordering::Equal
        } else if le {
            Ordering::Less
        } else {
            Ordering::Greater
        }
    }
}

proof fn lemma_colon_pos_bound(s: Seq<char>)
    ensures
        colon_pos(s) <= s.len(),
        colon_pos(s) < s.len() ==> s[colon_pos(s) as int] == ':',
    decreases s.len(),
{
    if s.len() > 0 && s[0] != ':' {
        lemma_colon_pos_bound(s.drop_first());
        if colon_pos(s) < s.len() {
            assert(s[colon_pos(s) as int] == s.drop_first()[colon_pos(s.drop_first()) as int]);
        }
    }
}

proof fn lemma_colon_split(s: Seq<char>, before: Seq<char>, rest: Seq<char>)
    requires
        before + rest == s,
        forall|j: int| 0 <= j < before.len() ==> #[trigger] before[j] != ':',
        rest.len() > 0 ==> rest[0] == ':',
    ensures
        colon_pos(s) == before.len(),
        before == s.take(before.len() as int),
    decreases before.len(),
{
    assert(before =~= s.take(before.len() as int));
    if before.len() > 0 {
        assert(s[0] == before[0]);
        assert(before.drop_first() + rest =~= s.drop_first());
        assert forall|j: int| 0 <= j < before.drop_first().len() implies #[trigger] before.drop_first()[j] != ':' by {
            assert(before.drop_first()[j] == before[j + 1]);
        }
        lemma_colon_split(s.drop_first(), before.drop_first(), rest);
    } else if rest.len() > 0 {
        assert(s[0] == rest[0]);
    }
}

impl Clone for ModuleVersion {
    fn clone(&self) -> (r: ModuleVersion)
        ensures
            r@ == self@,
    {
        proof {
            use_type_invariant(self);
        }
        ModuleVersion {
            epoch: self.epoch,
            mod_version_start: self.mod_version_start,
            string: self.string.clone(),
        }
    }
}

impl PartialEq for ModuleVersion {
    fn eq(&self, other: &Self) -> (r: bool)
        ensures
            r == (version_cmp(self@, other@) == Ordering::Equal),
    {
        match self.cmp(other) {
            Ordering::Equal => true,
            _ => false,
        }
    }
}

impl vstd::std_specs::cmp::PartialEqSpecImpl for ModuleVersion {
    open spec fn obeys_eq_spec() -> bool {
        true
    }

    open spec fn eq_spec(&self, other: &Self) -> bool {
        version_cmp(self@, other@) == Ordering::Equal
    }
}

impl Eq for ModuleVersion {

}

impl PartialOrd for ModuleVersion {
    fn partial_cmp(&self, other: &Self) -> (r: Option<Ordering>) {
        Some(self.cmp(other))
    }
}

impl vstd::std_specs::cmp::PartialOrdSpecImpl for ModuleVersion {
    open spec fn obeys_partial_cmp_spec() -> bool {
        true
    }

    open spec fn partial_cmp_spec(&self, other: &Self) -> Option<Ordering> {
        Some(version_cmp(self@, other@))
    }
}

impl From<String> for ModuleVersion {
    fn from(value: String) -> (r: ModuleVersion)
        ensures
            r@ == value@,
    {
        ModuleVersion::parse(value)
    }
}

impl vstd::std_specs::convert::FromSpecImpl<String> for ModuleVersion {
    open spec fn obeys_from_spec() -> bool {
        false
    }

    open spec fn from_spec(v: String) -> ModuleVersion {
        arbitrary()
    }
}

impl From<&str> for ModuleVersion {
    fn from(value: &str) -> (r: ModuleVersion)
        ensures
            r@ == value@,
    {
        ModuleVersion::parse(value.to_owned())
    }
}

impl vstd::std_specs::convert::FromSpecImpl<&str> for ModuleVersion {
    open spec fn obeys_from_spec() -> bool {
        false
    }

    open spec fn from_spec(v: &str) -> ModuleVersion {
        arbitrary()
    }
}

/// Rank of a segment in the order of `seg_cmp`: plain text, then a `.`-segment
/// with text after the dot, then a bare `.`.
spec fn seg_rank(l: Seq<char>) -> int {
    if !(l.len() > 0 && l[0] == '.') {
        0
    } else if l.len() == 1 {
        2
    } else {
        1
    }
}

proof fn lemma_seg_cmp_laws(a: Seq<char>, b: Seq<char>)
    ensures
        seg_cmp(a, b) == (if seg_rank(a) != seg_rank(b) {
            cmp_int(seg_rank(a), seg_rank(b))
        } else {
            lex_cmp(a, b)
        }),
        seg_cmp(a, b) == flip(seg_cmp(b, a)),
        seg_cmp(a, b) == Ordering::Equal <==> a == b,
{
    lemma_lex_cmp_laws(a, b);
}

proof fn lemma_seg_cmp_trans(a: Seq<char>, b: Seq<char>, c: Seq<char>)
    requires
        seg_cmp(a, b) != Ordering::Greater,
        seg_cmp(b, c) != Ordering::Greater,
    ensures
        seg_cmp(a, c) != Ordering::Greater,
        seg_cmp(a, b) == Ordering::Less || seg_cmp(b, c) == Ordering::Less ==> seg_cmp(a, c)
            == Ordering::Less,
{
    lemma_seg_cmp_laws(a, b);
    lemma_seg_cmp_laws(b, c);
    lemma_seg_cmp_laws(a, c);
    if seg_rank(a) == seg_rank(b) && seg_rank(b) == seg_rank(c) {
        lemma_lex_cmp_trans(a, b, c);
    }
}

proof fn lemma_body_cmp_antisym(a: Seq<char>, b: Seq<char>)
    ensures
        body_cmp(a, b) == flip(body_cmp(b, a)),
    decreases a.len(),
{
    if a.len() == 0 || b.len() == 0 {
        lemma_lex_cmp_laws(a, b);
    } else {
        lemma_seg_cmp_laws(lead_segment(a), lead_segment(b));
        lemma_round_shrinks(a);
        lemma_body_cmp_antisym(
            after_number(after_segment(a)),
            after_number(after_segment(b)),
        );
    }
}

proof fn lemma_body_cmp_trans(a: Seq<char>, b: Seq<char>, c: Seq<char>)
    requires
        body_cmp(a, b) != Ordering::Greater,
        body_cmp(b, c) != Ordering::Greater,
    ensures
        body_cmp(a, c) != Ordering::Greater,
        body_cmp(a, b) == Ordering::Less || body_cmp(b, c) == Ordering::Less ==> body_cmp(a, c)
            == Ordering::Less,
    decreases a.len(),
{
    if a.len() > 0 && b.len() > 0 && c.len() > 0 {
        let (sa, sb, sc) = (lead_segment(a), lead_segment(b), lead_segment(c));
        lemma_seg_cmp_trans(sa, sb, sc);
        lemma_seg_cmp_laws(sa, sb);
        lemma_seg_cmp_laws(sb, sc);
        if seg_cmp(sa, sb) == Ordering::Equal && seg_cmp(sb, sc) == Ordering::Equal {
            lemma_round_shrinks(a);
            let (a1, b1, c1) = (after_segment(a), after_segment(b), after_segment(c));
            let va = decimal_value(lead_number(a1)) as int;
            let vb = decimal_value(lead_number(b1)) as int;
            let vc = decimal_value(lead_number(c1)) as int;
            if va == vb && vb == vc {
                lemma_body_cmp_trans(after_number(a1), after_number(b1), after_number(c1));
            }
        }
    }
}

/// The order of version texts is antisymmetric (see `lemma_version_cmp_antisymmetric`).
pub proof fn lemma_version_text_antisymmetric(a: Seq<char>, b: Seq<char>)
    ensures
        version_cmp(a, b) == flip(version_cmp(b, a)),
        version_cmp(a, a) == Ordering::Equal,
{
    lemma_body_cmp_antisym(body_of(a), body_of(b));
    lemma_body_cmp_antisym(body_of(a), body_of(a));
}

/// The order of version texts is transitive (see `lemma_version_cmp_transitive`).
pub proof fn lemma_version_text_transitive(a: Seq<char>, b: Seq<char>, c: Seq<char>)
    requires
        version_cmp(a, b) != Ordering::Greater,
        version_cmp(b, c) != Ordering::Greater,
    ensures
        version_cmp(a, c) != Ordering::Greater,
        version_cmp(a, b) == Ordering::Less || version_cmp(b, c) == Ordering::Less ==> version_cmp(a, c)
            == Ordering::Less,
{
    let (ea, eb, ec) = (epoch_or_zero(a), epoch_or_zero(b), epoch_or_zero(c));
    if ea == eb && eb == ec {
        lemma_body_cmp_trans(body_of(a), body_of(b), body_of(c));
    }
}

/// Every version compares `Equal` to itself.
pub proof fn lemma_version_cmp_reflexive(a: ModuleVersion)
    ensures
        version_cmp(a@, a@) == Ordering::Equal,
{
    lemma_version_text_antisymmetric(a@, a@);
}

/// Swapping the two versions flips the result of the comparison, so two
/// versions each at most the other compare `Equal`.
pub proof fn lemma_version_cmp_antisymmetric(a: ModuleVersion, b: ModuleVersion)
    ensures
        version_cmp(a@, b@) == flip(version_cmp(b@, a@)),
        version_cmp(a@, b@) != Ordering::Greater && version_cmp(b@, a@) != Ordering::Greater
            ==> version_cmp(a@, b@) == Ordering::Equal,
{
    lemma_version_text_antisymmetric(a@, b@);
}

/// The order is transitive: `a <= b` and `b <= c` give `a <= c`, and the result
/// is strict when either step is.
pub proof fn lemma_version_cmp_transitive(a: ModuleVersion, b: ModuleVersion, c: ModuleVersion)
    requires
        version_cmp(a@, b@) != Ordering::Greater,
        version_cmp(b@, c@) != Ordering::Greater,
    ensures
        version_cmp(a@, c@) != Ordering::Greater,
        version_cmp(a@, b@) == Ordering::Less || version_cmp(b@, c@) == Ordering::Less
            ==> version_cmp(a@, c@) == Ordering::Less,
{
    lemma_version_text_transitive(a@, b@, c@);
}

/// Number of `0` characters that lead `s`.
pub open spec fn zero_run(s: Seq<char>) -> nat
    decreases s.len(),
{
    if s.len() == 0 || s[0] != '0' {
        0
    } else {
        1 + zero_run(s.drop_first())
    }
}

/// A run of digits without its leading zeros; the number zero is written `0`.
pub open spec fn canonical_digits(d: Seq<char>) -> Seq<char> {
    let t = d.skip(zero_run(d) as int);
    if t.len() == 0 {
        seq!['0']
    } else {
        t
    }
}

/// A version body with every number rewritten without leading zeros (and an
/// empty number as `0`), so that bodies that compare equal normalize alike.
pub open spec fn normal_body(s: Seq<char>) -> Seq<char>
    decreases s.len(),
    via normal_body_decreases
{
    if s.len() == 0 {
        Seq::empty()
    } else {
        lead_segment(s) + canonical_digits(lead_number(after_segment(s))) + normal_body(
            after_number(after_segment(s)),
        )
    }
}

#[via_fn]
proof fn normal_body_decreases(s: Seq<char>) {
    if s.len() > 0 {
        lemma_round_shrinks(s);
    }
}

/// The projection of a version that hashing uses: epoch (zero when missing)
/// and normalized body.
pub open spec fn hash_key_of(s: Seq<char>) -> (u32, Seq<char>) {
    (epoch_or_zero(s), normal_body(body_of(s)))
}

proof fn lemma_zero_split(d: Seq<char>, zeros: Seq<char>, rest: Seq<char>)
    requires
        zeros + rest == d,
        forall|j: int| 0 <= j < zeros.len() ==> #[trigger] zeros[j] == '0',
        rest.len() > 0 ==> rest[0] != '0',
    ensures
        zero_run(d) == zeros.len(),
        rest == d.skip(zeros.len() as int),
    decreases zeros.len(),
{
    assert(rest =~= d.skip(zeros.len() as int));
    if zeros.len() > 0 {
        assert(d[0] == zeros[0]);
        assert(zeros.drop_first() + rest =~= d.drop_first());
        assert forall|j: int| 0 <= j < zeros.drop_first().len() implies #[trigger] zeros.drop_first()[j] == '0' by {
            assert(zeros.drop_first()[j] == zeros[j + 1]);
        }
        lemma_zero_split(d.drop_first(), zeros.drop_first(), rest);
    } else if rest.len() > 0 {
        assert(d[0] == rest[0]);
    }
}

proof fn lemma_zero_run_bound(s: Seq<char>)
    ensures
        zero_run(s) <= s.len(),
        forall|j: int| 0 <= j < zero_run(s) ==> #[trigger] s[j] == '0',
        zero_run(s) < s.len() ==> s[zero_run(s) as int] != '0',
    decreases s.len(),
{
    if s.len() > 0 && s[0] == '0' {
        lemma_zero_run_bound(s.drop_first());
        assert forall|j: int| 0 <= j < zero_run(s) implies #[trigger] s[j] == '0' by {
            if j > 0 {
                assert(s[j] == s.drop_first()[j - 1]);
            }
        }
        if zero_run(s) < s.len() {
            assert(s[zero_run(s) as int] == s.drop_first()[zero_run(s.drop_first()) as int]);
        }
    }
}

/// Digit runs that write the same number have the same canonical form.
proof fn lemma_canonical_digits(a: Seq<char>, b: Seq<char>)
    requires
        all_digits(a),
        all_digits(b),
        decimal_value(a) == decimal_value(b),
    ensures
        canonical_digits(a) == canonical_digits(b),
{
    lemma_zero_run_bound(a);
    lemma_zero_run_bound(b);
    let ta = a.skip(zero_run(a) as int);
    let tb = b.skip(zero_run(b) as int);
    lemma_value_skip_zeros(a, zero_run(a) as int);
    lemma_value_skip_zeros(b, zero_run(b) as int);
    assert(all_digits(ta)) by {
        assert forall|j: int| 0 <= j < ta.len() implies is_digit(#[trigger] ta[j]) by {
            assert(ta[j] == a[j + zero_run(a)]);
        }
    }
    assert(all_digits(tb)) by {
        assert forall|j: int| 0 <= j < tb.len() implies is_digit(#[trigger] tb[j]) by {
            assert(tb[j] == b[j + zero_run(b)]);
        }
    }
    lemma_value_bound(ta);
    lemma_value_bound(tb);
    if ta.len() > 0 {
        assert(ta[0] == a[zero_run(a) as int]);
        lemma_value_lower(ta);
        lemma_pow10_mono(0, (ta.len() - 1) as nat);
    }
    if tb.len() > 0 {
        assert(tb[0] == b[zero_run(b) as int]);
        lemma_value_lower(tb);
        lemma_pow10_mono(0, (tb.len() - 1) as nat);
    }
    if ta.len() > 0 && tb.len() > 0 {
        if ta.len() < tb.len() {
            lemma_pow10_mono(ta.len(), (tb.len() - 1) as nat);
        } else if tb.len() < ta.len() {
            lemma_pow10_mono(tb.len(), (ta.len() - 1) as nat);
        } else {
            lemma_value_same_len(ta, tb);
            lemma_lex_cmp_laws(ta, tb);
        }
    }
}

proof fn lemma_lead_number_digits(s: Seq<char>)
    ensures
        all_digits(lead_number(s)),
{
    lemma_run_len_bound(s, true);
    let d = lead_number(s);
    assert forall|j: int| 0 <= j < d.len() implies is_digit(#[trigger] d[j]) by {
        assert(d[j] == s[j]);
    }
}

proof fn lemma_equal_bodies_normalize(a: Seq<char>, b: Seq<char>)
    requires
        body_cmp(a, b) == Ordering::Equal,
    ensures
        normal_body(a) == normal_body(b),
    decreases a.len(),
{
    if a.len() == 0 || b.len() == 0 {
        lemma_lex_cmp_laws(a, b);
    } else {
        lemma_seg_cmp_laws(lead_segment(a), lead_segment(b));
        let (a1, b1) = (after_segment(a), after_segment(b));
        lemma_lead_number_digits(a1);
        lemma_lead_number_digits(b1);
        lemma_canonical_digits(lead_number(a1), lead_number(b1));
        lemma_round_shrinks(a);
        lemma_equal_bodies_normalize(after_number(a1), after_number(b1));
    }
}

/// Versions that compare equal have the same hash key, so a hash of the key is
/// consistent with `==`.
pub proof fn lemma_equal_versions_share_hash_key(a: ModuleVersion, b: ModuleVersion)
    requires
        version_cmp(a@, b@) == Ordering::Equal,
    ensures
        hash_key_of(a@) == hash_key_of(b@),
{
    lemma_equal_bodies_normalize(body_of(a@), body_of(b@));
}

impl ModuleVersion {
    /// The epoch (zero when missing) and the normalized body: the projection
    /// that a hash of a version must use to agree with `==`.
    pub fn hash_key(&self) -> (r: (u32, String))
        ensures
            r.0 == hash_key_of(self@).0,
            r.1@ == hash_key_of(self@).1,
    {
        let e = match self.epoch() {
            Some(e) => e,
            None => 0,
        };
        let mut out = String::new();
        let mut rest = self.mod_version();
        assert(out@ + normal_body(rest@) =~= normal_body(body_of(self@)));
        while !rest.is_empty()
            invariant
                out@ + normal_body(rest@) == normal_body(body_of(self@)),
            decreases rest@.len(),
        {
            proof {
                lemma_round_shrinks(rest@);
            }
            let ghost r0 = rest@;
            let seg = take_prefix(&mut rest, |c: char| -> (b: bool) ensures b == !is_digit(c) { !('0' <= c && c <= '9') });
            proof {
                lemma_split_run(r0, seg@, rest@, false);
            }
            let ghost r1 = rest@;
            let mut digits = take_prefix(&mut rest, |c: char| -> (b: bool) ensures b == is_digit(c) { '0' <= c && c <= '9' });
            proof {
                lemma_split_run(r1, digits@, rest@, true);
            }
            let ghost d = digits@;
            let zeros = take_prefix(&mut digits, |c: char| -> (b: bool) ensures b == (c == '0') { c == '0' });
            proof {
                lemma_zero_split(d, zeros@, digits@);
            }
            let ghost before = out@;
            out.append(seg);
            if digits.is_empty() {
                proof {
                    reveal_strlit("0");
                }
                out.append("0");
                assert(out@ =~= before + seg@ + canonical_digits(d));
            } else {
                out.append(digits);
                assert(out@ =~= before + seg@ + canonical_digits(d));
            }
            assert(normal_body(r0) == seg@ + canonical_digits(d) + normal_body(rest@));
            assert(out@ + normal_body(rest@) =~= before + normal_body(r0));
        }
        (e, out)
    }
}

/// How the natural sort splits a version `m.a` of two digit runs.
proof fn lemma_dotted_shape(m: Seq<char>, a: Seq<char>)
    requires
        m.len() > 0,
        a.len() > 0,
        all_digits(m),
        all_digits(a),
    ensures
        ({
            let x = m + seq!['.'] + a;
            let y = seq!['.'] + a;
            &&& epoch_or_zero(x) == 0
            &&& body_of(x) == x
            &&& lead_segment(x) == Seq::<char>::empty()
            &&& after_segment(x) == x
            &&& lead_number(x) == m
            &&& after_number(x) == y
            &&& lead_segment(y) == seq!['.']
            &&& after_segment(y) == a
            &&& lead_number(a) == a
            &&& after_number(a) == Seq::<char>::empty()
        }),
{
    let x = m + seq!['.'] + a;
    let y = seq!['.'] + a;
    assert forall|j: int| 0 <= j < x.len() implies #[trigger] x[j] != ':' by {
        if j < m.len() {
            assert(is_digit(m[j]));
        } else if j > m.len() {
            assert(x[j] == a[j - m.len() - 1]);
            assert(is_digit(a[j - m.len() - 1]));
        }
    }
    lemma_colon_split(x, x, Seq::empty());
    assert(x + Seq::<char>::empty() =~= x);
    assert(x.skip(0) =~= x);
    assert(is_digit(x[0]));
    lemma_run_len_exact(x, false, 0);
    assert(x.take(0) =~= Seq::<char>::empty());
    assert forall|j: int| 0 <= j < m.len() implies is_digit(#[trigger] x[j]) == true by {
        assert(x[j] == m[j]);
    }
    assert(x[m.len() as int] == '.');
    lemma_run_len_exact(x, true, m.len() as int);
    assert(x.take(m.len() as int) =~= m);
    assert(x.skip(m.len() as int) =~= y);
    assert(y[1] == a[0]);
    assert forall|j: int| 0 <= j < 1 implies is_digit(#[trigger] y[j]) == false by {}
    lemma_run_len_exact(y, false, 1);
    assert(y.take(1) =~= seq!['.']);
    assert(y.skip(1) =~= a);
    lemma_run_len_exact(a, true, a.len() as int);
    assert(a.take(a.len() as int) =~= a);
    assert(a.skip(a.len() as int) =~= Seq::<char>::empty());
}

/// Versions `m.a` and `m.b`, where `m`, `a` and `b` are runs of digits,
/// compare as the numbers `a` and `b` do: the natural sort puts `1.10`
/// above `1.2`.
pub proof fn lemma_dotted_numbers_compare_by_value(m: Seq<char>, a: Seq<char>, b: Seq<char>)
    requires
        m.len() > 0,
        a.len() > 0,
        b.len() > 0,
        all_digits(m),
        all_digits(a),
        all_digits(b),
    ensures
        version_cmp(m + seq!['.'] + a, m + seq!['.'] + b) == cmp_int(
            decimal_value(a) as int,
            decimal_value(b) as int,
        ),
{
    lemma_dotted_shape(m, a);
    lemma_dotted_shape(m, b);
    let xa = m + seq!['.'] + a;
    let xb = m + seq!['.'] + b;
    lemma_lex_cmp_laws(Seq::<char>::empty(), Seq::<char>::empty());
    lemma_lex_cmp_laws(seq!['.'], seq!['.']);
    assert(seg_cmp(Seq::<char>::empty(), Seq::<char>::empty()) == Ordering::Equal);
    assert(seg_cmp(seq!['.'], seq!['.']) == Ordering::Equal);
    assert(body_cmp(Seq::<char>::empty(), Seq::<char>::empty()) == Ordering::Equal);
    assert(body_cmp(seq!['.'] + a, seq!['.'] + b) == cmp_int(
        decimal_value(a) as int,
        decimal_value(b) as int,
    ));
    assert(body_cmp(xa, xb) == body_cmp(seq!['.'] + a, seq!['.'] + b));
}

} // verus!
