//! The version of the release-document format a document follows. Version
//! 1.0 is written as the integer `1`; every other as a text `vMAJOR.MINOR`.

use vstd::prelude::*;

use crate::game_spec::lemma_short_component;
use crate::text::{
    all_digits, decimal_text, first_pos, is_digit, lemma_decimal_text, lemma_first_pos_bound,
    lemma_first_pos_split, parse_unsigned, push_decimal, split_before, unsigned_text,
};

verus! {

/// The version of the release-document format.
#[derive(Debug, Clone, Copy, PartialEq, Eq, Structural)]
pub struct SpecVersion {
    pub major: u16,
    pub minor: u16,
}

/// How a document writes a format version: an integer or a text.
#[derive(Debug, Clone, PartialEq, Eq)]
pub enum SpecVersionValue {
    Integer(u64),
    Text(String),
}

/// The version a `vMAJOR.MINOR` text writes: a `v`, then two unsigned 16-bit
/// numbers split at the first dot.
pub open spec fn spec_version_of_text(t: Seq<char>) -> Option<SpecVersion> {
    if t.len() == 0 || t[0] != 'v' {
        None
    } else {
        let body = t.drop_first();
        let i = first_pos(body, '.');
        if i >= body.len() {
            None
        } else {
            match (unsigned_text(body.take(i as int), u16::MAX as nat), unsigned_text(body.skip(i + 1 as int), u16::MAX as nat)) {
                (Some(major), Some(minor)) => Some(SpecVersion { major: major as u16, minor: minor as u16 }),
                _ => None,
            }
        }
    }
}

/// The version a document value writes: the integer `1` is version 1.0, and
/// no other integer is a version.
pub open spec fn spec_version_of_value(v: SpecVersionValue) -> Option<SpecVersion> {
    match v {
        SpecVersionValue::Integer(n) => if n == 1 {
            Some(SpecVersion { major: 1, minor: 0 })
        } else {
            None
        },
        SpecVersionValue::Text(t) => spec_version_of_text(t@),
    }
}

/// The text `vMAJOR.MINOR`.
pub open spec fn spec_version_text(s: SpecVersion) -> Seq<char> {
    seq!['v'] + decimal_text(s.major as nat) + seq!['.'] + decimal_text(s.minor as nat)
}

impl SpecVersion {
    /// Reads a format version from a document value; `None` for a value that is none.
    pub fn from_value(v: &SpecVersionValue) -> (r: Option<SpecVersion>)
        ensures
            r == spec_version_of_value(*v),
    {
        match v {
            SpecVersionValue::Integer(n) => if *n == 1 {
                Some(SpecVersion { major: 1, minor: 0 })
            } else {
                None
            },
            SpecVersionValue::Text(t) => {
                let t: &str = t.as_str();
                let n = t.unicode_len();
                if n == 0 || t.get_char(0) != 'v' {
                    return None;
                }
                let mut rest = t.substring_char(1, n);
                assert(rest@ =~= t@.drop_first());
                let ghost body = rest@;
                let major = split_before(&mut rest, '.');
                proof {
                    lemma_first_pos_bound(body, '.');
                }
                if rest.is_empty() {
                    return None;
                }
                let m = rest.unicode_len();
                let minor = rest.substring_char(1, m);
                assert(minor@ =~= body.skip(first_pos(body, '.') + 1 as int));
                match (parse_unsigned(major, 65535), parse_unsigned(minor, 65535)) {
                    (Some(a), Some(b)) => Some(SpecVersion { major: a as u16, minor: b as u16 }),
                    _ => None,
                }
            },
        }
    }

    /// Writes the format version as a document value: version 1.0 as the
    /// integer `1`, every other as `vMAJOR.MINOR`.
    pub fn to_value(&self) -> (r: SpecVersionValue)
        ensures
            self.major == 1 && self.minor == 0 ==> r == SpecVersionValue::Integer(1),
            !(self.major == 1 && self.minor == 0) ==> (r matches SpecVersionValue::Text(t) && t@ == spec_version_text(*self)),
    {
        if self.major == 1 && self.minor == 0 {
            return SpecVersionValue::Integer(1);
        }
        proof {
            reveal_strlit("v");
            reveal_strlit(".");
        }
        let mut out = String::new();
        out.append("v");
        push_decimal(&mut out, self.major as u32);
        out.append(".");
        push_decimal(&mut out, self.minor as u32);
        assert(out@ =~= spec_version_text(*self));
        SpecVersionValue::Text(out)
    }
}

/// Writing a format version and reading it back gives it again; the integer
/// `1` and version 1.0 stand for each other.
pub proof fn lemma_spec_version_round_trip(s: SpecVersion)
    ensures
        spec_version_of_value(SpecVersionValue::Integer(1)) == Some(SpecVersion { major: 1, minor: 0 }),
        spec_version_of_text(spec_version_text(s)) == Some(s),
{
    let a = decimal_text(s.major as nat);
    let b = decimal_text(s.minor as nat);
    lemma_decimal_text(s.major as nat);
    lemma_decimal_text(s.minor as nat);
    lemma_short_component(s.major as nat);
    lemma_short_component(s.minor as nat);
    let t = spec_version_text(s);
    let body = t.drop_first();
    assert(body =~= a + (seq!['.'] + b));
    assert forall|j: int| 0 <= j < a.len() implies #[trigger] a[j] != '.' by {
        assert(is_digit(a[j]));
    }
    lemma_first_pos_split(body, '.', a, seq!['.'] + b);
    assert(body.take(a.len() as int) =~= a);
    assert(body.skip(a.len() + 1 as int) =~= b);
}

} // verus!
