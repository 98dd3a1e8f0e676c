//! Game versions as release documents write them: a text such as `1.12.3`,
//! the text `any`, or `null`.

use vstd::prelude::*;

use crate::game::{any_text, component, dot_parts, game_version_result, slots, GameVersion, GameVersionParseError};
use crate::text::{
    all_digits, decimal_text, first_pos, is_digit, lemma_decimal_text, lemma_first_pos_split,
    parse_unsigned, push_decimal, unsigned_text,
};

verus! {

/// A game version constraint: any version, or a major version with an
/// optional minor version and, after it, an optional patch.
#[derive(Debug, Clone, Copy, PartialEq, Eq, Structural)]
pub enum GameVersionSpec {
    Any,
    Named { major: u16, minor: Option<u16>, patch: Option<u16> },
}

/// The number a component writes, if it is an unsigned 16-bit integer.
pub open spec fn short_component(p: Seq<char>) -> Option<nat> {
    unsigned_text(p, u16::MAX as nat)
}

/// The optional component `k` of `parts`, or `None` when it is missing; the
/// outer `None` says it is there and is no number.
pub open spec fn short_slot(parts: Seq<Seq<char>>, k: int) -> Option<Option<u16>> {
    if k >= parts.len() {
        Some(None)
    } else {
        match short_component(parts[k]) {
            Some(v) => Some(Some(v as u16)),
            None => None,
        }
    }
}

/// The constraint a text writes: `any`, or one to three dotted numbers
/// (`major[.minor[.patch]]`); a fourth part makes the text no constraint.
pub open spec fn game_spec_of_text(t: Seq<char>) -> Option<GameVersionSpec> {
    if t == any_text() {
        Some(GameVersionSpec::Any)
    } else if dot_parts(t).len() > 3 {
        None
    } else {
        let parts = dot_parts(t);
        match (short_slot(parts, 0), short_slot(parts, 1), short_slot(parts, 2)) {
            (Some(Some(major)), Some(minor), Some(patch)) => Some(
                GameVersionSpec::Named { major, minor, patch },
            ),
            _ => None,
        }
    }
}

/// The text a named constraint is written as: the patch appears only after a minor version.
pub open spec fn game_spec_text(major: u16, minor: Option<u16>, patch: Option<u16>) -> Seq<char> {
    match minor {
        None => decimal_text(major as nat),
        Some(mi) => decimal_text(major as nat) + seq!['.'] + decimal_text(mi as nat) + match patch {
            None => Seq::<char>::empty(),
            Some(pa) => seq!['.'] + decimal_text(pa as nat),
        },
    }
}

/// A document value: `None` for `null`, else a text.
pub open spec fn game_spec_of_value(v: Option<Seq<char>>) -> Option<GameVersionSpec> {
    match v {
        None => Some(GameVersionSpec::Any),
        Some(t) => game_spec_of_text(t),
    }
}

/// The document value that a constraint is written as.
pub open spec fn game_spec_value(s: GameVersionSpec) -> Option<Seq<char>> {
    match s {
        GameVersionSpec::Any => None,
        GameVersionSpec::Named { major, minor, patch } => Some(game_spec_text(major, minor, patch)),
    }
}

/// The text of an optional string.
pub open spec fn str_value(v: Option<&str>) -> Option<Seq<char>> {
    match v {
        Some(t) => Some(t@),
        None => None,
    }
}

/// The text of an optional owned string.
pub open spec fn string_value(v: Option<String>) -> Option<Seq<char>> {
    match v {
        Some(t) => Some(t@),
        None => None,
    }
}

pub open spec fn widen(v: Option<u16>) -> Option<u32> {
    match v {
        Some(x) => Some(x as u32),
        None => None,
    }
}

fn read_short(parts_left: &mut &str, more: &mut bool) -> (r: Option<Option<u16>>)
    ensures
        !*old(more) ==> r == Some(None::<u16>) && *final(more) == false && final(parts_left)@ == old(parts_left)@,
        *old(more) ==> ({
            let t = old(parts_left)@;
            let i = first_pos(t, '.');
            let head = t.take(i as int);
            &&& r == match short_component(head) {
                Some(v) => Some(Some(v as u16)),
                None => None::<Option<u16>>,
            }
            &&& *final(more) == (i < t.len())
            &&& (i < t.len() ==> final(parts_left)@ == t.skip(i as int + 1))
        }),
{
    if !*more {
        return Some(None);
    }
    let part = crate::text::split_before(parts_left, '.');
    proof {
        crate::text::lemma_first_pos_bound(old(parts_left)@, '.');
    }
    if parts_left.is_empty() {
        *more = false;
    } else {
        let n = parts_left.unicode_len();
        *parts_left = parts_left.substring_char(1, n);
        assert(parts_left@ =~= old(parts_left)@.skip(part@.len() as int + 1));
    }
    match parse_unsigned(part, 65535) {
        Some(v) => Some(Some(v as u16)),
        None => None,
    }
}

proof fn lemma_dot_parts_step(t: Seq<char>)
    ensures
        first_pos(t, '.') < t.len() ==> dot_parts(t) == seq![t.take(first_pos(t, '.') as int)]
            + dot_parts(t.skip(first_pos(t, '.') as int + 1)),
        first_pos(t, '.') >= t.len() ==> dot_parts(t) == seq![t] && t.take(first_pos(t, '.') as int) == t,
{
    crate::text::lemma_first_pos_bound(t, '.');
    if first_pos(t, '.') >= t.len() {
        assert(t.take(first_pos(t, '.') as int) =~= t);
    }
}

impl GameVersionSpec {
    pub fn is_any(&self) -> (r: bool)
        ensures
            r == (*self is Any),
    {
        match self {
            GameVersionSpec::Any => true,
            _ => false,
        }
    }

    pub fn major(&self) -> (r: Option<u16>)
        ensures
            r == match *self {
                GameVersionSpec::Named { major, .. } => Some(major),
                GameVersionSpec::Any => None,
            },
    {
        match self {
            GameVersionSpec::Named { major, .. } => Some(*major),
            GameVersionSpec::Any => None,
        }
    }

    pub fn minor(&self) -> (r: Option<u16>)
        ensures
            r == match *self {
                GameVersionSpec::Named { minor, .. } => minor,
                GameVersionSpec::Any => None,
            },
    {
        match self {
            GameVersionSpec::Named { minor, .. } => *minor,
            GameVersionSpec::Any => None,
        }
    }

    pub fn patch(&self) -> (r: Option<u16>)
        ensures
            r == match *self {
                GameVersionSpec::Named { patch, .. } => patch,
                GameVersionSpec::Any => None,
            },
    {
        match self {
            GameVersionSpec::Named { patch, .. } => *patch,
            GameVersionSpec::Any => None,
        }
    }

    /// Reads a constraint from a document value: `null` (`None`) and `any`
    /// are any version; `None` comes back for a text that is no constraint.
    pub fn from_value(value: Option<&str>) -> (r: Option<GameVersionSpec>)
        ensures
            r == game_spec_of_value(str_value(value)),
    {
        let text = match value {
            None => return Some(GameVersionSpec::Any),
            Some(t) => t,
        };
        if crate::game::is_any_text(text) {
            return Some(GameVersionSpec::Any);
        }
        let mut rest: &str = text;
        let mut more = true;
        let ghost t0 = text@;
        proof {
            lemma_dot_parts_step(t0);
        }
        let major = read_short(&mut rest, &mut more);
        let ghost t1 = rest@;
        proof {
            lemma_dot_parts_step(t1);
        }
        let minor = read_short(&mut rest, &mut more);
        let ghost t2 = rest@;
        proof {
            lemma_dot_parts_step(t2);
        }
        let patch = read_short(&mut rest, &mut more);
        proof {
            lemma_dot_parts_step(rest@);
        }
        if more {
            return None;
        }
        match (major, minor, patch) {
            (Some(Some(major)), Some(minor), Some(patch)) => Some(GameVersionSpec::Named { major, minor, patch }),
            _ => None,
        }
    }

    /// Writes the constraint as a document value: `None` (`null`) for any version.
    pub fn to_value(&self) -> (r: Option<String>)
        ensures
            string_value(r) == game_spec_value(*self),
    {
        match self {
            GameVersionSpec::Any => None,
            GameVersionSpec::Named { major, minor, patch } => {
                proof {
                    reveal_strlit(".");
                }
                let mut out = String::new();
                push_decimal(&mut out, *major as u32);
                if let Some(mi) = minor {
                    out.append(".");
                    push_decimal(&mut out, *mi as u32);
                    if let Some(pa) = patch {
                        out.append(".");
                        push_decimal(&mut out, *pa as u32);
                        assert(out@ =~= game_spec_text(*major, *minor, *patch));
                    } else {
                        assert(out@ =~= game_spec_text(*major, *minor, *patch));
                    }
                } else {
                    assert(out@ =~= game_spec_text(*major, *minor, *patch));
                }
                Some(out)
            },
        }
    }

    /// The game version this constraint stands for; any version is the empty one.
    pub fn to_game_version(&self) -> (r: GameVersion)
        ensures
            r@ == match *self {
                GameVersionSpec::Any => (None::<u32>, None::<u32>, None::<u32>, None::<u32>),
                GameVersionSpec::Named { major, minor, patch } => (
                    Some(major as u32),
                    widen(minor),
                    widen(patch),
                    None::<u32>,
                ),
            },
    {
        match self {
            GameVersionSpec::Any => GameVersion::empty(),
            GameVersionSpec::Named { major, minor, patch } => {
                let mi = match minor {
                    Some(v) => Some(*v as u32),
                    None => None,
                };
                let pa = match patch {
                    Some(v) => Some(*v as u32),
                    None => None,
                };
                GameVersion::new(Some(*major as u32), mi, pa, None)
            },
        }
    }
}

/// A run of digits is one dotted part, whatever follows the dot after it.
pub proof fn lemma_dot_parts_digits(a: Seq<char>, rest: Option<Seq<char>>)
    requires
        all_digits(a),
    ensures
        match rest {
            None => dot_parts(a) == seq![a],
            Some(r) => dot_parts(a + seq!['.'] + r) == seq![a] + dot_parts(r),
        },
{
    assert forall|j: int| 0 <= j < a.len() implies #[trigger] a[j] != '.' by {
        assert(is_digit(a[j]));
    }
    match rest {
        None => {
            lemma_first_pos_split(a, '.', a, Seq::empty());
            assert(a + Seq::<char>::empty() =~= a);
            lemma_dot_parts_step(a);
        },
        Some(r) => {
            let t = a + seq!['.'] + r;
            assert(a + (seq!['.'] + r) =~= t);
            lemma_first_pos_split(t, '.', a, seq!['.'] + r);
            lemma_dot_parts_step(t);
            assert(t.take(a.len() as int) =~= a);
            assert(t.skip(a.len() as int + 1) =~= r);
        },
    }
}

pub proof fn lemma_short_component(n: nat)
    requires
        n <= u16::MAX,
    ensures
        short_component(decimal_text(n)) == Some(n),
{
    lemma_decimal_text(n);
}

/// Writing a constraint as a document value and reading it back gives the
/// constraint again (a patch is kept only after a minor version); `null` and
/// the text `any` both read as any version.
pub proof fn lemma_game_spec_round_trip(s: GameVersionSpec)
    requires
        s matches GameVersionSpec::Named { minor, patch, .. } ==> (minor is None ==> patch is None),
    ensures
        game_spec_of_value(game_spec_value(s)) == Some(s),
        game_spec_of_value(None) == Some(GameVersionSpec::Any),
        game_spec_of_value(Some(any_text())) == Some(GameVersionSpec::Any),
{
    if let GameVersionSpec::Named { major, minor, patch } = s {
        let a = decimal_text(major as nat);
        lemma_decimal_text(major as nat);
        lemma_short_component(major as nat);
        let t = game_spec_text(major, minor, patch);
        assert(is_digit(t[0])) by {
            assert(t[0] == a[0]);
        }
        assert(t != any_text()) by {
            assert(any_text()[0] == 'a');
        }
        match minor {
            None => {
                lemma_dot_parts_digits(a, None);
            },
            Some(mi) => {
                let b = decimal_text(mi as nat);
                lemma_decimal_text(mi as nat);
                lemma_short_component(mi as nat);
                match patch {
                    None => {
                        assert(t =~= a + seq!['.'] + b);
                        lemma_dot_parts_digits(a, Some(b));
                        lemma_dot_parts_digits(b, None);
                    },
                    Some(pa) => {
                        let c = decimal_text(pa as nat);
                        lemma_decimal_text(pa as nat);
                        lemma_short_component(pa as nat);
                        assert(t =~= a + seq!['.'] + (b + seq!['.'] + c));
                        lemma_dot_parts_digits(a, Some(b + seq!['.'] + c));
                        lemma_dot_parts_digits(b, Some(c));
                        lemma_dot_parts_digits(c, None);
                    },
                }
            },
        }
    }
}

/// A game version as a document writes it: `null` or `any` for the empty
/// version, else its dotted components up to the first absent one.
#[derive(Debug, Clone, Copy, PartialEq, Eq)]
pub struct MetaGameVersion(pub GameVersion);

/// The text a game version is written as, if it has a major component.
pub open spec fn meta_text(v: (Option<u32>, Option<u32>, Option<u32>, Option<u32>)) -> Option<Seq<char>> {
    match v.0 {
        None => None,
        Some(a) => Some(decimal_text(a as nat) + match v.1 {
            None => Seq::<char>::empty(),
            Some(b) => seq!['.'] + decimal_text(b as nat) + match v.2 {
                None => Seq::<char>::empty(),
                Some(c) => seq!['.'] + decimal_text(c as nat) + match v.3 {
                    None => Seq::<char>::empty(),
                    Some(d) => seq!['.'] + decimal_text(d as nat),
                },
            },
        }),
    }
}

impl MetaGameVersion {
    /// Reads a game version from a document value: `null` (`None`) is the
    /// empty version, a text reads as `GameVersion::from_str` reads it.
    pub fn from_value(value: Option<&str>) -> (r: Result<MetaGameVersion, GameVersionParseError>)
        ensures
            match value {
                None => r matches Ok(m) && m.0@ == (None::<u32>, None::<u32>, None::<u32>, None::<u32>),
                Some(t) => game_version_result(t@, match r {
                    Ok(m) => Ok(m.0),
                    Err(e) => Err(e),
                }),
            },
    {
        match value {
            None => Ok(MetaGameVersion(GameVersion::empty())),
            Some(t) => match GameVersion::from_str(t) {
                Ok(v) => Ok(MetaGameVersion(v)),
                Err(e) => Err(e),
            },
        }
    }

    /// Writes the version as a document value: `None` (`null`) when it has no
    /// major component, else its components up to the first absent one.
    pub fn to_value(&self) -> (r: Option<String>)
        ensures
            string_value(r) == meta_text(self.0@),
    {
        proof {
            reveal_strlit(".");
        }
        let major = match self.0.major() {
            None => return None,
            Some(a) => a,
        };
        let mut out = String::new();
        push_decimal(&mut out, major);
        match self.0.minor() {
            None => {},
            Some(b) => {
                out.append(".");
                push_decimal(&mut out, b);
                match self.0.patch() {
                    None => {},
                    Some(c) => {
                        out.append(".");
                        push_decimal(&mut out, c);
                        match self.0.build() {
                            None => {},
                            Some(d) => {
                                out.append(".");
                                push_decimal(&mut out, d);
                            },
                        }
                    },
                }
            },
        }
        assert(out@ =~= meta_text(self.0@)->0);
        Some(out)
    }
}

} // verus!
