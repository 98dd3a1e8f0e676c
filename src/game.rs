//! Game versions: up to four dotted numeric components, ordered component by
//! component with a missing component below any number.

use core::cmp::Ordering;
use vstd::prelude::*;

use crate::text::{
    cmp_int, first_pos, lemma_first_pos_bound, parse_unsigned, split_before, trim_space, trimmed,
    unsigned_text,
};

verus! {

/// A version of the game: major, minor, patch and build, each possibly absent.
#[derive(Debug, Clone, Copy, PartialEq, Eq, Structural)]
pub struct GameVersion {
    major: Option<u32>,
    minor: Option<u32>,
    patch: Option<u32>,
    build: Option<u32>,
}

/// Why a text is not a game version.
#[derive(Debug, Clone, PartialEq, Eq)]
pub enum GameVersionParseError {
    /// More than four dotted components.
    TooManyParts,
    /// A component (given here as written) that is not an unsigned integer.
    NotInteger(String),
}

/// The components of a game version, in order.
pub type GameVersionView = (Option<u32>, Option<u32>, Option<u32>, Option<u32>);

impl View for GameVersion {
    type V = GameVersionView;

    closed spec fn view(&self) -> GameVersionView {
        (self.major, self.minor, self.patch, self.build)
    }
}

/// Order of two optional components: absent first, then by value.
pub open spec fn part_cmp(a: Option<u32>, b: Option<u32>) -> Ordering {
    match (a, b) {
        (None, None) => Ordering::Equal,
        (None, Some(_)) => Ordering::Less,
        (Some(_), None) => Ordering::Greater,
        (Some(x), Some(y)) => cmp_int(x as int, y as int),
    }
}

/// Lexicographic order of game versions over their four components.
pub open spec fn game_cmp(a: GameVersionView, b: GameVersionView) -> Ordering {
    if part_cmp(a.0, b.0) != Ordering::Equal {
        part_cmp(a.0, b.0)
    } else if part_cmp(a.1, b.1) != Ordering::Equal {
        part_cmp(a.1, b.1)
    } else if part_cmp(a.2, b.2) != Ordering::Equal {
        part_cmp(a.2, b.2)
    } else {
        part_cmp(a.3, b.3)
    }
}

/// The pieces of `s` between dots (one more than there are dots).
pub open spec fn dot_parts(s: Seq<char>) -> Seq<Seq<char>>
    decreases s.len(),
    via dot_parts_decreases
{
    let i = first_pos(s, '.');
    if i >= s.len() {
        seq![s]
    } else {
        seq![s.take(i as int)] + dot_parts(s.skip(i + 1 as int))
    }
}

#[via_fn]
proof fn dot_parts_decreases(s: Seq<char>) {
    lemma_first_pos_bound(s, '.');
}

/// The number a dotted component writes, white space around it allowed.
pub open spec fn component(p: Seq<char>) -> Option<nat> {
    unsigned_text(trimmed(p), u32::MAX as nat)
}

/// The first `n` parts (or all, if fewer) are numbers.
pub open spec fn parts_read(parts: Seq<Seq<char>>, n: int) -> bool {
    forall|j: int| 0 <= j < n && j < parts.len() ==> component(#[trigger] parts[j]) is Some
}

/// Component `k` of the version that `parts` write.
pub open spec fn slot(parts: Seq<Seq<char>>, k: int) -> Option<u32> {
    if k < parts.len() {
        Some(component(parts[k])->0 as u32)
    } else {
        None
    }
}

/// The game version whose parts are `parts`.
pub open spec fn slots(parts: Seq<Seq<char>>) -> GameVersionView {
    (slot(parts, 0), slot(parts, 1), slot(parts, 2), slot(parts, 3))
}

/// The text `any`, which stands for every game version.
pub open spec fn any_text() -> Seq<char> {
    seq!['a', 'n', 'y']
}

pub(crate) fn is_any_text(s: &str) -> (r: bool)
    ensures
        r == (s@ == any_text()),
{
    if s.unicode_len() != 3 {
        return false;
    }
    let r = s.get_char(0) == 'a' && s.get_char(1) == 'n' && s.get_char(2) == 'y';
    assert(r ==> s@ =~= any_text());
    r
}

/// `r` is what reading `s` as a game version gives: `any` is the empty
/// version; otherwise one to four dotted numbers, the first part that is no
/// number refused as `NotInteger`, and a fifth part as `TooManyParts`.
pub open spec fn game_version_result(s: Seq<char>, r: Result<GameVersion, GameVersionParseError>) -> bool {
    &&& s == any_text() ==> (r matches Ok(v) && v@ == (None::<u32>, None::<u32>, None::<u32>, None::<u32>))
    &&& s != any_text() ==> match r {
        Ok(v) => dot_parts(s).len() <= 4 && parts_read(dot_parts(s), 4) && v@ == slots(dot_parts(s)),
        Err(GameVersionParseError::TooManyParts) => dot_parts(s).len() > 4 && parts_read(dot_parts(s), 4),
        Err(GameVersionParseError::NotInteger(t)) => exists|k: int|
            0 <= k < 4 && k < dot_parts(s).len() && parts_read(dot_parts(s), k)
                && component(#[trigger] dot_parts(s)[k]) is None && t@ == dot_parts(s)[k],
    }
}

/// Whether `s` reads as a game version.
pub open spec fn game_version_ok(s: Seq<char>) -> bool {
    s == any_text() || (dot_parts(s).len() <= 4 && parts_read(dot_parts(s), 4))
}

impl GameVersion {
    /// The version with every component absent.
    pub fn empty() -> (r: GameVersion)
        ensures
            r@ == (None::<u32>, None::<u32>, None::<u32>, None::<u32>),
    {
        GameVersion { major: None, minor: None, patch: None, build: None }
    }

    pub fn new(major: Option<u32>, minor: Option<u32>, patch: Option<u32>, build: Option<u32>) -> (r: GameVersion)
        ensures
            r@ == (major, minor, patch, build),
    {
        GameVersion { major, minor, patch, build }
    }

    pub fn major(&self) -> (r: Option<u32>)
        ensures
            r == self@.0,
    {
        self.major
    }

    pub fn minor(&self) -> (r: Option<u32>)
        ensures
            r == self@.1,
    {
        self.minor
    }

    pub fn patch(&self) -> (r: Option<u32>)
        ensures
            r == self@.2,
    {
        self.patch
    }

    pub fn build(&self) -> (r: Option<u32>)
        ensures
            r == self@.3,
    {
        self.build
    }

    /// Whether every component is absent.
    pub fn is_empty(&self) -> (r: bool)
        ensures
            r == (self@ == (None::<u32>, None::<u32>, None::<u32>, None::<u32>)),
    {
        self.major.is_none() && self.minor.is_none() && self.patch.is_none() && self.build.is_none()
    }

    /// Compares component by component, an absent component below any number.
    pub fn cmp(&self, other: &Self) -> (r: Ordering)
        ensures
            r == game_cmp(self@, other@),
    {
        let c = cmp_part(self.major, other.major);
        match c {
            Ordering::Equal => {},
            _ => return c,
        }
        let c = cmp_part(self.minor, other.minor);
        match c {
            Ordering::Equal => {},
            _ => return c,
        }
        let c = cmp_part(self.patch, other.patch);
        match c {
            Ordering::Equal => {},
            _ => return c,
        }
        cmp_part(self.build, other.build)
    }

    /// Reads `any` (every component absent) or one to four dot-separated
    /// unsigned integers, each possibly surrounded by white space.
    pub fn from_str(s: &str) -> (r: Result<GameVersion, GameVersionParseError>)
        ensures
            game_version_result(s@, r),
    {
        if is_any_text(s) {
            return Ok(GameVersion::empty());
        }
        let mut rest: &str = s;
        let mut vals: Vec<u32> = Vec::new();
        let mut more = true;
        let ghost mut done: Seq<Seq<char>> = Seq::empty();
        while vals.len() < 4 && more
            invariant
                s@ != any_text(),
                vals.len() <= 4,
                done.len() == vals.len(),
                more ==> dot_parts(s@) == done + dot_parts(rest@),
                !more ==> dot_parts(s@) == done,
                forall|j: int| 0 <= j < vals.len() ==> component(#[trigger] done[j]) == Some(vals[j] as nat),
            decreases 4 - vals.len(),
        {
            let ghost r0 = rest@;
            let part = split_before(&mut rest, '.');
            proof {
                lemma_first_pos_bound(r0, '.');
                if rest@.len() > 0 {
                    assert(dot_parts(r0) == seq![part@] + dot_parts(r0.skip(part@.len() as int + 1)));
                } else {
                    assert(part@ =~= r0);
                    assert(dot_parts(r0) == seq![part@]);
                }
            }
            if rest.is_empty() {
                more = false;
                proof {
                    assert(dot_parts(s@) =~= done + seq![part@]);
                }
            } else {
                let n = rest.unicode_len();
                rest = rest.substring_char(1, n);
                proof {
                    assert(rest@ =~= r0.skip(part@.len() as int + 1));
                    assert(dot_parts(s@) =~= (done + seq![part@]) + dot_parts(rest@));
                }
            }
            let t = trim_space(part);
            match parse_unsigned(t, u32::MAX) {
                Some(v) => {
                    vals.push(v);
                    proof {
                        done = done + seq![part@];
                    }
                },
                None => {
                    proof {
                        let k = done.len() as int;
                        assert(dot_parts(s@)[k] == part@);
                        assert(parts_read(dot_parts(s@), k)) by {
                            assert forall|j: int| 0 <= j < k && j < dot_parts(s@).len() implies component(
                                #[trigger] dot_parts(s@)[j],
                            ) is Some by {
                                assert(dot_parts(s@)[j] == done[j]);
                            }
                        }
                    }
                    return Err(GameVersionParseError::NotInteger(part.to_owned()));
                },
            }
        }
        proof {
            assert(parts_read(dot_parts(s@), 4)) by {
                assert forall|j: int| 0 <= j < 4 && j < dot_parts(s@).len() implies component(
                    #[trigger] dot_parts(s@)[j],
                ) is Some by {
                    assert(dot_parts(s@)[j] == done[j]);
                }
            }
        }
        if more {
            proof {
                assert(dot_parts(rest@).len() >= 1);
            }
            return Err(GameVersionParseError::TooManyParts);
        }
        let major = if vals.len() > 0 { Some(vals[0]) } else { None };
        let minor = if vals.len() > 1 { Some(vals[1]) } else { None };
        let patch = if vals.len() > 2 { Some(vals[2]) } else { None };
        let build = if vals.len() > 3 { Some(vals[3]) } else { None };
        proof {
            assert forall|j: int| 0 <= j < vals.len() implies dot_parts(s@)[j] == done[j] by {}
        }
        Ok(GameVersion { major, minor, patch, build })
    }
}

fn cmp_part(a: Option<u32>, b: Option<u32>) -> (r: Ordering)
    ensures
        r == part_cmp(a, b),
{
    match (a, b) {
        (None, None) => Ordering::Equal,
        (None, Some(_)) => Ordering::Less,
        (Some(_), None) => Ordering::Greater,
        (Some(x), Some(y)) => if x < y {
            Ordering::Less
        } else if x > y {
            Ordering::Greater
        } else {
            Ordering::Equal
        },
    }
}

impl Default for GameVersion {
    fn default() -> (r: GameVersion)
        ensures
            r@ == (None::<u32>, None::<u32>, None::<u32>, None::<u32>),
    {
        GameVersion::empty()
    }
}

impl PartialOrd for GameVersion {
    fn partial_cmp(&self, other: &Self) -> (r: Option<Ordering>) {
        Some(self.cmp(other))
    }
}

impl vstd::std_specs::cmp::PartialOrdSpecImpl for GameVersion {
    open spec fn obeys_partial_cmp_spec() -> bool {
        true
    }

    open spec fn partial_cmp_spec(&self, other: &Self) -> Option<Ordering> {
        Some(game_cmp(self@, other@))
    }
}

} // verus!
