//! Release documents (`.ckan` files) and the other documents of a repository,
//! as plain values, with the checks and flattenings the catalog needs.

use vstd::prelude::*;

use crate::game::GameVersion;
use crate::spec_version::SpecVersion;

verus! {

/// Why a document was refused.
#[derive(Debug, Clone, PartialEq, Eq)]
pub enum JsonError {
    /// The catch-all `ksp_version` is given together with `ksp_version_min`
    /// or `ksp_version_max`.
    DuplicateVersionConstraint {
        generic_constraint: GameVersion,
        specific_is_max: bool,
        specific_constraint: GameVersion,
    },
    /// The `replaced_by` relationship names a `max_version`.
    DisallowedMaxVersionInReplacement,
    /// The document is not well-formed; the message says where.
    Parse(String),
}

/// What a module is.
#[derive(Debug, Clone, Copy, PartialEq, Eq, Structural)]
pub enum ModuleKind {
    Package,
    Metapackage,
    Dlc,
}

/// How far along a release is.
#[derive(Debug, Clone, Copy, PartialEq, Eq, Structural)]
pub enum ReleaseStatus {
    Stable,
    Testing,
    Development,
}

/// The kind of a relationship group.
#[derive(Debug, Clone, Copy, PartialEq, Eq, Structural)]
pub enum RelationshipType {
    Depends,
    Recommends,
    Suggests,
    Supports,
    Conflicts,
    Provides,
}

/// Links about a module.
#[derive(Debug, Clone, Default)]
pub struct ModuleResources {
    pub homepage: Option<String>,
    pub spacedock: Option<String>,
    pub repository: Option<String>,
    pub bugtracker: Option<String>,
    pub remote_avc: Option<String>,
    pub x_screenshot: Option<String>,
}

/// Hashes of a release's download.
#[derive(Debug, Clone, Default)]
pub struct DownloadChecksum {
    pub sha1: Option<String>,
    pub sha256: Option<String>,
}

/// Where an install directive finds its files.
#[derive(Debug, Clone)]
pub enum ModuleInstallSourceDirective {
    File(String),
    Find(String),
    FindRegexp(String),
}

/// One instruction for installing a release.
#[derive(Debug, Clone)]
pub struct ModuleInstallDescriptor {
    pub source: ModuleInstallSourceDirective,
    pub install_to: String,
    pub find_matches_files: bool,
    pub install_as: Option<String>,
    pub filter: Vec<String>,
    pub filter_regexp: Vec<String>,
    pub include_only: Vec<String>,
    pub include_only_regexp: Vec<String>,
}

/// A single target of a relationship.
#[derive(Debug, Clone)]
pub struct DirectRelationshipDescriptor {
    pub name: String,
    pub max_version: Option<String>,
    pub min_version: Option<String>,
    pub version: Option<String>,
}

/// Alternatives, any one of which satisfies the relationship.
#[derive(Debug)]
pub struct AnyOfRelationshipDescriptor {
    pub any_of: Vec<MetaRelationship>,
}

/// The target of a relationship: one module, or a choice among several.
#[derive(Debug)]
pub enum RelationshipDescriptor {
    Direct(DirectRelationshipDescriptor),
    AnyOf(AnyOfRelationshipDescriptor),
}

/// A relationship of a release, as the document writes it.
#[derive(Debug)]
pub struct MetaRelationship {
    pub descriptor: RelationshipDescriptor,
    pub choice_help_text: Option<String>,
    pub suppress_recommendations: bool,
}

/// A complete release document.
#[derive(Debug)]
pub struct JsonModule {
    pub spec_version: SpecVersion,
    pub name: String,
    pub identifier: String,
    pub version: String,
    pub kind: ModuleKind,
    /// The one-line summary (`abstract` in the document).
    pub summary: String,
    pub description: Option<String>,
    pub release_status: ReleaseStatus,
    pub comment: Option<String>,
    pub author: Vec<String>,
    pub download: Vec<String>,
    pub download_size: Option<i64>,
    pub download_hash: DownloadChecksum,
    pub download_content_type: Option<String>,
    pub install_size: Option<i64>,
    pub license: Vec<String>,
    pub ksp_version: GameVersion,
    pub ksp_version_min: GameVersion,
    pub ksp_version_max: GameVersion,
    pub ksp_version_strict: bool,
    pub resources: ModuleResources,
    pub tags: Vec<String>,
    pub localizations: Vec<String>,
    pub depends: Vec<MetaRelationship>,
    pub recommends: Vec<MetaRelationship>,
    pub suggests: Vec<MetaRelationship>,
    pub supports: Vec<MetaRelationship>,
    pub conflicts: Vec<MetaRelationship>,
    pub replaced_by: Option<DirectRelationshipDescriptor>,
    pub install: Vec<ModuleInstallDescriptor>,
    /// The release date as the document writes it (ISO 8601).
    pub release_date: Option<String>,
}

/// The build list of a repository: build ids with the game version texts
/// they stand for.
#[derive(Debug, Clone, PartialEq, Eq)]
pub struct JsonBuilds {
    pub builds: Vec<(i32, String)>,
}

/// The game version with no component set.
pub open spec fn no_game_version() -> (Option<u32>, Option<u32>, Option<u32>, Option<u32>) {
    (None::<u32>, None::<u32>, None::<u32>, None::<u32>)
}

/// The outcome `verify` owes for a release document.
pub open spec fn verify_outcome(m: JsonModule) -> Result<(), JsonError> {
    if m.ksp_version@ != no_game_version() && (m.ksp_version_max@ != no_game_version()
        || m.ksp_version_min@ != no_game_version()) {
        let has_max = m.ksp_version_max@ != no_game_version();
        Err(
            JsonError::DuplicateVersionConstraint {
                generic_constraint: m.ksp_version,
                specific_is_max: has_max,
                specific_constraint: if has_max {
                    m.ksp_version_max
                } else {
                    m.ksp_version_min
                },
            },
        )
    } else if m.replaced_by matches Some(r) && r.max_version is Some {
        Err(JsonError::DisallowedMaxVersionInReplacement)
    } else {
        Ok(())
    }
}

/// The relationship groups of a release, in document order: all `depends`,
/// then `recommends`, `suggests`, `supports` and `conflicts`.
pub open spec fn tagged(t: RelationshipType, rels: Seq<MetaRelationship>) -> Seq<(RelationshipType, MetaRelationship)> {
    rels.map_values(|r: MetaRelationship| (t, r))
}

pub open spec fn all_relationships(m: JsonModule) -> Seq<(RelationshipType, MetaRelationship)> {
    tagged(RelationshipType::Depends, m.depends@) + tagged(RelationshipType::Recommends, m.recommends@)
        + tagged(RelationshipType::Suggests, m.suggests@) + tagged(RelationshipType::Supports, m.supports@)
        + tagged(RelationshipType::Conflicts, m.conflicts@)
}

/// The direct targets of a relationship, depth first.
pub open spec fn flat_members(d: RelationshipDescriptor) -> Seq<DirectRelationshipDescriptor>
    decreases d,
{
    match d {
        RelationshipDescriptor::Direct(x) => seq![x],
        RelationshipDescriptor::AnyOf(a) => flat_list(a.any_of@),
    }
}

/// The direct targets of a list of relationships, depth first.
pub open spec fn flat_list(rels: Seq<MetaRelationship>) -> Seq<DirectRelationshipDescriptor>
    decreases rels,
{
    if rels.len() == 0 {
        Seq::empty()
    } else {
        flat_list(rels.drop_last()) + flat_members(rels.last().descriptor)
    }
}

impl RelationshipDescriptor {
    /// The direct targets of this relationship, depth first.
    pub fn flatten(&self) -> (r: Vec<&DirectRelationshipDescriptor>)
        ensures
            r@.len() == flat_members(*self).len(),
            forall|i: int| 0 <= i < r@.len() ==> *r@[i] == #[trigger] flat_members(*self)[i],
    {
        let mut members = Vec::new();
        self.flatten_inner(&mut members);
        members
    }

    fn flatten_inner<'a>(&'a self, list: &mut Vec<&'a DirectRelationshipDescriptor>)
        ensures
            final(list)@.len() == old(list)@.len() + flat_members(*self).len(),
            forall|i: int| 0 <= i < old(list)@.len() ==> final(list)@[i] == old(list)@[i],
            forall|i: int| 0 <= i < flat_members(*self).len() ==> *final(list)@[old(list)@.len() + i]
                == #[trigger] flat_members(*self)[i],
        decreases self,
    {
        match self {
            RelationshipDescriptor::Direct(d) => {
                list.push(d);
            },
            RelationshipDescriptor::AnyOf(d) => {
                let ghost start = list@.len();
                let mut k: usize = 0;
                while k < d.any_of.len()
                    invariant
                        k <= d.any_of.len(),
                        *self == RelationshipDescriptor::AnyOf(*d),
                        start == old(list)@.len(),
                        list@.len() == start + flat_list(d.any_of@.take(k as int)).len(),
                        forall|i: int| 0 <= i < start ==> list@[i] == old(list)@[i],
                        forall|i: int| 0 <= i < flat_list(d.any_of@.take(k as int)).len() ==> *list@[start + i]
                            == #[trigger] flat_list(d.any_of@.take(k as int))[i],
                    decreases d.any_of.len() - k,
                {
                    let ghost before = list@;
                    let ghost done = flat_list(d.any_of@.take(k as int));
                    assert(d.any_of@.take(k + 1).drop_last() =~= d.any_of@.take(k as int));
                    assert(d.any_of@.take(k + 1).last() == d.any_of@[k as int]);
                    proof {
                        vstd::std_specs::vec::axiom_vec_index_decreases(d.any_of, k as int);
                        assert(decreases_to!(*self => (*self)->AnyOf_0));
                        assert((*self)->AnyOf_0 == *d);
                        assert(decreases_to!(*d => d.any_of));
                        assert(decreases_to!(d.any_of[k as int] => d.any_of[k as int].descriptor));
                        assert(decreases_to!(*self => d.any_of[k as int].descriptor));
                    }
                    d.any_of[k].descriptor.flatten_inner(list);
                    let ghost now = flat_list(d.any_of@.take(k + 1));
                    assert(now == done + flat_members(d.any_of@[k as int].descriptor));
                    assert forall|i: int| 0 <= i < now.len() implies *list@[start + i] == #[trigger] now[i] by {
                        if i < done.len() {
                            assert(list@[start + i] == before[start + i]);
                        }
                    }
                    k = k + 1;
                }
                assert(d.any_of@.take(d.any_of.len() as int) =~= d.any_of@);
            },
        }
    }
}

impl JsonModule {
    /// The game version a release is stored under: the catch-all
    /// `ksp_version` when it is given, else `ksp_version_min`.
    pub fn game_version(&self) -> (r: GameVersion)
        ensures
            r == if self.ksp_version@ != no_game_version() {
                self.ksp_version
            } else {
                self.ksp_version_min
            },
    {
        if !self.ksp_version.is_empty() {
            self.ksp_version
        } else {
            self.ksp_version_min
        }
    }

    /// Checks the rules a release document must follow beyond its shape.
    pub fn verify(&self) -> (r: Result<(), JsonError>)
        ensures
            r == verify_outcome(*self),
    {
        if !self.ksp_version.is_empty() {
            let has_max = !self.ksp_version_max.is_empty();
            if has_max || !self.ksp_version_min.is_empty() {
                return Err(
                    JsonError::DuplicateVersionConstraint {
                        generic_constraint: self.ksp_version,
                        specific_is_max: has_max,
                        specific_constraint: if has_max {
                            self.ksp_version_max
                        } else {
                            self.ksp_version_min
                        },
                    },
                );
            }
        }
        if let Some(replaced_by) = &self.replaced_by {
            if replaced_by.max_version.is_some() {
                return Err(JsonError::DisallowedMaxVersionInReplacement);
            }
        }
        Ok(())
    }
}

/// One target of a relationship group, as the catalog stores it.
#[derive(Debug, Clone, PartialEq, Eq)]
pub struct RelationshipRow {
    /// Position of the target within its group, depth first.
    pub ordinal: usize,
    pub target_name: String,
    /// The highest version allowed, or the exact version.
    pub target_version: Option<String>,
    pub target_version_min: Option<String>,
}

/// One relationship group of a release, as the catalog stores it.
#[derive(Debug, Clone, PartialEq, Eq)]
pub struct RelationshipGroupRow {
    /// Position of the group among all groups of its release.
    pub ordinal: usize,
    pub rel_type: RelationshipType,
    pub choice_help_text: Option<String>,
    pub suppress_recommendations: bool,
    pub members: Vec<RelationshipRow>,
}

/// The stored form of the `j`-th target `d` of a group.
pub open spec fn member_row_matches(row: RelationshipRow, j: int, d: DirectRelationshipDescriptor) -> bool {
    &&& row.ordinal == j
    &&& row.target_name == d.name
    &&& row.target_version == (if d.max_version is Some {
        d.max_version
    } else {
        d.version
    })
    &&& row.target_version_min == d.min_version
}

/// The stored form of the `k`-th group, a relationship `r` of type `t`.
pub open spec fn group_row_matches(g: RelationshipGroupRow, k: int, t: RelationshipType, r: MetaRelationship) -> bool {
    &&& g.ordinal == k
    &&& g.rel_type == t
    &&& g.choice_help_text == r.choice_help_text
    &&& g.suppress_recommendations == r.suppress_recommendations
    &&& g.members@.len() == flat_members(r.descriptor).len()
    &&& forall|j: int| 0 <= j < g.members@.len() ==> member_row_matches(#[trigger] g.members@[j], j, flat_members(r.descriptor)[j])
}

fn clone_text(o: &Option<String>) -> (r: Option<String>)
    ensures
        r == *o,
{
    match o {
        Some(s) => Some(s.clone()),
        None => None,
    }
}

fn member_rows(d: &RelationshipDescriptor) -> (rows: Vec<RelationshipRow>)
    ensures
        rows@.len() == flat_members(*d).len(),
        forall|j: int| 0 <= j < rows@.len() ==> member_row_matches(#[trigger] rows@[j], j, flat_members(*d)[j]),
{
    let members = d.flatten();
    let mut rows: Vec<RelationshipRow> = Vec::new();
    let mut j: usize = 0;
    while j < members.len()
        invariant
            j <= members@.len(),
            members@.len() == flat_members(*d).len(),
            forall|i: int| 0 <= i < members@.len() ==> *members@[i] == #[trigger] flat_members(*d)[i],
            rows@.len() == j,
            forall|i: int| 0 <= i < j ==> member_row_matches(#[trigger] rows@[i], i, flat_members(*d)[i]),
        decreases members.len() - j,
    {
        let m: &DirectRelationshipDescriptor = members[j];
        assert(*m == flat_members(*d)[j as int]);
        let target_version = if m.max_version.is_some() {
            clone_text(&m.max_version)
        } else {
            clone_text(&m.version)
        };
        rows.push(
            RelationshipRow {
                ordinal: j,
                target_name: m.name.clone(),
                target_version,
                target_version_min: clone_text(&m.min_version),
            },
        );
        j = j + 1;
    }
    rows
}

fn push_groups(out: &mut Vec<RelationshipGroupRow>, t: RelationshipType, rels: &Vec<MetaRelationship>)
    ensures
        final(out)@.len() == old(out)@.len() + rels@.len(),
        forall|i: int| 0 <= i < old(out)@.len() ==> final(out)@[i] == old(out)@[i],
        forall|k: int| 0 <= k < rels@.len() ==> group_row_matches(
            #[trigger] final(out)@[old(out)@.len() + k],
            old(out)@.len() + k,
            t,
            rels@[k],
        ),
{
    let mut k: usize = 0;
    while k < rels.len()
        invariant
            k <= rels@.len(),
            out@.len() == old(out)@.len() + k,
            forall|i: int| 0 <= i < old(out)@.len() ==> out@[i] == old(out)@[i],
            forall|i: int| 0 <= i < k ==> group_row_matches(
                #[trigger] out@[old(out)@.len() + i],
                old(out)@.len() + i,
                t,
                rels@[i],
            ),
        decreases rels.len() - k,
    {
        let r = &rels[k];
        let ordinal = out.len();
        let members = member_rows(&r.descriptor);
        out.push(
            RelationshipGroupRow {
                ordinal,
                rel_type: t,
                choice_help_text: clone_text(&r.choice_help_text),
                suppress_recommendations: r.suppress_recommendations,
                members,
            },
        );
        k = k + 1;
    }
}

/// The relationship groups of a release as the catalog stores them: one per
/// relationship, numbered from zero across all relationship types in document
/// order, each with its targets flattened depth first and numbered from zero.
pub fn relationship_groups(m: &JsonModule) -> (groups: Vec<RelationshipGroupRow>)
    ensures
        groups@.len() == all_relationships(*m).len(),
        forall|k: int| 0 <= k < groups@.len() ==> group_row_matches(
            #[trigger] groups@[k],
            k,
            all_relationships(*m)[k].0,
            all_relationships(*m)[k].1,
        ),
{
    let mut groups: Vec<RelationshipGroupRow> = Vec::new();
    push_groups(&mut groups, RelationshipType::Depends, &m.depends);
    let ghost g1 = groups@;
    push_groups(&mut groups, RelationshipType::Recommends, &m.recommends);
    let ghost g2 = groups@;
    push_groups(&mut groups, RelationshipType::Suggests, &m.suggests);
    let ghost g3 = groups@;
    push_groups(&mut groups, RelationshipType::Supports, &m.supports);
    let ghost g4 = groups@;
    push_groups(&mut groups, RelationshipType::Conflicts, &m.conflicts);
    proof {
        let all = all_relationships(*m);
        let (a, b, c, d) = (m.depends@.len(), m.recommends@.len(), m.suggests@.len(), m.supports@.len());
        assert forall|k: int| 0 <= k < groups@.len() implies group_row_matches(
            #[trigger] groups@[k],
            k,
            all[k].0,
            all[k].1,
        ) by {
            if k < a {
                assert(all[k] == (RelationshipType::Depends, m.depends@[k]));
                assert(groups@[k] == g1[k]);
                assert(g1[0 + k] == g1[k]);
            } else if k < a + b {
                assert(all[k] == (RelationshipType::Recommends, m.recommends@[k - a]));
                assert(groups@[k] == g2[k]);
                assert(g2[a + (k - a)] == g2[k]);
            } else if k < a + b + c {
                assert(all[k] == (RelationshipType::Suggests, m.suggests@[k - a - b]));
                assert(groups@[k] == g3[k]);
                assert(g3[(a + b) + (k - a - b)] == g3[k]);
            } else if k < a + b + c + d {
                assert(all[k] == (RelationshipType::Supports, m.supports@[k - a - b - c]));
                assert(groups@[k] == g4[k]);
                assert(g4[(a + b + c) + (k - a - b - c)] == g4[k]);
            } else {
                assert(groups@[(a + b + c + d) + (k - a - b - c - d)] == groups@[k]);
                assert(all[k] == (RelationshipType::Conflicts, m.conflicts@[k - a - b - c - d]));
            }
        }
    }
    groups
}

} // verus!
