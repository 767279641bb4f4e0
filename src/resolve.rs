use vstd::prelude::*;
use crate::bytes::{bytes_eq, copy_bytes, push_all};
use crate::model::LoadedConfig;
use crate::pattern::{SLASH, glob_matches, pattern_matches};

verus! {

/// Evidence that a file belongs to a team, tagged with where it comes from.
#[derive(Clone, Copy, PartialEq, Eq, Debug)]
pub enum OwnershipSource {
    PackageAnnotation { annotation: usize },
    TeamYmlDefault { team: usize },
    TeamConfigGlob { rule: usize },
    CodeownersFileEntry { declaration: usize },
}

/// The owner of one file: the winning team (if any), the source that decided
/// it, and every applicable source in the order they were evaluated.
pub struct ResolvedOwnership {
    pub team: Option<usize>,
    pub winner: Option<OwnershipSource>,
    pub evidence: Vec<OwnershipSource>,
}

// ---- annotations: the last applicable annotation wins

pub open spec fn annotation_applies(c: &LoadedConfig, a: int, path: Seq<u8>) -> bool {
    pattern_matches(c.annotations@[a].path@, path)
}

pub open spec fn best_annotation(c: &LoadedConfig, path: Seq<u8>, n: int) -> Option<usize>
    decreases n,
{
    if n <= 0 {
        None
    } else {
        if annotation_applies(c, n - 1, path) {
            Some((n - 1) as usize)
        } else {
            best_annotation(c, path, n - 1)
        }
    }
}

pub open spec fn annotation_evidence(c: &LoadedConfig, path: Seq<u8>, n: int) -> Seq<OwnershipSource>
    decreases n,
{
    if n <= 0 {
        seq![]
    } else if annotation_applies(c, n - 1, path) {
        annotation_evidence(c, path, n - 1).push(OwnershipSource::PackageAnnotation { annotation: (n - 1) as usize })
    } else {
        annotation_evidence(c, path, n - 1)
    }
}

// ---- a team's own configuration file belongs to it (the last such team)

/// A team's configuration file as a pattern anchored at the root.
pub open spec fn yml_pattern(p: Seq<u8>) -> Seq<u8> {
    if p.len() > 0 && p[0] == SLASH {
        p
    } else {
        seq![SLASH] + p
    }
}

pub open spec fn yml_applies(c: &LoadedConfig, t: int, path: Seq<u8>) -> bool {
    pattern_matches(yml_pattern(c.teams@[t].config_file_path@), path)
}

pub open spec fn yml_team(c: &LoadedConfig, path: Seq<u8>, n: int) -> Option<usize>
    decreases n,
{
    if n <= 0 {
        None
    } else {
        if yml_applies(c, n - 1, path) {
            Some((n - 1) as usize)
        } else {
            yml_team(c, path, n - 1)
        }
    }
}

pub open spec fn yml_evidence(c: &LoadedConfig, path: Seq<u8>, n: int) -> Seq<OwnershipSource>
    decreases n,
{
    if n <= 0 {
        seq![]
    } else if yml_applies(c, n - 1, path) {
        yml_evidence(c, path, n - 1).push(OwnershipSource::TeamYmlDefault { team: (n - 1) as usize })
    } else {
        yml_evidence(c, path, n - 1)
    }
}

// ---- team globs: the longest pattern wins, the later one on a tie

pub open spec fn rule_applies(c: &LoadedConfig, r: int, path: Seq<u8>) -> bool {
    pattern_matches(c.rules@[r].pattern@, path)
}

pub open spec fn best_rule(c: &LoadedConfig, path: Seq<u8>, n: int) -> Option<usize>
    decreases n,
{
    if n <= 0 {
        None
    } else {
        let b = best_rule(c, path, n - 1);
        if rule_applies(c, n - 1, path) && match b {
            None => true,
            Some(x) => c.rules@[n - 1].pattern@.len() >= c.rules@[x as int].pattern@.len(),
        } {
            Some((n - 1) as usize)
        } else {
            b
        }
    }
}

pub open spec fn rule_evidence(c: &LoadedConfig, path: Seq<u8>, n: int) -> Seq<OwnershipSource>
    decreases n,
{
    if n <= 0 {
        seq![]
    } else if rule_applies(c, n - 1, path) {
        rule_evidence(c, path, n - 1).push(OwnershipSource::TeamConfigGlob { rule: (n - 1) as usize })
    } else {
        rule_evidence(c, path, n - 1)
    }
}

// ---- the declarations file: the last matching line that names a known team

/// The first team, among the first `n`, whose name is `name`.
pub open spec fn team_named(c: &LoadedConfig, name: Seq<u8>, n: int) -> Option<usize>
    decreases n,
{
    if n <= 0 {
        None
    } else {
        let f = team_named(c, name, n - 1);
        if f is Some {
            f
        } else if c.teams@[n - 1].name@ == name {
            Some((n - 1) as usize)
        } else {
            None
        }
    }
}

pub open spec fn team_of_name(c: &LoadedConfig, name: Seq<u8>) -> Option<usize> {
    team_named(c, name, c.teams@.len() as int)
}

pub open spec fn declaration_applies(c: &LoadedConfig, d: int, path: Seq<u8>) -> bool {
    pattern_matches(c.declarations@[d].pattern@, path) && team_of_name(c, c.declarations@[d].owner@) is Some
}

pub open spec fn last_declaration(c: &LoadedConfig, path: Seq<u8>, n: int) -> Option<usize>
    decreases n,
{
    if n <= 0 {
        None
    } else if declaration_applies(c, n - 1, path) {
        Some((n - 1) as usize)
    } else {
        last_declaration(c, path, n - 1)
    }
}

pub open spec fn declaration_evidence(c: &LoadedConfig, path: Seq<u8>, n: int) -> Seq<OwnershipSource>
    decreases n,
{
    if n <= 0 {
        seq![]
    } else if declaration_applies(c, n - 1, path) {
        declaration_evidence(c, path, n - 1).push(OwnershipSource::CodeownersFileEntry { declaration: (n - 1) as usize })
    } else {
        declaration_evidence(c, path, n - 1)
    }
}

// ---- precedence

/// The winning source for `path`: an annotation, else the team whose
/// configuration file it is, else the most specific team glob, else the last
/// matching line of the declarations file; none when nothing applies.
pub open spec fn winning_source(c: &LoadedConfig, path: Seq<u8>) -> Option<OwnershipSource> {
    match best_annotation(c, path, c.annotations@.len() as int) {
        Some(a) => Some(OwnershipSource::PackageAnnotation { annotation: a }),
        None => match yml_team(c, path, c.teams@.len() as int) {
            Some(t) => Some(OwnershipSource::TeamYmlDefault { team: t }),
            None => match best_rule(c, path, c.rules@.len() as int) {
                Some(r) => Some(OwnershipSource::TeamConfigGlob { rule: r }),
                None => match last_declaration(c, path, c.declarations@.len() as int) {
                    Some(d) => Some(OwnershipSource::CodeownersFileEntry { declaration: d }),
                    None => None,
                },
            },
        },
    }
}

/// The team that a source names.
pub open spec fn team_of_source(c: &LoadedConfig, s: OwnershipSource) -> Option<usize> {
    match s {
        OwnershipSource::PackageAnnotation { annotation } => Some(c.annotations@[annotation as int].team),
        OwnershipSource::TeamYmlDefault { team } => Some(team),
        OwnershipSource::TeamConfigGlob { rule } => Some(c.rules@[rule as int].team),
        OwnershipSource::CodeownersFileEntry { declaration } => team_of_name(
            c,
            c.declarations@[declaration as int].owner@,
        ),
    }
}

pub open spec fn owning_team(c: &LoadedConfig, path: Seq<u8>) -> Option<usize> {
    match winning_source(c, path) {
        Some(s) => team_of_source(c, s),
        None => None,
    }
}

/// Every applicable source, tier by tier in the order of precedence.
pub open spec fn all_evidence(c: &LoadedConfig, path: Seq<u8>) -> Seq<OwnershipSource> {
    annotation_evidence(c, path, c.annotations@.len() as int) + yml_evidence(c, path, c.teams@.len() as int)
        + rule_evidence(c, path, c.rules@.len() as int) + declaration_evidence(
        c,
        path,
        c.declarations@.len() as int,
    )
}

/// `r` is what resolution owes for `path` under `c`.
pub open spec fn is_resolution(c: &LoadedConfig, path: Seq<u8>, r: &ResolvedOwnership) -> bool {
    &&& r.winner == winning_source(c, path)
    &&& r.team == owning_team(c, path)
    &&& r.evidence@ == all_evidence(c, path)
    &&& r.winner matches Some(s) ==> source_in_range(c, s)
}

fn annotations_tier(c: &LoadedConfig, path: &Vec<u8>, ev: &mut Vec<OwnershipSource>) -> (r: Option<usize>)
    ensures
        r == best_annotation(c, path@, c.annotations@.len() as int),
        r matches Some(x) ==> x < c.annotations@.len(),
        final(ev)@ == old(ev)@ + annotation_evidence(c, path@, c.annotations@.len() as int),
{
    let ghost start = ev@;
    let mut best: Option<usize> = None;
    let mut i: usize = 0;
    while i < c.annotations.len()
        invariant
            i <= c.annotations@.len(),
            best == best_annotation(c, path@, i as int),
            best matches Some(x) ==> x < i,
            ev@ == start + annotation_evidence(c, path@, i as int),
        decreases c.annotations@.len() - i,
    {
        if glob_matches(&c.annotations[i].path, path) {
            best = Some(i);
            ev.push(OwnershipSource::PackageAnnotation { annotation: i });
            assert(ev@ =~= start + annotation_evidence(c, path@, i + 1));
        }
        i = i + 1;
    }
    best
}

fn yml_tier(c: &LoadedConfig, path: &Vec<u8>, ev: &mut Vec<OwnershipSource>) -> (r: Option<usize>)
    ensures
        r == yml_team(c, path@, c.teams@.len() as int),
        r matches Some(x) ==> x < c.teams@.len(),
        final(ev)@ == old(ev)@ + yml_evidence(c, path@, c.teams@.len() as int),
{
    let ghost start = ev@;
    let mut last: Option<usize> = None;
    let mut i: usize = 0;
    while i < c.teams.len()
        invariant
            i <= c.teams@.len(),
            last == yml_team(c, path@, i as int),
            last matches Some(x) ==> x < i,
            ev@ == start + yml_evidence(c, path@, i as int),
        decreases c.teams@.len() - i,
    {
        let q = yml_pattern_exec(&c.teams[i].config_file_path);
        if glob_matches(&q, path) {
            last = Some(i);
            ev.push(OwnershipSource::TeamYmlDefault { team: i });
            assert(ev@ =~= start + yml_evidence(c, path@, i + 1));
        }
        i = i + 1;
    }
    last
}

/// The anchored pattern of a team's configuration file.
pub fn yml_pattern_exec(p: &Vec<u8>) -> (r: Vec<u8>)
    ensures
        r@ == yml_pattern(p@),
{
    if p.len() > 0 && p[0] == SLASH {
        copy_bytes(p)
    } else {
        let mut r: Vec<u8> = Vec::new();
        r.push(SLASH);
        push_all(&mut r, p.as_slice());
        r
    }
}

fn rules_tier(c: &LoadedConfig, path: &Vec<u8>, ev: &mut Vec<OwnershipSource>) -> (r: Option<usize>)
    ensures
        r == best_rule(c, path@, c.rules@.len() as int),
        r matches Some(x) ==> x < c.rules@.len(),
        final(ev)@ == old(ev)@ + rule_evidence(c, path@, c.rules@.len() as int),
{
    let ghost start = ev@;
    let mut best: Option<usize> = None;
    let mut i: usize = 0;
    while i < c.rules.len()
        invariant
            i <= c.rules@.len(),
            best == best_rule(c, path@, i as int),
            best matches Some(x) ==> x < i,
            ev@ == start + rule_evidence(c, path@, i as int),
        decreases c.rules@.len() - i,
    {
        if glob_matches(&c.rules[i].pattern, path) {
            let better = match best {
                None => true,
                Some(x) => c.rules[i].pattern.len() >= c.rules[x].pattern.len(),
            };
            if better {
                best = Some(i);
            }
            ev.push(OwnershipSource::TeamConfigGlob { rule: i });
            assert(ev@ =~= start + rule_evidence(c, path@, i + 1));
        }
        i = i + 1;
    }
    best
}

/// The index of the team called `name`, if there is one.
pub fn find_team(c: &LoadedConfig, name: &Vec<u8>) -> (r: Option<usize>)
    ensures
        r == team_of_name(c, name@),
{
    let mut i: usize = 0;
    while i < c.teams.len()
        invariant
            i <= c.teams@.len(),
            team_named(c, name@, i as int) is None,
        decreases c.teams@.len() - i,
    {
        if bytes_eq(&c.teams[i].name, name) {
            proof { lemma_team_named_stays(c, name@, i as int + 1, c.teams@.len() as int); }
            return Some(i);
        }
        i = i + 1;
    }
    None
}

/// Looking a team up by name reads only the teams.
pub proof fn lemma_team_named_reads_teams(c1: &LoadedConfig, c2: &LoadedConfig, name: Seq<u8>, n: int)
    requires
        c1.teams@ == c2.teams@,
    ensures
        team_named(c1, name, n) == team_named(c2, name, n),
    decreases n,
{
    if n > 0 {
        lemma_team_named_reads_teams(c1, c2, name, n - 1);
    }
}

pub(crate) proof fn lemma_team_named_none(c: &LoadedConfig, name: Seq<u8>, n: int)
    requires
        0 <= n <= c.teams@.len(),
        n <= usize::MAX,
    ensures
        team_named(c, name, n) is None <==> forall|i: int| 0 <= i < n ==> (#[trigger] c.teams@[i]).name@ != name,
        team_named(c, name, n) matches Some(t) ==> t < n && c.teams@[t as int].name@ == name,
    decreases n,
{
    if n > 0 {
        lemma_team_named_none(c, name, n - 1);
    }
}

proof fn lemma_team_named_stays(c: &LoadedConfig, name: Seq<u8>, m: int, n: int)
    requires
        m <= n,
        team_named(c, name, m) is Some,
    ensures
        team_named(c, name, n) == team_named(c, name, m),
    decreases n - m,
{
    if m < n {
        lemma_team_named_stays(c, name, m, n - 1);
    }
}

fn declarations_tier(c: &LoadedConfig, path: &Vec<u8>, ev: &mut Vec<OwnershipSource>) -> (r: Option<usize>)
    ensures
        r == last_declaration(c, path@, c.declarations@.len() as int),
        r matches Some(x) ==> x < c.declarations@.len(),
        final(ev)@ == old(ev)@ + declaration_evidence(c, path@, c.declarations@.len() as int),
{
    let ghost start = ev@;
    let mut last: Option<usize> = None;
    let mut i: usize = 0;
    while i < c.declarations.len()
        invariant
            i <= c.declarations@.len(),
            last == last_declaration(c, path@, i as int),
            last matches Some(x) ==> x < i,
            ev@ == start + declaration_evidence(c, path@, i as int),
        decreases c.declarations@.len() - i,
    {
        if glob_matches(&c.declarations[i].pattern, path) && find_team(c, &c.declarations[i].owner).is_some() {
            last = Some(i);
            ev.push(OwnershipSource::CodeownersFileEntry { declaration: i });
            assert(ev@ =~= start + declaration_evidence(c, path@, i + 1));
        }
        i = i + 1;
    }
    last
}

/// The index that a source carries lies in the list it refers to.
pub open spec fn source_in_range(c: &LoadedConfig, s: OwnershipSource) -> bool {
    match s {
        OwnershipSource::PackageAnnotation { annotation } => annotation < c.annotations@.len(),
        OwnershipSource::TeamYmlDefault { team } => team < c.teams@.len(),
        OwnershipSource::TeamConfigGlob { rule } => rule < c.rules@.len(),
        OwnershipSource::CodeownersFileEntry { declaration } => declaration < c.declarations@.len(),
    }
}

/// Resolves the owner of one file. Nothing matching is no error: the result
/// then names no team.
pub fn resolve(c: &LoadedConfig, path: &Vec<u8>) -> (r: ResolvedOwnership)
    ensures
        is_resolution(c, path@, &r),
{
    let mut ev: Vec<OwnershipSource> = Vec::new();
    let a = annotations_tier(c, path, &mut ev);
    let t = yml_tier(c, path, &mut ev);
    let g = rules_tier(c, path, &mut ev);
    let d = declarations_tier(c, path, &mut ev);
    assert(ev@ =~= all_evidence(c, path@));
    let (team, winner) = match a {
        Some(x) => (Some(c.annotations[x].team), Some(OwnershipSource::PackageAnnotation { annotation: x })),
        None => match t {
            Some(x) => (Some(x), Some(OwnershipSource::TeamYmlDefault { team: x })),
            None => match g {
                Some(x) => (Some(c.rules[x].team), Some(OwnershipSource::TeamConfigGlob { rule: x })),
                None => match d {
                    Some(x) => (find_team(c, &c.declarations[x].owner), Some(OwnershipSource::CodeownersFileEntry { declaration: x })),
                    None => (None, None),
                },
            },
        },
    };
    ResolvedOwnership { team, winner, evidence: ev }
}

proof fn lemma_best_annotation(c: &LoadedConfig, path: Seq<u8>, n: int)
    ensures
        best_annotation(c, path, n) is None <==> forall|j: int| 0 <= j < n ==> !annotation_applies(c, j, path),
    decreases n,
{
    if n > 0 {
        lemma_best_annotation(c, path, n - 1);
    }
}

proof fn lemma_yml_team(c: &LoadedConfig, path: Seq<u8>, n: int)
    ensures
        yml_team(c, path, n) is None <==> forall|j: int| 0 <= j < n ==> !yml_applies(c, j, path),
    decreases n,
{
    if n > 0 {
        lemma_yml_team(c, path, n - 1);
    }
}

proof fn lemma_last_declaration(c: &LoadedConfig, path: Seq<u8>, n: int)
    ensures
        last_declaration(c, path, n) is None <==> forall|j: int| 0 <= j < n ==> !declaration_applies(c, j, path),
    decreases n,
{
    if n > 0 {
        lemma_last_declaration(c, path, n - 1);
    }
}

pub(crate) proof fn lemma_best_rule(c: &LoadedConfig, path: Seq<u8>, n: int)
    requires
        n <= usize::MAX,
    ensures
        best_rule(c, path, n) matches Some(x) ==> {
            &&& x < n
            &&& rule_applies(c, x as int, path)
            &&& forall|j: int| 0 <= j < n && rule_applies(c, j, path)
                ==> c.rules@[j].pattern@.len() <= c.rules@[x as int].pattern@.len()
        },
    decreases n,
{
    if n > 0 {
        lemma_best_rule(c, path, n - 1);
        lemma_best_rule_none(c, path, n - 1);
        let b = best_rule(c, path, n - 1);
        if let Some(x) = best_rule(c, path, n) {
            assert forall|j: int| 0 <= j < n && rule_applies(c, j, path) implies c.rules@[j].pattern@.len()
                <= c.rules@[x as int].pattern@.len() by {
                if j < n - 1 {
                    assert(b is Some);
                    let y = b->Some_0;
                    assert(c.rules@[j].pattern@.len() <= c.rules@[y as int].pattern@.len());
                    if x != y {
                        assert(x == n - 1);
                    }
                } else {
                    if x != n - 1 {
                        assert(b is Some);
                    }
                }
            }
        }
    }
}

pub(crate) proof fn lemma_best_rule_none(c: &LoadedConfig, path: Seq<u8>, n: int)
    ensures
        best_rule(c, path, n) is None <==> forall|j: int| 0 <= j < n ==> !rule_applies(c, j, path),
    decreases n,
{
    if n > 0 {
        lemma_best_rule_none(c, path, n - 1);
    }
}

proof fn lemma_no_evidence(c: &LoadedConfig, path: Seq<u8>)
    requires
        forall|j: int| 0 <= j < c.annotations@.len() ==> !annotation_applies(c, j, path),
        forall|j: int| 0 <= j < c.teams@.len() ==> !yml_applies(c, j, path),
        forall|j: int| 0 <= j < c.rules@.len() ==> !rule_applies(c, j, path),
        forall|j: int| 0 <= j < c.declarations@.len() ==> !declaration_applies(c, j, path),
    ensures
        all_evidence(c, path).len() == 0,
{
    lemma_annotation_evidence_empty(c, path, c.annotations@.len() as int);
    lemma_yml_evidence_empty(c, path, c.teams@.len() as int);
    lemma_rule_evidence_empty(c, path, c.rules@.len() as int);
    lemma_declaration_evidence_empty(c, path, c.declarations@.len() as int);
}

proof fn lemma_annotation_evidence_empty(c: &LoadedConfig, path: Seq<u8>, n: int)
    requires
        forall|j: int| 0 <= j < n ==> !annotation_applies(c, j, path),
    ensures
        annotation_evidence(c, path, n).len() == 0,
    decreases n,
{
    if n > 0 {
        lemma_annotation_evidence_empty(c, path, n - 1);
    }
}

proof fn lemma_yml_evidence_empty(c: &LoadedConfig, path: Seq<u8>, n: int)
    requires
        forall|j: int| 0 <= j < n ==> !yml_applies(c, j, path),
    ensures
        yml_evidence(c, path, n).len() == 0,
    decreases n,
{
    if n > 0 {
        lemma_yml_evidence_empty(c, path, n - 1);
    }
}

proof fn lemma_rule_evidence_empty(c: &LoadedConfig, path: Seq<u8>, n: int)
    requires
        forall|j: int| 0 <= j < n ==> !rule_applies(c, j, path),
    ensures
        rule_evidence(c, path, n).len() == 0,
    decreases n,
{
    if n > 0 {
        lemma_rule_evidence_empty(c, path, n - 1);
    }
}

proof fn lemma_declaration_evidence_empty(c: &LoadedConfig, path: Seq<u8>, n: int)
    requires
        forall|j: int| 0 <= j < n ==> !declaration_applies(c, j, path),
    ensures
        declaration_evidence(c, path, n).len() == 0,
    decreases n,
{
    if n > 0 {
        lemma_declaration_evidence_empty(c, path, n - 1);
    }
}

/// Resolution is a function of the configuration and the path: two results
/// owed for the same inputs agree in team, winning source and evidence.
pub proof fn resolution_is_deterministic(
    c: &LoadedConfig,
    path: Seq<u8>,
    r1: &ResolvedOwnership,
    r2: &ResolvedOwnership,
)
    requires
        is_resolution(c, path, r1),
        is_resolution(c, path, r2),
    ensures
        r1.team == r2.team,
        r1.winner == r2.winner,
        r1.evidence@ == r2.evidence@,
{
}

/// Among team globs the most specific one wins: when no annotation or team
/// file claims `path` and rule `i` is strictly longer than every other rule
/// that matches it, rule `i` decides and its team owns the file.
pub proof fn more_specific_glob_wins(c: &LoadedConfig, path: Seq<u8>, i: int)
    requires
        0 <= i < c.rules@.len() <= usize::MAX,
        rule_applies(c, i, path),
        forall|j: int| 0 <= j < c.annotations@.len() ==> !annotation_applies(c, j, path),
        forall|j: int| 0 <= j < c.teams@.len() ==> !yml_applies(c, j, path),
        forall|j: int|
            0 <= j < c.rules@.len() && j != i && rule_applies(c, j, path)
                ==> c.rules@[j].pattern@.len() < c.rules@[i].pattern@.len(),
    ensures
        winning_source(c, path) == Some(OwnershipSource::TeamConfigGlob { rule: i as usize }),
        owning_team(c, path) == Some(c.rules@[i].team),
{
    lemma_best_annotation(c, path, c.annotations@.len() as int);
    lemma_yml_team(c, path, c.teams@.len() as int);
    lemma_best_rule_none(c, path, c.rules@.len() as int);
    lemma_best_rule(c, path, c.rules@.len() as int);
}

/// A path that no source claims is unowned, which is a result and not a
/// failure: no team, no winning source, no evidence.
pub proof fn unmatched_path_is_unowned(c: &LoadedConfig, path: Seq<u8>, r: &ResolvedOwnership)
    requires
        is_resolution(c, path, r),
        forall|j: int| 0 <= j < c.annotations@.len() ==> !annotation_applies(c, j, path),
        forall|j: int| 0 <= j < c.teams@.len() ==> !yml_applies(c, j, path),
        forall|j: int| 0 <= j < c.rules@.len() ==> !rule_applies(c, j, path),
        forall|j: int| 0 <= j < c.declarations@.len() ==> !declaration_applies(c, j, path),
    ensures
        r.team is None,
        r.winner is None,
        r.evidence@.len() == 0,
{
    lemma_best_annotation(c, path, c.annotations@.len() as int);
    lemma_yml_team(c, path, c.teams@.len() as int);
    lemma_best_rule_none(c, path, c.rules@.len() as int);
    lemma_last_declaration(c, path, c.declarations@.len() as int);
    lemma_no_evidence(c, path);
}

} // verus!
