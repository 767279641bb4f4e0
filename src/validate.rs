use vstd::prelude::*;
use crate::bytes::bytes_eq;
use crate::generate::{decls_view, generate, generated};
use crate::model::{Declaration, LoadedConfig, is_valid_pattern, valid_pattern};
use crate::pattern::{glob_matches, pattern_matches};

verus! {

/// A problem that validation reports. Each names what it is about by its
/// index: into the configuration's teams, rules or annotations, into the
/// on-disk declarations (a stale line), into the generated declarations (a
/// missing line), or the first line (counted from 0) where two files that
/// hold the same lines differ in order or repetition.
#[derive(Clone, Copy, PartialEq, Eq, Debug)]
pub enum Issue {
    DuplicateTeam { team: usize },
    UnknownTeamInRule { rule: usize },
    MalformedPattern { rule: usize },
    PatternCollision { rule: usize },
    UnknownTeamInAnnotation { annotation: usize },
    TeamWithoutRules { team: usize },
    StaleDeclaration { declaration: usize },
    MissingDeclaration { entry: usize },
    DeclarationsOutOfOrder { line: usize },
    TeamNotFound,
}

// ---- structural checks

pub open spec fn duplicates_earlier_team(c: &LoadedConfig, t: int) -> bool {
    exists|j: int| 0 <= j < t && c.teams@[j].name@ == c.teams@[t].name@
}

/// No rule gives team `t` anything to own, and it is not marked exempt.
pub open spec fn team_has_no_rules(c: &LoadedConfig, t: int) -> bool {
    !c.teams@[t].exempt && forall|r: int| 0 <= r < c.rules@.len() ==> #[trigger] c.rules@[r].team != t
}

pub open spec fn issues_of_team(c: &LoadedConfig, t: int) -> Seq<Issue> {
    (if duplicates_earlier_team(c, t) { seq![Issue::DuplicateTeam { team: t as usize }] } else { seq![] })
        + (if team_has_no_rules(c, t) { seq![Issue::TeamWithoutRules { team: t as usize }] } else { seq![] })
}

pub open spec fn team_issues(c: &LoadedConfig, n: int) -> Seq<Issue>
    decreases n,
{
    if n <= 0 {
        seq![]
    } else {
        team_issues(c, n - 1) + issues_of_team(c, n - 1)
    }
}

/// Rule `r` repeats the pattern of an earlier rule of another team.
pub open spec fn collides_with_earlier_rule(c: &LoadedConfig, r: int) -> bool {
    exists|j: int|
        0 <= j < r && c.rules@[j].pattern@ == c.rules@[r].pattern@ && c.rules@[j].team != c.rules@[r].team
}

pub open spec fn issues_of_rule(c: &LoadedConfig, r: int) -> Seq<Issue> {
    (if c.rules@[r].team >= c.teams@.len() { seq![Issue::UnknownTeamInRule { rule: r as usize }] } else { seq![] })
        + (if !valid_pattern(c.rules@[r].pattern@) { seq![Issue::MalformedPattern { rule: r as usize }] } else { seq![] })
        + (if collides_with_earlier_rule(c, r) { seq![Issue::PatternCollision { rule: r as usize }] } else { seq![] })
}

pub open spec fn rule_issues(c: &LoadedConfig, n: int) -> Seq<Issue>
    decreases n,
{
    if n <= 0 {
        seq![]
    } else {
        rule_issues(c, n - 1) + issues_of_rule(c, n - 1)
    }
}

pub open spec fn annotation_issues(c: &LoadedConfig, n: int) -> Seq<Issue>
    decreases n,
{
    if n <= 0 {
        seq![]
    } else if c.annotations@[n - 1].team >= c.teams@.len() {
        annotation_issues(c, n - 1).push(Issue::UnknownTeamInAnnotation { annotation: (n - 1) as usize })
    } else {
        annotation_issues(c, n - 1)
    }
}

/// Every structural problem of the configuration, teams first, then rules,
/// then annotations.
pub open spec fn structural_issues(c: &LoadedConfig) -> Seq<Issue> {
    team_issues(c, c.teams@.len() as int) + rule_issues(c, c.rules@.len() as int) + annotation_issues(
        c,
        c.annotations@.len() as int,
    )
}

// ---- drift between the generated and the on-disk declarations

/// The first index from `k` on where the two sequences differ (one of
/// them ends there, or their entries differ), if any.
pub open spec fn first_difference(
    gen: Seq<(Seq<u8>, Seq<u8>)>,
    disk: Seq<(Seq<u8>, Seq<u8>)>,
    k: int,
) -> Option<int>
    decreases gen.len() + disk.len() - 2 * k,
{
    if k < 0 || (k >= gen.len() && k >= disk.len()) {
        None
    } else if k >= gen.len() || k >= disk.len() || gen[k] != disk[k] {
        Some(k)
    } else {
        first_difference(gen, disk, k + 1)
    }
}

/// One issue for each of the first `n` on-disk lines that the configuration
/// does not generate.
pub open spec fn stale_issues(gen: Seq<(Seq<u8>, Seq<u8>)>, disk: Seq<(Seq<u8>, Seq<u8>)>, n: int) -> Seq<Issue>
    decreases n,
{
    if n <= 0 {
        seq![]
    } else if !gen.contains(disk[n - 1]) {
        stale_issues(gen, disk, n - 1).push(Issue::StaleDeclaration { declaration: (n - 1) as usize })
    } else {
        stale_issues(gen, disk, n - 1)
    }
}

/// One issue for each of the first `n` generated lines that the on-disk
/// file lacks.
pub open spec fn missing_issues(gen: Seq<(Seq<u8>, Seq<u8>)>, disk: Seq<(Seq<u8>, Seq<u8>)>, n: int) -> Seq<Issue>
    decreases n,
{
    if n <= 0 {
        seq![]
    } else if !disk.contains(gen[n - 1]) {
        missing_issues(gen, disk, n - 1).push(Issue::MissingDeclaration { entry: (n - 1) as usize })
    } else {
        missing_issues(gen, disk, n - 1)
    }
}

/// Every divergence between the generated and the on-disk declarations, in
/// one pass: each stale on-disk line, then each missing generated line; and
/// when the two hold the same lines but not in the same order or number,
/// the first line where they differ.
pub open spec fn drift_issues(gen: Seq<(Seq<u8>, Seq<u8>)>, disk: Seq<(Seq<u8>, Seq<u8>)>) -> Seq<Issue> {
    let found = stale_issues(gen, disk, disk.len() as int) + missing_issues(gen, disk, gen.len() as int);
    if found.len() == 0 {
        match first_difference(gen, disk, 0) {
            Some(k) => seq![Issue::DeclarationsOutOfOrder { line: k as usize }],
            None => seq![],
        }
    } else {
        found
    }
}

proof fn lemma_no_stale(g: Seq<(Seq<u8>, Seq<u8>)>, n: int)
    requires
        n <= g.len(),
    ensures
        stale_issues(g, g, n).len() == 0,
    decreases n,
{
    if n > 0 {
        lemma_no_stale(g, n - 1);
        assert(g.contains(g[n - 1]));
    }
}

proof fn lemma_no_missing(g: Seq<(Seq<u8>, Seq<u8>)>, n: int)
    requires
        n <= g.len(),
    ensures
        missing_issues(g, g, n).len() == 0,
    decreases n,
{
    if n > 0 {
        lemma_no_missing(g, n - 1);
        assert(g.contains(g[n - 1]));
    }
}

proof fn lemma_first_difference(gen: Seq<(Seq<u8>, Seq<u8>)>, disk: Seq<(Seq<u8>, Seq<u8>)>, k: int)
    requires
        0 <= k <= gen.len(),
        k <= disk.len(),
    ensures
        first_difference(gen, disk, k) is None <==> (gen.len() == disk.len() && forall|j: int|
            k <= j < gen.len() ==> gen[j] == disk[j]),
        first_difference(gen, disk, k) matches Some(x) ==> k <= x && (x < gen.len() || x < disk.len()),
    decreases gen.len() + disk.len() - 2 * k,
{
    if !(k >= gen.len() && k >= disk.len()) && !(k >= gen.len() || k >= disk.len() || gen[k] != disk[k]) {
        lemma_first_difference(gen, disk, k + 1);
    }
}

/// Drift is empty exactly when the on-disk declarations equal the generated
/// ones, entry for entry and in the same order.
pub proof fn no_drift_iff_equal(gen: Seq<(Seq<u8>, Seq<u8>)>, disk: Seq<(Seq<u8>, Seq<u8>)>)
    ensures
        drift_issues(gen, disk).len() == 0 <==> gen == disk,
{
    lemma_first_difference(gen, disk, 0);
    if gen.len() == disk.len() && forall|j: int| 0 <= j < gen.len() ==> gen[j] == disk[j] {
        assert(gen =~= disk);
    }
    if gen == disk {
        lemma_no_stale(gen, gen.len() as int);
        lemma_no_missing(gen, gen.len() as int);
    }
}

/// Every issue of `c` against the declarations `disk`: drift is only
/// compared when every rule and annotation names a known team.
pub open spec fn all_issues(c: &LoadedConfig, disk: Seq<(Seq<u8>, Seq<u8>)>) -> Seq<Issue> {
    structural_issues(c) + if c.linked() {
        drift_issues(generated(c), disk)
    } else {
        seq![]
    }
}

// ---- scoping to a set of files

/// The pattern or path that an issue is about.
pub open spec fn issue_subject(
    c: &LoadedConfig,
    gen: Seq<(Seq<u8>, Seq<u8>)>,
    disk: Seq<(Seq<u8>, Seq<u8>)>,
    i: Issue,
) -> Seq<u8> {
    match i {
        Issue::DuplicateTeam { team } => c.teams@[team as int].config_file_path@,
        Issue::UnknownTeamInRule { rule } => c.rules@[rule as int].pattern@,
        Issue::MalformedPattern { rule } => c.rules@[rule as int].pattern@,
        Issue::PatternCollision { rule } => c.rules@[rule as int].pattern@,
        Issue::UnknownTeamInAnnotation { annotation } => c.annotations@[annotation as int].path@,
        Issue::TeamWithoutRules { team } => c.teams@[team as int].config_file_path@,
        Issue::StaleDeclaration { declaration } => disk[declaration as int].0,
        Issue::MissingDeclaration { entry } => gen[entry as int].0,
        Issue::DeclarationsOutOfOrder { line } => if line < disk.len() {
            disk[line as int].0
        } else {
            gen[line as int].0
        },
        Issue::TeamNotFound => seq![],
    }
}

pub open spec fn touches_files(subject: Seq<u8>, files: Seq<Vec<u8>>) -> bool {
    exists|k: int| 0 <= k < files.len() && pattern_matches(subject, #[trigger] files[k]@)
}

/// The issues among the first `n` that touch one of `files`.
pub open spec fn scoped(
    c: &LoadedConfig,
    gen: Seq<(Seq<u8>, Seq<u8>)>,
    disk: Seq<(Seq<u8>, Seq<u8>)>,
    issues: Seq<Issue>,
    files: Seq<Vec<u8>>,
    n: int,
) -> Seq<Issue>
    decreases n,
{
    if n <= 0 {
        seq![]
    } else if touches_files(issue_subject(c, gen, disk, issues[n - 1]), files) {
        scoped(c, gen, disk, issues, files, n - 1).push(issues[n - 1])
    } else {
        scoped(c, gen, disk, issues, files, n - 1)
    }
}

/// The generated declarations, when every rule names a known team.
pub open spec fn generated_if_linked(c: &LoadedConfig) -> Seq<(Seq<u8>, Seq<u8>)> {
    if c.linked() {
        generated(c)
    } else {
        seq![]
    }
}

/// What validation reports: every issue when no files are given, else those
/// that touch one of them.
pub open spec fn reported_issues(
    c: &LoadedConfig,
    disk: Seq<(Seq<u8>, Seq<u8>)>,
    files: Seq<Vec<u8>>,
) -> Seq<Issue> {
    let all = all_issues(c, disk);
    if files.len() == 0 {
        all
    } else {
        scoped(c, generated_if_linked(c), disk, all, files, all.len() as int)
    }
}

// ---- executable checks

fn team_issues_exec(c: &LoadedConfig, out: &mut Vec<Issue>)
    ensures
        final(out)@ == old(out)@ + team_issues(c, c.teams@.len() as int),
{
    let ghost start = out@;
    let mut t: usize = 0;
    while t < c.teams.len()
        invariant
            t <= c.teams@.len(),
            out@ == start + team_issues(c, t as int),
        decreases c.teams@.len() - t,
    {
        let ghost before = out@;
        let mut dup = false;
        let mut j: usize = 0;
        while j < t
            invariant
                t < c.teams@.len(),
                j <= t,
                dup == exists|m: int| 0 <= m < j && c.teams@[m].name@ == c.teams@[t as int].name@,
            decreases t - j,
        {
            if !dup && bytes_eq(&c.teams[j].name, &c.teams[t].name) {
                dup = true;
            }
            j = j + 1;
        }
        if dup {
            out.push(Issue::DuplicateTeam { team: t });
        }
        let mut owns = false;
        let mut r: usize = 0;
        while r < c.rules.len()
            invariant
                r <= c.rules@.len(),
                owns == exists|m: int| 0 <= m < r && #[trigger] c.rules@[m].team == t,
            decreases c.rules@.len() - r,
        {
            if c.rules[r].team == t {
                owns = true;
            }
            r = r + 1;
        }
        if !owns && !c.teams[t].exempt {
            out.push(Issue::TeamWithoutRules { team: t });
        }
        assert(out@ =~= before + issues_of_team(c, t as int));
        assert(out@ =~= start + team_issues(c, t + 1));
        t = t + 1;
    }
}

fn rule_issues_exec(c: &LoadedConfig, out: &mut Vec<Issue>)
    ensures
        final(out)@ == old(out)@ + rule_issues(c, c.rules@.len() as int),
{
    let ghost start = out@;
    let mut r: usize = 0;
    while r < c.rules.len()
        invariant
            r <= c.rules@.len(),
            out@ == start + rule_issues(c, r as int),
        decreases c.rules@.len() - r,
    {
        let ghost before = out@;
        if c.rules[r].team >= c.teams.len() {
            out.push(Issue::UnknownTeamInRule { rule: r });
        }
        if !is_valid_pattern(&c.rules[r].pattern) {
            out.push(Issue::MalformedPattern { rule: r });
        }
        let mut hit = false;
        let mut j: usize = 0;
        while j < r
            invariant
                r < c.rules@.len(),
                j <= r,
                hit == exists|m: int|
                    0 <= m < j && c.rules@[m].pattern@ == c.rules@[r as int].pattern@ && c.rules@[m].team
                        != c.rules@[r as int].team,
            decreases r - j,
        {
            if !hit && c.rules[j].team != c.rules[r].team && bytes_eq(&c.rules[j].pattern, &c.rules[r].pattern) {
                hit = true;
            }
            j = j + 1;
        }
        if hit {
            out.push(Issue::PatternCollision { rule: r });
        }
        assert(out@ =~= before + issues_of_rule(c, r as int));
        assert(out@ =~= start + rule_issues(c, r + 1));
        r = r + 1;
    }
}

fn annotation_issues_exec(c: &LoadedConfig, out: &mut Vec<Issue>)
    ensures
        final(out)@ == old(out)@ + annotation_issues(c, c.annotations@.len() as int),
{
    let ghost start = out@;
    let mut a: usize = 0;
    while a < c.annotations.len()
        invariant
            a <= c.annotations@.len(),
            out@ == start + annotation_issues(c, a as int),
        decreases c.annotations@.len() - a,
    {
        if c.annotations[a].team >= c.teams.len() {
            out.push(Issue::UnknownTeamInAnnotation { annotation: a });
        }
        assert(out@ =~= start + annotation_issues(c, a + 1));
        a = a + 1;
    }
}

pub open spec fn decl_pair(d: &Declaration) -> (Seq<u8>, Seq<u8>) {
    (d.pattern@, d.owner@)
}

fn contains_decl(s: &Vec<Declaration>, d: &Declaration) -> (r: bool)
    ensures
        r == decls_view(s@).contains(decl_pair(d)),
{
    let mut i: usize = 0;
    while i < s.len()
        invariant
            i <= s@.len(),
            forall|m: int| 0 <= m < i ==> decls_view(s@)[m] != decl_pair(d),
        decreases s@.len() - i,
    {
        if bytes_eq(&s[i].pattern, &d.pattern) && bytes_eq(&s[i].owner, &d.owner) {
            assert(decls_view(s@)[i as int] == decl_pair(d));
            return true;
        }
        i = i + 1;
    }
    false
}

fn drift_exec(gen: &Vec<Declaration>, disk: &Vec<Declaration>, out: &mut Vec<Issue>)
    ensures
        final(out)@ == old(out)@ + drift_issues(decls_view(gen@), decls_view(disk@)),
{
    let ghost start = out@;
    let ghost g = decls_view(gen@);
    let ghost d = decls_view(disk@);
    let mut found: Vec<Issue> = Vec::new();
    let mut i: usize = 0;
    while i < disk.len()
        invariant
            g == decls_view(gen@),
            d == decls_view(disk@),
            i <= disk@.len(),
            found@ == stale_issues(g, d, i as int),
        decreases disk@.len() - i,
    {
        if !contains_decl(gen, &disk[i]) {
            found.push(Issue::StaleDeclaration { declaration: i });
        }
        assert(found@ =~= stale_issues(g, d, i + 1));
        i = i + 1;
    }
    let ghost mid = found@;
    let mut e: usize = 0;
    while e < gen.len()
        invariant
            g == decls_view(gen@),
            d == decls_view(disk@),
            e <= gen@.len(),
            mid == stale_issues(g, d, d.len() as int),
            found@ == mid + missing_issues(g, d, e as int),
        decreases gen@.len() - e,
    {
        if !contains_decl(disk, &gen[e]) {
            found.push(Issue::MissingDeclaration { entry: e });
        }
        assert(found@ =~= mid + missing_issues(g, d, e + 1));
        e = e + 1;
    }
    if found.len() > 0 {
        let mut j: usize = 0;
        while j < found.len()
            invariant
                j <= found@.len(),
                out@ == start + found@.subrange(0, j as int),
            decreases found@.len() - j,
        {
            out.push(found[j]);
            j = j + 1;
        }
        assert(found@.subrange(0, found@.len() as int) =~= found@);
        return;
    }
    let mut k: usize = 0;
    while k < gen.len() && k < disk.len() && bytes_eq(&gen[k].pattern, &disk[k].pattern) && bytes_eq(
        &gen[k].owner,
        &disk[k].owner,
    )
        invariant
            k <= gen@.len(),
            k <= disk@.len(),
            g == decls_view(gen@),
            d == decls_view(disk@),
            first_difference(g, d, 0) == first_difference(g, d, k as int),
        decreases gen@.len() - k,
    {
        assert(g[k as int] == d[k as int]);
        k = k + 1;
    }
    if k < gen.len() || k < disk.len() {
        if k < gen.len() && k < disk.len() {
            assert(g[k as int] != d[k as int]);
        }
        out.push(Issue::DeclarationsOutOfOrder { line: k });
    }
    assert(out@ =~= start + drift_issues(g, d));
}

/// Whether every rule and annotation names a known team.
pub fn is_linked(c: &LoadedConfig) -> (r: bool)
    ensures
        r == c.linked(),
{
    let mut i: usize = 0;
    while i < c.rules.len()
        invariant
            i <= c.rules@.len(),
            forall|k: int| 0 <= k < i ==> #[trigger] c.rules@[k].team < c.teams@.len(),
        decreases c.rules@.len() - i,
    {
        if c.rules[i].team >= c.teams.len() {
            return false;
        }
        i = i + 1;
    }
    let mut a: usize = 0;
    while a < c.annotations.len()
        invariant
            c.rules_linked(),
            a <= c.annotations@.len(),
            forall|k: int| 0 <= k < a ==> #[trigger] c.annotations@[k].team < c.teams@.len(),
        decreases c.annotations@.len() - a,
    {
        if c.annotations[a].team >= c.teams.len() {
            return false;
        }
        a = a + 1;
    }
    true
}

fn touches_files_exec(subject: &Vec<u8>, files: &Vec<Vec<u8>>) -> (r: bool)
    ensures
        r == touches_files(subject@, files@),
{
    let mut k: usize = 0;
    while k < files.len()
        invariant
            k <= files@.len(),
            forall|m: int| 0 <= m < k ==> !pattern_matches(subject@, #[trigger] files@[m]@),
        decreases files@.len() - k,
    {
        if glob_matches(subject, &files[k]) {
            return true;
        }
        k = k + 1;
    }
    false
}

fn subject_of<'a>(c: &'a LoadedConfig, gen: &'a Vec<Declaration>, disk: &'a Vec<Declaration>, i: Issue) -> (r: &'a Vec<u8>)
    requires
        issue_in_range(c, gen@.len(), disk@.len(), i),
    ensures
        r@ == issue_subject(c, decls_view(gen@), decls_view(disk@), i),
{
    match i {
        Issue::DuplicateTeam { team } => &c.teams[team].config_file_path,
        Issue::UnknownTeamInRule { rule } => &c.rules[rule].pattern,
        Issue::MalformedPattern { rule } => &c.rules[rule].pattern,
        Issue::PatternCollision { rule } => &c.rules[rule].pattern,
        Issue::UnknownTeamInAnnotation { annotation } => &c.annotations[annotation].path,
        Issue::TeamWithoutRules { team } => &c.teams[team].config_file_path,
        Issue::StaleDeclaration { declaration } => &disk[declaration].pattern,
        Issue::MissingDeclaration { entry } => &gen[entry].pattern,
        Issue::DeclarationsOutOfOrder { line } => if line < disk.len() {
            &disk[line].pattern
        } else {
            &gen[line].pattern
        },
        Issue::TeamNotFound => &c.teams[0].name,
    }
}

/// The index that an issue carries lies in the list it refers to.
pub open spec fn issue_in_range(c: &LoadedConfig, gen_len: nat, disk_len: nat, i: Issue) -> bool {
    match i {
        Issue::DuplicateTeam { team } => team < c.teams@.len(),
        Issue::UnknownTeamInRule { rule } => rule < c.rules@.len(),
        Issue::MalformedPattern { rule } => rule < c.rules@.len(),
        Issue::PatternCollision { rule } => rule < c.rules@.len(),
        Issue::UnknownTeamInAnnotation { annotation } => annotation < c.annotations@.len(),
        Issue::TeamWithoutRules { team } => team < c.teams@.len(),
        Issue::StaleDeclaration { declaration } => declaration < disk_len,
        Issue::MissingDeclaration { entry } => entry < gen_len,
        Issue::DeclarationsOutOfOrder { line } => line < disk_len || line < gen_len,
        Issue::TeamNotFound => false,
    }
}

pub open spec fn all_in_range(c: &LoadedConfig, gen_len: nat, disk_len: nat, s: Seq<Issue>) -> bool {
    forall|k: int| 0 <= k < s.len() ==> issue_in_range(c, gen_len, disk_len, #[trigger] s[k])
}

proof fn lemma_team_issues_in_range(c: &LoadedConfig, g: nat, d: nat, n: int)
    requires
        n <= c.teams@.len(),
    ensures
        all_in_range(c, g, d, team_issues(c, n)),
    decreases n,
{
    if n > 0 {
        lemma_team_issues_in_range(c, g, d, n - 1);
    }
}

proof fn lemma_rule_issues_in_range(c: &LoadedConfig, g: nat, d: nat, n: int)
    requires
        n <= c.rules@.len(),
    ensures
        all_in_range(c, g, d, rule_issues(c, n)),
    decreases n,
{
    if n > 0 {
        lemma_rule_issues_in_range(c, g, d, n - 1);
        let a = rule_issues(c, n - 1);
        let b = issues_of_rule(c, n - 1);
        assert forall|k: int| 0 <= k < b.len() implies issue_in_range(c, g, d, #[trigger] b[k]) by {
        }
        assert forall|k: int| 0 <= k < (a + b).len() implies issue_in_range(c, g, d, #[trigger] (a + b)[k]) by {
            if k >= a.len() {
                assert((a + b)[k] == b[k - a.len()]);
            }
        }
    }
}

proof fn lemma_annotation_issues_in_range(c: &LoadedConfig, g: nat, d: nat, n: int)
    requires
        n <= c.annotations@.len(),
    ensures
        all_in_range(c, g, d, annotation_issues(c, n)),
    decreases n,
{
    if n > 0 {
        lemma_annotation_issues_in_range(c, g, d, n - 1);
    }
}

proof fn lemma_stale_in_range(c: &LoadedConfig, gen: Seq<(Seq<u8>, Seq<u8>)>, disk: Seq<(Seq<u8>, Seq<u8>)>, n: int)
    requires
        n <= disk.len(),
    ensures
        all_in_range(c, gen.len(), disk.len(), stale_issues(gen, disk, n)),
    decreases n,
{
    if n > 0 {
        lemma_stale_in_range(c, gen, disk, n - 1);
    }
}

proof fn lemma_missing_in_range(c: &LoadedConfig, gen: Seq<(Seq<u8>, Seq<u8>)>, disk: Seq<(Seq<u8>, Seq<u8>)>, n: int)
    requires
        n <= gen.len(),
    ensures
        all_in_range(c, gen.len(), disk.len(), missing_issues(gen, disk, n)),
    decreases n,
{
    if n > 0 {
        lemma_missing_in_range(c, gen, disk, n - 1);
    }
}

proof fn lemma_drift_in_range(c: &LoadedConfig, gen: Seq<(Seq<u8>, Seq<u8>)>, disk: Seq<(Seq<u8>, Seq<u8>)>)
    ensures
        all_in_range(c, gen.len(), disk.len(), drift_issues(gen, disk)),
{
    lemma_first_difference(gen, disk, 0);
    lemma_stale_in_range(c, gen, disk, disk.len() as int);
    lemma_missing_in_range(c, gen, disk, gen.len() as int);
    lemma_concat_in_range(
        c,
        gen.len(),
        disk.len(),
        stale_issues(gen, disk, disk.len() as int),
        missing_issues(gen, disk, gen.len() as int),
    );
}

proof fn lemma_concat_in_range(c: &LoadedConfig, g: nat, d: nat, a: Seq<Issue>, b: Seq<Issue>)
    requires
        all_in_range(c, g, d, a),
        all_in_range(c, g, d, b),
    ensures
        all_in_range(c, g, d, a + b),
{
    assert forall|k: int| 0 <= k < (a + b).len() implies issue_in_range(c, g, d, #[trigger] (a + b)[k]) by {
        if k >= a.len() {
            assert((a + b)[k] == b[k - a.len()]);
        } else {
            assert((a + b)[k] == a[k]);
        }
    }
}

proof fn lemma_all_issues_in_range(c: &LoadedConfig, disk: Seq<(Seq<u8>, Seq<u8>)>)
    ensures
        all_in_range(c, generated_if_linked(c).len(), disk.len(), all_issues(c, disk)),
{
    let g = generated_if_linked(c).len();
    let d = disk.len();
    lemma_team_issues_in_range(c, g, d, c.teams@.len() as int);
    lemma_rule_issues_in_range(c, g, d, c.rules@.len() as int);
    lemma_annotation_issues_in_range(c, g, d, c.annotations@.len() as int);
    lemma_concat_in_range(c, g, d, team_issues(c, c.teams@.len() as int), rule_issues(c, c.rules@.len() as int));
    lemma_concat_in_range(
        c,
        g,
        d,
        team_issues(c, c.teams@.len() as int) + rule_issues(c, c.rules@.len() as int),
        annotation_issues(c, c.annotations@.len() as int),
    );
    if c.linked() {
        lemma_drift_in_range(c, generated(c), disk);
    }
    let empty: Seq<Issue> = seq![];
    lemma_concat_in_range(
        c,
        g,
        d,
        structural_issues(c),
        if c.linked() { drift_issues(generated(c), disk) } else { empty },
    );
}

/// Validates `c` against the declarations `disk`, reporting every issue, or,
/// when `files` is not empty, those that touch one of the files.
pub fn validate_declarations(c: &LoadedConfig, disk: &Vec<Declaration>, files: &Vec<Vec<u8>>) -> (r: Vec<Issue>)
    ensures
        r@ == reported_issues(c, decls_view(disk@), files@),
{
    let mut all: Vec<Issue> = Vec::new();
    team_issues_exec(c, &mut all);
    rule_issues_exec(c, &mut all);
    annotation_issues_exec(c, &mut all);
    let linked = is_linked(c);
    let gen: Vec<Declaration> = if linked { generate(c) } else { Vec::new() };
    if linked {
        drift_exec(&gen, disk, &mut all);
    }
    assert(all@ =~= all_issues(c, decls_view(disk@)));
    if files.len() == 0 {
        return all;
    }
    proof { lemma_all_issues_in_range(c, decls_view(disk@)); }
    let ghost g = decls_view(gen@);
    assert(g =~= generated_if_linked(c));
    let mut out: Vec<Issue> = Vec::new();
    let mut k: usize = 0;
    while k < all.len()
        invariant
            g == generated_if_linked(c),
            g == decls_view(gen@),
            all@ == all_issues(c, decls_view(disk@)),
            all_in_range(c, g.len(), disk@.len(), all@),
            k <= all@.len(),
            out@ == scoped(c, g, decls_view(disk@), all@, files@, k as int),
        decreases all@.len() - k,
    {
        let issue = all[k];
        assert(issue_in_range(c, gen@.len(), disk@.len(), all@[k as int]));
        let subject = subject_of(c, &gen, disk, issue);
        if touches_files_exec(subject, files) {
            out.push(issue);
        }
        k = k + 1;
    }
    out
}

/// An issue about the declarations file rather than the configuration.
pub open spec fn is_drift(i: Issue) -> bool {
    i is StaleDeclaration || i is MissingDeclaration || i is DeclarationsOutOfOrder
}

pub open spec fn no_drift_issue(s: Seq<Issue>) -> bool {
    forall|k: int| 0 <= k < s.len() ==> !is_drift(#[trigger] s[k])
}

proof fn lemma_no_drift_concat(a: Seq<Issue>, b: Seq<Issue>)
    requires
        no_drift_issue(a),
        no_drift_issue(b),
    ensures
        no_drift_issue(a + b),
{
    assert forall|k: int| 0 <= k < (a + b).len() implies !is_drift(#[trigger] (a + b)[k]) by {
        if k < a.len() {
            assert((a + b)[k] == a[k]);
        } else {
            assert((a + b)[k] == b[k - a.len()]);
        }
    }
}

proof fn lemma_structural_no_drift(c: &LoadedConfig)
    ensures
        no_drift_issue(structural_issues(c)),
{
    lemma_team_issues_no_drift(c, c.teams@.len() as int);
    lemma_rule_issues_no_drift(c, c.rules@.len() as int);
    lemma_annotation_issues_no_drift(c, c.annotations@.len() as int);
    lemma_no_drift_concat(team_issues(c, c.teams@.len() as int), rule_issues(c, c.rules@.len() as int));
    lemma_no_drift_concat(
        team_issues(c, c.teams@.len() as int) + rule_issues(c, c.rules@.len() as int),
        annotation_issues(c, c.annotations@.len() as int),
    );
}

proof fn lemma_team_issues_no_drift(c: &LoadedConfig, n: int)
    ensures
        no_drift_issue(team_issues(c, n)),
    decreases n,
{
    if n > 0 {
        lemma_team_issues_no_drift(c, n - 1);
        let b = issues_of_team(c, n - 1);
        assert(no_drift_issue(b));
        lemma_no_drift_concat(team_issues(c, n - 1), b);
    }
}

proof fn lemma_rule_issues_no_drift(c: &LoadedConfig, n: int)
    ensures
        no_drift_issue(rule_issues(c, n)),
    decreases n,
{
    if n > 0 {
        lemma_rule_issues_no_drift(c, n - 1);
        let b = issues_of_rule(c, n - 1);
        assert(no_drift_issue(b));
        lemma_no_drift_concat(rule_issues(c, n - 1), b);
    }
}

proof fn lemma_annotation_issues_no_drift(c: &LoadedConfig, n: int)
    ensures
        no_drift_issue(annotation_issues(c, n)),
    decreases n,
{
    if n > 0 {
        lemma_annotation_issues_no_drift(c, n - 1);
    }
}

proof fn lemma_scoped_no_drift(
    c: &LoadedConfig,
    gen: Seq<(Seq<u8>, Seq<u8>)>,
    disk: Seq<(Seq<u8>, Seq<u8>)>,
    issues: Seq<Issue>,
    files: Seq<Vec<u8>>,
    n: int,
)
    requires
        n <= issues.len(),
        no_drift_issue(issues),
    ensures
        no_drift_issue(scoped(c, gen, disk, issues, files, n)),
    decreases n,
{
    if n > 0 {
        lemma_scoped_no_drift(c, gen, disk, issues, files, n - 1);
        let p = scoped(c, gen, disk, issues, files, n - 1);
        assert(!is_drift(issues[n - 1]));
        lemma_no_drift_concat(p, seq![issues[n - 1]]);
        assert(p.push(issues[n - 1]) =~= p + seq![issues[n - 1]]);
    }
}

/// A declarations file that was just generated from a configuration shows no
/// drift against that configuration: validating it reports only structural
/// issues, and, scoped to any files, no drift issue.
pub proof fn fresh_declarations_have_no_drift(c: &LoadedConfig)
    requires
        c.linked(),
    ensures
        drift_issues(generated(c), generated(c)).len() == 0,
        all_issues(c, generated(c)) == structural_issues(c),
        forall|files: Seq<Vec<u8>>| no_drift_issue(#[trigger] reported_issues(c, generated(c), files)),
{
    no_drift_iff_equal(generated(c), generated(c));
    assert(drift_issues(generated(c), generated(c)) =~= seq![]);
    assert(all_issues(c, generated(c)) =~= structural_issues(c));
    lemma_structural_no_drift(c);
    assert forall|files: Seq<Vec<u8>>| no_drift_issue(#[trigger] reported_issues(c, generated(c), files)) by {
        let all = all_issues(c, generated(c));
        lemma_scoped_no_drift(c, generated_if_linked(c), generated(c), all, files, all.len() as int);
    }
}

} // verus!
