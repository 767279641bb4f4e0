use vstd::prelude::*;
use crate::bulk::{entry_paths, is_bulk_resolution, keys_cover, resolve_many};
use crate::bytes::copy_bytes;
use crate::declfile::{is_blank, parsed, plain_token, rendered_declarations_read_back, writable_entry};
use crate::model::{LoadedConfig, is_space, plain_text, valid_pattern};
use crate::generate::{
    annotation_line, annotation_lines, decls_view, declarations_below, declarations_of_len, generate, generated, render, rendered,
    rule_declaration, yml_line, yml_lines,
};
use crate::resolve::{OwnershipSource, all_evidence, find_team, is_resolution, lemma_team_named_none, owning_team, resolve, team_of_name};
use crate::validate::{Issue, all_issues, fresh_declarations_have_no_drift, reported_issues, structural_issues, validate_declarations};

verus! {

/// A summary line of a successful run.
#[derive(Clone, Copy, PartialEq, Eq, Debug)]
pub enum Info {
    DeclarationsGenerated { entries: usize },
    ValidationPassed,
    TeamReport { team: usize },
    OwnedGlob { rule: usize },
    OwnedPath { annotation: usize },
}

/// The result of a run: three independent channels, and the declarations
/// file text to write when the run generated one. Empty `validation_errors`
/// and `io_errors` mean success.
pub struct RunResult {
    pub info_messages: Vec<Info>,
    pub validation_errors: Vec<Issue>,
    pub io_errors: Vec<Vec<u8>>,
    pub declarations_file: Option<Vec<u8>>,
}

/// The engine's version, `0.1.0`.
pub fn version() -> (r: Vec<u8>)
    ensures
        r@ == seq![48u8, 46u8, 49u8, 46u8, 48u8],
{
    let r: Vec<u8> = vec![48u8, 46u8, 49u8, 46u8, 48u8];
    assert(r@ =~= seq![48u8, 46u8, 49u8, 46u8, 48u8]);
    r
}

/// How a run ends for its caller: validation errors take precedence over
/// environment errors, and a run with neither succeeds.
#[derive(Clone, Copy, PartialEq, Eq, Debug)]
pub enum Outcome {
    ValidationFailed,
    IoFailed,
    Succeeded,
}

/// The outcome of a run with `validation_errors` validation errors and
/// `io_errors` environment errors.
pub fn outcome(validation_errors: usize, io_errors: usize) -> (r: Outcome)
    ensures
        validation_errors > 0 ==> r == Outcome::ValidationFailed,
        validation_errors == 0 && io_errors > 0 ==> r == Outcome::IoFailed,
        validation_errors == 0 && io_errors == 0 ==> r == Outcome::Succeeded,
{
    if validation_errors > 0 {
        Outcome::ValidationFailed
    } else if io_errors > 0 {
        Outcome::IoFailed
    } else {
        Outcome::Succeeded
    }
}

/// The owner of a file as the host sees it: the team's name, its
/// configuration file, and the sources that claimed the file.
pub struct Team {
    pub team_name: Vec<u8>,
    pub team_config_yml: Vec<u8>,
    pub reasons: Vec<OwnershipSource>,
}

/// One entry of `teams_for_files`.
pub struct FileTeam {
    pub path: Vec<u8>,
    pub team: Option<Team>,
}

pub open spec fn all_writable(s: Seq<(Seq<u8>, Seq<u8>)>) -> bool {
    forall|i: int| 0 <= i < s.len() ==> writable_entry(#[trigger] s[i])
}

proof fn lemma_of_len_writable(c: &LoadedConfig, len: nat, n: int)
    requires
        n <= c.rules@.len(),
        forall|r: int| 0 <= r < c.rules@.len() ==> writable_entry(#[trigger] rule_declaration(c, r)),
    ensures
        all_writable(declarations_of_len(c, len, n)),
    decreases n,
{
    if n > 0 {
        lemma_of_len_writable(c, len, n - 1);
        let s = declarations_of_len(c, len, n - 1);
        if c.rules@[n - 1].pattern@.len() == len {
            assert(writable_entry(rule_declaration(c, n - 1)));
            assert forall|i: int| 0 <= i < s.len() + 1 implies writable_entry(#[trigger] s.push(rule_declaration(c, n - 1))[i]) by {
                if i < s.len() {
                    assert(s.push(rule_declaration(c, n - 1))[i] == s[i]);
                }
            }
        }
    }
}

proof fn lemma_below_writable(c: &LoadedConfig, len: nat)
    requires
        forall|r: int| 0 <= r < c.rules@.len() ==> writable_entry(#[trigger] rule_declaration(c, r)),
    ensures
        all_writable(declarations_below(c, len)),
    decreases len,
{
    if len > 0 {
        lemma_below_writable(c, (len - 1) as nat);
        lemma_of_len_writable(c, (len - 1) as nat, c.rules@.len() as int);
        let a = declarations_below(c, (len - 1) as nat);
        let b = declarations_of_len(c, (len - 1) as nat, c.rules@.len() as int);
        assert forall|i: int| 0 <= i < (a + b).len() implies writable_entry(#[trigger] (a + b)[i]) by {
            if i < a.len() {
                assert((a + b)[i] == a[i]);
            } else {
                assert((a + b)[i] == b[i - a.len()]);
            }
        }
    }
}

proof fn lemma_concat_writable(a: Seq<(Seq<u8>, Seq<u8>)>, b: Seq<(Seq<u8>, Seq<u8>)>)
    requires
        all_writable(a),
        all_writable(b),
    ensures
        all_writable(a + b),
{
    assert forall|i: int| 0 <= i < (a + b).len() implies writable_entry(#[trigger] (a + b)[i]) by {
        if i < a.len() {
            assert((a + b)[i] == a[i]);
        } else {
            assert((a + b)[i] == b[i - a.len()]);
        }
    }
}

proof fn lemma_yml_lines_writable(c: &LoadedConfig, n: int)
    requires
        n <= c.teams@.len(),
        forall|t: int| 0 <= t < c.teams@.len() ==> writable_entry(#[trigger] yml_line(c, t)),
    ensures
        all_writable(yml_lines(c, n)),
    decreases n,
{
    if n > 0 {
        lemma_yml_lines_writable(c, n - 1);
        lemma_concat_writable(yml_lines(c, n - 1), seq![yml_line(c, n - 1)]);
        assert(yml_lines(c, n) =~= yml_lines(c, n - 1) + seq![yml_line(c, n - 1)]);
    }
}

proof fn lemma_annotation_lines_writable(c: &LoadedConfig, n: int)
    requires
        n <= c.annotations@.len(),
        forall|a: int| 0 <= a < c.annotations@.len() ==> writable_entry(#[trigger] annotation_line(c, a)),
    ensures
        all_writable(annotation_lines(c, n)),
    decreases n,
{
    if n > 0 {
        lemma_annotation_lines_writable(c, n - 1);
        lemma_concat_writable(annotation_lines(c, n - 1), seq![annotation_line(c, n - 1)]);
        assert(annotation_lines(c, n) =~= annotation_lines(c, n - 1) + seq![annotation_line(c, n - 1)]);
    }
}

proof fn lemma_plain_is_token(x: Seq<u8>)
    requires
        plain_text(x),
    ensures
        plain_token(x),
{
    assert forall|k: int| 0 <= k < x.len() implies !is_blank(#[trigger] x[k]) && x[k] != 10 by {
        assert(!is_space(x[k]));
    }
}

proof fn lemma_wf_lines_writable(c: &LoadedConfig)
    requires
        c.wf(),
    ensures
        forall|r: int| 0 <= r < c.rules@.len() ==> writable_entry(#[trigger] rule_declaration(c, r)),
        forall|t: int| 0 <= t < c.teams@.len() ==> writable_entry(#[trigger] yml_line(c, t)),
        forall|a: int| 0 <= a < c.annotations@.len() ==> writable_entry(#[trigger] annotation_line(c, a)),
{
    assert forall|r: int| 0 <= r < c.rules@.len() implies writable_entry(#[trigger] rule_declaration(c, r)) by {
        assert(valid_pattern(c.rules@[r].pattern@));
        lemma_plain_is_token(c.rules@[r].pattern@);
        lemma_plain_is_token(c.teams@[c.rules@[r].team as int].name@);
    }
    assert forall|t: int| 0 <= t < c.teams@.len() implies writable_entry(#[trigger] yml_line(c, t)) by {
        let p = c.teams@[t].config_file_path@;
        assert(plain_text(p));
        lemma_plain_is_token(c.teams@[t].name@);
        lemma_plain_is_token(p);
        if !(p.len() > 0 && p[0] == 47) {
            let q = seq![47u8] + p;
            assert forall|k: int| 0 <= k < q.len() implies !is_blank(#[trigger] q[k]) && q[k] != 10 by {
                if k > 0 {
                    assert(q[k] == p[k - 1]);
                    assert(!is_space(p[k - 1]));
                }
            }
            assert(q[0] == 47);
        }
    }
    assert forall|a: int| 0 <= a < c.annotations@.len() implies writable_entry(#[trigger] annotation_line(c, a)) by {
        lemma_plain_is_token(c.annotations@[a].path@);
        lemma_plain_is_token(c.teams@[c.annotations@[a].team as int].name@);
    }
}

/// The file that generation writes reads back as the generated entries, and
/// validating the configuration against it reports no drift, only whatever
/// structural issues the configuration has. A well-formed configuration is
/// all this asks: its names, paths and patterns are plain tokens.
pub proof fn generated_file_round_trips(c: &LoadedConfig)
    requires
        c.wf(),
    ensures
        parsed(rendered(generated(c))) == Ok::<Seq<(Seq<u8>, Seq<u8>)>, nat>(generated(c)),
        all_issues(c, generated(c)) == structural_issues(c),
{
    lemma_wf_lines_writable(c);
    let g = declarations_below(c, crate::generate::longest_pattern(c, c.rules@.len() as int) + 1);
    let y = yml_lines(c, c.teams@.len() as int);
    let a = annotation_lines(c, c.annotations@.len() as int);
    lemma_below_writable(c, crate::generate::longest_pattern(c, c.rules@.len() as int) + 1);
    lemma_yml_lines_writable(c, c.teams@.len() as int);
    lemma_annotation_lines_writable(c, c.annotations@.len() as int);
    lemma_concat_writable(g, y);
    lemma_concat_writable(g + y, a);
    rendered_declarations_read_back(generated(c));
    fresh_declarations_have_no_drift(c);
}

/// The summary that a run with no errors carries.
pub open spec fn success_info(generated_entries: Option<usize>) -> Seq<Info> {
    match generated_entries {
        Some(n) => seq![Info::DeclarationsGenerated { entries: n }, Info::ValidationPassed],
        None => seq![Info::ValidationPassed],
    }
}

/// Generates the declarations (unless `skip_stage`) and validates; with
/// `skip_stage`, or when a rule names no known team so that nothing can be
/// generated, the on-disk declarations are validated as they are.
pub fn generate_and_validate(c: &LoadedConfig, files: &Vec<Vec<u8>>, skip_stage: bool) -> (r: RunResult)
    ensures
        r.io_errors@.len() == 0,
        !skip_stage && c.linked() ==> {
            &&& r.declarations_file matches Some(f) && f@ == rendered(generated(c))
            &&& r.validation_errors@ == reported_issues(c, generated(c), files@)
        },
        skip_stage || !c.linked() ==> {
            &&& r.declarations_file is None
            &&& r.validation_errors@ == reported_issues(c, decls_view(c.declarations@), files@)
        },
        r.validation_errors@.len() == 0 ==> r.info_messages@ == success_info(
            if r.declarations_file is Some { Some(generated(c).len() as usize) } else { None },
        ),
        r.validation_errors@.len() > 0 ==> r.info_messages@.len() == 0,
{
    let mut info: Vec<Info> = Vec::new();
    if !skip_stage && crate::validate::is_linked(c) {
        let gen = generate(c);
        let text = render(&gen);
        let issues = validate_declarations(c, &gen, files);
        if issues.len() == 0 {
            info.push(Info::DeclarationsGenerated { entries: gen.len() });
            info.push(Info::ValidationPassed);
            assert(info@ =~= success_info(Some(generated(c).len() as usize)));
        }
        RunResult { info_messages: info, validation_errors: issues, io_errors: Vec::new(), declarations_file: Some(text) }
    } else {
        let issues = validate_declarations(c, &c.declarations, files);
        if issues.len() == 0 {
            info.push(Info::ValidationPassed);
            assert(info@ =~= success_info(None));
        }
        RunResult { info_messages: info, validation_errors: issues, io_errors: Vec::new(), declarations_file: None }
    }
}

/// Runs the validator alone, against the on-disk declarations.
pub fn validate(c: &LoadedConfig, files: &Vec<Vec<u8>>) -> (r: RunResult)
    ensures
        r.io_errors@.len() == 0,
        r.declarations_file is None,
        r.validation_errors@ == reported_issues(c, decls_view(c.declarations@), files@),
        r.validation_errors@.len() == 0 ==> r.info_messages@ == success_info(None),
        r.validation_errors@.len() > 0 ==> r.info_messages@.len() == 0,
{
    generate_and_validate(c, files, true)
}

/// What a team owns: its report line, its globs and its annotated paths.
pub open spec fn team_report(c: &LoadedConfig, t: usize) -> Seq<Info> {
    seq![Info::TeamReport { team: t }] + owned_globs(c, t, c.rules@.len() as int) + owned_paths(
        c,
        t,
        c.annotations@.len() as int,
    )
}

pub open spec fn owned_globs(c: &LoadedConfig, t: usize, n: int) -> Seq<Info>
    decreases n,
{
    if n <= 0 {
        seq![]
    } else if c.rules@[n - 1].team == t {
        owned_globs(c, t, n - 1).push(Info::OwnedGlob { rule: (n - 1) as usize })
    } else {
        owned_globs(c, t, n - 1)
    }
}

pub open spec fn owned_paths(c: &LoadedConfig, t: usize, n: int) -> Seq<Info>
    decreases n,
{
    if n <= 0 {
        seq![]
    } else if c.annotations@[n - 1].team == t {
        owned_paths(c, t, n - 1).push(Info::OwnedPath { annotation: (n - 1) as usize })
    } else {
        owned_paths(c, t, n - 1)
    }
}

/// Reports what the team called `team_name` owns; an unknown name is a
/// validation error.
pub fn for_team(c: &LoadedConfig, team_name: &Vec<u8>) -> (r: RunResult)
    ensures
        r.io_errors@.len() == 0,
        r.declarations_file is None,
        team_of_name(c, team_name@) matches Some(t) ==> r.info_messages@ == team_report(c, t)
            && r.validation_errors@.len() == 0,
        team_of_name(c, team_name@) is None ==> r.info_messages@.len() == 0 && r.validation_errors@
            == seq![Issue::TeamNotFound],
{
    let mut info: Vec<Info> = Vec::new();
    let mut errors: Vec<Issue> = Vec::new();
    match find_team(c, team_name) {
        None => {
            errors.push(Issue::TeamNotFound);
            assert(errors@ =~= seq![Issue::TeamNotFound]);
        },
        Some(t) => {
            info.push(Info::TeamReport { team: t });
            let mut i: usize = 0;
            while i < c.rules.len()
                invariant
                    i <= c.rules@.len(),
                    info@ == seq![Info::TeamReport { team: t }] + owned_globs(c, t, i as int),
                decreases c.rules@.len() - i,
            {
                if c.rules[i].team == t {
                    info.push(Info::OwnedGlob { rule: i });
                }
                assert(info@ =~= seq![Info::TeamReport { team: t }] + owned_globs(c, t, i + 1));
                i = i + 1;
            }
            let ghost mid = info@;
            let mut a: usize = 0;
            while a < c.annotations.len()
                invariant
                    a <= c.annotations@.len(),
                    mid == seq![Info::TeamReport { team: t }] + owned_globs(c, t, c.rules@.len() as int),
                    info@ == mid + owned_paths(c, t, a as int),
                decreases c.annotations@.len() - a,
            {
                if c.annotations[a].team == t {
                    info.push(Info::OwnedPath { annotation: a });
                }
                assert(info@ =~= mid + owned_paths(c, t, a + 1));
                a = a + 1;
            }
            assert(info@ =~= team_report(c, t));
        },
    }
    RunResult { info_messages: info, validation_errors: errors, io_errors: Vec::new(), declarations_file: None }
}

/// `t` describes team `team` owning a file through the sources `reasons`.
pub open spec fn describes(c: &LoadedConfig, t: &Team, team: usize, reasons: Seq<OwnershipSource>) -> bool {
    &&& t.team_name@ == c.teams@[team as int].name@
    &&& t.team_config_yml@ == c.teams@[team as int].config_file_path@
    &&& t.reasons@ == reasons
}

/// The owner of one file, or `None` when the file is unowned.
pub fn for_file(c: &LoadedConfig, path: &Vec<u8>) -> (r: Option<Team>)
    requires
        c.wf(),
    ensures
        r is None <==> owning_team(c, path@) is None,
        r matches Some(t) ==> owning_team(c, path@) matches Some(team) && describes(c, &t, team, all_evidence(c, path@)),
{
    let resolved = resolve(c, path);
    let nteams = c.teams.len();
    proof {
        if let Some(OwnershipSource::CodeownersFileEntry { declaration }) = resolved.winner {
            lemma_team_named_none(c, c.declarations@[declaration as int].owner@, nteams as int);
        }
    }
    team_of(c, resolved.team, resolved.evidence)
}

fn team_of(c: &LoadedConfig, team: Option<usize>, evidence: Vec<OwnershipSource>) -> (r: Option<Team>)
    requires
        c.wf(),
        team matches Some(t) ==> t < c.teams@.len(),
    ensures
        r is None <==> team is None,
        r matches Some(t) ==> team matches Some(x) && describes(c, &t, x, evidence@),
{
    match team {
        None => None,
        Some(t) => Some(Team {
            team_name: copy_bytes(&c.teams[t].name),
            team_config_yml: copy_bytes(&c.teams[t].config_file_path),
            reasons: evidence,
        }),
    }
}

fn copy_evidence(v: &Vec<OwnershipSource>) -> (r: Vec<OwnershipSource>)
    ensures
        r@ == v@,
{
    let mut r: Vec<OwnershipSource> = Vec::new();
    let mut i: usize = 0;
    while i < v.len()
        invariant
            i <= v@.len(),
            r@ == v@.subrange(0, i as int),
        decreases v@.len() - i,
    {
        r.push(v[i]);
        i = i + 1;
    }
    assert(v@.subrange(0, v@.len() as int) =~= v@);
    r
}

/// The paths of the entries, in order.
pub open spec fn file_paths(r: Seq<FileTeam>) -> Seq<Seq<u8>> {
    r.map_values(|e: FileTeam| e.path@)
}

/// `r` gives, for each distinct path of `paths` once, its owning team.
pub open spec fn is_teams_for_files(c: &LoadedConfig, paths: Seq<Vec<u8>>, r: Seq<FileTeam>) -> bool {
    &&& keys_cover(paths, file_paths(r))
    &&& forall|i: int| #![trigger r[i]] 0 <= i < r.len() ==> {
        &&& (r[i].team is None <==> owning_team(c, r[i].path@) is None)
        &&& (r[i].team matches Some(t) ==> owning_team(c, r[i].path@) matches Some(team) && describes(
            c,
            &t,
            team,
            all_evidence(c, r[i].path@),
        ))
    }
}

/// Resolves many files at once: one entry per distinct path.
pub fn teams_for_files(c: &LoadedConfig, paths: &Vec<Vec<u8>>) -> (r: Vec<FileTeam>)
    requires
        c.wf(),
    ensures
        is_teams_for_files(c, paths@, r@),
{
    let resolved = resolve_many(c, paths);
    let nteams = c.teams.len();
    let mut r: Vec<FileTeam> = Vec::new();
    let mut i: usize = 0;
    while i < resolved.len()
        invariant
            c.wf(),
            nteams == c.teams@.len(),
            is_bulk_resolution(c, paths@, resolved@),
            i <= resolved@.len(),
            r@.len() == i,
            forall|m: int| #![trigger r@[m]] 0 <= m < i ==> r@[m].path@ == resolved@[m].path@,
            forall|m: int| #![trigger r@[m]] 0 <= m < i ==> {
                &&& (r@[m].team is None <==> owning_team(c, r@[m].path@) is None)
                &&& (r@[m].team matches Some(t) ==> owning_team(c, r@[m].path@) matches Some(team) && describes(
                    c,
                    &t,
                    team,
                    all_evidence(c, r@[m].path@),
                ))
            },
        decreases resolved@.len() - i,
    {
        let e = &resolved[i];
        proof {
            assert(is_resolution(c, e.path@, &e.ownership));
            if let Some(OwnershipSource::CodeownersFileEntry { declaration }) = e.ownership.winner {
                lemma_team_named_none(c, c.declarations@[declaration as int].owner@, nteams as int);
            }
        }
        let team = team_of(c, e.ownership.team, copy_evidence(&e.ownership.evidence));
        r.push(FileTeam { path: copy_bytes(&e.path), team });
        i = i + 1;
    }
    assert(file_paths(r@) =~= entry_paths(resolved@));
    r
}

} // verus!
