use vstd::prelude::*;
use crate::bytes::copy_bytes;
use crate::declfile::{ParseError, parse_declarations, parsed};
use crate::generate::decls_view;
use crate::model::{Annotation, ConfigError, Declaration, LoadedConfig, OwnershipRule, TeamDef, plain_text, valid_pattern};
use crate::resolve::{find_team, lemma_team_named_none, lemma_team_named_reads_teams, team_of_name};
use crate::teamfile::{TeamFileError, first_malformed_line, read_team_file, scan_team_file, team_file_readable};

verus! {

/// A team file as read from disk: where it is and what it holds.
pub struct TeamSource {
    pub path: Vec<u8>,
    pub text: Vec<u8>,
}

/// An annotation as found in the tree: a path and the name of its team.
pub struct AnnotationSource {
    pub path: Vec<u8>,
    pub team_name: Vec<u8>,
}

/// Why loading failed.
pub enum LoadError {
    TeamFile { file: usize, error: TeamFileError },
    UnknownAnnotationTeam { annotation: usize },
    Declarations(ParseError),
    Config(ConfigError),
}

pub open spec fn scanned_name(f: TeamSource) -> Seq<u8> {
    scan_team_file(f.text@).name->Some_0
}

/// The rules of the first `n` team files, file by file, each glob in order.
pub open spec fn rules_of_files(files: Seq<TeamSource>, n: int) -> Seq<(Seq<u8>, usize)>
    decreases n,
{
    if n <= 0 {
        seq![]
    } else {
        rules_of_files(files, n - 1) + scan_team_file(files[n - 1].text@).globs.map_values(
            |g: Seq<u8>| (g, (n - 1) as usize),
        )
    }
}

pub open spec fn rule_views(rules: Seq<OwnershipRule>) -> Seq<(Seq<u8>, usize)> {
    rules.map_values(|r: OwnershipRule| (r.pattern@, r.team))
}

/// `c` is the configuration that the team files, annotations and
/// declarations text describe.
pub open spec fn loaded_from(
    c: &LoadedConfig,
    files: Seq<TeamSource>,
    anns: Seq<AnnotationSource>,
    decls: Option<Seq<u8>>,
) -> bool {
    &&& c.teams@.len() == files.len()
    &&& forall|i: int| #![trigger c.teams@[i]] 0 <= i < files.len() ==> scan_team_file(files[i].text@).name == Some(c.teams@[i].name@)
        && c.teams@[i].config_file_path@ == files[i].path@ && c.teams@[i].exempt == scan_team_file(files[i].text@).exempt
    &&& rule_views(c.rules@) == rules_of_files(files, files.len() as int)
    &&& c.annotations@.len() == anns.len()
    &&& forall|a: int| #![trigger c.annotations@[a]] 0 <= a < anns.len() ==> c.annotations@[a].path@ == anns[a].path@
        && team_of_name(c, anns[a].team_name@) == Some(c.annotations@[a].team)
    &&& match decls {
        Some(t) => parsed(t) == Ok::<Seq<(Seq<u8>, Seq<u8>)>, nat>(decls_view(c.declarations@)),
        None => c.declarations@.len() == 0,
    }
}

/// `e` is the error that reading the team file `t` reports.
pub open spec fn team_file_error(t: Seq<u8>, e: TeamFileError) -> bool {
    match e {
        TeamFileError::Malformed { line } => first_malformed_line(t) == Some(line as nat),
        TeamFileError::MissingName => first_malformed_line(t) is None && scan_team_file(t).name is None,
    }
}

/// Every team file reads without error.
pub open spec fn all_named(files: Seq<TeamSource>) -> bool {
    forall|i: int| 0 <= i < files.len() ==> team_file_readable(#[trigger] files[i].text@)
}

/// The declarations text, if there is one, reads without error.
pub open spec fn declarations_read(decls: Option<Seq<u8>>) -> bool {
    match decls {
        Some(t) => parsed(t) is Ok,
        None => true,
    }
}

/// Some team file gives the name `name`.
pub open spec fn name_known(files: Seq<TeamSource>, name: Seq<u8>) -> bool {
    exists|i: int| 0 <= i < files.len() && scan_team_file((#[trigger] files[i]).text@).name == Some(name)
}

pub open spec fn annotations_known(files: Seq<TeamSource>, anns: Seq<AnnotationSource>) -> bool {
    forall|a: int| 0 <= a < anns.len() ==> name_known(files, (#[trigger] anns[a]).team_name@)
}

/// No two team files give the same name.
pub open spec fn names_unique(files: Seq<TeamSource>) -> bool {
    forall|i: int, j: int|
        0 <= i < j < files.len() ==> scanned_name(#[trigger] files[i]) != scanned_name(#[trigger] files[j])
}

/// Every team name, team file path and annotation path is a plain token,
/// and no annotation path starts with `#`.
pub open spec fn tokens_plain(files: Seq<TeamSource>, anns: Seq<AnnotationSource>) -> bool {
    &&& forall|i: int| 0 <= i < files.len() ==> plain_text(scanned_name(#[trigger] files[i]))
    &&& forall|i: int| 0 <= i < files.len() ==> plain_text((#[trigger] files[i]).path@)
    &&& forall|a: int| 0 <= a < anns.len() ==> plain_text((#[trigger] anns[a]).path@) && anns[a].path@[0] != 35
}

/// Every owned glob of every team file is a well-formed pattern.
pub open spec fn globs_valid(files: Seq<TeamSource>) -> bool {
    forall|i: int, k: int|
        0 <= i < files.len() && 0 <= k < scan_team_file(files[i].text@).globs.len() ==> valid_pattern(
            #[trigger] scan_team_file(files[i].text@).globs[k],
        )
}

proof fn lemma_rules_of_files(files: Seq<TeamSource>, n: int)
    requires
        0 <= n <= files.len(),
        n <= usize::MAX,
    ensures
        forall|x: int| 0 <= x < rules_of_files(files, n).len() ==> (#[trigger] rules_of_files(files, n)[x]).1 < n,
        (forall|x: int| 0 <= x < rules_of_files(files, n).len() ==> valid_pattern((#[trigger] rules_of_files(files, n)[x]).0))
            <==> (forall|i: int, k: int|
            0 <= i < n && 0 <= k < scan_team_file(files[i].text@).globs.len() ==> valid_pattern(
                #[trigger] scan_team_file(files[i].text@).globs[k],
            )),
    decreases n,
{
    if n > 0 {
        lemma_rules_of_files(files, n - 1);
        let a = rules_of_files(files, n - 1);
        let gs = scan_team_file(files[n - 1].text@).globs;
        let b = gs.map_values(|g: Seq<u8>| (g, (n - 1) as usize));
        let r = rules_of_files(files, n);
        assert(r == a + b);
        assert forall|x: int| 0 <= x < r.len() implies (#[trigger] r[x]).1 < n by {
            if x >= a.len() {
                assert(r[x] == b[x - a.len()]);
            } else {
                assert(r[x] == a[x]);
            }
        }
        if forall|x: int| 0 <= x < r.len() ==> valid_pattern((#[trigger] r[x]).0) {
            assert forall|i: int, k: int|
                0 <= i < n && 0 <= k < scan_team_file(files[i].text@).globs.len() implies valid_pattern(
                #[trigger] scan_team_file(files[i].text@).globs[k],
            ) by {
                if i == n - 1 {
                    assert(r[a.len() + k] == b[k]);
                } else {
                    assert forall|x: int| 0 <= x < a.len() implies valid_pattern((#[trigger] a[x]).0) by {
                        assert(r[x] == a[x]);
                    }
                }
            }
        }
        if forall|i: int, k: int|
            0 <= i < n && 0 <= k < scan_team_file(files[i].text@).globs.len() ==> valid_pattern(
                #[trigger] scan_team_file(files[i].text@).globs[k],
            ) {
            assert forall|x: int| 0 <= x < r.len() implies valid_pattern((#[trigger] r[x]).0) by {
                if x >= a.len() {
                    assert(r[x] == b[x - a.len()]);
                    assert(b[x - a.len()].0 == gs[x - a.len()]);
                } else {
                    assert(r[x] == a[x]);
                }
            }
        }
    }
}

fn team_and_rules(files: &Vec<TeamSource>) -> (r: Result<(Vec<TeamDef>, Vec<OwnershipRule>), (usize, TeamFileError)>)
    ensures
        r matches Err((f, e)) ==> f < files@.len() && team_file_error(files@[f as int].text@, e),
        r is Ok <==> all_named(files@),
        r matches Ok((teams, rules)) ==> {
            &&& teams@.len() == files@.len()
            &&& forall|i: int| #![trigger teams@[i]] 0 <= i < files@.len() ==> scan_team_file(files@[i].text@).name == Some(teams@[i].name@)
                && teams@[i].config_file_path@ == files@[i].path@ && teams@[i].exempt == scan_team_file(files@[i].text@).exempt
            &&& rule_views(rules@) == rules_of_files(files@, files@.len() as int)
        },
{
    let mut teams: Vec<TeamDef> = Vec::new();
    let mut rules: Vec<OwnershipRule> = Vec::new();
    let mut i: usize = 0;
    while i < files.len()
        invariant
            i <= files@.len(),
            teams@.len() == i,
            forall|k: int| 0 <= k < i ==> team_file_readable(#[trigger] files@[k].text@),
            forall|k: int| #![trigger teams@[k]] 0 <= k < i ==> scan_team_file(files@[k].text@).name == Some(teams@[k].name@)
                && teams@[k].config_file_path@ == files@[k].path@ && teams@[k].exempt == scan_team_file(files@[k].text@).exempt,
            rule_views(rules@) == rules_of_files(files@, i as int),
        decreases files@.len() - i,
    {
        match read_team_file(&files[i].text) {
            Err(e) => {
                return Err((i, e));
            },
            Ok((name, globs, exempt)) => {
                teams.push(TeamDef { name, config_file_path: copy_bytes(&files[i].path), exempt });
                let ghost start = rule_views(rules@);
                let ghost gs = scan_team_file(files@[i as int].text@).globs;
                let mut k: usize = 0;
                while k < globs.len()
                    invariant
                        k <= globs@.len(),
                        gs == globs@.map_values(|g: Vec<u8>| g@),
                        rule_views(rules@) == start + gs.subrange(0, k as int).map_values(|g: Seq<u8>| (g, i)),
                    decreases globs@.len() - k,
                {
                    let ghost before = rules@;
                    rules.push(OwnershipRule { pattern: copy_bytes(&globs[k]), team: i });
                    assert(gs.subrange(0, k + 1).map_values(|g: Seq<u8>| (g, i)) =~= gs.subrange(0, k as int).map_values(
                        |g: Seq<u8>| (g, i),
                    ).push((gs[k as int], i)));
                    assert(rule_views(rules@) =~= rule_views(before).push((globs@[k as int]@, i)));
                    k = k + 1;
                }
                assert(gs.subrange(0, gs.len() as int) =~= gs);
                assert(rule_views(rules@) =~= rules_of_files(files@, i + 1));
            },
        }
        i = i + 1;
    }
    Ok((teams, rules))
}

pub open spec fn decls_view_opt(decls: Option<&Vec<u8>>) -> Option<Seq<u8>> {
    match decls {
        Some(t) => Some(t@),
        None => None,
    }
}

/// Assembles the configuration: reads every team file and the declarations
/// text (absent for a fresh project), links annotations to teams by name and
/// checks the result. No partial configuration comes back on error.
pub fn load_config(
    files: &Vec<TeamSource>,
    anns: &Vec<AnnotationSource>,
    decls: Option<&Vec<u8>>,
) -> (r: Result<LoadedConfig, LoadError>)
    ensures
        r matches Ok(c) ==> c.wf() && loaded_from(&c, files@, anns@, decls_view_opt(decls)),
        r matches Err(LoadError::TeamFile { file, error }) ==> file < files@.len() && team_file_error(
            files@[file as int].text@,
            error,
        ),
        r matches Err(LoadError::Declarations(e)) ==> decls matches Some(t)
            && parsed(t@) == Err::<Seq<(Seq<u8>, Seq<u8>)>, nat>(e.line as nat),
        r matches Err(LoadError::UnknownAnnotationTeam { annotation }) ==> annotation < anns@.len()
            && !name_known(files@, anns@[annotation as int].team_name@),
        (r matches Err(LoadError::TeamFile { .. })) <==> !all_named(files@),
        (r matches Err(LoadError::Declarations(_))) <==> all_named(files@) && !declarations_read(decls_view_opt(decls)),
        (r matches Err(LoadError::UnknownAnnotationTeam { .. })) <==> all_named(files@) && declarations_read(
            decls_view_opt(decls),
        ) && !annotations_known(files@, anns@),
        (r matches Err(LoadError::Config(_))) <==> all_named(files@) && declarations_read(decls_view_opt(decls))
            && annotations_known(files@, anns@) && !(names_unique(files@) && globs_valid(files@) && tokens_plain(files@, anns@)),
        r is Ok <==> all_named(files@) && declarations_read(decls_view_opt(decls)) && annotations_known(files@, anns@)
            && names_unique(files@) && globs_valid(files@) && tokens_plain(files@, anns@),
{
    let (teams, rules) = match team_and_rules(files) {
        Err((f, e)) => {
            return Err(LoadError::TeamFile { file: f, error: e });
        },
        Ok(x) => x,
    };
    let declarations: Vec<Declaration> = match decls {
        None => Vec::new(),
        Some(t) => match parse_declarations(t) {
            Ok(d) => d,
            Err(e) => {
                return Err(LoadError::Declarations(e));
            },
        },
    };
    let mut c = LoadedConfig { teams, rules, annotations: Vec::new(), declarations };
    let nteams = c.teams.len();
    let mut a: usize = 0;
    while a < anns.len()
        invariant
            a <= anns@.len(),
            c.annotations@.len() == a,
            forall|k: int| #![trigger c.annotations@[k]] 0 <= k < a ==> c.annotations@[k].path@ == anns@[k].path@
                && team_of_name(&c, anns@[k].team_name@) == Some(c.annotations@[k].team),
            all_named(files@),
            forall|k: int| 0 <= k < a ==> name_known(files@, (#[trigger] anns@[k]).team_name@),
            forall|k: int| 0 <= k < a ==> (#[trigger] c.annotations@[k]).team < c.teams@.len(),
            declarations_read(decls_view_opt(decls)),
            nteams == c.teams@.len(),
            c.teams@.len() == files@.len(),
            forall|i: int| #![trigger c.teams@[i]] 0 <= i < files@.len() ==> scan_team_file(files@[i].text@).name == Some(c.teams@[i].name@)
                && c.teams@[i].config_file_path@ == files@[i].path@ && c.teams@[i].exempt == scan_team_file(files@[i].text@).exempt,
            rule_views(c.rules@) == rules_of_files(files@, files@.len() as int),
            match decls {
                Some(t) => parsed(t@) == Ok::<Seq<(Seq<u8>, Seq<u8>)>, nat>(decls_view(c.declarations@)),
                None => c.declarations@.len() == 0,
            },
        decreases anns@.len() - a,
    {
        let found = find_team(&c, &anns[a].team_name);
        proof {
            lemma_team_named_none(&c, anns@[a as int].team_name@, nteams as int);
        }
        match found {
            None => {
                proof {
                    assert forall|i: int| 0 <= i < files@.len() implies scan_team_file((#[trigger] files@[i]).text@).name
                        != Some(anns@[a as int].team_name@) by {
                        assert(c.teams@[i].name@ != anns@[a as int].team_name@);
                    }
                }
                return Err(LoadError::UnknownAnnotationTeam { annotation: a });
            },
            Some(t) => {
                let ghost before = c;
                c.annotations.push(Annotation { path: copy_bytes(&anns[a].path), team: t });
                assert forall|k: int| #![trigger c.annotations@[k]] 0 <= k <= a implies c.annotations@[k].path@ == anns@[k].path@
                    && team_of_name(&c, anns@[k].team_name@) == Some(c.annotations@[k].team) by {
                    lemma_team_named_reads_teams(&c, &before, anns@[k].team_name@, c.teams@.len() as int);
                    if k < a {
                        assert(c.annotations@[k] == before.annotations@[k]);
                    }
                }
                assert(name_known(files@, anns@[a as int].team_name@)) by {
                    assert(scan_team_file(files@[t as int].text@).name == Some(anns@[a as int].team_name@));
                }
            },
        }
        a = a + 1;
    }
    proof {
        lemma_rules_of_files(files@, files@.len() as int);
        let rv = rule_views(c.rules@);
        assert forall|r: int| 0 <= r < c.rules@.len() implies #[trigger] c.rules@[r].team < c.teams@.len() by {
            assert(rv[r] == rules_of_files(files@, files@.len() as int)[r]);
        }
        assert(c.patterns_valid() <==> globs_valid(files@)) by {
            if c.patterns_valid() {
                assert forall|x: int| 0 <= x < rv.len() implies valid_pattern((#[trigger] rules_of_files(files@, files@.len() as int)[x]).0) by {
                    assert(rv[x] == rules_of_files(files@, files@.len() as int)[x]);
                    assert(valid_pattern(c.rules@[x].pattern@));
                }
            }
            if globs_valid(files@) {
                assert forall|r: int| 0 <= r < c.rules@.len() implies valid_pattern(#[trigger] c.rules@[r].pattern@) by {
                    assert(rv[r] == rules_of_files(files@, files@.len() as int)[r]);
                }
            }
        }
        assert(c.tokens_plain() <==> tokens_plain(files@, anns@)) by {
            if c.tokens_plain() {
                assert forall|i: int| 0 <= i < files@.len() implies plain_text(scanned_name(#[trigger] files@[i])) by {
                    assert(plain_text(c.teams@[i].name@));
                }
                assert forall|i: int| 0 <= i < files@.len() implies plain_text((#[trigger] files@[i]).path@) by {
                    assert(plain_text(c.teams@[i].config_file_path@));
                }
                assert forall|k: int| 0 <= k < anns@.len() implies plain_text((#[trigger] anns@[k]).path@)
                    && anns@[k].path@[0] != 35 by {
                    assert(plain_text(c.annotations@[k].path@));
                }
            }
            if tokens_plain(files@, anns@) {
                assert forall|t: int| 0 <= t < c.teams@.len() implies plain_text(#[trigger] c.teams@[t].name@) by {
                    assert(plain_text(scanned_name(files@[t])));
                }
                assert forall|t: int| 0 <= t < c.teams@.len() implies plain_text(#[trigger] c.teams@[t].config_file_path@) by {
                    assert(plain_text(files@[t].path@));
                }
                assert forall|k: int| 0 <= k < c.annotations@.len() implies plain_text(#[trigger] c.annotations@[k].path@)
                    && c.annotations@[k].path@[0] != 35 by {
                    assert(plain_text(anns@[k].path@));
                }
            }
        }
        assert(c.team_names_unique() <==> names_unique(files@)) by {
            if c.team_names_unique() {
                assert forall|i: int, j: int| 0 <= i < j < files@.len() implies scanned_name(#[trigger] files@[i])
                    != scanned_name(#[trigger] files@[j]) by {
                    assert(c.teams@[i].name@ != c.teams@[j].name@);
                }
            }
            if names_unique(files@) {
                assert forall|i: int, j: int| 0 <= i < j < c.teams@.len() implies #[trigger] c.teams@[i].name@
                    != #[trigger] c.teams@[j].name@ by {
                    assert(scanned_name(files@[i]) != scanned_name(files@[j]));
                }
            }
        }
    }
    match c.check() {
        Err(e) => Err(LoadError::Config(e)),
        Ok(()) => Ok(c),
    }
}

} // verus!
