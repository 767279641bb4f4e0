use code_ownership::bulk::resolve_many;
use code_ownership::declfile::parse_declarations;
use code_ownership::generate::{generate, render};
use code_ownership::model::{Annotation, ConfigError, Declaration, LoadedConfig, OwnershipRule, TeamDef};
use code_ownership::pattern::glob_matches;
use code_ownership::resolve::{resolve, OwnershipSource};
use code_ownership::run::{
    for_file, for_team, generate_and_validate, outcome, teams_for_files, validate, version, Info, Outcome,
};
use code_ownership::validate::{validate_declarations, Issue};

fn b(s: &str) -> Vec<u8> {
    s.as_bytes().to_vec()
}

fn team(name: &str) -> TeamDef {
    TeamDef { name: b(name), config_file_path: b(&format!("config/teams/{}.yml", name.to_lowercase())), exempt: false }
}

fn rule(pattern: &str, team: usize) -> OwnershipRule {
    OwnershipRule { pattern: b(pattern), team }
}

fn decl(pattern: &str, owner: &str) -> Declaration {
    Declaration { pattern: b(pattern), owner: b(owner) }
}

fn config(teams: Vec<TeamDef>, rules: Vec<OwnershipRule>) -> LoadedConfig {
    LoadedConfig { teams, rules, annotations: vec![], declarations: vec![] }
}

fn matches(p: &str, path: &str) -> bool {
    glob_matches(&b(p), &b(path))
}

#[test]
fn glob_single_star_stays_in_one_directory() {
    assert!(matches("/app/*.rb", "app/x.rb"));
    assert!(!matches("/app/*.rb", "app/models/x.rb"));
}

#[test]
fn glob_double_star_crosses_directories() {
    assert!(matches("payments/**", "payments/a/b/c.rb"));
    assert!(matches("/app/**/*.rb", "app/models/deep/x.rb"));
    assert!(!matches("payments/**", "other/payments.rb"));
}

#[test]
fn unanchored_pattern_matches_at_any_depth() {
    assert!(matches("*.rb", "lib/deep/x.rb"));
    assert!(!matches("*.rb", "lib/deep/x.rs"));
    assert!(matches("README.md", "docs/README.md"));
}

#[test]
fn directory_pattern_covers_descendants_only() {
    assert!(matches("/app/", "app/models/x.rb"));
    assert!(matches("/app/", "/app/x.rb"));
    assert!(!matches("/app/", "app"));
    assert!(!matches("/app/", "apps/x.rb"));
    assert!(matches("/app", "app/x.rb"));
}

#[test]
fn matching_is_case_sensitive() {
    assert!(!matches("/App/", "app/x.rb"));
}

#[test]
fn more_specific_glob_wins() {
    let c = config(vec![team("A"), team("B")], vec![rule("/app/", 0), rule("/app/billing/", 1)]);
    let r = resolve(&c, &b("/app/billing/x.rb"));
    assert_eq!(r.team, Some(1));
    assert_eq!(r.winner, Some(OwnershipSource::TeamConfigGlob { rule: 1 }));
    assert_eq!(
        r.evidence,
        vec![OwnershipSource::TeamConfigGlob { rule: 0 }, OwnershipSource::TeamConfigGlob { rule: 1 }]
    );
    let c2 = config(vec![team("A"), team("B")], vec![rule("/app/billing/", 1), rule("/app/", 0)]);
    assert_eq!(resolve(&c2, &b("/app/billing/x.rb")).team, Some(1));
    assert_eq!(resolve(&c2, &b("/app/other.rb")).team, Some(0));
}

#[test]
fn equal_length_globs_favour_the_later_rule() {
    let c = config(vec![team("A"), team("B")], vec![rule("/lib/", 0), rule("**.rb", 1)]);
    let r = resolve(&c, &b("lib/x.rb"));
    assert_eq!(r.team, Some(1));
}

#[test]
fn unmatched_path_is_unowned() {
    let c = config(vec![team("A")], vec![rule("/app/", 0)]);
    let r = resolve(&c, &b("/unmatched/path.rb"));
    assert_eq!(r.team, None);
    assert_eq!(r.winner, None);
    assert!(r.evidence.is_empty());
    assert!(for_file(&c, &b("/unmatched/path.rb")).is_none());
}

#[test]
fn resolution_is_repeatable() {
    let c = config(vec![team("A"), team("B")], vec![rule("/app/", 0), rule("*.rb", 1)]);
    let r1 = resolve(&c, &b("app/x.rb"));
    let r2 = resolve(&c, &b("app/x.rb"));
    assert_eq!(r1.team, r2.team);
    assert_eq!(r1.winner, r2.winner);
    assert_eq!(r1.evidence, r2.evidence);
}

#[test]
fn annotation_beats_team_file_and_globs() {
    let mut c = config(vec![team("A"), team("B")], vec![rule("/packs/", 0)]);
    c.annotations.push(Annotation { path: b("/packs/pay/"), team: 1 });
    let r = resolve(&c, &b("packs/pay/x.rb"));
    assert_eq!(r.team, Some(1));
    assert_eq!(r.winner, Some(OwnershipSource::PackageAnnotation { annotation: 0 }));
    assert_eq!(resolve(&c, &b("packs/other/x.rb")).team, Some(0));
}

#[test]
fn team_file_belongs_to_its_team() {
    let c = config(vec![team("A"), team("B")], vec![rule("/config/", 0)]);
    let r = resolve(&c, &b("config/teams/b.yml"));
    assert_eq!(r.team, Some(1));
    assert_eq!(r.winner, Some(OwnershipSource::TeamYmlDefault { team: 1 }));
}

#[test]
fn declarations_file_is_the_fallback_last_match_wins() {
    let mut c = config(vec![team("A"), team("B")], vec![rule("/app/", 0)]);
    c.declarations = vec![decl("/lib/", "A"), decl("*.rs", "B"), decl("*.md", "Nobody")];
    let r = resolve(&c, &b("lib/x.rs"));
    assert_eq!(r.team, Some(1));
    assert_eq!(r.winner, Some(OwnershipSource::CodeownersFileEntry { declaration: 1 }));
    assert_eq!(resolve(&c, &b("app/x.rs")).team, Some(0));
    assert_eq!(resolve(&c, &b("docs/x.md")).team, None);
}

#[test]
fn bulk_resolution_collapses_duplicates() {
    let c = config(vec![team("A")], vec![rule("/app/", 0)]);
    let paths = vec![b("app/a.rb"), b("lib/b.rb"), b("app/a.rb")];
    let r = resolve_many(&c, &paths);
    assert_eq!(r.len(), 2);
    assert_eq!(r[0].path, b("app/a.rb"));
    assert_eq!(r[0].ownership.team, Some(0));
    assert_eq!(r[1].path, b("lib/b.rb"));
    assert_eq!(r[1].ownership.team, None);
}

#[test]
fn teams_for_files_names_each_team() {
    let c = config(vec![team("A")], vec![rule("/app/", 0)]);
    let r = teams_for_files(&c, &vec![b("app/a.rb"), b("lib/b.rb"), b("lib/b.rb")]);
    assert_eq!(r.len(), 2);
    let t = r[0].team.as_ref().unwrap();
    assert_eq!(t.team_name, b("A"));
    assert_eq!(t.team_config_yml, b("config/teams/a.yml"));
    assert!(r[1].team.is_none());
}

#[test]
fn for_file_reports_team_and_reasons() {
    let c = config(vec![team("A")], vec![rule("/app/", 0), rule("*.rb", 0)]);
    let t = for_file(&c, &b("app/x.rb")).unwrap();
    assert_eq!(t.team_name, b("A"));
    assert_eq!(t.reasons.len(), 2);
}

#[test]
fn generation_orders_by_specificity() {
    let c = config(vec![team("A"), team("B")], vec![rule("/app/billing/", 1), rule("/app/", 0)]);
    let d = generate(&c);
    assert_eq!(d.len(), 4);
    assert_eq!(d[0].pattern, b("/app/"));
    assert_eq!(d[0].owner, b("A"));
    assert_eq!(d[1].pattern, b("/app/billing/"));
    assert_eq!(render(&d), b("/app/ @A\n/app/billing/ @B\n/config/teams/a.yml @A\n/config/teams/b.yml @B\n"));
}

#[test]
fn generation_is_idempotent_on_values() {
    let c = config(vec![team("A"), team("B")], vec![rule("b/**", 1), rule("/a/", 0), rule("*.md", 1)]);
    assert_eq!(render(&generate(&c)), render(&generate(&c)));
}

#[test]
fn fresh_generation_has_no_drift() {
    let mut c = config(vec![team("A"), team("B")], vec![rule("b/**", 1), rule("/a/", 0)]);
    c.declarations = vec![decl("old/**", "A")];
    let r = generate_and_validate(&c, &vec![], false);
    assert!(r.validation_errors.is_empty());
    assert!(r.io_errors.is_empty());
    assert_eq!(r.info_messages, vec![Info::DeclarationsGenerated { entries: 4 }, Info::ValidationPassed]);
}

#[test]
fn payments_scenario_generates_declaration() {
    let c = config(vec![team("Payments")], vec![rule("payments/**", 0)]);
    let r = generate_and_validate(&c, &vec![], false);
    let text = String::from_utf8(r.declarations_file.unwrap()).unwrap();
    assert!(text.lines().any(|l| l == "payments/** @Payments"));
    assert_eq!(text, "payments/** @Payments\n/config/teams/payments.yml @Payments\n");
    assert!(r.validation_errors.is_empty());
}

#[test]
fn stale_line_is_one_validation_error() {
    let mut c = config(vec![team("A")], vec![rule("/app/", 0)]);
    c.declarations = parse_declarations(&render(&generate(&c))).ok().unwrap();
    c.declarations.extend(parse_declarations(&b("legacy/** @OldTeam\n")).ok().unwrap());
    let r = validate(&c, &vec![]);
    assert_eq!(r.validation_errors, vec![Issue::StaleDeclaration { declaration: 2 }]);
    assert_eq!(c.declarations[2].pattern, b("legacy/**"));
    assert!(r.info_messages.is_empty());
}

#[test]
fn skip_stage_validates_the_file_on_disk() {
    let mut c = config(vec![team("A")], vec![rule("/app/", 0)]);
    c.declarations = vec![];
    let r = generate_and_validate(&c, &vec![], true);
    assert_eq!(
        r.validation_errors,
        vec![Issue::MissingDeclaration { entry: 0 }, Issue::MissingDeclaration { entry: 1 }]
    );
    assert!(r.declarations_file.is_none());
}

#[test]
fn scoped_validation_reports_touching_issues_only() {
    let mut c = config(vec![team("A")], vec![rule("/app/", 0)]);
    c.declarations = vec![decl("/app/", "A"), decl("legacy/**", "Old"), decl("/lib/", "A")];
    let r = validate(&c, &vec![b("legacy/x.rb")]);
    assert_eq!(r.validation_errors, vec![Issue::StaleDeclaration { declaration: 1 }]);
    let r2 = validate(&c, &vec![b("docs/x.md")]);
    assert!(r2.validation_errors.is_empty());
    let all = validate(&c, &vec![]);
    assert_eq!(
        all.validation_errors,
        vec![
            Issue::StaleDeclaration { declaration: 1 },
            Issue::StaleDeclaration { declaration: 2 },
            Issue::MissingDeclaration { entry: 1 },
        ]
    );
}

#[test]
fn structural_issues_accumulate() {
    let c = config(
        vec![team("A"), team("B"), team("A")],
        vec![rule("/x/", 0), rule("/x/", 1), rule("bad pattern", 0), rule("/y/", 7)],
    );
    let mut c = c;
    c.annotations.push(Annotation { path: b("/z/"), team: 9 });
    let issues = validate_declarations(&c, &vec![], &vec![]);
    assert_eq!(
        issues,
        vec![
            Issue::DuplicateTeam { team: 2 },
            Issue::TeamWithoutRules { team: 2 },
            Issue::PatternCollision { rule: 1 },
            Issue::MalformedPattern { rule: 2 },
            Issue::UnknownTeamInRule { rule: 3 },
            Issue::UnknownTeamInAnnotation { annotation: 0 },
        ]
    );
}

#[test]
fn config_check_reports_each_error() {
    let ok = config(vec![team("A")], vec![rule("/a/", 0)]);
    assert!(ok.check().is_ok());
    let dup = config(vec![team("A"), team("A")], vec![]);
    assert!(matches!(dup.check(), Err(ConfigError::DuplicateTeam { team: 1 })));
    let unknown = config(vec![team("A")], vec![rule("/a/", 3)]);
    assert!(matches!(unknown.check(), Err(ConfigError::UnknownTeamInRule { rule: 0 })));
    let mut ann = config(vec![team("A")], vec![]);
    ann.annotations.push(Annotation { path: b("/p/"), team: 1 });
    assert!(matches!(ann.check(), Err(ConfigError::UnknownTeamInAnnotation { annotation: 0 })));
    let bad = config(vec![team("A")], vec![rule("/", 0)]);
    assert!(matches!(bad.check(), Err(ConfigError::MalformedPattern { rule: 0 })));
    let empty = config(vec![team("A")], vec![rule("", 0)]);
    assert!(matches!(empty.check(), Err(ConfigError::MalformedPattern { rule: 0 })));
}

#[test]
fn for_team_lists_what_a_team_owns() {
    let mut c = config(vec![team("A"), team("B")], vec![rule("/a/", 0), rule("/b/", 1), rule("*.a", 0)]);
    c.annotations.push(Annotation { path: b("/pkg/"), team: 0 });
    let r = for_team(&c, &b("A"));
    assert_eq!(
        r.info_messages,
        vec![
            Info::TeamReport { team: 0 },
            Info::OwnedGlob { rule: 0 },
            Info::OwnedGlob { rule: 2 },
            Info::OwnedPath { annotation: 0 },
        ]
    );
    assert!(r.validation_errors.is_empty());
    let missing = for_team(&c, &b("Z"));
    assert_eq!(missing.validation_errors, vec![Issue::TeamNotFound]);
    assert!(missing.info_messages.is_empty());
}

#[test]
fn parse_reads_entries_and_skips_comments() {
    let d = parse_declarations(&b("# generated\n\n/app/ @A\n  *.rb\t@B  \r\n")).ok().unwrap();
    assert_eq!(d.len(), 2);
    assert_eq!(d[0].pattern, b("/app/"));
    assert_eq!(d[0].owner, b("A"));
    assert_eq!(d[1].pattern, b("*.rb"));
    assert_eq!(d[1].owner, b("B"));
}

#[test]
fn parse_reports_first_bad_line() {
    let e = parse_declarations(&b("/app/ @A\n/lib/ B\n/x/\n")).err().unwrap();
    assert_eq!(e.line, 2);
    let e2 = parse_declarations(&b("/a/ @A @B\n")).err().unwrap();
    assert_eq!(e2.line, 1);
    let e3 = parse_declarations(&b("/a/ @\n")).err().unwrap();
    assert_eq!(e3.line, 1);
}

#[test]
fn render_then_parse_gives_the_entries_back() {
    let c = config(vec![team("A"), team("B")], vec![rule("b/**", 1), rule("/a/", 0)]);
    let d = generate(&c);
    let back = parse_declarations(&render(&d)).ok().unwrap();
    assert_eq!(back.len(), d.len());
    for i in 0..d.len() {
        assert_eq!(back[i].pattern, d[i].pattern);
        assert_eq!(back[i].owner, d[i].owner);
    }
}

#[test]
fn generated_file_resolves_like_the_config() {
    let c = config(
        vec![team("A"), team("B"), team("C")],
        vec![rule("/app/billing/", 1), rule("/app/", 0), rule("**.rb", 2), rule("/lib/", 0)],
    );
    let mut from_file = config(vec![team("A"), team("B"), team("C")], vec![]);
    from_file.declarations = parse_declarations(&render(&generate(&c))).ok().unwrap();
    for path in ["app/billing/x.rb", "app/x.rb", "lib/x.rb", "lib/x.rs", "docs/x.md"] {
        assert_eq!(resolve(&c, &b(path)).team, resolve(&from_file, &b(path)).team, "{}", path);
    }
    assert_eq!(resolve(&c, &b("lib/x.rb")).team, Some(0));
    assert_eq!(resolve(&c, &b("app/x.rb")).team, Some(2));
    assert_eq!(resolve(&c, &b("docs/x.md")).team, None);
}

#[test]
fn reordered_or_duplicated_file_is_drift() {
    let mut c = config(vec![team("A"), team("B")], vec![rule("/a/", 0), rule("/b/", 1)]);
    let gen = parse_declarations(&render(&generate(&c))).ok().unwrap();
    c.declarations = parse_declarations(&render(&gen)).ok().unwrap();
    assert!(validate(&c, &vec![]).validation_errors.is_empty());
    c.declarations.swap(0, 1);
    assert_eq!(validate(&c, &vec![]).validation_errors, vec![Issue::DeclarationsOutOfOrder { line: 0 }]);
    c.declarations.swap(0, 1);
    c.declarations.push(decl("/b/", "B"));
    assert_eq!(validate(&c, &vec![]).validation_errors, vec![Issue::DeclarationsOutOfOrder { line: 4 }]);
}

#[test]
fn team_without_rules_is_reported() {
    let c = config(vec![team("Lonely")], vec![]);
    let r = validate(&c, &vec![]);
    assert!(r.validation_errors.contains(&Issue::TeamWithoutRules { team: 0 }));
}

#[test]
fn generated_file_gives_team_files_and_annotations() {
    let mut c = config(vec![team("A"), team("B")], vec![rule("/packs/", 0), rule("/x/", 1)]);
    c.annotations.push(Annotation { path: b("/packs/pay/"), team: 1 });
    let mut from_file = config(vec![team("A"), team("B")], vec![]);
    from_file.declarations = parse_declarations(&render(&generate(&c))).ok().unwrap();
    for path in ["packs/pay/x.rb", "packs/other.rb", "config/teams/b.yml", "x/y.rb", "none.rb"] {
        assert_eq!(resolve(&c, &b(path)).team, resolve(&from_file, &b(path)).team, "{}", path);
    }
}

#[test]
fn validation_errors_take_precedence() {
    assert_eq!(outcome(2, 1), Outcome::ValidationFailed);
    assert_eq!(outcome(0, 1), Outcome::IoFailed);
    assert_eq!(outcome(0, 0), Outcome::Succeeded);
}

#[test]
fn every_stale_line_is_reported_in_one_pass() {
    let mut c = config(vec![team("A")], vec![rule("/app/", 0)]);
    c.declarations = parse_declarations(&b("legacy/** @OldTeam\n")).ok().unwrap();
    c.declarations.extend(parse_declarations(&render(&generate(&c))).ok().unwrap());
    c.declarations.push(decl("old/**", "OldTeam"));
    let r = validate(&c, &vec![]);
    assert_eq!(
        r.validation_errors,
        vec![Issue::StaleDeclaration { declaration: 0 }, Issue::StaleDeclaration { declaration: 3 }]
    );
    assert_eq!(c.declarations[0].pattern, b("legacy/**"));
    assert_eq!(c.declarations[3].pattern, b("old/**"));
}

#[test]
fn exempt_team_may_own_nothing() {
    let mut c = config(vec![team("A"), team("Lonely")], vec![rule("/a/", 0)]);
    c.teams[1].exempt = true;
    let issues = validate_declarations(&c, &generate(&c), &vec![]);
    assert!(issues.is_empty());
}

#[test]
fn names_and_paths_must_be_plain_tokens() {
    let mut c = config(vec![team("A")], vec![rule("/a/", 0)]);
    c.teams[0].name = b("Team Two");
    assert!(matches!(c.check(), Err(ConfigError::MalformedTeamName { team: 0 })));
    let mut d = config(vec![team("A")], vec![rule("/a/", 0)]);
    d.teams[0].config_file_path = b("my teams/a.yml");
    assert!(matches!(d.check(), Err(ConfigError::MalformedConfigPath { team: 0 })));
    let mut e = config(vec![team("A")], vec![rule("/a/", 0)]);
    e.annotations.push(Annotation { path: b("#x"), team: 0 });
    assert!(matches!(e.check(), Err(ConfigError::MalformedAnnotationPath { annotation: 0 })));
    let f = config(vec![team("A")], vec![rule("#a", 0)]);
    assert!(matches!(f.check(), Err(ConfigError::MalformedPattern { rule: 0 })));
}

#[test]
fn version_is_stated() {
    assert_eq!(version(), b("0.1.0"));
}
