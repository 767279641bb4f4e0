use code_ownership::load::{load_config, AnnotationSource, LoadError, TeamSource};
use code_ownership::model::ConfigError;
use code_ownership::teamfile::{read_package_owner, read_team_file, TeamFileError};

fn b(s: &str) -> Vec<u8> {
    s.as_bytes().to_vec()
}

fn source(path: &str, text: &str) -> TeamSource {
    TeamSource { path: b(path), text: b(text) }
}

#[test]
fn team_file_gives_name_and_globs() {
    let (name, globs, exempt) = read_team_file(&b(
        "name: Payments\ngithub:\n  team: '@org/payments'\nowned_globs:\n  - payments/**\n  - app/pay/*.rb  \n# note\nother:\n  - ignored/**\n",
    ))
    .ok()
    .unwrap();
    assert_eq!(name, b("Payments"));
    assert_eq!(globs, vec![b("payments/**"), b("app/pay/*.rb")]);
    assert!(!exempt);
}

#[test]
fn team_file_without_name_is_refused() {
    assert!(matches!(read_team_file(&b("owned_globs:\n  - a/**\n")), Err(TeamFileError::MissingName)));
    assert!(matches!(read_team_file(&b("")), Err(TeamFileError::MissingName)));
}

#[test]
fn team_file_name_keeps_inner_spaces() {
    let (name, globs, _) = read_team_file(&b("name:   Team Two \r\n")).ok().unwrap();
    assert_eq!(name, b("Team Two"));
    assert!(globs.is_empty());
}

#[test]
fn load_links_rules_annotations_and_declarations() {
    let files = vec![
        source("config/teams/a.yml", "name: A\nowned_globs:\n  - /a/\n"),
        source("config/teams/b.yml", "name: B\nowned_globs:\n  - /b/\n  - *.md\n"),
    ];
    let anns = vec![AnnotationSource { path: b("/packs/x/"), team_name: b("B") }];
    let text = b("/a/ @A\n");
    let c = load_config(&files, &anns, Some(&text)).ok().unwrap();
    assert_eq!(c.teams.len(), 2);
    assert_eq!(c.teams[1].name, b("B"));
    assert_eq!(c.teams[1].config_file_path, b("config/teams/b.yml"));
    assert_eq!(c.rules.len(), 3);
    assert_eq!(c.rules[2].pattern, b("*.md"));
    assert_eq!(c.rules[2].team, 1);
    assert_eq!(c.annotations[0].team, 1);
    assert_eq!(c.declarations.len(), 1);
}

#[test]
fn load_reports_each_failure() {
    let nameless = vec![source("t.yml", "owned_globs:\n  - /a/\n")];
    assert!(matches!(
        load_config(&nameless, &vec![], None),
        Err(LoadError::TeamFile { file: 0, error: TeamFileError::MissingName })
    ));
    let broken = vec![source("a.yml", "name: A
"), source("b.yml", "name: B
owned_globs
")];
    assert!(matches!(
        load_config(&broken, &vec![], None),
        Err(LoadError::TeamFile { file: 1, error: TeamFileError::Malformed { line: 2 } })
    ));
    let one = vec![source("a.yml", "name: A\n")];
    let anns = vec![AnnotationSource { path: b("/p/"), team_name: b("Z") }];
    assert!(matches!(load_config(&one, &anns, None), Err(LoadError::UnknownAnnotationTeam { annotation: 0 })));
    let bad = b("/a/ @A\nbroken\n");
    match load_config(&one, &vec![], Some(&bad)) {
        Err(LoadError::Declarations(e)) => assert_eq!(e.line, 2),
        _ => panic!("expected a parse error"),
    }
    let dup = vec![source("a.yml", "name: A\n"), source("b.yml", "name: A\n")];
    assert!(matches!(load_config(&dup, &vec![], None), Err(LoadError::Config(ConfigError::DuplicateTeam { team: 1 }))));
}

#[test]
fn missing_declarations_file_is_a_fresh_project() {
    let files = vec![source("p.yml", "name: Payments\nowned_globs:\n  - payments/**\n")];
    let c = load_config(&files, &vec![], None).ok().unwrap();
    assert!(c.declarations.is_empty());
}

#[test]
fn team_file_malformed_line_is_located() {
    let r = read_team_file(&b("# team\nname: A\nowned globs\n  - a/**\n"));
    assert!(matches!(r, Err(TeamFileError::Malformed { line: 3 })));
    assert!(read_team_file(&b("name: A\n  stray text\n")).is_ok());
}

#[test]
fn team_file_can_mark_exemption() {
    let (_, _, exempt) = read_team_file(&b("name: Ops\nexempt: true\n")).ok().unwrap();
    assert!(exempt);
    let (_, _, not_exempt) = read_team_file(&b("name: Ops\nexempt: no\n")).ok().unwrap();
    assert!(!not_exempt);
}

#[test]
fn team_name_with_blank_is_refused_at_load() {
    let files = vec![source("config/teams/t.yml", "name: Team Two\nowned_globs:\n  - /t/\n")];
    assert!(matches!(
        load_config(&files, &vec![], None),
        Err(LoadError::Config(ConfigError::MalformedTeamName { team: 0 }))
    ));
}

#[test]
fn package_file_names_its_owner() {
    assert_eq!(read_package_owner(&b("enforce_dependencies: true\nowner: Payments \n")), Some(b("Payments")));
    assert_eq!(read_package_owner(&b("metadata:\n  owner: Nested\n")), None);
    assert_eq!(read_package_owner(&b("")), None);
}
