use team::data::{Data, List, Person, Team};
use team::validate::{validate, Violation};

fn person(handle: &str, email: Option<&str>) -> Person {
    Person { handle: handle.to_string(), email: email.map(|e| e.to_string()) }
}

fn team_full(
    name: &str,
    people: &[&str],
    subteams: &[&str],
    leads: &[&str],
    permissions: &[&str],
) -> Team {
    Team {
        name: name.to_string(),
        people: people.iter().map(|s| s.to_string()).collect(),
        subteams: subteams.iter().map(|s| s.to_string()).collect(),
        leads: leads.iter().map(|s| s.to_string()).collect(),
        permissions: permissions.iter().map(|s| s.to_string()).collect(),
    }
}

fn list_full(name: &str, emails: &[&str], teams: &[&str]) -> List {
    List {
        name: name.to_string(),
        emails: emails.iter().map(|s| s.to_string()).collect(),
        teams: teams.iter().map(|s| s.to_string()).collect(),
    }
}

fn store(people: Vec<Person>, teams: Vec<Team>, lists: Vec<List>) -> Data {
    Data { people, teams, lists }
}

#[test]
fn empty_store_is_valid() {
    let d = store(vec![], vec![], vec![]);
    assert!(validate(&d).is_empty());
}

#[test]
fn consistent_store_is_valid() {
    let d = store(
        vec![person("alice", Some("alice@example.com")), person("bob", None)],
        vec![
            team_full("core", &["alice"], &["infra"], &["alice"], &["core-permission"]),
            team_full("infra", &["bob"], &[], &[], &[]),
        ],
        vec![list_full("all", &["extra@example.com"], &["core"])],
    );
    assert!(validate(&d).is_empty());
}

#[test]
fn lead_must_be_member() {
    let d = store(
        vec![person("alice", None), person("bob", None)],
        vec![team_full("core", &["bob"], &[], &["alice"], &[])],
        vec![],
    );
    let violations = validate(&d);
    assert!(violations.iter().any(|v| matches!(
        v,
        Violation::LeadNotMember { team, lead } if team == "core" && lead == "alice"
    )));
}

#[test]
fn lead_who_is_member_passes() {
    let d = store(
        vec![person("alice", None)],
        vec![team_full("core", &["alice"], &[], &["alice"], &[])],
        vec![],
    );
    assert!(validate(&d).is_empty());
}

#[test]
fn composition_cycle_is_reported_and_terminates() {
    let d = store(
        vec![person("alice", None), person("bob", None)],
        vec![
            team_full("a", &["alice"], &["b"], &[], &[]),
            team_full("b", &["bob"], &["a"], &[], &[]),
        ],
        vec![],
    );
    let violations = validate(&d);
    let cyclic: Vec<&str> = violations
        .iter()
        .filter_map(|v| match v {
            Violation::CompositionCycle { team } => Some(team.as_str()),
            _ => None,
        })
        .collect();
    assert!(cyclic.contains(&"a"));
    assert!(cyclic.contains(&"b"));
}

#[test]
fn self_cycle_is_reported() {
    let d = store(
        vec![],
        vec![team_full("a", &[], &["a"], &[], &[])],
        vec![],
    );
    let violations = validate(&d);
    assert!(violations.iter().any(|v| matches!(
        v,
        Violation::CompositionCycle { team } if team == "a"
    )));
}

#[test]
fn list_with_unknown_team_is_dangling() {
    let d = store(
        vec![],
        vec![],
        vec![list_full("all", &[], &["ghost-team"])],
    );
    let violations = validate(&d);
    assert!(violations.iter().any(|v| matches!(
        v,
        Violation::DanglingListTeam { list, missing } if list == "all" && missing == "ghost-team"
    )));
}

#[test]
fn team_with_unknown_subteam_is_dangling() {
    let d = store(
        vec![],
        vec![team_full("core", &[], &["ghost-team"], &[], &[])],
        vec![],
    );
    let violations = validate(&d);
    assert!(violations.iter().any(|v| matches!(
        v,
        Violation::DanglingSubteam { team, missing } if team == "core" && missing == "ghost-team"
    )));
}

#[test]
fn team_with_unknown_person_is_dangling() {
    let d = store(
        vec![],
        vec![team_full("core", &["nobody"], &[], &[], &[])],
        vec![],
    );
    let violations = validate(&d);
    assert!(violations.iter().any(|v| matches!(
        v,
        Violation::DanglingMember { team, missing } if team == "core" && missing == "nobody"
    )));
}

#[test]
fn duplicate_names_are_reported() {
    let d = store(
        vec![person("alice", None), person("alice", None)],
        vec![
            team_full("core", &[], &[], &[], &[]),
            team_full("core", &[], &[], &[], &[]),
        ],
        vec![
            list_full("all", &[], &[]),
            list_full("all", &[], &[]),
        ],
    );
    let violations = validate(&d);
    assert!(violations.iter().any(|v| matches!(
        v,
        Violation::DuplicateTeam { name } if name == "core"
    )));
    assert!(violations.iter().any(|v| matches!(
        v,
        Violation::DuplicateList { name } if name == "all"
    )));
    assert!(violations.iter().any(|v| matches!(
        v,
        Violation::DuplicatePerson { handle } if handle == "alice"
    )));
}

#[test]
fn unrecognized_permission_kind_is_reported() {
    let d = store(
        vec![],
        vec![team_full("core", &[], &[], &[], &["deploy"])],
        vec![],
    );
    let violations = validate(&d);
    assert!(violations.iter().any(|v| matches!(
        v,
        Violation::UnrecognizedPermission { team, permission }
            if team == "core" && permission == "deploy"
    )));
}

#[test]
fn all_violations_are_collected_in_one_pass() {
    // Several rules broken at once: every one of them is reported.
    let d = store(
        vec![person("alice", None)],
        vec![team_full("core", &["nobody"], &["ghost-team"], &["alice"], &["deploy"])],
        vec![list_full("all", &[], &["missing-team"])],
    );
    let violations = validate(&d);
    assert!(violations.iter().any(|v| matches!(v, Violation::DanglingMember { .. })));
    assert!(violations.iter().any(|v| matches!(v, Violation::DanglingSubteam { .. })));
    assert!(violations.iter().any(|v| matches!(v, Violation::DanglingListTeam { .. })));
    assert!(violations.iter().any(|v| matches!(v, Violation::LeadNotMember { .. })));
    assert!(violations.iter().any(|v| matches!(v, Violation::UnrecognizedPermission { .. })));
}
