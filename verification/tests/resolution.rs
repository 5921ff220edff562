use team::data::{Data, List, Person, Team};
use team::errors::LookupError;
use team::permissions::resolve_permission;

fn person(handle: &str, email: Option<&str>) -> Person {
    Person { handle: handle.to_string(), email: email.map(|e| e.to_string()) }
}

fn team_full(
    name: &str,
    people: &[&str],
    subteams: &[&str],
    leads: &[&str],
    permissions: &[&str],
) -> Team {
    Team {
        name: name.to_string(),
        people: people.iter().map(|s| s.to_string()).collect(),
        subteams: subteams.iter().map(|s| s.to_string()).collect(),
        leads: leads.iter().map(|s| s.to_string()).collect(),
        permissions: permissions.iter().map(|s| s.to_string()).collect(),
    }
}

fn store(people: Vec<Person>, teams: Vec<Team>, lists: Vec<List>) -> Data {
    Data { people, teams, lists }
}

fn sorted(mut v: Vec<String>) -> Vec<String> {
    v.sort();
    v
}

#[test]
fn flat_team_resolves_to_direct_members() {
    let d = store(
        vec![person("alice", None), person("bob", None)],
        vec![team_full("perf-team", &["alice", "bob"], &[], &["alice"], &["perf"])],
        vec![],
    );
    let got = sorted(resolve_permission(&d, &"perf".to_string()).unwrap());
    assert_eq!(got, vec!["alice".to_string(), "bob".to_string()]);
}

#[test]
fn nested_team_resolves_to_union() {
    let d = store(
        vec![person("alice", None), person("bob", None)],
        vec![
            team_full("core", &["alice"], &["infra"], &["alice"], &["core-permission"]),
            team_full("infra", &["bob"], &[], &[], &[]),
        ],
        vec![],
    );
    let got = sorted(resolve_permission(&d, &"core-permission".to_string()).unwrap());
    assert_eq!(got, vec!["alice".to_string(), "bob".to_string()]);
}

#[test]
fn resolution_is_deterministic_and_duplicate_free() {
    let d = store(
        vec![person("alice", None), person("bob", None), person("carol", None)],
        vec![
            team_full("core", &["alice", "bob"], &["infra"], &[], &["crater"]),
            team_full("infra", &["bob", "carol"], &[], &[], &["crater"]),
        ],
        vec![],
    );
    let first = resolve_permission(&d, &"crater".to_string()).unwrap();
    let second = resolve_permission(&d, &"crater".to_string()).unwrap();
    assert_eq!(sorted(first.clone()), sorted(second));
    let mut deduped = sorted(first.clone());
    deduped.dedup();
    assert_eq!(sorted(first), deduped);
}

#[test]
fn shared_member_appears_once() {
    let d = store(
        vec![person("alice", None), person("bob", None)],
        vec![
            team_full("a", &["alice"], &["b"], &[], &["perf"]),
            team_full("b", &["alice", "bob"], &[], &[], &[]),
        ],
        vec![],
    );
    let got = sorted(resolve_permission(&d, &"perf".to_string()).unwrap());
    assert_eq!(got, vec!["alice".to_string(), "bob".to_string()]);
}

#[test]
fn unknown_permission_is_an_error_not_empty() {
    let d = store(vec![person("alice", None)], vec![], vec![]);
    let got = resolve_permission(&d, &"deploy".to_string());
    assert_eq!(got, Err(LookupError::UnknownPermission));
}

#[test]
fn recognized_permission_granted_nowhere_resolves_empty() {
    let d = store(
        vec![person("alice", None)],
        vec![team_full("core", &["alice"], &[], &[], &[])],
        vec![],
    );
    let got = resolve_permission(&d, &"perf".to_string()).unwrap();
    assert!(got.is_empty());
}

#[test]
fn resolver_terminates_on_cyclic_store() {
    // Defensive visited-set tracking: resolution over an unvalidated cyclic
    // store must still terminate and return the deduplicated membership.
    let d = store(
        vec![person("alice", None), person("bob", None)],
        vec![
            team_full("a", &["alice"], &["b"], &[], &["perf"]),
            team_full("b", &["bob"], &["a"], &[], &[]),
        ],
        vec![],
    );
    let got = sorted(resolve_permission(&d, &"perf".to_string()).unwrap());
    assert_eq!(got, vec!["alice".to_string(), "bob".to_string()]);
}

#[test]
fn permission_granted_by_two_teams_unions_members() {
    let d = store(
        vec![person("alice", None), person("bob", None)],
        vec![
            team_full("a", &["alice"], &[], &[], &["perf"]),
            team_full("b", &["bob"], &[], &[], &["perf"]),
        ],
        vec![],
    );
    let got = sorted(resolve_permission(&d, &"perf".to_string()).unwrap());
    assert_eq!(got, vec!["alice".to_string(), "bob".to_string()]);
}

#[test]
fn dangling_subteam_is_skipped_by_resolver() {
    let d = store(
        vec![person("alice", None)],
        vec![team_full("core", &["alice"], &["ghost-team"], &[], &["perf"])],
        vec![],
    );
    let got = resolve_permission(&d, &"perf".to_string()).unwrap();
    assert_eq!(got, vec!["alice".to_string()]);
}
