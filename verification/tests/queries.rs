use team::data::{Data, List, Person, Team};
use team::errors::LookupError;
use team::query::{is_lead, list_emails, team_members};
use team::schema::permission_known;

fn person(handle: &str, email: Option<&str>) -> Person {
    Person { handle: handle.to_string(), email: email.map(|e| e.to_string()) }
}

fn team_full(
    name: &str,
    people: &[&str],
    subteams: &[&str],
    leads: &[&str],
    permissions: &[&str],
) -> Team {
    Team {
        name: name.to_string(),
        people: people.iter().map(|s| s.to_string()).collect(),
        subteams: subteams.iter().map(|s| s.to_string()).collect(),
        leads: leads.iter().map(|s| s.to_string()).collect(),
        permissions: permissions.iter().map(|s| s.to_string()).collect(),
    }
}

fn list_full(name: &str, emails: &[&str], teams: &[&str]) -> List {
    List {
        name: name.to_string(),
        emails: emails.iter().map(|s| s.to_string()).collect(),
        teams: teams.iter().map(|s| s.to_string()).collect(),
    }
}

fn store(people: Vec<Person>, teams: Vec<Team>, lists: Vec<List>) -> Data {
    Data { people, teams, lists }
}

fn sorted(mut v: Vec<String>) -> Vec<String> {
    v.sort();
    v
}

fn sample() -> Data {
    store(
        vec![
            person("alice", Some("alice@example.com")),
            person("bob", Some("bob@example.com")),
            person("carol", None),
        ],
        vec![
            team_full("core", &["alice"], &["infra"], &["alice"], &["core-permission"]),
            team_full("infra", &["bob", "carol"], &[], &["bob"], &[]),
        ],
        vec![list_full("announce", &["extra@example.com"], &["core"])],
    )
}

#[test]
fn team_members_are_transitive() {
    let got = sorted(team_members(&sample(), &"core".to_string()).unwrap());
    assert_eq!(
        got,
        vec!["alice".to_string(), "bob".to_string(), "carol".to_string()],
    );
}

#[test]
fn leaf_team_members_are_direct() {
    let got = sorted(team_members(&sample(), &"infra".to_string()).unwrap());
    assert_eq!(got, vec!["bob".to_string(), "carol".to_string()]);
}

#[test]
fn unknown_team_is_an_error() {
    assert_eq!(
        team_members(&sample(), &"ghost".to_string()),
        Err(LookupError::UnknownTeam),
    );
    assert_eq!(
        is_lead(&sample(), &"ghost".to_string(), &"alice".to_string()),
        Err(LookupError::UnknownTeam),
    );
}

#[test]
fn lead_annotation_matches_declaration() {
    let d = sample();
    assert_eq!(is_lead(&d, &"core".to_string(), &"alice".to_string()), Ok(true));
    assert_eq!(is_lead(&d, &"core".to_string(), &"bob".to_string()), Ok(false));
    assert_eq!(is_lead(&d, &"infra".to_string(), &"bob".to_string()), Ok(true));
}

#[test]
fn list_emails_union_literals_and_members() {
    let got = sorted(list_emails(&sample(), &"announce".to_string()).unwrap());
    assert_eq!(
        got,
        vec![
            "alice@example.com".to_string(),
            "bob@example.com".to_string(),
            "extra@example.com".to_string(),
        ],
    );
}

#[test]
fn person_without_email_contributes_none() {
    let d = store(
        vec![person("carol", None)],
        vec![team_full("core", &["carol"], &[], &[], &[])],
        vec![list_full("announce", &[], &["core"])],
    );
    let got = list_emails(&d, &"announce".to_string()).unwrap();
    assert!(got.is_empty());
}

#[test]
fn duplicate_addresses_are_deduplicated() {
    let d = store(
        vec![person("alice", Some("alice@example.com"))],
        vec![team_full("core", &["alice"], &[], &[], &[])],
        vec![list_full("announce", &["alice@example.com"], &["core"])],
    );
    let got = list_emails(&d, &"announce".to_string()).unwrap();
    assert_eq!(got, vec!["alice@example.com".to_string()]);
}

#[test]
fn unknown_list_is_an_error() {
    assert_eq!(
        list_emails(&sample(), &"ghost".to_string()),
        Err(LookupError::UnknownList),
    );
}

#[test]
fn schema_recognizes_exactly_its_kinds() {
    assert!(permission_known(&"perf".to_string()));
    assert!(permission_known(&"crater".to_string()));
    assert!(permission_known(&"core-permission".to_string()));
    assert!(!permission_known(&"deploy".to_string()));
    assert!(!permission_known(&"".to_string()));
}

#[test]
fn lookup_error_describes_itself() {
    assert_eq!(LookupError::UnknownTeam.describe(), "unknown team");
    assert_eq!(LookupError::UnknownList.describe(), "unknown list");
    assert_eq!(LookupError::UnknownPermission.describe(), "unknown permission");
}
