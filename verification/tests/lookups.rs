use team::data::{Data, List, Person, Team};
use team::schema::permission_kinds;

fn person(handle: &str, email: Option<&str>) -> Person {
    Person { handle: handle.to_string(), email: email.map(|e| e.to_string()) }
}

fn team_named(name: &str, people: &[&str]) -> Team {
    Team {
        name: name.to_string(),
        people: people.iter().map(|s| s.to_string()).collect(),
        subteams: Vec::new(),
        leads: Vec::new(),
        permissions: Vec::new(),
    }
}

fn list_named(name: &str, emails: &[&str]) -> List {
    List {
        name: name.to_string(),
        emails: emails.iter().map(|s| s.to_string()).collect(),
        teams: Vec::new(),
    }
}

#[test]
fn lookups_find_entities_by_name() {
    let d = Data {
        people: vec![person("alice", Some("alice@example.com"))],
        teams: vec![team_named("core", &["alice"])],
        lists: vec![list_named("announce", &["a@example.com"])],
    };
    assert_eq!(d.team(&"core".to_string()).unwrap().people, vec!["alice".to_string()]);
    assert_eq!(
        d.person(&"alice".to_string()).unwrap().email,
        Some("alice@example.com".to_string()),
    );
    assert_eq!(
        d.list(&"announce".to_string()).unwrap().emails,
        vec!["a@example.com".to_string()],
    );
    assert!(d.team(&"ghost".to_string()).is_none());
    assert!(d.person(&"ghost".to_string()).is_none());
    assert!(d.list(&"ghost".to_string()).is_none());
}

#[test]
fn first_declaration_wins_on_duplicate_names() {
    let d = Data {
        people: vec![],
        teams: vec![team_named("core", &["first"]), team_named("core", &["second"])],
        lists: vec![],
    };
    assert_eq!(d.team(&"core".to_string()).unwrap().people, vec!["first".to_string()]);
}

#[test]
fn schema_enumerates_its_kinds() {
    assert_eq!(
        permission_kinds(),
        vec!["perf".to_string(), "crater".to_string(), "core-permission".to_string()],
    );
}
