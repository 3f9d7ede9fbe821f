use dyd::app::{App, AppState, Event};
use dyd::datetime::DateTime;
use dyd::difftool::Difftool;
use dyd::manifest::{Manifest, Remote, TimeZoneCast};
use dyd::repo::{Log, RepoStatus};

fn remote(name: &str, origin: &str) -> Remote {
    Remote { name: name.to_string(), origin: origin.to_string(), branch: None }
}

fn manifest_of(remotes: Vec<(String, Remote)>) -> Manifest {
    Manifest {
        difftool: Difftool::Git,
        since: "1 week ago".to_string(),
        timezones: TimeZoneCast::AsIs,
        since_datetime: Some(DateTime::from_epoch_seconds(1_650_000_000)),
        remotes,
        root: Some("/tmp/mirrors".to_string()),
    }
}

fn record(epoch: i64, message: &str) -> Log {
    Log {
        age: String::new(),
        author: String::new(),
        cdate: String::new(),
        commit_datetime: DateTime::from_epoch_seconds(epoch),
        message: message.to_string(),
        sha: String::new(),
    }
}

fn app_of_three() -> App {
    App::new(manifest_of(vec![
        ("one".to_string(), remote("first", "git@example.com:a/first.git")),
        ("two".to_string(), remote("second", "git@example.com:a/second.git")),
        ("three".to_string(), remote("third", "git@example.com:a/third.git")),
    ]))
}

#[test]
fn new_app_starts_checking_in_configuration_order() {
    let app = app_of_three();
    assert_eq!(app.state, AppState::Init);
    assert!(app.running);

    let pairs = app.repo_pairs();
    assert_eq!(pairs.len(), 3);
    assert_eq!(pairs[0].0, "one");
    assert_eq!(pairs[1].0, "two");
    assert_eq!(pairs[2].0, "three");
    for (_, repo) in &pairs {
        assert_eq!(repo.status, RepoStatus::Checking);
        assert!(repo.logs.is_empty());
    }
}

#[test]
fn status_change_touches_only_the_named_repo() {
    let mut app = app_of_three();
    app.update_repo_status("two".to_string(), RepoStatus::Pulling);

    let pairs = app.repo_pairs();
    assert_eq!(pairs[0].1.status, RepoStatus::Checking);
    assert_eq!(pairs[1].1.status, RepoStatus::Pulling);
    assert_eq!(pairs[2].1.status, RepoStatus::Checking);

    // An unknown identifier is ignored.
    app.update_repo_status("nobody".to_string(), RepoStatus::Failed);
    assert_eq!(app.repo_pairs().len(), 3);
}

#[test]
fn completion_installs_records_and_reorders() {
    let mut app = app_of_three();

    app.update(Event::RepoStatusComplete("three".to_string(), vec![record(9_000, "m")]));
    app.update(Event::RepoStatusComplete("one".to_string(), vec![record(1_000, "m")]));

    let pairs = app.repo_pairs();
    // Repositories with records precede the one without; fresher first.
    assert_eq!(pairs[0].0, "three");
    assert_eq!(pairs[0].1.status, RepoStatus::Finished);
    assert_eq!(pairs[1].0, "one");
    assert_eq!(pairs[1].1.status, RepoStatus::Finished);
    assert_eq!(pairs[2].0, "two");
    assert_eq!(pairs[2].1.status, RepoStatus::Checking);
}

#[test]
fn reset_returns_every_repo_to_checking() {
    let mut app = app_of_three();
    app.update(Event::RepoStatusComplete("one".to_string(), vec![record(1_000, "m")]));
    app.update(Event::RepoStatusChange("two".to_string(), RepoStatus::Failed));

    app.reset();
    assert_eq!(app.state, AppState::Init);
    for (_, repo) in app.repo_pairs() {
        assert_eq!(repo.status, RepoStatus::Checking);
    }
}

#[test]
fn begin_checking_flips_once() {
    let mut app = app_of_three();
    assert!(app.begin_checking());
    assert_eq!(app.state, AppState::Checking);
    assert!(!app.begin_checking());
    app.reset();
    assert!(app.begin_checking());
}
