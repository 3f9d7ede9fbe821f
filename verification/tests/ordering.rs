use dyd::datetime::DateTime;
use dyd::repo::{log_sorts_before, repo_sorts_before, Log, Repo, RepoStatus};

fn record(epoch: i64, message: &str) -> Log {
    Log {
        age: String::new(),
        author: String::new(),
        cdate: String::new(),
        commit_datetime: DateTime::from_epoch_seconds(epoch),
        message: message.to_string(),
        sha: String::new(),
    }
}

fn repository(name: &str, logs: Vec<Log>) -> Repo {
    Repo {
        branch: None,
        logs,
        name: name.to_string(),
        origin: String::new(),
        status: RepoStatus::Checking,
    }
}

#[test]
fn greater_instant_sorts_first() {
    let newer = record(2_000, "m");
    let older = record(1_000, "m");
    assert!(log_sorts_before(&newer, &older));
    assert!(!log_sorts_before(&older, &newer));
}

#[test]
fn tied_instants_break_on_smaller_message() {
    let bbb = record(1_000, "BBB");
    let aaa = record(1_000, "AAA");
    assert!(log_sorts_before(&aaa, &bbb));
    assert!(!log_sorts_before(&bbb, &aaa));
}

#[test]
fn nonempty_repo_sorts_before_empty() {
    // The non-empty one wins although its name sorts after.
    let with_logs = repository("zzz", vec![record(5, "m")]);
    let without = repository("aaa", vec![]);
    assert!(repo_sorts_before(&with_logs, &without));
    assert!(!repo_sorts_before(&without, &with_logs));
}

#[test]
fn empty_repos_sort_by_name() {
    let a = repository("alpha", vec![]);
    let b = repository("beta", vec![]);
    assert!(repo_sorts_before(&a, &b));
    assert!(!repo_sorts_before(&b, &a));
}

#[test]
fn repos_with_logs_sort_by_most_recent_record() {
    let fresh = repository("old-name", vec![record(9_000, "x")]);
    let stale = repository("aaa", vec![record(1_000, "x")]);
    assert!(repo_sorts_before(&fresh, &stale));
    assert!(!repo_sorts_before(&stale, &fresh));
}

#[test]
fn repos_with_tied_records_break_on_message() {
    let bbb = repository("a", vec![record(1_000, "BBB")]);
    let aaa = repository("b", vec![record(1_000, "AAA")]);
    assert!(repo_sorts_before(&aaa, &bbb));
    assert!(!repo_sorts_before(&bbb, &aaa));
}
