//! End-to-end dispatch scenario: three configured repositories driven
//! through their sync jobs under a one-permit admission pool, events
//! applied by the aggregator, every repository reaching a terminal
//! status, and never two jobs holding a permit at once.
use dyd::app::{App, Event};
use dyd::datetime::DateTime;
use dyd::difftool::Difftool;
use dyd::manifest::{Manifest, Remote, TimeZoneCast};
use dyd::repo::RepoStatus;
use dyd::semaphore::Semaphore;
use dyd::sync::{JobAction, SyncJob};

fn remote(name: &str, origin: &str) -> Remote {
    Remote { name: name.to_string(), origin: origin.to_string(), branch: None }
}

#[test]
fn three_repos_limit_one_all_reach_terminal() {
    let manifest = Manifest {
        difftool: Difftool::Git,
        since: "1 week ago".to_string(),
        timezones: TimeZoneCast::AsIs,
        since_datetime: Some(DateTime::from_epoch_seconds(1_650_000_000)),
        remotes: vec![
            ("one".to_string(), remote("first", "git@example.com:a/first.git")),
            ("two".to_string(), remote("second", "https://example.com/a/second.git")),
            // A third whose origin yields no local path: it must fail
            // alone, without disturbing the others.
            ("three".to_string(), remote("third", "/")),
        ],
        root: Some("/tmp/mirrors".to_string()),
    };
    let mut app = App::new(manifest);
    assert!(app.begin_checking());

    let mut gate = Semaphore::new(1);
    let mut events: Vec<Event> = Vec::new();
    let mut past_gate_at_once: usize = 0;

    for (id, repo) in app.repo_pairs() {
        // One job at a time: each waits for the single permit before any
        // of its work, holds it throughout, and returns it at the end.
        let permit = match gate.try_acquire() {
            Some(p) => p,
            None => panic!("gate exhausted although every job releases"),
        };
        past_gate_at_once += 1;
        assert_eq!(past_gate_at_once, 1);
        assert_eq!(gate.available_permits(), 0);

        match SyncJob::start(&repo, id, "/tmp/mirrors") {
            Ok((mut job, action)) => {
                assert_eq!(action, JobAction::CheckDir);
                // The mirror does not exist yet: the job must clone.
                let (event, action) = job.on_dir_checked(false);
                events.push(event);
                assert_eq!(action, JobAction::Clone);
                // The clone succeeds; the history fetch follows.
                let (event, action) = job.on_vcs_done(true);
                events.push(event);
                assert_eq!(action, JobAction::FetchHistory);
                let lines = vec![
                    "abc1234\u{b}1650000000\u{b}2 hours ago\u{b}Ada\u{b}Fix the build".to_string(),
                ];
                let (event, action) = job.on_history(Some(lines));
                events.push(event);
                assert_eq!(action, JobAction::Stop);
            },
            Err(event) => {
                events.push(event);
            },
        }

        past_gate_at_once -= 1;
        gate.release(permit);
        assert_eq!(gate.available_permits(), 1);
    }

    // The consumer drains the channel and applies every event.
    for event in events {
        app.update(event);
    }

    let mut finished: usize = 0;
    let mut failed: usize = 0;
    for (id, repo) in app.repo_pairs() {
        match repo.status {
            RepoStatus::Finished => finished += 1,
            RepoStatus::Failed => {
                assert_eq!(id, "three");
                failed += 1;
            },
            _ => panic!("a repository did not reach a terminal status"),
        }
    }
    assert_eq!(finished, 2);
    assert_eq!(failed, 1);
}

#[test]
fn failed_update_stops_before_history() {
    let repo = dyd::repo::Repo {
        branch: Some("main".to_string()),
        logs: vec![],
        name: "first".to_string(),
        origin: "git@example.com:a/first.git".to_string(),
        status: RepoStatus::Checking,
    };
    let (mut job, _) = SyncJob::start(&repo, "one".to_string(), "/tmp").unwrap();
    let (event, action) = job.on_dir_checked(true);
    assert!(matches!(event, Event::RepoStatusChange(_, RepoStatus::Pulling)));
    assert_eq!(action, JobAction::Pull);

    let (event, action) = job.on_vcs_done(false);
    assert!(matches!(event, Event::RepoStatusChange(_, RepoStatus::Failed)));
    assert_eq!(action, JobAction::Stop);
}
