use dyd::cli::{Command, ManifestCliArgs, CLI};
use dyd::datetime::DateTime;
use dyd::difftool::Difftool;
use dyd::manifest::{Manifest, ManifestError, Remote, TimeZoneCast};
use dyd::repo::{Repo, RepoStatus};
use dyd::theme::Theme;

fn base_manifest(since: &str, difftool: Difftool) -> Manifest {
    Manifest {
        difftool,
        since: since.to_string(),
        timezones: TimeZoneCast::AsIs,
        since_datetime: None,
        remotes: vec![],
        root: None,
    }
}

#[test]
fn resolve_computes_the_threshold() {
    let now = DateTime::new(2022, 4, 1, 6, 1, 2).unwrap();
    let m = base_manifest("1 week ago", Difftool::Git)
        .resolve(&now, "/tmp/mirrors".to_string())
        .unwrap();
    assert_eq!(m.since_datetime, DateTime::new(2022, 3, 25, 6, 1, 2));
    assert_eq!(m.root, Some("/tmp/mirrors".to_string()));
}

#[test]
fn resolve_rejects_bad_since() {
    let now = DateTime::new(2022, 4, 1, 6, 1, 2).unwrap();
    let r = base_manifest("whenever", Difftool::Git).resolve(&now, "/tmp".to_string());
    assert!(matches!(r, Err(ManifestError::Since(_))));
}

#[test]
fn resolve_rejects_empty_difftool() {
    let now = DateTime::new(2022, 4, 1, 6, 1, 2).unwrap();
    let r = base_manifest("1 week ago", Difftool::Fallthrough(String::new()))
        .resolve(&now, "/tmp".to_string());
    assert!(matches!(r, Err(ManifestError::EmptyDifftool)));
}

#[test]
fn default_manifest_looks_a_week_back() {
    let m = Manifest::default();
    assert_eq!(m.since, "1 week ago");
    assert!(matches!(m.difftool, Difftool::Git));
    assert!(m.remotes.is_empty());
}

fn repo_with_origin(origin: &str) -> Repo {
    Repo {
        branch: None,
        logs: vec![],
        name: "r".to_string(),
        origin: origin.to_string(),
        status: RepoStatus::Checking,
    }
}

#[test]
fn path_joins_root_and_final_segment() {
    let repo = repo_with_origin("git@example.com:owner/repo.git");
    assert_eq!(repo.path("/root/mirrors").unwrap(), "/root/mirrors/repo.git");

    let repo = repo_with_origin("https://example.com/a/b/");
    assert_eq!(repo.path("/m").unwrap(), "/m/b");

    // A root already ending in a separator gets no second one, and
    // trailing dot components are normalized away.
    let repo = repo_with_origin("x/.");
    assert_eq!(repo.path("/m/").unwrap(), "/m/x");
}

#[test]
fn path_fails_without_a_segment() {
    assert!(repo_with_origin("").path("/m").is_err());
    assert!(repo_with_origin("/").path("/m").is_err());
    assert!(repo_with_origin("a/..").path("/m").is_err());
    assert!(repo_with_origin(".").path("/m").is_err());
}

#[test]
fn display_name_shows_the_branch() {
    let mut repo = repo_with_origin("x");
    repo.name = "first".to_string();
    assert_eq!(repo.display_name(), "first");
    repo.branch = Some("main".to_string());
    assert_eq!(repo.display_name(), "first (main)");
}

#[test]
fn a_remote_becomes_a_checking_repo() {
    let remote = Remote {
        name: "first".to_string(),
        origin: "git@example.com:a/first.git".to_string(),
        branch: None,
    };
    let repo = Repo::from_remote(remote);
    assert_eq!(repo.status, RepoStatus::Checking);
    assert!(repo.logs.is_empty());
    assert_eq!(repo.name, "first");
}

#[test]
fn cli_defaults_to_a_diff_run() {
    let cli = CLI {
        command: None,
        diff: ManifestCliArgs { manifest: "dyd.toml".to_string(), theme: Theme::Auto },
    };
    match cli.command_or_default() {
        Command::Diff(args) => {
            assert_eq!(args.manifest, "dyd.toml");
            assert!(matches!(args.theme, Theme::Auto));
        },
        _ => panic!("expected the diff run"),
    }

    let cli = CLI {
        command: Some(Command::Clean { verbose: true }),
        diff: ManifestCliArgs { manifest: "dyd.toml".to_string(), theme: Theme::Dark },
    };
    assert!(matches!(cli.command_or_default(), Command::Clean { verbose: true }));
}
