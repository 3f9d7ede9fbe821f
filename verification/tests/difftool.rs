use dyd::datetime::DateTime;
use dyd::difftool::{split_command, Difftool};
use dyd::repo::{Log, Repo, RepoStatus};

fn repository(origin: &str, branch: Option<&str>) -> Repo {
    Repo {
        branch: branch.map(|b| b.to_string()),
        logs: vec![],
        name: "r".to_string(),
        origin: origin.to_string(),
        status: RepoStatus::Checking,
    }
}

fn record(sha: &str) -> Log {
    Log {
        age: String::new(),
        author: String::new(),
        cdate: String::new(),
        commit_datetime: DateTime::from_epoch_seconds(0),
        message: String::new(),
        sha: sha.to_string(),
    }
}

#[test]
fn entry_names_select_the_viewer() {
    assert!(matches!(Difftool::from_entry("git".to_string()), Difftool::Git));
    assert!(matches!(Difftool::from_entry("github".to_string()), Difftool::GitHub));
    match Difftool::from_entry("meld ${DIFF}".to_string()) {
        Difftool::Fallthrough(s) => assert_eq!(s, "meld ${DIFF}"),
        other => panic!("expected a custom command, got {other:?}"),
    }
}

#[test]
fn git_template_is_the_stock_one() {
    let repo = repository("git@example.com:a/b.git", None);
    let t = Difftool::Git.to_str(&repo, &"abc".to_string(), &None);
    assert_eq!(t, "git difftool -g -y ${DIFF}");
    assert_eq!(dyd::manifest::default_difftool(), "git difftool -g -y ${DIFF}");
}

#[test]
fn github_template_builds_compare_url() {
    let repo = repository("git@github.com:owner/repo.git", None);
    let t = Difftool::GitHub.to_str(&repo, &"abc1234".to_string(), &None);
    assert_eq!(t, "open https://github.com/owner/repo/compare/abc1234..HEAD?diff=split");
}

#[test]
fn github_template_with_branch_and_whitespace() {
    let repo = repository("  https://github.com/owner/repo.git\n", Some("main"));
    let t = Difftool::GitHub.to_str(&repo, &"abc".to_string(), &Some("main".to_string()));
    assert_eq!(t, "open https///github.com/owner/repo/compare/abc..main?diff=split");
}

#[test]
fn fallthrough_template_is_verbatim() {
    let repo = repository("x", None);
    let t = Difftool::Fallthrough("meld ${DIFF}".to_string()).to_str(
        &repo,
        &"abc".to_string(),
        &None,
    );
    assert_eq!(t, "meld ${DIFF}");
}

#[test]
fn split_command_splits_on_single_spaces() {
    let (cmd, args) = split_command("git difftool -g -y abc..HEAD");
    assert_eq!(cmd, "git");
    assert_eq!(args, vec!["difftool", "-g", "-y", "abc..HEAD"]);

    let (cmd, args) = split_command("solo");
    assert_eq!(cmd, "solo");
    assert!(args.is_empty());

    // Each space of a consecutive run ends a word, so empty words appear.
    let (cmd, args) = split_command("a  b");
    assert_eq!(cmd, "a");
    assert_eq!(args, vec!["", "b"]);
}

#[test]
fn command_substitutes_the_diff_range() {
    let repo = repository("git@example.com:a/b.git", None);
    let log = record("abc1234");
    let (cmd, args) = Difftool::Git.command(&repo, &log, "/work").unwrap();
    assert_eq!(cmd, "git");
    assert_eq!(args, vec!["difftool", "-g", "-y", "abc1234..HEAD"]);
}

#[test]
fn command_with_branch_uses_remote_ref() {
    let repo = repository("git@example.com:a/b.git", Some("main"));
    let log = record("abc1234");
    let (_, args) = Difftool::Git.command(&repo, &log, "/work").unwrap();
    assert_eq!(args, vec!["difftool", "-g", "-y", "abc1234..origin/main"]);
}

#[test]
fn command_rejects_forbidden_context() {
    // An origin holding a brace cannot be substituted safely.
    let repo = repository("git@example.com:a/{b}.git", None);
    let log = record("abc1234");
    assert!(Difftool::Git.command(&repo, &log, "/work").is_err());
}
