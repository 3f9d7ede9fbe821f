//! The aggregator: the single owner of every repository entity and its
//! status.  Sync jobs run concurrently and only emit immutable events;
//! the one consumer applies them here, so the repository map itself
//! needs no lock.
use crate::calendar::CalendarState;
use crate::datetime::DateTime;
use crate::difftool::Difftool;
use crate::manifest::{Manifest, Remote};
use crate::repo::{
    lemma_repo_le_total, lemma_repo_le_trans, logs_valid, repo_le, repo_sorts_before, Log, Repo,
    RepoStatus, RepoView,
};
use crate::repomap::{
    find_key, lemma_find_key, lemma_find_key_unique, map_get_index, map_insert, map_len, map_new,
    repo_entries,
};
use indexmap::IndexMap;
use vstd::prelude::*;
use vstd::multiset::Multiset;

verus! {

broadcast use vstd::seq_lib::group_to_multiset_ensures, vstd::multiset::group_multiset_axioms;

/// Where the whole application stands: freshly started or reset, or with
/// a refresh cycle dispatched.
#[derive(Debug, PartialEq, Eq, Structural)]
pub enum AppState {
    Init,
    Checking,
}

impl Default for AppState {
    /// A run begins before any dispatch.
    fn default() -> (r: Self)
        ensures
            r == AppState::Init,
    {
        AppState::Init
    }
}

/// Which pane has the focus.
#[derive(Debug, PartialEq, Eq, Structural)]
pub enum SelectedPane {
    Diff,
    Repos,
}

impl Default for SelectedPane {
    /// The repository list starts focused.
    fn default() -> (r: Self)
        ensures
            r == SelectedPane::Repos,
    {
        SelectedPane::Repos
    }
}

/// Which modal is open, if any.
#[derive(Debug, PartialEq, Eq, Structural)]
pub enum SelectedModal {
    Hidden,
    Calendar,
}

impl Default for SelectedModal {
    /// No modal starts open.
    fn default() -> (r: Self)
        ensures
            r == SelectedModal::Hidden,
    {
        SelectedModal::Hidden
    }
}

/// How commit instants are rendered, as the application applies it.
#[derive(Debug, Clone, Copy, PartialEq, Eq, Structural)]
pub enum TimeZoneCast {
    AsIs,
    Local,
    Utc,
}

impl From<crate::manifest::TimeZoneCast> for TimeZoneCast {
    /// The configured cast, variant for variant.
    fn from(cast: crate::manifest::TimeZoneCast) -> (r: Self) {
        match cast {
            crate::manifest::TimeZoneCast::AsIs => Self::AsIs,
            crate::manifest::TimeZoneCast::Local => Self::Local,
            crate::manifest::TimeZoneCast::Utc => Self::Utc,
        }
    }
}

impl vstd::std_specs::convert::FromSpecImpl<crate::manifest::TimeZoneCast> for TimeZoneCast {
    open spec fn obeys_from_spec() -> bool {
        true
    }

    open spec fn from_spec(cast: crate::manifest::TimeZoneCast) -> Self {
        match cast {
            crate::manifest::TimeZoneCast::AsIs => Self::AsIs,
            crate::manifest::TimeZoneCast::Local => Self::Local,
            crate::manifest::TimeZoneCast::Utc => Self::Utc,
        }
    }
}

/// What sync jobs put on the shared channel: a status transition, or the
/// decoded history of a completed synchronization.
#[derive(Debug)]
pub enum Event {
    RepoStatusChange(String, RepoStatus),
    RepoStatusComplete(String, Vec<Log>),
}

/// The abstract value of the repository entities of a map read-out.
pub open spec fn pair_views(q: Seq<(String, Repo)>) -> Seq<(Seq<char>, RepoView)> {
    q.map_values(|p: (String, Repo)| (p.0@, p.1@))
}

/// No two entries share an identifier.
pub open spec fn keys_unique(es: Seq<(Seq<char>, RepoView)>) -> bool {
    forall|p: int, q: int|
        0 <= p < q < es.len() ==> (#[trigger] es[p]).0 != (#[trigger] es[q]).0
}

/// Every entry's records denote real instants.
pub open spec fn entries_valid(es: Seq<(Seq<char>, RepoView)>) -> bool {
    forall|i: int| 0 <= i < es.len() ==> logs_valid((#[trigger] es[i]).1)
}

/// The entries stand in display order.
pub open spec fn entries_sorted(es: Seq<(Seq<char>, RepoView)>) -> bool {
    forall|i: int, j: int|
        0 <= i < j < es.len() ==> repo_le((#[trigger] es[i]).1, (#[trigger] es[j]).1)
}

/// The repository entity a configured remote starts out as: no records,
/// `Checking`.
pub open spec fn initial_repo(r: Remote) -> RepoView {
    RepoView {
        branch: r.branch,
        logs: Seq::empty(),
        name: r.name,
        origin: r.origin,
        status: RepoStatus::Checking,
    }
}

/// The application's aggregated state: the ordered repository map and
/// the handful of plain values the event loop steers by.
#[derive(Debug)]
pub struct App {
    pub calendar_state: CalendarState,
    pub difftool: Difftool,
    pub modal: SelectedModal,
    pub repos: IndexMap<String, Repo>,
    pub root_path: String,
    pub running: bool,
    pub selected_pane: SelectedPane,
    pub since: DateTime,
    pub state: AppState,
    pub timezones: TimeZoneCast,
}

impl App {
    /// The repository entries, in display order.
    pub open spec fn entries(self) -> Seq<(Seq<char>, RepoView)> {
        repo_entries(self.repos)
    }

    /// The aggregator's invariant: identifiers are unique, every held
    /// record denotes a real instant, and the threshold is a real
    /// instant.
    pub open spec fn inv(self) -> bool {
        &&& keys_unique(self.entries())
        &&& entries_valid(self.entries())
        &&& self.since.valid()
    }

    /// The aggregated state a resolved manifest starts from: one entity
    /// per configured remote, in configuration order, each `Checking`
    /// with no records.
    pub fn new(manifest: Manifest) -> (r: App)
        requires
            manifest.since_datetime matches Some(dt) && dt.valid(),
            manifest.root matches Some(p) && -(crate::datetime::DAY_LIMIT as int)
                <= crate::datetime::days_from_civil(
                manifest.since_datetime->0.year as int,
                manifest.since_datetime->0.month as int,
                manifest.since_datetime->0.day as int,
            ) <= crate::datetime::DAY_LIMIT as int,
            forall|i: int, j: int|
                0 <= i < j < manifest.remotes@.len() ==> (#[trigger] manifest.remotes@[i]).0@ != (
                #[trigger] manifest.remotes@[j]).0@,
        ensures
            r.inv(),
            r.entries() == manifest.remotes@.map_values(
                |p: (String, Remote)| (p.0@, initial_repo(p.1)),
            ),
            r.since == manifest.since_datetime->0,
            r.root_path == manifest.root->0,
            r.difftool == manifest.difftool,
            r.state == AppState::Init,
            r.running,
    {
        let Manifest { difftool, since: _, timezones, since_datetime, remotes, root } = manifest;
        let since = match since_datetime {
            Some(dt) => dt,
            None => {
                proof {
                    assert(false);
                }
                DateTime::from_epoch_seconds(0)
            },
        };
        let root_path = match root {
            Some(p) => p,
            None => {
                proof {
                    assert(false);
                }
                String::new()
            },
        };
        let ghost target = manifest.remotes@.map_values(
            |p: (String, Remote)| (p.0@, initial_repo(p.1)),
        );
        let mut repos = map_new();
        let mut remotes = remotes;
        let mut i: usize = 0;
        let n = remotes.len();
        while i < n
            invariant
                0 <= i <= n == remotes@.len(),
                remotes@ == manifest.remotes@,
                target == manifest.remotes@.map_values(
                    |p: (String, Remote)| (p.0@, initial_repo(p.1)),
                ),
                forall|p: int, q: int|
                    0 <= p < q < remotes@.len() ==> (#[trigger] remotes@[p]).0@ != (
                    #[trigger] remotes@[q]).0@,
                repo_entries(repos) == target.subrange(0, i as int),
            decreases n - i,
        {
            let (id, remote) = (remotes[i].0.clone(), remotes[i].1.clone());
            let repo = Repo::from_remote(remote);
            proof {
                let es = repo_entries(repos);
                lemma_find_key(es, id@);
                if find_key(es, id@) >= 0 {
                    let k = find_key(es, id@);
                    assert(es[k] == target.subrange(0, i as int)[k]);
                    assert(target[k].0 == manifest.remotes@[k].0@);
                    assert(manifest.remotes@[k].0@ != manifest.remotes@[i as int].0@);
                }
                assert(repo@.logs =~= Seq::<Log>::empty());
                assert(repo@ == initial_repo(remotes@[i as int].1));
                assert(target.subrange(0, i + 1) =~= target.subrange(0, i as int).push(
                    target[i as int],
                ));
                assert(target[i as int] == (manifest.remotes@[i as int].0@, initial_repo(
                    manifest.remotes@[i as int].1,
                )));
            }
            map_insert(&mut repos, id, repo);
            i = i + 1;
        }
        proof {
            assert(target.subrange(0, n as int) =~= target);
            assert forall|p: int, q: int|
                0 <= p < q < target.len() implies (#[trigger] target[p]).0 != (
            #[trigger] target[q]).0 by {
                assert(target[p].0 == manifest.remotes@[p].0@);
                assert(target[q].0 == manifest.remotes@[q].0@);
            }
            assert forall|i: int| 0 <= i < target.len() implies logs_valid(
                (#[trigger] target[i]).1,
            ) by {
                assert(target[i].1 == initial_repo(manifest.remotes@[i].1));
            }
        }
        App {
            calendar_state: CalendarState::from_datetime(&since),
            difftool,
            modal: SelectedModal::Hidden,
            repos,
            root_path,
            running: true,
            selected_pane: SelectedPane::Repos,
            since,
            state: AppState::Init,
            timezones: TimeZoneCast::from(timezones),
        }
    }
}

/// A permutation of entries with pairwise distinct identifiers has
/// pairwise distinct identifiers.
proof fn lemma_unique_keys_permutation(es1: Seq<(Seq<char>, RepoView)>, es2: Seq<
    (Seq<char>, RepoView),
>)
    requires
        keys_unique(es1),
        es2.to_multiset() == es1.to_multiset(),
    ensures
        keys_unique(es2),
{
    assert(es1.no_duplicates()) by {
        assert forall|i: int, j: int|
            0 <= i < es1.len() && 0 <= j < es1.len() && i != j implies es1[i] != es1[j] by {
            if i < j {
                assert(es1[i].0 != es1[j].0);
            } else {
                assert(es1[j].0 != es1[i].0);
            }
        }
    }
    es1.lemma_multiset_has_no_duplicates();
    es2.lemma_multiset_has_no_duplicates_conv();
    assert forall|p: int, q: int|
        0 <= p < q < es2.len() implies (#[trigger] es2[p]).0 != (#[trigger] es2[q]).0 by {
        if es2[p].0 == es2[q].0 {
            assert(es2[p] != es2[q]);
            assert(es2.contains(es2[p]) && es2.contains(es2[q]));
            assert(es1.to_multiset().count(es2[p]) > 0 && es1.to_multiset().count(es2[q]) > 0);
            assert(es1.contains(es2[p]) && es1.contains(es2[q]));
            let a = choose|a: int| 0 <= a < es1.len() && es1[a] == es2[p];
            let b = choose|b: int| 0 <= b < es1.len() && es1[b] == es2[q];
            assert(a != b);
            if a < b {
                assert(es1[a].0 != es1[b].0);
            } else {
                assert(es1[b].0 != es1[a].0);
            }
        }
    }
}

/// Sorts a read-out of the repository map into display order.  The
/// result holds the same entries, ordered by the repository comparator.
fn sort_pairs(src: Vec<(String, Repo)>) -> (out: Vec<(String, Repo)>)
    requires
        entries_valid(pair_views(src@)),
    ensures
        pair_views(out@).to_multiset() == pair_views(src@).to_multiset(),
        entries_sorted(pair_views(out@)),
        entries_valid(pair_views(out@)),
{
    let ghost orig = pair_views(src@);
    let mut src = src;
    let mut out: Vec<(String, Repo)> = Vec::new();
    proof {
        assert(pair_views(out@) =~= Seq::<(Seq<char>, RepoView)>::empty());
        assert(pair_views(out@).to_multiset().add(pair_views(src@).to_multiset())
            =~= orig.to_multiset());
    }
    while src.len() > 0
        invariant
            pair_views(out@).to_multiset().add(pair_views(src@).to_multiset())
                == orig.to_multiset(),
            entries_sorted(pair_views(out@)),
            entries_valid(pair_views(out@)),
            entries_valid(pair_views(src@)),
            forall|i: int, j: int|
                0 <= i < out@.len() && 0 <= j < src@.len() ==> repo_le(
                    (#[trigger] pair_views(out@)[i]).1,
                    (#[trigger] pair_views(src@)[j]).1,
                ),
        decreases src.len(),
    {
        let mut k: usize = 0;
        let mut j: usize = 1;
        proof {
            lemma_repo_le_total(pair_views(src@)[0].1, pair_views(src@)[0].1);
        }
        while j < src.len()
            invariant
                0 <= k < j <= src@.len(),
                entries_valid(pair_views(src@)),
                forall|t: int| 0 <= t < j ==> repo_le(
                    pair_views(src@)[k as int].1,
                    #[trigger] pair_views(src@)[t].1,
                ),
            decreases src@.len() - j,
        {
            if repo_sorts_before(&src[j].1, &src[k].1) {
                proof {
                    assert forall|t: int| 0 <= t < j + 1 implies repo_le(
                        pair_views(src@)[j as int].1,
                        #[trigger] pair_views(src@)[t].1,
                    ) by {
                        if t == j {
                            lemma_repo_le_total(
                                pair_views(src@)[j as int].1,
                                pair_views(src@)[j as int].1,
                            );
                        } else {
                            lemma_repo_le_trans(
                                pair_views(src@)[j as int].1,
                                pair_views(src@)[k as int].1,
                                pair_views(src@)[t].1,
                            );
                        }
                    }
                }
                k = j;
            } else {
                proof {
                    lemma_repo_le_total(pair_views(src@)[k as int].1, pair_views(src@)[j as int].1);
                }
            }
            j = j + 1;
        }
        let ghost src_before = src@;
        let ghost out_before = out@;
        let x = src.remove(k);
        proof {
            assert(pair_views(src@) =~= pair_views(src_before).remove(k as int));
            assert(pair_views(src_before)[k as int] == (x.0@, x.1@));
        }
        out.push(x);
        proof {
            assert(pair_views(out@) =~= pair_views(out_before).push((x.0@, x.1@)));
            let xa = (x.0@, x.1@);
            let mo = pair_views(out_before).to_multiset();
            let ms = pair_views(src_before).to_multiset();
            assert(pair_views(src_before).contains(xa));
            assert(ms.count(xa) > 0);
            assert(mo.insert(xa).add(ms.remove(xa)) =~= mo.add(ms));
            // Sorted order and validity carry over to the extended run.
            assert forall|i: int, j: int|
                0 <= i < j < pair_views(out@).len() implies repo_le(
                (#[trigger] pair_views(out@)[i]).1,
                (#[trigger] pair_views(out@)[j]).1,
            ) by {
                if j < pair_views(out_before).len() {
                } else {
                    assert(pair_views(out@)[j] == xa);
                }
            }
            assert forall|i: int, j: int|
                0 <= i < out@.len() && 0 <= j < src@.len() implies repo_le(
                (#[trigger] pair_views(out@)[i]).1,
                (#[trigger] pair_views(src@)[j]).1,
            ) by {
                let sj = if j < k as int {
                    j
                } else {
                    j + 1
                };
                assert(pair_views(src@)[j] == pair_views(src_before)[sj]);
                if i < out_before.len() {
                } else {
                    assert(pair_views(out@)[i] == xa);
                }
            }
            assert forall|i: int| 0 <= i < pair_views(out@).len() implies logs_valid(
                (#[trigger] pair_views(out@)[i]).1,
            ) by {
                if i == pair_views(out_before).len() {
                    assert(pair_views(out@)[i] == xa);
                }
            }
        }
    }
    proof {
        assert(pair_views(src@) =~= Seq::<(Seq<char>, RepoView)>::empty());
        assert(pair_views(out@).to_multiset().add(Multiset::<(Seq<char>, RepoView)>::empty())
            =~= pair_views(out@).to_multiset());
    }
    out
}

impl App {
    /// The position of `id` and a copy of its entity, when present.
    fn find_repo(&self, id: &String) -> (r: Option<(usize, Repo)>)
        requires
            keys_unique(self.entries()),
        ensures
            match r {
                Some(p) => {
                    &&& 0 <= find_key(self.entries(), id@) == p.0 < self.entries().len()
                    &&& p.1@ == self.entries()[p.0 as int].1
                },
                None => find_key(self.entries(), id@) == -1,
            },
    {
        let len = map_len(&self.repos);
        let mut i: usize = 0;
        while i < len
            invariant
                0 <= i <= len == self.entries().len(),
                keys_unique(self.entries()),
                forall|j: int| 0 <= j < i ==> (#[trigger] self.entries()[j]).0 != id@,
            decreases len - i,
        {
            let p = match map_get_index(&self.repos, i) {
                Some(p) => p,
                None => {
                    proof {
                        assert(false);
                    }
                    vstd::pervasive::unreached()
                },
            };
            if *p.0 == *id {
                proof {
                    lemma_find_key_unique(self.entries(), id@, i as int);
                }
                return Some((i, p.1.clone()));
            }
            i = i + 1;
        }
        proof {
            lemma_find_key(self.entries(), id@);
            if find_key(self.entries(), id@) >= 0 {
                assert(self.entries()[find_key(self.entries(), id@)].0 == id@);
            }
        }
        None
    }

    /// Sets the named repository's status.  An unknown identifier is
    /// ignored: it should not occur, and must not disturb the rest.
    pub fn update_repo_status(&mut self, id: String, status: RepoStatus)
        requires
            old(self).inv(),
        ensures
            final(self).inv(),
            ({
                let es = old(self).entries();
                let i = find_key(es, id@);
                final(self).entries() == if i >= 0 {
                    es.update(i, (es[i].0, RepoView { status, ..es[i].1 }))
                } else {
                    es
                }
            }),
            *final(self) == (App { repos: final(self).repos, ..*old(self) }),
    {
        match self.find_repo(&id) {
            Some((i, mut repo)) => {
                repo.status = status;
                proof {
                    let es = self.entries();
                    let k = find_key(es, id@);
                    lemma_find_key(es, id@);
                    assert(repo@ == RepoView { status, ..es[k].1 });
                    assert(es.update(k, (es[k].0, repo@)) =~= es.update(
                        k,
                        (es[k].0, RepoView { status, ..es[k].1 }),
                    ));
                }
                map_insert(&mut self.repos, id, repo);
                proof {
                    let es = old(self).entries();
                    let k = find_key(es, id@);
                    assert(keys_unique(self.entries())) by {
                        assert forall|p: int, q: int|
                            0 <= p < q < self.entries().len() implies (
                        #[trigger] self.entries()[p]).0 != (#[trigger] self.entries()[q]).0 by {
                            assert(self.entries()[p].0 == es[p].0);
                            assert(self.entries()[q].0 == es[q].0);
                        }
                    }
                    assert(entries_valid(self.entries())) by {
                        assert forall|t: int| 0 <= t < self.entries().len() implies logs_valid(
                            (#[trigger] self.entries()[t]).1,
                        ) by {
                            if t == k {
                                assert(self.entries()[t].1 == RepoView { status, ..es[k].1 });
                            } else {
                                assert(self.entries()[t].1 == es[t].1);
                            }
                        }
                    }
                }
            },
            None => {},
        }
    }

    /// Replaces the named repository's records, marks it `Finished`, and
    /// re-sorts the whole collection into display order.  This is the
    /// one operation that reorders the view.
    pub fn update_repo_logs(&mut self, id: String, logs: Vec<Log>)
        requires
            old(self).inv(),
            forall|i: int| 0 <= i < logs@.len() ==> (#[trigger] logs@[i]).commit_datetime.valid(),
        ensures
            final(self).inv(),
            entries_sorted(final(self).entries()),
            ({
                let es = old(self).entries();
                let i = find_key(es, id@);
                let es2 = if i >= 0 {
                    es.update(
                        i,
                        (es[i].0, RepoView { logs: logs@, status: RepoStatus::Finished, ..es[i].1 }),
                    )
                } else {
                    es
                };
                final(self).entries().to_multiset() == es2.to_multiset()
            }),
            *final(self) == (App { repos: final(self).repos, ..*old(self) }),
    {
        let ghost es0 = self.entries();
        match self.find_repo(&id) {
            Some((i, mut repo)) => {
                repo.logs = logs;
                repo.status = RepoStatus::Finished;
                proof {
                    let es = self.entries();
                    let k = find_key(es, id@);
                    lemma_find_key(es, id@);
                    assert(repo@ == RepoView {
                        logs: logs@,
                        status: RepoStatus::Finished,
                        ..es[k].1
                    });
                }
                map_insert(&mut self.repos, id, repo);
                proof {
                    let es = es0;
                    let k = find_key(es, id@);
                    let es2 = self.entries();
                    assert(keys_unique(es2)) by {
                        assert forall|p: int, q: int|
                            0 <= p < q < es2.len() implies (#[trigger] es2[p]).0 != (
                        #[trigger] es2[q]).0 by {
                            assert(es2[p].0 == es[p].0 && es2[q].0 == es[q].0);
                        }
                    }
                    assert(entries_valid(es2)) by {
                        assert forall|t: int| 0 <= t < es2.len() implies logs_valid(
                            (#[trigger] es2[t]).1,
                        ) by {
                            if t != k {
                                assert(es2[t].1 == es[t].1);
                            }
                        }
                    }
                }
            },
            None => {},
        }
        self.sort_repos();
    }

    /// A copy of the repository entries, in display order, for rendering
    /// and dispatch.
    pub fn repo_pairs(&self) -> (r: Vec<(String, Repo)>)
        ensures
            pair_views(r@) == self.entries(),
    {
        let ghost es0 = self.entries();
        let len = map_len(&self.repos);
        let mut pairs: Vec<(String, Repo)> = Vec::new();
        let mut i: usize = 0;
        proof {
            assert(pair_views(pairs@) =~= es0.subrange(0, 0));
        }
        while i < len
            invariant
                0 <= i <= len == es0.len(),
                es0 == self.entries(),
                pair_views(pairs@) == es0.subrange(0, i as int),
            decreases len - i,
        {
            let p = match map_get_index(&self.repos, i) {
                Some(p) => p,
                None => {
                    proof {
                        assert(false);
                    }
                    vstd::pervasive::unreached()
                },
            };
            let pair = (p.0.clone(), p.1.clone());
            proof {
                assert(pair_views(pairs@.push(pair)) =~= pair_views(pairs@).push(
                    (pair.0@, pair.1@),
                ));
                assert(es0.subrange(0, i + 1) =~= es0.subrange(0, i as int).push(es0[i as int]));
            }
            pairs.push(pair);
            i = i + 1;
        }
        proof {
            assert(es0.subrange(0, len as int) =~= es0);
        }
        pairs
    }

    /// Re-sorts the repository collection into display order, keeping
    /// exactly the same entries.
    pub fn sort_repos(&mut self)
        requires
            keys_unique(old(self).entries()),
            entries_valid(old(self).entries()),
        ensures
            keys_unique(final(self).entries()),
            entries_valid(final(self).entries()),
            entries_sorted(final(self).entries()),
            final(self).entries().to_multiset() == old(self).entries().to_multiset(),
            *final(self) == (App { repos: final(self).repos, ..*old(self) }),
    {
        let ghost es0 = self.entries();
        let len = map_len(&self.repos);
        let mut pairs: Vec<(String, Repo)> = Vec::new();
        let mut i: usize = 0;
        proof {
            assert(pair_views(pairs@) =~= es0.subrange(0, 0));
        }
        while i < len
            invariant
                0 <= i <= len == es0.len(),
                es0 == self.entries(),
                pair_views(pairs@) == es0.subrange(0, i as int),
            decreases len - i,
        {
            let p = match map_get_index(&self.repos, i) {
                Some(p) => p,
                None => {
                    proof {
                        assert(false);
                    }
                    vstd::pervasive::unreached()
                },
            };
            let pair = (p.0.clone(), p.1.clone());
            proof {
                assert(pair_views(pairs@.push(pair)) =~= pair_views(pairs@).push(
                    (pair.0@, pair.1@),
                ));
                assert(es0.subrange(0, i + 1) =~= es0.subrange(0, i as int).push(es0[i as int]));
            }
            pairs.push(pair);
            i = i + 1;
        }
        proof {
            assert(es0.subrange(0, len as int) =~= es0);
            assert(entries_valid(pair_views(pairs@)));
        }
        let sorted = sort_pairs(pairs);
        proof {
            lemma_unique_keys_permutation(es0, pair_views(sorted@));
        }
        let mut m2 = map_new();
        let mut sorted = sorted;
        let ghost sv = pair_views(sorted@);
        let n = sorted.len();
        let mut j: usize = 0;
        while j < n
            invariant
                0 <= j <= n == sorted@.len(),
                sv == pair_views(sorted@),
                keys_unique(sv),
                repo_entries(m2) == sv.subrange(0, j as int),
            decreases n - j,
        {
            let (key, value) = (sorted[j].0.clone(), sorted[j].1.clone());
            proof {
                let es = repo_entries(m2);
                lemma_find_key(es, key@);
                if find_key(es, key@) >= 0 {
                    let t = find_key(es, key@);
                    assert(es[t] == sv.subrange(0, j as int)[t]);
                    assert(sv[t].0 == sv[j as int].0);
                }
                assert((key@, value@) == sv[j as int]);
                assert(sv.subrange(0, j + 1) =~= sv.subrange(0, j as int).push(sv[j as int]));
            }
            map_insert(&mut m2, key, value);
            j = j + 1;
        }
        proof {
            assert(sv.subrange(0, n as int) =~= sv);
        }
        self.repos = m2;
    }

    /// Returns every repository to `Checking`, ready for a fresh
    /// dispatch cycle; names, origins and records are untouched.
    pub fn reset_statuses(&mut self)
        requires
            old(self).inv(),
        ensures
            final(self).inv(),
            final(self).entries().len() == old(self).entries().len(),
            forall|i: int|
                0 <= i < old(self).entries().len() ==> #[trigger] final(self).entries()[i] == ((
                old(self).entries()[i].0,
                RepoView { status: RepoStatus::Checking, ..old(self).entries()[i].1 },
                )),
            *final(self) == (App { repos: final(self).repos, ..*old(self) }),
    {
        let ghost es0 = self.entries();
        let len = map_len(&self.repos);
        let mut i: usize = 0;
        while i < len
            invariant
                0 <= i <= len == es0.len(),
                self.entries().len() == es0.len(),
                forall|j: int|
                    0 <= j < i ==> #[trigger] self.entries()[j] == (
                    es0[j].0,
                    RepoView { status: RepoStatus::Checking, ..es0[j].1 },
                    ),
                forall|j: int| i <= j < es0.len() ==> #[trigger] self.entries()[j] == es0[j],
                keys_unique(self.entries()),
                entries_valid(self.entries()),
                *self == (App { repos: self.repos, ..*old(self) }),
            decreases len - i,
        {
            let ghost cur = self.entries();
            let p = match map_get_index(&self.repos, i) {
                Some(p) => p,
                None => {
                    proof {
                        assert(false);
                    }
                    vstd::pervasive::unreached()
                },
            };
            let key = p.0.clone();
            let mut repo = p.1.clone();
            repo.status = RepoStatus::Checking;
            proof {
                lemma_find_key_unique(cur, key@, i as int);
                assert(repo@ == RepoView { status: RepoStatus::Checking, ..cur[i as int].1 });
            }
            map_insert(&mut self.repos, key, repo);
            proof {
                assert forall|j: int|
                    0 <= j < i + 1 implies #[trigger] self.entries()[j] == (
                es0[j].0,
                RepoView { status: RepoStatus::Checking, ..es0[j].1 },
                ) by {
                    if j < i {
                        assert(self.entries()[j] == cur[j]);
                    } else {
                        assert(cur[i as int].0 == es0[i as int].0 && cur[i as int].1
                            == es0[i as int].1);
                    }
                }
                assert forall|p2: int, q: int|
                    0 <= p2 < q < self.entries().len() implies (#[trigger] self.entries()[p2]).0
                    != (#[trigger] self.entries()[q]).0 by {
                    assert(self.entries()[p2].0 == cur[p2].0);
                    assert(self.entries()[q].0 == cur[q].0);
                }
                assert forall|t: int| 0 <= t < self.entries().len() implies logs_valid(
                    (#[trigger] self.entries()[t]).1,
                ) by {
                    if t == i {
                        assert(self.entries()[t].1 == RepoView {
                            status: RepoStatus::Checking,
                            ..cur[i as int].1
                        });
                    } else {
                        assert(self.entries()[t].1 == cur[t].1);
                    }
                }
            }
            i = i + 1;
        }
    }

    /// Marks the application as having dispatched a refresh; the caller
    /// dispatches the jobs when this flips the state.
    pub fn begin_checking(&mut self) -> (started: bool)
        requires
            old(self).inv(),
        ensures
            final(self).inv(),
            started == (old(self).state == AppState::Init),
            final(self).state == AppState::Checking <== started,
            !started ==> *final(self) == *old(self),
            final(self).entries() == old(self).entries(),
            final(self).since == old(self).since,
    {
        match self.state {
            AppState::Init => {
                self.state = AppState::Checking;
                true
            },
            AppState::Checking => false,
        }
    }

    /// Returns every repository to `Checking` and the application to its
    /// initial state, enabling a fresh dispatch cycle.  It is for the
    /// caller to invoke this only once no job of the previous cycle is
    /// still writing.
    pub fn reset(&mut self)
        requires
            old(self).inv(),
        ensures
            final(self).inv(),
            final(self).state == AppState::Init,
            final(self).entries().len() == old(self).entries().len(),
            forall|i: int|
                0 <= i < old(self).entries().len() ==> #[trigger] final(self).entries()[i] == ((
                old(self).entries()[i].0,
                RepoView { status: RepoStatus::Checking, ..old(self).entries()[i].1 },
                )),
            *final(self) == (App {
                repos: final(self).repos,
                state: AppState::Init,
                ..*old(self)
            }),
    {
        self.reset_statuses();
        self.state = AppState::Init;
    }

    /// Applies one event from the shared channel: a status change sets
    /// the named repository's status, a completion installs its records,
    /// marks the repository `Finished` and re-sorts the view.  An event
    /// naming an unknown repository leaves every entry as it was.
    pub fn update(&mut self, event: Event)
        requires
            old(self).inv(),
            event matches Event::RepoStatusComplete(_, logs) ==> forall|i: int|
                0 <= i < logs@.len() ==> (#[trigger] logs@[i]).commit_datetime.valid(),
        ensures
            final(self).inv(),
            ({
                let es = old(self).entries();
                match event {
                    Event::RepoStatusChange(id, status) => {
                        let i = find_key(es, id@);
                        final(self).entries() == if i >= 0 {
                            es.update(i, (es[i].0, RepoView { status, ..es[i].1 }))
                        } else {
                            es
                        }
                    },
                    Event::RepoStatusComplete(id, logs) => {
                        let i = find_key(es, id@);
                        let es2 = if i >= 0 {
                            es.update(
                                i,
                                (
                                    es[i].0,
                                    RepoView {
                                        logs: logs@,
                                        status: RepoStatus::Finished,
                                        ..es[i].1
                                    },
                                ),
                            )
                        } else {
                            es
                        };
                        entries_sorted(final(self).entries()) && final(self).entries().to_multiset()
                            == es2.to_multiset()
                    },
                }
            }),
            *final(self) == (App { repos: final(self).repos, ..*old(self) }),
    {
        match event {
            Event::RepoStatusChange(id, status) => self.update_repo_status(id, status),
            Event::RepoStatusComplete(id, logs) => self.update_repo_logs(id, logs),
        }
    }
}

} // verus!
