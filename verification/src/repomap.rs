//! The ordered repository map.  The aggregator keeps its repositories in
//! an insertion-ordered map from identifier to entity; the map itself
//! comes from the `indexmap` crate, so its behaviour is stated here as
//! trusted contracts over the abstract entry sequence `repo_entries`.
use crate::repo::{Repo, RepoView};
use indexmap::IndexMap;
use vstd::prelude::*;

verus! {

/// Relies on `indexmap::IndexMap`, the insertion-ordered hash map the
/// aggregator keeps its repositories in; its values are opaque here and
/// described only through `repo_entries`.
#[verifier::external_type_specification]
#[verifier::external_body]
#[verifier::reject_recursive_types(K)]
#[verifier::reject_recursive_types(V)]
#[verifier::reject_recursive_types(S)]
pub struct ExIndexMap<K, V, S>(IndexMap<K, V, S>);

/// What a repository map holds: its key/value pairs in order, keys by
/// their character content — the content is what the map's key equality
/// compares.
pub uninterp spec fn repo_entries(m: IndexMap<String, Repo>) -> Seq<(Seq<char>, RepoView)>;

/// Index of the first entry with key `k`, or `-1` when no entry has it.
pub open spec fn find_key(es: Seq<(Seq<char>, RepoView)>, k: Seq<char>) -> int
    decreases es.len(),
{
    if es.len() == 0 {
        -1
    } else if es[0].0 == k {
        0
    } else {
        let r = find_key(es.drop_first(), k);
        if r == -1 {
            -1
        } else {
            r + 1
        }
    }
}

/// The entry `find_key` points at has the key looked for; a negative
/// answer means no entry has it.
pub proof fn lemma_find_key(es: Seq<(Seq<char>, RepoView)>, k: Seq<char>)
    ensures
        find_key(es, k) >= -1,
        find_key(es, k) >= 0 ==> find_key(es, k) < es.len() && es[find_key(es, k)].0 == k,
        find_key(es, k) == -1 ==> forall|i: int| 0 <= i < es.len() ==> (#[trigger] es[i]).0 != k,
    decreases es.len(),
{
    if es.len() > 0 && es[0].0 != k {
        lemma_find_key(es.drop_first(), k);
        if find_key(es, k) == -1 {
            assert forall|i: int| 0 <= i < es.len() implies (#[trigger] es[i]).0 != k by {
                if i > 0 {
                    assert(es.drop_first()[i - 1] == es[i]);
                }
            }
        }
    }
}

/// In a map whose keys are pairwise distinct, `find_key` finds exactly
/// the entry that carries `k`.
pub proof fn lemma_find_key_unique(es: Seq<(Seq<char>, RepoView)>, k: Seq<char>, i: int)
    requires
        0 <= i < es.len(),
        es[i].0 == k,
        forall|p: int, q: int|
            0 <= p < q < es.len() ==> (#[trigger] es[p]).0 != (#[trigger] es[q]).0,
    ensures
        find_key(es, k) == i,
    decreases es.len(),
{
    if es[0].0 == k {
        if i != 0 {
            assert(es[0].0 == es[i].0);
        }
    } else {
        let tail = es.drop_first();
        assert(tail[i - 1] == es[i]);
        assert forall|p: int, q: int|
            0 <= p < q < tail.len() implies (#[trigger] tail[p]).0 != (#[trigger] tail[q]).0 by {
            assert(tail[p] == es[p + 1] && tail[q] == es[q + 1]);
        }
        lemma_find_key_unique(tail, k, i - 1);
    }
}

/// Relies on `indexmap::IndexMap::new`: the new map holds nothing.
#[verifier::external_body]
pub fn map_new() -> (m: IndexMap<String, Repo>)
    ensures
        repo_entries(m) == Seq::<(Seq<char>, RepoView)>::empty(),
{
    IndexMap::new()
}

/// Relies on `indexmap::IndexMap::len`: the number of entries.
#[verifier::external_body]
pub fn map_len(m: &IndexMap<String, Repo>) -> (n: usize)
    ensures
        n == repo_entries(*m).len(),
{
    m.len()
}

/// Relies on `indexmap::IndexMap::insert`: a key already present keeps
/// its place in the order and takes the new value; an absent key is
/// appended, last in order.
#[verifier::external_body]
pub fn map_insert(m: &mut IndexMap<String, Repo>, k: String, v: Repo)
    ensures
        ({
            let es = repo_entries(*old(m));
            let i = find_key(es, k@);
            repo_entries(*final(m)) == if i >= 0 {
                es.update(i, (es[i].0, v@))
            } else {
                es.push((k@, v@))
            }
        }),
{
    m.insert(k, v);
}

/// Relies on `indexmap::IndexMap::get_index`: the entry at a position,
/// in the map's order.
#[verifier::external_body]
pub fn map_get_index<'a>(m: &'a IndexMap<String, Repo>, i: usize) -> (r: Option<
    (&'a String, &'a Repo),
>)
    ensures
        match r {
            Some(p) => i < repo_entries(*m).len() && p.0@ == repo_entries(*m)[i as int].0 && p.1@
                == repo_entries(*m)[i as int].1,
            None => i >= repo_entries(*m).len(),
        },
{
    m.get_index(i)
}

} // verus!
