//! What holds of every walk: theorems about the steps of the revision walker.
use crate::db::load_commit;
use crate::db::load_tree;
use crate::db::FileView;
use crate::db::ObjectView;
use crate::objects::commit::CommitView;
use crate::objects::tree::EntryView;
use crate::objects::tree::ItemView;
use crate::priority_queue::ascending;
use crate::priority_queue::insert_position;
use crate::priority_queue::lemma_insert_position;
use crate::refs::resolve;
use crate::refs::RefView;
use crate::revision::add_parent;
use crate::revision::add_parent_list;
use crate::revision::add_parents;
use crate::revision::commit_phase;
use crate::revision::commit_rank;
use crate::revision::empty_walk;
use crate::revision::enqueue;
use crate::revision::expand_children;
use crate::revision::expand_item;
use crate::revision::frontier_ranks;
use crate::revision::join_path;
use crate::revision::lookup_path;
use crate::revision::mark_seen;
use crate::revision::record_path;
use crate::revision::start_point;
use crate::revision::start_points;
use crate::revision::step;
use crate::revision::tree_phase;
use crate::revision::OutputView;
use crate::revision::WalkView;
use vstd::prelude::*;

verus! {

/// How a state `r` relates to an earlier state `w` that a tree was expanded
/// from: the frontier and the added list are untouched; nothing is forgotten
/// from the seen list; every recorded path stays as it is; and the pending
/// entries have grown at the front by entries that were not seen in `w`, are
/// seen in `r`, and differ from each other.
pub open spec fn grows(w: WalkView, r: WalkView) -> bool {
    let d = r.pending.len() - w.pending.len();
    &&& r.frontier == w.frontier
    &&& r.added == w.added
    &&& w.seen.len() <= r.seen.len()
    &&& forall|x: Seq<char>| w.seen.contains(x) ==> r.seen.contains(x)
    &&& forall|x: Seq<char>| #[trigger]
        lookup_path(w.paths, x) is Some ==> lookup_path(r.paths, x) == lookup_path(w.paths, x)
    &&& d >= 0
    &&& r.pending.skip(d) == w.pending
    &&& forall|i: int|
        0 <= i < d ==> !w.seen.contains(#[trigger] r.pending[i].id) && r.seen.contains(
            r.pending[i].id,
        )
    &&& forall|i: int, j: int|
        0 <= i < j < d ==> (#[trigger] r.pending[i]).id != (#[trigger] r.pending[j]).id
    &&& w.seen.no_duplicates() ==> r.seen.no_duplicates()
    &&& path_keys(w.paths).no_duplicates() ==> path_keys(r.paths).no_duplicates()
}

/// The identifiers that paths are recorded for, in the order of the records.
pub open spec fn path_keys(paths: Seq<(Seq<char>, Seq<char>)>) -> Seq<Seq<char>> {
    Seq::new(paths.len(), |i: int| paths[i].0)
}

/// An identifier without a recorded path is not among the keys.
pub proof fn lemma_lookup_none(paths: Seq<(Seq<char>, Seq<char>)>, id: Seq<char>)
    requires
        lookup_path(paths, id) is None,
    ensures
        !path_keys(paths).contains(id),
    decreases paths.len(),
{
    if paths.len() > 0 {
        lemma_lookup_none(paths.drop_first(), id);
        if path_keys(paths).contains(id) {
            let k = choose|k: int| 0 <= k < paths.len() && path_keys(paths)[k] == id;
            assert(path_keys(paths.drop_first())[k - 1] == id);
        }
    }
}

/// A sequence without duplicates stays so when a new element joins its end.
pub proof fn lemma_push_no_duplicates(s: Seq<Seq<char>>, x: Seq<char>)
    requires
        s.no_duplicates(),
        !s.contains(x),
    ensures
        s.push(x).no_duplicates(),
{
    let r = s.push(x);
    assert forall|i: int, j: int| 0 <= i < r.len() && 0 <= j < r.len() && i != j implies r[i]
        != r[j] by {
        if i < s.len() && j < s.len() {
            assert(r[i] == s[i] && r[j] == s[j]);
        } else if i < s.len() {
            assert(s.contains(s[i]));
        } else {
            assert(s.contains(s[j]));
        }
    }
}

/// A state grows from itself.
pub proof fn lemma_grows_reflexive(w: WalkView)
    ensures
        grows(w, w),
{
    assert(w.pending.skip(0) =~= w.pending);
}

/// Growth composes.
pub proof fn lemma_grows_transitive(a: WalkView, b: WalkView, c: WalkView)
    requires
        grows(a, b),
        grows(b, c),
    ensures
        grows(a, c),
{
    let d1 = b.pending.len() - a.pending.len();
    let d2 = c.pending.len() - b.pending.len();
    let d = d1 + d2;
    assert(c.pending.skip(d) =~= a.pending) by {
        assert(c.pending.skip(d2) == b.pending);
        assert(b.pending.skip(d1) == a.pending);
        assert(c.pending.skip(d2).skip(d1) =~= c.pending.skip(d));
    }
    assert forall|i: int| 0 <= i < d implies !a.seen.contains(#[trigger] c.pending[i].id)
        && c.seen.contains(c.pending[i].id) by {
        if i >= d2 {
            assert(c.pending.skip(d2)[i - d2] == c.pending[i]);
            assert(b.pending[i - d2] == c.pending[i]);
        }
    }
    assert forall|i: int, j: int| 0 <= i < j < d implies (#[trigger] c.pending[i]).id != (
    #[trigger] c.pending[j]).id by {
        if j >= d2 {
            assert(c.pending.skip(d2)[j - d2] == c.pending[j]);
            assert(b.pending[j - d2] == c.pending[j]);
            if i >= d2 {
                assert(c.pending.skip(d2)[i - d2] == c.pending[i]);
                assert(b.pending[i - d2] == c.pending[i]);
            } else {
                assert(!b.seen.contains(c.pending[i].id));
                assert(b.seen.contains(b.pending[j - d2].id));
            }
        }
    }
    assert forall|x: Seq<char>| #[trigger] lookup_path(a.paths, x) is Some implies lookup_path(
        c.paths,
        x,
    ) == lookup_path(a.paths, x) by {
        assert(lookup_path(b.paths, x) == lookup_path(a.paths, x));
    }
}

/// What a lookup finds after one more path was recorded at the end.
pub proof fn lemma_lookup_push(
    paths: Seq<(Seq<char>, Seq<char>)>,
    entry: (Seq<char>, Seq<char>),
    id: Seq<char>,
)
    ensures
        lookup_path(paths.push(entry), id) == if lookup_path(paths, id) is Some {
            lookup_path(paths, id)
        } else if entry.0 == id {
            Some(entry.1)
        } else {
            None
        },
    decreases paths.len(),
{
    let pushed = paths.push(entry);
    if paths.len() == 0 {
        assert(pushed.drop_first() =~= Seq::<(Seq<char>, Seq<char>)>::empty());
    } else {
        assert(pushed.drop_first() =~= paths.drop_first().push(entry));
        assert(pushed[0] == paths[0]);
        if paths[0].0 != id {
            lemma_lookup_push(paths.drop_first(), entry, id);
        }
    }
}

/// Recording a path changes only the paths, and none that was recorded before.
pub proof fn lemma_record_path_grows(w: WalkView, id: Seq<char>, path: Seq<char>)
    ensures
        grows(w, record_path(w, id, path)),
        lookup_path(record_path(w, id, path).paths, id) is Some,
{
    let r = record_path(w, id, path);
    assert(r.pending.skip(0) =~= w.pending);
    lemma_lookup_push(w.paths, (id, path), id);
    if lookup_path(w.paths, id) is None && path_keys(w.paths).no_duplicates() {
        lemma_lookup_none(w.paths, id);
        lemma_push_no_duplicates(path_keys(w.paths), id);
        assert(path_keys(r.paths) =~= path_keys(w.paths).push(id));
    }
    assert forall|x: Seq<char>| #[trigger] lookup_path(w.paths, x) is Some implies lookup_path(
        r.paths,
        x,
    ) == lookup_path(w.paths, x) by {
        lemma_lookup_push(w.paths, (id, path), x);
    }
}

/// Expanding an entry only lets the state grow, and leaves a path recorded for
/// the entry.
pub proof fn lemma_expand_item_grows(
    files: Seq<FileView>,
    w: WalkView,
    item: ItemView,
    path: Seq<char>,
)
    ensures
        grows(w, expand_item(files, w, item, path)),
        lookup_path(expand_item(files, w, item, path).paths, item.id) is Some,
    decreases
            if w.seen.len() >= usize::MAX {
                0
            } else {
                usize::MAX - w.seen.len()
            },
            1int,
            0int,
{
    let recorded = record_path(w, item.id, path);
    lemma_record_path_grows(w, item.id, path);
    if item.is_tree() {
        match load_tree(files, item.id) {
            None => {},
            Some(entries) => {
                lemma_expand_children_grows(files, recorded, entries, entries.len() as int, path);
                lemma_grows_transitive(
                    w,
                    recorded,
                    expand_children(files, recorded, entries, entries.len() as int, path),
                );
            },
        }
    }
}

/// Expanding the entries of a directory only lets the state grow.
pub proof fn lemma_expand_children_grows(
    files: Seq<FileView>,
    w: WalkView,
    entries: Seq<EntryView>,
    k: int,
    path: Seq<char>,
)
    ensures
        grows(w, expand_children(files, w, entries, k, path)),
    decreases
            if w.seen.len() >= usize::MAX {
                0
            } else {
                usize::MAX - w.seen.len()
            },
            0int,
            k,
{
    if k <= 0 || k > entries.len() {
        lemma_grows_reflexive(w);
    } else {
        let (name, child) = entries[k - 1];
        if w.seen.contains(child.id) {
            lemma_expand_children_grows(files, w, entries, k - 1, path);
        } else if w.seen.len() >= usize::MAX {
            lemma_grows_reflexive(w);
        } else {
            let marked = mark_seen(w, child.id);
            let expanded = expand_item(files, marked, child, join_path(path, name));
            let queued = WalkView { pending: seq![child] + expanded.pending, ..expanded };
            lemma_expand_item_grows(files, marked, child, join_path(path, name));
            lemma_mark_then_queue_grows(w, child, expanded);
            if queued.seen.len() >= w.seen.len() {
                lemma_expand_children_grows(files, queued, entries, k - 1, path);
                lemma_grows_transitive(
                    w,
                    queued,
                    expand_children(files, queued, entries, k - 1, path),
                );
            }
        }
    }
}

/// Marking an entry, growing from there, and then queueing the entry at the
/// front is growth from the state before the mark.
pub proof fn lemma_mark_then_queue_grows(w: WalkView, child: ItemView, expanded: WalkView)
    requires
        !w.seen.contains(child.id),
        grows(mark_seen(w, child.id), expanded),
    ensures
        grows(w, WalkView { pending: seq![child] + expanded.pending, ..expanded }),
{
    let marked = mark_seen(w, child.id);
    let queued = WalkView { pending: seq![child] + expanded.pending, ..expanded };
    let d1 = expanded.pending.len() - w.pending.len();
    let d = d1 + 1;
    if w.seen.no_duplicates() {
        lemma_push_no_duplicates(w.seen, child.id);
    }
    assert(marked.seen.last() == child.id);
    assert(marked.seen.contains(child.id));
    assert forall|x: Seq<char>| w.seen.contains(x) implies queued.seen.contains(x) by {
        let i = choose|i: int| 0 <= i < w.seen.len() && w.seen[i] == x;
        assert(marked.seen[i] == x);
        assert(marked.seen.contains(x));
    }
    assert(queued.pending.skip(d) =~= w.pending) by {
        assert(expanded.pending.skip(d1) == marked.pending);
        assert(queued.pending.skip(d) =~= expanded.pending.skip(d1));
    }
    assert forall|i: int| 0 <= i < d implies !w.seen.contains(#[trigger] queued.pending[i].id)
        && queued.seen.contains(queued.pending[i].id) by {
        if i > 0 {
            assert(queued.pending[i] == expanded.pending[i - 1]);
            assert(!marked.seen.contains(expanded.pending[i - 1].id));
            if w.seen.contains(queued.pending[i].id) {
                let k = choose|k: int| 0 <= k < w.seen.len() && w.seen[k] == queued.pending[i].id;
                assert(marked.seen[k] == queued.pending[i].id);
            }
        }
    }
    assert forall|i: int, j: int| 0 <= i < j < d implies (#[trigger] queued.pending[i]).id != (
    #[trigger] queued.pending[j]).id by {
        assert(queued.pending[j] == expanded.pending[j - 1]);
        assert(!marked.seen.contains(expanded.pending[j - 1].id));
        if i > 0 {
            assert(queued.pending[i] == expanded.pending[i - 1]);
        }
    }
}

/// The state of a walk after `n` steps from `w`.
pub open spec fn run(files: Seq<FileView>, w: WalkView, n: nat) -> WalkView
    decreases n,
{
    if n == 0 {
        w
    } else {
        step(files, run(files, w, (n - 1) as nat)).0
    }
}

/// What the step after the first `n` steps from `w` hands out.
pub open spec fn output_at(files: Seq<FileView>, w: WalkView, n: nat) -> Option<OutputView> {
    step(files, run(files, w, n)).1
}

/// Whether the frontier of `w` holds the commit `id`.
pub open spec fn in_frontier(w: WalkView, id: Seq<char>) -> bool {
    exists|k: int| 0 <= k < w.frontier.len() && (#[trigger] w.frontier[k]).0 == id
}

/// Whether the commit `id` was found and is no longer in the frontier.
pub open spec fn retired(w: WalkView, id: Seq<char>) -> bool {
    w.seen.contains(id) && !in_frontier(w, id)
}

/// The invariant of a walk: the commits of the frontier ascend by rank, each
/// of them was marked as seen, and no identifier occurs twice in the
/// frontier, in the seen list, in the added list, or among the recorded paths.
pub open spec fn sound(w: WalkView) -> bool {
    &&& ascending(frontier_ranks(w.frontier))
    &&& forall|k: int| 0 <= k < w.frontier.len() ==> w.seen.contains((#[trigger] w.frontier[k]).0)
    &&& forall|i: int, j: int|
        0 <= i < j < w.frontier.len() ==> (#[trigger] w.frontier[i]).0 != (
        #[trigger] w.frontier[j]).0
    &&& w.seen.no_duplicates()
    &&& w.added.no_duplicates()
    &&& path_keys(w.paths).no_duplicates()
}

/// How a state `r` relates to an earlier state `w` that commits were offered
/// to: the tree side is untouched, nothing is forgotten from the seen list,
/// the invariant of the walk is kept, and a commit that had left the
/// frontier has not come back.
pub open spec fn advances(w: WalkView, r: WalkView) -> bool {
    &&& r.pending == w.pending
    &&& r.paths == w.paths
    &&& r.added == w.added
    &&& forall|x: Seq<char>| w.seen.contains(x) ==> r.seen.contains(x)
    &&& sound(w) ==> sound(r)
    &&& forall|x: Seq<char>| #[trigger] retired(w, x) ==> retired(r, x)
}

/// Offering a commit to the frontier advances the state.
pub proof fn lemma_enqueue_advances(w: WalkView, id: Seq<char>, commit: CommitView)
    ensures
        advances(w, enqueue(w, id, commit)),
{
    let r = enqueue(w, id, commit);
    if !w.seen.contains(id) {
        let ranks = frontier_ranks(w.frontier);
        let rank = commit_rank(commit);
        let p = insert_position(ranks, rank);
        assert forall|x: Seq<char>| w.seen.contains(x) implies r.seen.contains(x) by {
            let i = choose|i: int| 0 <= i < w.seen.len() && w.seen[i] == x;
            assert(r.seen[i] == x);
        }
        assert(r.seen.last() == id);
        if sound(w) {
            lemma_push_no_duplicates(w.seen, id);
            lemma_insert_position(ranks, rank);
            assert(frontier_ranks(r.frontier) =~= ranks.insert(p, rank));
            assert forall|k: int| 0 <= k < r.frontier.len() implies r.seen.contains(
                (#[trigger] r.frontier[k]).0,
            ) by {
                if k < p {
                    assert(r.frontier[k] == w.frontier[k]);
                } else if k > p {
                    assert(r.frontier[k] == w.frontier[k - 1]);
                }
            }
            assert forall|i: int, j: int| 0 <= i < j < r.frontier.len() implies (
            #[trigger] r.frontier[i]).0 != (#[trigger] r.frontier[j]).0 by {
                let a = if i < p {
                    i
                } else {
                    i - 1
                };
                let b = if j < p {
                    j
                } else {
                    j - 1
                };
                if i != p {
                    assert(r.frontier[i] == w.frontier[a]);
                    assert(w.seen.contains(w.frontier[a].0));
                }
                if j != p {
                    assert(r.frontier[j] == w.frontier[b]);
                    assert(w.seen.contains(w.frontier[b].0));
                }
            }
        }
        assert forall|x: Seq<char>| #[trigger] retired(w, x) implies retired(r, x) by {
            if in_frontier(r, x) {
                let k = choose|k: int| 0 <= k < r.frontier.len() && (#[trigger] r.frontier[k]).0
                    == x;
                if sound(w) {
                    lemma_insert_position(ranks, rank);
                }
                lemma_insert_position_bounds(ranks, rank);
                if k < p {
                    assert(r.frontier[k] == w.frontier[k]);
                } else if k > p {
                    assert(r.frontier[k] == w.frontier[k - 1]);
                }
            }
        }
    }
}

/// The insert position lies within the sequence.
pub proof fn lemma_insert_position_bounds(ranks: Seq<int>, r: int)
    ensures
        0 <= insert_position(ranks, r) <= ranks.len(),
    decreases ranks.len(),
{
    if ranks.len() > 0 && ranks.last() >= r {
        lemma_insert_position_bounds(ranks.drop_last(), r);
    }
}

/// Advancing composes.
pub proof fn lemma_advances_transitive(a: WalkView, b: WalkView, c: WalkView)
    requires
        advances(a, b),
        advances(b, c),
    ensures
        advances(a, c),
{
    assert forall|x: Seq<char>| #[trigger] retired(a, x) implies retired(c, x) by {
        assert(retired(b, x));
    }
}

/// Looking at a list of parents advances the state.
pub proof fn lemma_add_parent_list_advances(
    files: Seq<FileView>,
    w: WalkView,
    ids: Seq<Seq<char>>,
)
    ensures
        advances(w, add_parent_list(files, w, ids)),
    decreases ids.len(),
{
    if ids.len() > 0 {
        let before = add_parent_list(files, w, ids.drop_last());
        lemma_add_parent_list_advances(files, w, ids.drop_last());
        let id = ids.last();
        if !before.seen.contains(id) {
            if let Some(commit) = load_commit(files, id) {
                lemma_enqueue_advances(before, id, commit);
            }
        }
        lemma_advances_transitive(w, before, add_parent(files, before, id));
    }
}

/// The commit phase keeps the invariant of the walk, forgets nothing that
/// was seen, retires the commit it hands out, and keeps every other retired
/// commit retired.
pub proof fn lemma_commit_phase(files: Seq<FileView>, w: WalkView)
    requires
        w.frontier.len() > 0,
    ensures
        sound(w) ==> sound(commit_phase(files, w).0),
        sound(w) ==> retired(commit_phase(files, w).0, commit_phase(files, w).1.id),
        forall|x: Seq<char>| #[trigger] retired(w, x) ==> retired(commit_phase(files, w).0, x),
        forall|x: Seq<char>| w.seen.contains(x) ==> commit_phase(files, w).0.seen.contains(x),
        commit_phase(files, w).0.paths == w.paths,
{
    let (id, commit) = w.frontier.last();
    let popped = WalkView { frontier: w.frontier.drop_last(), ..w };
    let opened = WalkView { added: popped.added.push(id), ..popped };
    let grown = add_parents(files, popped, id, commit);
    assert(w.frontier[w.frontier.len() - 1].0 == id);
    if sound(w) {
        assert(frontier_ranks(popped.frontier) =~= frontier_ranks(w.frontier).drop_last());
        assert forall|k: int| 0 <= k < popped.frontier.len() implies popped.seen.contains(
            (#[trigger] popped.frontier[k]).0,
        ) by {
            assert(popped.frontier[k] == w.frontier[k]);
        }
        assert forall|i: int, j: int| 0 <= i < j < popped.frontier.len() implies (
        #[trigger] popped.frontier[i]).0 != (#[trigger] popped.frontier[j]).0 by {
            assert(popped.frontier[i] == w.frontier[i]);
            assert(popped.frontier[j] == w.frontier[j]);
        }
        assert(!in_frontier(popped, id)) by {
            if in_frontier(popped, id) {
                let k = choose|k: int| 0 <= k < popped.frontier.len() && (
                #[trigger] popped.frontier[k]).0 == id;
                assert(popped.frontier[k] == w.frontier[k]);
            }
        }
        assert(retired(popped, id));
    }
    assert forall|x: Seq<char>| #[trigger] retired(w, x) implies retired(popped, x) by {
        if in_frontier(popped, x) {
            let k = choose|k: int| 0 <= k < popped.frontier.len() && (
            #[trigger] popped.frontier[k]).0 == x;
            assert(w.frontier[k] == popped.frontier[k]);
        }
    }
    if sound(popped) && !popped.added.contains(id) {
        lemma_push_no_duplicates(popped.added, id);
    }
    assert(!popped.added.contains(id) ==> (sound(popped) ==> sound(opened)));
    assert forall|x: Seq<char>| retired(popped, x) == retired(opened, x) by {
        assert(in_frontier(popped, x) == in_frontier(opened, x));
    }
    if !popped.added.contains(id) {
        lemma_add_parent_list_advances(files, opened, commit.parents);
    }
    assert forall|x: Seq<char>| #[trigger] retired(w, x) implies retired(
        commit_phase(files, w).0,
        x,
    ) by {
        assert(retired(popped, x));
        assert(retired(opened, x));
        assert(retired(grown, x));
        assert(in_frontier(grown, x) == in_frontier(commit_phase(files, w).0, x));
    }
    if sound(w) {
        assert(retired(opened, id));
        assert(retired(grown, id));
        assert(in_frontier(grown, id) == in_frontier(commit_phase(files, w).0, id));
    }
}

/// The tree phase lets the state grow from the state without its first
/// pending entry, and leaves a path recorded for the entry it hands out.
pub proof fn lemma_tree_phase(files: Seq<FileView>, w: WalkView)
    requires
        w.pending.len() > 0,
    ensures
        grows(WalkView { pending: w.pending.drop_first(), ..w }, tree_phase(files, w).0),
        tree_phase(files, w).1.path == lookup_path(
            tree_phase(files, w).0.paths,
            tree_phase(files, w).1.id,
        ),
        tree_phase(files, w).1.path is Some,
        sound(w) ==> sound(tree_phase(files, w).0),
        forall|x: Seq<char>| #[trigger] retired(w, x) ==> retired(tree_phase(files, w).0, x),
{
    let popped = WalkView { pending: w.pending.drop_first(), ..w };
    lemma_expand_item_grows(files, popped, w.pending[0], Seq::empty());
    let r = tree_phase(files, w).0;
    assert forall|x: Seq<char>| #[trigger] retired(w, x) implies retired(r, x) by {
        assert(in_frontier(w, x) == in_frontier(r, x));
    }
}

/// Every step keeps the invariant of the walk, forgets nothing that was
/// seen, keeps retired commits retired, and keeps recorded paths as they are.
pub proof fn lemma_step(files: Seq<FileView>, w: WalkView)
    ensures
        sound(w) ==> sound(step(files, w).0),
        forall|x: Seq<char>| #[trigger] retired(w, x) ==> retired(step(files, w).0, x),
        forall|x: Seq<char>| w.seen.contains(x) ==> step(files, w).0.seen.contains(x),
        forall|x: Seq<char>| #[trigger]
            lookup_path(w.paths, x) is Some ==> lookup_path(step(files, w).0.paths, x)
                == lookup_path(w.paths, x),
        w.frontier.len() == 0 ==> step(files, w).0.frontier.len() == 0,
{
    if w.frontier.len() > 0 {
        lemma_commit_phase(files, w);
    } else if w.pending.len() > 0 {
        lemma_tree_phase(files, w);
    }
}

/// The start points leave a state that meets the invariant of the walk.
pub proof fn lemma_start_points_sound(
    files: Seq<FileView>,
    heads: Seq<RefView>,
    revs: Seq<Seq<char>>,
)
    ensures
        sound(start_points(files, heads, revs)),
    decreases revs.len(),
{
    if revs.len() > 0 {
        let before = start_points(files, heads, revs.drop_last());
        lemma_start_points_sound(files, heads, revs.drop_last());
        if let Some(id) = resolve(heads, revs.last()) {
            if let Some(commit) = load_commit(files, id) {
                lemma_enqueue_advances(before, id, commit);
            }
        }
    } else {
        assert(frontier_ranks(empty_walk().frontier) =~= Seq::<int>::empty());
    }
}

/// Every state of a walk meets the invariant of the walk.
pub proof fn lemma_walk_sound(
    files: Seq<FileView>,
    heads: Seq<RefView>,
    revs: Seq<Seq<char>>,
    n: nat,
)
    ensures
        sound(run(files, start_points(files, heads, revs), n)),
    decreases n,
{
    if n == 0 {
        lemma_start_points_sound(files, heads, revs);
    } else {
        lemma_walk_sound(files, heads, revs, (n - 1) as nat);
        lemma_step(files, run(files, start_points(files, heads, revs), (n - 1) as nat));
    }
}

/// At every step of a walk the commit that is handed out
/// ranks at least as high as every commit that waits in the frontier at that
/// moment.
pub proof fn lemma_latest_commit_first(
    files: Seq<FileView>,
    heads: Seq<RefView>,
    revs: Seq<Seq<char>>,
    n: nat,
    k: int,
)
    requires
        0 <= k < run(files, start_points(files, heads, revs), n).frontier.len(),
    ensures
        output_at(files, start_points(files, heads, revs), n) matches Some(output)
            && output.path is None && (output.object matches ObjectView::Commit(commit)
            && commit_rank(run(files, start_points(files, heads, revs), n).frontier[k].1)
            <= commit_rank(commit)),
{
    let w = run(files, start_points(files, heads, revs), n);
    lemma_walk_sound(files, heads, revs, n);
    let ranks = frontier_ranks(w.frontier);
    assert(ranks[k] <= ranks[ranks.len() - 1]);
}

/// Once the frontier is empty it stays empty.
pub proof fn lemma_frontier_stays_empty(files: Seq<FileView>, w: WalkView, i: nat, j: nat)
    requires
        i <= j,
        run(files, w, i).frontier.len() == 0,
    ensures
        run(files, w, j).frontier.len() == 0,
    decreases j,
{
    if i < j {
        lemma_frontier_stays_empty(files, w, i, (j - 1) as nat);
        lemma_step(files, run(files, w, (j - 1) as nat));
    }
}

/// After a step has handed out a tree entry, no later step hands out a
/// commit.
pub proof fn lemma_phase_separation(files: Seq<FileView>, w: WalkView, i: nat, j: nat)
    requires
        i <= j,
        output_at(files, w, i) matches Some(output) && output.path is Some,
    ensures
        output_at(files, w, j) matches Some(output) ==> output.path is Some
            && output.object is TreeItem,
{
    lemma_frontier_stays_empty(files, w, i, j);
}

/// A path that was recorded for an identifier is the path of that identifier
/// in every later state.
pub proof fn lemma_path_stays(files: Seq<FileView>, w: WalkView, i: nat, j: nat, id: Seq<char>)
    requires
        i <= j,
        lookup_path(run(files, w, i).paths, id) is Some,
    ensures
        lookup_path(run(files, w, j).paths, id) == lookup_path(run(files, w, i).paths, id),
    decreases j,
{
    if i < j {
        lemma_path_stays(files, w, i, (j - 1) as nat, id);
        lemma_step(files, run(files, w, (j - 1) as nat));
    }
}

/// A tree entry is handed out with the path that was first recorded for its
/// identifier.
pub proof fn lemma_tree_output_path(files: Seq<FileView>, w: WalkView, n: nat, m: nat)
    requires
        n <= m,
        output_at(files, w, m) matches Some(output) && output.path is Some && lookup_path(
            run(files, w, n).paths,
            output.id,
        ) is Some,
    ensures
        output_at(files, w, m)->0.path == lookup_path(
            run(files, w, n).paths,
            output_at(files, w, m)->0.id,
        ),
{
    let state = run(files, w, m);
    let id = output_at(files, w, m)->0.id;
    lemma_path_stays(files, w, n, m, id);
    lemma_tree_phase(files, state);
    lemma_step(files, state);
}

/// A retired commit stays retired along a walk.
pub proof fn lemma_retired_stays(files: Seq<FileView>, w: WalkView, i: nat, j: nat, id: Seq<char>)
    requires
        i <= j,
        retired(run(files, w, i), id),
    ensures
        retired(run(files, w, j), id),
    decreases j,
{
    if i < j {
        lemma_retired_stays(files, w, i, (j - 1) as nat, id);
        lemma_step(files, run(files, w, (j - 1) as nat));
    }
}

/// No commit is handed out twice: two steps of a walk that both hand out a
/// commit hand out different identifiers.
pub proof fn lemma_commit_emitted_once(
    files: Seq<FileView>,
    heads: Seq<RefView>,
    revs: Seq<Seq<char>>,
    i: nat,
    j: nat,
)
    requires
        i < j,
        output_at(files, start_points(files, heads, revs), i) matches Some(output)
            && output.path is None,
        output_at(files, start_points(files, heads, revs), j) matches Some(output)
            && output.path is None,
    ensures
        output_at(files, start_points(files, heads, revs), i)->0.id != output_at(
            files,
            start_points(files, heads, revs),
            j,
        )->0.id,
{
    let start = start_points(files, heads, revs);
    let first = run(files, start, i);
    let second = run(files, start, j);
    let id = output_at(files, start, i)->0.id;
    lemma_walk_sound(files, heads, revs, i);
    lemma_commit_phase(files, first);
    assert(run(files, start, i + 1) == step(files, first).0);
    lemma_retired_stays(files, start, i + 1, j, id);
    assert(second.frontier[second.frontier.len() - 1].0 == output_at(files, start, j)->0.id);
}

/// A tree entry joins the pending entries only when its identifier is met for
/// the first time: the entries that the tree phase adds were not seen before
/// the step, are seen after it, and differ from each other.
pub proof fn lemma_expansion_is_fresh(files: Seq<FileView>, w: WalkView, i: int, j: int)
    requires
        w.pending.len() > 0,
        0 <= i < j < tree_phase(files, w).0.pending.len() - (w.pending.len() - 1),
    ensures
        !w.seen.contains(tree_phase(files, w).0.pending[i].id),
        tree_phase(files, w).0.seen.contains(tree_phase(files, w).0.pending[i].id),
        tree_phase(files, w).0.pending[i].id != tree_phase(files, w).0.pending[j].id,
{
    lemma_tree_phase(files, w);
}

/// Whether the head `rev` leads to a commit of the store.
pub open spec fn reaches_commit(files: Seq<FileView>, heads: Seq<RefView>, rev: Seq<char>) -> bool {
    resolve(heads, rev) matches Some(id) && load_commit(files, id) is Some
}

/// A start point that leads to no commit contributes nothing.
pub proof fn lemma_missing_start_point(
    files: Seq<FileView>,
    heads: Seq<RefView>,
    w: WalkView,
    rev: Seq<char>,
)
    requires
        !reaches_commit(files, heads, rev),
    ensures
        start_point(files, heads, w, rev) == w,
{
}

/// A walk none of whose start points leads to a commit hands out nothing.
pub proof fn lemma_no_start_points(
    files: Seq<FileView>,
    heads: Seq<RefView>,
    revs: Seq<Seq<char>>,
    n: nat,
)
    requires
        forall|i: int| 0 <= i < revs.len() ==> !reaches_commit(files, heads, #[trigger] revs[i]),
    ensures
        start_points(files, heads, revs) == empty_walk(),
        run(files, start_points(files, heads, revs), n) == empty_walk(),
        output_at(files, start_points(files, heads, revs), n) is None,
    decreases revs.len(), n,
{
    if revs.len() > 0 {
        let front = revs.drop_last();
        assert forall|i: int| 0 <= i < front.len() implies !reaches_commit(
            files,
            heads,
            #[trigger] front[i],
        ) by {
            assert(front[i] == revs[i]);
        }
        lemma_no_start_points(files, heads, front, 0);
        assert(!reaches_commit(files, heads, revs[revs.len() - 1]));
    }
    if n > 0 {
        lemma_no_start_points(files, heads, revs, (n - 1) as nat);
    }
}

/// Whether the tree `tree` of the store lists `id` as its entry number `k`.
pub open spec fn tree_lists(files: Seq<FileView>, tree: Seq<char>, k: int, id: Seq<char>) -> bool {
    load_tree(files, tree) matches Some(entries) && 0 <= k < entries.len() && entries[k].1.id == id
}

/// Whether some tree of the store lists `id` as an entry.
pub open spec fn listed(files: Seq<FileView>, id: Seq<char>) -> bool {
    exists|tree: Seq<char>, k: int| tree_lists(files, tree, k, id)
}

/// Whether the pending entries of `w` hold the identifier `id`.
pub open spec fn in_pending(w: WalkView, id: Seq<char>) -> bool {
    exists|k: int| 0 <= k < w.pending.len() && (#[trigger] w.pending[k]).id == id
}

/// Whether every entry that `r` has queued in front of the pending entries of
/// `w` is listed by a tree of the store.
pub open spec fn adds_listed(files: Seq<FileView>, w: WalkView, r: WalkView) -> bool {
    forall|i: int|
        0 <= i < r.pending.len() - w.pending.len() ==> listed(files, (#[trigger] r.pending[i]).id)
}

/// The entries that the expansion of an entry queues are listed by trees of
/// the store.
pub proof fn lemma_expand_item_adds_listed(
    files: Seq<FileView>,
    w: WalkView,
    item: ItemView,
    path: Seq<char>,
)
    ensures
        adds_listed(files, w, expand_item(files, w, item, path)),
    decreases
            if w.seen.len() >= usize::MAX {
                0
            } else {
                usize::MAX - w.seen.len()
            },
            1int,
            0int,
{
    let recorded = record_path(w, item.id, path);
    if item.is_tree() {
        match load_tree(files, item.id) {
            None => {},
            Some(entries) => {
                assert forall|j: int| 0 <= j < entries.len() implies listed(
                    files,
                    (#[trigger] entries[j]).1.id,
                ) by {
                    assert(tree_lists(files, item.id, j, entries[j].1.id));
                }
                lemma_expand_children_adds_listed(
                    files,
                    recorded,
                    entries,
                    entries.len() as int,
                    path,
                );
            },
        }
    }
}

/// The entries that the expansion of a directory queues are listed by trees of
/// the store, where the entries of the directory are.
pub proof fn lemma_expand_children_adds_listed(
    files: Seq<FileView>,
    w: WalkView,
    entries: Seq<EntryView>,
    k: int,
    path: Seq<char>,
)
    requires
        forall|j: int| 0 <= j < entries.len() ==> listed(files, (#[trigger] entries[j]).1.id),
    ensures
        adds_listed(files, w, expand_children(files, w, entries, k, path)),
    decreases
            if w.seen.len() >= usize::MAX {
                0
            } else {
                usize::MAX - w.seen.len()
            },
            0int,
            k,
{
    if k <= 0 || k > entries.len() {
    } else {
        let (name, child) = entries[k - 1];
        if w.seen.contains(child.id) {
            lemma_expand_children_adds_listed(files, w, entries, k - 1, path);
        } else if w.seen.len() >= usize::MAX {
        } else {
            let marked = mark_seen(w, child.id);
            let expanded = expand_item(files, marked, child, join_path(path, name));
            let queued = WalkView { pending: seq![child] + expanded.pending, ..expanded };
            lemma_expand_item_adds_listed(files, marked, child, join_path(path, name));
            lemma_expand_item_grows(files, marked, child, join_path(path, name));
            if queued.seen.len() >= w.seen.len() {
                let r = expand_children(files, queued, entries, k - 1, path);
                lemma_expand_children_adds_listed(files, queued, entries, k - 1, path);
                lemma_expand_children_grows(files, queued, entries, k - 1, path);
                let d2 = r.pending.len() - queued.pending.len();
                assert forall|i: int| 0 <= i < r.pending.len() - w.pending.len() implies listed(
                    files,
                    (#[trigger] r.pending[i]).id,
                ) by {
                    if i >= d2 {
                        assert(r.pending.skip(d2)[i - d2] == r.pending[i]);
                        assert(queued.pending[i - d2] == r.pending[i]);
                        if i - d2 > 0 {
                            assert(queued.pending[i - d2] == expanded.pending[i - d2 - 1]);
                        } else {
                            assert(entries[k - 1].1.id == child.id);
                        }
                    }
                }
            } else {
                assert forall|i: int|
                    0 <= i < queued.pending.len() - w.pending.len() implies listed(
                    files,
                    (#[trigger] queued.pending[i]).id,
                ) by {
                    if i > 0 {
                        assert(queued.pending[i] == expanded.pending[i - 1]);
                    } else {
                        assert(entries[k - 1].1.id == child.id);
                    }
                }
            }
        }
    }
}

/// A state in the tree phase in which no pending identifier can come up a
/// second time: the frontier is empty, the pending identifiers differ from
/// each other, and each of them is marked as seen or is listed by no tree of
/// the store.
pub open spec fn unambiguous(files: Seq<FileView>, w: WalkView) -> bool {
    &&& w.frontier.len() == 0
    &&& forall|i: int, j: int|
        0 <= i < j < w.pending.len() ==> (#[trigger] w.pending[i]).id != (
        #[trigger] w.pending[j]).id
    &&& forall|i: int|
        0 <= i < w.pending.len() ==> w.seen.contains((#[trigger] w.pending[i]).id) || !listed(
            files,
            w.pending[i].id,
        )
}

/// Whether the identifier `id` can no longer be handed out as a tree entry: it
/// is not pending, and it is marked as seen or listed by no tree of the store.
pub open spec fn spent(files: Seq<FileView>, w: WalkView, id: Seq<char>) -> bool {
    !in_pending(w, id) && (w.seen.contains(id) || !listed(files, id))
}

/// A step of the tree phase keeps an unambiguous state unambiguous, spends the
/// identifier it hands out, and keeps spent identifiers spent.
pub proof fn lemma_tree_step_spends(files: Seq<FileView>, w: WalkView)
    requires
        unambiguous(files, w),
    ensures
        unambiguous(files, step(files, w).0),
        step(files, w).1 matches Some(output) ==> spent(files, step(files, w).0, output.id),
        forall|x: Seq<char>| #[trigger] spent(files, w, x) ==> spent(files, step(files, w).0, x),
{
    if w.pending.len() > 0 {
        let popped = WalkView { pending: w.pending.drop_first(), ..w };
        let item = w.pending[0];
        let r = step(files, w).0;
        lemma_tree_phase(files, w);
        lemma_expand_item_adds_listed(files, popped, item, Seq::empty());
        let d = r.pending.len() - popped.pending.len();
        assert forall|i: int| d <= i < r.pending.len() implies #[trigger] r.pending[i]
            == w.pending[i - d + 1] by {
            assert(r.pending.skip(d)[i - d] == r.pending[i]);
            assert(popped.pending[i - d] == w.pending[i - d + 1]);
        }
        assert forall|i: int, j: int| 0 <= i < j < r.pending.len() implies (
        #[trigger] r.pending[i]).id != (#[trigger] r.pending[j]).id by {
            if j >= d {
                assert(r.pending[j] == w.pending[j - d + 1]);
                if i >= d {
                    assert(r.pending[i] == w.pending[i - d + 1]);
                } else {
                    assert(listed(files, r.pending[i].id));
                    assert(!popped.seen.contains(r.pending[i].id));
                }
            }
        }
        assert forall|i: int| 0 <= i < r.pending.len() implies r.seen.contains(
            (#[trigger] r.pending[i]).id,
        ) || !listed(files, r.pending[i].id) by {
            if i >= d {
                assert(r.pending[i] == w.pending[i - d + 1]);
            }
        }
        assert forall|x: Seq<char>| #[trigger] spent(files, w, x) || x == item.id implies spent(
            files,
            r,
            x,
        ) by {
            if in_pending(r, x) {
                let k = choose|k: int| 0 <= k < r.pending.len() && (#[trigger] r.pending[k]).id
                    == x;
                if k >= d {
                    assert(r.pending[k] == w.pending[k - d + 1]);
                    assert(w.pending[0].id == item.id);
                } else {
                    assert(listed(files, r.pending[k].id));
                    assert(!popped.seen.contains(r.pending[k].id));
                    assert(w.seen.contains(w.pending[0].id) || !listed(files, w.pending[0].id));
                }
            }
            if x == item.id {
                assert(w.seen.contains(w.pending[0].id) || !listed(files, w.pending[0].id));
            }
        }
        assert(spent(files, w, item.id) || item.id == item.id);
    }
}

/// An unambiguous state stays unambiguous along the walk.
pub proof fn lemma_unambiguous_stays(files: Seq<FileView>, w: WalkView, n: nat)
    requires
        unambiguous(files, w),
    ensures
        unambiguous(files, run(files, w, n)),
    decreases n,
{
    if n > 0 {
        lemma_unambiguous_stays(files, w, (n - 1) as nat);
        lemma_tree_step_spends(files, run(files, w, (n - 1) as nat));
    }
}

/// From an unambiguous state on, a spent identifier stays spent.
pub proof fn lemma_spent_stays(files: Seq<FileView>, w: WalkView, i: nat, j: nat, id: Seq<char>)
    requires
        unambiguous(files, w),
        i <= j,
        spent(files, run(files, w, i), id),
    ensures
        spent(files, run(files, w, j), id),
    decreases j,
{
    if i < j {
        lemma_spent_stays(files, w, i, (j - 1) as nat, id);
        lemma_unambiguous_stays(files, w, (j - 1) as nat);
        lemma_tree_step_spends(files, run(files, w, (j - 1) as nat));
    }
}

/// No tree entry is handed out twice from an unambiguous state on: two steps
/// of the walk that both hand out an object hand out different identifiers.
pub proof fn lemma_entry_emitted_once(files: Seq<FileView>, w: WalkView, i: nat, j: nat)
    requires
        unambiguous(files, w),
        i < j,
        output_at(files, w, i) is Some,
        output_at(files, w, j) is Some,
    ensures
        output_at(files, w, i)->0.id != output_at(files, w, j)->0.id,
{
    let id = output_at(files, w, i)->0.id;
    lemma_unambiguous_stays(files, w, i);
    lemma_tree_step_spends(files, run(files, w, i));
    assert(run(files, w, i + 1) == step(files, run(files, w, i)).0);
    lemma_spent_stays(files, w, i + 1, j, id);
    lemma_unambiguous_stays(files, w, j);
    let second = run(files, w, j);
    assert(second.pending[0].id == output_at(files, w, j)->0.id);
}

/// The expansion of a directory never stops half way for want of room in the
/// seen list, short of the largest length a list can have, nor because the
/// seen list has shrunk: an entry that was not seen is marked, expanded and
/// queued, and the entries before it follow.
pub proof fn lemma_expand_children_unfolds(
    files: Seq<FileView>,
    w: WalkView,
    entries: Seq<EntryView>,
    k: int,
    path: Seq<char>,
)
    requires
        0 < k <= entries.len(),
        !w.seen.contains(entries[k - 1].1.id),
        w.seen.len() < usize::MAX,
    ensures
        expand_children(files, w, entries, k, path) == expand_children(
            files,
            WalkView {
                pending: seq![entries[k - 1].1] + expand_item(
                    files,
                    mark_seen(w, entries[k - 1].1.id),
                    entries[k - 1].1,
                    join_path(path, entries[k - 1].0),
                ).pending,
                ..expand_item(
                    files,
                    mark_seen(w, entries[k - 1].1.id),
                    entries[k - 1].1,
                    join_path(path, entries[k - 1].0),
                )
            },
            entries,
            k - 1,
            path,
        ),
{
    let (name, child) = entries[k - 1];
    lemma_expand_item_grows(files, mark_seen(w, child.id), child, join_path(path, name));
}

} // verus!
