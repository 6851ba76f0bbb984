//! Every walk ends: the number of objects that a walk hands out is bounded by
//! the number of identifiers that the store knows.
use crate::db::decode_object;
use crate::db::find_file;
use crate::db::load_commit;
use crate::db::load_tree;
use crate::db::zlib_inflated;
use crate::db::FileView;
use crate::db::ObjectView;
use crate::objects::commit::CommitView;
use crate::objects::tree::EntryView;
use crate::objects::tree::ItemView;
use crate::proofs::lemma_insert_position_bounds;
use crate::proofs::lemma_start_points_sound;
use crate::proofs::lemma_step;
use crate::proofs::output_at;
use crate::proofs::run;
use crate::proofs::sound;
use crate::refs::resolve;
use crate::refs::RefView;
use crate::revision::add_parent_list;
use crate::revision::add_parents;
use crate::revision::commit_phase;
use crate::revision::commit_rank;
use crate::revision::enqueue;
use crate::revision::expand_children;
use crate::revision::expand_item;
use crate::revision::frontier_ranks;
use crate::revision::join_path;
use crate::revision::mark_seen;
use crate::revision::record_path;
use crate::revision::start_points;
use crate::revision::step;
use crate::revision::WalkView;
use vstd::prelude::*;

verus! {

/// The identifiers that a file makes known: the one it is stored under, and,
/// where it holds a tree, those of the entries of the tree.
pub open spec fn file_ids(file: FileView) -> Seq<Seq<char>> {
    let own = seq![file.dir + file.name];
    match zlib_inflated(file.data) {
        None => own,
        Some(content) => match decode_object(content) {
            Some(ObjectView::Tree(entries)) => own + Seq::new(
                entries.len(),
                |j: int| entries[j].1.id,
            ),
            _ => own,
        },
    }
}

/// The identifiers that the files of a store make known, file by file.
pub open spec fn known(files: Seq<FileView>) -> Seq<Seq<char>>
    decreases files.len(),
{
    if files.len() == 0 {
        Seq::empty()
    } else {
        known(files.drop_last()) + file_ids(files.last())
    }
}

/// Whether every identifier that `w` has seen is known to the store.
pub open spec fn within(files: Seq<FileView>, w: WalkView) -> bool {
    forall|i: int| 0 <= i < w.seen.len() ==> known(files).contains(#[trigger] w.seen[i])
}

/// What a file makes known is known to the store.
pub proof fn lemma_known_holds_file_ids(files: Seq<FileView>, k: int, id: Seq<char>)
    requires
        0 <= k < files.len(),
        file_ids(files[k]).contains(id),
    ensures
        known(files).contains(id),
    decreases files.len(),
{
    let front = known(files.drop_last());
    let last = file_ids(files.last());
    if k == files.len() - 1 {
        let j = choose|j: int| 0 <= j < last.len() && last[j] == id;
        assert(known(files)[front.len() + j] == id);
    } else {
        assert(files.drop_last()[k] == files[k]);
        lemma_known_holds_file_ids(files.drop_last(), k, id);
        let j = choose|j: int| 0 <= j < front.len() && front[j] == id;
        assert(known(files)[j] == id);
    }
}

/// The bytes that a lookup finds are those of a file with the names looked for.
pub proof fn lemma_find_file_index(files: Seq<FileView>, dir: Seq<char>, name: Seq<char>) -> (k:
    int)
    requires
        find_file(files, dir, name) is Some,
    ensures
        0 <= k < files.len(),
        files[k].dir == dir,
        files[k].name == name,
        find_file(files, dir, name) == Some(files[k].data),
    decreases files.len(),
{
    if files[0].dir == dir && files[0].name == name {
        0
    } else {
        let k = lemma_find_file_index(files.drop_first(), dir, name);
        assert(files.drop_first()[k] == files[k + 1]);
        k + 1
    }
}

/// The identifier of a commit that the store holds is known to the store.
pub proof fn lemma_loaded_commit_known(files: Seq<FileView>, id: Seq<char>)
    requires
        load_commit(files, id) is Some,
    ensures
        known(files).contains(id),
{
    let k = lemma_find_file_index(files, id.take(2), id.skip(2));
    assert(id.take(2) + id.skip(2) =~= id);
    assert(file_ids(files[k])[0] == id);
    lemma_known_holds_file_ids(files, k, id);
}

/// The identifiers of the entries of a tree that the store holds are known to
/// the store.
pub proof fn lemma_loaded_tree_known(files: Seq<FileView>, tree: Seq<char>, j: int)
    requires
        load_tree(files, tree) matches Some(entries) && 0 <= j < entries.len(),
    ensures
        known(files).contains(load_tree(files, tree)->0[j].1.id),
{
    let entries = load_tree(files, tree)->0;
    let k = lemma_find_file_index(files, tree.take(2), tree.skip(2));
    assert(file_ids(files[k])[1 + j] == entries[j].1.id);
    lemma_known_holds_file_ids(files, k, entries[j].1.id);
}

/// A sequence without duplicates whose elements all occur in another sequence
/// is no longer than that sequence.
pub proof fn lemma_no_duplicates_bound(s: Seq<Seq<char>>, u: Seq<Seq<char>>)
    requires
        s.no_duplicates(),
        forall|i: int| 0 <= i < s.len() ==> u.contains(#[trigger] s[i]),
    ensures
        s.len() <= u.len(),
    decreases u.len(),
{
    if s.len() == 0 {
    } else if u.len() == 0 {
        assert(u.contains(s[0]));
    } else {
        let x = u.last();
        let rest = u.drop_last();
        if s.contains(x) {
            let k = choose|k: int| 0 <= k < s.len() && s[k] == x;
            let t = s.remove(k);
            assert forall|i: int, j: int| 0 <= i < t.len() && 0 <= j < t.len() && i != j implies t[i]
                != t[j] by {
                let a = if i < k {
                    i
                } else {
                    i + 1
                };
                let b = if j < k {
                    j
                } else {
                    j + 1
                };
                assert(t[i] == s[a] && t[j] == s[b]);
            }
            assert forall|i: int| 0 <= i < t.len() implies rest.contains(#[trigger] t[i]) by {
                let a = if i < k {
                    i
                } else {
                    i + 1
                };
                assert(t[i] == s[a]);
                assert(u.contains(s[a]));
                let m = choose|m: int| 0 <= m < u.len() && u[m] == s[a];
                assert(m < u.len() - 1);
                assert(rest[m] == s[a]);
            }
            lemma_no_duplicates_bound(t, rest);
        } else {
            assert forall|i: int| 0 <= i < s.len() implies rest.contains(#[trigger] s[i]) by {
                assert(u.contains(s[i]));
                let m = choose|m: int| 0 <= m < u.len() && u[m] == s[i];
                assert(s.contains(s[i]));
                assert(rest[m] == s[i]);
            }
            lemma_no_duplicates_bound(s, rest);
        }
    }
}

/// How a state `r` relates to an earlier state `w` on the commit side: the
/// frontier and the seen list have grown by the same number of commits, all
/// of them known to the store, and the pending entries are untouched.
pub open spec fn balanced(files: Seq<FileView>, w: WalkView, r: WalkView) -> bool {
    &&& r.frontier.len() - r.seen.len() == w.frontier.len() - w.seen.len()
    &&& r.seen.len() >= w.seen.len()
    &&& r.pending == w.pending
    &&& within(files, w) ==> within(files, r)
}

/// Offering a commit that the store holds keeps the balance.
pub proof fn lemma_enqueue_balanced(
    files: Seq<FileView>,
    w: WalkView,
    id: Seq<char>,
    commit: CommitView,
)
    requires
        known(files).contains(id),
    ensures
        balanced(files, w, enqueue(w, id, commit)),
{
    let r = enqueue(w, id, commit);
    lemma_insert_position_bounds(frontier_ranks(w.frontier), commit_rank(commit));
    if !w.seen.contains(id) && within(files, w) {
        assert forall|i: int| 0 <= i < r.seen.len() implies known(files).contains(
            #[trigger] r.seen[i],
        ) by {
            if i < w.seen.len() {
                assert(r.seen[i] == w.seen[i]);
            }
        }
    }
}

/// Looking at a list of parents keeps the balance.
pub proof fn lemma_add_parent_list_balanced(
    files: Seq<FileView>,
    w: WalkView,
    ids: Seq<Seq<char>>,
)
    ensures
        balanced(files, w, add_parent_list(files, w, ids)),
    decreases ids.len(),
{
    if ids.len() > 0 {
        let before = add_parent_list(files, w, ids.drop_last());
        lemma_add_parent_list_balanced(files, w, ids.drop_last());
        let id = ids.last();
        if !before.seen.contains(id) {
            if let Some(commit) = load_commit(files, id) {
                lemma_loaded_commit_known(files, id);
                lemma_enqueue_balanced(files, before, id, commit);
            }
        }
    }
}

/// The start points leave a state whose frontier is as long as its seen list,
/// with nothing pending and nothing seen that the store does not know.
pub proof fn lemma_start_points_balanced(
    files: Seq<FileView>,
    heads: Seq<RefView>,
    revs: Seq<Seq<char>>,
)
    ensures
        start_points(files, heads, revs).frontier.len() == start_points(
            files,
            heads,
            revs,
        ).seen.len(),
        start_points(files, heads, revs).pending.len() == 0,
        within(files, start_points(files, heads, revs)),
    decreases revs.len(),
{
    if revs.len() > 0 {
        let before = start_points(files, heads, revs.drop_last());
        lemma_start_points_balanced(files, heads, revs.drop_last());
        if let Some(id) = resolve(heads, revs.last()) {
            if let Some(commit) = load_commit(files, id) {
                lemma_loaded_commit_known(files, id);
                lemma_enqueue_balanced(files, before, id, commit);
            }
        }
    }
}

/// How a state `r` relates to an earlier state `w` on the tree side: the
/// pending entries and the seen list have grown by the same number of
/// entries, all of them known to the store.
pub open spec fn level(files: Seq<FileView>, w: WalkView, r: WalkView) -> bool {
    &&& r.pending.len() - r.seen.len() == w.pending.len() - w.seen.len()
    &&& r.seen.len() >= w.seen.len()
    &&& r.frontier == w.frontier
    &&& within(files, w) ==> within(files, r)
}

/// Expanding an entry keeps the tree side level.
pub proof fn lemma_expand_item_level(
    files: Seq<FileView>,
    w: WalkView,
    item: ItemView,
    path: Seq<char>,
)
    ensures
        level(files, w, expand_item(files, w, item, path)),
    decreases
            if w.seen.len() >= usize::MAX {
                0
            } else {
                usize::MAX - w.seen.len()
            },
            1int,
            0int,
{
    let recorded = record_path(w, item.id, path);
    if item.is_tree() {
        match load_tree(files, item.id) {
            None => {},
            Some(entries) => {
                assert forall|j: int| 0 <= j < entries.len() implies known(files).contains(
                    (#[trigger] entries[j]).1.id,
                ) by {
                    lemma_loaded_tree_known(files, item.id, j);
                }
                lemma_expand_children_level(files, recorded, entries, entries.len() as int, path);
            },
        }
    }
}

/// Expanding the entries of a directory keeps the tree side level, where the
/// entries are known to the store.
pub proof fn lemma_expand_children_level(
    files: Seq<FileView>,
    w: WalkView,
    entries: Seq<EntryView>,
    k: int,
    path: Seq<char>,
)
    requires
        forall|j: int| 0 <= j < entries.len() ==> known(files).contains(
            (#[trigger] entries[j]).1.id,
        ),
    ensures
        level(files, w, expand_children(files, w, entries, k, path)),
    decreases
            if w.seen.len() >= usize::MAX {
                0
            } else {
                usize::MAX - w.seen.len()
            },
            0int,
            k,
{
    if k <= 0 || k > entries.len() {
    } else {
        let (name, child) = entries[k - 1];
        if w.seen.contains(child.id) {
            lemma_expand_children_level(files, w, entries, k - 1, path);
        } else if w.seen.len() >= usize::MAX {
        } else {
            let marked = mark_seen(w, child.id);
            let expanded = expand_item(files, marked, child, join_path(path, name));
            let queued = WalkView { pending: seq![child] + expanded.pending, ..expanded };
            lemma_expand_item_level(files, marked, child, join_path(path, name));
            if within(files, w) {
                assert(known(files).contains(entries[k - 1].1.id));
                assert forall|i: int| 0 <= i < marked.seen.len() implies known(files).contains(
                    #[trigger] marked.seen[i],
                ) by {
                    if i < w.seen.len() {
                        assert(marked.seen[i] == w.seen[i]);
                    }
                }
            }
            if queued.seen.len() >= w.seen.len() {
                lemma_expand_children_level(files, queued, entries, k - 1, path);
            }
        }
    }
}

/// The room that is left for a walk: twice the identifiers that the store
/// knows and the walk has not seen, twice the commits of the frontier, and
/// the pending entries.
pub open spec fn potential(files: Seq<FileView>, w: WalkView) -> int {
    2 * (known(files).len() - w.seen.len()) + 2 * w.frontier.len() + w.pending.len()
}

/// A step that hands out an object uses up room; and a state that has seen
/// only what the store knows, each identifier once, has room left.
pub proof fn lemma_step_uses_room(files: Seq<FileView>, w: WalkView)
    requires
        sound(w),
        within(files, w),
    ensures
        sound(step(files, w).0),
        within(files, step(files, w).0),
        w.seen.len() <= known(files).len(),
        step(files, w).1 is Some ==> potential(files, step(files, w).0) < potential(files, w),
        step(files, w).1 is None ==> step(files, w).0 == w,
{
    lemma_step(files, w);
    lemma_no_duplicates_bound(w.seen, known(files));
    if w.frontier.len() > 0 {
        let (id, commit) = w.frontier.last();
        let popped = WalkView { frontier: w.frontier.drop_last(), ..w };
        let opened = WalkView { added: popped.added.push(id), ..popped };
        assert(within(files, popped));
        assert(within(files, opened));
        if !popped.added.contains(id) {
            lemma_add_parent_list_balanced(files, opened, commit.parents);
        }
        let grown = add_parents(files, popped, id, commit);
        assert(within(files, grown));
        assert(within(files, commit_phase(files, w).0));
    } else if w.pending.len() > 0 {
        let popped = WalkView { pending: w.pending.drop_first(), ..w };
        assert(within(files, popped));
        lemma_expand_item_level(files, popped, w.pending[0], Seq::empty());
    }
}

/// Running on from the state after one step is running one step more.
pub proof fn lemma_run_shift(files: Seq<FileView>, w: WalkView, n: nat)
    ensures
        run(files, step(files, w).0, n) == run(files, w, n + 1),
    decreases n,
{
    if n > 0 {
        lemma_run_shift(files, w, (n - 1) as nat);
        assert(run(files, w, n + 1) == step(files, run(files, w, n)).0);
    } else {
        assert(run(files, w, 0) == w);
        assert(run(files, w, 1) == step(files, run(files, w, 0)).0);
    }
}

/// A walk that has room for at most `room` steps has ended after that many.
pub proof fn lemma_ends_within(files: Seq<FileView>, w: WalkView, room: nat) -> (n: nat)
    requires
        sound(w),
        within(files, w),
        potential(files, w) <= room,
    ensures
        n <= room,
        output_at(files, w, n) is None,
    decreases room,
{
    lemma_step_uses_room(files, w);
    if step(files, w).1 is None {
        0
    } else {
        let next = step(files, w).0;
        lemma_step_uses_room(files, next);
        let n = lemma_ends_within(files, next, (room - 1) as nat);
        lemma_run_shift(files, w, n);
        n + 1
    }
}

/// Every walk ends: a walk from any start points hands out nothing more after
/// at most twice as many steps as the store knows identifiers.
pub proof fn lemma_walk_ends(files: Seq<FileView>, heads: Seq<RefView>, revs: Seq<Seq<char>>) -> (n:
    nat)
    ensures
        n <= 2 * known(files).len(),
        output_at(files, start_points(files, heads, revs), n) is None,
{
    let start = start_points(files, heads, revs);
    lemma_start_points_sound(files, heads, revs);
    lemma_start_points_balanced(files, heads, revs);
    lemma_ends_within(files, start, (2 * known(files).len()) as nat)
}

/// A walk that has ended hands out nothing more.
pub proof fn lemma_walk_stays_ended(files: Seq<FileView>, w: WalkView, i: nat, j: nat)
    requires
        i <= j,
        output_at(files, w, i) is None,
    ensures
        output_at(files, w, j) is None,
        run(files, w, j) == run(files, w, i),
    decreases j,
{
    if i < j {
        lemma_walk_stays_ended(files, w, i, (j - 1) as nat);
    }
}

} // verus!
