//! The revision walker: commits by descending time, then the trees of those
//! commits, each entry where its identifier is met first.
use crate::db::load_commit;
use crate::db::load_tree;
use crate::db::object_view;
use crate::db::Database;
use crate::db::FileView;
use crate::db::ObjectView;
use crate::objects::commit::ids_view;
use crate::objects::commit::texts_view;
use crate::objects::commit::CommitView;
use crate::objects::tree::entries_view;
use crate::objects::tree::EntryView;
use crate::objects::tree::ItemView;
use crate::objects::tree::TREE_MODE;
use crate::objects::Commit;
use crate::objects::Id;
use crate::objects::Object;
use crate::objects::Tree;
use crate::objects::TreeItem;
use crate::objects::WithId;
use crate::priority_queue::insert_position;
use crate::priority_queue::KeyFn;
use crate::priority_queue::PriorityQueue;
use crate::priority_queue::Rank;
use crate::proofs::lemma_start_points_sound;
use crate::proofs::output_at;
use crate::proofs::run;
use crate::proofs::sound;
use crate::refs::resolve;
use crate::refs::RefView;
use crate::repo::Repository;
use crate::termination::lemma_start_points_balanced;
use crate::termination::lemma_step_uses_room;
use crate::termination::potential;
use crate::termination::within;
use std::collections::VecDeque;
use vstd::prelude::*;

verus! {

/// A commit that waits in the frontier: its identifier and its value.
pub type FrontierEntry = (Seq<char>, CommitView);

/// The mathematical state of a walk.
pub struct WalkView {
    /// The commits found and not yet handed out, ascending by time; the last
    /// one leaves next.
    pub frontier: Seq<FrontierEntry>,
    /// The tree entries that wait to be handed out, the next one first.
    pub pending: Seq<ItemView>,
    /// The identifiers that were found, in the order of their discovery.
    pub seen: Seq<Seq<char>>,
    /// The identifiers of the commits whose parents were looked at.
    pub added: Seq<Seq<char>>,
    /// The path under which each identifier was first met.
    pub paths: Seq<(Seq<char>, Seq<char>)>,
}

/// What one step of a walk hands out.
pub struct OutputView {
    pub id: Seq<char>,
    pub object: ObjectView,
    /// The path of a tree entry; `None` for a commit.
    pub path: Option<Seq<char>>,
}

/// The rank of a commit in the frontier: its time, and below every time where
/// it has none.
pub open spec fn commit_rank(commit: CommitView) -> int {
    commit.time.rank()
}

/// The ranks of the commits of a frontier.
pub open spec fn frontier_ranks(frontier: Seq<FrontierEntry>) -> Seq<int> {
    Seq::new(frontier.len(), |i: int| commit_rank(frontier[i].1))
}

/// The state of a walk before any start point.
pub open spec fn empty_walk() -> WalkView {
    WalkView {
        frontier: Seq::empty(),
        pending: Seq::empty(),
        seen: Seq::empty(),
        added: Seq::empty(),
        paths: Seq::empty(),
    }
}

/// `w` with `id` marked as seen.
pub open spec fn mark_seen(w: WalkView, id: Seq<char>) -> WalkView {
    WalkView { seen: w.seen.push(id), ..w }
}

/// `w` after the commit `id` was offered to the frontier: it enters, and is
/// marked as seen, unless it was seen before.
pub open spec fn enqueue(w: WalkView, id: Seq<char>, commit: CommitView) -> WalkView {
    if w.seen.contains(id) {
        w
    } else {
        WalkView {
            frontier: w.frontier.insert(
                insert_position(frontier_ranks(w.frontier), commit_rank(commit)),
                (id, commit),
            ),
            seen: w.seen.push(id),
            ..w
        }
    }
}

/// `w` after the start point `rev`: the commit that the head resolves to
/// enters the frontier. A head or a commit that is missing changes nothing.
pub open spec fn start_point(
    files: Seq<FileView>,
    heads: Seq<RefView>,
    w: WalkView,
    rev: Seq<char>,
) -> WalkView {
    match resolve(heads, rev) {
        None => w,
        Some(id) => match load_commit(files, id) {
            None => w,
            Some(commit) => enqueue(w, id, commit),
        },
    }
}

/// The state of a walk after the start points `revs`, taken in order.
pub open spec fn start_points(
    files: Seq<FileView>,
    heads: Seq<RefView>,
    revs: Seq<Seq<char>>,
) -> WalkView
    decreases revs.len(),
{
    if revs.len() == 0 {
        empty_walk()
    } else {
        start_point(files, heads, start_points(files, heads, revs.drop_last()), revs.last())
    }
}

/// `w` after the parent `id` of a commit was looked at: where it was not seen
/// and the store holds it, it enters the frontier.
pub open spec fn add_parent(files: Seq<FileView>, w: WalkView, id: Seq<char>) -> WalkView {
    if w.seen.contains(id) {
        w
    } else {
        match load_commit(files, id) {
            None => w,
            Some(commit) => enqueue(w, id, commit),
        }
    }
}

/// `w` after the parents `ids` were looked at, in order.
pub open spec fn add_parent_list(files: Seq<FileView>, w: WalkView, ids: Seq<Seq<char>>) -> WalkView
    decreases ids.len(),
{
    if ids.len() == 0 {
        w
    } else {
        add_parent(files, add_parent_list(files, w, ids.drop_last()), ids.last())
    }
}

/// `w` after the commit `id` left the frontier: it is marked as added and its
/// parents are looked at, unless it was added before.
pub open spec fn add_parents(
    files: Seq<FileView>,
    w: WalkView,
    id: Seq<char>,
    commit: CommitView,
) -> WalkView {
    if w.added.contains(id) {
        w
    } else {
        add_parent_list(files, WalkView { added: w.added.push(id), ..w }, commit.parents)
    }
}

/// The entry that stands for the root tree of a commit.
pub open spec fn root_item(commit: CommitView) -> ItemView {
    ItemView { id: commit.tree, mode: TREE_MODE }
}

/// The first path recorded for `id`.
pub open spec fn lookup_path(paths: Seq<(Seq<char>, Seq<char>)>, id: Seq<char>) -> Option<
    Seq<char>,
>
    decreases paths.len(),
{
    if paths.len() == 0 {
        None
    } else if paths[0].0 == id {
        Some(paths[0].1)
    } else {
        lookup_path(paths.drop_first(), id)
    }
}

/// `w` with `path` recorded for `id`, unless `id` has a path already.
pub open spec fn record_path(w: WalkView, id: Seq<char>, path: Seq<char>) -> WalkView {
    if lookup_path(w.paths, id) is Some {
        w
    } else {
        WalkView { paths: w.paths.push((id, path)), ..w }
    }
}

/// The path of the entry `name` in the directory `path`: a name that starts
/// with a slash stands alone, and a slash joins the two unless the directory
/// is empty or ends with one.
pub open spec fn join_path(path: Seq<char>, name: Seq<char>) -> Seq<char> {
    if name.len() > 0 && name[0] == '/' {
        name
    } else if path.len() > 0 && path.last() != '/' {
        path.push('/') + name
    } else {
        path + name
    }
}

/// `w` after the entry `item` was met under `path`: its path is recorded,
/// and where it is a directory that the store holds, its entries are expanded.
pub open spec fn expand_item(
    files: Seq<FileView>,
    w: WalkView,
    item: ItemView,
    path: Seq<char>,
) -> WalkView
    decreases
            if w.seen.len() >= usize::MAX {
                0
            } else {
                usize::MAX - w.seen.len()
            },
            1int,
            0int,
{
    let recorded = record_path(w, item.id, path);
    if !item.is_tree() {
        recorded
    } else {
        match load_tree(files, item.id) {
            None => recorded,
            Some(entries) => expand_children(files, recorded, entries, entries.len() as int, path),
        }
    }
}

/// `w` after the first `k` entries of a directory were expanded, the last of
/// them first. An entry that was not seen is marked, expanded in turn, and
/// then put at the front of the pending entries; one that was seen is
/// skipped. Expansion stops where the seen list can hold no more.
pub open spec fn expand_children(
    files: Seq<FileView>,
    w: WalkView,
    entries: Seq<EntryView>,
    k: int,
    path: Seq<char>,
) -> WalkView
    decreases
            if w.seen.len() >= usize::MAX {
                0
            } else {
                usize::MAX - w.seen.len()
            },
            0int,
            k,
{
    if k <= 0 || k > entries.len() {
        w
    } else {
        let (name, child) = entries[k - 1];
        if w.seen.contains(child.id) {
            expand_children(files, w, entries, k - 1, path)
        } else if w.seen.len() >= usize::MAX {
            w
        } else {
            let expanded = expand_item(
                files,
                mark_seen(w, child.id),
                child,
                join_path(path, name),
            );
            let queued = WalkView { pending: seq![child] + expanded.pending, ..expanded };
            if queued.seen.len() < w.seen.len() {
                queued
            } else {
                expand_children(files, queued, entries, k - 1, path)
            }
        }
    }
}

/// The commit phase of a step, on a state whose frontier is not empty: the
/// last commit of the frontier leaves, its parents are looked at, and its root
/// tree joins the pending entries.
pub open spec fn commit_phase(files: Seq<FileView>, w: WalkView) -> (WalkView, OutputView) {
    let (id, commit) = w.frontier.last();
    let popped = WalkView { frontier: w.frontier.drop_last(), ..w };
    let grown = add_parents(files, popped, id, commit);
    (
        WalkView { pending: grown.pending.push(root_item(commit)), ..grown },
        OutputView { id, object: ObjectView::Commit(commit), path: None },
    )
}

/// The tree phase of a step, on a state whose pending entries are not empty:
/// the first entry leaves and is expanded under the empty path.
pub open spec fn tree_phase(files: Seq<FileView>, w: WalkView) -> (WalkView, OutputView) {
    let item = w.pending[0];
    let popped = WalkView { pending: w.pending.drop_first(), ..w };
    let expanded = expand_item(files, popped, item, Seq::empty());
    (
        expanded,
        OutputView {
            id: item.id,
            object: ObjectView::TreeItem(item),
            path: Some(
                match lookup_path(expanded.paths, item.id) {
                    Some(path) => path,
                    None => Seq::empty(),
                },
            ),
        },
    )
}

/// One step of a walk: the commit phase while the frontier holds a commit,
/// else the tree phase while an entry is pending, else nothing.
pub open spec fn step(files: Seq<FileView>, w: WalkView) -> (WalkView, Option<OutputView>) {
    if w.frontier.len() > 0 {
        let (next, output) = commit_phase(files, w);
        (next, Some(output))
    } else if w.pending.len() > 0 {
        let (next, output) = tree_phase(files, w);
        (next, Some(output))
    } else {
        (w, None)
    }
}

/// The value of what a step hands out.
pub open spec fn output_view(output: (WithId<Object>, Option<String>)) -> OutputView {
    OutputView {
        id: output.0.spec_id(),
        object: object_view(output.0.object()),
        path: match output.1 {
            Some(path) => Some(path@),
            None => None,
        },
    }
}

/// The entries of a queue of tree items, as mathematical values.
pub open spec fn items_view(items: Seq<TreeItem>) -> Seq<ItemView> {
    Seq::new(items.len(), |i: int| items[i]@)
}

/// The recorded paths of a vector, as mathematical values.
pub open spec fn paths_view(paths: Seq<(Id, String)>) -> Seq<(Seq<char>, Seq<char>)> {
    Seq::new(paths.len(), |i: int| (paths[i].0@, paths[i].1@))
}

/// The commits of a frontier, as mathematical values.
pub open spec fn frontier_view(commits: Seq<WithId<Commit>>) -> Seq<FrontierEntry> {
    Seq::new(commits.len(), |i: int| (commits[i].spec_id(), commits[i].object()@))
}

/// Joins a directory path and an entry name.
pub fn join(path: &str, name: &str) -> (r: String)
    ensures
        r@ == join_path(path@, name@),
{
    let n = name.unicode_len();
    if n > 0 && name.get_char(0) == '/' {
        return name.to_owned();
    }
    let p = path.unicode_len();
    let mut joined = path.to_owned();
    if p > 0 && path.get_char(p - 1) != '/' {
        proof {
            reveal_strlit("/");
        }
        joined.append("/");
        assert(joined@ =~= path@.push('/'));
    }
    joined.append(name);
    joined
}

/// Ranks a commit by the time of its committer.
pub struct CommitDate;

impl KeyFn<WithId<Commit>, Option<u64>> for CommitDate {
    open spec fn key_of(&self, value: &WithId<Commit>) -> Option<u64> {
        value.object()@.time
    }

    fn key(&self, value: &WithId<Commit>) -> (k: Option<u64>) {
        value.get().date()
    }
}

struct Db<'a>(&'a Database);

impl<'a> Db<'a> {
    fn load_commit(&self, id: &Id) -> (r: Option<WithId<Commit>>)
        ensures
            match r {
                Some(commit) => commit.spec_id() == id@ && load_commit(self.0@, id@) == Some(
                    commit.object()@,
                ),
                None => load_commit(self.0@, id@) is None,
            },
    {
        match self.load(id) {
            None => None,
            Some(object) => object.as_commit(),
        }
    }

    fn load_tree(&self, id: &Id) -> (r: Option<WithId<Tree>>)
        ensures
            match r {
                Some(tree) => tree.spec_id() == id@ && load_tree(self.0@, id@) == Some(
                    tree.object()@,
                ),
                None => load_tree(self.0@, id@) is None,
            },
    {
        match self.load(id) {
            None => None,
            Some(object) => object.as_tree(),
        }
    }

    fn load(&self, id: &Id) -> (r: Option<WithId<Object>>)
        ensures
            match r {
                Some(found) => found.spec_id() == id@ && crate::db::load_object(self.0@, id@)
                    == Some(object_view(found.object())),
                None => crate::db::load_object(self.0@, id@) is None,
            },
    {
        self.0.load(id)
    }
}

enum Flag {
    Added,
    Seen,
}

/// Whether `ids` holds `id`.
fn holds(ids: &Vec<Id>, id: &Id) -> (b: bool)
    ensures
        b == ids_view(ids@).contains(id@),
{
    let n = ids.len();
    let mut i: usize = 0;
    while i < n
        invariant
            i <= n,
            n == ids@.len(),
            forall|j: int| 0 <= j < i ==> ids_view(ids@)[j] != id@,
        decreases n - i,
    {
        if ids[i] == *id {
            assert(ids_view(ids@)[i as int] == id@);
            return true;
        }
        i += 1;
    }
    false
}

struct Queue {
    commits: PriorityQueue<WithId<Commit>, Option<u64>, CommitDate>,
    seen: Vec<Id>,
    added: Vec<Id>,
}

impl Queue {
    spec fn frontier(&self) -> Seq<FrontierEntry> {
        frontier_view(self.commits.items())
    }

    spec fn wf(&self) -> bool {
        self.commits.wf()
    }

    proof fn lemma_ranks(&self)
        ensures
            self.commits.ranks() == frontier_ranks(self.frontier()),
    {
        assert(self.commits.ranks() =~= frontier_ranks(self.frontier()));
    }

    fn new() -> (q: Self)
        ensures
            q.wf(),
            q.frontier() == Seq::<FrontierEntry>::empty(),
            q.seen@ == Seq::<Id>::empty(),
            q.added@ == Seq::<Id>::empty(),
    {
        let q = Queue { commits: PriorityQueue::new(CommitDate), seen: Vec::new(), added: Vec::new() };
        assert(q.frontier() =~= Seq::<FrontierEntry>::empty());
        q
    }

    fn mark(&mut self, id: &Id, flag: Flag) -> (fresh: bool)
        ensures
            final(self).commits == old(self).commits,
            match flag {
                Flag::Seen => {
                    &&& fresh == !ids_view(old(self).seen@).contains(id@)
                    &&& final(self).added == old(self).added
                    &&& ids_view(final(self).seen@) == if fresh {
                        ids_view(old(self).seen@).push(id@)
                    } else {
                        ids_view(old(self).seen@)
                    }
                },
                Flag::Added => {
                    &&& fresh == !ids_view(old(self).added@).contains(id@)
                    &&& final(self).seen == old(self).seen
                    &&& ids_view(final(self).added@) == if fresh {
                        ids_view(old(self).added@).push(id@)
                    } else {
                        ids_view(old(self).added@)
                    }
                },
            },
    {
        match flag {
            Flag::Seen => {
                if holds(&self.seen, id) {
                    false
                } else {
                    self.seen.push(id.clone());
                    assert(ids_view(self.seen@) =~= ids_view(old(self).seen@).push(id@));
                    true
                }
            },
            Flag::Added => {
                if holds(&self.added, id) {
                    false
                } else {
                    self.added.push(id.clone());
                    assert(ids_view(self.added@) =~= ids_view(old(self).added@).push(id@));
                    true
                }
            },
        }
    }

    fn push(&mut self, commit: WithId<Commit>)
        requires
            old(self).wf(),
        ensures
            final(self).wf(),
            final(self).added == old(self).added,
            ids_view(old(self).seen@).contains(commit.spec_id()) ==> final(self).frontier() == old(
                self,
            ).frontier() && ids_view(final(self).seen@) == ids_view(old(self).seen@),
            !ids_view(old(self).seen@).contains(commit.spec_id()) ==> final(self).frontier()
                == old(self).frontier().insert(
                insert_position(
                    frontier_ranks(old(self).frontier()),
                    commit_rank(commit.object()@),
                ),
                (commit.spec_id(), commit.object()@),
            ) && ids_view(final(self).seen@) == ids_view(old(self).seen@).push(commit.spec_id()),
    {
        proof {
            self.lemma_ranks();
        }
        if self.mark(commit.id(), Flag::Seen) {
            let ghost before = self.commits.items();
            let ghost k = insert_position(self.commits.ranks(), self.commits.rank_of(commit));
            proof {
                self.commits.lemma_ranks_ascend();
                crate::priority_queue::lemma_insert_position(
                    self.commits.ranks(),
                    self.commits.rank_of(commit),
                );
            }
            self.commits.push(commit);
            assert(frontier_view(before.insert(k, commit)) =~= frontier_view(before).insert(
                k,
                (commit.spec_id(), commit.object()@),
            ));
        }
    }

    fn pop(&mut self) -> (r: Option<WithId<Commit>>)
        requires
            old(self).wf(),
        ensures
            final(self).wf(),
            final(self).seen == old(self).seen,
            final(self).added == old(self).added,
            match r {
                Some(commit) => old(self).frontier().len() > 0 && old(self).frontier().last() == (
                    commit.spec_id(),
                    commit.object()@,
                ) && final(self).frontier() == old(self).frontier().drop_last(),
                None => old(self).frontier().len() == 0 && final(self).frontier() == old(
                    self,
                ).frontier(),
            },
    {
        let r = self.commits.pop();
        proof {
            if r is Some {
                assert(frontier_view(old(self).commits.items().drop_last()) =~= old(
                    self,
                ).frontier().drop_last());
            }
        }
        r
    }
}

/// A walk over the commits that the start points reach, and then over the
/// trees of those commits.
pub struct RevList<'a> {
    db: Db<'a>,
    queue: Queue,
    pending: VecDeque<TreeItem>,
    paths: Vec<(Id, String)>,
}

impl<'a> View for RevList<'a> {
    type V = WalkView;

    closed spec fn view(&self) -> WalkView {
        WalkView {
            frontier: self.queue.frontier(),
            pending: items_view(self.pending@),
            seen: ids_view(self.queue.seen@),
            added: ids_view(self.queue.added@),
            paths: paths_view(self.paths@),
        }
    }
}

impl<'a> RevList<'a> {
    /// The invariant of a walk: its frontier is ordered, no identifier occurs
    /// twice in a list that should hold it once, and every identifier that was
    /// seen is known to the store.
    pub closed spec fn wf(&self) -> bool {
        self.ordered() && sound(self@) && within(self.database(), self@)
    }

    spec fn ordered(&self) -> bool {
        self.queue.wf()
    }

    /// The state of a walk that meets its invariant is sound.
    pub proof fn lemma_wf_is_sound(&self)
        requires
            self.wf(),
        ensures
            sound(self@),
            within(self.database(), self@),
    {
    }

    /// The files of the store that the walk reads.
    pub closed spec fn database(&self) -> Seq<FileView> {
        self.db.0@
    }

    /// A walk over `repo` from the heads named in `args`.
    pub fn new(repo: &'a Repository, args: &[String]) -> (r: Self)
        ensures
            r.wf(),
            r.database() == repo.database@,
            r@ == start_points(repo.database@, repo.refs@, texts_view(args@)),
    {
        let mut rev_list = RevList {
            db: Db(&repo.database),
            queue: Queue::new(),
            pending: VecDeque::new(),
            paths: Vec::new(),
        };
        let ghost revs = texts_view(args@);
        let n = args.len();
        let mut i: usize = 0;
        proof {
            assert(rev_list@.pending =~= Seq::<ItemView>::empty());
            assert(rev_list@.seen =~= Seq::<Seq<char>>::empty());
            assert(rev_list@.added =~= Seq::<Seq<char>>::empty());
            assert(rev_list@.paths =~= Seq::<(Seq<char>, Seq<char>)>::empty());
            assert(rev_list@ == empty_walk());
            assert(revs.take(0) =~= Seq::<Seq<char>>::empty());
        }
        while i < n
            invariant
                i <= n,
                n == args@.len(),
                revs == texts_view(args@),
                rev_list.ordered(),
                rev_list.database() == repo.database@,
                rev_list@ == start_points(repo.database@, repo.refs@, revs.take(i as int)),
            decreases n - i,
        {
            proof {
                let t = revs.take(i + 1);
                assert(t.drop_last() =~= revs.take(i as int));
                assert(t.last() == args@[i as int]@);
            }
            rev_list.set_start_point(repo, args[i].as_str());
            i += 1;
        }
        proof {
            assert(revs.take(n as int) =~= revs);
            lemma_start_points_sound(repo.database@, repo.refs@, revs);
            lemma_start_points_balanced(repo.database@, repo.refs@, revs);
        }
        rev_list
    }

    fn set_start_point(&mut self, repo: &Repository, rev: &str)
        requires
            old(self).ordered(),
            old(self).database() == repo.database@,
        ensures
            final(self).ordered(),
            final(self).database() == old(self).database(),
            final(self)@ == start_point(repo.database@, repo.refs@, old(self)@, rev@),
    {
        let id = match repo.refs.read_ref(rev) {
            None => {
                return ;
            },
            Some(id) => id,
        };
        if let Some(commit) = self.db.load_commit(&id) {
            self.queue.push(commit);
        }
    }

    fn add_parents(&mut self, commit: &WithId<Commit>)
        requires
            old(self).ordered(),
        ensures
            final(self).ordered(),
            final(self).database() == old(self).database(),
            final(self)@ == add_parents(
                old(self).database(),
                old(self)@,
                commit.spec_id(),
                commit.object()@,
            ),
    {
        if !self.queue.mark(commit.id(), Flag::Added) {
            return ;
        }
        let parents = commit.get().parents();
        let ghost files = self.database();
        let ghost start = self@;
        let ghost ids = commit.object()@.parents;
        let n = parents.len();
        let mut i: usize = 0;
        proof {
            assert(ids.take(0) =~= Seq::<Seq<char>>::empty());
        }
        while i < n
            invariant
                i <= n,
                n == parents@.len(),
                ids == ids_view(parents@),
                self.ordered(),
                self.database() == files,
                self@ == add_parent_list(files, start, ids.take(i as int)),
            decreases n - i,
        {
            proof {
                let t = ids.take(i + 1);
                assert(t.drop_last() =~= ids.take(i as int));
                assert(t.last() == parents@[i as int]@);
            }
            if !holds(&self.queue.seen, &parents[i]) {
                if let Some(parent) = self.db.load_commit(&parents[i]) {
                    self.queue.push(parent);
                }
            }
            i += 1;
        }
        proof {
            assert(ids.take(n as int) =~= ids);
        }
    }

    fn find_path(&self, id: &Id) -> (r: Option<&String>)
        ensures
            match r {
                Some(path) => lookup_path(self@.paths, id@) == Some(path@),
                None => lookup_path(self@.paths, id@) is None,
            },
    {
        let n = self.paths.len();
        let mut i: usize = 0;
        let ghost paths = self@.paths;
        assert(paths.skip(0) =~= paths);
        while i < n
            invariant
                i <= n,
                n == self.paths@.len(),
                paths == paths_view(self.paths@),
                lookup_path(paths, id@) == lookup_path(paths.skip(i as int), id@),
            decreases n - i,
        {
            proof {
                assert(paths.skip(i as int).drop_first() =~= paths.skip(i + 1));
                assert(paths.skip(i as int)[0] == paths[i as int]);
            }
            if self.paths[i].0 == *id {
                return Some(&self.paths[i].1);
            }
            i += 1;
        }
        None
    }

    fn record_path(&mut self, id: &Id, path: &String)
        ensures
            final(self).ordered() == old(self).ordered(),
            final(self).database() == old(self).database(),
            final(self).queue == old(self).queue,
            final(self)@ == record_path(old(self)@, id@, path@),
    {
        if self.find_path(id).is_none() {
            self.paths.push((id.clone(), path.clone()));
            assert(paths_view(self.paths@) =~= paths_view(old(self).paths@).push((id@, path@)));
        }
    }

    fn add_tree_items(&mut self, item: &TreeItem, path: String)
        requires
            old(self).ordered(),
        ensures
            final(self).ordered(),
            final(self).database() == old(self).database(),
            final(self)@ == expand_item(old(self).database(), old(self)@, item@, path@),
            final(self)@.seen.len() >= old(self)@.seen.len(),
        decreases usize::MAX - old(self)@.seen.len(),
    {
        self.record_path(item.id(), &path);
        if !item.is_tree() {
            return ;
        }
        let tree = match self.db.load_tree(item.id()) {
            None => {
                return ;
            },
            Some(tree) => tree,
        };
        let entries = tree.get().items();
        let ghost files = self.database();
        let ghost start = self@;
        let ghost names = tree.object()@;
        let mut k = entries.len();
        while k > 0
            invariant
                k <= entries@.len(),
                entries_view(entries@) == names,
                self.ordered(),
                self.database() == files,
                self@.seen.len() >= old(self)@.seen.len(),
                expand_children(files, start, names, names.len() as int, path@) == expand_children(
                    files,
                    self@,
                    names,
                    k as int,
                    path@,
                ),
            decreases k,
        {
            let name = &entries[k - 1].0;
            let child = &entries[k - 1].1;
            let ghost before = self@;
            proof {
                assert(names[k - 1] == (name@, child@));
            }
            if self.queue.mark(child.id(), Flag::Seen) {
                // The length of a vector fits a machine word, so the list had
                // room for the mark.
                let marked = self.queue.seen.len();
                assert(ids_view(self.queue.seen@).len() == marked);
                assert(self@ == mark_seen(before, child@.id));
                assert(before.seen.len() < usize::MAX);
                self.add_tree_items(child, join(path.as_str(), name.as_str()));
                let ghost expanded = self@;
                self.pending.push_front(child.clone());
                proof {
                    assert(items_view(self.pending@) =~= seq![child@] + expanded.pending);
                }
            }
            k -= 1;
        }
    }

    fn from_queue(&mut self) -> (r: Option<WithId<Object>>)
        requires
            old(self).ordered(),
        ensures
            final(self).ordered(),
            final(self).database() == old(self).database(),
            match r {
                Some(object) => old(self)@.frontier.len() > 0 && commit_phase(
                    old(self).database(),
                    old(self)@,
                ) == (
                    final(self)@,
                    OutputView {
                        id: object.spec_id(),
                        object: object_view(object.object()),
                        path: None,
                    },
                ),
                None => old(self)@.frontier.len() == 0 && final(self)@ == old(self)@,
            },
    {
        let commit = match self.queue.pop() {
            None => {
                return None;
            },
            Some(commit) => commit,
        };
        self.add_parents(&commit);
        let ghost grown = self@;
        self.pending.push_back(commit.get().tree_item());
        proof {
            assert(items_view(self.pending@) =~= grown.pending.push(root_item(commit.object()@)));
        }
        let (id, commit) = commit.into_parts();
        Some(WithId::new(id, Object::Commit(commit)))
    }

    fn from_pending(&mut self) -> (r: Option<(WithId<Object>, String)>)
        requires
            old(self).ordered(),
        ensures
            final(self).ordered(),
            final(self).database() == old(self).database(),
            match r {
                Some((object, path)) => old(self)@.pending.len() > 0 && tree_phase(
                    old(self).database(),
                    old(self)@,
                ) == (
                    final(self)@,
                    OutputView {
                        id: object.spec_id(),
                        object: object_view(object.object()),
                        path: Some(path@),
                    },
                ),
                None => old(self)@.pending.len() == 0 && final(self)@ == old(self)@,
            },
    {
        let item = match self.pending.pop_front() {
            None => {
                return None;
            },
            Some(item) => item,
        };
        proof {
            assert(items_view(self.pending@) =~= old(self)@.pending.drop_first());
            assert(old(self)@.pending[0] == item@);
        }
        self.add_tree_items(&item, String::new());
        let path = match self.find_path(item.id()) {
            Some(path) => path.clone(),
            None => String::new(),
        };
        let object = WithId::new(item.id().clone(), Object::TreeItem(item));
        Some((object, path))
    }

    /// Hands out the next object of the walk, or `None` when the walk is over.
    pub fn next(&mut self) -> (r: Option<(WithId<Object>, Option<String>)>)
        requires
            old(self).wf(),
        ensures
            final(self).wf(),
            final(self).database() == old(self).database(),
            match r {
                Some(output) => step(old(self).database(), old(self)@) == (
                    final(self)@,
                    Some(output_view(output)),
                ),
                None => step(old(self).database(), old(self)@) == (
                    old(self)@,
                    None::<OutputView>,
                ) && final(self)@ == old(self)@,
            },
    {
        proof {
            lemma_step_uses_room(self.database(), self@);
        }
        match self.from_queue() {
            Some(commit) => Some((commit, None)),
            None => match self.from_pending() {
                Some((object, path)) => Some((object, Some(path))),
                None => None,
            },
        }
    }

    /// Hands out every object that is left, in the order of the walk.
    pub fn collect(&mut self) -> (r: Vec<(WithId<Object>, Option<String>)>)
        requires
            old(self).wf(),
        ensures
            final(self).wf(),
            final(self).database() == old(self).database(),
            final(self)@ == run(old(self).database(), old(self)@, r@.len()),
            forall|i: int|
                0 <= i < r@.len() ==> output_at(old(self).database(), old(self)@, i as nat)
                    == Some(output_view(#[trigger] r@[i])),
            output_at(old(self).database(), old(self)@, r@.len()) is None,
    {
        let mut outputs: Vec<(WithId<Object>, Option<String>)> = Vec::new();
        let ghost files = self.database();
        let ghost start = self@;
        loop
            invariant
                self.wf(),
                self.database() == files,
                files == old(self).database(),
                start == old(self)@,
                self@ == run(files, start, outputs@.len()),
                forall|i: int|
                    0 <= i < outputs@.len() ==> output_at(files, start, i as nat) == Some(
                        output_view(#[trigger] outputs@[i]),
                    ),
            decreases potential(files, self@),
        {
            proof {
                lemma_step_uses_room(files, self@);
            }
            match self.next() {
                None => {
                    return outputs;
                },
                Some(output) => {
                    outputs.push(output);
                    proof {
                        lemma_step_uses_room(files, self@);
                    }
                },
            }
        }
    }
}

} // verus!
