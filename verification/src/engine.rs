//! The cycle that keeps the two directories in step.
//!
//! The engine holds both trees and decides what happens next. It does no
//! input or output of its own: the program around it waits for filesystem
//! notifications, reads directories and carries out file operations, and
//! tells the engine what came of it. Each [`Event`] that is handed to
//! [`GpgSync::step`] is answered with the [`Action`] to take next.
//!
//! One cycle runs as follows. While notifications come in, the paths they
//! name are gathered. Once it has been quiet for a while, the gathered paths
//! are read from disk and both trees are reconciled with what was found. If
//! no further notification came in meanwhile, the trees are merged into a
//! list of file operations; if still none came in, the operations are carried
//! out, with the notifications switched off, and then carried over into the
//! trees, which are pruned and cleaned. A notification that comes in between
//! discards the cycle.

use vstd::prelude::*;
use crate::diff::{opt_node_view, reconcile, TreeReconciler};
use crate::file_op::{all_relative, ops_view, FileOpView, FileOperation, TreeType};
use crate::merge::{calculate_merge, can_merge, merge_dirs, mergeable};
use crate::merge_lemmas::lemma_merge_of_clean_is_empty;
use crate::path::{root_path, PathView, SyncPath};
use crate::path_aggregator::{marked, marked_all, paths_view, PathAggregator};
use crate::tree::{NodeView, Tree, TreeNode};
use crate::update::{all_applicable, try_update_trees, update_all};

verus! {

/// Where the engine stands in its cycle.
#[derive(Clone, Copy, Debug, PartialEq, Eq, Structural)]
pub enum Phase {
    /// Notifications are gathered.
    Gathering,
    /// The gathered paths are being read from disk.
    Diffing,
    /// The trees are reconciled; it is being asked whether notifications
    /// have come in since.
    FirstCheck,
    /// The trees are merged; it is being asked once more.
    SecondCheck,
    /// The file operations are being carried out.
    Executing,
}

/// Why a cycle failed.
#[derive(Clone, Copy, Debug, PartialEq, Eq, Structural)]
pub enum Failure {
    /// The lists of snapshots do not have one snapshot for each path that
    /// was to be read.
    Snapshots,
    /// The path at this position of the paths that were to be read on this
    /// side is neither on disk nor in the tree.
    Vanished(TreeType, usize),
    /// At or below the path at this position a file stands in place of a
    /// directory, or a directory in place of a file.
    KindChanged(TreeType, usize),
    /// The trees cannot be merged: a file on one side meets a directory on
    /// the other, or two encrypted entries have one key.
    Unmergeable,
    /// The operation at this position cannot be carried over into the
    /// trees.
    Update(usize),
}

/// What the program around the engine reports.
pub enum Event {
    /// A notification came in for the given side. The paths are as the
    /// watcher gave them.
    Changed(TreeType, Vec<SyncPath>),
    /// No notification came in for the length of the quiet interval.
    Quiet,
    /// The paths that were to be read have been read: for the plaintext
    /// side and for the encrypted side, one snapshot for each path, in the
    /// order of the paths, `None` where nothing stands at the path.
    Snapshots(Vec<Option<TreeNode>>, Vec<Option<TreeNode>>),
    /// Whether notifications have come in since the last report.
    Pending(bool),
    /// The file operations have been carried out.
    Executed,
}

/// What the program around the engine is to do next.
#[derive(Debug, PartialEq)]
pub enum Action {
    /// Wait for the next notification, or for the quiet interval to pass.
    Wait,
    /// Read these paths from disk, relative to the plaintext root and to the
    /// encrypted root, and report the snapshots.
    Read(Vec<SyncPath>, Vec<SyncPath>),
    /// Report whether notifications have come in.
    Check,
    /// Switch the notifications off, carry out these operations, switch the
    /// notifications on again, and report.
    Execute(Vec<FileOperation>),
    /// The cycle is complete. The next one begins.
    Done,
    /// The cycle was given up because notifications came in. The next one
    /// begins.
    Discarded,
    /// The cycle failed.
    Failed(Failure),
    /// The event does not fit the phase. Nothing has changed.
    Unexpected,
}

/// The values of a list of snapshots, in the same order.
pub open spec fn snapshots_view(snaps: Seq<Option<TreeNode>>) -> Seq<Option<NodeView>> {
    Seq::new(
        snaps.len(),
        |i: int|
            match snaps[i] {
                Some(n) => Some(n@),
                None => None,
            },
    )
}

/// The mathematical value of an [`Event`].
pub ghost enum EventView {
    Changed(TreeType, Seq<PathView>),
    Quiet,
    Snapshots(Seq<Option<NodeView>>, Seq<Option<NodeView>>),
    Pending(bool),
    Executed,
}

impl View for Event {
    type V = EventView;

    open spec fn view(&self) -> EventView {
        match self {
            Event::Changed(side, paths) => EventView::Changed(*side, paths_view(paths@)),
            Event::Quiet => EventView::Quiet,
            Event::Snapshots(p, e) => EventView::Snapshots(snapshots_view(p@), snapshots_view(e@)),
            Event::Pending(b) => EventView::Pending(*b),
            Event::Executed => EventView::Executed,
        }
    }
}

/// The mathematical value of an [`Action`].
pub ghost enum ActionView {
    Wait,
    Read(Seq<PathView>, Seq<PathView>),
    Check,
    Execute(Seq<FileOpView>),
    Done,
    Discarded,
    Failed(Failure),
    Unexpected,
}

impl View for Action {
    type V = ActionView;

    open spec fn view(&self) -> ActionView {
        match self {
            Action::Wait => ActionView::Wait,
            Action::Read(p, e) => ActionView::Read(paths_view(p@), paths_view(e@)),
            Action::Check => ActionView::Check,
            Action::Execute(ops) => ActionView::Execute(ops_view(ops@)),
            Action::Done => ActionView::Done,
            Action::Discarded => ActionView::Discarded,
            Action::Failed(f) => ActionView::Failed(*f),
            Action::Unexpected => ActionView::Unexpected,
        }
    }
}

/// The state of the engine: the two roots, the two trees, the paths gathered
/// for each side, the operations of the merge, and the phase.
pub struct GpgSync {
    pub plain_root: SyncPath,
    pub enc_root: SyncPath,
    pub plain_tree: Tree,
    pub enc_tree: Tree,
    pub plain_paths: PathAggregator,
    pub enc_paths: PathAggregator,
    pub ops: Vec<FileOperation>,
    pub phase: Phase,
}

/// The mathematical value of a [`GpgSync`].
pub ghost struct SyncView {
    pub plain_root: PathView,
    pub enc_root: PathView,
    pub plain: NodeView,
    pub enc: NodeView,
    pub plain_paths: Seq<PathView>,
    pub enc_paths: Seq<PathView>,
    pub ops: Seq<FileOpView>,
    pub phase: Phase,
}

impl View for GpgSync {
    type V = SyncView;

    open spec fn view(&self) -> SyncView {
        SyncView {
            plain_root: self.plain_root@,
            enc_root: self.enc_root@,
            plain: self.plain_tree@,
            enc: self.enc_tree@,
            plain_paths: self.plain_paths@,
            enc_paths: self.enc_paths@,
            ops: ops_view(self.ops@),
            phase: self.phase,
        }
    }
}

/// Why an engine could not be set up.
#[derive(Clone, Copy, Debug, PartialEq, Eq, Structural)]
pub enum ConfigError {
    /// One root is the other or lies below it.
    Overlap,
    /// The plaintext root does not exist.
    PlainMissing,
    /// The encrypted root does not exist.
    EncMissing,
}

/// What is wrong with the two roots, if anything.
pub open spec fn config_error(
    plain_root: PathView,
    enc_root: PathView,
    plain_exists: bool,
    enc_exists: bool,
) -> Option<ConfigError> {
    if plain_root.starts_with(enc_root) || enc_root.starts_with(plain_root) {
        Some(ConfigError::Overlap)
    } else if !plain_exists {
        Some(ConfigError::PlainMissing)
    } else if !enc_exists {
        Some(ConfigError::EncMissing)
    } else {
        None
    }
}

/// Checks the two roots: neither may be the other or lie below it, and both
/// must exist.
pub fn validate_args(plain_root: &SyncPath, enc_root: &SyncPath, plain_exists: bool, enc_exists: bool) -> (r:
    Result<(), ConfigError>)
    ensures
        match r {
            Ok(_) => config_error(plain_root@, enc_root@, plain_exists, enc_exists) is None,
            Err(e) => config_error(plain_root@, enc_root@, plain_exists, enc_exists) == Some(e),
        },
{
    if plain_root.starts_with(enc_root) || enc_root.starts_with(plain_root) {
        Err(ConfigError::Overlap)
    } else if !plain_exists {
        Err(ConfigError::PlainMissing)
    } else if !enc_exists {
        Err(ConfigError::EncMissing)
    } else {
        Ok(())
    }
}

/// The path `p` of a notification, relative to `root`: what follows `root`
/// where `p` lies at or below it; `p` itself where it is relative already;
/// nothing for any other path.
pub open spec fn below_root(root: PathView, p: PathView) -> Option<PathView> {
    if p.starts_with(root) {
        Some(PathView { absolute: false, segments: p.segments.skip(root.segments.len() as int) })
    } else if !p.absolute {
        Some(p)
    } else {
        None
    }
}

/// The path that is gathered for the path `p` of a notification: `p`
/// relative to `root`. Nothing is gathered for a path that does not lie
/// below `root`, and nothing for a path with the name of a hidden entry among
/// its segments below `root`.
pub open spec fn relative_to(root: PathView, p: PathView) -> Option<PathView> {
    match below_root(root, p) {
        Some(rel) => if rel.is_hidden() {
            None
        } else {
            Some(rel)
        },
        None => None,
    }
}

/// The paths that are gathered for the paths `ps` of a notification, in the
/// same order.
pub open spec fn relative_paths(root: PathView, ps: Seq<PathView>) -> Seq<PathView>
    decreases ps.len(),
{
    if ps.len() == 0 {
        Seq::empty()
    } else {
        match relative_to(root, ps.last()) {
            Some(rel) => relative_paths(root, ps.drop_last()).push(rel),
            None => relative_paths(root, ps.drop_last()),
        }
    }
}

/// The path that is gathered for the path `p` of a notification.
pub fn make_relative(root: &SyncPath, p: &SyncPath) -> (r: Option<SyncPath>)
    ensures
        match r {
            Some(rel) => relative_to(root@, p@) == Some(rel@),
            None => relative_to(root@, p@) is None,
        },
{
    let rel = match p.strip_prefix(root) {
        Some(rel) => rel,
        None => if p.is_relative() {
            p.clone_path()
        } else {
            return None;
        },
    };
    if rel.is_hidden() {
        None
    } else {
        Some(rel)
    }
}

/// How reconciling a tree with a list of snapshots ends.
pub ghost enum DiffOutcome {
    /// With this tree.
    Done(NodeView),
    /// At this position: nothing on disk, and nothing in the tree.
    Vanished(int),
    /// At this position: a file in place of a directory, or a directory in
    /// place of a file.
    KindChanged(int),
}

/// The outcome of reconciling `tree` with the snapshots `snaps` of the paths
/// `paths`, one after the other.
pub open spec fn diff_all(
    tree: NodeView,
    paths: Seq<PathView>,
    snaps: Seq<Option<NodeView>>,
    side: TreeType,
) -> DiffOutcome
    decreases paths.len(),
{
    if paths.len() == 0 {
        DiffOutcome::Done(tree)
    } else {
        match diff_all(tree, paths.drop_last(), snaps.drop_last(), side) {
            DiffOutcome::Done(t) => {
                let p = paths.last().segments;
                if snaps.last() is None && t.get(p) is None {
                    DiffOutcome::Vanished(paths.len() - 1)
                } else {
                    match reconcile(t, p, snaps.last(), side) {
                        Some(next) => DiffOutcome::Done(next),
                        None => DiffOutcome::KindChanged(paths.len() - 1),
                    }
                }
            },
            other => other,
        }
    }
}

/// The state with no path gathered, no operation pending, and the phase
/// `Gathering`.
pub open spec fn rewound(s: SyncView) -> SyncView {
    SyncView { plain_paths: Seq::empty(), enc_paths: Seq::empty(), ops: Seq::empty(), phase: Phase::Gathering, ..s }
}

/// The engine answers `event` in the state `before` with `action` and is in
/// the state `after`. After a failure nothing is known of the trees.
pub open spec fn follows(before: SyncView, event: EventView, after: SyncView, action: ActionView) -> bool {
    match (before.phase, event) {
        (Phase::Gathering, EventView::Changed(TreeType::Plain, ps)) => {
            &&& action == ActionView::Wait
            &&& after == SyncView {
                plain_paths: marked_all(before.plain_paths, relative_paths(before.plain_root, ps)),
                ..before
            }
        },
        (Phase::Gathering, EventView::Changed(TreeType::Encrypted, ps)) => {
            &&& action == ActionView::Wait
            &&& after == SyncView {
                enc_paths: marked_all(before.enc_paths, relative_paths(before.enc_root, ps)),
                ..before
            }
        },
        (Phase::Gathering, EventView::Quiet) => {
            &&& action == ActionView::Read(before.plain_paths, before.enc_paths)
            &&& after == SyncView { phase: Phase::Diffing, ..before }
        },
        (Phase::Diffing, EventView::Snapshots(ps, es)) => {
            if ps.len() != before.plain_paths.len() || es.len() != before.enc_paths.len() {
                action == ActionView::Failed(Failure::Snapshots)
            } else {
                match diff_all(before.plain, before.plain_paths, ps, TreeType::Plain) {
                    DiffOutcome::Done(plain) => match diff_all(
                        before.enc,
                        before.enc_paths,
                        es,
                        TreeType::Encrypted,
                    ) {
                        DiffOutcome::Done(enc) => {
                            &&& action == ActionView::Check
                            &&& after == SyncView { plain, enc, phase: Phase::FirstCheck, ..before }
                        },
                        DiffOutcome::Vanished(i) => action == ActionView::Failed(
                            Failure::Vanished(TreeType::Encrypted, i as usize),
                        ),
                        DiffOutcome::KindChanged(i) => action == ActionView::Failed(
                            Failure::KindChanged(TreeType::Encrypted, i as usize),
                        ),
                    },
                    DiffOutcome::Vanished(i) => action == ActionView::Failed(
                        Failure::Vanished(TreeType::Plain, i as usize),
                    ),
                    DiffOutcome::KindChanged(i) => action == ActionView::Failed(
                        Failure::KindChanged(TreeType::Plain, i as usize),
                    ),
                }
            }
        },
        (Phase::FirstCheck, EventView::Pending(true)) => {
            &&& action == ActionView::Discarded
            &&& after == rewound(before)
        },
        (Phase::FirstCheck, EventView::Pending(false)) => {
            if mergeable(before.enc, before.plain) {
                &&& action == ActionView::Check
                &&& after == SyncView {
                    ops: merge_dirs(before.enc, before.plain, root_path()),
                    phase: Phase::SecondCheck,
                    ..before
                }
            } else {
                action == ActionView::Failed(Failure::Unmergeable)
            }
        },
        (Phase::SecondCheck, EventView::Pending(true)) => {
            &&& action == ActionView::Discarded
            &&& after == rewound(before)
        },
        (Phase::SecondCheck, EventView::Pending(false)) => {
            &&& action == ActionView::Execute(before.ops)
            &&& after == SyncView { phase: Phase::Executing, ..before }
        },
        (Phase::Executing, EventView::Executed) => {
            if all_applicable(before.enc, before.plain, before.ops) {
                let (enc, plain) = update_all(before.enc, before.plain, before.ops);
                &&& action == ActionView::Done
                &&& after == rewound(
                    SyncView { enc: enc.pruned().cleaned(), plain: plain.pruned().cleaned(), ..before },
                )
            } else {
                action matches ActionView::Failed(Failure::Update(_))
            }
        },
        _ => {
            &&& action == ActionView::Unexpected
            &&& after == before
        },
    }
}

/// Reconciles `tree` with the snapshots `snaps` of the paths `paths`, one
/// after the other, and says how that ended.
fn diff_paths(tree: &mut Tree, paths: &Vec<SyncPath>, snaps: &Vec<Option<TreeNode>>, side: TreeType) -> (r:
    Option<Failure>)
    requires
        old(tree).wf(),
        paths@.len() == snaps@.len(),
    ensures
        final(tree).wf(),
        match diff_all(old(tree)@, paths_view(paths@), snapshots_view(snaps@), side) {
            DiffOutcome::Done(t) => r is None && final(tree)@ == t,
            DiffOutcome::Vanished(i) => r == Some(Failure::Vanished(side, i as usize)),
            DiffOutcome::KindChanged(i) => r == Some(Failure::KindChanged(side, i as usize)),
        },
{
    let ghost pv = paths_view(paths@);
    let ghost sv = snapshots_view(snaps@);
    let mut i: usize = 0;
    proof {
        assert(pv.take(0) =~= Seq::<PathView>::empty());
    }
    while i < paths.len()
        invariant
            i <= paths@.len(),
            paths@.len() == snaps@.len(),
            pv == paths_view(paths@),
            sv == snapshots_view(snaps@),
            tree.wf(),
            diff_all(old(tree)@, pv.take(i as int), sv.take(i as int), side) == DiffOutcome::Done(tree@),
        decreases paths@.len() - i,
    {
        proof {
            assert(pv.take(i + 1).drop_last() =~= pv.take(i as int));
            assert(sv.take(i + 1).drop_last() =~= sv.take(i as int));
            assert(pv.take(i + 1).last() == paths@[i as int]@);
            assert(sv.take(i + 1).last() == sv[i as int]);
        }
        let snap = snaps[i].as_ref();
        assert(opt_node_view(snap) == sv[i as int]);
        if snap.is_none() && tree.get(&paths[i]).is_none() {
            proof {
                lemma_diff_all_fails(old(tree)@, pv, sv, side, i + 1);
            }
            return Some(Failure::Vanished(side, i));
        }
        match TreeReconciler::diff_from_filesystem(snap, tree, &paths[i], side) {
            Ok(_) => {},
            Err(_) => {
                proof {
                    lemma_diff_all_fails(old(tree)@, pv, sv, side, i + 1);
                }
                return Some(Failure::KindChanged(side, i));
            },
        }
        i += 1;
    }
    proof {
        assert(pv.take(pv.len() as int) =~= pv);
        assert(sv.take(sv.len() as int) =~= sv);
    }
    None
}

/// Where reconciling with the first `k` snapshots fails, reconciling with
/// all of them fails in the same way.
proof fn lemma_diff_all_fails(
    tree: NodeView,
    paths: Seq<PathView>,
    snaps: Seq<Option<NodeView>>,
    side: TreeType,
    k: int,
)
    requires
        paths.len() == snaps.len(),
        0 <= k <= paths.len(),
        !(diff_all(tree, paths.take(k), snaps.take(k), side) is Done),
    ensures
        diff_all(tree, paths, snaps, side) == diff_all(tree, paths.take(k), snaps.take(k), side),
    decreases paths.len(),
{
    if k == paths.len() {
        assert(paths.take(k) =~= paths);
        assert(snaps.take(k) =~= snaps);
    } else {
        assert(paths.drop_last().take(k) =~= paths.take(k));
        assert(snaps.drop_last().take(k) =~= snaps.take(k));
        lemma_diff_all_fails(tree, paths.drop_last(), snaps.drop_last(), side, k);
    }
}

/// Marks in `paths` each of the paths `ps`, made relative to `root`.
fn mark_all(paths: &mut PathAggregator, root: &SyncPath, ps: &Vec<SyncPath>)
    ensures
        final(paths)@ == marked_all(old(paths)@, relative_paths(root@, paths_view(ps@))),
{
    let ghost all = paths_view(ps@);
    let mut i: usize = 0;
    proof {
        assert(all.take(0) =~= Seq::<PathView>::empty());
    }
    while i < ps.len()
        invariant
            i <= ps@.len(),
            all == paths_view(ps@),
            paths@ == marked_all(old(paths)@, relative_paths(root@, all.take(i as int))),
        decreases ps@.len() - i,
    {
        proof {
            assert(all.take(i + 1).drop_last() =~= all.take(i as int));
            assert(all.take(i + 1).last() == ps@[i as int]@);
        }
        match make_relative(root, &ps[i]) {
            Some(rel) => {
                proof {
                    let front = relative_paths(root@, all.take(i as int));
                    assert(front.push(rel@).drop_last() =~= front);
                }
                paths.mark_path(&rel);
            },
            None => {},
        }
        i += 1;
    }
    proof {
        assert(all.take(all.len() as int) =~= all);
    }
}

/// A copy of a list of paths.
fn clone_paths(paths: &Vec<SyncPath>) -> (r: Vec<SyncPath>)
    ensures
        paths_view(r@) == paths_view(paths@),
{
    let mut out: Vec<SyncPath> = Vec::new();
    let mut i: usize = 0;
    while i < paths.len()
        invariant
            i <= paths@.len(),
            out@.len() == i,
            forall|k: int| 0 <= k < i ==> (#[trigger] out@[k])@ == paths@[k]@,
        decreases paths@.len() - i,
    {
        out.push(paths[i].clone_path());
        i += 1;
    }
    proof {
        assert(paths_view(out@) =~= paths_view(paths@));
    }
    out
}

/// A copy of a list of operations.
fn clone_ops(ops: &Vec<FileOperation>) -> (r: Vec<FileOperation>)
    ensures
        ops_view(r@) == ops_view(ops@),
{
    let mut out: Vec<FileOperation> = Vec::new();
    let mut i: usize = 0;
    while i < ops.len()
        invariant
            i <= ops@.len(),
            out@.len() == i,
            forall|k: int| 0 <= k < i ==> (#[trigger] out@[k])@ == ops@[k]@,
        decreases ops@.len() - i,
    {
        out.push(ops[i].clone_op());
        i += 1;
    }
    proof {
        assert(ops_view(out@) =~= ops_view(ops@));
    }
    out
}

impl GpgSync {
    /// Both trees are well-formed, and the pending operations have
    /// relative paths only.
    pub open spec fn wf(&self) -> bool {
        self.plain_tree.wf() && self.enc_tree.wf() && all_relative(ops_view(self.ops@))
    }

    /// An engine for the two roots, which are read from the directory `cwd`
    /// where they are relative. Both trees are empty, and the root of each
    /// side is marked, so that the first cycle reads both directories in
    /// full.
    pub fn new(
        plain_root: &SyncPath,
        enc_root: &SyncPath,
        cwd: &SyncPath,
        plain_exists: bool,
        enc_exists: bool,
    ) -> (r: Result<GpgSync, ConfigError>)
        ensures
            match r {
                Ok(s) => {
                    &&& config_error(
                        cwd@.join(plain_root@),
                        cwd@.join(enc_root@),
                        plain_exists,
                        enc_exists,
                    ) is None
                    &&& s.wf()
                    &&& s@.plain_root == cwd@.join(plain_root@)
                    &&& s@.enc_root == cwd@.join(enc_root@)
                    &&& s@.plain.children == Some(Seq::<crate::tree::EntryView>::empty())
                    &&& s@.enc.children == Some(Seq::<crate::tree::EntryView>::empty())
                    &&& s@.plain.dirt is None
                    &&& s@.enc.dirt is None
                    &&& s@.plain_paths == seq![root_path()]
                    &&& s@.enc_paths == seq![root_path()]
                    &&& s@.ops == Seq::<FileOpView>::empty()
                    &&& s@.phase == Phase::Gathering
                },
                Err(e) => config_error(
                    cwd@.join(plain_root@),
                    cwd@.join(enc_root@),
                    plain_exists,
                    enc_exists,
                ) == Some(e),
            },
    {
        let plain_root = cwd.join(plain_root);
        let enc_root = cwd.join(enc_root);
        match validate_args(&plain_root, &enc_root, plain_exists, enc_exists) {
            Ok(_) => {},
            Err(e) => {
                return Err(e);
            },
        }
        let top = SyncPath::new();
        let mut plain_paths = PathAggregator::new();
        plain_paths.mark_path(&top);
        let mut enc_paths = PathAggregator::new();
        enc_paths.mark_path(&top);
        proof {
            lemma_mark_first(top@, plain_paths@);
            lemma_mark_first(top@, enc_paths@);
        }
        let ops: Vec<FileOperation> = Vec::new();
        proof {
            assert(ops_view(ops@) =~= Seq::<FileOpView>::empty());
        }
        Ok(
            GpgSync {
                plain_root,
                enc_root,
                plain_tree: Tree::new(),
                enc_tree: Tree::new(),
                plain_paths,
                enc_paths,
                ops,
                phase: Phase::Gathering,
            },
        )
    }

    /// Forgets the gathered paths and the pending operations and goes back
    /// to gathering.
    fn rewind(&mut self)
        ensures
            final(self)@ == rewound(old(self)@),
            final(self).plain_tree == old(self).plain_tree,
            final(self).enc_tree == old(self).enc_tree,
    {
        self.plain_paths = PathAggregator::new();
        self.enc_paths = PathAggregator::new();
        self.ops = Vec::new();
        self.phase = Phase::Gathering;
        proof {
            assert(ops_view(self.ops@) =~= Seq::<FileOpView>::empty());
        }
    }

    /// Answers `event` with the action to take next.
    ///
    /// When a cycle is done, both trees are without dirt, and merging them
    /// again would ask for no operation.
    pub fn step(&mut self, event: Event) -> (action: Action)
        requires
            old(self).wf(),
        ensures
            final(self).wf(),
            follows(old(self)@, event@, final(self)@, action@),
            action@ is Done ==> {
                &&& final(self)@.plain.is_clean()
                &&& final(self)@.enc.is_clean()
                &&& merge_dirs(final(self)@.enc, final(self)@.plain, root_path()) == Seq::<FileOpView>::empty()
            },
            action@ matches ActionView::Execute(ops) ==> all_relative(ops),
    {
        match self.phase {
            Phase::Gathering => match event {
                Event::Changed(side, paths) => {
                    match side {
                        TreeType::Plain => {
                            mark_all(&mut self.plain_paths, &self.plain_root, &paths);
                        },
                        TreeType::Encrypted => {
                            mark_all(&mut self.enc_paths, &self.enc_root, &paths);
                        },
                    }
                    Action::Wait
                },
                Event::Quiet => {
                    self.phase = Phase::Diffing;
                    Action::Read(clone_paths(self.plain_paths.iter()), clone_paths(self.enc_paths.iter()))
                },
                _ => Action::Unexpected,
            },
            Phase::Diffing => match event {
                Event::Snapshots(plain_snaps, enc_snaps) => {
                    if plain_snaps.len() != self.plain_paths.iter().len() || enc_snaps.len()
                        != self.enc_paths.iter().len() {
                        return Action::Failed(Failure::Snapshots);
                    }
                    match diff_paths(
                        &mut self.plain_tree,
                        self.plain_paths.iter(),
                        &plain_snaps,
                        TreeType::Plain,
                    ) {
                        Some(f) => {
                            return Action::Failed(f);
                        },
                        None => {},
                    }
                    match diff_paths(
                        &mut self.enc_tree,
                        self.enc_paths.iter(),
                        &enc_snaps,
                        TreeType::Encrypted,
                    ) {
                        Some(f) => {
                            return Action::Failed(f);
                        },
                        None => {},
                    }
                    self.phase = Phase::FirstCheck;
                    Action::Check
                },
                _ => Action::Unexpected,
            },
            Phase::FirstCheck => match event {
                Event::Pending(pending) => {
                    if pending {
                        self.rewind();
                        return Action::Discarded;
                    }
                    if !can_merge(&self.enc_tree, &self.plain_tree) {
                        return Action::Failed(Failure::Unmergeable);
                    }
                    self.ops = calculate_merge(&self.enc_tree, &self.plain_tree);
                    self.phase = Phase::SecondCheck;
                    Action::Check
                },
                _ => Action::Unexpected,
            },
            Phase::SecondCheck => match event {
                Event::Pending(pending) => {
                    if pending {
                        self.rewind();
                        return Action::Discarded;
                    }
                    self.phase = Phase::Executing;
                    Action::Execute(clone_ops(&self.ops))
                },
                _ => Action::Unexpected,
            },
            Phase::Executing => match event {
                Event::Executed => {
                    match try_update_trees(&mut self.enc_tree, &mut self.plain_tree, &self.ops) {
                        Some(k) => {
                            return Action::Failed(Failure::Update(k));
                        },
                        None => {},
                    }
                    self.plain_tree.prune_deleted();
                    self.enc_tree.prune_deleted();
                    self.plain_tree.clean();
                    self.enc_tree.clean();
                    self.rewind();
                    proof {
                        lemma_merge_of_clean_is_empty(self.enc_tree@, self.plain_tree@, root_path());
                    }
                    Action::Done
                },
                _ => Action::Unexpected,
            },
        }
    }
}

/// Marking a path in an empty list leaves that path alone.
proof fn lemma_mark_first(p: PathView, out: Seq<PathView>)
    requires
        out == marked(Seq::<PathView>::empty(), p),
    ensures
        out == seq![p],
{
    let empty = Seq::<PathView>::empty();
    assert(!crate::path_aggregator::covered(empty, p));
    let one = seq![p];
    assert(crate::path_aggregator::is_marked(empty, p, one)) by {
        assert forall|q: PathView| one.contains(q) <==> (q == p || (empty.contains(q) && !q.starts_with(p))) by {
            if q == p {
                assert(one[0] == q);
            }
        }
    }
    crate::path_aggregator::lemma_sorted_unique(out, one);
}

} // verus!
