//! The paste engine: walks each source tree in pre-order, resolves name
//! collisions at the destination through the conflict resolver, transfers
//! entries one by one while feeding the throughput estimator and the
//! progress channel, and — for a cut — removes the sources afterwards, but
//! only when every entry was transferred and none was skipped.

use crate::conflict::{ConflictState, RenameOption, RenameWindowReturn};
use crate::estimator::{estimate_time_left, spec_average, spec_update, SpeedEstimator};
use crate::fs::{
    distinct_paths, find, has_path, is_path_prefix, lemma_find_at_index, lemma_find_none,
    lemma_find_push, parent_of, path_eq, path_is_prefix, path_join, Fs, FsNode, FsNodeV, PathV,
};
use crate::progress::{
    format_size_progress_status, spec_size_progress_status, ProgressSink, TransferProgress,
};
use vstd::prelude::*;

verus! {

/// Operations below this total size show no progress window; the UI is
/// refreshed once at the end instead.
pub const PROGRESS_WINDOW_BYTE_THRESHOLD: u64 = 1048576;

/// The user's answers, consumed one per conflict prompt. It stands for the
/// blocking rename dialog: the walk stops at each unresolved conflict and
/// takes the next answer; when none is left the dialog counts as
/// unreachable and the entry is skipped.
pub struct ResolverScript {
    responses: Vec<RenameWindowReturn>,
    next: usize,
}

impl ResolverScript {
    /// The answers not yet consumed.
    pub closed spec fn remaining(self) -> Seq<RenameWindowReturn> {
        self.responses@.skip(self.next as int)
    }

    pub closed spec fn wf(self) -> bool {
        self.next <= self.responses@.len()
    }

    /// A script that will answer the given responses in order.
    pub fn new(responses: Vec<RenameWindowReturn>) -> (r: ResolverScript)
        ensures
            r.wf(),
            r.remaining() == responses@,
    {
        let r = ResolverScript { responses, next: 0 };
        proof {
            assert(r.remaining() =~= r.responses@);
        }
        r
    }

    /// Consumes the next answer.
    pub fn next_response(&mut self) -> (r: Option<RenameWindowReturn>)
        requires
            old(self).wf(),
        ensures
            final(self).wf(),
            old(self).remaining().len() == 0 ==> r is None && final(self).remaining() == old(self).remaining(),
            old(self).remaining().len() > 0 ==> r == Some(old(self).remaining().first())
                && final(self).remaining() == old(self).remaining().drop_first(),
    {
        if self.next < self.responses.len() {
            // rebuild the answer field by field, copying the strings
            let filename = match &self.responses[self.next].filename {
                Some(s) => Some(s.clone()),
                None => None,
            };
            let resp = RenameWindowReturn {
                filename,
                option: self.responses[self.next].option,
                apply_to_all: self.responses[self.next].apply_to_all,
            };
            proof {
                assert(resp == self.responses@[self.next as int]);
            }
            let ghost pre = self.remaining();
            self.next = self.next + 1;
            proof {
                assert(self.remaining() =~= pre.drop_first());
            }
            Some(resp)
        } else {
            None
        }
    }
}

/// What happened to one entry during a walk.
pub enum TransferEvent {
    /// A directory was created at the destination.
    DirCreated { src: Vec<String>, dst: Vec<String> },
    /// A regular file's bytes were copied.
    FileCopied { src: Vec<String>, dst: Vec<String> },
    /// A symbolic link was recreated.
    LinkCopied { src: Vec<String>, dst: Vec<String> },
    /// The user (or a sticky decision) chose to ignore the entry.
    Skipped { src: Vec<String> },
    /// The entry could not be transferred.
    Failed { src: Vec<String> },
}

impl TransferEvent {
    /// The source path the event is about.
    pub open spec fn src_path(self) -> PathV {
        match self {
            TransferEvent::DirCreated { src, .. } => src.deep_view(),
            TransferEvent::FileCopied { src, .. } => src.deep_view(),
            TransferEvent::LinkCopied { src, .. } => src.deep_view(),
            TransferEvent::Skipped { src } => src.deep_view(),
            TransferEvent::Failed { src } => src.deep_view(),
        }
    }

    /// Whether the event transferred something to the destination.
    pub open spec fn is_transfer(self) -> bool {
        match self {
            TransferEvent::DirCreated { .. } => true,
            TransferEvent::FileCopied { .. } => true,
            TransferEvent::LinkCopied { .. } => true,
            TransferEvent::Skipped { .. } => false,
            TransferEvent::Failed { .. } => false,
        }
    }
}

/// The fate a walked directory was resolved to: ignored with its whole
/// subtree, or active with the destination its children map under and
/// whether an overwrite decision is inherited.
pub enum DirFate {
    Ignored,
    Active { dest: Vec<String>, overwrite: bool },
}

/// A fate at the specification level.
pub enum DirFateV {
    Ignored,
    Active { dest: PathV, overwrite: bool },
}

impl View for DirFate {
    type V = DirFateV;

    open spec fn view(&self) -> DirFateV {
        match self {
            DirFate::Ignored => DirFateV::Ignored,
            DirFate::Active { dest, overwrite } => DirFateV::Active {
                dest: dest.deep_view(),
                overwrite: *overwrite,
            },
        }
    }
}

/// Mutable state threaded through one paste operation.
pub struct PasteCtx {
    /// Total bytes to transfer, precomputed by a size-only walk.
    pub total: u128,
    /// Bytes transferred so far.
    pub current: u128,
    /// The throughput window.
    pub estimator: SpeedEstimator,
    /// Latest average speed in bytes per millisecond; 0 while unknown.
    pub avg_speed: u64,
    /// Latest estimate of seconds remaining; negative while unknown.
    pub remaining_time: i64,
    /// False as soon as any entry failed.
    pub all_success: bool,
    /// True as soon as any entry was skipped by a conflict decision.
    pub any_skipped: bool,
    /// How many conflict prompts were shown.
    pub prompts: u64,
    /// The sticky "apply to all" state.
    pub conflict: ConflictState,
    /// The user's scripted answers.
    pub script: ResolverScript,
    /// The progress channel to the UI.
    pub sink: ProgressSink,
    /// What happened, entry by entry.
    pub events: Vec<TransferEvent>,
}

impl PasteCtx {
    pub open spec fn wf(self) -> bool {
        &&& self.estimator.wf()
        &&& self.script.wf()
        &&& self.current <= (u64::MAX as u128) * (u64::MAX as u128)
    }

    /// Fresh state for one operation.
    pub fn new(total: u128, script: ResolverScript, sink: ProgressSink) -> (r: PasteCtx)
        requires
            script.wf(),
        ensures
            r.wf(),
            r.total == total,
            r.current == 0,
            r.all_success == true,
            r.any_skipped == false,
            r.prompts == 0,
            r.conflict == (ConflictState { apply_to_all: false, sticky: RenameOption::Rename }),
            r.script == script,
            r.sink == sink,
            r.events@ == Seq::<TransferEvent>::empty(),
            r.estimator.window() == Seq::<u64>::empty(),
    {
        PasteCtx {
            total,
            current: 0,
            estimator: SpeedEstimator::new(),
            avg_speed: 0,
            remaining_time: -1,
            all_success: true,
            any_skipped: false,
            prompts: 0,
            conflict: ConflictState::new(),
            script,
            sink,
            events: Vec::new(),
        }
    }
}

/// `x`, capped at the largest `u64`.
pub open spec fn spec_clamp_u64(x: u128) -> u64 {
    if x > u64::MAX as u128 {
        u64::MAX
    } else {
        x as u64
    }
}

pub fn clamp_u64(x: u128) -> (r: u64)
    ensures
        r == spec_clamp_u64(x),
{
    if x > u64::MAX as u128 {
        u64::MAX
    } else {
        x as u64
    }
}

/// `x`, capped at the largest `i64`.
pub open spec fn spec_clamp_i64(x: u128) -> i64 {
    if x > i64::MAX as u128 {
        i64::MAX
    } else {
        x as i64
    }
}

pub fn clamp_i64(x: u128) -> (r: i64)
    ensures
        r == spec_clamp_i64(x),
{
    if x > i64::MAX as u128 {
        i64::MAX
    } else {
        x as i64
    }
}

/// Adding to the byte counter, saturating at its bound.
pub open spec fn spec_sat_add_bytes(current: u128, bytes: nat) -> u128 {
    if current + bytes <= (u64::MAX as u128) * (u64::MAX as u128) {
        (current + bytes) as u128
    } else {
        ((u64::MAX as u128) * (u64::MAX as u128)) as u128
    }
}

/// Whether transferring `entry` to `to` succeeds on this filesystem: the
/// source is a readable file (the destination being absent or an
/// overwritable regular file) or a symbolic link (the destination being
/// absent), with the destination's parent directory present.
pub open spec fn spec_transfer_ok(m: Seq<(PathV, FsNodeV)>, entry: PathV, to: PathV) -> bool {
    match find(m, entry) {
        Some(FsNodeV::Symlink { .. }) => !has_path(m, to) && spec_parent_ok_in(m, to),
        Some(FsNodeV::File { readable, .. }) => readable && spec_parent_ok_in(m, to) && match find(
            m,
            to,
        ) {
            Option::None => true,
            Option::Some(n) => n is File,
        },
        _ => false,
    }
}

/// Whether `p`'s parent directory is present (a single-component path needs
/// no parent).
pub open spec fn spec_parent_ok_in(m: Seq<(PathV, FsNodeV)>, p: PathV) -> bool {
    p.len() == 1 || find(m, p.subrange(0, p.len() - 1)) == Some(FsNodeV::Dir)
}

/// The speed sample one transfer feeds the estimator: the copied bytes over
/// the elapsed milliseconds, with a zero duration floored to one
/// millisecond so the division cannot blow up.
pub open spec fn spec_rate(bytes: nat, elapsed_ms: u64) -> u64 {
    (bytes / (if elapsed_ms == 0 {
        1nat
    } else {
        elapsed_ms as nat
    })) as u64
}

/// The seconds-remaining display value derived from an average speed and
/// the bytes still to go.
pub open spec fn spec_eta(total: u128, current: u128, avg_speed: u64) -> i64 {
    let left = spec_clamp_u64(
        if total > current {
            (total - current) as u128
        } else {
            0
        },
    );
    spec_clamp_i64((left as int / avg_speed as int / 1000) as u128)
}

/// The bytes a successful transfer of `entry` adds to the running total.
pub open spec fn spec_transfer_bytes(m: Seq<(PathV, FsNodeV)>, entry: PathV) -> nat {
    match find(m, entry) {
        Some(FsNodeV::File { data, .. }) => data.len(),
        _ => 0,
    }
}

/// Transfers one regular file or symbolic link from `entry` to `to`:
/// recreates a link, or copies a readable file's bytes, preserving its
/// contents exactly. On success one non-forced progress message goes out;
/// the send failing (the user closed the progress window) yields `Err`, the
/// signal to abort the whole operation. A failed transfer only clears
/// `all_success` and the walk goes on.
pub fn copy_single_file_operation(
    fs: &mut Fs,
    entry: &Vec<String>,
    to: &Vec<String>,
    ctx: &mut PasteCtx,
    elapsed_ms: u64,
) -> (r: Result<bool, ()>)
    requires
        old(fs).wf(),
        old(ctx).wf(),
        to@.len() >= 1,
    ensures
        final(fs).wf(),
        final(ctx).wf(),
        final(ctx).total == old(ctx).total,
        final(ctx).any_skipped == old(ctx).any_skipped,
        final(ctx).prompts == old(ctx).prompts,
        final(ctx).conflict == old(ctx).conflict,
        final(ctx).script == old(ctx).script,
        final(ctx).events == old(ctx).events,
        final(ctx).sink.is_connected() == old(ctx).sink.is_connected(),
        spec_transfer_ok(old(fs).model(), entry.deep_view(), to.deep_view()) ==> {
            &&& find(final(fs).model(), to.deep_view()) == find(
                old(fs).model(),
                entry.deep_view(),
            )
            &&& forall|q: PathV|
                q != to.deep_view() ==> find(final(fs).model(), q) == find(old(fs).model(), q)
            &&& final(ctx).all_success == old(ctx).all_success
            &&& final(ctx).current == spec_sat_add_bytes(
                old(ctx).current,
                spec_transfer_bytes(old(fs).model(), entry.deep_view()),
            )
            &&& (spec_transfer_bytes(old(fs).model(), entry.deep_view()) > 0 ==> {
                let rate = spec_rate(
                    spec_transfer_bytes(old(fs).model(), entry.deep_view()),
                    elapsed_ms,
                );
                &&& final(ctx).estimator.window() == spec_update(
                    old(ctx).estimator.window(),
                    rate,
                    old(ctx).estimator.capacity(),
                )
                &&& final(ctx).avg_speed == spec_average(final(ctx).estimator.window())
                &&& (final(ctx).avg_speed > 0 ==> final(ctx).remaining_time == spec_eta(
                    old(ctx).total,
                    final(ctx).current,
                    final(ctx).avg_speed,
                ))
                &&& (final(ctx).avg_speed == 0 ==> final(ctx).remaining_time == old(ctx).remaining_time)
            })
            &&& (spec_transfer_bytes(old(fs).model(), entry.deep_view()) == 0 ==> final(ctx).estimator == old(ctx).estimator && final(ctx).avg_speed == old(ctx).avg_speed
                && final(ctx).remaining_time == old(ctx).remaining_time)
            &&& (r == Ok::<bool, ()>(true) <==> old(ctx).sink.is_connected())
            &&& (r is Err <==> !old(ctx).sink.is_connected())
            &&& old(ctx).sink.is_connected() ==> final(ctx).sink.log() == old(ctx).sink.log().push(final(ctx).sink.log().last()) && final(ctx).sink.log().last().force
                == false && final(ctx).sink.log().last().status@ == spec_size_progress_status(
                spec_clamp_i64(final(ctx).current) as int,
                spec_clamp_i64(old(ctx).total) as int,
            )
            &&& !old(ctx).sink.is_connected() ==> final(ctx).sink.log() == old(ctx).sink.log()
        },
        !spec_transfer_ok(old(fs).model(), entry.deep_view(), to.deep_view()) ==> {
            &&& *final(fs) == *old(fs)
            &&& final(ctx).all_success == false
            &&& final(ctx).current == old(ctx).current
            &&& final(ctx).sink.log() == old(ctx).sink.log()
            &&& final(ctx).estimator == old(ctx).estimator
            &&& final(ctx).avg_speed == old(ctx).avg_speed
            &&& final(ctx).remaining_time == old(ctx).remaining_time
            &&& r == Ok::<bool, ()>(false)
        },
{
    let node = fs.lookup(entry);
    let mut transferred = false;
    let mut bytes: usize = 0;
    match node {
        Some(FsNode::Symlink { target }) => {
            if fs.create_symlink(to, target) {
                transferred = true;
            }
        },
        Some(FsNode::File { data, readable }) => {
            if readable {
                bytes = data.len();
                if fs.write_file(to, data, readable) {
                    transferred = true;
                } else {
                    bytes = 0;
                }
            }
        },
        _ => {},
    }
    if !transferred {
        ctx.all_success = false;
        return Ok(false);
    }
    if bytes > 0 {
        let floored: u64 = if elapsed_ms == 0 {
            1
        } else {
            elapsed_ms
        };
        let cap: u128 = (u64::MAX as u128) * (u64::MAX as u128);
        if ctx.current + bytes as u128 <= cap {
            ctx.current = ctx.current + bytes as u128;
        } else {
            // the byte counter only drives the display; it saturates
            // rather than wrap on absurd totals
            ctx.current = cap;
        }
        let speed: u64 = (bytes as u64) / floored;
        ctx.estimator.update(speed);
        ctx.avg_speed = ctx.estimator.average_speed();
        if ctx.avg_speed > 0 {
            let left: u128 = if ctx.total > ctx.current {
                ctx.total - ctx.current
            } else {
                0
            };
            ctx.remaining_time = clamp_i64(
                estimate_time_left(ctx.avg_speed, clamp_u64(left)) as u128,
            );
        }
    }
    let status = format_size_progress_status(clamp_i64(ctx.current), clamp_i64(ctx.total));
    let msg = TransferProgress {
        current: clamp_i64(ctx.current),
        total: clamp_i64(ctx.total),
        status,
        eta_seconds: ctx.remaining_time,
        force: false,
    };
    match ctx.sink.send(msg) {
        Ok(_) => Ok(true),
        Err(_) => Err(()),
    }
}


/// The destination path a source path maps to: the destination root
/// followed by the source path's tail beyond the source root.
pub open spec fn spec_rebase(src: PathV, dst: PathV, p: PathV) -> PathV {
    dst + p.skip(src.len() as int)
}

/// Where a pasted root lands: the target directory plus the root's own
/// name.
pub open spec fn spec_dest_root(src: PathV, dst_dir: PathV) -> PathV {
    dst_dir + seq![src.last()]
}

/// A paste with nothing in the way: the source exists, the target
/// directory exists, neither root is inside the other, the source subtree
/// is closed under parents, and nothing at all sits under the destination
/// root (so no conflict can arise).
pub open spec fn spec_clean_paste(m: Seq<(PathV, FsNodeV)>, src: PathV, dst_dir: PathV) -> bool {
    let dst = spec_dest_root(src, dst_dir);
    &&& src.len() >= 1
    &&& has_path(m, src)
    &&& (dst_dir.len() == 0 || find(m, dst_dir) == Some(FsNodeV::Dir))
    &&& !is_path_prefix(src, dst)
    &&& !is_path_prefix(dst, src)
    &&& forall|p: PathV|
        has_path(m, p) && is_path_prefix(src, p) && p != src ==> find(
            m,
            p.subrange(0, p.len() - 1),
        ) == Some(FsNodeV::Dir)
    &&& forall|q: PathV| is_path_prefix(dst, q) ==> !has_path(m, q)
}

/// What a copy leaves at the destination for a given source node: the node
/// itself, except that an unreadable file cannot be copied and leaves
/// nothing.
pub open spec fn spec_copy_result(n: Option<FsNodeV>) -> Option<FsNodeV> {
    match n {
        Some(FsNodeV::File { data, readable }) => if readable {
            Some(FsNodeV::File { data, readable })
        } else {
            None
        },
        other => other,
    }
}

/// The fate table at the specification level.
pub open spec fn fates_view(f: Seq<(Vec<String>, DirFate)>) -> Seq<(PathV, DirFateV)> {
    f.map(|i: int, e: (Vec<String>, DirFate)| (e.0.deep_view(), e.1@))
}

/// Whether `x` occurs among the first `k` snapshot paths.
pub open spec fn appears_before(paths: Seq<PathV>, k: int, x: PathV) -> bool {
    exists|j: int| 0 <= j < k && paths[j] == x
}

/// A path is always a prefix of itself extended.
pub proof fn lemma_prefix_extend(a: PathV, rel: PathV)
    ensures
        is_path_prefix(a, a + rel),
{
    assert forall|k: int| 0 <= k < a.len() implies (a + rel)[k] == a[k] by {}
}

/// Appending distinct tails gives distinct paths.
pub proof fn lemma_add_cancel(a: PathV, x: PathV, y: PathV)
    requires
        a + x == a + y,
    ensures
        x == y,
{
    assert((a + x).len() == a.len() + x.len());
    assert((a + y).len() == a.len() + y.len());
    assert(x.len() == y.len());
    assert forall|k: int| 0 <= k < x.len() implies x[k] == y[k] by {
        assert((a + x)[a.len() + k] == x[k]);
        assert((a + y)[a.len() + k] == y[k]);
    }
    assert(x =~= y);
}

/// A prefix of equal length is the path itself.
pub proof fn lemma_prefix_same_len(a: PathV, b: PathV)
    requires
        is_path_prefix(a, b),
        a.len() == b.len(),
    ensures
        a == b,
{
    assert(a =~= b);
}

/// A path with the source prefix is the source root plus its tail.
pub proof fn lemma_prefix_decompose(src: PathV, p: PathV)
    requires
        is_path_prefix(src, p),
    ensures
        src + p.skip(src.len() as int) == p,
{
    assert(src + p.skip(src.len() as int) =~= p);
}

/// Rebasing a child is rebasing its parent and appending the child's name.
pub proof fn lemma_rebase_step(src: PathV, dst: PathV, p: PathV)
    requires
        is_path_prefix(src, p),
        p.len() > src.len(),
    ensures
        spec_rebase(src, dst, p.subrange(0, p.len() - 1)).push(p.last()) == spec_rebase(
            src,
            dst,
            p,
        ),
        spec_rebase(src, dst, p).subrange(0, spec_rebase(src, dst, p).len() - 1) == spec_rebase(
            src,
            dst,
            p.subrange(0, p.len() - 1),
        ),
        spec_rebase(src, dst, p).len() > dst.len(),
        spec_rebase(src, dst, p).last() == p.last(),
{
    assert(spec_rebase(src, dst, p.subrange(0, p.len() - 1)).push(p.last()) =~= spec_rebase(
        src,
        dst,
        p,
    ));
    assert(spec_rebase(src, dst, p).subrange(0, spec_rebase(src, dst, p).len() - 1) =~=
        spec_rebase(src, dst, p.subrange(0, p.len() - 1)));
}

/// Looks a directory's fate up.
fn find_fate(fates: &Vec<(Vec<String>, DirFate)>, p: &Vec<String>) -> (r: Option<DirFate>)
    requires
        distinct_paths(fates_view(fates@)),
    ensures
        match r {
            Some(f) => find(fates_view(fates@), p.deep_view()) == Some(f@),
            None => find(fates_view(fates@), p.deep_view()) is None,
        },
{
    let mut i: usize = 0;
    while i < fates.len()
        invariant
            i <= fates.len(),
            distinct_paths(fates_view(fates@)),
            fates_view(fates@).len() == fates@.len(),
            forall|j: int| 0 <= j < i ==> fates_view(fates@)[j].0 != p.deep_view(),
        decreases fates.len() - i,
    {
        if path_eq(&fates[i].0, p) {
            proof {
                assert(fates_view(fates@)[i as int].0 == p.deep_view());
                lemma_find_at_index(fates_view(fates@), i as int);
            }
            let f = match &fates[i].1 {
                DirFate::Ignored => DirFate::Ignored,
                DirFate::Active { dest, overwrite } => DirFate::Active {
                    dest: crate::fs::clone_path(dest),
                    overwrite: *overwrite,
                },
            };
            proof {
                assert(f@ == fates_view(fates@)[i as int].1);
            }
            return Some(f);
        }
        proof {
            assert(fates_view(fates@)[i as int].0 == fates@[i as int].0.deep_view());
        }
        i = i + 1;
    }
    proof {
        lemma_find_none(fates_view(fates@), p.deep_view());
    }
    None
}

/// Every path at or under `root`, parents always before children (the
/// pre-order the walk needs), snapshotted from the filesystem.
pub fn collect_subtree(fs: &Fs, root: &Vec<String>) -> (r: Vec<Vec<String>>)
    requires
        fs.wf(),
        root@.len() >= 1,
    ensures
        forall|k: int|
            0 <= k < r.deep_view().len() ==> has_path(fs.model(), r.deep_view()[k])
                && is_path_prefix(root.deep_view(), r.deep_view()[k]),
        forall|p: PathV|
            has_path(fs.model(), p) && is_path_prefix(root.deep_view(), p) ==> exists|k: int|
                0 <= k < r.deep_view().len() && r.deep_view()[k] == p,
        forall|k1: int, k2: int|
            0 <= k1 < r.deep_view().len() && 0 <= k2 < r.deep_view().len() && k1 != k2
                ==> r.deep_view()[k1] != r.deep_view()[k2],
        forall|k1: int, k2: int|
            0 <= k1 < k2 < r.deep_view().len() ==> r.deep_view()[k1].len()
                <= r.deep_view()[k2].len(),
{
    let maxlen = fs.max_path_len();
    let mut r: Vec<Vec<String>> = Vec::new();
    let mut l: u128 = root.len() as u128;
    while l <= maxlen as u128
        invariant
            fs.wf(),
            root@.len() <= l,
            forall|k: int|
                0 <= k < r.deep_view().len() ==> has_path(fs.model(), r.deep_view()[k])
                    && is_path_prefix(root.deep_view(), r.deep_view()[k]) && root@.len()
                    <= r.deep_view()[k].len() < l,
            forall|p: PathV|
                has_path(fs.model(), p) && is_path_prefix(root.deep_view(), p) && p.len() < l
                    ==> exists|k: int| 0 <= k < r.deep_view().len() && r.deep_view()[k] == p,
            forall|k1: int, k2: int|
                0 <= k1 < r.deep_view().len() && 0 <= k2 < r.deep_view().len() && k1 != k2
                    ==> r.deep_view()[k1] != r.deep_view()[k2],
            forall|k1: int, k2: int|
                0 <= k1 < k2 < r.deep_view().len() ==> r.deep_view()[k1].len()
                    <= r.deep_view()[k2].len(),
        decreases maxlen as u128 + 1 - l,
    {
        let level = fs.level_paths(root, l as usize);
        let ghost r0 = r.deep_view();
        let mut j: usize = 0;
        while j < level.len()
            invariant
                fs.wf(),
                j <= level.len(),
                root@.len() <= l <= maxlen as u128,
                r.deep_view() == r0 + level.deep_view().subrange(0, j as int),
                forall|k: int|
                    0 <= k < r0.len() ==> has_path(fs.model(), r0[k]) && is_path_prefix(
                        root.deep_view(),
                        r0[k],
                    ) && root@.len() <= r0[k].len() < l,
                forall|k: int|
                    0 <= k < level.deep_view().len() ==> has_path(fs.model(), level.deep_view()[k])
                        && is_path_prefix(root.deep_view(), level.deep_view()[k])
                        && level.deep_view()[k].len() == l,
                forall|k1: int, k2: int|
                    0 <= k1 < level.deep_view().len() && 0 <= k2 < level.deep_view().len() && k1
                        != k2 ==> level.deep_view()[k1] != level.deep_view()[k2],
                forall|k1: int, k2: int|
                    0 <= k1 < r0.len() && 0 <= k2 < r0.len() && k1 != k2 ==> r0[k1] != r0[k2],
            decreases level.len() - j,
        {
            let ghost rpre = r.deep_view();
            r.push(crate::fs::clone_path(&level[j]));
            proof {
                assert(level.deep_view()[j as int] == level@[j as int].deep_view());
                assert(r.deep_view() =~~= rpre.push(level.deep_view()[j as int]));
                assert(r.deep_view() =~~= r0 + level.deep_view().subrange(0, j + 1));
            }
            j = j + 1;
        }
        proof {
            assert(level.deep_view().subrange(0, level.deep_view().len() as int) =~=
                level.deep_view());
            // lengths differ between old rows and the new level, so rows
            // stay pairwise distinct
            assert forall|k1: int, k2: int|
                0 <= k1 < r.deep_view().len() && 0 <= k2 < r.deep_view().len() && k1 != k2 implies
                r.deep_view()[k1] != r.deep_view()[k2] by {
                if k1 < r0.len() && k2 < r0.len() {
                } else if k1 >= r0.len() && k2 >= r0.len() {
                    assert(r.deep_view()[k1] == level.deep_view()[k1 - r0.len()]);
                    assert(r.deep_view()[k2] == level.deep_view()[k2 - r0.len()]);
                } else if k1 < r0.len() {
                    assert(r.deep_view()[k1].len() < l);
                    assert(r.deep_view()[k2].len() == l);
                } else {
                    assert(r.deep_view()[k1].len() == l);
                    assert(r.deep_view()[k2].len() < l);
                }
            }
            assert forall|p: PathV|
                has_path(fs.model(), p) && is_path_prefix(root.deep_view(), p) && p.len() < l + 1
                    implies exists|k: int|
                    0 <= k < r.deep_view().len() && r.deep_view()[k] == p by {
                if p.len() < l {
                    let k = choose|k: int| 0 <= k < r0.len() && r0[k] == p;
                    assert(r.deep_view()[k] == p);
                } else {
                    let i = choose|i: int|
                        0 <= i < fs.model().len() && fs.model()[i].0 == p;
                    let k = choose|k: int|
                        0 <= k < level.deep_view().len() && level.deep_view()[k] == p;
                    assert(r.deep_view()[r0.len() + k] == p);
                }
            }
        }
        l = l + 1;
    }
    proof {
        assert forall|p: PathV|
            has_path(fs.model(), p) && is_path_prefix(root.deep_view(), p) implies exists|k: int|
            0 <= k < r.deep_view().len() && r.deep_view()[k] == p by {
            let i = choose|i: int| 0 <= i < fs.model().len() && fs.model()[i].0 == p;
            assert(p.len() <= maxlen);
        }
    }
    r
}


/// What a resolved conflict tells the walk to do.
pub enum ConflictAction {
    AIgnore,
    AOverwrite,
    ARename(String),
    /// The dialog was unreachable or gave no usable name.
    AUnresolved,
}

/// One more prompt, saturating.
pub open spec fn spec_bump(prompts: u64) -> u64 {
    if prompts == u64::MAX {
        prompts
    } else {
        (prompts + 1) as u64
    }
}

/// Resolves one conflict: applies the sticky decision when one is in force
/// (a sticky Rename never is), and otherwise asks the user by consuming the
/// next scripted answer, recording its "apply to all" choice.
fn resolve_conflict_action(ctx: &mut PasteCtx) -> (a: ConflictAction)
    requires
        old(ctx).wf(),
    ensures
        final(ctx).wf(),
        final(ctx).total == old(ctx).total,
        final(ctx).current == old(ctx).current,
        final(ctx).estimator == old(ctx).estimator,
        final(ctx).avg_speed == old(ctx).avg_speed,
        final(ctx).remaining_time == old(ctx).remaining_time,
        final(ctx).all_success == old(ctx).all_success,
        final(ctx).any_skipped == old(ctx).any_skipped,
        final(ctx).sink == old(ctx).sink,
        final(ctx).events == old(ctx).events,
        !crate::conflict::spec_needs_prompt(old(ctx).conflict) ==> {
            &&& final(ctx).prompts == old(ctx).prompts
            &&& final(ctx).conflict == old(ctx).conflict
            &&& final(ctx).script == old(ctx).script
            &&& (old(ctx).conflict.sticky == RenameOption::Ignore ==> a is AIgnore)
            &&& (old(ctx).conflict.sticky == RenameOption::Overwrite ==> a is AOverwrite)
        },
        crate::conflict::spec_needs_prompt(old(ctx).conflict) ==> {
            &&& final(ctx).prompts == spec_bump(old(ctx).prompts)
            &&& (old(ctx).script.remaining().len() == 0 ==> a is AUnresolved && final(ctx).conflict
                == old(ctx).conflict && final(ctx).script.remaining() == old(ctx).script.remaining())
            &&& (old(ctx).script.remaining().len() > 0 ==> {
                let resp = old(ctx).script.remaining().first();
                &&& final(ctx).script.remaining() == old(ctx).script.remaining().drop_first()
                &&& final(ctx).conflict == crate::conflict::spec_after_response(
                    old(ctx).conflict,
                    resp,
                )
                &&& (resp.option == RenameOption::Ignore ==> a is AIgnore)
                &&& (resp.option == RenameOption::Overwrite ==> a is AOverwrite)
                &&& (resp.option == RenameOption::Rename && resp.filename is Some ==> a
                    == ConflictAction::ARename(resp.filename->0))
                &&& (resp.option == RenameOption::Rename && resp.filename is None ==> a
                    is AUnresolved)
            })
        },
{
    match ctx.conflict.sticky_decision() {
        Some(RenameOption::Ignore) => ConflictAction::AIgnore,
        Some(RenameOption::Overwrite) => ConflictAction::AOverwrite,
        Some(RenameOption::Rename) => {
            // a sticky decision is never Rename
            proof {
                assert(false);
            }
            ConflictAction::AUnresolved
        },
        None => {
            if ctx.prompts < u64::MAX {
                ctx.prompts = ctx.prompts + 1;
            }
            match ctx.script.next_response() {
                None => ConflictAction::AUnresolved,
                Some(resp) => {
                    ctx.conflict.note_response(&resp);
                    match resp.option {
                        RenameOption::Ignore => ConflictAction::AIgnore,
                        RenameOption::Overwrite => ConflictAction::AOverwrite,
                        RenameOption::Rename => match resp.filename {
                            Some(nm) => ConflictAction::ARename(nm),
                            None => ConflictAction::AUnresolved,
                        },
                    }
                },
            }
        },
    }
}

/// Whether a lookup of `d` gives an active fate.
pub open spec fn fate_is_active(fv: Seq<(PathV, DirFateV)>, d: PathV) -> bool {
    match find(fv, d) {
        Some(DirFateV::Active { .. }) => true,
        _ => false,
    }
}

/// In a fate table where every active directory's parent is active too, an
/// ancestor of an active directory is never ignored.
pub proof fn lemma_active_chain(fv: Seq<(PathV, DirFateV)>, src: PathV, d: PathV, x: PathV)
    requires
        distinct_paths(fv),
        forall|i: int| 0 <= i < fv.len() ==> is_path_prefix(src, fv[i].0),
        forall|i: int|
            0 <= i < fv.len() && fv[i].1 is Active && fv[i].0 != src ==> fate_is_active(
                fv,
                fv[i].0.subrange(0, fv[i].0.len() - 1),
            ),
        fate_is_active(fv, x),
        is_path_prefix(d, x),
        is_path_prefix(src, d),
    ensures
        find(fv, d) != Some(DirFateV::Ignored),
    decreases x.len(),
{
    if d == x {
    } else {
        assert(d.len() < x.len()) by {
            if d.len() == x.len() {
                lemma_prefix_same_len(d, x);
            }
        }
        let i = choose|i: int| 0 <= i < fv.len() && fv[i].0 == x;
        lemma_find_at_index(fv, i);
        if x == src {
            assert(src.len() <= d.len());
            assert(false);
        } else {
            let px = x.subrange(0, x.len() - 1);
            assert(is_path_prefix(d, px));
            assert(fate_is_active(fv, px));
            let j = choose|j: int| 0 <= j < fv.len() && fv[j].0 == px;
            assert(is_path_prefix(src, px));
            lemma_active_chain(fv, src, d, px);
        }
    }
}




/// Whether `p` is a file the process may not read.
pub open spec fn spec_is_unreadable(m: Seq<(PathV, FsNodeV)>, p: PathV) -> bool {
    match find(m, p) {
        Some(FsNodeV::File { readable, .. }) => !readable,
        _ => false,
    }
}

proof fn lemma_appears_step(pd: Seq<PathV>, k: int, x: PathV)
    requires
        0 <= k < pd.len(),
    ensures
        appears_before(pd, k + 1, x) == (appears_before(pd, k, x) || pd[k] == x),
{
    if appears_before(pd, k + 1, x) {
        let j = choose|j: int| 0 <= j < k + 1 && pd[j] == x;
        if j < k {
            assert(appears_before(pd, k, x));
        }
    }
    if appears_before(pd, k, x) {
        let j = choose|j: int| 0 <= j < k && pd[j] == x;
        assert(0 <= j < k + 1 && pd[j] == x);
        assert(appears_before(pd, k + 1, x));
    }
    if pd[k] == x {
        assert(appears_before(pd, k + 1, x));
    }
}

/// The fate table's shape during a walk: distinct keys, all of them
/// processed snapshot paths under the source root, active destinations
/// under the target directory, and every active non-root directory having
/// an active parent.
pub open spec fn fates_shape(
    fv: Seq<(PathV, DirFateV)>,
    srcv: PathV,
    ddv: PathV,
    pd: Seq<PathV>,
    k: int,
) -> bool {
    &&& distinct_paths(fv)
    &&& forall|i: int|
        0 <= i < fv.len() ==> is_path_prefix(srcv, #[trigger] fv[i].0) && (exists|j: int|
            0 <= j < k && pd[j] == fv[i].0)
    &&& forall|i: int|
        0 <= i < fv.len() ==> match #[trigger] fv[i].1 {
            DirFateV::Active { dest, .. } => is_path_prefix(ddv, dest),
            DirFateV::Ignored => true,
        }
    &&& forall|i: int|
        0 <= i < fv.len() && #[trigger] fv[i].1 is Active && fv[i].0 != srcv ==> fate_is_active(
            fv,
            fv[i].0.subrange(0, fv[i].0.len() - 1),
        )
}

/// The events the walk appended so far: every transfer names a source under
/// the root, and its parent directory — unless it is the root itself — was
/// resolved to an active fate.
pub open spec fn events_shape(
    events: Seq<TransferEvent>,
    lo: int,
    srcv: PathV,
    fv: Seq<(PathV, DirFateV)>,
) -> bool {
    forall|kk: int|
        lo <= kk < events.len() && #[trigger] events[kk].is_transfer() ==> is_path_prefix(
            srcv,
            events[kk].src_path(),
        ) && (events[kk].src_path() == srcv || fate_is_active(
            fv,
            events[kk].src_path().subrange(0, events[kk].src_path().len() - 1),
        ))
}

/// During a clean walk, the destination subtree mirrors exactly the
/// processed prefix of the snapshot.
pub open spec fn clean_dest_state(
    m: Seq<(PathV, FsNodeV)>,
    m0: Seq<(PathV, FsNodeV)>,
    srcv: PathV,
    dstv: PathV,
    pd: Seq<PathV>,
    k: int,
) -> bool {
    forall|rel: PathV|
        #![trigger find(m, dstv + rel)]
        find(m, dstv + rel) == (if appears_before(pd, k, srcv + rel) {
            spec_copy_result(find(m0, srcv + rel))
        } else {
            None::<FsNodeV>
        })
}

/// During a clean walk, every fate is active with the rebased destination,
/// and every processed directory is in the table.
pub open spec fn clean_fates_state(
    fv: Seq<(PathV, DirFateV)>,
    m0: Seq<(PathV, FsNodeV)>,
    srcv: PathV,
    dstv: PathV,
    pd: Seq<PathV>,
    k: int,
) -> bool {
    &&& forall|i: int|
        0 <= i < fv.len() ==> #[trigger] fv[i].1 == (DirFateV::Active {
            dest: spec_rebase(srcv, dstv, fv[i].0),
            overwrite: false,
        }) && find(m0, fv[i].0) == Some(FsNodeV::Dir)
    &&& forall|j: int|
        0 <= j < k && find(m0, #[trigger] pd[j]) == Some(FsNodeV::Dir) ==> find(fv, pd[j])
            == Some(DirFateV::Active { dest: spec_rebase(srcv, dstv, pd[j]), overwrite: false })
}

/// The facts one fresh fate push preserves and adds.
proof fn lemma_fate_push_facts(
    fv_pre: Seq<(PathV, DirFateV)>,
    f_post: Seq<(Vec<String>, DirFate)>,
    pk: PathV,
    fatev: DirFateV,
    srcv: PathV,
    ddv: PathV,
    pd: Seq<PathV>,
    k: int,
)
    requires
        fates_shape(fv_pre, srcv, ddv, pd, k),
        0 <= k < pd.len(),
        pd[k] == pk,
        forall|j1: int, j2: int|
            0 <= j1 < pd.len() && 0 <= j2 < pd.len() && j1 != j2 ==> pd[j1] != pd[j2],
        is_path_prefix(srcv, pk),
        (match fatev {
            DirFateV::Active { dest, .. } => is_path_prefix(ddv, dest),
            DirFateV::Ignored => true,
        }),
        fatev is Active && pk != srcv ==> fate_is_active(fv_pre, pk.subrange(0, pk.len() - 1)),
        fates_view(f_post) =~= fv_pre.push((pk, fatev)),
    ensures
        fates_shape(fates_view(f_post), srcv, ddv, pd, k + 1),
        find(fates_view(f_post), pk) == Some(fatev),
        forall|q: PathV| q != pk ==> find(fates_view(f_post), q) == find(fv_pre, q),
        forall|q: PathV| fate_is_active(fv_pre, q) ==> fate_is_active(fates_view(f_post), q),
{
    let fv = fates_view(f_post);
    assert(!has_path(fv_pre, pk)) by {
        if has_path(fv_pre, pk) {
            let i = choose|i: int| 0 <= i < fv_pre.len() && fv_pre[i].0 == pk;
            let j = choose|j: int| 0 <= j < k && pd[j] == fv_pre[i].0;
        }
    }
    lemma_find_push(fv_pre, pk, fatev, pk);
    assert forall|q: PathV| q != pk implies find(fv, q) == find(fv_pre, q) by {
        lemma_find_push(fv_pre, pk, fatev, q);
    }
    assert forall|q: PathV| fate_is_active(fv_pre, q) implies fate_is_active(fv, q) by {
        assert(q != pk) by {
            if q == pk {
                lemma_find_none(fv_pre, pk);
            }
        }
    }
    assert forall|i: int|
        0 <= i < fv.len() implies is_path_prefix(srcv, #[trigger] fv[i].0) && (exists|j: int|
        0 <= j < k + 1 && pd[j] == fv[i].0) by {
        if i < fv_pre.len() {
            assert(fv[i] == fv_pre[i]);
            let j = choose|j: int| 0 <= j < k && pd[j] == fv_pre[i].0;
            assert(pd[j] == fv[i].0);
        } else {
            assert(fv[i] == (pk, fatev));
            assert(pd[k] == fv[i].0);
        }
    }
    assert forall|i: int|
        0 <= i < fv.len() implies match #[trigger] fv[i].1 {
        DirFateV::Active { dest, .. } => is_path_prefix(ddv, dest),
        DirFateV::Ignored => true,
    } by {
        if i < fv_pre.len() {
            assert(fv[i] == fv_pre[i]);
            assert(match fv_pre[i].1 {
                DirFateV::Active { dest, .. } => is_path_prefix(ddv, dest),
                DirFateV::Ignored => true,
            });
        } else {
            assert(fv[i] == (pk, fatev));
        }
    }
    assert forall|i: int|
        0 <= i < fv.len() && #[trigger] fv[i].1 is Active && fv[i].0 != srcv implies
        fate_is_active(fv, fv[i].0.subrange(0, fv[i].0.len() - 1)) by {
        if i < fv_pre.len() {
            assert(fv[i] == fv_pre[i]);
            assert(fate_is_active(fv_pre, fv_pre[i].0.subrange(0, fv_pre[i].0.len() - 1)));
        } else {
            assert(fv[i] == (pk, fatev));
            assert(fate_is_active(fv_pre, pk.subrange(0, pk.len() - 1)));
        }
    }
}

/// A fresh fate push keeps the event bookkeeping intact.
proof fn lemma_events_stable_under_push(
    events: Seq<TransferEvent>,
    lo: int,
    srcv: PathV,
    fv_pre: Seq<(PathV, DirFateV)>,
    fv_post: Seq<(PathV, DirFateV)>,
)
    requires
        events_shape(events, lo, srcv, fv_pre),
        forall|q: PathV| fate_is_active(fv_pre, q) ==> fate_is_active(fv_post, q),
    ensures
        events_shape(events, lo, srcv, fv_post),
{
}

/// Appending one event whose source sits under the root with an active (or
/// root) parent keeps the event bookkeeping intact.
proof fn lemma_events_push(
    pre: Seq<TransferEvent>,
    e: TransferEvent,
    post: Seq<TransferEvent>,
    lo: int,
    srcv: PathV,
    fv: Seq<(PathV, DirFateV)>,
)
    requires
        events_shape(pre, lo, srcv, fv),
        post == pre.push(e),
        0 <= lo,
        e.is_transfer() ==> is_path_prefix(srcv, e.src_path()) && (e.src_path() == srcv
            || fate_is_active(fv, e.src_path().subrange(0, e.src_path().len() - 1))),
    ensures
        events_shape(post, lo, srcv, fv),
{
    assert forall|kk: int|
        lo <= kk < post.len() && #[trigger] post[kk].is_transfer() implies is_path_prefix(
        srcv,
        post[kk].src_path(),
    ) && (post[kk].src_path() == srcv || fate_is_active(
        fv,
        post[kk].src_path().subrange(0, post[kk].src_path().len() - 1),
    )) by {
        if kk < pre.len() {
            assert(post[kk] == pre[kk]);
        } else {
            assert(post[kk] == e);
        }
    }
}

/// Derives the ignored-subtree guarantee from the walk's bookkeeping.
proof fn lemma_walk_p6(fv: Seq<(PathV, DirFateV)>, src: PathV, events: Seq<TransferEvent>, lo: int)
    requires
        distinct_paths(fv),
        forall|i: int| 0 <= i < fv.len() ==> is_path_prefix(src, #[trigger] fv[i].0),
        forall|i: int|
            0 <= i < fv.len() && #[trigger] fv[i].1 is Active && fv[i].0 != src ==> fate_is_active(
                fv,
                fv[i].0.subrange(0, fv[i].0.len() - 1),
            ),
        events_shape(events, lo, src, fv),
    ensures
        forall|d: PathV, kk: int|
            find(fv, d) == Some(DirFateV::Ignored) && lo <= kk < events.len()
                && events[kk].is_transfer() ==> !(is_path_prefix(d, events[kk].src_path())
                && events[kk].src_path() != d),
{
    assert forall|d: PathV, kk: int|
        find(fv, d) == Some(DirFateV::Ignored) && lo <= kk < events.len()
            && events[kk].is_transfer() implies !(is_path_prefix(d, events[kk].src_path())
        && events[kk].src_path() != d) by {
        if is_path_prefix(d, events[kk].src_path()) && events[kk].src_path() != d {
            let s = events[kk].src_path();
            let i = choose|i: int| 0 <= i < fv.len() && fv[i].0 == d;
            assert(is_path_prefix(src, d));
            assert(d.len() < s.len()) by {
                if d.len() == s.len() {
                    lemma_prefix_same_len(d, s);
                }
            }
            if s == src {
                assert(src.len() <= d.len());
                assert(false);
            } else {
                let ps = s.subrange(0, s.len() - 1);
                assert(fate_is_active(fv, ps));
                assert(is_path_prefix(d, ps));
                lemma_active_chain(fv, src, d, ps);
                assert(false);
            }
        }
    }
}


proof fn lemma_fates_shape_monotone(
    fv: Seq<(PathV, DirFateV)>,
    srcv: PathV,
    ddv: PathV,
    pd: Seq<PathV>,
    k: int,
)
    requires
        fates_shape(fv, srcv, ddv, pd, k),
    ensures
        fates_shape(fv, srcv, ddv, pd, k + 1),
{
    assert forall|i: int|
        0 <= i < fv.len() implies is_path_prefix(srcv, #[trigger] fv[i].0) && (exists|j: int|
        0 <= j < k + 1 && pd[j] == fv[i].0) by {
        let j = choose|j: int| 0 <= j < k && pd[j] == fv[i].0;
        assert(0 <= j < k + 1 && pd[j] == fv[i].0);
    }
}

/// How one tree's walk ended: whether the user canceled it, and the fate
/// every directory of the tree was resolved to.
pub struct WalkOutcome {
    pub canceled: bool,
    pub fates: Vec<(Vec<String>, DirFate)>,
}

/// Walks one source tree in pre-order and transfers it under `dst_dir`.
/// Conflicts go through the resolver; a directory resolved to Ignore
/// shelters its whole subtree from any transfer. A clean paste — nothing at
/// the destination root, the source closed under parents, neither root
/// inside the other — copies the subtree exactly, prompts nobody, skips
/// nothing, and ends fully successful exactly when every file was readable.
/// The walk has no clock of its own, so each transfer is fed to the
/// estimator with a one-millisecond duration; a driver measuring real
/// durations uses the transfer step directly.
#[verifier::rlimit(100)]
#[verifier::spinoff_prover]
pub fn paste_tree(
    fs: &mut Fs,
    src_root: &Vec<String>,
    dst_dir: &Vec<String>,
    ctx: &mut PasteCtx,
) -> (r: WalkOutcome)
    requires
        old(fs).wf(),
        old(ctx).wf(),
        src_root@.len() >= 1,
    ensures
        final(fs).wf(),
        final(ctx).wf(),
        final(ctx).total == old(ctx).total,
        final(ctx).sink.is_connected() == old(ctx).sink.is_connected(),
        old(ctx).sink.is_connected() ==> !r.canceled,
        !old(ctx).all_success ==> !final(ctx).all_success,
        old(ctx).any_skipped ==> final(ctx).any_skipped,
        old(ctx).events@.is_prefix_of(final(ctx).events@),
        forall|q: PathV|
            !is_path_prefix(dst_dir.deep_view(), q) ==> find(final(fs).model(), q) == find(
                old(fs).model(),
                q,
            ),
        distinct_paths(fates_view(r.fates@)),
        forall|i: int|
            0 <= i < fates_view(r.fates@).len() ==> is_path_prefix(
                src_root.deep_view(),
                #[trigger] fates_view(r.fates@)[i].0,
            ),
        forall|d: PathV, kk: int|
            find(fates_view(r.fates@), d) == Some(DirFateV::Ignored) && old(ctx).events@.len()
                <= kk < final(ctx).events@.len() && final(ctx).events@[kk].is_transfer() ==> !(
            is_path_prefix(d, final(ctx).events@[kk].src_path()) && final(ctx).events@[kk].src_path()
                != d),
        (spec_clean_paste(old(fs).model(), src_root.deep_view(), dst_dir.deep_view()) && old(ctx).sink.is_connected()) ==> {
            let srcv = src_root.deep_view();
            let dstv = spec_dest_root(srcv, dst_dir.deep_view());
            &&& !r.canceled
            &&& forall|rel: PathV|
                #![trigger find(final(fs).model(), dstv + rel)]
                find(final(fs).model(), dstv + rel) == spec_copy_result(
                    find(old(fs).model(), srcv + rel),
                )
            &&& forall|q: PathV|
                !is_path_prefix(dstv, q) ==> find(final(fs).model(), q) == find(old(fs).model(), q)
            &&& final(ctx).prompts == old(ctx).prompts
            &&& final(ctx).conflict == old(ctx).conflict
            &&& final(ctx).script == old(ctx).script
            &&& final(ctx).any_skipped == old(ctx).any_skipped
            &&& final(ctx).all_success == (old(ctx).all_success && (forall|p: PathV|
                has_path(old(fs).model(), p) && is_path_prefix(srcv, p) ==> !spec_is_unreadable(
                    old(fs).model(),
                    p,
                )))
        },
{
    let ghost m0 = old(fs).model();
    let ghost srcv = src_root.deep_view();
    let ghost ddv = dst_dir.deep_view();
    let ghost dstv = spec_dest_root(srcv, ddv);
    let ghost clean = spec_clean_paste(m0, srcv, ddv) && old(ctx).sink.is_connected();
    let paths = collect_subtree(fs, src_root);
    let ghost pd = paths.deep_view();
    let ghost ev0 = old(ctx).events@;
    let mut fates: Vec<(Vec<String>, DirFate)> = Vec::new();
    let mut k: usize = 0;
    proof {
        assert(fates_view(fates@) =~= Seq::<(PathV, DirFateV)>::empty());
        assert(ev0.is_prefix_of(ctx.events@)) by {
            assert(ctx.events@.subrange(0, ev0.len() as int) =~= ev0);
        }
        if clean {
            assert(clean_dest_state(fs.model(), m0, srcv, dstv, pd, 0)) by {
                assert forall|rel: PathV|
                    #![trigger find(fs.model(), dstv + rel)]
                    find(fs.model(), dstv + rel) == (if appears_before(pd, 0, srcv + rel) {
                        spec_copy_result(find(m0, srcv + rel))
                    } else {
                        None::<FsNodeV>
                    }) by {
                    lemma_prefix_extend(dstv, rel);
                    assert(!has_path(m0, dstv + rel));
                    lemma_find_none(m0, dstv + rel);
                }
            }
        }
    }
    while k < paths.len()
        invariant
            fs.wf(),
            ctx.wf(),
            k <= paths.len(),
            m0 == old(fs).model(),
            srcv == src_root.deep_view(),
            srcv.len() >= 1,
            ddv == dst_dir.deep_view(),
            dstv == spec_dest_root(srcv, ddv),
            pd == paths.deep_view(),
            ev0 == old(ctx).events@,
            clean == (spec_clean_paste(m0, srcv, ddv) && old(ctx).sink.is_connected()),
            forall|j: int| 0 <= j < pd.len() ==> has_path(m0, #[trigger] pd[j]) && is_path_prefix(srcv, pd[j]),
            forall|p: PathV|
                has_path(m0, p) && is_path_prefix(srcv, p) ==> exists|j: int|
                    0 <= j < pd.len() && pd[j] == p,
            forall|j1: int, j2: int|
                0 <= j1 < pd.len() && 0 <= j2 < pd.len() && j1 != j2 ==> pd[j1] != pd[j2],
            forall|j1: int, j2: int| 0 <= j1 < j2 < pd.len() ==> pd[j1].len() <= pd[j2].len(),
            forall|q: PathV| !is_path_prefix(ddv, q) ==> find(fs.model(), q) == find(m0, q),
            ctx.total == old(ctx).total,
            ctx.sink.is_connected() == old(ctx).sink.is_connected(),
            !old(ctx).all_success ==> !ctx.all_success,
            old(ctx).any_skipped ==> ctx.any_skipped,
            ev0.is_prefix_of(ctx.events@),
            fates_view(fates@).len() == fates@.len(),
            fates_shape(fates_view(fates@), srcv, ddv, pd, k as int),
            events_shape(ctx.events@, ev0.len() as int, srcv, fates_view(fates@)),
            clean ==> clean_dest_state(fs.model(), m0, srcv, dstv, pd, k as int),
            clean ==> forall|q: PathV|
                !is_path_prefix(dstv, q) ==> find(fs.model(), q) == find(m0, q),
            clean ==> clean_fates_state(fates_view(fates@), m0, srcv, dstv, pd, k as int),
            clean ==> ctx.prompts == old(ctx).prompts && ctx.conflict == old(ctx).conflict
                && ctx.script == old(ctx).script && ctx.any_skipped == old(ctx).any_skipped,
            clean ==> ctx.all_success == (old(ctx).all_success && (forall|j: int|
                0 <= j < k ==> !spec_is_unreadable(m0, #[trigger] pd[j]))),
        decreases paths.len() - k,
    {
        let p = &paths[k];
        let ghost pk = pd[k as int];
        let ghost relk = pk.skip(srcv.len() as int);
        proof {
            assert(pk == paths@[k as int].deep_view());
            assert(has_path(m0, pk) && is_path_prefix(srcv, pk));
            lemma_prefix_decompose(srcv, pk);
            if clean {
                assert(!is_path_prefix(dstv, pk));
                assert(find(fs.model(), dstv + relk) == (if appears_before(pd, k as int, pk) {
                    spec_copy_result(find(m0, pk))
                } else {
                    None::<FsNodeV>
                }));
                assert(!appears_before(pd, k as int, pk)) by {
                    if appears_before(pd, k as int, pk) {
                        let j = choose|j: int| 0 <= j < k && pd[j] == pk;
                    }
                }
                assert(find(fs.model(), dstv + relk) is None);
                assert(find(fs.model(), pk) == find(m0, pk));
            }
        }
        let ghost fv_pre = fates_view(fates@);
        let parent_fate: Option<DirFate> = if p.len() == src_root.len() {
            proof {
                lemma_prefix_same_len(srcv, pk);
            }
            Some(DirFate::Active { dest: crate::fs::clone_path(dst_dir), overwrite: false })
        } else {
            proof {
                assert(pk.len() > srcv.len());
            }
            let par = parent_of(p);
            let ghost parv = par.deep_view();
            let pf = find_fate(&fates, &par);
            proof {
                assert(parv == pk.subrange(0, pk.len() - 1));
                if clean {
                    assert(pk != srcv);
                    assert(find(m0, parv) == Some(FsNodeV::Dir));
                    assert(is_path_prefix(srcv, parv));
                    assert(has_path(m0, parv));
                    let j = choose|j: int| 0 <= j < pd.len() && pd[j] == parv;
                    assert(j < k) by {
                        if j == k {
                            assert(pd[j].len() == pk.len() - 1);
                        } else if j > k {
                            assert(pd[k as int].len() <= pd[j].len());
                        }
                    }
                    assert(find(fv_pre, parv) == Some(DirFateV::Active {
                        dest: spec_rebase(srcv, dstv, parv),
                        overwrite: false,
                    }));
                }
            }
            pf
        };
        match parent_fate {
            None => {
                // the walk never resolved this entry's parent: its subtree
                // was not transferred, so the entry is skipped
                ctx.any_skipped = true;
                proof {
                    if clean {
                        assert(false);
                    }
                    lemma_fates_shape_monotone(fv_pre, srcv, ddv, pd, k as int);
                }
            },
            Some(DirFate::Ignored) => {
                // an ancestor was resolved to Ignore: skip without a prompt
                ctx.any_skipped = true;
                proof {
                    if clean {
                        assert(false);
                    }
                    lemma_fates_shape_monotone(fv_pre, srcv, ddv, pd, k as int);
                }
            },
            Some(DirFate::Active { dest, overwrite: ow }) => {
                let ghost destv = dest.deep_view();
                proof {
                    if p.len() == src_root.len() {
                        assert(destv == ddv && pk == srcv);
                        assert(is_path_prefix(ddv, destv));
                    } else {
                        assert(pk != srcv) by {
                            assert(pk.len() > srcv.len());
                        }
                        let i0 = choose|i: int|
                            0 <= i < fv_pre.len() && fv_pre[i].0 == pk.subrange(0, pk.len() - 1);
                        assert(fv_pre[i0].1 == (DirFateV::Active { dest: destv, overwrite: ow }));
                        assert(is_path_prefix(ddv, destv));
                        assert(fate_is_active(fv_pre, pk.subrange(0, pk.len() - 1)));
                    }
                    if clean {
                        assert(ow == false);
                        if pk == srcv {
                            assert(spec_rebase(srcv, dstv, srcv) =~= dstv);
                        } else {
                            assert(destv == spec_rebase(srcv, dstv, pk.subrange(0, pk.len() - 1)));
                        }
                    }
                }
                let name = p[p.len() - 1].clone();
                let cand = path_join(&dest, &name);
                let ghost candv = cand.deep_view();
                proof {
                    assert(name@ == pk.last());
                    assert(candv == destv.push(pk.last()));
                    assert(is_path_prefix(ddv, candv)) by {
                        assert(forall|c: int|
                            0 <= c < ddv.len() ==> candv[c] == destv[c] && destv[c] == ddv[c]);
                    }
                    assert(candv.len() >= 1);
                    if clean {
                        assert(candv == spec_rebase(srcv, dstv, pk)) by {
                            if pk == srcv {
                                assert(candv =~= dstv + pk.skip(srcv.len() as int));
                            } else {
                                lemma_rebase_step(srcv, dstv, pk);
                            }
                        }
                        assert(candv == dstv + relk);
                        assert(find(fs.model(), candv) is None);
                        assert(!has_path(fs.model(), candv));
                        assert(is_path_prefix(dstv, candv)) by {
                            lemma_prefix_extend(dstv, relk);
                        }
                        assert(spec_parent_ok_in(fs.model(), candv)) by {
                            if candv.len() > 1 {
                                if pk == srcv {
                                    assert(candv =~= dstv);
                                    assert(candv.subrange(0, candv.len() - 1) =~= ddv);
                                    assert(ddv.len() >= 1);
                                    assert(!is_path_prefix(dstv, ddv));
                                    assert(find(fs.model(), ddv) == find(m0, ddv));
                                } else {
                                    lemma_rebase_step(srcv, dstv, pk);
                                    let parv = pk.subrange(0, pk.len() - 1);
                                    assert(candv.subrange(0, candv.len() - 1) == spec_rebase(
                                        srcv,
                                        dstv,
                                        parv,
                                    ));
                                    lemma_prefix_decompose(srcv, parv);
                                    let relpar = parv.skip(srcv.len() as int);
                                    assert(spec_rebase(srcv, dstv, parv) == dstv + relpar);
                                    let j = choose|j: int| 0 <= j < pd.len() && pd[j] == parv;
                                    assert(j < k) by {
                                        if j == k {
                                            assert(pd[j].len() == pk.len() - 1);
                                        } else if j > k {
                                            assert(pd[k as int].len() <= pd[j].len());
                                        }
                                    }
                                    assert(appears_before(pd, k as int, srcv + relpar));
                                    assert(find(fs.model(), dstv + relpar) == spec_copy_result(
                                        find(m0, parv),
                                    ));
                                }
                            }
                        }
                    }
                }
                let node = fs.lookup(p);
                match node {
                    None => {
                        // the snapshot entry is gone from the model
                        ctx.all_success = false;
                        proof {
                            if clean {
                                assert(false);
                            }
                            lemma_fates_shape_monotone(fv_pre, srcv, ddv, pd, k as int);
                        }
                    },
                    Some(n) => {
                        if crate::fs::node_is_dir(&n) {
                            paste_folder_with_checks(fs, ctx, &mut fates, p, &dest, cand, ow, Ghost(m0),
                                Ghost(srcv), Ghost(ddv), Ghost(dstv), Ghost(pd), Ghost(k as int),
                                Ghost(clean), Ghost(ev0), Ghost(fv_pre));
                        } else {
                            let is_link = !crate::fs::node_is_file(&n);
                            let canceled = paste_file_with_checks(fs, ctx, p, &dest, cand, ow, is_link,
                                Ghost(m0), Ghost(srcv), Ghost(ddv), Ghost(dstv), Ghost(pd),
                                Ghost(k as int), Ghost(clean), Ghost(ev0), Ghost(fv_pre),
                                Ghost(fates_view(fates@)));
                            proof {
                                lemma_fates_shape_monotone(fv_pre, srcv, ddv, pd, k as int);
                            }
                            if canceled {
                                proof {
                                    lemma_walk_p6(fates_view(fates@), srcv, ctx.events@,
                                        ev0.len() as int);
                                    if clean {
                                        assert(false);
                                    }
                                }
                                return WalkOutcome { canceled: true, fates };
                            }
                        }
                    },
                }
            },
        }
        k = k + 1;
    }
    proof {
        lemma_walk_p6(fates_view(fates@), srcv, ctx.events@, ev0.len() as int);
        if clean {
            assert forall|rel: PathV|
                #![trigger find(fs.model(), dstv + rel)]
                find(fs.model(), dstv + rel) == spec_copy_result(find(m0, srcv + rel)) by {
                lemma_prefix_extend(srcv, rel);
                if has_path(m0, srcv + rel) {
                    let j = choose|j: int| 0 <= j < pd.len() && pd[j] == srcv + rel;
                    assert(appears_before(pd, pd.len() as int, srcv + rel));
                } else {
                    lemma_find_none(m0, srcv + rel);
                    if appears_before(pd, pd.len() as int, srcv + rel) {
                        let j = choose|j: int| 0 <= j < pd.len() && pd[j] == srcv + rel;
                        assert(has_path(m0, pd[j]));
                    }
                }
            }
            assert(ctx.all_success == (old(ctx).all_success && (forall|p2: PathV|
                has_path(m0, p2) && is_path_prefix(srcv, p2) ==> !spec_is_unreadable(
                    m0,
                    p2,
                )))) by {
                if (forall|j: int| 0 <= j < pd.len() ==> !spec_is_unreadable(m0, #[trigger] pd[j])) {
                    assert forall|p2: PathV|
                        has_path(m0, p2) && is_path_prefix(srcv, p2) implies !spec_is_unreadable(
                        m0,
                        p2,
                    ) by {
                        let j = choose|j: int| 0 <= j < pd.len() && pd[j] == p2;
                    }
                } else {
                    let j = choose|j: int|
                        !(0 <= j < pd.len() ==> !spec_is_unreadable(m0, pd[j]));
                    assert(has_path(m0, pd[j]) && is_path_prefix(srcv, pd[j]));
                }
            }
        }
    }
    WalkOutcome { canceled: false, fates }
}


/// What transferring one leaf to `target` leaves behind: on a possible
/// transfer the target holds the source's node and nothing else moves; on
/// an impossible one (unreadable file, missing parent, blocked target) the
/// filesystem is untouched and the batch is marked partially failed.
pub open spec fn spec_leaf_transfer(
    m_old: Seq<(PathV, FsNodeV)>,
    m_new: Seq<(PathV, FsNodeV)>,
    pk: PathV,
    target: PathV,
    all_old: bool,
    all_new: bool,
) -> bool {
    if spec_transfer_ok(m_old, pk, target) {
        &&& find(m_new, target) == find(m_old, pk)
        &&& (forall|q: PathV| q != target ==> find(m_new, q) == find(m_old, q))
        &&& all_new == all_old
    } else {
        &&& m_new == m_old
        &&& all_new == false
    }
}

/// What resolving one directory to a creation at `target` leaves behind: a
/// fresh directory there when the name is free and its parent present, and
/// an ignored subtree (with the batch marked partially failed) otherwise.
pub open spec fn spec_dir_creation(
    m_old: Seq<(PathV, FsNodeV)>,
    m_new: Seq<(PathV, FsNodeV)>,
    fv_new: Seq<(PathV, DirFateV)>,
    pk: PathV,
    target: PathV,
    all_old: bool,
    all_new: bool,
) -> bool {
    if !has_path(m_old, target) && spec_parent_ok_in(m_old, target) {
        &&& find(m_new, target) == Some(FsNodeV::Dir)
        &&& (forall|q: PathV| q != target ==> find(m_new, q) == find(m_old, q))
        &&& find(fv_new, pk) == Some(DirFateV::Active { dest: target, overwrite: false })
        &&& all_new == all_old
    } else {
        &&& m_new == m_old
        &&& all_new == false
        &&& find(fv_new, pk) == Some(DirFateV::Ignored)
    }
}

/// Handles one directory entry of the walk: inherited overwrite, plain
/// creation, or a conflict resolved to ignore / overwrite / rename.
#[verifier::rlimit(100)]
#[verifier::spinoff_prover]
pub fn paste_folder_with_checks(
    fs: &mut Fs,
    ctx: &mut PasteCtx,
    fates: &mut Vec<(Vec<String>, DirFate)>,
    p: &Vec<String>,
    dest: &Vec<String>,
    cand: Vec<String>,
    ow: bool,
    Ghost(m0): Ghost<Seq<(PathV, FsNodeV)>>,
    Ghost(srcv): Ghost<PathV>,
    Ghost(ddv): Ghost<PathV>,
    Ghost(dstv): Ghost<PathV>,
    Ghost(pd): Ghost<Seq<PathV>>,
    Ghost(k): Ghost<int>,
    Ghost(clean): Ghost<bool>,
    Ghost(ev0): Ghost<Seq<TransferEvent>>,
    Ghost(fv_pre): Ghost<Seq<(PathV, DirFateV)>>,
)
    requires
        old(fs).wf(),
        old(ctx).wf(),
        fv_pre == fates_view(old(fates)@),
        fates_view(old(fates)@).len() == old(fates)@.len(),
        fates_shape(fv_pre, srcv, ddv, pd, k),
        events_shape(old(ctx).events@, ev0.len() as int, srcv, fv_pre),
        ev0.is_prefix_of(old(ctx).events@),
        0 <= k < pd.len(),
        pd[k] == p.deep_view(),
        forall|j1: int, j2: int|
            0 <= j1 < pd.len() && 0 <= j2 < pd.len() && j1 != j2 ==> pd[j1] != pd[j2],
        is_path_prefix(srcv, p.deep_view()),
        is_path_prefix(ddv, dest.deep_view()),
        cand.deep_view() == dest.deep_view().push(p.deep_view().last()),
        cand@.len() >= 1,
        is_path_prefix(ddv, cand.deep_view()),
        p.deep_view() != srcv ==> fate_is_active(fv_pre, p.deep_view().subrange(0, p.deep_view().len() - 1)),
        clean ==> {
            &&& ow == false
            &&& cand.deep_view() == dstv + p.deep_view().skip(srcv.len() as int)
            &&& is_path_prefix(dstv, cand.deep_view())
            &&& clean_dest_state(old(fs).model(), m0, srcv, dstv, pd, k)
            &&& (forall|q: PathV| !is_path_prefix(dstv, q) ==> find(old(fs).model(), q) == find(m0, q))
            &&& !has_path(old(fs).model(), cand.deep_view())
            &&& spec_parent_ok_in(old(fs).model(), cand.deep_view())
            &&& clean_fates_state(fv_pre, m0, srcv, dstv, pd, k)
            &&& find(m0, p.deep_view()) == Some(FsNodeV::Dir)
            &&& !spec_is_unreadable(m0, p.deep_view())
        },
    ensures
        final(fs).wf(),
        final(ctx).wf(),
        final(ctx).total == old(ctx).total,
        final(ctx).sink.is_connected() == old(ctx).sink.is_connected(),
        !old(ctx).all_success ==> !final(ctx).all_success,
        old(ctx).any_skipped ==> final(ctx).any_skipped,
        ev0.is_prefix_of(final(ctx).events@),
        forall|q: PathV|
            !is_path_prefix(ddv, q) ==> find(final(fs).model(), q) == find(old(fs).model(), q),
        fates_view(final(fates)@).len() == final(fates)@.len(),
        fates_shape(fates_view(final(fates)@), srcv, ddv, pd, k + 1),
        events_shape(final(ctx).events@, ev0.len() as int, srcv, fates_view(final(fates)@)),
        // an inherited Overwrite keeps what exists, asking nobody
        ow ==> *final(fs) == *old(fs) && find(fates_view(final(fates)@), p.deep_view()) == Some(
            DirFateV::Active { dest: cand.deep_view(), overwrite: true },
        ) && final(ctx).prompts == old(ctx).prompts && final(ctx).conflict == old(ctx).conflict
            && final(ctx).script == old(ctx).script && final(ctx).all_success == old(ctx).all_success && final(ctx).any_skipped == old(ctx).any_skipped,
        // a free name is simply created
        (!ow && !has_path(old(fs).model(), cand.deep_view())) ==> spec_dir_creation(
            old(fs).model(),
            final(fs).model(),
            fates_view(final(fates)@),
            p.deep_view(),
            cand.deep_view(),
            old(ctx).all_success,
            final(ctx).all_success,
        ) && final(ctx).prompts == old(ctx).prompts && final(ctx).conflict == old(ctx).conflict
            && final(ctx).script == old(ctx).script && final(ctx).any_skipped == old(ctx).any_skipped,
        // a sticky Ignore shelters the subtree without asking
        (!ow && has_path(old(fs).model(), cand.deep_view()) && !crate::conflict::spec_needs_prompt(
            old(ctx).conflict,
        ) && old(ctx).conflict.sticky == RenameOption::Ignore) ==> *final(fs) == *old(fs) && find(
            fates_view(final(fates)@),
            p.deep_view(),
        ) == Some(DirFateV::Ignored) && final(ctx).any_skipped && final(ctx).prompts == old(ctx).prompts && final(ctx).conflict == old(ctx).conflict && final(ctx).script == old(ctx).script && final(ctx).all_success == old(ctx).all_success,
        // a sticky Overwrite keeps the existing directory without asking
        (!ow && has_path(old(fs).model(), cand.deep_view()) && !crate::conflict::spec_needs_prompt(
            old(ctx).conflict,
        ) && old(ctx).conflict.sticky == RenameOption::Overwrite) ==> *final(fs) == *old(fs)
            && find(fates_view(final(fates)@), p.deep_view()) == Some(
            DirFateV::Active { dest: cand.deep_view(), overwrite: true },
        ) && final(ctx).prompts == old(ctx).prompts && final(ctx).conflict == old(ctx).conflict
            && final(ctx).script == old(ctx).script && final(ctx).all_success == old(ctx).all_success && final(ctx).any_skipped == old(ctx).any_skipped,
        // an answered Rename creates the directory under the new name,
        // rebasing every later descendant under it through the fate table
        (!ow && has_path(old(fs).model(), cand.deep_view()) && crate::conflict::spec_needs_prompt(
            old(ctx).conflict,
        ) && old(ctx).script.remaining().len() > 0 && old(ctx).script.remaining().first().option == RenameOption::Rename && old(ctx).script.remaining().first().filename is Some) ==> spec_dir_creation(
            old(fs).model(),
            final(fs).model(),
            fates_view(final(fates)@),
            p.deep_view(),
            dest.deep_view().push(old(ctx).script.remaining().first().filename->0@),
            old(ctx).all_success,
            final(ctx).all_success,
        ) && final(ctx).prompts == spec_bump(old(ctx).prompts) && final(ctx).conflict
            == crate::conflict::spec_after_response(
            old(ctx).conflict,
            old(ctx).script.remaining().first(),
        ) && final(ctx).script.remaining() == old(ctx).script.remaining().drop_first(),
        // an answered Overwrite keeps the existing directory
        (!ow && has_path(old(fs).model(), cand.deep_view()) && crate::conflict::spec_needs_prompt(
            old(ctx).conflict,
        ) && old(ctx).script.remaining().len() > 0 && old(ctx).script.remaining().first().option == RenameOption::Overwrite) ==> *final(fs) == *old(fs)
            && find(fates_view(final(fates)@), p.deep_view()) == Some(
            DirFateV::Active { dest: cand.deep_view(), overwrite: true },
        ) && final(ctx).prompts == spec_bump(old(ctx).prompts) && final(ctx).all_success == old(ctx).all_success && final(ctx).any_skipped == old(ctx).any_skipped,
        // an answered Ignore shelters the subtree
        (!ow && has_path(old(fs).model(), cand.deep_view()) && crate::conflict::spec_needs_prompt(
            old(ctx).conflict,
        ) && old(ctx).script.remaining().len() > 0 && old(ctx).script.remaining().first().option == RenameOption::Ignore) ==> *final(fs) == *old(fs)
            && find(fates_view(final(fates)@), p.deep_view()) == Some(DirFateV::Ignored) && final(ctx).any_skipped && final(ctx).prompts == spec_bump(old(ctx).prompts) && final(ctx).all_success == old(ctx).all_success,
        // an unreachable dialog shelters the subtree as well
        (!ow && has_path(old(fs).model(), cand.deep_view()) && crate::conflict::spec_needs_prompt(
            old(ctx).conflict,
        ) && old(ctx).script.remaining().len() == 0) ==> *final(fs) == *old(fs) && find(
            fates_view(final(fates)@),
            p.deep_view(),
        ) == Some(DirFateV::Ignored) && final(ctx).any_skipped && final(ctx).prompts == spec_bump(
            old(ctx).prompts,
        ) && final(ctx).all_success == old(ctx).all_success,
        clean ==> {
            &&& clean_dest_state(final(fs).model(), m0, srcv, dstv, pd, k + 1)
            &&& (forall|q: PathV| !is_path_prefix(dstv, q) ==> find(final(fs).model(), q) == find(m0, q))
            &&& clean_fates_state(fates_view(final(fates)@), m0, srcv, dstv, pd, k + 1)
            &&& final(ctx).prompts == old(ctx).prompts
            &&& final(ctx).conflict == old(ctx).conflict
            &&& final(ctx).script == old(ctx).script
            &&& final(ctx).any_skipped == old(ctx).any_skipped
            &&& final(ctx).all_success == old(ctx).all_success
        },
{
    let ghost pk = p.deep_view();
    let ghost candv = cand.deep_view();
    let ghost relk = pk.skip(srcv.len() as int);
    if ow {
        // an ancestor was resolved to Overwrite: keep what exists
        let ghost fatev = DirFateV::Active { dest: candv, overwrite: true };
        fates.push((crate::fs::clone_path(p), DirFate::Active { dest: cand, overwrite: true }));
        proof {
            assert(fates_view(fates@) =~= fv_pre.push((pk, fatev)));
            lemma_fate_push_facts(fv_pre, fates@, pk, fatev, srcv, ddv, pd, k);
            lemma_events_stable_under_push(ctx.events@, ev0.len() as int, srcv, fv_pre,
                fates_view(fates@));
        }
        return ;
    }
    let exists_cand = fs.exists_path(&cand);
    if !exists_cand {
        let created = fs.create_dir(&cand);
        if created {
            ctx.events.push(TransferEvent::DirCreated {
                src: crate::fs::clone_path(p),
                dst: crate::fs::clone_path(&cand),
            });
            let ghost fatev = DirFateV::Active { dest: candv, overwrite: false };
            let ghost ev_mid = ctx.events@;
            fates.push((crate::fs::clone_path(p), DirFate::Active {
                dest: cand,
                overwrite: false,
            }));
            proof {
                assert(fates_view(fates@) =~= fv_pre.push((pk, fatev)));
                lemma_fate_push_facts(fv_pre, fates@, pk, fatev, srcv, ddv, pd, k);
                assert(ev_mid.last().src_path() == pk);
                assert(ev_mid.last().is_transfer());
                assert(ev_mid =~= ev_mid.drop_last().push(ev_mid.last()));
                        lemma_events_push(ev_mid.drop_last(), ev_mid.last(), ev_mid, ev0.len() as int,
                    srcv, fv_pre);
                lemma_events_stable_under_push(ctx.events@, ev0.len() as int, srcv, fv_pre,
                    fates_view(fates@));
                assert(ev0.is_prefix_of(ctx.events@)) by {
                    assert(ctx.events@.subrange(0, ev0.len() as int) =~= ev0);
                }
                if clean {
                    assert(clean_dest_state(fs.model(), m0, srcv, dstv, pd, k + 1)) by {
                        assert forall|rel: PathV|
                            #![trigger find(fs.model(), dstv + rel)]
                            find(fs.model(), dstv + rel) == (if appears_before(
                                pd,
                                k + 1,
                                srcv + rel,
                            ) {
                                spec_copy_result(find(m0, srcv + rel))
                            } else {
                                None::<FsNodeV>
                            }) by {
                            lemma_appears_step(pd, k, srcv + rel);
                            lemma_prefix_decompose(srcv, pk);
                            if dstv + rel == candv {
                                lemma_add_cancel(dstv, rel, relk);
                                assert(srcv + rel == pk);
                            } else {
                                assert(find(fs.model(), dstv + rel) == find(
                                    old(fs).model(),
                                    dstv + rel,
                                ));
                                if srcv + rel == pk {
                                    lemma_add_cancel(srcv, rel, relk);
                                    assert(dstv + rel == candv);
                                }
                            }
                        }
                    }
                    assert forall|q: PathV| !is_path_prefix(dstv, q) implies find(
                        fs.model(),
                        q,
                    ) == find(m0, q) by {
                        assert(q != candv);
                    }
                    assert(clean_fates_state(fates_view(fates@), m0, srcv, dstv, pd, k + 1)) by {
                        let fv = fates_view(fates@);
                        assert forall|i: int|
                            0 <= i < fv.len() implies #[trigger] fv[i].1 == (DirFateV::Active {
                            dest: spec_rebase(srcv, dstv, fv[i].0),
                            overwrite: false,
                        }) && find(m0, fv[i].0) == Some(FsNodeV::Dir) by {
                            if i < fv_pre.len() {
                                assert(fv[i] == fv_pre[i]);
                            } else {
                                assert(fv[i] == (pk, fatev));
                                assert(spec_rebase(srcv, dstv, pk) == candv);
                            }
                        }
                        assert forall|j: int|
                            0 <= j < k + 1 && find(m0, #[trigger] pd[j]) == Some(
                                FsNodeV::Dir,
                            ) implies find(fv, pd[j]) == Some(DirFateV::Active {
                            dest: spec_rebase(srcv, dstv, pd[j]),
                            overwrite: false,
                        }) by {
                            if j < k {
                                assert(find(fv_pre, pd[j]) == Some(DirFateV::Active {
                                    dest: spec_rebase(srcv, dstv, pd[j]),
                                    overwrite: false,
                                }));
                                assert(pd[j] != pk);
                            } else {
                                assert(find(fv, pk) == Some(fatev));
                            }
                        }
                    }
                }
            }
        } else {
            ctx.all_success = false;
            fates.push((crate::fs::clone_path(p), DirFate::Ignored));
            proof {
                assert(fates_view(fates@) =~= fv_pre.push((pk, DirFateV::Ignored)));
                lemma_fate_push_facts(fv_pre, fates@, pk, DirFateV::Ignored, srcv, ddv, pd, k);
                lemma_events_stable_under_push(ctx.events@, ev0.len() as int, srcv, fv_pre,
                    fates_view(fates@));
                if clean {
                    assert(false);
                }
            }
        }
    } else {
        proof {
            if clean {
                assert(has_path(fs.model(), candv));
                assert(false);
            }
        }
        match resolve_conflict_action(ctx) {
            ConflictAction::AIgnore => {
                ctx.events.push(TransferEvent::Skipped { src: crate::fs::clone_path(p) });
                ctx.any_skipped = true;
                let ghost ev_mid = ctx.events@;
                fates.push((crate::fs::clone_path(p), DirFate::Ignored));
                proof {
                    assert(fates_view(fates@) =~= fv_pre.push((pk, DirFateV::Ignored)));
                    lemma_fate_push_facts(fv_pre, fates@, pk, DirFateV::Ignored, srcv, ddv, pd, k);
                    assert(ev_mid =~= ev_mid.drop_last().push(ev_mid.last()));
                        lemma_events_push(ev_mid.drop_last(), ev_mid.last(), ev_mid,
                        ev0.len() as int, srcv, fv_pre);
                    lemma_events_stable_under_push(ctx.events@, ev0.len() as int, srcv, fv_pre,
                        fates_view(fates@));
                    assert(ev0.is_prefix_of(ctx.events@)) by {
                        assert(ctx.events@.subrange(0, ev0.len() as int) =~= ev0);
                    }
                }
            },
            ConflictAction::AUnresolved => {
                ctx.any_skipped = true;
                fates.push((crate::fs::clone_path(p), DirFate::Ignored));
                proof {
                    assert(fates_view(fates@) =~= fv_pre.push((pk, DirFateV::Ignored)));
                    lemma_fate_push_facts(fv_pre, fates@, pk, DirFateV::Ignored, srcv, ddv, pd, k);
                    lemma_events_stable_under_push(ctx.events@, ev0.len() as int, srcv, fv_pre,
                        fates_view(fates@));
                }
            },
            ConflictAction::AOverwrite => {
                let ghost fatev = DirFateV::Active { dest: candv, overwrite: true };
                fates.push((crate::fs::clone_path(p), DirFate::Active {
                    dest: cand,
                    overwrite: true,
                }));
                proof {
                    assert(fates_view(fates@) =~= fv_pre.push((pk, fatev)));
                    lemma_fate_push_facts(fv_pre, fates@, pk, fatev, srcv, ddv, pd, k);
                    lemma_events_stable_under_push(ctx.events@, ev0.len() as int, srcv, fv_pre,
                        fates_view(fates@));
                }
            },
            ConflictAction::ARename(nm) => {
                let cand2 = path_join(dest, &nm);
                let ghost cand2v = cand2.deep_view();
                proof {
                    assert(is_path_prefix(ddv, cand2v)) by {
                        assert(forall|c: int|
                            0 <= c < ddv.len() ==> cand2v[c] == dest.deep_view()[c]
                                && dest.deep_view()[c] == ddv[c]);
                    }
                    assert(cand2v.len() >= 1);
                }
                let created = fs.create_dir(&cand2);
                if created {
                    ctx.events.push(TransferEvent::DirCreated {
                        src: crate::fs::clone_path(p),
                        dst: crate::fs::clone_path(&cand2),
                    });
                    let ghost fatev = DirFateV::Active { dest: cand2v, overwrite: false };
                    let ghost ev_mid = ctx.events@;
                    fates.push((crate::fs::clone_path(p), DirFate::Active {
                        dest: cand2,
                        overwrite: false,
                    }));
                    proof {
                        assert(fates_view(fates@) =~= fv_pre.push((pk, fatev)));
                        lemma_fate_push_facts(fv_pre, fates@, pk, fatev, srcv, ddv, pd, k);
                        assert(ev_mid =~= ev_mid.drop_last().push(ev_mid.last()));
                        lemma_events_push(ev_mid.drop_last(), ev_mid.last(), ev_mid,
                            ev0.len() as int, srcv, fv_pre);
                        lemma_events_stable_under_push(ctx.events@, ev0.len() as int, srcv,
                            fv_pre, fates_view(fates@));
                        assert(ev0.is_prefix_of(ctx.events@)) by {
                            assert(ctx.events@.subrange(0, ev0.len() as int) =~= ev0);
                        }
                    }
                } else {
                    ctx.all_success = false;
                    fates.push((crate::fs::clone_path(p), DirFate::Ignored));
                    proof {
                        assert(fates_view(fates@) =~= fv_pre.push((pk, DirFateV::Ignored)));
                        lemma_fate_push_facts(fv_pre, fates@, pk, DirFateV::Ignored, srcv, ddv,
                            pd, k);
                        lemma_events_stable_under_push(ctx.events@, ev0.len() as int, srcv,
                            fv_pre, fates_view(fates@));
                    }
                }
            },
        }
    }
}

/// Handles one regular file or symbolic link of the walk: conflict
/// resolution if the destination is taken, then the transfer itself.
/// Returns whether the user canceled the operation.
#[verifier::rlimit(100)]
#[verifier::spinoff_prover]
pub fn paste_file_with_checks(
    fs: &mut Fs,
    ctx: &mut PasteCtx,
    p: &Vec<String>,
    dest: &Vec<String>,
    cand: Vec<String>,
    ow: bool,
    is_link: bool,
    Ghost(m0): Ghost<Seq<(PathV, FsNodeV)>>,
    Ghost(srcv): Ghost<PathV>,
    Ghost(ddv): Ghost<PathV>,
    Ghost(dstv): Ghost<PathV>,
    Ghost(pd): Ghost<Seq<PathV>>,
    Ghost(k): Ghost<int>,
    Ghost(clean): Ghost<bool>,
    Ghost(ev0): Ghost<Seq<TransferEvent>>,
    Ghost(fv_pre): Ghost<Seq<(PathV, DirFateV)>>,
    Ghost(fv_same): Ghost<Seq<(PathV, DirFateV)>>,
) -> (canceled: bool)
    requires
        old(fs).wf(),
        old(ctx).wf(),
        fv_same == fv_pre,
        fates_shape(fv_pre, srcv, ddv, pd, k),
        events_shape(old(ctx).events@, ev0.len() as int, srcv, fv_pre),
        ev0.is_prefix_of(old(ctx).events@),
        0 <= k < pd.len(),
        pd[k] == p.deep_view(),
        is_path_prefix(srcv, p.deep_view()),
        is_path_prefix(ddv, dest.deep_view()),
        cand.deep_view() == dest.deep_view().push(p.deep_view().last()),
        cand@.len() >= 1,
        is_path_prefix(ddv, cand.deep_view()),
        p.deep_view() != srcv ==> fate_is_active(fv_pre, p.deep_view().subrange(0, p.deep_view().len() - 1)),
        clean ==> {
            &&& ow == false
            &&& cand.deep_view() == dstv + p.deep_view().skip(srcv.len() as int)
            &&& is_path_prefix(dstv, cand.deep_view())
            &&& clean_dest_state(old(fs).model(), m0, srcv, dstv, pd, k)
            &&& (forall|q: PathV| !is_path_prefix(dstv, q) ==> find(old(fs).model(), q) == find(m0, q))
            &&& !has_path(old(fs).model(), cand.deep_view())
            &&& spec_parent_ok_in(old(fs).model(), cand.deep_view())
            &&& find(old(fs).model(), p.deep_view()) == find(m0, p.deep_view())
            &&& (match find(m0, p.deep_view()) {
                Some(FsNodeV::Dir) => false,
                Some(FsNodeV::File { .. }) => true,
                Some(FsNodeV::Symlink { .. }) => true,
                None => false,
            })
            &&& old(ctx).sink.is_connected()
        },
    ensures
        final(fs).wf(),
        final(ctx).wf(),
        final(ctx).total == old(ctx).total,
        final(ctx).sink.is_connected() == old(ctx).sink.is_connected(),
        old(ctx).sink.is_connected() ==> !canceled,
        !old(ctx).all_success ==> !final(ctx).all_success,
        old(ctx).any_skipped ==> final(ctx).any_skipped,
        ev0.is_prefix_of(final(ctx).events@),
        forall|q: PathV|
            !is_path_prefix(ddv, q) ==> find(final(fs).model(), q) == find(old(fs).model(), q),
        events_shape(final(ctx).events@, ev0.len() as int, srcv, fv_pre),
        // a free target (or an inherited Overwrite) goes straight to the
        // transfer step
        (ow || !has_path(old(fs).model(), cand.deep_view())) ==> spec_leaf_transfer(
            old(fs).model(),
            final(fs).model(),
            p.deep_view(),
            cand.deep_view(),
            old(ctx).all_success,
            final(ctx).all_success,
        ) && final(ctx).prompts == old(ctx).prompts && final(ctx).conflict == old(ctx).conflict
            && final(ctx).script == old(ctx).script && final(ctx).any_skipped == old(ctx).any_skipped,
        // a sticky Ignore copies nothing and moves no counter
        (!ow && has_path(old(fs).model(), cand.deep_view()) && !crate::conflict::spec_needs_prompt(
            old(ctx).conflict,
        ) && old(ctx).conflict.sticky == RenameOption::Ignore) ==> *final(fs) == *old(fs) && final(ctx).current == old(ctx).current && final(ctx).estimator == old(ctx).estimator && final(ctx).avg_speed == old(ctx).avg_speed && final(ctx).remaining_time == old(ctx).remaining_time
            && final(ctx).any_skipped && final(ctx).all_success == old(ctx).all_success && final(ctx).prompts == old(ctx).prompts && final(ctx).conflict == old(ctx).conflict && final(ctx).script == old(ctx).script && !canceled,
        // a sticky Overwrite transfers onto the existing target
        (!ow && has_path(old(fs).model(), cand.deep_view()) && !crate::conflict::spec_needs_prompt(
            old(ctx).conflict,
        ) && old(ctx).conflict.sticky == RenameOption::Overwrite) ==> spec_leaf_transfer(
            old(fs).model(),
            final(fs).model(),
            p.deep_view(),
            cand.deep_view(),
            old(ctx).all_success,
            final(ctx).all_success,
        ) && final(ctx).prompts == old(ctx).prompts && final(ctx).conflict == old(ctx).conflict
            && final(ctx).script == old(ctx).script && final(ctx).any_skipped == old(ctx).any_skipped,
        // an answered Rename transfers to the new name; the old target stays
        (!ow && has_path(old(fs).model(), cand.deep_view()) && crate::conflict::spec_needs_prompt(
            old(ctx).conflict,
        ) && old(ctx).script.remaining().len() > 0 && old(ctx).script.remaining().first().option
            == RenameOption::Rename && old(ctx).script.remaining().first().filename is Some)
            ==> spec_leaf_transfer(
            old(fs).model(),
            final(fs).model(),
            p.deep_view(),
            dest.deep_view().push(old(ctx).script.remaining().first().filename->0@),
            old(ctx).all_success,
            final(ctx).all_success,
        ) && final(ctx).prompts == spec_bump(old(ctx).prompts) && final(ctx).conflict
            == crate::conflict::spec_after_response(
            old(ctx).conflict,
            old(ctx).script.remaining().first(),
        ) && final(ctx).script.remaining() == old(ctx).script.remaining().drop_first(),
        // an answered Overwrite transfers onto the existing target
        (!ow && has_path(old(fs).model(), cand.deep_view()) && crate::conflict::spec_needs_prompt(
            old(ctx).conflict,
        ) && old(ctx).script.remaining().len() > 0 && old(ctx).script.remaining().first().option
            == RenameOption::Overwrite) ==> spec_leaf_transfer(
            old(fs).model(),
            final(fs).model(),
            p.deep_view(),
            cand.deep_view(),
            old(ctx).all_success,
            final(ctx).all_success,
        ) && final(ctx).prompts == spec_bump(old(ctx).prompts) && final(ctx).any_skipped == old(ctx).any_skipped,
        // an answered Ignore copies nothing and moves no counter
        (!ow && has_path(old(fs).model(), cand.deep_view()) && crate::conflict::spec_needs_prompt(
            old(ctx).conflict,
        ) && old(ctx).script.remaining().len() > 0 && old(ctx).script.remaining().first().option
            == RenameOption::Ignore) ==> *final(fs) == *old(fs) && final(ctx).current == old(ctx).current && final(ctx).estimator == old(ctx).estimator && final(ctx).any_skipped && final(ctx).all_success == old(ctx).all_success && final(ctx).prompts == spec_bump(old(ctx).prompts)
            && !canceled,
        // an unreachable dialog skips the entry
        (!ow && has_path(old(fs).model(), cand.deep_view()) && crate::conflict::spec_needs_prompt(
            old(ctx).conflict,
        ) && old(ctx).script.remaining().len() == 0) ==> *final(fs) == *old(fs) && final(ctx).current == old(ctx).current && final(ctx).estimator == old(ctx).estimator && final(ctx).any_skipped && final(ctx).all_success == old(ctx).all_success && final(ctx).prompts
            == spec_bump(old(ctx).prompts) && !canceled,
        clean ==> {
            &&& !canceled
            &&& clean_dest_state(final(fs).model(), m0, srcv, dstv, pd, k + 1)
            &&& (forall|q: PathV| !is_path_prefix(dstv, q) ==> find(final(fs).model(), q) == find(m0, q))
            &&& final(ctx).prompts == old(ctx).prompts
            &&& final(ctx).conflict == old(ctx).conflict
            &&& final(ctx).script == old(ctx).script
            &&& final(ctx).any_skipped == old(ctx).any_skipped
            &&& final(ctx).all_success == (old(ctx).all_success && !spec_is_unreadable(
                m0,
                p.deep_view(),
            ))
        },
{
    let ghost pk = p.deep_view();
    let ghost relk = pk.skip(srcv.len() as int);
    let mut proceed = true;
    let mut target = cand;
    if !ow {
        if fs.exists_path(&target) {
            proof {
                if clean {
                    assert(false);
                }
            }
            match resolve_conflict_action(ctx) {
                ConflictAction::AIgnore => {
                    ctx.events.push(TransferEvent::Skipped { src: crate::fs::clone_path(p) });
                    ctx.any_skipped = true;
                    proceed = false;
                    proof {
                        let ghost ev_mid = ctx.events@;
                        assert(ev_mid =~= ev_mid.drop_last().push(ev_mid.last()));
                        lemma_events_push(ev_mid.drop_last(), ev_mid.last(), ev_mid,
                            ev0.len() as int, srcv, fv_pre);
                        assert(ev0.is_prefix_of(ctx.events@)) by {
                            assert(ctx.events@.subrange(0, ev0.len() as int) =~= ev0);
                        }
                    }
                },
                ConflictAction::AUnresolved => {
                    ctx.any_skipped = true;
                    proceed = false;
                },
                ConflictAction::AOverwrite => {},
                ConflictAction::ARename(nm) => {
                    target = path_join(dest, &nm);
                    proof {
                        assert(is_path_prefix(ddv, target.deep_view())) by {
                            assert(forall|c: int|
                                0 <= c < ddv.len() ==> target.deep_view()[c]
                                    == dest.deep_view()[c] && dest.deep_view()[c] == ddv[c]);
                        }
                    }
                },
            }
        }
    }
    if !proceed {
        return false;
    }
    let ghost targetv = target.deep_view();
    proof {
        if clean {
            assert(targetv == cand.deep_view());
        }
    }
    match copy_single_file_operation(fs, p, &target, ctx, 1) {
        Err(_) => {
            proof {
                if clean {
                    assert(false);
                }
            }
            true
        },
        Ok(true) => {
            if is_link {
                ctx.events.push(TransferEvent::LinkCopied {
                    src: crate::fs::clone_path(p),
                    dst: target,
                });
            } else {
                ctx.events.push(TransferEvent::FileCopied {
                    src: crate::fs::clone_path(p),
                    dst: target,
                });
            }
            proof {
                let ghost ev_mid = ctx.events@;
                assert(ev_mid.last().src_path() == pk);
                assert(ev_mid =~= ev_mid.drop_last().push(ev_mid.last()));
                        lemma_events_push(ev_mid.drop_last(), ev_mid.last(), ev_mid, ev0.len() as int,
                    srcv, fv_pre);
                assert(ev0.is_prefix_of(ctx.events@)) by {
                    assert(ctx.events@.subrange(0, ev0.len() as int) =~= ev0);
                }
                if clean {
                    assert(clean_dest_state(fs.model(), m0, srcv, dstv, pd, k + 1)) by {
                        assert forall|rel: PathV|
                            #![trigger find(fs.model(), dstv + rel)]
                            find(fs.model(), dstv + rel) == (if appears_before(
                                pd,
                                k + 1,
                                srcv + rel,
                            ) {
                                spec_copy_result(find(m0, srcv + rel))
                            } else {
                                None::<FsNodeV>
                            }) by {
                            lemma_appears_step(pd, k, srcv + rel);
                            lemma_prefix_decompose(srcv, pk);
                            if dstv + rel == targetv {
                                lemma_add_cancel(dstv, rel, relk);
                                assert(srcv + rel == pk);
                            } else {
                                if srcv + rel == pk {
                                    lemma_add_cancel(srcv, rel, relk);
                                    assert(dstv + rel == targetv);
                                }
                            }
                        }
                    }
                    assert forall|q: PathV| !is_path_prefix(dstv, q) implies find(
                        fs.model(),
                        q,
                    ) == find(m0, q) by {
                        assert(q != targetv);
                    }
                }
            }
            false
        },
        Ok(false) => {
            ctx.events.push(TransferEvent::Failed { src: crate::fs::clone_path(p) });
            proof {
                let ghost ev_mid = ctx.events@;
                assert(ev_mid =~= ev_mid.drop_last().push(ev_mid.last()));
                        lemma_events_push(ev_mid.drop_last(), ev_mid.last(), ev_mid, ev0.len() as int,
                    srcv, fv_pre);
                assert(ev0.is_prefix_of(ctx.events@)) by {
                    assert(ctx.events@.subrange(0, ev0.len() as int) =~= ev0);
                }
                if clean {
                    assert(spec_is_unreadable(m0, pk));
                    assert(clean_dest_state(fs.model(), m0, srcv, dstv, pd, k + 1)) by {
                        assert forall|rel: PathV|
                            #![trigger find(fs.model(), dstv + rel)]
                            find(fs.model(), dstv + rel) == (if appears_before(
                                pd,
                                k + 1,
                                srcv + rel,
                            ) {
                                spec_copy_result(find(m0, srcv + rel))
                            } else {
                                None::<FsNodeV>
                            }) by {
                            lemma_appears_step(pd, k, srcv + rel);
                            lemma_prefix_decompose(srcv, pk);
                            if srcv + rel == pk {
                                lemma_add_cancel(srcv, rel, relk);
                            }
                        }
                    }
                }
            }
            false
        },
    }
}



/// Total size of several source trees.
pub open spec fn spec_total(m: Seq<(PathV, FsNodeV)>, ss: Seq<PathV>) -> int
    decreases ss.len(),
{
    if ss.len() == 0 {
        0
    } else {
        spec_total(m, ss.drop_last()) + crate::fs::subtree_size(m, ss.last())
    }
}

pub proof fn lemma_subtree_size_nonneg_pub(m: Seq<(PathV, FsNodeV)>, root: PathV)
    ensures
        crate::fs::subtree_size(m, root) >= 0,
    decreases m.len(),
{
    if m.len() > 0 {
        lemma_subtree_size_nonneg_pub(m.drop_last(), root);
    }
}

pub proof fn lemma_spec_total_nonneg_pub(m: Seq<(PathV, FsNodeV)>, ss: Seq<PathV>)
    ensures
        spec_total(m, ss) >= 0,
    decreases ss.len(),
{
    if ss.len() > 0 {
        lemma_spec_total_nonneg_pub(m, ss.drop_last());
        lemma_subtree_size_nonneg_pub(m, ss.last());
    }
}

/// Two paths neither of which is a prefix of the other lead into disjoint
/// subtrees.
pub proof fn lemma_disjoint_roots(a: PathV, b: PathV, rel: PathV)
    requires
        !is_path_prefix(a, b),
        !is_path_prefix(b, a),
    ensures
        !is_path_prefix(a, b + rel),
{
    if is_path_prefix(a, b + rel) {
        if a.len() <= b.len() {
            assert(forall|c: int| 0 <= c < a.len() ==> b[c] == (b + rel)[c]);
            assert(is_path_prefix(a, b));
        } else {
            assert(forall|c: int|
                0 <= c < b.len() ==> a[c] == (b + rel)[c] && (b + rel)[c] == b[c]);
            assert(is_path_prefix(b, a));
        }
    }
}

/// What one whole paste did.
pub struct PasteReport {
    /// Whether any transfer was attempted at all: false when there was
    /// nothing to paste, a source contained the destination, the total size
    /// came out zero, or the receiver was already gone.
    pub started: bool,
    /// Whether the user canceled mid-operation.
    pub canceled: bool,
    /// Whether every visited entry transferred.
    pub all_success: bool,
    /// Whether any entry was skipped by a conflict decision.
    pub any_skipped: bool,
    /// How many conflict prompts were shown.
    pub prompts: u64,
    /// Whether the cut's originals were removed.
    pub sources_deleted: bool,
    /// Whether the operation was large enough for a progress window.
    pub show_progress_window: bool,
    /// Everything that happened, entry by entry.
    pub events: Vec<TransferEvent>,
    /// The fate of every directory of the last walked tree.
    pub fates: Vec<(Vec<String>, DirFate)>,
    /// The progress channel, with the delivered messages.
    pub sink: ProgressSink,
}

/// Pastes the given sources into `to_path`: precomputes the total size,
/// decides whether a progress window is warranted, walks every source tree
/// through the conflict resolver and the transfer step, and — for a cut —
/// removes the originals afterwards, but only when everything transferred
/// and nothing was skipped. Pasting a source into itself or below itself is
/// rejected before any side effect, as is a zero total size.
#[verifier::rlimit(100)]
#[verifier::spinoff_prover]
pub fn paste_file(
    fs: &mut Fs,
    sources: &Vec<Vec<String>>,
    to_path: &Vec<String>,
    is_cut: bool,
    script: ResolverScript,
    sink: ProgressSink,
) -> (report: PasteReport)
    requires
        old(fs).wf(),
        script.wf(),
        forall|i: int| 0 <= i < sources.deep_view().len() ==> sources.deep_view()[i].len() >= 1,
    ensures
        final(fs).wf(),
        !report.started ==> *final(fs) == *old(fs),
        report.started == (sources.deep_view().len() > 0 && (forall|i: int|
            0 <= i < sources.deep_view().len() ==> !is_path_prefix(
                #[trigger] sources.deep_view()[i],
                to_path.deep_view(),
            )) && spec_total(old(fs).model(), sources.deep_view()) > 0 && sink.is_connected()),
        report.started ==> report.show_progress_window == (spec_total(
            old(fs).model(),
            sources.deep_view(),
        ) > PROGRESS_WINDOW_BYTE_THRESHOLD as int),
        sink.is_connected() ==> !report.canceled,
        report.sources_deleted == (is_cut && report.started && !report.canceled
            && report.all_success && !report.any_skipped),
        forall|q: PathV|
            (!is_path_prefix(to_path.deep_view(), q) && (forall|i: int|
                0 <= i < sources.deep_view().len() ==> !is_path_prefix(
                    #[trigger] sources.deep_view()[i],
                    q,
                ))) ==> find(final(fs).model(), q) == find(old(fs).model(), q),
        !report.sources_deleted ==> forall|q: PathV|
            !is_path_prefix(to_path.deep_view(), q) ==> find(final(fs).model(), q) == find(
                old(fs).model(),
                q,
            ),
        report.sources_deleted ==> forall|i: int, q: PathV|
            0 <= i < sources.deep_view().len() && is_path_prefix(sources.deep_view()[i], q)
                ==> #[trigger] find(final(fs).model(), q) is None || !is_path_prefix(
                #[trigger] sources.deep_view()[i],
                q,
            ),
        // a directory resolved to Ignore shelters its whole subtree
        sources.deep_view().len() == 1 ==> forall|d: PathV, kk: int|
            find(fates_view(report.fates@), d) == Some(DirFateV::Ignored) && 0 <= kk
                < report.events@.len() && report.events@[kk].is_transfer() ==> !(is_path_prefix(
                d,
                report.events@[kk].src_path(),
            ) && report.events@[kk].src_path() != d),
        // a clean single-source paste is exact
        (sources.deep_view().len() == 1 && spec_clean_paste(
            old(fs).model(),
            sources.deep_view()[0],
            to_path.deep_view(),
        ) && sink.is_connected() && spec_total(old(fs).model(), sources.deep_view()) > 0) ==> {
            let s0 = sources.deep_view()[0];
            let dst0 = spec_dest_root(s0, to_path.deep_view());
            let readable = forall|p: PathV|
                has_path(old(fs).model(), p) && is_path_prefix(s0, p) ==> !spec_is_unreadable(
                    old(fs).model(),
                    p,
                );
            &&& report.started
            &&& !report.canceled
            &&& report.prompts == 0
            &&& !report.any_skipped
            &&& report.all_success == readable
            &&& forall|rel: PathV|
                #![trigger find(final(fs).model(), dst0 + rel)]
                find(final(fs).model(), dst0 + rel) == spec_copy_result(
                    find(old(fs).model(), s0 + rel),
                )
            &&& report.sources_deleted == (is_cut && readable)
            &&& (report.sources_deleted ==> forall|q: PathV|
                is_path_prefix(s0, q) ==> find(final(fs).model(), q) is None)
            &&& (report.sources_deleted ==> forall|q: PathV|
                !is_path_prefix(dst0, q) && !is_path_prefix(s0, q) ==> find(
                    final(fs).model(),
                    q,
                ) == find(old(fs).model(), q))
            &&& (!report.sources_deleted ==> forall|q: PathV|
                !is_path_prefix(dst0, q) ==> find(final(fs).model(), q) == find(
                    old(fs).model(),
                    q,
                ))
        },
{
    let ghost m0 = old(fs).model();
    let ghost ssv = sources.deep_view();
    let ghost tov = to_path.deep_view();
    let ghost conn0 = sink.is_connected();
    let mut sink = sink;
    if sources.len() == 0 {
        return abort_report(sink);
    }
    // never paste a tree into itself or below itself
    let mut gi: usize = 0;
    let mut guard_hit = false;
    while gi < sources.len()
        invariant
            gi <= sources.len(),
            ssv == sources.deep_view(),
            tov == to_path.deep_view(),
            guard_hit ==> exists|i: int|
                0 <= i < ssv.len() && is_path_prefix(#[trigger] ssv[i], tov),
            !guard_hit ==> forall|i: int| 0 <= i < gi ==> !is_path_prefix(#[trigger] ssv[i], tov),
        decreases sources.len() - gi,
    {
        proof {
            assert(ssv[gi as int] == sources@[gi as int].deep_view());
        }
        if path_is_prefix(&sources[gi], to_path) {
            guard_hit = true;
        }
        gi = gi + 1;
    }
    if guard_hit {
        return abort_report(sink);
    }
    // precompute the total size by a size-only walk
    let mut total: u128 = 0;
    let mut ti: usize = 0;
    proof {
        assert(ssv.subrange(0, 0) =~= Seq::<PathV>::empty());
    }
    while ti < sources.len()
        invariant
            ti <= sources.len(),
            fs.wf(),
            ssv == sources.deep_view(),
            m0 == fs.model(),
            if spec_total(fs.model(), ssv.subrange(0, ti as int)) <= u128::MAX {
                total == spec_total(fs.model(), ssv.subrange(0, ti as int))
            } else {
                total == u128::MAX
            },
        decreases sources.len() - ti,
    {
        let t = fs.total_size(&sources[ti]);
        proof {
            assert(ssv.subrange(0, ti + 1).drop_last() =~= ssv.subrange(0, ti as int));
            assert(ssv.subrange(0, ti + 1).last() == ssv[ti as int]);
            assert(ssv[ti as int] == sources@[ti as int].deep_view());
            lemma_subtree_size_nonneg_pub(fs.model(), ssv[ti as int]);
            lemma_spec_total_nonneg_pub(fs.model(), ssv.subrange(0, ti as int));
        }
        if total <= u128::MAX - t {
            total = total + t;
        } else {
            total = u128::MAX;
        }
        ti = ti + 1;
    }
    proof {
        assert(ssv.subrange(0, sources@.len() as int) =~= ssv);
        lemma_spec_total_nonneg_pub(fs.model(), ssv);
    }
    if total == 0 {
        // a zero total would leave the progress fraction undefined; the
        // operation aborts before any side effect
        return abort_report(sink);
    }
    // first, forced message; its failure means the receiver is already gone
    let calc = format_size_progress_status(0, -1);
    let first = TransferProgress {
        current: 0,
        total: -1,
        status: calc,
        eta_seconds: -1,
        force: true,
    };
    let first_send_failed = sink.send(first).is_err();
    if first_send_failed {
        return abort_report(sink);
    }
    let show_progress_window = total > PROGRESS_WINDOW_BYTE_THRESHOLD as u128;
    let st0 = format_size_progress_status(0, clamp_i64(total));
    let second = TransferProgress {
        current: 0,
        total: clamp_i64(total),
        status: st0,
        eta_seconds: -1,
        force: true,
    };
    let mut ctx = PasteCtx::new(total, script, sink);
    let second_send_failed = ctx.sink.send(second).is_err();
    proof {
        assert(!second_send_failed);
    }
    // walk every source tree
    let mut fates_all: Vec<(Vec<String>, DirFate)> = Vec::new();
    let mut wi: usize = 0;
    let ghost clean1 = ssv.len() == 1 && spec_clean_paste(m0, ssv[0], tov) && conn0;
    while wi < sources.len()
        invariant
            wi <= sources.len(),
            fs.wf(),
            ctx.wf(),
            ssv == sources.deep_view(),
            tov == to_path.deep_view(),
            m0 == old(fs).model(),
            forall|i: int| 0 <= i < ssv.len() ==> ssv[i].len() >= 1,
            conn0,
            ctx.sink.is_connected(),
            forall|q: PathV| !is_path_prefix(tov, q) ==> find(fs.model(), q) == find(m0, q),
            clean1 == (ssv.len() == 1 && spec_clean_paste(m0, ssv[0], tov) && conn0),
            clean1 && wi == 0 ==> fs.model() == m0 && ctx.all_success && !ctx.any_skipped
                && ctx.prompts == 0,
            clean1 && wi >= 1 ==> {
                let s0 = ssv[0];
                let dst0 = spec_dest_root(s0, tov);
                &&& forall|rel: PathV|
                    #![trigger find(fs.model(), dst0 + rel)]
                    find(fs.model(), dst0 + rel) == spec_copy_result(find(m0, s0 + rel))
                &&& forall|q: PathV|
                    !is_path_prefix(dst0, q) ==> find(fs.model(), q) == find(m0, q)
                &&& ctx.prompts == 0
                &&& !ctx.any_skipped
                &&& ctx.all_success == (forall|p: PathV|
                    has_path(m0, p) && is_path_prefix(s0, p) ==> !spec_is_unreadable(m0, p))
            },
            ssv.len() == 1 && wi == 0 ==> ctx.events@.len() == 0 && fates_all@.len() == 0,
            ssv.len() == 1 ==> forall|d: PathV, kk: int|
                find(fates_view(fates_all@), d) == Some(DirFateV::Ignored) && 0 <= kk
                    < ctx.events@.len() && ctx.events@[kk].is_transfer() ==> !(is_path_prefix(
                    d,
                    ctx.events@[kk].src_path(),
                ) && ctx.events@[kk].src_path() != d),
        decreases sources.len() - wi,
    {
        proof {
            assert(sources@[wi as int].deep_view() == ssv[wi as int]);
        }
        let ghost ev_before = ctx.events@;
        let outcome = paste_tree(fs, &sources[wi], to_path, &mut ctx);
        if outcome.canceled {
            let all_success = ctx.all_success;
            let any_skipped = ctx.any_skipped;
            let prompts = ctx.prompts;
            let events = ctx.events;
            let sink_out = ctx.sink;
            return PasteReport {
                started: true,
                canceled: true,
                all_success,
                any_skipped,
                prompts,
                sources_deleted: false,
                show_progress_window,
                events,
                fates: outcome.fates,
                sink: sink_out,
            };
        }
        fates_all = outcome.fates;
        proof {
            if ssv.len() == 1 {
                assert(ev_before.len() == 0);
            }
        }
        wi = wi + 1;
    }
    // delete the originals of a cut, but only on full success with nothing
    // skipped: a partial failure preserves every original
    let ghost m_walked = fs.model();
    let mut sources_deleted = false;
    if is_cut && ctx.all_success && !ctx.any_skipped {
        let mut di: usize = 0;
        while di < sources.len()
            invariant
                di <= sources.len(),
                fs.wf(),
                ssv == sources.deep_view(),
                forall|i: int, q: PathV|
                    0 <= i < di && is_path_prefix(#[trigger] ssv[i], q) ==> #[trigger] find(
                        fs.model(),
                        q,
                    ) is None,
                forall|q: PathV|
                    (forall|i: int| 0 <= i < di ==> !is_path_prefix(#[trigger] ssv[i], q))
                        ==> find(fs.model(), q) == find(m_walked, q),
            decreases sources.len() - di,
        {
            proof {
                assert(sources@[di as int].deep_view() == ssv[di as int]);
            }
            let ghost m_before = fs.model();
            fs.remove_tree(&sources[di]);
            proof {
                assert forall|i: int, q: PathV|
                    0 <= i < di + 1 && is_path_prefix(#[trigger] ssv[i], q) implies #[trigger] find(
                    fs.model(),
                    q,
                ) is None by {
                    if i < di {
                        if !is_path_prefix(ssv[di as int], q) {
                            assert(find(fs.model(), q) == find(m_before, q));
                        }
                    }
                }
            }
            di = di + 1;
        }
        sources_deleted = true;
    }
    proof {
        if clean1 {
            let s0 = ssv[0];
            let dst0 = spec_dest_root(s0, tov);
            if sources_deleted {
                assert forall|rel: PathV|
                    #![trigger find(fs.model(), dst0 + rel)]
                    find(fs.model(), dst0 + rel) == spec_copy_result(find(m0, s0 + rel)) by {
                    lemma_disjoint_roots(s0, dst0, rel);
                    assert(!is_path_prefix(s0, dst0 + rel));
                    assert(find(fs.model(), dst0 + rel) == find(m_walked, dst0 + rel));
                }
                assert forall|q: PathV|
                    !is_path_prefix(dst0, q) && !is_path_prefix(s0, q) implies find(
                    fs.model(),
                    q,
                ) == find(m0, q) by {
                    assert(find(fs.model(), q) == find(m_walked, q));
                }
            }
        }
    }
    let all_success = ctx.all_success;
    let any_skipped = ctx.any_skipped;
    let prompts = ctx.prompts;
    let events = ctx.events;
    let sink_out = ctx.sink;
    PasteReport {
        started: true,
        canceled: false,
        all_success,
        any_skipped,
        prompts,
        sources_deleted,
        show_progress_window,
        events,
        fates: fates_all,
        sink: sink_out,
    }
}

/// The report of an operation that never started.
fn abort_report(sink: ProgressSink) -> (r: PasteReport)
    ensures
        r.started == false,
        r.canceled == false,
        r.sources_deleted == false,
        r.sink == sink,
        r.events@ == Seq::<TransferEvent>::empty(),
        fates_view(r.fates@) == Seq::<(PathV, DirFateV)>::empty(),
{
    let r = PasteReport {
        started: false,
        canceled: false,
        all_success: false,
        any_skipped: false,
        prompts: 0,
        sources_deleted: false,
        show_progress_window: false,
        events: Vec::new(),
        fates: Vec::new(),
        sink,
    };
    proof {
        assert(r.events@ =~= Seq::<TransferEvent>::empty());
        assert(fates_view(r.fates@) =~= Seq::<(PathV, DirFateV)>::empty());
    }
    r
}

} // verus!
