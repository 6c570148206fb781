//! The delete engine: walks each selected entry contents-first — children
//! before their parent, so directories are empty when removed — reporting
//! progress after each removal, and never aborts on a single failed entry.

use crate::fs::{find, has_path, is_path_prefix, subtree_count, FsNode, FsNodeV, Fs, PathV};
use crate::paste::{collect_subtree, spec_total, PROGRESS_WINDOW_BYTE_THRESHOLD};
use crate::progress::{
    format_size_and_filecount_progress_status, ProgressSink, TransferProgress,
};
use vstd::prelude::*;

verus! {

/// How many entries sit under all the selected roots together.
pub open spec fn spec_total_count(m: Seq<(PathV, FsNodeV)>, ss: Seq<PathV>) -> int
    decreases ss.len(),
{
    if ss.len() == 0 {
        0
    } else {
        spec_total_count(m, ss.drop_last()) + subtree_count(m, ss.last())
    }
}

proof fn lemma_subtree_count_nonneg(m: Seq<(PathV, FsNodeV)>, root: PathV)
    ensures
        subtree_count(m, root) >= 0,
    decreases m.len(),
{
    if m.len() > 0 {
        lemma_subtree_count_nonneg(m.drop_last(), root);
    }
}

proof fn lemma_spec_total_count_nonneg(m: Seq<(PathV, FsNodeV)>, ss: Seq<PathV>)
    ensures
        spec_total_count(m, ss) >= 0,
    decreases ss.len(),
{
    if ss.len() > 0 {
        lemma_spec_total_count_nonneg(m, ss.drop_last());
        lemma_subtree_count_nonneg(m, ss.last());
    }
}

/// What one delete operation did.
pub struct DeleteReport {
    /// Whether anything was attempted: false when the selection was empty,
    /// its totals came out empty, or the receiver was already gone.
    pub started: bool,
    /// Whether the user canceled mid-operation.
    pub canceled: bool,
    /// How many regular files and links were removed.
    pub removed: u64,
    /// Whether the operation was large enough for a progress window.
    pub show_progress_window: bool,
    /// The progress channel, with the delivered messages.
    pub sink: ProgressSink,
}

/// Removes every selected entry and its contents. Children go before their
/// parent, so a directory is empty by the time it is removed. The operation
/// starts exactly when the selection is non-empty, its precomputed size and
/// entry totals are both non-zero, and the receiver is alive; a started
/// operation that is not canceled removes everything at or under every
/// selected path, touches nothing else, and delivers one progress message
/// per removed file after the initial forced one.
#[verifier::rlimit(60)]
#[verifier::spinoff_prover]
pub fn delete(fs: &mut Fs, selected: &Vec<Vec<String>>, sink: ProgressSink) -> (report:
    DeleteReport)
    requires
        old(fs).wf(),
        forall|i: int| 0 <= i < selected.deep_view().len() ==> selected.deep_view()[i].len() >= 1,
    ensures
        final(fs).wf(),
        !report.started ==> *final(fs) == *old(fs),
        report.started == (selected.deep_view().len() > 0 && spec_total(
            old(fs).model(),
            selected.deep_view(),
        ) > 0 && spec_total_count(old(fs).model(), selected.deep_view()) > 0
            && sink.is_connected()),
        report.started ==> report.show_progress_window == (spec_total(
            old(fs).model(),
            selected.deep_view(),
        ) > PROGRESS_WINDOW_BYTE_THRESHOLD as int),
        sink.is_connected() ==> !report.canceled,
        forall|q: PathV|
            (forall|i: int|
                0 <= i < selected.deep_view().len() ==> !is_path_prefix(
                    #[trigger] selected.deep_view()[i],
                    q,
                )) ==> find(final(fs).model(), q) == find(old(fs).model(), q),
        (report.started && !report.canceled) ==> forall|i: int, q: PathV|
            0 <= i < selected.deep_view().len() && is_path_prefix(selected.deep_view()[i], q)
                ==> #[trigger] find(final(fs).model(), q) is None || !is_path_prefix(
                #[trigger] selected.deep_view()[i],
                q,
            ),
        (report.started && !report.canceled) ==> report.sink.log().len() == sink.log().len() + 1
            + report.removed as int,
{
    let ghost m0 = old(fs).model();
    let ghost ssv = selected.deep_view();
    let mut sink = sink;
    if selected.len() == 0 {
        return DeleteReport {
            started: false,
            canceled: false,
            removed: 0,
            show_progress_window: false,
            sink,
        };
    }
    // total size and entry count, by a size-only walk
    let mut total_size: u128 = 0;
    let mut total_files: u128 = 0;
    let mut ti: usize = 0;
    proof {
        assert(ssv.subrange(0, 0) =~= Seq::<PathV>::empty());
    }
    while ti < selected.len()
        invariant
            ti <= selected.len(),
            fs.wf(),
            ssv == selected.deep_view(),
            m0 == fs.model(),
            forall|i: int| 0 <= i < ssv.len() ==> ssv[i].len() >= 1,
            if spec_total(fs.model(), ssv.subrange(0, ti as int)) <= u128::MAX {
                total_size == spec_total(fs.model(), ssv.subrange(0, ti as int))
            } else {
                total_size == u128::MAX
            },
            if spec_total_count(fs.model(), ssv.subrange(0, ti as int)) <= u128::MAX {
                total_files == spec_total_count(fs.model(), ssv.subrange(0, ti as int))
            } else {
                total_files == u128::MAX
            },
        decreases selected.len() - ti,
    {
        proof {
            assert(selected@[ti as int].deep_view() == ssv[ti as int]);
            assert(ssv.subrange(0, ti + 1).drop_last() =~= ssv.subrange(0, ti as int));
            assert(ssv.subrange(0, ti + 1).last() == ssv[ti as int]);
            crate::paste::lemma_subtree_size_nonneg_pub(fs.model(), ssv[ti as int]);
            crate::paste::lemma_spec_total_nonneg_pub(fs.model(), ssv.subrange(0, ti as int));
            lemma_subtree_count_nonneg(fs.model(), ssv[ti as int]);
            lemma_spec_total_count_nonneg(fs.model(), ssv.subrange(0, ti as int));
        }
        let t = fs.total_size(&selected[ti]);
        let c = fs.total_count(&selected[ti]);
        if total_size <= u128::MAX - t {
            total_size = total_size + t;
        } else {
            total_size = u128::MAX;
        }
        if total_files <= u128::MAX - c {
            total_files = total_files + c;
        } else {
            total_files = u128::MAX;
        }
        ti = ti + 1;
    }
    proof {
        assert(ssv.subrange(0, selected@.len() as int) =~= ssv);
        crate::paste::lemma_spec_total_nonneg_pub(fs.model(), ssv);
        lemma_spec_total_count_nonneg(fs.model(), ssv);
    }
    if total_size == 0 || total_files == 0 {
        // nothing measurable to delete: abort before any side effect
        return DeleteReport {
            started: false,
            canceled: false,
            removed: 0,
            show_progress_window: false,
            sink,
        };
    }
    let calc = crate::progress::format_size_progress_status(0, -1);
    let first = TransferProgress {
        current: 0,
        total: -1,
        status: calc,
        eta_seconds: -1,
        force: true,
    };
    if sink.send(first).is_err() {
        return DeleteReport {
            started: false,
            canceled: false,
            removed: 0,
            show_progress_window: false,
            sink,
        };
    }
    let ghost log1 = sink.log();
    let show_progress_window = total_size > PROGRESS_WINDOW_BYTE_THRESHOLD as u128;
    let total_size_i = crate::paste::clamp_i64(total_size);
    let total_files_i = clamp_files(total_files);
    let mut current_size: u128 = 0;
    let mut current_files: u64 = 0;
    let mut si: usize = 0;
    while si < selected.len()
        invariant
            si <= selected.len(),
            fs.wf(),
            ssv == selected.deep_view(),
            m0 == old(fs).model(),
            forall|i: int| 0 <= i < ssv.len() ==> ssv[i].len() >= 1,
            sink.is_connected(),
            total_size_i >= 0,
            total_files_i >= 0,
            sink.log().len() == log1.len() + current_files as int,
            forall|q: PathV|
                (forall|i: int| 0 <= i < si ==> !is_path_prefix(#[trigger] ssv[i], q)) ==> find(
                    fs.model(),
                    q,
                ) == find(m0, q),
            forall|q: PathV|
                find(fs.model(), q) is Some ==> find(fs.model(), q) == find(m0, q),
            forall|i: int, q: PathV|
                0 <= i < si && is_path_prefix(#[trigger] ssv[i], q) ==> #[trigger] find(
                    fs.model(),
                    q,
                ) is None,
        decreases selected.len() - si,
    {
        proof {
            assert(selected@[si as int].deep_view() == ssv[si as int]);
        }
        let ghost m_in = fs.model();
        let root = &selected[si];
        let ghost rootv = root.deep_view();
        proof {
            assert(root@.len() == rootv.len());
        }
        let paths = collect_subtree(fs, root);
        let ghost pd = paths.deep_view();
        let mut k: usize = paths.len();
        while k > 0
            invariant
                k <= paths.len(),
                fs.wf(),
                rootv == root.deep_view(),
                pd == paths.deep_view(),
                sink.is_connected(),
                total_files_i >= 0,
                total_size_i >= 0,
                sink.log().len() == log1.len() + current_files as int,
                forall|j: int|
                    0 <= j < pd.len() ==> has_path(m_in, #[trigger] pd[j]) && is_path_prefix(
                        rootv,
                        pd[j],
                    ),
                forall|p: PathV|
                    has_path(m_in, p) && is_path_prefix(rootv, p) ==> exists|j: int|
                        0 <= j < pd.len() && pd[j] == p,
                forall|j1: int, j2: int|
                    0 <= j1 < pd.len() && 0 <= j2 < pd.len() && j1 != j2 ==> pd[j1] != pd[j2],
                forall|j1: int, j2: int| 0 <= j1 < j2 < pd.len() ==> pd[j1].len() <= pd[j2].len(),
                forall|q: PathV| !is_path_prefix(rootv, q) ==> find(fs.model(), q) == find(m_in, q),
                forall|q: PathV|
                    find(fs.model(), q) is Some ==> find(fs.model(), q) == find(m_in, q),
                forall|j: int| k <= j < pd.len() ==> find(fs.model(), #[trigger] pd[j]) is None,
            decreases k,
        {
            k = k - 1;
            let p = &paths[k];
            let ghost pk = pd[k as int];
            proof {
                assert(pk == paths@[k as int].deep_view());
            }
            let node = fs.lookup(p);
            match node {
                Some(FsNode::Dir) => {
                    // children sit deeper in the snapshot and are already
                    // gone, so the directory is empty
                    proof {
                        assert forall|q: PathV|
                            !(has_path(fs.model(), q) && is_path_prefix(pk, q) && q != pk) by {
                            if has_path(fs.model(), q) && is_path_prefix(pk, q) && q != pk {
                                assert(find(fs.model(), q) is Some) by {
                                    let ii = choose|ii: int|
                                        0 <= ii < fs.model().len() && fs.model()[ii].0 == q;
                                    crate::fs::lemma_find_at_index(fs.model(), ii);
                                }
                                assert(find(m_in, q) == find(fs.model(), q));
                                assert(has_path(m_in, q));
                                assert(is_path_prefix(rootv, q)) by {
                                    assert(forall|c: int|
                                        0 <= c < rootv.len() ==> q[c] == pk[c] && pk[c]
                                            == rootv[c]);
                                }
                                let j = choose|j: int| 0 <= j < pd.len() && pd[j] == q;
                                assert(q.len() > pk.len()) by {
                                    if q.len() == pk.len() {
                                        crate::paste::lemma_prefix_same_len(pk, q);
                                    }
                                }
                                assert(j > k) by {
                                    if j < k {
                                        assert(pd[j].len() <= pd[k as int].len());
                                    } else if j == k {
                                        assert(pd[j] == pk);
                                    }
                                }
                                assert(find(fs.model(), pd[j]) is None);
                            }
                        }
                    }
                    let removed_ok = fs.remove_dir(p);
                    proof {
                        assert(removed_ok);
                    }
                },
                Some(n) => {
                    let bytes: usize = match &n {
                        FsNode::File { data, .. } => data.len(),
                        _ => 0,
                    };
                    let removed_ok = fs.remove_file(p);
                    proof {
                        assert(removed_ok);
                    }
                    if current_size <= u128::MAX - bytes as u128 {
                        current_size = current_size + bytes as u128;
                    } else {
                        current_size = u128::MAX;
                    }
                    // the file counter and the message log advance together
                    if current_files < u64::MAX {
                        current_files = current_files + 1;
                        let status = format_size_and_filecount_progress_status(
                            crate::paste::clamp_i64(current_size),
                            total_size_i,
                            clamp_files(current_files as u128),
                            total_files_i,
                        );
                        let msg = TransferProgress {
                            current: crate::paste::clamp_i64(current_size),
                            total: total_size_i,
                            status,
                            eta_seconds: -1,
                            force: false,
                        };
                        if sink.send(msg).is_err() {
                            return DeleteReport {
                                started: true,
                                canceled: true,
                                removed: current_files,
                                show_progress_window,
                                sink,
                            };
                        }
                    }
                },
                None => {
                    // already gone (overlapping selections)
                },
            }
        }
        proof {
            assert forall|q: PathV| is_path_prefix(rootv, q) implies find(fs.model(), q)
                is None by {
                if has_path(fs.model(), q) {
                    assert(find(fs.model(), q) is Some) by {
                        let ii = choose|ii: int|
                            0 <= ii < fs.model().len() && fs.model()[ii].0 == q;
                        crate::fs::lemma_find_at_index(fs.model(), ii);
                    }
                    assert(find(m_in, q) == find(fs.model(), q));
                    assert(has_path(m_in, q));
                    let j = choose|j: int| 0 <= j < pd.len() && pd[j] == q;
                    assert(find(fs.model(), pd[j]) is None);
                } else {
                    crate::fs::lemma_find_none(fs.model(), q);
                }
            }
            assert forall|i: int, q: PathV|
                0 <= i < si + 1 && is_path_prefix(#[trigger] ssv[i], q) implies #[trigger] find(
                fs.model(),
                q,
            ) is None by {
                if i < si {
                    if find(fs.model(), q) is Some {
                        assert(find(fs.model(), q) == find(m_in, q));
                        assert(find(m_in, q) is None);
                    }
                } else {
                    assert(is_path_prefix(rootv, q));
                }
            }
            assert forall|q: PathV|
                (forall|i: int| 0 <= i < si + 1 ==> !is_path_prefix(#[trigger] ssv[i], q)) implies
                find(fs.model(), q) == find(m0, q) by {
                assert(!is_path_prefix(rootv, q));
                assert(find(fs.model(), q) == find(m_in, q));
            }
        }
        si = si + 1;
    }
    DeleteReport {
        started: true,
        canceled: false,
        removed: current_files,
        show_progress_window,
        sink,
    }
}

fn clamp_files(x: u128) -> (r: i64)
    ensures
        r >= 0,
{
    if x > i64::MAX as u128 {
        i64::MAX
    } else {
        x as i64
    }
}

} // verus!
