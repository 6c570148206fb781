//! The engine's headline guarantees, stated once over the paste contract:
//! copying never disturbs the source and is repeatable, and a cut moves its
//! source exactly — or preserves it whole when anything went wrong.

use crate::fs::{find, has_path, is_path_prefix, same_subtree, FsNodeV, PathV};
use crate::paste::{
    lemma_disjoint_roots, spec_clean_paste, spec_copy_result, spec_dest_root, spec_is_unreadable,
};
use vstd::prelude::*;

verus! {

/// Idempotence of copy-without-cut: pasting the same clipboard copy into
/// two different empty destinations produces identical trees both times,
/// and the source subtree is never deleted or changed. The hypotheses are
/// exactly what two clean runs of the paste engine ensure, one from the
/// original filesystem `m0` to `m1` and one from `m1` to `m2`.
pub proof fn lemma_copy_paste_idempotent(
    m0: Seq<(PathV, FsNodeV)>,
    m1: Seq<(PathV, FsNodeV)>,
    m2: Seq<(PathV, FsNodeV)>,
    s: PathV,
    d1: PathV,
    d2: PathV,
)
    requires
        spec_clean_paste(m0, s, d1),
        spec_clean_paste(m1, s, d2),
        forall|rel: PathV|
            #![trigger find(m1, spec_dest_root(s, d1) + rel)]
            find(m1, spec_dest_root(s, d1) + rel) == spec_copy_result(find(m0, s + rel)),
        forall|q: PathV|
            !is_path_prefix(spec_dest_root(s, d1), q) ==> find(m1, q) == find(m0, q),
        forall|rel: PathV|
            #![trigger find(m2, spec_dest_root(s, d2) + rel)]
            find(m2, spec_dest_root(s, d2) + rel) == spec_copy_result(find(m1, s + rel)),
        forall|q: PathV|
            !is_path_prefix(spec_dest_root(s, d2), q) ==> find(m2, q) == find(m1, q),
        !is_path_prefix(spec_dest_root(s, d1), spec_dest_root(s, d2)),
        !is_path_prefix(spec_dest_root(s, d2), spec_dest_root(s, d1)),
    ensures
        same_subtree(m2, spec_dest_root(s, d1), m2, spec_dest_root(s, d2)),
        forall|rel: PathV| #![trigger find(m2, s + rel)] find(m2, s + rel) == find(m0, s + rel),
{
    let dst1 = spec_dest_root(s, d1);
    let dst2 = spec_dest_root(s, d2);
    // the source is untouched by both pastes
    assert forall|rel: PathV| #![trigger find(m2, s + rel)] find(m2, s + rel) == find(
        m0,
        s + rel,
    ) by {
        lemma_disjoint_roots(dst1, s, rel);
        lemma_disjoint_roots(dst2, s, rel);
        assert(find(m1, s + rel) == find(m0, s + rel));
    }
    // both destination trees are the copy of the same source
    assert forall|rel: PathV|
        #![trigger find(m2, dst1 + rel)]
        find(m2, dst1 + rel) == find(m2, dst2 + rel) by {
        lemma_disjoint_roots(dst2, dst1, rel);
        assert(find(m2, dst1 + rel) == find(m1, dst1 + rel));
        assert(find(m1, dst1 + rel) == spec_copy_result(find(m0, s + rel)));
        lemma_disjoint_roots(dst1, s, rel);
        lemma_disjoint_roots(dst2, s, rel);
        assert(find(m1, s + rel) == find(m0, s + rel));
        assert(find(m2, dst2 + rel) == spec_copy_result(find(m1, s + rel)));
    }
}

/// Cut-then-paste moves the source exactly: after a fully successful cut
/// of a tree of readable files into an empty destination, the destination
/// holds a structural and contentwise copy of the old source, and the
/// source no longer exists. The hypotheses are what the paste engine
/// ensures for a clean cut whose originals were deleted.
pub proof fn lemma_cut_paste_moves_source(
    m0: Seq<(PathV, FsNodeV)>,
    m1: Seq<(PathV, FsNodeV)>,
    s: PathV,
    d: PathV,
)
    requires
        spec_clean_paste(m0, s, d),
        forall|p: PathV|
            has_path(m0, p) && is_path_prefix(s, p) ==> !spec_is_unreadable(m0, p),
        forall|rel: PathV|
            #![trigger find(m1, spec_dest_root(s, d) + rel)]
            find(m1, spec_dest_root(s, d) + rel) == spec_copy_result(find(m0, s + rel)),
        forall|q: PathV| is_path_prefix(s, q) ==> find(m1, q) is None,
    ensures
        same_subtree(m1, spec_dest_root(s, d), m0, s),
        forall|q: PathV| is_path_prefix(s, q) ==> find(m1, q) is None,
{
    let dst = spec_dest_root(s, d);
    assert forall|rel: PathV| #![trigger find(m1, dst + rel)] find(m1, dst + rel) == find(
        m0,
        s + rel,
    ) by {
        assert(find(m1, dst + rel) == spec_copy_result(find(m0, s + rel)));
        match find(m0, s + rel) {
            Some(FsNodeV::File { data, readable }) => {
                crate::paste::lemma_prefix_extend(s, rel);
                assert(has_path(m0, s + rel));
                assert(!spec_is_unreadable(m0, s + rel));
                assert(readable);
            },
            _ => {},
        }
    }
}

/// The other half of cut-then-paste: when anything within the source could
/// not be read, the originals are preserved whole — the source subtree is
/// exactly what it was. The hypothesis is what the paste engine ensures
/// whenever it did not delete the originals.
pub proof fn lemma_failed_cut_preserves_source(
    m0: Seq<(PathV, FsNodeV)>,
    m1: Seq<(PathV, FsNodeV)>,
    s: PathV,
    d: PathV,
)
    requires
        spec_clean_paste(m0, s, d),
        forall|q: PathV|
            !is_path_prefix(spec_dest_root(s, d), q) ==> find(m1, q) == find(m0, q),
    ensures
        forall|rel: PathV| #![trigger find(m1, s + rel)] find(m1, s + rel) == find(m0, s + rel),
{
    let dst = spec_dest_root(s, d);
    assert forall|rel: PathV| #![trigger find(m1, s + rel)] find(m1, s + rel) == find(
        m0,
        s + rel,
    ) by {
        lemma_disjoint_roots(dst, s, rel);
    }
}

} // verus!
