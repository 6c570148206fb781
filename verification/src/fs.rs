//! The filesystem as the transfer engine sees it: a flat collection of
//! absolute paths (component lists) each carrying a directory, a regular
//! file with its bytes and a readability flag, or a symbolic link with its
//! target text.
//!
//! The engine's walk, conflict handling and cut semantics are verified
//! against this model; a thin unverified driver replays the engine's
//! decisions against the real filesystem.

use vstd::pervasive::VecAdditionalExecFns;
use vstd::prelude::*;

verus! {

/// A path at the specification level: the sequence of its components.
pub type PathV = Seq<Seq<char>>;

/// One node at the specification level.
pub enum FsNodeV {
    Dir,
    File { data: Seq<u8>, readable: bool },
    Symlink { target: Seq<char> },
}

/// One node of the modelled filesystem. A file that is not `readable`
/// stands for an entry the process may stat but not open (a permission
/// error at copy time).
pub enum FsNode {
    Dir,
    File { data: Vec<u8>, readable: bool },
    Symlink { target: String },
}

impl View for FsNode {
    type V = FsNodeV;

    open spec fn view(&self) -> FsNodeV {
        match self {
            FsNode::Dir => FsNodeV::Dir,
            FsNode::File { data, readable } => FsNodeV::File {
                data: data@,
                readable: *readable,
            },
            FsNode::Symlink { target } => FsNodeV::Symlink { target: target@ },
        }
    }
}

struct FsEntry {
    path: Vec<String>,
    node: FsNode,
}

/// The modelled filesystem.
pub struct Fs {
    entries: Vec<FsEntry>,
}

/// Whether `pre` is `p` itself or an ancestor of `p`.
pub open spec fn is_path_prefix(pre: PathV, p: PathV) -> bool {
    pre.len() <= p.len() && forall|k: int| 0 <= k < pre.len() ==> p[k] == pre[k]
}

/// Whether some path of the table equals `p`.
pub open spec fn has_path<V>(m: Seq<(PathV, V)>, p: PathV) -> bool {
    exists|i: int| 0 <= i < m.len() && m[i].0 == p
}

/// The value stored at `p`, if any.
pub open spec fn find<V>(m: Seq<(PathV, V)>, p: PathV) -> Option<V> {
    if has_path(m, p) {
        let i = choose|i: int| 0 <= i < m.len() && m[i].0 == p;
        Some(m[i].1)
    } else {
        None
    }
}

/// No two rows of the table name the same path.
pub open spec fn distinct_paths<V>(m: Seq<(PathV, V)>) -> bool {
    forall|i: int, j: int| 0 <= i < m.len() && 0 <= j < m.len() && i != j ==> m[i].0 != m[j].0
}

/// Two subtrees hold exactly the same structure and contents: every
/// relative path leads to equal nodes (or to none) under both roots.
pub open spec fn same_subtree(
    m1: Seq<(PathV, FsNodeV)>,
    root1: PathV,
    m2: Seq<(PathV, FsNodeV)>,
    root2: PathV,
) -> bool {
    forall|rel: PathV| #![trigger find(m1, root1 + rel)] find(m1, root1 + rel) == find(
        m2,
        root2 + rel,
    )
}

/// Total size in bytes of the regular files under `root` (directories and
/// symbolic links count as zero).
pub open spec fn subtree_size(m: Seq<(PathV, FsNodeV)>, root: PathV) -> int
    decreases m.len(),
{
    if m.len() == 0 {
        0
    } else {
        subtree_size(m.drop_last(), root) + (if is_path_prefix(root, m.last().0) {
            match m.last().1 {
                FsNodeV::File { data, .. } => data.len() as int,
                _ => 0,
            }
        } else {
            0
        })
    }
}

/// How many entries sit at or under `root`.
pub open spec fn subtree_count(m: Seq<(PathV, FsNodeV)>, root: PathV) -> int
    decreases m.len(),
{
    if m.len() == 0 {
        0
    } else {
        subtree_count(m.drop_last(), root) + (if is_path_prefix(root, m.last().0) {
            1int
        } else {
            0int
        })
    }
}

pub proof fn lemma_find_at_index<V>(m: Seq<(PathV, V)>, i: int)
    requires
        distinct_paths(m),
        0 <= i < m.len(),
    ensures
        find(m, m[i].0) == Some(m[i].1),
{
    assert(has_path(m, m[i].0));
    let j = choose|j: int| 0 <= j < m.len() && m[j].0 == m[i].0;
    assert(j == i);
}

pub proof fn lemma_find_none<V>(m: Seq<(PathV, V)>, p: PathV)
    requires
        forall|i: int| 0 <= i < m.len() ==> m[i].0 != p,
    ensures
        find(m, p) is None,
{
}

/// Appending a row for a fresh path leaves every other lookup unchanged.
pub proof fn lemma_find_push<V>(m: Seq<(PathV, V)>, p: PathV, n: V, q: PathV)
    requires
        distinct_paths(m),
        !has_path(m, p),
    ensures
        distinct_paths(m.push((p, n))),
        find(m.push((p, n)), p) == Some(n),
        q != p ==> find(m.push((p, n)), q) == find(m, q),
{
    let m2 = m.push((p, n));
    assert(m2[m.len() as int].0 == p);
    lemma_find_at_index(m2, m.len() as int);
    if q != p {
        if has_path(m, q) {
            let i = choose|i: int| 0 <= i < m.len() && m[i].0 == q;
            assert(m2[i].0 == q);
            lemma_find_at_index(m, i);
            lemma_find_at_index(m2, i);
        } else {
            assert(forall|i: int| 0 <= i < m2.len() ==> m2[i].0 != q);
            lemma_find_none(m2, q);
        }
    }
}

/// Replacing the node of an existing row leaves every other lookup
/// unchanged.
pub proof fn lemma_find_update<V>(m: Seq<(PathV, V)>, i: int, n: V, q: PathV)
    requires
        distinct_paths(m),
        0 <= i < m.len(),
    ensures
        distinct_paths(m.update(i, (m[i].0, n))),
        find(m.update(i, (m[i].0, n)), m[i].0) == Some(n),
        q != m[i].0 ==> find(m.update(i, (m[i].0, n)), q) == find(m, q),
{
    let m2 = m.update(i, (m[i].0, n));
    lemma_find_at_index(m2, i);
    if q != m[i].0 {
        if has_path(m, q) {
            let j = choose|j: int| 0 <= j < m.len() && m[j].0 == q;
            lemma_find_at_index(m, j);
            lemma_find_at_index(m2, j);
        } else {
            assert(forall|k: int| 0 <= k < m2.len() ==> m2[k].0 != q);
            lemma_find_none(m2, q);
        }
    }
}

/// Removing a row makes its path vanish and leaves every other lookup
/// unchanged.
pub proof fn lemma_find_remove<V>(m: Seq<(PathV, V)>, i: int, q: PathV)
    requires
        distinct_paths(m),
        0 <= i < m.len(),
    ensures
        distinct_paths(m.remove(i)),
        find(m.remove(i), m[i].0) is None,
        q != m[i].0 ==> find(m.remove(i), q) == find(m, q),
{
    let m2 = m.remove(i);
    assert(forall|k: int|
        0 <= k < m2.len() ==> m2[k] == (if k < i {
            m[k]
        } else {
            m[k + 1]
        }));
    assert(forall|k: int| 0 <= k < m2.len() ==> m2[k].0 != m[i].0);
    lemma_find_none(m2, m[i].0);
    if q != m[i].0 {
        if has_path(m, q) {
            let j = choose|j: int| 0 <= j < m.len() && m[j].0 == q;
            lemma_find_at_index(m, j);
            if j < i {
                assert(m2[j].0 == q);
                lemma_find_at_index(m2, j);
            } else {
                assert(m2[j - 1].0 == q);
                lemma_find_at_index(m2, j - 1);
            }
        } else {
            assert(forall|k: int| 0 <= k < m2.len() ==> m2[k].0 != q);
            lemma_find_none(m2, q);
        }
    }
}

/// Compares two paths component by component.
pub fn path_eq(a: &Vec<String>, b: &Vec<String>) -> (r: bool)
    ensures
        r == (a.deep_view() == b.deep_view()),
{
    if a.len() != b.len() {
        proof {
            assert(a.deep_view().len() != b.deep_view().len());
        }
        return false;
    }
    let mut i: usize = 0;
    while i < a.len()
        invariant
            i <= a.len(),
            a.len() == b.len(),
            forall|j: int| 0 <= j < i ==> a.deep_view()[j] == b.deep_view()[j],
        decreases a.len() - i,
    {
        if !(a[i] == b[i]) {
            proof {
                assert(a.deep_view()[i as int] != b.deep_view()[i as int]);
            }
            return false;
        }
        i = i + 1;
    }
    proof {
        assert(a.deep_view() =~= b.deep_view());
    }
    true
}

/// Whether `pre` is `p` itself or an ancestor of `p`.
pub fn path_is_prefix(pre: &Vec<String>, p: &Vec<String>) -> (r: bool)
    ensures
        r == is_path_prefix(pre.deep_view(), p.deep_view()),
{
    if pre.len() > p.len() {
        return false;
    }
    let mut i: usize = 0;
    while i < pre.len()
        invariant
            i <= pre.len(),
            pre.len() <= p.len(),
            forall|j: int| 0 <= j < i ==> p.deep_view()[j] == pre.deep_view()[j],
        decreases pre.len() - i,
    {
        if !(p[i] == pre[i]) {
            proof {
                assert(p.deep_view()[i as int] != pre.deep_view()[i as int]);
            }
            return false;
        }
        i = i + 1;
    }
    true
}

/// Copies a path.
pub fn clone_path(p: &Vec<String>) -> (r: Vec<String>)
    ensures
        r.deep_view() == p.deep_view(),
{
    let mut r: Vec<String> = Vec::new();
    proof {
        assert(r.deep_view() =~~= p.deep_view().subrange(0, 0));
    }
    let mut i: usize = 0;
    while i < p.len()
        invariant
            i <= p.len(),
            r.deep_view() == p.deep_view().subrange(0, i as int),
        decreases p.len() - i,
    {
        let ghost rold = r.deep_view();
        let c = p[i].clone();
        proof {
            assert(c@ == p@[i as int]@);
        }
        r.push(c);
        proof {
            assert(r.deep_view().len() == rold.len() + 1);
            assert(r.deep_view()[rold.len() as int] == c@);
            assert(r.deep_view() =~~= p.deep_view().subrange(0, i + 1));
        }
        i = i + 1;
    }
    proof {
        assert(p.deep_view().subrange(0, p.len() as int) =~~= p.deep_view());
    }
    r
}

/// The path one component shorter.
pub fn parent_of(p: &Vec<String>) -> (r: Vec<String>)
    requires
        p@.len() >= 1,
    ensures
        r.deep_view() == p.deep_view().subrange(0, p.deep_view().len() - 1),
{
    let mut r: Vec<String> = Vec::new();
    proof {
        assert(r.deep_view() =~~= p.deep_view().subrange(0, 0));
    }
    let mut i: usize = 0;
    while i < p.len() - 1
        invariant
            p@.len() >= 1,
            i <= p.len() - 1,
            r.deep_view() == p.deep_view().subrange(0, i as int),
        decreases p.len() - i,
    {
        let ghost rold = r.deep_view();
        let c = p[i].clone();
        proof {
            assert(c@ == p@[i as int]@);
        }
        r.push(c);
        proof {
            assert(r.deep_view().len() == rold.len() + 1);
            assert(r.deep_view()[rold.len() as int] == c@);
            assert(r.deep_view() =~~= p.deep_view().subrange(0, i + 1));
        }
        i = i + 1;
    }
    r
}

/// The path extended by one component.
pub fn path_join(p: &Vec<String>, name: &String) -> (r: Vec<String>)
    ensures
        r.deep_view() == p.deep_view().push(name@),
{
    let mut r = clone_path(p);
    r.push(name.clone());
    proof {
        assert(r.deep_view() =~~= p.deep_view().push(name@));
    }
    r
}

/// Copies a byte vector.
pub fn clone_bytes(v: &Vec<u8>) -> (r: Vec<u8>)
    ensures
        r@ == v@,
{
    let mut r: Vec<u8> = Vec::new();
    let mut i: usize = 0;
    while i < v.len()
        invariant
            i <= v.len(),
            r@ == v@.subrange(0, i as int),
        decreases v.len() - i,
    {
        r.push(v[i]);
        proof {
            assert(r@ =~= v@.subrange(0, i + 1));
        }
        i = i + 1;
    }
    proof {
        assert(v@.subrange(0, v.len() as int) =~= v@);
    }
    r
}

/// Whether a node is a directory.
pub fn node_is_dir(n: &FsNode) -> (r: bool)
    ensures
        r == (n@ is Dir),
{
    matches!(n, FsNode::Dir)
}

/// Whether a node is a regular file.
pub fn node_is_file(n: &FsNode) -> (r: bool)
    ensures
        r == (n@ is File),
{
    matches!(n, FsNode::File { .. })
}

impl FsNode {
    /// Copies a node.
    pub fn duplicate(&self) -> (r: FsNode)
        ensures
            r@ == self@,
    {
        match self {
            FsNode::Dir => FsNode::Dir,
            FsNode::File { data, readable } => FsNode::File {
                data: clone_bytes(data),
                readable: *readable,
            },
            FsNode::Symlink { target } => FsNode::Symlink { target: target.clone() },
        }
    }
}

impl Fs {
    /// The rows of the model: one (path, node) pair per filesystem entry.
    pub closed spec fn model(self) -> Seq<(PathV, FsNodeV)> {
        self.entries@.map(|i: int, e: FsEntry| (e.path.deep_view(), e.node@))
    }

    /// Paths are distinct and have at least one component.
    pub open spec fn wf(self) -> bool {
        &&& distinct_paths(self.model())
        &&& forall|i: int| 0 <= i < self.model().len() ==> self.model()[i].0.len() >= 1
    }

    /// An empty filesystem.
    pub fn new() -> (r: Fs)
        ensures
            r.wf(),
            r.model() == Seq::<(PathV, FsNodeV)>::empty(),
    {
        let r = Fs { entries: Vec::new() };
        proof {
            assert(r.model() =~= Seq::<(PathV, FsNodeV)>::empty());
        }
        r
    }

    /// The row index holding `p`, if any.
    fn index_of(&self, p: &Vec<String>) -> (r: Option<usize>)
        ensures
            match r {
                Some(i) => i < self.model().len() && self.model()[i as int].0 == p.deep_view(),
                None => !has_path(self.model(), p.deep_view()),
            },
    {
        let mut i: usize = 0;
        while i < self.entries.len()
            invariant
                i <= self.entries.len(),
                self.model().len() == self.entries@.len(),
                forall|j: int| 0 <= j < i ==> self.model()[j].0 != p.deep_view(),
            decreases self.entries.len() - i,
        {
            if path_eq(&self.entries[i].path, p) {
                return Some(i);
            }
            i = i + 1;
        }
        None
    }

    /// Whether `p` exists at all.
    pub fn exists_path(&self, p: &Vec<String>) -> (r: bool)
        ensures
            r == has_path(self.model(), p.deep_view()),
    {
        match self.index_of(p) {
            Some(_) => true,
            None => false,
        }
    }

    /// The node at `p`, copied out.
    pub fn lookup(&self, p: &Vec<String>) -> (r: Option<FsNode>)
        requires
            self.wf(),
        ensures
            match r {
                Some(n) => find(self.model(), p.deep_view()) == Some(n@),
                None => find(self.model(), p.deep_view()) is None,
            },
    {
        match self.index_of(p) {
            Some(i) => {
                proof {
                    lemma_find_at_index(self.model(), i as int);
                }
                Some(self.entries[i].node.duplicate())
            },
            None => {
                proof {
                    lemma_find_none(self.model(), p.deep_view());
                }
                None
            },
        }
    }

    /// Whether the directory `p` may receive a new child: it exists and is
    /// a directory — or `p` is a root, which always exists.
    pub open spec fn spec_parent_ok(self, p: PathV) -> bool {
        p.len() == 1 || find(self.model(), p.subrange(0, p.len() - 1)) == Some(FsNodeV::Dir)
    }

    fn parent_ok(&self, p: &Vec<String>) -> (r: bool)
        requires
            self.wf(),
            p@.len() >= 1,
        ensures
            r == self.spec_parent_ok(p.deep_view()),
    {
        if p.len() == 1 {
            return true;
        }
        let par = parent_of(p);
        match self.lookup(&par) {
            Some(FsNode::Dir) => true,
            _ => false,
        }
    }

    /// Creates the directory `p`. Succeeds exactly when nothing exists at
    /// `p` yet and the parent directory is present.
    pub fn create_dir(&mut self, p: &Vec<String>) -> (ok: bool)
        requires
            old(self).wf(),
            p@.len() >= 1,
        ensures
            final(self).wf(),
            ok == (!has_path(old(self).model(), p.deep_view()) && old(self).spec_parent_ok(
                p.deep_view(),
            )),
            ok ==> find(final(self).model(), p.deep_view()) == Some(FsNodeV::Dir),
            ok ==> forall|q: PathV|
                q != p.deep_view() ==> find(final(self).model(), q) == find(old(self).model(), q),
            !ok ==> *final(self) == *old(self),
    {
        self.insert_fresh(p, FsNode::Dir)
    }

    /// Creates the symbolic link `p`. Succeeds exactly when nothing exists
    /// at `p` yet and the parent directory is present (link creation never
    /// overwrites).
    pub fn create_symlink(&mut self, p: &Vec<String>, target: String) -> (ok: bool)
        requires
            old(self).wf(),
            p@.len() >= 1,
        ensures
            final(self).wf(),
            ok == (!has_path(old(self).model(), p.deep_view()) && old(self).spec_parent_ok(
                p.deep_view(),
            )),
            ok ==> find(final(self).model(), p.deep_view()) == Some(
                FsNodeV::Symlink { target: target@ },
            ),
            ok ==> forall|q: PathV|
                q != p.deep_view() ==> find(final(self).model(), q) == find(old(self).model(), q),
            !ok ==> *final(self) == *old(self),
    {
        self.insert_fresh(p, FsNode::Symlink { target })
    }

    fn insert_fresh(&mut self, p: &Vec<String>, node: FsNode) -> (ok: bool)
        requires
            old(self).wf(),
            p@.len() >= 1,
        ensures
            final(self).wf(),
            ok == (!has_path(old(self).model(), p.deep_view()) && old(self).spec_parent_ok(
                p.deep_view(),
            )),
            ok ==> find(final(self).model(), p.deep_view()) == Some(node@),
            ok ==> forall|q: PathV|
                q != p.deep_view() ==> find(final(self).model(), q) == find(old(self).model(), q),
            !ok ==> *final(self) == *old(self),
    {
        if self.exists_path(p) {
            return false;
        }
        if !self.parent_ok(p) {
            return false;
        }
        let ghost m = self.model();
        let ghost pv = p.deep_view();
        let ghost nv = node@;
        self.entries.push(FsEntry { path: clone_path(p), node });
        proof {
            assert(self.model() =~= m.push((pv, nv)));
            lemma_find_push(m, pv, nv, pv);
            assert forall|q: PathV| q != pv implies find(self.model(), q) == find(m, q) by {
                lemma_find_push(m, pv, nv, q);
            }
        }
        true
    }

    /// Writes the regular file `p` with the given bytes. Overwrites an
    /// existing regular file; succeeds exactly when the parent directory is
    /// present and `p` is absent or a regular file.
    pub fn write_file(&mut self, p: &Vec<String>, data: Vec<u8>, readable: bool) -> (ok: bool)
        requires
            old(self).wf(),
            p@.len() >= 1,
        ensures
            final(self).wf(),
            ok == (old(self).spec_parent_ok(p.deep_view()) && match find(
                old(self).model(),
                p.deep_view(),
            ) {
                Option::None => true,
                Option::Some(n) => n is File,
            }),
            ok ==> find(final(self).model(), p.deep_view()) == Some(
                FsNodeV::File { data: data@, readable },
            ),
            ok ==> forall|q: PathV|
                q != p.deep_view() ==> find(final(self).model(), q) == find(old(self).model(), q),
            !ok ==> *final(self) == *old(self),
    {
        let ghost m = self.model();
        let ghost pv = p.deep_view();
        let ghost nv = FsNodeV::File { data: data@, readable };
        if !self.parent_ok(p) {
            return false;
        }
        match self.index_of(p) {
            Some(i) => {
                proof {
                    lemma_find_at_index(m, i as int);
                }
                let existing_is_file = node_is_file(&self.entries[i].node);
                if !existing_is_file {
                    return false;
                }
                self.entries.set(
                    i,
                    FsEntry { path: clone_path(p), node: FsNode::File { data, readable } },
                );
                proof {
                    assert(self.model() =~= m.update(i as int, (pv, nv)));
                    lemma_find_update(m, i as int, nv, pv);
                    assert forall|q: PathV| q != pv implies find(self.model(), q) == find(
                        m,
                        q,
                    ) by {
                        lemma_find_update(m, i as int, nv, q);
                    }
                }
                true
            },
            None => {
                proof {
                    lemma_find_none(m, pv);
                }
                self.entries.push(
                    FsEntry { path: clone_path(p), node: FsNode::File { data, readable } },
                );
                proof {
                    assert(self.model() =~= m.push((pv, nv)));
                    lemma_find_push(m, pv, nv, pv);
                    assert forall|q: PathV| q != pv implies find(self.model(), q) == find(
                        m,
                        q,
                    ) by {
                        lemma_find_push(m, pv, nv, q);
                    }
                }
                true
            },
        }
    }

    /// Removes the regular file or symbolic link at `p`. Succeeds exactly
    /// when `p` is such an entry (never removes directories).
    pub fn remove_file(&mut self, p: &Vec<String>) -> (ok: bool)
        requires
            old(self).wf(),
        ensures
            final(self).wf(),
            ok == (match find(old(self).model(), p.deep_view()) {
                Option::None => false,
                Option::Some(n) => !(n is Dir),
            }),
            ok ==> find(final(self).model(), p.deep_view()) is None,
            ok ==> forall|q: PathV|
                q != p.deep_view() ==> find(final(self).model(), q) == find(old(self).model(), q),
            !ok ==> *final(self) == *old(self),
    {
        let ghost m = self.model();
        let ghost pv = p.deep_view();
        match self.index_of(p) {
            Some(i) => {
                proof {
                    lemma_find_at_index(m, i as int);
                }
                let existing_is_dir = node_is_dir(&self.entries[i].node);
                if existing_is_dir {
                    return false;
                }
                self.entries.remove(i);
                proof {
                    assert(self.model() =~= m.remove(i as int));
                    lemma_find_remove(m, i as int, pv);
                    assert forall|q: PathV| q != pv implies find(self.model(), q) == find(
                        m,
                        q,
                    ) by {
                        lemma_find_remove(m, i as int, q);
                    }
                }
                true
            },
            None => {
                proof {
                    lemma_find_none(m, pv);
                }
                false
            },
        }
    }

    /// Whether the directory at `p` has any descendant.
    pub fn has_children(&self, p: &Vec<String>) -> (r: bool)
        ensures
            r == exists|q: PathV|
                #![trigger has_path(self.model(), q)]
                has_path(self.model(), q) && is_path_prefix(p.deep_view(), q) && q
                    != p.deep_view(),
    {
        let mut i: usize = 0;
        while i < self.entries.len()
            invariant
                i <= self.entries.len(),
                self.model().len() == self.entries@.len(),
                forall|j: int|
                    0 <= j < i ==> !(is_path_prefix(p.deep_view(), self.model()[j].0)
                        && self.model()[j].0 != p.deep_view()),
            decreases self.entries.len() - i,
        {
            if path_is_prefix(p, &self.entries[i].path) && !path_eq(&self.entries[i].path, p) {
                proof {
                    assert(has_path(self.model(), self.model()[i as int].0));
                }
                return true;
            }
            i = i + 1;
        }
        proof {
            assert forall|q: PathV|
                has_path(self.model(), q) && is_path_prefix(p.deep_view(), q) implies q
                == p.deep_view() by {
                let j = choose|j: int| 0 <= j < self.model().len() && self.model()[j].0 == q;
            }
        }
        false
    }

    /// Removes the directory at `p`. Succeeds exactly when `p` is an empty
    /// directory.
    pub fn remove_dir(&mut self, p: &Vec<String>) -> (ok: bool)
        requires
            old(self).wf(),
        ensures
            final(self).wf(),
            ok == (find(old(self).model(), p.deep_view()) == Some(FsNodeV::Dir) && !exists|
                q: PathV,
            |
                #![trigger has_path(old(self).model(), q)]
                has_path(old(self).model(), q) && is_path_prefix(p.deep_view(), q) && q
                    != p.deep_view()),
            ok ==> find(final(self).model(), p.deep_view()) is None,
            ok ==> forall|q: PathV|
                q != p.deep_view() ==> find(final(self).model(), q) == find(old(self).model(), q),
            !ok ==> *final(self) == *old(self),
    {
        let ghost m = self.model();
        let ghost pv = p.deep_view();
        match self.index_of(p) {
            Some(i) => {
                proof {
                    lemma_find_at_index(m, i as int);
                }
                let existing_is_dir = node_is_dir(&self.entries[i].node);
                if !existing_is_dir {
                    return false;
                }
                if self.has_children(p) {
                    return false;
                }
                self.entries.remove(i);
                proof {
                    assert(self.model() =~= m.remove(i as int));
                    lemma_find_remove(m, i as int, pv);
                    assert forall|q: PathV| q != pv implies find(self.model(), q) == find(
                        m,
                        q,
                    ) by {
                        lemma_find_remove(m, i as int, q);
                    }
                }
                true
            },
            None => {
                proof {
                    lemma_find_none(m, pv);
                }
                false
            },
        }
    }

    /// Removes everything at or under `p` in one sweep.
    pub fn remove_tree(&mut self, p: &Vec<String>)
        requires
            old(self).wf(),
        ensures
            final(self).wf(),
            forall|q: PathV|
                is_path_prefix(p.deep_view(), q) ==> find(final(self).model(), q) is None,
            forall|q: PathV|
                !is_path_prefix(p.deep_view(), q) ==> find(final(self).model(), q) == find(
                    old(self).model(),
                    q,
                ),
    {
        let ghost m0 = self.model();
        let ghost pv = p.deep_view();
        let mut i: usize = 0;
        while i < self.entries.len()
            invariant
                self.wf(),
                i <= self.entries.len(),
                pv == p.deep_view(),
                self.model().len() == self.entries@.len(),
                forall|j: int| 0 <= j < i ==> !is_path_prefix(pv, self.model()[j].0),
                forall|q: PathV| !is_path_prefix(pv, q) ==> find(self.model(), q) == find(m0, q),
            decreases self.entries.len() - i,
        {
            if path_is_prefix(p, &self.entries[i].path) {
                let ghost m = self.model();
                proof {
                    assert(m[i as int].0 == self.entries@[i as int].path.deep_view());
                    assert(is_path_prefix(pv, m[i as int].0));
                }
                self.entries.remove(i);
                proof {
                    assert(self.model() =~= m.remove(i as int));
                    assert(forall|k: int|
                        0 <= k < self.model().len() ==> self.model()[k] == (if k < i {
                            m[k]
                        } else {
                            m[k + 1]
                        }));
                    lemma_find_remove(m, i as int, m[i as int].0);
                    assert forall|j: int| 0 <= j < i implies !is_path_prefix(
                        pv,
                        self.model()[j].0,
                    ) by {
                        assert(self.model()[j] == m[j]);
                    }
                    assert forall|q: PathV| !is_path_prefix(pv, q) implies find(self.model(), q)
                        == find(m0, q) by {
                        assert(is_path_prefix(pv, m[i as int].0));
                        assert(q != m[i as int].0);
                        lemma_find_remove(m, i as int, q);
                        assert(find(m, q) == find(m0, q));
                    }
                }
            } else {
                proof {
                    assert(self.model()[i as int].0 == self.entries@[i as int].path.deep_view());
                    assert(!is_path_prefix(pv, self.model()[i as int].0));
                }
                i = i + 1;
            }
        }
        proof {
            assert forall|q: PathV| is_path_prefix(pv, q) implies find(self.model(), q)
                is None by {
                assert(forall|k: int| 0 <= k < self.model().len() ==> self.model()[k].0 != q);
                lemma_find_none(self.model(), q);
            }
        }
    }

    /// Whether `filename` exists as a direct child of the directory `dir`.
    /// Fails when `dir` itself cannot be read (it is absent or not a
    /// directory).
    pub fn file_exists_in_dir(&self, dir: &Vec<String>, filename: &String) -> (r: Result<
        bool,
        (),
    >)
        requires
            self.wf(),
        ensures
            match r {
                Result::Ok(b) => find(self.model(), dir.deep_view()) == Some(FsNodeV::Dir) && b
                    == has_path(self.model(), dir.deep_view().push(filename@)),
                Result::Err(_) => find(self.model(), dir.deep_view()) != Some(FsNodeV::Dir),
            },
    {
        match self.lookup(dir) {
            Some(FsNode::Dir) => {
                let child = path_join(dir, filename);
                Ok(self.exists_path(&child))
            },
            _ => Err(()),
        }
    }

    /// The greatest number of components any path has.
    pub fn max_path_len(&self) -> (r: usize)
        ensures
            forall|i: int| 0 <= i < self.model().len() ==> self.model()[i].0.len() <= r,
    {
        let mut r: usize = 0;
        let mut i: usize = 0;
        while i < self.entries.len()
            invariant
                i <= self.entries.len(),
                self.model().len() == self.entries@.len(),
                forall|j: int| 0 <= j < i ==> self.model()[j].0.len() <= r,
            decreases self.entries.len() - i,
        {
            if self.entries[i].path.len() > r {
                r = self.entries[i].path.len();
            }
            i = i + 1;
        }
        r
    }

    /// All present paths under `root` having exactly `len` components, in
    /// row order.
    pub fn level_paths(&self, root: &Vec<String>, len: usize) -> (r: Vec<Vec<String>>)
        requires
            self.wf(),
        ensures
            forall|k: int|
                0 <= k < r.deep_view().len() ==> {
                    &&& has_path(self.model(), r.deep_view()[k])
                    &&& is_path_prefix(root.deep_view(), r.deep_view()[k])
                    &&& r.deep_view()[k].len() == len
                },
            forall|i: int|
                0 <= i < self.model().len() && is_path_prefix(root.deep_view(), self.model()[i].0)
                    && self.model()[i].0.len() == len ==> exists|k: int|
                    0 <= k < r.deep_view().len() && r.deep_view()[k] == self.model()[i].0,
            forall|k1: int, k2: int|
                0 <= k1 < r.deep_view().len() && 0 <= k2 < r.deep_view().len() && k1 != k2
                    ==> r.deep_view()[k1] != r.deep_view()[k2],
    {
        let mut r: Vec<Vec<String>> = Vec::new();
        let mut i: usize = 0;
        while i < self.entries.len()
            invariant
                self.wf(),
                i <= self.entries.len(),
                self.model().len() == self.entries@.len(),
                forall|k: int|
                    0 <= k < r.deep_view().len() ==> {
                        &&& has_path(self.model(), r.deep_view()[k])
                        &&& is_path_prefix(root.deep_view(), r.deep_view()[k])
                        &&& r.deep_view()[k].len() == len
                    },
                forall|j: int|
                    0 <= j < i && is_path_prefix(root.deep_view(), self.model()[j].0)
                        && self.model()[j].0.len() == len ==> exists|k: int|
                        0 <= k < r.deep_view().len() && r.deep_view()[k] == self.model()[j].0,
                forall|k1: int, k2: int|
                    0 <= k1 < r.deep_view().len() && 0 <= k2 < r.deep_view().len() && k1 != k2
                        ==> r.deep_view()[k1] != r.deep_view()[k2],
            decreases self.entries.len() - i,
        {
            let ghost rold = r.deep_view();
            let ghost pi = self.model()[i as int].0;
            proof {
                assert(pi == self.entries@[i as int].path.deep_view());
            }
            if self.entries[i].path.len() == len && path_is_prefix(root, &self.entries[i].path) {
                let already = contains_path(&r, &self.entries[i].path);
                if !already {
                    proof {
                        assert(has_path(self.model(), pi));
                    }
                    r.push(clone_path(&self.entries[i].path));
                    proof {
                        assert(r.deep_view() =~~= rold.push(pi));
                        assert forall|j: int|
                            0 <= j < i + 1 && is_path_prefix(
                                root.deep_view(),
                                self.model()[j].0,
                            ) && self.model()[j].0.len() == len implies exists|k: int|
                            0 <= k < r.deep_view().len() && r.deep_view()[k]
                                == self.model()[j].0 by {
                            if j == i {
                                assert(r.deep_view()[rold.len() as int] == pi);
                            } else {
                                let k = choose|k: int|
                                    0 <= k < rold.len() && rold[k] == self.model()[j].0;
                                assert(r.deep_view()[k] == self.model()[j].0);
                            }
                        }
                    }
                } else {
                    proof {
                        assert forall|j: int|
                            0 <= j < i + 1 && is_path_prefix(
                                root.deep_view(),
                                self.model()[j].0,
                            ) && self.model()[j].0.len() == len implies exists|k: int|
                            0 <= k < r.deep_view().len() && r.deep_view()[k]
                                == self.model()[j].0 by {
                            if j == i {
                                let k = choose|k: int|
                                    0 <= k < r.deep_view().len() && r.deep_view()[k] == pi;
                            } else {
                                let k = choose|k: int|
                                    0 <= k < rold.len() && rold[k] == self.model()[j].0;
                            }
                        }
                    }
                }
            }
            i = i + 1;
        }
        r
    }

    /// Total size in bytes of the regular files at or under `root`.
    pub fn total_size(&self, root: &Vec<String>) -> (r: u128)
        requires
            self.wf(),
        ensures
            r == subtree_size(self.model(), root.deep_view()),
    {
        let mut sum: u128 = 0;
        let mut i: usize = 0;
        proof {
            assert(self.model().subrange(0, 0) =~= Seq::<(PathV, FsNodeV)>::empty());
        }
        while i < self.entries.len()
            invariant
                self.wf(),
                i <= self.entries.len(),
                self.model().len() == self.entries@.len(),
                sum == subtree_size(self.model().subrange(0, i as int), root.deep_view()),
                sum <= i * (usize::MAX as int),
            decreases self.entries.len() - i,
        {
            proof {
                assert(self.model().subrange(0, i + 1).drop_last() =~= self.model().subrange(
                    0,
                    i as int,
                ));
                assert(self.model().subrange(0, i + 1).last() == self.model()[i as int]);
                assert((i + 1) * (usize::MAX as int) == i * (usize::MAX as int) + usize::MAX)
                    by (nonlinear_arith);
                assert(i * (usize::MAX as int) + usize::MAX <= usize::MAX as int * (
                usize::MAX as int) + usize::MAX) by (nonlinear_arith)
                    requires
                        0 <= i <= usize::MAX as int - 1,
                ;
            }
            if path_is_prefix(root, &self.entries[i].path) {
                match &self.entries[i].node {
                    FsNode::File { data, .. } => {
                        sum = sum + data.len() as u128;
                    },
                    _ => {},
                }
            }
            i = i + 1;
        }
        proof {
            assert(self.model().subrange(0, self.model().len() as int) =~= self.model());
        }
        sum
    }

    /// How many entries sit at or under `root`.
    pub fn total_count(&self, root: &Vec<String>) -> (r: u128)
        requires
            self.wf(),
        ensures
            r == subtree_count(self.model(), root.deep_view()),
    {
        let mut count: u128 = 0;
        let mut i: usize = 0;
        proof {
            assert(self.model().subrange(0, 0) =~= Seq::<(PathV, FsNodeV)>::empty());
        }
        while i < self.entries.len()
            invariant
                self.wf(),
                i <= self.entries.len(),
                self.model().len() == self.entries@.len(),
                count == subtree_count(self.model().subrange(0, i as int), root.deep_view()),
                count <= i,
            decreases self.entries.len() - i,
        {
            proof {
                assert(self.model().subrange(0, i + 1).drop_last() =~= self.model().subrange(
                    0,
                    i as int,
                ));
                assert(self.model().subrange(0, i + 1).last() == self.model()[i as int]);
            }
            if path_is_prefix(root, &self.entries[i].path) {
                count = count + 1;
            }
            i = i + 1;
        }
        proof {
            assert(self.model().subrange(0, self.model().len() as int) =~= self.model());
        }
        count
    }
}

/// Whether `paths` contains `p`.
pub fn contains_path(paths: &Vec<Vec<String>>, p: &Vec<String>) -> (b: bool)
    ensures
        b == exists|k: int|
            0 <= k < paths.deep_view().len() && paths.deep_view()[k] == p.deep_view(),
{
    let mut k: usize = 0;
    while k < paths.len()
        invariant
            k <= paths.len(),
            forall|j: int| 0 <= j < k ==> paths.deep_view()[j] != p.deep_view(),
        decreases paths.len() - k,
    {
        if path_eq(&paths[k], p) {
            proof {
                assert(paths.deep_view()[k as int] == p.deep_view());
            }
            return true;
        }
        proof {
            assert(paths.deep_view()[k as int] == paths@[k as int].deep_view());
        }
        k = k + 1;
    }
    false
}

} // verus!
