use vstd::prelude::*;

use crate::error::VmError;

verus! {

/// Longest file or directory name the kernel accepts, in bytes.
pub const MAX_FILENAME_LEN: usize = 64;

/// Most entries one directory may hold.
pub const MAX_DIR_ENTRIES: usize = 256;

/// Largest file the kernel accepts, in bytes.
pub const MAX_FILE_SIZE: usize = 65536;

#[derive(Copy, Clone, Debug, PartialEq, Eq, Structural)]
pub enum FsKind {
    File,
    Dir,
    /// Present so a host can report one honestly; the kernel rejects any
    /// snapshot that contains it.
    Symlink,
}

/// One entry of the sandbox tree: its path as a list of name segments
/// relative to the root, its kind, and - for files - its contents.
pub struct FsNode {
    pub path: Vec<Vec<u8>>,
    pub kind: FsKind,
    pub data: Vec<u8>,
}

/// An in-memory snapshot of the sandbox root directory, taken at kernel
/// construction. All path resolution and file I/O of the syscall layer
/// work against this snapshot.
pub struct SandboxFs {
    pub nodes: Vec<FsNode>,
}

/// The deep view of a byte vector is its plain view.
pub proof fn lemma_bytes_deep(v: Vec<u8>)
    ensures
        v.deep_view() == v@,
{
    assert(v.deep_view() =~= v@);
}

pub open spec fn dot() -> Seq<u8> {
    seq![46u8]
}

pub open spec fn dotdot() -> Seq<u8> {
    seq![46u8, 46u8]
}

/// A name segment the snapshot itself may contain: nonempty, within the
/// length bound, no path separator, and not one of the dot forms.
pub open spec fn seg_wf(seg: Seq<u8>) -> bool {
    &&& 0 < seg.len() <= MAX_FILENAME_LEN
    &&& forall|i: int| 0 <= i < seg.len() ==> seg[i] != 47u8
    &&& seg != dot()
    &&& seg != dotdot()
}

pub open spec fn node_wf(n: FsNode) -> bool {
    &&& n.path.deep_view().len() >= 1
    &&& forall|k: int| 0 <= k < n.path.deep_view().len() ==> seg_wf(#[trigger] n.path.deep_view()[k])
    &&& n.kind != FsKind::Symlink
    &&& n.kind is File ==> n.data@.len() <= MAX_FILE_SIZE
    &&& n.kind is Dir ==> n.data@.len() == 0
}

/// Whether `p` names a child of directory path `dir`.
pub open spec fn is_child_of(p: Seq<Seq<u8>>, dir: Seq<Seq<u8>>) -> bool {
    p.len() == dir.len() + 1 && p.take(dir.len() as int) == dir
}

/// How many of the first `n` nodes are children of `dir`.
pub open spec fn children_count(nodes: Seq<FsNode>, dir: Seq<Seq<u8>>, n: int) -> nat
    decreases n,
{
    if n <= 0 {
        0
    } else {
        children_count(nodes, dir, n - 1) + (if is_child_of(nodes[n - 1].path.deep_view(), dir) {
            1nat
        } else {
            0nat
        })
    }
}

impl SandboxFs {
    /// A well-formed snapshot: every node well formed with a distinct
    /// path, every non-root parent present as a directory, and no
    /// directory (the root included) over the entry limit.
    pub open spec fn wf(self) -> bool {
        &&& forall|i: int| 0 <= i < self.nodes@.len() ==> node_wf(#[trigger] self.nodes@[i])
        &&& forall|i: int, j: int|
            0 <= i < j < self.nodes@.len() ==> self.nodes@[i].path.deep_view()
                != self.nodes@[j].path.deep_view()
        &&& forall|i: int|
            0 <= i < self.nodes@.len() && (#[trigger] self.nodes@[i].path.deep_view()).len() > 1
                ==> exists|j: int|
                0 <= j < self.nodes@.len() && (#[trigger] self.nodes@[j].path.deep_view())
                    == self.nodes@[i].path.deep_view().drop_last() && self.nodes@[j].kind is Dir
        &&& children_count(self.nodes@, Seq::empty(), self.nodes@.len() as int)
            <= MAX_DIR_ENTRIES
        &&& forall|i: int|
            0 <= i < self.nodes@.len() && self.nodes@[i].kind is Dir ==> children_count(
                self.nodes@,
                (#[trigger] self.nodes@[i].path.deep_view()),
                self.nodes@.len() as int,
            ) <= MAX_DIR_ENTRIES
    }

    pub fn new() -> (r: SandboxFs)
        ensures
            r.nodes@.len() == 0,
            r.wf(),
    {
        SandboxFs { nodes: Vec::new() }
    }

    /// Find the node with exactly this path.
    pub fn lookup(&self, path: &Vec<Vec<u8>>) -> (r: Option<usize>)
        ensures
            match r {
                Some(i) => i < self.nodes@.len() && self.nodes@[i as int].path.deep_view()
                    == path.deep_view(),
                None => forall|i: int|
                    0 <= i < self.nodes@.len() ==> (#[trigger] self.nodes@[i].path.deep_view())
                        != path.deep_view(),
            },
    {
        let mut i: usize = 0;
        while i < self.nodes.len()
            invariant
                i <= self.nodes@.len(),
                forall|k: int|
                    0 <= k < i ==> (#[trigger] self.nodes@[k].path.deep_view())
                        != path.deep_view(),
            decreases self.nodes@.len() - i,
        {
            if paths_equal(&self.nodes[i].path, path) {
                return Some(i);
            }
            i = i + 1;
        }
        None
    }
}

/// Whether two segment lists are the same path.
pub fn paths_equal(a: &Vec<Vec<u8>>, b: &Vec<Vec<u8>>) -> (r: bool)
    ensures
        r == (a.deep_view() == b.deep_view()),
{
    if a.len() != b.len() {
        proof {
            assert(a.deep_view().len() == a@.len());
            assert(b.deep_view().len() == b@.len());
        }
        return false;
    }
    let mut i: usize = 0;
    while i < a.len()
        invariant
            a@.len() == b@.len(),
            i <= a@.len(),
            forall|k: int| 0 <= k < i ==> a.deep_view()[k] == b.deep_view()[k],
        decreases a@.len() - i,
    {
        if !bytes_equal(&a[i], &b[i]) {
            proof {
                assert(a.deep_view()[i as int] == a@[i as int]@);
                assert(b.deep_view()[i as int] == b@[i as int]@);
            }
            return false;
        }
        i = i + 1;
    }
    proof {
        assert(a.deep_view() =~= b.deep_view());
    }
    true
}

/// Whether two byte vectors hold the same bytes.
pub fn bytes_equal(a: &Vec<u8>, b: &Vec<u8>) -> (r: bool)
    ensures
        r == (a@ == b@),
{
    if a.len() != b.len() {
        return false;
    }
    let mut i: usize = 0;
    while i < a.len()
        invariant
            a@.len() == b@.len(),
            i <= a@.len(),
            forall|k: int| 0 <= k < i ==> a@[k] == b@[k],
        decreases a@.len() - i,
    {
        if a[i] != b[i] {
            return false;
        }
        i = i + 1;
    }
    proof {
        assert(a@ =~= b@);
    }
    true
}

/// The segments of a byte path, split on `/`, empty runs dropped;
/// `cur` carries the partial segment read so far.
pub open spec fn raw_segs_from(s: Seq<u8>, i: int, cur: Seq<u8>) -> Seq<Seq<u8>>
    decreases s.len() - i,
{
    if i < 0 || i >= s.len() {
        if cur.len() > 0 {
            seq![cur]
        } else {
            Seq::empty()
        }
    } else if s[i] == 47u8 {
        (if cur.len() > 0 {
            seq![cur]
        } else {
            Seq::empty()
        }) + raw_segs_from(s, i + 1, Seq::empty())
    } else {
        raw_segs_from(s, i + 1, cur.push(s[i]))
    }
}

pub open spec fn raw_segs(s: Seq<u8>) -> Seq<Seq<u8>> {
    raw_segs_from(s, 0, Seq::empty())
}

/// A segment that path resolution refuses: a parent reference, or an
/// over-long name. A lone dot is skipped, not refused.
pub open spec fn seg_rejected(seg: Seq<u8>) -> bool {
    seg == dotdot() || (seg != dot() && seg.len() > MAX_FILENAME_LEN)
}

/// A guest path that resolution refuses outright: an absolute path, or
/// one with a refused segment.
pub open spec fn path_rejected(s: Seq<u8>) -> bool {
    ||| (s.len() > 0 && s[0] == 47u8)
    ||| exists|k: int| 0 <= k < raw_segs(s).len() && seg_rejected(#[trigger] raw_segs(s)[k])
}

/// The normalized form of a guest path: its segments with the lone dots
/// dropped.
pub open spec fn norm_segs(segs: Seq<Seq<u8>>) -> Seq<Seq<u8>>
    decreases segs.len(),
{
    if segs.len() == 0 {
        Seq::empty()
    } else {
        norm_segs(segs.drop_last()) + (if segs.last() == dot() {
            Seq::<Seq<u8>>::empty()
        } else {
            seq![segs.last()]
        })
    }
}

pub open spec fn normalized(s: Seq<u8>) -> Seq<Seq<u8>> {
    norm_segs(raw_segs(s))
}

/// Split a guest path into its raw segments, exactly `raw_segs`.
fn split_path(name: &[u8]) -> (segs: Vec<Vec<u8>>)
    ensures
        segs.deep_view() == raw_segs(name@),
{
    let mut segs: Vec<Vec<u8>> = Vec::new();
    let mut cur: Vec<u8> = Vec::new();
    let mut i: usize = 0;
    while i < name.len()
        invariant
            i <= name@.len(),
            raw_segs(name@) == segs.deep_view() + raw_segs_from(name@, i as int, cur@),
        decreases name@.len() - i,
    {
        let ghost pre_segs = segs.deep_view();
        let ghost pre_cur = cur@;
        if name[i] == 47 {
            if cur.len() > 0 {
                segs.push(cur);
                cur = Vec::new();
                proof {
                    assert(segs.deep_view() =~~= pre_segs.push(pre_cur));
                    assert(raw_segs_from(name@, i as int, pre_cur) =~= seq![pre_cur]
                        + raw_segs_from(name@, i as int + 1, Seq::empty()));
                    assert(segs.deep_view() + raw_segs_from(name@, i as int + 1, cur@) =~= pre_segs
                        + (seq![pre_cur] + raw_segs_from(name@, i as int + 1, Seq::empty())));
                    assert(raw_segs(name@) == segs.deep_view() + raw_segs_from(
                        name@,
                        i as int + 1,
                        cur@,
                    ));
                }
            } else {
                proof {
                    assert(cur@ =~= Seq::<u8>::empty());
                    assert(raw_segs_from(name@, i as int, cur@) =~= raw_segs_from(
                        name@,
                        i as int + 1,
                        cur@,
                    ));
                }
            }
        } else {
            cur.push(name[i]);
            proof {
                assert(cur@ == pre_cur.push(name@[i as int]));
                assert(raw_segs_from(name@, i as int, pre_cur) == raw_segs_from(
                    name@,
                    i as int + 1,
                    cur@,
                ));
            }
        }
        i = i + 1;
    }
    if cur.len() > 0 {
        let ghost pre_segs = segs.deep_view();
        let ghost pre_cur = cur@;
        segs.push(cur);
        proof {
            assert(segs.deep_view() =~~= pre_segs.push(pre_cur));
            assert(pre_segs.push(pre_cur) =~= pre_segs + seq![pre_cur]);
        }
    } else {
        proof {
            assert(segs.deep_view() + raw_segs_from(name@, name@.len() as int, cur@)
                =~= segs.deep_view());
        }
    }
    segs
}

/// Parse and normalize a guest path: reject absolute paths, parent
/// references and over-long segments; drop lone dots. The result is the
/// normalized segment list.
pub fn parse_guest_path(name: &[u8]) -> (r: Result<Vec<Vec<u8>>, VmError>)
    ensures
        r is Err <==> path_rejected(name@),
        r is Err ==> r->Err_0 == VmError::InvalidInput,
        r is Ok ==> r->Ok_0.deep_view() == normalized(name@),
{
    if name.len() > 0 && name[0] == 47 {
        return Err(VmError::InvalidInput);
    }
    let segs = split_path(name);
    let mut out: Vec<Vec<u8>> = Vec::new();
    let mut k: usize = 0;
    while k < segs.len()
        invariant
            k <= segs@.len(),
            segs.deep_view() == raw_segs(name@),
            !(name@.len() > 0 && name@[0] == 47u8),
            forall|j: int| 0 <= j < k ==> !seg_rejected(#[trigger] raw_segs(name@)[j]),
            out.deep_view() == norm_segs(raw_segs(name@).take(k as int)),
        decreases segs@.len() - k,
    {
        let seg = &segs[k];
        let is_dot = seg.len() == 1 && seg[0] == 46;
        let is_dotdot = seg.len() == 2 && seg[0] == 46 && seg[1] == 46;
        proof {
            lemma_bytes_deep(segs@[k as int]);
            assert(segs.deep_view()[k as int] == segs@[k as int]@);
            assert(is_dot == (seg@ == dot())) by {
                if is_dot {
                    assert(seg@ =~= dot());
                }
            }
            assert(is_dotdot == (seg@ == dotdot())) by {
                if is_dotdot {
                    assert(seg@ =~= dotdot());
                }
            }
        }
        if is_dotdot {
            return Err(VmError::InvalidInput);
        }
        if !is_dot && seg.len() > MAX_FILENAME_LEN {
            return Err(VmError::InvalidInput);
        }
        let ghost pre_out = out.deep_view();
        if !is_dot {
            let mut copy: Vec<u8> = Vec::new();
            let mut b: usize = 0;
            while b < seg.len()
                invariant
                    b <= seg@.len(),
                    copy@ == seg@.take(b as int),
                decreases seg@.len() - b,
            {
                copy.push(seg[b]);
                proof {
                    assert(seg@.take(b as int).push(seg@[b as int]) =~= seg@.take(b as int + 1));
                }
                b = b + 1;
            }
            proof {
                assert(copy@ =~= seg@);
            }
            out.push(copy);
            proof {
                assert(out.deep_view() =~~= pre_out.push(seg@));
            }
        }
        proof {
            let taken = raw_segs(name@).take(k as int + 1);
            assert(taken.drop_last() =~= raw_segs(name@).take(k as int));
            assert(taken.last() == raw_segs(name@)[k as int]);
            if is_dot {
                assert(out.deep_view() =~= norm_segs(taken));
            } else {
                assert(pre_out.push(seg@) =~= pre_out + seq![seg@]);
                assert(out.deep_view() =~= norm_segs(taken));
            }
        }
        k = k + 1;
    }
    proof {
        assert(raw_segs(name@).take(segs@.len() as int) =~= raw_segs(name@));
        assert(!path_rejected(name@));
    }
    Ok(out)
}

/// Whether one segment is acceptable in a snapshot.
fn seg_check(seg: &Vec<u8>) -> (r: bool)
    ensures
        r == seg_wf(seg@),
{
    if seg.len() == 0 || seg.len() > MAX_FILENAME_LEN {
        return false;
    }
    if seg.len() == 1 && seg[0] == 46 {
        proof {
            assert(seg@ =~= dot());
        }
        return false;
    }
    if seg.len() == 2 && seg[0] == 46 && seg[1] == 46 {
        proof {
            assert(seg@ =~= dotdot());
        }
        return false;
    }
    let mut i: usize = 0;
    while i < seg.len()
        invariant
            i <= seg@.len(),
            forall|k: int| 0 <= k < i ==> seg@[k] != 47u8,
        decreases seg@.len() - i,
    {
        if seg[i] == 47 {
            return false;
        }
        i = i + 1;
    }
    proof {
        if seg@ == dot() {
            assert(seg@.len() == 1 && seg@[0] == 46u8);
        }
        if seg@ == dotdot() {
            assert(seg@.len() == 2 && seg@[0] == 46u8 && seg@[1] == 46u8);
        }
    }
    true
}

/// Whether one node is acceptable in a snapshot.
fn node_check(n: &FsNode) -> (r: bool)
    ensures
        r == node_wf(*n),
{
    if n.path.len() == 0 {
        proof {
            assert(n.path.deep_view().len() == n.path@.len());
        }
        return false;
    }
    match n.kind {
        FsKind::File => {
            if n.data.len() > MAX_FILE_SIZE {
                return false;
            }
        },
        FsKind::Dir => {
            if n.data.len() > 0 {
                return false;
            }
        },
        FsKind::Symlink => {
            return false;
        },
    }
    let mut k: usize = 0;
    while k < n.path.len()
        invariant
            k <= n.path@.len(),
            forall|j: int| 0 <= j < k ==> seg_wf(#[trigger] n.path.deep_view()[j]),
        decreases n.path@.len() - k,
    {
        let ok = seg_check(&n.path[k]);
        proof {
            lemma_bytes_deep(n.path@[k as int]);
            assert(n.path.deep_view()[k as int] == n.path@[k as int].deep_view());
        }
        if !ok {
            proof {
                assert(!seg_wf(n.path.deep_view()[k as int]));
            }
            return false;
        }
        k = k + 1;
    }
    proof {
        assert(n.path.deep_view().len() == n.path@.len());
    }
    true
}

/// Whether `p` names a child of directory `dir`.
pub fn child_check(p: &Vec<Vec<u8>>, dir: &Vec<Vec<u8>>) -> (r: bool)
    ensures
        r == is_child_of(p.deep_view(), dir.deep_view()),
{
    if p.len() == 0 || p.len() - 1 != dir.len() {
        proof {
            assert(p.deep_view().len() == p@.len());
            assert(dir.deep_view().len() == dir@.len());
        }
        return false;
    }
    let mut i: usize = 0;
    while i < dir.len()
        invariant
            p@.len() == dir@.len() + 1,
            i <= dir@.len(),
            forall|k: int| 0 <= k < i ==> p.deep_view()[k] == dir.deep_view()[k],
        decreases dir@.len() - i,
    {
        let eq = bytes_equal(&p[i], &dir[i]);
        proof {
            lemma_bytes_deep(p@[i as int]);
            lemma_bytes_deep(dir@[i as int]);
        }
        if !eq {
            proof {
                assert(p.deep_view()[i as int] != dir.deep_view()[i as int]);
                assert(p.deep_view().take(dir.deep_view().len() as int)[i as int]
                    == p.deep_view()[i as int]);
            }
            return false;
        }
        i = i + 1;
    }
    proof {
        assert(p.deep_view().take(dir.deep_view().len() as int) =~= dir.deep_view());
    }
    true
}

/// Whether `cand` is the parent path of `child` (one segment shorter and
/// a prefix of it).
fn parent_check(cand: &Vec<Vec<u8>>, child: &Vec<Vec<u8>>) -> (r: bool)
    ensures
        child.deep_view().len() >= 1 ==> r == (cand.deep_view() == child.deep_view().drop_last()),
{
    if child.len() == 0 {
        return false;
    }
    if cand.len() != child.len() - 1 {
        proof {
            assert(cand.deep_view().len() == cand@.len());
            assert(child.deep_view().len() == child@.len());
        }
        return false;
    }
    let mut i: usize = 0;
    while i < cand.len()
        invariant
            cand@.len() + 1 == child@.len(),
            i <= cand@.len(),
            forall|k: int| 0 <= k < i ==> cand.deep_view()[k] == child.deep_view()[k],
        decreases cand@.len() - i,
    {
        let eq = bytes_equal(&cand[i], &child[i]);
        proof {
            lemma_bytes_deep(cand@[i as int]);
            lemma_bytes_deep(child@[i as int]);
        }
        if !eq {
            proof {
                assert(child.deep_view().drop_last()[i as int] == child.deep_view()[i as int]);
            }
            return false;
        }
        i = i + 1;
    }
    proof {
        assert(cand.deep_view() =~= child.deep_view().drop_last());
    }
    true
}

impl SandboxFs {
    /// Count the children of `dir` among the nodes.
    fn count_children(&self, dir: &Vec<Vec<u8>>) -> (r: usize)
        ensures
            r == children_count(self.nodes@, dir.deep_view(), self.nodes@.len() as int),
    {
        let mut count: usize = 0;
        let mut i: usize = 0;
        while i < self.nodes.len()
            invariant
                i <= self.nodes@.len(),
                count == children_count(self.nodes@, dir.deep_view(), i as int),
                count <= i,
            decreases self.nodes@.len() - i,
        {
            if child_check(&self.nodes[i].path, dir) {
                count = count + 1;
            }
            i = i + 1;
        }
        count
    }

    /// Check the whole snapshot against the construction rules: no
    /// symlinks, names within bounds, distinct paths, parents present as
    /// directories, and no directory over the entry limit.
    pub fn validate(&self) -> (r: bool)
        ensures
            r == self.wf(),
    {
        let n = self.nodes.len();
        let mut i: usize = 0;
        while i < n
            invariant
                n == self.nodes@.len(),
                i <= n,
                forall|k: int| 0 <= k < i ==> node_wf(#[trigger] self.nodes@[k]),
            decreases n - i,
        {
            if !node_check(&self.nodes[i]) {
                return false;
            }
            i = i + 1;
        }
        let mut i: usize = 0;
        while i < n
            invariant
                n == self.nodes@.len(),
                i <= n,
                forall|a: int, b: int|
                    0 <= a < b < n && a < i ==> self.nodes@[a].path.deep_view()
                        != self.nodes@[b].path.deep_view(),
            decreases n - i,
        {
            let mut j: usize = i + 1;
            while j < n
                invariant
                    n == self.nodes@.len(),
                    i < j || j == i + 1,
                    i < n,
                    j <= n,
                    forall|b: int|
                        i < b < j ==> self.nodes@[i as int].path.deep_view()
                            != self.nodes@[b].path.deep_view(),
                decreases n - j,
            {
                if paths_equal(&self.nodes[i].path, &self.nodes[j].path) {
                    return false;
                }
                j = j + 1;
            }
            i = i + 1;
        }
        let mut i: usize = 0;
        while i < n
            invariant
                n == self.nodes@.len(),
                i <= n,
                forall|k: int|
                    0 <= k < i && (#[trigger] self.nodes@[k].path.deep_view()).len() > 1
                        ==> exists|j: int|
                        0 <= j < n && (#[trigger] self.nodes@[j].path.deep_view())
                            == self.nodes@[k].path.deep_view().drop_last()
                            && self.nodes@[j].kind is Dir,
            decreases n - i,
        {
            if self.nodes[i].path.len() > 1 {
                proof {
                    assert(self.nodes@[i as int].path.deep_view().len()
                        == self.nodes@[i as int].path@.len());
                }
                let mut j: usize = 0;
                let mut found = false;
                while j < n
                    invariant
                        n == self.nodes@.len(),
                        i < n,
                        j <= n,
                        self.nodes@[i as int].path.deep_view().len() > 1,
                        found ==> exists|q: int|
                            0 <= q < n && (#[trigger] self.nodes@[q].path.deep_view())
                                == self.nodes@[i as int].path.deep_view().drop_last()
                                && self.nodes@[q].kind is Dir,
                        !found ==> forall|q: int|
                            0 <= q < j ==> !((#[trigger] self.nodes@[q].path.deep_view())
                                == self.nodes@[i as int].path.deep_view().drop_last()
                                && self.nodes@[q].kind is Dir),
                    decreases n - j,
                {
                    if !found && self.nodes[j].kind == FsKind::Dir && parent_check(
                        &self.nodes[j].path,
                        &self.nodes[i].path,
                    ) {
                        found = true;
                    }
                    j = j + 1;
                }
                if !found {
                    return false;
                }
            }
            i = i + 1;
        }
        let root: Vec<Vec<u8>> = Vec::new();
        let root_count = self.count_children(&root);
        proof {
            assert(root.deep_view() =~= Seq::<Seq<u8>>::empty());
        }
        if root_count > MAX_DIR_ENTRIES {
            return false;
        }
        let mut i: usize = 0;
        while i < n
            invariant
                n == self.nodes@.len(),
                i <= n,
                children_count(self.nodes@, Seq::empty(), n as int) <= MAX_DIR_ENTRIES,
                forall|k: int|
                    0 <= k < i && self.nodes@[k].kind is Dir ==> children_count(
                        self.nodes@,
                        (#[trigger] self.nodes@[k].path.deep_view()),
                        n as int,
                    ) <= MAX_DIR_ENTRIES,
            decreases n - i,
        {
            if self.nodes[i].kind == FsKind::Dir {
                let c = self.count_children(&self.nodes[i].path);
                if c > MAX_DIR_ENTRIES {
                    return false;
                }
            }
            i = i + 1;
        }
        true
    }
}

} // verus!
