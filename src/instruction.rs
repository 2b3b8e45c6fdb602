use vstd::prelude::*;
use crate::rules::push_bytes;
use crate::encode::{SLASH, wf_segment};

verus! {

/// One mutation of the target store. A path is the sequence of its segments
/// from the target root; each segment is a byte string.
#[derive(Debug, PartialEq, Eq)]
pub enum Instruction {
    /// Creates a container at `path`.
    CreateFolder { path: Vec<Vec<u8>> },
    /// Creates a leaf at `path` holding exactly `contents`.
    CreateFile { path: Vec<Vec<u8>>, contents: Vec<u8> },
    /// Removes the leaf or container at `path`. Part of the protocol for
    /// later synchronisation; the compiler never emits it.
    Remove { path: Vec<Vec<u8>> },
}

/// The mathematical value of an instruction.
pub enum Op {
    Folder(Seq<Seq<u8>>),
    File(Seq<Seq<u8>>, Seq<u8>),
    Remove(Seq<Seq<u8>>),
}

pub open spec fn path_view(p: Seq<Vec<u8>>) -> Seq<Seq<u8>> {
    p.map_values(|s: Vec<u8>| s@)
}

impl View for Instruction {
    type V = Op;

    open spec fn view(&self) -> Op {
        match self {
            Instruction::CreateFolder { path } => Op::Folder(path_view(path@)),
            Instruction::CreateFile { path, contents } => Op::File(path_view(path@), contents@),
            Instruction::Remove { path } => Op::Remove(path_view(path@)),
        }
    }
}

pub open spec fn op_path(op: Op) -> Seq<Seq<u8>> {
    match op {
        Op::Folder(p) => p,
        Op::File(p, _) => p,
        Op::Remove(p) => p,
    }
}

pub open spec fn ops_of(s: Seq<Instruction>) -> Seq<Op> {
    s.map_values(|i: Instruction| i@)
}

/// One of the first `bound` instructions creates the folder `p`.
pub open spec fn folder_created(s: Seq<Op>, p: Seq<Seq<u8>>, bound: int) -> bool {
    exists|j: int| 0 <= j < bound && s[j] == Op::Folder(p)
}

/// Each ancestor of the instruction at `k` is created by an earlier instruction.
pub open spec fn ancestors_before(s: Seq<Op>, k: int) -> bool {
    forall|m: int|
        1 <= m < op_path(s[k]).len() ==> #[trigger] folder_created(
            s,
            op_path(s[k]).subrange(0, m),
            k,
        )
}

/// Every instruction comes after the creation of each of its ancestors.
pub open spec fn parents_first(s: Seq<Op>) -> bool {
    forall|k: int| 0 <= k < s.len() ==> #[trigger] ancestors_before(s, k)
}

/// No two instructions target the same path.
pub open spec fn distinct_paths(s: Seq<Op>) -> bool {
    forall|i: int, j: int|
        0 <= i < j < s.len() ==> op_path(#[trigger] s[i]) != op_path(#[trigger] s[j])
}

/// Every segment of the path may stand in a path.
pub open spec fn wf_path(p: Seq<Seq<u8>>) -> bool {
    forall|i: int| 0 <= i < p.len() ==> wf_segment(#[trigger] p[i])
}

/// Every instruction targets a non-empty path of well-formed segments.
pub open spec fn valid_paths(s: Seq<Op>) -> bool {
    forall|k: int| 0 <= k < s.len() ==> op_path(#[trigger] s[k]).len() > 0 && wf_path(op_path(s[k]))
}

/// Only creations: no removal.
pub open spec fn creations_only(s: Seq<Op>) -> bool {
    forall|k: int| 0 <= k < s.len() ==> !(#[trigger] s[k] is Remove)
}

impl Instruction {
    pub fn path(&self) -> (r: &Vec<Vec<u8>>)
        ensures
            path_view(r@) == op_path(self@),
    {
        match self {
            Instruction::CreateFolder { path } => path,
            Instruction::CreateFile { path, .. } => path,
            Instruction::Remove { path } => path,
        }
    }
}

/// The slash-separated form of a path.
pub open spec fn joined(p: Seq<Seq<u8>>) -> Seq<u8>
    decreases p.len(),
{
    if p.len() == 0 {
        Seq::empty()
    } else if p.len() == 1 {
        p[0]
    } else {
        joined(p.drop_last()) + seq![SLASH] + p.last()
    }
}

/// Writes a path with its segments separated by slashes.
pub fn join_path(path: &Vec<Vec<u8>>) -> (r: Vec<u8>)
    ensures
        r@ == joined(path_view(path@)),
{
    let mut out: Vec<u8> = Vec::new();
    let mut i: usize = 0;
    while i < path.len()
        invariant
            i <= path@.len(),
            out@ == joined(path_view(path@).subrange(0, i as int)),
        decreases path@.len() - i,
    {
        let ghost t = path_view(path@).subrange(0, i + 1);
        assert(t.drop_last() =~= path_view(path@).subrange(0, i as int));
        if i > 0 {
            out.push(SLASH);
        } else {
            assert(out@ =~= Seq::<u8>::empty());
        }
        push_bytes(&mut out, path[i].as_slice());
        i = i + 1;
        assert(out@ =~= joined(path_view(path@).subrange(0, i as int)));
    }
    assert(path_view(path@).subrange(0, path@.len() as int) =~= path_view(path@));
    out
}

pub fn copy_bytes(b: &Vec<u8>) -> (r: Vec<u8>)
    ensures
        r@ == b@,
{
    let mut r: Vec<u8> = Vec::new();
    push_bytes(&mut r, b.as_slice());
    assert(r@ =~= b@);
    r
}

pub fn copy_path(p: &Vec<Vec<u8>>) -> (r: Vec<Vec<u8>>)
    ensures
        path_view(r@) == path_view(p@),
{
    let mut r: Vec<Vec<u8>> = Vec::new();
    let mut i: usize = 0;
    while i < p.len()
        invariant
            i <= p@.len(),
            path_view(r@) =~= path_view(p@.subrange(0, i as int)),
        decreases p@.len() - i,
    {
        let c = copy_bytes(&p[i]);
        let ghost before = r@;
        r.push(c);
        assert(path_view(r@) =~= path_view(before).push(c@));
        assert(p@.subrange(0, i + 1) =~= p@.subrange(0, i as int).push(p@[i as int]));
        i = i + 1;
        assert(path_view(r@) =~= path_view(p@.subrange(0, i as int)));
    }
    assert(p@.subrange(0, p@.len() as int) =~= p@);
    r
}

/// `parent` with `seg` added at its end.
pub fn extend_path(parent: &Vec<Vec<u8>>, seg: Vec<u8>) -> (r: Vec<Vec<u8>>)
    ensures
        path_view(r@) == path_view(parent@).push(seg@),
{
    let mut r = copy_path(parent);
    let ghost before = r@;
    r.push(seg);
    assert(path_view(r@) =~= path_view(before).push(seg@));
    r
}

pub fn same_bytes(a: &Vec<u8>, b: &Vec<u8>) -> (r: bool)
    ensures
        r == (a@ == b@),
{
    if a.len() != b.len() {
        return false;
    }
    let mut i: usize = 0;
    while i < a.len()
        invariant
            i <= a@.len(),
            a@.len() == b@.len(),
            a@.subrange(0, i as int) =~= b@.subrange(0, i as int),
        decreases a@.len() - i,
    {
        if a[i] != b[i] {
            return false;
        }
        i = i + 1;
        assert(a@.subrange(0, i as int) =~= b@.subrange(0, i as int));
    }
    assert(a@ =~= a@.subrange(0, i as int));
    assert(b@ =~= b@.subrange(0, i as int));
    true
}

pub fn same_path(a: &Vec<Vec<u8>>, b: &Vec<Vec<u8>>) -> (r: bool)
    ensures
        r == (path_view(a@) == path_view(b@)),
{
    if a.len() != b.len() {
        assert(path_view(a@).len() != path_view(b@).len());
        return false;
    }
    let mut i: usize = 0;
    while i < a.len()
        invariant
            i <= a@.len(),
            a@.len() == b@.len(),
            path_view(a@).subrange(0, i as int) =~= path_view(b@).subrange(0, i as int),
        decreases a@.len() - i,
    {
        if !same_bytes(&a[i], &b[i]) {
            assert(path_view(a@)[i as int] != path_view(b@)[i as int]);
            return false;
        }
        i = i + 1;
        assert(path_view(a@).subrange(0, i as int) =~= path_view(b@).subrange(0, i as int));
    }
    assert(path_view(a@) =~= path_view(a@).subrange(0, i as int));
    assert(path_view(b@) =~= path_view(b@).subrange(0, i as int));
    true
}

} // verus!
