use vstd::prelude::*;
use crate::compiler::{well_formed_stream, compile, compiles, compile_spec, CompileError};
use crate::tree::InstanceNode;
use crate::instruction::{Instruction, Op, op_path, ops_of, path_view, copy_bytes, copy_path, same_path, same_bytes, distinct_paths, ancestors_before, folder_created};

verus! {

/// What a path holds in a store: a container, or a leaf with its bytes.
pub enum Node {
    Folder,
    File(Seq<u8>),
}

/// The content of one stored path.
#[derive(Debug, PartialEq, Eq)]
pub enum EntryKind {
    Folder,
    File(Vec<u8>),
}

/// One path of the in-memory store and what it holds.
pub struct Entry {
    pub path: Vec<Vec<u8>>,
    pub kind: EntryKind,
}

/// Why a consumer refused an instruction.
#[derive(PartialEq, Eq, Structural, Clone, Copy, Debug)]
pub enum ApplyError {
    /// The instruction's path has no segment.
    EmptyPath,
    /// The container that should hold the new path does not exist.
    MissingParent,
    /// The path already holds a container or a leaf.
    AlreadyExists,
    /// The consumer does not implement this kind of instruction.
    Unsupported,
}

pub open spec fn entry_path(e: Entry) -> Seq<Seq<u8>> {
    path_view(e.path@)
}

pub open spec fn kind_node(k: EntryKind) -> Node {
    match k {
        EntryKind::Folder => Node::Folder,
        EntryKind::File(c) => Node::File(c@),
    }
}

pub open spec fn entry_node(e: Entry) -> Node {
    kind_node(e.kind)
}

fn same_kind(a: &EntryKind, b: &EntryKind) -> (r: bool)
    ensures
        r == (kind_node(*a) == kind_node(*b)),
{
    match (a, b) {
        (EntryKind::Folder, EntryKind::Folder) => true,
        (EntryKind::File(x), EntryKind::File(y)) => same_bytes(x, y),
        _ => false,
    }
}

/// The store that a list of entries describes.
pub open spec fn state_of(es: Seq<Entry>) -> Map<Seq<Seq<u8>>, Node>
    decreases es.len(),
{
    if es.len() == 0 {
        Map::empty()
    } else {
        state_of(es.drop_last()).insert(entry_path(es.last()), entry_node(es.last()))
    }
}

pub open spec fn distinct_entries(es: Seq<Entry>) -> bool {
    forall|i: int, j: int|
        0 <= i < j < es.len() ==> entry_path(#[trigger] es[i]) != entry_path(#[trigger] es[j])
}

/// A path is present exactly when an entry holds it, and then holds what that entry holds.
pub proof fn lemma_state_of(es: Seq<Entry>)
    requires
        distinct_entries(es),
    ensures
        forall|p: Seq<Seq<u8>>|
            #[trigger] state_of(es).contains_key(p) <==> exists|i: int|
                0 <= i < es.len() && entry_path(es[i]) == p,
        forall|i: int|
            0 <= i < es.len() ==> state_of(es)[entry_path(#[trigger] es[i])] == entry_node(es[i]),
    decreases es.len(),
{
    if es.len() > 0 {
        let d = es.drop_last();
        assert(distinct_entries(d)) by {
            assert forall|i: int, j: int| 0 <= i < j < d.len() implies entry_path(#[trigger] d[i])
                != entry_path(#[trigger] d[j]) by {
                assert(d[i] == es[i] && d[j] == es[j]);
            }
        }
        lemma_state_of(d);
        assert forall|p: Seq<Seq<u8>>| #[trigger] state_of(es).contains_key(p) <==> exists|i: int|
            0 <= i < es.len() && entry_path(es[i]) == p by {
            if state_of(es).contains_key(p) && p != entry_path(es.last()) {
                let i = choose|i: int| 0 <= i < d.len() && entry_path(d[i]) == p;
                assert(es[i] == d[i]);
            }
            if exists|i: int| 0 <= i < es.len() && entry_path(es[i]) == p {
                let i = choose|i: int| 0 <= i < es.len() && entry_path(es[i]) == p;
                if i < d.len() {
                    assert(es[i] == d[i]);
                }
            }
        }
        assert forall|i: int| 0 <= i < es.len() implies state_of(es)[entry_path(#[trigger] es[i])]
            == entry_node(es[i]) by {
            if i < d.len() {
                assert(es[i] == d[i]);
                assert(entry_path(es[i]) != entry_path(es[es.len() - 1]));
            }
        }
    }
}

/// A reference consumer that keeps the whole target store in memory.
pub struct VirtualFileSystem {
    pub entries: Vec<Entry>,
}

impl View for VirtualFileSystem {
    type V = Map<Seq<Seq<u8>>, Node>;

    open spec fn view(&self) -> Map<Seq<Seq<u8>>, Node> {
        state_of(self.entries@)
    }
}

/// The store after one instruction, or the reason it is refused.
pub open spec fn apply_op(m: Map<Seq<Seq<u8>>, Node>, op: Op) -> Result<
    Map<Seq<Seq<u8>>, Node>,
    ApplyError,
> {
    let p = op_path(op);
    if op is Remove {
        Err(ApplyError::Unsupported)
    } else if p.len() == 0 {
        Err(ApplyError::EmptyPath)
    } else if p.len() > 1 && !(m.contains_key(p.drop_last()) && m[p.drop_last()] is Folder) {
        Err(ApplyError::MissingParent)
    } else if m.contains_key(p) {
        Err(ApplyError::AlreadyExists)
    } else {
        match op {
            Op::File(_, c) => Ok(m.insert(p, Node::File(c))),
            _ => Ok(m.insert(p, Node::Folder)),
        }
    }
}

/// The store after a stream of instructions, stopping at the first refusal.
pub open spec fn replay(m: Map<Seq<Seq<u8>>, Node>, ops: Seq<Op>) -> Result<
    Map<Seq<Seq<u8>>, Node>,
    ApplyError,
>
    decreases ops.len(),
{
    if ops.len() == 0 {
        Ok(m)
    } else {
        match replay(m, ops.drop_last()) {
            Ok(m2) => apply_op(m2, ops.last()),
            Err(e) => Err(e),
        }
    }
}

/// What a stream of creations builds: each path holds what its instruction created.
pub open spec fn layout(ops: Seq<Op>) -> Map<Seq<Seq<u8>>, Node>
    decreases ops.len(),
{
    if ops.len() == 0 {
        Map::empty()
    } else {
        layout(ops.drop_last()).insert(op_path(ops.last()), op_node(ops.last()))
    }
}

pub open spec fn op_node(op: Op) -> Node {
    match op {
        Op::File(_, c) => Node::File(c),
        _ => Node::Folder,
    }
}

/// In a stream with distinct paths, the layout holds exactly the paths of the
/// stream, each with what its instruction created.
pub proof fn lemma_layout(ops: Seq<Op>)
    requires
        distinct_paths(ops),
    ensures
        forall|p: Seq<Seq<u8>>|
            #[trigger] layout(ops).contains_key(p) <==> exists|i: int|
                0 <= i < ops.len() && op_path(ops[i]) == p,
        forall|i: int| 0 <= i < ops.len() ==> layout(ops)[op_path(#[trigger] ops[i])] == op_node(ops[i]),
    decreases ops.len(),
{
    if ops.len() > 0 {
        let d = ops.drop_last();
        assert(distinct_paths(d)) by {
            assert forall|i: int, j: int| 0 <= i < j < d.len() implies op_path(#[trigger] d[i])
                != op_path(#[trigger] d[j]) by {
                assert(d[i] == ops[i] && d[j] == ops[j]);
            }
        }
        lemma_layout(d);
        assert forall|p: Seq<Seq<u8>>| #[trigger] layout(ops).contains_key(p) <==> exists|i: int|
            0 <= i < ops.len() && op_path(ops[i]) == p by {
            if layout(ops).contains_key(p) && p != op_path(ops.last()) {
                let i = choose|i: int| 0 <= i < d.len() && op_path(d[i]) == p;
                assert(ops[i] == d[i]);
            }
            if exists|i: int| 0 <= i < ops.len() && op_path(ops[i]) == p {
                let i = choose|i: int| 0 <= i < ops.len() && op_path(ops[i]) == p;
                if i < d.len() {
                    assert(ops[i] == d[i]);
                }
            }
        }
        assert forall|i: int| 0 <= i < ops.len() implies layout(ops)[op_path(#[trigger] ops[i])]
            == op_node(ops[i]) by {
            if i < d.len() {
                assert(ops[i] == d[i]);
                assert(op_path(ops[i]) != op_path(ops[ops.len() - 1]));
            }
        }
    }
}

/// Dropping the last instruction of a well-formed stream leaves a well-formed stream.
pub proof fn lemma_well_formed_drop_last(ops: Seq<Op>)
    requires
        well_formed_stream(ops),
        ops.len() > 0,
    ensures
        well_formed_stream(ops.drop_last()),
{
    let d = ops.drop_last();
    assert forall|k: int| 0 <= k < d.len() implies #[trigger] ancestors_before(d, k) by {
        assert(ancestors_before(ops, k));
        assert(d[k] == ops[k]);
        assert forall|m: int| 1 <= m < op_path(d[k]).len() implies #[trigger] folder_created(
            d,
            op_path(d[k]).subrange(0, m),
            k,
        ) by {
            assert(folder_created(ops, op_path(ops[k]).subrange(0, m), k));
            let j = choose|j: int| 0 <= j < k && ops[j] == Op::Folder(op_path(ops[k]).subrange(0, m));
            assert(d[j] == ops[j]);
        }
    }
    assert forall|i: int, j: int| 0 <= i < j < d.len() implies op_path(#[trigger] d[i]) != op_path(
        #[trigger] d[j],
    ) by {
        assert(d[i] == ops[i] && d[j] == ops[j]);
    }
    assert forall|k: int| 0 <= k < d.len() implies op_path(#[trigger] d[k]).len() > 0 by {
        assert(d[k] == ops[k]);
    }
    assert forall|k: int| 0 <= k < d.len() implies !(#[trigger] d[k] is Remove) by {
        assert(d[k] == ops[k]);
    }
}

/// Replaying a well-formed stream of creations on an empty store never fails,
/// and builds exactly its layout: every path of the stream, each holding what
/// its instruction created, and nothing else.
pub proof fn lemma_replay_layout(ops: Seq<Op>)
    requires
        well_formed_stream(ops),
    ensures
        replay(Map::empty(), ops) == Ok::<Map<Seq<Seq<u8>>, Node>, ApplyError>(layout(ops)),
    decreases ops.len(),
{
    if ops.len() > 0 {
        let d = ops.drop_last();
        let n = ops.len() - 1;
        let x = ops.last();
        let p = op_path(x);
        lemma_well_formed_drop_last(ops);
        lemma_replay_layout(d);
        lemma_layout(d);
        assert(ops[n] == x);
        assert(p.len() > 0);
        assert(!(x is Remove));
        if p.len() > 1 {
            assert(ancestors_before(ops, n));
            let m = p.len() - 1;
            assert(folder_created(ops, p.subrange(0, m), n));
            let j = choose|j: int| 0 <= j < n && ops[j] == Op::Folder(p.subrange(0, m));
            assert(p.subrange(0, m) =~= p.drop_last());
            assert(d[j] == ops[j]);
            assert(layout(d)[op_path(d[j])] == op_node(d[j]));
        }
        if layout(d).contains_key(p) {
            let i = choose|i: int| 0 <= i < d.len() && op_path(d[i]) == p;
            assert(d[i] == ops[i]);
        }
    }
}

impl VirtualFileSystem {
    pub open spec fn wf(&self) -> bool {
        distinct_entries(self.entries@)
    }

    /// An empty store.
    pub fn new() -> (r: VirtualFileSystem)
        ensures
            r.wf(),
            r@ == Map::<Seq<Seq<u8>>, Node>::empty(),
    {
        VirtualFileSystem { entries: Vec::new() }
    }

    /// The index of the entry that holds `path`, if any.
    fn find(&self, path: &Vec<Vec<u8>>) -> (r: Option<usize>)
        requires
            self.wf(),
        ensures
            r matches Some(i) ==> i < self.entries@.len() && entry_path(self.entries@[i as int])
                == path_view(path@),
            r is None ==> !self@.contains_key(path_view(path@)),
    {
        proof {
            lemma_state_of(self.entries@);
        }
        let mut i: usize = 0;
        while i < self.entries.len()
            invariant
                i <= self.entries@.len(),
                forall|j: int|
                    0 <= j < i ==> entry_path(#[trigger] self.entries@[j]) != path_view(path@),
            decreases self.entries@.len() - i,
        {
            if same_path(&self.entries[i].path, path) {
                return Some(i);
            }
            i = i + 1;
        }
        None
    }

    /// What the store holds at `path`: `None` where nothing is there.
    pub fn get(&self, path: &Vec<Vec<u8>>) -> (r: Option<&EntryKind>)
        requires
            self.wf(),
        ensures
            r is None <==> !self@.contains_key(path_view(path@)),
            r matches Some(k) ==> self@[path_view(path@)] == kind_node(*k),
    {
        proof {
            lemma_state_of(self.entries@);
        }
        match self.find(path) {
            Some(i) => Some(&self.entries[i].kind),
            None => None,
        }
    }

    /// Applies one instruction. A refused instruction leaves the store as it was.
    pub fn apply(&mut self, instruction: &Instruction) -> (r: Result<(), ApplyError>)
        requires
            old(self).wf(),
        ensures
            final(self).wf(),
            match apply_op(old(self)@, instruction@) {
                Ok(m) => r is Ok && final(self)@ == m,
                Err(e) => r == Err::<(), ApplyError>(e) && final(self)@ == old(self)@,
            },
    {
        proof {
            lemma_state_of(self.entries@);
        }
        let ghost op = instruction@;
        let (path, kind) = match instruction {
            Instruction::Remove { .. } => {
                return Err(ApplyError::Unsupported);
            },
            Instruction::CreateFolder { path } => (copy_path(path), EntryKind::Folder),
            Instruction::CreateFile { path, contents } => (
                copy_path(path),
                EntryKind::File(copy_bytes(contents)),
            ),
        };
        assert(path_view(path@) == op_path(op));
        assert(op matches Op::File(_, c) ==> kind matches EntryKind::File(k) && k@ == c);
        assert(op is Folder ==> kind is Folder);
        if path.len() == 0 {
            return Err(ApplyError::EmptyPath);
        }
        if path.len() > 1 {
            let mut parent = copy_path(&path);
            parent.pop();
            assert(path_view(parent@) =~= op_path(op).drop_last());
            match self.find(&parent) {
                None => {
                    return Err(ApplyError::MissingParent);
                },
                Some(i) => {
                    let is_folder = match self.entries[i].kind {
                        EntryKind::Folder => true,
                        _ => false,
                    };
                    if !is_folder {
                        assert(self@[op_path(op).drop_last()] == entry_node(self.entries@[i as int]));
                        return Err(ApplyError::MissingParent);
                    }
                },
            }
        }
        match self.find(&path) {
            Some(i) => {
                return Err(ApplyError::AlreadyExists);
            },
            None => {},
        }
        let ghost before = self.entries@;
        let e = Entry { path, kind };
        self.entries.push(e);
        proof {
            assert(self.entries@.drop_last() =~= before);
            assert forall|i: int, j: int| 0 <= i < j < self.entries@.len() implies entry_path(
                #[trigger] self.entries@[i],
            ) != entry_path(#[trigger] self.entries@[j]) by {
                assert(self.entries@[i] == before[i]);
                if j < before.len() {
                    assert(self.entries@[j] == before[j]);
                }
            }
        }
        Ok(())
    }

    /// Every path of this store is in `other` and holds the same there.
    fn covered_by(&self, other: &VirtualFileSystem) -> (r: bool)
        requires
            self.wf(),
            other.wf(),
        ensures
            r == (forall|p: Seq<Seq<u8>>|
                #[trigger] self@.contains_key(p) ==> other@.contains_key(p) && other@[p]
                    == self@[p]),
    {
        proof {
            lemma_state_of(self.entries@);
            lemma_state_of(other.entries@);
        }
        let mut i: usize = 0;
        while i < self.entries.len()
            invariant
                self.wf(),
                other.wf(),
                i <= self.entries@.len(),
                forall|k: int|
                    0 <= k < i ==> other@.contains_key(entry_path(#[trigger] self.entries@[k]))
                        && other@[entry_path(self.entries@[k])] == entry_node(self.entries@[k]),
            decreases self.entries@.len() - i,
        {
            proof {
                lemma_state_of(self.entries@);
                lemma_state_of(other.entries@);
            }
            let e = &self.entries[i];
            assert(*e == self.entries@[i as int]);
            match other.find(&e.path) {
                None => {
                    assert(self@.contains_key(entry_path(*e)));
                    return false;
                },
                Some(j) => {
                    if !same_kind(&e.kind, &other.entries[j].kind) {
                        assert(self@.contains_key(entry_path(*e)));
                        assert(self@[entry_path(*e)] == entry_node(*e));
                        assert(other@[entry_path(*e)] == entry_node(other.entries@[j as int]));
                        return false;
                    }
                    assert(other@[entry_path(*e)] == entry_node(other.entries@[j as int]));
                },
            }
            i = i + 1;
        }
        assert forall|p: Seq<Seq<u8>>| #[trigger] self@.contains_key(p) implies other@.contains_key(
            p,
        ) && other@[p] == self@[p] by {
            let k = choose|k: int| 0 <= k < self.entries@.len() && entry_path(self.entries@[k]) == p;
            assert(self@[entry_path(self.entries@[k])] == entry_node(self.entries@[k]));
        }
        true
    }

    /// Whether two stores hold the same paths with the same contents, whatever
    /// the order in which they were built.
    pub fn same_state(&self, other: &VirtualFileSystem) -> (r: bool)
        requires
            self.wf(),
            other.wf(),
        ensures
            r == (self@ == other@),
    {
        let a = self.covered_by(other);
        let b = other.covered_by(self);
        if a && b {
            assert(self@ =~= other@);
        }
        a && b
    }

    /// Applies a stream of instructions in order, stopping at the first refusal.
    pub fn apply_all(&mut self, instructions: &Vec<Instruction>) -> (r: Result<(), ApplyError>)
        requires
            old(self).wf(),
        ensures
            final(self).wf(),
            match replay(old(self)@, ops_of(instructions@)) {
                Ok(m) => r is Ok && final(self)@ == m,
                Err(e) => r == Err::<(), ApplyError>(e),
            },
    {
        let ghost start = self@;
        let ghost ops = ops_of(instructions@);
        let mut i: usize = 0;
        assert(ops.subrange(0, 0) =~= Seq::<Op>::empty());
        while i < instructions.len()
            invariant
                i <= instructions@.len(),
                ops == ops_of(instructions@),
                start == old(self)@,
                self.wf(),
                replay(start, ops.subrange(0, i as int)) == Ok::<
                    Map<Seq<Seq<u8>>, Node>,
                    ApplyError,
                >(self@),
            decreases instructions@.len() - i,
        {
            let ghost t = ops.subrange(0, i + 1);
            assert(t.drop_last() =~= ops.subrange(0, i as int));
            assert(t.last() == instructions@[i as int]@);
            match self.apply(&instructions[i]) {
                Ok(()) => {},
                Err(e) => {
                    proof {
                        assert(replay(start, t) == Err::<Map<Seq<Seq<u8>>, Node>, ApplyError>(e));
                        lemma_replay_stops(start, ops, i + 1);
                    }
                    return Err(e);
                },
            }
            i = i + 1;
        }
        assert(ops.subrange(0, ops.len() as int) =~= ops);
        Ok(())
    }

    /// Compiles the tree under `root` and applies the stream to a fresh store.
    /// Succeeds exactly when the tree compiles, and the store then holds the
    /// layout of the compiled stream.
    pub fn from_tree(root: &InstanceNode) -> (r: Result<VirtualFileSystem, CompileError>)
        ensures
            r is Ok <==> compiles(*root),
            r matches Ok(v) ==> v.wf() && v@ == layout(compile_spec(*root)),
    {
        let instructions = match compile(root) {
            Ok(v) => v,
            Err(e) => {
                return Err(e);
            },
        };
        let mut vfs = VirtualFileSystem::new();
        proof {
            lemma_replay_layout(ops_of(instructions@));
        }
        // A compiled stream is never refused by a fresh store (see lemma_replay_layout).
        let _ = vfs.apply_all(&instructions);
        Ok(vfs)
    }
}

/// A consumer of an instruction stream: a store that applies one instruction at a time.
pub trait InstructionReader {
    /// The consumer's own well-formedness, kept by every application.
    spec fn ready(&self) -> bool;

    /// The store the consumer has built: what each path holds.
    spec fn store(&self) -> Map<Seq<Seq<u8>>, Node>;

    /// Applies one instruction: creates the folder or file, with its contents
    /// byte for byte, where the parent folder exists and the path is free; fails
    /// visibly, leaving the store as it was, on a missing parent, a taken path,
    /// an empty path or a kind that the consumer does not implement.
    fn read_instruction(&mut self, instruction: &Instruction) -> (r: Result<(), ApplyError>)
        requires
            old(self).ready(),
        ensures
            final(self).ready(),
            match apply_op(old(self).store(), instruction@) {
                Ok(m) => r is Ok && final(self).store() == m,
                Err(e) => r == Err::<(), ApplyError>(e) && final(self).store() == old(self).store(),
            },
    ;
}

impl InstructionReader for VirtualFileSystem {
    open spec fn ready(&self) -> bool {
        self.wf()
    }

    open spec fn store(&self) -> Map<Seq<Seq<u8>>, Node> {
        self@
    }

    fn read_instruction(&mut self, instruction: &Instruction) -> (r: Result<(), ApplyError>) {
        self.apply(instruction)
    }
}

/// Why handing a tree to a consumer failed.
#[derive(Debug, PartialEq, Eq)]
pub enum ProcessError {
    Compile(CompileError),
    Apply(ApplyError),
}

/// Compiles the tree under `root` and hands its instructions to `reader`, one
/// at a time and in order, stopping at the first refusal. A tree that does not
/// compile reaches the reader not at all; otherwise the reader's store ends as
/// the replay of the compiled stream on its first store, and a refusal is the
/// one that replay meets first.
pub fn process_instructions<R: InstructionReader>(root: &InstanceNode, reader: &mut R) -> (r:
    Result<(), ProcessError>)
    requires
        old(reader).ready(),
    ensures
        final(reader).ready(),
        r matches Err(ProcessError::Compile(_)) <==> !compiles(*root),
        !compiles(*root) ==> *final(reader) == *old(reader),
        compiles(*root) && compile_spec(*root).len() == 0 ==> r is Ok,
        r is Ok ==> replay(old(reader).store(), compile_spec(*root)) == Ok::<
            Map<Seq<Seq<u8>>, Node>,
            ApplyError,
        >(final(reader).store()),
        r matches Err(ProcessError::Apply(e)) ==> replay(old(reader).store(), compile_spec(*root))
            == Err::<Map<Seq<Seq<u8>>, Node>, ApplyError>(e),
{
    let instructions = match compile(root) {
        Ok(v) => v,
        Err(e) => {
            return Err(ProcessError::Compile(e));
        },
    };
    let ghost start = reader.store();
    let ghost ops = ops_of(instructions@);
    let mut i: usize = 0;
    assert(ops.subrange(0, 0) =~= Seq::<Op>::empty());
    while i < instructions.len()
        invariant
            i <= instructions@.len(),
            reader.ready(),
            compiles(*root),
            ops == ops_of(instructions@),
            ops == compile_spec(*root),
            start == old(reader).store(),
            replay(start, ops.subrange(0, i as int)) == Ok::<Map<Seq<Seq<u8>>, Node>, ApplyError>(
                reader.store(),
            ),
        decreases instructions@.len() - i,
    {
        let ghost t = ops.subrange(0, i + 1);
        assert(t.drop_last() =~= ops.subrange(0, i as int));
        assert(t.last() == instructions@[i as int]@);
        match reader.read_instruction(&instructions[i]) {
            Ok(()) => {},
            Err(e) => {
                proof {
                    assert(replay(start, t) == Err::<Map<Seq<Seq<u8>>, Node>, ApplyError>(e));
                    lemma_replay_stops(start, ops, i + 1);
                }
                return Err(ProcessError::Apply(e));
            },
        }
        i = i + 1;
    }
    assert(ops.subrange(0, ops.len() as int) =~= ops);
    Ok(())
}

/// Compiles the tree under `root`, applies its stream to a fresh store and
/// compares the result with a recorded store. Fails exactly when the tree
/// does not compile; otherwise tells whether the rebuilt store equals the record.
pub fn check_fixture(root: &InstanceNode, fixture: &VirtualFileSystem) -> (r: Result<bool, CompileError>)
    requires
        fixture.wf(),
    ensures
        r is Ok <==> compiles(*root),
        r matches Ok(b) ==> b == (layout(compile_spec(*root)) == fixture@),
{
    let vfs = VirtualFileSystem::from_tree(root)?;
    Ok(vfs.same_state(fixture))
}

/// A refusal inside a stream is the refusal of the whole stream.
pub proof fn lemma_replay_stops(m: Map<Seq<Seq<u8>>, Node>, ops: Seq<Op>, n: int)
    requires
        0 <= n <= ops.len(),
        replay(m, ops.subrange(0, n)) is Err,
    ensures
        replay(m, ops) == replay(m, ops.subrange(0, n)),
    decreases ops.len() - n,
{
    if n < ops.len() {
        let t = ops.subrange(0, n + 1);
        assert(t.drop_last() =~= ops.subrange(0, n));
        lemma_replay_stops(m, ops, n + 1);
    } else {
        assert(ops.subrange(0, n) =~= ops);
    }
}

} // verus!
