use vstd::prelude::*;
use vstd::utf8::encode_utf8;
use crate::encode::{escape_segment, escape_name, lemma_suffixed_segment};
use crate::instruction::{Op, Instruction, ops_of, op_path, path_view, distinct_paths, parents_first, ancestors_before, folder_created, valid_paths, wf_path, creations_only, extend_path, same_path};
use crate::rules::{init_name, lemma_suffix_clean, Rule, rule_of, rule_for, payload_of, suffix_of, encode_payload, push_suffix, push_bytes};
use crate::tree::InstanceNode;

verus! {

broadcast use vstd::std_specs::vec::group_vec_axioms;

/// The segment under which a node's container, or its leaf without suffix, stands.
pub open spec fn name_segment(node: InstanceNode) -> Seq<u8> {
    escape_segment(encode_utf8(node.name@))
}

/// The segment of the file that holds the content of a container node.
pub open spec fn init_segment(rule: Rule) -> Seq<u8> {
    init_name() + suffix_of(rule)
}

/// The rule a node is laid out by: its class's registered rule; failing that,
/// a node with children is a plain folder. A childless node of an unregistered
/// class has none.
pub open spec fn effective_rule(node: InstanceNode) -> Option<Rule> {
    match rule_of(node.class_name@) {
        Some(rule) => Some(rule),
        None => if node.children.len() > 0 {
            Some(Rule::Folder)
        } else {
            None
        },
    }
}

/// A node can be compiled by itself: it has a rule, and that rule finds the
/// node's content.
pub open spec fn node_encodable(node: InstanceNode) -> bool {
    match effective_rule(node) {
        Some(rule) => payload_of(rule, node) is Some,
        None => false,
    }
}

/// The instructions for `node` below the container at `parent`, in pre-order.
pub open spec fn node_ops(node: InstanceNode, parent: Seq<Seq<u8>>) -> Seq<Op>
    decreases node,
{
    match effective_rule(node) {
        None => Seq::empty(),
        Some(rule) => {
            let here = parent.push(name_segment(node));
            let content = payload_of(rule, node).unwrap();
            if rule is Folder {
                seq![Op::Folder(here)] + children_ops(node.children@, here)
            } else if node.children.len() == 0 {
                seq![Op::File(parent.push(name_segment(node) + suffix_of(rule)), content)]
            } else {
                seq![Op::Folder(here), Op::File(here.push(init_segment(rule)), content)]
                    + children_ops(node.children@, here)
            }
        },
    }
}

/// The instructions for a run of sibling nodes, one after another.
pub open spec fn children_ops(cs: Seq<InstanceNode>, parent: Seq<Seq<u8>>) -> Seq<Op>
    decreases cs,
{
    if cs.len() == 0 {
        Seq::empty()
    } else {
        children_ops(cs.subrange(0, cs.len() - 1), parent) + node_ops(cs[cs.len() - 1], parent)
    }
}

/// Every node of the subtree can be compiled by itself.
pub open spec fn subtree_encodable(node: InstanceNode) -> bool
    decreases node,
{
    node_encodable(node) && all_encodable(node.children@)
}

pub open spec fn all_encodable(cs: Seq<InstanceNode>) -> bool
    decreases cs,
{
    cs.len() > 0 ==> all_encodable(cs.subrange(0, cs.len() - 1)) && subtree_encodable(
        cs[cs.len() - 1],
    )
}

/// Every node of the subtree has a rule: a registered class, or children.
pub open spec fn subtree_known(node: InstanceNode) -> bool
    decreases node,
{
    effective_rule(node) is Some && all_known(node.children@)
}

pub open spec fn all_known(cs: Seq<InstanceNode>) -> bool
    decreases cs,
{
    cs.len() > 0 ==> all_known(cs.subrange(0, cs.len() - 1)) && subtree_known(cs[cs.len() - 1])
}

/// Why a node cannot be compiled, with the node's path.
pub enum Fault {
    UnknownClass(Seq<Seq<u8>>),
    MissingProperty(Seq<Seq<u8>>),
}

/// The first fault in the pre-order walk of the subtree of `node`, below `parent`.
pub open spec fn node_fault(node: InstanceNode, parent: Seq<Seq<u8>>) -> Option<Fault>
    decreases node,
{
    let here = parent.push(name_segment(node));
    match effective_rule(node) {
        None => Some(Fault::UnknownClass(here)),
        Some(rule) => if payload_of(rule, node) is None {
            Some(Fault::MissingProperty(here))
        } else {
            children_fault(node.children@, here)
        },
    }
}

/// The first fault in the pre-order walk of a run of siblings.
pub open spec fn children_fault(cs: Seq<InstanceNode>, parent: Seq<Seq<u8>>) -> Option<Fault>
    decreases cs,
{
    if cs.len() == 0 {
        None
    } else {
        match children_fault(cs.subrange(0, cs.len() - 1), parent) {
            Some(f) => Some(f),
            None => node_fault(cs[cs.len() - 1], parent),
        }
    }
}

/// Two instructions of `s` target the path `p`.
pub open spec fn repeats_path(s: Seq<Op>, p: Seq<Seq<u8>>) -> bool {
    exists|i: int, j: int| 0 <= i < j < s.len() && op_path(s[i]) == p && op_path(s[j]) == p
}

/// The instruction stream for the tree under `root`. The root stands for the
/// target root itself: only its descendants are created.
pub open spec fn compile_spec(root: InstanceNode) -> Seq<Op> {
    children_ops(root.children@, Seq::empty())
}

/// The tree under `root` compiles: every node has a rule and content, and no
/// two nodes map to the same path.
pub open spec fn compiles(root: InstanceNode) -> bool {
    all_encodable(root.children@) && distinct_paths(compile_spec(root))
}


/// Why a tree could not be compiled. Each carries the path of the offending node.
#[derive(Debug, PartialEq, Eq)]
pub enum CompileError {
    /// The node has no children and its class tag has no registered rule.
    UnknownClass { path: Vec<Vec<u8>> },
    /// The node's class needs a property that the node does not have.
    MissingProperty { path: Vec<Vec<u8>> },
    /// The node maps to a path that an earlier instruction of the run already targets.
    PathCollision { path: Vec<Vec<u8>> },
}

/// The invariants of an instruction stream under construction.
pub open spec fn well_formed_stream(s: Seq<Op>) -> bool {
    &&& parents_first(s)
    &&& distinct_paths(s)
    &&& valid_paths(s)
    &&& creations_only(s)
}

/// Each non-empty prefix of `p` is a folder created in `s`.
pub open spec fn established(s: Seq<Op>, p: Seq<Seq<u8>>) -> bool {
    forall|m: int| 1 <= m <= p.len() ==> #[trigger] folder_created(s, p.subrange(0, m), s.len() as int)
}

proof fn lemma_folder_created_push(s: Seq<Op>, x: Op, p: Seq<Seq<u8>>, bound: int)
    requires
        folder_created(s, p, bound),
        bound <= s.len(),
    ensures
        folder_created(s.push(x), p, bound),
{
    let j = choose|j: int| 0 <= j < bound && s[j] == Op::Folder(p);
    assert(s.push(x)[j] == s[j]);
}

pub(crate) proof fn lemma_established_push(s: Seq<Op>, x: Op, p: Seq<Seq<u8>>)
    requires
        established(s, p),
    ensures
        established(s.push(x), p),
{
    let t = s.push(x);
    assert forall|m: int| 1 <= m <= p.len() implies #[trigger] folder_created(
        t,
        p.subrange(0, m),
        t.len() as int,
    ) by {
        assert(folder_created(s, p.subrange(0, m), s.len() as int));
        lemma_folder_created_push(s, x, p.subrange(0, m), s.len() as int);
    }
}

pub(crate) proof fn lemma_established_folder(s: Seq<Op>, q: Seq<Seq<u8>>)
    requires
        q.len() > 0,
        established(s, q.drop_last()),
    ensures
        established(s.push(Op::Folder(q)), q),
{
    let t = s.push(Op::Folder(q));
    assert forall|m: int| 1 <= m <= q.len() implies #[trigger] folder_created(
        t,
        q.subrange(0, m),
        t.len() as int,
    ) by {
        if m == q.len() {
            assert(q.subrange(0, m) =~= q);
            assert(t[s.len() as int] == Op::Folder(q));
        } else {
            assert(q.subrange(0, m) =~= q.drop_last().subrange(0, m));
            assert(folder_created(s, q.drop_last().subrange(0, m), s.len() as int));
            lemma_folder_created_push(s, Op::Folder(q), q.subrange(0, m), s.len() as int);
        }
    }
}

pub(crate) proof fn lemma_push_parents_first(s: Seq<Op>, x: Op)
    requires
        parents_first(s),
        op_path(x).len() > 0,
        established(s, op_path(x).drop_last()),
    ensures
        parents_first(s.push(x)),
{
    let t = s.push(x);
    assert forall|k: int| 0 <= k < t.len() implies #[trigger] ancestors_before(t, k) by {
        if k < s.len() {
            assert(ancestors_before(s, k));
            assert(t[k] == s[k]);
            assert forall|m: int| 1 <= m < op_path(t[k]).len() implies #[trigger] folder_created(
                t,
                op_path(t[k]).subrange(0, m),
                k,
            ) by {
                assert(folder_created(s, op_path(s[k]).subrange(0, m), k));
                lemma_folder_created_push(s, x, op_path(s[k]).subrange(0, m), k);
            }
        } else {
            let q = op_path(x).drop_last();
            assert(t[k] == x);
            assert forall|m: int| 1 <= m < op_path(t[k]).len() implies #[trigger] folder_created(
                t,
                op_path(t[k]).subrange(0, m),
                k,
            ) by {
                assert(op_path(x).subrange(0, m) =~= q.subrange(0, m));
                assert(folder_created(s, q.subrange(0, m), s.len() as int));
                lemma_folder_created_push(s, x, q.subrange(0, m), s.len() as int);
            }
        }
    }
}

/// The instructions of the first `n` siblings open those of all of them.
proof fn lemma_children_prefix(cs: Seq<InstanceNode>, n: int, p: Seq<Seq<u8>>)
    requires
        0 <= n <= cs.len(),
    ensures
        children_ops(cs.subrange(0, n), p).len() <= children_ops(cs, p).len(),
        children_ops(cs.subrange(0, n), p) == children_ops(cs, p).subrange(
            0,
            children_ops(cs.subrange(0, n), p).len() as int,
        ),
    decreases cs.len(),
{
    if n == cs.len() {
        assert(cs.subrange(0, n) =~= cs);
        assert(children_ops(cs, p).subrange(0, children_ops(cs, p).len() as int) =~= children_ops(
            cs,
            p,
        ));
    } else {
        let c = cs.subrange(0, cs.len() - 1);
        lemma_children_prefix(c, n, p);
        assert(c.subrange(0, n) =~= cs.subrange(0, n));
        let a = children_ops(cs.subrange(0, n), p);
        assert(children_ops(cs, p) == children_ops(c, p) + node_ops(cs[cs.len() - 1], p));
        assert(children_ops(cs, p).subrange(0, a.len() as int) =~= children_ops(c, p).subrange(
            0,
            a.len() as int,
        ));
    }
}

/// A path repeated in a prefix is repeated in the whole stream; a stream
/// with a repeated path has no distinct paths.
proof fn lemma_repeats_prefix(a: Seq<Op>, b: Seq<Op>, p: Seq<Seq<u8>>)
    requires
        repeats_path(a, p),
        a.len() <= b.len(),
        a == b.subrange(0, a.len() as int),
    ensures
        repeats_path(b, p),
        !distinct_paths(b),
{
    let (i, j) = choose|i: int, j: int|
        0 <= i < j < a.len() && op_path(a[i]) == p && op_path(a[j]) == p;
    assert(a[i] == b[i] && a[j] == b[j]);
}

/// A fault found in the first `n` siblings is the first fault of all of them.
proof fn lemma_fault_prefix(cs: Seq<InstanceNode>, n: int, p: Seq<Seq<u8>>)
    requires
        0 <= n <= cs.len(),
        children_fault(cs.subrange(0, n), p) is Some,
    ensures
        children_fault(cs, p) == children_fault(cs.subrange(0, n), p),
    decreases cs.len() - n,
{
    if n < cs.len() {
        let t = cs.subrange(0, n + 1);
        assert(t.subrange(0, t.len() - 1) =~= cs.subrange(0, n));
        lemma_fault_prefix(cs, n + 1, p);
    } else {
        assert(cs.subrange(0, n) =~= cs);
    }
}

proof fn lemma_children_step(cs: Seq<InstanceNode>, k: int, p: Seq<Seq<u8>>)
    requires
        0 <= k < cs.len(),
    ensures
        children_ops(cs.subrange(0, k + 1), p) == children_ops(cs.subrange(0, k), p) + node_ops(
            cs[k],
            p,
        ),
        all_encodable(cs.subrange(0, k + 1)) == (all_encodable(cs.subrange(0, k))
            && subtree_encodable(cs[k])),
        children_fault(cs.subrange(0, k + 1), p) == (match children_fault(cs.subrange(0, k), p) {
            Some(f) => Some(f),
            None => node_fault(cs[k], p),
        }),
{
    let t = cs.subrange(0, k + 1);
    assert(t.subrange(0, t.len() - 1) =~= cs.subrange(0, k));
    assert(t[t.len() - 1] == cs[k]);
}

proof fn lemma_all_known_index(cs: Seq<InstanceNode>, k: int)
    requires
        all_known(cs),
        0 <= k < cs.len(),
    ensures
        subtree_known(cs[k]),
    decreases cs.len(),
{
    if k < cs.len() - 1 {
        let c = cs.subrange(0, cs.len() - 1);
        lemma_all_known_index(c, k);
        assert(c[k] == cs[k]);
    }
}

proof fn lemma_all_encodable_index(cs: Seq<InstanceNode>, k: int)
    requires
        all_encodable(cs),
        0 <= k < cs.len(),
    ensures
        subtree_encodable(cs[k]),
    decreases cs.len(),
{
    if k < cs.len() - 1 {
        let c = cs.subrange(0, cs.len() - 1);
        lemma_all_encodable_index(c, k);
        assert(c[k] == cs[k]);
    }
}

/// Appends `ins` to `out` unless an instruction there already targets its path.
fn emit(out: &mut Vec<Instruction>, ins: Instruction) -> (r: Result<(), CompileError>)
    requires
        well_formed_stream(ops_of(old(out)@)),
        op_path(ins@).len() > 0,
        wf_path(op_path(ins@)),
        !(ins@ is Remove),
        established(ops_of(old(out)@), op_path(ins@).drop_last()),
    ensures
        r is Ok ==> ops_of(final(out)@) == ops_of(old(out)@).push(ins@),
        r is Ok ==> well_formed_stream(ops_of(final(out)@)),
        r is Err ==> !distinct_paths(ops_of(old(out)@).push(ins@)),
        r is Err ==> r matches Err(CompileError::PathCollision { .. }),
        r matches Err(CompileError::PathCollision { path }) ==> repeats_path(
            ops_of(old(out)@).push(ins@),
            path_view(path@),
        ),
{
    let ghost s = ops_of(out@);
    let mut i: usize = 0;
    while i < out.len()
        invariant
            i <= out@.len(),
            s == ops_of(out@),
            forall|j: int| 0 <= j < i ==> op_path(#[trigger] s[j]) != op_path(ins@),
        decreases out@.len() - i,
    {
        if same_path(out[i].path(), ins.path()) {
            let path = crate::instruction::copy_path(ins.path());
            proof {
                let t = s.push(ins@);
                assert(t[i as int] == s[i as int]);
                assert(t[s.len() as int] == ins@);
                assert(op_path(t[i as int]) == op_path(ins@));
            }
            return Err(CompileError::PathCollision { path });
        }
        i = i + 1;
    }
    let ghost x = ins@;
    out.push(ins);
    proof {
        let t = ops_of(out@);
        assert(t =~= s.push(x));
        lemma_push_parents_first(s, x);
        assert forall|a: int, b: int| 0 <= a < b < t.len() implies op_path(#[trigger] t[a])
            != op_path(#[trigger] t[b]) by {
            if b == s.len() {
                assert(t[a] == s[a]);
            } else {
                assert(t[a] == s[a]);
                assert(t[b] == s[b]);
            }
        }
        assert forall|k: int| 0 <= k < t.len() implies op_path(#[trigger] t[k]).len() > 0 && wf_path(
            op_path(t[k]),
        ) && !(t[k] is Remove) by {
            if k < s.len() {
                assert(t[k] == s[k]);
            }
        }
    }
    Ok(())
}


/// Appends the instructions of one node and its subtree, below the container at `parent`.
fn compile_node(node: &InstanceNode, parent: &Vec<Vec<u8>>, out: &mut Vec<Instruction>) -> (r:
    Result<(), CompileError>)
    requires
        well_formed_stream(ops_of(old(out)@)),
        established(ops_of(old(out)@), path_view(parent@)),
        wf_path(path_view(parent@)),
    ensures
        r is Ok ==> ops_of(final(out)@) == ops_of(old(out)@) + node_ops(*node, path_view(parent@)),
        r is Ok ==> subtree_encodable(*node),
        r is Ok ==> well_formed_stream(ops_of(final(out)@)),
        r is Ok ==> established(ops_of(final(out)@), path_view(parent@)),
        r matches Err(CompileError::PathCollision { path }) ==> repeats_path(
            ops_of(old(out)@) + node_ops(*node, path_view(parent@)),
            path_view(path@),
        ),
        r is Err && !(r matches Err(CompileError::PathCollision { .. })) ==> !subtree_encodable(
            *node,
        ),
        r is Ok ==> node_fault(*node, path_view(parent@)) is None,
        r matches Err(CompileError::UnknownClass { path }) ==> node_fault(*node, path_view(parent@))
            == Some(Fault::UnknownClass(path_view(path@))),
        r matches Err(CompileError::MissingProperty { path }) ==> node_fault(
            *node,
            path_view(parent@),
        ) == Some(Fault::MissingProperty(path_view(path@))),
        r matches Err(CompileError::UnknownClass { .. }) ==> !subtree_known(*node),
    decreases node,
{
    let ghost s = ops_of(out@);
    let ghost pv = path_view(parent@);
    let seg = escape_name(node.name.as_str().as_bytes());
    let rule = match rule_for(&node.class_name) {
        Some(r) => r,
        None => {
            if node.children.len() == 0 {
                return Err(CompileError::UnknownClass { path: extend_path(parent, seg) });
            }
            Rule::Folder
        },
    };
    assert(effective_rule(*node) == Some(rule));
    let content = match encode_payload(&rule, node) {
        Some(c) => c,
        None => {
            return Err(CompileError::MissingProperty { path: extend_path(parent, seg) });
        },
    };
    let is_folder = match rule {
        Rule::Folder => true,
        _ => false,
    };
    assert(is_folder == rule is Folder);
    let ghost ops = node_ops(*node, pv);
    if !is_folder && node.children.len() == 0 {
        let mut leaf = seg;
        push_suffix(&mut leaf, &rule);
        proof {
            lemma_suffix_clean(rule);
            lemma_suffixed_segment(seg@, suffix_of(rule));
        }
        let path = extend_path(parent, leaf);
        let ins = Instruction::CreateFile { path, contents: content };
        assert(op_path(ins@).drop_last() =~= pv);
        assert(ops =~= seq![ins@]);
        assert(s + ops =~= s.push(ins@));
        let r = emit(out, ins);
        proof {
            if r is Ok {
                lemma_established_push(s, ins@, pv);
            }
        }
        return r;
    }
    let ghost seg_view = seg@;
    let here = extend_path(parent, seg);
    let ghost hv = path_view(here@);
    assert(wf_path(hv)) by {
        assert(hv[hv.len() - 1] == seg_view);
    }
    let folder = Instruction::CreateFolder { path: crate::instruction::copy_path(&here) };
    assert(op_path(folder@).drop_last() =~= pv);
    match emit(out, folder) {
        Ok(()) => {},
        Err(e) => {
            proof {
                assert(ops[0] == Op::Folder(hv));
                assert(s.push(Op::Folder(hv)) =~= (s + ops).subrange(0, s.len() + 1 as int));
                if let CompileError::PathCollision { path } = &e {
                    lemma_repeats_prefix(s.push(Op::Folder(hv)), s + ops, path_view(path@));
                }
            }
            return Err(e);
        },
    }
    proof {
        lemma_established_push(s, Op::Folder(hv), pv);
        lemma_established_folder(s, hv);
    }
    let ghost head = ops_of(out@);
    if !is_folder {
        let mut init: Vec<u8> = Vec::new();
        push_bytes(&mut init, &[105u8, 110, 105, 116]);
        push_suffix(&mut init, &rule);
        proof {
            lemma_suffix_clean(rule);
            assert(!crate::encode::is_reserved_segment(init@)) by {
                assert(init@[0] == 105u8);
            }
        }
        let file = Instruction::CreateFile { path: extend_path(&here, init), contents: content };
        assert(op_path(file@).drop_last() =~= hv);
        match emit(out, file) {
            Ok(()) => {},
            Err(e) => {
                proof {
                    assert(ops[1] == file@);
                    assert(head.push(file@) =~= (s + ops).subrange(0, s.len() + 2 as int));
                    if let CompileError::PathCollision { path } = &e {
                        lemma_repeats_prefix(head.push(file@), s + ops, path_view(path@));
                    }
                }
                return Err(e);
            },
        }
        proof {
            lemma_established_push(head, file@, pv);
            lemma_established_push(head, file@, hv);
        }
    }
    let ghost mid = ops_of(out@);
    assert(s + ops =~= mid + children_ops(node.children@, hv));
    let r = compile_children(&node.children, &here, out);
    proof {
        if r is Ok {
            assert(ops_of(out@) =~= s + ops);
            assert forall|m: int| 1 <= m <= pv.len() implies #[trigger] folder_created(
                ops_of(out@),
                pv.subrange(0, m),
                ops_of(out@).len() as int,
            ) by {
                assert(pv.subrange(0, m) =~= hv.subrange(0, m));
                assert(folder_created(ops_of(out@), hv.subrange(0, m), ops_of(out@).len() as int));
            }
        }
    }
    r
}

/// Appends the instructions of a run of siblings, in order, below the container at `parent`.
fn compile_children(cs: &Vec<InstanceNode>, parent: &Vec<Vec<u8>>, out: &mut Vec<Instruction>) -> (r:
    Result<(), CompileError>)
    requires
        well_formed_stream(ops_of(old(out)@)),
        established(ops_of(old(out)@), path_view(parent@)),
        wf_path(path_view(parent@)),
    ensures
        r is Ok ==> ops_of(final(out)@) == ops_of(old(out)@) + children_ops(cs@, path_view(parent@)),
        r is Ok ==> all_encodable(cs@),
        r is Ok ==> well_formed_stream(ops_of(final(out)@)),
        r is Ok ==> established(ops_of(final(out)@), path_view(parent@)),
        r matches Err(CompileError::PathCollision { path }) ==> repeats_path(
            ops_of(old(out)@) + children_ops(cs@, path_view(parent@)),
            path_view(path@),
        ),
        r is Err && !(r matches Err(CompileError::PathCollision { .. })) ==> !all_encodable(cs@),
        r is Ok ==> children_fault(cs@, path_view(parent@)) is None,
        r matches Err(CompileError::UnknownClass { path }) ==> children_fault(cs@, path_view(parent@))
            == Some(Fault::UnknownClass(path_view(path@))),
        r matches Err(CompileError::MissingProperty { path }) ==> children_fault(
            cs@,
            path_view(parent@),
        ) == Some(Fault::MissingProperty(path_view(path@))),
        r matches Err(CompileError::UnknownClass { .. }) ==> !all_known(cs@),
    decreases cs,
{
    let ghost start = ops_of(out@);
    let ghost pv = path_view(parent@);
    let mut i: usize = 0;
    assert(cs@.subrange(0, 0) =~= Seq::<InstanceNode>::empty());
    assert(start + children_ops(cs@.subrange(0, 0), pv) =~= start);
    while i < cs.len()
        invariant
            i <= cs@.len(),
            pv == path_view(parent@),
            wf_path(pv),
            start == ops_of(old(out)@),
            ops_of(out@) == start + children_ops(cs@.subrange(0, i as int), pv),
            all_encodable(cs@.subrange(0, i as int)),
            children_fault(cs@.subrange(0, i as int), pv) is None,
            well_formed_stream(ops_of(out@)),
            established(ops_of(out@), pv),
        decreases cs@.len() - i,
    {
        let ghost before = ops_of(out@);
        proof {
            lemma_children_step(cs@, i as int, pv);
        }
        assert(decreases_to!(cs => cs[i as int]));
        match compile_node(&cs[i], parent, out) {
            Ok(()) => {},
            Err(e) => {
                proof {
                    let whole = start + children_ops(cs@, pv);
                    if all_encodable(cs@) {
                        lemma_all_encodable_index(cs@, i as int);
                    }
                    if all_known(cs@) {
                        lemma_all_known_index(cs@, i as int);
                    }
                    if children_fault(cs@.subrange(0, i + 1), pv) is Some {
                        lemma_fault_prefix(cs@, i + 1, pv);
                    }
                    if let CompileError::PathCollision { path } = &e {
                        lemma_children_prefix(cs@, i + 1, pv);
                        let a = before + node_ops(cs@[i as int], pv);
                        assert(a =~= start + children_ops(cs@.subrange(0, i + 1), pv));
                        assert(a =~= whole.subrange(0, a.len() as int));
                        lemma_repeats_prefix(a, whole, path_view(path@));
                    }
                }
                return Err(e);
            },
        }
        i = i + 1;
        assert(ops_of(out@) =~= start + children_ops(cs@.subrange(0, i as int), pv));
    }
    assert(cs@.subrange(0, cs@.len() as int) =~= cs@);
    Ok(())
}

/// What a compilation of `root` returns: success exactly when the tree
/// compiles, and then the tree's stream.
pub open spec fn compile_outcome(root: InstanceNode, r: Result<Vec<Instruction>, CompileError>) -> bool {
    &&& (r is Ok <==> compiles(root))
    &&& (r matches Ok(v) ==> ops_of(v@) == compile_spec(root))
}

/// Compiles the tree under `root` into its instruction stream. The root stands
/// for the target root: the stream creates its descendants, each container
/// before anything inside it, siblings in their order; a node of an
/// unregistered class with children is a plain folder. Fails, handing out no
/// instruction at all, on the first node in pre-order that is childless with
/// an unregistered class or lacks the property its class needs (the error
/// carries that node's path), or on a path that the stream would target twice
/// (the error carries that path).
pub fn compile(root: &InstanceNode) -> (r: Result<Vec<Instruction>, CompileError>)
    ensures
        compile_outcome(*root, r),
        r matches Err(CompileError::PathCollision { path }) ==> repeats_path(
            compile_spec(*root),
            path_view(path@),
        ),
        r matches Err(CompileError::UnknownClass { path }) ==> children_fault(
            root.children@,
            Seq::empty(),
        ) == Some(Fault::UnknownClass(path_view(path@))),
        r matches Err(CompileError::MissingProperty { path }) ==> children_fault(
            root.children@,
            Seq::empty(),
        ) == Some(Fault::MissingProperty(path_view(path@))),
        r is Err && !(r matches Err(CompileError::PathCollision { .. })) ==> !all_encodable(
            root.children@,
        ),
        r matches Err(CompileError::UnknownClass { .. }) ==> !all_known(root.children@),
        r matches Ok(v) ==> parents_first(ops_of(v@)),
        r matches Ok(v) ==> distinct_paths(ops_of(v@)),
        r matches Ok(v) ==> valid_paths(ops_of(v@)),
        r matches Ok(v) ==> creations_only(ops_of(v@)),
{
    let mut out: Vec<Instruction> = Vec::new();
    let parent: Vec<Vec<u8>> = Vec::new();
    assert(ops_of(out@) =~= Seq::<Op>::empty());
    assert(path_view(parent@) =~= Seq::<Seq<u8>>::empty());
    let ghost first = ops_of(out@);
    let res = compile_children(&root.children, &parent, &mut out);
    match res {
        Ok(()) => {
            assert(ops_of(out@) =~= compile_spec(*root));
            Ok(out)
        },
        Err(e) => {
            proof {
                let whole = compile_spec(*root);
                assert(Seq::<Op>::empty() + whole =~= whole);
                if let CompileError::PathCollision { path } = &e {
                    assert(first + whole =~= whole);
                    assert(whole.subrange(0, whole.len() as int) =~= whole);
                    lemma_repeats_prefix(whole, whole, path_view(path@));
                }
            }
            Err(e)
        },
    }
}

} // verus!
