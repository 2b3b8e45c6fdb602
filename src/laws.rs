use vstd::prelude::*;
use crate::compiler::{node_fault, children_fault, subtree_encodable, all_encodable, node_encodable, effective_rule, compile_outcome, CompileError, node_ops, children_ops, compile_spec, compiles, established, well_formed_stream, name_segment, init_segment, lemma_established_push, lemma_established_folder, lemma_push_parents_first};
use crate::instruction::{wf_path, Instruction, ops_of, Op, op_path, parents_first, valid_paths, creations_only, folder_created};
use crate::rules::{lemma_suffix_clean, suffix_of, payload_of};
use crate::tree::InstanceNode;
use crate::encode::{lemma_suffixed_segment, is_reserved_segment};
use vstd::utf8::encode_utf8;
use crate::vfs::{replay, layout, lemma_replay_layout, Node, ApplyError};

verus! {

broadcast use vstd::std_specs::vec::group_vec_axioms;

/// The shape invariants of a stream that contains no collision check:
/// ancestors first, non-empty paths, creations only.
pub open spec fn ordered_creations(s: Seq<Op>) -> bool {
    parents_first(s) && valid_paths(s) && creations_only(s)
}

proof fn lemma_push_creation(s: Seq<Op>, x: Op, p: Seq<Seq<u8>>)
    requires
        ordered_creations(s),
        established(s, p),
        op_path(x).len() > 0,
        op_path(x).drop_last() == p,
        wf_path(op_path(x)),
        !(x is Remove),
    ensures
        ordered_creations(s.push(x)),
        established(s.push(x), p),
{
    lemma_push_parents_first(s, x);
    lemma_established_push(s, x, p);
    let t = s.push(x);
    assert forall|k: int| 0 <= k < t.len() implies op_path(#[trigger] t[k]).len() > 0 && wf_path(
        op_path(t[k]),
    ) && !(t[k] is Remove) by {
        if k < s.len() {
            assert(t[k] == s[k]);
        }
    }
}

proof fn lemma_established_within(s: Seq<Op>, p: Seq<Seq<u8>>, h: Seq<Seq<u8>>)
    requires
        established(s, h),
        h.len() == p.len() + 1,
        h.drop_last() == p,
    ensures
        established(s, p),
{
    assert forall|m: int| 1 <= m <= p.len() implies #[trigger] folder_created(
        s,
        p.subrange(0, m),
        s.len() as int,
    ) by {
        assert(p.subrange(0, m) =~= h.subrange(0, m));
        assert(folder_created(s, h.subrange(0, m), s.len() as int));
    }
}

proof fn lemma_node_order(node: InstanceNode, p: Seq<Seq<u8>>, s: Seq<Op>)
    requires
        ordered_creations(s),
        established(s, p),
        wf_path(p),
    ensures
        ordered_creations(s + node_ops(node, p)),
        established(s + node_ops(node, p), p),
    decreases node,
{
    match effective_rule(node) {
        None => {
            assert(s + node_ops(node, p) =~= s);
        },
        Some(rule) => {
            let here = p.push(name_segment(node));
            let content = payload_of(rule, node).unwrap();
            assert(here.drop_last() =~= p);
            lemma_suffix_clean(rule);
            crate::encode::lemma_escape_wf(encode_utf8(node.name@));
            assert(wf_path(here)) by {
                assert(here[here.len() - 1] == name_segment(node));
            }
            if !(rule is Folder) && node.children.len() == 0 {
                let x = Op::File(p.push(name_segment(node) + suffix_of(rule)), content);
                lemma_suffixed_segment(name_segment(node), suffix_of(rule));
                assert(wf_path(op_path(x))) by {
                    assert(op_path(x)[p.len() as int] == name_segment(node) + suffix_of(rule));
                }
                assert(op_path(x).drop_last() =~= p);
                assert(s + node_ops(node, p) =~= s.push(x));
                lemma_push_creation(s, x, p);
            } else {
                let s1 = s.push(Op::Folder(here));
                lemma_push_creation(s, Op::Folder(here), p);
                lemma_established_folder(s, here);
                let s2 = if rule is Folder {
                    s1
                } else {
                    let f = Op::File(here.push(init_segment(rule)), content);
                    assert(op_path(f).drop_last() =~= here);
                    assert(!is_reserved_segment(init_segment(rule))) by {
                        assert(init_segment(rule)[0] == 105u8);
                    }
                    assert(wf_path(op_path(f))) by {
                        assert(op_path(f)[here.len() as int] == init_segment(rule));
                    }
                    lemma_push_creation(s1, f, here);
                    lemma_established_push(s1, f, p);
                    s1.push(f)
                };
                assert(s + node_ops(node, p) =~= s2 + children_ops(node.children@, here));
                assert(decreases_to!(node => node.children@));
                lemma_children_order(node.children@, here, s2);
                lemma_established_within(s2 + children_ops(node.children@, here), p, here);
            }
        },
    }
}

proof fn lemma_children_order(cs: Seq<InstanceNode>, p: Seq<Seq<u8>>, s: Seq<Op>)
    requires
        ordered_creations(s),
        established(s, p),
        wf_path(p),
    ensures
        ordered_creations(s + children_ops(cs, p)),
        established(s + children_ops(cs, p), p),
    decreases cs,
{
    if cs.len() == 0 {
        assert(s + children_ops(cs, p) =~= s);
    } else {
        let c = cs.subrange(0, cs.len() - 1);
        lemma_children_order(c, p, s);
        lemma_node_order(cs[cs.len() - 1], p, s + children_ops(c, p));
        assert(s + children_ops(cs, p) =~= (s + children_ops(c, p)) + node_ops(
            cs[cs.len() - 1],
            p,
        ));
    }
}

/// Every instruction of a compiled stream comes after the creation of each
/// folder that contains its path, whatever the tree; every path is non-empty,
/// made of segments without separators, empty names or traversals, and the
/// stream only creates.
pub proof fn lemma_compile_parents_first(root: InstanceNode)
    ensures
        parents_first(compile_spec(root)),
        valid_paths(compile_spec(root)),
        creations_only(compile_spec(root)),
{
    let e = Seq::<Op>::empty();
    lemma_children_order(root.children@, Seq::empty(), e);
    assert(e + compile_spec(root) =~= compile_spec(root));
}

/// Applying the stream of a tree that compiles to an empty store never fails,
/// and leaves each compiled path holding exactly what its instruction created.
pub proof fn lemma_round_trip(root: InstanceNode)
    requires
        compiles(root),
    ensures
        replay(Map::empty(), compile_spec(root)) == Ok::<Map<Seq<Seq<u8>>, Node>, ApplyError>(
            layout(compile_spec(root)),
        ),
{
    lemma_compile_parents_first(root);
    assert(well_formed_stream(compile_spec(root)));
    lemma_replay_layout(compile_spec(root));
}

/// Two compilations of one tree agree: both succeed or both fail, and on
/// success they hand out the same instructions in the same order.
pub proof fn lemma_compile_deterministic(
    root: InstanceNode,
    r1: Result<Vec<Instruction>, CompileError>,
    r2: Result<Vec<Instruction>, CompileError>,
)
    requires
        compile_outcome(root, r1),
        compile_outcome(root, r2),
    ensures
        r1 is Ok <==> r2 is Ok,
        r1 matches Ok(v1) ==> (r2 matches Ok(v2) ==> ops_of(v1@) == ops_of(v2@)),
{
}

proof fn lemma_node_fault(node: InstanceNode, p: Seq<Seq<u8>>)
    ensures
        node_fault(node, p) is Some ==> !subtree_encodable(node),
    decreases node,
{
    if node_encodable(node) {
        let here = p.push(crate::compiler::name_segment(node));
        assert(decreases_to!(node => node.children@));
        lemma_children_fault(node.children@, here);
    }
}

proof fn lemma_children_fault(cs: Seq<InstanceNode>, p: Seq<Seq<u8>>)
    ensures
        children_fault(cs, p) is Some ==> !all_encodable(cs),
    decreases cs,
{
    if cs.len() > 0 {
        lemma_children_fault(cs.subrange(0, cs.len() - 1), p);
        lemma_node_fault(cs[cs.len() - 1], p);
    }
}

/// A tree in which the pre-order walk meets a node that cannot be compiled (a
/// childless node of an unregistered class, or a node without the property its
/// class needs) does not compile: `compile` fails, and `process_instructions`
/// hands nothing to its consumer.
pub proof fn lemma_fault_stops_compilation(root: InstanceNode)
    requires
        children_fault(root.children@, Seq::empty()) is Some,
    ensures
        !compiles(root),
{
    lemma_children_fault(root.children@, Seq::empty());
}

} // verus!
