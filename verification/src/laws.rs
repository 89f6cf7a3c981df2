//! Properties of registration and dispatch, stated and proved against the
//! specifications `spec_merge`, `first_satisfied` and `walk`.

use vstd::prelude::*;
use crate::checker::{ArgumentChecker, CheckerEq};
use crate::dispatcher::{
    find_child, first_satisfied, kind_eq, kind_sat, lemma_find_child_none, nodes_wf, spec_merge,
    spec_merge_children, view_wf, walk, CommandNode, DispatcherView, KindView, NodeView,
    RegisterError,
};

verus! {

/// A command whose node tree attaches a handler to the tree's own root (a
/// zero-literal, zero-parser command) is rejected with `ExecutableRoot`, and
/// the arena is left unchanged.
pub proof fn lemma_executable_root_rejected<K: CheckerEq, H>(
    v: DispatcherView<K, H>,
    t: CommandNode<K, H>,
)
    requires
        view_wf(v),
        t.handler is Some,
    ensures
        spec_merge(v.nodes, v.root, t) == (v.nodes, Some(RegisterError::ExecutableRoot)),
{
}

/// Matching commits to the first satisfied sibling in insertion order: when
/// the first child is satisfied, it is taken, whether or not a later sibling
/// would also have been satisfied.
pub proof fn lemma_first_match_commitment<C, K: ArgumentChecker<C>, H>(
    nodes: Seq<NodeView<K, H>>,
    children: Seq<int>,
    ctx: C,
    rem: Seq<u8>,
    rem2: Seq<u8>,
)
    requires
        children.len() > 0,
        kind_sat(nodes[children[0]].kind, ctx, rem) == Some(rem2),
    ensures
        first_satisfied(nodes, children, ctx, rem) == Some((children[0], rem2)),
{
}

/// A found child is one of the candidates.
proof fn lemma_find_child_in<K: CheckerEq, H>(
    nodes: Seq<NodeView<K, H>>,
    children: Seq<int>,
    kind: KindView<K>,
)
    ensures
        match find_child(nodes, children, kind) {
            Some(c) => children.contains(c),
            None => true,
        },
    decreases children.len(),
{
    if children.len() > 0 {
        let rest = children.subrange(1, children.len() as int);
        lemma_find_child_in(nodes, rest, kind);
        if !kind_eq(nodes[children[0]].kind, kind) {
            match find_child(nodes, rest, kind) {
                Some(c) => {
                    let p = choose|p: int| 0 <= p < rest.len() && rest[p] == c;
                    assert(children[p + 1] == c);
                },
                None => {},
            }
        }
    }
}

/// Registration is append-only: merging never removes a node, never changes
/// an existing node's kind, only appends to an existing node's children, and
/// never overwrites a handler already set.
pub proof fn lemma_merge_monotone<K: CheckerEq, H>(
    nodes: Seq<NodeView<K, H>>,
    d: int,
    t: CommandNode<K, H>,
)
    requires
        nodes_wf(nodes),
        0 <= d < nodes.len(),
    ensures
        ({
            let m = spec_merge(nodes, d, t).0;
            &&& nodes_wf(m)
            &&& m.len() >= nodes.len()
            &&& forall|i: int| 0 <= i < nodes.len() ==> (#[trigger] m[i]).kind == nodes[i].kind
            &&& forall|i: int|
                0 <= i < nodes.len() ==> nodes[i].children.len() <= (#[trigger] m[i]).children.len()
            &&& forall|i: int, j: int|
                0 <= i < nodes.len() && 0 <= j < nodes[i].children.len() ==> (#[trigger] m[
                    i
                ].children[j]) == nodes[i].children[j]
            &&& forall|i: int|
                0 <= i < nodes.len() && nodes[i].handler is Some ==> (#[trigger] m[i]).handler
                    == nodes[i].handler
            &&& forall|i: int| 0 <= i < nodes.len() && i < d ==> (#[trigger] m[i]) == nodes[i]
            &&& (t.handler is Some && !(nodes[d].kind is Root) && nodes[d].handler is None)
                ==> m[d].handler == t.handler
        }),
    decreases t, 0int,
{
    if t.handler is Some && nodes[d].kind is Root {
    } else if t.handler is Some && nodes[d].handler is Some {
    } else {
        let nodes1 = if t.handler is Some {
            nodes.update(
                d,
                NodeView { children: nodes[d].children, kind: nodes[d].kind, handler: t.handler },
            )
        } else {
            nodes
        };
        let step2 = match find_child(nodes1, nodes1[d].children, t.kind@) {
            Some(c) => (nodes1, c),
            None => (
                nodes1.update(
                    d,
                    NodeView {
                        children: nodes1[d].children.push(nodes1.len() as int),
                        kind: nodes1[d].kind,
                        handler: nodes1[d].handler,
                    },
                ).push(NodeView { children: Seq::empty(), kind: t.kind@, handler: None }),
                nodes1.len() as int,
            ),
        };
        assert(nodes1.len() == nodes.len());
        assert(nodes_wf(nodes1)) by {
            assert forall|i: int, j: int|
                0 <= i < nodes1.len() && 0 <= j < nodes1[i].children.len() implies i < #[trigger] nodes1[
                i
            ].children[j] < nodes1.len() by {
                assert(nodes1[i].children == nodes[i].children);
            }
        }
        match find_child(nodes1, nodes1[d].children, t.kind@) {
            Some(c) => {
                lemma_find_child_in(nodes1, nodes1[d].children, t.kind@);
                let p = choose|p: int|
                    0 <= p < nodes1[d].children.len() && nodes1[d].children[p] == c;
                assert(d < nodes1[d].children[p] < nodes1.len());
                assert(d < step2.1);
            },
            None => {
                let mid0 = step2.0;
                assert(nodes_wf(mid0)) by {
                    assert forall|i: int, j: int|
                        0 <= i < mid0.len() && 0 <= j < mid0[i].children.len() implies i
                        < #[trigger] mid0[i].children[j] < mid0.len() by {
                        if i == d {
                            if j < nodes1[d].children.len() {
                                assert(mid0[i].children[j] == nodes1[d].children[j]);
                            } else {
                                assert(mid0[i].children[j] == nodes1.len() as int);
                            }
                        } else if i < nodes1.len() {
                            assert(mid0[i].children == nodes1[i].children);
                        } else {
                            assert(mid0[i].children.len() == 0);
                        }
                    }
                }
            },
        }
        lemma_merge_children_monotone(step2.0, step2.1, t.next@);
        let mid = step2.0;
        let m = spec_merge(nodes, d, t).0;
        assert(m == spec_merge_children(mid, step2.1, t.next@).0);
        assert forall|i: int| 0 <= i < nodes.len() implies (#[trigger] m[i]).kind == nodes[i].kind by {
            assert(mid[i].kind == nodes[i].kind);
        }
        assert forall|i: int|
            0 <= i < nodes.len() implies nodes[i].children.len() <= (#[trigger] m[
            i
        ]).children.len() by {
            assert(nodes[i].children.len() <= mid[i].children.len());
        }
        assert forall|i: int, j: int|
            0 <= i < nodes.len() && 0 <= j < nodes[i].children.len() implies (#[trigger] m[
            i
        ].children[j]) == nodes[i].children[j] by {
            assert(mid[i].children[j] == nodes[i].children[j]);
            assert(j < mid[i].children.len());
        }
        assert forall|i: int|
            0 <= i < nodes.len() && nodes[i].handler is Some implies (#[trigger] m[i]).handler
            == nodes[i].handler by {
            assert(mid[i].handler == nodes[i].handler);
        }
        assert(d < step2.1);
        assert forall|i: int| 0 <= i < nodes.len() && i < d implies (#[trigger] m[i]) == nodes[
            i
        ] by {
            assert(mid[i] == nodes1[i]);
        }
        if t.handler is Some && !(nodes[d].kind is Root) && nodes[d].handler is None {
            assert(nodes1[d].handler == t.handler);
            assert(mid[d].handler == t.handler);
            assert(m[d].handler == t.handler);
        }
    }
}

/// `lemma_merge_monotone`, for a sequence of sub-trees.
pub proof fn lemma_merge_children_monotone<K: CheckerEq, H>(
    nodes: Seq<NodeView<K, H>>,
    d: int,
    cs: Seq<CommandNode<K, H>>,
)
    requires
        nodes_wf(nodes),
        0 <= d < nodes.len(),
    ensures
        ({
            let m = spec_merge_children(nodes, d, cs).0;
            &&& nodes_wf(m)
            &&& m.len() >= nodes.len()
            &&& forall|i: int| 0 <= i < nodes.len() ==> (#[trigger] m[i]).kind == nodes[i].kind
            &&& forall|i: int|
                0 <= i < nodes.len() ==> nodes[i].children.len() <= (#[trigger] m[i]).children.len()
            &&& forall|i: int, j: int|
                0 <= i < nodes.len() && 0 <= j < nodes[i].children.len() ==> (#[trigger] m[
                    i
                ].children[j]) == nodes[i].children[j]
            &&& forall|i: int|
                0 <= i < nodes.len() && nodes[i].handler is Some ==> (#[trigger] m[i]).handler
                    == nodes[i].handler
            &&& forall|i: int| 0 <= i < nodes.len() && i < d ==> (#[trigger] m[i]) == nodes[i]
        }),
    decreases cs, 1int,
{
    if cs.len() == 0 {
    } else {
        let first = spec_merge(nodes, d, cs[0]);
        lemma_merge_monotone(nodes, d, cs[0]);
        if first.1 is Some {
        } else {
            lemma_merge_children_monotone(first.0, d, cs.subrange(1, cs.len() as int));
        }
    }
}


/// The position at which `find_child` found its result: the first candidate
/// whose kind equals `kind`.
proof fn lemma_find_child_pos<K: CheckerEq, H>(
    nodes: Seq<NodeView<K, H>>,
    children: Seq<int>,
    kind: KindView<K>,
) -> (p: int)
    requires
        find_child(nodes, children, kind) is Some,
    ensures
        0 <= p < children.len(),
        find_child(nodes, children, kind) == Some(children[p]),
        kind_eq(nodes[children[p]].kind, kind),
        forall|q: int| 0 <= q < p ==> !kind_eq(nodes[#[trigger] children[q]].kind, kind),
    decreases children.len(),
{
    if kind_eq(nodes[children[0]].kind, kind) {
        0
    } else {
        let rest = children.subrange(1, children.len() as int);
        let p0 = lemma_find_child_pos(nodes, rest, kind);
        assert(children[p0 + 1] == rest[p0]);
        assert forall|q: int| 0 <= q < p0 + 1 implies !kind_eq(
            nodes[#[trigger] children[q]].kind,
            kind,
        ) by {
            if q > 0 {
                assert(rest[q - 1] == children[q]);
            }
        }
        p0 + 1
    }
}

/// `find_child` returns the first candidate whose kind equals `kind`.
proof fn lemma_find_child_first<K: CheckerEq, H>(
    nodes: Seq<NodeView<K, H>>,
    children: Seq<int>,
    kind: KindView<K>,
    p: int,
)
    requires
        0 <= p < children.len(),
        kind_eq(nodes[children[p]].kind, kind),
        forall|q: int| 0 <= q < p ==> !kind_eq(nodes[#[trigger] children[q]].kind, kind),
    ensures
        find_child(nodes, children, kind) == Some(children[p]),
    decreases children.len(),
{
    if p == 0 {
    } else {
        let rest = children.subrange(1, children.len() as int);
        assert(rest[p - 1] == children[p]);
        assert forall|q: int| 0 <= q < p - 1 implies !kind_eq(
            nodes[#[trigger] rest[q]].kind,
            kind,
        ) by {
            assert(rest[q] == children[q + 1]);
        }
        lemma_find_child_first(nodes, rest, kind, p - 1);
    }
}

/// Registering the same executable single-literal command twice yields
/// `OverlappingCommands` on the second registration and leaves the arena
/// exactly as the first registration left it, so dispatch still uses the
/// first registration's handler.
pub proof fn lemma_overlap_rejected<K: CheckerEq, H>(v: DispatcherView<K, H>, t: CommandNode<K, H>)
    requires
        view_wf(v),
        t.kind@ is Literal,
        t.handler is None,
        t.next@.len() == 1,
        t.next@[0].handler is Some,
        spec_merge(v.nodes, v.root, t).1 is None,
    ensures
        spec_merge(spec_merge(v.nodes, v.root, t).0, v.root, t) == (
            spec_merge(v.nodes, v.root, t).0,
            Some(RegisterError::OverlappingCommands),
        ),
{
    let r = v.root;
    let nodes = v.nodes;
    let ch0 = nodes[r].children;
    let lk = t.kind@;
    let leaf = t.next@[0];
    let fc = find_child(nodes, ch0, lk);
    let (nodes2, f1, p): (Seq<NodeView<K, H>>, int, int) = match fc {
        Some(c) => {
            let p = lemma_find_child_pos(nodes, ch0, lk);
            assert(r < ch0[p] < nodes.len());
            (nodes, c, p)
        },
        None => {
            lemma_find_child_none(nodes, ch0, lk);
            let n2 = nodes.update(
                r,
                NodeView {
                    children: ch0.push(nodes.len() as int),
                    kind: nodes[r].kind,
                    handler: nodes[r].handler,
                },
            ).push(NodeView { children: Seq::empty(), kind: lk, handler: None });
            assert forall|q: int| 0 <= q < ch0.len() implies n2[#[trigger] ch0[q]].kind == nodes[
                ch0[q]
            ].kind by {
                assert(r < ch0[q] < nodes.len());
            }
            (n2, nodes.len() as int, ch0.len() as int)
        },
    };
    assert(r < f1 < nodes2.len());
    assert(nodes2[f1].kind == lk);
    assert(nodes2[r].children[p] == f1);
    assert(forall|q: int|
        0 <= q < p ==> !kind_eq(nodes2[#[trigger] nodes2[r].children[q]].kind, lk));
    assert(nodes_wf(nodes2)) by {
        if fc is None {
            assert forall|i: int, j: int|
                0 <= i < nodes2.len() && 0 <= j < nodes2[i].children.len() implies i
                < #[trigger] nodes2[i].children[j] < nodes2.len() by {
                if i == r {
                    if j < ch0.len() {
                        assert(nodes2[i].children[j] == ch0[j]);
                    } else {
                        assert(nodes2[i].children[j] == nodes.len() as int);
                    }
                } else if i < nodes.len() {
                    assert(nodes2[i].children == nodes[i].children);
                } else {
                    assert(nodes2[i].children.len() == 0);
                }
            }
        }
    }
    // the merge of `t` is the merge of its single sub-tree under `f1`
    assert(spec_merge(nodes, r, t) == spec_merge_children(nodes2, f1, t.next@));
    let first = spec_merge(nodes2, f1, leaf);
    assert(t.next@.subrange(1, 1) =~= Seq::<CommandNode<K, H>>::empty());
    assert(first.1 is None);
    let n1 = first.0;
    assert(t.next@.subrange(1, 1).len() == 0);
    assert(spec_merge_children(n1, f1, t.next@.subrange(1, 1)) == (n1, None::<RegisterError>));
    assert(spec_merge_children(nodes2, f1, t.next@) == (n1, None::<RegisterError>));
    assert(spec_merge(nodes, r, t).0 == n1);
    // the first registration set the handler on `f1`
    assert(!(nodes2[f1].kind is Root));
    assert(nodes2[f1].handler is None);
    lemma_merge_monotone(nodes2, f1, leaf);
    assert(n1[f1].handler == leaf.handler);
    assert(n1[r] == nodes2[r]);
    // the second registration finds `f1` again and is rejected on its leaf
    assert forall|q: int| 0 <= q < p implies !kind_eq(
        n1[#[trigger] n1[r].children[q]].kind,
        lk,
    ) by {
        assert(r < n1[r].children[q] < nodes2.len());
        assert(n1[n1[r].children[q]].kind == nodes2[nodes2[r].children[q]].kind);
    }
    assert(kind_eq(n1[n1[r].children[p]].kind, lk));
    lemma_find_child_first(n1, n1[r].children, lk, p);
    assert(find_child(n1, n1[r].children, lk) == Some(f1));
    let second = spec_merge(n1, f1, leaf);
    assert(second == (n1, Some(RegisterError::OverlappingCommands)));
    assert(spec_merge(n1, r, t) == spec_merge_children(n1, f1, t.next@));
    assert(spec_merge_children(n1, f1, t.next@) == (n1, Some(RegisterError::OverlappingCommands)));
}


/// When no candidate is satisfied, matching fails.
proof fn lemma_no_match_fails<C, K: ArgumentChecker<C>, H>(
    nodes: Seq<NodeView<K, H>>,
    children: Seq<int>,
    ctx: C,
    rem: Seq<u8>,
)
    requires
        forall|j: int|
            0 <= j < children.len() ==> kind_sat(
                nodes[#[trigger] children[j]].kind,
                ctx,
                rem,
            ) is None,
    ensures
        first_satisfied(nodes, children, ctx, rem) is None,
    decreases children.len(),
{
    if children.len() > 0 {
        let rest = children.subrange(1, children.len() as int);
        assert forall|j: int| 0 <= j < rest.len() implies kind_sat(
            nodes[#[trigger] rest[j]].kind,
            ctx,
            rem,
        ) is None by {
            assert(rest[j] == children[j + 1]);
        }
        lemma_no_match_fails(nodes, rest, ctx, rem);
    }
}

/// A command must consume the entire remaining input to dispatch: in a graph
/// shaped by one registered single-literal command, input that carries a
/// trailing token after that literal matches no further grammar, so the walk
/// fails and dispatch returns `false`.
pub proof fn lemma_exact_consumption<C, K: ArgumentChecker<C>, H>(
    v: DispatcherView<K, H>,
    lit: Seq<u8>,
    trailing: Seq<u8>,
    ctx: C,
)
    requires
        view_wf(v),
        v.nodes[v.root].children.len() == 1,
        v.nodes[v.nodes[v.root].children[0]].kind == KindView::<K>::Literal(lit),
        ({
            let c = v.nodes[v.root].children[0];
            forall|j: int|
                0 <= j < v.nodes[c].children.len() ==> kind_sat(
                    v.nodes[#[trigger] v.nodes[c].children[j]].kind,
                    ctx,
                    trailing,
                ) is None
        }),
        forall|i: int| 0 <= i < lit.len() ==> lit[i] != crate::dispatcher::SEPARATOR,
        trailing.len() > 0,
    ensures
        walk(v.nodes, v.root, ctx, lit + seq![crate::dispatcher::SEPARATOR] + trailing) is None,
{
    let sep = crate::dispatcher::SEPARATOR;
    let input = lit + seq![sep] + trailing;
    let r = v.root;
    let c = v.nodes[r].children[0];
    crate::input::lemma_token_concat(lit, trailing, sep);
    assert(input.len() > 0);
    assert(kind_sat(v.nodes[c].kind, ctx, input) == Some(trailing));
    assert(first_satisfied(v.nodes, v.nodes[r].children, ctx, input) == Some((c, trailing)));
    assert(r < c < v.nodes.len());
    assert(walk(v.nodes, r, ctx, input) == walk(v.nodes, c, ctx, trailing));
    lemma_no_match_fails(v.nodes, v.nodes[c].children, ctx, trailing);
    assert(first_satisfied(v.nodes, v.nodes[c].children, ctx, trailing) is None);
}

/// Registering a command whose leading literal is already a child of the
/// root shares that node instead of allocating a second one: the root's
/// children do not change, while the command's unshared second node becomes
/// exactly one new, distinct child of the shared node.
pub proof fn lemma_prefix_sharing<K: CheckerEq, H>(v: DispatcherView<K, H>, t: CommandNode<K, H>)
    requires
        view_wf(v),
        t.handler is None,
        t.next@.len() == 1,
        t.next@[0].handler is None,
        find_child(v.nodes, v.nodes[v.root].children, t.kind@) is Some,
        find_child(
            v.nodes,
            v.nodes[find_child(v.nodes, v.nodes[v.root].children, t.kind@).unwrap()].children,
            t.next@[0].kind@,
        ) is None,
    ensures
        ({
            let c = find_child(v.nodes, v.nodes[v.root].children, t.kind@).unwrap();
            let m = spec_merge(v.nodes, v.root, t).0;
            &&& m[v.root].children == v.nodes[v.root].children
            &&& m[c].children == v.nodes[c].children.push(v.nodes.len() as int)
            &&& m[v.nodes.len() as int].kind == t.next@[0].kind@
        }),
{
    let r = v.root;
    let nodes = v.nodes;
    let ch0 = nodes[r].children;
    let c = find_child(nodes, ch0, t.kind@).unwrap();
    let p = lemma_find_child_pos(nodes, ch0, t.kind@);
    assert(ch0[p] == c);
    assert(r < c < nodes.len());
    let b1 = t.next@[0];
    // merging `t` reuses `c` and merges the single sub-tree under it
    assert(spec_merge(nodes, r, t) == spec_merge_children(nodes, c, t.next@));
    assert(t.next@.subrange(1, 1) =~= Seq::<CommandNode<K, H>>::empty());
    // the sub-tree's kind is not found, so one node is allocated for it
    let newkey = nodes.len() as int;
    let mid = nodes.update(
        c,
        NodeView {
            children: nodes[c].children.push(newkey),
            kind: nodes[c].kind,
            handler: nodes[c].handler,
        },
    ).push(NodeView { children: Seq::empty(), kind: b1.kind@, handler: None });
    assert(spec_merge(nodes, c, b1) == spec_merge_children(mid, newkey, b1.next@));
    assert(nodes_wf(mid)) by {
        assert forall|i: int, j: int|
            0 <= i < mid.len() && 0 <= j < mid[i].children.len() implies i < #[trigger] mid[
            i
        ].children[j] < mid.len() by {
            if i == c {
                if j < nodes[c].children.len() {
                    assert(mid[i].children[j] == nodes[c].children[j]);
                } else {
                    assert(mid[i].children[j] == newkey);
                }
            } else if i < nodes.len() {
                assert(mid[i].children == nodes[i].children);
            } else {
                assert(mid[i].children.len() == 0);
            }
        }
    }
    lemma_merge_children_monotone(mid, newkey, b1.next@);
    let m1 = spec_merge(nodes, c, b1).0;
    assert(m1[r] == mid[r]);
    assert(m1[c] == mid[c]);
    assert(m1[newkey].kind == mid[newkey].kind);
    let whole = spec_merge_children(nodes, c, t.next@);
    assert(whole.0 == m1) by {
        let after = spec_merge(nodes, c, b1);
        if after.1 is Some {
        } else {
            assert(t.next@.subrange(1, 1).len() == 0);
            assert(spec_merge_children(after.0, c, t.next@.subrange(1, 1)) == (
                after.0,
                None::<RegisterError>,
            ));
        }
    }
    assert(spec_merge(nodes, r, t).0 == m1);
}

} // verus!
