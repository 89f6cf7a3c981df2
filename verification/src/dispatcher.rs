//! The command graph and its dispatcher.
//!
//! A node arena keyed by stable indices holds the shared graph: each node is
//! a literal, a type-erased argument checker, or the synthetic root; nodes
//! may carry an executable handler. Registration merges a command's declared
//! node tree into the arena, deduplicating structurally-equal siblings and
//! rejecting illegal shapes; dispatch walks the arena from the root,
//! consuming the input cursor greedily, first match first.

use vstd::prelude::*;
use vstd::string::StringSliceAdditionalSpecFns;
use vstd::utf8::encode_utf8;
use crate::checker::{ArgumentChecker, CheckerEq, CommandHandler};
use crate::input::{bytes_eq, spec_rest, spec_token, Input};

verus! {

/// The separator between command tokens: the space byte.
pub const SEPARATOR: u8 = 32;

/// A rejected registration.
#[derive(Debug, PartialEq, Eq, Structural)]
pub enum RegisterError {
    /// Overlapping commands exist: two commands have an executable node at
    /// the same point of the graph.
    OverlappingCommands,
    /// Attempted to register an executable command at the root of the
    /// command graph: a dispatchable command must consume at least one token.
    ExecutableRoot,
}

/// Metadata captured per registered command, kept in a flat ordered sequence
/// purely for enumeration; it has no effect on dispatch.
#[derive(Debug)]
pub struct CommandMeta {
    /// The name under which the command is listed.
    pub name: String,
}

/// The kind of one node of a declared command tree.
pub enum CommandNodeKind<K> {
    /// Matched by exact token equality.
    Literal(String),
    /// Matched by an argument checker.
    Parser(K),
}

/// One node of a declared command tree, the external input to registration:
/// its kind names the child to find or create, its handler (if any) attaches
/// to the node the tree node is merged under, and its sub-trees are merged
/// under the found-or-created child.
pub struct CommandNode<K, H> {
    /// The kind of the child this tree node finds or creates.
    pub kind: CommandNodeKind<K>,
    /// A handler for the command ending at the node this tree node is
    /// merged under.
    pub handler: Option<H>,
    /// The sub-trees, merged under the found-or-created child.
    pub next: Vec<CommandNode<K, H>>,
}

/// The kind of an arena node.
enum NodeKind<K> {
    Literal(String),
    Parser(K),
    Root,
}

/// A node of the command graph.
struct Node<K, H> {
    next: Vec<usize>,
    kind: NodeKind<K>,
    handler: Option<H>,
}

/// The mathematical kind of a node: a literal is its UTF-8 bytes.
#[verifier::ext_equal]
pub enum KindView<K> {
    Literal(Seq<u8>),
    Parser(K),
    Root,
}

/// The mathematical content of an arena node.
#[verifier::ext_equal]
pub struct NodeView<K, H> {
    /// Arena keys of the children, in insertion order.
    pub children: Seq<int>,
    /// The node's kind.
    pub kind: KindView<K>,
    /// The handler carried by the node, if any.
    pub handler: Option<H>,
}

/// The mathematical content of a dispatcher.
#[verifier::ext_equal]
pub struct DispatcherView<K, H> {
    /// The arena, indexed by stable keys.
    pub nodes: Seq<NodeView<K, H>>,
    /// The key of the root node.
    pub root: int,
    /// The registered command metadata, in registration order.
    pub metas: Seq<CommandMeta>,
}

impl<K> View for CommandNodeKind<K> {
    type V = KindView<K>;

    open spec fn view(&self) -> KindView<K> {
        match self {
            CommandNodeKind::Literal(s) => KindView::Literal(encode_utf8(s@)),
            CommandNodeKind::Parser(k) => KindView::Parser(*k),
        }
    }
}

impl<K> View for NodeKind<K> {
    type V = KindView<K>;

    closed spec fn view(&self) -> KindView<K> {
        match self {
            NodeKind::Literal(s) => KindView::Literal(encode_utf8(s@)),
            NodeKind::Parser(k) => KindView::Parser(*k),
            NodeKind::Root => KindView::Root,
        }
    }
}

impl<K, H> View for Node<K, H> {
    type V = NodeView<K, H>;

    closed spec fn view(&self) -> NodeView<K, H> {
        NodeView {
            children: Seq::new(self.next@.len(), |i: int| self.next@[i] as int),
            kind: self.kind@,
            handler: self.handler,
        }
    }
}

/// Whether an arena node kind equals a declared tree node kind: two literals
/// are equal iff their text is equal, two checkers iff they report dynamic
/// equality; the root equals nothing. This equality, not identity, drives
/// prefix sharing.
pub open spec fn kind_eq<K: CheckerEq>(a: KindView<K>, b: KindView<K>) -> bool {
    match (a, b) {
        (KindView::Literal(x), KindView::Literal(y)) => x == y,
        (KindView::Parser(p), KindView::Parser(q)) => p.eq_spec(&q),
        _ => false,
    }
}

/// The first key among `children` (in insertion order) whose node's kind
/// equals `kind`, if any.
pub open spec fn find_child<K: CheckerEq, H>(
    nodes: Seq<NodeView<K, H>>,
    children: Seq<int>,
    kind: KindView<K>,
) -> Option<int>
    decreases children.len(),
{
    if children.len() == 0 {
        None
    } else if kind_eq(nodes[children[0]].kind, kind) {
        Some(children[0])
    } else {
        find_child(nodes, children.subrange(1, children.len() as int), kind)
    }
}

/// The arena after merging tree node `t` under arena node `d`, and the error
/// that aborted the merge, if any. Merging sets `t`'s handler on `d` (an
/// error if `d` is the root or already carries one), then finds or creates
/// the child of `d` whose kind equals `t.kind`, then merges `t`'s sub-trees
/// under that child. The first error aborts the whole merge; mutation up to
/// that point is kept (no rollback).
pub open spec fn spec_merge<K: CheckerEq, H>(
    nodes: Seq<NodeView<K, H>>,
    d: int,
    t: CommandNode<K, H>,
) -> (Seq<NodeView<K, H>>, Option<RegisterError>)
    decreases t, 0int,
{
    if t.handler is Some && nodes[d].kind is Root {
        (nodes, Some(RegisterError::ExecutableRoot))
    } else if t.handler is Some && nodes[d].handler is Some {
        (nodes, Some(RegisterError::OverlappingCommands))
    } else {
        let nodes1 = if t.handler is Some {
            nodes.update(d, NodeView { children: nodes[d].children, kind: nodes[d].kind, handler: t.handler })
        } else {
            nodes
        };
        let step2 = match find_child(nodes1, nodes1[d].children, t.kind@) {
            Some(c) => (nodes1, c),
            None => (
                nodes1.update(d, NodeView {
                    children: nodes1[d].children.push(nodes1.len() as int),
                    kind: nodes1[d].kind,
                    handler: nodes1[d].handler,
                }).push(NodeView { children: Seq::empty(), kind: t.kind@, handler: None }),
                nodes1.len() as int,
            ),
        };
        spec_merge_children(step2.0, step2.1, t.next@)
    }
}

/// The arena after merging each of the sub-trees `cs`, in order, under arena
/// node `d`; the first error aborts the rest.
pub open spec fn spec_merge_children<K: CheckerEq, H>(
    nodes: Seq<NodeView<K, H>>,
    d: int,
    cs: Seq<CommandNode<K, H>>,
) -> (Seq<NodeView<K, H>>, Option<RegisterError>)
    decreases cs, 1int,
{
    if cs.len() == 0 {
        (nodes, None)
    } else {
        let first = spec_merge(nodes, d, cs[0]);
        if first.1 is Some {
            first
        } else {
            spec_merge_children(first.0, d, cs.subrange(1, cs.len() as int))
        }
    }
}

/// Every child key points strictly forward in the arena: the graph is
/// acyclic and every walk terminates.
pub open spec fn nodes_wf<K, H>(nodes: Seq<NodeView<K, H>>) -> bool {
    forall|i: int, j: int|
        0 <= i < nodes.len() && 0 <= j < nodes[i].children.len()
            ==> i < #[trigger] nodes[i].children[j] < nodes.len()
}

/// No two children of the same node have equal kind (in insertion order:
/// no later sibling's kind equals an earlier one's), which is what allows
/// prefix merging.
pub open spec fn siblings_unique<K: CheckerEq, H>(nodes: Seq<NodeView<K, H>>) -> bool {
    forall|i: int, j: int, k: int|
        #![trigger nodes[i].children[j], nodes[i].children[k]]
        0 <= i < nodes.len() && 0 <= j < k < nodes[i].children.len()
            ==> !kind_eq(nodes[nodes[i].children[j]].kind, nodes[nodes[i].children[k]].kind)
}

/// Well-formedness of a dispatcher: exactly one root-kind node exists, it is
/// the entry point, it never carries a handler, children point strictly
/// forward, and siblings are kind-unique.
pub open spec fn view_wf<K: CheckerEq, H>(v: DispatcherView<K, H>) -> bool {
    &&& 0 <= v.root < v.nodes.len()
    &&& v.nodes[v.root].kind is Root
    &&& v.nodes[v.root].handler is None
    &&& forall|i: int| 0 <= i < v.nodes.len() && i != v.root ==> !((#[trigger] v.nodes[i]).kind is Root)
    &&& nodes_wf(v.nodes)
    &&& siblings_unique(v.nodes)
}

/// Whether `kind` is satisfied by the remaining input `rem` under context
/// `ctx`, and what remains after it consumes: a literal matches iff its text
/// equals the next token (consuming it), a checker consumes per its own
/// contract, the root matches nothing.
pub open spec fn kind_sat<C, K: ArgumentChecker<C>>(
    kind: KindView<K>,
    ctx: C,
    rem: Seq<u8>,
) -> Option<Seq<u8>> {
    match kind {
        KindView::Literal(lit) => if spec_token(rem, SEPARATOR) == lit {
            Some(spec_rest(rem, SEPARATOR))
        } else {
            None
        },
        KindView::Parser(k) => k.check_spec(ctx, rem),
        KindView::Root => None,
    }
}

/// The first child (in insertion order) satisfied by the remaining input,
/// with what remains after it consumes. All other candidates' consumption is
/// discarded.
pub open spec fn first_satisfied<C, K: ArgumentChecker<C>, H>(
    nodes: Seq<NodeView<K, H>>,
    children: Seq<int>,
    ctx: C,
    rem: Seq<u8>,
) -> Option<(int, Seq<u8>)>
    decreases children.len(),
{
    if children.len() == 0 {
        None
    } else {
        match kind_sat(nodes[children[0]].kind, ctx, rem) {
            Some(rem2) => Some((children[0], rem2)),
            None => first_satisfied(nodes, children.subrange(1, children.len() as int), ctx, rem),
        }
    }
}

/// The node at which the greedy, first-match, non-backtracking walk from
/// `cur` exhausts the input, if any: while input remains, commit to the
/// first satisfied child; fail as soon as no child is satisfied.
pub open spec fn walk<C, K: ArgumentChecker<C>, H>(
    nodes: Seq<NodeView<K, H>>,
    cur: int,
    ctx: C,
    rem: Seq<u8>,
) -> Option<int>
    decreases nodes.len() - cur,
{
    if rem.len() == 0 {
        Some(cur)
    } else {
        match first_satisfied(nodes, nodes[cur].children, ctx, rem) {
            Some(step) => if cur < step.0 < nodes.len() {
                walk(nodes, step.0, ctx, step.1)
            } else {
                None
            },
            None => None,
        }
    }
}

/// Data structure used to dispatch commands.
pub struct CommandDispatcher<K, H> {
    nodes: Vec<Node<K, H>>,
    root: usize,
    metas: Vec<CommandMeta>,
}

impl<K, H> View for CommandDispatcher<K, H> {
    type V = DispatcherView<K, H>;

    closed spec fn view(&self) -> DispatcherView<K, H> {
        DispatcherView {
            nodes: Seq::new(self.nodes@.len(), |i: int| self.nodes@[i]@),
            root: self.root as int,
            metas: self.metas@,
        }
    }
}

impl<K: CheckerEq, H> CommandDispatcher<K, H> {
    /// Well-formedness: established by `new` and preserved by every method.
    pub open spec fn wf(&self) -> bool {
        view_wf(self@)
    }

    /// Creates a new `CommandDispatcher` with no registered commands: the
    /// arena holds only the root node.
    pub fn new() -> (r: Self)
        ensures
            r.wf(),
            r@.nodes =~= seq![NodeView::<K, H> { children: Seq::empty(), kind: KindView::Root, handler: None }],
            r@.root == 0,
            r@.metas =~= Seq::<CommandMeta>::empty(),
    {
        let mut nodes: Vec<Node<K, H>> = Vec::new();
        nodes.push(Node { next: Vec::new(), kind: NodeKind::Root, handler: None });
        let r = CommandDispatcher { nodes, root: 0, metas: Vec::new() };
        proof {
            assert(r@.nodes[0].children =~= Seq::<int>::empty());
            assert(r@.nodes =~= seq![NodeView::<K, H> { children: Seq::empty(), kind: KindView::Root, handler: None }]);
        }
        r
    }

    /// The registered command metadata, in registration order.
    pub fn command_meta(&self) -> (r: &Vec<CommandMeta>)
        ensures
            r@ == self@.metas,
    {
        &self.metas
    }

    /// How many nodes the arena holds, the root included.
    pub fn node_count(&self) -> (r: usize)
        ensures
            r == self@.nodes.len(),
    {
        self.nodes.len()
    }
}

impl<K: CheckerEq, H> Default for CommandDispatcher<K, H> {
    /// The same as `new`.
    fn default() -> (r: Self)
        ensures
            r.wf(),
            r@.nodes =~= seq![NodeView::<K, H> { children: Seq::empty(), kind: KindView::Root, handler: None }],
            r@.root == 0,
            r@.metas =~= Seq::<CommandMeta>::empty(),
    {
        Self::new()
    }
}


/// When `find_child` fails, no candidate's kind equals `kind`.
pub proof fn lemma_find_child_none<K: CheckerEq, H>(
    nodes: Seq<NodeView<K, H>>,
    children: Seq<int>,
    kind: KindView<K>,
)
    requires
        find_child(nodes, children, kind) is None,
    ensures
        forall|j: int| 0 <= j < children.len() ==> !kind_eq(nodes[#[trigger] children[j]].kind, kind),
    decreases children.len(),
{
    if children.len() > 0 {
        let rest = children.subrange(1, children.len() as int);
        lemma_find_child_none(nodes, rest, kind);
        assert forall|j: int| 0 <= j < children.len() implies !kind_eq(
            nodes[#[trigger] children[j]].kind,
            kind,
        ) by {
            if j > 0 {
                assert(rest[j - 1] == children[j]);
            }
        }
    }
}

impl<K: CheckerEq, H> CommandDispatcher<K, H> {
    /// Registers a command to this `CommandDispatcher`: appends its metadata
    /// to the flat metadata list (whether or not the merge then succeeds),
    /// then merges its declared node tree into the arena starting at the
    /// root. The result and the new arena are exactly those of `spec_merge`.
    pub fn register(&mut self, command: CommandNode<K, H>, meta: CommandMeta) -> (r: Result<
        (),
        RegisterError,
    >)
        requires
            old(self).wf(),
        ensures
            final(self).wf(),
            final(self)@.root == old(self)@.root,
            final(self)@.metas == old(self)@.metas.push(meta),
            final(self)@.nodes == spec_merge(old(self)@.nodes, old(self)@.root, command).0,
            match spec_merge(old(self)@.nodes, old(self)@.root, command).1 {
                Some(e) => r == Err::<(), RegisterError>(e),
                None => r == Ok::<(), RegisterError>(()),
            },
    {
        self.metas.push(meta);
        let root = self.root;
        self.append_node(root, command)
    }

    /// Method-chaining form of `register`, for registrations that are known
    /// not to conflict.
    pub fn with(self, command: CommandNode<K, H>, meta: CommandMeta) -> (r: Self)
        requires
            self.wf(),
            spec_merge(self@.nodes, self@.root, command).1 is None,
        ensures
            r.wf(),
            r@.root == self@.root,
            r@.metas == self@.metas.push(meta),
            r@.nodes == spec_merge(self@.nodes, self@.root, command).0,
    {
        let mut s = self;
        let res = s.register(command, meta);
        match res {
            Ok(()) => s,
            Err(_) => {
                proof {
                    assert(false);
                }
                s
            },
        }
    }

    /// Merges tree node `t` under arena node `d`, exactly as `spec_merge`
    /// describes.
    #[verifier::loop_isolation(false)]
    fn append_node(&mut self, d: usize, t: CommandNode<K, H>) -> (r: Result<(), RegisterError>)
        requires
            old(self).wf(),
            d < old(self)@.nodes.len(),
        ensures
            final(self).wf(),
            final(self)@.root == old(self)@.root,
            final(self)@.metas == old(self)@.metas,
            final(self)@.nodes.len() >= old(self)@.nodes.len(),
            final(self)@.nodes == spec_merge(old(self)@.nodes, d as int, t).0,
            match spec_merge(old(self)@.nodes, d as int, t).1 {
                Some(e) => r == Err::<(), RegisterError>(e),
                None => r == Ok::<(), RegisterError>(()),
            },
        decreases t,
    {
        let ghost nodes0 = self@.nodes;
        let ghost root0 = self@.root;
        let ghost metas0 = self@.metas;
        let CommandNode { kind, handler, next } = t;

        // Attach the handler carried by `t` to `d` itself.
        if handler.is_some() {
            let d_is_root = match &self.nodes[d].kind {
                NodeKind::Root => true,
                _ => false,
            };
            if d_is_root {
                return Err(RegisterError::ExecutableRoot);
            }
            if self.nodes[d].handler.is_some() {
                return Err(RegisterError::OverlappingCommands);
            }
            let node = &mut self.nodes[d];
            node.handler = handler;
            proof {
                assert(self@.nodes =~~= nodes0.update(
                    d as int,
                    NodeView {
                        children: nodes0[d as int].children,
                        kind: nodes0[d as int].kind,
                        handler: t.handler,
                    },
                ));
                // `d` is not the root, whose kind alone is `Root`.
                assert(d as int != root0);
                assert(self.wf());
            }
        }
        let ghost nodes1 = self@.nodes;
        proof {
            assert(nodes1[d as int].children == nodes0[d as int].children);
        }

        // Find a child of `d` with the same kind as `t`, if one exists.
        let n_children: usize = self.nodes[d].next.len();
        proof {
            assert(nodes1[d as int].children.subrange(0, n_children as int) =~= nodes1[
                d as int
            ].children);
        }
        let mut j: usize = 0;
        let mut found: Option<usize> = None;
        while j < n_children && found.is_none()
            invariant
                self@.nodes == nodes1,
                self@.root == root0,
                self@.metas == metas0,
                self.wf(),
                d < nodes1.len(),
                n_children == nodes1[d as int].children.len(),
                j <= n_children,
                found is None ==> find_child(nodes1, nodes1[d as int].children, t.kind@)
                    == find_child(
                    nodes1,
                    nodes1[d as int].children.subrange(j as int, n_children as int),
                    t.kind@,
                ),
                match found {
                    Some(c) => find_child(nodes1, nodes1[d as int].children, t.kind@) == Some(
                        c as int,
                    ) && d < c && (c as int) < nodes1.len(),
                    None => true,
                },
                kind == t.kind,
            decreases n_children - j,
        {
            let ck: usize = self.nodes[d].next[j];
            proof {
                assert(nodes1[d as int].children[j as int] == ck as int);
                assert((d as int) < (ck as int) && (ck as int) < nodes1.len());
            }
            let eq: bool = match (&self.nodes[ck].kind, &kind) {
                (NodeKind::Literal(a), CommandNodeKind::Literal(b)) => bytes_eq(
                    a.as_str().as_bytes(),
                    b.as_str().as_bytes(),
                ),
                (NodeKind::Parser(p), CommandNodeKind::Parser(q)) => p.equals(q),
                _ => false,
            };
            proof {
                assert(eq == kind_eq(nodes1[ck as int].kind, t.kind@));
                let cs = nodes1[d as int].children.subrange(j as int, n_children as int);
                assert(cs[0] == ck as int);
                assert(cs.subrange(1, cs.len() as int) =~= nodes1[d as int].children.subrange(
                    j as int + 1,
                    n_children as int,
                ));
            }
            if eq {
                found = Some(ck);
            }
            j = j + 1;
        }

        // Reuse the found child, or allocate a new node and append it.
        let f: usize = match found {
            Some(c) => c,
            None => {
                proof {
                    assert(nodes1[d as int].children.subrange(
                        n_children as int,
                        n_children as int,
                    ) =~= Seq::<int>::empty());
                }
                let new_key: usize = self.nodes.len();
                let new_kind: NodeKind<K> = match kind {
                    CommandNodeKind::Literal(s) => NodeKind::Literal(s),
                    CommandNodeKind::Parser(p) => NodeKind::Parser(p),
                };
                proof {
                    assert(new_kind@ == t.kind@);
                }
                self.nodes.push(Node { next: Vec::new(), kind: new_kind, handler: None });
                let parent = &mut self.nodes[d];
                parent.next.push(new_key);
                proof {
                    assert(self@.nodes[new_key as int].children =~= Seq::<int>::empty());
                    assert(self@.nodes =~~= nodes1.update(
                        d as int,
                        NodeView {
                            children: nodes1[d as int].children.push(nodes1.len() as int),
                            kind: nodes1[d as int].kind,
                            handler: nodes1[d as int].handler,
                        },
                    ).push(NodeView { children: Seq::empty(), kind: t.kind@, handler: None }));
                    lemma_find_child_none(nodes1, nodes1[d as int].children, t.kind@);
                    assert(self.wf());
                }
                new_key
            },
        };
        let ghost nodes2 = self@.nodes;
        proof {
            assert(d < nodes2.len());
            assert(f < nodes2.len());
            assert(spec_merge(nodes0, d as int, t) == spec_merge_children(nodes2, f as int, t.next@));
        }

        // Merge each of `t`'s sub-trees, in order, under the child.
        let mut rest: Vec<CommandNode<K, H>> = next;
        let ghost total: Seq<CommandNode<K, H>> = t.next@;
        proof {
            assert(rest@ =~= total.subrange(0, total.len() as int));
        }
        while rest.len() > 0
            invariant
                self.wf(),
                self@.root == root0,
                self@.metas == metas0,
                f < self@.nodes.len(),
                self@.nodes.len() >= nodes2.len() >= nodes0.len(),
                rest@.len() <= total.len(),
                rest@ =~= total.subrange(total.len() - rest@.len(), total.len() as int),
                spec_merge_children(nodes2, f as int, total) == spec_merge_children(
                    self@.nodes,
                    f as int,
                    rest@,
                ),
            decreases rest@.len(),
        {
            let ghost before = rest@;
            let ghost nodes_here = self@.nodes;
            let ghost i = total.len() - before.len();
            let child: CommandNode<K, H> = rest.remove(0);
            proof {
                assert(before[0] == total.subrange(i as int, total.len() as int)[0]);
                assert(child == total[i as int]);
                assert(decreases_to!(t => t.next));
                assert(decreases_to!(t.next => t.next@));
                vstd::seq::axiom_seq_index_decreases(t.next@, i as int);
                assert(decreases_to!(t => child));
            }
            let res = self.append_node(f, child);
            proof {
                assert(before[0] == child);
                assert(rest@ =~= before.subrange(1, before.len() as int));
            }
            if let Err(e) = res {
                proof {
                    assert(spec_merge_children(nodes_here, f as int, before) == (
                        self@.nodes,
                        Some(e),
                    ));
                }
                return Err(e);
            }
        }
        proof {
            assert(rest@ =~= Seq::<CommandNode<K, H>>::empty());
            assert(spec_merge_children(nodes2, f as int, total) == (self@.nodes, None::<
                RegisterError,
            >));
        }
        Ok(())
    }
}


impl<K: CheckerEq, H> CommandDispatcher<K, H> {
    /// Dispatches a command. Returns whether a command was executed: the
    /// greedy, first-match, non-backtracking walk from the root must exhaust
    /// the input at a node carrying a handler, which is then invoked once
    /// with the full original command text. No structured error is returned
    /// on failure; matching a non-terminal prefix only is a plain `false`.
    #[verifier::loop_isolation(false)]
    pub fn dispatch<C>(&self, ctx: &mut C, command: &str) -> (r: bool) where
        K: ArgumentChecker<C>,
        H: CommandHandler<C>,

        requires
            self.wf(),
        ensures
            ({
                let w = walk(self@.nodes, self@.root, *old(ctx), command.spec_bytes());
                match w {
                    Some(n) => match self@.nodes[n].handler {
                        Some(h) => r && *final(ctx) == h.on_call(*old(ctx), command.spec_bytes()),
                        None => !r && *final(ctx) == *old(ctx),
                    },
                    None => !r && *final(ctx) == *old(ctx),
                }
            }),
    {
        let ghost ctx0 = *ctx;
        let ghost nv = self@.nodes;
        let ghost bytes0 = command.spec_bytes();
        let mut current: usize = self.root;
        let mut input = Input::new(command);
        while !input.empty()
            invariant
                *ctx == ctx0,
                self@.root <= current as int,
                (current as int) < nv.len(),
                walk(nv, self@.root, ctx0, bytes0) == walk(nv, current as int, ctx0, input@),
            decreases nv.len() - current,
        {
            let n_children: usize = self.nodes[current].next.len();
            proof {
                assert(nv[current as int].children.subrange(0, n_children as int) =~= nv[
                    current as int
                ].children);
            }
            let mut j: usize = 0;
            let mut committed: Option<(usize, Input)> = None;
            while j < n_children && committed.is_none()
                invariant
                    *ctx == ctx0,
                    j <= n_children,
                    committed is None ==> first_satisfied(
                        nv,
                        nv[current as int].children,
                        ctx0,
                        input@,
                    ) == first_satisfied(
                        nv,
                        nv[current as int].children.subrange(j as int, n_children as int),
                        ctx0,
                        input@,
                    ),
                    match committed {
                        Some(cm) => first_satisfied(nv, nv[current as int].children, ctx0, input@)
                            == Some((cm.0 as int, cm.1@)) && (current as int) < (cm.0 as int) && (
                        cm.0 as int) < nv.len(),
                        None => true,
                    },
                decreases n_children - j,
            {
                let ck: usize = self.nodes[current].next[j];
                let ghost cs = nv[current as int].children.subrange(j as int, n_children as int);
                proof {
                    assert(nv[current as int].children[j as int] == ck as int);
                    assert((current as int) < (ck as int) && (ck as int) < nv.len());
                    assert(cs[0] == ck as int);
                    assert(cs.subrange(1, cs.len() as int) =~= nv[current as int].children.subrange(
                        j as int + 1,
                        n_children as int,
                    ));
                }
                match &self.nodes[ck].kind {
                    NodeKind::Literal(lit) => {
                        let mut probe = input;
                        let tok = probe.head(SEPARATOR);
                        if bytes_eq(tok, lit.as_str().as_bytes()) {
                            committed = Some((ck, probe));
                        }
                    },
                    NodeKind::Parser(p) => {
                        let mut probe = input;
                        if p.satisfies(ctx, &mut probe) {
                            committed = Some((ck, probe));
                        }
                    },
                    NodeKind::Root => {
                        proof {
                            // a root-kind child contradicts well-formedness
                            assert((ck as int) != self@.root);
                            assert(false);
                        }
                    },
                }
                j = j + 1;
            }
            match committed {
                Some(cm) => {
                    current = cm.0;
                    input = cm.1;
                },
                None => {
                    proof {
                        assert(nv[current as int].children.subrange(
                            n_children as int,
                            n_children as int,
                        ) =~= Seq::<int>::empty());
                    }
                    return false;
                },
            }
        }
        match &self.nodes[current].handler {
            Some(h) => {
                h.invoke(ctx, command);
                true
            },
            None => false,
        }
    }
}

} // verus!
