//! Syntax trees.

use vstd::prelude::*;

verus! {

/// A node of a syntax tree.
#[derive(Clone, Copy, Debug, PartialEq, Eq, Structural)]
pub struct NodeId {
    pub index: usize,
}

/// A token of a syntax tree.
#[derive(Clone, Copy, Debug, PartialEq, Eq, Structural)]
pub struct TokenId {
    pub index: usize,
}

/// What a node stands for.
#[derive(Clone, Copy, Debug, PartialEq, Eq, Structural)]
pub enum SyntaxKind {
    JsVariableStatement,
    JsVariableDeclaration,
    JsVariableDeclaratorList,
    JsVariableDeclarator,
    JsParameterList,
    JsConstructorParameterList,
    JsFormalParameter,
    JsObjectMemberList,
    JsPropertyObjectMember,
    JsStatementList,
    JsModuleItemList,
    JsEmptyStatement,
    JsxElement,
    JsxFragment,
    JsxChildList,
    JsxText,
    /// Any other node.
    Other,
}

/// What a piece of trivia is.
#[derive(Clone, Copy, Debug, PartialEq, Eq, Structural)]
pub enum TriviaPieceKind {
    Newline,
    Whitespace,
    SingleLineComment,
    MultiLineComment,
}

/// A piece of the text between tokens.
#[derive(Debug, PartialEq, Eq)]
pub struct TriviaPiece {
    pub kind: TriviaPieceKind,
    pub text: String,
}

/// A piece of the text between tokens.
pub struct TriviaView {
    pub kind: TriviaPieceKind,
    pub text: Seq<char>,
}

impl View for TriviaPiece {
    type V = TriviaView;

    open spec fn view(&self) -> TriviaView {
        TriviaView { kind: self.kind, text: self.text@ }
    }
}

/// The pieces, one after the other.
pub open spec fn trivia_views(pieces: Seq<TriviaPiece>) -> Seq<TriviaView> {
    pieces.map_values(|piece: TriviaPiece| piece@)
}

impl TriviaPiece {
    /// Whether the piece is a line break.
    pub fn is_newline(&self) -> (newline: bool)
        ensures
            newline == (self@.kind == TriviaPieceKind::Newline),
    {
        self.kind == TriviaPieceKind::Newline
    }

    /// Another piece like this one.
    pub fn copy(&self) -> (piece: Self)
        ensures
            piece@ == self@,
    {
        TriviaPiece { kind: self.kind, text: self.text.clone() }
    }
}

/// A token with the trivia around it.
#[derive(Debug, PartialEq, Eq)]
pub struct SyntaxToken {
    pub text: String,
    /// The trivia before the token.
    pub leading: Vec<TriviaPiece>,
    /// The trivia behind the token, up to the end of the line.
    pub trailing: Vec<TriviaPiece>,
}

/// A token with the trivia around it.
#[verifier::ext_equal]
pub struct TokenView {
    pub text: Seq<char>,
    pub leading: Seq<TriviaView>,
    pub trailing: Seq<TriviaView>,
}

impl View for SyntaxToken {
    type V = TokenView;

    open spec fn view(&self) -> TokenView {
        TokenView {
            text: self.text@,
            leading: trivia_views(self.leading@),
            trailing: trivia_views(self.trailing@),
        }
    }
}

/// A place for a child of a node.
#[derive(Clone, Copy, Debug, PartialEq, Eq, Structural)]
pub enum Slot {
    Node(NodeId),
    Token(TokenId),
    /// The child is missing.
    Empty,
}

/// A node and its place in the tree.
#[derive(Debug)]
struct NodeData {
    kind: SyntaxKind,
    parent: Option<NodeId>,
    slots: Vec<Slot>,
}

/// A node and its place in the tree.
#[verifier::ext_equal]
pub struct NodeView {
    pub kind: SyntaxKind,
    pub parent: Option<NodeId>,
    pub slots: Seq<Slot>,
}

impl View for NodeData {
    type V = NodeView;

    closed spec fn view(&self) -> NodeView {
        NodeView { kind: self.kind, parent: self.parent, slots: self.slots@ }
    }
}

/// A syntax tree, or several of them. A node is added after its children.
#[derive(Debug)]
pub struct SyntaxTree {
    nodes: Vec<NodeData>,
    tokens: Vec<SyntaxToken>,
    token_parents: Vec<Option<NodeId>>,
}

/// The contents of a [`SyntaxTree`].
#[verifier::ext_equal]
pub struct TreeView {
    pub nodes: Seq<NodeView>,
    pub tokens: Seq<TokenView>,
    pub token_parents: Seq<Option<NodeId>>,
}

impl View for SyntaxTree {
    type V = TreeView;

    closed spec fn view(&self) -> TreeView {
        TreeView {
            nodes: self.nodes@.map_values(|node: NodeData| node@),
            tokens: self.tokens@.map_values(|token: SyntaxToken| token@),
            token_parents: self.token_parents@,
        }
    }
}

/// The node in a slot, if there is one.
pub open spec fn node_in(slot: Slot) -> Option<NodeId> {
    match slot {
        Slot::Node(node) => Some(node),
        _ => None,
    }
}

/// The token in a slot, if there is one.
pub open spec fn token_in(slot: Slot) -> Option<TokenId> {
    match slot {
        Slot::Token(token) => Some(token),
        _ => None,
    }
}

/// Whether nodes of the kind are lists of nodes with a separator behind each, except that the last
/// node need not have one.
pub open spec fn is_separated_list(kind: SyntaxKind) -> bool {
    match kind {
        SyntaxKind::JsVariableDeclaratorList
        | SyntaxKind::JsParameterList
        | SyntaxKind::JsConstructorParameterList
        | SyntaxKind::JsObjectMemberList => true,
        _ => false,
    }
}

/// Whether nodes and separators take turns. Each may be missing.
pub open spec fn takes_turns(slots: Seq<Slot>) -> bool {
    &&& forall|i: int| 0 <= i < slots.len() && i % 2 == 0 ==> !(#[trigger] slots[i] is Token)
    &&& forall|i: int| 0 <= i < slots.len() && i % 2 == 1 ==> !(#[trigger] slots[i] is Node)
}

/// Whether every slot holds a node.
pub open spec fn all_nodes(slots: Seq<Slot>) -> bool {
    forall|i: int| 0 <= i < slots.len() ==> #[trigger] slots[i] is Node
}

impl TreeView {
    /// Whether the node belongs to the tree.
    pub open spec fn has_node(self, node: NodeId) -> bool {
        node.index < self.nodes.len()
    }

    /// Whether the token belongs to the tree.
    pub open spec fn has_token(self, token: TokenId) -> bool {
        token.index < self.tokens.len()
    }

    /// The node.
    pub open spec fn node(self, node: NodeId) -> NodeView {
        self.nodes[node.index as int]
    }

    /// The token.
    pub open spec fn token(self, token: TokenId) -> TokenView {
        self.tokens[token.index as int]
    }

    /// The parent of a node, if it is of the given kind.
    pub open spec fn parent_of_kind(self, node: NodeId, kind: SyntaxKind) -> Option<NodeId> {
        match self.node(node).parent {
            Some(parent) if self.node(parent).kind == kind => Some(parent),
            _ => None,
        }
    }

    /// Whether a node of the given kind may have the given children.
    pub open spec fn has_shape(self, kind: SyntaxKind, slots: Seq<Slot>) -> bool {
        &&& is_separated_list(kind) ==> takes_turns(slots)
        &&& kind == SyntaxKind::JsxChildList ==> all_nodes(slots)
        &&& kind == SyntaxKind::JsxElement || kind == SyntaxKind::JsxFragment ==> {
            &&& slots.len() >= 2
            &&& slots[1] matches Slot::Node(list) && self.has_node(list) && self.node(list).kind
                == SyntaxKind::JsxChildList
        }
    }

    /// Whether the child comes before the node and knows it as its parent.
    pub open spec fn is_child(self, node: int, slot: Slot) -> bool {
        match slot {
            Slot::Node(child) => {
                &&& child.index < node
                &&& self.node(child).parent == Some(NodeId { index: node as usize })
            },
            Slot::Token(token) => {
                &&& self.has_token(token)
                &&& self.token_parents[token.index as int] == Some(
                    NodeId { index: node as usize },
                )
            },
            Slot::Empty => true,
        }
    }

    /// Whether the node holds the child in one of its slots.
    pub open spec fn holds(self, parent: Option<NodeId>, slot: Slot) -> bool {
        match parent {
            Some(node) => self.has_node(node) && self.node(node).slots.contains(slot),
            None => true,
        }
    }

    /// Whether the nodes and tokens make up trees, and every node has the shape that its kind asks
    /// for.
    pub open spec fn well_formed(self) -> bool {
        &&& self.token_parents.len() == self.tokens.len()
        &&& self.nodes.len() <= usize::MAX
        &&& self.tokens.len() <= usize::MAX
        &&& forall|n: int, i: int|
            0 <= n < self.nodes.len() && 0 <= i < self.nodes[n].slots.len() ==> self.is_child(
                n,
                #[trigger] self.nodes[n].slots[i],
            )
        &&& forall|n: int|
            0 <= n < self.nodes.len() ==> self.holds(
                (#[trigger] self.nodes[n]).parent,
                Slot::Node(NodeId { index: n as usize }),
            )
        &&& forall|t: int|
            0 <= t < self.tokens.len() ==> self.holds(
                #[trigger] self.token_parents[t],
                Slot::Token(TokenId { index: t as usize }),
            )
        &&& forall|n: int, i: int, j: int|
            0 <= n < self.nodes.len() && 0 <= i < j < self.nodes[n].slots.len()
                && #[trigger] self.nodes[n].slots[i] == #[trigger] self.nodes[n].slots[j]
                ==> self.nodes[n].slots[i] is Empty
        &&& forall|n: int|
            0 <= n < self.nodes.len() ==> self.has_shape(
                (#[trigger] self.nodes[n]).kind,
                self.nodes[n].slots,
            )
    }

    /// Whether a new node can have the child in the slot.
    pub open spec fn is_free(self, slot: Slot) -> bool {
        match slot {
            Slot::Node(node) => self.has_node(node) && self.node(node).parent is None,
            Slot::Token(token) => self.has_token(token)
                && self.token_parents[token.index as int] is None,
            Slot::Empty => true,
        }
    }

    /// Whether a node with the given children can be added: they have no parent yet and are all
    /// different, and their number and kinds are what the kind of the node asks for.
    pub open spec fn fits(self, kind: SyntaxKind, slots: Seq<Slot>) -> bool {
        &&& forall|i: int| 0 <= i < slots.len() ==> self.is_free(#[trigger] slots[i])
        &&& forall|i: int, j: int|
            0 <= i < j < slots.len() && #[trigger] slots[i] == #[trigger] slots[j]
                ==> slots[i] is Empty
        &&& self.has_shape(kind, slots)
    }

    /// The tree with another node.
    pub open spec fn with_node(self, kind: SyntaxKind, slots: Seq<Slot>) -> TreeView {
        let parent = Some(NodeId { index: self.nodes.len() as usize });
        TreeView {
            nodes: Seq::new(
                self.nodes.len(),
                |n: int|
                    if slots.contains(Slot::Node(NodeId { index: n as usize })) {
                        NodeView { parent, ..self.nodes[n] }
                    } else {
                        self.nodes[n]
                    },
            ).push(NodeView { kind, parent: None, slots }),
            tokens: self.tokens,
            token_parents: Seq::new(
                self.token_parents.len(),
                |t: int|
                    if slots.contains(Slot::Token(TokenId { index: t as usize })) {
                        parent
                    } else {
                        self.token_parents[t]
                    },
            ),
        }
    }
}

impl TreeView {
    /// The tokens in the slots, in the order of the text. Nodes come before `bound`.
    pub open spec fn tokens_in(self, slots: Seq<Slot>, bound: nat) -> Seq<TokenId>
        decreases bound, slots.len(),
    {
        if slots.len() == 0 {
            Seq::empty()
        } else {
            self.tokens_in(slots.drop_last(), bound) + match slots.last() {
                Slot::Token(token) => seq![token],
                Slot::Node(node) if node.index < bound => self.tokens_in(
                    self.node(node).slots,
                    node.index as nat,
                ),
                _ => Seq::empty(),
            }
        }
    }

    /// The tokens of a node, in the order of the text.
    pub open spec fn tokens_of(self, node: NodeId) -> Seq<TokenId> {
        self.tokens_in(self.node(node).slots, node.index as nat)
    }

    /// The tokens of the siblings behind a node.
    pub open spec fn siblings_behind(self, parent: NodeId, node: NodeId) -> Seq<TokenId> {
        let slots = self.node(parent).slots;
        self.tokens_in(
            slots.subrange(slot_index(slots, node) + 1, slots.len() as int),
            parent.index as nat,
        )
    }

    /// The tokens of the siblings before a node.
    pub open spec fn siblings_before(self, parent: NodeId, node: NodeId) -> Seq<TokenId> {
        let slots = self.node(parent).slots;
        self.tokens_in(slots.subrange(0, slot_index(slots, node)), parent.index as nat)
    }

    /// The tokens behind a node, in the order of the text.
    pub open spec fn tokens_behind(self, node: NodeId) -> Seq<TokenId>
        decreases self.nodes.len() - node.index,
    {
        match self.node(node).parent {
            Some(parent) if node.index < parent.index < self.nodes.len() => self.siblings_behind(
                parent,
                node,
            ) + self.tokens_behind(parent),
            _ => Seq::empty(),
        }
    }

    /// The tokens before a node, in the order of the text.
    pub open spec fn tokens_before(self, node: NodeId) -> Seq<TokenId>
        decreases self.nodes.len() - node.index,
    {
        match self.node(node).parent {
            Some(parent) if node.index < parent.index < self.nodes.len() => self.tokens_before(
                parent,
            ) + self.siblings_before(parent, node),
            _ => Seq::empty(),
        }
    }

    /// The root of the tree that the node belongs to.
    pub open spec fn root_of(self, node: NodeId) -> NodeId
        decreases self.nodes.len() - node.index,
    {
        match self.node(node).parent {
            Some(parent) if node.index < parent.index < self.nodes.len() => self.root_of(parent),
            _ => node,
        }
    }
}

/// The index of the slot that holds the node.
pub open spec fn slot_index(slots: Seq<Slot>, node: NodeId) -> int
    decreases slots.len(),
{
    if slots.len() == 0 || slots[0] == Slot::Node(node) {
        0
    } else {
        1 + slot_index(slots.drop_first(), node)
    }
}

/// The slot at the index holds the node, if any does.
pub proof fn lemma_slot_index(slots: Seq<Slot>, node: NodeId)
    requires
        slots.contains(Slot::Node(node)),
    ensures
        0 <= slot_index(slots, node) < slots.len(),
        slots[slot_index(slots, node)] == Slot::Node(node),
    decreases slots.len(),
{
    lemma_contains_first(slots, Slot::Node(node));
    if slots[0] != Slot::Node(node) {
        lemma_slot_index(slots.drop_first(), node);
    }
}

/// What a sequence contains is its first element or among the others.
proof fn lemma_contains_first<A>(elements: Seq<A>, element: A)
    requires
        elements.contains(element),
    ensures
        elements.len() > 0,
        elements[0] == element || elements.drop_first().contains(element),
{
    let i = choose|i: int| 0 <= i < elements.len() && elements[i] == element;
    if i > 0 {
        assert(elements.drop_first()[i - 1] == element);
    }
}

/// The tokens in slots, one part after the other.
pub proof fn lemma_tokens_concat(tree: TreeView, left: Seq<Slot>, right: Seq<Slot>, bound: nat)
    ensures
        tree.tokens_in(left + right, bound) == tree.tokens_in(left, bound) + tree.tokens_in(
            right,
            bound,
        ),
    decreases right.len(),
{
    if right.len() == 0 {
        assert(left + right =~= left);
        assert(tree.tokens_in(left, bound) + tree.tokens_in(right, bound) =~= tree.tokens_in(
            left,
            bound,
        ));
    } else {
        assert((left + right).drop_last() =~= left + right.drop_last());
        assert((left + right).last() == right.last());
        lemma_tokens_concat(tree, left, right.drop_last(), bound);
        let last = match right.last() {
            Slot::Token(token) => seq![token],
            Slot::Node(node) if node.index < bound => tree.tokens_in(
                tree.node(node).slots,
                node.index as nat,
            ),
            _ => Seq::empty(),
        };
        assert(tree.tokens_in(left + right, bound) =~= tree.tokens_in(left, bound)
            + tree.tokens_in(right.drop_last(), bound) + last);
        assert(tree.tokens_in(right, bound) =~= tree.tokens_in(right.drop_last(), bound) + last);
    }
}

/// The text of the tree is the text before a node, that of the node, and the text behind it.
pub proof fn lemma_text_around(tree: TreeView, node: NodeId)
    requires
        tree.well_formed(),
        tree.has_node(node),
    ensures
        tree.tokens_of(tree.root_of(node)) == tree.tokens_before(node) + tree.tokens_of(node)
            + tree.tokens_behind(node),
    decreases tree.nodes.len() - node.index,
{
    lemma_parent(tree, node);
    match tree.node(node).parent {
        None => {
            assert(tree.tokens_of(node) =~= Seq::empty() + tree.tokens_of(node) + Seq::empty());
        },
        Some(parent) => {
            lemma_text_around(tree, parent);
            let slots = tree.node(parent).slots;
            let bound = parent.index as nat;
            lemma_slot_index(slots, node);
            let i = slot_index(slots, node);
            let before = slots.subrange(0, i);
            let own = seq![slots[i]];
            let behind = slots.subrange(i + 1, slots.len() as int);
            assert(slots =~= before + own + behind);
            lemma_tokens_concat(tree, before + own, behind, bound);
            lemma_tokens_concat(tree, before, own, bound);
            assert(own.drop_last() =~= Seq::empty());
            assert(tree.tokens_in(own.drop_last(), bound) =~= Seq::empty());
            assert(own.last() == Slot::Node(node));
            assert(tree.tokens_in(own, bound) =~= tree.tokens_of(node));
            assert(tree.tokens_of(tree.root_of(node)) =~= tree.tokens_before(node)
                + tree.tokens_of(node) + tree.tokens_behind(node));
        },
    }
}

/// The tokens in slots belong to the tree.
pub proof fn lemma_tokens_belong(tree: TreeView, node: NodeId, start: int, end: int)
    requires
        tree.well_formed(),
        tree.has_node(node),
        0 <= start <= end <= tree.node(node).slots.len(),
    ensures
        forall|i: int|
            0 <= i < tree.tokens_in(
                tree.node(node).slots.subrange(start, end),
                node.index as nat,
            ).len() ==> tree.has_token(
                #[trigger] tree.tokens_in(
                    tree.node(node).slots.subrange(start, end),
                    node.index as nat,
                )[i],
            ),
    decreases node.index, end - start,
{
    let slots = tree.node(node).slots;
    let range = slots.subrange(start, end);
    if start < end {
        assert(range.drop_last() =~= slots.subrange(start, end - 1));
        assert(range.last() == slots[end - 1]);
        lemma_tokens_belong(tree, node, start, end - 1);
        assert(tree.is_child(
            node.index as int,
            tree.nodes[node.index as int].slots[end - 1],
        ));
        let before = tree.tokens_in(range.drop_last(), node.index as nat);
        let tokens = tree.tokens_in(range, node.index as nat);
        match slots[end - 1] {
            Slot::Node(child) => {
                let inner = tree.node(child).slots;
                assert(inner.subrange(0, inner.len() as int) =~= inner);
                lemma_tokens_belong(tree, child, 0, inner.len() as int);
                assert(tokens == before + tree.tokens_of(child));
                assert forall|i: int| 0 <= i < tokens.len() implies tree.has_token(
                    #[trigger] tokens[i],
                ) by {
                    if i < before.len() {
                        assert(tokens[i] == before[i]);
                    } else {
                        assert(tokens[i] == tree.tokens_of(child)[i - before.len()]);
                    }
                }
            },
            Slot::Token(token) => {
                assert(tokens == before + seq![token]);
                assert forall|i: int| 0 <= i < tokens.len() implies tree.has_token(
                    #[trigger] tokens[i],
                ) by {
                    if i < before.len() {
                        assert(tokens[i] == before[i]);
                    }
                }
            },
            Slot::Empty => {
                assert(tokens =~= before);
            },
        }
    }
}

/// The tokens around a node belong to the tree.
pub proof fn lemma_tokens_around_belong(tree: TreeView, node: NodeId)
    requires
        tree.well_formed(),
        tree.has_node(node),
    ensures
        forall|i: int|
            0 <= i < tree.tokens_of(node).len() ==> tree.has_token(
                #[trigger] tree.tokens_of(node)[i],
            ),
        forall|i: int|
            0 <= i < tree.tokens_behind(node).len() ==> tree.has_token(
                #[trigger] tree.tokens_behind(node)[i],
            ),
        forall|i: int|
            0 <= i < tree.tokens_before(node).len() ==> tree.has_token(
                #[trigger] tree.tokens_before(node)[i],
            ),
    decreases tree.nodes.len() - node.index,
{
    let own = tree.node(node).slots;
    assert(own.subrange(0, own.len() as int) =~= own);
    lemma_tokens_belong(tree, node, 0, own.len() as int);
    lemma_parent(tree, node);
    if let Some(parent) = tree.node(node).parent {
        let slots = tree.node(parent).slots;
        lemma_slot_index(slots, node);
        let i = slot_index(slots, node);
        lemma_tokens_belong(tree, parent, 0, i);
        lemma_tokens_belong(tree, parent, i + 1, slots.len() as int);
        lemma_tokens_around_belong(tree, parent);
        let siblings = tree.siblings_behind(parent, node);
        let behind = tree.tokens_behind(node);
        assert(behind == siblings + tree.tokens_behind(parent));
        assert forall|j: int| 0 <= j < behind.len() implies tree.has_token(
            #[trigger] behind[j],
        ) by {
            if j < siblings.len() {
                assert(behind[j] == siblings[j]);
            } else {
                assert(behind[j] == tree.tokens_behind(parent)[j - siblings.len()]);
            }
        }
        let earlier = tree.tokens_before(parent);
        let before = tree.tokens_before(node);
        assert(before == earlier + tree.siblings_before(parent, node));
        assert forall|j: int| 0 <= j < before.len() implies tree.has_token(
            #[trigger] before[j],
        ) by {
            if j < earlier.len() {
                assert(before[j] == earlier[j]);
            } else {
                assert(before[j] == tree.siblings_before(parent, node)[j - earlier.len()]);
            }
        }
    }
}

/// The parent of a node comes behind it and holds it.
pub proof fn lemma_parent(tree: TreeView, node: NodeId)
    requires
        tree.well_formed(),
        tree.has_node(node),
    ensures
        tree.node(node).parent matches Some(parent) ==> {
            &&& tree.has_node(parent)
            &&& node.index < parent.index
            &&& tree.node(parent).slots.contains(Slot::Node(node))
        },
{
    let n = node.index as int;
    assert(NodeId { index: n as usize } == node);
    assert(tree.holds(tree.nodes[n].parent, Slot::Node(NodeId { index: n as usize })));
    if let Some(parent) = tree.node(node).parent {
        let p = parent.index as int;
        let i = choose|i: int|
            0 <= i < tree.nodes[p].slots.len() && tree.nodes[p].slots[i] == Slot::Node(node);
        assert(tree.is_child(p, tree.nodes[p].slots[i]));
    }
}

/// A tree with another node is well-formed if the node can be added.
pub proof fn lemma_with_node(tree: TreeView, kind: SyntaxKind, slots: Seq<Slot>)
    requires
        tree.well_formed(),
        tree.fits(kind, slots),
        tree.nodes.len() < usize::MAX,
    ensures
        tree.with_node(kind, slots).well_formed(),
{
    let after = tree.with_node(kind, slots);
    let count = tree.nodes.len() as int;
    assert forall|n: int| 0 <= n < count implies after.nodes[n].slots == tree.nodes[n].slots
        && after.nodes[n].kind == tree.nodes[n].kind by {}
    assert forall|n: int, i: int|
        0 <= n < after.nodes.len() && 0 <= i < after.nodes[n].slots.len() implies after.is_child(
        n,
        #[trigger] after.nodes[n].slots[i],
    ) by {
        if n < count {
            let slot = tree.nodes[n].slots[i];
            assert(tree.is_child(n, slot));
            match slot {
                Slot::Node(child) => {
                    if slots.contains(Slot::Node(child)) {
                        let k = choose|k: int| 0 <= k < slots.len() && slots[k] == Slot::Node(child);
                        assert(tree.is_free(slots[k]));
                    }
                    assert(NodeId { index: child.index as int as usize } == child);
                },
                Slot::Token(token) => {
                    if slots.contains(Slot::Token(token)) {
                        let k = choose|k: int|
                            0 <= k < slots.len() && slots[k] == Slot::Token(token);
                        assert(tree.is_free(slots[k]));
                    }
                    assert(TokenId { index: token.index as int as usize } == token);
                },
                Slot::Empty => {},
            }
        } else {
            assert(tree.is_free(slots[i]));
            assert(slots.contains(slots[i]));
        }
    }
    assert forall|n: int| 0 <= n < after.nodes.len() implies after.holds(
        (#[trigger] after.nodes[n]).parent,
        Slot::Node(NodeId { index: n as usize }),
    ) by {
        if n < count {
            assert(tree.holds(tree.nodes[n].parent, Slot::Node(NodeId { index: n as usize })));
        }
    }
    assert forall|t: int| 0 <= t < after.tokens.len() implies after.holds(
        #[trigger] after.token_parents[t],
        Slot::Token(TokenId { index: t as usize }),
    ) by {
        assert(tree.holds(tree.token_parents[t], Slot::Token(TokenId { index: t as usize })));
    }
    assert forall|n: int| 0 <= n < after.nodes.len() implies after.has_shape(
        (#[trigger] after.nodes[n]).kind,
        after.nodes[n].slots,
    ) by {
        if n < count {
            assert(tree.has_shape(tree.nodes[n].kind, tree.nodes[n].slots));
        }
    }
    assert forall|n: int, i: int, j: int|
        0 <= n < after.nodes.len() && 0 <= i < j < after.nodes[n].slots.len()
            && #[trigger] after.nodes[n].slots[i] == #[trigger] after.nodes[n].slots[
            j] implies after.nodes[n].slots[i] is Empty by {
        if n < count {
            assert(tree.nodes[n].slots[i] == tree.nodes[n].slots[j]);
        }
    }
}

/// What a sequence contains after a push.
proof fn lemma_contains_push<A>(elements: Seq<A>, last: A, element: A)
    ensures
        elements.push(last).contains(element) == (elements.contains(element) || element == last),
{
    let pushed = elements.push(last);
    if elements.contains(element) {
        let i = choose|i: int| 0 <= i < elements.len() && elements[i] == element;
        assert(pushed[i] == element);
    }
    if element == last {
        assert(pushed[elements.len() as int] == element);
    }
}

/// A tree with another token that has no parent is well-formed.
proof fn lemma_with_token(tree: TreeView, token: TokenView)
    requires
        tree.well_formed(),
        tree.tokens.len() < usize::MAX,
    ensures
        (TreeView {
            tokens: tree.tokens.push(token),
            token_parents: tree.token_parents.push(None),
            ..tree
        }).well_formed(),
{
    let after = TreeView {
        tokens: tree.tokens.push(token),
        token_parents: tree.token_parents.push(None),
        ..tree
    };
    assert forall|n: int, i: int|
        0 <= n < after.nodes.len() && 0 <= i < after.nodes[n].slots.len() implies after.is_child(
        n,
        #[trigger] after.nodes[n].slots[i],
    ) by {
        assert(tree.is_child(n, tree.nodes[n].slots[i]));
    }
    assert forall|n: int| 0 <= n < after.nodes.len() implies after.holds(
        (#[trigger] after.nodes[n]).parent,
        Slot::Node(NodeId { index: n as usize }),
    ) by {
        assert(tree.holds(tree.nodes[n].parent, Slot::Node(NodeId { index: n as usize })));
    }
    assert forall|t: int| 0 <= t < after.tokens.len() implies after.holds(
        #[trigger] after.token_parents[t],
        Slot::Token(TokenId { index: t as usize }),
    ) by {
        if t < tree.tokens.len() {
            assert(tree.holds(tree.token_parents[t], Slot::Token(TokenId { index: t as usize })));
        }
    }
    assert forall|n: int| 0 <= n < after.nodes.len() implies after.has_shape(
        (#[trigger] after.nodes[n]).kind,
        after.nodes[n].slots,
    ) by {
        assert(tree.has_shape(tree.nodes[n].kind, tree.nodes[n].slots));
    }
}

impl SyntaxTree {
    /// A tree without nodes.
    pub fn new() -> (tree: Self)
        ensures
            tree@ == (TreeView {
                nodes: Seq::empty(),
                tokens: Seq::empty(),
                token_parents: Seq::empty(),
            }),
            tree@.well_formed(),
    {
        let tree = SyntaxTree { nodes: Vec::new(), tokens: Vec::new(), token_parents: Vec::new() };
        proof {
            assert(tree@ =~= (TreeView {
                nodes: Seq::empty(),
                tokens: Seq::empty(),
                token_parents: Seq::empty(),
            }));
        }
        tree
    }

    /// Adds a token that has no parent yet. Returns `None` if there are too many tokens.
    pub fn add_token(&mut self, token: SyntaxToken) -> (id: Option<TokenId>)
        requires
            old(self)@.well_formed(),
        ensures
            final(self)@.well_formed(),
            match id {
                Some(id) => {
                    &&& id.index == old(self)@.tokens.len()
                    &&& final(self)@ == (TreeView {
                        tokens: old(self)@.tokens.push(token@),
                        token_parents: old(self)@.token_parents.push(None),
                        ..old(self)@
                    })
                },
                None => {
                    &&& old(self)@.tokens.len() == usize::MAX
                    &&& final(self)@ == old(self)@
                },
            },
    {
        let ghost before = self@;
        let index: usize = self.tokens.len();
        if index == usize::MAX {
            return None;
        }
        proof {
            lemma_with_token(before, token@);
        }
        self.tokens.push(token);
        self.token_parents.push(None);
        assert(self@ =~= (TreeView {
            tokens: before.tokens.push(token@),
            token_parents: before.token_parents.push(None),
            ..before
        }));
        Some(TokenId { index })
    }

    /// Whether a new node can have the child in the slot.
    fn is_free(&self, slot: Slot) -> (free: bool)
        requires
            self@.well_formed(),
        ensures
            free == self@.is_free(slot),
    {
        match slot {
            Slot::Node(node) => node.index < self.nodes.len()
                && self.nodes[node.index].parent.is_none(),
            Slot::Token(token) => token.index < self.tokens.len()
                && self.token_parents[token.index].is_none(),
            Slot::Empty => true,
        }
    }

    /// Whether what is in the slot at `index` occurs again behind it.
    fn is_repeated(slots: &[Slot], index: usize) -> (repeated: bool)
        requires
            index < slots@.len(),
        ensures
            repeated == exists|j: int|
                index < j < slots@.len() && #[trigger] slots@[j] == slots@[index as int],
    {
        let count: usize = slots.len();
        let mut other: usize = index + 1;
        while other < count
            invariant
                count == slots@.len(),
                index < other <= slots@.len(),
                forall|j: int| index < j < other ==> #[trigger] slots@[j] != slots@[index as int],
            decreases slots@.len() - other,
        {
            if slots[other] == slots[index] {
                return true;
            }
            other = other + 1;
        }
        false
    }

    /// Whether the children are what the kind of the node asks for.
    fn has_shape(&self, kind: SyntaxKind, slots: &[Slot]) -> (fits: bool)
        requires
            self@.well_formed(),
        ensures
            fits == self@.has_shape(kind, slots@),
    {
        match kind {
            SyntaxKind::JsVariableDeclaratorList
            | SyntaxKind::JsParameterList
            | SyntaxKind::JsConstructorParameterList
            | SyntaxKind::JsObjectMemberList => {
                let mut index: usize = 0;
                while index < slots.len()
                    invariant
                        index <= slots@.len(),
                        forall|i: int|
                            0 <= i < index && i % 2 == 0 ==> !(#[trigger] slots@[i] is Token),
                        forall|i: int|
                            0 <= i < index && i % 2 == 1 ==> !(#[trigger] slots@[i] is Node),
                        is_separated_list(kind),
                    decreases slots@.len() - index,
                {
                    match slots[index] {
                        Slot::Token(_) => {
                            if index % 2 == 0 {
                                assert(slots@[index as int] is Token);
                                return false;
                            }
                        },
                        Slot::Node(_) => {
                            if index % 2 == 1 {
                                assert(slots@[index as int] is Node);
                                return false;
                            }
                        },
                        Slot::Empty => {},
                    }
                    index = index + 1;
                }
                true
            },
            SyntaxKind::JsxChildList => {
                let mut index: usize = 0;
                while index < slots.len()
                    invariant
                        index <= slots@.len(),
                        forall|i: int| 0 <= i < index ==> #[trigger] slots@[i] is Node,
                        kind == SyntaxKind::JsxChildList,
                    decreases slots@.len() - index,
                {
                    match slots[index] {
                        Slot::Node(_) => {},
                        _ => {
                            assert(!(slots@[index as int] is Node));
                            return false;
                        },
                    }
                    index = index + 1;
                }
                true
            },
            SyntaxKind::JsxElement | SyntaxKind::JsxFragment => {
                if slots.len() < 2 {
                    return false;
                }
                match slots[1] {
                    Slot::Node(list) => list.index < self.nodes.len()
                        && self.nodes[list.index].kind == SyntaxKind::JsxChildList,
                    _ => false,
                }
            },
            _ => true,
        }
    }

    /// Whether a node with the given children can be added.
    fn fits(&self, kind: SyntaxKind, slots: &[Slot]) -> (fits: bool)
        requires
            self@.well_formed(),
        ensures
            fits == self@.fits(kind, slots@),
    {
        let mut index: usize = 0;
        while index < slots.len()
            invariant
                self@.well_formed(),
                index <= slots@.len(),
                forall|i: int| 0 <= i < index ==> self@.is_free(#[trigger] slots@[i]),
                forall|i: int, j: int|
                    0 <= i < index && i < j < slots@.len() && #[trigger] slots@[i]
                        == #[trigger] slots@[j] ==> slots@[i] is Empty,
            decreases slots@.len() - index,
        {
            if !self.is_free(slots[index]) {
                assert(!self@.is_free(slots@[index as int]));
                return false;
            }
            if slots[index] != Slot::Empty && Self::is_repeated(slots, index) {
                return false;
            }
            index = index + 1;
        }
        self.has_shape(kind, slots)
    }

    /// Adds a node with the given children. Returns `None` if there cannot be such a node: if a
    /// child has a parent already or occurs twice, if the kind of the node asks for other children,
    /// or if there are too many nodes.
    pub fn add_node(&mut self, kind: SyntaxKind, slots: Vec<Slot>) -> (id: Option<NodeId>)
        requires
            old(self)@.well_formed(),
        ensures
            final(self)@.well_formed(),
            match id {
                Some(id) => {
                    &&& old(self)@.fits(kind, slots@)
                    &&& id.index == old(self)@.nodes.len()
                    &&& final(self)@ == old(self)@.with_node(kind, slots@)
                },
                None => {
                    &&& !old(self)@.fits(kind, slots@) || old(self)@.nodes.len() == usize::MAX
                    &&& final(self)@ == old(self)@
                },
            },
    {
        let ghost before = self@;
        let index: usize = self.nodes.len();
        if index == usize::MAX || !self.fits(kind, slots.as_slice()) {
            return None;
        }
        let id = NodeId { index };
        proof {
            lemma_with_node(before, kind, slots@);
        }
        let mut next: usize = 0;
        while next < slots.len()
            invariant
                before == old(self)@,
                before.well_formed(),
                before.fits(kind, slots@),
                next <= slots@.len(),
                index == before.nodes.len(),
                id == (NodeId { index }),
                self@.tokens == before.tokens,
                self@.nodes.len() == before.nodes.len(),
                self@.token_parents.len() == before.token_parents.len(),
                forall|n: int|
                    #![trigger self@.nodes[n]]
                    0 <= n < before.nodes.len() ==> self@.nodes[n] == (if slots@.take(
                        next as int,
                    ).contains(Slot::Node(NodeId { index: n as usize })) {
                        NodeView { parent: Some(id), ..before.nodes[n] }
                    } else {
                        before.nodes[n]
                    }),
                forall|t: int|
                    #![trigger self@.token_parents[t]]
                    0 <= t < before.tokens.len() ==> self@.token_parents[t] == (if slots@.take(
                        next as int,
                    ).contains(Slot::Token(TokenId { index: t as usize })) {
                        Some(id)
                    } else {
                        before.token_parents[t]
                    }),
            decreases slots@.len() - next,
        {
            let slot: Slot = slots[next];
            let ghost turn = self@;
            proof {
                assert(before.is_free(slots@[next as int]));
                assert(slots@.take(next + 1) =~= slots@.take(next as int).push(slot));
            }
            match slot {
                Slot::Node(child) => {
                    let mut data = NodeData { kind, parent: Some(id), slots: Vec::new() };
                    std::mem::swap(&mut data, &mut self.nodes[child.index]);
                    data.parent = Some(id);
                    std::mem::swap(&mut data, &mut self.nodes[child.index]);
                },
                Slot::Token(token) => {
                    self.token_parents.set(token.index, Some(id));
                },
                Slot::Empty => {},
            }
            proof {
                let taken = slots@.take(next as int);
                assert forall|n: int| 0 <= n < before.nodes.len() implies #[trigger] self@.nodes[n]
                    == (if taken.push(slot).contains(Slot::Node(NodeId { index: n as usize })) {
                    NodeView { parent: Some(id), ..before.nodes[n] }
                } else {
                    before.nodes[n]
                }) by {
                    lemma_contains_push(taken, slot, Slot::Node(NodeId { index: n as usize }));
                    assert(turn.nodes[n].kind == before.nodes[n].kind);
                    if slot == Slot::Node(NodeId { index: n as usize }) {
                        assert(self@.nodes[n] =~= NodeView { parent: Some(id), ..turn.nodes[n] });
                    } else {
                        assert(self@.nodes[n] == turn.nodes[n]);
                    }
                }
                assert forall|t: int| 0 <= t < before.tokens.len() implies #[trigger] self@.token_parents[t]
                    == (if taken.push(slot).contains(Slot::Token(TokenId { index: t as usize })) {
                    Some(id)
                } else {
                    before.token_parents[t]
                }) by {
                    lemma_contains_push(taken, slot, Slot::Token(TokenId { index: t as usize }));
                    assert(turn.token_parents[t] == (if taken.contains(
                        Slot::Token(TokenId { index: t as usize }),
                    ) {
                        Some(id)
                    } else {
                        before.token_parents[t]
                    }));
                }
            }
            next = next + 1;
        }
        assert(slots@.take(slots@.len() as int) =~= slots@);
        let ghost linked = self@;
        self.nodes.push(NodeData { kind, parent: None, slots });
        proof {
            let after = before.with_node(kind, slots@);
            assert forall|n: int| 0 <= n < after.nodes.len() implies #[trigger] self@.nodes[n]
                == after.nodes[n] by {
                if n < before.nodes.len() {
                    assert(self@.nodes[n] == linked.nodes[n]);
                }
            }
            assert forall|t: int| 0 <= t < after.token_parents.len() implies #[trigger] self@.token_parents[t]
                == after.token_parents[t] by {
                assert(self@.token_parents[t] == linked.token_parents[t]);
            }
            assert(self@.nodes =~= after.nodes);
        }
        assert(self@ =~= before.with_node(kind, slots@));
        Some(id)
    }

    /// The kind of a node.
    pub fn kind(&self, node: NodeId) -> (kind: SyntaxKind)
        requires
            self@.has_node(node),
        ensures
            kind == self@.node(node).kind,
    {
        self.nodes[node.index].kind
    }

    /// The parent of a node.
    pub fn parent(&self, node: NodeId) -> (parent: Option<NodeId>)
        requires
            self@.has_node(node),
        ensures
            parent == self@.node(node).parent,
    {
        self.nodes[node.index].parent
    }

    /// The parent of a node, if it is of the given kind.
    pub fn parent_of_kind(&self, node: NodeId, kind: SyntaxKind) -> (parent: Option<NodeId>)
        requires
            self@.well_formed(),
            self@.has_node(node),
        ensures
            parent == self@.parent_of_kind(node, kind),
            parent matches Some(parent) ==> self@.has_node(parent),
    {
        proof {
            lemma_parent(self@, node);
        }
        match self.parent(node) {
            Some(parent) => if self.kind(parent) == kind {
                Some(parent)
            } else {
                None
            },
            None => None,
        }
    }

    /// The children of a node.
    pub fn slots(&self, node: NodeId) -> (slots: &[Slot])
        requires
            self@.has_node(node),
        ensures
            slots@ == self@.node(node).slots,
    {
        self.nodes[node.index].slots.as_slice()
    }

    /// The tokens of a node, in the order of the text.
    pub fn tokens(&self, node: NodeId) -> (tokens: Vec<TokenId>)
        requires
            self@.well_formed(),
            self@.has_node(node),
        ensures
            tokens@ == self@.tokens_of(node),
    {
        let mut tokens: Vec<TokenId> = Vec::new();
        let count: usize = self.slots(node).len();
        self.collect_tokens(node, 0, count, &mut tokens);
        proof {
            let slots = self@.node(node).slots;
            assert(slots.subrange(0, count as int) =~= slots);
            assert(tokens@ =~= self@.tokens_of(node));
        }
        tokens
    }

    /// Appends the tokens in the slots of a node from `start` to `end`, in the order of the text.
    fn collect_tokens(&self, node: NodeId, start: usize, end: usize, tokens: &mut Vec<TokenId>)
        requires
            self@.well_formed(),
            self@.has_node(node),
            start <= end <= self@.node(node).slots.len(),
        ensures
            final(tokens)@ == old(tokens)@ + self@.tokens_in(
                self@.node(node).slots.subrange(start as int, end as int),
                node.index as nat,
            ),
        decreases node.index,
    {
        let slots = self.slots(node);
        let ghost before = tokens@;
        let mut index: usize = start;
        assert(tokens@ =~= before + self@.tokens_in(
            slots@.subrange(start as int, start as int),
            node.index as nat,
        ));
        while index < end
            invariant
                self@.well_formed(),
                self@.has_node(node),
                slots@ == self@.node(node).slots,
                start <= index <= end <= slots@.len(),
                before == old(tokens)@,
                tokens@ == before + self@.tokens_in(
                    slots@.subrange(start as int, index as int),
                    node.index as nat,
                ),
            decreases end - index,
        {
            proof {
                let next = slots@.subrange(start as int, index + 1);
                assert(next.drop_last() =~= slots@.subrange(start as int, index as int));
                assert(next.last() == slots@[index as int]);
                assert(self@.is_child(
                    node.index as int,
                    self@.nodes[node.index as int].slots[index as int],
                ));
            }
            match slots[index] {
                Slot::Node(child) => {
                    let count: usize = self.slots(child).len();
                    self.collect_tokens(child, 0, count, tokens);
                    assert(self@.node(child).slots.subrange(0, count as int) =~= self@.node(
                        child,
                    ).slots);
                },
                Slot::Token(token) => {
                    tokens.push(token);
                },
                Slot::Empty => {},
            }
            assert(tokens@ =~= before + self@.tokens_in(
                slots@.subrange(start as int, index + 1),
                node.index as nat,
            ));
            index = index + 1;
        }
    }

    /// The index of the slot that holds the child.
    pub fn slot_of(&self, parent: NodeId, child: NodeId) -> (index: usize)
        requires
            self@.has_node(parent),
            self@.node(parent).slots.contains(Slot::Node(child)),
        ensures
            index < self@.node(parent).slots.len(),
            index == slot_index(self@.node(parent).slots, child),
    {
        let slots = self.slots(parent);
        let mut index: usize = 0;
        assert(slots@.skip(0) =~= slots@);
        while index < slots.len()
            invariant
                index <= slots@.len(),
                slots@ == self@.node(parent).slots,
                slots@.contains(Slot::Node(child)),
                slot_index(slots@, child) == index + slot_index(slots@.skip(index as int), child),
                slots@.skip(index as int).contains(Slot::Node(child)),
            decreases slots@.len() - index,
        {
            let ghost rest = slots@.skip(index as int);
            proof {
                assert(rest[0] == slots@[index as int]);
                assert(rest.drop_first() =~= slots@.skip(index + 1));
                lemma_contains_first(rest, Slot::Node(child));
            }
            if slots[index] == Slot::Node(child) {
                return index;
            }
            index = index + 1;
        }
        proof {
            assert(slots@.skip(index as int) =~= Seq::empty());
        }
        index
    }

    /// The token behind a node.
    pub fn next_token(&self, node: NodeId) -> (token: Option<TokenId>)
        requires
            self@.well_formed(),
            self@.has_node(node),
        ensures
            match token {
                Some(token) => self@.tokens_behind(node).len() > 0 && token
                    == self@.tokens_behind(node).first(),
                None => self@.tokens_behind(node).len() == 0,
            },
    {
        let mut inner = node;
        loop
            invariant
                self@.well_formed(),
                self@.has_node(inner),
                self@.tokens_behind(inner) == self@.tokens_behind(node),
            decreases self@.nodes.len() - inner.index,
        {
            proof {
                lemma_parent(self@, inner);
            }
            match self.parent(inner) {
                None => {
                    return None;
                },
                Some(parent) => {
                    let index: usize = self.slot_of(parent, inner);
                    let count: usize = self.slots(parent).len();
                    let mut tokens: Vec<TokenId> = Vec::new();
                    self.collect_tokens(parent, index + 1, count, &mut tokens);
                    if tokens.len() > 0 {
                        assert(tokens@ =~= self@.siblings_behind(parent, inner));
                        return Some(tokens[0]);
                    }
                    proof {
                        assert(self@.siblings_behind(parent, inner) =~= Seq::empty());
                        assert(self@.tokens_behind(inner) =~= self@.tokens_behind(parent));
                    }
                    inner = parent;
                },
            }
        }
    }

    /// The token before a node.
    pub fn previous_token(&self, node: NodeId) -> (token: Option<TokenId>)
        requires
            self@.well_formed(),
            self@.has_node(node),
        ensures
            match token {
                Some(token) => self@.tokens_before(node).len() > 0 && token
                    == self@.tokens_before(node).last(),
                None => self@.tokens_before(node).len() == 0,
            },
    {
        let mut inner = node;
        loop
            invariant
                self@.well_formed(),
                self@.has_node(inner),
                self@.tokens_before(inner) == self@.tokens_before(node),
            decreases self@.nodes.len() - inner.index,
        {
            proof {
                lemma_parent(self@, inner);
            }
            match self.parent(inner) {
                None => {
                    return None;
                },
                Some(parent) => {
                    let index: usize = self.slot_of(parent, inner);
                    let mut tokens: Vec<TokenId> = Vec::new();
                    self.collect_tokens(parent, 0, index, &mut tokens);
                    if tokens.len() > 0 {
                        assert(tokens@ =~= self@.siblings_before(parent, inner));
                        return Some(tokens[tokens.len() - 1]);
                    }
                    proof {
                        assert(self@.siblings_before(parent, inner) =~= Seq::empty());
                        assert(self@.tokens_before(inner) =~= self@.tokens_before(parent));
                    }
                    inner = parent;
                },
            }
        }
    }

    /// A token.
    pub fn token(&self, token: TokenId) -> (data: &SyntaxToken)
        requires
            self@.has_token(token),
        ensures
            data@ == self@.token(token),
    {
        &self.tokens[token.index]
    }
}

} // verus!
