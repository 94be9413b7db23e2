//! Batches of edits of a JavaScript syntax tree.

pub mod laws;

use crate::syntax::{
    all_nodes, lemma_parent, lemma_tokens_around_belong, node_in, slot_index, trivia_views, NodeId,
    Slot, SyntaxKind, SyntaxToken, SyntaxTree, TokenId, TokenView, TreeView, TriviaPiece,
    TriviaPieceKind, TriviaView,
};
use vstd::prelude::*;

verus! {

/// A declarator of a variable declaration.
#[derive(Clone, Copy, Debug, PartialEq, Eq, Structural)]
pub struct JsVariableDeclarator {
    pub syntax: NodeId,
}

/// A parameter of a function or of a constructor.
#[derive(Clone, Copy, Debug, PartialEq, Eq, Structural)]
pub struct JsFormalParameter {
    pub syntax: NodeId,
}

/// A member of an object.
#[derive(Clone, Copy, Debug, PartialEq, Eq, Structural)]
pub struct AnyJsObjectMember {
    pub syntax: NodeId,
}

/// A statement.
#[derive(Clone, Copy, Debug, PartialEq, Eq, Structural)]
pub struct AnyJsStatement {
    pub syntax: NodeId,
}

/// A child of a JSX element.
#[derive(Clone, Copy, Debug, PartialEq, Eq, Structural)]
pub struct AnyJsxChild {
    pub syntax: NodeId,
}

/// A child of a new node.
#[derive(Debug, PartialEq, Eq)]
pub enum NewSlot {
    /// A node of the tree.
    Node(NodeId),
    /// A token with the given text, without trivia.
    Token(String),
}

/// A child of a new node.
pub enum NewSlotView {
    Node(NodeId),
    Token(Seq<char>),
}

impl View for NewSlot {
    type V = NewSlotView;

    open spec fn view(&self) -> NewSlotView {
        match self {
            NewSlot::Node(node) => NewSlotView::Node(*node),
            NewSlot::Token(text) => NewSlotView::Token(text@),
        }
    }
}

/// A node to put into the tree.
#[derive(Debug, PartialEq, Eq)]
pub struct NewNode {
    pub kind: SyntaxKind,
    pub slots: Vec<NewSlot>,
}

/// A node to put into the tree.
#[verifier::ext_equal]
pub struct NewNodeView {
    pub kind: SyntaxKind,
    pub slots: Seq<NewSlotView>,
}

impl View for NewNode {
    type V = NewNodeView;

    open spec fn view(&self) -> NewNodeView {
        NewNodeView {
            kind: self.kind,
            slots: self.slots@.map_values(|slot: NewSlot| slot@),
        }
    }
}

/// An edit of a tree.
#[allow(inconsistent_fields)]
#[derive(Debug, PartialEq, Eq)]
pub enum Change {
    RemoveNode(NodeId),
    RemoveToken(TokenId),
    ReplaceNode {
        node: NodeId,
        new_node: NewNode,
        /// Whether the trivia around the node is kept.
        keeps_trivia: bool,
    },
    ReplaceToken {
        token: TokenId,
        new_token: SyntaxToken,
        /// Whether the trivia around the token is kept.
        keeps_trivia: bool,
    },
}

/// An edit of a tree.
#[allow(inconsistent_fields)]
pub enum ChangeView {
    RemoveNode(NodeId),
    RemoveToken(TokenId),
    ReplaceNode { node: NodeId, new_node: NewNodeView, keeps_trivia: bool },
    ReplaceToken { token: TokenId, new_token: TokenView, keeps_trivia: bool },
}

impl View for Change {
    type V = ChangeView;

    open spec fn view(&self) -> ChangeView {
        match self {
            Change::RemoveNode(node) => ChangeView::RemoveNode(*node),
            Change::RemoveToken(token) => ChangeView::RemoveToken(*token),
            Change::ReplaceNode { node, new_node, keeps_trivia } => ChangeView::ReplaceNode {
                node: *node,
                new_node: new_node@,
                keeps_trivia: *keeps_trivia,
            },
            Change::ReplaceToken { token, new_token, keeps_trivia } => ChangeView::ReplaceToken {
                token: *token,
                new_token: new_token@,
                keeps_trivia: *keeps_trivia,
            },
        }
    }
}

/// The removal of the token in a slot, if there is one.
pub open spec fn token_removed(slots: Seq<Slot>, index: int) -> Seq<ChangeView> {
    if 0 <= index < slots.len() {
        match slots[index] {
            Slot::Token(token) => seq![ChangeView::RemoveToken(token)],
            _ => Seq::empty(),
        }
    } else {
        Seq::empty()
    }
}

/// Whether nothing follows the node at `index` in a list with separators. If `skips_missing` is set,
/// a missing node is nothing.
pub open spec fn is_last_element(slots: Seq<Slot>, index: int, skips_missing: bool) -> bool {
    index + 2 >= slots.len() || (skips_missing && !(slots[index + 2] is Node))
}

/// The removal of a node from a list with separators: the node, the separator behind it and, if
/// nothing follows the node, the separator before it.
pub open spec fn element_removed(slots: Seq<Slot>, node: NodeId, skips_missing: bool) -> Seq<
    ChangeView,
> {
    let index = slot_index(slots, node);
    seq![ChangeView::RemoveNode(node)] + token_removed(slots, index + 1) + (if is_last_element(
        slots,
        index,
        skips_missing,
    ) {
        token_removed(slots, index - 1)
    } else {
        Seq::empty()
    })
}

/// Whether a list holds no other node.
pub open spec fn is_only_node(slots: Seq<Slot>, node: NodeId) -> bool {
    forall|i: int|
        0 <= i < slots.len() ==> (#[trigger] slots[i] is Node ==> slots[i] == Slot::Node(node))
}

/// The removal of a variable declarator, or `None` if it is not a declarator that can be removed: of
/// the whole statement if there is no other declarator, and from the list otherwise.
pub open spec fn declarator_removed(tree: TreeView, node: NodeId) -> Option<Seq<ChangeView>> {
    match tree.parent_of_kind(node, SyntaxKind::JsVariableDeclaratorList) {
        None => None,
        Some(list) => match tree.parent_of_kind(list, SyntaxKind::JsVariableDeclaration) {
            None => None,
            Some(declaration) => if is_only_node(tree.node(list).slots, node) {
                match tree.parent_of_kind(declaration, SyntaxKind::JsVariableStatement) {
                    None => None,
                    Some(statement) => Some(seq![ChangeView::RemoveNode(statement)]),
                }
            } else {
                Some(element_removed(tree.node(list).slots, node, true))
            },
        },
    }
}

/// The removal of a parameter, or `None` if it is not in a list of parameters.
pub open spec fn parameter_removed(tree: TreeView, node: NodeId) -> Option<Seq<ChangeView>> {
    match tree.node(node).parent {
        Some(list) if tree.node(list).kind == SyntaxKind::JsParameterList || tree.node(list).kind
            == SyntaxKind::JsConstructorParameterList => Some(
            element_removed(tree.node(list).slots, node, false),
        ),
        _ => None,
    }
}

/// The removal of a member of an object, or `None` if it is not in a list of members: the separator
/// before it stays.
pub open spec fn member_removed(tree: TreeView, node: NodeId) -> Option<Seq<ChangeView>> {
    match tree.parent_of_kind(node, SyntaxKind::JsObjectMemberList) {
        Some(list) => {
            let slots = tree.node(list).slots;
            Some(
                seq![ChangeView::RemoveNode(node)] + token_removed(
                    slots,
                    slot_index(slots, node) + 1,
                ),
            )
        },
        None => None,
    }
}

/// An empty statement.
pub open spec fn empty_statement() -> NewNodeView {
    NewNodeView {
        kind: SyntaxKind::JsEmptyStatement,
        slots: seq![NewSlotView::Token(seq![';'])],
    }
}

/// The removal of a statement: from a list of statements, or by putting an empty statement in its
/// place. A statement without a parent is left alone.
pub open spec fn statement_removed(tree: TreeView, node: NodeId) -> Seq<ChangeView> {
    match tree.node(node).parent {
        None => Seq::empty(),
        Some(parent) => if tree.node(parent).kind == SyntaxKind::JsStatementList || tree.node(
            parent,
        ).kind == SyntaxKind::JsModuleItemList {
            seq![ChangeView::RemoveNode(node)]
        } else {
            seq![
                ChangeView::ReplaceNode {
                    node,
                    new_node: empty_statement(),
                    keeps_trivia: true,
                },
            ]
        },
    }
}

/// The trivia without a line break at its start.
pub open spec fn without_newline(pieces: Seq<TriviaView>) -> Seq<TriviaView> {
    if pieces.len() > 0 && pieces[0].kind == TriviaPieceKind::Newline {
        pieces.drop_first()
    } else {
        pieces
    }
}

/// The transfer of the leading trivia of a node to the token behind it, in front of the trivia there
/// without its line break, or else to the end of the trailing trivia of the token before the node.
pub open spec fn trivia_transferred(tree: TreeView, node: NodeId) -> Seq<ChangeView> {
    let own = tree.tokens_of(node);
    let behind = tree.tokens_behind(node);
    let before = tree.tokens_before(node);
    if own.len() == 0 {
        Seq::empty()
    } else if behind.len() > 0 {
        let next = tree.token(behind.first());
        seq![
            ChangeView::ReplaceToken {
                token: behind.first(),
                new_token: TokenView {
                    leading: tree.token(own.first()).leading + without_newline(next.leading),
                    ..next
                },
                keeps_trivia: false,
            },
        ]
    } else if before.len() > 0 {
        let previous = tree.token(before.last());
        seq![
            ChangeView::ReplaceToken {
                token: before.last(),
                new_token: TokenView {
                    trailing: previous.trailing + tree.token(own.first()).leading,
                    ..previous
                },
                keeps_trivia: false,
            },
        ]
    } else {
        Seq::empty()
    }
}

/// The children in a list of JSX children.
pub open spec fn jsx_children(slots: Seq<Slot>) -> Seq<AnyJsxChild> {
    Seq::new(slots.len(), |i: int| AnyJsxChild { syntax: node_in(slots[i])->Some_0 })
}

/// The index of a child, or the number of children if it is not one of them.
pub open spec fn child_index(children: Seq<AnyJsxChild>, child: AnyJsxChild) -> int
    decreases children.len(),
{
    if children.len() == 0 || children[0] == child {
        0
    } else {
        1 + child_index(children.drop_first(), child)
    }
}

/// A list of JSX children.
pub open spec fn jsx_child_list(children: Seq<AnyJsxChild>) -> NewNodeView {
    NewNodeView {
        kind: SyntaxKind::JsxChildList,
        slots: children.map_values(|child: AnyJsxChild| NewSlotView::Node(child.syntax)),
    }
}

/// Where new children go.
#[derive(Clone, Copy, Debug, PartialEq, Eq, Structural)]
pub enum Placement {
    /// Behind a child.
    After,
    /// Before a child.
    Before,
    /// In the place of a child.
    Replacing,
}

/// The children with new ones behind, before or in the place of a child, or at the end if that is not
/// one of them.
pub open spec fn children_placed(
    children: Seq<AnyJsxChild>,
    child: AnyJsxChild,
    new_children: Seq<AnyJsxChild>,
    placement: Placement,
) -> Seq<AnyJsxChild> {
    let index = child_index(children, child);
    if index >= children.len() {
        children + new_children
    } else {
        match placement {
            Placement::After => children.take(index + 1) + new_children + children.skip(index + 1),
            Placement::Before => children.take(index) + new_children + children.skip(index),
            Placement::Replacing => children.take(index) + new_children + children.skip(index + 1),
        }
    }
}

/// The change of a list of JSX children, or `None` if the child is not in such a list.
pub open spec fn list_changed(
    tree: TreeView,
    child: AnyJsxChild,
    new_children: Seq<AnyJsxChild>,
    placement: Placement,
) -> Option<Seq<ChangeView>> {
    match tree.parent_of_kind(child.syntax, SyntaxKind::JsxChildList) {
        None => None,
        Some(list) => Some(
            seq![
                ChangeView::ReplaceNode {
                    node: list,
                    new_node: jsx_child_list(
                        children_placed(
                            jsx_children(tree.node(list).slots),
                            child,
                            new_children,
                            placement,
                        ),
                    ),
                    keeps_trivia: false,
                },
            ],
        ),
    }
}

/// The children of a JSX element or fragment, or `None` if the node is neither.
pub open spec fn own_children(tree: TreeView, element: AnyJsxChild) -> Option<Seq<AnyJsxChild>> {
    let node = tree.node(element.syntax);
    if node.kind == SyntaxKind::JsxElement || node.kind == SyntaxKind::JsxFragment {
        match node.slots[1] {
            Slot::Node(list) => Some(jsx_children(tree.node(list).slots)),
            _ => None,
        }
    } else {
        None
    }
}

/// The change of a list of JSX children in which the children of an element or fragment take its
/// place, or `None` if the node is neither or is not in such a list.
pub open spec fn element_unwrapped(tree: TreeView, element: AnyJsxChild) -> Option<
    Seq<ChangeView>,
> {
    match own_children(tree, element) {
        Some(children) => list_changed(tree, element, children, Placement::Replacing),
        None => None,
    }
}

/// Whether `changes`, if any, were recorded.
pub open spec fn records(
    before: Seq<ChangeView>,
    changes: Option<Seq<ChangeView>>,
    done: bool,
    after: Seq<ChangeView>,
) -> bool {
    match changes {
        Some(changes) => done && after == before + changes,
        None => !done && after == before,
    }
}

/// Edits of a JavaScript syntax tree that keep it valid.
pub trait JsBatchMutation {
    /// The tree that is edited.
    spec fn syntax(&self) -> TreeView;

    /// The edits that are recorded.
    spec fn recorded(&self) -> Seq<ChangeView>;

    /// The tree that is edited. It stays as it is until the edits are applied.
    fn tree(&self) -> (tree: &SyntaxTree)
        ensures
            tree@ == self.syntax(),
    ;

    /// Removes the declarator, and:
    /// 1 - removes the statement if the declaration only has one declarator;
    /// 2 - removes commas around the declarator to keep the list valid.
    fn remove_js_variable_declarator(&mut self, declarator: &JsVariableDeclarator) -> (removed:
        bool)
        requires
            old(self).syntax().well_formed(),
            old(self).syntax().has_node(declarator.syntax),
        ensures
            final(self).syntax() == old(self).syntax(),
            records(
                old(self).recorded(),
                declarator_removed(old(self).syntax(), declarator.syntax),
                removed,
                final(self).recorded(),
            ),
    ;

    /// Removes the parameter, and:
    /// 1 - removes commas around the parameter to keep the list valid.
    fn remove_js_formal_parameter(&mut self, parameter: &JsFormalParameter) -> (removed: bool)
        requires
            old(self).syntax().well_formed(),
            old(self).syntax().has_node(parameter.syntax),
        ensures
            final(self).syntax() == old(self).syntax(),
            records(
                old(self).recorded(),
                parameter_removed(old(self).syntax(), parameter.syntax),
                removed,
                final(self).recorded(),
            ),
    ;

    /// Removes the object member, and:
    /// 1 - removes commas around the member to keep the list valid.
    fn remove_js_object_member(&mut self, member: AnyJsObjectMember) -> (removed: bool)
        requires
            old(self).syntax().well_formed(),
            old(self).syntax().has_node(member.syntax),
        ensures
            final(self).syntax() == old(self).syntax(),
            records(
                old(self).recorded(),
                member_removed(old(self).syntax(), member.syntax),
                removed,
                final(self).recorded(),
            ),
    ;

    /// Remove the statement, by either
    /// - removing it from its parent if the parent is a list of statements, or
    /// - removing it from the module item list, or
    /// - replacing it with an empty statement.
    fn remove_statement(&mut self, statement: AnyJsStatement)
        requires
            old(self).syntax().well_formed(),
            old(self).syntax().has_node(statement.syntax),
        ensures
            final(self).syntax() == old(self).syntax(),
            final(self).recorded() == old(self).recorded() + statement_removed(
                old(self).syntax(),
                statement.syntax,
            ),
    ;

    /// Transfer leading trivia to the next sibling.
    /// If there is no next sibling, then transfer to the previous sibling.
    /// Otherwise do nothing.
    fn transfer_leading_trivia_to_sibling(&mut self, node: NodeId)
        requires
            old(self).syntax().well_formed(),
            old(self).syntax().has_node(node),
        ensures
            final(self).syntax() == old(self).syntax(),
            final(self).recorded() == old(self).recorded() + trivia_transferred(
                old(self).syntax(),
                node,
            ),
    ;

    /// It attempts to add new elements after the given element.
    ///
    /// The function appends the elements at the end if `after_element` isn't found.
    fn add_jsx_elements_after_element(
        &mut self,
        after_element: &AnyJsxChild,
        new_elements: Vec<AnyJsxChild>,
    ) -> (added: bool)
        requires
            old(self).syntax().well_formed(),
            old(self).syntax().has_node(after_element.syntax),
        ensures
            final(self).syntax() == old(self).syntax(),
            records(
                old(self).recorded(),
                list_changed(
                    old(self).syntax(),
                    *after_element,
                    new_elements@,
                    Placement::After,
                ),
                added,
                final(self).recorded(),
            ),
    ;

    /// It attempts to add new elements before the given element.
    fn add_jsx_elements_before_element(
        &mut self,
        before_element: &AnyJsxChild,
        new_elements: Vec<AnyJsxChild>,
    ) -> (added: bool)
        requires
            old(self).syntax().well_formed(),
            old(self).syntax().has_node(before_element.syntax),
        ensures
            final(self).syntax() == old(self).syntax(),
            records(
                old(self).recorded(),
                list_changed(
                    old(self).syntax(),
                    *before_element,
                    new_elements@,
                    Placement::Before,
                ),
                added,
                final(self).recorded(),
            ),
    ;

    /// Adds a list of jsx elements replacing the given element.
    ///
    /// If you want to replace an element with it's children, use
    /// [`Self::replace_jsx_element_with_own_children`].
    ///
    /// ### Example:
    ///
    /// Before replacing the `<li>foo</li>`:
    /// ```jsx
    /// <ul>
    ///     <li>foo</li>
    ///     <li>bar</li>
    /// </ul>
    /// ```
    /// After:
    /// ```jsx
    /// <ul>
    ///     <li>baz</li>
    ///     <li>qux</li>
    ///     <li>bar</li>
    /// </ul>
    /// ```
    fn add_jsx_elements_replacing_element(
        &mut self,
        remove_element: &AnyJsxChild,
        new_elements: Vec<AnyJsxChild>,
    ) -> (added: bool)
        requires
            old(self).syntax().well_formed(),
            old(self).syntax().has_node(remove_element.syntax),
        ensures
            final(self).syntax() == old(self).syntax(),
            records(
                old(self).recorded(),
                list_changed(
                    old(self).syntax(),
                    *remove_element,
                    new_elements@,
                    Placement::Replacing,
                ),
                added,
                final(self).recorded(),
            ),
    ;

    /// Remove a JSX element while preserving it's children.
    ///
    /// ### Example
    ///
    /// Before unwrapping the `<div>`
    /// ```jsx
    /// <div>
    ///     <span>foo</span>
    ///     <span>bar</span>
    /// </div>
    /// ```
    /// After:
    /// ```jsx
    /// <span>foo</span>
    /// <span>bar</span>
    /// ```
    fn replace_jsx_element_with_own_children(&mut self, element: &AnyJsxChild) -> (replaced: bool)
        requires
            old(self).syntax().well_formed(),
            old(self).syntax().has_node(element.syntax),
        ensures
            final(self).syntax() == old(self).syntax(),
            records(
                old(self).recorded(),
                element_unwrapped(old(self).syntax(), *element),
                replaced,
                final(self).recorded(),
            ),
    {
        let children: Vec<AnyJsxChild>;
        match jsx_element_children(self.tree(), *element) {
            Some(own) => {
                children = own;
            },
            None => {
                return false;
            },
        }
        self.add_jsx_elements_replacing_element(element, children)
    }
}

/// The children of a JSX element or fragment.
fn jsx_element_children(tree: &SyntaxTree, element: AnyJsxChild) -> (children: Option<
    Vec<AnyJsxChild>,
>)
    requires
        tree@.well_formed(),
        tree@.has_node(element.syntax),
    ensures
        match children {
            Some(children) => own_children(tree@, element) == Some(children@),
            None => own_children(tree@, element) is None,
        },
{
    match tree.kind(element.syntax) {
        SyntaxKind::JsxElement | SyntaxKind::JsxFragment => {
            proof {
                let node = tree@.nodes[element.syntax.index as int];
                assert(tree@.has_shape(node.kind, node.slots));
            }
            match tree.slots(element.syntax)[1] {
                Slot::Node(list) => Some(child_list(tree, list)),
                _ => None,
            }
        },
        _ => None,
    }
}

/// The children in a list of JSX children.
fn child_list(tree: &SyntaxTree, list: NodeId) -> (children: Vec<AnyJsxChild>)
    requires
        tree@.well_formed(),
        tree@.has_node(list),
        tree@.node(list).kind == SyntaxKind::JsxChildList,
    ensures
        children@ == jsx_children(tree@.node(list).slots),
{
    let slots = tree.slots(list);
    let mut children: Vec<AnyJsxChild> = Vec::new();
    let mut index: usize = 0;
    proof {
        let node = tree@.nodes[list.index as int];
        assert(tree@.has_shape(node.kind, node.slots));
    }
    while index < slots.len()
        invariant
            index <= slots@.len(),
            all_nodes(slots@),
            children@ == jsx_children(slots@.take(index as int)),
        decreases slots@.len() - index,
    {
        assert(slots@[index as int] is Node);
        if let Slot::Node(node) = slots[index] {
            children.push(AnyJsxChild { syntax: node });
        }
        assert(children@ =~= jsx_children(slots@.take(index + 1)));
        index = index + 1;
    }
    assert(slots@.take(slots@.len() as int) =~= slots@);
    children
}

/// Where a child that belongs to a list stands in it.
proof fn lemma_child_index(children: Seq<AnyJsxChild>, child: AnyJsxChild, index: int)
    requires
        0 <= index <= children.len(),
        forall|i: int| 0 <= i < index ==> #[trigger] children[i] != child,
        index < children.len() ==> children[index] == child,
    ensures
        child_index(children, child) == index,
    decreases children.len(),
{
    if index > 0 {
        assert(children[0] != child);
        assert forall|i: int| 0 <= i < index - 1 implies #[trigger] children.drop_first()[i]
            != child by {
            assert(children[i + 1] != child);
        }
        lemma_child_index(children.drop_first(), child, index - 1);
    }
}

/// The children with new ones behind, before or in the place of a child.
fn place_children(
    children: &[AnyJsxChild],
    child: AnyJsxChild,
    new_children: &[AnyJsxChild],
    placement: Placement,
) -> (placed: Vec<AnyJsxChild>)
    ensures
        placed@ == children_placed(children@, child, new_children@, placement),
{
    let mut placed: Vec<AnyJsxChild> = Vec::new();
    let count: usize = children.len();
    let mut index: usize = 0;
    while index < count && children[index] != child
        invariant
            count == children@.len(),
            index <= count,
            placed@ == children@.take(index as int),
            forall|i: int| 0 <= i < index ==> #[trigger] children@[i] != child,
        decreases count - index,
    {
        placed.push(children[index]);
        assert(placed@ =~= children@.take(index + 1));
        index = index + 1;
    }
    proof {
        lemma_child_index(children@, child, index as int);
    }
    let ghost found = index;
    if index < count && placement == Placement::After {
        placed.push(child);
        index = index + 1;
        assert(placed@ =~= children@.take(index as int));
    }
    let ghost start = placed@;
    append_children(&mut placed, new_children, 0);
    if index < count && placement == Placement::Replacing {
        // Intentionally skip this child
        index = index + 1;
    }
    append_children(&mut placed, children, index);
    proof {
        assert(new_children@.skip(0) =~= new_children@);
        assert(placed@ =~= start + new_children@ + children@.skip(index as int));
        assert(placed@ =~= children_placed(children@, child, new_children@, placement));
    }
    placed
}

/// Appends the children from `start` on.
fn append_children(children: &mut Vec<AnyJsxChild>, others: &[AnyJsxChild], start: usize)
    requires
        start <= others@.len(),
    ensures
        final(children)@ == old(children)@ + others@.skip(start as int),
{
    let ghost before = children@;
    let mut index: usize = start;
    assert(children@ =~= before + others@.subrange(start as int, start as int));
    while index < others.len()
        invariant
            start <= index <= others@.len(),
            children@ == before + others@.subrange(start as int, index as int),
        decreases others@.len() - index,
    {
        children.push(others[index]);
        assert(children@ =~= before + others@.subrange(start as int, index + 1));
        index = index + 1;
    }
    assert(children@ =~= before + others@.skip(start as int));
}

/// Appends the pieces from `start` on.
fn append_pieces(pieces: &mut Vec<TriviaPiece>, others: &[TriviaPiece], start: usize)
    requires
        start <= others@.len(),
    ensures
        trivia_views(final(pieces)@) == trivia_views(old(pieces)@) + trivia_views(others@).skip(
            start as int,
        ),
{
    let ghost before = trivia_views(pieces@);
    let mut index: usize = start;
    assert(trivia_views(pieces@) =~= before + trivia_views(others@).subrange(
        start as int,
        start as int,
    ));
    while index < others.len()
        invariant
            start <= index <= others@.len(),
            trivia_views(pieces@) == before + trivia_views(others@).subrange(
                start as int,
                index as int,
            ),
        decreases others@.len() - index,
    {
        let ghost turn = pieces@;
        pieces.push(others[index].copy());
        assert(trivia_views(pieces@) =~= trivia_views(turn).push(others@[index as int]@));
        assert(trivia_views(others@)[index as int] == others@[index as int]@);
        assert(trivia_views(pieces@) =~= before + trivia_views(others@).subrange(
            start as int,
            index + 1,
        ));
        index = index + 1;
    }
    assert(trivia_views(pieces@) =~= before + trivia_views(others@).skip(start as int));
}

/// A batch of edits of a tree. They are recorded to be applied together.
#[derive(Debug)]
pub struct BatchMutation {
    tree: SyntaxTree,
    changes: Vec<Change>,
}

impl BatchMutation {
    /// A batch without edits.
    pub fn new(tree: SyntaxTree) -> (batch: Self)
        ensures
            batch.syntax() == tree@,
            batch.recorded() == Seq::<ChangeView>::empty(),
    {
        let batch = BatchMutation { tree, changes: Vec::new() };
        assert(batch.recorded() =~= Seq::<ChangeView>::empty());
        batch
    }

    /// The edits that are recorded, in the order in which they were made.
    pub fn changes(&self) -> (changes: &[Change])
        ensures
            changes@.map_values(|change: Change| change@) == self.recorded(),
    {
        self.changes.as_slice()
    }

    /// Records an edit.
    fn record(&mut self, change: Change)
        ensures
            final(self).syntax() == old(self).syntax(),
            final(self).recorded() == old(self).recorded() + seq![change@],
    {
        self.changes.push(change);
        assert(self.recorded() =~= old(self).recorded() + seq![change@]);
    }

    /// Removes a node.
    pub fn remove_node(&mut self, node: NodeId)
        ensures
            final(self).syntax() == old(self).syntax(),
            final(self).recorded() == old(self).recorded() + seq![ChangeView::RemoveNode(node)],
    {
        self.record(Change::RemoveNode(node));
    }

    /// Removes the token in the slot of a node, if there is one.
    fn remove_token_at(&mut self, node: NodeId, index: usize)
        requires
            old(self).syntax().has_node(node),
        ensures
            final(self).syntax() == old(self).syntax(),
            final(self).recorded() == old(self).recorded() + token_removed(
                old(self).syntax().node(node).slots,
                index as int,
            ),
    {
        let slots = self.tree.slots(node);
        if index < slots.len() {
            if let Slot::Token(token) = slots[index] {
                self.record(Change::RemoveToken(token));
                return ;
            }
        }
        assert(self.recorded() =~= old(self).recorded() + Seq::<ChangeView>::empty());
    }

    /// Removes a node from a list with separators.
    fn remove_element(&mut self, list: NodeId, node: NodeId, skips_missing: bool)
        requires
            old(self).syntax().well_formed(),
            old(self).syntax().has_node(list),
            old(self).syntax().node(list).slots.contains(Slot::Node(node)),
        ensures
            final(self).syntax() == old(self).syntax(),
            final(self).recorded() == old(self).recorded() + element_removed(
                old(self).syntax().node(list).slots,
                node,
                skips_missing,
            ),
    {
        let count: usize = self.tree.slots(list).len();
        let index: usize = self.tree.slot_of(list, node);
        self.remove_node(node);
        let ghost removed = self.recorded();

        // Remove its trailing comma, if there is one
        if index + 1 < count {
            self.remove_token_at(list, index + 1);
        }
        proof {
            if index + 1 >= count {
                assert(removed =~= removed + token_removed(
                    old(self).syntax().node(list).slots,
                    index + 1,
                ));
            }
        }
        let ghost behind = self.recorded();
        // If it is the last element of the list, removes the comma before this element

        let is_last = if count - index <= 2 {
            true
        } else {
            skips_missing && self.is_missing(list, index + 2)
        };
        if is_last && index > 0 {
            self.remove_token_at(list, index - 1);
        }
        proof {
            let slots = old(self).syntax().node(list).slots;
            assert(is_last == is_last_element(slots, index as int, skips_missing));
            let start = old(self).recorded();
            assert(start + seq![ChangeView::RemoveNode(node)] + token_removed(slots, index + 1)
                =~= behind);
            assert(start + element_removed(slots, node, skips_missing) =~= self.recorded());
        }
    }

    /// Whether the slot holds no node.
    fn is_missing(&self, node: NodeId, index: usize) -> (missing: bool)
        requires
            self.syntax().has_node(node),
            index < self.syntax().node(node).slots.len(),
        ensures
            missing == !(self.syntax().node(node).slots[index as int] is Node),
    {
        match self.tree.slots(node)[index] {
            Slot::Node(_) => false,
            _ => true,
        }
    }

    /// Removes a parameter from a list of parameters of a function.
    fn remove_js_formal_parameter_from_js_parameter_list(
        &mut self,
        parameter: &JsFormalParameter,
        list: NodeId,
    ) -> (removed: Option<bool>)
        requires
            old(self).syntax().well_formed(),
            old(self).syntax().has_node(list),
            old(self).syntax().node(list).slots.contains(Slot::Node(parameter.syntax)),
        ensures
            final(self).syntax() == old(self).syntax(),
            if old(self).syntax().node(list).kind == SyntaxKind::JsParameterList {
                &&& removed == Some(true)
                &&& final(self).recorded() == old(self).recorded() + element_removed(
                    old(self).syntax().node(list).slots,
                    parameter.syntax,
                    false,
                )
            } else {
                &&& removed is None
                &&& final(self).recorded() == old(self).recorded()
            },
    {
        if self.tree.kind(list) != SyntaxKind::JsParameterList {
            return None;
        }
        self.remove_element(list, parameter.syntax, false);
        Some(true)
    }

    /// Removes a parameter from a list of parameters of a constructor.
    fn remove_js_formal_parameter_from_js_constructor_parameter_list(
        &mut self,
        parameter: &JsFormalParameter,
        list: NodeId,
    ) -> (removed: Option<bool>)
        requires
            old(self).syntax().well_formed(),
            old(self).syntax().has_node(list),
            old(self).syntax().node(list).slots.contains(Slot::Node(parameter.syntax)),
        ensures
            final(self).syntax() == old(self).syntax(),
            if old(self).syntax().node(list).kind == SyntaxKind::JsConstructorParameterList {
                &&& removed == Some(true)
                &&& final(self).recorded() == old(self).recorded() + element_removed(
                    old(self).syntax().node(list).slots,
                    parameter.syntax,
                    false,
                )
            } else {
                &&& removed is None
                &&& final(self).recorded() == old(self).recorded()
            },
    {
        if self.tree.kind(list) != SyntaxKind::JsConstructorParameterList {
            return None;
        }
        self.remove_element(list, parameter.syntax, false);
        Some(true)
    }

    /// Puts a new list of children in the place of the one that the child is in.
    fn change_list(
        &mut self,
        child: &AnyJsxChild,
        new_children: Vec<AnyJsxChild>,
        placement: Placement,
    ) -> (changed: bool)
        requires
            old(self).syntax().well_formed(),
            old(self).syntax().has_node(child.syntax),
        ensures
            final(self).syntax() == old(self).syntax(),
            records(
                old(self).recorded(),
                list_changed(old(self).syntax(), *child, new_children@, placement),
                changed,
                final(self).recorded(),
            ),
    {
        match self.tree.parent_of_kind(child.syntax, SyntaxKind::JsxChildList) {
            None => false,
            Some(list) => {
                let children = child_list(&self.tree, list);
                let placed = place_children(
                    children.as_slice(),
                    *child,
                    new_children.as_slice(),
                    placement,
                );
                let new_node = make_jsx_child_list(placed);
                self.record(
                    Change::ReplaceNode { node: list, new_node, keeps_trivia: false },
                );
                true
            },
        }
    }
}

/// A list of JSX children.
fn make_jsx_child_list(children: Vec<AnyJsxChild>) -> (list: NewNode)
    ensures
        list@ == jsx_child_list(children@),
{
    let mut slots: Vec<NewSlot> = Vec::new();
    let mut index: usize = 0;
    while index < children.len()
        invariant
            index <= children@.len(),
            slots@.len() == index,
            forall|i: int|
                0 <= i < index ==> (#[trigger] slots@[i])@ == NewSlotView::Node(
                    children@[i].syntax,
                ),
        decreases children@.len() - index,
    {
        slots.push(NewSlot::Node(children[index].syntax));
        index = index + 1;
    }
    let list = NewNode { kind: SyntaxKind::JsxChildList, slots };
    assert(list@ =~= jsx_child_list(children@));
    list
}

/// An empty statement.
fn make_js_empty_statement() -> (statement: NewNode)
    ensures
        statement@ == empty_statement(),
{
    let mut slots: Vec<NewSlot> = Vec::new();
    slots.push(NewSlot::Token(";".to_owned()));
    let statement = NewNode { kind: SyntaxKind::JsEmptyStatement, slots };
    proof {
        reveal_strlit(";");
        assert(";"@ =~= seq![';']);
        assert(statement@.slots =~= empty_statement().slots);
    }
    statement
}

/// Whether a list holds no other node.
fn is_alone(slots: &[Slot], node: NodeId) -> (alone: bool)
    ensures
        alone == is_only_node(slots@, node),
{
    let mut index: usize = 0;
    while index < slots.len()
        invariant
            index <= slots@.len(),
            is_only_node(slots@.take(index as int), node),
        decreases slots@.len() - index,
    {
        if let Slot::Node(other) = slots[index] {
            if other != node {
                return false;
            }
        }
        proof {
            let next = slots@.take(index + 1);
            assert forall|i: int| 0 <= i < next.len() && #[trigger] next[i] is Node implies next[i]
                == Slot::Node(node) by {
                if i < index {
                    assert(slots@.take(index as int)[i] == next[i]);
                }
            }
        }
        index = index + 1;
    }
    assert(slots@.take(slots@.len() as int) =~= slots@);
    true
}

impl JsBatchMutation for BatchMutation {
    closed spec fn syntax(&self) -> TreeView {
        self.tree@
    }

    closed spec fn recorded(&self) -> Seq<ChangeView> {
        self.changes@.map_values(|change: Change| change@)
    }

    fn tree(&self) -> (tree: &SyntaxTree) {
        &self.tree
    }

    fn remove_js_variable_declarator(&mut self, declarator: &JsVariableDeclarator) -> (removed:
        bool) {
        let node = declarator.syntax;
        proof {
            lemma_parent(self.tree@, node);
        }
        let list: NodeId = match self.tree.parent_of_kind(
            node,
            SyntaxKind::JsVariableDeclaratorList,
        ) {
            Some(list) => list,
            None => {
                return false;
            },
        };
        let declaration: NodeId = match self.tree.parent_of_kind(
            list,
            SyntaxKind::JsVariableDeclaration,
        ) {
            Some(declaration) => declaration,
            None => {
                return false;
            },
        };
        if is_alone(self.tree.slots(list), node) {
            match self.tree.parent_of_kind(declaration, SyntaxKind::JsVariableStatement) {
                Some(statement) => {
                    self.remove_node(statement);
                },
                None => {
                    return false;
                },
            }
        } else {
            self.remove_element(list, node, true);
        }
        true
    }

    fn remove_js_formal_parameter(&mut self, parameter: &JsFormalParameter) -> (removed: bool) {
        proof {
            lemma_parent(self.tree@, parameter.syntax);
        }
        let removed: Option<bool> = match self.tree.parent(parameter.syntax) {
            None => None,
            Some(parent) => match self.tree.kind(parent) {
                SyntaxKind::JsParameterList =>
                    self.remove_js_formal_parameter_from_js_parameter_list(parameter, parent),
                SyntaxKind::JsConstructorParameterList =>
                    self.remove_js_formal_parameter_from_js_constructor_parameter_list(
                    parameter,
                    parent,
                ),
                _ => None,
            },
        };
        match removed {
            Some(removed) => removed,
            None => false,
        }
    }

    fn remove_js_object_member(&mut self, member: AnyJsObjectMember) -> (removed: bool) {
        proof {
            lemma_parent(self.tree@, member.syntax);
        }
        match self.tree.parent_of_kind(member.syntax, SyntaxKind::JsObjectMemberList) {
            None => false,
            Some(list) => {
                let count: usize = self.tree.slots(list).len();
                let index: usize = self.tree.slot_of(list, member.syntax);
                self.remove_node(member.syntax);
                let ghost removed = self.recorded();
                if index + 1 < count {
                    self.remove_token_at(list, index + 1);
                }
                proof {
                    let slots = old(self).syntax().node(list).slots;
                    assert(self.recorded() =~= removed + token_removed(slots, index + 1));
                    assert(self.recorded() =~= old(self).recorded() + (seq![
                        ChangeView::RemoveNode(member.syntax),
                    ] + token_removed(slots, index + 1)));
                }
                true
            },
        }
    }

    fn remove_statement(&mut self, statement: AnyJsStatement) {
        let node = statement.syntax;
        proof {
            lemma_parent(self.tree@, node);
        }
        match self.tree.parent(node) {
            None => {
                assert(self.recorded() =~= self.recorded() + Seq::<ChangeView>::empty());
            },
            Some(parent) => {
                let kind = self.tree.kind(parent);
                if kind == SyntaxKind::JsStatementList || kind == SyntaxKind::JsModuleItemList {
                    self.remove_node(node);
                } else {
                    let new_node = make_js_empty_statement();
                    self.record(Change::ReplaceNode { node, new_node, keeps_trivia: true });
                }
            },
        }
    }

    fn transfer_leading_trivia_to_sibling(&mut self, node: NodeId) {
        let ghost tree = self.tree@;
        proof {
            lemma_tokens_around_belong(tree, node);
            assert(self.recorded() =~= self.recorded() + Seq::<ChangeView>::empty());
        }
        let own = self.tree.tokens(node);
        if own.len() == 0 {
            return ;
        }
        assert(tree.has_token(tree.tokens_of(node)[0]));
        let first = self.tree.token(own[0]);
        if let Some(next) = self.tree.next_token(node) {
            assert(tree.has_token(tree.tokens_behind(node)[0]));
            let sibling = self.tree.token(next);
            let mut leading: Vec<TriviaPiece> = Vec::new();
            append_pieces(&mut leading, first.leading.as_slice(), 0);
            // Remove next newline
            let start: usize = if sibling.leading.len() > 0 && sibling.leading[0].is_newline() {
                1
            } else {
                0
            };
            append_pieces(&mut leading, sibling.leading.as_slice(), start);
            let mut trailing: Vec<TriviaPiece> = Vec::new();
            append_pieces(&mut trailing, sibling.trailing.as_slice(), 0);
            let new_token = SyntaxToken { text: sibling.text.clone(), leading, trailing };
            proof {
                let view = tree.token(next);
                assert(trivia_views(sibling.leading@).skip(start as int) =~= without_newline(
                    view.leading,
                ));
                assert(new_token@ =~= (TokenView {
                    leading: tree.token(own@.first()).leading + without_newline(view.leading),
                    ..view
                }));
            }
            self.record(
                Change::ReplaceToken { token: next, new_token, keeps_trivia: false },
            );
        } else if let Some(previous) = self.tree.previous_token(node) {
            assert(tree.has_token(tree.tokens_before(node)[tree.tokens_before(node).len() - 1]));
            let sibling = self.tree.token(previous);
            let mut leading: Vec<TriviaPiece> = Vec::new();
            append_pieces(&mut leading, sibling.leading.as_slice(), 0);
            let mut trailing: Vec<TriviaPiece> = Vec::new();
            append_pieces(&mut trailing, sibling.trailing.as_slice(), 0);
            append_pieces(&mut trailing, first.leading.as_slice(), 0);
            let new_token = SyntaxToken { text: sibling.text.clone(), leading, trailing };
            proof {
                let view = tree.token(previous);
                assert(new_token@ =~= (TokenView {
                    trailing: view.trailing + tree.token(own@.first()).leading,
                    ..view
                }));
            }
            self.record(
                Change::ReplaceToken { token: previous, new_token, keeps_trivia: false },
            );
        }
    }

    fn add_jsx_elements_after_element(
        &mut self,
        after_element: &AnyJsxChild,
        new_elements: Vec<AnyJsxChild>,
    ) -> (added: bool) {
        self.change_list(after_element, new_elements, Placement::After)
    }

    fn add_jsx_elements_before_element(
        &mut self,
        before_element: &AnyJsxChild,
        new_elements: Vec<AnyJsxChild>,
    ) -> (added: bool) {
        self.change_list(before_element, new_elements, Placement::Before)
    }

    fn add_jsx_elements_replacing_element(
        &mut self,
        remove_element: &AnyJsxChild,
        new_elements: Vec<AnyJsxChild>,
    ) -> (added: bool) {
        self.change_list(remove_element, new_elements, Placement::Replacing)
    }
}

} // verus!
