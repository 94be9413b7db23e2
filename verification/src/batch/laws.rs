//! What edits do to the lists they change.

use crate::batch::{
    child_index, children_placed, declarator_removed, element_removed, element_unwrapped,
    is_last_element, is_only_node, jsx_child_list, jsx_children, list_changed, member_removed,
    parameter_removed, records, statement_removed, token_removed, trivia_transferred,
    without_newline, AnyJsxChild, ChangeView, NewNodeView, NewSlotView, Placement,
};
use crate::syntax::{
    all_nodes, lemma_parent, lemma_slot_index, lemma_text_around, lemma_tokens_concat, slot_index,
    takes_turns, NodeId, Slot, SyntaxKind, TokenId, TokenView, TreeView, TriviaPieceKind,
    TriviaView,
};
use vstd::prelude::*;

verus! {

/// Whether one of the edits removes what is in the slot.
pub open spec fn is_removed(changes: Seq<ChangeView>, slot: Slot) -> bool {
    match slot {
        Slot::Node(node) => changes.contains(ChangeView::RemoveNode(node)),
        Slot::Token(token) => changes.contains(ChangeView::RemoveToken(token)),
        Slot::Empty => false,
    }
}

/// The slots of a list after the edits.
pub open spec fn slots_left(slots: Seq<Slot>, changes: Seq<ChangeView>) -> Seq<Slot>
    decreases slots.len(),
{
    if slots.len() == 0 {
        Seq::empty()
    } else if is_removed(changes, slots.last()) {
        slots_left(slots.drop_last(), changes)
    } else {
        slots_left(slots.drop_last(), changes).push(slots.last())
    }
}

/// Whether nodes and separators take turns, nothing is missing and nothing occurs twice.
pub open spec fn is_complete_list(slots: Seq<Slot>) -> bool {
    &&& takes_turns(slots)
    &&& forall|i: int| 0 <= i < slots.len() ==> !(#[trigger] slots[i] is Empty)
    &&& forall|i: int, j: int|
        0 <= i < j < slots.len() ==> #[trigger] slots[i] != #[trigger] slots[j]
}

proof fn lemma_left_concat(left: Seq<Slot>, right: Seq<Slot>, changes: Seq<ChangeView>)
    ensures
        slots_left(left + right, changes) == slots_left(left, changes) + slots_left(
            right,
            changes,
        ),
    decreases right.len(),
{
    if right.len() == 0 {
        assert(left + right =~= left);
        assert(slots_left(left, changes) + slots_left(right, changes) =~= slots_left(
            left,
            changes,
        ));
    } else {
        assert((left + right).drop_last() =~= left + right.drop_last());
        assert((left + right).last() == right.last());
        lemma_left_concat(left, right.drop_last(), changes);
        assert(slots_left(left + right, changes) =~= slots_left(left, changes) + slots_left(
            right,
            changes,
        ));
    }
}

proof fn lemma_all_left(slots: Seq<Slot>, changes: Seq<ChangeView>)
    requires
        forall|i: int| 0 <= i < slots.len() ==> !is_removed(changes, #[trigger] slots[i]),
    ensures
        slots_left(slots, changes) == slots,
    decreases slots.len(),
{
    if slots.len() > 0 {
        assert(!is_removed(changes, slots[slots.len() - 1]));
        assert forall|i: int| 0 <= i < slots.len() - 1 implies !is_removed(
            changes,
            #[trigger] slots.drop_last()[i],
        ) by {
            assert(!is_removed(changes, slots[i]));
        }
        lemma_all_left(slots.drop_last(), changes);
        assert(slots_left(slots, changes) =~= slots);
    } else {
        assert(slots_left(slots, changes) =~= slots);
    }
}

proof fn lemma_none_left(slots: Seq<Slot>, changes: Seq<ChangeView>)
    requires
        forall|i: int| 0 <= i < slots.len() ==> is_removed(changes, #[trigger] slots[i]),
    ensures
        slots_left(slots, changes).len() == 0,
    decreases slots.len(),
{
    if slots.len() > 0 {
        assert(is_removed(changes, slots[slots.len() - 1]));
        assert forall|i: int| 0 <= i < slots.len() - 1 implies is_removed(
            changes,
            #[trigger] slots.drop_last()[i],
        ) by {
            assert(is_removed(changes, slots[i]));
        }
        lemma_none_left(slots.drop_last(), changes);
    }
}

/// If exactly the slots from `start` to `end` are removed, those around them are left.
proof fn lemma_range_removed(slots: Seq<Slot>, changes: Seq<ChangeView>, start: int, end: int)
    requires
        0 <= start <= end <= slots.len(),
        forall|i: int|
            0 <= i < slots.len() ==> (is_removed(changes, #[trigger] slots[i]) <==> start <= i
                < end),
    ensures
        slots_left(slots, changes) == slots.take(start) + slots.skip(end),
{
    let before = slots.take(start);
    let middle = slots.subrange(start, end);
    let behind = slots.skip(end);
    assert(slots =~= before + middle + behind);
    lemma_left_concat(before + middle, behind, changes);
    lemma_left_concat(before, middle, changes);
    assert forall|i: int| 0 <= i < before.len() implies !is_removed(
        changes,
        #[trigger] before[i],
    ) by {
        assert(before[i] == slots[i]);
    }
    lemma_all_left(before, changes);
    assert forall|i: int| 0 <= i < middle.len() implies is_removed(
        changes,
        #[trigger] middle[i],
    ) by {
        assert(middle[i] == slots[start + i]);
    }
    lemma_none_left(middle, changes);
    assert forall|i: int| 0 <= i < behind.len() implies !is_removed(
        changes,
        #[trigger] behind[i],
    ) by {
        assert(behind[i] == slots[end + i]);
    }
    lemma_all_left(behind, changes);
    assert(slots_left(slots, changes) =~= before + behind);
}

/// Where the slots that the removal of a node from a list removes start.
pub open spec fn removal_start(slots: Seq<Slot>, node: NodeId) -> int {
    let index = slot_index(slots, node);
    if index + 2 >= slots.len() && index > 0 {
        index - 1
    } else {
        index
    }
}

/// Where the slots that the removal of a node from a list removes end.
pub open spec fn removal_end(slots: Seq<Slot>, node: NodeId) -> int {
    let index = slot_index(slots, node);
    if index + 2 <= slots.len() {
        index + 2
    } else {
        slots.len() as int
    }
}

/// Where a slot stands in a list in which nothing occurs twice.
proof fn lemma_slot_position(slots: Seq<Slot>, index: int, other: int)
    requires
        is_complete_list(slots),
        0 <= index < slots.len(),
        0 <= other < slots.len(),
        slots[index] == slots[other],
    ensures
        index == other,
{
}

/// Removing a declarator or a parameter from a list keeps the list valid: the node and one separator
/// next to it are removed, or both separators if the node was the last one, and what is left is
/// again a list in which nodes and separators take turns. Behind the last node there is no
/// separator if the last node was removed.
pub proof fn lemma_list_stays_valid(slots: Seq<Slot>, node: NodeId, skips_missing: bool)
    requires
        is_complete_list(slots),
        slots.contains(Slot::Node(node)),
    ensures
        slots_left(slots, element_removed(slots, node, skips_missing)) == slots.take(
            removal_start(slots, node),
        ) + slots.skip(removal_end(slots, node)),
        is_complete_list(slots_left(slots, element_removed(slots, node, skips_missing))),
        slot_index(slots, node) + 2 >= slots.len() ==> slots_left(
            slots,
            element_removed(slots, node, skips_missing),
        ).len() % 2 == 1 || slot_index(slots, node) == 0,
{
    lemma_slot_index(slots, node);
    let index = slot_index(slots, node);
    let changes = element_removed(slots, node, skips_missing);
    let start = removal_start(slots, node);
    let end = removal_end(slots, node);
    assert(index % 2 == 0) by {
        if index % 2 == 1 {
            assert(!(slots[index] is Node));
        }
    }
    if index + 2 < slots.len() {
        assert(!(slots[index + 2] is Token));
        assert(!(slots[index + 2] is Empty));
    }
    let last = is_last_element(slots, index, skips_missing);
    assert(last == (index + 2 >= slots.len()));
    let behind = token_removed(slots, index + 1);
    let before = if last {
        token_removed(slots, index - 1)
    } else {
        Seq::empty()
    };
    if index + 1 < slots.len() {
        assert(!(slots[index + 1] is Node) && !(slots[index + 1] is Empty));
    }
    if index > 0 {
        assert(!(slots[index - 1] is Node) && !(slots[index - 1] is Empty));
    }
    assert(changes == seq![ChangeView::RemoveNode(node)] + behind + before);
    assert forall|i: int| 0 <= i < slots.len() implies (is_removed(changes, #[trigger] slots[i])
        <==> start <= i < end) by {
        if start <= i < end {
            if i == index {
                assert(changes[0] == ChangeView::RemoveNode(node));
            } else if i == index + 1 {
                assert(behind.len() == 1);
                assert(changes[1] == behind[0]);
            } else {
                assert(i == index - 1);
                assert(before.len() == 1);
                assert(changes[1 + behind.len() as int] == before[0]);
            }
        }
        if is_removed(changes, slots[i]) {
            let wanted = match slots[i] {
                Slot::Node(other) => ChangeView::RemoveNode(other),
                Slot::Token(other) => ChangeView::RemoveToken(other),
                Slot::Empty => arbitrary(),
            };
            let k = choose|k: int| 0 <= k < changes.len() && changes[k] == wanted;
            if k == 0 {
                assert(slots[i] == slots[index]);
                lemma_slot_position(slots, i, index);
            } else if k < 1 + behind.len() {
                assert(changes[k] == behind[0]);
                assert(slots[i] == slots[index + 1]);
                lemma_slot_position(slots, i, index + 1);
            } else {
                assert(changes[k] == before[0]);
                assert(slots[i] == slots[index - 1]);
                lemma_slot_position(slots, i, index - 1);
            }
        }
    }
    lemma_range_removed(slots, changes, start, end);
    lemma_cut_list(slots, start, end);
}

/// A list without a node and a separator, or without its end, is a list again.
proof fn lemma_cut_list(slots: Seq<Slot>, start: int, end: int)
    requires
        is_complete_list(slots),
        0 <= start <= end <= slots.len(),
        end == slots.len() || (end - start == 2),
    ensures
        is_complete_list(slots.take(start) + slots.skip(end)),
{
    let left = slots.take(start) + slots.skip(end);
    assert forall|i: int| 0 <= i < left.len() implies #[trigger] left[i] == slots[if i < start {
        i
    } else {
        i + end - start
    }] by {}
    assert forall|i: int| 0 <= i < left.len() && i % 2 == 0 implies !(
    #[trigger] left[i] is Token) by {
        let k = if i < start {
            i
        } else {
            i + end - start
        };
        assert(k % 2 == 0);
        assert(!(slots[k] is Token));
    }
    assert forall|i: int| 0 <= i < left.len() && i % 2 == 1 implies !(
    #[trigger] left[i] is Node) by {
        let k = if i < start {
            i
        } else {
            i + end - start
        };
        assert(k % 2 == 1);
        assert(!(slots[k] is Node));
    }
}

/// Removing the only declarator of a variable statement removes the statement.
pub proof fn lemma_statement_goes_with_its_declarator(
    tree: TreeView,
    node: NodeId,
    list: NodeId,
    declaration: NodeId,
    statement: NodeId,
)
    requires
        tree.parent_of_kind(node, SyntaxKind::JsVariableDeclaratorList) == Some(list),
        tree.parent_of_kind(list, SyntaxKind::JsVariableDeclaration) == Some(declaration),
        tree.parent_of_kind(declaration, SyntaxKind::JsVariableStatement) == Some(statement),
        is_only_node(tree.node(list).slots, node),
    ensures
        declarator_removed(tree, node) == Some(seq![ChangeView::RemoveNode(statement)]),
{
}

/// Removing a member from a list keeps the list valid: the node and the separator behind it are
/// removed, and what is left is again a list in which nodes and separators take turns.
pub proof fn lemma_member_list_stays_valid(tree: TreeView, node: NodeId, list: NodeId)
    requires
        tree.well_formed(),
        tree.has_node(node),
        tree.parent_of_kind(node, SyntaxKind::JsObjectMemberList) == Some(list),
        is_complete_list(tree.node(list).slots),
    ensures
        member_removed(tree, node) matches Some(changes) && {
            let slots = tree.node(list).slots;
            let index = slot_index(slots, node);
            &&& slots_left(slots, changes) == slots.take(index) + slots.skip(
                removal_end(slots, node),
            )
            &&& is_complete_list(slots_left(slots, changes))
        },
{
    lemma_parent(tree, node);
    let slots = tree.node(list).slots;
    lemma_slot_index(slots, node);
    let index = slot_index(slots, node);
    let changes = member_removed(tree, node)->Some_0;
    let end = removal_end(slots, node);
    assert(index % 2 == 0) by {
        if index % 2 == 1 {
            assert(!(slots[index] is Node));
        }
    }
    let behind = token_removed(slots, index + 1);
    if index + 1 < slots.len() {
        assert(!(slots[index + 1] is Node) && !(slots[index + 1] is Empty));
    }
    assert forall|i: int| 0 <= i < slots.len() implies (is_removed(changes, #[trigger] slots[i])
        <==> index <= i < end) by {
        if index <= i < end {
            if i == index {
                assert(changes[0] == ChangeView::RemoveNode(node));
            } else {
                assert(behind.len() == 1);
                assert(changes[1] == behind[0]);
            }
        }
        if is_removed(changes, slots[i]) {
            let wanted = match slots[i] {
                Slot::Node(other) => ChangeView::RemoveNode(other),
                Slot::Token(other) => ChangeView::RemoveToken(other),
                Slot::Empty => arbitrary(),
            };
            let k = choose|k: int| 0 <= k < changes.len() && changes[k] == wanted;
            if k == 0 {
                assert(slots[i] == slots[index]);
                lemma_slot_position(slots, i, index);
            } else {
                assert(changes[k] == behind[0]);
                assert(slots[i] == slots[index + 1]);
                lemma_slot_position(slots, i, index + 1);
            }
        }
    }
    lemma_range_removed(slots, changes, index, end);
    lemma_cut_list(slots, index, end);
}

/// A child of a list of JSX children is found in it.
pub proof fn lemma_child_is_found(tree: TreeView, child: AnyJsxChild, list: NodeId)
    requires
        tree.well_formed(),
        tree.has_node(child.syntax),
        tree.parent_of_kind(child.syntax, SyntaxKind::JsxChildList) == Some(list),
    ensures
        ({
            let children = jsx_children(tree.node(list).slots);
            let index = child_index(children, child);
            0 <= index < children.len() && children[index] == child
        }),
{
    lemma_parent(tree, child.syntax);
    let slots = tree.node(list).slots;
    let children = jsx_children(slots);
    let i = choose|i: int| 0 <= i < slots.len() && slots[i] == Slot::Node(child.syntax);
    assert(children[i] == child);
    lemma_child_index_found(children, child, i);
}

proof fn lemma_child_index_found(children: Seq<AnyJsxChild>, child: AnyJsxChild, index: int)
    requires
        0 <= index < children.len(),
        children[index] == child,
    ensures
        0 <= child_index(children, child) <= index,
        children[child_index(children, child)] == child,
    decreases children.len(),
{
    if children[0] != child {
        assert(children.drop_first()[index - 1] == child);
        lemma_child_index_found(children.drop_first(), child, index - 1);
    }
}

/// New JSX elements stand together right behind, right before or in the place of the given element,
/// and all other children stay as they are.
pub proof fn lemma_elements_placed(
    tree: TreeView,
    child: AnyJsxChild,
    list: NodeId,
    new_children: Seq<AnyJsxChild>,
    placement: Placement,
)
    requires
        tree.well_formed(),
        tree.has_node(child.syntax),
        tree.parent_of_kind(child.syntax, SyntaxKind::JsxChildList) == Some(list),
    ensures
        ({
            let children = jsx_children(tree.node(list).slots);
            let index = child_index(children, child);
            let before = children.take(index);
            let behind = children.skip(index + 1);
            children_placed(children, child, new_children, placement) == match placement {
                Placement::After => before + seq![child] + new_children + behind,
                Placement::Before => before + new_children + seq![child] + behind,
                Placement::Replacing => before + new_children + behind,
            }
        }),
{
    lemma_child_is_found(tree, child, list);
    let children = jsx_children(tree.node(list).slots);
    let index = child_index(children, child);
    assert(children.take(index + 1) =~= children.take(index) + seq![child]);
    assert(children.skip(index) =~= seq![child] + children.skip(index + 1));
    let before = children.take(index);
    let behind = children.skip(index + 1);
    assert(children_placed(children, child, new_children, placement) =~= match placement {
        Placement::After => before + seq![child] + new_children + behind,
        Placement::Before => before + new_children + seq![child] + behind,
        Placement::Replacing => before + new_children + behind,
    });
}

/// Elements that do not stand in the list are appended at its end.
pub proof fn lemma_elements_appended(
    children: Seq<AnyJsxChild>,
    child: AnyJsxChild,
    new_children: Seq<AnyJsxChild>,
    placement: Placement,
)
    requires
        !children.contains(child),
    ensures
        children_placed(children, child, new_children, placement) == children + new_children,
{
    lemma_child_index_missing(children, child);
}

proof fn lemma_child_index_missing(children: Seq<AnyJsxChild>, child: AnyJsxChild)
    requires
        !children.contains(child),
    ensures
        child_index(children, child) == children.len(),
    decreases children.len(),
{
    if children.len() > 0 {
        assert(children.contains(children[0]));
        assert forall|i: int| 0 <= i < children.len() - 1 implies #[trigger] children.drop_first()[i]
            != child by {
            assert(children.contains(children[i + 1]));
        }
        lemma_child_index_missing(children.drop_first(), child);
    }
}

/// The leading trivia of a node goes to the token that comes right behind the node in the text, in
/// front of the trivia there, and else to the token right before it.
pub proof fn lemma_trivia_goes_to_neighbour(tree: TreeView, node: NodeId)
    requires
        tree.well_formed(),
        tree.has_node(node),
        tree.tokens_of(node).len() > 0,
        tree.tokens_of(tree.root_of(node)).len() > tree.tokens_of(node).len(),
    ensures
        ({
            let all = tree.tokens_of(tree.root_of(node));
            let start = tree.tokens_before(node).len() as int;
            let end = start + tree.tokens_of(node).len();
            let pieces = tree.token(all[start]).leading;
            &&& all.subrange(start, end) == tree.tokens_of(node)
            &&& trivia_transferred(tree, node) == (if end < all.len() {
                let next = tree.token(all[end]);
                seq![
                    ChangeView::ReplaceToken {
                        token: all[end],
                        new_token: TokenView {
                            leading: pieces + without_newline(next.leading),
                            ..next
                        },
                        keeps_trivia: false,
                    },
                ]
            } else {
                let previous = tree.token(all[start - 1]);
                seq![
                    ChangeView::ReplaceToken {
                        token: all[start - 1],
                        new_token: TokenView {
                            trailing: previous.trailing + pieces,
                            ..previous
                        },
                        keeps_trivia: false,
                    },
                ]
            })
        }),
{
    lemma_text_around(tree, node);
    let all = tree.tokens_of(tree.root_of(node));
    let before = tree.tokens_before(node);
    let own = tree.tokens_of(node);
    let start = before.len() as int;
    let end = start + own.len();
    assert(all.subrange(start, end) =~= own);
    assert(all[start] == own[0]);
    if end < all.len() {
        assert(all[end] == tree.tokens_behind(node)[0]);
    } else {
        assert(all[start - 1] == before[start - 1]);
    }
}

/// The nodes of a list of JSX children, as children of a new list.
pub open spec fn as_new_children(slots: Seq<Slot>) -> Seq<NewSlotView> {
    slots.map_values(|slot: Slot| NewSlotView::Node(slot->Node_0))
}

/// The replacement of a list of JSX children by one with the given children.
pub open spec fn list_replaced(list: NodeId, children: Seq<NewSlotView>) -> Seq<ChangeView> {
    seq![
        ChangeView::ReplaceNode {
            node: list,
            new_node: NewNodeView { kind: SyntaxKind::JsxChildList, slots: children },
            keeps_trivia: false,
        },
    ]
}

/// Where a child stands in the list that it belongs to.
proof fn lemma_child_position(tree: TreeView, child: AnyJsxChild, list: NodeId, index: int)
    requires
        tree.well_formed(),
        tree.has_node(child.syntax),
        tree.node(child.syntax).parent == Some(list),
        tree.node(list).kind == SyntaxKind::JsxChildList,
        0 <= index < tree.node(list).slots.len(),
        tree.node(list).slots[index] == Slot::Node(child.syntax),
    ensures
        tree.has_node(list),
        all_nodes(tree.node(list).slots),
        child_index(jsx_children(tree.node(list).slots), child) == index,
{
    lemma_parent(tree, child.syntax);
    let slots = tree.node(list).slots;
    let children = jsx_children(slots);
    assert(tree.has_shape(tree.nodes[list.index as int].kind, slots));
    assert(children[index] == child);
    lemma_child_index_found(children, child, index);
    let found = child_index(children, child);
    assert(slots[found] is Node);
    assert(slots[found] == slots[index]);
    if found != index {
        assert(tree.nodes[list.index as int].slots[found] is Empty);
    }
}

/// Adding JSX elements replaces the list that the given element stands in. The new list holds the
/// nodes up to the given element, the new elements right behind it, right before it or in its place,
/// and the nodes behind it, each in its order.
pub proof fn lemma_elements_added(
    tree: TreeView,
    child: AnyJsxChild,
    list: NodeId,
    index: int,
    new_children: Seq<AnyJsxChild>,
)
    requires
        tree.well_formed(),
        tree.has_node(child.syntax),
        tree.node(child.syntax).parent == Some(list),
        tree.node(list).kind == SyntaxKind::JsxChildList,
        0 <= index < tree.node(list).slots.len(),
        tree.node(list).slots[index] == Slot::Node(child.syntax),
    ensures
        ({
            let slots = tree.node(list).slots;
            let added = new_children.map_values(
                |new_child: AnyJsxChild| NewSlotView::Node(new_child.syntax),
            );
            let before = as_new_children(slots.take(index));
            let own = seq![NewSlotView::Node(child.syntax)];
            let behind = as_new_children(slots.skip(index + 1));
            &&& list_changed(tree, child, new_children, Placement::After) == Some(
                list_replaced(list, before + own + added + behind),
            )
            &&& list_changed(tree, child, new_children, Placement::Before) == Some(
                list_replaced(list, before + added + own + behind),
            )
            &&& list_changed(tree, child, new_children, Placement::Replacing) == Some(
                list_replaced(list, before + added + behind),
            )
        }),
{
    lemma_child_position(tree, child, list, index);
    let slots = tree.node(list).slots;
    let children = jsx_children(slots);
    let added = new_children.map_values(
        |new_child: AnyJsxChild| NewSlotView::Node(new_child.syntax),
    );
    let before = as_new_children(slots.take(index));
    let own = seq![NewSlotView::Node(child.syntax)];
    let behind = as_new_children(slots.skip(index + 1));
    assert forall|i: int| 0 <= i < slots.len() implies (#[trigger] children[i]).syntax
        == slots[i]->Node_0 by {
        assert(slots[i] is Node);
    }
    let after = children_placed(children, child, new_children, Placement::After);
    assert(jsx_child_list(after).slots =~= before + own + added + behind);
    let ahead = children_placed(children, child, new_children, Placement::Before);
    assert(jsx_child_list(ahead).slots =~= before + added + own + behind);
    let instead = children_placed(children, child, new_children, Placement::Replacing);
    assert(jsx_child_list(instead).slots =~= before + added + behind);
}

/// JSX elements are only added to a list of JSX children: an element that stands elsewhere is left
/// alone.
pub proof fn lemma_no_list_to_add_to(
    tree: TreeView,
    child: AnyJsxChild,
    new_children: Seq<AnyJsxChild>,
    placement: Placement,
)
    requires
        match tree.node(child.syntax).parent {
            Some(parent) => tree.node(parent).kind != SyntaxKind::JsxChildList,
            None => true,
        },
    ensures
        list_changed(tree, child, new_children, placement) is None,
        element_unwrapped(tree, child) is None,
{
}

/// Unwrapping a JSX element or fragment preserves its children: the new list holds the nodes up to
/// the unwrapped node, every node of its own list of children, and the nodes behind it, each in its
/// order.
pub proof fn lemma_children_are_preserved(
    tree: TreeView,
    element: AnyJsxChild,
    list: NodeId,
    index: int,
    own_list: NodeId,
)
    requires
        tree.well_formed(),
        tree.has_node(element.syntax),
        tree.node(element.syntax).kind == SyntaxKind::JsxElement || tree.node(element.syntax).kind
            == SyntaxKind::JsxFragment,
        tree.node(element.syntax).slots[1] == Slot::Node(own_list),
        tree.node(element.syntax).parent == Some(list),
        tree.node(list).kind == SyntaxKind::JsxChildList,
        0 <= index < tree.node(list).slots.len(),
        tree.node(list).slots[index] == Slot::Node(element.syntax),
    ensures
        ({
            let slots = tree.node(list).slots;
            element_unwrapped(tree, element) == Some(
                list_replaced(
                    list,
                    as_new_children(slots.take(index)) + as_new_children(
                        tree.node(own_list).slots,
                    ) + as_new_children(slots.skip(index + 1)),
                ),
            )
        }),
{
    let node = tree.nodes[element.syntax.index as int];
    assert(tree.has_shape(node.kind, node.slots));
    let own_slots = tree.node(own_list).slots;
    assert(tree.has_shape(tree.nodes[own_list.index as int].kind, own_slots));
    let children = jsx_children(own_slots);
    lemma_elements_added(tree, element, list, index, children);
    assert forall|i: int| 0 <= i < own_slots.len() implies (#[trigger] children[i]).syntax
        == own_slots[i]->Node_0 by {
        assert(own_slots[i] is Node);
    }
    assert(children.map_values(|child: AnyJsxChild| NewSlotView::Node(child.syntax))
        =~= as_new_children(own_slots));
}

/// Only JSX elements and fragments are unwrapped.
pub proof fn lemma_nothing_to_unwrap(tree: TreeView, element: AnyJsxChild)
    requires
        tree.node(element.syntax).kind != SyntaxKind::JsxElement,
        tree.node(element.syntax).kind != SyntaxKind::JsxFragment,
    ensures
        element_unwrapped(tree, element) is None,
{
}

/// Whether the token stands in the slot.
pub open spec fn holds_token(slots: Seq<Slot>, index: int, token: TokenId) -> bool {
    0 <= index < slots.len() && slots[index] == Slot::Token(token)
}

/// Removing a node from a list with separators removes this node, the separator behind it, and the
/// separator before it if no node follows, and nothing else, whatever is missing in the list.
pub proof fn lemma_what_is_removed(
    slots: Seq<Slot>,
    index: int,
    node: NodeId,
    skips_missing: bool,
    change: ChangeView,
)
    requires
        0 <= index < slots.len(),
        slots[index] == Slot::Node(node),
        forall|i: int| 0 <= i < index ==> #[trigger] slots[i] != Slot::Node(node),
    ensures
        element_removed(slots, node, skips_missing).contains(change) == match change {
            ChangeView::RemoveNode(other) => other == node,
            ChangeView::RemoveToken(token) => {
                ||| holds_token(slots, index + 1, token)
                ||| holds_token(slots, index - 1, token) && (index + 2 >= slots.len() || (
                skips_missing && !(slots[index + 2] is Node)))
            },
            _ => false,
        },
{
    lemma_first_slot(slots, node, index);
    let changes = element_removed(slots, node, skips_missing);
    let behind = token_removed(slots, index + 1);
    let before = if is_last_element(slots, index, skips_missing) {
        token_removed(slots, index - 1)
    } else {
        Seq::empty()
    };
    assert(changes == seq![ChangeView::RemoveNode(node)] + behind + before);
    assert(changes[0] == ChangeView::RemoveNode(node));
    if behind.len() > 0 {
        assert(changes[1] == behind[0]);
    }
    if before.len() > 0 {
        assert(changes[1 + behind.len() as int] == before[0]);
    }
    if changes.contains(change) {
        let k = choose|k: int| 0 <= k < changes.len() && changes[k] == change;
        if k > 0 && k < 1 + behind.len() {
            assert(changes[k] == behind[0]);
        } else if k > 0 {
            assert(changes[k] == before[0]);
        }
    }
}

proof fn lemma_first_slot(slots: Seq<Slot>, node: NodeId, index: int)
    requires
        0 <= index < slots.len(),
        slots[index] == Slot::Node(node),
        forall|i: int| 0 <= i < index ==> #[trigger] slots[i] != Slot::Node(node),
    ensures
        slot_index(slots, node) == index,
    decreases slots.len(),
{
    if index > 0 {
        assert(slots[0] != Slot::Node(node));
        assert forall|i: int| 0 <= i < index - 1 implies #[trigger] slots.drop_first()[i]
            != Slot::Node(node) by {
            assert(slots[i + 1] != Slot::Node(node));
        }
        lemma_first_slot(slots.drop_first(), node, index - 1);
    }
}

/// A parameter is removed from the list of parameters of a function or of a constructor, with the
/// separators that would be left over, and from nothing else.
pub proof fn lemma_parameter_leaves_its_list(tree: TreeView, node: NodeId)
    requires
        tree.well_formed(),
        tree.has_node(node),
    ensures
        match tree.node(node).parent {
            Some(list) => if tree.node(list).kind == SyntaxKind::JsParameterList || tree.node(
                list,
            ).kind == SyntaxKind::JsConstructorParameterList {
                &&& parameter_removed(tree, node) == Some(
                    element_removed(tree.node(list).slots, node, false),
                )
                &&& is_complete_list(tree.node(list).slots) ==> slots_left(
                    tree.node(list).slots,
                    parameter_removed(tree, node)->Some_0,
                ) == tree.node(list).slots.take(removal_start(tree.node(list).slots, node))
                    + tree.node(list).slots.skip(removal_end(tree.node(list).slots, node))
            } else {
                parameter_removed(tree, node) is None
            },
            None => parameter_removed(tree, node) is None,
        },
{
    if let Some(list) = tree.node(node).parent {
        lemma_parent(tree, node);
        if is_complete_list(tree.node(list).slots) {
            lemma_list_stays_valid(tree.node(list).slots, node, false);
        }
    }
}

/// A declarator is removed from its list as long as the list holds another declarator. It is left
/// alone if it stands in no declaration, and so is the only declarator of a declaration that is no
/// statement.
pub proof fn lemma_declarator_leaves_its_list(
    tree: TreeView,
    node: NodeId,
    list: NodeId,
    other: NodeId,
)
    requires
        tree.well_formed(),
        tree.has_node(node),
        tree.node(node).parent == Some(list),
        tree.node(list).slots.contains(Slot::Node(other)),
        other != node,
    ensures
        match tree.node(list).parent {
            Some(declaration) => if tree.node(list).kind == SyntaxKind::JsVariableDeclaratorList
                && tree.node(declaration).kind == SyntaxKind::JsVariableDeclaration {
                &&& declarator_removed(tree, node) == Some(
                    element_removed(tree.node(list).slots, node, true),
                )
                &&& is_complete_list(tree.node(list).slots) ==> slots_left(
                    tree.node(list).slots,
                    declarator_removed(tree, node)->Some_0,
                ) == tree.node(list).slots.take(removal_start(tree.node(list).slots, node))
                    + tree.node(list).slots.skip(removal_end(tree.node(list).slots, node))
            } else {
                declarator_removed(tree, node) is None
            },
            None => declarator_removed(tree, node) is None,
        },
{
    lemma_parent(tree, node);
    let slots = tree.node(list).slots;
    let i = choose|i: int| 0 <= i < slots.len() && slots[i] == Slot::Node(other);
    assert(slots[i] is Node && slots[i] != Slot::Node(node));
    if is_complete_list(slots) {
        lemma_list_stays_valid(slots, node, true);
    }
}

/// The only declarator of a declaration that is no statement is left alone.
pub proof fn lemma_only_declarator_stays(tree: TreeView, node: NodeId, list: NodeId)
    requires
        tree.node(node).parent == Some(list),
        forall|i: int|
            0 <= i < tree.node(list).slots.len() && #[trigger] tree.node(list).slots[i] is Node
                ==> tree.node(list).slots[i] == Slot::Node(node),
        tree.node(list).parent matches Some(declaration) ==> match tree.node(declaration).parent {
            Some(statement) => tree.node(statement).kind != SyntaxKind::JsVariableStatement,
            None => true,
        },
    ensures
        declarator_removed(tree, node) is None,
{
}

/// A member of an object is removed with the separator behind it from a list of members only. The
/// separator before it stays.
pub proof fn lemma_member_leaves_its_list(
    tree: TreeView,
    node: NodeId,
    list: NodeId,
    index: int,
    change: ChangeView,
)
    requires
        tree.well_formed(),
        tree.has_node(node),
        tree.node(node).parent == Some(list),
        0 <= index < tree.node(list).slots.len(),
        tree.node(list).slots[index] == Slot::Node(node),
    ensures
        match member_removed(tree, node) {
            Some(changes) => {
                &&& tree.node(list).kind == SyntaxKind::JsObjectMemberList
                &&& changes.contains(change) == match change {
                    ChangeView::RemoveNode(other) => other == node,
                    ChangeView::RemoveToken(token) => holds_token(
                        tree.node(list).slots,
                        index + 1,
                        token,
                    ),
                    _ => false,
                }
            },
            None => tree.node(list).kind != SyntaxKind::JsObjectMemberList,
        },
{
    lemma_parent(tree, node);
    let slots = tree.node(list).slots;
    assert forall|i: int| 0 <= i < index implies #[trigger] slots[i] != Slot::Node(node) by {
        if slots[i] == Slot::Node(node) {
            assert(tree.nodes[list.index as int].slots[i] is Empty);
        }
    }
    lemma_first_slot(slots, node, index);
    if let Some(changes) = member_removed(tree, node) {
        let behind = token_removed(slots, index + 1);
        assert(changes == seq![ChangeView::RemoveNode(node)] + behind);
        assert(changes[0] == ChangeView::RemoveNode(node));
        if behind.len() > 0 {
            assert(changes[1] == behind[0]);
        }
        if changes.contains(change) {
            let k = choose|k: int| 0 <= k < changes.len() && changes[k] == change;
            if k > 0 {
                assert(changes[k] == behind[0]);
            }
        }
    }
}

/// A member that stands in no list of members is left alone.
pub proof fn lemma_member_without_list(tree: TreeView, node: NodeId)
    requires
        tree.node(node).parent is None,
    ensures
        member_removed(tree, node) is None,
{
}

/// A statement in a list of statements or module items is taken out of the list. In any other place
/// an empty statement stands for it, with the trivia around it, so that the parent keeps a
/// statement. A statement without a parent is left alone.
pub proof fn lemma_statement_leaves_its_place(tree: TreeView, node: NodeId)
    ensures
        match tree.node(node).parent {
            None => statement_removed(tree, node).len() == 0,
            Some(parent) => {
                &&& statement_removed(tree, node).len() == 1
                &&& match statement_removed(tree, node)[0] {
                    ChangeView::RemoveNode(removed) => {
                        &&& removed == node
                        &&& tree.node(parent).kind == SyntaxKind::JsStatementList || tree.node(
                            parent,
                        ).kind == SyntaxKind::JsModuleItemList
                    },
                    ChangeView::ReplaceNode { node: replaced, new_node, keeps_trivia } => {
                        &&& replaced == node
                        &&& keeps_trivia
                        &&& new_node.kind == SyntaxKind::JsEmptyStatement
                        &&& new_node.slots == seq![NewSlotView::Token(seq![';'])]
                        &&& tree.node(parent).kind != SyntaxKind::JsStatementList
                        &&& tree.node(parent).kind != SyntaxKind::JsModuleItemList
                    },
                    _ => false,
                }
            },
        },
{
}

/// Where there is no token in the node, or none around it, no trivia is transferred.
pub proof fn lemma_no_trivia_to_transfer(tree: TreeView, node: NodeId)
    requires
        tree.well_formed(),
        tree.has_node(node),
        tree.tokens_of(node).len() == 0 || tree.tokens_of(tree.root_of(node)).len()
            == tree.tokens_of(node).len(),
    ensures
        trivia_transferred(tree, node).len() == 0,
{
    lemma_text_around(tree, node);
}

/// The trivia of a node that goes to the token behind it replaces the line break there, if the
/// trivia of that token starts with one, and loses no other piece.
pub proof fn lemma_line_break_is_replaced(pieces: Seq<TriviaView>)
    ensures
        pieces.len() > 0 && pieces[0].kind == TriviaPieceKind::Newline ==> pieces == seq![pieces[0]]
            + without_newline(pieces),
        pieces.len() == 0 || pieces[0].kind != TriviaPieceKind::Newline ==> without_newline(pieces)
            == pieces,
{
    if pieces.len() > 0 {
        assert(pieces =~= seq![pieces[0]] + pieces.drop_first());
    }
}

/// The tokens of a node come in the order of its slots: a token stands for itself, and a node for
/// its own tokens.
pub proof fn lemma_tokens_come_in_order(tree: TreeView, node: NodeId, index: int)
    requires
        tree.well_formed(),
        tree.has_node(node),
        0 <= index < tree.node(node).slots.len(),
    ensures
        ({
            let slots = tree.node(node).slots;
            let bound = node.index as nat;
            let own = match slots[index] {
                Slot::Token(token) => seq![token],
                Slot::Node(child) => tree.tokens_of(child),
                Slot::Empty => Seq::empty(),
            };
            &&& tree.tokens_of(node) == tree.tokens_in(slots.take(index), bound) + own
                + tree.tokens_in(slots.skip(index + 1), bound)
            &&& tree.tokens_in(Seq::empty(), bound) == Seq::<TokenId>::empty()
        }),
{
    let slots = tree.node(node).slots;
    let bound = node.index as nat;
    assert(tree.is_child(
        node.index as int,
        tree.nodes[node.index as int].slots[index],
    ));
    let single = seq![slots[index]];
    let left = slots.take(index) + single;
    assert(single.drop_last() =~= Seq::empty());
    assert(slots =~= left + slots.skip(index + 1));
    lemma_tokens_concat(tree, left, slots.skip(index + 1), bound);
    lemma_tokens_concat(tree, slots.take(index), single, bound);
    assert(tree.tokens_in(single.drop_last(), bound) =~= Seq::empty());
    let own = match slots[index] {
        Slot::Token(token) => seq![token],
        Slot::Node(child) => tree.tokens_of(child),
        Slot::Empty => Seq::empty(),
    };
    assert(tree.tokens_in(single, bound) =~= own);
}

/// An edit that is done is recorded behind all edits before it, and one that is not done leaves them
/// as they are.
pub proof fn lemma_recorded_behind(
    before: Seq<ChangeView>,
    changes: Option<Seq<ChangeView>>,
    done: bool,
    after: Seq<ChangeView>,
)
    requires
        records(before, changes, done, after),
    ensures
        done == (changes is Some),
        done ==> after == before + changes->Some_0,
        !done ==> after == before,
{
}

/// The edits that remove a node from a list with separators start with the node itself. They name the
/// separators in the order behind and before the node, and nothing twice.
pub proof fn lemma_nothing_is_removed_twice(
    slots: Seq<Slot>,
    index: int,
    node: NodeId,
    skips_missing: bool,
)
    requires
        0 <= index < slots.len(),
        slots[index] == Slot::Node(node),
        forall|i: int| 0 <= i < index ==> #[trigger] slots[i] != Slot::Node(node),
    ensures
        ({
            let last = index + 2 >= slots.len() || (skips_missing && !(slots[index + 2] is Node));
            let behind = if index + 1 < slots.len() && slots[index + 1] is Token {
                seq![ChangeView::RemoveToken(slots[index + 1]->Token_0)]
            } else {
                Seq::empty()
            };
            let before = if last && index > 0 && slots[index - 1] is Token {
                seq![ChangeView::RemoveToken(slots[index - 1]->Token_0)]
            } else {
                Seq::empty()
            };
            element_removed(slots, node, skips_missing) == seq![ChangeView::RemoveNode(node)]
                + behind + before
        }),
{
    lemma_first_slot(slots, node, index);
}

/// The edits that remove a member start with the member itself, and name the separator behind it once.
pub proof fn lemma_member_is_removed_once(tree: TreeView, node: NodeId, list: NodeId, index: int)
    requires
        tree.node(node).parent == Some(list),
        tree.node(list).kind == SyntaxKind::JsObjectMemberList,
        0 <= index < tree.node(list).slots.len(),
        tree.node(list).slots[index] == Slot::Node(node),
        forall|i: int| 0 <= i < index ==> #[trigger] tree.node(list).slots[i] != Slot::Node(node),
    ensures
        ({
            let slots = tree.node(list).slots;
            let behind = if index + 1 < slots.len() && slots[index + 1] is Token {
                seq![ChangeView::RemoveToken(slots[index + 1]->Token_0)]
            } else {
                Seq::empty()
            };
            member_removed(tree, node) == Some(seq![ChangeView::RemoveNode(node)] + behind)
        }),
{
    lemma_first_slot(tree.node(list).slots, node, index);
}

/// The only declarator of a variable statement takes the whole statement with it, whatever else stands
/// in its list.
pub proof fn lemma_only_declarator_takes_its_statement(
    tree: TreeView,
    node: NodeId,
    list: NodeId,
    declaration: NodeId,
    statement: NodeId,
)
    requires
        tree.node(node).parent == Some(list),
        tree.node(list).kind == SyntaxKind::JsVariableDeclaratorList,
        tree.node(list).parent == Some(declaration),
        tree.node(declaration).kind == SyntaxKind::JsVariableDeclaration,
        tree.node(declaration).parent == Some(statement),
        tree.node(statement).kind == SyntaxKind::JsVariableStatement,
        forall|i: int|
            0 <= i < tree.node(list).slots.len() && #[trigger] tree.node(list).slots[i] is Node
                ==> tree.node(list).slots[i] == Slot::Node(node),
    ensures
        declarator_removed(tree, node) == Some(seq![ChangeView::RemoveNode(statement)]),
{
}

/// The root of a tree has no parent, and all nodes below it have the same root.
pub proof fn lemma_root_has_no_parent(tree: TreeView, node: NodeId)
    requires
        tree.well_formed(),
        tree.has_node(node),
    ensures
        tree.node(tree.root_of(node)).parent is None,
        tree.node(node).parent is None ==> tree.root_of(node) == node,
        tree.node(node).parent matches Some(parent) ==> tree.root_of(node) == tree.root_of(parent),
    decreases tree.nodes.len() - node.index,
{
    if let Some(parent) = tree.node(node).parent {
        lemma_parent(tree, node);
        lemma_root_has_no_parent(tree, parent);
    }
}

} // verus!
