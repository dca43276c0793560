//! The node model of query documents: every node carries its kind (with the
//! kind's own leaf data) and an ordered list of child slots.
use vstd::prelude::*;

verus! {

/// The three kinds of operation a document can define.
#[derive(PartialEq, Eq, Structural, Clone, Copy, Debug)]
pub enum OperationType {
    Query,
    Mutation,
    Subscription,
}

/// The grammar production a node stands for, with its leaf data.
///
/// Children are never stored here: they live in the node's slots, in the
/// order given for each kind below.
#[derive(Debug, PartialEq)]
#[allow(inconsistent_fields)]
pub enum NodeKind {
    /// slots: definitions
    Document,
    /// slots: variable definitions, directives, selection set (single)
    OperationDefinition { operation: OperationType, name: Option<String> },
    /// slots: directives, selection set (single)
    FragmentDefinition { name: String, type_condition: String },
    /// slots: variable type (single), default value (single)
    VariableDefinition { name: String },
    /// slots: selections
    SelectionSet,
    /// slots: arguments, directives, selection set (single)
    Field { alias: Option<String>, name: String },
    /// slots: directives
    FragmentSpread { name: String },
    /// slots: directives, selection set (single)
    InlineFragment { type_condition: Option<String> },
    /// slots: arguments
    Directive { name: String },
    /// slots: value (single)
    Argument { name: String },
    Variable { name: String },
    IntValue { value: i64 },
    StringValue { value: String },
    BooleanValue { value: bool },
    NullValue,
    EnumValue { value: String },
    /// slots: items
    ListValue,
    /// slots: fields
    ObjectValue,
    /// slots: value (single)
    ObjectField { name: String },
    NamedType { name: String },
    /// slots: item type (single)
    ListType,
    /// slots: inner type (single)
    NonNullType,
}

/// The mathematical value of a node: its kind and, slot by slot, the values
/// of its children.
pub struct TreeM {
    pub kind: NodeKind,
    pub slots: Seq<Seq<TreeM>>,
}

/// A node of a query document.
///
/// A slot that holds at most one child (a field's selection set, an
/// argument's value) is a slot whose list has length zero or one; removing
/// that child leaves the list empty.
#[derive(Debug, PartialEq)]
pub struct QueryAstNode {
    pub kind: NodeKind,
    pub slots: Vec<Vec<QueryAstNode>>,
}

impl View for QueryAstNode {
    type V = TreeM;

    open spec fn view(&self) -> TreeM {
        tree_of(self)
    }
}

/// The value of a node, computed slot by slot.
pub open spec fn tree_of(n: &QueryAstNode) -> TreeM
    decreases n,
{
    TreeM {
        kind: n.kind,
        slots: Seq::new(
            n.slots@.len(),
            |i: int|
                Seq::new(
                    n.slots@[i]@.len(),
                    |j: int|
                        if 0 <= i < n.slots@.len() && 0 <= j < n.slots@[i]@.len() {
                            tree_of(&n.slots@[i]@[j])
                        } else {
                            TreeM { kind: NodeKind::NullValue, slots: Seq::empty() }
                        },
                ),
        ),
    }
}

/// The values of a sequence of nodes.
pub open spec fn views(s: Seq<QueryAstNode>) -> Seq<TreeM> {
    s.map_values(|n: QueryAstNode| n@)
}

/// The values of a sequence of slots.
pub open spec fn slot_views(s: Seq<Vec<QueryAstNode>>) -> Seq<Seq<TreeM>> {
    s.map_values(|v: Vec<QueryAstNode>| views(v@))
}

/// The value of a node that may be absent.
pub open spec fn opt_view(o: Option<QueryAstNode>) -> Option<TreeM> {
    match o {
        Some(n) => Some(n@),
        None => None,
    }
}

/// A node's value holds its kind and, slot by slot, its children's values.
pub proof fn lemma_view_slots(n: &QueryAstNode)
    ensures
        n@.kind == n.kind,
        n@.slots == slot_views(n.slots@),
{
    assert forall|i: int| 0 <= i < n.slots@.len() implies #[trigger] n@.slots[i] =~= views(
        n.slots@[i]@,
    ) by {}
    assert(n@.slots =~= slot_views(n.slots@));
}

impl QueryAstNode {
    /// A node of the given kind and slots.
    pub fn new(kind: NodeKind, slots: Vec<Vec<QueryAstNode>>) -> (r: QueryAstNode)
        ensures
            r@.kind == kind,
            r@.slots == slot_views(slots@),
    {
        let r = QueryAstNode { kind, slots };
        proof {
            lemma_view_slots(&r);
        }
        r
    }
}

} // verus!
