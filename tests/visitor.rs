use query_visitor::ast::{NodeKind, OperationType, QueryAstNode};
use query_visitor::visitor::{visit, QueryVisitor, VisitorAction};

fn node(kind: NodeKind, slots: Vec<Vec<QueryAstNode>>) -> QueryAstNode {
    QueryAstNode::new(kind, slots)
}

fn selection_set(items: Vec<QueryAstNode>) -> QueryAstNode {
    node(NodeKind::SelectionSet, vec![items])
}

fn field(name: &str, selections: Option<Vec<QueryAstNode>>) -> QueryAstNode {
    let sel = match selections {
        Some(items) => vec![selection_set(items)],
        None => vec![],
    };
    node(
        NodeKind::Field { alias: None, name: name.to_string() },
        vec![vec![], vec![], sel],
    )
}

fn document(items: Vec<QueryAstNode>) -> QueryAstNode {
    let op = node(
        NodeKind::OperationDefinition { operation: OperationType::Query, name: None },
        vec![vec![], vec![], vec![selection_set(items)]],
    );
    node(NodeKind::Document, vec![vec![op]])
}

/// `{ a, b, c { a, b, c } }`
fn sample() -> QueryAstNode {
    document(vec![
        field("a", None),
        field("b", None),
        field("c", Some(vec![field("a", None), field("b", None), field("c", None)])),
    ])
}

fn field_name(n: &QueryAstNode) -> Option<String> {
    match &n.kind {
        NodeKind::Field { name, .. } => Some(name.clone()),
        _ => None,
    }
}

struct Recorder {
    log: Vec<String>,
}

impl QueryVisitor for Recorder {
    type State = ();
    type Error = ();

    fn enter(&mut self, node: &QueryAstNode) -> Result<VisitorAction, ()> {
        Ok({
            if let Some(n) = field_name(node) {
                self.log.push(format!("enter {}", n));
            }
            VisitorAction::NoAction
        })
    }

    fn leave(&mut self, node: &QueryAstNode) -> Result<VisitorAction, ()> {
        Ok({
            if let Some(n) = field_name(node) {
                self.log.push(format!("leave {}", n));
            }
            VisitorAction::NoAction
        })
    }
}

struct SelectionSetReplacer {
    name: String,
    count: usize,
}

impl QueryVisitor for SelectionSetReplacer {
    type State = ();
    type Error = ();

    fn enter(&mut self, node: &QueryAstNode) -> Result<VisitorAction, ()> {
        Ok({
            match node.kind {
                NodeKind::SelectionSet => {
                    self.count += 1;
                    VisitorAction::ReplaceNode(selection_set(vec![field(&self.name, None)]))
                }
                _ => VisitorAction::NoAction,
            }
        })
    }

    fn leave(&mut self, _node: &QueryAstNode) -> Result<VisitorAction, ()> {
        Ok(VisitorAction::NoAction)
    }
}

#[test]
fn node_editing_on_enter() {
    let mut v = SelectionSetReplacer { name: "enter".to_string(), count: 0 };
    let edited = visit(sample(), &mut v).unwrap();
    assert_eq!(edited, Some(document(vec![field("enter", None)])));
}

#[test]
fn replacing_every_selection_set_yields_single_field() {
    let mut v = SelectionSetReplacer { name: "x".to_string(), count: 0 };
    let edited = visit(sample(), &mut v).unwrap();
    assert_eq!(edited, Some(document(vec![field("x", None)])));
    assert_eq!(v.count, 1);
}

struct LeaveRenamer;

impl QueryVisitor for LeaveRenamer {
    type State = ();
    type Error = ();

    fn enter(&mut self, _node: &QueryAstNode) -> Result<VisitorAction, ()> {
        Ok(VisitorAction::NoAction)
    }

    fn leave(&mut self, node: &QueryAstNode) -> Result<VisitorAction, ()> {
        Ok({
            match field_name(node) {
                Some(n) if n == "b" => VisitorAction::ReplaceNode(field("leave", None)),
                _ => VisitorAction::NoAction,
            }
        })
    }
}

#[test]
fn node_editing_on_leave() {
    let edited = visit(sample(), &mut LeaveRenamer).unwrap();
    let expected = document(vec![
        field("a", None),
        field("leave", None),
        field("c", Some(vec![field("a", None), field("leave", None), field("c", None)])),
    ]);
    assert_eq!(edited, Some(expected));
}

#[test]
fn no_action_visitor_returns_equal_tree() {
    let mut v = Recorder { log: vec![] };
    assert_eq!(visit(sample(), &mut v).unwrap(), Some(sample()));
    let leaf = node(NodeKind::IntValue { value: 7 }, vec![]);
    let mut w = Recorder { log: vec![] };
    assert_eq!(visit(leaf, &mut w).unwrap(), Some(node(NodeKind::IntValue { value: 7 }, vec![])));
}

#[test]
fn visits_in_depth_first_order() {
    let mut v = Recorder { log: vec![] };
    visit(sample(), &mut v).unwrap();
    let expected: Vec<String> = [
        "enter a", "leave a", "enter b", "leave b", "enter c", "enter a", "leave a", "enter b",
        "leave b", "enter c", "leave c", "leave c",
    ]
    .iter()
    .map(|s| s.to_string())
    .collect();
    assert_eq!(v.log, expected);
}

struct Deleter {
    target: String,
}

impl QueryVisitor for Deleter {
    type State = ();
    type Error = ();

    fn enter(&mut self, node: &QueryAstNode) -> Result<VisitorAction, ()> {
        Ok({
            match field_name(node) {
                Some(n) if n == self.target => VisitorAction::DeleteNode,
                _ => VisitorAction::NoAction,
            }
        })
    }

    fn leave(&mut self, _node: &QueryAstNode) -> Result<VisitorAction, ()> {
        Ok(VisitorAction::NoAction)
    }
}

#[test]
fn deleting_middle_keeps_order() {
    let doc = document(vec![field("a", None), field("b", None), field("c", None)]);
    let edited = visit(doc, &mut Deleter { target: "b".to_string() }).unwrap();
    assert_eq!(edited, Some(document(vec![field("a", None), field("c", None)])));
}

#[test]
fn deleting_single_child_empties_its_slot() {
    let doc = document(vec![field("c", Some(vec![field("a", None)]))]);
    let edited = visit(doc, &mut Deleter { target: "a".to_string() }).unwrap();
    assert_eq!(edited, Some(document(vec![field("c", Some(vec![]))])));
}

struct RootDeleter;

impl QueryVisitor for RootDeleter {
    type State = ();
    type Error = ();

    fn enter(&mut self, _node: &QueryAstNode) -> Result<VisitorAction, ()> {
        Ok({
            VisitorAction::DeleteNode
        })
    }

    fn leave(&mut self, _node: &QueryAstNode) -> Result<VisitorAction, ()> {
        Ok(VisitorAction::NoAction)
    }
}

#[test]
fn deleting_the_root_gives_none() {
    assert_eq!(visit(sample(), &mut RootDeleter).unwrap(), None);
}

/// Renames field `a` to `z` and breaks when entering the field named `stop`.
struct Breaker {
    calls_after_break: usize,
    broke: bool,
}

impl QueryVisitor for Breaker {
    type State = ();
    type Error = ();

    fn enter(&mut self, node: &QueryAstNode) -> Result<VisitorAction, ()> {
        Ok({
            if self.broke {
                self.calls_after_break += 1;
            }
            match field_name(node) {
                Some(n) if n == "a" => VisitorAction::ReplaceNode(field("z", None)),
                Some(n) if n == "stop" => {
                    self.broke = true;
                    VisitorAction::Break
                }
                _ => VisitorAction::NoAction,
            }
        })
    }

    fn leave(&mut self, _node: &QueryAstNode) -> Result<VisitorAction, ()> {
        Ok({
            if self.broke {
                self.calls_after_break += 1;
            }
            VisitorAction::NoAction
        })
    }
}

#[test]
fn break_stops_and_keeps_earlier_edits() {
    let doc = document(vec![
        field("a", None),
        field("stop", Some(vec![field("a", None)])),
        field("a", None),
    ]);
    let mut v = Breaker { calls_after_break: 0, broke: false };
    let edited = visit(doc, &mut v).unwrap();
    let expected = document(vec![
        field("z", None),
        field("stop", Some(vec![field("a", None)])),
        field("a", None),
    ]);
    assert_eq!(edited, Some(expected));
    assert!(v.broke);
    assert_eq!(v.calls_after_break, 0);
}

struct Skipper {
    log: Vec<String>,
}

impl QueryVisitor for Skipper {
    type State = ();
    type Error = ();

    fn enter(&mut self, node: &QueryAstNode) -> Result<VisitorAction, ()> {
        Ok({
            match field_name(node) {
                Some(n) => {
                    self.log.push(format!("enter {}", n));
                    if n == "c" {
                        VisitorAction::Skip
                    } else {
                        VisitorAction::NoAction
                    }
                }
                None => VisitorAction::NoAction,
            }
        })
    }

    fn leave(&mut self, node: &QueryAstNode) -> Result<VisitorAction, ()> {
        Ok({
            if let Some(n) = field_name(node) {
                self.log.push(format!("leave {}", n));
            }
            VisitorAction::NoAction
        })
    }
}

#[test]
fn skip_does_not_descend_but_still_leaves() {
    let mut v = Skipper { log: vec![] };
    let edited = visit(sample(), &mut v).unwrap();
    assert_eq!(edited, Some(sample()));
    let expected: Vec<String> = ["enter a", "leave a", "enter b", "leave b", "enter c", "leave c"]
        .iter()
        .map(|s| s.to_string())
        .collect();
    assert_eq!(v.log, expected);
}

/// Replaces field `r` with a field `r2` that has children, and renames `a`
/// to `z` wherever it is met.
struct DeepReplacer;

impl QueryVisitor for DeepReplacer {
    type State = ();
    type Error = ();

    fn enter(&mut self, node: &QueryAstNode) -> Result<VisitorAction, ()> {
        Ok({
            match field_name(node) {
                Some(n) if n == "r" => {
                    VisitorAction::ReplaceNode(field("r2", Some(vec![field("a", None), field("b", None)])))
                }
                Some(n) if n == "a" => VisitorAction::ReplaceNode(field("z", None)),
                _ => VisitorAction::NoAction,
            }
        })
    }

    fn leave(&mut self, _node: &QueryAstNode) -> Result<VisitorAction, ()> {
        Ok(VisitorAction::NoAction)
    }
}

#[test]
fn replacement_is_walked_in_turn() {
    let doc = document(vec![field("r", None), field("b", None)]);
    let edited = visit(doc, &mut DeepReplacer).unwrap();
    let expected = document(vec![
        field("r2", Some(vec![field("z", None), field("b", None)])),
        field("b", None),
    ]);
    assert_eq!(edited, Some(expected));
}

#[test]
fn break_action_is_recognised() {
    assert!(VisitorAction::Break.is_break());
    assert!(!VisitorAction::NoAction.is_break());
    assert!(!VisitorAction::Skip.is_break());
}

/// Fails when it enters the field named `bad`.
struct Failing {
    calls_after_failure: usize,
    failed: bool,
}

impl QueryVisitor for Failing {
    type State = ();
    type Error = String;

    fn enter(&mut self, node: &QueryAstNode) -> Result<VisitorAction, String> {
        if self.failed {
            self.calls_after_failure += 1;
        }
        match field_name(node) {
            Some(n) if n == "bad" => {
                self.failed = true;
                Err("bad field".to_string())
            }
            Some(n) if n == "a" => Ok(VisitorAction::DeleteNode),
            _ => Ok(VisitorAction::NoAction),
        }
    }

    fn leave(&mut self, _node: &QueryAstNode) -> Result<VisitorAction, String> {
        if self.failed {
            self.calls_after_failure += 1;
        }
        Ok(VisitorAction::NoAction)
    }
}

#[test]
fn hook_error_aborts_the_walk() {
    let doc = document(vec![field("a", None), field("bad", None), field("c", None)]);
    let mut v = Failing { calls_after_failure: 0, failed: false };
    assert_eq!(visit(doc, &mut v), Err("bad field".to_string()));
    assert_eq!(v.calls_after_failure, 0);
}
