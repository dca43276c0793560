use query_visitor::ast::{NodeKind, OperationType, QueryAstNode};
use query_visitor::type_info::{
    DirectiveDefinition, FieldDefinition, InputValue, SchemaDocument, TypeDefinition, TypeInfo, TypeRef,
    TypedVisitor, WithTypeInfo,
};
use query_visitor::visitor::{visit, QueryVisitor, VisitorAction};

fn named(n: &str) -> TypeRef {
    TypeRef::Named(n.to_string())
}

fn field_def(name: &str, arguments: Vec<InputValue>, field_type: TypeRef) -> FieldDefinition {
    FieldDefinition { name: name.to_string(), arguments, field_type }
}

fn type_def(name: &str, fields: Vec<FieldDefinition>) -> TypeDefinition {
    TypeDefinition { name: name.to_string(), fields }
}

/// interface Pet { name: String }
/// type Dog implements Pet { name: String }
/// type Cat implements Pet { name: String }
/// type Human { name: String, pets: [Pet] }
/// type Alien { name(surname: Boolean): String }
/// type QueryRoot { human(id: ID): Human, alien: Alien }
/// schema { query: QueryRoot }
fn test_schema() -> SchemaDocument {
    SchemaDocument {
        query: Some("QueryRoot".to_string()),
        mutation: None,
        subscription: None,
        types: vec![
            type_def("Pet", vec![field_def("name", vec![], named("String"))]),
            type_def("Dog", vec![field_def("name", vec![], named("String"))]),
            type_def("Cat", vec![field_def("name", vec![], named("String"))]),
            type_def(
                "Human",
                vec![
                    field_def("name", vec![], named("String")),
                    field_def("pets", vec![], TypeRef::List(Box::new(named("Pet")))),
                ],
            ),
            type_def(
                "Alien",
                vec![field_def(
                    "name",
                    vec![InputValue { name: "surname".to_string(), value_type: named("Boolean") }],
                    named("String"),
                )],
            ),
            type_def(
                "QueryRoot",
                vec![
                    field_def(
                        "human",
                        vec![InputValue { name: "id".to_string(), value_type: named("ID") }],
                        named("Human"),
                    ),
                    field_def("alien", vec![], named("Alien")),
                ],
            ),
        ],
        directives: vec![DirectiveDefinition {
            name: "skip".to_string(),
            arguments: vec![InputValue {
                name: "if".to_string(),
                value_type: TypeRef::NonNull(Box::new(named("Boolean"))),
            }],
        }],
    }
}

fn node(kind: NodeKind, slots: Vec<Vec<QueryAstNode>>) -> QueryAstNode {
    QueryAstNode::new(kind, slots)
}

fn selection_set(items: Vec<QueryAstNode>) -> QueryAstNode {
    node(NodeKind::SelectionSet, vec![items])
}

fn field(name: &str, args: Vec<QueryAstNode>, selections: Option<Vec<QueryAstNode>>) -> QueryAstNode {
    let sel = match selections {
        Some(items) => vec![selection_set(items)],
        None => vec![],
    };
    node(NodeKind::Field { alias: None, name: name.to_string() }, vec![args, vec![], sel])
}

fn argument(name: &str, value: QueryAstNode) -> QueryAstNode {
    node(NodeKind::Argument { name: name.to_string() }, vec![vec![value]])
}

/// `{ human(id: 4) { name, pets { ... { name } }, unknown } }`
fn test_query() -> QueryAstNode {
    let fragment = node(
        NodeKind::InlineFragment { type_condition: None },
        vec![vec![], vec![selection_set(vec![field("name", vec![], None)])]],
    );
    let human = field(
        "human",
        vec![argument("id", node(NodeKind::IntValue { value: 4 }, vec![]))],
        Some(vec![
            field("name", vec![], None),
            field("pets", vec![], Some(vec![fragment])),
            field("unknown", vec![], None),
        ]),
    );
    let op = node(
        NodeKind::OperationDefinition { operation: OperationType::Query, name: None },
        vec![vec![], vec![], vec![selection_set(vec![human])]],
    );
    node(NodeKind::Document, vec![vec![op]])
}

/// Records, at each field and argument, the positions the tracker reports.
struct TestVisitor {
    current_types: Vec<(String, Option<TypeRef>)>,
    parent_types: Vec<(String, Option<String>)>,
    input_types: Vec<(String, Option<TypeRef>)>,
}

impl TypedVisitor for TestVisitor {
    type State = ();
    type Error = ();

    fn enter(&mut self, node: &QueryAstNode, info: &TypeInfo) -> Result<VisitorAction, ()> {
        match &node.kind {
            NodeKind::Field { name, .. } => {
                self.current_types.push((name.clone(), info.get_type()));
                self.parent_types.push((name.clone(), info.get_parent_type()));
            }
            NodeKind::Argument { name } => {
                self.input_types.push((name.clone(), info.get_input_type()));
            }
            _ => {}
        }
        Ok(VisitorAction::NoAction)
    }

    fn leave(&mut self, _node: &QueryAstNode, _info: &TypeInfo) -> Result<VisitorAction, ()> {
        Ok(VisitorAction::NoAction)
    }
}

#[test]
fn visit_maintains_type_info() {
    let inner = TestVisitor { current_types: vec![], parent_types: vec![], input_types: vec![] };
    let mut v = WithTypeInfo::new(TypeInfo::new(test_schema()), inner);
    let result = visit(test_query(), &mut v).unwrap();
    assert_eq!(result, Some(test_query()));
    assert_eq!(
        v.inner.current_types,
        vec![
            ("human".to_string(), Some(named("Human"))),
            ("name".to_string(), Some(named("String"))),
            ("pets".to_string(), Some(TypeRef::List(Box::new(named("Pet"))))),
            ("name".to_string(), Some(named("String"))),
            ("unknown".to_string(), None),
        ]
    );
    assert_eq!(
        v.inner.parent_types,
        vec![
            ("human".to_string(), Some("QueryRoot".to_string())),
            ("name".to_string(), Some("Human".to_string())),
            ("pets".to_string(), Some("Human".to_string())),
            ("name".to_string(), Some("Pet".to_string())),
            ("unknown".to_string(), Some("Human".to_string())),
        ]
    );
    assert_eq!(v.inner.input_types, vec![("id".to_string(), Some(named("ID")))]);
    assert_eq!(v.info.get_type(), None);
    assert_eq!(v.info.get_parent_type(), None);
    assert_eq!(v.info.get_input_type(), None);
}

/// Replaces the field `pets` with a field `name`, and records the type the
/// tracker reports when the walk reaches the replacement's fields.
struct PetsReplacer {
    seen: Vec<(String, Option<TypeRef>)>,
}

impl TypedVisitor for PetsReplacer {
    type State = ();
    type Error = ();

    fn enter(&mut self, node: &QueryAstNode, info: &TypeInfo) -> Result<VisitorAction, ()> {
        match &node.kind {
            NodeKind::Field { name, .. } if name == "pets" => {
                Ok(VisitorAction::ReplaceNode(field("name", vec![], None)))
            }
            NodeKind::Field { name, .. } => {
                self.seen.push((name.clone(), info.get_type()));
                Ok(VisitorAction::NoAction)
            }
            _ => Ok(VisitorAction::NoAction),
        }
    }

    fn leave(&mut self, _node: &QueryAstNode, _info: &TypeInfo) -> Result<VisitorAction, ()> {
        Ok(VisitorAction::NoAction)
    }
}

#[test]
fn tracker_follows_replacements() {
    let mut v = WithTypeInfo::new(TypeInfo::new(test_schema()), PetsReplacer { seen: vec![] });
    visit(test_query(), &mut v).unwrap();
    assert_eq!(
        v.inner.seen,
        vec![
            ("human".to_string(), Some(named("Human"))),
            ("name".to_string(), Some(named("String"))),
            ("unknown".to_string(), None),
        ]
    );
    assert_eq!(v.info.get_type(), None);
    assert_eq!(v.info.get_parent_type(), None);
}

#[test]
fn fresh_tracker_has_no_position() {
    let info = TypeInfo::new(test_schema());
    assert_eq!(info.get_type(), None);
    assert_eq!(info.get_parent_type(), None);
    assert_eq!(info.get_input_type(), None);
}

#[test]
fn enter_and_leave_are_balanced() {
    let mut info = TypeInfo::new(test_schema());
    let op = node(
        NodeKind::OperationDefinition { operation: OperationType::Query, name: None },
        vec![vec![], vec![], vec![]],
    );
    info.enter(&op).unwrap();
    assert_eq!(info.get_type(), Some(named("QueryRoot")));
    let set = selection_set(vec![]);
    info.enter(&set).unwrap();
    assert_eq!(info.get_parent_type(), Some("QueryRoot".to_string()));
    let alien = field("alien", vec![], None);
    info.enter(&alien).unwrap();
    assert_eq!(info.get_type(), Some(named("Alien")));
    let set2 = selection_set(vec![]);
    info.enter(&set2).unwrap();
    assert_eq!(info.get_parent_type(), Some("Alien".to_string()));
    let name = field("name", vec![], None);
    info.enter(&name).unwrap();
    let arg = argument("surname", node(NodeKind::BooleanValue { value: true }, vec![]));
    info.enter(&arg).unwrap();
    assert_eq!(info.get_input_type(), Some(named("Boolean")));
    info.leave(&arg).unwrap();
    assert_eq!(info.get_input_type(), None);
    let missing = argument("nope", node(NodeKind::NullValue, vec![]));
    info.enter(&missing).unwrap();
    assert_eq!(info.get_input_type(), None);
    info.leave(&missing).unwrap();
    info.leave(&name).unwrap();
    assert_eq!(info.get_type(), Some(named("Alien")));
    info.leave(&set2).unwrap();
    assert_eq!(info.get_parent_type(), Some("QueryRoot".to_string()));
    info.leave(&alien).unwrap();
    assert_eq!(info.get_type(), Some(named("QueryRoot")));
    info.leave(&set).unwrap();
    info.leave(&op).unwrap();
    assert_eq!(info.get_type(), None);
    assert_eq!(info.get_parent_type(), None);
}

#[test]
fn list_values_unwrap_the_input_type() {
    let schema = SchemaDocument {
        query: Some("Q".to_string()),
        mutation: None,
        subscription: None,
        types: vec![type_def(
            "Q",
            vec![field_def(
                "f",
                vec![InputValue {
                    name: "ids".to_string(),
                    value_type: TypeRef::NonNull(Box::new(TypeRef::List(Box::new(named("ID"))))),
                }],
                named("Int"),
            )],
        )],
        directives: vec![],
    };
    let mut info = TypeInfo::new(schema);
    let op = node(
        NodeKind::OperationDefinition { operation: OperationType::Query, name: None },
        vec![],
    );
    info.enter(&op).unwrap();
    let set = selection_set(vec![]);
    info.enter(&set).unwrap();
    let f = field("f", vec![], None);
    info.enter(&f).unwrap();
    let arg = argument("ids", node(NodeKind::ListValue, vec![vec![]]));
    info.enter(&arg).unwrap();
    let list = node(NodeKind::ListValue, vec![vec![]]);
    info.enter(&list).unwrap();
    assert_eq!(info.get_input_type(), Some(named("ID")));
    info.leave(&list).unwrap();
    assert_eq!(
        info.get_input_type(),
        Some(TypeRef::NonNull(Box::new(TypeRef::List(Box::new(named("ID"))))))
    );
}

#[test]
fn type_ref_copy_and_base_name() {
    let t = TypeRef::NonNull(Box::new(TypeRef::List(Box::new(named("Pet")))));
    assert_eq!(t.duplicate(), t);
    assert_eq!(t.base_name(), "Pet");
}

#[test]
fn directive_arguments_use_the_directive_definition() {
    let mut info = TypeInfo::new(test_schema());
    let op = node(
        NodeKind::OperationDefinition { operation: OperationType::Query, name: None },
        vec![vec![], vec![], vec![]],
    );
    info.enter(&op).unwrap();
    let set = selection_set(vec![]);
    info.enter(&set).unwrap();
    let human = field("human", vec![], None);
    info.enter(&human).unwrap();
    let id = argument("id", node(NodeKind::IntValue { value: 1 }, vec![]));
    info.enter(&id).unwrap();
    assert_eq!(info.get_input_type(), Some(named("ID")));
    info.leave(&id).unwrap();
    let skip_directive = node(NodeKind::Directive { name: "skip".to_string() }, vec![vec![]]);
    info.enter(&skip_directive).unwrap();
    let cond = argument("if", node(NodeKind::BooleanValue { value: true }, vec![]));
    info.enter(&cond).unwrap();
    assert_eq!(info.get_input_type(), Some(TypeRef::NonNull(Box::new(named("Boolean")))));
    info.leave(&cond).unwrap();
    let stray = argument("id", node(NodeKind::IntValue { value: 2 }, vec![]));
    info.enter(&stray).unwrap();
    assert_eq!(info.get_input_type(), None);
    info.leave(&stray).unwrap();
    info.leave(&skip_directive).unwrap();
    info.enter(&id).unwrap();
    assert_eq!(info.get_input_type(), Some(named("ID")));
}
