//! A tracker of schema positions: fed the same enter/leave calls as a
//! visitor, it keeps, at every point of a walk, the output type, the parent
//! composite type, the field definition and the input type that apply there.
use vstd::prelude::*;
use crate::ast::{NodeKind, OperationType, QueryAstNode, TreeM, lemma_view_slots};
use crate::visitor::{
    ActionM, FrameM, QueryVisitor, VisitorAction, init, run, walk, rebuild, contribute, open_frame,
    hook_view, outcome, lemma_visit_no_action, lemma_no_action_walk_ends, cost, STEP_LIMIT,
};

verus! {

/// A reference to a type of the schema, possibly wrapped in list and
/// non-null markers.
#[derive(Debug, PartialEq)]
pub enum TypeRef {
    Named(String),
    List(Box<TypeRef>),
    NonNull(Box<TypeRef>),
}

/// The name a type reference comes down to once its wrappers are removed.
pub open spec fn named_of(t: TypeRef) -> Seq<char>
    decreases t,
{
    match t {
        TypeRef::Named(n) => n@,
        TypeRef::List(inner) => named_of(*inner),
        TypeRef::NonNull(inner) => named_of(*inner),
    }
}

/// The item type of a list type, looking through one non-null marker.
pub open spec fn list_item(t: Option<TypeRef>) -> Option<TypeRef> {
    match t {
        Some(TypeRef::List(inner)) => Some(*inner),
        Some(TypeRef::NonNull(inner)) => match *inner {
            TypeRef::List(item) => Some(*item),
            _ => None,
        },
        _ => None,
    }
}

impl TypeRef {
    /// A copy of this reference.
    pub fn duplicate(&self) -> (r: TypeRef)
        ensures
            r == *self,
        decreases self,
    {
        match self {
            TypeRef::Named(n) => TypeRef::Named(n.clone()),
            TypeRef::List(inner) => TypeRef::List(Box::new(inner.duplicate())),
            TypeRef::NonNull(inner) => TypeRef::NonNull(Box::new(inner.duplicate())),
        }
    }

    /// The name this reference comes down to.
    pub fn base_name(&self) -> (r: &String)
        ensures
            r@ == named_of(*self),
        decreases self,
    {
        match self {
            TypeRef::Named(n) => n,
            TypeRef::List(inner) => inner.base_name(),
            TypeRef::NonNull(inner) => inner.base_name(),
        }
    }
}

/// An argument of a field, as the schema declares it.
#[derive(Debug)]
pub struct InputValue {
    pub name: String,
    pub value_type: TypeRef,
}

/// A field of a type, as the schema declares it.
#[derive(Debug)]
pub struct FieldDefinition {
    pub name: String,
    pub arguments: Vec<InputValue>,
    pub field_type: TypeRef,
}

/// An object or interface type of the schema.
#[derive(Debug)]
pub struct TypeDefinition {
    pub name: String,
    pub fields: Vec<FieldDefinition>,
}

/// A directive the schema declares, with its arguments.
#[derive(Debug)]
pub struct DirectiveDefinition {
    pub name: String,
    pub arguments: Vec<InputValue>,
}

/// A schema: its root operation types, its type definitions and its
/// directive definitions.
#[derive(Debug)]
pub struct SchemaDocument {
    pub query: Option<String>,
    pub mutation: Option<String>,
    pub subscription: Option<String>,
    pub types: Vec<TypeDefinition>,
    pub directives: Vec<DirectiveDefinition>,
}

/// The index of the first name equal to `name`, if any.
pub open spec fn first_match(names: Seq<Seq<char>>, name: Seq<char>) -> Option<usize>
    decreases names.len(),
{
    if names.len() == 0 {
        None
    } else {
        match first_match(names.drop_last(), name) {
            Some(i) => Some(i),
            None => if names.last() == name {
                Some((names.len() - 1) as usize)
            } else {
                None
            },
        }
    }
}

pub open spec fn type_names(s: Seq<TypeDefinition>) -> Seq<Seq<char>> {
    s.map_values(|t: TypeDefinition| t.name@)
}

pub open spec fn field_names(s: Seq<FieldDefinition>) -> Seq<Seq<char>> {
    s.map_values(|f: FieldDefinition| f.name@)
}

pub open spec fn directive_names(s: Seq<DirectiveDefinition>) -> Seq<Seq<char>> {
    s.map_values(|d: DirectiveDefinition| d.name@)
}

pub open spec fn arg_names(s: Seq<InputValue>) -> Seq<Seq<char>> {
    s.map_values(|a: InputValue| a.name@)
}

/// The top of a stack, or `None` when it is empty.
pub open spec fn top_of<T>(s: Seq<Option<T>>) -> Option<T> {
    if s.len() > 0 {
        s.last()
    } else {
        None
    }
}

/// A stack without its top.
pub open spec fn pop_of<T>(s: Seq<T>) -> Seq<T> {
    if s.len() > 0 {
        s.drop_last()
    } else {
        s
    }
}

proof fn lemma_first_match_step(names: Seq<Seq<char>>, name: Seq<char>, i: int)
    requires
        0 <= i < names.len(),
        first_match(names.subrange(0, i), name) == None::<usize>,
    ensures
        first_match(names.subrange(0, i + 1), name) == (if names[i] == name {
            Some(i as usize)
        } else {
            None::<usize>
        }),
{
    assert(names.subrange(0, i + 1).drop_last() =~= names.subrange(0, i));
}

fn find_type(types: &Vec<TypeDefinition>, name: &String) -> (r: Option<usize>)
    ensures
        r == first_match(type_names(types@), name@),
{
    let mut i: usize = 0;
    while i < types.len()
        invariant
            i <= types@.len(),
            first_match(type_names(types@).subrange(0, i as int), name@) == None::<usize>,
        decreases types@.len() - i,
    {
        proof {
            lemma_first_match_step(type_names(types@), name@, i as int);
        }
        if types[i].name == *name {
            proof {
                assert(type_names(types@).subrange(0, types@.len() as int) =~= type_names(types@));
                lemma_first_match_prefix(type_names(types@), name@, i as int + 1);
            }
            return Some(i);
        }
        i = i + 1;
    }
    proof {
        assert(type_names(types@).subrange(0, i as int) =~= type_names(types@));
    }
    None
}

/// The first match is in range and matches.
proof fn lemma_first_match_found(names: Seq<Seq<char>>, name: Seq<char>)
    requires
        names.len() <= usize::MAX,
    ensures
        first_match(names, name) matches Some(i) ==> i < names.len() && names[i as int] == name,
    decreases names.len(),
{
    if names.len() > 0 {
        lemma_first_match_found(names.drop_last(), name);
        if let Some(i) = first_match(names.drop_last(), name) {
            assert(names.drop_last()[i as int] == names[i as int]);
        }
    }
}

/// A match in a prefix is the first match of the whole sequence.
proof fn lemma_first_match_prefix(names: Seq<Seq<char>>, name: Seq<char>, k: int)
    requires
        0 <= k <= names.len(),
        first_match(names.subrange(0, k), name) is Some,
    ensures
        first_match(names, name) == first_match(names.subrange(0, k), name),
    decreases names.len() - k,
{
    if k < names.len() {
        assert(names.subrange(0, k + 1).drop_last() =~= names.subrange(0, k));
        lemma_first_match_prefix(names, name, k + 1);
    } else {
        assert(names.subrange(0, k) =~= names);
    }
}

fn find_field(fields: &Vec<FieldDefinition>, name: &String) -> (r: Option<usize>)
    ensures
        r == first_match(field_names(fields@), name@),
{
    let mut i: usize = 0;
    while i < fields.len()
        invariant
            i <= fields@.len(),
            first_match(field_names(fields@).subrange(0, i as int), name@) == None::<usize>,
        decreases fields@.len() - i,
    {
        proof {
            lemma_first_match_step(field_names(fields@), name@, i as int);
        }
        if fields[i].name == *name {
            proof {
                lemma_first_match_prefix(field_names(fields@), name@, i as int + 1);
            }
            return Some(i);
        }
        i = i + 1;
    }
    proof {
        assert(field_names(fields@).subrange(0, i as int) =~= field_names(fields@));
    }
    None
}

fn find_directive(directives: &Vec<DirectiveDefinition>, name: &String) -> (r: Option<usize>)
    ensures
        r == first_match(directive_names(directives@), name@),
{
    let mut i: usize = 0;
    while i < directives.len()
        invariant
            i <= directives@.len(),
            first_match(directive_names(directives@).subrange(0, i as int), name@) == None::<usize>,
        decreases directives@.len() - i,
    {
        proof {
            lemma_first_match_step(directive_names(directives@), name@, i as int);
        }
        if directives[i].name == *name {
            proof {
                lemma_first_match_prefix(directive_names(directives@), name@, i as int + 1);
            }
            return Some(i);
        }
        i = i + 1;
    }
    proof {
        assert(directive_names(directives@).subrange(0, i as int) =~= directive_names(directives@));
    }
    None
}

fn find_argument(args: &Vec<InputValue>, name: &String) -> (r: Option<usize>)
    ensures
        r == first_match(arg_names(args@), name@),
{
    let mut i: usize = 0;
    while i < args.len()
        invariant
            i <= args@.len(),
            first_match(arg_names(args@).subrange(0, i as int), name@) == None::<usize>,
        decreases args@.len() - i,
    {
        proof {
            lemma_first_match_step(arg_names(args@), name@, i as int);
        }
        if args[i].name == *name {
            proof {
                lemma_first_match_prefix(arg_names(args@), name@, i as int + 1);
            }
            return Some(i);
        }
        i = i + 1;
    }
    proof {
        assert(arg_names(args@).subrange(0, i as int) =~= arg_names(args@));
    }
    None
}


/// The tracker's state: the schema and one stack per concern.
pub struct TypeInfoM {
    pub schema: SchemaDocument,
    pub types: Seq<Option<TypeRef>>,
    pub parents: Seq<Option<usize>>,
    pub fields: Seq<Option<(usize, usize)>>,
    pub inputs: Seq<Option<TypeRef>>,
    pub directives: Seq<Option<usize>>,
}

/// The root type of an operation of the given kind.
pub open spec fn root_type(schema: SchemaDocument, op: OperationType) -> Option<TypeRef> {
    let name = match op {
        OperationType::Query => schema.query,
        OperationType::Mutation => schema.mutation,
        OperationType::Subscription => schema.subscription,
    };
    match name {
        Some(n) => Some(TypeRef::Named(n)),
        None => None,
    }
}

/// The composite type, by index, that a type reference names.
pub open spec fn composite_of(schema: SchemaDocument, t: Option<TypeRef>) -> Option<usize> {
    match t {
        Some(t) => first_match(type_names(schema.types@), named_of(t)),
        None => None,
    }
}

/// The field named `name` of the type at index `parent`.
pub open spec fn field_of(schema: SchemaDocument, parent: Option<usize>, name: Seq<char>) -> Option<
    (usize, usize),
> {
    match parent {
        Some(ti) => if ti < schema.types@.len() {
            match first_match(field_names(schema.types@[ti as int].fields@), name) {
                Some(fi) => Some((ti, fi)),
                None => None,
            }
        } else {
            None
        },
        None => None,
    }
}

/// The declared type of a field.
pub open spec fn field_type_of(schema: SchemaDocument, f: Option<(usize, usize)>) -> Option<TypeRef> {
    match f {
        Some((ti, fi)) => if ti < schema.types@.len() && fi
            < schema.types@[ti as int].fields@.len() {
            Some(schema.types@[ti as int].fields@[fi as int].field_type)
        } else {
            None
        },
        None => None,
    }
}

/// The type of the argument named `name` among `args`.
pub open spec fn argument_in(args: Seq<InputValue>, name: Seq<char>) -> Option<TypeRef> {
    match first_match(arg_names(args), name) {
        Some(ai) => Some(args[ai as int].value_type),
        None => None,
    }
}

/// The declared type of the argument named `name`: of the directive `d`
/// where one is known, else of the field `f`.
pub open spec fn argument_type_at(
    schema: SchemaDocument,
    d: Option<usize>,
    f: Option<(usize, usize)>,
    name: Seq<char>,
) -> Option<TypeRef> {
    match d {
        Some(di) => if di < schema.directives@.len() {
            argument_in(schema.directives@[di as int].arguments@, name)
        } else {
            None
        },
        None => argument_type_of(schema, f, name),
    }
}

/// The declared type of the argument named `name` of a field.
pub open spec fn argument_type_of(
    schema: SchemaDocument,
    f: Option<(usize, usize)>,
    name: Seq<char>,
) -> Option<TypeRef> {
    match f {
        Some((ti, fi)) => if ti < schema.types@.len() && fi
            < schema.types@[ti as int].fields@.len() {
            argument_in(schema.types@[ti as int].fields@[fi as int].arguments@, name)
        } else {
            None
        },
        None => None,
    }
}

/// The state after entering a node.
pub open spec fn enter_state(st: TypeInfoM, n: TreeM) -> TypeInfoM {
    match n.kind {
        NodeKind::OperationDefinition { operation, .. } => TypeInfoM {
            types: st.types.push(root_type(st.schema, operation)),
            ..st
        },
        NodeKind::FragmentDefinition { type_condition, .. } => TypeInfoM {
            types: st.types.push(Some(TypeRef::Named(type_condition))),
            ..st
        },
        NodeKind::InlineFragment { type_condition } => TypeInfoM {
            types: st.types.push(
                match type_condition {
                    Some(c) => Some(TypeRef::Named(c)),
                    None => top_of(st.types),
                },
            ),
            ..st
        },
        NodeKind::SelectionSet => TypeInfoM {
            parents: st.parents.push(composite_of(st.schema, top_of(st.types))),
            ..st
        },
        NodeKind::Field { name, .. } => {
            let f = field_of(st.schema, top_of(st.parents), name@);
            TypeInfoM {
                fields: st.fields.push(f),
                types: st.types.push(field_type_of(st.schema, f)),
                ..st
            }
        },
        NodeKind::Directive { name } => TypeInfoM {
            directives: st.directives.push(
                first_match(directive_names(st.schema.directives@), name@),
            ),
            ..st
        },
        NodeKind::Argument { name } => TypeInfoM {
            inputs: st.inputs.push(
                argument_type_at(st.schema, top_of(st.directives), top_of(st.fields), name@),
            ),
            ..st
        },
        NodeKind::ListValue => TypeInfoM { inputs: st.inputs.push(list_item(top_of(st.inputs))), ..st },
        _ => st,
    }
}

/// The state after leaving a node: the stacks its entering pushed are
/// popped.
pub open spec fn leave_state(st: TypeInfoM, n: TreeM) -> TypeInfoM {
    match n.kind {
        NodeKind::OperationDefinition { .. } => TypeInfoM { types: pop_of(st.types), ..st },
        NodeKind::FragmentDefinition { .. } => TypeInfoM { types: pop_of(st.types), ..st },
        NodeKind::InlineFragment { .. } => TypeInfoM { types: pop_of(st.types), ..st },
        NodeKind::SelectionSet => TypeInfoM { parents: pop_of(st.parents), ..st },
        NodeKind::Field { .. } => TypeInfoM {
            fields: pop_of(st.fields),
            types: pop_of(st.types),
            ..st
        },
        NodeKind::Directive { .. } => TypeInfoM { directives: pop_of(st.directives), ..st },
        NodeKind::Argument { .. } => TypeInfoM { inputs: pop_of(st.inputs), ..st },
        NodeKind::ListValue => TypeInfoM { inputs: pop_of(st.inputs), ..st },
        _ => st,
    }
}

/// Keeps track of the schema position during a walk of a query document.
#[derive(Debug)]
pub struct TypeInfo {
    schema: SchemaDocument,
    type_stack: Vec<Option<TypeRef>>,
    parent_type_stack: Vec<Option<usize>>,
    field_def_stack: Vec<Option<(usize, usize)>>,
    input_type_stack: Vec<Option<TypeRef>>,
    directive_stack: Vec<Option<usize>>,
}

impl TypeInfo {
    /// The tracker's state.
    pub closed spec fn model(&self) -> TypeInfoM {
        TypeInfoM {
            schema: self.schema,
            types: self.type_stack@,
            parents: self.parent_type_stack@,
            fields: self.field_def_stack@,
            inputs: self.input_type_stack@,
            directives: self.directive_stack@,
        }
    }

    /// A tracker over `schema`, outside any position.
    pub fn new(schema: SchemaDocument) -> (r: TypeInfo)
        ensures
            r.model() == (TypeInfoM {
                schema,
                types: seq![],
                parents: seq![],
                fields: seq![],
                inputs: seq![],
                directives: seq![],
            }),
    {
        let r = TypeInfo {
            schema,
            type_stack: Vec::new(),
            parent_type_stack: Vec::new(),
            field_def_stack: Vec::new(),
            input_type_stack: Vec::new(),
            directive_stack: Vec::new(),
        };
        proof {
            assert(r.model().types =~= seq![]);
            assert(r.model().parents =~= seq![]);
            assert(r.model().fields =~= seq![]);
            assert(r.model().inputs =~= seq![]);
            assert(r.model().directives =~= seq![]);
        }
        r
    }

    /// The output type at the current position.
    pub fn get_type(&self) -> (r: Option<TypeRef>)
        ensures
            r == top_of(self.model().types),
    {
        let n = self.type_stack.len();
        if n > 0 {
            match &self.type_stack[n - 1] {
                Some(t) => Some(t.duplicate()),
                None => None,
            }
        } else {
            None
        }
    }

    /// The name of the composite type whose fields are selected at the
    /// current position.
    pub fn get_parent_type(&self) -> (r: Option<String>)
        ensures
            r == (match top_of(self.model().parents) {
                Some(i) => if i < self.model().schema.types@.len() {
                    Some(self.model().schema.types@[i as int].name)
                } else {
                    None
                },
                None => None,
            }),
    {
        let n = self.parent_type_stack.len();
        if n > 0 {
            match self.parent_type_stack[n - 1] {
                Some(i) => if i < self.schema.types.len() {
                    Some(self.schema.types[i].name.clone())
                } else {
                    None
                },
                None => None,
            }
        } else {
            None
        }
    }

    /// The input type at the current position.
    pub fn get_input_type(&self) -> (r: Option<TypeRef>)
        ensures
            r == top_of(self.model().inputs),
    {
        let n = self.input_type_stack.len();
        if n > 0 {
            match &self.input_type_stack[n - 1] {
                Some(t) => Some(t.duplicate()),
                None => None,
            }
        } else {
            None
        }
    }

    fn top_parent(&self) -> (r: Option<usize>)
        ensures
            r == top_of(self.model().parents),
    {
        let n = self.parent_type_stack.len();
        if n > 0 {
            self.parent_type_stack[n - 1]
        } else {
            None
        }
    }

    fn top_field(&self) -> (r: Option<(usize, usize)>)
        ensures
            r == top_of(self.model().fields),
    {
        let n = self.field_def_stack.len();
        if n > 0 {
            self.field_def_stack[n - 1]
        } else {
            None
        }
    }

    fn root_type(&self, op: OperationType) -> (r: Option<TypeRef>)
        ensures
            r == root_type(self.model().schema, op),
    {
        let name = match op {
            OperationType::Query => &self.schema.query,
            OperationType::Mutation => &self.schema.mutation,
            OperationType::Subscription => &self.schema.subscription,
        };
        match name {
            Some(n) => Some(TypeRef::Named(n.clone())),
            None => None,
        }
    }

    fn composite_of(&self, t: &Option<TypeRef>) -> (r: Option<usize>)
        ensures
            r == composite_of(self.model().schema, *t),
    {
        match t {
            Some(t) => find_type(&self.schema.types, t.base_name()),
            None => None,
        }
    }

    fn field_of(&self, parent: Option<usize>, name: &String) -> (r: Option<(usize, usize)>)
        ensures
            r == field_of(self.model().schema, parent, name@),
    {
        match parent {
            Some(ti) => if ti < self.schema.types.len() {
                match find_field(&self.schema.types[ti].fields, name) {
                    Some(fi) => Some((ti, fi)),
                    None => None,
                }
            } else {
                None
            },
            None => None,
        }
    }

    fn field_type_of(&self, f: Option<(usize, usize)>) -> (r: Option<TypeRef>)
        ensures
            r == field_type_of(self.model().schema, f),
    {
        match f {
            Some((ti, fi)) => if ti < self.schema.types.len() && fi
                < self.schema.types[ti].fields.len() {
                Some(self.schema.types[ti].fields[fi].field_type.duplicate())
            } else {
                None
            },
            None => None,
        }
    }

    fn top_directive(&self) -> (r: Option<usize>)
        ensures
            r == top_of(self.model().directives),
    {
        let n = self.directive_stack.len();
        if n > 0 {
            self.directive_stack[n - 1]
        } else {
            None
        }
    }

    fn argument_type_at(&self, d: Option<usize>, f: Option<(usize, usize)>, name: &String) -> (r:
        Option<TypeRef>)
        ensures
            r == argument_type_at(self.model().schema, d, f, name@),
    {
        match d {
            Some(di) => if di < self.schema.directives.len() {
                lookup_argument(&self.schema.directives[di].arguments, name)
            } else {
                None
            },
            None => self.argument_type_of(f, name),
        }
    }

    fn argument_type_of(&self, f: Option<(usize, usize)>, name: &String) -> (r: Option<TypeRef>)
        ensures
            r == argument_type_of(self.model().schema, f, name@),
    {
        match f {
            Some((ti, fi)) => if ti < self.schema.types.len() && fi
                < self.schema.types[ti].fields.len() {
                lookup_argument(&self.schema.types[ti].fields[fi].arguments, name)
            } else {
                None
            },
            None => None,
        }
    }
}

/// The type of the argument named `name` among `args`.
fn lookup_argument(args: &Vec<InputValue>, name: &String) -> (r: Option<TypeRef>)
    ensures
        r == argument_in(args@, name@),
{
    let ghost k = args.len();
    proof {
        assert(arg_names(args@).len() == k);
        lemma_first_match_found(arg_names(args@), name@);
    }
    match find_argument(args, name) {
        Some(ai) => Some(args[ai].value_type.duplicate()),
        None => None,
    }
}

/// The item type of a list type, looking through one non-null marker.
fn list_item_of(t: &Option<TypeRef>) -> (r: Option<TypeRef>)
    ensures
        r == list_item(*t),
{
    match t {
        Some(TypeRef::List(inner)) => Some(inner.duplicate()),
        Some(TypeRef::NonNull(inner)) => match &**inner {
            TypeRef::List(item) => Some(item.duplicate()),
            _ => None,
        },
        _ => None,
    }
}


impl QueryVisitor for TypeInfo {
    type State = TypeInfoM;

    type Error = ();

    open spec fn state(&self) -> TypeInfoM {
        self.model()
    }

    open spec fn enter_action(s: TypeInfoM, node: TreeM) -> ActionM {
        ActionM::NoAction
    }

    open spec fn after_enter(s: TypeInfoM, node: TreeM) -> TypeInfoM {
        enter_state(s, node)
    }

    open spec fn leave_action(s: TypeInfoM, node: TreeM) -> ActionM {
        ActionM::NoAction
    }

    open spec fn after_leave(s: TypeInfoM, node: TreeM) -> TypeInfoM {
        leave_state(s, node)
    }

    fn enter(&mut self, node: &QueryAstNode) -> (r: Result<VisitorAction, ()>) {
        proof {
            lemma_view_slots(node);
        }
        match &node.kind {
            NodeKind::OperationDefinition { operation, .. } => {
                let t = self.root_type(*operation);
                self.type_stack.push(t);
            },
            NodeKind::FragmentDefinition { type_condition, .. } => {
                self.type_stack.push(Some(TypeRef::Named(type_condition.clone())));
            },
            NodeKind::InlineFragment { type_condition } => {
                let t = match type_condition {
                    Some(c) => Some(TypeRef::Named(c.clone())),
                    None => self.get_type(),
                };
                self.type_stack.push(t);
            },
            NodeKind::SelectionSet => {
                let t = self.get_type();
                let p = self.composite_of(&t);
                self.parent_type_stack.push(p);
            },
            NodeKind::Field { name, .. } => {
                let p = self.top_parent();
                let f = self.field_of(p, name);
                let t = self.field_type_of(f);
                self.field_def_stack.push(f);
                self.type_stack.push(t);
            },
            NodeKind::Directive { name } => {
                let d = find_directive(&self.schema.directives, name);
                self.directive_stack.push(d);
            },
            NodeKind::Argument { name } => {
                let d = self.top_directive();
                let f = self.top_field();
                let t = self.argument_type_at(d, f, name);
                self.input_type_stack.push(t);
            },
            NodeKind::ListValue => {
                let t = self.get_input_type();
                let i = list_item_of(&t);
                self.input_type_stack.push(i);
            },
            _ => {},
        }
        Ok(VisitorAction::NoAction)
    }

    fn leave(&mut self, node: &QueryAstNode) -> (r: Result<VisitorAction, ()>) {
        proof {
            lemma_view_slots(node);
        }
        match &node.kind {
            NodeKind::OperationDefinition { .. } | NodeKind::FragmentDefinition { .. }
            | NodeKind::InlineFragment { .. } => {
                self.type_stack.pop();
            },
            NodeKind::SelectionSet => {
                self.parent_type_stack.pop();
            },
            NodeKind::Field { .. } => {
                self.field_def_stack.pop();
                self.type_stack.pop();
            },
            NodeKind::Directive { .. } => {
                self.directive_stack.pop();
            },
            NodeKind::Argument { .. } | NodeKind::ListValue => {
                self.input_type_stack.pop();
            },
            _ => {},
        }
        Ok(VisitorAction::NoAction)
    }
}

/// Leaving a node undoes exactly what entering a node of the same kind did:
/// the stacks are pushed and popped in step with the walk's depth.
pub proof fn lemma_enter_leave_restores(st: TypeInfoM, n1: TreeM, n2: TreeM)
    requires
        n1.kind == n2.kind,
    ensures
        leave_state(enter_state(st, n1), n2) == st,
{
    assert forall|s: Seq<Option<TypeRef>>, x: Option<TypeRef>| #[trigger] pop_of(s.push(x)) == s by {
        assert(s.push(x).drop_last() =~= s);
    }
    assert forall|s: Seq<Option<usize>>, x: Option<usize>| #[trigger] pop_of(s.push(x)) == s by {
        assert(s.push(x).drop_last() =~= s);
    }
    assert forall|s: Seq<Option<(usize, usize)>>, x: Option<(usize, usize)>| #[trigger]
        pop_of(s.push(x)) == s by {
        assert(s.push(x).drop_last() =~= s);
    }
}


/// The state after entering, in order, nodes of the given kinds.
pub open spec fn enter_kinds(st: TypeInfoM, ks: Seq<NodeKind>) -> TypeInfoM
    decreases ks.len(),
{
    if ks.len() == 0 {
        st
    } else {
        enter_state(enter_kinds(st, ks.drop_last()), TreeM { kind: ks.last(), slots: seq![] })
    }
}

/// The kinds of the nodes a stack of frames stands for, the synthetic root
/// frame left out.
pub open spec fn open_kinds(fs: Seq<FrameM>) -> Seq<NodeKind> {
    fs.map_values(|f: FrameM| f.kind).drop_first()
}

/// Entering depends on a node's kind alone.
proof fn lemma_enter_by_kind(st: TypeInfoM, n1: TreeM, n2: TreeM)
    requires
        n1.kind == n2.kind,
    ensures
        enter_state(st, n1) == enter_state(st, n2),
{
}

proof fn lemma_tracker_run(t: TreeM, st: TypeInfoM, n: nat)
    ensures
        run::<TypeInfo>(init(t, st), n).finished ==> run::<TypeInfo>(init(t, st), n).visitor
            == st,
        !run::<TypeInfo>(init(t, st), n).finished ==> run::<TypeInfo>(init(t, st), n).frames.len()
            >= 1 && run::<TypeInfo>(init(t, st), n).visitor == enter_kinds(
            st,
            open_kinds(run::<TypeInfo>(init(t, st), n).frames),
        ),
    decreases n,
{
    if n == 0 {
        assert(open_kinds(init::<TypeInfoM>(t, st).frames) =~= Seq::<NodeKind>::empty());
    } else {
        lemma_tracker_run(t, st, (n - 1) as nat);
        let m = run::<TypeInfo>(init(t, st), (n - 1) as nat);
        if !m.finished {
            let fs = m.frames;
            let top = fs.last();
            let below = fs.drop_last();
            let ks = open_kinds(fs);
            if top.rest.len() > 0 {
                let c = top.rest[0];
                let top1 = FrameM { rest: top.rest.drop_first(), ..top };
                let fs2 = below.push(top1).push(open_frame(c));
                assert(open_kinds(fs2).drop_last() =~= ks);
                assert(open_kinds(fs2).last() == c.kind);
                lemma_enter_by_kind(m.visitor, c, TreeM { kind: c.kind, slots: seq![] });
            } else if top.later.len() > 0 {
                let top2 = FrameM {
                    kind: top.kind,
                    out: top.out.push(seq![]),
                    rest: top.later[0],
                    later: top.later.drop_first(),
                };
                assert(open_kinds(below.push(top2)) =~= ks);
            } else if below.len() == 0 {
                assert(ks =~= Seq::<NodeKind>::empty());
            } else {
                let nd = rebuild(top);
                let fs2 = below.drop_last().push(contribute(below.last(), Some(nd)));
                assert(open_kinds(fs2) =~= ks.drop_last());
                lemma_enter_leave_restores(
                    enter_kinds(st, ks.drop_last()),
                    TreeM { kind: ks.last(), slots: seq![] },
                    nd,
                );
            }
        }
    }
}

/// A walk with the tracker that comes to its end leaves every stack as it
/// found it, and at every point before that the tracker's state is what
/// entering the open nodes, outermost first, made of the starting state.
pub proof fn lemma_tracker_walk_balanced(t: TreeM, st: TypeInfoM, n: nat)
    ensures
        walk::<TypeInfo>(t, st).finished ==> walk::<TypeInfo>(t, st).visitor == st,
        !run::<TypeInfo>(init(t, st), n).finished ==> run::<TypeInfo>(init(t, st), n).visitor
            == enter_kinds(st, open_kinds(run::<TypeInfo>(init(t, st), n).frames)),
{
    lemma_tracker_run(t, st, n);
    lemma_tracker_run(t, st, STEP_LIMIT as nat);
}

/// A walk with the tracker over a tree whose cost fits under the step limit
/// comes to its end, with the tree unchanged and every stack as it was.
pub proof fn lemma_tracker_walk_ends_balanced(t: TreeM, st: TypeInfoM)
    requires
        cost(t) + 2 <= STEP_LIMIT,
    ensures
        walk::<TypeInfo>(t, st).finished,
        !walk::<TypeInfo>(t, st).failed,
        walk::<TypeInfo>(t, st).result == Some(t),
        walk::<TypeInfo>(t, st).visitor == st,
{
    lemma_no_action_walk_ends::<TypeInfo>(t, st);
    lemma_tracker_run(t, st, STEP_LIMIT as nat);
}


/// The tracker alone never edits: walking a tree with it gives the tree
/// back.
pub proof fn lemma_tracker_keeps_tree(t: TreeM, st: TypeInfoM)
    ensures
        !walk::<TypeInfo>(t, st).failed,
        outcome(walk::<TypeInfo>(t, st)) == Some(t),
{
    lemma_visit_no_action::<TypeInfo>(t, st);
}

/// A pass that reads the schema position as it goes: each hook is also given
/// the tracker, already moved onto the node when entering it and not yet
/// moved off it when leaving it.
pub trait TypedVisitor: Sized {
    /// The model of the visitor's state.
    type State;

    /// What a hook returns when it ends the walk with an error.
    type Error;

    /// The visitor's state.
    open spec fn state(&self) -> Self::State {
        arbitrary()
    }

    /// What `enter` returns for `node` in state `s`, at tracker state `info`.
    open spec fn enter_action(s: Self::State, info: TypeInfoM, node: TreeM) -> ActionM {
        arbitrary()
    }

    /// The state `enter` leaves behind.
    open spec fn after_enter(s: Self::State, info: TypeInfoM, node: TreeM) -> Self::State {
        arbitrary()
    }

    /// What `leave` returns for `node` in state `s`, at tracker state `info`.
    open spec fn leave_action(s: Self::State, info: TypeInfoM, node: TreeM) -> ActionM {
        arbitrary()
    }

    /// The state `leave` leaves behind.
    open spec fn after_leave(s: Self::State, info: TypeInfoM, node: TreeM) -> Self::State {
        arbitrary()
    }

    fn enter(&mut self, node: &QueryAstNode, info: &TypeInfo) -> (r: Result<
        VisitorAction,
        Self::Error,
    >)
        ensures
            hook_view(r) == Self::enter_action(old(self).state(), info.model(), node@),
            final(self).state() == Self::after_enter(old(self).state(), info.model(), node@),
    ;

    fn leave(&mut self, node: &QueryAstNode, info: &TypeInfo) -> (r: Result<
        VisitorAction,
        Self::Error,
    >)
        ensures
            hook_view(r) == Self::leave_action(old(self).state(), info.model(), node@),
            final(self).state() == Self::after_leave(old(self).state(), info.model(), node@),
    ;
}

/// A tracker layered over a visitor: it updates its stacks, hands the node
/// to the inner visitor, and returns the inner visitor's action unchanged.
/// Where the inner visitor replaces a node on enter, the tracker moves off
/// the old node and onto the new one, which the walk then descends into.
pub struct WithTypeInfo<V> {
    pub info: TypeInfo,
    pub inner: V,
}

/// The tracker state after entering `node` and hearing action `a` from the
/// inner visitor.
pub open spec fn tracked_enter(t: TypeInfoM, node: TreeM, a: ActionM) -> TypeInfoM {
    match a {
        ActionM::ReplaceNode(r) => enter_state(leave_state(t, node), r),
        _ => t,
    }
}

impl<V: TypedVisitor> QueryVisitor for WithTypeInfo<V> {
    type State = (TypeInfoM, V::State);

    type Error = V::Error;

    open spec fn state(&self) -> (TypeInfoM, V::State) {
        (self.info.model(), self.inner.state())
    }

    open spec fn enter_action(s: (TypeInfoM, V::State), node: TreeM) -> ActionM {
        V::enter_action(s.1, enter_state(s.0, node), node)
    }

    open spec fn after_enter(s: (TypeInfoM, V::State), node: TreeM) -> (TypeInfoM, V::State) {
        let t = enter_state(s.0, node);
        (tracked_enter(t, node, V::enter_action(s.1, t, node)), V::after_enter(s.1, t, node))
    }

    open spec fn leave_action(s: (TypeInfoM, V::State), node: TreeM) -> ActionM {
        V::leave_action(s.1, s.0, node)
    }

    open spec fn after_leave(s: (TypeInfoM, V::State), node: TreeM) -> (TypeInfoM, V::State) {
        (leave_state(s.0, node), V::after_leave(s.1, s.0, node))
    }

    fn enter(&mut self, node: &QueryAstNode) -> (r: Result<VisitorAction, V::Error>) {
        let _ = self.info.enter(node);
        let r = self.inner.enter(node, &self.info);
        match &r {
            Ok(VisitorAction::ReplaceNode(n)) => {
                let _ = self.info.leave(node);
                let _ = self.info.enter(n);
            },
            _ => {},
        }
        r
    }

    fn leave(&mut self, node: &QueryAstNode) -> (r: Result<VisitorAction, V::Error>) {
        let r = self.inner.leave(node, &self.info);
        let _ = self.info.leave(node);
        r
    }
}

impl<V> WithTypeInfo<V> {
    /// Layers `info` over `inner`.
    pub fn new(info: TypeInfo, inner: V) -> (r: WithTypeInfo<V>)
        ensures
            r.info.model() == info.model(),
            r.inner == inner,
    {
        WithTypeInfo { info, inner }
    }
}

} // verus!
