#![verifier::loop_isolation(false)]
//! Shape IR 0.1 abstract graph and semantic validation.
use crate::catalog::RelationBinding;
use crate::lower::{definition_refers, entry_refers, expression_refers, kind_refers};
use crate::types::{enclosed, ScalarType, TypeDescriptor};
use vstd::prelude::*;

verus! {

/// The Shape IR version implemented by this crate.
pub const VERSION: &'static str = "0.1";

/// The characters of [`VERSION`].
pub open spec fn version_text() -> Seq<char> {
    seq!['0', '.', '1']
}

fn version_string() -> (version: String)
    ensures
        version@ == version_text(),
{
    let version = String::from_str(VERSION);
    proof {
        reveal_strlit("0.1");
    }
    version
}

fn is_supported_version(version: &String) -> (r: bool)
    ensures
        r == (version@ == version_text()),
{
    let supported = version_string();
    *version == supported
}

/// A graph-wide relational node identity.
#[derive(Debug, PartialEq, Eq, PartialOrd, Ord, Hash)]
pub struct NodeId(String);

impl View for NodeId {
    type V = Seq<char>;

    closed spec fn view(&self) -> Seq<char> {
        self.0@
    }
}

impl Clone for NodeId {
    fn clone(&self) -> (id: Self)
        ensures
            id@ == self@,
    {
        NodeId(self.0.clone())
    }
}

impl NodeId {
    pub fn new(value: &str) -> (id: Self)
        ensures
            id@ == value@,
    {
        NodeId(String::from_str(value))
    }

    pub fn from_string(value: String) -> (id: Self)
        ensures
            id@ == value@,
    {
        NodeId(value)
    }

    pub fn as_str(&self) -> (text: &str)
        ensures
            text@ == self@,
    {
        self.0.as_str()
    }

    pub fn into_string(self) -> (text: String)
        ensures
            text@ == self@,
    {
        self.0
    }

    /// Whether two identities are the same.
    pub fn same(&self, other: &NodeId) -> (r: bool)
        ensures
            r == (self@ == other@),
    {
        self.0 == other.0
    }
}

/// A graph-wide Shape IR field identity.
#[derive(Debug, PartialEq, Eq, PartialOrd, Ord, Hash)]
pub struct FieldId(String);

impl View for FieldId {
    type V = Seq<char>;

    closed spec fn view(&self) -> Seq<char> {
        self.0@
    }
}

impl Clone for FieldId {
    fn clone(&self) -> (id: Self)
        ensures
            id@ == self@,
            id == *self,
    {
        FieldId(self.0.clone())
    }
}

impl FieldId {
    pub fn new(value: &str) -> (id: Self)
        ensures
            id@ == value@,
    {
        FieldId(String::from_str(value))
    }

    pub fn from_string(value: String) -> (id: Self)
        ensures
            id@ == value@,
    {
        FieldId(value)
    }

    pub fn as_str(&self) -> (text: &str)
        ensures
            text@ == self@,
    {
        self.0.as_str()
    }

    pub fn into_string(self) -> (text: String)
        ensures
            text@ == self@,
    {
        self.0
    }

    /// Whether two identities are the same.
    pub fn same(&self, other: &FieldId) -> (r: bool)
        ensures
            r == (self@ == other@),
    {
        self.0 == other.0
    }
}

/// One complete Shape IR graph.
#[derive(Debug, PartialEq, Eq)]
pub struct Graph {
    pub version: String,
    pub root: NodeId,
    pub nodes: Vec<Node>,
}

impl Graph {
    pub fn new(root: &str, nodes: Vec<Node>) -> (graph: Self)
        ensures
            graph.version@ == version_text(),
            graph.root@ == root@,
            graph.nodes@ == nodes@,
    {
        Graph { version: version_string(), root: NodeId::new(root), nodes }
    }

    /// Validates every graph, node, schema, and expression invariant.
    pub fn validate(&self) -> (r: Result<ValidationSummary, ValidationError>)
        ensures
            validation_outcome(self, r),
    {
        validate(self)
    }
}

/// An ordered Shape IR schema field descriptor.
#[derive(Debug, PartialEq, Eq)]
pub struct Field {
    pub id: FieldId,
    pub name: String,
    pub descriptor: TypeDescriptor,
}

impl Field {
    pub fn new(id: &str, name: &str, descriptor: TypeDescriptor) -> (field: Self)
        ensures
            field.id@ == id@,
            field.name@ == name@,
            field.descriptor == descriptor,
    {
        Field { id: FieldId::new(id), name: String::from_str(name), descriptor }
    }
}

impl View for Field {
    type V = (Seq<char>, Seq<char>, TypeDescriptor);

    open spec fn view(&self) -> (Seq<char>, Seq<char>, TypeDescriptor) {
        (self.id@, self.name@, self.descriptor)
    }
}

impl Clone for Field {
    fn clone(&self) -> (field: Self)
        ensures
            field@ == self@,
    {
        Field { id: self.id.clone(), name: self.name.clone(), descriptor: self.descriptor }
    }
}

#[derive(Clone, Copy, Debug, PartialEq, Eq, Structural)]
pub enum CollectionKind {
    Bag,
    Ordered,
}

/// One relational node with checked output annotations.
#[derive(Debug, PartialEq, Eq)]
pub struct Node {
    pub id: NodeId,
    pub kind: NodeKind,
    pub output_schema: Vec<Field>,
    pub collection: CollectionKind,
}

#[derive(Debug, PartialEq, Eq)]
pub enum NodeKind {
    Input {
        binding: RelationBinding,
    },
    Empty,
    Project {
        input: NodeId,
        entries: Vec<ProjectEntry>,
    },
    Filter {
        input: NodeId,
        predicate: Expression,
    },
    Join {
        left: NodeId,
        right: NodeId,
        join_type: JoinType,
        condition: Option<Expression>,
    },
    Aggregate {
        input: NodeId,
        grouping_keys: Vec<GroupingKey>,
        aggregates: Vec<AggregateDefinition>,
    },
    Window {
        input: NodeId,
        definitions: Vec<WindowDefinition>,
    },
    Distinct {
        input: NodeId,
    },
    SetOperation {
        left: NodeId,
        right: NodeId,
        operation: SetOperation,
        quantifier: SetQuantifier,
    },
    Order {
        input: NodeId,
        items: Vec<OrderingItem>,
    },
    Slice {
        input: NodeId,
        offset: i64,
        limit: Option<i64>,
    },
    ForgetOrder {
        input: NodeId,
    },
}

#[derive(Clone, Copy, Debug, PartialEq, Eq, Structural)]
pub enum JoinType {
    Cross,
    Inner,
    Left,
    Right,
    Full,
}

#[derive(Clone, Copy, Debug, PartialEq, Eq, Structural)]
pub enum SetOperation {
    Union,
    Intersect,
    Except,
}

#[derive(Clone, Copy, Debug, PartialEq, Eq, Structural)]
pub enum SetQuantifier {
    All,
    Distinct,
}

#[derive(Debug, PartialEq, Eq)]
pub enum ProjectEntry {
    Keep(FieldId),
    Compute {
        output: FieldId,
        expression: Expression,
    },
}

#[derive(Debug, PartialEq, Eq)]
pub struct GroupingKey {
    pub output: FieldId,
    pub expression: Expression,
}

#[derive(Debug, PartialEq, Eq)]
pub struct AggregateDefinition {
    pub output: FieldId,
    pub function: AggregateFunction,
    pub argument: Option<Expression>,
}

#[derive(Clone, Copy, Debug, PartialEq, Eq, Structural)]
pub enum AggregateFunction {
    CountAll,
    Count,
    Sum,
    Min,
    Max,
    BoolAnd,
    BoolOr,
}

#[derive(Debug, PartialEq, Eq)]
pub enum WindowDefinition {
    PartitionedAggregate {
        output: FieldId,
        function: AggregateFunction,
        argument: Option<Expression>,
        partition_by: Vec<Expression>,
    },
    Ranking {
        output: FieldId,
        function: RankingFunction,
        partition_by: Vec<Expression>,
        order_by: Vec<OrderingItem>,
    },
}

impl WindowDefinition {
    pub open spec fn spec_output(&self) -> FieldId {
        match self {
            WindowDefinition::PartitionedAggregate { output, .. } => *output,
            WindowDefinition::Ranking { output, .. } => *output,
        }
    }

    pub fn output(&self) -> (output: &FieldId)
        ensures
            *output == self.spec_output(),
    {
        match self {
            WindowDefinition::PartitionedAggregate { output, .. } => output,
            WindowDefinition::Ranking { output, .. } => output,
        }
    }
}

#[derive(Clone, Copy, Debug, PartialEq, Eq, Structural)]
pub enum RankingFunction {
    RowNumber,
    Rank,
    DenseRank,
}

#[derive(Debug, PartialEq, Eq)]
pub struct OrderingItem {
    pub expression: Expression,
    pub direction: Direction,
    pub null_placement: NullPlacement,
}

#[derive(Clone, Copy, Debug, PartialEq, Eq, Structural)]
pub enum Direction {
    Ascending,
    Descending,
}

#[derive(Clone, Copy, Debug, PartialEq, Eq, Structural)]
pub enum NullPlacement {
    First,
    Last,
    NotApplicable,
}

/// A nested scalar expression carrying its checked descriptor.
#[derive(Debug, PartialEq, Eq)]
pub struct Expression {
    pub kind: ExpressionKind,
    pub descriptor: TypeDescriptor,
}

impl Expression {
    pub fn new(kind: ExpressionKind, descriptor: TypeDescriptor) -> (expression: Self)
        ensures
            expression == (Expression { kind, descriptor }),
    {
        Expression { kind, descriptor }
    }
}

#[derive(Debug, PartialEq, Eq)]
pub enum ExpressionKind {
    Literal(LiteralValue),
    Field(FieldId),
    Unary {
        operation: UnaryOperation,
        operand: Box<Expression>,
    },
    Binary {
        operation: BinaryOperation,
        left: Box<Expression>,
        right: Box<Expression>,
    },
    IsNull {
        operand: Box<Expression>,
        negated: bool,
    },
    Case {
        arms: Vec<CaseArm>,
        fallback: Box<Expression>,
    },
    Cast {
        operand: Box<Expression>,
        target: ScalarType,
    },
    InList {
        value: Box<Expression>,
        candidates: Vec<Expression>,
    },
    Exists {
        query: NodeId,
    },
    InQuery {
        value: Box<Expression>,
        query: NodeId,
        field: FieldId,
    },
}

#[derive(Debug, PartialEq, Eq)]
pub enum LiteralValue {
    Boolean(bool),
    Int64(i64),
    Text(String),
    Null,
}

#[derive(Clone, Copy, Debug, PartialEq, Eq, Structural)]
pub enum UnaryOperation {
    Positive,
    Negative,
    Not,
}

#[derive(Clone, Copy, Debug, PartialEq, Eq, Structural)]
pub enum BinaryOperation {
    Add,
    Subtract,
    Multiply,
    Divide,
    Remainder,
    Concatenate,
    Equal,
    NotEqual,
    Less,
    LessOrEqual,
    Greater,
    GreaterOrEqual,
    And,
    Or,
}

#[derive(Debug, PartialEq, Eq)]
pub struct CaseArm {
    pub when: Expression,
    pub result: Expression,
}

/// Root properties derived by successful graph validation.
#[derive(Debug, PartialEq, Eq)]
pub struct ValidationSummary {
    pub root_schema: Vec<Field>,
    pub root_collection: CollectionKind,
}

#[derive(Debug, PartialEq, Eq)]
pub struct ValidationError {
    pub kind: ValidationErrorKind,
    pub node: Option<NodeId>,
}

#[derive(Debug, PartialEq, Eq)]
pub enum ValidationErrorKind {
    UnsupportedVersion(String),
    EmptyGraph,
    DuplicateNode(NodeId),
    MissingNode(NodeId),
    CyclicGraph(NodeId),
    UnreachableNode(NodeId),
    DuplicateField(FieldId),
    InvalidFieldReference(FieldId),
    IncorrectOutputSchema,
    IncorrectCollectionKind,
    IncorrectExpressionDescriptor,
    InvalidExpression,
    InvalidNode,
    InvalidAggregateSignature,
    InvalidOrdering,
    IncompleteRowNumberKey,
    IncompleteSliceKey,
    NegativeSliceBound,
}


// ---------------------------------------------------------------------------
// What validation decides
// ---------------------------------------------------------------------------

pub open spec fn schema_view(schema: Seq<Field>) -> Seq<(Seq<char>, Seq<char>, TypeDescriptor)> {
    schema.map_values(|field: Field| field@)
}

pub open spec fn id_views(ids: Seq<FieldId>) -> Seq<Seq<char>> {
    ids.map_values(|id: FieldId| id@)
}

/// No two nodes of the graph share an identity.
pub open spec fn node_ids_distinct(nodes: Seq<Node>) -> bool {
    forall|i: int, j: int|
        0 <= i < j < nodes.len() ==> #[trigger] nodes[i].id@ != #[trigger] nodes[j].id@
}

/// Node `j` repeats the identity of an earlier node, and no earlier node does.
pub open spec fn first_duplicate_node(nodes: Seq<Node>, j: int) -> bool {
    &&& 0 <= j < nodes.len()
    &&& exists|i: int| 0 <= i < j && #[trigger] nodes[i].id@ == nodes[j].id@
    &&& node_ids_distinct(nodes.take(j))
}

/// The text of a validation error.
pub open spec fn validation_error_text(kind: ValidationErrorKind) -> Seq<char> {
    match kind {
        ValidationErrorKind::UnsupportedVersion(version) => "unsupported Shape IR version `"@ + version@ + "`"@,
        ValidationErrorKind::DuplicateNode(id) => "duplicate node `"@ + id@ + "`"@,
        ValidationErrorKind::MissingNode(id) => "missing node `"@ + id@ + "`"@,
        ValidationErrorKind::CyclicGraph(id) => "cycle through node `"@ + id@ + "`"@,
        ValidationErrorKind::UnreachableNode(id) => "unreachable node `"@ + id@ + "`"@,
        ValidationErrorKind::DuplicateField(id) => "duplicate field `"@ + id@ + "`"@,
        ValidationErrorKind::InvalidFieldReference(id) => "invalid field `"@ + id@ + "`"@,
        ValidationErrorKind::EmptyGraph => "Shape IR graph has no nodes"@,
        ValidationErrorKind::IncorrectOutputSchema => "incorrect output schema"@,
        ValidationErrorKind::IncorrectCollectionKind => "incorrect collection kind"@,
        ValidationErrorKind::IncorrectExpressionDescriptor => "incorrect expression descriptor"@,
        ValidationErrorKind::InvalidExpression => "invalid scalar expression"@,
        ValidationErrorKind::InvalidNode => "invalid relational node"@,
        ValidationErrorKind::InvalidAggregateSignature => "invalid aggregate signature"@,
        ValidationErrorKind::InvalidOrdering => "invalid ordering item"@,
        ValidationErrorKind::IncompleteRowNumberKey => "ROW_NUMBER ordering covers no input value key"@,
        ValidationErrorKind::IncompleteSliceKey => "slice peers cover no input value key"@,
        ValidationErrorKind::NegativeSliceBound => "slice bound is negative"@,
    }
}

impl ValidationError {
    /// The error as one line of text.
    pub fn describe(&self) -> (text: String)
        ensures
            text@ == validation_error_text(self.kind),
    {
        match &self.kind {
            ValidationErrorKind::UnsupportedVersion(version) => enclosed("unsupported Shape IR version `", version.as_str(), "`"),
            ValidationErrorKind::DuplicateNode(id) => enclosed("duplicate node `", id.as_str(), "`"),
            ValidationErrorKind::MissingNode(id) => enclosed("missing node `", id.as_str(), "`"),
            ValidationErrorKind::CyclicGraph(id) => enclosed("cycle through node `", id.as_str(), "`"),
            ValidationErrorKind::UnreachableNode(id) => enclosed("unreachable node `", id.as_str(), "`"),
            ValidationErrorKind::DuplicateField(id) => enclosed("duplicate field `", id.as_str(), "`"),
            ValidationErrorKind::InvalidFieldReference(id) => enclosed("invalid field `", id.as_str(), "`"),
            ValidationErrorKind::EmptyGraph => String::from_str("Shape IR graph has no nodes"),
            ValidationErrorKind::IncorrectOutputSchema => String::from_str("incorrect output schema"),
            ValidationErrorKind::IncorrectCollectionKind => String::from_str("incorrect collection kind"),
            ValidationErrorKind::IncorrectExpressionDescriptor => String::from_str("incorrect expression descriptor"),
            ValidationErrorKind::InvalidExpression => String::from_str("invalid scalar expression"),
            ValidationErrorKind::InvalidNode => String::from_str("invalid relational node"),
            ValidationErrorKind::InvalidAggregateSignature => String::from_str("invalid aggregate signature"),
            ValidationErrorKind::InvalidOrdering => String::from_str("invalid ordering item"),
            ValidationErrorKind::IncompleteRowNumberKey => String::from_str("ROW_NUMBER ordering covers no input value key"),
            ValidationErrorKind::IncompleteSliceKey => String::from_str("slice peers cover no input value key"),
            ValidationErrorKind::NegativeSliceBound => String::from_str("slice bound is negative"),
        }
    }
}

// ---------------------------------------------------------------------------
// What a successful validation establishes of each node
// ---------------------------------------------------------------------------

/// `id` is the identity of a node of the graph.
pub open spec fn node_named(graph: Graph, id: Seq<char>) -> bool {
    exists|k: int| 0 <= k < graph.nodes@.len() && #[trigger] graph.nodes@[k].id@ == id
}

/// `id` is the identity of a field in some node's output schema.
pub open spec fn field_named(graph: Graph, id: Seq<char>) -> bool {
    exists|k: int, i: int|
        0 <= k < graph.nodes@.len() && 0 <= i < graph.nodes@[k].output_schema@.len()
            && #[trigger] graph.nodes@[k].output_schema@[i].id@ == id
}

/// The node named `id` has `width` output fields.
/// A node named `id` has collection kind `kind`.
pub open spec fn named_collection(graph: Graph, id: Seq<char>, kind: CollectionKind) -> bool {
    exists|k: int|
        0 <= k < graph.nodes@.len() && #[trigger] graph.nodes@[k].id@ == id && graph.nodes@[k].collection
            == kind
}

pub open spec fn named_width(graph: Graph, id: Seq<char>, width: nat) -> bool {
    exists|k: int|
        0 <= k < graph.nodes@.len() && #[trigger] graph.nodes@[k].id@ == id
            && graph.nodes@[k].output_schema@.len() == width
}

/// Every field is named in some node's output schema.
pub open spec fn fields_named(graph: Graph, fields: Seq<Field>) -> bool {
    forall|i: int| 0 <= i < fields.len() ==> field_named(graph, (#[trigger] fields[i]).id@)
}

/// `id` is the identity of a field of the node's own output schema.
pub open spec fn declares(node: Node, id: Seq<char>) -> bool {
    exists|i: int| 0 <= i < node.output_schema@.len() && #[trigger] node.output_schema@[i].id@ == id
}

/// A literal agrees with the scalar type of its expression's descriptor.
pub open spec fn literal_fits(literal: LiteralValue, scalar: ScalarType) -> bool {
    match literal {
        LiteralValue::Boolean(_) => scalar == ScalarType::Boolean,
        LiteralValue::Int64(_) => scalar == ScalarType::Int64,
        LiteralValue::Text(_) => scalar == ScalarType::Text,
        LiteralValue::Null => true,
    }
}

/// What validation establishes of an expression: literals agree with their
/// descriptors, field and node references name fields and nodes of the
/// graph, and `case` arms and `in` lists are nonempty.
pub open spec fn checked_expression(graph: Graph, expression: Expression) -> bool
    decreases expression,
{
    match expression.kind {
        ExpressionKind::Literal(literal) => literal_fits(literal, expression.descriptor.scalar),
        ExpressionKind::Field(field) => field_named(graph, field@),
        ExpressionKind::Unary { operand, .. } => checked_expression(graph, *operand),
        ExpressionKind::Binary { left, right, .. } => checked_expression(graph, *left)
            && checked_expression(graph, *right),
        ExpressionKind::IsNull { operand, .. } => checked_expression(graph, *operand),
        ExpressionKind::Case { arms, fallback } => {
            &&& arms@.len() > 0
            &&& forall|i: int|
                0 <= i < arms@.len() ==> checked_expression(graph, #[trigger] arms@[i].when)
                    && checked_expression(graph, arms@[i].result)
            &&& checked_expression(graph, *fallback)
        },
        ExpressionKind::Cast { operand, .. } => checked_expression(graph, *operand),
        ExpressionKind::InList { value, candidates } => {
            &&& candidates@.len() > 0
            &&& checked_expression(graph, *value)
            &&& forall|i: int|
                0 <= i < candidates@.len() ==> checked_expression(graph, #[trigger] candidates@[i])
        },
        ExpressionKind::Exists { query } => node_named(graph, query@),
        ExpressionKind::InQuery { value, query, field } => checked_expression(graph, *value)
            && node_named(graph, query@) && field_named(graph, field@),
    }
}

pub open spec fn checked_expressions(graph: Graph, expressions: Seq<Expression>) -> bool {
    forall|i: int| 0 <= i < expressions.len() ==> checked_expression(graph, #[trigger] expressions[i])
}

pub open spec fn checked_ordering(graph: Graph, items: Seq<OrderingItem>) -> bool {
    forall|i: int| 0 <= i < items.len() ==> checked_expression(graph, (#[trigger] items[i]).expression)
}

/// `count_all` takes no argument, every other aggregate function one.
pub open spec fn checked_aggregate_call(
    graph: Graph,
    function: AggregateFunction,
    argument: Option<Expression>,
) -> bool {
    &&& (function == AggregateFunction::CountAll) == (argument is None)
    &&& argument matches Some(e) ==> checked_expression(graph, e)
}

pub open spec fn checked_window(graph: Graph, node: Node, definition: WindowDefinition) -> bool {
    match definition {
        WindowDefinition::PartitionedAggregate { output, function, argument, partition_by } => {
            &&& declares(node, output@)
            &&& checked_aggregate_call(graph, function, argument)
            &&& checked_expressions(graph, partition_by@)
        },
        WindowDefinition::Ranking { output, partition_by, order_by, .. } => {
            &&& declares(node, output@)
            &&& checked_expressions(graph, partition_by@)
            &&& order_by@.len() > 0
            &&& checked_ordering(graph, order_by@)
        },
    }
}

/// The width of a node's output schema against the widths of its inputs:
/// one field per project entry, per grouping key and aggregate; an input's
/// fields followed by one per window definition; both sides of a join; and
/// the fields of the input for every other kind that has one.
pub open spec fn checked_width(graph: Graph, node: Node) -> bool {
    let width = node.output_schema@.len();
    match node.kind {
        NodeKind::Input { .. } => true,
        NodeKind::Empty => true,
        NodeKind::Project { entries, .. } => entries@.len() == width,
        NodeKind::Filter { input, .. } => named_width(graph, input@, width),
        NodeKind::Join { left, right, .. } => exists|left_width: nat|
            left_width <= width && named_width(graph, left@, left_width) && #[trigger] named_width(
                graph,
                right@,
                (width - left_width) as nat,
            ),
        NodeKind::Aggregate { grouping_keys, aggregates, .. } => grouping_keys@.len() + aggregates@.len()
            == width,
        NodeKind::Window { input, definitions } => definitions@.len() <= width && named_width(
            graph,
            input@,
            (width - definitions@.len()) as nat,
        ),
        NodeKind::Distinct { input } => named_width(graph, input@, width),
        NodeKind::SetOperation { left, right, .. } => named_width(graph, left@, width) && named_width(
            graph,
            right@,
            width,
        ),
        NodeKind::Order { input, .. } => named_width(graph, input@, width),
        NodeKind::Slice { input, .. } => named_width(graph, input@, width),
        NodeKind::ForgetOrder { input } => named_width(graph, input@, width),
    }
}

/// What validation establishes of a node: its inputs name nodes of the
/// graph, its outputs are fields of its own schema, its expressions are
/// checked, and the lists and members that its kind asks for are there.
pub open spec fn checked_node(graph: Graph, node: Node) -> bool {
    checked_width(graph, node) && match node.kind {
        NodeKind::Input { binding } => binding@.len() > 0,
        NodeKind::Empty => true,
        NodeKind::Project { input, entries } => {
            &&& node_named(graph, input@)
            &&& forall|i: int|
                0 <= i < entries@.len() ==> match #[trigger] entries@[i] {
                    ProjectEntry::Keep(field) => field_named(graph, field@),
                    ProjectEntry::Compute { output, expression } => declares(node, output@)
                        && checked_expression(graph, expression),
                }
        },
        NodeKind::Filter { input, predicate } => node_named(graph, input@) && checked_expression(
            graph,
            predicate,
        ) && predicate.descriptor.scalar == ScalarType::Boolean,
        NodeKind::Join { left, right, join_type, condition } => {
            &&& node_named(graph, left@)
            &&& node_named(graph, right@)
            &&& (join_type == JoinType::Cross) == (condition is None)
            &&& condition matches Some(e) ==> checked_expression(graph, e) && e.descriptor.scalar
                == ScalarType::Boolean
        },
        NodeKind::Aggregate { input, grouping_keys, aggregates } => {
            &&& node_named(graph, input@)
            &&& forall|i: int|
                0 <= i < grouping_keys@.len() ==> declares(node, (#[trigger] grouping_keys@[i]).output@)
                    && checked_expression(graph, grouping_keys@[i].expression)
            &&& forall|i: int|
                0 <= i < aggregates@.len() ==> declares(node, (#[trigger] aggregates@[i]).output@)
                    && checked_aggregate_call(graph, aggregates@[i].function, aggregates@[i].argument)
        },
        NodeKind::Window { input, definitions } => {
            &&& node_named(graph, input@)
            &&& definitions@.len() > 0
            &&& forall|i: int| 0 <= i < definitions@.len() ==> checked_window(graph, node, #[trigger] definitions@[i])
        },
        NodeKind::Distinct { input } => node_named(graph, input@),
        NodeKind::SetOperation { left, right, .. } => node_named(graph, left@) && node_named(graph, right@),
        NodeKind::Order { input, items } => {
            &&& node_named(graph, input@)
            &&& items@.len() > 0
            &&& checked_ordering(graph, items@)
        },
        NodeKind::Slice { input, offset, limit } => {
            &&& node_named(graph, input@)
            &&& named_collection(graph, input@, CollectionKind::Ordered)
            &&& offset >= 0
            &&& limit matches Some(l) ==> l >= 0
        },
        NodeKind::ForgetOrder { input } => node_named(graph, input@) && named_collection(
            graph,
            input@,
            CollectionKind::Ordered,
        ),
    }
}

/// Fields with the views of a node's output schema are named in the graph.
proof fn lemma_fields_named(graph: Graph, k: int, fields: Seq<Field>)
    requires
        0 <= k < graph.nodes@.len(),
        schema_view(fields) == schema_view(graph.nodes@[k].output_schema@),
    ensures
        fields_named(graph, fields),
{
    let schema = graph.nodes@[k].output_schema@;
    assert(schema_view(fields).len() == fields.len() && schema_view(schema).len() == schema.len());
    assert forall|i: int| 0 <= i < fields.len() implies field_named(graph, (#[trigger] fields[i]).id@) by {
        assert(schema_view(fields)[i] == fields[i]@);
        assert(schema_view(schema)[i] == schema[i]@);
        assert(graph.nodes@[k].output_schema@[i].id@ == fields[i].id@);
    }
}

proof fn lemma_fields_named_view(graph: Graph, fields: Seq<Field>, copy: Seq<Field>)
    requires
        fields_named(graph, fields),
        schema_view(copy) == schema_view(fields),
    ensures
        fields_named(graph, copy),
{
    assert(schema_view(fields).len() == fields.len() && schema_view(copy).len() == copy.len());
    assert forall|i: int| 0 <= i < copy.len() implies field_named(graph, (#[trigger] copy[i]).id@) by {
        assert(schema_view(copy)[i] == copy[i]@);
        assert(schema_view(fields)[i] == fields[i]@);
        assert(field_named(graph, fields[i].id@));
    }
}


/// The outcome of validating `graph`: the preliminary graph checks are exact, and a
/// successful validation reports the root node's checked schema and collection kind.
pub open spec fn validation_outcome(
    graph: &Graph,
    r: Result<ValidationSummary, ValidationError>,
) -> bool {
    if graph.version@ != version_text() {
        match r {
            Err(e) => e.node is None && match e.kind {
                ValidationErrorKind::UnsupportedVersion(version) => version@ == graph.version@,
                _ => false,
            },
            Ok(_) => false,
        }
    } else if graph.nodes@.len() == 0 {
        match r {
            Err(e) => e.node is None && e.kind is EmptyGraph,
            Ok(_) => false,
        }
    } else if !node_ids_distinct(graph.nodes@) {
        match r {
            Err(e) => exists|j: int|
                first_duplicate_node(graph.nodes@, j) && e.node is Some && #[trigger] graph.nodes@[j].id@
                    == e.node->0@ && (match e.kind {
                    ValidationErrorKind::DuplicateNode(id) => id@ == graph.nodes@[j].id@,
                    _ => false,
                }),
            Ok(_) => false,
        }
    } else {
        &&& r matches Ok(summary) ==> (exists|k: int|
            0 <= k < graph.nodes@.len() && #[trigger] graph.nodes@[k].id@ == graph.root@
                && schema_view(summary.root_schema@) == schema_view(graph.nodes@[k].output_schema@)
                && summary.root_collection == graph.nodes@[k].collection) && (forall|k: int|
            0 <= k < graph.nodes@.len() ==> checked_node(*graph, #[trigger] graph.nodes@[k])) && (forall|k: int|
            0 <= k < graph.nodes@.len() ==> #[trigger] reachable(*graph, k)) && acyclic(*graph)
        &&& r matches Err(e) ==> unreachable_reported(*graph, e) && cycle_reported(*graph, e)
    }
}

/// A graph validates only if every filter predicate and every join
/// condition has scalar type BOOLEAN.
pub proof fn lemma_valid_predicates_boolean(graph: &Graph, summary: ValidationSummary)
    requires
        validation_outcome(graph, Ok(summary)),
    ensures
        forall|k: int|
            0 <= k < graph.nodes@.len() ==> ((#[trigger] graph.nodes@[k]).kind matches NodeKind::Filter { predicate, .. }
                ==> predicate.descriptor.scalar == ScalarType::Boolean),
        forall|k: int|
            0 <= k < graph.nodes@.len() ==> ((#[trigger] graph.nodes@[k]).kind matches NodeKind::Join {
                condition: Some(c),
                ..
            } ==> c.descriptor.scalar == ScalarType::Boolean),
{
    assert forall|k: int| 0 <= k < graph.nodes@.len() implies checked_node(*graph, #[trigger] graph.nodes@[k]) by {}
}

/// A graph validates only if every Slice and every ForgetOrder node reads
/// an ordered input, and no slice bound is negative.
pub proof fn lemma_valid_slices_ordered(graph: &Graph, summary: ValidationSummary)
    requires
        validation_outcome(graph, Ok(summary)),
    ensures
        forall|k: int|
            0 <= k < graph.nodes@.len() ==> ((#[trigger] graph.nodes@[k]).kind matches NodeKind::Slice {
                input,
                offset,
                limit,
            } ==> named_collection(*graph, input@, CollectionKind::Ordered) && offset >= 0 && (limit matches Some(
                l,
            ) ==> l >= 0)),
        forall|k: int|
            0 <= k < graph.nodes@.len() ==> ((#[trigger] graph.nodes@[k]).kind matches NodeKind::ForgetOrder {
                input,
            } ==> named_collection(*graph, input@, CollectionKind::Ordered)),
{
    assert forall|k: int| 0 <= k < graph.nodes@.len() implies checked_node(*graph, #[trigger] graph.nodes@[k]) by {}
}

/// An unreachable-node error names a node that no path from the root
/// reaches.
pub open spec fn unreachable_reported(graph: Graph, e: ValidationError) -> bool {
    match e.kind {
        ValidationErrorKind::UnreachableNode(id) => exists|k: int|
            0 <= k < graph.nodes@.len() && #[trigger] graph.nodes@[k].id@ == id@ && !reachable(graph, k),
        _ => true,
    }
}

/// Node `k` names node `j` as an input or demands it from an expression.
pub open spec fn depends_on(graph: Graph, k: int, j: int) -> bool {
    kind_refers(graph.nodes@[k].kind, graph.nodes@[j].id@)
}

/// A walk along dependencies that starts at a node named as the root.
pub open spec fn root_path(graph: Graph, path: Seq<int>) -> bool {
    &&& path.len() > 0
    &&& forall|i: int| 0 <= i < path.len() ==> 0 <= #[trigger] path[i] < graph.nodes@.len()
    &&& graph.nodes@[path[0]].id@ == graph.root@
    &&& forall|i: int| 0 <= i < path.len() - 1 ==> depends_on(graph, #[trigger] path[i], path[i + 1])
}

/// Node `k` is reached from the root along dependencies.
pub open spec fn reachable(graph: Graph, k: int) -> bool {
    exists|path: Seq<int>| #[trigger] root_path(graph, path) && path.last() == k
}

/// The dependencies have no cycle: some rank of the nodes falls along
/// every dependency.
pub open spec fn acyclic(graph: Graph) -> bool {
    exists|rank: Seq<nat>| #[trigger] ranked(graph, rank)
}

/// The rank of every node exceeds the ranks of the nodes it depends on.
pub open spec fn ranked(graph: Graph, rank: Seq<nat>) -> bool {
    rank.len() == graph.nodes@.len() && forall|k: int, j: int|
        0 <= k < graph.nodes@.len() && 0 <= j < graph.nodes@.len() && #[trigger] depends_on(graph, k, j)
            ==> rank[j] < rank[k]
}

/// A chain of at least two nodes, each depending on the next.
pub open spec fn dependency_chain(graph: Graph, path: Seq<int>) -> bool {
    &&& path.len() >= 2
    &&& forall|i: int| 0 <= i < path.len() ==> 0 <= #[trigger] path[i] < graph.nodes@.len()
    &&& forall|i: int| 0 <= i < path.len() - 1 ==> depends_on(graph, #[trigger] path[i], path[i + 1])
}

/// Node `k` depends, directly or through other nodes, on a node named `id`.
pub open spec fn leads_to(graph: Graph, k: int, id: Seq<char>) -> bool {
    exists|path: Seq<int>|
        #[trigger] dependency_chain(graph, path) && path[0] == k && graph.nodes@[path.last()].id@ == id
}

/// The name of the node that a cycle error names.
pub open spec fn cyclic_id(e: ValidationError) -> Option<Seq<char>> {
    match e.kind {
        ValidationErrorKind::CyclicGraph(id) => Some(id@),
        _ => None,
    }
}

/// A cycle error is reported only for a graph whose dependencies have a
/// cycle.
pub open spec fn cycle_reported(graph: Graph, e: ValidationError) -> bool {
    e.kind is CyclicGraph ==> !acyclic(graph)
}

/// Ranks fall along a dependency chain.
proof fn lemma_rank_falls(graph: Graph, rank: Seq<nat>, path: Seq<int>, i: int)
    requires
        ranked(graph, rank),
        dependency_chain(graph, path),
        1 <= i < path.len(),
    ensures
        rank[path[i]] < rank[path[0]],
    decreases i,
{
    assert(depends_on(graph, path[i - 1], path[i]));
    if i > 1 {
        lemma_rank_falls(graph, rank, path, i - 1);
    }
}

/// A chain that returns to its first node is a cycle.
proof fn lemma_chain_cycle(graph: Graph, path: Seq<int>)
    requires
        dependency_chain(graph, path),
        path[0] == path.last(),
    ensures
        !acyclic(graph),
{
    if acyclic(graph) {
        let rank = choose|rank: Seq<nat>| #[trigger] ranked(graph, rank);
        lemma_rank_falls(graph, rank, path, path.len() - 1);
    }
}

/// A chain followed by one more dependency is a chain.
proof fn lemma_chain_step(graph: Graph, path: Seq<int>, j: int)
    requires
        dependency_chain(graph, path),
        0 <= j < graph.nodes@.len(),
        depends_on(graph, path.last(), j),
    ensures
        dependency_chain(graph, path.push(j)),
        path.push(j)[0] == path[0],
        path.push(j).last() == j,
{
    let next = path.push(j);
    assert forall|i: int| 0 <= i < next.len() implies 0 <= #[trigger] next[i] < graph.nodes@.len() by {
        if i < path.len() {
            assert(next[i] == path[i]);
        }
    }
    assert forall|i: int| 0 <= i < next.len() - 1 implies depends_on(graph, #[trigger] next[i], next[i + 1]) by {
        assert(next[i] == path[i]);
        if i < path.len() - 1 {
            assert(next[i + 1] == path[i + 1]);
        }
    }
}

/// One dependency is a chain.
proof fn lemma_chain_pair(graph: Graph, k: int, j: int)
    requires
        0 <= k < graph.nodes@.len(),
        0 <= j < graph.nodes@.len(),
        depends_on(graph, k, j),
    ensures
        dependency_chain(graph, seq![k, j]),
{
    let path = seq![k, j];
    assert forall|i: int| 0 <= i < path.len() - 1 implies depends_on(graph, #[trigger] path[i], path[i + 1]) by {
        assert(i == 0);
    }
}

/// A root path followed by one more dependency is a root path.
proof fn lemma_path_step(graph: Graph, path: Seq<int>, j: int)
    requires
        root_path(graph, path),
        0 <= j < graph.nodes@.len(),
        depends_on(graph, path.last(), j),
    ensures
        root_path(graph, path.push(j)),
        path.push(j).last() == j,
{
    let next = path.push(j);
    assert forall|i: int| 0 <= i < next.len() implies 0 <= #[trigger] next[i] < graph.nodes@.len() by {
        if i < path.len() {
            assert(next[i] == path[i]);
        }
    }
    assert forall|i: int| 0 <= i < next.len() - 1 implies depends_on(graph, #[trigger] next[i], next[i + 1]) by {
        assert(next[i] == path[i]);
        if i < path.len() - 1 {
            assert(next[i + 1] == path[i + 1]);
        }
    }
}

/// Nodes still unvisited by the depth-first walk.
pub open spec fn unvisited_count(states: Seq<u8>) -> nat
    decreases states.len(),
{
    if states.len() == 0 {
        0
    } else {
        unvisited_count(states.drop_last()) + if states.last() == 0 {
            1nat
        } else {
            0nat
        }
    }
}

proof fn lemma_unvisited_update(states: Seq<u8>, k: int, value: u8)
    requires
        0 <= k < states.len(),
    ensures
        states[k] == 0 && value != 0 ==> unvisited_count(states.update(k, value)) + 1
            == unvisited_count(states),
        states[k] != 0 && value != 0 ==> unvisited_count(states.update(k, value))
            == unvisited_count(states),
    decreases states.len(),
{
    let updated = states.update(k, value);
    if k < states.len() - 1 {
        assert(updated.drop_last() =~= states.drop_last().update(k, value));
        lemma_unvisited_update(states.drop_last(), k, value);
    } else {
        assert(updated.drop_last() =~= states.drop_last());
    }
}

/// Validates one abstract Shape IR graph.
pub fn validate(graph: &Graph) -> (r: Result<ValidationSummary, ValidationError>)
    ensures
        validation_outcome(graph, r),
{
    let mut validator = Validator::new(graph)?;
    validator.validate()
}

struct NodeProperties {
    schema: Vec<Field>,
    collection: CollectionKind,
    value_keys: Vec<Vec<FieldId>>,
    peer_constant: Vec<FieldId>,
}

pub(crate) fn clone_fields(fields: &[Field]) -> (copy: Vec<Field>)
    ensures
        schema_view(copy@) == schema_view(fields@),
{
    let mut copy: Vec<Field> = Vec::new();
    let mut index: usize = 0;
    while index < fields.len()
        invariant
            index <= fields@.len(),
            copy@.len() == index,
            forall|k: int| 0 <= k < index ==> #[trigger] copy@[k]@ == fields@[k]@,
        decreases fields@.len() - index,
    {
        copy.push(fields[index].clone());
        index = index + 1;
    }
    assert(schema_view(copy@) =~= schema_view(fields@));
    copy
}

fn clone_ids(ids: &[FieldId]) -> (copy: Vec<FieldId>)
    ensures
        id_views(copy@) == id_views(ids@),
{
    let mut copy: Vec<FieldId> = Vec::new();
    let mut index: usize = 0;
    while index < ids.len()
        invariant
            index <= ids@.len(),
            copy@.len() == index,
            forall|k: int| 0 <= k < index ==> #[trigger] copy@[k]@ == ids@[k]@,
        decreases ids@.len() - index,
    {
        copy.push(ids[index].clone());
        index = index + 1;
    }
    assert(id_views(copy@) =~= id_views(ids@));
    copy
}

fn clone_keys(keys: &[Vec<FieldId>]) -> (copy: Vec<Vec<FieldId>>)
    ensures
        copy@.len() == keys@.len(),
        forall|k: int| 0 <= k < keys@.len() ==> id_views(#[trigger] copy@[k]@) == id_views(keys@[k]@),
{
    let mut copy: Vec<Vec<FieldId>> = Vec::new();
    let mut index: usize = 0;
    while index < keys.len()
        invariant
            index <= keys@.len(),
            copy@.len() == index,
            forall|k: int| 0 <= k < index ==> id_views(#[trigger] copy@[k]@) == id_views(keys@[k]@),
        decreases keys@.len() - index,
    {
        copy.push(clone_ids(keys[index].as_slice()));
        index = index + 1;
    }
    copy
}

impl NodeProperties {
    fn duplicate(&self) -> (copy: NodeProperties)
        ensures
            schema_view(copy.schema@) == schema_view(self.schema@),
            copy.collection == self.collection,
            covers_some_key(copy.peer_constant@, copy.value_keys@) == covers_some_key(
                self.peer_constant@,
                self.value_keys@,
            ),
    {
        let peer_constant = clone_ids(self.peer_constant.as_slice());
        let value_keys = clone_keys(self.value_keys.as_slice());
        proof {
            lemma_covers_views(peer_constant@, value_keys@, self.peer_constant@, self.value_keys@);
        }
        NodeProperties {
            schema: clone_fields(self.schema.as_slice()),
            collection: self.collection,
            value_keys,
            peer_constant,
        }
    }
}

const UNVISITED: u8 = 0;

const VISITING: u8 = 1;

const COMPLETE: u8 = 2;

struct Validator<'a> {
    graph: &'a Graph,
    states: Vec<u8>,
    properties: Vec<Option<NodeProperties>>,
    defined_fields: Vec<FieldId>,
    /// When each completed node was completed, by a clock that only grows.
    ranks: Ghost<Seq<nat>>,
    clock: Ghost<nat>,
}

/// A field identity occurs in a list of identities.
pub open spec fn contains_id(ids: Seq<FieldId>, id: Seq<char>) -> bool {
    exists|k: int| 0 <= k < ids.len() && #[trigger] ids[k]@ == id
}

/// The fields' identities are distinct and none is among `defined`.
pub open spec fn fresh_fields(defined: Seq<FieldId>, fields: Seq<Field>) -> bool {
    &&& forall|k: int| 0 <= k < fields.len() ==> !contains_id(defined, (#[trigger] fields[k]).id@)
    &&& forall|i: int, j: int| 0 <= i < j < fields.len() ==> #[trigger] fields[i].id@ != #[trigger] fields[j].id@
}

fn find_node(nodes: &[Node], id: &NodeId) -> (r: Option<usize>)
    ensures
        r matches Some(k) ==> k < nodes@.len() && nodes@[k as int].id@ == id@,
        r is None ==> forall|k: int| 0 <= k < nodes@.len() ==> #[trigger] nodes@[k].id@ != id@,
{
    let mut index: usize = 0;
    while index < nodes.len()
        invariant
            index <= nodes@.len(),
            forall|k: int| 0 <= k < index ==> #[trigger] nodes@[k].id@ != id@,
        decreases nodes@.len() - index,
    {
        if nodes[index].id.same(id) {
            return Some(index);
        }
        index = index + 1;
    }
    None
}

/// Whether `p` is the first position of `environment` holding a field
/// named by `id`.
pub open spec fn first_field_at(environment: Seq<Field>, id: Seq<char>, p: int) -> bool {
    &&& 0 <= p < environment.len()
    &&& environment[p].id@ == id
    &&& forall|j: int| 0 <= j < p ==> (#[trigger] environment[j]).id@ != id
}

/// What checking a scalar expression against an environment gives: its
/// derived descriptor where that is the descriptor it carries, or the kind
/// of the first failure met. Operands are checked before the checks of
/// their operator; a CASE checks that it has an arm, then its fallback, then
/// each arm's condition (BOOLEAN) and result (the fallback's scalar) in
/// turn; an IN list checks that it has a candidate, then its value, then
/// each candidate (the value's scalar) in turn. `None` where the check
/// reaches a subquery, whose properties come from the graph.
pub open spec fn expression_check(expression: Expression, environment: Seq<Field>) -> Option<
    Result<TypeDescriptor, ValidationErrorKind>,
>
    decreases expression,
{
    match derived_descriptor(expression, environment) {
        Some(Ok(d)) => Some(
            if d == expression.descriptor {
                Ok(d)
            } else {
                Err(ValidationErrorKind::IncorrectExpressionDescriptor)
            },
        ),
        other => other,
    }
}

/// The descriptor that an expression's operands derive, before it is held
/// against the descriptor the expression carries.
pub open spec fn derived_descriptor(expression: Expression, environment: Seq<Field>) -> Option<
    Result<TypeDescriptor, ValidationErrorKind>,
>
    decreases expression, 0int,
{
    match expression.kind {
        ExpressionKind::Literal(value) => Some(
            Ok(
                match value {
                    LiteralValue::Boolean(_) => TypeDescriptor { scalar: ScalarType::Boolean, nullable: false },
                    LiteralValue::Int64(_) => TypeDescriptor { scalar: ScalarType::Int64, nullable: false },
                    LiteralValue::Text(_) => TypeDescriptor { scalar: ScalarType::Text, nullable: false },
                    LiteralValue::Null => TypeDescriptor { scalar: expression.descriptor.scalar, nullable: true },
                },
            ),
        ),
        ExpressionKind::Field(field) => Some(
            if exists|p: int| #[trigger] first_field_at(environment, field@, p) {
                Ok(environment[choose|p: int| #[trigger] first_field_at(environment, field@, p)].descriptor)
            } else {
                Err(ValidationErrorKind::InvalidFieldReference(field))
            },
        ),
        ExpressionKind::Unary { operation, operand } => match expression_check(*operand, environment) {
            Some(Ok(d)) => {
                let required = match operation {
                    UnaryOperation::Not => ScalarType::Boolean,
                    _ => ScalarType::Int64,
                };
                Some(
                    if d.scalar != required {
                        Err(ValidationErrorKind::InvalidExpression)
                    } else {
                        Ok(TypeDescriptor { scalar: required, nullable: d.nullable })
                    },
                )
            },
            other => other,
        },
        ExpressionKind::Binary { operation, left, right } => match expression_check(*left, environment) {
            Some(Ok(l)) => match expression_check(*right, environment) {
                Some(Ok(r)) => Some(
                    match binary_descriptor(operation, l, r) {
                        Some(d) => Ok(d),
                        None => Err(ValidationErrorKind::InvalidExpression),
                    },
                ),
                other => other,
            },
            other => other,
        },
        ExpressionKind::IsNull { operand, .. } => match expression_check(*operand, environment) {
            Some(Ok(_)) => Some(Ok(TypeDescriptor { scalar: ScalarType::Boolean, nullable: false })),
            other => other,
        },
        ExpressionKind::Case { arms, fallback } => if arms@.len() == 0 {
            Some(Err(ValidationErrorKind::InvalidExpression))
        } else {
            match expression_check(*fallback, environment) {
                Some(Ok(f)) => match arms_check(arms@, environment, f.scalar) {
                    Some(Ok(nullable)) => Some(Ok(TypeDescriptor { scalar: f.scalar, nullable: f.nullable || nullable })),
                    Some(Err(kind)) => Some(Err(kind)),
                    None => None,
                },
                other => other,
            }
        },
        ExpressionKind::Cast { operand, target } => match expression_check(*operand, environment) {
            Some(Ok(d)) => Some(
                if !cast_allowed(d.scalar, target) {
                    Err(ValidationErrorKind::InvalidExpression)
                } else {
                    Ok(TypeDescriptor { scalar: target, nullable: d.nullable })
                },
            ),
            other => other,
        },
        ExpressionKind::InList { value, candidates } => if candidates@.len() == 0 {
            Some(Err(ValidationErrorKind::InvalidExpression))
        } else {
            match expression_check(*value, environment) {
                Some(Ok(v)) => match candidates_check(candidates@, environment, v.scalar) {
                    Some(Ok(nullable)) => Some(Ok(TypeDescriptor { scalar: ScalarType::Boolean, nullable: v.nullable || nullable })),
                    Some(Err(kind)) => Some(Err(kind)),
                    None => None,
                },
                other => other,
            }
        },
        ExpressionKind::Exists { .. } => None,
        ExpressionKind::InQuery { .. } => None,
    }
}

/// The arms of a CASE checked in order against the fallback's scalar:
/// whether any result may be NULL, or the first failure.
pub open spec fn arms_check(arms: Seq<CaseArm>, environment: Seq<Field>, scalar: ScalarType) -> Option<
    Result<bool, ValidationErrorKind>,
>
    decreases arms,
{
    if arms.len() == 0 {
        Some(Ok(false))
    } else {
        match expression_check(arms[0].when, environment) {
            Some(Ok(w)) => if w.scalar != ScalarType::Boolean {
                Some(Err(ValidationErrorKind::InvalidExpression))
            } else {
                match expression_check(arms[0].result, environment) {
                    Some(Ok(r)) => if r.scalar != scalar {
                        Some(Err(ValidationErrorKind::InvalidExpression))
                    } else {
                        match arms_check(arms.drop_first(), environment, scalar) {
                            Some(Ok(rest)) => Some(Ok(r.nullable || rest)),
                            other => other,
                        }
                    },
                    Some(Err(kind)) => Some(Err(kind)),
                    None => None,
                }
            },
            Some(Err(kind)) => Some(Err(kind)),
            None => None,
        }
    }
}

/// The candidates of an IN list checked in order against the value's
/// scalar: whether any candidate may be NULL, or the first failure.
pub open spec fn candidates_check(candidates: Seq<Expression>, environment: Seq<Field>, scalar: ScalarType) -> Option<
    Result<bool, ValidationErrorKind>,
>
    decreases candidates,
{
    if candidates.len() == 0 {
        Some(Ok(false))
    } else {
        match expression_check(candidates[0], environment) {
            Some(Ok(c)) => if c.scalar != scalar {
                Some(Err(ValidationErrorKind::InvalidExpression))
            } else {
                match candidates_check(candidates.drop_first(), environment, scalar) {
                    Some(Ok(rest)) => Some(Ok(c.nullable || rest)),
                    other => other,
                }
            },
            Some(Err(kind)) => Some(Err(kind)),
            None => None,
        }
    }
}

/// Whether a result of checking at `node` is what `outcome` says.
pub open spec fn checked_as(
    r: Result<TypeDescriptor, ValidationError>,
    outcome: Result<TypeDescriptor, ValidationErrorKind>,
    node: Seq<char>,
) -> bool {
    match outcome {
        Ok(d) => r == Ok::<TypeDescriptor, ValidationError>(d),
        Err(kind) => r matches Err(e) && e.kind == kind && (e.node matches Some(id) && id@ == node),
    }
}

fn find_field(environment: &[Field], id: &FieldId) -> (r: Option<usize>)
    ensures
        r matches Some(k) ==> k < environment@.len() && environment@[k as int].id@ == id@,
        r matches Some(k) ==> first_field_at(environment@, id@, k as int),
        r is None ==> forall|k: int|
            0 <= k < environment@.len() ==> #[trigger] environment@[k].id@ != id@,
{
    let mut index: usize = 0;
    while index < environment.len()
        invariant
            index <= environment@.len(),
            forall|k: int| 0 <= k < index ==> #[trigger] environment@[k].id@ != id@,
        decreases environment@.len() - index,
    {
        if environment[index].id.same(id) {
            return Some(index);
        }
        index = index + 1;
    }
    None
}

fn contains_field_id(ids: &[FieldId], id: &FieldId) -> (r: bool)
    ensures
        r == contains_id(ids@, id@),
{
    let mut index: usize = 0;
    while index < ids.len()
        invariant
            index <= ids@.len(),
            forall|k: int| 0 <= k < index ==> #[trigger] ids@[k]@ != id@,
        decreases ids@.len() - index,
    {
        if ids[index].same(id) {
            return true;
        }
        index = index + 1;
    }
    false
}

/// Every identity of `sub` occurs in `ids`.
pub open spec fn id_subset(sub: Seq<FieldId>, ids: Seq<FieldId>) -> bool {
    forall|k: int| 0 <= k < sub.len() ==> contains_id(ids, #[trigger] sub[k]@)
}

fn is_subset(sub: &[FieldId], ids: &[FieldId]) -> (r: bool)
    ensures
        r == id_subset(sub@, ids@),
{
    let mut index: usize = 0;
    while index < sub.len()
        invariant
            index <= sub@.len(),
            forall|k: int| 0 <= k < index ==> contains_id(ids@, #[trigger] sub@[k]@),
        decreases sub@.len() - index,
    {
        if !contains_field_id(ids, &sub[index]) {
            return false;
        }
        index = index + 1;
    }
    true
}

/// Some value key of `keys` is covered by `fields`.
pub open spec fn covers_some_key(fields: Seq<FieldId>, keys: Seq<Vec<FieldId>>) -> bool {
    exists|k: int| 0 <= k < keys.len() && id_subset(#[trigger] keys[k]@, fields)
}

proof fn lemma_contains_views(a: Seq<FieldId>, b: Seq<FieldId>, id: Seq<char>)
    requires
        id_views(a) == id_views(b),
    ensures
        contains_id(a, id) == contains_id(b, id),
{
    assert(id_views(a).len() == a.len() && id_views(b).len() == b.len());
    if contains_id(a, id) {
        let k = choose|k: int| 0 <= k < a.len() && #[trigger] a[k]@ == id;
        assert(id_views(a)[k] == id);
        assert(b[k]@ == id_views(b)[k]);
    }
    if contains_id(b, id) {
        let k = choose|k: int| 0 <= k < b.len() && #[trigger] b[k]@ == id;
        assert(id_views(b)[k] == id);
        assert(a[k]@ == id_views(a)[k]);
    }
}

proof fn lemma_subset_views(a: Seq<FieldId>, b: Seq<FieldId>, f: Seq<FieldId>, g: Seq<FieldId>)
    requires
        id_views(a) == id_views(b),
        id_views(f) == id_views(g),
    ensures
        id_subset(a, f) == id_subset(b, g),
{
    assert(a.len() == id_views(a).len() && b.len() == id_views(b).len());
    if id_subset(a, f) {
        assert forall|k: int| 0 <= k < b.len() implies contains_id(g, #[trigger] b[k]@) by {
            assert(b[k]@ == id_views(b)[k] && a[k]@ == id_views(a)[k]);
            assert(contains_id(f, a[k]@));
            lemma_contains_views(f, g, a[k]@);
        }
    }
    if id_subset(b, g) {
        assert forall|k: int| 0 <= k < a.len() implies contains_id(f, #[trigger] a[k]@) by {
            assert(b[k]@ == id_views(b)[k] && a[k]@ == id_views(a)[k]);
            assert(contains_id(g, b[k]@));
            lemma_contains_views(f, g, b[k]@);
        }
    }
}

proof fn lemma_covers_views(fields: Seq<FieldId>, keys: Seq<Vec<FieldId>>, others: Seq<FieldId>, other_keys: Seq<Vec<FieldId>>)
    requires
        id_views(fields) == id_views(others),
        keys.len() == other_keys.len(),
        forall|k: int| 0 <= k < keys.len() ==> id_views(#[trigger] keys[k]@) == id_views(other_keys[k]@),
    ensures
        covers_some_key(fields, keys) == covers_some_key(others, other_keys),
{
    if covers_some_key(fields, keys) {
        let k = choose|k: int| 0 <= k < keys.len() && id_subset(#[trigger] keys[k]@, fields);
        lemma_subset_views(keys[k]@, other_keys[k]@, fields, others);
        assert(id_subset(other_keys[k]@, others));
    }
    if covers_some_key(others, other_keys) {
        let k = choose|k: int| 0 <= k < other_keys.len() && id_subset(#[trigger] other_keys[k]@, others);
        lemma_subset_views(keys[k]@, other_keys[k]@, fields, others);
        assert(id_subset(keys[k]@, fields));
    }
}

fn covers_value_key(fields: &[FieldId], keys: &[Vec<FieldId>]) -> (r: bool)
    ensures
        r == covers_some_key(fields@, keys@),
{
    let mut index: usize = 0;
    while index < keys.len()
        invariant
            index <= keys@.len(),
            forall|k: int| 0 <= k < index ==> !id_subset(#[trigger] keys@[k]@, fields@),
        decreases keys@.len() - index,
    {
        if is_subset(keys[index].as_slice(), fields) {
            return true;
        }
        index = index + 1;
    }
    false
}

fn field_ids(schema: &[Field]) -> (ids: Vec<FieldId>)
    ensures
        ids@.len() == schema@.len(),
        forall|k: int| 0 <= k < schema@.len() ==> #[trigger] ids@[k]@ == schema@[k].id@,
{
    let mut ids: Vec<FieldId> = Vec::new();
    let mut index: usize = 0;
    while index < schema.len()
        invariant
            index <= schema@.len(),
            ids@.len() == index,
            forall|k: int| 0 <= k < index ==> #[trigger] ids@[k]@ == schema@[k].id@,
        decreases schema@.len() - index,
    {
        ids.push(schema[index].id.clone());
        index = index + 1;
    }
    ids
}

fn complete_key(schema: &[Field]) -> (keys: Vec<Vec<FieldId>>)
    ensures
        keys@.len() == 1,
{
    let mut keys: Vec<Vec<FieldId>> = Vec::new();
    keys.push(field_ids(schema));
    keys
}

/// The key holds exactly the fields of the schema, as a set.
pub open spec fn names_schema(key: Seq<FieldId>, schema: Seq<Field>) -> bool {
    &&& forall|i: int| 0 <= i < key.len() ==> schema_declares(schema, (#[trigger] key[i])@)
    &&& forall|j: int| 0 <= j < schema.len() ==> contains_id(key, (#[trigger] schema[j]).id@)
}

/// Some field of the schema has the identity `id`.
pub open spec fn schema_declares(schema: Seq<Field>, id: Seq<char>) -> bool {
    exists|j: int| 0 <= j < schema.len() && schema[j].id@ == id
}

fn add_complete_key(keys: &mut Vec<Vec<FieldId>>, schema: &[Field])
    ensures
        final(keys)@.len() >= old(keys)@.len(),
        (exists|k: int| 0 <= k < old(keys)@.len() && names_schema((#[trigger] old(keys)@[k])@, schema@))
            ==> final(keys)@ == old(keys)@,
        !(exists|k: int| 0 <= k < old(keys)@.len() && names_schema((#[trigger] old(keys)@[k])@, schema@)) ==> {
            &&& final(keys)@.len() == old(keys)@.len() + 1
            &&& forall|k: int| 0 <= k < old(keys)@.len() ==> #[trigger] final(keys)@[k] == old(keys)@[k]
            &&& final(keys)@.last()@.len() == schema@.len()
            &&& forall|j: int| 0 <= j < schema@.len() ==> #[trigger] final(keys)@.last()@[j]@ == schema@[j].id@
        },
{
    let complete = field_ids(schema);
    let mut index: usize = 0;
    while index < keys.len()
        invariant
            index <= keys@.len(),
            keys@ == old(keys)@,
            forall|k: int| 0 <= k < index ==> !names_schema((#[trigger] keys@[k])@, schema@),
        decreases keys@.len() - index,
    {
        let forward = is_subset(keys[index].as_slice(), complete.as_slice());
        let backward = is_subset(complete.as_slice(), keys[index].as_slice());
        proof {
            let key = keys@[index as int]@;
            if forward && backward {
                assert forall|i: int| 0 <= i < key.len() implies schema_declares(schema@, (#[trigger] key[i])@) by {
                    assert(contains_id(complete@, key[i]@));
                    let j = choose|j: int| 0 <= j < complete@.len() && #[trigger] complete@[j]@ == key[i]@;
                    assert(schema@[j].id@ == key[i]@);
                }
                assert forall|j: int| 0 <= j < schema@.len() implies contains_id(key, (#[trigger] schema@[j]).id@) by {
                    assert(complete@[j]@ == schema@[j].id@);
                    assert(contains_id(key, complete@[j]@));
                }
                assert(names_schema(key, schema@));
            }
            if names_schema(key, schema@) {
                assert forall|k: int| 0 <= k < key.len() implies contains_id(complete@, #[trigger] key[k]@) by {
                    let j = choose|j: int| 0 <= j < schema@.len() && schema@[j].id@ == key[k]@;
                    assert(complete@[j]@ == key[k]@);
                }
                assert forall|k: int| 0 <= k < complete@.len() implies contains_id(key, #[trigger] complete@[k]@) by {
                    assert(complete@[k]@ == schema@[k].id@);
                    assert(contains_id(key, schema@[k].id@));
                }
                assert(forward && backward);
            }
        }
        if forward && backward {
            return;
        }
        index = index + 1;
    }
    keys.push(complete);
}

fn source_properties(schema: Vec<Field>) -> (properties: NodeProperties)
    ensures
        schema_view(properties.schema@) == schema_view(schema@),
        properties.collection == CollectionKind::Bag,
{
    let value_keys = complete_key(schema.as_slice());
    NodeProperties { value_keys, schema, collection: CollectionKind::Bag, peer_constant: Vec::new() }
}

/// The identity of the first field that repeats an earlier field's identity, if any.
fn ensure_unique_schema(schema: &[Field]) -> (r: Result<(), ValidationErrorKind>)
    ensures
        r matches Err(kind) ==> !(kind is CyclicGraph),
        r matches Err(kind) ==> !(kind is UnreachableNode),
        r is Ok <==> forall|i: int, j: int|
            0 <= i < j < schema@.len() ==> #[trigger] schema@[i].id@ != #[trigger] schema@[j].id@,
{
    let mut seen: Vec<FieldId> = Vec::new();
    let mut index: usize = 0;
    while index < schema.len()
        invariant
            index <= schema@.len(),
            seen@.len() == index,
            forall|k: int| 0 <= k < index ==> #[trigger] seen@[k]@ == schema@[k].id@,
            forall|i: int, j: int|
                0 <= i < j < index ==> #[trigger] schema@[i].id@ != #[trigger] schema@[j].id@,
        decreases schema@.len() - index,
    {
        proof {
            assert forall|k: int| 0 <= k < index implies #[trigger] seen@[k]@ == schema@[k].id@ by {}
        }
        if contains_field_id(seen.as_slice(), &schema[index].id) {
            let ghost k = choose|k: int| 0 <= k < seen@.len() && #[trigger] seen@[k]@ == schema@[index as int].id@;
            assert(schema@[k].id@ == schema@[index as int].id@);
            return Err(ValidationErrorKind::DuplicateField(schema[index].id.clone()));
        }
        seen.push(schema[index].id.clone());
        proof {
            assert forall|i: int, j: int|
                0 <= i < j < index + 1 implies #[trigger] schema@[i].id@ != #[trigger] schema@[j].id@ by {
                if j == index {
                    assert(seen@[i]@ == schema@[i].id@);
                }
            }
        }
        index = index + 1;
    }
    Ok(())
}

/// A field's view with its descriptor made nullable.
pub open spec fn nullable_view(field: Field) -> (Seq<char>, Seq<char>, TypeDescriptor) {
    (field.id@, field.name@, TypeDescriptor { scalar: field.descriptor.scalar, nullable: true })
}

fn nullable_fields(fields: Vec<Field>) -> (result: Vec<Field>)
    ensures
        result@.len() == fields@.len(),
        forall|k: int| 0 <= k < fields@.len() ==> #[trigger] result@[k]@ == nullable_view(fields@[k]),
{
    let mut result: Vec<Field> = Vec::new();
    let mut index: usize = 0;
    while index < fields.len()
        invariant
            index <= fields@.len(),
            result@.len() == index,
            forall|k: int| 0 <= k < index ==> #[trigger] result@[k]@ == nullable_view(fields@[k]),
        decreases fields@.len() - index,
    {
        let field = &fields[index];
        let copy = Field {
            id: field.id.clone(),
            name: field.name.clone(),
            descriptor: field.descriptor.with_nullable(true),
        };
        assert(copy@ == nullable_view(fields@[index as int]));
        result.push(copy);
        index = index + 1;
    }
    result
}

fn schemas_equal(left: &[Field], right: &[Field]) -> (r: bool)
    ensures
        r == (schema_view(left@) == schema_view(right@)),
{
    if left.len() != right.len() {
        proof {
            assert(schema_view(left@).len() != schema_view(right@).len());
        }
        return false;
    }
    let mut index: usize = 0;
    while index < left.len()
        invariant
            left@.len() == right@.len(),
            index <= left@.len(),
            forall|k: int| 0 <= k < index ==> #[trigger] left@[k]@ == right@[k]@,
        decreases left@.len() - index,
    {
        let a = &left[index];
        let b = &right[index];
        if !(a.id.same(&b.id) && a.name == b.name && a.descriptor == b.descriptor) {
            proof {
                assert(schema_view(left@)[index as int] != schema_view(right@)[index as int]);
            }
            return false;
        }
        index = index + 1;
    }
    proof {
        assert(schema_view(left@) =~= schema_view(right@));
    }
    true
}

/// The descriptor that a binary operation derives from its operand descriptors.
pub open spec fn binary_descriptor(
    operation: BinaryOperation,
    left: TypeDescriptor,
    right: TypeDescriptor,
) -> Option<TypeDescriptor> {
    let nullable = left.nullable || right.nullable;
    match operation {
        BinaryOperation::Add | BinaryOperation::Subtract | BinaryOperation::Multiply
        | BinaryOperation::Divide | BinaryOperation::Remainder => if left.scalar == ScalarType::Int64
            && right.scalar == ScalarType::Int64 {
            Some(TypeDescriptor { scalar: ScalarType::Int64, nullable })
        } else {
            None
        },
        BinaryOperation::Concatenate => if left.scalar == ScalarType::Text && right.scalar
            == ScalarType::Text {
            Some(TypeDescriptor { scalar: ScalarType::Text, nullable })
        } else {
            None
        },
        BinaryOperation::And | BinaryOperation::Or => if left.scalar == ScalarType::Boolean
            && right.scalar == ScalarType::Boolean {
            Some(TypeDescriptor { scalar: ScalarType::Boolean, nullable })
        } else {
            None
        },
        _ => if left.scalar == right.scalar {
            Some(TypeDescriptor { scalar: ScalarType::Boolean, nullable })
        } else {
            None
        },
    }
}

/// In a graph, arithmetic takes INT64 operands, || takes TEXT, AND and OR
/// take BOOLEAN, and a comparison takes two operands of one scalar type
/// and gives BOOLEAN; the result may be NULL exactly where an operand may.
pub proof fn lemma_binary_descriptors(operation: BinaryOperation, left: TypeDescriptor, right: TypeDescriptor)
    ensures
        binary_descriptor(operation, left, right) matches Some(d) ==> d.nullable == (left.nullable
            || right.nullable),
        (operation == BinaryOperation::Add || operation == BinaryOperation::Subtract || operation
            == BinaryOperation::Multiply || operation == BinaryOperation::Divide || operation
            == BinaryOperation::Remainder) ==> (binary_descriptor(operation, left, right) is Some <==> (left.scalar
            == ScalarType::Int64 && right.scalar == ScalarType::Int64)) && (binary_descriptor(
            operation,
            left,
            right,
        ) matches Some(d) ==> d.scalar == ScalarType::Int64),
        operation == BinaryOperation::Concatenate ==> (binary_descriptor(operation, left, right) is Some <==> (
        left.scalar == ScalarType::Text && right.scalar == ScalarType::Text)) && (binary_descriptor(
            operation,
            left,
            right,
        ) matches Some(d) ==> d.scalar == ScalarType::Text),
        (operation == BinaryOperation::And || operation == BinaryOperation::Or) ==> (binary_descriptor(
            operation,
            left,
            right,
        ) is Some <==> (left.scalar == ScalarType::Boolean && right.scalar == ScalarType::Boolean)) && (
        binary_descriptor(operation, left, right) matches Some(d) ==> d.scalar == ScalarType::Boolean),
        (operation == BinaryOperation::Equal || operation == BinaryOperation::NotEqual || operation
            == BinaryOperation::Less || operation == BinaryOperation::LessOrEqual || operation
            == BinaryOperation::Greater || operation == BinaryOperation::GreaterOrEqual) ==> (binary_descriptor(
            operation,
            left,
            right,
        ) is Some <==> left.scalar == right.scalar) && (binary_descriptor(operation, left, right) matches Some(d)
            ==> d.scalar == ScalarType::Boolean),
{
}

fn validate_binary(operation: BinaryOperation, left: TypeDescriptor, right: TypeDescriptor) -> (r:
    Result<TypeDescriptor, ValidationErrorKind>)
    ensures
        r matches Err(kind) ==> !(kind is UnreachableNode),
        r matches Ok(d) ==> binary_descriptor(operation, left, right) == Some(d),
        r matches Err(kind) ==> binary_descriptor(operation, left, right) is None && kind is InvalidExpression,
{
    let nullable = left.nullable || right.nullable;
    match operation {
        BinaryOperation::Add | BinaryOperation::Subtract | BinaryOperation::Multiply
        | BinaryOperation::Divide | BinaryOperation::Remainder => {
            if left.scalar == ScalarType::Int64 && right.scalar == ScalarType::Int64 {
                Ok(TypeDescriptor::new(ScalarType::Int64, nullable))
            } else {
                Err(ValidationErrorKind::InvalidExpression)
            }
        },
        BinaryOperation::Concatenate => {
            if left.scalar == ScalarType::Text && right.scalar == ScalarType::Text {
                Ok(TypeDescriptor::new(ScalarType::Text, nullable))
            } else {
                Err(ValidationErrorKind::InvalidExpression)
            }
        },
        BinaryOperation::And | BinaryOperation::Or => {
            if left.scalar == ScalarType::Boolean && right.scalar == ScalarType::Boolean {
                Ok(TypeDescriptor::new(ScalarType::Boolean, nullable))
            } else {
                Err(ValidationErrorKind::InvalidExpression)
            }
        },
        _ => {
            if left.scalar == right.scalar {
                Ok(TypeDescriptor::new(ScalarType::Boolean, nullable))
            } else {
                Err(ValidationErrorKind::InvalidExpression)
            }
        },
    }
}

/// Casts between a type and itself, and between text and the other scalar types.
pub open spec fn cast_allowed(source: ScalarType, target: ScalarType) -> bool {
    source == target || (source == ScalarType::Int64 && target == ScalarType::Text) || (source
        == ScalarType::Text && target == ScalarType::Int64) || (source == ScalarType::Boolean
        && target == ScalarType::Text) || (source == ScalarType::Text && target
        == ScalarType::Boolean)
}

/// A graph's casts are between equal scalar types or between TEXT and
/// another type.
pub proof fn lemma_casts_allowed(source: ScalarType, target: ScalarType)
    ensures
        cast_allowed(source, target) <==> (source == target || source == ScalarType::Text || target
            == ScalarType::Text),
{
}

fn cast_permitted(source: ScalarType, target: ScalarType) -> (r: bool)
    ensures
        r == cast_allowed(source, target),
        r <==> (source == target || source == ScalarType::Text || target == ScalarType::Text),
{
    source == target || (source == ScalarType::Int64 && target == ScalarType::Text) || (source
        == ScalarType::Text && target == ScalarType::Int64) || (source == ScalarType::Boolean
        && target == ScalarType::Text) || (source == ScalarType::Text && target
        == ScalarType::Boolean)
}

fn direct_expression_field(expression: &Expression) -> (r: Option<FieldId>)
    ensures
        r matches Some(id) ==> expression.kind matches ExpressionKind::Field(f) && f@ == id@,
        r is None ==> !(expression.kind is Field),
{
    match &expression.kind {
        ExpressionKind::Field(field) => Some(field.clone()),
        _ => None,
    }
}

fn referenced_fields(expression: &Expression) -> (fields: Vec<FieldId>) {
    let mut fields = Vec::new();
    collect_referenced_fields(expression, &mut fields);
    fields
}

/// The expression reads the field `id` of its input row.
pub open spec fn reads_field(expression: Expression, id: Seq<char>) -> bool
    decreases expression,
{
    match expression.kind {
        ExpressionKind::Literal(_) => false,
        ExpressionKind::Field(field) => field@ == id,
        ExpressionKind::Unary { operand, .. } => reads_field(*operand, id),
        ExpressionKind::Binary { left, right, .. } => reads_field(*left, id) || reads_field(*right, id),
        ExpressionKind::IsNull { operand, .. } => reads_field(*operand, id),
        ExpressionKind::Case { arms, fallback } => (exists|i: int|
            0 <= i < arms@.len() && (reads_field(#[trigger] arms@[i].when, id) || reads_field(arms@[i].result, id)))
            || reads_field(*fallback, id),
        ExpressionKind::Cast { operand, .. } => reads_field(*operand, id),
        ExpressionKind::InList { value, candidates } => reads_field(*value, id) || exists|i: int|
            0 <= i < candidates@.len() && reads_field(#[trigger] candidates@[i], id),
        ExpressionKind::Exists { .. } => false,
        ExpressionKind::InQuery { value, .. } => reads_field(*value, id),
    }
}

/// `after` keeps every entry of `before` and may add more.
pub open spec fn extends<T>(before: Seq<T>, after: Seq<T>) -> bool {
    &&& before.len() <= after.len()
    &&& forall|i: int| 0 <= i < before.len() ==> #[trigger] after[i] == before[i]
}

/// One of the entries that `after` adds to `before` is `id`.
pub open spec fn added<T: View<V = Seq<char>>>(before: Seq<T>, after: Seq<T>, id: Seq<char>) -> bool {
    exists|i: int| before.len() <= i < after.len() && (#[trigger] after[i])@ == id
}

pub proof fn lemma_extends_chain<T: View<V = Seq<char>>>(a: Seq<T>, b: Seq<T>, c: Seq<T>)
    requires
        extends(a, b),
        extends(b, c),
    ensures
        extends(a, c),
        forall|id: Seq<char>| added(a, b, id) ==> #[trigger] added(a, c, id),
        forall|id: Seq<char>| added(b, c, id) ==> #[trigger] added(a, c, id),
{
    assert forall|id: Seq<char>| added(a, b, id) implies #[trigger] added(a, c, id) by {
        let i = choose|i: int| a.len() <= i < b.len() && (#[trigger] b[i])@ == id;
        assert(c[i] == b[i]);
    }
    assert forall|id: Seq<char>| added(b, c, id) implies #[trigger] added(a, c, id) by {
        let i = choose|i: int| b.len() <= i < c.len() && (#[trigger] c[i])@ == id;
        assert(c[i]@ == id);
    }
}

fn collect_referenced_fields(expression: &Expression, fields: &mut Vec<FieldId>)
    ensures
        final(fields)@.len() >= old(fields)@.len(),
        forall|k: int| 0 <= k < old(fields)@.len() ==> #[trigger] final(fields)@[k] == old(fields)@[k],
        forall|k: int|
            old(fields)@.len() <= k < final(fields)@.len() ==> reads_field(*expression, (#[trigger] final(fields)@[k])@),
        forall|id: Seq<char>| #[trigger] reads_field(*expression, id) ==> added(old(fields)@, final(fields)@, id),
    decreases *expression,
{
    let ghost start = fields@;
    match &expression.kind {
        ExpressionKind::Field(field) => {
            fields.push(field.clone());
            assert(fields@[start.len() as int]@ == field@);
            assert(added(start, fields@, field@));
        },
        ExpressionKind::Unary { operand, .. } => {
            collect_referenced_fields(operand, fields);
            assert forall|id: Seq<char>| #[trigger] reads_field(*expression, id) implies added(start, fields@, id) by {
                assert(reads_field(**operand, id));
            }
        },
        ExpressionKind::IsNull { operand, .. } => {
            collect_referenced_fields(operand, fields);
            assert forall|id: Seq<char>| #[trigger] reads_field(*expression, id) implies added(start, fields@, id) by {
                assert(reads_field(**operand, id));
            }
        },
        ExpressionKind::Cast { operand, .. } => {
            collect_referenced_fields(operand, fields);
            assert forall|id: Seq<char>| #[trigger] reads_field(*expression, id) implies added(start, fields@, id) by {
                assert(reads_field(**operand, id));
            }
        },
        ExpressionKind::Binary { left, right, .. } => {
            collect_referenced_fields(left, fields);
            let ghost middle = fields@;
            collect_referenced_fields(right, fields);
            proof {
                lemma_extends_chain(start, middle, fields@);
                assert forall|id: Seq<char>| #[trigger] reads_field(*expression, id) implies added(start, fields@, id) by {
                    if reads_field(**left, id) {
                        assert(added(start, middle, id));
                    } else {
                        assert(reads_field(**right, id));
                        assert(added(middle, fields@, id));
                    }
                }
                assert forall|k: int| start.len() <= k < fields@.len() implies reads_field(
                    *expression,
                    (#[trigger] fields@[k])@,
                ) by {
                    if k < middle.len() {
                        assert(fields@[k] == middle[k]);
                    }
                }
            }
        },
        ExpressionKind::Case { arms, fallback } => {
            let mut index: usize = 0;
            while index < arms.len()
                invariant
                    index <= arms@.len(),
                    extends(start, fields@),
                    start == old(fields)@,
                    expression.kind == (ExpressionKind::Case { arms: *arms, fallback: *fallback }),
                    forall|k: int|
                        start.len() <= k < fields@.len() ==> reads_field(*expression, (#[trigger] fields@[k])@),
                    forall|id: Seq<char>|
                        (exists|i: int|
                            0 <= i < index && (reads_field(#[trigger] arms@[i].when, id) || reads_field(
                                arms@[i].result,
                                id,
                            ))) ==> #[trigger] added(start, fields@, id),
                decreases arms@.len() - index,
            {
                assert(decreases_to!(*expression => arms@[index as int].when));
                assert(decreases_to!(*expression => arms@[index as int].result));
                let ghost before = fields@;
                collect_referenced_fields(&arms[index].when, fields);
                let ghost middle = fields@;
                collect_referenced_fields(&arms[index].result, fields);
                proof {
                    lemma_extends_chain(before, middle, fields@);
                    lemma_extends_chain(start, before, fields@);
                    assert forall|k: int| start.len() <= k < fields@.len() implies reads_field(
                        *expression,
                        (#[trigger] fields@[k])@,
                    ) by {
                        if k < before.len() {
                            assert(fields@[k] == before[k]);
                        } else if k < middle.len() {
                            assert(fields@[k] == middle[k]);
                            assert(reads_field(arms@[index as int].when, fields@[k]@));
                        } else {
                            assert(reads_field(arms@[index as int].result, fields@[k]@));
                        }
                    }
                    assert forall|id: Seq<char>|
                        (exists|i: int|
                            0 <= i < index + 1 && (reads_field(#[trigger] arms@[i].when, id) || reads_field(
                                arms@[i].result,
                                id,
                            ))) implies #[trigger] added(start, fields@, id) by {
                        let i = choose|i: int|
                            0 <= i < index + 1 && (reads_field(#[trigger] arms@[i].when, id) || reads_field(
                                arms@[i].result,
                                id,
                            ));
                        if i < index {
                            assert(added(start, before, id));
                        } else if reads_field(arms@[i].when, id) {
                            assert(added(before, middle, id));
                        } else {
                            assert(added(middle, fields@, id));
                        }
                    }
                }
                index = index + 1;
            }
            let ghost before = fields@;
            collect_referenced_fields(fallback, fields);
            proof {
                lemma_extends_chain(start, before, fields@);
                assert forall|k: int| start.len() <= k < fields@.len() implies reads_field(
                    *expression,
                    (#[trigger] fields@[k])@,
                ) by {
                    if k < before.len() {
                        assert(fields@[k] == before[k]);
                    }
                }
                assert forall|id: Seq<char>| #[trigger] reads_field(*expression, id) implies added(start, fields@, id) by {
                    if reads_field(**fallback, id) {
                        assert(added(before, fields@, id));
                    } else {
                        assert(added(start, before, id));
                    }
                }
            }
        },
        ExpressionKind::InList { value, candidates } => {
            collect_referenced_fields(value, fields);
            let ghost first = fields@;
            let mut index: usize = 0;
            while index < candidates.len()
                invariant
                    index <= candidates@.len(),
                    extends(start, first),
                    extends(first, fields@),
                    start == old(fields)@,
                    expression.kind == (ExpressionKind::InList { value: *value, candidates: *candidates }),
                    forall|k: int|
                        start.len() <= k < fields@.len() ==> reads_field(*expression, (#[trigger] fields@[k])@),
                    forall|id: Seq<char>| reads_field(**value, id) ==> #[trigger] added(start, fields@, id),
                    forall|id: Seq<char>|
                        (exists|i: int| 0 <= i < index && reads_field(#[trigger] candidates@[i], id)) ==> #[trigger] added(
                            start,
                            fields@,
                            id,
                        ),
                decreases candidates@.len() - index,
            {
                assert(decreases_to!(*expression => candidates@[index as int]));
                let ghost before = fields@;
                collect_referenced_fields(&candidates[index], fields);
                proof {
                    lemma_extends_chain(first, before, fields@);
                    lemma_extends_chain(start, before, fields@);
                    assert forall|k: int| start.len() <= k < fields@.len() implies reads_field(
                        *expression,
                        (#[trigger] fields@[k])@,
                    ) by {
                        if k < before.len() {
                            assert(fields@[k] == before[k]);
                        } else {
                            assert(reads_field(candidates@[index as int], fields@[k]@));
                        }
                    }
                    assert forall|id: Seq<char>|
                        (exists|i: int| 0 <= i < index + 1 && reads_field(#[trigger] candidates@[i], id)) implies #[trigger] added(
                            start,
                            fields@,
                            id,
                        ) by {
                        let i = choose|i: int| 0 <= i < index + 1 && reads_field(#[trigger] candidates@[i], id);
                        if i < index {
                            assert(added(start, before, id));
                        } else {
                            assert(added(before, fields@, id));
                        }
                    }
                }
                index = index + 1;
            }
            proof {
                assert forall|id: Seq<char>| #[trigger] reads_field(*expression, id) implies added(start, fields@, id) by {
                    if !reads_field(**value, id) {
                        let i = choose|i: int| 0 <= i < candidates@.len() && reads_field(#[trigger] candidates@[i], id);
                        assert(exists|j: int| 0 <= j < index && reads_field(#[trigger] candidates@[j], id));
                    }
                }
            }
        },
        ExpressionKind::InQuery { value, .. } => {
            collect_referenced_fields(value, fields);
            assert forall|id: Seq<char>| #[trigger] reads_field(*expression, id) implies added(start, fields@, id) by {
                assert(reads_field(**value, id));
            }
        },
        ExpressionKind::Literal(_) | ExpressionKind::Exists { .. } => {},
    }
}

/// Some entry of `ids` is `id`.
pub open spec fn listed<T: View<V = Seq<char>>>(ids: Seq<T>, id: Seq<char>) -> bool {
    exists|k: int| 0 <= k < ids.len() && (#[trigger] ids[k])@ == id
}

/// Adds the nodes that an expression of a node of kind `kind` demands.
fn gather_expression(expression: &Expression, dependencies: &mut Vec<NodeId>, Ghost(kind): Ghost<NodeKind>)
    requires
        forall|id: Seq<char>| #[trigger] expression_refers(*expression, id) ==> kind_refers(kind, id),
        forall|k: int| 0 <= k < old(dependencies)@.len() ==> kind_refers(kind, (#[trigger] old(dependencies)@[k])@),
    ensures
        forall|k: int| 0 <= k < final(dependencies)@.len() ==> kind_refers(kind, (#[trigger] final(dependencies)@[k])@),
        forall|id: Seq<char>| listed(old(dependencies)@, id) ==> #[trigger] listed(final(dependencies)@, id),
        forall|id: Seq<char>| #[trigger] expression_refers(*expression, id) ==> listed(final(dependencies)@, id),
{
    let ghost before = dependencies@;
    expression_dependencies(expression, dependencies);
    proof {
        assert forall|k: int| 0 <= k < dependencies@.len() implies kind_refers(kind, (#[trigger] dependencies@[k])@) by {
            if k < before.len() {
                assert(dependencies@[k] == before[k]);
            } else {
                assert(expression_refers(*expression, dependencies@[k]@));
            }
        }
        assert forall|id: Seq<char>| listed(before, id) implies #[trigger] listed(dependencies@, id) by {
            let k = choose|k: int| 0 <= k < before.len() && (#[trigger] before[k])@ == id;
            assert(dependencies@[k] == before[k]);
        }
        assert forall|id: Seq<char>| #[trigger] expression_refers(*expression, id) implies listed(dependencies@, id) by {
            assert(added(before, dependencies@, id));
            let k = choose|k: int| before.len() <= k < dependencies@.len() && (#[trigger] dependencies@[k])@ == id;
            assert(dependencies@[k]@ == id);
        }
    }
}

/// Adds an input of a node of kind `kind`.
fn gather_input(input: &NodeId, dependencies: &mut Vec<NodeId>, Ghost(kind): Ghost<NodeKind>)
    requires
        kind_refers(kind, input@),
        forall|k: int| 0 <= k < old(dependencies)@.len() ==> kind_refers(kind, (#[trigger] old(dependencies)@[k])@),
    ensures
        forall|k: int| 0 <= k < final(dependencies)@.len() ==> kind_refers(kind, (#[trigger] final(dependencies)@[k])@),
        forall|id: Seq<char>| listed(old(dependencies)@, id) ==> #[trigger] listed(final(dependencies)@, id),
        listed(final(dependencies)@, input@),
{
    let ghost before = dependencies@;
    dependencies.push(input.clone());
    proof {
        assert(dependencies@[before.len() as int]@ == input@);
        assert forall|k: int| 0 <= k < dependencies@.len() implies kind_refers(kind, (#[trigger] dependencies@[k])@) by {
            if k < before.len() {
                assert(dependencies@[k] == before[k]);
            }
        }
        assert forall|id: Seq<char>| listed(before, id) implies #[trigger] listed(dependencies@, id) by {
            let k = choose|k: int| 0 <= k < before.len() && (#[trigger] before[k])@ == id;
            assert(dependencies@[k] == before[k]);
        }
    }
}

fn node_dependencies(node: &Node) -> (dependencies: Vec<NodeId>)
    ensures
        forall|k: int| 0 <= k < dependencies@.len() ==> kind_refers(node.kind, (#[trigger] dependencies@[k])@),
        forall|id: Seq<char>| #[trigger] kind_refers(node.kind, id) ==> listed(dependencies@, id),
{
    let ghost kind = node.kind;
    let mut dependencies: Vec<NodeId> = Vec::new();
    match &node.kind {
        NodeKind::Input { .. } | NodeKind::Empty => {},
        NodeKind::Project { input, entries } => {
            gather_input(input, &mut dependencies, Ghost(kind));
            let mut index: usize = 0;
            while index < entries.len()
                invariant
                    index <= entries@.len(),
                    kind == (NodeKind::Project { input: *input, entries: *entries }),
                    forall|k: int| 0 <= k < dependencies@.len() ==> kind_refers(kind, (#[trigger] dependencies@[k])@),
                    listed(dependencies@, input@),
                    forall|id: Seq<char>|
                        (exists|i: int| 0 <= i < index && entry_refers(#[trigger] entries@[i], id)) ==> listed(
                            dependencies@,
                            id,
                        ),
                decreases entries@.len() - index,
            {
                let ghost before = dependencies@;
                if let ProjectEntry::Compute { expression, .. } = &entries[index] {
                    assert forall|id: Seq<char>| #[trigger] expression_refers(*expression, id) implies kind_refers(kind, id) by {
                        assert(entry_refers(entries@[index as int], id));
                    }
                    gather_expression(expression, &mut dependencies, Ghost(kind));
                }
                assert forall|id: Seq<char>|
                    (exists|i: int| 0 <= i < index + 1 && entry_refers(#[trigger] entries@[i], id)) implies listed(
                        dependencies@,
                        id,
                    ) by {
                    let i = choose|i: int| 0 <= i < index + 1 && entry_refers(#[trigger] entries@[i], id);
                    if i < index {
                        assert(listed(before, id));
                    }
                }
                index = index + 1;
            }
        },
        NodeKind::Filter { input, predicate } => {
            gather_input(input, &mut dependencies, Ghost(kind));
            gather_expression(predicate, &mut dependencies, Ghost(kind));
        },
        NodeKind::Join { left, right, condition, .. } => {
            gather_input(left, &mut dependencies, Ghost(kind));
            gather_input(right, &mut dependencies, Ghost(kind));
            if let Some(condition) = condition {
                gather_expression(condition, &mut dependencies, Ghost(kind));
            }
        },
        NodeKind::Aggregate { input, grouping_keys, aggregates } => {
            gather_input(input, &mut dependencies, Ghost(kind));
            let mut index: usize = 0;
            while index < grouping_keys.len()
                invariant
                    index <= grouping_keys@.len(),
                    kind == (NodeKind::Aggregate { input: *input, grouping_keys: *grouping_keys, aggregates: *aggregates }),
                    forall|k: int| 0 <= k < dependencies@.len() ==> kind_refers(kind, (#[trigger] dependencies@[k])@),
                    listed(dependencies@, input@),
                    forall|id: Seq<char>|
                        (exists|i: int| 0 <= i < index && expression_refers(#[trigger] grouping_keys@[i].expression, id))
                            ==> listed(dependencies@, id),
                decreases grouping_keys@.len() - index,
            {
                let ghost before = dependencies@;
                gather_expression(&grouping_keys[index].expression, &mut dependencies, Ghost(kind));
                assert forall|id: Seq<char>|
                    (exists|i: int| 0 <= i < index + 1 && expression_refers(#[trigger] grouping_keys@[i].expression, id))
                        implies listed(dependencies@, id) by {
                    let i = choose|i: int| 0 <= i < index + 1 && expression_refers(#[trigger] grouping_keys@[i].expression, id);
                    if i < index {
                        assert(listed(before, id));
                    }
                }
                index = index + 1;
            }
            let ghost keyed = dependencies@;
            let mut index: usize = 0;
            while index < aggregates.len()
                invariant
                    index <= aggregates@.len(),
                    kind == (NodeKind::Aggregate { input: *input, grouping_keys: *grouping_keys, aggregates: *aggregates }),
                    forall|k: int| 0 <= k < dependencies@.len() ==> kind_refers(kind, (#[trigger] dependencies@[k])@),
                    forall|id: Seq<char>| listed(keyed, id) ==> #[trigger] listed(dependencies@, id),
                    forall|id: Seq<char>|
                        (exists|i: int|
                            0 <= i < index && (#[trigger] aggregates@[i]).argument is Some && expression_refers(
                                aggregates@[i].argument->0,
                                id,
                            )) ==> listed(dependencies@, id),
                decreases aggregates@.len() - index,
            {
                let ghost before = dependencies@;
                if let Some(argument) = &aggregates[index].argument {
                    gather_expression(argument, &mut dependencies, Ghost(kind));
                }
                assert forall|id: Seq<char>|
                    (exists|i: int|
                        0 <= i < index + 1 && (#[trigger] aggregates@[i]).argument is Some && expression_refers(
                            aggregates@[i].argument->0,
                            id,
                        )) implies listed(dependencies@, id) by {
                    let i = choose|i: int|
                        0 <= i < index + 1 && (#[trigger] aggregates@[i]).argument is Some && expression_refers(
                            aggregates@[i].argument->0,
                            id,
                        );
                    if i < index {
                        assert(listed(before, id));
                    }
                }
                index = index + 1;
            }
        },
        NodeKind::Window { input, definitions } => {
            gather_input(input, &mut dependencies, Ghost(kind));
            let mut index: usize = 0;
            while index < definitions.len()
                invariant
                    index <= definitions@.len(),
                    kind == (NodeKind::Window { input: *input, definitions: *definitions }),
                    forall|k: int| 0 <= k < dependencies@.len() ==> kind_refers(kind, (#[trigger] dependencies@[k])@),
                    listed(dependencies@, input@),
                    forall|id: Seq<char>|
                        (exists|i: int| 0 <= i < index && definition_refers(#[trigger] definitions@[i], id))
                            ==> listed(dependencies@, id),
                decreases definitions@.len() - index,
            {
                let ghost before = dependencies@;
                let ghost definition = definitions@[index as int];
                match &definitions[index] {
                    WindowDefinition::PartitionedAggregate { argument, partition_by, .. } => {
                        if let Some(argument) = argument {
                            assert forall|id: Seq<char>| #[trigger] expression_refers(*argument, id) implies kind_refers(kind, id) by {
                                assert(definition_refers(definitions@[index as int], id));
                            }
                            gather_expression(argument, &mut dependencies, Ghost(kind));
                        }
                        let ghost argued = dependencies@;
                        let mut inner: usize = 0;
                        while inner < partition_by.len()
                            invariant
                                inner <= partition_by@.len(),
                                forall|k: int| 0 <= k < dependencies@.len() ==> kind_refers(kind, (#[trigger] dependencies@[k])@),
                                forall|id: Seq<char>| listed(argued, id) ==> #[trigger] listed(dependencies@, id),
                                forall|id: Seq<char>|
                                    (exists|i: int| 0 <= i < inner && expression_refers(#[trigger] partition_by@[i], id))
                                        ==> listed(dependencies@, id),
                            decreases partition_by@.len() - inner,
                        {
                            let ghost prior = dependencies@;
                            assert forall|id: Seq<char>| #[trigger] expression_refers(partition_by@[inner as int], id) implies kind_refers(kind, id) by {
                                assert(definition_refers(definitions@[index as int], id));
                            }
                            gather_expression(&partition_by[inner], &mut dependencies, Ghost(kind));
                            assert forall|id: Seq<char>|
                                (exists|i: int| 0 <= i < inner + 1 && expression_refers(#[trigger] partition_by@[i], id))
                                    implies listed(dependencies@, id) by {
                                let i = choose|i: int| 0 <= i < inner + 1 && expression_refers(#[trigger] partition_by@[i], id);
                                if i < inner {
                                    assert(listed(prior, id));
                                }
                            }
                            inner = inner + 1;
                        }
                    },
                    WindowDefinition::Ranking { partition_by, order_by, .. } => {
                        let mut inner: usize = 0;
                        while inner < partition_by.len()
                            invariant
                                inner <= partition_by@.len(),
                                forall|k: int| 0 <= k < dependencies@.len() ==> kind_refers(kind, (#[trigger] dependencies@[k])@),
                                forall|id: Seq<char>| listed(before, id) ==> #[trigger] listed(dependencies@, id),
                                forall|id: Seq<char>|
                                    (exists|i: int| 0 <= i < inner && expression_refers(#[trigger] partition_by@[i], id))
                                        ==> listed(dependencies@, id),
                            decreases partition_by@.len() - inner,
                        {
                            let ghost prior = dependencies@;
                            assert forall|id: Seq<char>| #[trigger] expression_refers(partition_by@[inner as int], id) implies kind_refers(kind, id) by {
                                assert(definition_refers(definitions@[index as int], id));
                            }
                            gather_expression(&partition_by[inner], &mut dependencies, Ghost(kind));
                            assert forall|id: Seq<char>|
                                (exists|i: int| 0 <= i < inner + 1 && expression_refers(#[trigger] partition_by@[i], id))
                                    implies listed(dependencies@, id) by {
                                let i = choose|i: int| 0 <= i < inner + 1 && expression_refers(#[trigger] partition_by@[i], id);
                                if i < inner {
                                    assert(listed(prior, id));
                                }
                            }
                            inner = inner + 1;
                        }
                        let ghost partitioned = dependencies@;
                        let mut inner: usize = 0;
                        while inner < order_by.len()
                            invariant
                                inner <= order_by@.len(),
                                forall|k: int| 0 <= k < dependencies@.len() ==> kind_refers(kind, (#[trigger] dependencies@[k])@),
                                forall|id: Seq<char>| listed(partitioned, id) ==> #[trigger] listed(dependencies@, id),
                                forall|id: Seq<char>|
                                    (exists|i: int| 0 <= i < inner && expression_refers(#[trigger] order_by@[i].expression, id))
                                        ==> listed(dependencies@, id),
                            decreases order_by@.len() - inner,
                        {
                            let ghost prior = dependencies@;
                            assert forall|id: Seq<char>| #[trigger] expression_refers(order_by@[inner as int].expression, id) implies kind_refers(kind, id) by {
                                assert(definition_refers(definitions@[index as int], id));
                            }
                            gather_expression(&order_by[inner].expression, &mut dependencies, Ghost(kind));
                            assert forall|id: Seq<char>|
                                (exists|i: int| 0 <= i < inner + 1 && expression_refers(#[trigger] order_by@[i].expression, id))
                                    implies listed(dependencies@, id) by {
                                let i = choose|i: int| 0 <= i < inner + 1 && expression_refers(#[trigger] order_by@[i].expression, id);
                                if i < inner {
                                    assert(listed(prior, id));
                                }
                            }
                            inner = inner + 1;
                        }
                    },
                }
                assert forall|id: Seq<char>|
                    (exists|i: int| 0 <= i < index + 1 && definition_refers(#[trigger] definitions@[i], id)) implies listed(
                        dependencies@,
                        id,
                    ) by {
                    let i = choose|i: int| 0 <= i < index + 1 && definition_refers(#[trigger] definitions@[i], id);
                    if i < index {
                        assert(listed(before, id));
                    }
                }
                index = index + 1;
            }
        },
        NodeKind::Distinct { input } | NodeKind::Slice { input, .. } | NodeKind::ForgetOrder {
            input,
        } => {
            gather_input(input, &mut dependencies, Ghost(kind));
        },
        NodeKind::SetOperation { left, right, .. } => {
            gather_input(left, &mut dependencies, Ghost(kind));
            gather_input(right, &mut dependencies, Ghost(kind));
        },
        NodeKind::Order { input, items } => {
            gather_input(input, &mut dependencies, Ghost(kind));
            let mut index: usize = 0;
            while index < items.len()
                invariant
                    index <= items@.len(),
                    kind == (NodeKind::Order { input: *input, items: *items }),
                    forall|k: int| 0 <= k < dependencies@.len() ==> kind_refers(kind, (#[trigger] dependencies@[k])@),
                    listed(dependencies@, input@),
                    forall|id: Seq<char>|
                        (exists|i: int| 0 <= i < index && expression_refers(#[trigger] items@[i].expression, id))
                            ==> listed(dependencies@, id),
                decreases items@.len() - index,
            {
                let ghost before = dependencies@;
                gather_expression(&items[index].expression, &mut dependencies, Ghost(kind));
                assert forall|id: Seq<char>|
                    (exists|i: int| 0 <= i < index + 1 && expression_refers(#[trigger] items@[i].expression, id))
                        implies listed(dependencies@, id) by {
                    let i = choose|i: int| 0 <= i < index + 1 && expression_refers(#[trigger] items@[i].expression, id);
                    if i < index {
                        assert(listed(before, id));
                    }
                }
                index = index + 1;
            }
        },
    }
    dependencies
}

fn expression_dependencies(expression: &Expression, dependencies: &mut Vec<NodeId>)
    ensures
        final(dependencies)@.len() >= old(dependencies)@.len(),
        forall|k: int| 0 <= k < old(dependencies)@.len() ==> #[trigger] final(dependencies)@[k] == old(dependencies)@[k],
        forall|k: int|
            old(dependencies)@.len() <= k < final(dependencies)@.len() ==> expression_refers(*expression, (#[trigger] final(dependencies)@[k])@),
        forall|id: Seq<char>| #[trigger] expression_refers(*expression, id) ==> added(old(dependencies)@, final(dependencies)@, id),
    decreases *expression,
{
    let ghost start = dependencies@;
    match &expression.kind {
        ExpressionKind::Exists { query } => {
            dependencies.push(query.clone());
            assert(dependencies@[start.len() as int]@ == query@);
            assert(added(start, dependencies@, query@));
        },
        ExpressionKind::Unary { operand, .. } => {
            expression_dependencies(operand, dependencies);
            assert forall|id: Seq<char>| #[trigger] expression_refers(*expression, id) implies added(start, dependencies@, id) by {
                assert(expression_refers(**operand, id));
            }
        },
        ExpressionKind::IsNull { operand, .. } => {
            expression_dependencies(operand, dependencies);
            assert forall|id: Seq<char>| #[trigger] expression_refers(*expression, id) implies added(start, dependencies@, id) by {
                assert(expression_refers(**operand, id));
            }
        },
        ExpressionKind::Cast { operand, .. } => {
            expression_dependencies(operand, dependencies);
            assert forall|id: Seq<char>| #[trigger] expression_refers(*expression, id) implies added(start, dependencies@, id) by {
                assert(expression_refers(**operand, id));
            }
        },
        ExpressionKind::Binary { left, right, .. } => {
            expression_dependencies(left, dependencies);
            let ghost middle = dependencies@;
            expression_dependencies(right, dependencies);
            proof {
                lemma_extends_chain(start, middle, dependencies@);
                assert forall|id: Seq<char>| #[trigger] expression_refers(*expression, id) implies added(start, dependencies@, id) by {
                    if expression_refers(**left, id) {
                        assert(added(start, middle, id));
                    } else {
                        assert(expression_refers(**right, id));
                        assert(added(middle, dependencies@, id));
                    }
                }
                assert forall|k: int| start.len() <= k < dependencies@.len() implies expression_refers(
                    *expression,
                    (#[trigger] dependencies@[k])@,
                ) by {
                    if k < middle.len() {
                        assert(dependencies@[k] == middle[k]);
                    }
                }
            }
        },
        ExpressionKind::Case { arms, fallback } => {
            let mut index: usize = 0;
            while index < arms.len()
                invariant
                    index <= arms@.len(),
                    extends(start, dependencies@),
                    start == old(dependencies)@,
                    expression.kind == (ExpressionKind::Case { arms: *arms, fallback: *fallback }),
                    forall|k: int|
                        start.len() <= k < dependencies@.len() ==> expression_refers(*expression, (#[trigger] dependencies@[k])@),
                    forall|id: Seq<char>|
                        (exists|i: int|
                            0 <= i < index && (expression_refers(#[trigger] arms@[i].when, id) || expression_refers(
                                arms@[i].result,
                                id,
                            ))) ==> #[trigger] added(start, dependencies@, id),
                decreases arms@.len() - index,
            {
                assert(decreases_to!(*expression => arms@[index as int].when));
                assert(decreases_to!(*expression => arms@[index as int].result));
                let ghost before = dependencies@;
                expression_dependencies(&arms[index].when, dependencies);
                let ghost middle = dependencies@;
                expression_dependencies(&arms[index].result, dependencies);
                proof {
                    lemma_extends_chain(before, middle, dependencies@);
                    lemma_extends_chain(start, before, dependencies@);
                    assert forall|k: int| start.len() <= k < dependencies@.len() implies expression_refers(
                        *expression,
                        (#[trigger] dependencies@[k])@,
                    ) by {
                        if k < before.len() {
                            assert(dependencies@[k] == before[k]);
                        } else if k < middle.len() {
                            assert(dependencies@[k] == middle[k]);
                            assert(expression_refers(arms@[index as int].when, dependencies@[k]@));
                        } else {
                            assert(expression_refers(arms@[index as int].result, dependencies@[k]@));
                        }
                    }
                    assert forall|id: Seq<char>|
                        (exists|i: int|
                            0 <= i < index + 1 && (expression_refers(#[trigger] arms@[i].when, id) || expression_refers(
                                arms@[i].result,
                                id,
                            ))) implies #[trigger] added(start, dependencies@, id) by {
                        let i = choose|i: int|
                            0 <= i < index + 1 && (expression_refers(#[trigger] arms@[i].when, id) || expression_refers(
                                arms@[i].result,
                                id,
                            ));
                        if i < index {
                            assert(added(start, before, id));
                        } else if expression_refers(arms@[i].when, id) {
                            assert(added(before, middle, id));
                        } else {
                            assert(added(middle, dependencies@, id));
                        }
                    }
                }
                index = index + 1;
            }
            let ghost before = dependencies@;
            expression_dependencies(fallback, dependencies);
            proof {
                lemma_extends_chain(start, before, dependencies@);
                assert forall|k: int| start.len() <= k < dependencies@.len() implies expression_refers(
                    *expression,
                    (#[trigger] dependencies@[k])@,
                ) by {
                    if k < before.len() {
                        assert(dependencies@[k] == before[k]);
                    }
                }
                assert forall|id: Seq<char>| #[trigger] expression_refers(*expression, id) implies added(start, dependencies@, id) by {
                    if expression_refers(**fallback, id) {
                        assert(added(before, dependencies@, id));
                    } else {
                        assert(added(start, before, id));
                    }
                }
            }
        },
        ExpressionKind::InList { value, candidates } => {
            expression_dependencies(value, dependencies);
            let ghost first = dependencies@;
            let mut index: usize = 0;
            while index < candidates.len()
                invariant
                    index <= candidates@.len(),
                    extends(start, first),
                    extends(first, dependencies@),
                    start == old(dependencies)@,
                    expression.kind == (ExpressionKind::InList { value: *value, candidates: *candidates }),
                    forall|k: int|
                        start.len() <= k < dependencies@.len() ==> expression_refers(*expression, (#[trigger] dependencies@[k])@),
                    forall|id: Seq<char>| expression_refers(**value, id) ==> #[trigger] added(start, dependencies@, id),
                    forall|id: Seq<char>|
                        (exists|i: int| 0 <= i < index && expression_refers(#[trigger] candidates@[i], id)) ==> #[trigger] added(
                            start,
                            dependencies@,
                            id,
                        ),
                decreases candidates@.len() - index,
            {
                assert(decreases_to!(*expression => candidates@[index as int]));
                let ghost before = dependencies@;
                expression_dependencies(&candidates[index], dependencies);
                proof {
                    lemma_extends_chain(first, before, dependencies@);
                    lemma_extends_chain(start, before, dependencies@);
                    assert forall|k: int| start.len() <= k < dependencies@.len() implies expression_refers(
                        *expression,
                        (#[trigger] dependencies@[k])@,
                    ) by {
                        if k < before.len() {
                            assert(dependencies@[k] == before[k]);
                        } else {
                            assert(expression_refers(candidates@[index as int], dependencies@[k]@));
                        }
                    }
                    assert forall|id: Seq<char>|
                        (exists|i: int| 0 <= i < index + 1 && expression_refers(#[trigger] candidates@[i], id)) implies #[trigger] added(
                            start,
                            dependencies@,
                            id,
                        ) by {
                        let i = choose|i: int| 0 <= i < index + 1 && expression_refers(#[trigger] candidates@[i], id);
                        if i < index {
                            assert(added(start, before, id));
                        } else {
                            assert(added(before, dependencies@, id));
                        }
                    }
                }
                index = index + 1;
            }
            proof {
                assert forall|id: Seq<char>| #[trigger] expression_refers(*expression, id) implies added(start, dependencies@, id) by {
                    if !expression_refers(**value, id) {
                        let i = choose|i: int| 0 <= i < candidates@.len() && expression_refers(#[trigger] candidates@[i], id);
                        assert(exists|j: int| 0 <= j < index && expression_refers(#[trigger] candidates@[j], id));
                    }
                }
            }
        },
        ExpressionKind::InQuery { value, query, .. } => {
            expression_dependencies(value, dependencies);
            let ghost middle = dependencies@;
            dependencies.push(query.clone());
            proof {
                assert(dependencies@[middle.len() as int]@ == query@);
                assert(extends(middle, dependencies@));
                lemma_extends_chain(start, middle, dependencies@);
                assert forall|k: int| start.len() <= k < dependencies@.len() implies expression_refers(
                    *expression,
                    (#[trigger] dependencies@[k])@,
                ) by {
                    if k < middle.len() {
                        assert(dependencies@[k] == middle[k]);
                    }
                }
                assert forall|id: Seq<char>| #[trigger] expression_refers(*expression, id) implies added(start, dependencies@, id) by {
                    if id == query@ {
                        assert(added(middle, dependencies@, id));
                    } else {
                        assert(expression_refers(**value, id));
                        assert(added(start, middle, id));
                    }
                }
            }
        },
        ExpressionKind::Literal(_) | ExpressionKind::Field(_) => {},
    }
}

/// The descriptor of an aggregate over an argument with descriptor
/// `argument`, where the function takes such an argument.
pub open spec fn aggregate_result(function: AggregateFunction, argument: TypeDescriptor) -> Option<TypeDescriptor> {
    match function {
        AggregateFunction::CountAll => None,
        AggregateFunction::Count => Some(TypeDescriptor { scalar: ScalarType::Int64, nullable: false }),
        AggregateFunction::Sum => if argument.scalar == ScalarType::Int64 {
            Some(TypeDescriptor { scalar: ScalarType::Int64, nullable: true })
        } else {
            None
        },
        AggregateFunction::Min | AggregateFunction::Max => Some(
            TypeDescriptor { scalar: argument.scalar, nullable: true },
        ),
        AggregateFunction::BoolAnd | AggregateFunction::BoolOr => if argument.scalar == ScalarType::Boolean {
            Some(TypeDescriptor { scalar: ScalarType::Boolean, nullable: true })
        } else {
            None
        },
    }
}

/// How a literal's written descriptor is checked: a boolean, integer or
/// text literal is accepted exactly where its descriptor is the non-nullable
/// scalar of its value, and a null literal exactly where its descriptor is
/// nullable; any other descriptor is refused as incorrect.
pub open spec fn literal_checked(
    r: Result<TypeDescriptor, ValidationError>,
    value: LiteralValue,
    descriptor: TypeDescriptor,
) -> bool {
    let accepted = match value {
        LiteralValue::Boolean(_) => descriptor == TypeDescriptor { scalar: ScalarType::Boolean, nullable: false },
        LiteralValue::Int64(_) => descriptor == TypeDescriptor { scalar: ScalarType::Int64, nullable: false },
        LiteralValue::Text(_) => descriptor == TypeDescriptor { scalar: ScalarType::Text, nullable: false },
        LiteralValue::Null => descriptor.nullable,
    };
    &&& r is Ok <==> accepted
    &&& r matches Err(e) ==> e.kind is IncorrectExpressionDescriptor
}

/// How a field reference is checked in an environment: one that names no
/// field of the environment is refused as an invalid reference to it; one
/// that is accepted names a field of the environment with the reference's
/// descriptor, and one is accepted wherever every field it names has that
/// descriptor.
pub open spec fn field_checked(
    r: Result<TypeDescriptor, ValidationError>,
    environment: Seq<Field>,
    field: Seq<char>,
    descriptor: TypeDescriptor,
) -> bool {
    &&& (forall|k: int| 0 <= k < environment.len() ==> #[trigger] environment[k].id@ != field) ==> (r matches Err(
        e,
    ) && e.kind matches ValidationErrorKind::InvalidFieldReference(id) && id@ == field)
    &&& r is Ok ==> exists|k: int|
        0 <= k < environment.len() && #[trigger] environment[k].id@ == field && environment[k].descriptor
            == descriptor
    &&& ((exists|k: int| 0 <= k < environment.len() && #[trigger] environment[k].id@ == field) && forall|k: int|
        0 <= k < environment.len() && #[trigger] environment[k].id@ == field ==> environment[k].descriptor
            == descriptor) ==> r is Ok
}

fn error(node: &NodeId, kind: ValidationErrorKind) -> (e: ValidationError)
    ensures
        e.kind == kind,
        e.node matches Some(id) && id@ == node@,
{
    ValidationError { kind, node: Some(node.clone()) }
}

impl<'a> Validator<'a> {
    spec fn wf(&self) -> bool {
        &&& self.states@.len() == self.graph.nodes@.len()
        &&& forall|k: int| 0 <= k < self.states@.len() ==> #[trigger] self.states@[k] <= COMPLETE
        &&& self.properties@.len() == self.graph.nodes@.len()
        &&& node_ids_distinct(self.graph.nodes@)
        &&& forall|k: int|
            0 <= k < self.states@.len() ==> (#[trigger] self.states@[k] == COMPLETE
                ==> self.properties@[k] is Some)
        &&& forall|k: int|
            0 <= k < self.properties@.len() ==> (#[trigger] self.properties@[k] matches Some(p)
                ==> schema_view(p.schema@) == schema_view(self.graph.nodes@[k].output_schema@)
                && p.collection == self.graph.nodes@[k].collection)
        &&& forall|k: int|
            0 <= k < self.states@.len() ==> (#[trigger] self.states@[k] == COMPLETE ==> checked_node(
                *self.graph,
                self.graph.nodes@[k],
            ))
    }

    /// `next` continues the walk of `self`: same graph, and no visited node becomes unvisited.
    spec fn continued_by(&self, next: &Validator<'a>) -> bool {
        &&& next.wf()
        &&& next.graph == self.graph
        &&& unvisited_count(next.states@) <= unvisited_count(self.states@)
        &&& forall|k: int|
            0 <= k < self.states@.len() ==> #[trigger] self.states@[k] != UNVISITED ==> next.states@[k]
                != UNVISITED
    }

    /// A node named `id` is not completed.
    spec fn unfinished(&self, id: Seq<char>) -> bool {
        exists|k: int|
            0 <= k < self.states@.len() && #[trigger] self.graph.nodes@[k].id@ == id && self.states@[k] != COMPLETE
    }

    /// Along a root path whose first node is completed, every node is
    /// completed: completed nodes depend only on completed nodes.
    proof fn lemma_completed_along(&self, path: Seq<int>, i: int)
        requires
            self.wf(),
            self.walk_ok(),
            root_path(*self.graph, path),
            self.states@[path[0]] == COMPLETE,
            0 <= i < path.len(),
        ensures
            self.states@[path[i]] == COMPLETE,
        decreases i,
    {
        if i > 0 {
            self.lemma_completed_along(path, i - 1);
            assert(depends_on(*self.graph, path[i - 1], path[i]));
        }
    }

    /// Every visited node is reached from the root, and every completed
    /// node was completed after the nodes it depends on.
    spec fn walk_ok(&self) -> bool {
        &&& self.ranks@.len() == self.graph.nodes@.len()
        &&& forall|k: int|
            0 <= k < self.states@.len() && #[trigger] self.states@[k] != UNVISITED ==> reachable(*self.graph, k)
        &&& forall|k: int|
            0 <= k < self.states@.len() && #[trigger] self.states@[k] == COMPLETE ==> self.ranks@[k] < self.clock@
        &&& forall|k: int, j: int|
            0 <= k < self.states@.len() && 0 <= j < self.states@.len() && self.states@[k] == COMPLETE
                && #[trigger] depends_on(*self.graph, k, j) ==> self.states@[j] == COMPLETE && self.ranks@[j]
                < self.ranks@[k]
    }

    /// Completed nodes stay completed with their ranks.
    spec fn walk_kept(&self, next: &Validator<'a>) -> bool {
        &&& self.clock@ <= next.clock@
        &&& forall|k: int|
            0 <= k < self.states@.len() && #[trigger] self.states@[k] == COMPLETE ==> next.states@[k] == COMPLETE
                && next.ranks@[k] == self.ranks@[k]
    }

    fn new(graph: &'a Graph) -> (r: Result<Self, ValidationError>)
        ensures
            r matches Ok(v) ==> v.wf() && v.graph == graph && graph.version@ == version_text(),
            r matches Err(e) ==> validation_outcome(graph, Err(e)),
            r matches Ok(v) ==> graph.version@ == version_text() && graph.nodes@.len() > 0,
            r matches Ok(v) ==> forall|k: int| 0 <= k < v.states@.len() ==> #[trigger] v.states@[k] == UNVISITED,
            r matches Ok(v) ==> v.walk_ok(),
    {
        if !is_supported_version(&graph.version) {
            return Err(
                ValidationError {
                    kind: ValidationErrorKind::UnsupportedVersion(graph.version.clone()),
                    node: None,
                },
            );
        }
        if graph.nodes.len() == 0 {
            return Err(ValidationError { kind: ValidationErrorKind::EmptyGraph, node: None });
        }
        let mut index: usize = 0;
        while index < graph.nodes.len()
            invariant
                index <= graph.nodes@.len(),
                node_ids_distinct(graph.nodes@.take(index as int)),
            decreases graph.nodes@.len() - index,
        {
            let prefix = slice_prefix(graph.nodes.as_slice(), index);
            if let Some(earlier) = find_node(prefix, &graph.nodes[index].id) {
                let id = &graph.nodes[index].id;
                proof {
                    assert(prefix@[earlier as int] == graph.nodes@[earlier as int]);
                    assert(!node_ids_distinct(graph.nodes@)) by {
                        assert(graph.nodes@[earlier as int].id@ == graph.nodes@[index as int].id@);
                    }
                    assert(graph.nodes@[earlier as int].id@ == graph.nodes@[index as int].id@);
                    assert(first_duplicate_node(graph.nodes@, index as int));
                }
                return Err(
                    ValidationError {
                        kind: ValidationErrorKind::DuplicateNode(id.clone()),
                        node: Some(id.clone()),
                    },
                );
            }
            proof {
                assert forall|i: int, j: int|
                    0 <= i < j < index + 1 implies #[trigger] graph.nodes@.take(index + 1)[i].id@
                    != #[trigger] graph.nodes@.take(index + 1)[j].id@ by {
                    if j < index {
                        assert(graph.nodes@.take(index as int)[i] == graph.nodes@[i]);
                        assert(graph.nodes@.take(index as int)[j] == graph.nodes@[j]);
                    } else {
                        assert(prefix@[i] == graph.nodes@[i]);
                    }
                }
            }
            index = index + 1;
        }
        assert(graph.nodes@.take(graph.nodes@.len() as int) =~= graph.nodes@);
        let mut states: Vec<u8> = Vec::new();
        let mut properties: Vec<Option<NodeProperties>> = Vec::new();
        let mut count: usize = 0;
        while count < graph.nodes.len()
            invariant
                count <= graph.nodes@.len(),
                states@.len() == count,
                properties@.len() == count,
                forall|k: int| 0 <= k < count ==> #[trigger] states@[k] == UNVISITED,
                forall|k: int| 0 <= k < count ==> #[trigger] properties@[k] is None,
            decreases graph.nodes@.len() - count,
        {
            states.push(UNVISITED);
            properties.push(None);
            count = count + 1;
        }
        Ok(Validator {
            graph,
            states,
            properties,
            defined_fields: Vec::new(),
            ranks: Ghost(Seq::new(graph.nodes@.len(), |k: int| 0nat)),
            clock: Ghost(0nat),
        })
    }

    #[verifier::rlimit(60)]
    #[verifier::spinoff_prover]
    fn validate(&mut self) -> (r: Result<ValidationSummary, ValidationError>)
        requires
            old(self).wf(),
            old(self).graph.version@ == version_text(),
            old(self).graph.nodes@.len() > 0,
            forall|k: int| 0 <= k < old(self).states@.len() ==> #[trigger] old(self).states@[k] == UNVISITED,
            old(self).walk_ok(),
        ensures
            validation_outcome(old(self).graph, r),
    {
        let graph = self.graph;
        proof {
            assert forall|k: int|
                0 <= k < graph.nodes@.len() && #[trigger] graph.nodes@[k].id@ == graph.root@ implies reachable(*graph, k) by {
                let path = seq![k];
                assert(root_path(*graph, path));
            }
        }
        self.visit(&graph.root)?;
        assert forall|k: int| 0 <= k < self.states@.len() implies #[trigger] self.states@[k] != VISITING by {
            assert(old(self).states@[k] == UNVISITED);
        }
        let mut index: usize = 0;
        while index < graph.nodes.len()
            invariant
                self.wf(),
                self.graph == graph,
                graph == old(self).graph,
                graph.version@ == version_text(),
                graph.nodes@.len() > 0,
                index <= graph.nodes@.len(),
                forall|k: int| 0 <= k < self.states@.len() ==> #[trigger] self.states@[k] != VISITING,
                forall|k: int| 0 <= k < index ==> #[trigger] self.states@[k] == COMPLETE,
            decreases graph.nodes@.len() - index,
        {
            if self.states[index] == UNVISITED {
                let id = &graph.nodes[index].id;
                proof {
                    if reachable(*graph, index as int) {
                        let path = choose|path: Seq<int>| #[trigger] root_path(*graph, path) && path.last() == index;
                        let k = choose|k: int|
                            0 <= k < self.states@.len() && #[trigger] graph.nodes@[k].id@ == graph.root@
                                && self.states@[k] == COMPLETE;
                        if path[0] != k {
                            if path[0] < k {
                                assert(graph.nodes@[path[0]].id@ != graph.nodes@[k].id@);
                            } else {
                                assert(graph.nodes@[k].id@ != graph.nodes@[path[0]].id@);
                            }
                        }
                        self.lemma_completed_along(path, path.len() - 1);
                    }
                }
                return Err(
                    ValidationError {
                        kind: ValidationErrorKind::UnreachableNode(id.clone()),
                        node: Some(id.clone()),
                    },
                );
            }
            index = index + 1;
        }
        assert forall|k: int| 0 <= k < graph.nodes@.len() implies checked_node(*graph, #[trigger] graph.nodes@[k]) by {
            assert(self.states@[k] == COMPLETE);
        }
        proof {
            assert forall|k: int| 0 <= k < graph.nodes@.len() implies #[trigger] reachable(*graph, k) by {
                assert(self.states@[k] == COMPLETE);
            }
            let rank = self.ranks@;
            assert forall|k: int, j: int|
                0 <= k < graph.nodes@.len() && 0 <= j < graph.nodes@.len() && #[trigger] depends_on(*graph, k, j)
                    implies rank[j] < rank[k] by {
                assert(self.states@[k] == COMPLETE);
            }
            assert(ranked(*graph, rank));
        }
        let root = match find_node(graph.nodes.as_slice(), &graph.root) {
            Some(root) => root,
            None => {
                return Err(
                    ValidationError {
                        kind: ValidationErrorKind::MissingNode(graph.root.clone()),
                        node: None,
                    },
                );
            },
        };
        match &self.properties[root] {
            Some(properties) => Ok(
                ValidationSummary {
                    root_schema: clone_fields(properties.schema.as_slice()),
                    root_collection: properties.collection,
                },
            ),
            None => Err(
                ValidationError {
                    kind: ValidationErrorKind::CyclicGraph(graph.root.clone()),
                    node: None,
                },
            ),
        }
    }

    #[verifier::spinoff_prover]
    #[verifier::rlimit(100)]
    fn visit(&mut self, id: &NodeId) -> (r: Result<(), ValidationError>)
        requires
            old(self).wf(),
            old(self).walk_ok(),
            forall|k: int|
                0 <= k < old(self).graph.nodes@.len() && #[trigger] old(self).graph.nodes@[k].id@ == id@
                    ==> reachable(*old(self).graph, k),
            forall|k: int|
                0 <= k < old(self).states@.len() && #[trigger] old(self).states@[k] == VISITING ==> leads_to(
                    *old(self).graph,
                    k,
                    id@,
                ) || !node_named(*old(self).graph, id@),
        ensures
            r matches Err(e) ==> !(e.kind is UnreachableNode),
            r matches Err(e) ==> cycle_reported(*old(self).graph, e),
            old(self).continued_by(final(self)),
            final(self).walk_ok(),
            old(self).walk_kept(final(self)),
            r is Ok ==> forall|k: int|
                0 <= k < old(self).states@.len() ==> (#[trigger] final(self).states@[k] == VISITING)
                    == (old(self).states@[k] == VISITING),
            r is Ok ==> exists|k: int|
                0 <= k < final(self).states@.len() && #[trigger] old(self).graph.nodes@[k].id@ == id@
                    && final(self).states@[k] == COMPLETE,
            !node_named(*old(self).graph, id@) ==> r is Err,
        decreases unvisited_count(old(self).states@),
    {
        let graph = self.graph;
        let index = match find_node(graph.nodes.as_slice(), id) {
            Some(index) => index,
            None => {
                return Err(
                    ValidationError { kind: ValidationErrorKind::MissingNode(id.clone()), node: None },
                );
            },
        };
        if self.states[index] == COMPLETE {
            assert(graph.nodes@[index as int].id@ == id@);
            return Ok(());
        }
        if self.states[index] == VISITING {
            proof {
                assert(node_named(*graph, id@)) by {
                    assert(graph.nodes@[index as int].id@ == id@);
                }
                let path = choose|path: Seq<int>|
                    #[trigger] dependency_chain(*graph, path) && path[0] == index && graph.nodes@[path.last()].id@
                        == id@;
                let last = path.last();
                assert(0 <= last < graph.nodes@.len());
                if last != index {
                    if last < index {
                        assert(graph.nodes@[last].id@ != graph.nodes@[index as int].id@);
                    } else {
                        assert(graph.nodes@[index as int].id@ != graph.nodes@[last].id@);
                    }
                }
                lemma_chain_cycle(*graph, path);
            }
            return Err(error(id, ValidationErrorKind::CyclicGraph(id.clone())));
        }
        let ghost entry = *self;
        proof {
            lemma_unvisited_update(self.states@, index as int, VISITING);
        }
        self.states.set(index, VISITING);
        proof {
            assert(reachable(*graph, index as int));
            assert forall|k: int|
                0 <= k < self.states@.len() && #[trigger] self.states@[k] != UNVISITED implies reachable(*self.graph, k) by {
                if k != index {
                    assert(entry.states@[k] == self.states@[k]);
                }
            }
            assert forall|k: int|
                0 <= k < self.states@.len() && #[trigger] self.states@[k] == COMPLETE implies self.ranks@[k] < self.clock@ by {
                assert(entry.states@[k] == self.states@[k]);
            }
            assert forall|k: int, j: int|
                0 <= k < self.states@.len() && 0 <= j < self.states@.len() && self.states@[k] == COMPLETE
                    && #[trigger] depends_on(*self.graph, k, j) implies self.states@[j] == COMPLETE && self.ranks@[j]
                < self.ranks@[k] by {
                assert(entry.states@[k] == self.states@[k]);
                assert(entry.states@[j] == COMPLETE);
                assert(j != index);
                assert(entry.states@[j] == self.states@[j]);
            }
        }
        let ghost marked = *self;
        let node = &graph.nodes[index];
        let dependencies = node_dependencies(node);
        let mut position: usize = 0;
        while position < dependencies.len()
            invariant
                entry == *old(self),
                entry.continued_by(self),
                self.walk_ok(),
                marked.walk_kept(self),
                entry.clock@ <= self.clock@,
                marked.clock@ == entry.clock@,
                marked.ranks@ == entry.ranks@,
                self.states@[index as int] != UNVISITED,
                unvisited_count(self.states@) < unvisited_count(entry.states@),
                index < self.states@.len(),
                position <= dependencies@.len(),
                *node == graph.nodes@[index as int],
                self.graph == graph,
                reachable(*graph, index as int),
                forall|k: int|
                    0 <= k < self.states@.len() ==> (#[trigger] self.states@[k] == VISITING) == (
                    entry.states@[k] == VISITING || k == index),
                forall|p: int|
                    0 <= p < position ==> exists|k: int|
                        0 <= k < self.states@.len() && #[trigger] graph.nodes@[k].id@ == (#[trigger] dependencies@[p])@
                            && self.states@[k] == COMPLETE,
            decreases dependencies@.len() - position,
        {
            let ghost before = *self;
            proof {
                assert forall|k: int|
                    0 <= k < graph.nodes@.len() && #[trigger] graph.nodes@[k].id@ == dependencies@[position as int]@
                        implies reachable(*graph, k) by {
                    assert(kind_refers(node.kind, dependencies@[position as int]@));
                    assert(depends_on(*graph, index as int, k));
                    let path = choose|path: Seq<int>| #[trigger] root_path(*graph, path) && path.last() == index;
                    lemma_path_step(*graph, path, k);
                }
            }
            proof {
                let dependency = dependencies@[position as int]@;
                assert forall|k: int|
                    0 <= k < self.states@.len() && #[trigger] self.states@[k] == VISITING implies leads_to(
                        *graph,
                        k,
                        dependency,
                    ) || !node_named(*graph, dependency) by {
                    if node_named(*graph, dependency) {
                        let j = choose|j: int| 0 <= j < graph.nodes@.len() && #[trigger] graph.nodes@[j].id@ == dependency;
                        assert(kind_refers(node.kind, dependency));
                        assert(depends_on(*graph, index as int, j));
                        if k == index {
                            lemma_chain_pair(*graph, index as int, j);
                            assert(seq![index as int, j].last() == j);
                        } else {
                            assert(entry.states@[k] == VISITING);
                            assert(node_named(*graph, id@)) by {
                                assert(graph.nodes@[index as int].id@ == id@);
                            }
                            let path = choose|path: Seq<int>|
                                #[trigger] dependency_chain(*graph, path) && path[0] == k
                                    && graph.nodes@[path.last()].id@ == id@;
                            let last = path.last();
                            if last != index {
                                if last < index {
                                    assert(graph.nodes@[last].id@ != graph.nodes@[index as int].id@);
                                } else {
                                    assert(graph.nodes@[index as int].id@ != graph.nodes@[last].id@);
                                }
                            }
                            lemma_chain_step(*graph, path, j);
                        }
                    }
                }
            }
            let visited = self.visit(&dependencies[position]);
            proof {
                assert forall|k: int|
                    0 <= k < entry.states@.len() && #[trigger] entry.states@[k] == COMPLETE implies self.states@[k]
                        == COMPLETE && self.ranks@[k] == entry.ranks@[k] by {
                    assert(k != index);
                    assert(marked.states@[k] == COMPLETE);
                    assert(before.states@[k] == COMPLETE);
                }
            }
            if visited.is_err() {
                return visited;
            }
            proof {
                assert forall|p: int|
                    0 <= p < position + 1 implies exists|k: int|
                        0 <= k < self.states@.len() && #[trigger] graph.nodes@[k].id@ == (#[trigger] dependencies@[p])@
                            && self.states@[k] == COMPLETE by {
                    if p < position {
                        let k = choose|k: int|
                            0 <= k < before.states@.len() && #[trigger] graph.nodes@[k].id@ == (#[trigger] dependencies@[p])@
                                && before.states@[k] == COMPLETE;
                        assert(self.states@[k] == COMPLETE);
                    }
                }
                assert forall|k: int|
                    0 <= k < marked.states@.len() && #[trigger] marked.states@[k] == COMPLETE implies self.states@[k]
                        == COMPLETE && self.ranks@[k] == marked.ranks@[k] by {
                    assert(before.states@[k] == COMPLETE);
                }
            }
            position = position + 1;
        }
        let ghost walked = *self;
        let checked = self.validate_node(node);
        assert(entry.walk_kept(self)) by {
            assert forall|k: int|
                0 <= k < entry.states@.len() && #[trigger] entry.states@[k] == COMPLETE implies self.states@[k]
                    == COMPLETE && self.ranks@[k] == entry.ranks@[k] by {
                assert(k != index);
                assert(marked.states@[k] == COMPLETE);
                assert(walked.states@[k] == COMPLETE);
            }
        }
        assert(checked matches Err(e) ==> cyclic_id(e) is None) by {
            if checked is Err {
                let e = checked->Err_0;
                if cyclic_id(e) is Some {
                    let d = cyclic_id(e)->Some_0;
                    assert(listed(dependencies@, d));
                    let p = choose|p: int| 0 <= p < dependencies@.len() && (#[trigger] dependencies@[p])@ == d;
                    let k = choose|k: int|
                        0 <= k < walked.states@.len() && #[trigger] graph.nodes@[k].id@ == (#[trigger] dependencies@[p])@
                            && walked.states@[k] == COMPLETE;
                    let k2 = choose|k2: int|
                        0 <= k2 < walked.states@.len() && #[trigger] walked.graph.nodes@[k2].id@ == d
                            && walked.states@[k2] != COMPLETE;
                    if k < k2 {
                        assert(graph.nodes@[k].id@ != graph.nodes@[k2].id@);
                    } else if k2 < k {
                        assert(graph.nodes@[k2].id@ != graph.nodes@[k].id@);
                    }
                }
            }
        }
        let properties = checked?;
        assert(checked_node(*self.graph, self.graph.nodes@[index as int]));
        self.properties.set(index, Some(properties));
        let ghost done = *self;
        proof {
            lemma_unvisited_update(self.states@, index as int, COMPLETE);
        }
        self.states.set(index, COMPLETE);
        proof {
            self.ranks = Ghost(done.ranks@.update(index as int, done.clock@));
            self.clock = Ghost(done.clock@ + 1);
        }
        proof {
            let i = index as int;
            assert(done.states@[i] == VISITING);
            assert forall|j: int| 0 <= j < graph.nodes@.len() && #[trigger] depends_on(*graph, i, j) implies done.states@[j]
                == COMPLETE && done.ranks@[j] < done.clock@ by {
                assert(kind_refers(node.kind, graph.nodes@[j].id@));
                assert(listed(dependencies@, graph.nodes@[j].id@));
                let p = choose|p: int| 0 <= p < dependencies@.len() && (#[trigger] dependencies@[p])@ == graph.nodes@[j].id@;
                let k = choose|k: int|
                    0 <= k < done.states@.len() && #[trigger] graph.nodes@[k].id@ == (#[trigger] dependencies@[p])@
                        && done.states@[k] == COMPLETE;
                if k != j {
                    if k < j {
                        assert(graph.nodes@[k].id@ != graph.nodes@[j].id@);
                    } else {
                        assert(graph.nodes@[j].id@ != graph.nodes@[k].id@);
                    }
                }
            }
            assert forall|k: int|
                0 <= k < self.states@.len() && #[trigger] self.states@[k] != UNVISITED implies reachable(*self.graph, k) by {
                if k != i {
                    assert(done.states@[k] == self.states@[k]);
                }
            }
            assert forall|k: int|
                0 <= k < self.states@.len() && #[trigger] self.states@[k] == COMPLETE implies self.ranks@[k] < self.clock@ by {
                if k != i {
                    assert(done.states@[k] == self.states@[k]);
                }
            }
            assert forall|k: int, j: int|
                0 <= k < self.states@.len() && 0 <= j < self.states@.len() && self.states@[k] == COMPLETE
                    && #[trigger] depends_on(*self.graph, k, j) implies self.states@[j] == COMPLETE && self.ranks@[j]
                < self.ranks@[k] by {
                if k == i {
                    assert(done.states@[j] == COMPLETE);
                    assert(j != i);
                } else {
                    assert(done.states@[k] == COMPLETE);
                    assert(done.states@[j] == COMPLETE);
                    assert(j != i);
                }
            }
            assert forall|k: int|
                0 <= k < old(self).states@.len() && #[trigger] old(self).states@[k] == COMPLETE implies self.states@[k]
                    == COMPLETE && self.ranks@[k] == old(self).ranks@[k] by {
                assert(marked.states@[k] == COMPLETE);
                assert(k != i);
            }
        }
        assert(self.graph.nodes@[index as int].id@ == id@ && self.states@[index as int] == COMPLETE);
        Ok(())
    }
}

fn slice_prefix(nodes: &[Node], count: usize) -> (prefix: &[Node])
    requires
        count <= nodes@.len(),
    ensures
        prefix@ == nodes@.take(count as int),
{
    let (prefix, _) = nodes.split_at(count);
    prefix
}

fn field_slice_from(fields: &[Field], start: usize) -> (rest: &[Field])
    requires
        start <= fields@.len(),
    ensures
        rest@ == fields@.skip(start as int),
{
    let (_, rest) = fields.split_at(start);
    rest
}

impl<'a> Validator<'a> {
    fn validate_node(&mut self, node: &Node) -> (r: Result<NodeProperties, ValidationError>)
        requires
            old(self).wf(),
        ensures
            r matches Err(e) ==> (cyclic_id(e) matches Some(d) ==> kind_refers(node.kind, d) && old(self).unfinished(d)),
            r matches Err(e) ==> !(e.kind is UnreachableNode),
            final(self).wf(),
            final(self).graph == old(self).graph,
            final(self).states == old(self).states,
            final(self).properties == old(self).properties,
            final(self).ranks == old(self).ranks,
            final(self).clock == old(self).clock,
            r matches Ok(p) ==> schema_view(p.schema@) == schema_view(node.output_schema@)
                && p.collection == node.collection,
            r is Ok ==> checked_node(*old(self).graph, *node),
            r is Ok ==> checked_width(*old(self).graph, *node),
    {
        if let Err(kind) = ensure_unique_schema(node.output_schema.as_slice()) {
            return Err(error(&node.id, kind));
        }
        let mut properties = match &node.kind {
            NodeKind::Input { binding } => {
                if binding.as_str().len() == 0 {
                    return Err(error(&node.id, ValidationErrorKind::InvalidNode));
                }
                self.define_fields(&node.id, node.output_schema.as_slice())?;
                source_properties(clone_fields(node.output_schema.as_slice()))
            },
            NodeKind::Empty => {
                self.define_fields(&node.id, node.output_schema.as_slice())?;
                source_properties(clone_fields(node.output_schema.as_slice()))
            },
            NodeKind::Project { input, entries } => self.validate_project(
                node,
                input,
                entries.as_slice(),
            )?,
            NodeKind::Filter { input, predicate } => {
                let input = self.property(input, &node.id)?;
                let descriptor = self.validate_expression(
                    predicate,
                    input.schema.as_slice(),
                    &node.id,
                )?;
                if descriptor.scalar != ScalarType::Boolean {
                    return Err(error(&node.id, ValidationErrorKind::InvalidExpression));
                }
                input
            },
            NodeKind::Join { left, right, join_type, condition } => {
                let condition = match condition {
                    Some(condition) => Some(condition),
                    None => None,
                };
                self.validate_join(node, left, right, *join_type, condition)?
            },
            NodeKind::Aggregate { input, grouping_keys, aggregates } => self.validate_aggregate(
                node,
                input,
                grouping_keys.as_slice(),
                aggregates.as_slice(),
            )?,
            NodeKind::Window { input, definitions } => self.validate_window(
                node,
                input,
                definitions.as_slice(),
            )?,
            NodeKind::Distinct { input } => {
                let input = self.property(input, &node.id)?;
                let value_keys = complete_key(input.schema.as_slice());
                NodeProperties {
                    schema: input.schema,
                    collection: CollectionKind::Bag,
                    value_keys,
                    peer_constant: Vec::new(),
                }
            },
            NodeKind::SetOperation { left, right, .. } => self.validate_set(node, left, right)?,
            NodeKind::Order { input, items } => self.validate_order(node, input, items.as_slice())?,
            NodeKind::Slice { input, offset, limit } => self.validate_slice(
                node,
                input,
                *offset,
                *limit,
            )?,
            NodeKind::ForgetOrder { input } => {
                let input = self.property(input, &node.id)?;
                if input.collection != CollectionKind::Ordered {
                    return Err(error(&node.id, ValidationErrorKind::InvalidNode));
                }
                NodeProperties {
                    schema: input.schema,
                    collection: CollectionKind::Bag,
                    value_keys: input.value_keys,
                    peer_constant: Vec::new(),
                }
            },
        };
        if !schemas_equal(properties.schema.as_slice(), node.output_schema.as_slice()) {
            return Err(error(&node.id, ValidationErrorKind::IncorrectOutputSchema));
        }
        proof {
            assert(schema_view(properties.schema@).len() == properties.schema@.len());
            assert(schema_view(node.output_schema@).len() == node.output_schema@.len());
            assert(properties.schema@.len() == node.output_schema@.len());
        }
        if properties.collection != node.collection {
            return Err(error(&node.id, ValidationErrorKind::IncorrectCollectionKind));
        }
        add_complete_key(&mut properties.value_keys, properties.schema.as_slice());
        Ok(properties)
    }

    fn validate_project(&mut self, node: &Node, input_id: &NodeId, entries: &[ProjectEntry]) -> (r:
        Result<NodeProperties, ValidationError>)
        requires
            old(self).wf(),
        ensures
            r matches Err(e) ==> (cyclic_id(e) matches Some(d) ==> (d == input_id@ || exists|i: int|
                0 <= i < entries@.len() && entry_refers(#[trigger] entries@[i], d)) && old(self).unfinished(d)),
            r matches Err(e) ==> !(e.kind is UnreachableNode),
            final(self).wf(),
            final(self).graph == old(self).graph,
            final(self).states == old(self).states,
            final(self).properties == old(self).properties,
            final(self).ranks == old(self).ranks,
            final(self).clock == old(self).clock,
            r is Ok ==> node_named(*old(self).graph, input_id@) && forall|i: int|
                0 <= i < entries@.len() ==> match #[trigger] entries@[i] {
                    ProjectEntry::Keep(field) => field_named(*old(self).graph, field@),
                    ProjectEntry::Compute { output, expression } => declares(*node, output@)
                        && checked_expression(*old(self).graph, expression),
                },
            r is Ok ==> entries@.len() == node.output_schema@.len(),
    {
        let input = self.property(input_id, &node.id)?;
        if entries.len() != node.output_schema.len() {
            return Err(error(&node.id, ValidationErrorKind::IncorrectOutputSchema));
        }
        let mut kept: Vec<FieldId> = Vec::new();
        let mut schema: Vec<Field> = Vec::new();
        let mut peer_constant: Vec<FieldId> = Vec::new();
        let mut index: usize = 0;
        while index < entries.len()
            invariant
                self.wf(),
                self.graph == old(self).graph,
                self.states == old(self).states,
                self.properties == old(self).properties,
                self.ranks == old(self).ranks,
                self.clock == old(self).clock,
                entries@.len() == node.output_schema@.len(),
                index <= entries@.len(),
                fields_named(*self.graph, input.schema@),
                forall|i: int|
                    0 <= i < index ==> match #[trigger] entries@[i] {
                        ProjectEntry::Keep(field) => field_named(*old(self).graph, field@),
                        ProjectEntry::Compute { output, expression } => declares(*node, output@)
                            && checked_expression(*old(self).graph, expression),
                    },
            decreases entries@.len() - index,
        {
            let declared = &node.output_schema[index];
            match &entries[index] {
                ProjectEntry::Keep(field) => {
                    if contains_field_id(kept.as_slice(), field) {
                        return Err(error(&node.id, ValidationErrorKind::InvalidNode));
                    }
                    kept.push(field.clone());
                    let source = match find_field(input.schema.as_slice(), field) {
                        Some(position) => position,
                        None => {
                            return Err(
                                error(
                                    &node.id,
                                    ValidationErrorKind::InvalidFieldReference(field.clone()),
                                ),
                            );
                        },
                    };
                    schema.push(input.schema[source].clone());
                    if contains_field_id(input.peer_constant.as_slice(), field) {
                        peer_constant.push(field.clone());
                    }
                },
                ProjectEntry::Compute { output, expression } => {
                    if !declared.id.same(output) {
                        return Err(error(&node.id, ValidationErrorKind::IncorrectOutputSchema));
                    }
                    let descriptor = self.validate_expression(
                        expression,
                        input.schema.as_slice(),
                        &node.id,
                    )?;
                    let field = Field {
                        id: output.clone(),
                        name: declared.name.clone(),
                        descriptor,
                    };
                    self.define_field(&node.id, &field.id)?;
                    let referenced = referenced_fields(expression);
                    if is_subset(referenced.as_slice(), input.peer_constant.as_slice()) {
                        peer_constant.push(output.clone());
                    }
                    schema.push(field);
                },
            }
            index = index + 1;
        }
        let mut value_keys: Vec<Vec<FieldId>> = Vec::new();
        let mut key: usize = 0;
        while key < input.value_keys.len()
            invariant
                key <= input.value_keys@.len(),
            decreases input.value_keys@.len() - key,
        {
            if is_subset(input.value_keys[key].as_slice(), kept.as_slice()) {
                value_keys.push(clone_ids(input.value_keys[key].as_slice()));
            }
            key = key + 1;
        }
        Ok(NodeProperties { schema, collection: input.collection, value_keys, peer_constant })
    }

    fn validate_join(
        &mut self,
        node: &Node,
        left_id: &NodeId,
        right_id: &NodeId,
        join_type: JoinType,
        condition: Option<&Expression>,
    ) -> (r: Result<NodeProperties, ValidationError>)
        requires
            old(self).wf(),
        ensures
            r matches Err(e) ==> (cyclic_id(e) matches Some(d) ==> (d == left_id@ || d == right_id@ || (
            condition matches Some(c) && expression_refers(*c, d))) && old(self).unfinished(d)),
            r matches Err(e) ==> !(e.kind is UnreachableNode),
            final(self).wf(),
            final(self).graph == old(self).graph,
            final(self).states == old(self).states,
            final(self).properties == old(self).properties,
            final(self).ranks == old(self).ranks,
            final(self).clock == old(self).clock,
            r matches Ok(p) ==> p.collection == CollectionKind::Bag,
            r matches Ok(p) ==> exists|left_width: nat|
                left_width <= p.schema@.len() && named_width(*old(self).graph, left_id@, left_width)
                    && #[trigger] named_width(
                    *old(self).graph,
                    right_id@,
                    (p.schema@.len() - left_width) as nat,
                ),
            r is Ok ==> {
                &&& node_named(*old(self).graph, left_id@)
                &&& node_named(*old(self).graph, right_id@)
                &&& (join_type == JoinType::Cross) == (condition is None)
                &&& condition matches Some(e) ==> checked_expression(*old(self).graph, *e) && e.descriptor.scalar
                    == ScalarType::Boolean
            },
    {
        let left = self.property(left_id, &node.id)?;
        let right = self.property(right_id, &node.id)?;
        let ghost left_width_of: nat = left.schema@.len();
        let left_ids = field_ids(left.schema.as_slice());
        let mut index: usize = 0;
        while index < right.schema.len()
            invariant
                index <= right.schema@.len(),
            decreases right.schema@.len() - index,
        {
            if contains_field_id(left_ids.as_slice(), &right.schema[index].id) {
                return Err(
                    error(
                        &node.id,
                        ValidationErrorKind::DuplicateField(right.schema[index].id.clone()),
                    ),
                );
            }
            index = index + 1;
        }
        let mut environment = clone_fields(left.schema.as_slice());
        proof {
            lemma_fields_named_view(*self.graph, left.schema@, environment@);
            assert(schema_view(environment@).len() == environment@.len());
            assert(schema_view(left.schema@).len() == left.schema@.len());
        }
        let mut index: usize = 0;
        while index < right.schema.len()
            invariant
                index <= right.schema@.len(),
                environment@.len() == left.schema@.len() + index,
                fields_named(*self.graph, environment@),
                fields_named(*self.graph, right.schema@),
            decreases right.schema@.len() - index,
        {
            let field = right.schema[index].clone();
            assert(field@ == right.schema@[index as int]@);
            environment.push(field);
            index = index + 1;
        }
        match (join_type, condition) {
            (JoinType::Cross, None) => {},
            (JoinType::Cross, Some(_)) | (_, None) => {
                return Err(error(&node.id, ValidationErrorKind::InvalidNode));
            },
            (_, Some(condition)) => {
                let descriptor = self.validate_expression(
                    condition,
                    environment.as_slice(),
                    &node.id,
                )?;
                if descriptor.scalar != ScalarType::Boolean {
                    return Err(error(&node.id, ValidationErrorKind::InvalidExpression));
                }
            },
        }
        let schema = match join_type {
            JoinType::Cross | JoinType::Inner => environment,
            JoinType::Left => {
                let mut schema = left.schema;
                let mut extra = nullable_fields(right.schema);
                schema.append(&mut extra);
                schema
            },
            JoinType::Right => {
                let mut schema = nullable_fields(left.schema);
                let mut extra = right.schema;
                schema.append(&mut extra);
                schema
            },
            JoinType::Full => {
                let mut schema = nullable_fields(left.schema);
                let mut extra = nullable_fields(right.schema);
                schema.append(&mut extra);
                schema
            },
        };
        let ghost left_width: nat = left_width_of;
        assert(schema@.len() == left_width + right.schema@.len());
        assert(named_width(*old(self).graph, left_id@, left_width));
        assert(named_width(*old(self).graph, right_id@, (schema@.len() - left_width) as nat));
        let value_keys = complete_key(schema.as_slice());
        let properties = NodeProperties {
            value_keys,
            schema,
            collection: CollectionKind::Bag,
            peer_constant: Vec::new(),
        };
        assert(named_width(*old(self).graph, right_id@, (properties.schema@.len() - left_width) as nat));
        Ok(properties)
    }

    fn validate_aggregate(
        &mut self,
        node: &Node,
        input_id: &NodeId,
        grouping_keys: &[GroupingKey],
        aggregates: &[AggregateDefinition],
    ) -> (r: Result<NodeProperties, ValidationError>)
        requires
            old(self).wf(),
        ensures
            r matches Err(e) ==> (cyclic_id(e) matches Some(d) ==> (d == input_id@ || (exists|i: int|
                0 <= i < grouping_keys@.len() && expression_refers(#[trigger] grouping_keys@[i].expression, d))
                || exists|i: int|
                0 <= i < aggregates@.len() && (#[trigger] aggregates@[i]).argument is Some && expression_refers(
                    aggregates@[i].argument->0,
                    d,
                )) && old(self).unfinished(d)),
            r matches Err(e) ==> !(e.kind is UnreachableNode),
            final(self).wf(),
            final(self).graph == old(self).graph,
            final(self).states == old(self).states,
            final(self).properties == old(self).properties,
            final(self).ranks == old(self).ranks,
            final(self).clock == old(self).clock,
            r is Ok ==> grouping_keys@.len() + aggregates@.len() == node.output_schema@.len(),
            r is Ok ==> {
                &&& node_named(*old(self).graph, input_id@)
                &&& forall|i: int|
                    0 <= i < grouping_keys@.len() ==> declares(*node, (#[trigger] grouping_keys@[i]).output@)
                        && checked_expression(*old(self).graph, grouping_keys@[i].expression)
                &&& forall|i: int|
                    0 <= i < aggregates@.len() ==> declares(*node, (#[trigger] aggregates@[i]).output@)
                        && checked_aggregate_call(
                        *old(self).graph,
                        aggregates@[i].function,
                        aggregates@[i].argument,
                    )
            },
    {
        let input = self.property(input_id, &node.id)?;
        if grouping_keys.len() > node.output_schema.len() || node.output_schema.len()
            - grouping_keys.len() != aggregates.len() {
            return Err(error(&node.id, ValidationErrorKind::IncorrectOutputSchema));
        }
        let mut schema: Vec<Field> = Vec::new();
        let mut grouping_ids: Vec<FieldId> = Vec::new();
        let mut index: usize = 0;
        while index < grouping_keys.len()
            invariant
                self.wf(),
                self.graph == old(self).graph,
                self.states == old(self).states,
                self.properties == old(self).properties,
                self.ranks == old(self).ranks,
                self.clock == old(self).clock,
                grouping_keys@.len() <= node.output_schema@.len(),
                index <= grouping_keys@.len(),
                fields_named(*self.graph, input.schema@),
                forall|i: int|
                    0 <= i < index ==> declares(*node, (#[trigger] grouping_keys@[i]).output@)
                        && checked_expression(*old(self).graph, grouping_keys@[i].expression),
            decreases grouping_keys@.len() - index,
        {
            let definition = &grouping_keys[index];
            let declared = &node.output_schema[index];
            if !definition.output.same(&declared.id) {
                return Err(error(&node.id, ValidationErrorKind::IncorrectOutputSchema));
            }
            let descriptor = self.validate_expression(
                &definition.expression,
                input.schema.as_slice(),
                &node.id,
            )?;
            self.define_field(&node.id, &definition.output)?;
            if !contains_field_id(grouping_ids.as_slice(), &definition.output) {
                grouping_ids.push(definition.output.clone());
            }
            schema.push(
                Field { id: definition.output.clone(), name: declared.name.clone(), descriptor },
            );
            index = index + 1;
        }
        let declared_aggregates = field_slice_from(
            node.output_schema.as_slice(),
            grouping_keys.len(),
        );
        let mut index: usize = 0;
        while index < aggregates.len()
            invariant
                self.wf(),
                self.graph == old(self).graph,
                self.states == old(self).states,
                self.properties == old(self).properties,
                self.ranks == old(self).ranks,
                self.clock == old(self).clock,
                declared_aggregates@.len() == aggregates@.len(),
                declared_aggregates@ == node.output_schema@.skip(grouping_keys@.len() as int),
                index <= aggregates@.len(),
                fields_named(*self.graph, input.schema@),
                forall|i: int|
                    0 <= i < index ==> declares(*node, (#[trigger] aggregates@[i]).output@)
                        && checked_aggregate_call(
                        *old(self).graph,
                        aggregates@[i].function,
                        aggregates@[i].argument,
                    ),
            decreases aggregates@.len() - index,
        {
            let definition = &aggregates[index];
            let declared = &declared_aggregates[index];
            if !definition.output.same(&declared.id) {
                return Err(error(&node.id, ValidationErrorKind::IncorrectOutputSchema));
            }
            let argument = match &definition.argument {
                Some(argument) => Some(argument),
                None => None,
            };
            let descriptor = self.validate_aggregate_definition(
                definition.function,
                argument,
                input.schema.as_slice(),
                &node.id,
            )?;
            self.define_field(&node.id, &definition.output)?;
            schema.push(
                Field { id: definition.output.clone(), name: declared.name.clone(), descriptor },
            );
            index = index + 1;
        }
        let mut value_keys: Vec<Vec<FieldId>> = Vec::new();
        value_keys.push(grouping_ids);
        Ok(
            NodeProperties {
                schema,
                collection: CollectionKind::Bag,
                value_keys,
                peer_constant: Vec::new(),
            },
        )
    }

    fn validate_window(&mut self, node: &Node, input_id: &NodeId, definitions: &[WindowDefinition]) -> (r:
        Result<NodeProperties, ValidationError>)
        requires
            old(self).wf(),
        ensures
            r matches Err(e) ==> (cyclic_id(e) matches Some(d) ==> (d == input_id@ || exists|i: int|
                0 <= i < definitions@.len() && definition_refers(#[trigger] definitions@[i], d)) && old(self).unfinished(
                d,
            )),
            r matches Err(e) ==> !(e.kind is UnreachableNode),
            final(self).wf(),
            final(self).graph == old(self).graph,
            final(self).states == old(self).states,
            final(self).properties == old(self).properties,
            final(self).ranks == old(self).ranks,
            final(self).clock == old(self).clock,
            r is Ok ==> definitions@.len() <= node.output_schema@.len() && named_width(
                *old(self).graph,
                input_id@,
                (node.output_schema@.len() - definitions@.len()) as nat,
            ),
            r is Ok ==> {
                &&& node_named(*old(self).graph, input_id@)
                &&& definitions@.len() > 0
                &&& forall|i: int|
                    0 <= i < definitions@.len() ==> checked_window(*old(self).graph, *node, #[trigger] definitions@[i])
            },
    {
        let input = self.property(input_id, &node.id)?;
        if definitions.len() == 0 || input.schema.len() > node.output_schema.len()
            || node.output_schema.len() - input.schema.len() != definitions.len() {
            return Err(error(&node.id, ValidationErrorKind::InvalidNode));
        }
        let mut schema = clone_fields(input.schema.as_slice());
        let declared_outputs = field_slice_from(node.output_schema.as_slice(), input.schema.len());
        let mut index: usize = 0;
        while index < definitions.len()
            invariant
                self.wf(),
                self.graph == old(self).graph,
                self.states == old(self).states,
                self.properties == old(self).properties,
                self.ranks == old(self).ranks,
                self.clock == old(self).clock,
                declared_outputs@.len() == definitions@.len(),
                declared_outputs@ == node.output_schema@.skip(input.schema@.len() as int),
                index <= definitions@.len(),
                fields_named(*self.graph, input.schema@),
                node_named(*old(self).graph, input_id@),
                definitions@.len() > 0,
                forall|i: int|
                    0 <= i < index ==> checked_window(*old(self).graph, *node, #[trigger] definitions@[i]),
            decreases definitions@.len() - index,
        {
            let definition = &definitions[index];
            let declared = &declared_outputs[index];
            if !definition.output().same(&declared.id) {
                return Err(error(&node.id, ValidationErrorKind::IncorrectOutputSchema));
            }
            proof {
                let position = input.schema@.len() + index;
                assert(declared_outputs@[index as int] == node.output_schema@[position]);
                assert(declares(*node, definition.spec_output()@));
            }
            let descriptor = match definition {
                WindowDefinition::PartitionedAggregate { function, argument, partition_by, .. } => {
                    let mut inner: usize = 0;
                    while inner < partition_by.len()
                        invariant
                            self.wf(),
                            self.graph == old(self).graph,
                            self.states == old(self).states,
                            self.properties == old(self).properties,
                            self.ranks == old(self).ranks,
                            self.clock == old(self).clock,
                            inner <= partition_by@.len(),
                            fields_named(*self.graph, input.schema@),
                            forall|i: int|
                                0 <= i < inner ==> checked_expression(*old(self).graph, #[trigger] partition_by@[i]),
                        decreases partition_by@.len() - inner,
                    {
                        self.validate_expression(
                            &partition_by[inner],
                            input.schema.as_slice(),
                            &node.id,
                        )?;
                        inner = inner + 1;
                    }
                    let argument = match argument {
                        Some(argument) => Some(argument),
                        None => None,
                    };
                    let descriptor = self.validate_aggregate_definition(
                        *function,
                        argument,
                        input.schema.as_slice(),
                        &node.id,
                    )?;
                    assert(checked_window(*old(self).graph, *node, *definition));
                    descriptor
                },
                WindowDefinition::Ranking { function, partition_by, order_by, .. } => {
                    let mut inner: usize = 0;
                    while inner < partition_by.len()
                        invariant
                            self.wf(),
                            self.graph == old(self).graph,
                            self.states == old(self).states,
                            self.properties == old(self).properties,
                            self.ranks == old(self).ranks,
                            self.clock == old(self).clock,
                            inner <= partition_by@.len(),
                            fields_named(*self.graph, input.schema@),
                            forall|i: int|
                                0 <= i < inner ==> checked_expression(*old(self).graph, #[trigger] partition_by@[i]),
                        decreases partition_by@.len() - inner,
                    {
                        self.validate_expression(
                            &partition_by[inner],
                            input.schema.as_slice(),
                            &node.id,
                        )?;
                        inner = inner + 1;
                    }
                    if order_by.len() == 0 {
                        return Err(error(&node.id, ValidationErrorKind::InvalidOrdering));
                    }
                    self.validate_ordering_items(
                        order_by.as_slice(),
                        input.schema.as_slice(),
                        &node.id,
                    )?;
                    assert(checked_window(*old(self).graph, *node, *definition));
                    if *function == RankingFunction::RowNumber {
                        let direct = ordering_fields(order_by.as_slice());
                        if !covers_value_key(direct.as_slice(), input.value_keys.as_slice()) {
                            return Err(
                                error(&node.id, ValidationErrorKind::IncompleteRowNumberKey),
                            );
                        }
                    }
                    TypeDescriptor::non_nullable(ScalarType::Int64)
                },
            };
            self.define_field(&node.id, definition.output())?;
            schema.push(
                Field { id: definition.output().clone(), name: declared.name.clone(), descriptor },
            );
            index = index + 1;
        }
        let value_keys = complete_key(schema.as_slice());
        Ok(
            NodeProperties {
                value_keys,
                schema,
                collection: CollectionKind::Bag,
                peer_constant: Vec::new(),
            },
        )
    }

    /// Both operands of a set operation are validated nodes as wide as the
    /// node, with the same scalar type field by field.
    spec fn set_operands_fit(self, node: &Node, left: Seq<char>, right: Seq<char>) -> bool {
        exists|l: int, r: int|
            0 <= l < self.graph.nodes@.len() && 0 <= r < self.graph.nodes@.len() && #[trigger] self.graph.nodes@[l].id@
                == left && #[trigger] self.graph.nodes@[r].id@ == right && self.properties@[l] is Some
                && self.properties@[r] is Some && self.graph.nodes@[l].output_schema@.len()
                == node.output_schema@.len() && self.graph.nodes@[r].output_schema@.len()
                == node.output_schema@.len() && forall|i: int|
                0 <= i < node.output_schema@.len() ==> (#[trigger] self.graph.nodes@[l].output_schema@[i]).descriptor.scalar
                    == self.graph.nodes@[r].output_schema@[i].descriptor.scalar
    }

    /// The schema that `property` gives for `id` is that of the one node
    /// named `id`.
    proof fn lemma_operand(&self, id: Seq<char>, schema: Seq<Field>)
        requires
            self.wf(),
            exists|k: int|
                0 <= k < self.graph.nodes@.len() && #[trigger] self.graph.nodes@[k].id@ == id
                    && schema_view(schema) == schema_view(self.graph.nodes@[k].output_schema@),
        ensures
            forall|k: int|
                0 <= k < self.graph.nodes@.len() && #[trigger] self.graph.nodes@[k].id@ == id ==> schema.len()
                    == self.graph.nodes@[k].output_schema@.len() && forall|i: int|
                    0 <= i < schema.len() ==> (#[trigger] schema[i]).descriptor
                        == self.graph.nodes@[k].output_schema@[i].descriptor,
    {
        let w = choose|k: int|
            0 <= k < self.graph.nodes@.len() && #[trigger] self.graph.nodes@[k].id@ == id
                && schema_view(schema) == schema_view(self.graph.nodes@[k].output_schema@);
        assert forall|k: int|
            0 <= k < self.graph.nodes@.len() && #[trigger] self.graph.nodes@[k].id@ == id implies schema.len()
                == self.graph.nodes@[k].output_schema@.len() && forall|i: int|
                0 <= i < schema.len() ==> (#[trigger] schema[i]).descriptor
                    == self.graph.nodes@[k].output_schema@[i].descriptor by {
            if k != w {
                if k < w {
                    assert(self.graph.nodes@[k].id@ != self.graph.nodes@[w].id@);
                } else {
                    assert(self.graph.nodes@[w].id@ != self.graph.nodes@[k].id@);
                }
            }
            let other = self.graph.nodes@[k].output_schema@;
            assert(schema_view(schema).len() == schema.len() && schema_view(other).len() == other.len());
            assert forall|i: int| 0 <= i < schema.len() implies (#[trigger] schema[i]).descriptor == other[i].descriptor by {
                assert(schema_view(schema)[i] == schema[i]@);
                assert(schema_view(other)[i] == other[i]@);
            }
        }
    }

    fn validate_set(&mut self, node: &Node, left_id: &NodeId, right_id: &NodeId) -> (r: Result<
        NodeProperties,
        ValidationError,
    >)
        requires
            old(self).wf(),
        ensures
            r matches Err(e) ==> (cyclic_id(e) matches Some(d) ==> (d == left_id@ || d == right_id@) && old(
                self,
            ).unfinished(d)),
            r matches Err(e) ==> !(e.kind is UnreachableNode),
            final(self).wf(),
            final(self).graph == old(self).graph,
            final(self).states == old(self).states,
            final(self).properties == old(self).properties,
            final(self).ranks == old(self).ranks,
            final(self).clock == old(self).clock,
            r is Ok ==> node_named(*old(self).graph, left_id@) && node_named(*old(self).graph, right_id@),
            r is Ok ==> named_width(*old(self).graph, left_id@, node.output_schema@.len()) && named_width(
                *old(self).graph,
                right_id@,
                node.output_schema@.len(),
            ),
            r is Ok <==> old(self).set_operands_fit(node, left_id@, right_id@) && fresh_fields(
                old(self).defined_fields@,
                node.output_schema@,
            ),
    {
        let left = self.property(left_id, &node.id)?;
        let right = self.property(right_id, &node.id)?;
        proof {
            self.lemma_operand(left_id@, left.schema@);
            self.lemma_operand(right_id@, right.schema@);
        }
        let ghost kl = choose|k: int|
            0 <= k < self.graph.nodes@.len() && #[trigger] self.graph.nodes@[k].id@ == left_id@
                && self.properties@[k] is Some;
        let ghost kr = choose|k: int|
            0 <= k < self.graph.nodes@.len() && #[trigger] self.graph.nodes@[k].id@ == right_id@
                && self.properties@[k] is Some;
        if left.schema.len() != right.schema.len() || left.schema.len()
            != node.output_schema.len() {
            return Err(error(&node.id, ValidationErrorKind::InvalidNode));
        }
        let mut schema: Vec<Field> = Vec::new();
        let mut index: usize = 0;
        while index < left.schema.len()
            invariant
                self.wf(),
                self.graph == old(self).graph,
                self.states == old(self).states,
                self.properties == old(self).properties,
                self.ranks == old(self).ranks,
                self.clock == old(self).clock,
                left.schema@.len() == right.schema@.len(),
                left.schema@.len() == node.output_schema@.len(),
                index <= left.schema@.len(),
                fresh_fields(old(self).defined_fields@, node.output_schema@.take(index as int)),
                forall|i: int| 0 <= i < index ==> (#[trigger] left.schema@[i]).descriptor.scalar == right.schema@[i].descriptor.scalar,
                forall|id: Seq<char>|
                    #[trigger] contains_id(self.defined_fields@, id) <==> contains_id(old(self).defined_fields@, id)
                        || exists|k: int| 0 <= k < index && (#[trigger] node.output_schema@[k]).id@ == id,
            decreases left.schema@.len() - index,
        {
            let l = &left.schema[index];
            let r = &right.schema[index];
            let declared = &node.output_schema[index];
            if l.descriptor.scalar != r.descriptor.scalar {
                return Err(error(&node.id, ValidationErrorKind::InvalidNode));
            }
            let ghost before = self.defined_fields@;
            let field = Field {
                id: declared.id.clone(),
                name: l.name.clone(),
                descriptor: TypeDescriptor::new(
                    l.descriptor.scalar,
                    l.descriptor.nullable || r.descriptor.nullable,
                ),
            };
            let defined = self.define_field(&node.id, &field.id);
            if defined.is_err() {
                proof {
                    let id = node.output_schema@[index as int].id@;
                    assert(contains_id(before, id));
                    if !contains_id(old(self).defined_fields@, id) {
                        let k = choose|k: int| 0 <= k < index && (#[trigger] node.output_schema@[k]).id@ == id;
                        assert(node.output_schema@[k].id@ == node.output_schema@[index as int].id@);
                    }
                }
                return Err(defined.unwrap_err());
            }
            proof {
                let fields = node.output_schema@;
                let id = fields[index as int].id@;
                assert forall|x: Seq<char>|
                    #[trigger] contains_id(self.defined_fields@, x) <==> contains_id(old(self).defined_fields@, x)
                        || exists|k: int| 0 <= k < index + 1 && (#[trigger] fields[k]).id@ == x by {
                    if contains_id(self.defined_fields@, x) {
                        let j = choose|j: int| 0 <= j < self.defined_fields@.len() && #[trigger] self.defined_fields@[j]@ == x;
                        if j < before.len() {
                            assert(before[j]@ == x);
                            assert(contains_id(before, x));
                        } else {
                            assert(fields[index as int].id@ == x);
                        }
                    }
                    if contains_id(before, x) {
                        let j = choose|j: int| 0 <= j < before.len() && #[trigger] before[j]@ == x;
                        assert(self.defined_fields@[j] == before[j]);
                    }
                    if x == id {
                        assert(self.defined_fields@[before.len() as int]@ == x);
                    }
                    if exists|k: int| 0 <= k < index + 1 && (#[trigger] fields[k]).id@ == x {
                        let k = choose|k: int| 0 <= k < index + 1 && (#[trigger] fields[k]).id@ == x;
                        if k < index {
                            assert(contains_id(before, x));
                        }
                    }
                }
                assert(fields.take(index + 1) =~= fields.take(index as int).push(fields[index as int]));
                assert(!contains_id(old(self).defined_fields@, id));
                assert forall|k: int| 0 <= k < index implies (#[trigger] fields[k]).id@ != id by {
                    if fields[k].id@ == id {
                        assert(contains_id(before, id));
                    }
                }
            }
            schema.push(field);
            index = index + 1;
        }
        assert(node.output_schema@.take(index as int) =~= node.output_schema@);
        proof {
            let nodes = self.graph.nodes@;
            assert(nodes[kl].id@ == left_id@ && nodes[kr].id@ == right_id@);
            assert forall|i: int| 0 <= i < node.output_schema@.len() implies (#[trigger] nodes[kl].output_schema@[i]).descriptor.scalar
                == nodes[kr].output_schema@[i].descriptor.scalar by {
                assert(left.schema@[i].descriptor == nodes[kl].output_schema@[i].descriptor);
                assert(right.schema@[i].descriptor == nodes[kr].output_schema@[i].descriptor);
            }
            assert(old(self).set_operands_fit(node, left_id@, right_id@));
        }
        let value_keys = complete_key(schema.as_slice());
        Ok(
            NodeProperties {
                value_keys,
                schema,
                collection: CollectionKind::Bag,
                peer_constant: Vec::new(),
            },
        )
    }

    fn validate_order(&mut self, node: &Node, input_id: &NodeId, items: &[OrderingItem]) -> (r:
        Result<NodeProperties, ValidationError>)
        requires
            old(self).wf(),
        ensures
            r matches Err(e) ==> (cyclic_id(e) matches Some(d) ==> (d == input_id@ || exists|i: int|
                0 <= i < items@.len() && expression_refers(#[trigger] items@[i].expression, d)) && old(self).unfinished(d)),
            r matches Err(e) ==> !(e.kind is UnreachableNode),
            final(self).wf(),
            final(self).graph == old(self).graph,
            final(self).states == old(self).states,
            final(self).properties == old(self).properties,
            final(self).ranks == old(self).ranks,
            final(self).clock == old(self).clock,
            r matches Ok(p) ==> p.collection == CollectionKind::Ordered,
            r is Ok ==> node_named(*old(self).graph, input_id@) && items@.len() > 0 && checked_ordering(
                *old(self).graph,
                items@,
            ),
            r matches Ok(p) ==> named_width(*old(self).graph, input_id@, p.schema@.len()),
    {
        let input = self.property(input_id, &node.id)?;
        if items.len() == 0 {
            return Err(error(&node.id, ValidationErrorKind::InvalidOrdering));
        }
        self.validate_ordering_items(items, input.schema.as_slice(), &node.id)?;
        let peer_constant = ordering_fields(items);
        Ok(
            NodeProperties {
                schema: input.schema,
                collection: CollectionKind::Ordered,
                value_keys: input.value_keys,
                peer_constant,
            },
        )
    }

    fn validate_slice(&self, node: &Node, input_id: &NodeId, offset: i64, limit: Option<i64>) -> (r:
        Result<NodeProperties, ValidationError>)
        requires
            self.wf(),
        ensures
            r matches Err(e) ==> (cyclic_id(e) matches Some(d) ==> d == input_id@ && self.unfinished(d)),
            r matches Err(e) ==> !(e.kind is UnreachableNode),
            r is Ok ==> offset >= 0 && (limit matches Some(l) ==> l >= 0),
            r is Ok ==> node_named(*self.graph, input_id@),
            r matches Ok(p) ==> named_width(*self.graph, input_id@, p.schema@.len()),
            r is Ok <==> offset >= 0 && (limit matches Some(l) ==> l >= 0) && exists|k: int|
                0 <= k < self.graph.nodes@.len() && #[trigger] self.graph.nodes@[k].id@ == input_id@
                    && (self.properties@[k] matches Some(q) && q.collection == CollectionKind::Ordered
                    && covers_some_key(q.peer_constant@, q.value_keys@)),
    {
        let input = self.property(input_id, &node.id)?;
        if input.collection != CollectionKind::Ordered {
            return Err(error(&node.id, ValidationErrorKind::InvalidNode));
        }
        let negative_limit = match limit {
            Some(limit) => limit < 0,
            None => false,
        };
        if offset < 0 || negative_limit {
            return Err(error(&node.id, ValidationErrorKind::NegativeSliceBound));
        }
        if !covers_value_key(input.peer_constant.as_slice(), input.value_keys.as_slice()) {
            return Err(error(&node.id, ValidationErrorKind::IncompleteSliceKey));
        }
        Ok(input)
    }

    fn validate_ordering_items(&self, items: &[OrderingItem], environment: &[Field], node: &NodeId) -> (r:
        Result<(), ValidationError>)
        requires
            self.wf(),
            fields_named(*self.graph, environment@),
        ensures
            r matches Err(e) ==> (cyclic_id(e) matches Some(d) ==> (exists|i: int|
                0 <= i < items@.len() && expression_refers(#[trigger] items@[i].expression, d)) && self.unfinished(d)),
            r matches Err(e) ==> !(e.kind is UnreachableNode),
            r is Ok ==> checked_ordering(*self.graph, items@),
    {
        let mut index: usize = 0;
        while index < items.len()
            invariant
                self.wf(),
                index <= items@.len(),
                fields_named(*self.graph, environment@),
                forall|i: int| 0 <= i < index ==> checked_expression(*self.graph, (#[trigger] items@[i]).expression),
            decreases items@.len() - index,
        {
            let item = &items[index];
            let descriptor = self.validate_expression(&item.expression, environment, node)?;
            if descriptor.nullable && item.null_placement == NullPlacement::NotApplicable {
                return Err(error(node, ValidationErrorKind::InvalidOrdering));
            }
            index = index + 1;
        }
        Ok(())
    }

    fn validate_aggregate_definition(
        &self,
        function: AggregateFunction,
        argument: Option<&Expression>,
        environment: &[Field],
        node: &NodeId,
    ) -> (r: Result<TypeDescriptor, ValidationError>)
        requires
            self.wf(),
            fields_named(*self.graph, environment@),
        ensures
            r matches Err(e) ==> (cyclic_id(e) matches Some(d) ==> (argument matches Some(a) && expression_refers(
                *a,
                d,
            )) && self.unfinished(d)),
            r matches Err(e) ==> !(e.kind is UnreachableNode),
            r matches Ok(d) ==> function == AggregateFunction::CountAll ==> argument is None && d
                == (TypeDescriptor { scalar: ScalarType::Int64, nullable: false }),
            r is Ok ==> (function == AggregateFunction::CountAll) == (argument is None) && (
            argument matches Some(e) ==> checked_expression(*self.graph, *e)),
            function == AggregateFunction::CountAll && argument is None ==> r == Ok::<TypeDescriptor, ValidationError>(
                TypeDescriptor { scalar: ScalarType::Int64, nullable: false },
            ),
            argument matches Some(e) ==> (r matches Ok(d) ==> aggregate_result(function, e.descriptor) == Some(d)),
            argument matches Some(e) ==> (aggregate_result(function, e.descriptor) is None ==> r is Err),
    {
        if function == AggregateFunction::CountAll {
            if argument.is_some() {
                return Err(error(node, ValidationErrorKind::InvalidAggregateSignature));
            }
            return Ok(TypeDescriptor::non_nullable(ScalarType::Int64));
        }
        let argument = match argument {
            Some(argument) => argument,
            None => {
                return Err(error(node, ValidationErrorKind::InvalidAggregateSignature));
            },
        };
        let descriptor = self.validate_expression(argument, environment, node)?;
        match function {
            AggregateFunction::Count => Ok(TypeDescriptor::non_nullable(ScalarType::Int64)),
            AggregateFunction::Sum => {
                if descriptor.scalar == ScalarType::Int64 {
                    Ok(TypeDescriptor::nullable(ScalarType::Int64))
                } else {
                    Err(error(node, ValidationErrorKind::InvalidAggregateSignature))
                }
            },
            AggregateFunction::Min | AggregateFunction::Max => Ok(
                TypeDescriptor::nullable(descriptor.scalar),
            ),
            AggregateFunction::BoolAnd | AggregateFunction::BoolOr => {
                if descriptor.scalar == ScalarType::Boolean {
                    Ok(TypeDescriptor::nullable(ScalarType::Boolean))
                } else {
                    Err(error(node, ValidationErrorKind::InvalidAggregateSignature))
                }
            },
            AggregateFunction::CountAll => Err(
                error(node, ValidationErrorKind::InvalidAggregateSignature),
            ),
        }
    }

    /// Checks an expression against its environment; a checked expression's
    /// descriptor is the one that its operands derive.
    #[verifier::rlimit(60)]
    #[verifier::spinoff_prover]
    fn validate_expression(&self, expression: &Expression, environment: &[Field], node: &NodeId) -> (r:
        Result<TypeDescriptor, ValidationError>)
        requires
            self.wf(),
            fields_named(*self.graph, environment@),
        ensures
            r matches Err(e) ==> (cyclic_id(e) matches Some(d) ==> expression_refers(*expression, d)
                && self.unfinished(d)),
            r matches Err(e) ==> !(e.kind is UnreachableNode),
            r matches Ok(d) ==> d == expression.descriptor,
            r is Ok ==> checked_expression(*self.graph, *expression),
            expression.kind matches ExpressionKind::Literal(value) ==> literal_checked(r, value, expression.descriptor),
            expression.kind matches ExpressionKind::Field(field) ==> field_checked(
                r,
                environment@,
                field@,
                expression.descriptor,
            ),
            expression_check(*expression, environment@) matches Some(outcome) ==> checked_as(r, outcome, node@),
        decreases *expression,
    {
        let derived = match &expression.kind {
            ExpressionKind::Literal(value) => match value {
                LiteralValue::Boolean(_) => TypeDescriptor::non_nullable(ScalarType::Boolean),
                LiteralValue::Int64(_) => TypeDescriptor::non_nullable(ScalarType::Int64),
                LiteralValue::Text(_) => TypeDescriptor::non_nullable(ScalarType::Text),
                LiteralValue::Null => TypeDescriptor::nullable(expression.descriptor.scalar),
            },
            ExpressionKind::Field(field) => match find_field(environment, field) {
                Some(position) => {
                    proof {
                        assert forall|p: int| #[trigger] first_field_at(environment@, field@, p) implies p
                            == position by {
                            if p < position {
                                assert(environment@[p].id@ != field@);
                            } else if p > position {
                                assert(environment@[position as int].id@ != field@);
                            }
                        }
                    }
                    environment[position].descriptor
                },
                None => {
                    return Err(
                        error(node, ValidationErrorKind::InvalidFieldReference(field.clone())),
                    );
                },
            },
            ExpressionKind::Unary { operation, operand } => {
                let operand = self.validate_expression(operand, environment, node)?;
                let required = match operation {
                    UnaryOperation::Positive | UnaryOperation::Negative => ScalarType::Int64,
                    UnaryOperation::Not => ScalarType::Boolean,
                };
                if operand.scalar != required {
                    return Err(error(node, ValidationErrorKind::InvalidExpression));
                }
                TypeDescriptor::new(required, operand.nullable)
            },
            ExpressionKind::Binary { operation, left, right } => {
                let left = self.validate_expression(left, environment, node)?;
                let right = self.validate_expression(right, environment, node)?;
                match validate_binary(*operation, left, right) {
                    Ok(descriptor) => descriptor,
                    Err(kind) => {
                        return Err(error(node, kind));
                    },
                }
            },
            ExpressionKind::IsNull { operand, .. } => {
                self.validate_expression(operand, environment, node)?;
                TypeDescriptor::non_nullable(ScalarType::Boolean)
            },
            ExpressionKind::Case { arms, fallback } => {
                if arms.len() == 0 {
                    return Err(error(node, ValidationErrorKind::InvalidExpression));
                }
                let fallback = self.validate_expression(fallback, environment, node)?;
                let mut nullable = fallback.nullable;
                let ghost outcome = expression_check(*expression, environment@);
                let ghost mut prefix = false;
                proof {
                    assert(arms@.subrange(0, arms@.len() as int) =~= arms@);
                }
                let mut index: usize = 0;
                while index < arms.len()
                    invariant
                        self.wf(),
                        index <= arms@.len(),
                        fields_named(*self.graph, environment@),
                        nullable == (fallback.nullable || prefix),
                        outcome is Some ==> arms_check(arms@, environment@, fallback.scalar) == match arms_check(
                            arms@.subrange(index as int, arms@.len() as int),
                            environment@,
                            fallback.scalar,
                        ) {
                            Some(Ok(rest)) => Some(Ok(prefix || rest)),
                            other => other,
                        },
                        forall|i: int|
                            0 <= i < index ==> checked_expression(*self.graph, #[trigger] arms@[i].when)
                                && checked_expression(*self.graph, arms@[i].result),
                    decreases arms@.len() - index,
                {
                    assert(decreases_to!(*expression => arms@[index as int].when));
                    assert(decreases_to!(*expression => arms@[index as int].result));
                    let ghost rest = arms@.subrange(index as int, arms@.len() as int);
                    proof {
                        assert(rest[0] == arms@[index as int]);
                        assert(rest.drop_first() =~= arms@.subrange(index + 1, arms@.len() as int));
                    }
                    let predicate = self.validate_expression(&arms[index].when, environment, node)?;
                    if predicate.scalar != ScalarType::Boolean {
                        return Err(error(node, ValidationErrorKind::InvalidExpression));
                    }
                    let result = self.validate_expression(&arms[index].result, environment, node)?;
                    if result.scalar != fallback.scalar {
                        return Err(error(node, ValidationErrorKind::InvalidExpression));
                    }
                    nullable = nullable || result.nullable;
                    proof {
                        prefix = prefix || result.nullable;
                    }
                    index = index + 1;
                }
                TypeDescriptor::new(fallback.scalar, nullable)
            },
            ExpressionKind::Cast { operand, target } => {
                let operand = self.validate_expression(operand, environment, node)?;
                if !cast_permitted(operand.scalar, *target) {
                    return Err(error(node, ValidationErrorKind::InvalidExpression));
                }
                TypeDescriptor::new(*target, operand.nullable)
            },
            ExpressionKind::InList { value, candidates } => {
                if candidates.len() == 0 {
                    return Err(error(node, ValidationErrorKind::InvalidExpression));
                }
                let value = self.validate_expression(value, environment, node)?;
                let mut nullable = value.nullable;
                let ghost outcome = expression_check(*expression, environment@);
                let ghost mut prefix = false;
                proof {
                    assert(candidates@.subrange(0, candidates@.len() as int) =~= candidates@);
                }
                let mut index: usize = 0;
                while index < candidates.len()
                    invariant
                        self.wf(),
                        index <= candidates@.len(),
                        fields_named(*self.graph, environment@),
                        nullable == (value.nullable || prefix),
                        outcome is Some ==> candidates_check(candidates@, environment@, value.scalar) == match candidates_check(
                            candidates@.subrange(index as int, candidates@.len() as int),
                            environment@,
                            value.scalar,
                        ) {
                            Some(Ok(rest)) => Some(Ok(prefix || rest)),
                            other => other,
                        },
                        forall|i: int|
                            0 <= i < index ==> checked_expression(*self.graph, #[trigger] candidates@[i]),
                    decreases candidates@.len() - index,
                {
                    assert(decreases_to!(*expression => candidates@[index as int]));
                    let ghost rest = candidates@.subrange(index as int, candidates@.len() as int);
                    proof {
                        assert(rest[0] == candidates@[index as int]);
                        assert(rest.drop_first() =~= candidates@.subrange(index + 1, candidates@.len() as int));
                    }
                    let candidate = self.validate_expression(&candidates[index], environment, node)?;
                    if candidate.scalar != value.scalar {
                        return Err(error(node, ValidationErrorKind::InvalidExpression));
                    }
                    nullable = nullable || candidate.nullable;
                    proof {
                        prefix = prefix || candidate.nullable;
                    }
                    index = index + 1;
                }
                TypeDescriptor::new(ScalarType::Boolean, nullable)
            },
            ExpressionKind::Exists { query } => {
                self.property(query, node)?;
                TypeDescriptor::non_nullable(ScalarType::Boolean)
            },
            ExpressionKind::InQuery { value, query, field } => {
                let value = self.validate_expression(value, environment, node)?;
                let query = self.property(query, node)?;
                if query.schema.len() != 1 || !query.schema[0].id.same(field)
                    || query.schema[0].descriptor.scalar != value.scalar {
                    return Err(error(node, ValidationErrorKind::InvalidExpression));
                }
                TypeDescriptor::new(
                    ScalarType::Boolean,
                    value.nullable || query.schema[0].descriptor.nullable,
                )
            },
        };
        if derived != expression.descriptor {
            return Err(error(node, ValidationErrorKind::IncorrectExpressionDescriptor));
        }
        Ok(derived)
    }

    /// The properties of an already validated dependency.
    fn property(&self, dependency: &NodeId, current: &NodeId) -> (r: Result<
        NodeProperties,
        ValidationError,
    >)
        requires
            self.wf(),
        ensures
            r matches Err(e) ==> (cyclic_id(e) matches Some(d) ==> d == dependency@ && self.unfinished(d)),
            r matches Err(e) ==> !(e.kind is UnreachableNode),
            r matches Ok(p) ==> exists|k: int|
                0 <= k < self.graph.nodes@.len() && #[trigger] self.graph.nodes@[k].id@ == dependency@
                    && schema_view(p.schema@) == schema_view(self.graph.nodes@[k].output_schema@),
            r matches Ok(p) ==> node_named(*self.graph, dependency@) && fields_named(*self.graph, p.schema@),
            r matches Ok(p) ==> named_width(*self.graph, dependency@, p.schema@.len()),
            r is Ok <==> exists|k: int|
                0 <= k < self.graph.nodes@.len() && #[trigger] self.graph.nodes@[k].id@ == dependency@
                    && self.properties@[k] is Some,
            r matches Ok(p) ==> exists|k: int|
                0 <= k < self.graph.nodes@.len() && #[trigger] self.graph.nodes@[k].id@ == dependency@
                    && (self.properties@[k] matches Some(q) && p.collection == q.collection && covers_some_key(
                    p.peer_constant@,
                    p.value_keys@,
                ) == covers_some_key(q.peer_constant@, q.value_keys@)),
    {
        let graph = self.graph;
        match find_node(graph.nodes.as_slice(), dependency) {
            None => Err(error(current, ValidationErrorKind::MissingNode(dependency.clone()))),
            Some(index) => match &self.properties[index] {
                Some(properties) => {
                    let copy = properties.duplicate();
                    proof {
                        lemma_fields_named(*self.graph, index as int, copy.schema@);
                        assert(schema_view(copy.schema@).len() == copy.schema@.len());
                        assert(schema_view(graph.nodes@[index as int].output_schema@).len()
                            == graph.nodes@[index as int].output_schema@.len());
                    }
                    Ok(copy)
                },
                None => Err(error(current, ValidationErrorKind::CyclicGraph(dependency.clone()))),
            },
        }
    }

    fn define_fields(&mut self, node: &NodeId, fields: &[Field]) -> (r: Result<(), ValidationError>)
        requires
            old(self).wf(),
        ensures
            r matches Err(e) ==> cyclic_id(e) is None,
            r matches Err(e) ==> !(e.kind is UnreachableNode),
            final(self).wf(),
            final(self).graph == old(self).graph,
            final(self).states == old(self).states,
            final(self).properties == old(self).properties,
            final(self).ranks == old(self).ranks,
            final(self).clock == old(self).clock,
            r is Ok <==> fresh_fields(old(self).defined_fields@, fields@),
            r is Ok ==> forall|k: int|
                0 <= k < fields@.len() ==> contains_id(final(self).defined_fields@, (#[trigger] fields@[k]).id@),
    {
        let mut index: usize = 0;
        while index < fields.len()
            invariant
                self.wf(),
                self.graph == old(self).graph,
                self.states == old(self).states,
                self.properties == old(self).properties,
                self.ranks == old(self).ranks,
                self.clock == old(self).clock,
                index <= fields@.len(),
                fresh_fields(old(self).defined_fields@, fields@.take(index as int)),
                forall|id: Seq<char>|
                    #[trigger] contains_id(self.defined_fields@, id) <==> contains_id(old(self).defined_fields@, id)
                        || exists|k: int| 0 <= k < index && (#[trigger] fields@[k]).id@ == id,
            decreases fields@.len() - index,
        {
            let ghost before = self.defined_fields@;
            let defined = self.define_field(node, &fields[index].id);
            if defined.is_err() {
                proof {
                    let id = fields@[index as int].id@;
                    assert(contains_id(before, id));
                    if !contains_id(old(self).defined_fields@, id) {
                        let k = choose|k: int| 0 <= k < index && (#[trigger] fields@[k]).id@ == id;
                        assert(fields@[k].id@ == fields@[index as int].id@);
                    }
                }
                return defined;
            }
            proof {
                let id = fields@[index as int].id@;
                assert forall|x: Seq<char>|
                    #[trigger] contains_id(self.defined_fields@, x) <==> contains_id(old(self).defined_fields@, x)
                        || exists|k: int| 0 <= k < index + 1 && (#[trigger] fields@[k]).id@ == x by {
                    if contains_id(self.defined_fields@, x) {
                        let j = choose|j: int| 0 <= j < self.defined_fields@.len() && #[trigger] self.defined_fields@[j]@ == x;
                        if j < before.len() {
                            assert(before[j]@ == x);
                            assert(contains_id(before, x));
                        } else {
                            assert(fields@[index as int].id@ == x);
                        }
                    }
                    if contains_id(before, x) {
                        let j = choose|j: int| 0 <= j < before.len() && #[trigger] before[j]@ == x;
                        assert(self.defined_fields@[j] == before[j]);
                    }
                    if x == id {
                        assert(self.defined_fields@[before.len() as int]@ == x);
                    }
                    if exists|k: int| 0 <= k < index + 1 && (#[trigger] fields@[k]).id@ == x {
                        let k = choose|k: int| 0 <= k < index + 1 && (#[trigger] fields@[k]).id@ == x;
                        if k < index {
                            assert(contains_id(before, x));
                        }
                    }
                }
                assert(fields@.take(index + 1) =~= fields@.take(index as int).push(fields@[index as int]));
                assert(!contains_id(old(self).defined_fields@, id));
                assert forall|k: int| 0 <= k < index implies (#[trigger] fields@[k]).id@ != id by {
                    if fields@[k].id@ == id {
                        assert(contains_id(before, id));
                    }
                }
            }
            index = index + 1;
        }
        assert(fields@.take(index as int) =~= fields@);
        proof {
            assert forall|k: int| 0 <= k < fields@.len() implies contains_id(
                self.defined_fields@,
                (#[trigger] fields@[k]).id@,
            ) by {
                assert(exists|j: int| 0 <= j < index && (#[trigger] fields@[j]).id@ == fields@[k].id@);
            }
        }
        Ok(())
    }

    /// Records a newly defined field; every field is defined at most once per graph.
    fn define_field(&mut self, node: &NodeId, field: &FieldId) -> (r: Result<(), ValidationError>)
        requires
            old(self).wf(),
        ensures
            r matches Err(e) ==> cyclic_id(e) is None,
            r matches Err(e) ==> !(e.kind is UnreachableNode),
            final(self).wf(),
            final(self).graph == old(self).graph,
            final(self).states == old(self).states,
            final(self).properties == old(self).properties,
            final(self).ranks == old(self).ranks,
            final(self).clock == old(self).clock,
            r is Ok <==> !contains_id(old(self).defined_fields@, field@),
            r is Ok ==> final(self).defined_fields@ == old(self).defined_fields@.push(
                final(self).defined_fields@.last(),
            ) && final(self).defined_fields@.last()@ == field@,
            r is Err ==> final(self).defined_fields == old(self).defined_fields,
    {
        if contains_field_id(self.defined_fields.as_slice(), field) {
            return Err(error(node, ValidationErrorKind::DuplicateField(field.clone())));
        }
        self.defined_fields.push(field.clone());
        Ok(())
    }
}

/// The fields that ordering items reference directly.
/// The fields that ordering items read directly, each once, in order of
/// first appearance.
pub open spec fn direct_ordering_fields(items: Seq<OrderingItem>) -> Seq<Seq<char>>
    decreases items.len(),
{
    if items.len() == 0 {
        seq![]
    } else {
        let earlier = direct_ordering_fields(items.drop_last());
        match items.last().expression.kind {
            ExpressionKind::Field(field) => if earlier.contains(field@) {
                earlier
            } else {
                earlier.push(field@)
            },
            _ => earlier,
        }
    }
}

fn ordering_fields(items: &[OrderingItem]) -> (fields: Vec<FieldId>)
    ensures
        fields@.len() <= items@.len(),
        id_views(fields@) == direct_ordering_fields(items@),
{
    let mut fields: Vec<FieldId> = Vec::new();
    let mut index: usize = 0;
    while index < items.len()
        invariant
            index <= items@.len(),
            fields@.len() <= index,
            id_views(fields@) == direct_ordering_fields(items@.take(index as int)),
        decreases items@.len() - index,
    {
        proof {
            assert(items@.take(index + 1).drop_last() =~= items@.take(index as int));
            assert(items@.take(index + 1).last() == items@[index as int]);
            assert forall|id: Seq<char>| contains_id(fields@, id) <==> id_views(fields@).contains(id) by {
                if contains_id(fields@, id) {
                    let k = choose|k: int| 0 <= k < fields@.len() && #[trigger] fields@[k]@ == id;
                    assert(id_views(fields@)[k] == id);
                }
                if id_views(fields@).contains(id) {
                    let k = choose|k: int| 0 <= k < id_views(fields@).len() && id_views(fields@)[k] == id;
                    assert(fields@[k]@ == id);
                }
            }
        }
        let ghost before = fields@;
        if let Some(field) = direct_expression_field(&items[index].expression) {
            if !contains_field_id(fields.as_slice(), &field) {
                fields.push(field);
                assert(id_views(fields@) =~= id_views(before).push(fields@.last()@));
            }
        }
        index = index + 1;
    }
    assert(items@.take(index as int) =~= items@);
    fields
}

} // verus!
