//! Arena-indexed expression nodes.
//!
//! An expression is a tagged variant stored in an [`Arena<AExpr>`]; children
//! are referenced by [`Node`] handle rather than by owned sub-trees.  A
//! well-formed expression arena is append-only in the parent direction:
//! every child handle is strictly smaller than the handle of the node that
//! holds it, which is what makes traversal and type inference terminate.

use vstd::prelude::*;

use crate::arena::Arena;
use crate::arena::Node;
use crate::error::PlanError;
use crate::schema::DataType;
use crate::schema::Field;
use crate::schema::Schema;

verus! {

use vstd::string::StringExecFns;

/// Binary operators over two column expressions.
#[derive(Clone, Copy, PartialEq, Eq, Structural, Debug)]
pub enum Operator {
    Eq,
    NotEq,
    Lt,
    LtEq,
    Gt,
    GtEq,
    Plus,
    Minus,
    Multiply,
    Divide,
    Modulus,
    And,
    Or,
}

impl Operator {
    /// Whether the operator compares its sides, yielding a boolean column.
    pub open spec fn spec_is_comparison(self) -> bool {
        match self {
            Operator::Eq
            | Operator::NotEq
            | Operator::Lt
            | Operator::LtEq
            | Operator::Gt
            | Operator::GtEq
            | Operator::And
            | Operator::Or => true,
            _ => false,
        }
    }

    pub fn is_comparison(self) -> (r: bool)
        ensures
            r == self.spec_is_comparison(),
    {
        match self {
            Operator::Eq
            | Operator::NotEq
            | Operator::Lt
            | Operator::LtEq
            | Operator::Gt
            | Operator::GtEq
            | Operator::And
            | Operator::Or => true,
            _ => false,
        }
    }
}

/// A constant embedded in an expression tree.  Numeric constants of the
/// execution layer that this planner never inspects are carried as the
/// variants below; fractional constants live with the execution layer.
#[derive(Debug)]
pub enum LiteralValue {
    Boolean(bool),
    Int64(i64),
    Utf8(String),
    Null,
}

impl LiteralValue {
    pub open spec fn spec_dtype(&self) -> DataType {
        match self {
            LiteralValue::Boolean(_) => DataType::Boolean,
            LiteralValue::Int64(_) => DataType::Int64,
            LiteralValue::Utf8(_) => DataType::Utf8,
            LiteralValue::Null => DataType::Utf8,
        }
    }

    pub fn dtype(&self) -> (r: DataType)
        ensures
            r == self.spec_dtype(),
    {
        match self {
            LiteralValue::Boolean(_) => DataType::Boolean,
            LiteralValue::Int64(_) => DataType::Int64,
            LiteralValue::Utf8(_) => DataType::Utf8,
            LiteralValue::Null => DataType::Utf8,
        }
    }
}

/// Aggregations over one expression, applied per group.
#[derive(Clone, Copy, PartialEq, Eq, Structural, Debug)]
pub enum AAggExpr {
    Min(Node),
    Max(Node),
    Median(Node),
    NUnique(Node),
    First(Node),
    Last(Node),
    Mean(Node),
    List(Node),
    Count(Node),
    Quantile(Node),
    Sum(Node),
    Std(Node),
    Var(Node),
    AggGroups(Node),
}

impl AAggExpr {
    /// The single child expression the aggregation is applied to.
    pub open spec fn spec_input(self) -> Node {
        match self {
            AAggExpr::Min(n) => n,
            AAggExpr::Max(n) => n,
            AAggExpr::Median(n) => n,
            AAggExpr::NUnique(n) => n,
            AAggExpr::First(n) => n,
            AAggExpr::Last(n) => n,
            AAggExpr::Mean(n) => n,
            AAggExpr::List(n) => n,
            AAggExpr::Count(n) => n,
            AAggExpr::Quantile(n) => n,
            AAggExpr::Sum(n) => n,
            AAggExpr::Std(n) => n,
            AAggExpr::Var(n) => n,
            AAggExpr::AggGroups(n) => n,
        }
    }

    pub fn input(self) -> (r: Node)
        ensures
            r == self.spec_input(),
    {
        match self {
            AAggExpr::Min(n) => n,
            AAggExpr::Max(n) => n,
            AAggExpr::Median(n) => n,
            AAggExpr::NUnique(n) => n,
            AAggExpr::First(n) => n,
            AAggExpr::Last(n) => n,
            AAggExpr::Mean(n) => n,
            AAggExpr::List(n) => n,
            AAggExpr::Count(n) => n,
            AAggExpr::Quantile(n) => n,
            AAggExpr::Sum(n) => n,
            AAggExpr::Std(n) => n,
            AAggExpr::Var(n) => n,
            AAggExpr::AggGroups(n) => n,
        }
    }

    /// The output type of the aggregation, given its input's type.
    pub open spec fn spec_dtype(self, input: DataType) -> DataType {
        match self {
            AAggExpr::Count(_) | AAggExpr::NUnique(_) => DataType::UInt32,
            AAggExpr::Mean(_)
            | AAggExpr::Median(_)
            | AAggExpr::Quantile(_)
            | AAggExpr::Std(_)
            | AAggExpr::Var(_) => DataType::Float64,
            AAggExpr::List(_) | AAggExpr::AggGroups(_) => DataType::List,
            _ => input,
        }
    }
}

/// An expression node.  Child expressions are referenced by handle into the
/// expression arena.
#[derive(Debug)]
pub enum AExpr {
    Alias(Node, String),
    Column(String),
    Literal(LiteralValue),
    BinaryExpr { left: Node, op: Operator, right: Node },
    Not(Node),
    IsNotNull(Node),
    IsNull(Node),
    Cast { expr: Node, data_type: DataType },
    Sort { expr: Node, reverse: bool },
    SortBy { expr: Node, by: Node },
    Filter { input: Node, by: Node },
    Agg(AAggExpr),
    Ternary { predicate: Node, truthy: Node, falsy: Node },
    Shift { input: Node, periods: i64 },
    Window { function: Node, partition_by: Node, order_by: Option<Node> },
    Slice { input: Node, offset: i64, length: usize },
    Reverse(Node),
    Duplicated(Node),
    IsUnique(Node),
    Explode(Node),
    BinaryFunction { input_a: Node, input_b: Node },
    Except(Node),
    Wildcard,
}

/// The immediate children of an expression node, in the order the
/// traversal machinery pushes them.
pub open spec fn children_of(e: AExpr) -> Seq<Node> {
    match e {
        AExpr::Column(_) | AExpr::Literal(_) | AExpr::Wildcard => Seq::empty(),
        AExpr::Alias(n, _) => seq![n],
        AExpr::Not(n) => seq![n],
        AExpr::BinaryExpr { left, op: _, right } => seq![left, right],
        AExpr::IsNull(n) => seq![n],
        AExpr::IsNotNull(n) => seq![n],
        AExpr::Cast { expr, .. } => seq![expr],
        AExpr::Sort { expr, .. } => seq![expr],
        AExpr::SortBy { expr, by } => seq![expr, by],
        AExpr::Filter { input, by } => seq![input, by],
        AExpr::Agg(a) => seq![a.spec_input()],
        AExpr::Ternary { predicate, truthy, falsy } => seq![truthy, falsy, predicate],
        AExpr::Shift { input, .. } => seq![input],
        AExpr::Window { function, partition_by, order_by } => match order_by {
            Some(o) => seq![function, partition_by, o],
            None => seq![function, partition_by],
        },
        AExpr::Slice { input, .. } => seq![input],
        AExpr::Reverse(n) => seq![n],
        AExpr::Duplicated(n) => seq![n],
        AExpr::IsUnique(n) => seq![n],
        AExpr::Explode(n) => seq![n],
        AExpr::BinaryFunction { input_a, input_b } => seq![input_a, input_b],
        AExpr::Except(n) => seq![n],
    }
}

impl AExpr {
    /// Pushes the handles of this node's immediate children onto `container`.
    pub fn nodes(&self, container: &mut Vec<Node>)
        ensures
            final (container)@ == old(container)@ + children_of(*self),
    {
        match self {
            AExpr::Column(_) | AExpr::Literal(_) | AExpr::Wildcard => {}
            AExpr::Alias(n, _) => container.push(*n),
            AExpr::Not(n) => container.push(*n),
            AExpr::BinaryExpr { left, op: _, right } => {
                container.push(*left);
                container.push(*right);
            }
            AExpr::IsNull(n) => container.push(*n),
            AExpr::IsNotNull(n) => container.push(*n),
            AExpr::Cast { expr, .. } => container.push(*expr),
            AExpr::Sort { expr, .. } => container.push(*expr),
            AExpr::SortBy { expr, by } => {
                container.push(*expr);
                container.push(*by);
            }
            AExpr::Filter { input, by } => {
                container.push(*input);
                container.push(*by);
            }
            AExpr::Agg(a) => container.push(a.input()),
            AExpr::Ternary { predicate, truthy, falsy } => {
                container.push(*truthy);
                container.push(*falsy);
                container.push(*predicate);
            }
            AExpr::Shift { input, .. } => container.push(*input),
            AExpr::Window { function, partition_by, order_by } => {
                container.push(*function);
                container.push(*partition_by);
                if let Some(o) = order_by {
                    container.push(*o);
                }
            }
            AExpr::Slice { input, .. } => container.push(*input),
            AExpr::Reverse(n) => container.push(*n),
            AExpr::Duplicated(n) => container.push(*n),
            AExpr::IsUnique(n) => container.push(*n),
            AExpr::Explode(n) => container.push(*n),
            AExpr::BinaryFunction { input_a, input_b } => {
                container.push(*input_a);
                container.push(*input_b);
            }
            AExpr::Except(n) => container.push(*n),
        }
        proof {
            assert(final (container)@ =~= old(container)@ + children_of(*self));
        }
    }
}

/// Whether slot `i` of the expression arena is either empty or holds a node
/// whose children all sit strictly below `i` and are present.
pub open spec fn expr_slot_ok(e: Seq<Option<AExpr>>, i: int) -> bool {
    e[i] matches Some(x) ==> forall|k: int|
        0 <= k < children_of(x).len() ==> (#[trigger] children_of(x)[k]).0 < i && e[children_of(
            x,
        )[k].0 as int] is Some
}

/// A well-formed expression arena: children sit strictly below their
/// parents and are present.  Construction through [`Arena::add`] preserves
/// this, since a node can only refer to handles that already exist.
pub open spec fn expr_wf(e: Seq<Option<AExpr>>) -> bool {
    forall|i: int| 0 <= i < e.len() ==> expr_slot_ok(e, i)
}

/// A handle that points at a present slot of the expression arena.
pub open spec fn expr_node_ok(e: Seq<Option<AExpr>>, n: Node) -> bool {
    n.0 < e.len() && e[n.0 as int] is Some
}

/// The inferred output (name, type) of the expression rooted at slot `i`
/// against input schema `s`, or `None` when a referenced column is missing
/// from `s` or a wildcard survives to this level.
pub open spec fn spec_to_field(
    e: Seq<Option<AExpr>>,
    s: Seq<Field>,
    i: int,
) -> Option<(Seq<char>, DataType)>
    decreases i, 1int when 0 <= i
{
    if 0 <= i < e.len() {
        match e[i] {
            Some(x) => spec_to_field_of(e, s, x, i),
            None => None,
        }
    } else {
        None
    }
}

/// Case table of [`spec_to_field`] for the node value `x` found at slot `i`.
pub open spec fn spec_to_field_of(
    e: Seq<Option<AExpr>>,
    s: Seq<Field>,
    x: AExpr,
    i: int,
) -> Option<(Seq<char>, DataType)>
    decreases i, 0int when 0 <= i
{
    match x {
        AExpr::Column(name) => match crate::schema::fields_lookup(s, name@) {
            Some(dt) => Some((name@, dt)),
            None => None,
        },
        AExpr::Alias(c, name) => if c.0 < i {
            match spec_to_field(e, s, c.0 as int) {
                Some(f) => Some((name@, f.1)),
                None => None,
            }
        } else {
            None
        },
        AExpr::Literal(lv) => Some(("literal"@, lv.spec_dtype())),
        AExpr::BinaryExpr { left, op, right } => if left.0 < i && right.0 < i {
            match (spec_to_field(e, s, left.0 as int), spec_to_field(e, s, right.0 as int)) {
                (Some(lf), Some(_rf)) => Some(
                    (lf.0, if op.spec_is_comparison() {
                        DataType::Boolean
                    } else {
                        lf.1
                    }),
                ),
                _ => None,
            }
        } else {
            None
        },
        AExpr::Not(c) | AExpr::IsNull(c) | AExpr::IsNotNull(c) | AExpr::Duplicated(c)
        | AExpr::IsUnique(c) => if c.0 < i {
            match spec_to_field(e, s, c.0 as int) {
                Some(f) => Some((f.0, DataType::Boolean)),
                None => None,
            }
        } else {
            None
        },
        AExpr::Cast { expr, data_type } => if expr.0 < i {
            match spec_to_field(e, s, expr.0 as int) {
                Some(f) => Some((f.0, data_type)),
                None => None,
            }
        } else {
            None
        },
        AExpr::Sort { expr, .. } => if expr.0 < i {
            spec_to_field(e, s, expr.0 as int)
        } else {
            None
        },
        AExpr::SortBy { expr, .. } => if expr.0 < i {
            spec_to_field(e, s, expr.0 as int)
        } else {
            None
        },
        AExpr::Filter { input, .. } => if input.0 < i {
            spec_to_field(e, s, input.0 as int)
        } else {
            None
        },
        AExpr::Agg(a) => if a.spec_input().0 < i {
            match spec_to_field(e, s, a.spec_input().0 as int) {
                Some(f) => Some((f.0, a.spec_dtype(f.1))),
                None => None,
            }
        } else {
            None
        },
        AExpr::Ternary { truthy, .. } => if truthy.0 < i {
            spec_to_field(e, s, truthy.0 as int)
        } else {
            None
        },
        AExpr::Shift { input, .. } => if input.0 < i {
            spec_to_field(e, s, input.0 as int)
        } else {
            None
        },
        AExpr::Window { function, .. } => if function.0 < i {
            spec_to_field(e, s, function.0 as int)
        } else {
            None
        },
        AExpr::Slice { input, .. } => if input.0 < i {
            spec_to_field(e, s, input.0 as int)
        } else {
            None
        },
        AExpr::Reverse(c) | AExpr::Explode(c) | AExpr::Except(c) => if c.0 < i {
            spec_to_field(e, s, c.0 as int)
        } else {
            None
        },
        AExpr::BinaryFunction { input_a, .. } => if input_a.0 < i {
            spec_to_field(e, s, input_a.0 as int)
        } else {
            None
        },
        AExpr::Wildcard => None,
    }
}

/// Resolves the output field of the expression rooted at `node` against
/// input schema `schema`: its name and data type.  Fails with the missing
/// column's name when a column reference does not resolve, and refuses a
/// wildcard, which has no field of its own at this level.
pub fn to_field(arena: &Arena<AExpr>, node: Node, schema: &Schema) -> (r: Result<
    Field,
    PlanError,
>)
    requires
        expr_wf(arena.view()),
        expr_node_ok(arena.view(), node),
    ensures
        match r {
            Ok(f) => spec_to_field(arena.view(), schema.spec_fields(), node.0 as int) == Some((
                f.name@,
                f.dtype,
            )),
            Err(e) => spec_to_field(arena.view(), schema.spec_fields(), node.0 as int) is None && (e
                is FieldNotFound || e is InvalidOperation) && (e matches PlanError::FieldNotFound(
                nm,
            ) ==> crate::schema::fields_lookup(schema.spec_fields(), nm@) is None),
        },
    decreases node.0,
{
    let x = arena.get(node);
    proof {
        assert(expr_slot_ok(arena.view(), node.0 as int));
    }
    match x {
        AExpr::Column(name) => match schema.field_with_name(name) {
            Some(f) => Ok(Field::new(name.as_str(), f.data_type())),
            None => Err(PlanError::FieldNotFound(name.clone())),
        },
        AExpr::Alias(c, name) => {
            proof {
                assert(children_of(arena.view()[node.0 as int]->Some_0) == seq![*c]);
                assert(children_of(arena.view()[node.0 as int]->Some_0)[0] == *c);
            }
            match to_field(arena, *c, schema) {
                Ok(f) => Ok(Field::new(name.as_str(), f.data_type())),
                Err(e) => Err(e),
            }
        }
        AExpr::Literal(lv) => Ok(Field::new("literal", lv.dtype())),
        AExpr::BinaryExpr { left, op, right } => {
            proof {
                let cs = children_of(arena.view()[node.0 as int]->Some_0);
                assert(cs[0] == *left && cs[1] == *right);
            }
            let lf = to_field(arena, *left, schema)?;
            match to_field(arena, *right, schema) {
                Ok(_) => {
                    if op.is_comparison() {
                        Ok(Field::new(lf.name().as_str(), DataType::Boolean))
                    } else {
                        Ok(lf)
                    }
                }
                Err(e) => Err(e),
            }
        }
        AExpr::Not(c) | AExpr::IsNull(c) | AExpr::IsNotNull(c) | AExpr::Duplicated(c)
        | AExpr::IsUnique(c) => {
            proof {
                assert(children_of(arena.view()[node.0 as int]->Some_0)[0] == *c);
            }
            let f = to_field(arena, *c, schema)?;
            Ok(Field::new(f.name().as_str(), DataType::Boolean))
        }
        AExpr::Cast { expr, data_type } => {
            proof {
                assert(children_of(arena.view()[node.0 as int]->Some_0)[0] == *expr);
            }
            let f = to_field(arena, *expr, schema)?;
            Ok(Field::new(f.name().as_str(), *data_type))
        }
        AExpr::Sort { expr, .. } => {
            proof {
                assert(children_of(arena.view()[node.0 as int]->Some_0)[0] == *expr);
            }
            to_field(arena, *expr, schema)
        }
        AExpr::SortBy { expr, .. } => {
            proof {
                assert(children_of(arena.view()[node.0 as int]->Some_0)[0] == *expr);
            }
            to_field(arena, *expr, schema)
        }
        AExpr::Filter { input, .. } => {
            proof {
                assert(children_of(arena.view()[node.0 as int]->Some_0)[0] == *input);
            }
            to_field(arena, *input, schema)
        }
        AExpr::Agg(a) => {
            proof {
                assert(children_of(arena.view()[node.0 as int]->Some_0)[0] == a.spec_input());
            }
            let f = to_field(arena, a.input(), schema)?;
            let dt = match a {
                AAggExpr::Count(_) | AAggExpr::NUnique(_) => DataType::UInt32,
                AAggExpr::Mean(_) | AAggExpr::Median(_) | AAggExpr::Quantile(_) | AAggExpr::Std(_)
                | AAggExpr::Var(_) => DataType::Float64,
                AAggExpr::List(_) | AAggExpr::AggGroups(_) => DataType::List,
                _ => f.data_type(),
            };
            Ok(Field::new(f.name().as_str(), dt))
        }
        AExpr::Ternary { truthy, .. } => {
            proof {
                assert(children_of(arena.view()[node.0 as int]->Some_0)[0] == *truthy);
            }
            to_field(arena, *truthy, schema)
        }
        AExpr::Shift { input, .. } => {
            proof {
                assert(children_of(arena.view()[node.0 as int]->Some_0)[0] == *input);
            }
            to_field(arena, *input, schema)
        }
        AExpr::Window { function, .. } => {
            proof {
                assert(children_of(arena.view()[node.0 as int]->Some_0)[0] == *function);
            }
            to_field(arena, *function, schema)
        }
        AExpr::Slice { input, .. } => {
            proof {
                assert(children_of(arena.view()[node.0 as int]->Some_0)[0] == *input);
            }
            to_field(arena, *input, schema)
        }
        AExpr::Reverse(c) | AExpr::Explode(c) | AExpr::Except(c) => {
            proof {
                assert(children_of(arena.view()[node.0 as int]->Some_0)[0] == *c);
            }
            to_field(arena, *c, schema)
        }
        AExpr::BinaryFunction { input_a, .. } => {
            proof {
                assert(children_of(arena.view()[node.0 as int]->Some_0)[0] == *input_a);
            }
            to_field(arena, *input_a, schema)
        }
        AExpr::Wildcard => Err(
            PlanError::InvalidOperation(
                String::from_str("a wildcard cannot be resolved to a single field"),
            ),
        ),
    }
}

/// The root column references of the expression rooted at slot `i`: every
/// column or wildcard node of the sub-tree, in left-to-right order.
pub open spec fn spec_root_nodes(e: Seq<Option<AExpr>>, i: int) -> Seq<Node>
    decreases i, 1int, 0int when 0 <= i
{
    if 0 <= i < e.len() {
        match e[i] {
            Some(AExpr::Column(_)) => seq![Node(i as usize)],
            Some(AExpr::Wildcard) => seq![Node(i as usize)],
            Some(x) => root_nodes_of_children(e, children_of(x), 0, i),
            None => Seq::empty(),
        }
    } else {
        Seq::empty()
    }
}

/// Concatenation of the root nodes of the children `cs[k..]`, all of which
/// must sit strictly below `bound`.
pub open spec fn root_nodes_of_children(e: Seq<Option<AExpr>>, cs: Seq<Node>, k: int, bound: int) -> Seq<
    Node,
>
    decreases bound, 0int, cs.len() - k when 0 <= bound
{
    if k < 0 || k >= cs.len() || cs[k].0 >= bound {
        Seq::empty()
    } else {
        spec_root_nodes(e, cs[k].0 as int) + root_nodes_of_children(e, cs, k + 1, bound)
    }
}

/// The names of the root column references of the expression at slot `i`,
/// in the order of [`spec_root_nodes`]; wildcards contribute no name.
pub open spec fn spec_root_names(e: Seq<Option<AExpr>>, i: int) -> Seq<Seq<char>>
    decreases i, 1int, 0int when 0 <= i
{
    if 0 <= i < e.len() {
        match e[i] {
            Some(AExpr::Column(name)) => seq![name@],
            Some(AExpr::Wildcard) => Seq::empty(),
            Some(x) => root_names_of_children(e, children_of(x), 0, i),
            None => Seq::empty(),
        }
    } else {
        Seq::empty()
    }
}

pub open spec fn root_names_of_children(
    e: Seq<Option<AExpr>>,
    cs: Seq<Node>,
    k: int,
    bound: int,
) -> Seq<Seq<char>>
    decreases bound, 0int, cs.len() - k when 0 <= bound
{
    if k < 0 || k >= cs.len() || cs[k].0 >= bound {
        Seq::empty()
    } else {
        spec_root_names(e, cs[k].0 as int) + root_names_of_children(e, cs, k + 1, bound)
    }
}

/// Whether every root column reference of the expression at slot `i`
/// resolves against schema `s`.  Wildcards resolve trivially.
pub open spec fn spec_roots_resolve(e: Seq<Option<AExpr>>, s: Seq<Field>, i: int) -> bool
    decreases i, 1int, 0int when 0 <= i
{
    if 0 <= i < e.len() {
        match e[i] {
            Some(AExpr::Column(name)) => crate::schema::fields_have_name(s, name@),
            Some(AExpr::Wildcard) => true,
            Some(x) => children_resolve(e, s, children_of(x), 0, i),
            None => true,
        }
    } else {
        true
    }
}

pub open spec fn children_resolve(
    e: Seq<Option<AExpr>>,
    s: Seq<Field>,
    cs: Seq<Node>,
    k: int,
    bound: int,
) -> bool
    decreases bound, 0int, cs.len() - k when 0 <= bound
{
    if k < 0 || k >= cs.len() || cs[k].0 >= bound {
        true
    } else {
        spec_roots_resolve(e, s, cs[k].0 as int) && children_resolve(e, s, cs, k + 1, bound)
    }
}

/// Whether the expression at slot `i` holds an alias node anywhere.
pub open spec fn spec_has_alias(e: Seq<Option<AExpr>>, i: int) -> bool
    decreases i, 1int, 0int when 0 <= i
{
    if 0 <= i < e.len() {
        match e[i] {
            Some(AExpr::Alias(_, _)) => true,
            Some(x) => children_have_alias(e, children_of(x), 0, i),
            None => false,
        }
    } else {
        false
    }
}

pub open spec fn children_have_alias(e: Seq<Option<AExpr>>, cs: Seq<Node>, k: int, bound: int) -> bool
    decreases bound, 0int, cs.len() - k when 0 <= bound
{
    if k < 0 || k >= cs.len() || cs[k].0 >= bound {
        false
    } else {
        spec_has_alias(e, cs[k].0 as int) || children_have_alias(e, cs, k + 1, bound)
    }
}

/// Every root node of a well-formed expression is a present column or
/// wildcard slot of the arena.
pub proof fn lemma_root_nodes_shape(e: Seq<Option<AExpr>>, i: int)
    requires
        expr_wf(e),
        e.len() <= usize::MAX,
        0 <= i < e.len(),
        e[i] is Some,
    ensures
        forall|k: int| 0 <= k < spec_root_nodes(e, i).len() ==> {
            let r = #[trigger] spec_root_nodes(e, i)[k];
            &&& r.0 < e.len()
            &&& (e[r.0 as int] matches Some(x) && (x is Column || x is Wildcard))
        },
    decreases i, 1int, 0int,
{
    match e[i] {
        Some(AExpr::Column(_)) => {}
        Some(AExpr::Wildcard) => {}
        Some(x) => {
            assert(expr_slot_ok(e, i));
            lemma_root_nodes_children_shape(e, children_of(x), 0, i);
            assert(spec_root_nodes(e, i) == root_nodes_of_children(e, children_of(x), 0, i));
            assert forall|k: int| 0 <= k < spec_root_nodes(e, i).len() implies {
                let r = #[trigger] spec_root_nodes(e, i)[k];
                &&& r.0 < e.len()
                &&& (e[r.0 as int] matches Some(y) && (y is Column || y is Wildcard))
            } by {
                let r0 = root_nodes_of_children(e, children_of(x), 0, i)[k];
                assert(r0 == spec_root_nodes(e, i)[k]);
            }
        }
        None => {}
    }
}

proof fn lemma_root_nodes_children_shape(e: Seq<Option<AExpr>>, cs: Seq<Node>, k: int, bound: int)
    requires
        expr_wf(e),
        e.len() <= usize::MAX,
        0 <= bound <= e.len(),
        forall|j: int| 0 <= j < cs.len() ==> (#[trigger] cs[j]).0 < e.len() && e[cs[j].0 as int]
            is Some,
    ensures
        forall|m: int| 0 <= m < root_nodes_of_children(e, cs, k, bound).len() ==> {
            let r = #[trigger] root_nodes_of_children(e, cs, k, bound)[m];
            &&& r.0 < e.len()
            &&& (e[r.0 as int] matches Some(x) && (x is Column || x is Wildcard))
        },
    decreases bound, 0int, cs.len() - k,
{
    if k < 0 || k >= cs.len() || cs[k].0 >= bound {
    } else {
        lemma_root_nodes_shape(e, cs[k].0 as int);
        lemma_root_nodes_children_shape(e, cs, k + 1, bound);
    }
}

/// Collects the root column references of the expression rooted at `node`
/// onto `out`, in left-to-right order.
pub fn collect_roots(arena: &Arena<AExpr>, node: Node, out: &mut Vec<Node>)
    requires
        expr_wf(arena.view()),
        expr_node_ok(arena.view(), node),
    ensures
        final (out)@ == old(out)@ + spec_root_nodes(arena.view(), node.0 as int),
    decreases node.0,
{
    let x = arena.get(node);
    proof {
        assert(expr_slot_ok(arena.view(), node.0 as int));
    }
    match x {
        AExpr::Column(_) | AExpr::Wildcard => {
            out.push(node);
            proof {
                assert(out@ =~= old(out)@ + spec_root_nodes(arena.view(), node.0 as int));
            }
            return ;
        }
        _ => {}
    }
    let mut cs: Vec<Node> = Vec::new();
    x.nodes(&mut cs);
    proof {
        assert(cs@ =~= children_of(arena.view()[node.0 as int]->Some_0));
    }
    let n = cs.len();
    let mut k: usize = 0;
    while k < n
        invariant
            k <= n,
            n == cs@.len(),
            expr_wf(arena.view()),
            node.0 < arena.view().len(),
            cs@ == children_of(arena.view()[node.0 as int]->Some_0),
            arena.view()[node.0 as int] is Some,
            forall|j: int| 0 <= j < cs@.len() ==> (#[trigger] cs@[j]).0 < node.0
                && arena.view()[cs@[j].0 as int] is Some,
            out@ + root_nodes_of_children(arena.view(), cs@, k as int, node.0 as int) == old(
                out,
            )@ + root_nodes_of_children(arena.view(), cs@, 0, node.0 as int),
        decreases n - k,
    {
        proof {
            assert(root_nodes_of_children(arena.view(), cs@, k as int, node.0 as int)
                == spec_root_nodes(arena.view(), cs@[k as int].0 as int)
                + root_nodes_of_children(arena.view(), cs@, k as int + 1, node.0 as int));
        }
        let ghost before = out@;
        collect_roots(arena, cs[k], out);
        proof {
            assert(out@ + root_nodes_of_children(arena.view(), cs@, k as int + 1, node.0 as int)
                =~= before + root_nodes_of_children(arena.view(), cs@, k as int, node.0 as int));
        }
        k += 1;
    }
    proof {
        assert(out@ + root_nodes_of_children(arena.view(), cs@, n as int, node.0 as int) =~= out@);
        assert(out@ =~= old(out)@ + spec_root_nodes(arena.view(), node.0 as int));
    }
}


/// Collects the names of the root column references of the expression
/// rooted at `node` onto `out`, in left-to-right order; wildcard roots
/// contribute no name.
pub fn collect_root_names(arena: &Arena<AExpr>, node: Node, out: &mut Vec<String>)
    requires
        expr_wf(arena.view()),
        expr_node_ok(arena.view(), node),
    ensures
        names_of(final(out)@) == names_of(old(out)@) + spec_root_names(arena.view(), node.0 as int),
        final(out)@.len() >= old(out)@.len(),
        forall|i: int| 0 <= i < old(out)@.len() ==> final(out)@[i] == old(out)@[i],
    decreases node.0,
{
    let x = arena.get(node);
    proof {
        assert(expr_slot_ok(arena.view(), node.0 as int));
    }
    match x {
        AExpr::Column(name) => {
            out.push(name.clone());
            proof {
                assert(names_of(out@) =~= names_of(old(out)@) + spec_root_names(
                    arena.view(),
                    node.0 as int,
                ));
            }
            return ;
        }
        AExpr::Wildcard => {
            proof {
                assert(names_of(out@) =~= names_of(old(out)@) + spec_root_names(
                    arena.view(),
                    node.0 as int,
                ));
            }
            return ;
        }
        _ => {}
    }
    let mut cs: Vec<Node> = Vec::new();
    x.nodes(&mut cs);
    proof {
        assert(cs@ =~= children_of(arena.view()[node.0 as int]->Some_0));
    }
    let n = cs.len();
    let mut k: usize = 0;
    while k < n
        invariant
            k <= n,
            n == cs@.len(),
            expr_wf(arena.view()),
            node.0 < arena.view().len(),
            cs@ == children_of(arena.view()[node.0 as int]->Some_0),
            arena.view()[node.0 as int] is Some,
            forall|j: int| 0 <= j < cs@.len() ==> (#[trigger] cs@[j]).0 < node.0
                && arena.view()[cs@[j].0 as int] is Some,
            out@.len() >= old(out)@.len(),
            forall|i: int| 0 <= i < old(out)@.len() ==> out@[i] == old(out)@[i],
            names_of(out@) + root_names_of_children(arena.view(), cs@, k as int, node.0 as int)
                == names_of(old(out)@) + root_names_of_children(
                arena.view(),
                cs@,
                0,
                node.0 as int,
            ),
        decreases n - k,
    {
        proof {
            assert(root_names_of_children(arena.view(), cs@, k as int, node.0 as int)
                == spec_root_names(arena.view(), cs@[k as int].0 as int) + root_names_of_children(
                arena.view(),
                cs@,
                k as int + 1,
                node.0 as int,
            ));
        }
        let ghost before = names_of(out@);
        collect_root_names(arena, cs[k], out);
        proof {
            assert(names_of(out@) + root_names_of_children(
                arena.view(),
                cs@,
                k as int + 1,
                node.0 as int,
            ) =~= before + root_names_of_children(arena.view(), cs@, k as int, node.0 as int));
        }
        k += 1;
    }
    proof {
        assert(names_of(out@) + root_names_of_children(arena.view(), cs@, n as int, node.0 as int)
            =~= names_of(out@));
        assert(names_of(out@) =~= names_of(old(out)@) + spec_root_names(
            arena.view(),
            node.0 as int,
        ));
    }
}

/// The character sequences behind a list of names.
pub open spec fn names_of(v: Seq<String>) -> Seq<Seq<char>> {
    crate::names::names_view(v)
}

/// Whether every root column reference of the expression rooted at `node`
/// resolves against `schema`.
pub fn check_down_node(arena: &Arena<AExpr>, node: Node, schema: &Schema) -> (r: bool)
    requires
        expr_wf(arena.view()),
        expr_node_ok(arena.view(), node),
    ensures
        r == spec_roots_resolve(arena.view(), schema.spec_fields(), node.0 as int),
    decreases node.0,
{
    let x = arena.get(node);
    proof {
        assert(expr_slot_ok(arena.view(), node.0 as int));
    }
    match x {
        AExpr::Column(name) => schema.index_of(name).is_some(),
        AExpr::Wildcard => true,
        _ => {
            let mut cs: Vec<Node> = Vec::new();
            x.nodes(&mut cs);
            proof {
                assert(cs@ =~= children_of(arena.view()[node.0 as int]->Some_0));
            }
            let n = cs.len();
            let mut k: usize = 0;
            while k < n
                invariant
                    k <= n,
                    n == cs@.len(),
                    expr_wf(arena.view()),
                    node.0 < arena.view().len(),
                    cs@ == children_of(arena.view()[node.0 as int]->Some_0),
                    arena.view()[node.0 as int] is Some,
                    forall|j: int| 0 <= j < cs@.len() ==> (#[trigger] cs@[j]).0 < node.0
                        && arena.view()[cs@[j].0 as int] is Some,
                    children_resolve(arena.view(), schema.spec_fields(), cs@, 0, node.0 as int)
                        == children_resolve(
                        arena.view(),
                        schema.spec_fields(),
                        cs@,
                        k as int,
                        node.0 as int,
                    ),
                decreases n - k,
            {
                if !check_down_node(arena, cs[k], schema) {
                    return false;
                }
                k += 1;
            }
            true
        }
    }
}

/// Whether the expression rooted at `node` holds an alias anywhere.
pub fn expr_has_alias(arena: &Arena<AExpr>, node: Node) -> (r: bool)
    requires
        expr_wf(arena.view()),
        expr_node_ok(arena.view(), node),
    ensures
        r == spec_has_alias(arena.view(), node.0 as int),
    decreases node.0,
{
    let x = arena.get(node);
    proof {
        assert(expr_slot_ok(arena.view(), node.0 as int));
    }
    match x {
        AExpr::Alias(_, _) => true,
        _ => {
            let mut cs: Vec<Node> = Vec::new();
            x.nodes(&mut cs);
            proof {
                assert(cs@ =~= children_of(arena.view()[node.0 as int]->Some_0));
            }
            let n = cs.len();
            let mut k: usize = 0;
            while k < n
                invariant
                    k <= n,
                    n == cs@.len(),
                    expr_wf(arena.view()),
                    node.0 < arena.view().len(),
                    cs@ == children_of(arena.view()[node.0 as int]->Some_0),
                    arena.view()[node.0 as int] is Some,
                    forall|j: int| 0 <= j < cs@.len() ==> (#[trigger] cs@[j]).0 < node.0
                        && arena.view()[cs@[j].0 as int] is Some,
                    children_have_alias(arena.view(), cs@, 0, node.0 as int)
                        == children_have_alias(arena.view(), cs@, k as int, node.0 as int),
                decreases n - k,
            {
                if expr_has_alias(arena, cs[k]) {
                    return true;
                }
                k += 1;
            }
            false
        }
    }
}

} // verus!
