//! Batch projection: the plan of a projection over the columns of a child
//! executor, and what it makes of one batch. A projection that only picks
//! distinct child columns moves them; any other evaluates its expressions in
//! order and stops at the first that fails.

use std::collections::HashSet;
use vstd::prelude::*;
use vstd::std_specs::hash::group_hash_axioms;

verus! {

broadcast use group_hash_axioms;

/// The type of a column: the numeric part of a field type, which is all
/// that a projection hands on.
#[derive(Clone, Copy, Debug, PartialEq, Eq, Structural)]
pub struct FieldType {
    pub tp: i32,
    pub flag: u32,
    pub flen: i32,
    pub decimal: i32,
    pub collate: i32,
}

/// One node of an expression in reverse Polish notation.
#[derive(Clone, Copy, Debug, PartialEq, Eq, Structural)]
pub enum RpnExpressionNode {
    /// The child's column at `offset`.
    ColumnRef { offset: usize },
    /// A constant of the given type.
    Constant { field_type: FieldType },
    /// A function applied to the values of the `args_len` nodes before it.
    FnCall { args_len: usize, field_type: FieldType },
}

/// An expression in reverse Polish notation; its last node yields its value.
#[derive(Clone, Debug, PartialEq, Eq)]
pub struct RpnExpression {
    pub nodes: Vec<RpnExpressionNode>,
}

impl View for RpnExpression {
    type V = Seq<RpnExpressionNode>;

    open spec fn view(&self) -> Seq<RpnExpressionNode> {
        self.nodes@
    }
}

impl RpnExpression {
    /// Whether the expression has a value, and the child has the column if
    /// that value is a child column.
    pub fn is_typed(&self, child_columns: usize) -> (yes: bool)
        ensures
            yes == typed(self@, child_columns as nat),
    {
        let n = self.nodes.len();
        if n == 0 {
            return false;
        }
        match self.nodes[n - 1] {
            RpnExpressionNode::ColumnRef { offset } => offset < child_columns,
            _ => true,
        }
    }
}

/// The views of a sequence of expressions, in order.
pub open spec fn expr_views(exprs: Seq<RpnExpression>) -> Seq<Seq<RpnExpressionNode>> {
    exprs.map_values(|e: RpnExpression| e@)
}

/// The expression is one reference to a child column.
pub open spec fn is_column_ref(expr: Seq<RpnExpressionNode>) -> bool {
    expr.len() == 1 && expr[0] is ColumnRef
}

/// The column that a reference names.
pub open spec fn offset_of(expr: Seq<RpnExpressionNode>) -> usize {
    expr[0]->offset
}

/// The expression has a value, and if that is a child column the child has it.
pub open spec fn typed(expr: Seq<RpnExpressionNode>, child_columns: nat) -> bool {
    expr.len() > 0 && (expr.last() is ColumnRef ==> expr.last()->offset < child_columns)
}

/// The type of the expression's value over a child with schema `child`.
pub open spec fn ret_field_type(expr: Seq<RpnExpressionNode>, child: Seq<FieldType>) -> FieldType {
    match expr.last() {
        RpnExpressionNode::FnCall { field_type, .. } => field_type,
        RpnExpressionNode::Constant { field_type } => field_type,
        RpnExpressionNode::ColumnRef { offset } => child[offset as int],
    }
}

/// The schema of a projection: the type of each expression's value.
pub open spec fn schema_of(exprs: Seq<Seq<RpnExpressionNode>>, child: Seq<FieldType>) -> Seq<
    FieldType,
> {
    Seq::new(exprs.len(), |i: int| ret_field_type(exprs[i], child))
}

/// Every expression is one reference to a child column, and no column is
/// referred to twice.
pub open spec fn distinct_column_refs(exprs: Seq<Seq<RpnExpressionNode>>) -> bool {
    &&& forall|i: int| 0 <= i < exprs.len() ==> is_column_ref(#[trigger] exprs[i])
    &&& forall|i: int, j: int|
        0 <= i < j < exprs.len() ==> offset_of(exprs[i]) != offset_of(exprs[j])
}

/// The column offsets of the leading expressions, up to the first that is
/// not a reference to a column not referred to before; and whether there is
/// no such expression.
pub open spec fn leading_refs(exprs: Seq<Seq<RpnExpressionNode>>) -> (bool, Seq<usize>)
    decreases exprs.len(),
{
    if exprs.len() == 0 {
        (true, Seq::empty())
    } else {
        let before = leading_refs(exprs.drop_last());
        if before.0 && is_column_ref(exprs.last()) && !before.1.contains(offset_of(exprs.last())) {
            (true, before.1.push(offset_of(exprs.last())))
        } else {
            (false, before.1)
        }
    }
}

/// The leading references are all of them exactly when every expression is
/// a reference to a column of its own; the offsets are then theirs, in order.
pub proof fn lemma_leading_refs(exprs: Seq<Seq<RpnExpressionNode>>)
    ensures
        leading_refs(exprs).0 == distinct_column_refs(exprs),
        leading_refs(exprs).1.len() <= exprs.len(),
        forall|i: int|
            0 <= i < leading_refs(exprs).1.len() ==> #[trigger] leading_refs(exprs).1[i]
                == offset_of(exprs[i]) && is_column_ref(exprs[i]),
        forall|i: int, j: int|
            0 <= i < j < leading_refs(exprs).1.len() ==> leading_refs(exprs).1[i]
                != leading_refs(exprs).1[j],
        leading_refs(exprs).0 ==> leading_refs(exprs).1.len() == exprs.len(),
    decreases exprs.len(),
{
    if exprs.len() > 0 {
        let head = exprs.drop_last();
        lemma_leading_refs(head);
        let before = leading_refs(head);
        let now = leading_refs(exprs);
        assert forall|i: int| 0 <= i < now.1.len() implies #[trigger] now.1[i] == offset_of(
            exprs[i],
        ) && is_column_ref(exprs[i]) by {
            if i < before.1.len() {
                assert(head[i] == exprs[i]);
            }
        }
        if now.0 {
            assert forall|i: int| 0 <= i < exprs.len() implies is_column_ref(
                #[trigger] exprs[i],
            ) by {
                if i < head.len() {
                    assert(head[i] == exprs[i]);
                }
            }
            assert forall|i: int, j: int| 0 <= i < j < exprs.len() implies offset_of(exprs[i])
                != offset_of(exprs[j]) by {
                assert(head[i] == exprs[i]);
                if j < head.len() {
                    assert(head[j] == exprs[j]);
                } else {
                    assert(before.1[i] == offset_of(head[i]));
                }
            }
        } else if distinct_column_refs(exprs) {
            assert forall|i: int| 0 <= i < head.len() implies is_column_ref(#[trigger] head[i]) by {
                assert(head[i] == exprs[i]);
            }
            assert forall|i: int, j: int| 0 <= i < j < head.len() implies offset_of(head[i])
                != offset_of(head[j]) by {
                assert(head[i] == exprs[i] && head[j] == exprs[j]);
            }
            assert(distinct_column_refs(head));
            assert(is_column_ref(exprs[exprs.len() - 1]));
            let o = offset_of(exprs.last());
            let k = choose|k: int| 0 <= k < before.1.len() && before.1[k] == o;
            assert(before.1[k] == offset_of(head[k]));
            assert(head[k] == exprs[k]);
        }
    }
}

/// Why a batch is the last one, or that it is not.
#[derive(Clone, Copy, Debug, PartialEq, Eq, Structural)]
pub enum BatchExecIsDrain {
    Remain,
    Drain,
    PagingDrain,
}

impl BatchExecIsDrain {
    /// Whether the executor has more rows to yield.
    pub fn is_remain(&self) -> (yes: bool)
        ensures
            yes == (*self == BatchExecIsDrain::Remain),
    {
        match self {
            BatchExecIsDrain::Remain => true,
            _ => false,
        }
    }

    /// Whether the executor will yield no more rows.
    pub fn stop(&self) -> (yes: bool)
        ensures
            yes == (*self != BatchExecIsDrain::Remain),
    {
        match self {
            BatchExecIsDrain::Remain => false,
            _ => true,
        }
    }
}

/// One batch of an executor: the columns as stored, the rows of them that
/// count, in order, whether more is to come, and the warnings gathered on
/// the way. The column type `C`, the error type `E` and the type `W` of the
/// warnings are the caller's.
pub struct BatchExecuteResult<C, E, W> {
    pub physical_columns: Vec<C>,
    pub logical_rows: Vec<usize>,
    pub is_drained: Result<BatchExecIsDrain, E>,
    pub warnings: W,
}

/// What an expression evaluates to over a batch: one value that stands for
/// every row, or a column with a value for each row.
pub enum RpnStackNode<S, C> {
    Scalar(S),
    Vector(C),
}

/// The rows `0, 1, ..` up to `n`.
pub open spec fn all_rows(n: nat) -> Seq<usize> {
    Seq::new(n, |i: int| i as usize)
}

/// Expression `i` gives, over the batch, the column `col`: the column that
/// it evaluates to, or the one that `expand` makes of the scalar that it
/// evaluates to and the number of rows.
pub open spec fn yields<
    C,
    E,
    S,
    F: Fn(usize, &Vec<C>, &Vec<usize>) -> Result<RpnStackNode<S, C>, E>,
    X: Fn(S, usize) -> C,
>(eval: F, expand: X, columns: &Vec<C>, rows: &Vec<usize>, i: int, col: C) -> bool {
    exists|node: RpnStackNode<S, C>|
        #[trigger] call_ensures(eval, (i as usize, columns, rows), Ok::<RpnStackNode<S, C>, E>(node))
            && match node {
            RpnStackNode::Vector(c) => col == c,
            RpnStackNode::Scalar(v) => call_ensures(expand, (v, rows@.len() as usize), col),
        }
}

/// Expressions `0` up to `upto` give, over the batch, the columns `out`.
pub open spec fn evaluated<
    C,
    E,
    S,
    F: Fn(usize, &Vec<C>, &Vec<usize>) -> Result<RpnStackNode<S, C>, E>,
    X: Fn(S, usize) -> C,
>(eval: F, expand: X, columns: &Vec<C>, rows: &Vec<usize>, upto: int, out: Seq<C>) -> bool {
    &&& out.len() == upto
    &&& forall|i: int| 0 <= i < upto ==> yields(eval, expand, columns, rows, i, #[trigger] out[i])
}

/// The first definitions build, in order, to the expressions `built`.
pub open spec fn builds<D, E, B: Fn(&D) -> Result<RpnExpression, E>>(
    build: B,
    defs: Seq<D>,
    built: Seq<RpnExpression>,
) -> bool {
    &&& built.len() <= defs.len()
    &&& forall|i: int|
        0 <= i < built.len() ==> call_ensures(
            build,
            (&defs[i],),
            Ok::<RpnExpression, E>(#[trigger] built[i]),
        )
}

/// A projection over the columns of a child executor.
pub struct BatchProjectionExecutor {
    child_schema: Vec<FieldType>,
    schema: Vec<FieldType>,
    exprs: Vec<RpnExpression>,
    no_dup_column_ref_only: bool,
    column_offsets: Vec<usize>,
}

/// What a projection is, mathematically.
pub struct ProjectionModel {
    pub child_schema: Seq<FieldType>,
    pub exprs: Seq<Seq<RpnExpressionNode>>,
}

impl ProjectionModel {
    /// Every expression has a type over the child's schema.
    pub open spec fn wf(self) -> bool {
        forall|i: int|
            0 <= i < self.exprs.len() ==> typed(#[trigger] self.exprs[i], self.child_schema.len())
    }

    /// The schema of what the projection yields.
    pub open spec fn schema(self) -> Seq<FieldType> {
        schema_of(self.exprs, self.child_schema)
    }

    /// Whether the projection only picks distinct child columns.
    pub open spec fn moves_columns(self) -> bool {
        distinct_column_refs(self.exprs)
    }

    /// The child columns that such a projection picks, in order.
    pub open spec fn column_offsets(self) -> Seq<usize> {
        leading_refs(self.exprs).1
    }

    /// Whether the batch has anything to project.
    pub open spec fn has_rows<C, E, W>(src: BatchExecuteResult<C, E, W>) -> bool {
        src.is_drained is Ok && src.logical_rows@.len() != 0
    }

    /// What a batch `src` of the child becomes.
    ///
    /// A batch that failed or has no rows keeps its rows and its state and
    /// loses its columns. Otherwise a projection that only picks distinct
    /// child columns yields those columns as they are, with the rows and the
    /// state unchanged. Any other projection yields the value of each
    /// expression as a column; the rows are then `0, 1, ..`, as many as the
    /// batch had. If an expression fails, the batch takes its error, keeps
    /// the columns of the expressions before it, and has no rows. An
    /// expression that evaluates to a scalar yields the column that `expand`
    /// makes of it and the number of rows.
    pub open spec fn columns<
        C,
        E,
        W,
        S,
        F: Fn(usize, &Vec<C>, &Vec<usize>) -> Result<RpnStackNode<S, C>, E>,
        X: Fn(S, usize) -> C,
    >(
        self,
        src: BatchExecuteResult<C, E, W>,
        eval: F,
        expand: X,
        r: BatchExecuteResult<C, E, W>,
    ) -> bool {
        if !Self::has_rows(src) {
            &&& r.physical_columns@ == Seq::<C>::empty()
            &&& r.logical_rows@ == src.logical_rows@
            &&& r.is_drained == src.is_drained
        } else if self.moves_columns() {
            &&& r.physical_columns@ == Seq::new(
                self.exprs.len(),
                |i: int| src.physical_columns@[self.column_offsets()[i] as int],
            )
            &&& r.logical_rows@ == src.logical_rows@
            &&& r.is_drained == src.is_drained
        } else {
            match r.is_drained {
                Ok(_) => {
                    &&& r.is_drained == src.is_drained
                    &&& evaluated(
                        eval,
                        expand,
                        &src.physical_columns,
                        &src.logical_rows,
                        self.exprs.len() as int,
                        r.physical_columns@,
                    )
                    &&& r.logical_rows@ == if self.exprs.len() == 0 {
                        src.logical_rows@
                    } else {
                        all_rows(src.logical_rows@.len())
                    }
                },
                Err(e) => {
                    &&& r.logical_rows@ == Seq::<usize>::empty()
                    &&& r.physical_columns@.len() < self.exprs.len()
                    &&& evaluated(
                        eval,
                        expand,
                        &src.physical_columns,
                        &src.logical_rows,
                        r.physical_columns@.len() as int,
                        r.physical_columns@,
                    )
                    &&& call_ensures(
                        eval,
                        (r.physical_columns@.len() as usize, &src.physical_columns, &src.logical_rows),
                        Err::<RpnStackNode<S, C>, E>(e),
                    )
                },
            }
        }
    }

    /// What a batch `src` of the child becomes: its columns, rows and state
    /// as `columns` says, and its warnings merged by `merge` with those that
    /// the evaluation gathered, whatever became of the batch.
    pub open spec fn projects<
        C,
        E,
        W,
        S,
        F: Fn(usize, &Vec<C>, &Vec<usize>) -> Result<RpnStackNode<S, C>, E>,
        X: Fn(S, usize) -> C,
        M: Fn(W) -> W,
    >(
        self,
        src: BatchExecuteResult<C, E, W>,
        eval: F,
        expand: X,
        merge: M,
        r: BatchExecuteResult<C, E, W>,
    ) -> bool {
        &&& self.columns(src, eval, expand, r)
        &&& call_ensures(merge, (src.warnings,), r.warnings)
    }

    /// Whether a batch can be projected: where columns are moved, every
    /// column that the projection picks is in the batch and `filler` can be
    /// called; where expressions are evaluated, `eval` can be called on each
    /// and `expand` on every scalar that comes back; and `merge` can be
    /// called on the batch's warnings. A batch that failed or has no rows
    /// asks for `merge` alone.
    pub open spec fn can_project<
        C,
        E,
        W,
        S,
        G: Fn() -> C,
        F: Fn(usize, &Vec<C>, &Vec<usize>) -> Result<RpnStackNode<S, C>, E>,
        X: Fn(S, usize) -> C,
        M: Fn(W) -> W,
    >(self, src: BatchExecuteResult<C, E, W>, filler: G, eval: F, expand: X, merge: M) -> bool {
        &&& call_requires(merge, (src.warnings,))
        &&& Self::has_rows(src) && self.moves_columns() ==> {
            &&& call_requires(filler, ())
            &&& forall|i: int|
                0 <= i < self.exprs.len() ==> #[trigger] self.column_offsets()[i]
                    < src.physical_columns@.len()
        }
        &&& Self::has_rows(src) && !self.moves_columns() ==> {
            &&& forall|i: usize|
                i < self.exprs.len() ==> call_requires(
                    eval,
                    (i, &src.physical_columns, &src.logical_rows),
                )
            &&& forall|i: usize, v: S|
                i < self.exprs.len() && #[trigger] call_ensures(
                    eval,
                    (i, &src.physical_columns, &src.logical_rows),
                    Ok::<RpnStackNode<S, C>, E>(RpnStackNode::Scalar(v)),
                ) ==> call_requires(expand, (v, src.logical_rows@.len() as usize))
        }
    }
}

impl View for BatchProjectionExecutor {
    type V = ProjectionModel;

    closed spec fn view(&self) -> ProjectionModel {
        ProjectionModel { child_schema: self.child_schema@, exprs: expr_views(self.exprs@) }
    }
}

/// Takes note of one expression of a single node. A reference to a column
/// not seen before is recorded; anything else ends the run of distinct
/// column references.
fn check_column_ref(
    rpn_expression: &RpnExpression,
    column_offset_set: &mut HashSet<usize>,
    no_dup_column_ref_only: &mut bool,
    column_offset_vec: &mut Vec<usize>,
)
    requires
        rpn_expression@.len() > 0,
    ensures
        match rpn_expression@[0] {
            RpnExpressionNode::ColumnRef { offset } => if old(column_offset_set)@.contains(offset) {
                &&& !*final(no_dup_column_ref_only)
                &&& final(column_offset_set)@ == old(column_offset_set)@
                &&& final(column_offset_vec)@ == old(column_offset_vec)@
            } else {
                &&& *final(no_dup_column_ref_only) == *old(no_dup_column_ref_only)
                &&& final(column_offset_set)@ == old(column_offset_set)@.insert(offset)
                &&& final(column_offset_vec)@ == old(column_offset_vec)@.push(offset)
            },
            _ => {
                &&& !*final(no_dup_column_ref_only)
                &&& final(column_offset_set)@ == old(column_offset_set)@
                &&& final(column_offset_vec)@ == old(column_offset_vec)@
            },
        },
{
    match rpn_expression.nodes[0] {
        RpnExpressionNode::ColumnRef { offset } => {
            if !column_offset_set.insert(offset) {
                *no_dup_column_ref_only = false;
                assert(column_offset_set@ =~= old(column_offset_set)@);
            } else {
                column_offset_vec.push(offset);
            }
        },
        _ => {
            *no_dup_column_ref_only = false;
        },
    }
}

/// The schema of a projection over a child with schema `child_schema`.
fn get_schema_from_exprs(child_schema: &Vec<FieldType>, exprs: &Vec<RpnExpression>) -> (schema:
    Vec<FieldType>)
    requires
        forall|i: int| 0 <= i < exprs@.len() ==> typed(#[trigger] exprs@[i]@, child_schema@.len()),
    ensures
        schema@ == schema_of(expr_views(exprs@), child_schema@),
{
    let mut schema: Vec<FieldType> = Vec::with_capacity(exprs.len());
    let mut i: usize = 0;
    while i < exprs.len()
        invariant
            i <= exprs.len(),
            forall|j: int|
                0 <= j < exprs@.len() ==> typed(#[trigger] exprs@[j]@, child_schema@.len()),
            schema@ == schema_of(expr_views(exprs@), child_schema@).take(i as int),
        decreases exprs.len() - i,
    {
        let expr = &exprs[i];
        assert(typed(exprs@[i as int]@, child_schema@.len()));
        let field_type = match expr.nodes[expr.nodes.len() - 1] {
            RpnExpressionNode::FnCall { field_type, .. } => field_type,
            RpnExpressionNode::Constant { field_type } => field_type,
            RpnExpressionNode::ColumnRef { offset } => child_schema[offset],
        };
        schema.push(field_type);
        assert(schema@ =~= schema_of(expr_views(exprs@), child_schema@).take(i + 1));
        i += 1;
    }
    assert(schema@ =~= schema_of(expr_views(exprs@), child_schema@));
    schema
}

impl BatchProjectionExecutor {
    /// The representation is sound: the schema, the flag and the offsets are
    /// those of the expressions.
    pub closed spec fn wf(&self) -> bool {
        &&& self@.wf()
        &&& self.schema@ == self@.schema()
        &&& self.no_dup_column_ref_only == self@.moves_columns()
        &&& self.column_offsets@ == self@.column_offsets()
    }

    /// Checks whether every expression of a projection is supported, with
    /// the check that the expression engine provides. The first expression
    /// that is not supported decides the error.
    pub fn check_supported<D, E, F: Fn(&D) -> Result<(), E>>(exprs: &Vec<D>, check: F) -> (r:
        Result<(), E>)
        requires
            forall|i: int| 0 <= i < exprs@.len() ==> call_requires(check, (&#[trigger] exprs@[i],)),
        ensures
            match r {
                Ok(()) => forall|i: int|
                    0 <= i < exprs@.len() ==> call_ensures(
                        check,
                        (&#[trigger] exprs@[i],),
                        Ok::<(), E>(()),
                    ),
                Err(e) => exists|i: int|
                    0 <= i < exprs@.len() && call_ensures(
                        check,
                        (&#[trigger] exprs@[i],),
                        Err::<(), E>(e),
                    ) && forall|j: int|
                        0 <= j < i ==> call_ensures(
                            check,
                            (&#[trigger] exprs@[j],),
                            Ok::<(), E>(()),
                        ),
            },
    {
        let mut i: usize = 0;
        while i < exprs.len()
            invariant
                i <= exprs.len(),
                forall|j: int|
                    0 <= j < exprs@.len() ==> call_requires(check, (&#[trigger] exprs@[j],)),
                forall|j: int|
                    0 <= j < i ==> call_ensures(check, (&#[trigger] exprs@[j],), Ok::<(), E>(())),
            decreases exprs.len() - i,
        {
            let checked = check(&exprs[i]);
            match checked {
                Ok(u) => {
                    assert(u == ());
                },
                Err(e) => {
                    assert(call_ensures(check, (&exprs@[i as int],), Err::<(), E>(e)));
                    return Err(e);
                },
            }
            i += 1;
        }
        Ok(())
    }

    /// A projection of `exprs` over a child with schema `child_schema`.
    pub fn new_for_test(child_schema: Vec<FieldType>, exprs: Vec<RpnExpression>) -> (executor:
        Self)
        requires
            forall|i: int|
                0 <= i < exprs@.len() ==> typed(#[trigger] exprs@[i]@, child_schema@.len()),
        ensures
            executor.wf(),
            executor@ == (ProjectionModel {
                child_schema: child_schema@,
                exprs: expr_views(exprs@),
            }),
    {
        let schema = get_schema_from_exprs(&child_schema, &exprs);
        let exprs_len = exprs.len();
        let mut no_dup_column_ref_only = true;
        let mut column_offset_set: HashSet<usize> = HashSet::with_capacity(exprs_len);
        let mut column_offset_vec: Vec<usize> = Vec::with_capacity(exprs_len);
        let ghost all = expr_views(exprs@);
        let mut i: usize = 0;
        assert(all.take(0) =~= Seq::<Seq<RpnExpressionNode>>::empty());
        while i < exprs.len() && no_dup_column_ref_only
            invariant
                i <= exprs.len(),
                all == expr_views(exprs@),
                column_offset_set@ == column_offset_vec@.to_set(),
                (no_dup_column_ref_only, column_offset_vec@) == leading_refs(all.take(i as int)),
            decreases exprs.len() - i,
        {
            proof {
                assert(all.take(i + 1).drop_last() =~= all.take(i as int));
                assert(all.take(i + 1).last() == exprs@[i as int]@);
            }
            let ghost before = column_offset_vec@;
            if exprs[i].nodes.len() == 1 {
                check_column_ref(
                    &exprs[i],
                    &mut column_offset_set,
                    &mut no_dup_column_ref_only,
                    &mut column_offset_vec,
                );
                proof {
                    assert(before.to_set().contains(offset_of(exprs@[i as int]@))
                        == before.contains(offset_of(exprs@[i as int]@)));
                    if column_offset_vec@.len() > before.len() {
                        assert(column_offset_vec@.to_set() =~= before.to_set().insert(
                            offset_of(exprs@[i as int]@),
                        )) by {
                            let o = offset_of(exprs@[i as int]@);
                            assert forall|x: usize|
                                column_offset_vec@.to_set().contains(x)
                                    == before.to_set().insert(o).contains(x) by {
                                if column_offset_vec@.contains(x) {
                                    let k = choose|k: int|
                                        0 <= k < column_offset_vec@.len()
                                            && column_offset_vec@[k] == x;
                                    if k < before.len() {
                                        assert(before[k] == x);
                                    }
                                }
                                if before.contains(x) {
                                    let k = choose|k: int| 0 <= k < before.len() && before[k] == x;
                                    assert(column_offset_vec@[k] == x);
                                }
                                if x == o {
                                    assert(column_offset_vec@[before.len() as int] == x);
                                }
                            }
                        }
                    }
                }
            } else {
                no_dup_column_ref_only = false;
            }
            i += 1;
        }
        proof {
            lemma_leading_rest(all, i as int);
            assert(all.take(all.len() as int) =~= all);
        }
        let executor = BatchProjectionExecutor {
            child_schema,
            schema,
            exprs,
            no_dup_column_ref_only,
            column_offsets: column_offset_vec,
        };
        proof {
            lemma_leading_refs(all);
        }
        executor
    }

    /// Builds each expression of a projection with `build`, the builder that
    /// the expression engine provides, and plans the projection over a child
    /// with schema `child_schema`. The first definition that does not build
    /// decides the error.
    pub fn new<D, E, B: Fn(&D) -> Result<RpnExpression, E>>(
        child_schema: Vec<FieldType>,
        exprs_def: &Vec<D>,
        build: B,
    ) -> (r: Result<Self, E>)
        requires
            forall|i: int|
                0 <= i < exprs_def@.len() ==> call_requires(build, (&#[trigger] exprs_def@[i],)),
            forall|i: int, e: RpnExpression|
                0 <= i < exprs_def@.len() && #[trigger] call_ensures(
                    build,
                    (&exprs_def@[i],),
                    Ok::<RpnExpression, E>(e),
                ) ==> typed(e@, child_schema@.len()),
        ensures
            match r {
                Ok(executor) => {
                    &&& executor.wf()
                    &&& executor@.child_schema == child_schema@
                    &&& executor@.exprs.len() == exprs_def@.len()
                    &&& exists|built: Seq<RpnExpression>|
                        #[trigger] builds(build, exprs_def@, built) && built.len()
                            == exprs_def@.len() && expr_views(built) == executor@.exprs
                },
                Err(e) => exists|built: Seq<RpnExpression>|
                    #[trigger] builds(build, exprs_def@, built) && built.len() < exprs_def@.len()
                        && call_ensures(
                        build,
                        (&exprs_def@[built.len() as int],),
                        Err::<RpnExpression, E>(e),
                    ),
            },
    {
        let mut exprs: Vec<RpnExpression> = Vec::with_capacity(exprs_def.len());
        let mut i: usize = 0;
        while i < exprs_def.len()
            invariant
                i <= exprs_def.len(),
                exprs@.len() == i,
                forall|j: int|
                    0 <= j < exprs_def@.len() ==> call_requires(
                        build,
                        (&#[trigger] exprs_def@[j],),
                    ),
                forall|j: int, e: RpnExpression|
                    0 <= j < exprs_def@.len() && #[trigger] call_ensures(
                        build,
                        (&exprs_def@[j],),
                        Ok::<RpnExpression, E>(e),
                    ) ==> typed(e@, child_schema@.len()),
                forall|j: int|
                    0 <= j < i ==> call_ensures(
                        build,
                        (&exprs_def@[j],),
                        Ok::<RpnExpression, E>(#[trigger] exprs@[j]),
                    ),
            decreases exprs_def.len() - i,
        {
            match build(&exprs_def[i]) {
                Ok(rpn_expression) => {
                    exprs.push(rpn_expression);
                },
                Err(e) => {
                    assert(builds(build, exprs_def@, exprs@) && call_ensures(
                        build,
                        (&exprs_def@[exprs@.len() as int],),
                        Err::<RpnExpression, E>(e),
                    ));
                    return Err(e);
                },
            }
            i += 1;
        }
        assert forall|j: int| 0 <= j < exprs@.len() implies typed(
            #[trigger] exprs@[j]@,
            child_schema@.len(),
        ) by {
            assert(call_ensures(build, (&exprs_def@[j],), Ok::<RpnExpression, E>(exprs@[j])));
        }
        assert(builds(build, exprs_def@, exprs@));
        let executor = Self::new_for_test(child_schema, exprs);
        Ok(executor)
    }

    /// Whether the projection only picks distinct child columns, so that a
    /// batch is projected by moving columns.
    pub fn moves_columns(&self) -> (yes: bool)
        requires
            self.wf(),
        ensures
            yes == self@.moves_columns(),
    {
        self.no_dup_column_ref_only
    }

    /// The child columns that a projection that moves columns picks, in order.
    pub fn column_offsets(&self) -> (offsets: &Vec<usize>)
        requires
            self.wf(),
        ensures
            offsets@ == self@.column_offsets(),
    {
        &self.column_offsets
    }

    /// How many columns the child yields.
    pub fn child_columns(&self) -> (n: usize)
        ensures
            n == self@.child_schema.len(),
    {
        self.child_schema.len()
    }

    /// How many expressions the projection has.
    pub fn len(&self) -> (n: usize)
        ensures
            n == self@.exprs.len(),
    {
        self.exprs.len()
    }

    /// The schema of what the projection yields.
    pub fn schema(&self) -> (schema: &Vec<FieldType>)
        requires
            self.wf(),
        ensures
            schema@ == self@.schema(),
    {
        &self.schema
    }

    /// Projects one batch of the child. `eval` evaluates the expression at
    /// the given index over the batch, `expand` makes a column of a scalar
    /// and a number of rows, `filler` makes a column to stand in for one that
    /// has been moved out, and `merge` adds to the batch's warnings those
    /// that the evaluation gathered.
    pub fn next_batch<
        C,
        E,
        W,
        S,
        G: Fn() -> C,
        F: Fn(usize, &Vec<C>, &Vec<usize>) -> Result<RpnStackNode<S, C>, E>,
        X: Fn(S, usize) -> C,
        M: Fn(W) -> W,
    >(
        &self,
        src_result: BatchExecuteResult<C, E, W>,
        filler: G,
        eval: F,
        expand: X,
        merge: M,
    ) -> (r: BatchExecuteResult<C, E, W>)
        requires
            self.wf(),
            self@.can_project(src_result, filler, eval, expand, merge),
        ensures
            self@.projects(src_result, eval, expand, merge, r),
    {
        let BatchExecuteResult { physical_columns, logical_rows, is_drained, warnings } = src_result;
        let mut physical_columns = physical_columns;
        let mut logical_rows = logical_rows;
        let mut is_drained = is_drained;
        let mut eval_result: Vec<C> = Vec::with_capacity(self.schema.len());
        let logical_len = logical_rows.len();
        let ghost src_columns = physical_columns@;
        let ghost exprs = self@.exprs;
        proof {
            lemma_leading_refs(exprs);
        }
        if is_drained.is_ok() && logical_len != 0 {
            if self.no_dup_column_ref_only {
                let mut k: usize = 0;
                while k < self.column_offsets.len()
                    invariant
                        k <= self.column_offsets.len(),
                        self.wf(),
                        exprs == self@.exprs,
                        distinct_column_refs(exprs),
                        self.column_offsets@ == leading_refs(exprs).1,
                        self.column_offsets@.len() == exprs.len(),
                        forall|i: int, j: int|
                            0 <= i < j < exprs.len() ==> leading_refs(exprs).1[i] != leading_refs(
                                exprs,
                            ).1[j],
                        call_requires(filler, ()),
                        physical_columns@.len() == src_columns.len(),
                        forall|i: int|
                            0 <= i < exprs.len() ==> #[trigger] self.column_offsets@[i]
                                < src_columns.len(),
                        eval_result@.len() == k,
                        forall|i: int|
                            0 <= i < k ==> #[trigger] eval_result@[i]
                                == src_columns[self.column_offsets@[i] as int],
                        forall|i: int|
                            k <= i < exprs.len() ==> physical_columns@[self.column_offsets@[i] as int]
                                == src_columns[#[trigger] self.column_offsets@[i] as int],
                    decreases self.column_offsets.len() - k,
                {
                    let offset = self.column_offsets[k];
                    physical_columns.push(filler());
                    eval_result.push(physical_columns.swap_remove(offset));
                    k += 1;
                }
                assert(eval_result@ =~= Seq::new(
                    exprs.len(),
                    |i: int| src_columns[self@.column_offsets()[i] as int],
                ));
            } else {
                let mut k: usize = 0;
                let mut failure: Option<E> = None;
                proof {
                    assert(expr_views(self.exprs@).len() == self.exprs@.len());
                }
                while k < self.exprs.len() && failure.is_none()
                    invariant
                        k <= self.exprs.len(),
                        self.exprs@.len() == exprs.len(),
                        physical_columns@ == src_columns,
                        physical_columns == src_result.physical_columns,
                        logical_rows == src_result.logical_rows,
                        logical_len == logical_rows@.len(),
                        forall|i: usize|
                            i < exprs.len() ==> call_requires(
                                eval,
                                (i, &src_result.physical_columns, &src_result.logical_rows),
                            ),
                        forall|i: usize, v: S|
                            i < exprs.len() && #[trigger] call_ensures(
                                eval,
                                (i, &src_result.physical_columns, &src_result.logical_rows),
                                Ok::<RpnStackNode<S, C>, E>(RpnStackNode::Scalar(v)),
                            ) ==> call_requires(
                                expand,
                                (v, src_result.logical_rows@.len() as usize),
                            ),
                        evaluated(
                            eval,
                            expand,
                            &src_result.physical_columns,
                            &src_result.logical_rows,
                            eval_result@.len() as int,
                            eval_result@,
                        ),
                        failure is None ==> eval_result@.len() == k,
                        failure matches Some(e) ==> eval_result@.len() < exprs.len()
                            && call_ensures(
                            eval,
                            (
                                eval_result@.len() as usize,
                                &src_result.physical_columns,
                                &src_result.logical_rows,
                            ),
                            Err::<RpnStackNode<S, C>, E>(e),
                        ),
                    decreases
                            2 * (self.exprs.len() - k) + if failure is None {
                                1int
                            } else {
                                0int
                            },
                {
                    match eval(k, &physical_columns, &logical_rows) {
                        Err(e) => {
                            failure = Some(e);
                        },
                        Ok(node) => {
                            let col = match node {
                                RpnStackNode::Scalar(v) => expand(v, logical_len),
                                RpnStackNode::Vector(c) => c,
                            };
                            assert(yields(
                                eval,
                                expand,
                                &src_result.physical_columns,
                                &src_result.logical_rows,
                                k as int,
                                col,
                            ));
                            eval_result.push(col);
                            k += 1;
                        },
                    }
                }
                match failure {
                    Some(e) => {
                        is_drained = Err(e);
                        logical_rows.clear();
                    },
                    None => {
                        if self.exprs.len() != 0 {
                            logical_rows.clear();
                            let mut row: usize = 0;
                            while row < logical_len
                                invariant
                                    row <= logical_len,
                                    logical_rows@ == all_rows(row as nat),
                                decreases logical_len - row,
                            {
                                logical_rows.push(row);
                                assert(logical_rows@ =~= all_rows((row + 1) as nat));
                                row += 1;
                            }
                        }
                    },
                }
            }
        }
        let warnings = merge(warnings);
        BatchExecuteResult { physical_columns: eval_result, logical_rows, is_drained, warnings }
    }
}

/// Once the run of distinct column references has ended it stays ended, and
/// the offsets gathered so far stay as they are.
proof fn lemma_leading_rest(exprs: Seq<Seq<RpnExpressionNode>>, i: int)
    requires
        0 <= i <= exprs.len(),
        i < exprs.len() ==> !leading_refs(exprs.take(i)).0,
    ensures
        leading_refs(exprs) == leading_refs(exprs.take(i)),
    decreases exprs.len() - i,
{
    if i < exprs.len() {
        assert(exprs.take(i + 1).drop_last() =~= exprs.take(i));
        lemma_leading_rest(exprs, i + 1);
    } else {
        assert(exprs.take(i) =~= exprs);
    }
}

} // verus!
