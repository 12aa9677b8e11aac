use vstd::prelude::*;
use crate::expr::{ExprArena, contains_name, copy_handles};
use crate::plan::{lemma_wf_grow_exprs, PlanArena, PlanNode, PlanError, UnpivotArgs, all_in, input_of, outputs_of};
use crate::context::{
    ProjectionContext, forwardable, forward_pred, local_pred, lemma_filter_subset,
    split_acc_projections, add_str_to_accumulated,
};

verus! {

broadcast use vstd::seq_lib::group_filter_ensures;

/// The pass turned `node` of `pa0`, under requirements `ctx`, into node `h`
/// of `pa1`: both arenas only grew and stay well formed; with nothing
/// required the schema is kept; otherwise every required column is produced.
pub open spec fn rewritten(
    pa0: PlanArena,
    ea0: ExprArena,
    pa1: PlanArena,
    ea1: ExprArena,
    node: usize,
    ctx: ProjectionContext,
    h: usize,
) -> bool {
    &&& pa1.wf(ea1)
    &&& ea1.wf()
    &&& pa1.extends(&pa0)
    &&& ea1.extends(&ea0)
    &&& h < pa1.entries@.len()
    &&& ctx.acc_projections@.len() == 0 ==> pa1.schema_at(h as int) == pa0.schema_at(node as int)
    &&& forall|k: int|
        0 <= k < ctx.acc_projections@.len() ==> pa1.schema_at(h as int).contains(
            ea0.output_of(#[trigger] ctx.acc_projections@[k]),
        )
}

/// Membership in `names`, as a predicate on columns.
pub open spec fn member_pred(names: Seq<u64>) -> spec_fn(u64) -> bool {
    |c: u64| names.contains(c)
}

/// Whether some expression of `hs` is more than a column reference.
pub open spec fn any_composite(ea: ExprArena, hs: Seq<usize>) -> bool {
    exists|k: int| 0 <= k < hs.len() && !ea.nodes@[#[trigger] hs[k] as int].is_column
}

/// Pushed into a scan, requirements that are all column references leave
/// exactly the required columns, in the scan's order.
pub open spec fn scan_pruned(
    pa0: PlanArena,
    ea0: ExprArena,
    pa1: PlanArena,
    node: usize,
    ctx: ProjectionContext,
    h: usize,
) -> bool {
    pa0.node_at(node as int) is Scan && ctx.acc_projections@.len() > 0 && !any_composite(
        ea0,
        ctx.acc_projections@,
    ) ==> pa1.schema_at(h as int) == pa0.schema_at(node as int).filter(
        member_pred(outputs_of(ea0, ctx.acc_projections@)),
    )
}

/// What a call of the pass may assume of its arguments.
pub open spec fn pass_ready(pa: PlanArena, ea: ExprArena, node: usize, ctx: ProjectionContext) -> bool {
    &&& pa.wf(ea)
    &&& ea.wf()
    &&& node < pa.entries@.len()
    &&& ctx.wf(ea)
    &&& ctx.valid_for(ea, pa.schema_at(node as int))
}

/// Rewriting never changes an entry: every handle of the arenas before a
/// rewrite addresses the same content after it.
pub proof fn lemma_rewrite_keeps_entries(pa0: PlanArena, pa1: PlanArena, ea0: ExprArena, ea1: ExprArena)
    requires
        pa1.extends(&pa0),
        ea1.extends(&ea0),
    ensures
        forall|i: int| 0 <= i < pa0.entries@.len() ==> #[trigger] pa1.entries@[i] == pa0.entries@[i],
        forall|i: int| 0 <= i < ea0.nodes@.len() ==> #[trigger] ea1.nodes@[i] == ea0.nodes@[i],
{
    assert forall|i: int| 0 <= i < pa0.entries@.len() implies #[trigger] pa1.entries@[i]
        == pa0.entries@[i] by {
        assert(pa0.entries@[i] == pa1.entries@.subrange(0, pa0.entries@.len() as int)[i]);
    }
    assert forall|i: int| 0 <= i < ea0.nodes@.len() implies #[trigger] ea1.nodes@[i]
        == ea0.nodes@[i] by {
        assert(ea0.nodes@[i] == ea1.nodes@.subrange(0, ea0.nodes@.len() as int)[i]);
    }
}

/// The columns of `columns` that `names` holds, in order.
fn retain_names(columns: &Vec<u64>, names: &Vec<u64>) -> (r: Vec<u64>)
    ensures
        forall|c: u64| r@.contains(c) <==> columns@.contains(c) && names@.contains(c),
        r@ == columns@.filter(member_pred(names@)),
{
    let mut r: Vec<u64> = Vec::new();
    let mut i: usize = 0;
    while i < columns.len()
        invariant
            0 <= i <= columns@.len(),
            forall|c: u64|
                r@.contains(c) <==> columns@.subrange(0, i as int).contains(c) && names@.contains(c),
            r@ == columns@.subrange(0, i as int).filter(member_pred(names@)),
        decreases columns@.len() - i,
    {
        let c = columns[i];
        let keep = contains_name(names, c);
        let ghost old_r = r@;
        if keep {
            r.push(c);
        }
        proof {
            let pre = columns@.subrange(0, i as int);
            let cur = columns@.subrange(0, i as int + 1);
            assert(cur =~= pre.push(c));
            assert(cur.drop_last() =~= pre);
            reveal(Seq::filter);
            assert(cur.filter(member_pred(names@)) == if member_pred(names@)(c) {
                pre.filter(member_pred(names@)).push(c)
            } else {
                pre.filter(member_pred(names@))
            });
            assert forall|x: u64| r@.contains(x) <==> cur.contains(x) && names@.contains(x) by {
                if r@.contains(x) {
                    let j = choose|j: int| 0 <= j < r@.len() && r@[j] == x;
                    if j < old_r.len() {
                        assert(old_r[j] == x);
                        assert(old_r.contains(x));
                        assert(pre.contains(x));
                        let m = choose|m: int| 0 <= m < pre.len() && pre[m] == x;
                        assert(cur[m] == x);
                    } else {
                        assert(cur[i as int] == x);
                    }
                }
                if cur.contains(x) && names@.contains(x) {
                    let m = choose|m: int| 0 <= m < cur.len() && cur[m] == x;
                    if m < i {
                        assert(pre[m] == x);
                        assert(old_r.contains(x));
                        let j = choose|j: int| 0 <= j < old_r.len() && old_r[j] == x;
                        assert(r@[j] == x);
                    } else {
                        assert(r@[r@.len() - 1] == x);
                    }
                }
            }
        }
        i = i + 1;
    }
    proof {
        assert(columns@.subrange(0, columns@.len() as int) =~= columns@);
    }
    r
}

/// Whether one of the expressions `hs` is more than a column reference.
fn has_composite(hs: &Vec<usize>, ea: &ExprArena) -> (r: bool)
    requires
        forall|k: int| 0 <= k < hs@.len() ==> #[trigger] hs@[k] < ea.nodes@.len(),
    ensures
        r == exists|k: int| 0 <= k < hs@.len() && !ea.nodes@[#[trigger] hs@[k] as int].is_column,
{
    let mut i: usize = 0;
    while i < hs.len()
        invariant
            0 <= i <= hs@.len(),
            forall|k: int| 0 <= k < hs@.len() ==> #[trigger] hs@[k] < ea.nodes@.len(),
            forall|k: int| 0 <= k < i ==> ea.nodes@[#[trigger] hs@[k] as int].is_column,
        decreases hs@.len() - i,
    {
        if !ea.nodes[hs[i]].is_column {
            return true;
        }
        i = i + 1;
    }
    false
}

/// `a` followed by `b`.
fn concat_handles(a: Vec<usize>, b: &Vec<usize>) -> (r: Vec<usize>)
    ensures
        r@ == a@ + b@,
{
    let mut r = a;
    let mut i: usize = 0;
    while i < b.len()
        invariant
            0 <= i <= b@.len(),
            r@ == a@ + b@.subrange(0, i as int),
        decreases b@.len() - i,
    {
        r.push(b[i]);
        i = i + 1;
        assert(r@ =~= a@ + b@.subrange(0, i as int));
    }
    assert(b@.subrange(0, b@.len() as int) =~= b@);
    r
}

} // verus!

verus! {

/// Reading expression `h` is unaffected by a growing expression arena.
proof fn lemma_expr_grow(ea0: ExprArena, ea1: ExprArena, hs: Seq<usize>, schema: Seq<u64>)
    requires
        ea1.extends(&ea0),
        forall|k: int| 0 <= k < hs.len() ==> #[trigger] hs[k] < ea0.nodes@.len(),
    ensures
        outputs_of(ea1, hs) == outputs_of(ea0, hs),
        forall|k: int|
            0 <= k < hs.len() && ea0.reads_within(#[trigger] hs[k], schema) ==> ea1.reads_within(
                hs[k],
                schema,
            ),
        forall|k: int|
            0 <= k < hs.len() ==> ea1.nodes@[hs[k] as int] == ea0.nodes@[#[trigger] hs[k] as int],
{
    assert forall|k: int| 0 <= k < hs.len() implies ea1.nodes@[hs[k] as int]
        == ea0.nodes@[#[trigger] hs[k] as int] by {
        assert(ea0.nodes@[hs[k] as int] == ea1.nodes@.subrange(0, ea0.nodes@.len() as int)[hs[k] as int]);
    }
    assert(outputs_of(ea1, hs) =~= outputs_of(ea0, hs));
}

/// An arena extends itself.
proof fn lemma_unchanged(pa: PlanArena, ea: ExprArena)
    ensures
        pa.extends(&pa),
        ea.extends(&ea),
{
    assert(pa.entries@ =~= pa.entries@.subrange(0, pa.entries@.len() as int));
    assert(ea.nodes@ =~= ea.nodes@.subrange(0, ea.nodes@.len() as int));
}

/// A context requiring nothing is well formed and valid anywhere.
proof fn lemma_empty_ctx(ctx: ProjectionContext, ea: ExprArena, schema: Seq<u64>)
    requires
        ctx.acc_projections@.len() == 0,
        ctx.projected_names@.len() == 0,
    ensures
        ctx.wf(ea),
        ctx.valid_for(ea, schema),
{
    assert(ctx.projected_names@ =~= outputs_of(ea, ctx.acc_projections@));
}

/// Every reshape of a well-formed arena reads a child whose output holds
/// each of its index and `on` columns. The pass keeps arenas well formed, so
/// this holds of every reshape that it rebuilds, whatever was required above.
pub proof fn lemma_reshape_child_columns(pa: PlanArena, ea: ExprArena, u: int)
    requires
        pa.wf(ea),
        0 <= u < pa.entries@.len(),
    ensures
        pa.node_at(u) matches PlanNode::Unpivot { input, args } ==> all_in(
            args.index@,
            pa.schema_at(input as int),
        ) && all_in(args.on@, pa.schema_at(input as int)),
{
    assert(pa.entry_wf(u, ea));
}

/// The node below an explicit projection at `h`, or `h` itself.
pub open spec fn peel(pa: PlanArena, h: usize) -> int {
    match pa.node_at(h as int) {
        PlanNode::Select { input, .. } => input as int,
        _ => h as int,
    }
}

/// Reshape arguments equal in every name.
pub open spec fn same_args(a: UnpivotArgs, b: UnpivotArgs) -> bool {
    &&& a.index@ == b.index@
    &&& a.on@ == b.on@
    &&& a.variable_name == b.variable_name
    &&& a.value_name == b.value_name
}

/// `n1` of `pa1` is `n0` of `pa0` rebuilt over a child with an unchanged
/// schema: nothing below was pruned.
pub open spec fn same_over(n0: PlanNode, pa0: PlanArena, n1: PlanNode, pa1: PlanArena) -> bool {
    match (n0, n1) {
        (PlanNode::Scan { columns: a }, PlanNode::Scan { columns: b }) => a@ == b@,
        (PlanNode::Select { input: c0, exprs: e0 }, PlanNode::Select { input: c1, exprs: e1 }) => {
            e0@ == e1@ && pa1.schema_at(c1 as int) == pa0.schema_at(c0 as int)
        },
        (PlanNode::Unpivot { input: c0, args: a0 }, PlanNode::Unpivot { input: c1, args: a1 }) => {
            same_args(a0, a1) && pa1.schema_at(c1 as int) == pa0.schema_at(c0 as int)
        },
        _ => false,
    }
}

/// Node `u` of `pa` is a reshape with arguments `args` whose child
/// produces every index and `on` column.
pub open spec fn unpivot_over(pa: PlanArena, u: int, args: UnpivotArgs) -> bool {
    match pa.node_at(u) {
        PlanNode::Unpivot { input, args: a } => {
            &&& same_args(a, args)
            &&& all_in(args.index@, pa.schema_at(input as int))
            &&& all_in(args.on@, pa.schema_at(input as int))
        },
        _ => false,
    }
}

/// Rewrites the subtree at `node` so that it produces what `ctx` requires,
/// pruning columns below where that is sound, and returns the new handle.
/// Entries are never changed; new ones are appended.
pub fn pushdown_and_assign(
    node: usize,
    ctx: ProjectionContext,
    pa: &mut PlanArena,
    ea: &mut ExprArena,
) -> (r: Result<usize, PlanError>)
    requires
        pass_ready(*old(pa), *old(ea), node, ctx),
    ensures
        r matches Ok(h) && rewritten(*old(pa), *old(ea), *final(pa), *final(ea), node, ctx, h),
        r matches Ok(h) ==> scan_pruned(*old(pa), *old(ea), *final(pa), node, ctx, h),
    decreases node, 3usize,
{
    proof {
        assert(old(pa).entry_wf(node as int, *old(ea)));
    }
    match &pa.entries[node].node {
        PlanNode::Scan { .. } => process_scan(node, ctx, pa, ea),
        PlanNode::Select { .. } => no_pushdown_restart_opt(node, ctx, pa, ea),
        PlanNode::Unpivot { input, args } => {
            let input = *input;
            let args = args.duplicate();
            process_unpivot(node, &args, input, ctx, pa, ea)
        },
    }
}

/// A scan reads only the forwardable columns that are required; anything
/// else is evaluated in an explicit projection above it.
fn process_scan(
    node: usize,
    ctx: ProjectionContext,
    pa: &mut PlanArena,
    ea: &mut ExprArena,
) -> (r: Result<usize, PlanError>)
    requires
        pass_ready(*old(pa), *old(ea), node, ctx),
        old(pa).node_at(node as int) is Scan,
    ensures
        r matches Ok(h) && rewritten(*old(pa), *old(ea), *final(pa), *final(ea), node, ctx, h),
        r matches Ok(h) ==> scan_pruned(*old(pa), *old(ea), *final(pa), node, ctx, h),
{
    let columns = pa.schema(node);
    let ghost acc = ctx.acc_projections@;
    let (forward, local, names) = split_acc_projections(ctx.acc_projections, &columns, ea);
    proof {
        lemma_filter_subset(acc, forward_pred(*ea, columns@));
        lemma_filter_subset(acc, local_pred(*ea, columns@));
    }
    if local.len() == 0 {
        if forward.len() == 0 {
            proof {
                if acc.len() > 0 {
                    if forward_pred(*ea, columns@)(acc[0]) {
                        assert(acc.filter(forward_pred(*ea, columns@)).contains(acc[0]));
                    } else {
                        assert(acc.filter(local_pred(*ea, columns@)).contains(acc[0]));
                    }
                }
                lemma_unchanged(*pa, *ea);
            }
            return Ok(node);
        }
        let narrowed = retain_names(&columns, &names);
        let h = pa.add_scan(narrowed, ea);
        proof {
            assert forall|x: u64| #[trigger] names@.contains(x) == outputs_of(*ea, acc).contains(x) by {
                if names@.contains(x) {
                    let j = choose|j: int| 0 <= j < names@.len() && names@[j] == x;
                    assert(acc.contains(forward@[j]));
                    let m = choose|m: int| 0 <= m < acc.len() && acc[m] == forward@[j];
                    assert(outputs_of(*ea, acc)[m] == x);
                }
                if outputs_of(*ea, acc).contains(x) {
                    let m = choose|m: int| 0 <= m < outputs_of(*ea, acc).len() && outputs_of(*ea, acc)[m] == x;
                    if !forward_pred(*ea, columns@)(acc[m]) {
                        assert(local@.contains(acc[m]));
                    }
                    assert(forward@.contains(acc[m]));
                    let j = choose|j: int| 0 <= j < forward@.len() && forward@[j] == acc[m];
                    assert(names@[j] == x);
                }
            }
            assert(member_pred(names@) =~= member_pred(outputs_of(*ea, acc)));
            lemma_rewrite_keeps_entries(*old(pa), *pa, *ea, *ea);
            assert forall|k: int| 0 <= k < acc.len() implies pa.schema_at(h as int).contains(
                ea.output_of(#[trigger] acc[k]),
            ) by {
                if !forward_pred(*ea, columns@)(acc[k]) {
                    assert(local_pred(*ea, columns@)(acc[k]));
                    assert(local@.contains(acc[k]));
                }
                assert(forward@.contains(acc[k]));
                let j = choose|j: int| 0 <= j < forward@.len() && forward@[j] == acc[k];
                assert(names@[j] == ea.output_of(acc[k]));
                assert(names@.contains(ea.output_of(acc[k])));
            }
        }
        Ok(h)
    } else {
        let combined = concat_handles(local, &forward);
        let ghost sch = old(pa).schema_at(node as int);
        proof {
            assert(acc.contains(local@[0]));
            let m = choose|m: int| 0 <= m < acc.len() && acc[m] == local@[0];
            if ea.nodes@[acc[m] as int].is_column {
                assert(ea.reads_within(acc[m], sch));
                assert(ea.nodes@[acc[m] as int].inputs@[0] == ea.nodes@[acc[m] as int].output);
                assert(!local_pred(*ea, columns@)(local@[0]));
            }
            assert(any_composite(*ea, acc));
            assert forall|k: int| 0 <= k < combined@.len() implies ea.reads_within(
                #[trigger] combined@[k],
                sch,
            ) && combined@[k] < ea.nodes@.len() by {
                if k < local@.len() {
                    assert(combined@[k] == local@[k]);
                    assert(acc.contains(local@[k]));
                } else {
                    assert(combined@[k] == forward@[k - local@.len()]);
                    assert(acc.contains(forward@[k - local@.len()]));
                }
            }
        }
        let r = pa.add_select(node, combined, ea);
        proof {
            lemma_rewrite_keeps_entries(*old(pa), *pa, *ea, *ea);
            let h = r->Ok_0;
            assert forall|k: int| 0 <= k < acc.len() implies pa.schema_at(h as int).contains(
                ea.output_of(#[trigger] acc[k]),
            ) by {
                let j = if forward_pred(*ea, columns@)(acc[k]) {
                    assert(forward@.contains(acc[k]));
                    let j0 = choose|j: int| 0 <= j < forward@.len() && forward@[j] == acc[k];
                    assert(combined@[local@.len() + j0] == acc[k]);
                    local@.len() + j0
                } else {
                    assert(local@.contains(acc[k]));
                    let j0 = choose|j: int| 0 <= j < local@.len() && local@[j] == acc[k];
                    assert(combined@[j0] == acc[k]);
                    j0
                };
                assert(outputs_of(*ea, combined@)[j] == ea.output_of(acc[k]));
            }
        }
        r
    }
}

} // verus!

verus! {

/// Rebuilds `node` over its child rewritten with no requirement at all, so
/// that nothing below is pruned on account of what is required above.
fn restart_core(node: usize, pa: &mut PlanArena, ea: &mut ExprArena) -> (r: Result<
    usize,
    PlanError,
>)
    requires
        old(pa).wf(*old(ea)),
        old(ea).wf(),
        node < old(pa).entries@.len(),
    ensures
        r matches Ok(h) && {
            &&& final(pa).wf(*final(ea))
            &&& final(ea).wf()
            &&& final(pa).extends(old(pa))
            &&& final(ea).extends(old(ea))
            &&& h < final(pa).entries@.len()
            &&& final(pa).schema_at(h as int) == old(pa).schema_at(node as int)
            &&& same_over(old(pa).node_at(node as int), *old(pa), final(pa).node_at(h as int), *final(pa))
        },
    decreases node, 0usize,
{
    proof {
        assert(old(pa).entry_wf(node as int, *old(ea)));
    }
    let ghost pa0 = *old(pa);
    let ghost ea0 = *old(ea);
    match &pa.entries[node].node {
        PlanNode::Scan { .. } => {
            proof {
                lemma_unchanged(*pa, *ea);
            }
            Ok(node)
        },
        PlanNode::Select { input, exprs } => {
            let input = *input;
            let exprs = copy_handles(exprs);
            let empty = ProjectionContext::empty();
            proof {
                lemma_empty_ctx(empty, *ea, pa.schema_at(input as int));
            }
            let c = match pushdown_and_assign(input, empty, pa, ea) {
                Ok(c) => c,
                Err(e) => return Err(e),
            };
            proof {
                lemma_rewrite_keeps_entries(pa0, *pa, ea0, *ea);
                lemma_expr_grow(ea0, *ea, exprs@, pa0.schema_at(input as int));
            }
            let r = pa.add_select(c, exprs, ea);
            proof {
                lemma_rewrite_keeps_entries(pa0, *pa, ea0, *ea);
            }
            r
        },
        PlanNode::Unpivot { input, args } => {
            let input = *input;
            let args = args.duplicate();
            let empty = ProjectionContext::empty();
            proof {
                lemma_empty_ctx(empty, *ea, pa.schema_at(input as int));
            }
            let c = match pushdown_and_assign(input, empty, pa, ea) {
                Ok(c) => c,
                Err(e) => return Err(e),
            };
            proof {
                lemma_rewrite_keeps_entries(pa0, *pa, ea0, *ea);
            }
            let ghost a = args;
            let r = pa.add_unpivot(c, args, ea);
            proof {
                lemma_rewrite_keeps_entries(pa0, *pa, ea0, *ea);
            }
            r
        },
    }
}

/// The fallback where requirements cannot be pushed through `node`: the
/// subtree below is rewritten as if the pass started there, and what `ctx`
/// requires is projected explicitly on top.
pub fn no_pushdown_restart_opt(
    node: usize,
    ctx: ProjectionContext,
    pa: &mut PlanArena,
    ea: &mut ExprArena,
) -> (r: Result<usize, PlanError>)
    requires
        pass_ready(*old(pa), *old(ea), node, ctx),
    ensures
        r matches Ok(h) && rewritten(*old(pa), *old(ea), *final(pa), *final(ea), node, ctx, h),
        r matches Ok(h) && same_over(
            old(pa).node_at(node as int),
            *old(pa),
            final(pa).node_at(
                if ctx.acc_projections@.len() == 0 {
                    h as int
                } else {
                    peel(*final(pa), h)
                },
            ),
            *final(pa),
        ),
        r matches Ok(h) ==> (ctx.acc_projections@.len() > 0 ==> (final(pa).node_at(h as int) matches PlanNode::Select { exprs, .. } && exprs@ == ctx.acc_projections@)),
    decreases node, 1usize,
{
    let ghost pa0 = *old(pa);
    let ghost ea0 = *old(ea);
    let core = match restart_core(node, pa, ea) {
        Ok(c) => c,
        Err(e) => return Err(e),
    };
    if ctx.acc_projections.len() == 0 {
        return Ok(core);
    }
    let ghost pa_core = *pa;
    proof {
        lemma_expr_grow(ea0, *ea, ctx.acc_projections@, pa0.schema_at(node as int));
    }
    let ghost acc = ctx.acc_projections@;
    let r = pa.add_select(core, ctx.acc_projections, ea);
    proof {
        lemma_rewrite_keeps_entries(pa_core, *pa, *ea, *ea);
        assert(pa_core.entry_wf(core as int, *ea));
        let h = r->Ok_0;
        assert forall|k: int| 0 <= k < acc.len() implies pa.schema_at(h as int).contains(
            ea0.output_of(#[trigger] acc[k]),
        ) by {
            assert(outputs_of(*ea, acc)[k] == ea0.output_of(acc[k]));
        }
    }
    r
}

/// Pushes requirements through a reshape. With an empty `on` the melted
/// columns are known only at run time, so the reshape is a boundary and the
/// fallback runs. Otherwise the forwardable requirements, together with
/// every index and `on` column, are pushed to the child, and the reshape is
/// rebuilt over the rewritten child. Column references are then produced by
/// the reshape itself; only where some requirement is more than a column
/// reference does an explicit projection on top evaluate the requirements
/// that are not forwardable, followed by the forwardable ones.
pub fn process_unpivot(
    node: usize,
    args: &UnpivotArgs,
    input: usize,
    ctx: ProjectionContext,
    pa: &mut PlanArena,
    ea: &mut ExprArena,
) -> (r: Result<usize, PlanError>)
    requires
        pass_ready(*old(pa), *old(ea), node, ctx),
        old(pa).node_at(node as int) matches PlanNode::Unpivot { input: i, args: a } && i == input
            && same_args(a, *args),
    ensures
        r matches Ok(h) && rewritten(*old(pa), *old(ea), *final(pa), *final(ea), node, ctx, h),
        r matches Ok(h) ==> (args.on@.len() == 0 ==> same_over(
            old(pa).node_at(node as int),
            *old(pa),
            final(pa).node_at(peel(*final(pa), h)),
            *final(pa),
        )),
        r matches Ok(h) ==> (args.on@.len() > 0 ==> unpivot_over(*final(pa), peel(*final(pa), h), *args)),
        r matches Ok(h) ==> (args.on@.len() > 0 && old(pa).node_at(input as int) is Scan ==> (final(pa).node_at(peel(*final(pa), h)) matches PlanNode::Unpivot { input: c, .. }
            && final(pa).schema_at(c as int) == old(pa).schema_at(input as int).filter(
            member_pred(
                outputs_of(
                    *old(ea),
                    ctx.acc_projections@.filter(forward_pred(*old(ea), old(pa).schema_at(input as int))),
                ) + args.index@ + args.on@,
            ),
        ))),
        r matches Ok(h) ==> (args.on@.len() == 0 && ctx.acc_projections@.len() > 0 ==> (final(pa).node_at(h as int) matches PlanNode::Select { exprs, .. } && exprs@ == ctx.acc_projections@)),
        r matches Ok(h) ==> (args.on@.len() > 0 && final(pa).node_at(h as int) is Select ==> (final(pa).node_at(h as int) matches PlanNode::Select { exprs, .. } && exprs@
            == ctx.acc_projections@.filter(local_pred(*old(ea), old(pa).schema_at(input as int)))
            + ctx.acc_projections@.filter(forward_pred(*old(ea), old(pa).schema_at(input as int))))),
        r matches Ok(h) ==> (args.on@.len() > 0 ==> (final(pa).node_at(h as int) is Select <==> exists|k: int|
            0 <= k < ctx.acc_projections@.len() && !old(ea).nodes@[#[trigger] ctx.acc_projections@[k] as int].is_column)),
    decreases node, 2usize,
{
    let ghost pa0 = *old(pa);
    let ghost ea0 = *old(ea);
    proof {
        assert(pa0.entry_wf(node as int, ea0));
        assert(input < node);
    }
    if args.on.len() == 0 {
        let r = no_pushdown_restart_opt(node, ctx, pa, ea);
        return r;
    }
    let child_schema = pa.schema(input);
    let ghost acc = ctx.acc_projections@;
    let (acc_projections, local, names) = split_acc_projections(
        ctx.acc_projections,
        &child_schema,
        ea,
    );
    proof {
        lemma_filter_subset(acc, forward_pred(ea0, child_schema@));
        lemma_filter_subset(acc, local_pred(ea0, child_schema@));
    }
    let ghost forward = acc_projections@;
    let composite = has_composite(&local, ea);
    let local_projections = if composite {
        concat_handles(local, &acc_projections)
    } else {
        local
    };
    let ghost lproj = local_projections@;
    let ghost fwnames = names@;
    let mut child_ctx = ProjectionContext::new(acc_projections, names);
    proof {
        assert forall|k: int| 0 <= k < forward.len() implies ea.reads_within(
            #[trigger] forward[k],
            child_schema@,
        ) by {
            assert(forward_pred(ea0, child_schema@)(forward[k]));
            assert(acc.contains(forward[k]));
            assert(ea.nodes@[forward[k] as int].inputs@ == seq![ea.nodes@[forward[k] as int].output]);
        }
    }
    let mut i: usize = 0;
    while i < args.index.len()
        invariant
            0 <= i <= args.index@.len(),
            ea.wf(),
            ea.extends(&ea0),
            pa.entries@ == pa0.entries@,
            pa.wf(*ea),
            child_ctx.wf(*ea),
            child_ctx.valid_for(*ea, child_schema@),
            child_schema@ == pa0.schema_at(input as int),
            all_in(args.index@, child_schema@),
            forall|j: int| 0 <= j < i ==> child_ctx.projected_names@.contains(#[trigger] args.index@[j]),
            forall|k: int| 0 <= k < child_ctx.acc_projections@.len() ==> ea.nodes@[#[trigger] child_ctx.acc_projections@[k] as int].is_column,
            forall|x: u64| #[trigger] child_ctx.projected_names@.contains(x) ==> fwnames.contains(x) || args.index@.contains(x) || args.on@.contains(x),
            forall|x: u64| #[trigger] fwnames.contains(x) ==> child_ctx.projected_names@.contains(x),
        decreases args.index@.len() - i,
    {
        let ghost ea_prev = *ea;
        let ghost ctx_prev = child_ctx;
        add_str_to_accumulated(args.index[i], &mut child_ctx, ea);
        proof {
            lemma_wf_grow_exprs(pa, &ea_prev, ea);
            lemma_expr_grow(ea_prev, *ea, ctx_prev.acc_projections@, child_schema@);
            assert(ea.extends(&ea0));
            assert(child_schema@.contains(args.index@[i as int]));
            assert forall|x: u64| #[trigger] fwnames.contains(x) implies child_ctx.projected_names@.contains(x) by {
                assert(ctx_prev.projected_names@.contains(x));
                let m = choose|m: int| 0 <= m < ctx_prev.projected_names@.len() && ctx_prev.projected_names@[m] == x;
                assert(child_ctx.projected_names@[m] == x);
            }
            assert forall|x: u64| #[trigger] child_ctx.projected_names@.contains(x) implies fwnames.contains(x) || args.index@.contains(x) || args.on@.contains(x) by {
                let m = choose|m: int| 0 <= m < child_ctx.projected_names@.len() && child_ctx.projected_names@[m] == x;
                if m < ctx_prev.projected_names@.len() {
                    assert(ctx_prev.projected_names@[m] == x);
                    assert(ctx_prev.projected_names@.contains(x));
                } else {
                    assert(x == args.index@[i as int]);
                    assert(args.index@.contains(x));
                }
            }
            assert forall|k: int| 0 <= k < child_ctx.acc_projections@.len() implies ea.nodes@[#[trigger] child_ctx.acc_projections@[k] as int].is_column by {
                if k < ctx_prev.acc_projections@.len() {
                    assert(child_ctx.acc_projections@[k] == ctx_prev.acc_projections@[k]);
                    assert(ea.nodes@[ctx_prev.acc_projections@[k] as int] == ea_prev.nodes@[ctx_prev.acc_projections@[k] as int]);
                } else {
                    assert(k == ctx_prev.acc_projections@.len());
                }
            }
            assert forall|j: int| 0 <= j <= i implies child_ctx.projected_names@.contains(
                #[trigger] args.index@[j],
            ) by {
                if j < i {
                    assert(ctx_prev.projected_names@.contains(args.index@[j]));
                    let m = choose|m: int| 0 <= m < ctx_prev.projected_names@.len() && ctx_prev.projected_names@[m] == args.index@[j];
                    assert(child_ctx.projected_names@[m] == args.index@[j]);
                }
            }
            assert forall|k: int| 0 <= k < child_ctx.acc_projections@.len() implies ea.reads_within(
                #[trigger] child_ctx.acc_projections@[k],
                child_schema@,
            ) by {
                if k < ctx_prev.acc_projections@.len() {
                    assert(child_ctx.acc_projections@[k] == ctx_prev.acc_projections@[k]);
                } else {
                    assert(!ctx_prev.projected_names@.contains(args.index@[i as int]));
                    assert(k == ctx_prev.acc_projections@.len());
                    assert(child_ctx.acc_projections@[k] == ea_prev.nodes@.len());
                    assert(ea.nodes@[child_ctx.acc_projections@[k] as int].inputs@ == seq![args.index@[i as int]]);
                }
            }
        }
        i = i + 1;
    }
    let mut i: usize = 0;
    while i < args.on.len()
        invariant
            0 <= i <= args.on@.len(),
            ea.wf(),
            ea.extends(&ea0),
            pa.entries@ == pa0.entries@,
            pa.wf(*ea),
            child_ctx.wf(*ea),
            child_ctx.valid_for(*ea, child_schema@),
            child_schema@ == pa0.schema_at(input as int),
            all_in(args.on@, child_schema@),
            forall|j: int| 0 <= j < args.index@.len() ==> child_ctx.projected_names@.contains(#[trigger] args.index@[j]),
            forall|j: int| 0 <= j < i ==> child_ctx.projected_names@.contains(#[trigger] args.on@[j]),
            forall|k: int| 0 <= k < child_ctx.acc_projections@.len() ==> ea.nodes@[#[trigger] child_ctx.acc_projections@[k] as int].is_column,
            forall|x: u64| #[trigger] child_ctx.projected_names@.contains(x) ==> fwnames.contains(x) || args.index@.contains(x) || args.on@.contains(x),
            forall|x: u64| #[trigger] fwnames.contains(x) ==> child_ctx.projected_names@.contains(x),
        decreases args.on@.len() - i,
    {
        let ghost ea_prev = *ea;
        let ghost ctx_prev = child_ctx;
        add_str_to_accumulated(args.on[i], &mut child_ctx, ea);
        proof {
            lemma_wf_grow_exprs(pa, &ea_prev, ea);
            lemma_expr_grow(ea_prev, *ea, ctx_prev.acc_projections@, child_schema@);
            assert(ea.extends(&ea0));
            assert(child_schema@.contains(args.on@[i as int]));
            assert forall|x: u64| #[trigger] fwnames.contains(x) implies child_ctx.projected_names@.contains(x) by {
                assert(ctx_prev.projected_names@.contains(x));
                let m = choose|m: int| 0 <= m < ctx_prev.projected_names@.len() && ctx_prev.projected_names@[m] == x;
                assert(child_ctx.projected_names@[m] == x);
            }
            assert forall|x: u64| #[trigger] child_ctx.projected_names@.contains(x) implies fwnames.contains(x) || args.index@.contains(x) || args.on@.contains(x) by {
                let m = choose|m: int| 0 <= m < child_ctx.projected_names@.len() && child_ctx.projected_names@[m] == x;
                if m < ctx_prev.projected_names@.len() {
                    assert(ctx_prev.projected_names@[m] == x);
                    assert(ctx_prev.projected_names@.contains(x));
                } else {
                    assert(x == args.on@[i as int]);
                    assert(args.on@.contains(x));
                }
            }
            assert forall|k: int| 0 <= k < child_ctx.acc_projections@.len() implies ea.nodes@[#[trigger] child_ctx.acc_projections@[k] as int].is_column by {
                if k < ctx_prev.acc_projections@.len() {
                    assert(child_ctx.acc_projections@[k] == ctx_prev.acc_projections@[k]);
                    assert(ea.nodes@[ctx_prev.acc_projections@[k] as int] == ea_prev.nodes@[ctx_prev.acc_projections@[k] as int]);
                } else {
                    assert(k == ctx_prev.acc_projections@.len());
                }
            }
            assert forall|j: int| 0 <= j < args.index@.len() implies child_ctx.projected_names@.contains(
                #[trigger] args.index@[j],
            ) by {
                assert(ctx_prev.projected_names@.contains(args.index@[j]));
                let m = choose|m: int| 0 <= m < ctx_prev.projected_names@.len() && ctx_prev.projected_names@[m] == args.index@[j];
                assert(child_ctx.projected_names@[m] == args.index@[j]);
            }
            assert forall|j: int| 0 <= j <= i implies child_ctx.projected_names@.contains(
                #[trigger] args.on@[j],
            ) by {
                if j < i {
                    assert(ctx_prev.projected_names@.contains(args.on@[j]));
                    let m = choose|m: int| 0 <= m < ctx_prev.projected_names@.len() && ctx_prev.projected_names@[m] == args.on@[j];
                    assert(child_ctx.projected_names@[m] == args.on@[j]);
                }
            }
            assert forall|k: int| 0 <= k < child_ctx.acc_projections@.len() implies ea.reads_within(
                #[trigger] child_ctx.acc_projections@[k],
                child_schema@,
            ) by {
                if k < ctx_prev.acc_projections@.len() {
                    assert(child_ctx.acc_projections@[k] == ctx_prev.acc_projections@[k]);
                } else {
                    assert(!ctx_prev.projected_names@.contains(args.on@[i as int]));
                    assert(k == ctx_prev.acc_projections@.len());
                    assert(child_ctx.acc_projections@[k] == ea_prev.nodes@.len());
                    assert(ea.nodes@[child_ctx.acc_projections@[k] as int].inputs@ == seq![args.on@[i as int]]);
                }
            }
        }
        i = i + 1;
    }
    let ghost pa_mid = *pa;
    let ghost ea_mid = *ea;
    let ghost cctx = child_ctx;
    let c = match pushdown_and_assign(input, child_ctx, pa, ea) {
        Ok(c) => c,
        Err(e) => return Err(e),
    };
    proof {
        assert forall|x: u64| cctx.projected_names@.contains(x) implies pa.schema_at(c as int).contains(x) by {
            let m = choose|m: int| 0 <= m < cctx.projected_names@.len() && cctx.projected_names@[m] == x;
            assert(outputs_of(ea_mid, cctx.acc_projections@)[m] == ea_mid.output_of(cctx.acc_projections@[m]));
        }
        assert forall|j: int| 0 <= j < args.index@.len() implies pa.schema_at(c as int).contains(#[trigger] args.index@[j]) by {
            assert(cctx.projected_names@.contains(args.index@[j]));
        }
        assert forall|j: int| 0 <= j < args.on@.len() implies pa.schema_at(c as int).contains(#[trigger] args.on@[j]) by {
            assert(cctx.projected_names@.contains(args.on@[j]));
        }
        lemma_rewrite_keeps_entries(pa0, *pa, ea0, *ea);
        assert(cctx.projected_names@.contains(args.on@[0]));
        assert(cctx.acc_projections@.len() > 0);
        assert(cctx.projected_names@ == outputs_of(ea_mid, cctx.acc_projections@));
        assert forall|x: u64| #[trigger] cctx.projected_names@.contains(x) == (fwnames + args.index@ + args.on@).contains(x) by {
            if (fwnames + args.index@ + args.on@).contains(x) {
                let m = choose|m: int| 0 <= m < (fwnames + args.index@ + args.on@).len() && (fwnames + args.index@ + args.on@)[m] == x;
                if m < fwnames.len() {
                    assert(fwnames[m] == x);
                    assert(fwnames.contains(x));
                } else if m < fwnames.len() + args.index@.len() {
                    assert(args.index@[m - fwnames.len()] == x);
                    assert(cctx.projected_names@.contains(args.index@[m - fwnames.len()]));
                } else {
                    assert(args.on@[m - fwnames.len() - args.index@.len()] == x);
                    assert(cctx.projected_names@.contains(args.on@[m - fwnames.len() - args.index@.len()]));
                }
            }
            if cctx.projected_names@.contains(x) {
                if fwnames.contains(x) {
                    let m = choose|m: int| 0 <= m < fwnames.len() && fwnames[m] == x;
                    assert((fwnames + args.index@ + args.on@)[m] == x);
                } else if args.index@.contains(x) {
                    let m = choose|m: int| 0 <= m < args.index@.len() && args.index@[m] == x;
                    assert((fwnames + args.index@ + args.on@)[fwnames.len() + m] == x);
                } else {
                    let m = choose|m: int| 0 <= m < args.on@.len() && args.on@[m] == x;
                    assert((fwnames + args.index@ + args.on@)[fwnames.len() + args.index@.len() + m] == x);
                }
            }
        }
        assert(member_pred(cctx.projected_names@) =~= member_pred(fwnames + args.index@ + args.on@));
        assert(pa_mid.schema_at(input as int) == pa0.schema_at(input as int));
    }
    let ghost pa_child = *pa;
    let u = match pa.add_unpivot(c, args.duplicate(), ea) {
        Ok(u) => u,
        Err(e) => return Err(e),
    };
    proof {
        lemma_rewrite_keeps_entries(pa0, *pa, ea0, *ea);
        assert(pa.entry_wf(u as int, *ea));
        lemma_expr_grow(ea0, *ea, acc, pa0.schema_at(node as int));
    }
    if !composite {
        proof {
            assert forall|k: int| 0 <= k < acc.len() implies pa.schema_at(u as int).contains(
                ea0.output_of(#[trigger] acc[k]),
            ) by {
                if !forward_pred(ea0, child_schema@)(acc[k]) {
                    assert(local_pred(ea0, child_schema@)(acc[k]));
                    assert(local@.contains(acc[k]));
                    let j = choose|j: int| 0 <= j < local@.len() && local@[j] == acc[k];
                    assert(ea0.nodes@[local@[j] as int].is_column);
                }
                assert(ea0.reads_within(acc[k], pa0.schema_at(node as int)));
                assert(ea0.nodes@[acc[k] as int].inputs@[0] == ea0.output_of(acc[k]));
            }
            assert forall|k: int| 0 <= k < acc.len() implies ea0.nodes@[#[trigger] acc[k] as int].is_column by {
                if !forward_pred(ea0, child_schema@)(acc[k]) {
                    assert(local@.contains(acc[k]));
                    let j = choose|j: int| 0 <= j < local@.len() && local@[j] == acc[k];
                    assert(ea0.nodes@[local@[j] as int].is_column);
                }
            }
        }
        return Ok(u);
    }
    proof {
        assert forall|k: int| 0 <= k < lproj.len() implies ea.reads_within(
            #[trigger] lproj[k],
            pa.schema_at(u as int),
        ) && lproj[k] < ea.nodes@.len() by {
            if k < local@.len() {
                assert(lproj[k] == local@[k]);
                assert(acc.contains(local@[k]));
            } else {
                assert(lproj[k] == forward[k - local@.len()]);
                assert(acc.contains(forward[k - local@.len()]));
            }
            let m = choose|m: int| 0 <= m < acc.len() && acc[m] == lproj[k];
            assert(ea.reads_within(acc[m], pa0.schema_at(node as int)));
        }
    }
    let r = pa.add_select(u, local_projections, ea);
    proof {
        let j = choose|j: int| 0 <= j < local@.len() && !ea0.nodes@[#[trigger] local@[j] as int].is_column;
        assert(acc.contains(local@[j]));
        lemma_rewrite_keeps_entries(pa0, *pa, ea0, *ea);
        let h = r->Ok_0;
        assert forall|k: int| 0 <= k < acc.len() implies pa.schema_at(h as int).contains(
            ea0.output_of(#[trigger] acc[k]),
        ) by {
            let j = if forward_pred(ea0, child_schema@)(acc[k]) {
                assert(forward.contains(acc[k]));
                let j0 = choose|j: int| 0 <= j < forward.len() && forward[j] == acc[k];
                assert(lproj[local@.len() + j0] == acc[k]);
                local@.len() + j0
            } else {
                assert(local@.contains(acc[k]));
                let j0 = choose|j: int| 0 <= j < local@.len() && local@[j] == acc[k];
                assert(lproj[j0] == acc[k]);
                j0
            };
            assert(outputs_of(*ea, lproj)[j] == ea.output_of(acc[k]));
        }
    }
    r
}

} // verus!
