use projection_pushdown::context::{split_acc_projections, ProjectionContext};
use projection_pushdown::expr::ExprArena;
use projection_pushdown::plan::{PlanArena, PlanError, PlanNode, UnpivotArgs};
use projection_pushdown::pushdown::{no_pushdown_restart_opt, process_unpivot, pushdown_and_assign};

const ID: u64 = 1;
const YEAR2020: u64 = 2;
const YEAR2021: u64 = 3;
const VARIABLE: u64 = 4;
const VALUE: u64 = 5;
const COMPUTED: u64 = 6;
const EXTRA: u64 = 7;

fn reshape_args(on: Vec<u64>) -> UnpivotArgs {
    UnpivotArgs { index: vec![ID], on, variable_name: VARIABLE, value_name: VALUE }
}

fn context_of_columns(ea: &mut ExprArena, names: &[u64]) -> ProjectionContext {
    let mut acc = Vec::new();
    for &n in names {
        acc.push(ea.add_column(n));
    }
    ProjectionContext::new(acc, names.to_vec())
}

/// Builds scan(columns) -> unpivot(args) and returns (scan, unpivot).
fn reshape_plan(pa: &mut PlanArena, ea: &ExprArena, columns: Vec<u64>, on: Vec<u64>) -> (usize, usize) {
    let scan = pa.add_scan(columns, ea);
    let unpivot = pa.add_unpivot(scan, reshape_args(on), ea).unwrap();
    (scan, unpivot)
}

fn input_of(pa: &PlanArena, h: usize) -> usize {
    match &pa.entries[h].node {
        PlanNode::Select { input, .. } => *input,
        PlanNode::Unpivot { input, .. } => *input,
        PlanNode::Scan { .. } => panic!("a scan has no input"),
    }
}

#[test]
fn static_reshape_requested_columns_need_no_projection() {
    let mut ea = ExprArena::new();
    let mut pa = PlanArena::new();
    let (_, unpivot) = reshape_plan(&mut pa, &ea, vec![ID, YEAR2020, YEAR2021], vec![YEAR2020, YEAR2021]);
    let ctx = context_of_columns(&mut ea, &[ID, VALUE]);
    let h = pushdown_and_assign(unpivot, ctx, &mut pa, &mut ea).unwrap();
    assert!(matches!(pa.entries[h].node, PlanNode::Unpivot { .. }));
    assert_eq!(pa.schema(h), vec![ID, VARIABLE, VALUE]);
    let child = input_of(&pa, h);
    assert!(matches!(pa.entries[child].node, PlanNode::Scan { .. }));
    assert_eq!(pa.schema(child), vec![ID, YEAR2020, YEAR2021]);
}

#[test]
fn static_reshape_prunes_unused_input_columns() {
    let mut ea = ExprArena::new();
    let mut pa = PlanArena::new();
    let (_, unpivot) =
        reshape_plan(&mut pa, &ea, vec![ID, EXTRA, YEAR2020, YEAR2021], vec![YEAR2020, YEAR2021]);
    let ctx = context_of_columns(&mut ea, &[VALUE]);
    let h = pushdown_and_assign(unpivot, ctx, &mut pa, &mut ea).unwrap();
    assert_eq!(pa.schema(h), vec![ID, VARIABLE, VALUE]);
    let child = input_of(&pa, h);
    assert_eq!(pa.schema(child), vec![ID, YEAR2020, YEAR2021]);
}

#[test]
fn static_reshape_composite_expression_is_projected_above() {
    let mut ea = ExprArena::new();
    let mut pa = PlanArena::new();
    let (_, unpivot) = reshape_plan(&mut pa, &ea, vec![ID, YEAR2020, YEAR2021], vec![YEAR2020, YEAR2021]);
    let computed = ea.add_computed(COMPUTED, vec![VALUE]);
    let ctx = ProjectionContext::new(vec![computed], vec![COMPUTED]);
    let h = pushdown_and_assign(unpivot, ctx, &mut pa, &mut ea).unwrap();
    match &pa.entries[h].node {
        PlanNode::Select { exprs, .. } => assert_eq!(exprs, &vec![computed]),
        _ => panic!("expected an explicit projection"),
    }
    assert_eq!(pa.schema(h), vec![COMPUTED]);
    let rebuilt = input_of(&pa, h);
    assert!(matches!(pa.entries[rebuilt].node, PlanNode::Unpivot { .. }));
    assert_eq!(pa.schema(rebuilt), vec![ID, VARIABLE, VALUE]);
    assert_eq!(pa.schema(input_of(&pa, rebuilt)), vec![ID, YEAR2020, YEAR2021]);
}

#[test]
fn static_reshape_local_group_comes_before_forwardable() {
    let mut ea = ExprArena::new();
    let mut pa = PlanArena::new();
    let (_, unpivot) = reshape_plan(&mut pa, &ea, vec![ID, YEAR2020, YEAR2021], vec![YEAR2020, YEAR2021]);
    let id = ea.add_column(ID);
    let computed = ea.add_computed(COMPUTED, vec![VALUE]);
    let ctx = ProjectionContext::new(vec![id, computed], vec![ID, COMPUTED]);
    let h = pushdown_and_assign(unpivot, ctx, &mut pa, &mut ea).unwrap();
    assert_eq!(pa.schema(h), vec![COMPUTED, ID]);
}

#[test]
fn dynamic_reshape_is_a_pushdown_boundary() {
    let mut ea = ExprArena::new();
    let mut pa = PlanArena::new();
    let (scan, unpivot) = reshape_plan(&mut pa, &ea, vec![ID, EXTRA, YEAR2020, YEAR2021], vec![]);
    let ctx = context_of_columns(&mut ea, &[ID, VALUE]);
    let h = pushdown_and_assign(unpivot, ctx, &mut pa, &mut ea).unwrap();
    assert!(matches!(pa.entries[h].node, PlanNode::Select { .. }));
    assert_eq!(pa.schema(h), vec![ID, VALUE]);
    let rebuilt = input_of(&pa, h);
    assert!(matches!(pa.entries[rebuilt].node, PlanNode::Unpivot { .. }));
    assert_eq!(input_of(&pa, rebuilt), scan);
    assert_eq!(pa.schema(scan), vec![ID, EXTRA, YEAR2020, YEAR2021]);
}

#[test]
fn dynamic_reshape_with_nothing_required_keeps_schema() {
    let mut ea = ExprArena::new();
    let mut pa = PlanArena::new();
    let (scan, unpivot) = reshape_plan(&mut pa, &ea, vec![ID, YEAR2020], vec![]);
    let h = process_unpivot(unpivot, &reshape_args(vec![]), scan, ProjectionContext::empty(), &mut pa, &mut ea)
        .unwrap();
    assert!(matches!(pa.entries[h].node, PlanNode::Unpivot { .. }));
    assert_eq!(pa.schema(h), vec![ID, VARIABLE, VALUE]);
    assert_eq!(input_of(&pa, h), scan);
}

#[test]
fn nothing_required_keeps_schema() {
    let mut ea = ExprArena::new();
    let mut pa = PlanArena::new();
    let (_, unpivot) =
        reshape_plan(&mut pa, &ea, vec![ID, EXTRA, YEAR2020, YEAR2021], vec![YEAR2020, YEAR2021]);
    let h = pushdown_and_assign(unpivot, ProjectionContext::empty(), &mut pa, &mut ea).unwrap();
    assert_eq!(pa.schema(h), vec![ID, VARIABLE, VALUE]);
    assert_eq!(pa.schema(input_of(&pa, h)), vec![ID, YEAR2020, YEAR2021]);
}

#[test]
fn rewriting_only_appends_entries() {
    let mut ea = ExprArena::new();
    let mut pa = PlanArena::new();
    let (scan, unpivot) =
        reshape_plan(&mut pa, &ea, vec![ID, EXTRA, YEAR2020, YEAR2021], vec![YEAR2020, YEAR2021]);
    let before = pa.len();
    let ctx = context_of_columns(&mut ea, &[ID]);
    let h = pushdown_and_assign(unpivot, ctx, &mut pa, &mut ea).unwrap();
    assert!(h >= before);
    assert!(pa.len() > before);
    assert_eq!(pa.schema(scan), vec![ID, EXTRA, YEAR2020, YEAR2021]);
    assert_eq!(pa.schema(unpivot), vec![ID, VARIABLE, VALUE]);
    assert_eq!(input_of(&pa, unpivot), scan);
}

#[test]
fn second_run_gives_the_same_shape() {
    let mut ea = ExprArena::new();
    let mut pa = PlanArena::new();
    let (_, unpivot) =
        reshape_plan(&mut pa, &ea, vec![ID, EXTRA, YEAR2020, YEAR2021], vec![YEAR2020, YEAR2021]);
    let computed = ea.add_computed(COMPUTED, vec![VALUE]);
    let first = pushdown_and_assign(unpivot, ProjectionContext::new(vec![computed], vec![COMPUTED]), &mut pa, &mut ea)
        .unwrap();
    let below = input_of(&pa, first);
    let second = pushdown_and_assign(below, ProjectionContext::new(vec![computed], vec![COMPUTED]), &mut pa, &mut ea)
        .unwrap();
    assert_eq!(pa.schema(second), pa.schema(first));
    let rebuilt = input_of(&pa, second);
    assert_eq!(pa.schema(rebuilt), vec![ID, VARIABLE, VALUE]);
    assert_eq!(pa.schema(input_of(&pa, rebuilt)), vec![ID, YEAR2020, YEAR2021]);
}

#[test]
fn scan_keeps_only_requested_columns_in_order() {
    let mut ea = ExprArena::new();
    let mut pa = PlanArena::new();
    let scan = pa.add_scan(vec![ID, EXTRA, YEAR2020], &ea);
    let ctx = context_of_columns(&mut ea, &[YEAR2020, ID]);
    let h = pushdown_and_assign(scan, ctx, &mut pa, &mut ea).unwrap();
    assert_eq!(pa.schema(h), vec![ID, YEAR2020]);
}

#[test]
fn scan_under_composite_expression_is_projected() {
    let mut ea = ExprArena::new();
    let mut pa = PlanArena::new();
    let scan = pa.add_scan(vec![ID, EXTRA], &ea);
    let computed = ea.add_computed(COMPUTED, vec![EXTRA]);
    let id = ea.add_column(ID);
    let ctx = ProjectionContext::new(vec![id, computed], vec![ID, COMPUTED]);
    let h = pushdown_and_assign(scan, ctx, &mut pa, &mut ea).unwrap();
    assert_eq!(pa.schema(h), vec![COMPUTED, ID]);
    assert_eq!(input_of(&pa, h), scan);
}

#[test]
fn select_restarts_below_and_projects_requirements() {
    let mut ea = ExprArena::new();
    let mut pa = PlanArena::new();
    let scan = pa.add_scan(vec![ID, EXTRA], &ea);
    let id = ea.add_column(ID);
    let extra = ea.add_column(EXTRA);
    let select = pa.add_select(scan, vec![id, extra], &ea).unwrap();
    let ctx = context_of_columns(&mut ea, &[EXTRA]);
    let h = no_pushdown_restart_opt(select, ctx, &mut pa, &mut ea).unwrap();
    assert_eq!(pa.schema(h), vec![EXTRA]);
    let core = input_of(&pa, h);
    assert_eq!(pa.schema(core), vec![ID, EXTRA]);
    assert_eq!(input_of(&pa, core), scan);
}

#[test]
fn split_partitions_in_input_order() {
    let mut ea = ExprArena::new();
    let a = ea.add_column(ID);
    let b = ea.add_computed(COMPUTED, vec![ID]);
    let c = ea.add_column(VALUE);
    let d = ea.add_column(YEAR2020);
    let (forward, local, names) = split_acc_projections(vec![a, b, c, d], &vec![ID, YEAR2020], &ea);
    assert_eq!(forward, vec![a, d]);
    assert_eq!(local, vec![b, c]);
    assert_eq!(names, vec![ID, YEAR2020]);
}

#[test]
fn split_of_nothing_is_empty() {
    let ea = ExprArena::new();
    let (forward, local, names) = split_acc_projections(vec![], &vec![ID], &ea);
    assert!(forward.is_empty() && local.is_empty() && names.is_empty());
}

#[test]
fn reshape_over_missing_column_is_a_schema_mismatch() {
    let ea = ExprArena::new();
    let mut pa = PlanArena::new();
    let scan = pa.add_scan(vec![ID, YEAR2020], &ea);
    let r = pa.add_unpivot(scan, reshape_args(vec![YEAR2021]), &ea);
    assert_eq!(r, Err(PlanError::SchemaMismatch { column: YEAR2021 }));
    assert_eq!(pa.len(), 1);
}

#[test]
fn projection_over_missing_column_is_a_schema_mismatch() {
    let mut ea = ExprArena::new();
    let mut pa = PlanArena::new();
    let scan = pa.add_scan(vec![ID], &ea);
    let value = ea.add_column(VALUE);
    assert_eq!(pa.add_select(scan, vec![value], &ea), Err(PlanError::SchemaMismatch { column: VALUE }));
}

#[test]
fn dynamic_reshape_projection_holds_exactly_the_requirements() {
    let mut ea = ExprArena::new();
    let mut pa = PlanArena::new();
    let (_, unpivot) = reshape_plan(&mut pa, &ea, vec![ID, YEAR2020], vec![]);
    let value = ea.add_column(VALUE);
    let id = ea.add_column(ID);
    let ctx = ProjectionContext::new(vec![value, id], vec![VALUE, ID]);
    let h = pushdown_and_assign(unpivot, ctx, &mut pa, &mut ea).unwrap();
    match &pa.entries[h].node {
        PlanNode::Select { exprs, .. } => assert_eq!(exprs, &vec![value, id]),
        _ => panic!("expected an explicit projection"),
    }
}
