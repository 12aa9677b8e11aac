use vstd::prelude::*;
use crate::expr::{ExprArena, contains_name, copy_names, copy_handles};

verus! {

/// Parameters of a reshape (unpivot): the index columns kept as they are,
/// and the columns melted into (variable, value) pairs. An empty `on` melts
/// every column that is not an index column.
pub struct UnpivotArgs {
    pub index: Vec<u64>,
    pub on: Vec<u64>,
    pub variable_name: u64,
    pub value_name: u64,
}

/// A logical plan node. Children are referred to by arena handle.
pub enum PlanNode {
    /// A data source producing `columns`, in order.
    Scan { columns: Vec<u64> },
    /// An explicit projection: one output column per expression.
    Select { input: usize, exprs: Vec<usize> },
    /// A reshape of the input into index, variable and value columns.
    Unpivot { input: usize, args: UnpivotArgs },
}

/// An arena entry: a node and its cached output schema.
pub struct PlanEntry {
    pub node: PlanNode,
    pub schema: Vec<u64>,
}

/// Append-only store of plan nodes, addressed by handle.
pub struct PlanArena {
    pub entries: Vec<PlanEntry>,
}

#[derive(Debug, PartialEq, Eq)]
pub enum PlanError {
    /// A column that a node needs is absent from its input's schema.
    SchemaMismatch { column: u64 },
}

/// Whether every name of `names` is in `schema`.
pub open spec fn all_in(names: Seq<u64>, schema: Seq<u64>) -> bool {
    forall|j: int| 0 <= j < names.len() ==> schema.contains(#[trigger] names[j])
}

/// Output schema of a reshape: the index columns, then variable and value.
pub open spec fn unpivot_schema(args: UnpivotArgs) -> Seq<u64> {
    args.index@ + seq![args.variable_name, args.value_name]
}

/// Output names of a list of expressions.
pub open spec fn outputs_of(ea: ExprArena, hs: Seq<usize>) -> Seq<u64> {
    hs.map_values(|h: usize| ea.output_of(h))
}

/// The child of a node, if it has one.
pub open spec fn input_of(node: PlanNode) -> Option<usize> {
    match node {
        PlanNode::Scan { .. } => None,
        PlanNode::Select { input, .. } => Some(input),
        PlanNode::Unpivot { input, .. } => Some(input),
    }
}

/// Output schema of `node` over an input of schema `input`.
pub open spec fn node_schema(node: PlanNode, input: Seq<u64>, ea: ExprArena) -> Seq<u64> {
    match node {
        PlanNode::Scan { columns } => columns@,
        PlanNode::Select { exprs, .. } => outputs_of(ea, exprs@),
        PlanNode::Unpivot { args, .. } => unpivot_schema(args),
    }
}

/// Whether `node` is well defined over an input of schema `input`: every
/// column it reads is there.
pub open spec fn node_valid(node: PlanNode, input: Seq<u64>, ea: ExprArena) -> bool {
    match node {
        PlanNode::Scan { .. } => true,
        PlanNode::Select { exprs, .. } => forall|k: int|
            0 <= k < exprs@.len() ==> ea.reads_within(#[trigger] exprs@[k], input),
        PlanNode::Unpivot { args, .. } => all_in(args.index@, input) && all_in(args.on@, input),
    }
}

impl PlanArena {
    pub open spec fn len_spec(&self) -> nat {
        self.entries@.len()
    }

    pub open spec fn node_at(&self, i: int) -> PlanNode {
        self.entries@[i].node
    }

    /// The cached schema of entry `i`.
    pub open spec fn schema_at(&self, i: int) -> Seq<u64> {
        self.entries@[i].schema@
    }

    /// Entry `i` reads only earlier entries, is valid over its input and
    /// caches the schema that its kind and input give.
    pub open spec fn entry_wf(&self, i: int, ea: ExprArena) -> bool {
        match input_of(self.node_at(i)) {
            Some(c) => {
                &&& c < i
                &&& node_valid(self.node_at(i), self.schema_at(c as int), ea)
                &&& self.schema_at(i) == node_schema(self.node_at(i), self.schema_at(c as int), ea)
            },
            None => self.schema_at(i) == node_schema(self.node_at(i), Seq::empty(), ea),
        }
    }

    pub open spec fn wf(&self, ea: ExprArena) -> bool {
        forall|i: int| 0 <= i < self.entries@.len() ==> #[trigger] self.entry_wf(i, ea)
    }

    /// `self` holds every entry of `older` unchanged, at the same handle.
    pub open spec fn extends(&self, older: &PlanArena) -> bool {
        older.entries@.is_prefix_of(self.entries@)
    }

    pub fn new() -> (r: PlanArena)
        ensures
            r.entries@.len() == 0,
    {
        PlanArena { entries: Vec::new() }
    }

    pub fn len(&self) -> (r: usize)
        ensures
            r == self.entries@.len(),
    {
        self.entries.len()
    }

    /// A copy of the cached schema of node `h`.
    pub fn schema(&self, h: usize) -> (r: Vec<u64>)
        requires
            h < self.entries@.len(),
        ensures
            r@ == self.schema_at(h as int),
    {
        copy_names(&self.entries[h].schema)
    }
}

impl UnpivotArgs {
    /// A copy of the arguments, equal in every name.
    pub fn duplicate(&self) -> (r: UnpivotArgs)
        ensures
            r.index@ == self.index@,
            r.on@ == self.on@,
            r.variable_name == self.variable_name,
            r.value_name == self.value_name,
    {
        UnpivotArgs {
            index: copy_names(&self.index),
            on: copy_names(&self.on),
            variable_name: self.variable_name,
            value_name: self.value_name,
        }
    }
}

/// Checks that every name of `names` is in `schema`; the error names the
/// first that is not.
fn check_all_in(names: &Vec<u64>, schema: &Vec<u64>) -> (r: Result<(), PlanError>)
    ensures
        r is Ok <==> all_in(names@, schema@),
        r matches Err(PlanError::SchemaMismatch { column }) ==> names@.contains(column)
            && !schema@.contains(column),
{
    let mut i: usize = 0;
    while i < names.len()
        invariant
            0 <= i <= names@.len(),
            forall|j: int| 0 <= j < i ==> schema@.contains(#[trigger] names@[j]),
        decreases names@.len() - i,
    {
        if !contains_name(schema, names[i]) {
            assert(names@.contains(names@[i as int]));
            return Err(PlanError::SchemaMismatch { column: names[i] });
        }
        i = i + 1;
    }
    Ok(())
}

impl PlanArena {
    /// Appending an entry that is well formed keeps the arena well formed.
    proof fn lemma_push_wf(old_pa: &PlanArena, pa: &PlanArena, ea: ExprArena)
        requires
            old_pa.wf(ea),
            pa.entries@.len() == old_pa.entries@.len() + 1,
            old_pa.entries@.is_prefix_of(pa.entries@),
            pa.entry_wf(old_pa.entries@.len() as int, ea),
        ensures
            pa.wf(ea),
    {
        assert forall|i: int| 0 <= i < pa.entries@.len() implies #[trigger] pa.entry_wf(i, ea) by {
            if i < old_pa.entries@.len() {
                assert(old_pa.entry_wf(i, ea));
                assert(pa.entries@[i] == old_pa.entries@[i]);
                match input_of(pa.node_at(i)) {
                    Some(c) => {
                        assert(pa.entries@[c as int] == old_pa.entries@[c as int]);
                    },
                    None => {},
                }
            }
        }
    }

    /// Allocates a scan producing `columns`.
    pub fn add_scan(&mut self, columns: Vec<u64>, ea: &ExprArena) -> (h: usize)
        requires
            old(self).wf(*ea),
        ensures
            final(self).wf(*ea),
            final(self).extends(old(self)),
            final(self).entries@.len() == old(self).entries@.len() + 1,
            h == old(self).entries@.len(),
            final(self).node_at(h as int) == (PlanNode::Scan { columns }),
            final(self).schema_at(h as int) == columns@,
    {
        let h = self.entries.len();
        let schema = copy_names(&columns);
        self.entries.push(PlanEntry { node: PlanNode::Scan { columns }, schema });
        proof {
            PlanArena::lemma_push_wf(old(self), self, *ea);
        }
        h
    }

    /// Allocates an explicit projection of `exprs` over node `input`; fails
    /// when an expression reads a column that `input` does not produce.
    pub fn add_select(&mut self, input: usize, exprs: Vec<usize>, ea: &ExprArena) -> (r: Result<
        usize,
        PlanError,
    >)
        requires
            old(self).wf(*ea),
            input < old(self).entries@.len(),
            forall|k: int| 0 <= k < exprs@.len() ==> #[trigger] exprs@[k] < ea.nodes@.len(),
        ensures
            final(self).wf(*ea),
            final(self).extends(old(self)),
            r is Ok <==> (forall|k: int|
                0 <= k < exprs@.len() ==> ea.reads_within(
                    #[trigger] exprs@[k],
                    old(self).schema_at(input as int),
                )),
            r is Ok ==> final(self).entries@.len() == old(self).entries@.len() + 1,
            r is Err ==> final(self).entries@ == old(self).entries@,
            r matches Err(PlanError::SchemaMismatch { column }) ==> !old(self).schema_at(input as int).contains(column),
            r matches Ok(h) ==> h == old(self).entries@.len() && final(self).node_at(h as int) == (PlanNode::Select { input, exprs }),
            r matches Ok(h) ==> final(self).schema_at(h as int) == outputs_of(*ea, exprs@),
    {
        let in_schema = self.schema(input);
        let mut outputs: Vec<u64> = Vec::new();
        let mut k: usize = 0;
        while k < exprs.len()
            invariant
                0 <= k <= exprs@.len(),
                in_schema@ == old(self).schema_at(input as int),
                self.entries@ == old(self).entries@,
                self.wf(*ea),
                forall|k: int| 0 <= k < exprs@.len() ==> #[trigger] exprs@[k] < ea.nodes@.len(),
                forall|j: int| 0 <= j < k ==> ea.reads_within(#[trigger] exprs@[j], in_schema@),
                outputs@ == outputs_of(*ea, exprs@.subrange(0, k as int)),
            decreases exprs@.len() - k,
        {
            let e = exprs[k];
            match check_all_in(&ea.nodes[e].inputs, &in_schema) {
                Err(err) => {
                    proof {
                        assert(!ea.reads_within(exprs@[k as int], in_schema@));
                    }
                    return Err(err);
                },
                Ok(()) => {},
            }
            outputs.push(ea.nodes[e].output);
            k = k + 1;
            proof {
                assert(outputs@ =~= outputs_of(*ea, exprs@.subrange(0, k as int)));
            }
        }
        proof {
            assert(exprs@.subrange(0, exprs@.len() as int) =~= exprs@);
        }
        let h = self.entries.len();
        self.entries.push(PlanEntry { node: PlanNode::Select { input, exprs }, schema: outputs });
        proof {
            PlanArena::lemma_push_wf(old(self), self, *ea);
        }
        Ok(h)
    }

    /// Allocates a reshape with `args` over node `input`, its schema
    /// recomputed; fails when an index or `on` column is absent from the
    /// input's schema.
    pub fn add_unpivot(&mut self, input: usize, args: UnpivotArgs, ea: &ExprArena) -> (r: Result<usize, PlanError>)
        requires
            old(self).wf(*ea),
            input < old(self).entries@.len(),
        ensures
            final(self).wf(*ea),
            final(self).extends(old(self)),
            r is Ok <==> all_in(args.index@, old(self).schema_at(input as int)) && all_in(
                args.on@,
                old(self).schema_at(input as int),
            ),
            r is Ok ==> final(self).entries@.len() == old(self).entries@.len() + 1,
            r is Err ==> final(self).entries@ == old(self).entries@,
            r matches Err(PlanError::SchemaMismatch { column }) ==> !old(self).schema_at(input as int).contains(column),
            r matches Ok(h) ==> h == old(self).entries@.len() && final(self).node_at(h as int) == (PlanNode::Unpivot { input, args }),
            r matches Ok(h) ==> final(self).schema_at(h as int) == unpivot_schema(args),
    {
        let in_schema = self.schema(input);
        match check_all_in(&args.index, &in_schema) {
            Err(e) => return Err(e),
            Ok(()) => {},
        }
        match check_all_in(&args.on, &in_schema) {
            Err(e) => return Err(e),
            Ok(()) => {},
        }
        let mut schema = copy_names(&args.index);
        schema.push(args.variable_name);
        schema.push(args.value_name);
        proof {
            assert(schema@ =~= unpivot_schema(args));
        }
        let h = self.entries.len();
        self.entries.push(PlanEntry { node: PlanNode::Unpivot { input, args }, schema });
        proof {
            PlanArena::lemma_push_wf(old(self), self, *ea);
        }
        Ok(h)
    }
}

/// An expression arena that grows keeps a plan arena well formed.
pub proof fn lemma_wf_grow_exprs(pa: &PlanArena, ea: &ExprArena, ea2: &ExprArena)
    requires
        pa.wf(*ea),
        ea2.extends(ea),
    ensures
        pa.wf(*ea2),
{
    assert forall|i: int| 0 <= i < pa.entries@.len() implies #[trigger] pa.entry_wf(i, *ea2) by {
        assert(pa.entry_wf(i, *ea));
        match pa.node_at(i) {
            PlanNode::Select { input, exprs } => {
                assert forall|k: int| 0 <= k < exprs@.len() implies ea2.reads_within(
                    #[trigger] exprs@[k],
                    pa.schema_at(input as int),
                ) by {
                    assert(ea.reads_within(exprs@[k], pa.schema_at(input as int)));
                    assert(ea2.nodes@[exprs@[k] as int] == ea.nodes@[exprs@[k] as int]);
                }
                assert(outputs_of(*ea2, exprs@) =~= outputs_of(*ea, exprs@)) by {
                    assert forall|k: int| 0 <= k < exprs@.len() implies ea2.nodes@[exprs@[k] as int]
                        == ea.nodes@[exprs@[k] as int] by {
                        assert(ea.reads_within(exprs@[k], pa.schema_at(input as int)));
                    }
                }
            },
            _ => {},
        }
    }
}

} // verus!
