use vstd::prelude::*;
use crate::expr::{ExprArena, contains_name};
use crate::plan::outputs_of;

verus! {

/// What the consumer above a node requires from that node's output: the
/// required expressions, and their output names for membership tests.
pub struct ProjectionContext {
    pub acc_projections: Vec<usize>,
    pub projected_names: Vec<u64>,
}

/// An expression can be requested from a child as it is: it is a plain
/// column reference to a column of the child's schema.
pub open spec fn forwardable(ea: ExprArena, h: usize, schema: Seq<u64>) -> bool {
    ea.nodes@[h as int].is_column && schema.contains(ea.nodes@[h as int].output)
}

/// `forwardable` as a predicate on handles.
pub open spec fn forward_pred(ea: ExprArena, schema: Seq<u64>) -> spec_fn(usize) -> bool {
    |h: usize| forwardable(ea, h, schema)
}

/// The negation of `forward_pred`.
pub open spec fn local_pred(ea: ExprArena, schema: Seq<u64>) -> spec_fn(usize) -> bool {
    |h: usize| !forwardable(ea, h, schema)
}

/// Every element of a filtered sequence comes from the sequence.
pub proof fn lemma_filter_subset(s: Seq<usize>, p: spec_fn(usize) -> bool)
    ensures
        forall|i: int| 0 <= i < s.filter(p).len() ==> s.contains(#[trigger] s.filter(p)[i]),
    decreases s.len(),
{
    reveal(Seq::filter);
    if s.len() > 0 {
        lemma_filter_subset(s.drop_last(), p);
        let sub = s.drop_last().filter(p);
        assert forall|i: int| 0 <= i < s.filter(p).len() implies s.contains(
            #[trigger] s.filter(p)[i],
        ) by {
            if i < sub.len() {
                assert(s.filter(p)[i] == sub[i]);
                let j = choose|j: int| 0 <= j < s.drop_last().len() && s.drop_last()[j] == sub[i];
                assert(s[j] == sub[i]);
            } else {
                assert(s.filter(p)[i] == s[s.len() - 1]);
            }
        }
    }
}

impl ProjectionContext {
    /// Every handle is allocated, and the names are the outputs of the
    /// expressions, in order.
    pub open spec fn wf(&self, ea: ExprArena) -> bool {
        &&& forall|k: int|
            0 <= k < self.acc_projections@.len() ==> #[trigger] self.acc_projections@[k]
                < ea.nodes@.len()
        &&& self.projected_names@ == outputs_of(ea, self.acc_projections@)
    }

    /// Every required expression reads only columns of `schema`.
    pub open spec fn valid_for(&self, ea: ExprArena, schema: Seq<u64>) -> bool {
        forall|k: int|
            0 <= k < self.acc_projections@.len() ==> ea.reads_within(
                #[trigger] self.acc_projections@[k],
                schema,
            )
    }

    /// A context that requires nothing in particular.
    pub fn empty() -> (r: ProjectionContext)
        ensures
            r.acc_projections@.len() == 0,
            r.projected_names@.len() == 0,
    {
        ProjectionContext { acc_projections: Vec::new(), projected_names: Vec::new() }
    }

    /// A context requiring the expressions `acc`, whose outputs are `names`.
    pub fn new(acc: Vec<usize>, names: Vec<u64>) -> (r: ProjectionContext)
        ensures
            r.acc_projections@ == acc@,
            r.projected_names@ == names@,
    {
        ProjectionContext { acc_projections: acc, projected_names: names }
    }
}

/// Partitions the required expressions `acc` against a child's `schema`
/// into those that can be requested from the child as they are and those
/// that must be evaluated above it, each in input order; also returns the
/// names of the forwardable group.
pub fn split_acc_projections(acc: Vec<usize>, schema: &Vec<u64>, ea: &ExprArena) -> (r: (
    Vec<usize>,
    Vec<usize>,
    Vec<u64>,
))
    requires
        forall|k: int| 0 <= k < acc@.len() ==> #[trigger] acc@[k] < ea.nodes@.len(),
    ensures
        r.0@ == acc@.filter(forward_pred(*ea, schema@)),
        r.1@ == acc@.filter(local_pred(*ea, schema@)),
        r.2@ == outputs_of(*ea, r.0@),
{
    let mut forward: Vec<usize> = Vec::new();
    let mut local: Vec<usize> = Vec::new();
    let mut names: Vec<u64> = Vec::new();
    let mut i: usize = 0;
    while i < acc.len()
        invariant
            0 <= i <= acc@.len(),
            forall|k: int| 0 <= k < acc@.len() ==> #[trigger] acc@[k] < ea.nodes@.len(),
            forward@ == acc@.subrange(0, i as int).filter(forward_pred(*ea, schema@)),
            local@ == acc@.subrange(0, i as int).filter(local_pred(*ea, schema@)),
            names@ == outputs_of(*ea, forward@),
        decreases acc@.len() - i,
    {
        let h = acc[i];
        let node = &ea.nodes[h];
        let fwd = if node.is_column {
            contains_name(schema, node.output)
        } else {
            false
        };
        proof {
            let s = acc@.subrange(0, i as int + 1);
            assert(s.drop_last() =~= acc@.subrange(0, i as int));
            assert(s.last() == h);
            reveal(Seq::filter);
            assert(s.filter(forward_pred(*ea, schema@)) == if forward_pred(*ea, schema@)(h) {
                acc@.subrange(0, i as int).filter(forward_pred(*ea, schema@)).push(h)
            } else {
                acc@.subrange(0, i as int).filter(forward_pred(*ea, schema@))
            });
            assert(s.filter(local_pred(*ea, schema@)) == if local_pred(*ea, schema@)(h) {
                acc@.subrange(0, i as int).filter(local_pred(*ea, schema@)).push(h)
            } else {
                acc@.subrange(0, i as int).filter(local_pred(*ea, schema@))
            });
            assert(*node == ea.nodes@[h as int]);
            assert(fwd == forwardable(*ea, h, schema@));
            assert(fwd == forward_pred(*ea, schema@)(h));
            assert(!fwd == local_pred(*ea, schema@)(h));
        }
        if fwd {
            forward.push(h);
            names.push(node.output);
        } else {
            local.push(h);
        }
        i = i + 1;
        proof {
            assert(names@ =~= outputs_of(*ea, forward@));
        }
    }
    proof {
        assert(acc@.subrange(0, acc@.len() as int) =~= acc@);
    }
    (forward, local, names)
}

/// Requires column `name` in `ctx`, unless it already is.
pub fn add_str_to_accumulated(name: u64, ctx: &mut ProjectionContext, ea: &mut ExprArena)
    requires
        old(ctx).wf(*old(ea)),
        old(ea).wf(),
    ensures
        final(ea).wf(),
        final(ea).extends(old(ea)),
        final(ctx).wf(*final(ea)),
        final(ctx).projected_names@.contains(name),
        old(ctx).projected_names@.contains(name) ==> final(ctx).acc_projections@ == old(
            ctx,
        ).acc_projections@ && final(ctx).projected_names@ == old(ctx).projected_names@
            && final(ea).nodes@ == old(ea).nodes@,
        !old(ctx).projected_names@.contains(name) ==> {
            &&& final(ctx).acc_projections@ == old(ctx).acc_projections@.push(
                final(ctx).acc_projections@.last(),
            )
            &&& final(ctx).acc_projections@.last() == old(ea).nodes@.len()
            &&& final(ctx).projected_names@ == old(ctx).projected_names@.push(name)
            &&& final(ea).nodes@.len() == old(ea).nodes@.len() + 1
            &&& final(ea).nodes@[old(ea).nodes@.len() as int].is_column
            &&& final(ea).nodes@[old(ea).nodes@.len() as int].output == name
            &&& final(ea).nodes@[old(ea).nodes@.len() as int].inputs@ == seq![name]
        },
{
    if contains_name(&ctx.projected_names, name) {
        return;
    }
    let h = ea.add_column(name);
    ctx.acc_projections.push(h);
    ctx.projected_names.push(name);
    proof {
        assert(old(ea).nodes@.is_prefix_of(ea.nodes@));
        assert forall|k: int| 0 <= k < old(ctx).acc_projections@.len() implies ea.nodes@[
            #[trigger] old(ctx).acc_projections@[k] as int]
            == old(ea).nodes@[old(ctx).acc_projections@[k] as int] by {}
        assert(ctx.projected_names@ =~= outputs_of(*ea, ctx.acc_projections@));
        assert(ctx.projected_names@[ctx.projected_names@.len() - 1] == name);
    }
}

} // verus!
