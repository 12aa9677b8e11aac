use vstd::prelude::*;

verus! {

/// An expression: a plain column reference, or a derived column computed
/// from the input columns it names.
pub struct ExprNode {
    pub output: u64,
    pub inputs: Vec<u64>,
    pub is_column: bool,
}

/// Append-only store of expression nodes, addressed by handle.
pub struct ExprArena {
    pub nodes: Vec<ExprNode>,
}

/// Whether `v` holds `x`.
pub fn contains_name(v: &Vec<u64>, x: u64) -> (r: bool)
    ensures
        r == v@.contains(x),
{
    let mut i: usize = 0;
    while i < v.len()
        invariant
            0 <= i <= v@.len(),
            forall|k: int| 0 <= k < i ==> v@[k] != x,
        decreases v@.len() - i,
    {
        if v[i] == x {
            return true;
        }
        i = i + 1;
    }
    false
}

/// A copy of a list of names.
pub fn copy_names(v: &Vec<u64>) -> (r: Vec<u64>)
    ensures
        r@ == v@,
{
    let mut r: Vec<u64> = Vec::new();
    let mut i: usize = 0;
    while i < v.len()
        invariant
            0 <= i <= v@.len(),
            r@ == v@.subrange(0, i as int),
        decreases v@.len() - i,
    {
        r.push(v[i]);
        i = i + 1;
        assert(r@ =~= v@.subrange(0, i as int));
    }
    assert(r@ =~= v@);
    r
}

/// A copy of a list of handles.
pub fn copy_handles(v: &Vec<usize>) -> (r: Vec<usize>)
    ensures
        r@ == v@,
{
    let mut r: Vec<usize> = Vec::new();
    let mut i: usize = 0;
    while i < v.len()
        invariant
            0 <= i <= v@.len(),
            r@ == v@.subrange(0, i as int),
        decreases v@.len() - i,
    {
        r.push(v[i]);
        i = i + 1;
        assert(r@ =~= v@.subrange(0, i as int));
    }
    assert(r@ =~= v@);
    r
}

impl ExprArena {
    /// A column reference reads exactly the column it names.
    pub open spec fn wf(&self) -> bool {
        forall|h: int|
            0 <= h < self.nodes@.len() && (#[trigger] self.nodes@[h]).is_column ==> self.nodes@[h].inputs@
                == seq![self.nodes@[h].output]
    }

    /// The output name of the expression behind handle `h`.
    pub open spec fn output_of(&self, h: usize) -> u64 {
        self.nodes@[h as int].output
    }

    /// Every column that expression `h` reads is in `schema`.
    pub open spec fn reads_within(&self, h: usize, schema: Seq<u64>) -> bool {
        &&& h < self.nodes@.len()
        &&& forall|j: int|
            0 <= j < self.nodes@[h as int].inputs@.len() ==> schema.contains(
                #[trigger] self.nodes@[h as int].inputs@[j],
            )
    }

    /// `self` holds every entry of `older` unchanged, at the same handle.
    pub open spec fn extends(&self, older: &ExprArena) -> bool {
        older.nodes@.is_prefix_of(self.nodes@)
    }

    pub fn new() -> (r: ExprArena)
        ensures
            r.nodes@.len() == 0,
            r.wf(),
    {
        ExprArena { nodes: Vec::new() }
    }

    pub fn len(&self) -> (r: usize)
        ensures
            r == self.nodes@.len(),
    {
        self.nodes.len()
    }

    /// Allocates a reference to column `name` and returns its handle.
    pub fn add_column(&mut self, name: u64) -> (h: usize)
        requires
            old(self).wf(),
        ensures
            final(self).wf(),
            final(self).nodes@ == old(self).nodes@.push(final(self).nodes@[h as int]),
            h == old(self).nodes@.len(),
            final(self).nodes@[h as int].is_column,
            final(self).nodes@[h as int].output == name,
            final(self).nodes@[h as int].inputs@ == seq![name],
    {
        let h = self.nodes.len();
        let inputs: Vec<u64> = vec![name];
        proof {
            assert(inputs@ =~= seq![name]);
        }
        self.nodes.push(ExprNode { output: name, inputs, is_column: true });
        h
    }

    /// Allocates an expression named `output` computed from `inputs` and
    /// returns its handle.
    pub fn add_computed(&mut self, output: u64, inputs: Vec<u64>) -> (h: usize)
        requires
            old(self).wf(),
        ensures
            final(self).wf(),
            final(self).nodes@ == old(self).nodes@.push(final(self).nodes@[h as int]),
            h == old(self).nodes@.len(),
            !final(self).nodes@[h as int].is_column,
            final(self).nodes@[h as int].output == output,
            final(self).nodes@[h as int].inputs@ == inputs@,
    {
        let h = self.nodes.len();
        self.nodes.push(ExprNode { output, inputs, is_column: false });
        h
    }

    /// The output name of expression `h`.
    pub fn output(&self, h: usize) -> (r: u64)
        requires
            h < self.nodes@.len(),
        ensures
            r == self.output_of(h),
    {
        self.nodes[h].output
    }
}

} // verus!
