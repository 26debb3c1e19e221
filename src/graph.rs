use vstd::prelude::*;

verus! {

/// How a node of the graph was produced.
///
/// Operands are node ids. An operand is always smaller than the id of the
/// node that uses it, so the graph is acyclic by construction.
#[derive(Clone, Copy, Debug, PartialEq, Eq, Structural)]
pub enum Op {
    /// An input, a parameter or a constant: no operands.
    Leaf,
    /// The sum of two nodes.
    Add(usize, usize),
    /// The product of two nodes.
    Mul(usize, usize),
    /// A node raised to a fixed exponent; the exponent is kept by the caller.
    Pow(usize),
    /// The hyperbolic tangent of a node.
    TanH(usize),
}

/// Whether node `j` is an operand of `op`.
pub open spec fn uses(op: Op, j: int) -> bool {
    match op {
        Op::Leaf => false,
        Op::Add(a, b) => j == a || j == b,
        Op::Mul(a, b) => j == a || j == b,
        Op::Pow(a) => j == a,
        Op::TanH(a) => j == a,
    }
}

/// The operands of `op`, standing at position `i`, all come before it.
pub open spec fn op_wf(op: Op, i: int) -> bool {
    match op {
        Op::Leaf => true,
        Op::Add(a, b) => a < i && b < i,
        Op::Mul(a, b) => a < i && b < i,
        Op::Pow(a) => a < i,
        Op::TanH(a) => a < i,
    }
}

/// Every node refers only to nodes created before it.
pub open spec fn ops_wf(ops: Seq<Op>) -> bool {
    forall|i: int| 0 <= i < ops.len() ==> #[trigger] op_wf(ops[i], i)
}

/// The symbol under which an operation is shown; a leaf has none.
pub open spec fn symbol_of(op: Op) -> Seq<char> {
    match op {
        Op::Leaf => ""@,
        Op::Add(_, _) => "+"@,
        Op::Mul(_, _) => "*"@,
        Op::Pow(_) => "pow"@,
        Op::TanH(_) => "tanh"@,
    }
}

impl Op {
    /// The symbol under which this operation is shown.
    pub fn symbol(&self) -> (r: &'static str)
        ensures
            r@ == symbol_of(*self),
    {
        match self {
            Op::Leaf => "",
            Op::Add(_, _) => "+",
            Op::Mul(_, _) => "*",
            Op::Pow(_) => "pow",
            Op::TanH(_) => "tanh",
        }
    }
}

/// The nodes met by a walk from `n` that visits a node's operands, first to
/// last, before the node itself. A node used twice is visited twice.
pub open spec fn post_order(ops: Seq<Op>, n: int) -> Seq<usize>
    decreases n,
{
    if n < 0 || n >= ops.len() {
        Seq::empty()
    } else {
        match ops[n] {
            Op::Add(a, b) => if a < n && b < n {
                post_order(ops, a as int) + post_order(ops, b as int) + seq![n as usize]
            } else {
                Seq::empty()
            },
            Op::Mul(a, b) => if a < n && b < n {
                post_order(ops, a as int) + post_order(ops, b as int) + seq![n as usize]
            } else {
                Seq::empty()
            },
            Op::Pow(a) => if a < n {
                post_order(ops, a as int) + seq![n as usize]
            } else {
                Seq::empty()
            },
            Op::TanH(a) => if a < n {
                post_order(ops, a as int) + seq![n as usize]
            } else {
                Seq::empty()
            },
            Op::Leaf => seq![n as usize],
        }
    }
}

/// The computation graph: node `i` is produced by operation `i`.
pub struct Graph {
    ops: Vec<Op>,
}

impl View for Graph {
    type V = Seq<Op>;

    closed spec fn view(&self) -> Seq<Op> {
        self.ops@
    }
}

impl Graph {
    pub open spec fn wf(&self) -> bool {
        ops_wf(self@)
    }

    /// An empty graph.
    pub fn new() -> (r: Graph)
        ensures
            r@ == Seq::<Op>::empty(),
            r.wf(),
    {
        Graph { ops: Vec::new() }
    }

    /// The number of nodes.
    pub fn len(&self) -> (r: usize)
        ensures
            r == self@.len(),
    {
        self.ops.len()
    }

    /// How node `id` was produced.
    pub fn op(&self, id: usize) -> (r: Op)
        requires
            id < self@.len(),
        ensures
            r == self@[id as int],
    {
        self.ops[id]
    }

    fn push(&mut self, op: Op) -> (r: usize)
        requires
            old(self).wf(),
            op_wf(op, old(self)@.len() as int),
        ensures
            final(self)@ == old(self)@.push(op),
            final(self).wf(),
            r == old(self)@.len(),
    {
        let r = self.ops.len();
        self.ops.push(op);
        proof {
            assert forall|i: int| 0 <= i < self@.len() implies #[trigger] op_wf(self@[i], i) by {
                if i < r {
                    assert(op_wf(old(self)@[i], i));
                }
            }
        }
        r
    }

    /// Adds a leaf node and returns its id.
    pub fn leaf(&mut self) -> (r: usize)
        requires
            old(self).wf(),
        ensures
            final(self)@ == old(self)@.push(Op::Leaf),
            final(self).wf(),
            r == old(self)@.len(),
    {
        self.push(Op::Leaf)
    }

    /// Adds the node `a + b` and returns its id.
    pub fn add(&mut self, a: usize, b: usize) -> (r: usize)
        requires
            old(self).wf(),
            a < old(self)@.len(),
            b < old(self)@.len(),
        ensures
            final(self)@ == old(self)@.push(Op::Add(a, b)),
            final(self).wf(),
            r == old(self)@.len(),
    {
        self.push(Op::Add(a, b))
    }

    /// Adds the node `a * b` and returns its id.
    pub fn mul(&mut self, a: usize, b: usize) -> (r: usize)
        requires
            old(self).wf(),
            a < old(self)@.len(),
            b < old(self)@.len(),
        ensures
            final(self)@ == old(self)@.push(Op::Mul(a, b)),
            final(self).wf(),
            r == old(self)@.len(),
    {
        self.push(Op::Mul(a, b))
    }

    /// Adds the node `a` raised to an exponent (kept by the caller) and returns its id.
    pub fn pow(&mut self, a: usize) -> (r: usize)
        requires
            old(self).wf(),
            a < old(self)@.len(),
        ensures
            final(self)@ == old(self)@.push(Op::Pow(a)),
            final(self).wf(),
            r == old(self)@.len(),
    {
        self.push(Op::Pow(a))
    }

    /// Adds the node `tanh(a)` and returns its id.
    pub fn tanh(&mut self, a: usize) -> (r: usize)
        requires
            old(self).wf(),
            a < old(self)@.len(),
        ensures
            final(self)@ == old(self)@.push(Op::TanH(a)),
            final(self).wf(),
            r == old(self)@.len(),
    {
        self.push(Op::TanH(a))
    }

    fn walk(&self, n: usize, out: &mut Vec<usize>)
        requires
            self.wf(),
            n < self@.len(),
        ensures
            final(out)@ == old(out)@ + post_order(self@, n as int),
        decreases n,
    {
        let op = self.op(n);
        proof {
            assert(op_wf(self@[n as int], n as int));
        }
        match op {
            Op::Leaf => {},
            Op::Add(a, b) => {
                self.walk(a, out);
                self.walk(b, out);
            },
            Op::Mul(a, b) => {
                self.walk(a, out);
                self.walk(b, out);
            },
            Op::Pow(a) => {
                self.walk(a, out);
            },
            Op::TanH(a) => {
                self.walk(a, out);
            },
        }
        out.push(n);
        assert(out@ == old(out)@ + post_order(self@, n as int));
    }

    /// The nodes to show when inspecting `root`: a walk that visits a node's
    /// operands before the node itself, without skipping nodes met before.
    pub fn debug_order(&self, root: usize) -> (r: Vec<usize>)
        requires
            self.wf(),
            root < self@.len(),
        ensures
            r@ == post_order(self@, root as int),
    {
        let mut out: Vec<usize> = Vec::new();
        self.walk(root, &mut out);
        assert(out@ == post_order(self@, root as int));
        out
    }
}

} // verus!
