use vstd::prelude::*;
use crate::graph::{Graph, Op, ops_wf, op_wf, uses};

verus! {

/// Each node of `p` has the next one as an operand.
pub open spec fn is_path(ops: Seq<Op>, p: Seq<int>) -> bool {
    forall|k: int| 0 <= k < p.len() - 1 ==> uses(#[trigger] ops[p[k]], p[k + 1])
}

/// Node `to` feeds, directly or through other nodes, into node `from`
/// (every node reaches itself).
pub open spec fn reaches(ops: Seq<Op>, from: int, to: int) -> bool {
    exists|p: Seq<int>| p.len() > 0 && p[0] == from && p[p.len() - 1] == to && #[trigger] is_path(ops, p)
}

/// The nodes among `i ..= root` that `root` reaches, from the highest id down.
pub open spec fn order_from(ops: Seq<Op>, root: int, i: int) -> Seq<usize>
    decreases root + 1 - i,
{
    if i < 0 || i > root {
        Seq::empty()
    } else {
        let rest = order_from(ops, root, i + 1);
        if reaches(ops, root, i) {
            rest.push(i as usize)
        } else {
            rest
        }
    }
}

/// The order in which gradients flow back from `root`: every node that `root`
/// reaches, once, from the highest id down.
pub open spec fn backward_order_of(ops: Seq<Op>, root: int) -> Seq<usize> {
    order_from(ops, root, 0)
}

proof fn lemma_path_bounds(ops: Seq<Op>, p: Seq<int>)
    requires
        ops_wf(ops),
        p.len() > 0,
        0 <= p[0] < ops.len(),
        is_path(ops, p),
    ensures
        forall|k: int| 0 <= k < p.len() ==> 0 <= #[trigger] p[k] <= p[0],
        forall|k: int| 0 < k < p.len() ==> #[trigger] p[k] < p[0],
    decreases p.len(),
{
    if p.len() > 1 {
        let q = p.drop_last();
        assert(is_path(ops, q)) by {
            assert forall|k: int| 0 <= k < q.len() - 1 implies uses(#[trigger] ops[q[k]], q[k + 1]) by {
                assert(uses(ops[p[k]], p[k + 1]));
            }
        }
        lemma_path_bounds(ops, q);
        let n = p.len() - 2;
        assert(q[n] == p[n]);
        assert(0 <= p[n] <= p[0]);
        assert(uses(ops[p[n]], p[n + 1]));
        assert(op_wf(ops[p[n]], p[n]));
        assert forall|k: int| 0 <= k < p.len() implies 0 <= #[trigger] p[k] <= p[0] by {
            if k < p.len() - 1 {
                assert(q[k] == p[k]);
            }
        }
        assert forall|k: int| 0 < k < p.len() implies #[trigger] p[k] < p[0] by {
            if k < p.len() - 1 {
                assert(q[k] == p[k]);
            }
        }
    }
}

/// What `root` reaches lies between 0 and `root`.
pub proof fn lemma_reaches_bounds(ops: Seq<Op>, root: int, j: int)
    requires
        ops_wf(ops),
        0 <= root < ops.len(),
        reaches(ops, root, j),
    ensures
        0 <= j <= root,
        j != root ==> j < root,
{
    let p = choose|p: Seq<int>| p.len() > 0 && p[0] == root && p[p.len() - 1] == j && #[trigger] is_path(ops, p);
    lemma_path_bounds(ops, p);
    assert(p[p.len() - 1] == j);
}

proof fn lemma_reaches_self(ops: Seq<Op>, root: int)
    ensures
        reaches(ops, root, root),
{
    let p = seq![root];
    assert(is_path(ops, p));
}

/// A node other than `root` is reached exactly when some reached node uses it.
proof fn lemma_reaches_last_step(ops: Seq<Op>, root: int, j: int)
    requires
        ops_wf(ops),
        0 <= root < ops.len(),
        j != root,
    ensures
        reaches(ops, root, j) <==> exists|k: int| j < k <= root && reaches(ops, root, k) && #[trigger] uses(ops[k], j),
{
    if reaches(ops, root, j) {
        let p = choose|p: Seq<int>| p.len() > 0 && p[0] == root && p[p.len() - 1] == j && #[trigger] is_path(ops, p);
        let q = p.drop_last();
        let k = p[p.len() - 2];
        assert(is_path(ops, q)) by {
            assert forall|m: int| 0 <= m < q.len() - 1 implies uses(#[trigger] ops[q[m]], q[m + 1]) by {
                assert(uses(ops[p[m]], p[m + 1]));
            }
        }
        assert(q[q.len() - 1] == k);
        assert(reaches(ops, root, k));
        assert(uses(ops[p[p.len() - 2]], p[p.len() - 1]));
        lemma_reaches_bounds(ops, root, k);
        assert(op_wf(ops[k], k));
    }
    assert forall|k: int| j < k <= root && reaches(ops, root, k) && #[trigger] uses(ops[k], j) implies reaches(ops, root, j) by {
        let p = choose|p: Seq<int>| p.len() > 0 && p[0] == root && p[p.len() - 1] == k && #[trigger] is_path(ops, p);
        let q = p.push(j);
        assert(is_path(ops, q)) by {
            assert forall|m: int| 0 <= m < q.len() - 1 implies uses(#[trigger] ops[q[m]], q[m + 1]) by {
                if m < p.len() - 1 {
                    assert(uses(ops[p[m]], p[m + 1]));
                }
            }
        }
        assert(q[q.len() - 1] == j);
    }
}

/// Backward order, what it holds: exactly the nodes that `root` reaches,
/// each once, from the highest id down, starting with `root` itself; so every
/// node stands before each of its operands.
pub proof fn lemma_backward_order(ops: Seq<Op>, root: int)
    requires
        ops_wf(ops),
        0 <= root < ops.len(),
        root <= usize::MAX,
    ensures
        backward_order_of(ops, root).len() > 0,
        backward_order_of(ops, root)[0] == root,
        forall|k: int| 0 <= k < backward_order_of(ops, root).len()
            ==> reaches(ops, root, #[trigger] backward_order_of(ops, root)[k] as int),
        forall|n: int| reaches(ops, root, n) ==> 0 <= n && backward_order_of(ops, root).contains(n as usize),
        forall|a: int, b: int| 0 <= a < b < backward_order_of(ops, root).len()
            ==> #[trigger] backward_order_of(ops, root)[a] > #[trigger] backward_order_of(ops, root)[b],
        forall|a: int, b: int|
            0 <= a < backward_order_of(ops, root).len() && 0 <= b < backward_order_of(ops, root).len()
            && uses(ops[#[trigger] backward_order_of(ops, root)[a] as int], #[trigger] backward_order_of(ops, root)[b] as int)
            ==> a < b,
{
    lemma_order_from(ops, root, 0);
    let s = backward_order_of(ops, root);
    lemma_reaches_self(ops, root);
    assert forall|n: int| reaches(ops, root, n) implies 0 <= n && s.contains(n as usize) by {
        lemma_reaches_bounds(ops, root, n);
    }
    assert(s.contains(root as usize));
    let k0 = choose|k: int| 0 <= k < s.len() && s[k] == root as usize;
    assert forall|k: int| 0 <= k < s.len() implies s[k] <= root by {}
    if k0 > 0 {
        assert(s[0] > s[k0]);
    }
    assert forall|a: int, b: int|
        0 <= a < s.len() && 0 <= b < s.len() && uses(ops[#[trigger] s[a] as int], #[trigger] s[b] as int)
        implies a < b by {
        assert(op_wf(ops[s[a] as int], s[a] as int));
        if b <= a {
            if b < a {
                assert(s[b] > s[a]);
            }
        }
    }
}

proof fn lemma_order_from(ops: Seq<Op>, root: int, i: int)
    requires
        ops_wf(ops),
        0 <= root < ops.len(),
        root <= usize::MAX,
        0 <= i <= root + 1,
    ensures
        forall|a: int, b: int| 0 <= a < b < order_from(ops, root, i).len()
            ==> #[trigger] order_from(ops, root, i)[a] > #[trigger] order_from(ops, root, i)[b],
        forall|k: int| 0 <= k < order_from(ops, root, i).len()
            ==> i <= #[trigger] order_from(ops, root, i)[k] <= root
            && reaches(ops, root, order_from(ops, root, i)[k] as int),
        forall|n: int| i <= n <= root && reaches(ops, root, n) ==> order_from(ops, root, i).contains(n as usize),
    decreases root + 1 - i,
{
    if i <= root {
        lemma_order_from(ops, root, i + 1);
        let rest = order_from(ops, root, i + 1);
        let s = order_from(ops, root, i);
        if reaches(ops, root, i) {
            assert(s == rest.push(i as usize));
            assert(s[s.len() - 1] == i);
            assert forall|n: int| i <= n <= root && reaches(ops, root, n) implies s.contains(n as usize) by {
                if n == i {
                    assert(s[s.len() - 1] == n as usize);
                } else {
                    let k = choose|k: int| 0 <= k < rest.len() && rest[k] == n as usize;
                    assert(s[k] == n as usize);
                }
            }
        }
    }
}

/// What multiplies a node's gradient on its way to one of its operands.
#[derive(Clone, Copy, Debug, PartialEq, Eq, Structural)]
pub enum Factor {
    /// 1: the rule of a sum.
    One,
    /// The value of the given node: the rule of a product, where each operand
    /// takes the value of the other.
    ValueOf(usize),
    /// `e * a^(e - 1)`, with `e` the exponent of the power node and `a` the
    /// value of its operand.
    Power,
    /// `1 - t^2`, with `t` the value that the tanh node computed when it was built.
    TanH,
}

/// One accumulation of backward propagation:
/// the gradient of `to` grows by `factor` times the gradient of `from`.
#[derive(Clone, Copy, Debug, PartialEq, Eq, Structural)]
pub struct Step {
    pub from: usize,
    pub to: usize,
    pub factor: Factor,
}

/// The local derivative rule of node `c`, produced by `op`: one step per operand.
pub open spec fn local_steps_of(c: usize, op: Op) -> Seq<Step> {
    match op {
        Op::Leaf => Seq::empty(),
        Op::Add(a, b) => seq![
            Step { from: c, to: a, factor: Factor::One },
            Step { from: c, to: b, factor: Factor::One },
        ],
        Op::Mul(a, b) => seq![
            Step { from: c, to: a, factor: Factor::ValueOf(b) },
            Step { from: c, to: b, factor: Factor::ValueOf(a) },
        ],
        Op::Pow(a) => seq![Step { from: c, to: a, factor: Factor::Power }],
        Op::TanH(a) => seq![Step { from: c, to: a, factor: Factor::TanH }],
    }
}

/// The local rules of the nodes of `order`, one after the other.
pub open spec fn steps_of(ops: Seq<Op>, order: Seq<usize>) -> Seq<Step>
    decreases order.len(),
{
    if order.len() == 0 {
        Seq::empty()
    } else {
        let c = order[order.len() - 1];
        steps_of(ops, order.drop_last()) + local_steps_of(c, ops[c as int])
    }
}

/// The whole backward propagation from `root`: the local rule of every node
/// that `root` reaches, in backward order.
pub open spec fn backward_plan_of(ops: Seq<Op>, root: int) -> Seq<Step> {
    steps_of(ops, backward_order_of(ops, root))
}

proof fn lemma_steps_of(ops: Seq<Op>, order: Seq<usize>)
    requires
        ops_wf(ops),
        forall|k: int| 0 <= k < order.len() ==> #[trigger] order[k] < ops.len(),
        forall|a: int, b: int| 0 <= a < b < order.len() ==> #[trigger] order[a] > #[trigger] order[b],
    ensures
        forall|p: int| 0 <= p < steps_of(ops, order).len() ==> {
            let s = #[trigger] steps_of(ops, order)[p];
            &&& order.contains(s.from)
            &&& uses(ops[s.from as int], s.to as int)
            &&& s.to < s.from
        },
        forall|p: int, q: int| 0 <= p < q < steps_of(ops, order).len()
            ==> #[trigger] steps_of(ops, order)[p].from >= #[trigger] steps_of(ops, order)[q].from,
    decreases order.len(),
{
    if order.len() > 0 {
        let init = order.drop_last();
        let c = order[order.len() - 1];
        lemma_steps_of(ops, init);
        let front = steps_of(ops, init);
        let back = local_steps_of(c, ops[c as int]);
        let all = steps_of(ops, order);
        assert(all == front + back);
        assert(op_wf(ops[c as int], c as int));
        assert forall|p: int| 0 <= p < all.len() implies {
            let s = #[trigger] all[p];
            &&& order.contains(s.from)
            &&& uses(ops[s.from as int], s.to as int)
            &&& s.to < s.from
        } by {
            if p < front.len() {
                assert(all[p] == front[p]);
                let k = choose|k: int| 0 <= k < init.len() && init[k] == front[p].from;
                assert(order[k] == init[k]);
                assert(op_wf(ops[front[p].from as int], front[p].from as int));
            } else {
                assert(all[p] == back[p - front.len()]);
                assert(order[order.len() - 1] == c);
            }
        }
        assert forall|p: int, q: int| 0 <= p < q < all.len() implies #[trigger] all[p].from >= #[trigger] all[q].from by {
            if q >= front.len() {
                assert(all[q] == back[q - front.len()]);
                if p < front.len() {
                    assert(all[p] == front[p]);
                    let k = choose|k: int| 0 <= k < init.len() && init[k] == front[p].from;
                    assert(order[k] == init[k]);
                } else {
                    assert(all[p] == back[p - front.len()]);
                }
            } else {
                assert(all[p] == front[p]);
                assert(all[q] == front[q]);
            }
        }
    }
}

/// Backward propagation is complete in the order it runs: each step goes from
/// a node to one of its operands, and a node's gradient is propagated only
/// after every step that adds to it, so shared nodes collect all of their
/// contributions first.
pub proof fn lemma_backward_plan(ops: Seq<Op>, root: int)
    requires
        ops_wf(ops),
        0 <= root < ops.len(),
        root <= usize::MAX,
    ensures
        forall|p: int| 0 <= p < backward_plan_of(ops, root).len() ==> {
            let s = #[trigger] backward_plan_of(ops, root)[p];
            &&& reaches(ops, root, s.from as int)
            &&& uses(ops[s.from as int], s.to as int)
        },
        forall|p: int, q: int|
            0 <= p < backward_plan_of(ops, root).len() && 0 <= q < backward_plan_of(ops, root).len()
            && #[trigger] backward_plan_of(ops, root)[q].to == #[trigger] backward_plan_of(ops, root)[p].from
            ==> q < p,
{
    let order = backward_order_of(ops, root);
    lemma_backward_order(ops, root);
    assert forall|k: int| 0 <= k < order.len() implies #[trigger] order[k] < ops.len() by {
        lemma_reaches_bounds(ops, root, order[k] as int);
    }
    lemma_steps_of(ops, order);
    let plan = backward_plan_of(ops, root);
    assert forall|p: int| 0 <= p < plan.len() implies {
        let s = #[trigger] plan[p];
        &&& reaches(ops, root, s.from as int)
        &&& uses(ops[s.from as int], s.to as int)
    } by {
        let k = choose|k: int| 0 <= k < order.len() && order[k] == plan[p].from;
    }
    assert forall|p: int, q: int|
        0 <= p < plan.len() && 0 <= q < plan.len() && #[trigger] plan[q].to == #[trigger] plan[p].from
        implies q < p by {
        if p <= q {
            assert(plan[q].to < plan[q].from);
            if p < q {
                assert(plan[p].from >= plan[q].from);
            }
        }
    }
}

/// Backward propagation from a product of two distinct leaves `c = a * b`
/// consists of two steps: `a` receives the gradient of `c` times the value of
/// `b`, and `b` the gradient of `c` times the value of `a`.
pub proof fn lemma_product_gradients(ops: Seq<Op>, a: usize, b: usize, c: usize)
    requires
        ops_wf(ops),
        c < ops.len(),
        ops[c as int] == Op::Mul(a, b),
        ops[a as int] == Op::Leaf,
        ops[b as int] == Op::Leaf,
        a != b,
    ensures
        backward_plan_of(ops, c as int) == seq![
            Step { from: c, to: a, factor: Factor::ValueOf(b) },
            Step { from: c, to: b, factor: Factor::ValueOf(a) },
        ],
{
    assert(op_wf(ops[c as int], c as int));
    let hi: usize = if a > b { a } else { b };
    let lo: usize = if a > b { b } else { a };
    assert forall|n: int| reaches(ops, c as int, n) implies n == c || n == a || n == b by {
        let p = choose|p: Seq<int>| p.len() > 0 && p[0] == c && p[p.len() - 1] == n && #[trigger] is_path(ops, p);
        if p.len() >= 2 {
            assert(uses(ops[p[0]], p[1]));
        }
        if p.len() >= 3 {
            assert(uses(ops[p[1]], p[2]));
        }
    }
    assert(reaches(ops, c as int, a as int)) by {
        assert(is_path(ops, seq![c as int, a as int]));
        assert(seq![c as int, a as int][1] == a);
    }
    assert(reaches(ops, c as int, b as int)) by {
        assert(is_path(ops, seq![c as int, b as int]));
        assert(seq![c as int, b as int][1] == b);
    }
    lemma_backward_order(ops, c as int);
    let order = backward_order_of(ops, c as int);
    assert(order.contains(hi));
    assert(order.contains(lo));
    let i1 = choose|k: int| 0 <= k < order.len() && order[k] == hi;
    let i2 = choose|k: int| 0 <= k < order.len() && order[k] == lo;
    assert(reaches(ops, c as int, order[1] as int)) by {
        assert(i1 >= 1);
    }
    if i1 > 1 {
        assert(order[0] > order[1] && order[1] > order[i1]);
    }
    assert(reaches(ops, c as int, order[2] as int)) by {
        assert(i2 >= 2);
    }
    if i2 > 2 {
        assert(order[1] > order[2] && order[2] > order[i2]);
    }
    if order.len() > 3 {
        assert(reaches(ops, c as int, order[3] as int));
        assert(order[2] > order[3]);
    }
    assert(order == seq![c, hi, lo]);
    assert(seq![c, hi, lo].drop_last() == seq![c, hi]);
    assert(seq![c, hi].drop_last() == seq![c]);
    assert(seq![c].drop_last() == Seq::<usize>::empty());
    assert(local_steps_of(hi, ops[hi as int]) == Seq::<Step>::empty());
    assert(local_steps_of(lo, ops[lo as int]) == Seq::<Step>::empty());
    assert(seq![c][0] == c);
    assert(steps_of(ops, seq![c]) == steps_of(ops, Seq::<usize>::empty()) + local_steps_of(c, ops[c as int]));
    assert(steps_of(ops, seq![c]) =~= local_steps_of(c, ops[c as int]));
    assert(seq![c, hi][1] == hi);
    assert(seq![c, hi, lo][2] == lo);
    assert(steps_of(ops, seq![c, hi]) == steps_of(ops, seq![c]) + local_steps_of(hi, ops[hi as int]));
    assert(steps_of(ops, seq![c, hi, lo]) == steps_of(ops, seq![c, hi]) + local_steps_of(lo, ops[lo as int]));
    assert(backward_plan_of(ops, c as int) =~= local_steps_of(c, ops[c as int]));
}

/// Whether the sweep from `root` down to `i` has marked node `j`: `j` is the
/// root, or a node among `i ..= root` that `root` reaches uses it.
spec fn marked_at(ops: Seq<Op>, root: int, i: int, j: int) -> bool {
    j == root || exists|k: int| i <= k <= root && reaches(ops, root, k) && #[trigger] uses(ops[k], j)
}

impl Graph {
    /// The nodes that `root` reaches, each once, from the highest id down.
    /// Since operands have smaller ids than the nodes that use them, every
    /// node comes before all of its operands.
    pub fn backward_order(&self, root: usize) -> (r: Vec<usize>)
        requires
            self.wf(),
            root < self@.len(),
        ensures
            r@ == backward_order_of(self@, root as int),
            r@.len() > 0 && r@[0] == root,
            forall|k: int| 0 <= k < r@.len() ==> reaches(self@, root as int, #[trigger] r@[k] as int),
            forall|n: int| reaches(self@, root as int, n) ==> 0 <= n && r@.contains(n as usize),
            forall|a: int, b: int| 0 <= a < b < r@.len() ==> #[trigger] r@[a] > #[trigger] r@[b],
    {
        let ghost ops = self@;
        let mut marked: Vec<bool> = Vec::new();
        while marked.len() <= root
            invariant
                marked.len() <= root + 1,
                forall|j: int| 0 <= j < marked.len() ==> !#[trigger] marked@[j],
            decreases root + 1 - marked.len(),
        {
            marked.push(false);
        }
        marked.set(root, true);
        let mut order: Vec<usize> = Vec::new();
        let mut i: usize = root + 1;
        while i > 0
            invariant
                self.wf(),
                ops == self@,
                root < ops.len(),
                i <= root + 1,
                marked.len() == root + 1,
                forall|j: int| 0 <= j < i ==> #[trigger] marked@[j] == marked_at(ops, root as int, i as int, j),
                order@ == order_from(ops, root as int, i as int),
            decreases i,
        {
            i -= 1;
            proof {
                if i as int != root as int {
                    lemma_reaches_last_step(ops, root as int, i as int);
                } else {
                    lemma_reaches_self(ops, root as int);
                }
                assert(op_wf(ops[i as int], i as int));
            }
            let ghost before = marked@;
            assert(marked@[i as int] == reaches(ops, root as int, i as int));
            if marked[i] {
                order.push(i);
                match self.op(i) {
                    Op::Leaf => {},
                    Op::Add(a, b) => {
                        marked.set(a, true);
                        marked.set(b, true);
                    },
                    Op::Mul(a, b) => {
                        marked.set(a, true);
                        marked.set(b, true);
                    },
                    Op::Pow(a) => {
                        marked.set(a, true);
                    },
                    Op::TanH(a) => {
                        marked.set(a, true);
                    },
                }
            }
            proof {
                assert forall|j: int| 0 <= j < i implies #[trigger] marked@[j] == marked_at(ops, root as int, i as int, j) by {
                    assert(before[j] == marked_at(ops, root as int, i + 1, j));
                    if marked_at(ops, root as int, i as int, j) && !marked_at(ops, root as int, i + 1, j) {
                        let k = choose|k: int| i <= k <= root && reaches(ops, root as int, k) && #[trigger] uses(ops[k], j);
                        assert(k == i);
                    }
                    if marked_at(ops, root as int, i + 1, j) {
                        if j != root {
                            let k = choose|k: int| i + 1 <= k <= root && reaches(ops, root as int, k) && #[trigger] uses(ops[k], j);
                            assert(i <= k <= root && reaches(ops, root as int, k) && uses(ops[k], j));
                        }
                    }
                    if marked@[j] != before[j] {
                        assert(reaches(ops, root as int, i as int) && uses(ops[i as int], j));
                    }
                }
            }
        }
        proof {
            lemma_backward_order(self@, root as int);
        }
        order
    }

    /// The local derivative rule of node `id`: for each operand, the factor
    /// by which the node's gradient reaches it.
    pub fn local_steps(&self, id: usize) -> (r: Vec<Step>)
        requires
            id < self@.len(),
        ensures
            r@ == local_steps_of(id, self@[id as int]),
    {
        let mut r: Vec<Step> = Vec::new();
        match self.op(id) {
            Op::Leaf => {},
            Op::Add(a, b) => {
                r.push(Step { from: id, to: a, factor: Factor::One });
                r.push(Step { from: id, to: b, factor: Factor::One });
            },
            Op::Mul(a, b) => {
                r.push(Step { from: id, to: a, factor: Factor::ValueOf(b) });
                r.push(Step { from: id, to: b, factor: Factor::ValueOf(a) });
            },
            Op::Pow(a) => {
                r.push(Step { from: id, to: a, factor: Factor::Power });
            },
            Op::TanH(a) => {
                r.push(Step { from: id, to: a, factor: Factor::TanH });
            },
        }
        assert(r@ == local_steps_of(id, self@[id as int]));
        r
    }

    /// Backward propagation from `root`, as the list of accumulations to
    /// perform in turn once the gradient of `root` has been seeded: the local
    /// rule of every node that `root` reaches, each node once, every node
    /// after all the nodes that use it.
    pub fn backward(&self, root: usize) -> (r: Vec<Step>)
        requires
            self.wf(),
            root < self@.len(),
        ensures
            r@ == backward_plan_of(self@, root as int),
            forall|p: int, q: int| 0 <= p < r@.len() && 0 <= q < r@.len() && #[trigger] r@[q].to == #[trigger] r@[p].from
                ==> q < p,
    {
        let order = self.backward_order(root);
        proof {
            lemma_backward_order(self@, root as int);
            assert forall|k: int| 0 <= k < order@.len() implies #[trigger] order@[k] < self@.len() by {
                lemma_reaches_bounds(self@, root as int, order@[k] as int);
            }
        }
        let mut plan: Vec<Step> = Vec::new();
        let mut k: usize = 0;
        while k < order.len()
            invariant
                k <= order@.len(),
                forall|m: int| 0 <= m < order@.len() ==> #[trigger] order@[m] < self@.len(),
                plan@ == steps_of(self@, order@.take(k as int)),
            decreases order@.len() - k,
        {
            let mut local = self.local_steps(order[k]);
            proof {
                assert(order@.take(k + 1).drop_last() == order@.take(k as int));
            }
            plan.append(&mut local);
            k += 1;
        }
        assert(order@.take(k as int) == order@);
        proof {
            lemma_backward_plan(self@, root as int);
        }
        plan
    }
}

} // verus!
