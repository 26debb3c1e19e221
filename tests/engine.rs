use rustymicrograd::{Factor, Graph, Op};

/// Numbers kept beside a graph: a value, a gradient and, for power and tanh
/// nodes, the exponent or the cached tanh.
struct Tape {
    g: Graph,
    data: Vec<f64>,
    grad: Vec<f64>,
    aux: Vec<f64>,
}

impl Tape {
    fn new() -> Tape {
        Tape { g: Graph::new(), data: Vec::new(), grad: Vec::new(), aux: Vec::new() }
    }

    fn record(&mut self, id: usize, data: f64, aux: f64) -> usize {
        assert_eq!(id, self.data.len());
        self.data.push(data);
        self.grad.push(0.0);
        self.aux.push(aux);
        id
    }

    fn leaf(&mut self, v: f64) -> usize {
        let id = self.g.leaf();
        self.record(id, v, 0.0)
    }

    fn add(&mut self, a: usize, b: usize) -> usize {
        let id = self.g.add(a, b);
        let v = self.data[a] + self.data[b];
        self.record(id, v, 0.0)
    }

    fn mul(&mut self, a: usize, b: usize) -> usize {
        let id = self.g.mul(a, b);
        let v = self.data[a] * self.data[b];
        self.record(id, v, 0.0)
    }

    fn pow(&mut self, a: usize, e: f64) -> usize {
        let id = self.g.pow(a);
        let v = self.data[a].powf(e);
        self.record(id, v, e)
    }

    fn tanh(&mut self, a: usize) -> usize {
        let id = self.g.tanh(a);
        let x = self.data[a];
        let t = ((2.0 * x).exp() - 1.0) / ((2.0 * x).exp() + 1.0);
        self.record(id, t, t)
    }

    /// Values for nodes that the library added to the graph.
    fn catch_up(&mut self, fresh_leaf: f64) {
        while self.data.len() < self.g.len() {
            let id = self.data.len();
            let (v, aux) = match self.g.op(id) {
                Op::Leaf => (fresh_leaf, 0.0),
                Op::Add(a, b) => (self.data[a] + self.data[b], 0.0),
                Op::Mul(a, b) => (self.data[a] * self.data[b], 0.0),
                Op::Pow(_) => panic!("no exponent known"),
                Op::TanH(a) => {
                    let t = self.data[a].tanh();
                    (t, t)
                }
            };
            self.record(id, v, aux);
        }
    }

    fn backward(&mut self, root: usize) {
        for s in self.g.backward(root) {
            let f = match s.factor {
                Factor::One => 1.0,
                Factor::ValueOf(n) => self.data[n],
                Factor::Power => self.aux[s.from] * self.data[s.to].powf(self.aux[s.from] - 1.0),
                Factor::TanH => 1.0 - self.aux[s.from] * self.aux[s.from],
            };
            self.grad[s.to] += f * self.grad[s.from];
        }
    }
}

#[test]
fn test_addition() {
    let mut t = Tape::new();
    let a = t.leaf(2.0);
    let b = t.leaf(3.0);
    let c = t.add(a, b);
    assert_eq!(t.data[c], 5.0);
    assert_eq!(t.grad[c], 0.0);
    assert_eq!(t.g.op(c), Op::Add(a, b));
}

#[test]
fn test_multiplication() {
    let mut t = Tape::new();
    let a = t.leaf(2.0);
    let b = t.leaf(3.0);
    let c = t.mul(a, b);
    assert_eq!(t.data[c], 6.0);
    assert_eq!(t.grad[c], 0.0);
    assert_eq!(t.g.op(c), Op::Mul(a, b));
}

#[test]
fn test_tanh() {
    let mut t = Tape::new();
    let a = t.leaf(0.5);
    let b = t.tanh(a);
    assert!((t.data[b] - 0.46211717).abs() < 0.0001);
    assert_eq!(t.grad[b], 0.0);
    assert_eq!(t.g.op(b), Op::TanH(a));
}

#[test]
fn test_pow() {
    let mut t = Tape::new();
    let a = t.leaf(2.0);
    let b = t.pow(a, 3.0);
    assert_eq!(t.data[b], 8.0);
    assert_eq!(t.grad[b], 0.0);
    assert_eq!(t.g.op(b), Op::Pow(a));
}

#[test]
fn test_backward() {
    let mut t = Tape::new();
    let a = t.leaf(2.0);
    let b = t.leaf(3.0);
    let c = t.mul(a, b);
    t.grad[c] = 1.0;
    t.backward(c);
    assert_eq!(t.grad[a], 3.0);
    assert_eq!(t.grad[b], 2.0);
}

#[test]
fn diamond_shared_node_collects_both_paths() {
    let mut t = Tape::new();
    let shared = t.leaf(2.0);
    let three = t.leaf(3.0);
    let left = t.mul(shared, three);
    let five = t.leaf(5.0);
    let right = t.mul(shared, five);
    let out = t.add(left, right);
    t.grad[out] = 1.0;
    t.backward(out);
    assert_eq!(t.grad[shared], 8.0);
    assert_eq!(t.grad[three], 2.0);
    assert_eq!(t.grad[five], 2.0);
    assert_eq!(t.grad[left], 1.0);
    assert_eq!(t.grad[right], 1.0);
}

#[test]
fn diamond_order_visits_users_first_and_each_node_once() {
    let mut g = Graph::new();
    let shared = g.leaf();
    let three = g.leaf();
    let left = g.mul(shared, three);
    let five = g.leaf();
    let right = g.mul(shared, five);
    let out = g.add(left, right);
    assert_eq!(g.backward_order(out), vec![out, right, five, left, three, shared]);
    assert_eq!(g.backward_order(left), vec![left, three, shared]);
}

#[test]
fn order_skips_nodes_that_do_not_feed_the_root() {
    let mut g = Graph::new();
    let a = g.leaf();
    let unused = g.leaf();
    let b = g.leaf();
    let c = g.tanh(a);
    let d = g.add(c, b);
    let _later = g.mul(d, unused);
    assert_eq!(g.backward_order(d), vec![d, c, b, a]);
    assert_eq!(g.backward_order(a), vec![a]);
}

#[test]
fn tanh_and_power_gradients() {
    let mut t = Tape::new();
    let x = t.leaf(0.5);
    let y = t.tanh(x);
    t.grad[y] = 1.0;
    t.backward(y);
    let th = 0.5f64.tanh();
    assert!((t.grad[x] - (1.0 - th * th)).abs() < 1e-12);

    let mut t = Tape::new();
    let x = t.leaf(3.0);
    let y = t.pow(x, 2.0);
    t.grad[y] = 1.0;
    t.backward(y);
    assert_eq!(t.data[y], 9.0);
    assert_eq!(t.grad[x], 6.0);
}

#[test]
fn division_through_a_negative_power() {
    let mut t = Tape::new();
    let a = t.leaf(6.0);
    let b = t.leaf(2.0);
    let inv = t.pow(b, -1.0);
    let q = t.mul(a, inv);
    assert_eq!(t.data[q], 3.0);
    t.grad[q] = 1.0;
    t.backward(q);
    assert_eq!(t.grad[a], 0.5);
    assert_eq!(t.grad[b], -1.5);
}

#[test]
fn reset_then_backward_gives_one_pass() {
    let mut t = Tape::new();
    let w = t.leaf(-3.0);
    let x = t.leaf(2.0);
    let p = t.mul(w, x);
    let s = t.add(p, w);
    let o = t.tanh(s);
    let mut first = Vec::new();
    for _ in 0..3 {
        for gr in t.grad.iter_mut() {
            *gr = 0.0;
        }
        t.grad[o] = 1.0;
        t.backward(o);
        if first.is_empty() {
            first = t.grad.clone();
        }
        assert_eq!(t.grad, first);
    }
    let d = 1.0 - t.data[o] * t.data[o];
    assert!((t.grad[w] - d * (2.0 + 1.0)).abs() < 1e-12);
    assert_eq!(t.grad[x], d * -3.0);
}

#[test]
fn local_rules_of_each_operation() {
    let mut g = Graph::new();
    let a = g.leaf();
    let b = g.leaf();
    let s = g.add(a, b);
    let m = g.mul(a, b);
    let p = g.pow(m);
    let h = g.tanh(p);
    assert!(g.local_steps(a).is_empty());
    let ss = g.local_steps(s);
    assert_eq!(ss.len(), 2);
    assert_eq!((ss[0].from, ss[0].to, ss[0].factor), (s, a, Factor::One));
    assert_eq!((ss[1].from, ss[1].to, ss[1].factor), (s, b, Factor::One));
    let ms = g.local_steps(m);
    assert_eq!((ms[0].to, ms[0].factor), (a, Factor::ValueOf(b)));
    assert_eq!((ms[1].to, ms[1].factor), (b, Factor::ValueOf(a)));
    let ps = g.local_steps(p);
    assert_eq!((ps.len(), ps[0].from, ps[0].to, ps[0].factor), (1, p, m, Factor::Power));
    let hs = g.local_steps(h);
    assert_eq!((hs.len(), hs[0].from, hs[0].to, hs[0].factor), (1, h, p, Factor::TanH));
    let plan = g.backward(h);
    let froms: Vec<usize> = plan.iter().map(|s| s.from).collect();
    assert_eq!(froms, vec![h, p, m, m]);
}

#[test]
fn inspection_walk_repeats_shared_nodes() {
    let mut g = Graph::new();
    let shared = g.leaf();
    let three = g.leaf();
    let left = g.mul(shared, three);
    let five = g.leaf();
    let right = g.mul(shared, five);
    let out = g.add(left, right);
    let top = g.tanh(out);
    assert_eq!(g.debug_order(top), vec![shared, three, left, shared, five, right, out, top]);
    assert_eq!(g.debug_order(five), vec![five]);
}

#[test]
fn operation_symbols() {
    assert_eq!(Op::Leaf.symbol(), "");
    assert_eq!(Op::Add(0, 1).symbol(), "+");
    assert_eq!(Op::Mul(0, 1).symbol(), "*");
    assert_eq!(Op::Pow(0).symbol(), "pow");
    assert_eq!(Op::TanH(0).symbol(), "tanh");
}

#[test]
fn graph_ids_count_up() {
    let mut g = Graph::new();
    assert_eq!(g.len(), 0);
    assert_eq!(g.leaf(), 0);
    assert_eq!(g.leaf(), 1);
    assert_eq!(g.add(0, 1), 2);
    assert_eq!(g.pow(2), 3);
    assert_eq!(g.len(), 4);
    assert_eq!(g.op(3), Op::Pow(2));
    assert_eq!(g.op(0), Op::Leaf);
}
