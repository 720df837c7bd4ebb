use tsynth::circuit::{Circuit, Gate, Phase, Qubit};
use rayon::iter::{IntoParallelIterator, ParallelIterator};
use quizx::graph::GraphLike;

fn random_circuit(q: usize, g: usize, p_h: f32, p_phase: f32) -> Circuit {
    let mut gates = Vec::new();
    for _ in 0..g {
        let r = rand::random::<f32>();
        if r < p_h {
            gates.push(Gate::H(Qubit(rand::random_range(0..q))));
        } else if r < p_h + p_phase {
            gates.push(Gate::Phase(Phase(rand::random_range(0..8)), Qubit(rand::random_range(0..q))));
        } else {
            let i = rand::random_range(0..q);
            let j = loop {
                let j = rand::random_range(0..q);
                if j != i {
                    break j;
                }
            };
            gates.push(Gate::CNOT(Qubit(i), Qubit(j)));
        }
    }
    Circuit { gates }
}

fn to_zx(c: &Circuit) -> quizx::circuit::Circuit {
    let mut n = 0;
    for g in &c.gates {
        let q = g.qubits();
        n = n.max(q[0].0 + 1).max(q[1].0 + 1).max(q[2].0 + 1);
    }
    let mut circ = quizx::circuit::Circuit::new(n);
    for &gate in &c.gates {
        match gate {
            Gate::H(Qubit(q)) => circ.add_gate("h", vec![q]),
            Gate::X(Qubit(q)) => circ.add_gate("x", vec![q]),
            Gate::Phase(Phase(p), Qubit(q)) => match p {
                0 => (),
                1 => circ.add_gate("t", vec![q]),
                2 => circ.add_gate("s", vec![q]),
                3 => {
                    circ.add_gate("s", vec![q]);
                    circ.add_gate("t", vec![q]);
                }
                4 => circ.add_gate("z", vec![q]),
                5 => {
                    circ.add_gate("z", vec![q]);
                    circ.add_gate("t", vec![q]);
                }
                6 => circ.add_gate("sdg", vec![q]),
                7 => circ.add_gate("tdg", vec![q]),
                _ => panic!("phase out of range"),
            },
            Gate::CNOT(Qubit(c0), Qubit(t)) => circ.add_gate("cx", vec![c0, t]),
            Gate::SWAP(Qubit(a), Qubit(b)) => circ.add_gate("swap", vec![a, b]),
            Gate::CZ(Qubit(a), Qubit(b)) => circ.add_gate("cz", vec![a, b]),
            Gate::CCZ(Qubit(a), Qubit(b), Qubit(c0)) => circ.add_gate("ccz", vec![a, b, c0]),
            Gate::CS(Qubit(a), Qubit(b)) => {
                circ.add_gate("cx", vec![a, b]);
                circ.add_gate("tdg", vec![b]);
                circ.add_gate("cx", vec![a, b]);
                circ.add_gate("t", vec![a]);
                circ.add_gate("t", vec![b]);
            }
        }
    }
    circ
}

// Conclusively-equal check through quizx; inconclusive simplification
// returns false and is handled by the exact fallback.
fn build_plugged(a: &quizx::circuit::Circuit, b: &quizx::circuit::Circuit) -> (quizx::vec_graph::Graph, quizx::vec_graph::Graph) {
    let mut ga = a.to_graph::<quizx::vec_graph::Graph>();
    let mut gb = b.to_graph::<quizx::vec_graph::Graph>();
    if b.num_qubits() > a.num_qubits() {
        for i in (a.num_qubits()..b.num_qubits()).rev() {
            gb.plug_input(i, quizx::graph::BasisElem::Z0);
            gb.plug_output(i, quizx::graph::BasisElem::Z0);
        }
    } else {
        for i in (b.num_qubits()..a.num_qubits()).rev() {
            ga.plug_input(i, quizx::graph::BasisElem::Z0);
            ga.plug_output(i, quizx::graph::BasisElem::Z0);
        }
    }
    (ga, gb)
}

// Simplification can strand a boundary vertex of a plugged graph, which
// the composed equality check cannot handle.
fn graph_ok(g: &quizx::vec_graph::Graph) -> bool {
    g.inputs().iter().chain(g.outputs().iter()).all(|&v| g.incident_edges(v).next().is_some())
}

fn verify_quizx(a: &Circuit, b: &Circuit) -> bool {
    let a = to_zx(a);
    let b = to_zx(b);
    // simplify each side first: this collapses the ancilla gadgets and
    // makes the composed equality check cheap
    let (mut ga, mut gb) = build_plugged(&a, &b);
    quizx::simplify::full_simp(&mut ga);
    quizx::simplify::full_simp(&mut gb);
    if graph_ok(&ga) && graph_ok(&gb) {
        if matches!(quizx::equality::equal_graph_with_options(&ga, &gb, true), Some(true)) {
            return true;
        }
    }
    // rare: retry on the unsimplified graphs
    let (ga, gb) = build_plugged(&a, &b);
    matches!(quizx::equality::equal_graph_with_options(&ga, &gb, true), Some(true))
}

// Exact arithmetic over Z[w], w = exp(i*pi/4), w^4 = -1; scalars cancel
// in the projective comparison, so normalization is never needed.
type Amp = [i64; 4];

fn amp_add(a: Amp, b: Amp) -> Amp {
    [a[0] + b[0], a[1] + b[1], a[2] + b[2], a[3] + b[3]]
}

fn amp_sub(a: Amp, b: Amp) -> Amp {
    [a[0] - b[0], a[1] - b[1], a[2] - b[2], a[3] - b[3]]
}

fn amp_mul_w(a: Amp, k: u32) -> Amp {
    let mut r = a;
    for _ in 0..k % 8 {
        r = [-r[3], r[0], r[1], r[2]];
    }
    r
}

fn amp_mul(a: Amp, b: Amp) -> Amp {
    let mut r = [0i64; 4];
    for i in 0..4 {
        for j in 0..4 {
            let p = a[i] * b[j];
            let d = i + j;
            if d < 4 {
                r[d] += p;
            } else {
                r[d - 4] -= p;
            }
        }
    }
    r
}

fn apply_plain(v: &mut Vec<Amp>, g: &Gate) {
    match *g {
        Gate::X(Qubit(q)) => {
            for i in 0..v.len() {
                if i >> q & 1 == 0 {
                    v.swap(i, i ^ (1 << q));
                }
            }
        }
        Gate::CNOT(Qubit(a), Qubit(b)) => {
            for i in 0..v.len() {
                if i >> a & 1 == 1 && i >> b & 1 == 0 {
                    v.swap(i, i ^ (1 << b));
                }
            }
        }
        Gate::SWAP(Qubit(a), Qubit(b)) => {
            for i in 0..v.len() {
                if i >> a & 1 == 1 && i >> b & 1 == 0 {
                    v.swap(i, i ^ (1 << a) ^ (1 << b));
                }
            }
        }
        Gate::Phase(Phase(p), Qubit(q)) => {
            for i in 0..v.len() {
                if i >> q & 1 == 1 {
                    v[i] = amp_mul_w(v[i], p as u32);
                }
            }
        }
        Gate::CZ(Qubit(a), Qubit(b)) => {
            for i in 0..v.len() {
                if i >> a & 1 == 1 && i >> b & 1 == 1 {
                    v[i] = amp_mul_w(v[i], 4);
                }
            }
        }
        Gate::CS(Qubit(a), Qubit(b)) => {
            for i in 0..v.len() {
                if i >> a & 1 == 1 && i >> b & 1 == 1 {
                    v[i] = amp_mul_w(v[i], 2);
                }
            }
        }
        Gate::CCZ(Qubit(a), Qubit(b), Qubit(c)) => {
            for i in 0..v.len() {
                if i >> a & 1 == 1 && i >> b & 1 == 1 && i >> c & 1 == 1 {
                    v[i] = amp_mul_w(v[i], 4);
                }
            }
        }
        Gate::H(Qubit(q)) => {
            for i in 0..v.len() {
                if i >> q & 1 == 0 {
                    let lo = v[i];
                    let hi = v[i ^ (1 << q)];
                    v[i] = amp_add(lo, hi);
                    v[i ^ (1 << q)] = amp_sub(lo, hi);
                }
            }
        }
    }
}

// Simulate the gadgetized body on `q` live qubits: each fresh ancilla is
// touched by exactly one adjacent SWAP/CZ pair, so it can be opened as
// |0>, given its preparing H, used, given its closing H, and
// post-selected on <0| right away.  The structure is asserted, never
// assumed.
fn run_gadgetized(body: &Circuit, q: usize, x: usize) -> Vec<Amp> {
    let mut v: Vec<Amp> = vec![[0, 0, 0, 0]; 1 << q];
    v[x] = [1, 0, 0, 0];
    let mut gates = body.gates.iter().peekable();
    while let Some(g) = gates.next() {
        let qs = g.qubits();
        let touches_ancilla = qs[0].0 >= q || qs[1].0 >= q || qs[2].0 >= q;
        if !touches_ancilla {
            apply_plain(&mut v, g);
            continue;
        }
        // must be SWAP(n, t) immediately followed by CZ(n, t)
        let (n, t) = match *g {
            Gate::SWAP(Qubit(n), Qubit(t)) if n >= q && t < q => (n, t),
            _ => panic!("unexpected ancilla use: {:?}", g),
        };
        match gates.next() {
            Some(&Gate::CZ(Qubit(a), Qubit(b))) if (a, b) == (n, t) => {}
            other => panic!("expected the gadget CZ, found {:?}", other),
        }
        // open the ancilla in H|0> = |+>, on bit position q
        let mut ext: Vec<Amp> = vec![[0, 0, 0, 0]; 1 << (q + 1)];
        for i in 0..v.len() {
            ext[i] = v[i];
            ext[i | 1 << q] = v[i];
        }
        apply_plain(&mut ext, &Gate::SWAP(Qubit(q), Qubit(t)));
        apply_plain(&mut ext, &Gate::CZ(Qubit(q), Qubit(t)));
        apply_plain(&mut ext, &Gate::H(Qubit(q)));
        // post-select the ancilla on <0|
        for i in 0..v.len() {
            v[i] = ext[i];
        }
    }
    v
}

// Exact equality, up to one global scalar, of the original circuit and
// its gadgetized form `front ++ body ++ back` restricted to `q` qubits.
fn exact_gadgetized_equiv(original: &Circuit, front: &Circuit, body: &Circuit, back: &Circuit, q: usize) {
    for g in front.gates.iter().chain(back.gates.iter()) {
        match *g {
            Gate::H(Qubit(n)) if n >= q => {}
            _ => panic!("unexpected boundary gate: {:?}", g),
        }
    }
    let mut m1: Vec<Amp> = Vec::new();
    let mut m2: Vec<Amp> = Vec::new();
    for x in 0..1usize << q {
        let mut v1: Vec<Amp> = vec![[0, 0, 0, 0]; 1 << q];
        v1[x] = [1, 0, 0, 0];
        for g in &original.gates {
            apply_plain(&mut v1, g);
        }
        let v2 = run_gadgetized(body, q, x);
        m1.extend(v1);
        m2.extend(v2);
    }
    let mut pivot: Option<(Amp, Amp)> = None;
    for i in 0..m1.len() {
        let z1 = m1[i] == [0, 0, 0, 0];
        let z2 = m2[i] == [0, 0, 0, 0];
        assert!(z1 == z2, "zero patterns differ");
        if !z1 && pivot.is_none() {
            pivot = Some((m1[i], m2[i]));
        }
    }
    if let Some((u, w)) = pivot {
        for i in 0..m1.len() {
            assert!(amp_mul(m1[i], w) == amp_mul(m2[i], u), "amplitudes differ");
        }
    }
}

#[test]
fn hadamard_gadgetize_random() {
    let q = 7;
    let g = 100;
    let k = 1000;
    (0..k).into_par_iter().for_each(|_| {
        let mut circuit = random_circuit(q, g, 0.25, 0.25);
        let original = circuit.clone();
        let mut next_id = q;
        let mut front = Circuit { gates: Vec::new() };
        let mut back = Circuit { gates: Vec::new() };
        circuit.decomp_hads(&mut next_id, &mut front, &mut back);
        let mut new = front.clone();
        new.merge(circuit.clone());
        new.merge(back.clone());

        if !verify_quizx(&original, &new) {
            // rare: the simplifier could not finish; check exactly instead
            exact_gadgetized_equiv(&original, &front, &circuit, &back, q);
        }
    });
}
