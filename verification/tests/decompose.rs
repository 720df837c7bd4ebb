use tsynth::circuit::{Circuit, Gate, Phase, Qubit};
use tsynth::extract;
use rayon::iter::{IntoParallelIterator, ParallelIterator};
use quizx::graph::GraphLike;
use quizx::tensor::ToTensor;

// --- helpers -----------------------------------------------------------

fn random_circuit(q: usize, g: usize, p_h: f32, p_phase: f32) -> Circuit {
    let mut gates = Vec::new();
    for _ in 0..g {
        let r = rand::random::<f32>();
        if r < p_h {
            gates.push(Gate::H(Qubit(rand::random_range(0..q))));
        } else if r < p_h + p_phase {
            gates.push(Gate::Phase(Phase(rand::random_range(0..8)), Qubit(rand::random_range(0..q))));
        } else {
            let i = rand::random_range(0..q);
            let j = loop {
                let j = rand::random_range(0..q);
                if j != i {
                    break j;
                }
            };
            gates.push(Gate::CNOT(Qubit(i), Qubit(j)));
        }
    }
    Circuit { gates }
}

fn random_not_h(q: usize, g: usize) -> Circuit {
    let mut gates = Vec::new();
    for _ in 0..g {
        let r = rand::random::<f32>();
        if r < 0.1 {
            gates.push(Gate::X(Qubit(rand::random_range(0..q))));
        } else if r < 0.2 {
            gates.push(Gate::Phase(Phase(rand::random_range(0..8)), Qubit(rand::random_range(0..q))));
        } else if r < 0.4 {
            let (i, j) = two_distinct(q);
            gates.push(Gate::SWAP(Qubit(i), Qubit(j)));
        } else if r < 0.5 {
            let (i, j) = two_distinct(q);
            gates.push(Gate::CS(Qubit(i), Qubit(j)));
        } else if r < 0.6 {
            let (i, j) = two_distinct(q);
            let k = loop {
                let k = rand::random_range(0..q);
                if k != i && k != j {
                    break k;
                }
            };
            gates.push(Gate::CCZ(Qubit(i), Qubit(j), Qubit(k)));
        } else {
            let (i, j) = two_distinct(q);
            gates.push(Gate::CNOT(Qubit(i), Qubit(j)));
        }
    }
    Circuit { gates }
}

fn two_distinct(q: usize) -> (usize, usize) {
    let i = rand::random_range(0..q);
    let j = loop {
        let j = rand::random_range(0..q);
        if j != i {
            break j;
        }
    };
    (i, j)
}

// Exact basis-state simulation of an H-free circuit: every computational
// basis state maps to a basis state with a phase that is a multiple of
// pi/4, so unitary equality is decidable with integer arithmetic alone.
fn run_basis(c: &Circuit, x: usize) -> (usize, u32) {
    let mut bits = x;
    let mut ph: u32 = 0;
    for g in &c.gates {
        match *g {
            Gate::X(Qubit(q)) => bits ^= 1 << q,
            Gate::CNOT(Qubit(a), Qubit(b)) => {
                if bits >> a & 1 == 1 {
                    bits ^= 1 << b;
                }
            }
            Gate::SWAP(Qubit(a), Qubit(b)) => {
                let ba = bits >> a & 1;
                let bb = bits >> b & 1;
                if ba != bb {
                    bits ^= (1 << a) | (1 << b);
                }
            }
            Gate::Phase(Phase(p), Qubit(q)) => {
                if bits >> q & 1 == 1 {
                    ph = (ph + p as u32) % 8;
                }
            }
            Gate::CZ(Qubit(a), Qubit(b)) => {
                if bits >> a & 1 == 1 && bits >> b & 1 == 1 {
                    ph = (ph + 4) % 8;
                }
            }
            Gate::CS(Qubit(a), Qubit(b)) => {
                if bits >> a & 1 == 1 && bits >> b & 1 == 1 {
                    ph = (ph + 2) % 8;
                }
            }
            Gate::CCZ(Qubit(a), Qubit(b), Qubit(c)) => {
                if bits >> a & 1 == 1 && bits >> b & 1 == 1 && bits >> c & 1 == 1 {
                    ph = (ph + 4) % 8;
                }
            }
            Gate::H(_) => panic!("basis simulation needs an H-free circuit"),
        }
    }
    (bits, ph)
}

// Unitary equality, up to a global phase, of two H-free circuits.
fn sim_equiv(c1: &Circuit, c2: &Circuit, n: usize) -> bool {
    let mut offset: Option<u32> = None;
    for x in 0..1usize << n {
        let (y1, p1) = run_basis(c1, x);
        let (y2, p2) = run_basis(c2, x);
        if y1 != y2 {
            return false;
        }
        let d = (p1 + 8 - p2) % 8;
        match offset {
            None => offset = Some(d),
            Some(o) => {
                if o != d {
                    return false;
                }
            }
        }
    }
    true
}

// Tensor comparison through quizx, for circuits that contain Hadamards:
// plug the adjoint of one circuit into the other, simplify, and check
// that the tensor is a multiple of the identity.
fn to_zx(c: &Circuit) -> quizx::circuit::Circuit {
    let mut circ = quizx::circuit::Circuit::new(circuit_qubits(c));
    for &gate in &c.gates {
        match gate {
            Gate::H(Qubit(q)) => circ.add_gate("h", vec![q]),
            Gate::X(Qubit(q)) => circ.add_gate("x", vec![q]),
            Gate::Phase(Phase(p), Qubit(q)) => match p {
                0 => (),
                1 => circ.add_gate("t", vec![q]),
                2 => circ.add_gate("s", vec![q]),
                3 => {
                    circ.add_gate("s", vec![q]);
                    circ.add_gate("t", vec![q]);
                }
                4 => circ.add_gate("z", vec![q]),
                5 => {
                    circ.add_gate("z", vec![q]);
                    circ.add_gate("t", vec![q]);
                }
                6 => circ.add_gate("sdg", vec![q]),
                7 => circ.add_gate("tdg", vec![q]),
                _ => panic!("phase out of range"),
            },
            Gate::CNOT(Qubit(c0), Qubit(t)) => circ.add_gate("cx", vec![c0, t]),
            Gate::SWAP(Qubit(a), Qubit(b)) => circ.add_gate("swap", vec![a, b]),
            Gate::CZ(Qubit(a), Qubit(b)) => circ.add_gate("cz", vec![a, b]),
            Gate::CCZ(Qubit(a), Qubit(b), Qubit(c0)) => circ.add_gate("ccz", vec![a, b, c0]),
            Gate::CS(Qubit(a), Qubit(b)) => {
                circ.add_gate("cx", vec![a, b]);
                circ.add_gate("tdg", vec![b]);
                circ.add_gate("cx", vec![a, b]);
                circ.add_gate("t", vec![a]);
                circ.add_gate("t", vec![b]);
            }
        }
    }
    circ
}

fn circuit_qubits(c: &Circuit) -> usize {
    let mut n = 0;
    for g in &c.gates {
        let q = g.qubits();
        n = n.max(q[0].0 + 1).max(q[1].0 + 1).max(q[2].0 + 1);
    }
    n
}

fn build_plugged(a: &quizx::circuit::Circuit, b: &quizx::circuit::Circuit) -> (quizx::vec_graph::Graph, quizx::vec_graph::Graph) {
    let mut ga = a.to_graph::<quizx::vec_graph::Graph>();
    let mut gb = b.to_graph::<quizx::vec_graph::Graph>();
    if b.num_qubits() > a.num_qubits() {
        for i in (a.num_qubits()..b.num_qubits()).rev() {
            gb.plug_input(i, quizx::graph::BasisElem::Z0);
            gb.plug_output(i, quizx::graph::BasisElem::Z0);
        }
    } else {
        for i in (b.num_qubits()..a.num_qubits()).rev() {
            ga.plug_input(i, quizx::graph::BasisElem::Z0);
            ga.plug_output(i, quizx::graph::BasisElem::Z0);
        }
    }
    (ga, gb)
}

// Simplification can strand a boundary vertex of a plugged graph, which
// the composed equality check cannot handle.
fn graph_ok(g: &quizx::vec_graph::Graph) -> bool {
    g.inputs().iter().chain(g.outputs().iter()).all(|&v| g.incident_edges(v).next().is_some())
}

pub fn verify_quizx(a: &Circuit, b: &Circuit) {
    let a = to_zx(a);
    let b = to_zx(b);
    // simplify each side first: this collapses the ancilla gadgets and
    // makes the composed equality check cheap
    let (mut sa, mut sb) = build_plugged(&a, &b);
    quizx::simplify::full_simp(&mut sa);
    quizx::simplify::full_simp(&mut sb);
    if graph_ok(&sa) && graph_ok(&sb) {
        if matches!(quizx::equality::equal_graph_with_options(&sa, &sb, true), Some(true)) {
            return;
        }
    }
    // rare: retry on the unsimplified graphs
    let (mut ga, mut gb) = build_plugged(&a, &b);
    if matches!(quizx::equality::equal_graph_with_options(&ga, &gb, true), Some(true)) {
        return;
    }
    // inconclusive simplification: fall back to the plugged tensor
    gb.adjoint();
    ga.plug(&gb);
    quizx::simplify::full_simp(&mut ga);
    let t = ga.to_tensor64();
    let shape_len = t.shape().len();
    let flat: Vec<(f64, f64)> = t.iter().map(|v| (v.re, v.im)).collect();
    let diag = flat[0];
    for (pos, val) in flat.iter().enumerate() {
        // decode the row-major index into input and output bit strings
        let mut ix = vec![0usize; shape_len];
        let mut p = pos;
        for d in (0..shape_len).rev() {
            ix[d] = p % 2;
            p /= 2;
        }
        let (iix, oix) = ix.split_at(ix.len() / 2);
        if iix.iter().zip(oix).any(|(i, o)| i != o) {
            assert!(
                (val.0 * val.0 + val.1 * val.1).sqrt() < 1e-6,
                "off-diagonal entry in plugged tensor"
            );
        } else {
            assert!(
                ((val.0 - diag.0).powi(2) + (val.1 - diag.1).powi(2)).sqrt() < 1e-6,
                "diagonal entries differ in plugged tensor"
            );
        }
    }
}

// --- tests -------------------------------------------------------------

#[test]
fn partition_split_merge_random() {
    let q = 7;
    let g = 100;
    let k = 1000;
    (0..k).into_par_iter().for_each(|_| {
        let circuit = random_circuit(q, g, 0.1, 0.3);
        let original = circuit.clone();
        let mut new = circuit.partition();
        new.pick_gadgets(10, 100);
        let new = new.merge();
        verify_quizx(&original, &new);
    });
}

#[test]
fn cnot_phase_random() {
    let q = 10;
    let g = 50;
    let k = 1000;
    (0..k).into_par_iter().for_each(|_| {
        let mut circuit = random_not_h(q, g);
        let original = circuit.clone();
        let cliff = circuit.to_cnot_phase();
        circuit.merge(cliff);
        assert!(sim_equiv(&original, &circuit, q));
    });
}

#[test]
fn synth_gadgets_random() {
    let q = 10;
    let g = 50;
    let k = 1000;
    (0..k).into_par_iter().for_each(|_| {
        let mut circuit = random_not_h(q, g);
        let original = circuit.clone();
        let cliff1 = circuit.to_cnot_phase();
        let (map, mat, cliff2) = circuit.extract_gadgets();
        let (mut resynth, _, _, _) = extract::extract_gadgets(&mat, &map, false);
        assert!(sim_equiv(&circuit, &resynth, q));
        resynth.merge(cliff2);
        resynth.merge(cliff1);
        assert!(sim_equiv(&original, &resynth, q));
    });
}

#[test]
fn partition_synth_gadgets_random() {
    let q = 7;
    let g = 200;
    let k = 1000;
    (0..k).into_par_iter().for_each(|_| {
        let circuit = random_circuit(q, g, 0.1, 0.3);
        let original = circuit.clone();
        let mut new = circuit.partition();
        new.pick_gadgets(5, 100);
        new.to_cnot_phase();
        new.extract_gadgets();
        let new = new.merge();
        verify_quizx(&original, &new);
    });
}
