use tsynth::circuit::{Circuit, Gate, Phase, Qubit};
use tsynth::hadamard::BasicGate;
use tsynth::decompose::PartitionedCircuit;
use tsynth::extract;
use tsynth::matrix::BoolMat;

// Exact basis-state simulation of an H-free circuit (see tests/decompose.rs).
fn run_basis(c: &Circuit, x: usize) -> (usize, u32) {
    let mut bits = x;
    let mut ph: u32 = 0;
    for g in &c.gates {
        match *g {
            Gate::X(Qubit(q)) => bits ^= 1 << q,
            Gate::CNOT(Qubit(a), Qubit(b)) => {
                if bits >> a & 1 == 1 {
                    bits ^= 1 << b;
                }
            }
            Gate::SWAP(Qubit(a), Qubit(b)) => {
                let ba = bits >> a & 1;
                let bb = bits >> b & 1;
                if ba != bb {
                    bits ^= (1 << a) | (1 << b);
                }
            }
            Gate::Phase(Phase(p), Qubit(q)) => {
                if bits >> q & 1 == 1 {
                    ph = (ph + p as u32) % 8;
                }
            }
            Gate::CZ(Qubit(a), Qubit(b)) => {
                if bits >> a & 1 == 1 && bits >> b & 1 == 1 {
                    ph = (ph + 4) % 8;
                }
            }
            Gate::CS(Qubit(a), Qubit(b)) => {
                if bits >> a & 1 == 1 && bits >> b & 1 == 1 {
                    ph = (ph + 2) % 8;
                }
            }
            Gate::CCZ(Qubit(a), Qubit(b), Qubit(c)) => {
                if bits >> a & 1 == 1 && bits >> b & 1 == 1 && bits >> c & 1 == 1 {
                    ph = (ph + 4) % 8;
                }
            }
            Gate::H(_) => panic!("basis simulation needs an H-free circuit"),
        }
    }
    (bits, ph)
}

fn sim_equiv(c1: &Circuit, c2: &Circuit, n: usize) -> bool {
    let mut offset: Option<u32> = None;
    for x in 0..1usize << n {
        let (y1, p1) = run_basis(c1, x);
        let (y2, p2) = run_basis(c2, x);
        if y1 != y2 {
            return false;
        }
        let d = (p1 + 8 - p2) % 8;
        match offset {
            None => offset = Some(d),
            Some(o) => {
                if o != d {
                    return false;
                }
            }
        }
    }
    true
}

// Exact state-vector simulation over Z[w], w = exp(i*pi/4), with w^4 = -1:
// every Clifford+T amplitude is an integer combination of 1, w, w^2, w^3
// up to a power of sqrt(2), which projective comparison cancels out.
type Amp = [i64; 4];

fn amp_add(a: Amp, b: Amp) -> Amp {
    [a[0] + b[0], a[1] + b[1], a[2] + b[2], a[3] + b[3]]
}

fn amp_sub(a: Amp, b: Amp) -> Amp {
    [a[0] - b[0], a[1] - b[1], a[2] - b[2], a[3] - b[3]]
}

fn amp_mul_w(a: Amp, k: u32) -> Amp {
    let mut r = a;
    for _ in 0..k % 8 {
        r = [-r[3], r[0], r[1], r[2]];
    }
    r
}

fn amp_mul(a: Amp, b: Amp) -> Amp {
    let mut r = [0i64; 4];
    for i in 0..4 {
        for j in 0..4 {
            let p = a[i] * b[j];
            let d = i + j;
            if d < 4 {
                r[d] += p;
            } else {
                r[d - 4] -= p;
            }
        }
    }
    r
}

// Unnormalized state after the circuit on |x> over `n` qubits.
fn run_full(c: &Circuit, n: usize, x: usize) -> Vec<Amp> {
    let mut v: Vec<Amp> = vec![[0, 0, 0, 0]; 1 << n];
    v[x] = [1, 0, 0, 0];
    for g in &c.gates {
        match *g {
            Gate::X(Qubit(q)) => {
                for i in 0..v.len() {
                    if i >> q & 1 == 0 {
                        v.swap(i, i ^ (1 << q));
                    }
                }
            }
            Gate::CNOT(Qubit(a), Qubit(b)) => {
                for i in 0..v.len() {
                    if i >> a & 1 == 1 && i >> b & 1 == 0 {
                        v.swap(i, i ^ (1 << b));
                    }
                }
            }
            Gate::SWAP(Qubit(a), Qubit(b)) => {
                for i in 0..v.len() {
                    if i >> a & 1 == 1 && i >> b & 1 == 0 {
                        v.swap(i, i ^ (1 << a) ^ (1 << b));
                    }
                }
            }
            Gate::Phase(Phase(p), Qubit(q)) => {
                for i in 0..v.len() {
                    if i >> q & 1 == 1 {
                        v[i] = amp_mul_w(v[i], p as u32);
                    }
                }
            }
            Gate::CZ(Qubit(a), Qubit(b)) => {
                for i in 0..v.len() {
                    if i >> a & 1 == 1 && i >> b & 1 == 1 {
                        v[i] = amp_mul_w(v[i], 4);
                    }
                }
            }
            Gate::CS(Qubit(a), Qubit(b)) => {
                for i in 0..v.len() {
                    if i >> a & 1 == 1 && i >> b & 1 == 1 {
                        v[i] = amp_mul_w(v[i], 2);
                    }
                }
            }
            Gate::CCZ(Qubit(a), Qubit(b), Qubit(c)) => {
                for i in 0..v.len() {
                    if i >> a & 1 == 1 && i >> b & 1 == 1 && i >> c & 1 == 1 {
                        v[i] = amp_mul_w(v[i], 4);
                    }
                }
            }
            Gate::H(Qubit(q)) => {
                for i in 0..v.len() {
                    if i >> q & 1 == 0 {
                        let lo = v[i];
                        let hi = v[i ^ (1 << q)];
                        v[i] = amp_add(lo, hi);
                        v[i ^ (1 << q)] = amp_sub(lo, hi);
                    }
                }
            }
        }
    }
    v
}

// The two circuits agree on the first `q` qubits, up to one global
// scalar, once every extra qubit is prepared and post-selected in |0>.
fn postselect_equiv(c1: &Circuit, c2: &Circuit, q: usize, n1: usize, n2: usize) -> bool {
    let mut m1: Vec<Amp> = Vec::new();
    let mut m2: Vec<Amp> = Vec::new();
    for x in 0..1usize << q {
        let v1 = run_full(c1, n1, x);
        let v2 = run_full(c2, n2, x);
        for y in 0..1usize << q {
            m1.push(v1[y]);
            m2.push(v2[y]);
        }
    }
    // projective comparison: m1 = lambda * m2 for one scalar lambda
    let mut pivot: Option<(Amp, Amp)> = None;
    for i in 0..m1.len() {
        let z1 = m1[i] == [0, 0, 0, 0];
        let z2 = m2[i] == [0, 0, 0, 0];
        if z1 != z2 {
            return false;
        }
        if !z1 && pivot.is_none() {
            pivot = Some((m1[i], m2[i]));
        }
    }
    if let Some((u, w)) = pivot {
        for i in 0..m1.len() {
            if amp_mul(m1[i], w) != amp_mul(m2[i], u) {
                return false;
            }
        }
    }
    true
}

fn small_random_circuit(q: usize, g: usize) -> Circuit {
    let mut gates = Vec::new();
    for _ in 0..g {
        let r = rand::random::<f32>();
        if r < 0.3 {
            gates.push(Gate::H(Qubit(rand::random_range(0..q))));
        } else if r < 0.6 {
            gates.push(Gate::Phase(Phase(rand::random_range(0..8)), Qubit(rand::random_range(0..q))));
        } else {
            let i = rand::random_range(0..q);
            let j = loop {
                let j = rand::random_range(0..q);
                if j != i {
                    break j;
                }
            };
            gates.push(Gate::CNOT(Qubit(i), Qubit(j)));
        }
    }
    Circuit { gates }
}

// The whole pipeline on small circuits, checked against an exact
// integer-arithmetic simulation with ancilla post-selection.
#[test]
fn pipeline_small_exact() {
    for _ in 0..150 {
        let circuit = small_random_circuit(3, 6);
        let original = circuit.clone();
        // the circuit's register is what its gates touch; ancillas are
        // allocated above it
        let mut qd = 1;
        for g in &original.gates {
            let qs = g.qubits();
            qd = qd.max(qs[0].0 + 1).max(qs[1].0 + 1).max(qs[2].0 + 1);
        }
        let mut p = circuit.partition();
        p.pick_gadgets(3, 20);
        p.to_cnot_phase();
        p.extract_gadgets();
        let new = p.merge();
        let mut n2 = qd;
        for g in &new.gates {
            let qs = g.qubits();
            n2 = n2.max(qs[0].0 + 1).max(qs[1].0 + 1).max(qs[2].0 + 1);
        }
        assert!(
            postselect_equiv(&original, &new, qd, qd, n2),
            "pipeline changed the unitary of {:?}\ninto {:?}",
            original.gates,
            new.gates,
        );
    }
}

// Rendering a circuit into the external minimizer's vocabulary and
// reading it back preserves the unitary exactly.
#[test]
fn minimizer_vocabulary_roundtrip() {
    for _ in 0..100 {
        let q = 3;
        let mut gates = Vec::new();
        for _ in 0..8 {
            match rand::random_range(0..7) {
                0 => gates.push(Gate::H(Qubit(rand::random_range(0..q)))),
                1 => gates.push(Gate::Phase(Phase(rand::random_range(0..8)), Qubit(rand::random_range(0..q)))),
                2 => gates.push(Gate::X(Qubit(rand::random_range(0..q)))),
                3 => gates.push(Gate::CZ(Qubit(0), Qubit(1))),
                4 => gates.push(Gate::CS(Qubit(1), Qubit(2))),
                5 => gates.push(Gate::SWAP(Qubit(0), Qubit(2))),
                _ => gates.push(Gate::CNOT(Qubit(0), Qubit(2))),
            }
        }
        let c = Circuit { gates };
        let vocab = c.to_minimizer_gates();
        let back = Circuit::from_minimizer_gates(&vocab);
        assert!(postselect_equiv(&c, &back, q, q, q));
    }
    // a Toffoli in the minimizer's output comes back H-conjugated
    let tof = vec![BasicGate::Tof(0, 1, 2)];
    let c = Circuit::from_minimizer_gates(&tof);
    assert_eq!(
        c.gates,
        vec![
            Gate::H(Qubit(2)),
            Gate::CCZ(Qubit(0), Qubit(1), Qubit(2)),
            Gate::H(Qubit(2)),
        ],
    );
}

#[test]
fn phase_arithmetic() {
    assert!(Phase(0).is_clifford());
    assert!(Phase(2).is_clifford());
    assert!(Phase(4).is_clifford());
    assert!(!Phase(1).is_clifford());
    assert!(!Phase(7).is_clifford());
    assert_eq!(Phase(1).neg(), Phase(7));
    assert_eq!(Phase(0).neg(), Phase(0));
    assert_eq!(Phase(5).add(Phase(6)), Phase(3));
    assert_eq!(Phase(2).sub(Phase(7)), Phase(3));
}

#[test]
fn gate_overlap_and_counts() {
    let c = Circuit {
        gates: vec![
            Gate::H(Qubit(0)),
            Gate::CNOT(Qubit(0), Qubit(1)),
            Gate::Phase(Phase(1), Qubit(1)),
            Gate::Phase(Phase(2), Qubit(2)),
            Gate::H(Qubit(2)),
        ],
    };
    assert!(Gate::CNOT(Qubit(0), Qubit(1)).overlaps(Gate::H(Qubit(1))));
    assert!(!Gate::CNOT(Qubit(0), Qubit(1)).overlaps(Gate::H(Qubit(2))));
    assert_eq!(c.qubits(), 3);
    assert_eq!(c.count_hadamards(), 2);
    assert_eq!(c.tcount(), 1);
    // the outer Hadamards are free, so the accurate count is zero
    assert_eq!(c.hcount_accurate(), 0);
}

// A three-qubit T conjugated by CNOTs: the synthesis matrix is the
// 2-by-1 matrix with both rows set, and fallback re-synthesis gives the
// same three-gate CNOT-T-CNOT shape back.
#[test]
fn single_gadget_block_roundtrip() {
    let mut block = Circuit {
        gates: vec![
            Gate::CNOT(Qubit(0), Qubit(1)),
            Gate::Phase(Phase(1), Qubit(1)),
            Gate::CNOT(Qubit(0), Qubit(1)),
        ],
    };
    let original = block.clone();
    let (map, mat, cliff) = block.extract_gadgets();
    assert_eq!(map, vec![0, 1]);
    assert_eq!(mat.rows, 2);
    assert_eq!(mat.cols, vec![vec![true, true]]);

    let (resynth, _, _, nt) = extract::extract_gadgets(&mat, &map, false);
    assert_eq!(nt, 1);
    assert_eq!(
        resynth.gates,
        vec![
            Gate::CNOT(Qubit(1), Qubit(0)),
            Gate::Phase(Phase(1), Qubit(0)),
            Gate::CNOT(Qubit(1), Qubit(0)),
        ]
    );
    assert!(sim_equiv(&resynth, &original, 2));

    // the extracted block plus its Clifford remainder realizes the block
    let mut rebuilt = block;
    rebuilt.merge(cliff);
    assert!(sim_equiv(&rebuilt, &original, 2));
}

// The same circuit with flanking Hadamards partitions with the first
// CNOT peeled into the front block by the greedy rule.
#[test]
fn partition_flanked_t_block() {
    let c = Circuit {
        gates: vec![
            Gate::H(Qubit(0)),
            Gate::CNOT(Qubit(0), Qubit(1)),
            Gate::Phase(Phase(1), Qubit(1)),
            Gate::CNOT(Qubit(0), Qubit(1)),
            Gate::H(Qubit(0)),
        ],
    };
    let p = c.partition();
    assert_eq!(p.front.gates, vec![Gate::H(Qubit(0)), Gate::CNOT(Qubit(0), Qubit(1))]);
    assert_eq!(p.blocks.len(), 1);
    assert_eq!(p.blocks[0].gates, vec![Gate::Phase(Phase(1), Qubit(1))]);
    assert_eq!(p.back.gates, vec![Gate::CNOT(Qubit(0), Qubit(1)), Gate::H(Qubit(0))]);
}

// A CCZ canonicalized into CNOT+T and re-extracted collapses back to a
// single CCZ plus its fixed Clifford correction when gadget matching is
// enabled.
#[test]
fn ccz_roundtrip_collapses() {
    let mut block = Circuit { gates: vec![Gate::CCZ(Qubit(0), Qubit(1), Qubit(2))] };
    let original = block.clone();
    let xs = block.to_cnot_phase();
    assert!(xs.gates.is_empty());
    let (map, mat, cliff) = block.extract_gadgets();
    assert_eq!(map, vec![0, 1, 2]);
    assert_eq!(mat.cols.len(), 7);

    let (resynth, nccz, ncs, nt) = extract::extract_gadgets(&mat, &map, true);
    assert_eq!((nccz, ncs, nt), (1, 0, 0));
    assert_eq!(
        resynth.gates.iter().filter(|g| matches!(g, Gate::CCZ(_, _, _))).count(),
        1
    );

    let mut rebuilt = resynth;
    rebuilt.merge(cliff);
    assert!(sim_equiv(&rebuilt, &original, 3));
}

// Merged groups stay within the ancilla budget; a lone block over budget
// is left alone.
#[test]
fn merge_budget_respected() {
    let h = |q: usize| Gate::H(Qubit(q));
    let blocks = vec![
        Circuit { gates: vec![h(0), h(1)] },
        Circuit { gates: vec![] },
        Circuit { gates: vec![h(2)] },
    ];
    let mut p = PartitionedCircuit {
        front: Circuit { gates: vec![] },
        back: Circuit { gates: vec![] },
        blocks,
    };
    // total cost 3 exceeds the budget of 1, so nothing merges
    assert_eq!(p.pick_gadgets(1, 50), 3);
    assert_eq!(p.blocks.len(), 3);
    // budget 3 allows the single junction to merge completely
    assert_eq!(p.pick_gadgets(3, 50), 1);
    assert_eq!(p.blocks.len(), 1);
    assert!(p.blocks[0].count_hadamards() <= 3);

    // a lone block over any budget is kept, never dropped
    let mut single = PartitionedCircuit {
        front: Circuit { gates: vec![] },
        back: Circuit { gates: vec![] },
        blocks: vec![Circuit { gates: vec![h(0), h(1), h(2)] }],
    };
    assert_eq!(single.pick_gadgets(1, 10), 1);
    assert_eq!(single.blocks[0].count_hadamards(), 3);
}

#[test]
fn signature_tensor_all_ones() {
    let mat = BoolMat { rows: 2, cols: vec![vec![true, true]] };
    let t = extract::find_signature_tensor(&mat);
    for i in 0..2 {
        for j in 0..2 {
            for k in 0..2 {
                assert!(t[i][j][k]);
            }
        }
    }
    let empty = BoolMat { rows: 2, cols: vec![vec![true, false], vec![true, false]] };
    let t2 = extract::find_signature_tensor(&empty);
    // two equal columns cancel mod 2
    for i in 0..2 {
        for j in 0..2 {
            for k in 0..2 {
                assert!(!t2[i][j][k]);
            }
        }
    }
}

#[test]
fn zero_column_detection() {
    let m1 = BoolMat { rows: 2, cols: vec![vec![true, false], vec![false, false]] };
    assert!(extract::has_zero_columns(&m1));
    let m2 = BoolMat { rows: 2, cols: vec![vec![true, false], vec![false, true]] };
    assert!(!extract::has_zero_columns(&m2));
}

// Two decompositions of the same signature tensor differ by the Clifford
// circuit that clifford_correction synthesizes from their phase
// polynomials.
#[test]
fn correction_bridges_decompositions() {
    let a = BoolMat { rows: 2, cols: vec![vec![true, true]] };
    let b = BoolMat {
        rows: 2,
        cols: vec![vec![true, true], vec![true, true], vec![true, true]],
    };
    let map: Vec<usize> = vec![0, 1];
    let ta = extract::find_signature_tensor(&a);
    let tb = extract::find_signature_tensor(&b);
    assert_eq!(ta, tb);

    let (mut circ_a, _, _, _) = extract::extract_gadgets(&a, &map, false);
    let (circ_b, _, _, _) = extract::extract_gadgets(&b, &map, false);
    let corr = extract::clifford_correction(&a, &b, &map);
    for g in &corr.gates {
        assert!(g.is_clifford());
    }
    circ_a.merge(corr);
    assert!(sim_equiv(&circ_a, &circ_b, 2));

    // equal matrices need no correction at all
    let none = extract::clifford_correction(&a, &a, &map);
    assert!(none.gates.is_empty());
}

#[test]
fn gadgetize_hadamards_structure() {
    let mut block = Circuit {
        gates: vec![Gate::H(Qubit(0)), Gate::CNOT(Qubit(0), Qubit(1)), Gate::H(Qubit(1))],
    };
    let mut next_id = 2;
    let mut front = Circuit { gates: vec![] };
    let mut back = Circuit { gates: vec![] };
    block.decomp_hads(&mut next_id, &mut front, &mut back);
    assert_eq!(next_id, 4);
    assert_eq!(
        block.gates,
        vec![
            Gate::SWAP(Qubit(2), Qubit(0)),
            Gate::CZ(Qubit(2), Qubit(0)),
            Gate::CNOT(Qubit(0), Qubit(1)),
            Gate::SWAP(Qubit(3), Qubit(1)),
            Gate::CZ(Qubit(3), Qubit(1)),
        ],
    );
    assert_eq!(front.gates, vec![Gate::H(Qubit(2)), Gate::H(Qubit(3))]);
    assert_eq!(back.gates, vec![Gate::H(Qubit(2)), Gate::H(Qubit(3))]);
    assert_eq!(block.count_hadamards(), 0);
}

// The canonicalization templates, checked exactly on a CZ and an X that
// propagates into a phase flip and a trailing X.
#[test]
fn canonicalize_templates_exactly() {
    let mut c = Circuit {
        gates: vec![
            Gate::X(Qubit(0)),
            Gate::Phase(Phase(1), Qubit(0)),
            Gate::CZ(Qubit(0), Qubit(1)),
        ],
    };
    let original = c.clone();
    let xs = c.to_cnot_phase();
    assert_eq!(
        c.gates,
        vec![
            // the X negates the T and the first template phase behind it
            Gate::Phase(Phase(7), Qubit(0)),
            Gate::Phase(Phase(2), Qubit(0)),
            Gate::Phase(Phase(6), Qubit(1)),
            Gate::CNOT(Qubit(0), Qubit(1)),
            // the CNOT copies the pending X onto the target, negating this phase
            Gate::Phase(Phase(6), Qubit(1)),
            Gate::CNOT(Qubit(0), Qubit(1)),
        ],
    );
    assert_eq!(xs.gates, vec![Gate::X(Qubit(0))]);
    let mut rebuilt = c;
    rebuilt.merge(xs);
    assert!(sim_equiv(&rebuilt, &original, 2));
}
