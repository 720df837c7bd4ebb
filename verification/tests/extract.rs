use tsynth::circuit::{Circuit, Gate, Phase, Qubit};
use tsynth::extract;
use tsynth::matrix::BoolMat;
use rayon::iter::{IntoParallelIterator, ParallelIterator};

// Exact basis-state simulation of an H-free circuit (see tests/decompose.rs).
fn run_basis(c: &Circuit, x: usize) -> (usize, u32) {
    let mut bits = x;
    let mut ph: u32 = 0;
    for g in &c.gates {
        match *g {
            Gate::X(Qubit(q)) => bits ^= 1 << q,
            Gate::CNOT(Qubit(a), Qubit(b)) => {
                if bits >> a & 1 == 1 {
                    bits ^= 1 << b;
                }
            }
            Gate::SWAP(Qubit(a), Qubit(b)) => {
                let ba = bits >> a & 1;
                let bb = bits >> b & 1;
                if ba != bb {
                    bits ^= (1 << a) | (1 << b);
                }
            }
            Gate::Phase(Phase(p), Qubit(q)) => {
                if bits >> q & 1 == 1 {
                    ph = (ph + p as u32) % 8;
                }
            }
            Gate::CZ(Qubit(a), Qubit(b)) => {
                if bits >> a & 1 == 1 && bits >> b & 1 == 1 {
                    ph = (ph + 4) % 8;
                }
            }
            Gate::CS(Qubit(a), Qubit(b)) => {
                if bits >> a & 1 == 1 && bits >> b & 1 == 1 {
                    ph = (ph + 2) % 8;
                }
            }
            Gate::CCZ(Qubit(a), Qubit(b), Qubit(c)) => {
                if bits >> a & 1 == 1 && bits >> b & 1 == 1 && bits >> c & 1 == 1 {
                    ph = (ph + 4) % 8;
                }
            }
            Gate::H(_) => panic!("basis simulation needs an H-free circuit"),
        }
    }
    (bits, ph)
}

fn sim_equiv(c1: &Circuit, c2: &Circuit, n: usize) -> bool {
    let mut offset: Option<u32> = None;
    for x in 0..1usize << n {
        let (y1, p1) = run_basis(c1, x);
        let (y2, p2) = run_basis(c2, x);
        if y1 != y2 {
            return false;
        }
        let d = (p1 + 8 - p2) % 8;
        match offset {
            None => offset = Some(d),
            Some(o) => {
                if o != d {
                    return false;
                }
            }
        }
    }
    true
}

fn random_col(n: usize) -> Vec<bool> {
    (0..n).map(|_| rand::random::<bool>()).collect()
}

fn is_zero(v: &Vec<bool>) -> bool {
    v.iter().all(|&x| !x)
}

fn xor(a: &Vec<bool>, b: &Vec<bool>) -> Vec<bool> {
    a.iter().zip(b).map(|(&x, &y)| x != y).collect()
}

#[test]
fn ccz_gadget_random() {
    let n = 10;
    let k = 5000;
    (0..k).into_par_iter().for_each(|_| {
        let (a, b, c) = loop {
            let a = random_col(n);
            if is_zero(&a) {
                continue;
            }
            let b = random_col(n);
            if a == b || is_zero(&b) {
                continue;
            }
            let c = random_col(n);
            if a == c || b == c || is_zero(&c) || xor(&a, &b) == c {
                continue;
            }
            break (a, b, c);
        };

        let cols = vec![
            a.clone(),
            b.clone(),
            c.clone(),
            xor(&a, &b),
            xor(&a, &c),
            xor(&b, &c),
            xor(&xor(&a, &b), &c),
        ];
        let mat = BoolMat { rows: n, cols };
        let map: Vec<usize> = (0..n).collect();

        let (circ1, nccz, _, _) = extract::extract_gadgets(&mat, &map, true);
        let (circ2, _, _, _) = extract::extract_gadgets(&mat, &map, false);

        assert!(nccz >= 1);
        assert!(sim_equiv(&circ1, &circ2, n));
    });
}

#[test]
fn cs_gadget_random() {
    let n = 10;
    let k = 5000;
    (0..k).into_par_iter().for_each(|_| {
        let (a, b) = loop {
            let a = random_col(n);
            if is_zero(&a) {
                continue;
            }
            let b = random_col(n);
            if a == b || is_zero(&b) {
                continue;
            }
            break (a, b);
        };

        let cols = vec![a.clone(), b.clone(), xor(&a, &b)];
        let mat = BoolMat { rows: n, cols };
        let map: Vec<usize> = (0..n).collect();

        let (circ1, _, _, _) = extract::extract_gadgets(&mat, &map, true);
        let (circ2, _, _, _) = extract::extract_gadgets(&mat, &map, false);

        assert!(sim_equiv(&circ1, &circ2, n));
    });
}
