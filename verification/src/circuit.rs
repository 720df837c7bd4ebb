//! Gates and circuits: the data model.
//!
//! A `Qubit` is an index into a flat register, a `Phase` is a diagonal
//! rotation by a multiple of pi/4 (stored mod 8), a `Gate` is a closed
//! union of the supported elementary gates, and a `Circuit` is an ordered
//! gate sequence.

use vstd::prelude::*;

verus! {

/// Index of a qubit in the flat register.
#[derive(Debug, Copy, Clone, PartialEq, Eq, Structural, PartialOrd, Ord, Hash)]
pub struct Qubit(pub usize);

/// A diagonal rotation by `value * pi/4`; well-formed values lie in [0, 8).
/// The phase is Clifford exactly when the value is even.
#[derive(Debug, Copy, Clone, PartialEq, Eq, Structural)]
pub struct Phase(pub usize);

impl Phase {
    pub open spec fn spec_is_clifford(self) -> bool {
        self.0 % 2 == 0
    }

    /// A phase is Clifford iff it is an even multiple of pi/4.
    pub fn is_clifford(self) -> (r: bool)
        ensures
            r == self.spec_is_clifford(),
    {
        self.0 % 2 == 0
    }

    /// Negation mod 8: `k` maps to `(8 - k) % 8`.
    pub fn neg(self) -> (r: Phase)
        requires
            self.0 < 8,
        ensures
            r.0 == (8 - self.0) % 8,
            r.0 < 8,
    {
        Phase((8 - self.0) % 8)
    }

    /// Addition mod 8.
    pub fn add(self, rhs: Phase) -> (r: Phase)
        requires
            self.0 < 8,
            rhs.0 < 8,
        ensures
            r.0 == (self.0 + rhs.0) % 8,
            r.0 < 8,
    {
        Phase((self.0 + rhs.0) % 8)
    }

    /// Subtraction mod 8.
    pub fn sub(self, rhs: Phase) -> (r: Phase)
        requires
            self.0 < 8,
            rhs.0 < 8,
        ensures
            r.0 == (self.0 + 8 - rhs.0) % 8,
            r.0 < 8,
    {
        Phase((self.0 + 8 - rhs.0) % 8)
    }
}

/// One elementary gate.  Two-qubit gates list control first where the
/// distinction matters (CNOT); the diagonal gates are symmetric.
#[derive(Debug, Copy, Clone, PartialEq, Eq, Structural)]
pub enum Gate {
    X(Qubit),
    CNOT(Qubit, Qubit),
    Phase(Phase, Qubit),
    CZ(Qubit, Qubit),
    CCZ(Qubit, Qubit, Qubit),
    CS(Qubit, Qubit),
    SWAP(Qubit, Qubit),
    H(Qubit),
}

impl Gate {
    pub open spec fn spec_is_clifford(self) -> bool {
        match self {
            Gate::X(_) => true,
            Gate::CNOT(_, _) => true,
            Gate::Phase(p, _) => p.spec_is_clifford(),
            Gate::CZ(_, _) => true,
            Gate::CS(_, _) => false,
            Gate::CCZ(_, _, _) => false,
            Gate::SWAP(_, _) => true,
            Gate::H(_) => true,
        }
    }

    /// X, CNOT, CZ, SWAP and H are always Clifford; a phase gate is
    /// Clifford iff its phase is even; CS and CCZ never are.
    pub fn is_clifford(self) -> (r: bool)
        ensures
            r == self.spec_is_clifford(),
    {
        match self {
            Gate::X(_) => true,
            Gate::CNOT(_, _) => true,
            Gate::Phase(p, _) => p.is_clifford(),
            Gate::CZ(_, _) => true,
            Gate::CS(_, _) => false,
            Gate::CCZ(_, _, _) => false,
            Gate::SWAP(_, _) => true,
            Gate::H(_) => true,
        }
    }

    /// The ordered (possibly repeated) triple of qubits this gate touches.
    pub open spec fn spec_qubits(self) -> Seq<Qubit> {
        match self {
            Gate::X(q) => seq![q, q, q],
            Gate::CNOT(q1, q2) => seq![q1, q2, q2],
            Gate::Phase(_, q) => seq![q, q, q],
            Gate::CZ(q1, q2) => seq![q1, q2, q2],
            Gate::CS(q1, q2) => seq![q1, q2, q2],
            Gate::CCZ(q1, q2, q3) => seq![q1, q2, q3],
            Gate::SWAP(q1, q2) => seq![q1, q2, q2],
            Gate::H(q) => seq![q, q, q],
        }
    }

    /// Whether this gate acts on qubit `q`.
    pub open spec fn touches(self, q: Qubit) -> bool {
        self.spec_qubits()[0] == q || self.spec_qubits()[1] == q || self.spec_qubits()[2] == q
    }

    /// The qubits that this gate overlaps with, may contain duplicates.
    pub fn qubits(self) -> (r: [Qubit; 3])
        ensures
            r@ == self.spec_qubits(),
    {
        match self {
            Gate::X(q) => [q, q, q],
            Gate::CNOT(q1, q2) => [q1, q2, q2],
            Gate::Phase(_, q) => [q, q, q],
            Gate::CZ(q1, q2) => [q1, q2, q2],
            Gate::CS(q1, q2) => [q1, q2, q2],
            Gate::CCZ(q1, q2, q3) => [q1, q2, q3],
            Gate::SWAP(q1, q2) => [q1, q2, q2],
            Gate::H(q) => [q, q, q],
        }
    }

    pub open spec fn spec_overlaps(self, other: Gate) -> bool {
        exists|q: Qubit| self.touches(q) && other.touches(q)
    }

    /// Whether the two gates share any qubit.
    pub fn overlaps(self, other: Gate) -> (r: bool)
        ensures
            r == self.spec_overlaps(other),
    {
        let q1 = self.qubits();
        let q2 = other.qubits();
        let r = q1[0] == q2[0] || q1[0] == q2[1] || q1[0] == q2[2] || q1[1] == q2[0] || q1[1]
            == q2[1] || q1[1] == q2[2] || q1[2] == q2[0] || q1[2] == q2[1] || q1[2] == q2[2];
        proof {
            if r {
                assert(self.spec_overlaps(other)) by {
                    if q1@[0] == q2@[0] || q1@[0] == q2@[1] || q1@[0] == q2@[2] {
                        assert(self.touches(q1@[0]) && other.touches(q1@[0]));
                    } else if q1@[1] == q2@[0] || q1@[1] == q2@[1] || q1@[1] == q2@[2] {
                        assert(self.touches(q1@[1]) && other.touches(q1@[1]));
                    } else {
                        assert(self.touches(q1@[2]) && other.touches(q1@[2]));
                    }
                }
            } else {
                assert forall|q: Qubit| !(self.touches(q) && other.touches(q)) by {}
            }
        }
        r
    }

    /// Replace every qubit of this gate by its image under `f`.
    pub fn map_qubits<F: Fn(Qubit) -> Qubit>(&mut self, f: F)
        requires
            forall|q: Qubit| #[trigger] f.requires((q,)),
        ensures
            gate_mapped(*old(self), *final(self), f),
    {
        match self {
            Gate::X(q) => {
                *q = f(*q);
            },
            Gate::CNOT(q1, q2) => {
                *q1 = f(*q1);
                *q2 = f(*q2);
            },
            Gate::Phase(_, q) => {
                *q = f(*q);
            },
            Gate::CZ(q1, q2) => {
                *q1 = f(*q1);
                *q2 = f(*q2);
            },
            Gate::CS(q1, q2) => {
                *q1 = f(*q1);
                *q2 = f(*q2);
            },
            Gate::CCZ(q1, q2, q3) => {
                *q1 = f(*q1);
                *q2 = f(*q2);
                *q3 = f(*q3);
            },
            Gate::SWAP(q1, q2) => {
                *q1 = f(*q1);
                *q2 = f(*q2);
            },
            Gate::H(q) => {
                *q = f(*q);
            },
        }
    }
}

/// The second gate is the first with every qubit replaced by an image of
/// that qubit under `f`, and the same variant and phase otherwise.
pub open spec fn gate_mapped<F: Fn(Qubit) -> Qubit>(g1: Gate, g2: Gate, f: F) -> bool {
    match (g1, g2) {
        (Gate::X(a), Gate::X(a2)) => f.ensures((a,), a2),
        (Gate::CNOT(a, b), Gate::CNOT(a2, b2)) => f.ensures((a,), a2) && f.ensures((b,), b2),
        (Gate::Phase(p, a), Gate::Phase(p2, a2)) => p == p2 && f.ensures((a,), a2),
        (Gate::CZ(a, b), Gate::CZ(a2, b2)) => f.ensures((a,), a2) && f.ensures((b,), b2),
        (Gate::CCZ(a, b, c), Gate::CCZ(a2, b2, c2)) => f.ensures((a,), a2) && f.ensures(
            (b,),
            b2,
        ) && f.ensures((c,), c2),
        (Gate::CS(a, b), Gate::CS(a2, b2)) => f.ensures((a,), a2) && f.ensures((b,), b2),
        (Gate::SWAP(a, b), Gate::SWAP(a2, b2)) => f.ensures((a,), a2) && f.ensures((b,), b2),
        (Gate::H(a), Gate::H(a2)) => f.ensures((a,), a2),
        _ => false,
    }
}

/// Well-formed gates carry a phase value below 8 and qubit indices that
/// leave room for the `+ 1` in the register-size computation.
pub open spec fn gate_wf(g: Gate) -> bool {
    &&& match g {
        Gate::Phase(p, _) => p.0 < 8,
        _ => true,
    }
    &&& forall|q: Qubit| #[trigger] g.touches(q) ==> q.0 < usize::MAX
}

pub open spec fn gates_wf(s: Seq<Gate>) -> bool {
    forall|i: int| 0 <= i < s.len() ==> gate_wf(#[trigger] s[i])
}

/// The smallest register size containing every qubit a gate touches.
pub open spec fn gate_span(g: Gate) -> nat {
    max3(
        g.spec_qubits()[0].0 as nat + 1,
        g.spec_qubits()[1].0 as nat + 1,
        g.spec_qubits()[2].0 as nat + 1,
    )
}

pub open spec fn max3(a: nat, b: nat, c: nat) -> nat {
    if a >= b && a >= c {
        a
    } else if b >= c {
        b
    } else {
        c
    }
}

/// The register size of a gate sequence: one more than the largest index
/// touched, or zero for the empty sequence.
pub open spec fn seq_qubits(s: Seq<Gate>) -> nat
    decreases s.len(),
{
    if s.len() == 0 {
        0
    } else {
        let rest = seq_qubits(s.drop_last());
        if rest >= gate_span(s.last()) {
            rest
        } else {
            gate_span(s.last())
        }
    }
}

/// Every gate of the sequence is Clifford.
pub open spec fn all_clifford(s: Seq<Gate>) -> bool {
    forall|i: int| 0 <= i < s.len() ==> (#[trigger] s[i]).spec_is_clifford()
}

/// No gate of the sequence is a Hadamard.
pub open spec fn no_h(s: Seq<Gate>) -> bool {
    forall|i: int| 0 <= i < s.len() ==> !((#[trigger] s[i]) is H)
}

/// Every gate of the sequence is a CNOT or a phase gate.
pub open spec fn cnot_phase_only(s: Seq<Gate>) -> bool {
    forall|i: int| 0 <= i < s.len() ==> ((#[trigger] s[i]) is CNOT || s[i] is Phase)
}

/// The number of Hadamard gates in the sequence.
pub open spec fn count_h(s: Seq<Gate>) -> nat
    decreases s.len(),
{
    if s.len() == 0 {
        0
    } else {
        count_h(s.drop_last()) + if s.last() is H {
            1nat
        } else {
            0nat
        }
    }
}

/// The number of non-Clifford phase gates (T-like gates) in the sequence.
pub open spec fn count_t(s: Seq<Gate>) -> nat
    decreases s.len(),
{
    if s.len() == 0 {
        0
    } else {
        count_t(s.drop_last()) + match s.last() {
            Gate::Phase(p, _) => if !p.spec_is_clifford() {
                1nat
            } else {
                0nat
            },
            _ => 0nat,
        }
    }
}

/// Every gate of a sequence fits inside its register size.
pub proof fn lemma_seq_qubits_bound(s: Seq<Gate>, i: int)
    requires
        0 <= i < s.len(),
    ensures
        gate_span(s[i]) <= seq_qubits(s),
    decreases s.len(),
{
    if i == s.len() - 1 {
    } else {
        lemma_seq_qubits_bound(s.drop_last(), i);
        assert(s.drop_last()[i] == s[i]);
    }
}

/// An ordered sequence of gates; the only mutable entity of the model.
#[derive(Debug, Clone)]
pub struct Circuit {
    pub gates: Vec<Gate>,
}

impl Circuit {
    pub open spec fn wf(self) -> bool {
        gates_wf(self.gates@)
    }

    /// A fresh, empty circuit.
    pub fn empty() -> (c: Circuit)
        ensures
            c.gates@ == Seq::<Gate>::empty(),
            c.wf(),
    {
        Circuit { gates: Vec::new() }
    }

    /// The number of qubits the circuit touches: zero when empty, else
    /// one more than the largest index used.
    pub fn qubits(&self) -> (n: usize)
        requires
            self.wf(),
        ensures
            n == seq_qubits(self.gates@),
    {
        let mut n: usize = 0;
        let mut i: usize = 0;
        while i < self.gates.len()
            invariant
                0 <= i <= self.gates@.len(),
                self.wf(),
                n == seq_qubits(self.gates@.subrange(0, i as int)),
            decreases self.gates@.len() - i,
        {
            let q = self.gates[i].qubits();
            proof {
                assert(gate_wf(self.gates@[i as int]));
                assert(self.gates@[i as int].touches(self.gates@[i as int].spec_qubits()[0]));
                assert(self.gates@[i as int].touches(self.gates@[i as int].spec_qubits()[1]));
                assert(self.gates@[i as int].touches(self.gates@[i as int].spec_qubits()[2]));
            }
            if q[0].0 + 1 > n {
                n = q[0].0 + 1;
            }
            if q[1].0 + 1 > n {
                n = q[1].0 + 1;
            }
            if q[2].0 + 1 > n {
                n = q[2].0 + 1;
            }
            proof {
                let pre = self.gates@.subrange(0, i as int);
                let cur = self.gates@.subrange(0, i + 1);
                assert(cur.drop_last() =~= pre);
                assert(cur.last() == self.gates@[i as int]);
            }
            i = i + 1;
        }
        proof {
            assert(self.gates@.subrange(0, self.gates@.len() as int) =~= self.gates@);
        }
        n
    }

    /// Append another circuit's gates after this one.
    pub fn merge(&mut self, other: Circuit)
        ensures
            final(self).gates@ == old(self).gates@ + other.gates@,
    {
        let mut rest = other;
        let mut i: usize = 0;
        while i < rest.gates.len()
            invariant
                0 <= i <= rest.gates@.len(),
                rest.gates@ == other.gates@,
                self.gates@ == old(self).gates@ + other.gates@.subrange(0, i as int),
            decreases rest.gates@.len() - i,
        {
            self.gates.push(rest.gates[i]);
            proof {
                assert(old(self).gates@ + other.gates@.subrange(0, i + 1) =~= (old(self).gates@
                    + other.gates@.subrange(0, i as int)).push(other.gates@[i as int]));
            }
            i = i + 1;
        }
        proof {
            assert(other.gates@.subrange(0, other.gates@.len() as int) =~= other.gates@);
        }
    }
}

} // verus!
