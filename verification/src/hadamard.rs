//! Hadamard counting and ancilla gadgetization.
//!
//! An interior H on qubit `q` is replaced by `SWAP(n, q); CZ(n, q)` on a
//! fresh ancilla `n`, with one `H(n)` added to the global front and back
//! Clifford blocks; the ancilla is prepared and post-selected in the plus
//! state, which the flanking Hadamards model since it is used once.

use vstd::prelude::*;
use crate::circuit::{
    Gate, Circuit, Qubit, Phase, all_clifford, no_h, count_h, count_t, gates_wf, gate_wf,
};
use crate::equiv::circuit_equiv;
use crate::decompose::{Pull, eligible_front, eligible_back};

verus! {

/// The number of trailing positions that keep the H count unchanged.
pub proof fn lemma_count_h_prefix(s: Seq<Gate>, i: int)
    requires
        0 <= i <= s.len(),
    ensures
        count_h(s.subrange(0, i)) <= count_h(s),
    decreases s.len(),
{
    if i == s.len() {
        assert(s.subrange(0, i) =~= s);
    } else {
        assert(s.drop_last().subrange(0, i) =~= s.subrange(0, i));
        lemma_count_h_prefix(s.drop_last(), i);
    }
}

/// The H-gadgetized form of a gate sequence, allocating ancillas from
/// `id` upward, one per H in order of occurrence.
pub open spec fn gadgetize_gates(s: Seq<Gate>, id: nat) -> Seq<Gate>
    decreases s.len(),
{
    if s.len() == 0 {
        Seq::empty()
    } else {
        match s.first() {
            Gate::H(q) => seq![
                Gate::SWAP(Qubit(id as usize), q),
                Gate::CZ(Qubit(id as usize), q),
            ] + gadgetize_gates(s.drop_first(), id + 1),
            g => seq![g] + gadgetize_gates(s.drop_first(), id),
        }
    }
}

/// The flanking Hadamards for ancillas `id .. id + k`, in order.
pub open spec fn h_range(id: nat, k: nat) -> Seq<Gate>
    decreases k,
{
    if k == 0 {
        Seq::empty()
    } else {
        h_range(id, (k - 1) as nat) + seq![Gate::H(Qubit((id + k - 1) as usize))]
    }
}

pub proof fn lemma_gadgetize_no_h(s: Seq<Gate>, id: nat)
    ensures
        no_h(gadgetize_gates(s, id)),
    decreases s.len(),
{
    if s.len() == 0 {
    } else {
        match s.first() {
            Gate::H(q) => {
                lemma_gadgetize_no_h(s.drop_first(), id + 1);
            },
            g => {
                lemma_gadgetize_no_h(s.drop_first(), id);
            },
        }
    }
}

impl Circuit {
    /// Count all hadamards in the circuit (even non-obstructed).
    pub fn count_hadamards(&self) -> (r: usize)
        ensures
            r == count_h(self.gates@),
    {
        let mut r: usize = 0;
        let mut i: usize = 0;
        proof {
            assert(self.gates@.subrange(0, 0) =~= Seq::<Gate>::empty());
        }
        while i < self.gates.len()
            invariant
                0 <= i <= self.gates@.len(),
                r == count_h(self.gates@.subrange(0, i as int)),
                r <= i,
            decreases self.gates@.len() - i,
        {
            proof {
                assert(self.gates@.subrange(0, i + 1).drop_last() =~= self.gates@.subrange(
                    0,
                    i as int,
                ));
                assert(self.gates@.subrange(0, i + 1).last() == self.gates@[i as int]);
            }
            if matches!(self.gates[i], Gate::H(_)) {
                r = r + 1;
            }
            i = i + 1;
        }
        proof {
            assert(self.gates@.subrange(0, self.gates@.len() as int) =~= self.gates@);
        }
        r
    }

    /// Count the number of T gates required to implement this circuit
    /// (the number of non-Clifford phase gates).
    pub fn tcount(&self) -> (r: usize)
        ensures
            r == count_t(self.gates@),
    {
        let mut r: usize = 0;
        let mut i: usize = 0;
        proof {
            assert(self.gates@.subrange(0, 0) =~= Seq::<Gate>::empty());
        }
        while i < self.gates.len()
            invariant
                0 <= i <= self.gates@.len(),
                r == count_t(self.gates@.subrange(0, i as int)),
                r <= i,
            decreases self.gates@.len() - i,
        {
            proof {
                assert(self.gates@.subrange(0, i + 1).drop_last() =~= self.gates@.subrange(
                    0,
                    i as int,
                ));
                assert(self.gates@.subrange(0, i + 1).last() == self.gates@[i as int]);
            }
            match self.gates[i] {
                Gate::Phase(p, _) => {
                    if !p.is_clifford() {
                        r = r + 1;
                    }
                },
                _ => {},
            }
            i = i + 1;
        }
        proof {
            assert(self.gates@.subrange(0, self.gates@.len() as int) =~= self.gates@);
        }
        r
    }

    /// The number of Hadamards that remain once the free Clifford gates
    /// at both ends of the circuit have been peeled off: the H count of
    /// the middle of a Clifford-flanked, exchange-equivalent split whose
    /// middle is a fixpoint of the greedy extraction rule.
    pub fn hcount_accurate(&self) -> (r: usize)
        requires
            self.wf(),
        ensures
            exists|f: Seq<Gate>, m: Seq<Gate>, b: Seq<Gate>|
                all_clifford(f) && all_clifford(b) && circuit_equiv(self.gates@, f + m + b) && (
                forall|i: int| !eligible_front(m, i, Pull::Clifford)) && (forall|i: int|
                    !eligible_back(m, i, Pull::Clifford)) && r == count_h(m),
    {
        let mut copy = Circuit::empty();
        crate::decompose::append_gates(&mut copy.gates, &self.gates);
        let (front, back) = copy.extract_cliffords();
        let r = copy.count_hadamards();
        proof {
            assert(all_clifford(front.gates@) && all_clifford(back.gates@) && circuit_equiv(
                self.gates@,
                front.gates@ + copy.gates@ + back.gates@,
            ) && (forall|i: int| !eligible_front(copy.gates@, i, Pull::Clifford)) && (forall|
                i: int,
            |
                !eligible_back(copy.gates@, i, Pull::Clifford)) && r == count_h(copy.gates@));
        }
        r
    }

    /// Decompose all hadamards in this block into ancilla gadgets.
    ///
    /// Each H, in order, becomes `SWAP(n, q); CZ(n, q)` on the next fresh
    /// ancilla `n`, and `H(n)` is appended to the front and back blocks.
    pub fn decomp_hads(&mut self, next_id: &mut usize, front: &mut Circuit, back: &mut Circuit)
        requires
            old(self).wf(),
            *old(next_id) + count_h(old(self).gates@) <= usize::MAX,
        ensures
            final(self).wf(),
            final(self).gates@ == gadgetize_gates(old(self).gates@, *old(next_id) as nat),
            no_h(final(self).gates@),
            *final(next_id) == *old(next_id) + count_h(old(self).gates@),
            final(front).gates@ == old(front).gates@ + h_range(
                *old(next_id) as nat,
                count_h(old(self).gates@),
            ),
            final(back).gates@ == old(back).gates@ + h_range(
                *old(next_id) as nat,
                count_h(old(self).gates@),
            ),
            old(front).wf() ==> final(front).wf(),
            old(back).wf() ==> final(back).wf(),
            all_clifford(old(front).gates@) ==> all_clifford(final(front).gates@),
            all_clifford(old(back).gates@) ==> all_clifford(final(back).gates@),
    {
        let ghost orig = self.gates@;
        let ghost id0 = *next_id as nat;
        let mut out: Vec<Gate> = Vec::new();
        let mut i: usize = 0;
        proof {
            assert(orig.subrange(0, 0) =~= Seq::<Gate>::empty());
            assert(orig.skip(0) =~= orig);
            assert(out@ + gadgetize_gates(orig.skip(0), id0) =~= gadgetize_gates(orig, id0));
            assert(front.gates@ + h_range(id0, 0) =~= front.gates@);
            assert(back.gates@ + h_range(id0, 0) =~= back.gates@);
        }
        while i < self.gates.len()
            invariant
                0 <= i <= orig.len(),
                self.gates@ == orig,
                gates_wf(orig),
                *next_id == id0 + count_h(orig.subrange(0, i as int)),
                id0 + count_h(orig) <= usize::MAX,
                gates_wf(out@),
                no_h(out@),
                gadgetize_gates(orig, id0) == out@ + gadgetize_gates(
                    orig.skip(i as int),
                    *next_id as nat,
                ),
                front.gates@ == old(front).gates@ + h_range(
                    id0,
                    count_h(orig.subrange(0, i as int)),
                ),
                back.gates@ == old(back).gates@ + h_range(
                    id0,
                    count_h(orig.subrange(0, i as int)),
                ),
                gates_wf(front.gates@) || !gates_wf(old(front).gates@),
                gates_wf(back.gates@) || !gates_wf(old(back).gates@),
                all_clifford(front.gates@) || !all_clifford(old(front).gates@),
                all_clifford(back.gates@) || !all_clifford(old(back).gates@),
            decreases orig.len() - i,
        {
            let g = self.gates[i];
            let ghost c_pre = count_h(orig.subrange(0, i as int));
            proof {
                assert(gate_wf(orig[i as int]));
                assert(orig.subrange(0, i + 1).drop_last() =~= orig.subrange(0, i as int));
                assert(orig.subrange(0, i + 1).last() == orig[i as int]);
                lemma_count_h_prefix(orig, i + 1);
                assert(orig.skip(i as int).first() == orig[i as int]);
                assert(orig.skip(i as int).drop_first() =~= orig.skip(i + 1));
            }
            match g {
                Gate::H(q) => {
                    let n = Qubit(*next_id);
                    proof {
                        assert(g.touches(q));
                        assert(Gate::SWAP(n, q).touches(n) && Gate::SWAP(n, q).touches(q));
                        assert(forall|qq: Qubit|
                            #[trigger] Gate::SWAP(n, q).touches(qq) ==> qq == n || qq == q);
                        assert(Gate::CZ(n, q).touches(n) && Gate::CZ(n, q).touches(q));
                        assert(forall|qq: Qubit|
                            #[trigger] Gate::CZ(n, q).touches(qq) ==> qq == n || qq == q);
                        assert(Gate::H(n).touches(n));
                        assert(forall|qq: Qubit| #[trigger] Gate::H(n).touches(qq) ==> qq == n);
                    }
                    out.push(Gate::SWAP(n, q));
                    out.push(Gate::CZ(n, q));
                    front.gates.push(Gate::H(n));
                    back.gates.push(Gate::H(n));
                    *next_id = *next_id + 1;
                    proof {
                        assert(front.gates@ =~= old(front).gates@ + h_range(id0, (c_pre + 1) as nat));
                        assert(back.gates@ =~= old(back).gates@ + h_range(id0, (c_pre + 1) as nat));
                        assert(gadgetize_gates(orig.skip(i as int), (id0 + c_pre) as nat)
                            == seq![Gate::SWAP(n, q), Gate::CZ(n, q)] + gadgetize_gates(
                            orig.skip(i + 1),
                            (id0 + c_pre + 1) as nat,
                        ));
                        assert(out@ + gadgetize_gates(orig.skip(i + 1), *next_id as nat)
                            =~= out@.drop_last().drop_last() + (seq![
                            Gate::SWAP(n, q),
                            Gate::CZ(n, q),
                        ] + gadgetize_gates(orig.skip(i + 1), *next_id as nat)));
                    }
                },
                _ => {
                    out.push(g);
                    proof {
                        assert(gadgetize_gates(orig.skip(i as int), *next_id as nat) == seq![g]
                            + gadgetize_gates(orig.skip(i + 1), *next_id as nat));
                        assert(out@ + gadgetize_gates(orig.skip(i + 1), *next_id as nat)
                            =~= out@.drop_last() + (seq![g] + gadgetize_gates(
                            orig.skip(i + 1),
                            *next_id as nat,
                        )));
                    }
                },
            }
            i = i + 1;
        }
        proof {
            assert(orig.subrange(0, orig.len() as int) =~= orig);
            assert(orig.skip(orig.len() as int) =~= Seq::<Gate>::empty());
            assert(out@ + gadgetize_gates(orig.skip(orig.len() as int), *next_id as nat) =~= out@);
        }
        self.gates = out;
    }
}

/// A gate of the small fixed vocabulary that the external
/// Hadamard-count minimizer works on.  The minimizer itself is consumed
/// as a black box; the core owns the translation in and out, with the
/// fixed constant-gate expansions for CZ, CS and SWAP.
#[derive(Debug, Copy, Clone, PartialEq, Eq, Structural)]
pub enum BasicGate {
    Z(usize),
    S(usize),
    T(usize),
    H(usize),
    X(usize),
    CX(usize, usize),
    CCZ(usize, usize, usize),
    Tof(usize, usize, usize),
}

/// The fixed expansion of one gate into the minimizer's vocabulary.
pub open spec fn minimizer_expansion(g: Gate) -> Seq<BasicGate> {
    match g {
        Gate::X(q) => seq![BasicGate::X(q.0)],
        Gate::CNOT(a, b) => seq![BasicGate::CX(a.0, b.0)],
        Gate::H(q) => seq![BasicGate::H(q.0)],
        Gate::CCZ(a, b, c) => seq![BasicGate::CCZ(a.0, b.0, c.0)],
        Gate::Phase(p, q) => phase_expansion(p, q),
        Gate::CZ(a, b) => seq![
            BasicGate::S(a.0),
            BasicGate::S(b.0),
            BasicGate::CX(a.0, b.0),
            BasicGate::Z(b.0),
            BasicGate::S(b.0),
            BasicGate::CX(a.0, b.0),
        ],
        Gate::CS(a, b) => seq![
            BasicGate::T(a.0),
            BasicGate::T(b.0),
            BasicGate::CX(a.0, b.0),
            BasicGate::Z(b.0),
            BasicGate::S(b.0),
            BasicGate::T(b.0),
            BasicGate::CX(a.0, b.0),
        ],
        Gate::SWAP(a, b) => seq![
            BasicGate::CX(a.0, b.0),
            BasicGate::CX(b.0, a.0),
            BasicGate::CX(a.0, b.0),
        ],
    }
}

pub open spec fn phase_expansion(p: Phase, q: Qubit) -> Seq<BasicGate> {
    if p.0 == 0 {
        Seq::empty()
    } else if p.0 == 1 {
        seq![BasicGate::T(q.0)]
    } else if p.0 == 2 {
        seq![BasicGate::S(q.0)]
    } else if p.0 == 3 {
        seq![BasicGate::S(q.0), BasicGate::T(q.0)]
    } else if p.0 == 4 {
        seq![BasicGate::Z(q.0)]
    } else if p.0 == 5 {
        seq![BasicGate::Z(q.0), BasicGate::T(q.0)]
    } else if p.0 == 6 {
        seq![BasicGate::Z(q.0), BasicGate::S(q.0)]
    } else {
        seq![BasicGate::Z(q.0), BasicGate::S(q.0), BasicGate::T(q.0)]
    }
}

pub open spec fn minimizer_gates(s: Seq<Gate>) -> Seq<BasicGate>
    decreases s.len(),
{
    if s.len() == 0 {
        Seq::empty()
    } else {
        minimizer_gates(s.drop_last()) + minimizer_expansion(s.last())
    }
}

/// What each vocabulary entry stands for; a Toffoli comes back as a
/// Hadamard-conjugated CCZ.
pub open spec fn basic_to_gates(b: BasicGate) -> Seq<Gate> {
    match b {
        BasicGate::Z(q) => seq![Gate::Phase(Phase(4), Qubit(q))],
        BasicGate::S(q) => seq![Gate::Phase(Phase(2), Qubit(q))],
        BasicGate::T(q) => seq![Gate::Phase(Phase(1), Qubit(q))],
        BasicGate::H(q) => seq![Gate::H(Qubit(q))],
        BasicGate::X(q) => seq![Gate::X(Qubit(q))],
        BasicGate::CX(a, b) => seq![Gate::CNOT(Qubit(a), Qubit(b))],
        BasicGate::CCZ(a, b, c) => seq![Gate::CCZ(Qubit(a), Qubit(b), Qubit(c))],
        BasicGate::Tof(a, b, c) => seq![
            Gate::H(Qubit(c)),
            Gate::CCZ(Qubit(a), Qubit(b), Qubit(c)),
            Gate::H(Qubit(c)),
        ],
    }
}

pub open spec fn gates_from_basic(s: Seq<BasicGate>) -> Seq<Gate>
    decreases s.len(),
{
    if s.len() == 0 {
        Seq::empty()
    } else {
        gates_from_basic(s.drop_last()) + basic_to_gates(s.last())
    }
}

impl Circuit {
    /// Render the circuit in the minimizer's vocabulary.
    pub fn to_minimizer_gates(&self) -> (r: Vec<BasicGate>)
        requires
            self.wf(),
        ensures
            r@ == minimizer_gates(self.gates@),
    {
        let mut out: Vec<BasicGate> = Vec::new();
        let mut i: usize = 0;
        proof {
            assert(out@ =~= minimizer_gates(self.gates@.subrange(0, 0)));
        }
        while i < self.gates.len()
            invariant
                0 <= i <= self.gates@.len(),
                self.wf(),
                out@ == minimizer_gates(self.gates@.subrange(0, i as int)),
            decreases self.gates@.len() - i,
        {
            let g = self.gates[i];
            proof {
                assert(gate_wf(self.gates@[i as int]));
            }
            match g {
                Gate::X(q) => out.push(BasicGate::X(q.0)),
                Gate::CNOT(a, b) => out.push(BasicGate::CX(a.0, b.0)),
                Gate::H(q) => out.push(BasicGate::H(q.0)),
                Gate::CCZ(a, b, c) => out.push(BasicGate::CCZ(a.0, b.0, c.0)),
                Gate::Phase(p, q) => {
                    if p.0 == 1 {
                        out.push(BasicGate::T(q.0));
                    } else if p.0 == 2 {
                        out.push(BasicGate::S(q.0));
                    } else if p.0 == 3 {
                        out.push(BasicGate::S(q.0));
                        out.push(BasicGate::T(q.0));
                    } else if p.0 == 4 {
                        out.push(BasicGate::Z(q.0));
                    } else if p.0 == 5 {
                        out.push(BasicGate::Z(q.0));
                        out.push(BasicGate::T(q.0));
                    } else if p.0 == 6 {
                        out.push(BasicGate::Z(q.0));
                        out.push(BasicGate::S(q.0));
                    } else if p.0 == 7 {
                        out.push(BasicGate::Z(q.0));
                        out.push(BasicGate::S(q.0));
                        out.push(BasicGate::T(q.0));
                    }
                },
                Gate::CZ(a, b) => {
                    out.push(BasicGate::S(a.0));
                    out.push(BasicGate::S(b.0));
                    out.push(BasicGate::CX(a.0, b.0));
                    out.push(BasicGate::Z(b.0));
                    out.push(BasicGate::S(b.0));
                    out.push(BasicGate::CX(a.0, b.0));
                },
                Gate::CS(a, b) => {
                    out.push(BasicGate::T(a.0));
                    out.push(BasicGate::T(b.0));
                    out.push(BasicGate::CX(a.0, b.0));
                    out.push(BasicGate::Z(b.0));
                    out.push(BasicGate::S(b.0));
                    out.push(BasicGate::T(b.0));
                    out.push(BasicGate::CX(a.0, b.0));
                },
                Gate::SWAP(a, b) => {
                    out.push(BasicGate::CX(a.0, b.0));
                    out.push(BasicGate::CX(b.0, a.0));
                    out.push(BasicGate::CX(a.0, b.0));
                },
            }
            proof {
                assert(self.gates@.subrange(0, i + 1).drop_last() =~= self.gates@.subrange(
                    0,
                    i as int,
                ));
                assert(self.gates@.subrange(0, i + 1).last() == self.gates@[i as int]);
                assert(out@ =~= minimizer_gates(self.gates@.subrange(0, i as int))
                    + minimizer_expansion(self.gates@[i as int]));
            }
            i = i + 1;
        }
        proof {
            assert(self.gates@.subrange(0, self.gates@.len() as int) =~= self.gates@);
        }
        out
    }

    /// Read a circuit back from the minimizer's vocabulary.
    pub fn from_minimizer_gates(basic: &Vec<BasicGate>) -> (c: Circuit)
        requires
            forall|i: int|
                0 <= i < basic@.len() ==> basic_gate_fits(#[trigger] basic@[i]),
        ensures
            c.gates@ == gates_from_basic(basic@),
            c.wf(),
    {
        let mut out: Vec<Gate> = Vec::new();
        let mut i: usize = 0;
        proof {
            assert(out@ =~= gates_from_basic(basic@.subrange(0, 0)));
        }
        while i < basic.len()
            invariant
                0 <= i <= basic@.len(),
                forall|j: int|
                    0 <= j < basic@.len() ==> basic_gate_fits(#[trigger] basic@[j]),
                out@ == gates_from_basic(basic@.subrange(0, i as int)),
                gates_wf(out@),
            decreases basic@.len() - i,
        {
            let b = basic[i];
            proof {
                assert(basic_gate_fits(basic@[i as int]));
            }
            match b {
                BasicGate::Z(q) => {
                    out.push(Gate::Phase(Phase(4), Qubit(q)));
                    proof {
                        lemma_one_qubit_touch(Gate::Phase(Phase(4), Qubit(q)), Qubit(q));
                    }
                },
                BasicGate::S(q) => {
                    out.push(Gate::Phase(Phase(2), Qubit(q)));
                    proof {
                        lemma_one_qubit_touch(Gate::Phase(Phase(2), Qubit(q)), Qubit(q));
                    }
                },
                BasicGate::T(q) => {
                    out.push(Gate::Phase(Phase(1), Qubit(q)));
                    proof {
                        lemma_one_qubit_touch(Gate::Phase(Phase(1), Qubit(q)), Qubit(q));
                    }
                },
                BasicGate::H(q) => {
                    out.push(Gate::H(Qubit(q)));
                    proof {
                        lemma_one_qubit_touch(Gate::H(Qubit(q)), Qubit(q));
                    }
                },
                BasicGate::X(q) => {
                    out.push(Gate::X(Qubit(q)));
                    proof {
                        lemma_one_qubit_touch(Gate::X(Qubit(q)), Qubit(q));
                    }
                },
                BasicGate::CX(a, b) => {
                    out.push(Gate::CNOT(Qubit(a), Qubit(b)));
                    proof {
                        lemma_two_qubit_touch(Gate::CNOT(Qubit(a), Qubit(b)), Qubit(a), Qubit(b));
                    }
                },
                BasicGate::CCZ(a, b, c) => {
                    out.push(Gate::CCZ(Qubit(a), Qubit(b), Qubit(c)));
                    proof {
                        lemma_three_qubit_touch(
                            Gate::CCZ(Qubit(a), Qubit(b), Qubit(c)),
                            Qubit(a),
                            Qubit(b),
                            Qubit(c),
                        );
                    }
                },
                BasicGate::Tof(a, b, c) => {
                    out.push(Gate::H(Qubit(c)));
                    out.push(Gate::CCZ(Qubit(a), Qubit(b), Qubit(c)));
                    out.push(Gate::H(Qubit(c)));
                    proof {
                        lemma_one_qubit_touch(Gate::H(Qubit(c)), Qubit(c));
                        lemma_three_qubit_touch(
                            Gate::CCZ(Qubit(a), Qubit(b), Qubit(c)),
                            Qubit(a),
                            Qubit(b),
                            Qubit(c),
                        );
                    }
                },
            }
            proof {
                assert(basic@.subrange(0, i + 1).drop_last() =~= basic@.subrange(0, i as int));
                assert(basic@.subrange(0, i + 1).last() == basic@[i as int]);
                assert(out@ =~= gates_from_basic(basic@.subrange(0, i as int)) + basic_to_gates(
                    basic@[i as int],
                ));
            }
            i = i + 1;
        }
        proof {
            assert(basic@.subrange(0, basic@.len() as int) =~= basic@);
        }
        Circuit { gates: out }
    }
}

/// The vocabulary gate's qubits leave room for the register-size
/// computation.
pub open spec fn basic_gate_fits(b: BasicGate) -> bool {
    match b {
        BasicGate::Z(q) => q < usize::MAX,
        BasicGate::S(q) => q < usize::MAX,
        BasicGate::T(q) => q < usize::MAX,
        BasicGate::H(q) => q < usize::MAX,
        BasicGate::X(q) => q < usize::MAX,
        BasicGate::CX(a, b) => a < usize::MAX && b < usize::MAX,
        BasicGate::CCZ(a, b, c) => a < usize::MAX && b < usize::MAX && c < usize::MAX,
        BasicGate::Tof(a, b, c) => a < usize::MAX && b < usize::MAX && c < usize::MAX,
    }
}

proof fn lemma_one_qubit_touch(g: Gate, q: Qubit)
    requires
        forall|qq: Qubit| #[trigger] g.touches(qq) ==> qq == q,
        q.0 < usize::MAX,
        match g {
            Gate::Phase(p, _) => p.0 < 8,
            _ => true,
        },
    ensures
        gate_wf(g),
{
}

proof fn lemma_two_qubit_touch(g: Gate, a: Qubit, b: Qubit)
    requires
        forall|qq: Qubit| #[trigger] g.touches(qq) ==> qq == a || qq == b,
        a.0 < usize::MAX,
        b.0 < usize::MAX,
        match g {
            Gate::Phase(p, _) => p.0 < 8,
            _ => true,
        },
    ensures
        gate_wf(g),
{
}

proof fn lemma_three_qubit_touch(g: Gate, a: Qubit, b: Qubit, c: Qubit)
    requires
        forall|qq: Qubit| #[trigger] g.touches(qq) ==> qq == a || qq == b || qq == c,
        a.0 < usize::MAX,
        b.0 < usize::MAX,
        c.0 < usize::MAX,
        match g {
            Gate::Phase(p, _) => p.0 < 8,
            _ => true,
        },
    ensures
        gate_wf(g),
{
}

} // verus!
