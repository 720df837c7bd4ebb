//! Clifford extraction and partitioning into alternating blocks.
//!
//! A gate that is Clifford and shares no qubit with any earlier remaining
//! gate trivially commutes to the front of the circuit, so it can be
//! peeled off.  Applying the same greedy rule from both ends and then
//! alternately pulling maximal non-Hadamard and Clifford runs splits a
//! circuit into `front`, alternating blocks, and `back`; every move is an
//! exchange of adjacent disjoint gates, so the reassembled sequence is
//! `circuit_equiv` to the original.

use vstd::prelude::*;
use crate::circuit::{
    Gate, Circuit, Phase, Qubit, all_clifford, no_h, cnot_phase_only, gates_wf, gate_wf,
    seq_qubits, gate_span, count_h,
};
use crate::hadamard::{gadgetize_gates, h_range, lemma_gadgetize_no_h};
use crate::matrix::BoolMat;
use crate::extract::{
    gadget_or_zero, push_gadget, rows_after, rows_step, gadgets_of, ident_rows, unit_row,
    xor_rows, lemma_rows_after_wf, lemma_gadgets_wf,
};
use vstd::pervasive::VecAdditionalExecFns;
use rand::seq::SliceRandom;
use crate::equiv::{
    disjoint_gates, circuit_equiv, lemma_equiv_refl, lemma_equiv_trans, lemma_equiv_append,
    lemma_move_to_front, lemma_move_to_back,
};

verus! {

/// Which gates a pull pass is allowed to take.
#[derive(Debug, Copy, Clone, PartialEq, Eq, Structural)]
pub enum Pull {
    Clifford,
    NonHadamard,
}

pub open spec fn pull_pred(k: Pull, g: Gate) -> bool {
    match k {
        Pull::Clifford => g.spec_is_clifford(),
        Pull::NonHadamard => !(g is H),
    }
}

fn gate_passes(k: Pull, g: Gate) -> (r: bool)
    ensures
        r == pull_pred(k, g),
{
    match k {
        Pull::Clifford => g.is_clifford(),
        Pull::NonHadamard => !matches!(g, Gate::H(_)),
    }
}

/// Position `i` may be pulled to the front: its gate passes the test and
/// shares no qubit with any earlier gate.
pub open spec fn eligible_front(s: Seq<Gate>, i: int, k: Pull) -> bool {
    0 <= i < s.len() && pull_pred(k, s[i]) && (forall|j: int|
        0 <= j < i ==> disjoint_gates(#[trigger] s[j], s[i]))
}

/// Position `i` may be pulled to the back: its gate passes the test and
/// shares no qubit with any later gate.
pub open spec fn eligible_back(s: Seq<Gate>, i: int, k: Pull) -> bool {
    0 <= i < s.len() && pull_pred(k, s[i]) && (forall|j: int|
        i < j < s.len() ==> disjoint_gates(s[i], #[trigger] s[j]))
}

/// Removing a gate that is disjoint from everything after it cannot
/// make any remaining gate front-eligible: every obstruction before a
/// surviving gate either survives too, or was the removed gate, which
/// was disjoint from it anyway.
proof fn lemma_remove_keeps_front_fixpoint(s: Seq<Gate>, i: int, k: Pull)
    requires
        0 <= i < s.len(),
        forall|j: int| i < j < s.len() ==> disjoint_gates(s[i], #[trigger] s[j]),
        forall|p: int| !eligible_front(s, p, k),
    ensures
        forall|p: int| !eligible_front(s.remove(i), p, k),
{
    let s2 = s.remove(i);
    assert forall|p: int| !eligible_front(s2, p, k) by {
        if 0 <= p < s2.len() && pull_pred(k, s2[p]) {
            if p < i {
                assert(s2[p] == s[p]);
                assert(!eligible_front(s, p, k));
                let j = choose|j: int| 0 <= j < p && !disjoint_gates(#[trigger] s[j], s[p]);
                assert(s2[j] == s[j]);
                assert(!disjoint_gates(s2[j], s2[p]));
            } else {
                assert(s2[p] == s[p + 1]);
                assert(!eligible_front(s, p + 1, k));
                let j = choose|j: int| 0 <= j < p + 1 && !disjoint_gates(#[trigger] s[j], s[p + 1]);
                // the removed gate was disjoint from s[p + 1], so j is another gate
                assert(j != i);
                if j < i {
                    assert(s2[j] == s[j]);
                    assert(!disjoint_gates(s2[j], s2[p]));
                } else {
                    assert(s2[j - 1] == s[j]);
                    assert(!disjoint_gates(s2[j - 1], s2[p]));
                }
            }
        }
    }
}

impl Circuit {
    /// The first front-eligible position, if any.
    fn find_front(&self, k: Pull) -> (r: Option<usize>)
        ensures
            match r {
                Some(i) => eligible_front(self.gates@, i as int, k),
                None => forall|i: int| !eligible_front(self.gates@, i, k),
            },
    {
        let mut i: usize = 0;
        while i < self.gates.len()
            invariant
                0 <= i <= self.gates@.len(),
                forall|ii: int| 0 <= ii < i ==> !eligible_front(self.gates@, ii, k),
            decreases self.gates@.len() - i,
        {
            if gate_passes(k, self.gates[i]) {
                let mut j: usize = 0;
                let mut clear = true;
                while j < i
                    invariant
                        0 <= j <= i < self.gates@.len(),
                        clear ==> forall|jj: int|
                            0 <= jj < j ==> disjoint_gates(
                                #[trigger] self.gates@[jj],
                                self.gates@[i as int],
                            ),
                        !clear ==> !eligible_front(self.gates@, i as int, k),
                    decreases i - j,
                {
                    if self.gates[j].overlaps(self.gates[i]) {
                        clear = false;
                        proof {
                            assert(!disjoint_gates(self.gates@[j as int], self.gates@[i as int]));
                        }
                    }
                    j = j + 1;
                }
                if clear {
                    return Some(i);
                }
            }
            i = i + 1;
        }
        None
    }

    /// The last back-eligible position, if any.
    fn find_back(&self, k: Pull) -> (r: Option<usize>)
        ensures
            match r {
                Some(i) => eligible_back(self.gates@, i as int, k),
                None => forall|i: int| !eligible_back(self.gates@, i, k),
            },
    {
        let n = self.gates.len();
        let mut i: usize = n;
        while i > 0
            invariant
                0 <= i <= n == self.gates@.len(),
                forall|ii: int| i <= ii < n ==> !eligible_back(self.gates@, ii, k),
            decreases i,
        {
            i = i - 1;
            if gate_passes(k, self.gates[i]) {
                let mut j: usize = i + 1;
                let mut clear = true;
                while j < n
                    invariant
                        i < j <= n == self.gates@.len(),
                        clear ==> forall|jj: int|
                            i < jj < j ==> disjoint_gates(
                                self.gates@[i as int],
                                #[trigger] self.gates@[jj],
                            ),
                        !clear ==> !eligible_back(self.gates@, i as int, k),
                    decreases n - j,
                {
                    if self.gates[i].overlaps(self.gates[j]) {
                        clear = false;
                        proof {
                            assert(!disjoint_gates(self.gates@[i as int], self.gates@[j as int]));
                        }
                    }
                    j = j + 1;
                }
                if clear {
                    return Some(i);
                }
            }
        }
        None
    }

    /// Pull out all non-obstructed gates that pass the given test from the
    /// front of the circuit into a separate circuit.
    fn pull_gates(&mut self, k: Pull) -> (front: Circuit)
        requires
            old(self).wf(),
        ensures
            final(self).wf(),
            front.wf(),
            forall|i: int| 0 <= i < front.gates@.len() ==> pull_pred(k, #[trigger] front.gates@[i]),
            circuit_equiv(old(self).gates@, front.gates@ + final(self).gates@),
            forall|i: int| !eligible_front(final(self).gates@, i, k),
            front.gates@.len() + final(self).gates@.len() == old(self).gates@.len(),
            front.gates@.len() > 0 || final(self).gates@ == old(self).gates@,
    {
        let ghost orig = self.gates@;
        let mut front: Vec<Gate> = Vec::new();
        proof {
            lemma_equiv_refl(orig);
            assert(front@ + self.gates@ =~= orig);
        }
        loop
            invariant_except_break
                self.wf(),
                gates_wf(front@),
                forall|i: int| 0 <= i < front@.len() ==> pull_pred(k, #[trigger] front@[i]),
                circuit_equiv(orig, front@ + self.gates@),
                front@.len() + self.gates@.len() == orig.len(),
                front@.len() > 0 || self.gates@ == orig,
            ensures
                self.wf(),
                gates_wf(front@),
                forall|i: int| 0 <= i < front@.len() ==> pull_pred(k, #[trigger] front@[i]),
                circuit_equiv(orig, front@ + self.gates@),
                forall|i: int| !eligible_front(self.gates@, i, k),
                front@.len() + self.gates@.len() == orig.len(),
                front@.len() > 0 || self.gates@ == orig,
            decreases self.gates@.len(),
        {
            match self.find_front(k) {
                None => {
                    break ;
                },
                Some(i) => {
                    let ghost pre = self.gates@;
                    let ghost front0 = front@;
                    let g = self.gates.remove(i);
                    front.push(g);
                    proof {
                        assert(front@ =~= front0.push(g));
                        lemma_move_to_front(pre, i as int);
                        lemma_equiv_append(
                            pre,
                            seq![g] + pre.remove(i as int),
                            front0,
                            Seq::<Gate>::empty(),
                        );
                        assert(front0 + pre + Seq::<Gate>::empty() =~= front0 + pre);
                        assert(front0 + (seq![g] + pre.remove(i as int)) + Seq::<Gate>::empty()
                            =~= front@ + self.gates@);
                        assert(circuit_equiv(front0 + pre, front@ + self.gates@));
                        lemma_equiv_trans(orig, front0 + pre, front@ + self.gates@);
                    }
                },
            }
        }
        Circuit { gates: front }
    }

    /// Pull out all non-obstructed gates that pass the given test from the
    /// back of the circuit into a separate circuit.
    fn pull_gates_back(&mut self, k: Pull) -> (back: Circuit)
        requires
            old(self).wf(),
        ensures
            final(self).wf(),
            back.wf(),
            forall|i: int| 0 <= i < back.gates@.len() ==> pull_pred(k, #[trigger] back.gates@[i]),
            circuit_equiv(old(self).gates@, final(self).gates@ + back.gates@),
            forall|i: int| !eligible_back(final(self).gates@, i, k),
            final(self).gates@.len() + back.gates@.len() == old(self).gates@.len(),
            (forall|i: int| !eligible_front(old(self).gates@, i, k)) ==> (forall|i: int|
                !eligible_front(final(self).gates@, i, k)),
    {
        let ghost orig = self.gates@;
        let mut back: Vec<Gate> = Vec::new();
        proof {
            lemma_equiv_refl(orig);
            assert(self.gates@ + back@ =~= orig);
        }
        loop
            invariant_except_break
                self.wf(),
                gates_wf(back@),
                forall|i: int| 0 <= i < back@.len() ==> pull_pred(k, #[trigger] back@[i]),
                circuit_equiv(orig, self.gates@ + back@),
                self.gates@.len() + back@.len() == orig.len(),
                (forall|i: int| !eligible_front(orig, i, k)) ==> (forall|i: int|
                    !eligible_front(self.gates@, i, k)),
            ensures
                self.wf(),
                gates_wf(back@),
                forall|i: int| 0 <= i < back@.len() ==> pull_pred(k, #[trigger] back@[i]),
                circuit_equiv(orig, self.gates@ + back@),
                forall|i: int| !eligible_back(self.gates@, i, k),
                self.gates@.len() + back@.len() == orig.len(),
                (forall|i: int| !eligible_front(orig, i, k)) ==> (forall|i: int|
                    !eligible_front(self.gates@, i, k)),
            decreases self.gates@.len(),
        {
            match self.find_back(k) {
                None => {
                    break ;
                },
                Some(i) => {
                    let ghost pre = self.gates@;
                    let ghost back0 = back@;
                    let g = self.gates.remove(i);
                    back.insert(0, g);
                    proof {
                        if forall|p: int| !eligible_front(orig, p, k) {
                            lemma_remove_keeps_front_fixpoint(pre, i as int, k);
                        }
                        lemma_move_to_back(pre, i as int);
                        lemma_equiv_append(
                            pre,
                            pre.remove(i as int) + seq![g],
                            Seq::<Gate>::empty(),
                            back0,
                        );
                        assert(Seq::<Gate>::empty() + pre + back0 =~= pre + back0);
                        assert(Seq::<Gate>::empty() + (pre.remove(i as int) + seq![g]) + back0
                            =~= self.gates@ + back@);
                        lemma_equiv_trans(orig, pre + back0, self.gates@ + back@);
                    }
                },
            }
        }
        Circuit { gates: back }
    }

    /// Extract Clifford gates from the front and back of the circuit.
    ///
    /// Both extracted circuits hold only Clifford gates, the original
    /// gate sequence is reachable from `front ++ remainder ++ back` by
    /// exchanging adjacent disjoint gates, and the extraction is maximal
    /// under the single-pass greedy rule: no remaining gate is Clifford
    /// and qubit-disjoint from everything before it, or from everything
    /// after it.
    pub fn extract_cliffords(&mut self) -> (r: (Circuit, Circuit))
        requires
            old(self).wf(),
        ensures
            final(self).wf(),
            r.0.wf(),
            r.1.wf(),
            all_clifford(r.0.gates@),
            all_clifford(r.1.gates@),
            circuit_equiv(old(self).gates@, r.0.gates@ + final(self).gates@ + r.1.gates@),
            forall|i: int| !eligible_front(final(self).gates@, i, Pull::Clifford),
            forall|i: int| !eligible_back(final(self).gates@, i, Pull::Clifford),
            r.0.gates@.len() + final(self).gates@.len() + r.1.gates@.len() == old(
                self,
            ).gates@.len(),
    {
        let ghost orig = self.gates@;
        let front = self.pull_gates(Pull::Clifford);
        let ghost mid = self.gates@;
        let back = self.pull_gates_back(Pull::Clifford);
        proof {
            // orig ~ front + mid and mid ~ remainder + back
            lemma_equiv_append(
                mid,
                self.gates@ + back.gates@,
                front.gates@,
                Seq::<Gate>::empty(),
            );
            assert(front.gates@ + mid + Seq::<Gate>::empty() =~= front.gates@ + mid);
            assert(front.gates@ + (self.gates@ + back.gates@) + Seq::<Gate>::empty() =~= front.gates@
                + self.gates@ + back.gates@);
            lemma_equiv_trans(
                orig,
                front.gates@ + mid,
                front.gates@ + self.gates@ + back.gates@,
            );
        }
        (front, back)
    }
}

/// The gates of a block list, in order.
pub open spec fn blocks_gates(bs: Seq<Circuit>) -> Seq<Gate>
    decreases bs.len(),
{
    if bs.len() == 0 {
        Seq::empty()
    } else {
        blocks_gates(bs.drop_last()) + bs.last().gates@
    }
}

pub proof fn lemma_blocks_gates_push(bs: Seq<Circuit>, c: Circuit)
    ensures
        blocks_gates(bs.push(c)) == blocks_gates(bs) + c.gates@,
{
    assert(bs.push(c).drop_last() =~= bs);
    assert(bs.push(c).last() == c);
}

/// A circuit split into `front`, alternating blocks, and `back`.  Blocks
/// at even indices are the functional blocks; blocks at odd indices and
/// the front and back circuits hold only Clifford gates.
#[derive(Debug)]
pub struct PartitionedCircuit {
    pub front: Circuit,
    pub back: Circuit,
    pub blocks: Vec<Circuit>,
}

impl PartitionedCircuit {
    /// The single gate sequence the partition stands for.
    pub open spec fn reassemble(self) -> Seq<Gate> {
        self.front.gates@ + blocks_gates(self.blocks@) + self.back.gates@
    }

    pub open spec fn wf(self) -> bool {
        &&& self.front.wf()
        &&& self.back.wf()
        &&& forall|i: int| 0 <= i < self.blocks@.len() ==> (#[trigger] self.blocks@[i]).wf()
        &&& all_clifford(self.front.gates@)
        &&& all_clifford(self.back.gates@)
        &&& forall|i: int|
            0 <= i < self.blocks@.len() && i % 2 == 1 ==> all_clifford(
                (#[trigger] self.blocks@[i]).gates@,
            )
    }

    /// Remerge this set of blocks into one circuit.
    pub fn merge(&self) -> (c: Circuit)
        ensures
            c.gates@ == self.reassemble(),
    {
        let mut out = Circuit::empty();
        append_gates(&mut out.gates, &self.front.gates);
        let mut i: usize = 0;
        proof {
            assert(self.front.gates@ + blocks_gates(self.blocks@.subrange(0, 0)) =~= self.front.gates@);
        }
        while i < self.blocks.len()
            invariant
                0 <= i <= self.blocks@.len(),
                out.gates@ == self.front.gates@ + blocks_gates(self.blocks@.subrange(0, i as int)),
            decreases self.blocks@.len() - i,
        {
            append_gates(&mut out.gates, &self.blocks[i].gates);
            proof {
                assert(self.blocks@.subrange(0, i + 1).drop_last() =~= self.blocks@.subrange(
                    0,
                    i as int,
                ));
                assert(self.blocks@.subrange(0, i + 1).last() == self.blocks@[i as int]);
            }
            i = i + 1;
        }
        proof {
            assert(self.blocks@.subrange(0, self.blocks@.len() as int) =~= self.blocks@);
        }
        append_gates(&mut out.gates, &self.back.gates);
        out
    }
}

/// Append a copy of `src` to `dst`.
pub(crate) fn append_gates(dst: &mut Vec<Gate>, src: &Vec<Gate>)
    ensures
        final(dst)@ == old(dst)@ + src@,
{
    let mut i: usize = 0;
    proof {
        assert(dst@ + src@.subrange(0, 0) =~= dst@);
    }
    while i < src.len()
        invariant
            0 <= i <= src@.len(),
            dst@ == old(dst)@ + src@.subrange(0, i as int),
        decreases src@.len() - i,
    {
        dst.push(src[i]);
        proof {
            assert(old(dst)@ + src@.subrange(0, i + 1) =~= (old(dst)@ + src@.subrange(
                0,
                i as int,
            )).push(src@[i as int]));
        }
        i = i + 1;
    }
    proof {
        assert(src@.subrange(0, src@.len() as int) =~= src@);
    }
}

impl Circuit {
    /// Split this circuit into alternating blocks of non-Hadamard and
    /// Clifford gates, after extracting free Clifford gates at both ends.
    ///
    /// The reassembled partition is reachable from the original circuit by
    /// exchanging adjacent disjoint gates, so both realize the same
    /// unitary.
    pub fn partition(self) -> (p: PartitionedCircuit)
        requires
            self.wf(),
        ensures
            p.wf(),
            forall|i: int|
                0 <= i < p.blocks@.len() && i % 2 == 0 ==> no_h(
                    (#[trigger] p.blocks@[i]).gates@,
                ),
            circuit_equiv(self.gates@, p.reassemble()),
            self.gates@.len() == 0 ==> p.blocks@.len() == 0,
    {
        let ghost orig = self.gates@;
        let mut c = self;
        let (front, back) = c.extract_cliffords();
        let mut blocks: Vec<Circuit> = Vec::new();
        proof {
            assert(front.gates@ + blocks_gates(blocks@) + c.gates@ =~= front.gates@ + c.gates@);
        }
        while c.gates.len() > 0
            invariant_except_break
                blocks@.len() % 2 == 0,
            invariant
                c.wf(),
                front.wf(),
                back.wf(),
                all_clifford(front.gates@),
                all_clifford(back.gates@),
                forall|i: int| 0 <= i < blocks@.len() ==> (#[trigger] blocks@[i]).wf(),
                forall|i: int|
                    0 <= i < blocks@.len() && i % 2 == 1 ==> all_clifford(
                        (#[trigger] blocks@[i]).gates@,
                    ),
                forall|i: int|
                    0 <= i < blocks@.len() && i % 2 == 0 ==> no_h((#[trigger] blocks@[i]).gates@),
                circuit_equiv(orig, front.gates@ + blocks_gates(blocks@) + c.gates@ + back.gates@),
                orig.len() == 0 ==> blocks@.len() == 0 && c.gates@.len() == 0,
            ensures
                c.gates@.len() == 0,
            decreases c.gates@.len(),
        {
            let ghost c0 = c.gates@;
            let ghost blocks0 = blocks@;
            let b1 = c.pull_gates(Pull::NonHadamard);
            blocks.push(b1);
            proof {
                lemma_blocks_gates_push(blocks0, b1);
                lemma_equiv_append(
                    c0,
                    b1.gates@ + c.gates@,
                    front.gates@ + blocks_gates(blocks0),
                    back.gates@,
                );
                assert(front.gates@ + blocks_gates(blocks0) + c0 + back.gates@ =~= front.gates@
                    + blocks_gates(blocks0) + c0 + back.gates@);
                assert(front.gates@ + blocks_gates(blocks0) + (b1.gates@ + c.gates@) + back.gates@
                    =~= front.gates@ + blocks_gates(blocks@) + c.gates@ + back.gates@);
                lemma_equiv_trans(
                    orig,
                    front.gates@ + blocks_gates(blocks0) + c0 + back.gates@,
                    front.gates@ + blocks_gates(blocks@) + c.gates@ + back.gates@,
                );
            }
            if c.gates.len() == 0 {
                break ;
            }
            let ghost c1 = c.gates@;
            let ghost blocks1 = blocks@;
            let b2 = c.pull_gates(Pull::Clifford);
            blocks.push(b2);
            proof {
                lemma_blocks_gates_push(blocks1, b2);
                lemma_equiv_append(
                    c1,
                    b2.gates@ + c.gates@,
                    front.gates@ + blocks_gates(blocks1),
                    back.gates@,
                );
                assert(front.gates@ + blocks_gates(blocks1) + (b2.gates@ + c.gates@) + back.gates@
                    =~= front.gates@ + blocks_gates(blocks@) + c.gates@ + back.gates@);
                lemma_equiv_trans(
                    orig,
                    front.gates@ + blocks_gates(blocks1) + c1 + back.gates@,
                    front.gates@ + blocks_gates(blocks@) + c.gates@ + back.gates@,
                );
                // progress: at least one of the two pulls was nonempty
                if b1.gates@.len() == 0 && b2.gates@.len() == 0 {
                    assert(c1 == c0);
                    assert(c0.len() > 0);
                    // the non-Hadamard pull took nothing, so the head is an H
                    if pull_pred(Pull::NonHadamard, c0[0]) {
                        assert(eligible_front(c1, 0, Pull::NonHadamard));
                        assert(false);
                    }
                    assert(c0[0] is H);
                    // but an H is Clifford, so the Clifford pull would have taken it
                    assert(pull_pred(Pull::Clifford, c1[0]));
                    assert(eligible_front(c.gates@, 0, Pull::Clifford));
                    assert(false);
                }
            }
        }
        let p = PartitionedCircuit { front, back, blocks };
        proof {
            assert(front.gates@ + blocks_gates(blocks@) + c.gates@ + back.gates@ =~= p.reassemble());
        }
        p
    }
}

/// The CNOT+Phase replacement template of a single gate: CZ, CS, CCZ and
/// SWAP are rewritten into CNOT and phase gates, everything else is kept.
pub open spec fn expand_gate(g: Gate) -> Seq<Gate> {
    match g {
        Gate::CZ(a, b) => seq![
            Gate::Phase(Phase(6), a),
            Gate::Phase(Phase(6), b),
            Gate::CNOT(a, b),
            Gate::Phase(Phase(2), b),
            Gate::CNOT(a, b),
        ],
        Gate::CS(a, b) => seq![
            Gate::CNOT(a, b),
            Gate::Phase(Phase(7), b),
            Gate::CNOT(a, b),
            Gate::Phase(Phase(1), a),
            Gate::Phase(Phase(1), b),
        ],
        Gate::CCZ(a, b, c) => seq![
            Gate::CNOT(b, c),
            Gate::Phase(Phase(7), c),
            Gate::CNOT(a, c),
            Gate::Phase(Phase(1), c),
            Gate::CNOT(b, c),
            Gate::Phase(Phase(7), c),
            Gate::CNOT(a, c),
            Gate::Phase(Phase(1), c),
            Gate::Phase(Phase(1), b),
            Gate::CNOT(a, b),
            Gate::Phase(Phase(1), a),
            Gate::Phase(Phase(7), b),
            Gate::CNOT(a, b),
        ],
        Gate::SWAP(a, b) => seq![Gate::CNOT(a, b), Gate::CNOT(b, a), Gate::CNOT(a, b)],
        _ => seq![g],
    }
}

pub open spec fn expand_gates(s: Seq<Gate>) -> Seq<Gate>
    decreases s.len(),
{
    if s.len() == 0 {
        Seq::empty()
    } else {
        expand_gates(s.drop_last()) + expand_gate(s.last())
    }
}

pub open spec fn spec_phase_neg(p: Phase) -> Phase {
    Phase(((8 - p.0) % 8) as usize)
}

pub open spec fn xprop_toggle(st: Set<Qubit>, q: Qubit) -> Set<Qubit> {
    if st.contains(q) {
        st.remove(q)
    } else {
        st.insert(q)
    }
}

/// How one gate transforms the set of qubits still owing a trailing X:
/// an X toggles its qubit, a CNOT copies the pending X from control to
/// target, and every other gate leaves the set unchanged.
pub open spec fn xprop_step_state(st: Set<Qubit>, g: Gate) -> Set<Qubit> {
    match g {
        Gate::X(q) => xprop_toggle(st, q),
        Gate::CNOT(a, b) => if st.contains(a) {
            xprop_toggle(st, b)
        } else {
            st
        },
        _ => st,
    }
}

/// The set of qubits owing a trailing X after the whole sequence.
pub open spec fn xprop_state(s: Seq<Gate>) -> Set<Qubit>
    decreases s.len(),
{
    if s.len() == 0 {
        Set::empty()
    } else {
        xprop_step_state(xprop_state(s.drop_last()), s.last())
    }
}

/// What one gate becomes once the X frame has been pushed past it: X
/// gates disappear, a phase gate on a qubit owing an X is negated, and
/// every other gate passes through.
pub open spec fn xprop_emit(st: Set<Qubit>, g: Gate) -> Seq<Gate> {
    match g {
        Gate::X(_) => Seq::empty(),
        Gate::Phase(p, q) => if st.contains(q) {
            seq![Gate::Phase(spec_phase_neg(p), q)]
        } else {
            seq![g]
        },
        _ => seq![g],
    }
}

/// A gate sequence with every X eliminated by rightward propagation.
pub open spec fn xprop_gates(s: Seq<Gate>) -> Seq<Gate>
    decreases s.len(),
{
    if s.len() == 0 {
        Seq::empty()
    } else {
        xprop_gates(s.drop_last()) + xprop_emit(xprop_state(s.drop_last()), s.last())
    }
}

/// The trailing X gates owed on the first `n` qubits, in ascending order.
pub open spec fn x_tail(st: Set<Qubit>, n: nat) -> Seq<Gate>
    decreases n,
{
    if n == 0 {
        Seq::empty()
    } else {
        x_tail(st, (n - 1) as nat) + if st.contains(Qubit((n - 1) as usize)) {
            seq![Gate::X(Qubit((n - 1) as usize))]
        } else {
            Seq::empty()
        }
    }
}

/// The sequence holds only X, CNOT, phase and H gates.
pub open spec fn basic_only(s: Seq<Gate>) -> bool {
    forall|i: int|
        0 <= i < s.len() ==> ((#[trigger] s[i]) is X || s[i] is CNOT || s[i] is Phase
            || s[i] is H)
}

proof fn lemma_expand_basic(s: Seq<Gate>)
    ensures
        basic_only(expand_gates(s)),
        no_h(s) ==> no_h(expand_gates(s)),
    decreases s.len(),
{
    if s.len() == 0 {
    } else {
        lemma_expand_basic(s.drop_last());
        if no_h(s) {
            assert(no_h(s.drop_last()));
            assert(!(s.last() is H));
        }
        assert(forall|i: int|
            0 <= i < s.drop_last().len() ==> s.drop_last()[i] == #[trigger] s[i]);
    }
}

proof fn lemma_xprop_shape(s: Seq<Gate>)
    requires
        basic_only(s),
    ensures
        no_h(s) ==> cnot_phase_only(xprop_gates(s)),
        basic_only(s) && !no_h(s) ==> forall|i: int|
            0 <= i < xprop_gates(s).len() ==> ((#[trigger] xprop_gates(s)[i]) is CNOT
                || xprop_gates(s)[i] is Phase || xprop_gates(s)[i] is H),
    decreases s.len(),
{
    if s.len() == 0 {
    } else {
        assert(basic_only(s.drop_last())) by {
            assert(forall|i: int|
                0 <= i < s.drop_last().len() ==> s.drop_last()[i] == #[trigger] s[i]);
        }
        lemma_xprop_shape(s.drop_last());
        if no_h(s) {
            assert(no_h(s.drop_last()));
        }
    }
}

impl Circuit {
    /// Convert a CNOT + Phase + CZ + CS + CCZ + X + SWAP circuit into
    /// CNOT + Phase (plus any Hadamards left in place) and emit the
    /// uncancelled trailing X gates as an extra Clifford block.
    ///
    /// The new gate list is exactly the X-propagated template expansion of
    /// the old one, and the returned block holds one X per owing qubit in
    /// ascending order.
    pub fn to_cnot_phase(&mut self) -> (xs: Circuit)
        requires
            old(self).wf(),
        ensures
            final(self).wf(),
            xs.wf(),
            final(self).gates@ == xprop_gates(expand_gates(old(self).gates@)),
            xs.gates@ == x_tail(
                xprop_state(expand_gates(old(self).gates@)),
                seq_qubits(expand_gates(old(self).gates@)),
            ),
            all_clifford(xs.gates@),
            no_h(old(self).gates@) ==> cnot_phase_only(final(self).gates@),
    {
        // template expansion, rebuilt by append
        let mut expanded: Vec<Gate> = Vec::new();
        let mut i: usize = 0;
        proof {
            assert(expanded@ =~= expand_gates(self.gates@.subrange(0, 0)));
        }
        while i < self.gates.len()
            invariant
                0 <= i <= self.gates@.len(),
                self.wf(),
                gates_wf(expanded@),
                expanded@ == expand_gates(self.gates@.subrange(0, i as int)),
            decreases self.gates@.len() - i,
        {
            let g = self.gates[i];
            proof {
                assert(gate_wf(self.gates@[i as int]));
            }
            match g {
                Gate::CZ(a, b) => {
                    proof {
                        assert(g.touches(a) && g.touches(b));
                    }
                    expanded.push(Gate::Phase(Phase(6), a));
                    expanded.push(Gate::Phase(Phase(6), b));
                    expanded.push(Gate::CNOT(a, b));
                    expanded.push(Gate::Phase(Phase(2), b));
                    expanded.push(Gate::CNOT(a, b));
                },
                Gate::CS(a, b) => {
                    proof {
                        assert(g.touches(a) && g.touches(b));
                    }
                    expanded.push(Gate::CNOT(a, b));
                    expanded.push(Gate::Phase(Phase(7), b));
                    expanded.push(Gate::CNOT(a, b));
                    expanded.push(Gate::Phase(Phase(1), a));
                    expanded.push(Gate::Phase(Phase(1), b));
                },
                Gate::CCZ(a, b, c) => {
                    proof {
                        assert(g.touches(a) && g.touches(b) && g.touches(c));
                    }
                    expanded.push(Gate::CNOT(b, c));
                    expanded.push(Gate::Phase(Phase(7), c));
                    expanded.push(Gate::CNOT(a, c));
                    expanded.push(Gate::Phase(Phase(1), c));
                    expanded.push(Gate::CNOT(b, c));
                    expanded.push(Gate::Phase(Phase(7), c));
                    expanded.push(Gate::CNOT(a, c));
                    expanded.push(Gate::Phase(Phase(1), c));
                    expanded.push(Gate::Phase(Phase(1), b));
                    expanded.push(Gate::CNOT(a, b));
                    expanded.push(Gate::Phase(Phase(1), a));
                    expanded.push(Gate::Phase(Phase(7), b));
                    expanded.push(Gate::CNOT(a, b));
                },
                Gate::SWAP(a, b) => {
                    proof {
                        assert(g.touches(a) && g.touches(b));
                    }
                    expanded.push(Gate::CNOT(a, b));
                    expanded.push(Gate::CNOT(b, a));
                    expanded.push(Gate::CNOT(a, b));
                },
                _ => {
                    expanded.push(g);
                },
            }
            proof {
                let pre = self.gates@.subrange(0, i as int);
                let cur = self.gates@.subrange(0, i + 1);
                assert(cur.drop_last() =~= pre);
                assert(cur.last() == self.gates@[i as int]);
                assert(expanded@ =~= expand_gates(pre) + expand_gate(self.gates@[i as int]));
            }
            i = i + 1;
        }
        proof {
            assert(self.gates@.subrange(0, self.gates@.len() as int) =~= self.gates@);
        }
        let ghost exp = expanded@;
        let expanded_c = Circuit { gates: expanded };
        let n = expanded_c.qubits();
        let expanded = expanded_c.gates;

        // X propagation, tracking the pending-X frame in a bit vector
        let mut pending: Vec<bool> = Vec::new();
        let mut j: usize = 0;
        while j < n
            invariant
                0 <= j <= n,
                pending@.len() == j,
                forall|q: int| 0 <= q < j ==> !(#[trigger] pending@[q]),
            decreases n - j,
        {
            pending.push(false);
            j = j + 1;
        }
        let mut out: Vec<Gate> = Vec::new();
        let mut j: usize = 0;
        proof {
            assert(out@ =~= xprop_gates(exp.subrange(0, 0)));
            assert(xprop_state(exp.subrange(0, 0)) =~= Set::<Qubit>::empty());
        }
        while j < expanded.len()
            invariant
                0 <= j <= expanded@.len(),
                expanded@ == exp,
                gates_wf(exp),
                n == seq_qubits(exp),
                pending@.len() == n,
                gates_wf(out@),
                out@ == xprop_gates(exp.subrange(0, j as int)),
                forall|q: Qubit|
                    #[trigger] xprop_state(exp.subrange(0, j as int)).contains(q) ==> q.0 < n,
                forall|q: int|
                    0 <= q < n ==> #[trigger] pending@[q] == xprop_state(
                        exp.subrange(0, j as int),
                    ).contains(Qubit(q as usize)),
            decreases expanded@.len() - j,
        {
            let ghost pre = exp.subrange(0, j as int);
            let ghost st = xprop_state(pre);
            let g = expanded[j];
            proof {
                crate::circuit::lemma_seq_qubits_bound(exp, j as int);
                assert(gate_wf(exp[j as int]));
            }
            match g {
                Gate::X(q) => {
                    proof {
                        assert(g.touches(q));
                    }
                    let was = pending[q.0];
                    pending.set(q.0, !was);
                },
                Gate::CNOT(a, b) => {
                    proof {
                        assert(g.touches(a) && g.touches(b));
                    }
                    if pending[a.0] {
                        let was = pending[b.0];
                        pending.set(b.0, !was);
                    }
                    out.push(g);
                },
                Gate::Phase(p, q) => {
                    proof {
                        assert(g.touches(q));
                    }
                    if pending[q.0] {
                        out.push(Gate::Phase(p.neg(), q));
                    } else {
                        out.push(g);
                    }
                },
                _ => {
                    out.push(g);
                },
            }
            proof {
                let cur = exp.subrange(0, j + 1);
                assert(cur.drop_last() =~= pre);
                assert(cur.last() == exp[j as int]);
                assert(out@ =~= xprop_gates(pre) + xprop_emit(st, exp[j as int]));
                assert forall|q: int| 0 <= q < n implies #[trigger] pending@[q] == xprop_state(
                    cur,
                ).contains(Qubit(q as usize)) by {
                    assert(xprop_state(cur) == xprop_step_state(st, exp[j as int]));
                }
            }
            j = j + 1;
        }
        proof {
            assert(exp.subrange(0, exp.len() as int) =~= exp);
        }
        self.gates = out;

        // the uncancelled X gates, in ascending qubit order
        let ghost st = xprop_state(exp);
        let mut xs: Vec<Gate> = Vec::new();
        let mut q: usize = 0;
        proof {
            assert(xs@ =~= x_tail(st, 0));
        }
        while q < n
            invariant
                0 <= q <= n,
                pending@.len() == n,
                forall|qq: int|
                    0 <= qq < n ==> #[trigger] pending@[qq] == st.contains(Qubit(qq as usize)),
                xs@ == x_tail(st, q as nat),
                gates_wf(xs@),
                all_clifford(xs@),
            decreases n - q,
        {
            if pending[q] {
                xs.push(Gate::X(Qubit(q)));
                proof {
                    assert(Gate::X(Qubit(q)).touches(Qubit(q)));
                    assert(forall|qq: Qubit|
                        #[trigger] Gate::X(Qubit(q)).touches(qq) ==> qq == Qubit(q));
                }
            }
            q = q + 1;
        }
        proof {
            lemma_expand_basic(old(self).gates@);
            lemma_xprop_shape(exp);
        }
        Circuit { gates: xs }
    }
}

/// The register size of a concatenation is the larger of the two sizes.
pub proof fn lemma_seq_qubits_concat(a: Seq<Gate>, b: Seq<Gate>)
    ensures
        seq_qubits(a + b) == if seq_qubits(a) >= seq_qubits(b) {
            seq_qubits(a)
        } else {
            seq_qubits(b)
        },
    decreases b.len(),
{
    if b.len() == 0 {
        assert(a + b =~= a);
    } else {
        assert((a + b).drop_last() =~= a + b.drop_last());
        assert((a + b).last() == b.last());
        lemma_seq_qubits_concat(a, b.drop_last());
    }
}

/// The total H count of the functional blocks from index `k` on.
pub open spec fn hsum_even_from(bs: Seq<Circuit>, k: int) -> nat
    decreases bs.len() - k,
{
    if k >= bs.len() {
        0
    } else {
        (if k >= 0 && k % 2 == 0 {
            count_h(bs[k].gates@)
        } else {
            0
        }) + hsum_even_from(bs, k + 1)
    }
}

proof fn lemma_hsum_le(bs: Seq<Circuit>, k: int)
    requires
        k >= 0,
    ensures
        hsum_even_from(bs, k) <= hsum_even_from(bs, 0),
    decreases k,
{
    if k == 0 {
    } else if k > bs.len() {
        assert(hsum_even_from(bs, k) == 0);
    } else {
        lemma_hsum_le(bs, k - 1);
    }
}

/// The ancilla id handed to the functional block at index `k`: the shared
/// counter starts at the register size and blocks are gadgetized from the
/// last one backward.
pub open spec fn block_id(bs: Seq<Circuit>, k: int, q0: nat) -> nat {
    q0 + hsum_even_from(bs, k + 1)
}

/// A functional block after gadgetization and canonicalization.
pub open spec fn block_rewrite(s: Seq<Gate>, id: nat) -> Seq<Gate> {
    xprop_gates(expand_gates(gadgetize_gates(s, id)))
}

/// The trailing-X correction a functional block emits.
pub open spec fn block_corr(s: Seq<Gate>, id: nat) -> Seq<Gate> {
    x_tail(
        xprop_state(expand_gates(gadgetize_gates(s, id))),
        seq_qubits(expand_gates(gadgetize_gates(s, id))),
    )
}

proof fn lemma_h_range_concat(id: nat, a: nat, b: nat)
    ensures
        h_range(id, a + b) == h_range(id, a) + h_range(id + a, b),
    decreases b,
{
    if b == 0 {
        assert(h_range(id, a) + h_range(id + a, 0) =~= h_range(id, a));
    } else {
        lemma_h_range_concat(id, a, (b - 1) as nat);
        assert(h_range(id, a) + h_range(id + a, b) =~= (h_range(id, a) + h_range(
            id + a,
            (b - 1) as nat,
        )).push(Gate::H(Qubit((id + a + b - 1) as usize))));
        assert(h_range(id, a + b) == h_range(id, (a + b - 1) as nat).push(
            Gate::H(Qubit((id + a + b - 1) as usize)),
        ));
    }
}

impl PartitionedCircuit {
    /// Convert the functional blocks into CNOT+Phase circuits.
    ///
    /// Every even block is H-gadgetized (ancillas counted from the
    /// register size of the whole partition, so they are fresh, last
    /// block first) and canonicalized;
    /// its trailing-X correction is prepended to the following Clifford
    /// block, or to `back` for the last block; `front` and `back` receive
    /// the flanking Hadamards of every ancilla.
    #[verifier::rlimit(100)]
    #[verifier::spinoff_prover]
    #[verifier::loop_isolation(false)]
    pub fn to_cnot_phase(&mut self)
        requires
            old(self).wf(),
            seq_qubits(old(self).reassemble()) + hsum_even_from(old(self).blocks@, 0)
                <= usize::MAX,
        ensures
            final(self).wf(),
            final(self).blocks@.len() == old(self).blocks@.len(),
            ({
                let bs = old(self).blocks@;
                let q0 = seq_qubits(old(self).reassemble());
                let total = hsum_even_from(bs, 0);
                &&& forall|k: int|
                    0 <= k < bs.len() && k % 2 == 0 ==> (#[trigger] final(self).blocks@[k]).gates@
                        == block_rewrite(bs[k].gates@, block_id(bs, k, q0))
                &&& forall|k: int|
                    0 <= k < bs.len() && k % 2 == 0 ==> cnot_phase_only(
                        (#[trigger] final(self).blocks@[k]).gates@,
                    )
                &&& forall|k: int|
                    0 <= k < bs.len() && k % 2 == 1 ==> (#[trigger] final(self).blocks@[k]).gates@
                        == block_corr(bs[k - 1].gates@, block_id(bs, k - 1, q0)) + bs[k].gates@
                &&& final(self).front.gates@ == old(self).front.gates@ + h_range(q0, total)
                &&& final(self).back.gates@ == if bs.len() % 2 == 1 {
                    block_corr(bs[bs.len() - 1].gates@, q0) + old(self).back.gates@ + h_range(
                        q0,
                        total,
                    )
                } else {
                    old(self).back.gates@ + h_range(q0, total)
                }
            }),
    {
        let ghost bs = self.blocks@;
        let ghost total = hsum_even_from(bs, 0);

        // register size of the whole partition, so ancillas are fresh
        let mut q0: usize = self.front.qubits();
        let nback = self.back.qubits();
        if nback > q0 {
            q0 = nback;
        }
        let mut j: usize = 0;
        proof {
            assert(blocks_gates(bs.subrange(0, 0)) =~= Seq::<Gate>::empty());
            lemma_seq_qubits_concat(self.front.gates@, self.back.gates@);
        }
        while j < self.blocks.len()
            invariant
                0 <= j <= bs.len(),
                self.blocks@ == bs,
                self.front == old(self).front,
                self.back == old(self).back,
                forall|k: int| 0 <= k < bs.len() ==> (#[trigger] bs[k]).wf(),
                q0 == seq_qubits(
                    self.front.gates@ + self.back.gates@ + blocks_gates(bs.subrange(0, j as int)),
                ),
            decreases bs.len() - j,
        {
            let nq = self.blocks[j].qubits();
            if nq > q0 {
                q0 = nq;
            }
            proof {
                assert(bs.subrange(0, j + 1).drop_last() =~= bs.subrange(0, j as int));
                assert(bs.subrange(0, j + 1).last() == bs[j as int]);
                lemma_blocks_gates_push(bs.subrange(0, j as int), bs[j as int]);
                assert(bs.subrange(0, j as int).push(bs[j as int]) =~= bs.subrange(0, j + 1));
                lemma_seq_qubits_concat(
                    self.front.gates@ + self.back.gates@ + blocks_gates(bs.subrange(0, j as int)),
                    bs[j as int].gates@,
                );
                assert(self.front.gates@ + self.back.gates@ + blocks_gates(bs.subrange(0, j as int))
                    + bs[j as int].gates@ =~= self.front.gates@ + self.back.gates@ + (blocks_gates(
                    bs.subrange(0, j as int),
                ) + bs[j as int].gates@));
            }
            j = j + 1;
        }
        proof {
            assert(bs.subrange(0, bs.len() as int) =~= bs);
            // the same register size, grouped as the reassembled circuit
            lemma_seq_qubits_concat(self.front.gates@, self.back.gates@);
            lemma_seq_qubits_concat(
                self.front.gates@ + self.back.gates@,
                blocks_gates(bs),
            );
            lemma_seq_qubits_concat(self.front.gates@, blocks_gates(bs));
            lemma_seq_qubits_concat(self.front.gates@ + blocks_gates(bs), self.back.gates@);
            assert(old(self).reassemble() == self.front.gates@ + blocks_gates(bs) + self.back.gates@);
            assert(q0 == seq_qubits(old(self).reassemble()));
        }

        let mut next_id: usize = q0;
        let mut i: usize = self.blocks.len();
        proof {
            assert(h_range(q0 as nat, 0) =~= Seq::<Gate>::empty());
            assert(self.front.gates@ + h_range(q0 as nat, 0) =~= self.front.gates@);
            assert(self.back.gates@ + h_range(q0 as nat, 0) =~= self.back.gates@);
        }
        while i > 0
            invariant
                0 <= i <= bs.len(),
                self.blocks@.len() == bs.len(),
                next_id == q0 + hsum_even_from(bs, i as int),
                forall|k: int|
                    0 <= k < bs.len() && (k < i || (k % 2 == 1 && k <= i)) ==> (
                    #[trigger] self.blocks@[k]) == bs[k],
                forall|k: int|
                    i <= k < bs.len() && k % 2 == 0 ==> (#[trigger] self.blocks@[k]).gates@
                        == block_rewrite(bs[k].gates@, block_id(bs, k, q0 as nat)),
                forall|k: int|
                    i <= k < bs.len() && k % 2 == 0 ==> cnot_phase_only(
                        (#[trigger] self.blocks@[k]).gates@,
                    ),
                forall|k: int|
                    i < k < bs.len() && k % 2 == 1 ==> (#[trigger] self.blocks@[k]).gates@
                        == block_corr(bs[k - 1].gates@, block_id(bs, k - 1, q0 as nat))
                        + bs[k].gates@,
                forall|k: int| 0 <= k < bs.len() ==> (#[trigger] self.blocks@[k]).wf(),
                forall|k: int|
                    0 <= k < bs.len() && k % 2 == 1 ==> all_clifford(
                        (#[trigger] self.blocks@[k]).gates@,
                    ),
                self.front.wf(),
                self.back.wf(),
                all_clifford(self.front.gates@),
                all_clifford(self.back.gates@),
                self.front.gates@ == old(self).front.gates@ + h_range(
                    q0 as nat,
                    hsum_even_from(bs, i as int),
                ),
                self.back.gates@ == if bs.len() % 2 == 1 && i < bs.len() {
                    block_corr(bs[bs.len() - 1].gates@, q0 as nat) + old(self).back.gates@
                        + h_range(q0 as nat, hsum_even_from(bs, i as int))
                } else {
                    old(self).back.gates@ + h_range(q0 as nat, hsum_even_from(bs, i as int))
                },
            decreases i,
        {
            i = i - 1;
            if i % 2 == 0 {
                let ghost back_pre = self.back.gates@;
                let ghost front_pre = self.front.gates@;
                let ghost done = hsum_even_from(bs, i + 1);
                let ghost id = next_id as nat;
                let ghost ck = count_h(bs[i as int].gates@);
                proof {
                    lemma_hsum_le(bs, i as int);
                    assert(hsum_even_from(bs, i as int) == ck + done);
                }
                let mut blk = self.blocks.remove(i);
                blk.decomp_hads(&mut next_id, &mut self.front, &mut self.back);
                let xswaps = blk.to_cnot_phase();
                proof {
                    lemma_gadgetize_no_h(bs[i as int].gates@, id);
                }
                self.blocks.insert(i, blk);
                proof {
                    lemma_h_range_concat(q0 as nat, done, ck);
                    assert(self.front.gates@ =~= old(self).front.gates@ + h_range(
                        q0 as nat,
                        (done + ck) as nat,
                    ));
                }
                if i + 1 == self.blocks.len() {
                    // last block: the correction goes in front of `back`
                    let mut newback = xswaps;
                    append_gates(&mut newback.gates, &self.back.gates);
                    self.back = newback;
                    proof {
                        assert(bs.len() % 2 == 1);
                        assert(block_id(bs, i as int, q0 as nat) == q0);
                        assert(self.back.gates@ =~= block_corr(bs[bs.len() - 1].gates@, q0 as nat)
                            + (old(self).back.gates@ + h_range(q0 as nat, (done + ck) as nat)));
                    }
                } else {
                    // the correction goes in front of the following block
                    let mut nb = xswaps;
                    append_gates(&mut nb.gates, &self.blocks[i + 1].gates);
                    let ghost nbv = nb;
                    core::mem::swap(&mut self.blocks[i + 1], &mut nb);
                    proof {
                        assert(self.blocks@[i + 1] == nbv);
                    }
                }
            }
        }
    }
}

/// The CNOT gates of a sequence, in order: the linear map of the block.
pub open spec fn cnots_of(s: Seq<Gate>) -> Seq<Gate>
    decreases s.len(),
{
    if s.len() == 0 {
        Seq::empty()
    } else {
        cnots_of(s.drop_last()) + if s.last() is CNOT {
            seq![s.last()]
        } else {
            Seq::empty()
        }
    }
}

/// The identity qubit map on `n` qubits.
pub open spec fn id_map(n: nat) -> Seq<usize> {
    Seq::new(n, |i: int| i as usize)
}

/// The Clifford remainder of a gadget phase: the phase itself when it is
/// Clifford, otherwise the phase less one T.
pub open spec fn cliff_residue(p: Phase) -> Phase {
    if p.spec_is_clifford() {
        p
    } else {
        Phase(((p.0 + 7) % 8) as usize)
    }
}

/// The Clifford part of the gadget list, synthesized per gadget.
pub open spec fn clifford_parts(gs: Seq<(Phase, Seq<bool>)>, n: nat) -> Seq<Gate>
    decreases gs.len(),
{
    if gs.len() == 0 {
        Seq::empty()
    } else {
        clifford_parts(gs.drop_last(), n) + gadget_or_zero(
            cliff_residue(gs.last().0),
            gs.last().1,
            id_map(n),
        )
    }
}

/// The T part of the gadget list: one T gadget per non-Clifford phase.
pub open spec fn t_parts(gs: Seq<(Phase, Seq<bool>)>, n: nat) -> Seq<Gate>
    decreases gs.len(),
{
    if gs.len() == 0 {
        Seq::empty()
    } else {
        t_parts(gs.drop_last(), n) + if gs.last().0.spec_is_clifford() {
            Seq::empty()
        } else {
            gadget_or_zero(Phase(1), gs.last().1, id_map(n))
        }
    }
}

/// The parities of the non-Clifford gadgets: the synthesis matrix columns
/// before row pruning.
pub open spec fn nc_cols(gs: Seq<(Phase, Seq<bool>)>) -> Seq<Seq<bool>>
    decreases gs.len(),
{
    if gs.len() == 0 {
        Seq::empty()
    } else {
        nc_cols(gs.drop_last()) + if gs.last().0.spec_is_clifford() {
            Seq::empty()
        } else {
            seq![gs.last().1]
        }
    }
}

/// Row `r` is set in some column.
pub open spec fn live_row(cols: Seq<Seq<bool>>, r: int) -> bool {
    exists|c: int| 0 <= c < cols.len() && (#[trigger] cols[c])[r]
}

/// The indices below `n` of the rows that are not identically zero, in
/// ascending order: the active-qubit map.
pub open spec fn live_rows(cols: Seq<Seq<bool>>, n: nat) -> Seq<usize>
    decreases n,
{
    if n == 0 {
        Seq::empty()
    } else {
        live_rows(cols, (n - 1) as nat) + if live_row(cols, n - 1) {
            seq![(n - 1) as usize]
        } else {
            Seq::empty()
        }
    }
}

/// A column restricted to the live rows.
pub open spec fn prune_col(col: Seq<bool>, live: Seq<usize>) -> Seq<bool> {
    Seq::new(live.len(), |r: int| col[live[r] as int])
}

pub open spec fn prune_cols(cols: Seq<Seq<bool>>, live: Seq<usize>) -> Seq<Seq<bool>> {
    cols.map_values(|c: Seq<bool>| prune_col(c, live))
}

/// Concatenating Clifford gate lists yields a Clifford gate list.
pub proof fn lemma_concat_clifford(a: Seq<Gate>, b: Seq<Gate>)
    requires
        all_clifford(a),
        all_clifford(b),
    ensures
        all_clifford(a + b),
{
    assert forall|i: int| 0 <= i < (a + b).len() implies (#[trigger] (a + b)[i]).spec_is_clifford()
        by {
        if i < a.len() {
            assert((a + b)[i] == a[i]);
        } else {
            assert((a + b)[i] == b[i - a.len()]);
        }
    }
}

/// Concatenating well-formed gate lists yields a well-formed gate list.
pub proof fn lemma_concat_wf(a: Seq<Gate>, b: Seq<Gate>)
    requires
        gates_wf(a),
        gates_wf(b),
    ensures
        gates_wf(a + b),
{
    assert forall|i: int| 0 <= i < (a + b).len() implies gate_wf(#[trigger] (a + b)[i]) by {
        if i < a.len() {
            assert((a + b)[i] == a[i]);
        } else {
            assert((a + b)[i] == b[i - a.len()]);
        }
    }
}

/// The Clifford part of a gadget list holds Clifford gates only.
pub proof fn lemma_clifford_parts_clifford(gs: Seq<(Phase, Seq<bool>)>, n: nat)
    ensures
        all_clifford(clifford_parts(gs, n)),
    decreases gs.len(),
{
    if gs.len() == 0 {
    } else {
        lemma_clifford_parts_clifford(gs.drop_last(), n);
        crate::extract::lemma_gadget_clifford(
            cliff_residue(gs.last().0),
            gs.last().1,
            id_map(n),
        );
    }
}

/// The CNOT gates of a sequence are Clifford.
pub proof fn lemma_cnots_clifford(s: Seq<Gate>)
    ensures
        all_clifford(cnots_of(s)),
    decreases s.len(),
{
    if s.len() == 0 {
    } else {
        lemma_cnots_clifford(s.drop_last());
    }
}

/// The T part of a gadget list holds CNOT and phase gates only.
pub proof fn lemma_t_parts_shape(gs: Seq<(Phase, Seq<bool>)>, n: nat)
    ensures
        cnot_phase_only(t_parts(gs, n)),
    decreases gs.len(),
{
    if gs.len() == 0 {
    } else {
        lemma_t_parts_shape(gs.drop_last(), n);
        crate::extract::lemma_gadget_shape(Phase(1), gs.last().1, id_map(n));
    }
}

/// Copy a bit vector.
pub(crate) fn copy_bools(v: &Vec<bool>) -> (r: Vec<bool>)
    ensures
        r@ == v@,
{
    let mut r: Vec<bool> = Vec::new();
    let mut i: usize = 0;
    while i < v.len()
        invariant
            0 <= i <= v@.len(),
            r@.len() == i,
            forall|j: int| 0 <= j < i ==> r@[j] == v@[j],
        decreases v@.len() - i,
    {
        r.push(v[i]);
        i = i + 1;
    }
    proof {
        assert(r@ =~= v@);
    }
    r
}

impl Circuit {
    /// Given a CNOT+Phase circuit, extract its gate-synthesis matrix.
    ///
    /// The circuit is left holding one T gadget per non-Clifford phase
    /// gadget; the returned triple is the ascending map of active qubits,
    /// the matrix of non-Clifford gadget parities restricted to those
    /// rows, and a Clifford block holding the Clifford remainder of each
    /// gadget followed by the block's own CNOT gates.
    #[verifier::rlimit(100)]
    pub fn extract_gadgets(&mut self) -> (r: (Vec<usize>, BoolMat, Circuit))
        requires
            old(self).wf(),
            cnot_phase_only(old(self).gates@),
        ensures
            ({
                let orig = old(self).gates@;
                let n = seq_qubits(orig);
                let gs = gadgets_of(orig, n);
                let cols = nc_cols(gs);
                let live = live_rows(cols, n);
                &&& final(self).gates@ == t_parts(gs, n)
                &&& final(self).wf()
                &&& cnot_phase_only(final(self).gates@)
                &&& r.0@ == live
                &&& r.1.wf()
                &&& r.1.rows == live.len()
                &&& r.1.view_cols() == prune_cols(cols, live)
                &&& r.2.gates@ == clifford_parts(gs, n) + cnots_of(orig)
                &&& r.2.wf()
            }),
    {
        let ghost orig = self.gates@;
        let n = self.qubits();
        proof {
            assert forall|i: int| 0 <= i < orig.len() implies gate_span(#[trigger] orig[i])
                <= n as nat by {
                crate::circuit::lemma_seq_qubits_bound(orig, i);
            }
            lemma_gadgets_wf(orig, n as nat);
        }

        // the CNOT gates form the block's final linear map
        let mut cnots: Vec<Gate> = Vec::new();
        let mut i: usize = 0;
        proof {
            assert(cnots@ =~= cnots_of(orig.subrange(0, 0)));
        }
        while i < self.gates.len()
            invariant
                0 <= i <= orig.len(),
                self.gates@ == orig,
                gates_wf(orig),
                cnots@ == cnots_of(orig.subrange(0, i as int)),
                gates_wf(cnots@),
            decreases orig.len() - i,
        {
            proof {
                assert(orig.subrange(0, i + 1).drop_last() =~= orig.subrange(0, i as int));
                assert(orig.subrange(0, i + 1).last() == orig[i as int]);
                assert(gate_wf(orig[i as int]));
            }
            if matches!(self.gates[i], Gate::CNOT(_, _)) {
                cnots.push(self.gates[i]);
                proof {
                    assert(cnots@ =~= cnots_of(orig.subrange(0, i as int)) + seq![orig[i as int]]);
                }
            } else {
                proof {
                    assert(cnots@ =~= cnots_of(orig.subrange(0, i + 1)));
                }
            }
            i = i + 1;
        }
        proof {
            assert(orig.subrange(0, orig.len() as int) =~= orig);
        }

        // track the parity matrix and record each phase gadget
        let mut rows: Vec<Vec<bool>> = Vec::new();
        let mut r0: usize = 0;
        while r0 < n
            invariant
                0 <= r0 <= n,
                rows@.len() == r0,
                forall|rr: int| 0 <= rr < r0 ==> (#[trigger] rows@[rr])@ == unit_row(n as nat, rr),
            decreases n - r0,
        {
            let mut row: Vec<bool> = Vec::new();
            let mut j: usize = 0;
            while j < n
                invariant
                    0 <= j <= n,
                    row@.len() == j,
                    forall|jj: int| 0 <= jj < j ==> row@[jj] == (jj == r0 as int),
                decreases n - j,
            {
                row.push(j == r0);
                j = j + 1;
            }
            proof {
                assert(row@ =~= unit_row(n as nat, r0 as int));
            }
            rows.push(row);
            r0 = r0 + 1;
        }

        let mut gad_p: Vec<Phase> = Vec::new();
        let mut gad_c: Vec<Vec<bool>> = Vec::new();
        let mut i: usize = 0;
        proof {
            assert forall|rr: int| 0 <= rr < n implies (#[trigger] rows@[rr])@ == rows_after(
                orig.subrange(0, 0),
                n as nat,
            )[rr] by {
                assert(rows_after(orig.subrange(0, 0), n as nat) =~= ident_rows(n as nat));
            }
            assert(gadgets_of(orig.subrange(0, 0), n as nat) =~= Seq::<(Phase, Seq<bool>)>::empty());
        }
        while i < self.gates.len()
            invariant
                0 <= i <= orig.len(),
                self.gates@ == orig,
                gates_wf(orig),
                n == seq_qubits(orig),
                forall|ii: int| 0 <= ii < orig.len() ==> gate_span(#[trigger] orig[ii]) <= n as nat,
                rows@.len() == n,
                forall|rr: int| 0 <= rr < n ==> (#[trigger] rows@[rr])@.len() == n,
                forall|rr: int|
                    0 <= rr < n ==> (#[trigger] rows@[rr])@ == rows_after(
                        orig.subrange(0, i as int),
                        n as nat,
                    )[rr],
                gad_p@.len() == gadgets_of(orig.subrange(0, i as int), n as nat).len(),
                gad_c@.len() == gad_p@.len(),
                forall|g: int|
                    0 <= g < gad_p@.len() ==> (#[trigger] gad_p@[g]) == gadgets_of(
                        orig.subrange(0, i as int),
                        n as nat,
                    )[g].0,
                forall|g: int|
                    0 <= g < gad_c@.len() ==> (#[trigger] gad_c@[g])@ == gadgets_of(
                        orig.subrange(0, i as int),
                        n as nat,
                    )[g].1,
            decreases orig.len() - i,
        {
            let ghost pre = orig.subrange(0, i as int);
            let g = self.gates[i];
            proof {
                assert(orig.subrange(0, i + 1).drop_last() =~= pre);
                assert(orig.subrange(0, i + 1).last() == orig[i as int]);
                assert forall|ii: int| 0 <= ii < pre.len() implies gate_span(#[trigger] pre[ii])
                    <= n as nat by {
                    assert(pre[ii] == orig[ii]);
                }
                lemma_rows_after_wf(pre, n as nat);
                assert(gate_wf(orig[i as int]));
            }
            match g {
                Gate::CNOT(a, b) => {
                    proof {
                        assert(g.touches(a) && g.touches(b));
                        assert(gate_span(orig[i as int]) <= n as nat);
                    }
                    let mut nrow: Vec<bool> = Vec::new();
                    let mut j: usize = 0;
                    while j < n
                        invariant
                            0 <= j <= n,
                            a.0 < n,
                            b.0 < n,
                            rows@.len() == n,
                            forall|rr: int| 0 <= rr < n ==> (#[trigger] rows@[rr])@.len() == n,
                            nrow@.len() == j,
                            forall|jj: int|
                                0 <= jj < j ==> nrow@[jj] == (rows@[b.0 as int]@[jj]
                                    != rows@[a.0 as int]@[jj]),
                        decreases n - j,
                    {
                        let vb = rows[b.0][j];
                        let va = rows[a.0][j];
                        nrow.push(vb != va);
                        j = j + 1;
                    }
                    proof {
                        assert(nrow@ =~= xor_rows(rows@[b.0 as int]@, rows@[a.0 as int]@));
                    }
                    rows.set(b.0, nrow);
                    proof {
                        let after = rows_after(orig.subrange(0, i + 1), n as nat);
                        let before = rows_after(pre, n as nat);
                        assert(after == rows_step(before, orig[i as int]));
                        assert forall|rr: int| 0 <= rr < n implies (#[trigger] rows@[rr])@
                            == after[rr] by {
                            if rr == b.0 as int {
                                assert(rows@[rr]@ =~= xor_rows(before[rr], before[a.0 as int]));
                            }
                        }
                        assert(gadgets_of(orig.subrange(0, i + 1), n as nat) =~= gadgets_of(
                            pre,
                            n as nat,
                        ));
                    }
                },
                Gate::Phase(p, q) => {
                    proof {
                        assert(g.touches(q));
                        assert(gate_span(orig[i as int]) <= n as nat);
                    }
                    let parity = copy_bools(&rows[q.0]);
                    gad_p.push(p);
                    gad_c.push(parity);
                    proof {
                        assert(gadgets_of(orig.subrange(0, i + 1), n as nat) =~= gadgets_of(
                            pre,
                            n as nat,
                        ) + seq![(p, rows_after(pre, n as nat)[q.0 as int])]);
                        assert(rows_after(orig.subrange(0, i + 1), n as nat) == rows_after(
                            pre,
                            n as nat,
                        ));
                    }
                },
                _ => {
                    proof {
                        assert(gadgets_of(orig.subrange(0, i + 1), n as nat) =~= gadgets_of(
                            pre,
                            n as nat,
                        ));
                        assert(rows_after(orig.subrange(0, i + 1), n as nat) == rows_after(
                            pre,
                            n as nat,
                        ));
                    }
                },
            }
            i = i + 1;
        }
        proof {
            assert(orig.subrange(0, orig.len() as int) =~= orig);
        }
        let ghost gs = gadgets_of(orig, n as nat);

        // the identity map used before rows are pruned
        let mut idmap: Vec<usize> = Vec::new();
        let mut j: usize = 0;
        while j < n
            invariant
                0 <= j <= n,
                idmap@.len() == j,
                forall|jj: int| 0 <= jj < j ==> (#[trigger] idmap@[jj]) == jj as usize,
            decreases n - j,
        {
            idmap.push(j);
            j = j + 1;
        }
        proof {
            assert(idmap@ =~= id_map(n as nat));
        }

        // split every gadget into Clifford remainder and T content
        let mut cliffords: Vec<Gate> = Vec::new();
        let mut out_t: Vec<Gate> = Vec::new();
        let mut columns: Vec<Vec<bool>> = Vec::new();
        let mut g: usize = 0;
        proof {
            assert(cliffords@ =~= clifford_parts(gs.subrange(0, 0), n as nat));
            assert(out_t@ =~= t_parts(gs.subrange(0, 0), n as nat));
            assert(columns@.map_values(|c: Vec<bool>| c@) =~= nc_cols(gs.subrange(0, 0)));
        }
        while g < gad_p.len()
            invariant
                0 <= g <= gs.len(),
                gad_p@.len() == gs.len(),
                gad_c@.len() == gs.len(),
                n == seq_qubits(orig),
                forall|gg: int| 0 <= gg < gs.len() ==> (#[trigger] gad_p@[gg]) == gs[gg].0,
                forall|gg: int| 0 <= gg < gs.len() ==> (#[trigger] gad_c@[gg])@ == gs[gg].1,
                forall|gg: int|
                    0 <= gg < gs.len() ==> (#[trigger] gs[gg]).0.0 < 8 && gs[gg].1.len()
                        == n as nat,
                idmap@ == id_map(n as nat),
                cliffords@ == clifford_parts(gs.subrange(0, g as int), n as nat),
                out_t@ == t_parts(gs.subrange(0, g as int), n as nat),
                columns@.map_values(|c: Vec<bool>| c@) == nc_cols(gs.subrange(0, g as int)),
                forall|cc: int| 0 <= cc < columns@.len() ==> (#[trigger] columns@[cc])@.len() == n,
                gates_wf(cliffords@),
                gates_wf(out_t@),
            decreases gs.len() - g,
        {
            let p = gad_p[g];
            proof {
                assert(gs.subrange(0, g + 1).drop_last() =~= gs.subrange(0, g as int));
                assert(gs.subrange(0, g + 1).last() == gs[g as int]);
                assert(forall|jj: int|
                    0 <= jj < id_map(n as nat).len() ==> (#[trigger] id_map(n as nat)[jj]) < usize::MAX);
            }
            if p.is_clifford() {
                push_gadget(&mut cliffords, p, &gad_c[g], &idmap);
                proof {
                    assert(cliff_residue(gs[g as int].0) == p);
                    assert(out_t@ =~= t_parts(gs.subrange(0, g + 1), n as nat));
                    assert(columns@.map_values(|c: Vec<bool>| c@) =~= nc_cols(
                        gs.subrange(0, g + 1),
                    ));
                }
            } else {
                let pm = p.sub(Phase(1));
                proof {
                    assert(pm == cliff_residue(gs[g as int].0)) by {
                        assert(pm.0 == (p.0 + 8 - 1) % 8);
                        assert((p.0 + 8 - 1) % 8 == (p.0 + 7) % 8);
                    }
                }
                push_gadget(&mut cliffords, pm, &gad_c[g], &idmap);
                push_gadget(&mut out_t, Phase(1), &gad_c[g], &idmap);
                let col_copy = copy_bools(&gad_c[g]);
                columns.push(col_copy);
                proof {
                    assert(columns@.map_values(|c: Vec<bool>| c@) =~= nc_cols(
                        gs.subrange(0, g as int),
                    ).push(gs[g as int].1));
                    assert(nc_cols(gs.subrange(0, g + 1)) =~= nc_cols(
                        gs.subrange(0, g as int),
                    ).push(gs[g as int].1));
                }
            }
            g = g + 1;
        }
        proof {
            assert(gs.subrange(0, gs.len() as int) =~= gs);
        }
        append_gates(&mut cliffords, &cnots);
        let ghost cols = nc_cols(gs);

        // prune the identically-zero rows
        let mut live_flags: Vec<bool> = Vec::new();
        let mut r1: usize = 0;
        while r1 < n
            invariant
                0 <= r1 <= n,
                live_flags@.len() == r1,
                columns@.map_values(|c: Vec<bool>| c@) == cols,
                forall|cc: int| 0 <= cc < columns@.len() ==> (#[trigger] columns@[cc])@.len() == n,
                forall|rr: int| 0 <= rr < r1 ==> (#[trigger] live_flags@[rr]) == live_row(cols, rr),
            decreases n - r1,
        {
            let mut any = false;
            let mut c: usize = 0;
            while c < columns.len()
                invariant
                    0 <= c <= columns@.len(),
                    r1 < n,
                    columns@.map_values(|cv: Vec<bool>| cv@) == cols,
                    forall|cc: int|
                        0 <= cc < columns@.len() ==> (#[trigger] columns@[cc])@.len() == n,
                    any ==> live_row(cols, r1 as int),
                    !any ==> forall|cc: int| 0 <= cc < c ==> !(#[trigger] cols[cc])[r1 as int],
                decreases columns@.len() - c,
            {
                if columns[c][r1] {
                    proof {
                        assert(cols[c as int] == columns@[c as int]@);
                        assert((cols[c as int])[r1 as int]);
                    }
                    any = true;
                }
                c = c + 1;
            }
            live_flags.push(any);
            r1 = r1 + 1;
        }

        let mut mapping: Vec<usize> = Vec::new();
        let mut r2: usize = 0;
        proof {
            assert(mapping@ =~= live_rows(cols, 0));
        }
        while r2 < n
            invariant
                0 <= r2 <= n,
                live_flags@.len() == n,
                forall|rr: int| 0 <= rr < n ==> (#[trigger] live_flags@[rr]) == live_row(cols, rr),
                mapping@ == live_rows(cols, r2 as nat),
                forall|rr: int| 0 <= rr < mapping@.len() ==> (#[trigger] mapping@[rr]) < n,
            decreases n - r2,
        {
            if live_flags[r2] {
                mapping.push(r2);
                proof {
                    assert(mapping@ =~= live_rows(cols, (r2 + 1) as nat));
                }
            } else {
                proof {
                    assert(mapping@ =~= live_rows(cols, (r2 + 1) as nat));
                }
            }
            r2 = r2 + 1;
        }
        let ghost live = live_rows(cols, n as nat);

        let mut mat = BoolMat::new(mapping.len());
        let mut c: usize = 0;
        proof {
            assert(mat.view_cols() =~= prune_cols(cols.subrange(0, 0), live));
        }
        while c < columns.len()
            invariant
                0 <= c <= columns@.len(),
                columns@.map_values(|cv: Vec<bool>| cv@) == cols,
                forall|cc: int| 0 <= cc < columns@.len() ==> (#[trigger] columns@[cc])@.len() == n,
                mapping@ == live,
                forall|rr: int| 0 <= rr < mapping@.len() ==> (#[trigger] mapping@[rr]) < n,
                mat.wf(),
                mat.rows == mapping@.len(),
                mat.view_cols() == prune_cols(cols.subrange(0, c as int), live),
            decreases columns@.len() - c,
        {
            let mut pcol: Vec<bool> = Vec::new();
            let mut ri: usize = 0;
            while ri < mapping.len()
                invariant
                    0 <= ri <= mapping@.len(),
                    c < columns@.len(),
                    columns@.map_values(|cv: Vec<bool>| cv@) == cols,
                    forall|cc: int|
                        0 <= cc < columns@.len() ==> (#[trigger] columns@[cc])@.len() == n,
                    forall|rr: int| 0 <= rr < mapping@.len() ==> (#[trigger] mapping@[rr]) < n,
                    pcol@.len() == ri,
                    forall|rr: int|
                        0 <= rr < ri ==> (#[trigger] pcol@[rr]) == cols[c as int][mapping@[rr] as int],
                decreases mapping@.len() - ri,
            {
                proof {
                    assert(cols[c as int] == columns@[c as int]@);
                }
                pcol.push(columns[c][mapping[ri]]);
                ri = ri + 1;
            }
            proof {
                assert(pcol@ =~= prune_col(cols[c as int], live));
            }
            mat.push_col(pcol);
            proof {
                assert(mat.view_cols() =~= prune_cols(cols.subrange(0, c + 1), live)) by {
                    assert(cols.subrange(0, c + 1) =~= cols.subrange(0, c as int).push(
                        cols[c as int],
                    ));
                    assert(prune_cols(cols.subrange(0, c as int).push(cols[c as int]), live)
                        =~= prune_cols(cols.subrange(0, c as int), live).push(
                        prune_col(cols[c as int], live),
                    ));
                }
            }
            c = c + 1;
        }
        proof {
            assert(cols.subrange(0, cols.len() as int) =~= cols);
        }

        self.gates = out_t;
        proof {
            lemma_t_parts_shape(gs, n as nat);
        }
        (mapping, mat, Circuit { gates: cliffords })
    }
}

/// Relies on rand's `SliceRandom::shuffle`: an in-place permutation of
/// the slice, drawn from the thread-local generator.  Nothing is assumed
/// about which permutation comes out.
#[verifier::external_body]
fn shuffle_usizes(v: &mut Vec<usize>)
    ensures
        final(v)@.to_multiset() == old(v)@.to_multiset(),
        final(v)@.len() == old(v)@.len(),
{
    v.shuffle(&mut rand::rng());
}

/// The total H cost of the blocks with indices in `[a, b)`.
pub open spec fn blocks_h_sum(bs: Seq<Circuit>, a: int, b: int) -> nat
    decreases b - a,
{
    if a >= b {
        0
    } else {
        count_h(bs[a].gates@) + blocks_h_sum(bs, a + 1, b)
    }
}

/// The concatenated gates of the blocks with indices in `[a, b)`.
pub open spec fn blocks_cat(bs: Seq<Circuit>, a: int, b: int) -> Seq<Gate>
    decreases b - a,
{
    if a >= b {
        Seq::empty()
    } else {
        bs[a].gates@ + blocks_cat(bs, a + 1, b)
    }
}

/// A valid merge plan over the block list: each entry is (cost, start,
/// end); the spans are nonempty, contiguous and cover the list, the cost
/// is the H sum of the span, every merged span fits the budget, and the
/// Clifford blocks at odd plan positions are single original blocks.
pub open spec fn spans_ok(
    spans: Seq<(usize, usize, usize)>,
    bs: Seq<Circuit>,
    budget: usize,
) -> bool {
    &&& spans.len() == 0 ==> bs.len() == 0
    &&& spans.len() > 0 ==> spans[0].1 == 0 && spans.last().2 == bs.len()
    &&& forall|k: int| 0 <= k < spans.len() ==> (#[trigger] spans[k]).1 < spans[k].2 <= bs.len()
    &&& forall|k: int| 0 <= k < spans.len() - 1 ==> (#[trigger] spans[k]).2 == spans[k + 1].1
    &&& forall|k: int|
        0 <= k < spans.len() ==> (#[trigger] spans[k]).0 == blocks_h_sum(
            bs,
            spans[k].1 as int,
            spans[k].2 as int,
        )
    &&& forall|k: int|
        0 <= k < spans.len() ==> (#[trigger] spans[k]).2 == spans[k].1 + 1 || spans[k].0 <= budget
    &&& forall|k: int| 0 <= k < spans.len() ==> (#[trigger] spans[k]).1 % 2 == k % 2
    &&& forall|k: int|
        0 <= k < spans.len() && k % 2 == 1 ==> (#[trigger] spans[k]).2 == spans[k].1 + 1
}

/// The shuffled junction list still holds the value `u`.
spec fn perm_covers(perm: Seq<usize>, u: int) -> bool {
    exists|jj: int| 0 <= jj < perm.len() && perm[jj] == u
}

/// No junction's three spans fit the budget together: the randomized
/// greedy merging has reached its fixpoint.
pub open spec fn merge_fixpoint(spans: Seq<(usize, usize, usize)>, budget: usize) -> bool {
    forall|k: int|
        0 < k < spans.len() - 1 && k % 2 == 1 ==> (#[trigger] spans[k]).0 + spans[k - 1].0
            + spans[k + 1].0 > budget
}

proof fn lemma_blocks_cat_concat(bs: Seq<Circuit>, a: int, m: int, b: int)
    requires
        a <= m <= b,
    ensures
        blocks_cat(bs, a, b) == blocks_cat(bs, a, m) + blocks_cat(bs, m, b),
    decreases m - a,
{
    if a >= m {
        assert(blocks_cat(bs, a, m) + blocks_cat(bs, m, b) =~= blocks_cat(bs, a, b));
    } else {
        lemma_blocks_cat_concat(bs, a + 1, m, b);
        assert(bs[a].gates@ + (blocks_cat(bs, a + 1, m) + blocks_cat(bs, m, b)) =~= (bs[a].gates@
            + blocks_cat(bs, a + 1, m)) + blocks_cat(bs, m, b));
    }
}

proof fn lemma_blocks_gates_is_cat(bs: Seq<Circuit>)
    ensures
        blocks_gates(bs) == blocks_cat(bs, 0, bs.len() as int),
    decreases bs.len(),
{
    if bs.len() == 0 {
    } else {
        lemma_blocks_gates_is_cat(bs.drop_last());
        assert(forall|i: int|
            0 <= i < bs.drop_last().len() ==> bs.drop_last()[i] == #[trigger] bs[i]);
        lemma_blocks_cat_same(bs.drop_last(), bs, 0, bs.len() - 1);
        lemma_blocks_cat_concat(bs, 0, bs.len() - 1, bs.len() as int);
        assert(blocks_cat(bs, bs.len() as int, bs.len() as int) =~= Seq::<Gate>::empty());
        assert(blocks_cat(bs, bs.len() - 1, bs.len() as int) == bs[bs.len() - 1].gates@
            + blocks_cat(bs, bs.len() as int, bs.len() as int));
        assert(blocks_cat(bs, bs.len() - 1, bs.len() as int) =~= bs.last().gates@);
    }
}

/// Two block lists that agree on `[a, b)` concatenate the same gates.
proof fn lemma_blocks_cat_same(bs1: Seq<Circuit>, bs2: Seq<Circuit>, a: int, b: int)
    requires
        b <= bs1.len() && b <= bs2.len(),
        forall|i: int| a <= i < b ==> #[trigger] bs1[i] == bs2[i],
    ensures
        blocks_cat(bs1, a, b) == blocks_cat(bs2, a, b),
    decreases b - a,
{
    if a >= b {
    } else {
        lemma_blocks_cat_same(bs1, bs2, a + 1, b);
    }
}

proof fn lemma_blocks_h_sum_concat(bs: Seq<Circuit>, a: int, m: int, b: int)
    requires
        a <= m <= b,
    ensures
        blocks_h_sum(bs, a, b) == blocks_h_sum(bs, a, m) + blocks_h_sum(bs, m, b),
    decreases m - a,
{
    if a >= m {
    } else {
        lemma_blocks_h_sum_concat(bs, a + 1, m, b);
    }
}

/// Copy a span list.
fn copy_spans(v: &Vec<(usize, usize, usize)>) -> (r: Vec<(usize, usize, usize)>)
    ensures
        r@ == v@,
{
    let mut r: Vec<(usize, usize, usize)> = Vec::new();
    let mut i: usize = 0;
    while i < v.len()
        invariant
            0 <= i <= v@.len(),
            r@.len() == i,
            forall|j: int| 0 <= j < i ==> r@[j] == v@[j],
        decreases v@.len() - i,
    {
        r.push(v[i]);
        i = i + 1;
    }
    proof {
        assert(r@ =~= v@);
    }
    r
}

impl PartitionedCircuit {
    /// Merge as many blocks as possible while keeping the Hadamard cost
    /// of each merged group within `budget`, by randomized greedy search
    /// over `iters` independent attempts.
    ///
    /// The returned count is the resulting number of blocks.  The blocks
    /// afterward concatenate, group by group, to exactly the old blocks:
    /// some valid merge plan over the old block list describes them, so
    /// the reassembled circuit is unchanged, and every merged group costs
    /// at most `budget` (a lone block over budget is left alone, never
    /// dropped).
    #[verifier::rlimit(100)]
    pub fn pick_gadgets(&mut self, budget: usize, iters: usize) -> (r: usize)
        requires
            old(self).wf(),
        ensures
            final(self).wf(),
            r == final(self).blocks@.len(),
            final(self).front == old(self).front,
            final(self).back == old(self).back,
            final(self).reassemble() == old(self).reassemble(),
            exists|spans: Seq<(usize, usize, usize)>|
                #[trigger] spans_ok(spans, old(self).blocks@, budget) && final(self).blocks@.len()
                    == spans.len() && (iters >= 1 ==> merge_fixpoint(spans, budget)) && (forall|
                    k: int,
                |
                    0 <= k < spans.len() ==> (#[trigger] final(self).blocks@[k]).gates@
                        == blocks_cat(
                        old(self).blocks@,
                        spans[k].1 as int,
                        spans[k].2 as int,
                    )),
    {
        let ghost bs = self.blocks@;
        if self.blocks.len() == 0 {
            proof {
                let spans = Seq::<(usize, usize, usize)>::empty();
                assert(spans_ok(spans, bs, budget));
                assert(merge_fixpoint(spans, budget));
            }
            return 0;
        }
        if self.blocks.len() == 1 {
            let c0 = self.blocks[0].count_hadamards();
            proof {
                let spans = seq![(c0, 0usize, 1usize)];
                assert(blocks_h_sum(bs, 1, 1) == 0);
                assert(blocks_h_sum(bs, 0, 1) == count_h(bs[0].gates@) + blocks_h_sum(bs, 1, 1));
                assert(spans[0].0 == blocks_h_sum(bs, 0, 1));
                assert(spans_ok(spans, bs, budget));
                assert(merge_fixpoint(spans, budget));
                assert(blocks_cat(bs, 1, 1) =~= Seq::<Gate>::empty());
                assert(blocks_cat(bs, 0, 1) =~= bs[0].gates@);
                assert(forall|k: int|
                    0 <= k < spans.len() ==> (#[trigger] self.blocks@[k]).gates@ == blocks_cat(
                        bs,
                        spans[k].1 as int,
                        spans[k].2 as int,
                    ));
            }
            return 1;
        }

        // one span per block, with its Hadamard cost
        let mut init: Vec<(usize, usize, usize)> = Vec::new();
        let mut i: usize = 0;
        while i < self.blocks.len()
            invariant
                0 <= i <= bs.len(),
                self.blocks@ == bs,
                init@.len() == i,
                forall|k: int|
                    0 <= k < i ==> (#[trigger] init@[k]) == (
                        count_h(bs[k].gates@) as usize,
                        k as usize,
                        (k + 1) as usize,
                    ),
                forall|k: int| 0 <= k < i ==> count_h((#[trigger] bs[k]).gates@) <= usize::MAX,
            decreases bs.len() - i,
        {
            let c = self.blocks[i].count_hadamards();
            init.push((c, i, i + 1));
            i = i + 1;
        }
        proof {
            lemma_spans_init_ok(init@, bs, budget);
        }

        let mut best = copy_spans(&init);
        let mut best_cost = best.len();

        let mut it: usize = 0;
        while it < iters
            invariant
                self.blocks@ == bs,
                init@.len() == bs.len(),
                forall|k: int|
                    0 <= k < bs.len() ==> (#[trigger] init@[k]) == (
                        count_h(bs[k].gates@) as usize,
                        k as usize,
                        (k + 1) as usize,
                    ),
                forall|k: int| 0 <= k < bs.len() ==> count_h((#[trigger] bs[k]).gates@) <= usize::MAX,
                bs.len() <= usize::MAX,
                spans_ok(best@, bs, budget),
                best_cost == best@.len(),
                best@.len() > 0,
                it == 0 ==> best@ == init@,
                it > 0 ==> merge_fixpoint(best@, budget),
            decreases iters - it,
        {
            let mut run = copy_spans(&init);
            proof {
                lemma_spans_init_ok(run@, bs, budget);
            }
            let ghost init_v = init@;
            // merge junctions until none fits the budget
            loop
                invariant
                    spans_ok(run@, bs, budget),
                    run@.len() > 0,
                    run@ == init_v || run@.len() < init_v.len(),
                ensures
                    spans_ok(run@, bs, budget),
                    run@.len() > 0,
                    run@ == init_v || run@.len() < init_v.len(),
                    merge_fixpoint(run@, budget),
                decreases run@.len(),
            {
                let mut perm: Vec<usize> = Vec::new();
                let mut v: usize = 1;
                while v < run.len() - 1
                    invariant
                        run@.len() > 0,
                        v % 2 == 1,
                        v == 2 * perm@.len() + 1,
                        forall|w: int| 0 <= w < perm@.len() ==> (#[trigger] perm@[w]) == 2 * w + 1,
                        forall|k: int|
                            0 <= k < perm@.len() ==> (#[trigger] perm@[k]) % 2 == 1 && 1
                                <= perm@[k] && perm@[k] + 1 < run@.len(),
                    decreases run@.len() - v,
                {
                    perm.push(v);
                    v = v + 2;
                }
                let ghost perm0 = perm@;
                let ghost len0 = run@.len();
                shuffle_usizes(&mut perm);
                proof {
                    broadcast use vstd::seq_lib::group_to_multiset_ensures;

                    assert forall|k: int| 0 <= k < perm@.len() implies (#[trigger] perm@[k]) % 2
                        == 1 && 1 <= perm@[k] && perm@[k] + 1 < run@.len() by {
                        assert(perm@.contains(perm@[k])) by {
                            assert(perm@.to_multiset().count(perm@[k]) > 0);
                        }
                        assert(perm0.to_multiset().count(perm0[choose|w: int|
                            0 <= w < perm0.len() && perm0[w] == perm@[k]]) > 0);
                        assert(perm0.contains(perm@[k]));
                    }
                    // the permutation still covers every odd junction
                    assert forall|u: int|
                        1 <= u && u + 1 < len0 && u % 2 == 1 implies #[trigger] perm_covers(
                        perm@,
                        u,
                    ) by {
                        let w = (u - 1) / 2;
                        assert(2 * w + 1 == u);
                        assert(w < perm0.len());
                        assert(perm0[w] == u);
                        assert(perm0.contains(u as usize));
                        assert(perm0.to_multiset().count(u as usize) > 0);
                        assert(perm@.to_multiset().count(u as usize) > 0);
                        assert(perm@.contains(u as usize));
                        let jj = choose|jj: int|
                            0 <= jj < perm@.len() && #[trigger] perm@[jj] == u as usize;
                        assert(perm@[jj] == u);
                        assert(perm_covers(perm@, u));
                    }
                }
                let mut merged = false;
                let mut j: usize = 0;
                while j < perm.len() && !merged
                    invariant
                        0 <= j <= perm@.len(),
                        forall|k: int|
                            0 <= k < perm@.len() ==> (#[trigger] perm@[k]) % 2 == 1 && 1
                                <= perm@[k] && perm@[k] + 1 < len0,
                        !merged ==> run@.len() == len0,
                        merged ==> run@.len() < len0,
                        len0 <= usize::MAX,
                        spans_ok(run@, bs, budget),
                        run@.len() > 0,
                        run@ == init_v || run@.len() < init_v.len(),
                        !merged ==> forall|jj: int|
                            0 <= jj < j ==> run@[#[trigger] perm@[jj] - 1].0 + run@[perm@[jj] as int].0
                                + run@[perm@[jj] + 1].0 > budget,
                    decreases perm@.len() - j,
                {
                    let idx = perm[j];
                    proof {
                        assert(perm@[j as int] % 2 == 1 && 1 <= perm@[j as int] && perm@[j as int]
                            + 1 < len0);
                    }
                    let c1 = run[idx - 1].0;
                    let c2 = run[idx].0;
                    let c3 = run[idx + 1].0;
                    if c1 <= budget && c2 <= budget - c1 && c3 <= budget - c1 - c2 {
                        let ghost run0 = run@;
                        let a = run[idx - 1].1;
                        let b = run[idx + 1].2;
                        let e2 = run.remove(idx + 1);
                        let e1 = run.remove(idx);
                        run.set(idx - 1, (c1 + c2 + c3, a, b));
                        merged = true;
                        proof {
                            lemma_spans_merge_ok(run0, run@, bs, budget, idx as int);
                        }
                    } else {
                        proof {
                            assert(run@[idx - 1].0 + run@[idx as int].0 + run@[idx + 1].0
                                > budget);
                        }
                    }
                    j = j + 1;
                }
                if !merged {
                    proof {
                        assert(run@.len() == len0);
                        assert forall|k: int|
                            0 < k < run@.len() - 1 && k % 2 == 1 implies (#[trigger] run@[k]).0
                                + run@[k - 1].0 + run@[k + 1].0 > budget by {
                            assert(perm_covers(perm@, k));
                            let jj = choose|jj: int|
                                0 <= jj < perm@.len() && #[trigger] perm@[jj] == k;
                            assert(run@[perm@[jj] - 1].0 + run@[perm@[jj] as int].0 + run@[perm@[jj]
                                + 1].0 > budget);
                        }
                        assert(merge_fixpoint(run@, budget));
                    }
                    break ;
                }
            }
            let cost = run.len();
            if cost < best_cost {
                best_cost = cost;
                best = run;
            } else {
                proof {
                    // the attempt merged nothing, so the initial plan is
                    // already a fixpoint, and so is the kept best
                    if it == 0 {
                        assert(run@ == init_v);
                        assert(merge_fixpoint(best@, budget));
                    }
                }
            }
            if best_cost == 1 {
                it = iters;
            } else {
                it = it + 1;
            }
        }
        proof {
            if iters >= 1 {
                assert(merge_fixpoint(best@, budget));
            }
        }

        // concatenate the winning groups
        let ghost spans = best@;
        let mut nblocks: Vec<Circuit> = Vec::new();
        let mut k: usize = 0;
        while k < best.len()
            invariant
                0 <= k <= best@.len(),
                self.blocks@ == bs,
                best@ == spans,
                spans_ok(spans, bs, budget),
                nblocks@.len() == k,
                forall|kk: int|
                    0 <= kk < k ==> (#[trigger] nblocks@[kk]).gates@ == blocks_cat(
                        bs,
                        spans[kk].1 as int,
                        spans[kk].2 as int,
                    ),
            decreases best@.len() - k,
        {
            let (_, a, b) = best[k];
            let mut circuit = Circuit::empty();
            let mut m: usize = a;
            proof {
                assert(blocks_cat(bs, a as int, a as int) =~= Seq::<Gate>::empty());
            }
            while m < b
                invariant
                    k < best@.len(),
                    best@ == spans,
                    spans_ok(spans, bs, budget),
                    (a, b) == (spans[k as int].1, spans[k as int].2),
                    a <= m <= b <= bs.len(),
                    self.blocks@ == bs,
                    circuit.gates@ == blocks_cat(bs, a as int, m as int),
                decreases b - m,
            {
                append_gates(&mut circuit.gates, &self.blocks[m].gates);
                proof {
                    lemma_blocks_cat_concat(bs, a as int, m as int, m + 1);
                    assert(blocks_cat(bs, m + 1, m + 1) =~= Seq::<Gate>::empty());
                    assert(blocks_cat(bs, m as int, m + 1) =~= bs[m as int].gates@);
                }
                m = m + 1;
            }
            nblocks.push(circuit);
            k = k + 1;
        }
        let ghost old_blocks = self.blocks@;
        self.blocks = nblocks;
        let r = self.blocks.len();

        proof {
            // the reassembled gates are unchanged
            lemma_blocks_gates_is_cat(bs);
            lemma_spans_cover(spans, bs, budget, self.blocks@);
            // well-formedness carries over span by span
            assert forall|k2: int| 0 <= k2 < self.blocks@.len() implies (
            #[trigger] self.blocks@[k2]).wf() by {
                lemma_blocks_cat_wf(bs, spans[k2].1 as int, spans[k2].2 as int);
            }
            assert forall|k2: int| 0 <= k2 < self.blocks@.len() && k2 % 2 == 1 implies all_clifford(
                (#[trigger] self.blocks@[k2]).gates@,
            ) by {
                assert(spans[k2].2 == spans[k2].1 + 1);
                assert(spans[k2].1 % 2 == 1);
                let a2 = spans[k2].1 as int;
                assert(blocks_cat(bs, a2 + 1, a2 + 1) =~= Seq::<Gate>::empty());
                assert(blocks_cat(bs, a2, a2 + 1) =~= bs[a2].gates@);
                assert(self.blocks@[k2].gates@ == bs[a2].gates@);
            }
        }
        r
    }
}

impl PartitionedCircuit {
    /// Generate qubit maps and gate synthesis matrices for all functional
    /// blocks.  Each even block is left holding only its T gadgets; its
    /// Clifford remainder and linear map are prepended to the following
    /// Clifford block, or to `back` for the last block.
    #[verifier::rlimit(100)]
    pub fn extract_gadgets(&mut self) -> (r: Vec<(Vec<usize>, BoolMat)>)
        requires
            old(self).wf(),
            forall|k: int|
                0 <= k < old(self).blocks@.len() && k % 2 == 0 ==> cnot_phase_only(
                    (#[trigger] old(self).blocks@[k]).gates@,
                ),
        ensures
            final(self).wf(),
            final(self).blocks@.len() == old(self).blocks@.len(),
            final(self).front == old(self).front,
            r@.len() == (old(self).blocks@.len() + 1) / 2,
            ({
                let bs = old(self).blocks@;
                &&& forall|k: int|
                    0 <= k < bs.len() && k % 2 == 0 ==> {
                        let n = seq_qubits(bs[k].gates@);
                        let gs = gadgets_of(bs[k].gates@, n);
                        (#[trigger] final(self).blocks@[k]).gates@ == t_parts(gs, n)
                            && r@[k / 2].0@ == live_rows(nc_cols(gs), n) && r@[k / 2].1.view_cols()
                            == prune_cols(nc_cols(gs), live_rows(nc_cols(gs), n)) && r@[k / 2].1.rows
                            == live_rows(nc_cols(gs), n).len() && r@[k / 2].1.wf()
                    }
                &&& forall|k: int|
                    0 <= k < bs.len() && k % 2 == 1 ==> {
                        let n = seq_qubits(bs[k - 1].gates@);
                        let gs = gadgets_of(bs[k - 1].gates@, n);
                        (#[trigger] final(self).blocks@[k]).gates@ == clifford_parts(gs, n)
                            + cnots_of(bs[k - 1].gates@) + bs[k].gates@
                    }
                &&& final(self).back.gates@ == if bs.len() % 2 == 1 {
                    let n = seq_qubits(bs[bs.len() - 1].gates@);
                    let gs = gadgets_of(bs[bs.len() - 1].gates@, n);
                    clifford_parts(gs, n) + cnots_of(bs[bs.len() - 1].gates@) + old(
                        self,
                    ).back.gates@
                } else {
                    old(self).back.gates@
                }
            }),
    {
        let ghost bs = self.blocks@;
        let mut r: Vec<(Vec<usize>, BoolMat)> = Vec::new();
        let mut cliffs: Vec<Circuit> = Vec::new();
        let mut k: usize = 0;
        while k < self.blocks.len()
            invariant
                bs == old(self).blocks@,
                0 <= k <= bs.len(),
                self.blocks@.len() == bs.len(),
                self.front == old(self).front,
                self.back == old(self).back,
                forall|kk: int| 0 <= kk < bs.len() ==> (#[trigger] bs[kk]).wf(),
                forall|kk: int| k <= kk < bs.len() ==> (#[trigger] self.blocks@[kk]) == bs[kk],
                forall|kk: int|
                    0 <= kk < bs.len() && kk % 2 == 1 ==> (#[trigger] self.blocks@[kk]) == bs[kk],
                forall|kk: int|
                    0 <= kk < bs.len() && kk % 2 == 0 ==> cnot_phase_only(
                        (#[trigger] bs[kk]).gates@,
                    ),
                r@.len() == (k + 1) / 2,
                cliffs@.len() == r@.len(),
                forall|kk: int|
                    0 <= kk < k && kk % 2 == 0 ==> {
                        let n = seq_qubits(bs[kk].gates@);
                        let gs = gadgets_of(bs[kk].gates@, n);
                        (#[trigger] self.blocks@[kk]).gates@ == t_parts(gs, n) && self.blocks@[kk].wf()
                            && r@[kk / 2].0@ == live_rows(nc_cols(gs), n) && r@[kk / 2].1.view_cols()
                            == prune_cols(nc_cols(gs), live_rows(nc_cols(gs), n))
                            && r@[kk / 2].1.rows == live_rows(nc_cols(gs), n).len()
                            && r@[kk / 2].1.wf() && cliffs@[kk / 2].gates@ == clifford_parts(gs, n)
                            + cnots_of(bs[kk].gates@) && cliffs@[kk / 2].wf() && all_clifford(
                            cliffs@[kk / 2].gates@,
                        )
                    },
            decreases bs.len() - k,
        {
            if k % 2 == 0 {
                let ghost b0 = self.blocks@;
                let mut blk = self.blocks.remove(k);
                let (mapping, mat, cliff) = blk.extract_gadgets();
                self.blocks.insert(k, blk);
                proof {
                    assert forall|kk: int| 0 <= kk < bs.len() && kk != k implies self.blocks@[kk]
                        == b0[kk] by {
                        if kk < k {
                            assert(b0.remove(k as int)[kk] == b0[kk]);
                        } else {
                            assert(b0.remove(k as int)[kk - 1] == b0[kk]);
                        }
                    }
                    assert(self.blocks@[k as int] == blk);
                }
                let ghost r0 = r@;
                let ghost cl0 = cliffs@;
                r.push((mapping, mat));
                proof {
                    let n = seq_qubits(bs[k as int].gates@);
                    let gs = gadgets_of(bs[k as int].gates@, n);
                    lemma_clifford_parts_clifford(gs, n);
                    lemma_cnots_clifford(bs[k as int].gates@);
                    assert forall|i: int| 0 <= i < cliff.gates@.len() implies (
                    #[trigger] cliff.gates@[i]).spec_is_clifford() by {
                        if i < clifford_parts(gs, n).len() {
                            assert(cliff.gates@[i] == clifford_parts(gs, n)[i]);
                        } else {
                            assert(cliff.gates@[i] == cnots_of(bs[k as int].gates@)[i
                                - clifford_parts(gs, n).len()]);
                        }
                    }
                }
                cliffs.push(cliff);
                proof {
                    let n = seq_qubits(bs[k as int].gates@);
                    let gs = gadgets_of(bs[k as int].gates@, n);
                    assert(self.blocks@[k as int].gates@ == t_parts(gs, n));
                    assert(r@[k as int / 2].0@ == live_rows(nc_cols(gs), n));
                    assert(r@[k as int / 2].1.view_cols() == prune_cols(
                        nc_cols(gs),
                        live_rows(nc_cols(gs), n),
                    ));
                    assert(cliffs@[k as int / 2].gates@ == clifford_parts(gs, n) + cnots_of(
                        bs[k as int].gates@,
                    ));
                    assert(all_clifford(cliffs@[k as int / 2].gates@));
                    assert(r@[k as int / 2].1.rows == live_rows(nc_cols(gs), n).len());
                    assert(r@[k as int / 2].1.wf());
                    assert(cliffs@[k as int / 2].wf());
                    assert(self.blocks@[k as int].wf());
                    assert forall|kk: int| 0 <= kk <= k && kk % 2 == 0 implies {
                        let n2 = seq_qubits(bs[kk].gates@);
                        let gs2 = gadgets_of(bs[kk].gates@, n2);
                        (#[trigger] self.blocks@[kk]).gates@ == t_parts(gs2, n2)
                            && self.blocks@[kk].wf() && r@[kk / 2].0@ == live_rows(
                            nc_cols(gs2),
                            n2,
                        ) && r@[kk / 2].1.view_cols() == prune_cols(
                            nc_cols(gs2),
                            live_rows(nc_cols(gs2), n2),
                        ) && r@[kk / 2].1.rows == live_rows(nc_cols(gs2), n2).len()
                            && r@[kk / 2].1.wf() && cliffs@[kk / 2].gates@ == clifford_parts(
                            gs2,
                            n2,
                        ) + cnots_of(bs[kk].gates@) && cliffs@[kk / 2].wf() && all_clifford(
                            cliffs@[kk / 2].gates@,
                        )
                    } by {
                        if kk < k {
                            assert(self.blocks@[kk] == b0[kk]);
                            assert(r@[kk / 2] == r0[kk / 2]);
                            assert(cliffs@[kk / 2] == cl0[kk / 2]);
                        }
                    }
                }
            }
            k = k + 1;
        }
        // prepend each block's Clifford remainder to the following block
        let mut k: usize = 0;
        while k + 1 < self.blocks.len()
            invariant
                bs == old(self).blocks@,
                old(self).wf(),
                0 <= k <= bs.len(),
                k % 2 == 0,
                self.blocks@.len() == bs.len(),
                self.front == old(self).front,
                self.back == old(self).back,
                forall|kk: int| 0 <= kk < bs.len() ==> (#[trigger] bs[kk]).wf(),
                cliffs@.len() == (bs.len() + 1) / 2,
                r@.len() == cliffs@.len(),
                forall|kk: int|
                    0 <= kk < bs.len() && kk % 2 == 0 ==> {
                        let n = seq_qubits(bs[kk].gates@);
                        let gs = gadgets_of(bs[kk].gates@, n);
                        (#[trigger] self.blocks@[kk]).gates@ == t_parts(gs, n) && self.blocks@[kk].wf()
                            && r@[kk / 2].0@ == live_rows(nc_cols(gs), n) && r@[kk / 2].1.view_cols()
                            == prune_cols(nc_cols(gs), live_rows(nc_cols(gs), n))
                            && r@[kk / 2].1.rows == live_rows(nc_cols(gs), n).len()
                            && r@[kk / 2].1.wf() && cliffs@[kk / 2].gates@ == clifford_parts(gs, n)
                            + cnots_of(bs[kk].gates@) && cliffs@[kk / 2].wf() && all_clifford(
                            cliffs@[kk / 2].gates@,
                        )
                    },
                forall|kk: int|
                    0 <= kk < bs.len() && kk % 2 == 1 && kk < k ==> (
                    #[trigger] self.blocks@[kk]).gates@ == cliffs@[(kk - 1) / 2].gates@
                        + bs[kk].gates@ && self.blocks@[kk].wf() && all_clifford(
                        self.blocks@[kk].gates@,
                    ),
                forall|kk: int|
                    0 <= kk < bs.len() && kk % 2 == 1 && kk >= k ==> (
                    #[trigger] self.blocks@[kk]) == bs[kk],
            decreases bs.len() - k,
        {
            proof {
                let n = seq_qubits(bs[k as int].gates@);
                let gs = gadgets_of(bs[k as int].gates@, n);
                assert(self.blocks@[k as int].gates@ == t_parts(gs, n));
                assert(all_clifford(cliffs@[k as int / 2].gates@));
                assert(cliffs@[k as int / 2].wf());
                assert(self.blocks@[k + 1] == bs[k + 1]);
                assert(old(self).blocks@[k + 1] == bs[k + 1]);
                assert(all_clifford(old(self).blocks@[k + 1].gates@));
                assert(all_clifford(bs[k + 1].gates@));
            }
            let mut nb = Circuit::empty();
            append_gates(&mut nb.gates, &cliffs[k / 2].gates);
            append_gates(&mut nb.gates, &self.blocks[k + 1].gates);
            proof {
                lemma_concat_clifford(cliffs@[k as int / 2].gates@, bs[k + 1].gates@);
                lemma_concat_wf(cliffs@[k as int / 2].gates@, bs[k + 1].gates@);
                assert(nb.gates@ =~= cliffs@[k as int / 2].gates@ + bs[k + 1].gates@);
            }
            let ghost nbv = nb;
            core::mem::swap(&mut self.blocks[k + 1], &mut nb);
            proof {
                assert(self.blocks@[k + 1] == nbv);
            }
            k = k + 2;
        }
        if self.blocks.len() % 2 == 1 {
            // last block is functional: its remainder goes to `back`
            let last = self.blocks.len() - 1;
            proof {
                let n = seq_qubits(bs[last as int].gates@);
                let gs = gadgets_of(bs[last as int].gates@, n);
                assert(self.blocks@[last as int].gates@ == t_parts(gs, n));
                assert(all_clifford(cliffs@[last as int / 2].gates@));
                assert(cliffs@[last as int / 2].wf());
                assert(all_clifford(old(self).back.gates@));
            }
            let ghost back0 = self.back.gates@;
            let mut nb = Circuit::empty();
            append_gates(&mut nb.gates, &cliffs[last / 2].gates);
            append_gates(&mut nb.gates, &self.back.gates);
            proof {
                lemma_concat_clifford(cliffs@[last as int / 2].gates@, back0);
                lemma_concat_wf(cliffs@[last as int / 2].gates@, back0);
                assert(nb.gates@ =~= cliffs@[last as int / 2].gates@ + back0);
            }
            self.back = nb;
        }
        proof {
            assert forall|kk: int| 0 <= kk < bs.len() && kk % 2 == 1 implies {
                let n = seq_qubits(bs[kk - 1].gates@);
                let gs = gadgets_of(bs[kk - 1].gates@, n);
                (#[trigger] final(self).blocks@[kk]).gates@ == clifford_parts(gs, n) + cnots_of(
                    bs[kk - 1].gates@,
                ) + bs[kk].gates@
            } by {
                let n = seq_qubits(bs[kk - 1].gates@);
                let gs = gadgets_of(bs[kk - 1].gates@, n);
                assert(self.blocks@[kk - 1].gates@ == t_parts(gs, n));
                assert(cliffs@[(kk - 1) / 2].gates@ == clifford_parts(gs, n) + cnots_of(
                    bs[kk - 1].gates@,
                ));
                assert(self.blocks@[kk].gates@ == cliffs@[(kk - 1) / 2].gates@ + bs[kk].gates@);
            }
            if bs.len() % 2 == 1 {
                let kk = bs.len() - 1;
                let n = seq_qubits(bs[kk].gates@);
                let gs = gadgets_of(bs[kk].gates@, n);
                assert(self.blocks@[kk].gates@ == t_parts(gs, n));
                assert(cliffs@[kk / 2].gates@ == clifford_parts(gs, n) + cnots_of(bs[kk].gates@));
            }
        }
        r
    }
}

/// Partition reassembly law: partitioning and then merging yields a
/// circuit reachable from the original by exchanging adjacent disjoint
/// gates, so both realize the same unitary; `partition` guarantees the
/// equivalence and `merge` concatenates exactly the partition's gates.
pub proof fn lemma_partition_reassembly(orig: Seq<Gate>, p: PartitionedCircuit, merged: Circuit)
    requires
        circuit_equiv(orig, p.reassemble()),
        merged.gates@ == p.reassemble(),
    ensures
        circuit_equiv(orig, merged.gates@),
{
}

/// A sequence holds at least as many gates as Hadamards.
proof fn lemma_count_h_le(s: Seq<Gate>)
    ensures
        count_h(s) <= s.len(),
    decreases s.len(),
{
    if s.len() == 0 {
    } else {
        lemma_count_h_le(s.drop_last());
    }
}

proof fn lemma_spans_init_ok(spans: Seq<(usize, usize, usize)>, bs: Seq<Circuit>, budget: usize)
    requires
        spans.len() == bs.len(),
        forall|k: int|
            0 <= k < bs.len() ==> (#[trigger] spans[k]) == (
                count_h(bs[k].gates@) as usize,
                k as usize,
                (k + 1) as usize,
            ),
        forall|k: int| 0 <= k < bs.len() ==> count_h((#[trigger] bs[k]).gates@) <= usize::MAX,
        bs.len() <= usize::MAX,
    ensures
        spans_ok(spans, bs, budget),
{
    assert forall|k: int| 0 <= k < spans.len() implies (#[trigger] spans[k]).0 == blocks_h_sum(
        bs,
        spans[k].1 as int,
        spans[k].2 as int,
    ) by {
        assert(count_h((bs[k]).gates@) <= usize::MAX);
        assert(blocks_h_sum(bs, k + 1, k + 1) == 0);
        assert(blocks_h_sum(bs, k, k + 1) == count_h(bs[k].gates@) + blocks_h_sum(bs, k + 1, k + 1));
    }
}

/// Merging the three spans around an odd junction keeps the plan valid.
proof fn lemma_merge_shape(
    run0: Seq<(usize, usize, usize)>,
    run1: Seq<(usize, usize, usize)>,
    idx: int,
    merged: (usize, usize, usize),
)
    requires
        1 <= idx && idx + 1 < run0.len(),
        run1 == run0.remove(idx + 1).remove(idx).update(idx - 1, merged),
    ensures
        run1.len() == run0.len() - 2,
        forall|k: int| 0 <= k < idx - 1 ==> #[trigger] run1[k] == run0[k],
        run1[idx - 1] == merged,
        forall|k: int| idx - 1 < k < run1.len() ==> #[trigger] run1[k] == run0[k + 2],
{
    let ra = run0.remove(idx + 1);
    let rb = ra.remove(idx);
    assert(forall|k: int| 0 <= k < idx + 1 ==> #[trigger] ra[k] == run0[k]);
    assert(forall|k: int| idx + 1 <= k < ra.len() ==> #[trigger] ra[k] == run0[k + 1]);
    assert(forall|k: int| 0 <= k < idx ==> #[trigger] rb[k] == ra[k]);
    assert(forall|k: int| idx <= k < rb.len() ==> #[trigger] rb[k] == ra[k + 1]);
}

proof fn lemma_merge_costs(
    run0: Seq<(usize, usize, usize)>,
    run1: Seq<(usize, usize, usize)>,
    bs: Seq<Circuit>,
    budget: usize,
    idx: int,
    merged: (usize, usize, usize),
)
    requires
        spans_ok(run0, bs, budget),
        1 <= idx && idx + 1 < run0.len(),
        run1.len() == run0.len() - 2,
        forall|k: int| 0 <= k < idx - 1 ==> #[trigger] run1[k] == run0[k],
        run1[idx - 1] == merged,
        forall|k: int| idx - 1 < k < run1.len() ==> #[trigger] run1[k] == run0[k + 2],
        merged.0 == blocks_h_sum(bs, merged.1 as int, merged.2 as int),
        merged.1 == run0[idx - 1].1,
        merged.2 == run0[idx + 1].2,
    ensures
        forall|k: int|
            0 <= k < run1.len() ==> (#[trigger] run1[k]).0 == blocks_h_sum(
                bs,
                run1[k].1 as int,
                run1[k].2 as int,
            ),
        forall|k: int| 0 <= k < run1.len() ==> (#[trigger] run1[k]).1 < run1[k].2 <= bs.len(),
{
    assert forall|k: int| 0 <= k < run1.len() implies (#[trigger] run1[k]).0 == blocks_h_sum(
        bs,
        run1[k].1 as int,
        run1[k].2 as int,
    ) && run1[k].1 < run1[k].2 <= bs.len() by {
        if k < idx - 1 {
            assert(run1[k] == run0[k]);
        } else if k == idx - 1 {
            assert(run0[idx - 1].1 < run0[idx - 1].2);
            assert(run0[idx + 1].1 < run0[idx + 1].2);
        } else {
            assert(run1[k] == run0[k + 2]);
        }
    }
}

proof fn lemma_merge_parity(
    run0: Seq<(usize, usize, usize)>,
    run1: Seq<(usize, usize, usize)>,
    budget: usize,
    idx: int,
    merged: (usize, usize, usize),
)
    requires
        forall|k: int| 0 <= k < run0.len() ==> (#[trigger] run0[k]).1 % 2 == k % 2,
        forall|k: int|
            0 <= k < run0.len() ==> (#[trigger] run0[k]).2 == run0[k].1 + 1 || run0[k].0
                <= budget,
        forall|k: int|
            0 <= k < run0.len() && k % 2 == 1 ==> (#[trigger] run0[k]).2 == run0[k].1 + 1,
        1 <= idx && idx + 1 < run0.len(),
        idx % 2 == 1,
        run1.len() == run0.len() - 2,
        forall|k: int| 0 <= k < idx - 1 ==> #[trigger] run1[k] == run0[k],
        run1[idx - 1] == merged,
        forall|k: int| idx - 1 < k < run1.len() ==> #[trigger] run1[k] == run0[k + 2],
        merged.0 <= budget,
        merged.1 == run0[idx - 1].1,
        merged.2 == run0[idx + 1].2,
    ensures
        forall|k: int| 0 <= k < run1.len() ==> (#[trigger] run1[k]).1 % 2 == k % 2,
        forall|k: int|
            0 <= k < run1.len() ==> ((#[trigger] run1[k]).2 == run1[k].1 + 1 || run1[k].0
                <= budget),
        forall|k: int|
            0 <= k < run1.len() && k % 2 == 1 ==> (#[trigger] run1[k]).2 == run1[k].1 + 1,
{
    assert forall|k: int| 0 <= k < run1.len() implies (#[trigger] run1[k]).1 % 2 == k % 2 by {
        if k < idx - 1 {
            assert(run1[k] == run0[k]);
        } else if k == idx - 1 {
            assert(run0[idx - 1].1 % 2 == (idx - 1) % 2);
        } else {
            assert(run1[k] == run0[k + 2]);
            assert(run0[k + 2].1 % 2 == (k + 2) % 2);
        }
    }
    assert forall|k: int| 0 <= k < run1.len() implies ((#[trigger] run1[k]).2 == run1[k].1 + 1
        || run1[k].0 <= budget) by {
        if k < idx - 1 {
            assert(run1[k] == run0[k]);
        } else if k == idx - 1 {
        } else {
            assert(run1[k] == run0[k + 2]);
        }
    }
    assert forall|k: int| 0 <= k < run1.len() && k % 2 == 1 implies (#[trigger] run1[k]).2
        == run1[k].1 + 1 by {
        if k < idx - 1 {
            assert(run1[k] == run0[k]);
        } else if k == idx - 1 {
            assert((idx - 1) % 2 == 0);
        } else {
            assert(run1[k] == run0[k + 2]);
            assert((k + 2) % 2 == 1);
        }
    }
}

proof fn lemma_merge_contig(
    run0: Seq<(usize, usize, usize)>,
    run1: Seq<(usize, usize, usize)>,
    bs: Seq<Circuit>,
    budget: usize,
    idx: int,
    merged: (usize, usize, usize),
)
    requires
        forall|k: int| 0 <= k < run0.len() - 1 ==> (#[trigger] run0[k]).2 == run0[k + 1].1,
        run0.len() > 0 ==> run0[0].1 == 0 && run0.last().2 == bs.len(),
        1 <= idx && idx + 1 < run0.len(),
        run1.len() == run0.len() - 2,
        forall|k: int| 0 <= k < idx - 1 ==> #[trigger] run1[k] == run0[k],
        run1[idx - 1] == merged,
        forall|k: int| idx - 1 < k < run1.len() ==> #[trigger] run1[k] == run0[k + 2],
        merged.1 == run0[idx - 1].1,
        merged.2 == run0[idx + 1].2,
    ensures
        forall|k: int| 0 <= k < run1.len() - 1 ==> (#[trigger] run1[k]).2 == run1[k + 1].1,
        run1.len() > 0 ==> run1[0].1 == 0 && run1.last().2 == bs.len(),
{
    assert forall|k: int| 0 <= k < run1.len() - 1 implies (#[trigger] run1[k]).2 == run1[k + 1].1
        by {
        if k < idx - 2 {
            assert(run1[k] == run0[k] && run1[k + 1] == run0[k + 1]);
        } else if k == idx - 2 {
            assert(run1[k] == run0[k] && run1[k + 1] == merged);
        } else if k == idx - 1 {
            assert(run1[k] == merged && run1[k + 1] == run0[k + 3]);
            assert(run0[idx + 1].2 == run0[idx + 2].1);
        } else {
            assert(run1[k] == run0[k + 2] && run1[k + 1] == run0[k + 3]);
        }
    }
    assert(run1[0].1 == 0) by {
        if idx == 1 {
            assert(run1[0] == merged);
        } else {
            assert(run1[0] == run0[0]);
        }
    }
    assert(run1.last().2 == bs.len()) by {
        if idx - 1 == run1.len() - 1 {
            assert(run1[run1.len() - 1] == merged);
        } else {
            assert(run1[run1.len() - 1] == run0[run0.len() - 1]);
        }
    }
}

proof fn lemma_spans_merge_ok(
    run0: Seq<(usize, usize, usize)>,
    run1: Seq<(usize, usize, usize)>,
    bs: Seq<Circuit>,
    budget: usize,
    idx: int,
)
    requires
        spans_ok(run0, bs, budget),
        1 <= idx && idx + 1 < run0.len(),
        idx % 2 == 1,
        run0[idx - 1].0 + run0[idx].0 + run0[idx + 1].0 <= budget,
        run1 == run0.remove(idx + 1).remove(idx).update(
            idx - 1,
            (
                (run0[idx - 1].0 + run0[idx].0 + run0[idx + 1].0) as usize,
                run0[idx - 1].1,
                run0[idx + 1].2,
            ),
        ),
    ensures
        spans_ok(run1, bs, budget),
        run1.len() < run0.len(),
{
    let merged = (
        (run0[idx - 1].0 + run0[idx].0 + run0[idx + 1].0) as usize,
        run0[idx - 1].1,
        run0[idx + 1].2,
    );
    lemma_merge_shape(run0, run1, idx, merged);
    assert(merged.0 == blocks_h_sum(bs, merged.1 as int, merged.2 as int)) by {
        lemma_blocks_h_sum_concat(
            bs,
            run0[idx - 1].1 as int,
            run0[idx - 1].2 as int,
            run0[idx + 1].2 as int,
        );
        lemma_blocks_h_sum_concat(
            bs,
            run0[idx].1 as int,
            run0[idx].2 as int,
            run0[idx + 1].2 as int,
        );
        assert(run0[idx - 1].2 == run0[idx].1);
        assert(run0[idx].2 == run0[idx + 1].1);
    }
    lemma_merge_costs(run0, run1, bs, budget, idx, merged);
    lemma_merge_parity(run0, run1, budget, idx, merged);
    lemma_merge_contig(run0, run1, bs, budget, idx, merged);
}

/// A valid plan's groups concatenate to the whole block list.
proof fn lemma_spans_cover(
    spans: Seq<(usize, usize, usize)>,
    bs: Seq<Circuit>,
    budget: usize,
    nbs: Seq<Circuit>,
)
    requires
        spans_ok(spans, bs, budget),
        nbs.len() == spans.len(),
        forall|k: int|
            0 <= k < spans.len() ==> (#[trigger] nbs[k]).gates@ == blocks_cat(
                bs,
                spans[k].1 as int,
                spans[k].2 as int,
            ),
    ensures
        blocks_gates(nbs) == blocks_cat(bs, 0, bs.len() as int),
{
    lemma_spans_cover_rec(spans, bs, budget, nbs, spans.len() as int);
    if spans.len() == 0 {
        assert(blocks_cat(bs, 0, bs.len() as int) =~= Seq::<Gate>::empty());
        assert(blocks_gates(nbs) =~= Seq::<Gate>::empty());
    } else {
        assert(nbs.subrange(0, spans.len() as int) =~= nbs);
        assert(spans[spans.len() - 1].2 == bs.len());
    }
}

proof fn lemma_spans_cover_rec(
    spans: Seq<(usize, usize, usize)>,
    bs: Seq<Circuit>,
    budget: usize,
    nbs: Seq<Circuit>,
    k: int,
)
    requires
        spans_ok(spans, bs, budget),
        nbs.len() == spans.len(),
        0 <= k <= spans.len(),
        forall|kk: int|
            0 <= kk < spans.len() ==> (#[trigger] nbs[kk]).gates@ == blocks_cat(
                bs,
                spans[kk].1 as int,
                spans[kk].2 as int,
            ),
    ensures
        k > 0 ==> blocks_gates(nbs.subrange(0, k)) == blocks_cat(bs, 0, spans[k - 1].2 as int),
        k == 0 ==> blocks_gates(nbs.subrange(0, k)) == Seq::<Gate>::empty(),
    decreases k,
{
    if k == 0 {
        assert(nbs.subrange(0, 0) =~= Seq::<Circuit>::empty());
    } else {
        lemma_spans_cover_rec(spans, bs, budget, nbs, k - 1);
        assert(nbs.subrange(0, k).drop_last() =~= nbs.subrange(0, k - 1));
        assert(nbs.subrange(0, k).last() == nbs[k - 1]);
        if k - 1 > 0 {
            assert(spans[k - 2].2 == spans[k - 1].1);
            lemma_blocks_cat_concat(bs, 0, spans[k - 1].1 as int, spans[k - 1].2 as int);
        } else {
            assert(spans[0].1 == 0);
            assert(blocks_cat(bs, 0, 0) =~= Seq::<Gate>::empty());
            assert(Seq::<Gate>::empty() + blocks_cat(bs, 0, spans[0].2 as int) =~= blocks_cat(
                bs,
                0,
                spans[0].2 as int,
            ));
        }
    }
}

/// Concatenating well-formed blocks yields a well-formed gate list.
proof fn lemma_blocks_cat_wf(bs: Seq<Circuit>, a: int, b: int)
    requires
        forall|i: int| 0 <= i < bs.len() ==> (#[trigger] bs[i]).wf(),
        0 <= a,
        b <= bs.len(),
    ensures
        gates_wf(blocks_cat(bs, a, b)),
    decreases b - a,
{
    if a >= b {
    } else {
        lemma_blocks_cat_wf(bs, a + 1, b);
        assert(bs[a].wf());
        assert forall|i: int| 0 <= i < blocks_cat(bs, a, b).len() implies gate_wf(
            #[trigger] blocks_cat(bs, a, b)[i],
        ) by {
            if i < bs[a].gates@.len() {
                assert(blocks_cat(bs, a, b)[i] == bs[a].gates@[i]);
            } else {
                assert(blocks_cat(bs, a, b)[i] == blocks_cat(bs, a + 1, b)[i - bs[a].gates@.len()]);
            }
        }
    }
}

} // verus!
