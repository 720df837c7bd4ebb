//! Signature tensors, phase polynomials, and gadget re-synthesis.
//!
//! A gate-synthesis matrix is turned back into gates column by column:
//! either by the per-column CNOT-fan/phase/CNOT-fan fallback, or, when
//! pattern matching is enabled, by recognizing the 7-column CCZ and
//! 3-column CS patterns.  The mod-2 signature tensor of a matrix is the
//! cubic form certifying equivalence of two decompositions, and the
//! phase polynomial difference of two matrices with equal signature
//! yields their Clifford correction.

use vstd::prelude::*;
use vstd::pervasive::VecAdditionalExecFns;
use crate::circuit::{Gate, Circuit, Phase, Qubit, gates_wf, gate_wf, cnot_phase_only, all_clifford};
use crate::matrix::{BoolMat, spec_has_zero_col, zero_col};

verus! {

/// Whether the matrix has an all-zero column.
pub fn has_zero_columns(a: &BoolMat) -> (r: bool)
    requires
        a.wf(),
    ensures
        r == spec_has_zero_col(a.view_cols()),
{
    let mut c: usize = 0;
    while c < a.cols.len()
        invariant
            0 <= c <= a.cols@.len(),
            a.wf(),
            forall|cc: int| 0 <= cc < c ==> !zero_col(#[trigger] a.view_cols()[cc]),
        decreases a.cols@.len() - c,
    {
        let mut r: usize = 0;
        let mut all_zero = true;
        while r < a.rows
            invariant
                0 <= r <= a.rows,
                a.wf(),
                c < a.cols@.len(),
                all_zero ==> forall|rr: int| 0 <= rr < r ==> !(#[trigger] a.view_cols()[c as int][rr]),
                !all_zero ==> !zero_col(a.view_cols()[c as int]),
            decreases a.rows - r,
        {
            if a.cols[c][r] {
                all_zero = false;
                proof {
                    assert(a.view_cols()[c as int][r as int]);
                }
            }
            r = r + 1;
        }
        if all_zero {
            proof {
                assert(zero_col(a.view_cols()[c as int]));
            }
            return true;
        }
        c = c + 1;
    }
    false
}

/// Index of the first true entry, or -1 when there is none.
pub open spec fn first_set(col: Seq<bool>) -> int
    decreases col.len(),
{
    if col.len() == 0 {
        -1
    } else if col[0] {
        0
    } else {
        let r = first_set(col.drop_first());
        if r < 0 {
            -1
        } else {
            r + 1
        }
    }
}

pub proof fn lemma_first_set(col: Seq<bool>)
    ensures
        first_set(col) == -1 ==> forall|i: int| 0 <= i < col.len() ==> !(#[trigger] col[i]),
        first_set(col) >= 0 ==> 0 <= first_set(col) < col.len() && col[first_set(col)] && (forall|
            i: int,
        |
            0 <= i < first_set(col) ==> !(#[trigger] col[i])),
    decreases col.len(),
{
    if col.len() == 0 {
    } else if col[0] {
    } else {
        lemma_first_set(col.drop_first());
        let r = first_set(col.drop_first());
        if r < 0 {
            assert forall|i: int| 0 <= i < col.len() implies !(#[trigger] col[i]) by {
                if i > 0 {
                    assert(col[i] == col.drop_first()[i - 1]);
                }
            }
        } else {
            assert(col[first_set(col)] == col.drop_first()[r]);
            assert forall|i: int| 0 <= i < first_set(col) implies !(#[trigger] col[i]) by {
                if i > 0 {
                    assert(col[i] == col.drop_first()[i - 1]);
                }
            }
        }
    }
}

/// The ascending CNOT fan onto `map[t]` over the set rows below `k`.
pub open spec fn fan_up(col: Seq<bool>, t: int, map: Seq<usize>, k: int) -> Seq<Gate>
    decreases k,
{
    if k <= 0 {
        Seq::empty()
    } else {
        fan_up(col, t, map, k - 1) + if col[k - 1] && k - 1 != t {
            seq![Gate::CNOT(Qubit(map[k - 1]), Qubit(map[t]))]
        } else {
            Seq::empty()
        }
    }
}

/// The descending CNOT fan onto `map[t]` over the set rows below `k`.
pub open spec fn fan_down(col: Seq<bool>, t: int, map: Seq<usize>, k: int) -> Seq<Gate>
    decreases k,
{
    if k <= 0 {
        Seq::empty()
    } else {
        (if col[k - 1] && k - 1 != t {
            seq![Gate::CNOT(Qubit(map[k - 1]), Qubit(map[t]))]
        } else {
            Seq::empty()
        }) + fan_down(col, t, map, k - 1)
    }
}

/// The fallback synthesis of one column: fan the set rows onto the first
/// set row, apply the phase there, and undo the fan.
pub open spec fn gadget_circuit(p: Phase, col: Seq<bool>, map: Seq<usize>) -> Seq<Gate> {
    let t = first_set(col);
    if t < 0 {
        Seq::empty()
    } else {
        fan_up(col, t, map, col.len() as int) + seq![Gate::Phase(p, Qubit(map[t]))] + fan_down(
            col,
            t,
            map,
            col.len() as int,
        )
    }
}

/// `gadget_circuit`, except that a zero phase synthesizes nothing.
pub open spec fn gadget_or_zero(p: Phase, col: Seq<bool>, map: Seq<usize>) -> Seq<Gate> {
    if p.0 == 0 {
        Seq::empty()
    } else {
        gadget_circuit(p, col, map)
    }
}

/// Append the fallback synthesis of `(p, col)` under `map` to `out`,
/// skipping a zero phase.
pub(crate) fn push_gadget(out: &mut Vec<Gate>, p: Phase, col: &Vec<bool>, map: &Vec<usize>)
    requires
        map@.len() == col@.len(),
        forall|i: int| 0 <= i < map@.len() ==> (#[trigger] map@[i]) < usize::MAX,
        p.0 < 8,
    ensures
        final(out)@ == old(out)@ + gadget_or_zero(p, col@, map@),
        gates_wf(old(out)@) ==> gates_wf(final(out)@),
{
    let ghost base = out@;
    if p.0 == 0 {
        proof {
            assert(out@ =~= base + gadget_or_zero(p, col@, map@));
        }
        return ;
    }
    // find the first set row
    let mut t: usize = 0;
    while t < col.len() && !col[t]
        invariant
            0 <= t <= col@.len(),
            forall|i: int| 0 <= i < t ==> !(#[trigger] col@[i]),
        decreases col@.len() - t,
    {
        t = t + 1;
    }
    proof {
        lemma_first_set(col@);
        if t < col@.len() {
            assert(col@[t as int]);
            assert(first_set(col@) == t as int) by {
                if first_set(col@) < t {
                    assert(!col@[first_set(col@)]);
                }
                if first_set(col@) > t as int || first_set(col@) == -1 {
                    assert(!col@[t as int]);
                }
            }
        } else {
            assert(first_set(col@) == -1) by {
                if first_set(col@) >= 0 {
                    assert(!col@[first_set(col@)]);
                }
            }
        }
    }
    if t == col.len() {
        proof {
            assert(out@ =~= base + gadget_or_zero(p, col@, map@));
        }
        return ;
    }
    let ghost tt = t as int;
    let n = col.len();
    let mut i: usize = 0;
    while i < n
        invariant
            0 <= i <= n == col@.len() == map@.len(),
            t < n,
            tt == t as int,
            col@[tt],
            forall|ii: int| 0 <= ii < map@.len() ==> (#[trigger] map@[ii]) < usize::MAX,
            p.0 < 8,
            out@ == base + fan_up(col@, tt, map@, i as int),
            gates_wf(base) ==> gates_wf(out@),
        decreases n - i,
    {
        if i != t && col[i] {
            out.push(Gate::CNOT(Qubit(map[i]), Qubit(map[t])));
            proof {
                let g = Gate::CNOT(Qubit(map@[i as int]), Qubit(map@[tt]));
                assert(g.touches(Qubit(map@[i as int])) && g.touches(Qubit(map@[tt])));
                assert(forall|qq: Qubit|
                    #[trigger] g.touches(qq) ==> qq == Qubit(map@[i as int]) || qq == Qubit(
                        map@[tt],
                    ));
                assert(out@ =~= base + fan_up(col@, tt, map@, i + 1));
            }
        } else {
            proof {
                assert(out@ =~= base + fan_up(col@, tt, map@, i + 1));
            }
        }
        i = i + 1;
    }
    out.push(Gate::Phase(p, Qubit(map[t])));
    proof {
        let g = Gate::Phase(p, Qubit(map@[tt]));
        assert(g.touches(Qubit(map@[tt])));
        assert(forall|qq: Qubit| #[trigger] g.touches(qq) ==> qq == Qubit(map@[tt]));
    }
    let ghost mid = out@;
    let mut i: usize = n;
    while i > 0
        invariant
            0 <= i <= n == col@.len() == map@.len(),
            t < n,
            tt == t as int,
            col@[tt],
            forall|ii: int| 0 <= ii < map@.len() ==> (#[trigger] map@[ii]) < usize::MAX,
            p.0 < 8,
            mid + fan_down(col@, tt, map@, n as int) == out@ + fan_down(col@, tt, map@, i as int),
            gates_wf(base) ==> gates_wf(out@),
        decreases i,
    {
        let ghost out0 = out@;
        i = i - 1;
        if i != t && col[i] {
            out.push(Gate::CNOT(Qubit(map[i]), Qubit(map[t])));
            proof {
                let g = Gate::CNOT(Qubit(map@[i as int]), Qubit(map@[tt]));
                assert(g.touches(Qubit(map@[i as int])) && g.touches(Qubit(map@[tt])));
                assert(forall|qq: Qubit|
                    #[trigger] g.touches(qq) ==> qq == Qubit(map@[i as int]) || qq == Qubit(
                        map@[tt],
                    ));
                assert(out0 + fan_down(col@, tt, map@, i + 1) =~= out@ + fan_down(
                    col@,
                    tt,
                    map@,
                    i as int,
                ));
            }
        } else {
            proof {
                assert(out0 + fan_down(col@, tt, map@, i + 1) =~= out@ + fan_down(
                    col@,
                    tt,
                    map@,
                    i as int,
                ));
            }
        }
    }
    proof {
        assert(out@ + fan_down(col@, tt, map@, 0) =~= out@);
        assert(out@ =~= mid + fan_down(col@, tt, map@, n as int));
        assert(mid =~= base + fan_up(col@, tt, map@, n as int) + seq![
            Gate::Phase(p, Qubit(map@[tt])),
        ]);
        assert(out@ =~= base + gadget_or_zero(p, col@, map@));
    }
}

impl Circuit {
    /// Synthesize one matrix column as a T gadget on the mapped qubits:
    /// CNOTs fan the set rows onto the first set row, a T fires there,
    /// and the fan is undone.
    pub fn synth_gadget(&mut self, col: &Vec<bool>, map: &Vec<usize>)
        requires
            map@.len() == col@.len(),
            forall|i: int| 0 <= i < map@.len() ==> (#[trigger] map@[i]) < usize::MAX,
        ensures
            final(self).gates@ == old(self).gates@ + gadget_circuit(Phase(1), col@, map@),
            old(self).wf() ==> final(self).wf(),
    {
        push_gadget(&mut self.gates, Phase(1), col, map);
    }
}

/// Row `i` of the n-by-n identity matrix over GF(2).
pub open spec fn unit_row(n: nat, i: int) -> Seq<bool> {
    Seq::new(n, |j: int| j == i)
}

pub open spec fn ident_rows(n: nat) -> Seq<Seq<bool>> {
    Seq::new(n, |i: int| unit_row(n, i))
}

pub open spec fn xor_rows(a: Seq<bool>, b: Seq<bool>) -> Seq<bool> {
    Seq::new(a.len(), |j: int| a[j] != b[j])
}

/// How one gate acts on the matrix tracking which parity function each
/// qubit currently holds: `CNOT(a, b)` adds row `a` into row `b`.
pub open spec fn rows_step(m: Seq<Seq<bool>>, g: Gate) -> Seq<Seq<bool>> {
    match g {
        Gate::CNOT(a, b) => m.update(b.0 as int, xor_rows(m[b.0 as int], m[a.0 as int])),
        _ => m,
    }
}

/// The parity matrix after a CNOT+Phase gate sequence, starting from the
/// identity on `n` qubits.
pub open spec fn rows_after(s: Seq<Gate>, n: nat) -> Seq<Seq<bool>>
    decreases s.len(),
{
    if s.len() == 0 {
        ident_rows(n)
    } else {
        rows_step(rows_after(s.drop_last(), n), s.last())
    }
}

/// The phase gadgets of a CNOT+Phase gate sequence: each phase gate,
/// paired with the parity its qubit holds when it fires.  This is the
/// semantic content a gate-synthesis matrix records.
pub open spec fn gadgets_of(s: Seq<Gate>, n: nat) -> Seq<(Phase, Seq<bool>)>
    decreases s.len(),
{
    if s.len() == 0 {
        Seq::empty()
    } else {
        gadgets_of(s.drop_last(), n) + (match s.last() {
            Gate::Phase(p, q) => seq![(p, rows_after(s.drop_last(), n)[q.0 as int])],
            _ => Seq::empty(),
        })
    }
}

/// The parity matrix stays square when every gate fits in `n` qubits.
pub proof fn lemma_rows_after_wf(s: Seq<Gate>, n: nat)
    requires
        forall|i: int| 0 <= i < s.len() ==> crate::circuit::gate_span(#[trigger] s[i]) <= n,
    ensures
        rows_after(s, n).len() == n,
        forall|r: int| 0 <= r < n ==> (#[trigger] rows_after(s, n)[r]).len() == n,
    decreases s.len(),
{
    if s.len() == 0 {
    } else {
        assert(forall|i: int| 0 <= i < s.drop_last().len() ==> s.drop_last()[i] == #[trigger] s[i]);
        lemma_rows_after_wf(s.drop_last(), n);
        match s.last() {
            Gate::CNOT(a, b) => {
                assert(s.last().touches(a) && s.last().touches(b));
                assert(crate::circuit::gate_span(s.last()) <= n);
            },
            _ => {},
        }
    }
}

/// Every recorded gadget has a well-formed phase and a parity of length
/// `n`.
pub proof fn lemma_gadgets_wf(s: Seq<Gate>, n: nat)
    requires
        gates_wf(s),
        forall|i: int| 0 <= i < s.len() ==> crate::circuit::gate_span(#[trigger] s[i]) <= n,
    ensures
        forall|g: int|
            0 <= g < gadgets_of(s, n).len() ==> (#[trigger] gadgets_of(s, n)[g]).0.0 < 8
                && gadgets_of(s, n)[g].1.len() == n,
    decreases s.len(),
{
    if s.len() == 0 {
    } else {
        assert(forall|i: int| 0 <= i < s.drop_last().len() ==> s.drop_last()[i] == #[trigger] s[i]);
        assert(gates_wf(s.drop_last())) by {
            assert(forall|i: int|
                0 <= i < s.drop_last().len() ==> gate_wf(#[trigger] s.drop_last()[i]));
        }
        lemma_gadgets_wf(s.drop_last(), n);
        lemma_rows_after_wf(s.drop_last(), n);
        let pre = gadgets_of(s.drop_last(), n);
        let full = gadgets_of(s, n);
        assert forall|g: int| 0 <= g < full.len() implies (#[trigger] full[g]).0.0 < 8
            && full[g].1.len() == n by {
            if g < pre.len() {
                assert(full[g] == pre[g]);
            } else {
                match s.last() {
                    Gate::Phase(p, q) => {
                        assert(gate_wf(s[s.len() - 1]));
                        assert(s.last().touches(q));
                        assert(crate::circuit::gate_span(s[s.len() - 1]) <= n);
                        assert(full[g] == (p, rows_after(s.drop_last(), n)[q.0 as int]));
                    },
                    _ => {},
                }
            }
        }
    }
}

proof fn lemma_fan_up_shape(col: Seq<bool>, t: int, map: Seq<usize>, k: int)
    ensures
        cnot_phase_only(fan_up(col, t, map, k)),
    decreases k,
{
    if k <= 0 {
    } else {
        lemma_fan_up_shape(col, t, map, k - 1);
    }
}

proof fn lemma_fan_down_shape(col: Seq<bool>, t: int, map: Seq<usize>, k: int)
    ensures
        cnot_phase_only(fan_down(col, t, map, k)),
    decreases k,
{
    if k <= 0 {
    } else {
        lemma_fan_down_shape(col, t, map, k - 1);
    }
}

/// A fallback gadget synthesizes into CNOT and phase gates only.
pub proof fn lemma_gadget_shape(p: Phase, col: Seq<bool>, map: Seq<usize>)
    ensures
        cnot_phase_only(gadget_or_zero(p, col, map)),
{
    lemma_fan_up_shape(col, first_set(col), map, col.len() as int);
    lemma_fan_down_shape(col, first_set(col), map, col.len() as int);
}

proof fn lemma_fan_up_clifford(col: Seq<bool>, t: int, map: Seq<usize>, k: int)
    ensures
        all_clifford(fan_up(col, t, map, k)),
    decreases k,
{
    if k <= 0 {
    } else {
        lemma_fan_up_clifford(col, t, map, k - 1);
    }
}

proof fn lemma_fan_down_clifford(col: Seq<bool>, t: int, map: Seq<usize>, k: int)
    ensures
        all_clifford(fan_down(col, t, map, k)),
    decreases k,
{
    if k <= 0 {
    } else {
        lemma_fan_down_clifford(col, t, map, k - 1);
    }
}

/// A gadget with an even phase synthesizes into Clifford gates only.
pub proof fn lemma_gadget_clifford(p: Phase, col: Seq<bool>, map: Seq<usize>)
    requires
        p.0 % 2 == 0,
    ensures
        all_clifford(gadget_or_zero(p, col, map)),
{
    lemma_fan_up_clifford(col, first_set(col), map, col.len() as int);
    lemma_fan_down_clifford(col, first_set(col), map, col.len() as int);
}

/// The column scaled by a bit: itself, or all false.
pub open spec fn scale_col(b: bool, col: Seq<bool>) -> Seq<bool> {
    Seq::new(col.len(), |i: int| b && col[i])
}

/// XOR a vector with another of the same length.
fn xor_vec(x: &Vec<bool>, y: &Vec<bool>) -> (r: Vec<bool>)
    requires
        x@.len() == y@.len(),
    ensures
        r@ == xor_rows(x@, y@),
{
    let mut r: Vec<bool> = Vec::new();
    let mut i: usize = 0;
    while i < x.len()
        invariant
            0 <= i <= x@.len() == y@.len(),
            r@.len() == i,
            forall|j: int| 0 <= j < i ==> r@[j] == (x@[j] != y@[j]),
        decreases x@.len() - i,
    {
        r.push(x[i] != y[i]);
        i = i + 1;
    }
    proof {
        assert(r@ =~= xor_rows(x@, y@));
    }
    r
}

/// Whether two vectors of the same length are equal.
fn vec_eq(x: &Vec<bool>, y: &Vec<bool>) -> (r: bool)
    requires
        x@.len() == y@.len(),
    ensures
        r == (x@ == y@),
{
    let mut i: usize = 0;
    while i < x.len()
        invariant
            0 <= i <= x@.len() == y@.len(),
            forall|j: int| 0 <= j < i ==> x@[j] == y@[j],
        decreases x@.len() - i,
    {
        if x[i] != y[i] {
            return false;
        }
        i = i + 1;
    }
    proof {
        assert(x@ =~= y@);
    }
    true
}

/// The index of the first set entry, when there is one.
fn first_true(col: &Vec<bool>) -> (r: Option<usize>)
    ensures
        match r {
            Some(i) => i == first_set(col@) && i < col@.len() && col@[i as int],
            None => first_set(col@) == -1,
        },
{
    let mut t: usize = 0;
    while t < col.len() && !col[t]
        invariant
            0 <= t <= col@.len(),
            forall|i: int| 0 <= i < t ==> !(#[trigger] col@[i]),
        decreases col@.len() - t,
    {
        t = t + 1;
    }
    proof {
        lemma_first_set(col@);
        if t < col@.len() {
            assert(col@[t as int]);
            assert(first_set(col@) == t as int) by {
                if first_set(col@) < t {
                    assert(!col@[first_set(col@)]);
                }
                if first_set(col@) > t as int || first_set(col@) == -1 {
                    assert(!col@[t as int]);
                }
            }
        } else {
            assert(first_set(col@) == -1) by {
                if first_set(col@) >= 0 {
                    assert(!col@[first_set(col@)]);
                }
            }
        }
    }
    if t < col.len() {
        Some(t)
    } else {
        None
    }
}

/// Basis-change pairs rendered as CNOTs in order.
pub open spec fn pairs_to_cnots(ps: Seq<(usize, usize)>, map: Seq<usize>) -> Seq<Gate>
    decreases ps.len(),
{
    if ps.len() == 0 {
        Seq::empty()
    } else {
        pairs_to_cnots(ps.drop_last(), map) + seq![
            Gate::CNOT(Qubit(map[ps.last().0 as int]), Qubit(map[ps.last().1 as int])),
        ]
    }
}

/// Basis-change pairs rendered as CNOTs in reverse order.
pub open spec fn pairs_to_cnots_rev(ps: Seq<(usize, usize)>, map: Seq<usize>) -> Seq<Gate>
    decreases ps.len(),
{
    if ps.len() == 0 {
        Seq::empty()
    } else {
        seq![Gate::CNOT(Qubit(map[ps.last().0 as int]), Qubit(map[ps.last().1 as int]))]
            + pairs_to_cnots_rev(ps.drop_last(), map)
    }
}

/// Append the basis-change CNOTs in order.
fn push_cnot_pairs(out: &mut Vec<Gate>, ps: &Vec<(usize, usize)>, map: &Vec<usize>)
    requires
        forall|k: int|
            0 <= k < ps@.len() ==> (#[trigger] ps@[k]).0 < map@.len() && ps@[k].1 < map@.len(),
        forall|i: int| 0 <= i < map@.len() ==> (#[trigger] map@[i]) < usize::MAX,
    ensures
        final(out)@ == old(out)@ + pairs_to_cnots(ps@, map@),
        gates_wf(old(out)@) ==> gates_wf(final(out)@),
{
    let mut k: usize = 0;
    proof {
        assert(out@ =~= out@ + pairs_to_cnots(ps@.subrange(0, 0), map@));
    }
    while k < ps.len()
        invariant
            0 <= k <= ps@.len(),
            forall|kk: int|
                0 <= kk < ps@.len() ==> (#[trigger] ps@[kk]).0 < map@.len() && ps@[kk].1
                    < map@.len(),
            forall|i: int| 0 <= i < map@.len() ==> (#[trigger] map@[i]) < usize::MAX,
            out@ == old(out)@ + pairs_to_cnots(ps@.subrange(0, k as int), map@),
            gates_wf(old(out)@) ==> gates_wf(out@),
        decreases ps@.len() - k,
    {
        let (p, q) = ps[k];
        out.push(Gate::CNOT(Qubit(map[p]), Qubit(map[q])));
        proof {
            let g = Gate::CNOT(Qubit(map@[p as int]), Qubit(map@[q as int]));
            assert(forall|qq: Qubit|
                #[trigger] g.touches(qq) ==> qq == Qubit(map@[p as int]) || qq == Qubit(
                    map@[q as int],
                ));
            assert(ps@.subrange(0, k + 1).drop_last() =~= ps@.subrange(0, k as int));
            assert(ps@.subrange(0, k + 1).last() == ps@[k as int]);
            assert(out@ =~= old(out)@ + pairs_to_cnots(ps@.subrange(0, k + 1), map@));
        }
        k = k + 1;
    }
    proof {
        assert(ps@.subrange(0, ps@.len() as int) =~= ps@);
    }
}

/// Append the basis-change CNOTs in reverse order.
fn push_cnot_pairs_rev(out: &mut Vec<Gate>, ps: &Vec<(usize, usize)>, map: &Vec<usize>)
    requires
        forall|k: int|
            0 <= k < ps@.len() ==> (#[trigger] ps@[k]).0 < map@.len() && ps@[k].1 < map@.len(),
        forall|i: int| 0 <= i < map@.len() ==> (#[trigger] map@[i]) < usize::MAX,
    ensures
        final(out)@ == old(out)@ + pairs_to_cnots_rev(ps@, map@),
        gates_wf(old(out)@) ==> gates_wf(final(out)@),
{
    let mut k: usize = ps.len();
    proof {
        assert(ps@.subrange(0, ps@.len() as int) =~= ps@);
        assert(out@ + pairs_to_cnots_rev(ps@.subrange(0, k as int), map@) =~= old(out)@
            + pairs_to_cnots_rev(ps@, map@));
    }
    while k > 0
        invariant
            0 <= k <= ps@.len(),
            forall|kk: int|
                0 <= kk < ps@.len() ==> (#[trigger] ps@[kk]).0 < map@.len() && ps@[kk].1
                    < map@.len(),
            forall|i: int| 0 <= i < map@.len() ==> (#[trigger] map@[i]) < usize::MAX,
            out@ + pairs_to_cnots_rev(ps@.subrange(0, k as int), map@) == old(out)@
                + pairs_to_cnots_rev(ps@, map@),
            gates_wf(old(out)@) ==> gates_wf(out@),
        decreases k,
    {
        let ghost out0 = out@;
        k = k - 1;
        let (p, q) = ps[k];
        out.push(Gate::CNOT(Qubit(map[p]), Qubit(map[q])));
        proof {
            let g = Gate::CNOT(Qubit(map@[p as int]), Qubit(map@[q as int]));
            assert(forall|qq: Qubit|
                #[trigger] g.touches(qq) ==> qq == Qubit(map@[p as int]) || qq == Qubit(
                    map@[q as int],
                ));
            assert(ps@.subrange(0, k + 1).drop_last() =~= ps@.subrange(0, k as int));
            assert(ps@.subrange(0, k + 1).last() == ps@[k as int]);
            assert(out@ + pairs_to_cnots_rev(ps@.subrange(0, k as int), map@) =~= out0
                + pairs_to_cnots_rev(ps@.subrange(0, k + 1), map@));
        }
    }
    proof {
        assert(pairs_to_cnots_rev(ps@.subrange(0, 0), map@) =~= Seq::<Gate>::empty());
        assert(out@ =~= out@ + pairs_to_cnots_rev(ps@.subrange(0, 0), map@));
    }
}

/// The three-column CS pattern: two distinct columns and their XOR.
pub open spec fn cs_pattern(a: Seq<bool>, b: Seq<bool>, c: Seq<bool>) -> bool {
    a != b && c == xor_rows(a, b)
}

/// The basis-change pairs that put parities `a` and `b` on rows `i` and
/// `j`: first the pivot 2-by-2 solve, then the remaining set rows.
pub open spec fn cs_rest(a: Seq<bool>, b: Seq<bool>, i: int, j: int, k: int) -> Seq<(usize, usize)>
    decreases k,
{
    if k <= 0 {
        Seq::empty()
    } else {
        cs_rest(a, b, i, j, k - 1) + if k - 1 == i || k - 1 == j {
            Seq::empty()
        } else {
            (if a[k - 1] {
                seq![((k - 1) as usize, i as usize)]
            } else {
                Seq::empty()
            }) + (if b[k - 1] {
                seq![((k - 1) as usize, j as usize)]
            } else {
                Seq::empty()
            })
        }
    }
}

pub open spec fn cs_basis_change(a: Seq<bool>, b: Seq<bool>, i: int, j: int) -> Seq<
    (usize, usize),
> {
    (if a[j] {
        seq![(j as usize, i as usize)]
    } else {
        Seq::empty()
    }) + (if b[i] {
        seq![(i as usize, j as usize)]
    } else {
        Seq::empty()
    }) + cs_rest(a, b, i, j, a.len() as int)
}

/// The pivot rows of a CS gadget: the first set row of `a`, and the
/// first row where `b` differs from its projection onto `a`.
pub open spec fn cs_pivot_i(a: Seq<bool>) -> int {
    first_set(a)
}

pub open spec fn cs_pivot_j(a: Seq<bool>, b: Seq<bool>) -> int {
    first_set(xor_rows(b, scale_col(b[cs_pivot_i(a)], a)))
}

/// The CS gadget synthesis: basis change, CS on the pivots, its Clifford
/// correction, and the basis change undone.
pub open spec fn cs_emit(a: Seq<bool>, b: Seq<bool>, map: Seq<usize>) -> Seq<Gate> {
    let i = cs_pivot_i(a);
    let j = cs_pivot_j(a, b);
    let bc = cs_basis_change(a, b, i, j);
    pairs_to_cnots(bc, map) + seq![
        Gate::CS(Qubit(map[i]), Qubit(map[j])),
        Gate::CZ(Qubit(map[i]), Qubit(map[j])),
        Gate::Phase(Phase(2), Qubit(map[i])),
        Gate::Phase(Phase(2), Qubit(map[j])),
    ] + pairs_to_cnots_rev(bc, map)
}

impl Circuit {
    /// Recognize and synthesize a CS gadget from three columns: `a` and
    /// `b` distinct, `c` their XOR.  On a match the CS gadget circuit is
    /// appended; otherwise nothing changes.
    #[verifier::rlimit(100)]
    pub(crate) fn try_synth_cs_gadget(
        &mut self,
        a: &Vec<bool>,
        b: &Vec<bool>,
        c: &Vec<bool>,
        map: &Vec<usize>,
    ) -> (r: bool)
        requires
            a@.len() == map@.len(),
            b@.len() == map@.len(),
            c@.len() == map@.len(),
            forall|i: int| 0 <= i < map@.len() ==> (#[trigger] map@[i]) < usize::MAX,
            !crate::matrix::zero_col(a@),
            !crate::matrix::zero_col(b@),
        ensures
            r == cs_pattern(a@, b@, c@),
            !r ==> *final(self) == *old(self),
            r ==> final(self).gates@ == old(self).gates@ + cs_emit(a@, b@, map@),
            old(self).wf() ==> final(self).wf(),
    {
        if vec_eq(a, b) {
            return false;
        }
        let xab = xor_vec(a, b);
        if !vec_eq(&xab, c) {
            return false;
        }
        // the pattern matched; find the pivot rows
        let i = match first_true(a) {
            Some(i) => i,
            None => {
                proof {
                    lemma_first_set(a@);
                    let w = choose|w: int| 0 <= w < a@.len() && a@[w];
                    assert(!a@[w]);
                }
                return false;
            },
        };
        let bp = if b[i] {
            xor_vec(b, a)
        } else {
            crate::decompose::copy_bools(b)
        };
        proof {
            assert(bp@ =~= xor_rows(b@, scale_col(b@[i as int], a@)));
        }
        let j = match first_true(&bp) {
            Some(j) => j,
            None => {
                // impossible: b would be zero or equal to a
                proof {
                    lemma_first_set(bp@);
                    if b@[i as int] {
                        assert forall|l: int| 0 <= l < a@.len() implies a@[l] == b@[l] by {
                            assert(!bp@[l]);
                        }
                        assert(a@ =~= b@);
                    } else {
                        let w = choose|w: int| 0 <= w < b@.len() && b@[w];
                        assert(!bp@[w]);
                    }
                }
                return false;
            },
        };
        proof {
            assert(i == cs_pivot_i(a@));
            assert(j == cs_pivot_j(a@, b@));
            assert(bp@[j as int]);
        }
        // basis change: pivot solve, then the other set rows
        let mut bc: Vec<(usize, usize)> = Vec::new();
        if a[j] {
            bc.push((j, i));
        }
        if b[i] {
            bc.push((i, j));
        }
        let ghost pivot_part = (if a@[j as int] {
            seq![(j as usize, i as usize)]
        } else {
            Seq::<(usize, usize)>::empty()
        }) + (if b@[i as int] {
            seq![(i as usize, j as usize)]
        } else {
            Seq::<(usize, usize)>::empty()
        });
        proof {
            assert(bc@ =~= pivot_part + cs_rest(a@, b@, i as int, j as int, 0));
        }
        let mut k: usize = 0;
        while k < a.len()
            invariant
                0 <= k <= a@.len() == b@.len() == map@.len(),
                i < a@.len(),
                j < a@.len(),
                bc@ == pivot_part + cs_rest(a@, b@, i as int, j as int, k as int),
                forall|kk: int|
                    0 <= kk < bc@.len() ==> (#[trigger] bc@[kk]).0 < map@.len() && bc@[kk].1
                        < map@.len(),
            decreases a@.len() - k,
        {
            let ghost bc0 = bc@;
            if k != i && k != j {
                if a[k] {
                    bc.push((k, i));
                }
                if b[k] {
                    bc.push((k, j));
                }
            }
            proof {
                assert(bc@ =~= pivot_part + cs_rest(a@, b@, i as int, j as int, k + 1));
            }
            k = k + 1;
        }
        proof {
            assert(bc@ == cs_basis_change(a@, b@, i as int, j as int));
        }
        // synthesize: change basis, CS, Clifford correction, change back
        let ghost base = self.gates@;
        push_cnot_pairs(&mut self.gates, &bc, map);
        self.gates.push(Gate::CS(Qubit(map[i]), Qubit(map[j])));
        self.gates.push(Gate::CZ(Qubit(map[i]), Qubit(map[j])));
        self.gates.push(Gate::Phase(Phase(2), Qubit(map[i])));
        self.gates.push(Gate::Phase(Phase(2), Qubit(map[j])));
        proof {
            let qi = Qubit(map@[i as int]);
            let qj = Qubit(map@[j as int]);
            assert(forall|qq: Qubit|
                #[trigger] Gate::CS(qi, qj).touches(qq) ==> qq == qi || qq == qj);
            assert(forall|qq: Qubit|
                #[trigger] Gate::CZ(qi, qj).touches(qq) ==> qq == qi || qq == qj);
            assert(forall|qq: Qubit|
                #[trigger] Gate::Phase(Phase(2), qi).touches(qq) ==> qq == qi);
            assert(forall|qq: Qubit|
                #[trigger] Gate::Phase(Phase(2), qj).touches(qq) ==> qq == qj);
        }
        push_cnot_pairs_rev(&mut self.gates, &bc, map);
        proof {
            assert(self.gates@ =~= base + cs_emit(a@, b@, map@));
        }
        true
    }
}

/// The seven-column CCZ pattern: three independent columns followed, in
/// some order, by their four nontrivial XOR combinations.
pub open spec fn ccz_found(w: Seq<Seq<bool>>, d: Seq<bool>) -> bool {
    exists|l: int| 3 <= l < 7 && w[l] == d
}

pub open spec fn ccz_pattern(w: Seq<Seq<bool>>) -> bool {
    let a = w[0];
    let b = w[1];
    let c = w[2];
    &&& a != b
    &&& a != c
    &&& b != c
    &&& xor_rows(a, b) != c
    &&& ccz_found(w, xor_rows(a, b))
    &&& ccz_found(w, xor_rows(a, c))
    &&& ccz_found(w, xor_rows(b, c))
    &&& ccz_found(w, xor_rows(xor_rows(a, b), c))
}

/// The pivot rows making the 3-by-3 submatrix of (a, b, c) invertible.
pub open spec fn ccz_pivot_i(a: Seq<bool>) -> int {
    first_set(a)
}

pub open spec fn ccz_pivot_j(a: Seq<bool>, b: Seq<bool>) -> int {
    first_set(xor_rows(b, scale_col(b[ccz_pivot_i(a)], a)))
}

pub open spec fn ccz_pivot_k(a: Seq<bool>, b: Seq<bool>, c: Seq<bool>) -> int {
    let i = ccz_pivot_i(a);
    let j = ccz_pivot_j(a, b);
    let bp = xor_rows(b, scale_col(b[i], a));
    let cp = xor_rows(c, scale_col(c[i], a));
    first_set(xor_rows(cp, scale_col(cp[j], bp)))
}

/// The remaining set rows of the basis change, in ascending order.
pub open spec fn ccz_rest(
    a: Seq<bool>,
    b: Seq<bool>,
    c: Seq<bool>,
    i: int,
    j: int,
    k: int,
    l: int,
) -> Seq<(usize, usize)>
    decreases l,
{
    if l <= 0 {
        Seq::empty()
    } else {
        ccz_rest(a, b, c, i, j, k, l - 1) + if l - 1 == i || l - 1 == j || l - 1 == k {
            Seq::empty()
        } else {
            (if a[l - 1] {
                seq![((l - 1) as usize, i as usize)]
            } else {
                Seq::empty()
            }) + (if b[l - 1] {
                seq![((l - 1) as usize, j as usize)]
            } else {
                Seq::empty()
            }) + (if c[l - 1] {
                seq![((l - 1) as usize, k as usize)]
            } else {
                Seq::empty()
            })
        }
    }
}

/// The Gaussian-elimination basis change creating parities a, b, c on
/// the pivot rows; the pivot solve comes with control and target already
/// exchanged.
pub open spec fn ccz_basis_change(a: Seq<bool>, b: Seq<bool>, c: Seq<bool>) -> Seq<
    (usize, usize),
> {
    let i = ccz_pivot_i(a);
    let j = ccz_pivot_j(a, b);
    let k = ccz_pivot_k(a, b, c);
    let bp = xor_rows(b, scale_col(b[i], a));
    let cp = xor_rows(c, scale_col(c[i], a));
    (if a[j] {
        seq![(j as usize, i as usize)]
    } else {
        Seq::empty()
    }) + (if a[k] {
        seq![(k as usize, i as usize)]
    } else {
        Seq::empty()
    }) + (if bp[k] {
        seq![(k as usize, j as usize)]
    } else {
        Seq::empty()
    }) + (if c[i] {
        seq![(i as usize, k as usize)]
    } else {
        Seq::empty()
    }) + (if cp[j] {
        seq![(j as usize, k as usize)]
    } else {
        Seq::empty()
    }) + (if b[i] {
        seq![(i as usize, j as usize)]
    } else {
        Seq::empty()
    }) + ccz_rest(a, b, c, i, j, k, a.len() as int)
}

/// The CCZ gadget synthesis: basis change, CCZ on the pivots, its fixed
/// Clifford correction, and the basis change undone.
pub open spec fn ccz_emit(a: Seq<bool>, b: Seq<bool>, c: Seq<bool>, map: Seq<usize>) -> Seq<
    Gate,
> {
    let i = ccz_pivot_i(a);
    let j = ccz_pivot_j(a, b);
    let k = ccz_pivot_k(a, b, c);
    let bc = ccz_basis_change(a, b, c);
    pairs_to_cnots(bc, map) + seq![
        Gate::CCZ(Qubit(map[i]), Qubit(map[j]), Qubit(map[k])),
        Gate::CZ(Qubit(map[i]), Qubit(map[j])),
        Gate::CZ(Qubit(map[i]), Qubit(map[k])),
        Gate::CZ(Qubit(map[j]), Qubit(map[k])),
        Gate::Phase(Phase(4), Qubit(map[i])),
        Gate::Phase(Phase(4), Qubit(map[j])),
        Gate::Phase(Phase(4), Qubit(map[k])),
    ] + pairs_to_cnots_rev(bc, map)
}

/// Whether the seven-column window starting at `idx` is a CCZ pattern.
fn ccz_matches(m: &BoolMat, idx: usize) -> (r: bool)
    requires
        m.wf(),
        idx + 7 <= m.view_cols().len(),
    ensures
        r == ccz_pattern(m.view_cols().subrange(idx as int, idx + 7)),
{
    let ghost w = m.view_cols().subrange(idx as int, idx + 7);
    let ncols = m.cols.len();
    proof {
        assert(m.view_cols().len() == m.cols@.len());
        assert(idx + 7 <= ncols);
        assert(w[0] == m.view_cols()[idx as int]);
        assert(w[1] == m.view_cols()[idx + 1]);
        assert(w[2] == m.view_cols()[idx + 2]);
    }
    let a = &m.cols[idx];
    let b = &m.cols[idx + 1];
    let c = &m.cols[idx + 2];
    if vec_eq(a, b) {
        return false;
    }
    if vec_eq(a, c) {
        return false;
    }
    if vec_eq(b, c) {
        return false;
    }
    let xab = xor_vec(a, b);
    if vec_eq(&xab, c) {
        return false;
    }
    let xac = xor_vec(a, c);
    let xbc = xor_vec(b, c);
    let xabc = xor_vec(&xab, c);
    let mut found_ab = false;
    let mut found_ac = false;
    let mut found_bc = false;
    let mut found_abc = false;
    let mut l: usize = 3;
    while l < 7
        invariant
            3 <= l <= 7,
            idx + 7 <= m.view_cols().len(),
            ncols == m.cols@.len(),
            idx + 7 <= ncols,
            m.wf(),
            w == m.view_cols().subrange(idx as int, idx + 7),
            a@ == w[0] && b@ == w[1] && c@ == w[2],
            a@.len() == m.rows && b@.len() == m.rows && c@.len() == m.rows,
            xab@ == xor_rows(a@, b@),
            xac@ == xor_rows(a@, c@),
            xbc@ == xor_rows(b@, c@),
            xabc@ == xor_rows(xor_rows(a@, b@), c@),
            found_ab ==> ccz_found(w, xor_rows(a@, b@)),
            found_ac ==> ccz_found(w, xor_rows(a@, c@)),
            found_bc ==> ccz_found(w, xor_rows(b@, c@)),
            found_abc ==> ccz_found(w, xor_rows(xor_rows(a@, b@), c@)),
            !found_ab ==> forall|ll: int| 3 <= ll < l ==> w[ll] != xor_rows(a@, b@),
            !found_ac ==> forall|ll: int| 3 <= ll < l ==> w[ll] != xor_rows(a@, c@),
            !found_bc ==> forall|ll: int| 3 <= ll < l ==> w[ll] != xor_rows(b@, c@),
            !found_abc ==> forall|ll: int|
                3 <= ll < l ==> w[ll] != xor_rows(xor_rows(a@, b@), c@),
        decreases 7 - l,
    {
        let d = &m.cols[idx + l];
        proof {
            assert(d@ == w[l as int]);
            assert(d@.len() == m.rows);
        }
        if vec_eq(&xab, d) {
            found_ab = true;
        }
        if vec_eq(&xac, d) {
            found_ac = true;
        }
        if vec_eq(&xbc, d) {
            found_bc = true;
        }
        if vec_eq(&xabc, d) {
            found_abc = true;
        }
        l = l + 1;
    }
    found_ab && found_ac && found_bc && found_abc
}

/// Find the pivot rows and the basis-change pairs of a CCZ gadget.
#[verifier::rlimit(100)]
fn ccz_pivots_bc(a: &Vec<bool>, b: &Vec<bool>, c: &Vec<bool>) -> (r: (
    usize,
    usize,
    usize,
    Vec<(usize, usize)>,
))
    requires
        a@.len() == b@.len() == c@.len(),
        !crate::matrix::zero_col(a@),
        !crate::matrix::zero_col(b@),
        !crate::matrix::zero_col(c@),
        a@ != b@,
        a@ != c@,
        b@ != c@,
        xor_rows(a@, b@) != c@,
    ensures
        r.0 == ccz_pivot_i(a@) && r.0 < a@.len(),
        r.1 == ccz_pivot_j(a@, b@) && r.1 < a@.len(),
        r.2 == ccz_pivot_k(a@, b@, c@) && r.2 < a@.len(),
        r.3@ == ccz_basis_change(a@, b@, c@),
        forall|kk: int|
            0 <= kk < r.3@.len() ==> (#[trigger] r.3@[kk]).0 < a@.len() && r.3@[kk].1 < a@.len(),
{
    let i = match first_true(a) {
        Some(i) => i,
        None => {
            proof {
                lemma_first_set(a@);
                let wi = choose|wi: int| 0 <= wi < a@.len() && a@[wi];
                assert(!a@[wi]);
            }
            vstd::pervasive::unreached()
        },
    };
    let bp = if b[i] {
        xor_vec(b, a)
    } else {
        crate::decompose::copy_bools(b)
    };
    proof {
        assert(bp@ =~= xor_rows(b@, scale_col(b@[i as int], a@)));
    }
    let j = match first_true(&bp) {
        Some(j) => j,
        None => {
            proof {
                lemma_first_set(bp@);
                if b@[i as int] {
                    assert forall|ll: int| 0 <= ll < a@.len() implies a@[ll] == b@[ll] by {
                        assert(!bp@[ll]);
                    }
                    assert(a@ =~= b@);
                } else {
                    let wb = choose|wb: int| 0 <= wb < b@.len() && b@[wb];
                    assert(!bp@[wb]);
                }
            }
            vstd::pervasive::unreached()
        },
    };
    let cp = if c[i] {
        xor_vec(c, a)
    } else {
        crate::decompose::copy_bools(c)
    };
    proof {
        assert(cp@ =~= xor_rows(c@, scale_col(c@[i as int], a@)));
    }
    let cpp = if cp[j] {
        xor_vec(&cp, &bp)
    } else {
        crate::decompose::copy_bools(&cp)
    };
    proof {
        assert(cpp@ =~= xor_rows(cp@, scale_col(cp@[j as int], bp@)));
    }
    let k = match first_true(&cpp) {
        Some(k) => k,
        None => {
            // impossible: c would lie in the span of a and b
            proof {
                lemma_first_set(cpp@);
                let alpha = (c@[i as int] != (cp@[j as int] && b@[i as int]));
                let beta = cp@[j as int];
                assert forall|ll: int| 0 <= ll < c@.len() implies c@[ll] == ((alpha && a@[ll]) != (
                beta && b@[ll])) by {
                    assert(!cpp@[ll]);
                }
                if !alpha && !beta {
                    let wc = choose|wc: int| 0 <= wc < c@.len() && c@[wc];
                    assert(c@[wc] == ((alpha && a@[wc]) != (beta && b@[wc])));
                } else if alpha && !beta {
                    assert(a@ =~= c@);
                } else if !alpha && beta {
                    assert(b@ =~= c@);
                } else {
                    assert(xor_rows(a@, b@) =~= c@);
                }
            }
            vstd::pervasive::unreached()
        },
    };
    proof {
        assert(i == ccz_pivot_i(a@));
        assert(j == ccz_pivot_j(a@, b@));
        assert(k == ccz_pivot_k(a@, b@, c@));
        assert(a@[i as int] && bp@[j as int] && cpp@[k as int]);
        assert(cpp@[i as int] == false);
        assert(cpp@[j as int] == false);
        assert(k != i && k != j && j != i);
    }
    let mut bc: Vec<(usize, usize)> = Vec::new();
    if a[j] {
        bc.push((j, i));
    }
    if a[k] {
        bc.push((k, i));
    }
    if bp[k] {
        bc.push((k, j));
    }
    if c[i] {
        bc.push((i, k));
    }
    if cp[j] {
        bc.push((j, k));
    }
    if b[i] {
        bc.push((i, j));
    }
    let ghost pivot_part = (if a@[j as int] {
        seq![(j as usize, i as usize)]
    } else {
        Seq::<(usize, usize)>::empty()
    }) + (if a@[k as int] {
        seq![(k as usize, i as usize)]
    } else {
        Seq::<(usize, usize)>::empty()
    }) + (if bp@[k as int] {
        seq![(k as usize, j as usize)]
    } else {
        Seq::<(usize, usize)>::empty()
    }) + (if c@[i as int] {
        seq![(i as usize, k as usize)]
    } else {
        Seq::<(usize, usize)>::empty()
    }) + (if cp@[j as int] {
        seq![(j as usize, k as usize)]
    } else {
        Seq::<(usize, usize)>::empty()
    }) + (if b@[i as int] {
        seq![(i as usize, j as usize)]
    } else {
        Seq::<(usize, usize)>::empty()
    });
    proof {
        assert(bc@ =~= pivot_part + ccz_rest(a@, b@, c@, i as int, j as int, k as int, 0));
    }
    let mut l: usize = 0;
    while l < a.len()
        invariant
            0 <= l <= a@.len() == b@.len() == c@.len(),
            i < a@.len(),
            j < a@.len(),
            k < a@.len(),
            bc@ == pivot_part + ccz_rest(a@, b@, c@, i as int, j as int, k as int, l as int),
            forall|kk: int|
                0 <= kk < bc@.len() ==> (#[trigger] bc@[kk]).0 < a@.len() && bc@[kk].1 < a@.len(),
        decreases a@.len() - l,
    {
        if l != i && l != j && l != k {
            if a[l] {
                bc.push((l, i));
            }
            if b[l] {
                bc.push((l, j));
            }
            if c[l] {
                bc.push((l, k));
            }
        }
        proof {
            assert(bc@ =~= pivot_part + ccz_rest(a@, b@, c@, i as int, j as int, k as int, l + 1));
        }
        l = l + 1;
    }
    proof {
        assert(bc@ == ccz_basis_change(a@, b@, c@));
    }
    (i, j, k, bc)
}

impl Circuit {
    /// Recognize and synthesize a CCZ gadget from a seven-column window.
    /// On a match the CCZ gadget circuit is appended; otherwise nothing
    /// changes.
    #[verifier::rlimit(100)]
    pub(crate) fn try_synth_ccz_gadget(&mut self, m: &BoolMat, idx: usize, map: &Vec<usize>) -> (r:
        bool)
        requires
            m.wf(),
            idx + 7 <= m.view_cols().len(),
            map@.len() == m.rows,
            forall|i: int| 0 <= i < map@.len() ==> (#[trigger] map@[i]) < usize::MAX,
            !crate::matrix::zero_col(m.view_cols()[idx as int]),
            !crate::matrix::zero_col(m.view_cols()[idx + 1]),
            !crate::matrix::zero_col(m.view_cols()[idx + 2]),
        ensures
            r == ccz_pattern(m.view_cols().subrange(idx as int, idx + 7)),
            !r ==> *final(self) == *old(self),
            r ==> final(self).gates@ == old(self).gates@ + ccz_emit(
                m.view_cols()[idx as int],
                m.view_cols()[idx + 1],
                m.view_cols()[idx + 2],
                map@,
            ),
            old(self).wf() ==> final(self).wf(),
    {
        let ghost w = m.view_cols().subrange(idx as int, idx + 7);
        let ncols = m.cols.len();
        proof {
            assert(m.view_cols().len() == m.cols@.len());
            assert(idx + 7 <= ncols);
            assert(w[0] == m.view_cols()[idx as int]);
            assert(w[1] == m.view_cols()[idx + 1]);
            assert(w[2] == m.view_cols()[idx + 2]);
        }
        if !ccz_matches(m, idx) {
            return false;
        }
        let a = &m.cols[idx];
        let b = &m.cols[idx + 1];
        let c = &m.cols[idx + 2];
        proof {
            assert(a@ == w[0] && b@ == w[1] && c@ == w[2]);
        }
        let (i, j, k, bc) = ccz_pivots_bc(a, b, c);
        // synthesize: change basis, CCZ, Clifford correction, change back
        let ghost base = self.gates@;
        push_cnot_pairs(&mut self.gates, &bc, map);
        self.gates.push(Gate::CCZ(Qubit(map[i]), Qubit(map[j]), Qubit(map[k])));
        self.gates.push(Gate::CZ(Qubit(map[i]), Qubit(map[j])));
        self.gates.push(Gate::CZ(Qubit(map[i]), Qubit(map[k])));
        self.gates.push(Gate::CZ(Qubit(map[j]), Qubit(map[k])));
        self.gates.push(Gate::Phase(Phase(4), Qubit(map[i])));
        self.gates.push(Gate::Phase(Phase(4), Qubit(map[j])));
        self.gates.push(Gate::Phase(Phase(4), Qubit(map[k])));
        proof {
            let qi = Qubit(map@[i as int]);
            let qj = Qubit(map@[j as int]);
            let qk = Qubit(map@[k as int]);
            assert(forall|qq: Qubit|
                #[trigger] Gate::CCZ(qi, qj, qk).touches(qq) ==> qq == qi || qq == qj || qq == qk);
            assert(forall|qq: Qubit|
                #[trigger] Gate::CZ(qi, qj).touches(qq) ==> qq == qi || qq == qj);
            assert(forall|qq: Qubit|
                #[trigger] Gate::CZ(qi, qk).touches(qq) ==> qq == qi || qq == qk);
            assert(forall|qq: Qubit|
                #[trigger] Gate::CZ(qj, qk).touches(qq) ==> qq == qj || qq == qk);
            assert(forall|qq: Qubit|
                #[trigger] Gate::Phase(Phase(4), qi).touches(qq) ==> qq == qi);
            assert(forall|qq: Qubit|
                #[trigger] Gate::Phase(Phase(4), qj).touches(qq) ==> qq == qj);
            assert(forall|qq: Qubit|
                #[trigger] Gate::Phase(Phase(4), qk).touches(qq) ==> qq == qk);
        }
        push_cnot_pairs_rev(&mut self.gates, &bc, map);
        proof {
            assert(self.gates@ =~= base + ccz_emit(a@, b@, c@, map@));
        }
        true
    }
}

/// The circuit and CCZ/CS/T counts that column-by-column synthesis
/// produces from column `idx` on: the most compact pattern is tried
/// first, and matching never reorders columns.
pub open spec fn resynth_from(
    cols: Seq<Seq<bool>>,
    map: Seq<usize>,
    gadgets: bool,
    idx: int,
) -> (Seq<Gate>, nat, nat, nat)
    decreases cols.len() - idx,
{
    if idx < 0 || idx >= cols.len() {
        (Seq::empty(), 0nat, 0nat, 0nat)
    } else if gadgets && idx + 7 <= cols.len() && ccz_pattern(cols.subrange(idx, idx + 7)) {
        let rest = resynth_from(cols, map, gadgets, idx + 7);
        (
            ccz_emit(cols[idx], cols[idx + 1], cols[idx + 2], map) + rest.0,
            rest.1 + 1,
            rest.2,
            rest.3,
        )
    } else if gadgets && idx + 3 <= cols.len() && cs_pattern(
        cols[idx],
        cols[idx + 1],
        cols[idx + 2],
    ) {
        let rest = resynth_from(cols, map, gadgets, idx + 3);
        (cs_emit(cols[idx], cols[idx + 1], map) + rest.0, rest.1, rest.2 + 1, rest.3)
    } else {
        let rest = resynth_from(cols, map, gadgets, idx + 1);
        (gadget_circuit(Phase(1), cols[idx], map) + rest.0, rest.1, rest.2, rest.3 + 1)
    }
}

/// Synthesize a circuit from a gate synthesis matrix, mapping row `i` to
/// qubit `map[i]`.  With `gadgets` enabled, CCZ and CS column patterns
/// are matched first; every column otherwise becomes one T gadget.  The
/// returned counts are the numbers of CCZ, CS and T gadgets emitted.
#[verifier::rlimit(100)]
pub fn extract_gadgets(a: &BoolMat, map: &Vec<usize>, gadgets: bool) -> (r: (
    Circuit,
    usize,
    usize,
    usize,
))
    requires
        a.wf(),
        map@.len() == a.rows,
        forall|i: int| 0 <= i < map@.len() ==> (#[trigger] map@[i]) < usize::MAX,
        !spec_has_zero_col(a.view_cols()),
    ensures
        ({
            let s = resynth_from(a.view_cols(), map@, gadgets, 0);
            &&& r.0.gates@ == s.0
            &&& r.0.wf()
            &&& r.1 == s.1
            &&& r.2 == s.2
            &&& r.3 == s.3
        }),
{
    let ghost cols = a.view_cols();
    let ghost full = resynth_from(cols, map@, gadgets, 0);
    let ncols = a.cols.len();
    proof {
        assert(cols.len() == a.cols@.len());
    }
    let mut out = Circuit::empty();
    let mut nccz: usize = 0;
    let mut ncs: usize = 0;
    let mut nt: usize = 0;
    let mut idx: usize = 0;
    proof {
        assert(full.0 =~= out.gates@ + resynth_from(cols, map@, gadgets, 0).0);
    }
    while idx < ncols
        invariant
            0 <= idx <= ncols,
            ncols == cols.len(),
            cols == a.view_cols(),
            a.wf(),
            map@.len() == a.rows,
            forall|i: int| 0 <= i < map@.len() ==> (#[trigger] map@[i]) < usize::MAX,
            !spec_has_zero_col(cols),
            full == resynth_from(cols, map@, gadgets, 0),
            out.wf(),
            nccz + ncs + nt <= idx,
            full.0 == out.gates@ + resynth_from(cols, map@, gadgets, idx as int).0,
            full.1 == nccz + resynth_from(cols, map@, gadgets, idx as int).1,
            full.2 == ncs + resynth_from(cols, map@, gadgets, idx as int).2,
            full.3 == nt + resynth_from(cols, map@, gadgets, idx as int).3,
        decreases ncols - idx,
    {
        let ghost rest = resynth_from(cols, map@, gadgets, idx as int);
        let ghost out0 = out.gates@;
        proof {
            assert(!zero_col(cols[idx as int]));
            if idx + 2 < ncols {
                assert(!zero_col(cols[idx + 1]));
                assert(!zero_col(cols[idx + 2]));
            }
            assert(cols[idx as int].len() == a.rows);
        }
        let mut done = false;
        if gadgets && ncols - idx >= 7 {
            if out.try_synth_ccz_gadget(a, idx, map) {
                proof {
                    assert(rest.0 == ccz_emit(
                        cols[idx as int],
                        cols[idx + 1],
                        cols[idx + 2],
                        map@,
                    ) + resynth_from(cols, map@, gadgets, idx + 7).0);
                    assert(out0 + rest.0 =~= out.gates@ + resynth_from(
                        cols,
                        map@,
                        gadgets,
                        idx + 7,
                    ).0);
                }
                idx = idx + 7;
                nccz = nccz + 1;
                done = true;
            }
        }
        if !done && gadgets && ncols - idx >= 3 {
            proof {
                assert(cols[idx + 1].len() == a.rows);
                assert(cols[idx + 2].len() == a.rows);
                assert(!zero_col(cols[idx + 1]));
            }
            if out.try_synth_cs_gadget(&a.cols[idx], &a.cols[idx + 1], &a.cols[idx + 2], map) {
                proof {
                    assert(cs_pattern(cols[idx as int], cols[idx + 1], cols[idx + 2]));
                    assert(rest.0 == cs_emit(cols[idx as int], cols[idx + 1], map@)
                        + resynth_from(cols, map@, gadgets, idx + 3).0);
                    assert(out0 + rest.0 =~= out.gates@ + resynth_from(
                        cols,
                        map@,
                        gadgets,
                        idx + 3,
                    ).0);
                }
                idx = idx + 3;
                ncs = ncs + 1;
                done = true;
            }
        }
        if !done {
            out.synth_gadget(&a.cols[idx], map);
            proof {
                assert(rest.0 == gadget_circuit(Phase(1), cols[idx as int], map@) + resynth_from(
                    cols,
                    map@,
                    gadgets,
                    idx + 1,
                ).0);
                assert(out0 + rest.0 =~= out.gates@ + resynth_from(cols, map@, gadgets, idx + 1).0);
            }
            idx = idx + 1;
            nt = nt + 1;
        }
    }
    proof {
        assert(resynth_from(cols, map@, gadgets, idx as int).0 =~= Seq::<Gate>::empty());
        assert(out.gates@ + resynth_from(cols, map@, gadgets, idx as int).0 =~= out.gates@);
    }
    (out, nccz, ncs, nt)
}

/// The signature tensor entry: the parity over all columns of the AND of
/// rows `i`, `j` and `k`.
pub open spec fn sig_entry(cols: Seq<Seq<bool>>, i: int, j: int, k: int) -> bool
    decreases cols.len(),
{
    if cols.len() == 0 {
        false
    } else {
        sig_entry(cols.drop_last(), i, j, k) != (cols.last()[i] && cols.last()[j]
            && cols.last()[k])
    }
}

/// Construct the signature tensor from a gate synthesis matrix.
/// Up to a rescaling and modulus, this is the same as the phase
/// polynomial tensor; it is invariant under re-synthesis choices.
pub fn find_signature_tensor(a: &BoolMat) -> (t: Vec<Vec<Vec<bool>>>)
    requires
        a.wf(),
    ensures
        t@.len() == a.rows,
        forall|i: int| 0 <= i < a.rows ==> (#[trigger] t@[i])@.len() == a.rows,
        forall|i: int, j: int|
            0 <= i < a.rows && 0 <= j < a.rows ==> (#[trigger] t@[i]@[j])@.len() == a.rows,
        forall|i: int, j: int, k: int|
            0 <= i < a.rows && 0 <= j < a.rows && 0 <= k < a.rows ==> (#[trigger] t@[i]@[j]@[k])
                == sig_entry(a.view_cols(), i, j, k),
{
    let n = a.rows;
    let mut t: Vec<Vec<Vec<bool>>> = Vec::new();
    let mut i: usize = 0;
    while i < n
        invariant
            0 <= i <= n == a.rows,
            a.wf(),
            t@.len() == i,
            forall|ii: int| 0 <= ii < i ==> (#[trigger] t@[ii])@.len() == n,
            forall|ii: int, j: int|
                0 <= ii < i && 0 <= j < n ==> (#[trigger] t@[ii]@[j])@.len() == n,
            forall|ii: int, j: int, k: int|
                0 <= ii < i && 0 <= j < n && 0 <= k < n ==> (#[trigger] t@[ii]@[j]@[k])
                    == sig_entry(a.view_cols(), ii, j, k),
        decreases n - i,
    {
        let mut ti: Vec<Vec<bool>> = Vec::new();
        let mut j: usize = 0;
        while j < n
            invariant
                0 <= j <= n == a.rows,
                i < n,
                a.wf(),
                ti@.len() == j,
                forall|jj: int| 0 <= jj < j ==> (#[trigger] ti@[jj])@.len() == n,
                forall|jj: int, k: int|
                    0 <= jj < j && 0 <= k < n ==> (#[trigger] ti@[jj]@[k]) == sig_entry(
                        a.view_cols(),
                        i as int,
                        jj,
                        k,
                    ),
            decreases n - j,
        {
            let mut tj: Vec<bool> = Vec::new();
            let mut k: usize = 0;
            while k < n
                invariant
                    0 <= k <= n == a.rows,
                    i < n,
                    j < n,
                    a.wf(),
                    tj@.len() == k,
                    forall|kk: int|
                        0 <= kk < k ==> (#[trigger] tj@[kk]) == sig_entry(
                            a.view_cols(),
                            i as int,
                            j as int,
                            kk,
                        ),
                decreases n - k,
            {
                let mut acc = false;
                let mut l: usize = 0;
                proof {
                    assert(a.view_cols().subrange(0, 0) =~= Seq::<Seq<bool>>::empty());
                }
                while l < a.cols.len()
                    invariant
                        0 <= l <= a.cols@.len(),
                        i < n,
                        j < n,
                        k < n,
                        n == a.rows,
                        a.wf(),
                        acc == sig_entry(
                            a.view_cols().subrange(0, l as int),
                            i as int,
                            j as int,
                            k as int,
                        ),
                    decreases a.cols@.len() - l,
                {
                    proof {
                        assert(a.view_cols().subrange(0, l + 1).drop_last() =~= a.view_cols()
                            .subrange(0, l as int));
                        assert(a.view_cols().subrange(0, l + 1).last() == a.view_cols()[l as int]);
                    }
                    acc = acc != (a.cols[l][i] && a.cols[l][j] && a.cols[l][k]);
                    l = l + 1;
                }
                proof {
                    assert(a.view_cols().subrange(0, a.view_cols().len() as int) =~= a.view_cols());
                }
                tj.push(acc);
                k = k + 1;
            }
            ti.push(tj);
            j = j + 1;
        }
        t.push(ti);
        i = i + 1;
    }
    t
}

/// Nested tensor view of a three-dimensional array.
pub open spec fn t3_view(t: Vec<Vec<Vec<usize>>>) -> Seq<Seq<Seq<usize>>> {
    t@.map_values(|x: Vec<Vec<usize>>| x@.map_values(|y: Vec<usize>| y@))
}

/// A cubic tensor over `n` qubits with entries below 8.
pub open spec fn t3_wf(t: Seq<Seq<Seq<usize>>>, n: nat) -> bool {
    &&& t.len() == n
    &&& forall|i: int| 0 <= i < n ==> (#[trigger] t[i]).len() == n
    &&& forall|i: int, j: int| 0 <= i < n && 0 <= j < n ==> (#[trigger] t[i][j]).len() == n
    &&& forall|i: int, j: int, k: int|
        0 <= i < n && 0 <= j < n && 0 <= k < n ==> (#[trigger] t[i][j][k]) < 8
}

pub open spec fn t3_set(t: Seq<Seq<Seq<usize>>>, i: int, j: int, k: int, v: usize) -> Seq<
    Seq<Seq<usize>>,
> {
    t.update(i, t[i].update(j, t[i][j].update(k, v)))
}

/// Write one tensor entry.
fn t3_write(t: &mut Vec<Vec<Vec<usize>>>, n: usize, i: usize, j: usize, k: usize, v: usize)
    requires
        t3_wf(t3_view(*old(t)), n as nat),
        i < n,
        j < n,
        k < n,
    ensures
        t3_view(*final(t)) == t3_set(t3_view(*old(t)), i as int, j as int, k as int, v),
{
    proof {
        assert(t3_view(*t).len() == t@.len());
        assert(t3_view(*t)[i as int] == t@[i as int]@.map_values(|y: Vec<usize>| y@));
        assert(t3_view(*t)[i as int][j as int] == t@[i as int]@[j as int]@);
    }
    t[i][j].set(k, v);
    proof {
        assert(t3_view(*t) =~~= t3_set(t3_view(*old(t)), i as int, j as int, k as int, v));
    }
}

/// Read one tensor entry.
fn t3_read(t: &Vec<Vec<Vec<usize>>>, n: usize, i: usize, j: usize, k: usize) -> (v: usize)
    requires
        t3_wf(t3_view(*t), n as nat),
        i < n,
        j < n,
        k < n,
    ensures
        v == t3_view(*t)[i as int][j as int][k as int],
        v < 8,
{
    proof {
        assert(t3_view(*t).len() == t@.len());
        assert(t3_view(*t)[i as int] == t@[i as int]@.map_values(|y: Vec<usize>| y@));
        assert(t3_view(*t)[i as int][j as int] == t@[i as int]@[j as int]@);
        assert(t3_view(*t)[i as int][j as int][k as int] < 8);
    }
    t[i][j][k]
}

/// The first-stage phase polynomial entry contributed by the columns:
/// cubic terms count triple overlaps, quadratic and diagonal terms carry
/// the weights fixed by the column count mod 8.
pub open spec fn stage1_cubic(cols: Seq<Seq<bool>>, i: int, j: int, k: int) -> usize
    decreases cols.len(),
{
    if cols.len() == 0 {
        0
    } else {
        ((stage1_cubic(cols.drop_last(), i, j, k) + (if cols.last()[i] && cols.last()[j]
            && cols.last()[k] {
            1int
        } else {
            0int
        })) % 8) as usize
    }
}

pub open spec fn stage1_quad(cols: Seq<Seq<bool>>, np: int, i: int, j: int) -> usize
    decreases cols.len(),
{
    if cols.len() == 0 {
        0
    } else {
        ((stage1_quad(cols.drop_last(), np, i, j) + (11 - np) * (if cols.last()[i]
            && cols.last()[j] {
            1int
        } else {
            0int
        })) % 8) as usize
    }
}

pub open spec fn stage1_diag(cols: Seq<Seq<bool>>, np: int, i: int) -> usize
    decreases cols.len(),
{
    if cols.len() == 0 {
        0
    } else {
        ((stage1_diag(cols.drop_last(), np, i) + (np + 6) * (np + 5) * (if cols.last()[i] {
            1int
        } else {
            0int
        })) % 8) as usize
    }
}

pub open spec fn stage1_entry(cols: Seq<Seq<bool>>, n: nat, i: int, j: int, k: int) -> usize {
    if i == j && j == k {
        stage1_diag(cols, (n % 8) as int, i)
    } else if k == j && j < i {
        stage1_quad(cols, (n % 8) as int, i, j)
    } else if k < j && j < i {
        stage1_cubic(cols, i, j, k)
    } else {
        0
    }
}

pub open spec fn stage1_tensor(cols: Seq<Seq<bool>>, n: nat) -> Seq<Seq<Seq<usize>>> {
    Seq::new(n, |i: int| Seq::new(n, |j: int| Seq::new(n, |k: int| stage1_entry(cols, n, i, j, k))))
}

/// One cubic-term rewriting step: the term at (i, j, k) is folded into
/// the three diagonals and three quadratics and rescaled by 4.
pub open spec fn s2_one(t: Seq<Seq<Seq<usize>>>, i: int, j: int, k: int) -> Seq<Seq<Seq<usize>>> {
    let v = t[i][j][k] as int;
    if v == 0 {
        t
    } else {
        let di = ((t[i][i][i] + 7 * v) % 8) as usize;
        let dj = ((t[j][j][j] + 7 * v) % 8) as usize;
        let dk = ((t[k][k][k] + 7 * v) % 8) as usize;
        let qij = ((t[i][j][j] + v) % 8) as usize;
        let qik = ((t[i][k][k] + v) % 8) as usize;
        let qjk = ((t[j][k][k] + v) % 8) as usize;
        let cv = ((4 * v) % 8) as usize;
        t3_set(
            t3_set(
                t3_set(
                    t3_set(t3_set(t3_set(t3_set(t, i, i, i, di), j, j, j, dj), k, k, k, dk), i, j, j, qij),
                    i,
                    k,
                    k,
                    qik,
                ),
                j,
                k,
                k,
                qjk,
            ),
            i,
            j,
            k,
            cv,
        )
    }
}

pub open spec fn s2_k(t: Seq<Seq<Seq<usize>>>, i: int, j: int, kb: int) -> Seq<Seq<Seq<usize>>>
    decreases kb,
{
    if kb <= 0 {
        t
    } else {
        s2_one(s2_k(t, i, j, kb - 1), i, j, kb - 1)
    }
}

pub open spec fn s2_j(t: Seq<Seq<Seq<usize>>>, i: int, jb: int) -> Seq<Seq<Seq<usize>>>
    decreases jb,
{
    if jb <= 0 {
        t
    } else {
        s2_k(s2_j(t, i, jb - 1), i, jb - 1, jb - 1)
    }
}

pub open spec fn s2_i(t: Seq<Seq<Seq<usize>>>, ib: int) -> Seq<Seq<Seq<usize>>>
    decreases ib,
{
    if ib <= 0 {
        t
    } else {
        s2_j(s2_i(t, ib - 1), ib - 1, ib - 1)
    }
}

/// One quadratic-term rewriting step: the term at (i, j, j) is folded
/// into both diagonals and rescaled by 6.
pub open spec fn s3_one(t: Seq<Seq<Seq<usize>>>, i: int, j: int) -> Seq<Seq<Seq<usize>>> {
    let v = t[i][j][j] as int;
    if v == 0 {
        t
    } else {
        let di = ((t[i][i][i] + v) % 8) as usize;
        let dj = ((t[j][j][j] + v) % 8) as usize;
        let qv = ((6 * v) % 8) as usize;
        t3_set(t3_set(t3_set(t, i, i, i, di), j, j, j, dj), i, j, j, qv)
    }
}

pub open spec fn s3_j(t: Seq<Seq<Seq<usize>>>, i: int, jb: int) -> Seq<Seq<Seq<usize>>>
    decreases jb,
{
    if jb <= 0 {
        t
    } else {
        s3_one(s3_j(t, i, jb - 1), i, jb - 1)
    }
}

pub open spec fn s3_i(t: Seq<Seq<Seq<usize>>>, ib: int) -> Seq<Seq<Seq<usize>>>
    decreases ib,
{
    if ib <= 0 {
        t
    } else {
        s3_j(s3_i(t, ib - 1), ib - 1, ib - 1)
    }
}

/// The phase polynomial of a synthesis matrix: the weighted parity
/// counts, with every cubic term rewritten into lower-degree terms and
/// every off-diagonal quadratic term folded into the diagonals.
pub open spec fn phase_poly(cols: Seq<Seq<bool>>, n: nat) -> Seq<Seq<Seq<usize>>> {
    s3_i(s2_i(stage1_tensor(cols, n), n as int), n as int)
}

/// The parity matrix after a gate sequence, starting from `m`.
pub open spec fn rows_fold(m: Seq<Seq<bool>>, s: Seq<Gate>) -> Seq<Seq<bool>>
    decreases s.len(),
{
    if s.len() == 0 {
        m
    } else {
        rows_step(rows_fold(m, s.drop_last()), s.last())
    }
}

/// The phase gadgets of a gate sequence relative to an incoming parity
/// matrix `m`.
pub open spec fn gadget_fold(m: Seq<Seq<bool>>, s: Seq<Gate>) -> Seq<(Phase, Seq<bool>)>
    decreases s.len(),
{
    if s.len() == 0 {
        Seq::empty()
    } else {
        gadget_fold(m, s.drop_last()) + (match s.last() {
            Gate::Phase(p, q) => seq![(p, rows_fold(m, s.drop_last())[q.0 as int])],
            _ => Seq::empty(),
        })
    }
}

pub proof fn lemma_fold_is_after(s: Seq<Gate>, n: nat)
    ensures
        rows_after(s, n) == rows_fold(ident_rows(n), s),
        gadgets_of(s, n) == gadget_fold(ident_rows(n), s),
    decreases s.len(),
{
    if s.len() == 0 {
    } else {
        lemma_fold_is_after(s.drop_last(), n);
    }
}

pub proof fn lemma_rows_fold_concat(m: Seq<Seq<bool>>, s1: Seq<Gate>, s2: Seq<Gate>)
    ensures
        rows_fold(m, s1 + s2) == rows_fold(rows_fold(m, s1), s2),
    decreases s2.len(),
{
    if s2.len() == 0 {
        assert(s1 + s2 =~= s1);
    } else {
        lemma_rows_fold_concat(m, s1, s2.drop_last());
        assert((s1 + s2).drop_last() =~= s1 + s2.drop_last());
        assert((s1 + s2).last() == s2.last());
    }
}

pub proof fn lemma_gadget_fold_concat(m: Seq<Seq<bool>>, s1: Seq<Gate>, s2: Seq<Gate>)
    ensures
        gadget_fold(m, s1 + s2) == gadget_fold(m, s1) + gadget_fold(rows_fold(m, s1), s2),
    decreases s2.len(),
{
    if s2.len() == 0 {
        assert(s1 + s2 =~= s1);
        assert(gadget_fold(m, s1) + gadget_fold(rows_fold(m, s1), s2) =~= gadget_fold(m, s1));
    } else {
        lemma_gadget_fold_concat(m, s1, s2.drop_last());
        assert((s1 + s2).drop_last() =~= s1 + s2.drop_last());
        assert((s1 + s2).last() == s2.last());
        lemma_rows_fold_concat(m, s1, s2.drop_last());
        match s2.last() {
            Gate::Phase(p, q) => {
                assert(gadget_fold(m, s1 + s2) =~= gadget_fold(m, s1) + gadget_fold(
                    rows_fold(m, s1),
                    s2,
                ));
            },
            _ => {
                assert(gadget_fold(m, s1 + s2) =~= gadget_fold(m, s1) + gadget_fold(
                    rows_fold(m, s1),
                    s2,
                ));
            },
        }
    }
}

proof fn lemma_fold_singleton(m: Seq<Seq<bool>>, g: Gate)
    ensures
        rows_fold(m, seq![g]) == rows_step(m, g),
        gadget_fold(m, seq![g]) == (match g {
            Gate::Phase(p, q) => seq![(p, m[q.0 as int])],
            _ => Seq::<(Phase, Seq<bool>)>::empty(),
        }),
{
    let s = seq![g];
    assert(s.drop_last() =~= Seq::<Gate>::empty());
    assert(s.last() == g);
    assert(rows_fold(m, s.drop_last()) == m);
    assert(gadget_fold(m, s.drop_last()) == Seq::<(Phase, Seq<bool>)>::empty());
    match g {
        Gate::Phase(p, q) => {
            assert(gadget_fold(m, s) =~= seq![(p, m[q.0 as int])]);
        },
        _ => {
            assert(gadget_fold(m, s) =~= Seq::<(Phase, Seq<bool>)>::empty());
        },
    }
}

/// An injective qubit map.
pub open spec fn map_injective(map: Seq<usize>) -> bool {
    forall|r1: int, r2: int|
        0 <= r1 < map.len() && 0 <= r2 < map.len() && r1 != r2 ==> #[trigger] map[r1]
            != #[trigger] map[r2]
}

/// A matrix column transported to the mapped qubit space.
pub open spec fn scatter_col(col: Seq<bool>, map: Seq<usize>, n: nat) -> Seq<bool> {
    Seq::new(n, |q: int| exists|r: int| 0 <= r < col.len() && map[r] == q && col[r])
}

/// The row that the target qubit holds once the ascending fan has
/// processed the rows below `k`.
pub open spec fn fan_row(col: Seq<bool>, map: Seq<usize>, t: int, k: int, n: nat) -> Seq<bool> {
    Seq::new(
        n,
        |j: int|
            (j == map[t]) != (exists|r: int| 0 <= r < k && r != t && map[r] == j && col[r]),
    )
}

proof fn lemma_fan_up_rows(col: Seq<bool>, map: Seq<usize>, t: int, k: int, n: nat)
    requires
        col.len() == map.len(),
        map_injective(map),
        forall|r: int| 0 <= r < map.len() ==> (#[trigger] map[r]) < n,
        0 <= t < col.len(),
        0 <= k <= col.len(),
    ensures
        rows_fold(ident_rows(n), fan_up(col, t, map, k)) == ident_rows(n).update(
            map[t] as int,
            fan_row(col, map, t, k, n),
        ),
        gadget_fold(ident_rows(n), fan_up(col, t, map, k)) == Seq::<(Phase, Seq<bool>)>::empty(),
    decreases k,
{
    let ident = ident_rows(n);
    let tq = map[t] as int;
    if k == 0 {
        assert(fan_row(col, map, t, 0, n) =~= unit_row(n, tq));
        assert(ident.update(tq, fan_row(col, map, t, 0, n)) =~= ident);
    } else {
        lemma_fan_up_rows(col, map, t, k - 1, n);
        let pre = fan_up(col, t, map, k - 1);
        let m1 = ident.update(tq, fan_row(col, map, t, k - 1, n));
        if col[k - 1] && k - 1 != t {
            let g = Gate::CNOT(Qubit(map[k - 1]), Qubit(map[t]));
            assert(fan_up(col, t, map, k) =~= pre + seq![g]);
            lemma_rows_fold_concat(ident, pre, seq![g]);
            lemma_gadget_fold_concat(ident, pre, seq![g]);
            lemma_fold_singleton(m1, g);
            // the source row is still a unit row
            assert(map[k - 1] != map[t]);
            assert(m1[map[k - 1] as int] == unit_row(n, map[k - 1] as int));
            assert(xor_rows(m1[tq], m1[map[k - 1] as int]) =~= fan_row(col, map, t, k, n)) by {
                assert forall|j: int| 0 <= j < n implies (fan_row(col, map, t, k - 1, n)[j] != (
                unit_row(n, map[k - 1] as int)[j])) == fan_row(col, map, t, k, n)[j] by {
                    if j == map[k - 1] {
                        assert(forall|r: int|
                            0 <= r < k - 1 && r != t && #[trigger] map[r] == j ==> false);
                        assert(exists|r: int|
                            0 <= r < k && r != t && #[trigger] map[r] == j && col[r]) by {
                            assert(map[k - 1] == j && col[k - 1]);
                        }
                        assert(j != map[t]);
                    } else {
                        assert(forall|r: int|
                            0 <= r < k && r != t && #[trigger] map[r] == j && col[r] ==> r < k
                                - 1);
                        assert(forall|r: int|
                            0 <= r < k - 1 && r != t && #[trigger] map[r] == j && col[r] ==> r
                                < k);
                    }
                }
            }
            assert(rows_step(m1, g) =~= ident.update(tq, fan_row(col, map, t, k, n)));
        } else {
            assert(fan_up(col, t, map, k) =~= pre);
            assert(fan_row(col, map, t, k, n) =~= fan_row(col, map, t, k - 1, n)) by {
                assert forall|j: int| 0 <= j < n implies fan_row(col, map, t, k, n)[j]
                    == fan_row(col, map, t, k - 1, n)[j] by {
                    assert(forall|r: int|
                        0 <= r < k && r != t && #[trigger] map[r] == j && col[r] ==> r < k - 1);
                }
            }
        }
    }
}

proof fn lemma_fan_down_rows(col: Seq<bool>, map: Seq<usize>, t: int, k: int, n: nat)
    requires
        col.len() == map.len(),
        map_injective(map),
        forall|r: int| 0 <= r < map.len() ==> (#[trigger] map[r]) < n,
        0 <= t < col.len(),
        0 <= k <= col.len(),
    ensures
        rows_fold(
            ident_rows(n).update(map[t] as int, fan_row(col, map, t, k, n)),
            fan_down(col, t, map, k),
        ) == ident_rows(n),
        gadget_fold(
            ident_rows(n).update(map[t] as int, fan_row(col, map, t, k, n)),
            fan_down(col, t, map, k),
        ) == Seq::<(Phase, Seq<bool>)>::empty(),
    decreases k,
{
    let ident = ident_rows(n);
    let tq = map[t] as int;
    let m1 = ident.update(tq, fan_row(col, map, t, k, n));
    if k == 0 {
        assert(fan_row(col, map, t, 0, n) =~= unit_row(n, tq));
        assert(m1 =~= ident);
    } else {
        let rest = fan_down(col, t, map, k - 1);
        let m2 = ident.update(tq, fan_row(col, map, t, k - 1, n));
        if col[k - 1] && k - 1 != t {
            let g = Gate::CNOT(Qubit(map[k - 1]), Qubit(map[t]));
            assert(fan_down(col, t, map, k) =~= seq![g] + rest);
            lemma_rows_fold_concat(m1, seq![g], rest);
            lemma_gadget_fold_concat(m1, seq![g], rest);
            lemma_fold_singleton(m1, g);
            assert(map[k - 1] != map[t]);
            assert(m1[map[k - 1] as int] == unit_row(n, map[k - 1] as int));
            assert(xor_rows(m1[tq], m1[map[k - 1] as int]) =~= fan_row(col, map, t, k - 1, n))
                by {
                assert forall|j: int| 0 <= j < n implies (fan_row(col, map, t, k, n)[j] != (
                unit_row(n, map[k - 1] as int)[j])) == fan_row(col, map, t, k - 1, n)[j] by {
                    if j == map[k - 1] {
                        assert(forall|r: int|
                            0 <= r < k - 1 && r != t && #[trigger] map[r] == j ==> false);
                        assert(exists|r: int|
                            0 <= r < k && r != t && #[trigger] map[r] == j && col[r]) by {
                            assert(map[k - 1] == j && col[k - 1]);
                        }
                        assert(j != map[t]);
                    } else {
                        assert(forall|r: int|
                            0 <= r < k && r != t && #[trigger] map[r] == j && col[r] ==> r < k
                                - 1);
                        assert(forall|r: int|
                            0 <= r < k - 1 && r != t && #[trigger] map[r] == j && col[r] ==> r
                                < k);
                    }
                }
            }
            assert(rows_step(m1, g) =~= m2);
            lemma_fan_down_rows(col, map, t, k - 1, n);
        } else {
            assert(fan_down(col, t, map, k) =~= rest);
            assert(fan_row(col, map, t, k, n) =~= fan_row(col, map, t, k - 1, n)) by {
                assert forall|j: int| 0 <= j < n implies fan_row(col, map, t, k, n)[j]
                    == fan_row(col, map, t, k - 1, n)[j] by {
                    assert(forall|r: int|
                        0 <= r < k && r != t && #[trigger] map[r] == j && col[r] ==> r < k - 1);
                }
            }
            lemma_fan_down_rows(col, map, t, k - 1, n);
        }
    }
}

/// One fallback T gadget leaves the parity matrix unchanged and records
/// exactly its column, transported through the qubit map.
pub proof fn lemma_gadget_inverse_one(col: Seq<bool>, map: Seq<usize>, n: nat)
    requires
        col.len() == map.len(),
        map_injective(map),
        forall|r: int| 0 <= r < map.len() ==> (#[trigger] map[r]) < n,
        !crate::matrix::zero_col(col),
    ensures
        rows_fold(ident_rows(n), gadget_circuit(Phase(1), col, map)) == ident_rows(n),
        gadget_fold(ident_rows(n), gadget_circuit(Phase(1), col, map)) == seq![
            (Phase(1), scatter_col(col, map, n)),
        ],
{
    let ident = ident_rows(n);
    let t = first_set(col);
    lemma_first_set(col);
    if t == -1 {
        let w = choose|w: int| 0 <= w < col.len() && col[w];
        assert(!col[w]);
    }
    let tq = map[t] as int;
    let len = col.len() as int;
    let up = fan_up(col, t, map, len);
    let ph = seq![Gate::Phase(Phase(1), Qubit(map[t]))];
    let down = fan_down(col, t, map, len);
    lemma_fan_up_rows(col, map, t, len, n);
    let m1 = ident.update(tq, fan_row(col, map, t, len, n));
    assert(fan_row(col, map, t, len, n) =~= scatter_col(col, map, n)) by {
        assert forall|j: int| 0 <= j < n implies fan_row(col, map, t, len, n)[j] == scatter_col(
            col,
            map,
            n,
        )[j] by {
            if j == map[t] {
                assert(forall|r: int| 0 <= r < len && r != t && #[trigger] map[r] == j ==> false);
                assert(exists|r: int| 0 <= r < len && #[trigger] map[r] == j && col[r]) by {
                    assert(map[t] == j && col[t]);
                }
            } else {
                assert(forall|r: int|
                    0 <= r < len && #[trigger] map[r] == j && col[r] ==> r != t);
            }
        }
    }
    // the whole gadget: fan up, phase, fan down
    lemma_rows_fold_concat(ident, up, ph);
    lemma_rows_fold_concat(ident, up + ph, down);
    lemma_gadget_fold_concat(ident, up, ph);
    lemma_gadget_fold_concat(ident, up + ph, down);
    lemma_fold_singleton(m1, Gate::Phase(Phase(1), Qubit(map[t])));
    assert(rows_fold(m1, ph) == m1);
    assert(gadget_fold(m1, ph) =~= seq![(Phase(1), m1[tq])]);
    assert(m1[tq] == fan_row(col, map, t, len, n));
    assert(rows_fold(ident, up + ph) == m1);
    lemma_fan_down_rows(col, map, t, len, n);
    assert(gadget_circuit(Phase(1), col, map) == up + ph + down);
    assert(rows_fold(ident, up + ph + down) == ident);
    assert(gadget_fold(ident, up + ph + down) =~= seq![(Phase(1), scatter_col(col, map, n))]);
}

/// Extraction/re-synthesis inverse law: fallback re-synthesis of a
/// matrix whose columns are all nonzero yields a CNOT+Phase circuit
/// whose own extraction semantics are exactly the matrix again — the
/// linear part is the identity, and the recorded gadgets are one T per
/// column, in order, on the mapped parities.
pub proof fn lemma_resynth_fallback_inverse(cols: Seq<Seq<bool>>, map: Seq<usize>, n: nat)
    requires
        forall|c: int|
            0 <= c < cols.len() ==> (#[trigger] cols[c]).len() == map.len() && !crate::matrix::zero_col(
                cols[c],
            ),
        map_injective(map),
        forall|r: int| 0 <= r < map.len() ==> (#[trigger] map[r]) < n,
    ensures
        rows_after(resynth_from(cols, map, false, 0).0, n) == ident_rows(n),
        gadgets_of(resynth_from(cols, map, false, 0).0, n) == Seq::new(
            cols.len(),
            |c: int| (Phase(1), scatter_col(cols[c], map, n)),
        ),
{
    lemma_fold_is_after(resynth_from(cols, map, false, 0).0, n);
    lemma_resynth_inverse_from(cols, map, n, 0);
    assert(gadget_fold(ident_rows(n), resynth_from(cols, map, false, 0).0) =~= Seq::new(
        cols.len(),
        |c: int| (Phase(1), scatter_col(cols[c], map, n)),
    ));
}

proof fn lemma_resynth_inverse_from(cols: Seq<Seq<bool>>, map: Seq<usize>, n: nat, idx: int)
    requires
        forall|c: int|
            0 <= c < cols.len() ==> (#[trigger] cols[c]).len() == map.len() && !crate::matrix::zero_col(
                cols[c],
            ),
        map_injective(map),
        forall|r: int| 0 <= r < map.len() ==> (#[trigger] map[r]) < n,
        0 <= idx <= cols.len(),
    ensures
        rows_fold(ident_rows(n), resynth_from(cols, map, false, idx).0) == ident_rows(n),
        gadget_fold(ident_rows(n), resynth_from(cols, map, false, idx).0) == Seq::new(
            (cols.len() - idx) as nat,
            |c: int| (Phase(1), scatter_col(cols[idx + c], map, n)),
        ),
    decreases cols.len() - idx,
{
    let ident = ident_rows(n);
    if idx == cols.len() {
        assert(resynth_from(cols, map, false, idx).0 =~= Seq::<Gate>::empty());
        assert(gadget_fold(ident, resynth_from(cols, map, false, idx).0) =~= Seq::new(
            0nat,
            |c: int| (Phase(1), scatter_col(cols[idx + c], map, n)),
        ));
    } else {
        let head = gadget_circuit(Phase(1), cols[idx], map);
        let rest = resynth_from(cols, map, false, idx + 1).0;
        assert(resynth_from(cols, map, false, idx).0 == head + rest);
        lemma_gadget_inverse_one(cols[idx], map, n);
        lemma_resynth_inverse_from(cols, map, n, idx + 1);
        lemma_rows_fold_concat(ident, head, rest);
        lemma_gadget_fold_concat(ident, head, rest);
        assert(gadget_fold(ident, head + rest) =~= Seq::new(
            (cols.len() - idx) as nat,
            |c: int| (Phase(1), scatter_col(cols[idx + c], map, n)),
        ));
    }
}

/// Construct a tensor representing the phase polynomial corresponding
/// to a gate synthesis matrix.  The coefficient of the x_i*x_j*x_k term
/// with i > j > k is element (i, j, k), for the x_i*x_j term with i > j
/// it is element (i, j, j), and for the x_i term it is element (i, i, i).
#[verifier::rlimit(100)]
pub(crate) fn find_phase_polynomial(a: &BoolMat) -> (t: Vec<Vec<Vec<usize>>>)
    requires
        a.wf(),
    ensures
        t3_view(t) == phase_poly(a.view_cols(), a.rows as nat),
        t3_wf(t3_view(t), a.rows as nat),
{
    let ghost cols = a.view_cols();
    let n = a.rows;
    let np = n % 8;
    proof {
        assert(cols.len() == a.cols@.len());
    }

    // weighted parity counts, entry by entry
    let mut t: Vec<Vec<Vec<usize>>> = Vec::new();
    let mut i: usize = 0;
    while i < n
        invariant
            0 <= i <= n == a.rows,
            np == n % 8,
            a.wf(),
            cols == a.view_cols(),
            t@.len() == i,
            forall|ii: int| 0 <= ii < i ==> (#[trigger] t@[ii])@.len() == n,
            forall|ii: int, j: int|
                0 <= ii < i && 0 <= j < n ==> (#[trigger] t@[ii]@[j])@.len() == n,
            forall|ii: int, j: int, k: int|
                0 <= ii < i && 0 <= j < n && 0 <= k < n ==> (#[trigger] t@[ii]@[j]@[k])
                    == stage1_entry(cols, n as nat, ii, j, k) && t@[ii]@[j]@[k] < 8,
        decreases n - i,
    {
        let mut ti: Vec<Vec<usize>> = Vec::new();
        let mut j: usize = 0;
        while j < n
            invariant
                0 <= j <= n == a.rows,
                i < n,
                np == n % 8,
                a.wf(),
                cols == a.view_cols(),
                ti@.len() == j,
                forall|jj: int| 0 <= jj < j ==> (#[trigger] ti@[jj])@.len() == n,
                forall|jj: int, k: int|
                    0 <= jj < j && 0 <= k < n ==> (#[trigger] ti@[jj]@[k]) == stage1_entry(
                        cols,
                        n as nat,
                        i as int,
                        jj,
                        k,
                    ) && ti@[jj]@[k] < 8,
            decreases n - j,
        {
            let mut tj: Vec<usize> = Vec::new();
            let mut k: usize = 0;
            while k < n
                invariant
                    0 <= k <= n == a.rows,
                    i < n,
                    j < n,
                    np == n % 8,
                    a.wf(),
                    cols == a.view_cols(),
                    tj@.len() == k,
                    forall|kk: int|
                        0 <= kk < k ==> (#[trigger] tj@[kk]) == stage1_entry(
                            cols,
                            n as nat,
                            i as int,
                            j as int,
                            kk,
                        ) && tj@[kk] < 8,
                decreases n - k,
            {
                let mut acc: usize = 0;
                let shape: usize = if i == j && j == k {
                    0
                } else if k == j && j < i {
                    1
                } else if k < j && j < i {
                    2
                } else {
                    3
                };
                if shape < 3 {
                    let mut l: usize = 0;
                    proof {
                        assert(cols.subrange(0, 0) =~= Seq::<Seq<bool>>::empty());
                    }
                    while l < a.cols.len()
                        invariant
                            0 <= l <= a.cols@.len(),
                            i < n,
                            j < n,
                            k < n,
                            n == a.rows,
                            np == n % 8,
                            a.wf(),
                            cols == a.view_cols(),
                            acc < 8,
                            shape == 0 ==> acc == stage1_diag(
                                cols.subrange(0, l as int),
                                np as int,
                                i as int,
                            ),
                            shape == 1 ==> acc == stage1_quad(
                                cols.subrange(0, l as int),
                                np as int,
                                i as int,
                                j as int,
                            ),
                            shape == 2 ==> acc == stage1_cubic(
                                cols.subrange(0, l as int),
                                i as int,
                                j as int,
                                k as int,
                            ),
                        decreases a.cols@.len() - l,
                    {
                        proof {
                            assert(cols.subrange(0, l + 1).drop_last() =~= cols.subrange(
                                0,
                                l as int,
                            ));
                            assert(cols.subrange(0, l + 1).last() == cols[l as int]);
                        }
                        if shape == 0 {
                            if a.cols[l][i] {
                                proof {
                                    assert(np <= 7);
                                    assert((np + 6) * (np + 5) <= 182) by (nonlinear_arith)
                                        requires
                                            np <= 7,
                                    ;
                                }
                                acc = (acc + (np + 6) * (np + 5)) % 8;
                            }
                        } else if shape == 1 {
                            if a.cols[l][i] && a.cols[l][j] {
                                acc = (acc + (11 - np)) % 8;
                            }
                        } else {
                            if a.cols[l][i] && a.cols[l][j] && a.cols[l][k] {
                                acc = (acc + 1) % 8;
                            }
                        }
                        l = l + 1;
                    }
                    proof {
                        assert(cols.subrange(0, cols.len() as int) =~= cols);
                    }
                }
                tj.push(acc);
                k = k + 1;
            }
            ti.push(tj);
            j = j + 1;
        }
        t.push(ti);
        i = i + 1;
    }
    proof {
        assert(t3_view(t) =~~= stage1_tensor(cols, n as nat));
        assert(t3_wf(t3_view(t), n as nat));
    }

    // rewrite cubic terms into quadratic and diagonal terms
    let ghost t1 = stage1_tensor(cols, n as nat);
    let mut i: usize = 0;
    while i < n
        invariant
            0 <= i <= n == a.rows,
            t3_view(t) == s2_i(t1, i as int),
            t3_wf(t3_view(t), n as nat),
        decreases n - i,
    {
        let ghost ti0 = t3_view(t);
        let mut j: usize = 0;
        while j < i
            invariant
                0 <= j <= i < n == a.rows,
                ti0 == s2_i(t1, i as int),
                t3_view(t) == s2_j(ti0, i as int, j as int),
                t3_wf(t3_view(t), n as nat),
            decreases i - j,
        {
            let ghost tj0 = t3_view(t);
            let mut k: usize = 0;
            while k < j
                invariant
                    0 <= k <= j < i < n == a.rows,
                    tj0 == s2_j(ti0, i as int, j as int),
                    t3_view(t) == s2_k(tj0, i as int, j as int, k as int),
                    t3_wf(t3_view(t), n as nat),
                decreases j - k,
            {
                let ghost tk0 = t3_view(t);
                let v = t3_read(&t, n, i, j, k);
                if v != 0 {
                    let di = (t3_read(&t, n, i, i, i) + 7 * v) % 8;
                    let dj = (t3_read(&t, n, j, j, j) + 7 * v) % 8;
                    let dk = (t3_read(&t, n, k, k, k) + 7 * v) % 8;
                    let qij = (t3_read(&t, n, i, j, j) + v) % 8;
                    let qik = (t3_read(&t, n, i, k, k) + v) % 8;
                    let qjk = (t3_read(&t, n, j, k, k) + v) % 8;
                    let cv = (4 * v) % 8;
                    t3_write(&mut t, n, i, i, i, di);
                    proof {
                        assert(t3_wf(t3_view(t), n as nat));
                    }
                    t3_write(&mut t, n, j, j, j, dj);
                    proof {
                        assert(t3_wf(t3_view(t), n as nat));
                    }
                    t3_write(&mut t, n, k, k, k, dk);
                    proof {
                        assert(t3_wf(t3_view(t), n as nat));
                    }
                    t3_write(&mut t, n, i, j, j, qij);
                    proof {
                        assert(t3_wf(t3_view(t), n as nat));
                    }
                    t3_write(&mut t, n, i, k, k, qik);
                    proof {
                        assert(t3_wf(t3_view(t), n as nat));
                    }
                    t3_write(&mut t, n, j, k, k, qjk);
                    proof {
                        assert(t3_wf(t3_view(t), n as nat));
                    }
                    t3_write(&mut t, n, i, j, k, cv);
                }
                proof {
                    assert(t3_view(t) =~~= s2_one(tk0, i as int, j as int, k as int));
                    assert(t3_wf(t3_view(t), n as nat));
                }
                k = k + 1;
            }
            j = j + 1;
        }
        i = i + 1;
    }

    // fold the off-diagonal quadratic terms into the diagonals
    let ghost t2 = s2_i(t1, n as int);
    let mut i: usize = 0;
    while i < n
        invariant
            0 <= i <= n == a.rows,
            t3_view(t) == s3_i(t2, i as int),
            t3_wf(t3_view(t), n as nat),
        decreases n - i,
    {
        let ghost ti0 = t3_view(t);
        let mut j: usize = 0;
        while j < i
            invariant
                0 <= j <= i < n == a.rows,
                ti0 == s3_i(t2, i as int),
                t3_view(t) == s3_j(ti0, i as int, j as int),
                t3_wf(t3_view(t), n as nat),
            decreases i - j,
        {
            let ghost tj0 = t3_view(t);
            let v = t3_read(&t, n, i, j, j);
            if v != 0 {
                let di = (t3_read(&t, n, i, i, i) + v) % 8;
                let dj = (t3_read(&t, n, j, j, j) + v) % 8;
                let qv = (6 * v) % 8;
                t3_write(&mut t, n, i, i, i, di);
                proof {
                    assert(t3_wf(t3_view(t), n as nat));
                }
                t3_write(&mut t, n, j, j, j, dj);
                proof {
                    assert(t3_wf(t3_view(t), n as nat));
                }
                t3_write(&mut t, n, i, j, j, qv);
            }
            proof {
                assert(t3_view(t) =~~= s3_one(tj0, i as int, j as int));
                assert(t3_wf(t3_view(t), n as nat));
            }
            j = j + 1;
        }
        i = i + 1;
    }
    t
}

/// The pointwise difference of two phase polynomials, mod 8.
pub open spec fn diff_tensor(
    pb: Seq<Seq<Seq<usize>>>,
    pa: Seq<Seq<Seq<usize>>>,
    n: nat,
) -> Seq<Seq<Seq<usize>>> {
    Seq::new(
        n,
        |i: int|
            Seq::new(
                n,
                |j: int| Seq::new(n, |k: int| ((pb[i][j][k] + 8 - pa[i][j][k]) % 8) as usize),
            ),
    )
}

/// The gates of one row of the correction: a CZ for every quadratic
/// entry equal to 4.
pub open spec fn corr_row(d: Seq<Seq<Seq<usize>>>, map: Seq<usize>, i: int, jb: int) -> Seq<Gate>
    decreases jb,
{
    if jb <= 0 {
        Seq::empty()
    } else {
        corr_row(d, map, i, jb - 1) + if d[i][jb - 1][jb - 1] == 4 {
            seq![Gate::CZ(Qubit(map[i]), Qubit(map[jb - 1]))]
        } else {
            Seq::empty()
        }
    }
}

/// The whole correction: per row, the CZs of its quadratic entries and
/// a phase gate for its nonzero diagonal entry.
pub open spec fn corr_gates(d: Seq<Seq<Seq<usize>>>, map: Seq<usize>, ib: int) -> Seq<Gate>
    decreases ib,
{
    if ib <= 0 {
        Seq::empty()
    } else {
        corr_gates(d, map, ib - 1) + corr_row(d, map, ib - 1, ib - 1) + (if d[ib - 1][ib - 1][ib
            - 1] != 0 {
            seq![Gate::Phase(Phase(d[ib - 1][ib - 1][ib - 1]), Qubit(map[ib - 1]))]
        } else {
            Seq::empty()
        })
    }
}

/// Find a Clifford circuit C such that C composed with the circuit of
/// matrix `a` realizes the circuit of matrix `b`, valid when the two
/// matrices share a signature tensor (which is not verified here, and is
/// the caller's responsibility): the difference of the phase polynomials
/// is synthesized with CZ and phase gates.
#[verifier::rlimit(100)]
pub fn clifford_correction(a: &BoolMat, b: &BoolMat, map: &Vec<usize>) -> (c: Circuit)
    requires
        a.wf(),
        b.wf(),
        b.rows == a.rows,
        map@.len() == a.rows,
        forall|i: int| 0 <= i < map@.len() ==> (#[trigger] map@[i]) < usize::MAX,
    ensures
        c.gates@ == corr_gates(
            diff_tensor(
                phase_poly(b.view_cols(), a.rows as nat),
                phase_poly(a.view_cols(), a.rows as nat),
                a.rows as nat,
            ),
            map@,
            a.rows as int,
        ),
        c.wf(),
{
    let n = a.rows;
    let pa = find_phase_polynomial(a);
    let pb = find_phase_polynomial(b);
    let ghost d = diff_tensor(
        phase_poly(b.view_cols(), n as nat),
        phase_poly(a.view_cols(), n as nat),
        n as nat,
    );
    let mut gates: Vec<Gate> = Vec::new();
    let mut i: usize = 0;
    proof {
        assert(gates@ =~= corr_gates(d, map@, 0));
    }
    while i < n
        invariant
            0 <= i <= n == a.rows,
            map@.len() == n,
            forall|ii: int| 0 <= ii < map@.len() ==> (#[trigger] map@[ii]) < usize::MAX,
            t3_view(pa) == phase_poly(a.view_cols(), n as nat),
            t3_view(pb) == phase_poly(b.view_cols(), n as nat),
            t3_wf(t3_view(pa), n as nat),
            t3_wf(t3_view(pb), n as nat),
            d == diff_tensor(t3_view(pb), t3_view(pa), n as nat),
            gates@ == corr_gates(d, map@, i as int),
            gates_wf(gates@),
        decreases n - i,
    {
        let ghost row0 = gates@;
        let mut j: usize = 0;
        while j < i
            invariant
                0 <= j <= i < n == a.rows,
                map@.len() == n,
                forall|ii: int| 0 <= ii < map@.len() ==> (#[trigger] map@[ii]) < usize::MAX,
                t3_wf(t3_view(pa), n as nat),
                t3_wf(t3_view(pb), n as nat),
                d == diff_tensor(t3_view(pb), t3_view(pa), n as nat),
                gates@ == row0 + corr_row(d, map@, i as int, j as int),
                gates_wf(gates@),
            decreases i - j,
        {
            let ghost g0 = gates@;
            let dq = (t3_read(&pb, n, i, j, j) + 8 - t3_read(&pa, n, i, j, j)) % 8;
            proof {
                assert(dq == d[i as int][j as int][j as int]);
            }
            if dq == 4 {
                gates.push(Gate::CZ(Qubit(map[i]), Qubit(map[j])));
                proof {
                    let g = Gate::CZ(Qubit(map@[i as int]), Qubit(map@[j as int]));
                    assert(forall|qq: Qubit|
                        #[trigger] g.touches(qq) ==> qq == Qubit(map@[i as int]) || qq == Qubit(
                            map@[j as int],
                        ));
                }
            }
            proof {
                assert(gates@ =~= row0 + corr_row(d, map@, i as int, j + 1));
            }
            j = j + 1;
        }
        let dd = (t3_read(&pb, n, i, i, i) + 8 - t3_read(&pa, n, i, i, i)) % 8;
        proof {
            assert(dd == d[i as int][i as int][i as int]);
        }
        if dd != 0 {
            gates.push(Gate::Phase(Phase(dd), Qubit(map[i])));
            proof {
                let g = Gate::Phase(Phase(dd), Qubit(map@[i as int]));
                assert(forall|qq: Qubit| #[trigger] g.touches(qq) ==> qq == Qubit(map@[i as int]));
            }
        }
        proof {
            assert(gates@ =~= corr_gates(d, map@, i + 1));
        }
        i = i + 1;
    }
    Circuit { gates }
}

} // verus!
