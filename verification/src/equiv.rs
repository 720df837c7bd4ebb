//! Equivalence of gate sequences up to commuting disjoint gates.
//!
//! Two adjacent gates that share no qubit act on disjoint tensor factors,
//! so exchanging them leaves the circuit's unitary unchanged.  The
//! reflexive-transitive closure of such exchanges, `circuit_equiv`, is
//! therefore a sound witness of unitary equality.  Clifford extraction and
//! partitioning only ever move gates past disjoint gates, so their whole
//! effect is captured by this relation.

use vstd::prelude::*;
use crate::circuit::Gate;

verus! {

/// The two gates share no qubit.
pub open spec fn disjoint_gates(g1: Gate, g2: Gate) -> bool {
    !g1.spec_overlaps(g2)
}

/// `s` with the entries at `i` and `i + 1` exchanged.
pub open spec fn swapped_at(s: Seq<Gate>, i: int) -> Seq<Gate> {
    s.update(i, s[i + 1]).update(i + 1, s[i])
}

/// One exchange of adjacent disjoint gates.
pub open spec fn commute_step(s: Seq<Gate>, t: Seq<Gate>) -> bool {
    exists|i: int|
        0 <= i && i + 1 < s.len() && disjoint_gates(s[i], s[i + 1]) && t == swapped_at(s, i)
}

/// `t` is reachable from `s` by exactly `n` exchanges.
pub open spec fn commute_n(s: Seq<Gate>, t: Seq<Gate>, n: nat) -> bool
    decreases n,
{
    if n == 0 {
        s == t
    } else {
        exists|m: Seq<Gate>| commute_step(s, m) && commute_n(m, t, (n - 1) as nat)
    }
}

/// `t` is reachable from `s` by exchanging adjacent disjoint gates.
pub open spec fn circuit_equiv(s: Seq<Gate>, t: Seq<Gate>) -> bool {
    exists|n: nat| commute_n(s, t, n)
}

pub proof fn lemma_equiv_refl(s: Seq<Gate>)
    ensures
        circuit_equiv(s, s),
{
    assert(commute_n(s, s, 0));
}

proof fn lemma_commute_n_trans(s: Seq<Gate>, t: Seq<Gate>, u: Seq<Gate>, n1: nat, n2: nat)
    requires
        commute_n(s, t, n1),
        commute_n(t, u, n2),
    ensures
        commute_n(s, u, n1 + n2),
    decreases n1,
{
    if n1 == 0 {
    } else {
        let m = choose|m: Seq<Gate>| commute_step(s, m) && commute_n(m, t, (n1 - 1) as nat);
        lemma_commute_n_trans(m, t, u, (n1 - 1) as nat, n2);
        assert(commute_step(s, m) && commute_n(m, u, ((n1 + n2) - 1) as nat));
    }
}

pub proof fn lemma_equiv_trans(s: Seq<Gate>, t: Seq<Gate>, u: Seq<Gate>)
    requires
        circuit_equiv(s, t),
        circuit_equiv(t, u),
    ensures
        circuit_equiv(s, u),
{
    let n1 = choose|n1: nat| commute_n(s, t, n1);
    let n2 = choose|n2: nat| commute_n(t, u, n2);
    lemma_commute_n_trans(s, t, u, n1, n2);
}

/// A single exchange inside a context extends to the whole sequence.
proof fn lemma_step_append(s: Seq<Gate>, t: Seq<Gate>, pre: Seq<Gate>, post: Seq<Gate>)
    requires
        commute_step(s, t),
    ensures
        commute_step(pre + s + post, pre + t + post),
{
    let i = choose|i: int|
        0 <= i && i + 1 < s.len() && disjoint_gates(s[i], s[i + 1]) && t == swapped_at(s, i);
    let j = pre.len() + i;
    assert((pre + s + post)[j] == s[i]);
    assert((pre + s + post)[j + 1] == s[i + 1]);
    assert(pre + t + post =~= swapped_at(pre + s + post, j));
}

proof fn lemma_commute_n_append(s: Seq<Gate>, t: Seq<Gate>, pre: Seq<Gate>, post: Seq<Gate>, n: nat)
    requires
        commute_n(s, t, n),
    ensures
        commute_n(pre + s + post, pre + t + post, n),
    decreases n,
{
    if n == 0 {
        assert(pre + s + post =~= pre + t + post);
    } else {
        let m = choose|m: Seq<Gate>| commute_step(s, m) && commute_n(m, t, (n - 1) as nat);
        lemma_step_append(s, m, pre, post);
        lemma_commute_n_append(m, t, pre, post, (n - 1) as nat);
    }
}

/// Equivalence is a congruence for concatenation.
pub proof fn lemma_equiv_append(s: Seq<Gate>, t: Seq<Gate>, pre: Seq<Gate>, post: Seq<Gate>)
    requires
        circuit_equiv(s, t),
    ensures
        circuit_equiv(pre + s + post, pre + t + post),
{
    let n = choose|n: nat| commute_n(s, t, n);
    lemma_commute_n_append(s, t, pre, post, n);
}

/// Prefixing one exchange onto an equivalence chain.
proof fn lemma_equiv_cons_step(s: Seq<Gate>, m: Seq<Gate>, t: Seq<Gate>)
    requires
        commute_step(s, m),
        circuit_equiv(m, t),
    ensures
        circuit_equiv(s, t),
{
    let n = choose|n: nat| commute_n(m, t, n);
    assert(commute_n(s, t, n + 1)) by {
        assert(commute_step(s, m) && commute_n(m, t, ((n + 1) - 1) as nat));
    }
}

/// A gate disjoint from everything before it commutes to the front.
pub proof fn lemma_move_to_front(s: Seq<Gate>, i: int)
    requires
        0 <= i < s.len(),
        forall|j: int| 0 <= j < i ==> disjoint_gates(#[trigger] s[j], s[i]),
    ensures
        circuit_equiv(s, seq![s[i]] + s.remove(i)),
    decreases i,
{
    if i == 0 {
        assert(seq![s[0]] + s.remove(0) =~= s);
        lemma_equiv_refl(s);
    } else {
        let t = swapped_at(s, i - 1);
        assert(commute_step(s, t)) by {
            assert(disjoint_gates(s[i - 1], s[i]));
            assert(t == swapped_at(s, i - 1));
        }
        assert(t[i - 1] == s[i]);
        assert forall|j: int| 0 <= j < i - 1 implies disjoint_gates(#[trigger] t[j], t[i - 1]) by {
            assert(t[j] == s[j]);
        }
        lemma_move_to_front(t, i - 1);
        assert(t.remove(i - 1) =~= s.remove(i));
        assert(seq![t[i - 1]] + t.remove(i - 1) =~= seq![s[i]] + s.remove(i));
        lemma_equiv_cons_step(s, t, seq![s[i]] + s.remove(i));
    }
}

/// A gate disjoint from everything after it commutes to the back.
pub proof fn lemma_move_to_back(s: Seq<Gate>, i: int)
    requires
        0 <= i < s.len(),
        forall|j: int| i < j < s.len() ==> disjoint_gates(s[i], #[trigger] s[j]),
    ensures
        circuit_equiv(s, s.remove(i) + seq![s[i]]),
    decreases s.len() - i,
{
    if i == s.len() - 1 {
        assert(s.remove(i) + seq![s[i]] =~= s);
        lemma_equiv_refl(s);
    } else {
        let t = swapped_at(s, i);
        assert(commute_step(s, t)) by {
            assert(disjoint_gates(s[i], s[i + 1]));
            assert(t == swapped_at(s, i));
        }
        assert(t[i + 1] == s[i]);
        assert forall|j: int| i + 1 < j < t.len() implies disjoint_gates(
            t[i + 1],
            #[trigger] t[j],
        ) by {
            assert(t[j] == s[j]);
        }
        lemma_move_to_back(t, i + 1);
        assert(t.remove(i + 1) =~= s.remove(i));
        assert(t.remove(i + 1) + seq![t[i + 1]] =~= s.remove(i) + seq![s[i]]);
        lemma_equiv_cons_step(s, t, s.remove(i) + seq![s[i]]);
    }
}

} // verus!
