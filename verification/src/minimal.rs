//! The minimized graph of bases depends on the graph alone: not on how its
//! states are numbered.
use vstd::prelude::*;
use crate::factorized_section::{
    all_reached, base_walk, has_distinct_states, minimize_input, minimized, quotient_by, reaches, Base,
};
use crate::numbering::{canon, lemma_canon, lemma_canon_len, lemma_canon_prefix, lemma_self_numbered_step};
use crate::partition::{equivalent, graph_shape, is_word, run, transitions_in};

verus! {

/// The transition rows of a list of bases.
pub open spec fn graph_tau(bases: Seq<Base>) -> Seq<[usize; 4]> {
    Seq::new(bases.len(), |k: int| bases[k].tau)
}

/// Reading a word from a state stays among the states.
pub proof fn lemma_run_range(tau: Seq<[usize; 4]>, n: nat, s: int, w: Seq<int>)
    requires
        tau.len() == n,
        transitions_in(tau, n),
        0 <= s < n,
        is_word(w),
    ensures
        0 <= run(tau, s, w) < n,
    decreases w.len(),
{
    if w.len() > 0 {
        let a = w[0];
        assert(0 <= a < 4);
        assert(tau[s]@[a] < n);
        let w1 = w.drop_first();
        assert(is_word(w1)) by {
            assert forall|i: int| 0 <= i < w1.len() implies 0 <= #[trigger] w1[i] < 4 by {
                assert(w1[i] == w[i + 1]);
            }
        }
        lemma_run_range(tau, n, tau[s]@[a] as int, w1);
    }
}

/// The base of the state a word leads to is where the word leads from the
/// base of the start.
pub proof fn lemma_quotient_run(
    epsilon: Seq<[i128; 3]>,
    tau: Seq<[usize; 4]>,
    initial: int,
    bases: Seq<Base>,
    phi: Seq<int>,
    s: int,
    w: Seq<int>,
)
    requires
        graph_shape(epsilon, tau),
        quotient_by(epsilon, tau, initial, bases, phi),
        0 <= s < epsilon.len(),
        is_word(w),
    ensures
        phi[run(tau, s, w)] == run(graph_tau(bases), phi[s], w),
    decreases w.len(),
{
    if w.len() > 0 {
        let a = w[0];
        assert(0 <= a < 4);
        let t = tau[s]@[a] as int;
        assert(tau[s]@[a] < epsilon.len());
        assert(bases[phi[s]].tau@[a] == phi[t]);
        assert(graph_tau(bases)[phi[s]] == bases[phi[s]].tau);
        let w1 = w.drop_first();
        assert(is_word(w1)) by {
            assert forall|i: int| 0 <= i < w1.len() implies 0 <= #[trigger] w1[i] < 4 by {
                assert(w1[i] == w[i + 1]);
            }
        }
        lemma_quotient_run(epsilon, tau, initial, bases, phi, t, w1);
    }
}

/// In a quotient of a graph whose states are all reached, every base is
/// reached from base 0.
pub proof fn lemma_bases_reached(
    epsilon: Seq<[i128; 3]>,
    tau: Seq<[usize; 4]>,
    initial: int,
    bases: Seq<Base>,
    phi: Seq<int>,
    k: int,
)
    requires
        graph_shape(epsilon, tau),
        quotient_by(epsilon, tau, initial, bases, phi),
        all_reached(epsilon, tau, initial),
        0 <= initial < epsilon.len(),
        0 <= k < bases.len(),
    ensures
        base_reached(bases, k),
{
    assert(phi.contains(k));
    let s = choose|s: int| 0 <= s < phi.len() && phi[s] == k;
    assert(reaches(epsilon, tau, initial, s));
    let w = choose|w: Seq<int>| #[trigger] is_word(w) && equivalent(epsilon, tau, run(tau, initial, w), s);
    lemma_run_range(tau, epsilon.len(), initial, w);
    let x = run(tau, initial, w);
    assert(phi[x] == phi[s]);
    lemma_quotient_run(epsilon, tau, initial, bases, phi, initial, w);
}

/// Some word leads from base 0 to base `j`.
pub open spec fn base_reached(bases: Seq<Base>, j: int) -> bool {
    exists|w: Seq<int>| #[trigger] is_word(w) && run(graph_tau(bases), 0, w) == j
}

/// The correspondence between the bases of two quotients of one graph: the
/// base of `b2` holding the states of base `k` of `b1`.
pub open spec fn correspondence(phi1: Seq<int>, phi2: Seq<int>, n: int, k: int) -> int {
    phi2[choose|s: int| 0 <= s < n && phi1[s] == k]
}

/// A set of bases containing base 0 and closed under the transitions holds
/// every base reached from 0.
proof fn lemma_closed_reach(bases: Seq<Base>, d: int, w: Seq<int>)
    requires
        d >= 1,
        forall|j: int, a: int| 0 <= j < d && 0 <= a < 4 && j < bases.len() ==> #[trigger] bases[j].tau@[a] < d,
        d <= bases.len(),
        is_word(w),
    ensures
        0 <= run(graph_tau(bases), 0, w) < d,
    decreases w.len(),
{
    if w.len() > 0 {
        let w1 = w.drop_last();
        let a = w.last();
        assert(w1.push(a) =~= w);
        assert(is_word(w1)) by {
            assert forall|i: int| 0 <= i < w1.len() implies 0 <= #[trigger] w1[i] < 4 by {
                assert(w1[i] == w[i]);
            }
        }
        assert(0 <= a < 4) by {
            assert(w[w.len() - 1] == a);
        }
        lemma_closed_reach(bases, d, w1);
        crate::partition::lemma_run_push(graph_tau(bases), 0, w1, a);
        let x = run(graph_tau(bases), 0, w1);
        assert(graph_tau(bases)[x] == bases[x].tau);
    } else {
        assert(run(graph_tau(bases), 0, w) == 0);
    }
}

/// When all bases are reached from 0 and the walk numbers them in search
/// order, base `k` is met among the targets of the bases before it.
proof fn lemma_met_early(bases: Seq<Base>, k: int)
    requires
        canon(base_walk(bases)).0 == base_walk(bases),
        base_walk(bases).len() <= usize::MAX,
        forall|j: int| 0 <= j < bases.len() ==> #[trigger] base_reached(bases, j),
        0 <= k < bases.len(),
    ensures
        base_walk(bases).take(1 + 4 * k).contains(k as usize),
{
    let wl = base_walk(bases);
    let p = 1 + 4 * k;
    lemma_canon_len(wl);
    crate::numbering::lemma_self_numbered(wl, p);
    let d = canon(wl.take(p)).1.len() as int;
    lemma_canon(wl.take(p));
    if d <= k {
        // the first `d` bases are closed under their transitions
        assert forall|j: int, a: int| 0 <= j < d && 0 <= a < 4 && j < bases.len() implies #[trigger] bases[j].tau@[a]
            < d by {
            let q = 1 + 4 * j + a;
            assert(q < p);
            assert((q - 1) / 4 == j && (q - 1) % 4 == a);
            assert(wl[q] == bases[j].tau@[a]);
            assert(wl.take(p)[q] == wl[q]);
            assert(canon(wl.take(p)).1[canon(wl.take(p)).0[q] as int] == wl.take(p)[q]);
            assert(canon(wl.take(p)).1 == crate::numbering::first_ids(d as nat));
        }
        assert(d >= 1) by {
            assert(wl.take(p)[0] == 0);
            assert(canon(wl.take(p)).0[0] < canon(wl.take(p)).1.len());
        }
        assert(base_reached(bases, k));
        let w = choose|w: Seq<int>| #[trigger] is_word(w) && run(graph_tau(bases), 0, w) == k;
        lemma_closed_reach(bases, d, w);
    } else {
        assert(canon(wl.take(p)).1 == crate::numbering::first_ids(d as nat));
        assert(canon(wl.take(p)).1[k] == k as usize);
        assert(wl.take(p).contains(canon(wl.take(p)).1[k]));
    }
}

/// What the correspondence between two quotients of one graph keeps: it
/// sends the base of each state to the state's other base, is one to one,
/// sends 0 to 0, and keeps targets and contributions.
proof fn lemma_correspondence(
    epsilon: Seq<[i128; 3]>,
    tau: Seq<[usize; 4]>,
    initial: int,
    b1: Seq<Base>,
    phi1: Seq<int>,
    b2: Seq<Base>,
    phi2: Seq<int>,
)
    requires
        graph_shape(epsilon, tau),
        0 <= initial < epsilon.len(),
        quotient_by(epsilon, tau, initial, b1, phi1),
        quotient_by(epsilon, tau, initial, b2, phi2),
    ensures
        forall|s: int|
            0 <= s < epsilon.len() ==> #[trigger] correspondence(phi1, phi2, epsilon.len() as int, phi1[s])
                == phi2[s],
        forall|k: int|
            0 <= k < b1.len() ==> 0 <= #[trigger] correspondence(phi1, phi2, epsilon.len() as int, k) < b2.len(),
        forall|k1: int, k2: int|
            0 <= k1 < b1.len() && 0 <= k2 < b1.len() && #[trigger] correspondence(phi1, phi2, epsilon.len() as int, k1)
                == #[trigger] correspondence(phi1, phi2, epsilon.len() as int, k2) ==> k1 == k2,
        forall|k: int, a: int|
            0 <= k < b1.len() && 0 <= a < 4 ==> #[trigger] b2[correspondence(phi1, phi2, epsilon.len() as int, k)].tau@[a]
                == correspondence(phi1, phi2, epsilon.len() as int, b1[k].tau@[a] as int),
        forall|k: int|
            0 <= k < b1.len() ==> (#[trigger] b2[correspondence(phi1, phi2, epsilon.len() as int, k)]).epsilon_nonzero@
                == b1[k].epsilon_nonzero@,
        correspondence(phi1, phi2, epsilon.len() as int, 0) == 0,
{
    let n = epsilon.len() as int;
    assert forall|s: int| 0 <= s < n implies #[trigger] correspondence(phi1, phi2, n, phi1[s]) == phi2[s] by {
        let k = phi1[s];
        let r = choose|r: int| 0 <= r < n && phi1[r] == k;
        assert(0 <= r < n && phi1[r] == k);
        assert(equivalent(epsilon, tau, r, s));
    }
    assert forall|k: int| 0 <= k < b1.len() implies 0 <= #[trigger] correspondence(phi1, phi2, n, k) < b2.len() by {
        assert(phi1.contains(k));
        let r = choose|r: int| 0 <= r < n && phi1[r] == k;
        assert(0 <= r < n);
    }
    assert forall|k1: int, k2: int|
        0 <= k1 < b1.len() && 0 <= k2 < b1.len() && #[trigger] correspondence(phi1, phi2, n, k1)
            == #[trigger] correspondence(phi1, phi2, n, k2) implies k1 == k2 by {
        assert(phi1.contains(k1));
        assert(phi1.contains(k2));
        let r1 = choose|r: int| 0 <= r < n && phi1[r] == k1;
        let r2 = choose|r: int| 0 <= r < n && phi1[r] == k2;
        assert(phi2[r1] == phi2[r2]);
        assert(equivalent(epsilon, tau, r1, r2));
    }
    assert forall|k: int, a: int| 0 <= k < b1.len() && 0 <= a < 4 implies #[trigger] b2[correspondence(
        phi1,
        phi2,
        n,
        k,
    )].tau@[a] == correspondence(phi1, phi2, n, b1[k].tau@[a] as int) by {
        assert(phi1.contains(k));
        let r = choose|r: int| 0 <= r < n && phi1[r] == k;
        assert(b1[phi1[r]].tau@[a] == phi1[tau[r]@[a] as int]);
        assert(b2[phi2[r]].tau@[a] == phi2[tau[r]@[a] as int]);
        assert(tau[r]@[a] < n);
        assert(correspondence(phi1, phi2, n, phi1[tau[r]@[a] as int]) == phi2[tau[r]@[a] as int]);
    }
    assert forall|k: int| 0 <= k < b1.len() implies (#[trigger] b2[correspondence(phi1, phi2, n, k)]).epsilon_nonzero@
        == b1[k].epsilon_nonzero@ by {
        assert(phi1.contains(k));
        let r = choose|r: int| 0 <= r < n && phi1[r] == k;
        assert(b1[phi1[r]].epsilon_nonzero@ == epsilon[r]@);
        assert(b2[phi2[r]].epsilon_nonzero@ == epsilon[r]@);
    }
    assert(correspondence(phi1, phi2, n, phi1[initial]) == phi2[initial]);
}

/// The walks of two quotients in search order agree, position by position,
/// and the correspondence keeps every base met.
proof fn lemma_walks_agree(
    epsilon: Seq<[i128; 3]>,
    tau: Seq<[usize; 4]>,
    initial: int,
    b1: Seq<Base>,
    phi1: Seq<int>,
    b2: Seq<Base>,
    phi2: Seq<int>,
    p: int,
)
    requires
        graph_shape(epsilon, tau),
        0 <= initial < epsilon.len(),
        all_reached(epsilon, tau, initial),
        quotient_by(epsilon, tau, initial, b1, phi1),
        quotient_by(epsilon, tau, initial, b2, phi2),
        canon(base_walk(b1)).0 == base_walk(b1),
        canon(base_walk(b2)).0 == base_walk(b2),
        1 + 4 * b1.len() <= usize::MAX,
        1 + 4 * b2.len() <= usize::MAX,
        0 <= p <= base_walk(b1).len(),
    ensures
        forall|q: int|
            0 <= q < p ==> q < base_walk(b2).len() && #[trigger] base_walk(b2)[q] == base_walk(b1)[q]
                && correspondence(phi1, phi2, epsilon.len() as int, base_walk(b1)[q] as int) == base_walk(b1)[q],
    decreases p,
{
    let n = epsilon.len() as int;
    let w1 = base_walk(b1);
    let w2 = base_walk(b2);
    if p > 0 {
        lemma_walks_agree(epsilon, tau, initial, b1, phi1, b2, phi2, p - 1);
        lemma_correspondence(epsilon, tau, initial, b1, phi1, b2, phi2);
        let q = p - 1;
        // position q reads base j on symbol a, and j is already kept
        if q == 0 {
            assert(w1[0] == 0usize);
            assert(w2[0] == 0usize);
            assert(correspondence(phi1, phi2, n, w1[q] as int) == w1[q]);
        } else {
            let j = (q - 1) / 4;
            let a = (q - 1) % 4;
            assert(0 <= j < b1.len() && 0 <= a < 4);
            assert forall|jj: int| 0 <= jj < b1.len() implies #[trigger] base_reached(b1, jj) by {
                lemma_bases_reached(epsilon, tau, initial, b1, phi1, jj);
            }
            lemma_met_early(b1, j);
            let pre = w1.take(1 + 4 * j);
            assert(pre.contains(j as usize));
            let qj = choose|qj: int| 0 <= qj < pre.len() && pre[qj] == j as usize;
            assert(w1[qj] == j);
            assert(qj < q);
            assert(w2[qj] == w1[qj]);
            assert(correspondence(phi1, phi2, n, j) == j);
            assert(j < b2.len());
            assert(q < w2.len());
            assert(w1[q] == b1[j].tau@[a]);
            assert(w2[q] == b2[j].tau@[a]);
            assert(b1[j].tau@[a] < b1.len()) by {
                assert(phi1.contains(j));
                let s = choose|s: int| 0 <= s < phi1.len() && phi1[s] == j;
                assert(b1[phi1[s]].tau@[a] == phi1[tau[s]@[a] as int]);
                assert(tau[s]@[a] < n);
            }
            assert(w2[q] as int == correspondence(phi1, phi2, n, w1[q] as int));
            // the base met at q is kept
            let x = w1[q] as int;
            lemma_self_numbered_step(w1, q);
            lemma_self_numbered_step(w2, q);
            assert(w1.take(q) =~= w2.take(q)) by {
                assert forall|i: int| 0 <= i < q implies w1.take(q)[i] == w2.take(q)[i] by {
                    assert(w2[i] == w1[i]);
                }
            }
            let d = canon(w1.take(q)).1.len();
            if (x as nat) < d {
                let i = choose|i: int| 0 <= i < w1.take(q).len() && w1.take(q)[i] == x as usize;
                assert(w1[i] == x);
                assert(correspondence(phi1, phi2, n, x) == x);
            } else {
                assert(x == d);
                let y = w2[q];
                if (y as nat) < d {
                    let i = choose|i: int| 0 <= i < w2.take(q).len() && w2.take(q)[i] == y;
                    assert(w2[i] == w1[i]);
                    assert(correspondence(phi1, phi2, n, w1[i] as int) == w1[i]);
                    assert(w1[i] < b1.len()) by {
                        if i == 0 {
                        } else {
                            let ji = (i - 1) / 4;
                            let ai = (i - 1) % 4;
                            assert(w1[i] == b1[ji].tau@[ai]);
                        }
                    }
                    assert(correspondence(phi1, phi2, n, w1[i] as int) == correspondence(phi1, phi2, n, x));
                    assert(false);
                }
                assert(y == d);
            }
            assert(w2[q] == w1[q] && correspondence(phi1, phi2, n, w1[q] as int) == w1[q]);
        }
        assert forall|r: int| 0 <= r < p implies r < w2.len() && #[trigger] w2[r] == w1[r]
            && correspondence(phi1, phi2, n, w1[r] as int) == w1[r] by {
            if r < q {
                assert(w2[r] == w1[r]);
            }
        }
    }
}

/// Two quotients of one graph that read every base from base 0 and are
/// numbered in search order are the same list of bases.
pub proof fn lemma_quotient_unique(
    epsilon: Seq<[i128; 3]>,
    tau: Seq<[usize; 4]>,
    initial: int,
    b1: Seq<Base>,
    phi1: Seq<int>,
    b2: Seq<Base>,
    phi2: Seq<int>,
)
    requires
        graph_shape(epsilon, tau),
        0 <= initial < epsilon.len(),
        all_reached(epsilon, tau, initial),
        quotient_by(epsilon, tau, initial, b1, phi1),
        quotient_by(epsilon, tau, initial, b2, phi2),
        canon(base_walk(b1)).0 == base_walk(b1),
        canon(base_walk(b2)).0 == base_walk(b2),
        1 + 4 * b1.len() <= usize::MAX,
        1 + 4 * b2.len() <= usize::MAX,
    ensures
        b1 == b2,
{
    let n = epsilon.len() as int;
    let w1 = base_walk(b1);
    lemma_walks_agree(epsilon, tau, initial, b1, phi1, b2, phi2, w1.len() as int);
    lemma_correspondence(epsilon, tau, initial, b1, phi1, b2, phi2);
    assert forall|jj: int| 0 <= jj < b1.len() implies #[trigger] base_reached(b1, jj) by {
        lemma_bases_reached(epsilon, tau, initial, b1, phi1, jj);
    }
    // every base of b1 is kept by the correspondence
    assert forall|k: int| 0 <= k < b1.len() implies #[trigger] correspondence(phi1, phi2, n, k) == k by {
        lemma_met_early(b1, k);
        let pre = w1.take(1 + 4 * k);
        assert(pre.contains(k as usize));
        let q = choose|q: int| 0 <= q < pre.len() && pre[q] == k as usize;
        assert(w1[q] == k);
        assert(base_walk(b2)[q] == w1[q]);
    }
    // the sizes agree
    assert(b2.len() <= b1.len()) by {
        if b2.len() > b1.len() {
            let b = b2.len() - 1;
            assert(phi2.contains(b));
            let s = choose|s: int| 0 <= s < phi2.len() && phi2[s] == b;
            assert(correspondence(phi1, phi2, n, phi1[s]) == phi2[s]);
        }
    }
    assert(b1.len() <= b2.len()) by {
        if b1.len() > 0 {
            assert(correspondence(phi1, phi2, n, b1.len() - 1) == b1.len() - 1);
        }
    }
    assert forall|k: int| 0 <= k < b1.len() implies b1[k] == b2[k] by {
        assert(correspondence(phi1, phi2, n, k) == k);
        assert forall|a: int| 0 <= a < 4 implies b2[k].tau@[a] == b1[k].tau@[a] by {
            assert(b2[correspondence(phi1, phi2, n, k)].tau@[a] == correspondence(phi1, phi2, n, b1[k].tau@[a] as int));
            let t = b1[k].tau@[a] as int;
            assert(0 <= t < b1.len()) by {
                assert(phi1.contains(k));
                let s = choose|s: int| 0 <= s < phi1.len() && phi1[s] == k;
                assert(b1[phi1[s]].tau@[a] == phi1[tau[s]@[a] as int]);
                assert(tau[s]@[a] < n);
            }
            assert(correspondence(phi1, phi2, n, t) == t);
        }
        assert(b2[k].tau =~= b1[k].tau);
        assert(b2[k].epsilon_nonzero =~= b1[k].epsilon_nonzero) by {
            assert(b2[correspondence(phi1, phi2, n, k)].epsilon_nonzero@ == b1[k].epsilon_nonzero@);
            assert forall|i: int| 0 <= i < 3 implies b2[k].epsilon_nonzero[i] == b1[k].epsilon_nonzero[i] by {
                assert(b2[k].epsilon_nonzero@[i] == b1[k].epsilon_nonzero@[i]);
            }
        }
    }
    assert(b1 =~= b2);
}

/// Two minimized graphs of one graph are the same list of bases.
pub proof fn lemma_minimized_unique(
    epsilon: Seq<[i128; 3]>,
    tau: Seq<[usize; 4]>,
    initial: int,
    b1: Seq<Base>,
    b2: Seq<Base>,
)
    requires
        minimized(epsilon, tau, initial, b1),
        minimized(epsilon, tau, initial, b2),
    ensures
        b1 == b2,
{
    let phi1 = choose|phi: Seq<int>| quotient_by(epsilon, tau, initial, b1, phi);
    let phi2 = choose|phi: Seq<int>| quotient_by(epsilon, tau, initial, b2, phi);
    lemma_quotient_unique(epsilon, tau, initial, b1, phi1, b2, phi2);
}

/// `perm` renumbers the states of graph 1 as those of graph 2: it is one to
/// one and onto, keeps each state's epsilons and transitions, and sends the
/// initial state to the initial state.
pub open spec fn renumbered(
    epsilon1: Seq<[i128; 3]>,
    tau1: Seq<[usize; 4]>,
    initial1: int,
    epsilon2: Seq<[i128; 3]>,
    tau2: Seq<[usize; 4]>,
    initial2: int,
    perm: Seq<int>,
) -> bool {
    let n = epsilon1.len();
    &&& epsilon2.len() == n
    &&& perm.len() == n
    &&& forall|s: int| 0 <= s < n ==> 0 <= #[trigger] perm[s] < n
    &&& forall|s: int, t: int| 0 <= s < n && 0 <= t < n && #[trigger] perm[s] == #[trigger] perm[t] ==> s == t
    &&& forall|t: int| 0 <= t < n ==> #[trigger] perm.contains(t)
    &&& forall|s: int| 0 <= s < n ==> (#[trigger] epsilon2[perm[s]])@ == epsilon1[s]@
    &&& forall|s: int, a: int| 0 <= s < n && 0 <= a < 4 ==> #[trigger] tau2[perm[s]]@[a] == perm[tau1[s]@[a] as int]
    &&& perm[initial1] == initial2
}

/// A word read from the renumbered state leads to the renumbered target.
proof fn lemma_renumbered_run(
    epsilon1: Seq<[i128; 3]>,
    tau1: Seq<[usize; 4]>,
    initial1: int,
    epsilon2: Seq<[i128; 3]>,
    tau2: Seq<[usize; 4]>,
    initial2: int,
    perm: Seq<int>,
    s: int,
    w: Seq<int>,
)
    requires
        graph_shape(epsilon1, tau1),
        renumbered(epsilon1, tau1, initial1, epsilon2, tau2, initial2, perm),
        0 <= s < epsilon1.len(),
        is_word(w),
    ensures
        0 <= run(tau1, s, w) < epsilon1.len(),
        run(tau2, perm[s], w) == perm[run(tau1, s, w)],
    decreases w.len(),
{
    lemma_run_range(tau1, epsilon1.len(), s, w);
    if w.len() > 0 {
        let a = w[0];
        assert(0 <= a < 4);
        let t = tau1[s]@[a] as int;
        assert(tau1[s]@[a] < epsilon1.len());
        assert(tau2[perm[s]]@[a] == perm[t]);
        let w1 = w.drop_first();
        assert(is_word(w1)) by {
            assert forall|i: int| 0 <= i < w1.len() implies 0 <= #[trigger] w1[i] < 4 by {
                assert(w1[i] == w[i + 1]);
            }
        }
        lemma_renumbered_run(epsilon1, tau1, initial1, epsilon2, tau2, initial2, perm, t, w1);
    }
}

/// Renumbering keeps which states are equivalent.
proof fn lemma_renumbered_equivalent(
    epsilon1: Seq<[i128; 3]>,
    tau1: Seq<[usize; 4]>,
    initial1: int,
    epsilon2: Seq<[i128; 3]>,
    tau2: Seq<[usize; 4]>,
    initial2: int,
    perm: Seq<int>,
    s: int,
    t: int,
)
    requires
        graph_shape(epsilon1, tau1),
        renumbered(epsilon1, tau1, initial1, epsilon2, tau2, initial2, perm),
        0 <= s < epsilon1.len(),
        0 <= t < epsilon1.len(),
    ensures
        equivalent(epsilon2, tau2, perm[s], perm[t]) == equivalent(epsilon1, tau1, s, t),
{
    assert forall|w: Seq<int>| #[trigger] is_word(w) implies epsilon2[run(tau2, perm[s], w)]@ == epsilon1[run(
        tau1,
        s,
        w,
    )]@ && epsilon2[run(tau2, perm[t], w)]@ == epsilon1[run(tau1, t, w)]@ by {
        lemma_renumbered_run(epsilon1, tau1, initial1, epsilon2, tau2, initial2, perm, s, w);
        lemma_renumbered_run(epsilon1, tau1, initial1, epsilon2, tau2, initial2, perm, t, w);
    }
}

/// The minimized graph does not depend on how the states are numbered: a
/// renumbering of a graph minimizes to the same list of bases.
pub proof fn lemma_minimized_renumbering(
    epsilon1: Seq<[i128; 3]>,
    tau1: Seq<[usize; 4]>,
    initial1: int,
    epsilon2: Seq<[i128; 3]>,
    tau2: Seq<[usize; 4]>,
    initial2: int,
    perm: Seq<int>,
    b1: Seq<Base>,
    b2: Seq<Base>,
)
    requires
        renumbered(epsilon1, tau1, initial1, epsilon2, tau2, initial2, perm),
        minimized(epsilon1, tau1, initial1, b1),
        minimized(epsilon2, tau2, initial2, b2),
    ensures
        b1 == b2,
{
    let n = epsilon1.len();
    let phi1 = choose|phi: Seq<int>| quotient_by(epsilon1, tau1, initial1, b1, phi);
    let phi2 = choose|phi: Seq<int>| quotient_by(epsilon2, tau2, initial2, b2, phi);
    let psi = Seq::new(n, |s: int| phi2[perm[s]]);
    assert(quotient_by(epsilon1, tau1, initial1, b2, psi)) by {
        assert forall|b: int| 0 <= b < b2.len() implies #[trigger] psi.contains(b) by {
            assert(phi2.contains(b));
            let t = choose|t: int| 0 <= t < phi2.len() && phi2[t] == b;
            assert(perm.contains(t));
            let s = choose|s: int| 0 <= s < perm.len() && perm[s] == t;
            assert(psi[s] == b);
        }
        assert forall|s: int, a: int| 0 <= s < n && 0 <= a < 4 implies #[trigger] b2[psi[s]].tau@[a]
            == psi[tau1[s]@[a] as int] by {
            assert(b2[phi2[perm[s]]].tau@[a] == phi2[tau2[perm[s]]@[a] as int]);
            assert(tau1[s]@[a] < n);
        }
        assert forall|s: int| 0 <= s < n implies (#[trigger] b2[psi[s]]).epsilon_nonzero@ == epsilon1[s]@ by {
            assert(b2[phi2[perm[s]]].epsilon_nonzero@ == epsilon2[perm[s]]@);
        }
        assert forall|s: int, t: int| 0 <= s < n && 0 <= t < n implies (#[trigger] psi[s] == #[trigger] psi[t])
            == equivalent(epsilon1, tau1, s, t) by {
            lemma_renumbered_equivalent(epsilon1, tau1, initial1, epsilon2, tau2, initial2, perm, s, t);
            assert((phi2[perm[s]] == phi2[perm[t]]) == equivalent(epsilon2, tau2, perm[s], perm[t]));
        }
    }
    lemma_quotient_unique(epsilon1, tau1, initial1, b1, phi1, b2, psi);
}

/// The state that `perm` sends to `t`.
spec fn preimage(perm: Seq<int>, t: int) -> int {
    choose|s: int| 0 <= s < perm.len() && perm[s] == t
}

/// A state of graph 2 is the renumbering of some state of graph 1.
proof fn lemma_renumbered_onto(
    epsilon1: Seq<[i128; 3]>,
    tau1: Seq<[usize; 4]>,
    initial1: int,
    epsilon2: Seq<[i128; 3]>,
    tau2: Seq<[usize; 4]>,
    initial2: int,
    perm: Seq<int>,
    t: int,
)
    requires
        renumbered(epsilon1, tau1, initial1, epsilon2, tau2, initial2, perm),
        0 <= t < epsilon1.len(),
    ensures
        0 <= preimage(perm, t) < epsilon1.len(),
        perm[preimage(perm, t)] == t,
{
    assert(perm.contains(t));
}

/// Inequivalent states stay inequivalent when renumbered.
proof fn lemma_renumbered_distinct_forward(
    epsilon1: Seq<[i128; 3]>,
    tau1: Seq<[usize; 4]>,
    initial1: int,
    epsilon2: Seq<[i128; 3]>,
    tau2: Seq<[usize; 4]>,
    initial2: int,
    perm: Seq<int>,
)
    requires
        graph_shape(epsilon1, tau1),
        tau2.len() == epsilon2.len(),
        renumbered(epsilon1, tau1, initial1, epsilon2, tau2, initial2, perm),
        0 <= initial1 < epsilon1.len(),
    ensures
        has_distinct_states(epsilon1, tau1, 65) ==> has_distinct_states(epsilon2, tau2, 65),
{
    let n = epsilon1.len();
    if has_distinct_states(epsilon1, tau1, 65) {
        let ss = choose|ss: Seq<int>|
            #![trigger ss.len()]
            ss.len() == 65 && (forall|i: int| 0 <= i < 65 ==> 0 <= #[trigger] ss[i] < n) && (forall|i: int, j: int|
                0 <= i < 65 && 0 <= j < 65 && i != j ==> !equivalent(epsilon1, tau1, #[trigger] ss[i], #[trigger] ss[j]));
        let ss2 = Seq::new(65, |i: int| perm[ss[i]]);
        assert forall|i: int, j: int| 0 <= i < 65 && 0 <= j < 65 && i != j implies !equivalent(
            epsilon2,
            tau2,
            #[trigger] ss2[i],
            #[trigger] ss2[j],
        ) by {
            lemma_renumbered_equivalent(epsilon1, tau1, initial1, epsilon2, tau2, initial2, perm, ss[i], ss[j]);
        }
        assert(forall|i: int| 0 <= i < 65 ==> 0 <= #[trigger] ss2[i] < n);
        assert(ss2.len() == 65);
    }
}

/// Inequivalent states of the renumbered graph come from inequivalent
/// states.
proof fn lemma_renumbered_distinct_backward(
    epsilon1: Seq<[i128; 3]>,
    tau1: Seq<[usize; 4]>,
    initial1: int,
    epsilon2: Seq<[i128; 3]>,
    tau2: Seq<[usize; 4]>,
    initial2: int,
    perm: Seq<int>,
)
    requires
        graph_shape(epsilon1, tau1),
        tau2.len() == epsilon2.len(),
        renumbered(epsilon1, tau1, initial1, epsilon2, tau2, initial2, perm),
        0 <= initial1 < epsilon1.len(),
    ensures
        has_distinct_states(epsilon2, tau2, 65) ==> has_distinct_states(epsilon1, tau1, 65),
{
    let n = epsilon1.len();
    if has_distinct_states(epsilon2, tau2, 65) {
        let ss = choose|ss: Seq<int>|
            #![trigger ss.len()]
            ss.len() == 65 && (forall|i: int| 0 <= i < 65 ==> 0 <= #[trigger] ss[i] < n) && (forall|i: int, j: int|
                0 <= i < 65 && 0 <= j < 65 && i != j ==> !equivalent(epsilon2, tau2, #[trigger] ss[i], #[trigger] ss[j]));
        let ss1 = Seq::new(65, |i: int| preimage(perm, ss[i]));
        assert forall|i: int| 0 <= i < 65 implies 0 <= #[trigger] ss1[i] < n && perm[ss1[i]] == ss[i] by {
            lemma_renumbered_onto(epsilon1, tau1, initial1, epsilon2, tau2, initial2, perm, ss[i]);
        }
        assert forall|i: int, j: int| 0 <= i < 65 && 0 <= j < 65 && i != j implies !equivalent(
            epsilon1,
            tau1,
            #[trigger] ss1[i],
            #[trigger] ss1[j],
        ) by {
            assert(perm[ss1[i]] == ss[i]);
            assert(perm[ss1[j]] == ss[j]);
            lemma_renumbered_equivalent(epsilon1, tau1, initial1, epsilon2, tau2, initial2, perm, ss1[i], ss1[j]);
        }
        assert(ss1.len() == 65);
    }
}

/// Reached states stay reached when renumbered.
proof fn lemma_renumbered_reached_forward(
    epsilon1: Seq<[i128; 3]>,
    tau1: Seq<[usize; 4]>,
    initial1: int,
    epsilon2: Seq<[i128; 3]>,
    tau2: Seq<[usize; 4]>,
    initial2: int,
    perm: Seq<int>,
)
    requires
        graph_shape(epsilon1, tau1),
        tau2.len() == epsilon2.len(),
        renumbered(epsilon1, tau1, initial1, epsilon2, tau2, initial2, perm),
        0 <= initial1 < epsilon1.len(),
    ensures
        all_reached(epsilon1, tau1, initial1) ==> all_reached(epsilon2, tau2, initial2),
{
    let n = epsilon1.len();
    if all_reached(epsilon1, tau1, initial1) {
        assert forall|t: int| 0 <= t < n implies #[trigger] reaches(epsilon2, tau2, initial2, t) by {
            lemma_renumbered_onto(epsilon1, tau1, initial1, epsilon2, tau2, initial2, perm, t);
            let s = preimage(perm, t);
            assert(reaches(epsilon1, tau1, initial1, s));
            let w = choose|w: Seq<int>| #[trigger] is_word(w) && equivalent(epsilon1, tau1, run(tau1, initial1, w), s);
            lemma_renumbered_run(epsilon1, tau1, initial1, epsilon2, tau2, initial2, perm, initial1, w);
            lemma_renumbered_equivalent(epsilon1, tau1, initial1, epsilon2, tau2, initial2, perm, run(tau1, initial1, w), s);
            assert(is_word(w) && equivalent(epsilon2, tau2, run(tau2, initial2, w), t));
        }
    }
}

/// Reached states of the renumbered graph come from reached states.
proof fn lemma_renumbered_reached_backward(
    epsilon1: Seq<[i128; 3]>,
    tau1: Seq<[usize; 4]>,
    initial1: int,
    epsilon2: Seq<[i128; 3]>,
    tau2: Seq<[usize; 4]>,
    initial2: int,
    perm: Seq<int>,
)
    requires
        graph_shape(epsilon1, tau1),
        tau2.len() == epsilon2.len(),
        renumbered(epsilon1, tau1, initial1, epsilon2, tau2, initial2, perm),
        0 <= initial1 < epsilon1.len(),
    ensures
        all_reached(epsilon2, tau2, initial2) ==> all_reached(epsilon1, tau1, initial1),
{
    let n = epsilon1.len();
    if all_reached(epsilon2, tau2, initial2) {
        assert forall|s: int| 0 <= s < n implies #[trigger] reaches(epsilon1, tau1, initial1, s) by {
            assert(reaches(epsilon2, tau2, initial2, perm[s]));
            let w = choose|w: Seq<int>| #[trigger] is_word(w) && equivalent(epsilon2, tau2, run(tau2, initial2, w), perm[s]);
            lemma_renumbered_run(epsilon1, tau1, initial1, epsilon2, tau2, initial2, perm, initial1, w);
            lemma_renumbered_equivalent(epsilon1, tau1, initial1, epsilon2, tau2, initial2, perm, run(tau1, initial1, w), s);
            assert(is_word(w) && equivalent(epsilon1, tau1, run(tau1, initial1, w), s));
        }
    }
}

/// Renumbering keeps every condition on which minimizing refuses: the input
/// stays well formed, more than 64 inequivalent states exist in both graphs
/// or in neither, and every state is reached in both or in neither. So a
/// graph and its renumbering are refused alike, and otherwise minimize to
/// the same bases (`lemma_minimized_renumbering`).
pub proof fn lemma_renumbered_refusals(
    epsilon1: Seq<[i128; 3]>,
    tau1: Seq<[usize; 4]>,
    initial1: int,
    epsilon2: Seq<[i128; 3]>,
    tau2: Seq<[usize; 4]>,
    initial2: int,
    perm: Seq<int>,
)
    requires
        graph_shape(epsilon1, tau1),
        tau2.len() == epsilon2.len(),
        renumbered(epsilon1, tau1, initial1, epsilon2, tau2, initial2, perm),
        0 <= initial1 < epsilon1.len(),
    ensures
        minimize_input(epsilon1, tau1, initial1),
        minimize_input(epsilon2, tau2, initial2),
        has_distinct_states(epsilon1, tau1, 65) == has_distinct_states(epsilon2, tau2, 65),
        all_reached(epsilon1, tau1, initial1) == all_reached(epsilon2, tau2, initial2),
{
    lemma_renumbered_distinct_forward(epsilon1, tau1, initial1, epsilon2, tau2, initial2, perm);
    lemma_renumbered_distinct_backward(epsilon1, tau1, initial1, epsilon2, tau2, initial2, perm);
    lemma_renumbered_reached_forward(epsilon1, tau1, initial1, epsilon2, tau2, initial2, perm);
    lemma_renumbered_reached_backward(epsilon1, tau1, initial1, epsilon2, tau2, initial2, perm);
}

} // verus!
