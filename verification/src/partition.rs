//! Partition refinement of a deterministic graph over four symbols whose
//! states carry three observed values: two states end in one class exactly
//! when no word of symbols tells them apart.
use vstd::prelude::*;
use crate::numbering::{
    canon, lemma_canon, lemma_canon_ids, lemma_canon_onto, lemma_canon_push, lemma_canon_refines, lemma_distinct_below,
};

verus! {

/// The observable key of a state: its epsilons and the classes of its
/// successors.
pub type StateKey = (i128, i128, i128, usize, usize, usize, usize);

/// The key of `state` when its successors are read through `classes`.
pub open spec fn key_of(epsilon: Seq<[i128; 3]>, tau: Seq<[usize; 4]>, classes: Seq<usize>, state: int) -> StateKey {
    (
        epsilon[state]@[0],
        epsilon[state]@[1],
        epsilon[state]@[2],
        classes[tau[state]@[0] as int],
        classes[tau[state]@[1] as int],
        classes[tau[state]@[2] as int],
        classes[tau[state]@[3] as int],
    )
}

/// The keys of all states when successors are read through `classes`.
pub open spec fn keys_of(epsilon: Seq<[i128; 3]>, tau: Seq<[usize; 4]>, classes: Seq<usize>) -> Seq<StateKey> {
    Seq::new(epsilon.len(), |s: int| key_of(epsilon, tau, classes, s))
}

/// The keys of all states by their epsilons alone.
pub open spec fn profile_keys(epsilon: Seq<[i128; 3]>) -> Seq<StateKey> {
    Seq::new(epsilon.len(), |s: int| (epsilon[s]@[0], epsilon[s]@[1], epsilon[s]@[2], 0usize, 0usize, 0usize, 0usize))
}

/// Every transition of `tau` names a state of `n`.
pub open spec fn transitions_in(tau: Seq<[usize; 4]>, n: nat) -> bool {
    forall|s: int, sym: int| 0 <= s < tau.len() && 0 <= sym < 4 ==> #[trigger] tau[s]@[sym] < n
}

/// The id of `key` among `ds`, appending it when new.
fn intern(ds: &mut Vec<StateKey>, key: StateKey) -> (id: usize)
    requires
        old(ds)@.no_duplicates(),
    ensures
        old(ds)@.contains(key) ==> final(ds)@ == old(ds)@ && id == old(ds)@.index_of(key),
        !old(ds)@.contains(key) ==> final(ds)@ == old(ds)@.push(key) && id == old(ds)@.len(),
{
    let mut i: usize = 0;
    while i < ds.len()
        invariant
            i <= ds.len(),
            ds@ == old(ds)@,
            ds@.no_duplicates(),
            forall|j: int| 0 <= j < i ==> ds@[j] != key,
        decreases ds.len() - i,
    {
        let d = ds[i];
        if d.0 == key.0 && d.1 == key.1 && d.2 == key.2 && d.3 == key.3 && d.4 == key.4 && d.5 == key.5
            && d.6 == key.6 {
            assert(ds@[i as int] == key);
            assert(ds@.contains(key));
            assert(ds@.index_of(key) == i as int) by {
                assert(ds@.no_duplicates());
                let f = ds@.index_of(key);
                assert(ds@[f] == key);
            }
            return i;
        }
        i += 1;
    }
    assert(!ds@.contains(key));
    let id = ds.len();
    ds.push(key);
    id
}

/// First-occurrence numbering of `keys`, and the number of distinct keys.
fn number_keys(keys: &Vec<StateKey>) -> (r: (Vec<usize>, usize))
    ensures
        r.0@ == canon(keys@).0,
        r.1 == canon(keys@).1.len(),
{
    let mut ids: Vec<usize> = Vec::new();
    let mut ds: Vec<StateKey> = Vec::new();
    let mut i: usize = 0;
    while i < keys.len()
        invariant
            i <= keys.len(),
            (ids@, ds@) == canon(keys@.take(i as int)),
        decreases keys.len() - i,
    {
        proof {
            lemma_canon(keys@.take(i as int));
            lemma_canon_push(keys@.take(i as int), keys@[i as int]);
            assert(keys@.take(i as int).push(keys@[i as int]) =~= keys@.take(i + 1));
        }
        let id = intern(&mut ds, keys[i]);
        ids.push(id);
        i += 1;
    }
    assert(keys@.take(i as int) =~= keys@);
    (ids, ds.len())
}

/// The keys of all states with successors read through `classes`.
fn state_keys(epsilon: &[[i128; 3]], tau: &[[usize; 4]], classes: &Vec<usize>) -> (r: Vec<StateKey>)
    requires
        epsilon.len() == tau.len(),
        classes.len() == epsilon.len(),
        transitions_in(tau@, epsilon@.len()),
    ensures
        r@ == keys_of(epsilon@, tau@, classes@),
{
    let mut keys: Vec<StateKey> = Vec::new();
    let mut s: usize = 0;
    while s < epsilon.len()
        invariant
            s <= epsilon.len() == tau.len() == classes.len(),
            transitions_in(tau@, epsilon@.len()),
            keys@ == keys_of(epsilon@, tau@, classes@).take(s as int),
        decreases epsilon.len() - s,
    {
        let e = epsilon[s];
        let t = tau[s];
        assert(t@[0] < epsilon.len() && t@[1] < epsilon.len() && t@[2] < epsilon.len() && t@[3] < epsilon.len());
        keys.push((e[0], e[1], e[2], classes[t[0]], classes[t[1]], classes[t[2]], classes[t[3]]));
        s += 1;
        assert(keys@ =~= keys_of(epsilon@, tau@, classes@).take(s as int));
    }
    assert(keys_of(epsilon@, tau@, classes@).take(s as int) =~= keys_of(epsilon@, tau@, classes@));
    keys
}


/// The state reached from `s` by reading the symbols of `w`.
pub open spec fn run(tau: Seq<[usize; 4]>, s: int, w: Seq<int>) -> int
    decreases w.len(),
{
    if w.len() == 0 {
        s
    } else {
        run(tau, tau[s]@[w[0]] as int, w.drop_first())
    }
}

/// `w` is a word of the four symbols.
pub open spec fn is_word(w: Seq<int>) -> bool {
    forall|i: int| 0 <= i < w.len() ==> 0 <= #[trigger] w[i] < 4
}

/// `s` and `t` observe the same values after every word.
pub open spec fn equivalent(epsilon: Seq<[i128; 3]>, tau: Seq<[usize; 4]>, s: int, t: int) -> bool {
    forall|w: Seq<int>| #[trigger] is_word(w) ==> epsilon[run(tau, s, w)]@ == epsilon[run(tau, t, w)]@
}

/// States of one class have equal keys.
pub open spec fn stable(epsilon: Seq<[i128; 3]>, tau: Seq<[usize; 4]>, classes: Seq<usize>) -> bool {
    forall|s: int, t: int|
        #![trigger key_of(epsilon, tau, classes, s), key_of(epsilon, tau, classes, t)]
        0 <= s < epsilon.len() && 0 <= t < epsilon.len() && classes[s] == classes[t] ==> key_of(
            epsilon,
            tau,
            classes,
            s,
        ) == key_of(epsilon, tau, classes, t)
}

/// Equivalent states carry equal labels.
pub open spec fn respects<A>(epsilon: Seq<[i128; 3]>, tau: Seq<[usize; 4]>, labels: Seq<A>) -> bool {
    forall|s: int, t: int|
        0 <= s < epsilon.len() && 0 <= t < epsilon.len() && #[trigger] equivalent(epsilon, tau, s, t)
            ==> labels[s] == labels[t]
}

/// States whose keys agree under `classes` agree under `labels`.
pub open spec fn keys_refine(
    epsilon: Seq<[i128; 3]>,
    tau: Seq<[usize; 4]>,
    classes: Seq<usize>,
    labels: Seq<StateKey>,
) -> bool {
    forall|s: int, t: int|
        0 <= s < epsilon.len() && 0 <= t < epsilon.len() && #[trigger] key_of(epsilon, tau, classes, s)
            == #[trigger] key_of(epsilon, tau, classes, t) ==> labels[s] == labels[t]
}

/// The shape every graph here has: one transition row per state, each
/// naming a state.
pub open spec fn graph_shape(epsilon: Seq<[i128; 3]>, tau: Seq<[usize; 4]>) -> bool {
    &&& epsilon.len() == tau.len()
    &&& epsilon.len() <= usize::MAX
    &&& transitions_in(tau, epsilon.len())
}

/// Equivalent states observe equal values, and their successors on each
/// symbol are equivalent.
pub proof fn lemma_equivalent_step(epsilon: Seq<[i128; 3]>, tau: Seq<[usize; 4]>, s: int, t: int, a: int)
    requires
        graph_shape(epsilon, tau),
        0 <= s < epsilon.len(),
        0 <= t < epsilon.len(),
        0 <= a < 4,
        equivalent(epsilon, tau, s, t),
    ensures
        epsilon[s]@ == epsilon[t]@,
        equivalent(epsilon, tau, tau[s]@[a] as int, tau[t]@[a] as int),
{
    let e = Seq::<int>::empty();
    assert(is_word(e));
    assert(run(tau, s, e) == s && run(tau, t, e) == t);
    assert forall|w: Seq<int>| #[trigger] is_word(w) implies epsilon[run(tau, tau[s]@[a] as int, w)]@ == epsilon[run(
        tau,
        tau[t]@[a] as int,
        w,
    )]@ by {
        let w1 = seq![a].add(w);
        assert(w1.drop_first() =~= w);
        assert(w1[0] == a);
        assert(is_word(w1)) by {
            assert forall|i: int| 0 <= i < w1.len() implies 0 <= #[trigger] w1[i] < 4 by {
                if i > 0 {
                    assert(w1[i] == w[i - 1]);
                }
            }
        }
        assert(run(tau, s, w1) == run(tau, tau[s]@[a] as int, w));
        assert(run(tau, t, w1) == run(tau, tau[t]@[a] as int, w));
    }
}

/// Along any word, states of one class of a stable partition stay in one
/// class.
pub proof fn lemma_stable_run(
    epsilon: Seq<[i128; 3]>,
    tau: Seq<[usize; 4]>,
    classes: Seq<usize>,
    s: int,
    t: int,
    w: Seq<int>,
)
    requires
        graph_shape(epsilon, tau),
        classes.len() == epsilon.len(),
        stable(epsilon, tau, classes),
        0 <= s < epsilon.len(),
        0 <= t < epsilon.len(),
        classes[s] == classes[t],
        is_word(w),
    ensures
        0 <= run(tau, s, w) < epsilon.len(),
        0 <= run(tau, t, w) < epsilon.len(),
        classes[run(tau, s, w)] == classes[run(tau, t, w)],
    decreases w.len(),
{
    if w.len() > 0 {
        let a = w[0];
        assert(0 <= a < 4);
        let ks = key_of(epsilon, tau, classes, s);
        let kt = key_of(epsilon, tau, classes, t);
        assert(ks == kt);
        let s1 = tau[s]@[a] as int;
        let t1 = tau[t]@[a] as int;
        assert(tau[s]@[a] < epsilon.len() && tau[t]@[a] < epsilon.len());
        assert(classes[s1] == classes[t1]) by {
            if a == 0 {
                assert(ks.3 == kt.3);
            } else if a == 1 {
                assert(ks.4 == kt.4);
            } else if a == 2 {
                assert(ks.5 == kt.5);
            } else {
                assert(ks.6 == kt.6);
            }
        }
        let w1 = w.drop_first();
        assert(is_word(w1)) by {
            assert forall|i: int| 0 <= i < w1.len() implies 0 <= #[trigger] w1[i] < 4 by {
                assert(w1[i] == w[i + 1]);
            }
        }
        lemma_stable_run(epsilon, tau, classes, s1, t1, w1);
    }
}

/// In a stable partition, states of one class are equivalent.
pub proof fn lemma_stable_equivalent(
    epsilon: Seq<[i128; 3]>,
    tau: Seq<[usize; 4]>,
    classes: Seq<usize>,
    s: int,
    t: int,
)
    requires
        graph_shape(epsilon, tau),
        classes.len() == epsilon.len(),
        stable(epsilon, tau, classes),
        0 <= s < epsilon.len(),
        0 <= t < epsilon.len(),
        classes[s] == classes[t],
    ensures
        equivalent(epsilon, tau, s, t),
{
    assert forall|w: Seq<int>| #[trigger] is_word(w) implies epsilon[run(tau, s, w)]@ == epsilon[run(
        tau,
        t,
        w,
    )]@ by {
        lemma_stable_run(epsilon, tau, classes, s, t, w);
        let (x, y) = (run(tau, s, w), run(tau, t, w));
        assert(classes[x] == classes[y]);
        let kx = key_of(epsilon, tau, classes, x);
        let ky = key_of(epsilon, tau, classes, y);
        assert(kx == ky);
        assert(epsilon[x]@ =~= epsilon[y]@);
    }
}

/// The profile keys, numbered, respect equivalence.
pub proof fn lemma_profiles_respect(epsilon: Seq<[i128; 3]>, tau: Seq<[usize; 4]>)
    requires
        graph_shape(epsilon, tau),
    ensures
        respects(epsilon, tau, profile_keys(epsilon)),
{
    assert forall|s: int, t: int|
        0 <= s < epsilon.len() && 0 <= t < epsilon.len() && #[trigger] equivalent(epsilon, tau, s, t) implies profile_keys(
        epsilon,
    )[s] == profile_keys(epsilon)[t] by {
        lemma_equivalent_step(epsilon, tau, s, t, 0);
    }
}

/// The profile keys agree wherever keys under their numbering agree.
pub proof fn lemma_profiles_refined(epsilon: Seq<[i128; 3]>, tau: Seq<[usize; 4]>)
    requires
        graph_shape(epsilon, tau),
    ensures
        keys_refine(epsilon, tau, canon(profile_keys(epsilon)).0, profile_keys(epsilon)),
{
    let classes = canon(profile_keys(epsilon)).0;
    assert forall|s: int, t: int|
        0 <= s < epsilon.len() && 0 <= t < epsilon.len() && #[trigger] key_of(epsilon, tau, classes, s)
            == #[trigger] key_of(epsilon, tau, classes, t) implies profile_keys(epsilon)[s] == profile_keys(
        epsilon,
    )[t] by {
        assert(epsilon[s]@ =~= epsilon[t]@) by {
            assert(key_of(epsilon, tau, classes, s).0 == key_of(epsilon, tau, classes, t).0);
            assert(key_of(epsilon, tau, classes, s).1 == key_of(epsilon, tau, classes, t).1);
            assert(key_of(epsilon, tau, classes, s).2 == key_of(epsilon, tau, classes, t).2);
        }
    }
}

/// One round of refinement keeps both invariants: with `ka` numbered into
/// `classes`, the keys `kb` under `classes` again respect equivalence and
/// agree wherever keys under their own numbering agree.
pub proof fn lemma_refine_step(
    epsilon: Seq<[i128; 3]>,
    tau: Seq<[usize; 4]>,
    ka: Seq<StateKey>,
)
    requires
        graph_shape(epsilon, tau),
        ka.len() == epsilon.len(),
        respects(epsilon, tau, ka),
        keys_refine(epsilon, tau, canon(ka).0, ka),
    ensures
        respects(epsilon, tau, keys_of(epsilon, tau, canon(ka).0)),
        keys_refine(
            epsilon,
            tau,
            canon(keys_of(epsilon, tau, canon(ka).0)).0,
            keys_of(epsilon, tau, canon(ka).0),
        ),
{
    let n = epsilon.len();
    let classes = canon(ka).0;
    let kb = keys_of(epsilon, tau, classes);
    let refined = canon(kb).0;
    lemma_canon(ka);
    lemma_canon(kb);
    assert forall|s: int, t: int|
        0 <= s < n && 0 <= t < n && #[trigger] equivalent(epsilon, tau, s, t) implies kb[s] == kb[t] by {
        assert forall|a: int| 0 <= a < 4 implies classes[tau[s]@[a] as int] == classes[tau[t]@[a] as int] by {
            lemma_equivalent_step(epsilon, tau, s, t, a);
            let (x, y) = (tau[s]@[a] as int, tau[t]@[a] as int);
            assert(tau[s]@[a] < n && tau[t]@[a] < n);
            assert(ka[x] == ka[y]);
            lemma_canon_ids(ka, x, y);
        }
        lemma_equivalent_step(epsilon, tau, s, t, 0);
        assert(kb[s] == key_of(epsilon, tau, classes, s));
        assert(kb[t] == key_of(epsilon, tau, classes, t));
        assert(classes[tau[s]@[0] as int] == classes[tau[t]@[0] as int]);
        assert(classes[tau[s]@[1] as int] == classes[tau[t]@[1] as int]);
        assert(classes[tau[s]@[2] as int] == classes[tau[t]@[2] as int]);
        assert(classes[tau[s]@[3] as int] == classes[tau[t]@[3] as int]);
    }
    assert forall|s: int, t: int|
        0 <= s < n && 0 <= t < n && #[trigger] key_of(epsilon, tau, refined, s) == #[trigger] key_of(
            epsilon,
            tau,
            refined,
            t,
        ) implies kb[s] == kb[t] by {
        assert forall|a: int| 0 <= a < 4 implies classes[tau[s]@[a] as int] == classes[tau[t]@[a] as int] by {
            let (x, y) = (tau[s]@[a] as int, tau[t]@[a] as int);
            assert(tau[s]@[a] < n && tau[t]@[a] < n);
            if a == 0 {
                assert(key_of(epsilon, tau, refined, s).3 == key_of(epsilon, tau, refined, t).3);
            } else if a == 1 {
                assert(key_of(epsilon, tau, refined, s).4 == key_of(epsilon, tau, refined, t).4);
            } else if a == 2 {
                assert(key_of(epsilon, tau, refined, s).5 == key_of(epsilon, tau, refined, t).5);
            } else {
                assert(key_of(epsilon, tau, refined, s).6 == key_of(epsilon, tau, refined, t).6);
            }
            assert(refined[x] == refined[y]);
            lemma_canon_ids(kb, x, y);
            assert(kb[x] == kb[y]);
            assert(kb[x] == key_of(epsilon, tau, classes, x));
            assert(kb[y] == key_of(epsilon, tau, classes, y));
            assert(ka[x] == ka[y]);
            lemma_canon_ids(ka, x, y);
        }
        assert(kb[s] == key_of(epsilon, tau, classes, s));
        assert(kb[t] == key_of(epsilon, tau, classes, t));
        assert(classes[tau[s]@[0] as int] == classes[tau[t]@[0] as int]);
        assert(classes[tau[s]@[1] as int] == classes[tau[t]@[1] as int]);
        assert(classes[tau[s]@[2] as int] == classes[tau[t]@[2] as int]);
        assert(classes[tau[s]@[3] as int] == classes[tau[t]@[3] as int]);
    }
}

/// When numbering the keys under `classes` gives `classes` back, the
/// partition is stable.
pub proof fn lemma_fixpoint_stable(epsilon: Seq<[i128; 3]>, tau: Seq<[usize; 4]>, classes: Seq<usize>)
    requires
        graph_shape(epsilon, tau),
        classes.len() == epsilon.len(),
        canon(keys_of(epsilon, tau, classes)).0 == classes,
    ensures
        stable(epsilon, tau, classes),
{
    let n = epsilon.len();
    let kb = keys_of(epsilon, tau, classes);
    assert forall|s: int, t: int|
        #![trigger key_of(epsilon, tau, classes, s), key_of(epsilon, tau, classes, t)]
        0 <= s < n && 0 <= t < n && classes[s] == classes[t] implies key_of(epsilon, tau, classes, s) == key_of(
            epsilon,
            tau,
            classes,
            t,
        ) by {
        lemma_canon_ids(kb, s, t);
        assert(kb[s] == key_of(epsilon, tau, classes, s));
        assert(kb[t] == key_of(epsilon, tau, classes, t));
    }
}

/// A stable partition that respects equivalence has the equivalence classes
/// as its classes.
pub proof fn lemma_classes_are_equivalence(epsilon: Seq<[i128; 3]>, tau: Seq<[usize; 4]>, ka: Seq<StateKey>)
    requires
        graph_shape(epsilon, tau),
        ka.len() == epsilon.len(),
        respects(epsilon, tau, ka),
        stable(epsilon, tau, canon(ka).0),
    ensures
        forall|s: int, t: int|
            0 <= s < epsilon.len() && 0 <= t < epsilon.len() ==> (#[trigger] canon(ka).0[s]
                == #[trigger] canon(ka).0[t]) == equivalent(epsilon, tau, s, t),
{
    let n = epsilon.len();
    let classes = canon(ka).0;
    lemma_canon(ka);
    assert forall|s: int, t: int| 0 <= s < n && 0 <= t < n implies (#[trigger] classes[s] == #[trigger] classes[t])
        == equivalent(epsilon, tau, s, t) by {
        if classes[s] == classes[t] {
            lemma_stable_equivalent(epsilon, tau, classes, s, t);
        }
        if equivalent(epsilon, tau, s, t) {
            lemma_canon_ids(ka, s, t);
        }
    }
}

/// The coarsest stable partition of the states: two states share a class
/// exactly when they are equivalent. Returns the class of each state and the
/// number of classes; every class below that number is taken.
pub fn stable_classes(epsilon: &[[i128; 3]], tau: &[[usize; 4]]) -> (r: (Vec<usize>, usize))
    requires
        epsilon.len() == tau.len(),
        transitions_in(tau@, epsilon@.len()),
    ensures
        r.0@.len() == epsilon.len(),
        r.1 <= epsilon.len(),
        forall|s: int| 0 <= s < epsilon.len() ==> #[trigger] r.0@[s] < r.1,
        forall|c: usize| c < r.1 ==> #[trigger] r.0@.contains(c),
        stable(epsilon@, tau@, r.0@),
        forall|s: int, t: int|
            0 <= s < epsilon.len() && 0 <= t < epsilon.len() ==> (#[trigger] r.0@[s] == #[trigger] r.0@[t])
                == equivalent(epsilon@, tau@, s, t),
{
    let n = epsilon.len();
    let mut profiles: Vec<StateKey> = Vec::new();
    let mut s: usize = 0;
    while s < n
        invariant
            s <= n == epsilon.len(),
            profiles@ == profile_keys(epsilon@).take(s as int),
        decreases n - s,
    {
        let e = epsilon[s];
        profiles.push((e[0], e[1], e[2], 0, 0, 0, 0));
        s += 1;
        assert(profiles@ =~= profile_keys(epsilon@).take(s as int));
    }
    assert(profile_keys(epsilon@).take(s as int) =~= profile_keys(epsilon@));
    let (mut classes, mut count) = number_keys(&profiles);
    let ghost mut ka = profiles@;
    proof {
        lemma_profiles_respect(epsilon@, tau@);
        lemma_profiles_refined(epsilon@, tau@);
    }
    loop
        invariant
            n == epsilon.len() == tau.len(),
            graph_shape(epsilon@, tau@),
            ka.len() == n,
            classes@ == canon(ka).0,
            count == canon(ka).1.len(),
            respects(epsilon@, tau@, ka),
            keys_refine(epsilon@, tau@, classes@, ka),
        decreases n - count,
    {
        proof {
            lemma_canon(ka);
        }
        let keys = state_keys(epsilon, tau, &classes);
        let (refined, refined_count) = number_keys(&keys);
        proof {
            lemma_canon(keys@);
            assert forall|x: int, y: int| 0 <= x < keys@.len() && 0 <= y < keys@.len() && #[trigger] keys@[x]
                == #[trigger] keys@[y] implies ka[x] == ka[y] by {
                assert(keys@[x] == key_of(epsilon@, tau@, classes@, x));
                assert(keys@[y] == key_of(epsilon@, tau@, classes@, y));
            }
            lemma_canon_refines(ka, keys@);
            lemma_refine_step(epsilon@, tau@, ka);
        }
        let mut same = true;
        let mut i: usize = 0;
        while i < n
            invariant
                i <= n,
                refined@.len() == n,
                classes@.len() == n,
                same == (forall|j: int| 0 <= j < i ==> refined@[j] == classes@[j]),
            decreases n - i,
        {
            if refined[i] != classes[i] {
                same = false;
            }
            i += 1;
        }
        if same {
            assert(refined@ =~= classes@);
            proof {
                lemma_fixpoint_stable(epsilon@, tau@, classes@);
                lemma_classes_are_equivalence(epsilon@, tau@, ka);
                assert forall|c: usize| c < count implies #[trigger] classes@.contains(c) by {
                    lemma_canon_onto(ka, c);
                }
            }
            return (classes, count);
        }
        proof {
            ka = keys@;
        }
        classes = refined;
        count = refined_count;
    }
}

/// Reading one more symbol takes one more transition.
pub proof fn lemma_run_push(tau: Seq<[usize; 4]>, s: int, w: Seq<int>, a: int)
    ensures
        run(tau, s, w.push(a)) == tau[run(tau, s, w)]@[a] as int,
    decreases w.len(),
{
    if w.len() == 0 {
        let e = Seq::<int>::empty();
        assert(w.push(a).drop_first() =~= e);
        assert(w.push(a)[0] == a);
        assert(run(tau, tau[s]@[a] as int, e) == tau[s]@[a] as int);
        assert(run(tau, s, w.push(a)) == run(tau, tau[s]@[a] as int, e));
        assert(run(tau, s, w) == s);
    } else {
        let s1 = tau[s]@[w[0]] as int;
        assert(w.push(a).drop_first() =~= w.drop_first().push(a));
        assert(w.push(a)[0] == w[0]);
        lemma_run_push(tau, s1, w.drop_first(), a);
        assert(run(tau, s, w.push(a)) == run(tau, s1, w.drop_first().push(a)));
        assert(run(tau, s, w) == run(tau, s1, w.drop_first()));
    }
}

/// A word followed by one more symbol is a word.
pub proof fn lemma_word_push(w: Seq<int>, a: int)
    requires
        is_word(w),
        0 <= a < 4,
    ensures
        is_word(w.push(a)),
{
    assert forall|i: int| 0 <= i < w.push(a).len() implies 0 <= #[trigger] w.push(a)[i] < 4 by {
        if i < w.len() {
            assert(w.push(a)[i] == w[i]);
        }
    }
}

/// In a stable partition, states of one class have successors of one class.
pub proof fn lemma_stable_successor(
    epsilon: Seq<[i128; 3]>,
    tau: Seq<[usize; 4]>,
    classes: Seq<usize>,
    s: int,
    t: int,
    a: int,
)
    requires
        graph_shape(epsilon, tau),
        classes.len() == epsilon.len(),
        stable(epsilon, tau, classes),
        0 <= s < epsilon.len(),
        0 <= t < epsilon.len(),
        0 <= a < 4,
        classes[s] == classes[t],
    ensures
        classes[tau[s]@[a] as int] == classes[tau[t]@[a] as int],
        epsilon[s]@ == epsilon[t]@,
{
    let ks = key_of(epsilon, tau, classes, s);
    let kt = key_of(epsilon, tau, classes, t);
    assert(ks == kt);
    if a == 0 {
        assert(ks.3 == kt.3);
    } else if a == 1 {
        assert(ks.4 == kt.4);
    } else if a == 2 {
        assert(ks.5 == kt.5);
    } else {
        assert(ks.6 == kt.6);
    }
    assert(epsilon[s]@ =~= epsilon[t]@);
}

/// The id the search gives the class reached from the representative of the
/// `j`-th class found, on symbol `b`.
pub open spec fn target_id(
    tau: Seq<[usize; 4]>,
    classes: Seq<usize>,
    rep: Seq<usize>,
    canonical: Seq<usize>,
    order: Seq<usize>,
    j: int,
    b: int,
) -> usize {
    canonical[classes[tau[rep[order[j] as int] as int]@[b] as int] as int]
}

/// The ids the search meets: the first class, then the targets of each
/// class found, four at a time.
pub open spec fn search_walk(
    tau: Seq<[usize; 4]>,
    classes: Seq<usize>,
    rep: Seq<usize>,
    canonical: Seq<usize>,
    order: Seq<usize>,
) -> Seq<usize> {
    Seq::new(
        (1 + 4 * order.len()) as nat,
        |p: int|
            if p == 0 {
                0usize
            } else {
                target_id(tau, classes, rep, canonical, order, (p - 1) / 4, (p - 1) % 4)
            },
    )
}

/// Some word leads from `initial` to a state of class `c`.
pub open spec fn reached(tau: Seq<[usize; 4]>, classes: Seq<usize>, initial: int, c: usize) -> bool {
    exists|w: Seq<int>| #[trigger] is_word(w) && classes[run(tau, initial, w)] == c
}

/// `0, 1, .., k - 1`.
pub open spec fn iota(k: nat) -> Seq<usize> {
    Seq::new(k, |i: int| i as usize)
}

/// Position `q` of a sequence read four at a time lies before the item `a`
/// of the group `h`.
proof fn lemma_before(q: int, h: int, a: int)
    requires
        0 <= q < 4 * h + a,
        0 <= a < 4,
        0 <= h,
    ensures
        q / 4 < h || (q / 4 == h && q % 4 < a),
        q == 4 * (q / 4) + q % 4,
        0 <= q % 4 < 4,
{
    assert(q == 4 * (q / 4) + q % 4 && 0 <= q % 4 < 4) by (nonlinear_arith)
        requires
            0 <= q,
    ;
    assert(q / 4 < h || (q / 4 == h && q % 4 < a)) by (nonlinear_arith)
        requires
            0 <= q < 4 * h + a,
            0 <= a < 4,
            q == 4 * (q / 4) + q % 4,
            0 <= q % 4 < 4,
    ;
}

/// Numbers the classes in breadth-first order from the class of `initial`,
/// reading the successors of each class's representative symbol by symbol.
/// Returns the number of each class (`usize::MAX` for a class not reached)
/// and the classes in the order they were numbered.
pub fn search_classes(
    epsilon: &[[i128; 3]],
    tau: &[[usize; 4]],
    classes: &Vec<usize>,
    count: usize,
    rep: &Vec<usize>,
    initial: usize,
) -> (r: (Vec<usize>, Vec<usize>))
    requires
        graph_shape(epsilon@, tau@),
        classes.len() == epsilon.len(),
        stable(epsilon@, tau@, classes@),
        initial < epsilon.len(),
        rep.len() == count,
        forall|s: int| 0 <= s < epsilon.len() ==> #[trigger] classes@[s] < count,
        forall|c: int| 0 <= c < count ==> #[trigger] rep@[c] < epsilon.len() && classes@[rep@[c] as int] == c,
    ensures
        r.0.len() == count,
        r.1.len() <= count,
        r.1@.no_duplicates(),
        forall|j: int| 0 <= j < r.1.len() ==> #[trigger] r.1@[j] < count && r.0@[r.1@[j] as int] == j,
        forall|c: int|
            0 <= c < count ==> #[trigger] r.0@[c] == usize::MAX || (r.0@[c] < r.1.len() && r.1@[r.0@[c] as int]
                == c),
        r.0@[classes@[initial as int] as int] == 0,
        forall|j: int, b: int| 0 <= j < r.1.len() && 0 <= b < 4 ==> #[trigger] target_id(tau@, classes@, rep@, r.0@, r.1@, j, b)
            != usize::MAX,
        forall|j: int| 0 <= j < r.1.len() ==> reached(tau@, classes@, initial as int, #[trigger] r.1@[j]),
        canon(search_walk(tau@, classes@, rep@, r.0@, r.1@)).0 == search_walk(tau@, classes@, rep@, r.0@, r.1@),
{
    let n = epsilon.len();
    let mut canonical: Vec<usize> = Vec::new();
    let mut c: usize = 0;
    while c < count
        invariant
            c <= count,
            canonical@ == Seq::new(c as nat, |i: int| usize::MAX),
        decreases count - c,
    {
        canonical.push(usize::MAX);
        c += 1;
        assert(canonical@ =~= Seq::new(c as nat, |i: int| usize::MAX));
    }
    let ic = classes[initial];
    canonical.set(ic, 0);
    let mut order: Vec<usize> = Vec::new();
    order.push(ic);
    let ghost mut walk: Seq<usize> = seq![0usize];
    proof {
        assert(walk.push(0usize).drop_last() =~= walk);
        assert(Seq::<usize>::empty().push(0usize) =~= walk);
        lemma_canon_push(Seq::<usize>::empty(), 0usize);
        assert(canon(walk).0 =~= walk);
        assert(canon(walk).1 =~= iota(1));
        let w0 = Seq::<int>::empty();
        assert(is_word(w0));
        assert(run(tau@, initial as int, w0) == initial as int);
    }
    let mut head: usize = 0;
    let mut a: usize = 0;
    while head < order.len()
        invariant
            n == epsilon.len() == tau.len() == classes.len(),
            graph_shape(epsilon@, tau@),
            stable(epsilon@, tau@, classes@),
            initial < n,
            rep.len() == count,
            forall|s: int| 0 <= s < n ==> #[trigger] classes@[s] < count,
            forall|c: int| 0 <= c < count ==> #[trigger] rep@[c] < n && classes@[rep@[c] as int] == c,
            canonical.len() == count,
            1 <= order.len() <= count,
            head <= order.len(),
            a < 4,
            head == order.len() ==> a == 0,
            order@.no_duplicates(),
            forall|j: int| 0 <= j < order.len() ==> #[trigger] order@[j] < count && canonical@[order@[j] as int] == j,
            forall|c: int|
                0 <= c < count ==> #[trigger] canonical@[c] == usize::MAX || (canonical@[c] < order.len()
                    && order@[canonical@[c] as int] == c),
            order@[0] == classes@[initial as int],
            forall|j: int, b: int|
                0 <= j < order.len() && 0 <= b < 4 && (j < head || (j == head && b < a)) ==> #[trigger] target_id(
                    tau@,
                    classes@,
                    rep@,
                    canonical@,
                    order@,
                    j,
                    b,
                ) != usize::MAX,
            forall|j: int| 0 <= j < order.len() ==> reached(tau@, classes@, initial as int, #[trigger] order@[j]),
            walk.len() == 1 + 4 * head + a,
            walk[0] == 0,
            forall|j: int, b: int|
                0 <= j < order.len() && 0 <= b < 4 && (j < head || (j == head && b < a)) ==> walk[1 + 4 * j + b]
                    == #[trigger] target_id(tau@, classes@, rep@, canonical@, order@, j, b),
            canon(walk).0 == walk,
            canon(walk).1 == iota(order.len() as nat),
        decreases count - head, 4 - a,
    {
        let ghost old_canonical = canonical@;
        let ghost old_order = order@;
        let cl = order[head];
        let st = rep[cl];
        assert(tau@[st as int]@[a as int] < n);
        let dest = classes[tau[st][a]];
        assert(reached(tau@, classes@, initial as int, order@[head as int]));
        let ghost wh = choose|w: Seq<int>| #[trigger] is_word(w) && classes@[run(tau@, initial as int, w)] == order@[head as int];
        proof {
            let x = run(tau@, initial as int, wh);
            assert(0 <= x < n) by {
                lemma_stable_run(epsilon@, tau@, classes@, initial as int, initial as int, wh);
            }
            lemma_stable_successor(epsilon@, tau@, classes@, x, st as int, a as int);
            lemma_run_push(tau@, initial as int, wh, a as int);
            lemma_word_push(wh, a as int);
            assert(classes@[run(tau@, initial as int, wh.push(a as int)) as int] == dest);
        }
        if canonical[dest] == usize::MAX {
            let next = order.len();
            proof {
                assert(!order@.contains(dest)) by {
                    if order@.contains(dest) {
                        let j = choose|j: int| 0 <= j < order.len() && order@[j] == dest;
                        assert(canonical@[order@[j] as int] == j);
                    }
                }
                assert(order@.push(dest).no_duplicates()) by {
                    assert forall|i: int, k: int| 0 <= i < order.len() + 1 && 0 <= k < order.len() + 1 && i != k implies order@.push(dest)[i] != order@.push(dest)[k] by {
                        if i < order.len() && k < order.len() {
                            assert(order@.push(dest)[i] == order@[i]);
                            assert(order@.push(dest)[k] == order@[k]);
                        } else if i < order.len() {
                            assert(order@.push(dest)[i] == order@[i]);
                        } else {
                            assert(order@.push(dest)[k] == order@[k]);
                        }
                    }
                }
                lemma_distinct_below(order@.push(dest), count as int);
            }
            canonical.set(dest, next);
            order.push(dest);
            proof {
                assert forall|j: int| 0 <= j < order.len() implies #[trigger] order@[j] < count && canonical@[order@[j] as int] == j by {
                    if j < old_order.len() {
                        assert(order@[j] == old_order[j]);
                    }
                }
                assert forall|j: int| 0 <= j < order.len() implies reached(tau@, classes@, initial as int, #[trigger] order@[j]) by {
                    if j < old_order.len() {
                        assert(order@[j] == old_order[j]);
                        assert(reached(tau@, classes@, initial as int, old_order[j]));
                    } else {
                        assert(is_word(wh.push(a as int)));
                    }
                }
            }
        }
        let id = canonical[dest];
        proof {
            let ghost before = walk;
            walk = walk.push(id);
            lemma_canon_push(before, id);
            assert(canon(before).1.contains(id) == (id < old_order.len())) by {
                if id < old_order.len() {
                    assert(canon(before).1[id as int] == id);
                }
            }
            if id < old_order.len() {
                assert(canon(before).1.index_of(id) == id as int) by {
                    let f = canon(before).1.index_of(id);
                    assert(canon(before).1[id as int] == id);
                    assert(canon(before).1[f] == id);
                }
                assert(canon(walk).0 =~= walk);
            } else {
                assert(id == old_order.len());
                assert(canon(walk).0 =~= walk);
                assert(canon(walk).1 =~= iota(order.len() as nat));
            }
            assert forall|j: int, b: int|
                0 <= j < order.len() && 0 <= b < 4 && (j < head || (j == head && b <= a)) implies #[trigger] target_id(
                    tau@,
                    classes@,
                    rep@,
                    canonical@,
                    order@,
                    j,
                    b,
                ) != usize::MAX && walk[1 + 4 * j + b] == target_id(tau@, classes@, rep@, canonical@, order@, j, b) by {
                assert(order@[j] == old_order[j]);
                if j == head && b == a {
                    assert(target_id(tau@, classes@, rep@, canonical@, order@, j, b) == id);
                } else {
                    assert(target_id(tau@, classes@, rep@, old_canonical, old_order, j, b) != usize::MAX);
                    assert(target_id(tau@, classes@, rep@, canonical@, order@, j, b) == target_id(
                        tau@,
                        classes@,
                        rep@,
                        old_canonical,
                        old_order,
                        j,
                        b,
                    ));
                    assert(walk[1 + 4 * j + b] == before[1 + 4 * j + b]);
                }
            }
        }
        if a == 3 {
            a = 0;
            head += 1;
        } else {
            a += 1;
        }
    }
    proof {
        let wl = search_walk(tau@, classes@, rep@, canonical@, order@);
        assert forall|p: int| 0 <= p < wl.len() implies wl[p] == walk[p] by {
            if p > 0 {
                lemma_before(p - 1, head as int, 0);
                let j = (p - 1) / 4;
                let b = (p - 1) % 4;
                assert(p == 1 + 4 * j + b);
                assert(walk[1 + 4 * j + b] == target_id(tau@, classes@, rep@, canonical@, order@, j, b));
            }
        }
        assert(wl =~= walk);
    }
    (canonical, order)
}

/// The least state of each class.
pub fn class_representatives(classes: &Vec<usize>, count: usize) -> (rep: Vec<usize>)
    requires
        forall|s: int| 0 <= s < classes.len() ==> #[trigger] classes@[s] < count,
        forall|c: usize| c < count ==> #[trigger] classes@.contains(c),
    ensures
        rep.len() == count,
        forall|c: int|
            0 <= c < count ==> #[trigger] rep@[c] < classes.len() && classes@[rep@[c] as int] == c && forall|s: int|
                0 <= s < rep@[c] ==> classes@[s] != c,
{
    let mut rep: Vec<usize> = Vec::new();
    let mut c: usize = 0;
    while c < count
        invariant
            c <= count,
            rep@ == Seq::new(c as nat, |i: int| usize::MAX),
        decreases count - c,
    {
        rep.push(usize::MAX);
        c += 1;
        assert(rep@ =~= Seq::new(c as nat, |i: int| usize::MAX));
    }
    let mut s: usize = 0;
    while s < classes.len()
        invariant
            s <= classes.len(),
            rep.len() == count,
            forall|t: int| 0 <= t < classes.len() ==> #[trigger] classes@[t] < count,
            forall|c: int|
                0 <= c < count ==> (#[trigger] rep@[c] == usize::MAX && forall|t: int| 0 <= t < s ==> classes@[t] != c)
                    || (rep@[c] < s && classes@[rep@[c] as int] == c && forall|t: int|
                    0 <= t < rep@[c] ==> classes@[t] != c),
        decreases classes.len() - s,
    {
        let k = classes[s];
        if rep[k] == usize::MAX {
            rep.set(k, s);
        }
        s += 1;
    }
    assert forall|c: int| 0 <= c < count implies #[trigger] rep@[c] < classes.len() && classes@[rep@[c] as int] == c
        && forall|t: int| 0 <= t < rep@[c] ==> classes@[t] != c by {
        assert(classes@.contains(c as usize));
    }
    rep
}

/// Every word from `initial` ends in a class the search numbered.
pub proof fn lemma_search_closed(
    epsilon: Seq<[i128; 3]>,
    tau: Seq<[usize; 4]>,
    classes: Seq<usize>,
    count: nat,
    rep: Seq<usize>,
    canonical: Seq<usize>,
    order: Seq<usize>,
    initial: int,
    w: Seq<int>,
)
    requires
        graph_shape(epsilon, tau),
        classes.len() == epsilon.len(),
        stable(epsilon, tau, classes),
        0 <= initial < epsilon.len(),
        rep.len() == count,
        canonical.len() == count,
        forall|s: int| 0 <= s < epsilon.len() ==> #[trigger] classes[s] < count,
        forall|c: int| 0 <= c < count ==> #[trigger] rep[c] < epsilon.len() && classes[rep[c] as int] == c,
        forall|c: int|
            0 <= c < count ==> #[trigger] canonical[c] == usize::MAX || (canonical[c] < order.len()
                && order[canonical[c] as int] == c),
        canonical[classes[initial] as int] != usize::MAX,
        forall|j: int, b: int| 0 <= j < order.len() && 0 <= b < 4 ==> #[trigger] target_id(tau, classes, rep, canonical, order, j, b)
            != usize::MAX,
        is_word(w),
    ensures
        0 <= run(tau, initial, w) < epsilon.len(),
        canonical[classes[run(tau, initial, w)] as int] != usize::MAX,
    decreases w.len(),
{
    if w.len() == 0 {
        assert(run(tau, initial, w) == initial);
    } else {
        let w1 = w.drop_last();
        let a = w.last();
        assert(w1.push(a) =~= w);
        assert(is_word(w1)) by {
            assert forall|i: int| 0 <= i < w1.len() implies 0 <= #[trigger] w1[i] < 4 by {
                assert(w1[i] == w[i]);
            }
        }
        assert(0 <= a < 4) by {
            assert(w[w.len() - 1] == a);
        }
        lemma_search_closed(epsilon, tau, classes, count, rep, canonical, order, initial, w1);
        lemma_run_push(tau, initial, w1, a);
        let x = run(tau, initial, w1);
        let c = classes[x] as int;
        let j = canonical[c] as int;
        assert(order[j] == c);
        lemma_stable_successor(epsilon, tau, classes, x, rep[c] as int, a);
        assert(target_id(tau, classes, rep, canonical, order, j, a) != usize::MAX);
    }
}

/// What the classification and the search give `minimize`: the classes of
/// an equivalence-respecting stable partition numbered `0..count`, a least
/// representative of each, and the breadth-first numbering of the classes
/// reached from `initial`.
pub open spec fn search_facts(
    epsilon: Seq<[i128; 3]>,
    tau: Seq<[usize; 4]>,
    classes: Seq<usize>,
    count: nat,
    rep: Seq<usize>,
    canonical: Seq<usize>,
    order: Seq<usize>,
    initial: int,
) -> bool {
    &&& graph_shape(epsilon, tau)
    &&& classes.len() == epsilon.len()
    &&& stable(epsilon, tau, classes)
    &&& 0 <= initial < epsilon.len()
    &&& count <= epsilon.len()
    &&& rep.len() == count
    &&& canonical.len() == count
    &&& order.len() <= count
    &&& forall|s: int| 0 <= s < epsilon.len() ==> #[trigger] classes[s] < count
    &&& forall|c: usize| c < count ==> #[trigger] classes.contains(c)
    &&& forall|c: int| 0 <= c < count ==> #[trigger] rep[c] < epsilon.len() && classes[rep[c] as int] == c
    &&& forall|s: int, t: int|
        0 <= s < epsilon.len() && 0 <= t < epsilon.len() ==> (#[trigger] classes[s] == #[trigger] classes[t])
            == equivalent(epsilon, tau, s, t)
    &&& forall|j: int| 0 <= j < order.len() ==> #[trigger] order[j] < count && canonical[order[j] as int] == j
    &&& forall|c: int|
        0 <= c < count ==> #[trigger] canonical[c] == usize::MAX || (canonical[c] < order.len()
            && order[canonical[c] as int] == c)
    &&& canonical[classes[initial] as int] == 0
    &&& forall|j: int, b: int| 0 <= j < order.len() && 0 <= b < 4 ==> #[trigger] target_id(tau, classes, rep, canonical, order, j, b)
        != usize::MAX
    &&& forall|j: int| 0 <= j < order.len() ==> reached(tau, classes, initial, #[trigger] order[j])
}

} // verus!
