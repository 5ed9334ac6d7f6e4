//! A bidirectional map: each left key has one right value and each right value
//! one left key.
use std::collections::HashMap;
use std::hash::Hash;
use vstd::prelude::*;
use vstd::std_specs::hash::obeys_key_model;
use vstd::relations::injective_on;
use vstd::set_lib::lemma_map_size;

verus! {

broadcast use vstd::std_specs::hash::group_hash_axioms;

/// A one-to-one association between left keys and right keys.
pub struct BiMap<L, R> {
    left: HashMap<L, R>,
    right: HashMap<R, L>,
}

impl<L, R> View for BiMap<L, R> {
    type V = Map<L, R>;

    /// The associations, read from the left.
    closed spec fn view(&self) -> Map<L, R> {
        self.left@
    }
}

impl<L, R> BiMap<L, R> {
    /// The associations, read from the right.
    pub closed spec fn by_right(&self) -> Map<R, L> {
        self.right@
    }
}

impl<L: Eq + Hash + Copy, R: Eq + Hash + Copy> BiMap<L, R> {
    /// Both directions are hash tables whose keys follow the hashing model,
    /// and each direction is the inverse of the other.
    pub closed spec fn wf(&self) -> bool {
        &&& obeys_key_model::<L>()
        &&& obeys_key_model::<R>()
        &&& forall|l: L| #[trigger]
            self.left@.contains_key(l) ==> self.right@.contains_key(self.left@[l])
                && self.right@[self.left@[l]] == l
        &&& forall|r: R| #[trigger]
            self.right@.contains_key(r) ==> self.left@.contains_key(self.right@[r])
                && self.left@[self.right@[r]] == r
    }

    /// Both readings hold the same pairs: the right map inverts the left
    /// one, and the two have equally many entries.
    pub proof fn lemma_inverse(&self)
        requires
            self.wf(),
        ensures
            forall|l: L| #[trigger]
                self@.contains_key(l) ==> self.by_right().contains_key(self@[l]) && self.by_right()[self@[l]]
                    == l,
            forall|r: R| #[trigger]
                self.by_right().contains_key(r) ==> self@.contains_key(self.by_right()[r])
                    && self@[self.by_right()[r]] == r,
            self.by_right().len() == self@.len(),
    {
        let f = |l: L| self.left@[l];
        assert(self.left@.dom().finite());
        assert(injective_on(f, self.left@.dom())) by {
            assert forall|a: L, b: L|
                self.left@.dom().contains(a) && self.left@.dom().contains(b) && #[trigger] f(a) == #[trigger] f(
                    b,
                ) implies a == b by {
                assert(self.right@[self.left@[a]] == a);
                assert(self.right@[self.left@[b]] == b);
            }
        }
        assert(self.left@.dom().map(f) =~= self.right@.dom()) by {
            assert forall|r: R| self.right@.dom().contains(r) implies #[trigger] self.left@.dom().map(f).contains(
                r,
            ) by {
                let l = self.right@[r];
                assert(self.left@.dom().contains(l) && f(l) == r);
            }
        }
        lemma_map_size(self.left@.dom(), self.right@.dom(), f);
    }

    /// An empty map; with keys that follow the hashing model it is well
    /// formed.
    pub fn new() -> (m: Self)
        ensures
            obeys_key_model::<L>() && obeys_key_model::<R>() ==> m.wf(),
            m@ == Map::<L, R>::empty(),
            m.by_right() == Map::<R, L>::empty(),
    {
        Self { left: HashMap::new(), right: HashMap::new() }
    }

    /// Associates `l` with `r`, dropping any earlier association of either.
    pub fn insert(&mut self, l: L, r: R)
        requires
            old(self).wf(),
        ensures
            final(self).wf(),
            final(self)@.contains_key(l),
            final(self)@[l] == r,
            forall|k: L|
                k != l ==> (#[trigger] final(self)@.contains_key(k) <==> old(self)@.contains_key(k)
                    && old(self)@[k] != r),
            forall|k: L| k != l && #[trigger] final(self)@.contains_key(k) ==> final(self)@[k] == old(self)@[k],
            final(self).by_right().contains_key(r),
            final(self).by_right()[r] == l,
    {
        let ghost old_left = self.left@;
        let ghost old_right = self.right@;
        if let Some(old_r) = self.left.insert(l, r) {
            self.right.remove(&old_r);
        }
        let ghost mid_left = self.left@;
        if let Some(old_l) = self.right.insert(r, l) {
            self.left.remove(&old_l);
        }
        assert forall|k: L| #[trigger] self.left@.contains_key(k) implies self.right@.contains_key(
            self.left@[k],
        ) && self.right@[self.left@[k]] == k by {
            if k != l {
                assert(old_left.contains_key(k));
                assert(old_right.contains_key(old_left[k]));
            }
        }
        assert forall|q: R| #[trigger] self.right@.contains_key(q) implies self.left@.contains_key(
            self.right@[q],
        ) && self.left@[self.right@[q]] == q by {
            if q != r {
                assert(old_right.contains_key(q));
                assert(old_left.contains_key(old_right[q]));
            }
        }
        assert forall|k: L| k != l implies (#[trigger] self.left@.contains_key(k)
            <==> old_left.contains_key(k) && old_left[k] != r) by {
            if old_left.contains_key(k) && old_left[k] == r {
                assert(old_right.contains_key(r) && old_right[r] == k);
            }
        }
    }

    /// The right key associated with `l`.
    pub fn get_by_left(&self, l: &L) -> (res: Option<&R>)
        requires
            self.wf(),
        ensures
            match res {
                Some(r) => self@.contains_key(*l) && self@[*l] == *r,
                None => !self@.contains_key(*l),
            },
    {
        self.left.get(l)
    }

    /// The left key associated with `r`.
    pub fn get_by_right(&self, r: &R) -> (res: Option<&L>)
        requires
            self.wf(),
        ensures
            match res {
                Some(l) => self@.contains_key(*l) && self@[*l] == *r,
                None => forall|k: L| #[trigger] self@.contains_key(k) ==> self@[k] != *r,
            },
    {
        let res = self.right.get(r);
        proof {
            if res.is_none() {
                assert forall|k: L| #[trigger] self@.contains_key(k) implies self@[k] != *r by {
                    assert(self.right@.contains_key(self.left@[k]));
                }
            }
        }
        res
    }

    /// The number of associations.
    pub fn len(&self) -> (n: usize)
        requires
            self.wf(),
        ensures
            n == self@.len(),
    {
        self.left.len()
    }
}

} // verus!
