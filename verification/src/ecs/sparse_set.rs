//! Sparse-set storage for the components of one type.
//!
//! A sparse array maps a slot index to a position in two parallel dense
//! arrays, one of handles and one of values. Insertion, lookup and removal
//! take constant time; iteration walks the dense arrays.

use vstd::prelude::*;
use crate::ecs::entity::Entity;
use crate::ecs::rows::{
    distinct_indices, holds, lookup, occupies, position, swap_removed, upsert,
};

verus! {

/// A sparse set of values of type `T`, keyed by entity.
pub struct SparseSet<T> {
    /// Slot index to dense position.
    sparse: Vec<Option<usize>>,
    /// Dense array of handles, parallel to `components`.
    entities: Vec<Entity>,
    /// Dense array of values, parallel to `entities`.
    components: Vec<T>,
}

impl<T> View for SparseSet<T> {
    type V = Seq<(Entity, T)>;

    /// The rows in dense order.
    closed spec fn view(&self) -> Seq<(Entity, T)> {
        Seq::new(self.entities@.len(), |d: int| (self.entities@[d], self.components@[d]))
    }
}

impl<T> SparseSet<T> {
    /// The structural invariant: the dense arrays are parallel, every sparse
    /// entry points at the row of its own index, and every row is pointed at.
    pub closed spec fn wf(&self) -> bool {
        &&& self.entities@.len() == self.components@.len()
        &&& forall|i: int|
            0 <= i < self.sparse@.len() ==> (#[trigger] self.sparse@[i] matches Some(d) ==> d
                < self.entities@.len() && self.entities@[d as int].index == i)
        &&& forall|d: int|
            0 <= d < self.entities@.len() ==> (#[trigger] self.entities@[d]).index
                < self.sparse@.len() && (self.sparse@[self.entities@[d].index as int] matches Some(
                p,
            ) && p == d)
    }

    /// The sparse array, as contracts speak of it: for each slot index, the
    /// dense position of its row, if it has one.
    pub closed spec fn sparse_view(&self) -> Seq<Option<usize>> {
        self.sparse@
    }

    /// The structural invariant, spelled out over the sparse array and the
    /// rows: a sparse entry points at a row of its own index, and every row
    /// is pointed at by the sparse entry of its index.
    pub proof fn lemma_structure(&self)
        requires
            self.wf(),
        ensures
            forall|i: int|
                0 <= i < self.sparse_view().len() ==> (#[trigger] self.sparse_view()[i] matches Some(
                    d,
                ) ==> d < self@.len() && self@[d as int].0.index == i),
            forall|d: int|
                0 <= d < self@.len() ==> (#[trigger] self@[d]).0.index < self.sparse_view().len()
                    && self.sparse_view()[self@[d].0.index as int] == Some(d as usize),
    {
        assert forall|d: int| 0 <= d < self@.len() implies (#[trigger] self@[d]).0.index
            < self.sparse_view().len() && self.sparse_view()[self@[d].0.index as int] == Some(
            d as usize,
        ) by {
            assert(self@[d].0 == self.entities@[d]);
            assert(self.entities.len() == self.entities@.len());
        }
    }

    /// A well-formed set has no two rows of one slot index.
    pub proof fn lemma_wf(&self)
        requires
            self.wf(),
        ensures
            distinct_indices(self@),
    {
        assert forall|i: int, j: int|
            0 <= i < self@.len() && 0 <= j < self@.len() && i != j implies self@[i].0.index
            != self@[j].0.index by {
            assert(self.entities@[i].index == self@[i].0.index);
            assert(self.entities@[j].index == self@[j].0.index);
        }
    }

    /// The sparse array answers `occupies` and `position`.
    proof fn lemma_sparse(&self, index: u32)
        requires
            self.wf(),
        ensures
            occupies(self@, index) <==> (index < self.sparse@.len() && self.sparse@[index as int]
                is Some),
            occupies(self@, index) ==> self.sparse@[index as int]->0 == position(self@, index),
    {
        if index < self.sparse@.len() && self.sparse@[index as int] is Some {
            let d = self.sparse@[index as int]->0 as int;
            assert(self@[d].0.index == index);
        }
        if occupies(self@, index) {
            let d = position(self@, index);
            assert(self@[d].0 == self.entities@[d]);
        }
    }

    /// Creates an empty set.
    pub fn new() -> (r: Self)
        ensures
            r.wf(),
            r@ == Seq::<(Entity, T)>::empty(),
    {
        let r = SparseSet { sparse: Vec::new(), entities: Vec::new(), components: Vec::new() };
        assert(r@ =~= Seq::<(Entity, T)>::empty());
        r
    }

    /// Stores `component` under `entity`. A row of the same slot index is
    /// overwritten in place, whatever generation it was stored under, and its
    /// handle becomes `entity`; otherwise a row is appended.
    pub fn insert(&mut self, entity: Entity, component: T)
        requires
            old(self).wf(),
            entity.index < usize::MAX,
        ensures
            final(self).wf(),
            final(self)@ == upsert(old(self)@, entity, component),
    {
        let index = entity.index() as usize;
        proof {
            self.lemma_sparse(entity.index);
        }
        while self.sparse.len() <= index
            invariant
                self.wf(),
                self@ == old(self)@,
                self.entities == old(self).entities,
                self.components == old(self).components,
                forall|i: int|
                    0 <= i < old(self).sparse@.len() ==> self.sparse@[i] == old(self).sparse@[i],
                old(self).sparse@.len() <= self.sparse@.len(),
                index == entity.index,
                index < usize::MAX,
            decreases index + 1 - self.sparse@.len(),
        {
            self.sparse.push(None);
        }
        proof {
            self.lemma_sparse(entity.index);
        }
        match self.sparse[index] {
            Some(dense_index) => {
                self.components[dense_index] = component;
                self.entities[dense_index] = entity;
                assert(self@ =~= upsert(old(self)@, entity, component));
            },
            None => {
                let dense_index = self.components.len();
                self.sparse[index] = Some(dense_index);
                self.entities.push(entity);
                self.components.push(component);
                assert(self@ =~= upsert(old(self)@, entity, component));
            },
        }
    }

    /// The value stored under exactly this handle. A row of the same index
    /// but another generation does not count.
    pub fn get(&self, entity: Entity) -> (r: Option<&T>)
        requires
            self.wf(),
        ensures
            match r {
                Some(v) => lookup(self@, entity) == Some(*v),
                None => lookup(self@, entity) is None,
            },
    {
        let index = entity.index() as usize;
        proof {
            self.lemma_sparse(entity.index);
        }
        if index < self.sparse.len() {
            match self.sparse[index] {
                Some(dense_index) => {
                    assert(self@[dense_index as int] == (
                        self.entities@[dense_index as int],
                        self.components@[dense_index as int],
                    ));
                    if self.entities[dense_index] == entity {
                        Some(&self.components[dense_index])
                    } else {
                        None
                    }
                },
                None => None,
            }
        } else {
            None
        }
    }

    /// Mutable access to the value stored under exactly this handle. The row
    /// keeps its place and its handle; only the value can change.
    pub fn get_mut(&mut self, entity: Entity) -> (r: Option<&mut T>)
        requires
            old(self).wf(),
        ensures
            final(self).wf(),
            match r {
                Some(v) => lookup(old(self)@, entity) == Some(*v) && final(self)@ == upsert(
                    old(self)@,
                    entity,
                    *final(v),
                ),
                None => lookup(old(self)@, entity) is None && final(self)@ == old(self)@,
            },
    {
        let index = entity.index() as usize;
        proof {
            self.lemma_sparse(entity.index);
        }
        if index < self.sparse.len() {
            match self.sparse[index] {
                Some(dense_index) => {
                    assert(self@[dense_index as int] == (
                        self.entities@[dense_index as int],
                        self.components@[dense_index as int],
                    ));
                    if self.entities[dense_index] == entity {
                        let v = &mut self.components[dense_index];
                        proof {
                            let after = old(self).components@.update(dense_index as int, *final(v));
                            assert(Seq::new(
                                old(self).entities@.len(),
                                |d: int| (old(self).entities@[d], after[d]),
                            ) =~= upsert(old(self)@, entity, *final(v)));
                        }
                        Some(v)
                    } else {
                        None
                    }
                },
                None => None,
            }
        } else {
            None
        }
    }

    /// Removes the row stored under exactly this handle and says whether
    /// there was one. The last row takes the place of the removed one. A
    /// handle of another generation removes nothing.
    pub fn remove(&mut self, entity: Entity) -> (r: bool)
        requires
            old(self).wf(),
        ensures
            final(self).wf(),
            r == holds(old(self)@, entity),
            final(self)@ == swap_removed(old(self)@, entity),
    {
        let index = entity.index() as usize;
        proof {
            self.lemma_sparse(entity.index);
        }
        if index >= self.sparse.len() {
            return false;
        }
        match self.sparse[index] {
            Some(dense_index) => {
                assert(self@[dense_index as int] == (
                    self.entities@[dense_index as int],
                    self.components@[dense_index as int],
                ));
                if self.entities[dense_index] != entity {
                    return false;
                }
                let last_index = self.components.len() - 1;
                if dense_index != last_index {
                    let moved = self.entities[last_index];
                    self.sparse[moved.index() as usize] = Some(dense_index);
                }
                self.entities.swap_remove(dense_index);
                self.components.swap_remove(dense_index);
                self.sparse[index] = None;
                assert(self@ =~= swap_removed(old(self)@, entity));
                true
            },
            None => false,
        }
    }

    /// The rows in dense order: insertion order, but for the moves that
    /// removals make.
    pub fn iter(&self) -> (r: Vec<(Entity, &T)>)
        requires
            self.wf(),
        ensures
            r@.len() == self@.len(),
            forall|d: int|
                0 <= d < r@.len() ==> (#[trigger] r@[d]).0 == self@[d].0 && *r@[d].1 == self@[d].1,
    {
        let mut out: Vec<(Entity, &T)> = Vec::new();
        let mut d: usize = 0;
        while d < self.entities.len()
            invariant
                self.wf(),
                d <= self.entities@.len(),
                out@.len() == d,
                forall|k: int|
                    0 <= k < d ==> (#[trigger] out@[k]).0 == self@[k].0 && *out@[k].1 == self@[k].1,
            decreases self.entities@.len() - d,
        {
            out.push((self.entities[d], &self.components[d]));
            d += 1;
        }
        out
    }

    /// The rows in dense order, each value mutably. Rows keep their places
    /// and handles; only values can change.
    pub fn iter_mut(&mut self) -> (r: Vec<(Entity, &mut T)>)
        requires
            old(self).wf(),
        ensures
            final(self).wf(),
            r@.len() == old(self)@.len(),
            final(self)@.len() == old(self)@.len(),
            forall|d: int|
                0 <= d < r@.len() ==> (#[trigger] r@[d]).0 == old(self)@[d].0 && *r@[d].1 == old(
                    self,
                )@[d].1 && final(self)@[d] == (r@[d].0, *final(r@[d].1)),
    {
        let mut out: Vec<(Entity, &mut T)> = Vec::new();
        let n = self.entities.len();
        let mut rest: &mut [T] = self.components.as_mut_slice();
        let ghost whole: Seq<T> = final(rest)@;
        let mut d: usize = 0;
        while d < n
            invariant
                n == old(self).entities@.len(),
                n == old(self).components@.len(),
                self.entities == old(self).entities,
                d <= n,
                rest@ == old(self).components@.subrange(d as int, n as int),
                out@.len() == d,
                forall|k: int|
                    0 <= k < d ==> (#[trigger] out@[k]).0 == old(self).entities@[k] && *out@[k].1
                        == old(self).components@[k],
                whole == Seq::new(d as nat, |k: int| *final(out@[k].1)) + final(rest)@,
            decreases n - d,
        {
            let (head, tail) = rest.split_at_mut(1);
            match head.first_mut() {
                Some(item) => {
                    out.push((self.entities[d], item));
                },
                None => {},
            }
            rest = tail;
            d += 1;
        }
        out
    }
}

} // verus!
