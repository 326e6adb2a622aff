//! The mathematical model of one component column: its rows in dense order.
//!
//! A column is a sequence of `(entity, value)` pairs in which no slot index
//! occurs twice. Every storage operation is stated as a function on such a
//! sequence.

use vstd::prelude::*;
use crate::ecs::entity::Entity;

verus! {

/// No two rows address the same slot index.
pub open spec fn distinct_indices<T>(rows: Seq<(Entity, T)>) -> bool {
    forall|i: int, j: int|
        0 <= i < rows.len() && 0 <= j < rows.len() && i != j ==> rows[i].0.index
            != rows[j].0.index
}

/// Some row addresses slot `index`.
pub open spec fn occupies<T>(rows: Seq<(Entity, T)>, index: u32) -> bool {
    exists|d: int| 0 <= d < rows.len() && (#[trigger] rows[d]).0.index == index
}

/// The dense position of the row that addresses slot `index`.
pub open spec fn position<T>(rows: Seq<(Entity, T)>, index: u32) -> int
    recommends
        occupies(rows, index),
{
    choose|d: int| 0 <= d < rows.len() && (#[trigger] rows[d]).0.index == index
}

/// The row stored under exactly this handle: same index, same generation.
pub open spec fn holds<T>(rows: Seq<(Entity, T)>, entity: Entity) -> bool {
    occupies(rows, entity.index) && rows[position(rows, entity.index)].0 == entity
}

/// The value stored under `entity`, if any.
pub open spec fn lookup<T>(rows: Seq<(Entity, T)>, entity: Entity) -> Option<T> {
    if holds(rows, entity) {
        Some(rows[position(rows, entity.index)].1)
    } else {
        None
    }
}

/// The column after storing `value` under `entity`: the row of the same slot
/// index is overwritten in place, handle included; otherwise a row is
/// appended.
pub open spec fn upsert<T>(rows: Seq<(Entity, T)>, entity: Entity, value: T) -> Seq<(Entity, T)> {
    if occupies(rows, entity.index) {
        rows.update(position(rows, entity.index), (entity, value))
    } else {
        rows.push((entity, value))
    }
}

/// The column after removing the row of `entity`: the last row takes its
/// place. A column that does not hold `entity` is unchanged.
pub open spec fn swap_removed<T>(rows: Seq<(Entity, T)>, entity: Entity) -> Seq<(Entity, T)> {
    if holds(rows, entity) {
        rows.update(position(rows, entity.index), rows.last()).drop_last()
    } else {
        rows
    }
}

/// In a column without repeated indices, a row's position is determined by
/// its index.
pub proof fn lemma_position<T>(rows: Seq<(Entity, T)>, d: int)
    requires
        distinct_indices(rows),
        0 <= d < rows.len(),
    ensures
        occupies(rows, rows[d].0.index),
        position(rows, rows[d].0.index) == d,
{
}

/// Storing keeps indices distinct, and the stored value is found again.
pub proof fn lemma_upsert<T>(rows: Seq<(Entity, T)>, entity: Entity, value: T)
    requires
        distinct_indices(rows),
    ensures
        distinct_indices(upsert(rows, entity, value)),
        lookup(upsert(rows, entity, value), entity) == Some(value),
        forall|other: Entity|
            other.index != entity.index ==> lookup(upsert(rows, entity, value), other) == lookup(
                rows,
                other,
            ),
{
    let after = upsert(rows, entity, value);
    if occupies(rows, entity.index) {
        let d = position(rows, entity.index);
        assert(after[d].0.index == entity.index);
        lemma_position(after, d);
    } else {
        let d = rows.len() as int;
        assert(after[d].0.index == entity.index);
        lemma_position(after, d);
    }
    assert forall|other: Entity| other.index != entity.index implies lookup(after, other)
        == lookup(rows, other) by {
        lemma_upsert_other(rows, entity, value, other);
    }
}

/// Storing under one index leaves the rows of every other index as they were.
pub proof fn lemma_upsert_other<T>(rows: Seq<(Entity, T)>, entity: Entity, value: T, other: Entity)
    requires
        distinct_indices(rows),
        other.index != entity.index,
    ensures
        lookup(upsert(rows, entity, value), other) == lookup(rows, other),
{
    let after = upsert(rows, entity, value);
    if occupies(rows, other.index) {
        let d = position(rows, other.index);
        assert(after[d] == rows[d]);
        assert(after[d].0.index == other.index);
        assert(distinct_indices(after)) by {
            if occupies(rows, entity.index) {
                let p = position(rows, entity.index);
                assert(after[p].0.index == entity.index);
            }
        }
        lemma_position(after, d);
    } else {
        if occupies(after, other.index) {
            let d = position(after, other.index);
            if d < rows.len() {
                assert(rows[d].0.index == other.index || after[d].0.index == entity.index);
            }
        }
    }
}

/// Removing keeps indices distinct, the removed handle is gone, and every
/// other handle keeps its value.
pub proof fn lemma_swap_removed<T>(rows: Seq<(Entity, T)>, entity: Entity)
    requires
        distinct_indices(rows),
    ensures
        distinct_indices(swap_removed(rows, entity)),
        holds(rows, entity) ==> !occupies(swap_removed(rows, entity), entity.index),
        !holds(swap_removed(rows, entity), entity),
        forall|other: Entity|
            other != entity ==> lookup(swap_removed(rows, entity), other) == lookup(rows, other),
{
    let after = swap_removed(rows, entity);
    if holds(rows, entity) {
        let d = position(rows, entity.index);
        let last = rows.len() - 1;
        assert forall|i: int| 0 <= i < after.len() implies (#[trigger] after[i]).0.index
            != entity.index by {
            if i == d {
                assert(after[i] == rows[last]);
            } else {
                assert(after[i] == rows[i]);
            }
        }
        assert forall|other: Entity| other != entity implies lookup(after, other) == lookup(
            rows,
            other,
        ) by {
            if occupies(rows, other.index) {
                let p = position(rows, other.index);
                if other.index == entity.index {
                    assert(p == d);
                    assert(!holds(rows, other));
                    assert(!occupies(after, other.index));
                } else {
                    let q = if p == last { d } else { p };
                    assert(after[q] == rows[p]);
                    lemma_position(after, q);
                }
            } else {
                if occupies(after, other.index) {
                    let q = position(after, other.index);
                    assert(after[q] == rows[q] || after[q] == rows[last]);
                }
            }
        }
    } else {
        assert(!holds(after, entity));
    }
}

/// The column with every value replaced by its image under `f`. Handles and
/// order stay.
pub open spec fn map_rows<T, U>(rows: Seq<(Entity, T)>, f: spec_fn(T) -> U) -> Seq<(Entity, U)> {
    Seq::new(rows.len(), |d: int| (rows[d].0, f(rows[d].1)))
}

/// Where a row stands depends on the handles alone: mapping the values
/// commutes with every operation on a column.
pub proof fn lemma_map_rows<T, U>(rows: Seq<(Entity, T)>, f: spec_fn(T) -> U, entity: Entity)
    requires
        distinct_indices(rows),
    ensures
        distinct_indices(map_rows(rows, f)),
        occupies(map_rows(rows, f), entity.index) == occupies(rows, entity.index),
        occupies(rows, entity.index) ==> position(map_rows(rows, f), entity.index) == position(
            rows,
            entity.index,
        ),
        holds(map_rows(rows, f), entity) == holds(rows, entity),
        lookup(map_rows(rows, f), entity) == match lookup(rows, entity) {
            Some(v) => Some(f(v)),
            None => None,
        },
        swap_removed(map_rows(rows, f), entity) == map_rows(swap_removed(rows, entity), f),
        forall|v: T| #[trigger]
            upsert(map_rows(rows, f), entity, f(v)) == map_rows(upsert(rows, entity, v), f),
{
    let mapped = map_rows(rows, f);
    assert forall|i: int, j: int|
        0 <= i < mapped.len() && 0 <= j < mapped.len() && i != j implies mapped[i].0.index
        != mapped[j].0.index by {
        assert(mapped[i].0 == rows[i].0 && mapped[j].0 == rows[j].0);
    }
    if occupies(rows, entity.index) {
        let d = position(rows, entity.index);
        assert(mapped[d].0.index == entity.index);
        lemma_position(mapped, d);
    }
    if occupies(mapped, entity.index) {
        let d = position(mapped, entity.index);
        assert(rows[d].0.index == entity.index);
    }
    assert(swap_removed(mapped, entity) =~= map_rows(swap_removed(rows, entity), f));
    assert forall|v: T| #[trigger]
        upsert(mapped, entity, f(v)) == map_rows(upsert(rows, entity, v), f) by {
        assert(upsert(mapped, entity, f(v)) =~= map_rows(upsert(rows, entity, v), f));
    }
}

/// Every row of a column is found under its own handle.
pub proof fn lemma_holds<T>(rows: Seq<(Entity, T)>, d: int)
    requires
        distinct_indices(rows),
        0 <= d < rows.len(),
    ensures
        holds(rows, rows[d].0),
        lookup(rows, rows[d].0) == Some(rows[d].1),
{
    lemma_position(rows, d);
}

} // verus!
