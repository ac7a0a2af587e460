use bevy::platform::collections::HashSet;
use bevy::platform::hash::FixedHasher;
use vstd::prelude::*;

use crate::rules::{in_window, precedes, toggled, window, Cell};

verus! {

#[verifier::external_type_specification]
#[verifier::external_body]
#[verifier::reject_recursive_types(T)]
#[verifier::reject_recursive_types(S)]
pub struct ExHashSet<T, S>(HashSet<T, S>);

#[verifier::external_type_specification]
#[verifier::external_body]
pub struct ExFixedHasher(FixedHasher);

/// The cells that a hash set of cells holds.
pub uninterp spec fn members(s: HashSet<Cell>) -> Set<Cell>;

/// Relies on `bevy::platform::collections::HashSet::new`: the new set is empty.
#[verifier::external_body]
pub(crate) fn set_new() -> (r: HashSet<Cell>)
    ensures
        members(r) == Set::<Cell>::empty(),
{
    HashSet::new()
}

/// Relies on `HashSet::contains`: whether the value is a member.
#[verifier::external_body]
fn set_contains(s: &HashSet<Cell>, c: &Cell) -> (r: bool)
    ensures
        r == members(*s).contains(*c),
{
    s.contains(c)
}

/// Relies on `HashSet::insert`: the value is a member afterwards, nothing else changes.
#[verifier::external_body]
pub(crate) fn set_insert(s: &mut HashSet<Cell>, c: Cell)
    ensures
        members(*final(s)) == members(*old(s)).insert(c),
{
    s.insert(c);
}

/// Relies on `HashSet::remove`: the value is no member afterwards, nothing else changes.
#[verifier::external_body]
fn set_remove(s: &mut HashSet<Cell>, c: &Cell)
    ensures
        members(*final(s)) == members(*old(s)).remove(*c),
{
    s.remove(c);
}

/// Relies on `HashSet::len`: the number of members.
#[verifier::external_body]
fn set_len(s: &HashSet<Cell>) -> (r: usize)
    ensures
        r == members(*s).len(),
{
    s.len()
}

/// Relies on `HashSet::iter`: it visits every member once, in an order of its own.
#[verifier::external_body]
pub(crate) fn set_items(s: &HashSet<Cell>) -> (r: Vec<Cell>)
    ensures
        r@.to_set() == members(*s),
        r@.no_duplicates(),
{
    s.iter().copied().collect()
}

/// The set of live cells of the grid.
pub struct Cells {
    set: HashSet<Cell>,
}

impl View for Cells {
    type V = Set<Cell>;

    closed spec fn view(&self) -> Set<Cell> {
        members(self.set)
    }
}

impl Cells {
    /// An empty grid.
    pub fn empty() -> (r: Cells)
        ensures
            r@ == Set::<Cell>::empty(),
    {
        Cells { set: set_new() }
    }

    /// The grid whose live cells are the members of `set`.
    pub(crate) fn from_set(set: HashSet<Cell>) -> (r: Cells)
        ensures
            r@ == members(set),
    {
        Cells { set }
    }

    /// A grid whose live cells are those of `seed`.
    pub fn new(seed: &Vec<Cell>) -> (r: Cells)
        ensures
            r@ == seed@.to_set(),
    {
        let mut set = set_new();
        for i in 0..seed.len()
            invariant
                members(set) == seed@.subrange(0, i as int).to_set(),
        {
            set_insert(&mut set, seed[i]);
            proof {
                assert(seed@.subrange(0, i + 1) == seed@.subrange(0, i as int).push(seed[i as int]));
                seed@.subrange(0, i as int).lemma_push_to_set_commute(seed[i as int]);
            }
        }
        assert(seed@.subrange(0, seed.len() as int) == seed@);
        Cells { set }
    }

    /// Whether `cell` is live.
    pub fn contains(&self, cell: Cell) -> (r: bool)
        ensures
            r == self@.contains(cell),
    {
        set_contains(&self.set, &cell)
    }

    /// Makes `cell` live; it does nothing if it already is.
    pub fn insert(&mut self, cell: Cell)
        ensures
            final(self)@ == old(self)@.insert(cell),
    {
        set_insert(&mut self.set, cell);
    }

    /// Makes `cell` dead; it does nothing if it already is.
    pub fn remove(&mut self, cell: Cell)
        ensures
            final(self)@ == old(self)@.remove(cell),
    {
        set_remove(&mut self.set, &cell);
    }

    /// Flips `cell`: a live cell dies, a dead one comes alive.
    pub fn toggle(&mut self, cell: &Cell)
        ensures
            final(self)@ == toggled(old(self)@, *cell),
    {
        let c = *cell;
        if set_contains(&self.set, &c) {
            set_remove(&mut self.set, &c);
        } else {
            set_insert(&mut self.set, c);
        }
    }

    /// The number of live cells.
    pub fn len(&self) -> (r: usize)
        ensures
            r == self@.len(),
    {
        set_len(&self.set)
    }

    /// The live cells in the rectangle from `min` to `max`, both corners
    /// included, in row-major order (by `y`, then by `x`). The result is empty
    /// where `min` exceeds `max` on either axis.
    pub fn subset(&self, min: Cell, max: Cell) -> (r: Vec<Cell>)
        ensures
            r@.to_set() == window(self@, min, max),
            r@.no_duplicates(),
            forall|i: int, j: int| 0 <= i < j < r@.len() ==> precedes(r@[i], r@[j]),
            (min.0 > max.0 || min.1 > max.1) ==> r@.len() == 0,
    {
        let mut out: Vec<Cell> = Vec::new();
        if min.0 > max.0 || min.1 > max.1 {
            proof {
                assert(out@.to_set() =~= window(self@, min, max));
            }
            return out;
        }
        let mut y: i128 = min.1 as i128;
        while y <= max.1 as i128
            invariant
                min.0 <= max.0,
                min.1 <= y <= max.1 + 1,
                forall|k: int|
                    0 <= k < out@.len() ==> self@.contains(#[trigger] out@[k]) && in_window(
                        out@[k],
                        min,
                        max,
                    ) && out@[k].1 < y,
                forall|c: Cell|
                    self@.contains(c) && in_window(c, min, max) && c.1 < y ==> #[trigger] out@.contains(c),
                forall|i: int, j: int| 0 <= i < j < out@.len() ==> precedes(out@[i], out@[j]),
            decreases max.1 + 1 - y,
        {
            let mut x: i128 = min.0 as i128;
            while x <= max.0 as i128
                invariant
                    min.0 <= x <= max.0 + 1,
                    min.1 <= y <= max.1,
                    forall|k: int|
                        0 <= k < out@.len() ==> self@.contains(#[trigger] out@[k]) && in_window(
                            out@[k],
                            min,
                            max,
                        ) && (out@[k].1 < y || (out@[k].1 == y && out@[k].0 < x)),
                    forall|c: Cell|
                        self@.contains(c) && in_window(c, min, max) && (c.1 < y || (c.1 == y && c.0
                            < x)) ==> #[trigger] out@.contains(c),
                    forall|i: int, j: int| 0 <= i < j < out@.len() ==> precedes(out@[i], out@[j]),
                decreases max.0 + 1 - x,
            {
                let c: Cell = (x as i64, y as i64);
                let ghost prev = out@;
                if self.contains(c) {
                    out.push(c);
                }
                proof {
                    assert forall|d: Cell|
                        self@.contains(d) && in_window(d, min, max) && (d.1 < y || (d.1 == y && d.0
                            < x + 1)) implies #[trigger] out@.contains(d) by {
                        if d == c {
                            assert(out@[out@.len() - 1] == c);
                        } else {
                            assert(prev.contains(d));
                            let k = choose|k: int| 0 <= k < prev.len() && prev[k] == d;
                            assert(out@[k] == d);
                        }
                    }
                }
                x = x + 1;
            }
            y = y + 1;
        }
        proof {
            assert(out@.to_set() =~= window(self@, min, max));
            assert forall|i: int, j: int| 0 <= i < out@.len() && 0 <= j < out@.len() && i != j
                implies out@[i] != out@[j] by {
                if i < j {
                    assert(precedes(out@[i], out@[j]));
                } else {
                    assert(precedes(out@[j], out@[i]));
                }
            }
        }
        out
    }

    /// Every live cell once, in no particular order.
    pub fn cells(&self) -> (r: Vec<Cell>)
        ensures
            r@.to_set() == self@,
            r@.no_duplicates(),
    {
        set_items(&self.set)
    }
}

} // verus!
