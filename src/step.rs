use bevy::platform::collections::HashSet;
use bevy::tasks::{ComputeTaskPool, ParallelSlice, TaskPool};
use vstd::prelude::*;

use crate::cells::{members, set_insert, set_items, set_new, Cells};
use crate::rules::{
    candidates, chunk_next, covers, lemma_merged_is_next_gen, live_at, merged, near,
    neighbor_count, next_gen, Cell,
};

verus! {

#[verifier::external_type_specification]
#[verifier::external_body]
pub struct ExTaskPool(TaskPool);

/// How many chunks of `chunk_len` cells a list of `n` cells is cut into.
pub open spec fn chunk_count(n: nat, chunk_len: nat) -> nat {
    ((n + chunk_len - 1) as nat / chunk_len) as nat
}

/// The `k`-th chunk of `chunk_len` cells of `live`; the last one may be shorter.
pub open spec fn chunk_of(live: Seq<Cell>, chunk_len: nat, k: int) -> Seq<Cell> {
    let lo = if k * chunk_len <= live.len() { k * chunk_len } else { live.len() as int };
    let hi = if (k + 1) * chunk_len <= live.len() { (k + 1) * chunk_len } else { live.len() as int };
    live.subrange(lo, hi)
}

/// The chunks that `live` is cut into.
pub open spec fn chunks(live: Seq<Cell>, chunk_len: nat) -> Seq<Seq<Cell>> {
    Seq::new(chunk_count(live.len(), chunk_len), |k: int| chunk_of(live, chunk_len, k))
}

/// Relies on `ComputeTaskPool::get_or_init` of bevy_tasks: the process-wide
/// pool of compute workers, made with `TaskPool::default` on first use.
#[verifier::external_body]
fn compute_pool() -> (r: &'static TaskPool) {
    ComputeTaskPool::get_or_init(TaskPool::default)
}

/// Relies on `TaskPool::thread_num`: how many worker threads the pool runs.
#[verifier::external_body]
fn thread_num(pool: &TaskPool) -> (r: usize) {
    pool.thread_num()
}

/// Relies on `ParallelSlice::par_chunk_map` of bevy_tasks: `live` is cut by
/// `slice::chunks` into pieces of `chunk_len` cells (the last may be shorter),
/// the closure runs once per piece on the pool, and the results come back in
/// the order of the pieces. The closure is `Cells::chunk_step`.
#[verifier::external_body]
fn par_chunk_step(pool: &TaskPool, cells: &Cells, live: &Vec<Cell>, chunk_len: usize) -> (r: Vec<
    Vec<Cell>,
>)
    requires
        chunk_len > 0,
    ensures
        r@.len() == chunk_count(live@.len(), chunk_len as nat),
        forall|k: int|
            0 <= k < r@.len() ==> (#[trigger] r@[k])@.to_set() == chunk_next(
                cells@,
                chunk_of(live@, chunk_len as nat, k),
            ),
{
    live.par_chunk_map(pool, chunk_len, |_, chunk| cells.chunk_step(chunk))
}

/// Adds `c` and those of its eight neighbours that lie inside the 64-bit range to `set`.
fn add_block(set: &mut HashSet<Cell>, c: Cell)
    ensures
        members(*final(set)) == members(*old(set)).union(Set::new(|d: Cell| near(c, d))),
{
    let ghost start = members(*set);
    let mut dx: i64 = -1;
    while dx <= 1
        invariant
            -1 <= dx <= 2,
            members(*set) == start.union(Set::new(|d: Cell| near(c, d) && d.0 - c.0 < dx)),
        decreases 2 - dx,
    {
        let mut dy: i64 = -1;
        while dy <= 1
            invariant
                -1 <= dx <= 1,
                -1 <= dy <= 2,
                members(*set) == start.union(
                    Set::new(
                        |d: Cell| near(c, d) && (d.0 - c.0 < dx || (d.0 - c.0 == dx && d.1 - c.1 < dy)),
                    ),
                ),
            decreases 2 - dy,
        {
            let ghost before = members(*set);
            match (c.0.checked_add(dx), c.1.checked_add(dy)) {
                (Some(x), Some(y)) => set_insert(set, (x, y)),
                _ => {},
            }
            proof {
                assert(members(*set) =~= start.union(
                    Set::new(
                        |d: Cell|
                            near(c, d) && (d.0 - c.0 < dx || (d.0 - c.0 == dx && d.1 - c.1 < dy + 1)),
                    ),
                ));
            }
            dy = dy + 1;
        }
        proof {
            assert(members(*set) =~= start.union(
                Set::new(|d: Cell| near(c, d) && d.0 - c.0 < dx + 1),
            ));
        }
        dx = dx + 1;
    }
    proof {
        assert(members(*set) =~= start.union(Set::new(|d: Cell| near(c, d))));
    }
}

/// Cutting `live` into chunks of `chunk_len` cells loses no cell and adds none.
proof fn lemma_chunks_cover(live: Seq<Cell>, s: Set<Cell>, chunk_len: nat)
    requires
        live.to_set() == s,
        chunk_len > 0,
    ensures
        covers(chunks(live, chunk_len), s),
{
    let parts = chunks(live, chunk_len);
    let n = live.len() as int;
    let len = chunk_len as int;
    assert forall|c: Cell|
        s.contains(c) <==> exists|k: int| 0 <= k < parts.len() && (#[trigger] parts[k]).contains(c) by {
        if s.contains(c) {
            assert(live.to_set().contains(c));
            let m = choose|m: int| 0 <= m < n && live[m] == c;
            let k = m / len;
            assert(k * len <= m < (k + 1) * len) by (nonlinear_arith)
                requires
                    k == m / len,
                    len > 0,
                    m >= 0,
            ;
            assert(0 <= k < (n + len - 1) / len) by (nonlinear_arith)
                requires
                    k * len <= m,
                    0 <= m < n,
                    len > 0,
                    k == m / len,
            ;
            assert(parts[k] == chunk_of(live, chunk_len, k));
            assert(parts[k][m - k * len] == c);
        }
        if exists|k: int| 0 <= k < parts.len() && (#[trigger] parts[k]).contains(c) {
            let k = choose|k: int| 0 <= k < parts.len() && (#[trigger] parts[k]).contains(c);
            let part = chunk_of(live, chunk_len, k);
            let i = choose|i: int| 0 <= i < part.len() && part[i] == c;
            assert(k * len <= (k + 1) * len) by (nonlinear_arith)
                requires
                    k >= 0,
                    len > 0,
            ;
            let lo = if k * chunk_len <= n { k * chunk_len } else { n };
            assert(part[i] == live[lo + i]);
            assert(live.to_set().contains(c));
        }
    }
}

impl Cells {
    /// One if `(x + dx, y + dy)` is live, zero if it is dead or beyond the 64-bit range.
    fn probe(&self, x: i64, y: i64, dx: i64, dy: i64) -> (r: u8)
        requires
            -1 <= dx <= 1,
            -1 <= dy <= 1,
        ensures
            r == live_at(self@, x + dx, y + dy),
    {
        match (x.checked_add(dx), y.checked_add(dy)) {
            (Some(nx), Some(ny)) => if self.contains((nx, ny)) {
                1
            } else {
                0
            },
            _ => 0,
        }
    }

    /// How many of the eight cells around `cell` are live.
    pub fn neighbor_count(&self, cell: Cell) -> (r: u8)
        ensures
            r == neighbor_count(self@, cell),
    {
        let (x, y) = cell;
        self.probe(x, y, -1, -1) + self.probe(x, y, 0, -1) + self.probe(x, y, 1, -1) + self.probe(
            x,
            y,
            -1,
            0,
        ) + self.probe(x, y, 1, 0) + self.probe(x, y, -1, 1) + self.probe(x, y, 0, 1) + self.probe(
            x,
            y,
            1,
            1,
        )
    }

    /// One worker's share of a step: the cells of `chunk` and their neighbours
    /// that are live in the generation after `self`.
    pub fn chunk_step(&self, chunk: &[Cell]) -> (r: Vec<Cell>)
        ensures
            r@.to_set() == chunk_next(self@, chunk@),
    {
        let mut found = set_new();
        for i in 0..chunk.len()
            invariant
                members(found) == candidates(chunk@.subrange(0, i as int)),
        {
            add_block(&mut found, chunk[i]);
            proof {
                let done = chunk@.subrange(0, i as int);
                let next = chunk@.subrange(0, i + 1);
                assert forall|c: Cell|
                    #[trigger] candidates(next).contains(c) == (candidates(done).contains(c)
                        || near(chunk@[i as int], c)) by {
                    if near(chunk@[i as int], c) {
                        assert(next[i as int] == chunk@[i as int]);
                    }
                    if candidates(done).contains(c) {
                        let k = choose|k: int| 0 <= k < done.len() && near(#[trigger] done[k], c);
                        assert(next[k] == done[k]);
                    }
                    if candidates(next).contains(c) {
                        let k = choose|k: int| 0 <= k < next.len() && near(#[trigger] next[k], c);
                        if k < i {
                            assert(next[k] == done[k]);
                        }
                    }
                }
                assert(members(found) =~= candidates(next));
            }
        }
        proof {
            assert(chunk@.subrange(0, chunk@.len() as int) == chunk@);
        }
        let list = set_items(&found);
        let mut out: Vec<Cell> = Vec::new();
        for j in 0..list.len()
            invariant
                list@.to_set() == candidates(chunk@),
                forall|c: Cell|
                    #[trigger] out@.contains(c) <==> (list@.subrange(0, j as int).contains(c)
                        && crate::rules::lives_next(self@, c)),
        {
            let c = list[j];
            let n = self.neighbor_count(c);
            let keep = n == 3 || (n == 2 && self.contains(c));
            let ghost prev = out@;
            if keep {
                out.push(c);
            }
            proof {
                assert forall|d: Cell| #[trigger] out@.contains(d) == (prev.contains(d) || (keep && d == c)) by {
                    if keep {
                        if d == c {
                            assert(out@[prev.len() as int] == c);
                        }
                        if prev.contains(d) {
                            let k = choose|k: int| 0 <= k < prev.len() && prev[k] == d;
                            assert(out@[k] == d);
                        }
                        if out@.contains(d) {
                            let k = choose|k: int| 0 <= k < out@.len() && out@[k] == d;
                            if k < prev.len() {
                                assert(prev[k] == d);
                            }
                        }
                    }
                }
                let done = list@.subrange(0, j as int);
                let next = list@.subrange(0, j + 1);
                assert forall|d: Cell| #[trigger] next.contains(d) == (done.contains(d) || d == c) by {
                    if d == c {
                        assert(next[j as int] == c);
                    }
                    if done.contains(d) {
                        let k = choose|k: int| 0 <= k < done.len() && done[k] == d;
                        assert(next[k] == d);
                    }
                    if next.contains(d) {
                        let k = choose|k: int| 0 <= k < next.len() && next[k] == d;
                        if k < j {
                            assert(done[k] == d);
                        }
                    }
                }
            }
        }
        proof {
            assert(list@.subrange(0, list@.len() as int) == list@);
            assert(out@.to_set() =~= chunk_next(self@, chunk@));
        }
        out
    }

    /// The next generation, with the live cells cut into chunks of
    /// `chunk_len` cells that the workers of `pool` take in parallel.
    fn step_on(&self, pool: &TaskPool, chunk_len: usize) -> (r: Cells)
        requires
            chunk_len > 0,
        ensures
            r@ == next_gen(self@),
    {
        let live = self.cells();
        let parts = par_chunk_step(pool, self, &live, chunk_len);
        let ghost pieces = chunks(live@, chunk_len as nat);
        let mut set = set_new();
        for k in 0..parts.len()
            invariant
                parts@.len() == pieces.len(),
                forall|m: int|
                    0 <= m < parts@.len() ==> (#[trigger] parts@[m])@.to_set() == chunk_next(
                        self@,
                        pieces[m],
                    ),
                members(set) == merged(self@, pieces.subrange(0, k as int)),
        {
            let part = &parts[k];
            let ghost before = members(set);
            for j in 0..part.len()
                invariant
                    members(set) == before.union(part@.subrange(0, j as int).to_set()),
            {
                set_insert(&mut set, part[j]);
                proof {
                    assert(part@.subrange(0, j + 1) == part@.subrange(0, j as int).push(part@[j as int]));
                    part@.subrange(0, j as int).lemma_push_to_set_commute(part@[j as int]);
                    assert(members(set) =~= before.union(part@.subrange(0, j + 1).to_set()));
                }
            }
            proof {
                assert(part@.subrange(0, part@.len() as int) == part@);
                let done = pieces.subrange(0, k as int);
                let next = pieces.subrange(0, k + 1);
                assert forall|c: Cell| #[trigger] merged(self@, next).contains(c) == (merged(
                    self@,
                    done,
                ).contains(c) || chunk_next(self@, pieces[k as int]).contains(c)) by {
                    assert(next[k as int] == pieces[k as int]);
                    if merged(self@, done).contains(c) {
                        let m = choose|m: int|
                            0 <= m < done.len() && (#[trigger] chunk_next(self@, done[m])).contains(c);
                        assert(next[m] == done[m]);
                    }
                    if merged(self@, next).contains(c) {
                        let m = choose|m: int|
                            0 <= m < next.len() && (#[trigger] chunk_next(self@, next[m])).contains(c);
                        if m < k {
                            assert(done[m] == next[m]);
                        }
                    }
                }
                assert(members(set) =~= merged(self@, next));
            }
        }
        proof {
            assert(pieces.subrange(0, pieces.len() as int) == pieces);
            lemma_chunks_cover(live@, self@, chunk_len as nat);
            lemma_merged_is_next_gen(self@, pieces);
        }
        Cells::from_set(set)
    }

    /// The next generation, computed on the compute pool with the live cells
    /// cut into chunks of `len / workers` cells (at least one; a single chunk
    /// where `workers` is 0). The result is the same for every value of `workers`.
    pub fn next_set_split(&self, workers: usize) -> (r: Cells)
        ensures
            r@ == next_gen(self@),
    {
        let n = self.len();
        let chunk_len = if workers == 0 {
            n
        } else {
            n / workers
        };
        let chunk_len = if chunk_len == 0 {
            1
        } else {
            chunk_len
        };
        self.step_on(compute_pool(), chunk_len)
    }

    /// The next generation, with the live cells split among the worker
    /// threads of the compute pool.
    pub fn next_set(&self) -> (r: Cells)
        ensures
            r@ == next_gen(self@),
    {
        self.next_set_split(thread_num(compute_pool()))
    }

    /// Advances the grid by one generation.
    pub fn step(&mut self)
        ensures
            final(self)@ == next_gen(old(self)@),
    {
        *self = self.next_set();
    }
}

} // verus!
