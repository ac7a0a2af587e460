use vstd::prelude::*;

verus! {

/// A grid position: `(x, y)` on the 64-bit integer plane.
pub type Cell = (i64, i64);

/// Whether `v` is a coordinate that a cell can have.
pub open spec fn in_plane(v: int) -> bool {
    i64::MIN <= v <= i64::MAX
}

/// Whether the position `(x, y)` holds a live cell of `s`. Positions beyond
/// the 64-bit range hold none.
pub open spec fn alive(s: Set<Cell>, x: int, y: int) -> bool {
    in_plane(x) && in_plane(y) && s.contains((x as i64, y as i64))
}

/// One for a live position, zero for a dead one.
pub open spec fn live_at(s: Set<Cell>, x: int, y: int) -> int {
    if alive(s, x, y) {
        1
    } else {
        0
    }
}

/// How many of the eight cells around `c` are live in `s`.
pub open spec fn neighbor_count(s: Set<Cell>, c: Cell) -> int {
    let x = c.0 as int;
    let y = c.1 as int;
    live_at(s, x - 1, y - 1) + live_at(s, x, y - 1) + live_at(s, x + 1, y - 1)
        + live_at(s, x - 1, y) + live_at(s, x + 1, y)
        + live_at(s, x - 1, y + 1) + live_at(s, x, y + 1) + live_at(s, x + 1, y + 1)
}

/// The rule: a cell is live in the next generation when it has three live
/// neighbours, or two and is live now.
pub open spec fn lives_next(s: Set<Cell>, c: Cell) -> bool {
    neighbor_count(s, c) == 3 || (neighbor_count(s, c) == 2 && s.contains(c))
}

/// The generation that follows `s`.
pub open spec fn next_gen(s: Set<Cell>) -> Set<Cell> {
    Set::new(|c: Cell| lives_next(s, c))
}

/// Whether `b` lies in the 3x3 block centred on `a`.
pub open spec fn near(a: Cell, b: Cell) -> bool {
    -1 <= b.0 - a.0 <= 1 && -1 <= b.1 - a.1 <= 1
}

/// Every cell of `chunk` together with its eight neighbours.
pub open spec fn candidates(chunk: Seq<Cell>) -> Set<Cell> {
    Set::new(|c: Cell| exists|i: int| 0 <= i < chunk.len() && near(#[trigger] chunk[i], c))
}

/// What one worker contributes: the candidates of its chunk that the rule
/// keeps alive, judged against the whole snapshot `s`.
pub open spec fn chunk_next(s: Set<Cell>, chunk: Seq<Cell>) -> Set<Cell> {
    Set::new(|c: Cell| candidates(chunk).contains(c) && lives_next(s, c))
}

/// Whether the chunks in `parts` hold exactly the cells of `s`, each at least once.
pub open spec fn covers(parts: Seq<Seq<Cell>>, s: Set<Cell>) -> bool {
    forall|c: Cell|
        s.contains(c) <==> exists|k: int| 0 <= k < parts.len() && (#[trigger] parts[k]).contains(c)
}

/// The union of the contributions of all chunks.
pub open spec fn merged(s: Set<Cell>, parts: Seq<Seq<Cell>>) -> Set<Cell> {
    Set::new(
        |c: Cell|
            exists|k: int| 0 <= k < parts.len() && (#[trigger] chunk_next(s, parts[k])).contains(c),
    )
}

/// Whether `c` lies in the rectangle from `min` to `max`, both corners included.
pub open spec fn in_window(c: Cell, min: Cell, max: Cell) -> bool {
    min.0 <= c.0 <= max.0 && min.1 <= c.1 <= max.1
}

/// The live cells of `s` in the rectangle from `min` to `max`.
pub open spec fn window(s: Set<Cell>, min: Cell, max: Cell) -> Set<Cell> {
    s.filter(|c: Cell| in_window(c, min, max))
}

/// Row-major order: by `y`, then by `x`.
pub open spec fn precedes(a: Cell, b: Cell) -> bool {
    a.1 < b.1 || (a.1 == b.1 && a.0 < b.0)
}

/// `s` with the membership of `c` flipped.
pub open spec fn toggled(s: Set<Cell>, c: Cell) -> Set<Cell> {
    if s.contains(c) {
        s.remove(c)
    } else {
        s.insert(c)
    }
}

/// Toggling a cell twice restores the set it started from.
pub proof fn lemma_toggle_twice(s: Set<Cell>, c: Cell)
    ensures
        toggled(toggled(s, c), c) == s,
{
    assert(toggled(toggled(s, c), c) =~= s);
}

/// Toggling a cell changes only that cell: a window that does not hold it
/// reads the same before and after, and a window that holds it sees the flip.
pub proof fn lemma_toggle_is_local(s: Set<Cell>, c: Cell, min: Cell, max: Cell)
    ensures
        !in_window(c, min, max) ==> window(toggled(s, c), min, max) == window(s, min, max),
        in_window(c, min, max) ==> window(toggled(s, c), min, max) == toggled(window(s, min, max), c),
{
    assert(!in_window(c, min, max) ==> window(toggled(s, c), min, max) =~= window(s, min, max));
    assert(in_window(c, min, max) ==> window(toggled(s, c), min, max) =~= toggled(
        window(s, min, max),
        c,
    ));
}

/// A cell that the rule keeps or makes alive has a live cell within one step of it.
pub proof fn lemma_next_has_live_near(s: Set<Cell>, c: Cell)
    requires
        lives_next(s, c),
    ensures
        exists|d: Cell| s.contains(d) && near(d, c),
{
    let x = c.0 as int;
    let y = c.1 as int;
    if alive(s, x - 1, y - 1) {
        assert(near(((x - 1) as i64, (y - 1) as i64), c));
    } else if alive(s, x, y - 1) {
        assert(near((x as i64, (y - 1) as i64), c));
    } else if alive(s, x + 1, y - 1) {
        assert(near(((x + 1) as i64, (y - 1) as i64), c));
    } else if alive(s, x - 1, y) {
        assert(near(((x - 1) as i64, y as i64), c));
    } else if alive(s, x + 1, y) {
        assert(near(((x + 1) as i64, y as i64), c));
    } else if alive(s, x - 1, y + 1) {
        assert(near(((x - 1) as i64, (y + 1) as i64), c));
    } else if alive(s, x, y + 1) {
        assert(near((x as i64, (y + 1) as i64), c));
    } else {
        assert(alive(s, x + 1, y + 1));
        assert(near(((x + 1) as i64, (y + 1) as i64), c));
    }
}

/// Merging the contributions of chunks that together hold the live cells
/// gives the next generation, however the cells were split.
pub proof fn lemma_merged_is_next_gen(s: Set<Cell>, parts: Seq<Seq<Cell>>)
    requires
        covers(parts, s),
    ensures
        merged(s, parts) == next_gen(s),
{
    assert forall|c: Cell| next_gen(s).contains(c) implies #[trigger] merged(s, parts).contains(c) by {
        lemma_next_has_live_near(s, c);
        let d = choose|d: Cell| s.contains(d) && near(d, c);
        let k = choose|k: int| 0 <= k < parts.len() && (#[trigger] parts[k]).contains(d);
        let i = choose|i: int| 0 <= i < parts[k].len() && parts[k][i] == d;
        assert(candidates(parts[k]).contains(c));
        assert(chunk_next(s, parts[k]).contains(c));
    }
    assert(merged(s, parts) =~= next_gen(s));
}

/// The next generation does not depend on how the live cells are split into
/// chunks: any two splittings give the same merged result.
pub proof fn lemma_step_independent_of_chunking(
    s: Set<Cell>,
    first: Seq<Seq<Cell>>,
    second: Seq<Seq<Cell>>,
)
    requires
        covers(first, s),
        covers(second, s),
    ensures
        merged(s, first) == merged(s, second),
{
    lemma_merged_is_next_gen(s, first);
    lemma_merged_is_next_gen(s, second);
}

} // verus!
