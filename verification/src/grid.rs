use vstd::prelude::*;
use vstd::map::*;
use vstd::seq_lib::lemma_seq_contains_after_push;
use vstd::string::StringExecFns;
use std::collections::HashMap;

verus! {

broadcast use vstd::std_specs::hash::group_hash_axioms;

/// A cell coordinate on the board. Coordinates are signed; only the points
/// with both components in `[0, size)` are visible ("printable") on a board of
/// side length `size`.
#[derive(PartialEq, Eq, Structural, Clone, Copy)]
pub struct Point {
    pub x: i32,
    pub y: i32,
}

/// Whether the point `(x, y)` lies on the visible board of side length `size`.
pub open spec fn printable(x: int, y: int, size: int) -> bool {
    0 <= x < size && 0 <= y < size
}

/// The offset of the `i`-th of the 8 compass neighbors of a cell, in the fixed
/// clockwise-from-east order E, NE, N, NW, W, SW, S, SE.
pub open spec fn neighbor_offset(i: int) -> (int, int) {
    if i == 0 {
        (0, 1)
    } else if i == 1 {
        (1, 1)
    } else if i == 2 {
        (1, 0)
    } else if i == 3 {
        (1, -1)
    } else if i == 4 {
        (0, -1)
    } else if i == 5 {
        (-1, -1)
    } else if i == 6 {
        (-1, 0)
    } else {
        (-1, 1)
    }
}

/// Cell `(x, y)` is tracked in the mapping `g` and marked alive.
pub open spec fn cell_live(g: Map<(int, int), bool>, x: int, y: int) -> bool {
    g.contains_key((x, y)) && g[(x, y)]
}

/// How many of the first `n` compass neighbors of `(x, y)` are alive in `g`.
pub open spec fn live_neighbors_upto(g: Map<(int, int), bool>, x: int, y: int, n: int) -> int
    decreases n,
{
    if n <= 0 {
        0
    } else {
        live_neighbors_upto(g, x, y, n - 1) + (if cell_live(
            g,
            x + neighbor_offset(n - 1).0,
            y + neighbor_offset(n - 1).1,
        ) {
            1int
        } else {
            0int
        })
    }
}

/// How many of the 8 compass neighbors of `(x, y)` are alive in `g`.
pub open spec fn live_neighbor_count(g: Map<(int, int), bool>, x: int, y: int) -> int {
    live_neighbors_upto(g, x, y, 8)
}

/// The standard rule, evaluated only over the tracked cells of the mapping: a
/// tracked live cell survives iff it has 2 or 3 live neighbors, a tracked dead
/// cell is born iff it has exactly 3 live neighbors, and an untracked cell
/// stays dead whatever its surroundings.
pub open spec fn becomes_live(g: Map<(int, int), bool>, x: int, y: int) -> bool {
    g.contains_key((x, y)) && {
        let n = live_neighbor_count(g, x, y);
        if g[(x, y)] {
            n == 2 || n == 3
        } else {
            n == 3
        }
    }
}

/// The set of cells marked alive in the mapping `g`.
pub open spec fn live_set(g: Map<(int, int), bool>) -> Set<(int, int)> {
    g.dom().filter(|p: (int, int)| g[p])
}

/// Encoded form of the printable point `(x, y)` on a board of side length
/// `size`: the row-major index `y * size + x`.
spec fn key_at(x: int, y: int, size: int) -> int {
    y * size + x
}

/// The sparse mapping `m`, keyed by row-major indices, read back as a mapping
/// from coordinates to liveness flags.
spec fn view_of(m: Map<u64, bool>, size: int) -> Map<(int, int), bool> {
    Map::new(
        |p: (int, int)| printable(p.0, p.1, size) && m.contains_key(key_at(p.0, p.1, size) as u64),
        |p: (int, int)| m[key_at(p.0, p.1, size) as u64],
    )
}

/// The internal invariant of a grid: the key vector lists exactly the keys of
/// the mapping, once each, and every key is the row-major index of a printable
/// point.
spec fn raw_inv(m: Map<u64, bool>, keys: Seq<u64>, size: int) -> bool {
    &&& keys.no_duplicates()
    &&& forall|k: u64| #[trigger] m.contains_key(k) ==> keys.contains(k)
    &&& forall|k: u64| #[trigger] keys.contains(k) ==> m.contains_key(k)
    &&& forall|k: u64| #[trigger] m.contains_key(k) ==> size >= 1 && (k as int) < size * size
}

proof fn lemma_key_at_bounds(x: int, y: int, size: int)
    requires
        printable(x, y, size),
        size <= 0x7fff_ffff,
    ensures
        0 <= key_at(x, y, size) < size * size,
        size * size < 0x4000_0000_0000_0000,
        (key_at(x, y, size) as u64) as int == key_at(x, y, size),
{
    assert(0 <= y * size + x < size * size && size * size < 0x4000_0000_0000_0000)
        by (nonlinear_arith)
        requires
            0 <= x < size,
            0 <= y < size,
            size <= 0x7fff_ffff,
    ;
}

proof fn lemma_key_at_injective(x1: int, y1: int, x2: int, y2: int, size: int)
    requires
        printable(x1, y1, size),
        printable(x2, y2, size),
        key_at(x1, y1, size) == key_at(x2, y2, size),
    ensures
        x1 == x2 && y1 == y2,
{
    assert(y1 == y2 && x1 == x2) by (nonlinear_arith)
        requires
            0 <= x1 < size,
            0 <= x2 < size,
            0 <= y1 < size,
            0 <= y2 < size,
            y1 * size + x1 == y2 * size + x2,
    ;
}

/// Inserting the key of a printable point into the sparse mapping updates the
/// decoded mapping at exactly that point.
proof fn lemma_view_insert(m: Map<u64, bool>, size: int, x: int, y: int, live: bool)
    requires
        printable(x, y, size),
        size < 0x8000_0000,
    ensures
        view_of(m.insert(key_at(x, y, size) as u64, live), size) == view_of(m, size).insert(
            (x, y),
            live,
        ),
{
    let k0 = key_at(x, y, size) as u64;
    lemma_key_at_bounds(x, y, size);
    assert(size * size < 0x4000_0000_0000_0000) by (nonlinear_arith)
        requires
            0 <= size < 0x8000_0000,
    ;
    let m2 = m.insert(k0, live);
    let lhs = view_of(m2, size);
    let rhs = view_of(m, size).insert((x, y), live);
    assert_maps_equal!(lhs, rhs, p => {
        if p == (x, y) {
            assert(lhs.contains_key(p) && lhs[p] == live);
        } else if printable(p.0, p.1, size) {
            lemma_key_at_bounds(p.0, p.1, size);
            if key_at(p.0, p.1, size) == key_at(x, y, size) {
                lemma_key_at_injective(p.0, p.1, x, y, size);
            }
            assert(key_at(p.0, p.1, size) as u64 != k0);
        }
    });
}

/// Encode a printable point as its row-major index.
fn encode(x: i32, y: i32, size: i32) -> (k: u64)
    requires
        printable(x as int, y as int, size as int),
    ensures
        k as int == key_at(x as int, y as int, size as int),
{
    proof {
        lemma_key_at_bounds(x as int, y as int, size as int);
        let xi = x as int;
        let yi = y as int;
        let si = size as int;
        assert(yi * si + xi < 0x4000_0000_0000_0000 && 0 <= yi * si) by (nonlinear_arith)
            requires
                0 <= xi && xi < si,
                0 <= yi && yi < si,
                si <= 0x7fff_ffff,
        ;
    }
    (y as u64) * (size as u64) + (x as u64)
}

/// The offset of the `i`-th compass neighbor, as machine integers.
fn neighbor_delta(i: usize) -> (d: (i32, i32))
    requires
        i < 8,
    ensures
        d.0 as int == neighbor_offset(i as int).0,
        d.1 as int == neighbor_offset(i as int).1,
{
    if i == 0 {
        (0, 1)
    } else if i == 1 {
        (1, 1)
    } else if i == 2 {
        (1, 0)
    } else if i == 3 {
        (1, -1)
    } else if i == 4 {
        (0, -1)
    } else if i == 5 {
        (-1, -1)
    } else if i == 6 {
        (-1, 0)
    } else {
        (-1, 1)
    }
}

impl Point {
    /// The point with the given coordinates.
    pub fn new(x: i32, y: i32) -> (p: Self)
        ensures
            p.x == x,
            p.y == y,
    {
        Self { x, y }
    }

    /// The first `min(max_neighbors, 8)` compass neighbors of this point, in
    /// the fixed clockwise-from-east order.
    #[verifier::loop_isolation(false)]
    pub fn get_neighbors(&self, max_neighbors: usize) -> (r: Vec<Point>)
        requires
            i32::MIN < self.x < i32::MAX,
            i32::MIN < self.y < i32::MAX,
        ensures
            r@.len() == (if max_neighbors > 8 { 8int } else { max_neighbors as int }),
            forall|i: int| #![trigger r@[i]]
                0 <= i < r@.len() ==> r@[i].x == self.x + neighbor_offset(i).0 && r@[i].y == self.y
                    + neighbor_offset(i).1,
    {
        let num_neighbors: usize = if max_neighbors > 8 {
            8
        } else {
            max_neighbors
        };
        let mut r: Vec<Point> = Vec::new();
        let mut i: usize = 0;
        while i < num_neighbors
            invariant
                i <= num_neighbors,
                r@.len() == i as int,
                forall|j: int| #![trigger r@[j]]
                    0 <= j < i as int ==> r@[j].x == self.x + neighbor_offset(j).0 && r@[j].y
                        == self.y + neighbor_offset(j).1,
            decreases num_neighbors - i,
        {
            let d = neighbor_delta(i);
            r.push(Point::new(self.x + d.0, self.y + d.1));
            i = i + 1;
        }
        r
    }
}

/// A sparse board for the automaton: it holds the cells that are alive
/// together with the tracked-dead cells adjacent to them, everything else
/// being implicitly dead. The view of a grid is the mapping from coordinates
/// to liveness flags; cells outside the printable region are never tracked.
pub struct Grid {
    cells: HashMap<u64, bool>,
    keys: Vec<u64>,
    size: i32,
}

impl View for Grid {
    type V = Map<(int, int), bool>;

    closed spec fn view(&self) -> Map<(int, int), bool> {
        view_of(self.cells@, self.size as int)
    }
}

impl Grid {
    /// The side length of the board.
    pub closed spec fn spec_size(&self) -> int {
        self.size as int
    }

    /// The grid's internal invariant: established by `new` and preserved by
    /// every operation.
    pub closed spec fn wf(&self) -> bool {
        raw_inv(self.cells@, self.keys@, self.size as int)
    }

    /// Every tracked cell of a well-formed grid lies on the visible board.
    pub proof fn lemma_boundary(&self)
        requires
            self.wf(),
        ensures
            forall|p: (int, int)| #[trigger]
                self@.contains_key(p) ==> printable(p.0, p.1, self.spec_size()),
    {
    }

    /// An empty board of the given side length: no cell is alive or tracked.
    pub fn new(size: i32) -> (g: Self)
        ensures
            g.wf(),
            g.spec_size() == size as int,
            g@ == Map::<(int, int), bool>::empty(),
    {
        let g = Self { cells: HashMap::new(), keys: Vec::new(), size };
        proof {
            assert(g@ =~= Map::<(int, int), bool>::empty());
        }
        g
    }

    /// The tracked state of cell `(x, y)`: `None` when the cell is not in the
    /// mapping, otherwise its liveness flag.
    pub fn cell(&self, x: i32, y: i32) -> (r: Option<bool>)
        requires
            self.wf(),
        ensures
            self@.contains_key((x as int, y as int)) ==> r == Some(self@[(x as int, y as int)]),
            !self@.contains_key((x as int, y as int)) ==> r == None::<bool>,
    {
        if 0 <= x && x < self.size && 0 <= y && y < self.size {
            let k = encode(x, y, self.size);
            match self.cells.get(&k) {
                Some(b) => Some(*b),
                None => None,
            }
        } else {
            None
        }
    }

    /// Whether the point lies on the visible board.
    pub fn is_printable(&self, point: &Point) -> (r: bool)
        ensures
            r == printable(point.x as int, point.y as int, self.spec_size()),
    {
        point.x < self.size && point.x >= 0 && point.y < self.size && point.y >= 0
    }

    /// Whether cell `(x, y)` is alive.
    pub fn is_live(&self, x: i32, y: i32) -> (r: bool)
        requires
            self.wf(),
        ensures
            r == cell_live(self@, x as int, y as int),
    {
        match self.cell(x, y) {
            Some(b) => b,
            None => false,
        }
    }
}

/// Insert the printable cell `(x, y)` into the sparse parts of a grid. A cell
/// not yet tracked is inserted with the given flag; one already tracked is
/// left alone unless `overwrite` is set, in which case its flag is replaced.
fn put_cell(
    cells: &mut HashMap<u64, bool>,
    keys: &mut Vec<u64>,
    size: i32,
    x: i32,
    y: i32,
    live: bool,
    overwrite: bool,
)
    requires
        raw_inv(old(cells)@, old(keys)@, size as int),
        printable(x as int, y as int, size as int),
    ensures
        raw_inv(final(cells)@, final(keys)@, size as int),
        view_of(final(cells)@, size as int) == (if view_of(old(cells)@, size as int).contains_key(
            (x as int, y as int),
        ) && !overwrite {
            view_of(old(cells)@, size as int)
        } else {
            view_of(old(cells)@, size as int).insert((x as int, y as int), live)
        }),
        final(keys)@.len() == old(keys)@.len() + (if view_of(
            old(cells)@,
            size as int,
        ).contains_key((x as int, y as int)) {
            0int
        } else {
            1int
        }),
{
    broadcast use lemma_seq_contains_after_push;

    proof {
        lemma_key_at_bounds(x as int, y as int, size as int);
    }
    let k = encode(x, y, size);
    let present = has_key(cells, k);
    proof {
        assert(k == key_at(x as int, y as int, size as int) as u64);
    }
    if !present {
        proof {
            assert(!old(keys)@.contains(k));
        }
        keys.push(k);
        cells.insert(k, live);
        proof {
            lemma_view_insert(old(cells)@, size as int, x as int, y as int, live);
            assert(keys@ == old(keys)@.push(k));
            assert forall|i: int, j: int|
                0 <= i < keys@.len() && 0 <= j < keys@.len() && i != j implies keys@[i]
                != keys@[j] by {
                if i < keys@.len() - 1 && j < keys@.len() - 1 {
                } else {
                    let m = if i < j { i } else { j };
                    if old(keys)@[m] == k {
                        assert(old(keys)@.contains(k));
                    }
                }
            }
            assert(keys@.no_duplicates());
        }
    } else if overwrite {
        cells.insert(k, live);
        proof {
            lemma_view_insert(old(cells)@, size as int, x as int, y as int, live);
            assert(keys@ =~= old(keys)@);
        }
    } else {
        proof {
            assert(view_of(cells@, size as int) =~= view_of(old(cells)@, size as int));
        }
    }
}

/// Whether the sparse mapping holds the given key.
fn has_key(cells: &HashMap<u64, bool>, k: u64) -> (r: bool)
    ensures
        r == cells@.contains_key(k),
{
    cells.contains_key(&k)
}

/// Decode a row-major index back into the printable point it encodes.
fn decode(k: u64, size: i32) -> (p: (i32, i32))
    requires
        size >= 1,
        (k as int) < (size as int) * (size as int),
    ensures
        printable(p.0 as int, p.1 as int, size as int),
        key_at(p.0 as int, p.1 as int, size as int) == k as int,
{
    let s = size as u64;
    let x = k % s;
    let y = k / s;
    proof {
        let ki = k as int;
        let si = size as int;
        vstd::arithmetic::div_mod::lemma_fundamental_div_mod(ki, si);
        vstd::arithmetic::div_mod::lemma_mod_bound(ki, si);
        let q = ki / si;
        let r = ki % si;
        assert(0 <= q && q < si) by (nonlinear_arith)
            requires
                ki == si * q + r,
                0 <= r && r < si,
                0 <= ki,
                ki < si * si,
        ;
        assert(q * si + r == si * q + r) by (nonlinear_arith);
        assert(x as int == r && y as int == q);
        assert(key_at(r, q, si) == ki);
    }
    (x as i32, y as i32)
}

/// Each compass offset is the negation of the one four places around the
/// ring.
proof fn lemma_offset_negation(j: int)
    requires
        0 <= j < 8,
    ensures
        neighbor_offset(if j < 4 {
            j + 4
        } else {
            j - 4
        }).0 == -neighbor_offset(j).0,
        neighbor_offset(if j < 4 {
            j + 4
        } else {
            j - 4
        }).1 == -neighbor_offset(j).1,
{
}

impl Grid {
    /// How many of the 8 compass neighbors of `(x, y)` are alive.
    #[verifier::loop_isolation(false)]
    fn count_live_neighbors(&self, x: i32, y: i32) -> (n: u32)
        requires
            self.wf(),
            i32::MIN < x < i32::MAX,
            i32::MIN < y < i32::MAX,
        ensures
            n as int == live_neighbor_count(self@, x as int, y as int),
    {
        let mut n: u32 = 0;
        let mut j: usize = 0;
        while j < 8
            invariant
                j <= 8,
                n <= j,
                n as int == live_neighbors_upto(self@, x as int, y as int, j as int),
            decreases 8 - j,
        {
            let d = neighbor_delta(j);
            if self.is_live(x + d.0, y + d.1) {
                n = n + 1;
            }
            j = j + 1;
        }
        n
    }

    /// Advance the board one generation.
    ///
    /// The new mapping wholly replaces the old one: a cell is alive afterwards
    /// iff the rule, evaluated over the old tracked cells, makes it so, and a
    /// cell is tracked afterwards iff it became alive or is a printable
    /// neighbor of a cell that became alive.
    #[verifier::loop_isolation(false)]
    pub fn next(&mut self)
        requires
            old(self).wf(),
        ensures
            final(self).wf(),
            final(self).spec_size() == old(self).spec_size(),
            forall|x: int, y: int| #![trigger cell_live(final(self)@, x, y)]
                cell_live(final(self)@, x, y) <==> becomes_live(old(self)@, x, y),
            forall|x: int, y: int| #![trigger final(self)@.contains_key((x, y))]
                final(self)@.contains_key((x, y)) <==> (becomes_live(old(self)@, x, y) || (
                printable(x, y, old(self).spec_size()) && exists|j: int|
                    #![trigger neighbor_offset(j)]
                    0 <= j < 8 && becomes_live(
                        old(self)@,
                        x + neighbor_offset(j).0,
                        y + neighbor_offset(j).1,
                    ))),
    {
        let ghost g = self@;
        let ghost s = self.spec_size();
        let ghost ks = self.keys@;
        proof {
            self.lemma_boundary();
        }
        let mut new_cells: HashMap<u64, bool> = HashMap::new();
        let mut new_keys: Vec<u64> = Vec::new();
        proof {
            assert(view_of(new_cells@, s) =~= Map::<(int, int), bool>::empty());
        }
        let n = self.keys.len();
        let mut i: usize = 0;
        while i < n
            invariant
                i <= n,
                n == ks.len(),
                raw_inv(new_cells@, new_keys@, s),
                forall|x: int, y: int| #![trigger cell_live(view_of(new_cells@, s), x, y)]
                    cell_live(view_of(new_cells@, s), x, y) <==> (becomes_live(g, x, y)
                        && ks.subrange(0, i as int).contains(key_at(x, y, s) as u64)),
                forall|x: int, y: int| #![trigger view_of(new_cells@, s).contains_key((x, y))]
                    view_of(new_cells@, s).contains_key((x, y)) <==> ((becomes_live(g, x, y)
                        && ks.subrange(0, i as int).contains(key_at(x, y, s) as u64)) || (
                    printable(x, y, s) && exists|j: int|
                        #![trigger neighbor_offset(j)]
                        0 <= j < 8 && becomes_live(
                            g,
                            x + neighbor_offset(j).0,
                            y + neighbor_offset(j).1,
                        ) && ks.subrange(0, i as int).contains(
                            key_at(
                                x + neighbor_offset(j).0,
                                y + neighbor_offset(j).1,
                                s,
                            ) as u64,
                        ))),
            decreases n - i,
        {
            broadcast use lemma_seq_contains_after_push;

            let ghost w0 = view_of(new_cells@, s);
            let k = self.keys[i];
            proof {
                assert(ks[i as int] == k);
                assert(ks.contains(k));
                assert(self.cells@.contains_key(k));
            }
            let (x, y) = decode(k, self.size);
            proof {
                assert(k == key_at(x as int, y as int, s) as u64);
                assert(g.contains_key((x as int, y as int)));
            }
            let cur = self.is_live(x, y);
            let cnt = self.count_live_neighbors(x, y);
            let alive_next = if cur {
                cnt == 2 || cnt == 3
            } else {
                cnt == 3
            };
            proof {
                assert(alive_next == becomes_live(g, x as int, y as int));
                assert(ks.subrange(0, i as int + 1) =~= ks.subrange(0, i as int).push(k));
            }
            if alive_next {
                put_cell(&mut new_cells, &mut new_keys, self.size, x, y, true, true);
                let ghost w1 = view_of(new_cells@, s);
                proof {
                    assert(w1 == w0.insert((x as int, y as int), true));
                }
                let mut j: usize = 0;
                while j < 8
                    invariant
                        j <= 8,
                        raw_inv(new_cells@, new_keys@, s),
                        forall|p: (int, int)| #![trigger view_of(new_cells@, s).contains_key(p)]
                            view_of(new_cells@, s).contains_key(p) <==> (w1.contains_key(p) || (
                            printable(p.0, p.1, s) && exists|jj: int|
                                #![trigger neighbor_offset(jj)]
                                0 <= jj < j as int && p == ((x as int) + neighbor_offset(jj).0, (
                                y as int) + neighbor_offset(jj).1))),
                        forall|p: (int, int)| #![trigger view_of(new_cells@, s)[p]]
                            view_of(new_cells@, s).contains_key(p) ==> view_of(new_cells@, s)[p]
                                == (if w1.contains_key(p) {
                                w1[p]
                            } else {
                                false
                            }),
                    decreases 8 - j,
                {
                    let ghost wa = view_of(new_cells@, s);
                    let d = neighbor_delta(j);
                    let nx = x + d.0;
                    let ny = y + d.1;
                    if 0 <= nx && nx < self.size && 0 <= ny && ny < self.size {
                        put_cell(&mut new_cells, &mut new_keys, self.size, nx, ny, false, false);
                    }
                    proof {
                        let wb = view_of(new_cells@, s);
                        let np = ((x as int) + neighbor_offset(j as int).0, (y as int)
                            + neighbor_offset(j as int).1);
                        assert forall|p: (int, int)| #![trigger wb.contains_key(p)]
                            wb.contains_key(p) <==> (w1.contains_key(p) || (printable(p.0, p.1, s)
                                && exists|jj: int|
                                #![trigger neighbor_offset(jj)]
                                0 <= jj < j as int + 1 && p == ((x as int) + neighbor_offset(jj).0,
                                (y as int) + neighbor_offset(jj).1))) by {
                            if p == np && printable(np.0, np.1, s) {
                                assert(0 <= (j as int) && (j as int) < 8 && p == ((x as int)
                                    + neighbor_offset(j as int).0, (y as int) + neighbor_offset(
                                    j as int,
                                ).1));
                            }
                            if wa.contains_key(p) && !wb.contains_key(p) {
                                assert(false);
                            }
                        }
                    }
                    j = j + 1;
                }
                proof {
                    let w2 = view_of(new_cells@, s);
                    let xi = x as int;
                    let yi = y as int;
                    let pre1 = ks.subrange(0, i as int + 1);
                    assert forall|x2: int, y2: int| #![trigger cell_live(w2, x2, y2)]
                        cell_live(w2, x2, y2) <==> (becomes_live(g, x2, y2) && pre1.contains(
                            key_at(x2, y2, s) as u64,
                        )) by {
                        lemma_step_live_case(
                            g, s, w0, w1, w2, ks, i as int, k, xi, yi, x2, y2,
                        );
                    }
                    assert forall|x2: int, y2: int| #![trigger w2.contains_key((x2, y2))]
                        w2.contains_key((x2, y2)) <==> ((becomes_live(g, x2, y2) && pre1.contains(
                            key_at(x2, y2, s) as u64,
                        )) || (printable(x2, y2, s) && exists|j2: int|
                            #![trigger neighbor_offset(j2)]
                            0 <= j2 < 8 && becomes_live(
                                g,
                                x2 + neighbor_offset(j2).0,
                                y2 + neighbor_offset(j2).1,
                            ) && pre1.contains(
                                key_at(
                                    x2 + neighbor_offset(j2).0,
                                    y2 + neighbor_offset(j2).1,
                                    s,
                                ) as u64,
                            ))) by {
                        lemma_step_tracked_case(
                            g, s, w0, w1, w2, ks, i as int, k, xi, yi, x2, y2,
                        );
                    }
                }
            } else {
                proof {
                    let w2 = view_of(new_cells@, s);
                    let pre1 = ks.subrange(0, i as int + 1);
                    let pre0 = ks.subrange(0, i as int);
                    assert forall|x2: int, y2: int| #![trigger cell_live(w2, x2, y2)]
                        cell_live(w2, x2, y2) <==> (becomes_live(g, x2, y2) && pre1.contains(
                            key_at(x2, y2, s) as u64,
                        )) by {
                        lemma_skip_key(g, s, ks, i as int, k, x as int, y as int, x2, y2);
                    }
                    assert forall|x2: int, y2: int| #![trigger w2.contains_key((x2, y2))]
                        w2.contains_key((x2, y2)) <==> ((becomes_live(g, x2, y2) && pre1.contains(
                            key_at(x2, y2, s) as u64,
                        )) || (printable(x2, y2, s) && exists|j2: int|
                            #![trigger neighbor_offset(j2)]
                            0 <= j2 < 8 && becomes_live(
                                g,
                                x2 + neighbor_offset(j2).0,
                                y2 + neighbor_offset(j2).1,
                            ) && pre1.contains(
                                key_at(
                                    x2 + neighbor_offset(j2).0,
                                    y2 + neighbor_offset(j2).1,
                                    s,
                                ) as u64,
                            ))) by {
                        assert forall|j2: int|
                            0 <= j2 < 8 && becomes_live(
                                g,
                                x2 + neighbor_offset(j2).0,
                                y2 + neighbor_offset(j2).1,
                            ) && pre1.contains(
                                key_at(
                                    x2 + neighbor_offset(j2).0,
                                    y2 + neighbor_offset(j2).1,
                                    s,
                                ) as u64,
                            ) implies pre0.contains(
                            key_at(x2 + neighbor_offset(j2).0, y2 + neighbor_offset(j2).1, s) as u64,
                        ) by {
                            lemma_skip_key(
                                g,
                                s,
                                ks,
                                i as int,
                                k,
                                x as int,
                                y as int,
                                x2 + neighbor_offset(j2).0,
                                y2 + neighbor_offset(j2).1,
                            );
                        }
                        lemma_skip_key(g, s, ks, i as int, k, x as int, y as int, x2, y2);
                    }
                }
            }
            i = i + 1;
        }
        proof {
            assert(ks.subrange(0, n as int) =~= ks);
            assert forall|x: int, y: int|
                becomes_live(g, x, y) implies ks.contains(key_at(x, y, s) as u64) by {
                assert(g.contains_key((x, y)));
            }
        }
        self.cells = new_cells;
        self.keys = new_keys;
    }
}

/// Case analysis for one processed cell that became alive: how the liveness
/// half of the step invariant advances.
proof fn lemma_step_live_case(
    g: Map<(int, int), bool>,
    s: int,
    w0: Map<(int, int), bool>,
    w1: Map<(int, int), bool>,
    w2: Map<(int, int), bool>,
    ks: Seq<u64>,
    i: int,
    k: u64,
    x: int,
    y: int,
    x2: int,
    y2: int,
)
    requires
        0 <= i < ks.len(),
        ks.no_duplicates(),
        ks[i] == k,
        s >= 1,
        s <= 0x7fff_ffff,
        printable(x, y, s),
        key_at(x, y, s) == k as int,
        becomes_live(g, x, y),
        forall|p: (int, int)| #[trigger] g.contains_key(p) ==> printable(p.0, p.1, s),
        w1 == w0.insert((x, y), true),
        forall|x3: int, y3: int| #![trigger cell_live(w0, x3, y3)]
            cell_live(w0, x3, y3) <==> (becomes_live(g, x3, y3) && ks.subrange(0, i).contains(
                key_at(x3, y3, s) as u64,
            )),
        forall|p: (int, int)| #![trigger w2.contains_key(p)]
            w2.contains_key(p) <==> (w1.contains_key(p) || (printable(p.0, p.1, s) && exists|
            jj: int,
            |
                #![trigger neighbor_offset(jj)]
                0 <= jj < 8 && p == (x + neighbor_offset(jj).0, y + neighbor_offset(jj).1))),
        forall|p: (int, int)| #![trigger w2[p]]
            w2.contains_key(p) ==> w2[p] == (if w1.contains_key(p) {
                w1[p]
            } else {
                false
            }),
    ensures
        cell_live(w2, x2, y2) <==> (becomes_live(g, x2, y2) && ks.subrange(0, i + 1).contains(
            key_at(x2, y2, s) as u64,
        )),
{
    broadcast use lemma_seq_contains_after_push;

    let pre0 = ks.subrange(0, i);
    let pre1 = ks.subrange(0, i + 1);
    assert(pre1 =~= pre0.push(k));
    lemma_key_at_bounds(x, y, s);
    if x2 == x && y2 == y {
        assert(w2.contains_key((x, y)));
        assert(cell_live(w2, x, y));
        assert(pre1.contains(k));
    } else {
        if becomes_live(g, x2, y2) && pre1.contains(key_at(x2, y2, s) as u64) {
            assert(g.contains_key((x2, y2)));
            assert(printable(x2, y2, s));
            lemma_key_at_bounds(x2, y2, s);
            if key_at(x2, y2, s) as u64 == k {
                lemma_key_at_injective(x2, y2, x, y, s);
                assert(false);
            }
            assert(pre0.contains(key_at(x2, y2, s) as u64));
            assert(cell_live(w0, x2, y2));
            assert(cell_live(w2, x2, y2));
        }
        if cell_live(w2, x2, y2) {
            assert(w1.contains_key((x2, y2)) && w1[(x2, y2)]);
            assert(cell_live(w0, x2, y2));
            assert(pre0.contains(key_at(x2, y2, s) as u64));
            assert(pre1.contains(key_at(x2, y2, s) as u64));
        }
    }
}

/// Case analysis for one processed cell that became alive: how the tracking
/// half of the step invariant advances.
proof fn lemma_step_tracked_case(
    g: Map<(int, int), bool>,
    s: int,
    w0: Map<(int, int), bool>,
    w1: Map<(int, int), bool>,
    w2: Map<(int, int), bool>,
    ks: Seq<u64>,
    i: int,
    k: u64,
    x: int,
    y: int,
    x2: int,
    y2: int,
)
    requires
        0 <= i < ks.len(),
        ks.no_duplicates(),
        ks[i] == k,
        s >= 1,
        s <= 0x7fff_ffff,
        printable(x, y, s),
        key_at(x, y, s) == k as int,
        becomes_live(g, x, y),
        forall|p: (int, int)| #[trigger] g.contains_key(p) ==> printable(p.0, p.1, s),
        w1 == w0.insert((x, y), true),
        forall|x3: int, y3: int| #![trigger w0.contains_key((x3, y3))]
            w0.contains_key((x3, y3)) <==> ((becomes_live(g, x3, y3) && ks.subrange(0, i).contains(
                key_at(x3, y3, s) as u64,
            )) || (printable(x3, y3, s) && exists|j2: int|
                #![trigger neighbor_offset(j2)]
                0 <= j2 < 8 && becomes_live(
                    g,
                    x3 + neighbor_offset(j2).0,
                    y3 + neighbor_offset(j2).1,
                ) && ks.subrange(0, i).contains(
                    key_at(x3 + neighbor_offset(j2).0, y3 + neighbor_offset(j2).1, s) as u64,
                ))),
        forall|p: (int, int)| #![trigger w2.contains_key(p)]
            w2.contains_key(p) <==> (w1.contains_key(p) || (printable(p.0, p.1, s) && exists|
            jj: int,
            |
                #![trigger neighbor_offset(jj)]
                0 <= jj < 8 && p == (x + neighbor_offset(jj).0, y + neighbor_offset(jj).1))),
    ensures
        w2.contains_key((x2, y2)) <==> ((becomes_live(g, x2, y2) && ks.subrange(0, i + 1).contains(
            key_at(x2, y2, s) as u64,
        )) || (printable(x2, y2, s) && exists|j2: int|
            #![trigger neighbor_offset(j2)]
            0 <= j2 < 8 && becomes_live(g, x2 + neighbor_offset(j2).0, y2 + neighbor_offset(j2).1)
                && ks.subrange(0, i + 1).contains(
                key_at(x2 + neighbor_offset(j2).0, y2 + neighbor_offset(j2).1, s) as u64,
            ))),
{
    broadcast use lemma_seq_contains_after_push;

    let pre0 = ks.subrange(0, i);
    let pre1 = ks.subrange(0, i + 1);
    assert(pre1 =~= pre0.push(k));
    lemma_key_at_bounds(x, y, s);
    let p = (x2, y2);
    if w2.contains_key(p) {
        // Left to right.
        if w1.contains_key(p) {
            if p == (x, y) {
                assert(becomes_live(g, x2, y2) && pre1.contains(key_at(x2, y2, s) as u64));
            } else {
                assert(w0.contains_key(p));
                if becomes_live(g, x2, y2) && pre0.contains(key_at(x2, y2, s) as u64) {
                    assert(pre1.contains(key_at(x2, y2, s) as u64));
                } else {
                    let j2 = choose|j2: int|
                        #![trigger neighbor_offset(j2)]
                        0 <= j2 < 8 && becomes_live(
                            g,
                            x2 + neighbor_offset(j2).0,
                            y2 + neighbor_offset(j2).1,
                        ) && pre0.contains(
                            key_at(x2 + neighbor_offset(j2).0, y2 + neighbor_offset(j2).1, s) as u64,
                        );
                    assert(pre1.contains(
                        key_at(x2 + neighbor_offset(j2).0, y2 + neighbor_offset(j2).1, s) as u64,
                    ));
                }
            }
        } else {
            let jj = choose|jj: int|
                #![trigger neighbor_offset(jj)]
                0 <= jj < 8 && p == (x + neighbor_offset(jj).0, y + neighbor_offset(jj).1);
            let nj = if jj < 4 {
                jj + 4
            } else {
                jj - 4
            };
            lemma_offset_negation(jj);
            assert(x2 + neighbor_offset(nj).0 == x && y2 + neighbor_offset(nj).1 == y);
            assert(pre1.contains(k));
            assert(0 <= nj < 8 && becomes_live(
                g,
                x2 + neighbor_offset(nj).0,
                y2 + neighbor_offset(nj).1,
            ) && pre1.contains(
                key_at(x2 + neighbor_offset(nj).0, y2 + neighbor_offset(nj).1, s) as u64,
            ));
        }
    }
    // Right to left.
    if becomes_live(g, x2, y2) && pre1.contains(key_at(x2, y2, s) as u64) {
        assert(g.contains_key((x2, y2)));
        assert(printable(x2, y2, s));
        lemma_key_at_bounds(x2, y2, s);
        if key_at(x2, y2, s) as u64 == k {
            lemma_key_at_injective(x2, y2, x, y, s);
            assert(p == (x, y));
            assert(w2.contains_key(p));
        } else {
            assert(pre0.contains(key_at(x2, y2, s) as u64));
            assert(w0.contains_key(p));
            assert(w2.contains_key(p));
        }
    }
    if printable(x2, y2, s) {
        if exists|j2: int|
            #![trigger neighbor_offset(j2)]
            0 <= j2 < 8 && becomes_live(g, x2 + neighbor_offset(j2).0, y2 + neighbor_offset(j2).1)
                && pre1.contains(
                key_at(x2 + neighbor_offset(j2).0, y2 + neighbor_offset(j2).1, s) as u64,
            ) {
            let j2 = choose|j2: int|
                #![trigger neighbor_offset(j2)]
                0 <= j2 < 8 && becomes_live(
                    g,
                    x2 + neighbor_offset(j2).0,
                    y2 + neighbor_offset(j2).1,
                ) && pre1.contains(
                    key_at(x2 + neighbor_offset(j2).0, y2 + neighbor_offset(j2).1, s) as u64,
                );
            let qx = x2 + neighbor_offset(j2).0;
            let qy = y2 + neighbor_offset(j2).1;
            assert(g.contains_key((qx, qy)));
            assert(printable(qx, qy, s));
            lemma_key_at_bounds(qx, qy, s);
            if key_at(qx, qy, s) as u64 == k {
                lemma_key_at_injective(qx, qy, x, y, s);
                let nj = if j2 < 4 {
                    j2 + 4
                } else {
                    j2 - 4
                };
                lemma_offset_negation(j2);
                assert(p == (x + neighbor_offset(nj).0, y + neighbor_offset(nj).1));
                assert(0 <= nj < 8 && p == (x + neighbor_offset(nj).0, y + neighbor_offset(nj).1));
                assert(w2.contains_key(p));
            } else {
                assert(pre0.contains(key_at(qx, qy, s) as u64));
                assert(w0.contains_key(p));
                assert(w2.contains_key(p));
            }
        }
    }
}

/// Case analysis for one processed cell that stays or turns dead: the step
/// invariant advances with nothing inserted.
proof fn lemma_skip_key(
    g: Map<(int, int), bool>,
    s: int,
    ks: Seq<u64>,
    i: int,
    k: u64,
    x: int,
    y: int,
    x2: int,
    y2: int,
)
    requires
        0 <= i < ks.len(),
        ks.no_duplicates(),
        ks[i] == k,
        s >= 1,
        s <= 0x7fff_ffff,
        printable(x, y, s),
        key_at(x, y, s) == k as int,
        !becomes_live(g, x, y),
        forall|p: (int, int)| #[trigger] g.contains_key(p) ==> printable(p.0, p.1, s),
    ensures
        (becomes_live(g, x2, y2) && ks.subrange(0, i + 1).contains(key_at(x2, y2, s) as u64)) <==> (
        becomes_live(g, x2, y2) && ks.subrange(0, i).contains(key_at(x2, y2, s) as u64)),
{
    broadcast use lemma_seq_contains_after_push;

    let pre0 = ks.subrange(0, i);
    let pre1 = ks.subrange(0, i + 1);
    assert(pre1 =~= pre0.push(k));
    lemma_key_at_bounds(x, y, s);
    if becomes_live(g, x2, y2) && pre1.contains(key_at(x2, y2, s) as u64) {
        assert(g.contains_key((x2, y2)));
        assert(printable(x2, y2, s));
        lemma_key_at_bounds(x2, y2, s);
        if key_at(x2, y2, s) as u64 == k {
            lemma_key_at_injective(x2, y2, x, y, s);
            assert(false);
        }
        assert(pre0.contains(key_at(x2, y2, s) as u64));
    }
}

/// The character standing for one cell: `#` alive, `.` dead or untracked.
pub open spec fn cell_char(g: Map<(int, int), bool>, x: int, y: int) -> char {
    if cell_live(g, x, y) {
        '#'
    } else {
        '.'
    }
}

/// The first `n` cells of row `y` as text: cells separated by single spaces.
pub open spec fn render_row(g: Map<(int, int), bool>, y: int, n: int) -> Seq<char>
    decreases n,
{
    if n <= 0 {
        Seq::empty()
    } else {
        render_row(g, y, n - 1) + (if n == 1 {
            Seq::empty()
        } else {
            seq![' ']
        }) + seq![cell_char(g, n - 1, y)]
    }
}

/// The first `rows` rows of the board as text, each row ended by a newline.
pub open spec fn render_rows(g: Map<(int, int), bool>, size: int, rows: int) -> Seq<char>
    decreases rows,
{
    if rows <= 0 {
        Seq::empty()
    } else {
        render_rows(g, size, rows - 1) + render_row(g, rows - 1, size) + seq!['\n']
    }
}

/// The whole board as text: `size` rows of `size` space-separated cells.
pub open spec fn render_spec(g: Map<(int, int), bool>, size: int) -> Seq<char> {
    render_rows(g, size, size)
}

/// A tracked dead cell is born exactly when it has 3 live neighbors; with any
/// other count, 2 or 4 included, it stays dead.
pub proof fn lemma_birth_rule(g: Map<(int, int), bool>, x: int, y: int)
    requires
        g.contains_key((x, y)),
        !g[(x, y)],
    ensures
        becomes_live(g, x, y) <==> live_neighbor_count(g, x, y) == 3,
{
}

/// A tracked live cell survives exactly when it has 2 or 3 live neighbors.
pub proof fn lemma_survival_rule(g: Map<(int, int), bool>, x: int, y: int)
    requires
        g.contains_key((x, y)),
        g[(x, y)],
    ensures
        becomes_live(g, x, y) <==> (live_neighbor_count(g, x, y) == 2 || live_neighbor_count(
            g,
            x,
            y,
        ) == 3),
{
}

/// A cell that is not tracked stays dead over a step, whatever its neighbors
/// hold.
pub proof fn lemma_untracked_stays_dead(g: Map<(int, int), bool>, x: int, y: int)
    requires
        !g.contains_key((x, y)),
    ensures
        !becomes_live(g, x, y),
{
}

/// The cells counted so far by a scan of the first `i` keys: the live cells
/// whose key lies in that prefix.
spec fn live_seen(v: Map<(int, int), bool>, ks: Seq<u64>, s: int, i: int) -> Set<(int, int)> {
    Set::new(
        |p: (int, int)| v.contains_key(p) && v[p] && ks.subrange(0, i).contains(
            key_at(p.0, p.1, s) as u64,
        ),
    )
}

/// The decoded mapping has exactly one entry per key of the sparse mapping.
proof fn lemma_view_dom(m: Map<u64, bool>, keys: Seq<u64>, size: int)
    requires
        raw_inv(m, keys, size),
        size <= 0x7fff_ffff,
    ensures
        view_of(m, size).dom().finite(),
        view_of(m, size).dom().len() == keys.len(),
{
    let v = view_of(m, size);
    assert(m.dom() =~= keys.to_set());
    keys.unique_seq_to_set();
    if keys.len() == 0 {
        assert forall|p: (int, int)| !v.dom().contains(p) by {
            if m.contains_key(key_at(p.0, p.1, size) as u64) {
                assert(keys.contains(key_at(p.0, p.1, size) as u64));
            }
        }
        assert(v.dom() =~= Set::<(int, int)>::empty());
    } else {
        assert(keys.contains(keys[0]));
        assert(m.contains_key(keys[0]));
        assert(size >= 1);
        let f = |k: u64| ((k as int) % size, (k as int) / size);
        assert forall|p: (int, int)| #[trigger] v.dom().contains(p) implies m.dom().map(
            f,
        ).contains(p) by {
            lemma_key_at_bounds(p.0, p.1, size);
            let k0 = key_at(p.0, p.1, size) as u64;
            vstd::arithmetic::div_mod::lemma_fundamental_div_mod_converse_div(
                key_at(p.0, p.1, size),
                size,
                p.1,
                p.0,
            );
            vstd::arithmetic::div_mod::lemma_fundamental_div_mod_converse_mod(
                key_at(p.0, p.1, size),
                size,
                p.1,
                p.0,
            );
            assert(f(k0) == p);
            assert(m.dom().contains(k0));
        }
        assert forall|p: (int, int)| #[trigger] m.dom().map(f).contains(p) implies v.dom().contains(
            p,
        ) by {
            let k = choose|k: u64| m.dom().contains(k) && f(k) == p;
            let ki = k as int;
            vstd::arithmetic::div_mod::lemma_fundamental_div_mod(ki, size);
            vstd::arithmetic::div_mod::lemma_mod_bound(ki, size);
            let q = ki / size;
            let r = ki % size;
            assert(0 <= q && q < size) by (nonlinear_arith)
                requires
                    ki == size * q + r,
                    0 <= r && r < size,
                    0 <= ki,
                    ki < size * size,
            ;
            assert(q * size + r == size * q + r) by (nonlinear_arith);
            assert(key_at(r, q, size) == ki);
            assert(printable(r, q, size));
            assert(m.contains_key(key_at(r, q, size) as u64));
            assert(v.dom().contains((r, q)));
        }
        assert(m.dom().map(f) =~= v.dom());
        assert(vstd::relations::injective_on(f, m.dom())) by {
            assert forall|k1: u64, k2: u64|
                m.dom().contains(k1) && m.dom().contains(k2) && #[trigger] f(k1) == #[trigger] f(
                    k2,
                ) implies k1 == k2 by {
                vstd::arithmetic::div_mod::lemma_fundamental_div_mod(k1 as int, size);
                vstd::arithmetic::div_mod::lemma_fundamental_div_mod(k2 as int, size);
            }
        }
        vstd::set_lib::lemma_map_size(m.dom(), v.dom(), f);
    }
}

/// A grid tracks at most one cell per printable point.
proof fn lemma_keys_len_bound(m: Map<u64, bool>, keys: Seq<u64>, size: int)
    requires
        raw_inv(m, keys, size),
        size <= 0x7fff_ffff,
    ensures
        keys.len() <= size * size,
{
    assert(m.dom() =~= keys.to_set());
    keys.unique_seq_to_set();
    if keys.len() == 0 {
        assert(size * size >= 0) by (nonlinear_arith);
    } else {
        assert(keys.contains(keys[0]));
        assert(m.contains_key(keys[0]));
        assert(size >= 1);
        assert(size * size < 0x4000_0000_0000_0000) by (nonlinear_arith)
            requires
                1 <= size <= 0x7fff_ffff,
        ;
        let rng = vstd::set_lib::set_int_range(0, size * size);
        vstd::set_lib::lemma_int_range(0, size * size);
        let fu = |a: int| a as u64;
        let img = rng.map(fu);
        assert(vstd::relations::injective_on(fu, rng));
        vstd::set_lib::lemma_map_size(rng, img, fu);
        assert forall|k: u64| #[trigger] keys.to_set().contains(k) implies img.contains(k) by {
            assert(m.contains_key(k));
            assert(rng.contains(k as int));
            assert(fu(k as int) == k);
        }
        vstd::set_lib::lemma_len_subset(keys.to_set(), img);
    }
}

impl Grid {
    /// Force cell `(x, y)` alive and track its printable neighbors.
    ///
    /// A point outside the printable region is ignored. Otherwise the cell is
    /// marked alive whatever its previous state, and each of its 8 compass
    /// neighbors that lies on the board and is not yet tracked is inserted as
    /// tracked-dead, exactly as a birth during a step would track them.
    #[verifier::loop_isolation(false)]
    pub fn set_live(&mut self, x: i32, y: i32)
        requires
            old(self).wf(),
        ensures
            final(self).wf(),
            final(self).spec_size() == old(self).spec_size(),
            !printable(x as int, y as int, old(self).spec_size()) ==> final(self)@ == old(self)@,
            printable(x as int, y as int, old(self).spec_size()) ==> {
                &&& forall|p: (int, int)| #![trigger final(self)@.contains_key(p)]
                    final(self)@.contains_key(p) <==> (old(self)@.contains_key(p) || p == (
                    x as int,
                    y as int,
                ) || (printable(p.0, p.1, old(self).spec_size()) && exists|j: int|
                    #![trigger neighbor_offset(j)]
                    0 <= j < 8 && p == (x as int + neighbor_offset(j).0, y as int + neighbor_offset(
                        j,
                    ).1)))
                &&& cell_live(final(self)@, x as int, y as int)
                &&& forall|p: (int, int)| #![trigger final(self)@[p]]
                    final(self)@.contains_key(p) && p != (x as int, y as int) ==> final(self)@[p]
                        == (if old(self)@.contains_key(p) {
                        old(self)@[p]
                    } else {
                        false
                    })
            },
    {
        let ghost g = self@;
        let ghost s = self.spec_size();
        if !(0 <= x && x < self.size && 0 <= y && y < self.size) {
            return ;
        }
        let size = self.size;
        put_cell(&mut self.cells, &mut self.keys, size, x, y, true, true);
        let ghost w1 = view_of(self.cells@, s);
        proof {
            assert(w1 == g.insert((x as int, y as int), true));
        }
        let mut j: usize = 0;
        while j < 8
            invariant
                j <= 8,
                raw_inv(self.cells@, self.keys@, s),
                self.size == size,
                forall|p: (int, int)| #![trigger view_of(self.cells@, s).contains_key(p)]
                    view_of(self.cells@, s).contains_key(p) <==> (w1.contains_key(p) || (printable(
                        p.0,
                        p.1,
                        s,
                    ) && exists|jj: int|
                        #![trigger neighbor_offset(jj)]
                        0 <= jj < j as int && p == ((x as int) + neighbor_offset(jj).0, (y as int)
                            + neighbor_offset(jj).1))),
                forall|p: (int, int)| #![trigger view_of(self.cells@, s)[p]]
                    view_of(self.cells@, s).contains_key(p) ==> view_of(self.cells@, s)[p] == (if
                    w1.contains_key(p) {
                        w1[p]
                    } else {
                        false
                    }),
            decreases 8 - j,
        {
            let ghost wa = view_of(self.cells@, s);
            let d = neighbor_delta(j);
            let nx = x + d.0;
            let ny = y + d.1;
            if 0 <= nx && nx < size {
                if 0 <= ny && ny < size {
                    put_cell(&mut self.cells, &mut self.keys, size, nx, ny, false, false);
                }
            }
            proof {
                let wb = view_of(self.cells@, s);
                let np = ((x as int) + neighbor_offset(j as int).0, (y as int) + neighbor_offset(
                    j as int,
                ).1);
                assert forall|p: (int, int)| #![trigger wb.contains_key(p)]
                    wb.contains_key(p) <==> (w1.contains_key(p) || (printable(p.0, p.1, s)
                        && exists|jj: int|
                        #![trigger neighbor_offset(jj)]
                        0 <= jj < j as int + 1 && p == ((x as int) + neighbor_offset(jj).0, (
                        y as int) + neighbor_offset(jj).1))) by {
                    if p == np && printable(np.0, np.1, s) {
                        assert(0 <= (j as int) && (j as int) < 8 && p == ((x as int)
                            + neighbor_offset(j as int).0, (y as int) + neighbor_offset(
                            j as int,
                        ).1));
                    }
                    if wa.contains_key(p) && !wb.contains_key(p) {
                        assert(false);
                    }
                }
            }
            j = j + 1;
        }
    }

    /// Scatter random live cells over the middle of the board.
    ///
    /// A random window divisor in `[4, 12)` confines the seeds to
    /// `[size / window, size - size / window)` on both axes. For each of
    /// `num_live` rounds one random point is drawn; if not yet tracked it is
    /// marked alive, and so are its first `min(init_neighbors, 4)` compass
    /// neighbors that are printable and not yet tracked. Nothing is ever
    /// removed or overwritten: cells already tracked keep their flag, so every
    /// newly tracked cell is alive and printable, and at most
    /// `num_live * (1 + min(init_neighbors, 4))` cells are added.
    #[verifier::loop_isolation(false)]
    pub fn seed(&mut self, num_live: u32, init_neighbors: usize)
        requires
            old(self).wf(),
            old(self).spec_size() >= 1,
        ensures
            final(self).wf(),
            final(self).spec_size() == old(self).spec_size(),
            forall|p: (int, int)| #[trigger]
                old(self)@.contains_key(p) ==> final(self)@.contains_key(p) && final(self)@[p]
                    == old(self)@[p],
            forall|p: (int, int)| #[trigger]
                final(self)@.contains_key(p) ==> old(self)@.contains_key(p) || (final(self)@[p]
                    == true && printable(p.0, p.1, old(self).spec_size())),
            final(self)@.dom().len() <= old(self)@.dom().len() + (num_live as int) * (1 + (if
            init_neighbors > 4 {
                4int
            } else {
                init_neighbors as int
            })),
            (num_live > 0 && old(self)@ == Map::<(int, int), bool>::empty()) ==> live_set(
                final(self)@,
            ).len() > 0,
    {
        let ghost g = self@;
        let ghost s = self.spec_size();
        let ghost k0 = self.keys@.len();
        let ghost kk: int = if init_neighbors > 4 {
            4
        } else {
            init_neighbors as int
        };
        proof {
            lemma_view_dom(self.cells@, self.keys@, s);
        }
        let size = self.size;
        let window = crate::rng::rand_range(4, 12);
        let lo = size / window;
        let hi = size - lo;
        proof {
            vstd::arithmetic::div_mod::lemma_div_pos_is_pos(size as int, window as int);
            vstd::arithmetic::div_mod::lemma_div_is_ordered_by_denominator(
                size as int,
                4,
                window as int,
            );
            vstd::arithmetic::div_mod::lemma_fundamental_div_mod(size as int, 4);
            vstd::arithmetic::div_mod::lemma_mod_bound(size as int, 4);
            assert(lo < hi);
        }
        let mut it: u32 = 0;
        while it < num_live
            invariant
                it <= num_live,
                self.size == size,
                s == size as int,
                raw_inv(self.cells@, self.keys@, s),
                forall|p: (int, int)| #[trigger]
                    g.contains_key(p) ==> view_of(self.cells@, s).contains_key(p) && view_of(
                        self.cells@,
                        s,
                    )[p] == g[p],
                forall|p: (int, int)| #[trigger]
                    view_of(self.cells@, s).contains_key(p) ==> g.contains_key(p) || (view_of(
                        self.cells@,
                        s,
                    )[p] == true && printable(p.0, p.1, s)),
                self.keys@.len() <= k0 + (it as int) * (1 + kk),
                (g == Map::<(int, int), bool>::empty() && it > 0) ==> exists|x2: int, y2: int|
                    cell_live(view_of(self.cells@, s), x2, y2),
            decreases num_live - it,
        {
            let ghost w0 = view_of(self.cells@, s);
            let ghost klen0 = self.keys@.len();
            let x = crate::rng::rand_range(lo, hi);
            let y = crate::rng::rand_range(lo, hi);
            let kmax: usize = if init_neighbors > 4 {
                4
            } else {
                init_neighbors
            };
            put_cell(&mut self.cells, &mut self.keys, size, x, y, true, false);
            let ghost w1 = view_of(self.cells@, s);
            let ghost klen1 = self.keys@.len();
            proof {
                if g == Map::<(int, int), bool>::empty() {
                    assert(cell_live(w1, x as int, y as int)) by {
                        if w0.contains_key((x as int, y as int)) {
                            assert(w0[(x as int, y as int)] == true);
                        }
                    }
                }
            }
            let mut j: usize = 0;
            while j < kmax
                invariant
                    j <= kmax,
                    kmax <= 4,
                    kk == kmax as int,
                    self.size == size,
                    raw_inv(self.cells@, self.keys@, s),
                    forall|p: (int, int)| #[trigger]
                        w1.contains_key(p) ==> view_of(self.cells@, s).contains_key(p) && view_of(
                            self.cells@,
                            s,
                        )[p] == w1[p],
                    forall|p: (int, int)| #[trigger]
                        view_of(self.cells@, s).contains_key(p) ==> w1.contains_key(p) || (view_of(
                            self.cells@,
                            s,
                        )[p] == true && printable(p.0, p.1, s)),
                    self.keys@.len() <= klen1 + j as int,
                    (g == Map::<(int, int), bool>::empty()) ==> cell_live(
                        view_of(self.cells@, s),
                        x as int,
                        y as int,
                    ),
                decreases kmax - j,
            {
                let d = neighbor_delta(j);
                let nx = x + d.0;
                let ny = y + d.1;
                if 0 <= nx && nx < size {
                    if 0 <= ny && ny < size {
                        put_cell(&mut self.cells, &mut self.keys, size, nx, ny, true, false);
                    }
                }
                j = j + 1;
            }
            proof {
                assert(self.keys@.len() <= k0 + (it as int) * (1 + kk) + (1 + kk));
                assert((it as int + 1) * (1 + kk) == (it as int) * (1 + kk) + (1 + kk))
                    by (nonlinear_arith);
                let vend = view_of(self.cells@, s);
                assert forall|p: (int, int)| #[trigger] g.contains_key(p) implies vend.contains_key(
                    p,
                ) && vend[p] == g[p] by {
                    assert(w0.contains_key(p) && w0[p] == g[p]);
                    assert(w1.contains_key(p) && w1[p] == w0[p]);
                }
                assert forall|p: (int, int)| #[trigger] vend.contains_key(p) implies g.contains_key(
                    p,
                ) || (vend[p] == true && printable(p.0, p.1, s)) by {
                    if w1.contains_key(p) {
                        if w0.contains_key(p) {
                            if !g.contains_key(p) {
                                assert(w0[p] == true && printable(p.0, p.1, s));
                                assert(vend[p] == w1[p]);
                            }
                        } else {
                            assert(w1[p] == true && printable(p.0, p.1, s));
                            assert(vend[p] == w1[p]);
                        }
                    }
                }
                if g == Map::<(int, int), bool>::empty() {
                    assert(cell_live(view_of(self.cells@, s), x as int, y as int));
                }
            }
            it = it + 1;
        }
        proof {
            lemma_view_dom(self.cells@, self.keys@, s);
            let v = view_of(self.cells@, s);
            if num_live > 0 && g == Map::<(int, int), bool>::empty() {
                let (x2, y2) = choose|x2: int, y2: int| cell_live(v, x2, y2);
                assert(v.dom().contains((x2, y2)));
                assert(live_set(v).contains((x2, y2)));
                vstd::set_lib::lemma_set_subset_finite(v.dom(), live_set(v));
                if live_set(v).len() == 0 {
                    live_set(v).lemma_len0_is_empty();
                }
            }
        }
    }

    /// Render the board as text: one line per row, cells space-separated,
    /// alive cells as `#`, dead or untracked cells as `.`.
    #[verifier::loop_isolation(false)]
    pub fn render(&self) -> (out: String)
        requires
            self.wf(),
        ensures
            out@ == render_spec(self@, self.spec_size()),
    {
        let ghost gm = self@;
        let ghost s = self.spec_size();
        let mut out = String::new();
        let mut y: i32 = 0;
        proof {
            assert(out@ =~= render_rows(gm, s, 0));
        }
        while y < self.size
            invariant
                0 <= y,
                y <= self.size || y == 0,
                out@ == render_rows(gm, s, y as int),
            decreases self.size - y,
        {
            let mut x: i32 = 0;
            proof {
                assert(render_row(gm, y as int, 0) =~= Seq::<char>::empty());
                assert(out@ =~= render_rows(gm, s, y as int) + render_row(gm, y as int, 0));
            }
            while x < self.size
                invariant
                    0 <= x,
                    x <= self.size,
                    0 <= y < self.size,
                    out@ == render_rows(gm, s, y as int) + render_row(gm, y as int, x as int),
                decreases self.size - x,
            {
                if x > 0 {
                    out.append(" ");
                }
                if self.is_live(x, y) {
                    out.append("#");
                } else {
                    out.append(".");
                }
                proof {
                    reveal_strlit(" ");
                    reveal_strlit("#");
                    reveal_strlit(".");
                    assert(out@ =~= render_rows(gm, s, y as int) + render_row(
                        gm,
                        y as int,
                        x as int + 1,
                    ));
                }
                x = x + 1;
            }
            out.append("\n");
            proof {
                reveal_strlit("\n");
                assert(out@ =~= render_rows(gm, s, y as int + 1));
            }
            y = y + 1;
        }
        proof {
            if self.size <= 0 {
                assert(out@ =~= render_rows(gm, s, s));
            }
        }
        out
    }

    /// How many cells are alive, scanning the whole tracked set.
    #[verifier::loop_isolation(false)]
    pub fn num_live(&self) -> (r: i32)
        requires
            self.wf(),
            self.spec_size() * self.spec_size() <= i32::MAX,
        ensures
            r as int == live_set(self@).len(),
    {
        broadcast use lemma_seq_contains_after_push;

        let ghost v = self@;
        let ghost s = self.spec_size();
        let ghost ks = self.keys@;
        let n = self.keys.len();
        let mut count: usize = 0;
        let mut i: usize = 0;
        proof {
            assert(ks.subrange(0, 0) =~= Seq::<u64>::empty());
            assert(live_seen(v, ks, s, 0) =~= Set::<(int, int)>::empty());
        }
        while i < n
            invariant
                i <= n,
                n == ks.len(),
                count <= i,
                live_seen(v, ks, s, i as int).finite(),
                count as int == live_seen(v, ks, s, i as int).len(),
            decreases n - i,
        {
            let k = self.keys[i];
            proof {
                assert(ks[i as int] == k);
                assert(ks.contains(k));
                assert(self.cells@.contains_key(k));
            }
            let is_alive = match self.cells.get(&k) {
                Some(b) => *b,
                None => false,
            };
            proof {
                let ki = k as int;
                vstd::arithmetic::div_mod::lemma_fundamental_div_mod(ki, s);
                vstd::arithmetic::div_mod::lemma_mod_bound(ki, s);
                let q = ki / s;
                let r = ki % s;
                assert(0 <= q && q < s) by (nonlinear_arith)
                    requires
                        ki == s * q + r,
                        0 <= r && r < s,
                        0 <= ki,
                        ki < s * s,
                ;
                assert(q * s + r == s * q + r) by (nonlinear_arith);
                assert(key_at(r, q, s) == ki);
                assert(printable(r, q, s));
                lemma_key_at_bounds(r, q, s);
                assert(v.contains_key((r, q)) && v[(r, q)] == self.cells@[k]);
                let seen0 = live_seen(v, ks, s, i as int);
                let seen1 = live_seen(v, ks, s, i as int + 1);
                assert(ks.subrange(0, i as int + 1) =~= ks.subrange(0, i as int).push(k));
                if ks.subrange(0, i as int).contains(k) {
                    let jj = choose|jj: int|
                        0 <= jj < i as int && ks.subrange(0, i as int)[jj] == k;
                    assert(ks[jj] == ks[i as int]);
                    assert(false);
                }
                assert forall|p: (int, int)| #[trigger] seen1.contains(p) implies seen0.contains(p)
                    || (is_alive && p == (r, q)) by {
                    assert(printable(p.0, p.1, s));
                    lemma_key_at_bounds(p.0, p.1, s);
                    if key_at(p.0, p.1, s) as u64 == k {
                        lemma_key_at_injective(p.0, p.1, r, q, s);
                    }
                }
                if is_alive {
                    assert(!seen0.contains((r, q)));
                    assert(seen1.contains((r, q)));
                    assert(seen1 =~= seen0.insert((r, q)));
                    assert(seen1.len() == seen0.len() + 1);
                } else {
                    assert forall|p: (int, int)| #[trigger] seen1.contains(p) implies
                        seen0.contains(p) by {
                        if p == (r, q) {
                            assert(!v[(r, q)]);
                        }
                    }
                    assert(seen1 =~= seen0);
                }
            }
            if is_alive {
                count = count + 1;
            }
            i = i + 1;
        }
        proof {
            assert(ks.subrange(0, n as int) =~= ks);
            let seen = live_seen(v, ks, s, n as int);
            assert forall|p: (int, int)| #[trigger] live_set(v).contains(p) implies seen.contains(
                p,
            ) by {
                assert(v.contains_key(p));
                assert(self.cells@.contains_key(key_at(p.0, p.1, s) as u64));
                assert(ks.contains(key_at(p.0, p.1, s) as u64));
            }
            assert(seen =~= live_set(v));
            lemma_keys_len_bound(self.cells@, ks, s);
        }
        count as i32
    }
}

} // verus!
