//! Puzzle boards: the textual grid codec, vehicle extraction, the board state
//! with its derived rendering, and the move generator.

use vstd::prelude::*;
use vstd::arithmetic::div_mod::lemma_fundamental_div_mod_converse;
use crate::fxset::{label_set_new, label_set_insert, label_set_contains, label_set_view};

verus! {

/// What can go wrong while decoding or solving a puzzle.
#[derive(Clone, Copy, Debug, PartialEq, Eq, Structural)]
pub enum PuzzleError {
    /// The text is not 6 lines of 6 symbols, or a vehicle has an illegal shape.
    MalformedInput,
    /// The search exhausted every reachable state without a win.
    NoSolution,
}

// ---------------------------------------------------------------------------
// Grid codec
//
// A grid is a flat array of 36 cell labels, row-major: cell (row r, column c)
// sits at index r * 6 + c. `.` (byte 46) is an empty cell; any other symbol
// belongs to exactly one vehicle. In a text, rows are separated by `\n`
// (byte 10), so row r of the text starts at index r * 7.
// ---------------------------------------------------------------------------

/// Decomposition of a row-major grid index.
proof fn lemma_rc6(r: int, c: int)
    requires
        0 <= r,
        0 <= c < 6,
    ensures
        (r * 6 + c) / 6 == r,
        (r * 6 + c) % 6 == c,
{
    lemma_fundamental_div_mod_converse(r * 6 + c, 6, r, c);
}

/// Decomposition of a text index into its line and column.
proof fn lemma_rc7(r: int, c: int)
    requires
        0 <= r,
        0 <= c < 7,
    ensures
        (r * 7 + c) / 7 == r,
        (r * 7 + c) % 7 == c,
{
    lemma_fundamental_div_mod_converse(r * 7 + c, 7, r, c);
}

/// A well-formed puzzle text: at least 6 lines of exactly 6 symbols each,
/// separated by `\n`, with the terminator of the last line optional.
pub open spec fn text_ok(s: Seq<u8>) -> bool {
    &&& s.len() >= 41
    &&& forall|i: int| 0 <= i < 41 ==> ((#[trigger] s[i]) == 10 <==> i % 7 == 6)
    &&& (s.len() == 41 || s[41] == 10)
}

/// The grid a well-formed text denotes.
pub open spec fn grid_of_text(s: Seq<u8>) -> Seq<u8> {
    Seq::new(36, |k: int| s[(k / 6) * 7 + (k % 6)])
}

/// The canonical text of a grid: each row followed by `\n`.
pub open spec fn text_of_grid(g: Seq<u8>) -> Seq<u8> {
    Seq::new(42, |i: int| if i % 7 == 6 { 10 } else { g[(i / 7) * 6 + (i % 7)] })
}

/// Decodes a puzzle text into a 36-cell grid. The first 6 lines must hold
/// exactly 6 symbols each; anything after them is ignored, as is a missing
/// final line terminator.
pub fn str_to_u8s(text: &[u8]) -> (r: Result<[u8; 36], PuzzleError>)
    ensures
        r is Ok <==> text_ok(text@),
        r matches Ok(g) ==> g@ == grid_of_text(text@),
{
    if text.len() < 41 {
        return Err(PuzzleError::MalformedInput);
    }
    let mut grid: [u8; 36] = [46u8; 36];
    for row in 0..6usize
        invariant
            text@.len() >= 41,
            forall|i: int|
                0 <= i < row * 7 && i < 41 ==> ((#[trigger] text@[i]) == 10 <==> i % 7 == 6),
            forall|k: int| 0 <= k < row * 6 ==> (#[trigger] grid@[k]) == text@[(k / 6) * 7 + (k % 6)],
    {
        for col in 0..6usize
            invariant
                text@.len() >= 41,
                row < 6,
                forall|i: int|
                    0 <= i < row * 7 + col && i < 41 ==> ((#[trigger] text@[i]) == 10 <==> i % 7
                        == 6),
                forall|k: int|
                    0 <= k < row * 6 + col ==> (#[trigger] grid@[k]) == text@[(k / 6) * 7 + (k % 6)],
        {
            let b = text[row * 7 + col];
            if b == 10u8 {
                proof {
                    lemma_rc7(row as int, col as int);
                }
                return Err(PuzzleError::MalformedInput);
            }
            grid[row * 6 + col] = b;
            proof {
                lemma_rc6(row as int, col as int);
                lemma_rc7(row as int, col as int);
            }
        }
        if row < 5 {
            if text[row * 7 + 6] != 10u8 {
                proof {
                    lemma_rc7(row as int, 6);
                }
                return Err(PuzzleError::MalformedInput);
            }
        }
        proof {
            lemma_rc7(row as int, 6);
        }
    }
    if text.len() > 41 {
        if text[41] != 10u8 {
            return Err(PuzzleError::MalformedInput);
        }
    }
    assert(text_ok(text@));
    assert(grid@ =~= grid_of_text(text@));
    Ok(grid)
}

/// Encodes a grid as text: 6 rows of 6 symbols, each followed by `\n`.
pub fn encode(grid: &[u8; 36]) -> (r: Vec<u8>)
    ensures
        r@ == text_of_grid(grid@),
{
    let mut out: Vec<u8> = Vec::new();
    for row in 0..6usize
        invariant
            out@.len() == row * 7,
            forall|i: int| 0 <= i < row * 7 ==> (#[trigger] out@[i]) == text_of_grid(grid@)[i],
    {
        for col in 0..6usize
            invariant
                row < 6,
                out@.len() == row * 7 + col,
                forall|i: int|
                    0 <= i < row * 7 + col ==> (#[trigger] out@[i]) == text_of_grid(grid@)[i],
        {
            out.push(grid[row * 6 + col]);
            proof {
                lemma_rc6(row as int, col as int);
                lemma_rc7(row as int, col as int);
            }
        }
        out.push(10u8);
        proof {
            lemma_rc7(row as int, 6);
        }
    }
    assert(out@ =~= text_of_grid(grid@));
    out
}

// ---------------------------------------------------------------------------
// Vehicles and renderings
// ---------------------------------------------------------------------------

/// One vehicle: an axis, a length (2 cells, or 3 for a "truck"), a cell
/// label, and the (x, y) position of its lowest-index cell.
#[derive(Clone, Copy, Debug)]
pub struct Car {
    pub vertical: bool,
    pub truck: bool,
    pub colour: u8,
    pub x: u8,
    pub y: u8,
}

/// How many cells a car occupies.
pub open spec fn car_len(c: Car) -> int {
    if c.truck {
        3
    } else {
        2
    }
}

/// Flat grid index of a car's anchor cell.
pub open spec fn car_base(c: Car) -> int {
    c.y * 6 + c.x
}

/// Distance between flat indices of a car's consecutive cells.
pub open spec fn car_step(c: Car) -> int {
    if c.vertical {
        6
    } else {
        1
    }
}

/// A car whose label is a vehicle symbol and whose cells lie on the grid.
pub open spec fn car_ok(c: Car) -> bool {
    &&& c.colour != 46
    &&& c.colour != 10
    &&& if c.vertical {
        c.x < 6 && c.y + car_len(c) <= 6
    } else {
        c.y < 6 && c.x + car_len(c) <= 6
    }
}

/// Whether a car occupies the cell with flat index `k`.
pub open spec fn occ(c: Car, k: int) -> bool {
    ||| k == car_base(c)
    ||| k == car_base(c) + car_step(c)
    ||| (c.truck && k == car_base(c) + 2 * car_step(c))
}

/// The cells of a well-placed car lie on the grid.
pub broadcast proof fn lemma_occ_in_range(c: Car, k: int)
    requires
        car_ok(c),
        #[trigger] occ(c, k),
    ensures
        0 <= k < 36,
{
}

/// A well-formed vehicle list: every car well placed, no two cars sharing a
/// cell, no two cars sharing a label.
pub open spec fn cars_ok(cs: Seq<Car>) -> bool {
    &&& forall|i: int| 0 <= i < cs.len() ==> car_ok(#[trigger] cs[i])
    &&& forall|i: int, j: int, k: int|
        #![trigger occ(cs[i], k), occ(cs[j], k)]
        0 <= i < cs.len() && 0 <= j < cs.len() && i != j ==> !(occ(cs[i], k) && occ(cs[j], k))
    &&& forall|i: int, j: int|
        #![trigger cs[i], cs[j]]
        0 <= i < j < cs.len() ==> cs[i].colour != cs[j].colour
}

/// The all-empty grid.
pub open spec fn empty_grid() -> Seq<u8> {
    Seq::new(36, |k: int| 46u8)
}

/// `g` with the cells of `c` painted in `c`'s label.
pub open spec fn paint(g: Seq<u8>, c: Car) -> Seq<u8> {
    Seq::new(36, |k: int| if occ(c, k) { c.colour } else { g[k] })
}

/// The rendering of a vehicle list: its cars painted, in order, over an empty
/// grid.
pub open spec fn render(cs: Seq<Car>) -> Seq<u8>
    decreases cs.len(),
{
    if cs.len() == 0 {
        empty_grid()
    } else {
        paint(render(cs.drop_last()), cs.last())
    }
}

/// Whether any car of `cs` occupies cell `k`.
pub open spec fn covered(cs: Seq<Car>, k: int) -> bool {
    exists|i: int| 0 <= i < cs.len() && occ(#[trigger] cs[i], k)
}

/// On a well-formed vehicle list the rendering reads back cell by cell: a
/// cell occupied by a car shows that car's label, every other cell is empty.
pub proof fn lemma_render_char(cs: Seq<Car>)
    requires
        cars_ok(cs),
    ensures
        render(cs).len() == 36,
        forall|i: int, k: int|
            0 <= i < cs.len() && #[trigger] occ(cs[i], k) ==> render(cs)[k] == cs[i].colour,
        forall|k: int| 0 <= k < 36 && !covered(cs, k) ==> #[trigger] render(cs)[k] == 46,
    decreases cs.len(),
{
    if cs.len() > 0 {
        let cs0 = cs.drop_last();
        let c = cs.last();
        assert(cars_ok(cs0)) by {
            assert(forall|i: int| 0 <= i < cs0.len() ==> cs0[i] == cs[i]);
        }
        lemma_render_char(cs0);
        assert forall|i: int, k: int|
            0 <= i < cs.len() && #[trigger] occ(cs[i], k) implies render(cs)[k] == cs[i].colour by {
            lemma_occ_in_range(cs[i], k);
            if i == cs.len() - 1 {
                assert(occ(c, k));
            } else {
                assert(!occ(c, k));
                assert(cs0[i] == cs[i]);
                assert(render(cs0)[k] == cs[i].colour);
            }
        }
        assert forall|k: int| 0 <= k < 36 && !covered(cs, k) implies #[trigger] render(cs)[k]
            == 46 by {
            assert(!occ(c, k)) by {
                assert(cs[cs.len() - 1] == c);
            }
            assert(!covered(cs0, k)) by {
                if covered(cs0, k) {
                    let i = choose|i: int| 0 <= i < cs0.len() && occ(#[trigger] cs0[i], k);
                    assert(cs[i] == cs0[i]);
                }
            }
        }
    }
}

/// One search state: a vehicle list, its derived grid rendering, and the
/// slides taken to reach it from the initial state.
#[derive(Debug)]
pub struct Board {
    pub cars: Vec<Car>,
    pub array: [u8; 36],
    pub moves: Vec<[u8; 3]>,
}

impl Board {
    /// A board is well formed when its vehicle list is and the rendering is
    /// derived from it.
    pub open spec fn wf(&self) -> bool {
        &&& cars_ok(self.cars@)
        &&& self.array@ == render(self.cars@)
    }

    /// Whether the vehicle whose anchor is at `(x, y)` runs vertically: the
    /// cell below the anchor shares its label. Assumes the anchor really is a
    /// vehicle's lowest-index cell on a well-formed grid.
    pub fn is_vertical(grid: [u8; 36], x: usize, y: usize) -> (r: bool)
        requires
            x < 6,
            y < 6,
        ensures
            r == vertical_at(grid@, x as int, y as int),
    {
        y < 5 && grid[y * 6 + x] == grid[(y + 1) * 6 + x]
    }

    /// Whether the vehicle whose anchor is at `(x, y)` is 3 cells long: the
    /// cell two steps along its axis shares its label.
    pub fn is_truck(grid: [u8; 36], x: usize, y: usize) -> (r: bool)
        requires
            x < 6,
            y < 6,
        ensures
            r == truck_at(grid@, x as int, y as int),
    {
        let colour = grid[y * 6 + x];
        if Self::is_vertical(grid, x, y) {
            y < 4 && grid[(y + 2) * 6 + x] == colour
        } else {
            x < 4 && grid[y * 6 + x + 2] == colour
        }
    }

    /// Renders a vehicle list as a grid.
    pub fn gen_u8s(cars: &Vec<Car>) -> (r: [u8; 36])
        requires
            forall|i: int| 0 <= i < cars@.len() ==> car_ok(#[trigger] cars@[i]),
        ensures
            r@ == render(cars@),
    {
        let mut grid: [u8; 36] = [46u8; 36];
        assert(grid@ =~= render(cars@.take(0)));
        for ci in 0..cars.len()
            invariant
                forall|i: int| 0 <= i < cars@.len() ==> car_ok(#[trigger] cars@[i]),
                grid@ == render(cars@.take(ci as int)),
        {
            let car = cars[ci];
            let ghost pre = grid@;
            let base = (car.y as usize) * 6 + (car.x as usize);
            let step: usize = if car.vertical {
                6
            } else {
                1
            };
            grid[base] = car.colour;
            grid[base + step] = car.colour;
            if car.truck {
                grid[base + 2 * step] = car.colour;
            }
            proof {
                assert(grid@ =~= paint(pre, car));
                assert(cars@.take(ci + 1).drop_last() =~= cars@.take(ci as int));
                assert(cars@.take(ci + 1).last() == car);
            }
        }
        assert(cars@.take(cars@.len() as int) =~= cars@);
        grid
    }
}

/// A grid that is exactly the rendering of some well-formed vehicle list.
pub open spec fn grid_well_formed(g: Seq<u8>) -> bool {
    exists|cs: Seq<Car>| cars_ok(cs) && render(cs) == g
}

/// Whether some entry of the list is exactly this car.
pub open spec fn has_car(cs: Seq<Car>, c: Car) -> bool {
    exists|j: int| 0 <= j < cs.len() && #[trigger] cs[j] == c
}

/// The labels already scanned past: the empty-cell label, and the label of
/// every vehicle whose anchor lies before `pos` in row-major order.
pub open spec fn anchor_labels(cs: Seq<Car>, pos: int) -> Set<u8> {
    Set::new(
        |b: u8|
            b == 46 || exists|w: int|
                0 <= w < cs.len() && (#[trigger] cs[w]).colour == b && car_base(cs[w]) < pos,
    )
}

/// At a cell holding the first occurrence of a vehicle label in row-major
/// order, the vehicle anchored there is recovered exactly by the orientation
/// and length lookahead tests.
pub proof fn lemma_anchor_car(wcs: Seq<Car>, g: Seq<u8>, x: int, y: int) -> (w: int)
    requires
        cars_ok(wcs),
        render(wcs) == g,
        0 <= x < 6,
        0 <= y < 6,
        g[y * 6 + x] != 46,
        forall|w: int|
            0 <= w < wcs.len() ==> !(car_base(#[trigger] wcs[w]) < y * 6 + x && wcs[w].colour
                == g[y * 6 + x]),
    ensures
        0 <= w < wcs.len(),
        wcs[w] == (Car {
            vertical: vertical_at(g, x, y),
            truck: truck_at(g, x, y),
            colour: g[y * 6 + x],
            x: x as u8,
            y: y as u8,
        }),
        forall|k: int| #[trigger] occ(wcs[w], k) ==> 0 <= k < 36 && g[k] == wcs[w].colour,
{
    lemma_render_char(wcs);
    let pos = y * 6 + x;
    assert(covered(wcs, pos)) by {
        if !covered(wcs, pos) {
            assert(render(wcs)[pos] == 46);
        }
    }
    let w = choose|w: int| 0 <= w < wcs.len() && occ(#[trigger] wcs[w], pos);
    let c = wcs[w];
    assert(g[pos] == c.colour);
    assert(car_base(c) == pos) by {
        assert(car_step(c) > 0);
        assert(car_base(c) <= pos);
    }
    assert(c.x == x && c.y == y) by {
        assert(c.y * 6 + c.x == y * 6 + x);
        assert(c.x < 6);
    }
    assert forall|k: int| 0 <= k < 36 && g[k] == c.colour implies occ(c, k) by {
        assert(covered(wcs, k)) by {
            if !covered(wcs, k) {
                assert(render(wcs)[k] == 46);
            }
        }
        let w2 = choose|w2: int| 0 <= w2 < wcs.len() && occ(#[trigger] wcs[w2], k);
        assert(g[k] == wcs[w2].colour);
        assert(w2 == w) by {
            if w2 != w {
                assert(wcs[w2].colour != wcs[w].colour);
            }
        }
    }
    assert forall|k: int| #[trigger] occ(c, k) implies 0 <= k < 36 && g[k] == c.colour by {
        lemma_occ_in_range(c, k);
    }
    assert(c.vertical == vertical_at(g, x, y)) by {
        if c.vertical {
            assert(occ(c, pos + 6));
            assert((y + 1) * 6 + x == pos + 6);
            assert(y < 5);
        } else if vertical_at(g, x, y) {
            assert(g[(y + 1) * 6 + x] == c.colour);
            assert((y + 1) * 6 + x == pos + 6);
            assert(occ(c, pos + 6));
            assert(false);
        }
    }
    assert(c.truck == truck_at(g, x, y)) by {
        if c.vertical {
            if c.truck {
                assert(occ(c, pos + 12));
                assert((y + 2) * 6 + x == pos + 12);
                assert(y < 4);
            } else if truck_at(g, x, y) {
                assert(g[(y + 2) * 6 + x] == c.colour);
                assert((y + 2) * 6 + x == pos + 12);
                assert(occ(c, pos + 12));
                assert(false);
            }
        } else {
            if c.truck {
                assert(occ(c, pos + 2));
                assert(x < 4);
            } else if truck_at(g, x, y) {
                assert(g[y * 6 + x + 2] == c.colour);
                assert(occ(c, pos + 2));
                assert(false);
            }
        }
    }
    w
}

impl Board {
    /// Builds the initial board from a puzzle text: decodes the grid,
    /// extracts one vehicle per distinct label, and rejects the text unless
    /// the grid is exactly the rendering of the extracted, well-formed
    /// vehicles. Succeeds on precisely the texts that denote such a grid.
    #[verifier::loop_isolation(false)]
    #[verifier::rlimit(60)]
    pub fn from_text(text: &[u8]) -> (r: Result<Board, PuzzleError>)
        ensures
            r is Ok <==> text_ok(text@) && grid_well_formed(grid_of_text(text@)),
            r matches Ok(b) ==> {
                &&& b.wf()
                &&& b.array@ == grid_of_text(text@)
                &&& b.moves@.len() == 0
            },
    {
        let grid = match str_to_u8s(text) {
            Ok(g) => g,
            Err(e) => { return Err(e) },
        };
        assert forall|k: int| 0 <= k < 36 implies (#[trigger] grid@[k]) != 10 by {
            let r = k / 6;
            let c = k % 6;
            lemma_rc6(r, c);
            lemma_rc7(r, c);
            assert(grid@[k] == text@[r * 7 + c]);
        }
        let ghost gw: bool = grid_well_formed(grid@);
        let ghost wcs: Seq<Car> = choose|cs: Seq<Car>| cars_ok(cs) && render(cs) == grid@;
        proof {
            if gw {
                lemma_render_char(wcs);
            }
        }
        let mut seen = label_set_new();
        label_set_insert(&mut seen, 46u8);
        proof {
            if gw {
                assert(label_set_view(seen) =~= anchor_labels(wcs, 0)) by {
                    assert forall|b: u8| anchor_labels(wcs, 0).contains(b) implies b == 46 by {
                        if b != 46 {
                            let w = choose|w: int|
                                0 <= w < wcs.len() && (#[trigger] wcs[w]).colour == b
                                    && car_base(wcs[w]) < 0;
                            assert(occ(wcs[w], car_base(wcs[w])));
                            lemma_occ_in_range(wcs[w], car_base(wcs[w]));
                        }
                    }
                }
            }
        }
        let mut cars: Vec<Car> = Vec::new();
        for y in 0..6usize
            invariant
                forall|i: int| 0 <= i < cars@.len() ==> car_ok(#[trigger] cars@[i]),
                forall|i: int, k: int|
                    0 <= i < cars@.len() && #[trigger] occ(cars@[i], k) ==> grid@[k]
                        == cars@[i].colour,
                forall|i: int, j: int|
                    #![trigger cars@[i], cars@[j]]
                    0 <= i < j < cars@.len() ==> cars@[i].colour != cars@[j].colour,
                forall|i: int|
                    0 <= i < cars@.len() ==> label_set_view(seen).contains(
                        (#[trigger] cars@[i]).colour,
                    ),
                label_set_view(seen).contains(46u8),
                gw ==> label_set_view(seen) == anchor_labels(wcs, y * 6),
                gw ==> forall|j: int| 0 <= j < cars@.len() ==> has_car(wcs, #[trigger] cars@[j]),
                gw ==> forall|w: int|
                    0 <= w < wcs.len() && car_base(#[trigger] wcs[w]) < y * 6 ==> has_car(
                        cars@,
                        wcs[w],
                    ),
        {
            for x in 0..6usize
                invariant
                    forall|i: int| 0 <= i < cars@.len() ==> car_ok(#[trigger] cars@[i]),
                    forall|i: int, k: int|
                        0 <= i < cars@.len() && #[trigger] occ(cars@[i], k) ==> grid@[k]
                            == cars@[i].colour,
                    forall|i: int, j: int|
                        #![trigger cars@[i], cars@[j]]
                        0 <= i < j < cars@.len() ==> cars@[i].colour != cars@[j].colour,
                    forall|i: int|
                        0 <= i < cars@.len() ==> label_set_view(seen).contains(
                            (#[trigger] cars@[i]).colour,
                        ),
                    label_set_view(seen).contains(46u8),
                    gw ==> label_set_view(seen) == anchor_labels(wcs, y * 6 + x),
                    gw ==> forall|j: int|
                        0 <= j < cars@.len() ==> has_car(wcs, #[trigger] cars@[j]),
                    gw ==> forall|w: int|
                        0 <= w < wcs.len() && car_base(#[trigger] wcs[w]) < y * 6 + x ==> has_car(
                            cars@,
                            wcs[w],
                        ),
            {
                let ghost pos: int = y * 6 + x;
                let colour = grid[y * 6 + x];
                if !label_set_contains(&seen, colour) {
                    let ghost seen0 = label_set_view(seen);
                    proof {
                        if gw {
                            assert forall|w: int| 0 <= w < wcs.len() implies !(car_base(
                                #[trigger] wcs[w],
                            ) < pos && wcs[w].colour == grid@[pos]) by {
                                if car_base(wcs[w]) < pos && wcs[w].colour == grid@[pos] {
                                    assert(anchor_labels(wcs, pos).contains(grid@[pos]));
                                }
                            }
                            assert(grid@[pos] != 46) by {
                                assert(anchor_labels(wcs, pos).contains(46u8));
                            }
                        }
                    }
                    label_set_insert(&mut seen, colour);
                    let vertical = Self::is_vertical(grid, x, y);
                    let truck = Self::is_truck(grid, x, y);
                    if !vertical {
                        if !truck && x >= 5 {
                            proof {
                                if gw {
                                    let w = lemma_anchor_car(wcs, grid@, x as int, y as int);
                                    assert(car_ok(wcs[w]));
                                    assert(false);
                                }
                            }
                            return Err(PuzzleError::MalformedInput);
                        }
                        if grid[y * 6 + x + 1] != colour {
                            proof {
                                if gw {
                                    let w = lemma_anchor_car(wcs, grid@, x as int, y as int);
                                    assert(occ(wcs[w], pos + 1));
                                    assert(false);
                                }
                            }
                            return Err(PuzzleError::MalformedInput);
                        }
                    }
                    let car = Car { vertical, truck, colour, x: x as u8, y: y as u8 };
                    proof {
                        assert(car_base(car) == y * 6 + x);
                        assert(car_ok(car));
                        assert(forall|k: int| occ(car, k) ==> grid@[k] == car.colour);
                        if gw {
                            let w = lemma_anchor_car(wcs, grid@, x as int, y as int);
                            assert(wcs[w] == car);
                            assert(label_set_view(seen) == anchor_labels(wcs, pos + 1)) by {
                                assert(label_set_view(seen) == seen0.insert(colour));
                                assert(seen0.insert(colour) =~= anchor_labels(wcs, pos + 1)) by {
                                    assert forall|b: u8|
                                        anchor_labels(wcs, pos + 1).contains(b) implies seen0.insert(
                                        colour,
                                    ).contains(b) by {
                                        if b != 46 {
                                            let w2 = choose|w2: int|
                                                0 <= w2 < wcs.len() && (#[trigger] wcs[w2]).colour
                                                    == b && car_base(wcs[w2]) < pos + 1;
                                            if car_base(wcs[w2]) < pos {
                                                assert(anchor_labels(wcs, pos).contains(b));
                                            } else {
                                                assert(occ(wcs[w2], pos));
                                                assert(grid@[pos] == wcs[w2].colour);
                                            }
                                        }
                                    }
                                    assert forall|b: u8|
                                        seen0.insert(colour).contains(b) implies anchor_labels(
                                        wcs,
                                        pos + 1,
                                    ).contains(b) by {
                                        if b == colour {
                                            assert(0 <= w < wcs.len() && wcs[w].colour == b
                                                && car_base(wcs[w]) < pos + 1);
                                        } else {
                                            assert(seen0.contains(b));
                                            assert(anchor_labels(wcs, pos).contains(b));
                                            if b != 46 {
                                                let w2 = choose|w2: int|
                                                    0 <= w2 < wcs.len() && (#[trigger] wcs[w2]).colour
                                                        == b && car_base(wcs[w2]) < pos;
                                                assert(anchor_labels(wcs, pos + 1).contains(b));
                                            }
                                        }
                                    }
                                }
                            }
                        }
                    }
                    let ghost cars0 = cars@;
                    cars.push(car);
                    proof {
                        if gw {
                            let w = lemma_anchor_car(wcs, grid@, x as int, y as int);
                            assert forall|j: int| 0 <= j < cars@.len() implies has_car(
                                wcs,
                                #[trigger] cars@[j],
                            ) by {
                                if j < cars0.len() {
                                    assert(cars@[j] == cars0[j]);
                                } else {
                                    assert(cars@[j] == car && wcs[w] == car);
                                }
                            }
                            assert forall|w2: int|
                                0 <= w2 < wcs.len() && car_base(#[trigger] wcs[w2]) < pos
                                    + 1 implies has_car(cars@, wcs[w2]) by {
                                if car_base(wcs[w2]) < pos {
                                    assert(has_car(cars0, wcs[w2]));
                                    let j = choose|j: int|
                                        0 <= j < cars0.len() && #[trigger] cars0[j] == wcs[w2];
                                    assert(cars@[j] == wcs[w2]);
                                } else {
                                    assert(occ(wcs[w2], pos));
                                    assert(grid@[pos] == wcs[w2].colour);
                                    assert(w2 == w) by {
                                        if w2 != w {
                                            assert(wcs[w2].colour != wcs[w].colour);
                                        }
                                    }
                                    assert(cars@[cars0.len() as int] == wcs[w]);
                                }
                            }
                        }
                    }
                } else {
                    proof {
                        if gw {
                            assert forall|w: int|
                                0 <= w < wcs.len() implies car_base(#[trigger] wcs[w]) != pos by {
                                if car_base(wcs[w]) == pos {
                                    assert(occ(wcs[w], pos));
                                    assert(grid@[pos] == wcs[w].colour);
                                    assert(wcs[w].colour != 46);
                                    assert(anchor_labels(wcs, pos).contains(grid@[pos]));
                                    let w2 = choose|w2: int|
                                        0 <= w2 < wcs.len() && (#[trigger] wcs[w2]).colour
                                            == grid@[pos] && car_base(wcs[w2]) < pos;
                                    assert(wcs[w2].colour == wcs[w].colour && w2 != w);
                                }
                            }
                            assert(label_set_view(seen) == anchor_labels(wcs, pos + 1)) by {
                                assert(anchor_labels(wcs, pos) =~= anchor_labels(wcs, pos + 1)) by {
                                    assert forall|b: u8|
                                        anchor_labels(wcs, pos + 1).contains(b) implies anchor_labels(
                                        wcs,
                                        pos,
                                    ).contains(b) by {
                                        if b != 46 {
                                            let w2 = choose|w2: int|
                                                0 <= w2 < wcs.len() && (#[trigger] wcs[w2]).colour
                                                    == b && car_base(wcs[w2]) < pos + 1;
                                            assert(car_base(wcs[w2]) != pos);
                                        }
                                    }
                                }
                            }
                        }
                    }
                }
            }
        }
        proof {
            assert forall|i: int, j: int, k: int|
                #![trigger occ(cars@[i], k), occ(cars@[j], k)]
                0 <= i < cars@.len() && 0 <= j < cars@.len() && i != j implies !(occ(cars@[i], k)
                && occ(cars@[j], k)) by {
                if occ(cars@[i], k) && occ(cars@[j], k) {
                    assert(grid@[k] == cars@[i].colour);
                    assert(grid@[k] == cars@[j].colour);
                }
            }
            assert(cars_ok(cars@));
        }
        let rendered = Self::gen_u8s(&cars);
        proof {
            if gw {
                lemma_render_char(cars@);
                assert(rendered@ =~= grid@) by {
                    assert forall|k: int| 0 <= k < 36 implies rendered@[k] == grid@[k] by {
                        if covered(cars@, k) {
                            let j = choose|j: int|
                                0 <= j < cars@.len() && occ(#[trigger] cars@[j], k);
                            assert(render(cars@)[k] == cars@[j].colour);
                            assert(grid@[k] == cars@[j].colour);
                        } else {
                            assert(render(cars@)[k] == 46);
                            assert(!covered(wcs, k)) by {
                                if covered(wcs, k) {
                                    let w = choose|w: int|
                                        0 <= w < wcs.len() && occ(#[trigger] wcs[w], k);
                                    assert(occ(wcs[w], car_base(wcs[w])));
                                    lemma_occ_in_range(wcs[w], car_base(wcs[w]));
                                    assert(has_car(cars@, wcs[w]));
                                    let j = choose|j: int|
                                        0 <= j < cars@.len() && #[trigger] cars@[j] == wcs[w];
                                    assert(occ(cars@[j], k));
                                }
                            }
                            assert(render(wcs)[k] == 46);
                        }
                    }
                }
            }
        }
        for k in 0..36usize
            invariant
                forall|i: int| 0 <= i < k ==> rendered@[i] == grid@[i],
        {
            if rendered[k] != grid[k] {
                proof {
                    if gw {
                        assert(false);
                    }
                }
                return Err(PuzzleError::MalformedInput);
            }
        }
        proof {
            assert(rendered@ =~= grid@);
            assert(grid_well_formed(grid@)) by {
                assert(cars_ok(cars@) && render(cars@) == grid@);
            }
        }
        Ok(Board { cars, array: grid, moves: Vec::new() })
    }
}

// ---------------------------------------------------------------------------
// Moves
// ---------------------------------------------------------------------------

/// The car `c` slid `delta` cells along its own axis; negative is up or
/// left, positive is down or right.
pub open spec fn slid_car(c: Car, delta: int) -> Car {
    if c.vertical {
        Car { y: (c.y + delta) as u8, ..c }
    } else {
        Car { x: (c.x + delta) as u8, ..c }
    }
}

/// The `t`-th cell, counting outward from the car, that a slide by `delta`
/// sweeps over. For a negative slide these cells precede the anchor; for a
/// positive one they follow the car's last cell. The cells swept do not
/// depend on how far past them the slide goes.
pub open spec fn probe(c: Car, delta: int, t: int) -> int {
    if delta < 0 {
        car_base(c) - t * car_step(c)
    } else {
        car_base(c) + (car_len(c) - 1 + t) * car_step(c)
    }
}

/// A slide is legal when it is nonzero, stays on the grid, and every swept
/// cell is empty: a vehicle may pass any number of empty cells but never
/// through or past an occupied one.
pub open spec fn slide_legal(g: Seq<u8>, c: Car, delta: int) -> bool {
    &&& delta != 0
    &&& if c.vertical {
        0 <= c.y + delta && c.y + delta + car_len(c) <= 6
    } else {
        0 <= c.x + delta && c.x + delta + car_len(c) <= 6
    }
    &&& forall|t: int| 1 <= t <= vstd::math::abs(delta) ==> g[#[trigger] probe(c, delta, t)] == 46
}

/// The 3-byte record of a slide: label, direction symbol, distance digit.
pub open spec fn move_rec(c: Car, delta: int) -> Seq<u8> {
    seq![
        c.colour,
        if c.vertical {
            if delta < 0 {
                85u8
            } else {
                68u8
            }
        } else {
            if delta < 0 {
                76u8
            } else {
                82u8
            }
        },
        (48 + vstd::math::abs(delta)) as u8,
    ]
}

/// `b` is the successor of `pre` reached by sliding car `i` by `delta`, with
/// the slide's record appended to the move trail.
pub open spec fn succ_rec(pre: Board, b: Board, i: int, delta: int) -> bool {
    &&& 0 <= i < pre.cars@.len()
    &&& slide_legal(pre.array@, pre.cars@[i], delta)
    &&& b.cars@ == pre.cars@.update(i, slid_car(pre.cars@[i], delta))
    &&& b.moves@.len() == pre.moves@.len() + 1
    &&& b.moves@.take(pre.moves@.len() as int) == pre.moves@
    &&& b.moves@.last()@ == move_rec(pre.cars@[i], delta)
}

/// One vehicle list follows another by a single legal slide.
pub open spec fn is_succ(cs: Seq<Car>, cs2: Seq<Car>) -> bool {
    exists|i: int, delta: int|
        {
            &&& 0 <= i < cs.len()
            &&& #[trigger] slide_legal(render(cs), cs[i], delta)
            &&& cs2 == cs.update(i, slid_car(cs[i], delta))
        }
}

/// Every cell of a slid car was a cell of the car or a cell the slide swept.
pub proof fn lemma_slid_cells(c: Car, delta: int, k: int)
    requires
        car_ok(c),
        delta != 0,
        if c.vertical {
            0 <= c.y + delta && c.y + delta + car_len(c) <= 6
        } else {
            0 <= c.x + delta && c.x + delta + car_len(c) <= 6
        },
        occ(slid_car(c, delta), k),
    ensures
        occ(c, k) || exists|t: int| 1 <= t <= vstd::math::abs(delta) && k == #[trigger] probe(
            c,
            delta,
            t,
        ),
{
    let c2 = slid_car(c, delta);
    let base = car_base(c);
    let step = car_step(c);
    assert(car_base(c2) == base + delta * step);
    assert(car_step(c2) == step);
    let s: int = if k == car_base(c2) {
        0
    } else if k == car_base(c2) + step {
        1
    } else {
        2
    };
    assert(0 <= s < car_len(c) && k == car_base(c2) + s * step) by {
        if k == car_base(c2) {
            assert(k == car_base(c2) + 0 * step);
        } else if k == car_base(c2) + step {
            assert(k == car_base(c2) + 1 * step);
        } else {
            assert(c.truck && k == car_base(c2) + 2 * step);
        }
    }
    let o = delta + s;
    assert(k == base + o * step) by {
        assert(car_base(c2) + s * step == base + delta * step + s * step);
        assert(delta * step + s * step == (delta + s) * step) by (nonlinear_arith);
    }
    if 0 <= o < car_len(c) {
        assert(occ(c, k)) by {
            if o == 0 {
                assert(k == base);
            } else if o == 1 {
                assert(k == base + step);
            } else {
                assert(k == base + 2 * step);
            }
        }
    } else if o < 0 {
        let t = -o;
        assert(probe(c, delta, t) == base - t * step) by {
            assert(delta < 0);
        }
        assert(k == base - t * step) by {
            assert(o * step == -(t * step)) by (nonlinear_arith)
                requires
                    o == -t,
            ;
        }
        assert(1 <= t <= vstd::math::abs(delta));
    } else {
        let t = o - car_len(c) + 1;
        assert(delta > 0);
        assert(probe(c, delta, t) == base + (car_len(c) - 1 + t) * step);
        assert(k == probe(c, delta, t)) by {
            assert(car_len(c) - 1 + t == o);
        }
        assert(1 <= t <= vstd::math::abs(delta)) by {
            assert(o < delta + car_len(c));
        }
    }
}

/// A legal slide of one car keeps the vehicle list well formed.
pub proof fn lemma_slide_wf(cs: Seq<Car>, i: int, delta: int)
    requires
        cars_ok(cs),
        0 <= i < cs.len(),
        slide_legal(render(cs), cs[i], delta),
    ensures
        cars_ok(cs.update(i, slid_car(cs[i], delta))),
{
    let c = cs[i];
    let c2 = slid_car(c, delta);
    let cs2 = cs.update(i, c2);
    lemma_render_char(cs);
    assert(car_ok(c2));
    assert forall|a: int, b: int, k: int|
        #![trigger occ(cs2[a], k), occ(cs2[b], k)]
        0 <= a < cs2.len() && 0 <= b < cs2.len() && a != b implies !(occ(cs2[a], k) && occ(
        cs2[b],
        k,
    )) by {
        if occ(cs2[a], k) && occ(cs2[b], k) {
            if a == i || b == i {
                let other = if a == i {
                    b
                } else {
                    a
                };
                assert(cs2[other] == cs[other]);
                assert(occ(c2, k));
                assert(occ(cs[other], k));
                lemma_slid_cells(c, delta, k);
                if occ(c, k) {
                    assert(occ(cs[i], k) && occ(cs[other], k) && other != i);
                } else {
                    let t = choose|t: int|
                        1 <= t <= vstd::math::abs(delta) && k == #[trigger] probe(c, delta, t);
                    assert(render(cs)[k] == 46);
                    lemma_occ_in_range(cs[other], k);
                    assert(render(cs)[k] == cs[other].colour);
                    assert(car_ok(cs[other]));
                }
            } else {
                assert(cs2[a] == cs[a] && cs2[b] == cs[b]);
            }
        }
    }
    assert(cars_ok(cs2)) by {
        assert(forall|j: int| 0 <= j < cs2.len() && j != i ==> cs2[j] == cs[j]);
        assert(c2.colour == c.colour);
    }
}

/// Distinct slides give distinct successors: moving different cars, or the
/// same car by different offsets, never produces the same vehicle list.
pub proof fn lemma_move_inj(cs: Seq<Car>, i1: int, d1: int, i2: int, d2: int)
    requires
        cars_ok(cs),
        0 <= i1 < cs.len(),
        0 <= i2 < cs.len(),
        slide_legal(render(cs), cs[i1], d1),
        slide_legal(render(cs), cs[i2], d2),
        !(i1 == i2 && d1 == d2),
    ensures
        cs.update(i1, slid_car(cs[i1], d1)) != cs.update(i2, slid_car(cs[i2], d2)),
{
    let l1 = cs.update(i1, slid_car(cs[i1], d1));
    let l2 = cs.update(i2, slid_car(cs[i2], d2));
    if l1 == l2 {
        let c = cs[i1];
        assert(car_ok(c));
        if i1 != i2 {
            assert(l1[i1] == slid_car(c, d1));
            assert(l2[i1] == c);
            assert(slid_car(c, d1) != c) by {
                if c.vertical {
                    assert(0 <= c.y + d1 < 256);
                    assert(slid_car(c, d1).y == c.y + d1);
                } else {
                    assert(0 <= c.x + d1 < 256);
                    assert(slid_car(c, d1).x == c.x + d1);
                }
            }
        } else {
            assert(l1[i1] == slid_car(c, d1));
            assert(l2[i1] == slid_car(c, d2));
            assert(slid_car(c, d1) != slid_car(c, d2)) by {
                if c.vertical {
                    assert(0 <= c.y + d1 < 256 && 0 <= c.y + d2 < 256);
                    assert(slid_car(c, d1).y == c.y + d1 && slid_car(c, d2).y == c.y + d2);
                } else {
                    assert(0 <= c.x + d1 < 256 && 0 <= c.x + d2 < 256);
                    assert(slid_car(c, d1).x == c.x + d1 && slid_car(c, d2).x == c.x + d2);
                }
            }
        }
    }
}

/// No two entries of the generated successor list hold the same vehicles.
pub open spec fn gm_distinct(out: Seq<Board>) -> bool {
    forall|j1: int, j2: int|
        0 <= j1 < j2 < out.len() ==> (#[trigger] out[j1]).cars@ != (#[trigger] out[j2]).cars@
}

/// The board arose from a slide of a car before `ci`.
spec fn emitted_before_car(pre: Board, b: Board, ci: int) -> bool {
    exists|i: int, delta: int| #[trigger] succ_rec(pre, b, i, delta) && i < ci
}

/// The board arose from a slide of car `ci` by an offset within the range.
spec fn emitted_for_car(pre: Board, b: Board, ci: int, lo: int, hi: int) -> bool {
    exists|delta: int| #[trigger] succ_rec(pre, b, ci, delta) && lo <= delta <= hi
}

/// Successors recorded for different slides hold different vehicles.
proof fn lemma_rec_distinct(pre: Board, b1: Board, b2: Board, i1: int, d1: int, i2: int, d2: int)
    requires
        pre.wf(),
        succ_rec(pre, b1, i1, d1),
        succ_rec(pre, b2, i2, d2),
        !(i1 == i2 && d1 == d2),
    ensures
        b1.cars@ != b2.cars@,
{
    assert(render(pre.cars@) == pre.array@);
    lemma_move_inj(pre.cars@, i1, d1, i2, d2);
}

/// Everything `get_moves` returns: a well-formed board, reached by one legal
/// slide recorded on the move trail.
pub open spec fn gm_sound(pre: Board, out: Seq<Board>) -> bool {
    forall|j: int|
        0 <= j < out.len() ==> (#[trigger] out[j]).wf() && exists|i: int, delta: int|
            #[trigger] succ_rec(pre, out[j], i, delta)
}

/// Some board in `out` is the slide of car `i` by `delta` from `pre`.
pub open spec fn emitted(pre: Board, out: Seq<Board>, i: int, delta: int) -> bool {
    exists|j: int|
        0 <= j < out.len() && (#[trigger] out[j]).cars@ == pre.cars@.update(
            i,
            slid_car(pre.cars@[i], delta),
        )
}

/// Every legal slide of a car before `upto` has a board in `out`.
pub open spec fn gm_complete_upto(pre: Board, out: Seq<Board>, upto: int) -> bool {
    forall|i: int, delta: int|
        0 <= i < upto && #[trigger] slide_legal(pre.array@, pre.cars@[i], delta) ==> emitted(
            pre,
            out,
            i,
            delta,
        )
}

/// Appending one more successor preserves what is known of the list so far.
proof fn lemma_gm_push(pre: Board, out1: Seq<Board>, out2: Seq<Board>, upto: int, i: int, delta: int)
    requires
        out2.len() == out1.len() + 1,
        out2.take(out1.len() as int) == out1,
        gm_sound(pre, out1),
        gm_complete_upto(pre, out1, upto),
        out2.last().wf(),
        succ_rec(pre, out2.last(), i, delta),
    ensures
        gm_sound(pre, out2),
        gm_complete_upto(pre, out2, upto),
        emitted(pre, out2, i, delta),
        forall|i2: int, d2: int| #[trigger] emitted(pre, out1, i2, d2) ==> emitted(pre, out2, i2, d2),
{
    assert forall|j: int| 0 <= j < out1.len() implies out2[j] == out1[j] by {
        assert(out2.take(out1.len() as int)[j] == out2[j]);
    }
    assert forall|j: int| 0 <= j < out2.len() implies (#[trigger] out2[j]).wf() && exists|
        i2: int,
        d2: int,
    |
        #[trigger] succ_rec(pre, out2[j], i2, d2) by {
        if j < out1.len() {
            assert(out2[j] == out1[j]);
            assert(out1[j].wf());
        } else {
            assert(out2[j] == out2.last());
            assert(succ_rec(pre, out2[j], i, delta));
        }
    }
    assert forall|i2: int, d2: int| #[trigger] emitted(pre, out1, i2, d2) implies emitted(
        pre,
        out2,
        i2,
        d2,
    ) by {
        let j = choose|j: int|
            0 <= j < out1.len() && (#[trigger] out1[j]).cars@ == pre.cars@.update(
                i2,
                slid_car(pre.cars@[i2], d2),
            );
        assert(out2[j] == out1[j]);
    }
    assert(emitted(pre, out2, i, delta)) by {
        let j = out2.len() - 1;
        assert(out2[j] == out2.last());
    }
}

/// Copies a vehicle list, replacing the car at `i`.
fn cars_with(v: &Vec<Car>, i: usize, car: Car) -> (r: Vec<Car>)
    requires
        i < v@.len(),
    ensures
        r@ == v@.update(i as int, car),
{
    let mut r: Vec<Car> = Vec::new();
    for j in 0..v.len()
        invariant
            i < v@.len(),
            r@.len() == j,
            forall|t: int| 0 <= t < j ==> r@[t] == (if t == i { car } else { v@[t] }),
    {
        if j == i {
            r.push(car);
        } else {
            r.push(v[j]);
        }
    }
    assert(r@ =~= v@.update(i as int, car));
    r
}

/// Copies a move trail and appends one record.
fn push_rec(v: &Vec<[u8; 3]>, m: [u8; 3]) -> (r: Vec<[u8; 3]>)
    ensures
        r@ == v@.push(m),
{
    let mut r: Vec<[u8; 3]> = Vec::new();
    for j in 0..v.len()
        invariant
            r@.len() == j,
            forall|t: int| 0 <= t < j ==> r@[t] == v@[t],
    {
        r.push(v[j]);
    }
    r.push(m);
    assert(r@ =~= v@.push(m));
    r
}

impl Board {
    /// Builds and appends the successor that slides car `ci` by `dist` cells,
    /// toward lower indices when `neg`.
    fn emit(&self, out: &mut Vec<Board>, ci: usize, dist: usize, neg: bool)
        requires
            self.wf(),
            ci < self.cars@.len(),
            1 <= dist <= 4,
            slide_legal(
                self.array@,
                self.cars@[ci as int],
                if neg {
                    -(dist as int)
                } else {
                    dist as int
                },
            ),
        ensures
            final(out)@.len() == old(out)@.len() + 1,
            final(out)@.take(old(out)@.len() as int) == old(out)@,
            final(out)@.last().wf(),
            succ_rec(
                *self,
                final(out)@.last(),
                ci as int,
                if neg {
                    -(dist as int)
                } else {
                    dist as int
                },
            ),
    {
        let ghost delta: int = if neg {
            -(dist as int)
        } else {
            dist as int
        };
        let car = self.cars[ci];
        let d8 = dist as u8;
        let nx = if car.vertical {
            car.x
        } else if neg {
            car.x - d8
        } else {
            car.x + d8
        };
        let ny = if !car.vertical {
            car.y
        } else if neg {
            car.y - d8
        } else {
            car.y + d8
        };
        let mcar = Car { vertical: car.vertical, truck: car.truck, colour: car.colour, x: nx, y: ny };
        assert(mcar == slid_car(car, delta));
        proof {
            lemma_slide_wf(self.cars@, ci as int, delta);
        }
        let new_cars = cars_with(&self.cars, ci, mcar);
        let dir: u8 = if car.vertical {
            if neg {
                85
            } else {
                68
            }
        } else {
            if neg {
                76
            } else {
                82
            }
        };
        let mut rec: [u8; 3] = [0u8; 3];
        rec[0] = car.colour;
        rec[1] = dir;
        rec[2] = 48 + d8;
        assert(rec@ =~= move_rec(car, delta));
        let new_moves = push_rec(&self.moves, rec);
        let arr = Self::gen_u8s(&new_cars);
        let b = Board { cars: new_cars, array: arr, moves: new_moves };
        assert(b.wf());
        proof {
            assert(self.moves@.push(rec).take(self.moves@.len() as int) =~= self.moves@);
        }
        assert(succ_rec(*self, b, ci as int, delta));
        out.push(b);
    }

    /// Generates every state reachable from this one by a single legal
    /// slide: for each car and each direction along its axis, one successor
    /// per reachable offset, scanning outward until the first obstruction or
    /// the grid's edge.
    #[verifier::rlimit(100)]
    pub fn get_moves(&self) -> (r: Vec<Board>)
        requires
            self.wf(),
        ensures
            gm_sound(*self, r@),
            gm_complete_upto(*self, r@, self.cars@.len() as int),
            gm_distinct(r@),
            forall|j: int|
                0 <= j < r@.len() ==> (#[trigger] r@[j]).wf() && is_succ(self.cars@, r@[j].cars@),
    {
        let mut out: Vec<Board> = Vec::new();
        let n = self.cars.len();
        for ci in 0..n
            invariant
                self.wf(),
                n == self.cars@.len(),
                gm_sound(*self, out@),
                gm_complete_upto(*self, out@, ci as int),
                gm_distinct(out@),
                forall|j: int|
                    0 <= j < out@.len() ==> emitted_before_car(*self, #[trigger] out@[j], ci as int),
        {
            let car = self.cars[ci];
            let base = (car.y as usize) * 6 + (car.x as usize);
            let step: usize = if car.vertical {
                6
            } else {
                1
            };
            assert(car_ok(car));
            assert(base == car_base(car) && step == car_step(car));
            // toward lower indices: up, or left
            let ghost len_car = out@.len();
            let mut i: usize = 1;
            loop
                invariant
                    self.wf(),
                    n == self.cars@.len(),
                    ci < n,
                    car == self.cars@[ci as int],
                    base == car_base(car),
                    step == car_step(car),
                    1 <= i <= 6,
                    gm_sound(*self, out@),
                    gm_complete_upto(*self, out@, ci as int),
                    gm_distinct(out@),
                    out@.len() >= len_car,
                    forall|j: int|
                        0 <= j < len_car ==> emitted_before_car(*self, #[trigger] out@[j], ci as int),
                    forall|j: int|
                        len_car <= j < out@.len() ==> emitted_for_car(
                            *self,
                            #[trigger] out@[j],
                            ci as int,
                            1 - (i as int),
                            -1,
                        ),
                    forall|d: int|
                        -(i as int) < d <= -1 ==> #[trigger] slide_legal(self.array@, car, d),
                    forall|d: int|
                        -(i as int) < d <= -1 ==> #[trigger] emitted(*self, out@, ci as int, d),
                ensures
                    gm_sound(*self, out@),
                    gm_complete_upto(*self, out@, ci as int),
                    gm_distinct(out@),
                    out@.len() >= len_car,
                    forall|j: int|
                        0 <= j < len_car ==> emitted_before_car(*self, #[trigger] out@[j], ci as int),
                    forall|j: int|
                        len_car <= j < out@.len() ==> emitted_for_car(
                            *self,
                            #[trigger] out@[j],
                            ci as int,
                            -5,
                            -1,
                        ),
                    forall|d: int|
                        d < 0 && #[trigger] slide_legal(self.array@, car, d) ==> emitted(
                            *self,
                            out@,
                            ci as int,
                            d,
                        ),
                decreases 6 - i,
            {
                let room = if car.vertical {
                    car.y as usize >= i
                } else {
                    car.x as usize >= i
                };
                if !room {
                    proof {
                        assert forall|d: int|
                            d < 0 && slide_legal(self.array@, car, d) implies emitted(
                            *self,
                            out@,
                            ci as int,
                            d,
                        ) by {
                            assert(-d < i);
                        }
                    assert forall|j: int|
                        len_car <= j < out@.len() implies emitted_for_car(
                        *self,
                        #[trigger] out@[j],
                        ci as int,
                        -5,
                        -1,
                    ) by {
                        let d = choose|d: int|
                            #[trigger] succ_rec(*self, out@[j], ci as int, d) && 1 - (i as int) <= d
                                <= -1;
                    }
                    }
                    break;
                }
                let idx = base - i * step;
                assert(idx == probe(car, -(i as int), i as int));
                assert(0 <= idx < 36) by {
                    assert(occ(car, car_base(car)));
                    lemma_occ_in_range(car, car_base(car));
                }
                if self.array[idx] != 46u8 {
                    proof {
                        assert forall|d: int|
                            d < 0 && slide_legal(self.array@, car, d) implies emitted(
                            *self,
                            out@,
                            ci as int,
                            d,
                        ) by {
                            if -d >= i {
                                assert(probe(car, d, i as int) == idx);
                                assert(self.array@[probe(car, d, i as int)] == 46);
                            } else {
                                assert(-d < i);
                            }
                        }
                    assert forall|j: int|
                        len_car <= j < out@.len() implies emitted_for_car(
                        *self,
                        #[trigger] out@[j],
                        ci as int,
                        -5,
                        -1,
                    ) by {
                        let d = choose|d: int|
                            #[trigger] succ_rec(*self, out@[j], ci as int, d) && 1 - (i as int) <= d
                                <= -1;
                    }
                    }
                    break;
                }
                proof {
                    assert(slide_legal(self.array@, car, -(i as int))) by {
                        assert forall|t: int|
                            1 <= t <= vstd::math::abs(-(i as int)) implies self.array@[#[trigger]
                        probe(car, -(i as int), t)] == 46 by {
                            if t < i {
                                assert(slide_legal(self.array@, car, -t));
                                assert(probe(car, -t, t) == probe(car, -(i as int), t));
                                assert(self.array@[probe(car, -t, t)] == 46);
                            } else {
                                assert(probe(car, -(i as int), t) == idx);
                            }
                        }
                    }
                }
                let ghost out_before = out@;
                self.emit(&mut out, ci, i, true);
                proof {
                    lemma_gm_push(*self, out_before, out@, ci as int, ci as int, -(i as int));
                    assert forall|d: int| -(i as int) - 1 < d <= -1 implies #[trigger] slide_legal(
                        self.array@,
                        car,
                        d,
                    ) by {
                        if d > -(i as int) {
                            assert(slide_legal(self.array@, car, d));
                        } else {
                            assert(d == -(i as int));
                        }
                    }
                    assert forall|d: int| -(i as int) - 1 < d <= -1 implies #[trigger] emitted(
                        *self,
                        out@,
                        ci as int,
                        d,
                    ) by {
                        if d > -(i as int) {
                            assert(emitted(*self, out_before, ci as int, d));
                        } else {
                            assert(d == -(i as int));
                        }
                    }
                    assert forall|j: int| 0 <= j < out_before.len() implies out@[j]
                        == out_before[j] by {
                        assert(out@.take(out_before.len() as int)[j] == out@[j]);
                    }
                    assert(succ_rec(*self, out@.last(), ci as int, -(i as int)));
                    assert forall|j: int|
                        0 <= j < len_car implies emitted_before_car(
                        *self,
                        #[trigger] out@[j],
                        ci as int,
                    ) by {
                        assert(out@[j] == out_before[j]);
                        assert(emitted_before_car(*self, out_before[j], ci as int));
                    }
                    assert forall|j: int|
                        len_car <= j < out@.len() implies emitted_for_car(
                        *self,
                        #[trigger] out@[j],
                        ci as int,
                        -(i as int),
                        -1,
                    ) by {
                        if j < out_before.len() {
                            assert(out@[j] == out_before[j]);
                            assert(emitted_for_car(
                                *self,
                                out_before[j],
                                ci as int,
                                1 - (i as int),
                                -1,
                            ));
                            let d = choose|d: int|
                                #[trigger] succ_rec(*self, out_before[j], ci as int, d) && 1 - (
                                i as int) <= d <= -1;
                            assert(succ_rec(*self, out@[j], ci as int, d));
                        } else {
                            assert(out@[j] == out@.last());
                        }
                    }
                    assert forall|j1: int, j2: int|
                        0 <= j1 < j2 < out@.len() implies (#[trigger] out@[j1]).cars@ != (
                    #[trigger] out@[j2]).cars@ by {
                        if j2 < out_before.len() {
                            assert(out@[j1] == out_before[j1] && out@[j2] == out_before[j2]);
                        } else {
                            assert(out@[j2] == out@.last());
                            assert(out@[j1] == out_before[j1]);
                            if j1 < len_car {
                                assert(emitted_before_car(*self, out_before[j1], ci as int));
                                let (i1, d1) = choose|i1: int, d1: int|
                                    #[trigger] succ_rec(*self, out_before[j1], i1, d1) && i1 < ci;
                                lemma_rec_distinct(
                                    *self,
                                    out@[j1],
                                    out@[j2],
                                    i1,
                                    d1,
                                    ci as int,
                                    -(i as int),
                                );
                            } else {
                                assert(emitted_for_car(
                                    *self,
                                    out_before[j1],
                                    ci as int,
                                    1 - (i as int),
                                    -1,
                                ));
                                let d1 = choose|d1: int|
                                    #[trigger] succ_rec(*self, out_before[j1], ci as int, d1) && 1
                                        - (i as int) <= d1 <= -1;
                                lemma_rec_distinct(
                                    *self,
                                    out@[j1],
                                    out@[j2],
                                    ci as int,
                                    d1,
                                    ci as int,
                                    -(i as int),
                                );
                            }
                        }
                    }
                }
                i += 1;
            }
            // toward higher indices: down, or right
            let len1: usize = if car.truck {
                2
            } else {
                1
            };
            let ghost len_mid = out@.len();
            let mut i: usize = 1;
            loop
                invariant
                    self.wf(),
                    n == self.cars@.len(),
                    ci < n,
                    car == self.cars@[ci as int],
                    base == car_base(car),
                    step == car_step(car),
                    len1 == car_len(car) - 1,
                    1 <= i <= 6,
                    gm_sound(*self, out@),
                    gm_complete_upto(*self, out@, ci as int),
                    gm_distinct(out@),
                    len_car <= len_mid <= out@.len(),
                    forall|j: int|
                        0 <= j < len_car ==> emitted_before_car(*self, #[trigger] out@[j], ci as int),
                    forall|j: int|
                        len_car <= j < len_mid ==> emitted_for_car(
                            *self,
                            #[trigger] out@[j],
                            ci as int,
                            -5,
                            -1,
                        ),
                    forall|j: int|
                        len_mid <= j < out@.len() ==> emitted_for_car(
                            *self,
                            #[trigger] out@[j],
                            ci as int,
                            1,
                            (i as int) - 1,
                        ),
                    forall|d: int|
                        d < 0 && #[trigger] slide_legal(self.array@, car, d) ==> emitted(
                            *self,
                            out@,
                            ci as int,
                            d,
                        ),
                    forall|d: int| 1 <= d < i ==> #[trigger] slide_legal(self.array@, car, d),
                    forall|d: int| 1 <= d < i ==> #[trigger] emitted(*self, out@, ci as int, d),
                ensures
                    gm_sound(*self, out@),
                    gm_complete_upto(*self, out@, ci as int),
                    gm_distinct(out@),
                    out@.len() >= len_car,
                    forall|j: int|
                        0 <= j < len_car ==> emitted_before_car(*self, #[trigger] out@[j], ci as int),
                    forall|j: int|
                        len_car <= j < out@.len() ==> emitted_for_car(
                            *self,
                            #[trigger] out@[j],
                            ci as int,
                            -6,
                            6,
                        ),
                    forall|d: int|
                        d != 0 && #[trigger] slide_legal(self.array@, car, d) ==> emitted(
                            *self,
                            out@,
                            ci as int,
                            d,
                        ),
                decreases 6 - i,
            {
                let room = if car.vertical {
                    (car.y as usize) + len1 + i < 6
                } else {
                    (car.x as usize) + len1 + i < 6
                };
                if !room {
                    proof {
                        assert forall|d: int|
                            d != 0 && slide_legal(self.array@, car, d) implies emitted(
                            *self,
                            out@,
                            ci as int,
                            d,
                        ) by {
                            if d > 0 {
                                assert(d < i);
                            }
                        }
                    assert forall|j: int|
                        len_car <= j < out@.len() implies emitted_for_car(
                        *self,
                        #[trigger] out@[j],
                        ci as int,
                        -6,
                        6,
                    ) by {
                        if j < len_mid {
                            let d = choose|d: int|
                                #[trigger] succ_rec(*self, out@[j], ci as int, d) && -5 <= d <= -1;
                        } else {
                            let d = choose|d: int|
                                #[trigger] succ_rec(*self, out@[j], ci as int, d) && 1 <= d <= (
                                i as int) - 1;
                        }
                    }
                    }
                    break;
                }
                let idx = base + (len1 + i) * step;
                assert(idx == probe(car, i as int, i as int));
                assert(0 <= idx < 36) by {
                    if car.vertical {
                        assert(idx == ((car.y as usize) + len1 + i) * 6 + (car.x as usize));
                    }
                }
                if self.array[idx] != 46u8 {
                    proof {
                        assert forall|d: int|
                            d != 0 && slide_legal(self.array@, car, d) implies emitted(
                            *self,
                            out@,
                            ci as int,
                            d,
                        ) by {
                            if d >= i {
                                assert(probe(car, d, i as int) == idx);
                                assert(self.array@[probe(car, d, i as int)] == 46);
                            } else if d > 0 {
                                assert(d < i);
                            }
                        }
                    assert forall|j: int|
                        len_car <= j < out@.len() implies emitted_for_car(
                        *self,
                        #[trigger] out@[j],
                        ci as int,
                        -6,
                        6,
                    ) by {
                        if j < len_mid {
                            let d = choose|d: int|
                                #[trigger] succ_rec(*self, out@[j], ci as int, d) && -5 <= d <= -1;
                        } else {
                            let d = choose|d: int|
                                #[trigger] succ_rec(*self, out@[j], ci as int, d) && 1 <= d <= (
                                i as int) - 1;
                        }
                    }
                    }
                    break;
                }
                proof {
                    assert(slide_legal(self.array@, car, i as int)) by {
                        assert forall|t: int|
                            1 <= t <= vstd::math::abs(i as int) implies self.array@[#[trigger] probe(
                            car,
                            i as int,
                            t,
                        )] == 46 by {
                            if t < i {
                                assert(slide_legal(self.array@, car, t));
                                assert(probe(car, t, t) == probe(car, i as int, t));
                                assert(self.array@[probe(car, t, t)] == 46);
                            } else {
                                assert(probe(car, i as int, t) == idx);
                            }
                        }
                    }
                }
                let ghost out_before = out@;
                self.emit(&mut out, ci, i, false);
                proof {
                    lemma_gm_push(*self, out_before, out@, ci as int, ci as int, i as int);
                    assert forall|d: int| 1 <= d < i + 1 implies #[trigger] slide_legal(
                        self.array@,
                        car,
                        d,
                    ) by {
                        if d < i {
                            assert(slide_legal(self.array@, car, d));
                        } else {
                            assert(d == i);
                        }
                    }
                    assert forall|d: int| 1 <= d < i + 1 implies #[trigger] emitted(
                        *self,
                        out@,
                        ci as int,
                        d,
                    ) by {
                        if d < i {
                            assert(emitted(*self, out_before, ci as int, d));
                        } else {
                            assert(d == i);
                        }
                    }
                    assert forall|j: int| 0 <= j < out_before.len() implies out@[j]
                        == out_before[j] by {
                        assert(out@.take(out_before.len() as int)[j] == out@[j]);
                    }
                    assert(succ_rec(*self, out@.last(), ci as int, i as int));
                    assert forall|j: int|
                        0 <= j < len_car implies emitted_before_car(
                        *self,
                        #[trigger] out@[j],
                        ci as int,
                    ) by {
                        assert(out@[j] == out_before[j]);
                        assert(emitted_before_car(*self, out_before[j], ci as int));
                    }
                    assert forall|j: int|
                        len_car <= j < len_mid implies emitted_for_car(
                        *self,
                        #[trigger] out@[j],
                        ci as int,
                        -5,
                        -1,
                    ) by {
                        assert(out@[j] == out_before[j]);
                        assert(emitted_for_car(*self, out_before[j], ci as int, -5, -1));
                        let d = choose|d: int|
                            #[trigger] succ_rec(*self, out_before[j], ci as int, d) && -5 <= d
                                <= -1;
                        assert(succ_rec(*self, out@[j], ci as int, d));
                    }
                    assert forall|j: int|
                        len_mid <= j < out@.len() implies emitted_for_car(
                        *self,
                        #[trigger] out@[j],
                        ci as int,
                        1,
                        i as int,
                    ) by {
                        if j < out_before.len() {
                            assert(out@[j] == out_before[j]);
                            assert(emitted_for_car(
                                *self,
                                out_before[j],
                                ci as int,
                                1,
                                (i as int) - 1,
                            ));
                            let d = choose|d: int|
                                #[trigger] succ_rec(*self, out_before[j], ci as int, d) && 1 <= d
                                    <= (i as int) - 1;
                            assert(succ_rec(*self, out@[j], ci as int, d));
                        } else {
                            assert(out@[j] == out@.last());
                        }
                    }
                    assert forall|j1: int, j2: int|
                        0 <= j1 < j2 < out@.len() implies (#[trigger] out@[j1]).cars@ != (
                    #[trigger] out@[j2]).cars@ by {
                        if j2 < out_before.len() {
                            assert(out@[j1] == out_before[j1] && out@[j2] == out_before[j2]);
                        } else {
                            assert(out@[j2] == out@.last());
                            assert(out@[j1] == out_before[j1]);
                            if j1 < len_car {
                                assert(emitted_before_car(*self, out_before[j1], ci as int));
                                let (i1, d1) = choose|i1: int, d1: int|
                                    #[trigger] succ_rec(*self, out_before[j1], i1, d1) && i1 < ci;
                                lemma_rec_distinct(
                                    *self,
                                    out@[j1],
                                    out@[j2],
                                    i1,
                                    d1,
                                    ci as int,
                                    i as int,
                                );
                            } else if j1 < len_mid {
                                assert(emitted_for_car(*self, out_before[j1], ci as int, -5, -1));
                                let d1 = choose|d1: int|
                                    #[trigger] succ_rec(*self, out_before[j1], ci as int, d1) && -5
                                        <= d1 <= -1;
                                lemma_rec_distinct(
                                    *self,
                                    out@[j1],
                                    out@[j2],
                                    ci as int,
                                    d1,
                                    ci as int,
                                    i as int,
                                );
                            } else {
                                assert(emitted_for_car(
                                    *self,
                                    out_before[j1],
                                    ci as int,
                                    1,
                                    (i as int) - 1,
                                ));
                                let d1 = choose|d1: int|
                                    #[trigger] succ_rec(*self, out_before[j1], ci as int, d1) && 1
                                        <= d1 <= (i as int) - 1;
                                lemma_rec_distinct(
                                    *self,
                                    out@[j1],
                                    out@[j2],
                                    ci as int,
                                    d1,
                                    ci as int,
                                    i as int,
                                );
                            }
                        }
                    }
                }
                i += 1;
            }
            proof {
                assert forall|i2: int, d2: int|
                    0 <= i2 < ci + 1 && #[trigger] slide_legal(
                        self.array@,
                        self.cars@[i2],
                        d2,
                    ) implies emitted(*self, out@, i2, d2) by {
                    if i2 == ci {
                        assert(d2 != 0);
                    }
                }
                assert forall|j: int|
                    0 <= j < out@.len() implies emitted_before_car(
                    *self,
                    #[trigger] out@[j],
                    ci + 1,
                ) by {
                    if j < len_car {
                        let (i1, d1) = choose|i1: int, d1: int|
                            #[trigger] succ_rec(*self, out@[j], i1, d1) && i1 < ci;
                    } else {
                        let d = choose|d: int|
                            #[trigger] succ_rec(*self, out@[j], ci as int, d) && -6 <= d <= 6;
                    }
                }
            }
        }
        proof {
            assert forall|j: int| 0 <= j < out@.len() implies (#[trigger] out@[j]).wf() && is_succ(
                self.cars@,
                out@[j].cars@,
            ) by {
                let (i, delta) = choose|i: int, delta: int| #[trigger] succ_rec(*self, out@[j], i, delta);
                assert(slide_legal(render(self.cars@), self.cars@[i], delta));
            }
        }
        out
    }
}

/// A car is determined by its label and its cells: two well-placed cars of
/// the same label occupying the same cells are the same car.
pub proof fn lemma_car_from_cells(c1: Car, c2: Car)
    requires
        car_ok(c1),
        car_ok(c2),
        c1.colour == c2.colour,
        forall|k: int| #[trigger] occ(c1, k) <==> #[trigger] occ(c2, k),
    ensures
        c1 == c2,
{
    let b1 = car_base(c1);
    let b2 = car_base(c2);
    assert(occ(c1, b1) && occ(c2, b2));
    assert(occ(c2, b1) && occ(c1, b2));
    assert(b1 == b2) by {
        assert(car_step(c1) > 0 && car_step(c2) > 0);
    }
    assert(c1.vertical == c2.vertical) by {
        if c1.vertical != c2.vertical {
            let (v, h) = if c1.vertical {
                (c1, c2)
            } else {
                (c2, c1)
            };
            assert(occ(v, b1 + 6));
            assert(occ(h, b1 + 6));
        }
    }
    assert(c1.truck == c2.truck) by {
        if c1.truck != c2.truck {
            let (t, n) = if c1.truck {
                (c1, c2)
            } else {
                (c2, c1)
            };
            assert(occ(t, b1 + 2 * car_step(t)));
            assert(occ(n, b1 + 2 * car_step(t)));
        }
    }
    assert(c1.x == c2.x && c1.y == c2.y) by {
        assert(c1.y * 6 + c1.x == c2.y * 6 + c2.x);
        assert(c1.x < 6 && c2.x < 6);
    }
}

/// In equal renderings of two well-formed vehicle lists, every car of the
/// one list appears, as the same value, in the other: the rendering
/// determines the vehicles.
pub proof fn lemma_render_car_match(cs1: Seq<Car>, cs2: Seq<Car>, i: int) -> (j: int)
    requires
        cars_ok(cs1),
        cars_ok(cs2),
        render(cs1) == render(cs2),
        0 <= i < cs1.len(),
    ensures
        0 <= j < cs2.len(),
        cs2[j] == cs1[i],
{
    let g = render(cs1);
    lemma_render_char(cs1);
    lemma_render_char(cs2);
    let c = cs1[i];
    let k0 = car_base(c);
    assert(occ(c, k0));
    lemma_occ_in_range(c, k0);
    assert(g[k0] == c.colour);
    assert(covered(cs2, k0)) by {
        if !covered(cs2, k0) {
            assert(render(cs2)[k0] == 46);
        }
    }
    let j = choose|j: int| 0 <= j < cs2.len() && occ(#[trigger] cs2[j], k0);
    assert(g[k0] == cs2[j].colour);
    assert forall|k: int| #[trigger] occ(c, k) <==> #[trigger] occ(cs2[j], k) by {
        if occ(c, k) {
            lemma_occ_in_range(c, k);
            assert(g[k] == c.colour);
            assert(covered(cs2, k)) by {
                if !covered(cs2, k) {
                    assert(render(cs2)[k] == 46);
                }
            }
            let j2 = choose|j2: int| 0 <= j2 < cs2.len() && occ(#[trigger] cs2[j2], k);
            assert(g[k] == cs2[j2].colour);
            assert(j2 == j) by {
                if j2 != j {
                    assert(cs2[j2].colour != cs2[j].colour);
                }
            }
        }
        if occ(cs2[j], k) {
            lemma_occ_in_range(cs2[j], k);
            assert(g[k] == cs2[j].colour);
            assert(covered(cs1, k)) by {
                if !covered(cs1, k) {
                    assert(render(cs1)[k] == 46);
                }
            }
            let i2 = choose|i2: int| 0 <= i2 < cs1.len() && occ(#[trigger] cs1[i2], k);
            assert(g[k] == cs1[i2].colour);
            assert(i2 == i) by {
                if i2 != i {
                    assert(cs1[i2].colour != cs1[i].colour);
                }
            }
        }
    }
    lemma_car_from_cells(c, cs2[j]);
    j
}

/// State identity: two well-formed vehicle lists have the same rendering
/// exactly when they hold the same cars, in whatever order. Deduplicating
/// search states by rendering therefore identifies precisely the states
/// whose vehicles agree, independently of enumeration order.
pub proof fn lemma_render_identity(cs1: Seq<Car>, cs2: Seq<Car>)
    requires
        cars_ok(cs1),
        cars_ok(cs2),
    ensures
        render(cs1) == render(cs2) <==> (forall|c: Car|
            #[trigger] has_car(cs1, c) <==> has_car(cs2, c)),
{
    if render(cs1) == render(cs2) {
        assert forall|c: Car| #[trigger] has_car(cs1, c) <==> has_car(cs2, c) by {
            if has_car(cs1, c) {
                let i = choose|i: int| 0 <= i < cs1.len() && #[trigger] cs1[i] == c;
                let j = lemma_render_car_match(cs1, cs2, i);
                assert(cs2[j] == c);
            }
            if has_car(cs2, c) {
                let j = choose|j: int| 0 <= j < cs2.len() && #[trigger] cs2[j] == c;
                let i = lemma_render_car_match(cs2, cs1, j);
                assert(cs1[i] == c);
            }
        }
    }
    if forall|c: Car| #[trigger] has_car(cs1, c) <==> has_car(cs2, c) {
        lemma_render_char(cs1);
        lemma_render_char(cs2);
        assert(render(cs1) =~= render(cs2)) by {
            assert forall|k: int| 0 <= k < 36 implies render(cs1)[k] == render(cs2)[k] by {
                if covered(cs1, k) {
                    let i = choose|i: int| 0 <= i < cs1.len() && occ(#[trigger] cs1[i], k);
                    assert(has_car(cs1, cs1[i]));
                    assert(has_car(cs2, cs1[i]));
                    let j = choose|j: int| 0 <= j < cs2.len() && #[trigger] cs2[j] == cs1[i];
                    assert(occ(cs2[j], k));
                    assert(render(cs1)[k] == cs1[i].colour);
                    assert(render(cs2)[k] == cs2[j].colour);
                } else {
                    assert(!covered(cs2, k)) by {
                        if covered(cs2, k) {
                            let j = choose|j: int| 0 <= j < cs2.len() && occ(#[trigger] cs2[j], k);
                            assert(has_car(cs2, cs2[j]));
                            assert(has_car(cs1, cs2[j]));
                            let i = choose|i: int| 0 <= i < cs1.len() && #[trigger] cs1[i] == cs2[j];
                            assert(occ(cs1[i], k));
                        }
                    }
                    assert(render(cs1)[k] == 46 && render(cs2)[k] == 46);
                }
            }
        }
    }
}

/// Successor renderings do not depend on which well-formed vehicle list
/// renders a state: a legal slide available from one list is matched, up to
/// rendering, by a legal slide from any other list with the same rendering.
pub proof fn lemma_succ_transfer(cs1: Seq<Car>, cs2: Seq<Car>, cs1n: Seq<Car>)
    requires
        cars_ok(cs1),
        cars_ok(cs2),
        render(cs1) == render(cs2),
        is_succ(cs1, cs1n),
    ensures
        exists|cs2n: Seq<Car>| #[trigger] is_succ(cs2, cs2n) && render(cs2n) == render(cs1n),
{
    let (i, delta) = choose|i: int, delta: int|
        {
            &&& 0 <= i < cs1.len()
            &&& #[trigger] slide_legal(render(cs1), cs1[i], delta)
            &&& cs1n == cs1.update(i, slid_car(cs1[i], delta))
        };
    let j = lemma_render_car_match(cs1, cs2, i);
    let c = cs1[i];
    let c2 = slid_car(c, delta);
    assert(slide_legal(render(cs2), cs2[j], delta));
    let cs2n = cs2.update(j, c2);
    assert(is_succ(cs2, cs2n));
    lemma_slide_wf(cs1, i, delta);
    lemma_slide_wf(cs2, j, delta);
    lemma_render_char(cs1n);
    lemma_render_char(cs2n);
    assert(render(cs2n) =~= render(cs1n)) by {
        assert forall|k: int| 0 <= k < 36 implies render(cs1n)[k] == render(cs2n)[k] by {
            if occ(c2, k) {
                assert(cs1n[i] == c2 && cs2n[j] == c2);
                assert(render(cs1n)[k] == c2.colour && render(cs2n)[k] == c2.colour);
            } else if covered(cs1n, k) {
                let i2 = choose|i2: int| 0 <= i2 < cs1n.len() && occ(#[trigger] cs1n[i2], k);
                assert(i2 != i);
                assert(cs1n[i2] == cs1[i2]);
                let j2 = lemma_render_car_match(cs1, cs2, i2);
                assert(j2 != j) by {
                    if j2 == j {
                        assert(cs1[i2] == cs2[j] && cs2[j] == cs1[i]);
                        assert(cs1[i2].colour == cs1[i].colour);
                    }
                }
                assert(cs2n[j2] == cs2[j2] && cs2[j2] == cs1[i2]);
                assert(occ(cs2n[j2], k));
                assert(render(cs1n)[k] == cs1n[i2].colour);
                assert(render(cs2n)[k] == cs2n[j2].colour);
            } else {
                assert(render(cs1n)[k] == 46);
                assert(!covered(cs2n, k)) by {
                    if covered(cs2n, k) {
                        let j2 = choose|j2: int| 0 <= j2 < cs2n.len() && occ(#[trigger] cs2n[j2], k);
                        assert(j2 != j);
                        assert(cs2n[j2] == cs2[j2]);
                        let i2 = lemma_render_car_match(cs2, cs1, j2);
                        assert(i2 != i) by {
                            if i2 == i {
                                assert(cs2[j2] == cs1[i] && cs1[i] == cs2[j]);
                                assert(cs2[j2].colour == cs2[j].colour);
                            }
                        }
                        assert(cs1n[i2] == cs1[i2] && cs1[i2] == cs2[j2]);
                        assert(occ(cs1n[i2], k));
                    }
                }
                assert(render(cs2n)[k] == 46);
            }
        }
    }
}

/// The win condition: the goal vehicle's leading edge has reached the right
/// edge of row 2, so the cell at row 2, column 5 shows the goal label `X`.
pub open spec fn solved_grid(g: Seq<u8>) -> bool {
    g[17] == 88
}

/// The bytes of a move trail: each 3-byte record followed by `\n`.
pub open spec fn trace_bytes(ms: Seq<[u8; 3]>) -> Seq<u8>
    decreases ms.len(),
{
    if ms.len() == 0 {
        Seq::empty()
    } else {
        trace_bytes(ms.drop_last()) + ms.last()@ + seq![10u8]
    }
}

impl Board {
    /// Whether this state wins: the goal vehicle has reached the exit.
    pub fn is_solved(&self) -> (r: bool)
        ensures
            r == solved_grid(self.array@),
    {
        self.array[17] == 88u8
    }

    /// The move trail as text: one record per line, first slide first.
    pub fn moves_bytes(&self) -> (r: Vec<u8>)
        ensures
            r@ == trace_bytes(self.moves@),
    {
        let mut out: Vec<u8> = Vec::new();
        for i in 0..self.moves.len()
            invariant
                out@ == trace_bytes(self.moves@.take(i as int)),
        {
            let rec = self.moves[i];
            out.push(rec[0]);
            out.push(rec[1]);
            out.push(rec[2]);
            out.push(10u8);
            proof {
                let pre = self.moves@.take(i as int);
                let cur = self.moves@.take(i + 1);
                assert(cur.drop_last() =~= pre);
                assert(cur.last() == rec);
                assert(out@ =~= trace_bytes(pre) + rec@ + seq![10u8]);
            }
        }
        assert(self.moves@.take(self.moves@.len() as int) =~= self.moves@);
        out
    }
}

impl Clone for Board {
    /// An independent copy with the same vehicles, rendering and trail.
    fn clone(&self) -> (r: Board)
        ensures
            r.cars@ == self.cars@,
            r.array == self.array,
            r.moves@ == self.moves@,
    {
        let mut cars: Vec<Car> = Vec::new();
        for i in 0..self.cars.len()
            invariant
                cars@ == self.cars@.take(i as int),
        {
            cars.push(self.cars[i]);
            assert(cars@ =~= self.cars@.take(i + 1));
        }
        let mut moves: Vec<[u8; 3]> = Vec::new();
        for i in 0..self.moves.len()
            invariant
                moves@ == self.moves@.take(i as int),
        {
            moves.push(self.moves[i]);
            assert(moves@ =~= self.moves@.take(i + 1));
        }
        assert(self.cars@.take(self.cars@.len() as int) =~= self.cars@);
        assert(self.moves@.take(self.moves@.len() as int) =~= self.moves@);
        Board { cars, array: self.array, moves }
    }
}

/// The spec-level anchor orientation test used by vehicle extraction.
pub open spec fn vertical_at(g: Seq<u8>, x: int, y: int) -> bool {
    y < 5 && g[y * 6 + x] == g[(y + 1) * 6 + x]
}

/// The spec-level length test used by vehicle extraction.
pub open spec fn truck_at(g: Seq<u8>, x: int, y: int) -> bool {
    if vertical_at(g, x, y) {
        y < 4 && g[(y + 2) * 6 + x] == g[y * 6 + x]
    } else {
        x < 4 && g[y * 6 + x + 2] == g[y * 6 + x]
    }
}

/// Decoding is a left inverse of encoding: the canonical text of a decoded
/// grid is well formed, and decodes back to the same grid. Hence
/// `decode(encode(decode(t)))` equals `decode(t)` for every well-formed `t`.
pub proof fn lemma_codec_round_trip(t: Seq<u8>)
    requires
        text_ok(t),
    ensures
        text_ok(text_of_grid(grid_of_text(t))),
        grid_of_text(text_of_grid(grid_of_text(t))) == grid_of_text(t),
{
    let g = grid_of_text(t);
    let t2 = text_of_grid(g);
    assert forall|i: int| 0 <= i < 41 implies ((#[trigger] t2[i]) == 10 <==> i % 7 == 6) by {
        if i % 7 != 6 {
            let r = i / 7;
            let c = i % 7;
            lemma_rc7(r, c);
            assert(i == r * 7 + c);
            assert(0 <= r < 6 && 0 <= c < 6);
            let k = r * 6 + c;
            lemma_rc6(r, c);
            assert(t2[i] == g[k]);
            assert(g[k] == t[r * 7 + c]);
        }
    }
    assert(41int % 7 == 6);
    assert(text_ok(t2));
    assert forall|k: int| 0 <= k < 36 implies grid_of_text(t2)[k] == grid_of_text(t)[k] by {
        let r = k / 6;
        let c = k % 6;
        lemma_rc6(r, c);
        assert(k == r * 6 + c);
        assert(0 <= r < 6 && 0 <= c < 6);
        let i = r * 7 + c;
        lemma_rc7(r, c);
        assert(grid_of_text(t2)[k] == t2[i]);
        assert(t2[i] == g[r * 6 + c]);
    }
    assert(grid_of_text(t2) =~= grid_of_text(t));
}

} // verus!
