//! The maze: its cells, eight-directional movement, breadth-first
//! reachability with a verified shortest route, and the seeded generator
//! that fills characters, carves walls and places the exit, the start and
//! the collectibles.

use vstd::prelude::*;

use crate::matcher::char_in_pats;
use crate::matcher::lemma_edge_chars_in_pats;
use crate::matcher::lemma_no_null_edges;
use crate::matcher::no_null_edges;
use crate::matcher::no_null_pats;
use crate::matcher::Matcher;
use crate::matcher::TrieNode;
use crate::rng::rand_below;
use crate::rng::rng_from_seed;
use crate::settings::copy_words;
use crate::settings::Settings;

verus! {

/// A collectible marker a maze cell can carry.
#[derive(Clone, Copy, PartialEq, Eq, Debug)]
pub enum PowerUP {
    AriadneThread,
    HeliosTorch,
    OdinDraupnir,
    ThorMjolnir,
    BifrostBridge,
}

impl PowerUP {
    /// A one-line description of the power-up's effect.
    pub fn description(&self) -> &'static str {
        match self {
            PowerUP::AriadneThread => "Ariadne's thread : Magical thread that guides you through the maze, as it guided Theseus through the Labyrinth.",
            PowerUP::HeliosTorch => "The torch of helios : Illuminates dark areas with the brilliant light of the sun god's torch.",
            PowerUP::OdinDraupnir => "Draupnir : Multiplies by 8 your score with the power of Odin's self-replicating ring.",
            PowerUP::ThorMjolnir => "Thor's hammer : Destroys all walls within 3 cells radius, channeling Thor's mighty hammer Mjolnir.",
            PowerUP::BifrostBridge => "The BifrostBridge : Teleports you to a random position in the maze, using the power of the rainbow bridge that connects realms.",
        }
    }
}

/// One position of the maze: a display character, an optional collectible,
/// and the wall, visited and exit flags.
#[derive(Clone, Copy)]
pub struct MazeCell {
    pub value: char,
    pub power_up: Option<PowerUP>,
    pub wall: bool,
    pub visited: bool,
    pub exit: bool,
}

impl MazeCell {
    /// A blank cell: no character assigned yet, no flags set.
    pub fn blank() -> (c: MazeCell)
        ensures
            c.value == '\0',
            c.power_up is None,
            !c.wall,
            !c.visited,
            !c.exit,
    {
        MazeCell { value: '\0', power_up: None, wall: false, visited: false, exit: false }
    }

    /// An empty walled cell.
    pub fn wall() -> (c: MazeCell)
        ensures
            c.value == '\0',
            c.power_up is None,
            c.wall,
            !c.visited,
            !c.exit,
    {
        MazeCell { value: '\0', power_up: None, wall: true, visited: false, exit: false }
    }
}

impl Default for MazeCell {
    /// Same as [`MazeCell::blank`].
    fn default() -> (c: MazeCell)
        ensures
            c.value == '\0',
            c.power_up is None,
            !c.wall,
            !c.visited,
            !c.exit,
    {
        MazeCell::blank()
    }
}

/// The entire maze: a rectangular matrix of cells and the player location.
pub struct Maze {
    pub cells: Vec<Vec<MazeCell>>,
    pub player_location: (usize, usize),
    pub height: usize,
    pub width: usize,
}

/// The eight movement directions, counterclockwise.
pub open spec fn spec_dir(d: int) -> (int, int) {
    if d == 0 {
        (-1, 1)
    } else if d == 1 {
        (0, 1)
    } else if d == 2 {
        (1, 1)
    } else if d == 3 {
        (1, 0)
    } else if d == 4 {
        (1, -1)
    } else if d == 5 {
        (0, -1)
    } else if d == 6 {
        (-1, -1)
    } else {
        (-1, 0)
    }
}

/// The coordinates one step from `pos` in direction `d`.
pub open spec fn step_of(pos: (int, int), d: int) -> (int, int) {
    (pos.0 + spec_dir(d).0, pos.1 + spec_dir(d).1)
}

/// Two coordinates differ by one king move.
pub open spec fn adjacent8(a: (int, int), b: (int, int)) -> bool {
    &&& -1 <= b.0 - a.0 <= 1
    &&& -1 <= b.1 - a.1 <= 1
    &&& b != a
}

/// A king move is a step along one of the eight directions.
proof fn lemma_adjacent_dir(a: (int, int), b: (int, int))
    requires
        adjacent8(a, b),
    ensures
        exists|d: int| 0 <= d < 8 && step_of(a, d) == b,
{
    let di = b.0 - a.0;
    let dj = b.1 - a.1;
    if di == -1 && dj == 1 {
        assert(step_of(a, 0) == b);
    } else if di == 0 && dj == 1 {
        assert(step_of(a, 1) == b);
    } else if di == 1 && dj == 1 {
        assert(step_of(a, 2) == b);
    } else if di == 1 && dj == 0 {
        assert(step_of(a, 3) == b);
    } else if di == 1 && dj == -1 {
        assert(step_of(a, 4) == b);
    } else if di == 0 && dj == -1 {
        assert(step_of(a, 5) == b);
    } else if di == -1 && dj == -1 {
        assert(step_of(a, 6) == b);
    } else {
        assert(di == -1 && dj == 0);
        assert(step_of(a, 7) == b);
    }
}

/// The movement offsets of direction `d`.
fn dir_delta(d: usize) -> (r: (i64, i64))
    requires
        d < 8,
    ensures
        (r.0 as int, r.1 as int) == spec_dir(d as int),
{
    match d {
        0 => (-1, 1),
        1 => (0, 1),
        2 => (1, 1),
        3 => (1, 0),
        4 => (1, -1),
        5 => (0, -1),
        6 => (-1, -1),
        _ => (-1, 0),
    }
}

/// How many cells of the row satisfy `f`.
pub open spec fn row_count<T>(row: Seq<T>, f: spec_fn(T) -> bool) -> int
    decreases row.len(),
{
    if row.len() == 0 {
        0
    } else {
        row_count(row.drop_last(), f) + if f(row.last()) {
            1int
        } else {
            0int
        }
    }
}

/// How many cells of the whole grid satisfy `f`.
pub open spec fn grid_count<T>(cells: Seq<Vec<T>>, f: spec_fn(T) -> bool) -> int
    decreases cells.len(),
{
    if cells.len() == 0 {
        0
    } else {
        grid_count(cells.drop_last(), f) + row_count(cells.last()@, f)
    }
}

proof fn lemma_row_count_bounds<T>(row: Seq<T>, f: spec_fn(T) -> bool)
    ensures
        0 <= row_count(row, f) <= row.len(),
    decreases row.len(),
{
    if row.len() > 0 {
        lemma_row_count_bounds(row.drop_last(), f);
    }
}

proof fn lemma_grid_count_nonneg<T>(cells: Seq<Vec<T>>, f: spec_fn(T) -> bool)
    ensures
        0 <= grid_count(cells, f),
    decreases cells.len(),
{
    if cells.len() > 0 {
        lemma_grid_count_nonneg(cells.drop_last(), f);
        lemma_row_count_bounds(cells.last()@, f);
    }
}

proof fn lemma_row_count_update<T>(
    row: Seq<T>,
    j: int,
    c: T,
    f: spec_fn(T) -> bool,
)
    requires
        0 <= j < row.len(),
    ensures
        row_count(row.update(j, c), f) == row_count(row, f) + (if f(c) {
            1int
        } else {
            0int
        }) - (if f(row[j]) {
            1int
        } else {
            0int
        }),
    decreases row.len(),
{
    let row2 = row.update(j, c);
    if j == row.len() - 1 {
        assert(row2.drop_last() =~= row.drop_last());
        assert(row2.last() == c);
    } else {
        assert(row2.drop_last() =~= row.drop_last().update(j, c));
        assert(row2.last() == row.last());
        lemma_row_count_update(row.drop_last(), j, c, f);
    }
}

proof fn lemma_grid_count_update<T>(
    cells: Seq<Vec<T>>,
    rows2: Seq<Vec<T>>,
    i: int,
    j: int,
    c: T,
    f: spec_fn(T) -> bool,
)
    requires
        0 <= i < cells.len(),
        0 <= j < cells[i]@.len(),
        rows2.len() == cells.len(),
        rows2[i]@ == cells[i]@.update(j, c),
        forall|i2: int| 0 <= i2 < cells.len() && i2 != i ==> rows2[i2]@ == #[trigger] cells[i2]@,
    ensures
        grid_count(rows2, f) == grid_count(cells, f) + (if f(c) {
            1int
        } else {
            0int
        }) - (if f(cells[i]@[j]) {
            1int
        } else {
            0int
        }),
    decreases cells.len(),
{
    if i == cells.len() - 1 {
        assert(rows2.drop_last().len() == cells.drop_last().len());
        assert forall|i2: int|
            0 <= i2 < cells.drop_last().len() implies (#[trigger] rows2.drop_last()[i2])@
            == cells.drop_last()[i2]@ by {
            assert(rows2[i2]@ == cells[i2]@);
        }
        lemma_grid_count_same(cells.drop_last(), rows2.drop_last(), f);
        assert(rows2.last()@ == cells.last()@.update(j, c));
        lemma_row_count_update(cells.last()@, j, c, f);
    } else {
        assert(rows2.last()@ == cells.last()@);
        lemma_grid_count_update(cells.drop_last(), rows2.drop_last(), i, j, c, f);
    }
}

proof fn lemma_grid_count_same<T>(
    cells: Seq<Vec<T>>,
    rows2: Seq<Vec<T>>,
    f: spec_fn(T) -> bool,
)
    requires
        rows2.len() == cells.len(),
        forall|i2: int| 0 <= i2 < cells.len() ==> (#[trigger] rows2[i2])@ == cells[i2]@,
    ensures
        grid_count(rows2, f) == grid_count(cells, f),
    decreases cells.len(),
{
    if cells.len() > 0 {
        lemma_grid_count_same(cells.drop_last(), rows2.drop_last(), f);
        assert(rows2.last()@ == cells.last()@);
    }
}

/// How many cells of the row carry a collectible.
pub open spec fn row_power_ups(row: Seq<MazeCell>) -> int
    decreases row.len(),
{
    if row.len() == 0 {
        0
    } else {
        row_power_ups(row.drop_last()) + if row.last().power_up is Some {
            1int
        } else {
            0int
        }
    }
}

/// How many cells of the whole grid carry a collectible.
pub open spec fn count_power_ups(cells: Seq<Vec<MazeCell>>) -> int
    decreases cells.len(),
{
    if cells.len() == 0 {
        0
    } else {
        count_power_ups(cells.drop_last()) + row_power_ups(cells.last()@)
    }
}

proof fn lemma_row_power_ups_update(row: Seq<MazeCell>, j: int, c: MazeCell)
    requires
        0 <= j < row.len(),
    ensures
        row_power_ups(row.update(j, c)) == row_power_ups(row) + (if c.power_up is Some {
            1int
        } else {
            0int
        }) - (if row[j].power_up is Some {
            1int
        } else {
            0int
        }),
    decreases row.len(),
{
    let row2 = row.update(j, c);
    if j == row.len() - 1 {
        assert(row2.drop_last() =~= row.drop_last());
        assert(row2.last() == c);
    } else {
        assert(row2.drop_last() =~= row.drop_last().update(j, c));
        assert(row2.last() == row.last());
        lemma_row_power_ups_update(row.drop_last(), j, c);
    }
}

/// Changing one cell moves the collectible count by the difference the
/// cell's own marker makes.
proof fn lemma_count_power_ups_update(
    cells: Seq<Vec<MazeCell>>,
    rows2: Seq<Vec<MazeCell>>,
    i: int,
    j: int,
    c: MazeCell,
)
    requires
        0 <= i < cells.len(),
        0 <= j < cells[i]@.len(),
        rows2.len() == cells.len(),
        rows2[i]@ == cells[i]@.update(j, c),
        forall|i2: int| 0 <= i2 < cells.len() && i2 != i ==> rows2[i2]@ == #[trigger] cells[i2]@,
    ensures
        count_power_ups(rows2) == count_power_ups(cells) + (if c.power_up is Some {
            1int
        } else {
            0int
        }) - (if cells[i]@[j].power_up is Some {
            1int
        } else {
            0int
        }),
    decreases cells.len(),
{
    if i == cells.len() - 1 {
        assert(rows2.drop_last().len() == cells.drop_last().len());
        assert forall|i2: int|
            0 <= i2 < cells.drop_last().len() implies (#[trigger] rows2.drop_last()[i2])@
            == cells.drop_last()[i2]@ by {
            assert(rows2[i2]@ == cells[i2]@);
        }
        lemma_count_power_ups_same(cells.drop_last(), rows2.drop_last());
        assert(rows2.last()@ == cells.last()@.update(j, c));
        lemma_row_power_ups_update(cells.last()@, j, c);
    } else {
        assert(rows2.last()@ == cells.last()@);
        lemma_count_power_ups_update(cells.drop_last(), rows2.drop_last(), i, j, c);
    }
}

proof fn lemma_count_power_ups_same(cells: Seq<Vec<MazeCell>>, rows2: Seq<Vec<MazeCell>>)
    requires
        rows2.len() == cells.len(),
        forall|i2: int| 0 <= i2 < cells.len() ==> (#[trigger] rows2[i2])@ == cells[i2]@,
    ensures
        count_power_ups(rows2) == count_power_ups(cells),
    decreases cells.len(),
{
    if cells.len() > 0 {
        lemma_count_power_ups_same(cells.drop_last(), rows2.drop_last());
        assert(rows2.last()@ == cells.last()@);
    }
}

proof fn lemma_row_power_ups_zero(row: Seq<MazeCell>)
    requires
        forall|j: int| 0 <= j < row.len() ==> (#[trigger] row[j]).power_up is None,
    ensures
        row_power_ups(row) == 0,
    decreases row.len(),
{
    if row.len() > 0 {
        lemma_row_power_ups_zero(row.drop_last());
    }
}

/// A grid with no collectible anywhere counts zero.
proof fn lemma_count_power_ups_zero(cells: Seq<Vec<MazeCell>>)
    requires
        forall|i: int, j: int|
            #![trigger cells[i]@[j]]
            0 <= i < cells.len() && 0 <= j < cells[i]@.len() ==> cells[i]@[j].power_up is None,
    ensures
        count_power_ups(cells) == 0,
    decreases cells.len(),
{
    if cells.len() > 0 {
        lemma_count_power_ups_zero(cells.drop_last());
        lemma_row_power_ups_zero(cells.last()@);
    }
}

/// A character the fill may write: a lowercase letter or the label of
/// some automaton edge.
pub open spec fn is_fill_char(nodes: Seq<TrieNode>, c: char) -> bool {
    (97 <= c as int <= 122) || exists|s: int, k: int|
        0 <= s < nodes.len() && 0 <= k < nodes[s].children@.len() && ((
        #[trigger] nodes[s].children@[k]).0) == c
}

/// A walk from `src` through cells that lie inside the maze, are
/// wall-free and still carry no character: what the fill is owed to reach.
pub open spec fn blank_path(m: Maze, src: (int, int), p: Seq<(int, int)>) -> bool {
    &&& forall|k: int|
        0 <= k < p.len() ==> m.in_bounds((#[trigger] p[k]).0, p[k].1) && !m.cell(
            p[k].0,
            p[k].1,
        ).wall && m.cell(p[k].0, p[k].1).value == '\0'
    &&& forall|k: int|
        0 <= k < p.len() ==> adjacent8(
            if k == 0 {
                src
            } else {
                p[k - 1]
            },
            #[trigger] p[k],
        )
}

/// `c` is one of the cells waiting on the fill's work list.
pub open spec fn in_stk(st: Seq<((usize, usize), usize)>, c: (int, int)) -> bool {
    exists|idx: int|
        0 <= idx < st.len() && ((((#[trigger] st[idx]).0).0 as int, (st[idx].0).1 as int)) == c
}

/// Walking any blank free path from a processed origin, every cell on it
/// was processed by the fill and ends with a character.
proof fn lemma_fill_reaches(
    a: Maze,
    b: Maze,
    processed: Set<(int, int)>,
    src: (int, int),
    p: Seq<(int, int)>,
    k: int,
)
    requires
        a.wf(),
        b.wf(),
        same_flags(a, b),
        forall|c: (int, int), d: int|
            #![trigger processed.contains(c), spec_dir(d)]
            processed.contains(c) && 0 <= d < 8 ==> {
                let t = step_of(c, d);
                b.in_bounds(t.0, t.1) && !b.cell(t.0, t.1).wall ==> b.cell(t.0, t.1).value != '\0'
            },
        forall|i: int, j: int|
            #![trigger b.cells@[i]@[j]]
            a.in_bounds(i, j) && a.cell(i, j).value == '\0' && b.cell(i, j).value != '\0'
                ==> processed.contains((i, j)),
        processed.contains(src),
        blank_path(a, src, p),
        0 <= k < p.len(),
    ensures
        b.cell(p[k].0, p[k].1).value != '\0',
        processed.contains(p[k]),
    decreases k,
{
    let prev = if k == 0 {
        src
    } else {
        p[k - 1]
    };
    if k > 0 {
        lemma_fill_reaches(a, b, processed, src, p, k - 1);
    }
    assert(processed.contains(prev));
    lemma_adjacent_dir(prev, p[k]);
    let d = choose|d: int| 0 <= d < 8 && step_of(prev, d) == p[k];
    assert(spec_dir(d) == spec_dir(d));
    assert(b.in_bounds(p[k].0, p[k].1));
    assert(!b.cell(p[k].0, p[k].1).wall) by {
        assert(b.cells@[p[k].0]@[p[k].1].wall == a.cells@[p[k].0]@[p[k].1].wall);
    }
    assert(b.cell(p[k].0, p[k].1).value != '\0');
}

/// On a blank, wall-free grid, every cell is the end of some blank path
/// from any other cell.
proof fn lemma_blank_grid_path(m: Maze, src: (int, int), dst: (int, int))
    requires
        m.wf(),
        forall|i: int, j: int|
            #![trigger m.cells@[i]@[j]]
            m.in_bounds(i, j) ==> !m.cell(i, j).wall && m.cell(i, j).value == '\0',
        m.in_bounds(src.0, src.1),
        m.in_bounds(dst.0, dst.1),
        dst != src,
    ensures
        exists|p: Seq<(int, int)>|
            #[trigger] blank_path(m, src, p) && p.len() >= 1 && p[p.len() - 1] == dst,
    decreases (if dst.0 >= src.0 {
        dst.0 - src.0
    } else {
        src.0 - dst.0
    }) + (if dst.1 >= src.1 {
        dst.1 - src.1
    } else {
        src.1 - dst.1
    }),
{
    if adjacent8(src, dst) {
        let p = seq![dst];
        assert(blank_path(m, src, p) && p.len() >= 1 && p[p.len() - 1] == dst);
    } else {
        let s0: int = if dst.0 > src.0 {
            1
        } else if dst.0 < src.0 {
            -1
        } else {
            0
        };
        let s1: int = if dst.1 > src.1 {
            1
        } else if dst.1 < src.1 {
            -1
        } else {
            0
        };
        let prev = (dst.0 - s0, dst.1 - s1);
        assert(prev != src);
        assert(m.in_bounds(prev.0, prev.1));
        lemma_blank_grid_path(m, src, prev);
        let p0 = choose|p0: Seq<(int, int)>|
            #[trigger] blank_path(m, src, p0) && p0.len() >= 1 && p0[p0.len() - 1] == prev;
        let p = p0.push(dst);
        assert(blank_path(m, src, p)) by {
            assert(forall|k: int| 0 <= k < p0.len() ==> p[k] == #[trigger] p0[k]);
            assert(p[p.len() - 1] == dst);
            assert(adjacent8(prev, dst));
        }
        assert(p.len() >= 1 && p[p.len() - 1] == dst);
    }
}

/// `b` is `a` with at most the display characters changed.
pub open spec fn same_flags(a: Maze, b: Maze) -> bool {
    &&& b.height == a.height
    &&& b.width == a.width
    &&& b.player_location == a.player_location
    &&& b.cells@.len() == a.cells@.len()
    &&& forall|i: int|
        0 <= i < a.cells@.len() ==> (#[trigger] b.cells@[i])@.len() == a.cells@[i]@.len()
    &&& forall|i: int, j: int|
        #![trigger b.cells@[i]@[j]]
        0 <= i < a.cells@.len() && 0 <= j < a.cells@[i]@.len() ==> {
            &&& b.cells@[i]@[j].wall == a.cells@[i]@[j].wall
            &&& b.cells@[i]@[j].exit == a.cells@[i]@[j].exit
            &&& b.cells@[i]@[j].visited == a.cells@[i]@[j].visited
            &&& b.cells@[i]@[j].power_up == a.cells@[i]@[j].power_up
        }
}

/// The cells a carving call walls form one line: a chain of king moves
/// starting at the seed, every link walled afterwards, covering every
/// cell whose wall flag the call raised.
pub open spec fn walled_chain(a: Maze, b: Maze, seed: (int, int), chain: Seq<(int, int)>) -> bool {
    &&& chain.len() >= 1
    &&& chain[0] == seed
    &&& forall|k: int| 1 <= k < chain.len() ==> adjacent8(chain[k - 1], #[trigger] chain[k])
    &&& forall|k: int|
        0 <= k < chain.len() ==> b.in_bounds((#[trigger] chain[k]).0, chain[k].1) && b.cell(
            chain[k].0,
            chain[k].1,
        ).wall
    &&& forall|ii: int, jj: int|
        #![trigger b.cells@[ii]@[jj]]
        a.in_bounds(ii, jj) && !a.cell(ii, jj).wall && b.cell(ii, jj).wall ==> exists|k: int|
            0 <= k < chain.len() && chain[k] == ((ii, jj))
}

/// `b` is `a` with at most some wall flags newly raised.
pub open spec fn same_but_walls(a: Maze, b: Maze) -> bool {
    &&& b.height == a.height
    &&& b.width == a.width
    &&& b.player_location == a.player_location
    &&& b.cells@.len() == a.cells@.len()
    &&& forall|i: int|
        0 <= i < a.cells@.len() ==> (#[trigger] b.cells@[i])@.len() == a.cells@[i]@.len()
    &&& forall|i: int, j: int|
        #![trigger b.cells@[i]@[j]]
        0 <= i < a.cells@.len() && 0 <= j < a.cells@[i]@.len() ==> {
            &&& b.cells@[i]@[j].value == a.cells@[i]@[j].value
            &&& b.cells@[i]@[j].exit == a.cells@[i]@[j].exit
            &&& b.cells@[i]@[j].visited == a.cells@[i]@[j].visited
            &&& b.cells@[i]@[j].power_up == a.cells@[i]@[j].power_up
            &&& (a.cells@[i]@[j].wall ==> b.cells@[i]@[j].wall)
        }
}

/// A lowercase letter of the alphabet.
fn alphabet_char(k: usize) -> (c: char)
    requires
        k < 26,
    ensures
        97 <= c as int <= 122,
{
    let b: u8 = 97u8 + (k as u8);
    b as char
}

/// `d` occurs among the direction indices.
pub open spec fn dirs_contain(s: Seq<usize>, d: int) -> bool {
    exists|k: int| 0 <= k < s.len() && ((#[trigger] s[k]) as int) == d
}

/// Draws the next fill character: with the configured probability a
/// uniform pick among the state's outgoing edges (uniform over the
/// alphabet if there are none), else uniform over the alphabet.
fn pick_fill_char(
    word_builder: &Matcher,
    state: usize,
    word_prob_permille: u32,
    rng: &mut rand::rngs::StdRng,
) -> (c: char)
    requires
        word_builder.wf(),
        (state as int) < word_builder.nodes@.len(),
    ensures
        is_fill_char(word_builder.nodes@, c),
        no_null_edges(word_builder.nodes@) ==> c != '\0',
{
    let use_word = rand_below(rng, 1000) < (word_prob_permille as usize);
    let opts = word_builder.options(state);
    if use_word && opts.len() > 0 {
        let pick = rand_below(rng, opts.len());
        let c = opts[pick];
        proof {
            assert(word_builder.nodes@[state as int].children@[pick as int].0 == c);
        }
        c
    } else {
        alphabet_char(rand_below(rng, 26))
    }
}

/// The eight direction indices in a random order: a permutation of them,
/// shuffled in place.
fn shuffled_directions(rng: &mut rand::rngs::StdRng) -> (r: Vec<usize>)
    ensures
        r@.len() == 8,
        forall|k: int| 0 <= k < 8 ==> (#[trigger] r@[k]) < 8,
        forall|d: int| 0 <= d < 8 ==> #[trigger] dirs_contain(r@, d),
        r@.no_duplicates(),
{
    let mut v: Vec<usize> = Vec::new();
    let mut d: usize = 0;
    while d < 8
        invariant
            d <= 8,
            v@.len() == d,
            forall|k: int| 0 <= k < d ==> (#[trigger] v@[k]) as int == k,
        decreases 8 - d,
    {
        v.push(d);
        d = d + 1;
    }
    proof {
        assert forall|d2: int| 0 <= d2 < 8 implies #[trigger] dirs_contain(v@, d2) by {
            assert((v@[d2] as int) == d2);
        }
    }
    let mut k: usize = 8;
    while k > 1
        invariant
            1 <= k <= 8,
            v@.len() == 8,
            forall|t: int| 0 <= t < 8 ==> (#[trigger] v@[t]) < 8,
            forall|d2: int| 0 <= d2 < 8 ==> #[trigger] dirs_contain(v@, d2),
            v@.no_duplicates(),
        decreases k,
    {
        let idx = rand_below(rng, k);
        let ghost v0 = v@;
        let a = v[k - 1];
        let b = v[idx];
        v[k - 1] = b;
        v[idx] = a;
        proof {
            // a swap keeps every value present, each exactly once
            assert(v@ == v0.update(k - 1, b).update(idx as int, a));
            assert forall|d2: int| 0 <= d2 < 8 implies #[trigger] dirs_contain(v@, d2) by {
                assert(dirs_contain(v0, d2));
                let t0 = choose|t0: int| 0 <= t0 < 8 && ((#[trigger] v0[t0]) as int) == d2;
                if t0 == k - 1 {
                    assert(v@[idx as int] as int == d2);
                } else if t0 == idx as int {
                    assert(v@[k - 1] as int == d2);
                } else {
                    assert(v@[t0] as int == d2);
                }
            }
            assert forall|t1: int, t2: int| 0 <= t1 < t2 < 8 implies v@[t1] != v@[t2] by {
                let o1: int = if t1 == k - 1 {
                    idx as int
                } else if t1 == idx as int {
                    k - 1
                } else {
                    t1
                };
                let o2: int = if t2 == k - 1 {
                    idx as int
                } else if t2 == idx as int {
                    k - 1
                } else {
                    t2
                };
                assert(v@[t1] == v0[o1] && v@[t2] == v0[o2]);
                assert(o1 != o2);
                if o1 < o2 {
                    assert(v0[o1] != v0[o2]);
                } else {
                    assert(v0[o2] != v0[o1]);
                }
            }
        }
        k = k - 1;
    }
    v
}

/// A grid of the given dimensions with every entry equal to `t`.
fn filled_grid<T: Copy>(h: usize, w: usize, t: T) -> (g: Vec<Vec<T>>)
    ensures
        g@.len() == h,
        forall|i: int| 0 <= i < h ==> (#[trigger] g@[i])@.len() == w,
        forall|i: int, j: int| #![trigger g@[i]@[j]] 0 <= i < h && 0 <= j < w ==> g@[i]@[j] == t,
{
    let mut g: Vec<Vec<T>> = Vec::new();
    let mut i: usize = 0;
    while i < h
        invariant
            i <= h,
            g@.len() == i,
            forall|i2: int| 0 <= i2 < i ==> (#[trigger] g@[i2])@.len() == w,
            forall|i2: int, j: int|
                #![trigger g@[i2]@[j]]
                0 <= i2 < i && 0 <= j < w ==> g@[i2]@[j] == t,
        decreases h - i,
    {
        let mut row: Vec<T> = Vec::new();
        let mut j: usize = 0;
        while j < w
            invariant
                j <= w,
                row@.len() == j,
                forall|j2: int| 0 <= j2 < j ==> (#[trigger] row@[j2]) == t,
            decreases w - j,
        {
            row.push(t);
            j = j + 1;
        }
        g.push(row);
        i = i + 1;
    }
    g
}

/// Stepping in direction `d` and then in the opposite direction leads back.
proof fn lemma_dir_inverse(a: (int, int), d: int)
    requires
        0 <= d < 8,
    ensures
        step_of(step_of(a, d), (d + 4) % 8) == a,
        adjacent8(a, step_of(a, d)),
        adjacent8(step_of(a, d), a),
{
    if d == 0 {
    } else if d == 1 {
    } else if d == 2 {
    } else if d == 3 {
    } else if d == 4 {
    } else if d == 5 {
    } else if d == 6 {
    } else {
    }
}

/// A coordinate list as mathematical pairs.
pub open spec fn coords_view(p: Seq<(usize, usize)>) -> Seq<(int, int)> {
    p.map_values(|q: (usize, usize)| (q.0 as int, q.1 as int))
}

/// One route from `src`: each step lands inside the grid on a wall-free
/// cell, consecutive cells are one king move apart, and the last cell is
/// an exit (the source itself, which the route excludes, when it is empty).
pub open spec fn route_ok(m: Maze, src: (int, int), p: Seq<(int, int)>) -> bool {
    &&& forall|k: int|
        0 <= k < p.len() ==> m.in_bounds((#[trigger] p[k]).0, p[k].1) && !m.cell(
            p[k].0,
            p[k].1,
        ).wall
    &&& forall|k: int|
        0 <= k < p.len() ==> adjacent8(
            if k == 0 {
                src
            } else {
                p[k - 1]
            },
            #[trigger] p[k],
        )
    &&& ({
        let e = if p.len() == 0 {
            src
        } else {
            p[p.len() - 1]
        };
        m.in_bounds(e.0, e.1) && m.cell(e.0, e.1).exit
    })
}

/// The breadth-first bookkeeping: every recorded direction points one king
/// move backward, toward a cell that is one step closer to the source.
pub open spec fn bfs_links_wf(
    m: Maze,
    nd: Seq<Vec<Option<usize>>>,
    dist: Map<(int, int), int>,
    src: (int, int),
) -> bool {
    &&& dist.contains_key(src)
    &&& dist[src] == 0
    &&& forall|i: int, j: int|
        #![trigger nd[i]@[j]]
        m.in_bounds(i, j) && nd[i]@[j] is Some ==> {
            let d = nd[i]@[j]->0 as int;
            let prev = step_of((i, j), d);
            &&& 0 <= d < 8
            &&& (i, j) != src
            &&& !m.cell(i, j).wall
            &&& m.in_bounds(prev.0, prev.1)
            &&& (prev == src || nd[prev.0]@[prev.1] is Some)
            &&& dist.contains_key((i, j))
            &&& dist.contains_key(prev)
            &&& dist[(i, j)] == dist[prev] + 1
            &&& dist[(i, j)] >= 1
        }
}

/// Walking any route from the source, each cell reached within `k` steps
/// either was searched at a recorded distance of at most `k + 1`, or the
/// found exit's distance is already at most `k + 1`: the search never
/// takes an exit out of the frontier later than the closest one.
proof fn lemma_route_min(
    m: Maze,
    vis: Seq<Vec<bool>>,
    nd: Seq<Vec<Option<usize>>>,
    dist: Map<(int, int), int>,
    srci: (int, int),
    e: (int, int),
    p: Seq<(int, int)>,
    k: int,
)
    requires
        m.wf(),
        vis.len() == m.height,
        forall|i: int| 0 <= i < m.height ==> (#[trigger] vis[i])@.len() == m.width,
        m.in_bounds(srci.0, srci.1),
        vis[srci.0]@[srci.1],
        dist.contains_key(srci),
        dist[srci] == 0,
        dist.contains_key(e),
        // every free neighbor of a searched cell except the found one is
        // discovered at most one level deeper
        forall|i: int, j: int, d: int|
            #![trigger vis[i]@[j], spec_dir(d)]
            m.in_bounds(i, j) && vis[i]@[j] && 0 <= d < 8 && (i, j) != e ==> {
                let t = step_of((i, j), d);
                m.in_bounds(t.0, t.1) && !m.cell(t.0, t.1).wall ==> ((t == srci || nd[t.0]@[t.1] is Some)
                    && dist.contains_key(t) && dist[t] <= dist[(i, j)] + 1)
            },
        // cells discovered but not yet searched are no closer than the
        // found exit
        forall|i: int, j: int|
            #![trigger nd[i]@[j]]
            m.in_bounds(i, j) && nd[i]@[j] is Some && !vis[i]@[j] ==> dist.contains_key((i, j))
                && dist[(i, j)] >= dist[e],
        forall|i: int, j: int|
            #![trigger vis[i]@[j]]
            m.in_bounds(i, j) && vis[i]@[j] ==> dist.contains_key((i, j)),
        forall|t2: int|
            0 <= t2 < p.len() ==> m.in_bounds((#[trigger] p[t2]).0, p[t2].1) && !m.cell(
                p[t2].0,
                p[t2].1,
            ).wall,
        forall|t2: int|
            0 <= t2 < p.len() ==> adjacent8(
                if t2 == 0 {
                    srci
                } else {
                    p[t2 - 1]
                },
                #[trigger] p[t2],
            ),
        0 <= k < p.len(),
    ensures
        (vis[p[k].0]@[p[k].1] && dist.contains_key(p[k]) && dist[p[k]] <= k + 1 && p[k] != e)
            || dist[e] <= k + 1,
    decreases k,
{
    let prev = if k == 0 {
        srci
    } else {
        p[k - 1]
    };
    let mut prev_ok = false;
    if k == 0 {
        if srci == e {
            assert(dist[e] <= k + 1);
        } else {
            prev_ok = true;
        }
    } else {
        lemma_route_min(m, vis, nd, dist, srci, e, p, k - 1);
        if vis[p[k - 1].0]@[p[k - 1].1] && dist[p[k - 1]] <= k && p[k - 1] != e {
            prev_ok = true;
        } else {
            assert(dist[e] <= k);
        }
    }
    if prev_ok {
        assert(vis[prev.0]@[prev.1] && dist.contains_key(prev) && dist[prev] <= k && prev != e);
        lemma_adjacent_dir(prev, p[k]);
        let d = choose|d: int| 0 <= d < 8 && step_of(prev, d) == p[k];
        assert(spec_dir(d) == spec_dir(d));
        let t = p[k];
        assert((t == srci || nd[t.0]@[t.1] is Some) && dist.contains_key(t) && dist[t] <= dist[prev]
            + 1);
        if t == e {
            assert(dist[e] <= k + 1);
        } else if vis[t.0]@[t.1] {
        } else {
            assert(t != srci);
            assert(nd[t.0]@[t.1] is Some);
            assert(dist[t] >= dist[e]);
            assert(dist[e] <= k + 1);
        }
    }
}

/// Recording a fresh back direction for one newly discovered cell keeps
/// every recorded direction pointing one step back toward the source.
proof fn lemma_links_after_discover(
    m: Maze,
    old_nd: Seq<Vec<Option<usize>>>,
    new_nd: Seq<Vec<Option<usize>>>,
    old_dist: Map<(int, int), int>,
    new_dist: Map<(int, int), int>,
    srci: (int, int),
    x: int,
    y: int,
    d: int,
    nxt: (int, int),
    back: int,
)
    requires
        m.wf(),
        old_nd.len() == m.height,
        forall|i: int| 0 <= i < m.height ==> (#[trigger] old_nd[i])@.len() == m.width,
        bfs_links_wf(m, old_nd, old_dist, srci),
        0 <= d < 8,
        back == (d + 4) % 8,
        m.in_bounds(x, y),
        nxt == step_of((x, y), d),
        m.in_bounds(nxt.0, nxt.1),
        !m.cell(nxt.0, nxt.1).wall,
        nxt != srci,
        (x, y) == srci || old_nd[x]@[y] is Some,
        old_nd[nxt.0]@[nxt.1] is None,
        new_nd.len() == old_nd.len(),
        forall|i: int| 0 <= i < old_nd.len() && i != nxt.0 ==> (#[trigger] new_nd[i]) == old_nd[i],
        new_nd[nxt.0]@ == old_nd[nxt.0]@.update(nxt.1, Some(back as usize)),
        new_dist == old_dist.insert(nxt, old_dist[(x, y)] + 1),
    ensures
        bfs_links_wf(m, new_nd, new_dist, srci),
{
    lemma_dir_inverse((x, y), d);
    assert((x, y) != nxt);
    assert(old_dist.contains_key((x, y)) && old_dist[(x, y)] >= 0) by {
        if (x, y) != srci {
            assert(old_nd[x]@[y] is Some);
        }
    }
    assert forall|i: int, j: int|
        m.in_bounds(i, j) && (#[trigger] new_nd[i]@[j]) is Some implies {
        let dd = new_nd[i]@[j]->0 as int;
        let prev = step_of((i, j), dd);
        &&& 0 <= dd < 8
        &&& (i, j) != srci
        &&& !m.cell(i, j).wall
        &&& m.in_bounds(prev.0, prev.1)
        &&& (prev == srci || new_nd[prev.0]@[prev.1] is Some)
        &&& new_dist.contains_key((i, j))
        &&& new_dist.contains_key(prev)
        &&& new_dist[(i, j)] == new_dist[prev] + 1
        &&& new_dist[(i, j)] >= 1
    } by {
        if (i, j) == nxt {
            assert(new_nd[i]@[j] == Some(back as usize));
            assert(step_of(nxt, back) == ((x, y)));
            assert(new_nd[x]@[y] == old_nd[x]@[y]) by {
                if x != nxt.0 {
                } else {
                    assert(y != nxt.1);
                }
            }
        } else {
            assert(new_nd[i]@[j] == old_nd[i]@[j]) by {
                if i != nxt.0 {
                } else {
                    assert(j != nxt.1);
                }
            }
            let dd = old_nd[i]@[j]->0 as int;
            let prev = step_of((i, j), dd);
            assert(prev != nxt) by {
                if prev == nxt {
                    assert(old_nd[nxt.0]@[nxt.1] is Some || prev == srci);
                }
            }
            assert(new_nd[prev.0]@[prev.1] == old_nd[prev.0]@[prev.1]) by {
                if old_nd[i]@[j] is Some && prev != srci {
                    if prev.0 != nxt.0 {
                    } else {
                        assert(prev.1 != nxt.1);
                    }
                }
            }
        }
    }
}

/// `v` sits somewhere in the coordinate queue.
pub open spec fn in_q2(q: Seq<(usize, usize)>, v: (int, int)) -> bool {
    exists|idx: int|
        0 <= idx < q.len() && ((#[trigger] q[idx]).0 as int, q[idx].1 as int) == v
}

/// Walking any route from the source, every cell reached is an already
/// searched non-exit cell: used when the search exhausted the frontier.
proof fn lemma_route_blocked(
    m: Maze,
    vis: Seq<Vec<bool>>,
    nd: Seq<Vec<Option<usize>>>,
    src: (int, int),
    p: Seq<(int, int)>,
    k: int,
)
    requires
        m.wf(),
        vis.len() == m.height,
        forall|i: int| 0 <= i < m.height ==> (#[trigger] vis[i])@.len() == m.width,
        m.in_bounds(src.0, src.1),
        vis[src.0]@[src.1],
        // every searched cell is not an exit and has all its free
        // neighbors searched or at least discovered
        forall|i: int, j: int|
            #![trigger vis[i]@[j]]
            m.in_bounds(i, j) && vis[i]@[j] ==> !m.cell(i, j).exit,
        forall|i: int, j: int, d: int|
            #![trigger vis[i]@[j], spec_dir(d)]
            m.in_bounds(i, j) && vis[i]@[j] && 0 <= d < 8 ==> {
                let t = step_of((i, j), d);
                m.in_bounds(t.0, t.1) && !m.cell(t.0, t.1).wall ==> (vis[t.0]@[t.1]
                    || nd[t.0]@[t.1] is Some)
            },
        // the frontier is exhausted: everything discovered was searched
        forall|i: int, j: int|
            #![trigger nd[i]@[j]]
            m.in_bounds(i, j) && nd[i]@[j] is Some ==> vis[i]@[j],
        forall|t: int|
            0 <= t < p.len() ==> m.in_bounds((#[trigger] p[t]).0, p[t].1) && !m.cell(
                p[t].0,
                p[t].1,
            ).wall,
        forall|t: int|
            0 <= t < p.len() ==> adjacent8(
                if t == 0 {
                    src
                } else {
                    p[t - 1]
                },
                #[trigger] p[t],
            ),
        0 <= k < p.len(),
    ensures
        vis[p[k].0]@[p[k].1],
    decreases k,
{
    let prev = if k == 0 {
        src
    } else {
        p[k - 1]
    };
    if k > 0 {
        lemma_route_blocked(m, vis, nd, src, p, k - 1);
    }
    lemma_adjacent_dir(prev, p[k]);
    let d = choose|d: int| 0 <= d < 8 && step_of(prev, d) == p[k];
    assert(vis[prev.0]@[prev.1]);
    assert(spec_dir(d) == spec_dir(d));
    assert(m.in_bounds(p[k].0, p[k].1) && !m.cell(p[k].0, p[k].1).wall);
}

impl Maze {
    /// The cell matrix is a rectangle of the stated dimensions and the
    /// player is inside it.
    pub open spec fn wf(self) -> bool {
        &&& 1 <= self.height
        &&& 1 <= self.width
        &&& self.cells@.len() == self.height
        &&& forall|i: int| 0 <= i < self.height ==> (#[trigger] self.cells@[i])@.len() == self.width
        &&& (self.player_location.0 as int) < self.height
        &&& (self.player_location.1 as int) < self.width
    }

    /// The coordinates are inside the rectangle.
    pub open spec fn in_bounds(self, i: int, j: int) -> bool {
        0 <= i < self.height && 0 <= j < self.width
    }

    /// The cell at the coordinates.
    pub open spec fn cell(self, i: int, j: int) -> MazeCell {
        self.cells@[i]@[j]
    }

    /// Checks whether one can move from `coordenates` one step in the given
    /// direction: the target must lie inside the maze and not be a wall.
    pub fn valid_coordenates(&self, coordenates: (usize, usize), direction: usize) -> (r: Option<
        (usize, usize),
    >)
        requires
            self.wf(),
            direction < 8,
        ensures
            ({
                let t = step_of((coordenates.0 as int, coordenates.1 as int), direction as int);
                match r {
                    Some(q) => (q.0 as int, q.1 as int) == t && self.in_bounds(t.0, t.1)
                        && !self.cell(t.0, t.1).wall,
                    None => !self.in_bounds(t.0, t.1) || self.cell(t.0, t.1).wall,
                }
            }),
    {
        let (di, dj) = dir_delta(direction);
        let ni = coordenates.0 as i128 + di as i128;
        let nj = coordenates.1 as i128 + dj as i128;
        if ni < 0 || nj < 0 {
            return None;
        }
        if ni < self.height as i128 && nj < self.width as i128 {
            let i = ni as usize;
            let j = nj as usize;
            if !self.cells[i][j].wall {
                return Some((i, j));
            }
        }
        None
    }

    /// Fills unassigned cells with characters by a randomized depth-first
    /// walk over all eight directions, biased toward spelling dictionary
    /// words: with the configured probability the next character is drawn
    /// from the automaton's outgoing edges, else uniformly from the
    /// alphabet; a cell that already carries a character is never
    /// overwritten. Only display characters change.
    #[verifier::loop_isolation(false)]
    pub fn fill_maze_characters(
        &mut self,
        coordenates: (usize, usize),
        word_prob_permille: u32,
        word_builder: &Matcher,
        rng: &mut rand::rngs::StdRng,
    )
        requires
            old(self).wf(),
            word_builder.wf(),
        ensures
            final(self).wf(),
            same_flags(*old(self), *final(self)),
            forall|i: int, j: int|
                #![trigger final(self).cells@[i]@[j]]
                0 <= i < old(self).cells@.len() && 0 <= j < old(self).cells@[i]@.len() && old(
                    self,
                ).cells@[i]@[j].value != '\0' ==> final(self).cells@[i]@[j].value == old(
                    self,
                ).cells@[i]@[j].value,
            forall|i: int, j: int|
                #![trigger final(self).cells@[i]@[j]]
                0 <= i < old(self).cells@.len() && 0 <= j < old(self).cells@[i]@.len() && old(
                    self,
                ).cells@[i]@[j].value == '\0' && final(self).cells@[i]@[j].value != '\0'
                    ==> is_fill_char(word_builder.nodes@, final(self).cells@[i]@[j].value),
            no_null_edges(word_builder.nodes@) ==> forall|p: Seq<(int, int)>, k: int|
                #![trigger blank_path(*old(self), (coordenates.0 as int, coordenates.1 as int), p), p[k]]
                blank_path(*old(self), (coordenates.0 as int, coordenates.1 as int), p) && 0 <= k
                    < p.len() ==> final(self).cells@[p[k].0]@[p[k].1].value != '\0',
            no_null_edges(word_builder.nodes@) && (coordenates.0 as int) < old(self).height && (
            coordenates.1 as int) < old(self).width && !old(self).cell(
                coordenates.0 as int,
                coordenates.1 as int,
            ).wall && old(self).cell(coordenates.0 as int, coordenates.1 as int).value == '\0'
                ==> final(self).cell(coordenates.0 as int, coordenates.1 as int).value != '\0',
    {
        let ghost f_unfilled: spec_fn(MazeCell) -> bool = |c: MazeCell| c.value == '\0';
        let ghost src = (coordenates.0 as int, coordenates.1 as int);
        let ghost mut processed: Set<(int, int)> = Set::empty();
        let mut stack: Vec<((usize, usize), usize)> = Vec::new();
        // the origin receives its character first
        if coordenates.0 < self.height && coordenates.1 < self.width
            && !self.cells[coordenates.0][coordenates.1].wall
            && self.cells[coordenates.0][coordenates.1].value == '\0' {
            let first_char = pick_fill_char(word_builder, 0, word_prob_permille, rng);
            if first_char != '\0' {
                let ghost old_cells = self.cells@;
                self.cells[coordenates.0][coordenates.1].value = first_char;
                proof {
                    lemma_grid_count_update(
                        old_cells,
                        self.cells@,
                        coordenates.0 as int,
                        coordenates.1 as int,
                        self.cells@[coordenates.0 as int]@[coordenates.1 as int],
                        f_unfilled,
                    );
                }
                stack.push((coordenates, word_builder.next_state(0, first_char)));
            } else {
                stack.push((coordenates, 0));
            }
        } else {
            stack.push((coordenates, 0));
        }
        proof {
            lemma_grid_count_nonneg(self.cells@, f_unfilled);
            assert(in_stk(stack@, src)) by {
                assert((((stack@[0].0).0 as int, (stack@[0].0).1 as int)) == src);
            }
        }
        while stack.len() > 0
            invariant
                self.wf(),
                same_flags(*old(self), *self),
                forall|i: int, j: int|
                    #![trigger self.cells@[i]@[j]]
                    0 <= i < old(self).cells@.len() && 0 <= j < old(self).cells@[i]@.len() && old(
                        self,
                    ).cells@[i]@[j].value != '\0' ==> self.cells@[i]@[j].value == old(
                        self,
                    ).cells@[i]@[j].value,
                forall|i: int, j: int|
                    #![trigger self.cells@[i]@[j]]
                    0 <= i < old(self).cells@.len() && 0 <= j < old(self).cells@[i]@.len() && old(
                        self,
                    ).cells@[i]@[j].value == '\0' && self.cells@[i]@[j].value != '\0'
                        ==> is_fill_char(word_builder.nodes@, self.cells@[i]@[j].value),
                forall|i: int, j: int|
                    #![trigger self.cells@[i]@[j]]
                    0 <= i < old(self).cells@.len() && 0 <= j < old(self).cells@[i]@.len() && old(
                        self,
                    ).cells@[i]@[j].value == '\0' && self.cells@[i]@[j].value != '\0'
                        ==> processed.contains((i, j)) || in_stk(stack@, (i, j)),
                processed.contains(src) || in_stk(stack@, src),
                no_null_edges(word_builder.nodes@) && (coordenates.0 as int) < old(self).height
                    && (coordenates.1 as int) < old(self).width && !old(self).cell(
                    coordenates.0 as int,
                    coordenates.1 as int,
                ).wall && old(self).cell(coordenates.0 as int, coordenates.1 as int).value == '\0'
                    ==> self.cell(coordenates.0 as int, coordenates.1 as int).value != '\0',
                no_null_edges(word_builder.nodes@) ==> forall|c: (int, int), d: int|
                    #![trigger processed.contains(c), spec_dir(d)]
                    processed.contains(c) && 0 <= d < 8 ==> {
                        let tg = step_of(c, d);
                        self.in_bounds(tg.0, tg.1) && !self.cell(tg.0, tg.1).wall ==> self.cell(
                            tg.0,
                            tg.1,
                        ).value != '\0'
                    },
                forall|t: int|
                    0 <= t < stack@.len() ==> ((#[trigger] stack@[t]).1 as int)
                        < word_builder.nodes@.len(),
                0 <= grid_count(self.cells@, f_unfilled),
            decreases 9 * grid_count(self.cells@, f_unfilled) + stack@.len(),
        {
            let ghost stk0 = stack@;
            let top = match stack.pop() {
                Some(t) => t,
                None => {
                    proof {
                        assert(false);
                    }
                    ((0, 0), 0)
                },
            };
            let pos = top.0;
            let ghost curi = (pos.0 as int, pos.1 as int);
            let mut state = top.1;
            proof {
                processed = processed.insert(curi);
                assert(forall|t: int|
                    0 <= t < stack@.len() ==> #[trigger] stack@[t] == stk0[t]);
                assert forall|c: (int, int)| in_stk(stk0, c) implies processed.contains(c)
                    || in_stk(stack@, c) by {
                    let idx = choose|idx: int|
                        0 <= idx < stk0.len() && ((((#[trigger] stk0[idx]).0).0 as int, (
                        stk0[idx].0).1 as int)) == c;
                    if idx < stk0.len() - 1 {
                        assert(((((stack@[idx]).0).0 as int, (stack@[idx].0).1 as int)) == c);
                    }
                }
            }
            if word_builder.options(state).len() == 0 {
                state = 0;
            }
            let dirs = shuffled_directions(rng);
            let ghost measure0 = 9 * grid_count(self.cells@, f_unfilled) + stack@.len();
            let mut t: usize = 0;
            while t < 8
                invariant
                    t <= 8,
                    self.wf(),
                    same_flags(*old(self), *self),
                    forall|i: int, j: int|
                        #![trigger self.cells@[i]@[j]]
                        0 <= i < old(self).cells@.len() && 0 <= j < old(self).cells@[i]@.len()
                            && old(self).cells@[i]@[j].value != '\0' ==> self.cells@[i]@[j].value
                            == old(self).cells@[i]@[j].value,
                    forall|i: int, j: int|
                        #![trigger self.cells@[i]@[j]]
                        0 <= i < old(self).cells@.len() && 0 <= j < old(self).cells@[i]@.len()
                            && old(self).cells@[i]@[j].value == '\0' && self.cells@[i]@[j].value
                            != '\0' ==> is_fill_char(word_builder.nodes@, self.cells@[i]@[j].value),
                    forall|i: int, j: int|
                        #![trigger self.cells@[i]@[j]]
                        0 <= i < old(self).cells@.len() && 0 <= j < old(self).cells@[i]@.len()
                            && old(self).cells@[i]@[j].value == '\0' && self.cells@[i]@[j].value
                            != '\0' ==> processed.contains((i, j)) || in_stk(stack@, (i, j)),
                    processed.contains(src) || in_stk(stack@, src),
                    no_null_edges(word_builder.nodes@) && (coordenates.0 as int) < old(
                        self,
                    ).height && (coordenates.1 as int) < old(self).width && !old(self).cell(
                        coordenates.0 as int,
                        coordenates.1 as int,
                    ).wall && old(self).cell(coordenates.0 as int, coordenates.1 as int).value
                        == '\0' ==> self.cell(
                        coordenates.0 as int,
                        coordenates.1 as int,
                    ).value != '\0',
                    processed.contains(curi),
                    dirs@.len() == 8,
                    forall|k: int| 0 <= k < 8 ==> (#[trigger] dirs@[k]) < 8,
                    no_null_edges(word_builder.nodes@) ==> forall|c: (int, int), d: int|
                        #![trigger processed.contains(c), spec_dir(d)]
                        processed.contains(c) && c != curi && 0 <= d < 8 ==> {
                            let tg = step_of(c, d);
                            self.in_bounds(tg.0, tg.1) && !self.cell(tg.0, tg.1).wall
                                ==> self.cell(tg.0, tg.1).value != '\0'
                        },
                    no_null_edges(word_builder.nodes@) ==> forall|t2: int|
                        0 <= t2 < t ==> {
                            let tg = step_of(curi, (#[trigger] dirs@[t2]) as int);
                            self.in_bounds(tg.0, tg.1) && !self.cell(tg.0, tg.1).wall
                                ==> self.cell(tg.0, tg.1).value != '\0'
                        },
                    (state as int) < word_builder.nodes@.len(),
                    forall|t2: int|
                        0 <= t2 < stack@.len() ==> ((#[trigger] stack@[t2]).1 as int)
                            < word_builder.nodes@.len(),
                    0 <= grid_count(self.cells@, f_unfilled),
                    9 * grid_count(self.cells@, f_unfilled) + stack@.len() <= measure0,
                decreases 8 - t,
            {
                let direction = dirs[t];
                match self.valid_coordenates(pos, direction) {
                    Some(next) => {
                        if self.cells[next.0][next.1].value == '\0' {
                            let next_char = pick_fill_char(
                                word_builder,
                                state,
                                word_prob_permille,
                                rng,
                            );
                            // a null character, possible only when some
                            // pattern contains one, leaves the cell alone
                            if next_char != '\0' {
                                let ghost old_cells = self.cells@;
                                let ghost stk1 = stack@;
                                self.cells[next.0][next.1].value = next_char;
                                proof {
                                    lemma_grid_count_update(
                                        old_cells,
                                        self.cells@,
                                        next.0 as int,
                                        next.1 as int,
                                        self.cells@[next.0 as int]@[next.1 as int],
                                        f_unfilled,
                                    );
                                    lemma_grid_count_nonneg(self.cells@, f_unfilled);
                                    assert(forall|i: int|
                                        0 <= i < old_cells.len() && i != next.0 as int ==> (
                                        #[trigger] self.cells@[i]) == old_cells[i]);
                                }
                                stack.push((next, word_builder.next_state(state, next_char)));
                                proof {
                                    assert(forall|t2: int|
                                        0 <= t2 < stk1.len() ==> #[trigger] stack@[t2]
                                            == stk1[t2]);
                                    assert(in_stk(stack@, (next.0 as int, next.1 as int))) by {
                                        assert(((((stack@[stack@.len() - 1]).0).0 as int, (
                                        stack@[stack@.len() - 1].0).1 as int)) == ((
                                        next.0 as int,
                                        next.1 as int,
                                        )));
                                    }
                                    assert forall|c: (int, int)| in_stk(stk1, c) implies in_stk(
                                        stack@,
                                        c,
                                    ) by {
                                        let idx = choose|idx: int|
                                            0 <= idx < stk1.len() && ((((
                                            #[trigger] stk1[idx]).0).0 as int, (
                                            stk1[idx].0).1 as int)) == c;
                                        assert(stack@[idx] == stk1[idx]);
                                    }
                                }
                            }
                        }
                    },
                    None => {},
                }
                t = t + 1;
            }
            proof {
                // all eight directions were tried, so this cell's free
                // neighbors all carry characters now
                if no_null_edges(word_builder.nodes@) {
                    assert forall|c: (int, int), d: int|
                        #![trigger processed.contains(c), spec_dir(d)]
                        processed.contains(c) && 0 <= d < 8 implies {
                        let tg = step_of(c, d);
                        self.in_bounds(tg.0, tg.1) && !self.cell(tg.0, tg.1).wall ==> self.cell(
                            tg.0,
                            tg.1,
                        ).value != '\0'
                    } by {
                        if c == curi {
                            assert(dirs_contain(dirs@, d));
                            let t2 = choose|t2: int|
                                0 <= t2 < dirs@.len() && (((#[trigger] dirs@[t2]) as int)) == d;
                            assert(0 <= t2 < 8);
                            assert({
                                let tg = step_of(curi, dirs@[t2] as int);
                                self.in_bounds(tg.0, tg.1) && !self.cell(tg.0, tg.1).wall
                                    ==> self.cell(tg.0, tg.1).value != '\0'
                            });
                        }
                    }
                }
            }
        }
        proof {
            if no_null_edges(word_builder.nodes@) {
                assert(processed.contains(src));
                assert forall|p: Seq<(int, int)>, k: int|
                    #![trigger blank_path(*old(self), src, p), p[k]]
                    blank_path(*old(self), src, p) && 0 <= k < p.len() implies self.cells@[
                    p[k].0]@[p[k].1].value != '\0' by {
                    lemma_fill_reaches(*old(self), *self, processed, src, p, k);
                }
            }
        }
    }

    /// Carves a one-cell-wide wall line from the given cell: marks cells
    /// as walls step by step, drifting the direction by one place with
    /// even odds at each step, until the line leaves the grid or meets an
    /// existing wall. Only wall flags change, and only from free to wall.
    #[verifier::loop_isolation(false)]
    pub fn make_wall(&mut self, i: usize, j: usize, direction: usize, rng: &mut rand::rngs::StdRng)
        requires
            old(self).wf(),
            (i as int) < old(self).height,
            (j as int) < old(self).width,
            direction < 8,
        ensures
            final(self).wf(),
            same_but_walls(*old(self), *final(self)),
            final(self).cell(i as int, j as int).wall,
            exists|chain: Seq<(int, int)>|
                #[trigger] walled_chain(
                    *old(self),
                    *final(self),
                    (i as int, j as int),
                    chain,
                ),
    {
        let ghost f_free: spec_fn(MazeCell) -> bool = |c: MazeCell| !c.wall;
        let ghost old_cells0 = self.cells@;
        self.cells[i][j].wall = true;
        let ghost mut chain: Seq<(int, int)> = seq![(i as int, j as int)];
        proof {
            lemma_grid_count_update(
                old_cells0,
                self.cells@,
                i as int,
                j as int,
                self.cells@[i as int]@[j as int],
                f_free,
            );
            lemma_grid_count_nonneg(self.cells@, f_free);
            assert(forall|ii: int|
                0 <= ii < old_cells0.len() && ii != i as int ==> (#[trigger] self.cells@[ii])
                    == old_cells0[ii]);
            assert(walled_chain(*old(self), *self, (i as int, j as int), chain)) by {
                assert(chain[0] == ((i as int, j as int)));
                assert(self.cell(i as int, j as int).wall);
                assert forall|ii: int, jj: int|
                    #![trigger self.cells@[ii]@[jj]]
                    old(self).in_bounds(ii, jj) && !old(self).cell(ii, jj).wall && self.cell(
                    ii,
                    jj,
                ).wall implies exists|k: int|
                    0 <= k < chain.len() && chain[k] == ((ii, jj)) by {
                    if ii != i as int || jj != j as int {
                        assert(self.cells@[ii]@[jj] == old_cells0[ii]@[jj]);
                    } else {
                        assert(chain[0] == ((ii, jj)));
                    }
                }
            }
        }
        let mut x = i;
        let mut y = j;
        let mut dir = direction;
        let mut carving = true;
        while carving
            invariant
                self.wf(),
                same_but_walls(*old(self), *self),
                (x as int) < self.height,
                (y as int) < self.width,
                dir < 8,
                0 <= grid_count(self.cells@, f_free),
                walled_chain(*old(self), *self, (i as int, j as int), chain),
                chain.last() == ((x as int, y as int)),
            decreases grid_count(self.cells@, f_free) + if carving {
                1int
            } else {
                0int
            },
        {
            if rand_below(rng, 1000) < 500 {
                if rand_below(rng, 1000) < 500 {
                    dir = (dir + 7) % 8;
                } else {
                    dir = (dir + 1) % 8;
                }
            }
            match self.valid_coordenates((x, y), dir) {
                Some(nxt) => {
                    proof {
                        lemma_dir_inverse((x as int, y as int), dir as int);
                    }
                    let ghost prev = (x as int, y as int);
                    x = nxt.0;
                    y = nxt.1;
                    let ghost old_cells = self.cells@;
                    let ghost old_chain = chain;
                    self.cells[x][y].wall = true;
                    proof {
                        lemma_grid_count_update(
                            old_cells,
                            self.cells@,
                            x as int,
                            y as int,
                            self.cells@[x as int]@[y as int],
                            f_free,
                        );
                        lemma_grid_count_nonneg(self.cells@, f_free);
                        chain = chain.push((x as int, y as int));
                        assert(forall|ii: int|
                            0 <= ii < old_cells.len() && ii != x as int ==> (
                            #[trigger] self.cells@[ii]) == old_cells[ii]);
                        assert(chain[0] == ((i as int, j as int))) by {
                            assert(chain[0] == old_chain[0]);
                        }
                        assert forall|k: int| 1 <= k < chain.len() implies adjacent8(
                            chain[k - 1],
                            #[trigger] chain[k],
                        ) by {
                            if k < chain.len() - 1 {
                                assert(chain[k] == old_chain[k] && chain[k - 1] == old_chain[k
                                    - 1]);
                            } else {
                                assert(chain[k - 1] == old_chain.last());
                                assert(chain[k] == ((x as int, y as int)));
                                assert(step_of(prev, dir as int) == ((x as int, y as int)));
                            }
                        }
                        assert forall|k: int| 0 <= k < chain.len() implies self.in_bounds(
                            (#[trigger] chain[k]).0,
                            chain[k].1,
                        ) && self.cell(chain[k].0, chain[k].1).wall by {
                            if k < chain.len() - 1 {
                                assert(chain[k] == old_chain[k]);
                                if chain[k].0 != x as int || chain[k].1 != y as int {
                                    assert(self.cells@[chain[k].0]@[chain[k].1]
                                        == old_cells[chain[k].0]@[chain[k].1]);
                                }
                            }
                        }
                        assert forall|ii: int, jj: int|
                            #![trigger self.cells@[ii]@[jj]]
                            old(self).in_bounds(ii, jj) && !old(self).cell(ii, jj).wall
                                && self.cell(ii, jj).wall implies exists|k: int|
                            0 <= k < chain.len() && chain[k] == ((ii, jj)) by {
                            if ii == x as int && jj == y as int {
                                assert(chain[chain.len() - 1] == ((ii, jj)));
                            } else {
                                assert(self.cells@[ii]@[jj] == old_cells[ii]@[jj]);
                                let k0 = choose|k0: int|
                                    0 <= k0 < old_chain.len() && old_chain[k0] == ((ii, jj));
                                assert(chain[k0] == ((ii, jj)));
                            }
                        }
                    }
                },
                None => {
                    carving = false;
                },
            }
        }
    }

    /// The breadth-first search part of [`Maze::shortest_route`]: explores
    /// from the player until an exit cell is taken from the frontier,
    /// recording for each discovered cell the direction back toward its
    /// discoverer.
    #[verifier::rlimit(100)]
    #[verifier::spinoff_prover]
    fn bfs_search(&self) -> (r: (
        Vec<Vec<Option<usize>>>,
        Option<(usize, usize)>,
        Ghost<Map<(int, int), int>>,
        Ghost<Seq<Vec<bool>>>,
    ))
        requires
            self.wf(),
        ensures
            ({
                let srci = (self.player_location.0 as int, self.player_location.1 as int);
                let nd = r.0;
                let found = r.1;
                let dist = r.2@;
                let vis = r.3@;
                &&& nd@.len() == self.height
                &&& forall|i: int| 0 <= i < self.height ==> (#[trigger] nd@[i])@.len() == self.width
                &&& vis.len() == self.height
                &&& forall|i: int| 0 <= i < self.height ==> (#[trigger] vis[i])@.len() == self.width
                &&& bfs_links_wf(*self, nd@, dist, srci)
                &&& match found {
                    None => {
                        &&& vis[srci.0]@[srci.1]
                        &&& forall|i: int, j: int|
                            #![trigger vis[i]@[j]]
                            self.in_bounds(i, j) && vis[i]@[j] ==> !self.cell(i, j).exit
                        &&& forall|i: int, j: int, d: int|
                            #![trigger vis[i]@[j], spec_dir(d)]
                            self.in_bounds(i, j) && vis[i]@[j] && 0 <= d < 8 ==> {
                                let t = step_of((i, j), d);
                                self.in_bounds(t.0, t.1) && !self.cell(t.0, t.1).wall ==> (
                                vis[t.0]@[t.1] || nd@[t.0]@[t.1] is Some)
                            }
                        &&& forall|i: int, j: int|
                            #![trigger nd@[i]@[j]]
                            self.in_bounds(i, j) && nd@[i]@[j] is Some ==> vis[i]@[j]
                    },
                    Some(e) => {
                        &&& self.in_bounds(e.0 as int, e.1 as int)
                        &&& self.cell(e.0 as int, e.1 as int).exit
                        &&& ((e.0 as int, e.1 as int) == srci || nd@[e.0 as int]@[e.1 as int] is Some)
                        &&& dist.contains_key((e.0 as int, e.1 as int))
                        &&& forall|p: Seq<(int, int)>|
                            #[trigger] route_ok(*self, srci, p) ==> p.len() >= dist[(
                                e.0 as int,
                                e.1 as int,
                            )]
                    },
                }
            }),
    {
        let h = self.height;
        let w = self.width;
        let sx = self.player_location.0;
        let sy = self.player_location.1;
        let ghost srci = (sx as int, sy as int);
        let ghost f_undisc: spec_fn(Option<usize>) -> bool = |o: Option<usize>| o is None;
        let mut vis: Vec<Vec<bool>> = filled_grid(h, w, false);
        let mut nd: Vec<Vec<Option<usize>>> = filled_grid(h, w, None);
        let mut queue: std::collections::VecDeque<(usize, usize)> =
            std::collections::VecDeque::new();
        queue.push_back((sx, sy));
        let ghost mut dist: Map<(int, int), int> = Map::empty().insert(srci, 0);
        let mut found: Option<(usize, usize)> = None;
        proof {
            lemma_grid_count_nonneg(nd@, f_undisc);
        }
        while queue.len() > 0 && found.is_none()
            invariant
                self.wf(),
                h == self.height,
                w == self.width,
                sx == self.player_location.0,
                sy == self.player_location.1,
                srci == ((sx as int, sy as int)),
                f_undisc == (|o: Option<usize>| o is None),
                vis@.len() == h,
                nd@.len() == h,
                forall|i: int| 0 <= i < h ==> (#[trigger] vis@[i])@.len() == w,
                forall|i: int| 0 <= i < h ==> (#[trigger] nd@[i])@.len() == w,
                bfs_links_wf(*self, nd@, dist, srci),
                0 <= grid_count(nd@, f_undisc),
                forall|idx: int|
                    0 <= idx < queue@.len() ==> {
                        let q = #[trigger] queue@[idx];
                        &&& (q.0 as int) < h
                        &&& (q.1 as int) < w
                        &&& ((q.0 as int, q.1 as int) == srci || nd@[q.0 as int]@[q.1 as int] is Some)
                    },
                found is Some ==> {
                    let e = (((found->0).0) as int, ((found->0).1) as int);
                    &&& self.in_bounds(e.0, e.1)
                    &&& self.cell(e.0, e.1).exit
                    &&& (e == srci || nd@[e.0]@[e.1] is Some)
                    &&& vis@[e.0]@[e.1]
                    &&& dist.contains_key(e)
                },
                forall|i: int, j: int|
                    #![trigger nd@[i]@[j]]
                    self.in_bounds(i, j) && nd@[i]@[j] is Some && !vis@[i]@[j] ==> in_q2(
                        queue@,
                        (i, j),
                    ),
                // the frontier's distances never decrease and span two levels
                forall|i1: int, i2: int|
                    0 <= i1 <= i2 < queue@.len() ==> dist[((#[trigger] queue@[i1]).0 as int, queue@[i1].1 as int)]
                        <= dist[((#[trigger] queue@[i2]).0 as int, queue@[i2].1 as int)],
                forall|idx: int|
                    0 <= idx < queue@.len() ==> dist[((#[trigger] queue@[idx]).0 as int, queue@[idx].1 as int)]
                        <= dist[(queue@[0].0 as int, queue@[0].1 as int)] + 1,
                // searched cells were queued once, and sit no deeper than the frontier
                forall|i: int, j: int|
                    #![trigger vis@[i]@[j]]
                    self.in_bounds(i, j) && vis@[i]@[j] ==> ((i, j) == srci || nd@[i]@[j] is Some),
                forall|i: int, j: int|
                    #![trigger vis@[i]@[j]]
                    self.in_bounds(i, j) && vis@[i]@[j] ==> dist.contains_key((i, j)) && dist[(
                        i,
                        j,
                    )] >= 0,
                forall|i: int, j: int, idx: int|
                    #![trigger vis@[i]@[j], queue@[idx]]
                    self.in_bounds(i, j) && vis@[i]@[j] && 0 <= idx < queue@.len() ==> dist[(i, j)]
                        <= dist[(queue@[idx].0 as int, queue@[idx].1 as int)],
                // every free neighbor of a searched cell (except the found
                // one) is discovered at most one level deeper
                forall|i: int, j: int, d: int|
                    #![trigger vis@[i]@[j], spec_dir(d)]
                    self.in_bounds(i, j) && vis@[i]@[j] && 0 <= d < 8 && (found is None || (((
                    found->0).0) as int, ((found->0).1) as int) != (i, j)) ==> {
                        let t = step_of((i, j), d);
                        self.in_bounds(t.0, t.1) && !self.cell(t.0, t.1).wall ==> ((t == srci
                            || nd@[t.0]@[t.1] is Some) && dist.contains_key(t) && dist[t] <= dist[(
                        i,
                        j,
                        )] + 1)
                    },
                // no searched cell except the found one is an exit
                forall|i: int, j: int|
                    #![trigger vis@[i]@[j]]
                    self.in_bounds(i, j) && vis@[i]@[j] && (found is None || (((found->0).0) as int,
                    ((found->0).1) as int) != (i, j)) ==> !self.cell(i, j).exit,
                found is Some ==> forall|idx: int|
                    0 <= idx < queue@.len() ==> dist[((#[trigger] queue@[idx]).0 as int, queue@[idx].1 as int)]
                        >= dist[(((found->0).0) as int, ((found->0).1) as int)],
                vis@[sx as int]@[sy as int] || (queue@.len() == 1 && queue@[0] == (sx, sy)
                    && forall|i: int, j: int|
                    #![trigger vis@[i]@[j]]
                    self.in_bounds(i, j) ==> !vis@[i]@[j]),
            decreases 9 * grid_count(nd@, f_undisc) + queue@.len(),
        {
            let ghost q0 = queue@;
            let cur = match queue.pop_front() {
                Some(c) => c,
                None => {
                    proof {
                        assert(false);
                    }
                    (0, 0)
                },
            };
            let x = cur.0;
            let y = cur.1;
            let ghost dw = dist[(x as int, y as int)];
            proof {
                assert(q0[0] == cur);
                assert(forall|idx: int|
                    0 <= idx < queue@.len() ==> #[trigger] queue@[idx] == q0[idx + 1]);
                assert forall|v: (int, int)| in_q2(q0, v) implies v == ((x as int, y as int))
                    || in_q2(queue@, v) by {
                    let idx = choose|idx: int|
                        0 <= idx < q0.len() && (((#[trigger] q0[idx]).0 as int, q0[idx].1 as int)
                            == v);
                    if idx > 0 {
                        assert(queue@[idx - 1] == q0[idx]);
                    }
                }
                assert(dist.contains_key((x as int, y as int)) && dw >= 0) by {
                    if (x as int, y as int) != srci {
                        assert(nd@[x as int]@[y as int] is Some);
                    }
                }
                // after the pop the frontier sits in this level's window
                assert forall|idx: int| 0 <= idx < queue@.len() implies dw <= dist[((
                #[trigger] queue@[idx]).0 as int, queue@[idx].1 as int)] && dist[(
                    queue@[idx].0 as int,
                    queue@[idx].1 as int,
                )] <= dw + 1 by {
                    assert(queue@[idx] == q0[idx + 1]);
                    assert(dist[(q0[0].0 as int, q0[0].1 as int)] <= dist[(q0[idx + 1].0 as int,
                    q0[idx + 1].1 as int)]);
                }
            }
            if vis[x][y] {
                proof {
                    assert forall|i: int, j: int|
                        self.in_bounds(i, j) && (#[trigger] nd@[i]@[j]) is Some
                            && !vis@[i]@[j] implies in_q2(queue@, (i, j)) by {
                        assert(in_q2(q0, (i, j)));
                        assert((i, j) != (x as int, y as int));
                    }
                }
            } else {
                let ghost old_vis = vis@;
                vis[x][y] = true;
                proof {
                    assert(forall|i: int|
                        0 <= i < h && i != x as int ==> (#[trigger] vis@[i]) == old_vis[i]);
                    assert(vis@[x as int]@ == old_vis[x as int]@.update(y as int, true));
                }
                if self.cells[x][y].exit {
                    found = Some((x, y));
                    proof {
                        assert forall|i: int, j: int|
                            self.in_bounds(i, j) && (#[trigger] nd@[i]@[j]) is Some
                                && !vis@[i]@[j] implies in_q2(queue@, (i, j)) by {
                            assert(in_q2(q0, (i, j)));
                            assert((i, j) != (x as int, y as int));
                        }
                        assert(dist[(x as int, y as int)] == dw);
                        assert forall|i: int, j: int|
                            #![trigger vis@[i]@[j]]
                            self.in_bounds(i, j) && vis@[i]@[j] implies dist.contains_key((i, j))
                            && dist[(i, j)] >= 0 && dist[(i, j)] <= dw by {
                            if (i, j) != ((x as int, y as int)) {
                                assert(old_vis[i]@[j]);
                                assert(dist[(i, j)] <= dist[(q0[0].0 as int, q0[0].1 as int)]);
                            }
                        }
                    }
                } else {
                    let ghost m0 = 9 * grid_count(nd@, f_undisc) + queue@.len() as int;
                    proof {
                        assert forall|i: int, j: int|
                            #![trigger vis@[i]@[j]]
                            self.in_bounds(i, j) && vis@[i]@[j] implies dist.contains_key((i, j))
                            && dist[(i, j)] >= 0 && dist[(i, j)] <= dw && ((i, j) == srci
                            || nd@[i]@[j] is Some) by {
                            if (i, j) != ((x as int, y as int)) {
                                assert(old_vis[i]@[j]);
                                assert(dist[(i, j)] <= dist[(q0[0].0 as int, q0[0].1 as int)]);
                            }
                        }
                    }
                    let mut d: usize = 0;
                    while d < 8
                        invariant
                            self.wf(),
                            h == self.height,
                            w == self.width,
                            sx == self.player_location.0,
                            sy == self.player_location.1,
                            srci == ((sx as int, sy as int)),
                            f_undisc == (|o: Option<usize>| o is None),
                            d <= 8,
                            vis@.len() == h,
                            nd@.len() == h,
                            forall|i: int| 0 <= i < h ==> (#[trigger] vis@[i])@.len() == w,
                            forall|i: int| 0 <= i < h ==> (#[trigger] nd@[i])@.len() == w,
                            (x as int) < h,
                            (y as int) < w,
                            vis@[x as int]@[y as int],
                            !self.cell(x as int, y as int).exit,
                            (x as int, y as int) == srci || nd@[x as int]@[y as int] is Some,
                            forall|i: int| 0 <= i < h && i != x as int ==> (#[trigger] vis@[i])
                                == old_vis[i],
                            vis@[x as int]@ == old_vis[x as int]@.update(y as int, true),
                            bfs_links_wf(*self, nd@, dist, srci),
                            0 <= grid_count(nd@, f_undisc),
                            vis@[sx as int]@[sy as int],
                            found is None,
                            forall|idx: int|
                                0 <= idx < queue@.len() ==> {
                                    let q = #[trigger] queue@[idx];
                                    &&& (q.0 as int) < h
                                    &&& (q.1 as int) < w
                                    &&& ((q.0 as int, q.1 as int) == srci || nd@[q.0 as int]@[q.1 as int] is Some)
                                },
                            forall|i: int, j: int|
                                #![trigger vis@[i]@[j]]
                                self.in_bounds(i, j) && vis@[i]@[j] ==> !self.cell(i, j).exit,
                            forall|i: int, j: int|
                                #![trigger nd@[i]@[j]]
                                self.in_bounds(i, j) && nd@[i]@[j] is Some && !vis@[i]@[j]
                                    ==> in_q2(queue@, (i, j)),
                            9 * grid_count(nd@, f_undisc) + queue@.len() <= m0,
                            dist.contains_key((x as int, y as int)),
                            dw == dist[(x as int, y as int)],
                            dw >= 0,
                            forall|idx: int|
                                0 <= idx < queue@.len() ==> dw <= dist[((
                                #[trigger] queue@[idx]).0 as int, queue@[idx].1 as int)] && dist[(
                                    queue@[idx].0 as int,
                                    queue@[idx].1 as int,
                                )] <= dw + 1,
                            forall|i1: int, i2: int|
                                0 <= i1 <= i2 < queue@.len() ==> dist[((
                                #[trigger] queue@[i1]).0 as int, queue@[i1].1 as int)] <= dist[((
                                #[trigger] queue@[i2]).0 as int, queue@[i2].1 as int)],
                            forall|i: int, j: int|
                                #![trigger vis@[i]@[j]]
                                self.in_bounds(i, j) && vis@[i]@[j] ==> dist.contains_key((i, j))
                                    && dist[(i, j)] >= 0 && dist[(i, j)] <= dw && ((i, j) == srci
                                    || nd@[i]@[j] is Some),
                            forall|i: int, j: int, d2: int|
                                #![trigger vis@[i]@[j], spec_dir(d2)]
                                self.in_bounds(i, j) && vis@[i]@[j] && 0 <= d2 < 8 && !((i, j) == (
                                x as int,
                                y as int,
                                )) ==> {
                                    let t = step_of((i, j), d2);
                                    self.in_bounds(t.0, t.1) && !self.cell(t.0, t.1).wall ==> ((t
                                        == srci || nd@[t.0]@[t.1] is Some) && dist.contains_key(t)
                                        && dist[t] <= dist[(i, j)] + 1)
                                },
                            forall|d2: int|
                                #![trigger spec_dir(d2)]
                                0 <= d2 < d ==> {
                                    let t = step_of((x as int, y as int), d2);
                                    self.in_bounds(t.0, t.1) && !self.cell(t.0, t.1).wall ==> ((t
                                        == srci || nd@[t.0]@[t.1] is Some) && dist.contains_key(t)
                                        && dist[t] <= dw + 1)
                                },
                        decreases 8 - d,
                    {
                        match self.valid_coordenates((x, y), d) {
                            Some(nxt) => {
                                if !vis[nxt.0][nxt.1] && nd[nxt.0][nxt.1].is_none() {
                                    let back = (d + 4) % 8;
                                    let ghost old_nd = nd@;
                                    let ghost old_q = queue@;
                                    let ghost old_dist = dist;
                                    nd[nxt.0][nxt.1] = Some(back);
                                    proof {
                                        dist = dist.insert(
                                            (nxt.0 as int, nxt.1 as int),
                                            dist[(x as int, y as int)] + 1,
                                        );
                                        lemma_dir_inverse((x as int, y as int), d as int);
                                        lemma_grid_count_update(
                                            old_nd,
                                            nd@,
                                            nxt.0 as int,
                                            nxt.1 as int,
                                            nd@[nxt.0 as int]@[nxt.1 as int],
                                            f_undisc,
                                        );
                                        lemma_grid_count_nonneg(nd@, f_undisc);
                                    }
                                    queue.push_back(nxt);
                                    proof {
                                        let qn = queue@;
                                        assert(qn == old_q.push(nxt));
                                        assert(forall|idx: int|
                                            0 <= idx < old_q.len() ==> #[trigger] qn[idx]
                                                == old_q[idx]);
                                        assert(in_q2(qn, (nxt.0 as int, nxt.1 as int))) by {
                                            assert(qn[qn.len() - 1] == nxt);
                                        }
                                        assert forall|i: int, j: int|
                                            self.in_bounds(i, j) && (#[trigger] nd@[i]@[j]) is Some
                                                && !vis@[i]@[j] implies in_q2(qn, (i, j)) by {
                                            if (i, j) == ((nxt.0 as int, nxt.1 as int)) {
                                            } else {
                                                assert(old_nd[i]@[j] is Some);
                                                assert(in_q2(old_q, (i, j)));
                                                let idx = choose|idx: int|
                                                    0 <= idx < old_q.len() && (((
                                                    #[trigger] old_q[idx]).0 as int,
                                                    old_q[idx].1 as int) == (i, j));
                                                assert(qn[idx] == old_q[idx]);
                                            }
                                        }
                                        assert((nxt.0 as int, nxt.1 as int) != srci) by {
                                            assert(!vis@[nxt.0 as int]@[nxt.1 as int]);
                                            assert(vis@[sx as int]@[sy as int]);
                                        }
                                        lemma_links_after_discover(
                                            *self,
                                            old_nd,
                                            nd@,
                                            old_dist,
                                            dist,
                                            srci,
                                            x as int,
                                            y as int,
                                            d as int,
                                            (nxt.0 as int, nxt.1 as int),
                                            back as int,
                                        );
                                        // inserting the fresh cell moves no
                                        // older distance
                                        let ni = (nxt.0 as int, nxt.1 as int);
                                        assert(forall|v: (int, int)|
                                            v != ni ==> #[trigger] dist[v] == old_dist[v]
                                                && dist.contains_key(v) == old_dist.contains_key(
                                                v,
                                            ));
                                        assert forall|idx: int|
                                            0 <= idx < qn.len() implies dw <= dist[((
                                        #[trigger] qn[idx]).0 as int, qn[idx].1 as int)] && dist[(
                                            qn[idx].0 as int,
                                            qn[idx].1 as int,
                                        )] <= dw + 1 by {
                                            if idx < old_q.len() {
                                                assert(qn[idx] == old_q[idx]);
                                                assert((old_q[idx].0 as int, old_q[idx].1 as int)
                                                    != ni) by {
                                                    assert((old_q[idx].0 as int, old_q[idx].1
                                                        as int) == srci || old_nd[old_q[idx].0
                                                        as int]@[old_q[idx].1 as int] is Some);
                                                }
                                            } else {
                                                assert(qn[idx] == nxt);
                                                assert(dist[ni] == dw + 1);
                                            }
                                        }
                                        assert forall|i1: int, i2: int|
                                            0 <= i1 <= i2 < qn.len() implies dist[((
                                        #[trigger] qn[i1]).0 as int, qn[i1].1 as int)] <= dist[((
                                        #[trigger] qn[i2]).0 as int, qn[i2].1 as int)] by {}
                                        assert forall|i: int, j: int|
                                            #![trigger vis@[i]@[j]]
                                            self.in_bounds(i, j) && vis@[i]@[j] implies dist.contains_key(
                                            (i, j),
                                        ) && dist[(i, j)] >= 0 && dist[(i, j)] <= dw && ((i, j)
                                            == srci || nd@[i]@[j] is Some) by {
                                            assert((i, j) != ni);
                                            assert(nd@[i]@[j] == old_nd[i]@[j]) by {
                                                if i != ni.0 {
                                                } else {
                                                    assert(j != ni.1);
                                                }
                                            }
                                        }
                                        assert forall|i: int, j: int, d2: int|
                                            #![trigger vis@[i]@[j], spec_dir(d2)]
                                            self.in_bounds(i, j) && vis@[i]@[j] && 0 <= d2 < 8
                                            && !((i, j) == (x as int, y as int)) implies {
                                            let t = step_of((i, j), d2);
                                            self.in_bounds(t.0, t.1) && !self.cell(
                                                t.0,
                                                t.1,
                                            ).wall ==> ((t == srci || nd@[t.0]@[t.1] is Some)
                                                && dist.contains_key(t) && dist[t] <= dist[(
                                            i,
                                            j,
                                            )] + 1)
                                        } by {
                                            let t = step_of((i, j), d2);
                                            if self.in_bounds(t.0, t.1) && !self.cell(
                                                t.0,
                                                t.1,
                                            ).wall {
                                                assert(t == srci || old_nd[t.0]@[t.1] is Some);
                                                assert(t != ni);
                                                assert(nd@[t.0]@[t.1] == old_nd[t.0]@[t.1]) by {
                                                    if t.0 != ni.0 {
                                                    } else {
                                                        assert(t.1 != ni.1);
                                                    }
                                                }
                                                assert((i, j) != ni);
                                            }
                                        }
                                        assert forall|d2: int|
                                            #![trigger spec_dir(d2)]
                                            0 <= d2 < d + 1 implies {
                                            let t = step_of((x as int, y as int), d2);
                                            self.in_bounds(t.0, t.1) && !self.cell(
                                                t.0,
                                                t.1,
                                            ).wall ==> ((t == srci || nd@[t.0]@[t.1] is Some)
                                                && dist.contains_key(t) && dist[t] <= dw + 1)
                                        } by {
                                            let t = step_of((x as int, y as int), d2);
                                            if self.in_bounds(t.0, t.1) && !self.cell(
                                                t.0,
                                                t.1,
                                            ).wall {
                                                if d2 == d as int {
                                                    assert(t == ni);
                                                    assert(dist[ni] == dw + 1);
                                                } else {
                                                    assert(t == srci || old_nd[t.0]@[t.1] is Some);
                                                    assert(t != ni);
                                                    assert(nd@[t.0]@[t.1] == old_nd[t.0]@[t.1])
                                                        by {
                                                        if t.0 != ni.0 {
                                                        } else {
                                                            assert(t.1 != ni.1);
                                                        }
                                                    }
                                                }
                                            }
                                        }
                                    }
                                } else {
                                    proof {
                                        // an already handled neighbor: it is
                                        // the source, searched, or queued in
                                        // this level's window
                                        let t = (nxt.0 as int, nxt.1 as int);
                                        if vis@[t.0]@[t.1] {
                                        } else {
                                            assert(nd@[t.0]@[t.1] is Some);
                                            assert(in_q2(queue@, t));
                                            let idx = choose|idx: int|
                                                0 <= idx < queue@.len() && (((
                                                #[trigger] queue@[idx]).0 as int, queue@[idx].1
                                                    as int) == t);
                                            assert(dw <= dist[(queue@[idx].0 as int, queue@[idx].1
                                                as int)] <= dw + 1);
                                        }
                                        assert forall|d2: int|
                                            #![trigger spec_dir(d2)]
                                            0 <= d2 < d + 1 implies {
                                            let t2 = step_of((x as int, y as int), d2);
                                            self.in_bounds(t2.0, t2.1) && !self.cell(
                                                t2.0,
                                                t2.1,
                                            ).wall ==> ((t2 == srci || nd@[t2.0]@[t2.1] is Some)
                                                && dist.contains_key(t2) && dist[t2] <= dw + 1)
                                        } by {
                                            let t2 = step_of((x as int, y as int), d2);
                                            if d2 == d as int {
                                                assert(t2 == t);
                                            }
                                        }
                                    }
                                }
                            },
                            None => {},
                        }
                        d = d + 1;
                    }
                }
            }
        }
        proof {
            if found is None {
                assert(queue@.len() == 0);
                assert(vis@[sx as int]@[sy as int]);
                assert forall|i: int, j: int|
                    self.in_bounds(i, j) && (#[trigger] nd@[i]@[j]) is Some implies vis@[i]@[j] by {
                    if !vis@[i]@[j] {
                        assert(in_q2(queue@, (i, j)));
                        assert(false);
                    }
                }
                assert forall|i: int, j: int, d: int|
                    #![trigger vis@[i]@[j], spec_dir(d)]
                    self.in_bounds(i, j) && vis@[i]@[j] && 0 <= d < 8 implies {
                    let t = step_of((i, j), d);
                    self.in_bounds(t.0, t.1) && !self.cell(t.0, t.1).wall ==> (vis@[t.0]@[t.1]
                        || nd@[t.0]@[t.1] is Some)
                } by {
                    let t = step_of((i, j), d);
                    if self.in_bounds(t.0, t.1) && !self.cell(t.0, t.1).wall {
                        assert(t == srci || nd@[t.0]@[t.1] is Some);
                    }
                }
            }
            if found is Some {
                let e = ((((found->0).0) as int, ((found->0).1) as int));
                assert(vis@[sx as int]@[sy as int]) by {
                    if !vis@[sx as int]@[sy as int] {
                        assert(vis@[e.0]@[e.1]);
                    }
                }
                assert forall|i: int, j: int|
                    #![trigger nd@[i]@[j]]
                    self.in_bounds(i, j) && nd@[i]@[j] is Some && !vis@[i]@[j] implies dist.contains_key(
                    (i, j),
                ) && dist[(i, j)] >= dist[e] by {
                    assert(in_q2(queue@, (i, j)));
                    let idx = choose|idx: int|
                        0 <= idx < queue@.len() && (((#[trigger] queue@[idx]).0 as int,
                        queue@[idx].1 as int) == (i, j));
                    assert(dist[(queue@[idx].0 as int, queue@[idx].1 as int)] >= dist[e]);
                }
                assert forall|p: Seq<(int, int)>| #[trigger] route_ok(*self, srci, p) implies p.len()
                    >= dist[e] by {
                    if p.len() < dist[e] {
                        assert(e != srci);
                        if p.len() == 0 {
                            assert(self.cell(srci.0, srci.1).exit);
                            assert(!self.cell(srci.0, srci.1).exit);
                        } else {
                            lemma_route_min(*self, vis@, nd@, dist, srci, e, p, p.len() - 1);
                            if vis@[p[p.len() - 1].0]@[p[p.len() - 1].1] && p[p.len() - 1] != e {
                                assert(!self.cell(p[p.len() - 1].0, p[p.len() - 1].1).exit);
                                assert(false);
                            } else {
                                assert(dist[e] <= p.len());
                                assert(false);
                            }
                        }
                    }
                }
            }
        }
        (nd, found, Ghost(dist), Ghost(vis@))
    }

    /// Searches breadth-first from the player over the eight directions
    /// for an exit cell, then reconstructs the route by walking the
    /// recorded directions backward from the exit. Returns the route,
    /// which excludes the player's own cell and ends on the exit, or
    /// `None` exactly when no wall-free route reaches any exit.
    #[verifier::loop_isolation(false)]
    #[verifier::rlimit(100)]
    #[verifier::spinoff_prover]
    pub fn shortest_route(&self) -> (r: Option<Vec<(usize, usize)>>)
        requires
            self.wf(),
        ensures
            ({
                let src = (self.player_location.0 as int, self.player_location.1 as int);
                match r {
                    Some(path) => route_ok(*self, src, coords_view(path@)) && forall|
                        p2: Seq<(int, int)>,
                    |
                        #[trigger] route_ok(*self, src, p2) ==> p2.len() >= path@.len(),
                    None => forall|p: Seq<(int, int)>| !route_ok(*self, src, p),
                }
            }),
    {
        let h = self.height;
        let w = self.width;
        let sx = self.player_location.0;
        let sy = self.player_location.1;
        let ghost srci = (sx as int, sy as int);
        let search = self.bfs_search();
        let nd = search.0;
        let found = search.1;
        let ghost dist = search.2@;
        let ghost vis = search.3@;
        match found {
            None => {
                proof {
                    assert forall|p: Seq<(int, int)>| !route_ok(*self, srci, p) by {
                        if route_ok(*self, srci, p) {
                            if p.len() == 0 {
                                assert(self.cell(srci.0, srci.1).exit);
                                assert(false);
                            } else {
                                lemma_route_blocked(*self, vis, nd@, srci, p, p.len() - 1);
                                assert(!self.cell(p[p.len() - 1].0, p[p.len() - 1].1).exit);
                                assert(false);
                            }
                        }
                    }
                }
                None
            },
            Some(e) => {
                let mut acc: Vec<(usize, usize)> = Vec::new();
                let mut cx = e.0;
                let mut cy = e.1;
                proof {
                    assert(dist.contains_key((cx as int, cy as int))) by {
                        if (cx as int, cy as int) != srci {
                            assert(nd@[cx as int]@[cy as int] is Some);
                        }
                    }
                    assert(dist[(cx as int, cy as int)] >= 0) by {
                        if (cx as int, cy as int) != srci {
                            assert(nd@[cx as int]@[cy as int] is Some);
                        }
                    }
                }
                while !(cx == sx && cy == sy)
                    invariant
                        nd@.len() == h,
                        forall|i: int| 0 <= i < h ==> (#[trigger] nd@[i])@.len() == w,
                        bfs_links_wf(*self, nd@, dist, srci),
                        (cx as int) < h,
                        (cy as int) < w,
                        (cx as int, cy as int) == srci || nd@[cx as int]@[cy as int] is Some,
                        dist.contains_key((cx as int, cy as int)),
                        dist[(cx as int, cy as int)] >= 0,
                        (e.0 as int) < h,
                        (e.1 as int) < w,
                        self.cell(e.0 as int, e.1 as int).exit,
                        acc@.len() == 0 ==> (cx, cy) == e,
                        acc@.len() > 0 ==> acc@[0] == e,
                        forall|t: int|
                            0 <= t < acc@.len() ==> {
                                let a = #[trigger] acc@[t];
                                &&& (a.0 as int) < h
                                &&& (a.1 as int) < w
                                &&& !self.cell(a.0 as int, a.1 as int).wall
                                &&& nd@[a.0 as int]@[a.1 as int] is Some
                            },
                        forall|t: int|
                            0 <= t < acc@.len() ==> {
                                let a = #[trigger] acc@[t];
                                let nxt2 = if t == acc@.len() - 1 {
                                    (cx as int, cy as int)
                                } else {
                                    (acc@[t + 1].0 as int, acc@[t + 1].1 as int)
                                };
                                step_of(
                                    (a.0 as int, a.1 as int),
                                    nd@[a.0 as int]@[a.1 as int]->0 as int,
                                ) == nxt2
                            },
                        dist.contains_key((e.0 as int, e.1 as int)),
                        dist[(cx as int, cy as int)] == dist[(e.0 as int, e.1 as int)]
                            - acc@.len(),
                    decreases dist[(cx as int, cy as int)],
                {
                    proof {
                        assert(nd@[cx as int]@[cy as int] is Some);
                    }
                    let ghost old_acc = acc@;
                    acc.push((cx, cy));
                    let dd = match nd[cx][cy] {
                        Some(dd) => dd,
                        None => {
                            proof {
                                assert(false);
                            }
                            0
                        },
                    };
                    let (di, dj) = dir_delta(dd);
                    proof {
                        assert(self.in_bounds(
                            step_of((cx as int, cy as int), dd as int).0,
                            step_of((cx as int, cy as int), dd as int).1,
                        ));
                    }
                    let px = (cx as i128 + di as i128) as usize;
                    let py = (cy as i128 + dj as i128) as usize;
                    cx = px;
                    cy = py;
                    proof {
                        assert(dist.contains_key((cx as int, cy as int))) by {
                            if (cx as int, cy as int) != srci {
                                assert(nd@[cx as int]@[cy as int] is Some);
                            }
                        }
                    }
                }
                let n = acc.len();
                let mut path: Vec<(usize, usize)> = Vec::new();
                let mut t: usize = n;
                while t > 0
                    invariant
                        t <= n,
                        n == acc@.len(),
                        path@.len() == n - t,
                        forall|k: int|
                            0 <= k < path@.len() ==> #[trigger] path@[k] == acc@[n - 1 - k],
                    decreases t,
                {
                    t = t - 1;
                    path.push(acc[t]);
                }
                proof {
                    let cv = coords_view(path@);
                    assert(cv.len() == n);
                    assert(forall|k: int|
                        0 <= k < n ==> #[trigger] cv[k] == ((acc@[n - 1 - k].0 as int, acc@[n - 1
                            - k].1 as int)));
                    assert forall|k: int| 0 <= k < cv.len() implies adjacent8(
                        if k == 0 {
                            srci
                        } else {
                            cv[k - 1]
                        },
                        #[trigger] cv[k],
                    ) by {
                        let a = acc@[n - 1 - k];
                        let ai = (a.0 as int, a.1 as int);
                        let dd = nd@[ai.0]@[ai.1]->0 as int;
                        lemma_dir_inverse(ai, dd);
                        if k == 0 {
                            assert(step_of(ai, dd) == (srci));
                        } else {
                            assert(step_of(ai, dd) == ((acc@[n - k].0 as int, acc@[n - k].1
                                as int)));
                        }
                    }
                    if n > 0 {
                        assert(cv[n - 1] == ((e.0 as int, e.1 as int)));
                    } else {
                        assert((e.0, e.1) == (sx, sy));
                    }
                    assert(route_ok(*self, srci, cv));
                    // the walk back took exactly the exit's recorded distance
                    assert(n == dist[(e.0 as int, e.1 as int)]);
                    assert forall|p2: Seq<(int, int)>| #[trigger] route_ok(
                        *self,
                        srci,
                        p2,
                    ) implies p2.len() >= path@.len() by {
                        assert(p2.len() >= dist[(e.0 as int, e.1 as int)]);
                    }
                }
                Some(path)
            },
        }
    }
}

/// What the window shows at offset `(gi, gj)`: the maze cell when it is
/// inside the maze, a wall otherwise.
pub open spec fn window_cell(m: Maze, x: int, y: int, r: int, gi: int, gj: int) -> MazeCell {
    if m.in_bounds(x - r + gi, y - r + gj) {
        m.cell(x - r + gi, y - r + gj)
    } else {
        MazeCell { value: '\0', power_up: None, wall: true, visited: false, exit: false }
    }
}

/// The window of the maze around the player that gameplay presents: a
/// square of cells, the selected position, the guidance-thread
/// coordinates, and the window's top-left corner in maze coordinates.
pub struct VisibleArea {
    pub cells: Vec<Vec<MazeCell>>,
    pub selected: (usize, usize),
    pub thread: Vec<(i128, i128)>,
    pub offset: (i128, i128),
}

impl VisibleArea {
    /// The collectible under the selected position, unless that cell was
    /// already visited.
    pub fn get_powerup(&self) -> (r: Option<PowerUP>)
        requires
            (self.selected.0 as int) < self.cells@.len(),
            (self.selected.1 as int) < self.cells@[self.selected.0 as int]@.len(),
        ensures
            r == (if self.cells@[self.selected.0 as int]@[self.selected.1 as int].visited {
                None::<PowerUP>
            } else {
                self.cells@[self.selected.0 as int]@[self.selected.1 as int].power_up
            }),
    {
        let (i, j) = self.selected;
        if self.cells[i][j].visited {
            return None;
        }
        self.cells[i][j].power_up
    }
}

impl Maze {
    /// The square window of `2 * sight_radius + 1` cells centered on the
    /// player: maze cells where the window lies inside the maze, walls
    /// where it hangs over the edge. The selected position starts at the
    /// center; the thread is left empty.
    pub fn visible_area(&self, sight_radius: usize) -> (v: VisibleArea)
        requires
            self.wf(),
            2 * sight_radius + 1 <= usize::MAX,
        ensures
            ({
                let dim = 2 * sight_radius + 1;
                let x = self.player_location.0 as int;
                let y = self.player_location.1 as int;
                let r = sight_radius as int;
                &&& v.cells@.len() == dim
                &&& forall|gi: int| 0 <= gi < dim ==> (#[trigger] v.cells@[gi])@.len() == dim
                &&& forall|gi: int, gj: int|
                    #![trigger v.cells@[gi]@[gj]]
                    0 <= gi < dim && 0 <= gj < dim ==> v.cells@[gi]@[gj] == window_cell(
                        *self,
                        x,
                        y,
                        r,
                        gi,
                        gj,
                    )
                &&& v.selected == ((sight_radius, sight_radius))
                &&& (v.offset.0 as int, v.offset.1 as int) == ((x - r, y - r))
                &&& v.thread@.len() == 0
            }),
    {
        let r = sight_radius;
        let dim = 2 * r + 1;
        let x = self.player_location.0;
        let y = self.player_location.1;
        let mut cells: Vec<Vec<MazeCell>> = Vec::new();
        let mut gi: usize = 0;
        while gi < dim
            invariant
                self.wf(),
                x == self.player_location.0,
                y == self.player_location.1,
                r == sight_radius,
                2 * r + 1 <= usize::MAX,
                dim == 2 * r + 1,
                gi <= dim,
                cells@.len() == gi,
                forall|i2: int| 0 <= i2 < gi ==> (#[trigger] cells@[i2])@.len() == dim,
                forall|i2: int, j2: int|
                    #![trigger cells@[i2]@[j2]]
                    0 <= i2 < gi && 0 <= j2 < dim ==> cells@[i2]@[j2] == window_cell(
                        *self,
                        self.player_location.0 as int,
                        self.player_location.1 as int,
                        r as int,
                        i2,
                        j2,
                    ),
            decreases dim - gi,
        {
            let mut row: Vec<MazeCell> = Vec::new();
            let mut gj: usize = 0;
            while gj < dim
                invariant
                    self.wf(),
                    x == self.player_location.0,
                    y == self.player_location.1,
                    r == sight_radius,
                    2 * r + 1 <= usize::MAX,
                    dim == 2 * r + 1,
                    gj <= dim,
                    gi < dim,
                    row@.len() == gj,
                    forall|j2: int|
                        #![trigger row@[j2]]
                        0 <= j2 < gj ==> row@[j2] == window_cell(
                            *self,
                            self.player_location.0 as int,
                            self.player_location.1 as int,
                            r as int,
                            gi as int,
                            j2,
                        ),
                decreases dim - gj,
            {
                let mi = x as i128 - r as i128 + gi as i128;
                let mj = y as i128 - r as i128 + gj as i128;
                if mi >= 0 && mj >= 0 && mi < self.height as i128 && mj < self.width as i128 {
                    let miu = mi as usize;
                    let mju = mj as usize;
                    proof {
                        assert(miu as int == mi as int);
                        assert(mju as int == mj as int);
                        assert((miu as int) < self.cells@.len());
                        assert((mju as int) < self.cells@[miu as int]@.len());
                    }
                    row.push(self.cells[miu][mju]);
                } else {
                    row.push(MazeCell::wall());
                }
                gj = gj + 1;
            }
            cells.push(row);
            gi = gi + 1;
        }
        VisibleArea {
            cells,
            selected: (r, r),
            thread: Vec::new(),
            offset: (x as i128 - r as i128, y as i128 - r as i128),
        }
    }
}

/// Why maze generation can fail.
#[derive(Debug, Clone, Copy, PartialEq, Eq)]
pub enum GenError {
    /// a zero dimension or a zero path divisor
    InvalidConfig,
    /// a placement loop drew the maximum number of samples without success
    RetriesExhausted,
}

/// How many samples a placement loop may draw before giving up.
pub const MAX_PLACEMENT_ATTEMPTS: usize = 100000;

/// The collectible kinds, indexable for a uniform draw.
fn powerup_from_index(k: usize) -> (p: PowerUP)
    requires
        k < 5,
{
    match k {
        0 => PowerUP::AriadneThread,
        1 => PowerUP::HeliosTorch,
        2 => PowerUP::OdinDraupnir,
        3 => PowerUP::ThorMjolnir,
        _ => PowerUP::BifrostBridge,
    }
}

/// A route stays a route when walls are only removed and the exits stay.
pub proof fn lemma_route_preserved(m1: Maze, m2: Maze, src: (int, int), p: Seq<(int, int)>)
    requires
        route_ok(m1, src, p),
        m2.height == m1.height,
        m2.width == m1.width,
        m2.cells@.len() == m1.cells@.len(),
        forall|i: int| 0 <= i < m1.cells@.len() ==> (#[trigger] m2.cells@[i])@.len() == m1.cells@[i]@.len(),
        forall|i: int, j: int|
            #![trigger m2.cells@[i]@[j]]
            m1.in_bounds(i, j) ==> {
                &&& (m2.cell(i, j).wall ==> m1.cell(i, j).wall)
                &&& m2.cell(i, j).exit == m1.cell(i, j).exit
            },
    ensures
        route_ok(m2, src, p),
{
    assert forall|k: int| 0 <= k < p.len() implies m2.in_bounds((#[trigger] p[k]).0, p[k].1)
        && !m2.cell(p[k].0, p[k].1).wall by {
        assert(m1.in_bounds(p[k].0, p[k].1) && !m1.cell(p[k].0, p[k].1).wall);
    }
}

/// Everything generation guarantees of a maze it returns: the stated
/// dimensions; exactly one exit, never on a wall; collectibles only on
/// free cells that are neither the exit nor the start, and exactly as
/// many as were asked for; a free, visited, non-exit start; and every
/// route from the start to an exit longer than the configured threshold,
/// with at least one such route existing.
pub open spec fn well_generated(m: Maze, s: Settings) -> bool {
    let player = (m.player_location.0 as int, m.player_location.1 as int);
    let thr = ((s.height + s.width) as int) / (s.min_path_div as int);
    &&& m.wf()
    &&& m.height == s.height
    &&& m.width == s.width
    &&& exists|e: (int, int)|
        {
            &&& #[trigger] m.in_bounds(e.0, e.1)
            &&& m.cell(e.0, e.1).exit
            &&& forall|i: int, j: int|
                m.in_bounds(i, j) && (#[trigger] m.cell(i, j)).exit ==> (i, j) == e
        }
    &&& forall|i: int, j: int|
        m.in_bounds(i, j) ==> !((#[trigger] m.cell(i, j)).wall && m.cell(i, j).exit)
    &&& forall|i: int, j: int|
        m.in_bounds(i, j) && (#[trigger] m.cell(i, j)).power_up is Some ==> {
            &&& !m.cell(i, j).wall
            &&& !m.cell(i, j).exit
            &&& (i, j) != player
        }
    &&& count_power_ups(m.cells@) == s.nb_power_ups
    // every character came from the alphabet or the dictionary
    &&& forall|i: int, j: int|
        m.in_bounds(i, j) ==> ({
            let v = (#[trigger] m.cell(i, j)).value;
            v == '\0' || (97 <= v as int <= 122) || char_in_pats(s.words.deep_view(), v)
        })
    // with a dictionary free of null characters, the fill reached every cell
    &&& (no_null_pats(s.words.deep_view()) ==> forall|i: int, j: int|
        m.in_bounds(i, j) ==> (#[trigger] m.cell(i, j)).value != '\0')
    &&& !m.cell(player.0, player.1).wall
    &&& m.cell(player.0, player.1).visited
    &&& !m.cell(player.0, player.1).exit
    &&& forall|p: Seq<(int, int)>| #[trigger] route_ok(m, player, p) ==> p.len() > thr
    &&& exists|p: Seq<(int, int)>| #[trigger] route_ok(m, player, p)
}

/// A route in a maze whose source cell alone had its wall cleared can be
/// replaced by one at most as long that avoids the source cell, and that
/// one is a route of the maze before the clearing.
#[verifier::rlimit(100)]
#[verifier::spinoff_prover]
proof fn lemma_route_avoid(m1: Maze, m2: Maze, src: (int, int), p: Seq<(int, int)>)
    requires
        m2.height == m1.height,
        m2.width == m1.width,
        m2.cells@.len() == m1.cells@.len(),
        forall|i: int|
            0 <= i < m1.cells@.len() ==> (#[trigger] m2.cells@[i])@.len() == m1.cells@[i]@.len(),
        forall|i: int, j: int|
            #![trigger m2.cells@[i]@[j]]
            m1.in_bounds(i, j) && (i, j) != src ==> {
                &&& m2.cell(i, j).wall == m1.cell(i, j).wall
                &&& m2.cell(i, j).exit == m1.cell(i, j).exit
            },
        m1.in_bounds(src.0, src.1),
        m2.cell(src.0, src.1).exit == m1.cell(src.0, src.1).exit,
        !m2.cell(src.0, src.1).exit,
        route_ok(m2, src, p),
    ensures
        exists|p2: Seq<(int, int)>| #[trigger] route_ok(m1, src, p2) && p2.len() <= p.len(),
    decreases p.len(),
{
    if exists|k: int| 0 <= k < p.len() && p[k] == src {
        let k = choose|k: int| 0 <= k < p.len() && p[k] == src;
        // the endpoint is an exit and the source is not, so the route goes
        // on past the source; the remainder is a shorter route from it
        assert(k < p.len() - 1) by {
            if k == p.len() - 1 {
                assert(m2.cell(src.0, src.1).exit);
            }
        }
        let q = p.skip(k + 1);
        assert(route_ok(m2, src, q)) by {
            assert(q.len() == p.len() - k - 1);
            assert(forall|t: int| 0 <= t < q.len() ==> #[trigger] q[t] == p[t + k + 1]);
            assert forall|t: int| 0 <= t < q.len() implies adjacent8(
                if t == 0 {
                    src
                } else {
                    q[t - 1]
                },
                #[trigger] q[t],
            ) by {
                if t == 0 {
                    assert(adjacent8(p[k], p[k + 1]));
                } else {
                    assert(adjacent8(p[t + k], p[t + k + 1]));
                }
            }
            assert(q[q.len() - 1] == p[p.len() - 1]);
        }
        lemma_route_avoid(m1, m2, src, q);
    } else {
        assert(route_ok(m1, src, p)) by {
            assert(forall|k: int| 0 <= k < p.len() ==> (#[trigger] p[k]) != src);
            assert forall|k: int| 0 <= k < p.len() implies m1.in_bounds((#[trigger] p[k]).0, p[k].1)
                && !m1.cell(p[k].0, p[k].1).wall by {
                assert(m2.cells@[p[k].0]@[p[k].1] == m2.cells@[p[k].0]@[p[k].1]);
                assert(p[k] != src);
            }
            if p.len() == 0 {
            } else {
                assert(p[p.len() - 1] != src);
                assert(m2.cells@[p[p.len() - 1].0]@[p[p.len() - 1].1]
                    == m2.cells@[p[p.len() - 1].0]@[p[p.len() - 1].1]);
            }
        }
        assert(route_ok(m1, src, p) && p.len() <= p.len());
    }
}

impl Maze {
    /// Generates a maze from the settings: fills characters with the
    /// word-biased walk, carves the walls, places the exit, then retries
    /// player placement until a route to the exit longer than
    /// `(height + width) / min_path_div` exists, and scatters the
    /// collectibles over free cells. The result has exactly one exit,
    /// never on a wall; every collectible sits on a free cell that is
    /// neither the exit nor the player's start; and a route from the
    /// player to the exit longer than the threshold exists. Rejects a
    /// zero dimension or divisor; gives up, rather than looping forever,
    /// when a placement loop exhausts its samples.
    #[verifier::loop_isolation(false)]
    #[verifier::rlimit(100)]
    #[verifier::spinoff_prover]
    pub fn new(settings: &Settings) -> (r: Result<Maze, GenError>)
        requires
            settings.height + settings.width <= usize::MAX,
        ensures
            r is Err && r->Err_0 == GenError::InvalidConfig <==> (settings.height == 0
                || settings.width == 0 || settings.min_path_div == 0),
            r is Ok ==> well_generated(r->Ok_0, *settings),
    {
        let n = settings.height;
        let w = settings.width;
        if n == 0 || w == 0 || settings.min_path_div == 0 {
            return Err(GenError::InvalidConfig);
        }
        let word_builder = Matcher::new(copy_words(&settings.words));
        let mut rng = rng_from_seed(settings.seed);
        let mut maze = Maze {
            height: n,
            width: w,
            cells: filled_grid(n, w, MazeCell::blank()),
            player_location: (0, 0),
        };

        // fill the characters with the word-biased random walk
        let ghost m_blank = maze;
        maze.fill_maze_characters(
            (n / 2, w / 2),
            settings.word_prob_permille,
            &word_builder,
            &mut rng,
        );
        proof {
            assert forall|i: int, j: int|
                #![trigger maze.cells@[i]@[j]]
                maze.in_bounds(i, j) implies !maze.cell(i, j).exit && !maze.cell(i, j).visited
                && maze.cell(i, j).power_up is None by {}
            // whatever the fill wrote is a letter or a dictionary character
            assert forall|i: int, j: int|
                #![trigger maze.cells@[i]@[j]]
                maze.in_bounds(i, j) implies ({
                let v = maze.cell(i, j).value;
                v == '\0' || (97 <= v as int <= 122) || char_in_pats(settings.words.deep_view(), v)
            }) by {
                let v = maze.cell(i, j).value;
                if v != '\0' {
                    assert(m_blank.cells@[i]@[j].value == '\0');
                    assert(is_fill_char(word_builder.nodes@, v));
                    if !(97 <= v as int <= 122) {
                        lemma_edge_chars_in_pats(word_builder);
                        let (s2, k2) = choose|s2: int, k2: int|
                            0 <= s2 < word_builder.nodes@.len() && 0 <= k2
                                < word_builder.nodes@[s2].children@.len() && ((
                            #[trigger] word_builder.nodes@[s2].children@[k2]).0) == v;
                        assert(char_in_pats(word_builder.pats@, v));
                    }
                }
            }
            // a null-free dictionary lets the fill reach every cell
            if no_null_pats(settings.words.deep_view()) {
                lemma_no_null_edges(word_builder);
                assert forall|i: int, j: int|
                    #![trigger maze.cells@[i]@[j]]
                    maze.in_bounds(i, j) implies maze.cell(i, j).value != '\0' by {
                    let origin = (((n / 2) as int, (w / 2) as int));
                    if (i, j) == origin {
                        assert(m_blank.cell(origin.0, origin.1).value == '\0');
                        assert(!m_blank.cell(origin.0, origin.1).wall);
                    } else {
                        lemma_blank_grid_path(m_blank, origin, (i, j));
                        let p = choose|p: Seq<(int, int)>|
                            #[trigger] blank_path(m_blank, origin, p) && p.len() >= 1 && p[p.len()
                                - 1] == ((i, j));
                        assert(maze.cells@[p[p.len() - 1].0]@[p[p.len() - 1].1].value != '\0');
                    }
                }
            }
        }

        // carve the walls, each seed growing in two opposite directions
        let mut wcount: usize = 0;
        while wcount < settings.wall_nodes
            invariant
                wcount <= settings.wall_nodes,
                maze.wf(),
                maze.height == n,
                maze.width == w,
                forall|i: int, j: int|
                    #![trigger maze.cells@[i]@[j]]
                    maze.in_bounds(i, j) ==> !maze.cell(i, j).exit && !maze.cell(i, j).visited
                        && maze.cell(i, j).power_up is None,
                forall|i: int, j: int|
                    #![trigger maze.cells@[i]@[j]]
                    maze.in_bounds(i, j) ==> ({
                        let v = maze.cell(i, j).value;
                        v == '\0' || (97 <= v as int <= 122) || char_in_pats(
                            settings.words.deep_view(),
                            v,
                        )
                    }),
                no_null_pats(settings.words.deep_view()) ==> forall|i: int, j: int|
                    #![trigger maze.cells@[i]@[j]]
                    maze.in_bounds(i, j) ==> maze.cell(i, j).value != '\0',
            decreases settings.wall_nodes - wcount,
        {
            let i = rand_below(&mut rng, n);
            let j = rand_below(&mut rng, w);
            let direction = rand_below(&mut rng, 8);
            let ghost m_a = maze;
            maze.make_wall(i, j, direction, &mut rng);
            let ghost m_b = maze;
            maze.make_wall(i, j, (direction + 4) % 8, &mut rng);
            proof {
                assert forall|i2: int, j2: int|
                    #![trigger maze.cells@[i2]@[j2]]
                    maze.in_bounds(i2, j2) implies !maze.cell(i2, j2).exit && !maze.cell(
                    i2,
                    j2,
                ).visited && maze.cell(i2, j2).power_up is None by {
                    assert(maze.cells@[i2]@[j2].exit == m_b.cells@[i2]@[j2].exit);
                    assert(m_b.cells@[i2]@[j2].exit == m_a.cells@[i2]@[j2].exit);
                }
                assert(forall|i2: int, j2: int|
                    #![trigger maze.cells@[i2]@[j2]]
                    maze.in_bounds(i2, j2) ==> maze.cells@[i2]@[j2].value
                        == m_b.cells@[i2]@[j2].value && m_b.cells@[i2]@[j2].value
                        == m_a.cells@[i2]@[j2].value);
            }
            wcount = wcount + 1;
        }

        // place the exit on a cell forced free
        let ei = rand_below(&mut rng, n);
        let ej = rand_below(&mut rng, w);
        let ghost mc0 = maze.cells@;
        maze.cells[ei][ej].wall = false;
        maze.cells[ei][ej].exit = true;
        proof {
            assert(forall|i: int|
                0 <= i < n && i != ei as int ==> (#[trigger] maze.cells@[i]) == mc0[i]);
            assert forall|i: int, j: int|
                #![trigger maze.cells@[i]@[j]]
                maze.in_bounds(i, j) implies !maze.cell(i, j).visited && maze.cell(
                i,
                j,
            ).power_up is None && (maze.cell(i, j).exit <==> (i, j) == ((ei as int, ej as int)))
                && !(maze.cell(i, j).wall && maze.cell(i, j).exit) by {
                if i != ei as int || j != ej as int {
                    assert(maze.cells@[i]@[j] == mc0[i]@[j]);
                }
            }
        }

        // retry player placement until the exit is reachable on a route
        // longer than the threshold
        let thr: u128 = (n as u128 + w as u128) / (settings.min_path_div as u128);
        let ghost thri = ((n + w) as int) / (settings.min_path_div as int);
        let mut attempts: usize = 0;
        let mut placed = false;
        while attempts < MAX_PLACEMENT_ATTEMPTS && !placed
            invariant
                attempts <= MAX_PLACEMENT_ATTEMPTS,
                maze.wf(),
                maze.height == n,
                maze.width == w,
                forall|i: int, j: int|
                    #![trigger maze.cells@[i]@[j]]
                    maze.in_bounds(i, j) ==> !maze.cell(i, j).visited && maze.cell(
                        i,
                        j,
                    ).power_up is None && (maze.cell(i, j).exit <==> (i, j) == ((
                    ei as int,
                    ej as int,
                    ))) && !(maze.cell(i, j).wall && maze.cell(i, j).exit),
                forall|i: int, j: int|
                    #![trigger maze.cells@[i]@[j]]
                    maze.in_bounds(i, j) ==> ({
                        let v = maze.cell(i, j).value;
                        v == '\0' || (97 <= v as int <= 122) || char_in_pats(
                            settings.words.deep_view(),
                            v,
                        )
                    }),
                no_null_pats(settings.words.deep_view()) ==> forall|i: int, j: int|
                    #![trigger maze.cells@[i]@[j]]
                    maze.in_bounds(i, j) ==> maze.cell(i, j).value != '\0',
                placed ==> ({
                    let player = (maze.player_location.0 as int, maze.player_location.1 as int);
                    &&& !maze.cell(player.0, player.1).exit
                    &&& exists|p: Seq<(int, int)>|
                        #[trigger] route_ok(maze, player, p) && p.len() > thri
                    &&& forall|p: Seq<(int, int)>|
                        #[trigger] route_ok(maze, player, p) ==> p.len() > thri
                }),
            decreases MAX_PLACEMENT_ATTEMPTS - attempts, 1int - (if placed { 1int } else { 0int }),
        {
            let x = rand_below(&mut rng, n);
            let y = rand_below(&mut rng, w);
            maze.player_location = (x, y);
            if !maze.cells[x][y].exit {
                match maze.shortest_route() {
                    Some(path) => {
                        if (path.len() as u128) > thr {
                            placed = true;
                            proof {
                                assert(coords_view(path@).len() > thri);
                                // no route beats the shortest one just found
                                assert forall|p: Seq<(int, int)>| #[trigger] route_ok(
                                    maze,
                                    (maze.player_location.0 as int, maze.player_location.1 as int),
                                    p,
                                ) implies p.len() > thri by {
                                    assert(p.len() >= coords_view(path@).len());
                                }
                            }
                        }
                    },
                    None => {},
                }
            }
            attempts = attempts + 1;
        }
        if !placed {
            return Err(GenError::RetriesExhausted);
        }
        let px = maze.player_location.0;
        let py = maze.player_location.1;
        let ghost maze1 = maze;
        let ghost mc1 = maze.cells@;
        maze.cells[px][py].visited = true;
        maze.cells[px][py].wall = false;
        proof {
            assert(forall|i: int|
                0 <= i < n && i != px as int ==> (#[trigger] maze.cells@[i]) == mc1[i]);
            let player = (px as int, py as int);
            let p0 = choose|p: Seq<(int, int)>|
                #[trigger] route_ok(maze1, player, p) && p.len() > thri;
            lemma_route_preserved(maze1, maze, player, p0);
            assert(route_ok(maze, player, p0) && p0.len() > thri);
            // clearing the start's own wall opens no shorter route: any
            // route through the start shortens to one avoiding it
            assert forall|p: Seq<(int, int)>| #[trigger] route_ok(maze, player, p) implies p.len()
                > thri by {
                lemma_route_avoid(maze1, maze, player, p);
                let p2 = choose|p2: Seq<(int, int)>|
                    #[trigger] route_ok(maze1, player, p2) && p2.len() <= p.len();
                assert(p2.len() > thri);
            }
            lemma_count_power_ups_zero(maze.cells@);
            assert forall|i: int, j: int|
                #![trigger maze.cells@[i]@[j]]
                maze.in_bounds(i, j) implies (maze.cell(i, j).exit <==> (i, j) == ((
            ei as int,
            ej as int,
            ))) && !(maze.cell(i, j).wall && maze.cell(i, j).exit) && maze.cell(
                i,
                j,
            ).power_up is None by {
                if i != px as int || j != py as int {
                    assert(maze.cells@[i]@[j] == mc1[i]@[j]);
                }
            }
        }

        // scatter the collectibles over free cells
        let mut placed_ups: usize = 0;
        while placed_ups < settings.nb_power_ups
            invariant
                placed_ups <= settings.nb_power_ups,
                maze.wf(),
                maze.height == n,
                maze.width == w,
                maze.player_location == ((px, py)),
                (px as int) < n,
                (py as int) < w,
                forall|i: int, j: int|
                    #![trigger maze.cells@[i]@[j]]
                    maze.in_bounds(i, j) ==> (maze.cell(i, j).exit <==> (i, j) == ((
                    ei as int,
                    ej as int,
                    ))) && !(maze.cell(i, j).wall && maze.cell(i, j).exit),
                forall|i: int, j: int|
                    #![trigger maze.cells@[i]@[j]]
                    maze.in_bounds(i, j) && maze.cell(i, j).power_up is Some ==> {
                        &&& !maze.cell(i, j).wall
                        &&& !maze.cell(i, j).exit
                        &&& (i, j) != ((px as int, py as int))
                    },
                !maze.cell(px as int, py as int).wall,
                maze.cell(px as int, py as int).visited,
                !maze.cell(px as int, py as int).exit,
                exists|p: Seq<(int, int)>|
                    #[trigger] route_ok(maze, (px as int, py as int), p) && p.len() > thri,
                forall|p: Seq<(int, int)>|
                    #[trigger] route_ok(maze, (px as int, py as int), p) ==> p.len() > thri,
                count_power_ups(maze.cells@) == placed_ups,
                forall|i: int, j: int|
                    #![trigger maze.cells@[i]@[j]]
                    maze.in_bounds(i, j) ==> ({
                        let v = maze.cell(i, j).value;
                        v == '\0' || (97 <= v as int <= 122) || char_in_pats(
                            settings.words.deep_view(),
                            v,
                        )
                    }),
                no_null_pats(settings.words.deep_view()) ==> forall|i: int, j: int|
                    #![trigger maze.cells@[i]@[j]]
                    maze.in_bounds(i, j) ==> maze.cell(i, j).value != '\0',
            decreases settings.nb_power_ups - placed_ups,
        {
            let mut tries: usize = 0;
            let mut done = false;
            while tries < MAX_PLACEMENT_ATTEMPTS && !done
                invariant
                    tries <= MAX_PLACEMENT_ATTEMPTS,
                    maze.wf(),
                    maze.height == n,
                    maze.width == w,
                    maze.player_location == ((px, py)),
                    (px as int) < n,
                    (py as int) < w,
                    forall|i: int, j: int|
                        #![trigger maze.cells@[i]@[j]]
                        maze.in_bounds(i, j) ==> (maze.cell(i, j).exit <==> (i, j)
                            == ((ei as int, ej as int))) && !(maze.cell(i, j).wall && maze.cell(
                            i,
                            j,
                        ).exit),
                    forall|i: int, j: int|
                        #![trigger maze.cells@[i]@[j]]
                        maze.in_bounds(i, j) && maze.cell(i, j).power_up is Some
                            ==> {
                            &&& !maze.cell(i, j).wall
                            &&& !maze.cell(i, j).exit
                            &&& (i, j) != ((px as int, py as int))
                        },
                    !maze.cell(px as int, py as int).wall,
                    maze.cell(px as int, py as int).visited,
                    !maze.cell(px as int, py as int).exit,
                    exists|p: Seq<(int, int)>|
                        #[trigger] route_ok(maze, (px as int, py as int), p) && p.len() > thri,
                    forall|p: Seq<(int, int)>|
                        #[trigger] route_ok(maze, (px as int, py as int), p) ==> p.len() > thri,
                    count_power_ups(maze.cells@) == placed_ups + (if done {
                        1int
                    } else {
                        0int
                    }),
                forall|i: int, j: int|
                    #![trigger maze.cells@[i]@[j]]
                    maze.in_bounds(i, j) ==> ({
                        let v = maze.cell(i, j).value;
                        v == '\0' || (97 <= v as int <= 122) || char_in_pats(
                            settings.words.deep_view(),
                            v,
                        )
                    }),
                no_null_pats(settings.words.deep_view()) ==> forall|i: int, j: int|
                    #![trigger maze.cells@[i]@[j]]
                    maze.in_bounds(i, j) ==> maze.cell(i, j).value != '\0',
                decreases MAX_PLACEMENT_ATTEMPTS - tries, 1int - (if done { 1int } else { 0int }),
            {
                let ux = rand_below(&mut rng, n);
                let uy = rand_below(&mut rng, w);
                let free = !maze.cells[ux][uy].wall && !maze.cells[ux][uy].exit
                    && maze.cells[ux][uy].power_up.is_none() && !(ux == px && uy == py);
                if free {
                    let kind = powerup_from_index(rand_below(&mut rng, 5));
                    let ghost maze2 = maze;
                    let ghost mc2 = maze.cells@;
                    maze.cells[ux][uy].power_up = Some(kind);
                    done = true;
                    proof {
                        assert(forall|i: int|
                            0 <= i < n && i != ux as int ==> (#[trigger] maze.cells@[i])
                                == mc2[i]);
                        let player = (px as int, py as int);
                        let p0 = choose|p: Seq<(int, int)>|
                            #[trigger] route_ok(maze2, player, p) && p.len() > thri;
                        lemma_route_preserved(maze2, maze, player, p0);
                        assert(route_ok(maze, player, p0) && p0.len() > thri);
                        // the one placed collectible raises the count by one
                        lemma_count_power_ups_update(
                            mc2,
                            maze.cells@,
                            ux as int,
                            uy as int,
                            maze.cells@[ux as int]@[uy as int],
                        );
                        // routes ignore collectibles, so none got shorter
                        assert forall|p: Seq<(int, int)>| #[trigger] route_ok(
                            maze,
                            player,
                            p,
                        ) implies p.len() > thri by {
                            lemma_route_preserved(maze, maze2, player, p);
                            assert(route_ok(maze2, player, p));
                        }
                        assert forall|i: int, j: int|
                            #![trigger maze.cells@[i]@[j]]
                            maze.in_bounds(i, j) && maze.cell(i, j).power_up is Some implies {
                            &&& !maze.cell(i, j).wall
                            &&& !maze.cell(i, j).exit
                            &&& (i, j) != ((px as int, py as int))
                        } by {
                            if i != ux as int || j != uy as int {
                                assert(maze.cells@[i]@[j] == mc2[i]@[j]);
                            }
                        }
                        assert forall|i: int, j: int|
                            #![trigger maze.cells@[i]@[j]]
                            maze.in_bounds(i, j) implies (maze.cell(i, j).exit <==> (
                        i,
                        j,
                        ) == ((ei as int, ej as int))) && !(maze.cell(i, j).wall && maze.cell(
                            i,
                            j,
                        ).exit) by {
                            if i != ux as int || j != uy as int {
                                assert(maze.cells@[i]@[j] == mc2[i]@[j]);
                            }
                        }
                    }
                }
                tries = tries + 1;
            }
            if !done {
                return Err(GenError::RetriesExhausted);
            }
            placed_ups = placed_ups + 1;
        }
        proof {
            let m = maze;
            let e = ((ei as int, ej as int));
            assert(m.in_bounds(e.0, e.1) && m.cell(e.0, e.1).exit && forall|i: int, j: int|
                m.in_bounds(i, j) && (#[trigger] m.cell(i, j)).exit ==> (i, j) == e);
        }
        Ok(maze)
    }
}


} // verus!
