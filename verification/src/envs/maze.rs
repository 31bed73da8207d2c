//! A partially observed grid maze.
use crate::canvas::Color;
use crate::chance::draw_number;
use crate::chance::drawn;
use crate::chance::drawn_from;
use crate::chance::seeded_from;
use crate::chance::start_from;
use crate::layout::channel;
use crate::layout::law_plane_offsets;
use crate::layout::law_scan_runs_row_by_row;
use crate::layout::planes;
use crate::layout::scan;
use crate::layout::to_planes;
use vstd::prelude::*;

verus! {

/// A grid of walls and floor.
pub struct Maze {
    grid: Vec<Vec<bool>>,
    width: usize,
    height: usize,
}

/// A maze that is being dug.
pub struct Digging {
    /// The maze so far.
    pub maze: Maze,
    /// The rooms from the first to the one where the digger stands.
    pub walk: Seq<(int, int)>,
    /// The generator that the next number is drawn from.
    pub rng: rand::rngs::StdRng,
}

impl Digging {
    /// The digger goes on: back where all rooms around are dug out, else through a fresh passage
    /// to one of the rooms around that are not, which is chosen by lot.
    pub open spec fn goes_on(self, after: Digging) -> bool {
        let around = self.maze.unvisited_from(self.walk.last());
        &&& self.walk.len() > 0
        &&& after.maze.columns() == self.maze.columns()
        &&& after.maze.rows() == self.maze.rows()
        &&& if around.len() == 0 {
            after.maze.floor() == self.maze.floor() && after.walk == self.walk.drop_last()
        } else {
            exists|lot: usize|
                {
                    &&& #[trigger] drawn_from(self.rng, 0, around.len() as usize, lot)
                    &&& lot < around.len()
                    &&& after.walk == self.walk.push(around[lot as int])
                    &&& after.maze.floor() == self.maze.floor().insert(around[lot as int]).insert(
                        halfway(self.walk.last(), around[lot as int]),
                    )
                }
        }
    }
}

/// `course` is how a maze of `width` columns and `height` rows came about by chance, from the first
/// number of `rng` on.
pub open spec fn is_dug(
    course: Seq<Digging>,
    width: int,
    height: int,
    rng: rand::rngs::StdRng,
) -> bool {
    &&& course.len() > 0
    &&& course[0].rng == rng
    &&& course[0].walk == seq![(1int, 1int)]
    &&& course[0].maze.floor() == Set::<(int, int)>::empty().insert((1, 1))
    &&& course[0].maze.columns() == width
    &&& course[0].maze.rows() == height
    &&& forall|k: int, l: int|
        0 <= k && l == k + 1 && l < course.len() ==> (#[trigger] course[k]).goes_on(
            #[trigger] course[l],
        )
}

/// A maze was dug by chance, from the first number of `rng` on, until the digger was back where it
/// started and had nowhere left to go.
pub open spec fn dug_by_chance(maze: Maze, rng: rand::rngs::StdRng) -> bool {
    exists|course: Seq<Digging>|
        {
            &&& #[trigger] is_dug(course, maze.columns(), maze.rows(), rng)
            &&& course.last().walk.len() == 0
            &&& course.last().maze == maze
        }
}

/// Two cells share a side.
pub open spec fn adjacent(a: (int, int), b: (int, int)) -> bool {
    vstd::math::abs(a.0 - b.0) + vstd::math::abs(a.1 - b.1) == 1
}

/// `path` walks from `a` to `b` over cells of `floor`, side by side.
pub open spec fn is_path(
    floor: Set<(int, int)>,
    path: Seq<(int, int)>,
    a: (int, int),
    b: (int, int),
) -> bool {
    &&& path.len() > 0
    &&& path[0] == a
    &&& path.last() == b
    &&& forall|i: int| 0 <= i < path.len() ==> floor.contains(#[trigger] path[i])
    &&& forall|i: int, j: int|
        0 <= i && j == i + 1 && j < path.len() ==> adjacent(#[trigger] path[i], #[trigger] path[j])
}

/// One can walk from `a` to `b`.
pub open spec fn joined(floor: Set<(int, int)>, a: (int, int), b: (int, int)) -> bool {
    exists|path: Seq<(int, int)>| is_path(floor, path, a, b)
}

impl Maze {
    /// The number of columns.
    pub closed spec fn columns(self) -> int {
        self.width as int
    }

    /// The number of rows.
    pub closed spec fn rows(self) -> int {
        self.height as int
    }

    /// The grid has the shape that the two sizes give it.
    pub closed spec fn wf(self) -> bool {
        &&& 3 <= self.width <= i32::MAX
        &&& 3 <= self.height <= i32::MAX
        &&& self.grid.len() == self.height
        &&& forall|y: int| 0 <= y < self.height ==> (#[trigger] self.grid[y]).len() == self.width
    }

    /// The cell lies on the grid.
    pub open spec fn on_grid(self, cell: (int, int)) -> bool {
        0 <= cell.0 < self.columns() && 0 <= cell.1 < self.rows()
    }

    /// The cells without a wall.
    pub closed spec fn floor(self) -> Set<(int, int)> {
        Set::new(|cell: (int, int)| self.on_grid(cell) && !self.grid[cell.1][cell.0])
    }

    /// The cell lies on the grid and off its border.
    pub open spec fn off_border(self, cell: (int, int)) -> bool {
        0 < cell.0 < self.columns() - 1 && 0 < cell.1 < self.rows() - 1
    }

    /// A place where corridors meet: both coordinates odd, off the border.
    pub open spec fn is_room(self, cell: (int, int)) -> bool {
        self.off_border(cell) && cell.0 % 2 == 1 && cell.1 % 2 == 1
    }

    /// `cell` alone, if it may still be dug out.
    pub open spec fn fresh(self, cell: (int, int)) -> Seq<(int, int)> {
        if self.off_border(cell) && !self.floor().contains(cell) {
            seq![cell]
        } else {
            Seq::empty()
        }
    }

    /// The rooms next to `cell` that are still walled in: right, down, left, up.
    pub open spec fn unvisited_from(self, cell: (int, int)) -> Seq<(int, int)> {
        self.fresh((cell.0 + 2, cell.1)) + self.fresh((cell.0, cell.1 + 2)) + self.fresh(
            (cell.0 - 2, cell.1),
        ) + self.fresh((cell.0, cell.1 - 2))
    }

    /// All rooms.
    pub open spec fn rooms(self) -> Set<(int, int)> {
        Set::new(|cell: (int, int)| self.is_room(cell))
    }

    /// The floor between rooms.
    pub open spec fn passages(self) -> Set<(int, int)> {
        Set::new(|cell: (int, int)| self.floor().contains(cell) && !self.is_room(cell))
    }

    /// Where there is a passage, the rooms on both of its sides are dug out.
    pub open spec fn passages_lead_somewhere(self) -> bool {
        forall|cell: (int, int)|
            #![trigger self.passages().contains(cell)]
            self.passages().contains(cell) ==> if cell.0 % 2 == 0 {
                self.floor().contains((cell.0 - 1, cell.1)) && self.floor().contains(
                    (cell.0 + 1, cell.1),
                )
            } else {
                self.floor().contains((cell.0, cell.1 - 1)) && self.floor().contains(
                    (cell.0, cell.1 + 1),
                )
            }
    }

    /// The promise of a finished maze: the border is solid, every room is dug out, pillars
    /// between rooms stand, one can walk from the first room to every bit of floor, and no passage
    /// is superfluous: each joins two rooms, and there is one fewer of them than there are rooms.
    pub open spec fn is_maze(self) -> bool {
        &&& forall|cell: (int, int)| #[trigger]
            self.floor().contains(cell) ==> self.off_border(cell) && (cell.0 % 2 == 1 || cell.1 % 2
                == 1)
        &&& forall|cell: (int, int)| #[trigger] self.is_room(cell) ==> self.floor().contains(cell)
        &&& self.passages_lead_somewhere()
        &&& self.rooms().finite()
        &&& self.passages().finite()
        &&& self.passages().len() + 1 == self.rooms().len()
        &&& forall|cell: (int, int)| #[trigger]
            self.floor().contains(cell) ==> joined(self.floor(), (1, 1), cell)
    }

    /// The cells that still have a wall, as offsets in reading order.
    closed spec fn walls(self) -> Set<int> {
        vstd::set_lib::set_int_range(0, self.columns() * self.rows()).filter(
            |i: int| !self.floor().contains((i % self.columns(), i / self.columns())),
        )
    }

    /// A grid of walls only.
    fn solid(width: usize, height: usize) -> (maze: Self)
        requires
            3 <= width <= i32::MAX,
            3 <= height <= i32::MAX,
        ensures
            maze.wf(),
            maze.columns() == width,
            maze.rows() == height,
            maze.floor() =~= Set::empty(),
    {
        let mut grid: Vec<Vec<bool>> = Vec::new();
        for y in 0..height
            invariant
                grid.len() == y,
                forall|j: int| 0 <= j < y ==> (#[trigger] grid[j]).len() == width,
                forall|j: int, i: int| 0 <= j < y && 0 <= i < width ==> #[trigger] grid[j][i],
        {
            let mut row: Vec<bool> = Vec::new();
            for x in 0..width
                invariant
                    row.len() == x,
                    forall|i: int| 0 <= i < x ==> #[trigger] row[i],
            {
                row.push(true);
            }
            grid.push(row);
        }
        Maze { grid, width, height }
    }

    /// Whether the cell in column `x` of row `y` is free of walls.
    pub fn is_floor(&self, x: usize, y: usize) -> (yes: bool)
        requires
            self.wf(),
            x < self.columns(),
            y < self.rows(),
        ensures
            yes == self.floor().contains((x as int, y as int)),
    {
        !self.grid[y][x]
    }

    /// Digs out the cell in column `x` of row `y`.
    fn dig(&mut self, x: usize, y: usize)
        requires
            old(self).wf(),
            x < old(self).columns(),
            y < old(self).rows(),
        ensures
            final(self).wf(),
            final(self).columns() == old(self).columns(),
            final(self).rows() == old(self).rows(),
            final(self).floor() =~= old(self).floor().insert((x as int, y as int)),
    {
        self.grid[y][x] = false;
    }

    /// Appends `(x, y)` to `list` if it may still be dug out.
    fn push_fresh(&self, list: &mut Vec<(usize, usize)>, x: i64, y: i64)
        requires
            self.wf(),
        ensures
            cells(final(list)@) =~= cells(old(list)@) + self.fresh((x as int, y as int)),
    {
        if x > 0 && x < self.width as i64 - 1 && y > 0 && y < self.height as i64 - 1
            && !self.is_floor(x as usize, y as usize) {
            list.push((x as usize, y as usize));
        }
    }

    /// The rooms next to `(x, y)` that are still walled in: right, down, left, up.
    pub fn unvisited(&self, x: usize, y: usize) -> (list: Vec<(usize, usize)>)
        requires
            self.wf(),
            x < self.columns(),
            y < self.rows(),
        ensures
            cells(list@) =~= self.unvisited_from((x as int, y as int)),
    {
        let mut list: Vec<(usize, usize)> = Vec::new();
        let cx: i64 = x as i64;
        let cy: i64 = y as i64;
        self.push_fresh(&mut list, cx + 2, cy);
        self.push_fresh(&mut list, cx, cy + 2);
        self.push_fresh(&mut list, cx - 2, cy);
        self.push_fresh(&mut list, cx, cy - 2);
        list
    }

    /// Digs out `to` and the cell halfway between `from` and `to`.
    pub fn carve(&mut self, from: (usize, usize), to: (usize, usize))
        requires
            old(self).wf(),
            old(self).on_grid(cell_of(from)),
            old(self).on_grid(cell_of(to)),
        ensures
            final(self).wf(),
            final(self).columns() == old(self).columns(),
            final(self).rows() == old(self).rows(),
            final(self).floor() =~= old(self).floor().insert(cell_of(to)).insert(
                halfway(cell_of(from), cell_of(to)),
            ),
    {
        self.dig(to.0, to.1);
        self.dig((from.0 + to.0) / 2, (from.1 + to.1) / 2);
    }

    /// Digs a maze by a randomised depth-first walk from the first room.
    pub fn gen_maze(width: usize, height: usize, rng: &mut rand::rngs::StdRng) -> (maze: Self)
        requires
            3 <= width <= i32::MAX,
            3 <= height <= i32::MAX,
        ensures
            maze.wf(),
            maze.columns() == width,
            maze.rows() == height,
            maze.is_maze(),
            dug_by_chance(maze, *old(rng)),
    {
        let ghost first_rng = *rng;
        let mut maze = Self::solid(width, height);
        maze.dig(1, 1);
        let mut stack: Vec<(usize, usize)> = Vec::new();
        stack.push((1, 1));
        proof {
            assert(is_path(maze.floor(), seq![(1int, 1int)], (1, 1), (1, 1)));
            assert(cells(stack@)[0] == (1int, 1int));
            assert(maze.dug_rooms() =~= Set::empty().insert((1int, 1int)));
            assert(maze.passages() =~= Set::empty());
            maze.lemma_walls_finite();
        }
        let ghost mut course: Seq<Digging> = seq![
            Digging { maze, walk: cells(stack@), rng: first_rng },
        ];
        assert(course[0].walk =~= seq![(1int, 1int)]);
        while stack.len() > 0
            invariant
                maze.wf(),
                maze.columns() == width,
                maze.rows() == height,
                maze.half_dug(cells(stack@)),
                maze.walls().finite(),
                is_dug(course, width as int, height as int, first_rng),
                course.last() == (Digging { maze, walk: cells(stack@), rng: *rng }),
            decreases maze.walls().len(), stack.len(),
        {
            let (cx, cy) = stack[stack.len() - 1];
            let ghost before = maze;
            let ghost pending = cells(stack@);
            proof {
                assert(pending.last() == cell_of((cx, cy)));
                assert(before.is_room(pending.last()));
            }
            let neighbors = maze.unvisited(cx, cy);
            if neighbors.len() == 0 {
                stack.pop();
                proof {
                    assert(cells(stack@) =~= pending.drop_last());
                    maze.lemma_backtrack(pending);
                    assert(cells(neighbors@).len() == 0);
                    let next = Digging { maze, walk: cells(stack@), rng: *rng };
                    assert(course.last().goes_on(next));
                    lemma_dug_further(course, next, width as int, height as int, first_rng);
                    course = course.push(next);
                }
            } else {
                let idx: usize = draw_number(rng, 0, neighbors.len());
                let next = neighbors[idx];
                proof {
                    assert(cells(neighbors@)[idx as int] == cell_of(next));
                    before.lemma_unvisited((cx as int, cy as int), idx as int);
                }
                maze.carve((cx, cy), next);
                stack.push(next);
                proof {
                    assert(cells(stack@) =~= pending.push(cell_of(next)));
                    before.lemma_advance(maze, pending, cell_of(next));
                    let further = Digging { maze, walk: cells(stack@), rng: *rng };
                    let around = before.unvisited_from(pending.last());
                    assert(around == cells(neighbors@));
                    assert(around[idx as int] == cell_of(next));
                    assert(drawn_from(course.last().rng, 0, around.len() as usize, idx));
                    assert(further.walk == course.last().walk.push(around[idx as int]));
                    assert(further.maze.floor() == course.last().maze.floor().insert(
                        around[idx as int],
                    ).insert(halfway(course.last().walk.last(), around[idx as int])));
                    assert(course.last().goes_on(further));
                    lemma_dug_further(course, further, width as int, height as int, first_rng);
                    course = course.push(further);
                }
            }
        }
        proof {
            maze.lemma_all_rooms_open();
            assert(is_dug(course, maze.columns(), maze.rows(), first_rng));
            assert(dug_by_chance(maze, first_rng));
        }
        maze
    }

    /// The rooms that are dug out.
    spec fn dug_rooms(self) -> Set<(int, int)> {
        Set::new(|cell: (int, int)| self.floor().contains(cell) && self.is_room(cell))
    }

    /// What holds while the depth-first walk is under way: `pending` is the walk so far.
    spec fn half_dug(self, pending: Seq<(int, int)>) -> bool {
        &&& self.floor().contains((1, 1))
        &&& forall|cell: (int, int)| #[trigger]
            self.floor().contains(cell) ==> self.off_border(cell) && (cell.0 % 2 == 1 || cell.1 % 2
                == 1)
        &&& forall|cell: (int, int)| #[trigger]
            self.floor().contains(cell) ==> joined(self.floor(), (1, 1), cell)
        &&& forall|i: int|
            0 <= i < pending.len() ==> self.is_room(#[trigger] pending[i]) && self.floor().contains(
                pending[i],
            )
        &&& forall|cell: (int, int)|
            self.is_room(cell) && #[trigger] self.floor().contains(cell) && !pending.contains(cell)
                ==> self.unvisited_from(cell).len() == 0
        &&& self.passages_lead_somewhere()
        &&& self.dug_rooms().finite()
        &&& self.passages().finite()
        &&& self.passages().len() + 1 == self.dug_rooms().len()
    }

    /// Only finitely many walls can stand.
    proof fn lemma_walls_finite(self)
        requires
            self.wf(),
        ensures
            self.walls().finite(),
    {
        let area = self.columns() * self.rows();
        assert(0 <= area) by (nonlinear_arith)
            requires
                area == self.columns() * self.rows(),
                self.columns() >= 0,
                self.rows() >= 0,
        ;
        vstd::set_lib::lemma_int_range(0, area);
        vstd::set_lib::set_int_range(0, area).lemma_len_filter(
            |i: int| !self.floor().contains((i % self.columns(), i / self.columns())),
        );
    }

    /// What a neighbour in the list of unvisited rooms is.
    proof fn lemma_unvisited(self, cell: (int, int), i: int)
        requires
            self.wf(),
            self.is_room(cell),
            0 <= i < self.unvisited_from(cell).len(),
        ensures
            ({
                let next = self.unvisited_from(cell)[i];
                &&& self.is_room(next)
                &&& !self.floor().contains(next)
                &&& adjacent(cell, halfway(cell, next))
                &&& adjacent(halfway(cell, next), next)
                &&& self.off_border(halfway(cell, next))
                &&& halfway(cell, next).0 % 2 == 1 || halfway(cell, next).1 % 2 == 1
                &&& halfway(cell, next).0 % 2 == 0 || halfway(cell, next).1 % 2 == 0
            }),
    {
        let next = self.unvisited_from(cell)[i];
        assert(next == (cell.0 + 2, cell.1) || next == (cell.0, cell.1 + 2) || next == (
            cell.0 - 2,
            cell.1,
        ) || next == (cell.0, cell.1 - 2));
    }

    /// Leaving a room with no unvisited neighbour.
    proof fn lemma_backtrack(self, pending: Seq<(int, int)>)
        requires
            self.half_dug(pending),
            pending.len() > 0,
            self.unvisited_from(pending.last()).len() == 0,
        ensures
            self.half_dug(pending.drop_last()),
    {
        let rest = pending.drop_last();
        assert forall|cell: (int, int)|
            self.is_room(cell) && #[trigger] self.floor().contains(cell) && !rest.contains(
                cell,
            ) implies self.unvisited_from(cell).len() == 0 by {
            if pending.contains(cell) {
                let i = pending.index_of(cell);
                if i < rest.len() {
                    assert(rest[i] == cell);
                }
            }
        }
    }

    /// Digging on into an unvisited room.
    proof fn lemma_advance(self, after: Self, pending: Seq<(int, int)>, next: (int, int))
        requires
            self.wf(),
            after.wf(),
            after.columns() == self.columns(),
            after.rows() == self.rows(),
            self.half_dug(pending),
            pending.len() > 0,
            self.is_room(next),
            !self.floor().contains(next),
            adjacent(pending.last(), halfway(pending.last(), next)),
            adjacent(halfway(pending.last(), next), next),
            self.off_border(halfway(pending.last(), next)),
            halfway(pending.last(), next).0 % 2 == 1 || halfway(pending.last(), next).1 % 2 == 1,
            halfway(pending.last(), next).0 % 2 == 0 || halfway(pending.last(), next).1 % 2 == 0,
            after.floor() =~= self.floor().insert(next).insert(halfway(pending.last(), next)),
            self.walls().finite(),
        ensures
            after.half_dug(pending.push(next)),
            after.walls().finite(),
            after.walls().len() < self.walls().len(),
    {
        let here = pending.last();
        let between = halfway(here, next);
        let walk = pending.push(next);
        assert(self.floor().contains(here));
        assert(joined(self.floor(), (1, 1), here));
        lemma_joined_grows(self.floor(), after.floor(), (1, 1), here);
        lemma_joined_extends(after.floor(), (1, 1), here, between);
        lemma_joined_extends(after.floor(), (1, 1), between, next);
        assert forall|cell: (int, int)| #[trigger] after.floor().contains(cell) implies joined(
            after.floor(),
            (1, 1),
            cell,
        ) by {
            if self.floor().contains(cell) {
                lemma_joined_grows(self.floor(), after.floor(), (1, 1), cell);
            }
        }
        assert forall|cell: (int, int)|
            after.is_room(cell) && #[trigger] after.floor().contains(cell) && !walk.contains(
                cell,
            ) implies after.unvisited_from(cell).len() == 0 by {
            if cell == next {
                assert(walk[walk.len() - 1] == next);
            }
            if pending.contains(cell) {
                let i = pending.index_of(cell);
                assert(walk[i] == cell);
            }
            assert(self.floor().contains(cell));
            assert(self.unvisited_from(cell).len() == 0);
        }
        // one passage and one room more
        assert(!self.floor().contains(between)) by {
            if self.floor().contains(between) {
                assert(self.passages().contains(between));
            }
        }
        assert(after.dug_rooms() =~= self.dug_rooms().insert(next));
        assert(after.passages() =~= self.passages().insert(between));
        assert(after.passages_lead_somewhere()) by {
            assert forall|cell: (int, int)|
                #![trigger after.passages().contains(cell)]
                after.passages().contains(cell) implies if cell.0 % 2 == 0 {
                after.floor().contains((cell.0 - 1, cell.1)) && after.floor().contains(
                    (cell.0 + 1, cell.1),
                )
            } else {
                after.floor().contains((cell.0, cell.1 - 1)) && after.floor().contains(
                    (cell.0, cell.1 + 1),
                )
            } by {
                if cell != between {
                    assert(self.passages().contains(cell));
                }
            }
        }
        // one wall fewer
        let w = self.columns();
        let spot = next.1 * w + next.0;
        assert(spot % w == next.0 && spot / w == next.1) by {
            vstd::arithmetic::div_mod::lemma_fundamental_div_mod_converse(spot, w, next.1, next.0);
        }
        assert(0 <= spot < w * self.rows()) by (nonlinear_arith)
            requires
                spot == next.1 * w + next.0,
                0 <= next.0 < w,
                0 <= next.1 < self.rows(),
        ;
        assert(self.walls().contains(spot));
        assert(after.walls().subset_of(self.walls().remove(spot)));
        vstd::set_lib::lemma_len_subset(after.walls(), self.walls().remove(spot));
    }

    /// With nothing left to visit, every room has been reached.
    proof fn lemma_all_rooms_open(self)
        requires
            self.wf(),
            self.half_dug(Seq::empty()),
        ensures
            self.is_maze(),
    {
        assert forall|cell: (int, int)| #[trigger] self.is_room(cell) implies self.floor().contains(
            cell,
        ) by {
            self.lemma_room_open(cell);
        }
        assert(self.dug_rooms() =~= self.rooms());
    }

    /// One room has been reached, because the room before it has.
    proof fn lemma_room_open(self, cell: (int, int))
        requires
            self.wf(),
            self.half_dug(Seq::empty()),
            self.is_room(cell),
        ensures
            self.floor().contains(cell),
        decreases cell.0 + cell.1,
    {
        let none = Seq::<(int, int)>::empty();
        if cell.0 > 1 {
            let left = (cell.0 - 2, cell.1);
            self.lemma_room_open(left);
            assert(!none.contains(left));
            assert(self.unvisited_from(left).len() == 0);
            assert(self.fresh((left.0 + 2, left.1)).len() == 0);
        } else if cell.1 > 1 {
            let above = (cell.0, cell.1 - 2);
            self.lemma_room_open(above);
            assert(!none.contains(above));
            assert(self.unvisited_from(above).len() == 0);
            assert(self.fresh((above.0, above.1 + 2)).len() == 0);
        }
    }
}

/// A machine cell as a pair of integers.
pub open spec fn cell_of(cell: (usize, usize)) -> (int, int) {
    (cell.0 as int, cell.1 as int)
}

/// Machine cells as pairs of integers.
pub open spec fn cells(list: Seq<(usize, usize)>) -> Seq<(int, int)> {
    list.map_values(|cell: (usize, usize)| cell_of(cell))
}

/// The cell in the middle between two others.
pub open spec fn halfway(a: (int, int), b: (int, int)) -> (int, int) {
    ((a.0 + b.0) / 2, (a.1 + b.1) / 2)
}

/// More floor cuts no path.
proof fn lemma_joined_grows(small: Set<(int, int)>, large: Set<(int, int)>, a: (int, int), b: (int, int))
    requires
        small.subset_of(large),
        joined(small, a, b),
    ensures
        joined(large, a, b),
{
    let path = choose|path: Seq<(int, int)>| is_path(small, path, a, b);
    assert(is_path(large, path, a, b));
}

/// A path can be extended by a neighbouring cell.
proof fn lemma_joined_extends(floor: Set<(int, int)>, a: (int, int), b: (int, int), c: (int, int))
    requires
        joined(floor, a, b),
        adjacent(b, c),
        floor.contains(c),
    ensures
        joined(floor, a, c),
{
    let path = choose|path: Seq<(int, int)>| is_path(floor, path, a, b);
    let longer = path.push(c);
    assert forall|i: int, j: int| 0 <= i && j == i + 1 && j < longer.len() implies adjacent(
        #[trigger] longer[i],
        #[trigger] longer[j],
    ) by {
        if j < path.len() {
            assert(adjacent(path[i], path[j]));
        }
    }
    assert(is_path(floor, longer, a, c));
}

/// A path can be walked backwards.
proof fn lemma_joined_back(floor: Set<(int, int)>, a: (int, int), b: (int, int))
    requires
        joined(floor, a, b),
    ensures
        joined(floor, b, a),
{
    let path = choose|path: Seq<(int, int)>| is_path(floor, path, a, b);
    let back = path.reverse();
    assert forall|i: int, j: int| 0 <= i && j == i + 1 && j < back.len() implies adjacent(
        #[trigger] back[i],
        #[trigger] back[j],
    ) by {
        assert(adjacent(path[path.len() - 1 - j], path[path.len() - 1 - i]));
    }
    assert(is_path(floor, back, b, a));
}

/// Two paths that meet make one.
proof fn lemma_joined_through(
    floor: Set<(int, int)>,
    a: (int, int),
    b: (int, int),
    c: (int, int),
)
    requires
        joined(floor, a, b),
        joined(floor, b, c),
    ensures
        joined(floor, a, c),
{
    let first = choose|path: Seq<(int, int)>| is_path(floor, path, a, b);
    let second = choose|path: Seq<(int, int)>| is_path(floor, path, b, c);
    let whole = first + second.drop_first();
    assert forall|i: int, j: int| 0 <= i && j == i + 1 && j < whole.len() implies adjacent(
        #[trigger] whole[i],
        #[trigger] whole[j],
    ) by {
        let n = first.len() as int;
        if j < n {
            assert(adjacent(first[i], first[j]));
        } else {
            assert(whole[j] == second[j - n + 1]);
            assert(whole[i] == second[i - n + 1]);
            assert(adjacent(second[i - n + 1], second[j - n + 1]));
        }
    }
    assert(is_path(floor, whole, a, c));
}

/// A course of digging goes on.
proof fn lemma_dug_further(
    course: Seq<Digging>,
    next: Digging,
    width: int,
    height: int,
    rng: rand::rngs::StdRng,
)
    requires
        is_dug(course, width, height, rng),
        course.last().goes_on(next),
    ensures
        is_dug(course.push(next), width, height, rng),
{
    let longer = course.push(next);
    assert forall|k: int, l: int| 0 <= k && l == k + 1 && l < longer.len() implies (
    #[trigger] longer[k]).goes_on(#[trigger] longer[l]) by {
        if l < course.len() {
            assert(course[k].goes_on(course[l]));
        }
    }
}

/// A maze has one cell of floor fewer than twice its rooms: the rooms, and a passage for each room
/// but the first.
pub proof fn law_floor_is_counted(maze: Maze)
    requires
        maze.is_maze(),
    ensures
        maze.floor().finite(),
        maze.floor().len() == 2 * maze.rooms().len() - 1,
{
    let rooms = maze.rooms();
    let passages = maze.passages();
    assert(maze.floor() =~= rooms.union(passages)) by {
        assert forall|cell: (int, int)| rooms.contains(cell) implies maze.floor().contains(
            cell,
        ) by {
            assert(maze.is_room(cell));
        }
    }
    assert(rooms.disjoint(passages));
    vstd::set_lib::lemma_set_disjoint_lens(rooms, passages);
}

/// In a finished maze one can walk between any two bits of floor.
pub proof fn law_maze_is_connected(maze: Maze, a: (int, int), b: (int, int))
    requires
        maze.is_maze(),
        maze.floor().contains(a),
        maze.floor().contains(b),
    ensures
        joined(maze.floor(), a, b),
{
    lemma_joined_back(maze.floor(), (1, 1), a);
    lemma_joined_through(maze.floor(), a, (1, 1), b);
}

/// The last odd coordinate that leaves a border after it, for `n` columns or rows.
pub open spec fn last_room(n: int) -> int {
    if n % 2 == 1 {
        n - 2
    } else {
        n - 3
    }
}

impl Maze {
    /// The steps between two cells if no wall were in the way.
    pub open spec fn steps_apart(a: (int, int), b: (int, int)) -> nat {
        vstd::math::abs(a.0 - b.0) + vstd::math::abs(a.1 - b.1)
    }

    /// `goal` is floor, and more than half the width away from `agent`.
    pub open spec fn far_goal(self, agent: (int, int), goal: (int, int)) -> bool {
        self.floor().contains(goal) && Self::steps_apart(agent, goal) > self.columns() / 2
    }
}

/// Wherever the agent stands in a maze that is roomy enough, some goal is far enough away.
pub proof fn law_far_goal_exists(maze: Maze, agent: (int, int))
    requires
        maze.wf(),
        maze.is_maze(),
        maze.floor().contains(agent),
        (last_room(maze.columns()) - 1) / 2 + (last_room(maze.rows()) - 1) / 2 > maze.columns() / 2,
    ensures
        exists|goal: (int, int)| maze.far_goal(agent, goal),
{
    let xm = last_room(maze.columns());
    let ym = last_room(maze.rows());
    let gx = if agent.0 - 1 >= xm - agent.0 {
        1int
    } else {
        xm
    };
    let gy = if agent.1 - 1 >= ym - agent.1 {
        1int
    } else {
        ym
    };
    assert(maze.is_room((gx, gy)));
    assert(maze.far_goal(agent, (gx, gy)));
}

/// The step that goes one cell ahead: right, down, left, up.
pub open spec fn heading(dir: int) -> (int, int) {
    if dir == 0 {
        (1, 0)
    } else if dir == 1 {
        (0, 1)
    } else if dir == 2 {
        (-1, 0)
    } else {
        (0, -1)
    }
}

/// The direction after an action: 0 turns left, 1 turns right, others keep it.
pub open spec fn turned(dir: int, act: int) -> int {
    if act == 0 {
        (dir + 3) % 4
    } else if act == 1 {
        (dir + 1) % 4
    } else {
        dir
    }
}

/// A left turn and a right turn cancel, in either order, and four turns one way come full circle.
pub proof fn law_turns_cancel(dir: int)
    requires
        0 <= dir < 4,
    ensures
        turned(turned(dir, 0), 1) == dir,
        turned(turned(dir, 1), 0) == dir,
        turned(turned(turned(turned(dir, 0), 0), 0), 0) == dir,
        turned(turned(turned(turned(dir, 1), 1), 1), 1) == dir,
{
}

/// What a step gives back.
pub struct MazeStep {
    /// The picture after the step, plane after plane.
    pub frame: Vec<u8>,
    /// The agent stands on the goal.
    pub reached: bool,
    /// The episode is over.
    pub done: bool,
}

/// An agent in a maze that sees a window of seven by seven cells.
pub struct MazeEnv {
    maze: Maze,
    ax: usize,
    ay: usize,
    adir: usize,
    gx: usize,
    gy: usize,
    step_count: usize,
    max_steps: usize,
    image_size: usize,
    rng: rand::rngs::StdRng,
}

impl MazeEnv {
    /// The maze around the agent.
    pub closed spec fn maze(self) -> Maze {
        self.maze
    }

    /// Where the agent stands.
    pub closed spec fn agent(self) -> (int, int) {
        (self.ax as int, self.ay as int)
    }

    /// Where the agent looks: 0 is right, 1 down, 2 left, 3 up.
    pub closed spec fn direction(self) -> int {
        self.adir as int
    }

    /// Where the goal is.
    pub closed spec fn goal(self) -> (int, int) {
        (self.gx as int, self.gy as int)
    }

    /// The number of steps since the last reset.
    pub closed spec fn steps(self) -> int {
        self.step_count as int
    }

    /// The number of steps that end an episode.
    pub closed spec fn limit(self) -> int {
        self.max_steps as int
    }

    /// The width and height of the picture.
    pub closed spec fn side(self) -> int {
        self.image_size as int
    }

    /// The agent stands on the floor of a finished maze.
    pub open spec fn wf(self) -> bool {
        &&& self.maze().wf()
        &&& self.maze().is_maze()
        &&& self.maze().floor().contains(self.agent())
        &&& 0 <= self.direction() < 4
        &&& 0 <= self.side() <= i32::MAX
        &&& 3 * self.side() * self.side() <= isize::MAX
    }

    /// The goal lies far from the agent, unless no floor does.
    pub open spec fn well_placed(self) -> bool {
        ||| self.maze().far_goal(self.agent(), self.goal())
        ||| forall|goal: (int, int)| !#[trigger] self.maze().far_goal(self.agent(), goal)
    }

    /// `cell` was drawn among the cells off the border.
    pub open spec fn cell_drawn(self, cell: (int, int)) -> bool {
        &&& drawn(1, (self.maze().columns() - 1) as usize, cell.0 as usize)
        &&& drawn(1, (self.maze().rows() - 1) as usize, cell.1 as usize)
    }

    /// Start and direction were drawn, and so was the goal. Only if more draws did not fit than can
    /// be counted, start or goal may be another one.
    pub open spec fn placed_by_chance(self) -> bool {
        &&& self.cell_drawn(self.agent()) || exists|refused: Seq<(int, int)>|
            {
                &&& refused.len() == u64::MAX
                &&& forall|i: int|
                    0 <= i < refused.len() ==> self.cell_drawn(#[trigger] refused[i])
                        && !self.maze().floor().contains(refused[i])
            }
        &&& self.cell_drawn(self.goal()) || exists|refused: Seq<(int, int)>|
            {
                &&& refused.len() == u64::MAX
                &&& forall|i: int|
                    0 <= i < refused.len() ==> self.cell_drawn(#[trigger] refused[i])
                        && !self.maze().far_goal(self.agent(), refused[i])
            }
        &&& drawn(0, 4, self.direction() as usize)
    }

    /// The cell that lies `ahead` cells in front of the agent and `aside` cells to its left.
    pub open spec fn seen(self, ahead: int, aside: int) -> (int, int) {
        let (x, y) = self.agent();
        if self.direction() == 0 {
            (x + ahead, y - aside)
        } else if self.direction() == 1 {
            (x + aside, y + ahead)
        } else if self.direction() == 2 {
            (x - ahead, y + aside)
        } else {
            (x - aside, y - ahead)
        }
    }

    /// How a cell is shown: black beyond the grid, green at the goal, light grey for walls, dark
    /// grey for floor.
    pub open spec fn cell_color(self, cell: (int, int)) -> Color {
        if !self.maze().on_grid(cell) {
            (0, 0, 0)
        } else if cell == self.goal() {
            (0, 255, 0)
        } else if !self.maze().floor().contains(cell) {
            (100, 100, 100)
        } else {
            (50, 50, 50)
        }
    }

    /// The picture: a window of seven by seven square cells with the agent's own cell in the
    /// lower right corner, what lies ahead upwards and what lies to the left leftwards, a red
    /// diamond in the centre cell of the window, and black beyond the window.
    pub open spec fn pixel_color(self, x: int, y: int) -> Color {
        let cell = self.side() / 7;
        let mid = 3 * cell + cell / 2;
        if vstd::math::abs(x - mid) + vstd::math::abs(y - mid) <= cell / 3 {
            (255, 0, 0)
        } else if x < 7 * cell && y < 7 * cell {
            self.cell_color(self.seen(6 - y / cell, 6 - x / cell))
        } else {
            (0, 0, 0)
        }
    }

    /// The picture as flat bytes, plane after plane.
    pub open spec fn frame(self) -> Seq<u8> {
        planes(scan(self.side(), self.side(), |x: int, y: int| self.pixel_color(x, y)))
    }

    /// Where an action takes the agent: 2 goes ahead unless a wall is in the way, others stay.
    pub open spec fn moved(self, act: int) -> (int, int) {
        let (dx, dy) = heading(self.direction());
        let next = (self.agent().0 + dx, self.agent().1 + dy);
        if act == 2 && self.maze().floor().contains(next) {
            next
        } else {
            self.agent()
        }
    }

    /// The episode is over: the agent is at the goal or has had all its steps.
    pub open spec fn is_over(self) -> bool {
        self.agent() == self.goal() || self.steps() >= self.limit()
    }

    /// A fresh maze with a random start and goal.
    pub fn new(
        width: usize,
        height: usize,
        max_steps: usize,
        image_size: usize,
        seed: u64,
    ) -> (env: Self)
        requires
            3 <= width <= i32::MAX,
            3 <= height <= i32::MAX,
            image_size <= i32::MAX,
            3 * image_size * image_size <= isize::MAX,
        ensures
            env.wf(),
            env.well_placed(),
            env.placed_by_chance(),
            exists|rng: rand::rngs::StdRng|
                #[trigger] seeded_from(seed, rng) && dug_by_chance(env.maze(), rng),
            env.maze().columns() == width,
            env.maze().rows() == height,
            env.steps() == 0,
            env.limit() == max_steps,
            env.side() == image_size,
    {
        let mut rng = start_from(seed);
        let ghost first_rng = rng;
        let maze = Maze::gen_maze(width, height, &mut rng);
        assert(seeded_from(seed, first_rng) && dug_by_chance(maze, first_rng));
        proof {
            assert(maze.is_room((1, 1)));
        }
        let mut env = MazeEnv {
            maze,
            ax: 1,
            ay: 1,
            adir: 0,
            gx: 1,
            gy: 1,
            step_count: 0,
            max_steps,
            image_size,
            rng,
        };
        env.place_agent_goal();
        env
    }

    /// The first floor cell in reading order that is far from the agent.
    fn first_far(&self) -> (found: Option<(usize, usize)>)
        requires
            self.wf(),
        ensures
            match found {
                Some(goal) => self.maze().far_goal(self.agent(), cell_of(goal)),
                None => forall|goal: (int, int)| !#[trigger]
                    self.maze().far_goal(self.agent(), goal),
            },
    {
        for y in 0..self.maze.height
            invariant
                self.wf(),
                forall|goal: (int, int)| #[trigger]
                    self.maze().far_goal(self.agent(), goal) ==> y <= goal.1,
        {
            for x in 0..self.maze.width
                invariant
                    self.wf(),
                    y < self.maze.height,
                    forall|goal: (int, int)| #[trigger]
                        self.maze().far_goal(self.agent(), goal) ==> y < goal.1 || (y == goal.1 && x
                            <= goal.0),
            {
                if self.is_far(x, y) {
                    return Some((x, y));
                }
                proof {
                    assert forall|goal: (int, int)| #[trigger]
                        self.maze().far_goal(self.agent(), goal) implies y < goal.1 || (y == goal.1
                        && x + 1 <= goal.0) by {
                        assert(goal != (x as int, y as int));
                    }
                }
            }
        }
        None
    }

    /// Whether `(x, y)` would do as a goal.
    fn is_far(&self, x: usize, y: usize) -> (yes: bool)
        requires
            self.wf(),
            x < self.maze().columns(),
            y < self.maze().rows(),
        ensures
            yes == self.maze().far_goal(self.agent(), (x as int, y as int)),
    {
        let dx: usize = if x > self.ax {
            x - self.ax
        } else {
            self.ax - x
        };
        let dy: usize = if y > self.ay {
            y - self.ay
        } else {
            self.ay - y
        };
        dx as u64 + dy as u64 > self.maze.width as u64 / 2 && self.maze.is_floor(x, y)
    }

    /// Draws a start on the floor and a goal far from it. Draws are repeated until one fits.
    fn place_agent_goal(&mut self)
        requires
            old(self).wf(),
        ensures
            final(self).wf(),
            final(self).well_placed(),
            final(self).placed_by_chance(),
            final(self).maze() == old(self).maze(),
            final(self).steps() == old(self).steps(),
            final(self).limit() == old(self).limit(),
            final(self).side() == old(self).side(),
    {
        let mut tries: u64 = u64::MAX;
        let mut found = false;
        let ghost mut refused: Seq<(int, int)> = Seq::empty();
        while !found && tries > 0
            invariant
                self.wf(),
                self.maze() == old(self).maze(),
                self.steps() == old(self).steps(),
                self.limit() == old(self).limit(),
                self.side() == old(self).side(),
                found ==> self.cell_drawn(self.agent()),
                !found ==> refused.len() + tries == u64::MAX,
                forall|i: int|
                    0 <= i < refused.len() ==> self.cell_drawn(#[trigger] refused[i])
                        && !self.maze().floor().contains(refused[i]),
            decreases tries,
        {
            let x: usize = draw_number(&mut self.rng, 1, self.maze.width - 1);
            let y: usize = draw_number(&mut self.rng, 1, self.maze.height - 1);
            assert(self.cell_drawn((x as int, y as int)));
            if self.maze.is_floor(x, y) {
                self.ax = x;
                self.ay = y;
                found = true;
            } else {
                proof {
                    refused = refused.push((x as int, y as int));
                }
            }
            tries = tries - 1;
        }
        let ghost started = found;
        let ghost off_floor = refused;
        tries = u64::MAX;
        found = false;
        let ghost mut near: Seq<(int, int)> = Seq::empty();
        let ghost agent = self.agent();
        while !found && tries > 0
            invariant
                self.wf(),
                self.agent() == agent,
                self.maze() == old(self).maze(),
                self.steps() == old(self).steps(),
                self.limit() == old(self).limit(),
                self.side() == old(self).side(),
                found ==> self.maze().far_goal(self.agent(), self.goal()),
                found ==> self.cell_drawn(self.goal()),
                !found ==> near.len() + tries == u64::MAX,
                forall|i: int|
                    0 <= i < near.len() ==> self.cell_drawn(#[trigger] near[i])
                        && !self.maze().far_goal(self.agent(), near[i]),
            decreases tries,
        {
            let x: usize = draw_number(&mut self.rng, 1, self.maze.width - 1);
            let y: usize = draw_number(&mut self.rng, 1, self.maze.height - 1);
            assert(self.cell_drawn((x as int, y as int)));
            self.gx = x;
            self.gy = y;
            found = self.is_far(x, y);
            proof {
                if !found {
                    near = near.push((x as int, y as int));
                }
            }
            tries = tries - 1;
        }
        if !found {
            if let Some((x, y)) = self.first_far() {
                self.gx = x;
                self.gy = y;
            }
        }
        self.adir = draw_number(&mut self.rng, 0, 4);
        proof {
            if !started {
                assert(off_floor.len() == u64::MAX);
                assert(forall|i: int|
                    0 <= i < off_floor.len() ==> self.cell_drawn(#[trigger] off_floor[i])
                        && !self.maze().floor().contains(off_floor[i]));
            }
            if !found {
                assert(near.len() == u64::MAX);
                assert(forall|i: int|
                    0 <= i < near.len() ==> self.cell_drawn(#[trigger] near[i])
                        && !self.maze().far_goal(self.agent(), near[i]));
            }
        }
    }

    /// How the cell that lies `ahead` and `aside` of the agent is shown.
    fn color_of(&self, ahead: i64, aside: i64) -> (color: Color)
        requires
            self.wf(),
            0 <= ahead <= 6,
            0 <= aside <= 6,
        ensures
            color == self.cell_color(self.seen(ahead as int, aside as int)),
    {
        let ax: i64 = self.ax as i64;
        let ay: i64 = self.ay as i64;
        let (wx, wy): (i64, i64) = match self.adir {
            0 => (ax + ahead, ay - aside),
            1 => (ax + aside, ay + ahead),
            2 => (ax - ahead, ay + aside),
            _ => (ax - aside, ay - ahead),
        };
        if wx < 0 || wy < 0 || wx >= self.maze.width as i64 || wy >= self.maze.height as i64 {
            (0, 0, 0)
        } else if wx as usize == self.gx && wy as usize == self.gy {
            (0, 255, 0)
        } else if !self.maze.is_floor(wx as usize, wy as usize) {
            (100, 100, 100)
        } else {
            (50, 50, 50)
        }
    }

    /// The colour in column `x` of row `y` of the picture.
    fn color_at(&self, x: usize, y: usize) -> (color: Color)
        requires
            self.wf(),
            x < self.side(),
            y < self.side(),
        ensures
            color == self.pixel_color(x as int, y as int),
    {
        let cell: usize = self.image_size / 7;
        let mid: usize = 3 * cell + cell / 2;
        let dx: usize = if x > mid {
            x - mid
        } else {
            mid - x
        };
        let dy: usize = if y > mid {
            y - mid
        } else {
            mid - y
        };
        if dx as u64 + dy as u64 <= cell as u64 / 3 {
            (255, 0, 0)
        } else if x < 7 * cell && y < 7 * cell {
            assert(0 <= x / cell <= 6 && 0 <= y / cell <= 6) by (nonlinear_arith)
                requires
                    0 < cell,
                    0 <= x < 7 * cell,
                    0 <= y < 7 * cell,
            ;
            self.color_of(6 - (y / cell) as i64, 6 - (x / cell) as i64)
        } else {
            (0, 0, 0)
        }
    }

    /// Paints what the agent sees.
    pub fn render(&self) -> (frame: Vec<u8>)
        requires
            self.wf(),
        ensures
            frame@ == self.frame(),
    {
        let s: usize = self.image_size;
        let ghost f = |x: int, y: int| self.pixel_color(x, y);
        let mut pixels: Vec<Color> = Vec::new();
        if s > 0 {
            assert(s * s <= 3 * s * s) by (nonlinear_arith)
                requires
                    s > 0,
            ;
            let n: usize = s * s;
            for p in 0..n
                invariant
                    self.wf(),
                    s == self.side(),
                    s > 0,
                    n == s * s,
                    f == |x: int, y: int| self.pixel_color(x, y),
                    pixels@ =~= scan(s as int, s as int, f).take(p as int),
            {
                assert(0 <= p % s < s && 0 <= p / s < s) by (nonlinear_arith)
                    requires
                        s > 0,
                        0 <= p < s * s,
                ;
                pixels.push(self.color_at(p % s, p / s));
            }
        }
        assert(pixels@ =~= scan(s as int, s as int, f)) by {
            assert(0 * 0 == 0) by (nonlinear_arith);
        }
        assert(3 * (s * s) == 3 * s * s) by (nonlinear_arith);
        to_planes(pixels.as_slice())
    }

    /// Starts a new episode in the same maze.
    pub fn reset(&mut self) -> (frame: Vec<u8>)
        requires
            old(self).wf(),
        ensures
            final(self).wf(),
            final(self).well_placed(),
            final(self).placed_by_chance(),
            final(self).maze() == old(self).maze(),
            final(self).steps() == 0,
            final(self).limit() == old(self).limit(),
            final(self).side() == old(self).side(),
            frame@ == final(self).frame(),
    {
        self.step_count = 0;
        self.place_agent_goal();
        self.render()
    }

    /// Lets the agent act: 0 turns left, 1 turns right, 2 goes ahead.
    pub fn step(&mut self, act: i32) -> (outcome: MazeStep)
        requires
            old(self).wf(),
            old(self).steps() < usize::MAX,
        ensures
            final(self).wf(),
            final(self).maze() == old(self).maze(),
            final(self).goal() == old(self).goal(),
            final(self).limit() == old(self).limit(),
            final(self).side() == old(self).side(),
            final(self).steps() == old(self).steps() + 1,
            final(self).direction() == turned(old(self).direction(), act as int),
            final(self).agent() == old(self).moved(act as int),
            outcome.frame@ == final(self).frame(),
            outcome.reached == (final(self).agent() == final(self).goal()),
            outcome.done == (outcome.reached || final(self).steps() >= final(self).limit()),
            outcome.done == final(self).is_over(),
    {
        if act == 0 {
            self.adir = (self.adir + 3) % 4;
        } else if act == 1 {
            self.adir = (self.adir + 1) % 4;
        } else if act == 2 {
            let (nx, ny): (usize, usize) = match self.adir {
                0 => (self.ax + 1, self.ay),
                1 => (self.ax, self.ay + 1),
                2 => (self.ax - 1, self.ay),
                _ => (self.ax, self.ay - 1),
            };
            if self.maze.is_floor(nx, ny) {
                self.ax = nx;
                self.ay = ny;
            }
        }
        self.step_count = self.step_count + 1;
        let reached = self.ax == self.gx && self.ay == self.gy;
        let done = reached || self.step_count >= self.max_steps;
        MazeStep { frame: self.render(), reached, done }
    }

    /// The number of steps since the last reset.
    pub fn step_count(&self) -> (n: usize)
        ensures
            n == self.steps(),
    {
        self.step_count
    }

    /// Channels, height and width of the picture.
    pub fn obs_shape(&self) -> (shape: [usize; 3])
        ensures
            shape@ == seq![3usize, self.side() as usize, self.side() as usize],
    {
        [3, self.image_size, self.image_size]
    }

    /// An action is a single number.
    pub fn action_dim(&self) -> (n: usize)
        ensures
            n == 1,
    {
        1
    }

    /// The number of steps that end an episode.
    pub fn max_steps(&self) -> (n: usize)
        ensures
            n == self.limit(),
    {
        self.max_steps
    }
}

/// Whatever the agent does, a goal on the floor stays within reach on foot.
pub proof fn law_goal_stays_reachable(env: MazeEnv)
    requires
        env.wf(),
        env.maze().floor().contains(env.goal()),
    ensures
        joined(env.maze().floor(), env.agent(), env.goal()),
{
    law_maze_is_connected(env.maze(), env.agent(), env.goal());
}

/// A right turn takes the heading a quarter clockwise on the screen, where rows are counted
/// downwards, a left turn takes it back, and who looks right heads for the next column.
pub proof fn law_headings_turn(dir: int)
    requires
        0 <= dir < 4,
    ensures
        heading(0) == (1int, 0int),
        heading(turned(dir, 1)) == (-heading(dir).1, heading(dir).0),
        heading(turned(dir, 0)) == (heading(dir).1, -heading(dir).0),
        0 <= turned(dir, 0) < 4,
        0 <= turned(dir, 1) < 4,
{
}

/// The view turns with the agent: what lies ahead is where it would go, and what lies aside is
/// where it would go after a left turn.
pub proof fn law_view_turns_with_the_agent(env: MazeEnv, ahead: int, aside: int)
    requires
        env.wf(),
    ensures
        env.seen(ahead, aside).0 == env.agent().0 + ahead * heading(env.direction()).0 + aside
            * heading(turned(env.direction(), 0)).0,
        env.seen(ahead, aside).1 == env.agent().1 + ahead * heading(env.direction()).1 + aside
            * heading(turned(env.direction(), 0)).1,
{
    assert(ahead * 0 == 0 && aside * 0 == 0 && ahead * 1 == ahead && aside * 1 == aside && ahead
        * -1 == -ahead && aside * -1 == -aside) by (nonlinear_arith);
}

/// The window shows the agent's own cell in its lower right corner, each cell further up one step
/// ahead and each cell further left one step aside. Only the diamond in the centre cell covers
/// what is seen.
pub proof fn law_picture_shows_what_is_seen(env: MazeEnv, x: int, y: int)
    requires
        env.wf(),
        0 <= x < env.side(),
        0 <= y < env.side(),
    ensures
        ({
            let cell = env.side() / 7;
            let color = env.pixel_color(x, y);
            let dx = x - (3 * cell + cell / 2);
            let dy = y - (3 * cell + cell / 2);
            let in_diamond = dx + dy <= cell / 3 && dx - dy <= cell / 3 && dy - dx <= cell / 3 && -dx
                - dy <= cell / 3;
            &&& in_diamond ==> color == (255u8, 0u8, 0u8)
            &&& !in_diamond && (x >= 7 * cell || y >= 7 * cell) ==> color == (0u8, 0u8, 0u8)
            &&& !in_diamond && x < 7 * cell && y < 7 * cell ==> {
                let ahead = 6 - y / cell;
                let aside = 6 - x / cell;
                &&& 0 <= ahead <= 6
                &&& 0 <= aside <= 6
                &&& color == env.cell_color(
                    (
                        env.agent().0 + ahead * heading(env.direction()).0 + aside * heading(
                            turned(env.direction(), 0),
                        ).0,
                        env.agent().1 + ahead * heading(env.direction()).1 + aside * heading(
                            turned(env.direction(), 0),
                        ).1,
                    ),
                )
            }
        }),
{
    let cell = env.side() / 7;
    if x < 7 * cell && y < 7 * cell {
        assert(0 <= x / cell <= 6 && 0 <= y / cell <= 6) by (nonlinear_arith)
            requires
                0 < cell,
                0 <= x < 7 * cell,
                0 <= y < 7 * cell,
        ;
        law_view_turns_with_the_agent(env, 6 - y / cell, 6 - x / cell);
    }
}

/// The goal is green wherever it is on the grid, floor is dark, walls are lighter, and there is
/// nothing to see beyond the grid.
pub proof fn law_colors_tell_cells_apart(env: MazeEnv, cell: (int, int))
    ensures
        ({
            let color = env.cell_color(cell);
            let beyond = cell.0 < 0 || cell.1 < 0 || cell.0 >= env.maze().columns() || cell.1
                >= env.maze().rows();
            let floor = env.maze().floor().contains(cell);
            &&& beyond ==> color == (0u8, 0u8, 0u8)
            &&& !beyond && cell == env.goal() ==> color == (0u8, 255u8, 0u8)
            &&& !beyond && cell != env.goal() && floor ==> color == (50u8, 50u8, 50u8)
            &&& !beyond && cell != env.goal() && !floor ==> color == (100u8, 100u8, 100u8)
        }),
{
}

/// Only going ahead moves the agent, by the step that it heads for, and only a wall stops it. Who
/// went ahead and turns round gets back to where it was.
pub proof fn law_agent_walks_ahead(env: MazeEnv, after: MazeEnv, act: int)
    requires
        env.wf(),
        after.maze() == env.maze(),
        after.agent() == env.moved(act),
        after.direction() == turned(turned(env.direction(), 1), 1),
    ensures
        act != 2 ==> after.agent() == env.agent(),
        ({
            let h = heading(env.direction());
            let next = (env.agent().0 + h.0, env.agent().1 + h.1);
            &&& act == 2 && env.maze().floor().contains(next) ==> after.agent() == next
                && after.moved(2) == env.agent()
            &&& act == 2 && !env.maze().floor().contains(next) ==> after.agent() == env.agent()
        }),
{
}

/// A goal is far if it is on the floor and more steps away, counted along columns and rows, than
/// half the columns.
pub proof fn law_far_goals_are_far(maze: Maze, agent: (int, int), goal: (int, int))
    ensures
        maze.far_goal(agent, goal) ==> maze.floor().contains(goal),
        ({
            let dx = if agent.0 < goal.0 {
                goal.0 - agent.0
            } else {
                agent.0 - goal.0
            };
            let dy = if agent.1 < goal.1 {
                goal.1 - agent.1
            } else {
                agent.1 - goal.1
            };
            maze.floor().contains(goal) ==> (maze.far_goal(agent, goal) <==> 2 * (dx + dy)
                > maze.columns())
        }),
{
}

/// The rooms that can be dug out next are those two cells away along a row or a column that are off
/// the border and not dug out yet. They are listed from the right clockwise.
pub proof fn law_next_rooms_are_two_away(maze: Maze, cell: (int, int), to: (int, int))
    ensures
        ({
            let around = maze.unvisited_from(cell);
            let right = (cell.0 + 2, cell.1);
            let below = (cell.0, cell.1 + 2);
            let left = (cell.0 - 2, cell.1);
            let above = (cell.0, cell.1 - 2);
            let free = |c: (int, int)|
                0 < c.0 < maze.columns() - 1 && 0 < c.1 < maze.rows() - 1 && !maze.floor().contains(
                    c,
                );
            &&& around.contains(to) <==> free(to) && (to == right || to == below || to == left || to
                == above)
            &&& around.no_duplicates()
            &&& free(right) ==> around[0] == right
            &&& free(above) ==> around.last() == above
            &&& free(right) && free(below) && free(left) && free(above) ==> around == seq![
                right,
                below,
                left,
                above,
            ]
            &&& !free(right) && free(below) ==> around[0] == below
            &&& !free(above) && free(left) ==> around.last() == left
        }),
{
    let around = maze.unvisited_from(cell);
    let a = maze.fresh((cell.0 + 2, cell.1));
    let b = maze.fresh((cell.0, cell.1 + 2));
    let c = maze.fresh((cell.0 - 2, cell.1));
    let d = maze.fresh((cell.0, cell.1 - 2));
    assert(around == a + b + c + d);
    if a.len() > 0 {
        assert(around[0] == a[0]);
    }
    if b.len() > 0 {
        assert(around[a.len() as int] == b[0]);
    }
    if c.len() > 0 {
        assert(around[(a + b).len() as int] == c[0]);
    }
    if d.len() > 0 {
        assert(around[(a + b + c).len() as int] == d[0]);
    }
    if maze.off_border((cell.0 + 2, cell.1)) && maze.off_border((cell.0, cell.1 + 2))
        && maze.off_border((cell.0 - 2, cell.1)) && maze.off_border((cell.0, cell.1 - 2))
        && a.len() > 0 && b.len() > 0 && c.len() > 0 && d.len() > 0 {
        assert(around =~= seq![
            (cell.0 + 2, cell.1),
            (cell.0, cell.1 + 2),
            (cell.0 - 2, cell.1),
            (cell.0, cell.1 - 2),
        ]);
    }
}

/// The cell between two rooms that are two cells apart is next to both.
pub proof fn law_passages_lie_between(a: (int, int), b: (int, int))
    requires
        (a.0 == b.0 && (a.1 == b.1 + 2 || a.1 == b.1 - 2)) || (a.1 == b.1 && (a.0 == b.0 + 2 || a.0
            == b.0 - 2)),
    ensures
        adjacent(a, halfway(a, b)),
        adjacent(halfway(a, b), b),
        halfway(a, b) == halfway(b, a),
        halfway(a, b).0 + halfway(a, b).0 == a.0 + b.0,
        halfway(a, b).1 + halfway(a, b).1 == a.1 + b.1,
{
}

/// A step of the digger: it goes back one room and digs nothing where there is nothing left to dig
/// around it, else it goes on to one of the rooms around and digs that room and the cell between.
pub proof fn law_digger_digs_one_room_at_a_time(
    course: Seq<Digging>,
    width: int,
    height: int,
    rng: rand::rngs::StdRng,
    k: int,
)
    requires
        is_dug(course, width, height, rng),
        0 <= k < course.len() - 1,
    ensures
        ({
            let before = course[k];
            let after = course[k + 1];
            let around = before.maze.unvisited_from(before.walk.last());
            &&& before.walk.len() > 0
            &&& around.len() == 0 ==> after.walk.len() == before.walk.len() - 1
                && after.maze.floor() == before.maze.floor()
            &&& around.len() > 0 ==> {
                &&& after.walk.len() == before.walk.len() + 1
                &&& after.walk.drop_last() == before.walk
                &&& around.contains(after.walk.last())
                &&& after.maze.floor().contains(after.walk.last())
                &&& after.maze.floor().contains(halfway(before.walk.last(), after.walk.last()))
            }
            &&& before.maze.floor().subset_of(after.maze.floor())
        }),
{
    let before = course[k];
    let after = course[k + 1];
    assert(before.goes_on(after));
    let around = before.maze.unvisited_from(before.walk.last());
    if around.len() > 0 {
        let lot = choose|lot: usize|
            {
                &&& #[trigger] drawn_from(before.rng, 0, around.len() as usize, lot)
                &&& lot < around.len()
                &&& after.walk == before.walk.push(around[lot as int])
                &&& after.maze.floor() == before.maze.floor().insert(around[lot as int]).insert(
                    halfway(before.walk.last(), around[lot as int]),
                )
            };
        assert(after.walk.last() == around[lot as int]);
        assert(after.walk.drop_last() =~= before.walk);
    }
}

/// Who stays away from the goal has as many steps as it may have, no more and no fewer, and who
/// arrives there needs no more.
pub proof fn law_steps_run_out(env: MazeEnv, after: MazeEnv)
    requires
        after.steps() == env.steps() + 1,
        after.limit() == env.limit(),
        after.goal() == env.goal(),
    ensures
        after.agent() == env.goal() ==> after.is_over(),
        after.agent() != env.goal() && env.steps() + 1 < env.limit() ==> !after.is_over(),
        after.agent() != env.goal() && env.steps() + 1 == env.limit() ==> after.is_over(),
        env.steps() >= env.limit() ==> after.is_over(),
{
}

/// Which of the rooms around comes next is drawn, from as many lots as there are rooms.
pub proof fn law_ways_are_drawn(
    course: Seq<Digging>,
    width: int,
    height: int,
    rng: rand::rngs::StdRng,
    k: int,
)
    requires
        is_dug(course, width, height, rng),
        0 <= k < course.len() - 1,
        course[k].maze.unvisited_from(course[k].walk.last()).len() > 0,
    ensures
        ({
            let around = course[k].maze.unvisited_from(course[k].walk.last());
            &&& course[0].rng == rng
            &&& exists|lot: usize|
                {
                    &&& #[trigger] drawn_from(course[k].rng, 0, around.len() as usize, lot)
                    &&& lot < around.len()
                    &&& course[k + 1].walk.last() == around[lot as int]
                }
        }),
{
    let before = course[k];
    let after = course[k + 1];
    assert(before.goes_on(after));
    let around = before.maze.unvisited_from(before.walk.last());
    let lot = choose|lot: usize|
        {
            &&& #[trigger] drawn_from(before.rng, 0, around.len() as usize, lot)
            &&& lot < around.len()
            &&& after.walk == before.walk.push(around[lot as int])
            &&& after.maze.floor() == before.maze.floor().insert(around[lot as int]).insert(
                halfway(before.walk.last(), around[lot as int]),
            )
        };
    assert(after.walk.last() == around[lot as int]);
}

/// Columns and rows of start and goal are drawn from all that are off the border, and the direction
/// from all four. Only if none of a huge number of draws was on the floor, the start may be another
/// one, and only if none was far enough away, the goal may.
pub proof fn law_places_are_drawn(env: MazeEnv)
    requires
        env.placed_by_chance(),
    ensures
        ({
            let last_x = (env.maze().columns() - 1) as usize;
            let last_y = (env.maze().rows() - 1) as usize;
            &&& drawn(0, 4, env.direction() as usize)
            &&& (drawn(1, last_x, env.agent().0 as usize) && drawn(
                1,
                last_y,
                env.agent().1 as usize,
            )) || exists|refused: Seq<(int, int)>|
                {
                    &&& refused.len() == u64::MAX
                    &&& forall|i: int|
                        0 <= i < refused.len() ==> drawn(1, last_x, (#[trigger] refused[i]).0 as usize)
                            && drawn(1, last_y, refused[i].1 as usize)
                            && !env.maze().floor().contains(refused[i])
                }
            &&& (drawn(1, last_x, env.goal().0 as usize) && drawn(1, last_y, env.goal().1 as usize))
                || exists|refused: Seq<(int, int)>|
                {
                    &&& refused.len() == u64::MAX
                    &&& forall|i: int|
                        0 <= i < refused.len() ==> drawn(1, last_x, (#[trigger] refused[i]).0 as usize)
                            && drawn(1, last_y, refused[i].1 as usize)
                            && !env.maze().far_goal(env.agent(), refused[i])
                }
        }),
{
    if !env.cell_drawn(env.agent()) {
        let refused = choose|refused: Seq<(int, int)>|
            {
                &&& refused.len() == u64::MAX
                &&& forall|i: int|
                    0 <= i < refused.len() ==> env.cell_drawn(#[trigger] refused[i])
                        && !env.maze().floor().contains(refused[i])
            };
        assert(refused.len() == u64::MAX && forall|i: int|
            0 <= i < refused.len() ==> drawn(
                1,
                (env.maze().columns() - 1) as usize,
                (#[trigger] refused[i]).0 as usize,
            ) && drawn(1, (env.maze().rows() - 1) as usize, refused[i].1 as usize)
                && !env.maze().floor().contains(refused[i]));
    }
    if !env.cell_drawn(env.goal()) {
        let refused = choose|refused: Seq<(int, int)>|
            {
                &&& refused.len() == u64::MAX
                &&& forall|i: int|
                    0 <= i < refused.len() ==> env.cell_drawn(#[trigger] refused[i])
                        && !env.maze().far_goal(env.agent(), refused[i])
            };
        assert(refused.len() == u64::MAX && forall|i: int|
            0 <= i < refused.len() ==> drawn(
                1,
                (env.maze().columns() - 1) as usize,
                (#[trigger] refused[i]).0 as usize,
            ) && drawn(1, (env.maze().rows() - 1) as usize, refused[i].1 as usize)
                && !env.maze().far_goal(env.agent(), refused[i]));
    }
}

/// A frame holds the picture, one plane after the other and row by row in each.
pub proof fn law_frame_holds_the_picture(env: MazeEnv, c: int, x: int, y: int)
    requires
        0 <= c < 3,
        0 <= x < env.side(),
        0 <= y < env.side(),
    ensures
        env.frame().len() == 3 * (env.side() * env.side()),
        env.frame()[c * (env.side() * env.side()) + y * env.side() + x] == channel(
            env.pixel_color(x, y),
            c,
        ),
{
    let pixels = scan(env.side(), env.side(), |px: int, py: int| env.pixel_color(px, py));
    law_scan_runs_row_by_row(
        env.side(),
        env.side(),
        |px: int, py: int| env.pixel_color(px, py),
        x,
        y,
    );
    law_plane_offsets(pixels, c, y * env.side() + x);
}

} // verus!
