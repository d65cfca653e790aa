//! Ways through the grid: which cells a letter can reach, and by which way
//! it gets there most directly.

use crate::grid::cell_index;
use crate::grid::direction_at;
use crate::grid::lemma_cell_index_bound;
use crate::grid::lemma_cell_index_injective;
use crate::grid::lemma_size_product;
use crate::grid::step;
use crate::grid::Cell;
use crate::grid::Direction;
use crate::grid::Grid;
use crate::grid::GridView;
use crate::grid::GridSize;
use crate::grid::MaybePosition;
use crate::grid::MoveResult;
use crate::grid::Position;
use vstd::prelude::*;

verus! {

/// Whether the two positions are one step apart.
pub open spec fn adjacent(a: Position, b: Position) -> bool {
    ||| a.x == b.x && (a.y + 1 == b.y || b.y + 1 == a.y)
    ||| a.y == b.y && (a.x + 1 == b.x || b.x + 1 == a.x)
}

/// The position at the coordinates `pos`.
pub open spec fn position_at(pos: MaybePosition) -> Position {
    Position { x: pos.x as u8, y: pos.y as u8 }
}

/// A position one step away lies in one of the four directions.
pub proof fn lemma_adjacent_step(a: Position, b: Position)
    requires
        adjacent(a, b),
    ensures
        exists|k: int| 0 <= k < 4 && #[trigger] step(a, direction_at(k)) == (MaybePosition {
            x: b.x as i16,
            y: b.y as i16,
        }),
{
    let target = MaybePosition { x: b.x as i16, y: b.y as i16 };
    if a.x == b.x && b.y + 1 == a.y {
        assert(step(a, direction_at(0)) == target);
    } else if a.y == b.y && a.x + 1 == b.x {
        assert(step(a, direction_at(1)) == target);
    } else if a.x == b.x && a.y + 1 == b.y {
        assert(step(a, direction_at(2)) == target);
    } else {
        assert(step(a, direction_at(3)) == target);
    }
}

impl GridView {
    /// Whether place `i` of `path` is a step of a walk: its position is on
    /// the grid and one step from the one before, and its cell is empty
    /// unless it is the last.
    pub open spec fn step_ok(&self, path: Seq<Position>, i: int) -> bool {
        &&& self.in_grid(path[i])
        &&& adjacent(path[i - 1], path[i])
        &&& i < path.len() - 1 ==> self.cells[path[i]] == Cell::Empty
    }

    /// Whether `path` is a walk: each of its positions after the first is on
    /// the grid and one step from the one before, and every cell strictly
    /// between its two ends is empty.
    pub open spec fn is_walk(&self, path: Seq<Position>) -> bool {
        &&& path.len() >= 1
        &&& forall|i: int| 1 <= i < path.len() ==> #[trigger] self.step_ok(path, i)
    }

    /// Whether `path` is a walk from `from` to `to`.
    pub open spec fn walk_between(&self, from: Position, to: Position, path: Seq<Position>) -> bool {
        self.is_walk(path) && path[0] == from && path.last() == to
    }

    /// Whether a walk leads from `from` to `to`.
    pub open spec fn connected(&self, from: Position, to: Position) -> bool {
        exists|path: Seq<Position>| self.walk_between(from, to, path)
    }

    /// Whether a walk may go on from `pos`: it is the start, or it is
    /// reached and empty.
    pub open spec fn passable(&self, from: Position, reached: Set<Position>, pos: Position) -> bool {
        pos == from || (reached.contains(pos) && self.cells[pos] == Cell::Empty)
    }

    /// Every position is connected to itself.
    pub proof fn lemma_connected_self(&self, from: Position)
        ensures
            self.connected(from, from),
    {
        assert(self.walk_between(from, from, seq![from]));
    }

    /// A walk that may go on from its end can take one more step.
    pub proof fn lemma_connected_step(&self, from: Position, current: Position, next: Position)
        requires
            self.connected(from, current),
            current == from || self.cells[current] == Cell::Empty,
            self.in_grid(next),
            adjacent(current, next),
        ensures
            self.connected(from, next),
    {
        let path = if current == from {
            seq![from]
        } else {
            choose|path: Seq<Position>| self.walk_between(from, current, path)
        };
        let longer = path.push(next);
        assert forall|i: int| 1 <= i < longer.len() implies #[trigger] self.step_ok(longer, i) by {
            if i < path.len() {
                assert(self.step_ok(path, i));
                assert(longer[i] == path[i]);
                assert(longer[i - 1] == path[i - 1]);
            }
        }
        assert(self.walk_between(from, next, longer));
    }

    /// Where every step from a passable reached position leads to a reached
    /// position, every position of a walk after its start is reached.
    pub proof fn lemma_walk_reached(
        &self,
        from: Position,
        reached: Set<Position>,
        path: Seq<Position>,
        i: int,
    )
        requires
            self.is_walk(path),
            path[0] == from,
            1 <= i < path.len(),
            forall|p: Position, q: Position|
                #![trigger adjacent(p, q)]
                self.passable(from, reached, p) && self.in_grid(q) && adjacent(p, q)
                    ==> reached.contains(q),
        ensures
            reached.contains(path[i]),
        decreases i,
    {
        if i > 1 {
            self.lemma_walk_reached(from, reached, path, i - 1);
            assert(self.step_ok(path, i - 1));
        }
        assert(self.step_ok(path, i));
    }
}

/// How many entries of `flags` are not set.
pub open spec fn count_unset(flags: Seq<bool>) -> nat
    decreases flags.len(),
{
    if flags.len() == 0 {
        0
    } else {
        count_unset(flags.drop_last()) + if flags.last() {
            0nat
        } else {
            1nat
        }
    }
}

/// Setting an entry that was not set leaves one fewer unset.
pub proof fn lemma_count_unset_update(flags: Seq<bool>, i: int)
    requires
        0 <= i < flags.len(),
        !flags[i],
    ensures
        count_unset(flags.update(i, true)) + 1 == count_unset(flags),
    decreases flags.len(),
{
    if i == flags.len() - 1 {
        assert(flags.update(i, true).drop_last() =~= flags.drop_last());
    } else {
        assert(flags.update(i, true).drop_last() =~= flags.drop_last().update(i, true));
        lemma_count_unset_update(flags.drop_last(), i);
    }
}

/// A set of positions of a grid.
pub struct Marks {
    width: GridSize,
    height: GridSize,
    flags: Vec<bool>,
}

impl View for Marks {
    type V = Set<Position>;

    closed spec fn view(&self) -> Set<Position> {
        Set::new(
            |pos: Position|
                pos.x < self.width && pos.y < self.height && self.flags@[cell_index(
                    self.width as int,
                    pos,
                )],
        )
    }
}

impl Marks {
    /// There is a flag for each position.
    pub closed spec fn wf(&self) -> bool {
        self.flags@.len() == self.width * self.height
    }

    /// The number of columns.
    pub closed spec fn spec_width(&self) -> GridSize {
        self.width
    }

    /// The number of rows.
    pub closed spec fn spec_height(&self) -> GridSize {
        self.height
    }

    /// How many positions are not in the set.
    pub closed spec fn unmarked(&self) -> nat {
        count_unset(self.flags@)
    }

    /// The empty set of positions of a grid of `width` by `height`.
    pub fn new(width: GridSize, height: GridSize) -> (marks: Marks)
        ensures
            marks.wf(),
            marks.spec_width() == width,
            marks.spec_height() == height,
            marks@ == Set::<Position>::empty(),
    {
        proof {
            lemma_size_product(width as int, height as int);
        }
        let total: usize = width as usize * height as usize;
        let mut flags: Vec<bool> = Vec::new();
        let mut i: usize = 0;
        while i < total
            invariant
                i <= total,
                flags@.len() == i,
                forall|k: int| 0 <= k < i ==> !flags@[k],
            decreases total - i,
        {
            flags.push(false);
            i = i + 1;
        }
        let marks = Marks { width, height, flags };
        proof {
            assert forall|pos: Position| !marks@.contains(pos) by {
                if pos.x < width && pos.y < height {
                    lemma_cell_index_bound(width as int, height as int, pos);
                }
            }
            assert(marks@ =~= Set::<Position>::empty());
        }
        marks
    }

    /// Whether `pos` is in the set.
    pub fn get(&self, pos: Position) -> (marked: bool)
        requires
            self.wf(),
            pos.x < self.spec_width(),
            pos.y < self.spec_height(),
        ensures
            marked == self@.contains(pos),
    {
        proof {
            lemma_size_product(pos.y as int, self.width as int);
            lemma_cell_index_bound(self.width as int, self.height as int, pos);
        }
        let index: usize = pos.y as usize * self.width as usize + pos.x as usize;
        self.flags[index]
    }

    /// Puts `pos` in the set.
    pub fn set(&mut self, pos: Position)
        requires
            old(self).wf(),
            pos.x < old(self).spec_width(),
            pos.y < old(self).spec_height(),
        ensures
            final(self).wf(),
            final(self).spec_width() == old(self).spec_width(),
            final(self).spec_height() == old(self).spec_height(),
            final(self)@ == old(self)@.insert(pos),
            old(self)@.contains(pos) ==> final(self).unmarked() == old(self).unmarked(),
            !old(self)@.contains(pos) ==> final(self).unmarked() + 1 == old(self).unmarked(),
    {
        proof {
            lemma_size_product(pos.y as int, self.width as int);
            lemma_cell_index_bound(self.width as int, self.height as int, pos);
        }
        let index: usize = pos.y as usize * self.width as usize + pos.x as usize;
        proof {
            if !self.flags@[index as int] {
                lemma_count_unset_update(self.flags@, index as int);
            } else {
                assert(self.flags@.update(index as int, true) =~= self.flags@);
            }
        }
        self.flags.set(index, true);
        proof {
            assert forall|other: Position|
                final(self)@.contains(other) <==> old(self)@.insert(pos).contains(other) by {
                if other.x < self.width && other.y < self.height {
                    lemma_cell_index_bound(self.width as int, self.height as int, other);
                    if other != pos && cell_index(self.width as int, other) == cell_index(
                        self.width as int,
                        pos,
                    ) {
                        lemma_cell_index_injective(self.width as int, other, pos);
                    }
                }
            }
            assert(final(self)@ =~= old(self)@.insert(pos));
        }
    }
}

/// What a list holds once `x` is put at its end.
pub proof fn lemma_push_contains<T>(s: Seq<T>, x: T, y: T)
    ensures
        s.push(x).contains(y) <==> s.contains(y) || x == y,
{
    if s.contains(y) {
        let i = choose|i: int| 0 <= i < s.len() && s[i] == y;
        assert(s.push(x)[i] == y);
    }
    if x == y {
        assert(s.push(x)[s.len() as int] == y);
    }
    if s.push(x).contains(y) {
        let i = choose|i: int| 0 <= i < s.push(x).len() && s.push(x)[i] == y;
        if i < s.len() {
            assert(s[i] == y);
        }
    }
}

/// A list without repeats stays so when something new is put at its end.
pub proof fn lemma_push_no_duplicates<T>(s: Seq<T>, x: T)
    requires
        s.no_duplicates(),
        !s.contains(x),
    ensures
        s.push(x).no_duplicates(),
{
    assert forall|i: int, j: int|
        0 <= i < s.push(x).len() && 0 <= j < s.push(x).len() && i != j implies s.push(x)[i]
        != s.push(x)[j] by {
        if i < s.len() && j < s.len() {
            assert(s[i] != s[j]);
        } else if i < s.len() {
            assert(s[i] != x);
        } else {
            assert(s[j] != x);
        }
    }
}

impl GridView {
    /// The state of a search for the positions that a walk from `from`
    /// leads to. `marks` are the positions of the grid found so far and
    /// `reached` lists them with `from`; `work` holds those from which the
    /// search has yet to go on; `skip`, if any, is the one from which it is
    /// going on now. From every other passable position found, each step
    /// leads to a position found.
    #[verifier::opaque]
    pub open spec fn flooding(
        &self,
        from: Position,
        marks: Set<Position>,
        work: Seq<Position>,
        reached: Seq<Position>,
        skip: Option<Position>,
    ) -> bool {
        &&& forall|pos: Position|
            marks.contains(pos) ==> self.in_grid(pos) && self.connected(from, pos)
        &&& self.in_grid(from) ==> marks.contains(from)
        &&& forall|i: int| 0 <= i < work.len() ==> self.passable(from, marks, #[trigger] work[i])
        &&& forall|p: Position, q: Position|
            #![trigger adjacent(p, q)]
            self.passable(from, marks, p) && !work.contains(p) && Some(p) != skip && self.in_grid(
                q,
            ) && adjacent(p, q) ==> marks.contains(q)
        &&& forall|pos: Position| reached.contains(pos) <==> pos == from || marks.contains(pos)
        &&& reached.no_duplicates()
    }

    /// The search starts with `from` found and to be gone on from.
    pub proof fn lemma_flooding_start(&self, from: Position, marks: Set<Position>)
        requires
            marks == if self.in_grid(from) {
                Set::<Position>::empty().insert(from)
            } else {
                Set::<Position>::empty()
            },
        ensures
            self.flooding(from, marks, seq![from], seq![from], None),
    {
        reveal(GridView::flooding);
        self.lemma_connected_self(from);
        let work = seq![from];
        assert(work[0] == from);
        assert forall|pos: Position| work.contains(pos) <==> pos == from || marks.contains(pos) by {
            if work.contains(pos) {
                let i = choose|i: int| 0 <= i < work.len() && work[i] == pos;
            }
        }
    }

    /// Taking the last position out of `work` makes it the one that the
    /// search goes on from.
    pub proof fn lemma_flooding_pop(
        &self,
        from: Position,
        marks: Set<Position>,
        work: Seq<Position>,
        reached: Seq<Position>,
    )
        requires
            self.flooding(from, marks, work, reached, None),
            work.len() > 0,
        ensures
            self.flooding(from, marks, work.drop_last(), reached, Some(work.last())),
            self.passable(from, marks, work.last()),
            self.connected(from, work.last()),
    {
        reveal(GridView::flooding);
        let current = work.last();
        let rest = work.drop_last();
        assert(self.passable(from, marks, work[work.len() - 1]));
        self.lemma_connected_self(from);
        assert(work =~= rest.push(current));
        assert forall|i: int| 0 <= i < rest.len() implies self.passable(
            from,
            marks,
            #[trigger] rest[i],
        ) by {
            assert(rest[i] == work[i]);
        }
        assert forall|p: Position, q: Position|
            #![trigger adjacent(p, q)]
            self.passable(from, marks, p) && !rest.contains(p) && Some(p) != Some(current)
                && self.in_grid(q) && adjacent(p, q) implies marks.contains(q) by {
            lemma_push_contains(rest, current, p);
        }
    }

    /// A step from the current position to a position not found yet finds
    /// it; the search has to go on from it if it is empty.
    pub proof fn lemma_flooding_visit(
        &self,
        from: Position,
        marks: Set<Position>,
        work: Seq<Position>,
        reached: Seq<Position>,
        current: Position,
        next: Position,
    )
        requires
            self.flooding(from, marks, work, reached, Some(current)),
            self.passable(from, marks, current),
            self.connected(from, current),
            self.in_grid(next),
            adjacent(current, next),
            !marks.contains(next),
        ensures
            self.flooding(
                from,
                marks.insert(next),
                if self.cells[next] == Cell::Empty {
                    work.push(next)
                } else {
                    work
                },
                reached.push(next),
                Some(current),
            ),
            self.passable(from, marks.insert(next), current),
    {
        reveal(GridView::flooding);
        let marks2 = marks.insert(next);
        let work2 = if self.cells[next] == Cell::Empty {
            work.push(next)
        } else {
            work
        };
        self.lemma_connected_step(from, current, next);
        assert(next != from);
        assert(!reached.contains(next));
        lemma_push_no_duplicates(reached, next);
        assert forall|pos: Position|
            reached.push(next).contains(pos) <==> pos == from || marks2.contains(pos) by {
            lemma_push_contains(reached, next, pos);
        }
        assert forall|i: int| 0 <= i < work2.len() implies self.passable(
            from,
            marks2,
            #[trigger] work2[i],
        ) by {
            if i < work.len() {
                assert(work2[i] == work[i]);
                assert(self.passable(from, marks, work[i]));
            }
        }
        assert forall|p: Position, q: Position|
            #![trigger adjacent(p, q)]
            self.passable(from, marks2, p) && !work2.contains(p) && Some(p) != Some(current)
                && self.in_grid(q) && adjacent(p, q) implies marks2.contains(q) by {
            if self.cells[next] == Cell::Empty {
                lemma_push_contains(work, next, p);
            }
            if p != next {
                assert(self.passable(from, marks, p));
                assert(!work.contains(p));
                assert(marks.contains(q));
            }
        }
        assert(forall|pos: Position|
            marks2.contains(pos) ==> self.in_grid(pos) && self.connected(from, pos));
        assert(self.in_grid(from) ==> marks2.contains(from));
        assert(reached.push(next).no_duplicates());
    }

    /// Once every step from the current position leads to a position found,
    /// the search is done with it.
    pub proof fn lemma_flooding_close(
        &self,
        from: Position,
        marks: Set<Position>,
        work: Seq<Position>,
        reached: Seq<Position>,
        current: Position,
    )
        requires
            self.flooding(from, marks, work, reached, Some(current)),
            forall|j: int|
                0 <= j < 4 && self.holds(#[trigger] step(current, direction_at(j)))
                    ==> marks.contains(position_at(step(current, direction_at(j)))),
        ensures
            self.flooding(from, marks, work, reached, None),
    {
        reveal(GridView::flooding);
        assert forall|p: Position, q: Position|
            #![trigger adjacent(p, q)]
            self.passable(from, marks, p) && !work.contains(p) && self.in_grid(q) && adjacent(
                p,
                q,
            ) implies marks.contains(q) by {
            if p == current {
                lemma_adjacent_step(current, q);
                let j = choose|j: int|
                    0 <= j < 4 && #[trigger] step(current, direction_at(j)) == (MaybePosition {
                        x: q.x as i16,
                        y: q.y as i16,
                    });
                assert(self.holds(step(current, direction_at(j))));
                assert(position_at(step(current, direction_at(j))) == q);
            }
        }
    }

    /// When nothing is left to go on from, the positions found are those
    /// that a walk from `from` leads to.
    pub proof fn lemma_flooding_done(
        &self,
        from: Position,
        marks: Set<Position>,
        reached: Seq<Position>,
    )
        requires
            self.flooding(from, marks, Seq::empty(), reached, None),
        ensures
            forall|pos: Position|
                marks.contains(pos) <==> self.in_grid(pos) && self.connected(from, pos),
            forall|pos: Position| reached.contains(pos) <==> self.connected(from, pos),
            reached.no_duplicates(),
    {
        reveal(GridView::flooding);
        let work = Seq::<Position>::empty();
        assert forall|p: Position, q: Position|
            #![trigger adjacent(p, q)]
            self.passable(from, marks, p) && self.in_grid(q) && adjacent(p, q) implies marks.contains(
            q,
        ) by {
            assert(!work.contains(p));
        }
        assert forall|pos: Position| self.connected(from, pos) && pos != from implies self.in_grid(
            pos,
        ) && marks.contains(pos) by {
            let path = choose|path: Seq<Position>| self.walk_between(from, pos, path);
            assert(self.step_ok(path, path.len() - 1));
            self.lemma_walk_reached(from, marks, path, path.len() - 1);
        }
        self.lemma_connected_self(from);
        assert forall|pos: Position|
            marks.contains(pos) <==> self.in_grid(pos) && self.connected(from, pos) by {}
        assert forall|pos: Position| reached.contains(pos) <==> self.connected(from, pos) by {}
    }
}

impl Grid {
    /// The positions that a walk from `from` leads to, as a set of positions
    /// of the grid and as a list.
    fn flood(&self, from: Position) -> (result: (Marks, Vec<Position>))
        requires
            self.wf(),
        ensures
            result.0.wf(),
            result.0.spec_width() == self.spec_width(),
            result.0.spec_height() == self.spec_height(),
            forall|pos: Position|
                #[trigger] result.0@.contains(pos) <==> self@.in_grid(pos) && self@.connected(
                    from,
                    pos,
                ),
            forall|pos: Position| #[trigger] result.1@.contains(pos) <==> self@.connected(from, pos),
            result.1@.no_duplicates(),
    {
        let directions = Direction::all();
        let mut marks = Marks::new(self.width(), self.height());
        let mut reached: Vec<Position> = Vec::new();
        reached.push(from);
        if from.x < self.width() && from.y < self.height() {
            marks.set(from);
        }
        let mut work: Vec<Position> = Vec::new();
        work.push(from);
        proof {
            self@.lemma_flooding_start(from, marks@);
            assert(work@ =~= seq![from]);
            assert(reached@ =~= seq![from]);
        }
        while work.len() > 0
            invariant
                self.wf(),
                marks.wf(),
                marks.spec_width() == self.spec_width(),
                marks.spec_height() == self.spec_height(),
                directions@.len() == 4,
                forall|k: int| 0 <= k < 4 ==> directions@[k] == direction_at(k),
                self@.flooding(from, marks@, work@, reached@, None),
            decreases 2 * marks.unmarked() + work@.len(),
        {
            let ghost measure = 2 * marks.unmarked() + work@.len();
            proof {
                self@.lemma_flooding_pop(from, marks@, work@, reached@);
            }
            let current = work.pop().unwrap();
            let mut k: usize = 0;
            while k < 4
                invariant
                    k <= 4,
                    self.wf(),
                    marks.wf(),
                    marks.spec_width() == self.spec_width(),
                    marks.spec_height() == self.spec_height(),
                    directions@.len() == 4,
                    forall|k: int| 0 <= k < 4 ==> directions@[k] == direction_at(k),
                    self@.flooding(from, marks@, work@, reached@, Some(current)),
                    self@.passable(from, marks@, current),
                    self@.connected(from, current),
                    forall|j: int|
                        0 <= j < k && self@.holds(#[trigger] step(current, direction_at(j)))
                            ==> marks@.contains(position_at(step(current, direction_at(j)))),
                    2 * marks.unmarked() + work@.len() < measure,
                decreases 4 - k,
            {
                let dir = directions[k];
                let to_check = MaybePosition::new(&current, &dir);
                match self.is_in_grid(to_check) {
                    None => {},
                    Some(next) => {
                        if !marks.get(next) {
                            proof {
                                self@.lemma_flooding_visit(
                                    from,
                                    marks@,
                                    work@,
                                    reached@,
                                    current,
                                    next,
                                );
                            }
                            marks.set(next);
                            reached.push(next);
                            if self.cell(&next) == Cell::Empty {
                                work.push(next);
                            }
                        }
                    },
                }
                k = k + 1;
            }
            proof {
                self@.lemma_flooding_close(from, marks@, work@, reached@, current);
            }
        }
        proof {
            assert(work@ =~= Seq::<Position>::empty());
            self@.lemma_flooding_done(from, marks@, reached@);
        }
        (marks, reached)
    }

    /// Whether a walk leads from `from` to `to`: a way of steps from cell to
    /// neighbouring cell on which every cell between the two ends is empty.
    pub fn path_exists(&self, from: &Position, to: &Position) -> (found: bool)
        requires
            self.wf(),
        ensures
            found == self@.connected(*from, *to),
    {
        if *from == *to {
            proof {
                self@.lemma_connected_self(*from);
            }
            return true;
        }
        if !(to.x < self.width() && to.y < self.height()) {
            proof {
                if self@.connected(*from, *to) {
                    let path = choose|path: Seq<Position>| self@.walk_between(*from, *to, path);
                    assert(self@.step_ok(path, path.len() - 1));
                }
            }
            return false;
        }
        let flooded = self.flood(*from);
        flooded.0.get(*to)
    }

    /// The positions that a letter at `from` can be moved to, `from` among
    /// them: those that a walk from `from` leads to. Each is listed once.
    pub fn allowed_moving_positions(&self, from: Position) -> (positions: Vec<Position>)
        requires
            self.wf(),
        ensures
            forall|pos: Position| #[trigger] positions@.contains(pos) <==> self@.connected(from, pos),
            positions@.no_duplicates(),
    {
        let flooded = self.flood(from);
        flooded.1
    }

    /// Makes the cells at `from` and `to` change places if a walk leads from
    /// one to the other, and leaves the grid as it is if none does.
    pub fn move_cell(&mut self, from: Position, to: Position) -> (result: MoveResult)
        requires
            old(self).wf(),
            old(self)@.connected(from, to) ==> old(self)@.in_grid(from),
        ensures
            final(self).wf(),
            old(self)@.connected(from, to) ==> result == MoveResult::Moved && final(self)@ == old(
                self,
            )@.put(to, old(self)@.cells[from]).put(from, old(self)@.cells[to]),
            !old(self)@.connected(from, to) ==> result == MoveResult::NoPath && final(self)@ == old(
                self,
            )@,
    {
        if !self.path_exists(&from, &to) {
            return MoveResult::NoPath;
        }
        proof {
            if from != to {
                let path = choose|path: Seq<Position>| self@.walk_between(from, to, path);
                assert(self@.step_ok(path, path.len() - 1));
            }
        }
        let from_cell = self.cell(&from);
        let to_cell = self.cell(&to);
        self.update_cell(to, from_cell);
        self.update_cell(from, to_cell);
        MoveResult::Moved
    }
}

} // verus!
