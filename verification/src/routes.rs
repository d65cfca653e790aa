//! The most direct way between two cells: the shortest, and of the shortest
//! the one with the fewest turns.

use crate::grid::cell_index;
use crate::grid::direction_at;
use crate::grid::lemma_cell_index_bound;
use crate::grid::lemma_cell_index_injective;
use crate::grid::step;
use crate::grid::Cell;
use crate::grid::Direction;
use crate::grid::Grid;
use crate::grid::GridView;
use crate::grid::MaybePosition;
use crate::grid::Position;
use crate::paths::adjacent;
use crate::paths::lemma_adjacent_step;
use crate::paths::lemma_push_contains;
use crate::paths::lemma_push_no_duplicates;
use crate::paths::position_at;
use crate::queue::queue_new;
use crate::queue::queue_pop;
use crate::queue::queue_push;
use crate::queue::queued;
use vstd::prelude::*;

verus! {

/// Whether the way turns at place `i + 1` of `path`: the step to it and the
/// step from it do not both keep the column, nor both change it.
pub open spec fn turn_at(path: Seq<Position>, i: int) -> bool {
    (path[i].x == path[i + 1].x) != (path[i + 1].x == path[i + 2].x)
}

/// The number of turns of `path` among its first `n` pairs of steps.
pub open spec fn angles_upto(path: Seq<Position>, n: int) -> nat
    decreases n,
{
    if n <= 0 {
        0
    } else {
        angles_upto(path, n - 1) + if turn_at(path, n - 1) {
            1nat
        } else {
            0nat
        }
    }
}

/// The number of turns of `path`.
pub open spec fn angles(path: Seq<Position>) -> nat {
    angles_upto(path, path.len() - 2)
}

/// Whether the step from place `i` of `path` keeps the column or the row.
pub open spec fn aligned_at(path: Seq<Position>, i: int) -> bool {
    path[i].x == path[i + 1].x || path[i].y == path[i + 1].y
}

/// Whether every step of `path` keeps the column or the row.
pub open spec fn aligned(path: Seq<Position>) -> bool {
    forall|i: int| 0 <= i < path.len() - 1 ==> #[trigger] aligned_at(path, i)
}

/// The number of turns of `path`: how many times a step that keeps the
/// column is followed by one that changes it, or the other way round.
pub fn number_of_angles(path: &Vec<Position>) -> (count: usize)
    requires
        aligned(path@),
    ensures
        count == angles(path@),
{
    if path.len() < 3 {
        return 0;
    }
    let mut count: usize = 0;
    let mut i: usize = 0;
    while i < path.len() - 2
        invariant
            path@.len() >= 3,
            i <= path@.len() - 2,
            count == angles_upto(path@, i as int),
            count <= i,
        decreases path@.len() - i,
    {
        let first = path[i].x == path[i + 1].x;
        let second = path[i + 1].x == path[i + 2].x;
        if first != second {
            count = count + 1;
        }
        i = i + 1;
    }
    count
}

impl GridView {
    /// Whether `path` is a walk from `from` to `to` that passes no position
    /// twice.
    pub open spec fn simple_walk(&self, from: Position, to: Position, path: Seq<Position>) -> bool {
        self.walk_between(from, to, path) && path.no_duplicates()
    }

    /// Whether `path` is a most direct way from `from` to `to`: a walk
    /// between them than which none is shorter, and none of the same length
    /// has fewer turns.
    pub open spec fn most_direct(&self, from: Position, to: Position, path: Seq<Position>) -> bool {
        &&& self.walk_between(from, to, path)
        &&& forall|other: Seq<Position>| #[trigger]
            self.walk_between(from, to, other) ==> path.len() <= other.len() && (other.len()
                == path.len() ==> angles(path) <= angles(other))
    }

    /// Every step of a walk keeps the column or the row.
    pub proof fn lemma_walk_aligned(&self, path: Seq<Position>)
        requires
            self.is_walk(path),
        ensures
            aligned(path),
    {
        assert forall|i: int| 0 <= i < path.len() - 1 implies #[trigger] aligned_at(path, i) by {
            assert(self.step_ok(path, i + 1));
        }
    }

    /// A walk that passes a position twice can be cut short: some walk
    /// between the same ends passes no position twice, and it is the walk
    /// itself or a shorter one.
    pub proof fn lemma_simple_walk_exists(&self, from: Position, to: Position, path: Seq<Position>)
        requires
            self.walk_between(from, to, path),
        ensures
            exists|simple: Seq<Position>| #[trigger]
                self.simple_walk(from, to, simple) && (simple == path || simple.len()
                    < path.len()),
        decreases path.len(),
    {
        if path.no_duplicates() {
            assert(self.simple_walk(from, to, path));
        } else {
            let (i, j) = choose|i: int, j: int|
                0 <= i < path.len() && 0 <= j < path.len() && i != j && path[i] == path[j];
            let (a, b) = if i < j {
                (i, j)
            } else {
                (j, i)
            };
            let cut = path.take(a + 1) + path.skip(b + 1);
            assert(cut.len() == path.len() - (b - a));
            assert forall|n: int| 1 <= n < cut.len() implies #[trigger] self.step_ok(cut, n) by {
                if n <= a {
                    assert(self.step_ok(path, n));
                    assert(cut[n] == path[n]);
                    assert(cut[n - 1] == path[n - 1]);
                } else {
                    assert(self.step_ok(path, n + (b - a)));
                    assert(cut[n] == path[n + (b - a)]);
                    if n == a + 1 {
                        assert(cut[n - 1] == path[a]);
                    } else {
                        assert(cut[n - 1] == path[n - 1 + (b - a)]);
                    }
                }
            }
            assert(cut[0] == path[0]);
            if b == path.len() - 1 {
                assert(cut.last() == path[a]);
            } else {
                assert(cut.last() == path.last());
            }
            assert(self.walk_between(from, to, cut));
            self.lemma_simple_walk_exists(from, to, cut);
            let simple = choose|simple: Seq<Position>| #[trigger]
                self.simple_walk(from, to, simple) && (simple == cut || simple.len() < cut.len());
            assert(self.simple_walk(from, to, simple) && (simple == path || simple.len()
                < path.len()));
        }
    }
}

impl GridView {
    /// Whether `way` is a way that the search may follow: a walk from
    /// `from` that passes no position twice and does not reach `to`.
    pub open spec fn is_candidate(&self, from: Position, to: Position, way: Seq<Position>) -> bool {
        &&& self.is_walk(way)
        &&& way[0] == from
        &&& way.no_duplicates()
        &&& !way.contains(to)
    }

    /// Whether the search may go on from the end of `way`: it is the start,
    /// or its cell is empty.
    pub open spec fn open_ended(&self, way: Seq<Position>) -> bool {
        way.len() == 1 || self.cells[way.last()] == Cell::Empty
    }

    /// A way that the search may follow is no longer than the grid has
    /// cells, its start not counted.
    pub proof fn lemma_candidate_length(&self, from: Position, to: Position, way: Seq<Position>)
        requires
            self.is_candidate(from, to, way),
        ensures
            way.len() <= self.width * self.height + 1,
    {
        let width = self.width as int;
        let height = self.height as int;
        let places = Seq::new((way.len() - 1) as nat, |i: int| cell_index(width, way[i + 1]));
        assert forall|i: int, j: int|
            0 <= i < places.len() && 0 <= j < places.len() && i != j implies places[i]
            != places[j] by {
            assert(self.step_ok(way, i + 1));
            assert(self.step_ok(way, j + 1));
            if places[i] == places[j] {
                lemma_cell_index_injective(width, way[i + 1], way[j + 1]);
            }
        }
        places.unique_seq_to_set();
        crate::grid::lemma_size_product(width, height);
        vstd::set_lib::lemma_int_range(0, width * height);
        assert forall|place: int| places.to_set().contains(place) implies vstd::set_lib::set_int_range(
            0,
            width * height,
        ).contains(place) by {
            let i = choose|i: int| 0 <= i < places.len() && places[i] == place;
            assert(self.step_ok(way, i + 1));
            lemma_cell_index_bound(width, height, way[i + 1]);
        }
        vstd::set_lib::lemma_len_subset(
            places.to_set(),
            vstd::set_lib::set_int_range(0, width * height),
        );
    }

    /// A way that the search may follow, without its last position, is one
    /// too.
    pub proof fn lemma_candidate_prefix(&self, from: Position, to: Position, way: Seq<Position>)
        requires
            self.is_walk(way),
            way[0] == from,
            way.no_duplicates(),
            !way.drop_last().contains(to),
            way.len() >= 2,
        ensures
            self.is_candidate(from, to, way.drop_last()),
    {
        let shorter = way.drop_last();
        assert forall|i: int| 1 <= i < shorter.len() implies #[trigger] self.step_ok(shorter, i) by {
            assert(self.step_ok(way, i));
        }
        assert forall|i: int, j: int|
            0 <= i < shorter.len() && 0 <= j < shorter.len() && i != j implies shorter[i]
            != shorter[j] by {
            assert(way[i] != way[j]);
        }
    }

    /// One more step at the open end of a way that the search may follow
    /// makes a walk.
    pub proof fn lemma_candidate_step(
        &self,
        from: Position,
        to: Position,
        way: Seq<Position>,
        pos: Position,
    )
        requires
            self.is_candidate(from, to, way),
            self.open_ended(way),
            self.in_grid(pos),
            adjacent(way.last(), pos),
        ensures
            self.is_walk(way.push(pos)),
            way.push(pos)[0] == from,
            way.push(pos).drop_last() == way,
            !way.contains(pos) ==> way.push(pos).no_duplicates(),
    {
        let longer = way.push(pos);
        assert forall|i: int| 1 <= i < longer.len() implies #[trigger] self.step_ok(longer, i) by {
            if i < way.len() {
                assert(self.step_ok(way, i));
                assert(longer[i] == way[i]);
                assert(longer[i - 1] == way[i - 1]);
            }
        }
        assert(longer.drop_last() =~= way);
        if !way.contains(pos) {
            lemma_push_no_duplicates(way, pos);
        }
    }

    /// The state of a search for the shortest walks from `from` to `to`.
    /// `queue` holds the ways yet to be followed, each with its length;
    /// `done` are the ways followed, none of them longer than `depth`;
    /// `found` are the walks to `to` found so far, all one step longer than
    /// `depth`; `skip`, if any, is the way that is being followed now. Every
    /// step on from another way followed has given a way that is queued or
    /// followed, or a walk found.
    #[verifier::opaque]
    pub open spec fn searching(
        &self,
        from: Position,
        to: Position,
        queue: Map<Seq<Position>, usize>,
        found: Seq<Seq<Position>>,
        done: Set<Seq<Position>>,
        depth: int,
        skip: Option<Seq<Position>>,
    ) -> bool {
        &&& from != to
        &&& forall|way: Seq<Position>| #[trigger]
            queue.contains_key(way) ==> self.is_candidate(from, to, way) && queue[way] == way.len()
                && way.len() >= depth
        &&& forall|way: Seq<Position>| #[trigger] done.contains(way) ==> way.len() <= depth
        &&& queue.contains_key(seq![from]) || done.contains(seq![from])
        &&& forall|way: Seq<Position>|
            #![trigger self.is_candidate(from, to, way)]
            self.is_candidate(from, to, way) && way.len() >= 2 && done.contains(way.drop_last())
                && Some(way.drop_last()) != skip ==> queue.contains_key(way) || done.contains(way)
        &&& forall|way: Seq<Position>|
            #![trigger self.simple_walk(from, to, way)]
            self.simple_walk(from, to, way) && done.contains(way.drop_last()) && Some(
                way.drop_last(),
            ) != skip ==> found.contains(way)
        &&& forall|i: int|
            0 <= i < found.len() ==> self.walk_between(from, to, #[trigger] found[i])
                && found[i].len() == depth + 1
    }

    /// Whether direction `j` from the end of `way` is dealt with: if it
    /// leads to `to`, the walk is found; if it leads to another position of
    /// the grid that `way` does not pass, the longer way is queued or
    /// followed.
    pub open spec fn direction_handled(
        &self,
        to: Position,
        queue: Map<Seq<Position>, usize>,
        found: Seq<Seq<Position>>,
        done: Set<Seq<Position>>,
        way: Seq<Position>,
        j: int,
    ) -> bool {
        let ahead = step(way.last(), direction_at(j));
        let pos = position_at(ahead);
        self.holds(ahead) ==> {
            &&& pos == to ==> found.contains(way.push(pos))
            &&& pos != to && !way.contains(pos) ==> queue.contains_key(way.push(pos))
                || done.contains(way.push(pos))
        }
    }

    /// The search starts with the way that is just `from`.
    pub proof fn lemma_searching_start(
        &self,
        from: Position,
        to: Position,
        queue: Map<Seq<Position>, usize>,
    )
        requires
            from != to,
            queue == Map::<Seq<Position>, usize>::empty().insert(seq![from], 1usize),
        ensures
            self.searching(from, to, queue, Seq::empty(), Set::empty(), 1, None),
    {
        reveal(GridView::searching);
        let first = seq![from];
        assert(first[0] == from);
        assert forall|way: Seq<Position>| #[trigger] queue.contains_key(way) implies self.is_candidate(
            from,
            to,
            way,
        ) && queue[way] == way.len() && way.len() >= 1 by {
            assert(way == first);
            if first.contains(to) {
                let i = choose|i: int| 0 <= i < first.len() && first[i] == to;
            }
        }
    }
}

impl GridView {
    /// Taking the shortest way out of the queue makes it the way that is
    /// being followed, unless walks are found already that it cannot match.
    pub proof fn lemma_searching_pop(
        &self,
        from: Position,
        to: Position,
        queue: Map<Seq<Position>, usize>,
        found: Seq<Seq<Position>>,
        done: Set<Seq<Position>>,
        depth: int,
        way: Seq<Position>,
    )
        requires
            self.searching(from, to, queue, found, done, depth, None),
            queue.contains_key(way),
            forall|other: Seq<Position>| #[trigger]
                queue.contains_key(other) ==> queue[way] <= queue[other],
            found.len() == 0 || way.len() + 1 <= found[0].len(),
        ensures
            self.searching(
                from,
                to,
                queue.remove(way),
                found,
                done.insert(way),
                way.len() as int,
                Some(way),
            ),
            self.is_candidate(from, to, way),
    {
        reveal(GridView::searching);
        let queue2 = queue.remove(way);
        let done2 = done.insert(way);
        let depth2 = way.len() as int;
        assert(self.is_candidate(from, to, way) && depth <= depth2);
        assert forall|other: Seq<Position>| #[trigger] queue2.contains_key(other) implies self.is_candidate(
            from,
            to,
            other,
        ) && queue2[other] == other.len() && other.len() >= depth2 by {
            assert(queue.contains_key(other));
        }
        assert forall|i: int| 0 <= i < found.len() implies self.walk_between(
            from,
            to,
            #[trigger] found[i],
        ) && found[i].len() == depth2 + 1 by {
            assert(found[0].len() == depth + 1);
        }
        assert forall|other: Seq<Position>|
            #![trigger self.is_candidate(from, to, other)]
            self.is_candidate(from, to, other) && other.len() >= 2 && done2.contains(
                other.drop_last(),
            ) && Some(other.drop_last()) != Some(way) implies queue2.contains_key(other)
            || done2.contains(other) by {
            assert(done.contains(other.drop_last()));
        }
    }

    /// No way goes on from a way whose end is neither the start nor empty.
    pub proof fn lemma_searching_dead_end(
        &self,
        from: Position,
        to: Position,
        queue: Map<Seq<Position>, usize>,
        found: Seq<Seq<Position>>,
        done: Set<Seq<Position>>,
        depth: int,
        way: Seq<Position>,
    )
        requires
            self.searching(from, to, queue, found, done, depth, Some(way)),
            !self.open_ended(way),
        ensures
            self.searching(from, to, queue, found, done, depth, None),
    {
        reveal(GridView::searching);
        assert forall|other: Seq<Position>|
            #![trigger self.is_candidate(from, to, other)]
            self.is_candidate(from, to, other) && other.len() >= 2 && done.contains(
                other.drop_last(),
            ) implies queue.contains_key(other) || done.contains(other) by {
            if other.drop_last() == way {
                assert(self.step_ok(other, other.len() - 2));
            }
        }
        assert forall|other: Seq<Position>|
            #![trigger self.simple_walk(from, to, other)]
            self.simple_walk(from, to, other) && done.contains(other.drop_last()) implies found.contains(
            other,
        ) by {
            if other.drop_last() == way {
                assert(self.step_ok(other, other.len() - 2));
            }
        }
    }

    /// A step from the open end of the way that is being followed to `to`
    /// gives a walk found.
    pub proof fn lemma_searching_found(
        &self,
        from: Position,
        to: Position,
        queue: Map<Seq<Position>, usize>,
        found: Seq<Seq<Position>>,
        done: Set<Seq<Position>>,
        way: Seq<Position>,
    )
        requires
            self.searching(from, to, queue, found, done, way.len() as int, Some(way)),
            self.is_candidate(from, to, way),
            self.open_ended(way),
            self.in_grid(to),
            adjacent(way.last(), to),
        ensures
            self.searching(
                from,
                to,
                queue,
                found.push(way.push(to)),
                done,
                way.len() as int,
                Some(way),
            ),
            self.walk_between(from, to, way.push(to)),
    {
        reveal(GridView::searching);
        self.lemma_candidate_step(from, to, way, to);
        let found2 = found.push(way.push(to));
        assert forall|i: int| 0 <= i < found2.len() implies self.walk_between(
            from,
            to,
            #[trigger] found2[i],
        ) && found2[i].len() == way.len() + 1 by {
            if i < found.len() {
                assert(found2[i] == found[i]);
            }
        }
        assert forall|other: Seq<Position>|
            #![trigger self.simple_walk(from, to, other)]
            self.simple_walk(from, to, other) && done.contains(other.drop_last()) && Some(
                other.drop_last(),
            ) != Some(way) implies found2.contains(other) by {
            lemma_push_contains(found, way.push(to), other);
        }
    }

    /// A step from the open end of the way that is being followed to a
    /// position that it does not pass gives a way to be queued.
    pub proof fn lemma_searching_queue(
        &self,
        from: Position,
        to: Position,
        queue: Map<Seq<Position>, usize>,
        found: Seq<Seq<Position>>,
        done: Set<Seq<Position>>,
        way: Seq<Position>,
        pos: Position,
    )
        requires
            self.searching(from, to, queue, found, done, way.len() as int, Some(way)),
            self.is_candidate(from, to, way),
            self.open_ended(way),
            self.in_grid(pos),
            adjacent(way.last(), pos),
            pos != to,
            !way.contains(pos),
            way.len() + 1 <= usize::MAX,
        ensures
            self.searching(
                from,
                to,
                queue.insert(way.push(pos), (way.len() + 1) as usize),
                found,
                done,
                way.len() as int,
                Some(way),
            ),
            self.is_candidate(from, to, way.push(pos)),
    {
        reveal(GridView::searching);
        self.lemma_candidate_step(from, to, way, pos);
        let longer = way.push(pos);
        lemma_push_contains(way, pos, to);
        assert(self.is_candidate(from, to, longer));
        let queue2 = queue.insert(longer, (way.len() + 1) as usize);
        assert forall|other: Seq<Position>| #[trigger] queue2.contains_key(other) implies self.is_candidate(
            from,
            to,
            other,
        ) && queue2[other] == other.len() && other.len() >= way.len() by {
            if other != longer {
                assert(queue.contains_key(other));
            }
        }
        assert(longer.len() >= 2);
        if queue.contains_key(seq![from]) {
            assert(queue2.contains_key(seq![from]));
        }
    }

    /// Once every direction from the end of the way that is being followed
    /// is dealt with, the search is done with it.
    pub proof fn lemma_searching_close(
        &self,
        from: Position,
        to: Position,
        queue: Map<Seq<Position>, usize>,
        found: Seq<Seq<Position>>,
        done: Set<Seq<Position>>,
        depth: int,
        way: Seq<Position>,
    )
        requires
            self.searching(from, to, queue, found, done, depth, Some(way)),
            way.len() >= 1,
            forall|j: int|
                0 <= j < 4 ==> #[trigger] self.direction_handled(to, queue, found, done, way, j),
        ensures
            self.searching(from, to, queue, found, done, depth, None),
    {
        reveal(GridView::searching);
        assert forall|other: Seq<Position>|
            #![trigger self.is_candidate(from, to, other)]
            self.is_candidate(from, to, other) && other.len() >= 2 && done.contains(
                other.drop_last(),
            ) implies queue.contains_key(other) || done.contains(other) by {
            if other.drop_last() == way {
                let pos = other.last();
                assert(self.step_ok(other, other.len() - 1));
                assert(other[other.len() - 2] == way.last());
                lemma_adjacent_step(way.last(), pos);
                let j = choose|j: int|
                    0 <= j < 4 && #[trigger] step(way.last(), direction_at(j)) == (MaybePosition {
                        x: pos.x as i16,
                        y: pos.y as i16,
                    });
                assert(self.direction_handled(to, queue, found, done, way, j));
                assert(position_at(step(way.last(), direction_at(j))) == pos);
                assert(other =~= way.push(pos));
                if way.contains(pos) {
                    let i = choose|i: int| 0 <= i < way.len() && way[i] == pos;
                    assert(other[i] == other[other.len() - 1]);
                }
                assert(other[other.len() - 1] == pos);
            }
        }
        assert forall|other: Seq<Position>|
            #![trigger self.simple_walk(from, to, other)]
            self.simple_walk(from, to, other) && done.contains(other.drop_last()) implies found.contains(
            other,
        ) by {
            if other.drop_last() == way {
                assert(other.len() >= 2);
                assert(self.step_ok(other, other.len() - 1));
                assert(other[other.len() - 2] == way.last());
                lemma_adjacent_step(way.last(), to);
                let j = choose|j: int|
                    0 <= j < 4 && #[trigger] step(way.last(), direction_at(j)) == (MaybePosition {
                        x: to.x as i16,
                        y: to.y as i16,
                    });
                assert(self.direction_handled(to, queue, found, done, way, j));
                assert(position_at(step(way.last(), direction_at(j))) == to);
                assert(other =~= way.push(to));
            }
        }
    }

    /// Every way that the search may follow and that is shorter than all
    /// the ways queued has been followed.
    pub proof fn lemma_searching_followed(
        &self,
        from: Position,
        to: Position,
        queue: Map<Seq<Position>, usize>,
        found: Seq<Seq<Position>>,
        done: Set<Seq<Position>>,
        depth: int,
        way: Seq<Position>,
    )
        requires
            self.searching(from, to, queue, found, done, depth, None),
            self.is_candidate(from, to, way),
            forall|other: Seq<Position>| #[trigger]
                queue.contains_key(other) ==> way.len() < other.len(),
        ensures
            done.contains(way),
        decreases way.len(),
    {
        reveal(GridView::searching);
        if way.len() == 1 {
            assert(way =~= seq![from]);
        } else {
            if way.drop_last().contains(to) {
                let i = choose|i: int| 0 <= i < way.drop_last().len() && way.drop_last()[i] == to;
                assert(way[i] == to);
            }
            self.lemma_candidate_prefix(from, to, way);
            self.lemma_searching_followed(from, to, queue, found, done, depth, way.drop_last());
        }
    }

    /// When the search ends, for want of ways to follow or because the ways
    /// left are too long, the walks found are all of one length, they are
    /// the shortest from `from` to `to`, and no other walk is as short.
    pub proof fn lemma_searching_exit(
        &self,
        from: Position,
        to: Position,
        queue: Map<Seq<Position>, usize>,
        found: Seq<Seq<Position>>,
        done: Set<Seq<Position>>,
        depth: int,
        other: Seq<Position>,
    )
        requires
            self.searching(from, to, queue, found, done, depth, None),
            queue.dom() == Set::<Seq<Position>>::empty() || (found.len() > 0 && forall|
                way: Seq<Position>,
            | #[trigger] queue.contains_key(way) ==> way.len() + 1 > found[0].len()),
            self.walk_between(from, to, other),
        ensures
            found.len() > 0,
            found[0].len() <= other.len(),
            other.len() == found[0].len() ==> found.contains(other),
            forall|i: int| 0 <= i < found.len() ==> (#[trigger] found[i]).len() == found[0].len(),
            forall|i: int| 0 <= i < found.len() ==> self.walk_between(from, to, #[trigger] found[i]),
    {
        self.lemma_simple_walk_exists(from, to, other);
        let simple = choose|simple: Seq<Position>| #[trigger]
            self.simple_walk(from, to, simple) && (simple == other || simple.len() < other.len());
        reveal(GridView::searching);
        assert(simple.len() >= 2) by {
            if simple.len() == 1 {
                assert(simple[0] == from && simple.last() == to);
            }
        }
        if simple.drop_last().contains(to) {
            let i = choose|i: int| 0 <= i < simple.drop_last().len() && simple.drop_last()[i] == to;
            assert(simple[i] == simple[simple.len() - 1]);
        }
        self.lemma_candidate_prefix(from, to, simple);
        if queue.dom() == Set::<Seq<Position>>::empty() {
            assert forall|way: Seq<Position>| #[trigger] queue.contains_key(way) implies simple.len()
                - 1 < way.len() by {
                assert(queue.dom().contains(way));
            }
            self.lemma_searching_followed(from, to, queue, found, done, depth, simple.drop_last());
            assert(found.contains(simple));
        } else {
            if simple.len() <= found[0].len() {
                self.lemma_searching_followed(
                    from,
                    to,
                    queue,
                    found,
                    done,
                    depth,
                    simple.drop_last(),
                );
                assert(found.contains(simple));
            }
        }
        assert(found[0].len() == depth + 1);
        if found.contains(simple) {
            let i = choose|i: int| 0 <= i < found.len() && found[i] == simple;
            assert(found[i].len() == depth + 1);
        }
    }
}

/// Five to the power of `e`, and one for a negative `e`.
pub open spec fn pow5(e: int) -> nat
    decreases e,
{
    if e <= 0 {
        1
    } else {
        5 * pow5(e - 1)
    }
}

/// What a queued way weighs in the measure of the search: the shorter the
/// way, the more.
pub open spec fn weight(way: Seq<Position>, top: int) -> nat {
    pow5(top - way.len())
}

/// The weights of the ways of `pending` together.
pub open spec fn weight_sum(pending: Seq<Seq<Position>>, top: int) -> nat
    decreases pending.len(),
{
    if pending.len() == 0 {
        0
    } else {
        weight_sum(pending.drop_last(), top) + weight(pending.last(), top)
    }
}

/// `unit` taken `k` times.
pub open spec fn times(k: int, unit: nat) -> nat
    decreases k,
{
    if k <= 0 {
        0
    } else {
        times(k - 1, unit) + unit
    }
}

/// A power of five is at least one.
pub proof fn lemma_pow5_positive(e: int)
    ensures
        pow5(e) >= 1,
    decreases e,
{
    if e > 0 {
        lemma_pow5_positive(e - 1);
    }
}

/// Taking a way out of a list takes its weight off the sum, and leaves the
/// other ways in the list.
pub proof fn lemma_weight_sum_remove(pending: Seq<Seq<Position>>, top: int, i: int)
    requires
        0 <= i < pending.len(),
    ensures
        weight_sum(pending.remove(i), top) + weight(pending[i], top) == weight_sum(pending, top),
        forall|way: Seq<Position>|
            pending.contains(way) && way != pending[i] ==> #[trigger] pending.remove(i).contains(
                way,
            ),
    decreases pending.len(),
{
    if i == pending.len() - 1 {
        assert(pending.remove(i) =~= pending.drop_last());
    } else {
        assert(pending.remove(i).drop_last() =~= pending.drop_last().remove(i));
        assert(pending.remove(i).last() == pending.last());
        lemma_weight_sum_remove(pending.drop_last(), top, i);
    }
    assert forall|way: Seq<Position>| pending.contains(way) && way != pending[i] implies #[trigger] pending.remove(
        i,
    ).contains(way) by {
        let j = choose|j: int| 0 <= j < pending.len() && pending[j] == way;
        if j < i {
            assert(pending.remove(i)[j] == way);
        } else {
            assert(pending.remove(i)[j - 1] == way);
        }
    }
}

/// The ways of `found` as plain values.
pub open spec fn ways(found: Seq<Vec<Position>>) -> Seq<Seq<Position>> {
    found.map_values(|way: Vec<Position>| way@)
}

/// The way `way` with `pos` at its end.
pub fn extended(way: &Vec<Position>, pos: Position) -> (longer: Vec<Position>)
    ensures
        longer@ == way@.push(pos),
{
    let mut longer: Vec<Position> = Vec::new();
    let mut i: usize = 0;
    while i < way.len()
        invariant
            i <= way@.len(),
            longer@ == way@.take(i as int),
        decreases way@.len() - i,
    {
        longer.push(way[i]);
        assert(longer@ =~= way@.take(i + 1));
        i = i + 1;
    }
    assert(way@.take(i as int) =~= way@);
    longer.push(pos);
    longer
}

/// Whether `way` passes `pos`.
pub fn passes(way: &Vec<Position>, pos: Position) -> (passed: bool)
    ensures
        passed == way@.contains(pos),
{
    let mut i: usize = 0;
    while i < way.len()
        invariant
            i <= way@.len(),
            forall|j: int| 0 <= j < i ==> way@[j] != pos,
        decreases way@.len() - i,
    {
        if way[i] == pos {
            return true;
        }
        i = i + 1;
    }
    false
}

impl GridView {
    /// What is dealt with stays so when more ways are queued and more
    /// walks found.
    pub proof fn lemma_direction_handled_grows(
        &self,
        to: Position,
        queue: Map<Seq<Position>, usize>,
        found: Seq<Seq<Position>>,
        done: Set<Seq<Position>>,
        way: Seq<Position>,
        j: int,
        queue2: Map<Seq<Position>, usize>,
        found2: Seq<Seq<Position>>,
    )
        requires
            self.direction_handled(to, queue, found, done, way, j),
            forall|other: Seq<Position>|
                queue.contains_key(other) ==> #[trigger] queue2.contains_key(other),
            forall|other: Seq<Position>| found.contains(other) ==> #[trigger] found2.contains(other),
        ensures
            self.direction_handled(to, queue2, found2, done, way, j),
    {
    }
}

impl Grid {
    /// The shortest walks from `from` to `to`: ways are followed from
    /// `from`, the shortest first, each a step further in every direction,
    /// until no way is left that could still give a walk as short as those
    /// found.
    pub fn shortest_walks(&self, from: Position, to: Position) -> (found: Vec<Vec<Position>>)
        requires
            self.wf(),
            from != to,
            self@.connected(from, to),
        ensures
            ways(found@).len() > 0,
            forall|i: int|
                0 <= i < ways(found@).len() ==> self@.walk_between(from, to, #[trigger] ways(found@)[i])
                    && ways(found@)[i].len() == ways(found@)[0].len(),
            forall|other: Seq<Position>| #[trigger]
                self@.walk_between(from, to, other) ==> ways(found@)[0].len() <= other.len() && (
                other.len() == ways(found@)[0].len() ==> ways(found@).contains(other)),
    {
        let directions = Direction::all();
        let mut shortest_paths: Vec<Vec<Position>> = Vec::new();
        let mut candidates = queue_new();
        let mut first: Vec<Position> = Vec::new();
        first.push(from);
        queue_push(&mut candidates, first, 1);
        let ghost top = self.spec_width() * self.spec_height() + 2;
        let ghost mut queue = queued(candidates);
        let ghost mut done = Set::<Seq<Position>>::empty();
        let ghost mut depth: int = 1;
        let ghost mut pending = seq![seq![from]];
        let mut going = true;
        proof {
            assert(first@ =~= seq![from]);
            assert(queue =~= Map::<Seq<Position>, usize>::empty().insert(seq![from], 1usize));
            self@.lemma_searching_start(from, to, queue);
            assert(ways(shortest_paths@) =~= Seq::<Seq<Position>>::empty());
            assert(pending[0] == seq![from]);
        }
        while going
            invariant
                self.wf(),
                from != to,
                top == self.spec_width() * self.spec_height() + 2,
                directions@.len() == 4,
                forall|k: int| 0 <= k < 4 ==> directions@[k] == direction_at(k),
                self@.searching(from, to, queue, ways(shortest_paths@), done, depth, None),
                going ==> queue == queued(candidates),
                going ==> forall|way: Seq<Position>| #[trigger]
                    queue.contains_key(way) ==> pending.contains(way),
                !going ==> queue.dom() == Set::<Seq<Position>>::empty() || (ways(
                    shortest_paths@,
                ).len() > 0 && forall|way: Seq<Position>| #[trigger]
                    queue.contains_key(way) ==> way.len() + 1 > ways(shortest_paths@)[0].len()),
            decreases
                    weight_sum(pending, top) + if going {
                        1nat
                    } else {
                        0nat
                    },
        {
            let ghost measure = weight_sum(pending, top);
            match queue_pop(&mut candidates) {
                None => {
                    going = false;
                },
                Some((candidate, length)) => {
                    proof {
                        reveal(GridView::searching);
                        assert(queue.contains_key(candidate@));
                        assert(self@.is_candidate(from, to, candidate@));
                        assert(length == candidate@.len());
                        self@.lemma_candidate_length(from, to, candidate@);
                        crate::grid::lemma_size_product(
                            self.spec_width() as int,
                            self.spec_height() as int,
                        );
                    }
                    if shortest_paths.len() > 0 && shortest_paths[0].len() < candidate.len() + 1 {
                        proof {
                            assert(ways(shortest_paths@)[0] == shortest_paths@[0]@);
                            assert forall|way: Seq<Position>| #[trigger]
                                queue.contains_key(way) implies way.len() + 1 > ways(
                                shortest_paths@,
                            )[0].len() by {
                                assert(queue[way] == way.len());
                            }
                        }
                        going = false;
                    } else {
                        proof {
                            if shortest_paths@.len() > 0 {
                                assert(ways(shortest_paths@)[0] == shortest_paths@[0]@);
                            }
                            self@.lemma_searching_pop(
                                from,
                                to,
                                queue,
                                ways(shortest_paths@),
                                done,
                                depth,
                                candidate@,
                            );
                            let i = choose|i: int|
                                0 <= i < pending.len() && pending[i] == candidate@;
                            lemma_weight_sum_remove(pending, top, i);
                            assert forall|way: Seq<Position>| #[trigger]
                                queue.remove(candidate@).contains_key(way) implies pending.remove(
                                i,
                            ).contains(way) by {
                                assert(queue.contains_key(way));
                            }
                            pending = pending.remove(i);
                            queue = queue.remove(candidate@);
                            done = done.insert(candidate@);
                            depth = candidate@.len() as int;
                            lemma_pow5_positive(top - candidate@.len());
                        }
                        let head = candidate[candidate.len() - 1];
                        proof {
                            if head == from && candidate@.len() > 1 {
                                assert(candidate@[0] == candidate@[candidate@.len() - 1]);
                            }
                            if candidate@.len() > 1 {
                                assert(self@.step_ok(candidate@, candidate@.len() - 1));
                            }
                        }
                        if head != from && self.cell(&head) != Cell::Empty {
                            proof {
                                self@.lemma_searching_dead_end(
                                    from,
                                    to,
                                    queue,
                                    ways(shortest_paths@),
                                    done,
                                    depth,
                                    candidate@,
                                );
                            }
                        } else {
                            let ghost unit = pow5(top - candidate@.len() - 1);
                            let ghost base = weight_sum(pending, top);
                            let mut k: usize = 0;
                            while k < 4
                                invariant
                                    k <= 4,
                                    self.wf(),
                                    from != to,
                                    top == self.spec_width() * self.spec_height() + 2,
                                    directions@.len() == 4,
                                    forall|k: int| 0 <= k < 4 ==> directions@[k] == direction_at(k),
                                    self@.searching(
                                        from,
                                        to,
                                        queue,
                                        ways(shortest_paths@),
                                        done,
                                        candidate@.len() as int,
                                        Some(candidate@),
                                    ),
                                    self@.is_candidate(from, to, candidate@),
                                    self@.open_ended(candidate@),
                                    candidate@.len() <= top - 1,
                                    top <= 65027,
                                    head == candidate@.last(),
                                    queue == queued(candidates),
                                    forall|way: Seq<Position>| #[trigger]
                                        queue.contains_key(way) ==> pending.contains(way),
                                    forall|j: int|
                                        0 <= j < k ==> #[trigger] self@.direction_handled(
                                            to,
                                            queue,
                                            ways(shortest_paths@),
                                            done,
                                            candidate@,
                                            j,
                                        ),
                                    unit == pow5(top - candidate@.len() - 1),
                                    weight_sum(pending, top) <= base + times(k as int, unit),
                                decreases 4 - k,
                            {
                                let ghost queue_before = queue;
                                let ghost found_before = ways(shortest_paths@);
                                let to_check = MaybePosition::new(&head, &directions[k]);
                                match self.is_in_grid(to_check) {
                                    None => {},
                                    Some(pos) => {
                                        if pos == to {
                                            let valid_path = extended(&candidate, pos);
                                            proof {
                                                self@.lemma_searching_found(
                                                    from,
                                                    to,
                                                    queue,
                                                    ways(shortest_paths@),
                                                    done,
                                                    candidate@,
                                                );
                                            }
                                            shortest_paths.push(valid_path);
                                            proof {
                                                assert(ways(shortest_paths@) =~= found_before.push(
                                                    candidate@.push(to),
                                                ));
                                            }
                                        } else if !passes(&candidate, pos) {
                                            let new_candidate = extended(&candidate, pos);
                                            let priority = new_candidate.len();
                                            proof {
                                                self@.lemma_searching_queue(
                                                    from,
                                                    to,
                                                    queue,
                                                    ways(shortest_paths@),
                                                    done,
                                                    candidate@,
                                                    pos,
                                                );
                                                assert(pending.push(new_candidate@).drop_last()
                                                    =~= pending);
                                                assert forall|way: Seq<Position>| #[trigger]
                                                    queue.insert(
                                                        new_candidate@,
                                                        priority,
                                                    ).contains_key(way) implies pending.push(
                                                    new_candidate@,
                                                ).contains(way) by {
                                                    lemma_push_contains(
                                                        pending,
                                                        new_candidate@,
                                                        way,
                                                    );
                                                }
                                                pending = pending.push(new_candidate@);
                                                queue = queue.insert(new_candidate@, priority);
                                            }
                                            queue_push(&mut candidates, new_candidate, priority);
                                        }
                                    },
                                }
                                proof {
                                    let found_now = ways(shortest_paths@);
                                    assert forall|other: Seq<Position>|
                                        found_before.contains(other) implies #[trigger] found_now.contains(
                                        other,
                                    ) by {
                                        if found_now != found_before {
                                            lemma_push_contains(
                                                found_before,
                                                candidate@.push(to),
                                                other,
                                            );
                                        }
                                    }
                                    assert forall|j: int| 0 <= j < k + 1 implies #[trigger] self@.direction_handled(
                                        to,
                                        queue,
                                        found_now,
                                        done,
                                        candidate@,
                                        j,
                                    ) by {
                                        if j < k {
                                            self@.lemma_direction_handled_grows(
                                                to,
                                                queue_before,
                                                found_before,
                                                done,
                                                candidate@,
                                                j,
                                                queue,
                                                found_now,
                                            );
                                        } else {
                                            if self@.holds(to_check) {
                                                let pos = position_at(to_check);
                                                if pos == to {
                                                    lemma_push_contains(
                                                        found_before,
                                                        candidate@.push(to),
                                                        candidate@.push(to),
                                                    );
                                                }
                                            }
                                        }
                                    }
                                }
                                k = k + 1;
                            }
                            proof {
                                self@.lemma_searching_close(
                                    from,
                                    to,
                                    queue,
                                    ways(shortest_paths@),
                                    done,
                                    depth,
                                    candidate@,
                                );
                                reveal_with_fuel(times, 5);
                                assert(times(4, unit) == unit + unit + unit + unit);
                                assert(pow5(top - candidate@.len()) == 5 * unit);
                                lemma_pow5_positive(top - candidate@.len() - 1);
                            }
                        }
                    }
                },
            }
        }
        proof {
            let found = ways(shortest_paths@);
            let path = choose|path: Seq<Position>| self@.walk_between(from, to, path);
            self@.lemma_searching_exit(from, to, queue, found, done, depth, path);
            assert forall|other: Seq<Position>| #[trigger]
                self@.walk_between(from, to, other) implies found[0].len() <= other.len() && (
            other.len() == found[0].len() ==> found.contains(other)) by {
                self@.lemma_searching_exit(from, to, queue, found, done, depth, other);
            }
        }
        shortest_paths
    }
}

/// A copy of `way`.
pub fn copy_way(way: &Vec<Position>) -> (copy: Vec<Position>)
    ensures
        copy@ == way@,
{
    let mut copy: Vec<Position> = Vec::new();
    let mut i: usize = 0;
    while i < way.len()
        invariant
            i <= way@.len(),
            copy@ == way@.take(i as int),
        decreases way@.len() - i,
    {
        copy.push(way[i]);
        assert(copy@ =~= way@.take(i + 1));
        i = i + 1;
    }
    assert(way@.take(i as int) =~= way@);
    copy
}

impl Grid {
    /// The most direct way from `from` to `to`: a walk from one to the other
    /// than which none is shorter, and none of the same length has fewer
    /// turns. The way from a position to itself is that position alone.
    /// There is no way where no walk leads from `from` to `to`.
    pub fn most_direct_path(&self, from: &Position, to: &Position) -> (path: Option<Vec<Position>>)
        requires
            self.wf(),
        ensures
            self@.connected(*from, *to) ==> path is Some && self@.most_direct(
                *from,
                *to,
                path->Some_0@,
            ),
            !self@.connected(*from, *to) ==> path is None,
            *from == *to ==> path is Some && path->Some_0@ == seq![*from],
    {
        if *from == *to {
            let mut path: Vec<Position> = Vec::new();
            path.push(*from);
            proof {
                assert(path@ =~= seq![*from]);
                self@.lemma_connected_self(*from);
                assert(self@.walk_between(*from, *to, path@));
                assert forall|other: Seq<Position>| #[trigger]
                    self@.walk_between(*from, *to, other) implies path@.len() <= other.len() && (
                other.len() == path@.len() ==> angles(path@) <= angles(other)) by {}
            }
            return Some(path);
        }
        if !self.path_exists(from, to) {
            return None;
        }
        let shortest_paths = self.shortest_walks(*from, *to);
        let ghost found = ways(shortest_paths@);
        proof {
            assert(found[0] == shortest_paths@[0]@);
            self@.lemma_walk_aligned(found[0]);
        }
        let mut best: usize = 0;
        let mut fewest = number_of_angles(&shortest_paths[0]);
        let mut i: usize = 1;
        while i < shortest_paths.len()
            invariant
                1 <= i <= shortest_paths@.len(),
                best < i,
                found == ways(shortest_paths@),
                forall|n: int| 0 <= n < found.len() ==> self@.walk_between(*from, *to, #[trigger] found[n]),
                fewest == angles(found[best as int]),
                forall|n: int| 0 <= n < i ==> fewest <= angles(#[trigger] found[n]),
            decreases shortest_paths@.len() - i,
        {
            proof {
                assert(found[i as int] == shortest_paths@[i as int]@);
                self@.lemma_walk_aligned(found[i as int]);
            }
            let turns = number_of_angles(&shortest_paths[i]);
            if turns < fewest {
                best = i;
                fewest = turns;
            }
            i = i + 1;
        }
        let path = copy_way(&shortest_paths[best]);
        proof {
            assert(path@ == found[best as int]);
            assert forall|other: Seq<Position>| #[trigger]
                self@.walk_between(*from, *to, other) implies path@.len() <= other.len() && (
            other.len() == path@.len() ==> angles(path@) <= angles(other)) by {
                if other.len() == path@.len() {
                    assert(found.contains(other));
                    let n = choose|n: int| 0 <= n < found.len() && found[n] == other;
                    assert(fewest <= angles(found[n]));
                }
            }
        }
        Some(path)
    }
}

/// The way from a position to itself is that position alone.
pub proof fn lemma_most_direct_self(grid: GridView, pos: Position, path: Seq<Position>)
    requires
        grid.most_direct(pos, pos, path),
    ensures
        path == seq![pos],
{
    assert(grid.walk_between(pos, pos, seq![pos]));
    assert(path =~= seq![pos]);
}

/// No most direct way leads between positions that no walk connects.
pub proof fn lemma_most_direct_connected(
    grid: GridView,
    from: Position,
    to: Position,
    path: Seq<Position>,
)
    requires
        grid.most_direct(from, to, path),
    ensures
        grid.connected(from, to),
{
}

} // verus!
