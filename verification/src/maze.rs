use std::collections::VecDeque;
use vstd::prelude::*;

verus! {

/// Processing state of a discovered cell. A cell moves forward through these
/// states (`Unhandled` to `InPriorityQueue` to `Handled`) and never back.
#[derive(Clone, Copy, Debug, PartialEq, Eq, Structural)]
pub enum FieldState {
    Unhandled,
    InPriorityQueue,
    Handled,
}

/// One of the four axis directions of the grid. Directions carry no order;
/// only equality matters (continuing straight versus turning).
#[derive(Clone, Copy, Debug, PartialEq, Eq, Structural)]
pub enum Direction {
    Up,
    Down,
    Left,
    Right,
}

/// A grid cell: a pair of non-negative coordinates. Identity is structural.
#[derive(Clone, Copy, Debug, PartialEq, Eq, Structural)]
pub struct Point {
    pub x: usize,
    pub y: usize,
}

impl Point {
    pub fn new(x: usize, y: usize) -> (r: Self)
        ensures
            r.x == x,
            r.y == y,
    {
        Self { x, y }
    }
}

/// Per-cell search metadata: the best known turn count, the direction of the
/// edge that produced it, and the cell's processing state. A cell that has
/// never been relaxed carries the sentinel `usize::MAX` as its turn count.
#[derive(Clone, Copy, Debug)]
pub struct MazeField {
    pub turns: usize,
    pub direction: Direction,
    pub state: FieldState,
}

impl MazeField {
    pub fn new(turns: usize, direction: Direction, state: FieldState) -> (r: Self)
        ensures
            r.turns == turns,
            r.direction == direction,
            r.state == state,
    {
        Self { turns, direction, state }
    }
}

/// One parsed answer item from the neighbor oracle: a neighboring cell and
/// whether the oracle marked that cell as the finish.
#[derive(Clone, Copy, Debug)]
pub struct NeighborReport {
    pub x: usize,
    pub y: usize,
    pub finish: bool,
}

impl NeighborReport {
    pub fn new(x: usize, y: usize, finish: bool) -> (r: Self)
        ensures
            r.x == x,
            r.y == y,
            r.finish == finish,
    {
        Self { x, y, finish }
    }

    /// The cell this report speaks of.
    pub open spec fn cell(self) -> Point {
        Point { x: self.x, y: self.y }
    }
}

/// The map a key-distinct association list denotes: later entries win,
/// though under `keys_distinct` every key occurs at most once anyway.
pub open spec fn store_map(s: Seq<(Point, MazeField)>) -> Map<Point, MazeField>
    decreases s.len(),
{
    if s.len() == 0 {
        Map::empty()
    } else {
        store_map(s.drop_last()).insert(s.last().0, s.last().1)
    }
}

/// No two entries of the association list share a cell.
pub open spec fn keys_distinct(s: Seq<(Point, MazeField)>) -> bool {
    forall|i: int, j: int| 0 <= i < j < s.len() ==> s[i].0 != s[j].0
}

proof fn lemma_keys_distinct_prefix(s: Seq<(Point, MazeField)>)
    requires
        keys_distinct(s),
        s.len() > 0,
    ensures
        keys_distinct(s.drop_last()),
{
    assert forall|i: int, j: int| 0 <= i < j < s.drop_last().len() implies s.drop_last()[i].0
        != s.drop_last()[j].0 by {
        assert(s.drop_last()[i] == s[i]);
        assert(s.drop_last()[j] == s[j]);
    }
}

proof fn lemma_keys_distinct_push(s: Seq<(Point, MazeField)>, p: Point, f: MazeField)
    requires
        keys_distinct(s),
        forall|i: int| 0 <= i < s.len() ==> s[i].0 != p,
    ensures
        keys_distinct(s.push((p, f))),
{
    let s2 = s.push((p, f));
    assert forall|i: int, j: int| 0 <= i < j < s2.len() implies s2[i].0 != s2[j].0 by {
        if j < s.len() {
            assert(s2[i] == s[i]);
            assert(s2[j] == s[j]);
        } else {
            assert(s2[i] == s[i]);
            assert(s2[j] == (p, f));
        }
    }
}

proof fn lemma_store_map_contains(s: Seq<(Point, MazeField)>, p: Point)
    ensures
        store_map(s).contains_key(p) <==> exists|i: int| 0 <= i < s.len() && s[i].0 == p,
    decreases s.len(),
{
    if s.len() == 0 {
    } else {
        lemma_store_map_contains(s.drop_last(), p);
        if s.last().0 == p {
            assert(s[s.len() - 1].0 == p);
        } else if store_map(s).contains_key(p) {
            let i = choose|i: int| 0 <= i < s.drop_last().len() && s.drop_last()[i].0 == p;
            assert(s[i].0 == p);
        } else {
            assert forall|i: int| 0 <= i < s.len() implies s[i].0 != p by {
                if i < s.len() - 1 {
                    assert(s.drop_last()[i] == s[i]);
                }
            }
        }
    }
}

proof fn lemma_store_map_index(s: Seq<(Point, MazeField)>, i: int)
    requires
        keys_distinct(s),
        0 <= i < s.len(),
    ensures
        store_map(s).contains_key(s[i].0),
        store_map(s)[s[i].0] == s[i].1,
    decreases s.len(),
{
    if i == s.len() - 1 {
    } else {
        lemma_keys_distinct_prefix(s);
        assert(s.drop_last()[i] == s[i]);
        lemma_store_map_index(s.drop_last(), i);
        assert(s.last().0 != s[i].0);
    }
}

proof fn lemma_store_map_push(s: Seq<(Point, MazeField)>, p: Point, f: MazeField)
    ensures
        store_map(s.push((p, f))) == store_map(s).insert(p, f),
{
    assert(s.push((p, f)).drop_last() =~= s);
    assert(s.push((p, f)).last() == (p, f));
}

proof fn lemma_store_map_update(s: Seq<(Point, MazeField)>, i: int, f: MazeField)
    requires
        keys_distinct(s),
        0 <= i < s.len(),
    ensures
        store_map(s.update(i, (s[i].0, f))) == store_map(s).insert(s[i].0, f),
        keys_distinct(s.update(i, (s[i].0, f))),
    decreases s.len(),
{
    let s2 = s.update(i, (s[i].0, f));
    assert forall|a: int, b: int| 0 <= a < b < s2.len() implies s2[a].0 != s2[b].0 by {
        assert(s2[a].0 == s[a].0);
        assert(s2[b].0 == s[b].0);
    }
    if i == s.len() - 1 {
        assert(s2.drop_last() =~= s.drop_last());
        assert(s2.last() == (s[i].0, f));
        assert(store_map(s2) == store_map(s.drop_last()).insert(s[i].0, f));
        assert(store_map(s).insert(s[i].0, f) =~= store_map(s2));
    } else {
        lemma_keys_distinct_prefix(s);
        assert(s.drop_last()[i] == s[i]);
        lemma_store_map_update(s.drop_last(), i, f);
        assert(s2.drop_last() =~= s.drop_last().update(i, (s[i].0, f)));
        assert(s2.last() == s.last());
        assert(store_map(s2) == store_map(s.drop_last()).insert(s[i].0, f).insert(
            s.last().0,
            s.last().1,
        ));
        assert(s.last().0 != s[i].0);
        assert(store_map(s2) =~= store_map(s).insert(s[i].0, f));
    }
}

/// Rank of a processing state in the one-way lifecycle
/// `Unhandled` -> `InPriorityQueue` -> `Handled`.
pub open spec fn status_rank(s: FieldState) -> int {
    match s {
        FieldState::Unhandled => 0,
        FieldState::InPriorityQueue => 1,
        FieldState::Handled => 2,
    }
}

/// `a` comes no later than `b` in the cell lifecycle.
pub open spec fn status_le(a: FieldState, b: FieldState) -> bool {
    status_rank(a) <= status_rank(b)
}

/// The record a cell is first discovered with: the infinity sentinel for its
/// turn count, an arbitrary direction, and state `Unhandled`.
pub open spec fn fresh_field() -> MazeField {
    MazeField { turns: usize::MAX, direction: Direction::Up, state: FieldState::Unhandled }
}

/// The cell one step from `p` in direction `d`, or `None` when the step
/// would leave the non-negative quadrant. Meaningful for coordinates below
/// `usize::MAX`, which every caller requires.
pub open spec fn step_target(p: Point, d: Direction) -> Option<Point> {
    match d {
        Direction::Down => Some(Point { x: p.x, y: (p.y + 1) as usize }),
        Direction::Up => if p.y == 0 {
            None
        } else {
            Some(Point { x: p.x, y: (p.y - 1) as usize })
        },
        Direction::Left => if p.x == 0 {
            None
        } else {
            Some(Point { x: (p.x - 1) as usize, y: p.y })
        },
        Direction::Right => Some(Point { x: (p.x + 1) as usize, y: p.y }),
    }
}

/// The turn-cost rule: continuing in the arrival direction costs nothing
/// more, changing direction costs one more turn.
pub open spec fn tentative_turns(cf: MazeField, d: Direction) -> int {
    if d == cf.direction {
        cf.turns as int
    } else {
        cf.turns + 1
    }
}

/// What one relaxation of the cell one step in direction `d` from a cell
/// with snapshot `cf` at `cp` does to the store `m` and the work list `q`:
/// nothing for a step off the grid, an undiscovered cell, or a `Handled`
/// cell; first discovery of a tentative cost for an `Unhandled` cell, which
/// then joins the work list; an in-place decrease for an `InPriorityQueue`
/// cell whose recorded cost the new tentative cost beats.
pub open spec fn relax_result(
    m: Map<Point, MazeField>,
    q: Seq<Point>,
    cp: Point,
    cf: MazeField,
    d: Direction,
) -> (Map<Point, MazeField>, Seq<Point>) {
    match step_target(cp, d) {
        None => (m, q),
        Some(n) => {
            if !m.contains_key(n) {
                (m, q)
            } else {
                let t = tentative_turns(cf, d);
                match m[n].state {
                    FieldState::Unhandled => (
                        m.insert(
                            n,
                            MazeField {
                                turns: t as usize,
                                direction: d,
                                state: FieldState::InPriorityQueue,
                            },
                        ),
                        q.push(n),
                    ),
                    FieldState::InPriorityQueue => if t < m[n].turns {
                        (
                            m.insert(
                                n,
                                MazeField {
                                    turns: t as usize,
                                    direction: d,
                                    state: FieldState::InPriorityQueue,
                                },
                            ),
                            q,
                        )
                    } else {
                        (m, q)
                    },
                    FieldState::Handled => (m, q),
                }
            }
        },
    }
}

/// What recording one oracle answer list does to the store: every reported
/// cell not yet discovered enters with the fresh record; cells already
/// discovered keep their record untouched.
pub open spec fn ingest_points(m: Map<Point, MazeField>, reports: Seq<NeighborReport>) -> Map<
    Point,
    MazeField,
>
    decreases reports.len(),
{
    if reports.len() == 0 {
        m
    } else {
        let m1 = if m.contains_key(reports[0].cell()) {
            m
        } else {
            m.insert(reports[0].cell(), fresh_field())
        };
        ingest_points(m1, reports.drop_first())
    }
}

/// What recording one oracle answer list does to the finish cell: the first
/// cell ever flagged wins; once set it never changes.
pub open spec fn ingest_finish(fin: Option<Point>, reports: Seq<NeighborReport>) -> Option<Point>
    decreases reports.len(),
{
    if reports.len() == 0 {
        fin
    } else {
        let f1 = if fin is Some {
            fin
        } else if reports[0].finish {
            Some(reports[0].cell())
        } else {
            None
        };
        ingest_finish(f1, reports.drop_first())
    }
}

/// The store after the just-popped cell `p` is marked `Handled`, its turn
/// count and arrival direction untouched.
pub open spec fn mark_handled(m: Map<Point, MazeField>, p: Point) -> Map<Point, MazeField> {
    m.insert(
        p,
        MazeField { turns: m[p].turns, direction: m[p].direction, state: FieldState::Handled },
    )
}

/// One whole relaxation pass around `cp` with snapshot `cf`: the four axis
/// directions in the fixed order Right, Left, Up, Down.
pub open spec fn relax_around(
    m: Map<Point, MazeField>,
    q: Seq<Point>,
    cp: Point,
    cf: MazeField,
) -> (Map<Point, MazeField>, Seq<Point>) {
    let r0 = relax_result(m, q, cp, cf, Direction::Right);
    let r1 = relax_result(r0.0, r0.1, cp, cf, Direction::Left);
    let r2 = relax_result(r1.0, r1.1, cp, cf, Direction::Up);
    relax_result(r2.0, r2.1, cp, cf, Direction::Down)
}

/// The whole mutable search state: the discovered-cell store, the FIFO work
/// list, the oracle's address, and the finish cell once the oracle has
/// flagged one.
pub struct Maze {
    points: Vec<(Point, MazeField)>,
    queue: VecDeque<Point>,
    endpoint: String,
    finish: Option<Point>,
}

impl Maze {
    /// The discovered cells and their metadata, as a mathematical map.
    pub closed spec fn points_map(&self) -> Map<Point, MazeField> {
        store_map(self.points@)
    }

    /// The pending work list, front first.
    pub closed spec fn queue_seq(&self) -> Seq<Point> {
        self.queue@
    }

    /// The finish cell, once the oracle has flagged one.
    pub closed spec fn finish_cell(&self) -> Option<Point> {
        self.finish
    }

    /// The oracle address this maze was created with.
    pub closed spec fn endpoint_str(&self) -> Seq<char> {
        self.endpoint@
    }

    /// Representation invariant of the store: one entry per cell.
    pub closed spec fn keys_unique(&self) -> bool {
        keys_distinct(self.points@)
    }

    /// Well-formedness, held by every maze built through this interface:
    /// the store keys are unique; the work list holds no duplicates; a cell
    /// stands in the work list if and only if its state is `InPriorityQueue`;
    /// and a flagged finish cell is a discovered cell.
    pub open spec fn wf(&self) -> bool {
        &&& self.keys_unique()
        &&& forall|i: int, j: int|
            0 <= i < j < self.queue_seq().len() ==> self.queue_seq()[i] != self.queue_seq()[j]
        &&& forall|i: int|
            0 <= i < self.queue_seq().len() ==> self.points_map().contains_key(
                #[trigger] self.queue_seq()[i],
            ) && self.points_map()[self.queue_seq()[i]].state == FieldState::InPriorityQueue
        &&& forall|p: Point|
            self.points_map().contains_key(p) && (#[trigger] self.points_map()[p]).state
                == FieldState::InPriorityQueue ==> self.queue_seq().contains(p)
        &&& match self.finish_cell() {
            Some(f) => self.points_map().contains_key(f),
            None => true,
        }
    }

    /// A fresh, empty maze that will query the oracle at `endpoint`.
    pub fn new(endpoint: String) -> (r: Self)
        ensures
            r.points_map() == Map::<Point, MazeField>::empty(),
            r.queue_seq() == Seq::<Point>::empty(),
            r.finish_cell() is None,
            r.endpoint_str() == endpoint@,
            r.wf(),
    {
        let r = Self { points: Vec::new(), queue: VecDeque::new(), endpoint, finish: None };
        proof {
            assert(r.queue_seq() =~= Seq::<Point>::empty());
        }
        r
    }

    /// Index of the store entry for `p`, if `p` has been discovered.
    fn find_index(&self, p: Point) -> (r: Option<usize>)
        ensures
            match r {
                Some(i) => i < self.points@.len() && self.points@[i as int].0 == p,
                None => forall|i: int| 0 <= i < self.points@.len() ==> self.points@[i].0 != p,
            },
    {
        let mut i: usize = 0;
        while i < self.points.len()
            invariant
                i <= self.points@.len(),
                forall|j: int| 0 <= j < i ==> self.points@[j].0 != p,
            decreases self.points@.len() - i,
        {
            if self.points[i].0 == p {
                return Some(i);
            }
            i = i + 1;
        }
        None
    }

    /// The metadata recorded for `p`, if `p` has been discovered.
    pub fn get_field(&self, p: Point) -> (r: Option<MazeField>)
        requires
            self.wf(),
        ensures
            self.points_map().contains_key(p) ==> r == Some(self.points_map()[p]),
            !self.points_map().contains_key(p) ==> r is None,
    {
        proof {
            lemma_store_map_contains(self.points@, p);
        }
        match self.find_index(p) {
            Some(i) => {
                proof {
                    lemma_store_map_index(self.points@, i as int);
                }
                Some(self.points[i].1)
            },
            None => None,
        }
    }

    /// The cell at the front of the work list, without removing it.
    pub fn queue_front(&self) -> (r: Option<Point>)
        ensures
            self.queue_seq().len() == 0 ==> r is None,
            self.queue_seq().len() > 0 ==> r == Some(self.queue_seq()[0]),
    {
        if self.queue.len() > 0 {
            Some(self.queue[0])
        } else {
            None
        }
    }

    /// How many cells wait in the work list.
    pub fn queue_len(&self) -> (r: usize)
        ensures
            r == self.queue_seq().len(),
    {
        self.queue.len()
    }

    /// The finish cell, if the oracle has flagged one so far.
    pub fn finish_point(&self) -> (r: Option<Point>)
        ensures
            r == self.finish_cell(),
    {
        self.finish
    }

    /// The oracle address this maze was created with.
    pub fn endpoint(&self) -> (r: &String)
        ensures
            r@ == self.endpoint_str(),
    {
        &self.endpoint
    }

    /// Seed the search: record `point` with `field` and put it on the work
    /// list. The caller hands a cell not yet discovered, in state
    /// `InPriorityQueue`, as the driver does with the start cell.
    pub fn insert_start(&mut self, point: Point, field: MazeField)
        requires
            old(self).wf(),
            !old(self).points_map().contains_key(point),
            field.state == FieldState::InPriorityQueue,
        ensures
            final(self).wf(),
            final(self).points_map() == old(self).points_map().insert(point, field),
            final(self).queue_seq() == old(self).queue_seq().push(point),
            final(self).finish_cell() == old(self).finish_cell(),
            final(self).endpoint_str() == old(self).endpoint_str(),
    {
        proof {
            lemma_store_map_contains(self.points@, point);
            lemma_keys_distinct_push(self.points@, point, field);
            lemma_store_map_push(self.points@, point, field);
        }
        self.points.push((point, field));
        self.queue.push_back(point);
        proof {
            let m2 = self.points_map();
            let q2 = self.queue_seq();
            assert(q2 =~= old(self).queue_seq().push(point));
            assert forall|i: int|
                0 <= i < q2.len() implies m2.contains_key(#[trigger] q2[i]) && m2[q2[i]].state
                == FieldState::InPriorityQueue by {
                if i < q2.len() - 1 {
                    assert(q2[i] == old(self).queue_seq()[i]);
                }
            }
            assert forall|i: int, j: int| 0 <= i < j < q2.len() implies q2[i] != q2[j] by {
                if j == q2.len() - 1 {
                    // `point` was undiscovered, so it cannot already wait in the list
                    assert(q2[i] == old(self).queue_seq()[i]);
                    assert(old(self).points_map().contains_key(old(self).queue_seq()[i]));
                }
            }
            assert forall|p: Point|
                m2.contains_key(p) && (#[trigger] m2[p]).state == FieldState::InPriorityQueue
                implies q2.contains(p) by {
                if p == point {
                    assert(q2[q2.len() - 1] == point);
                } else {
                    assert(old(self).points_map()[p] == m2[p]);
                    assert(old(self).queue_seq().contains(p));
                    let i = choose|i: int|
                        0 <= i < old(self).queue_seq().len() && old(self).queue_seq()[i] == p;
                    assert(q2[i] == p);
                }
            }
        }
    }

    /// Relax the cell one step in `direction` from `curr_point`, whose
    /// just-popped snapshot is `curr_field`: compute the tentative turn count
    /// by the turn-cost rule and apply it exactly as [`relax_result`] says.
    /// Steps off the non-negative quadrant and cells the oracle has never
    /// reported are skipped.
    pub fn relax_neighbor(&mut self, curr_point: Point, curr_field: MazeField, direction: Direction)
        requires
            old(self).wf(),
            curr_field.turns < usize::MAX,
            curr_point.x < usize::MAX,
            curr_point.y < usize::MAX,
        ensures
            final(self).wf(),
            ({
                let rr = relax_result(
                    old(self).points_map(),
                    old(self).queue_seq(),
                    curr_point,
                    curr_field,
                    direction,
                );
                final(self).points_map() == rr.0 && final(self).queue_seq() == rr.1
            }),
            final(self).finish_cell() == old(self).finish_cell(),
            final(self).endpoint_str() == old(self).endpoint_str(),
            // statuses only move forward, and discovered cells stay discovered
            forall|p: Point|
                old(self).points_map().contains_key(p) ==> final(self).points_map().contains_key(p)
                    && status_le(
                    (#[trigger] old(self).points_map()[p]).state,
                    final(self).points_map()[p].state,
                ),
            // a Handled record is final
            forall|p: Point|
                old(self).points_map().contains_key(p)
                    && (#[trigger] old(self).points_map()[p]).state == FieldState::Handled
                    ==> final(self).points_map()[p] == old(self).points_map()[p],
            // a cell waiting in the work list only ever improves
            forall|p: Point|
                old(self).points_map().contains_key(p)
                    && (#[trigger] old(self).points_map()[p]).state == FieldState::InPriorityQueue
                    ==> final(self).points_map()[p].turns <= old(self).points_map()[p].turns,
    {
        let x = curr_point.x;
        let y = curr_point.y;

        let neighboring_point = match direction {
            Direction::Down => Point::new(x, y + 1),
            Direction::Up => {
                if y == 0 {
                    return ;
                }
                Point::new(x, y - 1)
            },
            Direction::Left => {
                if x == 0 {
                    return ;
                }
                Point::new(x - 1, y)
            },
            Direction::Right => Point::new(x + 1, y),
        };

        let turns = if curr_field.direction == direction {
            curr_field.turns
        } else {
            curr_field.turns + 1
        };
        proof {
            assert(step_target(curr_point, direction) == Some(neighboring_point));
            assert(turns as int == tentative_turns(curr_field, direction));
            lemma_store_map_contains(self.points@, neighboring_point);
        }

        match self.find_index(neighboring_point) {
            None => {},
            Some(i) => {
                proof {
                    lemma_store_map_index(self.points@, i as int);
                }
                let neighboring_field = self.points[i].1;
                match neighboring_field.state {
                    FieldState::Unhandled => {
                        proof {
                            lemma_store_map_update(
                                self.points@,
                                i as int,
                                (MazeField {
                                    turns,
                                    direction,
                                    state: FieldState::InPriorityQueue,
                                }),
                            );
                        }
                        self.points[i] = (
                            neighboring_point,
                            MazeField::new(turns, direction, FieldState::InPriorityQueue),
                        );
                        self.queue.push_back(neighboring_point);
                        proof {
                            self.lemma_wf_after_enqueue(old(self), neighboring_point);
                        }
                    },
                    FieldState::InPriorityQueue => {
                        if turns < neighboring_field.turns {
                            proof {
                                lemma_store_map_update(
                                    self.points@,
                                    i as int,
                                    (MazeField {
                                        turns,
                                        direction,
                                        state: FieldState::InPriorityQueue,
                                    }),
                                );
                            }
                            self.points[i] = (
                                neighboring_point,
                                MazeField::new(turns, direction, FieldState::InPriorityQueue),
                            );
                            proof {
                                self.lemma_wf_after_decrease(old(self), neighboring_point);
                            }
                        }
                    },
                    FieldState::Handled => {},
                }
            },
        }
    }

    /// Record one oracle answer list: every reported cell not yet discovered
    /// enters the store with the fresh `Unhandled` record, cells already
    /// discovered keep theirs, and the first cell ever flagged as the finish
    /// becomes the finish cell. The work list is untouched: a cell joins it
    /// only when a relaxation first reaches it.
    pub fn cache_neighbors(&mut self, reports: &Vec<NeighborReport>)
        requires
            old(self).wf(),
        ensures
            final(self).wf(),
            final(self).points_map() == ingest_points(old(self).points_map(), reports@),
            final(self).finish_cell() == ingest_finish(old(self).finish_cell(), reports@),
            final(self).queue_seq() == old(self).queue_seq(),
            final(self).endpoint_str() == old(self).endpoint_str(),
            // repeated discovery never alters what is already known
            old(self).points_map().submap_of(final(self).points_map()),
    {
        let ghost m0 = self.points_map();
        let ghost fin0 = self.finish_cell();
        let ghost q0 = self.queue_seq();
        let ghost ep0 = self.endpoint_str();
        proof {
            assert(reports@.skip(0) =~= reports@);
        }
        let mut i: usize = 0;
        while i < reports.len()
            invariant
                self.wf(),
                i <= reports@.len(),
                ingest_points(self.points_map(), reports@.skip(i as int)) == ingest_points(
                    m0,
                    reports@,
                ),
                ingest_finish(self.finish_cell(), reports@.skip(i as int)) == ingest_finish(
                    fin0,
                    reports@,
                ),
                self.queue_seq() == q0,
                self.endpoint_str() == ep0,
                m0.submap_of(self.points_map()),
            decreases reports@.len() - i,
        {
            let ghost m_before = self.points_map();
            let rep = reports[i];
            let point = Point::new(rep.x, rep.y);
            proof {
                assert(reports@.skip(i as int)[0] == reports@[i as int]);
                assert(reports@.skip(i as int).drop_first() =~= reports@.skip(i as int + 1));
                lemma_store_map_contains(self.points@, point);
            }
            match self.find_index(point) {
                Some(_) => {},
                None => {
                    proof {
                        lemma_keys_distinct_push(
                            self.points@,
                            point,
                            (MazeField {
                                turns: usize::MAX,
                                direction: Direction::Up,
                                state: FieldState::Unhandled,
                            }),
                        );
                        lemma_store_map_push(
                            self.points@,
                            point,
                            (MazeField {
                                turns: usize::MAX,
                                direction: Direction::Up,
                                state: FieldState::Unhandled,
                            }),
                        );
                    }
                    self.points.push(
                        (point, MazeField::new(usize::MAX, Direction::Up, FieldState::Unhandled)),
                    );
                    proof {
                        let m2 = self.points_map();
                        assert forall|j: int|
                            0 <= j < self.queue_seq().len() implies m2.contains_key(
                            #[trigger] self.queue_seq()[j],
                        ) && m2[self.queue_seq()[j]].state == FieldState::InPriorityQueue by {
                            assert(m_before.contains_key(self.queue_seq()[j]));
                        }
                        assert forall|p: Point|
                            m2.contains_key(p) && (#[trigger] m2[p]).state
                                == FieldState::InPriorityQueue implies self.queue_seq().contains(
                            p,
                        ) by {
                            if p != point {
                                assert(m_before[p] == m2[p]);
                            }
                        }
                    }
                },
            }
            if rep.finish && self.finish.is_none() {
                self.finish = Some(point);
            }
            proof {
                assert(self.points_map() == if m_before.contains_key(point) {
                    m_before
                } else {
                    m_before.insert(point, fresh_field())
                });
                assert(m_before.submap_of(self.points_map()));
                vstd::map_lib::lemma_submap_of_trans(m0, m_before, self.points_map());
            }
            i = i + 1;
        }
        proof {
            assert(reports@.skip(reports@.len() as int) =~= Seq::<NeighborReport>::empty());
        }
    }

    /// Process the cell at the front of the work list, with the answer list
    /// the oracle gave for that cell: pop it, mark it `Handled`, record the
    /// answers, then relax its four grid neighbors against its snapshot, in
    /// the order Right, Left, Up, Down. Returns the popped cell, or `None`
    /// on an empty work list, which is left untouched.
    pub fn pop_queue_front_field(&mut self, reports: &Vec<NeighborReport>) -> (r: Option<Point>)
        requires
            old(self).wf(),
            // the front cell must be relaxable without arithmetic overflow
            old(self).queue_seq().len() > 0 ==> ({
                let p = old(self).queue_seq()[0];
                old(self).points_map()[p].turns < usize::MAX && p.x < usize::MAX && p.y
                    < usize::MAX
            }),
        ensures
            final(self).wf(),
            final(self).endpoint_str() == old(self).endpoint_str(),
            old(self).queue_seq().len() == 0 ==> ({
                &&& r is None
                &&& final(self).points_map() == old(self).points_map()
                &&& final(self).queue_seq() == old(self).queue_seq()
                &&& final(self).finish_cell() == old(self).finish_cell()
            }),
            old(self).queue_seq().len() > 0 ==> ({
                let p = old(self).queue_seq()[0];
                let snap = (MazeField {
                    turns: old(self).points_map()[p].turns,
                    direction: old(self).points_map()[p].direction,
                    state: FieldState::Handled,
                });
                let m1 = ingest_points(mark_handled(old(self).points_map(), p), reports@);
                let rr = relax_around(m1, old(self).queue_seq().drop_first(), p, snap);
                &&& r == Some(p)
                &&& final(self).points_map() == rr.0
                &&& final(self).queue_seq() == rr.1
                &&& final(self).finish_cell() == ingest_finish(old(self).finish_cell(), reports@)
            }),
            // statuses only move forward, and discovered cells stay discovered
            forall|p: Point|
                old(self).points_map().contains_key(p) ==> final(self).points_map().contains_key(p)
                    && status_le(
                    (#[trigger] old(self).points_map()[p]).state,
                    final(self).points_map()[p].state,
                ),
            // a Handled record is final
            forall|p: Point|
                old(self).points_map().contains_key(p)
                    && (#[trigger] old(self).points_map()[p]).state == FieldState::Handled
                    ==> final(self).points_map()[p] == old(self).points_map()[p],
            // a cell waiting in the work list only ever improves
            forall|p: Point|
                old(self).points_map().contains_key(p)
                    && (#[trigger] old(self).points_map()[p]).state == FieldState::InPriorityQueue
                    ==> final(self).points_map()[p].turns <= old(self).points_map()[p].turns,
    {
        let curr_point = match self.queue.pop_front() {
            None => {
                return None;
            },
            Some(p) => p,
        };
        proof {
            // the popped cell is a discovered cell, by well-formedness
            assert(old(self).points_map().contains_key(curr_point));
            lemma_store_map_contains(self.points@, curr_point);
        }
        let i = match self.find_index(curr_point) {
            None => {
                proof {
                    assert(false);
                }
                return None;
            },
            Some(i) => i,
        };
        let f0 = self.points[i].1;
        let curr_field = MazeField::new(f0.turns, f0.direction, FieldState::Handled);
        proof {
            lemma_store_map_index(self.points@, i as int);
            lemma_store_map_update(
                self.points@,
                i as int,
                (MazeField {
                    turns: f0.turns,
                    direction: f0.direction,
                    state: FieldState::Handled,
                }),
            );
        }
        self.points[i] = (curr_point, curr_field);
        let ghost m_marked = self.points_map();
        let ghost q_popped = self.queue_seq();
        proof {
            assert(m_marked == mark_handled(old(self).points_map(), curr_point));
            assert(q_popped =~= old(self).queue_seq().drop_first());
            self.lemma_wf_after_pop(old(self), curr_point);
        }
        self.cache_neighbors(reports);
        let ghost m_cached = self.points_map();
        self.relax_neighbor(curr_point, curr_field, Direction::Right);
        let ghost m_r = self.points_map();
        self.relax_neighbor(curr_point, curr_field, Direction::Left);
        let ghost m_l = self.points_map();
        self.relax_neighbor(curr_point, curr_field, Direction::Up);
        let ghost m_u = self.points_map();
        self.relax_neighbor(curr_point, curr_field, Direction::Down);
        proof {
            assert forall|p: Point|
                old(self).points_map().contains_key(p) implies self.points_map().contains_key(p)
                && status_le(
                (#[trigger] old(self).points_map()[p]).state,
                self.points_map()[p].state,
            ) by {
                assert(m_marked.contains_key(p) && status_le(
                    old(self).points_map()[p].state,
                    m_marked[p].state,
                ));
                assert(m_cached.contains_key(p) && m_cached[p] == m_marked[p]);
                assert(m_r.contains_key(p) && status_le(m_cached[p].state, m_r[p].state));
                assert(m_l.contains_key(p) && status_le(m_r[p].state, m_l[p].state));
                assert(m_u.contains_key(p) && status_le(m_l[p].state, m_u[p].state));
                assert(status_le(m_u[p].state, self.points_map()[p].state));
            }
            assert forall|p: Point|
                old(self).points_map().contains_key(p)
                    && (#[trigger] old(self).points_map()[p]).state == FieldState::Handled
                implies self.points_map()[p] == old(self).points_map()[p] by {
                assert(m_marked.dom().contains(p));
                assert(m_marked[p] == old(self).points_map()[p]);
                assert(m_cached.contains_key(p) && m_cached[p] == m_marked[p]);
                assert(m_r[p] == m_cached[p]);
                assert(m_l[p] == m_r[p]);
                assert(m_u[p] == m_l[p]);
                assert(self.points_map()[p] == m_u[p]);
            }
            assert forall|p: Point|
                old(self).points_map().contains_key(p)
                    && (#[trigger] old(self).points_map()[p]).state
                    == FieldState::InPriorityQueue implies self.points_map()[p].turns <= old(
                self,
            ).points_map()[p].turns by {
                assert(m_marked.contains_key(p));
                if p == curr_point {
                    // the popped cell keeps its turn count as it is handled
                    assert(m_marked[p].turns == old(self).points_map()[p].turns);
                    assert(m_marked[p].state == FieldState::Handled);
                    assert(m_cached[p] == m_marked[p]);
                    assert(m_r[p] == m_cached[p]);
                    assert(m_l[p] == m_r[p]);
                    assert(m_u[p] == m_l[p]);
                    assert(self.points_map()[p] == m_u[p]);
                } else {
                    assert(m_marked[p] == old(self).points_map()[p]);
                    assert(m_cached[p] == m_marked[p]);
                    assert(m_r[p].state == FieldState::InPriorityQueue && m_r[p].turns
                        <= m_cached[p].turns);
                    assert(m_l[p].state == FieldState::InPriorityQueue && m_l[p].turns
                        <= m_r[p].turns);
                    assert(m_u[p].state == FieldState::InPriorityQueue && m_u[p].turns
                        <= m_l[p].turns);
                    assert(self.points_map()[p].turns <= m_u[p].turns);
                }
            }
        }
        Some(curr_point)
    }

    /// After the front of the work list was popped and its record marked
    /// `Handled`, the maze is well-formed again.
    proof fn lemma_wf_after_pop(&self, prev: &Self, p: Point)
        requires
            prev.wf(),
            prev.queue_seq().len() > 0,
            p == prev.queue_seq()[0],
            prev.points_map().contains_key(p),
            self.points_map() == mark_handled(prev.points_map(), p),
            self.queue_seq() == prev.queue_seq().drop_first(),
            self.keys_unique(),
            self.finish_cell() == prev.finish_cell(),
        ensures
            self.wf(),
    {
        let m2 = self.points_map();
        let q2 = self.queue_seq();
        let q1 = prev.queue_seq();
        assert forall|i: int, j: int| 0 <= i < j < q2.len() implies q2[i] != q2[j] by {
            assert(q2[i] == q1[i + 1]);
            assert(q2[j] == q1[j + 1]);
        }
        assert forall|i: int|
            0 <= i < q2.len() implies m2.contains_key(#[trigger] q2[i]) && m2[q2[i]].state
            == FieldState::InPriorityQueue by {
            assert(q2[i] == q1[i + 1]);
            // the popped cell appears nowhere else in the list
            assert(q1[i + 1] != p);
            assert(prev.points_map()[q2[i]].state == FieldState::InPriorityQueue);
        }
        assert forall|c: Point|
            m2.contains_key(c) && (#[trigger] m2[c]).state == FieldState::InPriorityQueue
            implies q2.contains(c) by {
            assert(c != p);
            assert(prev.points_map()[c] == m2[c]);
            assert(q1.contains(c));
            let j = choose|j: int| 0 <= j < q1.len() && q1[j] == c;
            assert(j != 0);
            assert(q2[j - 1] == c);
        }
    }

    /// The driver's termination test: the turn count recorded for `popped`,
    /// when `popped` is the flagged finish cell, and `None` otherwise.
    pub fn finish_reached(&self, popped: Point) -> (r: Option<usize>)
        requires
            self.wf(),
        ensures
            r is Some <==> self.finish_cell() == Some(popped),
            r is Some ==> r == Some(self.points_map()[popped].turns),
    {
        match self.finish {
            Some(f) => {
                if f.x == popped.x && f.y == popped.y {
                    match self.get_field(popped) {
                        Some(field) => Some(field.turns),
                        None => None,
                    }
                } else {
                    None
                }
            },
            None => None,
        }
    }

    /// After the store recorded `n` as newly `InPriorityQueue` and the work
    /// list gained `n` at its back, the maze is well-formed again.
    proof fn lemma_wf_after_enqueue(&self, prev: &Self, n: Point)
        requires
            prev.wf(),
            prev.points_map().contains_key(n),
            prev.points_map()[n].state == FieldState::Unhandled,
            self.points_map() == prev.points_map().insert(
                n,
                MazeField {
                    turns: self.points_map()[n].turns,
                    direction: self.points_map()[n].direction,
                    state: FieldState::InPriorityQueue,
                },
            ),
            self.points_map()[n].state == FieldState::InPriorityQueue,
            self.queue_seq() == prev.queue_seq().push(n),
            self.keys_unique(),
            self.finish_cell() == prev.finish_cell(),
        ensures
            self.wf(),
    {
        let m2 = self.points_map();
        let q2 = self.queue_seq();
        assert forall|i: int, j: int| 0 <= i < j < q2.len() implies q2[i] != q2[j] by {
            if j == q2.len() - 1 {
                // n was Unhandled, so it was not waiting in the list before
                assert(q2[i] == prev.queue_seq()[i]);
                assert(prev.points_map()[prev.queue_seq()[i]].state
                    == FieldState::InPriorityQueue);
            }
        }
        assert forall|i: int|
            0 <= i < q2.len() implies m2.contains_key(#[trigger] q2[i]) && m2[q2[i]].state
            == FieldState::InPriorityQueue by {
            if i < q2.len() - 1 {
                assert(q2[i] == prev.queue_seq()[i]);
            }
        }
        assert forall|p: Point|
            m2.contains_key(p) && (#[trigger] m2[p]).state == FieldState::InPriorityQueue
            implies q2.contains(p) by {
            if p == n {
                assert(q2[q2.len() - 1] == n);
            } else {
                assert(prev.queue_seq().contains(p));
                let i = choose|i: int|
                    0 <= i < prev.queue_seq().len() && prev.queue_seq()[i] == p;
                assert(q2[i] == p);
            }
        }
    }

    /// After an in-place decrease of the record of `n`, already waiting in
    /// the work list, the maze is well-formed again.
    proof fn lemma_wf_after_decrease(&self, prev: &Self, n: Point)
        requires
            prev.wf(),
            prev.points_map().contains_key(n),
            prev.points_map()[n].state == FieldState::InPriorityQueue,
            self.points_map() == prev.points_map().insert(
                n,
                MazeField {
                    turns: self.points_map()[n].turns,
                    direction: self.points_map()[n].direction,
                    state: FieldState::InPriorityQueue,
                },
            ),
            self.points_map()[n].state == FieldState::InPriorityQueue,
            self.queue_seq() == prev.queue_seq(),
            self.keys_unique(),
            self.finish_cell() == prev.finish_cell(),
        ensures
            self.wf(),
    {
        let m2 = self.points_map();
        let q2 = self.queue_seq();
        assert forall|i: int|
            0 <= i < q2.len() implies m2.contains_key(#[trigger] q2[i]) && m2[q2[i]].state
            == FieldState::InPriorityQueue by {
            assert(prev.points_map().contains_key(q2[i]));
        }
        assert forall|p: Point|
            m2.contains_key(p) && (#[trigger] m2[p]).state == FieldState::InPriorityQueue
            implies q2.contains(p) by {
            if p != n {
                assert(prev.points_map()[p] == m2[p]);
            }
        }
    }
}

} // verus!
