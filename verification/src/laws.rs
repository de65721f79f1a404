use crate::maze::Direction;
use crate::maze::FieldState;
use crate::maze::Maze;
use crate::maze::MazeField;
use crate::maze::NeighborReport;
use crate::maze::Point;
use crate::maze::fresh_field;
use crate::maze::ingest_finish;
use crate::maze::ingest_points;
use crate::maze::mark_handled;
use crate::maze::relax_around;
use crate::maze::relax_result;
use crate::maze::step_target;
use crate::maze::tentative_turns;
use vstd::prelude::*;

verus! {

/// A cell never stands twice in the work list of a well-formed maze.
pub proof fn lemma_frontier_membership_unique(m: &Maze, i: int, j: int)
    requires
        m.wf(),
        0 <= i < j < m.queue_seq().len(),
    ensures
        m.queue_seq()[i] != m.queue_seq()[j],
{
}

/// Recording an answer list grows the store by exactly the reported cells,
/// never altering a record that was already there, and a cell discovered by
/// it starts with the fresh `Unhandled` record.
pub proof fn lemma_ingest_points_frame(m: Map<Point, MazeField>, reports: Seq<NeighborReport>)
    ensures
        m.submap_of(ingest_points(m, reports)),
        forall|p: Point|
            #[trigger] ingest_points(m, reports).dom().contains(p) <==> m.contains_key(p) || (
            exists|i: int| 0 <= i < reports.len() && reports[i].cell() == p),
        forall|p: Point|
            ingest_points(m, reports).contains_key(p) && !m.contains_key(p) ==> (#[trigger] ingest_points(m, reports)[p]) == fresh_field(),
        forall|p: Point|
            m.dom().contains(p) ==> (#[trigger] ingest_points(m, reports)[p]) == m[p],
    decreases reports.len(),
{
    if reports.len() == 0 {
    } else {
        let c = reports[0].cell();
        let m1 = if m.contains_key(c) {
            m
        } else {
            m.insert(c, fresh_field())
        };
        let rest = reports.drop_first();
        let result = ingest_points(m, reports);
        lemma_ingest_points_frame(m1, rest);
        assert forall|k: Point| m.dom().contains(k) implies m1.dom().contains(k) && m[k] == m1[k] by {}
        assert(m.submap_of(m1));
        vstd::map_lib::lemma_submap_of_trans(m, m1, ingest_points(m1, rest));
        assert forall|p: Point|
            #[trigger] ingest_points(m, reports).dom().contains(p) <==> m.contains_key(p) || (
        exists|i: int| 0 <= i < reports.len() && reports[i].cell() == p) by {
            assert(result.dom().contains(p) <==> ingest_points(m1, rest).dom().contains(p));
            if result.contains_key(p) {
                if m1.contains_key(p) {
                    if !m.contains_key(p) {
                        assert(reports[0].cell() == p);
                    }
                } else {
                    let i = choose|i: int| 0 <= i < rest.len() && rest[i].cell() == p;
                    assert(reports[i + 1].cell() == p);
                }
            }
            if m.contains_key(p) {
                assert(m1.contains_key(p));
            } else if exists|i: int| 0 <= i < reports.len() && reports[i].cell() == p {
                let i = choose|i: int| 0 <= i < reports.len() && reports[i].cell() == p;
                if i == 0 {
                    assert(m1.contains_key(p));
                } else {
                    assert(rest[i - 1].cell() == p);
                }
            }
        }
        assert forall|p: Point|
            m.dom().contains(p) implies (#[trigger] ingest_points(m, reports)[p]) == m[p] by {
            assert(m1.dom().contains(p));
            assert(m1[p] == m[p]);
            assert(ingest_points(m1, rest)[p] == m1[p]);
        }
        assert forall|p: Point|
            result.contains_key(p) && !m.contains_key(p) implies (#[trigger] result[p])
            == fresh_field() by {
            if m1.contains_key(p) {
                assert(p == c);
                assert(m1[p] == fresh_field());
                assert(result[p] == m1[p]);
            } else {
                assert(ingest_points(m1, rest)[p] == fresh_field());
            }
        }
    }
}

proof fn lemma_ingest_points_noop(m: Map<Point, MazeField>, reports: Seq<NeighborReport>)
    requires
        forall|i: int| 0 <= i < reports.len() ==> m.contains_key(#[trigger] reports[i].cell()),
    ensures
        ingest_points(m, reports) == m,
    decreases reports.len(),
{
    if reports.len() == 0 {
    } else {
        assert(m.contains_key(reports[0].cell()));
        let rest = reports.drop_first();
        assert forall|i: int|
            0 <= i < rest.len() implies m.contains_key(#[trigger] rest[i].cell()) by {
            assert(rest[i] == reports[i + 1]);
        }
        lemma_ingest_points_noop(m, rest);
    }
}

proof fn lemma_ingest_finish_set(fin: Option<Point>, reports: Seq<NeighborReport>)
    requires
        fin is Some,
    ensures
        ingest_finish(fin, reports) == fin,
    decreases reports.len(),
{
    if reports.len() == 0 {
    } else {
        lemma_ingest_finish_set(fin, reports.drop_first());
    }
}

/// Discovery is idempotent: recording the same answer list a second time
/// changes neither the store nor the finish cell. (The work list is out of
/// the question altogether: recording answers never touches it.)
pub proof fn lemma_discovery_idempotent(
    m: Map<Point, MazeField>,
    fin: Option<Point>,
    reports: Seq<NeighborReport>,
)
    ensures
        ingest_points(ingest_points(m, reports), reports) == ingest_points(m, reports),
        ingest_finish(ingest_finish(fin, reports), reports) == ingest_finish(fin, reports),
{
    let once = ingest_points(m, reports);
    lemma_ingest_points_frame(m, reports);
    assert forall|i: int|
        0 <= i < reports.len() implies ingest_points(m, reports).contains_key(
        #[trigger] reports[i].cell(),
    ) by {
        let p = reports[i].cell();
        assert(exists|j: int| 0 <= j < reports.len() && reports[j].cell() == p);
        assert(ingest_points(m, reports).dom().contains(p));
    }
    lemma_ingest_points_noop(once, reports);
    let fin_once = ingest_finish(fin, reports);
    if fin_once is Some {
        lemma_ingest_finish_set(fin_once, reports);
    } else {
        if fin is Some {
            lemma_ingest_finish_set(fin, reports);
        }
    }
}

/// The cells of the universe `u` that are not yet discovered in `m` or
/// still wait to be reached by a relaxation.
pub open spec fn undone_cells(m: Map<Point, MazeField>, u: Set<Point>) -> Set<Point> {
    u.filter(|p: Point| !m.contains_key(p) || m[p].state == FieldState::Unhandled)
}

/// Termination measure of the search, within a finite universe `u` of
/// cells: twice the undone cells plus the length of the work list.
pub open spec fn search_measure(m: Map<Point, MazeField>, q: Seq<Point>, u: Set<Point>) -> int {
    2 * (undone_cells(m, u).len() as int) + q.len()
}

proof fn lemma_mark_measure(m: Map<Point, MazeField>, p: Point, u: Set<Point>)
    requires
        m.contains_key(p),
        m[p].state == FieldState::InPriorityQueue,
    ensures
        undone_cells(mark_handled(m, p), u) == undone_cells(m, u),
        mark_handled(m, p).dom() == m.dom(),
{
    assert(mark_handled(m, p).dom() =~= m.dom());
    assert(undone_cells(mark_handled(m, p), u) =~= undone_cells(m, u));
}

proof fn lemma_ingest_measure(m: Map<Point, MazeField>, reports: Seq<NeighborReport>, u: Set<Point>)
    requires
        m.dom().subset_of(u),
        forall|i: int| 0 <= i < reports.len() ==> u.contains(#[trigger] reports[i].cell()),
    ensures
        undone_cells(ingest_points(m, reports), u) == undone_cells(m, u),
        ingest_points(m, reports).dom().subset_of(u),
{
    let result = ingest_points(m, reports);
    lemma_ingest_points_frame(m, reports);
    assert forall|p: Point| result.dom().contains(p) implies u.contains(p) by {
        assert(ingest_points(m, reports).dom().contains(p));
        if !m.contains_key(p) {
            let i = choose|i: int| 0 <= i < reports.len() && reports[i].cell() == p;
            assert(u.contains(reports[i].cell()));
        }
    }
    assert forall|p: Point|
        undone_cells(result, u).contains(p) <==> undone_cells(m, u).contains(p) by {
        if u.contains(p) {
            assert(ingest_points(m, reports).dom().contains(p) <==> result.contains_key(p));
            if m.contains_key(p) {
                assert(ingest_points(m, reports)[p] == m[p]);
            } else if result.contains_key(p) {
                assert(ingest_points(m, reports)[p] == fresh_field());
            }
        }
    }
    assert(undone_cells(result, u) =~= undone_cells(m, u));
}

proof fn lemma_relax_measure(
    m: Map<Point, MazeField>,
    q: Seq<Point>,
    cp: Point,
    cf: MazeField,
    d: Direction,
    u: Set<Point>,
)
    requires
        m.dom().subset_of(u),
        u.finite(),
    ensures
        ({
            let rr = relax_result(m, q, cp, cf, d);
            search_measure(rr.0, rr.1, u) <= search_measure(m, q, u) && rr.0.dom() == m.dom()
        }),
{
    let rr = relax_result(m, q, cp, cf, d);
    match step_target(cp, d) {
        None => {
            assert(rr.0.dom() =~= m.dom());
        },
        Some(n) => {
            if !m.contains_key(n) {
                assert(rr.0.dom() =~= m.dom());
            } else {
                let t = tentative_turns(cf, d);
                match m[n].state {
                    FieldState::Unhandled => {
                        assert(rr.0.dom() =~= m.dom());
                        let s_before = undone_cells(m, u);
                        let s_after = undone_cells(rr.0, u);
                        assert(s_after =~= s_before.remove(n));
                        assert(s_before.contains(n));
                        vstd::set_lib::lemma_len_subset(s_before, u);
                        vstd::set::axiom_set_remove_len(s_before, n);
                    },
                    FieldState::InPriorityQueue => {
                        assert(rr.0.dom() =~= m.dom());
                        if t < m[n].turns {
                            assert(undone_cells(rr.0, u) =~= undone_cells(m, u));
                        }
                    },
                    FieldState::Handled => {
                        assert(rr.0.dom() =~= m.dom());
                    },
                }
            }
        },
    }
}

/// Every processing step strictly decreases the search measure: popping the
/// front of the work list, marking it `Handled`, recording the oracle's
/// answers and relaxing the four neighbors, as
/// [`Maze::pop_queue_front_field`] does, takes the measure down by at least
/// one, for any finite universe `u` that holds every discovered cell and
/// every cell the oracle may ever report. A search against a finite oracle
/// therefore takes only finitely many steps.
pub proof fn lemma_step_decreases_measure(
    m: Map<Point, MazeField>,
    q: Seq<Point>,
    reports: Seq<NeighborReport>,
    u: Set<Point>,
)
    requires
        q.len() > 0,
        m.contains_key(q[0]),
        m[q[0]].state == FieldState::InPriorityQueue,
        m.dom().subset_of(u),
        u.finite(),
        forall|i: int| 0 <= i < reports.len() ==> u.contains(#[trigger] reports[i].cell()),
    ensures
        ({
            let p = q[0];
            let snap = (MazeField {
                turns: m[p].turns,
                direction: m[p].direction,
                state: FieldState::Handled,
            });
            let m1 = ingest_points(mark_handled(m, p), reports);
            let rr = relax_around(m1, q.drop_first(), p, snap);
            search_measure(rr.0, rr.1, u) < search_measure(m, q, u)
        }),
{
    let p = q[0];
    let snap = (MazeField {
        turns: m[p].turns,
        direction: m[p].direction,
        state: FieldState::Handled,
    });
    let qd = q.drop_first();
    let mm = mark_handled(m, p);
    lemma_mark_measure(m, p, u);
    let m1 = ingest_points(mm, reports);
    lemma_ingest_measure(mm, reports, u);
    assert(search_measure(m1, qd, u) == search_measure(m, q, u) - 1);
    let r0 = relax_result(m1, qd, p, snap, Direction::Right);
    lemma_relax_measure(m1, qd, p, snap, Direction::Right, u);
    let r1 = relax_result(r0.0, r0.1, p, snap, Direction::Left);
    lemma_relax_measure(r0.0, r0.1, p, snap, Direction::Left, u);
    let r2 = relax_result(r1.0, r1.1, p, snap, Direction::Up);
    lemma_relax_measure(r1.0, r1.1, p, snap, Direction::Up, u);
    lemma_relax_measure(r2.0, r2.1, p, snap, Direction::Down, u);
}

} // verus!
