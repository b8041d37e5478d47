use vstd::prelude::*;
use rand::rngs::StdRng;
use crate::board::{Board, Content};
use crate::compact::{select, lemma_select, clear_by_cond};
use crate::random::{shuffle_directions, seeded_rng, sample_indices, random_timer};
use crate::entity::{Fish, Shark};
use crate::geometry::{Point, dims_ok, in_grid, cell_of, point_of, offset_of, is_unit, lemma_cell_of};

verus! {

/// The four unit moves, each exactly once, in some order.
pub open spec fn is_order(d: Seq<(isize, isize)>) -> bool {
    &&& d.len() == 4
    &&& forall|k: int| 0 <= k < 4 ==> is_unit(#[trigger] d[k])
    &&& d.contains((-1isize, 0isize))
    &&& d.contains((1isize, 0isize))
    &&& d.contains((0isize, -1isize))
    &&& d.contains((0isize, 1isize))
}

/// The first of the four scan positions at which `hit` holds, or 4 if none.
pub open spec fn first_where(hit: spec_fn(int) -> bool) -> int {
    if hit(0) {
        0
    } else if hit(1) {
        1
    } else if hit(2) {
        2
    } else if hit(3) {
        3
    } else {
        4
    }
}

/// A permutation of an order of the four moves is again such an order.
pub proof fn lemma_order_permuted(a: Seq<(isize, isize)>, b: Seq<(isize, isize)>)
    requires
        is_order(a),
        b.len() == 4,
        b.to_multiset() == a.to_multiset(),
    ensures
        is_order(b),
{
    a.to_multiset_ensures();
    b.to_multiset_ensures();
    assert forall|k: int| 0 <= k < 4 implies is_unit(#[trigger] b[k]) by {
        assert(b.contains(b[k]));
        assert(b.to_multiset().count(b[k]) > 0);
        assert(a.to_multiset().count(b[k]) > 0);
        assert(a.contains(b[k]));
        let j = choose|j: int| 0 <= j < a.len() && a[j] == b[k];
        assert(is_unit(a[j]));
    }
    assert(a.to_multiset().count((-1isize, 0isize)) > 0);
    assert(a.to_multiset().count((1isize, 0isize)) > 0);
    assert(a.to_multiset().count((0isize, -1isize)) > 0);
    assert(a.to_multiset().count((0isize, 1isize)) > 0);
    assert(b.to_multiset().count((-1isize, 0isize)) > 0);
    assert(b.to_multiset().count((1isize, 0isize)) > 0);
    assert(b.to_multiset().count((0isize, -1isize)) > 0);
    assert(b.to_multiset().count((0isize, 1isize)) > 0);
}

/// The code a cell shows once its New or Fed mark is dropped.
pub open spec fn plain(c: Content) -> Content {
    match c {
        Content::NewFish => Content::Fish,
        Content::NewShark => Content::Shark,
        Content::FedShark => Content::Shark,
        _ => c,
    }
}

/// The board with every New and Fed mark dropped.
pub open spec fn plain_board(b: Seq<Content>) -> Seq<Content> {
    Seq::new(b.len(), |c: int| plain(b[c]))
}

/// Each of `os` orders the four moves.
pub open spec fn orders_ok(os: Seq<[(isize, isize); 4]>) -> bool {
    forall|k: int| 0 <= k < os.len() ==> is_order((#[trigger] os[k])@)
}

/// Why a world could not be set up.
#[derive(Copy, Clone, Debug, PartialEq, Eq, Structural)]
pub enum WorldError {
    /// More animals were asked for than the grid has cells.
    CapacityExceeded,
    /// An animal lies off the grid, two share a cell, or a shark has starved.
    InvalidLayout,
}

/// The given animals can stand on a `w` by `h` grid together: each on the
/// grid, no two on one cell, and no shark hungrier than `starves` allows.
pub open spec fn layout_ok(fishes: Seq<Fish>, sharks: Seq<Shark>, w: int, h: int, starves: u8) -> bool {
    &&& forall|i: int| 0 <= i < fishes.len() ==> in_grid(#[trigger] fishes[i].pos, w, h)
    &&& forall|i: int| 0 <= i < sharks.len() ==> in_grid(#[trigger] sharks[i].pos, w, h)
    &&& forall|i: int, j: int| 0 <= i < j < fishes.len() ==> #[trigger] fishes[i].pos != #[trigger] fishes[j].pos
    &&& forall|i: int, j: int| 0 <= i < j < sharks.len() ==> #[trigger] sharks[i].pos != #[trigger] sharks[j].pos
    &&& forall|i: int, j: int| 0 <= i < fishes.len() && 0 <= j < sharks.len() ==> #[trigger] fishes[i].pos != #[trigger] sharks[j].pos
    &&& forall|i: int| 0 <= i < sharks.len() ==> (#[trigger] sharks[i]).starve < starves
}

/// The simulation state: the board, both populations and the fixed parameters.
pub struct World {
    pub board: Board,
    pub fishes: Vec<Fish>,
    pub sharks: Vec<Shark>,
    pub fish_repro_time: u8,
    pub shark_repro_time: u8,
    pub shark_starves: u8,
    pub rng: StdRng,
}

impl World {
    pub open spec fn w(&self) -> int {
        self.board.width as int
    }

    pub open spec fn h(&self) -> int {
        self.board.height as int
    }

    /// The flat index of `p` on this world's board.
    pub open spec fn cell(&self, p: Point) -> int {
        cell_of(p, self.w())
    }

    /// The neighbour of `p` in direction `d`.
    pub open spec fn target(&self, p: Point, d: (isize, isize)) -> Point {
        offset_of(p, d.0 as int, d.1 as int, self.w(), self.h())
    }

    /// A mark per cell, none set.
    pub open spec fn none_eaten(&self) -> Seq<bool> {
        Seq::new(self.board@.len(), |c: int| false)
    }

    /// The board and the two populations agree, where `eaten` marks the cells
    /// of fish that a shark has taken this tick but that are still listed.
    pub open spec fn consistent(&self, eaten: Seq<bool>) -> bool {
        &&& self.board.wf()
        &&& eaten.len() == self.board@.len()
        &&& forall|i: int|
            0 <= i < self.fishes@.len() ==> in_grid(#[trigger] self.fishes@[i].pos, self.w(), self.h())
        &&& forall|i: int|
            0 <= i < self.sharks@.len() ==> in_grid(#[trigger] self.sharks@[i].pos, self.w(), self.h())
        &&& forall|i: int, j: int|
            0 <= i < j < self.fishes@.len() ==> #[trigger] self.fishes@[i].pos != #[trigger] self.fishes@[j].pos
        &&& forall|i: int, j: int|
            0 <= i < j < self.sharks@.len() ==> #[trigger] self.sharks@[i].pos != #[trigger] self.sharks@[j].pos
        &&& forall|i: int|
            #![trigger self.fishes@[i]]
            0 <= i < self.fishes@.len() ==> if eaten[self.cell(self.fishes@[i].pos)] {
                self.board.at(self.fishes@[i].pos).sharky()
            } else {
                self.board.at(self.fishes@[i].pos).fishy()
            }
        &&& forall|i: int|
            #![trigger self.sharks@[i]]
            0 <= i < self.sharks@.len() ==> self.board.at(self.sharks@[i].pos).sharky()
        &&& forall|c: int|
            0 <= c < self.board@.len() && (#[trigger] self.board@[c]).fishy() ==> exists|i: int|
                0 <= i < self.fishes@.len() && self.cell(#[trigger] self.fishes@[i].pos) == c
        &&& forall|c: int|
            0 <= c < self.board@.len() && (#[trigger] self.board@[c]).sharky() ==> exists|i: int|
                0 <= i < self.sharks@.len() && self.cell(#[trigger] self.sharks@[i].pos) == c
    }

    /// The three thresholds are positive.
    pub open spec fn params_ok(&self) -> bool {
        &&& self.fish_repro_time > 0
        &&& self.shark_repro_time > 0
        &&& self.shark_starves > 0
    }

    /// The state between two ticks.
    pub open spec fn wf(&self) -> bool {
        &&& self.consistent(self.none_eaten())
        &&& self.params_ok()
        &&& forall|i: int|
            0 <= i < self.sharks@.len() ==> (#[trigger] self.sharks@[i]).starve < self.shark_starves
    }

    /// Where the scan of `dirs` from `p` finds an empty cell first (4: nowhere).
    pub open spec fn first_empty(&self, p: Point, dirs: Seq<(isize, isize)>) -> int {
        first_where(|k: int| self.board.at(self.target(p, dirs[k])).empty())
    }

    /// Where the scan of `dirs` from `p` finds a fish first (4: nowhere).
    pub open spec fn first_fish(&self, p: Point, dirs: Seq<(isize, isize)>) -> int {
        first_where(|k: int| self.board.at(self.target(p, dirs[k])).fishy())
    }

    /// Scans `dirs` from `p` for the first cell holding a fish (`want_fish`)
    /// or, otherwise, the first empty one; 4 if there is none.
    fn scan(&self, p: Point, dirs: &[(isize, isize); 4], want_fish: bool) -> (r: usize)
        requires
            self.board.wf(),
            in_grid(p, self.w(), self.h()),
            is_order(dirs@),
        ensures
            want_fish ==> r == self.first_fish(p, dirs@),
            !want_fish ==> r == self.first_empty(p, dirs@),
    {
        let mut k: usize = 0;
        while k < 4
            invariant
                self.board.wf(),
                in_grid(p, self.w(), self.h()),
                is_order(dirs@),
                k <= 4,
                want_fish ==> forall|m: int| 0 <= m < k ==> !self.board.at(self.target(p, dirs@[m])).fishy(),
                !want_fish ==> forall|m: int| 0 <= m < k ==> !self.board.at(self.target(p, dirs@[m])).empty(),
            decreases 4 - k,
        {
            let d = dirs[k];
            assert(is_unit(dirs@[k as int]));
            let q = p.offset(d.0, d.1, self.board.width, self.board.height);
            let c = self.board.get(q);
            let hit = if want_fish { c.is_fish() } else { c.is_empty() };
            if hit {
                return k;
            }
            k = k + 1;
        }
        4
    }

    /// The fish list after fish `i` scans `dirs` and acts.
    pub open spec fn fishes_after_fish_step(&self, i: int, dirs: Seq<(isize, isize)>) -> Seq<Fish> {
        let f = self.fishes@[i];
        let k = self.first_empty(f.pos, dirs);
        let q = self.target(f.pos, dirs[k]);
        if k == 4 {
            self.fishes@
        } else if f.repro_time + 1 >= self.fish_repro_time {
            self.fishes@.update(i, Fish { pos: q, repro_time: 0 }).push(Fish { pos: f.pos, repro_time: 0 })
        } else {
            self.fishes@.update(i, Fish { pos: q, repro_time: (f.repro_time + 1) as u8 })
        }
    }

    /// The board after fish `i` scans `dirs` and acts.
    pub open spec fn board_after_fish_step(&self, i: int, dirs: Seq<(isize, isize)>) -> Seq<Content> {
        let f = self.fishes@[i];
        let k = self.first_empty(f.pos, dirs);
        let q = self.target(f.pos, dirs[k]);
        let moved = self.board@.update(self.cell(f.pos), Content::Empty).update(self.cell(q), Content::Fish);
        if k == 4 {
            self.board@
        } else if f.repro_time + 1 >= self.fish_repro_time {
            moved.update(self.cell(f.pos), Content::NewFish)
        } else {
            moved
        }
    }

    /// Fish `i` moves to the first empty neighbour in the order `dirs`, if
    /// any. Having moved, it counts one more toward breeding; at the threshold
    /// it leaves a newborn fish behind, appended to the list. A fish that
    /// cannot move is left as it was.
    pub fn fish_step(&mut self, i: usize, dirs: &[(isize, isize); 4])
        requires
            old(self).wf(),
            i < old(self).fishes@.len(),
            is_order(dirs@),
        ensures
            final(self).wf(),
            final(self).fishes@ == old(self).fishes_after_fish_step(i as int, dirs@),
            final(self).board@ == old(self).board_after_fish_step(i as int, dirs@),
            final(self).sharks@ == old(self).sharks@,
            final(self).board.width == old(self).board.width,
            final(self).board.height == old(self).board.height,
            final(self).fish_repro_time == old(self).fish_repro_time,
            final(self).shark_repro_time == old(self).shark_repro_time,
            final(self).shark_starves == old(self).shark_starves,
    {
        let ghost b0 = self.board@;
        let ghost f0 = self.fishes@;
        let ghost s0 = self.sharks@;
        let ghost w = self.w();
        let ghost h = self.h();
        let start = self.fishes[i].pos;
        let k = self.scan(start, dirs, false);
        if k < 4 {
            let d = dirs[k];
            assert(is_unit(dirs@[k as int]));
            let q = start.offset(d.0, d.1, self.board.width, self.board.height);
            let ghost cp = self.cell(start);
            let ghost cq = self.cell(q);
            proof {
                lemma_cell_of(start, q, w, h);
                lemma_cell_of(q, start, w, h);
                assert(b0[cp].fishy());
                assert(b0[cq].empty());
                assert forall|j: int| 0 <= j < f0.len() && j != i implies
                    #[trigger] f0[j].pos != q && f0[j].pos != start && self.cell(f0[j].pos) != cp
                        && self.cell(f0[j].pos) != cq by {
                    lemma_cell_of(f0[j].pos, start, w, h);
                    lemma_cell_of(f0[j].pos, q, w, h);
                }
                assert forall|j: int| 0 <= j < f0.len() implies
                    (#[trigger] b0[self.cell(f0[j].pos)]).fishy() by {
                    lemma_cell_of(f0[j].pos, q, w, h);
                    assert(self.none_eaten()[self.cell(f0[j].pos)] == false);
                }
                assert forall|j: int| 0 <= j < s0.len() implies
                    self.cell(#[trigger] s0[j].pos) != cp
                        && self.cell(s0[j].pos) != cq
                        && b0[self.cell(s0[j].pos)].sharky() by {
                }
            }
            self.board.set(start, Content::Empty);
            self.board.set(q, Content::Fish);
            let t: u16 = self.fishes[i].repro_time as u16 + 1;
            if t >= self.fish_repro_time as u16 {
                self.fishes.set(i, Fish { pos: q, repro_time: 0 });
                self.fishes.push(Fish::new(start));
                self.board.set(start, Content::NewFish);
            } else {
                self.fishes.set(i, Fish { pos: q, repro_time: t as u8 });
            }
            proof {
                assert(self.sharks@ == s0);
                assert(self.board.width == w);
                if t >= self.fish_repro_time {
                    assert(self.board@ == b0.update(cp, Content::Empty).update(cq, Content::Fish).update(cp, Content::NewFish));
                } else {
                    assert(self.board@ == b0.update(cp, Content::Empty).update(cq, Content::Fish));
                }
                let b1 = self.board@;
                let f1 = self.fishes@;
                assert(self.none_eaten() == old(self).none_eaten());
                assert forall|c: int|
                    0 <= c < b1.len() && (#[trigger] b1[c]).fishy() implies exists|j: int|
                        0 <= j < f1.len() && self.cell(#[trigger] f1[j].pos) == c by {
                    if c == cq {
                        assert(self.cell(f1[i as int].pos) == c);
                    } else if c == cp {
                        assert(t >= self.fish_repro_time);
                        assert(self.cell(f1[f0.len() as int].pos) == c);
                    } else {
                        assert(b0[c].fishy());
                        let j = choose|j: int| 0 <= j < f0.len() && self.cell(#[trigger] f0[j].pos) == c;
                        assert(f1[j] == f0[j]);
                    }
                }
                assert forall|c: int|
                    0 <= c < b1.len() && (#[trigger] b1[c]).sharky() implies exists|j: int|
                        0 <= j < self.sharks@.len() && self.cell(#[trigger] self.sharks@[j].pos) == c by {
                    assert(c != cp && c != cq);
                    assert(b0[c].sharky());
                }
                assert forall|j1: int, j2: int|
                    0 <= j1 < j2 < f1.len() implies #[trigger] f1[j1].pos != #[trigger] f1[j2].pos by {
                    if j1 != i && j2 != i && j2 < f0.len() {
                        assert(f0[j1].pos != f0[j2].pos);
                    } else if j2 == f0.len() && j1 != i {
                        assert(f0[j1].pos != f0[i as int].pos);
                    }
                }
                assert forall|j: int| 0 <= j < f1.len() implies in_grid(#[trigger] f1[j].pos, w, h) by {
                    if j < f0.len() && j != i {
                        assert(f1[j] == f0[j]);
                    }
                }
                assert forall|j: int| 0 <= j < f1.len() implies
                    b1[self.cell(#[trigger] f1[j].pos)].fishy() && self.board.at(f1[j].pos).fishy() by {
                    lemma_cell_of(f1[j].pos, q, w, h);
                    assert(!self.none_eaten()[self.cell(f1[j].pos)]);
                    if j < f0.len() && j != i {
                        assert(f1[j] == f0[j]);
                        assert(b0[self.cell(f0[j].pos)].fishy());
                    } else if j == i {
                        assert(f1[j].pos == q);
                    } else {
                        assert(f1[j].pos == start);
                    }
                }
                assert forall|j: int| 0 <= j < self.sharks@.len() implies
                    b1[self.cell(#[trigger] self.sharks@[j].pos)].sharky() && self.board.at(self.sharks@[j].pos).sharky() by {
                    assert(self.sharks@[j] == s0[j]);
                    lemma_cell_of(s0[j].pos, q, w, h);
                    assert(s0[j].starve < self.shark_starves);
                    assert(b0[self.cell(s0[j].pos)].sharky());
                }
                assert(forall|j: int| 0 <= j < self.sharks@.len() ==> (#[trigger] self.sharks@[j]).starve < self.shark_starves);
                assert(self.board.wf());
                assert(self.consistent(self.none_eaten()));
            }
        }
    }

    /// Whether shark `i` finds a fish scanning `eat`.
    pub open spec fn shark_eats(&self, i: int, eat: Seq<(isize, isize)>) -> bool {
        self.first_fish(self.sharks@[i].pos, eat) < 4
    }

    /// Whether shark `i` changes cell, eating or moving.
    pub open spec fn shark_moves(&self, i: int, eat: Seq<(isize, isize)>, mv: Seq<(isize, isize)>) -> bool {
        self.shark_eats(i, eat) || self.first_empty(self.sharks@[i].pos, mv) < 4
    }

    /// Where shark `i` ends: the first fish by `eat`, else the first empty
    /// cell by `mv`, else where it was.
    pub open spec fn shark_dest(&self, i: int, eat: Seq<(isize, isize)>, mv: Seq<(isize, isize)>) -> Point {
        let p = self.sharks@[i].pos;
        if self.shark_eats(i, eat) {
            self.target(p, eat[self.first_fish(p, eat)])
        } else if self.first_empty(p, mv) < 4 {
            self.target(p, mv[self.first_empty(p, mv)])
        } else {
            p
        }
    }

    /// The breeding count of shark `i` once it has moved or not.
    pub open spec fn shark_count(&self, i: int, eat: Seq<(isize, isize)>, mv: Seq<(isize, isize)>) -> u8 {
        let r = self.sharks@[i].repro_time;
        if self.shark_moves(i, eat, mv) {
            r.wrapping_add(1)
        } else {
            r
        }
    }

    /// Whether shark `i` breeds: it moved and its count hit the threshold exactly.
    pub open spec fn shark_breeds(&self, i: int, eat: Seq<(isize, isize)>, mv: Seq<(isize, isize)>) -> bool {
        self.shark_moves(i, eat, mv) && self.shark_count(i, eat, mv) == self.shark_repro_time
    }

    /// The shark list after shark `i` acts.
    pub open spec fn sharks_after_shark_step(&self, i: int, eat: Seq<(isize, isize)>, mv: Seq<(isize, isize)>) -> Seq<Shark> {
        let s = self.sharks@[i];
        let moved = Shark {
            pos: self.shark_dest(i, eat, mv),
            repro_time: if self.shark_breeds(i, eat, mv) { 0 } else { self.shark_count(i, eat, mv) },
            starve: if self.shark_eats(i, eat) { 1 } else { (s.starve + 1) as u8 },
        };
        let upd = self.sharks@.update(i, moved);
        if self.shark_breeds(i, eat, mv) {
            upd.push(Shark { pos: s.pos, repro_time: 0, starve: 0 })
        } else {
            upd
        }
    }

    /// The board after shark `i` acts.
    pub open spec fn board_after_shark_step(&self, i: int, eat: Seq<(isize, isize)>, mv: Seq<(isize, isize)>) -> Seq<Content> {
        let p = self.sharks@[i].pos;
        let q = self.shark_dest(i, eat, mv);
        let mark = if self.shark_eats(i, eat) { Content::FedShark } else { Content::Shark };
        let moved = self.board@.update(self.cell(p), Content::Empty).update(self.cell(q), mark);
        if !self.shark_moves(i, eat, mv) {
            self.board@
        } else if self.shark_breeds(i, eat, mv) {
            moved.update(self.cell(p), Content::NewShark)
        } else {
            moved
        }
    }

    /// The state within the shark phase: the board and lists agree given the
    /// marks in `eaten`, and no shark has gone past starving.
    pub open spec fn shark_phase_ok(&self, eaten: Seq<bool>) -> bool {
        &&& self.consistent(eaten)
        &&& self.params_ok()
        &&& forall|j: int| 0 <= j < self.sharks@.len() ==> (#[trigger] self.sharks@[j]).starve <= self.shark_starves
    }

    /// Shark `i` eats the first fish that the order `eat` finds next to it,
    /// marking that fish's cell in `eaten`; failing that it moves to the first
    /// empty neighbour in the order `mv`. Having changed cell it counts one
    /// more toward breeding, and at the threshold exactly leaves a newborn
    /// shark behind, appended to the list. Its hunger grows by one, from zero
    /// if it ate.
    #[verifier::rlimit(60)]
    pub fn shark_step(&mut self, i: usize, eat: &[(isize, isize); 4], mv: &[(isize, isize); 4], eaten: &mut Vec<bool>)
        requires
            old(self).shark_phase_ok(old(eaten)@),
            i < old(self).sharks@.len(),
            old(self).sharks@[i as int].starve < old(self).shark_starves,
            !old(eaten)@[old(self).cell(old(self).sharks@[i as int].pos)],
            is_order(eat@),
            is_order(mv@),
        ensures
            final(self).shark_phase_ok(final(eaten)@),
            final(self).sharks@ == old(self).sharks_after_shark_step(i as int, eat@, mv@),
            final(self).board@ == old(self).board_after_shark_step(i as int, eat@, mv@),
            final(eaten)@ == if old(self).shark_eats(i as int, eat@) {
                old(eaten)@.update(old(self).cell(old(self).shark_dest(i as int, eat@, mv@)), true)
            } else {
                old(eaten)@
            },
            final(self).fishes@ == old(self).fishes@,
            final(self).board.width == old(self).board.width,
            final(self).board.height == old(self).board.height,
            final(self).fish_repro_time == old(self).fish_repro_time,
            final(self).shark_repro_time == old(self).shark_repro_time,
            final(self).shark_starves == old(self).shark_starves,
    {
        let ghost b0 = self.board@;
        let ghost f0 = self.fishes@;
        let ghost s0 = self.sharks@;
        let ghost e0 = eaten@;
        let ghost w = self.w();
        let ghost h = self.h();
        let start = self.sharks[i].pos;
        let ghost cp = self.cell(start);
        proof {
            lemma_cell_of(start, start, w, h);
            assert(b0[cp].sharky());
            assert forall|j: int| 0 <= j < f0.len() implies
                0 <= #[trigger] self.cell(f0[j].pos) < b0.len() && self.cell(f0[j].pos) != cp by {
                lemma_cell_of(f0[j].pos, start, w, h);
            }
            assert forall|j: int| 0 <= j < s0.len() && j != i implies
                0 <= #[trigger] self.cell(s0[j].pos) < b0.len() && self.cell(s0[j].pos) != cp by {
                lemma_cell_of(s0[j].pos, start, w, h);
            }
        }
        let ke = self.scan(start, eat, true);
        let mut dest = start;
        let mut ate = false;
        let mut moved = false;
        if ke < 4 {
            let d = eat[ke];
            assert(is_unit(eat@[ke as int]));
            let q = start.offset(d.0, d.1, self.board.width, self.board.height);
            proof {
                lemma_cell_of(q, start, w, h);
                assert(b0[self.cell(q)].fishy());
                assert forall|j: int| 0 <= j < s0.len() implies self.cell(#[trigger] s0[j].pos) != self.cell(q) by {}
                assert forall|j: int| 0 <= j < f0.len() && e0[self.cell(#[trigger] f0[j].pos)]
                    implies self.cell(f0[j].pos) != self.cell(q) by {}
            }
            let ix = self.board.index_of(q);
            eaten.set(ix, true);
            self.board.set(start, Content::Empty);
            self.board.set(q, Content::FedShark);
            dest = q;
            ate = true;
            moved = true;
            assert(forall|j: int| 0 <= j < s0.len() ==> self.cell(#[trigger] s0[j].pos) != self.cell(dest));
        } else {
            let km = self.scan(start, mv, false);
            if km < 4 {
                let d = mv[km];
                assert(is_unit(mv@[km as int]));
                let q = start.offset(d.0, d.1, self.board.width, self.board.height);
                proof {
                    lemma_cell_of(q, start, w, h);
                    assert(b0[self.cell(q)].empty());
                    assert forall|j: int| 0 <= j < s0.len() implies self.cell(#[trigger] s0[j].pos) != self.cell(q) by {}
                    assert forall|j: int| 0 <= j < f0.len() implies self.cell(#[trigger] f0[j].pos) != self.cell(q) by {
                        assert(b0[self.cell(f0[j].pos)].fishy() || b0[self.cell(f0[j].pos)].sharky());
                    }
                }
                self.board.set(start, Content::Empty);
                self.board.set(q, Content::Shark);
                dest = q;
                moved = true;
                assert(forall|j: int| 0 <= j < s0.len() ==> self.cell(#[trigger] s0[j].pos) != self.cell(dest));
            }
        }
        let s = self.sharks[i];
        let mut repro = s.repro_time;
        let mut bred = false;
        if moved {
            repro = repro.wrapping_add(1);
            if repro == self.shark_repro_time {
                repro = 0;
                self.sharks.push(Shark::new(start));
                self.board.set(start, Content::NewShark);
                bred = true;
            }
        }
        let hunger = if ate { 0 } else { s.starve };
        self.sharks.set(i, Shark { pos: dest, repro_time: repro, starve: hunger + 1 });
        proof {
            let b1 = self.board@;
            let s1 = self.sharks@;
            let e1 = eaten@;
            let cq = self.cell(dest);
            lemma_cell_of(dest, start, w, h);
            assert(moved == old(self).shark_moves(i as int, eat@, mv@));
            assert(dest == old(self).shark_dest(i as int, eat@, mv@));
            assert(bred == old(self).shark_breeds(i as int, eat@, mv@));
            assert(moved ==> cq != cp);
            assert(moved ==> b1[cq].sharky());
            assert(!moved ==> b1 == b0);
            assert(bred ==> b1[cp] == Content::NewShark);
            assert(moved && !bred ==> b1[cp] == Content::Empty);
            assert(forall|c: int| 0 <= c < b0.len() && c != cp && c != cq ==> #[trigger] b1[c] == b0[c]);
            assert(forall|c: int| 0 <= c < b0.len() && c != cq ==> #[trigger] e1[c] == e0[c]);
            assert(ate ==> e1[cq]);
            assert(!moved ==> cq == cp);
            assert forall|j: int| 0 <= j < f0.len() implies
                if e1[self.cell(#[trigger] f0[j].pos)] {
                    self.board.at(f0[j].pos).sharky()
                } else {
                    self.board.at(f0[j].pos).fishy()
                } by {
                if e0[self.cell(f0[j].pos)] {
                    assert(b0[self.cell(f0[j].pos)].sharky());
                } else {
                    assert(b0[self.cell(f0[j].pos)].fishy());
                }
            }
            assert forall|j: int| 0 <= j < s1.len() implies
                in_grid(#[trigger] s1[j].pos, w, h) && self.board.at(s1[j].pos).sharky()
                    && s1[j].starve <= self.shark_starves by {
                if j < s0.len() && j != i {
                    assert(s1[j] == s0[j]);
                    assert(b0[self.cell(s0[j].pos)].sharky());
                }
            }
            assert forall|j1: int, j2: int|
                0 <= j1 < j2 < s1.len() implies #[trigger] s1[j1].pos != #[trigger] s1[j2].pos by {
                if j1 != i && j2 != i && j2 < s0.len() {
                    assert(s0[j1].pos != s0[j2].pos);
                } else if j2 == s0.len() && j1 != i {
                    assert(s0[j1].pos != s0[i as int].pos);
                } else if j1 == i && j2 < s0.len() && moved {
                    assert(self.cell(s0[j2].pos) != cq);
                } else if j1 == i && j2 < s0.len() {
                    assert(s0[j1].pos != s0[j2].pos);
                }
            }
            assert forall|c: int|
                0 <= c < b1.len() && (#[trigger] b1[c]).fishy() implies exists|j: int|
                    0 <= j < f0.len() && self.cell(#[trigger] f0[j].pos) == c by {
                assert(b0[c].fishy());
            }
            assert forall|c: int|
                0 <= c < b1.len() && (#[trigger] b1[c]).sharky() implies exists|j: int|
                    0 <= j < s1.len() && self.cell(#[trigger] s1[j].pos) == c by {
                if moved && c == cq {
                    assert(self.cell(s1[i as int].pos) == c);
                } else if bred && c == cp {
                    assert(self.cell(s1[s0.len() as int].pos) == c);
                } else {
                    assert(b0[c].sharky());
                    let j = choose|j: int| 0 <= j < s0.len() && self.cell(#[trigger] s0[j].pos) == c;
                    if j == i {
                        assert(s1[j].pos == s0[j].pos);
                    } else {
                        assert(s1[j] == s0[j]);
                    }
                }
            }
            assert(self.consistent(e1));
        }
    }

    /// For each listed fish, whether its cell is marked in `eaten`.
    pub open spec fn eaten_marks(&self, eaten: Seq<bool>) -> Seq<bool> {
        Seq::new(self.fishes@.len(), |j: int| eaten[self.cell(self.fishes@[j].pos)])
    }

    /// For each listed shark, whether it has starved.
    pub open spec fn starved_marks(&self) -> Seq<bool> {
        Seq::new(self.sharks@.len(), |j: int| self.sharks@[j].starve >= self.shark_starves)
    }

    /// Drops from the fish list every fish whose cell is marked in `eaten`.
    pub fn remove_eaten(&mut self, eaten: &Vec<bool>)
        requires
            old(self).shark_phase_ok(eaten@),
        ensures
            final(self).consistent(final(self).none_eaten()),
            final(self).params_ok(),
            final(self).fishes@ == select(old(self).fishes@, old(self).eaten_marks(eaten@), false),
            final(self).sharks@ == old(self).sharks@,
            final(self).board == old(self).board,
            final(self).fish_repro_time == old(self).fish_repro_time,
            final(self).shark_repro_time == old(self).shark_repro_time,
            final(self).shark_starves == old(self).shark_starves,
    {
        let ghost f0 = self.fishes@;
        let ghost w = self.w();
        let ghost h = self.h();
        let mut marks: Vec<bool> = Vec::new();
        let mut j: usize = 0;
        while j < self.fishes.len()
            invariant
                self.shark_phase_ok(eaten@),
                self.fishes@ == f0,
                j <= f0.len(),
                marks@ == self.eaten_marks(eaten@).take(j as int),
            decreases f0.len() - j,
        {
            let ix = self.board.index_of(self.fishes[j].pos);
            marks.push(eaten[ix]);
            j = j + 1;
            proof {
                assert(marks@ =~= self.eaten_marks(eaten@).take(j as int));
            }
        }
        proof {
            assert(marks@ =~= self.eaten_marks(eaten@));
        }
        let _ = clear_by_cond(&mut self.fishes, &marks);
        proof {
            let m = marks@;
            let f1 = self.fishes@;
            let idx = lemma_select(f0, m, false);
            assert forall|k: int| 0 <= k < f1.len() implies
                in_grid(#[trigger] f1[k].pos, w, h) && !eaten@[self.cell(f1[k].pos)]
                    && self.board.at(f1[k].pos).fishy() && !self.none_eaten()[self.cell(f1[k].pos)] by {
                assert(f1[k] == f0[idx[k]]);
                lemma_cell_of(f1[k].pos, f1[k].pos, w, h);
            }
            assert forall|k1: int, k2: int| 0 <= k1 < k2 < f1.len() implies
                #[trigger] f1[k1].pos != #[trigger] f1[k2].pos by {
                assert(idx[k1] < idx[k2]);
                assert(f0[idx[k1]].pos != f0[idx[k2]].pos);
            }
            assert forall|c: int| 0 <= c < self.board@.len() && (#[trigger] self.board@[c]).fishy() implies
                exists|k: int| 0 <= k < f1.len() && self.cell(#[trigger] f1[k].pos) == c by {
                let j = choose|j: int| 0 <= j < f0.len() && self.cell(#[trigger] f0[j].pos) == c;
                assert(!m[j]);
                let k = choose|k: int| 0 <= k < idx.len() && #[trigger] idx[k] == j;
                assert(f1[k] == f0[j]);
            }
            assert(self.consistent(self.none_eaten()));
        }
    }

    /// Drops every shark that has starved from the list and empties its cell.
    pub fn remove_starved(&mut self)
        requires
            old(self).shark_phase_ok(old(self).none_eaten()),
        ensures
            final(self).wf(),
            final(self).sharks@ == select(old(self).sharks@, old(self).starved_marks(), false),
            final(self).fishes@ == old(self).fishes@,
            final(self).board.width == old(self).board.width,
            final(self).board.height == old(self).board.height,
            forall|c: int| 0 <= c < old(self).board@.len() ==> #[trigger] final(self).board@[c] == if (exists|j: int|
                0 <= j < old(self).sharks@.len() && old(self).sharks@[j].starve >= old(self).shark_starves
                    && old(self).cell(#[trigger] old(self).sharks@[j].pos) == c) {
                Content::Empty
            } else {
                old(self).board@[c]
            },
            final(self).fish_repro_time == old(self).fish_repro_time,
            final(self).shark_repro_time == old(self).shark_repro_time,
            final(self).shark_starves == old(self).shark_starves,
    {
        let ghost s0 = self.sharks@;
        let ghost b0 = self.board@;
        let ghost f0 = self.fishes@;
        let ghost w = self.w();
        let ghost h = self.h();
        let mut marks: Vec<bool> = Vec::new();
        let mut j: usize = 0;
        while j < self.sharks.len()
            invariant
                self.sharks@ == s0,
                self.board == old(self).board,
                self.fishes@ == f0,
                self.fish_repro_time == old(self).fish_repro_time,
                self.shark_repro_time == old(self).shark_repro_time,
                self.shark_starves == old(self).shark_starves,
                j <= s0.len(),
                marks@ == self.starved_marks().take(j as int),
            decreases s0.len() - j,
        {
            marks.push(self.sharks[j].starve >= self.shark_starves);
            j = j + 1;
            proof {
                assert(marks@ =~= self.starved_marks().take(j as int));
            }
        }
        proof {
            assert(marks@ =~= self.starved_marks());
        }
        let removed = clear_by_cond(&mut self.sharks, &marks);
        let ghost m = marks@;
        let ghost dead = removed@;
        let ghost idx_dead = lemma_select(s0, m, true);
        let ghost idx_live = lemma_select(s0, m, false);
        proof {
            assert(m == old(self).starved_marks());
            assert forall|j: int| 0 <= j < s0.len() implies #[trigger] m[j] == (s0[j].starve >= self.shark_starves) by {}
            assert forall|k: int| 0 <= k < dead.len() implies in_grid(#[trigger] dead[k].pos, w, h) by {
                assert(dead[k] == s0[idx_dead[k]]);
            }
        }
        let mut r: usize = 0;
        while r < removed.len()
            invariant
                self.board.wf(),
                b0.len() == w * h,
                self.fish_repro_time == old(self).fish_repro_time,
                self.shark_repro_time == old(self).shark_repro_time,
                self.shark_starves == old(self).shark_starves,
                forall|j: int| 0 <= j < s0.len() ==> #[trigger] m[j] == (s0[j].starve >= self.shark_starves),
                self.board.width == w,
                self.board.height == h,
                self.sharks@ == select(s0, m, false),
                self.fishes@ == f0,
                removed@ == dead,
                r <= dead.len(),
                forall|k: int| 0 <= k < dead.len() ==> in_grid(#[trigger] dead[k].pos, w, h),
                forall|c: int| 0 <= c < b0.len() ==> #[trigger] self.board@[c] == if (exists|k: int|
                    0 <= k < r && self.cell(#[trigger] dead[k].pos) == c) {
                    Content::Empty
                } else {
                    b0[c]
                },
            decreases dead.len() - r,
        {
            let p = removed[r].pos;
            let ghost bb = self.board@;
            self.board.set(p, Content::Empty);
            proof {
                lemma_cell_of(p, p, w, h);
                assert(bb.len() == b0.len());
                assert(self.board@ == bb.update(self.cell(p), Content::Empty));
                assert forall|c: int| 0 <= c < b0.len() implies #[trigger] self.board@[c] == if (exists|k: int|
                    0 <= k < r + 1 && self.cell(#[trigger] dead[k].pos) == c) {
                    Content::Empty
                } else {
                    b0[c]
                } by {
                    if c == self.cell(p) {
                        assert(self.cell(dead[r as int].pos) == c);
                    } else {
                        assert(bb[c] == self.board@[c]);
                        if exists|k: int| 0 <= k < r && self.cell(#[trigger] dead[k].pos) == c {
                        } else {
                            assert(!exists|k: int| 0 <= k < r + 1 && self.cell(#[trigger] dead[k].pos) == c);
                        }
                    }
                }
            }
            r = r + 1;
        }
        proof {
            let s1 = self.sharks@;
            let b1 = self.board@;
            // A cell emptied here held a dead shark, hence no live entity.
            assert forall|c: int| #![trigger b1[c]] 0 <= c < b0.len() && (exists|k: int|
                0 <= k < dead.len() && self.cell(#[trigger] dead[k].pos) == c) implies
                (exists|j: int| 0 <= j < s0.len() && s0[j].starve >= self.shark_starves
                    && self.cell(#[trigger] s0[j].pos) == c) by {
                let k = choose|k: int| 0 <= k < dead.len() && self.cell(#[trigger] dead[k].pos) == c;
                assert(dead[k] == s0[idx_dead[k]]);
            }
            assert forall|c: int| #![trigger b1[c]] 0 <= c < b0.len() && (exists|j: int| 0 <= j < s0.len() && s0[j].starve >= self.shark_starves
                    && self.cell(#[trigger] s0[j].pos) == c) implies
                (exists|k: int| 0 <= k < dead.len() && self.cell(#[trigger] dead[k].pos) == c) by {
                let j = choose|j: int| 0 <= j < s0.len() && s0[j].starve >= self.shark_starves
                    && self.cell(#[trigger] s0[j].pos) == c;
                assert(m[j]);
                let k = choose|k: int| 0 <= k < idx_dead.len() && #[trigger] idx_dead[k] == j;
                assert(dead[k] == s0[j]);
            }
            assert forall|k: int| 0 <= k < s1.len() implies
                in_grid(#[trigger] s1[k].pos, w, h) && self.board.at(s1[k].pos).sharky()
                    && s1[k].starve < self.shark_starves by {
                let j = idx_live[k];
                assert(s1[k] == s0[j]);
                lemma_cell_of(s0[j].pos, s0[j].pos, w, h);
                if exists|d: int| 0 <= d < dead.len() && self.cell(#[trigger] dead[d].pos) == self.cell(s0[j].pos) {
                    let d = choose|d: int| 0 <= d < dead.len() && self.cell(#[trigger] dead[d].pos) == self.cell(s0[j].pos);
                    assert(dead[d] == s0[idx_dead[d]]);
                    lemma_cell_of(s0[j].pos, s0[idx_dead[d]].pos, w, h);
                    assert(false);
                }
            }
            assert forall|k1: int, k2: int| 0 <= k1 < k2 < s1.len() implies
                #[trigger] s1[k1].pos != #[trigger] s1[k2].pos by {
                assert(idx_live[k1] < idx_live[k2]);
                assert(s0[idx_live[k1]].pos != s0[idx_live[k2]].pos);
            }
            assert forall|j: int| 0 <= j < f0.len() implies
                (#[trigger] f0[j]).pos == f0[j].pos && self.board.at(f0[j].pos).fishy()
                    && !self.none_eaten()[self.cell(f0[j].pos)] by {
                lemma_cell_of(f0[j].pos, f0[j].pos, w, h);
                assert(!old(self).none_eaten()[self.cell(f0[j].pos)]);
                assert(b0[self.cell(f0[j].pos)].fishy());
                if exists|d: int| 0 <= d < dead.len() && self.cell(#[trigger] dead[d].pos) == self.cell(f0[j].pos) {
                    let d = choose|d: int| 0 <= d < dead.len() && self.cell(#[trigger] dead[d].pos) == self.cell(f0[j].pos);
                    assert(dead[d] == s0[idx_dead[d]]);
                    assert(b0[self.cell(s0[idx_dead[d]].pos)].sharky());
                }
            }
            assert forall|c: int| 0 <= c < b1.len() && (#[trigger] b1[c]).fishy() implies
                exists|k: int| 0 <= k < f0.len() && self.cell(#[trigger] f0[k].pos) == c by {
                assert(b0[c].fishy());
            }
            assert forall|c: int| 0 <= c < b1.len() && (#[trigger] b1[c]).sharky() implies
                exists|k: int| 0 <= k < s1.len() && self.cell(#[trigger] s1[k].pos) == c by {
                assert(b0[c].sharky());
                let j = choose|j: int| 0 <= j < s0.len() && self.cell(#[trigger] s0[j].pos) == c;
                if m[j] {
                    let k = choose|k: int| 0 <= k < idx_dead.len() && #[trigger] idx_dead[k] == j;
                    assert(dead[k] == s0[j]);
                    assert(false);
                }
                let k = choose|k: int| 0 <= k < idx_live.len() && #[trigger] idx_live[k] == j;
                assert(s1[k] == s0[j]);
            }
            assert(self.none_eaten() == old(self).none_eaten());
            assert(self.consistent(self.none_eaten()));
            assert(self.params_ok());
        }
    }

    /// The same grid size and thresholds as `o`.
    pub open spec fn same_frame(&self, o: World) -> bool {
        &&& self.board.width == o.board.width
        &&& self.board.height == o.board.height
        &&& self.fish_repro_time == o.fish_repro_time
        &&& self.shark_repro_time == o.shark_repro_time
        &&& self.shark_starves == o.shark_starves
    }

    /// `next` is this world after fish `i` steps under the order `dirs`.
    #[verifier::opaque]
    pub open spec fn is_fish_step(&self, next: World, i: int, dirs: Seq<(isize, isize)>) -> bool {
        &&& self.same_frame(next)
        &&& next.fishes@ == self.fishes_after_fish_step(i, dirs)
        &&& next.board@ == self.board_after_fish_step(i, dirs)
        &&& next.sharks@ == self.sharks@
    }

    /// `next`, with marks `next_eaten`, is this world with marks `eaten` after
    /// shark `i` steps under the orders `eat` and `mv`.
    #[verifier::opaque]
    pub open spec fn is_shark_step(
        &self,
        eaten: Seq<bool>,
        next: World,
        next_eaten: Seq<bool>,
        i: int,
        eat: Seq<(isize, isize)>,
        mv: Seq<(isize, isize)>,
    ) -> bool {
        &&& self.same_frame(next)
        &&& next.sharks@ == self.sharks_after_shark_step(i, eat, mv)
        &&& next.board@ == self.board_after_shark_step(i, eat, mv)
        &&& next.fishes@ == self.fishes@
        &&& next_eaten == if self.shark_eats(i, eat) {
            eaten.update(self.cell(self.shark_dest(i, eat, mv)), true)
        } else {
            eaten
        }
    }

    /// `next` is this world after one tick under the move orders `fo` (one per
    /// fish), `eo` and `mo` (one each per shark), where `ft` holds the world
    /// before and after each fish step, `st` before and after each shark step,
    /// and `et` the eaten marks along the shark phase. The board first loses
    /// its New and Fed marks; the fish listed at the start step in order, then
    /// the sharks listed at the start; then eaten fish leave the list, and
    /// starved sharks leave the list and the board.
    #[verifier::opaque]
    pub open spec fn is_tick(
        &self,
        next: World,
        fo: Seq<[(isize, isize); 4]>,
        eo: Seq<[(isize, isize); 4]>,
        mo: Seq<[(isize, isize); 4]>,
        ft: Seq<World>,
        st: Seq<World>,
        et: Seq<Seq<bool>>,
    ) -> bool {
        let nf = self.fishes@.len() as int;
        let ns = self.sharks@.len() as int;
        let last = st[ns];
        &&& fo.len() == nf && eo.len() == ns && mo.len() == ns
        &&& ft.len() == nf + 1 && st.len() == ns + 1 && et.len() == ns + 1
        &&& self.same_frame(ft[0])
        &&& ft[0].board@ == plain_board(self.board@)
        &&& ft[0].fishes@ == self.fishes@
        &&& ft[0].sharks@ == self.sharks@
        &&& forall|k: int| 0 <= k < nf ==> (#[trigger] ft[k]).is_fish_step(ft[k + 1], k, fo[k]@)
        &&& st[0] == ft[nf]
        &&& et[0] == ft[nf].none_eaten()
        &&& forall|k: int| 0 <= k < ns ==> (#[trigger] st[k]).is_shark_step(et[k], st[k + 1], et[k + 1], k, eo[k]@, mo[k]@)
        &&& last.shark_phase_ok(et[ns])
        &&& next.same_frame(last)
        &&& next.fishes@ == select(last.fishes@, last.eaten_marks(et[ns]), false)
        &&& next.sharks@ == select(last.sharks@, last.starved_marks(), false)
        &&& next.board@.len() == last.board@.len()
        &&& forall|c: int| 0 <= c < last.board@.len() ==> #[trigger] next.board@[c] == if (exists|j: int|
            0 <= j < last.sharks@.len() && last.sharks@[j].starve >= last.shark_starves
                && last.cell(#[trigger] last.sharks@[j].pos) == c) {
            Content::Empty
        } else {
            last.board@[c]
        }
    }

    /// `next` is this world after one tick under the given move orders.
    pub open spec fn tick_by(
        &self,
        next: World,
        fo: Seq<[(isize, isize); 4]>,
        eo: Seq<[(isize, isize); 4]>,
        mo: Seq<[(isize, isize); 4]>,
    ) -> bool {
        exists|ft: Seq<World>, st: Seq<World>, et: Seq<Seq<bool>>| self.is_tick(next, fo, eo, mo, ft, st, et)
    }

    /// Turns every New and Fed mark back into the plain code.
    fn reset_marks(&mut self)
        requires
            old(self).wf(),
        ensures
            final(self).wf(),
            old(self).same_frame(*final(self)),
            final(self).board@ == plain_board(old(self).board@),
            final(self).fishes@ == old(self).fishes@,
            final(self).sharks@ == old(self).sharks@,
    {
        let ghost b0 = self.board@;
        let n = self.board.data.len();
        let mut c: usize = 0;
        while c < n
            invariant
                old(self).wf(),
                self.board.wf(),
                n == b0.len(),
                c <= n,
                old(self).same_frame(*self),
                b0 == old(self).board@,
                self.fishes@ == old(self).fishes@,
                self.sharks@ == old(self).sharks@,
                self.board@.len() == n,
                forall|j: int| 0 <= j < c ==> #[trigger] self.board@[j] == plain(b0[j]),
                forall|j: int| c <= j < n ==> #[trigger] self.board@[j] == b0[j],
            decreases n - c,
        {
            let v = self.board.data[c];
            let p = match v {
                Content::NewFish => Content::Fish,
                Content::NewShark => Content::Shark,
                Content::FedShark => Content::Shark,
                other => other,
            };
            self.board.data.set(c, p);
            c = c + 1;
        }
        proof {
            assert(self.board@ =~= plain_board(b0));
            assert(self.none_eaten() == old(self).none_eaten());
            assert forall|j: int| 0 <= j < self.fishes@.len() implies
                self.board.at(#[trigger] self.fishes@[j].pos).fishy()
                    && !self.none_eaten()[self.cell(self.fishes@[j].pos)] by {
                lemma_cell_of(self.fishes@[j].pos, self.fishes@[j].pos, self.w(), self.h());
                assert(!old(self).none_eaten()[self.cell(self.fishes@[j].pos)]);
                assert(b0[self.cell(self.fishes@[j].pos)].fishy());
            }
            assert forall|j: int| 0 <= j < self.sharks@.len() implies
                self.board.at(#[trigger] self.sharks@[j].pos).sharky() by {
                lemma_cell_of(self.sharks@[j].pos, self.sharks@[j].pos, self.w(), self.h());
                assert(b0[self.cell(self.sharks@[j].pos)].sharky());
            }
            assert forall|c: int| 0 <= c < n && (#[trigger] self.board@[c]).fishy() implies
                exists|k: int| 0 <= k < self.fishes@.len() && self.cell(#[trigger] self.fishes@[k].pos) == c by {
                assert(b0[c].fishy());
            }
            assert forall|c: int| 0 <= c < n && (#[trigger] self.board@[c]).sharky() implies
                exists|k: int| 0 <= k < self.sharks@.len() && self.cell(#[trigger] self.sharks@[k].pos) == c by {
                assert(b0[c].sharky());
            }
            assert(self.consistent(self.none_eaten()));
        }
    }

    /// Steps every listed fish once, in list order, fish `k` under
    /// `fish_orders[k]`; returns the world before and after each step.
    fn fish_phase(&mut self, fish_orders: &Vec<[(isize, isize); 4]>) -> (ft: Ghost<Seq<World>>)
        requires
            old(self).wf(),
            fish_orders@.len() == old(self).fishes@.len(),
            orders_ok(fish_orders@),
        ensures
            final(self).wf(),
            old(self).same_frame(*final(self)),
            final(self).sharks@ == old(self).sharks@,
            ft@.len() == fish_orders@.len() + 1,
            ft@[0] == *old(self),
            ft@[fish_orders@.len() as int] == *final(self),
            forall|k: int| 0 <= k < fish_orders@.len() ==> (#[trigger] ft@[k]).is_fish_step(ft@[k + 1], k, fish_orders@[k]@),
    {
        let ghost mut ft: Seq<World> = seq![*self];
        let n_fish = self.fishes.len();
        let mut i: usize = 0;
        while i < n_fish
            invariant
                self.wf(),
                i <= n_fish <= self.fishes@.len(),
                fish_orders@.len() == n_fish,
                orders_ok(fish_orders@),
                old(self).same_frame(*self),
                self.sharks@ == old(self).sharks@,
                ft.len() == i + 1,
                ft[0] == *old(self),
                ft[i as int] == *self,
                forall|k: int| 0 <= k < i ==> (#[trigger] ft[k]).is_fish_step(ft[k + 1], k, fish_orders@[k]@),
            decreases n_fish - i,
        {
            let ghost before = *self;
            let dirs = fish_orders[i];
            assert(is_order(fish_orders@[i as int]@));
            self.fish_step(i, &dirs);
            proof {
                reveal(World::is_fish_step);
                assert(before.is_fish_step(*self, i as int, fish_orders@[i as int]@));
                let ft0 = ft;
                ft = ft.push(*self);
                assert forall|k: int| 0 <= k < i + 1 implies (#[trigger] ft[k]).is_fish_step(ft[k + 1], k, fish_orders@[k]@) by {
                    if k < i {
                        assert(ft[k] == ft0[k] && ft[k + 1] == ft0[k + 1]);
                    }
                }
            }
            i = i + 1;
        }
        Ghost(ft)
    }

    /// Steps every listed shark once, in list order, shark `k` under
    /// `eat_orders[k]` and `move_orders[k]`, marking eaten fish in `eaten`;
    /// returns the world and the marks before and after each step.
    #[verifier::rlimit(60)]
    fn shark_phase(
        &mut self,
        eat_orders: &Vec<[(isize, isize); 4]>,
        move_orders: &Vec<[(isize, isize); 4]>,
        eaten: &mut Vec<bool>,
    ) -> (r: Ghost<(Seq<World>, Seq<Seq<bool>>)>)
        requires
            old(self).wf(),
            old(eaten)@ == old(self).none_eaten(),
            eat_orders@.len() == old(self).sharks@.len(),
            move_orders@.len() == old(self).sharks@.len(),
            orders_ok(eat_orders@),
            orders_ok(move_orders@),
        ensures
            final(self).shark_phase_ok(final(eaten)@),
            old(self).same_frame(*final(self)),
            r@.0.len() == eat_orders@.len() + 1,
            r@.1.len() == eat_orders@.len() + 1,
            r@.0[0] == *old(self),
            r@.1[0] == old(eaten)@,
            r@.0[eat_orders@.len() as int] == *final(self),
            r@.1[eat_orders@.len() as int] == final(eaten)@,
            forall|k: int| 0 <= k < eat_orders@.len() ==> (#[trigger] r@.0[k]).is_shark_step(
                r@.1[k], r@.0[k + 1], r@.1[k + 1], k, eat_orders@[k]@, move_orders@[k]@),
    {
        let ghost mut st: Seq<World> = seq![*self];
        let ghost mut et: Seq<Seq<bool>> = seq![eaten@];
        let n_sharks = self.sharks.len();
        proof {
            assert forall|j: int| 0 <= j < n_sharks implies (#[trigger] self.sharks@[j]).starve < self.shark_starves
                && !eaten@[self.cell(self.sharks@[j].pos)] by {
                lemma_cell_of(self.sharks@[j].pos, self.sharks@[j].pos, self.w(), self.h());
            }
        }
        let mut i: usize = 0;
        while i < n_sharks
            invariant
                self.shark_phase_ok(eaten@),
                i <= n_sharks <= self.sharks@.len(),
                forall|j: int| i <= j < n_sharks ==> (#[trigger] self.sharks@[j]).starve < self.shark_starves
                    && !eaten@[self.cell(self.sharks@[j].pos)],
                eat_orders@.len() == n_sharks,
                move_orders@.len() == n_sharks,
                orders_ok(eat_orders@),
                orders_ok(move_orders@),
                old(self).same_frame(*self),
                st.len() == i + 1,
                et.len() == i + 1,
                st[0] == *old(self),
                et[0] == old(eaten)@,
                st[i as int] == *self,
                et[i as int] == eaten@,
                forall|k: int| 0 <= k < i ==> (#[trigger] st[k]).is_shark_step(et[k], st[k + 1], et[k + 1], k, eat_orders@[k]@, move_orders@[k]@),
            decreases n_sharks - i,
        {
            let ghost before = *self;
            let ghost e0 = eaten@;
            let ed = eat_orders[i];
            let md = move_orders[i];
            assert(is_order(eat_orders@[i as int]@));
            assert(is_order(move_orders@[i as int]@));
            self.shark_step(i, &ed, &md, eaten);
            proof {
                let w = self.w();
                let h = self.h();
                reveal(World::is_shark_step);
                assert(before.is_shark_step(e0, *self, eaten@, i as int, eat_orders@[i as int]@, move_orders@[i as int]@));
                let st0 = st;
                let et0 = et;
                st = st.push(*self);
                et = et.push(eaten@);
                assert forall|k: int| 0 <= k < i + 1 implies (#[trigger] st[k]).is_shark_step(et[k], st[k + 1], et[k + 1], k, eat_orders@[k]@, move_orders@[k]@) by {
                    if k < i {
                        assert(st[k] == st0[k] && st[k + 1] == st0[k + 1]);
                        assert(et[k] == et0[k] && et[k + 1] == et0[k + 1]);
                    }
                }
                assert forall|j: int| i + 1 <= j < n_sharks implies (#[trigger] self.sharks@[j]).starve < self.shark_starves
                    && !eaten@[self.cell(self.sharks@[j].pos)] by {
                    assert(self.sharks@[j] == before.sharks@[j]);
                    assert(self.sharks@[j].pos != self.sharks@[i as int].pos);
                    lemma_cell_of(self.sharks@[j].pos, self.sharks@[i as int].pos, w, h);
                    lemma_cell_of(self.sharks@[i as int].pos, self.sharks@[j].pos, w, h);
                    assert(!e0[self.cell(before.sharks@[j].pos)]);
                }
            }
            i = i + 1;
        }
        Ghost((st, et))
    }

    /// One unset mark per cell.
    fn fresh_marks(&self) -> (r: Vec<bool>)
        requires
            self.board.wf(),
        ensures
            r@ == self.none_eaten(),
    {
        let n_cells = self.board.data.len();
        let mut eaten: Vec<bool> = Vec::new();
        let mut c: usize = 0;
        while c < n_cells
            invariant
                c <= n_cells,
                n_cells == self.board@.len(),
                eaten@ == self.none_eaten().take(c as int),
            decreases n_cells - c,
        {
            eaten.push(false);
            c = c + 1;
            proof {
                assert(eaten@ =~= self.none_eaten().take(c as int));
            }
        }
        proof {
            assert(eaten@ =~= self.none_eaten());
        }
        eaten
    }

    /// Advances the simulation by one tick under the given move orders: one
    /// order per fish listed at the start, and per shark listed at the start
    /// one order for eating and one for moving.
    #[verifier::rlimit(100)]
    pub fn tick_with(
        &mut self,
        fish_orders: &Vec<[(isize, isize); 4]>,
        eat_orders: &Vec<[(isize, isize); 4]>,
        move_orders: &Vec<[(isize, isize); 4]>,
    )
        requires
            old(self).wf(),
            fish_orders@.len() == old(self).fishes@.len(),
            eat_orders@.len() == old(self).sharks@.len(),
            move_orders@.len() == old(self).sharks@.len(),
            orders_ok(fish_orders@),
            orders_ok(eat_orders@),
            orders_ok(move_orders@),
        ensures
            final(self).wf(),
            old(self).same_frame(*final(self)),
            old(self).tick_by(*final(self), fish_orders@, eat_orders@, move_orders@),
    {
        let ghost start = *self;
        self.reset_marks();
        let ft = self.fish_phase(fish_orders);
        let mut eaten = self.fresh_marks();
        let traces = self.shark_phase(eat_orders, move_orders, &mut eaten);
        let ghost last = *self;
        self.remove_eaten(&eaten);
        let ghost mid = *self;
        self.remove_starved();
        proof {
            let (st, et) = traces@;
            let nf = start.fishes@.len() as int;
            let ns = start.sharks@.len() as int;
            assert(ft@[0].board@ == plain_board(start.board@));
            assert(st[0] == ft@[nf]);
            assert(et[0] == ft@[nf].none_eaten());
            assert(st[ns] == last);
            assert(mid.starved_marks() =~= last.starved_marks());
            assert(self.fishes@ == select(last.fishes@, last.eaten_marks(et[ns]), false));
            assert(self.sharks@ == select(last.sharks@, last.starved_marks(), false));
            reveal(World::is_tick);
            assert(start.is_tick(*self, fish_orders@, eat_orders@, move_orders@, ft@, st, et));
        }
    }

    /// Advances the simulation by one tick: every fish listed at the start
    /// steps once in list order, each under a fresh random order of the four
    /// moves, then every shark listed at the start, each with fresh orders for
    /// eating and for moving; newborns wait for the next tick. Then the eaten
    /// fish leave the list, and the starved sharks leave it and the board.
    /// All the orders are drawn before the tick begins.
    pub fn update(&mut self)
        requires
            old(self).wf(),
        ensures
            final(self).wf(),
            old(self).same_frame(*final(self)),
            exists|fo: Seq<[(isize, isize); 4]>, eo: Seq<[(isize, isize); 4]>, mo: Seq<[(isize, isize); 4]>|
                orders_ok(fo) && orders_ok(eo) && orders_ok(mo) && #[trigger] old(self).tick_by(*final(self), fo, eo, mo),
    {
        let mut directions: [(isize, isize); 4] = [(-1, 0), (1, 0), (0, -1), (0, 1)];
        proof {
            assert(directions@[0] == (-1isize, 0isize));
            assert(directions@[1] == (1isize, 0isize));
            assert(directions@[2] == (0isize, -1isize));
            assert(directions@[3] == (0isize, 1isize));
        }
        let mut fish_orders: Vec<[(isize, isize); 4]> = Vec::new();
        while fish_orders.len() < self.fishes.len()
            invariant
                is_order(directions@),
                orders_ok(fish_orders@),
                fish_orders@.len() <= self.fishes@.len(),
                self.fishes@ == old(self).fishes@,
                self.sharks@ == old(self).sharks@,
                self.board == old(self).board,
                old(self).same_frame(*self),
            decreases self.fishes@.len() - fish_orders@.len(),
        {
            let ghost before = directions@;
            shuffle_directions(&mut self.rng, &mut directions);
            proof {
                lemma_order_permuted(before, directions@);
            }
            fish_orders.push(directions);
        }
        let mut eat_orders: Vec<[(isize, isize); 4]> = Vec::new();
        let mut move_orders: Vec<[(isize, isize); 4]> = Vec::new();
        while eat_orders.len() < self.sharks.len()
            invariant
                is_order(directions@),
                orders_ok(eat_orders@),
                orders_ok(move_orders@),
                orders_ok(fish_orders@),
                fish_orders@.len() == self.fishes@.len(),
                eat_orders@.len() == move_orders@.len(),
                eat_orders@.len() <= self.sharks@.len(),
                self.fishes@ == old(self).fishes@,
                self.sharks@ == old(self).sharks@,
                self.board == old(self).board,
                old(self).same_frame(*self),
            decreases self.sharks@.len() - eat_orders@.len(),
        {
            let ghost before = directions@;
            shuffle_directions(&mut self.rng, &mut directions);
            proof {
                lemma_order_permuted(before, directions@);
            }
            eat_orders.push(directions);
            let ghost before = directions@;
            shuffle_directions(&mut self.rng, &mut directions);
            proof {
                lemma_order_permuted(before, directions@);
            }
            move_orders.push(directions);
        }
        let ghost drawn = *self;
        proof {
            assert(drawn.wf() == old(self).wf());
        }
        self.tick_with(&fish_orders, &eat_orders, &move_orders);
        proof {
            assert(drawn.tick_by(*self, fish_orders@, eat_orders@, move_orders@));
            let ghost_tick = choose|ft: Seq<World>, st: Seq<World>, et: Seq<Seq<bool>>|
                drawn.is_tick(*self, fish_orders@, eat_orders@, move_orders@, ft, st, et);
            reveal(World::is_tick);
            assert(old(self).is_tick(*self, fish_orders@, eat_orders@, move_orders@, ghost_tick.0, ghost_tick.1, ghost_tick.2));
            assert(old(self).tick_by(*self, fish_orders@, eat_orders@, move_orders@));
        }
    }

    /// A world with an empty board and no animals.
    fn empty(width: usize, height: usize, fish_repro_time: u8, shark_repro_time: u8, shark_starves: u8, seed: u64) -> (r: World)
        requires
            dims_ok(width as int, height as int),
            fish_repro_time > 0,
            shark_repro_time > 0,
            shark_starves > 0,
        ensures
            r.wf(),
            r.fishes@.len() == 0,
            r.sharks@.len() == 0,
            r.board.width == width,
            r.board.height == height,
            r.fish_repro_time == fish_repro_time,
            r.shark_repro_time == shark_repro_time,
            r.shark_starves == shark_starves,
    {
        let board = Board::new(width, height);
        let r = World {
            board,
            fishes: Vec::new(),
            sharks: Vec::new(),
            fish_repro_time,
            shark_repro_time,
            shark_starves,
            rng: seeded_rng(seed),
        };
        proof {
            assert forall|c: int| 0 <= c < r.board@.len() implies !(#[trigger] r.board@[c]).fishy() && !r.board@[c].sharky() by {}
        }
        r
    }

    /// Places `f` if its cell is on the grid and empty; says whether it did.
    fn add_fish(&mut self, f: Fish) -> (r: bool)
        requires
            old(self).wf(),
        ensures
            final(self).wf(),
            r == (in_grid(f.pos, old(self).w(), old(self).h()) && old(self).board.at(f.pos).empty()),
            r ==> final(self).fishes@ == old(self).fishes@.push(f),
            !r ==> final(self).fishes@ == old(self).fishes@,
            r ==> final(self).board@ == old(self).board@.update(old(self).cell(f.pos), Content::Fish),
            !r ==> final(self).board@ == old(self).board@,
            final(self).sharks@ == old(self).sharks@,
            final(self).board.width == old(self).board.width,
            final(self).board.height == old(self).board.height,
            final(self).fish_repro_time == old(self).fish_repro_time,
            final(self).shark_repro_time == old(self).shark_repro_time,
            final(self).shark_starves == old(self).shark_starves,
    {
        if f.pos.x < 0 || f.pos.y < 0 || f.pos.x as usize >= self.board.width || f.pos.y as usize >= self.board.height {
            return false;
        }
        if !self.board.get(f.pos).is_empty() {
            return false;
        }
        let ghost b0 = self.board@;
        let ghost f0 = self.fishes@;
        let ghost s0 = self.sharks@;
        let ghost (w, h) = (self.w(), self.h());
        let ghost cp = self.cell(f.pos);
        proof {
            lemma_cell_of(f.pos, f.pos, w, h);
            assert forall|j: int| 0 <= j < f0.len() implies #[trigger] f0[j].pos != f.pos
                && self.cell(f0[j].pos) != cp && 0 <= self.cell(f0[j].pos) < b0.len() by {
                lemma_cell_of(f0[j].pos, f.pos, w, h);
                assert(!self.none_eaten()[self.cell(f0[j].pos)]);
            }
            assert forall|j: int| 0 <= j < s0.len() implies #[trigger] s0[j].pos != f.pos
                && self.cell(s0[j].pos) != cp && 0 <= self.cell(s0[j].pos) < b0.len() by {
                lemma_cell_of(s0[j].pos, f.pos, w, h);
            }
        }
        self.board.set(f.pos, Content::Fish);
        self.fishes.push(f);
        proof {
            let b1 = self.board@;
            let f1 = self.fishes@;
            assert forall|j: int| 0 <= j < f1.len() implies
                in_grid(#[trigger] f1[j].pos, w, h) && self.board.at(f1[j].pos).fishy()
                    && !self.none_eaten()[self.cell(f1[j].pos)] by {
                if j < f0.len() {
                    assert(f1[j] == f0[j]);
                    assert(!old(self).none_eaten()[self.cell(f0[j].pos)]);
                }
            }
            assert forall|j: int| 0 <= j < s0.len() implies
                self.board.at(#[trigger] s0[j].pos).sharky() by {}
            assert forall|c: int| 0 <= c < b1.len() && (#[trigger] b1[c]).fishy() implies
                exists|k: int| 0 <= k < f1.len() && self.cell(#[trigger] f1[k].pos) == c by {
                if c == cp {
                    assert(self.cell(f1[f0.len() as int].pos) == c);
                } else {
                    let j = choose|j: int| 0 <= j < f0.len() && self.cell(#[trigger] f0[j].pos) == c;
                    assert(f1[j] == f0[j]);
                }
            }
            assert forall|c: int| 0 <= c < b1.len() && (#[trigger] b1[c]).sharky() implies
                exists|k: int| 0 <= k < s0.len() && self.cell(#[trigger] s0[k].pos) == c by {
                assert(b0[c].sharky());
            }
            assert forall|j1: int, j2: int| 0 <= j1 < j2 < f1.len() implies
                #[trigger] f1[j1].pos != #[trigger] f1[j2].pos by {
                if j2 < f0.len() {
                    assert(f0[j1].pos != f0[j2].pos);
                }
            }
            assert(self.none_eaten() == old(self).none_eaten());
            assert(self.consistent(self.none_eaten()));
        }
        true
    }

    /// Places `s` if its cell is on the grid and empty and it has not starved;
    /// says whether it did.
    fn add_shark(&mut self, s: Shark) -> (r: bool)
        requires
            old(self).wf(),
        ensures
            final(self).wf(),
            r == (in_grid(s.pos, old(self).w(), old(self).h()) && old(self).board.at(s.pos).empty()
                && s.starve < old(self).shark_starves),
            r ==> final(self).sharks@ == old(self).sharks@.push(s),
            !r ==> final(self).sharks@ == old(self).sharks@,
            r ==> final(self).board@ == old(self).board@.update(old(self).cell(s.pos), Content::Shark),
            !r ==> final(self).board@ == old(self).board@,
            final(self).fishes@ == old(self).fishes@,
            final(self).board.width == old(self).board.width,
            final(self).board.height == old(self).board.height,
            final(self).fish_repro_time == old(self).fish_repro_time,
            final(self).shark_repro_time == old(self).shark_repro_time,
            final(self).shark_starves == old(self).shark_starves,
    {
        if s.pos.x < 0 || s.pos.y < 0 || s.pos.x as usize >= self.board.width || s.pos.y as usize >= self.board.height {
            return false;
        }
        if !self.board.get(s.pos).is_empty() || s.starve >= self.shark_starves {
            return false;
        }
        let ghost b0 = self.board@;
        let ghost f0 = self.fishes@;
        let ghost s0 = self.sharks@;
        let ghost (w, h) = (self.w(), self.h());
        let ghost cp = self.cell(s.pos);
        proof {
            lemma_cell_of(s.pos, s.pos, w, h);
            assert forall|j: int| 0 <= j < f0.len() implies #[trigger] f0[j].pos != s.pos
                && self.cell(f0[j].pos) != cp && 0 <= self.cell(f0[j].pos) < b0.len() by {
                lemma_cell_of(f0[j].pos, s.pos, w, h);
                assert(!self.none_eaten()[self.cell(f0[j].pos)]);
            }
            assert forall|j: int| 0 <= j < s0.len() implies #[trigger] s0[j].pos != s.pos
                && self.cell(s0[j].pos) != cp && 0 <= self.cell(s0[j].pos) < b0.len() by {
                lemma_cell_of(s0[j].pos, s.pos, w, h);
            }
        }
        self.board.set(s.pos, Content::Shark);
        self.sharks.push(s);
        proof {
            let b1 = self.board@;
            let s1 = self.sharks@;
            assert forall|j: int| 0 <= j < f0.len() implies
                self.board.at(#[trigger] f0[j].pos).fishy() && !self.none_eaten()[self.cell(f0[j].pos)] by {
                assert(!old(self).none_eaten()[self.cell(f0[j].pos)]);
            }
            assert forall|j: int| 0 <= j < s1.len() implies
                in_grid(#[trigger] s1[j].pos, w, h) && self.board.at(s1[j].pos).sharky()
                    && s1[j].starve < self.shark_starves by {
                if j < s0.len() {
                    assert(s1[j] == s0[j]);
                }
            }
            assert forall|c: int| 0 <= c < b1.len() && (#[trigger] b1[c]).sharky() implies
                exists|k: int| 0 <= k < s1.len() && self.cell(#[trigger] s1[k].pos) == c by {
                if c == cp {
                    assert(self.cell(s1[s0.len() as int].pos) == c);
                } else {
                    let j = choose|j: int| 0 <= j < s0.len() && self.cell(#[trigger] s0[j].pos) == c;
                    assert(s1[j] == s0[j]);
                }
            }
            assert forall|c: int| 0 <= c < b1.len() && (#[trigger] b1[c]).fishy() implies
                exists|k: int| 0 <= k < f0.len() && self.cell(#[trigger] f0[k].pos) == c by {
                assert(b0[c].fishy());
            }
            assert forall|j1: int, j2: int| 0 <= j1 < j2 < s1.len() implies
                #[trigger] s1[j1].pos != #[trigger] s1[j2].pos by {
                if j2 < s0.len() {
                    assert(s0[j1].pos != s0[j2].pos);
                }
            }
            assert(self.none_eaten() == old(self).none_eaten());
            assert(self.consistent(self.none_eaten()));
        }
        true
    }

    /// A world holding exactly the given animals, in the given order, on a
    /// board that marks each one's cell; an error if they cannot stand there
    /// together.
    pub fn from_parts(
        width: usize,
        height: usize,
        fishes: Vec<Fish>,
        sharks: Vec<Shark>,
        fish_repro_time: u8,
        shark_repro_time: u8,
        shark_starves: u8,
        seed: u64,
    ) -> (r: Result<World, WorldError>)
        requires
            dims_ok(width as int, height as int),
            fish_repro_time > 0,
            shark_repro_time > 0,
            shark_starves > 0,
        ensures
            r is Ok <==> layout_ok(fishes@, sharks@, width as int, height as int, shark_starves),
            r is Err ==> r == Err::<World, WorldError>(WorldError::InvalidLayout),
            r matches Ok(wd) ==> {
                &&& wd.wf()
                &&& wd.fishes@ == fishes@
                &&& wd.sharks@ == sharks@
                &&& wd.board.width == width
                &&& wd.board.height == height
                &&& wd.fish_repro_time == fish_repro_time
                &&& wd.shark_repro_time == shark_repro_time
                &&& wd.shark_starves == shark_starves
            },
    {
        let mut wd = World::empty(width, height, fish_repro_time, shark_repro_time, shark_starves, seed);
        let ghost (w, h) = (width as int, height as int);
        let mut k: usize = 0;
        while k < fishes.len()
            invariant
                wd.wf(),
                k <= fishes@.len(),
                wd.fishes@ == fishes@.take(k as int),
                wd.sharks@.len() == 0,
                wd.board.width == width,
                wd.board.height == height,
                w == width as int,
                h == height as int,
                wd.fish_repro_time == fish_repro_time,
                wd.shark_repro_time == shark_repro_time,
                wd.shark_starves == shark_starves,
            decreases fishes@.len() - k,
        {
            let ghost before = wd.fishes@;
            if !wd.add_fish(fishes[k]) {
                proof {
                    let p = fishes@[k as int].pos;
                    if in_grid(p, w, h) {
                        lemma_cell_of(p, p, w, h);
                        let c = wd.cell(p);
                        assert(wd.board@[c].fishy() || wd.board@[c].sharky());
                        let j = choose|j: int| 0 <= j < before.len() && wd.cell(#[trigger] before[j].pos) == c;
                        lemma_cell_of(before[j].pos, p, w, h);
                        assert(fishes@[j] == before[j]);
                        assert(fishes@[j].pos == fishes@[k as int].pos);
                    }
                }
                return Err(WorldError::InvalidLayout);
            }
            k = k + 1;
            proof {
                assert(wd.fishes@ =~= fishes@.take(k as int));
            }
        }
        proof {
            assert(wd.fishes@ =~= fishes@);
        }
        let mut k: usize = 0;
        while k < sharks.len()
            invariant
                wd.wf(),
                k <= sharks@.len(),
                wd.fishes@ == fishes@,
                wd.sharks@ == sharks@.take(k as int),
                wd.board.width == width,
                wd.board.height == height,
                w == width as int,
                h == height as int,
                wd.fish_repro_time == fish_repro_time,
                wd.shark_repro_time == shark_repro_time,
                wd.shark_starves == shark_starves,
            decreases sharks@.len() - k,
        {
            let ghost before = wd.sharks@;
            if !wd.add_shark(sharks[k]) {
                proof {
                    let p = sharks@[k as int].pos;
                    if in_grid(p, w, h) && sharks@[k as int].starve < shark_starves {
                        lemma_cell_of(p, p, w, h);
                        let c = wd.cell(p);
                        if wd.board@[c].fishy() {
                            let j = choose|j: int| 0 <= j < fishes@.len() && wd.cell(#[trigger] fishes@[j].pos) == c;
                            lemma_cell_of(fishes@[j].pos, p, w, h);
                            assert(fishes@[j].pos == sharks@[k as int].pos);
                        } else {
                            assert(wd.board@[c].sharky());
                            let j = choose|j: int| 0 <= j < before.len() && wd.cell(#[trigger] before[j].pos) == c;
                            lemma_cell_of(before[j].pos, p, w, h);
                            assert(sharks@[j] == before[j]);
                            assert(sharks@[j].pos == sharks@[k as int].pos);
                        }
                    }
                }
                return Err(WorldError::InvalidLayout);
            }
            k = k + 1;
            proof {
                assert(wd.sharks@ =~= sharks@.take(k as int));
            }
        }
        proof {
            assert(wd.sharks@ =~= sharks@);
            assert forall|i: int, j: int| 0 <= i < fishes@.len() && 0 <= j < sharks@.len() implies
                #[trigger] fishes@[i].pos != #[trigger] sharks@[j].pos by {
                lemma_cell_of(fishes@[i].pos, sharks@[j].pos, w, h);
                assert(!wd.none_eaten()[wd.cell(fishes@[i].pos)]);
                assert(wd.board.at(fishes@[i].pos).fishy());
                assert(wd.board.at(sharks@[j].pos).sharky());
            }
        }
        Ok(wd)
    }

    /// A `width` by `height` world with `n_fish` fish and `n_sharks` sharks on
    /// distinct cells drawn at random, each breeding count drawn from one up
    /// to its threshold and every shark fed; an error if the animals outnumber
    /// the cells. `seed` fixes every random choice of the world.
    pub fn new(
        width: usize,
        height: usize,
        n_sharks: usize,
        n_fish: usize,
        fish_repro_time: u8,
        shark_repro_time: u8,
        shark_starves: u8,
        seed: u64,
    ) -> (r: Result<World, WorldError>)
        requires
            dims_ok(width as int, height as int),
            fish_repro_time > 0,
            shark_repro_time > 0,
            shark_starves > 0,
        ensures
            r is Err <==> n_fish + n_sharks > width * height,
            r is Err ==> r == Err::<World, WorldError>(WorldError::CapacityExceeded),
            r matches Ok(wd) ==> {
                &&& wd.wf()
                &&& wd.fishes@.len() == n_fish
                &&& wd.sharks@.len() == n_sharks
                &&& wd.board.width == width
                &&& wd.board.height == height
                &&& wd.fish_repro_time == fish_repro_time
                &&& wd.shark_repro_time == shark_repro_time
                &&& wd.shark_starves == shark_starves
                &&& forall|i: int| 0 <= i < n_fish ==> 1 <= (#[trigger] wd.fishes@[i]).repro_time <= fish_repro_time
                &&& forall|i: int| 0 <= i < n_sharks ==> 1 <= (#[trigger] wd.sharks@[i]).repro_time <= shark_repro_time
                    && wd.sharks@[i].starve == 0
                &&& forall|i: int| 0 <= i < n_fish ==> wd.board.at((#[trigger] wd.fishes@[i]).pos) == Content::Fish
                &&& forall|i: int| 0 <= i < n_sharks ==> wd.board.at((#[trigger] wd.sharks@[i]).pos) == Content::Shark
                &&& forall|c: int| 0 <= c < wd.board@.len() ==> {
                    let v = #[trigger] wd.board@[c];
                    v == Content::Empty || v == Content::Fish || v == Content::Shark
                }
            },
    {
        let total = width * height;
        if n_fish > total || n_sharks > total - n_fish {
            return Err(WorldError::CapacityExceeded);
        }
        let mut wd = World::empty(width, height, fish_repro_time, shark_repro_time, shark_starves, seed);
        let ixs = sample_indices(&mut wd.rng, total, n_fish + n_sharks);
        let ghost (w, h) = (width as int, height as int);
        let mut k: usize = 0;
        while k < n_fish + n_sharks
            invariant
                wd.wf(),
                k <= n_fish + n_sharks,
                n_fish + n_sharks <= total,
                total == width * height,
                ixs@.len() == n_fish + n_sharks,
                forall|i: int| 0 <= i < ixs@.len() ==> ixs@[i] < total,
                forall|i: int, j: int| 0 <= i < j < ixs@.len() ==> ixs@[i] != ixs@[j],
                k <= n_fish ==> wd.fishes@.len() == k && wd.sharks@.len() == 0,
                k > n_fish ==> wd.fishes@.len() == n_fish && wd.sharks@.len() == k - n_fish,
                forall|i: int| 0 <= i < wd.fishes@.len() ==> (#[trigger] wd.fishes@[i]).pos == point_of(ixs@[i] as int, w)
                    && 1 <= wd.fishes@[i].repro_time <= fish_repro_time,
                forall|i: int| 0 <= i < wd.sharks@.len() ==> (#[trigger] wd.sharks@[i]).pos == point_of(ixs@[n_fish + i] as int, w)
                    && 1 <= wd.sharks@[i].repro_time <= shark_repro_time && wd.sharks@[i].starve == 0,
                forall|c: int| 0 <= c < wd.board@.len() ==> {
                    let v = #[trigger] wd.board@[c];
                    v == Content::Empty || v == Content::Fish || v == Content::Shark
                },
                wd.board.width == width,
                wd.board.height == height,
                w == width as int,
                h == height as int,
                wd.fish_repro_time == fish_repro_time,
                wd.shark_repro_time == shark_repro_time,
                wd.shark_starves == shark_starves,
            decreases n_fish + n_sharks - k,
        {
            let p = Point::from_ix(ixs[k], width, height);
            proof {
                if !wd.board.at(p).empty() {
                    let c = wd.cell(p);
                    if wd.board@[c].fishy() {
                        let j = choose|j: int| 0 <= j < wd.fishes@.len() && wd.cell(#[trigger] wd.fishes@[j].pos) == c;
                        crate::geometry::lemma_point_of(ixs@[j] as int, w, h);
                        assert(ixs@[j] == ixs@[k as int]);
                    } else {
                        assert(wd.board@[c].sharky());
                        let j = choose|j: int| 0 <= j < wd.sharks@.len() && wd.cell(#[trigger] wd.sharks@[j].pos) == c;
                        crate::geometry::lemma_point_of(ixs@[n_fish + j] as int, w, h);
                        assert(ixs@[n_fish + j] == ixs@[k as int]);
                    }
                }
            }
            if k < n_fish {
                let t = random_timer(&mut wd.rng, fish_repro_time);
                let ok = wd.add_fish(Fish { pos: p, repro_time: t });
                assert(ok);
            } else {
                let t = random_timer(&mut wd.rng, shark_repro_time);
                let ok = wd.add_shark(Shark { pos: p, repro_time: t, starve: 0 });
                assert(ok);
            }
            k = k + 1;
        }
        proof {
            crate::laws::lemma_board_matches_lists(wd);
            assert forall|i: int| 0 <= i < n_fish implies wd.board.at((#[trigger] wd.fishes@[i]).pos) == Content::Fish by {
                lemma_cell_of(wd.fishes@[i].pos, wd.fishes@[i].pos, w, h);
                let v = wd.board@[wd.cell(wd.fishes@[i].pos)];
                assert(v == Content::Empty || v == Content::Fish || v == Content::Shark);
            }
            assert forall|i: int| 0 <= i < n_sharks implies wd.board.at((#[trigger] wd.sharks@[i]).pos) == Content::Shark by {
                lemma_cell_of(wd.sharks@[i].pos, wd.sharks@[i].pos, w, h);
                let v = wd.board@[wd.cell(wd.sharks@[i].pos)];
                assert(v == Content::Empty || v == Content::Fish || v == Content::Shark);
            }
        }
        Ok(wd)
    }
}

} // verus!
