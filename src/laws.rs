use vstd::prelude::*;
use vstd::set_lib::{lemma_int_range, lemma_len_subset, set_int_range};
use crate::geometry::{in_grid, is_unit, lemma_cell_of};
use crate::world::{World, is_order};

verus! {

/// The cells of all listed animals, fish first.
pub open spec fn occupied_cells(w: World) -> Seq<int> {
    w.fishes@.map_values(|f: crate::entity::Fish| w.cell(f.pos)) + w.sharks@.map_values(
        |s: crate::entity::Shark| w.cell(s.pos),
    )
}

/// Between ticks no two listed animals, of either kind, share a position.
pub proof fn lemma_unique_positions(w: World)
    requires
        w.wf(),
    ensures
        forall|i: int, j: int| 0 <= i < j < w.fishes@.len() ==> #[trigger] w.fishes@[i].pos != #[trigger] w.fishes@[j].pos,
        forall|i: int, j: int| 0 <= i < j < w.sharks@.len() ==> #[trigger] w.sharks@[i].pos != #[trigger] w.sharks@[j].pos,
        forall|i: int, j: int| 0 <= i < w.fishes@.len() && 0 <= j < w.sharks@.len() ==>
            #[trigger] w.fishes@[i].pos != #[trigger] w.sharks@[j].pos,
{
    assert forall|i: int, j: int| 0 <= i < w.fishes@.len() && 0 <= j < w.sharks@.len() implies
        #[trigger] w.fishes@[i].pos != #[trigger] w.sharks@[j].pos by {
        lemma_cell_of(w.fishes@[i].pos, w.sharks@[j].pos, w.w(), w.h());
        assert(!w.none_eaten()[w.cell(w.fishes@[i].pos)]);
    }
}

/// Between ticks the board and the lists agree: a fish's cell shows a fish,
/// a shark's cell a shark, and each occupied cell belongs to exactly one
/// listed animal.
pub proof fn lemma_board_matches_lists(w: World)
    requires
        w.wf(),
    ensures
        forall|i: int| 0 <= i < w.fishes@.len() ==> w.board.at(#[trigger] w.fishes@[i].pos).fishy(),
        forall|i: int| 0 <= i < w.sharks@.len() ==> w.board.at(#[trigger] w.sharks@[i].pos).sharky(),
        forall|c: int| 0 <= c < w.board@.len() && !(#[trigger] w.board@[c]).empty() ==> {
            ||| (exists|i: int| 0 <= i < w.fishes@.len() && w.cell(#[trigger] w.fishes@[i].pos) == c)
                && (forall|j: int| 0 <= j < w.sharks@.len() ==> w.cell(#[trigger] w.sharks@[j].pos) != c)
            ||| (exists|i: int| 0 <= i < w.sharks@.len() && w.cell(#[trigger] w.sharks@[i].pos) == c)
                && (forall|j: int| 0 <= j < w.fishes@.len() ==> w.cell(#[trigger] w.fishes@[j].pos) != c)
        },
        forall|i: int, j: int| 0 <= i < j < w.fishes@.len() ==> w.cell(#[trigger] w.fishes@[i].pos) != w.cell(#[trigger] w.fishes@[j].pos),
        forall|i: int, j: int| 0 <= i < j < w.sharks@.len() ==> w.cell(#[trigger] w.sharks@[i].pos) != w.cell(#[trigger] w.sharks@[j].pos),
{
    assert forall|i: int| 0 <= i < w.fishes@.len() implies w.board.at(#[trigger] w.fishes@[i].pos).fishy() by {
        lemma_cell_of(w.fishes@[i].pos, w.fishes@[i].pos, w.w(), w.h());
        assert(!w.none_eaten()[w.cell(w.fishes@[i].pos)]);
    }
    assert forall|i: int, j: int| 0 <= i < j < w.fishes@.len() implies
        w.cell(#[trigger] w.fishes@[i].pos) != w.cell(#[trigger] w.fishes@[j].pos) by {
        lemma_cell_of(w.fishes@[i].pos, w.fishes@[j].pos, w.w(), w.h());
    }
    assert forall|i: int, j: int| 0 <= i < j < w.sharks@.len() implies
        w.cell(#[trigger] w.sharks@[i].pos) != w.cell(#[trigger] w.sharks@[j].pos) by {
        lemma_cell_of(w.sharks@[i].pos, w.sharks@[j].pos, w.w(), w.h());
    }
}

/// Between ticks the animals number at most the cells of the grid.
pub proof fn lemma_occupancy_bound(w: World)
    requires
        w.wf(),
    ensures
        w.fishes@.len() + w.sharks@.len() <= w.w() * w.h(),
{
    lemma_board_matches_lists(w);
    let cells = occupied_cells(w);
    let nf = w.fishes@.len() as int;
    assert forall|k: int| 0 <= k < cells.len() implies 0 <= #[trigger] cells[k] < w.w() * w.h() by {
        if k < nf {
            lemma_cell_of(w.fishes@[k].pos, w.fishes@[k].pos, w.w(), w.h());
        } else {
            lemma_cell_of(w.sharks@[k - nf].pos, w.sharks@[k - nf].pos, w.w(), w.h());
        }
    }
    assert forall|a: int, b: int| 0 <= a < cells.len() && 0 <= b < cells.len() && a != b implies
        cells[a] != cells[b] by {
        if a < nf && b < nf {
            if a < b {
                assert(w.cell(w.fishes@[a].pos) != w.cell(w.fishes@[b].pos));
            } else {
                assert(w.cell(w.fishes@[b].pos) != w.cell(w.fishes@[a].pos));
            }
        } else if a >= nf && b >= nf {
            if a < b {
                assert(w.cell(w.sharks@[a - nf].pos) != w.cell(w.sharks@[b - nf].pos));
            } else {
                assert(w.cell(w.sharks@[b - nf].pos) != w.cell(w.sharks@[a - nf].pos));
            }
        } else if a < nf {
            assert(w.board@[cells[a]].fishy());
            assert(w.board@[cells[b]].sharky());
        } else {
            assert(w.board@[cells[b]].fishy());
            assert(w.board@[cells[a]].sharky());
        }
    }
    assert(cells.no_duplicates());
    cells.unique_seq_to_set();
    lemma_int_range(0, w.w() * w.h());
    assert(cells.to_set().subset_of(set_int_range(0, w.w() * w.h())));
    lemma_len_subset(cells.to_set(), set_int_range(0, w.w() * w.h()));
}

/// A fish that finds no empty neighbour neither moves nor counts toward
/// breeding: its step changes nothing.
pub proof fn lemma_trapped_fish_unchanged(w: World, i: int, dirs: Seq<(isize, isize)>)
    requires
        w.wf(),
        0 <= i < w.fishes@.len(),
        is_order(dirs),
        forall|d: (isize, isize)| is_unit(d) ==> !w.board.at(#[trigger] w.target(w.fishes@[i].pos, d)).empty(),
    ensures
        w.fishes_after_fish_step(i, dirs) == w.fishes@,
        w.board_after_fish_step(i, dirs) == w.board@,
{
    assert(w.first_empty(w.fishes@[i].pos, dirs) == 4) by {
        assert(is_unit(dirs[0]) && is_unit(dirs[1]) && is_unit(dirs[2]) && is_unit(dirs[3]));
    }
}

/// A shark that neither finds a fish nor an empty neighbour keeps its cell
/// and its breeding count.
pub proof fn lemma_trapped_shark_keeps_count(w: World, i: int, eat: Seq<(isize, isize)>, mv: Seq<(isize, isize)>)
    requires
        w.wf(),
        0 <= i < w.sharks@.len(),
        is_order(eat),
        is_order(mv),
        forall|d: (isize, isize)| is_unit(d) ==> {
            let c = w.board.at(#[trigger] w.target(w.sharks@[i].pos, d));
            !c.empty() && !c.fishy()
        },
    ensures
        w.sharks_after_shark_step(i, eat, mv)[i].pos == w.sharks@[i].pos,
        w.sharks_after_shark_step(i, eat, mv)[i].repro_time == w.sharks@[i].repro_time,
        w.sharks_after_shark_step(i, eat, mv).len() == w.sharks@.len(),
{
    assert(is_unit(eat[0]) && is_unit(eat[1]) && is_unit(eat[2]) && is_unit(eat[3]));
    assert(is_unit(mv[0]) && is_unit(mv[1]) && is_unit(mv[2]) && is_unit(mv[3]));
}

/// A shark next to a fish eats: it moves onto a fish's cell, which it marks
/// fed, and never takes the plain move.
pub proof fn lemma_eat_precedence(w: World, i: int, eat: Seq<(isize, isize)>, mv: Seq<(isize, isize)>, d: (isize, isize))
    requires
        w.wf(),
        0 <= i < w.sharks@.len(),
        is_order(eat),
        is_order(mv),
        is_unit(d),
        w.board.at(w.target(w.sharks@[i].pos, d)).fishy(),
    ensures
        w.shark_eats(i, eat),
        w.board.at(w.shark_dest(i, eat, mv)).fishy(),
        w.sharks_after_shark_step(i, eat, mv)[i].pos == w.shark_dest(i, eat, mv),
        w.board_after_shark_step(i, eat, mv)[w.cell(w.shark_dest(i, eat, mv))] == crate::board::Content::FedShark,
{
    let k = choose|k: int| 0 <= k < eat.len() && eat[k] == d;
    assert(eat[k] == d);
    let p = w.sharks@[i].pos;
    let q = w.shark_dest(i, eat, mv);
    assert(in_grid(q, w.w(), w.h())) by {
        vstd::arithmetic::div_mod::lemma_mod_bound(p.x + eat[w.first_fish(p, eat)].0, w.w());
        vstd::arithmetic::div_mod::lemma_mod_bound(p.y + eat[w.first_fish(p, eat)].1, w.h());
        assert(is_unit(eat[w.first_fish(p, eat)]));
    }
    lemma_cell_of(q, p, w.w(), w.h());
    lemma_cell_of(p, q, w.w(), w.h());
    assert(w.board@[w.cell(p)].sharky());
}

/// A shark that does not eat grows one hungrier, and it is hungry enough to
/// be removed exactly when that reaches the limit.
pub proof fn lemma_starvation_exact(w: World, i: int, eat: Seq<(isize, isize)>, mv: Seq<(isize, isize)>)
    requires
        w.wf(),
        0 <= i < w.sharks@.len(),
        !w.shark_eats(i, eat),
    ensures
        w.sharks_after_shark_step(i, eat, mv)[i].starve == w.sharks@[i].starve + 1,
        w.sharks_after_shark_step(i, eat, mv)[i].starve >= w.shark_starves
            <==> w.sharks@[i].starve + 1 == w.shark_starves,
{
}

} // verus!

verus! {

/// A fish's step touches no other listed fish; a newborn, if any, goes to
/// the end of the list with a fresh count, past every fish that was listed
/// when the tick began, so the tick never steps it.
pub proof fn lemma_fish_newborn_appended(w: World, i: int, dirs: Seq<(isize, isize)>)
    requires
        w.wf(),
        0 <= i < w.fishes@.len(),
        is_order(dirs),
    ensures
        ({
            let after = w.fishes_after_fish_step(i, dirs);
            &&& w.fishes@.len() <= after.len() <= w.fishes@.len() + 1
            &&& forall|j: int| 0 <= j < w.fishes@.len() && j != i ==> after[j] == w.fishes@[j]
            &&& after.len() == w.fishes@.len() + 1 ==> after[w.fishes@.len() as int]
                == (crate::entity::Fish { pos: w.fishes@[i].pos, repro_time: 0 })
        }),
{
}

/// A shark's step touches no other listed shark; a newborn, if any, goes to
/// the end of the list, fed and with a fresh count, so the tick never steps it.
pub proof fn lemma_shark_newborn_appended(w: World, i: int, eat: Seq<(isize, isize)>, mv: Seq<(isize, isize)>)
    requires
        w.wf(),
        0 <= i < w.sharks@.len(),
    ensures
        ({
            let after = w.sharks_after_shark_step(i, eat, mv);
            &&& w.sharks@.len() <= after.len() <= w.sharks@.len() + 1
            &&& forall|j: int| 0 <= j < w.sharks@.len() && j != i ==> after[j] == w.sharks@[j]
            &&& after.len() == w.sharks@.len() + 1 ==> after[w.sharks@.len() as int]
                == (crate::entity::Shark { pos: w.sharks@[i].pos, repro_time: 0, starve: 0 })
        }),
{
}

} // verus!

verus! {

/// Along the fish phase each step touches only its own fish and appends: a
/// fish at an index outside `[k1, k2)` is the same after step `k2` as after
/// step `k1`, and so are the sharks.
pub proof fn lemma_fish_trace_frame(ft: Seq<World>, fo: Seq<[(isize, isize); 4]>, k1: int, k2: int, m: int)
    requires
        ft.len() == fo.len() + 1,
        forall|k: int| 0 <= k < fo.len() ==> (#[trigger] ft[k]).is_fish_step(ft[k + 1], k, fo[k]@),
        fo.len() <= ft[0].fishes@.len(),
        0 <= k1 <= k2 <= fo.len(),
        0 <= m < ft[k1].fishes@.len(),
        !(k1 <= m < k2),
    ensures
        ft[k1].fishes@.len() <= ft[k2].fishes@.len(),
        ft[k2].fishes@[m] == ft[k1].fishes@[m],
        ft[k2].sharks@ == ft[k1].sharks@,
    decreases k2 - k1,
{
    if k1 < k2 {
        lemma_fish_trace_frame(ft, fo, k1, k2 - 1, m);
        lemma_fish_trace_len(ft, fo, k2 - 1);
        reveal(World::is_fish_step);
        assert(ft[k2 - 1].is_fish_step(ft[k2], k2 - 1, fo[k2 - 1]@));
    }
}

/// The fish phase leaves the sharks as they were.
pub proof fn lemma_fish_trace_sharks(ft: Seq<World>, fo: Seq<[(isize, isize); 4]>, k: int)
    requires
        ft.len() == fo.len() + 1,
        forall|k: int| 0 <= k < fo.len() ==> (#[trigger] ft[k]).is_fish_step(ft[k + 1], k, fo[k]@),
        0 <= k <= fo.len(),
    ensures
        ft[k].sharks@ == ft[0].sharks@,
    decreases k,
{
    if k > 0 {
        lemma_fish_trace_sharks(ft, fo, k - 1);
        reveal(World::is_fish_step);
        assert(ft[k - 1].is_fish_step(ft[k], k - 1, fo[k - 1]@));
    }
}

/// Along the shark phase the list never shrinks, and the limit stays.
pub proof fn lemma_shark_trace_len(
    st: Seq<World>,
    et: Seq<Seq<bool>>,
    eo: Seq<[(isize, isize); 4]>,
    mo: Seq<[(isize, isize); 4]>,
    k: int,
)
    requires
        st.len() == eo.len() + 1,
        et.len() == eo.len() + 1,
        mo.len() == eo.len(),
        eo.len() <= st[0].sharks@.len(),
        forall|k: int| 0 <= k < eo.len() ==> (#[trigger] st[k]).is_shark_step(et[k], st[k + 1], et[k + 1], k, eo[k]@, mo[k]@),
        0 <= k <= eo.len(),
    ensures
        st[0].sharks@.len() <= st[k].sharks@.len(),
        st[k].shark_starves == st[0].shark_starves,
    decreases k,
{
    if k > 0 {
        lemma_shark_trace_len(st, et, eo, mo, k - 1);
        reveal(World::is_shark_step);
        assert(st[k - 1].is_shark_step(et[k - 1], st[k], et[k], k - 1, eo[k - 1]@, mo[k - 1]@));
    }
}

/// Along the shark phase each step touches only its own shark and appends:
/// a shark at an index outside `[k1, k2)` is the same after step `k2` as
/// after step `k1`.
pub proof fn lemma_shark_trace_frame(
    st: Seq<World>,
    et: Seq<Seq<bool>>,
    eo: Seq<[(isize, isize); 4]>,
    mo: Seq<[(isize, isize); 4]>,
    k1: int,
    k2: int,
    m: int,
)
    requires
        st.len() == eo.len() + 1,
        et.len() == eo.len() + 1,
        mo.len() == eo.len(),
        eo.len() <= st[0].sharks@.len(),
        forall|k: int| 0 <= k < eo.len() ==> (#[trigger] st[k]).is_shark_step(et[k], st[k + 1], et[k + 1], k, eo[k]@, mo[k]@),
        0 <= k1 <= k2 <= eo.len(),
        0 <= m < st[k1].sharks@.len(),
        !(k1 <= m < k2),
    ensures
        st[k1].sharks@.len() <= st[k2].sharks@.len(),
        st[k2].sharks@[m] == st[k1].sharks@[m],
    decreases k2 - k1,
{
    if k1 < k2 {
        lemma_shark_trace_frame(st, et, eo, mo, k1, k2 - 1, m);
        lemma_shark_trace_len(st, et, eo, mo, k2 - 1);
        reveal(World::is_shark_step);
        assert(st[k2 - 1].is_shark_step(et[k2 - 1], st[k2], et[k2], k2 - 1, eo[k2 - 1]@, mo[k2 - 1]@));
    }
}

/// Over one tick, each shark listed at the start grows exactly one hungrier,
/// from zero if it ate, and it leaves the list exactly when that reaches the
/// limit, its cell then showing `Empty`.
#[verifier::rlimit(60)]
pub proof fn lemma_tick_starvation(
    w: World,
    next: World,
    fo: Seq<[(isize, isize); 4]>,
    eo: Seq<[(isize, isize); 4]>,
    mo: Seq<[(isize, isize); 4]>,
    ft: Seq<World>,
    st: Seq<World>,
    et: Seq<Seq<bool>>,
    j: int,
)
    requires
        w.wf(),
        w.is_tick(next, fo, eo, mo, ft, st, et),
        0 <= j < w.sharks@.len(),
    ensures
        ({
            let last = st[w.sharks@.len() as int];
            let s = last.sharks@[j];
            &&& j < last.sharks@.len()
            &&& s.starve == if st[j].shark_eats(j, eo[j]@) { 1 } else { w.sharks@[j].starve + 1 }
            &&& last.starved_marks()[j] == (s.starve >= w.shark_starves)
            &&& s.starve >= w.shark_starves ==> next.board@[last.cell(s.pos)] == crate::board::Content::Empty
        }),
{
    let nf = w.fishes@.len() as int;
    let ns = w.sharks@.len() as int;
    let last = st[ns];
    assert({
        &&& fo.len() == nf && eo.len() == ns && mo.len() == ns
        &&& ft.len() == nf + 1 && st.len() == ns + 1 && et.len() == ns + 1
        &&& ft[0].sharks@ == w.sharks@
        &&& ft[0].shark_starves == w.shark_starves
        &&& forall|k: int| 0 <= k < nf ==> (#[trigger] ft[k]).is_fish_step(ft[k + 1], k, fo[k]@)
        &&& st[0] == ft[nf]
        &&& forall|k: int| 0 <= k < ns ==> (#[trigger] st[k]).is_shark_step(et[k], st[k + 1], et[k + 1], k, eo[k]@, mo[k]@)
        &&& last.shark_phase_ok(et[ns])
        &&& forall|c: int| 0 <= c < last.board@.len() ==> #[trigger] next.board@[c] == if (exists|i: int|
            0 <= i < last.sharks@.len() && last.sharks@[i].starve >= last.shark_starves
                && last.cell(#[trigger] last.sharks@[i].pos) == c) {
            crate::board::Content::Empty
        } else {
            last.board@[c]
        }
    }) by {
        reveal(World::is_tick);
    }
    assert(ft[0].shark_starves == ft[nf].shark_starves) by {
        reveal(World::is_tick);
        reveal(World::is_fish_step);
        assert(w.same_frame(ft[0]));
        assert(forall|k: int| 0 <= k < nf ==> (#[trigger] ft[k]).same_frame(ft[k + 1]));
        lemma_fish_frame_starves(ft, fo, nf);
    }
    lemma_fish_trace_sharks(ft, fo, nf);
    lemma_shark_trace_len(st, et, eo, mo, ns);
    lemma_shark_trace_frame(st, et, eo, mo, 0, j, j);
    assert(st[j].is_shark_step(et[j], st[j + 1], et[j + 1], j, eo[j]@, mo[j]@));
    lemma_shark_trace_len(st, et, eo, mo, j + 1);
    lemma_shark_trace_frame(st, et, eo, mo, j + 1, ns, j);
    let s = last.sharks@[j];
    assert(s == st[j].sharks_after_shark_step(j, eo[j]@, mo[j]@)[j]) by {
        reveal(World::is_shark_step);
        lemma_shark_trace_len(st, et, eo, mo, j);
    }
    if s.starve >= w.shark_starves {
        lemma_cell_of(s.pos, s.pos, last.w(), last.h());
        assert(last.sharks@[j].starve >= last.shark_starves && last.cell(last.sharks@[j].pos) == last.cell(s.pos));
    }
}

/// The fish phase keeps the starvation limit.
pub proof fn lemma_fish_frame_starves(ft: Seq<World>, fo: Seq<[(isize, isize); 4]>, k: int)
    requires
        ft.len() == fo.len() + 1,
        forall|k: int| 0 <= k < fo.len() ==> (#[trigger] ft[k]).same_frame(ft[k + 1]),
        0 <= k <= fo.len(),
    ensures
        ft[k].shark_starves == ft[0].shark_starves,
    decreases k,
{
    if k > 0 {
        lemma_fish_frame_starves(ft, fo, k - 1);
        assert(ft[k - 1].same_frame(ft[k]));
    }
}

} // verus!

verus! {

/// Along the fish phase the list never shrinks, and every fish past those
/// listed at the start is a newborn with a fresh count.
pub proof fn lemma_fish_trace_len(ft: Seq<World>, fo: Seq<[(isize, isize); 4]>, k: int)
    requires
        ft.len() == fo.len() + 1,
        forall|k: int| 0 <= k < fo.len() ==> (#[trigger] ft[k]).is_fish_step(ft[k + 1], k, fo[k]@),
        fo.len() <= ft[0].fishes@.len(),
        0 <= k <= fo.len(),
    ensures
        ft[0].fishes@.len() <= ft[k].fishes@.len(),
        forall|m: int| ft[0].fishes@.len() <= m < ft[k].fishes@.len() ==> (#[trigger] ft[k].fishes@[m]).repro_time == 0,
    decreases k,
{
    if k > 0 {
        lemma_fish_trace_len(ft, fo, k - 1);
        reveal(World::is_fish_step);
        assert(ft[k - 1].is_fish_step(ft[k], k - 1, fo[k - 1]@));
        assert forall|m: int| ft[0].fishes@.len() <= m < ft[k].fishes@.len() implies
            (#[trigger] ft[k].fishes@[m]).repro_time == 0 by {
            if m < ft[k - 1].fishes@.len() {
                assert(ft[k].fishes@[m] == ft[k - 1].fishes@[m]);
            }
        }
    }
}

/// Over one tick's fish phase, each fish listed at the start ends as its own
/// step left it, on the board as the fish before it had left it; a fish that
/// found no empty neighbour keeps its place and count; and every fish born in
/// the phase still has a fresh count, not having been stepped.
pub proof fn lemma_tick_fish(
    w: World,
    next: World,
    fo: Seq<[(isize, isize); 4]>,
    eo: Seq<[(isize, isize); 4]>,
    mo: Seq<[(isize, isize); 4]>,
    ft: Seq<World>,
    st: Seq<World>,
    et: Seq<Seq<bool>>,
    i: int,
)
    requires
        w.wf(),
        w.is_tick(next, fo, eo, mo, ft, st, et),
        0 <= i < w.fishes@.len(),
    ensures
        ({
            let nf = w.fishes@.len() as int;
            let after = ft[nf].fishes@;
            &&& ft[i].fishes@[i] == w.fishes@[i]
            &&& after[i] == ft[i].fishes_after_fish_step(i, fo[i]@)[i]
            &&& ft[i].first_empty(w.fishes@[i].pos, fo[i]@) == 4 ==> after[i] == w.fishes@[i]
            &&& forall|m: int| nf <= m < after.len() ==> (#[trigger] after[m]).repro_time == 0
        }),
{
    let nf = w.fishes@.len() as int;
    assert(fo.len() == nf && ft.len() == nf + 1 && ft[0].fishes@ == w.fishes@
        && forall|k: int| 0 <= k < nf ==> (#[trigger] ft[k]).is_fish_step(ft[k + 1], k, fo[k]@)) by {
        reveal(World::is_tick);
    }
    lemma_fish_trace_frame(ft, fo, 0, i, i);
    lemma_fish_trace_len(ft, fo, i + 1);
    lemma_fish_trace_len(ft, fo, nf);
    lemma_fish_trace_frame(ft, fo, i + 1, nf, i);
    assert(ft[i].is_fish_step(ft[i + 1], i, fo[i]@));
    assert(ft[i + 1].fishes@[i] == ft[i].fishes_after_fish_step(i, fo[i]@)[i]) by {
        reveal(World::is_fish_step);
        lemma_fish_trace_len(ft, fo, i);
    }
}

} // verus!
