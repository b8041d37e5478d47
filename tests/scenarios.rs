use wator::board::Content;
use wator::compact::clear_by_cond;
use wator::entity::{Fish, Shark};
use wator::geometry::{nudge_into_range, Point};
use wator::sim::{Sim, HEIGHT, N_FISH, N_SHARKS, WIDTH};
use wator::world::{World, WorldError};

fn pt(x: isize, y: isize) -> Point {
    Point { x, y }
}

fn cell(w: &World, x: isize, y: isize) -> Content {
    w.board.get(pt(x, y))
}

const ORDER: [(isize, isize); 4] = [(-1, 0), (1, 0), (0, -1), (0, 1)];

fn check_invariants(w: &World) {
    let n_cells = w.board.width * w.board.height;
    assert!(w.fishes.len() + w.sharks.len() <= n_cells);
    let mut seen = vec![false; n_cells];
    for f in &w.fishes {
        let ix = w.board.index_of(f.pos);
        assert!(!seen[ix]);
        seen[ix] = true;
        assert!(w.board.data[ix].is_fish());
    }
    for s in &w.sharks {
        let ix = w.board.index_of(s.pos);
        assert!(!seen[ix]);
        seen[ix] = true;
        assert!(w.board.data[ix].is_shark());
        assert!(s.starve < w.shark_starves);
    }
    for ix in 0..n_cells {
        assert_eq!(seen[ix], !w.board.data[ix].is_empty());
    }
}

#[test]
fn scenario_a_fish_breeds_on_moving() {
    let fishes = vec![Fish { pos: pt(1, 1), repro_time: 4 }];
    let mut w = World::from_parts(3, 3, fishes, vec![], 5, 10, 10, 1).unwrap();
    w.update();
    assert_eq!(w.fishes.len(), 2);
    assert_eq!(cell(&w, 1, 1), Content::NewFish);
    let born: Vec<&Fish> = w.fishes.iter().filter(|f| f.pos == pt(1, 1)).collect();
    assert_eq!(born.len(), 1);
    assert_eq!(born[0].repro_time, 0);
    let moved: Vec<&Fish> = w.fishes.iter().filter(|f| f.pos != pt(1, 1)).collect();
    assert_eq!(moved.len(), 1);
    let p = moved[0].pos;
    assert!([pt(0, 1), pt(2, 1), pt(1, 0), pt(1, 2)].contains(&p));
    assert_eq!(moved[0].repro_time, 0);
    assert_eq!(cell(&w, p.x, p.y), Content::Fish);
    check_invariants(&w);
}

#[test]
fn scenario_b_shark_eats_adjacent_fish() {
    let fishes = vec![Fish { pos: pt(1, 0), repro_time: 0 }];
    let sharks = vec![Shark { pos: pt(0, 0), repro_time: 0, starve: 2 }];
    let mut w = World::from_parts(3, 3, fishes, sharks, 5, 10, 10, 1).unwrap();
    assert_eq!(cell(&w, 0, 1), Content::Empty);
    let mut eaten = vec![false; 9];
    w.shark_step(0, &ORDER, &ORDER, &mut eaten);
    w.remove_eaten(&eaten);
    w.remove_starved();
    assert_eq!(w.sharks.len(), 1);
    assert_eq!(w.sharks[0].pos, pt(1, 0));
    assert_eq!(cell(&w, 1, 0), Content::FedShark);
    assert_eq!(cell(&w, 0, 0), Content::Empty);
    assert!(w.fishes.is_empty());
    // Eating resets hunger, and the tick's increment follows.
    assert_eq!(w.sharks[0].starve, 1);
    check_invariants(&w);
}

#[test]
fn scenario_b_eating_wins_over_every_move_order() {
    let orders = [
        [(0, 1), (0, -1), (1, 0), (-1, 0)],
        [(0, 1), (-1, 0), (0, -1), (1, 0)],
        ORDER,
    ];
    for eat in orders.iter() {
        let fishes = vec![Fish { pos: pt(1, 0), repro_time: 0 }];
        let sharks = vec![Shark { pos: pt(0, 0), repro_time: 0, starve: 0 }];
        let mut w = World::from_parts(3, 3, fishes, sharks, 5, 10, 10, 1).unwrap();
        let mut eaten = vec![false; 9];
        w.shark_step(0, eat, &[(0, 1), (1, 0), (-1, 0), (0, -1)], &mut eaten);
        assert_eq!(w.sharks[0].pos, pt(1, 0));
        assert!(eaten[1]);
        assert_eq!(cell(&w, 0, 1), Content::Empty);
    }
}

#[test]
fn scenario_c_shark_starves_on_third_tick() {
    let sharks = vec![Shark { pos: pt(1, 1), repro_time: 0, starve: 0 }];
    let mut w = World::from_parts(3, 3, vec![], sharks, 5, 200, 3, 7).unwrap();
    w.update();
    assert_eq!(w.sharks.len(), 1);
    assert_eq!(w.sharks[0].starve, 1);
    w.update();
    assert_eq!(w.sharks.len(), 1);
    assert_eq!(w.sharks[0].starve, 2);
    let last = w.sharks[0].pos;
    w.update();
    assert!(w.sharks.is_empty());
    assert!(w.board.data.iter().all(|c| *c == Content::Empty));
    assert_eq!(cell(&w, last.x, last.y), Content::Empty);
    check_invariants(&w);
}

#[test]
fn trapped_fish_keeps_its_count() {
    let fishes = vec![Fish { pos: pt(0, 0), repro_time: 3 }];
    let mut w = World::from_parts(1, 1, fishes, vec![], 5, 10, 10, 1).unwrap();
    w.update();
    assert_eq!(w.fishes, vec![Fish { pos: pt(0, 0), repro_time: 3 }]);
    assert_eq!(cell(&w, 0, 0), Content::Fish);
}

#[test]
fn fish_step_moves_without_breeding_below_threshold() {
    let fishes = vec![Fish { pos: pt(1, 1), repro_time: 1 }];
    let mut w = World::from_parts(3, 3, fishes, vec![], 5, 10, 10, 1).unwrap();
    w.fish_step(0, &ORDER);
    assert_eq!(w.fishes, vec![Fish { pos: pt(0, 1), repro_time: 2 }]);
    assert_eq!(cell(&w, 0, 1), Content::Fish);
    assert_eq!(cell(&w, 1, 1), Content::Empty);
}

#[test]
fn newborn_fish_waits_for_next_tick() {
    let fishes = vec![Fish { pos: pt(1, 1), repro_time: 4 }];
    let mut w = World::from_parts(5, 5, fishes, vec![], 5, 10, 10, 3).unwrap();
    w.update();
    assert_eq!(w.fishes.len(), 2);
    assert_eq!(w.fishes[1], Fish { pos: pt(1, 1), repro_time: 0 });
}

#[test]
fn shark_breeds_only_at_exact_threshold() {
    let sharks = vec![Shark { pos: pt(1, 1), repro_time: 2, starve: 0 }];
    let mut w = World::from_parts(3, 3, vec![], sharks, 5, 3, 10, 1).unwrap();
    let mut eaten = vec![false; 9];
    w.shark_step(0, &ORDER, &ORDER, &mut eaten);
    assert_eq!(w.sharks.len(), 2);
    assert_eq!(w.sharks[0], Shark { pos: pt(0, 1), repro_time: 0, starve: 1 });
    assert_eq!(w.sharks[1], Shark { pos: pt(1, 1), repro_time: 0, starve: 0 });
    assert_eq!(cell(&w, 1, 1), Content::NewShark);
    assert_eq!(cell(&w, 0, 1), Content::Shark);

    let sharks = vec![Shark { pos: pt(1, 1), repro_time: 3, starve: 0 }];
    let mut w = World::from_parts(3, 3, vec![], sharks, 5, 3, 10, 1).unwrap();
    let mut eaten = vec![false; 9];
    w.shark_step(0, &ORDER, &ORDER, &mut eaten);
    assert_eq!(w.sharks, vec![Shark { pos: pt(0, 1), repro_time: 4, starve: 1 }]);
}

#[test]
fn new_rejects_too_many_animals() {
    assert_eq!(World::new(3, 3, 5, 5, 5, 5, 5, 1).err(), Some(WorldError::CapacityExceeded));
    assert!(World::new(3, 3, 4, 5, 5, 5, 5, 1).is_ok());
}

#[test]
fn new_places_distinct_animals_with_drawn_timers() {
    let w = World::new(10, 8, 20, 50, 6, 4, 9, 42).unwrap();
    assert_eq!(w.fishes.len(), 50);
    assert_eq!(w.sharks.len(), 20);
    assert!(w.fishes.iter().all(|f| 1 <= f.repro_time && f.repro_time <= 6));
    assert!(w.sharks.iter().all(|s| 1 <= s.repro_time && s.repro_time <= 4 && s.starve == 0));
    check_invariants(&w);
    let v = World::new(10, 8, 20, 50, 6, 4, 9, 42).unwrap();
    assert_eq!(w.fishes, v.fishes);
    assert_eq!(w.sharks, v.sharks);
}

#[test]
fn from_parts_rejects_bad_layouts() {
    let two = vec![Fish { pos: pt(1, 1), repro_time: 0 }, Fish { pos: pt(1, 1), repro_time: 0 }];
    assert_eq!(World::from_parts(3, 3, two, vec![], 5, 5, 5, 1).err(), Some(WorldError::InvalidLayout));
    let off = vec![Fish { pos: pt(3, 0), repro_time: 0 }];
    assert_eq!(World::from_parts(3, 3, off, vec![], 5, 5, 5, 1).err(), Some(WorldError::InvalidLayout));
    let fishes = vec![Fish { pos: pt(2, 2), repro_time: 0 }];
    let sharks = vec![Shark { pos: pt(2, 2), repro_time: 0, starve: 0 }];
    assert_eq!(World::from_parts(3, 3, fishes, sharks, 5, 5, 5, 1).err(), Some(WorldError::InvalidLayout));
    let starved = vec![Shark { pos: pt(0, 0), repro_time: 0, starve: 5 }];
    assert_eq!(World::from_parts(3, 3, vec![], starved, 5, 5, 5, 1).err(), Some(WorldError::InvalidLayout));
}

#[test]
fn invariants_hold_over_many_ticks() {
    let mut w = World::new(20, 15, 30, 120, 6, 8, 5, 9).unwrap();
    for _ in 0..60 {
        w.update();
        check_invariants(&w);
    }
}

#[test]
fn geometry_wraps_round_the_torus() {
    assert_eq!(nudge_into_range(-1, 5), 4);
    assert_eq!(nudge_into_range(5, 5), 0);
    assert_eq!(nudge_into_range(3, 5), 3);
    assert_eq!(pt(0, 0).offset(-1, 0, 4, 3), pt(3, 0));
    assert_eq!(pt(3, 2).offset(1, 0, 4, 3), pt(0, 2));
    assert_eq!(pt(3, 2).offset(0, 1, 4, 3), pt(3, 0));
    assert_eq!(Point::from_ix(7, 4, 3), pt(3, 1));
}

#[test]
fn content_classes() {
    assert!(Content::Empty.is_empty());
    assert!(Content::Fish.is_fish() && Content::NewFish.is_fish());
    assert!(Content::Shark.is_shark() && Content::NewShark.is_shark() && Content::FedShark.is_shark());
    assert!(!Content::FedShark.is_fish() && !Content::NewFish.is_shark() && !Content::Fish.is_empty());
}

#[test]
fn clear_by_cond_splits_by_mark() {
    let mut v = vec![1u32, 2, 3, 4, 5];
    let removed = clear_by_cond(&mut v, &vec![false, true, true, false, true]);
    assert_eq!(v, vec![1, 4]);
    assert_eq!(removed, vec![2, 3, 5]);
}

#[test]
fn sim_draws_every_cell() {
    let mut sim = Sim::new(5);
    assert_eq!(sim.world.board.width, WIDTH);
    assert_eq!(sim.world.board.height, HEIGHT);
    assert_eq!(sim.world.fishes.len(), N_FISH);
    assert_eq!(sim.world.sharks.len(), N_SHARKS);
    sim.update();
    let mut frame = vec![0u8; 4 * WIDTH * HEIGHT];
    sim.draw(&mut frame);
    for (i, c) in sim.world.board.data.iter().enumerate() {
        let want: [u8; 4] = match c {
            Content::Empty => [0x00, 0x00, 0x00, 0xff],
            Content::Fish => [0x00, 0x99, 0x00, 0xff],
            Content::NewFish => [0x00, 0xff, 0x00, 0xff],
            Content::Shark => [0xff, 0x00, 0x00, 0xff],
            Content::NewShark => [0xff, 0xff, 0xff, 0xff],
            Content::FedShark => [0xff, 0xff, 0x00, 0xff],
        };
        assert_eq!(&frame[4 * i..4 * i + 4], &want);
    }
}

#[test]
fn update_draws_fresh_move_orders() {
    let mut seen: Vec<Point> = vec![];
    for seed in 0..40u64 {
        let fishes = vec![Fish { pos: pt(1, 1), repro_time: 0 }];
        let mut w = World::from_parts(3, 3, fishes, vec![], 50, 10, 10, seed).unwrap();
        w.update();
        let p = w.fishes[0].pos;
        if !seen.contains(&p) {
            seen.push(p);
        }
    }
    assert!(seen.len() > 1);
}

#[test]
fn new_draws_timers_and_cells_at_random() {
    let w = World::new(10, 8, 20, 50, 6, 4, 9, 1).unwrap();
    assert!(w.fishes.iter().any(|f| f.repro_time != 6));
    assert!(w.fishes.iter().any(|f| f.repro_time != 1));
    let v = World::new(10, 8, 20, 50, 6, 4, 9, 2).unwrap();
    assert_ne!(w.fishes, v.fishes);
    let sparse = World::new(10, 8, 0, 5, 6, 4, 9, 1).unwrap();
    let firsts: Vec<Point> = sparse.fishes.iter().map(|f| f.pos).collect();
    let in_order: Vec<Point> = (0..5).map(|ix| Point::from_ix(ix, 10, 8)).collect();
    assert_ne!(firsts, in_order);
}

#[test]
fn tick_with_follows_the_given_orders() {
    let fishes = vec![Fish { pos: pt(1, 1), repro_time: 4 }];
    let sharks = vec![Shark { pos: pt(0, 0), repro_time: 0, starve: 0 }];
    let mut w = World::from_parts(3, 3, fishes, sharks, 5, 10, 10, 1).unwrap();
    let right_first = [(1, 0), (-1, 0), (0, -1), (0, 1)];
    w.tick_with(&vec![right_first], &vec![ORDER], &vec![ORDER]);
    // The fish goes right and leaves a newborn behind. The shark at (0,0)
    // finds no fish beside it, and its move order tries left first, which
    // wraps to the empty (2,0).
    assert_eq!(cell(&w, 2, 1), Content::Fish);
    assert_eq!(cell(&w, 1, 1), Content::NewFish);
    assert_eq!(w.sharks.len(), 1);
    assert_eq!(w.sharks[0].pos, pt(2, 0));
    assert_eq!(cell(&w, 2, 0), Content::Shark);
    assert_eq!(w.fishes.len(), 2);
    check_invariants(&w);
}

#[test]
fn marks_do_not_outlive_their_tick() {
    // A fish born this tick is trapped next tick; its mark turns plain.
    let fishes = vec![
        Fish { pos: pt(0, 0), repro_time: 4 },
        Fish { pos: pt(2, 0), repro_time: 0 },
    ];
    let mut w = World::from_parts(3, 1, fishes, vec![], 5, 10, 10, 1).unwrap();
    w.tick_with(&vec![ORDER, ORDER], &vec![], &vec![]);
    assert_eq!(cell(&w, 1, 0), Content::Fish);
    assert_eq!(cell(&w, 0, 0), Content::NewFish);
    w.tick_with(&vec![ORDER, ORDER, ORDER], &vec![], &vec![]);
    assert!(w.board.data.iter().all(|c| *c == Content::Fish));
}

#[test]
fn draw_fills_whole_chunks_of_a_short_frame() {
    let fishes = vec![Fish { pos: pt(1, 0), repro_time: 0 }];
    let w = World::from_parts(2, 2, fishes, vec![], 5, 10, 10, 1).unwrap();
    let sim = Sim { world: w };
    let mut frame = vec![7u8; 10];
    sim.draw(&mut frame);
    assert_eq!(frame, vec![0x00, 0x00, 0x00, 0xff, 0x00, 0x99, 0x00, 0xff, 7, 7]);
}
