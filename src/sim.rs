use vstd::prelude::*;
use crate::board::Content;
use crate::geometry::dims_ok;
use crate::world::{World, orders_ok};

verus! {

/// Multiplies the grid's sides and the starting populations.
pub const SCALE: usize = 2;
/// Columns of the displayed grid.
pub const WIDTH: usize = 320 * SCALE;
/// Rows of the displayed grid.
pub const HEIGHT: usize = 240 * SCALE;
/// Starting sharks.
pub const N_SHARKS: usize = 1000 * SCALE * SCALE;
/// Starting fish.
pub const N_FISH: usize = 3000 * SCALE * SCALE;

/// The colour of a cell, as red, green, blue and alpha bytes.
pub open spec fn rgba(c: Content) -> Seq<u8> {
    match c {
        Content::Empty => seq![0x00u8, 0x00u8, 0x00u8, 0xffu8],
        Content::Fish => seq![0x00u8, 0x99u8, 0x00u8, 0xffu8],
        Content::NewFish => seq![0x00u8, 0xffu8, 0x00u8, 0xffu8],
        Content::Shark => seq![0xffu8, 0x00u8, 0x00u8, 0xffu8],
        Content::NewShark => seq![0xffu8, 0xffu8, 0xffu8, 0xffu8],
        Content::FedShark => seq![0xffu8, 0xffu8, 0x00u8, 0xffu8],
    }
}

fn color(c: Content) -> (r: [u8; 4])
    ensures
        r@ == rgba(c),
{
    let r: [u8; 4] = match c {
        Content::Empty => [0x00, 0x00, 0x00, 0xff],
        Content::Fish => [0x00, 0x99, 0x00, 0xff],
        Content::NewFish => [0x00, 0xff, 0x00, 0xff],
        Content::Shark => [0xff, 0x00, 0x00, 0xff],
        Content::NewShark => [0xff, 0xff, 0xff, 0xff],
        Content::FedShark => [0xff, 0xff, 0x00, 0xff],
    };
    assert(r@ =~= rgba(c));
    r
}

/// The displayed simulation: a world of fixed size and starting populations.
pub struct Sim {
    pub world: World,
}

impl Sim {
    /// The standard world, with every random choice fixed by `seed`.
    pub fn new(seed: u64) -> (r: Sim)
        ensures
            r.world.wf(),
            r.world.board.width == WIDTH,
            r.world.board.height == HEIGHT,
            r.world.fishes@.len() == N_FISH,
            r.world.sharks@.len() == N_SHARKS,
            r.world.fish_repro_time == 60,
            r.world.shark_repro_time == 35,
            r.world.shark_starves == 30,
    {
        assert(dims_ok(WIDTH as int, HEIGHT as int));
        let r = World::new(WIDTH, HEIGHT, N_SHARKS, N_FISH, 60, 35, 30, seed);
        Sim { world: r.unwrap() }
    }

    /// Advances the world by one tick.
    pub fn update(&mut self)
        requires
            old(self).world.wf(),
        ensures
            final(self).world.wf(),
            old(self).world.same_frame(final(self).world),
            exists|fo: Seq<[(isize, isize); 4]>, eo: Seq<[(isize, isize); 4]>, mo: Seq<[(isize, isize); 4]>|
                orders_ok(fo) && orders_ok(eo) && orders_ok(mo) && #[trigger] old(self).world.tick_by(final(self).world, fo, eo, mo),
    {
        self.world.update();
    }

    /// Writes the colour of cell `i` into bytes `4 * i` to `4 * i + 3` of
    /// `frame`, for every whole four-byte chunk of it; a shorter tail is left
    /// as it was.
    pub fn draw(&self, frame: &mut Vec<u8>)
        requires
            self.world.board.wf(),
            old(frame)@.len() <= 4 * self.world.board@.len(),
        ensures
            final(frame)@.len() == old(frame)@.len(),
            forall|i: int, b: int| 0 <= i < old(frame)@.len() / 4 && 0 <= b < 4 ==>
                #[trigger] final(frame)@[4 * i + b] == rgba(#[trigger] self.world.board@[i])[b],
            forall|j: int| 4 * (old(frame)@.len() / 4) <= j < old(frame)@.len() ==>
                #[trigger] final(frame)@[j] == old(frame)@[j],
    {
        let ghost f0 = frame@;
        let n = frame.len() / 4;
        let flen = frame.len();
        let mut i: usize = 0;
        while i < n
            invariant
                n == f0.len() / 4,
                n <= self.world.board@.len(),
                frame@.len() == flen,
                flen == f0.len(),
                4 * n <= flen,
                i <= n,
                forall|j: int| 4 * n <= j < flen ==> #[trigger] frame@[j] == f0[j],
                forall|j: int, b: int| 0 <= j < i && 0 <= b < 4 ==>
                    #[trigger] frame@[4 * j + b] == rgba(#[trigger] self.world.board@[j])[b],
            decreases n - i,
        {
            let rgba_i = color(self.world.board.data[i]);
            assert(i < self.world.board@.len());
            let mut b: usize = 0;
            while b < 4
                invariant
                    n <= self.world.board@.len(),
                    frame@.len() == flen,
                    4 * n <= flen,
                    i < n,
                    forall|j: int| 4 * n <= j < flen ==> #[trigger] frame@[j] == f0[j],
                    b <= 4,
                    rgba_i@ == rgba(self.world.board@[i as int]),
                    forall|j: int, bb: int| 0 <= j < i && 0 <= bb < 4 ==>
                        #[trigger] frame@[4 * j + bb] == rgba(#[trigger] self.world.board@[j])[bb],
                    forall|bb: int| 0 <= bb < b ==> #[trigger] frame@[4 * i + bb] == rgba_i@[bb],
                decreases 4 - b,
            {
                frame.set(4 * i + b, rgba_i[b]);
                b = b + 1;
            }
            i = i + 1;
        }
    }
}

} // verus!
