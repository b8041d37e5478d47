use vstd::prelude::*;
use crate::geometry::{Point, dims_ok, in_grid, cell_of, lemma_cell_of};

verus! {

/// What a grid cell holds. `NewFish`, `NewShark` and `FedShark` mean the same
/// occupancy as `Fish`, `Shark` and `Shark`, and mark a cell changed this tick.
#[derive(Copy, Clone, Debug, PartialEq, Eq, Structural)]
pub enum Content {
    Empty,
    Fish,
    NewFish,
    Shark,
    NewShark,
    FedShark,
}

impl Content {
    /// The cell holds nothing.
    pub open spec fn empty(self) -> bool {
        self == Content::Empty
    }

    /// The cell holds a fish, new or not.
    pub open spec fn fishy(self) -> bool {
        self == Content::Fish || self == Content::NewFish
    }

    /// The cell holds a shark, new, fed or neither.
    pub open spec fn sharky(self) -> bool {
        self == Content::Shark || self == Content::NewShark || self == Content::FedShark
    }

    pub fn is_empty(&self) -> (r: bool)
        ensures
            r == self.empty(),
    {
        matches!(*self, Content::Empty)
    }

    pub fn is_fish(&self) -> (r: bool)
        ensures
            r == self.fishy(),
    {
        matches!(*self, Content::Fish | Content::NewFish)
    }

    pub fn is_shark(&self) -> (r: bool)
        ensures
            r == self.sharky(),
    {
        matches!(*self, Content::Shark | Content::NewShark | Content::FedShark)
    }
}

/// A dense row-major grid of cell contents.
pub struct Board {
    pub data: Vec<Content>,
    pub width: usize,
    pub height: usize,
}

impl Board {
    pub open spec fn view(&self) -> Seq<Content> {
        self.data@
    }

    /// The dimensions are usable and the grid has one cell per position.
    pub open spec fn wf(&self) -> bool {
        &&& dims_ok(self.width as int, self.height as int)
        &&& self.data@.len() == self.width * self.height
    }

    /// What the board holds at `p`.
    pub open spec fn at(&self, p: Point) -> Content {
        self.data@[cell_of(p, self.width as int)]
    }

    /// An empty board of the given size.
    pub fn new(width: usize, height: usize) -> (r: Board)
        requires
            dims_ok(width as int, height as int),
        ensures
            r.wf(),
            r.width == width,
            r.height == height,
            forall|i: int| 0 <= i < r@.len() ==> r@[i] == Content::Empty,
    {
        let n: usize = width * height;
        let mut data: Vec<Content> = Vec::new();
        let mut i: usize = 0;
        while i < n
            invariant
                i <= n,
                data@.len() == i,
                forall|j: int| 0 <= j < i ==> data@[j] == Content::Empty,
            decreases n - i,
        {
            data.push(Content::Empty);
            i = i + 1;
        }
        Board { data, width, height }
    }

    /// The flat index of `p`.
    pub fn index_of(&self, p: Point) -> (r: usize)
        requires
            self.wf(),
            in_grid(p, self.width as int, self.height as int),
        ensures
            r as int == cell_of(p, self.width as int),
            r < self@.len(),
    {
        proof {
            lemma_cell_of(p, p, self.width as int, self.height as int);
        }
        p.y as usize * self.width + p.x as usize
    }

    pub fn get(&self, p: Point) -> (r: Content)
        requires
            self.wf(),
            in_grid(p, self.width as int, self.height as int),
        ensures
            r == self.at(p),
    {
        let ix = self.index_of(p);
        self.data[ix]
    }

    /// Overwrites the cell at `p`.
    pub fn set(&mut self, p: Point, c: Content)
        requires
            old(self).wf(),
            in_grid(p, old(self).width as int, old(self).height as int),
        ensures
            final(self).wf(),
            final(self).width == old(self).width,
            final(self).height == old(self).height,
            final(self)@ == old(self)@.update(cell_of(p, old(self).width as int), c),
    {
        let ix = self.index_of(p);
        self.data.set(ix, c);
    }
}

} // verus!
