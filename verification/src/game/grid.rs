//! A grid holding one item per map location.
use vstd::prelude::*;

use crate::util::{Dims, Location, lemma_index_in_bounds, lemma_loc_of_index};

verus! {

/// One item per location of a map with the given dimensions, stored row by row.
pub struct LocationGrid<T> {
    pub dims: Dims,
    pub grid: Vec<T>,
}

impl<T> LocationGrid<T> {
    pub open spec fn spec_dims(self) -> Dims {
        self.dims
    }

    /// The items, row by row.
    pub open spec fn spec_items(self) -> Seq<T> {
        self.grid@
    }

    pub open spec fn wf(self) -> bool {
        self.spec_items().len() == self.spec_dims().spec_area()
    }

    /// The item at a location within the grid.
    pub open spec fn spec_at(self, loc: Location) -> T {
        self.spec_items()[self.spec_dims().spec_index(loc)]
    }

    /// A grid whose items are produced by `init` from each location.
    pub fn new<F: Fn(Location) -> T>(dims: Dims, init: F) -> (g: LocationGrid<T>)
        requires
            forall|loc: Location| dims.spec_contains(loc) ==> call_requires(init, (loc,)),
        ensures
            g.wf(),
            g.spec_dims() == dims,
            forall|i: int| 0 <= i < dims.spec_area() ==> call_ensures(init, (dims.spec_loc(i),), #[trigger] g.spec_items()[i]),
    {
        let n = dims.area();
        let mut grid: Vec<T> = Vec::new();
        let mut i: usize = 0;
        while i < n
            invariant
                n == dims.spec_area(),
                i <= n,
                grid@.len() == i,
                forall|loc: Location| dims.spec_contains(loc) ==> call_requires(init, (loc,)),
                forall|j: int| 0 <= j < i ==> call_ensures(init, (dims.spec_loc(j),), #[trigger] grid@[j]),
            decreases n - i,
        {
            let loc = dims.loc(i);
            let item = init(loc);
            grid.push(item);
            i = i + 1;
        }
        LocationGrid { dims, grid }
    }

    pub fn dims(&self) -> (d: Dims)
        ensures
            d == self.spec_dims(),
    {
        self.dims
    }

    /// The item at `loc`, if `loc` is within the grid.
    pub fn get(&self, loc: Location) -> (r: Option<&T>)
        requires
            self.wf(),
        ensures
            self.spec_dims().spec_contains(loc) ==> r == Some(&self.spec_at(loc)),
            !self.spec_dims().spec_contains(loc) ==> r is None,
    {
        if self.dims.contain(loc) {
            let i = self.dims.index(loc);
            Some(&self.grid[i])
        } else {
            None
        }
    }

    /// Put `item` at `loc`, returning what was there; nothing changes when `loc` is outside the grid.
    pub fn replace(&mut self, loc: Location, item: T) -> (r: Option<T>)
        requires
            old(self).wf(),
        ensures
            final(self).wf(),
            final(self).spec_dims() == old(self).spec_dims(),
            old(self).spec_dims().spec_contains(loc) ==> r == Some(old(self).spec_at(loc)) && final(self).spec_items()
                == old(self).spec_items().update(old(self).spec_dims().spec_index(loc), item),
            !old(self).spec_dims().spec_contains(loc) ==> r is None && final(self).spec_items() == old(self).spec_items(),
    {
        if self.dims.contain(loc) {
            let i = self.dims.index(loc);
            let mut item = item;
            std::mem::swap(&mut self.grid[i], &mut item);
            Some(item)
        } else {
            None
        }
    }

    /// Every location of the grid, row by row.
    pub fn iter_locs(&self) -> (locs: Vec<Location>)
        ensures
            locs@.len() == self.spec_dims().spec_area(),
            forall|i: int| 0 <= i < locs@.len() ==> #[trigger] locs@[i] == self.spec_dims().spec_loc(i),
    {
        self.dims.iter_locs()
    }

    /// The items, row by row.
    pub fn iter(&self) -> (v: Vec<&T>)
        ensures
            v@.len() == self.spec_items().len(),
            forall|i: int| 0 <= i < v@.len() ==> *v@[i] == self.spec_items()[i],
    {
        let mut v: Vec<&T> = Vec::new();
        let mut i: usize = 0;
        while i < self.grid.len()
            invariant
                i <= self.grid@.len(),
                v@.len() == i,
                forall|j: int| 0 <= j < i ==> *v@[j] == self.grid@[j],
            decreases self.grid@.len() - i,
        {
            v.push(&self.grid[i]);
            i = i + 1;
        }
        v
    }
}

} // verus!
