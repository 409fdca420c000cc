use vstd::prelude::*;
use vstd::arithmetic::div_mod::{lemma_multiply_divide_lt, lemma_mod_pos_bound};
use vstd::arithmetic::mul::{lemma_mul_inequality, lemma_mul_is_associative};

verus! {

/// The x-coordinate of grid entry `i`: cells run along a row first, each one
/// repeated `repeat` times in a row.
pub open spec fn anchor_x(i: int, width: int, stride: int, repeat: int) -> int {
    ((i / repeat) % width) * stride
}

/// The y-coordinate of grid entry `i`.
pub open spec fn anchor_y(i: int, width: int, stride: int, repeat: int) -> int {
    ((i / repeat) / width) * stride
}

/// Number of entries of the grid of a `width` by `height` feature map.
pub open spec fn grid_len(width: int, height: int, repeat: int) -> int {
    width * height * repeat
}

/// The inputs for which the grid's length and every coordinate fit in `u32`.
pub open spec fn grid_fits(width: u32, height: u32, stride: u32, repeat: u32) -> bool {
    &&& grid_len(width as int, height as int, repeat as int) <= u32::MAX
    &&& (width as int - 1) * stride as int <= u32::MAX
    &&& (height as int - 1) * stride as int <= u32::MAX
}

/// `g` is the anchor-center grid of the given feature map.
pub open spec fn is_grid(g: Seq<(u32, u32)>, width: u32, height: u32, stride: u32, repeat: u32) -> bool {
    &&& g.len() == grid_len(width as int, height as int, repeat as int)
    &&& forall|i: int| 0 <= i < g.len() ==> {
        &&& (#[trigger] g[i]).0 == anchor_x(i, width as int, stride as int, repeat as int)
        &&& g[i].1 == anchor_y(i, width as int, stride as int, repeat as int)
    }
}

proof fn lemma_entry_bounds(i: int, width: int, height: int, stride: int, repeat: int)
    requires
        0 <= i < width * height * repeat,
        0 < width,
        0 < repeat,
        0 <= height,
        0 <= stride,
    ensures
        0 <= anchor_x(i, width, stride, repeat) <= (width - 1) * stride,
        0 <= anchor_y(i, width, stride, repeat) <= (height - 1) * stride,
{
    let c = i / repeat;
    lemma_mul_is_associative(width, height, repeat);
    assert(width * height * repeat == repeat * (width * height)) by (nonlinear_arith);
    lemma_multiply_divide_lt(i, repeat, width * height);
    assert(c >= 0) by (nonlinear_arith)
        requires c == i / repeat, i >= 0, repeat > 0;
    lemma_mod_pos_bound(c, width);
    lemma_multiply_divide_lt(c, width, height);
    assert(c / width >= 0) by (nonlinear_arith)
        requires c >= 0, width > 0;
    lemma_mul_inequality(c % width, width - 1, stride);
    lemma_mul_inequality(c / width, height - 1, stride);
    assert(0 <= (c % width) * stride) by (nonlinear_arith)
        requires c % width >= 0, stride >= 0;
    assert(0 <= (c / width) * stride) by (nonlinear_arith)
        requires c / width >= 0, stride >= 0;
}

/// The anchor centers of a `width` by `height` feature map whose cells are
/// `stride` input pixels apart, each cell repeated `repeat` times.
pub fn anchor_centers(width: u32, height: u32, stride: u32, repeat: u32) -> (r: Vec<(u32, u32)>)
    requires
        grid_fits(width, height, stride, repeat),
    ensures
        is_grid(r@, width, height, stride, repeat),
{
    let ghost n = grid_len(width as int, height as int, repeat as int);
    assert(0 <= n && (repeat == 0 ==> n == 0)) by (nonlinear_arith)
        requires n == width as int * height as int * repeat as int;
    let n: u32 = if repeat == 0 {
        0
    } else {
        assert(width as int * height as int <= n) by (nonlinear_arith)
            requires n == width as int * height as int * repeat as int, repeat > 0, width >= 0, height >= 0;
        width * height * repeat
    };
    let mut r: Vec<(u32, u32)> = Vec::new();
    let mut i: u32 = 0;
    while i < n
        invariant
            n as int == grid_len(width as int, height as int, repeat as int),
            grid_fits(width, height, stride, repeat),
            i <= n,
            r@.len() == i,
            forall|k: int| 0 <= k < i ==> {
                &&& (#[trigger] r@[k]).0 == anchor_x(k, width as int, stride as int, repeat as int)
                &&& r@[k].1 == anchor_y(k, width as int, stride as int, repeat as int)
            },
        decreases n - i,
    {
        assert(width > 0 && repeat > 0) by (nonlinear_arith)
            requires i < n, n as int == width as int * height as int * repeat as int;
        proof {
            lemma_entry_bounds(i as int, width as int, height as int, stride as int, repeat as int);
        }
        let c: u32 = i / repeat;
        let x: u32 = (c % width) * stride;
        let y: u32 = (c / width) * stride;
        r.push((x, y));
        i = i + 1;
    }
    r
}

/// The identity of a grid: width, height, stride and repeat.
#[derive(Clone, Copy, Debug, PartialEq, Eq, Structural)]
pub struct GridKey {
    pub width: u32,
    pub height: u32,
    pub stride: u32,
    pub repeat: u32,
}

fn copy_grid(g: &Vec<(u32, u32)>) -> (r: Vec<(u32, u32)>)
    ensures
        r@ == g@,
{
    let mut r: Vec<(u32, u32)> = Vec::new();
    let mut i: usize = 0;
    while i < g.len()
        invariant
            i <= g@.len(),
            r@ == g@.subrange(0, i as int),
        decreases g@.len() - i,
    {
        r.push(g[i]);
        i = i + 1;
        assert(r@ =~= g@.subrange(0, i as int));
    }
    assert(r@ =~= g@);
    r
}

/// A read-through memo of anchor grids, keyed by the exact grid identity.
pub struct AnchorGridCache {
    keys: Vec<GridKey>,
    grids: Vec<Vec<(u32, u32)>>,
}

impl AnchorGridCache {
    /// The grids held so far, by key.
    pub closed spec fn view(&self) -> Map<GridKey, Seq<(u32, u32)>> {
        Map::new(
            |k: GridKey| exists|i: int| 0 <= i < self.keys@.len() && self.keys@[i] == k,
            |k: GridKey| self.grids@[choose|i: int| 0 <= i < self.keys@.len() && self.keys@[i] == k]@,
        )
    }

    /// Keys are unique, the two lists run in step, and each grid held is the
    /// grid of its key.
    pub closed spec fn wf(&self) -> bool {
        &&& self.keys@.len() == self.grids@.len()
        &&& forall|i: int, j: int|
            0 <= i < j < self.keys@.len() ==> self.keys@[i] != self.keys@[j]
        &&& forall|i: int|
            #![trigger self.keys@[i]]
            #![trigger self.grids@[i]]
            0 <= i < self.keys@.len() ==> is_grid(
                self.grids@[i]@,
                self.keys@[i].width,
                self.keys@[i].height,
                self.keys@[i].stride,
                self.keys@[i].repeat,
            )
    }

    /// Every grid the cache holds is the grid of its key.
    pub proof fn lemma_held_grids_are_exact(&self, k: GridKey)
        requires
            self.wf(),
            self.view().contains_key(k),
        ensures
            is_grid(self.view()[k], k.width, k.height, k.stride, k.repeat),
    {
        let i = choose|i: int| 0 <= i < self.keys@.len() && self.keys@[i] == k;
        assert(self.keys@[i] == k);
    }

    /// An empty cache.
    pub fn new() -> (r: Self)
        ensures
            r.wf(),
            r.view() == Map::<GridKey, Seq<(u32, u32)>>::empty(),
    {
        let r = AnchorGridCache { keys: Vec::new(), grids: Vec::new() };
        assert(r.view() =~= Map::<GridKey, Seq<(u32, u32)>>::empty());
        r
    }

    /// The grid of the given feature map: taken from the cache when held,
    /// else computed and kept. Nothing held before is dropped or changed.
    pub fn get(&mut self, width: u32, height: u32, stride: u32, repeat: u32) -> (r: Vec<(u32, u32)>)
        requires
            old(self).wf(),
            grid_fits(width, height, stride, repeat),
        ensures
            final(self).wf(),
            is_grid(r@, width, height, stride, repeat),
            final(self).view() == old(self).view().insert(GridKey { width, height, stride, repeat }, r@),
    {
        let key = GridKey { width: width, height: height, stride: stride, repeat: repeat };
        let mut i: usize = 0;
        while i < self.keys.len()
            invariant
                self.wf(),
                *self == *old(self),
                key == (GridKey { width, height, stride, repeat }),
                i <= self.keys@.len(),
                forall|j: int| 0 <= j < i ==> self.keys@[j] != key,
            decreases self.keys@.len() - i,
        {
            let k = self.keys[i];
            if k == key {
                let g = copy_grid(&self.grids[i]);
                proof {
                    assert(self.keys@[i as int] == key);
                    assert(is_grid(self.grids@[i as int]@, width, height, stride, repeat));
                    let m = self.view();
                    let j = choose|j: int| 0 <= j < self.keys@.len() && self.keys@[j] == key;
                    assert(j == i);
                    assert(m.insert(key, g@) =~= m);
                }
                return g;
            }
            i = i + 1;
        }
        let g = anchor_centers(width, height, stride, repeat);
        let ghost before = *self;
        self.keys.push(key);
        self.grids.push(copy_grid(&g));
        proof {
            let n = before.keys@.len();
            assert(self.keys@[n as int] == key);
            assert forall|k: GridKey| #![auto] self.view().contains_key(k) == before.view().insert(key, g@).contains_key(k) by {
                if k != key && before.view().contains_key(k) {
                    let j = choose|j: int| 0 <= j < before.keys@.len() && before.keys@[j] == k;
                    assert(self.keys@[j] == k);
                }
                if k != key && self.view().contains_key(k) {
                    let j = choose|j: int| 0 <= j < self.keys@.len() && self.keys@[j] == k;
                    assert(before.keys@[j] == k);
                }
            }
            assert forall|k: GridKey| #![auto] self.view().contains_key(k) ==> self.view()[k] == before.view().insert(key, g@)[k] by {
                if self.view().contains_key(k) {
                    let j = choose|j: int| 0 <= j < self.keys@.len() && self.keys@[j] == k;
                    if k == key {
                        assert(j == n);
                    } else {
                        let j0 = choose|j: int| 0 <= j < before.keys@.len() && before.keys@[j] == k;
                        assert(j == j0);
                    }
                }
            }
            assert(self.view() =~= before.view().insert(key, g@));
        }
        g
    }
}

} // verus!
