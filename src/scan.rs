//! The order in which pixels carry the message, and the three channels of a pixel.
use vstd::prelude::*;

use vstd::arithmetic::div_mod::lemma_fundamental_div_mod_converse;

verus! {

/// The coordinates of a `w` x `h` grid in row-major order: position `k`
/// holds `(k % w, k / w)`.
pub open spec fn scan_order(w: u32, h: u32) -> Seq<(u32, u32)> {
    Seq::new(w as nat * h as nat, |k: int| ((k % (w as int)) as u32, (k / (w as int)) as u32))
}

/// Position `y * w + x` of the scan holds `(x, y)`.
pub proof fn lemma_scan_position(w: u32, h: u32, x: u32, y: u32)
    requires
        x < w,
        y < h,
    ensures
        0 <= y as int * w as int + x < w as int * h as int,
        scan_order(w, h)[y as int * w as int + x] == (x, y),
{
    let k = y as int * w as int + x;
    assert(k < w as int * h as int) by (nonlinear_arith)
        requires
            x < w,
            y < h,
            k == y as int * w as int + x,
    ;
    assert(0 <= k) by (nonlinear_arith)
        requires
            k == y as int * w as int + x,
    ;
    lemma_fundamental_div_mod_converse(k, w as int, y as int, x as int);
}

/// For any width and height the scan yields `w * h` coordinates, each inside
/// the grid, each pixel exactly once, in strictly increasing row-major order.
pub proof fn lemma_scan_order_coverage(w: u32, h: u32)
    ensures
        scan_order(w, h).len() == w as int * h as int,
        forall|k: int|
            0 <= k < scan_order(w, h).len() ==> {
                let c = #[trigger] scan_order(w, h)[k];
                &&& c.0 < w
                &&& c.1 < h
                &&& c.1 as int * w as int + c.0 as int == k
            },
        forall|i: int, j: int|
            0 <= i < j < scan_order(w, h).len() ==> {
                let a = #[trigger] scan_order(w, h)[i];
                let b = #[trigger] scan_order(w, h)[j];
                a.1 < b.1 || (a.1 == b.1 && a.0 < b.0)
            },
        forall|x: u32, y: u32|
            x < w && y < h ==> scan_order(w, h)[#[trigger] (y as int * w as int + x as int)] == (x, y),
{
    let s = scan_order(w, h);
    assert forall|k: int| 0 <= k < s.len() implies {
        let c = #[trigger] s[k];
        &&& c.0 < w
        &&& c.1 < h
        &&& c.1 as int * w as int + c.0 as int == k
    } by {
        let q = k / (w as int);
        let r = k % (w as int);
        assert(w > 0) by (nonlinear_arith)
            requires
                0 <= k < w as int * h as int,
        ;
        vstd::arithmetic::div_mod::lemma_fundamental_div_mod(k, w as int);
        assert(0 <= r < w);
        assert(0 <= q < h) by (nonlinear_arith)
            requires
                0 <= k < w as int * h as int,
                k == w as int * q + r,
                0 <= r < w,
        ;
        assert(q * w as int + r == k) by (nonlinear_arith)
            requires
                k == w as int * q + r,
        ;
    }
    assert forall|i: int, j: int| 0 <= i < j < s.len() implies {
        let a = #[trigger] s[i];
        let b = #[trigger] s[j];
        a.1 < b.1 || (a.1 == b.1 && a.0 < b.0)
    } by {
        let a = s[i];
        let b = s[j];
        assert(a.1 as int * w as int + a.0 as int == i);
        assert(b.1 as int * w as int + b.0 as int == j);
        if b.1 < a.1 {
            assert(b.1 as int * w as int + w as int <= a.1 as int * w as int) by (nonlinear_arith)
                requires
                    b.1 < a.1,
            ;
        }
    }
    assert forall|x: u32, y: u32| x < w && y < h implies scan_order(w, h)[#[trigger] (y as int * w as int
        + x as int)] == (x, y) by {
        lemma_scan_position(w, h, x, y);
    }
}

/// A grid with no columns or no rows scans to nothing.
pub proof fn lemma_scan_order_degenerate(w: u32, h: u32)
    requires
        w == 0 || h == 0,
    ensures
        scan_order(w, h).len() == 0,
{
    assert(w as int * h as int == 0) by (nonlinear_arith)
        requires
            w == 0 || h == 0,
    ;
}

/// Pixel scan order: yields the coordinates of a grid in row-major order.
pub struct PixelPositionIterator {
    dims: (u32, u32),
    current: (u32, u32),
}

impl PixelPositionIterator {
    /// The iterator's internal consistency.
    pub closed spec fn wf(&self) -> bool {
        &&& self.current.0 <= self.dims.0
        &&& self.current.1 <= self.dims.1
        &&& self.current.1 == self.dims.1 ==> self.current.0 == 0
    }

    /// How many coordinates have been yielded.
    pub closed spec fn index(&self) -> int {
        self.current.1 as int * self.dims.0 as int + self.current.0 as int
    }

    /// The grid's width and height.
    pub closed spec fn dims(&self) -> (u32, u32) {
        self.dims
    }

    /// The coordinates yet to come.
    pub closed spec fn rest(&self) -> Seq<(u32, u32)> {
        scan_order(self.dims.0, self.dims.1).skip(self.index())
    }

    /// Position and remaining length always add up to the grid's size.
    pub proof fn lemma_index_bound(&self)
        requires
            self.wf(),
        ensures
            0 <= self.index() <= self.dims().0 as int * self.dims().1 as int,
            self.rest().len() == self.dims().0 as int * self.dims().1 as int - self.index(),
            self.rest() == scan_order(self.dims().0, self.dims().1).skip(self.index()),
            scan_order(self.dims().0, self.dims().1).len() == self.dims().0 as int * self.dims().1 as int,
    {
        let w = self.dims.0 as int;
        let h = self.dims.1 as int;
        let x = self.current.0 as int;
        let y = self.current.1 as int;
        assert(0 <= y * w + x <= w * h) by (nonlinear_arith)
            requires
                0 <= x <= w,
                0 <= y <= h,
                y == h ==> x == 0,
        ;
    }

    /// A scan over a grid of `dims.0` columns and `dims.1` rows.
    pub fn new(dims: (u32, u32)) -> (r: PixelPositionIterator)
        ensures
            r.wf(),
            r.dims() == dims,
            r.index() == 0,
            r.rest() == scan_order(dims.0, dims.1),
    {
        let r = PixelPositionIterator { dims, current: (0, 0) };
        assert(r.rest() =~= scan_order(dims.0, dims.1));
        r
    }

    /// The next coordinate, or `None` once the grid is covered (at once when
    /// the width or the height is 0).
    pub fn next(&mut self) -> (r: Option<(u32, u32)>)
        requires
            old(self).wf(),
        ensures
            final(self).wf(),
            final(self).dims() == old(self).dims(),
            old(self).dims().0 == 0 || old(self).dims().1 == 0 ==> r is None,
            old(self).rest().len() == 0 ==> r is None && final(self).rest().len() == 0,
            old(self).rest().len() > 0 ==> r == Some(old(self).rest()[0]) && final(self).rest() == old(
                self,
            ).rest().drop_first() && final(self).index() == old(self).index() + 1,
    {
        let w = self.dims.0;
        let h = self.dims.1;
        if w == 0 || h == 0 {
            proof {
                lemma_scan_order_degenerate(w, h);
                assert(self.index() == 0) by (nonlinear_arith)
                    requires
                        w == 0 || h == 0,
                        self.current.0 <= w,
                        self.current.1 <= h,
                        self.current.1 == h ==> self.current.0 == 0,
                        self.index() == self.current.1 as int * w as int + self.current.0 as int,
                ;
            }
            return None;
        }
        if self.current.0 >= w {
            assert((self.current.1 as int + 1) * w as int == self.current.1 as int * w as int + w as int)
                by (nonlinear_arith);
            self.current.0 = 0;
            self.current.1 = self.current.1 + 1;
        }
        if self.current.1 >= h {
            assert(self.index() == w as int * h as int) by (nonlinear_arith)
                requires
                    self.current.0 == 0,
                    self.current.1 == h,
                    self.index() == self.current.1 as int * w as int + self.current.0 as int,
            ;
            return None;
        }
        let result = self.current;
        proof {
            lemma_scan_position(w, h, result.0, result.1);
        }
        self.current.0 = self.current.0 + 1;
        assert(self.rest() =~= old(self).rest().drop_first());
        Some(result)
    }
}

/// The three colour channels of one pixel, yielded in channel order.
pub struct TripleIterator<T> {
    data: [T; 3],
    pos: usize,
}

impl<T: Copy> TripleIterator<T> {
    /// The iterator's internal consistency.
    pub closed spec fn wf(&self) -> bool {
        self.pos <= 3
    }

    /// The values yet to come.
    pub closed spec fn rest(&self) -> Seq<T> {
        self.data@.skip(self.pos as int)
    }

    /// An iterator over the three values of `data`.
    pub fn new(data: [T; 3]) -> (r: TripleIterator<T>)
        ensures
            r.wf(),
            r.rest() == data@,
    {
        let r = TripleIterator { data, pos: 0 };
        assert(r.rest() =~= data@);
        r
    }

    /// The next value, or `None` after the third.
    pub fn next(&mut self) -> (r: Option<T>)
        requires
            old(self).wf(),
        ensures
            final(self).wf(),
            old(self).rest().len() == 0 ==> r is None && final(self).rest() == old(self).rest(),
            old(self).rest().len() > 0 ==> r == Some(old(self).rest()[0]) && final(self).rest() == old(
                self,
            ).rest().drop_first(),
    {
        if self.pos < 3 {
            let result = self.data[self.pos];
            self.pos = self.pos + 1;
            assert(self.rest() =~= old(self).rest().drop_first());
            Some(result)
        } else {
            None
        }
    }
}

} // verus!
