use vstd::prelude::*;
use crate::rgba::Rgba;

verus! {

/// A grid of colors, row-major, with row 0 at the bottom: the origin is the
/// bottom-left corner.
pub struct BitMap {
    pub width: u32,
    pub height: u32,
    pub pixels: Vec<Rgba>,
}

/// The `y`-th row of a grid of width `w`, counted from the bottom.
pub open spec fn grid_row(px: Seq<Rgba>, w: nat, y: nat) -> Seq<Rgba> {
    px.subrange((y * w) as int, (y * w + w) as int)
}

/// The first `n` rows, bottom row first: the order they are written to a file.
pub open spec fn scan_rows(px: Seq<Rgba>, w: nat, h: nat, n: nat) -> Seq<Rgba>
    decreases n,
{
    if n == 0 || n > h {
        Seq::empty()
    } else {
        scan_rows(px, w, h, (n - 1) as nat) + grid_row(px, w, (n - 1) as nat)
    }
}

/// The distinct colors of `s`, each once, in order of first appearance.
pub open spec fn unique_in_order(s: Seq<Rgba>) -> Seq<Rgba>
    decreases s.len(),
{
    if s.len() == 0 {
        Seq::empty()
    } else {
        let u = unique_in_order(s.drop_last());
        if u.contains(s.last()) {
            u
        } else {
            u.push(s.last())
        }
    }
}

/// Every color of `s` occurs in its distinct colors, and they occur in `s`,
/// with no repeats.
pub proof fn lemma_unique_in_order(s: Seq<Rgba>)
    ensures
        unique_in_order(s).no_duplicates(),
        forall|c: Rgba| s.contains(c) <==> unique_in_order(s).contains(c),
        unique_in_order(s).len() <= s.len(),
    decreases s.len(),
{
    if s.len() > 0 {
        lemma_unique_in_order(s.drop_last());
        let u = unique_in_order(s.drop_last());
        let l = s.last();
        assert forall|c: Rgba| s.contains(c) <==> (s.drop_last().contains(c) || c == l) by {
            if s.contains(c) {
                let k = choose|k: int| 0 <= k < s.len() && s[k] == c;
                if k < s.len() - 1 {
                    assert(s.drop_last()[k] == c);
                }
            }
            if s.drop_last().contains(c) {
                let k = choose|k: int| 0 <= k < s.drop_last().len() && s.drop_last()[k] == c;
                assert(s[k] == c);
            }
            if c == l {
                assert(s[s.len() - 1] == c);
            }
        }
        if !u.contains(l) {
            assert forall|c: Rgba| u.push(l).contains(c) <==> (u.contains(c) || c == l) by {
                if u.push(l).contains(c) {
                    let k = choose|k: int| 0 <= k < u.push(l).len() && u.push(l)[k] == c;
                    if k < u.len() {
                        assert(u[k] == c);
                    }
                }
                if u.contains(c) {
                    let k = choose|k: int| 0 <= k < u.len() && u[k] == c;
                    assert(u.push(l)[k] == c);
                }
                if c == l {
                    assert(u.push(l)[u.len() as int] == c);
                }
            }
        }
    }
}

impl BitMap {
    pub open spec fn well_formed(&self) -> bool {
        self.pixels@.len() == self.width * self.height
    }

    /// The pixels in the order they are written to a file.
    pub open spec fn spec_scan(&self) -> Seq<Rgba> {
        scan_rows(self.pixels@, self.width as nat, self.height as nat, self.height as nat)
    }

    /// A grid of the given size from its pixels, row-major, bottom row first.
    pub fn new(width: u32, height: u32, pixels: Vec<Rgba>) -> (r: Option<BitMap>)
        ensures
            pixels@.len() == width * height <==> r is Some,
            r is Some ==> r->Some_0.width == width && r->Some_0.height == height
                && r->Some_0.pixels@ == pixels@,
    {
        assert(width as u64 * height as u64 <= u64::MAX) by (nonlinear_arith)
            requires
                width <= u32::MAX,
                height <= u32::MAX,
        ;
        if pixels.len() as u64 == width as u64 * height as u64 {
            Some(BitMap { width, height, pixels })
        } else {
            None
        }
    }

    pub fn get_width(&self) -> (r: u32)
        ensures
            r == self.width,
    {
        self.width
    }

    pub fn get_height(&self) -> (r: u32)
        ensures
            r == self.height,
    {
        self.height
    }

    /// The color at column `x` of row `y`, counted from the bottom.
    pub fn get_pixel(&self, x: u32, y: u32) -> (r: Rgba)
        requires
            self.well_formed(),
            x < self.width,
            y < self.height,
        ensures
            r == self.pixels@[y * self.width + x],
    {
        proof {
            lemma_index_in_grid(x as nat, y as nat, self.width as nat, self.height as nat);
        }
        let len = self.pixels.len();
        assert(y * self.width + x < len);
        let row_start: usize = y as usize * self.width as usize;
        self.pixels[row_start + x as usize]
    }

    /// The distinct colors of the grid in the order the pixels are written
    /// to a file: rows bottom to top, each left to right.
    pub fn get_all_unique_colors(&self) -> (r: Vec<Rgba>)
        requires
            self.well_formed(),
        ensures
            r@ == unique_in_order(self.spec_scan()),
    {
        let w = self.width;
        let h = self.height;
        let mut colors: Vec<Rgba> = Vec::new();
        let mut n: u32 = 0;
        while n < h
            invariant
                self.well_formed(),
                w == self.width,
                h == self.height,
                n <= h,
                colors@ == unique_in_order(scan_rows(self.pixels@, w as nat, h as nat, n as nat)),
            decreases h - n,
        {
            let y: u32 = n;
            let ghost before = scan_rows(self.pixels@, w as nat, h as nat, n as nat);
            let mut x: u32 = 0;
            while x < w
                invariant
                    self.well_formed(),
                    w == self.width,
                    h == self.height,
                    n < h,
                    y == n,
                    x <= w,
                    colors@ == unique_in_order(
                        before + grid_row(self.pixels@, w as nat, y as nat).take(x as int),
                    ),
                decreases w - x,
            {
                let c = self.get_pixel(x, y);
                let ghost s = before + grid_row(self.pixels@, w as nat, y as nat).take(x as int);
                let ghost s2 = before + grid_row(self.pixels@, w as nat, y as nat).take(
                    x as int + 1,
                );
                proof {
                    lemma_index_in_grid(x as nat, y as nat, w as nat, h as nat);
                    assert(s2.drop_last() =~= s);
                    assert(s2.last() == c);
                }
                if !contains_color(&colors, c) {
                    colors.push(c);
                }
                x = x + 1;
            }
            proof {
                lemma_index_in_grid(0, y as nat, w as nat, h as nat);
                assert(grid_row(self.pixels@, w as nat, y as nat).take(w as int) =~= grid_row(
                    self.pixels@,
                    w as nat,
                    y as nat,
                ));
            }
            n = n + 1;
        }
        colors
    }
}

/// Whether `c` occurs in `v`.
pub fn contains_color(v: &Vec<Rgba>, c: Rgba) -> (r: bool)
    ensures
        r == v@.contains(c),
{
    let mut k: usize = 0;
    while k < v.len()
        invariant
            k <= v@.len(),
            forall|j: int| 0 <= j < k ==> v@[j] != c,
        decreases v@.len() - k,
    {
        if v[k] == c {
            return true;
        }
        k = k + 1;
    }
    false
}

/// A pixel position inside a grid lies inside its pixel sequence.
pub proof fn lemma_index_in_grid(x: nat, y: nat, w: nat, h: nat)
    requires
        x < w || (x == 0 && w == 0),
        y < h,
    ensures
        y * w + x < w * h || w == 0,
        y * w + w <= w * h,
        0 <= y * w,
{
    assert(y * w + w <= w * h) by (nonlinear_arith)
        requires
            y < h,
    ;
    assert(y * w + x < w * h || w == 0) by (nonlinear_arith)
        requires
            y < h,
            x < w || (x == 0 && w == 0),
    ;
}

} // verus!
