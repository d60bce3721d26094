//! Filled-shape rasterization: axis-aligned rectangles and discs.

use vstd::prelude::*;

use crate::image::lemma_flat_index;
use crate::image::Pixel;
use crate::image::Screen;

verus! {

/// True when the cell (px, py) lies in the rectangle anchored at (x, y)
/// with the given width and height.
pub open spec fn rect_covers(x: int, y: int, w: int, h: int, px: int, py: int) -> bool {
    x <= px < x + w && y <= py < y + h
}

/// The pixel sequence after painting the rectangle with `c` over `s`,
/// where `row` is the buffer width used for flat indexing.
pub open spec fn rect_painted(
    s: Seq<Pixel>,
    row: int,
    x: int,
    y: int,
    w: int,
    h: int,
    c: Pixel,
) -> Seq<Pixel> {
    Seq::new(s.len(), |k: int| if rect_covers(x, y, w, h, k % row, k / row) { c } else { s[k] })
}

/// Fills the axis-aligned rectangle anchored at (x, y) with `color`.
/// The rectangle must fit inside the buffer.
#[verifier::loop_isolation(false)]
pub fn draw_rect(x: usize, y: usize, width: usize, height: usize, color: Pixel, screen: &mut Screen)
    requires
        old(screen).wf(),
        x + width <= old(screen).width,
        y + height <= old(screen).height,
    ensures
        final(screen).wf(),
        final(screen).width == old(screen).width,
        final(screen).height == old(screen).height,
        final(screen).pixels@ == rect_painted(
            old(screen).pixels@,
            old(screen).width as int,
            x as int,
            y as int,
            width as int,
            height as int,
            color,
        ),
        forall|qx: int, qy: int|
            0 <= qx < old(screen).width && 0 <= qy < old(screen).height ==> final(screen).pix(
                qx,
                qy,
            ) == (if rect_covers(x as int, y as int, width as int, height as int, qx, qy) {
                color
            } else {
                old(screen).pix(qx, qy)
            }),
{
    let ghost s0 = screen.pixels@;
    let row = screen.width;
    let mut i: usize = 0;
    while i < height
        invariant
            i <= height,
            screen.width == old(screen).width,
            screen.height == old(screen).height,
            screen.pixels@.len() == s0.len(),
            forall|k: int|
                0 <= k < s0.len() ==> screen.pixels@[k] == (if rect_covers(
                    x as int,
                    y as int,
                    width as int,
                    i as int,
                    k % (row as int),
                    k / (row as int),
                ) {
                    color
                } else {
                    s0[k]
                }),
        decreases height - i,
    {
        let mut j: usize = 0;
        while j < width
            invariant
                i < height,
                j <= width,
                screen.width == old(screen).width,
                screen.height == old(screen).height,
                screen.pixels@.len() == s0.len(),
                forall|k: int|
                    0 <= k < s0.len() ==> screen.pixels@[k] == (if rect_covers(
                        x as int,
                        y as int,
                        width as int,
                        i as int,
                        k % (row as int),
                        k / (row as int),
                    ) || (k / (row as int) == y + i && x <= k % (row as int) < x + j) {
                        color
                    } else {
                        s0[k]
                    }),
            decreases width - j,
        {
            let total = screen.pixels.len();
            proof {
                lemma_flat_index(row as int, screen.height as int, x + j, y + i);
                assert((y + i) * (row as int) + (x + j) < total as int);
            }
            let n = (y + i) * row + (x + j);
            let ghost sp = screen.pixels@;
            screen.pixels.set(n, color);
            proof {
                assert forall|k: int| 0 <= k < s0.len() implies screen.pixels@[k] == (if rect_covers(
                    x as int,
                    y as int,
                    width as int,
                    i as int,
                    k % (row as int),
                    k / (row as int),
                ) || (k / (row as int) == y + i && x <= k % (row as int) < x + j + 1) {
                    color
                } else {
                    s0[k]
                }) by {
                    vstd::arithmetic::div_mod::lemma_fundamental_div_mod(k, row as int);
                    if k == n as int {
                        assert(screen.pixels@[k] == color);
                    } else {
                        assert(row >= 1);
                        assert(k == (row as int) * (k / (row as int)) + k % (row as int));
                        assert(!(k / (row as int) == y + i && k % (row as int) == x + j)) by {
                            if k / (row as int) == y + i && k % (row as int) == x + j {
                                assert(k == (row as int) * ((y + i) as int) + ((x + j) as int));
                                assert((row as int) * ((y + i) as int) == ((y + i) as int) * (
                                row as int)) by (nonlinear_arith);
                                assert(k == n as int);
                            }
                        }
                        assert(screen.pixels@[k] == sp[k]);
                    }
                }
            }
            j = j + 1;
        }
        i = i + 1;
    }
    proof {
        assert(screen.pixels@ =~= rect_painted(
            s0,
            row as int,
            x as int,
            y as int,
            width as int,
            height as int,
            color,
        ));
        assert forall|qx: int, qy: int|
            0 <= qx < old(screen).width && 0 <= qy < old(screen).height implies screen.pix(qx, qy)
            == (if rect_covers(x as int, y as int, width as int, height as int, qx, qy) {
            color
        } else {
            old(screen).pix(qx, qy)
        }) by {
            lemma_flat_index(row as int, screen.height as int, qx, qy);
        }
    }
}

/// Painting the same rectangle twice with the same color leaves the same
/// pixels as painting it once.
pub proof fn lemma_rect_idempotent(
    s: Seq<Pixel>,
    row: int,
    x: int,
    y: int,
    w: int,
    h: int,
    c: Pixel,
)
    ensures
        rect_painted(rect_painted(s, row, x, y, w, h, c), row, x, y, w, h, c) == rect_painted(
            s,
            row,
            x,
            y,
            w,
            h,
            c,
        ),
{
    let once = rect_painted(s, row, x, y, w, h, c);
    let twice = rect_painted(once, row, x, y, w, h, c);
    assert(twice =~= once);
}

/// The low edge of the disc's bounding box, clamped to 0.
pub open spec fn clamp_low(center: int, r: int) -> int {
    if center < r {
        0
    } else {
        center - r
    }
}

/// The high edge of the disc's bounding box; when the box would run past the
/// buffer it stops at `limit - 1`, one short of the last valid line.
pub open spec fn clamp_high(center: int, r: int, limit: int) -> int {
    if center + r >= limit {
        limit - 1
    } else {
        center + r
    }
}

/// True when (px, py) lies within squared distance r * r of (x, y).
pub open spec fn in_disc(x: int, y: int, r: int, px: int, py: int) -> bool {
    (px - x) * (px - x) + (py - y) * (py - y) <= r * r
}

/// True when the cell (px, py) is painted by a disc of center (x, y) and
/// radius `r` on a `row` x `height` buffer: inside the clamped bounding box
/// (half-open on the high edges) and within the radius.
pub open spec fn circle_covers(
    x: int,
    y: int,
    r: int,
    row: int,
    height: int,
    px: int,
    py: int,
) -> bool {
    &&& clamp_low(x, r) <= px < clamp_high(x, r, row)
    &&& clamp_low(y, r) <= py < clamp_high(y, r, height)
    &&& in_disc(x, y, r, px, py)
}

/// The pixel sequence after painting the disc with `c` over `s`.
pub open spec fn circle_painted(
    s: Seq<Pixel>,
    row: int,
    height: int,
    x: int,
    y: int,
    r: int,
    c: Pixel,
) -> Seq<Pixel> {
    Seq::new(
        s.len(),
        |k: int|
            if circle_covers(x, y, r, row, height, k % row, k / row) {
                c
            } else {
                s[k]
            },
    )
}

/// Fills the disc of center (x, y) and radius `radius` with `color`, clamped
/// to the buffer. The high edges of the bounding box are half-open, so the
/// row `y + radius` and the column `x + radius` are never painted.
#[verifier::loop_isolation(false)]
pub fn draw_circle(x: usize, y: usize, radius: usize, color: Pixel, screen: &mut Screen)
    requires
        old(screen).wf(),
        old(screen).width >= 1,
        old(screen).height >= 1,
        x + radius <= usize::MAX,
        y + radius <= usize::MAX,
        radius < 0x8000_0000,
    ensures
        final(screen).wf(),
        final(screen).width == old(screen).width,
        final(screen).height == old(screen).height,
        final(screen).pixels@ == circle_painted(
            old(screen).pixels@,
            old(screen).width as int,
            old(screen).height as int,
            x as int,
            y as int,
            radius as int,
            color,
        ),
        forall|qx: int, qy: int|
            0 <= qx < old(screen).width && 0 <= qy < old(screen).height ==> final(screen).pix(
                qx,
                qy,
            ) == (if circle_covers(
                x as int,
                y as int,
                radius as int,
                old(screen).width as int,
                old(screen).height as int,
                qx,
                qy,
            ) {
                color
            } else {
                old(screen).pix(qx, qy)
            }),
{
    let ghost s0 = screen.pixels@;
    let row = screen.width;
    let h = screen.height;
    let lowy = if y < radius {
        0
    } else {
        y - radius
    };
    let lowx = if x < radius {
        0
    } else {
        x - radius
    };
    let highy = if y + radius >= h {
        h - 1
    } else {
        y + radius
    };
    let highx = if x + radius >= row {
        row - 1
    } else {
        x + radius
    };
    let mut i = lowy;
    while i < highy
        invariant
            lowy <= i,
            screen.width == old(screen).width,
            screen.height == old(screen).height,
            screen.pixels@.len() == s0.len(),
            forall|k: int|
                0 <= k < s0.len() ==> screen.pixels@[k] == (if circle_covers(
                    x as int,
                    y as int,
                    radius as int,
                    row as int,
                    h as int,
                    k % (row as int),
                    k / (row as int),
                ) && k / (row as int) < i {
                    color
                } else {
                    s0[k]
                }),
        decreases highy - i,
    {
        let mut j = lowx;
        while j < highx
            invariant
                lowy <= i < highy,
                lowx <= j,
                screen.width == old(screen).width,
                screen.height == old(screen).height,
                screen.pixels@.len() == s0.len(),
                forall|k: int|
                    0 <= k < s0.len() ==> screen.pixels@[k] == (if circle_covers(
                        x as int,
                        y as int,
                        radius as int,
                        row as int,
                        h as int,
                        k % (row as int),
                        k / (row as int),
                    ) && (k / (row as int) < i || (k / (row as int) == i && k % (row as int)
                        < j)) {
                        color
                    } else {
                        s0[k]
                    }),
            decreases highx - j,
        {
            let dy = if i >= y {
                i - y
            } else {
                y - i
            };
            let dx = if j >= x {
                j - x
            } else {
                x - j
            };
            proof {
                assert(dx <= radius && dy <= radius);
                assert((dx as int) * (dx as int) == ((j - x) as int) * ((j - x) as int))
                    by (nonlinear_arith)
                    requires
                        dx == j - x || dx == x - j,
                ;
                assert((dy as int) * (dy as int) == ((i - y) as int) * ((i - y) as int))
                    by (nonlinear_arith)
                    requires
                        dy == i - y || dy == y - i,
                ;
                assert((dx as u64) * (dx as u64) + (dy as u64) * (dy as u64) <= u64::MAX)
                    by (nonlinear_arith)
                    requires
                        dx < 0x8000_0000 && dy < 0x8000_0000,
                ;
            }
            let dist2 = (dx as u64) * (dx as u64) + (dy as u64) * (dy as u64);
            proof {
                assert((radius as u64) * (radius as u64) <= u64::MAX) by (nonlinear_arith)
                    requires
                        radius < 0x8000_0000,
                ;
            }
            if dist2 <= (radius as u64) * (radius as u64) {
                let total = screen.pixels.len();
                proof {
                    lemma_flat_index(row as int, h as int, j as int, i as int);
                    assert((i as int) * (row as int) + (j as int) < total as int);
                }
                let n = i * row + j;
                let ghost sp = screen.pixels@;
                screen.pixels.set(n, color);
                proof {
                    assert forall|k: int| 0 <= k < s0.len() implies screen.pixels@[k] == (
                    if circle_covers(
                        x as int,
                        y as int,
                        radius as int,
                        row as int,
                        h as int,
                        k % (row as int),
                        k / (row as int),
                    ) && (k / (row as int) < i || (k / (row as int) == i && k % (row as int) < j
                        + 1)) {
                        color
                    } else {
                        s0[k]
                    }) by {
                        vstd::arithmetic::div_mod::lemma_fundamental_div_mod(k, row as int);
                        if k == n as int {
                            assert(circle_covers(
                                x as int,
                                y as int,
                                radius as int,
                                row as int,
                                h as int,
                                j as int,
                                i as int,
                            ));
                            assert(screen.pixels@[k] == color);
                        } else {
                            assert(!(k / (row as int) == i && k % (row as int) == j)) by {
                                if k / (row as int) == i && k % (row as int) == j {
                                    assert((row as int) * (i as int) == (i as int) * (row as int))
                                        by (nonlinear_arith);
                                    assert(k == n as int);
                                }
                            }
                            assert(screen.pixels@[k] == sp[k]);
                        }
                    }
                }
            } else {
                proof {
                    assert forall|k: int| 0 <= k < s0.len() implies screen.pixels@[k] == (
                    if circle_covers(
                        x as int,
                        y as int,
                        radius as int,
                        row as int,
                        h as int,
                        k % (row as int),
                        k / (row as int),
                    ) && (k / (row as int) < i || (k / (row as int) == i && k % (row as int) < j
                        + 1)) {
                        color
                    } else {
                        s0[k]
                    }) by {
                        vstd::arithmetic::div_mod::lemma_fundamental_div_mod(k, row as int);
                        if k / (row as int) == i && k % (row as int) == j {
                            assert((row as int) * (i as int) == (i as int) * (row as int))
                                by (nonlinear_arith);
                            assert(!in_disc(
                                x as int,
                                y as int,
                                radius as int,
                                k % (row as int),
                                k / (row as int),
                            ));
                        }
                    }
                }
            }
            j = j + 1;
        }
        i = i + 1;
    }
    proof {
        assert forall|k: int| 0 <= k < s0.len() implies screen.pixels@[k] == circle_painted(
            s0,
            row as int,
            h as int,
            x as int,
            y as int,
            radius as int,
            color,
        )[k] by {}
        assert(screen.pixels@ =~= circle_painted(
            s0,
            row as int,
            h as int,
            x as int,
            y as int,
            radius as int,
            color,
        ));
        assert forall|qx: int, qy: int|
            0 <= qx < old(screen).width && 0 <= qy < old(screen).height implies screen.pix(qx, qy)
            == (if circle_covers(x as int, y as int, radius as int, row as int, h as int, qx, qy) {
            color
        } else {
            old(screen).pix(qx, qy)
        }) by {
            lemma_flat_index(row as int, h as int, qx, qy);
        }
    }
}

/// On a buffer large enough that the bounding box is not clamped, every cell
/// strictly inside the box at squared distance at most r * r from the center
/// is painted, and every cell at squared distance more than r * r keeps its
/// old pixel. The cells of the box's own high edges, row y + r and column
/// x + r, are outside the half-open box and are never painted.
pub proof fn lemma_circle_containment(
    s: Seq<Pixel>,
    row: int,
    height: int,
    x: int,
    y: int,
    r: int,
    c: Pixel,
)
    requires
        s.len() == row * height,
        0 <= x,
        0 <= y,
        0 <= r,
        x + r < row,
        y + r < height,
    ensures
        forall|px: int, py: int|
            0 <= px < row && 0 <= py < height && #[trigger] in_disc(x, y, r, px, py) && px < x + r
                && py < y + r ==> circle_painted(s, row, height, x, y, r, c)[py * row + px] == c,
        forall|px: int, py: int|
            0 <= px < row && 0 <= py < height && !(#[trigger] in_disc(x, y, r, px, py))
                ==> circle_painted(s, row, height, x, y, r, c)[py * row + px] == s[py * row + px],
{
    assert forall|px: int, py: int|
        0 <= px < row && 0 <= py < height && #[trigger] in_disc(x, y, r, px, py) && px < x + r && py
            < y + r implies circle_painted(s, row, height, x, y, r, c)[py * row + px] == c by {
        lemma_flat_index(row, height, px, py);
        assert(x - r <= px && y - r <= py) by (nonlinear_arith)
            requires
                in_disc(x, y, r, px, py),
                0 <= r,
                px < x + r,
                py < y + r,
        ;
        assert(circle_covers(x, y, r, row, height, px, py));
    }
    assert forall|px: int, py: int|
        0 <= px < row && 0 <= py < height && !(#[trigger] in_disc(x, y, r, px, py)) implies
        circle_painted(s, row, height, x, y, r, c)[py * row + px] == s[py * row + px] by {
        lemma_flat_index(row, height, px, py);
    }
}

} // verus!
