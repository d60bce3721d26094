//! Coordinate remapping: moves each source pixel to a caller-supplied
//! destination cell, dropping destinations that fall on column 0, row 0,
//! or outside the buffer.
//!
//! The destination of each source cell comes in as a plain coordinate pair,
//! so the same verified core serves any 2x2 coordinate transform.

use vstd::prelude::*;

use crate::image::lemma_flat_index;
use crate::image::Pixel;
use crate::image::Screen;

verus! {

/// True when (dx, dy) may receive a pixel: inside a `row` x `height`
/// buffer, with column 0 and row 0 excluded by the strict lower bound.
pub open spec fn interior(row: int, height: int, dx: int, dy: int) -> bool {
    0 < dx < row && 0 < dy < height
}

/// The destination pixels after moving the first `n` source pixels, in
/// source order, each to its cell in `dests`; later writes win. Cells no
/// source reaches stay black.
pub open spec fn remapped(
    src: Seq<Pixel>,
    dests: Seq<(usize, usize)>,
    row: int,
    height: int,
    n: int,
) -> Seq<Pixel>
    decreases n,
{
    if n <= 0 {
        Seq::new(src.len(), |k: int| Pixel::black_spec())
    } else {
        let prev = remapped(src, dests, row, height, n - 1);
        let d = dests[n - 1];
        if interior(row, height, d.0 as int, d.1 as int) {
            prev.update((d.1 as int) * row + (d.0 as int), src[n - 1])
        } else {
            prev
        }
    }
}

/// Builds a new buffer of the same dimensions as `screen`, with the source
/// pixel at flat index k moved to the cell `dests[k]` when that cell can
/// receive it, and dropped otherwise. Collisions keep the pixel of
/// the last source index; untouched cells stay black.
#[verifier::loop_isolation(false)]
pub fn apply_map(dests: &Vec<(usize, usize)>, screen: &Screen) -> (out: Screen)
    requires
        screen.wf(),
        dests@.len() == screen.pixels@.len(),
    ensures
        out.wf(),
        out.width == screen.width,
        out.height == screen.height,
        out.pixels@ == remapped(
            screen.pixels@,
            dests@,
            screen.width as int,
            screen.height as int,
            dests@.len() as int,
        ),
        forall|dx: int, dy: int|
            0 <= dx < screen.width && 0 <= dy < screen.height && !(#[trigger] interior(
                screen.width as int,
                screen.height as int,
                dx,
                dy,
            )) ==> out.pix(dx, dy) == Pixel::black_spec(),
{
    let row = screen.width;
    let h = screen.height;
    let len0 = screen.pixels.len();
    proof {
        assert(row * h <= len0);
    }
    let mut out = Screen::new(row, h, Pixel::black());
    proof {
        assert(out.pixels@ =~= remapped(
            screen.pixels@,
            dests@,
            row as int,
            h as int,
            0,
        ));
    }
    let n = dests.len();
    let mut k: usize = 0;
    while k < n
        invariant
            k <= n,
            out.width == row,
            out.height == h,
            out.pixels@.len() == screen.pixels@.len(),
            out.pixels@ == remapped(screen.pixels@, dests@, row as int, h as int, k as int),
        decreases n - k,
    {
        let (dx, dy) = dests[k];
        if dx > 0 && dx < row && dy > 0 && dy < h {
            let total = out.pixels.len();
            proof {
                lemma_flat_index(row as int, h as int, dx as int, dy as int);
                assert((dy as int) * (row as int) + (dx as int) < total as int);
            }
            out.pixels.set(dy * row + dx, screen.pixels[k]);
        }
        k = k + 1;
    }
    proof {
        lemma_remap_edges_black(screen.pixels@, dests@, row as int, h as int, n as int);
    }
    out
}

/// Remapping never changes the number of pixels.
pub proof fn lemma_remapped_len(
    src: Seq<Pixel>,
    dests: Seq<(usize, usize)>,
    row: int,
    height: int,
    n: int,
)
    requires
        src.len() == row * height,
    ensures
        remapped(src, dests, row, height, n).len() == src.len(),
    decreases n,
{
    if n > 0 {
        lemma_remapped_len(src, dests, row, height, n - 1);
        let d = dests[n - 1];
        if interior(row, height, d.0 as int, d.1 as int) {
            lemma_flat_index(row, height, d.0 as int, d.1 as int);
        }
    }
}

/// No remap ever writes a cell outside the interior: whatever the
/// destinations, every cell of column 0 and of row 0 stays black.
pub proof fn lemma_remap_edges_black(
    src: Seq<Pixel>,
    dests: Seq<(usize, usize)>,
    row: int,
    height: int,
    n: int,
)
    requires
        src.len() == row * height,
    ensures
        forall|dx: int, dy: int|
            0 <= dx < row && 0 <= dy < height && !(#[trigger] interior(row, height, dx, dy))
                ==> remapped(src, dests, row, height, n)[dy * row + dx] == Pixel::black_spec(),
    decreases n,
{
    if n <= 0 {
        assert forall|dx: int, dy: int|
            0 <= dx < row && 0 <= dy < height && !(#[trigger] interior(row, height, dx, dy)) implies
        remapped(src, dests, row, height, n)[dy * row + dx] == Pixel::black_spec() by {
            lemma_flat_index(row, height, dx, dy);
        }
    } else {
        lemma_remap_edges_black(src, dests, row, height, n - 1);
        assert forall|dx: int, dy: int|
            0 <= dx < row && 0 <= dy < height && !(#[trigger] interior(row, height, dx, dy)) implies
        remapped(src, dests, row, height, n)[dy * row + dx] == Pixel::black_spec() by {
            lemma_remapped_len(src, dests, row, height, n - 1);
            lemma_flat_index(row, height, dx, dy);
            let d = dests[n - 1];
            if interior(row, height, d.0 as int, d.1 as int) {
                lemma_flat_index(row, height, d.0 as int, d.1 as int);
                assert((d.1 as int) * row + (d.0 as int) != dy * row + dx) by {
                    vstd::arithmetic::div_mod::lemma_fundamental_div_mod_converse(
                        (d.1 as int) * row + (d.0 as int),
                        row,
                        d.1 as int,
                        d.0 as int,
                    );
                    vstd::arithmetic::div_mod::lemma_fundamental_div_mod_converse(
                        dy * row + dx,
                        row,
                        dy,
                        dx,
                    );
                }
            }
        }
    }
}

/// Under the identity transform, where source cell k is sent to its own
/// coordinates, the remapped buffer keeps every interior pixel and leaves
/// column 0 and row 0 black.
pub proof fn lemma_remap_identity(
    src: Seq<Pixel>,
    dests: Seq<(usize, usize)>,
    row: int,
    height: int,
)
    requires
        src.len() == row * height,
        dests.len() == src.len(),
        forall|k: int|
            0 <= k < dests.len() ==> (#[trigger] dests[k]).0 == k % row && dests[k].1 == k / row,
        row > 0,
    ensures
        forall|dx: int, dy: int|
            #[trigger] interior(row, height, dx, dy) ==> remapped(
                src,
                dests,
                row,
                height,
                dests.len() as int,
            )[dy * row + dx] == src[dy * row + dx],
        forall|dx: int, dy: int|
            0 <= dx < row && 0 <= dy < height && !(#[trigger] interior(row, height, dx, dy))
                ==> remapped(src, dests, row, height, dests.len() as int)[dy * row + dx]
                == Pixel::black_spec(),
{
    lemma_remap_identity_aux(src, dests, row, height, dests.len() as int);
    lemma_remap_edges_black(src, dests, row, height, dests.len() as int);
    assert forall|dx: int, dy: int| #[trigger] interior(row, height, dx, dy) implies remapped(
        src,
        dests,
        row,
        height,
        dests.len() as int,
    )[dy * row + dx] == src[dy * row + dx] by {
        lemma_flat_index(row, height, dx, dy);
    }
}

/// After the first `n` steps of an identity remap, cell j holds the source
/// pixel j when j was already processed and is interior, and black otherwise.
proof fn lemma_remap_identity_aux(
    src: Seq<Pixel>,
    dests: Seq<(usize, usize)>,
    row: int,
    height: int,
    n: int,
)
    requires
        src.len() == row * height,
        dests.len() == src.len(),
        forall|k: int|
            0 <= k < dests.len() ==> (#[trigger] dests[k]).0 == k % row && dests[k].1 == k / row,
        row > 0,
        0 <= n <= dests.len(),
    ensures
        forall|j: int|
            0 <= j < src.len() ==> remapped(src, dests, row, height, n)[j] == (if j < n && interior(
                row,
                height,
                j % row,
                j / row,
            ) {
                src[j]
            } else {
                Pixel::black_spec()
            }),
    decreases n,
{
    if n > 0 {
        lemma_remap_identity_aux(src, dests, row, height, n - 1);
        assert forall|j: int| 0 <= j < src.len() implies remapped(src, dests, row, height, n)[j]
            == (if j < n && interior(row, height, j % row, j / row) {
            src[j]
        } else {
            Pixel::black_spec()
        }) by {
            lemma_remapped_len(src, dests, row, height, n - 1);
            vstd::arithmetic::div_mod::lemma_fundamental_div_mod(n - 1, row);
            vstd::arithmetic::div_mod::lemma_fundamental_div_mod(j, row);
            let d = dests[n - 1];
            let prev = remapped(src, dests, row, height, n - 1);
            assert(d.0 == (n - 1) % row && d.1 == (n - 1) / row);
            assert(((n - 1) / row) * row == row * ((n - 1) / row)) by (nonlinear_arith);
            assert((d.1 as int) * row + (d.0 as int) == n - 1);
            if interior(row, height, d.0 as int, d.1 as int) {
                assert(remapped(src, dests, row, height, n) == prev.update(n - 1, src[n - 1]));
            } else {
                assert(remapped(src, dests, row, height, n) == prev);
            }
        }
    }
}

} // verus!
