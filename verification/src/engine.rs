//! The reconstruction engine: repeatedly matches the open canvas slot against
//! every remaining candidate tile, commits the best match, and advances a
//! raster-scan cursor until the candidate pool is empty.

use vstd::arithmetic::div_mod::{
    lemma_fundamental_div_mod, lemma_fundamental_div_mod_converse, lemma_mod_bound,
};
use vstd::prelude::*;
use vstd::seq_lib::group_to_multiset_ensures;

use crate::pixel::{
    blank_image, blank_spec, blit_spec, clip_h, clip_w, clip_x, clip_y, crop_image, crop_spec,
    lemma_crop_pix, place_image, BufView, PixelBuffer,
};
use crate::scorer::{
    compare_images_mse, lemma_psum_refl, lemma_psum_zero, lemma_score_lt_trans, psum, score_lt,
    score_spec, spec_score_lt, Score,
};

verus! {

/// Tiles whose width or height is at most this many samples are discarded
/// before reconstruction: they carry too little signal to match reliably.
/// The same tolerance absorbs row remainders too small to hold another tile
/// when the cursor wraps.
pub const MIN_TILE_SIZE: u32 = 5;

/// The mathematical views of a sequence of buffers.
pub open spec fn views(ts: Seq<PixelBuffer>) -> Seq<BufView> {
    ts.map_values(|t: PixelBuffer| t@)
}

/// Every view in the sequence is well formed.
pub open spec fn all_wf(ts: Seq<BufView>) -> bool {
    forall|i: int| 0 <= i < ts.len() ==> #[trigger] ts[i].wf()
}

/// The score candidate `t` earns at cursor `(cx, cy)`: the reference is
/// cropped at the cursor to the candidate's own footprint (clipped at the
/// edges) and compared with the candidate.
pub open spec fn cand_score(refv: BufView, t: BufView, cx: int, cy: int) -> Score {
    score_spec(crop_spec(refv, cx, cy, t.width as int, t.height as int), t)
}

/// The index of the best of the first `k` candidates: a strictly better score
/// wins, and ties keep the earliest candidate in enumeration order.
pub open spec fn winner_upto(refv: BufView, ts: Seq<BufView>, cx: int, cy: int, k: int) -> int
    decreases k,
{
    if k <= 1 {
        0
    } else {
        let prev = winner_upto(refv, ts, cx, cy, k - 1);
        if spec_score_lt(cand_score(refv, ts[k - 1], cx, cy), cand_score(refv, ts[prev], cx, cy)) {
            k - 1
        } else {
            prev
        }
    }
}

/// The winning index stays in range.
pub proof fn lemma_winner_upto_range(refv: BufView, ts: Seq<BufView>, cx: int, cy: int, k: int)
    requires
        k >= 1,
    ensures
        0 <= winner_upto(refv, ts, cx, cy, k) < k,
    decreases k,
{
    if k > 1 {
        lemma_winner_upto_range(refv, ts, cx, cy, k - 1);
    }
}

/// No candidate among the first `k` scores strictly below the winner: the
/// winner's score is minimal, and ties keep the earliest candidate.
pub proof fn lemma_winner_upto_min(refv: BufView, ts: Seq<BufView>, cx: int, cy: int, k: int)
    requires
        k >= 1,
    ensures
        0 <= winner_upto(refv, ts, cx, cy, k) < k,
        forall|i: int|
            0 <= i < k ==> !spec_score_lt(
                cand_score(refv, ts[i], cx, cy),
                cand_score(refv, ts[winner_upto(refv, ts, cx, cy, k)], cx, cy),
            ),
    decreases k,
{
    if k > 1 {
        lemma_winner_upto_min(refv, ts, cx, cy, k - 1);
        let prev = winner_upto(refv, ts, cx, cy, k - 1);
        let sk = cand_score(refv, ts[k - 1], cx, cy);
        let sp = cand_score(refv, ts[prev], cx, cy);
        if spec_score_lt(sk, sp) {
            assert forall|i: int|
                0 <= i < k implies !spec_score_lt(cand_score(refv, ts[i], cx, cy), sk) by {
                if i < k - 1 {
                    if spec_score_lt(cand_score(refv, ts[i], cx, cy), sk) {
                        lemma_score_lt_trans(cand_score(refv, ts[i], cx, cy), sk, sp);
                    }
                }
            };
        }
    }
}

/// One whole reconstruction run, as a function of its inputs: while tiles
/// remain, the best-scoring tile at the current cursor is blitted onto the
/// canvas, the cursor advances by the winner's width (wrapping to a new row —
/// of the winner's height — when it comes within `MIN_TILE_SIZE` samples of
/// the canvas width), and the winner leaves the pool.
///
/// The cursor row is capped at the canvas height: every position below the
/// bottom edge behaves identically (crops there are empty and blits are
/// wholly clipped), so the cap does not change any output.
pub open spec fn engine_spec(
    refv: BufView,
    ts: Seq<BufView>,
    cx: int,
    cy: int,
    canvas: BufView,
) -> BufView
    decreases ts.len(),
    via engine_spec_decreases
{
    if ts.len() == 0 {
        canvas
    } else {
        let w = winner_upto(refv, ts, cx, cy, ts.len() as int);
        let t = ts[w];
        let canvas2 = blit_spec(canvas, t, cx, cy);
        let nx = cx + t.width;
        let rest = ts.remove(w);
        if nx + MIN_TILE_SIZE >= refv.width {
            let ny = if cy + t.height <= refv.height {
                cy + t.height
            } else {
                refv.height as int
            };
            engine_spec(refv, rest, 0, ny, canvas2)
        } else {
            engine_spec(refv, rest, nx, cy, canvas2)
        }
    }
}

#[via_fn]
proof fn engine_spec_decreases(refv: BufView, ts: Seq<BufView>, cx: int, cy: int, canvas: BufView) {
    if ts.len() != 0 {
        lemma_winner_upto_range(refv, ts, cx, cy, ts.len() as int);
    }
}

/// Mapping views commutes with removing an element.
proof fn lemma_views_remove(ts: Seq<PixelBuffer>, i: int)
    requires
        0 <= i < ts.len(),
    ensures
        views(ts.remove(i)) == views(ts).remove(i),
{
    assert(views(ts.remove(i)) =~= views(ts).remove(i));
}

/// Reassembles the tiles onto a blank canvas of the reference's dimensions.
///
/// The result is exactly `engine_spec` applied to the inputs: a round-by-round
/// account of the greedy reconstruction.  Because the result is a function of
/// the reference and the tile sequence alone, two runs on the same inputs
/// return identical canvases.
pub fn reconstruct_image(org_image: &PixelBuffer, image_pieces: Vec<PixelBuffer>) -> (result:
    PixelBuffer)
    requires
        org_image@.wf(),
        all_wf(views(image_pieces@)),
    ensures
        result@.wf(),
        result@.width == org_image@.width,
        result@.height == org_image@.height,
        result@ == engine_spec(
            org_image@,
            views(image_pieces@),
            0,
            0,
            blank_spec(org_image@.width as int, org_image@.height as int),
        ),
{
    let ghost refv = org_image@;
    let ghost tiles0 = views(image_pieces@);
    let ghost goal = engine_spec(
        refv,
        tiles0,
        0,
        0,
        blank_spec(refv.width as int, refv.height as int),
    );
    let mut image_pieces = image_pieces;
    let mut result_image = blank_image(org_image);
    let mut current_x: u64 = 0;
    let mut current_y: u64 = 0;
    while image_pieces.len() > 0
        invariant
            refv == org_image@,
            refv.wf(),
            all_wf(views(image_pieces@)),
            result_image@.wf(),
            result_image@.width == refv.width,
            result_image@.height == refv.height,
            current_x == 0 || current_x + MIN_TILE_SIZE < refv.width,
            current_y <= refv.height,
            goal == engine_spec(
                refv,
                views(image_pieces@),
                current_x as int,
                current_y as int,
                result_image@,
            ),
        decreases image_pieces.len(),
    {
        let ghost vs = views(image_pieces@);
        let ghost cx0 = current_x as int;
        let ghost cy0 = current_y as int;
        let n = image_pieces.len();
        let piece0 = &image_pieces[0];
        proof {
            assert(vs[0] == image_pieces@[0]@);
            assert(vs[0].wf());
        }
        let region0 = crop_image(org_image, current_x, current_y, piece0.width(), piece0.height());
        let mut best_score = compare_images_mse(&region0, piece0);
        let mut match_index: usize = 0;
        let mut i: usize = 1;
        while i < n
            invariant
                refv == org_image@,
                refv.wf(),
                vs == views(image_pieces@),
                all_wf(vs),
                n == image_pieces@.len(),
                cx0 == current_x as int,
                cy0 == current_y as int,
                1 <= i <= n,
                match_index < i,
                match_index == winner_upto(refv, vs, cx0, cy0, i as int),
                best_score == cand_score(refv, vs[match_index as int], cx0, cy0),
            decreases n - i,
        {
            let piece = &image_pieces[i];
            let region = crop_image(
                org_image,
                current_x,
                current_y,
                piece.width(),
                piece.height(),
            );
            let s = compare_images_mse(&region, piece);
            proof {
                assert(vs[i as int] == image_pieces@[i as int]@);
                assert(vs[i as int].wf());
                assert(s == cand_score(refv, vs[i as int], cx0, cy0));
            }
            if score_lt(&s, &best_score) {
                best_score = s;
                match_index = i;
            }
            i = i + 1;
        }
        proof {
            lemma_winner_upto_range(refv, vs, cx0, cy0, n as int);
        }
        let w = image_pieces[match_index].width();
        let h = image_pieces[match_index].height();
        let ghost canvas_before = result_image@;
        place_image(&mut result_image, &image_pieces[match_index], current_x, current_y);
        let ghost pieces_before = image_pieces@;
        image_pieces.remove(match_index);
        let width_total = result_image.width();
        let height_total = result_image.height();
        current_x = current_x + (w as u64);
        if current_x + (MIN_TILE_SIZE as u64) >= width_total as u64 {
            current_x = 0;
            current_y = if current_y + (h as u64) <= height_total as u64 {
                current_y + (h as u64)
            } else {
                height_total as u64
            };
        }
        proof {
            let mi = match_index as int;
            let t = vs[mi];
            let rest = vs.remove(mi);
            lemma_views_remove(pieces_before, mi);
            assert(views(image_pieces@) == rest);
            assert(t == pieces_before[mi]@);
            assert(t.width == w && t.height == h);
            assert(result_image@ == blit_spec(canvas_before, t, cx0, cy0));
            assert(engine_spec(refv, vs, cx0, cy0, canvas_before) == engine_spec(
                refv,
                rest,
                current_x as int,
                current_y as int,
                result_image@,
            ));
            assert forall|j: int| 0 <= j < rest.len() implies #[trigger] rest[j].wf() by {
                if j < mi {
                    assert(rest[j] == vs[j]);
                } else {
                    assert(rest[j] == vs[j + 1]);
                }
            };
        }
    }
    proof {
        assert(views(image_pieces@) =~= Seq::<BufView>::empty());
    }
    result_image
}

/// The block of an exact grid partition at cell `i` (cells in raster order):
/// the crop of the reference at column `i % cols`, row `i / cols` of the
/// grid, each block `tw × th` samples.
pub open spec fn grid_block(refv: BufView, tw: int, th: int, cols: int, i: int) -> BufView {
    crop_spec(refv, (i % cols) * tw, (i / cols) * th, tw, th)
}

/// All blocks of an exact grid partition, in raster order.
pub open spec fn grid_blocks(refv: BufView, tw: int, th: int, cols: int, rows: int) -> Seq<
    BufView,
> {
    Seq::new((rows * cols) as nat, |i: int| grid_block(refv, tw, th, cols, i))
}

/// Whether the reference splits exactly into a `rows × cols` grid of
/// `tw × th` blocks that survive the size filter's width bound.
pub open spec fn exact_grid(refv: BufView, tw: int, th: int, cols: int, rows: int) -> bool {
    &&& refv.wf()
    &&& MIN_TILE_SIZE < tw
    &&& 1 <= th
    &&& 1 <= cols
    &&& 1 <= rows
    &&& refv.width == cols * tw
    &&& refv.height == rows * th
}

/// A grid block is an uncropped `tw × th` window into the reference.
proof fn lemma_grid_block(refv: BufView, tw: int, th: int, cols: int, rows: int, i: int)
    requires
        exact_grid(refv, tw, th, cols, rows),
        0 <= i < rows * cols,
    ensures
        grid_block(refv, tw, th, cols, i).width == tw,
        grid_block(refv, tw, th, cols, i).height == th,
        grid_block(refv, tw, th, cols, i).wf(),
        0 <= i % cols < cols,
        0 <= i / cols < rows,
{
    let col = i % cols;
    let row = i / cols;
    let x0 = col * tw;
    let y0 = row * th;
    vstd::arithmetic::div_mod::lemma_fundamental_div_mod(i, cols);
    vstd::arithmetic::div_mod::lemma_mod_bound(i, cols);
    assert(0 <= row < rows && x0 + tw <= cols * tw && y0 + th <= rows * th && 0 <= x0 && 0 <= y0)
        by (nonlinear_arith)
        requires
            i == cols * row + col,
            0 <= col < cols,
            0 <= i < rows * cols,
            0 < cols,
            0 < rows,
            0 < tw,
            0 < th,
            x0 == col * tw,
            y0 == row * th,
    ;
    assert(clip_x(refv, x0) == x0 && clip_y(refv, y0) == y0 && clip_w(refv, x0, tw) == tw && clip_h(
        refv,
        y0,
        th,
    ) == th);
    let gb = grid_block(refv, tw, th, cols, i);
    assert(gb.width == tw && gb.height == th);
    assert(gb.pixels.len() == tw * th);
    assert(gb.wf()) by {
        assert(tw <= refv.width && th <= refv.height) by (nonlinear_arith)
            requires
                refv.width == cols * tw,
                refv.height == rows * th,
                1 <= cols,
                1 <= rows,
                0 < tw,
                0 < th,
        ;
    }
}

/// What a grid block shows at column `a` of row `b`: the reference sample at
/// the block's origin shifted by `(a, b)`.
proof fn lemma_grid_block_pix(
    refv: BufView,
    tw: int,
    th: int,
    cols: int,
    rows: int,
    i: int,
    a: int,
    b: int,
)
    requires
        exact_grid(refv, tw, th, cols, rows),
        0 <= i < rows * cols,
        0 <= a < tw,
        0 <= b < th,
    ensures
        grid_block(refv, tw, th, cols, i).pixels[b * tw + a] == refv.pixels[((i / cols) * th + b)
            * refv.width + ((i % cols) * tw + a)],
{
    lemma_grid_block(refv, tw, th, cols, rows, i);
    let x0 = (i % cols) * tw;
    let y0 = (i / cols) * th;
    assert(clip_x(refv, x0) == x0 && clip_y(refv, y0) == y0 && clip_w(refv, x0, tw) == tw && clip_h(
        refv,
        y0,
        th,
    ) == th) by {
        assert(x0 + tw <= cols * tw && y0 + th <= rows * th && 0 <= x0 && 0 <= y0)
            by (nonlinear_arith)
            requires
                0 <= i % cols < cols,
                0 <= i / cols < rows,
                0 < tw,
                0 < th,
                x0 == (i % cols) * tw,
                y0 == (i / cols) * th,
        ;
    }
    lemma_crop_pix(refv, x0, y0, tw, th, a, b);
}

/// The grid cell (in raster order) that a canvas coordinate belongs to.
pub open spec fn cell_of(px: int, py: int, tw: int, th: int, cols: int) -> int {
    (py / th) * cols + px / tw
}

/// The canvas has the reference's dimensions and agrees with it on every
/// sample whose cell has already been filled.
spec fn canvas_ok(refv: BufView, canvas: BufView, tw: int, th: int, cols: int, k: int) -> bool {
    &&& canvas.width == refv.width
    &&& canvas.height == refv.height
    &&& canvas.pixels.len() == refv.pixels.len()
    &&& forall|px: int, py: int|
        0 <= px < refv.width && 0 <= py < refv.height && #[trigger] cell_of(px, py, tw, th, cols)
            < k ==> canvas.pixels[py * refv.width + px] == refv.pixels[py * refv.width + px]
}

/// A coordinate's cell equals `k` exactly when the coordinate lies in cell
/// `k`'s rectangle.
proof fn lemma_cell_rect(refv: BufView, tw: int, th: int, cols: int, rows: int, k: int, px: int, py: int)
    requires
        exact_grid(refv, tw, th, cols, rows),
        0 <= k < rows * cols,
        0 <= px < refv.width,
        0 <= py < refv.height,
    ensures
        cell_of(px, py, tw, th, cols) == k <==> ((k % cols) * tw <= px < (k % cols) * tw + tw && (k
            / cols) * th <= py < (k / cols) * th + th),
{
    let col = k % cols;
    let row = k / cols;
    lemma_fundamental_div_mod(k, cols);
    lemma_mod_bound(k, cols);
    lemma_fundamental_div_mod(px, tw);
    lemma_mod_bound(px, tw);
    lemma_fundamental_div_mod(py, th);
    lemma_mod_bound(py, th);
    assert(0 <= px / tw < cols && 0 <= py / th < rows) by (nonlinear_arith)
        requires
            0 < tw,
            0 < th,
            0 < cols,
            0 < rows,
            0 <= px < cols * tw,
            0 <= py < rows * th,
            px == tw * (px / tw) + px % tw,
            0 <= px % tw < tw,
            py == th * (py / th) + py % th,
            0 <= py % th < th,
    ;
    if cell_of(px, py, tw, th, cols) == k {
        // raster decomposition is unique, so the column and row parts match
        assert(px / tw == col && py / th == row) by (nonlinear_arith)
            requires
                (py / th) * cols + px / tw == cols * row + col,
                0 <= px / tw < cols,
                0 <= col < cols,
                0 <= py / th,
                0 <= row,
        ;
        assert(col * tw <= px < col * tw + tw && row * th <= py < row * th + th)
            by (nonlinear_arith)
            requires
                px == tw * (px / tw) + px % tw,
                0 <= px % tw < tw,
                px / tw == col,
                py == th * (py / th) + py % th,
                0 <= py % th < th,
                py / th == row,
        ;
    }
    if col * tw <= px < col * tw + tw && row * th <= py < row * th + th {
        lemma_fundamental_div_mod_converse(px, tw, col, px - col * tw);
        lemma_fundamental_div_mod_converse(py, th, row, py - row * th);
        assert(cell_of(px, py, tw, th, cols) == row * cols + col);
        assert(row * cols + col == cols * row + col) by (nonlinear_arith);
    }
}

/// One placement round on an exact grid: at the cursor of cell `k`, with the
/// remaining tiles exactly the unfilled cells' blocks, the engine completes
/// the canvas into a copy of the reference.
proof fn lemma_grid_rounds(
    refv: BufView,
    tiles: Seq<BufView>,
    tw: int,
    th: int,
    cols: int,
    rows: int,
    k: int,
    canvas: BufView,
)
    requires
        exact_grid(refv, tw, th, cols, rows),
        0 <= k <= rows * cols,
        tiles.len() == rows * cols - k,
        tiles.to_multiset() == grid_blocks(refv, tw, th, cols, rows).subrange(
            k,
            rows * cols,
        ).to_multiset(),
        canvas_ok(refv, canvas, tw, th, cols, k),
    ensures
        engine_spec(refv, tiles, (k % cols) * tw, (k / cols) * th, canvas) == refv,
    decreases tiles.len(),
{
    broadcast use group_to_multiset_ensures;

    let n = rows * cols;
    let blocks = grid_blocks(refv, tw, th, cols, rows);
    let rem = blocks.subrange(k, n);
    let col = k % cols;
    let row = k / cols;
    let cx = col * tw;
    let cy = row * th;
    if tiles.len() == 0 {
        // every cell is filled, so the canvas is sample-for-sample the reference
        assert(engine_spec(refv, tiles, cx, cy, canvas) == canvas);
        let wv = refv.width as int;
        assert forall|m: int| 0 <= m < refv.pixels.len() implies canvas.pixels[m]
            == refv.pixels[m] by {
            assert(refv.width * refv.height > 0) by (nonlinear_arith)
                requires
                    refv.width == cols * tw,
                    refv.height == rows * th,
                    1 <= cols,
                    1 <= rows,
                    0 < tw,
                    0 < th,
            ;
            lemma_fundamental_div_mod(m, wv);
            lemma_mod_bound(m, wv);
            let px = m % wv;
            let py = m / wv;
            assert(0 <= py < refv.height) by (nonlinear_arith)
                requires
                    0 < wv,
                    m == wv * (m / wv) + m % wv,
                    0 <= m % wv < wv,
                    0 <= m < refv.width * refv.height,
                    wv == refv.width,
                    py == m / wv,
            ;
            lemma_fundamental_div_mod(px, tw);
            lemma_mod_bound(px, tw);
            lemma_fundamental_div_mod(py, th);
            lemma_mod_bound(py, th);
            assert(cell_of(px, py, tw, th, cols) < n) by (nonlinear_arith)
                requires
                    0 < tw,
                    0 < th,
                    0 < cols,
                    0 < rows,
                    n == rows * cols,
                    0 <= px < cols * tw,
                    0 <= py < rows * th,
                    px == tw * (px / tw) + px % tw,
                    0 <= px % tw < tw,
                    py == th * (py / th) + py % th,
                    0 <= py % th < th,
                    cell_of(px, py, tw, th, cols) == (py / th) * cols + px / tw,
            ;
            assert(py * wv + px == m) by (nonlinear_arith)
                requires
                    m == wv * py + px,
            ;
            assert(canvas.pixels[py * refv.width + px] == refv.pixels[py * refv.width + px]);
        };
        assert(canvas.pixels =~= refv.pixels);
        assert(canvas =~= refv);
    } else {
        let len = tiles.len() as int;
        // the current cell's block sits somewhere in the pool and scores zero
        let bk = grid_block(refv, tw, th, cols, k);
        lemma_grid_block(refv, tw, th, cols, rows, k);
        assert(rem[0] == blocks[k]);
        assert(rem.contains(bk)) by {
            assert(blocks[k] == bk);
        }
        assert(rem.to_multiset().count(bk) > 0);
        assert(tiles.to_multiset().count(bk) > 0);
        assert(tiles.contains(bk));
        let i0 = choose|i: int| 0 <= i < len && tiles[i] == bk;
        // every candidate is some block, so it is a well-formed tw-by-th tile
        assert forall|i: int| 0 <= i < len implies (#[trigger] tiles[i]).width == tw && tiles[i].height
            == th && tiles[i].wf() by {
            assert(tiles.contains(tiles[i]));
            assert(tiles.to_multiset().count(tiles[i]) > 0);
            assert(rem.to_multiset().count(tiles[i]) > 0);
            assert(rem.contains(tiles[i]));
            let j = choose|j: int| 0 <= j < rem.len() && rem[j] == tiles[i];
            assert(rem[j] == blocks[k + j]);
            lemma_grid_block(refv, tw, th, cols, rows, k + j);
        };
        // the cropped slot region is the current block itself
        let slot = crop_spec(refv, cx, cy, tw, th);
        assert(slot == bk);
        // candidate scores at this slot all carry the same positive area
        let area_int = tw * th;
        assert(tw <= refv.width && th <= refv.height) by (nonlinear_arith)
            requires
                refv.width == cols * tw,
                refv.height == rows * th,
                1 <= cols,
                1 <= rows,
                0 < tw,
                0 < th,
        ;
        assert(0 < area_int <= u64::MAX) by (nonlinear_arith)
            requires
                area_int == tw * th,
                0 < tw <= u32::MAX,
                0 < th <= u32::MAX,
        ;
        let w = winner_upto(refv, tiles, cx, cy, len);
        lemma_winner_upto_min(refv, tiles, cx, cy, len);
        let twin = tiles[w];
        // the block's own score is zero, so the winner's score is zero too
        lemma_psum_refl(bk.pixels, 0, area_int);
        assert(cand_score(refv, tiles[i0], cx, cy) == (Score::Mse {
            num: 0,
            area: area_int as u64,
        }));
        let nw = psum(bk.pixels, twin.pixels, 0, area_int);
        crate::scorer::lemma_psum_bounds(bk.pixels, twin.pixels, 0, area_int);
        assert(195075 * area_int < u128::MAX) by (nonlinear_arith)
            requires
                0 < area_int <= u64::MAX,
        ;
        let swin = cand_score(refv, twin, cx, cy);
        assert(swin == (Score::Mse { num: nw as u128, area: area_int as u64 }));
        assert(!spec_score_lt(cand_score(refv, tiles[i0], cx, cy), swin));
        assert(nw == 0) by (nonlinear_arith)
            requires
                !(0 * area_int < nw * area_int),
                nw >= 0,
                area_int > 0,
        ;
        // a zero squared-difference sum means the winner is the block itself
        lemma_psum_zero(bk.pixels, twin.pixels, 0, area_int);
        assert(bk.pixels.len() == area_int && twin.pixels.len() == area_int);
        assert(bk.pixels =~= twin.pixels);
        assert(twin =~= bk);
        // the committed canvas now also agrees on cell k
        let canvas2 = blit_spec(canvas, twin, cx, cy);
        let rest = tiles.remove(w);
        assert(rest.to_multiset() =~= tiles.to_multiset().remove(twin));
        assert(rem.remove(0).to_multiset() =~= rem.to_multiset().remove(bk));
        assert(rem.remove(0) =~= blocks.subrange(k + 1, n));
        assert(rest.to_multiset() =~= blocks.subrange(k + 1, n).to_multiset());
        let wv = refv.width as int;
        assert forall|px: int, py: int|
            0 <= px < refv.width && 0 <= py < refv.height && #[trigger] cell_of(px, py, tw, th, cols)
                < k + 1 implies canvas2.pixels[py * wv + px] == refv.pixels[py * wv + px] by {
            let m = py * wv + px;
            assert(0 <= m < refv.pixels.len()) by (nonlinear_arith)
                requires
                    0 <= px < refv.width,
                    0 <= py < refv.height,
                    m == py * (refv.width as int) + px,
                    refv.pixels.len() == refv.width * refv.height,
                    wv == refv.width,
            ;
            lemma_fundamental_div_mod_converse(m, wv, py, px);
            lemma_cell_rect(refv, tw, th, cols, rows, k, px, py);
            if cell_of(px, py, tw, th, cols) == k {
                let a = px - cx;
                let b = py - cy;
                lemma_grid_block_pix(refv, tw, th, cols, rows, k, a, b);
                assert(canvas2.pixels[m] == twin.pixels[b * tw + a]);
                assert(bk.pixels[b * tw + a] == refv.pixels[(row * th + b) * wv + (col * tw + a)]);
                assert(row * th + b == py && col * tw + a == px);
            } else {
                assert(canvas2.pixels[m] == canvas.pixels[m]);
            }
        };
        assert(canvas_ok(refv, canvas2, tw, th, cols, k + 1));
        // advance the cursor to cell k + 1 and recurse
        lemma_fundamental_div_mod(k, cols);
        if col < cols - 1 {
            assert(cx + tw + MIN_TILE_SIZE < refv.width && cx + tw == (col + 1) * tw)
                by (nonlinear_arith)
                requires
                    cx == col * tw,
                    0 <= col < cols - 1,
                    MIN_TILE_SIZE < tw,
                    refv.width == cols * tw,
            ;
            assert(k + 1 == row * cols + (col + 1)) by (nonlinear_arith)
                requires
                    k == cols * row + col,
            ;
            lemma_fundamental_div_mod_converse(k + 1, cols, row, col + 1);
            lemma_grid_rounds(refv, rest, tw, th, cols, rows, k + 1, canvas2);
            assert(((k + 1) % cols) * tw == cx + tw && ((k + 1) / cols) * th == cy);
            assert(engine_spec(refv, tiles, cx, cy, canvas) == engine_spec(
                refv,
                rest,
                cx + tw,
                cy,
                canvas2,
            ));
        } else {
            assert(cx + tw == refv.width && cy + th == (row + 1) * th && (row + 1) * th <= rows
                * th) by (nonlinear_arith)
                requires
                    cx == col * tw,
                    col == cols - 1,
                    refv.width == cols * tw,
                    cy == row * th,
                    0 <= row < rows,
                    0 < tw,
                    0 < th,
            ;
            assert(k + 1 == (row + 1) * cols + 0) by (nonlinear_arith)
                requires
                    k == cols * row + col,
                    col == cols - 1,
            ;
            lemma_fundamental_div_mod_converse(k + 1, cols, row + 1, 0);
            lemma_grid_rounds(refv, rest, tw, th, cols, rows, k + 1, canvas2);
            assert(((k + 1) % cols) * tw == 0 && ((k + 1) / cols) * th == cy + th)
                by (nonlinear_arith)
                requires
                    (k + 1) % cols == 0,
                    (k + 1) / cols == row + 1,
                    cy == row * th,
            ;
            assert(engine_spec(refv, tiles, cx, cy, canvas) == engine_spec(
                refv,
                rest,
                0,
                cy + th,
                canvas2,
            ));
        }
    }
}

/// Exact reconstruction: when the tiles are exactly the blocks of a uniform
/// grid partition of the reference — in any order, each block exactly once —
/// and the blocks are wider than the wrap tolerance, the engine turns a blank
/// canvas into a copy of the reference, sample for sample.  The left side is
/// precisely what `reconstruct_image` promises to return.  Because only the
/// multiset of tiles is constrained, the result is invariant under any
/// permutation of the input order.
pub proof fn lemma_exact_reconstruction(
    refv: BufView,
    tiles: Seq<BufView>,
    tw: int,
    th: int,
    cols: int,
    rows: int,
)
    requires
        exact_grid(refv, tw, th, cols, rows),
        tiles.to_multiset() == grid_blocks(refv, tw, th, cols, rows).to_multiset(),
    ensures
        engine_spec(refv, tiles, 0, 0, blank_spec(refv.width as int, refv.height as int)) == refv,
{
    broadcast use group_to_multiset_ensures;

    let n = rows * cols;
    let blocks = grid_blocks(refv, tw, th, cols, rows);
    assert(blocks.subrange(0, n) =~= blocks);
    assert(tiles.len() == tiles.to_multiset().len());
    assert(blocks.len() == blocks.to_multiset().len());
    assert(tiles.len() == blocks.len());
    let blank = blank_spec(refv.width as int, refv.height as int);
    assert(blank.pixels.len() == refv.pixels.len()) by {
        assert(refv.pixels.len() == refv.width * refv.height);
    }
    assert(canvas_ok(refv, blank, tw, th, cols, 0));
    lemma_fundamental_div_mod_converse(0, cols, 0, 0);
    assert((0int % cols) * tw == 0 && (0int / cols) * th == 0) by (nonlinear_arith)
        requires
            0int % cols == 0,
            0int / cols == 0,
    ;
    lemma_grid_rounds(refv, tiles, tw, th, cols, rows, 0, blank);
}

/// Whether a tile is large enough to take part in reconstruction.
pub open spec fn large_enough(t: PixelBuffer) -> bool {
    t@.width > MIN_TILE_SIZE && t@.height > MIN_TILE_SIZE
}

/// The subsequence of tiles that are large enough, in the input's order.
pub open spec fn keep_large(ts: Seq<PixelBuffer>) -> Seq<PixelBuffer>
    decreases ts.len(),
{
    if ts.len() == 0 {
        Seq::empty()
    } else {
        let rest = keep_large(ts.drop_last());
        if large_enough(ts.last()) {
            rest.push(ts.last())
        } else {
            rest
        }
    }
}

/// Keeps exactly the tiles that are large enough to match reliably: a tile of
/// width or height at most `MIN_TILE_SIZE` samples is dropped, every other
/// tile is kept, in the input's order.
pub fn filter_small_tiles(tiles: Vec<PixelBuffer>) -> (kept: Vec<PixelBuffer>)
    ensures
        kept@ == keep_large(tiles@),
{
    let ghost tiles0 = tiles@;
    let mut tiles = tiles;
    let mut kept: Vec<PixelBuffer> = Vec::new();
    let ghost mut idx: int = 0;
    proof {
        assert(keep_large(tiles0.subrange(0, 0)) =~= Seq::<PixelBuffer>::empty());
    }
    while tiles.len() > 0
        invariant
            0 <= idx <= tiles0.len(),
            tiles@ == tiles0.subrange(idx, tiles0.len() as int),
            kept@ == keep_large(tiles0.subrange(0, idx)),
        decreases tiles@.len(),
    {
        proof {
            assert(tiles0.subrange(0, idx + 1).drop_last() =~= tiles0.subrange(0, idx));
            assert(tiles0.subrange(0, idx + 1).last() == tiles0[idx]);
        }
        let t = tiles.remove(0);
        proof {
            assert(t == tiles0[idx]);
        }
        if t.width() > MIN_TILE_SIZE && t.height() > MIN_TILE_SIZE {
            kept.push(t);
        }
        proof {
            assert(tiles@ =~= tiles0.subrange(idx + 1, tiles0.len() as int));
            assert(kept@ == keep_large(tiles0.subrange(0, idx + 1)));
            idx = idx + 1;
        }
    }
    proof {
        assert(tiles0.subrange(0, tiles0.len() as int) =~= tiles0);
    }
    kept
}

} // verus!
