//! The scanline fill engine and the renderer.
//!
//! An image is a flat RGBA byte vector. Each scanline is filled
//! independently: the crossings of the active edges are computed exactly,
//! sorted, paired under the even-odd rule, and every covered column is
//! composited with the fill color. Because a row's output depends only on
//! the edge table and the row index, the image is the same however the rows
//! are grouped into bands.

use vstd::prelude::*;
use vstd::seq_lib::lemma_sorted_unique;
use vstd::relations::sorted_by;
use crate::color::{blend, blend_px, Px};
use crate::edge::{x_at_row, EdgeModel};

verus! {

/// The order the crossings are sorted by.
pub open spec fn int_leq(a: int, b: int) -> bool {
    a <= b
}

/// The integers behind a vector of machine words.
pub open spec fn i128s(s: Seq<i128>) -> Seq<int> {
    s.map_values(|v: i128| v as int)
}

/// Sorts the crossings ascending. The result is the unique sorted
/// reordering of the input.
pub fn sort_crossings(v: Vec<i128>) -> (r: Vec<i128>)
    ensures
        i128s(r@) == i128s(v@).sort_by(|a: int, b: int| int_leq(a, b)),
{
    let ghost target = i128s(v@).sort_by(|a: int, b: int| int_leq(a, b));
    proof {
        i128s(v@).lemma_sort_by_ensures(|a: int, b: int| int_leq(a, b));
    }
    let mut rem = v;
    let mut out: Vec<i128> = Vec::new();
    proof {
        broadcast use vstd::seq_lib::group_to_multiset_ensures;
        broadcast use vstd::multiset::group_multiset_axioms;

        assert(i128s(out@) =~= Seq::<int>::empty());
        assert(i128s(out@).to_multiset().add(i128s(rem@).to_multiset()) =~= i128s(
            rem@,
        ).to_multiset());
    }
    while rem.len() > 0
        invariant
            i128s(out@).to_multiset().add(i128s(rem@).to_multiset()) == i128s(v@).to_multiset(),
            sorted_by(i128s(out@), |a: int, b: int| int_leq(a, b)),
            forall|i: int, j: int|
                0 <= i < out@.len() && 0 <= j < rem@.len() ==> out@[i] as int <= rem@[j] as int,
        decreases rem@.len(),
    {
        let mut min_idx: usize = 0;
        let mut i: usize = 1;
        while i < rem.len()
            invariant
                0 <= min_idx < i <= rem@.len(),
                forall|j: int| 0 <= j < i ==> rem@[min_idx as int] as int <= rem@[j] as int,
            decreases rem@.len() - i,
        {
            if rem[i] < rem[min_idx] {
                min_idx = i;
            }
            i += 1;
        }
        let ghost old_rem = rem@;
        let ghost old_out = out@;
        let m = rem.swap_remove(min_idx);
        out.push(m);
        proof {
            broadcast use vstd::seq_lib::group_to_multiset_ensures;
            broadcast use vstd::multiset::group_multiset_axioms;

            lemma_swap_remove_multiset(old_rem, min_idx as int);
            assert(i128s(out@) =~= i128s(old_out).push(m as int));
            assert(i128s(out@).to_multiset() =~= i128s(old_out).to_multiset().insert(m as int));
            assert(i128s(old_rem).to_multiset().contains(m as int)) by {
                assert(i128s(old_rem).contains(m as int)) by {
                    assert(i128s(old_rem)[min_idx as int] == m as int);
                }
            }
            assert(i128s(out@).to_multiset().add(i128s(rem@).to_multiset()) =~= i128s(
                v@,
            ).to_multiset());
            assert(sorted_by(i128s(out@), |a: int, b: int| int_leq(a, b))) by {
                lemma_sorted_push_max(i128s(old_out), m as int);
            }
            assert forall|jj: int| 0 <= jj < rem@.len() implies m as int <= rem@[jj] as int by {
                if jj < min_idx {
                    assert(rem@[jj] == old_rem[jj]);
                } else {
                    assert(rem@[jj] == old_rem[if jj == min_idx {
                        old_rem.len() - 1
                    } else {
                        jj
                    }]);
                }
            }
        }
    }
    proof {
        broadcast use vstd::seq_lib::group_to_multiset_ensures;
        broadcast use vstd::multiset::group_multiset_axioms;

        assert(i128s(rem@).to_multiset() =~= vstd::multiset::Multiset::<int>::empty());
        assert(i128s(out@).to_multiset() =~= i128s(v@).to_multiset());
        lemma_sorted_unique(i128s(out@), target, |a: int, b: int| int_leq(a, b));
    }
    out
}

/// Removing position `i` by swapping in the last element keeps the same
/// multiset minus one occurrence of the removed value.
proof fn lemma_swap_remove_multiset(s: Seq<i128>, i: int)
    requires
        0 <= i < s.len(),
    ensures
        i128s(s.update(i, s.last()).drop_last()).to_multiset() == i128s(s).to_multiset().remove(
            s[i] as int,
        ),
{
    broadcast use vstd::seq_lib::group_to_multiset_ensures;
    broadcast use vstd::multiset::group_multiset_axioms;

    let mapped = i128s(s);
    let removed = i128s(s.update(i, s.last()).drop_last());
    assert(removed =~= mapped.update(i, mapped.last()).drop_last());
    let n = s.len() - 1;
    if i == n {
        assert(mapped.update(i, mapped.last()) =~= mapped);
        assert(mapped.drop_last() =~= mapped.remove(n));
        assert(mapped.remove(n).to_multiset() == mapped.to_multiset().remove(mapped[n]));
    } else {
        let t = mapped.update(i, mapped.last());
        assert(t.to_multiset() == mapped.to_multiset().insert(mapped.last()).remove(mapped[i]));
        assert(t.drop_last() =~= t.remove(n));
        assert(t.remove(n).to_multiset() == t.to_multiset().remove(t[n]));
        assert(t[n] == mapped.last());
        assert(mapped.to_multiset().insert(mapped.last()).remove(mapped[i]).remove(mapped.last())
            =~= mapped.to_multiset().remove(mapped[i])) by {
            assert(mapped.to_multiset().contains(mapped[i])) by {
                assert(mapped.contains(mapped[i]));
            }
        }
    }
}

/// A sorted run stays sorted when a value no smaller than all of it is
/// appended.
proof fn lemma_sorted_push_max(s: Seq<int>, v: int)
    requires
        sorted_by(s, |a: int, b: int| int_leq(a, b)),
        forall|i: int| 0 <= i < s.len() ==> s[i] <= v,
    ensures
        sorted_by(s.push(v), |a: int, b: int| int_leq(a, b)),
{
}

/// One pixel of a flat RGBA image of width `w`.
pub open spec fn px_at(img: Seq<u8>, w: int, x: int, y: int) -> Px {
    (
        img[4 * (y * w + x)],
        img[4 * (y * w + x) + 1],
        img[4 * (y * w + x) + 2],
        img[4 * (y * w + x) + 3],
    )
}

/// The image with the pixel at `(x, y)` replaced.
pub open spec fn put_px(img: Seq<u8>, w: int, x: int, y: int, p: Px) -> Seq<u8> {
    img.update(4 * (y * w + x), p.0).update(4 * (y * w + x) + 1, p.1).update(
        4 * (y * w + x) + 2,
        p.2,
    ).update(4 * (y * w + x) + 3, p.3)
}

/// The image after compositing `s` over the pixel at `(x, y)`.
pub open spec fn blend_at(img: Seq<u8>, w: int, x: int, y: int, s: Px) -> Seq<u8> {
    put_px(img, w, x, y, blend_px(px_at(img, w, x, y), s))
}

/// The image after compositing `s` over `n` consecutive columns of row `y`
/// starting at column `x`.
pub open spec fn paint_run(img: Seq<u8>, w: int, y: int, x: int, n: nat, s: Px) -> Seq<u8>
    decreases n,
{
    if n == 0 {
        img
    } else {
        paint_run(blend_at(img, w, x, y, s), w, y, x + 1, (n - 1) as nat, s)
    }
}

/// Clamp into `[lo, hi]`, larger bound winning, as the span emission does.
pub open spec fn clampi(v: int, lo: int, hi: int) -> int {
    if v < lo {
        lo
    } else if v > hi {
        hi
    } else {
        v
    }
}

/// Start column and length of the fill span between two crossings: the
/// left crossing clamps into `[0, w-1]`, the right into `[0, w]`.
pub open spec fn span_start(c0: int, w: int) -> int {
    clampi(c0, 0, w - 1)
}

/// Length of the span; empty when the clamped right end is not beyond the
/// clamped start.
pub open spec fn span_len(c0: int, c1: int, w: int) -> nat {
    let a = span_start(c0, w);
    let b = clampi(c1, 0, w);
    if b > a {
        (b - a) as nat
    } else {
        0
    }
}

/// The image after filling every span of a sorted crossing run: adjacent
/// crossings pair up, which is the even-odd rule.
pub open spec fn fill_pairs(img: Seq<u8>, w: int, y: int, cs: Seq<int>, k: nat, s: Px) -> Seq<u8>
    decreases cs.len() - 2 * k,
{
    if 2 * k + 1 >= cs.len() {
        img
    } else {
        let a = span_start(cs[2 * k as int], w);
        let n = span_len(cs[2 * k as int], cs[2 * k as int + 1], w);
        fill_pairs(paint_run(img, w, y, a, n, s), w, y, cs, k + 1, s)
    }
}

/// The crossings of the first `n` edges of one bucket at scanline `y`:
/// edges still alive at `y` contribute their x position there.
pub open spec fn bucket_crossings_upto(bucket: Seq<EdgeModel>, y: int, n: nat) -> Seq<int>
    decreases n,
{
    if n == 0 {
        Seq::empty()
    } else {
        bucket_crossings_upto(bucket, y, (n - 1) as nat) + (if bucket[n - 1].y_max > y {
            seq![x_at_row(bucket[n - 1], y)]
        } else {
            Seq::empty()
        })
    }
}

/// All crossings of one bucket at scanline `y`.
pub open spec fn bucket_crossings(bucket: Seq<EdgeModel>, y: int) -> Seq<int> {
    bucket_crossings_upto(bucket, y, bucket.len())
}

/// The crossings of the first `b` buckets at scanline `y`. A bucket
/// contributes once the scan has reached its starting scanline.
pub open spec fn row_crossings_upto(
    tm: Seq<Seq<EdgeModel>>,
    y_min: int,
    y: int,
    b: nat,
) -> Seq<int>
    decreases b,
{
    if b == 0 {
        Seq::empty()
    } else {
        row_crossings_upto(tm, y_min, y, (b - 1) as nat) + (if y_min + b - 1 <= y {
            bucket_crossings(tm[b - 1], y)
        } else {
            Seq::empty()
        })
    }
}

/// All crossings of the table at scanline `y`.
pub open spec fn row_crossings(tm: Seq<Seq<EdgeModel>>, y_min: int, y: int) -> Seq<int> {
    row_crossings_upto(tm, y_min, y, tm.len())
}

/// One filled scanline: crossings sorted, paired, spans composited.
pub open spec fn fill_row_spec(
    img: Seq<u8>,
    w: int,
    tm: Seq<Seq<EdgeModel>>,
    y_min: int,
    y: int,
    s: Px,
) -> Seq<u8> {
    fill_pairs(
        img,
        w,
        y,
        row_crossings(tm, y_min, y).sort_by(|a: int, b: int| int_leq(a, b)),
        0,
        s,
    )
}

/// Painting a run of in-range columns keeps the image size.
pub proof fn lemma_paint_run_len(img: Seq<u8>, w: int, h: int, y: int, x: int, n: nat, s: Px)
    requires
        img.len() == 4 * w * h,
        0 <= x,
        x + n <= w,
        0 <= y < h,
    ensures
        paint_run(img, w, y, x, n, s).len() == img.len(),
    decreases n,
{
    if n > 0 {
        assert(0 <= 4 * (y * w + x) && 4 * (y * w + x) + 3 < 4 * w * h) by (nonlinear_arith)
            requires
                0 <= x < w,
                0 <= y < h,
        ;
        lemma_paint_run_len(blend_at(img, w, x, y, s), w, h, y, x + 1, (n - 1) as nat, s);
    }
}

/// Filling the spans of a row keeps the image size.
pub proof fn lemma_fill_pairs_len(
    img: Seq<u8>,
    w: int,
    h: int,
    y: int,
    cs: Seq<int>,
    k: nat,
    s: Px,
)
    requires
        img.len() == 4 * w * h,
        0 <= y < h,
        w >= 1,
    ensures
        fill_pairs(img, w, y, cs, k, s).len() == img.len(),
    decreases cs.len() - 2 * k,
{
    if 2 * k + 1 < cs.len() {
        let a = span_start(cs[2 * k as int], w);
        let n = span_len(cs[2 * k as int], cs[2 * k as int + 1], w);
        lemma_paint_run_len(img, w, h, y, a, n, s);
        lemma_fill_pairs_len(paint_run(img, w, y, a, n, s), w, h, y, cs, k + 1, s);
    }
}

/// Composites `color` over the pixel at `(x, y)` of a flat image.
pub(crate) fn blend_pixel(image: &mut Vec<u8>, w: u32, x: u32, y: u32, color: Px)
    requires
        x < w,
        4 * (y as int * w as int + x as int) + 4 <= old(image)@.len(),
        4 * (y as int * w as int + x as int) + 4 <= 0xffff_ffff,
    ensures
        final(image)@ == blend_at(old(image)@, w as int, x as int, y as int, color),
{
    let idx: usize = 4 * (y as usize * w as usize + x as usize);
    let d: Px = (image[idx], image[idx + 1], image[idx + 2], image[idx + 3]);
    let r = blend(d, color);
    image[idx] = r.0;
    image[idx + 1] = r.1;
    image[idx + 2] = r.2;
    image[idx + 3] = r.3;
}

/// Exact x position of an edge at scanline `y`, rounded once.
fn edge_x_at(e: &crate::edge::Edge, y: i128, Ghost(res): Ghost<int>) -> (r: i128)
    requires
        crate::edge::edge_bounds(e@, res),
        1 <= res <= 0x7fff_ffff_ffff_ffff,
        e@.y_start <= y,
        0 <= y - e@.y_start <= 20000,
    ensures
        r == x_at_row(e@, y as int),
{
    proof {
        assert((y - e.y_start) * e.inv_slope <= 20000 * (res * crate::edge::DY_ABS_MAX) && (y
            - e.y_start) * e.inv_slope >= -(20000 * (res * crate::edge::DY_ABS_MAX)))
            by (nonlinear_arith)
            requires
                0 <= y - e@.y_start <= 20000,
                -res * crate::edge::DY_ABS_MAX <= e@.step_num <= res * crate::edge::DY_ABS_MAX,
                e.inv_slope == e@.step_num,
                res >= 1,
        ;
        assert(20000 * (res * crate::edge::DY_ABS_MAX) <= 20000 * (0x7fff_ffff_ffff_ffff
            * crate::edge::DY_ABS_MAX)) by (nonlinear_arith)
            requires
                1 <= res <= 0x7fff_ffff_ffff_ffff,
        ;
        assert(e.den <= 0x7fff_ffff_ffff_ffff * crate::edge::DY_ABS_MAX) by (nonlinear_arith)
            requires
                0 < e@.den <= res * crate::edge::DY_ABS_MAX,
                1 <= res <= 0x7fff_ffff_ffff_ffff,
                e.den == e@.den,
        ;
    }
    let num: i128 = e.x_current + (y - e.y_start) * e.inv_slope;
    crate::math::round_div(num, e.den)
}

/// Fills one scanline of the image from the edge table.
fn fill_row(
    image: &mut Vec<u8>,
    w: u32,
    h: u32,
    table: &crate::edge::ScanlineTable,
    y: u32,
    color: Px,
    Ghost(res): Ghost<int>,
)
    requires
        table.wf(res),
        0 <= table.y_min,
        1 <= res <= 0x7fff_ffff_ffff_ffff,
        old(image)@.len() == 4 * (w as int) * (h as int),
        y < h,
        h <= crate::MAX_DIMENSION,
        1 <= w <= crate::MAX_DIMENSION,
    ensures
        final(image)@ == fill_row_spec(
            old(image)@,
            w as int,
            table.model(),
            table.y_min as int,
            y as int,
            color,
        ),
        final(image)@.len() == old(image)@.len(),
{
    let ghost tm = table.model();
    let ghost ymin = table.y_min as int;
    let mut xs: Vec<i128> = Vec::new();
    let mut b: usize = 0;
    while b < table.entries.len()
        invariant
            0 <= b <= tm.len(),
            tm == table.model(),
            ymin == table.y_min as int,
            table.wf(res),
            0 <= table.y_min,
            1 <= res <= 0x7fff_ffff_ffff_ffff,
            y < h <= crate::MAX_DIMENSION,
            i128s(xs@) == row_crossings_upto(tm, ymin, y as int, b as nat),
        decreases tm.len() - b,
    {
        if table.y_min + (b as i128) <= y as i128 {
            let bucket = &table.entries[b];
            let ghost bm = crate::edge::bucket_model(bucket@);
            let mut i: usize = 0;
            while i < bucket.len()
                invariant
                    0 <= i <= bm.len(),
                    bm == crate::edge::bucket_model(bucket@),
                    bucket == &table.entries@[b as int],
                    0 <= b < tm.len(),
                    tm == table.model(),
                    ymin == table.y_min as int,
                    table.wf(res),
                    0 <= table.y_min,
                    ymin + b <= y as int,
                    1 <= res <= 0x7fff_ffff_ffff_ffff,
                    y < h <= crate::MAX_DIMENSION,
                    i128s(xs@) == row_crossings_upto(tm, ymin, y as int, b as nat)
                        + bucket_crossings_upto(bm, y as int, i as nat),
                decreases bm.len() - i,
            {
                proof {
                    assert(tm[b as int] == bm);
                    assert(bm[i as int] == bucket@[i as int]@);
                }
                let e = &bucket[i];
                if e.y_max > y as i128 {
                    let x = edge_x_at(e, y as i128, Ghost(res));
                    let ghost oxs = xs@;
                    xs.push(x);
                    proof {
                        assert(i128s(xs@) =~= i128s(oxs).push(x as int));
                        assert(i128s(xs@) =~= row_crossings_upto(tm, ymin, y as int, b as nat)
                            + bucket_crossings_upto(bm, y as int, (i + 1) as nat));
                    }
                } else {
                    proof {
                        assert(i128s(xs@) =~= row_crossings_upto(tm, ymin, y as int, b as nat)
                            + bucket_crossings_upto(bm, y as int, (i + 1) as nat));
                    }
                }
                i += 1;
            }
            proof {
                assert(i128s(xs@) =~= row_crossings_upto(tm, ymin, y as int, (b + 1) as nat));
            }
        } else {
            proof {
                assert(i128s(xs@) =~= row_crossings_upto(tm, ymin, y as int, (b + 1) as nat));
            }
        }
        b += 1;
    }
    let sorted = sort_crossings(xs);
    let ghost scs = row_crossings(tm, ymin, y as int).sort_by(|a: int, b: int| int_leq(a, b));
    proof {
        assert(i128s(sorted@) == scs);
    }
    let ghost img0 = image@;
    let mut k: usize = 0;
    while k < sorted.len() / 2
        invariant
            i128s(sorted@) == scs,
            fill_pairs(img0, w as int, y as int, scs, 0, color) == fill_pairs(
                image@,
                w as int,
                y as int,
                scs,
                k as nat,
                color,
            ),
            image@.len() == img0.len(),
            img0.len() == 4 * (w as int) * (h as int),
            y < h,
            1 <= w <= crate::MAX_DIMENSION,
            h <= crate::MAX_DIMENSION,
        decreases sorted@.len() - 2 * k,
    {
        let c0 = sorted[2 * k];
        let c1 = sorted[2 * k + 1];
        let a: u32 = if c0 < 0 {
            0
        } else if c0 > (w - 1) as i128 {
            w - 1
        } else {
            c0 as u32
        };
        let bnd: u32 = if c1 < 0 {
            0
        } else if c1 > w as i128 {
            w
        } else {
            c1 as u32
        };
        proof {
            assert(a as int == span_start(scs[2 * k as int], w as int));
            assert(clampi(scs[2 * k as int + 1], 0, w as int) == bnd as int);
        }
        let ghost span_img = image@;
        let ghost n = span_len(scs[2 * k as int], scs[2 * k as int + 1], w as int);
        let mut x = a;
        if bnd > a {
            while x < bnd
                invariant
                    a <= x <= bnd,
                    bnd <= w,
                    y < h,
                    1 <= w,
                    image@.len() == 4 * (w as int) * (h as int),
                    n == bnd - a,
                    paint_run(span_img, w as int, y as int, a as int, n, color) == paint_run(
                        image@,
                        w as int,
                        y as int,
                        x as int,
                        (bnd - x) as nat,
                        color,
                    ),
                    w <= crate::MAX_DIMENSION,
                    h <= crate::MAX_DIMENSION,
                decreases bnd - x,
            {
                proof {
                    assert(4 * (y as int * w as int + x as int) + 4 <= 4 * (w as int) * (h as int)
                        && 4 * (y as int * w as int + x as int) + 4 <= 0xffff_ffff)
                        by (nonlinear_arith)
                        requires
                            x < w <= 20000,
                            y < h <= 20000,
                    ;
                }
                let ghost pre = image@;
                blend_pixel(image, w, x, y, color);
                proof {
                    assert(paint_run(pre, w as int, y as int, x as int, (bnd - x) as nat, color)
                        == paint_run(
                        image@,
                        w as int,
                        y as int,
                        x as int + 1,
                        (bnd - x - 1) as nat,
                        color,
                    ));
                }
                x += 1;
            }
        }
        proof {
            assert(image@ == paint_run(span_img, w as int, y as int, a as int, n, color));
            lemma_paint_run_len(span_img, w as int, h as int, y as int, a as int, n, color);
        }
        k += 1;
    }
    proof {
        assert(fill_pairs(image@, w as int, y as int, scs, k as nat, color) == image@);
        lemma_fill_pairs_len(img0, w as int, h as int, y as int, scs, 0, color);
    }
}

/// Rows `y0 .. y0 + n` filled in order.
pub open spec fn fill_rows_spec(
    img: Seq<u8>,
    w: int,
    tm: Seq<Seq<EdgeModel>>,
    y_min: int,
    s: Px,
    y0: int,
    n: nat,
) -> Seq<u8>
    decreases n,
{
    if n == 0 {
        img
    } else {
        fill_rows_spec(
            fill_row_spec(img, w, tm, y_min, y0, s),
            w,
            tm,
            y_min,
            s,
            y0 + 1,
            (n - 1) as nat,
        )
    }
}

/// Band-decomposition equivalence: filling a run of rows in two consecutive
/// bands gives the same image as filling it in one piece. Each row depends
/// only on the edge table and its own index, so any grouping of the rows
/// into bands yields the same output.
pub proof fn lemma_fill_rows_split(
    img: Seq<u8>,
    w: int,
    tm: Seq<Seq<EdgeModel>>,
    y_min: int,
    s: Px,
    y0: int,
    a: nat,
    b: nat,
)
    ensures
        fill_rows_spec(img, w, tm, y_min, s, y0, (a + b) as nat) == fill_rows_spec(
            fill_rows_spec(img, w, tm, y_min, s, y0, a),
            w,
            tm,
            y_min,
            s,
            y0 + a,
            b,
        ),
    decreases a,
{
    if a > 0 {
        lemma_fill_rows_split(
            fill_row_spec(img, w, tm, y_min, y0, s),
            w,
            tm,
            y_min,
            s,
            y0 + 1,
            (a - 1) as nat,
            b,
        );
    }
}

/// How many of the crossings from position `k` on lie at or left of
/// column `x`.
pub open spec fn count_le_from(cs: Seq<int>, k: int, x: int) -> int
    decreases cs.len() - k,
{
    if k < 0 || k >= cs.len() {
        0
    } else {
        (if cs[k] <= x {
            1int
        } else {
            0int
        }) + count_le_from(cs, k + 1, x)
    }
}

/// Reading another pixel of the image sees through a blend at `(x, y)`.
proof fn lemma_blend_at_other(img: Seq<u8>, w: int, h: int, x: int, y: int, s: Px, xq: int, yq: int)
    requires
        img.len() == 4 * w * h,
        0 <= x < w,
        0 <= y < h,
        0 <= xq < w,
        0 <= yq < h,
        (xq, yq) != (x, y),
    ensures
        px_at(blend_at(img, w, x, y, s), w, xq, yq) == px_at(img, w, xq, yq),
        blend_at(img, w, x, y, s).len() == img.len(),
{
    assert(4 * (y * w + x) + 3 < 4 * w * h && 4 * (yq * w + xq) + 3 < 4 * w * h && (y * w + x != yq
        * w + xq)) by (nonlinear_arith)
        requires
            0 <= x < w,
            0 <= y < h,
            0 <= xq < w,
            0 <= yq < h,
            (xq, yq) != (x, y),
    ;
}

/// Reading the blended pixel back gives the composite.
proof fn lemma_blend_at_same(img: Seq<u8>, w: int, h: int, x: int, y: int, s: Px)
    requires
        img.len() == 4 * w * h,
        0 <= x < w,
        0 <= y < h,
    ensures
        px_at(blend_at(img, w, x, y, s), w, x, y) == blend_px(px_at(img, w, x, y), s),
        blend_at(img, w, x, y, s).len() == img.len(),
{
    assert(4 * (y * w + x) + 3 < 4 * w * h) by (nonlinear_arith)
        requires
            0 <= x < w,
            0 <= y < h,
    ;
}

/// What one span does to one pixel: pixels outside the run keep their
/// value; a pixel inside is composited exactly once.
proof fn lemma_paint_run_px(
    img: Seq<u8>,
    w: int,
    h: int,
    y: int,
    a: int,
    n: nat,
    s: Px,
    xq: int,
    yq: int,
)
    requires
        img.len() == 4 * w * h,
        0 <= a,
        a + n <= w,
        0 <= y < h,
        0 <= xq < w,
        0 <= yq < h,
    ensures
        yq != y || xq < a || xq >= a + n ==> px_at(paint_run(img, w, y, a, n, s), w, xq, yq)
            == px_at(img, w, xq, yq),
        yq == y && a <= xq < a + n ==> px_at(paint_run(img, w, y, a, n, s), w, xq, yq) == blend_px(
            px_at(img, w, xq, yq),
            s,
        ),
    decreases n,
{
    if n > 0 {
        let img2 = blend_at(img, w, a, y, s);
        if (xq, yq) == (a, y) {
            lemma_blend_at_same(img, w, h, a, y, s);
            lemma_paint_run_px(img2, w, h, y, a + 1, (n - 1) as nat, s, xq, yq);
        } else {
            lemma_blend_at_other(img, w, h, a, y, s, xq, yq);
            lemma_paint_run_px(img2, w, h, y, a + 1, (n - 1) as nat, s, xq, yq);
        }
    }
}

/// Crossings from position `j` on that all lie right of `x` count zero.
proof fn lemma_count_zero(cs: Seq<int>, j: int, x: int)
    requires
        forall|i: int| j <= i < cs.len() ==> #[trigger] cs[i] > x,
    ensures
        count_le_from(cs, j, x) == 0,
    decreases cs.len() - j,
{
    if 0 <= j < cs.len() {
        lemma_count_zero(cs, j + 1, x);
    }
}

/// The even-odd rule over the spans of one scanline, from pair `k` on:
/// when the crossings all fall inside the image and pair up completely, a
/// pixel is composited exactly once when an odd number of crossings lie at
/// or left of it, and keeps its value bit for bit when that number is even.
proof fn lemma_fill_pairs_even_odd(
    img: Seq<u8>,
    w: int,
    h: int,
    y: int,
    cs: Seq<int>,
    k: nat,
    s: Px,
    x: int,
)
    requires
        img.len() == 4 * w * h,
        sorted_by(cs, |a: int, b: int| int_leq(a, b)),
        forall|i: int| 0 <= i < cs.len() ==> 0 <= #[trigger] cs[i] <= w - 1,
        cs.len() % 2 == 0,
        2 * k <= cs.len(),
        0 <= x < w,
        0 <= y < h,
        w >= 1,
    ensures
        count_le_from(cs, 2 * k as int, x) % 2 == 0 ==> px_at(fill_pairs(img, w, y, cs, k, s), w, x, y)
            == px_at(img, w, x, y),
        count_le_from(cs, 2 * k as int, x) % 2 == 1 ==> px_at(fill_pairs(img, w, y, cs, k, s), w, x, y)
            == blend_px(px_at(img, w, x, y), s),
    decreases cs.len() - 2 * k,
{
    if 2 * k + 1 >= cs.len() {
        assert(2 * k == cs.len());
        assert(count_le_from(cs, 2 * k as int, x) == 0);
    } else {
        let c0 = cs[2 * k as int];
        let c1 = cs[2 * k as int + 1];
        assert(c0 <= c1) by {
            let leq = |a: int, b: int| int_leq(a, b);
            assert(leq(cs[2 * k as int], cs[2 * k as int + 1]));
        }
        let a = span_start(c0, w);
        let n = span_len(c0, c1, w);
        assert(a == c0);
        assert(n == if c1 > c0 {
            (c1 - c0) as nat
        } else {
            0nat
        });
        let painted = paint_run(img, w, y, a, n, s);
        lemma_paint_run_len(img, w, h, y, a, n, s);
        assert(count_le_from(cs, 2 * k as int, x) == (if c0 <= x {
            1int
        } else {
            0int
        }) + count_le_from(cs, 2 * k as int + 1, x));
        assert(count_le_from(cs, 2 * k as int + 1, x) == (if c1 <= x {
            1int
        } else {
            0int
        }) + count_le_from(cs, 2 * k as int + 2, x));
        if x < c0 {
            assert forall|i: int| 2 * k <= i < cs.len() implies #[trigger] cs[i] > x by {
                let leq = |a: int, b: int| int_leq(a, b);
                assert(leq(cs[2 * k as int], cs[i]));
            }
            lemma_count_zero(cs, 2 * k as int, x);
            lemma_count_zero(cs, 2 * k as int + 2, x);
            lemma_paint_run_px(img, w, h, y, a, n, s, x, y);
            lemma_fill_pairs_even_odd(painted, w, h, y, cs, k + 1, s, x);
        } else if x < c1 {
            assert forall|i: int| 2 * k + 2 <= i < cs.len() implies #[trigger] cs[i] > x by {
                let leq = |a: int, b: int| int_leq(a, b);
                assert(leq(cs[2 * k as int + 1], cs[i]));
            }
            lemma_count_zero(cs, 2 * k as int + 2, x);
            assert(count_le_from(cs, 2 * k as int, x) == 1);
            lemma_paint_run_px(img, w, h, y, a, n, s, x, y);
            assert(px_at(painted, w, x, y) == blend_px(px_at(img, w, x, y), s));
            lemma_fill_pairs_even_odd(painted, w, h, y, cs, k + 1, s, x);
        } else {
            // x sits at or right of the span's end: untouched here
            lemma_paint_run_px(img, w, h, y, a, n, s, x, y);
            assert(px_at(painted, w, x, y) == px_at(img, w, x, y));
            lemma_fill_pairs_even_odd(painted, w, h, y, cs, k + 1, s, x);
            assert(count_le_from(cs, 2 * k as int, x) % 2 == count_le_from(cs, 2 * k as int + 2, x) % 2);
        }
    }
}

/// The even-odd rule for one scanline: with every crossing inside the image
/// and an even crossing count, the fill composites a pixel of the row
/// exactly once when an odd number of crossings lie at or left of its
/// column, and leaves it bit-identical when that number is even. A hole's
/// edges contribute the even crossings that cancel the fill inside it.
pub proof fn lemma_even_odd_rule(
    img: Seq<u8>,
    w: int,
    h: int,
    tm: Seq<Seq<EdgeModel>>,
    y_min: int,
    y: int,
    s: Px,
    x: int,
)
    requires
        img.len() == 4 * w * h,
        ({
            let cs = row_crossings(tm, y_min, y).sort_by(|a: int, b: int| int_leq(a, b));
            &&& forall|i: int| 0 <= i < cs.len() ==> 0 <= #[trigger] cs[i] <= w - 1
            &&& cs.len() % 2 == 0
        }),
        0 <= x < w,
        0 <= y < h,
        w >= 1,
    ensures
        ({
            let cs = row_crossings(tm, y_min, y).sort_by(|a: int, b: int| int_leq(a, b));
            &&& count_le_from(cs, 0, x) % 2 == 0 ==> px_at(
                fill_row_spec(img, w, tm, y_min, y, s),
                w,
                x,
                y,
            ) == px_at(img, w, x, y)
            &&& count_le_from(cs, 0, x) % 2 == 1 ==> px_at(
                fill_row_spec(img, w, tm, y_min, y, s),
                w,
                x,
                y,
            ) == blend_px(px_at(img, w, x, y), s)
        }),
{
    let cs = row_crossings(tm, y_min, y).sort_by(|a: int, b: int| int_leq(a, b));
    row_crossings(tm, y_min, y).lemma_sort_by_ensures(|a: int, b: int| int_leq(a, b));
    lemma_fill_pairs_even_odd(img, w, h, y, cs, 0, s, x);
}

/// An empty edge table with one bucket per scanline.
pub open spec fn empty_table(h: int) -> Seq<Seq<EdgeModel>> {
    Seq::new(h as nat, |i: int| Seq::<EdgeModel>::empty())
}

/// Filling one row leaves every pixel of every other row untouched.
proof fn lemma_fill_pairs_other_row(
    img: Seq<u8>,
    w: int,
    h: int,
    y: int,
    cs: Seq<int>,
    k: nat,
    s: Px,
    xq: int,
    yq: int,
)
    requires
        img.len() == 4 * w * h,
        0 <= y < h,
        w >= 1,
        0 <= xq < w,
        0 <= yq < h,
        yq != y,
    ensures
        px_at(fill_pairs(img, w, y, cs, k, s), w, xq, yq) == px_at(img, w, xq, yq),
    decreases cs.len() - 2 * k,
{
    if 2 * k + 1 < cs.len() {
        let a = span_start(cs[2 * k as int], w);
        let n = span_len(cs[2 * k as int], cs[2 * k as int + 1], w);
        lemma_paint_run_len(img, w, h, y, a, n, s);
        lemma_paint_run_px(img, w, h, y, a, n, s, xq, yq);
        lemma_fill_pairs_other_row(paint_run(img, w, y, a, n, s), w, h, y, cs, k + 1, s, xq, yq);
    }
}

/// The hole law for a whole fill pass: a pixel whose own scanline crosses
/// the geometry an even number of times at or left of it — as it does
/// inside a hole, where the hole's edges cancel the exterior's — comes out
/// of the fill bit-identical. The scanline's crossings must pair up
/// completely and fall inside the image.
pub proof fn lemma_fill_leaves_hole_pixel(
    img: Seq<u8>,
    w: int,
    h: int,
    tm: Seq<Seq<EdgeModel>>,
    s: Px,
    x: int,
    y: int,
    y0: int,
    n: nat,
)
    requires
        img.len() == 4 * w * h,
        1 <= w,
        0 <= x < w,
        0 <= y < h,
        0 <= y0,
        y0 + n <= h,
        ({
            let cs = row_crossings(tm, 0, y).sort_by(|a: int, b: int| int_leq(a, b));
            &&& forall|i: int| 0 <= i < cs.len() ==> 0 <= #[trigger] cs[i] <= w - 1
            &&& cs.len() % 2 == 0
            &&& count_le_from(cs, 0, x) % 2 == 0
        }),
    ensures
        px_at(fill_rows_spec(img, w, tm, 0, s, y0, n), w, x, y) == px_at(img, w, x, y),
    decreases n,
{
    if n > 0 {
        let mid = fill_row_spec(img, w, tm, 0, y0, s);
        row_crossings(tm, 0, y0).lemma_sort_by_ensures(|a: int, b: int| int_leq(a, b));
        lemma_fill_pairs_len(
            img,
            w,
            h,
            y0,
            row_crossings(tm, 0, y0).sort_by(|a: int, b: int| int_leq(a, b)),
            0,
            s,
        );
        if y0 == y {
            lemma_even_odd_rule(img, w, h, tm, 0, y, s, x);
        } else {
            lemma_fill_pairs_other_row(
                img,
                w,
                h,
                y0,
                row_crossings(tm, 0, y0).sort_by(|a: int, b: int| int_leq(a, b)),
                0,
                s,
                x,
                y,
            );
        }
        lemma_fill_leaves_hole_pixel(mid, w, h, tm, s, x, y, y0 + 1, (n - 1) as nat);
    }
}

/// The edge table of the first `n` polygons of a multipolygon.
pub open spec fn mp_table_upto(
    mp: crate::geom::MultiPolygonFx,
    bb: crate::math::Bbox,
    res: int,
    h: int,
    n: nat,
) -> Seq<Seq<EdgeModel>>
    decreases n,
{
    if n == 0 {
        empty_table(h)
    } else {
        crate::edge::poly_add_model(
            mp_table_upto(mp, bb, res, h, (n - 1) as nat),
            0,
            mp.polygons@[n - 1],
            bb,
            res,
            h,
        )
    }
}

/// The edge table a render of `mp` fills from.
pub open spec fn mp_table(
    mp: crate::geom::MultiPolygonFx,
    bb: crate::math::Bbox,
    res: int,
    h: int,
) -> Seq<Seq<EdgeModel>> {
    mp_table_upto(mp, bb, res, h, mp.polygons@.len())
}

/// The image after the fill pass of one multipolygon.
pub open spec fn fill_mp_spec(
    img: Seq<u8>,
    w: int,
    h: int,
    mp: crate::geom::MultiPolygonFx,
    bb: crate::math::Bbox,
    res: int,
    fill: Px,
) -> Seq<u8> {
    fill_rows_spec(img, w, mp_table(mp, bb, res, h), 0, fill, 0, h as nat)
}

/// The full render of one multipolygon: the scanline fill, then, when a
/// stroke width is set, every ring boundary in the opaque stroke color.
pub open spec fn render_mp_spec(
    img: Seq<u8>,
    w: int,
    h: int,
    mp: crate::geom::MultiPolygonFx,
    bb: crate::math::Bbox,
    res: int,
    fill: Px,
    stroke_c: Px,
    stroke_width: int,
) -> Seq<u8> {
    let filled = fill_mp_spec(img, w, h, mp, bb, res, fill);
    if stroke_width > 0 {
        crate::stroke::mp_stroke(filled, w, h, mp, bb, res, stroke_width / 2, stroke_c)
    } else {
        filled
    }
}

/// The hole law for a whole render without a stroke pass: a pixel whose
/// scanline crosses the multipolygon's edges an even number of times at or
/// left of it keeps its pre-render value bit for bit. A hole that encloses
/// the pixel contributes the two crossings that cancel the exterior's, so
/// the pixel inside the hole stays transparent.
pub proof fn lemma_render_hole_pixel(
    img: Seq<u8>,
    w: int,
    h: int,
    mp: crate::geom::MultiPolygonFx,
    bb: crate::math::Bbox,
    res: int,
    fill: Px,
    stroke_c: Px,
    x: int,
    y: int,
)
    requires
        img.len() == 4 * w * h,
        1 <= w,
        0 <= x < w,
        0 <= y < h,
        ({
            let cs = row_crossings(mp_table(mp, bb, res, h), 0, y).sort_by(
                |a: int, b: int| int_leq(a, b),
            );
            &&& forall|i: int| 0 <= i < cs.len() ==> 0 <= #[trigger] cs[i] <= w - 1
            &&& cs.len() % 2 == 0
            &&& count_le_from(cs, 0, x) % 2 == 0
        }),
    ensures
        px_at(render_mp_spec(img, w, h, mp, bb, res, fill, stroke_c, 0), w, x, y) == px_at(
            img,
            w,
            x,
            y,
        ),
{
    lemma_fill_leaves_hole_pixel(
        img,
        w,
        h,
        mp_table(mp, bb, res, h),
        fill,
        x,
        y,
        0,
        h as nat,
    );
}

/// Render configuration for a layer.
#[derive(Debug, Clone, Copy)]
pub struct RenderConfig {
    /// Bounding box to render, nano-degrees.
    pub bbox: crate::math::Bbox,
    /// Resolution in nano-degrees per pixel.
    pub resolution: i64,
    /// Fill color, RGBA.
    pub fill: [u8; 4],
    /// Stroke color, RGB; strokes are drawn fully opaque.
    pub stroke: [u8; 3],
    /// Stroke width in pixels; zero disables the stroke pass.
    pub stroke_width: u32,
}

/// Renderer owning the output image buffer.
#[derive(Debug)]
pub struct Renderer {
    /// The immutable configuration the renderer was built with.
    pub config: RenderConfig,
    /// Image width in pixels.
    pub width: u32,
    /// Image height in pixels.
    pub height: u32,
    /// The RGBA buffer, four bytes per pixel, row-major.
    pub image: Vec<u8>,
}

impl Renderer {
    /// The renderer was built by `new`: dimensions fit the window and the
    /// buffer has exactly one RGBA cell per pixel.
    pub open spec fn wf(self) -> bool {
        &&& self.config.bbox.wf()
        &&& self.config.resolution >= 1
        &&& self.width as int == crate::math::dim_of(
            self.config.bbox.max_lon - self.config.bbox.min_lon,
            self.config.resolution as int,
        )
        &&& self.height as int == crate::math::dim_of(
            self.config.bbox.max_lat - self.config.bbox.min_lat,
            self.config.resolution as int,
        )
        &&& 1 <= self.width <= crate::MAX_DIMENSION
        &&& 1 <= self.height <= crate::MAX_DIMENSION
        &&& self.image@.len() == 4 * (self.width as int) * (self.height as int)
    }

    /// The fill color as a pixel.
    pub open spec fn fill_px(self) -> Px {
        (self.config.fill[0], self.config.fill[1], self.config.fill[2], self.config.fill[3])
    }

    /// The stroke color as a fully opaque pixel.
    pub open spec fn stroke_px(self) -> Px {
        (self.config.stroke[0], self.config.stroke[1], self.config.stroke[2], 255u8)
    }

    /// Builds a renderer: computes the dimensions, rejects an image beyond
    /// `MAX_DIMENSION` on either side, and allocates a transparent buffer.
    pub fn new(config: RenderConfig) -> (r: Result<Renderer, crate::errors::GpkgError>)
        requires
            config.bbox.wf(),
            config.resolution >= 1,
        ensures
            ({
                let w = crate::math::dim_of(
                    config.bbox.max_lon - config.bbox.min_lon,
                    config.resolution as int,
                );
                let h = crate::math::dim_of(
                    config.bbox.max_lat - config.bbox.min_lat,
                    config.resolution as int,
                );
                if w > crate::MAX_DIMENSION || h > crate::MAX_DIMENSION {
                    r matches Err(e) && e matches crate::errors::GpkgError::ImageTooLarge {
                        width,
                        height,
                        max,
                    } && width == w && height == h && max == crate::MAX_DIMENSION
                } else {
                    r matches Ok(ren) && ren.wf() && ren.config == config && ren.width == w
                        && ren.height == h && forall|i: int|
                        0 <= i < ren.image@.len() ==> ren.image@[i] == 0u8
                }
            }),
    {
        let (width, height) = crate::math::calculate_dimensions(&config.bbox, config.resolution);
        if width > crate::MAX_DIMENSION || height > crate::MAX_DIMENSION {
            return Err(
                crate::errors::GpkgError::ImageTooLarge {
                    width,
                    height,
                    max: crate::MAX_DIMENSION,
                },
            );
        }
        proof {
            crate::math::lemma_ceil_div_pos(
                config.bbox.max_lon - config.bbox.min_lon,
                config.resolution as int,
            );
            crate::math::lemma_ceil_div_pos(
                config.bbox.max_lat - config.bbox.min_lat,
                config.resolution as int,
            );
        }
        proof {
            assert(4 * (width as int) * (height as int) <= 0xffff_ffff) by (nonlinear_arith)
                requires
                    width <= 20000,
                    height <= 20000,
            ;
        }
        let len: usize = 4 * (width as usize) * (height as usize);
        let image = vec![0u8; len];
        Ok(Renderer { config, width, height, image })
    }

    /// Image dimensions in pixels, width then height.
    pub fn dimensions(&self) -> (r: (u32, u32))
        ensures
            r == (self.width, self.height),
    {
        (self.width, self.height)
    }

    /// One pixel of the output, RGBA.
    pub fn get_pixel(&self, x: u32, y: u32) -> (r: Px)
        requires
            self.wf(),
            x < self.width,
            y < self.height,
        ensures
            r == px_at(self.image@, self.width as int, x as int, y as int),
    {
        proof {
            assert(4 * (y as int * self.width as int + x as int) + 4 <= 4 * (self.width as int) * (
            self.height as int) && 4 * (y as int * self.width as int + x as int) + 4
                <= 0xffff_ffff) by (nonlinear_arith)
                requires
                    x < self.width <= 20000,
                    y < self.height <= 20000,
            ;
        }
        let idx: usize = 4 * (y as usize * self.width as usize + x as usize);
        (self.image[idx], self.image[idx + 1], self.image[idx + 2], self.image[idx + 3])
    }

    /// The scanline fill of one multipolygon, the rows grouped into
    /// `num_bands` bands. The result does not depend on `num_bands`: that
    /// is the band-decomposition equivalence.
    pub fn render_multipolygon_banded(&mut self, mp: &crate::geom::MultiPolygonFx, num_bands: usize)
        requires
            old(self).wf(),
            crate::geom::mp_wf(*mp),
            num_bands >= 1,
        ensures
            final(self).wf(),
            final(self).config == old(self).config,
            final(self).width == old(self).width,
            final(self).height == old(self).height,
            final(self).image@ == fill_mp_spec(
                old(self).image@,
                old(self).width as int,
                old(self).height as int,
                *mp,
                old(self).config.bbox,
                old(self).config.resolution as int,
                old(self).fill_px(),
            ),
    {
        let w = self.width;
        let h = self.height;
        let resolution = self.config.resolution;
        let ghost res = resolution as int;
        let bbox = self.config.bbox;
        let fill_color: Px = (
            self.config.fill[0],
            self.config.fill[1],
            self.config.fill[2],
            self.config.fill[3],
        );
        let ghost tm_goal = mp_table(*mp, bbox, res, h as int);

        let mut table = crate::edge::ScanlineTable::new(0, h);
        proof {
            assert(table.model() =~~= empty_table(h as int));
        }
        let mut p: usize = 0;
        while p < mp.polygons.len()
            invariant
                0 <= p <= mp.polygons@.len(),
                crate::geom::mp_wf(*mp),
                bbox.wf(),
                resolution >= 1,
                h <= crate::MAX_DIMENSION,
                res == resolution as int,
                table.y_min == 0,
                table.wf(res),
                table.model() == mp_table_upto(*mp, bbox, res, h as int, p as nat),
            decreases mp.polygons@.len() - p,
        {
            table.extract_from_polygon(&mp.polygons[p], &bbox, resolution, h);
            p += 1;
        }
        proof {
            assert(table.model() == tm_goal);
        }

        let band_height: usize = if num_bands >= h as usize {
            1
        } else {
            ((h as usize) + num_bands - 1) / num_bands
        };
        proof {
            assert((h as int + num_bands - 1) / num_bands as int >= 1 && (num_bands >= h as int
                ==> (h as int + num_bands - 1) / num_bands as int == 1) && (h as int + num_bands
                - 1) / num_bands as int <= h as int) by (nonlinear_arith)
                requires
                    num_bands >= 1,
                    h >= 1,
            ;
        }
        let ghost img0 = self.image@;
        let mut band: usize = 0;
        let mut rows_done: u32 = 0;
        while band < num_bands
            invariant
                0 <= band <= num_bands,
                num_bands >= 1,
                self.config == old(self).config,
                self.width == old(self).width,
                self.height == old(self).height,
                w == self.width,
                h == self.height,
                res == resolution as int,
                resolution == self.config.resolution,
                bbox == self.config.bbox,
                fill_color == self.fill_px(),
                old(self).wf(),
                1 <= w <= crate::MAX_DIMENSION,
                1 <= h <= crate::MAX_DIMENSION,
                table.y_min == 0,
                table.wf(res),
                table.model() == tm_goal,
                band_height as int == ((h as int) + num_bands - 1) / num_bands as int,
                1 <= band_height <= h,
                rows_done as int == if band as int * band_height as int <= h as int {
                    band as int * band_height as int
                } else {
                    h as int
                },
                self.image@.len() == 4 * (w as int) * (h as int),
                self.image@ == fill_rows_spec(
                    img0,
                    w as int,
                    tm_goal,
                    0,
                    fill_color,
                    0,
                    rows_done as nat,
                ),
            decreases num_bands - band,
        {
            let mut y: u32 = rows_done;
            proof {
                lemma_band_arith(band as int, band_height as int, h as int);
            }
            let y_end: u32 = if (band + 1) >= (h as usize + band_height - 1) / band_height {
                h
            } else {
                ((band + 1) * band_height) as u32
            };
            while y < y_end
                invariant
                    rows_done <= y <= y_end <= h,
                    self.config == old(self).config,
                    self.width == old(self).width,
                    self.height == old(self).height,
                    w == self.width,
                    h == self.height,
                    res == resolution as int,
                    1 <= res <= 0x7fff_ffff_ffff_ffff,
                    1 <= w <= crate::MAX_DIMENSION,
                    1 <= h <= crate::MAX_DIMENSION,
                    table.y_min == 0,
                    table.wf(res),
                    table.model() == tm_goal,
                    self.image@.len() == 4 * (w as int) * (h as int),
                    self.image@ == fill_rows_spec(
                        img0,
                        w as int,
                        tm_goal,
                        0,
                        fill_color,
                        0,
                        y as nat,
                    ),
                decreases y_end - y,
            {
                let ghost before = self.image@;
                fill_row(&mut self.image, w, h, &table, y, fill_color, Ghost(res));
                proof {
                    lemma_fill_rows_split(img0, w as int, tm_goal, 0, fill_color, 0, y as nat, 1);
                    let mid = fill_rows_spec(img0, w as int, tm_goal, 0, fill_color, 0, y as nat);
                    assert(fill_rows_spec(mid, w as int, tm_goal, 0, fill_color, y as int, 1)
                        == fill_rows_spec(
                        fill_row_spec(mid, w as int, tm_goal, 0, y as int, fill_color),
                        w as int,
                        tm_goal,
                        0,
                        fill_color,
                        y as int + 1,
                        0,
                    ));
                    assert(before == mid);
                    assert(self.image@ == fill_rows_spec(
                        img0,
                        w as int,
                        tm_goal,
                        0,
                        fill_color,
                        0,
                        (y + 1) as nat,
                    ));
                }
                y += 1;
            }
            rows_done = y_end;
            band += 1;
        }
        proof {
            assert(rows_done == h) by {
                lemma_last_band_reaches(num_bands as int, band_height as int, h as int);
            }
        }
        proof {
            assert(self.image@ == fill_rows_spec(
                img0,
                w as int,
                tm_goal,
                0,
                fill_color,
                0,
                h as nat,
            ));
        }
    }

    /// Renders a multipolygon onto the image: the scanline fill, then, when
    /// a stroke width is set, the ring boundaries.
    pub fn render_multipolygon(&mut self, mp: &crate::geom::MultiPolygonFx)
        requires
            old(self).wf(),
            crate::geom::mp_wf(*mp),
        ensures
            final(self).wf(),
            final(self).config == old(self).config,
            final(self).width == old(self).width,
            final(self).height == old(self).height,
            final(self).image@ == render_mp_spec(
                old(self).image@,
                old(self).width as int,
                old(self).height as int,
                *mp,
                old(self).config.bbox,
                old(self).config.resolution as int,
                old(self).fill_px(),
                old(self).stroke_px(),
                old(self).config.stroke_width as int,
            ),
    {
        let threads = crate::par::current_num_threads();
        let t = if threads < 1 {
            1
        } else {
            threads
        };
        let num_bands = if t > usize::MAX / 4 {
            usize::MAX
        } else {
            t * 4
        };
        self.render_multipolygon_banded(mp, num_bands);
        if self.config.stroke_width > 0 {
            let ghost filled = self.image@;
            let ghost bb = self.config.bbox;
            let ghost res = self.config.resolution as int;
            let ghost hw = (self.config.stroke_width / 2) as int;
            let ghost sc = self.stroke_px();
            let mut p: usize = 0;
            while p < mp.polygons.len()
                invariant
                    0 <= p <= mp.polygons@.len(),
                    crate::geom::mp_wf(*mp),
                    self.config == old(self).config,
                    self.width == old(self).width,
                    self.height == old(self).height,
                    old(self).wf(),
                    self.wf(),
                    bb == self.config.bbox,
                    res == self.config.resolution as int,
                    hw == (self.config.stroke_width / 2) as int,
                    sc == self.stroke_px(),
                    self.image@ == crate::stroke::mp_stroke_upto(
                        filled,
                        self.width as int,
                        self.height as int,
                        *mp,
                        bb,
                        res,
                        hw,
                        sc,
                        p as nat,
                    ),
                decreases mp.polygons@.len() - p,
            {
                self.render_polygon_stroke(&mp.polygons[p]);
                p += 1;
            }
        }
    }
}

/// With a positive band height `bh`, the band boundaries behave: multiplying
/// out one more band adds `bh`, and the comparison against the number of
/// bands needed tells on which side of `h` the band's end lies.
proof fn lemma_band_arith(band: int, bh: int, h: int)
    requires
        0 <= band,
        h >= 1,
        1 <= bh <= h,
    ensures
        (band + 1) * bh == band * bh + bh,
        band * bh >= 0,
        (band + 1) >= (h + bh - 1) / bh ==> (band + 1) * bh >= h,
        (band + 1) < (h + bh - 1) / bh ==> (band + 1) * bh < h,
{
    assert((band + 1) * bh == band * bh + bh && band * bh >= 0) by (nonlinear_arith)
        requires
            band >= 0,
            bh >= 1,
    ;
    let nbands_needed = (h + bh - 1) / bh;
    assert(nbands_needed * bh >= h && (nbands_needed - 1) * bh < h) by (nonlinear_arith)
        requires
            bh >= 1,
            h >= 1,
            nbands_needed == (h + bh - 1) / bh,
    ;
    if (band + 1) >= nbands_needed {
        assert((band + 1) * bh >= nbands_needed * bh) by (nonlinear_arith)
            requires
                band + 1 >= nbands_needed,
                bh >= 1,
        ;
    } else {
        assert((band + 1) * bh <= (nbands_needed - 1) * bh) by (nonlinear_arith)
            requires
                band + 1 <= nbands_needed - 1,
                bh >= 1,
        ;
    }
}

/// After all bands have run, every row has been filled.
proof fn lemma_last_band_reaches(nb: int, bh: int, h: int)
    requires
        nb >= 1,
        h >= 1,
        bh == (h + nb - 1) / nb,
    ensures
        nb * bh >= h,
{
    assert(nb * bh >= h) by (nonlinear_arith)
        requires
            nb >= 1,
            h >= 1,
            bh == (h + nb - 1) / nb,
    ;
}

} // verus!
