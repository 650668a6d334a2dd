use vstd::prelude::*;
use crate::img::{Image, ImageModel, views};

verus! {

/// Rows needed for `count` images at `rc` cells per row: the ceiling of
/// `count / rc`.
pub open spec fn rows_needed(count: nat, rc: nat) -> nat
    recommends
        count >= 1,
        rc >= 1,
{
    (((count - 1) / (rc as int)) + 1) as nat
}

/// Every image shares the resolution of the first.
pub open spec fn all_same_res(s: Seq<ImageModel>) -> bool {
    forall|i: int| 0 <= i < s.len() ==> (#[trigger] s[i]).res() == s[0].res()
}

pub open spec fn all_wf(s: Seq<ImageModel>) -> bool {
    forall|i: int| 0 <= i < s.len() ==> (#[trigger] s[i]).wf()
}

/// The byte at offset `j` of the composed canvas. Cells are filled in
/// row-major order: the canvas pixel is the corresponding pixel of the image
/// whose cell it falls in, or transparent zero where no image landed.
pub open spec fn sheet_byte(s: Seq<ImageModel>, rc: nat, j: int) -> u8
    recommends
        s.len() >= 1,
        rc >= 1,
        all_same_res(s),
        all_wf(s),
{
    let w = s[0].width as int;
    let h = s[0].height as int;
    let cw = rc * w;
    let c = j % 4;
    let p = j / 4;
    let px = p % cw;
    let py = p / cw;
    let idx = (py / h) * rc + px / w;
    if idx < s.len() {
        s[idx].pixels[4 * ((py % h) * w + (px % w)) + c]
    } else {
        0u8
    }
}

/// The spritesheet composed of a non-empty same-resolution image list with
/// `rc` cells per row: canvas `rc * width` by `rows_needed * height`, every
/// byte given by `sheet_byte`.
pub open spec fn sheet_model(s: Seq<ImageModel>, rc: nat) -> ImageModel
    recommends
        s.len() >= 1,
        rc >= 1,
        all_same_res(s),
        all_wf(s),
{
    let w = s[0].width;
    let h = s[0].height;
    let rows = rows_needed(s.len(), rc);
    ImageModel {
        width: rc * w,
        height: rows * h,
        pixels: Seq::new(4 * ((rc * w) * (rows * h)), |j: int| sheet_byte(s, rc, j)),
    }
}

/// For `0 <= r < d`, the quotient and remainder of `q * d + r` are `q`, `r`.
proof fn lemma_decompose(q: int, d: int, r: int)
    requires
        d >= 1,
        0 <= r < d,
        q >= 0,
    ensures
        (q * d + r) / d == q,
        (q * d + r) % d == r,
{
    vstd::arithmetic::div_mod::lemma_fundamental_div_mod_converse(q * d + r, d, q, r);
}

/// A nonnegative `x` below `a * d` has quotient below `a` by `d`, and a
/// remainder below `d`.
proof fn lemma_div_bound(x: int, d: int, a: int)
    requires
        d >= 1,
        0 <= x,
        x < a * d,
    ensures
        0 <= x / d < a,
        0 <= x % d < d,
{
    vstd::arithmetic::div_mod::lemma_fundamental_div_mod(x, d);
    vstd::arithmetic::div_mod::lemma_mod_division_less_than_divisor(x, d);
    vstd::arithmetic::div_mod::lemma_div_pos_is_pos(x, d);
    if x / d >= a {
        vstd::arithmetic::mul::lemma_mul_inequality(a, x / d, d);
        vstd::arithmetic::mul::lemma_mul_is_commutative(d, x / d);
        assert(false);
    }
}

/// Grid Composer: a positive row count and a non-empty list of
/// same-resolution images give one spritesheet. The canvas is
/// `row_count * width` by `rows_needed * height`; each image lands in its
/// row-major cell; unfilled cells stay transparent.
pub fn create_spritesheet(row_count: u32, images: Vec<Image>) -> (r: Image)
    requires
        row_count >= 1,
        images@.len() >= 1,
        all_wf(views(images@)),
        all_same_res(views(images@)),
        (row_count as int) * views(images@)[0].width <= u32::MAX,
        (rows_needed(images@.len() as nat, row_count as nat) as int) * views(images@)[0].height
            <= u32::MAX,
        4 * (((row_count as int) * views(images@)[0].width) * ((rows_needed(
            images@.len() as nat,
            row_count as nat,
        ) as int) * views(images@)[0].height)) <= usize::MAX,
    ensures
        r@ == sheet_model(views(images@), row_count as nat),
{
    let ghost ms = views(images@);
    let w: u32 = images[0].width();
    let h: u32 = images[0].height();
    let len: usize = images.len();
    proof {
        assert(ms[0] == images@[0]@);
        assert(ms[0].wf());
        vstd::arithmetic::div_mod::lemma_div_nonincreasing((len - 1) as int, row_count as int);
        vstd::arithmetic::div_mod::lemma_div_pos_is_pos((len - 1) as int, row_count as int);
    }
    let rows: usize = (len - 1) / (row_count as usize) + 1;
    proof {
        assert(rows as int == rows_needed(len as nat, row_count as nat));
        assert(rows as int <= (rows as int) * (h as int)) by (nonlinear_arith)
            requires
                h >= 1,
                rows >= 1,
        ;
    }
    let cw: u32 = row_count * w;
    let ch: u32 = (rows as u32) * h;
    let area: usize = (cw as usize) * (ch as usize);
    let total: usize = 4 * area;
    let mut pixels: Vec<u8> = Vec::new();
    let mut j: usize = 0;
    while j < total
        invariant
            ms == views(images@),
            len == images@.len(),
            ms.len() == len,
            1 <= len,
            row_count >= 1,
            all_wf(ms),
            all_same_res(ms),
            w as int == ms[0].width,
            h as int == ms[0].height,
            w >= 1,
            h >= 1,
            rows >= 1,
            cw as int == (row_count as int) * (w as int),
            rows as int == rows_needed(len as nat, row_count as nat),
            ch as int == (rows as int) * (h as int),
            area as int == (cw as int) * (ch as int),
            total as int == 4 * (area as int),
            j <= total,
            pixels@.len() == j as int,
            forall|l: int| 0 <= l < j ==> pixels@[l] == sheet_byte(ms, row_count as nat, l),
        decreases total - j,
    {
        let c: usize = j % 4;
        let p: usize = j / 4;
        proof {
            lemma_div_bound(j as int, 4, area as int);
            vstd::arithmetic::mul::lemma_mul_is_commutative(cw as int, ch as int);
            assert(cw >= 1) by (nonlinear_arith)
                requires
                    cw as int == (row_count as int) * (w as int),
                    row_count >= 1,
                    w >= 1,
            ;
        }
        let px: usize = p % (cw as usize);
        let py: usize = p / (cw as usize);
        proof {
            lemma_div_bound(p as int, cw as int, ch as int);
        }
        let col: usize = px / (w as usize);
        let row: usize = py / (h as usize);
        proof {
            vstd::arithmetic::mul::lemma_mul_is_commutative(row_count as int, w as int);
            lemma_div_bound(px as int, w as int, row_count as int);
            vstd::arithmetic::mul::lemma_mul_is_commutative(rows as int, h as int);
            lemma_div_bound(py as int, h as int, rows as int);
            assert((row as int) * (row_count as int) + (col as int) < (rows as int) * (row_count
                as int)) by (nonlinear_arith)
                requires
                    0 <= row,
                    row < rows,
                    0 <= col < row_count,
            ;
            assert((rows as int) * (row_count as int) <= ((row_count as int) * (w as int)) * ((rows
                as int) * (h as int))) by (nonlinear_arith)
                requires
                    w >= 1,
                    h >= 1,
                    rows >= 1,
                    row_count >= 1,
            ;
        }
        let idx: usize = row * (row_count as usize) + col;
        let b: u8;
        if idx < len {
            proof {
                assert(ms[idx as int].wf());
                assert(ms[idx as int].res() == ms[0].res());
                assert(ms[idx as int].width == w as int && ms[idx as int].height == h as int);
                assert(4 * (((py as int) % (h as int)) * (w as int) + ((px as int) % (w as int)))
                    + (c as int) < 4 * ((w as int) * (h as int))) by (nonlinear_arith)
                    requires
                        w >= 1,
                        h >= 1,
                        0 <= (py as int) % (h as int) < h as int,
                        0 <= (px as int) % (w as int) < w as int,
                        0 <= c < 4,
                ;
                assert((w as int) * (h as int) <= (cw as int) * (ch as int)) by (nonlinear_arith)
                    requires
                        w >= 1,
                        h >= 1,
                        cw as int == (row_count as int) * (w as int),
                        ch as int == (rows as int) * (h as int),
                        rows >= 1,
                        row_count >= 1,
                ;
                vstd::arithmetic::mul::lemma_mul_is_associative(4, w as int, h as int);
                assert(4 * ((w as nat) * (h as nat)) == ms[idx as int].pixels.len());
            }
            let sx: usize = px % (w as usize);
            let sy: usize = py % (h as usize);
            let off: usize = 4 * (sy * (w as usize) + sx) + c;
            b = images[idx].pixel_bytes()[off];
        } else {
            b = 0;
        }
        pixels.push(b);
        proof {
            assert(b == sheet_byte(ms, row_count as nat, j as int));
        }
        j = j + 1;
    }
    proof {
        assert(cw >= 1 && ch >= 1) by (nonlinear_arith)
            requires
                cw as int == (row_count as int) * (w as int),
                ch as int == (rows as int) * (h as int),
                row_count >= 1,
                w >= 1,
                h >= 1,
                rows >= 1,
        ;
        assert(pixels@ =~= sheet_model(ms, row_count as nat).pixels);
        vstd::arithmetic::mul::lemma_mul_is_associative(4, cw as int, ch as int);
        assert(pixels@.len() == 4 * (cw as int) * (ch as int));
    }
    let r = Image::from_parts(cw, ch, pixels);
    proof {
        assert(r@ == sheet_model(ms, row_count as nat));
    }
    r
}

/// Law: the image at input index `i` lands at cell
/// `(i mod rc, i div rc)`, that is at pixel offset
/// `(i mod rc * width, i div rc * height)`: every byte of its buffer reappears
/// there on the composed canvas.
pub proof fn lemma_cell_placement(s: Seq<ImageModel>, rc: nat, i: int, x: int, y: int, c: int)
    requires
        s.len() >= 1,
        rc >= 1,
        all_wf(s),
        all_same_res(s),
        0 <= i < s.len(),
        0 <= x < s[0].width,
        0 <= y < s[0].height,
        0 <= c < 4,
    ensures
        ({
            let w = s[0].width as int;
            let h = s[0].height as int;
            let px = (i % (rc as int)) * w + x;
            let py = (i / (rc as int)) * h + y;
            sheet_model(s, rc).pixels[4 * (py * ((rc as int) * w) + px) + c] == s[i].pixels[4 * (y
                * w + x) + c]
        }),
{
    let w = s[0].width as int;
    let h = s[0].height as int;
    let rcs = rc as int;
    let cw = rcs * w;
    let rows = rows_needed(s.len(), rc) as int;
    let qi = i / rcs;
    let ri = i % rcs;
    let px = ri * w + x;
    let py = qi * h + y;
    let p = py * cw + px;
    let j = 4 * p + c;
    vstd::arithmetic::div_mod::lemma_fundamental_div_mod(i, rcs);
    vstd::arithmetic::div_mod::lemma_mod_division_less_than_divisor(i, rcs);
    vstd::arithmetic::div_mod::lemma_div_pos_is_pos(i, rcs);
    assert(0 <= px < cw) by (nonlinear_arith)
        requires
            px == ri * w + x,
            0 <= ri < rcs,
            0 <= x < w,
            w >= 1,
            cw == rcs * w,
    ;
    vstd::arithmetic::div_mod::lemma_div_is_ordered(i, s.len() - 1, rcs);
    assert(qi <= rows - 1);
    assert(0 <= py < rows * h) by (nonlinear_arith)
        requires
            py == qi * h + y,
            0 <= qi <= rows - 1,
            0 <= y < h,
            h >= 1,
    ;
    assert(0 <= p && p < cw * (rows * h)) by (nonlinear_arith)
        requires
            p == py * cw + px,
            0 <= py < rows * h,
            0 <= px < cw,
            cw >= 1,
    ;
    lemma_decompose(p, 4, c);
    lemma_decompose(py, cw, px);
    lemma_decompose(ri, w, x);
    lemma_decompose(qi, h, y);
    vstd::arithmetic::mul::lemma_mul_is_commutative(qi, rcs);
    assert((py / h) * rcs + px / w == i);
    assert(j < 4 * (cw * (rows * h)));
    assert(sheet_model(s, rc).pixels[j] == sheet_byte(s, rc, j));
    assert(s[i].wf() && s[i].res() == s[0].res());
}

/// The canvas byte offset of channel `c` of pixel (`x`, `y`) of the image at
/// input index `i`: that image's cell is (`i mod rc`, `i div rc`).
pub open spec fn cell_byte_off(s: Seq<ImageModel>, rc: nat, i: int, x: int, y: int, c: int) -> int {
    let w = s[0].width as int;
    let h = s[0].height as int;
    let px = (i % (rc as int)) * w + x;
    let py = (i / (rc as int)) * h + y;
    4 * (py * ((rc as int) * w) + px) + c
}

/// Law: on the composed canvas, every image of the input list reappears
/// whole in its own row-major cell — for every index `i` and every pixel
/// byte of that image, the canvas byte at the cell's offset equals it.
pub proof fn lemma_sheet_placement(s: Seq<ImageModel>, rc: nat)
    requires
        s.len() >= 1,
        rc >= 1,
        all_wf(s),
        all_same_res(s),
    ensures
        forall|i: int, x: int, y: int, c: int|
            0 <= i < s.len() && 0 <= x < s[0].width && 0 <= y < s[0].height && 0 <= c < 4
                ==> sheet_model(s, rc).pixels[#[trigger] cell_byte_off(s, rc, i, x, y, c)]
                == s[i].pixels[4 * (y * (s[0].width as int) + x) + c],
{
    assert forall|i: int, x: int, y: int, c: int|
        0 <= i < s.len() && 0 <= x < s[0].width && 0 <= y < s[0].height && 0 <= c
            < 4 implies sheet_model(s, rc).pixels[#[trigger] cell_byte_off(s, rc, i, x, y, c)]
        == s[i].pixels[4 * (y * (s[0].width as int) + x) + c] by {
        lemma_cell_placement(s, rc, i, x, y, c);
    }
}

} // verus!
