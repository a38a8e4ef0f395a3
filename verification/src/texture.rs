//! Pixel buffers of material textures: conversion to RGBA and tiling.
use vstd::prelude::*;
use vstd::arithmetic::div_mod::{lemma_fundamental_div_mod, lemma_fundamental_div_mod_converse};

verus! {

/// Layout of the pixels a PNG decoder produced.
#[derive(Clone, Copy, Debug, PartialEq, Eq, Structural)]
pub enum PixelFormat {
    Rgb,
    Rgba,
    /// Any other color type (grayscale, indexed, ...), which is not supported.
    Other,
}

/// The RGBA pixels of an image of `n` pixels given as RGB: alpha is opaque.
pub open spec fn rgb_as_rgba(buf: Seq<u8>, n: int) -> Seq<u8> {
    Seq::new(
        (4 * n) as nat,
        |p: int|
            if p % 4 == 3 {
                255u8
            } else {
                buf[(p / 4) * 3 + p % 4]
            },
    )
}

/// Normalize decoded pixels to RGBA8: RGB gets an opaque alpha channel, RGBA is
/// kept as it is, and other formats are refused (`None`).
pub fn to_rgba(buf: Vec<u8>, width: u32, height: u32, format: PixelFormat) -> (r: Option<Vec<u8>>)
    requires
        width * height * 4 <= u32::MAX,
        format == PixelFormat::Rgb ==> buf@.len() >= 3 * (width * height),
    ensures
        format == PixelFormat::Rgba ==> r == Some(buf),
        format == PixelFormat::Other ==> r is None,
        format == PixelFormat::Rgb ==> r is Some && r.unwrap()@ == rgb_as_rgba(buf@, width * height),
{
    match format {
        PixelFormat::Rgba => Some(buf),
        PixelFormat::Other => None,
        PixelFormat::Rgb => {
            let n = (width * height) as usize;
            let blen = buf.len();
            let mut rgba: Vec<u8> = Vec::with_capacity((width * height * 4) as usize);
            let mut i: usize = 0;
            while i < n
                invariant
                    0 <= i <= n,
                    n == width * height,
                    blen == buf@.len(),
                    buf@.len() >= 3 * n,
                    rgba@.len() == 4 * i,
                    forall|p: int|
                        0 <= p < 4 * i ==> #[trigger] rgba@[p] == rgb_as_rgba(buf@, n as int)[p],
                decreases n - i,
            {
                let ghost before = rgba@;
                rgba.push(buf[i * 3]);
                rgba.push(buf[i * 3 + 1]);
                rgba.push(buf[i * 3 + 2]);
                rgba.push(255);
                proof {
                    assert forall|p: int| 0 <= p < 4 * (i + 1) implies #[trigger] rgba@[p]
                        == rgb_as_rgba(buf@, n as int)[p] by {
                        if p >= 4 * i {
                            let c = p - 4 * i;
                            lemma_fundamental_div_mod_converse(p, 4, i as int, c);
                        }
                    }
                }
                i = i + 1;
            }
            assert(rgba@ =~= rgb_as_rgba(buf@, n as int));
            Some(rgba)
        },
    }
}

/// Byte `b` of row `y` of the tiled image: the pattern repeats every `src_h`
/// rows and every `4 * src_w` bytes.
pub open spec fn tiled_byte(data: Seq<u8>, src_w: int, src_h: int, y: int, b: int) -> u8 {
    data[(y % src_h) * (4 * src_w) + b % (4 * src_w)]
}

/// The tiling is well defined: the pattern divides the destination width, fits
/// in its height, holds its pixels, and the destination size fits a u32.
pub open spec fn tiling_ok(data: Seq<u8>, src_w: int, src_h: int, dst_w: int, dst_h: int) -> bool {
    &&& src_w >= 1
    &&& src_h >= 1
    &&& src_w * 4 <= u32::MAX
    &&& dst_w % src_w == 0
    &&& src_h <= dst_h
    &&& dst_w * dst_h * 4 <= u32::MAX
    &&& data.len() >= src_w * src_h * 4
}

proof fn lemma_row_bounds(y: int, b: int, drs: int, h: int)
    requires
        0 <= y < h,
        0 <= b < drs,
    ensures
        0 <= y * drs + b < h * drs,
        y * drs <= y * drs + b,
{
    assert(y * drs + b < h * drs) by (nonlinear_arith)
        requires
            0 <= y < h,
            0 <= b < drs,
    ;
    assert(0 <= y * drs) by (nonlinear_arith)
        requires
            0 <= y,
            0 <= drs,
    ;
}

proof fn lemma_rows_distinct(y1: int, b1: int, y2: int, b2: int, drs: int)
    requires
        0 <= y1,
        0 <= y2,
        0 <= b1 < drs,
        0 <= b2 < drs,
        y1 != y2,
    ensures
        y1 * drs + b1 != y2 * drs + b2,
{
    if y1 * drs + b1 == y2 * drs + b2 {
        lemma_fundamental_div_mod_converse(y1 * drs + b1, drs, y1, b1);
        lemma_fundamental_div_mod_converse(y2 * drs + b2, drs, y2, b2);
    }
}

/// Tiles a smaller texture pattern to fill a larger destination buffer
pub fn tile_texture(data: &[u8], src_w: u32, src_h: u32, dst_w: u32, dst_h: u32) -> (r: Vec<u8>)
    requires
        (src_w == dst_w && src_h == dst_h) || tiling_ok(
            data@,
            src_w as int,
            src_h as int,
            dst_w as int,
            dst_h as int,
        ),
    ensures
        src_w == dst_w && src_h == dst_h ==> r@ == data@,
        !(src_w == dst_w && src_h == dst_h) ==> {
            &&& r@.len() == dst_w * dst_h * 4
            &&& forall|y: int, b: int|
                0 <= y < dst_h && 0 <= b < 4 * dst_w ==> #[trigger] r@[y * (4 * dst_w) + b]
                    == tiled_byte(data@, src_w as int, src_h as int, y, b)
        },
{
    // If the size already matches, just return a copy of the data
    if src_w == dst_w && src_h == dst_h {
        let mut copy: Vec<u8> = Vec::with_capacity(data.len());
        let mut i: usize = 0;
        while i < data.len()
            invariant
                0 <= i <= data@.len(),
                copy@ == data@.subrange(0, i as int),
            decreases data@.len() - i,
        {
            copy.push(data[i]);
            i = i + 1;
        }
        assert(copy@ =~= data@);
        return copy;
    }
    proof {
        assert(dst_w * dst_h <= dst_w * dst_h * 4);
        assert(dst_w * 4 <= dst_w * dst_h * 4) by (nonlinear_arith)
            requires
                dst_h >= src_h,
                src_h >= 1,
        ;
    }
    let len = (dst_w * dst_h * 4) as usize;
    let mut tiled: Vec<u8> = Vec::new();
    tiled.resize(len, 0);
    let dlen = data.len();
    let srs = (src_w * 4) as usize;
    let drs = (dst_w * 4) as usize;
    let ghost sw = src_w as int;
    let ghost sh = src_h as int;
    proof {
        assert(len == dst_h * drs) by (nonlinear_arith)
            requires
                len == dst_w * dst_h * 4,
                drs == dst_w * 4,
        ;
        assert(drs % srs == 0) by (nonlinear_arith)
            requires
                dst_w % src_w == 0,
                src_w >= 1,
                srs == src_w * 4,
                drs == dst_w * 4,
        {
            lemma_fundamental_div_mod(dst_w as int, src_w as int);
            let q = dst_w as int / src_w as int;
            assert(drs == q * srs);
            lemma_fundamental_div_mod_converse(drs as int, srs as int, q, 0);
        }
        assert(src_h * srs <= data@.len()) by (nonlinear_arith)
            requires
                data@.len() >= src_w * src_h * 4,
                srs == src_w * 4,
        ;
    }

    // First, tile the unique source rows horizontally into the destination
    let mut y: u32 = 0;
    while y < src_h
        invariant
            0 <= y <= src_h,
            src_h <= dst_h,
            src_h >= 1,
            srs >= 4,
            srs == 4 * src_w,
            drs == 4 * dst_w,
            drs % srs == 0,
            tiled@.len() == len,
            len == dst_h * drs,
            len <= u32::MAX,
            dlen == data@.len(),
            src_h * srs <= data@.len(),
            forall|y2: int, b: int|
                0 <= y2 < y && 0 <= b < drs ==> #[trigger] tiled@[y2 * drs + b] == data@[y2 * srs
                    + b % (srs as int)],
        decreases src_h - y,
    {
        proof {
            assert((y + 1) * srs <= data@.len()) by (nonlinear_arith)
                requires
                    y < src_h,
                    src_h * srs <= data@.len(),
                    srs >= 0,
            ;
            assert((y + 1) * drs <= len) by (nonlinear_arith)
                requires
                    y < src_h,
                    src_h <= dst_h,
                    len == dst_h * drs,
                    drs >= 0,
            ;
            assert(y * srs <= (y + 1) * srs && y * drs <= (y + 1) * drs) by (nonlinear_arith)
                requires
                    y >= 0,
                    srs >= 0,
                    drs >= 0,
            ;
        }
        let row_start = y as usize * srs;
        let dst_y_offset = y as usize * drs;
        let mut x_offset: usize = 0;
        while x_offset < drs
            invariant
                0 <= x_offset <= drs,
                x_offset % srs == 0,
                y < src_h,
                src_h <= dst_h,
                srs >= 4,
                drs % srs == 0,
                srs == 4 * src_w,
                drs == 4 * dst_w,
                tiled@.len() == len,
                len == dst_h * drs,
                len <= u32::MAX,
                row_start == y * srs,
                dst_y_offset == y * drs,
                dlen == data@.len(),
                (y + 1) * srs <= data@.len(),
                (y + 1) * drs <= len,
                forall|y2: int, b: int|
                    0 <= y2 < y && 0 <= b < drs ==> #[trigger] tiled@[y2 * drs + b] == data@[y2
                        * srs + b % (srs as int)],
                forall|b: int|
                    0 <= b < x_offset ==> #[trigger] tiled@[y * drs + b] == data@[y * srs + b % (
                    srs as int)],
            decreases drs - x_offset,
        {
            proof {
                lemma_fundamental_div_mod(x_offset as int, srs as int);
                lemma_fundamental_div_mod(drs as int, srs as int);
                let qx = x_offset as int / srs as int;
                let qd = drs as int / srs as int;
                assert(x_offset + srs <= drs) by (nonlinear_arith)
                    requires
                        x_offset == srs * qx,
                        drs == srs * qd,
                        x_offset < drs,
                        srs > 0,
                ;
            }
            let mut i: usize = 0;
            while i < srs
                invariant
                    0 <= i <= srs,
                    x_offset + srs <= drs,
                    x_offset % srs == 0,
                    y < src_h,
                    src_h <= dst_h,
                    srs >= 4,
                    srs == 4 * src_w,
                    tiled@.len() == len,
                    len == dst_h * drs,
                    row_start == y * srs,
                    dst_y_offset == y * drs,
                    dlen == data@.len(),
                    (y + 1) * srs <= data@.len(),
                    (y + 1) * drs <= len,
                    forall|y2: int, b: int|
                        0 <= y2 < y && 0 <= b < drs ==> #[trigger] tiled@[y2 * drs + b] == data@[y2
                            * srs + b % (srs as int)],
                    forall|b: int|
                        0 <= b < x_offset + i ==> #[trigger] tiled@[y * drs + b] == data@[y * srs
                            + b % (srs as int)],
                decreases srs - i,
            {
                proof {
                    lemma_fundamental_div_mod(x_offset as int, srs as int);
                    let qx = x_offset as int / srs as int;
                    assert((x_offset + i) as int == qx * srs + i) by (nonlinear_arith)
                        requires
                            x_offset == srs * qx + 0,
                    ;
                    lemma_fundamental_div_mod_converse(
                        (x_offset + i) as int,
                        srs as int,
                        x_offset as int / srs as int,
                        i as int,
                    );
                    assert(dst_y_offset + x_offset + i < (y + 1) * drs) by (nonlinear_arith)
                        requires
                            dst_y_offset == y * drs,
                            x_offset + i < drs,
                    ;
                    assert(row_start + i < (y + 1) * srs) by (nonlinear_arith)
                        requires
                            row_start == y * srs,
                            i < srs,
                    ;
                }
                let v = data[row_start + i];
                tiled.set(dst_y_offset + x_offset + i, v);
                proof {
                    let q = dst_y_offset + x_offset + i;
                    assert(q == y * drs + (x_offset + i));
                    assert forall|y2: int, b: int|
                        0 <= y2 < y && 0 <= b < drs implies #[trigger] tiled@[y2 * drs + b]
                        == data@[y2 * srs + b % (srs as int)] by {
                        lemma_rows_distinct(y2, b, y as int, (x_offset + i) as int, drs as int);
                        lemma_row_bounds(y2, b, drs as int, dst_h as int);
                    }
                    assert forall|b: int| 0 <= b < x_offset + i + 1 implies #[trigger] tiled@[y
                        * drs + b] == data@[y * srs + b % (srs as int)] by {
                        if b < x_offset + i {
                            assert(y * drs + b != q);
                        }
                    }
                }
                i = i + 1;
            }
            let ghost old_x = x_offset as int;
            x_offset = x_offset + srs;
            proof {
                lemma_fundamental_div_mod(old_x, srs as int);
                let q = old_x / srs as int;
                assert(x_offset == (q + 1) * srs) by (nonlinear_arith)
                    requires
                        old_x == srs * q + 0,
                        x_offset == old_x + srs,
                ;
                lemma_fundamental_div_mod_converse(x_offset as int, srs as int, q + 1, 0);
            }
        }
        y = y + 1;
    }

    proof {
        assert forall|y2: int, b: int|
            0 <= y2 < src_h && 0 <= b < drs implies #[trigger] tiled@[y2 * drs + b] == data@[(y2
                % src_h as int) * srs + b % (srs as int)] by {
            lemma_fundamental_div_mod_converse(y2, src_h as int, 0, y2);
        }
    }
    // Then, copy the horizontally-tiled rows vertically to fill the rest of the buffer
    let mut y: u32 = src_h;
    while y < dst_h
        invariant
            src_h <= y <= dst_h,
            src_h >= 1,
            srs >= 4,
            srs == 4 * src_w,
            drs == 4 * dst_w,
            tiled@.len() == len,
            len == dst_h * drs,
            len <= u32::MAX,
            forall|y2: int, b: int|
                0 <= y2 < y && 0 <= b < drs ==> #[trigger] tiled@[y2 * drs + b] == data@[(y2
                    % src_h as int) * srs + b % (srs as int)],
        decreases dst_h - y,
    {
        let src_y = y % src_h;
        proof {
            assert((y + 1) * drs <= len) by (nonlinear_arith)
                requires
                    y < dst_h,
                    len == dst_h * drs,
                    drs >= 0,
            ;
            assert((src_y + 1) * drs <= y * drs) by (nonlinear_arith)
                requires
                    src_y < y,
                    drs >= 0,
            ;
            assert(y * drs <= (y + 1) * drs && src_y * drs <= (src_y + 1) * drs) by (nonlinear_arith)
                requires
                    y >= 0,
                    src_y >= 0,
                    drs >= 0,
            ;
            lemma_fundamental_div_mod_converse(src_y as int, src_h as int, 0, src_y as int);
        }
        let src_y_offset = src_y as usize * drs;
        let dst_y_offset = y as usize * drs;
        let mut i: usize = 0;
        while i < drs
            invariant
                0 <= i <= drs,
                src_h <= y < dst_h,
                src_y == y % src_h,
                src_y < y,
                src_y % src_h == src_y,
                srs >= 4,
                srs == 4 * src_w,
                drs == 4 * dst_w,
                tiled@.len() == len,
                len == dst_h * drs,
                src_y_offset == src_y * drs,
                dst_y_offset == y * drs,
                (y + 1) * drs <= len,
                (src_y + 1) * drs <= y * drs,
                forall|y2: int, b: int|
                    0 <= y2 < y && 0 <= b < drs ==> #[trigger] tiled@[y2 * drs + b] == data@[(y2
                        % src_h as int) * srs + b % (srs as int)],
                forall|b: int|
                    0 <= b < i ==> #[trigger] tiled@[y * drs + b] == data@[(y as int % src_h as int) * srs
                        + b % (srs as int)],
            decreases drs - i,
        {
            proof {
                assert(src_y_offset + i < (src_y + 1) * drs) by (nonlinear_arith)
                    requires
                        src_y_offset == src_y * drs,
                        i < drs,
                ;
                assert(dst_y_offset + i < (y + 1) * drs) by (nonlinear_arith)
                    requires
                        dst_y_offset == y * drs,
                        i < drs,
                ;
                assert(tiled@[src_y * drs + i] == data@[(src_y as int % src_h as int) * srs + (i as int) % (srs as int)]);
            }
            let v = tiled[src_y_offset + i];
            tiled.set(dst_y_offset + i, v);
            proof {
                assert forall|y2: int, b: int|
                    0 <= y2 < y && 0 <= b < drs implies #[trigger] tiled@[y2 * drs + b]
                    == data@[(y2 % src_h as int) * srs + b % (srs as int)] by {
                    lemma_rows_distinct(y2, b, y as int, i as int, drs as int);
                    lemma_row_bounds(y2, b, drs as int, dst_h as int);
                }
                assert forall|b: int| 0 <= b < i + 1 implies #[trigger] tiled@[y * drs + b]
                    == data@[(y as int % src_h as int) * srs + b % (srs as int)] by {
                    if b < i {
                        assert(y * drs + b != dst_y_offset + i);
                    }
                }
            }
            i = i + 1;
        }
        y = y + 1;
    }
    proof {
        assert forall|y2: int, b: int|
            0 <= y2 < dst_h && 0 <= b < 4 * dst_w implies #[trigger] tiled@[y2 * (4 * dst_w) + b]
            == tiled_byte(data@, src_w as int, src_h as int, y2, b) by {
            assert(drs == 4 * dst_w);
            if y2 < src_h {
                lemma_fundamental_div_mod_converse(y2, src_h as int, 0, y2);
            }
        }
    }
    tiled
}

} // verus!
