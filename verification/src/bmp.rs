//! Minimal BMP encoder, so a render can be saved without pulling in an image
//! encoder.

use vstd::prelude::*;

verus! {

/// Bytes of the header.
pub const HEADER: usize = 54;

/// A 32-bit number, least significant byte first.
pub open spec fn le32(v: int) -> Seq<u8> {
    seq![
        (v % 0x100) as u8,
        (v / 0x100 % 0x100) as u8,
        (v / 0x1_0000 % 0x100) as u8,
        (v / 0x100_0000 % 0x100) as u8,
    ]
}

/// Bytes of a row of pixels: three per pixel, padded to a multiple of four.
pub open spec fn row_bytes(width: int) -> int {
    (3 * width + 3) / 4 * 4
}

/// The header of an uncompressed 24-bit image.
pub open spec fn header(width: int, height: int) -> Seq<u8> {
    let pixels = row_bytes(width) * height;
    seq![0x42u8, 0x4du8] + le32(HEADER + pixels) + le32(0) + le32(HEADER as int) + le32(40) + le32(
        width,
    ) + le32(height) + seq![1u8, 0u8, 24u8, 0u8] + le32(0) + le32(pixels) + le32(0) + le32(0)
        + le32(0) + le32(0)
}

/// Row `y` of the image as it is stored: blue, green, red, then the padding.
pub open spec fn row(rgba: Seq<u8>, width: int, y: int) -> Seq<u8> {
    Seq::new(
        row_bytes(width) as nat,
        |i: int|
            if i < 3 * width {
                rgba[(y * width + i / 3) * 4 + 2 - i % 3]
            } else {
                0
            },
    )
}

/// The rows below `y`, the last one first.
pub open spec fn rows(rgba: Seq<u8>, width: int, y: int) -> Seq<u8>
    decreases y,
{
    if y <= 0 {
        Seq::empty()
    } else {
        row(rgba, width, y - 1) + rows(rgba, width, y - 1)
    }
}

/// A 24-bit uncompressed BMP of straight RGBA pixels.
pub open spec fn bmp(width: int, height: int, rgba: Seq<u8>) -> Seq<u8> {
    header(width, height) + rows(rgba, width, height)
}

fn push_le32(out: &mut Vec<u8>, v: u32)
    ensures
        final(out)@ == old(out)@ + le32(v as int),
{
    out.push((v % 0x100) as u8);
    out.push((v / 0x100 % 0x100) as u8);
    out.push((v / 0x1_0000 % 0x100) as u8);
    out.push((v / 0x100_0000 % 0x100) as u8);
    assert(out@ == old(out)@ + le32(v as int));
}

/// Encodes 24-bit uncompressed BMP from straight RGBA input.
///
/// BMP stores rows bottom-up as BGR, each padded to a 4-byte boundary, hence
/// all the shuffling for what is otherwise a header and a copy.
pub fn encode_rgba(width: u32, height: u32, rgba: &[u8]) -> (out: Vec<u8>)
    requires
        rgba@.len() == width * height * 4,
        width <= i32::MAX / 3,
        height <= i32::MAX,
        HEADER + row_bytes(width as int) * height <= u32::MAX,
    ensures
        out@ == bmp(width as int, height as int, rgba@),
{
    let each: u32 = (3 * width + 3) / 4 * 4;
    let pixels: u32 = each * height;
    let mut out: Vec<u8> = Vec::new();
    out.push(0x42);
    out.push(0x4d);
    push_le32(&mut out, 54 + pixels);
    push_le32(&mut out, 0);
    push_le32(&mut out, 54);
    push_le32(&mut out, 40);
    push_le32(&mut out, width);
    push_le32(&mut out, height);
    out.push(1);
    out.push(0);
    out.push(24);
    out.push(0);
    push_le32(&mut out, 0);
    push_le32(&mut out, pixels);
    push_le32(&mut out, 0);
    push_le32(&mut out, 0);
    push_le32(&mut out, 0);
    push_le32(&mut out, 0);
    assert(out@ == header(width as int, height as int));
    let w: usize = width as usize;
    let ghost goal = bmp(width as int, height as int, rgba@);
    let mut y: usize = height as usize;
    while y > 0
        invariant
            y <= height,
            w == width,
            width <= i32::MAX / 3,
            rgba@.len() == width * height * 4,
            each == row_bytes(width as int),
            rgba@.len() == rgba.len(),
            goal == bmp(width as int, height as int, rgba@),
            out@ + rows(rgba@, width as int, y as int) == goal,
        decreases y,
    {
        let ghost start = out@;
        let ghost here = row(rgba@, width as int, y - 1);
        y -= 1;
        proof {
            assert(y * w + w <= height * w) by (nonlinear_arith)
                requires
                    y + 1 <= height,
            ;
            assert(height * w == width * height) by (nonlinear_arith)
                requires
                    w == width,
            ;
            assert(start + here.take(0) == start);
        }
        let base: usize = y * w;
        let mut x: usize = 0;
        while x < w
            invariant
                x <= w,
                w == width,
                width <= i32::MAX / 3,
                base == y * w,
                (base + w) * 4 <= rgba@.len(),
                rgba@.len() == rgba.len(),
                here == row(rgba@, width as int, y as int),
                3 * width <= row_bytes(width as int),
                out@ == start + here.take(3 * x),
            decreases w - x,
        {
            let src: usize = (base + x) * 4;
            assert(here[3 * x] == rgba@[src + 2] && here[3 * x + 1] == rgba@[src + 1] && here[3 * x
                + 2] == rgba@[src as int]) by {
                assert((3 * x) / 3 == x && (3 * x) % 3 == 0);
                assert((3 * x + 1) / 3 == x && (3 * x + 1) % 3 == 1);
                assert((3 * x + 2) / 3 == x && (3 * x + 2) % 3 == 2);
            }
            out.push(rgba[src + 2]);
            out.push(rgba[src + 1]);
            out.push(rgba[src]);
            x += 1;
            assert(out@ == start + here.take(3 * x));
        }
        let mut i: u32 = 3 * width;
        while i < each
            invariant
                3 * width <= i <= each,
                each == row_bytes(width as int),
                here == row(rgba@, width as int, y as int),
                out@ == start + here.take(i as int),
            decreases each - i,
        {
            out.push(0);
            i += 1;
            assert(out@ == start + here.take(i as int));
        }
        proof {
            assert(here.take(each as int) == here);
            assert(out@ + rows(rgba@, width as int, y as int) == start + (here + rows(
                rgba@,
                width as int,
                y as int,
            )));
        }
    }
    assert(out@ + Seq::<u8>::empty() == out@);
    out
}

/// Where the rows of an image end.
proof fn lemma_rows_len(rgba: Seq<u8>, width: int, y: int)
    requires
        0 <= y,
        0 <= width,
    ensures
        rows(rgba, width, y).len() == row_bytes(width) * y,
    decreases y,
{
    if y > 0 {
        lemma_rows_len(rgba, width, y - 1);
        assert(row_bytes(width) * y == row_bytes(width) + row_bytes(width) * (y - 1))
            by (nonlinear_arith);
    } else {
        assert(row_bytes(width) * 0 == 0);
    }
}

/// The file is as long as its header says: the header and the padded rows.
pub proof fn lemma_size(width: int, height: int, rgba: Seq<u8>)
    requires
        0 <= width,
        0 <= height,
    ensures
        bmp(width, height, rgba).len() == HEADER + row_bytes(width) * height,
        bmp(width, height, rgba).subrange(2, 6) == le32(HEADER + row_bytes(width) * height),
{
    lemma_rows_len(rgba, width, height);
    let pixels = row_bytes(width) * height;
    assert(bmp(width, height, rgba).subrange(2, 6) == le32(HEADER + pixels));
}

/// Pixels are stored bottom-up as blue, green, red: channel `c` of the pixel in
/// column `x` of row `y` stands `height - 1 - y` rows into the file.
pub proof fn lemma_pixel(width: int, height: int, rgba: Seq<u8>, x: int, y: int, c: int)
    requires
        0 <= x < width,
        0 <= y < height,
        0 <= c < 3,
    ensures
        bmp(width, height, rgba)[HEADER + (height - 1 - y) * row_bytes(width) + 3 * x + 2 - c]
            == rgba[(y * width + x) * 4 + c],
{
    lemma_row_at(rgba, width, height, y);
    let start = (height - 1 - y) * row_bytes(width);
    let all = rows(rgba, width, height);
    let i = 3 * x + 2 - c;
    assert(i / 3 == x && i % 3 == 2 - c);
    assert(row(rgba, width, y)[i] == rgba[(y * width + x) * 4 + c]);
    assert(all.subrange(start, start + row_bytes(width))[i] == all[start + i]);
}

proof fn lemma_row_at(rgba: Seq<u8>, width: int, height: int, y: int)
    requires
        0 < width,
        0 <= y < height,
    ensures
        ({
            let start = (height - 1 - y) * row_bytes(width);
            &&& 0 <= start
            &&& start + row_bytes(width) <= rows(rgba, width, height).len()
            &&& rows(rgba, width, height).subrange(start, start + row_bytes(width)) == row(
                rgba,
                width,
                y,
            )
        }),
    decreases height,
{
    let each = row_bytes(width);
    let first = row(rgba, width, height - 1);
    let rest = rows(rgba, width, height - 1);
    let all = rows(rgba, width, height);
    lemma_rows_len(rgba, width, height - 1);
    if y == height - 1 {
        assert((height - 1 - y) * each == 0) by (nonlinear_arith)
            requires
                y == height - 1,
        ;
        assert(rest.len() >= 0);
        assert(all.subrange(0, each) == first);
    } else {
        lemma_row_at(rgba, width, height - 1, y);
        let start = (height - 2 - y) * each;
        assert((height - 1 - y) * each == each + start) by (nonlinear_arith)
            requires
                start == (height - 2 - y) * each,
        ;
        assert(all.subrange(each + start, each + start + each) == rest.subrange(
            start,
            start + each,
        ));
    }
}

} // verus!
