//! How close a frame is to another: the sums that fidelity figures are made
//! of. Pixels are compared by their lowest byte, the luma.

use vstd::prelude::*;

verus! {

/// Luma of a packed pixel.
pub open spec fn luma_byte(pixel: u32) -> int {
    pixel as int % 256
}

/// Squared luma differences of the first `n` pixels, summed.
pub open spec fn squared_error(test: Seq<u32>, truth: Seq<u32>, n: int) -> int
    decreases n,
{
    if n <= 0 {
        0
    } else {
        let d = luma_byte(test[n - 1]) - luma_byte(truth[n - 1]);
        squared_error(test, truth, n - 1) + d * d
    }
}

/// Squared differences of all pixels, summed.
pub fn sum_squared_error(test: &[u32], truth: &[u32]) -> (sum: u128)
    requires
        test.len() == truth.len(),
    ensures
        sum == squared_error(test@, truth@, test.len() as int),
        sum <= 65_025 * test.len(),
{
    let n: usize = test.len();
    let mut sum: u128 = 0;
    let mut i: usize = 0;
    while i < n
        invariant
            i <= n,
            n == test.len() == truth.len(),
            sum == squared_error(test@, truth@, i as int),
            sum <= 65_025 * i,
        decreases n - i,
    {
        let a: i32 = (test[i] % 256) as i32;
        let b: i32 = (truth[i] % 256) as i32;
        let d: i32 = a - b;
        assert(0 <= d * d <= 65_025) by (nonlinear_arith)
            requires
                -255 <= d <= 255,
        ;
        sum = sum + (d * d) as u128;
        i += 1;
    }
    sum
}

/// Squared gradient at a pixel: forward differences to the right and down.
pub open spec fn squared_gradient(frame: Seq<u32>, width: int, i: int) -> int {
    let dx = luma_byte(frame[i + 1]) - luma_byte(frame[i]);
    let dy = luma_byte(frame[i + width]) - luma_byte(frame[i]);
    dx * dx + dy * dy
}

/// Squared gradients row by row, without the last row and column.
pub open spec fn squared_gradients(frame: Seq<u32>, width: int, height: int) -> Seq<u32> {
    Seq::new(
        ((height - 1) * (width - 1)) as nat,
        |k: int|
            squared_gradient(frame, width, k / (width - 1) * width + k % (width - 1)) as u32,
    )
}

/// The squared gradients of a frame.
pub fn gradients(frame: &[u32], width: usize, height: usize) -> (out: Vec<u32>)
    requires
        1 <= width,
        1 <= height,
        frame.len() == width * height,
    ensures
        out@ == squared_gradients(frame@, width as int, height as int),
{
    let ghost whole = squared_gradients(frame@, width as int, height as int);
    let ghost w = width as int;
    let ghost inner = w - 1;
    let mut out: Vec<u32> = Vec::new();
    if width == 1 {
        assert((height - 1) * 0 == 0);
        assert(out@ =~= whole);
        return out;
    }
    let mut y: usize = 0;
    assert(0 * inner == 0);
    while y < height - 1
        invariant
            2 <= width,
            1 <= height,
            w == width,
            inner == w - 1,
            frame.len() == width * height,
            y <= height - 1,
            whole == squared_gradients(frame@, w, height as int),
            out.len() == y * inner,
            out@ == whole.take(y * inner),
        decreases height - y,
    {
        let mut x: usize = 0;
        proof {
            crate::video::scan::lemma_cells(inner, height - 1, y as int);
            crate::video::scan::lemma_cells(w, height as int, y + 1);
            crate::video::scan::lemma_cells(w, height as int, y as int);
        }
        while x < width - 1
            invariant
                2 <= width,
                w == width,
                inner == w - 1,
                y < height - 1,
                frame.len() == width * height,
                (y + 1) * w == y * w + w,
                (y + 1) * w + w <= height * w,
                0 <= y * w,
                whole == squared_gradients(frame@, w, height as int),
                y * inner + inner <= (height - 1) * inner,
                x <= width - 1,
                out.len() == y * inner + x,
                out@ == whole.take(y * inner + x),
            decreases width - x,
        {
            proof {
                crate::video::scan::lemma_cell(inner, y as int, x as int);
                assert(height * w == width * height) by (nonlinear_arith)
                    requires
                        w == width,
                ;
            }
            let i: usize = y * width + x;
            let c: i32 = (frame[i] % 256) as i32;
            let dx: i32 = (frame[i + 1] % 256) as i32 - c;
            let dy: i32 = (frame[i + width] % 256) as i32 - c;
            assert(0 <= dx * dx <= 65_025 && 0 <= dy * dy <= 65_025) by (nonlinear_arith)
                requires
                    -255 <= dx <= 255,
                    -255 <= dy <= 255,
            ;
            out.push((dx * dx + dy * dy) as u32);
            assert(whole[y * inner + x] == out@[y * inner + x]);
            x += 1;
            assert(out@ =~= whole.take(y * inner + x));
        }
        y += 1;
    }
    assert(out@ =~= whole);
    out
}

/// A frame has no error against itself.
pub proof fn law_identical_frames_have_no_error(frame: Seq<u32>, n: int)
    ensures
        squared_error(frame, frame, n) == 0,
    decreases n,
{
    if n > 0 {
        law_identical_frames_have_no_error(frame, n - 1);
    }
}

/// Frames without an error have the same luma everywhere.
pub proof fn law_no_error_means_same_luma(test: Seq<u32>, truth: Seq<u32>, n: int, i: int)
    requires
        squared_error(test, truth, n) == 0,
        0 <= i < n,
    ensures
        luma_byte(test[i]) == luma_byte(truth[i]),
    decreases n,
{
    lemma_error_bounds(test, truth, n - 1);
    let d = luma_byte(test[n - 1]) - luma_byte(truth[n - 1]);
    assert(d * d >= 0 && (d * d == 0 ==> d == 0)) by (nonlinear_arith);
    if i < n - 1 {
        law_no_error_means_same_luma(test, truth, n - 1, i);
    }
}

proof fn lemma_error_bounds(test: Seq<u32>, truth: Seq<u32>, n: int)
    ensures
        0 <= squared_error(test, truth, n),
    decreases n,
{
    if n > 0 {
        lemma_error_bounds(test, truth, n - 1);
        let d = luma_byte(test[n - 1]) - luma_byte(truth[n - 1]);
        assert(d * d >= 0) by (nonlinear_arith);
    }
}

/// Where two frames differ by the same amount everywhere, each pixel adds its
/// square; and it does not matter which of the two is the truth.
pub proof fn law_error_adds_squares(test: Seq<u32>, truth: Seq<u32>, n: int, d: int)
    requires
        0 <= n,
        forall|i: int| 0 <= i < n ==> #[trigger] test[i] % 256 == truth[i] % 256 + d,
    ensures
        squared_error(test, truth, n) == n * (d * d),
        squared_error(truth, test, n) == n * (d * d),
    decreases n,
{
    if n > 0 {
        law_error_adds_squares(test, truth, n - 1, d);
        assert(test[n - 1] % 256 == truth[n - 1] % 256 + d);
        assert((-d) * (-d) == d * d) by (nonlinear_arith);
        assert((n - 1) * (d * d) + d * d == n * (d * d)) by (nonlinear_arith);
    } else {
        assert(0 * (d * d) == 0);
    }
}

/// The gradient at a pixel is the sum of the squares of the steps to its right
/// and lower neighbours, kept in the place of the pixel in a frame that is one
/// row and one column smaller.
pub proof fn law_gradients_lie_at_their_pixels(
    frame: Seq<u32>,
    width: int,
    height: int,
    row: int,
    col: int,
)
    requires
        2 <= width,
        0 <= row < height - 1,
        0 <= col < width - 1,
    ensures
        ({
            let here = frame[row * width + col] % 256;
            let right = frame[row * width + col + 1] % 256;
            let below = frame[(row + 1) * width + col] % 256;
            &&& squared_gradients(frame, width, height).len() == (height - 1) * (width - 1)
            &&& squared_gradients(frame, width, height)[row * (width - 1) + col] == (right - here)
                * (right - here) + (below - here) * (below - here)
        }),
{
    let k = row * (width - 1) + col;
    assert(k / (width - 1) == row && k % (width - 1) == col && 0 <= k < (height - 1) * (width - 1))
        by (nonlinear_arith)
        requires
            k == row * (width - 1) + col,
            0 <= row < height - 1,
            0 <= col < width - 1,
    ;
    assert((row + 1) * width == row * width + width) by (nonlinear_arith);
    let i = row * width + col;
    let dx = luma_byte(frame[i + 1]) - luma_byte(frame[i]);
    let dy = luma_byte(frame[i + width]) - luma_byte(frame[i]);
    assert(0 <= dx * dx <= 65_025) by (nonlinear_arith)
        requires
            -255 <= dx <= 255,
    ;
    assert(0 <= dy * dy <= 65_025) by (nonlinear_arith)
        requires
            -255 <= dy <= 255,
    ;
}

} // verus!
