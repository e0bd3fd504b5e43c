//! Frames as portable pixmaps.

use vstd::prelude::*;

use crate::text::{decimal, digit_char};

verus! {

/// Characters as bytes.
pub open spec fn ascii(text: Seq<char>) -> Seq<u8> {
    text.map_values(|c: char| c as u8)
}

/// Red, green or blue of a pixel.
pub open spec fn channel(pixel: u32, k: int) -> u8 {
    (if k == 0 {
        pixel / 0x1_0000 % 0x100
    } else if k == 1 {
        pixel / 0x100 % 0x100
    } else {
        pixel % 0x100
    }) as u8
}

/// Magic number, dimensions and depth.
pub open spec fn ppm_header(width: nat, height: nat) -> Seq<u8> {
    seq![80u8, 54u8, 10u8] + ascii(decimal(width)) + seq![32u8] + ascii(decimal(height)) + seq![
        10u8,
        50u8,
        53u8,
        53u8,
        10u8,
    ]
}

/// A frame as a portable pixmap: the header, then three bytes per pixel.
pub open spec fn ppm(width: nat, height: nat, frame: Seq<u32>) -> Seq<u8> {
    ppm_header(width, height) + Seq::new(3 * frame.len(), |i: int| channel(frame[i / 3], i % 3))
}

/// Append a number in decimal notation.
fn push_number(out: &mut Vec<u8>, n: usize)
    ensures
        final(out)@ == old(out)@ + ascii(decimal(n as nat)),
    decreases n,
{
    let ghost start = out@;
    if n >= 10 {
        push_number(out, n / 10);
    }
    let digit: u8 = 48 + (n % 10) as u8;
    out.push(digit);
    proof {
        assert(digit_char((n % 10) as nat) as u8 == digit);
        assert(ascii(decimal(n as nat)) =~= if n >= 10 {
            ascii(decimal((n / 10) as nat)).push(digit)
        } else {
            seq![digit]
        });
        assert(out@ =~= start + ascii(decimal(n as nat)));
    }
}

/// A frame as a portable pixmap.
pub fn ppm_bytes(width: usize, height: usize, frame: &[u32]) -> (out: Vec<u8>)
    ensures
        out@ == ppm(width as nat, height as nat, frame@),
{
    let mut out: Vec<u8> = Vec::new();
    out.push(80);
    out.push(54);
    out.push(10);
    push_number(&mut out, width);
    out.push(32);
    push_number(&mut out, height);
    out.push(10);
    out.push(50);
    out.push(53);
    out.push(53);
    out.push(10);
    let ghost head = ppm_header(width as nat, height as nat);
    assert(out@ =~= head);
    let ghost body = Seq::new(3 * frame@.len(), |i: int| channel(frame@[i / 3], i % 3));
    let mut k: usize = 0;
    assert(head + body.take(0) =~= head);
    while k < frame.len()
        invariant
            k <= frame.len(),
            body == Seq::new(3 * frame@.len(), |i: int| channel(frame@[i / 3], i % 3)),
            out@ == head + body.take(3 * k),
        decreases frame.len() - k,
    {
        let p: u32 = frame[k];
        out.push((p / 0x1_0000 % 0x100) as u8);
        out.push((p / 0x100 % 0x100) as u8);
        out.push((p % 0x100) as u8);
        proof {
            assert(body[3 * k] == channel(p, 0));
            assert(body[3 * k + 1] == channel(p, 1));
            assert(body[3 * k + 2] == channel(p, 2));
            assert(out@ =~= head + body.take(3 * k + 3));
        }
        k += 1;
    }
    assert(body.take(3 * k) =~= body);
    out
}

/// A pixmap is exactly its header and three bytes for each pixel.
pub proof fn law_pixmap_length(width: nat, height: nat, frame: Seq<u32>)
    ensures
        ppm(width, height, frame).len() == ppm_header(width, height).len() + 3 * frame.len(),
{
}

/// A pixmap begins with its magic number.
pub proof fn law_pixmap_begins_with_its_magic_number(width: nat, height: nat, frame: Seq<u32>)
    ensures
        ({
            let bytes = ppm(width, height, frame);
            bytes[0] == 'P' as u8 && bytes[1] == '6' as u8 && bytes[2] == '\n' as u8
        }),
{
    let a = seq![80u8, 54u8, 10u8];
    let b = a + ascii(decimal(width));
    let c = b + seq![32u8];
    let d = c + ascii(decimal(height));
    assert(a[0] == 80 && a[1] == 54 && a[2] == 10);
    assert(b[0] == a[0] && b[1] == a[1] && b[2] == a[2]);
    assert(c[0] == b[0] && c[1] == b[1] && c[2] == b[2]);
    assert(d[0] == c[0] && d[1] == c[1] && d[2] == c[2]);
    let head = ppm_header(width, height);
    assert(head[0] == d[0] && head[1] == d[1] && head[2] == d[2]);
    let bytes = ppm(width, height, frame);
    assert(bytes[0] == head[0] && bytes[1] == head[1] && bytes[2] == head[2]);
}

/// After the header each pixel has three bytes in its place, red first, which
/// together are the pixel without its top byte.
pub proof fn law_pixels_follow_the_header(width: nat, height: nat, frame: Seq<u32>, k: int)
    requires
        0 <= k < frame.len(),
    ensures
        ({
            let bytes = ppm(width, height, frame).skip(ppm_header(width, height).len() as int);
            bytes[3 * k] * 0x1_0000 + bytes[3 * k + 1] * 0x100 + bytes[3 * k + 2] == frame[k]
                % 0x100_0000
        }),
{
    let head = ppm_header(width, height);
    let rest = Seq::new(3 * frame.len(), |i: int| channel(frame[i / 3], i % 3));
    let bytes = (head + rest).skip(head.len() as int);
    assert(bytes =~= rest);
    assert((3 * k) / 3 == k && (3 * k) % 3 == 0);
    assert((3 * k + 1) / 3 == k && (3 * k + 1) % 3 == 1);
    assert((3 * k + 2) / 3 == k && (3 * k + 2) % 3 == 2);
    lemma_channels(frame[k]);
}

proof fn lemma_channels(pixel: u32)
    ensures
        channel(pixel, 0) * 0x1_0000 + channel(pixel, 1) * 0x100 + channel(pixel, 2) == pixel
            % 0x100_0000,
{
}

} // verus!
