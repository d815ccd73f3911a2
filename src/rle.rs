use vstd::prelude::*;

use crate::error::TgaError;
use crate::image::{pixel, view_wf, TGAImage};

verus! {

/// Longest run one RLE packet can carry.
pub const MAX_RUN: usize = 128;

/// How many pixels after the first `k + 1` of the run at `p` still repeat the
/// pixel before them, with the run capped at 128 pixels and at the image end.
pub open spec fn run_extra(d: Seq<u8>, bpp: nat, npx: nat, p: int, k: nat) -> nat
    decreases 127 - k,
{
    if k < 127 && p + k + 1 < npx && pixel(d, bpp, p + k) == pixel(d, bpp, p + k + 1) {
        1 + run_extra(d, bpp, npx, p, k + 1)
    } else {
        0
    }
}

/// Number of identical consecutive pixels from pixel `p` on, at most 128.
pub open spec fn run_length(d: Seq<u8>, bpp: nat, npx: nat, p: int) -> nat {
    1 + run_extra(d, bpp, npx, p, 0)
}

/// Header byte of a packet for `run` pixels: a raw packet of one pixel, or an
/// RLE packet with the run length minus one under the high bit.
pub open spec fn packet_header(run: nat) -> u8 {
    if run == 1 {
        0u8
    } else {
        (128 + run - 1) as u8
    }
}

/// RLE packets for pixels `p..npx` of `d`.
pub open spec fn encode_from(d: Seq<u8>, bpp: nat, npx: nat, p: int) -> Seq<u8>
    decreases npx - p,
{
    if p >= npx {
        seq![]
    } else {
        let run = run_length(d, bpp, npx, p);
        let next = if p + run < npx {
            p + run
        } else {
            npx as int
        };
        seq![packet_header(run)] + pixel(d, bpp, p) + encode_from(d, bpp, npx, next)
    }
}

/// `count` copies of the pixel bytes `px`.
pub open spec fn repeat_pixel(px: Seq<u8>, count: nat) -> Seq<u8>
    decreases count,
{
    if count == 0 {
        seq![]
    } else {
        repeat_pixel(px, (count - 1) as nat) + px
    }
}

/// `a` put in front of a successful result; an error passes through.
pub open spec fn prepend(a: Seq<u8>, r: Result<Seq<u8>, TgaError>) -> Result<Seq<u8>, TgaError> {
    match r {
        Ok(rest) => Ok(a + rest),
        Err(e) => Err(e),
    }
}

/// Pixels a packet with header byte `p` stands for.
pub open spec fn packet_count(p: u8) -> nat {
    if p >= 128 {
        (p - 127) as nat
    } else {
        (p + 1) as nat
    }
}

/// Bytes that follow the header byte `p` of a packet.
pub open spec fn packet_body_len(p: u8, bpp: nat) -> nat {
    if p >= 128 {
        bpp
    } else {
        packet_count(p) * bpp
    }
}

/// Decoding `remaining` pixels of `bpp` bytes from the packets that start at
/// `pos` in `s`.
pub open spec fn decode_from(s: Seq<u8>, pos: int, bpp: nat, remaining: nat) -> Result<
    Seq<u8>,
    TgaError,
>
    decreases remaining,
{
    if remaining == 0 {
        Ok(seq![])
    } else if pos < 0 || pos >= s.len() {
        Err(TgaError::Truncated)
    } else {
        let p = s[pos];
        let count = packet_count(p);
        let body = packet_body_len(p, bpp);
        if count > remaining {
            Err(TgaError::PacketOverrun)
        } else if pos + 1 + body > s.len() {
            Err(TgaError::Truncated)
        } else {
            let chunk = if p >= 128 {
                repeat_pixel(s.subrange(pos + 1, pos + 1 + bpp), count)
            } else {
                s.subrange(pos + 1, pos + 1 + body)
            };
            prepend(chunk, decode_from(s, pos + 1 + body, bpp, (remaining - count) as nat))
        }
    }
}

/// A run repeats one pixel, so its bytes number `count * bpp`.
pub proof fn lemma_repeat_len(px: Seq<u8>, count: nat)
    ensures
        repeat_pixel(px, count).len() == count * px.len(),
    decreases count,
{
    if count > 0 {
        let c1 = (count - 1) as nat;
        lemma_repeat_len(px, c1);
        assert(repeat_pixel(px, count) == repeat_pixel(px, c1) + px);
        assert(count * px.len() == c1 * px.len() + px.len()) by (nonlinear_arith)
            requires
                c1 == count - 1,
        ;
    } else {
        assert(count * px.len() == 0) by (nonlinear_arith)
            requires
                count == 0,
        ;
    }
}

/// Decoding yields exactly `remaining * bpp` bytes when it succeeds.
pub proof fn lemma_decode_len(s: Seq<u8>, pos: int, bpp: nat, remaining: nat)
    ensures
        decode_from(s, pos, bpp, remaining) matches Ok(out) ==> out.len() == remaining * bpp,
    decreases remaining,
{
    if remaining == 0 {
        assert(remaining * bpp == 0) by (nonlinear_arith)
            requires
                remaining == 0,
        ;
    }
    if remaining > 0 && 0 <= pos < s.len() {
        let p = s[pos];
        let count = packet_count(p);
        let body = packet_body_len(p, bpp);
        if count <= remaining && pos + 1 + body <= s.len() {
            let r1 = (remaining - count) as nat;
            lemma_decode_len(s, pos + 1 + body, bpp, r1);
            let chunk = if p >= 128 {
                repeat_pixel(s.subrange(pos + 1, pos + 1 + bpp), count)
            } else {
                s.subrange(pos + 1, pos + 1 + body)
            };
            if p >= 128 {
                lemma_repeat_len(s.subrange(pos + 1, pos + 1 + bpp), count);
            }
            assert(chunk.len() == count * bpp);
            assert(decode_from(s, pos, bpp, remaining) == prepend(
                chunk,
                decode_from(s, pos + 1 + body, bpp, r1),
            ));
            assert(remaining * bpp == count * bpp + r1 * bpp) by (nonlinear_arith)
                requires
                    r1 == remaining - count,
            ;
        }
    }
}

/// The last pixel of a buffer of `npx` pixels ends inside it.
pub proof fn lemma_pixel_fits(p: int, npx: int, bpp: int)
    requires
        0 <= p < npx,
        bpp > 0,
    ensures
        0 <= p * bpp,
        p * bpp + bpp <= npx * bpp,
{
    assert(0 <= p * bpp && p * bpp + bpp <= npx * bpp) by (nonlinear_arith)
        requires
            0 <= p < npx,
            bpp > 0,
    ;
}

/// Appends `src[from..from + len]` to `out`.
pub(crate) fn push_slice(out: &mut Vec<u8>, src: &[u8], from: usize, len: usize)
    requires
        from + len <= src@.len(),
    ensures
        final(out)@ == old(out)@ + src@.subrange(from as int, from + len),
{
    let n = src.len();
    let mut t: usize = 0;
    while t < len
        invariant
            from + len <= src@.len(),
            n == src@.len(),
            t <= len,
            out@ == old(out)@ + src@.subrange(from as int, from + t),
        decreases len - t,
    {
        out.push(src[from + t]);
        t = t + 1;
        assert(out@ =~= old(out)@ + src@.subrange(from as int, from + t));
    }
}

/// Whether pixels `a` and `b` hold the same bytes.
fn same_pixel(d: &[u8], bpp: usize, a: usize, b: usize) -> (r: bool)
    requires
        a * bpp + bpp <= d@.len(),
        b * bpp + bpp <= d@.len(),
    ensures
        r == (pixel(d@, bpp as nat, a as int) == pixel(d@, bpp as nat, b as int)),
{
    let n = d.len();
    let mut t: usize = 0;
    while t < bpp
        invariant
            n == d@.len(),
            a * bpp + bpp <= d@.len(),
            b * bpp + bpp <= d@.len(),
            t <= bpp,
            forall|u: int|
                0 <= u < t ==> #[trigger] pixel(d@, bpp as nat, a as int)[u] == pixel(
                    d@,
                    bpp as nat,
                    b as int,
                )[u],
        decreases bpp - t,
    {
        if d[a * bpp + t] != d[b * bpp + t] {
            assert(pixel(d@, bpp as nat, a as int)[t as int] != pixel(d@, bpp as nat, b as int)[t as int]);
            return false;
        }
        t = t + 1;
    }
    assert(pixel(d@, bpp as nat, a as int) =~= pixel(d@, bpp as nat, b as int));
    true
}

/// Decodes `npx` pixels of `bpp` bytes from the RLE packets that start at
/// `pos` in `input`. Bytes after the last packet are left alone.
pub fn decode_rle(input: &[u8], pos: usize, bpp: usize, npx: usize) -> (r: Result<Vec<u8>, TgaError>)
    requires
        bpp == 3 || bpp == 4,
    ensures
        match r {
            Ok(v) => decode_from(input@, pos as int, bpp as nat, npx as nat) == Ok::<Seq<u8>, TgaError>(v@),
            Err(e) => decode_from(input@, pos as int, bpp as nat, npx as nat) == Err::<Seq<u8>, TgaError>(e),
        },
{
    let ghost s = input@;
    let mut out: Vec<u8> = Vec::new();
    let mut at: usize = pos;
    let mut left: usize = npx;
    let n = input.len();
    while left > 0
        invariant
            bpp == 3 || bpp == 4,
            s == input@,
            n == s.len(),
            decode_from(s, pos as int, bpp as nat, npx as nat) == prepend(
                out@,
                decode_from(s, at as int, bpp as nat, left as nat),
            ),
        decreases left,
    {
        if at >= input.len() {
            return Err(TgaError::Truncated);
        }
        let p = input[at];
        let count: usize = if p >= 128 {
            (p - 127) as usize
        } else {
            p as usize + 1
        };
        if count > left {
            return Err(TgaError::PacketOverrun);
        }
        assert(count * bpp <= 512) by (nonlinear_arith)
            requires
                count <= 128,
                bpp <= 4,
        ;
        let body: usize = if p >= 128 {
            bpp
        } else {
            count * bpp
        };
        if body > input.len() - at - 1 {
            return Err(TgaError::Truncated);
        }
        let ghost out0 = out@;
        if p >= 128 {
            let mut c: usize = 0;
            while c < count
                invariant
                    c <= count,
                    at + 1 + bpp <= s.len(),
                    s == input@,
                    n == s.len(),
                    out@ == out0 + repeat_pixel(s.subrange(at + 1, at + 1 + bpp), c as nat),
                decreases count - c,
            {
                push_slice(&mut out, input, at + 1, bpp);
                c = c + 1;
            }
        } else {
            push_slice(&mut out, input, at + 1, body);
        }
        proof {
            let chunk = if p >= 128 {
                repeat_pixel(s.subrange(at + 1, at + 1 + bpp), count as nat)
            } else {
                s.subrange(at + 1, at + 1 + body)
            };
            assert(out@ =~= out0 + chunk);
            assert(count == packet_count(p) && body == packet_body_len(p, bpp as nat));
            let rest = decode_from(s, at + 1 + body, bpp as nat, (left - count) as nat);
            match rest {
                Ok(rs) => {
                    assert(out0 + (chunk + rs) =~= out@ + rs);
                },
                Err(_) => {},
            }
        }
        at = at + 1 + body;
        left = left - count;
    }
    assert(out@ + seq![] =~= out@);
    Ok(out)
}

/// RLE packets for the whole image, encoding every pixel.
pub open spec fn rle_encode(d: Seq<u8>, bpp: nat, npx: nat) -> Seq<u8> {
    encode_from(d, bpp, npx, 0)
}

/// A run stays inside the image and under 128 pixels, and every pixel in it
/// repeats the one it started from.
proof fn lemma_run_facts(d: Seq<u8>, bpp: nat, npx: nat, p: int, k: nat)
    requires
        0 <= p,
        p + k < npx,
        k <= 127,
    ensures
        k + run_extra(d, bpp, npx, p, k) <= 127,
        p + k + run_extra(d, bpp, npx, p, k) < npx,
        forall|j: int|
            k <= j <= k + run_extra(d, bpp, npx, p, k) ==> #[trigger] pixel(d, bpp, p + j) == pixel(
                d,
                bpp,
                p + k,
            ),
    decreases 127 - k,
{
    if k < 127 && p + k + 1 < npx && pixel(d, bpp, p + k) == pixel(d, bpp, p + k + 1) {
        lemma_run_facts(d, bpp, npx, p, k + 1);
    }
}

/// `r` copies of a pixel are the bytes of `r` pixels that all equal it.
proof fn lemma_repeat_run(d: Seq<u8>, bpp: nat, p: int, r: nat)
    requires
        0 <= p,
        (p + r) * bpp <= d.len(),
        forall|j: int| 0 <= j < r ==> #[trigger] pixel(d, bpp, p + j) == pixel(d, bpp, p),
    ensures
        repeat_pixel(pixel(d, bpp, p), r) == d.subrange(p * bpp, (p + r) * bpp),
    decreases r,
{
    if r == 0 {
        assert(d.subrange(p * bpp, (p + r) * bpp) =~= seq![]);
    } else {
        let r1 = (r - 1) as nat;
        let a = p * bpp;
        let b = (p + r1) * bpp;
        let c = (p + r) * bpp;
        assert(b + bpp == c && a <= b && 0 <= a) by (nonlinear_arith)
            requires
                r1 == r - 1,
                0 <= p,
                r >= 1,
                a == p * bpp,
                b == (p + r1) * bpp,
                c == (p + r) * bpp,
        ;
        lemma_repeat_run(d, bpp, p, r1);
        assert(pixel(d, bpp, p + r1) == pixel(d, bpp, p));
        assert(repeat_pixel(pixel(d, bpp, p), r) == d.subrange(a, b) + d.subrange(b, c)) by {
            assert(pixel(d, bpp, p + r1) == d.subrange(b, c));
        }
        assert(d.subrange(a, c) =~= d.subrange(a, b) + d.subrange(b, c)) by {
            assert(c <= d.len());
        }
    }
}

/// Decoding the packets that encode pixels `p..npx` gives back their bytes,
/// whatever precedes and follows the packets.
pub proof fn lemma_decode_encode(d: Seq<u8>, bpp: nat, npx: nat, p: int, pre: Seq<u8>, suf: Seq<u8>)
    requires
        d.len() == npx * bpp,
        bpp > 0,
        0 <= p <= npx,
    ensures
        decode_from(pre + encode_from(d, bpp, npx, p) + suf, pre.len() as int, bpp, (npx - p) as nat)
            == Ok::<Seq<u8>, TgaError>(d.subrange(p * bpp, (npx * bpp) as int)),
    decreases npx - p,
{
    let s = pre + encode_from(d, bpp, npx, p) + suf;
    if p == npx {
        assert(d.subrange(p * bpp, (npx * bpp) as int) =~= seq![]);
    } else {
        let run = run_length(d, bpp, npx, p);
        lemma_run_facts(d, bpp, npx, p, 0);
        let px = pixel(d, bpp, p);
        let hdr = packet_header(run);
        let pre2 = pre + seq![hdr] + px;
        let rest = encode_from(d, bpp, npx, p + run);
        assert(0 <= p * bpp && p * bpp + bpp <= npx * bpp && (p + run) * bpp <= npx * bpp
            && (p + 1) * bpp == p * bpp + bpp && p * bpp <= (p + run) * bpp) by (nonlinear_arith)
            requires
                0 <= p < npx,
                1 <= run,
                p + run <= npx,
        ;
        assert(px.len() == bpp);
        assert(s =~= pre2 + rest + suf);
        let pos = pre.len() as int;
        assert(s[pos] == hdr);
        assert(s.subrange(pos + 1, pos + 1 + bpp) =~= px);
        let r1 = (npx - p - run) as nat;
        lemma_decode_encode(d, bpp, npx, p + run, pre2, suf);
        assert forall|j: int| 0 <= j < run implies #[trigger] pixel(d, bpp, p + j) == pixel(d, bpp, p) by {
            assert(pixel(d, bpp, p + j) == pixel(d, bpp, p + 0));
        }
        lemma_repeat_run(d, bpp, p, run);
        if run == 1 {
            assert(packet_count(hdr) == 1);
            assert(1 * bpp == bpp);
            assert(repeat_pixel(px, 1) =~= px) by {
                assert(repeat_pixel(px, 0) =~= seq![]);
            }
        } else {
            assert(hdr == 127 + run);
            assert(packet_count(hdr) == run);
        }
        let chunk = d.subrange(p * bpp, (p + run) * bpp);
        assert(decode_from(s, pos, bpp, (npx - p) as nat) == prepend(
            chunk,
            decode_from(s, pos + 1 + bpp, bpp, r1),
        ));
        assert(chunk + d.subrange((p + run) * bpp, (npx * bpp) as int) =~= d.subrange(p * bpp, (npx * bpp) as int));
    }
}

/// Packets for `m` pixels that all equal `px`: full runs of 128, then one
/// packet for what is left.
pub open spec fn uniform_packets(px: Seq<u8>, m: nat) -> Seq<u8>
    decreases m,
{
    if m == 0 {
        seq![]
    } else if m <= 128 {
        seq![packet_header(m)] + px
    } else {
        seq![packet_header(128)] + px + uniform_packets(px, (m - 128) as nat)
    }
}

/// `ceil(m / 128)` packets of one header byte and one pixel each.
pub proof fn lemma_uniform_packets_len(px: Seq<u8>, m: nat)
    ensures
        uniform_packets(px, m).len() == ((m + 127) / 128) * (px.len() + 1),
    decreases m,
{
    if m > 128 {
        lemma_uniform_packets_len(px, (m - 128) as nat);
        let q = ((m - 128) as nat + 127) / 128;
        assert((m + 127) / 128 == q + 1);
        assert((q + 1) * (px.len() + 1) == q * (px.len() + 1) + px.len() + 1) by (nonlinear_arith);
    } else if m > 0 {
        assert((m + 127) / 128 == 1);
        assert(1 * (px.len() + 1) == px.len() + 1);
    } else {
        assert((m + 127) / 128 == 0);
        assert(0 * (px.len() + 1) == 0);
    }
}

proof fn lemma_uniform_run(d: Seq<u8>, bpp: nat, npx: nat, p: int, k: nat, px: Seq<u8>)
    requires
        forall|q: int| 0 <= q < npx ==> #[trigger] pixel(d, bpp, q) == px,
        0 <= p,
        p + k < npx,
        k <= 127,
    ensures
        run_extra(d, bpp, npx, p, k) == if 127 - k < npx - p - 1 - k {
            127 - k
        } else {
            npx - p - 1 - k
        },
    decreases 127 - k,
{
    if k < 127 && p + k + 1 < npx {
        assert(pixel(d, bpp, p + k) == px);
        assert(pixel(d, bpp, p + k + 1) == px);
        lemma_uniform_run(d, bpp, npx, p, k + 1, px);
    }
}

/// An image whose pixels all hold the same bytes encodes as runs of 128
/// pixels followed by one packet for the rest: `ceil(npx / 128)` packets in all.
pub proof fn lemma_encode_uniform(d: Seq<u8>, bpp: nat, npx: nat, px: Seq<u8>)
    requires
        px.len() == bpp,
        forall|q: int| 0 <= q < npx ==> #[trigger] pixel(d, bpp, q) == px,
    ensures
        rle_encode(d, bpp, npx) == uniform_packets(px, npx),
        rle_encode(d, bpp, npx).len() == ((npx + 127) / 128) * (bpp + 1),
{
    lemma_encode_uniform_from(d, bpp, npx, 0, px);
    lemma_uniform_packets_len(px, npx);
}

proof fn lemma_encode_uniform_from(d: Seq<u8>, bpp: nat, npx: nat, p: int, px: Seq<u8>)
    requires
        forall|q: int| 0 <= q < npx ==> #[trigger] pixel(d, bpp, q) == px,
        0 <= p <= npx,
    ensures
        encode_from(d, bpp, npx, p) == uniform_packets(px, (npx - p) as nat),
    decreases npx - p,
{
    if p < npx {
        lemma_uniform_run(d, bpp, npx, p, 0, px);
        let run = run_length(d, bpp, npx, p);
        lemma_encode_uniform_from(d, bpp, npx, p + run, px);
        assert(pixel(d, bpp, p) == px);
        let m = (npx - p) as nat;
        if m > 128 {
            assert(((m - 128) as nat) == (npx - (p + run)) as nat);
        }
    }
}

impl TGAImage {
    /// The image's pixels as RLE packets, in row-major order. A run of two to
    /// 128 identical pixels becomes one RLE packet; any other pixel becomes a
    /// raw packet of that single pixel.
    pub fn write_rle_data(&self) -> (r: Vec<u8>)
        requires
            self.wf(),
        ensures
            r@ == rle_encode(self@.data, self@.bpp, self@.width * self@.height),
    {
        let d = self.pixel_bytes();
        let dlen = d.len();
        let bpp = self.bytes_per_pixel();
        let w = self.width();
        let h = self.height();
        assert(w * h <= w * h * bpp) by (nonlinear_arith)
            requires
                bpp >= 1,
        ;
        let npx = w * h;
        let ghost nn = npx as nat;
        let mut out: Vec<u8> = Vec::new();
        let mut p: usize = 0;
        while p < npx
            invariant
                bpp == 3 || bpp == 4,
                d@.len() == npx * bpp,
                dlen == d@.len(),
                nn == npx,
                p <= npx,
                rle_encode(d@, bpp as nat, nn) == out@ + encode_from(d@, bpp as nat, nn, p as int),
            decreases npx - p,
        {
            let mut run: usize = 1;
            loop
                invariant
                    bpp == 3 || bpp == 4,
                    d@.len() == npx * bpp,
                    nn == npx,
                    p < npx,
                    1 <= run <= 128,
                    p + run <= npx,
                    dlen == d@.len(),
                    run_length(d@, bpp as nat, nn, p as int) == run + run_extra(
                        d@,
                        bpp as nat,
                        nn,
                        p as int,
                        (run - 1) as nat,
                    ),
                ensures
                    1 <= run <= 128,
                    p + run <= npx,
                    run_extra(d@, bpp as nat, nn, p as int, (run - 1) as nat) == 0,
                    run_length(d@, bpp as nat, nn, p as int) == run,
                decreases 128 - run,
            {
                if run >= MAX_RUN || p + run >= npx {
                    break;
                }
                proof {
                    lemma_pixel_fits((p + run - 1) as int, npx as int, bpp as int);
                    lemma_pixel_fits((p + run) as int, npx as int, bpp as int);
                }
                if !same_pixel(d, bpp, p + run - 1, p + run) {
                    break;
                }
                run = run + 1;
            }
            let hdr: u8 = if run == 1 {
                0
            } else {
                (128 + run - 1) as u8
            };
            proof {
                lemma_pixel_fits(p as int, npx as int, bpp as int);
            }
            let ghost out0 = out@;
            out.push(hdr);
            push_slice(&mut out, d, p * bpp, bpp);
            proof {
                assert(out@ =~= out0 + seq![hdr] + pixel(d@, bpp as nat, p as int));
                assert(out0 + (seq![hdr] + pixel(d@, bpp as nat, p as int) + encode_from(
                    d@,
                    bpp as nat,
                    nn,
                    p + run,
                )) =~= out@ + encode_from(d@, bpp as nat, nn, p + run));
            }
            p = p + run;
        }
        assert(out@ + seq![] =~= out@);
        out
    }
}

} // verus!
