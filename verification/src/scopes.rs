//! Video scopes: the 64×36 analysis grid sampled from a frame, the RGB
//! parade drawn from it and the per-channel histogram counts. (Luma and
//! chroma are weighted sums in floating point and are worked out by the
//! caller.)

use vstd::prelude::*;

verus! {

/// One grid sample: red, green, blue.
pub type Rgb = (u8, u8, u8);

// ------------------------------------------------------------------ grid

/// Byte offset in an RGBA frame of `w`×`h` of the pixel that grid cell
/// (`ax`, `ay`) samples.
pub open spec fn grid_offset(ax: int, ay: int, w: int, h: int) -> int {
    let sx = if ax * w / 64 < w - 1 {
        ax * w / 64
    } else {
        w - 1
    };
    let sy = if ay * h / 36 < h - 1 {
        ay * h / 36
    } else {
        h - 1
    };
    (sy * w + sx) * 4
}

/// Grid cell `k` (row-major): the sampled pixel's colour, or black when the
/// frame buffer is too short to hold it.
pub open spec fn grid_cell(buf: Seq<u8>, w: int, h: int, k: int) -> Rgb {
    let i = grid_offset(k % 64, k / 64, w, h);
    if i + 2 < buf.len() {
        (buf[i], buf[i + 1], buf[i + 2])
    } else {
        (0u8, 0u8, 0u8)
    }
}

pub open spec fn spec_analysis_grid(buf: Seq<u8>, w: int, h: int) -> Seq<Rgb> {
    Seq::new(2304, |k: int| grid_cell(buf, w, h, k))
}

/// The frame sampled on a 64×36 grid (nearest pixel).
pub fn analysis_grid(w: u32, h: u32, buf: &[u8]) -> (r: Vec<Rgb>)
    requires
        w >= 1,
        h >= 1,
        (w as int) * 64 <= usize::MAX,
        (h as int) * 36 <= usize::MAX,
        (w as int) * (h as int) * 4 <= usize::MAX,
    ensures
        r@ == spec_analysis_grid(buf@, w as int, h as int),
{
    let wu = w as usize;
    let hu = h as usize;
    let mut out: Vec<Rgb> = Vec::new();
    let mut k: usize = 0;
    while k < 2304
        invariant
            k <= 2304,
            wu == w,
            hu == h,
            w >= 1,
            h >= 1,
            (w as int) * 64 <= usize::MAX,
            (h as int) * 36 <= usize::MAX,
            (w as int) * (h as int) * 4 <= usize::MAX,
            out@.len() == k,
            forall|j: int| 0 <= j < k ==> out@[j] == grid_cell(buf@, w as int, h as int, j),
        decreases 2304 - k,
    {
        let ax = k % 64;
        let ay = k / 64;
        assert(ax * wu <= 64 * wu) by (nonlinear_arith)
            requires
                ax < 64,
        ;
        assert(ay * hu <= 36 * hu) by (nonlinear_arith)
            requires
                ay < 36,
        ;
        let qx = ax * wu / 64;
        let qy = ay * hu / 36;
        let sx = if qx < wu - 1 {
            qx
        } else {
            wu - 1
        };
        let sy = if qy < hu - 1 {
            qy
        } else {
            hu - 1
        };
        assert((sy * wu + sx) * 4 + 3 <= (wu * hu) * 4 + 3) by (nonlinear_arith)
            requires
                sy < hu,
                sx < wu,
        ;
        assert(sy * wu + sx < wu * hu) by (nonlinear_arith)
            requires
                sy < hu,
                sx < wu,
        ;
        let i = (sy * wu + sx) * 4;
        let cell: Rgb = if i + 2 < buf.len() {
            (buf[i], buf[i + 1], buf[i + 2])
        } else {
            (0, 0, 0)
        };
        assert(cell == grid_cell(buf@, w as int, h as int, k as int));
        out.push(cell);
        k += 1;
    }
    out
}

// ------------------------------------------------------------------ histogram

/// Channel `c` (0 red, 1 green, 2 blue) of a sample.
pub open spec fn channel(p: Rgb, c: int) -> u8 {
    if c == 0 {
        p.0
    } else if c == 1 {
        p.1
    } else {
        p.2
    }
}

/// How many samples of `px` have channel `c` in histogram bin `b` (values
/// `4b` to `4b + 3`).
pub open spec fn bin_count(px: Seq<Rgb>, c: int, b: int) -> nat
    decreases px.len(),
{
    if px.len() == 0 {
        0
    } else {
        bin_count(px.drop_last(), c, b) + if channel(px.last(), c) / 4 == b {
            1nat
        } else {
            0nat
        }
    }
}

proof fn lemma_bin_count_bound(px: Seq<Rgb>, c: int, b: int)
    ensures
        bin_count(px, c, b) <= px.len(),
    decreases px.len(),
{
    if px.len() > 0 {
        lemma_bin_count_bound(px.drop_last(), c, b);
    }
}

/// Sixty-four bins of channel `c` over the samples.
pub fn channel_histogram(px: &Vec<Rgb>, c: u8) -> (r: Vec<u32>)
    requires
        c < 3,
        px@.len() <= u32::MAX,
    ensures
        r@.len() == 64,
        forall|b: int| 0 <= b < 64 ==> r@[b] == bin_count(px@, c as int, b),
{
    let mut bins: Vec<u32> = Vec::new();
    let mut b: usize = 0;
    while b < 64
        invariant
            b <= 64,
            bins@.len() == b,
            forall|j: int| 0 <= j < b ==> bins@[j] == 0,
        decreases 64 - b,
    {
        bins.push(0);
        b += 1;
    }
    let mut k: usize = 0;
    while k < px.len()
        invariant
            k <= px.len(),
            c < 3,
            px@.len() <= u32::MAX,
            bins@.len() == 64,
            forall|j: int| 0 <= j < 64 ==> bins@[j] == bin_count(px@.take(k as int), c as int, j),
        decreases px.len() - k,
    {
        let p = px[k];
        let v: u8 = if c == 0 {
            p.0
        } else if c == 1 {
            p.1
        } else {
            p.2
        };
        assert(v == channel(px@[k as int], c as int));
        let bin = (v / 4) as usize;
        assert(px@.take(k + 1).drop_last() =~= px@.take(k as int));
        assert(px@.take(k + 1).last() == px@[k as int]);
        proof {
            lemma_bin_count_bound(px@.take(k as int), c as int, bin as int);
        }
        let old_count = bins[bin];
        bins.set(bin, old_count + 1);
        k += 1;
    }
    assert(px@.take(px.len() as int) =~= px@);
    bins
}

/// Samples of `px` in the first `n` bins of channel `c`.
pub open spec fn bins_total(px: Seq<Rgb>, c: int, n: nat) -> nat
    decreases n,
{
    if n == 0 {
        0
    } else {
        bins_total(px, c, (n - 1) as nat) + bin_count(px, c, n - 1)
    }
}

proof fn lemma_bins_total_step(px: Seq<Rgb>, c: int, n: nat)
    requires
        px.len() > 0,
    ensures
        bins_total(px, c, n) == bins_total(px.drop_last(), c, n) + if channel(px.last(), c) / 4 < n {
            1nat
        } else {
            0nat
        },
    decreases n,
{
    if n > 0 {
        lemma_bins_total_step(px, c, (n - 1) as nat);
    }
}

/// Every sample falls in exactly one of the sixty-four bins of a channel.
pub proof fn lemma_histogram_total(px: Seq<Rgb>, c: int)
    ensures
        bins_total(px, c, 64) == px.len(),
    decreases px.len(),
{
    if px.len() == 0 {
        lemma_bins_total_empty(px, c, 64);
    } else {
        lemma_histogram_total(px.drop_last(), c);
        lemma_bins_total_step(px, c, 64);
    }
}

proof fn lemma_bins_total_empty(px: Seq<Rgb>, c: int, n: nat)
    requires
        px.len() == 0,
    ensures
        bins_total(px, c, n) == 0,
    decreases n,
{
    if n > 0 {
        lemma_bins_total_empty(px, c, (n - 1) as nat);
    }
}

/// The largest entry of `v`, and at least `floor`.
pub open spec fn max_from(v: Seq<u32>, floor: u32) -> u32
    decreases v.len(),
{
    if v.len() == 0 {
        floor
    } else {
        let m = max_from(v.drop_last(), floor);
        if v.last() > m {
            v.last()
        } else {
            m
        }
    }
}

fn max_into(v: &Vec<u32>, floor: u32) -> (m: u32)
    ensures
        m == max_from(v@, floor),
{
    let mut m = floor;
    let mut k: usize = 0;
    while k < v.len()
        invariant
            k <= v.len(),
            m == max_from(v@.take(k as int), floor),
        decreases v.len() - k,
    {
        assert(v@.take(k + 1).drop_last() =~= v@.take(k as int));
        if v[k] > m {
            m = v[k];
        }
        k += 1;
    }
    assert(v@.take(v.len() as int) =~= v@);
    m
}

/// The tallest bar over the red, green and blue histograms, at least 1 (the
/// histogram is drawn relative to it).
pub fn histogram_peak(r: &Vec<u32>, g: &Vec<u32>, b: &Vec<u32>) -> (m: u32)
    ensures
        m == max_from(b@, max_from(g@, max_from(r@, 1))),
{
    let mr = max_into(r, 1);
    let mg = max_into(g, mr);
    max_into(b, mg)
}

// ------------------------------------------------------------------ parade

/// Row of the parade at which a channel value is plotted (255 at the top,
/// 0 at the bottom of 100 rows).
pub open spec fn parade_row(v: u8) -> int {
    99 - (v as int) * 99 / 255
}

/// How many plots land on parade pixel (`x`, `y`): samples in grid column
/// `x % 64` whose channel `x / 64` is plotted at row `y`.
pub open spec fn parade_hits(px: Seq<Rgb>, x: int, y: int) -> nat
    decreases px.len(),
{
    if px.len() == 0 {
        0
    } else {
        let k = px.len() - 1;
        parade_hits(px.drop_last(), x, y) + if k % 64 == x % 64 && parade_row(channel(px.last(), x / 64))
            == y {
            1nat
        } else {
            0nat
        }
    }
}

/// Byte `j` (0..4) of parade pixel (`x`, `y`): each plot adds 200 to the
/// panel's own channel and 30 to the two others, saturating at 255; a
/// pixel with a plot is opaque.
pub open spec fn parade_byte(px: Seq<Rgb>, x: int, y: int, j: int) -> u8 {
    let n = parade_hits(px, x, y);
    if j == 3 {
        if n > 0 {
            255u8
        } else {
            0u8
        }
    } else {
        let add: int = if j == x / 64 {
            200
        } else {
            30
        };
        if add * n < 255 {
            (add * n) as u8
        } else {
            255u8
        }
    }
}

/// The parade as RGBA bytes, 192×100, row-major.
pub open spec fn spec_parade(px: Seq<Rgb>) -> Seq<u8> {
    Seq::new(76800, |i: int| parade_byte(px, (i / 4) % 192, (i / 4) / 192, i % 4))
}

proof fn lemma_parade_row_range(v: u8)
    ensures
        0 <= parade_row(v) <= 99,
{
    assert((v as int) * 99 / 255 <= 99) by (nonlinear_arith)
        requires
            v <= 255,
    ;
    assert((v as int) * 99 / 255 >= 0) by (nonlinear_arith)
        requires
            v >= 0,
    ;
}

proof fn lemma_saturating_step(add: int, n: nat)
    requires
        0 <= add,
    ensures
        ({
            let before = if add * n < 255 {
                add * n
            } else {
                255
            };
            (if before + add < 255 {
                before + add
            } else {
                255
            }) == (if add * (n + 1) < 255 {
                add * (n + 1)
            } else {
                255
            })
        }),
{
    assert(add * (n + 1) == add * n + add) by (nonlinear_arith);
    assert(add * n >= 0) by (nonlinear_arith)
        requires
            add >= 0,
    ;
}

/// RGB parade of the grid: three 64-column panels (red, green, blue) of
/// 100 rows, as RGBA bytes.
pub fn parade_image(px: &Vec<Rgb>) -> (r: Vec<u8>)
    ensures
        r@ == spec_parade(px@),
{
    let mut img: Vec<u8> = Vec::new();
    let mut i: usize = 0;
    while i < 76800
        invariant
            i <= 76800,
            img@.len() == i,
            forall|j: int| 0 <= j < i ==> img@[j] == 0,
        decreases 76800 - i,
    {
        img.push(0);
        i += 1;
    }
    assert forall|j: int| 0 <= j < 76800 implies img@[j] == parade_byte(
        px@.take(0),
        (j / 4) % 192,
        (j / 4) / 192,
        j % 4,
    ) by {
        assert(px@.take(0).len() == 0);
    }
    let mut k: usize = 0;
    while k < px.len()
        invariant
            k <= px.len(),
            img@.len() == 76800,
            forall|j: int|
                0 <= j < 76800 ==> #[trigger] img@[j] == parade_byte(
                    px@.take(k as int),
                    (j / 4) % 192,
                    (j / 4) / 192,
                    j % 4,
                ),
        decreases px.len() - k,
    {
        let p = px[k];
        let ghost before = px@.take(k as int);
        let ghost after = px@.take(k + 1);
        assert(after.drop_last() =~= before);
        assert(after.last() == p);
        let mut c: usize = 0;
        while c < 3
            invariant
                c <= 3,
                k < px.len(),
                p == px@[k as int],
                img@.len() == 76800,
                before == px@.take(k as int),
                after == px@.take(k + 1),
                after.len() == k + 1,
                after.drop_last() == before,
                after.last() == p,
                forall|j: int|
                    0 <= j < 76800 ==> #[trigger] img@[j] == parade_byte(
                        if ((j / 4) % 192) / 64 < c {
                            after
                        } else {
                            before
                        },
                        (j / 4) % 192,
                        (j / 4) / 192,
                        j % 4,
                    ),
            decreases 3 - c,
        {
            let v: u8 = if c == 0 {
                p.0
            } else if c == 1 {
                p.1
            } else {
                p.2
            };
            proof {
                lemma_parade_row_range(v);
            }
            let y: usize = 99 - (v as usize) * 99 / 255;
            let x: usize = (k % 64) + c * 64;
            let base = (y * 192 + x) * 4;
            assert(base + 3 < 76800) by (nonlinear_arith)
                requires
                    y <= 99,
                    x < 192,
                    base == (y * 192 + x) * 4,
            ;
            let ghost img0 = img@;
            assert(base % 4 == 0) by (nonlinear_arith)
                requires
                    base == (y * 192 + x) * 4,
            ;
            let mut j: usize = 0;
            while j < 4
                invariant
                    j <= 4,
                    img@.len() == 76800,
                    base + 3 < 76800,
                    base % 4 == 0,
                    forall|q: int| 0 <= q < 76800 && !(base <= q < base + j) ==> img@[q] == img0[q],
                    forall|q: int|
                        base <= q < base + j ==> #[trigger] img@[q] == (if q % 4 == 3 {
                            255u8
                        } else {
                            let add: int = if q % 4 == c {
                                200
                            } else {
                                30
                            };
                            if img0[q] + add < 255 {
                                (img0[q] + add) as u8
                            } else {
                                255u8
                            }
                        }),
                decreases 4 - j,
            {
                let q = base + j;
                assert(q % 4 == j) by (nonlinear_arith)
                    requires
                        q == base + j,
                        base % 4 == 0,
                        j < 4,
                ;
                let cur = img[q];
                let nv: u8 = if j == 3 {
                    255
                } else {
                    let add: u32 = if j == c {
                        200
                    } else {
                        30
                    };
                    if (cur as u32) + add < 255 {
                        ((cur as u32) + add) as u8
                    } else {
                        255
                    }
                };
                img.set(q, nv);
                j += 1;
            }
            proof {
                assert forall|q: int| 0 <= q < 76800 implies #[trigger] img@[q] == parade_byte(
                    if ((q / 4) % 192) / 64 < c + 1 {
                        after
                    } else {
                        before
                    },
                    (q / 4) % 192,
                    (q / 4) / 192,
                    q % 4,
                ) by {
                    let qx = (q / 4) % 192;
                    let qy = (q / 4) / 192;
                    let hit = k % 64 == qx % 64 && parade_row(channel(p, qx / 64)) == qy;
                    assert(parade_hits(after, qx, qy) == parade_hits(before, qx, qy) + if hit {
                        1nat
                    } else {
                        0nat
                    });
                    if base <= q < base + 4 {
                        assert(qx == x && qy == y) by (nonlinear_arith)
                            requires
                                base == (y * 192 + x) * 4,
                                base <= q < base + 4,
                                x < 192,
                                qx == (q / 4) % 192,
                                qy == (q / 4) / 192,
                        ;
                        assert(qx / 64 == c);
                        assert(channel(p, c as int) == v);
                        assert(hit);
                        let n = parade_hits(before, qx, qy);
                        let add: int = if q % 4 == c {
                            200
                        } else {
                            30
                        };
                        lemma_saturating_step(add, n);
                    } else {
                        assert(img@[q] == img0[q]);
                        if qx / 64 == c && hit {
                            assert(qx == x);
                            assert(q / 4 == y * 192 + x) by (nonlinear_arith)
                                requires
                                    qx == (q / 4) % 192,
                                    qy == (q / 4) / 192,
                                    qx == x,
                                    qy == y,
                            ;
                            assert(base <= q < base + 4) by (nonlinear_arith)
                                requires
                                    q / 4 == y * 192 + x,
                                    base == (y * 192 + x) * 4,
                                    0 <= q,
                            ;
                        }
                    }
                }
            }
            c += 1;
        }
        assert forall|q: int| 0 <= q < 76800 implies #[trigger] img@[q] == parade_byte(
            after,
            (q / 4) % 192,
            (q / 4) / 192,
            q % 4,
        ) by {
            assert(((q / 4) % 192) / 64 < 3);
        }
        k += 1;
    }
    assert(px@.take(px.len() as int) =~= px@);
    assert(img@ =~= spec_parade(px@));
    img
}

// ------------------------------------------------------------------ luma waveform

/// How many samples land on waveform pixel (`x`, `y`): each grid column is
/// two pixels wide, and a sample is plotted at the row of its luma.
pub open spec fn wave_hits(luma: Seq<u8>, x: int, y: int) -> nat
    decreases luma.len(),
{
    if luma.len() == 0 {
        0
    } else {
        let k = luma.len() - 1;
        wave_hits(luma.drop_last(), x, y) + if k % 64 == x / 2 && parade_row(luma.last()) == y {
            1nat
        } else {
            0nat
        }
    }
}

/// Rows of the waveform that carry a scale line.
pub open spec fn is_scale_row(y: int) -> bool {
    y == 0 || y == 25 || y == 50 || y == 75 || y == 99
}

/// The grey level of a waveform pixel hit `n` times: 60 per hit, at most 235.
pub open spec fn wave_level(n: nat) -> u8 {
    if 60 * n < 235 {
        (60 * n) as u8
    } else {
        235u8
    }
}

/// Byte `j` of waveform pixel (`x`, `y`): grey by the number of hits and
/// opaque when hit; an unhit pixel on a scale row shows the scale colour.
pub open spec fn wave_byte(luma: Seq<u8>, x: int, y: int, j: int) -> u8 {
    let n = wave_hits(luma, x, y);
    if n == 0 && is_scale_row(y) {
        if j == 2 {
            66u8
        } else if j == 3 {
            255u8
        } else {
            60u8
        }
    } else if j == 3 {
        if n > 0 {
            255u8
        } else {
            0u8
        }
    } else {
        wave_level(n)
    }
}

/// The luma waveform as RGBA bytes, 128×100, row-major.
pub open spec fn spec_waveform(luma: Seq<u8>) -> Seq<u8> {
    Seq::new(51200, |i: int| wave_byte(luma, (i / 4) % 128, (i / 4) / 128, i % 4))
}

/// Bytes of the waveform before the scale lines are drawn.
pub open spec fn plot_byte(luma: Seq<u8>, x: int, y: int, j: int) -> u8 {
    let n = wave_hits(luma, x, y);
    if j == 3 {
        if n > 0 {
            255u8
        } else {
            0u8
        }
    } else {
        wave_level(n)
    }
}

proof fn lemma_level_step(n: nat)
    ensures
        (if wave_level(n) + 60 < 235 {
            wave_level(n) + 60
        } else {
            235
        }) == wave_level(n + 1) as int,
{
}

/// Luma waveform of the grid, from each grid sample's luma (0..255), as
/// RGBA bytes.
pub fn waveform_image(luma: &Vec<u8>) -> (r: Vec<u8>)
    ensures
        r@ == spec_waveform(luma@),
{
    let mut img: Vec<u8> = Vec::new();
    let mut i: usize = 0;
    while i < 51200
        invariant
            i <= 51200,
            img@.len() == i,
            forall|j: int| 0 <= j < i ==> img@[j] == 0,
        decreases 51200 - i,
    {
        img.push(0);
        i += 1;
    }
    assert forall|q: int| 0 <= q < 51200 implies #[trigger] img@[q] == plot_byte(
        luma@.take(0),
        (q / 4) % 128,
        (q / 4) / 128,
        q % 4,
    ) by {
        assert(luma@.take(0).len() == 0);
    }
    let mut k: usize = 0;
    while k < luma.len()
        invariant
            k <= luma.len(),
            img@.len() == 51200,
            forall|q: int|
                0 <= q < 51200 ==> #[trigger] img@[q] == plot_byte(
                    luma@.take(k as int),
                    (q / 4) % 128,
                    (q / 4) / 128,
                    q % 4,
                ),
        decreases luma.len() - k,
    {
        let l = luma[k];
        let ghost before = luma@.take(k as int);
        let ghost after = luma@.take(k + 1);
        assert(after.drop_last() =~= before);
        assert(after.last() == l);
        proof {
            lemma_parade_row_range(l);
        }
        let y: usize = 99 - (l as usize) * 99 / 255;
        let x0: usize = (k % 64) * 2;
        let mut dx: usize = 0;
        while dx < 2
            invariant
                dx <= 2,
                k < luma.len(),
                img@.len() == 51200,
                y <= 99,
                y as int == parade_row(l),
                x0 == (k % 64) * 2,
                before == luma@.take(k as int),
                after == luma@.take(k + 1),
                after.len() == k + 1,
                after.drop_last() == before,
                after.last() == l,
                forall|q: int|
                    0 <= q < 51200 ==> #[trigger] img@[q] == plot_byte(
                        if (q / 4) % 128 < x0 + dx && (q / 4) % 128 >= x0 {
                            after
                        } else {
                            before
                        },
                        (q / 4) % 128,
                        (q / 4) / 128,
                        q % 4,
                    ),
            decreases 2 - dx,
        {
            let x = x0 + dx;
            let base = (y * 128 + x) * 4;
            assert(base + 3 < 51200 && base % 4 == 0) by (nonlinear_arith)
                requires
                    y <= 99,
                    x < 128,
                    base == (y * 128 + x) * 4,
            ;
            let cur = img[base];
            let level: u8 = if (cur as u32) + 60 < 235 {
                cur + 60
            } else {
                235
            };
            let ghost img0 = img@;
            img.set(base, level);
            img.set(base + 1, level);
            img.set(base + 2, level);
            img.set(base + 3, 255);
            proof {
                assert forall|q: int| 0 <= q < 51200 implies #[trigger] img@[q] == plot_byte(
                    if (q / 4) % 128 < x0 + dx + 1 && (q / 4) % 128 >= x0 {
                        after
                    } else {
                        before
                    },
                    (q / 4) % 128,
                    (q / 4) / 128,
                    q % 4,
                ) by {
                    let qx = (q / 4) % 128;
                    let qy = (q / 4) / 128;
                    let hit = k % 64 == qx / 2 && parade_row(l) == qy;
                    assert(wave_hits(after, qx, qy) == wave_hits(before, qx, qy) + if hit {
                        1nat
                    } else {
                        0nat
                    });
                    if base <= q < base + 4 {
                        assert(qx == x && qy == y && q % 4 == q - base) by (nonlinear_arith)
                            requires
                                base == (y * 128 + x) * 4,
                                base <= q < base + 4,
                                x < 128,
                                qx == (q / 4) % 128,
                                qy == (q / 4) / 128,
                        ;
                        assert(hit);
                        assert(img0[base as int] == plot_byte(before, qx, qy, 0));
                        lemma_level_step(wave_hits(before, qx, qy));
                    } else {
                        assert(img@[q] == img0[q]);
                        if qx == x && hit {
                            assert(q / 4 == y * 128 + x) by (nonlinear_arith)
                                requires
                                    qx == (q / 4) % 128,
                                    qy == (q / 4) / 128,
                                    qx == x,
                                    qy == y,
                            ;
                            assert(base <= q < base + 4) by (nonlinear_arith)
                                requires
                                    q / 4 == y * 128 + x,
                                    base == (y * 128 + x) * 4,
                                    0 <= q,
                            ;
                        }
                    }
                }
            }
            dx += 1;
        }
        assert forall|q: int| 0 <= q < 51200 implies #[trigger] img@[q] == plot_byte(
            after,
            (q / 4) % 128,
            (q / 4) / 128,
            q % 4,
        ) by {
            let qx = (q / 4) % 128;
            let qy = (q / 4) / 128;
            if !(qx < x0 + 2 && qx >= x0) {
                let hit = k % 64 == qx / 2 && parade_row(l) == qy;
                assert(wave_hits(after, qx, qy) == wave_hits(before, qx, qy) + if hit {
                    1nat
                } else {
                    0nat
                });
                if hit {
                    assert(false) by (nonlinear_arith)
                        requires
                            qx / 2 == k % 64,
                            x0 == (k % 64) * 2,
                            !(qx < x0 + 2 && qx >= x0),
                            0 <= qx,
                    ;
                }
            }
        }
        k += 1;
    }
    assert(luma@.take(luma.len() as int) =~= luma@);
    // scale lines where nothing was plotted
    let rows: [usize; 5] = [0, 25, 50, 75, 99];
    let mut ri: usize = 0;
    while ri < 5
        invariant
            ri <= 5,
            rows@ == seq![0usize, 25, 50, 75, 99],
            img@.len() == 51200,
            forall|q: int|
                0 <= q < 51200 ==> #[trigger] img@[q] == (if ({
                    let qy = (q / 4) / 128;
                    (qy == 0 && ri > 0) || (qy == 25 && ri > 1) || (qy == 50 && ri > 2) || (qy == 75
                        && ri > 3) || (qy == 99 && ri > 4)
                }) {
                    wave_byte(luma@, (q / 4) % 128, (q / 4) / 128, q % 4)
                } else {
                    plot_byte(luma@, (q / 4) % 128, (q / 4) / 128, q % 4)
                }),
        decreases 5 - ri,
    {
        let row = rows[ri];
        let mut x: usize = 0;
        while x < 128
            invariant
                ri < 5,
                row == rows@[ri as int],
                rows@ == seq![0usize, 25, 50, 75, 99],
                x <= 128,
                img@.len() == 51200,
                forall|q: int|
                    0 <= q < 51200 ==> #[trigger] img@[q] == (if ({
                        let qy = (q / 4) / 128;
                        (qy == 0 && ri > 0) || (qy == 25 && ri > 1) || (qy == 50 && ri > 2) || (qy
                            == 75 && ri > 3) || (qy == 99 && ri > 4) || (qy == row && (q / 4) % 128
                            < x)
                    }) {
                        wave_byte(luma@, (q / 4) % 128, (q / 4) / 128, q % 4)
                    } else {
                        plot_byte(luma@, (q / 4) % 128, (q / 4) / 128, q % 4)
                    }),
            decreases 128 - x,
        {
            let base = (row * 128 + x) * 4;
            assert(base + 3 < 51200 && base % 4 == 0) by (nonlinear_arith)
                requires
                    row <= 99,
                    x < 128,
                    base == (row * 128 + x) * 4,
            ;
            let ghost img0 = img@;
            if img[base] < 40 {
                img.set(base, 60);
                img.set(base + 1, 60);
                img.set(base + 2, 66);
                img.set(base + 3, 255);
            }
            proof {
                assert forall|q: int| 0 <= q < 51200 implies #[trigger] img@[q] == (if ({
                    let qy = (q / 4) / 128;
                    (qy == 0 && ri > 0) || (qy == 25 && ri > 1) || (qy == 50 && ri > 2) || (qy == 75
                        && ri > 3) || (qy == 99 && ri > 4) || (qy == row && (q / 4) % 128 < x + 1)
                }) {
                    wave_byte(luma@, (q / 4) % 128, (q / 4) / 128, q % 4)
                } else {
                    plot_byte(luma@, (q / 4) % 128, (q / 4) / 128, q % 4)
                }) by {
                    let qx = (q / 4) % 128;
                    let qy = (q / 4) / 128;
                    if base <= q < base + 4 {
                        assert(qx == x && qy == row && q % 4 == q - base) by (nonlinear_arith)
                            requires
                                base == (row * 128 + x) * 4,
                                base <= q < base + 4,
                                x < 128,
                                qx == (q / 4) % 128,
                                qy == (q / 4) / 128,
                        ;
                        assert(img0[base as int] == plot_byte(luma@, qx, qy, 0));
                    } else {
                        assert(img@[q] == img0[q]);
                        if qy == row && qx == x {
                            assert(base <= q < base + 4) by (nonlinear_arith)
                                requires
                                    qx == (q / 4) % 128,
                                    qy == (q / 4) / 128,
                                    qx == x,
                                    qy == row,
                                    base == (row * 128 + x) * 4,
                                    0 <= q,
                            ;
                        }
                    }
                }
            }
            x += 1;
        }
        ri += 1;
    }
    assert(img@ =~= spec_waveform(luma@));
    img
}

// ------------------------------------------------------------------ histogram image

/// Bar colour of channel `c` (red, green, blue), byte `j`.
pub open spec fn bar_colour(c: int, j: int) -> int {
    if c == 0 {
        if j == 0 {
            255
        } else {
            80
        }
    } else if c == 1 {
        if j == 0 {
            80
        } else if j == 1 {
            255
        } else {
            110
        }
    } else {
        if j == 0 {
            100
        } else if j == 1 {
            130
        } else {
            255
        }
    }
}

/// Whether the bar of bin `i` in `heights` reaches row `y` (bars grow up
/// from row 99), counting only its lowest `lim` rows.
pub open spec fn bar_covers(heights: Seq<u32>, i: int, y: int, lim: int) -> bool {
    99 - y < heights[i] && 99 - y < lim
}

/// Rows of the bar of channel `c` in bin `i` drawn once drawing has reached
/// bin `i0`, channel `c0` and `d0` rows of it.
pub open spec fn drawn_rows(i: int, c: int, i0: int, c0: int, d0: int) -> int {
    if i < i0 {
        100
    } else if i > i0 {
        0
    } else if c < c0 {
        100
    } else if c == c0 {
        d0
    } else {
        0
    }
}

/// Byte `j` of histogram pixel (`x`, `y`) after drawing up to (`i0`, `c0`,
/// `d0`): bars are one pixel wide at `x = 4i + 1`; where bars overlap their
/// colours add up, saturating at 255.
pub open spec fn hist_byte_at(
    h: Seq<Seq<u32>>,
    x: int,
    y: int,
    j: int,
    i0: int,
    c0: int,
    d0: int,
) -> u8 {
    if x % 4 != 1 {
        0u8
    } else {
        let i = x / 4;
        let cr = bar_covers(h[0], i, y, drawn_rows(i, 0, i0, c0, d0));
        let cg = bar_covers(h[1], i, y, drawn_rows(i, 1, i0, c0, d0));
        let cb = bar_covers(h[2], i, y, drawn_rows(i, 2, i0, c0, d0));
        if j == 3 {
            if cr || cg || cb {
                255u8
            } else {
                0u8
            }
        } else {
            let sum = (if cr {
                bar_colour(0, j)
            } else {
                0
            }) + (if cg {
                bar_colour(1, j)
            } else {
                0
            }) + (if cb {
                bar_colour(2, j)
            } else {
                0
            });
            if sum < 255 {
                sum as u8
            } else {
                255u8
            }
        }
    }
}

/// The histogram as RGBA bytes, 256×100, row-major: for each of the 64
/// bins, the red, green and blue bars of the given heights.
pub open spec fn spec_histogram_image(h: Seq<Seq<u32>>) -> Seq<u8> {
    Seq::new(102400, |q: int| hist_byte_at(h, (q / 4) % 256, (q / 4) / 256, q % 4, 64, 0, 0))
}

/// Saturating 8-bit addition.
pub open spec fn sat_add(a: u8, b: int) -> u8 {
    if a + b < 255 {
        (a + b) as u8
    } else {
        255u8
    }
}

/// Adds a bar colour to pixel bytes `base..base + 4` (saturating) and makes
/// it opaque.
fn paint_bar_pixel(img: &mut Vec<u8>, base: usize, c: usize)
    requires
        base + 3 < old(img).len(),
        c < 3,
    ensures
        final(img)@.len() == old(img)@.len(),
        forall|q: int| 0 <= q < old(img)@.len() && !(base <= q < base + 4) ==> final(img)@[q] == old(img)@[q],
        forall|j: int| 0 <= j < 3 ==> final(img)@[base + j] == sat_add(old(img)@[base + j], bar_colour(c as int, j)),
        final(img)@[base + 3] == 255,
{
    let (c0, c1, c2): (u8, u8, u8) = if c == 0 {
        (255, 80, 80)
    } else if c == 1 {
        (80, 255, 110)
    } else {
        (100, 130, 255)
    };
    let b0 = img[base];
    let b1 = img[base + 1];
    let b2 = img[base + 2];
    let n0: u8 = if (b0 as u16) + (c0 as u16) < 255 {
        b0 + c0
    } else {
        255
    };
    let n1: u8 = if (b1 as u16) + (c1 as u16) < 255 {
        b1 + c1
    } else {
        255
    };
    let n2: u8 = if (b2 as u16) + (c2 as u16) < 255 {
        b2 + c2
    } else {
        255
    };
    img.set(base, n0);
    img.set(base + 1, n1);
    img.set(base + 2, n2);
    img.set(base + 3, 255);
    assert forall|j: int| 0 <= j < 3 implies img@[base + j] == sat_add(old(img)@[base + j], bar_colour(c as int, j)) by {
        if j == 0 {
            assert(img@[base + j] == n0);
        } else if j == 1 {
            assert(img@[base + j] == n1);
        } else {
            assert(img@[base + j] == n2);
        }
    }
}

/// One more row of one bar: the picture moves from `dy` drawn rows to
/// `dy + 1`.
#[verifier::rlimit(40)]
proof fn lemma_bar_row(
    h: Seq<Seq<u32>>,
    img0: Seq<u8>,
    img1: Seq<u8>,
    i: int,
    c: int,
    dy: int,
    base: int,
)
    requires
        h.len() == 3,
        h[0].len() == 64,
        h[1].len() == 64,
        h[2].len() == 64,
        0 <= i < 64,
        0 <= c < 3,
        0 <= dy < 100,
        dy < h[c][i],
        base == ((99 - dy) * 256 + i * 4 + 1) * 4,
        img0.len() == 102400,
        img1.len() == 102400,
        forall|q: int|
            0 <= q < 102400 ==> #[trigger] img0[q] == hist_byte_at(h, (q / 4) % 256, (q / 4) / 256, q % 4, i, c, dy),
        forall|q: int| 0 <= q < 102400 && !(base <= q < base + 4) ==> img1[q] == img0[q],
        forall|j: int| 0 <= j < 3 ==> img1[base + j] == sat_add(img0[base + j], bar_colour(c, j)),
        img1[base + 3] == 255,
    ensures
        forall|q: int|
            0 <= q < 102400 ==> #[trigger] img1[q] == hist_byte_at(h, (q / 4) % 256, (q / 4) / 256, q % 4, i, c, dy + 1),
{
    let x = i * 4 + 1;
    let y = 99 - dy;
    assert forall|q: int| 0 <= q < 102400 implies #[trigger] img1[q] == hist_byte_at(
        h,
        (q / 4) % 256,
        (q / 4) / 256,
        q % 4,
        i,
        c,
        dy + 1,
    ) by {
        let qx = (q / 4) % 256;
        let qy = (q / 4) / 256;
        if base <= q < base + 4 {
            assert(qx == x && qy == y && q % 4 == q - base) by (nonlinear_arith)
                requires
                    base == (y * 256 + x) * 4,
                    base <= q < base + 4,
                    0 <= x < 256,
                    qx == (q / 4) % 256,
                    qy == (q / 4) / 256,
            ;
            assert(qx % 4 == 1 && qx / 4 == i) by (nonlinear_arith)
                requires
                    qx == i * 4 + 1,
            ;
            assert(img0[q] == hist_byte_at(h, qx, qy, q % 4, i, c, dy));
        } else {
            assert(img1[q] == img0[q]);
            if qx % 4 == 1 && qx / 4 == i && qy == y {
                assert(qx == x) by (nonlinear_arith)
                    requires
                        qx % 4 == 1,
                        qx / 4 == i,
                        x == i * 4 + 1,
                ;
                assert(base <= q < base + 4) by (nonlinear_arith)
                    requires
                        qx == (q / 4) % 256,
                        qy == (q / 4) / 256,
                        qx == x,
                        qy == y,
                        base == (y * 256 + x) * 4,
                        0 <= q,
                ;
            }
        }
    }
}

/// Histogram picture from bar heights (in rows) per bin and channel.
pub fn histogram_image(hr: &Vec<u32>, hg: &Vec<u32>, hb: &Vec<u32>) -> (r: Vec<u8>)
    requires
        hr@.len() == 64,
        hg@.len() == 64,
        hb@.len() == 64,
    ensures
        r@ == spec_histogram_image(seq![hr@, hg@, hb@]),
{
    let ghost h = seq![hr@, hg@, hb@];
    let mut img: Vec<u8> = Vec::new();
    let mut q0: usize = 0;
    while q0 < 102400
        invariant
            q0 <= 102400,
            img@.len() == q0,
            forall|j: int| 0 <= j < q0 ==> img@[j] == 0,
        decreases 102400 - q0,
    {
        img.push(0);
        q0 += 1;
    }
    let mut i: usize = 0;
    while i < 64
        invariant
            i <= 64,
            h == seq![hr@, hg@, hb@],
            hr@.len() == 64,
            hg@.len() == 64,
            hb@.len() == 64,
            img@.len() == 102400,
            forall|q: int|
                0 <= q < 102400 ==> #[trigger] img@[q] == hist_byte_at(
                    h,
                    (q / 4) % 256,
                    (q / 4) / 256,
                    q % 4,
                    i as int,
                    0,
                    0,
                ),
        decreases 64 - i,
    {
        let x = i * 4 + 1;
        let mut c: usize = 0;
        while c < 3
            invariant
                i < 64,
                x == i * 4 + 1,
                c <= 3,
                h == seq![hr@, hg@, hb@],
                hr@.len() == 64,
                hg@.len() == 64,
                hb@.len() == 64,
                img@.len() == 102400,
                forall|q: int|
                    0 <= q < 102400 ==> #[trigger] img@[q] == hist_byte_at(
                        h,
                        (q / 4) % 256,
                        (q / 4) / 256,
                        q % 4,
                        i as int,
                        c as int,
                        0,
                    ),
            decreases 3 - c,
        {
            let v = if c == 0 {
                hr[i]
            } else if c == 1 {
                hg[i]
            } else {
                hb[i]
            };
            assert(v == h[c as int][i as int]);
            let top: usize = if v < 100 {
                v as usize
            } else {
                100
            };
            let mut dy: usize = 0;
            while dy < top
                invariant
                    i < 64,
                    x == i * 4 + 1,
                    c < 3,
                    dy <= top <= 100,
                    top as int == (if v < 100 {
                        v as int
                    } else {
                        100
                    }),
                    v == h[c as int][i as int],
                    h == seq![hr@, hg@, hb@],
                    hr@.len() == 64,
                    hg@.len() == 64,
                    hb@.len() == 64,
                    img@.len() == 102400,
                    forall|q: int|
                        0 <= q < 102400 ==> #[trigger] img@[q] == hist_byte_at(
                            h,
                            (q / 4) % 256,
                            (q / 4) / 256,
                            q % 4,
                            i as int,
                            c as int,
                            dy as int,
                        ),
                decreases top - dy,
            {
                let y = 99 - dy;
                let base = (y * 256 + x) * 4;
                assert(base + 3 < 102400 && base % 4 == 0) by (nonlinear_arith)
                    requires
                        y <= 99,
                        x < 256,
                        base == (y * 256 + x) * 4,
                ;
                let ghost img0 = img@;
                paint_bar_pixel(&mut img, base, c);
                proof {
                    lemma_bar_row(h, img0, img@, i as int, c as int, dy as int, base as int);
                }
                dy += 1;
            }
            assert forall|q: int| 0 <= q < 102400 implies #[trigger] img@[q] == hist_byte_at(
                h,
                (q / 4) % 256,
                (q / 4) / 256,
                q % 4,
                i as int,
                c + 1,
                0,
            ) by {
                let qx = (q / 4) % 256;
                let qy = (q / 4) / 256;
                if qx % 4 == 1 && qx / 4 == i {
                    assert(0 <= qy <= 99);
                }
            }
            c += 1;
        }
        assert forall|q: int| 0 <= q < 102400 implies #[trigger] img@[q] == hist_byte_at(
            h,
            (q / 4) % 256,
            (q / 4) / 256,
            q % 4,
            i + 1,
            0,
            0,
        ) by {
        }
        i += 1;
    }
    assert(img@ =~= spec_histogram_image(h));
    img
}

} // verus!
