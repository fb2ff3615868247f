use kestrelcut::scopes::{
    analysis_grid, channel_histogram, histogram_image, histogram_peak, parade_image, waveform_image, Rgb,
};

/// The scope code as the editor draws it, pixel by pixel with `image`.
fn expected_scopes(w: u32, h: u32, buf: &[u8]) -> (Vec<[u8; 3]>, Vec<u8>, Vec<u8>, Vec<u8>) {
    const AW: usize = 64;
    const AH: usize = 36;
    let mut px = [[0u8; 3]; AW * AH];
    for ay in 0..AH {
        for ax in 0..AW {
            let sx = ((ax * w as usize) / AW).min(w as usize - 1);
            let sy = ((ay * h as usize) / AH).min(h as usize - 1);
            let i = (sy * w as usize + sx) * 4;
            if i + 2 < buf.len() {
                px[ay * AW + ax] = [buf[i], buf[i + 1], buf[i + 2]];
            }
        }
    }
    let mut wave = image::RgbaImage::new((AW * 2) as u32, 100);
    for (ax, p) in px.iter().enumerate() {
        let l = (0.299 * p[0] as f32 + 0.587 * p[1] as f32 + 0.114 * p[2] as f32) as u8;
        let y = 99 - ((l as u32) * 99 / 255) as u32;
        let x = ((ax % AW) * 2) as u32;
        for dx in 0..2 {
            let xx = (x + dx).min((AW * 2 - 1) as u32);
            let cur = wave.get_pixel(xx, y).0;
            let b = (cur[0] as u32 + 60).min(235) as u8;
            wave.put_pixel(xx, y, image::Rgba([b, b, b, 255]));
        }
    }
    for (row, _) in [(0u32, 0u32), (25, 1), (50, 2), (75, 3), (99, 4)] {
        for x in 0..((AW * 2) as u32) {
            let cur = wave.get_pixel(x, row).0;
            if cur[0] < 40 { wave.put_pixel(x, row, image::Rgba([60, 60, 66, 255])); }
        }
    }
    let mut parade = image::RgbaImage::new((AW * 3) as u32, 100);
    for (ax, p) in px.iter().enumerate() {
        for (ch, val) in p.iter().enumerate() {
            let y = 99 - ((*val as u32) * 99 / 255) as u32;
            let x = ((ax % AW) + ch * AW) as u32;
            let cur = parade.get_pixel(x, y).0;
            let base = [cur[0] as u32, cur[1] as u32, cur[2] as u32];
            let add = [200, 200, 200];
            let col = [
                if ch == 0 { base[0].saturating_add(add[0]).min(255) } else { base[0].saturating_add(30).min(255) },
                if ch == 1 { base[1].saturating_add(add[1]).min(255) } else { base[1].saturating_add(30).min(255) },
                if ch == 2 { base[2].saturating_add(add[2]).min(255) } else { base[2].saturating_add(30).min(255) },
                255u32,
            ];
            parade.put_pixel(x, y, image::Rgba([col[0] as u8, col[1] as u8, col[2] as u8, 255]));
        }
    }
    let mut hist = image::RgbaImage::new(256, 100);
    let mut hr = [0u32; 64];
    let mut hg = [0u32; 64];
    let mut hb = [0u32; 64];
    for p in px.iter() {
        hr[(p[0] >> 2) as usize] += 1;
        hg[(p[1] >> 2) as usize] += 1;
        hb[(p[2] >> 2) as usize] += 1;
    }
    let mx = hr.iter().chain(hg.iter()).chain(hb.iter()).copied().fold(1u32, u32::max);
    for i in 0..64 {
        let x = (i * 4) as u32;
        for (data, col) in [(&hr, [255, 80, 80]), (&hg, [80, 255, 110]), (&hb, [100, 130, 255])] {
            let v = ((data[i] as f32 / mx as f32) * 96.0) as u32;
            for dy in 0..v.min(100) {
                let y = 99 - dy;
                let cur = hist.get_pixel(x + 1, y).0;
                let nc = image::Rgba([col[0], col[1], col[2], 160]);
                let mixed = image::Rgba([
                    (cur[0] as u16 + nc[0] as u16).min(255) as u8,
                    (cur[1] as u16 + nc[1] as u16).min(255) as u8,
                    (cur[2] as u16 + nc[2] as u16).min(255) as u8,
                    255]);
                hist.put_pixel(x + 1, y, mixed);
            }
        }
    }
    (px.to_vec(), wave.into_raw(), parade.into_raw(), hist.into_raw())
}

fn library(w: u32, h: u32, buf: &[u8]) -> (Vec<[u8; 3]>, Vec<u8>, Vec<u8>, Vec<u8>) {
    let px: Vec<Rgb> = analysis_grid(w, h, buf);
    let luma: Vec<u8> =
        px.iter().map(|p| (0.299 * p.0 as f32 + 0.587 * p.1 as f32 + 0.114 * p.2 as f32) as u8).collect();
    let wave = waveform_image(&luma);
    let parade = parade_image(&px);
    let hr = channel_histogram(&px, 0);
    let hg = channel_histogram(&px, 1);
    let hb = channel_histogram(&px, 2);
    let mx = histogram_peak(&hr, &hg, &hb);
    let height = |n: &u32| ((*n as f32 / mx as f32) * 96.0) as u32;
    let vr: Vec<u32> = hr.iter().map(height).collect();
    let vg: Vec<u32> = hg.iter().map(height).collect();
    let vb: Vec<u32> = hb.iter().map(height).collect();
    let hist = histogram_image(&vr, &vg, &vb);
    (px.iter().map(|p| [p.0, p.1, p.2]).collect(), wave, parade, hist)
}

fn frame(w: u32, h: u32, seed: u64) -> Vec<u8> {
    let mut x = seed | 1;
    (0..(w * h * 4)).map(|_| {
        x ^= x << 13;
        x ^= x >> 7;
        x ^= x << 17;
        (x >> 24) as u8
    }).collect()
}

#[test]
fn scopes_match_the_drawn_reference() {
    for (w, h, seed) in [(64u32, 36u32, 1u64), (160, 90, 7), (1, 1, 3), (300, 17, 11), (640, 360, 5)] {
        let buf = frame(w, h, seed);
        assert!(library(w, h, &buf) == expected_scopes(w, h, &buf), "frame {w}x{h}");
    }
}

#[test]
fn flat_and_short_frames() {
    let grey = vec![128u8; 32 * 18 * 4];
    assert!(library(32, 18, &grey) == expected_scopes(32, 18, &grey));
    // a buffer shorter than the frame samples black where it runs out
    let short = vec![255u8; 100];
    assert!(library(64, 36, &short) == expected_scopes(64, 36, &short));
    assert_eq!(analysis_grid(64, 36, &short)[2303], (0, 0, 0));
}

#[test]
fn histogram_counts_every_sample_once() {
    let px: Vec<Rgb> = (0..2304u32).map(|i| ((i % 256) as u8, (i / 9) as u8, 7)).collect();
    for c in 0..3u8 {
        let bins = channel_histogram(&px, c);
        assert_eq!(bins.iter().sum::<u32>(), 2304);
    }
    assert_eq!(channel_histogram(&px, 2)[1], 2304);
    assert_eq!(histogram_peak(&vec![0; 64], &vec![0; 64], &vec![0; 64]), 1);
}
