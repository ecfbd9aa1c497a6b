use hpvca::cabac::contexts::{ContextSet, IntraModeContexts};
use hpvca::canvas::Canvas;
use hpvca::commit::{LevelChooser, LevelJob, PlainLevels};
use hpvca::ctu::{Cu32Plan, CuChooser};
use hpvca::cuplan::{CuChoice, CuPlace};
use hpvca::fmt::{BitDepth, ChromaFormat};
use hpvca::frame::Frame;
use hpvca::modes::CHROMA_DM_SYNTAX_IDX;
use hpvca::picture::{encode_intra, encode_intra_opts};
use hpvca::planes::Yuv;
use hpvca::region::{encode_region_substreams, encode_region_units, filter_region, frame_for};

fn noise(seed: &mut u32) -> u32 {
    *seed = seed.wrapping_mul(1_664_525).wrapping_add(1_013_904_223);
    *seed >> 24
}

fn picture(w: usize, h: usize, chroma: ChromaFormat, mut seed: u32) -> Yuv {
    let (sw, sh) = (chroma.sub_w(), chroma.sub_h());
    let n = if chroma.is_monochrome() { 0 } else { w.div_ceil(sw) * h.div_ceil(sh) };
    let mut plane = |n: usize| -> Vec<u16> { (0..n).map(|_| noise(&mut seed) as u16).collect() };
    Yuv {
        y: plane(w * h),
        cb: plane(n),
        cr: plane(n),
        width: w as u32,
        height: h as u32,
        display_w: w as u32,
        display_h: h as u32,
        chroma,
        bit_depth: BitDepth::Eight,
    }
}

/// Makes decisions that depend on the place alone, so that every way of coding a
/// unit comes up.
struct Medley {
    salt: usize,
}

impl Medley {
    fn draw(&self, row: usize, col: usize, what: usize) -> usize {
        let x = (row * 7919 + col * 104_729 + what * 1_299_709 + self.salt * 31) as u32;
        (x.wrapping_mul(2_654_435_761) >> 12) as usize
    }
}

impl LevelChooser for Medley {
    fn pick(&self, job: LevelJob, coeff: &Vec<i32>, ctx: &ContextSet) -> Vec<i16> {
        PlainLevels {}.pick(job, coeff, ctx)
    }
}

impl CuChooser for Medley {
    fn qp_offsets(&self, f: &Frame, _src: &Yuv, _qp: u8) -> Vec<i8> {
        (0..(f.w / 64) * (f.h / 64)).map(|k| (self.draw(k, k, 1) % 7) as i8 - 3).collect()
    }

    fn plan(
        &self,
        _f: &Frame,
        _src: &Yuv,
        _cv: &Canvas,
        _ctx: &ContextSet,
        _ictx: &IntraModeContexts,
        place: CuPlace,
        _lossless: bool,
    ) -> Cu32Plan {
        let mut split_16 = [false; 4];
        for (i, s) in split_16.iter_mut().enumerate() {
            *s = self.draw(place.row, place.col, i) % 2 == 0;
        }
        Cu32Plan { split_32: self.draw(place.row, place.col, 9) % 3 != 0, split_16 }
    }

    fn pick_cu(
        &self,
        f: &Frame,
        _src: &Yuv,
        _cv: &Canvas,
        _ctx: &ContextSet,
        _ictx: &IntraModeContexts,
        place: CuPlace,
        lossless: bool,
    ) -> CuChoice {
        let (row, col) = (place.row, place.col);
        let mode = (self.draw(row, col, 20) % 35) as u8;
        let chroma = (self.draw(row, col, 21) % 5) as u8;
        if lossless {
            let mut split = [false; 85];
            for (i, s) in split.iter_mut().enumerate() {
                *s = self.draw(row, col, 30 + i) % 2 == 0;
            }
            return CuChoice::Lossless { mode, chroma, split };
        }
        let parts = place.size == 8 && !matches!(f.chroma, ChromaFormat::Yuv422);
        match self.draw(row, col, 22) % 3 {
            0 if parts => {
                let mut modes = [0u8; 4];
                let mut chromas = [0u8; 4];
                for i in 0..4 {
                    modes[i] = (self.draw(row, col, 40 + i) % 35) as u8;
                    chromas[i] = (self.draw(row, col, 50 + i) % 5) as u8;
                }
                CuChoice::Parts { modes, chromas }
            }
            1 => CuChoice::Split { mode, chroma },
            _ => CuChoice::Whole { mode, chroma },
        }
    }
}

#[test]
fn deblocking_reduces_actual_reconstruction_sse() {
    let (w, h) = (64usize, 64usize);
    let mut y = vec![0u16; w * h];
    for row in 0..h {
        for col in 0..w {
            y[row * w + col] = (48 + (3 * col + 2 * row) / 2).min(255) as u16;
        }
    }
    let yuv = Yuv {
        y: y.clone(),
        cb: vec![128; (w / 2) * (h / 2)],
        cr: vec![128; (w / 2) * (h / 2)],
        width: w as u32,
        height: h as u32,
        display_w: w as u32,
        display_h: h as u32,
        chroma: ChromaFormat::Yuv420,
        bit_depth: BitDepth::Eight,
    };
    let f = frame_for(&yuv, w as u32, h as u32);
    let (_, mut canvas, _) =
        encode_region_units(&f, &yuv, 38, false, false, true, &Vec::new(), &PlainLevels {});
    let sse = |rec: &[u16]| -> u64 {
        y.iter()
            .zip(rec)
            .map(|(&a, &b)| {
                let d = i64::from(a) - i64::from(b);
                (d * d) as u64
            })
            .sum()
    };
    let before = sse(&canvas.pic.y);
    filter_region(&f, &mut canvas, 38);
    let after = sse(&canvas.pic.y);
    assert!(after < before, "deblock SSE did not improve: {before} -> {after}");
}

#[test]
fn split_444_chroma_at_picture_bottom_does_not_overrun() {
    let (w, h) = (64usize, 64usize);
    let mut seed = 0x9e37_79b9u32;
    let mut plane = || (0..w * h).map(|_| noise(&mut seed) as u16).collect::<Vec<_>>();
    let yuv = Yuv {
        y: plane(),
        cb: plane(),
        cr: plane(),
        width: w as u32,
        height: h as u32,
        display_w: w as u32,
        display_h: h as u32,
        chroma: ChromaFormat::Yuv444,
        bit_depth: BitDepth::Eight,
    };
    for salt in 0..4 {
        let (output, _) = encode_region_substreams(
            &yuv,
            w as u32,
            h as u32,
            30,
            false,
            false,
            true,
            &Medley { salt },
        );
        assert_eq!(output.cb.len(), w * h);
        assert_eq!(output.cr.len(), w * h);
    }
}

const FORMATS: [ChromaFormat; 4] = [
    ChromaFormat::Monochrome,
    ChromaFormat::Yuv420,
    ChromaFormat::Yuv422,
    ChromaFormat::Yuv444,
];

#[test]
fn lossless_pictures_come_back() {
    for (i, chroma) in FORMATS.into_iter().enumerate() {
        let (w, h) = (100usize, 70usize);
        let yuv = picture(w, h, chroma, 11 + i as u32);
        let (r, out, _) = encode_intra(&yuv, 100, 70, 50, true, None, &Medley { salt: i });
        assert_eq!(r.unwrap().nalus.len(), 4);
        let stride = 128;
        for row in 0..h {
            assert_eq!(&out.y[row * stride..row * stride + w], &yuv.y[row * w..(row + 1) * w]);
        }
        if !chroma.is_monochrome() {
            let (cw, ch) = (w.div_ceil(chroma.sub_w()), h.div_ceil(chroma.sub_h()));
            let cs = stride / chroma.sub_w();
            for row in 0..ch {
                assert_eq!(&out.cb[row * cs..row * cs + cw], &yuv.cb[row * cw..(row + 1) * cw]);
                assert_eq!(&out.cr[row * cs..row * cs + cw], &yuv.cr[row * cw..(row + 1) * cw]);
            }
        }
    }
}

#[test]
fn lossless_tiles_come_back() {
    let (w, h) = (600usize, 40usize);
    let yuv = picture(w, h, ChromaFormat::Yuv420, 5);
    let (r, out, _) = encode_intra_opts(
        &yuv,
        w as u32,
        h as u32,
        50,
        true,
        None,
        true,
        true,
        4,
        &PlainLevels {},
    );
    assert!(r.is_ok());
    for row in 0..h {
        assert_eq!(&out.y[row * 640..row * 640 + w], &yuv.y[row * w..(row + 1) * w]);
    }
    // Two tiles of one row of coding tree units each.
    assert_eq!(out.substreams.len(), 2);
}

#[test]
fn finer_parameters_reconstruct_better() {
    let yuv = picture(64, 64, ChromaFormat::Yuv420, 3);
    let sse = |quality: u8| -> u64 {
        let (_, out, _) =
            encode_intra(&yuv, 64, 64, quality, false, None, &Medley { salt: 2 });
        yuv.y.iter().zip(&out.y).map(|(&a, &b)| (a as i64 - b as i64).pow(2) as u64).sum()
    };
    assert!(sse(100) < sse(60));
    assert!(sse(60) < sse(1));
}

#[test]
fn rows_of_a_wavefront_have_substreams() {
    let yuv = picture(192, 130, ChromaFormat::Yuv420, 8);
    let d = Medley { salt: 7 };
    let (one, _) = encode_region_substreams(&yuv, 192, 130, 30, false, false, true, &d);
    let (rows, _) = encode_region_substreams(&yuv, 192, 130, 30, false, true, true, &d);
    assert_eq!(one.substreams.len(), 1);
    assert_eq!(rows.substreams.len(), 3);
    // How the bins are shared out does not change what they say of the samples,
    // but for the parameters predicted at the start of a row.
    let (flat_one, _) = encode_region_substreams(&yuv, 192, 130, 20, false, false, true, &d);
    let (flat_rows, _) = encode_region_substreams(&yuv, 192, 130, 20, false, true, true, &d);
    assert_eq!(flat_one.y, flat_rows.y);
    assert_eq!(flat_one.cb, flat_rows.cb);
}

#[test]
fn a_flat_picture_costs_almost_nothing() {
    let yuv = Yuv {
        y: vec![128; 64 * 64],
        cb: vec![128; 32 * 32],
        cr: vec![128; 32 * 32],
        width: 64,
        height: 64,
        display_w: 64,
        display_h: 64,
        chroma: ChromaFormat::Yuv420,
        bit_depth: BitDepth::Eight,
    };
    let (r, out, _) = encode_intra(&yuv, 64, 64, 50, false, None, &PlainLevels {});
    assert!(out.y.iter().all(|&v| v == 128));
    let stream = r.unwrap();
    assert_eq!(stream.nalus[3].nal_type, 20);
    assert!(stream.nalus[3].data.len() < 16);
    assert_eq!(
        stream.nalus.iter().map(|n| n.nal_type).collect::<Vec<_>>(),
        vec![32, 33, 34, 20]
    );
}

#[test]
fn a_unit_changes_its_square_alone() {
    let yuv = picture(192, 64, ChromaFormat::Yuv420, 21);
    let mut other = picture(192, 64, ChromaFormat::Yuv420, 21);
    for row in 0..64 {
        for col in 128..192 {
            other.y[row * 192 + col] ^= 0x35;
        }
    }
    for row in 0..32 {
        for col in 64..96 {
            other.cb[row * 96 + col] ^= 0x1c;
        }
    }
    let f = frame_for(&yuv, 192, 64);
    let d = Medley { salt: 4 };
    let none = Vec::new();
    let (_, a, _) = encode_region_units(&f, &yuv, 28, false, false, true, &none, &d);
    let (_, b, _) = encode_region_units(&f, &other, 28, false, false, true, &none, &d);
    for row in 0..64 {
        assert_eq!(&a.pic.y[row * 192..row * 192 + 128], &b.pic.y[row * 192..row * 192 + 128]);
    }
    for row in 0..32 {
        assert_eq!(&a.pic.cb[row * 96..row * 96 + 64], &b.pic.cb[row * 96..row * 96 + 64]);
        assert_eq!(&a.pic.cr[row * 96..row * 96 + 64], &b.pic.cr[row * 96..row * 96 + 64]);
    }
    assert_ne!(a.pic.y, b.pic.y);
}

#[test]
fn lossless_padding_repeats_the_last_samples() {
    for (w, h, tiles) in [(100usize, 70usize, false), (600, 40, true)] {
        let yuv = picture(w, h, ChromaFormat::Yuv420, 31);
        let (r, out, _) = encode_intra_opts(
            &yuv,
            w as u32,
            h as u32,
            50,
            true,
            None,
            false,
            tiles,
            2,
            &Medley { salt: 6 },
        );
        assert!(r.is_ok());
        let (pw, ph) = (w.div_ceil(64) * 64, h.div_ceil(64) * 64);
        for row in 0..ph {
            for col in 0..pw {
                let from = yuv.y[row.min(h - 1) * w + col.min(w - 1)];
                assert_eq!(out.y[row * pw + col], from, "{row} {col}");
            }
        }
        for row in 0..ph / 2 {
            for col in 0..pw / 2 {
                let at = row.min(h / 2 - 1) * (w / 2) + col.min(w / 2 - 1);
                assert_eq!(out.cb[row * (pw / 2) + col], yuv.cb[at]);
                assert_eq!(out.cr[row * (pw / 2) + col], yuv.cr[at]);
            }
        }
    }
}

/// Codes every unit whole with one mode, and cuts everything or as little as possible.
struct OneMode {
    mode: u8,
    split: bool,
}

impl LevelChooser for OneMode {
    fn pick(&self, job: LevelJob, coeff: &Vec<i32>, ctx: &ContextSet) -> Vec<i16> {
        PlainLevels {}.pick(job, coeff, ctx)
    }
}

impl CuChooser for OneMode {
    fn qp_offsets(&self, f: &Frame, _src: &Yuv, _qp: u8) -> Vec<i8> {
        vec![0; (f.w / 64) * (f.h / 64)]
    }

    fn plan(
        &self,
        _f: &Frame,
        _src: &Yuv,
        _cv: &Canvas,
        _ctx: &ContextSet,
        _ictx: &IntraModeContexts,
        _place: CuPlace,
        _lossless: bool,
    ) -> Cu32Plan {
        Cu32Plan { split_32: self.split, split_16: [self.split; 4] }
    }

    fn pick_cu(
        &self,
        _f: &Frame,
        _src: &Yuv,
        _cv: &Canvas,
        _ctx: &ContextSet,
        _ictx: &IntraModeContexts,
        _place: CuPlace,
        _lossless: bool,
    ) -> CuChoice {
        CuChoice::Whole { mode: self.mode, chroma: CHROMA_DM_SYNTAX_IDX }
    }
}

#[test]
fn units_are_coded_as_they_are_chosen() {
    let yuv = picture(64, 64, ChromaFormat::Yuv420, 12);
    let f = frame_for(&yuv, 64, 64);
    let code = |mode: u8, split: bool| {
        let d = OneMode { mode, split };
        let (_, c, _) = encode_region_units(&f, &yuv, 32, false, false, true, &Vec::new(), &d);
        (c.modes, c.depth)
    };
    // Units of 32 samples, and of 8 where everything is cut.
    let (whole, cut) = (code(10, false), code(26, true));
    assert!(whole.0.iter().all(|&m| m == 10));
    assert!(cut.0.iter().all(|&m| m == 26));
    assert!(whole.1.iter().all(|&x| x == 1));
    assert!(cut.1.iter().all(|&x| x == 3));
}

#[test]
fn quality_is_clipped() {
    let yuv = picture(64, 64, ChromaFormat::Yuv420, 17);
    let code = |quality: u8| {
        let (r, out, _) = encode_intra(&yuv, 64, 64, quality, false, None, &PlainLevels {});
        let stream = r.unwrap();
        assert_eq!(&stream.nalus[3].data[..2], &[0x28, 0x01]);
        assert_eq!(out.y.len(), 64 * 64);
        (stream.nalus.iter().map(|n| n.data.clone()).collect::<Vec<_>>(), out.y)
    };
    assert_eq!(code(0), code(1));
    assert_eq!(code(101), code(100));
    assert_eq!(code(255), code(100));
    assert_ne!(code(1), code(100));
}
