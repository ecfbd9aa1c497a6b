use hpvca::cabac::contexts::{ContextSet, IntraModeContexts};
use hpvca::canvas::Canvas;
use hpvca::commit::{LevelChooser, LevelJob, PlainLevels};
use hpvca::ctu::{Cu32Plan, CuChooser};
use hpvca::cuplan::{CuChoice, CuPlace};
use hpvca::fmt::{BitDepth, ChromaFormat};
use hpvca::frame::Frame;
use hpvca::nal::{escaped, NaluStream};
use hpvca::picture::encode_intra_opts;
use hpvca::planes::Yuv;
use hpvca::region::RegionOutput;

fn noise(seed: &mut u32) -> u32 {
    *seed = seed.wrapping_mul(1_664_525).wrapping_add(1_013_904_223);
    *seed >> 16
}

/// Slopes with noise on them.
fn picture(w: usize, h: usize, chroma: ChromaFormat, bit_depth: BitDepth, mut seed: u32) -> Yuv {
    let (cw, ch) = if chroma.is_monochrome() {
        (0, 0)
    } else {
        (w.div_ceil(chroma.sub_w()), h.div_ceil(chroma.sub_h()))
    };
    let max = u32::from(bit_depth.max_val());
    let mut plane = |w: usize, h: usize| -> Vec<u16> {
        (0..w * h)
            .map(|i| {
                let slope = (3 * (i % w) + 2 * (i / w)) as u32 * (max + 1) / 512;
                ((slope + noise(&mut seed) % (max / 8)) % (max + 1)) as u16
            })
            .collect()
    };
    Yuv {
        y: plane(w, h),
        cb: plane(cw.max(1), ch),
        cr: plane(cw.max(1), ch),
        width: w as u32,
        height: h as u32,
        display_w: w as u32,
        display_h: h as u32,
        chroma,
        bit_depth,
    }
}

/// Makes decisions that depend on the place alone, so that the ways of coding a unit
/// come up. Chroma is predicted without smoothing, and luma without an edge filter
/// where nothing is lost.
struct Medley {
    salt: usize,
    /// Units of eight samples are left whole where their chroma would be shared.
    large: bool,
}

impl Medley {
    fn draw(&self, row: usize, col: usize, what: usize) -> usize {
        let x = (row * 7919 + col * 104_729 + what * 1_299_709 + self.salt * 31) as u32;
        (x.wrapping_mul(2_654_435_761) >> 12) as usize
    }
}

impl LevelChooser for Medley {
    fn pick(&self, job: LevelJob, coeff: &Vec<i32>, ctx: &ContextSet) -> Vec<i16> {
        PlainLevels {}.pick(job, coeff, ctx)
    }
}

impl CuChooser for Medley {
    fn qp_offsets(&self, f: &Frame, _src: &Yuv, _qp: u8) -> Vec<i8> {
        (0..(f.w / 64) * (f.h / 64)).map(|k| (self.draw(k, k, 1) % 7) as i8 - 3).collect()
    }

    fn plan(
        &self,
        _f: &Frame,
        _src: &Yuv,
        _cv: &Canvas,
        _ctx: &ContextSet,
        _ictx: &IntraModeContexts,
        place: CuPlace,
        _lossless: bool,
    ) -> Cu32Plan {
        let mut split_16 = [false; 4];
        for (i, s) in split_16.iter_mut().enumerate() {
            *s = self.draw(place.row, place.col, i) % 2 == 0;
        }
        Cu32Plan { split_32: self.draw(place.row, place.col, 9) % 3 != 0, split_16 }
    }

    fn pick_cu(
        &self,
        f: &Frame,
        _src: &Yuv,
        _cv: &Canvas,
        _ctx: &ContextSet,
        _ictx: &IntraModeContexts,
        place: CuPlace,
        lossless: bool,
    ) -> CuChoice {
        let (row, col) = (place.row, place.col);
        let mode = match (self.draw(row, col, 20) % 35) as u8 {
            m @ (1 | 10 | 26) => m + 1,
            m => m,
        };
        let chroma = 1 + (self.draw(row, col, 21) % 3) as u8;
        if lossless {
            let mut split = [false; 85];
            for (i, s) in split.iter_mut().enumerate() {
                *s = self.draw(row, col, 30 + i) % 2 == 0;
            }
            return CuChoice::Lossless { mode, chroma, split };
        }
        let parts = place.size == 8 && !matches!(f.chroma, ChromaFormat::Yuv422);
        let whole = self.large
            && place.size == 8
            && matches!(f.chroma, ChromaFormat::Yuv420 | ChromaFormat::Yuv422);
        match self.draw(row, col, 22) % 3 {
            _ if whole => CuChoice::Whole { mode, chroma },
            0 if parts => {
                let mut modes = [0u8; 4];
                let mut chromas = [0u8; 4];
                for i in 0..4 {
                    modes[i] = match (self.draw(row, col, 40 + i) % 35) as u8 {
                        m @ (1 | 10 | 26) => m + 1,
                        m => m,
                    };
                    chromas[i] = 1 + (self.draw(row, col, 50 + i) % 3) as u8;
                }
                CuChoice::Parts { modes, chromas }
            }
            1 => CuChoice::Split { mode, chroma },
            _ => CuChoice::Whole { mode, chroma },
        }
    }
}

/// The units as a stream of bytes, each after a start code.
fn bytes_of(stream: &NaluStream) -> Vec<u8> {
    let mut out = Vec::new();
    for n in &stream.nalus {
        out.extend_from_slice(&[0, 0, 0, 1]);
        out.extend_from_slice(&escaped(&n.data));
    }
    out
}

/// A decoder sees the planes that the encoder has reconstructed.
fn assert_decodes(stream: &NaluStream, out: &RegionOutput, what: &str) {
    let frames = match hpvcd::decode_hevc(&bytes_of(stream)) {
        Ok(frames) => frames,
        Err(e) => panic!("{what}: {e}"),
    };
    assert_eq!(frames.len(), 1, "{what}");
    let p = &frames[0].planes;
    assert!(p.y == out.y, "{what}: luma differs");
    if !matches!(p.chroma, hpvcd::ChromaFormat::Monochrome) {
        assert!(p.cb == out.cb, "{what}: first chroma plane differs");
        assert!(p.cr == out.cr, "{what}: second chroma plane differs");
    }
}

const FORMATS: [ChromaFormat; 4] = [
    ChromaFormat::Monochrome,
    ChromaFormat::Yuv420,
    ChromaFormat::Yuv422,
    ChromaFormat::Yuv444,
];

fn check(w: u32, h: u32, depth: BitDepth, quality: u8, lossless: bool, wpp: bool, tiles: bool) {
    for (i, chroma) in FORMATS.into_iter().enumerate() {
        let yuv = picture(w as usize, h as usize, chroma, depth, 7 + i as u32);
        let (r, out, _) = encode_intra_opts(
            &yuv,
            w,
            h,
            quality,
            lossless,
            None,
            wpp,
            tiles,
            4,
            &Medley { salt: i + usize::from(quality), large: quality < 67 },
        );
        assert_decodes(&r.unwrap(), &out, &format!("{chroma:?}"));
    }
}

#[test]
fn plain_pictures_decode() {
    for (i, chroma) in FORMATS.into_iter().enumerate() {
        let yuv = picture(72, 80, chroma, BitDepth::Eight, i as u32);
        let (r, out, _) =
            encode_intra_opts(&yuv, 72, 80, 70, false, None, false, false, 1, &PlainLevels {});
        assert_decodes(&r.unwrap(), &out, &format!("{chroma:?}"));
    }
}

#[test]
fn split_pictures_decode_at_high_quality() {
    check(128, 128, BitDepth::Eight, 95, false, false, false);
}

#[test]
fn split_pictures_decode_at_low_quality() {
    check(128, 128, BitDepth::Eight, 20, false, false, false);
}

#[test]
fn pictures_of_odd_sizes_decode() {
    check(130, 70, BitDepth::Eight, 60, false, false, false);
}

#[test]
fn deep_pictures_decode() {
    check(128, 64, BitDepth::Ten, 60, false, false, false);
    check(128, 64, BitDepth::Twelve, 60, false, false, false);
}

#[test]
fn lossless_pictures_decode() {
    check(128, 128, BitDepth::Eight, 50, true, false, false);
    check(128, 64, BitDepth::Ten, 50, true, false, false);
}

#[test]
fn wavefronts_decode() {
    check(192, 192, BitDepth::Eight, 40, false, true, false);
    check(192, 128, BitDepth::Eight, 40, true, true, false);
}

#[test]
fn tiles_decode() {
    check(640, 192, BitDepth::Eight, 30, false, true, true);
    check(640, 128, BitDepth::Eight, 30, true, true, true);
}
