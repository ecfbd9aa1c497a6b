use hpvca::candidates::IntraModeCandidate;
use hpvca::cuplan::CuPlace;
use hpvca::fmt::{BitDepth, ChromaFormat};
use hpvca::frame::Picture;
use hpvca::planes::Yuv;
use hpvca::region::frame_for;
use hpvca::shortlist::{
    cheapest, chroma_satds, luma_satds, modes_to_rank, modes_to_try, rank_chroma, seed_chroma,
    shortlist, COARSE_MODES,
};

fn flat(chroma: ChromaFormat, chroma_len: usize) -> Yuv {
    Yuv {
        y: vec![130; 64 * 64],
        cb: vec![7; chroma_len],
        cr: vec![9; chroma_len],
        width: 64,
        height: 64,
        display_w: 64,
        display_h: 64,
        chroma,
        bit_depth: BitDepth::Eight,
    }
}

fn listed(list: &[IntraModeCandidate]) -> Vec<(u8, u64)> {
    list.iter().map(|c| (c.mode, c.cost)).collect()
}

#[test]
fn modes_are_measured_by_what_they_leave() {
    let yuv = flat(ChromaFormat::Yuv420, 32 * 32);
    let f = frame_for(&yuv, 64, 64);
    let pic = Picture { y: yuv.y.clone(), cb: yuv.cb.clone(), cr: yuv.cr.clone() };
    // Nothing comes before the first block: it is predicted from the middle of the range.
    assert_eq!(luma_satds(&f, &yuv, &pic, 0, 0, 8, 8, &[0, 1, 26]), vec![64, 64, 64]);
    assert_eq!(luma_satds(&f, &yuv, &pic, 8, 8, 8, 8, &[0, 1, 18]), vec![0, 0, 0]);
    let place = CuPlace { row: 0, col: 0, size: 8, qp: 30 };
    assert_eq!(chroma_satds(&f, &yuv, &pic, place, 10), [968 + 952; 5]);
}

#[test]
fn the_cheapest_comes_first() {
    assert_eq!(cheapest(&[5, 3, 3, 9]), 1);
    assert_eq!(cheapest(&[4]), 0);
}

#[test]
fn ranked_modes_are_distinct() {
    let tail = |best: u8, mpm: [u8; 3]| -> Vec<u8> {
        let all = modes_to_rank(best, &mpm);
        assert_eq!(all[..11], COARSE_MODES);
        for (i, mode) in all.iter().enumerate() {
            assert!(!all[..i].contains(mode));
        }
        assert!(mpm.iter().all(|mode| all.contains(mode)));
        all[11..].to_vec()
    };
    assert_eq!(tail(18, [0, 1, 26]), vec![16, 17, 19, 20]);
    assert_eq!(tail(34, [3, 5, 26]), vec![32, 33, 3, 5]);
    assert_eq!(tail(2, [0, 1, 3]), vec![3, 4]);
    assert_eq!(tail(1, [0, 1, 7]), vec![7]);
}

#[test]
fn probable_modes_are_listed() {
    let (modes, costs) = ([0u8, 1, 2, 10, 26], [50u64, 40, 30, 20, 90]);
    let list = shortlist(&modes, &costs, 2, &[0, 1, 26], false);
    assert_eq!(listed(&list), vec![(10, 20), (2, 30), (1, 40), (0, 50), (26, 90)]);
    let list = shortlist(&modes, &costs, 2, &[0, 1, 2], false);
    assert_eq!(listed(&list), vec![(10, 20), (2, 30), (1, 40), (0, 50)]);
    let mut list = shortlist(&modes, &costs, 2, &[0, 1, 2], true);
    assert_eq!(listed(&list), vec![(10, 20), (2, 30), (1, 40), (0, 50), (26, 90)]);
    assert_eq!(modes_to_try(&mut list, 8, 45, true), 4);
    assert_eq!(listed(&list), vec![(10, 20), (2, 30), (1, 40), (26, 90), (0, 50)]);
    assert_eq!(modes_to_try(&mut list, 8, 35, false), 2);
}

#[test]
fn chroma_choices_are_ranked() {
    let list = rank_chroma(26, ChromaFormat::Yuv444, &[50, 40, 30, 20, 10]);
    let got: Vec<(u8, u8, u64)> =
        list.iter().map(|c| (c.syntax_idx, c.pred_mode, c.cost)).collect();
    assert_eq!(got, vec![(4, 26, 10), (3, 1, 20), (2, 10, 30), (1, 34, 40), (0, 0, 50)]);
    // Of equals the one that is ranked first stays first.
    let list = rank_chroma(26, ChromaFormat::Yuv444, &[1; 5]);
    assert_eq!(list.iter().map(|c| c.syntax_idx).collect::<Vec<u8>>(), vec![4, 0, 3, 1, 2]);
}

#[test]
fn the_upper_of_two_chroma_blocks_is_seeded() {
    let yuv = flat(ChromaFormat::Yuv422, 32 * 64);
    let f = frame_for(&yuv, 64, 64);
    let zeros = || Picture { y: vec![0; 64 * 64], cb: vec![0; 32 * 64], cr: vec![0; 32 * 64] };
    let mut pic = zeros();
    seed_chroma(&f, &yuv, &mut pic, CuPlace { row: 0, col: 0, size: 16, qp: 30 });
    assert_eq!((pic.cb[0], pic.cb[7 * 32 + 7], pic.cr[7 * 32]), (7, 7, 9));
    assert_eq!((pic.cb[8], pic.cb[8 * 32], pic.y[0]), (0, 0, 0));
    assert_eq!(pic.cb.iter().filter(|&&s| s == 7).count(), 64);
    let yuv = flat(ChromaFormat::Yuv444, 64 * 64);
    let f = frame_for(&yuv, 64, 64);
    let mut pic = Picture { y: vec![0; 4096], cb: vec![0; 4096], cr: vec![0; 4096] };
    seed_chroma(&f, &yuv, &mut pic, CuPlace { row: 0, col: 0, size: 16, qp: 30 });
    assert!(pic.cb.iter().all(|&s| s == 0));
}
