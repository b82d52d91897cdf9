use lenia_3::lenia::{
    blob_cells, blob_extent, brush_cells, fit_to_peak_count, odd_kernel_size, periodic_taps,
    wrap_index, GrowthFuncType, KernelCoreType, KernelMode,
};
use lenia_3::text::{ascii_space, chars_of, trim_chars, unicode_whitespace};

#[test]
fn labels_match_the_selectors() {
    assert_eq!(GrowthFuncType::Polynomial.as_str(), "POLYNOMIAL");
    assert_eq!(GrowthFuncType::Exponential.as_str(), "EXPONENTIAL");
    assert_eq!(GrowthFuncType::Step.as_str(), "STEP");
    assert_eq!(KernelMode::CenteredGaussian.as_str(), "CENTERED_GAUSSIAN");
    assert_eq!(KernelMode::GaussianRings.as_str(), "GAUSSIAN_RINGS");
    assert_eq!(KernelMode::LeniaBands.as_str(), "LENIA_BANDS");
    assert_eq!(KernelCoreType::Polynomial.as_str(), "POLYNOMIAL");
    assert_eq!(KernelCoreType::Exponential.as_str(), "EXPONENTIAL");
    assert_eq!(KernelCoreType::Step.as_str(), "STEP");
    assert_eq!(KernelCoreType::Staircase.as_str(), "STAIRCASE");
}

#[test]
fn official_indices_round_trip() {
    for t in [GrowthFuncType::Polynomial, GrowthFuncType::Exponential, GrowthFuncType::Step] {
        assert_eq!(GrowthFuncType::from_official_index(t.official_index()), Some(t));
        assert_eq!(GrowthFuncType::from_ffi_code(t.ffi_code()), Some(t));
    }
    for t in [
        KernelCoreType::Polynomial,
        KernelCoreType::Exponential,
        KernelCoreType::Step,
        KernelCoreType::Staircase,
    ] {
        assert_eq!(KernelCoreType::from_official_index(t.official_index()), Some(t));
    }
    assert_eq!(GrowthFuncType::from_official_index(0), None);
    assert_eq!(GrowthFuncType::from_official_index(4), None);
    assert_eq!(KernelCoreType::from_official_index(5), None);
    assert_eq!(GrowthFuncType::from_ffi_code(-1), None);
    assert_eq!(GrowthFuncType::from_ffi_code(3), None);
    assert_eq!(GrowthFuncType::from_ffi_code(1), Some(GrowthFuncType::Exponential));
}

#[test]
fn wrap_index_is_euclidean() {
    assert_eq!(wrap_index(-1, 5), 4);
    assert_eq!(wrap_index(7, 5), 2);
    assert_eq!(wrap_index(-10, 5), 0);
    assert_eq!(wrap_index(-11, 5), 4);
    assert_eq!(wrap_index(0, 1), 0);
    for turns in -4isize..=4 {
        assert_eq!(wrap_index(3 + 5 * turns, 5), 3);
    }
    assert_eq!(wrap_index(isize::MIN, 3), isize::MIN.rem_euclid(3) as usize);
    assert_eq!(wrap_index(isize::MAX, 7), isize::MAX.rem_euclid(7) as usize);
    let big = usize::MAX - 4;
    assert_eq!(wrap_index(-7, big), (-7isize).rem_euclid(big as isize) as usize);
    assert_eq!(wrap_index(123, big), 123isize.rem_euclid(big as isize) as usize);
}

#[test]
fn periodic_taps_wrap_around_the_torus() {
    assert_eq!(periodic_taps(0, 5, 10), vec![8, 9, 0, 1, 2]);
    assert_eq!(periodic_taps(9, 3, 10), vec![8, 9, 0]);
    assert_eq!(periodic_taps(1, 4, 3), vec![2, 0, 1, 2]);
    assert_eq!(periodic_taps(0, 0, 3), Vec::<usize>::new());
}

#[test]
fn kernel_side_is_odd() {
    assert_eq!(odd_kernel_size(0), 1);
    assert_eq!(odd_kernel_size(1), 1);
    assert_eq!(odd_kernel_size(20), 21);
    assert_eq!(odd_kernel_size(21), 21);
    assert_eq!(odd_kernel_size(odd_kernel_size(38)), 39);
}

#[test]
fn betas_fit_the_peak_count() {
    assert_eq!(fit_to_peak_count(&vec![1.0, 5.0], 3, 1.0), vec![1.0, 5.0, 5.0]);
    assert_eq!(fit_to_peak_count(&vec![1.0, 5.0], 1, 1.0), vec![1.0]);
    assert_eq!(fit_to_peak_count(&vec![1.0, 5.0], 0, 1.0), vec![1.0]);
    assert_eq!(fit_to_peak_count(&Vec::<f64>::new(), 2, 1.0), vec![1.0, 1.0]);
    let once = fit_to_peak_count(&vec![4.5, 2.0], 4, 1.0);
    assert_eq!(fit_to_peak_count(&once, 4, 7.0), once);
}

fn brute_brush(rows: usize, cols: usize, cc: usize, cr: usize, radius: usize) -> Vec<(usize, usize)> {
    let mut out = Vec::new();
    let r = radius as isize;
    for ro in -r..=r {
        for co in -r..=r {
            if ro * ro + co * co > r * r {
                continue;
            }
            let row = cr as isize + ro;
            let col = cc as isize + co;
            if row < 0 || col < 0 || row >= rows as isize || col >= cols as isize {
                continue;
            }
            out.push((row as usize, col as usize));
        }
    }
    out
}

#[test]
fn brush_covers_the_disc_inside_the_grid() {
    assert_eq!(brush_cells(10, 10, 5, 5, 1), vec![(4, 5), (5, 4), (5, 5), (5, 6), (6, 5)]);
    assert_eq!(brush_cells(3, 3, 0, 0, 1), vec![(0, 0), (0, 1), (1, 0)]);
    assert_eq!(brush_cells(4, 4, 1, 1, 0), vec![(1, 1)]);
    assert_eq!(brush_cells(5, 5, 2, usize::MAX, 2), vec![(0, 1), (0, 2), (0, 3), (1, 2)]);
    for &(rows, cols, cc, cr, radius) in &[(16, 9, 3, 7, 4), (5, 5, 12, 2, 9), (1, 1, 0, 0, 6), (8, 8, 7, 0, 3), (5, 5, 2, usize::MAX, 2)] {
        assert_eq!(brush_cells(rows, cols, cc, cr, radius), brute_brush(rows, cols, cc, cr, radius));
    }
}

#[test]
fn blob_covers_its_square() {
    assert_eq!(blob_extent(0), 1);
    assert_eq!(blob_extent(21), 21);
    let cells = blob_cells(10, 10, 0, 0, 3);
    let pos: Vec<(usize, usize, usize, usize)> =
        cells.iter().map(|c| (c.row, c.col, c.local_row, c.local_col)).collect();
    assert_eq!(pos, vec![(0, 0, 1, 1), (0, 1, 1, 2), (1, 0, 2, 1), (1, 1, 2, 2)]);
    assert_eq!(blob_cells(100, 100, 50, 50, 21).len(), 21 * 21);
    assert_eq!(blob_cells(100, 100, 50, 50, 0).len(), 1);
    assert_eq!(blob_cells(2, 2, 50, 50, 5).len(), 0);
    let wrapped = blob_cells(4, 4, 1, usize::MAX, 3);
    let pos: Vec<(usize, usize)> = wrapped.iter().map(|c| (c.row, c.col)).collect();
    assert_eq!(pos, vec![(0, 0), (0, 1), (0, 2)]);
}

#[test]
fn whitespace_classes_agree_with_std() {
    for code in 0u32..=0x10FFFF {
        if let Some(c) = char::from_u32(code) {
            assert_eq!(unicode_whitespace(c), c.is_whitespace(), "U+{code:04X}");
            assert_eq!(ascii_space(c), c.is_ascii_whitespace(), "U+{code:04X}");
        }
    }
}

#[test]
fn trim_agrees_with_std() {
    for s in ["", "  ", " a b ", "\u{3000}x\u{85}", "\u{200B}y", "\u{0B}z\u{0B}"] {
        let trimmed: String = trim_chars(&chars_of(s)).into_iter().collect();
        assert_eq!(trimmed, s.trim());
    }
}
