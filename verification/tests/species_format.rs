use lenia_3::grid::Grid;
use lenia_3::species::{
    centered_pattern_world, decode_cell_token, decode_rle_2d, recommended_world_size, shell_weight_terms, ScalarText,
};

fn levels(g: Grid<u32>) -> Vec<Vec<u32>> {
    g.into_rows()
}

fn text(v: &[char]) -> String {
    v.iter().collect()
}

fn parse_term(t: &ScalarText) -> Option<f64> {
    let num = text(&t.numerator).parse::<f64>().ok()?;
    match &t.denominator {
        Some(d) => {
            let den = text(d).parse::<f64>().ok()?;
            if den.abs() <= f64::EPSILON {
                None
            } else {
                Some(num / den)
            }
        }
        None => Some(num),
    }
}

#[test]
fn decode_rle_2d_pads_rows() {
    let pattern = decode_rle_2d("2A$B!").expect("pattern");
    assert_eq!(pattern.nrows(), 2);
    assert_eq!(pattern.ncols(), 2);
    assert!(pattern.get(0, 0) as f64 / 255.0 > 0.0);
    assert_eq!(pattern.get(1, 1) as f64 / 255.0, 0.0);
}

#[test]
fn decode_rle_2d_reads_levels_and_runs() {
    let rows = levels(decode_rle_2d("  3.pA$o2yX\n!! ").expect("pattern"));
    assert_eq!(rows, vec![vec![0, 0, 0, 25], vec![255, 264, 264, 0]]);
}

#[test]
fn decode_rle_2d_row_runs_add_empty_rows() {
    let rows = levels(decode_rle_2d("A3$B").expect("pattern"));
    assert_eq!(rows, vec![vec![1], vec![0], vec![0], vec![2]]);
}

#[test]
fn decode_rle_2d_counts_zero_and_overflow_as_one() {
    let rows = levels(decode_rle_2d("0A99999999999999999999999B").expect("pattern"));
    assert_eq!(rows, vec![vec![1, 2]]);
}

#[test]
fn decode_rle_2d_empty_source_is_one_empty_cell() {
    let rows = levels(decode_rle_2d("").expect("pattern"));
    assert_eq!(rows, vec![vec![0]]);
}

#[test]
fn decode_rle_2d_rejects_bad_tokens() {
    assert!(decode_rle_2d("A!B").is_none());
    assert!(decode_rle_2d("p$").is_none());
    assert!(decode_rle_2d("@A").is_none());
}

#[test]
fn decode_cell_token_levels() {
    assert_eq!(decode_cell_token(None, '.'), Some(0));
    assert_eq!(decode_cell_token(None, 'b'), Some(0));
    assert_eq!(decode_cell_token(None, 'o'), Some(255));
    assert_eq!(decode_cell_token(None, 'A'), Some(1));
    assert_eq!(decode_cell_token(None, 'X'), Some(24));
    assert_eq!(decode_cell_token(Some('p'), 'A'), Some(25));
    assert_eq!(decode_cell_token(Some('y'), 'O'), Some(9 * 24 + 14 + 25));
    assert_eq!(decode_cell_token(None, '!'), None);
    assert_eq!(decode_cell_token(Some('@'), 'A'), None);
    assert_eq!(decode_cell_token(Some('q'), '$'), None);
}

#[test]
fn parse_shell_weights_supports_fractions() {
    let terms = shell_weight_terms("5/12,1,1/2").expect("weights");
    let weights: Vec<f64> = terms.iter().map(|t| parse_term(t).expect("number")).collect();
    assert_eq!(weights.len(), 3);
    assert!((weights[0] - 5.0 / 12.0).abs() < 1e-9);
    assert!((weights[2] - 0.5).abs() < 1e-9);
}

#[test]
fn shell_weight_terms_split_and_trim() {
    let terms = shell_weight_terms(" 5 / 12 ,, 1 ,").expect("weights");
    assert_eq!(terms.len(), 2);
    assert_eq!(text(&terms[0].numerator), "5");
    assert_eq!(terms[0].denominator.as_ref().map(|d| text(d)), Some("12".to_string()));
    assert_eq!(text(&terms[1].numerator), "1");
    assert!(terms[1].denominator.is_none());
    assert!(shell_weight_terms(" , ,").is_none());
    assert!(shell_weight_terms("").is_none());
}

#[test]
fn recommended_world_size_rounds_and_clamps() {
    let pattern = Grid::filled(10, 20, 0u32);
    assert_eq!(recommended_world_size(&pattern, 13), 160);
    assert_eq!(recommended_world_size(&pattern, 0), 128);
    let wide = Grid::filled(3, 600, 0u32);
    assert_eq!(recommended_world_size(&wide, 25), 512);
    let exact = Grid::filled(1, 32, 0u32);
    assert_eq!(recommended_world_size(&exact, 10), 160);
}

#[test]
fn species_pattern_is_centred_in_its_world() {
    let pattern = decode_rle_2d("2A$B!").expect("pattern");
    let size = recommended_world_size(&pattern, 13);
    let world = centered_pattern_world(&pattern, size, size);
    assert_eq!(world.nrows(), 160);
    assert_eq!(world.ncols(), 160);
    assert_eq!(world.get(79, 79), 1);
    assert_eq!(world.get(79, 80), 1);
    assert_eq!(world.get(80, 79), 2);
    assert_eq!(world.get(80, 80), 0);
    let total: u32 = world.into_rows().iter().flatten().sum();
    assert_eq!(total, 4);
}

#[test]
fn centered_pattern_world_crops_large_patterns() {
    let pattern = decode_rle_2d("ABCDE$FGHIJ$KLMNO!").expect("pattern");
    let world = centered_pattern_world(&pattern, 1, 3);
    assert_eq!(world.into_rows(), vec![vec![7, 8, 9]]);
    let world = centered_pattern_world(&pattern, 4, 6);
    assert_eq!(
        world.into_rows(),
        vec![
            vec![1, 2, 3, 4, 5, 0],
            vec![6, 7, 8, 9, 10, 0],
            vec![11, 12, 13, 14, 15, 0],
            vec![0, 0, 0, 0, 0, 0],
        ]
    );
}
