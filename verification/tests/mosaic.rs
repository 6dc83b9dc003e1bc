use advent_puzzles::day_twenty::classify_tiles;
use advent_puzzles::day_twenty::corner_id_product;
use advent_puzzles::day_twenty::encode_row;
use advent_puzzles::day_twenty::mirror_row;
use advent_puzzles::day_twenty::populate_matches;
use advent_puzzles::day_twenty::read_image_signatures;
use advent_puzzles::day_twenty::Block;
use advent_puzzles::day_twenty::Flip;
use advent_puzzles::day_twenty::PuzzleError;
use advent_puzzles::day_twenty::Rotate;

/// Writes the text lines of one tile block whose four borders carry the
/// given bit patterns (top and bottom as rows, left and right as the
/// columns' bits top to bottom) and whose interior is blank.
fn tile_lines(id: u16, top: u16, right: u16, bottom: u16, left: u16, out: &mut Vec<String>) {
    out.push(format!("Tile {}:", id));
    for y in 0..10 {
        let row: u16 = if y == 0 {
            top
        } else if y == 9 {
            bottom
        } else {
            (if left & (1 << y) != 0 { 1 } else { 0 })
                | (if right & (1 << y) != 0 { 1 << 9 } else { 0 })
        };
        let mut line = String::new();
        for x in 0..10 {
            line.push(if row & (1u16 << x) != 0 { '#' } else { '.' });
        }
        out.push(line);
    }
    out.push(String::new());
}

/// A three-by-three mosaic whose twelve interior edges share patterns and
/// whose twelve boundary edges are pairwise distinct, also under
/// mirroring. Returns its input text.
fn sample_mosaic_lines() -> Vec<String> {
    let ids = [[1951u16, 2311, 3079], [2729, 1427, 2473], [2971, 1489, 1171]];
    // Distinct eight-bit patterns (shifted into bits 1..=8) whose
    // reversals stay outside the set, so no two boundary edges fit.
    let horizontal = [[1u16, 2, 3], [4, 5, 6]];
    let vertical = [[7u16, 8], [9, 10], [11, 12]];
    let boundary_top = [13u16, 14, 15];
    let boundary_bottom = [17u16, 18, 19];
    let boundary_left = [20u16, 21, 22];
    let boundary_right = [23u16, 24, 25];
    let mut lines = Vec::new();
    for gy in 0..3 {
        for gx in 0..3 {
            let top = if gy == 0 { boundary_top[gx] } else { horizontal[gy - 1][gx] };
            let bottom = if gy == 2 { boundary_bottom[gx] } else { horizontal[gy][gx] };
            let left = if gx == 0 { boundary_left[gy] } else { vertical[gy][gx - 1] };
            let right = if gx == 2 { boundary_right[gy] } else { vertical[gy][gx] };
            tile_lines(ids[gy][gx], top << 1, right << 1, bottom << 1, left << 1, &mut lines);
        }
    }
    lines
}

#[test]
fn should_multiply_corner_ids_of_sample_mosaic() {
    let lines = sample_mosaic_lines();
    let mut tiles = read_image_signatures(&lines);
    assert_eq!(tiles.len(), 9);
    populate_matches(&mut tiles);
    let product = corner_id_product(&tiles);
    assert_eq!(product, Ok(20899048083289u64));
}

#[test]
fn should_classify_sample_mosaic_tiles() {
    let lines = sample_mosaic_lines();
    let mut tiles = read_image_signatures(&lines);
    populate_matches(&mut tiles);
    // four corners, 2(3 + 3 - 4) = 4 edge tiles, (3-2)(3-2) = 1 interior
    assert_eq!(classify_tiles(&tiles), Ok((4, 4, 1)));
}

#[test]
fn should_find_identical_matches_on_a_second_pass() {
    let lines = sample_mosaic_lines();
    let mut once = read_image_signatures(&lines);
    populate_matches(&mut once);
    let mut twice = read_image_signatures(&lines);
    populate_matches(&mut twice);
    populate_matches(&mut twice);
    for (a, b) in once.iter().zip(twice.iter()) {
        assert_eq!(a.matching_ids, b.matching_ids);
    }
}

#[test]
fn should_record_reciprocal_matches_with_equal_flags() {
    let lines = sample_mosaic_lines();
    let mut tiles = read_image_signatures(&lines);
    populate_matches(&mut tiles);
    for a in 0..tiles.len() {
        for side in 0..4 {
            if let Some((other_id, flag)) = tiles[a].matching_ids[side] {
                let b = tiles.iter().position(|t| t.id == other_id).unwrap();
                let mut back = None;
                for m in tiles[b].matching_ids.iter() {
                    if let Some((id, f)) = m {
                        if *id == tiles[a].id {
                            back = Some((*id, *f));
                        }
                    }
                }
                let back = back.unwrap();
                assert_eq!(back.0, tiles[a].id);
                assert_eq!(back.1, flag);
            }
        }
    }
}

#[test]
fn should_report_unsolvable_when_a_tile_is_isolated() {
    let mut lines = sample_mosaic_lines();
    // a tenth tile whose borders fit nothing
    tile_lines(7001, 26 << 1, 29 << 1, 37 << 1, 38 << 1, &mut lines);
    let mut tiles = read_image_signatures(&lines);
    assert_eq!(tiles.len(), 10);
    populate_matches(&mut tiles);
    assert_eq!(corner_id_product(&tiles), Err(PuzzleError::UnsolvablePuzzle));
    assert_eq!(classify_tiles(&tiles), Err(PuzzleError::UnsolvablePuzzle));
}

#[test]
fn should_mirror_rows_as_an_involution() {
    for v in [0u16, 1, 0b1000000000, 0b0110010011, 0b1111111111] {
        assert_eq!(mirror_row(mirror_row(v)), v);
    }
    assert_eq!(mirror_row(0), 0);
    assert_eq!(mirror_row(0b1111111111), 0b1111111111);
    assert_eq!(mirror_row(0b0000000001), 0b1000000000);
    assert_eq!(mirror_row(0b0000000110), 0b0110000000);
}

#[test]
fn should_encode_pixel_rows() {
    assert_eq!(encode_row("##........"), Ok(3));
    assert_eq!(encode_row(".........#"), Ok(512));
    assert_eq!(encode_row(".........."), Ok(0));
    assert_eq!(encode_row("#########"), Err(PuzzleError::MalformedTile));
    assert_eq!(encode_row("###########"), Err(PuzzleError::MalformedTile));
}

#[test]
fn should_expose_borders_in_both_readings() {
    let rows = vec![
        0b0000000011u16, // top row: pixels 0 and 1 on
        0b1000000000,
        0, 0, 0, 0, 0, 0,
        0b0000000001,
        0b1100000000, // bottom row: pixels 8 and 9 on
    ];
    let block = Block::new(77, rows);
    assert_eq!(block.border(0), 0b0000000011);
    assert_eq!(block.mirrored_border(0), 0b1100000000);
    assert_eq!(block.border(2), 0b1100000000);
    // right column: rows 1 and 9 have pixel 9 on
    assert_eq!(block.border(1), 0b1000000010);
    // left column: rows 0 and 8 have pixel 0 on
    assert_eq!(block.border(3), 0b0100000001);
}

#[test]
fn should_keep_rows_under_identity_transform() {
    let lines = sample_mosaic_lines();
    let tiles = read_image_signatures(&lines);
    let t = &tiles[0];
    assert_eq!(t.transformed_rows(Flip::Identity, Rotate::Identity), t.rows);
}

#[test]
fn should_restore_rows_after_two_half_turns() {
    let lines = sample_mosaic_lines();
    let tiles = read_image_signatures(&lines);
    let t = &tiles[4];
    let once = t.transformed_rows(Flip::Identity, Rotate::RotateRightRight);
    let half = Block::new(t.id, once);
    let twice = half.transformed_rows(Flip::Identity, Rotate::RotateRightRight);
    assert_eq!(twice, t.rows);
}

#[test]
fn should_rotate_a_quarter_turn_clockwise() {
    // single pixel at row 0, column 1 moves to row 1, column 9
    let mut rows = vec![0u16; 10];
    rows[0] = 0b10;
    let block = Block::new(5, rows);
    let turned = block.transformed_rows(Flip::Identity, Rotate::RotateRight);
    let mut expected = vec![0u16; 10];
    expected[1] = 0b1000000000;
    assert_eq!(turned, expected);
}

#[test]
fn should_flip_rows_left_to_right() {
    let mut rows = vec![0u16; 10];
    rows[3] = 0b0000000101;
    let block = Block::new(6, rows);
    let flipped = block.transformed_rows(Flip::FlipX, Rotate::Identity);
    let mut expected = vec![0u16; 10];
    expected[3] = 0b1010000000;
    assert_eq!(flipped, expected);
}

#[test]
fn should_pick_the_rotation_that_faces_a_corner_top_left() {
    let lines = sample_mosaic_lines();
    let mut tiles = read_image_signatures(&lines);
    populate_matches(&mut tiles);
    // the first tile is the top-left corner already: top and left unmatched
    assert_eq!(tiles[0].start_corner_rotation(), Ok(Rotate::Identity));
    // the top-right corner needs a quarter turn anti-clockwise
    assert_eq!(tiles[2].start_corner_rotation(), Ok(Rotate::RotateLeft));
    // the bottom-left corner needs a quarter turn clockwise
    assert_eq!(tiles[6].start_corner_rotation(), Ok(Rotate::RotateRight));
    // the bottom-right corner needs a half turn
    assert_eq!(tiles[8].start_corner_rotation(), Ok(Rotate::RotateRightRight));
    // an edge tile has only one unmatched side
    assert_eq!(
        tiles[1].start_corner_rotation(),
        Err(PuzzleError::UnsolvablePuzzle)
    );
}

#[test]
fn should_skip_malformed_tile_blocks() {
    let mut lines = Vec::new();
    tile_lines(11, 2, 4, 6, 8, &mut lines);
    lines.push(String::from("Tile x:"));
    lines.push(String::from("##########"));
    lines.push(String::new());
    tile_lines(12, 10, 12, 14, 16, &mut lines);
    let tiles = read_image_signatures(&lines);
    assert_eq!(tiles.len(), 2);
    assert_eq!(tiles[0].id, 11);
    assert_eq!(tiles[1].id, 12);
}

#[test]
fn should_read_ids_and_rows_from_tile_text() {
    let lines = vec![
        String::from("Tile 1234:"),
        String::from("#........."),
        String::from(".#........"),
        String::from("..#......."),
        String::from("...#......"),
        String::from("....#....."),
        String::from(".....#...."),
        String::from("......#..."),
        String::from(".......#.."),
        String::from("........#."),
        String::from(".........#"),
    ];
    let tiles = read_image_signatures(&lines);
    assert_eq!(tiles.len(), 1);
    assert_eq!(tiles[0].id, 1234);
    for y in 0..10 {
        assert_eq!(tiles[0].rows[y], 1u16 << y);
    }
}

#[test]
fn should_keep_the_first_match_of_a_side() {
    // tiles 102 and 103 both carry the fingerprint of tile 101's right
    // side on their left; the earlier pairing wins and is never replaced
    let mut lines = Vec::new();
    tile_lines(101, 1 << 1, 7 << 1, 2 << 1, 3 << 1, &mut lines);
    tile_lines(102, 4 << 1, 5 << 1, 6 << 1, 7 << 1, &mut lines);
    tile_lines(103, 8 << 1, 9 << 1, 10 << 1, 7 << 1, &mut lines);
    let mut tiles = read_image_signatures(&lines);
    populate_matches(&mut tiles);
    let (first_neighbour, _) = tiles[0].matching_ids[1].unwrap();
    assert_eq!(first_neighbour, 102);
    assert_eq!(tiles[2].matching_ids, vec![None, None, None, None]);
    // pairing again changes nothing
    let before: Vec<Vec<Option<(u16, bool)>>> =
        tiles.iter().map(|t| t.matching_ids.clone()).collect();
    populate_matches(&mut tiles);
    let after: Vec<Vec<Option<(u16, bool)>>> =
        tiles.iter().map(|t| t.matching_ids.clone()).collect();
    assert_eq!(before, after);
}
