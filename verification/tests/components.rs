use private_count::count_rgb::ccl;

fn mask(width: u32, height: u32, on: &[(u32, u32)]) -> Vec<bool> {
    let mut cells = vec![false; (width * height) as usize];
    for &(x, y) in on {
        cells[(y * width + x) as usize] = true;
    }
    cells
}

fn drawn(rows: &[&str]) -> (u32, u32, Vec<bool>) {
    let cells = rows.iter().flat_map(|row| row.bytes().map(|b| b == b'#')).collect();
    (rows[0].len() as u32, rows.len() as u32, cells)
}

fn count(rows: &[&str]) -> u32 {
    let (width, height, cells) = drawn(rows);
    ccl(width, height, &cells)
}

/// Regions counted by merging neighbours into classes.
fn classes(width: u32, height: u32, cells: &[bool]) -> u32 {
    fn find(parent: &mut Vec<usize>, mut a: usize) -> usize {
        while parent[a] != a {
            parent[a] = parent[parent[a]];
            a = parent[a];
        }
        a
    }
    let (w, h) = (width as usize, height as usize);
    let mut parent: Vec<usize> = (0..w * h).collect();
    for y in 0..h {
        for x in 0..w {
            let a = y * w + x;
            if !cells[a] {
                continue;
            }
            if x + 1 < w && cells[a + 1] {
                let (ra, rb) = (find(&mut parent, a), find(&mut parent, a + 1));
                parent[ra] = rb;
            }
            if y + 1 < h && cells[a + w] {
                let (ra, rb) = (find(&mut parent, a), find(&mut parent, a + w));
                parent[ra] = rb;
            }
        }
    }
    (0..w * h).filter(|&a| cells[a] && find(&mut parent, a) == a).count() as u32
}

#[test]
fn two_far_corners_are_two_components() {
    let cells = mask(4, 4, &[(0, 0), (3, 3)]);
    assert_eq!(ccl(4, 4, &cells), 2);
}

#[test]
fn full_three_by_three_is_one_component() {
    let cells = vec![true; 9];
    assert_eq!(ccl(3, 3, &cells), 1);
}

#[test]
fn a_full_mask_is_one_component() {
    for (w, h) in [(1u32, 1u32), (1, 7), (7, 1), (2, 2), (5, 4), (16, 16)] {
        let cells = vec![true; (w * h) as usize];
        assert_eq!(ccl(w, h, &cells), 1);
    }
}

#[test]
fn all_false_mask_has_no_component() {
    for (w, h) in [(0u32, 0u32), (1, 1), (4, 4), (7, 3), (1, 9), (0, 5), (5, 0)] {
        let cells = vec![false; (w * h) as usize];
        assert_eq!(ccl(w, h, &cells), 0);
    }
}

#[test]
fn diagonal_neighbours_are_two_components() {
    let cells = mask(2, 2, &[(0, 0), (1, 1)]);
    assert_eq!(ccl(2, 2, &cells), 2);
    let cells = mask(3, 3, &[(0, 0), (1, 1)]);
    assert_eq!(ccl(3, 3, &cells), 2);
    let cells = mask(2, 2, &[(1, 0), (0, 1)]);
    assert_eq!(ccl(2, 2, &cells), 2);
}

#[test]
fn a_chessboard_has_a_component_for_each_field() {
    assert_eq!(count(&["#.#.#", ".#.#.", "#.#.#"]), 8);
    assert_eq!(count(&[".#.#", "#.#.", ".#.#", "#.#."]), 8);
}

#[test]
fn the_end_of_a_row_does_not_touch_the_start_of_the_next() {
    assert_eq!(count(&["..#", "#.."]), 2);
    assert_eq!(count(&["#", "#"]), 1);
    assert_eq!(count(&["##"]), 1);
    assert_eq!(count(&["#.#"]), 2);
}

#[test]
fn winding_regions_are_one_component() {
    assert_eq!(count(&["#####", "....#", "###.#", "#...#", "#####"]), 1);
    assert_eq!(count(&["#.#", "#.#", "###"]), 1);
    assert_eq!(count(&["###", "#.#", "###"]), 1);
    assert_eq!(count(&["#.###", "#.#.#", "#.#.#", "###.#"]), 1);
}

#[test]
fn a_region_inside_a_ring_is_counted_apart() {
    assert_eq!(count(&["#####", "#...#", "#.#.#", "#...#", "#####"]), 2);
    assert_eq!(count(&["##.##", "##.##", ".....", "##.##", "##.##"]), 4);
}

#[test]
fn regions_that_meet_late_in_the_scan_are_one() {
    assert_eq!(count(&["#...#", "#...#", "#####"]), 1);
    assert_eq!(count(&["#.#.#.#", "#.#.#.#", "#######"]), 1);
    assert_eq!(count(&["..#", ".##", "##."]), 1);
}

#[test]
fn counts_agree_with_merging_neighbours() {
    let mut state: u64 = 0x2545_f491_4f6c_dd1d;
    for round in 0..200u32 {
        let width = 1 + round % 9;
        let height = 1 + (round / 9) % 7;
        let mut cells = Vec::new();
        for _ in 0..width * height {
            state ^= state << 13;
            state ^= state >> 7;
            state ^= state << 17;
            cells.push(state % 100 < 35 + u64::from(round % 4) * 10);
        }
        assert_eq!(ccl(width, height, &cells), classes(width, height, &cells));
    }
}
