use libraytracer::image::{run_len, shares_of, ChunksInnerMut, Image};

fn collect_chunks(nx: usize, ny: usize, count: usize) -> Vec<Vec<(usize, usize)>> {
    let mut image: Image<u32> = Image::new((nx, ny), 0);
    let mut regions = Vec::new();
    let mut chunks = image.chunks_mut(count);
    while let Some(mut run) = chunks.next() {
        let mut coords = Vec::new();
        while let Some((coord, cell)) = run.next() {
            *cell += 1;
            coords.push(coord);
        }
        regions.push(coords);
    }
    for y in 0..ny {
        for x in 0..nx {
            assert_eq!(*image.index((x, y)), 1);
        }
    }
    regions
}

fn row_major(nx: usize, ny: usize) -> Vec<(usize, usize)> {
    let mut all = Vec::new();
    for y in 0..ny {
        for x in 0..nx {
            all.push((x, y));
        }
    }
    all
}

#[test]
fn new_fills_every_cell() {
    let image: Image<u8> = Image::new((3, 2), 7);
    assert_eq!(image.dimensions(), (3, 2));
    for y in 0..2 {
        for x in 0..3 {
            assert_eq!(*image.index((x, y)), 7);
        }
    }
}

#[test]
fn contains_checks_both_axes() {
    let image: Image<u8> = Image::new((3, 2), 0);
    assert!(image.contains((0, 0)));
    assert!(image.contains((2, 1)));
    assert!(!image.contains((3, 0)));
    assert!(!image.contains((0, 2)));
}

#[test]
fn set_writes_inside_and_ignores_outside() {
    let mut image: Image<u8> = Image::new((3, 2), 0);
    image.set((1, 1), 9);
    image.set((3, 0), 5);
    image.set((0, 2), 5);
    assert_eq!(*image.index((1, 1)), 9);
    let mut sum: u32 = 0;
    for y in 0..2 {
        for x in 0..3 {
            sum += *image.index((x, y)) as u32;
        }
    }
    assert_eq!(sum, 9);
}

#[test]
fn index_mut_writes_one_cell() {
    let mut image: Image<u8> = Image::new((2, 2), 1);
    *image.index_mut((1, 0)) = 4;
    assert_eq!(*image.index((0, 0)), 1);
    assert_eq!(*image.index((1, 0)), 4);
    assert_eq!(*image.index((0, 1)), 1);
    assert_eq!(*image.index((1, 1)), 1);
}

#[test]
fn index_follows_row_major_offset() {
    let mut image: Image<usize> = Image::new((3, 2), 0);
    let mut run = image.iter_mut();
    let mut place = 0;
    while let Some((_, cell)) = run.next() {
        *cell = place;
        place += 1;
    }
    assert_eq!(*image.index((2, 0)), 2);
    assert_eq!(*image.index((0, 1)), 3);
    assert_eq!(*image.index((3, 0)), 3);
}

#[test]
fn iter_mut_visits_rows_in_order() {
    let mut image: Image<u8> = Image::new((3, 2), 0);
    let mut run = image.iter_mut();
    let mut seen = Vec::new();
    while let Some((coord, _)) = run.next() {
        seen.push(coord);
    }
    assert_eq!(seen, vec![(0, 0), (1, 0), (2, 0), (0, 1), (1, 1), (2, 1)]);
}

#[test]
fn shares_round_the_run_length_up_and_count_the_runs() {
    assert_eq!(shares_of(10, 4), (3, 4));
    assert_eq!(shares_of(10, 5), (2, 5));
    assert_eq!(shares_of(10, 1), (10, 1));
    assert_eq!(shares_of(10, 3), (4, 3));
    assert_eq!(shares_of(10, 6), (2, 6));
    assert_eq!(shares_of(10, 20), (1, 10));
    assert_eq!(shares_of(0, 3), (0, 0));
    assert_eq!(shares_of(7, 0), (7, 1));
    assert_eq!(shares_of(250000, 6), (41667, 6));
}

#[test]
fn a_run_is_full_unless_later_runs_need_the_cells() {
    assert_eq!(run_len(10, 3, 4), 3);
    assert_eq!(run_len(4, 3, 2), 3);
    assert_eq!(run_len(1, 3, 1), 1);
    assert_eq!(run_len(10, 2, 6), 2);
    assert_eq!(run_len(2, 2, 2), 1);
    assert_eq!(run_len(1, 2, 1), 1);
    assert_eq!(run_len(5, 3, 0), 3);
    assert_eq!(run_len(2, 3, 9), 1);
    assert_eq!(run_len(0, 3, 2), 0);
    assert_eq!(run_len(5, 0, 2), 0);
}

fn chunk_sizes(nx: usize, ny: usize, count: usize) -> Vec<usize> {
    collect_chunks(nx, ny, count).iter().map(|r| r.len()).collect()
}

#[test]
fn runs_are_full_and_the_last_holds_what_is_left() {
    assert_eq!(chunk_sizes(5, 2, 4), vec![3, 3, 3, 1]);
    assert_eq!(chunk_sizes(5, 2, 3), vec![4, 4, 2]);
    assert_eq!(chunk_sizes(5, 2, 5), vec![2, 2, 2, 2, 2]);
    assert_eq!(chunk_sizes(5, 2, 1), vec![10]);
    let sizes = chunk_sizes(500, 500, 6);
    assert_eq!(sizes, vec![41667, 41667, 41667, 41667, 41667, 41665]);
}

#[test]
fn the_third_of_four_runs_starts_where_the_second_ends() {
    let regions = collect_chunks(5, 2, 4);
    assert_eq!(regions[2], vec![(1, 1), (2, 1), (3, 1)]);
    assert_eq!(regions[3], vec![(4, 1)]);
}

#[test]
fn six_workers_get_six_runs_of_a_five_by_two_buffer() {
    let regions = collect_chunks(5, 2, 6);
    assert_eq!(regions.len(), 6);
    let sizes: Vec<usize> = regions.iter().map(|r| r.len()).collect();
    assert_eq!(sizes, vec![2, 2, 2, 2, 1, 1]);
    let joined: Vec<(usize, usize)> = regions.into_iter().flatten().collect();
    assert_eq!(joined, row_major(5, 2));
}

#[test]
fn chunks_cover_every_pixel_once() {
    let cores = num_cpus::get();
    for &(nx, ny) in &[(5usize, 4usize), (1, 1), (7, 3), (4, 4)] {
        for &count in &[1usize, 2, cores, nx * ny] {
            let regions = collect_chunks(nx, ny, count);
            assert_eq!(regions.len(), count.min(nx * ny));
            assert!(regions.iter().all(|r| !r.is_empty()));
            let full = shares_of(nx * ny, count).0;
            assert!(regions.iter().all(|r| r.len() <= full));
            assert_eq!(regions[0].len(), full);
            let joined: Vec<(usize, usize)> = regions.into_iter().flatten().collect();
            assert_eq!(joined, row_major(nx, ny));
        }
    }
}

#[test]
fn chunks_track_their_starting_coordinate() {
    let regions = collect_chunks(5, 4, 3);
    assert_eq!(regions.len(), 3);
    assert_eq!(regions[0].len(), 7);
    assert_eq!(regions[1].len(), 7);
    assert_eq!(regions[2].len(), 6);
    assert_eq!(regions[0][0], (0, 0));
    assert_eq!(regions[1][0], (2, 1));
    assert_eq!(regions[2][0], (4, 2));
    assert_eq!(regions[2][1], (0, 3));
}

#[test]
fn chunks_of_an_empty_image_are_none() {
    assert!(collect_chunks(0, 5, 3).is_empty());
    assert!(collect_chunks(5, 0, 3).is_empty());
}

#[test]
fn zero_workers_get_one_chunk() {
    let regions = collect_chunks(3, 2, 0);
    assert_eq!(regions.len(), 1);
    assert_eq!(regions[0], row_major(3, 2));
}

fn interior(nx: usize, ny: usize) -> Vec<(usize, usize)> {
    let mut all = Vec::new();
    for y in 1..ny.saturating_sub(1) {
        for x in 1..nx.saturating_sub(1) {
            all.push((x, y));
        }
    }
    all
}

fn ring_untouched(image: &Image<u32>, nx: usize, ny: usize) {
    for y in 0..ny {
        for x in 0..nx {
            let inside = x >= 1 && x + 1 < nx && y >= 1 && y + 1 < ny;
            assert_eq!(*image.index((x, y)), if inside { 1 } else { 0 });
        }
    }
}

#[test]
fn iter_inner_mut_skips_the_outer_ring() {
    for &(nx, ny) in &[(5usize, 4usize), (3, 3), (4, 6), (2, 5), (5, 2), (1, 1), (0, 0), (1, 4)] {
        let mut image: Image<u32> = Image::new((nx, ny), 0);
        let mut run = image.iter_inner_mut();
        let mut seen = Vec::new();
        while let Some((coord, cell)) = run.next() {
            *cell += 1;
            seen.push(coord);
        }
        assert_eq!(seen, interior(nx, ny));
        ring_untouched(&image, nx, ny);
    }
}

#[test]
fn inner_chunks_cover_the_interior_once() {
    for &(nx, ny) in &[(5usize, 4usize), (3, 3), (4, 6), (2, 5), (5, 2), (6, 5)] {
        for &count in &[1usize, 2, 3, 7, nx * ny] {
            let mut image: Image<u32> = Image::new((nx, ny), 0);
            let mut joined = Vec::new();
            let mut regions = 0;
            let mut chunks = image.chunks_inner_mut(count);
            while let Some(mut run) = chunks.next() {
                regions += 1;
                let before = joined.len();
                while let Some((coord, cell)) = run.next() {
                    *cell += 1;
                    joined.push(coord);
                }
                assert!(joined.len() > before);
            }
            assert_eq!(regions, count.min(interior(nx, ny).len()));
            assert_eq!(joined, interior(nx, ny));
            ring_untouched(&image, nx, ny);
        }
    }
}

#[test]
fn a_run_started_mid_row_wraps_at_the_row_end() {
    let mut cells = [0u8; 5];
    let mut run = libraytracer::image::IterMut { cells: &mut cells, nx: 3, x: 2, y: 5 };
    let mut seen = Vec::new();
    let mut stamp = 1;
    while let Some((coord, cell)) = run.next() {
        *cell = stamp;
        stamp += 1;
        seen.push(coord);
    }
    assert_eq!(seen, vec![(2, 5), (0, 6), (1, 6), (2, 6), (0, 7)]);
    assert_eq!(cells, [1, 2, 3, 4, 5]);
}

#[test]
fn chunks_started_mid_row_hand_on_the_right_coordinate() {
    let mut cells = [0u8; 7];
    let mut chunks = libraytracer::image::ChunksMut {
        rest: &mut cells,
        chunk_size: 3,
        runs: 0,
        nx: 4,
        x: 3,
        y: 1,
    };
    let mut starts = Vec::new();
    let mut sizes = Vec::new();
    while let Some(run) = chunks.next() {
        starts.push((run.x, run.y));
        sizes.push(run.cells.len());
    }
    assert_eq!(starts, vec![(3, 1), (2, 2), (1, 3)]);
    assert_eq!(sizes, vec![3, 3, 1]);
}

#[test]
fn more_workers_than_pixels_get_one_pixel_each() {
    let regions = collect_chunks(3, 2, 50);
    assert_eq!(regions.len(), 6);
    for (place, region) in regions.iter().enumerate() {
        assert_eq!(region, &vec![(place % 3, place / 3)]);
    }
}

#[test]
fn a_filtered_run_leaves_border_columns_alone() {
    let mut cells = [0u8; 9];
    let run = libraytracer::image::IterMut { cells: &mut cells, nx: 4, x: 3, y: 1 };
    let mut inner = libraytracer::image::IterInnerMut { run };
    let mut seen = Vec::new();
    while let Some((coord, cell)) = inner.next() {
        *cell = 1;
        seen.push(coord);
    }
    assert_eq!(seen, vec![(1, 2), (2, 2), (1, 3), (2, 3)]);
    assert_eq!(cells, [0, 0, 1, 1, 0, 0, 1, 1, 0]);
}

#[test]
fn six_workers_get_six_runs_of_a_six_cell_interior() {
    let mut image: Image<u32> = Image::new((5, 4), 0);
    let mut regions = Vec::new();
    let mut chunks = image.chunks_inner_mut(6);
    while let Some(mut run) = chunks.next() {
        let mut coords = Vec::new();
        while let Some((coord, _)) = run.next() {
            coords.push(coord);
        }
        regions.push(coords);
    }
    assert_eq!(
        regions,
        vec![vec![(1, 1)], vec![(2, 1)], vec![(3, 1)], vec![(1, 2)], vec![(2, 2)], vec![(3, 2)]]
    );
}

#[test]
fn interior_runs_are_full_until_later_runs_need_the_cells() {
    let mut image: Image<u32> = Image::new((6, 5), 0);
    let mut sizes = Vec::new();
    let mut chunks = image.chunks_inner_mut(5);
    while let Some(mut run) = chunks.next() {
        let mut n = 0;
        while let Some(_) = run.next() {
            n += 1;
        }
        sizes.push(n);
    }
    assert_eq!(sizes, vec![3, 3, 3, 2, 1]);
}

#[test]
fn filtered_chunks_started_mid_row_count_inner_cells_only() {
    let mut cells = [0u8; 10];
    let mut chunks =
        ChunksInnerMut { rest: &mut cells, chunk_size: 3, runs: 2, inner: 5, nx: 4, x: 2, y: 1 };
    let mut regions = Vec::new();
    while let Some(mut run) = chunks.next() {
        let mut coords = Vec::new();
        while let Some((coord, cell)) = run.next() {
            *cell = 1;
            coords.push(coord);
        }
        regions.push(coords);
    }
    assert_eq!(regions, vec![vec![(2, 1), (1, 2), (2, 2)], vec![(1, 3), (2, 3)]]);
    assert_eq!(cells, [1, 0, 0, 1, 1, 0, 0, 1, 1, 0]);
}
