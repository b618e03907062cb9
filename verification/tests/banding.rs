use mandelbrot_set::{plan_bands, rows_per_band, split_bands, Band};

fn check_partition(height: usize, workers: usize) {
    let bands = plan_bands(height, workers);
    let rows = rows_per_band(height, workers);
    assert!(bands.len() <= workers);
    let mut next = 0;
    for (index, band) in bands.iter().enumerate() {
        assert_eq!(band.top, next);
        assert_eq!(band.top, index * rows);
        assert!(band.height > 0);
        assert!(band.height <= rows);
        if index + 1 < bands.len() {
            assert_eq!(band.height, rows);
        }
        next = band.top + band.height;
    }
    assert_eq!(next, height);
}

#[test]
fn rows_per_band_rounds_down_and_adds_one() {
    assert_eq!(rows_per_band(750, 8), 94);
    assert_eq!(rows_per_band(8, 8), 2);
    assert_eq!(rows_per_band(1, 4), 1);
    assert_eq!(rows_per_band(0, 3), 1);
    assert_eq!(rows_per_band(10, 1), 11);
}

#[test]
fn plan_bands_of_ten_rows_for_three_workers() {
    assert_eq!(
        plan_bands(10, 3),
        vec![
            Band { top: 0, height: 4 },
            Band { top: 4, height: 4 },
            Band { top: 8, height: 2 },
        ]
    );
}

#[test]
fn plan_bands_with_one_worker_is_one_band() {
    assert_eq!(plan_bands(10, 1), vec![Band { top: 0, height: 10 }]);
}

#[test]
fn plan_bands_with_more_workers_than_rows() {
    assert_eq!(plan_bands(1, 4), vec![Band { top: 0, height: 1 }]);
    assert_eq!(
        plan_bands(3, 8),
        vec![
            Band { top: 0, height: 1 },
            Band { top: 1, height: 1 },
            Band { top: 2, height: 1 },
        ]
    );
}

#[test]
fn plan_bands_of_an_even_share_needs_fewer_bands() {
    assert_eq!(
        plan_bands(8, 4),
        vec![
            Band { top: 0, height: 3 },
            Band { top: 3, height: 3 },
            Band { top: 6, height: 2 },
        ]
    );
}

#[test]
fn plan_bands_of_no_rows_is_empty() {
    assert_eq!(plan_bands(0, 5), Vec::<Band>::new());
}

#[test]
fn bands_cover_every_row_once() {
    for height in 0..40 {
        for workers in 1..12 {
            check_partition(height, workers);
        }
    }
    check_partition(750, 8);
    check_partition(1080, 7);
}

#[test]
fn split_bands_gives_the_rows_of_each_band() {
    let mut pixels: Vec<u8> = (0..20).collect();
    let chunks = split_bands(&mut pixels, (2, 10), 3);
    assert_eq!(chunks.len(), 3);
    assert_eq!(*chunks[0], [0, 1, 2, 3, 4, 5, 6, 7]);
    assert_eq!(*chunks[1], [8, 9, 10, 11, 12, 13, 14, 15]);
    assert_eq!(*chunks[2], [16, 17, 18, 19]);
}

#[test]
fn split_bands_agrees_with_plan_bands() {
    for height in 0..20 {
        for workers in 1..8 {
            for width in 0..4 {
                let mut pixels: Vec<u8> = vec![0; width * height];
                let bands = plan_bands(height, workers);
                let chunks = split_bands(&mut pixels, (width, height), workers);
                assert_eq!(chunks.len(), bands.len());
                for (chunk, band) in chunks.iter().zip(bands.iter()) {
                    assert_eq!(chunk.len(), band.height * width);
                }
            }
        }
    }
}

#[test]
fn writes_to_the_bands_reach_the_buffer() {
    let mut pixels: Vec<u8> = vec![0; 12];
    let chunks = split_bands(&mut pixels, (3, 4), 2);
    assert_eq!(chunks.len(), 2);
    for (index, chunk) in chunks.into_iter().enumerate() {
        for pixel in chunk.iter_mut() {
            *pixel = index as u8 + 1;
        }
    }
    assert_eq!(pixels, vec![1, 1, 1, 1, 1, 1, 1, 1, 1, 2, 2, 2]);
}
