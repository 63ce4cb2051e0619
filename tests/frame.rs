use raytracer::frame::Frame;

fn covered_once(frame: &Frame) -> bool {
    let total = frame.pixel_count();
    let mut seen = vec![0u32; total];
    let mut expected_start = 0usize;
    for k in 0..frame.chunk_count() {
        let start = frame.chunk_idx_to_start_pixel_pos(k);
        let end = frame.chunk_end_pixel_pos(k);
        if start != expected_start || end <= start || end > total {
            return false;
        }
        for p in start..end {
            seen[p] += 1;
        }
        expected_start = end;
    }
    expected_start == total && seen.iter().all(|&c| c == 1)
}

#[test]
fn new_frame_splits_rows_into_ten_bands() {
    let frame = Frame::new(400, 225);
    assert_eq!(frame.width, 400);
    assert_eq!(frame.height, 225);
    assert_eq!(frame.chunk_size, 22 * 400);
    assert_eq!(frame.pixel_count(), 90000);
    assert_eq!(frame.chunk_count(), 11);
}

#[test]
fn chunk_positions_of_a_short_last_chunk() {
    let frame = Frame::new(400, 225);
    assert_eq!(frame.chunk_idx_to_start_pixel_pos(0), 0);
    assert_eq!(frame.chunk_end_pixel_pos(0), 8800);
    assert_eq!(frame.chunk_idx_to_start_pixel_pos(3), 26400);
    assert_eq!(frame.chunk_end_pixel_pos(9), 88000);
    assert_eq!(frame.chunk_idx_to_start_pixel_pos(10), 88000);
    assert_eq!(frame.chunk_end_pixel_pos(10), 90000);
}

#[test]
fn height_divisible_by_ten_gives_ten_full_chunks() {
    let frame = Frame::new(1200, 800);
    assert_eq!(frame.chunk_size, 80 * 1200);
    assert_eq!(frame.chunk_count(), 10);
    assert_eq!(frame.chunk_end_pixel_pos(9), 1200 * 800);
    assert!(covered_once(&frame));
}

#[test]
fn smallest_frame_has_one_row_per_chunk() {
    let frame = Frame::new(1, 10);
    assert_eq!(frame.chunk_size, 1);
    assert_eq!(frame.chunk_count(), 10);
    for k in 0..10 {
        assert_eq!(frame.chunk_idx_to_start_pixel_pos(k), k);
        assert_eq!(frame.chunk_end_pixel_pos(k), k + 1);
    }
}

#[test]
fn chunks_cover_every_pixel_exactly_once() {
    for &(w, h) in &[(7u32, 23u32), (400, 225), (3, 19), (1, 10), (5, 99), (640, 360)] {
        let frame = Frame::new(w, h);
        assert!(covered_once(&frame), "{}x{}", w, h);
    }
}

#[test]
fn nineteen_rows_give_nineteen_chunks() {
    let frame = Frame::new(3, 19);
    assert_eq!(frame.chunk_size, 3);
    assert_eq!(frame.chunk_count(), 19);
}

#[test]
fn largest_pixel_count_that_fits() {
    // 65535 * 65537 == u32::MAX
    let frame = Frame::new(65535, 65537);
    assert_eq!(frame.pixel_count(), u32::MAX as usize);
    assert_eq!(frame.chunk_size, 6553 * 65535);
    assert_eq!(frame.chunk_count(), 11);
    let last = frame.chunk_count() - 1;
    assert_eq!(frame.chunk_end_pixel_pos(last), u32::MAX as usize);
    assert_eq!(frame.chunk_idx_to_start_pixel_pos(last), 10 * 6553 * 65535);
}

#[test]
fn line_number_counts_rows_from_the_bottom() {
    let frame = Frame::new(400, 225);
    assert_eq!(frame.pixel_to_line_nbr(0), 225);
    assert_eq!(frame.pixel_to_line_nbr(399), 225);
    assert_eq!(frame.pixel_to_line_nbr(400), 224);
    assert_eq!(frame.pixel_to_line_nbr(89999), 1);
}

#[test]
fn width_position_is_the_column() {
    let frame = Frame::new(400, 225);
    assert_eq!(frame.pixel_nbr_to_image_width_pos(0), 0);
    assert_eq!(frame.pixel_nbr_to_image_width_pos(399), 399);
    assert_eq!(frame.pixel_nbr_to_image_width_pos(401), 1);
    assert_eq!(frame.pixel_nbr_to_image_width_pos(89999), 399);
}

#[test]
fn fill_chunk_writes_each_slot_with_its_pixel() {
    let frame = Frame::new(4, 25);
    let total = frame.pixel_count();
    let mut buffer: Vec<Vec<u8>> = vec![Vec::new(); total];
    let shade = |p: u32| p.to_string().into_bytes();
    let mut k = 0usize;
    for slice in buffer.chunks_mut(frame.chunk_size as usize) {
        frame.fill_chunk(k, slice, &shade);
        k += 1;
    }
    assert_eq!(k, frame.chunk_count());
    for (p, line) in buffer.iter().enumerate() {
        assert_eq!(line, &p.to_string().into_bytes());
    }
}
