use egui::mutex::Mutex;
use ray_trace_rust::render_target::{blank_canvas, RenderTarget};
use ray_trace_rust::Renderer;
use std::sync::Arc;

#[test]
fn test_renderer_chunk_to_pix() {
    let (canv_width, canv_height) = (400, 500);
    let render_target = RenderTarget {
        buff_mux: Arc::new(Mutex::new(vec![])),
        canv_width,
        canv_height,
    };

    let begin_idx = 0;
    let expected_begin = (0, 0);
    assert_eq!(render_target.chunk_to_pix(begin_idx), expected_begin, "Begin index wrong");

    let bot_right_idx = canv_width - 1;
    let expected_bot_right = (canv_width - 1, 0);
    assert_eq!(render_target.chunk_to_pix(bot_right_idx), expected_bot_right, "Bottom right index wrong");

    let top_right_idx = canv_height * canv_width - 1;
    let expected_top_right = (canv_width - 1, canv_height - 1);
    assert_eq!(render_target.chunk_to_pix(top_right_idx), expected_top_right, "Top right index wrong");

    let top_left_idx = (canv_height - 1) * canv_width;
    let expected_top_left = (0, canv_height - 1);
    assert_eq!(render_target.chunk_to_pix(top_left_idx), expected_top_left, "Top left index wrong");
}

fn target(canv_width: i32, canv_height: i32) -> RenderTarget {
    RenderTarget { buff_mux: Arc::new(Mutex::new(vec![])), canv_width, canv_height }
}

#[test]
fn chunk_to_pix_rounds_toward_zero_for_negative_indices() {
    // Rust's `%` and `/`: the remainder takes the sign of the index.
    assert_eq!(target(400, 500).chunk_to_pix(-1), (-1, 0));
    assert_eq!(target(400, 500).chunk_to_pix(-401), (-1, -1));
    assert_eq!(target(-3, 5).chunk_to_pix(7), (1, -2));
    assert_eq!(target(-3, 5).chunk_to_pix(-7), (-1, 2));
    assert_eq!(target(1, 5).chunk_to_pix(i32::MIN), (0, i32::MIN));
}

#[test]
fn chunk_to_pix_round_trip_over_a_small_canvas() {
    let t = target(7, 3);
    for idx in 0..21 {
        let (x, y) = t.chunk_to_pix(idx);
        assert!(0 <= x && x < 7 && 0 <= y && y < 3);
        assert_eq!(y * 7 + x, idx);
    }
}

#[test]
fn blank_canvas_is_four_zero_bytes_per_pixel() {
    let c = blank_canvas(6);
    assert_eq!(c.len(), 24);
    assert!(c.iter().all(|b| *b == 0));
    assert!(blank_canvas(0).is_empty());
}

#[test]
fn renderer_new_keeps_dimensions_and_scheme() {
    let (r, out) = Renderer::new(4, 3, "scheme");
    assert_eq!(r.target.canv_width, 4);
    assert_eq!(r.target.canv_height, 3);
    assert_eq!(r.scheme, Some("scheme"));
    assert_eq!(r.target.buff_mux.lock().len(), 48);
    assert!(r.target.buff_mux.lock().iter().all(|b| *b == 0));
    r.sender.send(vec![1, 2, 3]).unwrap();
    assert_eq!(out.buf_q.recv().unwrap(), vec![1, 2, 3]);
}
