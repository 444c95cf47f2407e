//! A Monte Carlo path tracer's decisions and bookkeeping: the total order on
//! ray lengths and the choice of the closest hit, the pixel layout of the
//! render target, the way materials divert rays and the Russian roulette that
//! ends paths.
//!
//! Floating-point values reach the library as the bit patterns of `f32`
//! values, which it reads through comparisons only (see `float_bits`); the
//! vector arithmetic of rays and colours stays with the renderer around it.
use vstd::prelude::*;
use std::sync::Arc;
use std::sync::mpsc::{Receiver, Sender};
use egui::mutex::Mutex;

pub mod accel;
pub mod builder;
pub mod closest_hit;
pub mod cube_map;
pub mod elements;
pub mod float_bits;
pub mod kd_search;
pub mod material;
pub mod radiance;
pub mod ray_len;
pub mod render_target;
pub mod sync;

pub use render_target::RenderTarget;

verus! {

pub type ArcMux<T> = Arc<Mutex<T>>;

pub type BufferMux = Arc<Mutex<Vec<u8>>>;

/// What a renderer hands out: the frames it has rendered so far, as RGBA bytes.
pub struct RenderOut {
    pub buf_q: Receiver<Vec<u8>>,
}

/// A render target together with the scheme that is to be rendered into it
/// and the channel on which snapshots of the target are sent.
pub struct Renderer<S> {
    pub target: RenderTarget,
    pub sender: Sender<Vec<u8>>,
    pub scheme: Option<S>,
}

impl<S> Renderer<S> {
    /// A renderer for a canvas of `canv_width` by `canv_height` pixels, all
    /// black and transparent, and the receiving end of its frames.
    pub fn new(canv_width: i32, canv_height: i32, scheme: S) -> (r: (Self, RenderOut))
        requires
            0 <= canv_width * canv_height <= i32::MAX,
            4 * (canv_width * canv_height) <= usize::MAX,
        ensures
            r.0.target.canv_width == canv_width,
            r.0.target.canv_height == canv_height,
            r.0.scheme == Some(scheme),
    {
        let pixels = (canv_width * canv_height) as usize;
        let buf = render_target::blank_canvas(pixels);
        let (tx, rx) = sync::buffer_channel();
        let target = RenderTarget {
            buff_mux: Arc::new(Mutex::new(buf)),
            canv_width,
            canv_height,
        };
        (Renderer { target, sender: tx, scheme: Some(scheme) }, RenderOut { buf_q: rx })
    }
}

}

