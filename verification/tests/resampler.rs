//! The library holds the window that a resampler walks over. The walk itself is in
//! floating-point numbers and belongs to the program; the resampler here makes the same walk, so
//! that the window is tried out under it.

use arp::resampler::SourceWindow;

/// A linear resampler over the window.
struct Linear {
    step_base: f64,
    adj: f64,
    frac: f64,
    window: SourceWindow<f32>,
}

impl Linear {
    fn new(src_hz: f64, dst_hz: f64) -> Self {
        Linear { step_base: src_hz / dst_hz, adj: 0.0, frac: 0.0, window: SourceWindow::new() }
    }

    fn set_adj_ppm(&mut self, ppm: f64) {
        self.adj = (ppm * 1e-6).clamp(-0.005, 0.005);
    }

    fn process(&mut self, out: &mut [f32], mut pull: impl FnMut(&mut [f32])) {
        if out.is_empty() {
            return;
        }
        let step = self.step_base * (1.0 + self.adj);
        let end = self.frac + step * out.len() as f64;
        let deficit = self.window.deficit(end.ceil() as usize);
        if deficit > 0 {
            let mut fresh = vec![0.0; deficit];
            pull(&mut fresh);
            self.window.feed(&fresh);
        }
        let mut p = self.frac;
        for o in out.iter_mut() {
            let i = p as usize;
            let (a, b) = self.window.neighbours(i);
            *o = a + (b - a) * (p - i as f64) as f32;
            p += step;
        }
        let consumed = p as usize;
        self.window.advance(consumed);
        self.frac = p - consumed as f64;
    }
}

fn ramp_source() -> impl FnMut(&mut [f32]) {
    let mut n = 0f32;
    move |buf: &mut [f32]| {
        for b in buf.iter_mut() {
            *b = n;
            n += 1.0;
        }
    }
}

#[test]
fn identity_passthrough_is_delayed_copy() {
    let mut rs = Linear::new(48000.0, 48000.0);
    let mut src = ramp_source();
    let mut out = vec![0f32; 100];
    rs.process(&mut out, &mut src);
    for (i, &v) in out.iter().enumerate().skip(1) {
        assert!((v - (i as f32 - 1.0)).abs() < 1e-4, "i={i} v={v}");
    }
}

#[test]
fn chunked_equals_single_call() {
    let mut rs1 = Linear::new(48000.0, 44100.0);
    let mut rs2 = Linear::new(48000.0, 44100.0);
    let mut a = vec![0f32; 441];
    let mut b = vec![0f32; 441];
    rs1.process(&mut a, ramp_source());
    let mut src2 = ramp_source();
    for chunk in b.chunks_mut(37) {
        rs2.process(chunk, &mut src2);
    }
    for i in 0..a.len() {
        assert!((a[i] - b[i]).abs() < 1e-3, "i={i} {} != {}", a[i], b[i]);
    }
}

#[test]
fn consumption_rate_follows_adj() {
    let mut rs = Linear::new(48000.0, 48000.0);
    rs.set_adj_ppm(2000.0);
    let mut consumed = 0usize;
    let mut out = vec![0f32; 48000];
    rs.process(&mut out, |buf| {
        consumed += buf.len();
        for b in buf.iter_mut() {
            *b = 0.5;
        }
    });
    assert!((consumed as i64 - 48096).abs() < 4, "consumed={consumed}");
}

#[test]
fn window_slides() {
    let mut w: SourceWindow<i32> = SourceWindow::new();
    assert_eq!(w.deficit(3), 3);
    w.feed(&[10, 20, 30]);
    assert_eq!(w.deficit(3), 0);
    assert_eq!(w.deficit(5), 2);
    assert_eq!(w.neighbours(0), (0, 10));
    assert_eq!(w.neighbours(2), (20, 30));
    w.advance(2);
    assert_eq!(w.neighbours(0), (20, 30));
    assert_eq!(w.deficit(1), 0);
    w.advance(0);
    w.feed(&[40]);
    assert_eq!(w.neighbours(1), (30, 40));
    w.reset();
    assert_eq!(w.deficit(1), 1);
    w.feed(&[7]);
    assert_eq!(w.neighbours(0), (0, 7));
}
