//! The display backend interface the compositor draws through, and the
//! hardware-free backend used for tests and desktop runs.
use vstd::prelude::*;
use crate::text::concat_str;

verus! {

/// The interface every display backend implements.  The compositor only
/// calls these methods; it never touches hardware itself.
pub trait DisplayBackend {
    /// Frames finished since the backend was set up.
    spec fn frames(&self) -> int;

    /// The refresh rate in Hz.
    spec fn refresh(&self) -> int;

    /// Start of a frame: whether rendering should go ahead.
    fn begin_frame(&mut self) -> (go: bool)
        ensures
            final(self).frames() == old(self).frames(),
    ;

    /// All drawing for the frame is done: flip the page.
    fn end_frame(&mut self) -> (r: Result<(), DisplayError>)
        requires
            old(self).frames() < u64::MAX,
    ;

    /// A page flip has completed.
    fn on_vblank(&mut self)
        ensures
            final(self).frames() == old(self).frames(),
    ;

    /// The resolution in pixels, (width, height).
    fn resolution(&self) -> (wh: (u32, u32));

    /// Milliseconds per frame at the refresh rate.
    fn frame_duration_ms(&self) -> (ms: u64)
        requires
            self.refresh() > 0,
    ;

    /// Whether the backend is ready to render.
    fn is_active(&self) -> (b: bool);

    /// Whether the backend runs without real hardware.
    fn is_demo(&self) -> (b: bool);

    /// The backend's name, for logs.
    fn name(&self) -> (n: &str);

    /// Frames finished since the backend was set up.
    fn frame_count(&self) -> (n: u64)
        ensures
            n == self.frames(),
    ;
}

/// What can go wrong with a display.
#[derive(Debug, Clone)]
pub enum DisplayError {
    /// The page flip failed: the pipeline stalled.
    PageFlipFailed,
    /// The backend is in an unrecoverable state.
    BackendError(String),
    /// The previous flip is still pending: the frame was skipped.
    FlipPending,
}

impl DisplayError {
    /// The error in words.
    pub fn message(&self) -> (s: String)
        ensures
            s@ == match self {
                DisplayError::PageFlipFailed => "page flip failed"@,
                DisplayError::BackendError(e) => "backend error: "@ + e@,
                DisplayError::FlipPending => "flip pending -- frame skipped"@,
            },
    {
        match self {
            DisplayError::PageFlipFailed => "page flip failed".to_owned(),
            DisplayError::BackendError(e) => concat_str("backend error: ", e.as_str()),
            DisplayError::FlipPending => "flip pending -- frame skipped".to_owned(),
        }
    }
}

/// A display backend with no hardware behind it: it keeps the frame
/// bookkeeping of a real one and shows nothing.
pub struct DemoBackend {
    pub frame_count: u64,
    pub width: u32,
    pub height: u32,
    pub refresh_hz: u32,
    pub flip_pending: bool,
}

impl DemoBackend {
    /// The OnePlus 6 panel: 1080x2280 at 60 Hz.
    pub fn new() -> (b: Self)
        ensures
            b.frame_count == 0,
            b.width == 1080,
            b.height == 2280,
            b.refresh_hz == 60,
            !b.flip_pending,
    {
        DemoBackend { frame_count: 0, width: 1080, height: 2280, refresh_hz: 60, flip_pending: false }
    }

    /// A backend of the given size and refresh rate.
    pub fn with_resolution(width: u32, height: u32, refresh_hz: u32) -> (b: Self)
        ensures
            b.frame_count == 0,
            b.width == width,
            b.height == height,
            b.refresh_hz == refresh_hz,
            !b.flip_pending,
    {
        DemoBackend { frame_count: 0, width, height, refresh_hz, flip_pending: false }
    }
}

impl Default for DemoBackend {
    fn default() -> (b: Self)
        ensures
            b.frame_count == 0,
            b.width == 1080,
            b.height == 2280,
            b.refresh_hz == 60,
            !b.flip_pending,
    {
        DemoBackend::new()
    }
}

impl DisplayBackend for DemoBackend {
    open spec fn frames(&self) -> int {
        self.frame_count as int
    }

    open spec fn refresh(&self) -> int {
        self.refresh_hz as int
    }

    /// A pending flip counts as done at once: rendering always goes ahead.
    fn begin_frame(&mut self) -> (go: bool)
        ensures
            go,
            !final(self).flip_pending,
            final(self).frame_count == old(self).frame_count,
            final(self).width == old(self).width,
            final(self).height == old(self).height,
            final(self).refresh_hz == old(self).refresh_hz,
    {
        if self.flip_pending {
            self.flip_pending = false;
        }
        true
    }

    fn end_frame(&mut self) -> (r: Result<(), DisplayError>)
        ensures
            r is Ok,
            final(self).frame_count == old(self).frame_count + 1,
            final(self).flip_pending,
            final(self).width == old(self).width,
            final(self).height == old(self).height,
            final(self).refresh_hz == old(self).refresh_hz,
    {
        self.frame_count = self.frame_count + 1;
        self.flip_pending = true;
        Ok(())
    }

    fn on_vblank(&mut self)
        ensures
            !final(self).flip_pending,
            final(self).frame_count == old(self).frame_count,
            final(self).width == old(self).width,
            final(self).height == old(self).height,
            final(self).refresh_hz == old(self).refresh_hz,
    {
        self.flip_pending = false;
    }

    fn resolution(&self) -> (wh: (u32, u32))
        ensures
            wh == (self.width, self.height),
    {
        (self.width, self.height)
    }

    fn frame_duration_ms(&self) -> (ms: u64)
        ensures
            ms == 1000int / (self.refresh_hz as int),
    {
        1000 / (self.refresh_hz as u64)
    }

    fn is_active(&self) -> (b: bool)
        ensures
            b,
    {
        true
    }

    fn is_demo(&self) -> (b: bool)
        ensures
            b,
    {
        true
    }

    fn name(&self) -> (n: &str)
        ensures
            n@ == "DemoBackend"@,
    {
        "DemoBackend"
    }

    fn frame_count(&self) -> (n: u64) {
        self.frame_count
    }
}

/// The backend to draw through: without the hardware compositor in this
/// build, the demo backend, fresh.
pub fn build_backend() -> (b: Box<dyn DisplayBackend>) {
    Box::new(DemoBackend::new())
}

} // verus!
