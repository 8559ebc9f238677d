//! The size of the virtual screen that the ray caster renders into.
use vstd::prelude::*;

verus! {

/// Width and height, in pixels, of the virtual screen, as the shader reads them.
#[derive(Clone, Copy, Debug, Default, PartialEq, Eq, Structural)]
pub struct GpuScreenData {
    pub width: u32,
    pub heigth: u32,
}

impl GpuScreenData {
    pub fn new(width: u32, heigth: u32) -> (s: Self)
        ensures
            s.width == width,
            s.heigth == heigth,
    {
        GpuScreenData { width, heigth }
    }

    /// Number of pixels of the screen.
    pub fn pixel_count(&self) -> (n: usize)
        requires
            self.width * self.heigth <= u32::MAX,
        ensures
            n == self.width * self.heigth,
    {
        (self.width * self.heigth) as usize
    }
}

} // verus!
