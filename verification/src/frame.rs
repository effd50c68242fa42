//! Raster images as plain bytes: interleaved colour frames and grey images,
//! both stored row by row.
use vstd::prelude::*;

verus! {

/// Abstract content of a colour frame: `height` rows of `width` pixels of
/// `channels` bytes each; the byte of channel `k` of pixel `(y, x)` is
/// `data[(y * width + x) * channels + k]`.
pub struct FrameView {
    pub height: nat,
    pub width: nat,
    pub channels: nat,
    pub data: Seq<u8>,
}

/// An interleaved colour frame (BGR for a camera frame).
pub struct ImageFrame {
    height: usize,
    width: usize,
    channels: usize,
    data: Vec<u8>,
}

impl View for ImageFrame {
    type V = FrameView;

    closed spec fn view(&self) -> FrameView {
        FrameView {
            height: self.height as nat,
            width: self.width as nat,
            channels: self.channels as nat,
            data: self.data@,
        }
    }
}

impl ImageFrame {
    #[verifier::type_invariant]
    spec fn inv(self) -> bool {
        self.data@.len() == self.height * self.width * self.channels
    }

    /// A frame over `data`, or `None` when `data` does not hold exactly
    /// `height * width * channels` bytes.
    pub fn from_raw(height: usize, width: usize, channels: usize, data: Vec<u8>) -> (r: Option<
        ImageFrame,
    >)
        ensures
            r is Some <==> data@.len() == height * width * channels,
            r matches Some(f) ==> f@ == (FrameView {
                height: height as nat,
                width: width as nat,
                channels: channels as nat,
                data: data@,
            }),
    {
        let len = data.len();
        if channels == 0 {
            assert(height * width * channels == 0) by (nonlinear_arith)
                requires
                    channels == 0,
            ;
            if len == 0 {
                return Some(ImageFrame { height, width, channels, data });
            } else {
                return None;
            }
        }
        match height.checked_mul(width) {
            Some(hw) => {
                match hw.checked_mul(channels) {
                    Some(n) => {
                        if len == n {
                            Some(ImageFrame { height, width, channels, data })
                        } else {
                            None
                        }
                    },
                    None => None,
                }
            },
            None => {
                assert(height * width * channels >= height * width) by (nonlinear_arith)
                    requires
                        channels >= 1,
                ;
                None
            },
        }
    }

    pub fn height(&self) -> (r: usize)
        ensures
            r == self@.height,
    {
        self.height
    }

    pub fn width(&self) -> (r: usize)
        ensures
            r == self@.width,
    {
        self.width
    }

    pub fn channels(&self) -> (r: usize)
        ensures
            r == self@.channels,
    {
        self.channels
    }

    /// The frame's bytes, row by row.
    pub fn data(&self) -> (d: &Vec<u8>)
        ensures
            d@ == self@.data,
            d@.len() == self@.height * self@.width * self@.channels,
    {
        proof {
            use_type_invariant(self);
        }
        &self.data
    }
}

/// Abstract content of a grey image: `height` rows of `width` pixels; pixel
/// `(x, y)` is `pixels[y * width + x]`.
pub struct GrayView {
    pub width: nat,
    pub height: nat,
    pub pixels: Seq<u8>,
}

/// An 8-bit grey image.
pub struct GrayFrame {
    width: u32,
    height: u32,
    pixels: Vec<u8>,
}

impl View for GrayFrame {
    type V = GrayView;

    closed spec fn view(&self) -> GrayView {
        GrayView { width: self.width as nat, height: self.height as nat, pixels: self.pixels@ }
    }
}

impl GrayFrame {
    #[verifier::type_invariant]
    spec fn inv(self) -> bool {
        self.pixels@.len() == self.width * self.height
    }

    /// An image over `pixels`, or `None` when `pixels` does not hold exactly
    /// `width * height` bytes.
    pub fn from_raw(width: u32, height: u32, pixels: Vec<u8>) -> (r: Option<GrayFrame>)
        ensures
            r is Some <==> pixels@.len() == width * height,
            r matches Some(g) ==> g@ == (GrayView {
                width: width as nat,
                height: height as nat,
                pixels: pixels@,
            }),
    {
        let len = pixels.len();
        match (width as usize).checked_mul(height as usize) {
            Some(n) => {
                if len == n {
                    Some(GrayFrame { width, height, pixels })
                } else {
                    None
                }
            },
            None => None,
        }
    }

    pub fn width(&self) -> (r: u32)
        ensures
            r == self@.width,
    {
        self.width
    }

    pub fn height(&self) -> (r: u32)
        ensures
            r == self@.height,
    {
        self.height
    }

    /// The image's pixels, row by row.
    pub fn pixels(&self) -> (p: &Vec<u8>)
        ensures
            p@ == self@.pixels,
            p@.len() == self@.width * self@.height,
    {
        proof {
            use_type_invariant(self);
        }
        &self.pixels
    }

    /// Gives the pixel buffer back.
    pub fn into_raw(self) -> (p: Vec<u8>)
        ensures
            p@ == self@.pixels,
            p@.len() == self@.width * self@.height,
    {
        proof {
            use_type_invariant(&self);
        }
        self.pixels
    }
}

} // verus!
