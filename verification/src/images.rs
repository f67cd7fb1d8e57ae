//! The sizing record of one input image, derived once from its native
//! pixel dimensions and an optional maximum-size constraint.

use vstd::prelude::*;

verus! {

/// The mathematical model of a descriptor: the source identifier as a
/// character sequence, and the placement sizes in pixels.
#[verifier::ext_equal]
pub struct ImageDesc {
    pub path: Seq<char>,
    pub width: nat,
    pub height: nat,
    pub margin: nat,
}

impl ImageDesc {
    /// A descriptor is well formed when its placement size reserves the
    /// margin on every side.
    pub open spec fn wf(self) -> bool {
        self.width >= 2 * self.margin && self.height >= 2 * self.margin
    }
}

/// The immutable sizing record of one input image: the source identifier,
/// the placement size in pixels (content plus margin on every side), and
/// the margin itself. Created once per source image before packing and
/// read-only afterward.
#[derive(Debug)]
pub struct ImageToPack {
    pub path: String,
    pub width: u32,
    pub height: u32,
    pub margin: u32,
}

impl View for ImageToPack {
    type V = ImageDesc;

    open spec fn view(&self) -> ImageDesc {
        ImageDesc {
            path: self.path@,
            width: self.width as nat,
            height: self.height as nat,
            margin: self.margin as nat,
        }
    }
}

impl Clone for ImageToPack {
    /// The copy describes the same image: it has the same model.
    fn clone(&self) -> (r: Self)
        ensures
            r@ == self@,
    {
        let r = ImageToPack {
            path: self.path.clone(),
            width: self.width,
            height: self.height,
            margin: self.margin,
        };
        proof {
            assert(r@ =~= self@);
        }
        r
    }
}

/// A content length shrunk to an optional maximum: never enlarged,
/// clamped independently per axis.
pub open spec fn shrunk(native: int, max: Option<u32>) -> int {
    match max {
        Option::Some(m) => if native > m { m as int } else { native },
        Option::None => native,
    }
}

impl ImageToPack {
    /// Builds the descriptor for one source image from its native pixel
    /// dimensions: the content is shrunk to the optional per-axis maximum
    /// (never enlarged), and the margin is added on all four sides.
    pub fn from_dimensions(
        path: String,
        native_width: u32,
        native_height: u32,
        max_width: Option<u32>,
        max_height: Option<u32>,
        margin: u32,
    ) -> (r: ImageToPack)
        requires
            shrunk(native_width as int, max_width) + 2 * margin <= u32::MAX,
            shrunk(native_height as int, max_height) + 2 * margin <= u32::MAX,
        ensures
            r@.path == path@,
            r@.margin == margin,
            r@.width == shrunk(native_width as int, max_width) + 2 * margin,
            r@.height == shrunk(native_height as int, max_height) + 2 * margin,
            r@.wf(),
    {
        let content_w = match max_width {
            Some(m) => if native_width > m { m } else { native_width },
            None => native_width,
        };
        let content_h = match max_height {
            Some(m) => if native_height > m { m } else { native_height },
            None => native_height,
        };
        ImageToPack { path, width: content_w + 2 * margin, height: content_h + 2 * margin, margin }
    }
}

} // verus!
