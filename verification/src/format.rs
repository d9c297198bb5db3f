//! The descriptor model: the negotiated shape of an image stream.
//!
//! `Descriptor` and `PixelFormat` are plain data. A `Custom` format carries
//! its name as UTF-8 bytes, so that the codec can state byte-exact contracts
//! about the encoded form.

use vstd::prelude::*;

verus! {

/// Pixel format of a stream. Arbitrary formats can be wrapped in the
/// `Custom` variant; the numeric variants carry the depth of a whole pixel
/// in bits.
#[derive(Debug, Eq, Hash)]
pub enum PixelFormat {
    /// Application-defined format, named by its UTF-8 bytes.
    Custom(Vec<u8>),
    /// Z buffers.
    Depth(u32),
    /// Grayscale.
    Gray(u32),
    /// Blue, Green, Red.
    Bgr(u32),
    /// Red, Green, Blue.
    Rgb(u32),
    /// JPEG compression.
    Jpeg,
}

/// Mathematical model of a `PixelFormat`: the custom name is a byte sequence.
pub enum PixelFormatModel {
    Custom(Seq<u8>),
    Depth(u32),
    Gray(u32),
    Bgr(u32),
    Rgb(u32),
    Jpeg,
}

impl View for PixelFormat {
    type V = PixelFormatModel;

    open spec fn view(&self) -> PixelFormatModel {
        match self {
            PixelFormat::Custom(name) => PixelFormatModel::Custom(name@),
            PixelFormat::Depth(bits) => PixelFormatModel::Depth(*bits),
            PixelFormat::Gray(bits) => PixelFormatModel::Gray(*bits),
            PixelFormat::Bgr(bits) => PixelFormatModel::Bgr(*bits),
            PixelFormat::Rgb(bits) => PixelFormatModel::Rgb(*bits),
            PixelFormat::Jpeg => PixelFormatModel::Jpeg,
        }
    }
}

/// Description of a negotiated image stream.
#[derive(Debug, Eq, Hash)]
pub struct Descriptor {
    /// Width in pixels.
    pub width: u32,
    /// Height in pixels.
    pub height: u32,
    /// Pixel format.
    pub pixfmt: PixelFormat,
}

/// Mathematical model of a `Descriptor`.
#[verifier::ext_equal]
pub struct DescriptorModel {
    pub width: u32,
    pub height: u32,
    pub pixfmt: PixelFormatModel,
}

impl View for Descriptor {
    type V = DescriptorModel;

    open spec fn view(&self) -> DescriptorModel {
        DescriptorModel {
            width: self.width,
            height: self.height,
            pixfmt: self.pixfmt@,
        }
    }
}

/// Copies a byte vector.
pub fn clone_bytes(v: &Vec<u8>) -> (r: Vec<u8>)
    ensures
        r@ == v@,
{
    let mut r: Vec<u8> = Vec::new();
    let mut i: usize = 0;
    while i < v.len()
        invariant
            i <= v.len(),
            r@ == v@.take(i as int),
        decreases v.len() - i,
    {
        r.push(v[i]);
        i += 1;
        proof {
            assert(r@ =~= v@.take(i as int));
        }
    }
    proof {
        assert(v@.take(v@.len() as int) =~= v@);
    }
    r
}

impl Clone for PixelFormat {
    fn clone(&self) -> (r: Self)
        ensures
            r@ == self@,
    {
        match self {
            PixelFormat::Custom(name) => PixelFormat::Custom(clone_bytes(name)),
            PixelFormat::Depth(bits) => PixelFormat::Depth(*bits),
            PixelFormat::Gray(bits) => PixelFormat::Gray(*bits),
            PixelFormat::Bgr(bits) => PixelFormat::Bgr(*bits),
            PixelFormat::Rgb(bits) => PixelFormat::Rgb(*bits),
            PixelFormat::Jpeg => PixelFormat::Jpeg,
        }
    }
}

impl Clone for Descriptor {
    fn clone(&self) -> (r: Self)
        ensures
            r@ == self@,
    {
        Descriptor { width: self.width, height: self.height, pixfmt: self.pixfmt.clone() }
    }
}

/// Compares two byte vectors by contents.
pub fn bytes_eq(a: &Vec<u8>, b: &Vec<u8>) -> (r: bool)
    ensures
        r <==> a@ == b@,
{
    if a.len() != b.len() {
        return false;
    }
    let mut i: usize = 0;
    while i < a.len()
        invariant
            i <= a.len(),
            a.len() == b.len(),
            forall|k: int| 0 <= k < i ==> a@[k] == b@[k],
        decreases a.len() - i,
    {
        if a[i] != b[i] {
            return false;
        }
        i += 1;
    }
    proof {
        assert(a@ =~= b@);
    }
    true
}

impl PartialEq for PixelFormat {
    fn eq(&self, other: &Self) -> (r: bool) {
        match (self, other) {
            (PixelFormat::Custom(a), PixelFormat::Custom(b)) => bytes_eq(a, b),
            (PixelFormat::Depth(a), PixelFormat::Depth(b)) => a == b,
            (PixelFormat::Gray(a), PixelFormat::Gray(b)) => a == b,
            (PixelFormat::Bgr(a), PixelFormat::Bgr(b)) => a == b,
            (PixelFormat::Rgb(a), PixelFormat::Rgb(b)) => a == b,
            (PixelFormat::Jpeg, PixelFormat::Jpeg) => true,
            _ => false,
        }
    }
}

impl vstd::std_specs::cmp::PartialEqSpecImpl for PixelFormat {
    open spec fn obeys_eq_spec() -> bool {
        true
    }

    open spec fn eq_spec(&self, other: &Self) -> bool {
        self@ == other@
    }
}

impl PartialEq for Descriptor {
    fn eq(&self, other: &Self) -> (r: bool) {
        self.width == other.width && self.height == other.height && self.pixfmt == other.pixfmt
    }
}

impl vstd::std_specs::cmp::PartialEqSpecImpl for Descriptor {
    open spec fn obeys_eq_spec() -> bool {
        true
    }

    open spec fn eq_spec(&self, other: &Self) -> bool {
        self@ == other@
    }
}

} // verus!
