//! The option kinds that the command-line tools of this project choose
//! between, and the labels given to generated faces.
use vstd::prelude::*;

verus! {

/// The order to take for iteration when dithering.
#[derive(Debug, Clone, Copy, PartialEq, Eq)]
pub enum OrderKind {
    Nearest,
    Random,
    Farthest,
    Index,
}

impl OrderKind {
    /// The name this kind is written with.
    pub open spec fn name(self) -> Seq<char> {
        match self {
            OrderKind::Nearest => "nearest"@,
            OrderKind::Random => "random"@,
            OrderKind::Farthest => "farthest"@,
            OrderKind::Index => "index"@,
        }
    }

    /// The name this kind is written with.
    pub fn to_string(&self) -> (r: String)
        ensures
            r@ == self.name(),
    {
        match self {
            OrderKind::Nearest => "nearest".to_owned(),
            OrderKind::Random => "random".to_owned(),
            OrderKind::Farthest => "farthest".to_owned(),
            OrderKind::Index => "index".to_owned(),
        }
    }
}

/// How to diffuse errors to neighboring elements when dithering.
#[derive(Debug, Clone, Copy, PartialEq, Eq)]
pub enum ErrorDiffusionKind {
    Exact,
    LUT,
    Uniform,
}

impl ErrorDiffusionKind {
    /// The name this kind is written with.
    pub open spec fn name(self) -> Seq<char> {
        match self {
            ErrorDiffusionKind::Exact => "exact"@,
            ErrorDiffusionKind::LUT => "lut"@,
            ErrorDiffusionKind::Uniform => "uniform"@,
        }
    }

    /// The name this kind is written with.
    pub fn to_string(&self) -> (r: String)
        ensures
            r@ == self.name(),
    {
        match self {
            ErrorDiffusionKind::Exact => "exact".to_owned(),
            ErrorDiffusionKind::LUT => "lut".to_owned(),
            ErrorDiffusionKind::Uniform => "uniform".to_owned(),
        }
    }
}

/// What edge detection returns.
#[derive(Debug, Clone, Copy, PartialEq, Eq)]
pub enum ReturnKind {
    Nothing,
    Smoothed,
    Grad,
}

impl ReturnKind {
    /// The name this kind is written with.
    pub open spec fn name(self) -> Seq<char> {
        match self {
            ReturnKind::Nothing => "none"@,
            ReturnKind::Smoothed => "smoothed"@,
            ReturnKind::Grad => "grad"@,
        }
    }

    /// The name this kind is written with.
    pub fn to_string(&self) -> (r: String)
        ensures
            r@ == self.name(),
    {
        match self {
            ReturnKind::Nothing => "none".to_owned(),
            ReturnKind::Smoothed => "smoothed".to_owned(),
            ReturnKind::Grad => "grad".to_owned(),
        }
    }
}

/// Which direction hatching follows.
#[derive(Debug, Clone, Copy, PartialEq, Eq)]
pub enum DirKind {
    Edge,
    MaxCurvature,
    MinCurvature,
}

impl DirKind {
    /// The name this kind is written with.
    pub open spec fn name(self) -> Seq<char> {
        match self {
            DirKind::Edge => "edge"@,
            DirKind::MaxCurvature => "max-curvature"@,
            DirKind::MinCurvature => "min-curvature"@,
        }
    }

    /// The name this kind is written with.
    pub fn to_string(&self) -> (r: String)
        ensures
            r@ == self.name(),
    {
        match self {
            DirKind::Edge => "edge".to_owned(),
            DirKind::MaxCurvature => "max-curvature".to_owned(),
            DirKind::MinCurvature => "min-curvature".to_owned(),
        }
    }
}

/// What a face generated from a texture stands for.
#[derive(Debug, Clone, Copy, PartialEq, Eq)]
pub enum FaceLabel {
    /// New pixel from a given face
    Pixel,
    /// Bridge between two pixels within a given face
    Bridge(usize, usize),
    /// Fills in gaps between bridges
    BridgeCorner,
    /// A face intended to cover the boundary between two faces
    GapFill([usize; 2], [usize; 2]),
    /// A face which covers the corner between many triangles
    GapCorner,
    /// A face which was removed because it didn't have any neighbors when it should've.
    Deleted,
}

/// How to sample the input mesh.
#[derive(Debug, Clone, Copy, PartialEq, Eq)]
pub enum SampleKind {
    /// Compute the dual of exact (one vertex per pixel)
    Approx,
    /// 4 vertices (1 quad) per pixel, with a large number of scaffolding faces.
    Exact,
    /// Use the input mesh vertices directly. There will still be additional faces introduced at
    /// UV chart boundaries.
    Direct,
}

impl SampleKind {
    /// The name this kind is written with.
    pub open spec fn name(self) -> Seq<char> {
        match self {
            SampleKind::Approx => "approx"@,
            SampleKind::Exact => "exact"@,
            SampleKind::Direct => "direct"@,
        }
    }

    /// The name this kind is written with.
    pub fn to_string(&self) -> (r: String)
        ensures
            r@ == self.name(),
    {
        match self {
            SampleKind::Approx => "approx".to_owned(),
            SampleKind::Exact => "exact".to_owned(),
            SampleKind::Direct => "direct".to_owned(),
        }
    }
}

} // verus!
