//! Deterministic measured geometry.
//!
//! No geometry is inferred or generated here. Each point is traceable to one
//! depth and confidence pixel and its calibrated camera: this module says which
//! pixels are measured and carries their evidence into the points.

use vstd::prelude::*;

use crate::ieee;
use crate::schedule::FrameWindow;

verus! {

/// Camera calibration of one inferred view. `world_to_camera` is row-major
/// `[R | t]`.
#[derive(Debug, Clone, Copy, PartialEq, Eq)]
pub struct CameraCalibration {
    pub world_to_camera: [u32; 12],
    pub intrinsics: [u32; 9],
}

/// Raw, co-registered evidence of one inferred view.
#[derive(Debug, Clone, Copy)]
pub struct MeasuredView<'a> {
    pub rgb_hwc_u8: &'a [u8],
    pub depth: &'a [u32],
    pub confidence: &'a [u32],
    pub width: usize,
    pub height: usize,
    pub camera: CameraCalibration,
}

/// Which pixels become points.
#[derive(Debug, Clone, Copy, PartialEq, Eq)]
pub struct BackprojectionSettings {
    /// Keep only depth pixels at or above this confidence.
    pub minimum_confidence: u32,
    /// Keep one pixel out of every `pixel_stride` in both dimensions.
    pub pixel_stride: usize,
    /// Radius in source pixels.
    pub surfel_radius_pixels: u32,
}

impl Default for BackprojectionSettings {
    fn default() -> (settings: Self)
        ensures
            settings == (BackprojectionSettings {
                minimum_confidence: ieee::F32_ONE,
                pixel_stride: 1,
                surfel_radius_pixels: ieee::F32_ONE,
            }),
    {
        BackprojectionSettings {
            minimum_confidence: ieee::F32_ONE,
            pixel_stride: 1,
            surfel_radius_pixels: ieee::F32_ONE,
        }
    }
}

/// One directly observed, relative-scale colored surfel centre.
#[derive(Debug, Clone, Copy, PartialEq, Eq)]
pub struct MeasuredPoint {
    pub position: [u32; 3],
    pub normal: [u32; 3],
    pub color_srgb: [u8; 3],
    pub confidence: u32,
    pub radius: u32,
    /// Pixel in the originating frame, `[x, y]`.
    pub source_pixel: [u32; 2],
}

/// Measured evidence of one source frame inside an overlapping window.
#[derive(Debug, Clone, PartialEq, Eq)]
pub struct MeasuredFrameChunk {
    pub frame_index: usize,
    pub camera: CameraCalibration,
    pub points: Vec<MeasuredPoint>,
}

/// Measured evidence of one window.
#[derive(Debug, Clone, PartialEq, Eq)]
pub struct WindowMeasuredChunk {
    pub window: FrameWindow,
    pub views: Vec<MeasuredFrameChunk>,
    /// Confidence below which a point of the window is not emitted, where the
    /// window was captured with that evidence profile.
    pub cpp_pr2_emission_confidence_threshold: Option<u32>,
}

/// Why a view gives no points.
#[derive(Debug, Clone, Copy, PartialEq, Eq, Structural)]
pub enum BackprojectionError {
    EmptyDimensions,
    RgbLength,
    EvidenceLength,
    ZeroPixelStride,
    InvalidFocalLength,
    NonFiniteCalibration,
    NonInvertibleCalibration,
    InvalidSettings,
}

impl BackprojectionError {
    /// The reason in words.
    pub fn message(&self) -> (text: &'static str)
        ensures
            text@ == match *self {
                BackprojectionError::EmptyDimensions => "view dimensions must be non-zero"@,
                BackprojectionError::RgbLength => "RGB input must contain width * height * 3 bytes"@,
                BackprojectionError::EvidenceLength =>
                    "depth and confidence inputs must contain width * height values"@,
                BackprojectionError::ZeroPixelStride => "pixel stride must be at least one"@,
                BackprojectionError::InvalidFocalLength =>
                    "camera focal lengths must be finite and positive"@,
                BackprojectionError::NonFiniteCalibration =>
                    "camera intrinsics and pose values must be finite"@,
                BackprojectionError::NonInvertibleCalibration =>
                    "camera calibration matrix is not invertible"@,
                BackprojectionError::InvalidSettings =>
                    "backprojection settings must be finite, with a non-negative surfel radius"@,
            },
    {
        match self {
            BackprojectionError::EmptyDimensions => "view dimensions must be non-zero",
            BackprojectionError::RgbLength => "RGB input must contain width * height * 3 bytes",
            BackprojectionError::EvidenceLength =>
                "depth and confidence inputs must contain width * height values",
            BackprojectionError::ZeroPixelStride => "pixel stride must be at least one",
            BackprojectionError::InvalidFocalLength =>
                "camera focal lengths must be finite and positive",
            BackprojectionError::NonFiniteCalibration =>
                "camera intrinsics and pose values must be finite",
            BackprojectionError::NonInvertibleCalibration =>
                "camera calibration matrix is not invertible",
            BackprojectionError::InvalidSettings =>
                "backprojection settings must be finite, with a non-negative surfel radius",
        }
    }
}

/// The pixels of a view.
pub open spec fn pixel_count(view: MeasuredView) -> int {
    view.width * view.height
}

/// Why a view is refused, if it is: the first fault in this order.
pub open spec fn view_fault(
    view: MeasuredView,
    settings: BackprojectionSettings,
) -> Option<BackprojectionError> {
    let fx = view.camera.intrinsics@[0];
    let fy = view.camera.intrinsics@[4];
    if view.width == 0 || view.height == 0 {
        Some(BackprojectionError::EmptyDimensions)
    } else if view.rgb_hwc_u8@.len() != pixel_count(view) * 3 {
        Some(BackprojectionError::RgbLength)
    } else if view.depth@.len() != pixel_count(view) || view.confidence@.len() != pixel_count(
        view,
    ) {
        Some(BackprojectionError::EvidenceLength)
    } else if settings.pixel_stride == 0 {
        Some(BackprojectionError::ZeroPixelStride)
    } else if !ieee::f32_finite(settings.minimum_confidence) || !ieee::f32_finite(
        settings.surfel_radius_pixels,
    ) || ieee::f32_less(settings.surfel_radius_pixels, 0) {
        Some(BackprojectionError::InvalidSettings)
    } else if !ieee::f32_positive(fx) || !ieee::f32_positive(fy) {
        Some(BackprojectionError::InvalidFocalLength)
    } else if !ieee::f32_all_finite(view.camera.intrinsics@) || !ieee::f32_all_finite(
        view.camera.world_to_camera@,
    ) {
        Some(BackprojectionError::NonFiniteCalibration)
    } else {
        None
    }
}

/// Refuses a view that cannot be measured.
pub fn check_view(view: &MeasuredView, settings: &BackprojectionSettings) -> (result: Result<
    (),
    BackprojectionError,
>)
    ensures
        match result {
            Ok(_) => view_fault(*view, *settings) is None,
            Err(e) => view_fault(*view, *settings) == Some(e),
        },
{
    if view.width == 0 || view.height == 0 {
        return Err(BackprojectionError::EmptyDimensions);
    }
    assert(view.width * view.height <= 0xffff_ffff_ffff_ffff * 0xffff_ffff_ffff_ffff)
        by (nonlinear_arith)
        requires
            view.width <= 0xffff_ffff_ffff_ffff,
            view.height <= 0xffff_ffff_ffff_ffff,
    ;
    let pixels: u128 = view.width as u128 * view.height as u128;
    let rgb: usize = view.rgb_hwc_u8.len();
    let depths: usize = view.depth.len();
    let confidences: usize = view.confidence.len();
    if rgb % 3 != 0 || (rgb / 3) as u128 != pixels {
        return Err(BackprojectionError::RgbLength);
    }
    if depths as u128 != pixels || confidences as u128 != pixels {
        return Err(BackprojectionError::EvidenceLength);
    }
    if settings.pixel_stride == 0 {
        return Err(BackprojectionError::ZeroPixelStride);
    }
    if !ieee::f32_is_finite(settings.minimum_confidence) || !ieee::f32_is_finite(
        settings.surfel_radius_pixels,
    ) || ieee::f32_lt(settings.surfel_radius_pixels, 0) {
        return Err(BackprojectionError::InvalidSettings);
    }
    if !ieee::f32_is_positive(view.camera.intrinsics[0]) || !ieee::f32_is_positive(
        view.camera.intrinsics[4],
    ) {
        return Err(BackprojectionError::InvalidFocalLength);
    }
    if !ieee::f32s_are_finite(&view.camera.intrinsics) || !ieee::f32s_are_finite(
        &view.camera.world_to_camera,
    ) {
        return Err(BackprojectionError::NonFiniteCalibration);
    }
    Ok(())
}

/// A pixel that is measured geometry, with its evidence.
#[derive(Debug, Clone, Copy, PartialEq, Eq)]
pub struct MeasuredPixel {
    pub x: usize,
    pub y: usize,
    pub depth: u32,
    pub confidence: u32,
    pub color_srgb: [u8; 3],
    /// The right and the lower neighbour have depth too, so that a normal can
    /// be taken from the depth stencil.
    pub stencil: bool,
}

/// The place of a pixel in the rasters of a view.
pub open spec fn pixel_index(view: MeasuredView, x: int, y: int) -> int {
    y * view.width + x
}

/// A pixel of the view with usable depth.
pub open spec fn has_depth(view: MeasuredView, x: int, y: int) -> bool {
    x < view.width && y < view.height && ieee::f32_positive(view.depth@[pixel_index(view, x, y)])
}

/// A pixel is measured geometry: on the stride, with positive depth and with
/// enough confidence.
pub open spec fn is_measured(
    view: MeasuredView,
    settings: BackprojectionSettings,
    x: int,
    y: int,
) -> bool {
    let index = pixel_index(view, x, y);
    &&& x % settings.pixel_stride as int == 0
    &&& y % settings.pixel_stride as int == 0
    &&& has_depth(view, x, y)
    &&& ieee::f32_finite(view.confidence@[index])
    &&& !ieee::f32_less(view.confidence@[index], settings.minimum_confidence)
}

/// The evidence of a pixel.
pub open spec fn evidence_at(view: MeasuredView, x: int, y: int) -> MeasuredPixel {
    let index = pixel_index(view, x, y);
    MeasuredPixel {
        x: x as usize,
        y: y as usize,
        depth: view.depth@[index],
        confidence: view.confidence@[index],
        color_srgb: [
            view.rgb_hwc_u8@[index * 3],
            view.rgb_hwc_u8@[index * 3 + 1],
            view.rgb_hwc_u8@[index * 3 + 2],
        ],
        stencil: has_depth(view, x + 1, y) && has_depth(view, x, y + 1),
    }
}

/// The measured pixels among the first `count` of a row.
pub open spec fn row_pixels(
    view: MeasuredView,
    settings: BackprojectionSettings,
    y: int,
    count: int,
) -> Seq<MeasuredPixel>
    decreases count,
{
    if count <= 0 {
        Seq::empty()
    } else if is_measured(view, settings, count - 1, y) {
        row_pixels(view, settings, y, count - 1).push(evidence_at(view, count - 1, y))
    } else {
        row_pixels(view, settings, y, count - 1)
    }
}

/// The measured pixels of the first `rows` rows.
pub open spec fn measured_pixels(
    view: MeasuredView,
    settings: BackprojectionSettings,
    rows: int,
) -> Seq<MeasuredPixel>
    decreases rows,
{
    if rows <= 0 {
        Seq::empty()
    } else {
        measured_pixels(view, settings, rows - 1) + row_pixels(
            view,
            settings,
            rows - 1,
            view.width as int,
        )
    }
}

proof fn lemma_index(view: MeasuredView, x: int, y: int)
    requires
        0 <= x < view.width,
        0 <= y < view.height,
    ensures
        0 <= pixel_index(view, x, y) < pixel_count(view),
        0 <= y * view.width <= pixel_index(view, x, y),
{
    assert(0 <= y * view.width + x < view.width * view.height) by (nonlinear_arith)
        requires
            0 <= x < view.width,
            0 <= y < view.height,
    ;
    assert(0 <= y * view.width) by (nonlinear_arith)
        requires
            0 <= y,
            0 <= view.width,
    ;
}

fn depth_at(view: &MeasuredView, x: usize, y: usize) -> (answer: bool)
    requires
        view.depth@.len() == pixel_count(*view),
    ensures
        answer == has_depth(*view, x as int, y as int),
{
    if x >= view.width || y >= view.height {
        return false;
    }
    let _count: usize = view.depth.len();
    proof {
        lemma_index(*view, x as int, y as int);
    }
    ieee::f32_is_positive(view.depth[y * view.width + x])
}

fn pixel_at(
    view: &MeasuredView,
    settings: &BackprojectionSettings,
    x: usize,
    y: usize,
) -> (pixel: Option<MeasuredPixel>)
    requires
        view_fault(*view, *settings) is None,
        x < view.width,
        y < view.height,
    ensures
        match pixel {
            None => !is_measured(*view, *settings, x as int, y as int),
            Some(found) => is_measured(*view, *settings, x as int, y as int) && found
                == evidence_at(*view, x as int, y as int),
        },
{
    let _count: usize = view.rgb_hwc_u8.len();
    proof {
        lemma_index(*view, x as int, y as int);
    }
    if x % settings.pixel_stride != 0 || y % settings.pixel_stride != 0 {
        return None;
    }
    let index: usize = y * view.width + x;
    let depth: u32 = view.depth[index];
    let confidence: u32 = view.confidence[index];
    if !ieee::f32_is_positive(depth) || !ieee::f32_is_finite(confidence) || ieee::f32_lt(
        confidence,
        settings.minimum_confidence,
    ) {
        return None;
    }
    let stencil = depth_at(view, x + 1, y) && depth_at(view, x, y + 1);
    let color_srgb: [u8; 3] = [
        view.rgb_hwc_u8[index * 3],
        view.rgb_hwc_u8[index * 3 + 1],
        view.rgb_hwc_u8[index * 3 + 2],
    ];
    Some(MeasuredPixel { x, y, depth, confidence, color_srgb, stencil })
}

/// The measured pixels of a view, row by row.
pub fn select_measured_pixels(
    view: &MeasuredView,
    settings: &BackprojectionSettings,
) -> (result: Result<Vec<MeasuredPixel>, BackprojectionError>)
    ensures
        match result {
            Ok(pixels) => view_fault(*view, *settings) is None && pixels@ == measured_pixels(
                *view,
                *settings,
                view.height as int,
            ),
            Err(e) => view_fault(*view, *settings) == Some(e),
        },
{
    if let Err(e) = check_view(view, settings) {
        return Err(e);
    }
    let mut pixels: Vec<MeasuredPixel> = Vec::new();
    for y in 0..view.height
        invariant
            view_fault(*view, *settings) is None,
            pixels@ == measured_pixels(*view, *settings, y as int),
    {
        let ghost start = pixels@;
        assert(start + row_pixels(*view, *settings, y as int, 0) =~= start);
        for x in 0..view.width
            invariant
                view_fault(*view, *settings) is None,
                y < view.height,
                pixels@ == start + row_pixels(*view, *settings, y as int, x as int),
        {
            if let Some(pixel) = pixel_at(view, settings, x, y) {
                pixels.push(pixel);
                assert(pixels@ =~= start + row_pixels(*view, *settings, y as int, x + 1));
            }
        }
    }
    Ok(pixels)
}

/// Where a measured pixel lies in the world.
#[derive(Debug, Clone, Copy, PartialEq, Eq)]
pub struct PixelGeometry {
    pub position: [u32; 3],
    pub normal: [u32; 3],
    pub radius: u32,
}

/// The point of a measured pixel.
pub open spec fn point_of(pixel: MeasuredPixel, geometry: PixelGeometry) -> MeasuredPoint {
    MeasuredPoint {
        position: geometry.position,
        normal: geometry.normal,
        color_srgb: pixel.color_srgb,
        confidence: pixel.confidence,
        radius: geometry.radius,
        source_pixel: [pixel.x as u32, pixel.y as u32],
    }
}

/// Turns the measured pixels of a view into points. `geometry` holds one entry
/// per measured pixel, in the order of [`select_measured_pixels`].
pub fn backproject_measured_view(
    view: &MeasuredView,
    settings: &BackprojectionSettings,
    geometry: &Vec<PixelGeometry>,
) -> (result: Result<Vec<MeasuredPoint>, BackprojectionError>)
    requires
        view_fault(*view, *settings) is None ==> geometry@.len() == measured_pixels(
            *view,
            *settings,
            view.height as int,
        ).len(),
    ensures
        match result {
            Ok(points) => view_fault(*view, *settings) is None && points@ == Seq::new(
                geometry@.len(),
                |i: int|
                    point_of(measured_pixels(*view, *settings, view.height as int)[i], geometry@[i]),
            ),
            Err(e) => view_fault(*view, *settings) == Some(e),
        },
{
    let pixels: Vec<MeasuredPixel> = match select_measured_pixels(view, settings) {
        Ok(pixels) => pixels,
        Err(e) => {
            return Err(e);
        },
    };
    let ghost whole = Seq::new(geometry@.len(), |i: int| point_of(pixels@[i], geometry@[i]));
    let mut points: Vec<MeasuredPoint> = Vec::new();
    for i in 0..pixels.len()
        invariant
            pixels@.len() == geometry@.len(),
            whole == Seq::new(geometry@.len(), |i: int| point_of(pixels@[i], geometry@[i])),
            points@ == whole.take(i as int),
    {
        let pixel = pixels[i];
        let placed = geometry[i];
        points.push(
            MeasuredPoint {
                position: placed.position,
                normal: placed.normal,
                color_srgb: pixel.color_srgb,
                confidence: pixel.confidence,
                radius: placed.radius,
                source_pixel: [
                    #[verifier::truncate] (pixel.x as u32),
                    #[verifier::truncate] (pixel.y as u32),
                ],
            },
        );
        assert(points@ =~= whole.take(i + 1));
    }
    assert(whole.take(geometry@.len() as int) =~= whole);
    Ok(points)
}

/// Points with their positions replaced, in order.
pub open spec fn moved(points: Seq<MeasuredPoint>, positions: Seq<[u32; 3]>) -> Seq<MeasuredPoint> {
    Seq::new(points.len(), |i: int| MeasuredPoint { position: positions[i], ..points[i] })
}

/// A pixel that an exact inverse calibration places, with its depth.
#[derive(Debug, Clone, Copy, PartialEq, Eq)]
pub struct DepthPixel {
    pub x: usize,
    pub y: usize,
    pub depth: u32,
}

/// A pixel is placed by an exact inverse calibration: it has positive depth and at
/// least the confidence asked for. No stride applies.
pub open spec fn is_placed(view: MeasuredView, minimum: u32, x: int, y: int) -> bool {
    has_depth(view, x, y) && ieee::f32_at_most(
        minimum,
        view.confidence@[pixel_index(view, x, y)],
    )
}

/// The placed pixels among the first `count` of a row.
pub open spec fn placed_row(view: MeasuredView, minimum: u32, y: int, count: int) -> Seq<
    DepthPixel,
>
    decreases count,
{
    if count <= 0 {
        Seq::empty()
    } else {
        let rest = placed_row(view, minimum, y, count - 1);
        if is_placed(view, minimum, count - 1, y) {
            rest.push(
                DepthPixel {
                    x: (count - 1) as usize,
                    y: y as usize,
                    depth: view.depth@[pixel_index(view, count - 1, y)],
                },
            )
        } else {
            rest
        }
    }
}

/// The placed pixels of the first `rows` rows.
pub open spec fn placed_pixels(view: MeasuredView, minimum: u32, rows: int) -> Seq<DepthPixel>
    decreases rows,
{
    if rows <= 0 {
        Seq::empty()
    } else {
        placed_pixels(view, minimum, rows - 1) + placed_row(
            view,
            minimum,
            rows - 1,
            view.width as int,
        )
    }
}

/// The pixels of a view that an exact inverse calibration places, row by row.
pub fn select_placed_pixels(view: &MeasuredView, minimum: u32) -> (pixels: Vec<DepthPixel>)
    requires
        view.depth@.len() == pixel_count(*view),
        view.confidence@.len() == pixel_count(*view),
    ensures
        pixels@ == placed_pixels(*view, minimum, view.height as int),
{
    let mut pixels: Vec<DepthPixel> = Vec::new();
    let _count: usize = view.depth.len();
    for y in 0..view.height
        invariant
            view.depth@.len() == pixel_count(*view) <= usize::MAX,
            view.confidence@.len() == pixel_count(*view),
            pixels@ == placed_pixels(*view, minimum, y as int),
    {
        let ghost start = pixels@;
        assert(start + placed_row(*view, minimum, y as int, 0) =~= start);
        for x in 0..view.width
            invariant
                view.depth@.len() == pixel_count(*view) <= usize::MAX,
                view.confidence@.len() == pixel_count(*view),
                y < view.height,
                pixels@ == start + placed_row(*view, minimum, y as int, x as int),
        {
            proof {
                lemma_index(*view, x as int, y as int);
            }
            let index: usize = y * view.width + x;
            let depth: u32 = view.depth[index];
            if ieee::f32_is_positive(depth) && ieee::f32_le(minimum, view.confidence[index]) {
                pixels.push(DepthPixel { x, y, depth });
                assert(pixels@ =~= start + placed_row(*view, minimum, y as int, x + 1));
            }
        }
    }
    pixels
}

/// Gives measured points the positions of an exact inverse calibration. Where
/// the calibration has no inverse, or the inverse measures another number of
/// pixels, there are no points.
pub fn reposition_points(
    points: &Vec<MeasuredPoint>,
    positions: &Option<Vec<[u32; 3]>>,
) -> (result: Result<Vec<MeasuredPoint>, BackprojectionError>)
    ensures
        match result {
            Ok(repositioned) => positions matches Some(list) && list@.len() == points@.len()
                && repositioned@ == moved(points@, list@),
            Err(e) => e is NonInvertibleCalibration && (positions matches Some(list) ==> list@.len()
                != points@.len()),
        },
{
    match positions {
        None => Err(BackprojectionError::NonInvertibleCalibration),
        Some(list) => {
            if list.len() != points.len() {
                return Err(BackprojectionError::NonInvertibleCalibration);
            }
            let mut repositioned: Vec<MeasuredPoint> = Vec::new();
            for i in 0..points.len()
                invariant
                    list@.len() == points@.len(),
                    repositioned@ == moved(points@, list@).take(i as int),
            {
                let mut point = points[i];
                point.position = list[i];
                repositioned.push(point);
                assert(repositioned@ =~= moved(points@, list@).take(i + 1));
            }
            assert(repositioned@ =~= moved(points@, list@));
            Ok(repositioned)
        },
    }
}

/// Every point is traceable to one pixel of the view that has positive depth
/// and enough confidence.
pub proof fn law_points_are_measured(
    view: MeasuredView,
    settings: BackprojectionSettings,
    rows: int,
    i: int,
)
    requires
        0 <= rows <= view.height,
        0 <= i < measured_pixels(view, settings, rows).len(),
    ensures
        exists|x: int, y: int|
            0 <= x < view.width && 0 <= y < rows && #[trigger] is_measured(view, settings, x, y)
                && measured_pixels(view, settings, rows)[i] == evidence_at(view, x, y),
    decreases rows,
{
    let rest = measured_pixels(view, settings, rows - 1);
    if i < rest.len() {
        law_points_are_measured(view, settings, rows - 1, i);
        let (x, y) = choose|x: int, y: int|
            0 <= x < view.width && 0 <= y < rows - 1 && #[trigger] is_measured(
                view,
                settings,
                x,
                y,
            ) && rest[i] == evidence_at(view, x, y);
        assert(is_measured(view, settings, x, y));
    } else {
        lemma_row(view, settings, rows - 1, view.width as int, i - rest.len());
    }
}

proof fn lemma_row(
    view: MeasuredView,
    settings: BackprojectionSettings,
    y: int,
    count: int,
    i: int,
)
    requires
        0 <= i < row_pixels(view, settings, y, count).len(),
        count <= view.width,
    ensures
        exists|x: int|
            0 <= x < count && #[trigger] is_measured(view, settings, x, y) && row_pixels(
                view,
                settings,
                y,
                count,
            )[i] == evidence_at(view, x, y),
    decreases count,
{
    if count > 0 {
        let rest = row_pixels(view, settings, y, count - 1);
        if i < rest.len() {
            lemma_row(view, settings, y, count - 1, i);
            let x = choose|x: int|
                0 <= x < count - 1 && #[trigger] is_measured(view, settings, x, y) && rest[i]
                    == evidence_at(view, x, y);
            assert(is_measured(view, settings, x, y));
        } else {
            assert(is_measured(view, settings, count - 1, y));
        }
    }
}

/// A pixel of a view that counts as evidence: it stands on the stride, its depth is
/// a number above zero, and its confidence is a number that is not below the minimum.
pub open spec fn pixel_counts(
    view: MeasuredView,
    settings: BackprojectionSettings,
    pixel: (int, int),
) -> bool {
    let (x, y) = pixel;
    let depth = view.depth@[y * view.width + x];
    let confidence = view.confidence@[y * view.width + x];
    &&& 0 <= x < view.width && 0 <= y < view.height
    &&& x % settings.pixel_stride as int == 0 && y % settings.pixel_stride as int == 0
    &&& 0 < ieee::f32_rank(depth) < 0x7f80_0000
    &&& ieee::f32_magnitude(confidence) < 0x7f80_0000
    &&& ieee::f32_rank(settings.minimum_confidence) <= ieee::f32_rank(confidence)
}

/// Measured points are what the rasters of the view say at their pixels. Point `i`
/// comes from a pixel of the view: it carries the confidence and the three colour
/// bytes that the rasters hold at that pixel, and the geometry that was measured for
/// it. The pixel stands on the stride, has a finite depth above zero, and has a
/// finite confidence that is not below the minimum. The points come row by row, and
/// every such pixel gives one. `pixels` names the pixel of each point.
pub proof fn law_points_are_their_pixels(
    view: MeasuredView,
    settings: BackprojectionSettings,
    geometry: Seq<PixelGeometry>,
    points: Seq<MeasuredPoint>,
)
    requires
        view_fault(view, settings) is None,
        geometry.len() == measured_pixels(view, settings, view.height as int).len(),
        points == Seq::new(
            geometry.len(),
            |i: int|
                point_of(measured_pixels(view, settings, view.height as int)[i], geometry[i]),
        ),
    ensures
        exists|pixels: Seq<(int, int)>|
            {
                &&& #[trigger] pixels.len() == points.len()
                &&& forall|i: int|
                    0 <= i < points.len() ==> {
                        let at = pixels[i].1 * view.width + pixels[i].0;
                        &&& (#[trigger] points[i]).source_pixel@ == seq![
                            pixels[i].0 as u32,
                            pixels[i].1 as u32,
                        ]
                        &&& points[i].confidence == view.confidence@[at]
                        &&& points[i].color_srgb@ == view.rgb_hwc_u8@.subrange(3 * at, 3 * at + 3)
                        &&& points[i].position == geometry[i].position
                        &&& points[i].normal == geometry[i].normal
                        &&& points[i].radius == geometry[i].radius
                    }
                &&& forall|i: int, j: int|
                    0 <= i < j < pixels.len() ==> pixels[i].1 < pixels[j].1 || (pixels[i].1
                        == pixels[j].1 && pixels[i].0 < pixels[j].0)
                &&& forall|pixel: (int, int)| #[trigger]
                    pixels.contains(pixel) <==> pixel_counts(view, settings, pixel)
            },
{
    let all = measured_pixels(view, settings, view.height as int);
    let pixels = Seq::new(all.len(), |i: int| (all[i].x as int, all[i].y as int));
    lemma_measured_pixels(view, settings, view.height as int);
    assert forall|i: int| 0 <= i < points.len() implies {
        let at = pixels[i].1 * view.width + pixels[i].0;
        &&& (#[trigger] points[i]).source_pixel@ == seq![pixels[i].0 as u32, pixels[i].1 as u32]
        &&& points[i].confidence == view.confidence@[at]
        &&& points[i].color_srgb@ == view.rgb_hwc_u8@.subrange(3 * at, 3 * at + 3)
        &&& points[i].position == geometry[i].position
        &&& points[i].normal == geometry[i].normal
        &&& points[i].radius == geometry[i].radius
    } by {
        let (x, y) = pixels[i];
        let at = y * view.width + x;
        assert(all[i] == evidence_at(view, x, y));
        lemma_index(view, x, y);
        assert(points[i].source_pixel@ =~= seq![x as u32, y as u32]);
        assert(points[i].color_srgb@ =~= view.rgb_hwc_u8@.subrange(3 * at, 3 * at + 3));
    }
    assert forall|pixel: (int, int)| #[trigger] pixels.contains(pixel) <==> pixel_counts(
        view,
        settings,
        pixel,
    ) by {
        if pixels.contains(pixel) {
            let i = pixels.index_of(pixel);
            assert(pixels[i] == pixel);
            assert(all[i].x == pixel.0 && all[i].y == pixel.1);
            assert(is_measured(view, settings, pixel.0, pixel.1));
        }
        if pixel_counts(view, settings, pixel) {
            assert(is_measured(view, settings, pixel.0, pixel.1));
            let i = choose|i: int|
                0 <= i < all.len() && (#[trigger] all[i]).x == pixel.0 && all[i].y == pixel.1;
            assert(pixels[i] == pixel);
        }
    }
    assert(pixels.len() == points.len());
}

proof fn lemma_row_pixels(
    view: MeasuredView,
    settings: BackprojectionSettings,
    y: int,
    count: int,
)
    requires
        0 <= y < view.height,
        0 <= count <= view.width,
    ensures
        ({
            let row = row_pixels(view, settings, y, count);
            &&& forall|i: int|
                0 <= i < row.len() ==> {
                    let x = (#[trigger] row[i]).x as int;
                    &&& 0 <= x < count && row[i].y == y
                    &&& is_measured(view, settings, x, y)
                    &&& row[i] == evidence_at(view, x, y)
                }
            &&& forall|i: int, j: int| 0 <= i < j < row.len() ==> row[i].x < row[j].x
            &&& forall|x: int|
                0 <= x < count && #[trigger] is_measured(view, settings, x, y) ==> exists|i: int|
                    0 <= i < row.len() && (#[trigger] row[i]).x == x
        }),
    decreases count,
{
    if count > 0 {
        lemma_row_pixels(view, settings, y, count - 1);
        let rest = row_pixels(view, settings, y, count - 1);
        let row = row_pixels(view, settings, y, count);
        assert forall|x: int|
            0 <= x < count && #[trigger] is_measured(view, settings, x, y) implies exists|i: int|
            0 <= i < row.len() && (#[trigger] row[i]).x == x by {
            if x < count - 1 {
                let i = choose|i: int| 0 <= i < rest.len() && (#[trigger] rest[i]).x == x;
                assert(row[i].x == x);
            } else {
                assert(row[row.len() - 1].x == x);
            }
        }
    }
}

proof fn lemma_measured_pixels(view: MeasuredView, settings: BackprojectionSettings, rows: int)
    requires
        0 <= rows <= view.height,
    ensures
        ({
            let all = measured_pixels(view, settings, rows);
            &&& forall|i: int|
                0 <= i < all.len() ==> {
                    let (x, y) = ((#[trigger] all[i]).x as int, all[i].y as int);
                    &&& 0 <= x < view.width && 0 <= y < rows
                    &&& is_measured(view, settings, x, y)
                    &&& all[i] == evidence_at(view, x, y)
                }
            &&& forall|i: int, j: int|
                0 <= i < j < all.len() ==> all[i].y < all[j].y || (all[i].y == all[j].y && all[i].x
                    < all[j].x)
            &&& forall|x: int, y: int|
                0 <= x < view.width && 0 <= y < rows && #[trigger] is_measured(view, settings, x, y)
                    ==> exists|i: int|
                    0 <= i < all.len() && (#[trigger] all[i]).x == x && all[i].y == y
        }),
    decreases rows,
{
    if rows > 0 {
        lemma_measured_pixels(view, settings, rows - 1);
        lemma_row_pixels(view, settings, rows - 1, view.width as int);
        let rest = measured_pixels(view, settings, rows - 1);
        let row = row_pixels(view, settings, rows - 1, view.width as int);
        let all = measured_pixels(view, settings, rows);
        assert(all == rest + row);
        assert forall|i: int| 0 <= i < all.len() implies {
            let (x, y) = ((#[trigger] all[i]).x as int, all[i].y as int);
            &&& 0 <= x < view.width && 0 <= y < rows
            &&& is_measured(view, settings, x, y)
            &&& all[i] == evidence_at(view, x, y)
        } by {
            if i < rest.len() {
                assert(all[i] == rest[i]);
            } else {
                assert(all[i] == row[i - rest.len()]);
            }
        }
        assert forall|i: int, j: int| 0 <= i < j < all.len() implies all[i].y < all[j].y || (
        all[i].y == all[j].y && all[i].x < all[j].x) by {
            if j < rest.len() {
                assert(all[i] == rest[i] && all[j] == rest[j]);
            } else if i >= rest.len() {
                assert(all[i] == row[i - rest.len()] && all[j] == row[j - rest.len()]);
            } else {
                assert(all[i] == rest[i] && all[j] == row[j - rest.len()]);
            }
        }
        assert forall|x: int, y: int|
            0 <= x < view.width && 0 <= y < rows && #[trigger] is_measured(
                view,
                settings,
                x,
                y,
            ) implies exists|i: int|
            0 <= i < all.len() && (#[trigger] all[i]).x == x && all[i].y == y by {
            if y < rows - 1 {
                let i = choose|i: int|
                    0 <= i < rest.len() && (#[trigger] rest[i]).x == x && rest[i].y == y;
                assert(all[i] == rest[i]);
            } else {
                let i = choose|i: int| 0 <= i < row.len() && (#[trigger] row[i]).x == x;
                assert(all[rest.len() + i] == row[i]);
            }
        }
    }
}

} // verus!
