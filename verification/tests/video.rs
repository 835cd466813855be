use vestra::ppm::{ppm_number, ppm_token, read_ppm_rgb, OwnedFrame, PpmProblem};
use vestra::video::{
    assess_capture_quality, center_crop_filter, check_decode_settings, check_duration,
    check_orientation, check_raster_settings, crop_geometry, load_decoded_rgb24_cache,
    probe_geometry, video_raster_metadata, CacheProblem, CaptureDisposition, ProbeProblem,
    VideoExtractionSettings, VideoGeometry, VideoInputError,
};

fn frame(rgb: Vec<u8>, width: usize, height: usize) -> OwnedFrame {
    OwnedFrame {
        rgb_hwc_u8: rgb,
        width,
        height,
    }
}

fn luma(frame: &OwnedFrame) -> f32 {
    let [r, g, b] = [0, 1, 2].map(|i| f32::from(frame.rgb_hwc_u8[i]));
    (0.2126 * r + 0.7152 * g + 0.0722 * b) / 255.0
}

#[test]
fn ppm_reader_accepts_comments_and_preserves_rgb_bytes() {
    let frame = read_ppm_rgb(b"P6\n# capture\n2 1\n255\n\x01\x02\x03\x04\x05\x06").unwrap();
    assert_eq!(frame.width, 2);
    assert_eq!(frame.height, 1);
    assert_eq!(frame.rgb_hwc_u8, vec![1, 2, 3, 4, 5, 6]);
}

#[test]
fn every_broken_pixmap_has_its_reason() {
    assert_eq!(read_ppm_rgb(b""), Err(PpmProblem::TruncatedHeader));
    assert_eq!(read_ppm_rgb(b"P5 1 1 255 x"), Err(PpmProblem::NotBinary));
    assert_eq!(read_ppm_rgb(b"P6 w 1 255 x"), Err(PpmProblem::InvalidWidth));
    assert_eq!(read_ppm_rgb(b"P6 1 h 255 x"), Err(PpmProblem::InvalidHeight));
    assert_eq!(read_ppm_rgb(b"P6 1 1 m x"), Err(PpmProblem::InvalidMaximum));
    assert_eq!(
        read_ppm_rgb(b"P6 1 1 65535 xyz"),
        Err(PpmProblem::UnsupportedShape)
    );
    assert_eq!(
        read_ppm_rgb(b"P6 1 1 255 xy"),
        Err(PpmProblem::RasterLength)
    );
}

#[test]
fn decode_cache_requires_the_locked_raster_and_is_reusable() {
    let settings = VideoExtractionSettings {
        width: 2,
        height: 1,
        candidate_fps: 1.0_f64.to_bits(),
        max_frames: 2,
    };
    let decoded = || read_ppm_rgb(b"P6\n2 1\n255\n\x01\x02\x03\x04\x05\x06").unwrap();
    let cached = load_decoded_rgb24_cache(vec![decoded()], &settings).unwrap();
    assert_eq!(cached.len(), 1);
    let narrow = VideoExtractionSettings {
        width: 1,
        ..settings
    };
    assert!(matches!(
        load_decoded_rgb24_cache(vec![decoded()], &narrow),
        Err(VideoInputError::InvalidCache(CacheProblem::Raster))
    ));
    assert!(matches!(
        load_decoded_rgb24_cache(vec![decoded(), decoded(), decoded()], &settings),
        Err(VideoInputError::InvalidCache(CacheProblem::FrameCount))
    ));
}

#[test]
fn static_capture_is_marked_for_recapture() {
    let frames = vec![
        frame(vec![10, 20, 30], 1, 1),
        frame(vec![10, 20, 30], 1, 1),
    ];
    let mean = (luma(&frames[0]) - luma(&frames[1])).abs();
    assert_eq!(
        assess_capture_quality(&frames, mean.to_bits()).disposition,
        CaptureDisposition::Recapture
    );
}

#[test]
fn changing_capture_is_ready_for_processing() {
    let frames = vec![frame(vec![0, 0, 0], 1, 1), frame(vec![255, 255, 255], 1, 1)];
    let mean = (luma(&frames[0]) - luma(&frames[1])).abs();
    assert_eq!(
        assess_capture_quality(&frames, mean.to_bits()).disposition,
        CaptureDisposition::Ready
    );
}

#[test]
fn landscape_16_by_9_is_center_cropped_to_three_by_two_before_resize() {
    let filter = center_crop_filter(
        "8.000000000",
        &VideoExtractionSettings::default(),
        VideoGeometry {
            width: 1920,
            height: 1080,
        },
    )
    .unwrap();
    assert_eq!(
        String::from_utf8(filter).unwrap(),
        "fps=8.000000000,crop=1620:1080:150:0,scale=504:336:flags=lanczos"
    );
}

#[test]
fn crop_filter_keeps_an_already_three_by_two_source_unchanged() {
    let filter = center_crop_filter(
        "8.000000000",
        &VideoExtractionSettings::default(),
        VideoGeometry {
            width: 1500,
            height: 1000,
        },
    )
    .unwrap();
    assert!(String::from_utf8(filter)
        .unwrap()
        .contains("crop=1500:1000:0:0"));
}

#[test]
fn a_crop_is_centred_in_the_source() {
    let crop = crop_geometry(
        &VideoExtractionSettings::default(),
        VideoGeometry {
            width: 1920,
            height: 1080,
        },
    )
    .unwrap();
    assert_eq!((crop.x, crop.y, crop.width, crop.height), (150, 0, 1620, 1080));
}

#[test]
fn portrait_captures_and_unusable_durations_are_refused() {
    assert!(matches!(
        check_orientation(VideoGeometry {
            width: 1080,
            height: 1920
        }),
        Err(VideoInputError::PortraitCapture {
            width: 1080,
            height: 1920
        })
    ));
    assert!(matches!(
        check_duration(Some(f64::NAN.to_bits())),
        Err(VideoInputError::InvalidDuration)
    ));
    assert_eq!(
        check_duration(Some(2.5_f64.to_bits())),
        Ok(2.5_f64.to_bits())
    );
}

#[test]
fn probed_dimensions_are_two_positive_numbers() {
    let geometry = probe_geometry("1920x1080").unwrap();
    assert_eq!((geometry.width, geometry.height), (1920, 1080));
    assert!(matches!(
        probe_geometry("wide"),
        Err(VideoInputError::Dimensions(ProbeProblem::NoDimensions))
    ));
    assert!(matches!(
        probe_geometry("0x1080"),
        Err(VideoInputError::Dimensions(ProbeProblem::InvalidDimensions))
    ));
}

#[test]
fn settings_without_a_raster_or_a_rate_are_refused() {
    let sound = VideoExtractionSettings::default();
    assert_eq!(check_raster_settings(&sound), Ok(()));
    assert_eq!(check_decode_settings(&sound), Ok(()));
    for broken in [
        VideoExtractionSettings { width: 0, ..sound },
        VideoExtractionSettings { height: 0, ..sound },
        VideoExtractionSettings {
            max_frames: 0,
            ..sound
        },
    ] {
        assert_eq!(
            check_raster_settings(&broken),
            Err(VideoInputError::InvalidSettings)
        );
    }
    let stopped = VideoExtractionSettings {
        candidate_fps: 0.0_f64.to_bits(),
        ..sound
    };
    assert_eq!(check_raster_settings(&stopped), Ok(()));
    assert_eq!(
        check_decode_settings(&stopped),
        Err(VideoInputError::InvalidSettings)
    );
}

#[test]
fn raster_metadata_binds_the_crop_to_the_video() {
    let settings = VideoExtractionSettings {
        width: 504,
        height: 336,
        ..VideoExtractionSettings::default()
    };
    let wide = VideoGeometry {
        width: 1920,
        height: 1080,
    };
    let metadata = video_raster_metadata(&settings, 12.5_f64.to_bits(), wide).unwrap();
    assert_eq!(f64::from_bits(metadata.duration_seconds), 12.5);
    assert_eq!((metadata.source_width, metadata.source_height), (1920, 1080));
    assert_eq!((metadata.crop.width, metadata.crop.height), (1620, 1080));
    assert_eq!((metadata.crop.x, metadata.crop.y), (150, 0));
    let tall = VideoGeometry {
        width: 1080,
        height: 1920,
    };
    assert_eq!(
        video_raster_metadata(&settings, 0, tall),
        Err(VideoInputError::PortraitCapture {
            width: 1080,
            height: 1920
        })
    );
}

#[test]
fn a_cursor_stops_behind_a_token_or_at_the_end() {
    let bytes = b" # note\n12 x # end";
    let mut cursor = 0;
    assert_eq!(ppm_token(bytes, &mut cursor), Ok(b"12".to_vec()));
    assert_eq!(cursor, 10);
    assert_eq!(
        ppm_number(bytes, &mut cursor, PpmProblem::InvalidWidth),
        Err(PpmProblem::InvalidWidth)
    );
    assert_eq!(cursor, 12);
    assert_eq!(
        ppm_token(bytes, &mut cursor),
        Err(PpmProblem::TruncatedHeader)
    );
    assert_eq!(cursor, bytes.len());
}
