use cpu_game::presentation::{PresentationRequest, Size};

/// A `width` x `height` image filled with `background`, with a disc of the
/// inverted color at (`cx`, `cy`) whose edge fades over `blur_radius` pixels.
fn create_test_image(
    width: u32,
    height: u32,
    background: [u8; 4],
    cx: i32,
    cy: i32,
    radius: i32,
    blur_radius: f32,
) -> image::RgbaImage {
    let disc = [255 - background[0], 255 - background[1], 255 - background[2], background[3]];
    let mut img = image::ImageBuffer::from_pixel(width, height, image::Rgba(background));
    let reach = radius + blur_radius.ceil() as i32 + 1;
    for y in (cy - reach).max(0)..(cy + reach).min(height as i32) {
        for x in (cx - reach).max(0)..(cx + reach).min(width as i32) {
            let dx = (x - cx) as f32;
            let dy = (y - cy) as f32;
            let dist = (dx * dx + dy * dy).sqrt();
            let t = ((radius as f32 + blur_radius - dist) / (2.0 * blur_radius.max(1e-3))).clamp(0.0, 1.0);
            let mix = |a: u8, b: u8| (a as f32 + (b as f32 - a as f32) * t).round() as u8;
            img.put_pixel(
                x as u32,
                y as u32,
                image::Rgba([
                    mix(background[0], disc[0]),
                    mix(background[1], disc[1]),
                    mix(background[2], disc[2]),
                    mix(background[3], disc[3]),
                ]),
            );
        }
    }
    img
}

/// Wraps an RGBA image as a presentation request.
fn image_to_presentation(img: &image::RgbaImage, frame_number: u64) -> PresentationRequest {
    PresentationRequest::new(img.as_raw().clone(), img.width(), img.height(), frame_number)
}

const TEST_RESOLUTIONS: &[(u32, u32)] = &[
    (320, 224),
    (640, 480),
    (800, 600),
    (1024, 768),
    (1280, 720),
    (1920, 1080),
    (2560, 1440),
];

#[test]
fn test_image_loading_pattern() {
    let img = image::ImageBuffer::from_pixel(320, 240, image::Rgba([255, 0, 0, 255]));

    let presentation_request = image_to_presentation(&img, 0);

    assert_eq!(presentation_request.width, 320);
    assert_eq!(presentation_request.height, 240);
    assert_eq!(presentation_request.frame_number, 0);
    assert!(presentation_request.is_valid());

    let expected_pixel_count = 320 * 240 * 4;
    assert_eq!(presentation_request.pixel_data.len(), expected_pixel_count);
}

#[test]
fn test_viewport_calculation_with_image_dimensions() {
    let window_width = 800;
    let window_height = 600;
    let content_width = 320;
    let content_height = 240;

    let window_aspect = window_width as f32 / window_height as f32;
    let content_aspect = content_width as f32 / content_height as f32;

    let (viewport_width, viewport_height) = if window_aspect > content_aspect {
        let height = window_height;
        let width = (window_height as f32 * content_aspect) as u32;
        (width, height)
    } else {
        let width = window_width;
        let height = (window_width as f32 / content_aspect) as u32;
        (width, height)
    };

    assert!(viewport_width <= window_width);
    assert!(viewport_height <= window_height);

    let calculated_aspect = viewport_width as f32 / viewport_height as f32;
    let tolerance = 0.01;
    assert!((calculated_aspect - content_aspect).abs() < tolerance);
}

#[test]
fn test_frame_generation_pattern() {
    let frame_number = 42;
    let background_color = [64, 128, 192, 255];
    let circle_x = 160.0;
    let circle_y = 112.0;
    let circle_radius = 50.0;

    let img = create_test_image(
        320,
        224,
        background_color,
        circle_x as i32,
        circle_y as i32,
        circle_radius as i32,
        2.0,
    );

    let presentation_request = image_to_presentation(&img, frame_number);

    assert_eq!(presentation_request.width, 320);
    assert_eq!(presentation_request.height, 224);
    assert_eq!(presentation_request.frame_number, frame_number);
    assert!(presentation_request.is_valid());

    let expected_pixel_count = 320 * 224 * 4;
    assert_eq!(presentation_request.pixel_data.len(), expected_pixel_count);
}

#[test]
fn test_frame_timing_calculations() {
    const TARGET_FPS: f64 = 60.0;
    let frame_duration = std::time::Duration::from_secs_f64(1.0 / TARGET_FPS);

    let expected_micros = (1_000_000.0 / TARGET_FPS) as u128;
    let actual_micros = frame_duration.as_micros();

    let tolerance = 10;
    assert!((actual_micros as i128 - expected_micros as i128).abs() < tolerance);

    let mut next_frame_time = std::time::Instant::now();
    let mut frame_count = 0;

    for _ in 0..5 {
        next_frame_time += frame_duration;
        frame_count += 1;
    }
    let _ = next_frame_time;

    assert_eq!(frame_count, 5);
}

#[test]
fn test_viewport_calculation_with_frame_dimensions() {
    let window_width = 1920;
    let window_height = 1080;
    let content_width = 320;
    let content_height = 224;

    let window_aspect = window_width as f32 / window_height as f32;
    let content_aspect = content_width as f32 / content_height as f32;

    let (viewport_width, viewport_height) = if window_aspect > content_aspect {
        let height = window_height;
        let width = (window_height as f32 * content_aspect) as u32;
        (width, height)
    } else {
        let width = window_width;
        let height = (window_width as f32 / content_aspect) as u32;
        (width, height)
    };

    assert!(window_aspect > content_aspect);
    assert!(viewport_width <= window_width);
    assert!(viewport_height <= window_height);
    assert_eq!(viewport_height, window_height);

    let calculated_aspect = viewport_width as f32 / viewport_height as f32;
    let tolerance = 0.01;
    assert!((calculated_aspect - content_aspect).abs() < tolerance);
}

#[test]
fn test_resolution_frame_generation() {
    let background_color = [128, 64, 192, 255];
    let circle_x = 100.0;
    let circle_y = 100.0;
    let circle_radius = 50.0;

    for &(width, height) in TEST_RESOLUTIONS {
        let img = create_test_image(
            width,
            height,
            background_color,
            circle_x as i32,
            circle_y as i32,
            circle_radius as i32,
            2.0,
        );

        let presentation_request = image_to_presentation(&img, 0);

        assert_eq!(presentation_request.width, width);
        assert_eq!(presentation_request.height, height);
        assert!(presentation_request.is_valid());

        let expected_pixel_count = (width * height * 4) as usize;
        assert_eq!(presentation_request.pixel_data.len(), expected_pixel_count);
    }
}

#[test]
fn test_resolution_switching_logic() {
    let mut current_resolution_idx = 0;
    let mut frames_since_resolution_change = 0;
    let frames_per_resolution = 60;

    for _ in 0..TEST_RESOLUTIONS.len() * frames_per_resolution {
        frames_since_resolution_change += 1;

        if frames_since_resolution_change >= frames_per_resolution {
            current_resolution_idx = (current_resolution_idx + 1) % TEST_RESOLUTIONS.len();
            frames_since_resolution_change = 0;
        }
    }

    assert_eq!(current_resolution_idx, 0);
}

#[test]
fn test_viewport_calculation_with_multiple_resolutions() {
    let window_width = 1920;
    let window_height = 1080;

    for &(content_width, content_height) in TEST_RESOLUTIONS {
        let window_aspect = window_width as f32 / window_height as f32;
        let content_aspect = content_width as f32 / content_height as f32;

        let (viewport_width, viewport_height) = if window_aspect > content_aspect {
            let height = window_height;
            let width = (window_height as f32 * content_aspect) as u32;
            (width, height)
        } else {
            let width = window_width;
            let height = (window_width as f32 / content_aspect) as u32;
            (width, height)
        };

        assert!(viewport_width <= window_width);
        assert!(viewport_height <= window_height);

        let calculated_aspect = viewport_width as f32 / viewport_height as f32;
        let tolerance = 0.01;
        assert!(
            (calculated_aspect - content_aspect).abs() < tolerance,
            "Aspect ratio not preserved for {}x{}: content={:.3}, calculated={:.3}",
            content_width,
            content_height,
            content_aspect,
            calculated_aspect
        );
    }
}

#[test]
fn test_extreme_resolution_handling() {
    let extreme_resolutions = [(1, 1), (100, 100), (4096, 2160), (8192, 4320)];

    for &(width, height) in &extreme_resolutions {
        let img = create_test_image(width, height, [255, 255, 255, 255], 10, 10, 5, 1.0);

        let presentation_request = image_to_presentation(&img, 0);

        assert_eq!(presentation_request.width, width);
        assert_eq!(presentation_request.height, height);
        assert!(presentation_request.is_valid());
    }
}

#[test]
fn request_validity_is_exact_length() {
    assert!(PresentationRequest::new(vec![0; 8], 2, 1, 0).is_valid());
    assert!(!PresentationRequest::new(vec![0; 7], 2, 1, 0).is_valid());
    assert!(!PresentationRequest::new(vec![0; 9], 2, 1, 0).is_valid());
    assert!(PresentationRequest::new(vec![], 0, 5, 0).is_valid());
    let size = Size::new(3u32, 4u32);
    assert_eq!((size.width, size.height), (3, 4));
}

#[test]
fn sizes_add_and_subtract_componentwise() {
    let a = Size::new(10u32, 20u32);
    let b = Size::new(3u32, 5u32);
    assert_eq!(a + b, Size::new(13, 25));
    assert_eq!(a - b, Size::new(7, 15));
    assert_eq!(a + 2u32, Size::new(12, 22));
    assert_eq!(a - 4u32, Size::new(6, 16));
    let f = Size::new(-1i64, 7i64);
    assert_eq!(f - Size::new(2, 2), Size::new(-3, 5));
}
