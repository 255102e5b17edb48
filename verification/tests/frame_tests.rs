use cpu_game::frame::{
    convert_grayscale, convert_indexed, convert_rgba, frame_message_to_request, parse_frame_header,
    to_presentation_request, validate_frame_size, ColorMode, FrameError, FrameHeader,
};

#[test]
fn test_color_mode_from_u8() {
    assert_eq!(ColorMode::from_u8(0).unwrap(), ColorMode::Rgb);
    assert_eq!(ColorMode::from_u8(1).unwrap(), ColorMode::Grayscale);
    assert_eq!(ColorMode::from_u8(2).unwrap(), ColorMode::Indexed);
    assert!(ColorMode::from_u8(3).is_err());
    assert!(ColorMode::from_u8(255).is_err());
}

#[test]
fn test_color_mode_bytes_per_pixel() {
    assert_eq!(ColorMode::Rgb.bytes_per_pixel(), 4);
    assert_eq!(ColorMode::Grayscale.bytes_per_pixel(), 2);
    assert_eq!(ColorMode::Indexed.bytes_per_pixel(), 1);
}

#[test]
fn test_parse_frame_header_valid() {
    let mut data = Vec::new();
    data.extend_from_slice(&100u32.to_le_bytes());
    data.extend_from_slice(&200u32.to_le_bytes());
    data.push(1);

    let header = parse_frame_header(&data).unwrap();
    assert_eq!(header.width, 100);
    assert_eq!(header.height, 200);
    assert_eq!(header.color_mode, 1);
    assert_eq!(header.color_mode().unwrap(), ColorMode::Grayscale);
}

#[test]
fn test_parse_frame_header_too_short() {
    let data = vec![1, 2, 3, 4, 5, 6, 7, 8];
    assert!(parse_frame_header(&data).is_err());
}

#[test]
fn test_parse_frame_header_invalid_color_mode() {
    let mut data = Vec::new();
    data.extend_from_slice(&100u32.to_le_bytes());
    data.extend_from_slice(&200u32.to_le_bytes());
    data.push(5);

    assert!(parse_frame_header(&data).is_err());
}

#[test]
fn test_validate_frame_size_valid() {
    let header = FrameHeader { width: 10, height: 10, color_mode: 0 };
    let total_size = 9 + (10 * 10 * 4);
    assert!(validate_frame_size(&header, total_size).is_ok());
}

#[test]
fn test_validate_frame_size_invalid() {
    let header = FrameHeader { width: 10, height: 10, color_mode: 0 };
    let total_size = 9 + (10 * 10 * 2);
    assert!(validate_frame_size(&header, total_size).is_err());
}

#[test]
fn test_convert_rgba() {
    let input = vec![255, 0, 0, 255, 0, 255, 0, 255];
    let result = convert_rgba(&input).unwrap();
    assert_eq!(result, input);
}

#[test]
fn test_convert_grayscale() {
    let input = vec![128, 255, 64, 128];
    let result = convert_grayscale(&input).unwrap();
    let expected = vec![128, 128, 128, 255, 64, 64, 64, 128];
    assert_eq!(result, expected);
}

#[test]
fn test_convert_indexed() {
    let input = vec![0, 128, 255];
    let result = convert_indexed(&input).unwrap();
    let expected = vec![0, 0, 0, 255, 128, 128, 128, 255, 255, 255, 255, 255];
    assert_eq!(result, expected);
}

#[test]
fn test_to_presentation_request_rgba() {
    let width = 2u32;
    let height = 1u32;
    let pixel_data = vec![255, 0, 0, 255, 0, 255, 0, 255];
    let frame_number = 42u64;

    let result = to_presentation_request(width, height, ColorMode::Rgb, &pixel_data, frame_number).unwrap();

    assert_eq!(result.width, width);
    assert_eq!(result.height, height);
    assert_eq!(result.frame_number, frame_number);
    assert_eq!(result.pixel_data, pixel_data);
    assert!(result.is_valid());
}

#[test]
fn test_to_presentation_request_grayscale() {
    let width = 2u32;
    let height = 1u32;
    let pixel_data = vec![128, 255, 64, 128];
    let frame_number = 42u64;

    let result =
        to_presentation_request(width, height, ColorMode::Grayscale, &pixel_data, frame_number).unwrap();

    assert_eq!(result.width, width);
    assert_eq!(result.height, height);
    assert_eq!(result.frame_number, frame_number);
    let expected_rgba = vec![128, 128, 128, 255, 64, 64, 64, 128];
    assert_eq!(result.pixel_data, expected_rgba);
    assert!(result.is_valid());
}

#[test]
fn test_to_presentation_request_indexed() {
    let width = 2u32;
    let height = 1u32;
    let pixel_data = vec![0, 255];
    let frame_number = 42u64;

    let result =
        to_presentation_request(width, height, ColorMode::Indexed, &pixel_data, frame_number).unwrap();

    assert_eq!(result.width, width);
    assert_eq!(result.height, height);
    assert_eq!(result.frame_number, frame_number);
    let expected_rgba = vec![0, 0, 0, 255, 255, 255, 255, 255];
    assert_eq!(result.pixel_data, expected_rgba);
    assert!(result.is_valid());
}

#[test]
fn test_malformed_message_handling() {
    let test_cases: Vec<(Vec<u8>, &str)> = vec![
        (vec![], "empty message"),
        (vec![1, 2, 3], "too short (3 bytes)"),
        (vec![1, 2, 3, 4, 5, 6, 7, 8], "header too short (8 bytes)"),
    ];

    for (malformed_data, desc) in test_cases {
        let result = parse_frame_header(&malformed_data);
        assert!(result.is_err(), "Expected error for {} but got success", desc);
    }

    let mut v = vec![10, 0, 0, 0, 10, 0, 0, 0, 5];
    v.resize(9 + (10 * 10 * 4), 0);
    let result = parse_frame_header(&v);
    assert!(result.is_err(), "Should fail for invalid color mode (5)");

    let mut v = vec![10, 0, 0, 0, 10, 0, 0, 0, 0];
    v.resize(9 + (10 * 10 * 2), 0);
    let header = parse_frame_header(&v).unwrap();
    let size_result = validate_frame_size(&header, v.len());
    assert!(size_result.is_err(), "Should fail for size mismatch");
}

#[test]
fn frame_errors_carry_their_details() {
    assert_eq!(parse_frame_header(&[1, 2, 3]), Err(FrameError::HeaderTooShort(3)));
    let mut data = vec![1, 0, 0, 0, 1, 0, 0, 0, 7];
    assert_eq!(parse_frame_header(&data), Err(FrameError::InvalidColorMode(7)));
    data[8] = 2;
    let header = parse_frame_header(&data).unwrap();
    assert_eq!(
        validate_frame_size(&header, 12),
        Err(FrameError::SizeMismatch { expected_total: 10, actual: 12 })
    );
    assert_eq!(
        to_presentation_request(3, 1, ColorMode::Rgb, &[0, 0, 0, 0], 0),
        Err(FrameError::InvalidRequest)
    );
}

#[test]
fn header_is_little_endian() {
    let data = [0x01, 0x02, 0x00, 0x00, 0x00, 0x00, 0x01, 0x00, 0x00];
    let header = parse_frame_header(&data).unwrap();
    assert_eq!(header.width, 0x0201);
    assert_eq!(header.height, 0x0001_0000);
    assert_eq!(header.expected_pixel_data_size().unwrap(), 0x0201 * 0x0001_0000 * 4);
}

#[test]
fn grayscale_drops_trailing_odd_byte() {
    assert_eq!(convert_grayscale(&[9, 8, 7]).unwrap(), vec![9, 9, 9, 8]);
}

#[test]
fn whole_message_becomes_request() {
    let mut msg = Vec::new();
    msg.extend_from_slice(&2u32.to_le_bytes());
    msg.extend_from_slice(&1u32.to_le_bytes());
    msg.push(1);
    msg.extend_from_slice(&[10, 20, 30, 40]);
    let req = frame_message_to_request(&msg, 7).unwrap();
    assert_eq!(req.width, 2);
    assert_eq!(req.height, 1);
    assert_eq!(req.frame_number, 7);
    assert_eq!(req.pixel_data, vec![10, 10, 10, 20, 30, 30, 30, 40]);

    msg.push(0);
    assert_eq!(
        frame_message_to_request(&msg, 7),
        Err(FrameError::SizeMismatch { expected_total: 13, actual: 14 })
    );
    assert_eq!(frame_message_to_request(&msg[..4], 7), Err(FrameError::HeaderTooShort(4)));
}

#[test]
fn pixel_size_near_the_usize_limit_is_computed() {
    let header = FrameHeader { width: 2_147_483_647, height: 2_147_483_649, color_mode: 0 };
    assert_eq!(header.expected_pixel_data_size(), Ok(usize::MAX - 3));
}
