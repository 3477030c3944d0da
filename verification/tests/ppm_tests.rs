use ppm::add_two;
use ppm::error::{ErrorKind, PpmError};
use ppm::header::{emit_header, new_with_bytes, parse_usize, BinaryImage};
use ppm::image::Image;
use ppm::pipeline::{process_image, run_pipeline, transform_chunk, worker_ranges};
use ppm::pixel::{greyscale_binary_pixel, invert_binary_pixel, BinaryPixel, ImageProcess, Pixel};
use ppm::tokenizer::next_token;

fn sample_file(header: &str, pixels: &[u8]) -> Vec<u8> {
    let mut data: Vec<u8> = header.as_bytes().to_vec();
    data.extend_from_slice(pixels);
    data
}

#[test]
fn test_add_two() {
    assert_eq!(add_two(2), 4);
    assert_eq!(add_two(-7), -5);
}

#[test]
fn test_invert() {
    let mut image = Image {
        pixels: vec![
            Pixel { red: 0, blue: 255, green: 17 },
            Pixel { red: 1, blue: 2, green: 3 },
            Pixel { red: 200, blue: 100, green: 50 },
        ],
        heigth: 1,
        width: 3,
        rgb_type: b"P3".to_vec(),
        max_val: 255,
    };
    let image_aux = Image {
        pixels: image.pixels.clone(),
        heigth: 1,
        width: 3,
        rgb_type: b"P3".to_vec(),
        max_val: 255,
    };

    image.invert();

    for i in 0..image.pixels.len() {
        assert_eq!(255 - image.pixels[i].red, image_aux.pixels[i].red);
        assert_eq!(255 - image.pixels[i].blue, image_aux.pixels[i].blue);
        assert_eq!(255 - image.pixels[i].green, image_aux.pixels[i].green);
    }
}

#[test]
fn test_greyscale() {
    let mut image = Image {
        pixels: vec![
            Pixel { red: 10, blue: 20, green: 30 },
            Pixel { red: 255, blue: 0, green: 128 },
            Pixel { red: 7, blue: 7, green: 7 },
        ],
        heigth: 1,
        width: 3,
        rgb_type: b"P3".to_vec(),
        max_val: 255,
    };
    let image_aux = Image {
        pixels: image.pixels.clone(),
        heigth: 1,
        width: 3,
        rgb_type: b"P3".to_vec(),
        max_val: 255,
    };

    image.greyscale();

    for i in 0..image.pixels.len() {
        let grey = (image_aux.pixels[i].red as u32
            + image_aux.pixels[i].blue as u32
            + image_aux.pixels[i].green as u32)
            / 3;
        assert_eq!(grey, image.pixels[i].red as u32);
        assert_eq!(grey, image.pixels[i].blue as u32);
        assert_eq!(grey, image.pixels[i].green as u32);
    }
}

#[test]
fn test_pixel_invert_involution() {
    for c in [0u8, 1, 17, 127, 128, 254, 255] {
        let mut p = Pixel { red: c, blue: 255 - c, green: c / 2 };
        let orig = p;
        p.invert();
        p.invert();
        assert!(p.eq(orig));
    }
}

#[test]
fn test_binary_pixel_invert() {
    let mut p = BinaryPixel { r: 10, g: 20, b: 30 };
    invert_binary_pixel(&mut p);
    assert_eq!(p.r, 245);
    assert_eq!(p.g, 235);
    assert_eq!(p.b, 225);
    invert_binary_pixel(&mut p);
    assert_eq!(p.r, 10);
    assert_eq!(p.g, 20);
    assert_eq!(p.b, 30);
}

#[test]
fn test_binary_pixel_greyscale() {
    let mut p = BinaryPixel { r: 200, g: 150, b: 100 };
    greyscale_binary_pixel(&mut p);
    assert_eq!(p.r, 150);
    assert_eq!(p.g, 150);
    assert_eq!(p.b, 150);

    // Truncating division: (1 + 2 + 3) / 3 = 2, (1 + 1 + 0) / 3 = 0.
    let mut q = BinaryPixel { r: 1, g: 2, b: 3 };
    greyscale_binary_pixel(&mut q);
    assert_eq!((q.r, q.g, q.b), (2, 2, 2));
    let mut q = BinaryPixel { r: 1, g: 1, b: 0 };
    greyscale_binary_pixel(&mut q);
    assert_eq!((q.r, q.g, q.b), (0, 0, 0));
}

#[test]
fn test_tokenizer_plain_tokens() {
    let data = b"P6\n2 1\n255\n".to_vec();
    let (tok, end, pos) = next_token(&data, 0).unwrap();
    assert_eq!(tok, b"P6".to_vec());
    assert_eq!(end, 2);
    assert_eq!(pos, 3);
    let (tok, end, pos) = next_token(&data, pos).unwrap();
    assert_eq!(tok, b"2".to_vec());
    assert_eq!(end, 4);
    assert_eq!(pos, 5);
    let (tok, end, pos) = next_token(&data, pos).unwrap();
    assert_eq!(tok, b"1".to_vec());
    assert_eq!(end, 6);
    assert_eq!(pos, 7);
    let (tok, end, pos) = next_token(&data, pos).unwrap();
    assert_eq!(tok, b"255".to_vec());
    assert_eq!(end, 10);
    assert_eq!(pos, 11);
}

#[test]
fn test_tokenizer_delimiter_runs_and_crlf() {
    let data = b"P6\r\n\t  17   \t9\r\n255 ".to_vec();
    let (tok, _, pos) = next_token(&data, 0).unwrap();
    assert_eq!(tok, b"P6".to_vec());
    let (tok, _, pos) = next_token(&data, pos).unwrap();
    assert_eq!(tok, b"17".to_vec());
    let (tok, _, pos) = next_token(&data, pos).unwrap();
    assert_eq!(tok, b"9".to_vec());
    let (tok, _, _) = next_token(&data, pos).unwrap();
    assert_eq!(tok, b"255".to_vec());
}

#[test]
fn test_tokenizer_skips_comment_lines() {
    let with_comment = b"P6\n# a comment line\n2 1\n255\n".to_vec();
    let without_comment = b"P6\n2 1\n255\n".to_vec();

    let (tok_a, _, pos_a) = next_token(&with_comment, 3).unwrap();
    let (tok_b, _, pos_b) = next_token(&without_comment, 3).unwrap();
    assert_eq!(tok_a, tok_b);
    assert_eq!(tok_a, b"2".to_vec());
    // The cursor lands one comment-line length further in the first file.
    assert_eq!(pos_a, pos_b + b"# a comment line\n".len());
}

#[test]
fn test_tokenizer_comment_without_newline_fails() {
    let data = b"P6\n#never ends".to_vec();
    assert_eq!(next_token(&data, 3), Err(PpmError::UnterminatedComment));
}

#[test]
fn test_tokenizer_no_delimiter_fails() {
    let data = b"P6".to_vec();
    assert_eq!(next_token(&data, 0), Err(PpmError::UnterminatedToken));
}

#[test]
fn test_tokenizer_token_longer_than_window_fails() {
    // No delimiter within the whole 8192-byte lookahead window.
    let data = vec![b'a'; 9000];
    assert_eq!(next_token(&data, 0), Err(PpmError::UnterminatedToken));
}

#[test]
fn test_tokenizer_non_text_token_fails() {
    let data = b"P6\n\xff\xfe 1\n255\n".to_vec();
    assert_eq!(next_token(&data, 3), Err(PpmError::NotText));
}

#[test]
fn test_parse_usize_strict() {
    assert_eq!(parse_usize(&b"0".to_vec()), Some(0));
    assert_eq!(parse_usize(&b"255".to_vec()), Some(255));
    assert_eq!(parse_usize(&b"007".to_vec()), Some(7));
    assert_eq!(parse_usize(&b"".to_vec()), None);
    assert_eq!(parse_usize(&b"12a".to_vec()), None);
    assert_eq!(parse_usize(&b"-3".to_vec()), None);
    assert_eq!(parse_usize(&b"99999999999999999999999999".to_vec()), None);
}

#[test]
fn test_header_parse() {
    let data = sample_file("P6\n640 480\n255\n", &[]);
    let img = new_with_bytes(&data).unwrap();
    assert_eq!(img.magic_number, b"P6".to_vec());
    assert_eq!(img.width, 640);
    assert_eq!(img.height, 480);
    assert_eq!(img.rgb_max_value, 255);
    assert_eq!(img.pixels_offset, b"P6\n640 480\n255\n".len());
}

#[test]
fn test_header_parse_with_comments() {
    let plain = sample_file("P6\n2 3\n255\n", &[1, 2, 3]);
    let commented = sample_file("P6\n# width and height\n2 3\n# depth\n255\n", &[1, 2, 3]);
    let a = new_with_bytes(&plain).unwrap();
    let b = new_with_bytes(&commented).unwrap();
    assert_eq!(a.width, b.width);
    assert_eq!(a.height, b.height);
    assert_eq!(a.rgb_max_value, b.rgb_max_value);
    assert_eq!(b.pixels_offset, plain.len() - 3 + "# width and height\n# depth\n".len());
}

#[test]
fn test_header_round_trip() {
    // Parsing a file and re-emitting its header from the descriptor gives
    // the original values in the canonical three-line layout.
    let data = sample_file("P6\n# made by hand\n12   7\n255\n", &[0; 252]);
    let img = new_with_bytes(&data).unwrap();
    let emitted = emit_header(&img);
    assert_eq!(emitted, b"P6\n12 7\n255\n".to_vec());

    // A canonical header parses back to the same descriptor.
    let again = new_with_bytes(&emitted).unwrap();
    assert_eq!(again.width, 12);
    assert_eq!(again.height, 7);
    assert_eq!(again.rgb_max_value, 255);
    assert_eq!(again.pixels_offset, emitted.len());
}

#[test]
fn test_header_bad_magic() {
    let data = sample_file("P3\n2 1\n255\n", &[0; 6]);
    assert_eq!(new_with_bytes(&data).unwrap_err(), PpmError::BadMagic);
}

#[test]
fn test_header_bad_width() {
    let zero = sample_file("P6\n0 1\n255\n", &[]);
    assert_eq!(new_with_bytes(&zero).unwrap_err(), PpmError::BadWidth);
    let word = sample_file("P6\nwide 1\n255\n", &[]);
    assert_eq!(new_with_bytes(&word).unwrap_err(), PpmError::BadWidth);
}

#[test]
fn test_header_bad_height() {
    let data = sample_file("P6\n2 -1\n255\n", &[]);
    assert_eq!(new_with_bytes(&data).unwrap_err(), PpmError::BadHeight);
}

#[test]
fn test_header_bad_max_value() {
    let small = sample_file("P6\n2 1\n254\n", &[0; 6]);
    assert_eq!(new_with_bytes(&small).unwrap_err(), PpmError::BadMaxValue);
    let large = sample_file("P6\n2 1\n65535\n", &[0; 6]);
    assert_eq!(new_with_bytes(&large).unwrap_err(), PpmError::BadMaxValue);
}

#[test]
fn test_error_kinds() {
    assert_eq!(PpmError::BadMagic.kind(), ErrorKind::Format);
    assert_eq!(PpmError::BadWidth.kind(), ErrorKind::Format);
    assert_eq!(PpmError::BadHeight.kind(), ErrorKind::Format);
    assert_eq!(PpmError::BadMaxValue.kind(), ErrorKind::Format);
    assert_eq!(PpmError::UnterminatedToken.kind(), ErrorKind::Parse);
    assert_eq!(PpmError::UnterminatedComment.kind(), ErrorKind::Parse);
    assert_eq!(PpmError::NotText.kind(), ErrorKind::Decode);
    assert_eq!(PpmError::Truncated.kind(), ErrorKind::Io);
    assert_eq!(PpmError::BadMaxValue.describe(), "unsupported channel depth: expected 255");
}

#[test]
fn test_end_to_end_invert() {
    let data = sample_file("P6\n2 1\n255\n", &[10, 20, 30, 200, 150, 100]);
    let out = process_image(&data, ImageProcess::Invert).unwrap();
    let mut expected = b"P6\n2 1\n255\n".to_vec();
    expected.extend_from_slice(&[245, 235, 225, 55, 105, 155]);
    assert_eq!(out, expected);
}

#[test]
fn test_end_to_end_greyscale() {
    let data = sample_file("P6\n2 1\n255\n", &[10, 20, 30, 200, 150, 100]);
    let out = process_image(&data, ImageProcess::Greyscale).unwrap();
    let mut expected = b"P6\n2 1\n255\n".to_vec();
    expected.extend_from_slice(&[20, 20, 20, 150, 150, 150]);
    assert_eq!(out, expected);
}

#[test]
fn test_truncated_pixels_fail_with_io_error() {
    // The header declares 2x2 pixels (12 bytes) but only 7 bytes follow.
    let data = sample_file("P6\n2 2\n255\n", &[1, 2, 3, 4, 5, 6, 7]);
    let err = process_image(&data, ImageProcess::Invert).unwrap_err();
    assert_eq!(err, PpmError::Truncated);
    assert_eq!(err.kind(), ErrorKind::Io);
}

#[test]
fn test_pipeline_output_independent_of_chunking() {
    let mut pixels: Vec<u8> = Vec::new();
    for i in 0..60u32 {
        pixels.push((i * 7 % 256) as u8);
    }
    let data = sample_file("P6\n5 4\n255\n", &pixels);
    let reference = run_pipeline(&data, ImageProcess::Greyscale, 3 * 1024 * 1024, 1).unwrap();
    for cap in [3usize, 6, 9, 30, 60, 63] {
        for limit in [1usize, 2, 3, 8, 64] {
            let out = run_pipeline(&data, ImageProcess::Greyscale, cap, limit).unwrap();
            assert_eq!(out, reference);
        }
    }
}

#[test]
fn test_pipeline_chunk_sizes_stay_pixel_aligned() {
    // A capacity that is a multiple of 3 partitions any multiple-of-3
    // total into multiples of 3 that sum back to the total.
    let total: usize = 99;
    let cap: usize = 12;
    let mut remaining = total;
    let mut sum = 0;
    while remaining > 0 {
        let size = if remaining >= cap { cap } else { remaining };
        assert_eq!(size % 3, 0);
        assert!(size >= 1 && size <= cap);
        sum += size;
        remaining -= size;
    }
    assert_eq!(sum, total);
}

#[test]
fn test_multi_chunk_invert_values() {
    // Four pixels processed one pixel per chunk: every byte still comes
    // out inverted, in order.
    let pixels: Vec<u8> = (0u8..12).collect();
    let data = sample_file("P6\n4 1\n255\n", &pixels);
    let out = run_pipeline(&data, ImageProcess::Invert, 3, 2).unwrap();
    let header_len = b"P6\n4 1\n255\n".len();
    assert_eq!(&out[..header_len], b"P6\n4 1\n255\n");
    for i in 0..12u8 {
        assert_eq!(out[header_len + i as usize], 255 - i);
    }
}

#[test]
fn test_worker_ranges_partition() {
    let ranges = worker_ranges(10, 4);
    assert_eq!(ranges, vec![(0usize, 2usize), (2, 4), (4, 6), (6, 10)]);
    let ranges = worker_ranges(2, 8);
    assert_eq!(ranges, vec![(0usize, 1usize), (1, 2)]);
    let ranges = worker_ranges(9, 3);
    assert_eq!(ranges, vec![(0usize, 3usize), (3, 6), (6, 9)]);
}

#[test]
fn test_transform_chunk_matches_per_pixel() {
    let mut buf = vec![10, 20, 30, 200, 150, 100, 9, 9, 9];
    transform_chunk(&mut buf, 2, ImageProcess::Invert);
    assert_eq!(buf, vec![245, 235, 225, 55, 105, 155, 246, 246, 246]);
}

#[test]
fn test_image_render() {
    let image = Image {
        pixels: vec![Pixel { red: 1, blue: 22, green: 255 }, Pixel { red: 0, blue: 0, green: 0 }],
        heigth: 1,
        width: 2,
        rgb_type: b"P3".to_vec(),
        max_val: 255,
    };
    let out = image.render();
    assert_eq!(out, b"P3\n1 2\n255\n1 22 255\n0 0 0\n".to_vec());
}

#[test]
fn test_pixel_accessors() {
    let p = Pixel::new(3, 5, 7);
    assert_eq!(p.red(), 3);
    assert_eq!(p.green(), 5);
    assert_eq!(p.blue(), 7);
    assert!(p.eq(Pixel { red: 3, blue: 7, green: 5 }));
    assert!(!p.eq(Pixel { red: 4, blue: 7, green: 5 }));
}

#[test]
fn test_binary_image_emit() {
    let img = BinaryImage {
        magic_number: b"P6".to_vec(),
        pixels_offset: 0,
        height: 1080,
        width: 1920,
        rgb_max_value: 255,
    };
    assert_eq!(emit_header(&img), b"P6\n1920 1080\n255\n".to_vec());
}
