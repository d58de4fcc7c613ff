use lunar_png::{
    compute_crc, encode_png, encode_png_with_time, paeth_exec, read_png, to_u16, CompressionLevel,
    Error, Image, ImageType, PngEncodingOptions, PngTime,
};
use std::io::Write;

fn chunk(tag: &[u8; 4], payload: &[u8]) -> Vec<u8> {
    let mut out = Vec::new();
    out.extend_from_slice(&(payload.len() as u32).to_be_bytes());
    let mut body = tag.to_vec();
    body.extend_from_slice(payload);
    out.extend_from_slice(&body);
    out.extend_from_slice(&compute_crc(&body).to_be_bytes());
    out
}

fn zlib(data: &[u8]) -> Vec<u8> {
    let mut enc = flate2::write::ZlibEncoder::new(Vec::new(), flate2::Compression::fast());
    enc.write_all(data).unwrap();
    enc.finish().unwrap()
}

fn png(width: u32, height: u32, depth: u8, color: u8, extra: &[Vec<u8>], scanlines: &[u8]) -> Vec<u8> {
    let mut out = vec![0x89, 0x50, 0x4E, 0x47, 0x0D, 0x0A, 0x1A, 0x0A];
    let mut ihdr = Vec::new();
    ihdr.extend_from_slice(&width.to_be_bytes());
    ihdr.extend_from_slice(&height.to_be_bytes());
    ihdr.extend_from_slice(&[depth, color, 0, 0, 0]);
    out.extend(chunk(b"IHDR", &ihdr));
    for c in extra {
        out.extend_from_slice(c);
    }
    out.extend(chunk(b"IDAT", &zlib(scanlines)));
    out.extend(chunk(b"IEND", &[]));
    out
}

fn options(compression: CompressionLevel, write_timestamp: bool) -> PngEncodingOptions {
    PngEncodingOptions { compression, write_timestamp }
}

fn gray_8x8() -> Image {
    Image { width: 8, height: 8, img_type: ImageType::R8, data: (0..64).map(|_| 255).collect() }
}

fn all_formats() -> Vec<(ImageType, usize)> {
    vec![
        (ImageType::R8, 1),
        (ImageType::R16, 2),
        (ImageType::Ra8, 2),
        (ImageType::Ra16, 4),
        (ImageType::Rgb8, 3),
        (ImageType::Rgb16, 6),
        (ImageType::Rgba8, 4),
        (ImageType::Rgba16, 8),
    ]
}

#[test]
fn test_u8_to_u16() {
    let a = 0x00;
    let b = 0x00;
    let expected = 0x0000;
    assert_eq!(to_u16(a, b), expected);

    let a = 0x01;
    let b = 0x10;
    let expected = 0x1001;
    assert_eq!(to_u16(a, b), expected);
}

#[test]
fn encoding() {
    let img = gray_8x8();
    let png = encode_png(&img, &options(CompressionLevel::Uncompressed, true));
    let img1 = read_png(&png).unwrap();
    assert_eq!(img, img1);
}

#[test]
fn encoding_compressed() {
    let img = gray_8x8();
    let png = encode_png(&img, &options(CompressionLevel::Fast, true));
    let img1 = read_png(&png).unwrap();
    assert_eq!(img, img1);
}

#[test]
fn signature_is_checked() {
    let data = vec![0u8; 16];
    assert_eq!(read_png(&data), Err(Error::InvalidSignature));
    assert_eq!(read_png(&[0x89, 0x50]), Err(Error::InvalidSignature));
}

#[test]
fn minimal_gray_round_trip_and_prefix() {
    let img = gray_8x8();
    let png = encode_png(&img, &options(CompressionLevel::Uncompressed, false));
    let prefix = [
        0x89, 0x50, 0x4E, 0x47, 0x0D, 0x0A, 0x1A, 0x0A, 0x00, 0x00, 0x00, 0x0D, 0x49, 0x48, 0x44,
        0x52, 0x00, 0x00, 0x00, 0x08, 0x00, 0x00, 0x00, 0x08, 0x08, 0x00, 0x00, 0x00, 0x00,
    ];
    assert_eq!(&png[..prefix.len()], &prefix[..]);
    assert_eq!(read_png(&png).unwrap(), img);
}

#[test]
fn crc_of_iend() {
    assert_eq!(compute_crc(b"IEND").to_be_bytes(), [0xAE, 0x42, 0x60, 0x82]);
}

#[test]
fn crc_of_empty_is_zero() {
    assert_eq!(compute_crc(&[]), 0);
}

#[test]
fn crc_matches_reference_values() {
    assert_eq!(compute_crc(b"123456789"), 0xCBF4_3926);
    assert_eq!(compute_crc(b"IHDR"), 0xA8A1_AE0A);
}

#[test]
fn paeth_predictor_values() {
    assert_eq!(paeth_exec(0, 0, 0), 0);
    assert_eq!(paeth_exec(10, 20, 5), 20);
    assert_eq!(paeth_exec(20, 10, 5), 20);
    assert_eq!(paeth_exec(5, 5, 5), 5);
}

#[test]
fn paeth_rgb_round_trip() {
    let img = Image {
        width: 2,
        height: 2,
        img_type: ImageType::Rgb8,
        data: vec![0, 0, 0, 10, 20, 30, 40, 50, 60, 70, 80, 90],
    };
    let png = encode_png(&img, &options(CompressionLevel::Fast, false));
    assert_eq!(read_png(&png).unwrap(), img);
}

#[test]
fn indexed_with_trns() {
    let plte = chunk(b"PLTE", &[255, 0, 0, 0, 255, 0]);
    let trns = chunk(b"tRNS", &[128]);
    let data = png(2, 1, 8, 3, &[plte, trns], &[0, 0, 1]);
    let img = read_png(&data).unwrap();
    assert_eq!(img.img_type, ImageType::Rgba8);
    assert_eq!(img.data, vec![0xFF, 0x00, 0x00, 0x80, 0x00, 0xFF, 0x00, 0xFF]);
}

#[test]
fn indexed_without_trns() {
    let plte = chunk(b"PLTE", &[255, 0, 0, 0, 255, 0]);
    let data = png(2, 1, 8, 3, &[plte], &[0, 1, 0]);
    let img = read_png(&data).unwrap();
    assert_eq!(img.img_type, ImageType::Rgb8);
    assert_eq!(img.data, vec![0, 255, 0, 255, 0, 0]);
}

#[test]
fn indexed_one_bit_reads_inverted_indices() {
    let plte = chunk(b"PLTE", &[1, 2, 3, 4, 5, 6]);
    let data = png(3, 1, 1, 3, &[plte], &[0, 0b1000_0000]);
    let img = read_png(&data).unwrap();
    assert_eq!(img.img_type, ImageType::Rgb8);
    assert_eq!(img.data, vec![1, 2, 3, 4, 5, 6, 4, 5, 6]);
}

#[test]
fn indexed_index_past_palette_is_refused() {
    let plte = chunk(b"PLTE", &[255, 0, 0]);
    let data = png(2, 1, 8, 3, &[plte], &[0, 0, 1]);
    assert!(matches!(read_png(&data), Err(Error::InvalidPngData(_))));
}

#[test]
fn trns_on_gray16() {
    let trns = chunk(b"tRNS", &[0x12, 0x34]);
    let data = png(1, 1, 16, 0, &[trns], &[0, 0x12, 0x34]);
    let img = read_png(&data).unwrap();
    assert_eq!(img.img_type, ImageType::Ra16);
    assert_eq!(img.data, vec![0x34, 0x12, 0x00, 0x00]);
}

#[test]
fn trns_on_gray16_other_value_is_opaque() {
    let trns = chunk(b"tRNS", &[0x12, 0x34]);
    let data = png(1, 1, 16, 0, &[trns], &[0, 0x34, 0x12]);
    let img = read_png(&data).unwrap();
    assert_eq!(img.data, vec![0x12, 0x34, 0xFF, 0xFF]);
}

#[test]
fn one_bit_gray_with_trns() {
    let trns = chunk(b"tRNS", &[0, 0]);
    let data = png(2, 1, 1, 0, &[trns], &[0, 0b1000_0000]);
    let img = read_png(&data).unwrap();
    assert_eq!(img.img_type, ImageType::Ra8);
    assert_eq!(img.data, vec![255, 255, 0, 0]);
    assert_eq!(img.data.len(), 2 * 1 * 2);
}

#[test]
fn two_bit_gray_is_scaled() {
    let data = png(3, 1, 2, 0, &[], &[0, 0b0001_1011]);
    let img = read_png(&data).unwrap();
    assert_eq!(img.img_type, ImageType::R8);
    assert_eq!(img.data, vec![0, 85, 170]);
}

#[test]
fn truecolor_with_trns() {
    let trns = chunk(b"tRNS", &[0, 1, 0, 2, 0, 3]);
    let data = png(2, 1, 8, 2, &[trns], &[0, 1, 2, 3, 1, 2, 4]);
    let img = read_png(&data).unwrap();
    assert_eq!(img.img_type, ImageType::Rgba8);
    assert_eq!(img.data, vec![1, 2, 3, 0, 1, 2, 4, 255]);
}

#[test]
fn all_filters_are_reconstructed() {
    // two rows of a 2-pixel gray image: Sub then Average, then Up and Paeth
    let rows = [1u8, 10, 5, 3, 4, 6];
    let data = png(2, 2, 8, 0, &[], &rows);
    let img = read_png(&data).unwrap();
    assert_eq!(img.data, vec![10, 15, 9, 18]);
    let data = png(2, 2, 8, 0, &[], &[2, 10, 5, 4, 1, 1]);
    let img = read_png(&data).unwrap();
    assert_eq!(img.data, vec![10, 5, 11, 6]);
}

#[test]
fn bad_filter_type_is_refused() {
    let data = png(1, 1, 8, 0, &[], &[5, 0]);
    assert!(matches!(read_png(&data), Err(Error::InvalidPngData(_))));
}

#[test]
fn unknown_chunk_type_is_refused() {
    let extra = chunk(b"abcd", &[1, 2]);
    let data = png(1, 1, 8, 0, &[extra], &[0, 0]);
    assert_eq!(read_png(&data), Err(Error::InvalidChunkType));
}

#[test]
fn known_ancillary_chunk_is_skipped() {
    let extra = chunk(b"gAMA", &[0, 0, 0xB1, 0x8F]);
    let data = png(1, 1, 8, 0, &[extra], &[0, 7]);
    assert_eq!(read_png(&data).unwrap().data, vec![7]);
}

#[test]
fn chunk_between_idats_is_refused() {
    let mut data = vec![0x89, 0x50, 0x4E, 0x47, 0x0D, 0x0A, 0x1A, 0x0A];
    data.extend(chunk(b"IHDR", &[0, 0, 0, 1, 0, 0, 0, 1, 8, 0, 0, 0, 0]));
    let z = zlib(&[0, 7]);
    data.extend(chunk(b"IDAT", &z[..2]));
    data.extend(chunk(b"gAMA", &[0, 0, 0xB1, 0x8F]));
    data.extend(chunk(b"IDAT", &z[2..]));
    data.extend(chunk(b"IEND", &[]));
    assert!(matches!(read_png(&data), Err(Error::InvalidPngData(_))));
}

#[test]
fn split_idat_is_joined() {
    let mut data = vec![0x89, 0x50, 0x4E, 0x47, 0x0D, 0x0A, 0x1A, 0x0A];
    data.extend(chunk(b"IHDR", &[0, 0, 0, 1, 0, 0, 0, 1, 8, 0, 0, 0, 0]));
    let z = zlib(&[0, 7]);
    data.extend(chunk(b"IDAT", &z[..2]));
    data.extend(chunk(b"IDAT", &z[2..]));
    data.extend(chunk(b"IEND", &[]));
    assert_eq!(read_png(&data).unwrap().data, vec![7]);
}

#[test]
fn header_must_come_first() {
    let mut data = vec![0x89, 0x50, 0x4E, 0x47, 0x0D, 0x0A, 0x1A, 0x0A];
    data.extend(chunk(b"IEND", &[]));
    assert!(matches!(read_png(&data), Err(Error::InvalidPngData(_))));
}

#[test]
fn interlaced_and_bad_depth_are_refused() {
    let mut data = vec![0x89, 0x50, 0x4E, 0x47, 0x0D, 0x0A, 0x1A, 0x0A];
    data.extend(chunk(b"IHDR", &[0, 0, 0, 1, 0, 0, 0, 1, 8, 0, 0, 0, 1]));
    data.extend(chunk(b"IEND", &[]));
    assert!(matches!(read_png(&data), Err(Error::InvalidPngData(_))));
    let data = png(1, 1, 4, 2, &[], &[0, 0, 0, 0]);
    assert!(matches!(read_png(&data), Err(Error::InvalidPngData(_))));
}

#[test]
fn trns_under_alpha_color_type_is_refused() {
    let trns = chunk(b"tRNS", &[0, 0]);
    let data = png(1, 1, 8, 4, &[trns], &[0, 1, 2]);
    assert!(matches!(read_png(&data), Err(Error::InvalidPngData(_))));
}

#[test]
fn truncated_and_short_data_are_refused() {
    let data = png(1, 1, 8, 0, &[], &[0, 7]);
    let cut = &data[..data.len() - 6];
    assert!(matches!(read_png(cut), Err(Error::InvalidPngData(_))));
    let data = png(2, 2, 8, 0, &[], &[0, 7]);
    assert!(matches!(read_png(&data), Err(Error::InvalidPngData(_))));
    let mut data = vec![0x89, 0x50, 0x4E, 0x47, 0x0D, 0x0A, 0x1A, 0x0A];
    data.extend(chunk(b"IHDR", &[0, 0, 0, 1, 0, 0, 0, 1, 8, 0, 0, 0, 0]));
    data.extend(chunk(b"IDAT", &[1, 2, 3]));
    data.extend(chunk(b"IEND", &[]));
    assert!(matches!(read_png(&data), Err(Error::InvalidPngData(_))));
}

#[test]
fn corrupted_crc_is_refused() {
    let img = Image { width: 3, height: 2, img_type: ImageType::Rgb8, data: (0..18).collect() };
    let png = encode_png(&img, &options(CompressionLevel::Fast, true));
    // walk the chunks and flip one byte of each CRC in turn
    let mut pos = 8;
    let mut seen = 0;
    while pos < png.len() {
        let len = u32::from_be_bytes([png[pos], png[pos + 1], png[pos + 2], png[pos + 3]]) as usize;
        let crc_at = pos + 8 + len;
        for k in 0..4 {
            let mut bad = png.clone();
            bad[crc_at + k] ^= 0x01;
            assert_eq!(read_png(&bad), Err(Error::InvalidCrc));
        }
        seen += 1;
        pos = crc_at + 4;
    }
    assert_eq!(seen, 4);
}

#[test]
fn one_pixel_images_of_every_format_round_trip() {
    for (t, bpp) in all_formats() {
        let data: Vec<u8> = (0..bpp as u8).map(|i| 0x31 + 17 * i).collect();
        let img = Image { width: 1, height: 1, img_type: t, data };
        for c in [CompressionLevel::Uncompressed, CompressionLevel::Fast, CompressionLevel::Best] {
            let png = encode_png(&img, &options(c, false));
            assert_eq!(read_png(&png).unwrap(), img);
        }
    }
}

#[test]
fn every_format_round_trips() {
    for (t, bpp) in all_formats() {
        let (w, h) = (5u32, 3u32);
        let n = w as usize * h as usize * bpp;
        let data: Vec<u8> = (0..n).map(|i| (i * 37 % 251) as u8).collect();
        let img = Image { width: w, height: h, img_type: t, data };
        for c in [CompressionLevel::Uncompressed, CompressionLevel::Fast, CompressionLevel::Best] {
            let png = encode_png(&img, &options(c, true));
            let back = read_png(&png).unwrap();
            assert_eq!(back, img);
            assert_eq!(back.data.len(), w as usize * h as usize * bpp);
        }
    }
}

#[test]
fn compression_level_does_not_change_pixels() {
    let img = Image { width: 4, height: 3, img_type: ImageType::Ra16, data: (0..48).map(|i| (i * 7) as u8).collect() };
    let fast = read_png(&encode_png(&img, &options(CompressionLevel::Fast, false))).unwrap();
    let none = read_png(&encode_png(&img, &options(CompressionLevel::Uncompressed, false))).unwrap();
    assert_eq!(fast, none);
}

#[test]
fn time_chunk_carries_the_day() {
    let img = gray_8x8();
    let t = PngTime { year: 2024, month: 3, day: 17, hour: 12, minute: 34, second: 56 };
    let png = encode_png_with_time(&img, &options(CompressionLevel::Fast, true), Some(t));
    let at = 8 + 25;
    assert_eq!(&png[at..at + 8], &[0, 0, 0, 7, b't', b'I', b'M', b'E']);
    assert_eq!(&png[at + 8..at + 15], &[0x07, 0xE8, 3, 17, 12, 34, 56]);
    assert_eq!(read_png(&png).unwrap(), img);
}

#[test]
fn compressed_output_differs_from_stored() {
    let img = Image { width: 64, height: 64, img_type: ImageType::R8, data: vec![9; 4096] };
    let stored = encode_png(&img, &options(CompressionLevel::Uncompressed, false));
    let best = encode_png(&img, &options(CompressionLevel::Best, false));
    assert!(best.len() < stored.len());
    assert!(stored.len() > 4096);
}

#[test]
fn add_alpha_is_idempotent() {
    for (t, bpp) in all_formats() {
        let data: Vec<u8> = (0..2 * bpp as u8).collect();
        let mut img = Image { width: 2, height: 1, img_type: t, data };
        img.add_alpha();
        let once = Image { width: img.width, height: img.height, img_type: img.img_type, data: img.data.clone() };
        img.add_alpha();
        assert_eq!(img, once);
    }
}

#[test]
fn add_alpha_values() {
    let mut img = Image { width: 2, height: 1, img_type: ImageType::R16, data: vec![1, 2, 3, 4] };
    img.add_alpha();
    assert_eq!(img.img_type, ImageType::Ra16);
    assert_eq!(img.data, vec![1, 2, 255, 255, 3, 4, 255, 255]);
    let mut img = Image { width: 1, height: 1, img_type: ImageType::Rgb8, data: vec![1, 2, 3] };
    img.add_alpha();
    assert_eq!(img.img_type, ImageType::Rgba8);
    assert_eq!(img.data, vec![1, 2, 3, 255]);
}

#[test]
fn add_channels_values() {
    let mut img = Image { width: 2, height: 1, img_type: ImageType::Ra8, data: vec![1, 2, 3, 4] };
    img.add_channels();
    assert_eq!(img.img_type, ImageType::Rgba8);
    assert_eq!(img.data, vec![1, 1, 1, 2, 3, 3, 3, 4]);
    let mut img = Image { width: 1, height: 1, img_type: ImageType::R16, data: vec![5, 6] };
    img.add_channels();
    assert_eq!(img.img_type, ImageType::Rgb16);
    assert_eq!(img.data, vec![5, 6, 5, 6, 5, 6]);
    let mut img = Image { width: 1, height: 1, img_type: ImageType::Rgb8, data: vec![5, 6, 7] };
    img.add_channels();
    assert_eq!(img.data, vec![5, 6, 7]);
}
