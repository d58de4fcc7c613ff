use lunar_png::{
    compute_crc, compute_crc_table, get_chunk_type, parse_chunk, read_n, read_n_const,
    to_color_type, validate_bit_depth, ChunkType, ColorType, Error, Filtered, Pallete, TrnsPallete,
};

fn frame(tag: &[u8; 4], payload: &[u8]) -> Vec<u8> {
    let mut out = (payload.len() as u32).to_be_bytes().to_vec();
    let mut body = tag.to_vec();
    body.extend_from_slice(payload);
    out.extend_from_slice(&body);
    out.extend_from_slice(&compute_crc(&body).to_be_bytes());
    out
}

#[test]
fn chunk_types_from_tags() {
    assert_eq!(get_chunk_type(*b"IHDR"), Ok(ChunkType::IHDR));
    assert_eq!(get_chunk_type(*b"tRNS"), Ok(ChunkType::tRNS));
    assert_eq!(get_chunk_type(*b"fdAT"), Ok(ChunkType::fdAT));
    assert_eq!(get_chunk_type(*b"ihdr"), Err(Error::InvalidChunkType));
    assert_eq!(get_chunk_type([0xff, 0, 1, 2]), Err(Error::InvalidChunkType));
}

#[test]
fn reading_fixed_and_counted_bytes() {
    let data = [1u8, 2, 3, 4, 5, 6];
    let mut pos = 1;
    assert_eq!(read_n_const::<4>(&data, &mut pos), Some([2, 3, 4, 5]));
    assert_eq!(pos, 5);
    assert_eq!(read_n_const::<4>(&data, &mut pos), None);
    assert_eq!(pos, 5);
    let mut pos = 0;
    assert_eq!(read_n(&data, &mut pos, 3), Some(vec![1, 2, 3]));
    assert_eq!(pos, 3);
    assert_eq!(read_n(&data, &mut pos, 4), None);
    assert_eq!(pos, 3);
}

#[test]
fn parsing_a_chunk() {
    let mut data = frame(b"PLTE", &[1, 2, 3]);
    data.extend(frame(b"IEND", &[]));
    let mut pos = 0;
    let c = parse_chunk(&data, &mut pos).unwrap();
    assert_eq!(c.chunk_type, ChunkType::PLTE);
    assert_eq!(c.data, vec![1, 2, 3]);
    assert_eq!(pos, 15);
    let c = parse_chunk(&data, &mut pos).unwrap();
    assert_eq!(c.chunk_type, ChunkType::IEND);
    assert!(c.data.is_empty());
    assert_eq!(pos, data.len());
    assert!(matches!(parse_chunk(&data, &mut pos), Err(Error::InvalidPngData(_))));
    let mut bad = frame(b"PLTE", &[1, 2, 3]);
    bad[9] ^= 0xff;
    let mut pos = 0;
    assert!(matches!(parse_chunk(&bad, &mut pos), Err(Error::InvalidCrc)));
}

#[test]
fn crc_table_entries() {
    let t = compute_crc_table();
    assert_eq!(t[0], 0);
    assert_eq!(t[1], 0x7707_3096);
    assert_eq!(t[255], 0x2D02_EF8D);
}

#[test]
fn color_types_and_depths() {
    assert_eq!(to_color_type(0), ColorType::Greyscale);
    assert_eq!(to_color_type(3), ColorType::IndexedColor);
    assert_eq!(to_color_type(6), ColorType::TruecolorAlpha);
    assert!(validate_bit_depth(ColorType::Greyscale, 1));
    assert!(validate_bit_depth(ColorType::Greyscale, 16));
    assert!(!validate_bit_depth(ColorType::IndexedColor, 16));
    assert!(!validate_bit_depth(ColorType::Truecolor, 4));
    assert!(validate_bit_depth(ColorType::TruecolorAlpha, 8));
}

#[test]
fn palettes() {
    let p = Pallete::new(vec![1, 2, 3, 4, 5, 6]);
    assert_eq!(p.get(1), &[4, 5, 6]);
    assert!(p.contains(1));
    assert!(!p.contains(2));
    assert!(!Pallete::empty().contains(0));
    let t = TrnsPallete::new(vec![10, 20]);
    assert_eq!(t.get(1), 20);
    assert_eq!(t.get(2), 255);
    let full = TrnsPallete::new((0..=255).collect());
    assert_eq!(full.get(255), 255);
    assert_eq!(full.get(7), 7);
}

#[test]
fn neighbours_in_scanlines() {
    // two scanlines of 3 gray bytes, each with a leading filter byte
    let mut f = Filtered {
        data: vec![0, 10, 20, 30, 0, 40, 50, 60],
        color_type: ColorType::Greyscale,
        scanline_len: 4,
        bit_depth: 8,
        ignore_0: true,
    };
    assert_eq!(f.get_a(1), 0);
    assert_eq!(f.get_a(2), 10);
    assert_eq!(f.get_b(6), 20);
    assert_eq!(f.get_b(2), 0);
    assert_eq!(f.get_c(6), 10);
    assert_eq!(f.get_c(5), 0);
    assert_eq!(f.paeth(6), 40);
    f.set(5, 99);
    assert_eq!(f.get_a(6), 99);
    let g = Filtered {
        data: vec![1, 2, 3, 4, 5, 6, 7, 8, 9, 10, 11, 12],
        color_type: ColorType::Truecolor,
        scanline_len: 6,
        bit_depth: 8,
        ignore_0: false,
    };
    assert_eq!(g.get_a(3), 1);
    assert_eq!(g.get_a(2), 0);
    assert_eq!(g.get_c(10), 2);
}

#[test]
fn neighbours_past_the_end_read_zero() {
    let f = Filtered {
        data: vec![7, 8, 9],
        color_type: ColorType::Greyscale,
        scanline_len: 2,
        bit_depth: 8,
        ignore_0: false,
    };
    assert_eq!(f.get_a(5), 0);
    assert_eq!(f.get_a(3), 9);
    assert_eq!(f.get_b(6), 0);
    assert_eq!(f.get_b(4), 9);
    assert_eq!(f.get_c(7), 0);
    assert_eq!(f.paeth(9), 0);
}
