use tinkerfield::materials::{
    bytes_eq, bytes_le, find_bytes, load_texture, texture_from_frame, name_before, next_material, prepare_texture,
    prev_material, sort_names, specular_permille, starts_with_bytes, MaterialRegistry,
    TextureError, LAYER_SIZE,
};
use tinkerfield::texture::{tile_texture, to_rgba, PixelFormat};

fn names(list: &[&str]) -> Vec<Vec<u8>> {
    list.iter().map(|s| s.as_bytes().to_vec()).collect()
}

fn encode_png(width: u32, height: u32, color: png::ColorType, data: &[u8]) -> Vec<u8> {
    let mut out = Vec::new();
    {
        let mut enc = png::Encoder::new(&mut out, width, height);
        enc.set_color(color);
        enc.set_depth(png::BitDepth::Eight);
        let mut writer = enc.write_header().unwrap();
        writer.write_image_data(data).unwrap();
    }
    out
}

#[test]
fn tile_2x1_into_4x2() {
    // Two RGBA pixels: red, green.
    let src = vec![255, 0, 0, 255, 0, 255, 0, 255];
    let out = tile_texture(&src, 2, 1, 4, 2);
    let row = vec![255, 0, 0, 255, 0, 255, 0, 255, 255, 0, 0, 255, 0, 255, 0, 255];
    let mut expected = row.clone();
    expected.extend_from_slice(&row);
    assert_eq!(out, expected);
}

#[test]
fn tile_same_size_is_a_copy() {
    let src: Vec<u8> = (0..16).collect();
    assert_eq!(tile_texture(&src, 2, 2, 2, 2), src);
}

#[test]
fn tile_rows_repeat_vertically() {
    // 1x2 source: a black and a white pixel stacked; tiled to 2x4.
    let src = vec![0, 0, 0, 255, 255, 255, 255, 255];
    let out = tile_texture(&src, 1, 2, 2, 4);
    assert_eq!(out.len(), 2 * 4 * 4);
    for y in 0..4 {
        let v = if y % 2 == 0 { 0 } else { 255 };
        for x in 0..2 {
            let p = &out[(y * 2 + x) * 4..(y * 2 + x) * 4 + 4];
            assert_eq!(p, &[v, v, v, 255]);
        }
    }
}

#[test]
fn rgb_gets_opaque_alpha() {
    let rgb = vec![1, 2, 3, 4, 5, 6];
    assert_eq!(to_rgba(rgb, 2, 1, PixelFormat::Rgb), Some(vec![1, 2, 3, 255, 4, 5, 6, 255]));
    assert_eq!(to_rgba(vec![9, 9, 9, 9], 1, 1, PixelFormat::Rgba), Some(vec![9, 9, 9, 9]));
    assert_eq!(to_rgba(vec![7], 1, 1, PixelFormat::Other), None);
}

#[test]
fn prepare_refuses_bad_textures() {
    assert_eq!(prepare_texture(vec![0; 4], 1, 1, PixelFormat::Other), Err(TextureError::UnsupportedFormat));
    assert_eq!(prepare_texture(vec![0; 12], 3, 1, PixelFormat::Rgba), Err(TextureError::NotADivisor));
    assert_eq!(prepare_texture(vec![], 0, 1, PixelFormat::Rgba), Err(TextureError::NotADivisor));
}

#[test]
fn prepare_tiles_to_a_layer() {
    let layer = prepare_texture(vec![10, 20, 30], 1, 1, PixelFormat::Rgb).unwrap();
    assert_eq!(layer.len(), (LAYER_SIZE * LAYER_SIZE * 4) as usize);
    assert!(layer.chunks(4).all(|p| p == [10, 20, 30, 255]));
}

#[test]
fn load_texture_decodes_png() {
    // 2x2 RGB checkerboard.
    let data = vec![255, 255, 255, 0, 0, 0, 0, 0, 0, 255, 255, 255];
    let bytes = encode_png(2, 2, png::ColorType::Rgb, &data);
    let layer = load_texture(&bytes).unwrap();
    assert_eq!(layer.len(), (LAYER_SIZE * LAYER_SIZE * 4) as usize);
    let at = |x: usize, y: usize| layer[(y * LAYER_SIZE as usize + x) * 4];
    assert_eq!(at(0, 0), 255);
    assert_eq!(at(1, 0), 0);
    assert_eq!(at(0, 1), 0);
    assert_eq!(at(1, 1), 255);
    assert_eq!(at(1022, 1022), 255);
    assert_eq!(at(1023, 1022), 0);
    assert_eq!(layer[3], 255);
}

#[test]
fn load_texture_errors() {
    assert_eq!(load_texture(b"not a png"), Err(TextureError::Undecodable));
    let gray = encode_png(2, 2, png::ColorType::Grayscale, &[0, 1, 2, 3]);
    assert_eq!(load_texture(&gray), Err(TextureError::UnsupportedFormat));
    let odd = encode_png(3, 1, png::ColorType::Rgba, &[0; 12]);
    assert_eq!(load_texture(&odd), Err(TextureError::NotADivisor));
}

#[test]
fn registry_from_pngs() {
    let red = encode_png(1, 1, png::ColorType::Rgb, &[255, 0, 0]);
    let blue = encode_png(1, 1, png::ColorType::Rgba, &[0, 0, 255, 128]);
    let reg = MaterialRegistry::from_pngs(names(&["concrete_01", "metal_02"]), &vec![red.clone(), blue]).ok().unwrap();
    assert_eq!(reg.get_num_materials(), 2);
    assert_eq!(reg.num_materials(), 2);
    assert_eq!(reg.specular_permilles, vec![100, 500]);
    assert!(reg.texture_datas[0].chunks(4).all(|p| p == [255, 0, 0, 255]));
    assert!(reg.texture_datas[1].chunks(4).all(|p| p == [0, 0, 255, 128]));
    assert_eq!(reg.id_from_name(b"metal_02"), 1);
    assert_eq!(reg.material_name(0), &b"concrete_01".to_vec());

    let bad = MaterialRegistry::from_pngs(names(&["a", "b"]), &vec![red, b"junk".to_vec()]);
    assert!(matches!(bad, Err((1, TextureError::Undecodable))));
}

#[test]
fn concrete_sorts_first() {
    let sorted = sort_names(names(&["wood_01", "concrete_02", "brick_01", "concrete_01", "metal_01"]));
    assert_eq!(sorted, names(&["concrete_01", "concrete_02", "brick_01", "metal_01", "wood_01"]));
}

#[test]
fn name_order() {
    assert!(name_before(b"concrete_09", b"aaa"));
    assert!(!name_before(b"aaa", b"concrete_01"));
    assert!(name_before(b"abc", b"abd"));
    assert!(name_before(b"ab", b"abc"));
    assert!(name_before(b"same", b"same"));
    assert!(!name_before(b"b", b"a"));
}

#[test]
fn specular_by_name() {
    assert_eq!(specular_permille(b"metal_01"), 500);
    assert_eq!(specular_permille(b"old_metal_glass"), 500);
    assert_eq!(specular_permille(b"glass_01"), 800);
    assert_eq!(specular_permille(b"window_02"), 800);
    assert_eq!(specular_permille(b"concrete_03"), 100);
    assert_eq!(specular_permille(b"grass_01"), 0);
}

#[test]
fn byte_string_helpers() {
    assert!(bytes_eq(b"abc", b"abc"));
    assert!(!bytes_eq(b"abc", b"abd"));
    assert!(bytes_le(b"", b"a"));
    assert!(starts_with_bytes(b"concrete_01", b"concrete"));
    assert!(!starts_with_bytes(b"con", b"concrete"));
    assert!(find_bytes(b"old_metal", b"metal"));
    assert!(!find_bytes(b"meta", b"metal"));
}

#[test]
fn material_lookup() {
    let reg = MaterialRegistry {
        texture_datas: vec![vec![], vec![], vec![]],
        specular_permilles: vec![100, 0, 500],
        names: names(&["concrete_01", "grass_01", "metal_01"]),
    };
    assert_eq!(reg.id_from_name(b"grass_01"), 1);
    assert_eq!(reg.id_from_name(b"metal_01"), 2);
    // Unknown names fall back to the first material.
    assert_eq!(reg.id_from_name(b"lava"), 0);
    assert_eq!(reg.material_name(2), &b"metal_01".to_vec());
}

#[test]
fn material_cycling() {
    assert_eq!(next_material(0, 3), 1);
    assert_eq!(next_material(2, 3), 0);
    assert_eq!(prev_material(0, 3), 2);
    assert_eq!(prev_material(2, 3), 1);
    for m in 0..3 {
        assert_eq!(prev_material(next_material(m, 3), 3), m);
        assert_eq!(next_material(prev_material(m, 3), 3), m);
    }
}

#[test]
fn frame_checks() {
    // An RGB buffer too short for its 2x2 size.
    assert_eq!(texture_from_frame(vec![0; 11], 2, 2, PixelFormat::Rgb), Err(TextureError::BadDimensions));
    // A layer that would not fit in a u32 index range.
    assert_eq!(texture_from_frame(vec![], 65536, 65536, PixelFormat::Rgba), Err(TextureError::BadDimensions));
    // Other formats are refused once the size is fine.
    assert_eq!(texture_from_frame(vec![0; 4], 1, 1, PixelFormat::Other), Err(TextureError::UnsupportedFormat));
    let layer = texture_from_frame(vec![1, 2, 3, 4], 1, 1, PixelFormat::Rgba).unwrap();
    assert!(layer.chunks(4).all(|p| p == [1, 2, 3, 4]));
}
