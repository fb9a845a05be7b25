use std::io::Read;

use mapquant::compress::compress_document;
use mapquant::img::Image;
use mapquant::jsondoc::Json;
use mapquant::palette::PaletteIndex;
use mapquant::pipeline::build_map;
use mapquant::quantize::{quantize, rewrite};
use mapquant::rle::encode;

fn strings(items: &[&str]) -> Vec<String> {
    items.iter().map(|s| s.to_string()).collect()
}

fn image_of(width: u32, height: u32, pixels: &[(u8, u8, u8)]) -> Image {
    let mut data = Vec::new();
    for p in pixels {
        data.push(p.0);
        data.push(p.1);
        data.push(p.2);
    }
    Image::new(width, height, data).unwrap()
}

fn pixels_of(img: &Image) -> Vec<(u8, u8, u8)> {
    let mut out = Vec::new();
    for y in 0..img.height {
        for x in 0..img.width {
            out.push(img.get_pixel(x, y));
        }
    }
    out
}

const WHITE: (u8, u8, u8) = (255, 255, 255);
const BLACK: (u8, u8, u8) = (0, 0, 0);

#[test]
fn quantization_is_identity_on_palette_colors() {
    let pal = PaletteIndex::load(&strings(&["1 #FFFFFF", "2 #000000"])).unwrap();
    let img = image_of(2, 2, &[WHITE, BLACK, BLACK, WHITE]);
    let mapping = quantize(&img, &pal);
    let rew = rewrite(&img, &mapping);
    assert_eq!(pixels_of(&rew), pixels_of(&img));
}

#[test]
fn quantization_is_idempotent() {
    let pal = PaletteIndex::load(&strings(&["1 #FFFFFF", "2 #000000"])).unwrap();
    let img = image_of(2, 2, &[(200, 200, 200), (20, 10, 0), BLACK, (130, 120, 140)]);
    let m1 = quantize(&img, &pal);
    let once = rewrite(&img, &m1);
    let m2 = quantize(&once, &pal);
    let twice = rewrite(&once, &m2);
    assert_eq!(pixels_of(&twice), pixels_of(&once));
}

#[test]
fn encoder_row_sums_match_width_and_arrays_align() {
    let pal = PaletteIndex::load(&strings(&["1 #FFFFFF", "2 #000000"])).unwrap();
    let img = image_of(
        4,
        2,
        &[WHITE, WHITE, BLACK, BLACK, BLACK, BLACK, BLACK, WHITE],
    );
    let mapping = quantize(&img, &pal);
    let known = strings(&["1", "2"]);
    let rle = encode(&img, &mapping, &known).unwrap();
    assert_eq!(rle.tiles.len(), rle.amounts.len());
    // bottom row first: [black x3, white], then top row [white x2, black x2]
    assert_eq!(rle.tiles, vec![1usize, 0, 0, 1]);
    assert_eq!(rle.amounts, vec![3u32, 1, 2, 2]);
    // run lengths of each row add up to the width
    assert_eq!(rle.amounts[0] + rle.amounts[1], 4);
    assert_eq!(rle.amounts[2] + rle.amounts[3], 4);
}

#[test]
fn encoder_reports_unknown_ids() {
    let pal = PaletteIndex::load(&strings(&["1 #FFFFFF"])).unwrap();
    let img = image_of(1, 1, &[WHITE]);
    let mapping = quantize(&img, &pal);
    let err = encode(&img, &mapping, &strings(&[])).unwrap_err();
    assert_eq!(err.describe(), "tile id not in known tile map");
}

#[test]
fn encoder_reports_unmapped_colors() {
    let pal = PaletteIndex::load(&strings(&["1 #FFFFFF"])).unwrap();
    let img = image_of(1, 1, &[WHITE]);
    let empty_img = image_of(1, 1, &[BLACK]);
    let mapping = quantize(&img, &pal);
    // the mapping resolves white only; a black pixel has no entry
    let err = encode(&empty_img, &mapping, &strings(&["1"])).unwrap_err();
    assert_eq!(err.describe(), "color not found in mapping");
}

fn lib_json_to_serde(j: &Json) -> serde_json::Value {
    match j {
        Json::Null => serde_json::Value::Null,
        Json::Bool(b) => serde_json::Value::Bool(*b),
        Json::UInt(n) => serde_json::Value::Number(serde_json::Number::from(*n)),
        Json::Num(n) => serde_json::Value::Number(n.clone()),
        Json::Str(s) => serde_json::Value::String(s.clone()),
        Json::Arr(a) => serde_json::Value::Array(a.iter().map(lib_json_to_serde).collect()),
        Json::Obj(o) => {
            let mut m = serde_json::Map::new();
            for (k, v) in o {
                m.insert(k.clone(), lib_json_to_serde(v));
            }
            serde_json::Value::Object(m)
        }
    }
}

fn doc_to_serde(fields: &Vec<(String, Json)>) -> serde_json::Value {
    let mut m = serde_json::Map::new();
    for (k, v) in fields {
        m.insert(k.clone(), lib_json_to_serde(v));
    }
    serde_json::Value::Object(m)
}

#[test]
fn bottom_row_first_scenario() {
    // palette {"1": white, "2": black}; a 2x2 image [white, black; black, white]
    // normalized to 128x128 must emit the bottom row's runs first
    let palette_lines = strings(&["1 #FFFFFF", "2 #000000"]);
    let source = image_of(2, 2, &[WHITE, BLACK, BLACK, WHITE]);
    let mut doc: Vec<(String, Json)> = vec![("tileMap".to_string(), Json::Arr(Vec::new()))];
    let out = build_map(&palette_lines, source, &mut doc, &strings(&[]), None).unwrap();
    assert!(out.tile_map_found);
    assert_eq!(out.image.width, 128);
    assert_eq!(out.image.height, 128);
    // first seen color is the top-left white pixel, so "1" is tile 0
    assert_eq!(out.known_ids, strings(&["1", "2"]));
    // the bottom-left quarter of the normalized image is black: the first
    // emitted run belongs to the bottom row and starts with black (tile 1)
    assert_eq!(out.rle.tiles[0], 1);
    assert_eq!(out.rle.amounts[0], 64);
    assert_eq!(out.rle.tiles[1], 0);
    assert_eq!(out.rle.amounts[1], 64);
    // grid fields are written in 64-pixel units
    let width = doc.iter().find(|f| f.0 == "width").unwrap();
    let height = doc.iter().find(|f| f.0 == "height").unwrap();
    assert!(matches!(width.1, Json::UInt(2)));
    assert!(matches!(height.1, Json::UInt(2)));
}

#[test]
fn equidistant_colors_resolve_to_first_entry_every_run() {
    // (0,0,1) sits exactly between #000000 and #000002
    let palette_lines = strings(&["a #000000", "b #000002"]);
    for _ in 0..3 {
        let source = image_of(1, 1, &[(0, 0, 1)]);
        let mut doc: Vec<(String, Json)> = vec![("tileMap".to_string(), Json::Arr(Vec::new()))];
        let out = build_map(&palette_lines, source, &mut doc, &strings(&[]), None).unwrap();
        assert_eq!(out.known_ids, strings(&["a"]));
        assert_eq!(out.image.get_pixel(0, 0), BLACK);
    }
}

#[test]
fn artifact_round_trip_restores_the_grid() {
    let palette_lines = strings(&["1 #FFFFFF", "2 #000000"]);
    let source = image_of(
        128,
        128,
        &(0..128 * 128)
            .map(|i| {
                let y = i / 128;
                if y < 64 { WHITE } else { BLACK }
            })
            .collect::<Vec<_>>(),
    );
    let mut doc: Vec<(String, Json)> = vec![("tileMap".to_string(), Json::Arr(Vec::new()))];
    let laws = strings(&["Fire true", "Ice false"]);
    let freeze = image_of(2, 2, &[WHITE, BLACK, BLACK, WHITE]);
    let out = build_map(&palette_lines, source, &mut doc, &laws, Some(&freeze)).unwrap();

    // the flat grid the encoder worked from, bottom row first
    let mut expected_flat: Vec<u64> = Vec::new();
    for yy in 0..128u32 {
        let y = 127 - yy;
        for x in 0..128u32 {
            let c = out.image.get_pixel(x, y);
            expected_flat.push(if c == WHITE { 0 } else { 1 });
        }
    }

    // render, compress, decompress, parse, and expand the runs again
    let rendered = serde_json::to_string_pretty(&doc_to_serde(&doc)).unwrap();
    let compressed = compress_document(&rendered.clone().into_bytes());
    assert_ne!(compressed, rendered.as_bytes());
    let mut decoder = flate2::read::ZlibDecoder::new(compressed.as_slice());
    let mut restored = String::new();
    decoder.read_to_string(&mut restored).unwrap();
    assert_eq!(restored, rendered);
    let value: serde_json::Value = serde_json::from_str(&restored).unwrap();
    let tiles = value.get("tileArray").unwrap().as_array().unwrap();
    let amounts = value.get("tileAmounts").unwrap().as_array().unwrap();
    assert_eq!(tiles.len(), amounts.len());
    let mut flat: Vec<u64> = Vec::new();
    for (t, a) in tiles.iter().zip(amounts.iter()) {
        let tile = t.as_u64().unwrap();
        let count = a.as_u64().unwrap();
        for _ in 0..count {
            flat.push(tile);
        }
    }
    assert_eq!(flat, expected_flat);

    // the frozen overlay lists the freeze map's white pixels by linear index
    let frozen = value.get("frozen_tiles").unwrap().as_array().unwrap();
    let indices: Vec<u64> = frozen.iter().map(|v| v.as_u64().unwrap()).collect();
    assert_eq!(indices, vec![0, 3]);

    // the world laws kept their asymmetric encoding
    let list = value
        .get("worldLaws")
        .unwrap()
        .get("list")
        .unwrap()
        .as_array()
        .unwrap();
    assert_eq!(list.len(), 2);
    assert_eq!(list[0].get("name").unwrap().as_str().unwrap(), "Fire");
    assert!(list[0].get("boolVal").is_none());
    assert_eq!(list[1].get("name").unwrap().as_str().unwrap(), "Ice");
    assert_eq!(list[1].get("boolVal").unwrap().as_bool().unwrap(), false);
}

#[test]
fn compressor_output_is_not_the_input() {
    let data: Vec<u8> = b"the quick brown fox jumps over the lazy dog".to_vec();
    let compressed = compress_document(&data);
    assert_ne!(compressed, data);
    let mut decoder = flate2::read::ZlibDecoder::new(compressed.as_slice());
    let mut restored = Vec::new();
    decoder.read_to_end(&mut restored).unwrap();
    assert_eq!(restored, data);
}

#[test]
fn empty_palette_aborts_the_run() {
    let source = image_of(1, 1, &[WHITE]);
    let mut doc: Vec<(String, Json)> = Vec::new();
    let err = build_map(&strings(&["junk"]), source, &mut doc, &strings(&[]), None).unwrap_err();
    assert_eq!(err.describe(), "palette is empty");
    assert!(doc.is_empty());
}

#[test]
fn pipeline_suppresses_duplicate_tile_ids() {
    // the document already knows tile "1"; only "2" is appended
    let palette_lines = strings(&["1 #FFFFFF", "2 #000000"]);
    let source = image_of(2, 2, &[WHITE, BLACK, BLACK, WHITE]);
    let mut doc: Vec<(String, Json)> =
        vec![("tileMap".to_string(), Json::Arr(vec![Json::Str("1".to_string())]))];
    let out = build_map(&palette_lines, source, &mut doc, &strings(&[]), None).unwrap();
    assert_eq!(out.known_ids, strings(&["1", "2"]));
    match &doc[0].1 {
        Json::Arr(a) => assert_eq!(a.len(), 2),
        _ => panic!("tileMap must stay an array"),
    }
}

#[test]
fn normalization_is_identity_on_normalized_images() {
    let pixels: Vec<(u8, u8, u8)> = (0..128 * 128)
        .map(|i| if i % 3 == 0 { WHITE } else { BLACK })
        .collect();
    let img = image_of(128, 128, &pixels);
    let before = img.data.clone();
    let norm = mapquant::img::normalize(img);
    assert_eq!(norm.width, 128);
    assert_eq!(norm.height, 128);
    assert_eq!(norm.data, before);
}

#[test]
fn normalization_resizes_small_images_up() {
    let palette_lines = strings(&["1 #FFFFFF", "2 #000000"]);
    let source = image_of(2, 2, &[WHITE, BLACK, BLACK, WHITE]);
    let mut doc: Vec<(String, Json)> = vec![("tileMap".to_string(), Json::Arr(Vec::new()))];
    let out = build_map(&palette_lines, source, &mut doc, &strings(&[]), None).unwrap();
    // nearest-neighbor scaling: the four quarters keep the four source colors
    assert_eq!(out.image.get_pixel(0, 0), WHITE);
    assert_eq!(out.image.get_pixel(127, 0), BLACK);
    assert_eq!(out.image.get_pixel(0, 127), BLACK);
    assert_eq!(out.image.get_pixel(127, 127), WHITE);
}
