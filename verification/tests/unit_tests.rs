use mapquant::MapError;
use mapquant::compose::{append_tile_ids, append_world_laws, frozen_indices, parse_law_lines, read_tile_map, trim_str};
use mapquant::img::Image;
use mapquant::jsondoc::{set_field, Json};
use mapquant::palette::{hex_to_rgb, PaletteIndex};

fn strings(items: &[&str]) -> Vec<String> {
    items.iter().map(|s| s.to_string()).collect()
}

#[test]
fn hex_parses_six_digit_colors() {
    assert_eq!(hex_to_rgb("#FFA500"), Some((255, 165, 0)));
    assert_eq!(hex_to_rgb("#000000"), Some((0, 0, 0)));
    assert_eq!(hex_to_rgb("#FFFFFF"), Some((255, 255, 255)));
    assert_eq!(hex_to_rgb("123456"), Some((0x12, 0x34, 0x56)));
}

#[test]
fn hex_accepts_short_and_long_forms() {
    // same tolerance as parsing the digits as one 32-bit number
    assert_eq!(hex_to_rgb("#fff"), Some((0, 0x0f, 0xff)));
    assert_eq!(hex_to_rgb("##00FF00"), Some((0, 255, 0)));
    assert_eq!(hex_to_rgb("+FF"), Some((0, 0, 255)));
    assert_eq!(hex_to_rgb("FFFFFFFF"), Some((255, 255, 255)));
}

#[test]
fn hex_rejects_malformed_input() {
    assert_eq!(hex_to_rgb(""), None);
    assert_eq!(hex_to_rgb("#"), None);
    assert_eq!(hex_to_rgb("xyz"), None);
    assert_eq!(hex_to_rgb("#12G456"), None);
    assert_eq!(hex_to_rgb("FFFFFFFFF"), None); // over 32 bits
    assert_eq!(hex_to_rgb("-FF"), None);
}

#[test]
fn palette_load_skips_malformed_lines() {
    let lines = strings(&["1 #FFFFFF", "nonsense", "2 #000000", "3 #badhex"]);
    let pal = PaletteIndex::load(&lines).unwrap();
    assert_eq!(pal.entries.len(), 2);
    assert_eq!(pal.entries[0].id, "1");
    assert_eq!(pal.entries[0].color, (255, 255, 255));
    assert_eq!(pal.entries[1].id, "2");
    assert_eq!(pal.entries[1].color, (0, 0, 0));
}

#[test]
fn palette_load_rejects_empty_palette() {
    let lines = strings(&["no separator here?", ""]);
    let err = match PaletteIndex::load(&lines) {
        Err(e) => e,
        Ok(_) => panic!("an empty palette must be rejected"),
    };
    assert!(matches!(err, MapError::EmptyPalette));
    assert_eq!(err.describe(), "palette is empty");
}

#[test]
fn nearest_picks_minimal_distance() {
    let lines = strings(&["1 #FFFFFF", "2 #000000"]);
    let pal = PaletteIndex::load(&lines).unwrap();
    assert_eq!(pal.nearest((250, 250, 250)), 0);
    assert_eq!(pal.nearest((3, 0, 10)), 1);
}

#[test]
fn nearest_breaks_ties_by_load_order() {
    // (0,0,1) is at squared distance 1 from both entries
    let lines = strings(&["a #000000", "b #000002"]);
    let pal = PaletteIndex::load(&lines).unwrap();
    assert_eq!(pal.nearest((0, 0, 1)), 0);
    // swapping the file order swaps the winner: the first-loaded entry wins
    let lines2 = strings(&["b #000002", "a #000000"]);
    let pal2 = PaletteIndex::load(&lines2).unwrap();
    assert_eq!(pal2.nearest((0, 0, 1)), 0);
    assert_eq!(pal2.entries[0].id, "b");
}

#[test]
fn trim_removes_surrounding_whitespace() {
    assert_eq!(trim_str("  hello \t"), "hello");
    assert_eq!(trim_str("x"), "x");
    assert_eq!(trim_str("   "), "");
}

fn law_fields(rec: &Json) -> &Vec<(String, Json)> {
    match rec {
        Json::Obj(fields) => fields,
        _ => panic!("law record must be an object"),
    }
}

#[test]
fn world_law_true_token_gives_bare_record() {
    let recs = parse_law_lines(&strings(&["Fire true"]));
    assert_eq!(recs.len(), 1);
    let fields = law_fields(&recs[0]);
    assert_eq!(fields.len(), 1);
    assert_eq!(fields[0].0, "name");
    assert!(matches!(&fields[0].1, Json::Str(s) if s == "Fire"));
}

#[test]
fn world_law_other_token_gives_explicit_false() {
    let recs = parse_law_lines(&strings(&["Fire false"]));
    let fields = law_fields(&recs[0]);
    assert_eq!(fields.len(), 2);
    assert_eq!(fields[0].0, "name");
    assert_eq!(fields[1].0, "boolVal");
    assert!(matches!(fields[1].1, Json::Bool(false)));
}

#[test]
fn world_law_token_matching_is_case_insensitive() {
    let recs = parse_law_lines(&strings(&["Ice TRUE", "Wind tRuE", "Rain yes"]));
    assert_eq!(law_fields(&recs[0]).len(), 1);
    assert_eq!(law_fields(&recs[1]).len(), 1);
    assert_eq!(law_fields(&recs[2]).len(), 2);
}

#[test]
fn world_law_lines_without_space_are_skipped() {
    let recs = parse_law_lines(&strings(&["nospace", "Fire true"]));
    assert_eq!(recs.len(), 1);
}

#[test]
fn world_law_token_is_trimmed() {
    // the split happens at the first space; the token " true" is trimmed
    // before the comparison, so the record is still the bare form
    let recs = parse_law_lines(&strings(&["Fire  true"]));
    let fields = law_fields(&recs[0]);
    assert_eq!(fields[0].0, "name");
    assert!(matches!(&fields[0].1, Json::Str(s) if s == "Fire"));
    assert_eq!(fields.len(), 1);
}

fn gray(v: u8) -> (u8, u8, u8) {
    (v, v, v)
}

fn image_of(width: u32, height: u32, pixels: &[(u8, u8, u8)]) -> Image {
    let mut data = Vec::new();
    for p in pixels {
        data.push(p.0);
        data.push(p.1);
        data.push(p.2);
    }
    Image::new(width, height, data).unwrap()
}

#[test]
fn frozen_indices_lists_exactly_the_white_pixels() {
    let img = image_of(
        3,
        2,
        &[gray(255), gray(0), gray(255), gray(1), gray(255), gray(254)],
    );
    let frozen = frozen_indices(&img);
    assert_eq!(frozen, vec![0u32, 2, 4]);
    let white_count = (0..6).filter(|&i| i == 0 || i == 2 || i == 4).count();
    assert_eq!(frozen.len(), white_count);
    // each index is y * width + x of its pixel
    assert_eq!(frozen[2], 1 * 3 + 1);
}

#[test]
fn frozen_indices_empty_without_white() {
    let img = image_of(2, 1, &[gray(254), gray(0)]);
    assert_eq!(frozen_indices(&img).len(), 0);
}

#[test]
fn append_tile_ids_without_tile_map_reports_and_leaves_doc() {
    let mut doc: Vec<(String, Json)> = vec![("other".to_string(), Json::Null)];
    let found = append_tile_ids(&mut doc, &strings(&["1"]));
    assert!(!found);
    assert_eq!(doc.len(), 1);
    assert_eq!(doc[0].0, "other");
}

#[test]
fn append_tile_ids_appends_to_existing_array() {
    let mut doc: Vec<(String, Json)> = vec![(
        "tileMap".to_string(),
        Json::Arr(vec![Json::Str("old".to_string())]),
    )];
    let found = append_tile_ids(&mut doc, &strings(&["1", "2"]));
    assert!(found);
    match &doc[0].1 {
        Json::Arr(a) => {
            assert_eq!(a.len(), 3);
            assert!(matches!(&a[1], Json::Str(s) if s == "1"));
            assert!(matches!(&a[2], Json::Str(s) if s == "2"));
        }
        _ => panic!("tileMap must stay an array"),
    }
    let known = read_tile_map(&doc).unwrap();
    assert_eq!(known, strings(&["old", "1", "2"]));
}

#[test]
fn append_tile_ids_suppresses_existing_duplicates() {
    let mut doc: Vec<(String, Json)> = vec![(
        "tileMap".to_string(),
        Json::Arr(vec![Json::Str("1".to_string())]),
    )];
    let found = append_tile_ids(&mut doc, &strings(&["1", "2"]));
    assert!(found);
    // "1" is already there: only "2" is appended
    assert_eq!(read_tile_map(&doc).unwrap(), strings(&["1", "2"]));
}

#[test]
fn read_tile_map_keeps_strings_only() {
    let doc: Vec<(String, Json)> = vec![(
        "tileMap".to_string(),
        Json::Arr(vec![
            Json::Str("a".to_string()),
            Json::UInt(7),
            Json::Str("b".to_string()),
        ]),
    )];
    assert_eq!(read_tile_map(&doc).unwrap(), strings(&["a", "b"]));
}

#[test]
fn append_world_laws_creates_missing_list() {
    let mut doc: Vec<(String, Json)> = Vec::new();
    let recs = parse_law_lines(&strings(&["Fire true"]));
    append_world_laws(&mut doc, recs);
    assert_eq!(doc.len(), 1);
    assert_eq!(doc[0].0, "worldLaws");
    match &doc[0].1 {
        Json::Obj(inner) => {
            assert_eq!(inner[0].0, "list");
            match &inner[0].1 {
                Json::Arr(a) => assert_eq!(a.len(), 1),
                _ => panic!("list must be an array"),
            }
        }
        _ => panic!("worldLaws must be an object"),
    }
}

#[test]
fn append_world_laws_extends_existing_list() {
    let mut doc: Vec<(String, Json)> = vec![(
        "worldLaws".to_string(),
        Json::Obj(vec![("list".to_string(), Json::Arr(vec![Json::Null]))]),
    )];
    let recs = parse_law_lines(&strings(&["Fire true", "Ice false"]));
    append_world_laws(&mut doc, recs);
    match &doc[0].1 {
        Json::Obj(inner) => match &inner[0].1 {
            Json::Arr(a) => assert_eq!(a.len(), 3),
            _ => panic!("list must stay an array"),
        },
        _ => panic!("worldLaws must stay an object"),
    }
}

#[test]
fn set_field_overwrites_or_appends() {
    let mut doc: Vec<(String, Json)> = vec![("width".to_string(), Json::UInt(1))];
    set_field(&mut doc, "width", Json::UInt(2));
    assert_eq!(doc.len(), 1);
    assert!(matches!(doc[0].1, Json::UInt(2)));
    set_field(&mut doc, "height", Json::UInt(3));
    assert_eq!(doc.len(), 2);
    assert_eq!(doc[1].0, "height");
}

#[test]
fn error_descriptions_name_the_stage() {
    assert_eq!(MapError::ColorNotFound.describe(), "color not found in mapping");
    assert_eq!(MapError::IdNotKnown.describe(), "tile id not in known tile map");
}
