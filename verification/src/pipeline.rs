//! The whole pipeline in one verified step: load the palette, normalize
//! the image, quantize and rewrite it, encode the tile grid, and merge
//! everything into the map document.

use vstd::prelude::*;
use crate::MapError;
use crate::img::{Image, colors_of, norm_dim, normalize, resize_nearest_of};
use crate::jsondoc::{Json, JsonV, upsert};
use crate::palette::{PaletteIndex, parsed_entries};
use crate::quantize::{
    ColorMapping,
    distinct_seq,
    lemma_distinct_seq_contains,
    lemma_first_src,
    lemma_rewrite_is_quantized,
    mapping_id_seq,
    mapping_ids,
    quantize,
    quantized_color,
    quantized_id,
    rewrite,
};
use crate::rle::{
    Rle,
    all_resolvable,
    encode,
    first_resolved,
    grid_runs,
    lemma_first_resolved,
    lemma_last_index_of_id,
    last_index_of_id,
    tile_of,
};
use crate::compose::{
    append_tile_ids,
    append_world_laws,
    frozen_indices,
    law_records,
    lemma_missing_ids_contains,
    missing_ids,
    parse_law_lines,
    read_tile_map,
    strings_of,
    strs_of,
    tile_map_present,
    white_idx_seq,
    with_laws,
    with_tile_ids,
};
use crate::jsondoc::{arr_from_u32s, arr_from_usizes, set_field};

verus! {

/// Everything a run produces besides the updated document: the rewritten
/// image, the mapping, the known tile id list, and the encoded grid.
#[derive(Debug)]
pub struct MapOutput {
    pub image: Image,
    pub tile_map_found: bool,
    pub mapping: ColorMapping,
    pub known_ids: Vec<String>,
    pub rle: Rle,
}

/// The known tile id list the encoder works against: the strings of the
/// updated `tileMap` array when the document has one (its pre-existing
/// strings, then the contributed ids it did not already hold), else just
/// the ids quantization contributed.
pub open spec fn known_ids_spec(fv0: Seq<(Seq<char>, JsonV)>, new_ids: Seq<Seq<char>>) -> Seq<
    Seq<char>,
> {
    if tile_map_present(fv0) {
        let arr = fv0[crate::jsondoc::key_at(fv0, "tileMap"@)].1->Arr_0;
        strings_of(arr + strs_of(missing_ids(strings_of(arr), new_ids)))
    } else {
        new_ids
    }
}

/// The document fields after every composing step, in the order the run
/// performs them.
pub open spec fn composed_fields(
    fv0: Seq<(Seq<char>, JsonV)>,
    new_ids: Seq<Seq<char>>,
    nw: int,
    nh: int,
    tiles: Seq<usize>,
    amounts: Seq<u32>,
    laws: Seq<JsonV>,
    frozen: Option<Seq<int>>,
) -> Seq<(Seq<char>, JsonV)> {
    let fv1 = if tile_map_present(fv0) {
        with_tile_ids(fv0, new_ids)
    } else {
        fv0
    };
    let fv2 = upsert(fv1, "height"@, JsonV::UInt((nh / 64) as u64));
    let fv3 = upsert(fv2, "width"@, JsonV::UInt((nw / 64) as u64));
    let fv4 = upsert(
        fv3,
        "tileArray"@,
        JsonV::Arr(Seq::new(tiles.len(), |i: int| JsonV::UInt(tiles[i] as u64))),
    );
    let fv5 = upsert(
        fv4,
        "tileAmounts"@,
        JsonV::Arr(Seq::new(amounts.len(), |i: int| JsonV::UInt(amounts[i] as u64))),
    );
    let fv6 = with_laws(fv5, laws);
    match frozen {
        Some(w) => upsert(
            fv6,
            "frozen_tiles"@,
            JsonV::Arr(Seq::new(w.len(), |i: int| JsonV::UInt(w[i] as u64))),
        ),
        None => fv6,
    }
}

/// Appending JSON strings to an array and reading the strings back yields
/// the old strings followed by the appended ids.
proof fn lemma_strings_of_append(a: Seq<JsonV>, ids: Seq<Seq<char>>)
    ensures
        strings_of(a + strs_of(ids)) == strings_of(a) + ids,
    decreases ids.len(),
{
    if ids.len() == 0 {
        assert(a + strs_of(ids) =~= a);
        assert(strings_of(a) + ids =~= strings_of(a));
    } else {
        lemma_strings_of_append(a, ids.drop_last());
        let whole = a + strs_of(ids);
        assert(whole.drop_last() =~= a + strs_of(ids.drop_last()));
        assert(whole.last() == JsonV::Str(ids.last()));
        assert(strings_of(whole) =~= strings_of(a) + ids);
    }
}

/// Every pixel of the rewritten image resolves to a known tile index,
/// given that the mapping covers the source colors and the known id list
/// carries every resolved id.
proof fn lemma_all_resolvable(
    rew: Image,
    pal: Seq<(Seq<char>, (u8, u8, u8))>,
    ncolors: Seq<(u8, u8, u8)>,
    m: &ColorMapping,
    known: Seq<Seq<char>>,
)
    requires
        rew.wf(),
        m.wf_for(pal, ncolors),
        rew.pixel_colors().len() == ncolors.len(),
        forall|i: int|
            0 <= i < rew.pixel_colors().len() ==> #[trigger] rew.pixel_colors()[i] == m.rewritten(
                ncolors[i],
            ),
        forall|j: int| 0 <= j < m.entries@.len() ==> known.contains((#[trigger] m.entries@[j]).id@),
    ensures
        all_resolvable(rew, m.entries@, known),
{
    let es = m.entries@;
    assert forall|x: int, y: int| 0 <= x < rew.width && 0 <= y < rew.height implies tile_of(
        es,
        known,
        #[trigger] rew.pixel(x, y),
    ) >= 0 by {
        let w = rew.width as int;
        let h = rew.height as int;
        let i = y * w + x;
        assert(0 <= i && i < w * h && i * 3 + 3 <= w * h * 3) by (nonlinear_arith)
            requires
                0 <= x < w,
                0 <= y < h,
                i == y * w + x,
        ;
        assert(rew.pixel_colors().len() == rew.data@.len() / 3);
        assert(rew.data@.len() / 3 == w * h) by (nonlinear_arith)
            requires
                rew.data@.len() == w * h * 3,
        ;
        assert(rew.pixel(x, y) == rew.pixel_colors()[i]);
        let c0 = ncolors[i];
        assert(rew.pixel_colors()[i] == m.rewritten(c0));
        assert(ncolors.contains(c0)) by {
            assert(ncolors[i] == c0);
        }
        lemma_rewrite_is_quantized(m, pal, ncolors, c0);
        let f = crate::quantize::first_src(es, c0);
        lemma_first_src(es, c0);
        let c = rew.pixel(x, y);
        assert(es[f].color == c);
        lemma_first_resolved(es, c);
        if first_resolved(es, c) < 0 {
            assert(es[f].color != c);
        }
        let fr = first_resolved(es, c);
        assert(0 <= fr < es.len());
        let id = es[fr].id@;
        assert(known.contains(id));
        lemma_last_index_of_id(known, id);
        if last_index_of_id(known, id) < 0 {
            let t = choose|t: int| 0 <= t < known.len() && known[t] == id;
            assert(known[t] != id);
        }
    }
}

/// Runs the whole pipeline over a loaded source image and document. The
/// palette is loaded and must yield at least one entry; the image is
/// normalized, quantized and rewritten; the grid is encoded against the
/// updated tile map; the document fields are rewritten in the order the
/// composer prescribes. With a non-empty palette the run always succeeds:
/// quantization covers every pixel and the tile map is fed every resolved
/// id before the encoder runs.
pub fn build_map(
    palette_lines: &Vec<String>,
    source: Image,
    fields: &mut Vec<(String, Json)>,
    law_lines: &Vec<String>,
    freeze: Option<&Image>,
) -> (r: Result<MapOutput, MapError>)
    requires
        source.wf(),
        source.width > 0,
        source.height > 0,
        source.width as int + 63 <= u32::MAX,
        source.height as int + 63 <= u32::MAX,
        norm_dim(source.width as int) * norm_dim(source.height as int) * 3 <= usize::MAX as int,
        freeze matches Some(fz) ==> fz.wf() && fz.width as int * fz.height as int <= u32::MAX,
    ensures
        r is Ok <==> parsed_entries(palette_lines.deep_view()).len() > 0,
        r is Err ==> r->Err_0 is EmptyPalette && final(fields).deep_view() == old(
            fields,
        ).deep_view(),
        r is Ok ==> ({
            let out = r->Ok_0;
            let pal = parsed_entries(palette_lines.deep_view());
            let nw = norm_dim(source.width as int);
            let nh = norm_dim(source.height as int);
            let ncolors = colors_of(
                resize_nearest_of(source.data@, source.width as int, source.height as int, nw, nh),
            );
            let dcolors = distinct_seq(ncolors);
            let mids = Seq::new(dcolors.len(), |i: int| quantized_id(pal, dcolors[i]));
            let new_ids = distinct_seq(mids);
            &&& out.image.wf()
            &&& out.image.width as int == nw
            &&& out.image.height as int == nh
            &&& out.image.pixel_colors().len() == ncolors.len()
            &&& forall|i: int|
                0 <= i < ncolors.len() ==> #[trigger] out.image.pixel_colors()[i]
                    == quantized_color(pal, ncolors[i])
            &&& out.mapping.wf_for(pal, ncolors)
            &&& (out.tile_map_found <==> tile_map_present(old(fields).deep_view()))
            &&& out.known_ids.deep_view() == known_ids_spec(old(fields).deep_view(), new_ids)
            &&& out.rle.wf()
            &&& all_resolvable(out.image, out.mapping.entries@, out.known_ids.deep_view())
            &&& out.rle.runs() == grid_runs(
                out.image,
                out.mapping.entries@,
                out.known_ids.deep_view(),
                nh,
            )
            &&& (freeze is None ==> final(fields).deep_view() == composed_fields(
                old(fields).deep_view(),
                new_ids,
                nw,
                nh,
                out.rle.tiles@,
                out.rle.amounts@,
                law_records(law_lines.deep_view()),
                None,
            ))
            &&& (freeze matches Some(fz) ==> final(fields).deep_view() == composed_fields(
                old(fields).deep_view(),
                new_ids,
                nw,
                nh,
                out.rle.tiles@,
                out.rle.amounts@,
                law_records(law_lines.deep_view()),
                Some(white_idx_seq(fz.pixel_colors())),
            ))
        }),
{
    let ghost fv0 = old(fields).deep_view();
    let ghost pal_spec = parsed_entries(palette_lines.deep_view());
    let pal = match PaletteIndex::load(palette_lines) {
        Ok(p) => p,
        Err(e) => {
            return Err(e);
        },
    };
    let norm = normalize(source);
    let ghost ncolors = norm.pixel_colors();
    let m = quantize(&norm, &pal);
    let rew = rewrite(&norm, &m);
    let new_ids = mapping_ids(&m);
    proof {
        let dcolors = distinct_seq(ncolors);
        let mids = Seq::new(dcolors.len(), |i: int| quantized_id(pal@, dcolors[i]));
        assert(mapping_id_seq(m.entries@) =~= mids);
    }
    let found = append_tile_ids(fields, &new_ids);
    let ghost fv1 = fields.deep_view();
    proof {
        crate::jsondoc::lemma_key_at(fv0, "tileMap"@);
        crate::jsondoc::lemma_key_at(fv1, "tileMap"@);
        if tile_map_present(fv0) {
            let k = crate::jsondoc::key_at(fv0, "tileMap"@);
            assert(fv1 == with_tile_ids(fv0, new_ids.deep_view()));
            assert(fv1.len() == fv0.len());
            assert(fv1[k].0 == fv0[k].0);
            assert(forall|j: int| 0 <= j < k ==> fv1[j] == fv0[j]);
            assert(crate::jsondoc::key_at(fv1, "tileMap"@) == k);
            assert(tile_map_present(fv1));
        } else {
            assert(fv1 == fv0);
        }
    }
    let known = match read_tile_map(fields) {
        Some(v) => v,
        None => {
            let mut copy: Vec<String> = Vec::new();
            let mut q: usize = 0;
            while q < new_ids.len()
                invariant
                    0 <= q <= new_ids@.len(),
                    copy.deep_view() =~= new_ids.deep_view().take(q as int),
                decreases new_ids@.len() - q,
            {
                let ghost cb = copy.deep_view();
                copy.push(new_ids[q].clone());
                proof {
                    assert(copy.deep_view() =~= cb.push(new_ids@[q as int]@));
                    assert(new_ids@[q as int]@ == new_ids.deep_view()[q as int]);
                    assert(copy.deep_view() =~= new_ids.deep_view().take(q + 1));
                }
                q = q + 1;
            }
            proof {
                assert(new_ids.deep_view().take(new_ids@.len() as int) =~= new_ids.deep_view());
            }
            copy
        },
    };
    proof {
        if tile_map_present(fv0) {
            let k = crate::jsondoc::key_at(fv0, "tileMap"@);
            let arr = fv0[k].1->Arr_0;
            lemma_strings_of_append(arr, missing_ids(strings_of(arr), new_ids.deep_view()));
        }
        assert(known.deep_view() == known_ids_spec(fv0, new_ids.deep_view()));
        // the known list carries every resolved id of the mapping: the id
        // is either already among the tile map's strings or newly appended
        lemma_distinct_seq_contains(mapping_id_seq(m.entries@));
        assert forall|j: int| 0 <= j < m.entries@.len() implies known.deep_view().contains(
            (#[trigger] m.entries@[j]).id@,
        ) by {
            let mids0 = mapping_id_seq(m.entries@);
            let x = m.entries@[j].id@;
            assert(mids0[j] == x);
            assert(mids0.contains(mids0[j]));
            assert(new_ids.deep_view().contains(x));
            if tile_map_present(fv0) {
                let k = crate::jsondoc::key_at(fv0, "tileMap"@);
                let pre = strings_of(fv0[k].1->Arr_0);
                let kept = missing_ids(pre, new_ids.deep_view());
                lemma_missing_ids_contains(pre, new_ids.deep_view());
                if pre.contains(x) {
                    let t = choose|t: int| 0 <= t < pre.len() && pre[t] == x;
                    assert(known.deep_view()[t] == x);
                } else {
                    let t = choose|t: int| 0 <= t < kept.len() && kept[t] == x;
                    assert(known.deep_view()[pre.len() + t] == x);
                }
            }
        }
        lemma_all_resolvable(rew, pal@, ncolors, &m, known.deep_view());
    }
    let enc = encode(&rew, &m, &known);
    let rle = match enc {
        Ok(v) => v,
        Err(_) => {
            // unreachable: the mapping covers every rewritten pixel color
            // and the known id list carries every resolved id
            proof {
                assert(false);
            }
            return Err(MapError::EmptyPalette);
        },
    };
    let h64 = norm.height / 64;
    let w64 = norm.width / 64;
    set_field(fields, "height", Json::UInt(h64 as u64));
    set_field(fields, "width", Json::UInt(w64 as u64));
    let ta = arr_from_usizes(&rle.tiles);
    set_field(fields, "tileArray", ta);
    let tm = arr_from_u32s(&rle.amounts);
    set_field(fields, "tileAmounts", tm);
    let recs = parse_law_lines(law_lines);
    append_world_laws(fields, recs);
    match freeze {
        Some(fimg) => {
            let fr = frozen_indices(fimg);
            let fa = arr_from_u32s(&fr);
            proof {
                assert(Seq::new(fr@.len(), |i: int| JsonV::UInt(fr@[i] as u64)) =~= Seq::new(
                    white_idx_seq(fimg.pixel_colors()).len(),
                    |i: int| JsonV::UInt(white_idx_seq(fimg.pixel_colors())[i] as u64),
                ));
            }
            set_field(fields, "frozen_tiles", fa);
        },
        None => {},
    }
    proof {
        assert forall|i: int| 0 <= i < ncolors.len() implies #[trigger] rew.pixel_colors()[i]
            == quantized_color(pal@, ncolors[i]) by {
            assert(ncolors[i] == ncolors[i]);
            assert(ncolors.contains(ncolors[i]));
            lemma_rewrite_is_quantized(&m, pal@, ncolors, ncolors[i]);
        }
    }
    Ok(
        MapOutput {
            image: rew,
            tile_map_found: found,
            mapping: m,
            known_ids: known,
            rle,
        },
    )
}

} // verus!
