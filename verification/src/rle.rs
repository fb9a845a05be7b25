//! The tile grid encoder: scans the rewritten image bottom row first, left
//! to right within a row, resolves every pixel color back to a tile index,
//! and merges consecutive equal indices of one row into runs. Runs never
//! cross a row boundary.

use vstd::prelude::*;
use crate::MapError;
use crate::img::Image;
use crate::quantize::{ColorMapping, MappingEntry};

verus! {

/// The run-length encoding: `tiles` and `amounts` are parallel, one run
/// each, `amounts[i]` telling how often tile index `tiles[i]` repeats.
#[derive(Debug)]
pub struct Rle {
    pub tiles: Vec<usize>,
    pub amounts: Vec<u32>,
}

/// The canonical run-length encoding of a sequence: maximal runs of equal
/// values, in order.
pub open spec fn rle_of(s: Seq<usize>) -> Seq<(usize, nat)>
    decreases s.len(),
{
    if s.len() == 0 {
        Seq::empty()
    } else {
        let r = rle_of(s.drop_last());
        if r.len() > 0 && r.last().0 == s.last() {
            r.drop_last().push((s.last(), (r.last().1 + 1) as nat))
        } else {
            r.push((s.last(), 1nat))
        }
    }
}

/// The total of the run lengths.
pub open spec fn sum_amounts(r: Seq<(usize, nat)>) -> nat
    decreases r.len(),
{
    if r.len() == 0 {
        0
    } else {
        sum_amounts(r.drop_last()) + r.last().1
    }
}

/// Expands a run-length encoding back into the sequence it stands for.
pub open spec fn expand_rle(r: Seq<(usize, nat)>) -> Seq<usize>
    decreases r.len(),
{
    if r.len() == 0 {
        Seq::empty()
    } else {
        expand_rle(r.drop_last()) + Seq::new(r.last().1, |i: int| r.last().0)
    }
}

/// The run lengths of one row's encoding add up to the row's width.
pub proof fn lemma_rle_row_sum(s: Seq<usize>)
    ensures
        sum_amounts(rle_of(s)) == s.len(),
    decreases s.len(),
{
    if s.len() > 0 {
        lemma_rle_row_sum(s.drop_last());
        let r = rle_of(s.drop_last());
        if r.len() > 0 && r.last().0 == s.last() {
            assert(rle_of(s).drop_last() =~= r.drop_last());
        } else {
            assert(rle_of(s).drop_last() =~= r);
        }
    }
}

/// Expanding the canonical encoding of a sequence gives the sequence back.
pub proof fn lemma_rle_round_trip(s: Seq<usize>)
    ensures
        expand_rle(rle_of(s)) == s,
    decreases s.len(),
{
    if s.len() > 0 {
        lemma_rle_round_trip(s.drop_last());
        let r = rle_of(s.drop_last());
        if r.len() > 0 && r.last().0 == s.last() {
            let e = rle_of(s);
            assert(e.drop_last() =~= r.drop_last());
            assert(expand_rle(r) == expand_rle(r.drop_last()) + Seq::new(
                r.last().1,
                |i: int| r.last().0,
            ));
            assert(Seq::new(e.last().1, |i: int| e.last().0) =~= Seq::new(
                r.last().1,
                |i: int| r.last().0,
            ).push(s.last()));
            assert(expand_rle(e) =~= s.drop_last().push(s.last()));
            assert(s.drop_last().push(s.last()) =~= s);
        } else {
            let e = rle_of(s);
            assert(e.drop_last() =~= r);
            assert(Seq::new(1nat, |i: int| s.last()) =~= seq![s.last()]);
            assert(expand_rle(e) =~= s.drop_last().push(s.last()));
            assert(s.drop_last().push(s.last()) =~= s);
        }
    }
}

/// Every run length of a canonical encoding is at least one.
pub proof fn lemma_rle_amounts_positive(s: Seq<usize>)
    ensures
        forall|i: int| 0 <= i < rle_of(s).len() ==> (#[trigger] rle_of(s)[i]).1 >= 1,
    decreases s.len(),
{
    if s.len() > 0 {
        lemma_rle_amounts_positive(s.drop_last());
        let r = rle_of(s.drop_last());
        assert forall|i: int| 0 <= i < rle_of(s).len() implies (#[trigger] rle_of(s)[i]).1
            >= 1 by {
            if r.len() > 0 && r.last().0 == s.last() {
                if i < rle_of(s).len() - 1 {
                    assert(rle_of(s)[i] == r[i]);
                }
            } else {
                if i < rle_of(s).len() - 1 {
                    assert(rle_of(s)[i] == r[i]);
                }
            }
        }
    }
}

/// The position of the first mapping entry whose resolved color is `c`,
/// or `-1` when no entry resolves to it. This is the inverse lookup from a
/// rewritten pixel color back to a tile id.
pub open spec fn first_resolved(es: Seq<MappingEntry>, c: (u8, u8, u8)) -> int
    decreases es.len(),
{
    if es.len() == 0 {
        -1
    } else if es[0].color == c {
        0
    } else if first_resolved(es.skip(1), c) < 0 {
        -1
    } else {
        1 + first_resolved(es.skip(1), c)
    }
}

/// `first_resolved` really is the first position with resolved color `c`.
pub proof fn lemma_first_resolved(es: Seq<MappingEntry>, c: (u8, u8, u8))
    ensures
        first_resolved(es, c) >= 0 ==> 0 <= first_resolved(es, c) < es.len() && es[first_resolved(
            es,
            c,
        )].color == c && (forall|j: int|
            0 <= j < first_resolved(es, c) ==> (#[trigger] es[j]).color != c),
        first_resolved(es, c) < 0 ==> forall|j: int|
            0 <= j < es.len() ==> (#[trigger] es[j]).color != c,
    decreases es.len(),
{
    if es.len() > 0 && es[0].color != c {
        lemma_first_resolved(es.skip(1), c);
        if first_resolved(es, c) >= 0 {
            assert forall|j: int| 0 <= j < first_resolved(es, c) implies (#[trigger] es[j]).color
                != c by {
                if j > 0 {
                    assert(es.skip(1)[j - 1] == es[j]);
                }
            }
        } else {
            assert forall|j: int| 0 <= j < es.len() implies (#[trigger] es[j]).color != c by {
                if j > 0 {
                    assert(es.skip(1)[j - 1] == es[j]);
                }
            }
        }
    }
}

/// The position of the last occurrence of `id` in the known tile id list,
/// or `-1` when it is absent. The last occurrence wins where the list holds
/// a duplicate id.
pub open spec fn last_index_of_id(ids: Seq<Seq<char>>, id: Seq<char>) -> int
    decreases ids.len(),
{
    if ids.len() == 0 {
        -1
    } else if ids.last() == id {
        ids.len() - 1
    } else {
        last_index_of_id(ids.drop_last(), id)
    }
}

/// `last_index_of_id` really is the last position holding `id`.
pub proof fn lemma_last_index_of_id(ids: Seq<Seq<char>>, id: Seq<char>)
    ensures
        last_index_of_id(ids, id) >= 0 ==> 0 <= last_index_of_id(ids, id) < ids.len()
            && ids[last_index_of_id(ids, id)] == id && (forall|j: int|
            last_index_of_id(ids, id) < j < ids.len() ==> ids[j] != id),
        last_index_of_id(ids, id) < 0 ==> forall|j: int| 0 <= j < ids.len() ==> ids[j] != id,
    decreases ids.len(),
{
    if ids.len() > 0 && ids.last() != id {
        lemma_last_index_of_id(ids.drop_last(), id);
        assert(forall|j: int| 0 <= j < ids.len() - 1 ==> ids[j] == ids.drop_last()[j]);
    }
}

/// The tile index a pixel color stands for: its id's position in the known
/// id list; `-1` when the color resolves to no id, `-2` when the id is not
/// known. Meaningful only on rewritten pixels.
pub open spec fn tile_of(es: Seq<MappingEntry>, ids: Seq<Seq<char>>, c: (u8, u8, u8)) -> int {
    let k = first_resolved(es, c);
    if k < 0 {
        -1
    } else {
        let t = last_index_of_id(ids, es[k].id@);
        if t < 0 {
            -2
        } else {
            t
        }
    }
}

/// The tile indices of one image row in traversal order (left to right).
pub open spec fn row_tiles(img: Image, es: Seq<MappingEntry>, ids: Seq<Seq<char>>, y: int) -> Seq<
    int,
> {
    Seq::new(img.width as nat, |x: int| tile_of(es, ids, img.pixel(x, y)))
}

/// The rows of the image in traversal order: the bottom row first.
pub open spec fn traversal_rows(img: Image, es: Seq<MappingEntry>, ids: Seq<Seq<char>>) -> Seq<
    Seq<int>,
> {
    Seq::new(img.height as nat, |k: int| row_tiles(img, es, ids, img.height as int - 1 - k))
}

/// Whether every pixel of the image resolves to a known tile index.
pub open spec fn all_resolvable(img: Image, es: Seq<MappingEntry>, ids: Seq<Seq<char>>) -> bool {
    forall|x: int, y: int|
        0 <= x < img.width && 0 <= y < img.height ==> tile_of(es, ids, #[trigger] img.pixel(x, y))
            >= 0
}

/// A row of verified tile indices, as unsigned values.
pub open spec fn row_indices(img: Image, es: Seq<MappingEntry>, ids: Seq<Seq<char>>, y: int) -> Seq<
    usize,
> {
    Seq::new(img.width as nat, |x: int| tile_of(es, ids, img.pixel(x, y)) as usize)
}

/// The per-row canonical encodings, concatenated in traversal order.
pub open spec fn grid_runs(
    img: Image,
    es: Seq<MappingEntry>,
    ids: Seq<Seq<char>>,
    rows: int,
) -> Seq<(usize, nat)>
    decreases rows,
{
    if rows <= 0 {
        Seq::empty()
    } else {
        grid_runs(img, es, ids, rows - 1) + rle_of(
            row_indices(img, es, ids, img.height as int - rows),
        )
    }
}

/// The flat traversal of the whole grid: every row's tile indices, bottom
/// row first, left to right.
pub open spec fn grid_flat(img: Image, es: Seq<MappingEntry>, ids: Seq<Seq<char>>, rows: int) -> Seq<
    usize,
>
    decreases rows,
{
    if rows <= 0 {
        Seq::empty()
    } else {
        grid_flat(img, es, ids, rows - 1) + row_indices(img, es, ids, img.height as int - rows)
    }
}

impl Rle {
    /// The runs as `(tile index, length)` pairs.
    pub open spec fn runs(&self) -> Seq<(usize, nat)> {
        Seq::new(self.tiles@.len(), |i: int| (self.tiles@[i], self.amounts@[i] as nat))
    }

    /// Parallel arrays of one run each.
    pub open spec fn wf(&self) -> bool {
        self.tiles@.len() == self.amounts@.len()
    }
}

/// Decompressing the encoder's output restores the flat grid: expanding
/// the emitted runs yields exactly the bottom-to-top, left-to-right tile
/// index traversal they were made from.
pub proof fn lemma_grid_round_trip(img: Image, es: Seq<MappingEntry>, ids: Seq<Seq<char>>, rows: int)
    requires
        rows >= 0,
    ensures
        expand_rle(grid_runs(img, es, ids, rows)) == grid_flat(img, es, ids, rows),
    decreases rows,
{
    if rows > 0 {
        lemma_grid_round_trip(img, es, ids, rows - 1);
        lemma_rle_round_trip(row_indices(img, es, ids, img.height as int - rows));
        lemma_expand_concat(
            grid_runs(img, es, ids, rows - 1),
            rle_of(row_indices(img, es, ids, img.height as int - rows)),
        );
    } else {
        assert(expand_rle(Seq::empty()) =~= Seq::<usize>::empty());
    }
}

/// Expansion distributes over concatenation of encodings.
pub proof fn lemma_expand_concat(a: Seq<(usize, nat)>, b: Seq<(usize, nat)>)
    ensures
        expand_rle(a + b) == expand_rle(a) + expand_rle(b),
    decreases b.len(),
{
    if b.len() == 0 {
        assert(a + b =~= a);
        assert(expand_rle(a) + expand_rle(b) =~= expand_rle(a));
    } else {
        lemma_expand_concat(a, b.drop_last());
        assert((a + b).drop_last() =~= a + b.drop_last());
        assert((a + b).last() == b.last());
        assert(expand_rle(a + b) =~= expand_rle(a) + expand_rle(b));
    }
}

/// Encodes the (rewritten) image as runs of tile indices, bottom row
/// first. Fails when a pixel color resolves to no mapping entry, or its id
/// to no known tile: either would corrupt the grid.
pub fn encode(img: &Image, m: &ColorMapping, ids: &Vec<String>) -> (r: Result<Rle, MapError>)
    requires
        img.wf(),
    ensures
        r is Ok <==> all_resolvable(*img, m.entries@, ids.deep_view()),
        r is Ok ==> {
            let rle = r->Ok_0;
            &&& rle.wf()
            &&& rle.runs() == grid_runs(*img, m.entries@, ids.deep_view(), img.height as int)
        },
        r is Err ==> (r->Err_0 is ColorNotFound || r->Err_0 is IdNotKnown),
        r is Err ==> exists|x: int, y: int|
            0 <= x < img.width && 0 <= y < img.height && tile_of(
                m.entries@,
                ids.deep_view(),
                #[trigger] img.pixel(x, y),
            ) < 0,
        r is Err && r->Err_0 is ColorNotFound ==> exists|x: int, y: int|
            0 <= x < img.width && 0 <= y < img.height && tile_of(
                m.entries@,
                ids.deep_view(),
                #[trigger] img.pixel(x, y),
            ) == -1,
        r is Err && r->Err_0 is IdNotKnown ==> exists|x: int, y: int|
            0 <= x < img.width && 0 <= y < img.height && tile_of(
                m.entries@,
                ids.deep_view(),
                #[trigger] img.pixel(x, y),
            ) == -2,
{
    let ghost es = m.entries@;
    let ghost idv = ids.deep_view();
    let mut tiles: Vec<usize> = Vec::new();
    let mut amounts: Vec<u32> = Vec::new();
    let mut yy: u32 = 0;
    while yy < img.height
        invariant
            0 <= yy <= img.height,
            img.wf(),
            es == m.entries@,
            idv == ids.deep_view(),
            tiles@.len() == amounts@.len(),
            Seq::new(tiles@.len(), |i: int| (tiles@[i], amounts@[i] as nat)) =~= grid_runs(
                *img,
                es,
                idv,
                yy as int,
            ),
            forall|x: int, y: int|
                0 <= x < img.width && img.height - yy <= y < img.height ==> tile_of(
                    es,
                    idv,
                    #[trigger] img.pixel(x, y),
                ) >= 0,
        decreases img.height - yy,
    {
        let y: u32 = img.height - 1 - yy;
        let ghost row = row_indices(*img, es, idv, y as int);
        let mut row_t: Vec<usize> = Vec::new();
        let mut row_a: Vec<u32> = Vec::new();
        let mut x: u32 = 0;
        while x < img.width
            invariant
                0 <= x <= img.width,
                img.wf(),
                es == m.entries@,
                idv == ids.deep_view(),
                y < img.height,
                row == row_indices(*img, es, idv, y as int),
                row_t@.len() == row_a@.len(),
                forall|k: int| 0 <= k < row_a@.len() ==> 1 <= (#[trigger] row_a@[k]) <= x,
                Seq::new(row_t@.len(), |i: int| (row_t@[i], row_a@[i] as nat)) =~= rle_of(
                    row.take(x as int),
                ),
                forall|xx: int|
                    0 <= xx < x ==> tile_of(es, idv, #[trigger] img.pixel(xx, y as int)) >= 0,
            decreases img.width - x,
        {
            let c = img.get_pixel(x, y);
            proof {
                lemma_first_resolved(es, c);
            }
            // resolve the pixel color to the first mapping entry bearing it
            let mut k: usize = 0;
            let mut found: bool = false;
            while k < m.entries.len() && !found
                invariant
                    0 <= k <= m.entries@.len(),
                    es == m.entries@,
                    found ==> k > 0 && es[k - 1].color == c && first_resolved(es, c) == k - 1,
                    !found ==> forall|j: int| 0 <= j < k ==> (#[trigger] es[j]).color != c,
                    first_resolved(es, c) >= 0 ==> 0 <= first_resolved(es, c) < es.len()
                        && es[first_resolved(es, c)].color == c && (forall|j: int|
                        0 <= j < first_resolved(es, c) ==> (#[trigger] es[j]).color != c),
                    first_resolved(es, c) < 0 ==> forall|j: int|
                        0 <= j < es.len() ==> (#[trigger] es[j]).color != c,
                decreases m.entries@.len() - k + (if found { 0int } else { 1int }),
            {
                let e = &m.entries[k];
                if e.color.0 == c.0 && e.color.1 == c.1 && e.color.2 == c.2 {
                    found = true;
                }
                k = k + 1;
            }
            if !found {
                proof {
                    assert(first_resolved(es, c) < 0);
                    assert(tile_of(es, idv, img.pixel(x as int, y as int)) == -1);
                }
                return Err(MapError::ColorNotFound);
            }
            let id: &String = &m.entries[k - 1].id;
            proof {
                lemma_last_index_of_id(idv, id@);
            }
            // find the last occurrence of the id among the known tile ids
            let mut t: usize = ids.len();
            let mut id_found: bool = false;
            while t > 0 && !id_found
                invariant
                    0 <= t <= ids@.len(),
                    idv == ids.deep_view(),
                    0 <= first_resolved(es, c) < es.len(),
                    id@ == es[first_resolved(es, c)].id@,
                    id_found ==> t < ids@.len() && idv[t as int] == id@ && last_index_of_id(
                        idv,
                        id@,
                    ) == t as int,
                    !id_found ==> forall|j: int| t <= j < ids@.len() ==> idv[j] != id@,
                    last_index_of_id(idv, id@) >= 0 ==> 0 <= last_index_of_id(idv, id@)
                        < ids@.len() && idv[last_index_of_id(idv, id@)] == id@ && (forall|j: int|
                        last_index_of_id(idv, id@) < j < ids@.len() ==> idv[j] != id@),
                    last_index_of_id(idv, id@) < 0 ==> forall|j: int|
                        0 <= j < ids@.len() ==> idv[j] != id@,
                decreases t + (if id_found { 0int } else { 1int }),
            {
                if ids[t - 1].eq(id) {
                    proof {
                        assert(idv[t - 1] == ids@[t - 1]@);
                    }
                    id_found = true;
                    t = t - 1;
                } else {
                    proof {
                        assert(idv[t - 1] == ids@[t - 1]@);
                    }
                    t = t - 1;
                }
            }
            if !id_found {
                proof {
                    assert(last_index_of_id(idv, id@) < 0);
                    assert(tile_of(es, idv, img.pixel(x as int, y as int)) == -2);
                }
                return Err(MapError::IdNotKnown);
            }
            let idx: usize = t;
            proof {
                assert(tile_of(es, idv, img.pixel(x as int, y as int)) == idx as int);
                assert(row[x as int] == idx as int as usize);
                assert(row.take(x + 1).drop_last() =~= row.take(x as int));
                assert(row.take(x + 1).last() == idx);
            }
            // merge into the previous run, or open a new one
            let rn = row_t.len();
            if rn > 0 && row_t[rn - 1] == idx {
                let last_a = row_a[rn - 1];
                let ghost rt_before = row_t@;
                let ghost ra_before = row_a@;
                let _ = row_a.pop();
                row_a.push(last_a + 1);
                proof {
                    assert(row_a@ =~= ra_before.update(rn - 1, (last_a + 1) as u32));
                    let prev = rle_of(row.take(x as int));
                    assert(prev.len() > 0 && prev.last().0 == idx);
                    assert(Seq::new(row_t@.len(), |i: int| (row_t@[i], row_a@[i] as nat))
                        =~= prev.drop_last().push((idx, (prev.last().1 + 1) as nat)));
                }
            } else {
                row_t.push(idx);
                row_a.push(1);
                proof {
                    let prev = rle_of(row.take(x as int));
                    assert(!(prev.len() > 0 && prev.last().0 == idx));
                    assert(Seq::new(row_t@.len(), |i: int| (row_t@[i], row_a@[i] as nat))
                        =~= prev.push((idx, 1nat)));
                }
            }
            x = x + 1;
        }
        proof {
            assert(row.take(img.width as int) =~= row);
        }
        let ghost g_tiles = tiles@;
        let ghost g_amounts = amounts@;
        let ghost rt = row_t@;
        let ghost ra = row_a@;
        tiles.append(&mut row_t);
        amounts.append(&mut row_a);
        proof {
            assert(tiles@ == g_tiles + rt);
            assert(amounts@ == g_amounts + ra);
            assert(img.height as int - (yy + 1) == y as int);
            assert(Seq::new(tiles@.len(), |i: int| (tiles@[i], amounts@[i] as nat)) =~= grid_runs(
                *img,
                es,
                idv,
                yy as int + 1,
            ));
            assert forall|xp: int, yp: int|
                0 <= xp < img.width && img.height - (yy + 1) <= yp < img.height implies tile_of(
                es,
                idv,
                #[trigger] img.pixel(xp, yp),
            ) >= 0 by {
                if yp == y as int {
                    assert(tile_of(es, idv, img.pixel(xp, y as int)) >= 0);
                }
            }
        }
        yy = yy + 1;
    }
    let r = Rle { tiles, amounts };
    proof {
        assert(r.runs() =~= grid_runs(*img, es, idv, img.height as int));
        assert forall|x: int, y: int| 0 <= x < img.width && 0 <= y < img.height implies tile_of(
            es,
            idv,
            #[trigger] img.pixel(x, y),
        ) >= 0 by {}
    }
    Ok(r)
}

} // verus!
