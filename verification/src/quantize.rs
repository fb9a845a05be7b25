//! The color quantizer: collects the distinct colors of an image in
//! first-seen order, resolves each to its nearest palette entry, and
//! rewrites every pixel to its resolved color.

use vstd::prelude::*;
use crate::img::Image;
use crate::palette::{PaletteIndex, dist2, nearest_idx, lemma_nearest_props, lemma_dist2_zero};

verus! {

/// One resolved color: a source color of the image, the id of its nearest
/// palette entry, and that entry's color.
#[derive(Debug)]
pub struct MappingEntry {
    pub src: (u8, u8, u8),
    pub id: String,
    pub color: (u8, u8, u8),
}

/// The color mapping built once per run: its keys are exactly the distinct
/// colors of the source image, in the order they first appear.
#[derive(Debug)]
pub struct ColorMapping {
    pub entries: Vec<MappingEntry>,
}

/// The distinct elements of `s`, each at its first appearance, in order.
pub open spec fn distinct_seq<A>(s: Seq<A>) -> Seq<A>
    decreases s.len(),
{
    if s.len() == 0 {
        Seq::empty()
    } else {
        let r = distinct_seq(s.drop_last());
        if r.contains(s.last()) {
            r
        } else {
            r.push(s.last())
        }
    }
}

/// `distinct_seq` keeps exactly the elements of `s`.
pub proof fn lemma_distinct_seq_contains<A>(s: Seq<A>)
    ensures
        forall|x: A| s.contains(x) <==> distinct_seq(s).contains(x),
    decreases s.len(),
{
    if s.len() > 0 {
        lemma_distinct_seq_contains(s.drop_last());
        let r = distinct_seq(s.drop_last());
        assert forall|x: A| s.contains(x) implies distinct_seq(s).contains(x) by {
            let i = choose|i: int| 0 <= i < s.len() && s[i] == x;
            if i < s.len() - 1 {
                assert(s.drop_last()[i] == x);
                assert(s.drop_last().contains(x));
                let j = choose|j: int| 0 <= j < r.len() && r[j] == x;
                assert(distinct_seq(s)[j] == x);
                assert(distinct_seq(s).contains(x));
            } else {
                if r.contains(s.last()) {
                    assert(distinct_seq(s).contains(x));
                } else {
                    assert(distinct_seq(s)[r.len() as int] == x);
                    assert(distinct_seq(s).contains(x));
                }
            }
        }
        assert forall|x: A| distinct_seq(s).contains(x) implies s.contains(x) by {
            let j = choose|j: int| 0 <= j < distinct_seq(s).len() && distinct_seq(s)[j] == x;
            if j < r.len() {
                assert(r[j] == x);
                assert(r.contains(x));
                assert(s.drop_last().contains(x));
                let i = choose|i: int| 0 <= i < s.drop_last().len() && s.drop_last()[i] == x;
                assert(s.drop_last()[i] == s[i]);
                assert(s.contains(x));
            } else {
                assert(x == s.last());
                assert(s[s.len() - 1] == x);
                assert(s.contains(x));
            }
        }
    }
}

/// The color the palette resolves `c` to: the color of the entry nearest
/// to `c`.
pub open spec fn quantized_color(pal: Seq<(Seq<char>, (u8, u8, u8))>, c: (u8, u8, u8)) -> (
    u8,
    u8,
    u8,
) {
    pal[nearest_idx(pal, c)].1
}

/// The id the palette resolves `c` to.
pub open spec fn quantized_id(pal: Seq<(Seq<char>, (u8, u8, u8))>, c: (u8, u8, u8)) -> Seq<char> {
    pal[nearest_idx(pal, c)].0
}

/// The position of the first mapping entry whose source color is `c`, or
/// `-1` when no entry has it.
pub open spec fn first_src(es: Seq<MappingEntry>, c: (u8, u8, u8)) -> int
    decreases es.len(),
{
    if es.len() == 0 {
        -1
    } else if es[0].src == c {
        0
    } else if first_src(es.skip(1), c) < 0 {
        -1
    } else {
        1 + first_src(es.skip(1), c)
    }
}

/// `first_src` really is the first position with source color `c`.
pub proof fn lemma_first_src(es: Seq<MappingEntry>, c: (u8, u8, u8))
    ensures
        first_src(es, c) >= 0 ==> 0 <= first_src(es, c) < es.len() && es[first_src(es, c)].src == c
            && (forall|j: int| 0 <= j < first_src(es, c) ==> (#[trigger] es[j]).src != c),
        first_src(es, c) < 0 ==> forall|j: int| 0 <= j < es.len() ==> (#[trigger] es[j]).src != c,
    decreases es.len(),
{
    if es.len() > 0 && es[0].src != c {
        lemma_first_src(es.skip(1), c);
        if first_src(es, c) >= 0 {
            assert forall|j: int| 0 <= j < first_src(es, c) implies (#[trigger] es[j]).src != c by {
                if j > 0 {
                    assert(es.skip(1)[j - 1] == es[j]);
                }
            }
        } else {
            assert forall|j: int| 0 <= j < es.len() implies (#[trigger] es[j]).src != c by {
                if j > 0 {
                    assert(es.skip(1)[j - 1] == es[j]);
                }
            }
        }
    }
}

impl ColorMapping {
    /// The source colors, in first-seen order.
    pub open spec fn keys(&self) -> Seq<(u8, u8, u8)> {
        Seq::new(self.entries@.len(), |i: int| self.entries@[i].src)
    }

    /// Whether some entry resolves the source color `c`.
    pub open spec fn has_key(&self, c: (u8, u8, u8)) -> bool {
        first_src(self.entries@, c) >= 0
    }

    /// The resolved color for source color `c`: the color of the first
    /// entry keyed by `c`, or `c` itself when there is none.
    pub open spec fn rewritten(&self, c: (u8, u8, u8)) -> (u8, u8, u8) {
        if self.has_key(c) {
            self.entries@[first_src(self.entries@, c)].color
        } else {
            c
        }
    }

    /// The resolved id for source color `c`, meaningful when `has_key`.
    pub open spec fn id_of(&self, c: (u8, u8, u8)) -> Seq<char> {
        self.entries@[first_src(self.entries@, c)].id@
    }

    /// A faithful mapping for image `pixels` against palette `pal`: the keys
    /// are the distinct pixel colors in first-seen order, and every entry
    /// carries the id and color of its key's nearest palette entry.
    pub open spec fn wf_for(
        &self,
        pal: Seq<(Seq<char>, (u8, u8, u8))>,
        pixels: Seq<(u8, u8, u8)>,
    ) -> bool {
        &&& self.keys() == distinct_seq(pixels)
        &&& forall|i: int|
            0 <= i < self.entries@.len() ==> (#[trigger] self.entries@[i]).id@ == quantized_id(
                pal,
                self.entries@[i].src,
            ) && self.entries@[i].color == quantized_color(pal, self.entries@[i].src)
    }

    /// Looks a source color up, returning the position and resolved color
    /// of its first entry.
    pub fn lookup(&self, c: (u8, u8, u8)) -> (r: Option<(usize, (u8, u8, u8))>)
        ensures
            r is Some <==> self.has_key(c),
            r is Some ==> (r->0).0 as int == first_src(self.entries@, c) && (r->0).1
                == self.rewritten(c),
    {
        proof {
            lemma_first_src(self.entries@, c);
        }
        let mut i: usize = 0;
        while i < self.entries.len()
            invariant
                0 <= i <= self.entries@.len(),
                forall|j: int| 0 <= j < i ==> (#[trigger] self.entries@[j]).src != c,
                first_src(self.entries@, c) >= 0 ==> 0 <= first_src(self.entries@, c)
                    < self.entries@.len() && self.entries@[first_src(self.entries@, c)].src == c
                    && (forall|j: int|
                    0 <= j < first_src(self.entries@, c) ==> (#[trigger] self.entries@[j]).src
                        != c),
                first_src(self.entries@, c) < 0 ==> forall|j: int|
                    0 <= j < self.entries@.len() ==> (#[trigger] self.entries@[j]).src != c,
            decreases self.entries@.len() - i,
        {
            let e = &self.entries[i];
            if e.src.0 == c.0 && e.src.1 == c.1 && e.src.2 == c.2 {
                proof {
                    assert(self.entries@[i as int].src == c);
                    assert(first_src(self.entries@, c) == i as int);
                }
                return Some((i, e.color));
            }
            i = i + 1;
        }
        None
    }
}

/// Builds the color mapping of `img` against the palette: the distinct
/// pixel colors in first-seen order, each resolved through a nearest query.
pub fn quantize(img: &Image, pal: &PaletteIndex) -> (m: ColorMapping)
    requires
        img.wf(),
        pal.wf(),
    ensures
        m.wf_for(pal@, img.pixel_colors()),
{
    let mut entries: Vec<MappingEntry> = Vec::new();
    let dl: usize = img.data.len();
    let total: usize = dl / 3;
    let ghost pixels = img.pixel_colors();
    proof {
        assert(pixels.len() == total);
        assert(total * 3 <= img.data@.len()) by (nonlinear_arith)
            requires
                total == img.data@.len() / 3,
        ;
        assert(pixels.take(0) =~= Seq::<(u8, u8, u8)>::empty());
        assert(Seq::new(0, |i: int| entries@[i].src) =~= distinct_seq(pixels.take(0)));
    }
    let mut p: usize = 0;
    while p < total
        invariant
            0 <= p <= total,
            total == pixels.len(),
            img.wf(),
            pal.wf(),
            pixels == img.pixel_colors(),
            total * 3 <= img.data@.len() <= usize::MAX,
            Seq::new(entries@.len(), |i: int| entries@[i].src) =~= distinct_seq(
                pixels.take(p as int),
            ),
            forall|i: int|
                0 <= i < entries@.len() ==> (#[trigger] entries@[i]).id@ == quantized_id(
                    pal@,
                    entries@[i].src,
                ) && entries@[i].color == quantized_color(pal@, entries@[i].src),
        decreases total - p,
    {
        proof {
            assert(p * 3 + 3 <= total * 3);
        }
        let i: usize = p * 3;
        let c = (img.data[i], img.data[i + 1], img.data[i + 2]);
        proof {
            assert(c == pixels[p as int]);
        }
        let ghost keys_before = Seq::new(entries@.len(), |i: int| entries@[i].src);
        // is this color already recorded?
        let mut seen = false;
        let mut k: usize = 0;
        while k < entries.len()
            invariant
                0 <= k <= entries@.len(),
                keys_before == Seq::new(entries@.len(), |i: int| entries@[i].src),
                seen <==> exists|j: int| 0 <= j < k && keys_before[j] == c,
            decreases entries@.len() - k,
        {
            let e = &entries[k];
            if e.src.0 == c.0 && e.src.1 == c.1 && e.src.2 == c.2 {
                proof {
                    assert(keys_before[k as int] == c);
                }
                seen = true;
            }
            k = k + 1;
        }
        proof {
            assert(pixels.take(p + 1).drop_last() =~= pixels.take(p as int));
            assert(pixels.take(p + 1).last() == c);
            assert(seen <==> keys_before.contains(c));
        }
        if !seen {
            let idx = pal.nearest(c);
            let e = &pal.entries[idx];
            let id = e.id.clone();
            let color = e.color;
            proof {
                assert(pal@[idx as int] == (pal.entries[idx as int].id@,
                    pal.entries[idx as int].color));
                assert(id@ == quantized_id(pal@, c));
                assert(color == quantized_color(pal@, c));
            }
            entries.push(MappingEntry { src: c, id, color });
            proof {
                assert(Seq::new(entries@.len(), |i: int| entries@[i].src) =~= keys_before.push(
                    c,
                ));
            }
        }
        proof {
            assert(Seq::new(entries@.len(), |i: int| entries@[i].src) =~= distinct_seq(
                pixels.take(p + 1),
            ));
        }
        p = p + 1;
    }
    proof {
        assert(pixels.take(total as int) =~= pixels);
    }
    let m = ColorMapping { entries };
    proof {
        assert(m.keys() =~= distinct_seq(pixels));
    }
    m
}

/// Rewrites every pixel of `img` to its resolved palette color; a color
/// without a mapping entry passes through unchanged.
pub fn rewrite(img: &Image, m: &ColorMapping) -> (r: Image)
    requires
        img.wf(),
    ensures
        r.wf(),
        r.width == img.width,
        r.height == img.height,
        r.pixel_colors().len() == img.pixel_colors().len(),
        forall|i: int|
            0 <= i < r.pixel_colors().len() ==> #[trigger] r.pixel_colors()[i] == m.rewritten(
                img.pixel_colors()[i],
            ),
{
    let dl: usize = img.data.len();
    let total: usize = dl / 3;
    let ghost pixels = img.pixel_colors();
    proof {
        assert(total * 3 <= img.data@.len()) by (nonlinear_arith)
            requires
                total == img.data@.len() / 3,
        ;
    }
    let mut data: Vec<u8> = Vec::new();
    let mut p: usize = 0;
    while p < total
        invariant
            0 <= p <= total,
            img.wf(),
            pixels == img.pixel_colors(),
            total * 3 <= img.data@.len() <= usize::MAX,
            total == pixels.len(),
            data@.len() == p * 3,
            forall|i: int|
                0 <= i < p ==> crate::img::color_at(data@, i) == m.rewritten(#[trigger] pixels[i]),
        decreases total - p,
    {
        proof {
            assert(p * 3 + 3 <= total * 3);
        }
        let i: usize = p * 3;
        let c = (img.data[i], img.data[i + 1], img.data[i + 2]);
        proof {
            assert(c == pixels[p as int]);
        }
        let out = match m.lookup(c) {
            Some((_, color)) => color,
            None => c,
        };
        proof {
            assert(out == m.rewritten(c));
        }
        let ghost before = data@;
        data.push(out.0);
        data.push(out.1);
        data.push(out.2);
        proof {
            assert forall|j: int| 0 <= j < p + 1 implies crate::img::color_at(data@, j)
                == m.rewritten(#[trigger] pixels[j]) by {
                if j < p {
                    assert(crate::img::color_at(before, j) == m.rewritten(pixels[j]));
                    assert(data@[3 * j] == before[3 * j]);
                    assert(data@[3 * j + 1] == before[3 * j + 1]);
                    assert(data@[3 * j + 2] == before[3 * j + 2]);
                }
            }
        }
        p = p + 1;
    }
    proof {
        assert(data@.len() == img.width as int * img.height as int * 3);
    }
    let r = Image { width: img.width, height: img.height, data };
    proof {
        assert(r.pixel_colors().len() == img.pixel_colors().len());
        assert forall|i: int| 0 <= i < r.pixel_colors().len() implies #[trigger] r.pixel_colors()[i]
            == m.rewritten(img.pixel_colors()[i]) by {
            assert(crate::img::color_at(r.data@, i) == m.rewritten(pixels[i]));
        }
    }
    r
}

/// The ids the mapping resolves to, one per entry, in entry order.
pub open spec fn mapping_id_seq(es: Seq<MappingEntry>) -> Seq<Seq<char>> {
    Seq::new(es.len(), |i: int| es[i].id@)
}

/// Collects the distinct resolved ids of the mapping, in first-seen order:
/// the ids that quantization contributes to the tile map.
pub fn mapping_ids(m: &ColorMapping) -> (r: Vec<String>)
    ensures
        r.deep_view() == distinct_seq(mapping_id_seq(m.entries@)),
{
    let ghost mids = mapping_id_seq(m.entries@);
    let mut out: Vec<String> = Vec::new();
    let mut i: usize = 0;
    proof {
        assert(mids.take(0) =~= Seq::<Seq<char>>::empty());
        assert(out.deep_view() =~= distinct_seq(mids.take(0)));
    }
    while i < m.entries.len()
        invariant
            0 <= i <= m.entries@.len(),
            mids == mapping_id_seq(m.entries@),
            out.deep_view() =~= distinct_seq(mids.take(i as int)),
        decreases m.entries@.len() - i,
    {
        let id = &m.entries[i].id;
        proof {
            assert(mids.take(i + 1).drop_last() =~= mids.take(i as int));
            assert(mids.take(i + 1).last() == id@);
        }
        let mut seen = false;
        let mut k: usize = 0;
        while k < out.len()
            invariant
                0 <= k <= out@.len(),
                seen <==> exists|j: int| 0 <= j < k && out.deep_view()[j] == id@,
            decreases out@.len() - k,
        {
            if crate::jsondoc::str_eq(out[k].as_str(), id.as_str()) {
                proof {
                    assert(out.deep_view()[k as int] == id@);
                }
                seen = true;
            }
            k = k + 1;
        }
        let ghost ob = out.deep_view();
        proof {
            assert(seen <==> ob.contains(id@));
        }
        if !seen {
            out.push(id.clone());
            proof {
                assert(out.deep_view() =~= ob.push(id@));
            }
        }
        proof {
            assert(out.deep_view() =~= distinct_seq(mids.take(i + 1)));
        }
        i = i + 1;
    }
    proof {
        assert(mids.take(m.entries@.len() as int) =~= mids);
    }
    out
}

/// A covered color rewrites to exactly its quantized color: the mapping's
/// keys carry every distinct pixel color, so the lookup never misses.
pub proof fn lemma_rewrite_is_quantized(
    m: &ColorMapping,
    pal: Seq<(Seq<char>, (u8, u8, u8))>,
    pixels: Seq<(u8, u8, u8)>,
    c: (u8, u8, u8),
)
    requires
        m.wf_for(pal, pixels),
        pixels.contains(c),
    ensures
        m.has_key(c),
        m.rewritten(c) == quantized_color(pal, c),
        0 <= first_src(m.entries@, c) < m.entries@.len(),
        m.id_of(c) == quantized_id(pal, c),
{
    lemma_distinct_seq_contains(pixels);
    assert(distinct_seq(pixels).contains(c));
    assert(m.keys().contains(c));
    let i = choose|i: int| 0 <= i < m.keys().len() && m.keys()[i] == c;
    assert(m.entries@[i].src == c);
    lemma_first_src(m.entries@, c);
    if first_src(m.entries@, c) < 0 {
        assert(m.entries@[i].src != c);
    }
    let f = first_src(m.entries@, c);
    assert(m.entries@[f].src == c);
    assert(m.entries@[f].color == quantized_color(pal, m.entries@[f].src));
    assert(m.entries@[f].id@ == quantized_id(pal, m.entries@[f].src));
}

/// A color that is already a palette color resolves to itself: its own
/// entry is at distance zero, so the nearest entry is at distance zero,
/// and a zero distance means the very same color.
pub proof fn lemma_quantized_fixed(pal: Seq<(Seq<char>, (u8, u8, u8))>, c: (u8, u8, u8))
    requires
        pal.len() > 0,
        exists|j: int| 0 <= j < pal.len() && (#[trigger] pal[j]).1 == c,
    ensures
        quantized_color(pal, c) == c,
{
    let j = choose|j: int| 0 <= j < pal.len() && (#[trigger] pal[j]).1 == c;
    lemma_nearest_props(pal, c);
    lemma_dist2_zero(pal[j].1, c);
    let n = nearest_idx(pal, c);
    assert(dist2(pal[j].1, c) >= dist2(pal[n].1, c));
    lemma_dist2_zero(pal[n].1, c);
}

/// Quantization is idempotent: resolving an already-resolved color changes
/// nothing, since every resolved color is a palette color.
pub proof fn lemma_quantize_idempotent(pal: Seq<(Seq<char>, (u8, u8, u8))>, c: (u8, u8, u8))
    requires
        pal.len() > 0,
    ensures
        quantized_color(pal, quantized_color(pal, c)) == quantized_color(pal, c),
{
    lemma_nearest_props(pal, c);
    let n = nearest_idx(pal, c);
    assert(pal[n].1 == quantized_color(pal, c));
    lemma_quantized_fixed(pal, quantized_color(pal, c));
}

/// An image whose pixel colors are all palette colors is left unchanged
/// by quantization, pixel for pixel.
pub proof fn lemma_quantization_identity(
    pal: Seq<(Seq<char>, (u8, u8, u8))>,
    colors: Seq<(u8, u8, u8)>,
)
    requires
        pal.len() > 0,
        forall|i: int|
            0 <= i < colors.len() ==> exists|j: int|
                0 <= j < pal.len() && (#[trigger] pal[j]).1 == #[trigger] colors[i],
    ensures
        Seq::new(colors.len(), |i: int| quantized_color(pal, colors[i])) == colors,
{
    assert forall|i: int| 0 <= i < colors.len() implies quantized_color(
        pal,
        #[trigger] colors[i],
    ) == colors[i] by {
        lemma_quantized_fixed(pal, colors[i]);
    }
    assert(Seq::new(colors.len(), |i: int| quantized_color(pal, colors[i])) =~= colors);
}

/// Re-running quantization over an already-quantized image yields an
/// identical pixel-for-pixel result.
pub proof fn lemma_quantization_idempotent_image(
    pal: Seq<(Seq<char>, (u8, u8, u8))>,
    colors: Seq<(u8, u8, u8)>,
)
    requires
        pal.len() > 0,
    ensures
        Seq::new(
            colors.len(),
            |i: int| quantized_color(pal, quantized_color(pal, colors[i])),
        ) == Seq::new(colors.len(), |i: int| quantized_color(pal, colors[i])),
{
    assert forall|i: int| 0 <= i < colors.len() implies quantized_color(
        pal,
        quantized_color(pal, #[trigger] colors[i]),
    ) == quantized_color(pal, colors[i]) by {
        lemma_quantize_idempotent(pal, colors[i]);
    }
    assert(Seq::new(
        colors.len(),
        |i: int| quantized_color(pal, quantized_color(pal, colors[i])),
    ) =~= Seq::new(colors.len(), |i: int| quantized_color(pal, colors[i])));
}

} // verus!
