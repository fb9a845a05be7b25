//! The palette: parsing of `"<id> #RRGGBB"` lines and nearest-color queries
//! over the loaded entries, by squared Euclidean distance in RGB space with
//! ties broken in favor of the entry loaded first.

use vstd::prelude::*;
use crate::MapError;

verus! {

/// True for the sixteen hexadecimal digit characters.
pub open spec fn is_hex_digit(c: char) -> bool {
    ('0' <= c && c <= '9') || ('a' <= c && c <= 'f') || ('A' <= c && c <= 'F')
}

/// The numeric value of a hexadecimal digit character.
pub open spec fn hex_digit_val(c: char) -> nat {
    if '0' <= c && c <= '9' {
        (c as nat - '0' as nat) as nat
    } else if 'a' <= c && c <= 'f' {
        (c as nat - 'a' as nat + 10) as nat
    } else if 'A' <= c && c <= 'F' {
        (c as nat - 'A' as nat + 10) as nat
    } else {
        0
    }
}

/// Strips every leading `'#'` from a character sequence.
pub open spec fn strip_hashes(s: Seq<char>) -> Seq<char>
    decreases s.len(),
{
    if s.len() > 0 && s[0] == '#' {
        strip_hashes(s.skip(1))
    } else {
        s
    }
}

/// Strips one leading `'+'`, as an unsigned decimal parser accepts.
pub open spec fn strip_plus(s: Seq<char>) -> Seq<char> {
    if s.len() > 0 && s[0] == '+' {
        s.skip(1)
    } else {
        s
    }
}

/// Whether every character of `s` is a hexadecimal digit.
pub open spec fn all_hex(s: Seq<char>) -> bool {
    forall|i: int| 0 <= i < s.len() ==> is_hex_digit(#[trigger] s[i])
}

/// The unbounded value of a sequence of hexadecimal digits.
pub open spec fn hex_value(s: Seq<char>) -> nat
    decreases s.len(),
{
    if s.len() == 0 {
        0
    } else {
        hex_value(s.drop_last()) * 16 + hex_digit_val(s.last())
    }
}

/// What parsing a hex color string yields: leading `'#'` marks are stripped,
/// an optional `'+'` sign is accepted, the digits must form a value that fits
/// in 32 bits, and the low three bytes become red, green and blue.
pub open spec fn spec_hex_to_rgb(s: Seq<char>) -> Option<(u8, u8, u8)> {
    let d = strip_plus(strip_hashes(s));
    if d.len() > 0 && all_hex(d) && hex_value(d) <= u32::MAX {
        let c = hex_value(d) as u32;
        Some((((c >> 16) & 0xff) as u8, ((c >> 8) & 0xff) as u8, (c & 0xff) as u8))
    } else {
        None
    }
}

proof fn lemma_hex_value_extend_ge(s: Seq<char>, n: int)
    requires
        0 <= n <= s.len(),
    ensures
        hex_value(s) >= hex_value(s.take(n)),
    decreases s.len() - n,
{
    if n < s.len() {
        assert(s.take(n + 1).drop_last() =~= s.take(n));
        assert(hex_value(s.take(n + 1)) == hex_value(s.take(n)) * 16 + hex_digit_val(s.take(
            n + 1,
        ).last()));
        assert(hex_value(s.take(n)) * 16 >= hex_value(s.take(n))) by (nonlinear_arith);
        lemma_hex_value_extend_ge(s, n + 1);
        assert(s.take(s.len() as int) =~= s);
    } else {
        assert(s.take(n) =~= s);
    }
}

/// Exec test for a hexadecimal digit character.
fn hex_digit_of(c: char) -> (r: Option<u8>)
    ensures
        r is Some <==> is_hex_digit(c),
        r is Some ==> r->0 as nat == hex_digit_val(c),
{
    if '0' <= c && c <= '9' {
        Some((c as u8) - ('0' as u8))
    } else if 'a' <= c && c <= 'f' {
        Some((c as u8) - ('a' as u8) + 10)
    } else if 'A' <= c && c <= 'F' {
        Some((c as u8) - ('A' as u8) + 10)
    } else {
        None
    }
}

/// Parses a hex color string such as `"#FFA500"` into an RGB triple.
/// Leading `'#'` marks are tolerated; malformed input yields `None`.
pub fn hex_to_rgb(hex: &str) -> (r: Option<(u8, u8, u8)>)
    ensures
        r == spec_hex_to_rgb(hex@),
{
    let n = hex.unicode_len();
    let mut start: usize = 0;
    proof {
        assert(hex@.skip(0) =~= hex@);
    }
    while start < n && hex.get_char(start) == '#'
        invariant
            0 <= start <= n,
            n == hex@.len(),
            strip_hashes(hex@) == strip_hashes(hex@.skip(start as int)),
        decreases n - start,
    {
        proof {
            assert(hex@.skip(start as int).skip(1) =~= hex@.skip(start as int + 1));
        }
        start = start + 1;
    }
    proof {
        assert(strip_hashes(hex@.skip(start as int)) == hex@.skip(start as int));
    }
    let mut i: usize = start;
    if i < n && hex.get_char(i) == '+' {
        proof {
            assert(hex@.skip(start as int).skip(1) =~= hex@.skip(start as int + 1));
        }
        i = i + 1;
    }
    let ghost digits: Seq<char> = strip_plus(strip_hashes(hex@));
    proof {
        assert(digits =~= hex@.skip(i as int));
    }
    if i == n {
        // no digits at all
        return None;
    }
    let digit_start = i;
    let mut acc: u32 = 0;
    while i < n
        invariant
            digit_start <= i <= n,
            n == hex@.len(),
            digits == strip_plus(strip_hashes(hex@)),
            digits =~= hex@.skip(digit_start as int),
            all_hex(digits.take(i - digit_start)),
            acc as nat == hex_value(digits.take(i - digit_start)),
        decreases n - i,
    {
        let c = hex.get_char(i);
        proof {
            assert(digits[i - digit_start] == hex@[i as int]);
        }
        match hex_digit_of(c) {
            None => {
                proof {
                    assert(digits[i - digit_start] == c);
                    assert(!is_hex_digit(digits[i - digit_start]));
                    assert(!all_hex(digits));
                }
                return None;
            },
            Some(d) => {
                if acc > 0x0fff_ffff {
                    // the value no longer fits in 32 bits
                    proof {
                        let t = digits.take(i - digit_start + 1);
                        assert(t.drop_last() =~= digits.take(i - digit_start));
                        assert(t.last() == digits[i - digit_start]);
                        assert(hex_value(t) == acc as nat * 16 + hex_digit_val(c));
                        assert(acc as nat * 16 > u32::MAX) by (nonlinear_arith)
                            requires
                                acc as nat > 0x0fff_ffff,
                        ;
                        lemma_hex_value_extend_ge(digits, i - digit_start + 1);
                    }
                    return None;
                }
                proof {
                    let t = digits.take(i - digit_start + 1);
                    assert(t.drop_last() =~= digits.take(i - digit_start));
                    assert(t.last() == digits[i - digit_start]);
                }
                acc = acc * 16 + (d as u32);
                i = i + 1;
            },
        }
    }
    proof {
        assert(digits.take(n - digit_start) =~= digits);
        assert(digits.len() > 0);
        assert(((acc >> 16) & 0xff) < 256 && ((acc >> 8) & 0xff) < 256 && (acc & 0xff) < 256)
            by (bit_vector);
    }
    Some((((acc >> 16) & 0xff) as u8, ((acc >> 8) & 0xff) as u8, (acc & 0xff) as u8))
}

/// The position of the first space in `s`, or `-1` when there is none.
pub open spec fn first_space(s: Seq<char>) -> int
    decreases s.len(),
{
    if s.len() == 0 {
        -1
    } else if s[0] == ' ' {
        0
    } else if first_space(s.skip(1)) < 0 {
        -1
    } else {
        1 + first_space(s.skip(1))
    }
}

proof fn lemma_first_space(s: Seq<char>)
    ensures
        first_space(s) >= 0 ==> 0 <= first_space(s) < s.len() && s[first_space(s)] == ' '
            && (forall|j: int| 0 <= j < first_space(s) ==> s[j] != ' '),
        first_space(s) < 0 ==> forall|j: int| 0 <= j < s.len() ==> s[j] != ' ',
    decreases s.len(),
{
    if s.len() > 0 && s[0] != ' ' {
        lemma_first_space(s.skip(1));
        assert forall|j: int| 0 <= j < first_space(s) implies s[j] != ' ' by {
            if j > 0 {
                assert(s.skip(1)[j - 1] != ' ');
            }
        }
        if first_space(s) < 0 {
            assert forall|j: int| 0 <= j < s.len() implies s[j] != ' ' by {
                if j > 0 {
                    assert(s.skip(1)[j - 1] != ' ');
                }
            }
        }
    }
}

/// What one palette line yields: split at the first space, the part before
/// it is the id, the part after it must parse as a hex color. A line
/// without a space or with a malformed color yields nothing.
pub open spec fn parse_palette_line(s: Seq<char>) -> Option<(Seq<char>, (u8, u8, u8))> {
    let k = first_space(s);
    if k < 0 {
        None
    } else {
        match spec_hex_to_rgb(s.skip(k + 1)) {
            Some(c) => Some((s.take(k), c)),
            None => None,
        }
    }
}

/// The entries that a sequence of palette lines yields, malformed lines
/// skipped, order of the file kept.
pub open spec fn parsed_entries(lines: Seq<Seq<char>>) -> Seq<(Seq<char>, (u8, u8, u8))>
    decreases lines.len(),
{
    if lines.len() == 0 {
        Seq::empty()
    } else {
        parsed_entries(lines.drop_last()) + match parse_palette_line(lines.last()) {
            Some(e) => seq![e],
            None => Seq::empty(),
        }
    }
}

/// Splits a line at its first space into `(id, rest)`; `None` when the line
/// holds no space.
pub fn split_at_space(line: &str) -> (r: Option<(String, String)>)
    ensures
        r is Some <==> first_space(line@) >= 0,
        r is Some ==> (r->0).0@ == line@.take(first_space(line@)) && (r->0).1@ == line@.skip(
            first_space(line@) + 1,
        ),
{
    let n = line.unicode_len();
    let mut i: usize = 0;
    proof {
        lemma_first_space(line@);
    }
    while i < n && line.get_char(i) != ' '
        invariant
            0 <= i <= n,
            n == line@.len(),
            forall|j: int| 0 <= j < i ==> line@[j] != ' ',
            first_space(line@) >= 0 ==> 0 <= first_space(line@) < n && line@[first_space(
                line@,
            )] == ' ' && (forall|j: int| 0 <= j < first_space(line@) ==> line@[j] != ' '),
            first_space(line@) < 0 ==> forall|j: int| 0 <= j < n ==> line@[j] != ' ',
        decreases n - i,
    {
        i = i + 1;
    }
    if i == n {
        return None;
    }
    let id = line.substring_char(0, i);
    let rest = line.substring_char(i + 1, n);
    proof {
        assert(first_space(line@) == i as int);
        assert(line@.subrange(0, i as int) =~= line@.take(i as int));
        assert(line@.subrange(i as int + 1, n as int) =~= line@.skip(i as int + 1));
    }
    Some((String::from_str(id), String::from_str(rest)))
}

/// One palette entry: a tile id and the RGB color standing for it.
pub struct PaletteEntry {
    pub id: String,
    pub color: (u8, u8, u8),
}

impl View for PaletteEntry {
    type V = (Seq<char>, (u8, u8, u8));

    open spec fn view(&self) -> (Seq<char>, (u8, u8, u8)) {
        (self.id@, self.color)
    }
}

impl DeepView for PaletteEntry {
    type V = (Seq<char>, (u8, u8, u8));

    open spec fn deep_view(&self) -> (Seq<char>, (u8, u8, u8)) {
        (self.id@, self.color)
    }
}

/// The ordered palette with its nearest-color query. The load order of the
/// entries is kept: it breaks distance ties and numbers the entries.
pub struct PaletteIndex {
    pub entries: Vec<PaletteEntry>,
}

/// Squared Euclidean distance between two RGB colors.
pub open spec fn dist2(a: (u8, u8, u8), b: (u8, u8, u8)) -> int {
    (a.0 - b.0) * (a.0 - b.0) + (a.1 - b.1) * (a.1 - b.1) + (a.2 - b.2) * (a.2 - b.2)
}

/// The index of the entry nearest to `c`: the first index whose color
/// minimizes the squared Euclidean distance.
pub open spec fn nearest_idx(es: Seq<(Seq<char>, (u8, u8, u8))>, c: (u8, u8, u8)) -> int
    decreases es.len(),
{
    if es.len() <= 1 {
        0
    } else {
        let r = nearest_idx(es.drop_last(), c);
        if dist2(es.last().1, c) < dist2(es[r].1, c) {
            es.len() - 1
        } else {
            r
        }
    }
}

/// The nearest index really is a minimizer, and the first one: every entry
/// before it is strictly farther, every entry at all is no nearer. This is
/// the determinism promise for colors equidistant from two entries.
pub proof fn lemma_nearest_props(es: Seq<(Seq<char>, (u8, u8, u8))>, c: (u8, u8, u8))
    requires
        es.len() > 0,
    ensures
        0 <= nearest_idx(es, c) < es.len(),
        forall|j: int|
            0 <= j < es.len() ==> dist2(#[trigger] es[j].1, c) >= dist2(es[nearest_idx(es, c)].1, c),
        forall|j: int|
            0 <= j < nearest_idx(es, c) ==> dist2(#[trigger] es[j].1, c) > dist2(
                es[nearest_idx(es, c)].1,
                c,
            ),
    decreases es.len(),
{
    if es.len() > 1 {
        lemma_nearest_props(es.drop_last(), c);
        assert forall|j: int| 0 <= j < es.len() implies dist2(#[trigger] es[j].1, c) >= dist2(
            es[nearest_idx(es, c)].1,
            c,
        ) by {
            if j < es.len() - 1 {
                assert(es.drop_last()[j] == es[j]);
            }
        }
        assert forall|j: int| 0 <= j < nearest_idx(es, c) implies dist2(#[trigger] es[j].1, c)
            > dist2(es[nearest_idx(es, c)].1, c) by {
            if j < es.len() - 1 {
                assert(es.drop_last()[j] == es[j]);
            }
        }
    }
}

/// A zero squared distance means the colors are the same.
pub proof fn lemma_dist2_zero(a: (u8, u8, u8), b: (u8, u8, u8))
    ensures
        dist2(a, b) >= 0,
        dist2(a, b) == 0 ==> a == b,
{
    assert((a.0 - b.0) * (a.0 - b.0) >= 0) by (nonlinear_arith);
    assert((a.1 - b.1) * (a.1 - b.1) >= 0) by (nonlinear_arith);
    assert((a.2 - b.2) * (a.2 - b.2) >= 0) by (nonlinear_arith);
    if dist2(a, b) == 0 {
        assert(a.0 == b.0 && a.1 == b.1 && a.2 == b.2) by (nonlinear_arith)
            requires
                (a.0 - b.0) * (a.0 - b.0) + (a.1 - b.1) * (a.1 - b.1) + (a.2 - b.2) * (a.2 - b.2)
                    == 0,
                (a.0 - b.0) * (a.0 - b.0) >= 0,
                (a.1 - b.1) * (a.1 - b.1) >= 0,
                (a.2 - b.2) * (a.2 - b.2) >= 0,
        ;
    }
}

impl PaletteIndex {
    /// The view of the palette: the entries as `(id, color)` pairs in load
    /// order.
    pub open spec fn view(&self) -> Seq<(Seq<char>, (u8, u8, u8))> {
        self.entries.deep_view()
    }

    /// A loaded palette is never empty.
    pub open spec fn wf(&self) -> bool {
        self.entries.len() > 0
    }

    /// Loads the palette from the lines of a palette file. Malformed lines
    /// are skipped by design; a file yielding no entry at all is rejected,
    /// since a nearest query on an empty palette has no answer.
    pub fn load(lines: &Vec<String>) -> (r: Result<PaletteIndex, MapError>)
        ensures
            r is Ok <==> parsed_entries(lines.deep_view()).len() > 0,
            r is Ok ==> r->Ok_0@ == parsed_entries(lines.deep_view()) && r->Ok_0.wf(),
            r is Err ==> r->Err_0 is EmptyPalette,
    {
        let mut entries: Vec<PaletteEntry> = Vec::new();
        let mut i: usize = 0;
        proof {
            assert(lines.deep_view().take(0) =~= Seq::<Seq<char>>::empty());
        }
        while i < lines.len()
            invariant
                0 <= i <= lines.len(),
                entries.deep_view() == parsed_entries(lines.deep_view().take(i as int)),
            decreases lines.len() - i,
        {
            let line = &lines[i];
            proof {
                let lv = lines.deep_view();
                assert(lv.take(i + 1).drop_last() =~= lv.take(i as int));
                assert(lv.take(i + 1).last() == lv[i as int]);
                assert(lv[i as int] == line@);
            }
            match split_at_space(line.as_str()) {
                None => {},
                Some((id, hex)) => {
                    match hex_to_rgb(hex.as_str()) {
                        None => {},
                        Some(color) => {
                            let ghost before = entries.deep_view();
                            let ghost idv = id@;
                            entries.push(PaletteEntry { id, color });
                            proof {
                                assert(entries.deep_view() =~= before.push((idv, color)));
                            }
                        },
                    }
                },
            }
            proof {
                assert(entries.deep_view() =~= parsed_entries(
                    lines.deep_view().take(i + 1),
                ));
            }
            i = i + 1;
        }
        proof {
            assert(lines.deep_view().take(lines.len() as int) =~= lines.deep_view());
        }
        if entries.len() == 0 {
            Err(MapError::EmptyPalette)
        } else {
            Ok(PaletteIndex { entries })
        }
    }

    /// Returns the index of the palette entry nearest to `c` by squared
    /// Euclidean distance, the earliest-loaded entry on a tie.
    pub fn nearest(&self, c: (u8, u8, u8)) -> (i: usize)
        requires
            self.wf(),
        ensures
            i as int == nearest_idx(self@, c),
            i < self@.len(),
    {
        let mut best: usize = 0;
        let mut best_d: u32 = color_dist2(self.entries[0].color, c);
        let mut j: usize = 1;
        proof {
            assert(self@.take(1) =~= seq![self@[0]]);
        }
        while j < self.entries.len()
            invariant
                1 <= j <= self.entries.len(),
                self.entries.len() == self@.len(),
                best < j,
                forall|k: int| 0 <= k < self@.len() ==> self@[k] == (self.entries[k].id@,
                    self.entries[k].color),
                best as int == nearest_idx(self@.take(j as int), c),
                best_d as int == dist2(self@[best as int].1, c),
            decreases self.entries.len() - j,
        {
            let d = color_dist2(self.entries[j].color, c);
            proof {
                assert(self@.take(j + 1).drop_last() =~= self@.take(j as int));
                assert(self@.take(j + 1).last() == self@[j as int]);
            }
            if d < best_d {
                best = j;
                best_d = d;
            }
            j = j + 1;
        }
        proof {
            assert(self@.take(self@.len() as int) =~= self@);
        }
        best
    }
}

/// Computes the squared Euclidean distance between two colors exactly.
fn color_dist2(a: (u8, u8, u8), b: (u8, u8, u8)) -> (d: u32)
    ensures
        d as int == dist2(a, b),
{
    let dr: i32 = a.0 as i32 - b.0 as i32;
    let dg: i32 = a.1 as i32 - b.1 as i32;
    let db: i32 = a.2 as i32 - b.2 as i32;
    proof {
        assert(dr * dr >= 0 && dr * dr <= 255 * 255) by (nonlinear_arith)
            requires
                -255 <= dr <= 255,
        ;
        assert(dg * dg >= 0 && dg * dg <= 255 * 255) by (nonlinear_arith)
            requires
                -255 <= dg <= 255,
        ;
        assert(db * db >= 0 && db * db <= 255 * 255) by (nonlinear_arith)
            requires
                -255 <= db <= 255,
        ;
    }
    (dr * dr) as u32 + (dg * dg) as u32 + (db * db) as u32
}

} // verus!
