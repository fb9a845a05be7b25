//! The document composer: appends newly-observed tile ids to `tileMap`,
//! overwrites the grid fields, appends world-law records, and records the
//! frozen-tile overlay. Everything else in the document passes through
//! unchanged.

use vstd::prelude::*;
use crate::img::Image;
use crate::jsondoc::{
    Json,
    JsonV,
    json_view,
    key_at,
    lemma_key_at,
    upsert,
    field_index,
    str_eq,
};
use crate::palette::first_space;

verus! {

/// The characters `str::trim` removes: the Unicode white-space set.
pub open spec fn is_ws(c: char) -> bool {
    c == ' ' || c == '\t' || c == '\n' || c == '\r' || c == '\u{0B}' || c == '\u{0C}' || c
        == '\u{85}' || c == '\u{A0}' || c == '\u{1680}' || ('\u{2000}' <= c && c <= '\u{200A}')
        || c == '\u{2028}' || c == '\u{2029}' || c == '\u{202F}' || c == '\u{205F}' || c
        == '\u{3000}'
}

/// `s` without its leading white space.
pub open spec fn trim_front(s: Seq<char>) -> Seq<char>
    decreases s.len(),
{
    if s.len() > 0 && is_ws(s[0]) {
        trim_front(s.skip(1))
    } else {
        s
    }
}

/// `s` without its trailing white space.
pub open spec fn trim_back(s: Seq<char>) -> Seq<char>
    decreases s.len(),
{
    if s.len() > 0 && is_ws(s.last()) {
        trim_back(s.drop_last())
    } else {
        s
    }
}

/// `s` without white space on either end.
pub open spec fn trimmed(s: Seq<char>) -> Seq<char> {
    trim_back(trim_front(s))
}

/// Exec test for the white-space set.
fn ws_char(c: char) -> (r: bool)
    ensures
        r == is_ws(c),
{
    c == ' ' || c == '\t' || c == '\n' || c == '\r' || c == '\u{0B}' || c == '\u{0C}' || c
        == '\u{85}' || c == '\u{A0}' || c == '\u{1680}' || ('\u{2000}' <= c && c <= '\u{200A}')
        || c == '\u{2028}' || c == '\u{2029}' || c == '\u{202F}' || c == '\u{205F}' || c
        == '\u{3000}'
}

/// Trims white space from both ends of a string.
pub fn trim_str(s: &str) -> (r: String)
    ensures
        r@ == trimmed(s@),
{
    let n = s.unicode_len();
    let mut a: usize = 0;
    proof {
        assert(s@.skip(0) =~= s@);
    }
    while a < n && ws_char(s.get_char(a))
        invariant
            0 <= a <= n,
            n == s@.len(),
            trim_front(s@) == trim_front(s@.skip(a as int)),
        decreases n - a,
    {
        proof {
            assert(s@.skip(a as int).skip(1) =~= s@.skip(a as int + 1));
        }
        a = a + 1;
    }
    let ghost sub = s@.skip(a as int);
    proof {
        assert(trim_front(s@) == sub);
    }
    let mut b: usize = n;
    proof {
        assert(sub.take(n - a) =~= sub);
    }
    while b > a && ws_char(s.get_char(b - 1))
        invariant
            a <= b <= n,
            n == s@.len(),
            sub == s@.skip(a as int),
            trim_back(sub) == trim_back(sub.take(b - a)),
        decreases b,
    {
        proof {
            assert(sub.take(b - a).drop_last() =~= sub.take(b - 1 - a));
            assert(sub.take(b - a).last() == s@[b - 1]);
        }
        b = b - 1;
    }
    proof {
        if b > a {
            assert(sub.take(b - a).last() == s@[b - 1]);
        }
        assert(trim_back(sub.take(b - a)) == sub.take(b - a));
    }
    let piece = s.substring_char(a, b);
    proof {
        assert(piece@ =~= sub.take(b - a));
    }
    String::from_str(piece)
}

/// The ASCII lower-case fold of one character.
pub open spec fn lower_ascii(c: char) -> char {
    if 'A' <= c && c <= 'Z' {
        (((c as u8) + 32) as char)
    } else {
        c
    }
}

/// Case-insensitive ASCII equality of two character sequences.
pub open spec fn eq_icase(a: Seq<char>, b: Seq<char>) -> bool {
    a.len() == b.len() && (forall|i: int|
        0 <= i < a.len() ==> lower_ascii(#[trigger] a[i]) == lower_ascii(b[i]))
}

/// Compares two strings ignoring ASCII case.
pub fn eq_ignore_case(a: &str, b: &str) -> (r: bool)
    ensures
        r == eq_icase(a@, b@),
{
    let n = a.unicode_len();
    let m = b.unicode_len();
    if n != m {
        return false;
    }
    let mut i: usize = 0;
    while i < n
        invariant
            0 <= i <= n,
            n == a@.len(),
            n == b@.len(),
            forall|j: int| 0 <= j < i ==> lower_ascii(#[trigger] a@[j]) == lower_ascii(b@[j]),
        decreases n - i,
    {
        let ca = a.get_char(i);
        let cb = b.get_char(i);
        let la = if ca >= 'A' && ca <= 'Z' {
            ((ca as u8) + 32) as char
        } else {
            ca
        };
        let lb = if cb >= 'A' && cb <= 'Z' {
            ((cb as u8) + 32) as char
        } else {
            cb
        };
        if la != lb {
            return false;
        }
        i = i + 1;
    }
    true
}

/// The record one world-law line yields: split at the first space, the
/// trimmed left part is the name; a token reading `"true"` in any case
/// yields a bare `{name}` record, any other token an explicit
/// `{name, boolVal: false}`. A line without a space yields nothing.
pub open spec fn law_record(line: Seq<char>) -> Option<JsonV> {
    let k = first_space(line);
    if k < 0 {
        None
    } else {
        let name = trimmed(line.take(k));
        let tok = trimmed(line.skip(k + 1));
        if eq_icase(tok, "true"@) {
            Some(JsonV::Obj(seq![("name"@, JsonV::Str(name))]))
        } else {
            Some(
                JsonV::Obj(seq![("name"@, JsonV::Str(name)), ("boolVal"@, JsonV::Bool(false))]),
            )
        }
    }
}

/// The records a world-laws file yields, skipping lines without a space.
pub open spec fn law_records(lines: Seq<Seq<char>>) -> Seq<JsonV>
    decreases lines.len(),
{
    if lines.len() == 0 {
        Seq::empty()
    } else {
        law_records(lines.drop_last()) + match law_record(lines.last()) {
            Some(r) => seq![r],
            None => Seq::empty(),
        }
    }
}

/// Parses the world-laws lines into their JSON records.
pub fn parse_law_lines(lines: &Vec<String>) -> (r: Vec<Json>)
    ensures
        Seq::new(r@.len(), |i: int| json_view(r@[i])) == law_records(lines.deep_view()),
{
    let mut out: Vec<Json> = Vec::new();
    let mut i: usize = 0;
    proof {
        assert(lines.deep_view().take(0) =~= Seq::<Seq<char>>::empty());
        assert(Seq::new(0, |k: int| json_view(out@[k])) =~= law_records(
            lines.deep_view().take(0),
        ));
    }
    while i < lines.len()
        invariant
            0 <= i <= lines@.len(),
            Seq::new(out@.len(), |k: int| json_view(out@[k])) =~= law_records(
                lines.deep_view().take(i as int),
            ),
        decreases lines@.len() - i,
    {
        let ghost lv = lines.deep_view();
        proof {
            assert(lv.take(i + 1).drop_last() =~= lv.take(i as int));
            assert(lv.take(i + 1).last() == lv[i as int]);
            assert(lv[i as int] == lines@[i as int]@);
        }
        let line = &lines[i];
        match crate::palette::split_at_space(line.as_str()) {
            None => {},
            Some((left, right)) => {
                let name = trim_str(left.as_str());
                let tok = trim_str(right.as_str());
                let ghost nv = name@;
                let ghost before = out@;
                let is_true = eq_ignore_case(tok.as_str(), "true");
                proof {
                    let k = first_space(lv[i as int]);
                    assert(k >= 0);
                    assert(nv == trimmed(lv[i as int].take(k)));
                    assert(tok@ == trimmed(lv[i as int].skip(k + 1)));
                    assert(is_true == eq_icase(trimmed(lv[i as int].skip(k + 1)), "true"@));
                }
                let mut fields: Vec<(String, Json)> = Vec::new();
                fields.push((String::from_str("name"), Json::Str(name)));
                if !is_true {
                    fields.push((String::from_str("boolVal"), Json::Bool(false)));
                }
                let rec = Json::Obj(fields);
                proof {
                    reveal_with_fuel(json_view, 3);
                    assert(json_view(rec) == law_record(lv[i as int])->0) by {
                        reveal_with_fuel(json_view, 3);
                        assert(json_view(rec)->Obj_0 =~= law_record(lv[i as int])->0->Obj_0);
                    }
                }
                out.push(rec);
                proof {
                    assert(Seq::new(out@.len(), |k: int| json_view(out@[k])) =~= Seq::new(
                        before.len(),
                        |k: int| json_view(before[k]),
                    ).push(json_view(rec)));
                }
            },
        }
        proof {
            assert(Seq::new(out@.len(), |k: int| json_view(out@[k])) =~= law_records(
                lines.deep_view().take(i + 1),
            ));
        }
        i = i + 1;
    }
    proof {
        assert(lines.deep_view().take(lines@.len() as int) =~= lines.deep_view());
    }
    out
}

/// JSON strings for a list of tile ids.
pub open spec fn strs_of(ids: Seq<Seq<char>>) -> Seq<JsonV> {
    Seq::new(ids.len(), |i: int| JsonV::Str(ids[i]))
}

/// Whether the document holds a `tileMap` field that is an array.
pub open spec fn tile_map_present(fv: Seq<(Seq<char>, JsonV)>) -> bool {
    let k = key_at(fv, "tileMap"@);
    k >= 0 && fv[k].1 is Arr
}

/// Of `ids`, those not already among `existing`, in order: duplicates of
/// ids the tile map already holds are suppressed.
pub open spec fn missing_ids(existing: Seq<Seq<char>>, ids: Seq<Seq<char>>) -> Seq<Seq<char>>
    decreases ids.len(),
{
    if ids.len() == 0 {
        Seq::empty()
    } else {
        missing_ids(existing, ids.drop_last()) + if existing.contains(ids.last()) {
            Seq::empty()
        } else {
            seq![ids.last()]
        }
    }
}

/// Every id is either already among the existing ones or kept by
/// `missing_ids`: nothing is lost by the suppression.
pub proof fn lemma_missing_ids_contains(existing: Seq<Seq<char>>, ids: Seq<Seq<char>>)
    ensures
        forall|x: Seq<char>|
            ids.contains(x) ==> existing.contains(x) || missing_ids(existing, ids).contains(x),
    decreases ids.len(),
{
    if ids.len() > 0 {
        lemma_missing_ids_contains(existing, ids.drop_last());
        let m = missing_ids(existing, ids);
        let mp = missing_ids(existing, ids.drop_last());
        assert forall|x: Seq<char>| ids.contains(x) implies existing.contains(x) || m.contains(
            x,
        ) by {
            let i = choose|i: int| 0 <= i < ids.len() && ids[i] == x;
            if i < ids.len() - 1 {
                assert(ids.drop_last()[i] == x);
                assert(ids.drop_last().contains(x));
                if !existing.contains(x) {
                    let t = choose|t: int| 0 <= t < mp.len() && mp[t] == x;
                    assert(m[t] == x);
                    assert(m.contains(x));
                }
            } else {
                if !existing.contains(x) {
                    assert(m[m.len() - 1] == x);
                    assert(m.contains(x));
                }
            }
        }
    }
}

/// The document with the newly-observed ids appended to its `tileMap`
/// array: pre-existing entries stay in place, and an id the array already
/// holds is not appended again.
pub open spec fn with_tile_ids(fv: Seq<(Seq<char>, JsonV)>, ids: Seq<Seq<char>>) -> Seq<
    (Seq<char>, JsonV),
> {
    let k = key_at(fv, "tileMap"@);
    let arr = fv[k].1->Arr_0;
    fv.update(k, (fv[k].0, JsonV::Arr(arr + strs_of(missing_ids(strings_of(arr), ids)))))
}

/// Appends the newly-observed tile ids to the document's `tileMap` array,
/// skipping any id the array already holds as a string. When the document
/// holds no such array it is left untouched and `false` comes back: a
/// missing `tileMap` marks a malformed input document, to be warned about
/// rather than papered over.
pub fn append_tile_ids(fs: &mut Vec<(String, Json)>, new_ids: &Vec<String>) -> (found: bool)
    ensures
        found <==> tile_map_present(old(fs).deep_view()),
        found ==> final(fs).deep_view() == with_tile_ids(
            old(fs).deep_view(),
            new_ids.deep_view(),
        ),
        !found ==> final(fs).deep_view() == old(fs).deep_view(),
{
    let ghost fv = old(fs).deep_view();
    let ghost nids = new_ids.deep_view();
    proof {
        lemma_key_at(fv, "tileMap"@);
        assert(fv.len() == old(fs)@.len());
    }
    let idx = field_index(fs, "tileMap");
    match idx {
        None => false,
        Some(i) => {
            let (key, val) = fs.remove(i);
            match val {
                Json::Arr(mut a) => {
                    let ghost a0 = a@;
                    let ghost av0 = Seq::new(a0.len(), |t: int| json_view(a0[t]));
                    proof {
                        assert(json_view(Json::Arr(a))->Arr_0 =~= av0);
                        assert(fv[i as int].1->Arr_0 == av0);
                        assert(av0.take(0) =~= Seq::<JsonV>::empty());
                    }
                    // the strings the array already holds, in order
                    let mut existing: Vec<String> = Vec::new();
                    let mut p: usize = 0;
                    proof {
                        assert(existing.deep_view() =~= strings_of(av0.take(0)));
                    }
                    while p < a.len()
                        invariant
                            0 <= p <= a@.len(),
                            a@ == a0,
                            av0 == Seq::new(a0.len(), |t: int| json_view(a0[t])),
                            existing.deep_view() =~= strings_of(av0.take(p as int)),
                        decreases a@.len() - p,
                    {
                        proof {
                            assert(av0.take(p + 1).drop_last() =~= av0.take(p as int));
                            assert(av0.take(p + 1).last() == av0[p as int]);
                        }
                        match &a[p] {
                            Json::Str(s) => {
                                let ghost eb = existing.deep_view();
                                existing.push(s.clone());
                                proof {
                                    assert(existing.deep_view() =~= eb.push(s@));
                                }
                            },
                            _ => {},
                        }
                        proof {
                            assert(existing.deep_view() =~= strings_of(av0.take(p + 1)));
                        }
                        p = p + 1;
                    }
                    let ghost ex = strings_of(av0);
                    proof {
                        assert(av0.take(a0.len() as int) =~= av0);
                        assert(existing.deep_view() == ex);
                    }
                    let mut j: usize = 0;
                    while j < new_ids.len()
                        invariant
                            0 <= j <= new_ids@.len(),
                            nids == new_ids.deep_view(),
                            ex == existing.deep_view(),
                            a@.len() == a0.len() + missing_ids(ex, nids.take(j as int)).len(),
                            forall|t: int| 0 <= t < a0.len() ==> a@[t] == a0[t],
                            Seq::new(
                                (a@.len() - a0.len()) as nat,
                                |t: int| json_view(a@[a0.len() + t]),
                            ) =~= strs_of(missing_ids(ex, nids.take(j as int))),
                        decreases new_ids@.len() - j,
                    {
                        let id = &new_ids[j];
                        proof {
                            assert(nids[j as int] == id@);
                            assert(nids.take(j + 1).drop_last() =~= nids.take(j as int));
                            assert(nids.take(j + 1).last() == id@);
                        }
                        let mut seen = false;
                        let mut k: usize = 0;
                        while k < existing.len()
                            invariant
                                0 <= k <= existing@.len(),
                                ex == existing.deep_view(),
                                seen <==> exists|t: int| 0 <= t < k && ex[t] == id@,
                            decreases existing@.len() - k,
                        {
                            if str_eq(existing[k].as_str(), id.as_str()) {
                                proof {
                                    assert(ex[k as int] == id@);
                                }
                                seen = true;
                            }
                            k = k + 1;
                        }
                        proof {
                            assert(seen <==> ex.contains(id@));
                        }
                        if !seen {
                            let ghost ab = a@;
                            a.push(Json::Str(id.clone()));
                            proof {
                                assert(Seq::new(
                                    (a@.len() - a0.len()) as nat,
                                    |t: int| json_view(a@[a0.len() + t]),
                                ) =~= Seq::new(
                                    (ab.len() - a0.len()) as nat,
                                    |t: int| json_view(ab[a0.len() + t]),
                                ).push(JsonV::Str(id@)));
                            }
                        }
                        proof {
                            assert(Seq::new(
                                (a@.len() - a0.len()) as nat,
                                |t: int| json_view(a@[a0.len() + t]),
                            ) =~= strs_of(missing_ids(ex, nids.take(j + 1))));
                        }
                        j = j + 1;
                    }
                    proof {
                        assert(nids.take(new_ids@.len() as int) =~= nids);
                    }
                    fs.insert(i, (key, Json::Arr(a)));
                    proof {
                        let k = key_at(fv, "tileMap"@);
                        assert(json_view(Json::Arr(a))->Arr_0 =~= av0 + strs_of(
                            missing_ids(ex, nids),
                        ));
                        assert(fs.deep_view() =~= with_tile_ids(fv, nids));
                    }
                    true
                },
                other => {
                    fs.insert(i, (key, other));
                    proof {
                        assert(fs.deep_view() =~= fv);
                    }
                    false
                },
            }
        },
    }
}

/// The strings among the elements of a JSON array, in order: how the known
/// tile id list is read back out of `tileMap`.
pub open spec fn strings_of(a: Seq<JsonV>) -> Seq<Seq<char>>
    decreases a.len(),
{
    if a.len() == 0 {
        Seq::empty()
    } else {
        strings_of(a.drop_last()) + if a.last() is Str {
            seq![a.last()->Str_0]
        } else {
            Seq::empty()
        }
    }
}

/// Reads the known tile ids out of the document's `tileMap` array,
/// keeping the string entries only. `None` when the document holds no
/// such array.
pub fn read_tile_map(fs: &Vec<(String, Json)>) -> (r: Option<Vec<String>>)
    ensures
        r is Some <==> tile_map_present(fs.deep_view()),
        r is Some ==> (r->0).deep_view() == strings_of(
            fs.deep_view()[key_at(fs.deep_view(), "tileMap"@)].1->Arr_0,
        ),
{
    let ghost fv = fs.deep_view();
    proof {
        lemma_key_at(fv, "tileMap"@);
        assert(fv.len() == fs@.len());
    }
    let idx = field_index(fs, "tileMap");
    match idx {
        None => None,
        Some(i) => {
            match &fs[i].1 {
                Json::Arr(a) => {
                    let ghost av = json_view(fs@[i as int].1)->Arr_0;
                    proof {
                        assert(av.len() == a@.len());
                        assert(forall|t: int|
                            0 <= t < a@.len() ==> av[t] == json_view(#[trigger] a@[t]));
                        assert(av.take(0) =~= Seq::<JsonV>::empty());
                    }
                    let mut out: Vec<String> = Vec::new();
                    let mut j: usize = 0;
                    proof {
                        assert(out.deep_view() =~= strings_of(av.take(0)));
                    }
                    while j < a.len()
                        invariant
                            0 <= j <= a@.len(),
                            av.len() == a@.len(),
                            forall|t: int|
                                0 <= t < a@.len() ==> av[t] == json_view(#[trigger] a@[t]),
                            out.deep_view() =~= strings_of(av.take(j as int)),
                        decreases a@.len() - j,
                    {
                        proof {
                            assert(av.take(j + 1).drop_last() =~= av.take(j as int));
                            assert(av.take(j + 1).last() == av[j as int]);
                        }
                        match &a[j] {
                            Json::Str(s) => {
                                let ghost ob = out.deep_view();
                                out.push(s.clone());
                                proof {
                                    assert(out.deep_view() =~= ob.push(s@));
                                }
                            },
                            _ => {},
                        }
                        proof {
                            assert(out.deep_view() =~= strings_of(av.take(j + 1)));
                        }
                        j = j + 1;
                    }
                    proof {
                        assert(av.take(a@.len() as int) =~= av);
                    }
                    Some(out)
                },
                _ => None,
            }
        },
    }
}

/// The document with the law records appended to `worldLaws.list`. When
/// `worldLaws` is missing, or holds no `list` array, the whole field is
/// replaced by a fresh `{list: records}` object, as the original loader
/// did.
pub open spec fn with_laws(fv: Seq<(Seq<char>, JsonV)>, recs: Seq<JsonV>) -> Seq<
    (Seq<char>, JsonV),
> {
    let k = key_at(fv, "worldLaws"@);
    if k >= 0 && fv[k].1 is Obj && laws_list_ok(fv[k].1->Obj_0) {
        let inner = fv[k].1->Obj_0;
        let j = key_at(inner, "list"@);
        fv.update(
            k,
            (fv[k].0, JsonV::Obj(
                inner.update(j, (inner[j].0, JsonV::Arr(inner[j].1->Arr_0 + recs))),
            )),
        )
    } else {
        upsert(fv, "worldLaws"@, JsonV::Obj(seq![("list"@, JsonV::Arr(recs))]))
    }
}

/// Whether an object holds a `list` field that is an array.
pub open spec fn laws_list_ok(inner: Seq<(Seq<char>, JsonV)>) -> bool {
    let j = key_at(inner, "list"@);
    j >= 0 && inner[j].1 is Arr
}

/// Appends the law records to the document's `worldLaws.list` array,
/// creating or replacing `worldLaws` when it holds no such list.
pub fn append_world_laws(fs: &mut Vec<(String, Json)>, recs: Vec<Json>)
    ensures
        final(fs).deep_view() == with_laws(
            old(fs).deep_view(),
            Seq::new(recs@.len(), |i: int| json_view(recs@[i])),
        ),
{
    let ghost fv = old(fs).deep_view();
    let ghost rv = Seq::new(recs@.len(), |i: int| json_view(recs@[i]));
    proof {
        lemma_key_at(fv, "worldLaws"@);
        assert(fv.len() == old(fs)@.len());
    }
    let mut recs = recs;
    let idx = field_index(fs, "worldLaws");
    match idx {
        None => {
            let fresh = laws_object(recs);
            fs.push((String::from_str("worldLaws"), fresh));
            proof {
                assert(fs.deep_view() =~= with_laws(fv, rv));
            }
        },
        Some(i) => {
            let (key, val) = fs.remove(i);
            match val {
                Json::Obj(mut inner) => {
                    let ghost iv = inner.deep_view();
                    proof {
                        lemma_key_at(iv, "list"@);
                        assert(iv.len() == inner@.len());
                        assert(iv =~= json_view(Json::Obj(inner))->Obj_0);
                        assert(fv[i as int].1->Obj_0 == iv);
                    }
                    let lidx = field_index(&inner, "list");
                    let list_is_arr = match lidx {
                        Some(j) => matches!(&inner[j].1, Json::Arr(_)),
                        None => false,
                    };
                    if list_is_arr {
                        let j = lidx.unwrap();
                        let (lkey, lval) = inner.remove(j);
                        match lval {
                            Json::Arr(mut arr) => {
                                let ghost arr0 = json_view(Json::Arr(arr))->Arr_0;
                                arr.append(&mut recs);
                                proof {
                                    assert(json_view(Json::Arr(arr))->Arr_0 =~= arr0 + rv);
                                }
                                inner.insert(j, (lkey, Json::Arr(arr)));
                                fs.insert(i, (key, Json::Obj(inner)));
                                proof {
                                    let k = key_at(fv, "worldLaws"@);
                                    let jj = key_at(fv[k].1->Obj_0, "list"@);
                                    assert(json_view(fs@[i as int].1)->Obj_0 =~= fv[k].1
                                        ->Obj_0.update(
                                        jj,
                                        (fv[k].1->Obj_0[jj].0, JsonV::Arr(
                                            fv[k].1->Obj_0[jj].1->Arr_0 + rv,
                                        )),
                                    ));
                                    assert(fs.deep_view() =~= with_laws(fv, rv));
                                }
                            },
                            other => {
                                proof {
                                    assert(false);
                                }
                                inner.insert(j, (lkey, other));
                                fs.insert(i, (key, Json::Obj(inner)));
                            },
                        }
                    } else {
                        let fresh = laws_object(recs);
                        fs.insert(i, (key, fresh));
                        proof {
                            assert(fs.deep_view() =~= with_laws(fv, rv));
                        }
                    }
                },
                other => {
                    let fresh = laws_object(recs);
                    fs.insert(i, (key, fresh));
                    proof {
                        assert(fs.deep_view() =~= with_laws(fv, rv));
                    }
                },
            }
        },
    }
}

/// Builds the fresh `{list: records}` object.
fn laws_object(recs: Vec<Json>) -> (r: Json)
    ensures
        r@ == JsonV::Obj(
            seq![
                ("list"@, JsonV::Arr(Seq::new(recs@.len(), |i: int| json_view(recs@[i])))),
            ],
        ),
{
    let mut inner: Vec<(String, Json)> = Vec::new();
    inner.push((String::from_str("list"), Json::Arr(recs)));
    let r = Json::Obj(inner);
    proof {
        reveal_with_fuel(json_view, 3);
        assert(r@->Obj_0[0].1->Arr_0 =~= Seq::new(recs@.len(), |i: int| json_view(recs@[i])));
        assert(r@->Obj_0 =~~= seq![
            ("list"@, JsonV::Arr(Seq::new(recs@.len(), |i: int| json_view(recs@[i])))),
        ]);
    }
    r
}

/// The linear indices of the pure-white pixels of a buffer, in increasing
/// order. The index of the pixel at column `x`, row `y` of a freeze map of
/// width `w` is `y * w + x`.
pub open spec fn white_idx_seq(s: Seq<(u8, u8, u8)>) -> Seq<int>
    decreases s.len(),
{
    if s.len() == 0 {
        Seq::empty()
    } else {
        white_idx_seq(s.drop_last()) + if s.last() == (255u8, 255u8, 255u8) {
            seq![s.len() - 1]
        } else {
            Seq::empty()
        }
    }
}

/// How many pixels of a buffer are pure white.
pub open spec fn count_white(s: Seq<(u8, u8, u8)>) -> nat
    decreases s.len(),
{
    if s.len() == 0 {
        0
    } else {
        count_white(s.drop_last()) + if s.last() == (255u8, 255u8, 255u8) {
            1nat
        } else {
            0nat
        }
    }
}

/// As many frozen-tile indices come out as the freeze map has pure-white
/// pixels.
pub proof fn lemma_frozen_count(s: Seq<(u8, u8, u8)>)
    ensures
        white_idx_seq(s).len() == count_white(s),
    decreases s.len(),
{
    if s.len() > 0 {
        lemma_frozen_count(s.drop_last());
    }
}

/// Every emitted index points at a pure-white pixel, and every pure-white
/// pixel's index is emitted.
pub proof fn lemma_frozen_indices_exact(s: Seq<(u8, u8, u8)>)
    ensures
        forall|k: int|
            0 <= k < white_idx_seq(s).len() ==> 0 <= #[trigger] white_idx_seq(s)[k] < s.len()
                && s[white_idx_seq(s)[k]] == (255u8, 255u8, 255u8),
        forall|i: int|
            0 <= i < s.len() && s[i] == (255u8, 255u8, 255u8) ==> white_idx_seq(s).contains(i),
    decreases s.len(),
{
    if s.len() > 0 {
        lemma_frozen_indices_exact(s.drop_last());
        let w = white_idx_seq(s);
        let wp = white_idx_seq(s.drop_last());
        assert forall|k: int| 0 <= k < w.len() implies 0 <= #[trigger] w[k] < s.len() && s[w[k]]
            == (255u8, 255u8, 255u8) by {
            if k < wp.len() {
                assert(w[k] == wp[k]);
                assert(s.drop_last()[wp[k]] == s[wp[k]]);
            }
        }
        assert forall|i: int|
            0 <= i < s.len() && s[i] == (255u8, 255u8, 255u8) implies w.contains(i) by {
            if i < s.len() - 1 {
                assert(s.drop_last()[i] == s[i]);
                assert(wp.contains(i));
                let k = choose|k: int| 0 <= k < wp.len() && wp[k] == i;
                assert(w[k] == i);
            } else {
                assert(w[w.len() - 1] == i);
            }
        }
    }
}

/// Collects the linear index of every pure-white pixel of the freeze map,
/// top row first, left to right within a row.
pub fn frozen_indices(img: &Image) -> (r: Vec<u32>)
    requires
        img.wf(),
        img.width as int * img.height as int <= u32::MAX,
    ensures
        Seq::new(r@.len(), |i: int| r@[i] as int) == white_idx_seq(img.pixel_colors()),
{
    let dl: usize = img.data.len();
    let total: usize = dl / 3;
    let ghost pixels = img.pixel_colors();
    proof {
        assert(total * 3 <= img.data@.len()) by (nonlinear_arith)
            requires
                total == img.data@.len() / 3,
        ;
        assert(total <= u32::MAX) by (nonlinear_arith)
            requires
                total * 3 <= img.width as int * img.height as int * 3,
                img.width as int * img.height as int <= u32::MAX,
        ;
        assert(pixels.take(0) =~= Seq::<(u8, u8, u8)>::empty());
    }
    let mut out: Vec<u32> = Vec::new();
    let mut p: usize = 0;
    while p < total
        invariant
            0 <= p <= total,
            img.wf(),
            pixels == img.pixel_colors(),
            total * 3 <= img.data@.len() <= usize::MAX,
            total <= u32::MAX,
            total == pixels.len(),
            Seq::new(out@.len(), |i: int| out@[i] as int) =~= white_idx_seq(
                pixels.take(p as int),
            ),
        decreases total - p,
    {
        proof {
            assert(p * 3 + 3 <= total * 3);
            assert(pixels.take(p + 1).drop_last() =~= pixels.take(p as int));
        }
        let i: usize = p * 3;
        let c = (img.data[i], img.data[i + 1], img.data[i + 2]);
        proof {
            assert(c == pixels[p as int]);
            assert(pixels.take(p + 1).last() == c);
        }
        if c.0 == 255 && c.1 == 255 && c.2 == 255 {
            let ghost ob = out@;
            out.push(p as u32);
            proof {
                assert(Seq::new(out@.len(), |k: int| out@[k] as int) =~= Seq::new(
                    ob.len(),
                    |k: int| ob[k] as int,
                ).push(p as int));
            }
        }
        proof {
            assert(Seq::new(out@.len(), |k: int| out@[k] as int) =~= white_idx_seq(
                pixels.take(p + 1),
            ));
        }
        p = p + 1;
    }
    proof {
        assert(pixels.take(total as int) =~= pixels);
    }
    out
}

} // verus!
