//! The document model: a JSON-shaped tree the composer works on. Fields
//! the composer never touches pass through it unchanged; numbers that come
//! from an existing document are carried opaquely.

use vstd::prelude::*;

verus! {

/// The number type of the JSON crate, carried through opaquely: the
/// composer never reads one, it only preserves them.
#[verifier::external_type_specification]
#[verifier::external_body]
pub struct ExNumber(serde_json::Number);

/// One JSON value. The composer writes only `Bool`, `UInt`, `Str`, `Arr`
/// and `Obj`; `Num` and `Null` exist so that a loaded document loses
/// nothing on its way through.
pub enum Json {
    Null,
    Bool(bool),
    UInt(u64),
    Num(serde_json::Number),
    Str(String),
    Arr(Vec<Json>),
    Obj(Vec<(String, Json)>),
}

/// The mathematical shape of a JSON value.
pub enum JsonV {
    Null,
    Bool(bool),
    UInt(u64),
    Num(serde_json::Number),
    Str(Seq<char>),
    Arr(Seq<JsonV>),
    Obj(Seq<(Seq<char>, JsonV)>),
}

/// The view of a JSON value, structure for structure.
pub open spec fn json_view(j: Json) -> JsonV
    decreases j,
{
    match j {
        Json::Null => JsonV::Null,
        Json::Bool(b) => JsonV::Bool(b),
        Json::UInt(n) => JsonV::UInt(n),
        Json::Num(n) => JsonV::Num(n),
        Json::Str(s) => JsonV::Str(s@),
        Json::Arr(a) => JsonV::Arr(
            Seq::new(
                a@.len(),
                |i: int|
                    if 0 <= i < a@.len() {
                        json_view(a@[i])
                    } else {
                        JsonV::Null
                    },
            ),
        ),
        Json::Obj(o) => JsonV::Obj(
            Seq::new(
                o@.len(),
                |i: int|
                    if 0 <= i < o@.len() {
                        (o@[i].0@, json_view(o@[i].1))
                    } else {
                        (Seq::empty(), JsonV::Null)
                    },
            ),
        ),
    }
}

impl View for Json {
    type V = JsonV;

    open spec fn view(&self) -> JsonV {
        json_view(*self)
    }
}

impl DeepView for Json {
    type V = JsonV;

    open spec fn deep_view(&self) -> JsonV {
        json_view(*self)
    }
}

/// The position of the first field named `k`, or `-1` when there is none.
pub open spec fn key_at(fs: Seq<(Seq<char>, JsonV)>, k: Seq<char>) -> int
    decreases fs.len(),
{
    if fs.len() == 0 {
        -1
    } else if fs[0].0 == k {
        0
    } else if key_at(fs.skip(1), k) < 0 {
        -1
    } else {
        1 + key_at(fs.skip(1), k)
    }
}

/// `key_at` really is the first position bearing the key.
pub proof fn lemma_key_at(fs: Seq<(Seq<char>, JsonV)>, k: Seq<char>)
    ensures
        key_at(fs, k) >= 0 ==> 0 <= key_at(fs, k) < fs.len() && fs[key_at(fs, k)].0 == k && (
        forall|j: int| 0 <= j < key_at(fs, k) ==> (#[trigger] fs[j]).0 != k),
        key_at(fs, k) < 0 ==> forall|j: int| 0 <= j < fs.len() ==> (#[trigger] fs[j]).0 != k,
    decreases fs.len(),
{
    if fs.len() > 0 && fs[0].0 != k {
        lemma_key_at(fs.skip(1), k);
        if key_at(fs, k) >= 0 {
            assert forall|j: int| 0 <= j < key_at(fs, k) implies (#[trigger] fs[j]).0 != k by {
                if j > 0 {
                    assert(fs.skip(1)[j - 1] == fs[j]);
                }
            }
        } else {
            assert forall|j: int| 0 <= j < fs.len() implies (#[trigger] fs[j]).0 != k by {
                if j > 0 {
                    assert(fs.skip(1)[j - 1] == fs[j]);
                }
            }
        }
    }
}

/// Replaces the value of the first field named `k`, or appends the field
/// when the document lacks it.
pub open spec fn upsert(fs: Seq<(Seq<char>, JsonV)>, k: Seq<char>, v: JsonV) -> Seq<
    (Seq<char>, JsonV),
> {
    if key_at(fs, k) >= 0 {
        fs.update(key_at(fs, k), (k, v))
    } else {
        fs.push((k, v))
    }
}

/// Compares two string slices character by character.
pub fn str_eq(a: &str, b: &str) -> (r: bool)
    ensures
        r == (a@ == b@),
{
    let n = a.unicode_len();
    let m = b.unicode_len();
    if n != m {
        return false;
    }
    let mut i: usize = 0;
    while i < n
        invariant
            0 <= i <= n,
            n == a@.len(),
            n == b@.len(),
            forall|j: int| 0 <= j < i ==> a@[j] == b@[j],
        decreases n - i,
    {
        if a.get_char(i) != b.get_char(i) {
            return false;
        }
        i = i + 1;
    }
    proof {
        assert(a@ =~= b@);
    }
    true
}

/// Finds the first field named `key`, handing its position back.
pub fn field_index(fs: &Vec<(String, Json)>, key: &str) -> (r: Option<usize>)
    ensures
        r is Some <==> key_at(fs.deep_view(), key@) >= 0,
        r is Some ==> r->0 as int == key_at(fs.deep_view(), key@),
    {
    let ghost fv = fs.deep_view();
    proof {
        lemma_key_at(fv, key@);
    }
    let mut i: usize = 0;
    while i < fs.len()
        invariant
            0 <= i <= fs@.len(),
            fv == fs.deep_view(),
            forall|j: int| 0 <= j < i ==> (#[trigger] fv[j]).0 != key@,
            key_at(fv, key@) >= 0 ==> 0 <= key_at(fv, key@) < fv.len() && fv[key_at(
                fv,
                key@,
            )].0 == key@ && (forall|j: int|
                0 <= j < key_at(fv, key@) ==> (#[trigger] fv[j]).0 != key@),
            key_at(fv, key@) < 0 ==> forall|j: int|
                0 <= j < fv.len() ==> (#[trigger] fv[j]).0 != key@,
        decreases fs@.len() - i,
    {
        if str_eq(fs[i].0.as_str(), key) {
            proof {
                assert(fv[i as int].0 == fs@[i as int].0@);
                assert(fv[i as int].0 == key@);
            }
            return Some(i);
        }
        proof {
            assert(fv[i as int].0 == fs@[i as int].0@);
        }
        i = i + 1;
    }
    None
}

/// Replaces the first field named `key` with `(key, val)`, or appends it
/// when absent.
pub fn set_field(fs: &mut Vec<(String, Json)>, key: &str, val: Json)
    ensures
        final(fs).deep_view() == upsert(old(fs).deep_view(), key@, val@),
{
    let ghost fv = old(fs).deep_view();
    proof {
        lemma_key_at(fv, key@);
        assert(fv.len() == old(fs)@.len());
    }
    let k = field_index(fs, key);
    let owned: String = key.to_owned();
    match k {
        Some(i) => {
            let _ = fs.remove(i);
            fs.insert(i, (owned, val));
            proof {
                assert(fs.deep_view() =~= fv.update(key_at(fv, key@), (key@, val@)));
            }
        },
        None => {
            fs.push((owned, val));
            proof {
                assert(fs.deep_view() =~= fv.push((key@, val@)));
            }
        },
    }
}

/// Builds a JSON array of unsigned numbers from run tile indices.
pub fn arr_from_usizes(xs: &Vec<usize>) -> (j: Json)
    ensures
        j@ == JsonV::Arr(Seq::new(xs@.len(), |i: int| JsonV::UInt(xs@[i] as u64))),
{
    let mut out: Vec<Json> = Vec::new();
    let mut i: usize = 0;
    while i < xs.len()
        invariant
            0 <= i <= xs@.len(),
            out@.len() == i,
            forall|k: int|
                0 <= k < i ==> json_view(#[trigger] out@[k]) == JsonV::UInt(xs@[k] as u64),
        decreases xs@.len() - i,
    {
        out.push(Json::UInt(xs[i] as u64));
        i = i + 1;
    }
    let j = Json::Arr(out);
    proof {
        assert(j@->Arr_0 =~= Seq::new(xs@.len(), |i: int| JsonV::UInt(xs@[i] as u64)));
    }
    j
}

/// Builds a JSON array of unsigned numbers from run lengths or indices.
pub fn arr_from_u32s(xs: &Vec<u32>) -> (j: Json)
    ensures
        j@ == JsonV::Arr(Seq::new(xs@.len(), |i: int| JsonV::UInt(xs@[i] as u64))),
{
    let mut out: Vec<Json> = Vec::new();
    let mut i: usize = 0;
    while i < xs.len()
        invariant
            0 <= i <= xs@.len(),
            out@.len() == i,
            forall|k: int|
                0 <= k < i ==> json_view(#[trigger] out@[k]) == JsonV::UInt(xs@[k] as u64),
        decreases xs@.len() - i,
    {
        out.push(Json::UInt(xs[i] as u64));
        i = i + 1;
    }
    let j = Json::Arr(out);
    proof {
        assert(j@->Arr_0 =~= Seq::new(xs@.len(), |i: int| JsonV::UInt(xs@[i] as u64)));
    }
    j
}

} // verus!
