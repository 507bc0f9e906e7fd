//! The schema-inference engine: summarises the shape of a JSON value.
//! Scalars map to scalar schemas; an array's leading elements (up to a
//! sample bound) are inferred and folded together with `merge`; an
//! object's fields are inferred independently. Merging equal kinds
//! combines them; differing kinds form a union of type names.

use vstd::prelude::*;

use crate::num::{dec_digits, num_below, num_close};
use crate::text::lex_cmp;
use crate::transform::pieces_view;
use crate::value::{jv, jv_pairs, jv_seq, Json, Jv};

verus! {

/// The inferred schema of a JSON value.
#[derive(Debug, PartialEq)]
pub enum SchemaType {
    Null,
    Bool,
    Number { min: Option<String>, max: Option<String> },
    String { sample: Option<String> },
    Array { len_min: usize, len_max: usize, items: Box<SchemaType> },
    Object { fields: Vec<(String, FieldSchema)> },
    /// Multiple possible types, as sorted type names.
    Union(Vec<String>),
    /// Unknown / empty.
    Unknown,
}

/// A field in an object schema, with optionality information.
#[derive(Debug, PartialEq)]
pub struct FieldSchema {
    pub schema: SchemaType,
    pub optional: bool,
    pub count: usize,
}

/// The ghost shape of a schema.
pub enum SchemaV {
    Null,
    Bool,
    Number { min: Option<Seq<char>>, max: Option<Seq<char>> },
    Str { sample: Option<Seq<char>> },
    Arr { len_min: int, len_max: int, items: Box<SchemaV> },
    Obj { fields: Seq<(Seq<char>, FieldV)> },
    Union(Seq<Seq<char>>),
    Unknown,
}

/// The ghost shape of a field schema.
pub struct FieldV {
    pub schema: SchemaV,
    pub optional: bool,
    pub count: int,
}

pub open spec fn sv(s: SchemaType) -> SchemaV
    decreases s,
{
    match s {
        SchemaType::Null => SchemaV::Null,
        SchemaType::Bool => SchemaV::Bool,
        SchemaType::Number { min, max } => SchemaV::Number {
            min: match min {
                Some(t) => Some(t@),
                None => None,
            },
            max: match max {
                Some(t) => Some(t@),
                None => None,
            },
        },
        SchemaType::String { sample } => SchemaV::Str {
            sample: match sample {
                Some(t) => Some(t@),
                None => None,
            },
        },
        SchemaType::Array { len_min, len_max, items } => SchemaV::Arr {
            len_min: len_min as int,
            len_max: len_max as int,
            items: Box::new(sv(*items)),
        },
        SchemaType::Object { fields } => SchemaV::Obj { fields: sv_fields(fields@) },
        SchemaType::Union(ts) => SchemaV::Union(pieces_view(ts@)),
        SchemaType::Unknown => SchemaV::Unknown,
    }
}

pub open spec fn sv_fields(s: Seq<(String, FieldSchema)>) -> Seq<(Seq<char>, FieldV)>
    decreases s,
{
    if s.len() == 0 {
        Seq::empty()
    } else {
        sv_fields(s.drop_last()).push(
            (
                s.last().0@,
                FieldV {
                    schema: sv(s.last().1.schema),
                    optional: s.last().1.optional,
                    count: s.last().1.count as int,
                },
            ),
        )
    }
}

pub broadcast proof fn lemma_sv_fields(s: Seq<(String, FieldSchema)>)
    ensures
        (#[trigger] sv_fields(s)).len() == s.len(),
        forall|i: int|
            0 <= i < s.len() ==> sv_fields(s)[i] == (
                s[i].0@,
                FieldV {
                    schema: sv(s[i].1.schema),
                    optional: s[i].1.optional,
                    count: s[i].1.count as int,
                },
            ),
    decreases s.len(),
{
    if s.len() > 0 {
        lemma_sv_fields(s.drop_last());
    }
}

impl View for SchemaType {
    type V = SchemaV;

    open spec fn view(&self) -> SchemaV {
        sv(*self)
    }
}

impl View for FieldSchema {
    type V = FieldV;

    open spec fn view(&self) -> FieldV {
        FieldV { schema: sv(self.schema), optional: self.optional, count: self.count as int }
    }
}

// --- inference ---

/// The schema of one value: scalars carry their value (a number its
/// range, a string its first thirty characters as a sample); arrays fold
/// the schemas of up to `m` leading elements; objects record each field
/// once, not optional.
pub open spec fn infer(v: Jv, m: int) -> SchemaV
    decreases v, 1int, 0int,
{
    match v {
        Jv::Null => SchemaV::Null,
        Jv::Bool(_) => SchemaV::Bool,
        Jv::Num(t) => SchemaV::Number { min: Some(t), max: Some(t) },
        Jv::Str(s) => SchemaV::Str {
            sample: Some(
                if s.len() <= 30 {
                    s
                } else {
                    s.subrange(0, 30)
                },
            ),
        },
        Jv::Arr(a) => {
            if a.len() == 0 {
                SchemaV::Arr { len_min: 0, len_max: 0, items: Box::new(SchemaV::Unknown) }
            } else {
                let k = if m < a.len() {
                    m
                } else {
                    a.len() as int
                };
                let items = if k <= 0 {
                    SchemaV::Unknown
                } else {
                    infer_fold(a, m, k)
                };
                SchemaV::Arr {
                    len_min: a.len() as int,
                    len_max: a.len() as int,
                    items: Box::new(items),
                }
            }
        },
        Jv::Obj(ps) => SchemaV::Obj { fields: infer_fields(ps, m) },
    }
}

/// The fold of `merge` over the schemas of the first `k` elements.
pub open spec fn infer_fold(a: Seq<Jv>, m: int, k: int) -> SchemaV
    decreases a, 0int, k,
    via infer_fold_dec
{
    if a.len() == 0 {
        SchemaV::Unknown
    } else {
        let kk = if k > a.len() {
            a.len() as int
        } else {
            k
        };
        if kk <= 1 {
            infer(a[0], m)
        } else {
            merge(infer_fold(a, m, kk - 1), infer(a[kk - 1], m))
        }
    }
}

#[via_fn]
proof fn infer_fold_dec(a: Seq<Jv>, m: int, k: int) {
    if a.len() > 0 {
        let kk = if k > a.len() {
            a.len() as int
        } else {
            k
        };
        assert(decreases_to!(a => a[0]));
        if 1 < kk <= a.len() {
            assert(decreases_to!(a => a[kk - 1]));
        }
    }
}

/// Each object field inferred independently.
pub open spec fn infer_fields(ps: Seq<(Seq<char>, Jv)>, m: int) -> Seq<(Seq<char>, FieldV)>
    decreases ps, 0int, 0int,
{
    if ps.len() == 0 {
        Seq::empty()
    } else {
        infer_fields(ps.drop_last(), m).push(
            (
                ps.last().0,
                FieldV { schema: infer(ps.last().1, m), optional: false, count: 1 },
            ),
        )
    }
}

// --- merging ---

/// A count incremented, staying put at the top of its range.
pub open spec fn sat_inc(c: int) -> int {
    if c >= usize::MAX {
        c
    } else {
        c + 1
    }
}

/// The smaller of two optional number texts, by double order.
pub open spec fn merge_min(a: Option<Seq<char>>, b: Option<Seq<char>>) -> Option<Seq<char>> {
    match (a, b) {
        (Some(x), Some(y)) => Some(
            if num_below(y, x) {
                y
            } else {
                x
            },
        ),
        (Some(x), None) => Some(x),
        (None, Some(y)) => Some(y),
        (None, None) => None,
    }
}

/// The larger of two optional number texts, by double order.
pub open spec fn merge_max(a: Option<Seq<char>>, b: Option<Seq<char>>) -> Option<Seq<char>> {
    match (a, b) {
        (Some(x), Some(y)) => Some(
            if num_below(x, y) {
                y
            } else {
                x
            },
        ),
        (Some(x), None) => Some(x),
        (None, Some(y)) => Some(y),
        (None, None) => None,
    }
}

/// The name of a schema's kind; a union names its members joined with
/// a bar.
pub open spec fn kind_name(s: SchemaV) -> Seq<char>
    decreases s,
{
    match s {
        SchemaV::Null => "null"@,
        SchemaV::Bool => "bool"@,
        SchemaV::Number { .. } => "number"@,
        SchemaV::Str { .. } => "string"@,
        SchemaV::Arr { .. } => "array"@,
        SchemaV::Obj { .. } => "object"@,
        SchemaV::Union(ts) => join_bar(ts),
        SchemaV::Unknown => "unknown"@,
    }
}

/// Names joined with `\u{20}|\u{20}`.
pub open spec fn join_bar(ts: Seq<Seq<char>>) -> Seq<char>
    decreases ts.len(),
{
    if ts.len() == 0 {
        Seq::empty()
    } else if ts.len() == 1 {
        ts[0]
    } else {
        join_bar(ts.drop_last()) + " | "@ + ts.last()
    }
}

/// The union of two differing kinds: their names, deduplicated and
/// sorted.
pub open spec fn union_of(a: SchemaV, b: SchemaV) -> SchemaV {
    let na = kind_name(a);
    let nb = kind_name(b);
    if na == nb {
        SchemaV::Union(seq![na])
    } else if lex_cmp(na, nb) < 0 {
        SchemaV::Union(seq![na, nb])
    } else {
        SchemaV::Union(seq![nb, na])
    }
}

/// Two schemas merged: equal scalar kinds combine (numbers widen their
/// range, strings keep the second sample); two objects take the union of
/// their field sets, a field missing on either side becoming optional;
/// two arrays merge their item schemas and widen their length range;
/// anything else forms a union of type names.
pub open spec fn merge(a: SchemaV, b: SchemaV) -> SchemaV
    decreases a, 0int, 0int,
{
    match (a, b) {
        (SchemaV::Null, SchemaV::Null) => SchemaV::Null,
        (SchemaV::Bool, SchemaV::Bool) => SchemaV::Bool,
        (
            SchemaV::Number { min: amin, max: amax },
            SchemaV::Number { min: bmin, max: bmax },
        ) => SchemaV::Number { min: merge_min(amin, bmin), max: merge_max(amax, bmax) },
        (SchemaV::Str { .. }, SchemaV::Str { sample }) => SchemaV::Str { sample },
        (SchemaV::Obj { fields: af }, SchemaV::Obj { fields: bf }) => SchemaV::Obj {
            fields: merge_fields(af, bf),
        },
        (
            SchemaV::Arr { len_min: amin, len_max: amax, items: ai },
            SchemaV::Arr { len_min: bmin, len_max: bmax, items: bi },
        ) => SchemaV::Arr {
            len_min: if amin < bmin {
                amin
            } else {
                bmin
            },
            len_max: if amax > bmax {
                amax
            } else {
                bmax
            },
            items: Box::new(merge(*ai, *bi)),
        },
        (x, y) => union_of(x, y),
    }
}

/// The sorted merge of two key-sorted field lists: a key on one side
/// only keeps (or takes) an optional marking; a key on both sides merges
/// recursively and counts one more sample.
pub open spec fn merge_fields(
    af: Seq<(Seq<char>, FieldV)>,
    bf: Seq<(Seq<char>, FieldV)>,
) -> Seq<(Seq<char>, FieldV)>
    decreases af, bf.len(), 1int,
{
    if af.len() == 0 {
        mark_optional_new(bf)
    } else if bf.len() == 0 {
        mark_optional_old(af)
    } else {
        let ak = af[0].0;
        let bk = bf[0].0;
        if ak == bk {
            seq![
                (
                    ak,
                    FieldV {
                        schema: merge(af[0].1.schema, bf[0].1.schema),
                        optional: af[0].1.optional,
                        count: sat_inc(af[0].1.count),
                    },
                ),
            ] + merge_fields(
                af.subrange(1, af.len() as int),
                bf.subrange(1, bf.len() as int),
            )
        } else if lex_cmp(ak, bk) < 0 {
            seq![
                (ak, FieldV { schema: af[0].1.schema, optional: true, count: af[0].1.count }),
            ] + merge_fields(af.subrange(1, af.len() as int), bf)
        } else {
            seq![(bk, FieldV { schema: bf[0].1.schema, optional: true, count: 1 })]
                + merge_fields(af, bf.subrange(1, bf.len() as int))
        }
    }
}

/// Fields present only on the second side: optional, counted once.
pub open spec fn mark_optional_new(bf: Seq<(Seq<char>, FieldV)>) -> Seq<(Seq<char>, FieldV)> {
    bf.map_values(
        |p: (Seq<char>, FieldV)|
            (p.0, FieldV { schema: p.1.schema, optional: true, count: 1 }),
    )
}

/// Fields present only on the first side: marked optional, otherwise
/// kept.
pub open spec fn mark_optional_old(af: Seq<(Seq<char>, FieldV)>) -> Seq<(Seq<char>, FieldV)> {
    af.map_values(
        |p: (Seq<char>, FieldV)|
            (p.0, FieldV { schema: p.1.schema, optional: true, count: p.1.count }),
    )
}


// --- executable ---

impl SchemaType {
    /// A deep copy with the same model.
    pub fn deep_clone(&self) -> (r: SchemaType)
        ensures
            r@ == self@,
        decreases self,
    {
        match self {
            SchemaType::Null => SchemaType::Null,
            SchemaType::Bool => SchemaType::Bool,
            SchemaType::Number { min, max } => SchemaType::Number {
                min: match min {
                    Some(t) => Some(t.clone()),
                    None => None,
                },
                max: match max {
                    Some(t) => Some(t.clone()),
                    None => None,
                },
            },
            SchemaType::String { sample } => SchemaType::String {
                sample: match sample {
                    Some(t) => Some(t.clone()),
                    None => None,
                },
            },
            SchemaType::Array { len_min, len_max, items } => {
                proof {
                    assert(decreases_to!(*self => self->Array_items));
                }
                SchemaType::Array {
                    len_min: *len_min,
                    len_max: *len_max,
                    items: Box::new((&**items).deep_clone()),
                }
            },
            SchemaType::Object { fields } => {
                proof {
                    lemma_sv_fields(fields@);
                }
                let mut out: Vec<(String, FieldSchema)> = Vec::new();
                let mut i: usize = 0;
                while i < fields.len()
                    invariant
                        *self == (SchemaType::Object { fields: *fields }),
                        i <= fields@.len(),
                        sv_fields(fields@).len() == fields@.len(),
                        forall|n: int|
                            0 <= n < fields@.len() ==> sv_fields(fields@)[n] == ((
                            #[trigger] fields@[n]).0@,
                            FieldV {
                                schema: sv(fields@[n].1.schema),
                                optional: fields@[n].1.optional,
                                count: fields@[n].1.count as int,
                            }),
                        out@.len() == i,
                        forall|n: int|
                            0 <= n < i ==> ((#[trigger] out@[n]).0@, out@[n].1@) == (
                                fields@[n].0@,
                                FieldV {
                                    schema: sv(fields@[n].1.schema),
                                    optional: fields@[n].1.optional,
                                    count: fields@[n].1.count as int,
                                },
                            ),
                    decreases fields@.len() - i,
                {
                    proof {
                        assert(decreases_to!(*self => self->Object_fields));
                        assert(decreases_to!(*fields => fields@));
                        assert(decreases_to!(fields@ => fields@[i as int]));
                        assert(decreases_to!(fields@[i as int] => fields@[i as int].1));
                        assert(decreases_to!(
                            fields@[i as int].1 => fields@[i as int].1.schema));
                    }
                    let key = fields[i].0.clone();
                    let fsch = fields[i].1.schema.deep_clone();
                    out.push(
                        (
                            key,
                            FieldSchema {
                                schema: fsch,
                                optional: fields[i].1.optional,
                                count: fields[i].1.count,
                            },
                        ),
                    );
                    i = i + 1;
                }
                proof {
                    lemma_sv_fields(out@);
                    assert(sv_fields(out@) =~= sv_fields(fields@));
                }
                SchemaType::Object { fields: out }
            },
            SchemaType::Union(ts) => {
                let mut out: Vec<String> = Vec::new();
                let mut i: usize = 0;
                while i < ts.len()
                    invariant
                        i <= ts@.len(),
                        out@.len() == i,
                        forall|n: int| 0 <= n < i ==> (#[trigger] out@[n])@ == ts@[n]@,
                    decreases ts@.len() - i,
                {
                    out.push(ts[i].clone());
                    i = i + 1;
                }
                proof {
                    assert(pieces_view(out@) =~= pieces_view(ts@));
                }
                SchemaType::Union(out)
            },
            SchemaType::Unknown => SchemaType::Unknown,
        }
    }
}

impl Clone for SchemaType {
    fn clone(&self) -> (r: SchemaType)
        ensures
            r@ == self@,
    {
        self.deep_clone()
    }
}

impl Clone for FieldSchema {
    fn clone(&self) -> (r: FieldSchema)
        ensures
            r@ == self@,
    {
        FieldSchema {
            schema: self.schema.deep_clone(),
            optional: self.optional,
            count: self.count,
        }
    }
}

/// The name of a schema's kind.
fn kind_name_exec(s: &SchemaType) -> (r: String)
    ensures
        r@ == kind_name(s@),
{
    match s {
        SchemaType::Null => String::from_str("null"),
        SchemaType::Bool => String::from_str("bool"),
        SchemaType::Number { .. } => String::from_str("number"),
        SchemaType::String { .. } => String::from_str("string"),
        SchemaType::Array { .. } => String::from_str("array"),
        SchemaType::Object { .. } => String::from_str("object"),
        SchemaType::Union(ts) => {
            let ghost tv = pieces_view(ts@);
            let mut out = String::new();
            let mut i: usize = 0;
            while i < ts.len()
                invariant
                    i <= ts@.len(),
                    tv == pieces_view(ts@),
                    tv.len() == ts@.len(),
                    forall|n: int| 0 <= n < ts@.len() ==> tv[n] == (#[trigger] ts@[n])@,
                    out@ == join_bar(tv.subrange(0, i as int)),
                decreases ts@.len() - i,
            {
                let ghost pre = tv.subrange(0, i as int);
                let ghost cur = tv.subrange(0, i + 1);
                proof {
                    assert(cur.drop_last() =~= pre);
                    assert(cur.last() == tv[i as int]);
                    assert(tv.subrange(0, 1).len() == 1);
                    assert(tv.subrange(0, 1)[0] == tv[0]);
                }
                if i > 0 {
                    out.append(" | ");
                }
                out.append(ts[i].as_str());
                i = i + 1;
            }
            proof {
                assert(tv.subrange(0, tv.len() as int) =~= tv);
            }
            out
        },
        SchemaType::Unknown => String::from_str("unknown"),
    }
}

/// The sorted merge of two key-sorted field lists.
fn merge_fields_exec(
    af: &Vec<(String, FieldSchema)>,
    bf: &Vec<(String, FieldSchema)>,
    i: usize,
    j: usize,
) -> (r: Vec<(String, FieldSchema)>)
    requires
        i <= af@.len(),
        j <= bf@.len(),
    ensures
        sv_fields(r@) == merge_fields(
            sv_fields(af@).subrange(i as int, af@.len() as int),
            sv_fields(bf@).subrange(j as int, bf@.len() as int),
        ),
    decreases af@, af@.len() + bf@.len() - i - j, 1int,
{
    proof {
        lemma_sv_fields(af@);
        lemma_sv_fields(bf@);
    }
    let ghost arest = sv_fields(af@).subrange(i as int, af@.len() as int);
    let ghost brest = sv_fields(bf@).subrange(j as int, bf@.len() as int);
    if i >= af.len() {
        let mut out: Vec<(String, FieldSchema)> = Vec::new();
        let mut k: usize = j;
        while k < bf.len()
            invariant
                j <= k <= bf@.len(),
                sv_fields(bf@).len() == bf@.len(),
                forall|n: int|
                    0 <= n < bf@.len() ==> sv_fields(bf@)[n] == ((#[trigger] bf@[n]).0@,
                    FieldV {
                        schema: sv(bf@[n].1.schema),
                        optional: bf@[n].1.optional,
                        count: bf@[n].1.count as int,
                    }),
                out@.len() == k - j,
                forall|n: int|
                    0 <= n < out@.len() ==> ((#[trigger] out@[n]).0@, out@[n].1@) == (
                        bf@[j + n].0@,
                        FieldV {
                            schema: sv(bf@[j + n].1.schema),
                            optional: true,
                            count: 1,
                        },
                    ),
            decreases bf@.len() - k,
        {
            let key = bf[k].0.clone();
            let fsch = bf[k].1.schema.deep_clone();
            out.push((key, FieldSchema { schema: fsch, optional: true, count: 1 }));
            k = k + 1;
        }
        proof {
            lemma_sv_fields(out@);
            assert(sv_fields(out@) =~= mark_optional_new(brest));
        }
        return out;
    }
    if j >= bf.len() {
        let mut out: Vec<(String, FieldSchema)> = Vec::new();
        let mut k: usize = i;
        while k < af.len()
            invariant
                i <= k <= af@.len(),
                sv_fields(af@).len() == af@.len(),
                forall|n: int|
                    0 <= n < af@.len() ==> sv_fields(af@)[n] == ((#[trigger] af@[n]).0@,
                    FieldV {
                        schema: sv(af@[n].1.schema),
                        optional: af@[n].1.optional,
                        count: af@[n].1.count as int,
                    }),
                out@.len() == k - i,
                forall|n: int|
                    0 <= n < out@.len() ==> ((#[trigger] out@[n]).0@, out@[n].1@) == (
                        af@[i + n].0@,
                        FieldV {
                            schema: sv(af@[i + n].1.schema),
                            optional: true,
                            count: af@[i + n].1.count as int,
                        },
                    ),
            decreases af@.len() - k,
        {
            let key = af[k].0.clone();
            let fsch = af[k].1.schema.deep_clone();
            out.push(
                (key, FieldSchema { schema: fsch, optional: true, count: af[k].1.count }),
            );
            k = k + 1;
        }
        proof {
            lemma_sv_fields(out@);
            assert(sv_fields(out@) =~= mark_optional_old(arest));
        }
        return out;
    }
    let c = crate::text::str_cmp(af[i].0.as_str(), bf[j].0.as_str());
    proof {
        crate::text::lemma_lex_cmp_eq(af@[i as int].0@, bf@[j as int].0@);
        assert(arest[0] == sv_fields(af@)[i as int]);
        assert(brest[0] == sv_fields(bf@)[j as int]);
    }
    if c == 0 {
        proof {
            assert(decreases_to!(af@ => af@[i as int]));
            assert(decreases_to!(af@[i as int] => af@[i as int].1));
            assert(decreases_to!(af@[i as int].1 => af@[i as int].1.schema));
        }
        let key = af[i].0.clone();
        let merged = merge_ref(&af[i].1.schema, &bf[j].1.schema);
        let count = if af[i].1.count >= usize::MAX {
            af[i].1.count
        } else {
            af[i].1.count + 1
        };
        let head = (
            key,
            FieldSchema { schema: merged, optional: af[i].1.optional, count },
        );
        let mut rest = merge_fields_exec(af, bf, i + 1, j + 1);
        proof {
            assert(sv_fields(rest@.insert(0, head)) =~= seq![
                (head.0@, head.1@),
            ] + sv_fields(rest@)) by {
                lemma_sv_fields(rest@.insert(0, head));
                lemma_sv_fields(rest@);
                assert(rest@.insert(0, head)[0] == head);
                assert(forall|n: int|
                    1 <= n < rest@.len() + 1 ==> rest@.insert(0, head)[n] == rest@[n - 1]);
            }
            assert(sv_fields(af@).subrange(i + 1, af@.len() as int) =~= arest.subrange(
                1,
                arest.len() as int,
            ));
            assert(sv_fields(bf@).subrange(j + 1, bf@.len() as int) =~= brest.subrange(
                1,
                brest.len() as int,
            ));
        }
        rest.insert(0, head);
        rest
    } else if c < 0 {
        let key = af[i].0.clone();
        let fsch = af[i].1.schema.deep_clone();
        let head = (
            key,
            FieldSchema { schema: fsch, optional: true, count: af[i].1.count },
        );
        let mut rest = merge_fields_exec(af, bf, i + 1, j);
        proof {
            assert(sv_fields(rest@.insert(0, head)) =~= seq![
                (head.0@, head.1@),
            ] + sv_fields(rest@)) by {
                lemma_sv_fields(rest@.insert(0, head));
                lemma_sv_fields(rest@);
                assert(rest@.insert(0, head)[0] == head);
                assert(forall|n: int|
                    1 <= n < rest@.len() + 1 ==> rest@.insert(0, head)[n] == rest@[n - 1]);
            }
            assert(sv_fields(af@).subrange(i + 1, af@.len() as int) =~= arest.subrange(
                1,
                arest.len() as int,
            ));
        }
        rest.insert(0, head);
        rest
    } else {
        let key = bf[j].0.clone();
        let fsch = bf[j].1.schema.deep_clone();
        let head = (key, FieldSchema { schema: fsch, optional: true, count: 1 });
        let mut rest = merge_fields_exec(af, bf, i, j + 1);
        proof {
            assert(sv_fields(rest@.insert(0, head)) =~= seq![
                (head.0@, head.1@),
            ] + sv_fields(rest@)) by {
                lemma_sv_fields(rest@.insert(0, head));
                lemma_sv_fields(rest@);
                assert(rest@.insert(0, head)[0] == head);
                assert(forall|n: int|
                    1 <= n < rest@.len() + 1 ==> rest@.insert(0, head)[n] == rest@[n - 1]);
            }
            assert(sv_fields(bf@).subrange(j + 1, bf@.len() as int) =~= brest.subrange(
                1,
                brest.len() as int,
            ));
        }
        rest.insert(0, head);
        rest
    }
}

/// Merges two inferred schemas, recursing over borrowed values.
fn merge_ref(a: &SchemaType, b: &SchemaType) -> (r: SchemaType)
    ensures
        r@ == merge(a@, b@),
    decreases *a, 0int, 0int,
{
    match (a, b) {
        (SchemaType::Null, SchemaType::Null) => SchemaType::Null,
        (SchemaType::Bool, SchemaType::Bool) => SchemaType::Bool,
        (
            SchemaType::Number { min: amin, max: amax },
            SchemaType::Number { min: bmin, max: bmax },
        ) => {
            let min = match (amin, bmin) {
                (Some(x), Some(y)) => Some(
                    if crate::num::num_lt(y.as_str(), x.as_str()) {
                        y.clone()
                    } else {
                        x.clone()
                    },
                ),
                (Some(x), None) => Some(x.clone()),
                (None, Some(y)) => Some(y.clone()),
                (None, None) => None,
            };
            let max = match (amax, bmax) {
                (Some(x), Some(y)) => Some(
                    if crate::num::num_lt(x.as_str(), y.as_str()) {
                        y.clone()
                    } else {
                        x.clone()
                    },
                ),
                (Some(x), None) => Some(x.clone()),
                (None, Some(y)) => Some(y.clone()),
                (None, None) => None,
            };
            SchemaType::Number { min, max }
        },
        (SchemaType::String { sample: _ }, SchemaType::String { sample }) => {
            SchemaType::String {
                sample: match sample {
                    Some(t) => Some(t.clone()),
                    None => None,
                },
            }
        },
        (SchemaType::Object { fields: af }, SchemaType::Object { fields: bf }) => {
            proof {
                lemma_sv_fields(af@);
                lemma_sv_fields(bf@);
            }
            let merged = merge_fields_exec(af, bf, 0, 0);
            proof {
                assert(sv_fields(af@).subrange(0, af@.len() as int) =~= sv_fields(af@));
                assert(sv_fields(bf@).subrange(0, bf@.len() as int) =~= sv_fields(bf@));
            }
            SchemaType::Object { fields: merged }
        },
        (
            SchemaType::Array { len_min: amin, len_max: amax, items: ai },
            SchemaType::Array { len_min: bmin, len_max: bmax, items: bi },
        ) => {
            proof {
                assert(decreases_to!(*a => a->Array_items));
            }
            SchemaType::Array {
                len_min: if *amin < *bmin {
                    *amin
                } else {
                    *bmin
                },
                len_max: if *amax > *bmax {
                    *amax
                } else {
                    *bmax
                },
                items: Box::new(merge_ref(&**ai, &**bi)),
            }
        },
        (x, y) => {
            let na = kind_name_exec(x);
            let nb = kind_name_exec(y);
            let c = crate::text::str_cmp(na.as_str(), nb.as_str());
            proof {
                crate::text::lemma_lex_cmp_eq(na@, nb@);
            }
            let mut ts: Vec<String> = Vec::new();
            if c == 0 {
                ts.push(na);
                proof {
                    assert(pieces_view(ts@) =~= seq![kind_name(x@)]);
                }
            } else if c < 0 {
                ts.push(na);
                ts.push(nb);
                proof {
                    assert(pieces_view(ts@) =~= seq![kind_name(x@), kind_name(y@)]);
                }
            } else {
                ts.push(nb);
                ts.push(na);
                proof {
                    assert(pieces_view(ts@) =~= seq![kind_name(y@), kind_name(x@)]);
                }
            }
            SchemaType::Union(ts)
        },
    }
}

/// Merges two inferred schemas, as sampling an array does.
pub fn merge_schemas(a: SchemaType, b: SchemaType) -> (r: SchemaType)
    ensures
        r@ == merge(a@, b@),
{
    merge_ref(&a, &b)
}

/// Infers the schema of a JSON value, sampling up to `max_samples`
/// leading elements of each array.
pub fn infer_schema(value: &Json, max_samples: usize) -> (r: SchemaType)
    ensures
        r@ == infer(value@, max_samples as int),
    decreases value,
{
    match value {
        Json::Null => SchemaType::Null,
        Json::Bool(_) => SchemaType::Bool,
        Json::Num(t) => SchemaType::Number { min: Some(t.clone()), max: Some(t.clone()) },
        Json::Str(st) => {
            let n = st.as_str().unicode_len();
            if n <= 30 {
                SchemaType::String { sample: Some(st.clone()) }
            } else {
                let chars = crate::text::str_chars(st.as_str());
                SchemaType::String {
                    sample: Some(crate::text::chars_to_string_range(&chars, 0, 30)),
                }
            }
        },
        Json::Arr(a) => {
            proof {
                crate::value::lemma_jv_seq(a@);
            }
            let ghost av = jv_seq(a@);
            let n = a.len();
            if n == 0 {
                proof {
                    assert(value@ == Jv::Arr(av));
                    assert(av.len() == 0);
                    assert(infer(value@, max_samples as int) == (SchemaV::Arr {
                        len_min: 0,
                        len_max: 0,
                        items: Box::new(SchemaV::Unknown),
                    }));
                }
                proof {
                    assert(sv(SchemaType::Unknown) == SchemaV::Unknown);
                }
                return SchemaType::Array {
                    len_min: 0,
                    len_max: 0,
                    items: Box::new(SchemaType::Unknown),
                };
            }
            let k = if max_samples < n {
                max_samples
            } else {
                n
            };
            if k == 0 {
                proof {
                    assert(sv(SchemaType::Unknown) == SchemaV::Unknown);
                }
                return SchemaType::Array {
                    len_min: n,
                    len_max: n,
                    items: Box::new(SchemaType::Unknown),
                };
            }
            proof {
                assert(decreases_to!(*value => value->Arr_0));
                assert(decreases_to!(*a => a@));
                assert(decreases_to!(a@ => a@[0]));
            }
            let mut merged = infer_schema(&a[0], max_samples);
            let mut idx: usize = 1;
            while idx < k
                invariant
                    *value == Json::Arr(*a),
                    1 <= idx <= k <= a@.len(),
                    k == if max_samples < a@.len() {
                        max_samples as int
                    } else {
                        a@.len() as int
                    },
                    av == jv_seq(a@),
                    av.len() == a@.len(),
                    forall|q: int| 0 <= q < a@.len() ==> av[q] == jv(a@[q]),
                    merged@ == infer_fold(av, max_samples as int, idx as int),
                decreases k - idx,
            {
                proof {
                    assert(decreases_to!(*value => value->Arr_0));
                    assert(decreases_to!(*a => a@));
                    assert(decreases_to!(a@ => a@[idx as int]));
                }
                let next = infer_schema(&a[idx], max_samples);
                merged = merge_schemas(merged, next);
                idx = idx + 1;
            }
            SchemaType::Array { len_min: n, len_max: n, items: Box::new(merged) }
        },
        Json::Obj(ps) => {
            proof {
                crate::value::lemma_jv_pairs(ps@);
            }
            let ghost pv = jv_pairs(ps@);
            let mut out: Vec<(String, FieldSchema)> = Vec::new();
            let mut i: usize = 0;
            while i < ps.len()
                invariant
                    *value == Json::Obj(*ps),
                    i <= ps@.len(),
                    pv == jv_pairs(ps@),
                    pv.len() == ps@.len(),
                    forall|n: int|
                        0 <= n < ps@.len() ==> pv[n] == ((#[trigger] ps@[n]).0@, jv(ps@[n].1)),
                    sv_fields(out@) == infer_fields(pv.subrange(0, i as int), max_samples as int),
                decreases ps@.len() - i,
            {
                let ghost pre = pv.subrange(0, i as int);
                let ghost cur = pv.subrange(0, i + 1);
                proof {
                    assert(cur.drop_last() =~= pre);
                    assert(cur.last() == pv[i as int]);
                    assert(decreases_to!(*value => value->Obj_0));
                    assert(decreases_to!(*ps => ps@));
                    assert(decreases_to!(ps@ => ps@[i as int]));
                    assert(decreases_to!(ps@[i as int] => ps@[i as int].1));
                }
                let key = ps[i].0.clone();
                let fsch = infer_schema(&ps[i].1, max_samples);
                let ghost old_out = out@;
                out.push((key, FieldSchema { schema: fsch, optional: false, count: 1 }));
                proof {
                    assert(out@.drop_last() =~= old_out);
                    lemma_sv_fields(out@);
                    lemma_sv_fields(old_out);
                    assert(sv_fields(out@) =~= sv_fields(old_out).push(
                        (
                            pv[i as int].0,
                            FieldV {
                                schema: infer(pv[i as int].1, max_samples as int),
                                optional: false,
                                count: 1,
                            },
                        ),
                    ));
                }
                i = i + 1;
            }
            proof {
                assert(pv.subrange(0, pv.len() as int) =~= pv);
            }
            SchemaType::Object { fields: out }
        },
    }
}

// --- rendering ---

/// The indent one level deeper.
pub open spec fn next_ind(i: int) -> int {
    if i < usize::MAX {
        i + 1
    } else {
        i
    }
}

/// Two spaces per indent level.
pub open spec fn pad_of(n: int) -> Seq<char>
    decreases n,
{
    if n <= 0 {
        Seq::empty()
    } else {
        pad_of(n - 1) + "  "@
    }
}

/// The textual tree of a schema: objects as brace blocks with one field
/// per line and a `?` on optional fields, numbers annotated with their
/// observed range, strings with their sample, arrays with their length
/// range, unions joined with a bar.
pub open spec fn fmt(s: SchemaV, indent: int) -> Seq<char>
    decreases s, 0int,
{
    match s {
        SchemaV::Null => "null"@,
        SchemaV::Bool => "bool"@,
        SchemaV::Number { min, max } => match (min, max) {
            (Some(mn), Some(mx)) => if num_close(mn, mx) {
                "number  # "@ + mn
            } else {
                "number  # "@ + mn + ".."@ + mx
            },
            _ => "number"@,
        },
        SchemaV::Str { sample } => match sample {
            Some(sm) => "string  # \""@ + sm + "\""@,
            None => "string"@,
        },
        SchemaV::Arr { len_min, len_max, items } => {
            let li = if len_min == len_max {
                dec_digits(if len_min >= 0 {
                    len_min as nat
                } else {
                    0
                })
            } else {
                dec_digits(if len_min >= 0 {
                    len_min as nat
                } else {
                    0
                }) + ".."@ + dec_digits(if len_max >= 0 {
                    len_max as nat
                } else {
                    0
                })
            };
            "["@ + fmt(*items, next_ind(indent)) + "]  # array of "@ + li
        },
        SchemaV::Obj { fields } => if fields.len() == 0 {
            "{}"@
        } else {
            "{"@ + fmt_fields(fields, indent) + "\n"@ + pad_of(indent) + "}"@
        },
        SchemaV::Union(ts) => join_bar(ts),
        SchemaV::Unknown => "unknown"@,
    }
}

/// The field lines of an object schema, each on its own line.
pub open spec fn fmt_fields(fs: Seq<(Seq<char>, FieldV)>, indent: int) -> Seq<char>
    decreases fs, 1int,
{
    if fs.len() == 0 {
        Seq::empty()
    } else {
        fmt_fields(fs.drop_last(), indent) + "\n"@ + pad_of(indent) + "  "@ + fs.last().0 + (
        if fs.last().1.optional {
            "?"@
        } else {
            Seq::empty()
        }) + ": "@ + fmt(fs.last().1.schema, next_ind(indent)) + ","@
    }
}

fn pad_exec(n: usize) -> (r: String)
    ensures
        r@ == pad_of(n as int),
{
    let mut r = String::new();
    let mut i: usize = 0;
    while i < n
        invariant
            i <= n,
            r@ == pad_of(i as int),
        decreases n - i,
    {
        r.append("  ");
        i = i + 1;
    }
    r
}

/// Renders a schema as an indented textual tree.
pub fn format_schema(schema: &SchemaType, indent: usize) -> (r: String)
    ensures
        r@ == fmt(schema@, indent as int),
    decreases schema, 0int,
{
    let deeper: usize = if indent < usize::MAX {
        indent + 1
    } else {
        indent
    };
    match schema {
        SchemaType::Null => String::from_str("null"),
        SchemaType::Bool => String::from_str("bool"),
        SchemaType::Number { min, max } => match (min, max) {
            (Some(mn), Some(mx)) => {
                if crate::num::num_eq_eps(mn.as_str(), mx.as_str()) {
                    String::from_str("number  # ").concat(mn.as_str())
                } else {
                    String::from_str("number  # ").concat(mn.as_str()).concat("..").concat(
                        mx.as_str(),
                    )
                }
            },
            _ => String::from_str("number"),
        },
        SchemaType::String { sample } => match sample {
            Some(sm) => String::from_str("string  # \"").concat(sm.as_str()).concat("\""),
            None => String::from_str("string"),
        },
        SchemaType::Array { len_min, len_max, items } => {
            proof {
                assert(decreases_to!(*schema => schema->Array_items));
            }
            let inner = format_schema(&**items, deeper);
            let li = if *len_min == *len_max {
                crate::num::usize_text(*len_min)
            } else {
                crate::num::usize_text(*len_min).concat("..").concat(
                    crate::num::usize_text(*len_max).as_str(),
                )
            };
            String::from_str("[").concat(inner.as_str()).concat("]  # array of ").concat(
                li.as_str(),
            )
        },
        SchemaType::Object { fields } => {
            proof {
                lemma_sv_fields(fields@);
            }
            let ghost fv = sv_fields(fields@);
            if fields.len() == 0 {
                proof {
                    assert(fv =~= Seq::<(Seq<char>, FieldV)>::empty());
                }
                return String::from_str("{}");
            }
            let pad = pad_exec(indent);
            let mut acc = String::from_str("{");
            let mut i: usize = 0;
            while i < fields.len()
                invariant
                    *schema == (SchemaType::Object { fields: *fields }),
                    i <= fields@.len(),
                    deeper as int == next_ind(indent as int),
                    pad@ == pad_of(indent as int),
                    fv == sv_fields(fields@),
                    fv.len() == fields@.len(),
                    forall|n: int|
                        0 <= n < fields@.len() ==> fv[n] == ((#[trigger] fields@[n]).0@,
                        FieldV {
                            schema: sv(fields@[n].1.schema),
                            optional: fields@[n].1.optional,
                            count: fields@[n].1.count as int,
                        }),
                    acc@ == "{"@ + fmt_fields(fv.subrange(0, i as int), indent as int),
                decreases fields@.len() - i,
            {
                let ghost pre = fv.subrange(0, i as int);
                let ghost cur = fv.subrange(0, i + 1);
                proof {
                    assert(cur.drop_last() =~= pre);
                    assert(cur.last() == fv[i as int]);
                    assert(decreases_to!(*schema => schema->Object_fields));
                    assert(decreases_to!(*fields => fields@));
                    assert(decreases_to!(fields@ => fields@[i as int]));
                    assert(decreases_to!(fields@[i as int] => fields@[i as int].1));
                    assert(decreases_to!(fields@[i as int].1 => fields@[i as int].1.schema));
                }
                let val = format_schema(&fields[i].1.schema, deeper);
                acc.append("\n");
                acc.append(pad.as_str());
                acc.append("  ");
                acc.append(fields[i].0.as_str());
                if fields[i].1.optional {
                    acc.append("?");
                }
                acc.append(": ");
                acc.append(val.as_str());
                acc.append(",");
                i = i + 1;
                proof {
                    assert(acc@ =~= "{"@ + fmt_fields(cur, indent as int));
                }
            }
            proof {
                assert(fv.subrange(0, fv.len() as int) =~= fv);
            }
            acc.append("\n");
            acc.append(pad.as_str());
            acc.append("}");
            proof {
                assert(acc@ =~= fmt(schema@, indent as int));
            }
            acc
        },
        SchemaType::Union(_) => kind_name_exec(schema),
        SchemaType::Unknown => String::from_str("unknown"),
    }
}

// --- laws ---

/// Whether a field list has a field named `k`.
pub open spec fn has_field(fs: Seq<(Seq<char>, FieldV)>, k: Seq<char>) -> bool {
    exists|j: int| 0 <= j < fs.len() && (#[trigger] fs[j]).0 == k
}

/// Adjacent keys strictly increase.
pub open spec fn fields_sorted(fs: Seq<(Seq<char>, FieldV)>) -> bool {
    forall|i: int| 0 <= i < fs.len() - 1 ==> lex_cmp((#[trigger] fs[i]).0, fs[i + 1].0) < 0
}

proof fn lemma_sorted_first_min(fs: Seq<(Seq<char>, FieldV)>)
    requires
        fields_sorted(fs),
        fs.len() > 0,
    ensures
        forall|j: int| 1 <= j < fs.len() ==> lex_cmp(fs[0].0, (#[trigger] fs[j]).0) < 0,
    decreases fs.len(),
{
    assert forall|j: int| 1 <= j < fs.len() implies lex_cmp(fs[0].0, fs[j].0) < 0 by {
        lemma_sorted_upto(fs, j);
    }
}

proof fn lemma_sorted_upto(fs: Seq<(Seq<char>, FieldV)>, j: int)
    requires
        fields_sorted(fs),
        1 <= j < fs.len(),
    ensures
        lex_cmp(fs[0].0, fs[j].0) < 0,
    decreases j,
{
    if j == 1 {
    } else {
        lemma_sorted_upto(fs, j - 1);
        crate::text::lemma_lex_cmp_trans(fs[0].0, fs[j - 1].0, fs[j].0);
    }
}

proof fn lemma_sorted_tail(fs: Seq<(Seq<char>, FieldV)>)
    requires
        fields_sorted(fs),
        fs.len() > 0,
    ensures
        fields_sorted(fs.subrange(1, fs.len() as int)),
{
    let t = fs.subrange(1, fs.len() as int);
    assert forall|i: int| 0 <= i < t.len() - 1 implies lex_cmp((#[trigger] t[i]).0, t[i + 1].0)
        < 0 by {
        assert(t[i] == fs[i + 1]);
        assert(t[i + 1] == fs[i + 2]);
    }
}

/// Every key of a merge comes from one of the two sides.
proof fn lemma_merge_keys(af: Seq<(Seq<char>, FieldV)>, bf: Seq<(Seq<char>, FieldV)>)
    ensures
        forall|i: int|
            0 <= i < merge_fields(af, bf).len() ==> has_field(
                af,
                (#[trigger] merge_fields(af, bf)[i]).0,
            ) || has_field(bf, merge_fields(af, bf)[i].0),
    decreases af.len() + bf.len(),
{
    let r = merge_fields(af, bf);
    if af.len() == 0 {
        assert forall|i: int| 0 <= i < r.len() implies has_field(af, (#[trigger] r[i]).0)
            || has_field(bf, r[i].0) by {
            assert(r[i].0 == bf[i].0);
        }
    } else if bf.len() == 0 {
        assert forall|i: int| 0 <= i < r.len() implies has_field(af, (#[trigger] r[i]).0)
            || has_field(bf, r[i].0) by {
            assert(r[i].0 == af[i].0);
        }
    } else {
        let at = af.subrange(1, af.len() as int);
        let bt = bf.subrange(1, bf.len() as int);
        let ak = af[0].0;
        let bk = bf[0].0;
        if ak == bk {
            lemma_merge_keys(at, bt);
            let rest = merge_fields(at, bt);
            assert forall|i: int| 0 <= i < r.len() implies has_field(af, (#[trigger] r[i]).0)
                || has_field(bf, r[i].0) by {
                if i == 0 {
                    assert(af[0].0 == r[0].0);
                } else {
                    assert(r[i] == rest[i - 1]);
                    if has_field(at, rest[i - 1].0) {
                        let j = choose|j: int|
                            0 <= j < at.len() && (#[trigger] at[j]).0 == rest[i - 1].0;
                        assert(af[j + 1].0 == rest[i - 1].0);
                    } else {
                        let j = choose|j: int|
                            0 <= j < bt.len() && (#[trigger] bt[j]).0 == rest[i - 1].0;
                        assert(bf[j + 1].0 == rest[i - 1].0);
                    }
                }
            }
        } else if lex_cmp(ak, bk) < 0 {
            lemma_merge_keys(at, bf);
            let rest = merge_fields(at, bf);
            assert forall|i: int| 0 <= i < r.len() implies has_field(af, (#[trigger] r[i]).0)
                || has_field(bf, r[i].0) by {
                if i == 0 {
                    assert(af[0].0 == r[0].0);
                } else {
                    assert(r[i] == rest[i - 1]);
                    if has_field(at, rest[i - 1].0) {
                        let j = choose|j: int|
                            0 <= j < at.len() && (#[trigger] at[j]).0 == rest[i - 1].0;
                        assert(af[j + 1].0 == rest[i - 1].0);
                    }
                }
            }
        } else {
            lemma_merge_keys(af, bt);
            let rest = merge_fields(af, bt);
            assert forall|i: int| 0 <= i < r.len() implies has_field(af, (#[trigger] r[i]).0)
                || has_field(bf, r[i].0) by {
                if i == 0 {
                    assert(bf[0].0 == r[0].0);
                } else {
                    assert(r[i] == rest[i - 1]);
                    if has_field(bt, rest[i - 1].0) {
                        let j = choose|j: int|
                            0 <= j < bt.len() && (#[trigger] bt[j]).0 == rest[i - 1].0;
                        assert(bf[j + 1].0 == rest[i - 1].0);
                    }
                }
            }
        }
    }
}

/// Merging two key-sorted objects whose fields are not yet optional
/// marks a field optional exactly when the field is missing from at
/// least one of the two field sets.
pub proof fn lemma_merge_optional(af: Seq<(Seq<char>, FieldV)>, bf: Seq<(Seq<char>, FieldV)>)
    requires
        fields_sorted(af),
        fields_sorted(bf),
        forall|i: int| 0 <= i < af.len() ==> !(#[trigger] af[i]).1.optional,
    ensures
        forall|i: int|
            0 <= i < merge_fields(af, bf).len() ==> ((#[trigger] merge_fields(af, bf)[i]).1.optional
                <==> !(has_field(af, merge_fields(af, bf)[i].0) && has_field(
                bf,
                merge_fields(af, bf)[i].0,
            ))),
    decreases af.len() + bf.len(),
{
    let r = merge_fields(af, bf);
    if af.len() == 0 {
        assert forall|i: int| 0 <= i < r.len() implies ((#[trigger] r[i]).1.optional <==> !(
        has_field(af, r[i].0) && has_field(bf, r[i].0))) by {
            assert(r[i] == (bf[i].0, FieldV { schema: bf[i].1.schema, optional: true, count: 1 }));
            assert(!has_field(af, r[i].0));
        }
    } else if bf.len() == 0 {
        assert forall|i: int| 0 <= i < r.len() implies ((#[trigger] r[i]).1.optional <==> !(
        has_field(af, r[i].0) && has_field(bf, r[i].0))) by {
            assert(r[i] == (
                af[i].0,
                FieldV { schema: af[i].1.schema, optional: true, count: af[i].1.count },
            ));
            assert(!has_field(bf, r[i].0));
        }
    } else {
        let at = af.subrange(1, af.len() as int);
        let bt = bf.subrange(1, bf.len() as int);
        let ak = af[0].0;
        let bk = bf[0].0;
        lemma_sorted_tail(af);
        lemma_sorted_tail(bf);
        lemma_sorted_first_min(af);
        lemma_sorted_first_min(bf);
        assert(forall|i: int| 0 <= i < at.len() ==> !(#[trigger] at[i]).1.optional);
        if ak == bk {
            lemma_merge_optional(at, bt);
            lemma_merge_keys(at, bt);
            let rest = merge_fields(at, bt);
            assert forall|i: int| 0 <= i < r.len() implies ((#[trigger] r[i]).1.optional <==> !(
            has_field(af, r[i].0) && has_field(bf, r[i].0))) by {
                if i == 0 {
                    assert(!r[0].1.optional);
                    assert(af[0].0 == r[0].0 && bf[0].0 == r[0].0);
                    assert(has_field(af, r[0].0) && has_field(bf, r[0].0));
                } else {
                    assert(r[i] == rest[i - 1]);
                    let k = rest[i - 1].0;
                    lemma_key_above_head(af, bf, at, bt, k, true, true);
                    assert(has_field(af, k) <==> has_field(at, k));
                    assert(has_field(bf, k) <==> has_field(bt, k));
                }
            }
        } else if lex_cmp(ak, bk) < 0 {
            lemma_merge_optional(at, bf);
            lemma_merge_keys(at, bf);
            let rest = merge_fields(at, bf);
            assert forall|i: int| 0 <= i < r.len() implies ((#[trigger] r[i]).1.optional <==> !(
            has_field(af, r[i].0) && has_field(bf, r[i].0))) by {
                if i == 0 {
                    assert(r[0].1.optional);
                    assert(af[0].0 == r[0].0);
                    assert(has_field(af, r[0].0));
                    assert(!has_field(bf, ak)) by {
                        if has_field(bf, ak) {
                            let j = choose|j: int|
                                0 <= j < bf.len() && (#[trigger] bf[j]).0 == ak;
                            if j > 0 {
                                crate::text::lemma_lex_cmp_trans(ak, bk, bf[j].0);
                            }
                            crate::text::lemma_lex_cmp_eq(ak, bf[j].0);
                        }
                    }
                } else {
                    assert(r[i] == rest[i - 1]);
                    let k = rest[i - 1].0;
                    lemma_key_above_head(af, bf, at, bf, k, true, false);
                    assert(has_field(af, k) <==> has_field(at, k));
                }
            }
        } else {
            crate::text::lemma_lex_cmp_antisym(ak, bk);
            crate::text::lemma_lex_cmp_eq(ak, bk);
            lemma_merge_optional(af, bt);
            lemma_merge_keys(af, bt);
            let rest = merge_fields(af, bt);
            assert forall|i: int| 0 <= i < r.len() implies ((#[trigger] r[i]).1.optional <==> !(
            has_field(af, r[i].0) && has_field(bf, r[i].0))) by {
                if i == 0 {
                    assert(r[0].1.optional);
                    assert(bf[0].0 == r[0].0);
                    assert(has_field(bf, r[0].0));
                    assert(!has_field(af, bk)) by {
                        if has_field(af, bk) {
                            let j = choose|j: int|
                                0 <= j < af.len() && (#[trigger] af[j]).0 == bk;
                            if j > 0 {
                                crate::text::lemma_lex_cmp_trans(bk, ak, af[j].0);
                            }
                            crate::text::lemma_lex_cmp_eq(bk, af[j].0);
                        }
                    }
                } else {
                    assert(r[i] == rest[i - 1]);
                    let k = rest[i - 1].0;
                    lemma_key_above_head(af, bf, af, bt, k, false, true);
                    assert(has_field(bf, k) <==> has_field(bt, k));
                }
            }
        }
    }
}

/// A key drawn from the tails (or the untouched side) of a merge is
/// never one of the dropped heads, so membership in the whole list and
/// in its tail agree.
proof fn lemma_key_above_head(
    af: Seq<(Seq<char>, FieldV)>,
    bf: Seq<(Seq<char>, FieldV)>,
    a2: Seq<(Seq<char>, FieldV)>,
    b2: Seq<(Seq<char>, FieldV)>,
    k: Seq<char>,
    a_dropped: bool,
    b_dropped: bool,
)
    requires
        fields_sorted(af),
        fields_sorted(bf),
        af.len() > 0,
        bf.len() > 0,
        a_dropped ==> a2 == af.subrange(1, af.len() as int),
        !a_dropped ==> a2 == af,
        b_dropped ==> b2 == bf.subrange(1, bf.len() as int),
        !b_dropped ==> b2 == bf,
        has_field(a2, k) || has_field(b2, k),
        a_dropped || b_dropped,
        a_dropped && b_dropped ==> af[0].0 == bf[0].0,
        a_dropped && !b_dropped ==> lex_cmp(af[0].0, bf[0].0) < 0,
        !a_dropped && b_dropped ==> lex_cmp(bf[0].0, af[0].0) < 0,
    ensures
        a_dropped ==> (has_field(af, k) <==> has_field(af.subrange(1, af.len() as int), k)),
        b_dropped ==> (has_field(bf, k) <==> has_field(bf.subrange(1, bf.len() as int), k)),
{
    let at = af.subrange(1, af.len() as int);
    let bt = bf.subrange(1, bf.len() as int);
    lemma_sorted_first_min(af);
    lemma_sorted_first_min(bf);
    assert(lex_cmp(af[0].0, k) < 0 || lex_cmp(bf[0].0, k) < 0) by {
        if has_field(a2, k) {
            let j = choose|j: int| 0 <= j < a2.len() && (#[trigger] a2[j]).0 == k;
            if a_dropped {
                assert(at[j] == af[j + 1]);
                assert(lex_cmp(af[0].0, af[j + 1].0) < 0);
            } else {
                if j > 0 {
                    assert(lex_cmp(af[0].0, af[j].0) < 0);
                } else {
                    assert(k == af[0].0);
                    assert(b_dropped && lex_cmp(bf[0].0, af[0].0) < 0);
                }
            }
        } else {
            let j = choose|j: int| 0 <= j < b2.len() && (#[trigger] b2[j]).0 == k;
            if b_dropped {
                assert(bt[j] == bf[j + 1]);
                assert(lex_cmp(bf[0].0, bf[j + 1].0) < 0);
            } else {
                if j > 0 {
                    assert(lex_cmp(bf[0].0, bf[j].0) < 0);
                } else {
                    assert(k == bf[0].0);
                    assert(a_dropped && lex_cmp(af[0].0, bf[0].0) < 0);
                }
            }
        }
    }
    if a_dropped {
        assert(lex_cmp(af[0].0, k) < 0) by {
            if !(lex_cmp(af[0].0, k) < 0) {
                assert(lex_cmp(bf[0].0, k) < 0);
                if af[0].0 == bf[0].0 {
                    crate::text::lemma_lex_cmp_eq(af[0].0, bf[0].0);
                    assert(lex_cmp(af[0].0, bf[0].0) == 0);
                    lemma_lex_le_lt_trans(af[0].0, bf[0].0, k);
                } else {
                    lemma_lex_le_lt_trans(af[0].0, bf[0].0, k);
                }
            }
        }
        crate::text::lemma_lex_cmp_eq(af[0].0, k);
        assert(has_field(af, k) <==> has_field(at, k)) by {
            if has_field(af, k) {
                let j = choose|j: int| 0 <= j < af.len() && (#[trigger] af[j]).0 == k;
                assert(j != 0);
                assert(at[j - 1] == af[j]);
            }
            if has_field(at, k) {
                let j = choose|j: int| 0 <= j < at.len() && (#[trigger] at[j]).0 == k;
                assert(af[j + 1] == at[j]);
            }
        }
    }
    if b_dropped {
        assert(lex_cmp(bf[0].0, k) < 0) by {
            if !(lex_cmp(bf[0].0, k) < 0) {
                assert(lex_cmp(af[0].0, k) < 0);
                if af[0].0 == bf[0].0 {
                    crate::text::lemma_lex_cmp_eq(bf[0].0, af[0].0);
                    lemma_lex_le_lt_trans(bf[0].0, af[0].0, k);
                } else {
                    lemma_lex_le_lt_trans(bf[0].0, af[0].0, k);
                }
            }
        }
        crate::text::lemma_lex_cmp_eq(bf[0].0, k);
        assert(has_field(bf, k) <==> has_field(bt, k)) by {
            if has_field(bf, k) {
                let j = choose|j: int| 0 <= j < bf.len() && (#[trigger] bf[j]).0 == k;
                assert(j != 0);
                assert(bt[j - 1] == bf[j]);
            }
            if has_field(bt, k) {
                let j = choose|j: int| 0 <= j < bt.len() && (#[trigger] bt[j]).0 == k;
                assert(bf[j + 1] == bt[j]);
            }
        }
    }
}

/// Equal-or-below followed by strictly-below stays strictly below.
proof fn lemma_lex_le_lt_trans(a: Seq<char>, b: Seq<char>, c: Seq<char>)
    requires
        lex_cmp(a, b) == 0 || lex_cmp(a, b) < 0,
        lex_cmp(b, c) < 0,
    ensures
        lex_cmp(a, c) < 0,
{
    if lex_cmp(a, b) == 0 {
        crate::text::lemma_lex_cmp_eq(a, b);
    } else {
        crate::text::lemma_lex_cmp_trans(a, b, c);
    }
}
} // verus!
