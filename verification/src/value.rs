//! The JSON value model. A `Json` value is a closed tagged union; numbers
//! are carried as their canonical JSON texts (see `num`). Object fields are
//! kept sorted by key, the order in which a key-ordered JSON map iterates.
//! The ghost mirror `Jv` models a value as sequences of characters and
//! nested values, and every contract in the crate speaks in terms of it.

use vstd::prelude::*;

use crate::text::lex_cmp;

verus! {

/// The ghost shape of a JSON value.
pub enum Jv {
    Null,
    Bool(bool),
    Num(Seq<char>),
    Str(Seq<char>),
    Arr(Seq<Jv>),
    Obj(Seq<(Seq<char>, Jv)>),
}

/// A JSON value. `Num` holds the number's canonical JSON text.
#[derive(Debug, PartialEq)]
pub enum Json {
    Null,
    Bool(bool),
    Num(String),
    Str(String),
    Arr(Vec<Json>),
    Obj(Vec<(String, Json)>),
}

pub open spec fn jv(j: Json) -> Jv
    decreases j,
{
    match j {
        Json::Null => Jv::Null,
        Json::Bool(b) => Jv::Bool(b),
        Json::Num(s) => Jv::Num(s@),
        Json::Str(s) => Jv::Str(s@),
        Json::Arr(v) => Jv::Arr(jv_seq(v@)),
        Json::Obj(v) => Jv::Obj(jv_pairs(v@)),
    }
}

pub open spec fn jv_seq(s: Seq<Json>) -> Seq<Jv>
    decreases s,
{
    if s.len() == 0 {
        Seq::empty()
    } else {
        jv_seq(s.drop_last()).push(jv(s.last()))
    }
}

pub open spec fn jv_pairs(s: Seq<(String, Json)>) -> Seq<(Seq<char>, Jv)>
    decreases s,
{
    if s.len() == 0 {
        Seq::empty()
    } else {
        jv_pairs(s.drop_last()).push((s.last().0@, jv(s.last().1)))
    }
}

pub broadcast proof fn lemma_jv_seq(s: Seq<Json>)
    ensures
        (#[trigger] jv_seq(s)).len() == s.len(),
        forall|i: int| 0 <= i < s.len() ==> jv_seq(s)[i] == jv(s[i]),
    decreases s.len(),
{
    if s.len() > 0 {
        lemma_jv_seq(s.drop_last());
    }
}

pub broadcast proof fn lemma_jv_pairs(s: Seq<(String, Json)>)
    ensures
        (#[trigger] jv_pairs(s)).len() == s.len(),
        forall|i: int|
            0 <= i < s.len() ==> jv_pairs(s)[i] == (s[i].0@, jv(s[i].1)),
    decreases s.len(),
{
    if s.len() > 0 {
        lemma_jv_pairs(s.drop_last());
    }
}

impl View for Json {
    type V = Jv;

    open spec fn view(&self) -> Jv {
        jv(*self)
    }
}

/// Well-formedness: in every object, the keys strictly increase in
/// lexicographic order (so each key occurs once), recursively.
pub open spec fn wf(v: Jv) -> bool
    decreases v,
{
    match v {
        Jv::Arr(s) => wf_seq(s),
        Jv::Obj(ps) => sorted_keys(ps) && wf_pairs(ps),
        _ => true,
    }
}

pub open spec fn wf_seq(s: Seq<Jv>) -> bool
    decreases s,
{
    if s.len() == 0 {
        true
    } else {
        wf_seq(s.drop_last()) && wf(s.last())
    }
}

pub open spec fn wf_pairs(s: Seq<(Seq<char>, Jv)>) -> bool
    decreases s,
{
    if s.len() == 0 {
        true
    } else {
        wf_pairs(s.drop_last()) && wf(s.last().1)
    }
}

/// Adjacent keys strictly increase.
pub open spec fn sorted_keys(s: Seq<(Seq<char>, Jv)>) -> bool {
    forall|i: int| 0 <= i < s.len() - 1 ==> lex_cmp(#[trigger] s[i].0, s[i + 1].0) < 0
}

pub broadcast proof fn lemma_wf_seq(s: Seq<Jv>)
    ensures
        #[trigger] wf_seq(s) <==> (forall|i: int| 0 <= i < s.len() ==> wf(s[i])),
    decreases s.len(),
{
    if s.len() > 0 {
        lemma_wf_seq(s.drop_last());
        assert(forall|i: int| 0 <= i < s.len() - 1 ==> s.drop_last()[i] == s[i]);
        assert(s.last() == s[s.len() - 1]);
    }
}

pub broadcast proof fn lemma_wf_pairs(s: Seq<(Seq<char>, Jv)>)
    ensures
        #[trigger] wf_pairs(s) <==> (forall|i: int| 0 <= i < s.len() ==> wf(s[i].1)),
    decreases s.len(),
{
    if s.len() > 0 {
        lemma_wf_pairs(s.drop_last());
        assert(forall|i: int| 0 <= i < s.len() - 1 ==> s.drop_last()[i] == s[i]);
        assert(s.last() == s[s.len() - 1]);
    }
}

/// The value under the first occurrence of key `k`.
pub open spec fn lookup_pairs(s: Seq<(Seq<char>, Jv)>, k: Seq<char>) -> Option<Jv>
    decreases s.len(),
{
    if s.len() == 0 {
        None
    } else if s[0].0 == k {
        Some(s[0].1)
    } else {
        lookup_pairs(s.subrange(1, s.len() as int), k)
    }
}

/// Field access on a value: defined for objects, absent otherwise.
pub open spec fn jv_get(v: Jv, k: Seq<char>) -> Option<Jv> {
    match v {
        Jv::Obj(ps) => lookup_pairs(ps, k),
        _ => None,
    }
}

proof fn lemma_lookup_skip(s: Seq<(Seq<char>, Jv)>, k: Seq<char>, i: int)
    requires
        0 <= i <= s.len(),
        forall|j: int| 0 <= j < i ==> s[j].0 != k,
    ensures
        lookup_pairs(s, k) == lookup_pairs(s.subrange(i, s.len() as int), k),
    decreases i,
{
    if i == 0 {
        assert(s.subrange(0, s.len() as int) =~= s);
    } else {
        let t = s.subrange(1, s.len() as int);
        lemma_lookup_skip(t, k, i - 1);
        assert(t.subrange(i - 1, t.len() as int) =~= s.subrange(i, s.len() as int));
    }
}

impl Json {
    /// Looks up a field on an object; `None` on other shapes or when the
    /// key is absent.
    pub fn get<'a>(&'a self, key: &str) -> (r: Option<&'a Json>)
        ensures
            match r {
                Some(f) => jv_get(self@, key@) == Some(f@),
                None => jv_get(self@, key@) is None,
            },
    {
        match self {
            Json::Obj(pairs) => {
                let ghost ps = jv_pairs(pairs@);
                proof {
                    lemma_jv_pairs(pairs@);
                }
                let mut i: usize = 0;
                while i < pairs.len()
                    invariant
                        *self == Json::Obj(*pairs),
                        ps == jv_pairs(pairs@),
                        ps.len() == pairs@.len(),
                        forall|n: int|
                            0 <= n < pairs@.len() ==> ps[n] == (pairs@[n].0@, jv(pairs@[n].1)),
                        i <= pairs@.len(),
                        forall|j: int| 0 <= j < i ==> ps[j].0 != key@,
                    decreases pairs@.len() - i,
                {
                    if crate::text::str_eq(pairs[i].0.as_str(), key) {
                        proof {
                            lemma_lookup_skip(ps, key@, i as int);
                            assert(ps.subrange(i as int, ps.len() as int)[0] == ps[i as int]);
                        }
                        return Some(&pairs[i].1);
                    }
                    i = i + 1;
                }
                proof {
                    lemma_lookup_skip(ps, key@, pairs@.len() as int);
                    assert(ps.subrange(ps.len() as int, ps.len() as int) =~= Seq::empty());
                }
                None
            },
            _ => None,
        }
    }

    /// A deep copy with the same model.
    pub fn deep_clone(&self) -> (r: Json)
        ensures
            r@ == self@,
        decreases self,
    {
        match self {
            Json::Null => Json::Null,
            Json::Bool(b) => Json::Bool(*b),
            Json::Num(s) => Json::Num(s.clone()),
            Json::Str(s) => Json::Str(s.clone()),
            Json::Arr(v) => {
                let mut out: Vec<Json> = Vec::new();
                let mut i: usize = 0;
                while i < v.len()
                    invariant
                        *self == Json::Arr(*v),
                        i <= v@.len(),
                        out@.len() == i,
                        forall|k: int| 0 <= k < i ==> jv(#[trigger] out@[k]) == jv(v@[k]),
                    decreases v@.len() - i,
                {
                    proof {
                        assert(decreases_to!(*self => self->Arr_0));
                        assert(decreases_to!(*v => v@));
                        assert(decreases_to!(v@ => v@[i as int]));
                        assert(decreases_to!(*self => v@[i as int]));
                    }
                    let c = v[i].deep_clone();
                    out.push(c);
                    i = i + 1;
                }
                proof {
                    lemma_jv_seq(out@);
                    lemma_jv_seq(v@);
                    assert(jv_seq(out@) =~= jv_seq(v@));
                }
                Json::Arr(out)
            },
            Json::Obj(v) => {
                let mut out: Vec<(String, Json)> = Vec::new();
                let mut i: usize = 0;
                while i < v.len()
                    invariant
                        *self == Json::Obj(*v),
                        i <= v@.len(),
                        out@.len() == i,
                        forall|k: int|
                            0 <= k < i ==> (#[trigger] out@[k]).0@ == v@[k].0@ && jv(out@[k].1)
                                == jv(v@[k].1),
                    decreases v@.len() - i,
                {
                    proof {
                        assert(decreases_to!(*self => self->Obj_0));
                        assert(decreases_to!(*v => v@));
                        assert(decreases_to!(v@ => v@[i as int]));
                        assert(decreases_to!(v@[i as int] => v@[i as int].1));
                        assert(decreases_to!(*self => v@[i as int].1));
                    }
                    let key = v[i].0.clone();
                    let val = v[i].1.deep_clone();
                    out.push((key, val));
                    i = i + 1;
                }
                proof {
                    lemma_jv_pairs(out@);
                    lemma_jv_pairs(v@);
                    assert(jv_pairs(out@) =~= jv_pairs(v@));
                }
                Json::Obj(out)
            },
        }
    }
}

impl Clone for Json {
    fn clone(&self) -> (r: Json)
        ensures
            r@ == self@,
    {
        self.deep_clone()
    }
}

/// A hexadecimal digit character, lower case.
pub open spec fn hex_digit(d: int) -> char {
    if d < 10 {
        crate::num::digit_char(d)
    } else {
        ((d + 87) as u8) as char
    }
}

/// How one character appears inside a JSON string literal: quote and
/// backslash get a backslash, the named control characters their short
/// escapes, other control characters a `\u00..` escape.
pub open spec fn esc_char(c: char) -> Seq<char> {
    if c == '"' {
        seq!['\\', '"']
    } else if c == '\\' {
        seq!['\\', '\\']
    } else if c == '\u{8}' {
        seq!['\\', 'b']
    } else if c == '\t' {
        seq!['\\', 't']
    } else if c == '\n' {
        seq!['\\', 'n']
    } else if c == '\u{c}' {
        seq!['\\', 'f']
    } else if c == '\r' {
        seq!['\\', 'r']
    } else if (c as u32) < 32 {
        seq!['\\', 'u', '0', '0', hex_digit((c as u32) as int / 16), hex_digit(
            (c as u32) as int % 16,
        )]
    } else {
        seq![c]
    }
}

/// The body of a JSON string literal for `s`.
pub open spec fn escape_seq(s: Seq<char>) -> Seq<char>
    decreases s.len(),
{
    if s.len() == 0 {
        Seq::empty()
    } else {
        escape_seq(s.drop_last()) + esc_char(s.last())
    }
}

/// The canonical compact JSON text of a value: no spaces, fields and
/// elements separated by commas, strings escaped as `esc_char` says.
pub open spec fn text_of(v: Jv) -> Seq<char>
    decreases v,
{
    match v {
        Jv::Null => seq!['n', 'u', 'l', 'l'],
        Jv::Bool(b) => if b {
            seq!['t', 'r', 'u', 'e']
        } else {
            seq!['f', 'a', 'l', 's', 'e']
        },
        Jv::Num(s) => s,
        Jv::Str(s) => seq!['"'] + escape_seq(s) + seq!['"'],
        Jv::Arr(elems) => seq!['['] + arr_body(elems) + seq![']'],
        Jv::Obj(ps) => seq!['{'] + obj_body(ps) + seq!['}'],
    }
}

pub open spec fn arr_body(s: Seq<Jv>) -> Seq<char>
    decreases s,
{
    if s.len() == 0 {
        Seq::empty()
    } else if s.len() == 1 {
        text_of(s.last())
    } else {
        arr_body(s.drop_last()) + seq![','] + text_of(s.last())
    }
}

pub open spec fn obj_body(s: Seq<(Seq<char>, Jv)>) -> Seq<char>
    decreases s,
{
    if s.len() == 0 {
        Seq::empty()
    } else if s.len() == 1 {
        pair_text(s.last())
    } else {
        obj_body(s.drop_last()) + seq![','] + pair_text(s.last())
    }
}

pub open spec fn pair_text(p: (Seq<char>, Jv)) -> Seq<char>
    decreases p,
{
    seq!['"'] + escape_seq(p.0) + seq!['"', ':'] + text_of(p.1)
}

/// Appends the escaped form of `s` to `acc`.
fn push_escaped(acc: &mut String, s: &str)
    ensures
        final(acc)@ == old(acc)@ + escape_seq(s@),
{
    let chars = crate::text::str_chars(s);
    let mut i: usize = 0;
    while i < chars.len()
        invariant
            chars@ == s@,
            i <= chars@.len(),
            acc@ == old(acc)@ + escape_seq(s@.subrange(0, i as int)),
        decreases chars@.len() - i,
    {
        let c = chars[i];
        let u = c as u32;
        if c == '"' {
            crate::text::push_char(acc, '\\');
            crate::text::push_char(acc, '"');
        } else if c == '\\' {
            crate::text::push_char(acc, '\\');
            crate::text::push_char(acc, '\\');
        } else if c == '\u{8}' {
            crate::text::push_char(acc, '\\');
            crate::text::push_char(acc, 'b');
        } else if c == '\t' {
            crate::text::push_char(acc, '\\');
            crate::text::push_char(acc, 't');
        } else if c == '\n' {
            crate::text::push_char(acc, '\\');
            crate::text::push_char(acc, 'n');
        } else if c == '\u{c}' {
            crate::text::push_char(acc, '\\');
            crate::text::push_char(acc, 'f');
        } else if c == '\r' {
            crate::text::push_char(acc, '\\');
            crate::text::push_char(acc, 'r');
        } else if u < 32 {
            crate::text::push_char(acc, '\\');
            crate::text::push_char(acc, 'u');
            crate::text::push_char(acc, '0');
            crate::text::push_char(acc, '0');
            let hi = (u / 16) as u8;
            let lo = (u % 16) as u8;
            let hic = if hi < 10 {
                (hi + 48) as char
            } else {
                (hi + 87) as char
            };
            let loc = if lo < 10 {
                (lo + 48) as char
            } else {
                (lo + 87) as char
            };
            crate::text::push_char(acc, hic);
            crate::text::push_char(acc, loc);
        } else {
            crate::text::push_char(acc, c);
        }
        i = i + 1;
        proof {
            assert(s@.subrange(0, i as int).drop_last() =~= s@.subrange(0, i - 1));
            assert(s@.subrange(0, i as int).last() == c);
            assert(acc@ =~= old(acc)@ + escape_seq(s@.subrange(0, i as int)));
        }
    }
    proof {
        assert(s@.subrange(0, s@.len() as int) =~= s@);
    }
}

/// Appends the canonical text of `j` to `acc`.
fn push_text(acc: &mut String, j: &Json)
    ensures
        final(acc)@ == old(acc)@ + text_of(j@),
    decreases j,
{
    match j {
        Json::Null => {
            acc.append("null");
            proof {
                reveal_strlit("null");
                assert(acc@ =~= old(acc)@ + text_of(j@));
            }
        },
        Json::Bool(b) => {
            if *b {
                acc.append("true");
                proof {
                    reveal_strlit("true");
                    assert(acc@ =~= old(acc)@ + text_of(j@));
                }
            } else {
                acc.append("false");
                proof {
                    reveal_strlit("false");
                    assert(acc@ =~= old(acc)@ + text_of(j@));
                }
            }
        },
        Json::Num(s) => {
            acc.append(s.as_str());
        },
        Json::Str(s) => {
            crate::text::push_char(acc, '"');
            push_escaped(acc, s.as_str());
            crate::text::push_char(acc, '"');
            proof {
                assert(acc@ =~= old(acc)@ + text_of(j@));
            }
        },
        Json::Arr(v) => {
            proof {
                lemma_jv_seq(v@);
            }
            crate::text::push_char(acc, '[');
            let mut i: usize = 0;
            while i < v.len()
                invariant
                    *j == Json::Arr(*v),
                    jv_seq(v@).len() == v@.len(),
                    forall|n: int| 0 <= n < v@.len() ==> jv_seq(v@)[n] == jv(v@[n]),
                    i <= v@.len(),
                    acc@ == old(acc)@ + seq!['['] + arr_body(jv_seq(v@).subrange(0, i as int)),
                decreases v@.len() - i,
            {
                proof {
                    assert(decreases_to!(*j => j->Arr_0));
                    assert(decreases_to!(*v => v@));
                    assert(decreases_to!(v@ => v@[i as int]));
                    assert(decreases_to!(*j => v@[i as int]));
                }
                if i > 0 {
                    crate::text::push_char(acc, ',');
                }
                push_text(acc, &v[i]);
                i = i + 1;
                proof {
                    let pre = jv_seq(v@).subrange(0, i - 1);
                    let cur = jv_seq(v@).subrange(0, i as int);
                    assert(cur.drop_last() =~= pre);
                    assert(cur.last() == jv(v@[i - 1]));
                    assert(acc@ =~= old(acc)@ + seq!['['] + arr_body(cur));
                }
            }
            crate::text::push_char(acc, ']');
            proof {
                assert(jv_seq(v@).subrange(0, v@.len() as int) =~= jv_seq(v@));
                assert(acc@ =~= old(acc)@ + text_of(j@));
            }
        },
        Json::Obj(v) => {
            proof {
                lemma_jv_pairs(v@);
            }
            crate::text::push_char(acc, '{');
            let mut i: usize = 0;
            while i < v.len()
                invariant
                    *j == Json::Obj(*v),
                    jv_pairs(v@).len() == v@.len(),
                    forall|n: int|
                        0 <= n < v@.len() ==> jv_pairs(v@)[n] == (v@[n].0@, jv(v@[n].1)),
                    i <= v@.len(),
                    acc@ == old(acc)@ + seq!['{'] + obj_body(jv_pairs(v@).subrange(0, i as int)),
                decreases v@.len() - i,
            {
                proof {
                    assert(decreases_to!(*j => j->Obj_0));
                    assert(decreases_to!(*v => v@));
                    assert(decreases_to!(v@ => v@[i as int]));
                    assert(decreases_to!(v@[i as int] => v@[i as int].1));
                    assert(decreases_to!(*j => v@[i as int].1));
                }
                if i > 0 {
                    crate::text::push_char(acc, ',');
                }
                crate::text::push_char(acc, '"');
                push_escaped(acc, v[i].0.as_str());
                crate::text::push_char(acc, '"');
                crate::text::push_char(acc, ':');
                push_text(acc, &v[i].1);
                i = i + 1;
                proof {
                    let pre = jv_pairs(v@).subrange(0, i - 1);
                    let cur = jv_pairs(v@).subrange(0, i as int);
                    assert(cur.drop_last() =~= pre);
                    assert(cur.last() == (v@[i - 1].0@, jv(v@[i - 1].1)));
                    assert(pair_text(cur.last()) =~= seq!['"'] + escape_seq(v@[i - 1].0@) + seq![
                        '"',
                        ':',
                    ] + text_of(jv(v@[i - 1].1)));
                    assert(acc@ =~= old(acc)@ + seq!['{'] + obj_body(cur));
                }
            }
            crate::text::push_char(acc, '}');
            proof {
                assert(jv_pairs(v@).subrange(0, v@.len() as int) =~= jv_pairs(v@));
                assert(acc@ =~= old(acc)@ + text_of(j@));
            }
        },
    }
}

/// The canonical compact JSON text of a value.
pub fn compact_print(j: &Json) -> (r: String)
    ensures
        r@ == text_of(j@),
{
    let mut acc = String::new();
    push_text(&mut acc, j);
    proof {
        assert(acc@ =~= text_of(j@));
    }
    acc
}

/// Structural equality of two values, decided on the models.
pub fn json_eq(a: &Json, b: &Json) -> (r: bool)
    ensures
        r == (a@ == b@),
    decreases a,
{
    match (a, b) {
        (Json::Null, Json::Null) => true,
        (Json::Bool(x), Json::Bool(y)) => x == y,
        (Json::Num(x), Json::Num(y)) => crate::text::str_eq(x.as_str(), y.as_str()),
        (Json::Str(x), Json::Str(y)) => crate::text::str_eq(x.as_str(), y.as_str()),
        (Json::Arr(x), Json::Arr(y)) => {
            proof {
                lemma_jv_seq(x@);
                lemma_jv_seq(y@);
            }
            if x.len() != y.len() {
                proof {
                    assert(jv_seq(x@).len() != jv_seq(y@).len());
                }
                return false;
            }
            let mut i: usize = 0;
            while i < x.len()
                invariant
                    *a == Json::Arr(*x),
                    *b == Json::Arr(*y),
                    x@.len() == y@.len(),
                    i <= x@.len(),
                    jv_seq(x@).len() == x@.len(),
                    jv_seq(y@).len() == y@.len(),
                    forall|n: int| 0 <= n < x@.len() ==> jv_seq(x@)[n] == jv(x@[n]),
                    forall|n: int| 0 <= n < y@.len() ==> jv_seq(y@)[n] == jv(y@[n]),
                    forall|k: int| 0 <= k < i ==> jv(x@[k]) == jv(y@[k]),
                decreases x@.len() - i,
            {
                proof {
                    assert(decreases_to!(*a => a->Arr_0));
                    assert(decreases_to!(*x => x@));
                    assert(decreases_to!(x@ => x@[i as int]));
                    assert(decreases_to!(*a => x@[i as int]));
                }
                if !json_eq(&x[i], &y[i]) {
                    proof {
                        assert(jv_seq(x@)[i as int] != jv_seq(y@)[i as int]);
                        assert(jv_seq(x@) != jv_seq(y@));
                        assert(a@ == Jv::Arr(jv_seq(x@)));
                        assert(b@ == Jv::Arr(jv_seq(y@)));
                    }
                    return false;
                }
                i = i + 1;
            }
            proof {
                assert(jv_seq(x@) =~= jv_seq(y@));
            }
            true
        },
        (Json::Obj(x), Json::Obj(y)) => {
            proof {
                lemma_jv_pairs(x@);
                lemma_jv_pairs(y@);
            }
            if x.len() != y.len() {
                proof {
                    assert(jv_pairs(x@).len() != jv_pairs(y@).len());
                }
                return false;
            }
            let mut i: usize = 0;
            while i < x.len()
                invariant
                    *a == Json::Obj(*x),
                    *b == Json::Obj(*y),
                    x@.len() == y@.len(),
                    i <= x@.len(),
                    jv_pairs(x@).len() == x@.len(),
                    jv_pairs(y@).len() == y@.len(),
                    forall|n: int|
                        0 <= n < x@.len() ==> jv_pairs(x@)[n] == (x@[n].0@, jv(x@[n].1)),
                    forall|n: int|
                        0 <= n < y@.len() ==> jv_pairs(y@)[n] == (y@[n].0@, jv(y@[n].1)),
                    forall|k: int|
                        0 <= k < i ==> x@[k].0@ == y@[k].0@ && jv(x@[k].1) == jv(y@[k].1),
                decreases x@.len() - i,
            {
                proof {
                    assert(decreases_to!(*a => a->Obj_0));
                    assert(decreases_to!(*x => x@));
                    assert(decreases_to!(x@ => x@[i as int]));
                    assert(decreases_to!(x@[i as int] => x@[i as int].1));
                    assert(decreases_to!(*a => x@[i as int].1));
                }
                if !crate::text::str_eq(x[i].0.as_str(), y[i].0.as_str()) {
                    proof {
                        assert(jv_pairs(x@)[i as int].0 != jv_pairs(y@)[i as int].0);
                        assert(jv_pairs(x@) != jv_pairs(y@));
                        assert(a@ == Jv::Obj(jv_pairs(x@)));
                        assert(b@ == Jv::Obj(jv_pairs(y@)));
                    }
                    return false;
                }
                if !json_eq(&x[i].1, &y[i].1) {
                    proof {
                        assert(jv_pairs(x@)[i as int].1 != jv_pairs(y@)[i as int].1);
                        assert(jv_pairs(x@) != jv_pairs(y@));
                        assert(a@ == Jv::Obj(jv_pairs(x@)));
                        assert(b@ == Jv::Obj(jv_pairs(y@)));
                    }
                    return false;
                }
                i = i + 1;
            }
            proof {
                assert(jv_pairs(x@) =~= jv_pairs(y@));
            }
            true
        },
        _ => false,
    }
}

} // verus!
