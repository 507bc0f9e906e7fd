//! The transform pipeline: commands introduced by `:name` tokens, chained
//! left to right on ` :` boundaries, each reshaping the previous result.
//! Shape mismatches are errors naming the command; a failure anywhere in
//! the chain aborts the remaining commands. The chain is split on the
//! literal two-character boundary ` :` with no regard to quoting.

use vstd::prelude::*;

use crate::json::{filter_pred, obj_values};
use crate::num::{dec_digits, int_text, num_below, num_over, num_plus, num_whole};
use crate::query::spec_parse_predicate;
use crate::text::{find_sub, lex_cmp, trimmed};
use crate::value::{jv, jv_pairs, jv_seq, text_of, Json, Jv};

verus! {

// --- splitting the chain ---

/// The chunks of a chain from `start`, scanning for a ` :` boundary at
/// `i`: each chunk is trimmed and empty chunks are dropped.
pub open spec fn chain_pieces(s: Seq<char>, start: int, i: int) -> Seq<Seq<char>>
    decreases s.len() - i,
{
    if i < 0 || i >= s.len() {
        let last = trimmed(s.subrange(start, s.len() as int));
        if last.len() == 0 {
            Seq::empty()
        } else {
            seq![last]
        }
    } else if i >= 1 && s[i] == ':' && s[i - 1] == ' ' {
        let c = trimmed(s.subrange(start, i));
        let rest = chain_pieces(s, i, i + 1);
        if c.len() == 0 {
            rest
        } else {
            seq![c] + rest
        }
    } else {
        chain_pieces(s, start, i + 1)
    }
}

/// How a chain string divides into single commands.
pub open spec fn split_chain_spec(s0: Seq<char>) -> Seq<Seq<char>> {
    let s = trimmed(s0);
    chain_pieces(s, 0, 1)
}

pub open spec fn pieces_view(v: Seq<String>) -> Seq<Seq<char>> {
    v.map_values(|x: String| x@)
}

/// Splits a possibly chained transform string into single commands.
fn split_chain(input: &str) -> (r: Vec<String>)
    ensures
        pieces_view(r@) == split_chain_spec(input@),
{
    let chars = crate::text::str_chars(input);
    let (lo, hi) = crate::text::trim_bounds(&chars, 0, chars.len());
    proof {
        assert(chars@.subrange(0, chars@.len() as int) =~= chars@);
    }
    let t = crate::text::subvec(&chars, lo, hi);
    let ghost s = trimmed(input@);
    proof {
        assert(t@ == s);
    }
    let mut out: Vec<String> = Vec::new();
    let mut start: usize = 0;
    let mut i: usize = 1;
    while i < t.len()
        invariant
            start <= t@.len(),
            1 <= i,
            start < i || (start == 0 && i == 1),
            i <= t@.len() + 1,
            s == t@,
            chain_pieces(s, 0, 1) == pieces_view(out@) + chain_pieces(s, start as int, i as int),
        decreases t@.len() - i,
    {
        if t[i] == ':' && t[i - 1] == ' ' {
            let (clo, chi) = crate::text::trim_bounds(&t, start, i);
            if clo < chi {
                let chunk = crate::text::chars_to_string_range(&t, clo, chi);
                let ghost old_out = out@;
                out.push(chunk);
                proof {
                    assert(pieces_view(out@) =~= pieces_view(old_out) + seq![
                        trimmed(s.subrange(start as int, i as int)),
                    ]);
                    assert(pieces_view(old_out) + (seq![
                        trimmed(s.subrange(start as int, i as int)),
                    ] + chain_pieces(s, i as int, i + 1)) =~= (pieces_view(old_out) + seq![
                        trimmed(s.subrange(start as int, i as int)),
                    ]) + chain_pieces(s, i as int, i + 1));
                }
            }
            start = i;
        }
        i = i + 1;
    }
    let tl = t.len();
    let (clo, chi) = crate::text::trim_bounds(&t, start, tl);
    if clo < chi {
        let chunk = crate::text::chars_to_string_range(&t, clo, chi);
        let ghost old_out = out@;
        out.push(chunk);
        proof {
            assert(t@.subrange(start as int, t@.len() as int) =~= s.subrange(
                start as int,
                s.len() as int,
            ));
            assert(pieces_view(out@) =~= pieces_view(old_out) + seq![
                trimmed(s.subrange(start as int, s.len() as int)),
            ]);
        }
    } else {
        proof {
            assert(t@.subrange(start as int, t@.len() as int) =~= s.subrange(
                start as int,
                s.len() as int,
            ));
            assert(pieces_view(out@) + Seq::<Seq<char>>::empty() =~= pieces_view(out@));
        }
    }
    proof {
        assert(pieces_view(out@) =~= split_chain_spec(input@));
    }
    out
}

// --- single commands ---

/// A single command split into its name and its argument text.
pub open spec fn split_cmd(c: Seq<char>) -> (Seq<char>, Seq<char>) {
    let t = trimmed(c);
    match find_sub(t, seq![' ']) {
        Some(i) => (t.subrange(0, i), trimmed(t.subrange(i + 1, t.len() as int))),
        None => (t, Seq::empty()),
    }
}

/// The comma-separated field names of an argument list, each trimmed.
pub open spec fn field_list(args: Seq<char>) -> Seq<Seq<char>>
    decreases args.len(),
    via field_list_dec
{
    match find_sub(args, seq![',']) {
        Some(i) => seq![trimmed(args.subrange(0, i))] + field_list(
            args.subrange(i + 1, args.len() as int),
        ),
        None => seq![trimmed(args)],
    }
}

#[via_fn]
proof fn field_list_dec(args: Seq<char>) {
    crate::text::lemma_find_from_bounds(args, seq![','], 0);
}

/// Whether `k` is among the names of `fs`.
pub open spec fn name_in(fs: Seq<Seq<char>>, k: Seq<char>) -> bool {
    exists|i: int| 0 <= i < fs.len() && fs[i] == k
}

/// An object with only the named fields kept (`keep`), or only the other
/// fields kept (`!keep`), in their original order.
pub open spec fn select_pairs(ps: Seq<(Seq<char>, Jv)>, fs: Seq<Seq<char>>, keep: bool) -> Seq<
    (Seq<char>, Jv),
>
    decreases ps.len(),
{
    if ps.len() == 0 {
        Seq::empty()
    } else {
        let r = select_pairs(ps.drop_last(), fs, keep);
        if name_in(fs, ps.last().0) == keep {
            r.push(ps.last())
        } else {
            r
        }
    }
}

/// Each array element reshaped by `select_pairs` when it is an object,
/// kept as it is otherwise.
pub open spec fn select_items(s: Seq<Jv>, fs: Seq<Seq<char>>, keep: bool) -> Seq<Jv>
    decreases s.len(),
{
    if s.len() == 0 {
        Seq::empty()
    } else {
        let r = select_items(s.drop_last(), fs, keep);
        let it = match s.last() {
            Jv::Obj(ps) => Jv::Obj(select_pairs(ps, fs, keep)),
            other => other,
        };
        r.push(it)
    }
}

/// One level of array flattening: nested arrays are spliced in, other
/// elements pass through.
pub open spec fn flatten_one(s: Seq<Jv>) -> Seq<Jv>
    decreases s.len(),
{
    if s.len() == 0 {
        Seq::empty()
    } else {
        flatten_one(s.drop_last()) + (match s.last() {
            Jv::Arr(inner) => inner,
            other => seq![other],
        })
    }
}

/// Global deduplication by structural equality, keeping each value's
/// first occurrence and first-occurrence order.
pub open spec fn dedup_vals(s: Seq<Jv>) -> Seq<Jv>
    decreases s.len(),
{
    if s.len() == 0 {
        Seq::empty()
    } else {
        let r = dedup_vals(s.drop_last());
        if s.drop_last().contains(s.last()) {
            r
        } else {
            r.push(s.last())
        }
    }
}

/// The key under which `:group_by f` files an element: the field's string
/// value, or the text of its value, or `null` when absent.
pub open spec fn group_key(item: Jv, f: Seq<char>) -> Seq<char> {
    match crate::value::jv_get(item, f) {
        Some(v) => match v {
            Jv::Str(s) => s,
            other => text_of(other),
        },
        None => seq!['n', 'u', 'l', 'l'],
    }
}

/// Inserts an element under its key in a key-sorted association list.
pub open spec fn gb_insert(
    g: Seq<(Seq<char>, Seq<Jv>)>,
    k: Seq<char>,
    item: Jv,
) -> Seq<(Seq<char>, Seq<Jv>)>
    decreases g.len(),
{
    if g.len() == 0 {
        seq![(k, seq![item])]
    } else if k == g.last().0 {
        g.drop_last().push((k, g.last().1.push(item)))
    } else if lex_cmp(k, g.last().0) < 0 {
        gb_insert(g.drop_last(), k, item).push(g.last())
    } else {
        g.push((k, seq![item]))
    }
}

/// The groups of `s` under field `f`, keyed and key-sorted.
pub open spec fn group_of(s: Seq<Jv>, f: Seq<char>) -> Seq<(Seq<char>, Seq<Jv>)>
    decreases s.len(),
{
    if s.len() == 0 {
        Seq::empty()
    } else {
        gb_insert(group_of(s.drop_last(), f), group_key(s.last(), f), s.last())
    }
}

/// The grouped object: each bucket an array, in insertion order.
pub open spec fn group_pairs(g: Seq<(Seq<char>, Seq<Jv>)>) -> Seq<(Seq<char>, Jv)> {
    g.map_values(|p: (Seq<char>, Seq<Jv>)| (p.0, Jv::Arr(p.1)))
}

// --- sorting ---

/// The type-aware comparison used by `:sort field`: numbers by double
/// order, strings lexicographically, anything else by its text.
pub open spec fn cmp_jv(a: Jv, b: Jv) -> int {
    match (a, b) {
        (Jv::Num(x), Jv::Num(y)) => if num_below(x, y) {
            -1
        } else if num_below(y, x) {
            1
        } else {
            0
        },
        (Jv::Str(x), Jv::Str(y)) => lex_cmp(x, y),
        _ => lex_cmp(text_of(a), text_of(b)),
    }
}

/// The sort key of an element under `:sort f`: its `f` field, or null.
pub open spec fn sort_key_of(item: Jv, f: Seq<char>) -> Jv {
    match crate::value::jv_get(item, f) {
        Some(x) => x,
        None => Jv::Null,
    }
}

/// Inserts `x` after every element whose text is not above `x`'s.
pub open spec fn insert_text(s: Seq<Jv>, x: Jv) -> Seq<Jv>
    decreases s.len(),
{
    if s.len() == 0 {
        seq![x]
    } else if lex_cmp(text_of(x), text_of(s.last())) < 0 {
        insert_text(s.drop_last(), x).push(s.last())
    } else {
        s.push(x)
    }
}

/// The stable sort of `s` by the texts of its elements.
pub open spec fn sort_text(s: Seq<Jv>) -> Seq<Jv>
    decreases s.len(),
{
    if s.len() == 0 {
        Seq::empty()
    } else {
        insert_text(sort_text(s.drop_last()), s.last())
    }
}

pub open spec fn insert_field(s: Seq<Jv>, x: Jv, f: Seq<char>) -> Seq<Jv>
    decreases s.len(),
{
    if s.len() == 0 {
        seq![x]
    } else if cmp_jv(sort_key_of(x, f), sort_key_of(s.last(), f)) < 0 {
        insert_field(s.drop_last(), x, f).push(s.last())
    } else {
        s.push(x)
    }
}

/// The stable sort of `s` by the `f` field of its elements.
pub open spec fn sort_field(s: Seq<Jv>, f: Seq<char>) -> Seq<Jv>
    decreases s.len(),
{
    if s.len() == 0 {
        Seq::empty()
    } else {
        insert_field(sort_field(s.drop_last(), f), s.last(), f)
    }
}

// --- numeric reductions ---

/// The number texts that `:sum`/`:avg`/`:min`/`:max` draw from an array:
/// whole elements when no field is named, else the named field of each
/// element; anything non-numeric is skipped.
pub open spec fn nums_of(s: Seq<Jv>, f: Seq<char>) -> Seq<Seq<char>>
    decreases s.len(),
{
    if s.len() == 0 {
        Seq::empty()
    } else {
        let r = nums_of(s.drop_last(), f);
        let v = if f.len() == 0 {
            s.last()
        } else {
            match crate::value::jv_get(s.last(), f) {
                Some(x) => x,
                None => Jv::Null,
            }
        };
        match v {
            Jv::Num(t) => r.push(t),
            _ => r,
        }
    }
}

/// The left fold of double addition over number texts, from zero; `None`
/// once the running sum leaves the finite range.
pub open spec fn fold_add(ts: Seq<Seq<char>>) -> Option<Seq<char>>
    decreases ts.len(),
{
    if ts.len() == 0 {
        Some(seq!['0'])
    } else {
        match fold_add(ts.drop_last()) {
            Some(acc) => num_plus(acc, ts.last()),
            None => None,
        }
    }
}

/// The left fold of double minimum.
pub open spec fn fold_min(ts: Seq<Seq<char>>) -> Option<Seq<char>>
    decreases ts.len(),
{
    if ts.len() == 0 {
        None
    } else if ts.len() == 1 {
        Some(ts[0])
    } else {
        match fold_min(ts.drop_last()) {
            Some(acc) => Some(
                if num_below(ts.last(), acc) {
                    ts.last()
                } else {
                    acc
                },
            ),
            None => None,
        }
    }
}

/// The left fold of double maximum.
pub open spec fn fold_max(ts: Seq<Seq<char>>) -> Option<Seq<char>>
    decreases ts.len(),
{
    if ts.len() == 0 {
        None
    } else if ts.len() == 1 {
        Some(ts[0])
    } else {
        match fold_max(ts.drop_last()) {
            Some(acc) => Some(
                if num_below(acc, ts.last()) {
                    ts.last()
                } else {
                    acc
                },
            ),
            None => None,
        }
    }
}

/// A reduction result as a JSON value: whole numbers become integer
/// texts, others keep their text.
pub open spec fn num_to_jv(t: Seq<char>) -> Jv {
    match num_whole(t) {
        Some(i) => Jv::Num(int_text(i as int)),
        None => Jv::Num(t),
    }
}

pub open spec fn spec_sum(a: Seq<Jv>, args: Seq<char>) -> Jv {
    match fold_add(nums_of(a, args)) {
        Some(t) => num_to_jv(t),
        None => Jv::Null,
    }
}

pub open spec fn spec_avg(a: Seq<Jv>, args: Seq<char>) -> Jv {
    let ts = nums_of(a, args);
    if ts.len() == 0 {
        Jv::Null
    } else {
        match fold_add(ts) {
            Some(t) => match num_over(t, ts.len() as usize) {
                Some(q) => num_to_jv(q),
                None => Jv::Null,
            },
            None => Jv::Null,
        }
    }
}

pub open spec fn spec_min(a: Seq<Jv>, args: Seq<char>) -> Jv {
    match fold_min(nums_of(a, args)) {
        Some(t) => num_to_jv(t),
        None => Jv::Null,
    }
}

pub open spec fn spec_max(a: Seq<Jv>, args: Seq<char>) -> Jv {
    match fold_max(nums_of(a, args)) {
        Some(t) => num_to_jv(t),
        None => Jv::Null,
    }
}

// --- the dispatch ---

/// What one transform command yields on a value, or the message naming
/// what went wrong.
pub open spec fn spec_single(v: Jv, cmd: Seq<char>) -> Result<Jv, Seq<char>> {
    let (name, args) = split_cmd(cmd);
    if name == ":keys"@ {
        match v {
            Jv::Obj(ps) => Ok(Jv::Arr(ps.map_values(|p: (Seq<char>, Jv)| Jv::Str(p.0)))),
            _ => Err(":keys requires an object"@),
        }
    } else if name == ":values"@ {
        match v {
            Jv::Obj(ps) => Ok(Jv::Arr(obj_values(ps))),
            _ => Err(":values requires an object"@),
        }
    } else if name == ":count"@ {
        match v {
            Jv::Arr(a) => Ok(Jv::Num(dec_digits(a.len()))),
            Jv::Obj(ps) => Ok(Jv::Num(dec_digits(ps.len()))),
            _ => Err(":count requires an array or object"@),
        }
    } else if name == ":flatten"@ {
        match v {
            Jv::Arr(a) => Ok(Jv::Arr(flatten_one(a))),
            _ => Err(":flatten requires an array"@),
        }
    } else if name == ":pick"@ {
        if args.len() == 0 {
            Err(":pick requires field names (e.g., :pick name,email)"@)
        } else {
            let fs = field_list(args);
            match v {
                Jv::Arr(a) => Ok(Jv::Arr(select_items(a, fs, true))),
                Jv::Obj(ps) => Ok(Jv::Obj(select_pairs(ps, fs, true))),
                _ => Err(":pick requires an array of objects or an object"@),
            }
        }
    } else if name == ":omit"@ {
        if args.len() == 0 {
            Err(":omit requires field names (e.g., :omit metadata,internal)"@)
        } else {
            let fs = field_list(args);
            match v {
                Jv::Arr(a) => Ok(Jv::Arr(select_items(a, fs, false))),
                Jv::Obj(ps) => Ok(Jv::Obj(select_pairs(ps, fs, false))),
                _ => Err(":omit requires an array of objects or an object"@),
            }
        }
    } else if name == ":sort"@ {
        match v {
            Jv::Arr(a) => if args.len() == 0 {
                Ok(Jv::Arr(sort_text(a)))
            } else {
                Ok(Jv::Arr(sort_field(a, args)))
            },
            _ => Err(":sort requires an array"@),
        }
    } else if name == ":uniq"@ {
        match v {
            Jv::Arr(a) => Ok(Jv::Arr(dedup_vals(a))),
            _ => Err(":uniq requires an array"@),
        }
    } else if name == ":group_by"@ {
        if args.len() == 0 {
            Err(":group_by requires a field name (e.g., :group_by type)"@)
        } else {
            match v {
                Jv::Arr(a) => Ok(Jv::Obj(group_pairs(group_of(a, args)))),
                _ => Err(":group_by requires an array"@),
            }
        }
    } else if name == ":filter"@ {
        if args.len() == 0 {
            Err(":filter requires a predicate (e.g., :filter price < 10)"@)
        } else {
            match spec_parse_predicate(args) {
                Err(e) => Err(":filter invalid predicate: "@ + e),
                Ok(p) => match v {
                    Jv::Arr(a) => Ok(Jv::Arr(filter_pred(a, p))),
                    _ => Err(":filter requires an array"@),
                },
            }
        }
    } else if name == ":sum"@ {
        match v {
            Jv::Arr(a) => Ok(spec_sum(a, args)),
            _ => Err(":sum requires an array"@),
        }
    } else if name == ":avg"@ {
        match v {
            Jv::Arr(a) => Ok(spec_avg(a, args)),
            _ => Err(":avg requires an array"@),
        }
    } else if name == ":min"@ {
        match v {
            Jv::Arr(a) => Ok(spec_min(a, args)),
            _ => Err(":min requires an array"@),
        }
    } else if name == ":max"@ {
        match v {
            Jv::Arr(a) => Ok(spec_max(a, args)),
            _ => Err(":max requires an array"@),
        }
    } else {
        Err("unknown transform command: "@ + name)
    }
}

/// The whole chain applied left to right; the first failure wins.
pub open spec fn apply_cmds(v: Jv, cmds: Seq<Seq<char>>, i: int) -> Result<Jv, Seq<char>>
    decreases cmds.len() - i,
{
    if i < 0 || i >= cmds.len() {
        Ok(v)
    } else {
        match spec_single(v, cmds[i]) {
            Ok(w) => apply_cmds(w, cmds, i + 1),
            Err(e) => Err(e),
        }
    }
}

/// What applying a chain string to a value yields.
pub open spec fn spec_transform(v: Jv, command: Seq<char>) -> Result<Jv, Seq<char>> {
    apply_cmds(v, split_chain_spec(command), 0)
}

// --- executable helpers ---

/// The comma-separated, trimmed field names of an argument list.
fn fields_exec(v: &Vec<char>) -> (r: Vec<String>)
    ensures
        pieces_view(r@) == field_list(v@),
    decreases v@.len(),
{
    let mut comma: Vec<char> = Vec::new();
    comma.push(',');
    proof {
        assert(comma@ =~= seq![',']);
    }
    match crate::text::find_sub_exec(v, &comma) {
        Some(i) => {
            let (hlo, hhi) = crate::text::trim_bounds(v, 0, i);
            let head = crate::text::chars_to_string_range(v, hlo, hhi);
            let n = v.len();
            let tail = crate::text::subvec(v, i + 1, n);
            let mut rest = fields_exec(&tail);
            proof {
                assert(pieces_view(rest@.insert(0, head)) =~= seq![head@] + pieces_view(rest@));
            }
            rest.insert(0, head);
            rest
        },
        None => {
            let n = v.len();
            let (hlo, hhi) = crate::text::trim_bounds(v, 0, n);
            proof {
                assert(v@.subrange(0, v@.len() as int) =~= v@);
            }
            let head = crate::text::chars_to_string_range(v, hlo, hhi);
            let mut r: Vec<String> = Vec::new();
            r.push(head);
            proof {
                assert(pieces_view(r@) =~= seq![trimmed(v@)]);
            }
            r
        },
    }
}

/// Whether `k` is among the field names.
fn name_in_exec(fs: &Vec<String>, k: &str) -> (r: bool)
    ensures
        r == name_in(pieces_view(fs@), k@),
{
    let mut i: usize = 0;
    while i < fs.len()
        invariant
            i <= fs@.len(),
            forall|j: int| 0 <= j < i ==> pieces_view(fs@)[j] != k@,
        decreases fs@.len() - i,
    {
        if crate::text::str_eq(fs[i].as_str(), k) {
            proof {
                assert(pieces_view(fs@)[i as int] == k@);
            }
            return true;
        }
        i = i + 1;
    }
    false
}

/// Keeps (or drops) the named fields of an object's pairs.
fn select_pairs_exec(ps: &Vec<(String, Json)>, fs: &Vec<String>, keep: bool) -> (r: Vec<
    (String, Json),
>)
    ensures
        jv_pairs(r@) == select_pairs(jv_pairs(ps@), pieces_view(fs@), keep),
{
    proof {
        crate::value::lemma_jv_pairs(ps@);
    }
    let ghost pv = jv_pairs(ps@);
    let mut out: Vec<(String, Json)> = Vec::new();
    let mut i: usize = 0;
    while i < ps.len()
        invariant
            i <= ps@.len(),
            pv == jv_pairs(ps@),
            pv.len() == ps@.len(),
            forall|n: int| 0 <= n < ps@.len() ==> pv[n] == (ps@[n].0@, jv(ps@[n].1)),
            jv_pairs(out@) == select_pairs(pv.subrange(0, i as int), pieces_view(fs@), keep),
        decreases ps@.len() - i,
    {
        let ghost pre = pv.subrange(0, i as int);
        let ghost cur = pv.subrange(0, i + 1);
        proof {
            assert(cur.drop_last() =~= pre);
            assert(cur.last() == pv[i as int]);
        }
        if name_in_exec(fs, ps[i].0.as_str()) == keep {
            let key = ps[i].0.clone();
            let val = ps[i].1.deep_clone();
            let ghost old_out = out@;
            out.push((key, val));
            proof {
                assert(out@.drop_last() =~= old_out);
                crate::value::lemma_jv_pairs(out@);
                crate::value::lemma_jv_pairs(old_out);
                assert(jv_pairs(out@) =~= jv_pairs(old_out).push(pv[i as int]));
            }
        }
        i = i + 1;
    }
    proof {
        assert(pv.subrange(0, pv.len() as int) =~= pv);
    }
    out
}

/// Applies `select_pairs` to each object of an array.
fn select_items_exec(a: &Vec<Json>, fs: &Vec<String>, keep: bool) -> (r: Vec<Json>)
    ensures
        jv_seq(r@) == select_items(jv_seq(a@), pieces_view(fs@), keep),
{
    proof {
        crate::value::lemma_jv_seq(a@);
    }
    let ghost av = jv_seq(a@);
    let mut out: Vec<Json> = Vec::new();
    let mut i: usize = 0;
    while i < a.len()
        invariant
            i <= a@.len(),
            av == jv_seq(a@),
            av.len() == a@.len(),
            forall|n: int| 0 <= n < a@.len() ==> av[n] == jv(a@[n]),
            jv_seq(out@) == select_items(av.subrange(0, i as int), pieces_view(fs@), keep),
        decreases a@.len() - i,
    {
        let ghost pre = av.subrange(0, i as int);
        let ghost cur = av.subrange(0, i + 1);
        proof {
            assert(cur.drop_last() =~= pre);
            assert(cur.last() == av[i as int]);
        }
        let item = match &a[i] {
            Json::Obj(ps) => Json::Obj(select_pairs_exec(ps, fs, keep)),
            other => other.deep_clone(),
        };
        let ghost old_out = out@;
        out.push(item);
        proof {
            assert(out@.drop_last() =~= old_out);
            crate::value::lemma_jv_seq(out@);
            crate::value::lemma_jv_seq(old_out);
            assert(jv_seq(out@) =~= jv_seq(old_out).push(
                match av[i as int] {
                    Jv::Obj(ps) => Jv::Obj(select_pairs(ps, pieces_view(fs@), keep)),
                    other => other,
                },
            ));
        }
        i = i + 1;
    }
    proof {
        assert(av.subrange(0, av.len() as int) =~= av);
    }
    out
}

/// Concatenates one level of nested arrays.
fn flatten_exec(a: &Vec<Json>) -> (r: Vec<Json>)
    ensures
        jv_seq(r@) == flatten_one(jv_seq(a@)),
{
    proof {
        crate::value::lemma_jv_seq(a@);
    }
    let ghost av = jv_seq(a@);
    let mut out: Vec<Json> = Vec::new();
    let mut i: usize = 0;
    while i < a.len()
        invariant
            i <= a@.len(),
            av == jv_seq(a@),
            av.len() == a@.len(),
            forall|n: int| 0 <= n < a@.len() ==> av[n] == jv(a@[n]),
            jv_seq(out@) == flatten_one(av.subrange(0, i as int)),
        decreases a@.len() - i,
    {
        let ghost pre = av.subrange(0, i as int);
        let ghost cur = av.subrange(0, i + 1);
        proof {
            assert(cur.drop_last() =~= pre);
            assert(cur.last() == av[i as int]);
        }
        match &a[i] {
            Json::Arr(inner) => {
                proof {
                    crate::value::lemma_jv_seq(inner@);
                }
                let mut k: usize = 0;
                let ghost entry = out@;
                while k < inner.len()
                    invariant
                        k <= inner@.len(),
                        jv_seq(inner@).len() == inner@.len(),
                        forall|n: int|
                            0 <= n < inner@.len() ==> jv_seq(inner@)[n] == jv(inner@[n]),
                        out@.len() == entry.len() + k,
                        out@.subrange(0, entry.len() as int) == entry,
                        forall|n: int|
                            0 <= n < k ==> jv(#[trigger] out@[entry.len() + n]) == jv_seq(
                                inner@,
                            )[n],
                        jv_seq(entry) == flatten_one(pre),
                        av[i as int] == Jv::Arr(jv_seq(inner@)),
                    decreases inner@.len() - k,
                {
                    let c = inner[k].deep_clone();
                    let ghost before = out@;
                    out.push(c);
                    proof {
                        assert(out@.subrange(0, entry.len() as int) =~= before.subrange(
                            0,
                            entry.len() as int,
                        ));
                    }
                    k = k + 1;
                }
                proof {
                    crate::value::lemma_jv_seq(out@);
                    crate::value::lemma_jv_seq(entry);
                    assert(forall|n: int| 0 <= n < entry.len() ==> out@[n] == entry[n]);
                    assert forall|m: int|
                        entry.len() <= m < out@.len() implies jv_seq(out@)[m] == jv_seq(
                        inner@,
                    )[m - entry.len()] by {
                        let n = m - entry.len();
                        assert(jv(out@[entry.len() + n]) == jv_seq(inner@)[n]);
                    }
                    assert(jv_seq(out@) =~= jv_seq(entry) + jv_seq(inner@));
                    assert(jv_seq(out@) =~= flatten_one(cur));
                }
            },
            other => {
                let c = other.deep_clone();
                let ghost old_out = out@;
                out.push(c);
                proof {
                    assert(out@.drop_last() =~= old_out);
                    crate::value::lemma_jv_seq(out@);
                    crate::value::lemma_jv_seq(old_out);
                    assert(jv_seq(out@) =~= jv_seq(old_out).push(av[i as int]));
                    assert(jv_seq(old_out).push(av[i as int]) =~= jv_seq(old_out) + seq![
                        av[i as int],
                    ]);
                }
            },
        }
        i = i + 1;
    }
    proof {
        assert(av.subrange(0, av.len() as int) =~= av);
    }
    out
}

/// Removes duplicates by structural equality, keeping first occurrences.
fn dedup_exec(a: &Vec<Json>) -> (r: Vec<Json>)
    ensures
        jv_seq(r@) == dedup_vals(jv_seq(a@)),
{
    proof {
        crate::value::lemma_jv_seq(a@);
    }
    let ghost av = jv_seq(a@);
    let mut out: Vec<Json> = Vec::new();
    let mut i: usize = 0;
    while i < a.len()
        invariant
            i <= a@.len(),
            av == jv_seq(a@),
            av.len() == a@.len(),
            forall|n: int| 0 <= n < a@.len() ==> av[n] == jv(a@[n]),
            jv_seq(out@) == dedup_vals(av.subrange(0, i as int)),
        decreases a@.len() - i,
    {
        let ghost pre = av.subrange(0, i as int);
        let ghost cur = av.subrange(0, i + 1);
        proof {
            assert(cur.drop_last() =~= pre);
            assert(cur.last() == av[i as int]);
        }
        let mut seen = false;
        let mut j: usize = 0;
        while j < i
            invariant
                j <= i < a@.len(),
                av == jv_seq(a@),
                av.len() == a@.len(),
                forall|n: int| 0 <= n < a@.len() ==> av[n] == jv(a@[n]),
                pre == av.subrange(0, i as int),
                seen ==> pre.contains(av[i as int]),
                !seen ==> forall|n: int| 0 <= n < j ==> av[n] != av[i as int],
            decreases i - j,
        {
            if !seen {
                if crate::value::json_eq(&a[j], &a[i]) {
                    proof {
                        assert(av[j as int] == av[i as int]);
                        assert(pre[j as int] == av[j as int]);
                    }
                    seen = true;
                }
            }
            j = j + 1;
        }
        proof {
            if !seen {
                assert(forall|n: int| 0 <= n < pre.len() ==> pre[n] == av[n]);
                assert(!pre.contains(av[i as int]));
            }
        }
        if !seen {
            let c = a[i].deep_clone();
            let ghost old_out = out@;
            out.push(c);
            proof {
                assert(out@.drop_last() =~= old_out);
                crate::value::lemma_jv_seq(out@);
                crate::value::lemma_jv_seq(old_out);
                assert(jv_seq(out@) =~= jv_seq(old_out).push(av[i as int]));
            }
        }
        i = i + 1;
    }
    proof {
        assert(av.subrange(0, av.len() as int) =~= av);
    }
    out
}

// --- sorting, executable ---

proof fn lemma_insert_text_at(s: Seq<Jv>, x: Jv, m: int)
    requires
        0 <= m <= s.len(),
        forall|j: int| m <= j < s.len() ==> lex_cmp(text_of(x), text_of(#[trigger] s[j])) < 0,
        m > 0 ==> !(lex_cmp(text_of(x), text_of(s[m - 1])) < 0),
    ensures
        insert_text(s, x) == s.insert(m, x),
    decreases s.len(),
{
    if s.len() == 0 {
        assert(seq![x] =~= s.insert(0, x));
    } else if m == s.len() as int {
        assert(s.push(x) =~= s.insert(m, x));
    } else {
        lemma_insert_text_at(s.drop_last(), x, m);
        assert(s.drop_last().insert(m, x).push(s.last()) =~= s.insert(m, x));
    }
}

proof fn lemma_insert_field_at(s: Seq<Jv>, x: Jv, f: Seq<char>, m: int)
    requires
        0 <= m <= s.len(),
        forall|j: int|
            m <= j < s.len() ==> cmp_jv(sort_key_of(x, f), sort_key_of(#[trigger] s[j], f)) < 0,
        m > 0 ==> !(cmp_jv(sort_key_of(x, f), sort_key_of(s[m - 1], f)) < 0),
    ensures
        insert_field(s, x, f) == s.insert(m, x),
    decreases s.len(),
{
    if s.len() == 0 {
        assert(seq![x] =~= s.insert(0, x));
    } else if m == s.len() as int {
        assert(s.push(x) =~= s.insert(m, x));
    } else {
        lemma_insert_field_at(s.drop_last(), x, f, m);
        assert(s.drop_last().insert(m, x).push(s.last()) =~= s.insert(m, x));
    }
}

/// Compares two elements by their canonical texts.
fn cmp_text_exec(a: &Json, b: &Json) -> (r: i8)
    ensures
        r == lex_cmp(text_of(a@), text_of(b@)),
        -1 <= r <= 1,
{
    let ta = crate::value::compact_print(a);
    let tb = crate::value::compact_print(b);
    crate::text::str_cmp(ta.as_str(), tb.as_str())
}

/// Compares two elements the way `:sort field` does.
fn cmp_jv_exec(a: &Json, b: &Json) -> (r: i8)
    ensures
        (r < 0) == (cmp_jv(a@, b@) < 0),
        (r == 0) == (cmp_jv(a@, b@) == 0),
        (r > 0) == (cmp_jv(a@, b@) > 0),
{
    match (a, b) {
        (Json::Num(x), Json::Num(y)) => {
            if crate::num::num_lt(x.as_str(), y.as_str()) {
                -1
            } else if crate::num::num_lt(y.as_str(), x.as_str()) {
                1
            } else {
                0
            }
        },
        (Json::Str(x), Json::Str(y)) => crate::text::str_cmp(x.as_str(), y.as_str()),
        _ => cmp_text_exec(a, b),
    }
}

/// The stable sort of an array by element text.
fn sort_text_exec(a: &Vec<Json>) -> (r: Vec<Json>)
    ensures
        jv_seq(r@) == sort_text(jv_seq(a@)),
{
    proof {
        crate::value::lemma_jv_seq(a@);
    }
    let ghost av = jv_seq(a@);
    let mut out: Vec<Json> = Vec::new();
    let mut i: usize = 0;
    while i < a.len()
        invariant
            i <= a@.len(),
            av == jv_seq(a@),
            av.len() == a@.len(),
            forall|n: int| 0 <= n < a@.len() ==> av[n] == jv(a@[n]),
            jv_seq(out@) == sort_text(av.subrange(0, i as int)),
            out@.len() == i,
        decreases a@.len() - i,
    {
        let ghost pre = av.subrange(0, i as int);
        let ghost cur = av.subrange(0, i + 1);
        proof {
            assert(cur.drop_last() =~= pre);
            assert(cur.last() == av[i as int]);
            crate::value::lemma_jv_seq(out@);
        }
        let x = a[i].deep_clone();
        let mut m: usize = out.len();
        while m > 0 && cmp_text_exec(&x, &out[m - 1]) < 0
            invariant
                m <= out@.len(),
                jv(x) == av[i as int],
                jv_seq(out@).len() == out@.len(),
                forall|n: int| 0 <= n < out@.len() ==> jv_seq(out@)[n] == jv(out@[n]),
                forall|j: int|
                    m <= j < out@.len() ==> lex_cmp(text_of(jv(x)), text_of(
                        #[trigger] jv_seq(out@)[j],
                    )) < 0,
            decreases m,
        {
            m = m - 1;
        }
        proof {
            lemma_insert_text_at(jv_seq(out@), jv(x), m as int);
        }
        let ghost old_out = out@;
        out.insert(m, x);
        proof {
            crate::value::lemma_jv_seq(out@);
            crate::value::lemma_jv_seq(old_out);
            assert(jv_seq(out@) =~= jv_seq(old_out).insert(m as int, av[i as int]));
        }
        i = i + 1;
    }
    proof {
        assert(av.subrange(0, av.len() as int) =~= av);
    }
    out
}

/// The stable sort of an array by a named field.
fn sort_field_exec(a: &Vec<Json>, f: &str) -> (r: Vec<Json>)
    ensures
        jv_seq(r@) == sort_field(jv_seq(a@), f@),
{
    proof {
        crate::value::lemma_jv_seq(a@);
    }
    let ghost av = jv_seq(a@);
    let null = Json::Null;
    let mut out: Vec<Json> = Vec::new();
    let mut i: usize = 0;
    while i < a.len()
        invariant
            i <= a@.len(),
            av == jv_seq(a@),
            av.len() == a@.len(),
            forall|n: int| 0 <= n < a@.len() ==> av[n] == jv(a@[n]),
            jv_seq(out@) == sort_field(av.subrange(0, i as int), f@),
            out@.len() == i,
            null == Json::Null,
        decreases a@.len() - i,
    {
        let ghost pre = av.subrange(0, i as int);
        let ghost cur = av.subrange(0, i + 1);
        proof {
            assert(cur.drop_last() =~= pre);
            assert(cur.last() == av[i as int]);
            crate::value::lemma_jv_seq(out@);
        }
        let x = a[i].deep_clone();
        let xk: &Json = match x.get(f) {
            Some(v) => v,
            None => &null,
        };
        proof {
            assert(xk@ == sort_key_of(jv(x), f@));
        }
        let mut m: usize = out.len();
        let mut stop = false;
        while !stop && m > 0
            invariant
                m <= out@.len(),
                jv(x) == av[i as int],
                xk@ == sort_key_of(jv(x), f@),
                null == Json::Null,
                jv_seq(out@).len() == out@.len(),
                forall|n: int| 0 <= n < out@.len() ==> jv_seq(out@)[n] == jv(out@[n]),
                forall|j: int|
                    m <= j < out@.len() ==> cmp_jv(sort_key_of(jv(x), f@), sort_key_of(
                        #[trigger] jv_seq(out@)[j],
                        f@,
                    )) < 0,
                stop ==> m > 0 && !(cmp_jv(sort_key_of(jv(x), f@), sort_key_of(
                    jv_seq(out@)[m - 1],
                    f@,
                )) < 0),
            decreases m + (if stop { 0int } else { 1int }),
        {
            let yk: &Json = match out[m - 1].get(f) {
                Some(v) => v,
                None => &null,
            };
            proof {
                assert(yk@ == sort_key_of(jv_seq(out@)[m - 1], f@));
            }
            if cmp_jv_exec(xk, yk) < 0 {
                m = m - 1;
            } else {
                stop = true;
            }
        }
        proof {
            lemma_insert_field_at(jv_seq(out@), jv(x), f@, m as int);
        }
        let ghost old_out = out@;
        out.insert(m, x);
        proof {
            crate::value::lemma_jv_seq(out@);
            crate::value::lemma_jv_seq(old_out);
            assert(jv_seq(out@) =~= jv_seq(old_out).insert(m as int, av[i as int]));
        }
        i = i + 1;
    }
    proof {
        assert(av.subrange(0, av.len() as int) =~= av);
    }
    out
}

// --- grouping, executable ---

pub open spec fn groups_view(a: Seq<(String, Vec<Json>)>) -> Seq<(Seq<char>, Seq<Jv>)> {
    a.map_values(|p: (String, Vec<Json>)| (p.0@, jv_seq(p.1@)))
}

proof fn lemma_gb_insert_at(g: Seq<(Seq<char>, Seq<Jv>)>, k: Seq<char>, item: Jv, m: int)
    requires
        0 <= m <= g.len(),
        forall|j: int| m <= j < g.len() ==> lex_cmp(k, (#[trigger] g[j]).0) < 0,
        m > 0 ==> !(lex_cmp(k, g[m - 1].0) < 0),
    ensures
        gb_insert(g, k, item) == if m > 0 && k == g[m - 1].0 {
            g.update(m - 1, (k, g[m - 1].1.push(item)))
        } else {
            g.insert(m, (k, seq![item]))
        },
    decreases g.len(),
{
    if g.len() == 0 {
        assert(seq![(k, seq![item])] =~= g.insert(0, (k, seq![item])));
    } else if m == g.len() as int {
        if k == g.last().0 {
            assert(g.drop_last().push((k, g.last().1.push(item))) =~= g.update(
                m - 1,
                (k, g[m - 1].1.push(item)),
            ));
        } else {
            assert(g.push((k, seq![item])) =~= g.insert(m, (k, seq![item])));
        }
    } else {
        crate::text::lemma_lex_cmp_eq(k, g.last().0);
        lemma_gb_insert_at(g.drop_last(), k, item, m);
        if m > 0 && k == g[m - 1].0 {
            assert(g.drop_last()[m - 1] == g[m - 1]);
            assert(g.drop_last().update(m - 1, (k, g[m - 1].1.push(item))).push(g.last()) =~= g
                .update(m - 1, (k, g[m - 1].1.push(item))));
        } else {
            assert(g.drop_last().insert(m, (k, seq![item])).push(g.last()) =~= g.insert(
                m,
                (k, seq![item]),
            ));
        }
    }
}

/// Buckets an array's elements by the string form of a field.
fn group_by_exec(a: &Vec<Json>, f: &str) -> (r: Vec<(String, Vec<Json>)>)
    ensures
        groups_view(r@) == group_of(jv_seq(a@), f@),
{
    proof {
        crate::value::lemma_jv_seq(a@);
    }
    let ghost av = jv_seq(a@);
    let mut acc: Vec<(String, Vec<Json>)> = Vec::new();
    let mut i: usize = 0;
    while i < a.len()
        invariant
            i <= a@.len(),
            av == jv_seq(a@),
            av.len() == a@.len(),
            forall|n: int| 0 <= n < a@.len() ==> av[n] == jv(a@[n]),
            groups_view(acc@) == group_of(av.subrange(0, i as int), f@),
        decreases a@.len() - i,
    {
        let ghost pre = av.subrange(0, i as int);
        let ghost cur = av.subrange(0, i + 1);
        proof {
            assert(cur.drop_last() =~= pre);
            assert(cur.last() == av[i as int]);
        }
        let key: String = match a[i].get(f) {
            Some(v) => match v {
                Json::Str(st) => st.clone(),
                other => crate::value::compact_print(other),
            },
            None => {
                let k = String::from_str("null");
                proof {
                    reveal_strlit("null");
                    assert(k@ =~= seq!['n', 'u', 'l', 'l']);
                }
                k
            },
        };
        proof {
            assert(key@ == group_key(av[i as int], f@));
        }
        let item = a[i].deep_clone();
        let ghost g = groups_view(acc@);
        let mut m: usize = acc.len();
        let mut stop = false;
        while !stop && m > 0
            invariant
                m <= acc@.len(),
                g == groups_view(acc@),
                g.len() == acc@.len(),
                forall|n: int|
                    0 <= n < acc@.len() ==> g[n] == ((#[trigger] acc@[n]).0@, jv_seq(acc@[n].1@)),
                forall|j: int| m <= j < g.len() ==> lex_cmp(key@, (#[trigger] g[j]).0) < 0,
                stop ==> m > 0 && !(lex_cmp(key@, g[m - 1].0) < 0),
            decreases m + (if stop { 0int } else { 1int }),
        {
            let c = crate::text::str_cmp(key.as_str(), acc[m - 1].0.as_str());
            if c < 0 {
                m = m - 1;
            } else {
                stop = true;
            }
        }
        let mut bucket_here = false;
        if m > 0 {
            if crate::text::str_eq(key.as_str(), acc[m - 1].0.as_str()) {
                bucket_here = true;
            }
        }
        proof {
            lemma_gb_insert_at(g, key@, jv(item), m as int);
            if m > 0 {
                crate::text::lemma_lex_cmp_eq(key@, g[m as int - 1].0);
            }
        }
        if bucket_here {
            let mut pr = acc.remove(m - 1);
            let ghost old_bucket = pr.1@;
            pr.1.push(item);
            proof {
                assert(pr.1@.drop_last() =~= old_bucket);
                crate::value::lemma_jv_seq(pr.1@);
                crate::value::lemma_jv_seq(old_bucket);
                assert(jv_seq(pr.1@) =~= jv_seq(old_bucket).push(jv(item)));
            }
            acc.insert(m - 1, pr);
            proof {
                assert(groups_view(acc@) =~= g.update(m - 1, (key@, g[m as int - 1].1.push(
                    jv(item),
                ))));
            }
        } else {
            let mut bucket: Vec<Json> = Vec::new();
            bucket.push(item);
            proof {
                crate::value::lemma_jv_seq(bucket@);
                assert(jv_seq(bucket@) =~= seq![jv(a@[i as int])]);
            }
            acc.insert(m, (key, bucket));
            proof {
                assert(groups_view(acc@) =~= g.insert(m as int, (key@, seq![jv(a@[i as int])])));
            }
        }
        i = i + 1;
    }
    proof {
        assert(av.subrange(0, av.len() as int) =~= av);
    }
    acc
}

// --- numeric reductions, executable ---

/// The number texts drawn from an array for a reduction.
fn nums_exec(a: &Vec<Json>, f: &str) -> (r: Vec<String>)
    ensures
        pieces_view(r@) == nums_of(jv_seq(a@), f@),
{
    proof {
        crate::value::lemma_jv_seq(a@);
    }
    let ghost av = jv_seq(a@);
    let has_field = f.unicode_len() > 0;
    let mut out: Vec<String> = Vec::new();
    let mut i: usize = 0;
    while i < a.len()
        invariant
            i <= a@.len(),
            av == jv_seq(a@),
            av.len() == a@.len(),
            forall|n: int| 0 <= n < a@.len() ==> av[n] == jv(a@[n]),
            has_field == (f@.len() > 0),
            pieces_view(out@) == nums_of(av.subrange(0, i as int), f@),
        decreases a@.len() - i,
    {
        let ghost pre = av.subrange(0, i as int);
        let ghost cur = av.subrange(0, i + 1);
        proof {
            assert(cur.drop_last() =~= pre);
            assert(cur.last() == av[i as int]);
        }
        let null = Json::Null;
        let v: &Json = if !has_field {
            &a[i]
        } else {
            match a[i].get(f) {
                Some(x) => x,
                None => &null,
            }
        };
        match v {
            Json::Num(t) => {
                let ghost old_out = out@;
                out.push(t.clone());
                proof {
                    assert(pieces_view(out@) =~= pieces_view(old_out).push(t@));
                }
            },
            _ => {},
        }
        i = i + 1;
    }
    proof {
        assert(av.subrange(0, av.len() as int) =~= av);
    }
    out
}

/// Folds double addition from zero over number texts.
fn fold_add_exec(ts: &Vec<String>) -> (r: Option<String>)
    ensures
        r.deep_view() == fold_add(pieces_view(ts@)),
{
    let ghost tv = pieces_view(ts@);
    let zero = String::from_str("0");
    proof {
        reveal_strlit("0");
        assert(zero@ =~= seq!['0']);
    }
    let mut acc: Option<String> = Some(zero);
    let mut i: usize = 0;
    while i < ts.len()
        invariant
            i <= ts@.len(),
            tv == pieces_view(ts@),
            tv.len() == ts@.len(),
            forall|n: int| 0 <= n < ts@.len() ==> tv[n] == (#[trigger] ts@[n])@,
            acc.deep_view() == fold_add(tv.subrange(0, i as int)),
        decreases ts@.len() - i,
    {
        let ghost pre = tv.subrange(0, i as int);
        let ghost cur = tv.subrange(0, i + 1);
        proof {
            assert(cur.drop_last() =~= pre);
            assert(cur.last() == tv[i as int]);
        }
        acc = match acc {
            Some(x) => crate::num::num_add(x.as_str(), ts[i].as_str()),
            None => None,
        };
        i = i + 1;
    }
    proof {
        assert(tv.subrange(0, tv.len() as int) =~= tv);
    }
    acc
}

/// Folds double minimum (`lo == true`) or maximum over number texts.
fn fold_extreme_exec(ts: &Vec<String>, lo: bool) -> (r: Option<String>)
    ensures
        lo ==> r.deep_view() == fold_min(pieces_view(ts@)),
        !lo ==> r.deep_view() == fold_max(pieces_view(ts@)),
{
    let ghost tv = pieces_view(ts@);
    if ts.len() == 0 {
        return None;
    }
    let mut acc: String = ts[0].clone();
    let mut i: usize = 1;
    while i < ts.len()
        invariant
            1 <= i <= ts@.len(),
            tv == pieces_view(ts@),
            tv.len() == ts@.len(),
            forall|n: int| 0 <= n < ts@.len() ==> tv[n] == (#[trigger] ts@[n])@,
            lo ==> fold_min(tv.subrange(0, i as int)) == Some(acc@),
            !lo ==> fold_max(tv.subrange(0, i as int)) == Some(acc@),
        decreases ts@.len() - i,
    {
        let ghost pre = tv.subrange(0, i as int);
        let ghost cur = tv.subrange(0, i + 1);
        proof {
            assert(cur.drop_last() =~= pre);
            assert(cur.last() == tv[i as int]);
            assert(tv.subrange(0, 1).len() == 1);
            assert(tv.subrange(0, 1)[0] == tv[0]);
        }
        let take: bool = if lo {
            crate::num::num_lt(ts[i].as_str(), acc.as_str())
        } else {
            crate::num::num_lt(acc.as_str(), ts[i].as_str())
        };
        if take {
            acc = ts[i].clone();
        }
        i = i + 1;
    }
    proof {
        assert(tv.subrange(0, tv.len() as int) =~= tv);
    }
    Some(acc)
}

/// Renders a reduction result: a whole number becomes its integer text.
fn num_to_json(t: String) -> (r: Json)
    ensures
        r@ == num_to_jv(t@),
{
    match crate::num::num_whole_part(t.as_str()) {
        Some(i) => Json::Num(crate::num::i64_text(i)),
        None => Json::Num(t),
    }
}


// --- the dispatcher ---

/// Applies one transform command to a value.
fn apply_single(v: &Json, cmd: &str) -> (r: Result<Json, String>)
    ensures
        match r {
            Ok(w) => spec_single(v@, cmd@) == Ok::<Jv, Seq<char>>(w@),
            Err(e) => spec_single(v@, cmd@) == Err::<Jv, Seq<char>>(e@),
        },
{
    let chars = crate::text::str_chars(cmd);
    let (lo, hi) = crate::text::trim_bounds(&chars, 0, chars.len());
    proof {
        assert(chars@.subrange(0, chars@.len() as int) =~= chars@);
    }
    let t = crate::text::subvec(&chars, lo, hi);
    let ghost tt = trimmed(cmd@);
    proof {
        assert(t@ == tt);
    }
    let mut space: Vec<char> = Vec::new();
    space.push(' ');
    proof {
        assert(space@ =~= seq![' ']);
    }
    let name: String;
    let argv: Vec<char>;
    match crate::text::find_sub_exec(&t, &space) {
        Some(i) => {
            name = crate::text::chars_to_string_range(&t, 0, i);
            let tl = t.len();
            let (alo, ahi) = crate::text::trim_bounds(&t, i + 1, tl);
            argv = crate::text::subvec(&t, alo, ahi);
        },
        None => {
            name = crate::text::chars_to_string(&t);
            argv = Vec::new();
            proof {
                assert(argv@ =~= Seq::<char>::empty());
            }
        },
    }
    proof {
        assert((name@, argv@) == split_cmd(cmd@));
    }
    let ghost spec_args = split_cmd(cmd@).1;
    if crate::text::str_eq(name.as_str(), ":keys") {
        match v {
            Json::Obj(ps) => {
                proof {
                    crate::value::lemma_jv_pairs(ps@);
                }
                let ghost pv = jv_pairs(ps@);
                let mut out: Vec<Json> = Vec::new();
                let mut i: usize = 0;
                while i < ps.len()
                    invariant
                        i <= ps@.len(),
                        pv == jv_pairs(ps@),
                        pv.len() == ps@.len(),
                        forall|n: int|
                            0 <= n < ps@.len() ==> pv[n] == ((#[trigger] ps@[n]).0@, jv(
                                ps@[n].1,
                            )),
                        out@.len() == i,
                        forall|n: int|
                            0 <= n < i ==> jv(#[trigger] out@[n]) == Jv::Str(pv[n].0),
                    decreases ps@.len() - i,
                {
                    out.push(Json::Str(ps[i].0.clone()));
                    i = i + 1;
                }
                proof {
                    crate::value::lemma_jv_seq(out@);
                    assert(jv_seq(out@) =~= pv.map_values(|p: (Seq<char>, Jv)| Jv::Str(p.0)));
                }
                Ok(Json::Arr(out))
            },
            _ => Err(String::from_str(":keys requires an object")),
        }
    } else if crate::text::str_eq(name.as_str(), ":values") {
        match v {
            Json::Obj(ps) => {
                proof {
                    crate::value::lemma_jv_pairs(ps@);
                }
                let ghost pv = jv_pairs(ps@);
                let mut out: Vec<Json> = Vec::new();
                let mut i: usize = 0;
                while i < ps.len()
                    invariant
                        i <= ps@.len(),
                        pv == jv_pairs(ps@),
                        pv.len() == ps@.len(),
                        forall|n: int|
                            0 <= n < ps@.len() ==> pv[n] == ((#[trigger] ps@[n]).0@, jv(
                                ps@[n].1,
                            )),
                        out@.len() == i,
                        forall|n: int| 0 <= n < i ==> jv(#[trigger] out@[n]) == pv[n].1,
                    decreases ps@.len() - i,
                {
                    out.push(ps[i].1.deep_clone());
                    i = i + 1;
                }
                proof {
                    crate::value::lemma_jv_seq(out@);
                    assert(jv_seq(out@) =~= obj_values(pv));
                }
                Ok(Json::Arr(out))
            },
            _ => Err(String::from_str(":values requires an object")),
        }
    } else if crate::text::str_eq(name.as_str(), ":count") {
        match v {
            Json::Arr(a) => {
                proof {
                    crate::value::lemma_jv_seq(a@);
                }
                Ok(Json::Num(crate::num::usize_text(a.len())))
            },
            Json::Obj(ps) => {
                proof {
                    crate::value::lemma_jv_pairs(ps@);
                }
                Ok(Json::Num(crate::num::usize_text(ps.len())))
            },
            _ => Err(String::from_str(":count requires an array or object")),
        }
    } else if crate::text::str_eq(name.as_str(), ":flatten") {
        match v {
            Json::Arr(a) => Ok(Json::Arr(flatten_exec(a))),
            _ => Err(String::from_str(":flatten requires an array")),
        }
    } else if crate::text::str_eq(name.as_str(), ":pick") {
        if argv.len() == 0 {
            Err(String::from_str(":pick requires field names (e.g., :pick name,email)"))
        } else {
            let fs = fields_exec(&argv);
            match v {
                Json::Arr(a) => Ok(Json::Arr(select_items_exec(a, &fs, true))),
                Json::Obj(ps) => Ok(Json::Obj(select_pairs_exec(ps, &fs, true))),
                _ => Err(String::from_str(":pick requires an array of objects or an object")),
            }
        }
    } else if crate::text::str_eq(name.as_str(), ":omit") {
        if argv.len() == 0 {
            Err(String::from_str(":omit requires field names (e.g., :omit metadata,internal)"))
        } else {
            let fs = fields_exec(&argv);
            match v {
                Json::Arr(a) => Ok(Json::Arr(select_items_exec(a, &fs, false))),
                Json::Obj(ps) => Ok(Json::Obj(select_pairs_exec(ps, &fs, false))),
                _ => Err(String::from_str(":omit requires an array of objects or an object")),
            }
        }
    } else if crate::text::str_eq(name.as_str(), ":sort") {
        match v {
            Json::Arr(a) => {
                if argv.len() == 0 {
                    Ok(Json::Arr(sort_text_exec(a)))
                } else {
                    let f = crate::text::chars_to_string(&argv);
                    Ok(Json::Arr(sort_field_exec(a, f.as_str())))
                }
            },
            _ => Err(String::from_str(":sort requires an array")),
        }
    } else if crate::text::str_eq(name.as_str(), ":uniq") {
        match v {
            Json::Arr(a) => Ok(Json::Arr(dedup_exec(a))),
            _ => Err(String::from_str(":uniq requires an array")),
        }
    } else if crate::text::str_eq(name.as_str(), ":group_by") {
        if argv.len() == 0 {
            Err(String::from_str(":group_by requires a field name (e.g., :group_by type)"))
        } else {
            match v {
                Json::Arr(a) => {
                    let f = crate::text::chars_to_string(&argv);
                    let groups = group_by_exec(a, f.as_str());
                    let ghost gv = group_of(jv_seq(a@), spec_args);
                    let mut out: Vec<(String, Json)> = Vec::new();
                    let mut i: usize = 0;
                    while i < groups.len()
                        invariant
                            i <= groups@.len(),
                            groups_view(groups@) == gv,
                            gv.len() == groups@.len(),
                            forall|n: int|
                                0 <= n < groups@.len() ==> gv[n] == ((#[trigger] groups@[n]).0@,
                                jv_seq(groups@[n].1@)),
                            out@.len() == i,
                            forall|n: int|
                                0 <= n < i ==> (#[trigger] out@[n]).0@ == gv[n].0 && jv(
                                    out@[n].1,
                                ) == Jv::Arr(gv[n].1),
                        decreases groups@.len() - i,
                    {
                        let key = groups[i].0.clone();
                        let mut bucket: Vec<Json> = Vec::new();
                        let pairvec = &groups[i].1;
                        proof {
                            crate::value::lemma_jv_seq(pairvec@);
                        }
                        let mut k: usize = 0;
                        while k < pairvec.len()
                            invariant
                                k <= pairvec@.len(),
                                jv_seq(pairvec@).len() == pairvec@.len(),
                                forall|n: int|
                                    0 <= n < pairvec@.len() ==> jv_seq(pairvec@)[n] == jv(
                                        #[trigger] pairvec@[n],
                                    ),
                                bucket@.len() == k,
                                forall|n: int|
                                    0 <= n < k ==> jv(#[trigger] bucket@[n]) == jv_seq(
                                        pairvec@,
                                    )[n],
                            decreases pairvec@.len() - k,
                        {
                            bucket.push(pairvec[k].deep_clone());
                            k = k + 1;
                        }
                        proof {
                            crate::value::lemma_jv_seq(bucket@);
                            assert(jv_seq(bucket@) =~= jv_seq(pairvec@));
                        }
                        out.push((key, Json::Arr(bucket)));
                        i = i + 1;
                    }
                    proof {
                        crate::value::lemma_jv_pairs(out@);
                        assert(jv_pairs(out@) =~= group_pairs(gv));
                    }
                    Ok(Json::Obj(out))
                },
                _ => Err(String::from_str(":group_by requires an array")),
            }
        }
    } else if crate::text::str_eq(name.as_str(), ":filter") {
        if argv.len() == 0 {
            Err(String::from_str(":filter requires a predicate (e.g., :filter price < 10)"))
        } else {
            let astr = crate::text::chars_to_string(&argv);
            match crate::query::parse_predicate(astr.as_str()) {
                Err(e) => Err(
                    String::from_str(":filter invalid predicate: ").concat(e.as_str()),
                ),
                Ok(p) => match v {
                    Json::Arr(a) => {
                        proof {
                            crate::value::lemma_jv_seq(a@);
                        }
                        let ghost av = jv_seq(a@);
                        let mut out: Vec<Json> = Vec::new();
                        let mut i: usize = 0;
                        while i < a.len()
                            invariant
                                i <= a@.len(),
                                av == jv_seq(a@),
                                av.len() == a@.len(),
                                forall|n: int| 0 <= n < a@.len() ==> av[n] == jv(a@[n]),
                                jv_seq(out@) == filter_pred(av.subrange(0, i as int), p@),
                            decreases a@.len() - i,
                        {
                            let ghost pre = av.subrange(0, i as int);
                            let ghost curp = av.subrange(0, i + 1);
                            proof {
                                assert(curp.drop_last() =~= pre);
                                assert(curp.last() == av[i as int]);
                            }
                            if crate::json::eval_predicate(&a[i], &p) {
                                let c = a[i].deep_clone();
                                let ghost old_out = out@;
                                out.push(c);
                                proof {
                                    assert(out@.drop_last() =~= old_out);
                                    crate::value::lemma_jv_seq(out@);
                                    crate::value::lemma_jv_seq(old_out);
                                    assert(jv_seq(out@) =~= jv_seq(old_out).push(av[i as int]));
                                }
                            }
                            i = i + 1;
                        }
                        proof {
                            assert(av.subrange(0, av.len() as int) =~= av);
                        }
                        Ok(Json::Arr(out))
                    },
                    _ => Err(String::from_str(":filter requires an array")),
                },
            }
        }
    } else if crate::text::str_eq(name.as_str(), ":sum") {
        match v {
            Json::Arr(a) => {
                let f = crate::text::chars_to_string(&argv);
                let ts = nums_exec(a, f.as_str());
                match fold_add_exec(&ts) {
                    Some(t) => Ok(num_to_json(t)),
                    None => Ok(Json::Null),
                }
            },
            _ => Err(String::from_str(":sum requires an array")),
        }
    } else if crate::text::str_eq(name.as_str(), ":avg") {
        match v {
            Json::Arr(a) => {
                let f = crate::text::chars_to_string(&argv);
                let ts = nums_exec(a, f.as_str());
                proof {
                    assert(pieces_view(ts@).len() == ts@.len());
                }
                if ts.len() == 0 {
                    Ok(Json::Null)
                } else {
                    match fold_add_exec(&ts) {
                        Some(t) => match crate::num::num_div(t.as_str(), ts.len()) {
                            Some(q) => Ok(num_to_json(q)),
                            None => Ok(Json::Null),
                        },
                        None => Ok(Json::Null),
                    }
                }
            },
            _ => Err(String::from_str(":avg requires an array")),
        }
    } else if crate::text::str_eq(name.as_str(), ":min") {
        match v {
            Json::Arr(a) => {
                let f = crate::text::chars_to_string(&argv);
                let ts = nums_exec(a, f.as_str());
                match fold_extreme_exec(&ts, true) {
                    Some(t) => Ok(num_to_json(t)),
                    None => Ok(Json::Null),
                }
            },
            _ => Err(String::from_str(":min requires an array")),
        }
    } else if crate::text::str_eq(name.as_str(), ":max") {
        match v {
            Json::Arr(a) => {
                let f = crate::text::chars_to_string(&argv);
                let ts = nums_exec(a, f.as_str());
                match fold_extreme_exec(&ts, false) {
                    Some(t) => Ok(num_to_json(t)),
                    None => Ok(Json::Null),
                }
            },
            _ => Err(String::from_str(":max requires an array")),
        }
    } else {
        Err(String::from_str("unknown transform command: ").concat(name.as_str()))
    }
}

/// Parses and applies one or more chained transform commands to a value:
/// each command consumes the previous result; the first failure aborts
/// the rest and is returned for the whole chain.
pub fn apply_transform(value: &Json, command: &str) -> (r: Result<Json, String>)
    ensures
        match r {
            Ok(w) => spec_transform(value@, command@) == Ok::<Jv, Seq<char>>(w@),
            Err(e) => spec_transform(value@, command@) == Err::<Jv, Seq<char>>(e@),
        },
{
    let cmds = split_chain(command);
    let ghost cv = split_chain_spec(command@);
    let mut cur = value.deep_clone();
    let mut i: usize = 0;
    while i < cmds.len()
        invariant
            i <= cmds@.len(),
            cv == split_chain_spec(command@),
            pieces_view(cmds@) == cv,
            cv.len() == cmds@.len(),
            forall|n: int| 0 <= n < cmds@.len() ==> cv[n] == (#[trigger] cmds@[n])@,
            apply_cmds(value@, cv, 0) == apply_cmds(cur@, cv, i as int),
        decreases cmds@.len() - i,
    {
        match apply_single(&cur, cmds[i].as_str()) {
            Ok(w) => {
                cur = w;
            },
            Err(e) => {
                proof {
                    assert(cv[i as int] == cmds@[i as int]@);
                    assert(apply_cmds(cur@, cv, i as int) == Err::<Jv, Seq<char>>(e@));
                }
                return Err(e);
            },
        }
        i = i + 1;
    }
    Ok(cur)
}

proof fn lemma_seq_insert_multiset(s: Seq<Jv>, m: int, x: Jv)
    requires
        0 <= m <= s.len(),
    ensures
        s.insert(m, x).to_multiset() =~= s.to_multiset().insert(x),
{
    broadcast use vstd::seq_lib::group_to_multiset_ensures;

    let t = s.insert(m, x);
    assert(t.remove(m) =~= s);
    assert(t[m] == x);
    assert(s.to_multiset() =~= t.to_multiset().remove(x));
    assert(t.contains(x));
    assert(t.to_multiset().count(x) > 0);
    assert(t.to_multiset() =~= s.to_multiset().insert(x)) by {
        assert(forall|y: Jv|
            t.to_multiset().count(y) == s.to_multiset().insert(x).count(y));
    }
}

proof fn lemma_insert_text_sorted(s: Seq<Jv>, x: Jv)
    requires
        forall|i: int|
            0 <= i < s.len() - 1 ==> lex_cmp(text_of(#[trigger] s[i]), text_of(s[i + 1])) <= 0,
    ensures
        ({
            let r = insert_text(s, x);
            forall|i: int|
                0 <= i < r.len() - 1 ==> lex_cmp(text_of(#[trigger] r[i]), text_of(r[i + 1]))
                    <= 0
        }),
        insert_text(s, x).len() == s.len() + 1,
        insert_text(s, x).last() == if s.len() > 0 && lex_cmp(text_of(x), text_of(s.last()))
            < 0 {
            s.last()
        } else {
            x
        },
        insert_text(s, x).to_multiset() =~= s.to_multiset().insert(x),
    decreases s.len(),
{
    broadcast use vstd::seq_lib::group_to_multiset_ensures;

    let r = insert_text(s, x);
    if s.len() == 0 {
        assert(seq![x] =~= s.insert(0, x));
        lemma_seq_insert_multiset(s, 0, x);
    } else if lex_cmp(text_of(x), text_of(s.last())) < 0 {
        let dl = s.drop_last();
        assert(forall|i: int|
            0 <= i < dl.len() - 1 ==> lex_cmp(text_of(#[trigger] dl[i]), text_of(dl[i + 1]))
                <= 0);
        lemma_insert_text_sorted(dl, x);
        let inner = insert_text(dl, x);
        assert forall|i: int|
            0 <= i < r.len() - 1 implies lex_cmp(text_of(#[trigger] r[i]), text_of(r[i + 1]))
                <= 0 by {
            if i < inner.len() - 1 {
                assert(r[i] == inner[i]);
                assert(r[i + 1] == inner[i + 1]);
            } else {
                assert(r[i] == inner.last());
                assert(r[i + 1] == s.last());
                if dl.len() > 0 && lex_cmp(text_of(x), text_of(dl.last())) < 0 {
                    assert(inner.last() == dl.last());
                    assert(dl.last() == s[s.len() - 2]);
                } else {
                    assert(inner.last() == x);
                }
            }
        }
        assert(r.to_multiset() =~= s.to_multiset().insert(x)) by {
            assert(r =~= inner.push(s.last()));
            assert(inner.push(s.last()).to_multiset() =~= inner.to_multiset().insert(s.last()));
            assert(dl.push(s.last()) =~= s);
            assert(dl.to_multiset().insert(s.last()) =~= s.to_multiset());
            assert(forall|y: Jv|
                inner.to_multiset().insert(s.last()).count(y) == s.to_multiset().insert(
                    x,
                ).count(y));
        }
    } else {
        crate::text::lemma_lex_cmp_antisym(text_of(x), text_of(s.last()));
        assert forall|i: int|
            0 <= i < r.len() - 1 implies lex_cmp(text_of(#[trigger] r[i]), text_of(r[i + 1]))
                <= 0 by {
            if i < s.len() - 1 {
                assert(r[i] == s[i]);
                assert(r[i + 1] == s[i + 1]);
            } else {
                assert(r[i] == s.last());
                assert(r[i + 1] == x);
            }
        }
        assert(s.push(x) =~= s.insert(s.len() as int, x));
        lemma_seq_insert_multiset(s, s.len() as int, x);
    }
}

/// The textual sort orders its output and permutes its input: every
/// adjacent pair of the result is in order by canonical text, and the
/// elements are exactly those of the input.
pub proof fn lemma_sort_text_permutes(s: Seq<Jv>)
    ensures
        sort_text(s).len() == s.len(),
        sort_text(s).to_multiset() =~= s.to_multiset(),
        forall|i: int|
            0 <= i < sort_text(s).len() - 1 ==> lex_cmp(
                text_of(#[trigger] sort_text(s)[i]),
                text_of(sort_text(s)[i + 1]),
            ) <= 0,
    decreases s.len(),
{
    broadcast use vstd::seq_lib::group_to_multiset_ensures;

    if s.len() > 0 {
        lemma_sort_text_permutes(s.drop_last());
        lemma_insert_text_sorted(sort_text(s.drop_last()), s.last());
        assert(s.drop_last().push(s.last()) =~= s);
        assert(s.drop_last().to_multiset().insert(s.last()) =~= s.to_multiset());
    }
}

proof fn lemma_insert_field_sorted(s: Seq<Jv>, x: Jv, f: Seq<char>)
    requires
        forall|i: int|
            0 <= i < s.len() - 1 ==> cmp_jv(
                sort_key_of(#[trigger] s[i], f),
                sort_key_of(s[i + 1], f),
            ) <= 0,
    ensures
        ({
            let r = insert_field(s, x, f);
            forall|i: int|
                0 <= i < r.len() - 1 ==> cmp_jv(
                    sort_key_of(#[trigger] r[i], f),
                    sort_key_of(r[i + 1], f),
                ) <= 0
        }),
        insert_field(s, x, f).len() == s.len() + 1,
        insert_field(s, x, f).last() == if s.len() > 0 && cmp_jv(
            sort_key_of(x, f),
            sort_key_of(s.last(), f),
        ) < 0 {
            s.last()
        } else {
            x
        },
        insert_field(s, x, f).to_multiset() =~= s.to_multiset().insert(x),
    decreases s.len(),
{
    broadcast use vstd::seq_lib::group_to_multiset_ensures;

    let r = insert_field(s, x, f);
    if s.len() == 0 {
        assert(seq![x] =~= s.insert(0, x));
        lemma_seq_insert_multiset(s, 0, x);
    } else if cmp_jv(sort_key_of(x, f), sort_key_of(s.last(), f)) < 0 {
        let dl = s.drop_last();
        assert(forall|i: int|
            0 <= i < dl.len() - 1 ==> cmp_jv(
                sort_key_of(#[trigger] dl[i], f),
                sort_key_of(dl[i + 1], f),
            ) <= 0);
        lemma_insert_field_sorted(dl, x, f);
        let inner = insert_field(dl, x, f);
        assert forall|i: int|
            0 <= i < r.len() - 1 implies cmp_jv(
                sort_key_of(#[trigger] r[i], f),
                sort_key_of(r[i + 1], f),
            ) <= 0 by {
            if i < inner.len() - 1 {
                assert(r[i] == inner[i]);
                assert(r[i + 1] == inner[i + 1]);
            } else {
                assert(r[i] == inner.last());
                assert(r[i + 1] == s.last());
                if dl.len() > 0 && cmp_jv(sort_key_of(x, f), sort_key_of(dl.last(), f)) < 0 {
                    assert(inner.last() == dl.last());
                    assert(dl.last() == s[s.len() - 2]);
                } else {
                    assert(inner.last() == x);
                }
            }
        }
        assert(r.to_multiset() =~= s.to_multiset().insert(x)) by {
            assert(r =~= inner.push(s.last()));
            assert(inner.push(s.last()).to_multiset() =~= inner.to_multiset().insert(s.last()));
            assert(dl.push(s.last()) =~= s);
            assert(dl.to_multiset().insert(s.last()) =~= s.to_multiset());
            assert(forall|y: Jv|
                inner.to_multiset().insert(s.last()).count(y) == s.to_multiset().insert(
                    x,
                ).count(y));
        }
    } else {
        assert forall|i: int|
            0 <= i < r.len() - 1 implies cmp_jv(
                sort_key_of(#[trigger] r[i], f),
                sort_key_of(r[i + 1], f),
            ) <= 0 by {
            if i < s.len() - 1 {
                assert(r[i] == s[i]);
                assert(r[i + 1] == s[i + 1]);
            } else {
                assert(r[i] == s.last());
                assert(r[i + 1] == x);
                lemma_cmp_jv_antisym(sort_key_of(x, f), sort_key_of(s.last(), f));
            }
        }
        assert(s.push(x) =~= s.insert(s.len() as int, x));
        lemma_seq_insert_multiset(s, s.len() as int, x);
    }
}

/// A pair not in rising order is in falling order the other way round.
proof fn lemma_cmp_jv_antisym(a: Jv, b: Jv)
    ensures
        cmp_jv(a, b) >= 0 ==> cmp_jv(b, a) <= 0,
{
    match (a, b) {
        (Jv::Num(x), Jv::Num(y)) => {},
        (Jv::Str(x), Jv::Str(y)) => {
            crate::text::lemma_lex_cmp_antisym(x, y);
        },
        _ => {
            crate::text::lemma_lex_cmp_antisym(text_of(a), text_of(b));
        },
    }
}

/// The field sort orders its output by the named field and permutes
/// its input.
pub proof fn lemma_sort_field_permutes(s: Seq<Jv>, f: Seq<char>)
    ensures
        sort_field(s, f).len() == s.len(),
        sort_field(s, f).to_multiset() =~= s.to_multiset(),
        forall|i: int|
            0 <= i < sort_field(s, f).len() - 1 ==> cmp_jv(
                sort_key_of(#[trigger] sort_field(s, f)[i], f),
                sort_key_of(sort_field(s, f)[i + 1], f),
            ) <= 0,
    decreases s.len(),
{
    broadcast use vstd::seq_lib::group_to_multiset_ensures;

    if s.len() > 0 {
        lemma_sort_field_permutes(s.drop_last(), f);
        lemma_insert_field_sorted(sort_field(s.drop_last(), f), s.last(), f);
        assert(s.drop_last().push(s.last()) =~= s);
        assert(s.drop_last().to_multiset().insert(s.last()) =~= s.to_multiset());
    }
}

/// Deduplication keeps exactly the distinct values: no value repeats
/// in the result, and a value appears in the result exactly when it
/// appears in the input.
pub proof fn lemma_dedup_distinct(s: Seq<Jv>)
    ensures
        forall|i: int, j: int|
            0 <= i < j < dedup_vals(s).len() ==> #[trigger] dedup_vals(s)[i] != #[trigger] dedup_vals(
                s,
            )[j],
        forall|x: Jv| s.contains(x) <==> dedup_vals(s).contains(x),
    decreases s.len(),
{
    let r = dedup_vals(s);
    if s.len() > 0 {
        let dl = s.drop_last();
        lemma_dedup_distinct(dl);
        let rd = dedup_vals(dl);
        assert forall|x: Jv| s.contains(x) implies r.contains(x) by {
            if dl.contains(x) {
                assert(rd.contains(x));
                let j = choose|j: int| 0 <= j < rd.len() && rd[j] == x;
                assert(r[j] == x);
            } else {
                let j = choose|j: int| 0 <= j < s.len() && s[j] == x;
                if j < s.len() - 1 {
                    assert(dl[j] == x);
                    assert(dl.contains(x));
                }
                assert(j == s.len() - 1);
                assert(!dl.contains(s.last()));
                assert(r.last() == x);
            }
        }
        assert forall|x: Jv| r.contains(x) implies s.contains(x) by {
            let j = choose|j: int| 0 <= j < r.len() && r[j] == x;
            if j < rd.len() {
                assert(rd[j] == x);
                assert(dl.contains(x));
                let n = choose|n: int| 0 <= n < dl.len() && dl[n] == x;
                assert(s[n] == x);
            } else {
                assert(x == s.last());
                assert(s[s.len() - 1] == x);
            }
        }
        assert forall|i: int, j: int|
            0 <= i < j < r.len() implies #[trigger] r[i] != #[trigger] r[j] by {
            if j < rd.len() {
                assert(r[i] == rd[i] && r[j] == rd[j]);
            } else if !dl.contains(s.last()) {
                assert(r[i] == rd[i]);
                assert(r[j] == s.last());
                if rd[i] == s.last() {
                    assert(rd.contains(s.last()));
                    assert(dl.contains(s.last()));
                }
            }
        }
    }
}

/// Keys of a grouping stay strictly sorted as elements are filed.
proof fn lemma_gb_insert_sorted(g: Seq<(Seq<char>, Seq<Jv>)>, k: Seq<char>, item: Jv)
    requires
        forall|i: int|
            0 <= i < g.len() - 1 ==> lex_cmp((#[trigger] g[i]).0, g[i + 1].0) < 0,
    ensures
        ({
            let r = gb_insert(g, k, item);
            forall|i: int| 0 <= i < r.len() - 1 ==> lex_cmp((#[trigger] r[i]).0, r[i + 1].0) < 0
        }),
        gb_insert(g, k, item).len() >= g.len(),
        ({
            let r = gb_insert(g, k, item);
            forall|i: int|
                0 <= i < r.len() ==> (#[trigger] r[i]).0 == k || exists|j: int|
                    0 <= j < g.len() && (#[trigger] g[j]).0 == r[i].0
        }),
    decreases g.len(),
{
    let r = gb_insert(g, k, item);
    if g.len() == 0 {
    } else if k == g.last().0 {
        assert forall|i: int| 0 <= i < r.len() - 1 implies lex_cmp((#[trigger] r[i]).0, r[i + 1].0)
            < 0 by {
            assert(r[i].0 == g[i].0);
            assert(r[i + 1].0 == g[i + 1].0);
        }
        assert forall|i: int|
            0 <= i < r.len() implies (#[trigger] r[i]).0 == k || exists|j: int|
                0 <= j < g.len() && (#[trigger] g[j]).0 == r[i].0 by {
            if i < r.len() - 1 {
                assert(g[i].0 == r[i].0);
            }
        }
    } else if lex_cmp(k, g.last().0) < 0 {
        let gd = g.drop_last();
        assert(forall|i: int|
            0 <= i < gd.len() - 1 ==> lex_cmp((#[trigger] gd[i]).0, gd[i + 1].0) < 0);
        lemma_gb_insert_sorted(gd, k, item);
        let rd = gb_insert(gd, k, item);
        assert forall|i: int| 0 <= i < r.len() - 1 implies lex_cmp((#[trigger] r[i]).0, r[i + 1].0)
            < 0 by {
            if i < rd.len() - 1 {
                assert(r[i].0 == rd[i].0);
                assert(r[i + 1].0 == rd[i + 1].0);
            } else {
                assert(i == rd.len() - 1);
                assert(r[i].0 == rd[i].0);
                assert(r[i + 1].0 == g.last().0);
                if rd[i].0 == k {
                } else {
                    let j = choose|j: int| 0 <= j < gd.len() && (#[trigger] gd[j]).0 == rd[i].0;
                    if j < gd.len() - 1 {
                        lemma_sorted_chain(g, j);
                    }
                }
            }
        }
        assert forall|i: int|
            0 <= i < r.len() implies (#[trigger] r[i]).0 == k || exists|j: int|
                0 <= j < g.len() && (#[trigger] g[j]).0 == r[i].0 by {
            if i < rd.len() {
                assert(r[i].0 == rd[i].0);
                if rd[i].0 != k {
                    let j = choose|j: int| 0 <= j < gd.len() && (#[trigger] gd[j]).0 == rd[i].0;
                    assert(g[j].0 == rd[i].0);
                }
            } else {
                assert(r[i].0 == g.last().0);
                assert(g[g.len() - 1].0 == r[i].0);
            }
        }
    } else {
        assert forall|i: int| 0 <= i < r.len() - 1 implies lex_cmp((#[trigger] r[i]).0, r[i + 1].0)
            < 0 by {
            if i < g.len() - 1 {
                assert(r[i].0 == g[i].0);
                assert(r[i + 1].0 == g[i + 1].0);
            } else {
                assert(r[i].0 == g.last().0);
                assert(r[i + 1].0 == k);
                crate::text::lemma_lex_cmp_eq(k, g.last().0);
                crate::text::lemma_lex_cmp_antisym(k, g.last().0);
            }
        }
        assert forall|i: int|
            0 <= i < r.len() implies (#[trigger] r[i]).0 == k || exists|j: int|
                0 <= j < g.len() && (#[trigger] g[j]).0 == r[i].0 by {
            if i < g.len() {
                assert(g[i].0 == r[i].0);
            }
        }
    }
}

proof fn lemma_sorted_chain(g: Seq<(Seq<char>, Seq<Jv>)>, j: int)
    requires
        forall|i: int|
            0 <= i < g.len() - 1 ==> lex_cmp((#[trigger] g[i]).0, g[i + 1].0) < 0,
        0 <= j < g.len() - 1,
    ensures
        lex_cmp(g[j].0, g[g.len() - 1].0) < 0,
    decreases g.len() - j,
{
    if j == g.len() - 2 {
    } else {
        lemma_sorted_chain(g, j + 1);
        crate::text::lemma_lex_cmp_trans(g[j].0, g[j + 1].0, g[g.len() - 1].0);
    }
}

/// Grouping yields a key-sorted object: the buckets of `:group_by`
/// stand under strictly increasing keys, so the result is well-formed
/// at its top level.
pub proof fn lemma_group_of_sorted(s: Seq<Jv>, f: Seq<char>)
    ensures
        crate::value::sorted_keys(group_pairs(group_of(s, f))),
    decreases s.len(),
{
    if s.len() > 0 {
        lemma_group_of_sorted(s.drop_last(), f);
        let g = group_of(s.drop_last(), f);
        assert forall|i: int|
            0 <= i < g.len() - 1 implies lex_cmp((#[trigger] g[i]).0, g[i + 1].0) < 0 by {
            assert(group_pairs(g)[i].0 == g[i].0);
            assert(group_pairs(g)[i + 1].0 == g[i + 1].0);
        }
        lemma_gb_insert_sorted(g, group_key(s.last(), f), s.last());
        let r = group_pairs(group_of(s, f));
        assert forall|i: int|
            0 <= i < r.len() - 1 implies lex_cmp((#[trigger] r[i]).0, r[i + 1].0) < 0 by {
            assert(r[i].0 == group_of(s, f)[i].0);
            assert(r[i + 1].0 == group_of(s, f)[i + 1].0);
        }
    } else {
        let r = group_pairs(group_of(s, f));
        assert(r.len() == 0);
    }
}

// --- laws ---

proof fn lemma_apply_cmds_shift(v: Jv, cs1: Seq<Seq<char>>, cs2: Seq<Seq<char>>, i: int)
    requires
        0 <= i <= cs1.len(),
    ensures
        apply_cmds(v, cs1 + cs2, i) == match apply_cmds(v, cs1, i) {
            Ok(w) => apply_cmds(w, cs2, 0),
            Err(e) => Err(e),
        },
    decreases cs1.len() + cs2.len() - i,
{
    let all = cs1 + cs2;
    if i >= cs1.len() {
        lemma_apply_cmds_tail(v, cs1, cs2, i);
    } else {
        assert(all[i] == cs1[i]);
        match spec_single(v, cs1[i]) {
            Ok(w) => {
                lemma_apply_cmds_shift(w, cs1, cs2, i + 1);
            },
            Err(e) => {},
        }
    }
}

proof fn lemma_apply_cmds_tail(v: Jv, cs1: Seq<Seq<char>>, cs2: Seq<Seq<char>>, i: int)
    requires
        cs1.len() <= i <= cs1.len() + cs2.len(),
    ensures
        apply_cmds(v, cs1 + cs2, i) == apply_cmds(v, cs2, i - cs1.len()),
    decreases cs1.len() + cs2.len() - i,
{
    let all = cs1 + cs2;
    if i < all.len() {
        assert(all[i] == cs2[i - cs1.len()]);
        match spec_single(v, all[i]) {
            Ok(w) => {
                lemma_apply_cmds_tail(w, cs1, cs2, i + 1);
            },
            Err(e) => {},
        }
    }
}

/// Chains compose: applying the commands of one chain and then those of
/// another, each left to right, is applying the concatenated command
/// list; independent commands in sequence need not be joined into one
/// call to give the same result.
pub proof fn lemma_chain_composes(v: Jv, cs1: Seq<Seq<char>>, cs2: Seq<Seq<char>>)
    ensures
        apply_cmds(v, cs1 + cs2, 0) == match apply_cmds(v, cs1, 0) {
            Ok(w) => apply_cmds(w, cs2, 0),
            Err(e) => Err(e),
        },
{
    lemma_apply_cmds_shift(v, cs1, cs2, 0);
}
} // verus!
