//! The traversal evaluator: walks a JSON value along a parsed segment
//! sequence. Unresolvable paths never error; they end the walk with no
//! value, the last resolved container as parent, and the number of
//! segments consumed. A slice or wildcard ends the walk at once; a filter
//! continues with the remaining segments on the filtered array.

use vstd::prelude::*;

use crate::num::{num_at_most, num_below, num_close};
use crate::query::{CompareOp, FvV, PathSegment, PredV, Predicate, SegV};
use crate::text::lex_cmp;
use crate::value::{jv, jv_get, jv_pairs, jv_seq, lookup_pairs, wf, wf_pairs, wf_seq, Json, Jv};

verus! {

/// Result of traversing a value with a parsed query.
#[derive(Debug, Clone)]
pub struct TraversalResult {
    /// The value at the resolved path; absent when the path does not match.
    pub value: Option<Json>,
    /// The last successfully resolved container, for context.
    pub parent: Option<Json>,
    /// How many segments were consumed.
    pub depth: usize,
}

/// The ghost shape of a traversal result.
pub struct TrV {
    pub value: Option<Jv>,
    pub parent: Option<Jv>,
    pub depth: int,
}

impl View for TraversalResult {
    type V = TrV;

    open spec fn view(&self) -> TrV {
        TrV {
            value: match &self.value {
                Some(v) => Some(jv(*v)),
                None => None,
            },
            parent: match &self.parent {
                Some(v) => Some(jv(*v)),
                None => None,
            },
            depth: self.depth as int,
        }
    }
}

/// Whether `op` accepts a three-way comparison outcome `c`.
pub open spec fn cmp_accepts(op: CompareOp, c: int) -> bool {
    match op {
        CompareOp::Eq => c == 0,
        CompareOp::Ne => c != 0,
        CompareOp::Lt => c < 0,
        CompareOp::Gt => c > 0,
        CompareOp::Le => c <= 0,
        CompareOp::Ge => c >= 0,
    }
}

/// Whether `op` holds between two number texts: equality is within the
/// machine epsilon of a double; order is double order.
pub open spec fn num_op_holds(op: CompareOp, a: Seq<char>, b: Seq<char>) -> bool {
    match op {
        CompareOp::Eq => num_close(a, b),
        CompareOp::Ne => !num_close(a, b),
        CompareOp::Lt => num_below(a, b),
        CompareOp::Gt => num_below(b, a),
        CompareOp::Le => num_at_most(a, b),
        CompareOp::Ge => num_at_most(b, a),
    }
}

/// Whether an element satisfies a predicate: its field is looked up; a
/// missing field or a shape other than the literal's never matches;
/// ordering operators on booleans and null yield false.
pub open spec fn pred_holds(item: Jv, p: PredV) -> bool {
    match jv_get(item, p.field) {
        None => false,
        Some(fv) => match p.value {
            FvV::Num(lit) => match fv {
                Jv::Num(ft) => num_op_holds(p.op, ft, lit),
                _ => false,
            },
            FvV::Str(lit) => match fv {
                Jv::Str(fs) => cmp_accepts(p.op, lex_cmp(fs, lit)),
                _ => false,
            },
            FvV::Bool(b) => match fv {
                Jv::Bool(fb) => (p.op == CompareOp::Eq && fb == b) || (p.op == CompareOp::Ne && fb
                    != b),
                _ => false,
            },
            FvV::Null => {
                let is_null = fv is Null;
                (p.op == CompareOp::Eq && is_null) || (p.op == CompareOp::Ne && !is_null)
            },
        },
    }
}

/// The elements of `s` that satisfy `p`, in their original order.
pub open spec fn filter_pred(s: Seq<Jv>, p: PredV) -> Seq<Jv>
    decreases s.len(),
{
    if s.len() == 0 {
        Seq::empty()
    } else {
        let r = filter_pred(s.drop_last(), p);
        if pred_holds(s.last(), p) {
            r.push(s.last())
        } else {
            r
        }
    }
}

/// Filtering never reorders: the filtered sequence is exactly what
/// `Seq::filter` keeps, an order-preserving subsequence.
pub proof fn lemma_filter_pred_is_seq_filter(s: Seq<Jv>, p: PredV)
    ensures
        filter_pred(s, p) == s.filter(|x: Jv| pred_holds(x, p)),
    decreases s.len(),
{
    reveal(Seq::filter);
    if s.len() > 0 {
        lemma_filter_pred_is_seq_filter(s.drop_last(), p);
    }
}

/// The values of an object's fields, in field order.
pub open spec fn obj_values(ps: Seq<(Seq<char>, Jv)>) -> Seq<Jv> {
    ps.map_values(|p: (Seq<char>, Jv)| p.1)
}

/// A slice bound resolved against a length: negative counts from the
/// end; the result is clamped to the array.
pub open spec fn resolve_start(b: Option<i64>, len: int) -> int {
    match b {
        None => 0,
        Some(v) => if v < 0 {
            if len + v > 0 {
                len + v
            } else {
                0
            }
        } else {
            if v < len {
                v as int
            } else {
                len
            }
        },
    }
}

pub open spec fn resolve_end(b: Option<i64>, len: int) -> int {
    match b {
        None => len,
        Some(v) => if v < 0 {
            if len + v > 0 {
                len + v
            } else {
                0
            }
        } else {
            if v < len {
                v as int
            } else {
                len
            }
        },
    }
}

/// The slice of `a` under bounds `(s0, e0)`: empty when the resolved
/// start is not below the resolved end.
pub open spec fn slice_of(a: Seq<Jv>, s0: Option<i64>, e0: Option<i64>) -> Seq<Jv> {
    let lo = resolve_start(s0, a.len() as int);
    let hi = resolve_end(e0, a.len() as int);
    if lo <= hi {
        a.subrange(lo, hi)
    } else {
        Seq::empty()
    }
}

/// One missed segment: the walk stops with no value.
pub open spec fn miss(cur: Jv, depth: int) -> TrV {
    TrV { value: None, parent: Some(cur), depth }
}

/// The walk from segment `i`, holding the current value, the last
/// resolved container, and the segments consumed so far.
pub open spec fn trav(cur: Jv, par: Option<Jv>, depth: int, segs: Seq<SegV>, i: int) -> TrV
    decreases segs.len() - i,
{
    if i < 0 || i >= segs.len() {
        TrV { value: Some(cur), parent: par, depth }
    } else {
        match segs[i] {
            SegV::Key(k) => match jv_get(cur, k) {
                Some(v) => trav(v, Some(cur), depth + 1, segs, i + 1),
                None => miss(cur, depth),
            },
            SegV::Index(ix) => match cur {
                Jv::Arr(a) => {
                    let ri = if ix < 0 {
                        a.len() + ix
                    } else {
                        ix as int
                    };
                    if 0 <= ri < a.len() {
                        trav(a[ri], Some(cur), depth + 1, segs, i + 1)
                    } else {
                        miss(cur, depth)
                    }
                },
                _ => miss(cur, depth),
            },
            SegV::Slice(s0, e0) => match cur {
                Jv::Arr(a) => TrV {
                    value: Some(Jv::Arr(slice_of(a, s0, e0))),
                    parent: Some(cur),
                    depth: depth + 1,
                },
                _ => miss(cur, depth),
            },
            SegV::Wildcard => match cur {
                Jv::Obj(ps) => TrV {
                    value: Some(Jv::Arr(obj_values(ps))),
                    parent: Some(cur),
                    depth: depth + 1,
                },
                Jv::Arr(a) => TrV { value: Some(cur), parent: par, depth: depth + 1 },
                _ => miss(cur, depth),
            },
            SegV::Filter(p) => match cur {
                Jv::Arr(a) => {
                    let f = Jv::Arr(filter_pred(a, p));
                    if i + 1 >= segs.len() {
                        TrV { value: Some(f), parent: Some(cur), depth: depth + 1 }
                    } else {
                        let sub = trav(f, None, 0, segs, i + 1);
                        TrV {
                            value: sub.value,
                            parent: match sub.parent {
                                Some(q) => Some(q),
                                None => Some(f),
                            },
                            depth: depth + 1 + sub.depth,
                        }
                    }
                },
                _ => miss(cur, depth),
            },
        }
    }
}

/// The whole walk: an empty query resolves to the root itself.
pub open spec fn spec_traverse(root: Jv, segs: Seq<SegV>) -> TrV {
    if segs.len() == 0 {
        TrV { value: Some(root), parent: None, depth: 0 }
    } else {
        trav(root, None, 0, segs, 0)
    }
}

/// The walk consumes between zero and the remaining segments.
pub proof fn lemma_trav_depth(cur: Jv, par: Option<Jv>, depth: int, segs: Seq<SegV>, i: int)
    requires
        0 <= i <= segs.len(),
    ensures
        depth <= trav(cur, par, depth, segs, i).depth <= depth + (segs.len() - i),
    decreases segs.len() - i,
{
    if i < segs.len() {
        match segs[i] {
            SegV::Key(k) => match jv_get(cur, k) {
                Some(v) => lemma_trav_depth(v, Some(cur), depth + 1, segs, i + 1),
                None => {},
            },
            SegV::Index(ix) => match cur {
                Jv::Arr(a) => {
                    let ri = if ix < 0 {
                        a.len() + ix
                    } else {
                        ix as int
                    };
                    if 0 <= ri < a.len() {
                        lemma_trav_depth(a[ri], Some(cur), depth + 1, segs, i + 1);
                    }
                },
                _ => {},
            },
            SegV::Filter(p) => match cur {
                Jv::Arr(a) => {
                    let f = Jv::Arr(filter_pred(a, p));
                    if i + 1 < segs.len() {
                        lemma_trav_depth(f, None, 0, segs, i + 1);
                    }
                },
                _ => {},
            },
            _ => {},
        }
    }
}

/// The ghost value of an optional borrowed parent.
pub open spec fn opt_jv(p: Option<&Json>) -> Option<Jv> {
    match p {
        Some(j) => Some(jv(*j)),
        None => None,
    }
}

fn clone_opt(p: Option<&Json>) -> (r: Option<Json>)
    ensures
        match r {
            Some(j) => opt_jv(p) == Some(jv(j)),
            None => opt_jv(p) is None,
        },
{
    match p {
        Some(j) => Some(j.deep_clone()),
        None => None,
    }
}

/// Resolves an index against a length: negative counts from the end.
/// Returns the position when it is within bounds.
fn resolve_index(ix: i64, n: usize) -> (r: Option<usize>)
    ensures
        ({
            let ri = if ix < 0 {
                n + ix
            } else {
                ix as int
            };
            match r {
                Some(p) => 0 <= ri < n && p == ri,
                None => !(0 <= ri < n),
            }
        }),
{
    if ix < 0 {
        let mag: u64 = ((-(ix + 1)) as u64) + 1;
        if mag <= n as u64 {
            Some(n - (mag as usize))
        } else {
            None
        }
    } else {
        if (ix as u64) < (n as u64) {
            Some(ix as usize)
        } else {
            None
        }
    }
}

/// Resolves a slice bound, clamped into `[0, n]`.
fn resolve_bound(b: &Option<i64>, n: usize, if_none: usize) -> (r: usize)
    requires
        if_none == 0 || if_none == n,
    ensures
        b is Some ==> r == resolve_start(*b, n as int),
        b is None ==> r == if_none as int,
{
    match b {
        None => if_none,
        Some(v) => {
            if *v < 0 {
                let mag: u64 = ((-(*v + 1)) as u64) + 1;
                if mag <= n as u64 {
                    n - (mag as usize)
                } else {
                    0
                }
            } else {
                if (*v as u64) < (n as u64) {
                    *v as usize
                } else {
                    n
                }
            }
        },
    }
}

/// Walks the segments from position `i`.
fn trav_exec(
    cur: &Json,
    par: Option<&Json>,
    depth: usize,
    segs: &[PathSegment],
    i: usize,
) -> (r: TraversalResult)
    requires
        i <= segs@.len(),
        depth + (segs@.len() - i) <= usize::MAX,
    ensures
        r@ == trav(cur@, opt_jv(par), depth as int, crate::query::segs_view(segs@), i as int),
    decreases segs@.len() - i,
{
    let ghost sv = crate::query::segs_view(segs@);
    if i >= segs.len() {
        return TraversalResult { value: Some(cur.deep_clone()), parent: clone_opt(par), depth };
    }
    let seg = &segs[i];
    match seg {
        PathSegment::Key(k) => match cur.get(k.as_str()) {
            Some(v) => trav_exec(v, Some(cur), depth + 1, segs, i + 1),
            None => TraversalResult { value: None, parent: Some(cur.deep_clone()), depth },
        },
        PathSegment::Index(ix) => match cur {
            Json::Arr(a) => {
                proof {
                    crate::value::lemma_jv_seq(a@);
                }
                match resolve_index(*ix, a.len()) {
                    Some(p) => {
                        proof {
                            assert(decreases_to!(*cur => cur->Arr_0));
                            assert(decreases_to!(*a => a@));
                            assert(decreases_to!(a@ => a@[p as int]));
                        }
                        trav_exec(&a[p], Some(cur), depth + 1, segs, i + 1)
                    },
                    None => TraversalResult {
                        value: None,
                        parent: Some(cur.deep_clone()),
                        depth,
                    },
                }
            },
            _ => TraversalResult { value: None, parent: Some(cur.deep_clone()), depth },
        },
        PathSegment::Slice(s0, e0) => match cur {
            Json::Arr(a) => {
                proof {
                    crate::value::lemma_jv_seq(a@);
                }
                let ghost av = jv_seq(a@);
                let n = a.len();
                let lo = resolve_bound(s0, n, 0);
                let hi = resolve_bound(e0, n, n);
                proof {
                    assert(lo as int == resolve_start(*s0, av.len() as int));
                    assert(hi as int == resolve_end(*e0, av.len() as int));
                }
                let mut out: Vec<Json> = Vec::new();
                if lo <= hi {
                    let mut m: usize = lo;
                    while m < hi
                        invariant
                            *cur == Json::Arr(*a),
                            lo <= m <= hi <= a@.len(),
                            av == jv_seq(a@),
                            av.len() == a@.len(),
                            forall|q: int| 0 <= q < a@.len() ==> av[q] == jv(a@[q]),
                            out@.len() == m - lo,
                            forall|q: int|
                                0 <= q < out@.len() ==> jv(#[trigger] out@[q]) == av[lo + q],
                        decreases hi - m,
                    {
                        out.push(a[m].deep_clone());
                        m = m + 1;
                    }
                    proof {
                        crate::value::lemma_jv_seq(out@);
                        assert(jv_seq(out@) =~= av.subrange(lo as int, hi as int));
                    }
                } else {
                    proof {
                        crate::value::lemma_jv_seq(out@);
                        assert(jv_seq(out@) =~= Seq::<Jv>::empty());
                    }
                }
                TraversalResult {
                    value: Some(Json::Arr(out)),
                    parent: Some(cur.deep_clone()),
                    depth: depth + 1,
                }
            },
            _ => TraversalResult { value: None, parent: Some(cur.deep_clone()), depth },
        },
        PathSegment::Wildcard => match cur {
            Json::Obj(ps) => {
                proof {
                    crate::value::lemma_jv_pairs(ps@);
                }
                let ghost pv = jv_pairs(ps@);
                let mut out: Vec<Json> = Vec::new();
                let mut m: usize = 0;
                while m < ps.len()
                    invariant
                        *cur == Json::Obj(*ps),
                        m <= ps@.len(),
                        pv == jv_pairs(ps@),
                        pv.len() == ps@.len(),
                        forall|q: int|
                            0 <= q < ps@.len() ==> pv[q] == (ps@[q].0@, jv(ps@[q].1)),
                        out@.len() == m,
                        forall|q: int|
                            0 <= q < out@.len() ==> jv(#[trigger] out@[q]) == pv[q].1,
                    decreases ps@.len() - m,
                {
                    out.push(ps[m].1.deep_clone());
                    m = m + 1;
                }
                proof {
                    crate::value::lemma_jv_seq(out@);
                    assert(jv_seq(out@) =~= obj_values(pv));
                }
                TraversalResult {
                    value: Some(Json::Arr(out)),
                    parent: Some(cur.deep_clone()),
                    depth: depth + 1,
                }
            },
            Json::Arr(_) => TraversalResult {
                value: Some(cur.deep_clone()),
                parent: clone_opt(par),
                depth: depth + 1,
            },
            _ => TraversalResult { value: None, parent: Some(cur.deep_clone()), depth },
        },
        PathSegment::Filter(p) => match cur {
            Json::Arr(a) => {
                proof {
                    crate::value::lemma_jv_seq(a@);
                }
                let ghost av = jv_seq(a@);
                let mut out: Vec<Json> = Vec::new();
                let mut m: usize = 0;
                while m < a.len()
                    invariant
                        *cur == Json::Arr(*a),
                        m <= a@.len(),
                        av == jv_seq(a@),
                        av.len() == a@.len(),
                        forall|q: int| 0 <= q < a@.len() ==> av[q] == jv(a@[q]),
                        jv_seq(out@) == filter_pred(av.subrange(0, m as int), p@),
                    decreases a@.len() - m,
                {
                    let ghost pre = av.subrange(0, m as int);
                    let ghost curp = av.subrange(0, m + 1);
                    proof {
                        assert(curp.drop_last() =~= pre);
                        assert(curp.last() == av[m as int]);
                    }
                    if eval_predicate(&a[m], p) {
                        let c = a[m].deep_clone();
                        let ghost old_out = out@;
                        out.push(c);
                        proof {
                            assert(out@.drop_last() =~= old_out);
                            crate::value::lemma_jv_seq(out@);
                            crate::value::lemma_jv_seq(old_out);
                            assert(jv_seq(out@) =~= jv_seq(old_out).push(av[m as int]));
                        }
                    }
                    m = m + 1;
                }
                proof {
                    assert(av.subrange(0, av.len() as int) =~= av);
                }
                let ghost fv = Jv::Arr(filter_pred(av, p@));
                if i + 1 >= segs.len() {
                    TraversalResult {
                        value: Some(Json::Arr(out)),
                        parent: Some(cur.deep_clone()),
                        depth: depth + 1,
                    }
                } else {
                    let farr = Json::Arr(out);
                    proof {
                        lemma_trav_depth(fv, None, 0, sv, i + 1);
                    }
                    let sub = trav_exec(&farr, None, 0, segs, i + 1);
                    TraversalResult {
                        value: sub.value,
                        parent: match sub.parent {
                            Some(q) => Some(q),
                            None => Some(farr),
                        },
                        depth: depth + 1 + sub.depth,
                    }
                }
            },
            _ => TraversalResult { value: None, parent: Some(cur.deep_clone()), depth },
        },
    }
}

/// Walks a JSON value along the given path segments, returning the
/// deepest reachable value, the last resolved container, and the number
/// of segments consumed. Never errors: an unresolvable path yields no
/// value.
pub fn traverse(root: &Json, segments: &[PathSegment]) -> (r: TraversalResult)
    ensures
        r@ == spec_traverse(root@, crate::query::segs_view(segments@)),
{
    let n = segments.len();
    if n == 0 {
        return TraversalResult { value: Some(root.deep_clone()), parent: None, depth: 0 };
    }
    trav_exec(root, None, 0, segments, 0)
}

/// Whether an element satisfies a predicate. Never mutates its input.
pub fn eval_predicate(value: &Json, pred: &Predicate) -> (r: bool)
    ensures
        r == pred_holds(value@, pred@),
{
    let field_val = match value.get(pred.field.as_str()) {
        Some(v) => v,
        None => {
            return false;
        },
    };
    match &pred.value {
        crate::query::FilterValue::Number(lit) => match field_val {
            Json::Num(ft) => {
                let a = ft.as_str();
                let b = lit.as_str();
                match pred.op {
                    CompareOp::Eq => crate::num::num_eq_eps(a, b),
                    CompareOp::Ne => !crate::num::num_eq_eps(a, b),
                    CompareOp::Lt => crate::num::num_lt(a, b),
                    CompareOp::Gt => crate::num::num_lt(b, a),
                    CompareOp::Le => crate::num::num_le(a, b),
                    CompareOp::Ge => crate::num::num_le(b, a),
                }
            },
            _ => false,
        },
        crate::query::FilterValue::String(lit) => match field_val {
            Json::Str(fs) => {
                let c = crate::text::str_cmp(fs.as_str(), lit.as_str());
                match pred.op {
                    CompareOp::Eq => c == 0,
                    CompareOp::Ne => c != 0,
                    CompareOp::Lt => c < 0,
                    CompareOp::Gt => c > 0,
                    CompareOp::Le => c <= 0,
                    CompareOp::Ge => c >= 0,
                }
            },
            _ => false,
        },
        crate::query::FilterValue::Bool(b) => match field_val {
            Json::Bool(fb) => match pred.op {
                CompareOp::Eq => *fb == *b,
                CompareOp::Ne => *fb != *b,
                _ => false,
            },
            _ => false,
        },
        crate::query::FilterValue::Null => {
            let is_null = match field_val {
                Json::Null => true,
                _ => false,
            };
            match pred.op {
                CompareOp::Eq => is_null,
                CompareOp::Ne => !is_null,
                _ => false,
            }
        },
    }
}


proof fn lemma_filter_pred_wf(s: Seq<Jv>, p: PredV)
    requires
        wf_seq(s),
    ensures
        wf_seq(filter_pred(s, p)),
    decreases s.len(),
{
    crate::value::lemma_wf_seq(s);
    crate::value::lemma_wf_seq(filter_pred(s, p));
    if s.len() > 0 {
        assert(wf_seq(s.drop_last())) by {
            crate::value::lemma_wf_seq(s.drop_last());
        }
        lemma_filter_pred_wf(s.drop_last(), p);
        crate::value::lemma_wf_seq(filter_pred(s.drop_last(), p));
    }
}

proof fn lemma_lookup_wf(ps: Seq<(Seq<char>, Jv)>, k: Seq<char>)
    requires
        wf_pairs(ps),
    ensures
        match lookup_pairs(ps, k) {
            Some(v) => wf(v),
            None => true,
        },
    decreases ps.len(),
{
    crate::value::lemma_wf_pairs(ps);
    if ps.len() > 0 && ps[0].0 != k {
        let t = ps.subrange(1, ps.len() as int);
        assert(wf_pairs(t)) by {
            crate::value::lemma_wf_pairs(t);
        }
        lemma_lookup_wf(t, k);
    }
}

proof fn lemma_trav_wf(cur: Jv, par: Option<Jv>, depth: int, segs: Seq<SegV>, i: int)
    requires
        wf(cur),
    ensures
        ({
            let r = trav(cur, par, depth, segs, i);
            match r.value {
                Some(v) => wf(v),
                None => true,
            }
        }),
    decreases segs.len() - i,
{
    if 0 <= i < segs.len() {
        match segs[i] {
            SegV::Key(k) => match jv_get(cur, k) {
                Some(v) => {
                    match cur {
                        Jv::Obj(ps) => {
                            lemma_lookup_wf(ps, k);
                        },
                        _ => {},
                    }
                    lemma_trav_wf(v, Some(cur), depth + 1, segs, i + 1);
                },
                None => {},
            },
            SegV::Index(ix) => match cur {
                Jv::Arr(a) => {
                    let ri = if ix < 0 {
                        a.len() + ix
                    } else {
                        ix as int
                    };
                    if 0 <= ri < a.len() {
                        crate::value::lemma_wf_seq(a);
                        lemma_trav_wf(a[ri], Some(cur), depth + 1, segs, i + 1);
                    }
                },
                _ => {},
            },
            SegV::Slice(s0, e0) => match cur {
                Jv::Arr(a) => {
                    crate::value::lemma_wf_seq(a);
                    crate::value::lemma_wf_seq(slice_of(a, s0, e0));
                },
                _ => {},
            },
            SegV::Wildcard => match cur {
                Jv::Obj(ps) => {
                    crate::value::lemma_wf_pairs(ps);
                    crate::value::lemma_wf_seq(obj_values(ps));
                },
                _ => {},
            },
            SegV::Filter(p) => match cur {
                Jv::Arr(a) => {
                    lemma_filter_pred_wf(a, p);
                    let f = Jv::Arr(filter_pred(a, p));
                    if i + 1 < segs.len() {
                        lemma_trav_wf(f, None, 0, segs, i + 1);
                    }
                },
                _ => {},
            },
        }
    }
}

/// A pure walk over well-formed data stays well formed: whatever value
/// a traversal of a well-formed document resolves keeps every object's
/// keys strictly ordered.
pub proof fn lemma_traverse_wf(root: Jv, segs: Seq<SegV>)
    requires
        wf(root),
    ensures
        match spec_traverse(root, segs).value {
            Some(v) => wf(v),
            None => true,
        },
{
    if segs.len() > 0 {
        lemma_trav_wf(root, None, 0, segs, 0);
    }
}

// --- laws ---

/// Negative indices count from the end: on a non-empty array of length
/// `n`, index `-1` resolves to the same element as index `n - 1`.
pub proof fn lemma_negative_index(root: Jv, a: Seq<Jv>)
    requires
        root == Jv::Arr(a),
        1 <= a.len() <= i64::MAX,
    ensures
        spec_traverse(root, seq![SegV::Index(-1i64)]) == spec_traverse(
            root,
            seq![SegV::Index((a.len() - 1) as i64)],
        ),
{
    let s1 = seq![SegV::Index(-1i64)];
    let s2 = seq![SegV::Index((a.len() - 1) as i64)];
    assert(s1[0] == SegV::Index(-1i64));
    assert(s2[0] == SegV::Index((a.len() - 1) as i64));
    assert(trav(root, None, 0, s1, 0) == trav(a[a.len() - 1], Some(root), 1, s1, 1));
    assert(trav(root, None, 0, s2, 0) == trav(a[a.len() - 1], Some(root), 1, s2, 1));
}

/// A slice keeps exactly the elements between its clamped bounds: its
/// length is the clamped end minus the clamped start when that is not
/// negative, and zero otherwise.
pub proof fn lemma_slice_len(a: Seq<Jv>, s0: Option<i64>, e0: Option<i64>)
    ensures
        ({
            let lo = resolve_start(s0, a.len() as int);
            let hi = resolve_end(e0, a.len() as int);
            slice_of(a, s0, e0).len() == if hi >= lo {
                hi - lo
            } else {
                0
            }
        }),
{
}

/// The traversal's depth never exceeds the number of segments.
pub proof fn lemma_traverse_depth(root: Jv, segs: Seq<SegV>)
    ensures
        0 <= spec_traverse(root, segs).depth <= segs.len(),
{
    if segs.len() > 0 {
        lemma_trav_depth(root, None, 0, segs, 0);
    }
}

// --- available keys ---

/// Inserts a key after every key not above it: a stable ascending order.
pub open spec fn insert_key(s: Seq<Seq<char>>, k: Seq<char>) -> Seq<Seq<char>>
    decreases s.len(),
{
    if s.len() == 0 {
        seq![k]
    } else if lex_cmp(k, s.last()) < 0 {
        insert_key(s.drop_last(), k).push(s.last())
    } else {
        s.push(k)
    }
}

/// The keys sorted lexicographically.
pub open spec fn sort_key_seq(s: Seq<Seq<char>>) -> Seq<Seq<char>>
    decreases s.len(),
{
    if s.len() == 0 {
        Seq::empty()
    } else {
        insert_key(sort_key_seq(s.drop_last()), s.last())
    }
}

proof fn lemma_insert_key_at(s: Seq<Seq<char>>, k: Seq<char>, m: int)
    requires
        0 <= m <= s.len(),
        forall|j: int| m <= j < s.len() ==> lex_cmp(k, #[trigger] s[j]) < 0,
        m > 0 ==> !(lex_cmp(k, s[m - 1]) < 0),
    ensures
        insert_key(s, k) == s.insert(m, k),
    decreases s.len(),
{
    if s.len() == 0 {
        assert(seq![k] =~= s.insert(0, k));
    } else if m == s.len() as int {
        assert(s.push(k) =~= s.insert(m, k));
    } else {
        lemma_insert_key_at(s.drop_last(), k, m);
        assert(s.drop_last().insert(m, k).push(s.last()) =~= s.insert(m, k));
    }
}

/// The name of an array position, as a suggestion: `[i]`.
pub open spec fn index_key(i: int) -> Seq<char> {
    seq!['['] + crate::num::dec_digits(if i >= 0 {
        i as nat
    } else {
        0
    }) + seq![']']
}

/// The keys available at a value, for suggestions: an object's keys
/// sorted, an array's positions as `[i]`, nothing otherwise.
pub open spec fn spec_available_keys(v: Jv) -> Seq<Seq<char>> {
    match v {
        Jv::Obj(ps) => sort_key_seq(ps.map_values(|p: (Seq<char>, Jv)| p.0)),
        Jv::Arr(a) => Seq::new(a.len(), |i: int| index_key(i)),
        _ => Seq::empty(),
    }
}

/// The keys available at the current value.
pub fn get_available_keys(value: &Json) -> (r: Vec<String>)
    ensures
        r@.map_values(|x: String| x@) == spec_available_keys(value@),
{
    match value {
        Json::Obj(ps) => {
            proof {
                crate::value::lemma_jv_pairs(ps@);
            }
            let ghost pv = jv_pairs(ps@);
            let ghost keys = pv.map_values(|p: (Seq<char>, Jv)| p.0);
            let mut out: Vec<String> = Vec::new();
            let mut i: usize = 0;
            while i < ps.len()
                invariant
                    i <= ps@.len(),
                    pv == jv_pairs(ps@),
                    pv.len() == ps@.len(),
                    forall|n: int|
                        0 <= n < ps@.len() ==> pv[n] == ((#[trigger] ps@[n]).0@, jv(ps@[n].1)),
                    keys == pv.map_values(|p: (Seq<char>, Jv)| p.0),
                    out@.map_values(|x: String| x@) == sort_key_seq(keys.subrange(0, i as int)),
                decreases ps@.len() - i,
            {
                let ghost pre = keys.subrange(0, i as int);
                let ghost cur = keys.subrange(0, i + 1);
                proof {
                    assert(cur.drop_last() =~= pre);
                    assert(cur.last() == keys[i as int]);
                }
                let x = ps[i].0.clone();
                let ghost ov = out@.map_values(|q: String| q@);
                let mut m: usize = out.len();
                while m > 0 && crate::text::str_cmp(x.as_str(), out[m - 1].as_str()) < 0
                    invariant
                        m <= out@.len(),
                        x@ == keys[i as int],
                        ov == out@.map_values(|q: String| q@),
                        ov.len() == out@.len(),
                        forall|n: int|
                            0 <= n < out@.len() ==> ov[n] == (#[trigger] out@[n])@,
                        forall|j: int| m <= j < ov.len() ==> lex_cmp(x@, #[trigger] ov[j]) < 0,
                    decreases m,
                {
                    m = m - 1;
                }
                proof {
                    lemma_insert_key_at(ov, x@, m as int);
                }
                let ghost old_out = out@;
                out.insert(m, x);
                proof {
                    assert(out@.map_values(|q: String| q@) =~= old_out.map_values(
                        |q: String| q@,
                    ).insert(m as int, keys[i as int]));
                }
                i = i + 1;
            }
            proof {
                assert(keys.subrange(0, keys.len() as int) =~= keys);
            }
            out
        },
        Json::Arr(a) => {
            proof {
                crate::value::lemma_jv_seq(a@);
            }
            let mut out: Vec<String> = Vec::new();
            let mut i: usize = 0;
            while i < a.len()
                invariant
                    i <= a@.len(),
                    jv_seq(a@).len() == a@.len(),
                    out@.len() == i,
                    forall|n: int| 0 <= n < i ==> (#[trigger] out@[n])@ == index_key(n),
                decreases a@.len() - i,
            {
                let mut k = String::from_str("[");
                let d = crate::num::usize_text(i);
                k.append(d.as_str());
                k.append("]");
                proof {
                    reveal_strlit("[");
                    reveal_strlit("]");
                    assert(k@ =~= index_key(i as int));
                }
                out.push(k);
                i = i + 1;
            }
            proof {
                assert(out@.map_values(|x: String| x@) =~= Seq::new(
                    jv_seq(a@).len(),
                    |i: int| index_key(i),
                ));
            }
            out
        },
        _ => {
            let out: Vec<String> = Vec::new();
            proof {
                assert(out@.map_values(|x: String| x@) =~= Seq::<Seq<char>>::empty());
            }
            out
        },
    }
}
} // verus!
