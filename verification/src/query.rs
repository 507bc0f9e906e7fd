//! The path-query language: `.key`, `[0]`, `[-1]`, `[a:b]`, `[*]`, `.*`,
//! `["quoted key"]`, and bracketed filter predicates such as
//! `[price < 10]`. The parser scans character by character; its exact
//! behaviour, including every error and its position, is written down as
//! spec functions that the executable parser is proved to implement.

use vstd::prelude::*;

use crate::num::num_canon;
use crate::text::{find_sub, trimmed};

verus! {

/// Comparison operator for filter predicates.
#[derive(Debug, Clone, Copy, PartialEq, Eq, Structural)]
pub enum CompareOp {
    Eq,
    Ne,
    Lt,
    Gt,
    Le,
    Ge,
}

/// A value literal in a filter predicate. `Number` carries the canonical
/// text of the parsed double (see `num`).
#[derive(Debug, Clone, PartialEq, Eq)]
pub enum FilterValue {
    String(String),
    Number(String),
    Bool(bool),
    Null,
}

/// The ghost shape of a filter literal.
pub enum FvV {
    Str(Seq<char>),
    Num(Seq<char>),
    Bool(bool),
    Null,
}

impl View for FilterValue {
    type V = FvV;

    open spec fn view(&self) -> FvV {
        match self {
            FilterValue::String(s) => FvV::Str(s@),
            FilterValue::Number(s) => FvV::Num(s@),
            FilterValue::Bool(b) => FvV::Bool(*b),
            FilterValue::Null => FvV::Null,
        }
    }
}

/// A filter predicate: `field op value`.
#[derive(Debug, Clone, PartialEq, Eq)]
pub struct Predicate {
    pub field: String,
    pub op: CompareOp,
    pub value: FilterValue,
}

/// The ghost shape of a predicate.
pub struct PredV {
    pub field: Seq<char>,
    pub op: CompareOp,
    pub value: FvV,
}

impl View for Predicate {
    type V = PredV;

    open spec fn view(&self) -> PredV {
        PredV { field: self.field@, op: self.op, value: self.value@ }
    }
}

/// A single segment of a path query.
#[derive(Debug, Clone, PartialEq, Eq)]
pub enum PathSegment {
    /// Object key access: `.foo`
    Key(String),
    /// Array index access: `[0]`, `[-1]`
    Index(i64),
    /// Array slice: `[0:5]`, `[:3]`, `[2:]`
    Slice(Option<i64>, Option<i64>),
    /// Wildcard: `[*]` or `.*`
    Wildcard,
    /// Filter predicate on an array: `[price < 10]`
    Filter(Predicate),
}

/// The ghost shape of a path segment.
pub enum SegV {
    Key(Seq<char>),
    Index(i64),
    Slice(Option<i64>, Option<i64>),
    Wildcard,
    Filter(PredV),
}

impl View for PathSegment {
    type V = SegV;

    open spec fn view(&self) -> SegV {
        match self {
            PathSegment::Key(s) => SegV::Key(s@),
            PathSegment::Index(i) => SegV::Index(*i),
            PathSegment::Slice(a, b) => SegV::Slice(*a, *b),
            PathSegment::Wildcard => SegV::Wildcard,
            PathSegment::Filter(p) => SegV::Filter(p@),
        }
    }
}

/// The segments of a parsed query, as ghost shapes.
pub open spec fn segs_view(s: Seq<PathSegment>) -> Seq<SegV> {
    s.map_values(|p: PathSegment| p@)
}

/// Error from parsing a query string.
#[derive(Debug, Clone, PartialEq, Eq)]
pub enum QueryError {
    MustStartWithDot,
    UnexpectedChar { ch: char, pos: usize },
    UnclosedBracket { pos: usize },
    UnclosedQuote { pos: usize },
    InvalidIndex { value: String, pos: usize },
    InvalidPredicate { expr: String, pos: usize },
    Empty,
}

/// The ghost shape of a query error.
pub enum QErrV {
    MustStartWithDot,
    UnexpectedChar { ch: char, pos: int },
    UnclosedBracket { pos: int },
    UnclosedQuote { pos: int },
    InvalidIndex { value: Seq<char>, pos: int },
    InvalidPredicate { expr: Seq<char>, pos: int },
    Empty,
}

impl View for QueryError {
    type V = QErrV;

    open spec fn view(&self) -> QErrV {
        match self {
            QueryError::MustStartWithDot => QErrV::MustStartWithDot,
            QueryError::UnexpectedChar { ch, pos } => QErrV::UnexpectedChar {
                ch: *ch,
                pos: *pos as int,
            },
            QueryError::UnclosedBracket { pos } => QErrV::UnclosedBracket { pos: *pos as int },
            QueryError::UnclosedQuote { pos } => QErrV::UnclosedQuote { pos: *pos as int },
            QueryError::InvalidIndex { value, pos } => QErrV::InvalidIndex {
                value: value@,
                pos: *pos as int,
            },
            QueryError::InvalidPredicate { expr, pos } => QErrV::InvalidPredicate {
                expr: expr@,
                pos: *pos as int,
            },
            QueryError::Empty => QErrV::Empty,
        }
    }
}

// --- predicates ---

/// The text of a comparison operator.
pub open spec fn op_seq(op: CompareOp) -> Seq<char> {
    match op {
        CompareOp::Eq => seq!['=', '='],
        CompareOp::Ne => seq!['!', '='],
        CompareOp::Le => seq!['<', '='],
        CompareOp::Ge => seq!['>', '='],
        CompareOp::Lt => seq!['<'],
        CompareOp::Gt => seq!['>'],
    }
}

/// The first operator found in `t`: the two-character operators are tried
/// first, each by its first occurrence in the text.
pub open spec fn first_op(t: Seq<char>) -> Option<(CompareOp, int)> {
    match find_sub(t, op_seq(CompareOp::Eq)) {
        Some(i) => Some((CompareOp::Eq, i)),
        None => match find_sub(t, op_seq(CompareOp::Ne)) {
            Some(i) => Some((CompareOp::Ne, i)),
            None => match find_sub(t, op_seq(CompareOp::Le)) {
                Some(i) => Some((CompareOp::Le, i)),
                None => match find_sub(t, op_seq(CompareOp::Ge)) {
                    Some(i) => Some((CompareOp::Ge, i)),
                    None => match find_sub(t, op_seq(CompareOp::Lt)) {
                        Some(i) => Some((CompareOp::Lt, i)),
                        None => match find_sub(t, op_seq(CompareOp::Gt)) {
                            Some(i) => Some((CompareOp::Gt, i)),
                            None => None,
                        },
                    },
                },
            },
        },
    }
}

/// How a filter literal reads: a quoted string keeps its inside verbatim,
/// `true`/`false`/`null` their meanings, a text that parses as a double
/// a number, and anything else an unquoted string.
pub open spec fn spec_filter_value(s0: Seq<char>) -> FvV {
    let s = trimmed(s0);
    if s.len() >= 2 && ((s[0] == '"' && s[s.len() - 1] == '"') || (s[0] == '\'' && s[s.len() - 1]
        == '\'')) {
        FvV::Str(s.subrange(1, s.len() - 1))
    } else if s == seq!['t', 'r', 'u', 'e'] {
        FvV::Bool(true)
    } else if s == seq!['f', 'a', 'l', 's', 'e'] {
        FvV::Bool(false)
    } else if s == seq!['n', 'u', 'l', 'l'] {
        FvV::Null
    } else {
        match num_canon(s) {
            Some(c) => FvV::Num(c),
            None => FvV::Str(s),
        }
    }
}

/// What parsing a predicate expression yields: the field before the first
/// operator, the operator, and the literal after it; or a message naming
/// what is missing.
pub open spec fn spec_parse_predicate(expr: Seq<char>) -> Result<PredV, Seq<char>> {
    let t = trimmed(expr);
    match first_op(t) {
        None => Err("no valid operator found in: "@ + t),
        Some((op, i)) => {
            let field = trimmed(t.subrange(0, i));
            let vstr = trimmed(t.subrange(i + op_seq(op).len(), t.len() as int));
            if field.len() == 0 || vstr.len() == 0 {
                Err("incomplete predicate: "@ + t)
            } else {
                Ok(PredV { field, op, value: spec_filter_value(vstr) })
            }
        },
    }
}

/// Parses a filter literal from the characters of the (trimmed) value text.
fn filter_value_exec(v: &Vec<char>) -> (r: FilterValue)
    ensures
        r@ == spec_filter_value(v@),
{
    let (lo, hi) = crate::text::trim_bounds(v, 0, v.len());
    proof {
        assert(v@.subrange(0, v@.len() as int) =~= v@);
    }
    let ghost s = trimmed(v@);
    let n = hi - lo;
    if n >= 2 && ((v[lo] == '"' && v[hi - 1] == '"') || (v[lo] == '\'' && v[hi - 1] == '\'')) {
        proof {
            assert(s[0] == v@[lo as int]);
            assert(s[s.len() - 1] == v@[hi - 1]);
            assert(v@.subrange(lo + 1, hi - 1) =~= s.subrange(1, s.len() - 1));
        }
        return FilterValue::String(crate::text::chars_to_string_range(v, lo + 1, hi - 1));
    }
    let t = crate::text::chars_to_string_range(v, lo, hi);
    proof {
        assert(t@ == s);
        reveal_strlit("true");
        reveal_strlit("false");
        reveal_strlit("null");
    }
    if crate::text::str_eq(t.as_str(), "true") {
        proof {
            assert(s =~= seq!['t', 'r', 'u', 'e']);
        }
        return FilterValue::Bool(true);
    }
    if crate::text::str_eq(t.as_str(), "false") {
        proof {
            assert(s =~= seq!['f', 'a', 'l', 's', 'e']);
        }
        return FilterValue::Bool(false);
    }
    if crate::text::str_eq(t.as_str(), "null") {
        proof {
            assert(s =~= seq!['n', 'u', 'l', 'l']);
        }
        return FilterValue::Null;
    }
    proof {
        assert(s != seq!['t', 'r', 'u', 'e'] && s != seq!['f', 'a', 'l', 's', 'e'] && s != seq![
            'n',
            'u',
            'l',
            'l',
        ]) by {
            if s == seq!['t', 'r', 'u', 'e'] {
                assert(s =~= "true"@);
            }
            if s == seq!['f', 'a', 'l', 's', 'e'] {
                assert(s =~= "false"@);
            }
            if s == seq!['n', 'u', 'l', 'l'] {
                assert(s =~= "null"@);
            }
        }
        if s.len() >= 2 {
            assert(s[0] == v@[lo as int]);
            assert(s[s.len() - 1] == v@[hi - 1]);
        }
    }
    match crate::num::num_parse(t.as_str()) {
        Some(c) => FilterValue::Number(c),
        None => FilterValue::String(t),
    }
}

/// Parses a predicate expression such as `price < 10` or
/// `name == "Alice"`; the error is a message naming the trimmed
/// expression.
pub fn parse_predicate(expr: &str) -> (r: Result<Predicate, String>)
    ensures
        match r {
            Ok(p) => spec_parse_predicate(expr@) == Ok::<PredV, Seq<char>>(p@),
            Err(m) => spec_parse_predicate(expr@) == Err::<PredV, Seq<char>>(m@),
        },
{
    let chars = crate::text::str_chars(expr);
    let (lo, hi) = crate::text::trim_bounds(&chars, 0, chars.len());
    proof {
        assert(chars@.subrange(0, chars@.len() as int) =~= chars@);
    }
    let t = crate::text::subvec(&chars, lo, hi);
    let ghost tv = trimmed(expr@);
    proof {
        assert(t@ == tv);
    }

    let mut op: CompareOp = CompareOp::Eq;
    let mut idx: usize = 0;
    let mut oplen: usize = 2;
    let mut found = false;

    let mut opv: Vec<char> = Vec::new();
    opv.push('=');
    opv.push('=');
    proof {
        assert(opv@ =~= op_seq(CompareOp::Eq));
    }
    match crate::text::find_sub_exec(&t, &opv) {
        Some(i) => {
            op = CompareOp::Eq;
            idx = i;
            oplen = 2;
            found = true;
        },
        None => {},
    }
    if !found {
        let mut opv: Vec<char> = Vec::new();
        opv.push('!');
        opv.push('=');
        proof {
            assert(opv@ =~= op_seq(CompareOp::Ne));
        }
        match crate::text::find_sub_exec(&t, &opv) {
            Some(i) => {
                op = CompareOp::Ne;
                idx = i;
                oplen = 2;
                found = true;
            },
            None => {},
        }
    }
    if !found {
        let mut opv: Vec<char> = Vec::new();
        opv.push('<');
        opv.push('=');
        proof {
            assert(opv@ =~= op_seq(CompareOp::Le));
        }
        match crate::text::find_sub_exec(&t, &opv) {
            Some(i) => {
                op = CompareOp::Le;
                idx = i;
                oplen = 2;
                found = true;
            },
            None => {},
        }
    }
    if !found {
        let mut opv: Vec<char> = Vec::new();
        opv.push('>');
        opv.push('=');
        proof {
            assert(opv@ =~= op_seq(CompareOp::Ge));
        }
        match crate::text::find_sub_exec(&t, &opv) {
            Some(i) => {
                op = CompareOp::Ge;
                idx = i;
                oplen = 2;
                found = true;
            },
            None => {},
        }
    }
    if !found {
        let mut opv: Vec<char> = Vec::new();
        opv.push('<');
        proof {
            assert(opv@ =~= op_seq(CompareOp::Lt));
        }
        match crate::text::find_sub_exec(&t, &opv) {
            Some(i) => {
                op = CompareOp::Lt;
                idx = i;
                oplen = 1;
                found = true;
            },
            None => {},
        }
    }
    if !found {
        let mut opv: Vec<char> = Vec::new();
        opv.push('>');
        proof {
            assert(opv@ =~= op_seq(CompareOp::Gt));
        }
        match crate::text::find_sub_exec(&t, &opv) {
            Some(i) => {
                op = CompareOp::Gt;
                idx = i;
                oplen = 1;
                found = true;
            },
            None => {},
        }
    }
    if !found {
        proof {
            assert(first_op(tv) is None);
        }
        let msg = String::from_str("no valid operator found in: ").concat(
            crate::text::chars_to_string(&t).as_str(),
        );
        return Err(msg);
    }
    proof {
        assert(first_op(tv) == Some((op, idx as int)));
        assert(op_seq(op).len() == oplen as nat);
        assert(idx + oplen <= tv.len()) by {
            assert(crate::text::match_at(tv, op_seq(op), idx as int));
        }
    }
    let (flo, fhi) = crate::text::trim_bounds(&t, 0, idx);
    let ghost field_s = trimmed(tv.subrange(0, idx as int));
    let (vlo, vhi) = crate::text::trim_bounds(&t, idx + oplen, t.len());
    let ghost vstr_s = trimmed(tv.subrange(idx + oplen, tv.len() as int));
    if flo == fhi || vlo == vhi {
        let msg = String::from_str("incomplete predicate: ").concat(
            crate::text::chars_to_string(&t).as_str(),
        );
        return Err(msg);
    }
    let field = crate::text::chars_to_string_range(&t, flo, fhi);
    let vvec = crate::text::subvec(&t, vlo, vhi);
    proof {
        assert(field@ == field_s);
        assert(vvec@ == vstr_s);
    }
    let value = filter_value_exec(&vvec);
    Ok(Predicate { field, op, value })
}

// --- the path parser ---

/// The end of an unbracketed key run: the first `.` or `[` at or after
/// `i`, or the end of the text.
pub open spec fn key_end(s: Seq<char>, i: int) -> int
    decreases s.len() - i,
{
    if i < 0 || i >= s.len() {
        s.len() as int
    } else if s[i] == '.' || s[i] == '[' {
        i
    } else {
        key_end(s, i + 1)
    }
}

/// Where a quoted key ends: scanning from `i`, a backslash skips the next
/// character; the result is the position of the closing quote, or a
/// position past the end when there is none.
pub open spec fn quote_end(s: Seq<char>, i: int) -> int
    decreases s.len() + 2 - i,
{
    if i < 0 || i >= s.len() {
        i
    } else if s[i] == '"' {
        i
    } else if s[i] == '\\' {
        quote_end(s, i + 2)
    } else {
        quote_end(s, i + 1)
    }
}

/// The first `]` at or after `i`, or the end of the text.
pub open spec fn content_end(s: Seq<char>, i: int) -> int
    decreases s.len() - i,
{
    if i < 0 || i >= s.len() {
        s.len() as int
    } else if s[i] == ']' {
        i
    } else {
        content_end(s, i + 1)
    }
}

pub proof fn lemma_key_end_ge(s: Seq<char>, i: int)
    requires
        0 <= i <= s.len(),
    ensures
        i <= key_end(s, i) <= s.len(),
    decreases s.len() - i,
{
    if i < s.len() && !(s[i] == '.' || s[i] == '[') {
        lemma_key_end_ge(s, i + 1);
    }
}

pub proof fn lemma_quote_end_ge(s: Seq<char>, i: int)
    requires
        0 <= i,
    ensures
        quote_end(s, i) >= i,
    decreases s.len() + 2 - i,
{
    if i < s.len() && s[i] != '"' {
        if s[i] == '\\' {
            lemma_quote_end_ge(s, i + 2);
        } else {
            lemma_quote_end_ge(s, i + 1);
        }
    }
}

pub proof fn lemma_content_end_ge(s: Seq<char>, i: int)
    requires
        0 <= i <= s.len(),
    ensures
        i <= content_end(s, i) <= s.len(),
    decreases s.len() - i,
{
    if i < s.len() && s[i] != ']' {
        lemma_content_end_ge(s, i + 1);
    }
}

/// Whether every character of `s` is a decimal digit.
pub open spec fn all_digits(s: Seq<char>) -> bool {
    forall|k: int| 0 <= k < s.len() ==> 48 <= (#[trigger] s[k]) as u32 <= 57
}

/// The number the digits of `s` denote.
pub open spec fn digits_val(s: Seq<char>) -> int
    decreases s.len(),
{
    if s.len() == 0 {
        0
    } else {
        digits_val(s.drop_last()) * 10 + ((s.last() as u32) - 48)
    }
}

/// What `s` parses to as a signed 64-bit integer: an optional sign, then
/// one or more digits, denoting a value in the `i64` range.
pub open spec fn parse_i64_v(s: Seq<char>) -> Option<i64> {
    let neg = s.len() > 0 && s[0] == '-';
    let ds = if s.len() > 0 && (s[0] == '-' || s[0] == '+') {
        s.subrange(1, s.len() as int)
    } else {
        s
    };
    if ds.len() == 0 || !all_digits(ds) {
        None
    } else {
        let v = if neg {
            -digits_val(ds)
        } else {
            digits_val(ds)
        };
        if i64::MIN <= v <= i64::MAX {
            Some(v as i64)
        } else {
            None
        }
    }
}

proof fn lemma_digits_val_nonneg(s: Seq<char>)
    requires
        all_digits(s),
    ensures
        digits_val(s) >= 0,
    decreases s.len(),
{
    if s.len() > 0 {
        assert(all_digits(s.drop_last()));
        lemma_digits_val_nonneg(s.drop_last());
    }
}

/// Parses the digits of `v[from..to]` as an `i64`.
fn parse_i64_range(v: &Vec<char>, from: usize, to: usize) -> (r: Option<i64>)
    requires
        from <= to <= v@.len(),
    ensures
        r == parse_i64_v(v@.subrange(from as int, to as int)),
{
    let ghost s = v@.subrange(from as int, to as int);
    if from == to {
        return None;
    }
    let c0 = v[from];
    let neg = c0 == '-';
    let dstart = if c0 == '-' || c0 == '+' {
        from + 1
    } else {
        from
    };
    let ghost ds = if c0 == '-' || c0 == '+' {
        s.subrange(1, s.len() as int)
    } else {
        s
    };
    proof {
        assert(s[0] == v@[from as int]);
        assert(ds =~= v@.subrange(dstart as int, to as int));
    }
    if dstart == to {
        return None;
    }
    let mut acc: u64 = 0;
    let mut over = false;
    let mut k: usize = dstart;
    while k < to
        invariant
            from <= dstart <= k <= to <= v@.len(),
            dstart == from || dstart == from + 1,
            s == v@.subrange(from as int, to as int),
            s.len() > 0,
            dstart == from + 1 <==> (s[0] == '-' || s[0] == '+'),
            neg == (s[0] == '-'),
            ds == v@.subrange(dstart as int, to as int),
            all_digits(v@.subrange(dstart as int, k as int)),
            !over ==> acc == digits_val(v@.subrange(dstart as int, k as int)),
            over ==> digits_val(v@.subrange(dstart as int, k as int)) > u64::MAX,
        decreases to - k,
    {
        let c = v[k];
        let u = c as u32;
        if u < 48 || u > 57 {
            proof {
                assert(s.subrange(1, s.len() as int) =~= v@.subrange(from + 1, to as int));
                assert(ds[k - dstart] == v@[k as int]);
                assert(!all_digits(ds));
                let ds2 = if s.len() > 0 && (s[0] == '-' || s[0] == '+') {
                    s.subrange(1, s.len() as int)
                } else {
                    s
                };
                assert(ds2 == ds);
                assert(parse_i64_v(s) is None);
            }
            return None;
        }
        let d = (u - 48) as u64;
        let ghost pre = v@.subrange(dstart as int, k as int);
        let ghost cur = v@.subrange(dstart as int, k + 1);
        proof {
            assert(cur.drop_last() =~= pre);
            assert(cur.last() == v@[k as int]);
            assert(digits_val(cur) == digits_val(pre) * 10 + d);
        }
        if !over {
            if acc > (u64::MAX - d) / 10 {
                proof {
                    assert(acc * 10 + d > u64::MAX) by (nonlinear_arith)
                        requires
                            acc > (u64::MAX - d) / 10,
                            d <= 9,
                    ;
                }
                over = true;
            } else {
                proof {
                    assert(acc * 10 + d <= u64::MAX) by (nonlinear_arith)
                        requires
                            acc <= (u64::MAX - d) / 10,
                            d <= 9,
                    ;
                }
                acc = acc * 10 + d;
            }
        } else {
            proof {
                assert(digits_val(pre) * 10 + d > u64::MAX);
            }
        }
        k = k + 1;
    }
    proof {
        assert(v@.subrange(dstart as int, to as int) =~= ds);
        if over {
            lemma_digits_val_nonneg(ds);
        }
    }
    if over {
        return None;
    }
    if neg {
        if acc < 9223372036854775808u64 {
            Some(-(acc as i64))
        } else if acc == 9223372036854775808u64 {
            Some(i64::MIN)
        } else {
            None
        }
    } else {
        if acc <= 9223372036854775807u64 {
            Some(acc as i64)
        } else {
            None
        }
    }
}

/// What a bracket expression starting at `start` (at the `[`) yields: the
/// segment it denotes and the position after the closing `]`.
pub open spec fn spec_bracket(s: Seq<char>, start: int) -> Result<(SegV, int), QErrV> {
    let j = start + 1;
    if j >= s.len() {
        Err(QErrV::UnclosedBracket { pos: start })
    } else if s[j] == '*' {
        if j + 1 >= s.len() || s[j + 1] != ']' {
            Err(QErrV::UnclosedBracket { pos: start })
        } else {
            Ok((SegV::Wildcard, j + 2))
        }
    } else if s[j] == '"' {
        let qe = quote_end(s, j + 1);
        if qe >= s.len() {
            Err(QErrV::UnclosedQuote { pos: j })
        } else if qe + 1 >= s.len() || s[qe + 1] != ']' {
            Err(QErrV::UnclosedBracket { pos: start })
        } else {
            Ok((SegV::Key(s.subrange(j + 1, qe)), qe + 2))
        }
    } else if 48 <= (s[j] as u32) <= 57 || s[j] == '-' || s[j] == ':' {
        let ce = content_end(s, j);
        if ce >= s.len() {
            Err(QErrV::UnclosedBracket { pos: start })
        } else {
            let content = s.subrange(j, ce);
            match find_sub(content, seq![':']) {
                Some(cp) => {
                    let p0 = content.subrange(0, cp);
                    let p1 = content.subrange(cp + 1, content.len() as int);
                    if p0.len() > 0 && parse_i64_v(p0) is None {
                        Err(QErrV::InvalidIndex { value: p0, pos: j })
                    } else if p1.len() > 0 && parse_i64_v(p1) is None {
                        Err(QErrV::InvalidIndex { value: p1, pos: j })
                    } else {
                        let lo = if p0.len() == 0 {
                            None
                        } else {
                            parse_i64_v(p0)
                        };
                        let hi = if p1.len() == 0 {
                            None
                        } else {
                            parse_i64_v(p1)
                        };
                        Ok((SegV::Slice(lo, hi), ce + 1))
                    }
                },
                None => match parse_i64_v(content) {
                    Some(ix) => Ok((SegV::Index(ix), ce + 1)),
                    None => Err(QErrV::InvalidIndex { value: content, pos: j }),
                },
            }
        }
    } else {
        let ce = content_end(s, j);
        if ce >= s.len() {
            Err(QErrV::UnclosedBracket { pos: start })
        } else {
            let content = s.subrange(j, ce);
            match spec_parse_predicate(content) {
                Ok(p) => Ok((SegV::Filter(p), ce + 1)),
                Err(_) => Err(QErrV::InvalidPredicate { expr: content, pos: j }),
            }
        }
    }
}

pub proof fn lemma_bracket_next(s: Seq<char>, start: int)
    requires
        0 <= start < s.len(),
    ensures
        match spec_bracket(s, start) {
            Ok((seg, ni)) => start < ni <= s.len(),
            Err(e) => true,
        },
{
    if start + 1 < s.len() {
        lemma_quote_end_ge(s, start + 2);
        lemma_content_end_ge(s, start + 1);
    }
}

/// The segments from position `i` on, mirroring the scanning loop: a
/// bracket is handed to `spec_bracket`; a dot starts a key, a wildcard,
/// or is tolerated before `[`, after another dot, and at the end; any
/// other character is an error at its position.
pub open spec fn parse_main(s: Seq<char>, i: int) -> Result<Seq<SegV>, QErrV>
    decreases s.len() - i,
    via parse_main_dec
{
    if i < 0 || i >= s.len() {
        Ok(Seq::empty())
    } else if s[i] == '[' {
        match spec_bracket(s, i) {
            Err(e) => Err(e),
            Ok((seg, ni)) => match parse_main(s, ni) {
                Ok(rest) => Ok(seq![seg] + rest),
                Err(e) => Err(e),
            },
        }
    } else if s[i] == '.' {
        if i + 1 >= s.len() {
            Ok(Seq::empty())
        } else if s[i + 1] == '*' {
            match parse_main(s, i + 2) {
                Ok(rest) => Ok(seq![SegV::Wildcard] + rest),
                Err(e) => Err(e),
            }
        } else if s[i + 1] == '[' {
            parse_main(s, i + 1)
        } else if s[i + 1] == '.' {
            parse_main(s, i + 1)
        } else {
            let j = key_end(s, i + 1);
            match parse_main(s, j) {
                Ok(rest) => Ok(seq![SegV::Key(s.subrange(i + 1, j))] + rest),
                Err(e) => Err(e),
            }
        }
    } else {
        Err(QErrV::UnexpectedChar { ch: s[i], pos: i })
    }
}

#[via_fn]
proof fn parse_main_dec(s: Seq<char>, i: int) {
    if 0 <= i < s.len() {
        if s[i] == '[' {
            lemma_bracket_next(s, i);
        } else if s[i] == '.' && i + 1 < s.len() && s[i + 1] != '*' && s[i + 1] != '[' && s[i + 1]
            != '.' {
            lemma_key_end_ge(s, i + 1);
        }
    }
}

/// What parsing a whole query yields. The query must start with a dot;
/// `.` alone is the root; a first unbracketed key or `*` may follow the
/// leading dot directly.
pub open spec fn spec_parse(s: Seq<char>) -> Result<Seq<SegV>, QErrV> {
    if s.len() == 0 {
        Err(QErrV::Empty)
    } else if s[0] != '.' {
        Err(QErrV::MustStartWithDot)
    } else if s.len() == 1 {
        Ok(Seq::empty())
    } else if s[1] != '.' && s[1] != '[' {
        if s[1] == '*' {
            match parse_main(s, 2) {
                Ok(rest) => Ok(seq![SegV::Wildcard] + rest),
                Err(e) => Err(e),
            }
        } else {
            let j = key_end(s, 1);
            match parse_main(s, j) {
                Ok(rest) => Ok(seq![SegV::Key(s.subrange(1, j))] + rest),
                Err(e) => Err(e),
            }
        }
    } else {
        parse_main(s, 1)
    }
}

/// Finds the end of an unbracketed key run, from `i`.
fn key_end_exec(v: &Vec<char>, i: usize) -> (r: usize)
    requires
        i <= v@.len(),
    ensures
        r == key_end(v@, i as int),
        i <= r <= v@.len(),
{
    let mut j = i;
    while j < v.len()
        invariant
            i <= j <= v@.len(),
            key_end(v@, i as int) == key_end(v@, j as int),
        decreases v@.len() - j,
    {
        let c = v[j];
        if c == '.' || c == '[' {
            return j;
        }
        j = j + 1;
    }
    j
}

/// Finds the closing quote, from `i`; a backslash skips one character.
fn quote_end_exec(v: &Vec<char>, i: usize) -> (r: usize)
    requires
        i <= v@.len(),
    ensures
        r == quote_end(v@, i as int) || (quote_end(v@, i as int) > v@.len() && r == v.len()),
        i <= r <= v@.len(),
        r < v@.len() ==> quote_end(v@, i as int) == r,
{
    let mut j = i;
    while j < v.len()
        invariant
            i <= j <= v@.len() + 1,
            quote_end(v@, i as int) == quote_end(v@, j as int),
        decreases v@.len() + 2 - j,
    {
        let c = v[j];
        if c == '"' {
            return j;
        }
        if c == '\\' {
            if j + 1 < v.len() {
                j = j + 2;
            } else {
                proof {
                    assert(quote_end(v@, j as int) == quote_end(v@, j + 2));
                }
                return v.len();
            }
        } else {
            j = j + 1;
        }
    }
    proof {
        assert(quote_end(v@, j as int) == j);
    }
    v.len()
}

/// Finds the first `]`, from `i`.
pub fn content_end_exec(v: &Vec<char>, i: usize) -> (r: usize)
    requires
        i <= v@.len(),
    ensures
        r == content_end(v@, i as int),
        i <= r <= v@.len(),
{
    let mut j = i;
    while j < v.len()
        invariant
            i <= j <= v@.len(),
            content_end(v@, i as int) == content_end(v@, j as int),
        decreases v@.len() - j,
    {
        let c = v[j];
        if c == ']' {
            return j;
        }
        j = j + 1;
    }
    j
}

/// Parses one bracket expression; returns the segment and the position
/// after the closing bracket.
fn bracket_exec(v: &Vec<char>, start: usize) -> (r: Result<(PathSegment, usize), QueryError>)
    requires
        start < v@.len(),
        v@.len() <= usize::MAX,
    ensures
        match r {
            Ok((seg, ni)) => spec_bracket(v@, start as int) == Ok::<(SegV, int), QErrV>(
                (seg@, ni as int),
            ) && start < ni <= v@.len(),
            Err(e) => spec_bracket(v@, start as int) == Err::<(SegV, int), QErrV>(e@),
        },
{
    proof {
        lemma_bracket_next(v@, start as int);
    }
    let j = start + 1;
    if j >= v.len() {
        return Err(QueryError::UnclosedBracket { pos: start });
    }
    let c = v[j];
    if c == '*' {
        if j + 1 >= v.len() {
            return Err(QueryError::UnclosedBracket { pos: start });
        }
        if v[j + 1] != ']' {
            return Err(QueryError::UnclosedBracket { pos: start });
        }
        return Ok((PathSegment::Wildcard, j + 2));
    }
    if c == '"' {
        let qe = quote_end_exec(v, j + 1);
        if qe >= v.len() {
            return Err(QueryError::UnclosedQuote { pos: j });
        }
        let key = crate::text::chars_to_string_range(v, j + 1, qe);
        if qe + 1 >= v.len() {
            return Err(QueryError::UnclosedBracket { pos: start });
        }
        if v[qe + 1] != ']' {
            return Err(QueryError::UnclosedBracket { pos: start });
        }
        return Ok((PathSegment::Key(key), qe + 2));
    }
    let u = c as u32;
    if (48 <= u && u <= 57) || c == '-' || c == ':' {
        let ce = content_end_exec(v, j);
        if ce >= v.len() {
            return Err(QueryError::UnclosedBracket { pos: start });
        }
        let ghost content = v@.subrange(j as int, ce as int);
        let cvec = crate::text::subvec(v, j, ce);
        let mut colon: Vec<char> = Vec::new();
        colon.push(':');
        proof {
            assert(colon@ =~= seq![':']);
        }
        match crate::text::find_sub_exec(&cvec, &colon) {
            Some(cp) => {
                let ghost p0 = content.subrange(0, cp as int);
                let ghost p1 = content.subrange(cp + 1, content.len() as int);
                proof {
                    assert(p0 =~= v@.subrange(j as int, j + cp));
                    assert(p1 =~= v@.subrange(j + cp + 1, ce as int));
                }
                let lo: Option<i64>;
                if cp == 0 {
                    lo = None;
                } else {
                    match parse_i64_range(v, j, j + cp) {
                        Some(x) => {
                            lo = Some(x);
                        },
                        None => {
                            return Err(QueryError::InvalidIndex {
                                value: crate::text::chars_to_string_range(v, j, j + cp),
                                pos: j,
                            });
                        },
                    }
                }
                let hi: Option<i64>;
                if j + cp + 1 == ce {
                    hi = None;
                } else {
                    match parse_i64_range(v, j + cp + 1, ce) {
                        Some(x) => {
                            hi = Some(x);
                        },
                        None => {
                            return Err(QueryError::InvalidIndex {
                                value: crate::text::chars_to_string_range(v, j + cp + 1, ce),
                                pos: j,
                            });
                        },
                    }
                }
                return Ok((PathSegment::Slice(lo, hi), ce + 1));
            },
            None => {
                match parse_i64_range(v, j, ce) {
                    Some(x) => {
                        return Ok((PathSegment::Index(x), ce + 1));
                    },
                    None => {
                        return Err(QueryError::InvalidIndex {
                            value: crate::text::chars_to_string_range(v, j, ce),
                            pos: j,
                        });
                    },
                }
            },
        }
    }
    let ce = content_end_exec(v, j);
    if ce >= v.len() {
        return Err(QueryError::UnclosedBracket { pos: start });
    }
    let cstr = crate::text::chars_to_string_range(v, j, ce);
    match parse_predicate(cstr.as_str()) {
        Ok(p) => Ok((PathSegment::Filter(p), ce + 1)),
        Err(_) => Err(QueryError::InvalidPredicate { expr: cstr, pos: j }),
    }
}

/// Parses segments from position `i` on.
fn parse_main_exec(v: &Vec<char>, i: usize) -> (r: Result<Vec<PathSegment>, QueryError>)
    requires
        i <= v@.len(),
    ensures
        match r {
            Ok(segs) => parse_main(v@, i as int) == Ok::<Seq<SegV>, QErrV>(segs_view(segs@)),
            Err(e) => parse_main(v@, i as int) == Err::<Seq<SegV>, QErrV>(e@),
        },
    decreases v@.len() - i,
{
    if i >= v.len() {
        let r: Vec<PathSegment> = Vec::new();
        proof {
            assert(segs_view(r@) =~= Seq::<SegV>::empty());
        }
        return Ok(r);
    }
    let c = v[i];
    if c == '[' {
        match bracket_exec(v, i) {
            Err(e) => Err(e),
            Ok((seg, ni)) => {
                match parse_main_exec(v, ni) {
                    Err(e) => Err(e),
                    Ok(mut rest) => {
                        proof {
                            assert(segs_view(rest@.insert(0, seg)) =~= seq![seg@] + segs_view(
                                rest@,
                            ));
                        }
                        rest.insert(0, seg);
                        Ok(rest)
                    },
                }
            },
        }
    } else if c == '.' {
        if i + 1 >= v.len() {
            let r: Vec<PathSegment> = Vec::new();
            proof {
                assert(segs_view(r@) =~= Seq::<SegV>::empty());
            }
            return Ok(r);
        }
        let c1 = v[i + 1];
        if c1 == '*' {
            match parse_main_exec(v, i + 2) {
                Err(e) => Err(e),
                Ok(mut rest) => {
                    proof {
                        assert(segs_view(rest@.insert(0, PathSegment::Wildcard)) =~= seq![
                            SegV::Wildcard,
                        ] + segs_view(rest@));
                    }
                    rest.insert(0, PathSegment::Wildcard);
                    Ok(rest)
                },
            }
        } else if c1 == '[' {
            parse_main_exec(v, i + 1)
        } else if c1 == '.' {
            parse_main_exec(v, i + 1)
        } else {
            let j = key_end_exec(v, i + 1);
            let key = crate::text::chars_to_string_range(v, i + 1, j);
            proof {
                lemma_key_end_ge(v@, i + 1);
            }
            match parse_main_exec(v, j) {
                Err(e) => Err(e),
                Ok(mut rest) => {
                    let seg = PathSegment::Key(key);
                    proof {
                        assert(segs_view(rest@.insert(0, seg)) =~= seq![seg@] + segs_view(rest@));
                    }
                    rest.insert(0, seg);
                    Ok(rest)
                },
            }
        }
    } else {
        Err(QueryError::UnexpectedChar { ch: c, pos: i })
    }
}

/// Parses a dot-notation query string into path segments.
pub fn parse(input: &str) -> (r: Result<Vec<PathSegment>, QueryError>)
    ensures
        match r {
            Ok(segs) => spec_parse(input@) == Ok::<Seq<SegV>, QErrV>(segs_view(segs@)),
            Err(e) => spec_parse(input@) == Err::<Seq<SegV>, QErrV>(e@),
        },
{
    let v = crate::text::str_chars(input);
    if v.len() == 0 {
        return Err(QueryError::Empty);
    }
    if v[0] != '.' {
        return Err(QueryError::MustStartWithDot);
    }
    if v.len() == 1 {
        let r: Vec<PathSegment> = Vec::new();
        proof {
            assert(segs_view(r@) =~= Seq::<SegV>::empty());
        }
        return Ok(r);
    }
    let c1 = v[1];
    if c1 != '.' && c1 != '[' {
        if c1 == '*' {
            match parse_main_exec(&v, 2) {
                Err(e) => Err(e),
                Ok(mut rest) => {
                    proof {
                        assert(segs_view(rest@.insert(0, PathSegment::Wildcard)) =~= seq![
                            SegV::Wildcard,
                        ] + segs_view(rest@));
                    }
                    rest.insert(0, PathSegment::Wildcard);
                    Ok(rest)
                },
            }
        } else {
            let j = key_end_exec(&v, 1);
            let key = crate::text::chars_to_string_range(&v, 1, j);
            match parse_main_exec(&v, j) {
                Err(e) => Err(e),
                Ok(mut rest) => {
                    let seg = PathSegment::Key(key);
                    proof {
                        assert(segs_view(rest@.insert(0, seg)) =~= seq![seg@] + segs_view(rest@));
                    }
                    rest.insert(0, seg);
                    Ok(rest)
                },
            }
        }
    } else {
        parse_main_exec(&v, 1)
    }
}

// --- the in-progress token ---

/// The position of the last `.` or `[` in `s`, or 0 when there is none.
pub open spec fn last_sep(s: Seq<char>) -> int
    decreases s.len(),
{
    if s.len() == 0 {
        0
    } else if s.last() == '.' || s.last() == '[' {
        s.len() - 1
    } else {
        last_sep(s.drop_last())
    }
}

/// `s` with every trailing `]` removed.
pub open spec fn strip_trailing_brackets(s: Seq<char>) -> Seq<char>
    decreases s.len(),
{
    if s.len() > 0 && s.last() == ']' {
        strip_trailing_brackets(s.drop_last())
    } else {
        s
    }
}

/// The token being typed: what follows the last `.` or `[`, with any
/// trailing `]` stripped; empty for an empty query and for the bare root.
pub open spec fn spec_last_keyword(s: Seq<char>) -> Seq<char> {
    if s.len() == 0 || s == seq!['.'] {
        Seq::empty()
    } else {
        strip_trailing_brackets(s.subrange(last_sep(s) + 1, s.len() as int))
    }
}

proof fn lemma_strip_at(s: Seq<char>, i: int)
    requires
        0 <= i <= s.len(),
        forall|j: int| i <= j < s.len() ==> s[j] == ']',
        i > 0 ==> s[i - 1] != ']',
    ensures
        strip_trailing_brackets(s) == s.subrange(0, i),
    decreases s.len() - i,
{
    if i == s.len() {
        assert(s.subrange(0, s.len() as int) =~= s);
    } else {
        let t = s.subrange(0, s.len() - 1);
        lemma_strip_at(t, i);
        assert(t.subrange(0, i) =~= s.subrange(0, i));
    }
}

/// The "last keyword" being typed: the partial key used for suggestion
/// matching. For `.foo.bar.ba` it is `ba`; for `.foo.bar.` it is empty.
#[verifier::rlimit(50)]
pub fn get_last_keyword(input: &str) -> (r: String)
    ensures
        r@ == spec_last_keyword(input@),
{
    let v = crate::text::str_chars(input);
    if v.len() == 0 {
        return String::new();
    }
    if v.len() == 1 {
        if v[0] == '.' {
            proof {
                assert(input@ =~= seq!['.']);
            }
            return String::new();
        }
    }
    proof {
        if input@ == seq!['.'] {
            assert(input@.len() == 1 && input@[0] == '.');
        }
    }
    let mut ls: usize = 0;
    let mut i: usize = 0;
    while i < v.len()
        invariant
            i <= v@.len(),
            ls == last_sep(v@.subrange(0, i as int)),
            ls < i || ls == 0,
        decreases v@.len() - i,
    {
        let c = v[i];
        proof {
            let cur = v@.subrange(0, i + 1);
            assert(cur.drop_last() =~= v@.subrange(0, i as int));
            assert(cur.last() == v@[i as int]);
        }
        if c == '.' || c == '[' {
            ls = i;
        }
        i = i + 1;
    }
    proof {
        assert(v@.subrange(0, v@.len() as int) =~= v@);
    }
    let ghost tail = v@.subrange(ls + 1, v@.len() as int);
    let mut hi: usize = v.len();
    while hi > ls + 1 && v[hi - 1] == ']'
        invariant
            ls < v@.len(),
            ls + 1 <= hi <= v@.len(),
            forall|j: int| hi <= j < v@.len() ==> v@[j] == ']',
        decreases hi,
    {
        hi = hi - 1;
    }
    proof {
        lemma_strip_at(tail, hi - (ls + 1));
        assert(tail.subrange(0, hi - (ls + 1)) =~= v@.subrange(ls + 1, hi as int));
    }
    crate::text::chars_to_string_range(&v, ls + 1, hi)
}

/// How a full input divides into the path part and the transform chain:
/// at the first ` :`, both sides trimmed; or the input alone.
pub open spec fn spec_split_qt(s: Seq<char>) -> (Seq<char>, Option<Seq<char>>) {
    match find_sub(s, seq![' ', ':']) {
        Some(i) => (trimmed(s.subrange(0, i)), Some(trimmed(s.subrange(i + 1, s.len() as int)))),
        None => (s, None),
    }
}

/// Splits a full query string into the path portion and the optional
/// transform chain: `.users :pick name,age` becomes `.users` and
/// `:pick name,age`.
pub fn split_query_and_transforms(query: &str) -> (r: (&str, Option<&str>))
    ensures
        r.0@ == spec_split_qt(query@).0,
        match r.1 {
            Some(t) => spec_split_qt(query@).1 == Some(t@),
            None => spec_split_qt(query@).1 is None,
        },
{
    let v = crate::text::str_chars(query);
    let mut needle: Vec<char> = Vec::new();
    needle.push(' ');
    needle.push(':');
    proof {
        assert(needle@ =~= seq![' ', ':']);
    }
    match crate::text::find_sub_exec(&v, &needle) {
        Some(i) => {
            let n = v.len();
            proof {
                assert(i + 2 <= v@.len());
            }
            let (plo, phi) = crate::text::trim_bounds(&v, 0, i);
            let (tlo, thi) = crate::text::trim_bounds(&v, i + 1, n);
            let path = query.substring_char(plo, phi);
            let rest = query.substring_char(tlo, thi);
            (path, Some(rest))
        },
        None => (query, None),
    }
}

} // verus!
