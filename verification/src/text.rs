//! Verified character and string utilities: conversion between `&str` and
//! `Vec<char>`, trimming, searching, splitting, and lexicographic comparison.
//! Strings are modelled as `Seq<char>`; the lexicographic order on code
//! points agrees with the byte order of the UTF-8 encodings.

use vstd::prelude::*;

verus! {

/// Relies on String::push: appends one character to the string.
#[verifier::external_body]
pub fn push_char(s: &mut String, c: char)
    ensures
        final(s)@ == old(s)@.push(c),
{
    s.push(c);
}

/// The characters of `s`, as a vector.
pub fn str_chars(s: &str) -> (r: Vec<char>)
    ensures
        r@ == s@,
{
    let n: usize = s.unicode_len();
    let mut r: Vec<char> = Vec::new();
    let mut i: usize = 0;
    while i < n
        invariant
            n == s@.len(),
            i <= n,
            r@ == s@.subrange(0, i as int),
        decreases n - i,
    {
        r.push(s.get_char(i));
        i = i + 1;
        proof {
            assert(r@ =~= s@.subrange(0, i as int));
        }
    }
    proof {
        assert(r@ =~= s@);
    }
    r
}

/// A string holding exactly the characters of `v`.
pub fn chars_to_string(v: &Vec<char>) -> (r: String)
    ensures
        r@ == v@,
{
    let mut r = String::new();
    let mut i: usize = 0;
    while i < v.len()
        invariant
            i <= v@.len(),
            r@ == v@.subrange(0, i as int),
        decreases v@.len() - i,
    {
        push_char(&mut r, v[i]);
        i = i + 1;
        proof {
            assert(r@ =~= v@.subrange(0, i as int));
        }
    }
    proof {
        assert(r@ =~= v@);
    }
    r
}

/// A string holding the characters `v[from..to]`.
pub fn chars_to_string_range(v: &Vec<char>, from: usize, to: usize) -> (r: String)
    requires
        from <= to <= v@.len(),
    ensures
        r@ == v@.subrange(from as int, to as int),
{
    let mut r = String::new();
    let mut i: usize = from;
    while i < to
        invariant
            from <= i <= to <= v@.len(),
            r@ == v@.subrange(from as int, i as int),
        decreases to - i,
    {
        push_char(&mut r, v[i]);
        i = i + 1;
        proof {
            assert(r@ =~= v@.subrange(from as int, i as int));
        }
    }
    proof {
        assert(r@ =~= v@.subrange(from as int, to as int));
    }
    r
}

/// Copies `v[from..to]` into a fresh vector.
pub fn subvec(v: &Vec<char>, from: usize, to: usize) -> (r: Vec<char>)
    requires
        from <= to <= v@.len(),
    ensures
        r@ == v@.subrange(from as int, to as int),
{
    let mut r: Vec<char> = Vec::new();
    let mut i: usize = from;
    while i < to
        invariant
            from <= i <= to <= v@.len(),
            r@ == v@.subrange(from as int, i as int),
        decreases to - i,
    {
        r.push(v[i]);
        i = i + 1;
        proof {
            assert(r@ =~= v@.subrange(from as int, i as int));
        }
    }
    proof {
        assert(r@ =~= v@.subrange(from as int, to as int));
    }
    r
}

/// Copies `v[from..to]` into a fresh vector of strings.
pub fn subvec_strings(v: &Vec<String>, from: usize, to: usize) -> (r: Vec<String>)
    requires
        from <= to <= v@.len(),
    ensures
        r@.map_values(|x: String| x@) == v@.map_values(|x: String| x@).subrange(
            from as int,
            to as int,
        ),
{
    let mut r: Vec<String> = Vec::new();
    let mut i: usize = from;
    while i < to
        invariant
            from <= i <= to <= v@.len(),
            r@.map_values(|x: String| x@) == v@.map_values(|x: String| x@).subrange(
                from as int,
                i as int,
            ),
        decreases to - i,
    {
        let ghost old_r = r@;
        r.push(v[i].clone());
        i = i + 1;
        proof {
            assert(r@.map_values(|x: String| x@) =~= old_r.map_values(|x: String| x@).push(
                v@[i - 1]@,
            ));
            assert(v@.map_values(|x: String| x@).subrange(from as int, i as int) =~= v@.map_values(
                |x: String| x@,
            ).subrange(from as int, i - 1).push(v@[i - 1]@));
        }
    }
    r
}

/// The whitespace characters that trimming removes.
pub open spec fn is_ws(c: char) -> bool {
    c == ' ' || c == '\t' || c == '\n' || c == '\r'
}

pub fn is_ws_char(c: char) -> (r: bool)
    ensures
        r == is_ws(c),
{
    c == ' ' || c == '\t' || c == '\n' || c == '\r'
}

/// `s` with leading whitespace removed.
pub open spec fn trim_front(s: Seq<char>) -> Seq<char>
    decreases s.len(),
{
    if s.len() > 0 && is_ws(s[0]) {
        trim_front(s.subrange(1, s.len() as int))
    } else {
        s
    }
}

/// `s` with trailing whitespace removed.
pub open spec fn trim_back(s: Seq<char>) -> Seq<char>
    decreases s.len(),
{
    if s.len() > 0 && is_ws(s[s.len() - 1]) {
        trim_back(s.subrange(0, s.len() - 1))
    } else {
        s
    }
}

/// `s` with whitespace removed on both ends.
pub open spec fn trimmed(s: Seq<char>) -> Seq<char> {
    trim_back(trim_front(s))
}

proof fn lemma_trim_front_at(s: Seq<char>, i: int)
    requires
        0 <= i <= s.len(),
        forall|j: int| 0 <= j < i ==> is_ws(s[j]),
        i < s.len() ==> !is_ws(s[i]),
    ensures
        trim_front(s) == s.subrange(i, s.len() as int),
    decreases i,
{
    if i == 0 {
        assert(s.subrange(0, s.len() as int) =~= s);
    } else {
        let t = s.subrange(1, s.len() as int);
        lemma_trim_front_at(t, i - 1);
        assert(t.subrange(i - 1, t.len() as int) =~= s.subrange(i, s.len() as int));
    }
}

proof fn lemma_trim_back_at(s: Seq<char>, i: int)
    requires
        0 <= i <= s.len(),
        forall|j: int| i <= j < s.len() ==> is_ws(s[j]),
        i > 0 ==> !is_ws(s[i - 1]),
    ensures
        trim_back(s) == s.subrange(0, i),
    decreases s.len() - i,
{
    if i == s.len() {
        assert(s.subrange(0, s.len() as int) =~= s);
    } else {
        let t = s.subrange(0, s.len() - 1);
        lemma_trim_back_at(t, i);
        assert(t.subrange(0, i) =~= s.subrange(0, i));
    }
}

/// The bounds of the trimmed middle of `v`: trimming equals taking
/// `v[from..to]`.
pub fn trim_bounds(v: &Vec<char>, start: usize, end: usize) -> (r: (usize, usize))
    requires
        start <= end <= v@.len(),
    ensures
        start <= r.0 <= r.1 <= end,
        trimmed(v@.subrange(start as int, end as int)) == v@.subrange(r.0 as int, r.1 as int),
{
    let ghost s = v@.subrange(start as int, end as int);
    let mut lo: usize = start;
    while lo < end && is_ws_char(v[lo])
        invariant
            start <= lo <= end <= v@.len(),
            forall|j: int| start <= j < lo ==> is_ws(v@[j]),
        decreases end - lo,
    {
        lo = lo + 1;
    }
    let mut hi: usize = end;
    while hi > lo && is_ws_char(v[hi - 1])
        invariant
            lo <= hi <= end <= v@.len(),
            forall|j: int| hi <= j < end ==> is_ws(v@[j]),
        decreases hi,
    {
        hi = hi - 1;
    }
    proof {
        lemma_trim_front_at(s, lo - start);
        let t = s.subrange(lo - start, s.len() as int);
        assert(t =~= v@.subrange(lo as int, end as int));
        lemma_trim_back_at(t, hi - lo);
        assert(t.subrange(0, hi - lo) =~= v@.subrange(lo as int, hi as int));
    }
    (lo, hi)
}

/// Whether `n` occurs in `h` at position `i`.
pub open spec fn match_at(h: Seq<char>, n: Seq<char>, i: int) -> bool {
    0 <= i && i + n.len() <= h.len() && h.subrange(i, i + n.len()) == n
}

/// The first position at or after `i` where `n` occurs in `h`.
pub open spec fn find_from(h: Seq<char>, n: Seq<char>, i: int) -> Option<int>
    decreases h.len() - i,
{
    if i < 0 || i + n.len() > h.len() {
        None
    } else if n.len() == 0 {
        Some(i)
    } else if match_at(h, n, i) {
        Some(i)
    } else {
        find_from(h, n, i + 1)
    }
}

/// The first occurrence of `n` in `h`.
pub open spec fn find_sub(h: Seq<char>, n: Seq<char>) -> Option<int> {
    find_from(h, n, 0)
}

/// A found position lies at or after the start, with the needle fitting
/// before the end.
pub proof fn lemma_find_from_bounds(h: Seq<char>, n: Seq<char>, i: int)
    ensures
        match find_from(h, n, i) {
            Some(j) => i <= j && 0 <= j && j + n.len() <= h.len(),
            None => true,
        },
    decreases h.len() - i,
{
    if !(i < 0 || i + n.len() > h.len()) && n.len() != 0 && !match_at(h, n, i) {
        lemma_find_from_bounds(h, n, i + 1);
    }
}

pub fn match_at_exec(h: &Vec<char>, n: &Vec<char>, i: usize) -> (r: bool)
    ensures
        r == match_at(h@, n@, i as int),
{
    let hl = h.len();
    if i > hl || n.len() > hl - i {
        return false;
    }
    let mut k: usize = 0;
    while k < n.len()
        invariant
            hl == h@.len(),
            i + n@.len() <= hl,
            k <= n@.len(),
            forall|j: int| 0 <= j < k ==> h@[i + j] == n@[j],
        decreases n@.len() - k,
    {
        if h[i + k] != n[k] {
            proof {
                assert(h@.subrange(i as int, i + n@.len())[k as int] != n@[k as int]);
            }
            return false;
        }
        k = k + 1;
    }
    proof {
        assert(h@.subrange(i as int, i + n@.len()) =~= n@);
    }
    true
}

/// The first occurrence of `n` in `h`, searching forward from 0.
pub fn find_sub_exec(h: &Vec<char>, n: &Vec<char>) -> (r: Option<usize>)
    ensures
        match r {
            Some(i) => find_sub(h@, n@) == Some(i as int) && i + n@.len() <= h@.len() && match_at(
                h@,
                n@,
                i as int,
            ),
            None => find_sub(h@, n@) is None,
        },
{
    if n.len() > h.len() {
        return None;
    }
    if n.len() == 0 {
        proof {
            assert(h@.subrange(0, 0) =~= n@);
        }
        return Some(0);
    }
    let last = h.len() - n.len();
    let mut i: usize = 0;
    loop
        invariant
            n@.len() > 0,
            h@.len() <= usize::MAX,
            i + n@.len() <= h@.len() + 1,
            last == h@.len() - n@.len(),
            find_from(h@, n@, 0) == find_from(h@, n@, i as int),
        decreases h@.len() - i,
    {
        if i > last {
            return None;
        }
        if match_at_exec(h, n, i) {
            return Some(i);
        }
        i = i + 1;
    }
}

/// Whether `n` occurs anywhere in `h`.
pub fn contains_sub(h: &Vec<char>, n: &Vec<char>) -> (r: bool)
    ensures
        r == (find_sub(h@, n@) is Some),
{
    find_sub_exec(h, n).is_some()
}

/// Three-way lexicographic comparison of code-point sequences:
/// negative when `a` sorts before `b`, zero when equal, positive after.
pub open spec fn lex_cmp(a: Seq<char>, b: Seq<char>) -> int
    decreases a.len(),
{
    if a.len() == 0 && b.len() == 0 {
        0
    } else if a.len() == 0 {
        -1
    } else if b.len() == 0 {
        1
    } else if a[0] != b[0] {
        if (a[0] as u32) < (b[0] as u32) {
            -1
        } else {
            1
        }
    } else {
        lex_cmp(a.subrange(1, a.len() as int), b.subrange(1, b.len() as int))
    }
}

proof fn lemma_lex_cmp_skip(a: Seq<char>, b: Seq<char>, i: int)
    requires
        0 <= i <= a.len(),
        i <= b.len(),
        forall|j: int| 0 <= j < i ==> a[j] == b[j],
    ensures
        lex_cmp(a, b) == lex_cmp(a.subrange(i, a.len() as int), b.subrange(i, b.len() as int)),
    decreases i,
{
    if i == 0 {
        assert(a.subrange(0, a.len() as int) =~= a);
        assert(b.subrange(0, b.len() as int) =~= b);
    } else {
        let a1 = a.subrange(1, a.len() as int);
        let b1 = b.subrange(1, b.len() as int);
        lemma_lex_cmp_skip(a1, b1, i - 1);
        assert(a1.subrange(i - 1, a1.len() as int) =~= a.subrange(i, a.len() as int));
        assert(b1.subrange(i - 1, b1.len() as int) =~= b.subrange(i, b.len() as int));
    }
}

/// Compares two character vectors lexicographically.
pub fn lex_cmp_exec(a: &Vec<char>, b: &Vec<char>) -> (r: i8)
    ensures
        r == lex_cmp(a@, b@),
        -1 <= r <= 1,
{
    let mut i: usize = 0;
    loop
        invariant
            i <= a@.len(),
            i <= b@.len(),
            forall|j: int| 0 <= j < i ==> a@[j] == b@[j],
        decreases a@.len() - i,
    {
        proof {
            lemma_lex_cmp_skip(a@, b@, i as int);
        }
        if i >= a.len() && i >= b.len() {
            return 0;
        } else if i >= a.len() {
            return -1;
        } else if i >= b.len() {
            return 1;
        } else {
            let ca = a[i];
            let cb = b[i];
            if ca != cb {
                if (ca as u32) < (cb as u32) {
                    return -1;
                } else {
                    return 1;
                }
            }
        }
        i = i + 1;
    }
}

pub proof fn lemma_lex_cmp_eq(a: Seq<char>, b: Seq<char>)
    ensures
        (lex_cmp(a, b) == 0) <==> (a == b),
    decreases a.len(),
{
    if a.len() == 0 && b.len() == 0 {
        assert(a =~= b);
    } else if a.len() > 0 && b.len() > 0 && a[0] == b[0] {
        let a1 = a.subrange(1, a.len() as int);
        let b1 = b.subrange(1, b.len() as int);
        lemma_lex_cmp_eq(a1, b1);
        if a1 == b1 {
            assert forall|j: int| 0 <= j < a.len() implies a[j] == b[j] by {
                if j > 0 {
                    assert(a1[j - 1] == b1[j - 1]);
                }
            }
            assert(a =~= b);
        }
        if a == b {
            assert(a1 =~= b1);
        }
    } else {
        assert(a != b);
    }
}

/// The strict lexicographic order is transitive.
pub proof fn lemma_lex_cmp_trans(a: Seq<char>, b: Seq<char>, c: Seq<char>)
    requires
        lex_cmp(a, b) < 0,
        lex_cmp(b, c) < 0,
    ensures
        lex_cmp(a, c) < 0,
    decreases a.len(),
{
    if a.len() == 0 {
        assert(b.len() > 0);
        assert(c.len() > 0);
    } else {
        assert(b.len() > 0);
        assert(c.len() > 0);
        if a[0] == b[0] && b[0] == c[0] {
            lemma_lex_cmp_trans(
                a.subrange(1, a.len() as int),
                b.subrange(1, b.len() as int),
                c.subrange(1, c.len() as int),
            );
        }
    }
}

/// Swapping the sides flips the comparison.
pub proof fn lemma_lex_cmp_antisym(a: Seq<char>, b: Seq<char>)
    ensures
        lex_cmp(a, b) == -lex_cmp(b, a),
    decreases a.len(),
{
    if a.len() > 0 && b.len() > 0 {
        if a[0] == b[0] {
            lemma_lex_cmp_antisym(a.subrange(1, a.len() as int), b.subrange(1, b.len() as int));
        } else if (a[0] as u32) == (b[0] as u32) {
            vstd::utf8::char_u32_cast(a[0], a[0] as u32);
            vstd::utf8::char_u32_cast(b[0], b[0] as u32);
            assert(false);
        }
    }
}

/// Compares two strings lexicographically by code point, which matches the
/// byte order of their UTF-8 forms.
pub fn str_cmp(a: &str, b: &str) -> (r: i8)
    ensures
        r == lex_cmp(a@, b@),
        -1 <= r <= 1,
{
    let va = str_chars(a);
    let vb = str_chars(b);
    lex_cmp_exec(&va, &vb)
}

/// Whether two strings hold the same characters.
pub fn str_eq(a: &str, b: &str) -> (r: bool)
    ensures
        r == (a@ == b@),
{
    let c = str_cmp(a, b);
    proof {
        lemma_lex_cmp_eq(a@, b@);
    }
    c == 0
}

/// Whether `p` is a prefix of `s`.
pub fn starts_with_chars(s: &Vec<char>, p: &Vec<char>) -> (r: bool)
    ensures
        r == p@.is_prefix_of(s@),
{
    let r = match_at_exec(s, p, 0);
    proof {
        if p@.is_prefix_of(s@) {
            assert(s@.subrange(0, p@.len() as int) =~= p@);
        }
        if match_at(s@, p@, 0) {
            assert(p@.is_prefix_of(s@));
        }
    }
    r
}


/// The pieces of `s` split on `c`, in order; one piece when `c` does
/// not occur.
pub open spec fn split_on(s: Seq<char>, c: char) -> Seq<Seq<char>>
    decreases s.len(),
    via split_on_dec
{
    match find_sub(s, seq![c]) {
        Some(i) => seq![s.subrange(0, i)] + split_on(s.subrange(i + 1, s.len() as int), c),
        None => seq![s],
    }
}

#[via_fn]
proof fn split_on_dec(s: Seq<char>, c: char) {
    lemma_find_from_bounds(s, seq![c], 0);
}

/// One trailing carriage return removed, as a line keeps none when its
/// ending was a carriage return and a newline.
pub open spec fn strip_cr(s: Seq<char>) -> Seq<char> {
    if s.len() > 0 && s.last() == '\r' {
        s.drop_last()
    } else {
        s
    }
}

/// The lines of `s`: split on newlines, a final line ending optional,
/// each line's trailing carriage return removed; no lines at all for an
/// empty text.
pub open spec fn lines_of(s: Seq<char>) -> Seq<Seq<char>> {
    if s.len() == 0 {
        Seq::empty()
    } else {
        let t = if s.last() == '\n' {
            s.drop_last()
        } else {
            s
        };
        split_on(t, '\n').map_values(|p: Seq<char>| strip_cr(p))
    }
}

/// Splits the characters of `v` into lines.
pub fn lines_exec(v: &Vec<char>) -> (r: Vec<String>)
    ensures
        r@.map_values(|x: String| x@) == lines_of(v@),
{
    if v.len() == 0 {
        let out: Vec<String> = Vec::new();
        proof {
            assert(out@.map_values(|x: String| x@) =~= lines_of(v@));
        }
        return out;
    }
    let end: usize = if v[v.len() - 1] == '\n' {
        v.len() - 1
    } else {
        v.len()
    };
    let t = subvec(v, 0, end);
    let ghost tv = if v@.last() == '\n' {
        v@.drop_last()
    } else {
        v@
    };
    proof {
        assert(t@ == tv);
    }
    let mut out2: Vec<String> = Vec::new();
    let mut from: usize = 0;
    let ghost pieces = split_on(tv, '\n');
    proof {
        assert(tv.subrange(0, tv.len() as int) =~= tv);
        assert(out2@.map_values(|x: String| x@) =~= Seq::<Seq<char>>::empty());
        assert(Seq::<Seq<char>>::empty() + pieces.map_values(|p: Seq<char>| strip_cr(p))
            =~= pieces.map_values(|p: Seq<char>| strip_cr(p)));
    }
    let mut done = false;
    while !done
        invariant
            from <= t@.len(),
            t@ == tv,
            !done ==> out2@.map_values(|x: String| x@) + split_on(
                tv.subrange(from as int, tv.len() as int),
                '\n',
            ).map_values(|p: Seq<char>| strip_cr(p)) == pieces.map_values(
                |p: Seq<char>| strip_cr(p),
            ),
            done ==> out2@.map_values(|x: String| x@) == pieces.map_values(
                |p: Seq<char>| strip_cr(p),
            ),
        decreases t@.len() + 1 - from + (if done { 0int } else { 1int }),
    {
        let ghost rest = tv.subrange(from as int, tv.len() as int);
        let mut nl: Vec<char> = Vec::new();
        nl.push('\n');
        proof {
            assert(nl@ =~= seq!['\n']);
        }
        let sub = subvec(&t, from, t.len());
        proof {
            assert(sub@ == rest);
        }
        match find_sub_exec(&sub, &nl) {
            Some(i) => {
                let pend: usize = if i > 0 && t[from + i - 1] == '\r' {
                    from + i - 1
                } else {
                    from + i
                };
                let piece = chars_to_string_range(&t, from, pend);
                let ghost old_out = out2@;
                out2.push(piece);
                proof {
                    let p0 = rest.subrange(0, i as int);
                    assert(strip_cr(p0) =~= tv.subrange(from as int, pend as int));
                    assert(rest.subrange(i + 1, rest.len() as int) =~= tv.subrange(
                        from + i + 1,
                        tv.len() as int,
                    ));
                    assert(out2@.map_values(|x: String| x@) =~= old_out.map_values(
                        |x: String| x@,
                    ).push(strip_cr(p0)));
                    assert((seq![p0] + split_on(
                        tv.subrange(from + i + 1, tv.len() as int),
                        '\n',
                    )).map_values(|p: Seq<char>| strip_cr(p)) =~= seq![strip_cr(p0)]
                        + split_on(tv.subrange(from + i + 1, tv.len() as int), '\n').map_values(
                        |p: Seq<char>| strip_cr(p),
                    ));
                    assert(old_out.map_values(|x: String| x@) + (seq![strip_cr(p0)] + split_on(
                        tv.subrange(from + i + 1, tv.len() as int),
                        '\n',
                    ).map_values(|p: Seq<char>| strip_cr(p))) =~= (old_out.map_values(
                        |x: String| x@,
                    ).push(strip_cr(p0))) + split_on(
                        tv.subrange(from + i + 1, tv.len() as int),
                        '\n',
                    ).map_values(|p: Seq<char>| strip_cr(p)));
                }
                from = from + i + 1;
            },
            None => {
                let tl = t.len();
                let pend: usize = if tl > from && t[tl - 1] == '\r' {
                    tl - 1
                } else {
                    tl
                };
                let piece = chars_to_string_range(&t, from, pend);
                let ghost old_out = out2@;
                out2.push(piece);
                proof {
                    assert(strip_cr(rest) =~= tv.subrange(from as int, pend as int));
                    assert(out2@.map_values(|x: String| x@) =~= old_out.map_values(
                        |x: String| x@,
                    ).push(strip_cr(rest)));
                    assert((seq![rest]).map_values(|p: Seq<char>| strip_cr(p)) =~= seq![
                        strip_cr(rest),
                    ]);
                    assert(old_out.map_values(|x: String| x@) + seq![strip_cr(rest)] =~= (
                    old_out.map_values(|x: String| x@)).push(strip_cr(rest)));
                }
                done = true;
            },
        }
    }
    proof {
        assert(lines_of(v@) == pieces.map_values(|p: Seq<char>| strip_cr(p)));
    }
    out2
}
} // verus!
