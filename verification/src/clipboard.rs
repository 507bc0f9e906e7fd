//! The texts that the copy actions place on the clipboard. The clipboard
//! itself belongs to the surrounding program; these functions build the
//! exact text to copy.

use vstd::prelude::*;

verus! {

/// The text copied for a query: the query itself.
pub fn copy_query(query: &str) -> (r: String)
    ensures
        r@ == query@,
{
    String::from_str(query)
}

/// The query as a JavaScript expression: `data` followed by the path,
/// which is already JavaScript-compatible.
pub fn copy_path_js(query: &str) -> (r: String)
    ensures
        r@ == "data"@ + query@,
{
    String::from_str("data").concat(query)
}

/// A pending key flushed as a Python subscript.
pub open spec fn py_key(k: Seq<char>) -> Seq<char> {
    if k.len() == 0 {
        Seq::empty()
    } else {
        seq!['[', '"'] + k + seq!['"', ']']
    }
}

/// The Python form built from position `i` with a pending key and the
/// text so far: dots close the pending key; a bracket is copied through
/// its closing bracket verbatim; other characters extend the key.
pub open spec fn py_from(s: Seq<char>, i: int, cur: Seq<char>, acc: Seq<char>) -> Seq<char>
    decreases s.len() - i,
    via py_from_dec
{
    if i < 0 || i >= s.len() {
        acc + py_key(cur)
    } else if s[i] == '.' {
        py_from(s, i + 1, Seq::empty(), acc + py_key(cur))
    } else if s[i] == '[' {
        let e = crate::query::content_end(s, i + 1);
        if e >= s.len() {
            py_from(s, s.len() as int, Seq::empty(), acc + py_key(cur) + s.subrange(
                i,
                s.len() as int,
            ))
        } else {
            py_from(s, e + 1, Seq::empty(), acc + py_key(cur) + s.subrange(i, e + 1))
        }
    } else {
        py_from(s, i + 1, cur.push(s[i]), acc)
    }
}

#[via_fn]
proof fn py_from_dec(s: Seq<char>, i: int, cur: Seq<char>, acc: Seq<char>) {
    if 0 <= i < s.len() && s[i] == '[' {
        crate::query::lemma_content_end_ge(s, i + 1);
    }
}

/// The query as a Python expression: `data` with each key as a quoted
/// subscript and each bracket expression copied as it stands.
pub open spec fn py_path(q: Seq<char>) -> Seq<char> {
    let s = if q.len() > 0 && q[0] == '.' {
        q.subrange(1, q.len() as int)
    } else {
        q
    };
    py_from(s, 0, Seq::empty(), "data"@)
}

/// The text copied as a Python expression, such as
/// `data["users"][0]["name"]`.
pub fn copy_path_python(query: &str) -> (r: String)
    ensures
        r@ == py_path(query@),
{
    let chars = crate::text::str_chars(query);
    let start: usize = if chars.len() > 0 {
        if chars[0] == '.' {
            1
        } else {
            0
        }
    } else {
        0
    };
    let s = crate::text::subvec(&chars, start, chars.len());
    let ghost sv = if query@.len() > 0 && query@[0] == '.' {
        query@.subrange(1, query@.len() as int)
    } else {
        query@
    };
    proof {
        assert(s@ == sv);
    }
    let mut acc = String::from_str("data");
    let mut cur: Vec<char> = Vec::new();
    let mut i: usize = 0;
    while i < s.len()
        invariant
            i <= s@.len(),
            s@ == sv,
            py_path(query@) == py_from(sv, i as int, cur@, acc@),
        decreases s@.len() - i,
    {
        let c = s[i];
        if c == '.' {
            flush_key(&mut acc, &cur);
            cur = Vec::new();
            proof {
                assert(cur@ =~= Seq::<char>::empty());
            }
            i = i + 1;
        } else if c == '[' {
            flush_key(&mut acc, &cur);
            cur = Vec::new();
            proof {
                assert(cur@ =~= Seq::<char>::empty());
                crate::query::lemma_content_end_ge(s@, i + 1);
            }
            let e = crate::query::content_end_exec(&s, i + 1);
            if e >= s.len() {
                let piece = crate::text::chars_to_string_range(&s, i, s.len());
                acc = acc.concat(piece.as_str());
                i = s.len();
            } else {
                let piece = crate::text::chars_to_string_range(&s, i, e + 1);
                acc = acc.concat(piece.as_str());
                i = e + 1;
            }
        } else {
            cur.push(c);
            i = i + 1;
        }
    }
    flush_key(&mut acc, &cur);
    acc
}

/// Appends a pending key as a quoted subscript.
fn flush_key(acc: &mut String, cur: &Vec<char>)
    ensures
        final(acc)@ == old(acc)@ + py_key(cur@),
{
    if cur.len() == 0 {
        proof {
            assert(old(acc)@ + py_key(cur@) =~= old(acc)@);
        }
        return ;
    }
    crate::text::push_char(acc, '[');
    crate::text::push_char(acc, '"');
    let k = crate::text::chars_to_string(cur);
    acc.append(k.as_str());
    crate::text::push_char(acc, '"');
    crate::text::push_char(acc, ']');
    proof {
        assert(acc@ =~= old(acc)@ + py_key(cur@));
    }
}

} // verus!
