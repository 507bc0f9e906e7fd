//! Query history and bookmarks: recent queries deduplicated and capped,
//! bookmarks keyed by label with the newest definition winning.
//! Persistence lives outside the library; the state here is plain data.

use vstd::prelude::*;

use crate::text::find_sub;

verus! {

/// The most queries the history keeps.
pub const MAX_HISTORY: usize = 500;

/// Query history and bookmarks.
#[derive(Debug, Clone)]
pub struct History {
    /// Past queries, most recent last.
    pub queries: Vec<String>,
    /// Named bookmarks: label and query.
    pub bookmarks: Vec<(String, String)>,
}

pub open spec fn views_of(s: Seq<String>) -> Seq<Seq<char>> {
    s.map_values(|x: String| x@)
}

pub open spec fn pair_views(s: Seq<(String, String)>) -> Seq<(Seq<char>, Seq<char>)> {
    s.map_values(|p: (String, String)| (p.0@, p.1@))
}

/// `qs` with every occurrence of `q` removed.
pub open spec fn drop_equal(qs: Seq<Seq<char>>, q: Seq<char>) -> Seq<Seq<char>>
    decreases qs.len(),
{
    if qs.len() == 0 {
        Seq::empty()
    } else {
        let r = drop_equal(qs.drop_last(), q);
        if qs.last() == q {
            r
        } else {
            r.push(qs.last())
        }
    }
}

/// The most recent `MAX_HISTORY` entries.
pub open spec fn capped(qs: Seq<Seq<char>>) -> Seq<Seq<char>> {
    if qs.len() <= MAX_HISTORY {
        qs
    } else {
        qs.subrange(qs.len() - MAX_HISTORY, qs.len() as int)
    }
}

/// The queries matching a pattern, most recent first.
pub open spec fn rev_matching(qs: Seq<Seq<char>>, p: Seq<char>) -> Seq<Seq<char>>
    decreases qs.len(),
{
    if qs.len() == 0 {
        Seq::empty()
    } else {
        let tail = rev_matching(qs.drop_last(), p);
        if find_sub(qs.last(), p) is Some {
            seq![qs.last()] + tail
        } else {
            tail
        }
    }
}

/// `bs` with every bookmark labelled `l` removed.
pub open spec fn drop_label(
    bs: Seq<(Seq<char>, Seq<char>)>,
    l: Seq<char>,
) -> Seq<(Seq<char>, Seq<char>)>
    decreases bs.len(),
{
    if bs.len() == 0 {
        Seq::empty()
    } else {
        let r = drop_label(bs.drop_last(), l);
        if bs.last().0 == l {
            r
        } else {
            r.push(bs.last())
        }
    }
}

impl History {
    /// An empty history.
    pub fn new() -> (h: History)
        ensures
            h.queries@.len() == 0,
            h.bookmarks@.len() == 0,
    {
        History { queries: Vec::new(), bookmarks: Vec::new() }
    }

    /// Adds a query: earlier duplicates are removed, the query goes to
    /// the end, and the oldest entries fall off past the cap.
    pub fn add_query(&mut self, query: &str)
        ensures
            views_of(final(self).queries@) == capped(
                drop_equal(views_of(old(self).queries@), query@).push(query@),
            ),
            final(self).bookmarks == old(self).bookmarks,
    {
        let ghost qv = views_of(self.queries@);
        let mut kept: Vec<String> = Vec::new();
        let mut i: usize = 0;
        while i < self.queries.len()
            invariant
                i <= self.queries@.len(),
                qv == views_of(self.queries@),
                qv.len() == self.queries@.len(),
                forall|n: int|
                    0 <= n < self.queries@.len() ==> qv[n] == (#[trigger] self.queries@[n])@,
                views_of(kept@) == drop_equal(qv.subrange(0, i as int), query@),
            decreases self.queries@.len() - i,
        {
            let ghost pre = qv.subrange(0, i as int);
            let ghost cur = qv.subrange(0, i + 1);
            proof {
                assert(cur.drop_last() =~= pre);
                assert(cur.last() == qv[i as int]);
            }
            if !crate::text::str_eq(self.queries[i].as_str(), query) {
                let ghost old_kept = kept@;
                kept.push(self.queries[i].clone());
                proof {
                    assert(views_of(kept@) =~= views_of(old_kept).push(qv[i as int]));
                }
            }
            i = i + 1;
        }
        proof {
            assert(qv.subrange(0, qv.len() as int) =~= qv);
        }
        let ghost before_push = views_of(kept@);
        kept.push(String::from_str(query));
        proof {
            assert(views_of(kept@) =~= before_push.push(query@));
        }
        if kept.len() > MAX_HISTORY {
            let ghost full = views_of(kept@);
            let cut = kept.len() - MAX_HISTORY;
            let trimmed = crate::text::subvec_strings(&kept, cut, kept.len());
            proof {
                assert(views_of(trimmed@) =~= capped(full));
            }
            self.queries = trimmed;
        } else {
            self.queries = kept;
        }
    }

    /// The queries containing the pattern, most recent first.
    pub fn search(&self, pattern: &str) -> (r: Vec<String>)
        ensures
            views_of(r@) == rev_matching(views_of(self.queries@), pattern@),
    {
        let ghost qv = views_of(self.queries@);
        let pvec = crate::text::str_chars(pattern);
        let mut out: Vec<String> = Vec::new();
        proof {
            assert(qv.subrange(0, qv.len() as int) =~= qv);
            assert(views_of(out@) =~= Seq::<Seq<char>>::empty());
            assert(Seq::<Seq<char>>::empty() + rev_matching(qv, pattern@) =~= rev_matching(
                qv,
                pattern@,
            ));
        }
        let mut i: usize = self.queries.len();
        while i > 0
            invariant
                i <= self.queries@.len(),
                pvec@ == pattern@,
                qv == views_of(self.queries@),
                qv.len() == self.queries@.len(),
                forall|n: int|
                    0 <= n < self.queries@.len() ==> qv[n] == (#[trigger] self.queries@[n])@,
                views_of(out@) + rev_matching(qv.subrange(0, i as int), pattern@) == rev_matching(
                    qv,
                    pattern@,
                ),
            decreases i,
        {
            let ghost cur = qv.subrange(0, i as int);
            let ghost pre = qv.subrange(0, i - 1);
            proof {
                assert(cur.drop_last() =~= pre);
                assert(cur.last() == qv[i - 1]);
            }
            let qvec = crate::text::str_chars(self.queries[i - 1].as_str());
            if crate::text::contains_sub(&qvec, &pvec) {
                let ghost old_out = out@;
                out.push(self.queries[i - 1].clone());
                proof {
                    assert(views_of(out@) =~= views_of(old_out).push(qv[i - 1]));
                    assert(views_of(old_out) + (seq![qv[i - 1]] + rev_matching(pre, pattern@))
                        =~= views_of(out@) + rev_matching(pre, pattern@));
                }
            }
            i = i - 1;
        }
        proof {
            assert(qv.subrange(0, 0) =~= Seq::<Seq<char>>::empty());
            assert(views_of(out@) + Seq::<Seq<char>>::empty() =~= views_of(out@));
        }
        out
    }

    /// Adds a bookmark, replacing any bookmark with the same label.
    pub fn add_bookmark(&mut self, label: &str, query: &str)
        ensures
            pair_views(final(self).bookmarks@) == drop_label(
                pair_views(old(self).bookmarks@),
                label@,
            ).push((label@, query@)),
            final(self).queries == old(self).queries,
    {
        let ghost bv = pair_views(self.bookmarks@);
        let mut kept: Vec<(String, String)> = Vec::new();
        let mut i: usize = 0;
        while i < self.bookmarks.len()
            invariant
                i <= self.bookmarks@.len(),
                bv == pair_views(self.bookmarks@),
                bv.len() == self.bookmarks@.len(),
                forall|n: int|
                    0 <= n < self.bookmarks@.len() ==> bv[n] == ((
                    #[trigger] self.bookmarks@[n]).0@, self.bookmarks@[n].1@),
                pair_views(kept@) == drop_label(bv.subrange(0, i as int), label@),
            decreases self.bookmarks@.len() - i,
        {
            let ghost pre = bv.subrange(0, i as int);
            let ghost cur = bv.subrange(0, i + 1);
            proof {
                assert(cur.drop_last() =~= pre);
                assert(cur.last() == bv[i as int]);
            }
            if !crate::text::str_eq(self.bookmarks[i].0.as_str(), label) {
                let ghost old_kept = kept@;
                kept.push((self.bookmarks[i].0.clone(), self.bookmarks[i].1.clone()));
                proof {
                    assert(pair_views(kept@) =~= pair_views(old_kept).push(bv[i as int]));
                }
            }
            i = i + 1;
        }
        proof {
            assert(bv.subrange(0, bv.len() as int) =~= bv);
        }
        let ghost before_push = pair_views(kept@);
        kept.push((String::from_str(label), String::from_str(query)));
        proof {
            assert(pair_views(kept@) =~= before_push.push((label@, query@)));
        }
        self.bookmarks = kept;
    }

    /// All bookmarks, in insertion order.
    pub fn get_bookmarks(&self) -> (r: &Vec<(String, String)>)
        ensures
            r == &self.bookmarks,
    {
        &self.bookmarks
    }
}

} // verus!
