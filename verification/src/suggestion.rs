//! Autocomplete suggestions: fuzzy-ranked candidates over the keys
//! available at the current value, and a best-completion choice that
//! prefers exact prefix matches, then the longest common prefix of
//! several matches, then the best fuzzy match.

use fuzzy_matcher::FuzzyMatcher;
use vstd::prelude::*;

verus! {

/// What the fuzzy matcher returns for a key and a pattern: a score and
/// the matched positions, or nothing; a function of the two texts alone.
pub uninterp spec fn fuzzy_match_of(key: Seq<char>, pattern: Seq<char>) -> Option<
    (i64, Seq<usize>),
>;

/// Relies on fuzzy_matcher's SkimMatcherV2 (default configuration):
/// scores `pattern` against `key` and reports the matched positions.
#[verifier::external_body]
fn fuzzy_indices(key: &str, pattern: &str) -> (r: Option<(i64, Vec<usize>)>)
    ensures
        match r {
            Some(p) => fuzzy_match_of(key@, pattern@) == Some((p.0, p.1@)),
            None => fuzzy_match_of(key@, pattern@) is None,
        },
{
    fuzzy_matcher::skim::SkimMatcherV2::default().fuzzy_indices(key, pattern)
}

/// A single autocomplete candidate with score and match positions.
#[derive(Debug)]
pub struct Candidate {
    /// The full text of the candidate.
    pub text: String,
    /// Match score; higher is better, 0 means no match was attempted.
    pub score: i64,
    /// Positions in `text` where the match occurs.
    pub match_indices: Vec<usize>,
}

/// The ghost shape of a candidate.
pub struct CandV {
    pub text: Seq<char>,
    pub score: i64,
    pub match_indices: Seq<usize>,
}

impl View for Candidate {
    type V = CandV;

    open spec fn view(&self) -> CandV {
        CandV { text: self.text@, score: self.score, match_indices: self.match_indices@ }
    }
}

impl Clone for Candidate {
    fn clone(&self) -> (r: Candidate)
        ensures
            r@ == self@,
    {
        let mut idx: Vec<usize> = Vec::new();
        let mut i: usize = 0;
        while i < self.match_indices.len()
            invariant
                i <= self.match_indices@.len(),
                idx@ == self.match_indices@.subrange(0, i as int),
            decreases self.match_indices@.len() - i,
        {
            idx.push(self.match_indices[i]);
            i = i + 1;
            proof {
                assert(idx@ =~= self.match_indices@.subrange(0, i as int));
            }
        }
        proof {
            assert(idx@ =~= self.match_indices@);
        }
        Candidate { text: self.text.clone(), score: self.score, match_indices: idx }
    }
}

pub open spec fn cands_view(s: Seq<Candidate>) -> Seq<CandV> {
    s.map_values(|c: Candidate| c@)
}

/// The candidates before ranking: with an empty input, every key with
/// score zero; otherwise each key the matcher accepts, in key order.
pub open spec fn cand_list(keys: Seq<String>, input: Seq<char>) -> Seq<CandV>
    decreases keys.len(),
{
    if input.len() == 0 {
        keys.map_values(|k: String| CandV { text: k@, score: 0, match_indices: Seq::empty() })
    } else if keys.len() == 0 {
        Seq::empty()
    } else {
        let r = cand_list(keys.drop_last(), input);
        match fuzzy_match_of(keys.last()@, input) {
            Some(p) => r.push(
                CandV { text: keys.last()@, score: p.0, match_indices: p.1 },
            ),
            None => r,
        }
    }
}

/// Inserts a candidate after every candidate whose score is at least
/// its own: a stable descending order by score.
pub open spec fn insert_cand(s: Seq<CandV>, c: CandV) -> Seq<CandV>
    decreases s.len(),
{
    if s.len() == 0 {
        seq![c]
    } else if c.score > s.last().score {
        insert_cand(s.drop_last(), c).push(s.last())
    } else {
        s.push(c)
    }
}

/// The stable sort of candidates by score, best first.
pub open spec fn sort_cands(s: Seq<CandV>) -> Seq<CandV>
    decreases s.len(),
{
    if s.len() == 0 {
        Seq::empty()
    } else {
        insert_cand(sort_cands(s.drop_last()), s.last())
    }
}

proof fn lemma_insert_cand_at(s: Seq<CandV>, c: CandV, m: int)
    requires
        0 <= m <= s.len(),
        forall|j: int| m <= j < s.len() ==> c.score > (#[trigger] s[j]).score,
        m > 0 ==> !(c.score > s[m - 1].score),
    ensures
        insert_cand(s, c) == s.insert(m, c),
    decreases s.len(),
{
    if s.len() == 0 {
        assert(seq![c] =~= s.insert(0, c));
    } else if m == s.len() as int {
        assert(s.push(c) =~= s.insert(m, c));
    } else {
        lemma_insert_cand_at(s.drop_last(), c, m);
        assert(s.drop_last().insert(m, c).push(s.last()) =~= s.insert(m, c));
    }
}

/// The longest common prefix of two texts.
pub open spec fn lcp2(a: Seq<char>, b: Seq<char>) -> Seq<char>
    decreases a.len(),
{
    if a.len() > 0 && b.len() > 0 && a[0] == b[0] {
        seq![a[0]] + lcp2(a.subrange(1, a.len() as int), b.subrange(1, b.len() as int))
    } else {
        Seq::empty()
    }
}

/// The longest common prefix of a list of texts; empty for an empty
/// list.
pub open spec fn lcp_list(s: Seq<Seq<char>>) -> Seq<char>
    decreases s.len(),
{
    if s.len() == 0 {
        Seq::empty()
    } else if s.len() == 1 {
        s[0]
    } else {
        lcp2(lcp_list(s.drop_last()), s.last())
    }
}

proof fn lemma_lcp2_at(a: Seq<char>, b: Seq<char>, m: int)
    requires
        0 <= m <= a.len(),
        m <= b.len(),
        forall|j: int| 0 <= j < m ==> a[j] == b[j],
        m < a.len() && m < b.len() ==> a[m] != b[m],
    ensures
        lcp2(a, b) == a.subrange(0, m),
    decreases m,
{
    if m == 0 {
        if a.len() > 0 && b.len() > 0 && a[0] == b[0] {
            assert(a[0] == b[0]);
        }
        assert(lcp2(a, b) =~= a.subrange(0, 0));
    } else {
        let a1 = a.subrange(1, a.len() as int);
        let b1 = b.subrange(1, b.len() as int);
        lemma_lcp2_at(a1, b1, m - 1);
        assert(seq![a[0]] + a1.subrange(0, m - 1) =~= a.subrange(0, m));
    }
}

/// The longest common prefix of two strings.
fn lcp2_exec<'a>(a: &'a str, b: &str) -> (r: usize)
    ensures
        lcp2(a@, b@) == a@.subrange(0, r as int),
        r <= a@.len(),
{
    let an = a.unicode_len();
    let bn = b.unicode_len();
    let n = if an < bn {
        an
    } else {
        bn
    };
    let mut i: usize = 0;
    while i < n
        invariant
            i <= n,
            n == if a@.len() < b@.len() {
                a@.len()
            } else {
                b@.len()
            },
            forall|j: int| 0 <= j < i ==> a@[j] == b@[j],
        decreases n - i,
    {
        if a.get_char(i) != b.get_char(i) {
            proof {
                lemma_lcp2_at(a@, b@, i as int);
            }
            return i;
        }
        i = i + 1;
    }
    proof {
        lemma_lcp2_at(a@, b@, n as int);
    }
    n
}

/// The views of a list of borrowed strings.
pub open spec fn refs_view(s: Seq<&String>) -> Seq<Seq<char>> {
    s.map_values(|x: &String| x@)
}

/// Finds the longest common prefix among a set of strings.
pub fn longest_common_prefix(strings: &[&String]) -> (r: String)
    ensures
        r@ == lcp_list(refs_view(strings@)),
{
    let ghost sv = refs_view(strings@);
    if strings.len() == 0 {
        return String::new();
    }
    let mut acc: String = strings[0].clone();
    let mut i: usize = 1;
    while i < strings.len()
        invariant
            1 <= i <= strings@.len(),
            sv == refs_view(strings@),
            sv.len() == strings@.len(),
            forall|n: int| 0 <= n < strings@.len() ==> sv[n] == (#[trigger] strings@[n])@,
            acc@ == lcp_list(sv.subrange(0, i as int)),
        decreases strings@.len() - i,
    {
        let ghost pre = sv.subrange(0, i as int);
        let ghost cur = sv.subrange(0, i + 1);
        proof {
            assert(cur.drop_last() =~= pre);
            assert(cur.last() == sv[i as int]);
            assert(sv.subrange(0, 1).len() == 1);
            assert(sv.subrange(0, 1)[0] == sv[0]);
        }
        let k = lcp2_exec(acc.as_str(), strings[i].as_str());
        let chars = crate::text::str_chars(acc.as_str());
        acc = crate::text::chars_to_string_range(&chars, 0, k);
        i = i + 1;
    }
    proof {
        assert(sv.subrange(0, sv.len() as int) =~= sv);
    }
    acc
}

/// Suggestion engine using fuzzy matching.
pub struct Suggester {}

impl Suggester {
    pub fn new() -> Suggester {
        Suggester {  }
    }

    /// Ranked candidates from the available keys matching the input:
    /// everything with an empty input, otherwise the matcher's
    /// acceptances sorted by score, best first.
    pub fn get_candidates(&self, keys: &[String], input: &str) -> (r: Vec<Candidate>)
        ensures
            cands_view(r@) == sort_cands(cand_list(keys@, input@)),
    {
        let ghost cl = cand_list(keys@, input@);
        let mut raw: Vec<Candidate> = Vec::new();
        if input.unicode_len() == 0 {
            let mut i: usize = 0;
            while i < keys.len()
                invariant
                    input@.len() == 0,
                    i <= keys@.len(),
                    raw@.len() == i,
                    forall|n: int|
                        0 <= n < i ==> (#[trigger] raw@[n])@ == (CandV {
                            text: keys@[n]@,
                            score: 0,
                            match_indices: Seq::empty(),
                        }),
                decreases keys@.len() - i,
            {
                raw.push(
                    Candidate { text: keys[i].clone(), score: 0, match_indices: Vec::new() },
                );
                i = i + 1;
            }
            proof {
                assert(cands_view(raw@) =~= cand_list(keys@, input@));
            }
        } else {
            let mut i: usize = 0;
            while i < keys.len()
                invariant
                    input@.len() > 0,
                    i <= keys@.len(),
                    cands_view(raw@) == cand_list(keys@.subrange(0, i as int), input@),
                decreases keys@.len() - i,
            {
                let ghost pre = keys@.subrange(0, i as int);
                let ghost cur = keys@.subrange(0, i + 1);
                proof {
                    assert(cur.drop_last() =~= pre);
                    assert(cur.last() == keys@[i as int]);
                }
                match fuzzy_indices(keys[i].as_str(), input) {
                    Some(p) => {
                        let ghost old_raw = raw@;
                        raw.push(
                            Candidate {
                                text: keys[i].clone(),
                                score: p.0,
                                match_indices: p.1,
                            },
                        );
                        proof {
                            assert(cands_view(raw@) =~= cands_view(old_raw).push(
                                CandV {
                                    text: keys@[i as int]@,
                                    score: p.0,
                                    match_indices: p.1@,
                                },
                            ));
                        }
                    },
                    None => {},
                }
                i = i + 1;
            }
            proof {
                assert(keys@.subrange(0, keys@.len() as int) =~= keys@);
            }
        }
        let mut out: Vec<Candidate> = Vec::new();
        let mut i: usize = 0;
        while i < raw.len()
            invariant
                i <= raw@.len(),
                cands_view(raw@) == cl,
                cl.len() == raw@.len(),
                forall|n: int| 0 <= n < raw@.len() ==> cl[n] == (#[trigger] raw@[n])@,
                cands_view(out@) == sort_cands(cl.subrange(0, i as int)),
            decreases raw@.len() - i,
        {
            let ghost pre = cl.subrange(0, i as int);
            let ghost cur = cl.subrange(0, i + 1);
            proof {
                assert(cur.drop_last() =~= pre);
                assert(cur.last() == cl[i as int]);
            }
            let x = raw[i].clone();
            proof {
                assert(x@ == cl[i as int]);
            }
            let mut m: usize = out.len();
            while m > 0 && x.score > out[m - 1].score
                invariant
                    m <= out@.len(),
                    x@ == cl[i as int],
                    cands_view(out@).len() == out@.len(),
                    forall|n: int|
                        0 <= n < out@.len() ==> cands_view(out@)[n] == (#[trigger] out@[n])@,
                    forall|j: int|
                        m <= j < out@.len() ==> x@.score > (#[trigger] cands_view(out@)[j]).score,
                decreases m,
            {
                m = m - 1;
            }
            proof {
                lemma_insert_cand_at(cands_view(out@), x@, m as int);
            }
            let ghost old_out = out@;
            out.insert(m, x);
            proof {
                assert(cands_view(out@) =~= cands_view(old_out).insert(m as int, cl[i as int]));
            }
            i = i + 1;
        }
        proof {
            assert(cl.subrange(0, cl.len() as int) =~= cl);
        }
        out
    }
}

/// The keys that start with the typed input, in key order.
pub open spec fn prefix_matches(keys: Seq<String>, input: Seq<char>) -> Seq<Seq<char>>
    decreases keys.len(),
{
    if keys.len() == 0 {
        Seq::empty()
    } else {
        let r = prefix_matches(keys.drop_last(), input);
        if input.is_prefix_of(keys.last()@) {
            r.push(keys.last()@)
        } else {
            r
        }
    }
}

proof fn lemma_prefix_matches_prefix(keys: Seq<String>, input: Seq<char>)
    ensures
        forall|n: int|
            0 <= n < prefix_matches(keys, input).len() ==> input.is_prefix_of(
                #[trigger] prefix_matches(keys, input)[n],
            ),
    decreases keys.len(),
{
    if keys.len() > 0 {
        lemma_prefix_matches_prefix(keys.drop_last(), input);
        let r = prefix_matches(keys.drop_last(), input);
        if input.is_prefix_of(keys.last()@) {
            let full = r.push(keys.last()@);
            assert forall|n: int| 0 <= n < full.len() implies input.is_prefix_of(
                full[n],
            ) by {
                if n < r.len() {
                    assert(full[n] == r[n]);
                } else {
                    assert(full[n] == keys.last()@);
                }
            }
        }
    }
}

/// The best completion: the one exact prefix match, else the longest
/// common prefix of several when it extends the input, else the best
/// fuzzy match when it starts with the input. The pair is the text to
/// append and the full suggestion.
pub open spec fn spec_completion(keys: Seq<String>, input: Seq<char>) -> Option<
    (Seq<char>, Seq<char>),
> {
    if input.len() == 0 {
        None
    } else {
        let pm = prefix_matches(keys, input);
        if pm.len() == 1 {
            Some((pm[0].subrange(input.len() as int, pm[0].len() as int), pm[0]))
        } else if pm.len() > 1 && lcp_list(pm).len() > input.len() {
            let l = lcp_list(pm);
            Some((l.subrange(input.len() as int, l.len() as int), l))
        } else {
            let cs = sort_cands(cand_list(keys, input));
            if cs.len() > 0 && input.is_prefix_of(cs[0].text) {
                Some(
                    (cs[0].text.subrange(input.len() as int, cs[0].text.len() as int), cs[0].text),
                )
            } else {
                None
            }
        }
    }
}

impl Suggester {
    /// The best completion for the typed input, as the text to append
    /// and the full suggested key.
    pub fn get_completion(&self, keys: &[String], input: &str) -> (r: Option<(String, String)>)
        ensures
            match r {
                Some(p) => spec_completion(keys@, input@) == Some((p.0@, p.1@)),
                None => spec_completion(keys@, input@) is None,
            },
    {
        let ilen = input.unicode_len();
        if ilen == 0 {
            return None;
        }
        let ivec = crate::text::str_chars(input);
        let ghost pmv = prefix_matches(keys@, input@);
        let mut pm: Vec<String> = Vec::new();
        let mut i: usize = 0;
        while i < keys.len()
            invariant
                i <= keys@.len(),
                ivec@ == input@,
                pieces_of(pm@) == prefix_matches(keys@.subrange(0, i as int), input@),
            decreases keys@.len() - i,
        {
            let ghost pre = keys@.subrange(0, i as int);
            let ghost cur = keys@.subrange(0, i + 1);
            proof {
                assert(cur.drop_last() =~= pre);
                assert(cur.last() == keys@[i as int]);
            }
            let kvec = crate::text::str_chars(keys[i].as_str());
            if crate::text::starts_with_chars(&kvec, &ivec) {
                let ghost old_pm = pm@;
                pm.push(keys[i].clone());
                proof {
                    assert(pieces_of(pm@) =~= pieces_of(old_pm).push(keys@[i as int]@));
                }
            }
            i = i + 1;
        }
        proof {
            assert(keys@.subrange(0, keys@.len() as int) =~= keys@);
            assert(pieces_of(pm@) == pmv);
        }
        if pm.len() == 1 {
            let sug = pm[0].clone();
            let svec = crate::text::str_chars(sug.as_str());
            proof {
                lemma_prefix_matches_prefix(keys@, input@);
                assert(svec@ == pmv[0]);
                assert(input@.is_prefix_of(pmv[0]));
            }
            let completion = crate::text::chars_to_string_range(&svec, ilen, svec.len());
            return Some((completion, sug));
        }
        if pm.len() > 1 {
            let mut refs: Vec<&String> = Vec::new();
            let mut k: usize = 0;
            while k < pm.len()
                invariant
                    k <= pm@.len(),
                    refs@.len() == k,
                    forall|n: int| 0 <= n < k ==> (#[trigger] refs@[n])@ == pm@[n]@,
                decreases pm@.len() - k,
            {
                refs.push(&pm[k]);
                k = k + 1;
            }
            proof {
                assert(refs_view(refs@) =~= pieces_of(pm@));
            }
            let l = longest_common_prefix(refs.as_slice());
            let lvec = crate::text::str_chars(l.as_str());
            if lvec.len() > ilen {
                let completion = crate::text::chars_to_string_range(&lvec, ilen, lvec.len());
                return Some((completion, l));
            }
        }
        let cands = self.get_candidates(keys, input);
        proof {
            assert(cands_view(cands@).len() == cands@.len());
        }
        if cands.len() > 0 {
            proof {
                assert(cands_view(cands@)[0] == cands@[0]@);
            }
            let best = &cands[0];
            let bvec = crate::text::str_chars(best.text.as_str());
            if crate::text::starts_with_chars(&bvec, &ivec) {
                let completion = crate::text::chars_to_string_range(&bvec, ilen, bvec.len());
                return Some((completion, best.text.clone()));
            }
        }
        None
    }
}

/// The views of a list of strings.
pub open spec fn pieces_of(s: Seq<String>) -> Seq<Seq<char>> {
    s.map_values(|x: String| x@)
}

impl Default for Suggester {
    fn default() -> (r: Suggester) {
        Suggester::new()
    }
}

} // verus!
