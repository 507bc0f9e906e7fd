//! Prompt construction for assisted querying, and parsing of the
//! provider's reply into an answer and an optional suggested query.
//! The providers themselves live outside the library.

use vstd::prelude::*;

use crate::text::{find_sub, lines_of, split_on, trimmed};

verus! {

/// A query request for a provider.
#[derive(Debug, Clone)]
pub struct AiQuery {
    /// The natural-language question.
    pub question: String,
    /// The inferred schema summary of the data.
    pub schema_summary: String,
    /// The data itself, truncated if large.
    pub data_context: String,
}

/// A provider's reply.
#[derive(Debug, Clone)]
pub struct AiResponse {
    /// The natural-language answer.
    pub answer: String,
    /// An optional query suggestion the user can apply.
    pub suggested_query: Option<String>,
}

/// A provider of assisted answers. The surrounding program implements
/// it over whatever transport it has; nothing is promised of a
/// provider's reply, so callers take each answer as it comes.
pub trait AiProvider {
    /// Sends a question and returns the provider's raw reply, parsed.
    fn query(&self, request: &AiQuery) -> Result<AiResponse, String>;

    /// The provider's name, for display.
    fn name(&self) -> &str;
}

/// Dispatches queries to the configured provider.
pub struct AiService {
    provider: Option<Box<dyn AiProvider>>,
}

impl AiService {
    /// Whether a provider is configured.
    pub closed spec fn spec_available(&self) -> bool {
        self.provider is Some
    }

    /// A service with no provider: assisted querying is disabled.
    pub fn new() -> (s: AiService)
        ensures
            !s.spec_available(),
    {
        AiService { provider: None }
    }

    /// A service around a provider.
    pub fn with_provider(provider: Box<dyn AiProvider>) -> (s: AiService)
        ensures
            s.spec_available(),
    {
        AiService { provider: Some(provider) }
    }

    /// Whether assisted querying is available.
    pub fn is_available(&self) -> (r: bool)
        ensures
            r == self.spec_available(),
    {
        match &self.provider {
            Some(_) => true,
            None => false,
        }
    }

    /// Sends a query to the provider; without one, an error explains
    /// how to configure it.
    pub fn query(&self, request: &AiQuery) -> (r: Result<AiResponse, String>)
        ensures
            !self.spec_available() ==> r is Err,
    {
        match &self.provider {
            Some(provider) => provider.query(request),
            None => Err(
                String::from_str(
                    "No AI provider configured. Set up AI in ~/.config/jdx/config.toml",
                ),
            ),
        }
    }
}

/// The system prompt around a schema summary.
pub open spec fn system_prompt_text(schema_summary: Seq<char>) -> Seq<char> {
    "You are a helpful data assistant for jdx, a JSON data explorer. You have access to the actual JSON data and its schema. Your job is to ANSWER the user's question directly in plain English.\n\n## Schema\n"@
        + schema_summary
        + "\n\n## Response format\n\n1. Answer the question directly in natural language. Be concise (1-3 sentences).\n2. If relevant, include specific values, counts, or calculations from the data.\n3. On a SEPARATE line at the end, optionally suggest a jdx query the user can run to explore the data themselves, using this format:\n   Query: .path.to.data :transform\n\n## jdx query syntax reference (for your Query: suggestions)\n\nPath navigation: .field, .field.sub, .arr[0], .arr[-1], .arr[0:3], .arr[*]\nFilter predicates: .arr[field == value], .arr[field < 10], .arr[field != \"x\"]\nTransform commands:\n  :keys, :values, :count, :flatten, :pick f1,f2, :omit f1, :sort field,\n  :uniq, :group_by field, :filter field op value,\n  :sum field, :avg field, :min field, :max field\n\nTransforms chain: .books :filter price < 10 :pick title,price :sort price\nOperators: ==, !=, <, >, <=, >=\n\nCRITICAL: NEVER use JSONPath syntax like [?(@.field > value)] or jq syntax like select(). Use jdx syntax only.\n\n## Examples\n\nQuestion: \"What is the total price of all books?\"\nAnswer: The total price of all books is $52.97 (10.99 + 8.99 + 32.99).\nQuery: .store.books :sum price\n\nQuestion: \"How many users are there?\"\nAnswer: There are 3 users.\nQuery: .users :count\n\nQuestion: \"Which books cost less than 10 dollars?\"\nAnswer: Only \"1984\" by George Orwell costs less than $10 (priced at $8.99).\nQuery: .store.books[price < 10] :pick title,author,price\n\nQuestion: \"What is the most expensive book?\"\nAnswer: \"Clean Code\" by Robert C. Martin is the most expensive at $32.99.\nQuery: .store.books :sort price\n\nQuestion: \"Who are the admin users?\"\nAnswer: Alice is the only admin user.\nQuery: .users[role == \"admin\"]\n"@
}

/// Builds the system prompt around a schema summary.
pub fn build_system_prompt(schema_summary: &str) -> (r: String)
    ensures
        r@ == system_prompt_text(schema_summary@),
{
    String::from_str(
        "You are a helpful data assistant for jdx, a JSON data explorer. You have access to the actual JSON data and its schema. Your job is to ANSWER the user's question directly in plain English.\n\n## Schema\n",
    ).concat(schema_summary).concat(
        "\n\n## Response format\n\n1. Answer the question directly in natural language. Be concise (1-3 sentences).\n2. If relevant, include specific values, counts, or calculations from the data.\n3. On a SEPARATE line at the end, optionally suggest a jdx query the user can run to explore the data themselves, using this format:\n   Query: .path.to.data :transform\n\n## jdx query syntax reference (for your Query: suggestions)\n\nPath navigation: .field, .field.sub, .arr[0], .arr[-1], .arr[0:3], .arr[*]\nFilter predicates: .arr[field == value], .arr[field < 10], .arr[field != \"x\"]\nTransform commands:\n  :keys, :values, :count, :flatten, :pick f1,f2, :omit f1, :sort field,\n  :uniq, :group_by field, :filter field op value,\n  :sum field, :avg field, :min field, :max field\n\nTransforms chain: .books :filter price < 10 :pick title,price :sort price\nOperators: ==, !=, <, >, <=, >=\n\nCRITICAL: NEVER use JSONPath syntax like [?(@.field > value)] or jq syntax like select(). Use jdx syntax only.\n\n## Examples\n\nQuestion: \"What is the total price of all books?\"\nAnswer: The total price of all books is $52.97 (10.99 + 8.99 + 32.99).\nQuery: .store.books :sum price\n\nQuestion: \"How many users are there?\"\nAnswer: There are 3 users.\nQuery: .users :count\n\nQuestion: \"Which books cost less than 10 dollars?\"\nAnswer: Only \"1984\" by George Orwell costs less than $10 (priced at $8.99).\nQuery: .store.books[price < 10] :pick title,author,price\n\nQuestion: \"What is the most expensive book?\"\nAnswer: \"Clean Code\" by Robert C. Martin is the most expensive at $32.99.\nQuery: .store.books :sort price\n\nQuestion: \"Who are the admin users?\"\nAnswer: Alice is the only admin user.\nQuery: .users[role == \"admin\"]\n",
    )
}

/// The user prompt around the data and the question.
pub open spec fn user_prompt_text(question: Seq<char>, data_context: Seq<char>) -> Seq<char> {
    "Here is the actual JSON data:\n"@ + data_context + "\n\nQuestion: \""@ + question + "\"\n"@
}

/// Builds the user prompt for a question, including the data.
pub fn build_user_prompt(question: &str, data_context: &str) -> (r: String)
    ensures
        r@ == user_prompt_text(question@, data_context@),
{
    String::from_str("Here is the actual JSON data:\n").concat(data_context).concat(
        "\n\nQuestion: \"",
    ).concat(question).concat("\"\n")
}


/// Leading backticks removed.
pub open spec fn strip_ticks_front(s: Seq<char>) -> Seq<char>
    decreases s.len(),
{
    if s.len() > 0 && s[0] == '`' {
        strip_ticks_front(s.subrange(1, s.len() as int))
    } else {
        s
    }
}

/// Trailing backticks removed.
pub open spec fn strip_ticks_back(s: Seq<char>) -> Seq<char>
    decreases s.len(),
{
    if s.len() > 0 && s.last() == '`' {
        strip_ticks_back(s.subrange(0, s.len() - 1))
    } else {
        s
    }
}

/// The suggested query a reply line carries, when the line is a
/// `Query:` line: what follows the marker, trimmed and with backtick
/// fencing removed.
pub open spec fn line_query(line: Seq<char>) -> Seq<char> {
    let t = trimmed(line);
    trimmed(
        strip_ticks_back(
            strip_ticks_front(trimmed(t.subrange("Query:"@.len() as int, t.len() as int))),
        ),
    )
}

/// One pass over the reply's lines: a `Query:` line records its
/// non-empty query and is dropped; a backtick fence line is dropped;
/// every other line joins the answer.
pub open spec fn scan_lines(
    lines: Seq<Seq<char>>,
    i: int,
    acc: Seq<Seq<char>>,
    sq: Option<Seq<char>>,
) -> (Seq<Seq<char>>, Option<Seq<char>>)
    decreases lines.len() - i,
{
    if i < 0 || i >= lines.len() {
        (acc, sq)
    } else {
        let t = trimmed(lines[i]);
        if "Query:"@.is_prefix_of(t) {
            let q = line_query(lines[i]);
            scan_lines(
                lines,
                i + 1,
                acc,
                if q.len() > 0 {
                    Some(q)
                } else {
                    sq
                },
            )
        } else if "```"@.is_prefix_of(t) {
            scan_lines(lines, i + 1, acc, sq)
        } else {
            scan_lines(lines, i + 1, acc.push(lines[i]), sq)
        }
    }
}

/// Lines joined with newlines.
pub open spec fn join_nl(ls: Seq<Seq<char>>) -> Seq<char>
    decreases ls.len(),
{
    if ls.len() == 0 {
        Seq::empty()
    } else if ls.len() == 1 {
        ls[0]
    } else {
        join_nl(ls.drop_last()) + seq!['\n'] + ls.last()
    }
}

/// What a raw reply parses to: the answer text and the suggested query.
/// When the whole answer itself reads as a query (it starts with a dot
/// and holds either no space or a transform boundary), its first line
/// becomes the suggestion and the answer merely names it.
pub open spec fn spec_ai_response(text: Seq<char>) -> (Seq<char>, Option<Seq<char>>) {
    let t0 = trimmed(text);
    let scanned = scan_lines(lines_of(t0), 0, Seq::empty(), None);
    let answer = trimmed(join_nl(scanned.0));
    if answer.len() > 0 && answer[0] == '.' && (find_sub(answer, seq![' ']) is None || find_sub(
        answer,
        seq![' ', ':'],
    ) is Some) {
        let query = trimmed(split_on(answer, '\n')[0]);
        ("Suggested query: "@ + query, Some(query))
    } else {
        (answer, scanned.1)
    }
}

proof fn lemma_ticks_front_at(s: Seq<char>, i: int)
    requires
        0 <= i <= s.len(),
        forall|j: int| 0 <= j < i ==> s[j] == '`',
        i < s.len() ==> s[i] != '`',
    ensures
        strip_ticks_front(s) == s.subrange(i, s.len() as int),
    decreases i,
{
    if i == 0 {
        assert(s.subrange(0, s.len() as int) =~= s);
    } else {
        let t = s.subrange(1, s.len() as int);
        lemma_ticks_front_at(t, i - 1);
        assert(t.subrange(i - 1, t.len() as int) =~= s.subrange(i, s.len() as int));
    }
}

proof fn lemma_ticks_back_at(s: Seq<char>, i: int)
    requires
        0 <= i <= s.len(),
        forall|j: int| i <= j < s.len() ==> s[j] == '`',
        i > 0 ==> s[i - 1] != '`',
    ensures
        strip_ticks_back(s) == s.subrange(0, i),
    decreases s.len() - i,
{
    if i == s.len() {
        assert(s.subrange(0, s.len() as int) =~= s);
    } else {
        let t = s.subrange(0, s.len() - 1);
        lemma_ticks_back_at(t, i);
        assert(t.subrange(0, i) =~= s.subrange(0, i));
    }
}

/// Parses raw reply text into an answer and an optional suggested
/// query.
pub fn parse_ai_response(text: &str) -> (r: AiResponse)
    ensures
        r.answer@ == spec_ai_response(text@).0,
        match r.suggested_query {
            Some(q) => spec_ai_response(text@).1 == Some(q@),
            None => spec_ai_response(text@).1 is None,
        },
{
    let chars = crate::text::str_chars(text);
    let (lo, hi) = crate::text::trim_bounds(&chars, 0, chars.len());
    proof {
        assert(chars@.subrange(0, chars@.len() as int) =~= chars@);
    }
    let t0 = crate::text::subvec(&chars, lo, hi);
    let ghost t0v = trimmed(text@);
    proof {
        assert(t0@ == t0v);
    }
    let lines = crate::text::lines_exec(&t0);
    let ghost lv = lines_of(t0v);

    let mut qprefix: Vec<char> = Vec::new();
    qprefix.push('Q');
    qprefix.push('u');
    qprefix.push('e');
    qprefix.push('r');
    qprefix.push('y');
    qprefix.push(':');
    let mut fence: Vec<char> = Vec::new();
    fence.push('`');
    fence.push('`');
    fence.push('`');
    proof {
        reveal_strlit("Query:");
        reveal_strlit("```");
        assert(qprefix@ =~= "Query:"@);
        assert(fence@ =~= "```"@);
    }

    let mut acc: Vec<String> = Vec::new();
    let mut sq: Option<String> = None;
    let ghost whole = scan_lines(lv, 0, Seq::empty(), None);
    proof {
        assert(acc@.map_values(|x: String| x@) =~= Seq::<Seq<char>>::empty());
    }
    let mut i: usize = 0;
    while i < lines.len()
        invariant
            i <= lines@.len(),
            qprefix@ == "Query:"@,
            qprefix@.len() == 6,
            fence@ == "```"@,
            lines@.map_values(|x: String| x@) == lv,
            lv.len() == lines@.len(),
            forall|n: int| 0 <= n < lines@.len() ==> lv[n] == (#[trigger] lines@[n])@,
            whole == scan_lines(
                lv,
                i as int,
                acc@.map_values(|x: String| x@),
                match sq {
                    Some(ref q) => Some(q@),
                    None => None,
                },
            ),
        decreases lines@.len() - i,
    {
        let lchars = crate::text::str_chars(lines[i].as_str());
        let (tlo, thi) = crate::text::trim_bounds(&lchars, 0, lchars.len());
        proof {
            assert(lchars@.subrange(0, lchars@.len() as int) =~= lchars@);
        }
        let ghost tv = trimmed(lv[i as int]);
        let tline = crate::text::subvec(&lchars, tlo, thi);
        proof {
            assert(tline@ == tv);
        }
        if crate::text::starts_with_chars(&tline, &qprefix) {
            // a Query: line
            let ghost seg = tv.subrange(6, tv.len() as int);
            let (alo, ahi) = crate::text::trim_bounds(&lchars, tlo + 6, thi);
            proof {
                assert(lchars@.subrange(tlo + 6, thi as int) =~= seg);
            }
            let ghost seg_t = trimmed(seg);
            let mut p = alo;
            while p < ahi && lchars[p] == '`'
                invariant
                    alo <= p <= ahi <= lchars@.len(),
                    forall|j: int| alo <= j < p ==> lchars@[j] == '`',
                decreases ahi - p,
            {
                p = p + 1;
            }
            proof {
                assert(lchars@.subrange(alo as int, ahi as int) =~= seg_t);
                lemma_ticks_front_at(seg_t, p - alo);
                assert(seg_t.subrange(p - alo, seg_t.len() as int) =~= lchars@.subrange(
                    p as int,
                    ahi as int,
                ));
            }
            let ghost seg_f = strip_ticks_front(seg_t);
            let mut qe = ahi;
            while qe > p && lchars[qe - 1] == '`'
                invariant
                    p <= qe <= ahi <= lchars@.len(),
                    forall|j: int| qe <= j < ahi ==> lchars@[j] == '`',
                decreases qe,
            {
                qe = qe - 1;
            }
            proof {
                assert(lchars@.subrange(p as int, ahi as int) =~= seg_f);
                lemma_ticks_back_at(seg_f, qe - p);
                assert(seg_f.subrange(0, qe - p) =~= lchars@.subrange(p as int, qe as int));
            }
            let (fa, fb) = crate::text::trim_bounds(&lchars, p, qe);
            proof {
                assert(lchars@.subrange(p as int, qe as int) =~= strip_ticks_back(seg_f));
                assert(lchars@.subrange(fa as int, fb as int) =~= line_query(lv[i as int]));
            }
            if fa < fb {
                sq = Some(crate::text::chars_to_string_range(&lchars, fa, fb));
            }
        } else if crate::text::starts_with_chars(&tline, &fence) {
            // a backtick fence line: skipped
        } else {
            let ghost old_acc = acc@;
            acc.push(lines[i].clone());
            proof {
                assert(acc@.map_values(|x: String| x@) =~= old_acc.map_values(
                    |x: String| x@,
                ).push(lv[i as int]));
            }
        }
        i = i + 1;
    }
    let ghost final_acc = acc@.map_values(|x: String| x@);
    let ghost final_sq: Option<Seq<char>> = match sq {
        Some(ref q) => Some(q@),
        None => None,
    };

    // join the answer lines with newlines and trim
    let mut joined = String::new();
    let mut k: usize = 0;
    while k < acc.len()
        invariant
            k <= acc@.len(),
            final_acc == acc@.map_values(|x: String| x@),
            final_acc.len() == acc@.len(),
            forall|n: int| 0 <= n < acc@.len() ==> final_acc[n] == (#[trigger] acc@[n])@,
            joined@ == join_nl(final_acc.subrange(0, k as int)),
        decreases acc@.len() - k,
    {
        let ghost pre = final_acc.subrange(0, k as int);
        let ghost cur = final_acc.subrange(0, k + 1);
        proof {
            assert(cur.drop_last() =~= pre);
            assert(cur.last() == final_acc[k as int]);
            assert(final_acc.subrange(0, 1).len() == 1);
            assert(final_acc.subrange(0, 1)[0] == final_acc[0]);
        }
        if k > 0 {
            crate::text::push_char(&mut joined, '\n');
        }
        joined.append(acc[k].as_str());
        k = k + 1;
        proof {
            assert(joined@ =~= join_nl(cur));
        }
    }
    proof {
        assert(final_acc.subrange(0, final_acc.len() as int) =~= final_acc);
    }
    let jchars = crate::text::str_chars(joined.as_str());
    let (alo, ahi) = crate::text::trim_bounds(&jchars, 0, jchars.len());
    proof {
        assert(jchars@.subrange(0, jchars@.len() as int) =~= jchars@);
    }
    let avec = crate::text::subvec(&jchars, alo, ahi);
    let answer = crate::text::chars_to_string(&avec);
    let ghost av = trimmed(join_nl(final_acc));
    proof {
        assert(avec@ == av);
        assert(answer@ == av);
    }

    let mut space: Vec<char> = Vec::new();
    space.push(' ');
    let mut boundary: Vec<char> = Vec::new();
    boundary.push(' ');
    boundary.push(':');
    proof {
        assert(space@ =~= seq![' ']);
        assert(boundary@ =~= seq![' ', ':']);
    }
    let starts_dot = if avec.len() > 0 {
        avec[0] == '.'
    } else {
        false
    };
    let no_space = crate::text::find_sub_exec(&avec, &space).is_none();
    let has_boundary = crate::text::find_sub_exec(&avec, &boundary).is_some();
    if starts_dot && (no_space || has_boundary) {
        let mut nl: Vec<char> = Vec::new();
        nl.push('\n');
        proof {
            assert(nl@ =~= seq!['\n']);
        }
        let first_end = match crate::text::find_sub_exec(&avec, &nl) {
            Some(x) => x,
            None => avec.len(),
        };
        proof {
            assert(split_on(av, '\n')[0] =~= av.subrange(0, first_end as int));
        }
        let (qlo, qhi) = crate::text::trim_bounds(&avec, 0, first_end);
        let query = crate::text::chars_to_string_range(&avec, qlo, qhi);
        proof {
            assert(query@ == trimmed(split_on(av, '\n')[0]));
        }
        let ans = String::from_str("Suggested query: ").concat(query.as_str());
        AiResponse { answer: ans, suggested_query: Some(query) }
    } else {
        AiResponse { answer, suggested_query: sq }
    }
}
} // verus!
