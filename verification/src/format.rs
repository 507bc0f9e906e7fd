//! Input and output formats, and format auto-detection by inspecting the
//! content's shape. The actual format adapters live outside the library.

use vstd::prelude::*;

use crate::text::{find_sub, lines_of, trimmed};

verus! {

/// A supported input or output format.
#[derive(Debug, Clone, Copy, PartialEq, Eq, Structural)]
pub enum DataFormat {
    Json,
    Yaml,
    Toml,
    Csv,
    Ndjson,
}

/// A character mapped to lower case when it is an ASCII capital.
pub open spec fn lower_char(c: char) -> char {
    if 65 <= (c as u32) <= 90 {
        (((c as u32) + 32) as u8) as char
    } else {
        c
    }
}

/// The ASCII lower-case form of a text.
pub open spec fn lower_ascii(s: Seq<char>) -> Seq<char> {
    s.map_values(|c: char| lower_char(c))
}

/// Which format a name denotes, after lowering: `json`, `yaml` or
/// `yml`, `toml`, `csv`, `ndjson` or `jsonl`; anything else is unknown.
pub open spec fn spec_format_name(s: Seq<char>) -> Option<DataFormat> {
    let t = lower_ascii(s);
    if t == "json"@ {
        Some(DataFormat::Json)
    } else if t == "yaml"@ || t == "yml"@ {
        Some(DataFormat::Yaml)
    } else if t == "toml"@ {
        Some(DataFormat::Toml)
    } else if t == "csv"@ {
        Some(DataFormat::Csv)
    } else if t == "ndjson"@ || t == "jsonl"@ {
        Some(DataFormat::Ndjson)
    } else {
        None
    }
}

impl DataFormat {
    /// Parses a format name from an argument; the error names the
    /// original text.
    pub fn from_str_name(s: &str) -> (r: Result<DataFormat, String>)
        ensures
            match r {
                Ok(f) => spec_format_name(s@) == Some(f),
                Err(m) => spec_format_name(s@) is None && m@ == "unknown format: "@ + s@,
            },
    {
        let chars = crate::text::str_chars(s);
        let mut low: Vec<char> = Vec::new();
        let mut i: usize = 0;
        while i < chars.len()
            invariant
                i <= chars@.len(),
                chars@ == s@,
                low@ == lower_ascii(s@).subrange(0, i as int),
            decreases chars@.len() - i,
        {
            let c = chars[i];
            let u = c as u32;
            let lc: char = if 65 <= u && u <= 90 {
                ((u + 32) as u8) as char
            } else {
                c
            };
            low.push(lc);
            i = i + 1;
            proof {
                assert(low@ =~= lower_ascii(s@).subrange(0, i as int));
            }
        }
        proof {
            assert(low@ =~= lower_ascii(s@));
        }
        let t = crate::text::chars_to_string(&low);
        if crate::text::str_eq(t.as_str(), "json") {
            Ok(DataFormat::Json)
        } else if crate::text::str_eq(t.as_str(), "yaml") || crate::text::str_eq(
            t.as_str(),
            "yml",
        ) {
            Ok(DataFormat::Yaml)
        } else if crate::text::str_eq(t.as_str(), "toml") {
            Ok(DataFormat::Toml)
        } else if crate::text::str_eq(t.as_str(), "csv") {
            Ok(DataFormat::Csv)
        } else if crate::text::str_eq(t.as_str(), "ndjson") || crate::text::str_eq(
            t.as_str(),
            "jsonl",
        ) {
            Ok(DataFormat::Ndjson)
        } else {
            Err(String::from_str("unknown format: ").concat(s))
        }
    }
}

/// Whether the first `k` lines, trimmed, all start with a brace.
pub open spec fn braces_lead(lines: Seq<Seq<char>>, k: int) -> bool
    decreases k,
{
    if k <= 0 {
        true
    } else {
        braces_lead(lines, k - 1) && {
            let t = trimmed(lines[k - 1]);
            t.len() > 0 && t[0] == '{'
        }
    }
}

/// The format the content looks like: several brace-led lines read as
/// line-delimited records; a brace or a bracket without assignments as
/// a single document; assignments as key-value sections; a document
/// marker or colon pairs as indented data; commas over several lines as
/// tabular rows; a single document otherwise.
pub open spec fn spec_detect(content: Seq<char>) -> DataFormat {
    let t = trimmed(content);
    let lines = lines_of(t);
    let k = if lines.len() < 5 {
        lines.len() as int
    } else {
        5
    };
    if lines.len() > 1 && braces_lead(lines, k) {
        DataFormat::Ndjson
    } else if t.len() > 0 && t[0] == '{' {
        DataFormat::Json
    } else if t.len() > 0 && t[0] == '[' && find_sub(t, " = "@) is None {
        DataFormat::Json
    } else if find_sub(t, " = "@) is Some {
        DataFormat::Toml
    } else if "---"@.is_prefix_of(t) || find_sub(t, ": "@) is Some {
        DataFormat::Yaml
    } else if find_sub(t, seq![',']) is Some && lines.len() > 1 {
        DataFormat::Csv
    } else {
        DataFormat::Json
    }
}

/// Auto-detects the format of input data by inspecting the content.
pub fn detect_format(content: &str) -> (r: DataFormat)
    ensures
        r == spec_detect(content@),
{
    let chars = crate::text::str_chars(content);
    let (lo, hi) = crate::text::trim_bounds(&chars, 0, chars.len());
    proof {
        assert(chars@.subrange(0, chars@.len() as int) =~= chars@);
    }
    let t = crate::text::subvec(&chars, lo, hi);
    let ghost tv = trimmed(content@);
    proof {
        assert(t@ == tv);
    }
    let lines = crate::text::lines_exec(&t);
    let ghost lv = lines_of(tv);
    let k: usize = if lines.len() < 5 {
        lines.len()
    } else {
        5
    };
    let mut lead = true;
    let mut i: usize = 0;
    while i < k
        invariant
            i <= k,
            k == if lv.len() < 5 {
                lv.len() as int
            } else {
                5
            },
            lines@.map_values(|x: String| x@) == lv,
            lv.len() == lines@.len(),
            forall|n: int| 0 <= n < lines@.len() ==> lv[n] == (#[trigger] lines@[n])@,
            lead == braces_lead(lv, i as int),
        decreases k - i,
    {
        let lchars = crate::text::str_chars(lines[i].as_str());
        let (llo, lhi) = crate::text::trim_bounds(&lchars, 0, lchars.len());
        proof {
            assert(lchars@.subrange(0, lchars@.len() as int) =~= lchars@);
        }
        let this = if llo < lhi {
            lchars[llo] == '{'
        } else {
            false
        };
        proof {
            let lt = trimmed(lv[i as int]);
            assert(lt == lchars@.subrange(llo as int, lhi as int));
            if llo < lhi {
                assert(lt[0] == lchars@[llo as int]);
            }
        }
        lead = lead && this;
        i = i + 1;
    }
    let mut eqs: Vec<char> = Vec::new();
    eqs.push(' ');
    eqs.push('=');
    eqs.push(' ');
    let mut colon: Vec<char> = Vec::new();
    colon.push(':');
    colon.push(' ');
    let mut comma: Vec<char> = Vec::new();
    comma.push(',');
    let mut dashes: Vec<char> = Vec::new();
    dashes.push('-');
    dashes.push('-');
    dashes.push('-');
    proof {
        reveal_strlit(" = ");
        reveal_strlit(": ");
        reveal_strlit("---");
        assert(eqs@ =~= " = "@);
        assert(colon@ =~= ": "@);
        assert(comma@ =~= seq![',']);
        assert(dashes@ =~= "---"@);
    }
    if lines.len() > 1 && lead {
        return DataFormat::Ndjson;
    }
    if t.len() > 0 {
        if t[0] == '{' {
            return DataFormat::Json;
        }
    }
    let has_eq = crate::text::contains_sub(&t, &eqs);
    if t.len() > 0 {
        if t[0] == '[' && !has_eq {
            return DataFormat::Json;
        }
    }
    if has_eq {
        return DataFormat::Toml;
    }
    if crate::text::starts_with_chars(&t, &dashes) || crate::text::contains_sub(&t, &colon) {
        return DataFormat::Yaml;
    }
    if crate::text::contains_sub(&t, &comma) && lines.len() > 1 {
        return DataFormat::Csv;
    }
    DataFormat::Json
}

} // verus!
