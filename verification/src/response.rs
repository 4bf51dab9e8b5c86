//! The `/v2/check` response: the request parameters the server reads, the
//! context window shown around each match and the coarse issue types.

use vstd::prelude::*;
use crate::strset::StringSet;
use crate::text::{chars_to_string, lit, split_chars, split_on, str_chars, trim, trim_chars};
use crate::grammar::{GrammarMatch, gm_view};

verus! {

/// The non-empty trimmed pieces of a comma-separated list.
pub open spec fn csv_items(v: Seq<char>) -> Set<Seq<char>> {
    Set::new(
        |p: Seq<char>|
            p.len() > 0 && exists|i: int|
                0 <= i < split_on(v, ',').len() && trim(#[trigger] split_on(v, ',')[i]) == p,
    )
}

/// `disabledRules` / `disabledCategories`: the trimmed non-empty items of the
/// comma-separated list (none when the parameter is absent).
pub fn split_csv(s: &Option<String>) -> (r: StringSet)
    ensures
        r.view() == match s {
            Some(v) => csv_items(v@),
            None => Set::<Seq<char>>::empty(),
        },
{
    let mut out = StringSet::new();
    match s {
        None => out,
        Some(v) => {
            let parts = split_chars(&str_chars(v.as_str()), ',');
            let ghost pv = parts@.map_values(|p: Vec<char>| p@);
            assert(pv == split_on(v@, ','));
            let mut i: usize = 0;
            while i < parts.len()
                invariant
                    i <= parts.len(),
                    pv == parts@.map_values(|p: Vec<char>| p@),
                    pv == split_on(v@, ','),
                    out.view() == Set::new(
                        |p: Seq<char>|
                            p.len() > 0 && exists|k: int| 0 <= k < i && trim(#[trigger] pv[k]) == p,
                    ),
                decreases parts.len() - i,
            {
                let t = trim_chars(&parts[i]);
                assert(t@ == trim(pv[i as int]));
                let ghost before = out.view();
                if t.len() > 0 {
                    out.insert_chars(&t);
                }
                assert(out.view() =~= Set::new(
                    |p: Seq<char>|
                        p.len() > 0 && exists|k: int| 0 <= k < i + 1 && trim(#[trigger] pv[k]) == p,
                )) by {
                    assert forall|p: Seq<char>| #[trigger] out.view().contains(p) implies p.len()
                        > 0 && exists|k: int| 0 <= k < i + 1 && trim(#[trigger] pv[k]) == p by {
                        if before.contains(p) {
                            let k = choose|k: int| 0 <= k < i && trim(#[trigger] pv[k]) == p;
                            assert(0 <= k < i + 1 && trim(pv[k]) == p);
                        } else {
                            assert(trim(pv[i as int]) == p);
                        }
                    }
                    assert forall|p: Seq<char>|
                        p.len() > 0 && (exists|k: int| 0 <= k < i + 1 && trim(#[trigger] pv[k]) == p)
                        implies #[trigger] out.view().contains(p) by {
                        let k = choose|k: int| 0 <= k < i + 1 && trim(#[trigger] pv[k]) == p;
                        if k < i {
                            assert(before.contains(p));
                        }
                    }
                }
                i += 1;
            }
            assert(out.view() =~= csv_items(v@));
            out
        },
    }
}

/// The context window: up to 20 characters on each side of the match, with
/// `...` where the text was clipped; and the match's offset inside it.
pub open spec fn spec_context(chars: Seq<char>, offset: int, length: int) -> (Seq<char>, int) {
    let start = if offset >= 20 {
        offset - 20
    } else {
        0
    };
    let end = if offset + length + 20 <= chars.len() {
        offset + length + 20
    } else {
        chars.len() as int
    };
    let lead = if start > 0 {
        "..."@
    } else {
        Seq::empty()
    };
    let tail = if end < chars.len() {
        "..."@
    } else {
        Seq::empty()
    };
    (lead + chars.subrange(start, end) + tail, offset - start + lead.len())
}

/// The context shows the matched text at the offset it gives, and is at
/// most 46 characters longer than the match.
pub proof fn lemma_context_shows_match(chars: Seq<char>, offset: int, length: int)
    requires
        0 <= offset,
        0 <= length,
        offset + length <= chars.len(),
    ensures
        spec_context(chars, offset, length).0.subrange(
            spec_context(chars, offset, length).1,
            spec_context(chars, offset, length).1 + length,
        ) == chars.subrange(offset, offset + length),
        spec_context(chars, offset, length).0.len() <= length + 46,
{
    reveal_strlit("...");
    let start = if offset >= 20 {
        offset - 20
    } else {
        0
    };
    let end = if offset + length + 20 <= chars.len() {
        offset + length + 20
    } else {
        chars.len() as int
    };
    let lead: Seq<char> = if start > 0 {
        "..."@
    } else {
        Seq::empty()
    };
    let tail: Seq<char> = if end < chars.len() {
        "..."@
    } else {
        Seq::empty()
    };
    let mid = chars.subrange(start, end);
    let ctx = lead + mid + tail;
    let off = offset - start + lead.len();
    assert(spec_context(chars, offset, length) == (ctx, off));
    assert(ctx.subrange(off, off + length) =~= chars.subrange(offset, offset + length)) by {
        assert forall|k: int| 0 <= k < length implies #[trigger] ctx.subrange(off, off + length)[k]
            == chars.subrange(offset, offset + length)[k] by {
            assert(ctx[off + k] == mid[offset - start + k]);
        }
    }
}

/// The context window around a match at `offset` (in characters) of `length`.
pub fn build_context(chars: &[char], offset: usize, length: usize) -> (r: (String, usize))
    requires
        offset + length + 20 <= usize::MAX,
        offset <= chars@.len() + 20,
    ensures
        r.0@ == spec_context(chars@, offset as int, length as int).0,
        r.1 == spec_context(chars@, offset as int, length as int).1,
{
    let start = offset.saturating_sub(20);
    let end = if offset + length + 20 <= chars.len() {
        offset + length + 20
    } else {
        chars.len()
    };
    let mut ctx: Vec<char> = Vec::new();
    let mut ctx_off = offset - start;
    if start > 0 {
        ctx = lit("...");
        ctx_off += 3;
    }
    proof {
        reveal_strlit("...");
    }
    let ghost lead = ctx@;
    let mut i = start;
    while i < end
        invariant
            start <= i <= end <= chars@.len(),
            ctx@ == lead + chars@.subrange(start as int, i as int),
        decreases end - i,
    {
        ctx.push(chars[i]);
        assert(chars@.subrange(start as int, i + 1) =~= chars@.subrange(start as int, i as int).push(chars@[i as int]));
        i += 1;
    }
    if end < chars.len() {
        let ghost c0 = ctx@;
        ctx.push('.');
        ctx.push('.');
        ctx.push('.');
        assert(ctx@ =~= c0 + "..."@);
    } else {
        assert(ctx@ =~= ctx@ + Seq::<char>::empty());
    }
    (chars_to_string(&ctx), ctx_off)
}

/// The coarse `issueType` of a category.
pub open spec fn spec_issue_type(category_id: Seq<char>) -> Seq<char> {
    if category_id == "TYPOS"@ {
        "misspelling"@
    } else if category_id == "GRAMMAR"@ {
        "grammar"@
    } else if category_id == "TYPOGRAPHY"@ || category_id == "PUNCTUATION"@ {
        "typographical"@
    } else {
        "uncategorized"@
    }
}

/// The coarse `issueType` of a category.
pub fn issue_type_for(category_id: &str) -> (r: String)
    ensures
        r@ == spec_issue_type(category_id@),
{
    let c = str_chars(category_id);
    let out = if crate::text::chars_eq(&c, &lit("TYPOS")) {
        lit("misspelling")
    } else if crate::text::chars_eq(&c, &lit("GRAMMAR")) {
        lit("grammar")
    } else if crate::text::chars_eq(&c, &lit("TYPOGRAPHY")) || crate::text::chars_eq(
        &c,
        &lit("PUNCTUATION"),
    ) {
        lit("typographical")
    } else {
        lit("uncategorized")
    };
    chars_to_string(&out)
}

// ---------------------------------------------------------------------------
// The response body
// ---------------------------------------------------------------------------

pub struct Software {
    pub name: String,
    pub version: String,
    pub api_version: u32,
    pub premium: bool,
    pub status: String,
}

pub struct DetectedLanguage {
    pub name: String,
    pub code: String,
}

pub struct LanguageInfo {
    pub name: String,
    pub code: String,
    pub detected_language: DetectedLanguage,
}

pub struct Replacement {
    pub value: String,
}

pub struct Context {
    pub text: String,
    pub offset: usize,
    pub length: usize,
}

pub struct CategoryJson {
    pub id: String,
    pub name: String,
}

pub struct RuleJson {
    pub id: String,
    pub description: String,
    pub issue_type: String,
    pub category: CategoryJson,
}

pub struct MatchJson {
    pub message: String,
    pub short_message: String,
    pub replacements: Vec<Replacement>,
    pub offset: usize,
    pub length: usize,
    pub context: Context,
    pub sentence: String,
    pub rule: RuleJson,
}

/// The `/v2/check` response body.
pub struct CheckResponse {
    pub software: Software,
    pub language: LanguageInfo,
    pub matches: Vec<MatchJson>,
}

/// The JSON object of one match over a text of characters `chars`.
pub open spec fn match_json_ok(j: MatchJson, m: GrammarMatch, chars: Seq<char>) -> bool {
    let (ctx, ctx_off) = spec_context(chars, m.offset as int, m.length as int);
    &&& j.message@ == m.message@
    &&& j.short_message@ == Seq::<char>::empty()
    &&& j.replacements@.len() == m.replacements@.len()
    &&& forall|i: int| 0 <= i < j.replacements@.len() ==> (#[trigger] j.replacements@[i]).value@ == m.replacements@[i]@
    &&& j.offset == m.offset
    &&& j.length == m.length
    &&& j.context.text@ == ctx
    &&& j.context.offset == ctx_off
    &&& j.context.length == m.length
    &&& j.sentence@ == Seq::<char>::empty()
    &&& j.rule.id@ == m.rule_id@
    &&& j.rule.description@ == Seq::<char>::empty()
    &&& j.rule.issue_type@ == spec_issue_type(m.category_id@)
    &&& j.rule.category.id@ == m.category_id@
    &&& j.rule.category.name@ == m.category_id@
}

/// The match's span lies where a context window can be cut around it.
pub open spec fn context_fits(m: GrammarMatch, n: int) -> bool {
    m.offset + m.length + 20 <= usize::MAX && m.offset <= n + 20
}

/// Whether [`context_fits`] holds of a match over a text of `n` characters.
pub fn context_fits_exec(m: &GrammarMatch, n: usize) -> (r: bool)
    ensures
        r == context_fits(*m, n as int),
{
    let no_overflow = m.offset <= usize::MAX - 20 && m.length <= usize::MAX - 20 - m.offset;
    let within = if n > usize::MAX - 20 {
        true
    } else {
        m.offset <= n + 20
    };
    no_overflow && within
}

fn match_json(chars: &[char], m: &GrammarMatch) -> (r: MatchJson)
    requires
        context_fits(*m, chars@.len() as int),
    ensures
        match_json_ok(r, *m, chars@),
{
    let (context, ctx_off) = build_context(chars, m.offset, m.length);
    let mut replacements: Vec<Replacement> = Vec::new();
    let mut i: usize = 0;
    while i < m.replacements.len()
        invariant
            i <= m.replacements@.len(),
            replacements@.len() == i,
            forall|k: int| 0 <= k < i ==> (#[trigger] replacements@[k]).value@ == m.replacements@[k]@,
        decreases m.replacements.len() - i,
    {
        replacements.push(Replacement { value: m.replacements[i].clone() });
        i += 1;
    }
    MatchJson {
        message: m.message.clone(),
        short_message: String::new(),
        replacements,
        offset: m.offset,
        length: m.length,
        context: Context { text: context, offset: ctx_off, length: m.length },
        sentence: String::new(),
        rule: RuleJson {
            id: m.rule_id.clone(),
            description: String::new(),
            issue_type: issue_type_for(m.category_id.as_str()),
            category: CategoryJson { id: m.category_id.clone(), name: m.category_id.clone() },
        },
    }
}

impl CheckResponse {
    /// The response for the matches found in `text`; `version` is the
    /// server's version.
    pub fn build(text: &str, language: &str, matches: &[GrammarMatch], version: &str) -> (r: CheckResponse)
        requires
            forall|i: int| 0 <= i < matches@.len() ==> context_fits(#[trigger] matches@[i], text@.len() as int),
        ensures
            r.software.name@ == "emend-lt"@,
            r.software.version@ == version@,
            r.software.api_version == 1,
            !r.software.premium,
            r.software.status@ == Seq::<char>::empty(),
            r.language.name@ == "English (US)"@,
            r.language.code@ == language@,
            r.language.detected_language.name@ == "English (US)"@,
            r.language.detected_language.code@ == language@,
            r.matches@.len() == matches@.len(),
            forall|i: int| 0 <= i < matches@.len() ==> match_json_ok(#[trigger] r.matches@[i], matches@[i], text@),
    {
        let chars = str_chars(text);
        let mut out: Vec<MatchJson> = Vec::new();
        let mut i: usize = 0;
        while i < matches.len()
            invariant
                i <= matches@.len(),
                chars@ == text@,
                forall|k: int| 0 <= k < matches@.len() ==> context_fits(#[trigger] matches@[k], text@.len() as int),
                out@.len() == i,
                forall|k: int| 0 <= k < i ==> match_json_ok(#[trigger] out@[k], matches@[k], text@),
            decreases matches.len() - i,
        {
            let j = match_json(&chars, &matches[i]);
            out.push(j);
            i += 1;
        }
        CheckResponse {
            software: Software {
                name: "emend-lt".to_owned(),
                version: version.to_owned(),
                api_version: 1,
                premium: false,
                status: String::new(),
            },
            language: LanguageInfo {
                name: "English (US)".to_owned(),
                code: language.to_owned(),
                detected_language: DetectedLanguage {
                    name: "English (US)".to_owned(),
                    code: language.to_owned(),
                },
            },
            matches: out,
        }
    }
}

/// One entry of `/v2/languages`.
pub struct Language {
    pub name: String,
    pub code: String,
    pub long_code: String,
}

/// The supported languages: English, with `en` as an alias of `en-US`.
pub fn languages() -> (r: Vec<Language>)
    ensures
        r@.len() == 2,
        r@[0].name@ == "English"@ && r@[0].code@ == "en"@ && r@[0].long_code@ == "en"@,
        r@[1].name@ == "English (US)"@ && r@[1].code@ == "en"@ && r@[1].long_code@ == "en-US"@,
{
    let mut v: Vec<Language> = Vec::new();
    v.push(Language { name: "English".to_owned(), code: "en".to_owned(), long_code: "en".to_owned() });
    v.push(
        Language {
            name: "English (US)".to_owned(),
            code: "en".to_owned(),
            long_code: "en-US".to_owned(),
        },
    );
    v
}

} // verus!
