use emend_lt::response::{build_context, issue_type_for, split_csv};

#[test]
fn split_csv_trims_and_drops_empties() {
    let got = split_csv(&Some(" A, B ,,C ".to_string()));
    assert!(got.contains("A") && got.contains("B") && got.contains("C"));
    assert_eq!(got.len(), 3);
    assert!(split_csv(&None).is_empty());
}

#[test]
fn split_csv_counts_repeats_once() {
    let got = split_csv(&Some("X,X, X".to_string()));
    assert_eq!(got.len(), 1);
}

#[test]
fn context_windows_and_ellipsises() {
    let chars: Vec<char> = "x".repeat(100).chars().collect();
    let (ctx, off) = build_context(&chars, 50, 3);
    assert!(ctx.starts_with("...") && ctx.ends_with("..."));
    assert_eq!(&ctx[off..off + 3], "xxx");
    assert_eq!(off, 23);
    assert_eq!(ctx.len(), 3 + 43 + 3);
}

#[test]
fn context_at_start_has_no_leading_ellipsis() {
    let chars: Vec<char> = "hello world".chars().collect();
    let (ctx, off) = build_context(&chars, 0, 5);
    assert!(!ctx.starts_with("..."));
    assert_eq!(off, 0);
    assert_eq!(&ctx[..5], "hello");
}

#[test]
fn issue_type_maps_known_categories() {
    assert_eq!(issue_type_for("TYPOS"), "misspelling");
    assert_eq!(issue_type_for("GRAMMAR"), "grammar");
    assert_eq!(issue_type_for("SOMETHING_ELSE"), "uncategorized");
    assert_eq!(issue_type_for("PUNCTUATION"), "typographical");
}

use emend_lt::grammar::GrammarMatch;
use emend_lt::response::{context_fits_exec, languages, CheckResponse};

fn gm(offset: usize, length: usize) -> GrammarMatch {
    GrammarMatch {
        offset,
        length,
        message: "Did you mean the?".to_string(),
        replacements: vec!["the".to_string(), "tea".to_string()],
        rule_id: "TEH".to_string(),
        category_id: "TYPOS".to_string(),
    }
}

#[test]
fn response_carries_each_match() {
    let text = "I saw teh cat.";
    let r = CheckResponse::build(text, "en-US", &[gm(6, 3)], "1.2.3");
    assert_eq!(r.software.name, "emend-lt");
    assert_eq!(r.software.version, "1.2.3");
    assert_eq!(r.software.api_version, 1);
    assert!(!r.software.premium);
    assert_eq!(r.language.name, "English (US)");
    assert_eq!(r.language.code, "en-US");
    assert_eq!(r.language.detected_language.code, "en-US");
    assert_eq!(r.matches.len(), 1);
    let m = &r.matches[0];
    assert_eq!(m.message, "Did you mean the?");
    assert_eq!(m.short_message, "");
    assert_eq!(m.offset, 6);
    assert_eq!(m.length, 3);
    let vals: Vec<&str> = m.replacements.iter().map(|x| x.value.as_str()).collect();
    assert_eq!(vals, vec!["the", "tea"]);
    assert_eq!(m.context.text, "I saw teh cat.");
    assert_eq!(m.context.offset, 6);
    assert_eq!(m.context.length, 3);
    assert_eq!(m.rule.id, "TEH");
    assert_eq!(m.rule.issue_type, "misspelling");
    assert_eq!(m.rule.category.id, "TYPOS");
    assert_eq!(m.rule.category.name, "TYPOS");
}

#[test]
fn context_shows_the_matched_text() {
    let text: Vec<char> = "Some long sentence with a mistake in the middle of many words here.".chars().collect();
    let (ctx, off) = build_context(&text, 26, 7);
    let shown: String = ctx.chars().skip(off).take(7).collect();
    assert_eq!(shown, "mistake");
    assert!(ctx.chars().count() <= 7 + 46);
    assert_eq!(ctx, "...ong sentence with a mistake in the middle of ma...");
}

#[test]
fn context_fit_checks() {
    assert!(context_fits_exec(&gm(6, 3), 14));
    assert!(context_fits_exec(&gm(30, 3), 14));
    assert!(!context_fits_exec(&gm(40, 3), 14));
    assert!(!context_fits_exec(&gm(usize::MAX - 5, 1), usize::MAX));
}

#[test]
fn languages_list_english() {
    let l = languages();
    assert_eq!(l.len(), 2);
    assert_eq!((l[0].name.as_str(), l[0].code.as_str(), l[0].long_code.as_str()), ("English", "en", "en"));
    assert_eq!(
        (l[1].name.as_str(), l[1].code.as_str(), l[1].long_code.as_str()),
        ("English (US)", "en", "en-US")
    );
}
