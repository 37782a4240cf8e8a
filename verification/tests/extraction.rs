use theme_cleaner::liquid::{extract_schema, normalize_quotes, parse_liquid_file, parse_schema};

#[test]
fn render_directive_captured_once_despite_repetition() {
    let f = parse_liquid_file("a.liquid", "{% render 'x' %} text {% render 'x' %}");
    assert_eq!(f.snippet_renders, vec!["x".to_string()]);
    assert!(f.section_renders.is_empty());
    assert!(f.asset_renders.is_empty());
}

#[test]
fn render_directive_trim_variant() {
    let f = parse_liquid_file("a.liquid", "{%- render 'x' %} and {%-  render 'y' -%}");
    assert_eq!(f.snippet_renders, vec!["x".to_string(), "y".to_string()]);
}

#[test]
fn double_quoted_directive_detected() {
    let f = parse_liquid_file("a.liquid", "{% render \"hero-banner\" %}");
    assert_eq!(f.snippet_renders, vec!["hero-banner".to_string()]);
}

#[test]
fn single_quoted_directive_not_corrupted_by_normalization() {
    let f = parse_liquid_file("a.liquid", "{% render 'hero-banner' %}");
    assert_eq!(f.snippet_renders, vec!["hero-banner".to_string()]);
}

#[test]
fn each_directive_family_fills_its_own_set() {
    let code = "{% render 'frag' %} {% include 'asset' %} {% section 'sec' %}";
    let f = parse_liquid_file("page.liquid", code);
    assert_eq!(f.file_name, "page.liquid");
    assert_eq!(f.snippet_renders, vec!["frag".to_string()]);
    assert_eq!(f.asset_renders, vec!["asset".to_string()]);
    assert_eq!(f.section_renders, vec!["sec".to_string()]);
}

#[test]
fn extraction_is_idempotent() {
    let code = "{% render 'a' %} {% section 'b' %} {% include 'c' %} {% render 'a' %}";
    let first = parse_liquid_file("t.liquid", code);
    let second = parse_liquid_file("t.liquid", code);
    assert_eq!(first.file_name, second.file_name);
    assert_eq!(first.snippet_renders, second.snippet_renders);
    assert_eq!(first.section_renders, second.section_renders);
    assert_eq!(first.asset_renders, second.asset_renders);
    assert_eq!(first.schema.is_some(), second.schema.is_some());
}

#[test]
fn unterminated_or_empty_identifiers_are_not_captured() {
    let f = parse_liquid_file("a.liquid", "{% render '' %} {% render 'open");
    assert!(f.snippet_renders.is_empty());
}

#[test]
fn identifier_keeps_inner_characters_up_to_closing_quote() {
    let f = parse_liquid_file("a.liquid", "{% render 'a b' %}");
    assert_eq!(f.snippet_renders, vec!["a b".to_string()]);
}

#[test]
fn normalize_quotes_swaps_double_for_single() {
    assert_eq!(normalize_quotes("a\"b'c\""), "a'b'c'");
    assert_eq!(normalize_quotes("plain"), "plain");
}

#[test]
fn schema_block_extracted_and_trimmed() {
    let code = "before {% schema %}  {\"name\": \"hero\"}  {% endschema %} after";
    assert_eq!(extract_schema(code), Some("{\"name\": \"hero\"}".to_string()));
}

#[test]
fn schema_block_spanning_lines_is_not_matched() {
    let code = "{% schema %}\n{}\n{% endschema %}";
    assert_eq!(extract_schema(code), None);
    assert!(parse_schema(code).is_none());
}

#[test]
fn parse_schema_present_for_valid_and_invalid_interiors() {
    assert!(parse_schema("{% schema %}{\"a\": 1}{% endschema %}").is_some());
    assert!(parse_schema("{% schema %} not json at all {% endschema %}").is_some());
    assert!(parse_schema("no block here").is_none());
}

#[test]
fn malformed_metadata_does_not_stop_reference_extraction() {
    let code = "{% schema %} {invalid json! {% endschema %} {% render 'used' %} {% section 'sec' %}";
    let f = parse_liquid_file("s.liquid", code);
    assert!(f.schema.is_some());
    assert_eq!(f.snippet_renders, vec!["used".to_string()]);
    assert_eq!(f.section_renders, vec!["sec".to_string()]);
}

#[test]
fn scan_is_leftmost_and_resumes_after_each_match() {
    // The first directive's identifier capture runs to the next quote, and
    // scanning resumes after it, so the nested-looking directive is part of
    // the first capture rather than a match of its own.
    let f = parse_liquid_file("a.liquid", "{% render 'a{% render 'x' %}");
    assert_eq!(f.snippet_renders, vec!["a{% render ".to_string()]);
}

#[test]
fn unicode_whitespace_accepted_inside_directive() {
    let f = parse_liquid_file("a.liquid", "{%\u{a0}render\u{2009}'x' %}");
    assert_eq!(f.snippet_renders, vec!["x".to_string()]);
}

#[test]
fn directives_inside_comments_still_count() {
    let code = "{% comment %} {% render 'still-counted' %} {% endcomment %}";
    let f = parse_liquid_file("c.liquid", code);
    assert_eq!(f.snippet_renders, vec!["still-counted".to_string()]);
}
