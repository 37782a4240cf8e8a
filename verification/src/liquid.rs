//! Parsing of one template file's text: quote normalization, directive
//! reference extraction (`render`, `include`, `section`), and extraction of
//! the metadata block between the schema markers.
//!
//! A directive is `{%`, then any run of whitespace or hyphens, then the
//! directive keyword, then at least one whitespace character, then a
//! single-quoted, non-empty identifier. The text is scanned left to right;
//! when a directive matches, scanning resumes after its closing quote, so
//! matches never overlap.

use vstd::prelude::*;

use crate::text::{
    chars_eq, chars_to_string, find_quote, is_space, matches_at, occurs_at, skip_space,
    skip_space_hyphen, str_to_chars, trim_chars, trim_spec,
};

verus! {

/// The decoded form of a metadata block. The block's structured content
/// carries no fields that reconciliation consumes, so the decoded form is
/// empty; only its presence is significant.
#[derive(Debug, Clone, Copy)]
pub struct LiquidSectionSchema {}

/// Everything extracted from one template file: its name and the
/// deduplicated references it makes, in first-occurrence order.
#[derive(Debug)]
pub struct LiquidFile {
    pub file_name: String,
    pub snippet_renders: Vec<String>,
    pub section_renders: Vec<String>,
    pub asset_renders: Vec<String>,
    pub schema: Option<LiquidSectionSchema>,
}

/// A double quote becomes a single quote; every other character is kept.
pub open spec fn norm_char(c: char) -> char {
    if c == '"' {
        '\''
    } else {
        c
    }
}

/// `s` with every double-quote character replaced by a single quote.
pub open spec fn normalize_text(s: Seq<char>) -> Seq<char> {
    s.map_values(|c: char| norm_char(c))
}

/// The result of one directive match attempt at index `i`: the captured
/// identifier and the index just after the closing quote, or `None` when no
/// directive for `kw` starts exactly at `i`.
pub open spec fn directive_match_at(s: Seq<char>, kw: Seq<char>, i: int) -> Option<(Seq<char>, int)> {
    if !(i + 2 <= s.len() && s[i] == '{' && s[i + 1] == '%') {
        None
    } else {
        let j = skip_space_hyphen(s, i + 2);
        if !occurs_at(s, j, kw) {
            None
        } else {
            let k = skip_space(s, j + kw.len());
            if !(k > j + kw.len() && k < s.len() && s[k] == '\'') {
                None
            } else {
                let m = find_quote(s, k + 1);
                if k + 1 < m < s.len() {
                    Some((s.subrange(k + 1, m), m + 1))
                } else {
                    None
                }
            }
        }
    }
}

/// All identifiers captured for `kw` from index `i` on, in match order and
/// with repetitions, scanning left to right and resuming after each match.
pub open spec fn directive_captures_from(s: Seq<char>, kw: Seq<char>, i: int) -> Seq<Seq<char>>
    decreases s.len() - i when 0 <= i
{
    if i >= s.len() {
        Seq::empty()
    } else {
        match directive_match_at(s, kw, i) {
            Some(cm) => {
                let next = if i < cm.1 <= s.len() {
                    cm.1
                } else {
                    i + 1
                };
                seq![cm.0] + directive_captures_from(s, kw, next)
            },
            None => directive_captures_from(s, kw, i + 1),
        }
    }
}

/// `acc` extended with the elements of `s` that are not yet present,
/// keeping first-occurrence order.
pub open spec fn dedup_from(s: Seq<Seq<char>>, acc: Seq<Seq<char>>) -> Seq<Seq<char>>
    decreases s.len(),
{
    if s.len() == 0 {
        acc
    } else if acc.contains(s[0]) {
        dedup_from(s.drop_first(), acc)
    } else {
        dedup_from(s.drop_first(), acc.push(s[0]))
    }
}

/// The deduplicated identifiers captured for `kw` over the whole of `s`,
/// in first-occurrence order.
pub open spec fn unique_captures(s: Seq<char>, kw: Seq<char>) -> Seq<Seq<char>> {
    dedup_from(directive_captures_from(s, kw, 0), Seq::empty())
}

/// Attempts a directive match for `kw` at index `i`, as `directive_match_at`
/// describes.
fn try_match(text: &Vec<char>, kw: &Vec<char>, i: usize) -> (r: Option<(Vec<char>, usize)>)
    requires
        i < text@.len(),
    ensures
        ({
            let m = directive_match_at(text@, kw@, i as int);
            match r {
                Some(p) => m matches Some(q) && p.0@ == q.0 && p.1 as int == q.1 && i < p.1
                    && p.1 <= text@.len(),
                None => m is None,
            }
        }),
{
    if i + 1 >= text.len() || text[i] != '{' || text[i + 1] != '%' {
        return None;
    }
    let mut j: usize = i + 2;
    while j < text.len() && (is_space(text[j]) || text[j] == '-')
        invariant
            i + 2 <= j <= text.len(),
            skip_space_hyphen(text@, i as int + 2) == skip_space_hyphen(text@, j as int),
        decreases text.len() - j,
    {
        assert(skip_space_hyphen(text@, j as int) == skip_space_hyphen(text@, j as int + 1));
        j = j + 1;
    }
    assert(skip_space_hyphen(text@, i as int + 2) == j as int);
    if !matches_at(text, j, kw) {
        return None;
    }
    let after_kw: usize = j + kw.len();
    let mut k: usize = after_kw;
    while k < text.len() && is_space(text[k])
        invariant
            after_kw <= k <= text.len(),
            skip_space(text@, after_kw as int) == skip_space(text@, k as int),
        decreases text.len() - k,
    {
        assert(skip_space(text@, k as int) == skip_space(text@, k as int + 1));
        k = k + 1;
    }
    assert(skip_space(text@, after_kw as int) == k as int);
    if !(k > after_kw && k < text.len()) {
        return None;
    }
    if text[k] != '\'' {
        return None;
    }
    let mut m: usize = k + 1;
    while m < text.len() && text[m] != '\''
        invariant
            k + 1 <= m <= text.len(),
            find_quote(text@, k as int + 1) == find_quote(text@, m as int),
        decreases text.len() - m,
    {
        assert(find_quote(text@, m as int) == find_quote(text@, m as int + 1));
        m = m + 1;
    }
    assert(find_quote(text@, k as int + 1) == m as int);
    if m >= text.len() || m == k + 1 {
        return None;
    }
    let mut cap: Vec<char> = Vec::new();
    let mut t: usize = k + 1;
    while t < m
        invariant
            k + 1 <= t <= m <= text@.len(),
            cap@ == text@.subrange(k as int + 1, t as int),
        decreases m - t,
    {
        cap.push(text[t]);
        t = t + 1;
        assert(cap@ =~= text@.subrange(k as int + 1, t as int));
    }
    Some((cap, m + 1))
}

/// Scans the whole of `text` for `kw` directives and returns the captured
/// identifiers, deduplicated in first-occurrence order.
fn scan_directives(text: &Vec<char>, kw: &Vec<char>) -> (r: Vec<Vec<char>>)
    ensures
        r.deep_view() == unique_captures(text@, kw@),
{
    let mut out: Vec<Vec<char>> = Vec::new();
    let mut i: usize = 0;
    assert(out.deep_view() =~= Seq::<Seq<char>>::empty());
    while i < text.len()
        invariant
            i <= text.len(),
            dedup_from(directive_captures_from(text@, kw@, 0), Seq::empty()) == dedup_from(
                directive_captures_from(text@, kw@, i as int),
                out.deep_view(),
            ),
        decreases text.len() - i,
    {
        let ghost caps_here = directive_captures_from(text@, kw@, i as int);
        match try_match(text, kw, i) {
            Some((cap, end)) => {
                proof {
                    let q = directive_match_at(text@, kw@, i as int)->Some_0;
                    assert(caps_here == seq![q.0] + directive_captures_from(
                        text@,
                        kw@,
                        end as int,
                    ));
                    assert(caps_here[0] == q.0);
                    assert(caps_here.drop_first() =~= directive_captures_from(
                        text@,
                        kw@,
                        end as int,
                    ));
                    assert(cap.deep_view() =~= cap@);
                }
                if contains_chars(&out, &cap) {
                    proof {
                        assert(out.deep_view().contains(caps_here[0]));
                    }
                } else {
                    let ghost old_dv = out.deep_view();
                    out.push(cap);
                    proof {
                        assert(out.deep_view() =~= old_dv.push(caps_here[0]));
                    }
                }
                i = end;
            },
            None => {
                proof {
                    assert(caps_here == directive_captures_from(text@, kw@, i as int + 1));
                }
                i = i + 1;
            },
        }
    }
    proof {
        assert(directive_captures_from(text@, kw@, i as int) =~= Seq::<Seq<char>>::empty());
        assert(dedup_from(Seq::empty(), out.deep_view()) == out.deep_view());
    }
    out
}

/// Whether `v` already holds the characters of `x` as one of its elements.
fn contains_chars(v: &Vec<Vec<char>>, x: &Vec<char>) -> (r: bool)
    ensures
        r == v.deep_view().contains(x@),
{
    let mut t: usize = 0;
    while t < v.len()
        invariant
            t <= v.len(),
            forall|u: int| 0 <= u < t ==> v.deep_view()[u] != x@,
        decreases v.len() - t,
    {
        proof {
            assert(v.deep_view()[t as int] =~= v@[t as int]@);
        }
        if chars_eq(&v[t], x) {
            proof {
                assert(v.deep_view().contains(x@)) by {
                    assert(v.deep_view()[t as int] == x@);
                }
            }
            return true;
        }
        t = t + 1;
    }
    proof {
        if v.deep_view().contains(x@) {
            let w = choose|w: int| 0 <= w < v.deep_view().len() && v.deep_view()[w] == x@;
            assert(v.deep_view()[w] != x@);
        }
    }
    false
}

/// Replaces every double quote with a single quote, character by character.
fn normalize_chars(chars: &Vec<char>) -> (r: Vec<char>)
    ensures
        r@ == normalize_text(chars@),
{
    let mut out: Vec<char> = Vec::new();
    let mut i: usize = 0;
    while i < chars.len()
        invariant
            i <= chars.len(),
            out@.len() == i,
            forall|t: int| 0 <= t < i ==> out@[t] == norm_char(chars@[t]),
        decreases chars.len() - i,
    {
        let c = chars[i];
        if c == '"' {
            out.push('\'');
        } else {
            out.push(c);
        }
        i = i + 1;
    }
    assert(out@ =~= normalize_text(chars@));
    out
}

/// The keyword of the schema-open marker.
pub open spec fn schema_kw() -> Seq<char> {
    "schema"@
}

/// The keyword of the schema-close marker.
pub open spec fn endschema_kw() -> Seq<char> {
    "endschema"@
}

/// The index just after a `{% <word> %}` marker starting exactly at `i`
/// (any run of whitespace around the word), or `None` when none starts
/// there.
pub open spec fn marker_end_at(s: Seq<char>, i: int, word: Seq<char>) -> Option<int> {
    if !(i + 2 <= s.len() && s[i] == '{' && s[i + 1] == '%') {
        None
    } else {
        let j = skip_space(s, i + 2);
        if !occurs_at(s, j, word) {
            None
        } else {
            let k = skip_space(s, j + word.len());
            if k + 2 <= s.len() && s[k] == '%' && s[k + 1] == '}' {
                Some(k + 2)
            } else {
                None
            }
        }
    }
}

/// The first index at or after `q` where the schema-close marker starts,
/// provided no newline comes before it; `None` when a newline or the end of
/// the text is reached first. The block's interior may not span lines.
pub open spec fn find_close(s: Seq<char>, q: int) -> Option<int>
    decreases s.len() - q when 0 <= q <= s.len()
{
    if marker_end_at(s, q, endschema_kw()) is Some {
        Some(q)
    } else if q >= s.len() {
        None
    } else if s[q] == '\n' {
        None
    } else {
        find_close(s, q + 1)
    }
}

/// The interior of a schema block whose open marker starts exactly at `i`:
/// the shortest single-line stretch between the open marker's end and a
/// close marker.
pub open spec fn schema_match_at(s: Seq<char>, i: int) -> Option<Seq<char>> {
    match marker_end_at(s, i, schema_kw()) {
        None => None,
        Some(p) => if 0 <= p <= s.len() {
            match find_close(s, p) {
                None => None,
                Some(q) => if p <= q { Some(s.subrange(p, q)) } else { None },
            }
        } else {
            None
        },
    }
}

/// The interior of the leftmost schema block starting at or after `i`.
pub open spec fn schema_capture_from(s: Seq<char>, i: int) -> Option<Seq<char>>
    decreases s.len() - i when 0 <= i
{
    if i >= s.len() {
        None
    } else {
        match schema_match_at(s, i) {
            Some(c) => Some(c),
            None => schema_capture_from(s, i + 1),
        }
    }
}

/// The interior of the leftmost schema block of `s`, or `None` when `s`
/// holds no complete single-line block.
pub open spec fn schema_capture(s: Seq<char>) -> Option<Seq<char>> {
    schema_capture_from(s, 0)
}

/// Attempts a `{% <word> %}` marker match at index `i`, as `marker_end_at`
/// describes.
fn try_marker(text: &Vec<char>, word: &Vec<char>, i: usize) -> (r: Option<usize>)
    requires
        i <= text@.len(),
    ensures
        ({
            let m = marker_end_at(text@, i as int, word@);
            match r {
                Some(p) => m == Some(p as int) && i < p <= text@.len(),
                None => m is None,
            }
        }),
{
    if text.len() - i < 2 || text[i] != '{' || text[i + 1] != '%' {
        return None;
    }
    let mut j: usize = i + 2;
    while j < text.len() && is_space(text[j])
        invariant
            i + 2 <= j <= text.len(),
            skip_space(text@, i as int + 2) == skip_space(text@, j as int),
        decreases text.len() - j,
    {
        assert(skip_space(text@, j as int) == skip_space(text@, j as int + 1));
        j = j + 1;
    }
    assert(skip_space(text@, i as int + 2) == j as int);
    if !matches_at(text, j, word) {
        return None;
    }
    let after: usize = j + word.len();
    let mut k: usize = after;
    while k < text.len() && is_space(text[k])
        invariant
            after <= k <= text.len(),
            skip_space(text@, after as int) == skip_space(text@, k as int),
        decreases text.len() - k,
    {
        assert(skip_space(text@, k as int) == skip_space(text@, k as int + 1));
        k = k + 1;
    }
    assert(skip_space(text@, after as int) == k as int);
    if text.len() - k < 2 {
        return None;
    }
    if text[k] != '%' || text[k + 1] != '}' {
        return None;
    }
    Some(k + 2)
}

/// Finds the close marker for a block whose interior starts at `q0`, as
/// `find_close` describes.
fn find_close_from(text: &Vec<char>, end_word: &Vec<char>, q0: usize) -> (r: Option<usize>)
    requires
        q0 <= text@.len(),
        end_word@ == endschema_kw(),
    ensures
        ({
            let m = find_close(text@, q0 as int);
            match r {
                Some(q) => m == Some(q as int) && q0 <= q <= text@.len(),
                None => m is None,
            }
        }),
{
    let mut q: usize = q0;
    loop
        invariant
            q0 <= q <= text.len(),
            find_close(text@, q0 as int) == find_close(text@, q as int),
        decreases text.len() - q,
    {
        if let Some(_p) = try_marker(text, end_word, q) {
            return Some(q);
        }
        if q >= text.len() {
            return None;
        }
        if text[q] == '\n' {
            return None;
        }
        assert(find_close(text@, q as int) == find_close(text@, q as int + 1));
        q = q + 1;
    }
}

/// Finds the leftmost schema block of `text` and returns the bounds of its
/// interior.
fn find_schema(text: &Vec<char>) -> (r: Option<(usize, usize)>)
    ensures
        ({
            let m = schema_capture(text@);
            match r {
                Some(pq) => m matches Some(c) && pq.0 <= pq.1 <= text@.len() && c
                    == text@.subrange(pq.0 as int, pq.1 as int),
                None => m is None,
            }
        }),
{
    let schema_word = str_to_chars("schema");
    let end_word = str_to_chars("endschema");
    let mut i: usize = 0;
    while i < text.len()
        invariant
            i <= text.len(),
            schema_word@ == schema_kw(),
            end_word@ == endschema_kw(),
            schema_capture(text@) == schema_capture_from(text@, i as int),
        decreases text.len() - i,
    {
        if let Some(p) = try_marker(text, &schema_word, i) {
            match find_close_from(text, &end_word, p) {
                Some(q) => {
                    return Some((p, q));
                },
                None => {
                    assert(schema_match_at(text@, i as int) is None);
                    i = i + 1;
                },
            }
        } else {
            assert(schema_match_at(text@, i as int) is None);
            i = i + 1;
        }
    }
    None
}

/// The trimmed interior of the leftmost schema block of `content`, when one
/// is present.
pub fn extract_schema(content: &str) -> (r: Option<String>)
    ensures
        ({
            let m = schema_capture(content@);
            match r {
                Some(t) => m matches Some(c) && t@ == trim_spec(c),
                None => m is None,
            }
        }),
{
    let chars = str_to_chars(content);
    match find_schema(&chars) {
        None => None,
        Some((p, q)) => {
            let mut interior: Vec<char> = Vec::new();
            let mut t: usize = p;
            while t < q
                invariant
                    p <= t <= q <= chars@.len(),
                    interior@ == chars@.subrange(p as int, t as int),
                decreases q - t,
            {
                interior.push(chars[t]);
                t = t + 1;
                assert(interior@ =~= chars@.subrange(p as int, t as int));
            }
            let trimmed = trim_chars(&interior);
            Some(chars_to_string(&trimmed))
        },
    }
}

/// Whether `serde_json` decodes a text as a JSON mapping.
pub uninterp spec fn json_mapping_text(s: Seq<char>) -> bool;

/// Relies on `serde_json::from_str` decoding a `serde_json::Map`: whether
/// the text decodes depends on the text alone. The decoded value itself is
/// discarded; a decode failure yields the same default metadata, so only
/// presence is significant.
#[verifier::external_body]
fn decode_schema_object(s: &str) -> (r: Option<LiquidSectionSchema>)
    ensures
        (r is Some) == json_mapping_text(s@),
{
    serde_json::from_str::<serde_json::Map<String, serde_json::Value>>(s).ok().map(
        |_| LiquidSectionSchema {  },
    )
}

/// Decodes the metadata block of `content`, when one is present. A block
/// whose interior is not well-formed structured data still yields the
/// default metadata value: a decode failure is non-fatal and silent.
pub fn parse_schema(content: &str) -> (r: Option<LiquidSectionSchema>)
    ensures
        (r is Some) == (schema_capture(content@) is Some),
{
    match extract_schema(content) {
        None => None,
        Some(interior) => match decode_schema_object(interior.as_str()) {
            Some(schema) => Some(schema),
            None => Some(LiquidSectionSchema {  }),
        },
    }
}

/// Every double-quote character of `code` replaced by a single quote: the
/// compatibility step applied before directive matching.
pub fn normalize_quotes(code: &str) -> (r: String)
    ensures
        r@ == normalize_text(code@),
{
    let chars = str_to_chars(code);
    let normalized = normalize_chars(&chars);
    chars_to_string(&normalized)
}

/// Converts captured identifiers into strings, one per capture.
fn strings_of(caps: &Vec<Vec<char>>) -> (r: Vec<String>)
    ensures
        r.deep_view() == caps.deep_view(),
{
    let mut r: Vec<String> = Vec::new();
    let mut t: usize = 0;
    while t < caps.len()
        invariant
            t <= caps.len(),
            r@.len() == t,
            forall|u: int| 0 <= u < t ==> r@[u]@ == caps@[u]@,
        decreases caps.len() - t,
    {
        r.push(chars_to_string(&caps[t]));
        t = t + 1;
    }
    proof {
        assert forall|u: int| 0 <= u < caps@.len() implies r.deep_view()[u]
            == caps.deep_view()[u] by {
            assert(caps.deep_view()[u] =~= caps@[u]@);
        }
        assert(r.deep_view() =~= caps.deep_view());
    }
    r
}

/// What `parse_liquid_file` extracts from `code` under the name
/// `file_name`: the file name is kept; each directive family's deduplicated
/// captures, matched against the quote-normalized text, fill exactly one
/// output set (`render` to fragments, `include` to assets, `section` to
/// sections); the metadata value is present exactly when the raw text holds
/// a schema block.
pub open spec fn extraction_result(r: LiquidFile, file_name: Seq<char>, code: Seq<char>) -> bool {
    &&& r.file_name@ == file_name
    &&& r.snippet_renders.deep_view() == unique_captures(normalize_text(code), "render"@)
    &&& r.asset_renders.deep_view() == unique_captures(normalize_text(code), "include"@)
    &&& r.section_renders.deep_view() == unique_captures(normalize_text(code), "section"@)
    &&& (r.schema is Some) == (schema_capture(code) is Some)
}

/// Parses one template file's text into the references it makes and its
/// optional metadata block, as `extraction_result` describes.
pub fn parse_liquid_file(file_name: &str, code: &str) -> (r: LiquidFile)
    ensures
        extraction_result(r, file_name@, code@),
{
    let schema = parse_schema(code);
    let chars = str_to_chars(code);
    let normalized = normalize_chars(&chars);
    let render_kw = str_to_chars("render");
    let include_kw = str_to_chars("include");
    let section_kw = str_to_chars("section");
    let snippet_caps = scan_directives(&normalized, &render_kw);
    let asset_caps = scan_directives(&normalized, &include_kw);
    let section_caps = scan_directives(&normalized, &section_kw);
    LiquidFile {
        file_name: file_name.to_owned(),
        snippet_renders: strings_of(&snippet_caps),
        section_renders: strings_of(&section_caps),
        asset_renders: strings_of(&asset_caps),
        schema,
    }
}

/// `dedup_from` keeps an element exactly when it stands in the input or in
/// the accumulator, never repeats one, and only extends the accumulator.
proof fn lemma_dedup_from(s: Seq<Seq<char>>, acc: Seq<Seq<char>>)
    requires
        forall|i: int, j: int| 0 <= i < j < acc.len() ==> acc[i] != acc[j],
    ensures
        forall|x: Seq<char>| #[trigger] dedup_from(s, acc).contains(x) <==> (s.contains(x)
            || acc.contains(x)),
        forall|i: int, j: int|
            0 <= i < j < dedup_from(s, acc).len() ==> dedup_from(s, acc)[i] != dedup_from(
                s,
                acc,
            )[j],
    decreases s.len(),
{
    if s.len() == 0 {
        assert forall|x: Seq<char>| #[trigger] dedup_from(s, acc).contains(x) implies (s.contains(
            x,
        ) || acc.contains(x)) by {}
    } else if acc.contains(s[0]) {
        lemma_dedup_from(s.drop_first(), acc);
        assert forall|i: int, j: int|
            0 <= i < j < dedup_from(s, acc).len() implies dedup_from(s, acc)[i] != dedup_from(
            s,
            acc,
        )[j] by {
            assert(dedup_from(s.drop_first(), acc)[i] != dedup_from(s.drop_first(), acc)[j]);
        }
        assert forall|x: Seq<char>| (s.contains(x) || acc.contains(x)) implies #[trigger]
            dedup_from(s, acc).contains(x) by {
            assert(dedup_from(s.drop_first(), acc).contains(x) <==> (s.drop_first().contains(x)
                || acc.contains(x)));
            if s.contains(x) && !acc.contains(x) {
                let w = choose|w: int| 0 <= w < s.len() && s[w] == x;
                assert(w != 0);
                assert(s.drop_first()[w - 1] == x);
                assert(s.drop_first().contains(x));
            }
        }
        assert forall|x: Seq<char>| #[trigger] dedup_from(s, acc).contains(x) implies (s.contains(
            x,
        ) || acc.contains(x)) by {
            assert(dedup_from(s.drop_first(), acc).contains(x) <==> (s.drop_first().contains(x)
                || acc.contains(x)));
            if s.drop_first().contains(x) {
                let w = choose|w: int| 0 <= w < s.drop_first().len() && s.drop_first()[w] == x;
                assert(s[w + 1] == x);
            }
        }
    } else {
        let acc2 = acc.push(s[0]);
        assert forall|i: int, j: int| 0 <= i < j < acc2.len() implies acc2[i] != acc2[j] by {
            if j == acc2.len() - 1 {
                assert(acc2[j] == s[0]);
                assert(acc[i] == acc2[i]);
                assert(acc.contains(acc[i]));
            }
        }
        lemma_dedup_from(s.drop_first(), acc2);
        assert forall|i: int, j: int|
            0 <= i < j < dedup_from(s, acc).len() implies dedup_from(s, acc)[i] != dedup_from(
            s,
            acc,
        )[j] by {
            assert(dedup_from(s.drop_first(), acc2)[i] != dedup_from(s.drop_first(), acc2)[j]);
        }
        assert forall|x: Seq<char>| (s.contains(x) || acc.contains(x)) implies #[trigger]
            dedup_from(s, acc).contains(x) by {
            assert(dedup_from(s.drop_first(), acc2).contains(x) <==> (s.drop_first().contains(x)
                || acc2.contains(x)));
            if acc.contains(x) {
                let w = choose|w: int| 0 <= w < acc.len() && acc[w] == x;
                assert(acc2[w] == x);
                assert(acc2.contains(x));
            } else if x == s[0] {
                assert(acc2[acc.len() as int] == x);
                assert(acc2.contains(x));
            } else {
                let w = choose|w: int| 0 <= w < s.len() && s[w] == x;
                assert(w != 0);
                assert(s.drop_first()[w - 1] == x);
                assert(s.drop_first().contains(x));
            }
        }
        assert forall|x: Seq<char>| #[trigger] dedup_from(s, acc).contains(x) implies (s.contains(
            x,
        ) || acc.contains(x)) by {
            assert(dedup_from(s.drop_first(), acc2).contains(x) <==> (s.drop_first().contains(x)
                || acc2.contains(x)));
            if s.drop_first().contains(x) {
                let w = choose|w: int| 0 <= w < s.drop_first().len() && s.drop_first()[w] == x;
                assert(s[w + 1] == x);
            } else if acc2.contains(x) {
                let w = choose|w: int| 0 <= w < acc2.len() && acc2[w] == x;
                if w < acc.len() {
                    assert(acc[w] == x);
                } else {
                    assert(x == s[0]);
                    assert(s.contains(s[0]));
                }
            }
        }
    }
}

/// An identifier stands in the extracted set exactly when some directive
/// match captures it, and it stands there at most once, however often the
/// source text repeats it.
pub proof fn lemma_unique_captures(s: Seq<char>, kw: Seq<char>)
    ensures
        forall|x: Seq<char>| #[trigger] unique_captures(s, kw).contains(x)
            <==> directive_captures_from(s, kw, 0).contains(x),
        forall|i: int, j: int|
            0 <= i < j < unique_captures(s, kw).len() ==> unique_captures(s, kw)[i]
                != unique_captures(s, kw)[j],
{
    lemma_dedup_from(directive_captures_from(s, kw, 0), Seq::empty());
}

/// A match reached by the scan is captured: when every position before `i`
/// starts no match, the identifier matched at `i` stands in the captures.
proof fn lemma_match_from_start_captured(s: Seq<char>, kw: Seq<char>, a: int, i: int)
    requires
        0 <= a <= i,
        directive_match_at(s, kw, i) is Some,
        forall|j: int| a <= j < i ==> directive_match_at(s, kw, j) is None,
    ensures
        directive_captures_from(s, kw, a).contains(directive_match_at(s, kw, i)->Some_0.0),
    decreases i - a,
{
    let x = directive_match_at(s, kw, i)->Some_0.0;
    assert(i < s.len());
    if a == i {
        let cm = directive_match_at(s, kw, a)->Some_0;
        let next = if a < cm.1 <= s.len() {
            cm.1
        } else {
            a + 1
        };
        let full = seq![cm.0] + directive_captures_from(s, kw, next);
        assert(directive_captures_from(s, kw, a) == full);
        assert(full[0] == x);
    } else {
        lemma_match_from_start_captured(s, kw, a + 1, i);
        assert(directive_captures_from(s, kw, a) == directive_captures_from(s, kw, a + 1));
    }
}

/// A directive that no earlier position starts a match over — in
/// particular the leftmost directive of a text — is always captured: its
/// identifier stands in the extracted set, exactly once.
pub proof fn lemma_first_directive_captured(s: Seq<char>, kw: Seq<char>, i: int)
    requires
        0 <= i,
        directive_match_at(s, kw, i) is Some,
        forall|j: int| 0 <= j < i ==> directive_match_at(s, kw, j) is None,
    ensures
        unique_captures(s, kw).contains(directive_match_at(s, kw, i)->Some_0.0),
{
    lemma_match_from_start_captured(s, kw, 0, i);
    lemma_unique_captures(s, kw);
}

/// Normalization never corrupts a text that already uses single quotes: a
/// text with no double-quote character is returned unchanged.
pub proof fn lemma_normalize_no_double_quotes(s: Seq<char>)
    requires
        forall|i: int| 0 <= i < s.len() ==> s[i] != '"',
    ensures
        normalize_text(s) == s,
{
    assert(normalize_text(s) =~= s);
}

/// Normalization is idempotent: a second pass changes nothing, so directive
/// detection is insensitive to which quote character the source used.
pub proof fn lemma_normalize_idempotent(s: Seq<char>)
    ensures
        normalize_text(normalize_text(s)) == normalize_text(s),
{
    assert(normalize_text(normalize_text(s)) =~= normalize_text(s));
}

/// Two texts that differ only in which quote character they use normalize
/// to the same text, so every directive family extracts the same
/// identifiers from both.
pub proof fn lemma_quote_style_irrelevant(s1: Seq<char>, s2: Seq<char>)
    requires
        s1.len() == s2.len(),
        forall|i: int| 0 <= i < s1.len() ==> norm_char(s1[i]) == norm_char(s2[i]),
    ensures
        normalize_text(s1) == normalize_text(s2),
{
    assert(normalize_text(s1) =~= normalize_text(s2));
}

/// Extraction is a pure function of its input: two parses of the same text
/// under the same name agree on every output set, so running the extraction
/// twice yields identical sets.
pub proof fn lemma_extraction_deterministic(
    a: LiquidFile,
    b: LiquidFile,
    file_name: Seq<char>,
    code: Seq<char>,
)
    requires
        extraction_result(a, file_name, code),
        extraction_result(b, file_name, code),
    ensures
        a.file_name@ == b.file_name@,
        a.snippet_renders.deep_view() == b.snippet_renders.deep_view(),
        a.section_renders.deep_view() == b.section_renders.deep_view(),
        a.asset_renders.deep_view() == b.asset_renders.deep_view(),
        (a.schema is Some) == (b.schema is Some),
{
}

} // verus!
