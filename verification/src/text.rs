//! Character-level text utilities shared by the directive scanner and the
//! identifier derivation: whitespace classification, substring matching,
//! trimming, pattern removal, and base-name extraction.

use vstd::prelude::*;

verus! {

/// The characters with the Unicode `White_Space` property; this is the set
/// that both `char::is_whitespace` and the `\s` character class recognize.
pub open spec fn is_space_char(c: char) -> bool {
    ||| c == ' '
    ||| c == '\t'
    ||| c == '\n'
    ||| c == '\u{b}'
    ||| c == '\u{c}'
    ||| c == '\r'
    ||| c == '\u{85}'
    ||| c == '\u{a0}'
    ||| c == '\u{1680}'
    ||| c == '\u{2000}'
    ||| c == '\u{2001}'
    ||| c == '\u{2002}'
    ||| c == '\u{2003}'
    ||| c == '\u{2004}'
    ||| c == '\u{2005}'
    ||| c == '\u{2006}'
    ||| c == '\u{2007}'
    ||| c == '\u{2008}'
    ||| c == '\u{2009}'
    ||| c == '\u{200a}'
    ||| c == '\u{2028}'
    ||| c == '\u{2029}'
    ||| c == '\u{202f}'
    ||| c == '\u{205f}'
    ||| c == '\u{3000}'
}

pub fn is_space(c: char) -> (r: bool)
    ensures
        r == is_space_char(c),
{
    c == ' ' || c == '\t' || c == '\n' || c == '\u{b}' || c == '\u{c}' || c == '\r'
        || c == '\u{85}' || c == '\u{a0}' || c == '\u{1680}' || c == '\u{2000}' || c == '\u{2001}'
        || c == '\u{2002}' || c == '\u{2003}' || c == '\u{2004}' || c == '\u{2005}'
        || c == '\u{2006}' || c == '\u{2007}' || c == '\u{2008}' || c == '\u{2009}'
        || c == '\u{200a}' || c == '\u{2028}' || c == '\u{2029}' || c == '\u{202f}'
        || c == '\u{205f}' || c == '\u{3000}'
}

/// The pattern `pat` occurs in `s` starting at index `i`.
pub open spec fn occurs_at(s: Seq<char>, i: int, pat: Seq<char>) -> bool {
    0 <= i && i + pat.len() <= s.len() && s.subrange(i, i + pat.len()) == pat
}

/// First index at or after `i` whose character is neither whitespace nor a
/// hyphen; `s.len()` if every remaining character is.
pub open spec fn skip_space_hyphen(s: Seq<char>, i: int) -> int
    decreases s.len() - i when 0 <= i <= s.len()
{
    if i >= s.len() {
        s.len() as int
    } else if is_space_char(s[i]) || s[i] == '-' {
        skip_space_hyphen(s, i + 1)
    } else {
        i
    }
}

/// First index at or after `i` whose character is not whitespace; `s.len()`
/// if every remaining character is.
pub open spec fn skip_space(s: Seq<char>, i: int) -> int
    decreases s.len() - i when 0 <= i <= s.len()
{
    if i >= s.len() {
        s.len() as int
    } else if is_space_char(s[i]) {
        skip_space(s, i + 1)
    } else {
        i
    }
}

/// First index at or after `i` holding a single-quote character; `s.len()`
/// if there is none.
pub open spec fn find_quote(s: Seq<char>, i: int) -> int
    decreases s.len() - i when 0 <= i <= s.len()
{
    if i >= s.len() {
        s.len() as int
    } else if s[i] == '\'' {
        i
    } else {
        find_quote(s, i + 1)
    }
}

/// Largest index `b <= from` such that `s[b - 1]` is not whitespace; `0` if
/// every character before `from` is whitespace.
pub open spec fn rskip_space(s: Seq<char>, from: int) -> int
    decreases from when 0 <= from <= s.len()
{
    if from <= 0 {
        0
    } else if is_space_char(s[from - 1]) {
        rskip_space(s, from - 1)
    } else {
        from
    }
}

/// `s` with leading and trailing whitespace removed.
pub open spec fn trim_spec(s: Seq<char>) -> Seq<char> {
    let a = skip_space(s, 0);
    let b = rskip_space(s, s.len() as int);
    if a <= b {
        s.subrange(a, b)
    } else {
        Seq::empty()
    }
}

/// `s` with every occurrence of `pat` removed, scanning left to right and
/// never rescanning removed material, as `str::replace` with an empty
/// replacement does.
pub open spec fn remove_pat(s: Seq<char>, pat: Seq<char>) -> Seq<char>
    decreases s.len() when pat.len() > 0
{
    if s.len() == 0 {
        s
    } else if occurs_at(s, 0, pat) {
        remove_pat(s.skip(pat.len() as int), pat)
    } else {
        seq![s[0]] + remove_pat(s.skip(1), pat)
    }
}

/// Index just after the last `/` in `s`; `0` when `s` has no `/`.
pub open spec fn last_slash_end(s: Seq<char>) -> int
    decreases s.len()
{
    if s.len() == 0 {
        0
    } else if s[s.len() - 1] == '/' {
        s.len() as int
    } else {
        last_slash_end(s.drop_last())
    }
}

/// The final path component of `s`: everything after the last `/`.
pub open spec fn base_name_spec(s: Seq<char>) -> Seq<char> {
    s.subrange(last_slash_end(s), s.len() as int)
}

pub proof fn lemma_last_slash_end(s: Seq<char>)
    ensures
        0 <= last_slash_end(s) <= s.len(),
        forall|t: int| last_slash_end(s) <= t < s.len() ==> s[t] != '/',
    decreases s.len(),
{
    if s.len() == 0 {
    } else if s[s.len() - 1] == '/' {
    } else {
        lemma_last_slash_end(s.drop_last());
        assert forall|t: int| last_slash_end(s) <= t < s.len() implies s[t] != '/' by {
            if t < s.len() - 1 {
                assert(s.drop_last()[t] == s[t]);
            }
        }
    }
}

/// Every character of `remove_pat(s, pat)` is a character of `s`.
pub proof fn lemma_remove_pat_chars(s: Seq<char>, pat: Seq<char>, c: char)
    requires
        pat.len() > 0,
        forall|i: int| 0 <= i < s.len() ==> s[i] != c,
    ensures
        forall|i: int| 0 <= i < remove_pat(s, pat).len() ==> remove_pat(s, pat)[i] != c,
    decreases s.len(),
{
    if s.len() == 0 {
    } else if occurs_at(s, 0, pat) {
        let k = pat.len() as int;
        assert forall|i: int| 0 <= i < s.skip(k).len() implies s.skip(k)[i] != c by {
            assert(s.skip(k)[i] == s[i + k]);
        }
        lemma_remove_pat_chars(s.skip(k), pat, c);
        assert(remove_pat(s, pat) == remove_pat(s.skip(k), pat));
    } else {
        assert forall|i: int| 0 <= i < s.skip(1).len() implies s.skip(1)[i] != c by {
            assert(s.skip(1)[i] == s[i + 1]);
        }
        lemma_remove_pat_chars(s.skip(1), pat, c);
        let r = remove_pat(s, pat);
        let r1 = remove_pat(s.skip(1), pat);
        assert(r == seq![s[0]] + r1);
        assert forall|i: int| 0 <= i < r.len() implies r[i] != c by {
            if i == 0 {
                assert(r[0] == s[0]);
            } else {
                assert(r[i] == r1[i - 1]);
            }
        }
    }
}

/// Copies the characters of a string into a vector, one per element.
pub fn str_to_chars(s: &str) -> (r: Vec<char>)
    ensures
        r@ == s@,
{
    let n = s.unicode_len();
    let mut r: Vec<char> = Vec::new();
    let mut i: usize = 0;
    while i < n
        invariant
            i <= n,
            n == s@.len(),
            r@ == s@.subrange(0, i as int),
        decreases n - i,
    {
        let c = s.get_char(i);
        r.push(c);
        i = i + 1;
        assert(r@ =~= s@.subrange(0, i as int));
    }
    assert(r@ =~= s@);
    r
}

/// `v` with leading and trailing whitespace removed, as `trim_spec`
/// describes.
pub fn trim_chars(v: &Vec<char>) -> (r: Vec<char>)
    ensures
        r@ == trim_spec(v@),
{
    let mut a: usize = 0;
    while a < v.len() && is_space(v[a])
        invariant
            a <= v.len(),
            skip_space(v@, 0) == skip_space(v@, a as int),
        decreases v.len() - a,
    {
        assert(skip_space(v@, a as int) == skip_space(v@, a as int + 1));
        a = a + 1;
    }
    assert(skip_space(v@, 0) == a as int);
    let mut b: usize = v.len();
    while b > 0 && is_space(v[b - 1])
        invariant
            b <= v.len(),
            rskip_space(v@, v@.len() as int) == rskip_space(v@, b as int),
        decreases b,
    {
        assert(rskip_space(v@, b as int) == rskip_space(v@, b as int - 1));
        b = b - 1;
    }
    assert(rskip_space(v@, v@.len() as int) == b as int);
    let mut out: Vec<char> = Vec::new();
    if a >= b {
        assert(out@ =~= trim_spec(v@));
        return out;
    }
    let mut t: usize = a;
    while t < b
        invariant
            a <= t <= b <= v@.len(),
            out@ == v@.subrange(a as int, t as int),
        decreases b - t,
    {
        out.push(v[t]);
        t = t + 1;
        assert(out@ =~= v@.subrange(a as int, t as int));
    }
    out
}

/// Relies on `String`'s `FromIterator<char>` implementation: collecting
/// chars yields the string of exactly those chars in order.
#[verifier::external_body]
pub fn chars_to_string(v: &Vec<char>) -> (r: String)
    ensures
        r@ == v@,
{
    v.iter().collect()
}

/// Whether two character vectors hold the same characters.
pub fn chars_eq(a: &Vec<char>, b: &Vec<char>) -> (r: bool)
    ensures
        r == (a@ == b@),
{
    if a.len() != b.len() {
        return false;
    }
    let mut i: usize = 0;
    while i < a.len()
        invariant
            i <= a.len(),
            a@.len() == b@.len(),
            forall|t: int| 0 <= t < i ==> a@[t] == b@[t],
        decreases a.len() - i,
    {
        if a[i] != b[i] {
            return false;
        }
        i = i + 1;
    }
    assert(a@ =~= b@);
    true
}

/// `s` with every occurrence of `pat` removed, as `remove_pat` describes.
pub fn remove_all(text: &Vec<char>, pat: &Vec<char>) -> (r: Vec<char>)
    requires
        pat.len() > 0,
    ensures
        r@ == remove_pat(text@, pat@),
{
    let mut out: Vec<char> = Vec::new();
    let mut i: usize = 0;
    assert(text@.skip(0) =~= text@);
    while i < text.len()
        invariant
            i <= text.len(),
            pat.len() > 0,
            remove_pat(text@, pat@) == out@ + remove_pat(text@.skip(i as int), pat@),
        decreases text.len() - i,
    {
        let ghost rest = text@.skip(i as int);
        if matches_at(text, i, pat) {
            proof {
                assert(rest.subrange(0, pat@.len() as int) =~= text@.subrange(
                    i as int,
                    i + pat@.len(),
                ));
                assert(occurs_at(rest, 0, pat@));
                assert(rest.skip(pat@.len() as int) =~= text@.skip(i + pat@.len()));
                assert(remove_pat(rest, pat@) == remove_pat(text@.skip(i + pat@.len()), pat@));
            }
            i = i + pat.len();
        } else {
            proof {
                assert(!occurs_at(rest, 0, pat@)) by {
                    if occurs_at(rest, 0, pat@) {
                        assert(rest.subrange(0, pat@.len() as int) =~= text@.subrange(
                            i as int,
                            i + pat@.len(),
                        ));
                    }
                }
                assert(rest.skip(1) =~= text@.skip(i + 1));
                assert(remove_pat(rest, pat@) == seq![rest[0]] + remove_pat(
                    text@.skip(i + 1),
                    pat@,
                ));
            }
            out.push(text[i]);
            proof {
                let r = remove_pat(text@.skip(i + 1), pat@);
                assert(out@ + r =~= out@.drop_last() + (seq![text@[i as int]] + r));
            }
            i = i + 1;
        }
    }
    assert(text@.skip(i as int) =~= Seq::<char>::empty());
    assert(out@ =~= out@ + remove_pat(text@.skip(i as int), pat@));
    out
}

/// Whether `pat` occurs in `text` starting at index `i`.
pub fn matches_at(text: &Vec<char>, i: usize, pat: &Vec<char>) -> (r: bool)
    requires
        i <= text.len(),
    ensures
        r == occurs_at(text@, i as int, pat@),
{
    if text.len() - i < pat.len() {
        assert(!occurs_at(text@, i as int, pat@));
        return false;
    }
    let mut t: usize = 0;
    while t < pat.len()
        invariant
            t <= pat.len(),
            i + pat.len() <= text.len(),
            forall|u: int| 0 <= u < t ==> text@[i + u] == pat@[u],
        decreases pat.len() - t,
    {
        if text[i + t] != pat[t] {
            assert(text@.subrange(i as int, i + pat@.len())[t as int] != pat@[t as int]);
            return false;
        }
        t = t + 1;
    }
    assert(text@.subrange(i as int, i + pat@.len()) =~= pat@);
    true
}

/// Index just after the last `.` in `s`; `0` when `s` has no `.`.
pub open spec fn last_dot_end(s: Seq<char>) -> int
    decreases s.len()
{
    if s.len() == 0 {
        0
    } else if s[s.len() - 1] == '.' {
        s.len() as int
    } else {
        last_dot_end(s.drop_last())
    }
}

/// The extension of a file name: what follows the last `.`, provided the
/// name holds a `.` somewhere after its first character. A name without a
/// `.`, or whose only `.` leads it, has none.
pub open spec fn extension_spec(name: Seq<char>) -> Option<Seq<char>> {
    let e = last_dot_end(name);
    if e <= 1 {
        None
    } else {
        Some(name.subrange(e, name.len() as int))
    }
}

/// Whether the file name's extension is exactly `ext`; a name without an
/// extension matches nothing.
pub fn has_extension(name: &str, ext: &str) -> (r: bool)
    ensures
        r == (extension_spec(name@) == Some(ext@)),
{
    let chars = str_to_chars(name);
    let ext_chars = str_to_chars(ext);
    let mut i: usize = chars.len();
    assert(chars@.subrange(0, i as int) =~= chars@);
    while i > 0 && chars[i - 1] != '.'
        invariant
            i <= chars.len(),
            chars@ == name@,
            last_dot_end(name@) == last_dot_end(chars@.subrange(0, i as int)),
        decreases i,
    {
        let ghost pre = chars@.subrange(0, i as int);
        assert(pre.drop_last() =~= chars@.subrange(0, i as int - 1));
        i = i - 1;
    }
    assert(last_dot_end(name@) == i as int) by {
        let pre = chars@.subrange(0, i as int);
        if i == 0 {
            assert(pre =~= Seq::<char>::empty());
        } else {
            assert(pre[i as int - 1] == '.');
        }
    }
    if i <= 1 {
        return false;
    }
    let mut tail: Vec<char> = Vec::new();
    let mut j: usize = i;
    while j < chars.len()
        invariant
            i <= j <= chars.len(),
            chars@ == name@,
            tail@ == name@.subrange(i as int, j as int),
        decreases chars.len() - j,
    {
        tail.push(chars[j]);
        j = j + 1;
        assert(tail@ =~= name@.subrange(i as int, j as int));
    }
    chars_eq(&tail, &ext_chars)
}

/// The final path component of `path`: everything after the last `/`,
/// or all of `path` when it has no `/`. The result never holds a `/`.
pub fn base_name(path: &str) -> (r: String)
    ensures
        r@ == base_name_spec(path@),
        forall|i: int| 0 <= i < r@.len() ==> r@[i] != '/',
{
    let chars = str_to_chars(path);
    let mut i: usize = chars.len();
    assert(chars@.subrange(0, i as int) =~= chars@);
    while i > 0 && chars[i - 1] != '/'
        invariant
            i <= chars.len(),
            chars@ == path@,
            last_slash_end(path@) == last_slash_end(chars@.subrange(0, i as int)),
        decreases i,
    {
        let ghost pre = chars@.subrange(0, i as int);
        assert(pre.drop_last() =~= chars@.subrange(0, i as int - 1));
        i = i - 1;
    }
    assert(last_slash_end(path@) == i as int) by {
        let pre = chars@.subrange(0, i as int);
        if i == 0 {
            assert(pre =~= Seq::<char>::empty());
        } else {
            assert(pre[i as int - 1] == '/');
        }
    }
    let mut out: Vec<char> = Vec::new();
    let mut j: usize = i;
    while j < chars.len()
        invariant
            i <= j <= chars.len(),
            chars@ == path@,
            out@ == path@.subrange(i as int, j as int),
        decreases chars.len() - j,
    {
        out.push(chars[j]);
        j = j + 1;
        assert(out@ =~= path@.subrange(i as int, j as int));
    }
    proof {
        lemma_last_slash_end(path@);
    }
    chars_to_string(&out)
}

} // verus!
