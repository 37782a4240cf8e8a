//! Aggregation of per-file extraction results into the global reference
//! sets, and reconciliation of those sets against the fragment and section
//! inventories on disk.

use vstd::prelude::*;

use crate::liquid::LiquidFile;
use crate::template::{TemplateJson, TemplateSection};
use crate::text::{chars_to_string, occurs_at, remove_all, remove_pat, str_to_chars};

verus! {

/// The two reference sets accumulated across the whole run. They are kept
/// as the sequences of references in aggregation order; an identifier may
/// repeat, and membership is what reconciliation reads.
pub struct ReferenceSet {
    pub fragments_used: Vec<String>,
    pub sections_used: Vec<String>,
}

/// The identifiers of files found unused, one sequence per category, in
/// disk-listing order.
pub struct Unused {
    pub fragments: Vec<String>,
    pub sections: Vec<String>,
}

/// The section identifier one manifest entry declares: its explicit type
/// when present, else its declaration key.
pub open spec fn entry_id(e: (String, TemplateSection)) -> Seq<char> {
    match e.1._type {
        Some(t) => t@,
        None => e.0@,
    }
}

/// The section identifiers a manifest declares, from entry `i` on.
pub open spec fn manifest_ids_from(entries: Seq<(String, TemplateSection)>, i: int) -> Seq<
    Seq<char>,
>
    decreases entries.len() - i when 0 <= i
{
    if i >= entries.len() {
        Seq::empty()
    } else {
        seq![entry_id(entries[i])] + manifest_ids_from(entries, i + 1)
    }
}

/// The section identifiers all manifests declare, from manifest `i` on.
pub open spec fn manifests_section_ids_from(ms: Seq<TemplateJson>, i: int) -> Seq<Seq<char>>
    decreases ms.len() - i when 0 <= i
{
    if i >= ms.len() {
        Seq::empty()
    } else {
        manifest_ids_from(ms[i].sections@, 0) + manifests_section_ids_from(ms, i + 1)
    }
}

/// The fragment references of all parsed files, from file `i` on.
pub open spec fn files_fragment_refs_from(fs: Seq<LiquidFile>, i: int) -> Seq<Seq<char>>
    decreases fs.len() - i when 0 <= i
{
    if i >= fs.len() {
        Seq::empty()
    } else {
        fs[i].snippet_renders.deep_view() + files_fragment_refs_from(fs, i + 1)
    }
}

/// The section references of all parsed files, from file `i` on.
pub open spec fn files_section_refs_from(fs: Seq<LiquidFile>, i: int) -> Seq<Seq<char>>
    decreases fs.len() - i when 0 <= i
{
    if i >= fs.len() {
        Seq::empty()
    } else {
        fs[i].section_renders.deep_view() + files_section_refs_from(fs, i + 1)
    }
}

/// Every fragment identifier referenced anywhere: the fragment references
/// of every parsed file, whatever folder category it came from.
pub open spec fn used_fragments_spec(files: Seq<LiquidFile>) -> Seq<Seq<char>> {
    files_fragment_refs_from(files, 0)
}

/// Every section identifier referenced anywhere: each manifest entry's
/// declared identifier, then the section references of every parsed file.
pub open spec fn used_sections_spec(manifests: Seq<TemplateJson>, files: Seq<LiquidFile>) -> Seq<
    Seq<char>,
> {
    manifests_section_ids_from(manifests, 0) + files_section_refs_from(files, 0)
}

/// Appends a clone of every element of `src` to `dst`.
fn append_strings(dst: &mut Vec<String>, src: &Vec<String>)
    ensures
        final(dst).deep_view() == old(dst).deep_view() + src.deep_view(),
{
    let mut k: usize = 0;
    while k < src.len()
        invariant
            k <= src.len(),
            dst@.len() == old(dst)@.len() + k,
            forall|u: int| 0 <= u < old(dst)@.len() ==> dst@[u]@ == old(dst)@[u]@,
            forall|u: int| 0 <= u < k ==> dst@[old(dst)@.len() + u]@ == src@[u]@,
        decreases src.len() - k,
    {
        let s = src[k].clone();
        dst.push(s);
        k = k + 1;
    }
    proof {
        assert forall|u: int|
            0 <= u < dst.deep_view().len() implies dst.deep_view()[u] == (old(dst).deep_view()
            + src.deep_view())[u] by {
            if u < old(dst)@.len() {
                assert(dst@[u]@ == old(dst)@[u]@);
            } else {
                assert(dst@[u]@ == src@[u - old(dst)@.len()]@);
            }
        }
        assert(dst.deep_view() =~= old(dst).deep_view() + src.deep_view());
    }
}

/// Appends each entry's declared identifier of one manifest to `dst`.
fn append_manifest_ids(dst: &mut Vec<String>, m: &TemplateJson)
    ensures
        final(dst).deep_view() == old(dst).deep_view() + manifest_ids_from(m.sections@, 0),
{
    let mut ei: usize = 0;
    while ei < m.sections.len()
        invariant
            ei <= m.sections.len(),
            old(dst).deep_view() + manifest_ids_from(m.sections@, 0) == dst.deep_view()
                + manifest_ids_from(m.sections@, ei as int),
        decreases m.sections.len() - ei,
    {
        let ghost old_dv = dst.deep_view();
        let entry = &m.sections[ei];
        let id: String = match &entry.1._type {
            Some(t) => t.clone(),
            None => entry.0.clone(),
        };
        assert(id@ == entry_id(m.sections@[ei as int]));
        dst.push(id);
        proof {
            assert(dst.deep_view() =~= old_dv.push(entry_id(m.sections@[ei as int])));
            assert(manifest_ids_from(m.sections@, ei as int) == seq![
                entry_id(m.sections@[ei as int]),
            ] + manifest_ids_from(m.sections@, ei as int + 1));
            assert(dst.deep_view() + manifest_ids_from(m.sections@, ei as int + 1) =~= old_dv + (
            seq![entry_id(m.sections@[ei as int])] + manifest_ids_from(
                m.sections@,
                ei as int + 1,
            )));
        }
        ei = ei + 1;
    }
    assert(manifest_ids_from(m.sections@, m.sections@.len() as int) =~= Seq::<Seq<char>>::empty());
    assert(dst.deep_view() =~= dst.deep_view() + Seq::<Seq<char>>::empty());
}

/// Merges every parsed file's references and every manifest's declared
/// sections into the two global reference sets, as `used_fragments_spec`
/// and `used_sections_spec` describe. Files from every folder category
/// take part, fragments themselves included: a fragment referenced only by
/// another fragment still counts as used.
pub fn aggregate(files: &Vec<LiquidFile>, manifests: &Vec<TemplateJson>) -> (r: ReferenceSet)
    ensures
        r.fragments_used.deep_view() == used_fragments_spec(files@),
        r.sections_used.deep_view() == used_sections_spec(manifests@, files@),
{
    let mut fragments_used: Vec<String> = Vec::new();
    let mut sections_used: Vec<String> = Vec::new();
    assert(fragments_used.deep_view() =~= Seq::<Seq<char>>::empty());
    assert(sections_used.deep_view() =~= Seq::<Seq<char>>::empty());
    let mut mi: usize = 0;
    while mi < manifests.len()
        invariant
            mi <= manifests.len(),
            fragments_used.deep_view() == Seq::<Seq<char>>::empty(),
            sections_used.deep_view() + manifests_section_ids_from(manifests@, mi as int)
                == manifests_section_ids_from(manifests@, 0),
        decreases manifests.len() - mi,
    {
        let ghost old_dv = sections_used.deep_view();
        append_manifest_ids(&mut sections_used, &manifests[mi]);
        proof {
            assert(manifests_section_ids_from(manifests@, mi as int) == manifest_ids_from(
                manifests@[mi as int].sections@,
                0,
            ) + manifests_section_ids_from(manifests@, mi as int + 1));
            assert(sections_used.deep_view() + manifests_section_ids_from(manifests@, mi as int + 1)
                =~= old_dv + manifests_section_ids_from(manifests@, mi as int));
        }
        mi = mi + 1;
    }
    assert(manifests_section_ids_from(manifests@, manifests@.len() as int) =~= Seq::<
        Seq<char>,
    >::empty());
    assert(sections_used.deep_view() =~= sections_used.deep_view() + Seq::<Seq<char>>::empty());
    let ghost manifest_part = sections_used.deep_view();
    assert(manifest_part == manifests_section_ids_from(manifests@, 0));
    let mut fi: usize = 0;
    while fi < files.len()
        invariant
            fi <= files.len(),
            fragments_used.deep_view() + files_fragment_refs_from(files@, fi as int)
                == files_fragment_refs_from(files@, 0),
            sections_used.deep_view() + files_section_refs_from(files@, fi as int) == manifest_part
                + files_section_refs_from(files@, 0),
        decreases files.len() - fi,
    {
        let ghost old_f = fragments_used.deep_view();
        let ghost old_s = sections_used.deep_view();
        append_strings(&mut fragments_used, &files[fi].snippet_renders);
        append_strings(&mut sections_used, &files[fi].section_renders);
        proof {
            assert(files_fragment_refs_from(files@, fi as int) == files@[fi as int].snippet_renders.deep_view()
                + files_fragment_refs_from(files@, fi as int + 1));
            assert(fragments_used.deep_view() + files_fragment_refs_from(files@, fi as int + 1)
                =~= old_f + files_fragment_refs_from(files@, fi as int));
            assert(files_section_refs_from(files@, fi as int) == files@[fi as int].section_renders.deep_view()
                + files_section_refs_from(files@, fi as int + 1));
            assert(sections_used.deep_view() + files_section_refs_from(files@, fi as int + 1)
                =~= old_s + files_section_refs_from(files@, fi as int));
        }
        fi = fi + 1;
    }
    proof {
        assert(files_fragment_refs_from(files@, files@.len() as int) =~= Seq::<Seq<char>>::empty());
        assert(files_section_refs_from(files@, files@.len() as int) =~= Seq::<Seq<char>>::empty());
        assert(fragments_used.deep_view() =~= fragments_used.deep_view() + Seq::<
            Seq<char>,
        >::empty());
        assert(sections_used.deep_view() =~= sections_used.deep_view() + Seq::<Seq<char>>::empty());
    }
    ReferenceSet { fragments_used, sections_used }
}

/// The canonical identifier a file name yields: the name with every
/// occurrence of the `.liquid` extension removed.
pub open spec fn identifier_of(name: Seq<char>) -> Seq<char> {
    remove_pat(name, ".liquid"@)
}

/// The identifiers of the files in `names` whose identifier stands nowhere
/// in `used`, in listing order.
pub open spec fn unused_ids(names: Seq<Seq<char>>, used: Seq<Seq<char>>) -> Seq<Seq<char>>
    decreases names.len(),
{
    if names.len() == 0 {
        Seq::empty()
    } else {
        let id = identifier_of(names[0]);
        let rest = unused_ids(names.drop_first(), used);
        if used.contains(id) {
            rest
        } else {
            seq![id] + rest
        }
    }
}

/// The identifier a file name yields, as `identifier_of` describes.
pub fn derive_identifier(file_name: &str) -> (r: String)
    ensures
        r@ == identifier_of(file_name@),
{
    let chars = str_to_chars(file_name);
    let pat = str_to_chars(".liquid");
    proof {
        reveal_strlit(".liquid");
    }
    let out = remove_all(&chars, &pat);
    chars_to_string(&out)
}

/// Whether some element of `v` holds exactly the characters of `x`.
fn contains_string(v: &Vec<String>, x: &String) -> (r: bool)
    ensures
        r == v.deep_view().contains(x@),
{
    let mut t: usize = 0;
    while t < v.len()
        invariant
            t <= v.len(),
            forall|u: int| 0 <= u < t ==> v.deep_view()[u] != x@,
        decreases v.len() - t,
    {
        if x.eq(&v[t]) {
            assert(v.deep_view().contains(x@)) by {
                assert(v.deep_view()[t as int] == x@);
            }
            return true;
        }
        t = t + 1;
    }
    proof {
        if v.deep_view().contains(x@) {
            let w = choose|w: int| 0 <= w < v.deep_view().len() && v.deep_view()[w] == x@;
            assert(v.deep_view()[w] != x@);
        }
    }
    false
}

/// The identifiers of the named files that `used` nowhere references.
fn unused_of(names: &Vec<String>, used: &Vec<String>) -> (r: Vec<String>)
    ensures
        r.deep_view() == unused_ids(names.deep_view(), used.deep_view()),
{
    let mut out: Vec<String> = Vec::new();
    let mut i: usize = 0;
    assert(out.deep_view() =~= Seq::<Seq<char>>::empty());
    assert(names.deep_view().skip(0) =~= names.deep_view());
    while i < names.len()
        invariant
            i <= names.len(),
            unused_ids(names.deep_view(), used.deep_view()) == out.deep_view() + unused_ids(
                names.deep_view().skip(i as int),
                used.deep_view(),
            ),
        decreases names.len() - i,
    {
        let ghost rest = names.deep_view().skip(i as int);
        proof {
            assert(rest[0] == names.deep_view()[i as int]);
            assert(names.deep_view()[i as int] == names@[i as int]@);
            assert(rest.drop_first() =~= names.deep_view().skip(i as int + 1));
        }
        let id = derive_identifier(names[i].as_str());
        if !contains_string(used, &id) {
            let ghost old_dv = out.deep_view();
            out.push(id);
            proof {
                assert(out.deep_view() =~= old_dv.push(identifier_of(rest[0])));
                assert(out.deep_view() + unused_ids(
                    names.deep_view().skip(i as int + 1),
                    used.deep_view(),
                ) =~= old_dv + (seq![identifier_of(rest[0])] + unused_ids(
                    names.deep_view().skip(i as int + 1),
                    used.deep_view(),
                )));
            }
        }
        i = i + 1;
    }
    assert(names.deep_view().skip(names@.len() as int) =~= Seq::<Seq<char>>::empty());
    assert(out.deep_view() =~= out.deep_view() + Seq::<Seq<char>>::empty());
    out
}

/// Diffs the on-disk inventories against the reference sets: a file is
/// unused exactly when its filename-derived identifier stands nowhere in
/// its category's used set. Output order follows disk-listing order.
pub fn reconcile(fragment_files: &Vec<String>, section_files: &Vec<String>, used: &ReferenceSet) -> (r:
    Unused)
    ensures
        r.fragments.deep_view() == unused_ids(
            fragment_files.deep_view(),
            used.fragments_used.deep_view(),
        ),
        r.sections.deep_view() == unused_ids(
            section_files.deep_view(),
            used.sections_used.deep_view(),
        ),
{
    Unused {
        fragments: unused_of(fragment_files, &used.fragments_used),
        sections: unused_of(section_files, &used.sections_used),
    }
}

/// Membership in a concatenation is membership in either part.
proof fn lemma_concat_contains(a: Seq<Seq<char>>, b: Seq<Seq<char>>, x: Seq<char>)
    ensures
        (a + b).contains(x) <==> (a.contains(x) || b.contains(x)),
{
    if (a + b).contains(x) {
        let w = choose|w: int| 0 <= w < (a + b).len() && (a + b)[w] == x;
        if w < a.len() {
            assert(a[w] == x);
        } else {
            assert(b[w - a.len()] == x);
        }
    }
    if a.contains(x) {
        let w = choose|w: int| 0 <= w < a.len() && a[w] == x;
        assert((a + b)[w] == x);
    }
    if b.contains(x) {
        let w = choose|w: int| 0 <= w < b.len() && b[w] == x;
        assert((a + b)[a.len() + w] == x);
    }
}

/// Identifier derivation round trip: a file name made of a stem without
/// dots and the `.liquid` extension maps back to exactly the stem.
pub proof fn lemma_identifier_round_trip(stem: Seq<char>)
    requires
        forall|i: int| 0 <= i < stem.len() ==> stem[i] != '.',
    ensures
        identifier_of(stem + ".liquid"@) == stem,
    decreases stem.len(),
{
    reveal_strlit(".liquid");
    let pat = ".liquid"@;
    let s = stem + pat;
    if stem.len() == 0 {
        assert(s =~= pat);
        assert(occurs_at(s, 0, pat)) by {
            assert(s.subrange(0, pat.len() as int) =~= pat);
        }
        assert(remove_pat(s, pat) == remove_pat(s.skip(pat.len() as int), pat));
        assert(s.skip(pat.len() as int) =~= Seq::<char>::empty());
        assert(remove_pat(Seq::<char>::empty(), pat) == Seq::<char>::empty());
        assert(stem =~= Seq::<char>::empty());
    } else {
        assert(s[0] == stem[0]);
        assert(!occurs_at(s, 0, pat)) by {
            if occurs_at(s, 0, pat) {
                assert(s.subrange(0, pat.len() as int)[0] == pat[0]);
            }
        }
        assert(remove_pat(s, pat) == seq![s[0]] + remove_pat(s.skip(1), pat));
        let stem1 = stem.skip(1);
        assert(forall|i: int| 0 <= i < stem1.len() ==> stem1[i] != '.');
        lemma_identifier_round_trip(stem1);
        assert(s.skip(1) =~= stem1 + pat);
        assert(seq![s[0]] + stem1 =~= stem);
    }
}

/// A derived identifier never holds a path separator when the file name
/// holds none.
pub proof fn lemma_identifier_no_separator(name: Seq<char>)
    requires
        forall|i: int| 0 <= i < name.len() ==> name[i] != '/',
    ensures
        forall|i: int|
            0 <= i < identifier_of(name).len() ==> identifier_of(name)[i] != '/',
{
    reveal_strlit(".liquid");
    crate::text::lemma_remove_pat_chars(name, ".liquid"@, '/');
}

/// What reconciliation marks unused, exactly: an identifier stands in the
/// unused list precisely when some inventory file name derives to it and no
/// reference to it was aggregated anywhere.
pub proof fn lemma_unused_characterization(names: Seq<Seq<char>>, used: Seq<Seq<char>>, x: Seq<char>)
    ensures
        unused_ids(names, used).contains(x) <==> ((exists|k: int|
            0 <= k < names.len() && identifier_of(names[k]) == x) && !used.contains(x)),
    decreases names.len(),
{
    if names.len() == 0 {
    } else {
        let id = identifier_of(names[0]);
        let rest_names = names.drop_first();
        let rest = unused_ids(rest_names, used);
        lemma_unused_characterization(rest_names, used, x);
        if used.contains(id) {
            if rest.contains(x) {
                let k = choose|k: int|
                    0 <= k < rest_names.len() && identifier_of(rest_names[k]) == x;
                assert(names[k + 1] == rest_names[k]);
            }
            if (exists|k: int| 0 <= k < names.len() && identifier_of(names[k]) == x)
                && !used.contains(x) {
                let k = choose|k: int| 0 <= k < names.len() && identifier_of(names[k]) == x;
                assert(k != 0);
                assert(rest_names[k - 1] == names[k]);
                assert(rest.contains(x));
            }
        } else {
            let full = seq![id] + rest;
            if full.contains(x) {
                let w = choose|w: int| 0 <= w < full.len() && full[w] == x;
                if w == 0 {
                    assert(identifier_of(names[0]) == x);
                } else {
                    assert(rest[w - 1] == x);
                    assert(rest.contains(x));
                    let k = choose|k: int|
                        0 <= k < rest_names.len() && identifier_of(rest_names[k]) == x;
                    assert(names[k + 1] == rest_names[k]);
                }
            }
            if (exists|k: int| 0 <= k < names.len() && identifier_of(names[k]) == x)
                && !used.contains(x) {
                let k = choose|k: int| 0 <= k < names.len() && identifier_of(names[k]) == x;
                if k == 0 {
                    assert(full[0] == x);
                } else {
                    assert(rest_names[k - 1] == names[k]);
                    assert(rest.contains(x));
                    let w = choose|w: int| 0 <= w < rest.len() && rest[w] == x;
                    assert(full[w + 1] == x);
                }
            }
        }
    }
}

/// An inventory file whose identifier no aggregated reference names is
/// classified unused.
pub proof fn lemma_unreferenced_is_unused(names: Seq<Seq<char>>, used: Seq<Seq<char>>, k: int)
    requires
        0 <= k < names.len(),
        !used.contains(identifier_of(names[k])),
    ensures
        unused_ids(names, used).contains(identifier_of(names[k])),
{
    lemma_unused_characterization(names, used, identifier_of(names[k]));
}

/// A fragment reference standing in any parsed file is aggregated into the
/// used set.
proof fn lemma_fragment_refs_from_contains(fs: Seq<LiquidFile>, i: int, k: int, id: Seq<char>)
    requires
        0 <= i <= k < fs.len(),
        fs[k].snippet_renders.deep_view().contains(id),
    ensures
        files_fragment_refs_from(fs, i).contains(id),
    decreases k - i,
{
    let dv = fs[i].snippet_renders.deep_view();
    let tail = files_fragment_refs_from(fs, i + 1);
    if i == k {
        let w = choose|w: int| 0 <= w < dv.len() && dv[w] == id;
        assert((dv + tail)[w] == id);
    } else {
        lemma_fragment_refs_from_contains(fs, i + 1, k, id);
        let w = choose|w: int| 0 <= w < tail.len() && tail[w] == id;
        assert((dv + tail)[dv.len() + w] == id);
    }
}

/// The single-hop rule: a fragment referenced from any parsed file — even
/// one that is itself unused — is classified used, never unused.
pub proof fn lemma_referenced_fragment_not_unused(
    names: Seq<Seq<char>>,
    files: Seq<LiquidFile>,
    k: int,
    id: Seq<char>,
)
    requires
        0 <= k < files.len(),
        files[k].snippet_renders.deep_view().contains(id),
    ensures
        used_fragments_spec(files).contains(id),
        !unused_ids(names, used_fragments_spec(files)).contains(id),
{
    lemma_fragment_refs_from_contains(files, 0, k, id);
    lemma_unused_characterization(names, used_fragments_spec(files), id);
}

/// A section reference standing in any parsed file is aggregated into the
/// used set.
proof fn lemma_section_refs_from_contains(fs: Seq<LiquidFile>, i: int, k: int, id: Seq<char>)
    requires
        0 <= i <= k < fs.len(),
        fs[k].section_renders.deep_view().contains(id),
    ensures
        files_section_refs_from(fs, i).contains(id),
    decreases k - i,
{
    let dv = fs[i].section_renders.deep_view();
    let tail = files_section_refs_from(fs, i + 1);
    if i == k {
        let w = choose|w: int| 0 <= w < dv.len() && dv[w] == id;
        assert((dv + tail)[w] == id);
    } else {
        lemma_section_refs_from_contains(fs, i + 1, k, id);
        let w = choose|w: int| 0 <= w < tail.len() && tail[w] == id;
        assert((dv + tail)[dv.len() + w] == id);
    }
}

/// A section referenced by a render-section directive in any parsed file is
/// classified used, never unused.
pub proof fn lemma_referenced_section_not_unused(
    names: Seq<Seq<char>>,
    manifests: Seq<TemplateJson>,
    files: Seq<LiquidFile>,
    k: int,
    id: Seq<char>,
)
    requires
        0 <= k < files.len(),
        files[k].section_renders.deep_view().contains(id),
    ensures
        used_sections_spec(manifests, files).contains(id),
        !unused_ids(names, used_sections_spec(manifests, files)).contains(id),
{
    lemma_section_refs_from_contains(files, 0, k, id);
    lemma_concat_contains(
        manifests_section_ids_from(manifests, 0),
        files_section_refs_from(files, 0),
        id,
    );
    lemma_unused_characterization(names, used_sections_spec(manifests, files), id);
}

/// Each declared entry's identifier of a manifest stands among that
/// manifest's section identifiers.
proof fn lemma_manifest_ids_from_contains(
    entries: Seq<(String, TemplateSection)>,
    i: int,
    e: int,
)
    requires
        0 <= i <= e < entries.len(),
    ensures
        manifest_ids_from(entries, i).contains(entry_id(entries[e])),
    decreases e - i,
{
    let head = seq![entry_id(entries[i])];
    let tail = manifest_ids_from(entries, i + 1);
    if i == e {
        assert((head + tail)[0] == entry_id(entries[e]));
    } else {
        lemma_manifest_ids_from_contains(entries, i + 1, e);
        let w = choose|w: int| 0 <= w < tail.len() && tail[w] == entry_id(entries[e]);
        assert((head + tail)[1 + w] == entry_id(entries[e]));
    }
}

/// Anything one manifest's entries declare stands among all manifests'
/// declared section identifiers.
proof fn lemma_manifests_ids_from_contains(ms: Seq<TemplateJson>, i: int, m: int, x: Seq<char>)
    requires
        0 <= i <= m < ms.len(),
        manifest_ids_from(ms[m].sections@, 0).contains(x),
    ensures
        manifests_section_ids_from(ms, i).contains(x),
    decreases m - i,
{
    let head = manifest_ids_from(ms[i].sections@, 0);
    let tail = manifests_section_ids_from(ms, i + 1);
    if i == m {
        let w = choose|w: int| 0 <= w < head.len() && head[w] == x;
        assert((head + tail)[w] == x);
    } else {
        lemma_manifests_ids_from_contains(ms, i + 1, m, x);
        let w = choose|w: int| 0 <= w < tail.len() && tail[w] == x;
        assert((head + tail)[head.len() + w] == x);
    }
}

/// A section identifier a page-template manifest declares — via an explicit
/// type or via its own declaration key — is classified used, never unused.
pub proof fn lemma_declared_section_is_used(
    names: Seq<Seq<char>>,
    manifests: Seq<TemplateJson>,
    files: Seq<LiquidFile>,
    mi: int,
    ei: int,
)
    requires
        0 <= mi < manifests.len(),
        0 <= ei < manifests[mi].sections@.len(),
    ensures
        used_sections_spec(manifests, files).contains(entry_id(manifests[mi].sections@[ei])),
        !unused_ids(names, used_sections_spec(manifests, files)).contains(
            entry_id(manifests[mi].sections@[ei]),
        ),
{
    let x = entry_id(manifests[mi].sections@[ei]);
    lemma_manifest_ids_from_contains(manifests[mi].sections@, 0, ei);
    lemma_manifests_ids_from_contains(manifests, 0, mi, x);
    lemma_concat_contains(
        manifests_section_ids_from(manifests, 0),
        files_section_refs_from(files, 0),
        x,
    );
    lemma_unused_characterization(names, used_sections_spec(manifests, files), x);
}

} // verus!
