//! MDX support via pre/post-processing.
//!
//! MDX files are markdown with embedded JSX, import/export statements, and
//! `{expression}` blocks. Rather than teaching the markdown formatter about
//! all of these, the byte spans of every MDX-specific node of the document
//! tree are replaced with placeholders that the markdown formatter will leave
//! alone, the resulting markdown is formatted, and then the original MDX text
//! is put back in place of each placeholder.
use vstd::prelude::*;
use vstd::string::StringSliceAdditionalSpecFns;
use vstd::utf8::*;
use crate::placeholders::{
    build_regions, find_nonce, ignore_html_comment, is_first_free_nonce, is_region_for,
    numbered_placeholder, placeholder_for, trim_end, trim_end_string, Configuration,
};
use crate::regions::{
    build_placeholdered_text, placeholder_bytes, placeholdered, placeholders_nonempty,
    regions_fit, regions_on_boundaries, restore_regions, restore_spec, MdxRegion,
};
use crate::spans::{
    collect_esm_spans, collect_mdx_spans, contains_span, ends_at, esm_at, lemma_esm_spans_are_esm_nodes, lemma_merge_spec_endpoints,
    lemma_merge_spec_separated, lemma_merge_spec_within, mdx_esm_spans, lemma_sort_by_start_members, lemma_sort_by_start_sorted_permutation,
    mdx_spans, merge_spans, merge_spec, sort_by_start, sort_spans_by_start, spans_on_boundaries,
    spans_separated, spans_within, starts_at, MdastNode, MdxSpan,
};
use crate::text::{lemma_encode_len, occurs_at_exec, string_bytes};

verus! {

broadcast use encode_utf8_valid_utf8, encode_utf8_decode_utf8;

/// The spans the document tree marks as MDX lie within the source and on its
/// character boundaries (as the positions the MDX parser reports do).
pub open spec fn tree_fits(source: Seq<u8>, tree: MdastNode) -> bool {
    spans_within(source.len() as int, mdx_spans(tree)) && spans_on_boundaries(
        source,
        mdx_spans(tree),
    )
}

/// The spans to protect: the MDX spans of the tree, sorted by start, with
/// those that overlap or touch merged.
pub open spec fn protected_spans(tree: MdastNode) -> Seq<MdxSpan> {
    merge_spec(sort_by_start(mdx_spans(tree)))
}

/// `regions` are the regions built for the protected spans of `tree`, with
/// the first nonce that does not occur in the source.
pub open spec fn regions_for_tree(
    source: Seq<u8>,
    tree: MdastNode,
    config: Configuration,
    regions: Seq<MdxRegion>,
) -> bool {
    let spans = protected_spans(tree);
    &&& regions.len() == spans.len()
    &&& exists|nonce: Seq<char>|
        #![trigger is_first_free_nonce(source, nonce)]
        is_first_free_nonce(source, nonce) && forall|i: int|
            0 <= i < spans.len() ==> is_region_for(
                #[trigger] regions[i],
                source,
                spans[i],
                nonce,
                i as nat,
                config,
            )
}

/// What MDX formatting makes of a document once its tree is known.
pub enum MdxPlan {
    /// The document holds no MDX: it is formatted as plain markdown.
    Markdown,
    /// The markdown formatter is given `text`, the document with every region
    /// replaced by its placeholder; the regions are restored afterwards.
    /// `esm` tells, region by region, whether the region is an import/export
    /// block, which the code formatter is given.
    Placeholders { text: String, regions: Vec<MdxRegion>, esm: Vec<bool> },
}

/// Whether each protected span of the tree is the span of an import/export
/// block (and not merged with anything else).
pub open spec fn esm_flags(tree: MdastNode) -> Seq<bool> {
    Seq::new(
        protected_spans(tree).len(),
        |i: int| mdx_esm_spans(tree).contains(protected_spans(tree)[i]),
    )
}

/// The merged protected spans lie within the source, are separated, and sit
/// on character boundaries.
proof fn lemma_protected_spans_fit(source: Seq<u8>, tree: MdastNode)
    requires
        tree_fits(source, tree),
    ensures
        spans_within(source.len() as int, protected_spans(tree)),
        spans_separated(protected_spans(tree)),
        spans_on_boundaries(source, protected_spans(tree)),
{
    let raw = mdx_spans(tree);
    let sorted = sort_by_start(raw);
    lemma_sort_by_start_sorted_permutation(raw);
    assert forall|k: int| 0 <= k < sorted.len() implies #[trigger] sorted[k].start
        <= sorted[k].end <= source.len() && is_char_boundary(source, sorted[k].start as int)
        && is_char_boundary(source, sorted[k].end as int) by {
        lemma_sort_by_start_members(raw, k);
        let i = choose|i: int| 0 <= i < raw.len() && raw[i] == sorted[k];
        assert(raw[i].start <= raw[i].end <= source.len());
        assert(is_char_boundary(source, raw[i].start as int));
    }
    lemma_merge_spec_within(sorted, source.len() as int);
    lemma_merge_spec_separated(sorted);
    lemma_merge_spec_endpoints(sorted);
    let merged = merge_spec(sorted);
    assert forall|k: int| 0 <= k < merged.len() implies is_char_boundary(
        source,
        #[trigger] merged[k].start as int,
    ) && is_char_boundary(source, merged[k].end as int) by {
        assert(starts_at(sorted, merged[k].start));
        assert(ends_at(sorted, merged[k].end));
        let i = choose|i: int| 0 <= i < sorted.len() && #[trigger] sorted[i].start == merged[k].start;
        let j = choose|j: int| 0 <= j < sorted.len() && #[trigger] sorted[j].end == merged[k].end;
        assert(sorted[i].start <= sorted[i].end);
        assert(sorted[j].start <= sorted[j].end);
    }
}

/// Every placeholder is an HTML comment, so none is empty.
proof fn lemma_placeholder_for_nonempty(original: Seq<char>, nonce: Seq<char>, i: nat, config: Configuration)
    ensures
        encode_utf8(placeholder_for(original, nonce, i, config)).len() > 0,
{
    lemma_encode_len(placeholder_for(original, nonce, i, config));
    match ignore_html_comment(original, config) {
        Some(h) => {},
        None => {
            assert(numbered_placeholder(nonce, i).len() >= 9);
        },
    }
}

/// Regions built for the protected spans of a tree lie in order within the
/// source, on its character boundaries, with non-empty placeholders.
pub proof fn lemma_regions_for_tree_fit(
    source: Seq<u8>,
    tree: MdastNode,
    config: Configuration,
    regions: Seq<MdxRegion>,
)
    requires
        tree_fits(source, tree),
        regions_for_tree(source, tree, config, regions),
    ensures
        regions_fit(source.len() as int, regions),
        regions_on_boundaries(source, regions),
        placeholders_nonempty(regions),
{
    lemma_protected_spans_fit(source, tree);
    let ps = protected_spans(tree);
    let nonce = choose|nonce: Seq<char>|
        #![trigger is_first_free_nonce(source, nonce)]
        is_first_free_nonce(source, nonce) && forall|i: int|
            0 <= i < ps.len() ==> is_region_for(
                #[trigger] regions[i],
                source,
                ps[i],
                nonce,
                i as nat,
                config,
            );
    assert forall|k: int| 0 <= k < regions.len() implies #[trigger] regions[k].start
        <= regions[k].end <= source.len() by {
        assert(is_region_for(regions[k], source, ps[k], nonce, k as nat, config));
    }
    assert forall|k: int| 0 < k < regions.len() implies regions[k - 1].end
        <= #[trigger] regions[k].start by {
        assert(is_region_for(regions[k], source, ps[k], nonce, k as nat, config));
        assert(is_region_for(regions[k - 1], source, ps[k - 1], nonce, (k - 1) as nat, config));
    }
    assert forall|k: int| 0 <= k < regions.len() implies is_char_boundary(
        source,
        #[trigger] regions[k].start as int,
    ) && is_char_boundary(source, regions[k].end as int) by {
        assert(is_region_for(regions[k], source, ps[k], nonce, k as nat, config));
    }
    assert forall|k: int| 0 <= k < regions.len() implies placeholder_bytes(
        #[trigger] regions[k],
    ).len() > 0 by {
        assert(is_region_for(regions[k], source, ps[k], nonce, k as nat, config));
        lemma_placeholder_for_nonempty(regions[k].original@, nonce, k as nat, config);
    }
}

/// Decides how a document with the given tree is formatted: as plain
/// markdown when the tree holds no MDX, else through placeholders.
pub fn plan_mdx(file_text: &str, tree: &MdastNode, config: &Configuration) -> (plan: MdxPlan)
    requires
        tree_fits(file_text.spec_bytes(), *tree),
    ensures
        protected_spans(*tree).len() == 0 ==> plan is Markdown,
        protected_spans(*tree).len() > 0 ==> (plan matches MdxPlan::Placeholders {
            text,
            regions,
            esm,
        } && regions_for_tree(file_text.spec_bytes(), *tree, *config, regions@) && string_bytes(
            text,
        ) == placeholdered(file_text.spec_bytes(), regions@) && esm@ == esm_flags(*tree)),
        plan matches MdxPlan::Placeholders { text, regions, esm } ==> {
            &&& regions_fit(file_text.spec_bytes().len() as int, regions@)
            &&& placeholders_nonempty(regions@)
        },
{
    let ghost source = file_text.spec_bytes();
    let mut esm_spans: Vec<MdxSpan> = Vec::new();
    collect_esm_spans(tree, &mut esm_spans);
    proof {
        assert(esm_spans@ =~= mdx_esm_spans(*tree));
    }
    let mut spans: Vec<MdxSpan> = Vec::new();
    collect_mdx_spans(tree, &mut spans);
    proof {
        assert(spans@ =~= mdx_spans(*tree));
    }
    let spans = sort_spans_by_start(spans);
    let spans = merge_spans(spans);
    // No MDX nodes at all: format as plain markdown.
    if spans.len() == 0 {
        return MdxPlan::Markdown;
    }
    proof {
        lemma_protected_spans_fit(source, *tree);
    }
    let nonce = find_nonce(file_text);
    let regions = build_regions(file_text, spans.as_slice(), nonce.as_str(), config);
    proof {
        assert(is_first_free_nonce(source, nonce@));
        assert(regions_for_tree(source, *tree, *config, regions@));
        lemma_regions_for_tree_fit(source, *tree, *config, regions@);
    }
    let text = build_placeholdered_text(file_text, regions.as_slice());
    let mut esm: Vec<bool> = Vec::new();
    let mut i: usize = 0;
    while i < spans.len()
        invariant
            i <= spans@.len(),
            spans@ == protected_spans(*tree),
            esm_spans@ == mdx_esm_spans(*tree),
            esm@ == esm_flags(*tree).take(i as int),
        decreases spans@.len() - i,
    {
        esm.push(contains_span(esm_spans.as_slice(), spans[i]));
        proof {
            assert(esm@ =~= esm_flags(*tree).take(i + 1));
        }
        i = i + 1;
    }
    proof {
        assert(esm@ =~= esm_flags(*tree));
    }
    MdxPlan::Placeholders { text, regions, esm }
}

/// The tag under which import/export blocks are handed to the code
/// formatter.
pub open spec fn code_tag() -> Seq<char> {
    seq!['t', 's', 'x']
}

/// The code formatter, given `code` under the code tag and `width`, returned
/// `result`.
pub open spec fn code_result_for<E, C: Fn(&str, &str, u32) -> Result<Option<String>, E>>(
    format_code: C,
    code: Seq<char>,
    width: u32,
    result: Result<Option<String>, E>,
) -> bool {
    exists|tag: &str, text: &str|
        tag@ == code_tag() && text@ == code && #[trigger] call_ensures(
            format_code,
            (tag, text, width),
            result,
        )
}

/// What is restored for a block whose text is `original` and for which the
/// code formatter returned `out`: its output without trailing white space
/// (the line breaks after the block stay in the document), or the block as
/// it was.
pub open spec fn restored_code(original: Seq<char>, out: Option<String>) -> Seq<char> {
    match out {
        Some(s) => trim_end(s@),
        None => original,
    }
}

/// `r2` is the region `r` with what is restored settled: an import/export
/// block (`esm`) by what the code formatter returned for it, any other region
/// unchanged.
pub open spec fn code_formatted_region<E, C: Fn(&str, &str, u32) -> Result<Option<String>, E>>(
    r: MdxRegion,
    esm: bool,
    format_code: C,
    width: u32,
    r2: MdxRegion,
) -> bool {
    &&& r2.start == r.start
    &&& r2.end == r.end
    &&& r2.placeholder@ == r.placeholder@
    &&& if esm {
        exists|out: Option<String>|
            code_result_for(format_code, r.original@, width, Ok::<Option<String>, E>(out))
                && r2.original@ == restored_code(r.original@, out)
    } else {
        r2.original@ == r.original@
    }
}

/// The code formatter failed with `e` on an import/export block, after
/// succeeding on those before it.
pub open spec fn code_formatting_failed<E, C: Fn(&str, &str, u32) -> Result<Option<String>, E>>(
    regions: Seq<MdxRegion>,
    esm: Seq<bool>,
    format_code: C,
    width: u32,
    e: E,
) -> bool {
    exists|k: int|
        {
            &&& 0 <= k < regions.len()
            &&& esm[k]
            &&& code_result_for(format_code, regions[k].original@, width, Err::<Option<String>, E>(e))
            &&& forall|j: int|
                0 <= j < k && esm[j] ==> exists|out: Option<String>|
                    code_result_for(
                        format_code,
                        #[trigger] regions[j].original@,
                        width,
                        Ok::<Option<String>, E>(out),
                    )
        }
}

/// Hands each import/export block to the code formatter under the tag `tsx`
/// and settles what is restored for it: the formatter's output (without
/// trailing white space) when it returns one, else the block as it was.
/// Other regions are kept. The formatter's first error is passed on.
pub fn format_esm_regions<E, C>(
    regions: Vec<MdxRegion>,
    esm: &[bool],
    format_code: &C,
    line_width: u32,
) -> (res: Result<Vec<MdxRegion>, E>) where C: Fn(&str, &str, u32) -> Result<Option<String>, E>
    requires
        esm@.len() == regions@.len(),
        forall|tag: &str, text: &str, width: u32| call_requires(*format_code, (tag, text, width)),
    ensures
        res matches Ok(out) ==> {
            &&& out@.len() == regions@.len()
            &&& forall|i: int|
                0 <= i < regions@.len() ==> code_formatted_region(
                    regions@[i],
                    esm@[i],
                    *format_code,
                    line_width,
                    #[trigger] out@[i],
                )
        },
        res matches Err(e) ==> code_formatting_failed(regions@, esm@, *format_code, line_width, e),
{
    let mut out: Vec<MdxRegion> = Vec::new();
    let mut i: usize = 0;
    while i < regions.len()
        invariant
            i <= regions@.len(),
            esm@.len() == regions@.len(),
            out@.len() == i,
            forall|tag: &str, text: &str, width: u32|
                call_requires(*format_code, (tag, text, width)),
            forall|k: int|
                0 <= k < i ==> code_formatted_region(
                    regions@[k],
                    esm@[k],
                    *format_code,
                    line_width,
                    #[trigger] out@[k],
                ),
        decreases regions@.len() - i,
    {
        let r = &regions[i];
        let placeholder = r.placeholder.clone();
        let ghost mut code_out: Option<String> = None;
        let original = if esm[i] {
            let tag: &str = "tsx";
            proof {
                reveal_strlit("tsx");
                assert(tag@ =~= code_tag());
            }
            let code: &str = r.original.as_str();
            let result = format_code(tag, code, line_width);
            let ghost result_value = result;
            proof {
                assert(code_result_for(*format_code, r.original@, line_width, result_value));
                if result_value is Ok {
                    code_out = result_value->Ok_0;
                }
            }
            match result {
                Err(e) => {
                    proof {
                        assert forall|j: int| 0 <= j < i && esm@[j] implies exists|
                            o: Option<String>,
                        |
                            code_result_for(
                                *format_code,
                                #[trigger] regions@[j].original@,
                                line_width,
                                Ok::<Option<String>, E>(o),
                            ) by {
                            assert(code_formatted_region(
                                regions@[j],
                                esm@[j],
                                *format_code,
                                line_width,
                                out@[j],
                            ));
                        }
                        assert(code_formatting_failed(regions@, esm@, *format_code, line_width, e));
                    }
                    return Err(e);
                },
                Ok(Some(formatted)) => trim_end_string(formatted.as_str()),
                Ok(None) => r.original.clone(),
            }
        } else {
            r.original.clone()
        };
        out.push(MdxRegion { start: r.start, end: r.end, placeholder, original });
        proof {
            if esm@[i as int] {
                assert(code_result_for(
                    *format_code,
                    regions@[i as int].original@,
                    line_width,
                    Ok::<Option<String>, E>(code_out),
                ));
                assert(out@[i as int].original@ == restored_code(
                    regions@[i as int].original@,
                    code_out,
                ));
            }
            assert(code_formatted_region(
                regions@[i as int],
                esm@[i as int],
                *format_code,
                line_width,
                out@[i as int],
            ));
        }
        i = i + 1;
    }
    Ok(out)
}

/// The text restoring works on: what the formatter returned, or the
/// placeholdered text when the formatter left it alone.
pub open spec fn formatted_or(placeholdered_text: Seq<u8>, formatted: Option<String>) -> Seq<u8> {
    match formatted {
        Some(f) => string_bytes(f),
        None => placeholdered_text,
    }
}

/// The result of restoring `text`: `None` when it gives back the source
/// unchanged, else the restored text.
pub open spec fn finish_spec(source: Seq<u8>, regions: Seq<MdxRegion>, text: Seq<u8>, res: Option<
    String,
>) -> bool {
    let restored = restore_spec(text, regions);
    if restored == source {
        res is None
    } else {
        res matches Some(s) && string_bytes(s) == restored
    }
}

/// Finishing reports `None` exactly when the restored text is the file, byte
/// for byte; whenever it differs in any byte, the restored text is returned.
pub proof fn lemma_finish_reports_none_only_when_unchanged(
    source: Seq<u8>,
    regions: Seq<MdxRegion>,
    text: Seq<u8>,
    res: Option<String>,
)
    requires
        finish_spec(source, regions, text, res),
    ensures
        res is None <==> restore_spec(text, regions) == source,
        restore_spec(text, regions) != source ==> (res matches Some(s) && string_bytes(s)
            == restore_spec(text, regions)),
{
}

/// Only import/export blocks reach the code formatter: a protected span
/// flagged for it is the position of an import/export node of the tree.
pub proof fn lemma_code_formatted_regions_are_esm_nodes(tree: MdastNode, i: int)
    requires
        0 <= i < protected_spans(tree).len(),
        esm_flags(tree)[i],
    ensures
        exists|path: Seq<int>| #[trigger] esm_at(tree, path, protected_spans(tree)[i]),
{
    lemma_esm_spans_are_esm_nodes(tree, protected_spans(tree)[i]);
}

/// Whether two strings have the same bytes.
fn same_text(a: &str, b: &str) -> (r: bool)
    ensures
        r == (a.spec_bytes() == b.spec_bytes()),
{
    let ab = a.as_bytes();
    let bb = b.as_bytes();
    if ab.len() != bb.len() {
        return false;
    }
    let r = occurs_at_exec(ab, bb, 0);
    proof {
        assert(ab@.subrange(0, bb@.len() as int) =~= ab@);
    }
    r
}

/// Puts the original MDX text back in place of each placeholder of the
/// formatted text (of the placeholdered text when the formatter left it
/// alone), and tells whether that changed the file.
pub fn finish_mdx(
    file_text: &str,
    placeholdered_text: &str,
    regions: &[MdxRegion],
    formatted: Option<String>,
) -> (res: Option<String>)
    requires
        formatted_or(placeholdered_text.spec_bytes(), formatted).len() == 0
            || placeholders_nonempty(regions@),
    ensures
        finish_spec(
            file_text.spec_bytes(),
            regions@,
            formatted_or(placeholdered_text.spec_bytes(), formatted),
            res,
        ),
{
    let result = match &formatted {
        Some(f) => restore_regions(f.as_str(), regions),
        None => restore_regions(placeholdered_text, regions),
    };
    if same_text(result.as_str(), file_text) {
        None
    } else {
        Some(result)
    }
}

/// What formatting an MDX document whose parse gave `tree` comes to, given
/// what the markdown and code formatters return:
/// - no tree (the MDX could not be parsed): the file is left unchanged;
/// - no MDX in the tree: whatever the markdown formatter returns for the file;
/// - else the markdown formatter is given the placeholdered text and its error
///   is passed on; then each import/export block is given to the code
///   formatter, whose first error is passed on; otherwise the regions are
///   restored in what the markdown formatter returned, each import/export
///   block as the code formatter settled it.
pub open spec fn mdx_outcome<
    E,
    F: Fn(&str) -> Result<Option<String>, E>,
    C: Fn(&str, &str, u32) -> Result<Option<String>, E>,
>(
    file_text: &str,
    config: Configuration,
    tree: Option<MdastNode>,
    format_markdown: F,
    format_code: C,
    res: Result<Option<String>, E>,
) -> bool {
    let source = file_text.spec_bytes();
    match tree {
        None => res == Ok::<Option<String>, E>(None),
        Some(t) => if protected_spans(t).len() == 0 {
            call_ensures(format_markdown, (file_text,), res)
        } else {
            exists|regions: Seq<MdxRegion>, text: &str, formatted: Result<Option<String>, E>|
                {
                    &&& regions_for_tree(source, t, config, regions)
                    &&& text.spec_bytes() == placeholdered(source, regions)
                    &&& call_ensures(format_markdown, (text,), formatted)
                    &&& match formatted {
                        Err(e) => res == Err::<Option<String>, E>(e),
                        Ok(f) => {
                            ||| exists|e: E|
                                code_formatting_failed(
                                    regions,
                                    esm_flags(t),
                                    format_code,
                                    config.line_width,
                                    e,
                                ) && res == Err::<Option<String>, E>(e)
                            ||| exists|restored: Seq<MdxRegion>|
                                {
                                    &&& restored.len() == regions.len()
                                    &&& forall|i: int|
                                        0 <= i < regions.len() ==> code_formatted_region(
                                            regions[i],
                                            esm_flags(t)[i],
                                            format_code,
                                            config.line_width,
                                            #[trigger] restored[i],
                                        )
                                    &&& res matches Ok(r) && finish_spec(
                                        source,
                                        restored,
                                        formatted_or(text.spec_bytes(), f),
                                        r,
                                    )
                                }
                        },
                    }
                }
        },
    }
}

/// Formatting an MDX document reports a change only with a text that differs
/// from the file, and reports none (`Ok(None)`) only when restoring the MDX in
/// what the formatters returned gives back the file byte for byte.
pub proof fn lemma_format_reports_none_only_when_unchanged<
    E,
    F: Fn(&str) -> Result<Option<String>, E>,
    C: Fn(&str, &str, u32) -> Result<Option<String>, E>,
>(
    file_text: &str,
    config: Configuration,
    tree: MdastNode,
    format_markdown: F,
    format_code: C,
    res: Result<Option<String>, E>,
)
    requires
        protected_spans(tree).len() > 0,
        mdx_outcome(file_text, config, Some(tree), format_markdown, format_code, res),
    ensures
        res matches Ok(Some(s)) ==> string_bytes(s) != file_text.spec_bytes(),
        res == Ok::<Option<String>, E>(None) ==> exists|
            text: &str,
            f: Option<String>,
            restored: Seq<MdxRegion>,
        |
            {
                &&& call_ensures(format_markdown, (text,), Ok::<Option<String>, E>(f))
                &&& exists|regions: Seq<MdxRegion>|
                    regions_for_tree(file_text.spec_bytes(), tree, config, regions)
                        && text.spec_bytes() == placeholdered(file_text.spec_bytes(), regions)
                &&& #[trigger] restore_spec(formatted_or(text.spec_bytes(), f), restored)
                    == file_text.spec_bytes()
            },
{
    let source = file_text.spec_bytes();
    if res is Ok {
        let (regions, text, formatted) = choose|
            regions: Seq<MdxRegion>,
            text: &str,
            formatted: Result<Option<String>, E>,
        |
            {
                &&& regions_for_tree(source, tree, config, regions)
                &&& text.spec_bytes() == placeholdered(source, regions)
                &&& call_ensures(format_markdown, (text,), formatted)
                &&& match formatted {
                    Err(e) => res == Err::<Option<String>, E>(e),
                    Ok(f) => {
                        ||| exists|e: E|
                            code_formatting_failed(
                                regions,
                                esm_flags(tree),
                                format_code,
                                config.line_width,
                                e,
                            ) && res == Err::<Option<String>, E>(e)
                        ||| exists|restored: Seq<MdxRegion>|
                            {
                                &&& restored.len() == regions.len()
                                &&& forall|i: int|
                                    0 <= i < regions.len() ==> code_formatted_region(
                                        regions[i],
                                        esm_flags(tree)[i],
                                        format_code,
                                        config.line_width,
                                        #[trigger] restored[i],
                                    )
                                &&& res matches Ok(r) && finish_spec(
                                    source,
                                    restored,
                                    formatted_or(text.spec_bytes(), f),
                                    r,
                                )
                            }
                    },
                }
            };
        let f = formatted->Ok_0;
        let restored = choose|restored: Seq<MdxRegion>|
            {
                &&& restored.len() == regions.len()
                &&& forall|i: int|
                    0 <= i < regions.len() ==> code_formatted_region(
                        regions[i],
                        esm_flags(tree)[i],
                        format_code,
                        config.line_width,
                        #[trigger] restored[i],
                    )
                &&& res matches Ok(r) && finish_spec(
                    source,
                    restored,
                    formatted_or(text.spec_bytes(), f),
                    r,
                )
            };
        let r = res->Ok_0;
        lemma_finish_reports_none_only_when_unchanged(
            source,
            restored,
            formatted_or(text.spec_bytes(), f),
            r,
        );
        if res == Ok::<Option<String>, E>(None) {
            assert(restore_spec(formatted_or(text.spec_bytes(), f), restored) == source);
        }
    }
}

/// Formats an MDX file.
///
/// `parse_mdx` parses the file as MDX into its document tree (`None` when the
/// file is not valid MDX); `format_markdown` formats markdown text and
/// `format_code` formats code given its tag, its text and the line width
/// (each returns `Ok(None)` when it leaves the text as it is). MDX-specific
/// constructs (imports, exports, JSX components, expressions) are protected
/// from the markdown formatter and restored afterward; import/export blocks
/// are handed to `format_code` under the tag `tsx`. The result is `Ok(None)`
/// when the file is unchanged.
pub fn format_mdx_text<E, P, F, C>(
    file_text: &str,
    config: &Configuration,
    parse_mdx: P,
    format_markdown: F,
    format_code: C,
) -> (res: Result<Option<String>, E>) where
    P: Fn(&str) -> Option<MdastNode>,
    F: Fn(&str) -> Result<Option<String>, E>,
    C: Fn(&str, &str, u32) -> Result<Option<String>, E>,

    requires
        call_requires(parse_mdx, (file_text,)),
        forall|t: MdastNode|
            call_ensures(parse_mdx, (file_text,), Some(t)) ==> tree_fits(file_text.spec_bytes(), t),
        forall|text: &str| call_requires(format_markdown, (text,)),
        forall|tag: &str, text: &str, width: u32| call_requires(format_code, (tag, text, width)),
    ensures
        exists|tree: Option<MdastNode>|
            call_ensures(parse_mdx, (file_text,), tree) && mdx_outcome(
                file_text,
                *config,
                tree,
                format_markdown,
                format_code,
                res,
            ),
{
    // If the MDX can't be parsed, return the file unchanged rather than
    // risking corruption.
    let parsed = parse_mdx(file_text);
    let ghost parsed_tree = parsed;
    let tree = match parsed {
        Some(tree) => tree,
        None => {
            let res = Ok(None);
            proof {
                assert(mdx_outcome(file_text, *config, parsed_tree, format_markdown, format_code, res));
            }
            return res;
        },
    };
    let res = match plan_mdx(file_text, &tree, config) {
        MdxPlan::Markdown => format_markdown(file_text),
        MdxPlan::Placeholders { text, regions, esm } => {
            let t: &str = text.as_str();
            let formatted = format_markdown(t);
            let ghost formatted_result = formatted;
            let ghost planned = regions@;
            let res = match formatted {
                Err(e) => Err(e),
                Ok(f) => {
                    match format_esm_regions(regions, esm.as_slice(), &format_code, config.line_width) {
                        Err(e) => Err(e),
                        Ok(restored) => {
                            proof {
                                lemma_code_formatted_placeholders(planned, restored@, esm@, format_code, config.line_width);
                            }
                            let result = finish_mdx(file_text, t, restored.as_slice(), f);
                            proof {
                                assert(restored@.len() == planned.len());
                            }
                            Ok(result)
                        },
                    }
                },
            };
            proof {
                assert(regions_for_tree(file_text.spec_bytes(), tree, *config, planned));
                assert(t.spec_bytes() == placeholdered(file_text.spec_bytes(), planned));
                assert(call_ensures(format_markdown, (t,), formatted_result));
            }
            res
        },
    };
    proof {
        assert(mdx_outcome(file_text, *config, parsed_tree, format_markdown, format_code, res));
    }
    res
}

/// Settling what an import/export block restores keeps every placeholder.
proof fn lemma_code_formatted_placeholders<E, C: Fn(&str, &str, u32) -> Result<Option<String>, E>>(
    regions: Seq<MdxRegion>,
    restored: Seq<MdxRegion>,
    esm: Seq<bool>,
    format_code: C,
    width: u32,
)
    requires
        placeholders_nonempty(regions),
        restored.len() == regions.len(),
        esm.len() == regions.len(),
        forall|i: int|
            0 <= i < regions.len() ==> code_formatted_region(
                regions[i],
                esm[i],
                format_code,
                width,
                #[trigger] restored[i],
            ),
    ensures
        placeholders_nonempty(restored),
{
    assert forall|k: int| 0 <= k < restored.len() implies placeholder_bytes(
        #[trigger] restored[k],
    ).len() > 0 by {
        assert(code_formatted_region(regions[k], esm[k], format_code, width, restored[k]));
        assert(placeholder_bytes(regions[k]).len() > 0);
    }
}

} // verus!
