//! Why formatting MDX with a markdown formatter that changes nothing gives
//! back the file: the numbered placeholders never occur in the source, never
//! run into one another, and are told apart by their numbers.
use vstd::prelude::*;
use vstd::string::StringSliceAdditionalSpecFns;
use vstd::utf8::*;
use crate::mdx::{
    code_formatted_region, code_formatting_failed, code_result_for, code_tag, esm_flags,
    finish_spec, formatted_or, mdx_outcome, protected_spans, regions_for_tree, restored_code,
    tree_fits,
};
use crate::placeholders::{
    decimal, digit_chars, html_comment_close, html_comment_open, ignore_html_comment,
    is_first_free_nonce, is_region_for, nonce_candidate, nonce_free, nonce_stem,
    numbered_placeholder, Configuration,
};
use crate::regions::{
    first_match_from, lemma_first_match_from, lemma_restore_undoes_placeholders,
    lemma_restore_when_placeholders_only_where_inserted, no_placeholder_in_gaps_from,
    no_placeholder_in_prefix, none_restored, original_bytes, originals_from_source,
    placeholders_only_where_inserted, placeholder_bytes, placeholder_starts, placeholdered, placeholdered_from,
    placeholders_nonempty, regions_fit, restore_spec, same_restoring,
    lemma_restore_same, MdxRegion,
};
use crate::spans::MdastNode;
use crate::text::{contains_bytes, occurs_at};

verus! {

broadcast use encode_utf8_valid_utf8, encode_utf8_decode_utf8;

/// `c` is a decimal digit.
pub open spec fn is_digit(c: char) -> bool {
    '0' <= c <= '9'
}

proof fn lemma_digit_chars()
    ensures
        forall|d: int| 0 <= d < 10 ==> #[trigger] digit_chars()[d] as int == 48 + d,
{
    assert(digit_chars()[0] == '0');
    assert(digit_chars()[1] == '1');
    assert(digit_chars()[2] == '2');
    assert(digit_chars()[3] == '3');
    assert(digit_chars()[4] == '4');
    assert(digit_chars()[5] == '5');
    assert(digit_chars()[6] == '6');
    assert(digit_chars()[7] == '7');
    assert(digit_chars()[8] == '8');
    assert(digit_chars()[9] == '9');
}

/// A decimal representation is a non-empty run of digits, of two or more
/// digits from ten on.
proof fn lemma_decimal_digits(n: nat)
    ensures
        decimal(n).len() >= 1,
        n >= 10 ==> decimal(n).len() >= 2,
        forall|m: int| 0 <= m < decimal(n).len() ==> is_digit(#[trigger] decimal(n)[m]),
    decreases n,
{
    lemma_digit_chars();
    if n >= 10 {
        lemma_decimal_digits(n / 10);
        let d = decimal(n / 10);
        assert forall|m: int| 0 <= m < decimal(n).len() implies is_digit(#[trigger] decimal(n)[m]) by {
            if m < d.len() {
                assert(decimal(n)[m] == d[m]);
            } else {
                assert(decimal(n)[m] == digit_chars()[(n % 10) as int]);
            }
        }
    }
}

/// Different numbers have different decimal representations.
pub proof fn lemma_decimal_injective(a: nat, b: nat)
    requires
        decimal(a) == decimal(b),
    ensures
        a == b,
    decreases a,
{
    lemma_digit_chars();
    lemma_decimal_digits(a);
    lemma_decimal_digits(b);
    if a < 10 && b < 10 {
        assert(decimal(a)[0] == digit_chars()[a as int]);
        assert(decimal(b)[0] == digit_chars()[b as int]);
    } else if a >= 10 && b >= 10 {
        let da = decimal(a);
        let db = decimal(b);
        assert(da.last() == digit_chars()[(a % 10) as int]);
        assert(db.last() == digit_chars()[(b % 10) as int]);
        assert(da.drop_last() =~= decimal(a / 10));
        assert(db.drop_last() =~= decimal(b / 10));
        lemma_decimal_injective(a / 10, b / 10);
    }
}

/// The characters of a nonce.
pub open spec fn is_nonce_char(c: char) -> bool {
    c == '_' || c == 'd' || c == 'p' || c == 'r' || c == 'i' || c == 'n' || c == 't' || c == 'm'
        || c == 'x' || c == 'a'
}

proof fn lemma_nonce_chars(k: nat)
    ensures
        forall|m: int| 0 <= m < nonce_candidate(k).len() ==> is_nonce_char(
            #[trigger] nonce_candidate(k)[m],
        ),
{
    let s = nonce_stem();
    assert forall|m: int| 0 <= m < nonce_candidate(k).len() implies is_nonce_char(
        #[trigger] nonce_candidate(k)[m],
    ) by {
        if m < s.len() {
            assert(nonce_candidate(k)[m] == s[m]);
        } else {
            assert(nonce_candidate(k)[m] == 'a');
        }
    }
}

/// The character at `m` of the numbered placeholder `<!-- nonce i -->`, by
/// part: the opening, the nonce, the space, the number, the closing.
proof fn lemma_numbered_layout(nonce: Seq<char>, i: nat)
    ensures
        ({
            let p = numbered_placeholder(nonce, i);
            let d = decimal(i);
            let nl = nonce.len() as int;
            &&& p.len() == 10 + nl + d.len()
            &&& forall|m: int| 0 <= m < 5 ==> #[trigger] p[m] == html_comment_open()[m]
            &&& forall|m: int| 5 <= m < 5 + nl ==> #[trigger] p[m] == nonce[m - 5]
            &&& p[5 + nl] == ' '
            &&& forall|m: int| 6 + nl <= m < 6 + nl + d.len() ==> #[trigger] p[m] == d[m - 6 - nl]
            &&& forall|m: int|
                6 + nl + d.len() <= m < p.len() ==> #[trigger] p[m] == html_comment_close()[m - 6
                    - nl - d.len()]
        }),
{
    let p = numbered_placeholder(nonce, i);
    let d = decimal(i);
    let nl = nonce.len() as int;
    let mid = nonce + seq![' '] + d;
    assert(p == html_comment_open() + mid + html_comment_close());
    assert(mid.len() == nl + 1 + d.len());
    assert forall|m: int| 5 <= m < 5 + nl implies #[trigger] p[m] == nonce[m - 5] by {
        assert(p[m] == mid[m - 5]);
        assert(mid[m - 5] == nonce[m - 5]);
    }
    assert(p[5 + nl] == mid[nl]);
    assert forall|m: int| 6 + nl <= m < 6 + nl + d.len() implies #[trigger] p[m] == d[m - 6 - nl] by {
        assert(p[m] == mid[m - 5]);
    }
}

/// A numbered placeholder built from a nonce is ASCII and has `<` only at
/// its start.
proof fn lemma_numbered_chars(kn: nat, i: nat)
    ensures
        ({
            let p = numbered_placeholder(nonce_candidate(kn), i);
            &&& is_ascii_chars(p)
            &&& p[0] == '<'
            &&& forall|m: int| 1 <= m < p.len() ==> #[trigger] p[m] != '<'
        }),
{
    let nonce = nonce_candidate(kn);
    let p = numbered_placeholder(nonce, i);
    let d = decimal(i);
    let nl = nonce.len() as int;
    lemma_numbered_layout(nonce, i);
    lemma_nonce_chars(kn);
    lemma_decimal_digits(i);
    assert forall|m: int| 0 <= m < p.len() implies '\0' <= #[trigger] p[m] <= '\u{7f}' && (m
        >= 1 ==> p[m] != '<') by {
        if m < 5 {
            assert(p[m] == html_comment_open()[m]);
        } else if m < 5 + nl {
            assert(p[m] == nonce[m - 5]);
            assert(is_nonce_char(nonce[m - 5]));
        } else if m == 5 + nl {
        } else if m < 6 + nl + d.len() {
            assert(p[m] == d[m - 6 - nl]);
            assert(is_digit(d[m - 6 - nl]));
        } else {
            assert(p[m] == html_comment_close()[m - 6 - nl - d.len()]);
        }
    }
    assert(p[0] == html_comment_open()[0]);
}

/// Two numbered placeholders with different numbers differ at a position
/// that both have: no one of them starts another.
pub proof fn lemma_numbered_differ(nonce: Seq<char>, j: nat, k: nat)
    requires
        j != k,
    ensures
        exists|m: int|
            0 <= m < numbered_placeholder(nonce, j).len() && m < numbered_placeholder(
                nonce,
                k,
            ).len() && #[trigger] numbered_placeholder(nonce, j)[m] != numbered_placeholder(
                nonce,
                k,
            )[m],
{
    let pj = numbered_placeholder(nonce, j);
    let pk = numbered_placeholder(nonce, k);
    let dj = decimal(j);
    let dk = decimal(k);
    let nl = nonce.len() as int;
    let base = 6 + nl;
    lemma_numbered_layout(nonce, j);
    lemma_numbered_layout(nonce, k);
    lemma_decimal_digits(j);
    lemma_decimal_digits(k);
    if dj.len() == dk.len() {
        if forall|m: int| 0 <= m < dj.len() ==> dj[m] == dk[m] {
            assert(dj =~= dk);
            lemma_decimal_injective(j, k);
        }
        let m = choose|m: int| 0 <= m < dj.len() && dj[m] != dk[m];
        assert(pj[base + m] == dj[m]);
        assert(pk[base + m] == dk[m]);
        assert(pj[base + m] != pk[base + m]);
    } else if dj.len() < dk.len() {
        let m = base + dj.len();
        assert(pj[m] == html_comment_close()[0]);
        assert(pk[m] == dk[dj.len() as int]);
        assert(is_digit(dk[dj.len() as int]));
        assert(pj[m] != pk[m]);
    } else {
        let m = base + dk.len();
        assert(pk[m] == html_comment_close()[0]);
        assert(pj[m] == dj[dk.len() as int]);
        assert(is_digit(dj[dk.len() as int]));
        assert(pj[m] != pk[m]);
    }
}

/// Every region has the numbered placeholder built from `nonce` and its
/// number, and holds the source text it covers as its original.
pub open spec fn numbered_regions(source: Seq<u8>, regions: Seq<MdxRegion>, nonce: Seq<char>) -> bool {
    forall|i: int|
        0 <= i < regions.len() ==> {
            &&& #[trigger] regions[i].placeholder@ == numbered_placeholder(nonce, i as nat)
            &&& original_bytes(regions[i]) == source.subrange(
                regions[i].start as int,
                regions[i].end as int,
            )
        }
}

/// The bytes of a numbered placeholder are its characters.
proof fn lemma_numbered_bytes(regions: Seq<MdxRegion>, kn: nat, i: int)
    requires
        0 <= i < regions.len(),
        regions[i].placeholder@ == numbered_placeholder(nonce_candidate(kn), i as nat),
    ensures
        ({
            let c = numbered_placeholder(nonce_candidate(kn), i as nat);
            let b = placeholder_bytes(regions[i]);
            &&& b.len() == c.len()
            &&& is_ascii_chars(c)
            &&& forall|m: int| 0 <= m < c.len() ==> #[trigger] b[m] == c[m] as u8
            &&& b.len() > 5 + nonce_candidate(kn).len()
            &&& b[0] == '<' as u8
            &&& forall|m: int| 1 <= m < b.len() ==> #[trigger] b[m] != '<' as u8
        }),
{
    let c = numbered_placeholder(nonce_candidate(kn), i as nat);
    lemma_numbered_chars(kn, i as nat);
    lemma_numbered_layout(nonce_candidate(kn), i as nat);
    is_ascii_chars_encode_utf8(c);
    let b = placeholder_bytes(regions[i]);
    assert forall|m: int| 1 <= m < b.len() implies #[trigger] b[m] != '<' as u8 by {
        assert(b[m] == c[m] as u8);
        assert(c[m] != '<');
    }
}

/// No numbered placeholder starts inside the source text between two
/// placeholders: it would either hold the nonce, which the source lacks, or
/// run into the next placeholder's `<`, which it has only at its start.
proof fn lemma_gap_has_no_placeholder(
    source: Seq<u8>,
    regions: Seq<MdxRegion>,
    kn: nat,
    pos: int,
    k: int,
)
    requires
        0 <= k <= regions.len(),
        regions_fit(source.len() as int, regions),
        0 <= pos <= source.len(),
        k < regions.len() ==> pos <= regions[k].start,
        numbered_regions(source, regions, nonce_candidate(kn)),
        nonce_free(source, kn),
    ensures
        no_placeholder_in_prefix(
            regions,
            placeholdered_from(source, regions, pos, k),
            (if k < regions.len() {
                regions[k].start as int
            } else {
                source.len() as int
            }) - pos,
        ),
{
    let t = placeholdered_from(source, regions, pos, k);
    let gap_end = if k < regions.len() {
        regions[k].start as int
    } else {
        source.len() as int
    };
    let g = gap_end - pos;
    let gap = source.subrange(pos, gap_end);
    let nonce = nonce_candidate(kn);
    let en = encode_utf8(nonce);
    lemma_nonce_chars(kn);
    assert(is_ascii_chars(nonce)) by {
        assert forall|m: int| 0 <= m < nonce.len() implies '\0' <= #[trigger] nonce[m] <= '\u{7f}' by {
            assert(is_nonce_char(nonce[m]));
        }
    }
    is_ascii_chars_encode_utf8(nonce);
    assert(t.len() >= g);
    assert forall|m: int| 0 <= m < g implies #[trigger] t[m] == source[pos + m] by {
        if k < regions.len() {
            assert(t[m] == gap[m]);
        }
    }
    if k < regions.len() {
        lemma_numbered_bytes(regions, kn, k);
        assert(t[g] == placeholder_bytes(regions[k])[0]);
    }
    assert forall|p: int| 0 <= p < g implies first_match_from(
        regions,
        #[trigger] t.subrange(p, t.len() as int),
        0,
    ) is None by {
        let tp = t.subrange(p, t.len() as int);
        assert forall|j: int| 0 <= j < regions.len() implies !placeholder_starts(
            #[trigger] regions[j],
            tp,
        ) by {
            let b = placeholder_bytes(regions[j]);
            lemma_numbered_bytes(regions, kn, j);
            lemma_numbered_layout(nonce, j as nat);
            if placeholder_starts(regions[j], tp) {
                assert forall|m: int| 0 <= m < b.len() implies #[trigger] t[p + m] == b[m] by {
                    assert(tp.subrange(0, b.len() as int)[m] == b[m]);
                }
                if p + b.len() <= g {
                    assert(occurs_at(source, en, pos + p + 5)) by {
                        assert forall|m: int| 0 <= m < en.len() implies #[trigger] source.subrange(
                            pos + p + 5,
                            pos + p + 5 + en.len(),
                        )[m] == en[m] by {
                            assert(t[p + 5 + m] == b[5 + m]);
                            assert(numbered_placeholder(nonce, j as nat)[5 + m] == nonce[m]);
                        }
                        assert(source.subrange(pos + p + 5, pos + p + 5 + en.len()) =~= en);
                    }
                    assert(contains_bytes(source, en));
                } else {
                    assert(k < regions.len());
                    assert(t[p + (g - p)] == b[g - p]);
                }
            }
        }
        lemma_first_match_from(regions, tp, 0);
    }
}

proof fn lemma_numbered_recognized_from(
    source: Seq<u8>,
    regions: Seq<MdxRegion>,
    kn: nat,
    pos: int,
    k: int,
)
    requires
        0 <= k <= regions.len(),
        regions_fit(source.len() as int, regions),
        0 <= pos <= source.len(),
        k < regions.len() ==> pos <= regions[k].start,
        numbered_regions(source, regions, nonce_candidate(kn)),
        nonce_free(source, kn),
    ensures
        no_placeholder_in_gaps_from(source, regions, pos, k),
    decreases regions.len() - k,
{
    lemma_gap_has_no_placeholder(source, regions, kn, pos, k);
    if k < regions.len() {
        let end = regions[k].end as int;
        if k + 1 < regions.len() {
            assert(regions[k].end <= regions[k + 1].start);
        }
        lemma_numbered_recognized_from(source, regions, kn, end, k + 1);
    }
}

/// Restoring a text whose regions all carry numbered placeholders built from a
/// nonce that the source does not contain, when the formatter left the text
/// alone, gives back the source.
pub proof fn lemma_restore_numbered_placeholders(
    source: Seq<u8>,
    regions: Seq<MdxRegion>,
    kn: nat,
)
    requires
        regions_fit(source.len() as int, regions),
        numbered_regions(source, regions, nonce_candidate(kn)),
        nonce_free(source, kn),
    ensures
        restore_spec(placeholdered(source, regions), regions) == source,
{
    lemma_numbered_recognized_from(source, regions, kn, 0, 0);
    assert(placeholders_nonempty(regions)) by {
        assert forall|k: int| 0 <= k < regions.len() implies placeholder_bytes(
            #[trigger] regions[k],
        ).len() > 0 by {
            lemma_numbered_bytes(regions, kn, k);
        }
    }
    assert(originals_from_source(source, regions)) by {
        assert forall|k: int| 0 <= k < regions.len() implies original_bytes(#[trigger] regions[k])
            == source.subrange(regions[k].start as int, regions[k].end as int) by {
            assert(regions[k].placeholder@ == numbered_placeholder(nonce_candidate(kn), k as nat));
        }
    }
    lemma_restore_undoes_placeholders(source, regions);
}

/// None of the protected spans of the tree is an ignore directive.
pub open spec fn no_ignore_directives(source: Seq<u8>, tree: MdastNode, config: Configuration) -> bool {
    forall|i: int|
        0 <= i < protected_spans(tree).len() ==> ignore_html_comment(
            decode_utf8(
                source.subrange(
                    #[trigger] protected_spans(tree)[i].start as int,
                    protected_spans(tree)[i].end as int,
                ),
            ),
            config,
        ) is None
}

/// Restoring the placeholdered text of a document whose MDX holds no ignore
/// directive, unformatted, gives back the document.
pub proof fn lemma_unformatted_regions_restore_source(
    source: Seq<u8>,
    tree: MdastNode,
    config: Configuration,
    regions: Seq<MdxRegion>,
)
    requires
        regions_for_tree(source, tree, config, regions),
        regions_fit(source.len() as int, regions),
        no_ignore_directives(source, tree, config),
    ensures
        restore_spec(placeholdered(source, regions), regions) == source,
{
    let spans = protected_spans(tree);
    let nonce = choose|nonce: Seq<char>|
        #![trigger is_first_free_nonce(source, nonce)]
        is_first_free_nonce(source, nonce) && forall|i: int|
            0 <= i < spans.len() ==> is_region_for(
                #[trigger] regions[i],
                source,
                spans[i],
                nonce,
                i as nat,
                config,
            );
    let kn = choose|kn: nat|
        {
            &&& nonce == #[trigger] nonce_candidate(kn)
            &&& nonce_free(source, kn)
            &&& forall|j: nat| j < kn ==> !nonce_free(source, j)
        };
    assert(numbered_regions(source, regions, nonce_candidate(kn))) by {
        assert forall|i: int| 0 <= i < regions.len() implies #[trigger] regions[i].placeholder@
            == numbered_placeholder(nonce_candidate(kn), i as nat) && original_bytes(regions[i])
            == source.subrange(regions[i].start as int, regions[i].end as int) by {
            assert(is_region_for(regions[i], source, spans[i], nonce, i as nat, config));
            let orig = source.subrange(spans[i].start as int, spans[i].end as int);
            assert(decode_utf8(encode_utf8(regions[i].original@)) == regions[i].original@);
            assert(ignore_html_comment(decode_utf8(orig), config) is None);
        }
    }
    lemma_restore_numbered_placeholders(source, regions, kn);
}

/// Formatting with formatters that change nothing leaves the document
/// unchanged whenever restoring the unformatted placeholdered text gives back
/// the document.
proof fn lemma_unchanged_formatting_keeps_document<
    E,
    F: Fn(&str) -> Result<Option<String>, E>,
    C: Fn(&str, &str, u32) -> Result<Option<String>, E>,
>(
    file_text: &str,
    config: Configuration,
    tree: MdastNode,
    format_markdown: F,
    format_code: C,
    res: Result<Option<String>, E>,
)
    requires
        tree_fits(file_text.spec_bytes(), tree),
        forall|regions: Seq<MdxRegion>|
            regions_for_tree(file_text.spec_bytes(), tree, config, regions) ==> #[trigger] restore_spec(
                placeholdered(file_text.spec_bytes(), regions),
                regions,
            ) == file_text.spec_bytes(),
        forall|text: &str, r: Result<Option<String>, E>|
            call_ensures(format_markdown, (text,), r) ==> r == Ok::<Option<String>, E>(None),
        forall|tag: &str, text: &str, width: u32, r: Result<Option<String>, E>|
            call_ensures(format_code, (tag, text, width), r) ==> r == Ok::<Option<String>, E>(
                None,
            ),
        mdx_outcome(file_text, config, Some(tree), format_markdown, format_code, res),
    ensures
        res == Ok::<Option<String>, E>(None),
{
    let source = file_text.spec_bytes();
    if protected_spans(tree).len() > 0 {
        let (regions, text, formatted) = choose|
            regions: Seq<MdxRegion>,
            text: &str,
            formatted: Result<Option<String>, E>,
        |
            {
                &&& regions_for_tree(source, tree, config, regions)
                &&& text.spec_bytes() == placeholdered(source, regions)
                &&& call_ensures(format_markdown, (text,), formatted)
                &&& match formatted {
                    Err(e) => res == Err::<Option<String>, E>(e),
                    Ok(f) => {
                        ||| exists|e: E|
                            code_formatting_failed(
                                regions,
                                esm_flags(tree),
                                format_code,
                                config.line_width,
                                e,
                            ) && res == Err::<Option<String>, E>(e)
                        ||| exists|restored: Seq<MdxRegion>|
                            {
                                &&& restored.len() == regions.len()
                                &&& forall|i: int|
                                    0 <= i < regions.len() ==> code_formatted_region(
                                        regions[i],
                                        esm_flags(tree)[i],
                                        format_code,
                                        config.line_width,
                                        #[trigger] restored[i],
                                    )
                                &&& res matches Ok(r) && finish_spec(
                                    source,
                                    restored,
                                    formatted_or(text.spec_bytes(), f),
                                    r,
                                )
                            }
                    },
                }
            };
        assert(formatted == Ok::<Option<String>, E>(None));
        crate::mdx::lemma_regions_for_tree_fit(source, tree, config, regions);
        assert(restore_spec(placeholdered(source, regions), regions) == source);
        if exists|e: E|
            code_formatting_failed(regions, esm_flags(tree), format_code, config.line_width, e)
        {
            let e = choose|e: E|
                code_formatting_failed(regions, esm_flags(tree), format_code, config.line_width, e);
            let k = choose|k: int|
                {
                    &&& 0 <= k < regions.len()
                    &&& esm_flags(tree)[k]
                    &&& code_result_for(
                        format_code,
                        regions[k].original@,
                        config.line_width,
                        Err::<Option<String>, E>(e),
                    )
                    &&& forall|j: int|
                        0 <= j < k && esm_flags(tree)[j] ==> exists|out: Option<String>|
                            code_result_for(
                                format_code,
                                #[trigger] regions[j].original@,
                                config.line_width,
                                Ok::<Option<String>, E>(out),
                            )
                };
            let (tag, code) = choose|tag: &str, code: &str|
                tag@ == code_tag() && code@ == regions[k].original@ && #[trigger] call_ensures(
                    format_code,
                    (tag, code, config.line_width),
                    Err::<Option<String>, E>(e),
                );
            assert(false);
        }
        let restored = choose|restored: Seq<MdxRegion>|
            {
                &&& restored.len() == regions.len()
                &&& forall|i: int|
                    0 <= i < regions.len() ==> code_formatted_region(
                        regions[i],
                        esm_flags(tree)[i],
                        format_code,
                        config.line_width,
                        #[trigger] restored[i],
                    )
                &&& res matches Ok(r) && finish_spec(
                    source,
                    restored,
                    formatted_or(text.spec_bytes(), Option::<String>::None),
                    r,
                )
            };
        assert(same_restoring(regions, restored)) by {
            assert forall|i: int| 0 <= i < regions.len() implies placeholder_bytes(
                #[trigger] regions[i],
            ) == placeholder_bytes(restored[i]) && original_bytes(regions[i]) == original_bytes(
                restored[i],
            ) by {
                assert(code_formatted_region(
                    regions[i],
                    esm_flags(tree)[i],
                    format_code,
                    config.line_width,
                    restored[i],
                ));
                if esm_flags(tree)[i] {
                    let out = choose|out: Option<String>|
                        code_result_for(
                            format_code,
                            regions[i].original@,
                            config.line_width,
                            Ok::<Option<String>, E>(out),
                        ) && restored[i].original@ == restored_code(regions[i].original@, out);
                    let (tag, code) = choose|tag: &str, code: &str|
                        tag@ == code_tag() && code@ == regions[i].original@ && #[trigger] call_ensures(
                            format_code,
                            (tag, code, config.line_width),
                            Ok::<Option<String>, E>(out),
                        );
                    assert(out is None);
                }
            }
        }
        lemma_restore_same(
            placeholdered(source, regions),
            regions,
            restored,
            none_restored(regions.len()),
        );
    }
}

/// Formatting an MDX document with markdown and code formatters that change
/// nothing leaves the document unchanged, when its MDX holds no ignore
/// directive.
pub proof fn lemma_unchanged_markdown_keeps_document<
    E,
    F: Fn(&str) -> Result<Option<String>, E>,
    C: Fn(&str, &str, u32) -> Result<Option<String>, E>,
>(
    file_text: &str,
    config: Configuration,
    tree: MdastNode,
    format_markdown: F,
    format_code: C,
    res: Result<Option<String>, E>,
)
    requires
        tree_fits(file_text.spec_bytes(), tree),
        no_ignore_directives(file_text.spec_bytes(), tree, config),
        forall|text: &str, r: Result<Option<String>, E>|
            call_ensures(format_markdown, (text,), r) ==> r == Ok::<Option<String>, E>(None),
        forall|tag: &str, text: &str, width: u32, r: Result<Option<String>, E>|
            call_ensures(format_code, (tag, text, width), r) ==> r == Ok::<Option<String>, E>(
                None,
            ),
        mdx_outcome(file_text, config, Some(tree), format_markdown, format_code, res),
    ensures
        res == Ok::<Option<String>, E>(None),
{
    let source = file_text.spec_bytes();
    assert forall|regions: Seq<MdxRegion>| regions_for_tree(source, tree, config, regions) implies #[trigger] restore_spec(
        placeholdered(source, regions),
        regions,
    ) == source by {
        crate::mdx::lemma_regions_for_tree_fit(source, tree, config, regions);
        lemma_unformatted_regions_restore_source(source, tree, config, regions);
    }
    lemma_unchanged_formatting_keeps_document(
        file_text,
        config,
        tree,
        format_markdown,
        format_code,
        res,
    );
}

/// Formatting an MDX document with markdown and code formatters that change
/// nothing leaves the document unchanged whenever, in its placeholdered text,
/// placeholders occur only where they were put in (ignore directives
/// included).
pub proof fn lemma_unchanged_formatting_keeps_document_when_placeholders_only_where_inserted<
    E,
    F: Fn(&str) -> Result<Option<String>, E>,
    C: Fn(&str, &str, u32) -> Result<Option<String>, E>,
>(
    file_text: &str,
    config: Configuration,
    tree: MdastNode,
    format_markdown: F,
    format_code: C,
    res: Result<Option<String>, E>,
)
    requires
        tree_fits(file_text.spec_bytes(), tree),
        forall|regions: Seq<MdxRegion>|
            regions_for_tree(file_text.spec_bytes(), tree, config, regions)
                ==> #[trigger] placeholders_only_where_inserted(file_text.spec_bytes(), regions),
        forall|text: &str, r: Result<Option<String>, E>|
            call_ensures(format_markdown, (text,), r) ==> r == Ok::<Option<String>, E>(None),
        forall|tag: &str, text: &str, width: u32, r: Result<Option<String>, E>|
            call_ensures(format_code, (tag, text, width), r) ==> r == Ok::<Option<String>, E>(
                None,
            ),
        mdx_outcome(file_text, config, Some(tree), format_markdown, format_code, res),
    ensures
        res == Ok::<Option<String>, E>(None),
{
    let source = file_text.spec_bytes();
    assert forall|regions: Seq<MdxRegion>| regions_for_tree(source, tree, config, regions) implies #[trigger] restore_spec(
        placeholdered(source, regions),
        regions,
    ) == source by {
        crate::mdx::lemma_regions_for_tree_fit(source, tree, config, regions);
        assert(placeholders_only_where_inserted(source, regions));
        let spans = protected_spans(tree);
        let nonce = choose|nonce: Seq<char>|
            #![trigger is_first_free_nonce(source, nonce)]
            is_first_free_nonce(source, nonce) && forall|i: int|
                0 <= i < spans.len() ==> is_region_for(
                    #[trigger] regions[i],
                    source,
                    spans[i],
                    nonce,
                    i as nat,
                    config,
                );
        assert(originals_from_source(source, regions)) by {
            assert forall|k: int| 0 <= k < regions.len() implies original_bytes(
                #[trigger] regions[k],
            ) == source.subrange(regions[k].start as int, regions[k].end as int) by {
                assert(is_region_for(regions[k], source, spans[k], nonce, k as nat, config));
            }
        }
        lemma_restore_when_placeholders_only_where_inserted(source, regions);
    }
    lemma_unchanged_formatting_keeps_document(
        file_text,
        config,
        tree,
        format_markdown,
        format_code,
        res,
    );
}

/// A numbered placeholder built from a nonce that the source does not contain
/// does not occur in the source either: placeholders never collide with what
/// the user wrote.
pub proof fn lemma_numbered_placeholder_not_in_source(source: Seq<u8>, kn: nat, i: nat)
    requires
        nonce_free(source, kn),
    ensures
        !contains_bytes(source, encode_utf8(numbered_placeholder(nonce_candidate(kn), i))),
{
    let nonce = nonce_candidate(kn);
    let c = numbered_placeholder(nonce, i);
    let b = encode_utf8(c);
    let en = encode_utf8(nonce);
    lemma_numbered_chars(kn, i);
    lemma_numbered_layout(nonce, i);
    lemma_nonce_chars(kn);
    assert(is_ascii_chars(nonce)) by {
        assert forall|m: int| 0 <= m < nonce.len() implies '\0' <= #[trigger] nonce[m] <= '\u{7f}' by {
            assert(is_nonce_char(nonce[m]));
        }
    }
    is_ascii_chars_encode_utf8(nonce);
    is_ascii_chars_encode_utf8(c);
    if contains_bytes(source, b) {
        let at = choose|at: int| occurs_at(source, b, at);
        assert(occurs_at(source, en, at + 5)) by {
            assert forall|m: int| 0 <= m < en.len() implies #[trigger] source.subrange(
                at + 5,
                at + 5 + en.len(),
            )[m] == en[m] by {
                assert(source.subrange(at, at + b.len())[5 + m] == b[5 + m]);
                assert(c[5 + m] == nonce[m]);
            }
            assert(source.subrange(at + 5, at + 5 + en.len()) =~= en);
        }
    }
}

} // verus!
