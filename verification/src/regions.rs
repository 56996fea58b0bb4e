//! Regions of a source text that stand in for MDX syntax: swapping them for
//! their placeholders, and swapping the placeholders back.
use vstd::prelude::*;
use vstd::string::StringSliceAdditionalSpecFns;
use vstd::utf8::*;
use crate::text::{
    lemma_boundary_by_byte, lemma_boundary_byte, lemma_slice_valid, lemma_valid_prefix_boundary,
    occurs_at, occurs_at_exec, push_str, str_slice, string_bytes,
};

verus! {

broadcast use encode_utf8_valid_utf8, encode_utf8_decode_utf8;

/// A region of the source that holds MDX-specific syntax, together with the
/// text to substitute for it while the markdown formatter runs.
pub struct MdxRegion {
    /// Byte offset where the region starts in the source.
    pub start: usize,
    /// Byte offset just past the region in the source.
    pub end: usize,
    /// What the formatter sees in place of the original text.
    pub placeholder: String,
    /// The original text, restored after formatting.
    pub original: String,
}

/// The bytes of a region's placeholder.
pub open spec fn placeholder_bytes(r: MdxRegion) -> Seq<u8> {
    string_bytes(r.placeholder)
}

/// The bytes of a region's original text.
pub open spec fn original_bytes(r: MdxRegion) -> Seq<u8> {
    string_bytes(r.original)
}

/// The placeholder of `r` is not empty and `t` starts with it.
pub open spec fn placeholder_starts(r: MdxRegion, t: Seq<u8>) -> bool {
    placeholder_bytes(r).len() > 0 && occurs_at(t, placeholder_bytes(r), 0)
}

/// The index of the first region, from `k` on, whose placeholder starts `t`.
pub open spec fn first_match_from(regions: Seq<MdxRegion>, t: Seq<u8>, k: int) -> Option<int>
    decreases regions.len() - k,
{
    if k < 0 || k >= regions.len() {
        None
    } else if placeholder_starts(regions[k], t) {
        Some(k)
    } else {
        first_match_from(regions, t, k + 1)
    }
}

/// What `first_match_from` finds is a region whose placeholder starts `t`,
/// and every region before it in the searched range does not.
pub proof fn lemma_first_match_from(regions: Seq<MdxRegion>, t: Seq<u8>, k: int)
    requires
        0 <= k,
    ensures
        first_match_from(regions, t, k) matches Some(j) ==> {
            &&& k <= j < regions.len()
            &&& placeholder_starts(regions[j], t)
            &&& forall|m: int| k <= m < j ==> !placeholder_starts(#[trigger] regions[m], t)
        },
        first_match_from(regions, t, k) is None ==> forall|m: int|
            k <= m < regions.len() ==> !placeholder_starts(#[trigger] regions[m], t),
    decreases regions.len() - k,
{
    if k < regions.len() && !placeholder_starts(regions[k], t) {
        lemma_first_match_from(regions, t, k + 1);
        assert forall|m: int| k <= m < regions.len() && first_match_from(regions, t, k) is None
            implies !placeholder_starts(#[trigger] regions[m], t) by {
            if m == k {
                assert(!placeholder_starts(regions[k], t));
            }
        }
    }
}

/// The index of the first region, from `k` on, that has not been restored
/// yet (`used`) and whose placeholder starts `t`.
pub open spec fn first_unused_match_from(
    regions: Seq<MdxRegion>,
    t: Seq<u8>,
    used: Seq<bool>,
    k: int,
) -> Option<int>
    decreases regions.len() - k,
{
    if k < 0 || k >= regions.len() {
        None
    } else if !used[k] && placeholder_starts(regions[k], t) {
        Some(k)
    } else {
        first_unused_match_from(regions, t, used, k + 1)
    }
}

/// What `first_unused_match_from` finds is a region not yet restored whose
/// placeholder starts `t`, and every region before it in the searched range is
/// restored already or does not start `t`.
pub proof fn lemma_first_unused_match_from(
    regions: Seq<MdxRegion>,
    t: Seq<u8>,
    used: Seq<bool>,
    k: int,
)
    requires
        0 <= k,
    ensures
        first_unused_match_from(regions, t, used, k) matches Some(j) ==> {
            &&& k <= j < regions.len()
            &&& !used[j]
            &&& placeholder_starts(regions[j], t)
            &&& forall|m: int|
                k <= m < j ==> used[m] || !placeholder_starts(#[trigger] regions[m], t)
        },
        first_unused_match_from(regions, t, used, k) is None ==> forall|m: int|
            k <= m < regions.len() ==> used[m] || !placeholder_starts(#[trigger] regions[m], t),
    decreases regions.len() - k,
{
    if k < regions.len() && !(!used[k] && placeholder_starts(regions[k], t)) {
        lemma_first_unused_match_from(regions, t, used, k + 1);
        assert forall|m: int|
            k <= m < regions.len() && first_unused_match_from(regions, t, used, k) is None
            implies used[m] || !placeholder_starts(#[trigger] regions[m], t) by {
            if m == k {
                assert(used[k] || !placeholder_starts(regions[k], t));
            }
        }
    }
}

/// The region whose original is written where `t` starts: the first region
/// not restored yet whose placeholder starts `t`, so that every region gets
/// its own original back even where placeholders repeat; or, where the
/// formatter repeated a placeholder and every such region is restored
/// already, the first region whose placeholder starts `t`.
pub open spec fn pick_region(regions: Seq<MdxRegion>, t: Seq<u8>, used: Seq<bool>) -> Option<int> {
    match first_unused_match_from(regions, t, used, 0) {
        Some(j) => Some(j),
        None => first_match_from(regions, t, 0),
    }
}

/// The picked region's placeholder starts `t`; where no placeholder starts
/// `t`, none is picked.
pub proof fn lemma_pick_region(regions: Seq<MdxRegion>, t: Seq<u8>, used: Seq<bool>)
    ensures
        pick_region(regions, t, used) matches Some(j) ==> 0 <= j < regions.len()
            && placeholder_starts(regions[j], t),
        first_match_from(regions, t, 0) is None ==> pick_region(regions, t, used) is None,
{
    lemma_first_unused_match_from(regions, t, used, 0);
    lemma_first_match_from(regions, t, 0);
    if first_match_from(regions, t, 0) is None {
        if first_unused_match_from(regions, t, used, 0) is Some {
            let j = first_unused_match_from(regions, t, used, 0)->0;
            assert(!placeholder_starts(regions[j], t));
        }
    }
}

/// None of the regions is restored yet.
pub open spec fn none_restored(n: nat) -> Seq<bool> {
    Seq::new(n, |i: int| false)
}

/// The text with every placeholder swapped back for its original, `used`
/// telling which regions were restored already: the text is read from the
/// left; where a placeholder starts the rest, the original of the region
/// `pick_region` picks is written, the region is marked restored, and its
/// placeholder is skipped; otherwise one byte is copied.
///
/// Reading byte by byte rather than character by character makes no
/// difference: a placeholder is text, so it can only start where a character
/// starts (see `lemma_occurrence_boundaries`).
pub open spec fn restore_from(t: Seq<u8>, regions: Seq<MdxRegion>, used: Seq<bool>) -> Seq<u8>
    decreases t.len(),
{
    if t.len() == 0 {
        seq![]
    } else {
        match pick_region(regions, t, used) {
            Some(j) => {
                proof {
                    lemma_pick_region(regions, t, used);
                }
                original_bytes(regions[j]) + restore_from(
                    t.subrange(placeholder_bytes(regions[j]).len() as int, t.len() as int),
                    regions,
                    used.update(j, true),
                )
            },
            None => seq![t[0]] + restore_from(t.subrange(1, t.len() as int), regions, used),
        }
    }
}

/// The text with every placeholder swapped back for its original, no region
/// being restored at the start.
pub open spec fn restore_spec(t: Seq<u8>, regions: Seq<MdxRegion>) -> Seq<u8> {
    restore_from(t, regions, none_restored(regions.len()))
}

/// Every placeholder is non-empty.
pub open spec fn placeholders_nonempty(regions: Seq<MdxRegion>) -> bool {
    forall|k: int| 0 <= k < regions.len() ==> placeholder_bytes(#[trigger] regions[k]).len() > 0
}

/// Where a non-empty valid text occurs in a valid text, both ends of the
/// occurrence are character boundaries.
proof fn lemma_occurrence_boundaries(t: Seq<u8>, p: Seq<u8>, i: int)
    requires
        valid_utf8(t),
        valid_utf8(p),
        p.len() > 0,
        occurs_at(t, p, i),
    ensures
        is_char_boundary(t, i),
        is_char_boundary(t, i + p.len()),
{
    assert(valid_first_scalar(p));
    assert(t[i] == p[0]) by {
        assert(t.subrange(i, i + p.len())[0] == t[i]);
    }
    lemma_boundary_by_byte(t, i);
    lemma_slice_valid(t, i, i);
    let rest = t.subrange(i, t.len() as int);
    assert(rest.subrange(0, p.len() as int) =~= p);
    lemma_valid_prefix_boundary(rest, p);
    lemma_boundary_byte(rest, p.len() as int);
    if i + p.len() < t.len() {
        assert(rest[p.len() as int] == t[i + p.len()]);
    }
    lemma_boundary_by_byte(t, i + p.len());
}

/// Whether the placeholder of `region` is not empty and occurs in `bytes` at
/// `at`.
fn placeholder_starts_at(bytes: &[u8], region: &MdxRegion, at: usize) -> (r: bool)
    requires
        at <= bytes@.len(),
    ensures
        r == placeholder_starts(*region, bytes@.subrange(at as int, bytes@.len() as int)),
{
    let ghost t = bytes@.subrange(at as int, bytes@.len() as int);
    let p = region.placeholder.as_str().as_bytes();
    proof {
        let pb = placeholder_bytes(*region);
        assert(p@ == pb);
        if occurs_at(bytes@, pb, at as int) || occurs_at(t, pb, 0) {
            assert(t.subrange(0, pb.len() as int) =~= bytes@.subrange(at as int, at + pb.len()));
        }
    }
    p.len() > 0 && occurs_at_exec(bytes, p, at)
}

/// Picks the region whose original is written where `bytes` is read at `at`.
fn pick_at(bytes: &[u8], regions: &[MdxRegion], used: &Vec<bool>, at: usize) -> (r: Option<usize>)
    requires
        at <= bytes@.len(),
        used@.len() == regions@.len(),
    ensures
        pick_region(regions@, bytes@.subrange(at as int, bytes@.len() as int), used@) == match r {
            Some(j) => Some(j as int),
            None => None::<int>,
        },
{
    let ghost t = bytes@.subrange(at as int, bytes@.len() as int);
    let mut k: usize = 0;
    while k < regions.len()
        invariant
            k <= regions@.len(),
            at <= bytes@.len(),
            used@.len() == regions@.len(),
            t == bytes@.subrange(at as int, bytes@.len() as int),
            first_unused_match_from(regions@, t, used@, 0) == first_unused_match_from(
                regions@,
                t,
                used@,
                k as int,
            ),
        decreases regions@.len() - k,
    {
        if !used[k] && placeholder_starts_at(bytes, &regions[k], at) {
            return Some(k);
        }
        k = k + 1;
    }
    let mut k: usize = 0;
    while k < regions.len()
        invariant
            k <= regions@.len(),
            at <= bytes@.len(),
            t == bytes@.subrange(at as int, bytes@.len() as int),
            first_unused_match_from(regions@, t, used@, 0) is None,
            first_match_from(regions@, t, 0) == first_match_from(regions@, t, k as int),
        decreases regions@.len() - k,
    {
        if placeholder_starts_at(bytes, &regions[k], at) {
            return Some(k);
        }
        k = k + 1;
    }
    None
}

/// Restores all placeholders in a single scan of the formatted text, avoiding
/// repeated global replacements that could cascade or collide.
pub fn restore_regions(text: &str, regions: &[MdxRegion]) -> (res: String)
    requires
        text.spec_bytes().len() == 0 || placeholders_nonempty(regions@),
    ensures
        string_bytes(res) == restore_spec(text.spec_bytes(), regions@),
{
    let bytes = text.as_bytes();
    let ghost t = text.spec_bytes();
    let mut used: Vec<bool> = Vec::new();
    let mut k: usize = 0;
    while k < regions.len()
        invariant
            k <= regions@.len(),
            used@ == none_restored(k as nat),
        decreases regions@.len() - k,
    {
        used.push(false);
        proof {
            assert(used@ =~= none_restored((k + 1) as nat));
        }
        k = k + 1;
    }
    let mut result = String::new();
    let mut copied: usize = 0;
    let mut i: usize = 0;
    proof {
        assert(t.subrange(0, t.len() as int) =~= t);
        assert(t.subrange(0, 0) =~= Seq::<u8>::empty());
        is_char_boundary_start_end_of_seq(t);
    }
    while i < bytes.len()
        invariant
            bytes@ == t,
            t == text.spec_bytes(),
            used@.len() == regions@.len(),
            copied <= i <= t.len(),
            is_char_boundary(t, copied as int),
            string_bytes(result) + t.subrange(copied as int, i as int) + restore_from(
                t.subrange(i as int, t.len() as int),
                regions@,
                used@,
            ) == restore_spec(t, regions@),
        decreases t.len() - i,
    {
        let ghost rest = t.subrange(i as int, t.len() as int);
        let found = pick_at(bytes, regions, &used, i);
        match found {
            Some(j) => {
                let ghost pb = placeholder_bytes(regions@[j as int]);
                proof {
                    lemma_pick_region(regions@, rest, used@);
                    assert(occurs_at(t, pb, i as int)) by {
                        assert(rest.subrange(0, pb.len() as int) =~= t.subrange(
                            i as int,
                            i + pb.len(),
                        ));
                    }
                    lemma_occurrence_boundaries(t, pb, i as int);
                }
                let piece = str_slice(text, copied, i);
                push_str(&mut result, piece);
                push_str(&mut result, regions[j].original.as_str());
                let plen = regions[j].placeholder.as_str().len();
                proof {
                    assert(plen == pb.len());
                    assert(rest.subrange(pb.len() as int, rest.len() as int) =~= t.subrange(
                        i + pb.len(),
                        t.len() as int,
                    ));
                    assert(t.subrange(i + pb.len(), i + pb.len()) =~= Seq::<u8>::empty());
                }
                used.set(j, true);
                proof {
                    assert(string_bytes(result) + t.subrange(i + pb.len(), i + pb.len())
                        + restore_from(t.subrange(i + pb.len(), t.len() as int), regions@, used@)
                        =~= string_bytes(result) + restore_from(
                        t.subrange(i + pb.len(), t.len() as int),
                        regions@,
                        used@,
                    ));
                }
                i = i + plen;
                copied = i;
            },
            None => {
                proof {
                    assert(rest.subrange(1, rest.len() as int) =~= t.subrange(
                        i + 1,
                        t.len() as int,
                    ));
                    assert(t.subrange(copied as int, i + 1) =~= t.subrange(copied as int, i as int)
                        + seq![t[i as int]]);
                }
                i = i + 1;
            },
        }
    }
    proof {
        is_char_boundary_start_end_of_seq(t);
        assert(t.subrange(i as int, t.len() as int) =~= Seq::<u8>::empty());
    }
    let tail = str_slice(text, copied, bytes.len());
    push_str(&mut result, tail);
    proof {
        assert(string_bytes(result) =~= restore_spec(t, regions@));
    }
    result
}

/// The regions lie in order inside a text of `len` bytes: each ends no earlier
/// than it starts, within the text, and no later than the next one starts.
pub open spec fn regions_fit(len: int, regions: Seq<MdxRegion>) -> bool {
    &&& forall|k: int|
        0 <= k < regions.len() ==> #[trigger] regions[k].start <= regions[k].end <= len
    &&& forall|k: int| 0 < k < regions.len() ==> regions[k - 1].end <= #[trigger] regions[k].start
}

/// Every region boundary is a character boundary of `source`.
pub open spec fn regions_on_boundaries(source: Seq<u8>, regions: Seq<MdxRegion>) -> bool {
    forall|k: int|
        0 <= k < regions.len() ==> is_char_boundary(source, #[trigger] regions[k].start as int)
            && is_char_boundary(source, regions[k].end as int)
}

/// Where the text between regions resumes before region `k`: the start of the
/// source, or the end of the region before.
pub open spec fn gap_start(regions: Seq<MdxRegion>, k: int) -> int {
    if k <= 0 {
        0
    } else {
        regions[k - 1].end as int
    }
}

/// The source from byte `pos` on, with regions `k..` replaced by their
/// placeholders.
pub open spec fn placeholdered_from(
    source: Seq<u8>,
    regions: Seq<MdxRegion>,
    pos: int,
    k: int,
) -> Seq<u8>
    decreases regions.len() - k,
{
    if k < 0 || k >= regions.len() {
        source.subrange(pos, source.len() as int)
    } else {
        source.subrange(pos, regions[k].start as int) + placeholder_bytes(regions[k])
            + placeholdered_from(source, regions, regions[k].end as int, k + 1)
    }
}

/// The source with every region replaced by its placeholder.
pub open spec fn placeholdered(source: Seq<u8>, regions: Seq<MdxRegion>) -> Seq<u8> {
    placeholdered_from(source, regions, 0, 0)
}

/// Builds the text with all MDX regions replaced by their placeholders.
pub fn build_placeholdered_text(source: &str, regions: &[MdxRegion]) -> (res: String)
    requires
        regions_fit(source.spec_bytes().len() as int, regions@),
        regions_on_boundaries(source.spec_bytes(), regions@),
    ensures
        string_bytes(res) == placeholdered(source.spec_bytes(), regions@),
{
    let ghost s = source.spec_bytes();
    let mut result = String::new();
    let mut pos: usize = 0;
    let mut k: usize = 0;
    proof {
        is_char_boundary_start_end_of_seq(s);
    }
    while k < regions.len()
        invariant
            s == source.spec_bytes(),
            regions_fit(s.len() as int, regions@),
            regions_on_boundaries(s, regions@),
            k <= regions@.len(),
            pos == gap_start(regions@, k as int),
            is_char_boundary(s, pos as int),
            pos <= s.len(),
            k < regions@.len() ==> pos <= regions@[k as int].start,
            string_bytes(result) + placeholdered_from(s, regions@, pos as int, k as int)
                == placeholdered(s, regions@),
        decreases regions@.len() - k,
    {
        let region = &regions[k];
        let piece = str_slice(source, pos, region.start);
        push_str(&mut result, piece);
        push_str(&mut result, region.placeholder.as_str());
        proof {
            assert(string_bytes(result) + placeholdered_from(
                s,
                regions@,
                region.end as int,
                k + 1,
            ) =~= placeholdered(s, regions@));
        }
        pos = region.end;
        k = k + 1;
    }
    let len = source.as_bytes().len();
    proof {
        is_char_boundary_start_end_of_seq(s);
    }
    let tail = str_slice(source, pos, len);
    push_str(&mut result, tail);
    result
}

/// No placeholder starts at any of the first `g` bytes of `t`.
pub open spec fn no_placeholder_in_prefix(regions: Seq<MdxRegion>, t: Seq<u8>, g: int) -> bool {
    forall|p: int|
        0 <= p < g ==> first_match_from(regions, #[trigger] t.subrange(p, t.len() as int), 0)
            is None
}

/// Every region holds, as its original, the source text it covers.
pub open spec fn originals_from_source(source: Seq<u8>, regions: Seq<MdxRegion>) -> bool {
    forall|k: int|
        0 <= k < regions.len() ==> original_bytes(#[trigger] regions[k]) == source.subrange(
            regions[k].start as int,
            regions[k].end as int,
        )
}

/// In the placeholdered text from byte `pos` and region `k` on, no placeholder
/// starts inside the source text between the placeholders that were put in.
pub open spec fn no_placeholder_in_gaps_from(
    source: Seq<u8>,
    regions: Seq<MdxRegion>,
    pos: int,
    k: int,
) -> bool
    decreases regions.len() - k,
{
    let t = placeholdered_from(source, regions, pos, k);
    if k < 0 || k >= regions.len() {
        no_placeholder_in_prefix(regions, t, source.len() - pos)
    } else {
        &&& no_placeholder_in_prefix(regions, t, regions[k].start - pos)
        &&& no_placeholder_in_gaps_from(source, regions, regions[k].end as int, k + 1)
    }
}

/// The regions before `k` are restored, the others not.
pub open spec fn used_before(n: nat, k: int) -> Seq<bool> {
    Seq::new(n, |i: int| i < k)
}

/// Restoring passes source text in which no placeholder starts through
/// unchanged.
proof fn lemma_restore_gap(g: Seq<u8>, r: Seq<u8>, regions: Seq<MdxRegion>, used: Seq<bool>)
    requires
        no_placeholder_in_prefix(regions, g + r, g.len() as int),
    ensures
        restore_from(g + r, regions, used) == g + restore_from(r, regions, used),
    decreases g.len(),
{
    if g.len() == 0 {
        assert(g + r =~= r);
        assert(g + restore_from(r, regions, used) =~= restore_from(r, regions, used));
    } else {
        let t = g + r;
        assert(t.subrange(0, t.len() as int) =~= t);
        assert(first_match_from(regions, t.subrange(0, t.len() as int), 0) is None);
        lemma_pick_region(regions, t, used);
        let g1 = g.subrange(1, g.len() as int);
        assert(t.subrange(1, t.len() as int) =~= g1 + r);
        assert forall|p: int| 0 <= p < g1.len() implies first_match_from(
            regions,
            #[trigger] (g1 + r).subrange(p, (g1 + r).len() as int),
            0,
        ) is None by {
            assert((g1 + r).subrange(p, (g1 + r).len() as int) =~= t.subrange(
                p + 1,
                t.len() as int,
            ));
        }
        lemma_restore_gap(g1, r, regions, used);
        assert(seq![t[0]] + (g1 + restore_from(r, regions, used)) =~= g + restore_from(
            r,
            regions,
            used,
        ));
    }
}

proof fn lemma_first_unused_is(regions: Seq<MdxRegion>, t: Seq<u8>, k: int, i: int)
    requires
        0 <= i <= k < regions.len(),
        placeholder_starts(regions[k], t),
    ensures
        first_unused_match_from(regions, t, used_before(regions.len(), k), i) == Some(k),
    decreases k - i,
{
    if i < k {
        lemma_first_unused_is(regions, t, k, i + 1);
    }
}

/// Where the regions before `k` are restored, the placeholder of region `k`
/// brings back region `k`'s own original.
proof fn lemma_restore_inserted(p: Seq<u8>, r: Seq<u8>, regions: Seq<MdxRegion>, k: int)
    requires
        0 <= k < regions.len(),
        p == placeholder_bytes(regions[k]),
        p.len() > 0,
    ensures
        restore_from(p + r, regions, used_before(regions.len(), k)) == original_bytes(regions[k])
            + restore_from(r, regions, used_before(regions.len(), k + 1)),
{
    let t = p + r;
    assert(t.subrange(0, p.len() as int) =~= p);
    lemma_first_unused_is(regions, t, k, 0);
    assert(t.subrange(p.len() as int, t.len() as int) =~= r);
    assert(used_before(regions.len(), k).update(k, true) =~= used_before(regions.len(), k + 1));
}

proof fn lemma_restore_placeholdered_from(
    source: Seq<u8>,
    regions: Seq<MdxRegion>,
    pos: int,
    k: int,
)
    requires
        0 <= k <= regions.len(),
        regions_fit(source.len() as int, regions),
        0 <= pos <= source.len(),
        k < regions.len() ==> pos <= regions[k].start,
        placeholders_nonempty(regions),
        originals_from_source(source, regions),
        no_placeholder_in_gaps_from(source, regions, pos, k),
    ensures
        restore_from(
            placeholdered_from(source, regions, pos, k),
            regions,
            used_before(regions.len(), k),
        ) == source.subrange(pos, source.len() as int),
    decreases regions.len() - k,
{
    let used = used_before(regions.len(), k);
    if k == regions.len() {
        let g = source.subrange(pos, source.len() as int);
        assert(g + Seq::<u8>::empty() =~= g);
        lemma_restore_gap(g, Seq::<u8>::empty(), regions, used);
        assert(g + restore_from(Seq::<u8>::empty(), regions, used) =~= g);
    } else {
        let start = regions[k].start as int;
        let end = regions[k].end as int;
        let g = source.subrange(pos, start);
        let p = placeholder_bytes(regions[k]);
        let after = placeholdered_from(source, regions, end, k + 1);
        let t = placeholdered_from(source, regions, pos, k);
        assert(t == g + (p + after)) by {
            assert(t =~= g + (p + after));
        }
        lemma_restore_gap(g, p + after, regions, used);
        lemma_restore_inserted(p, after, regions, k);
        if k + 1 < regions.len() {
            assert(regions[k].end <= regions[k + 1].start);
        }
        lemma_restore_placeholdered_from(source, regions, end, k + 1);
        assert(g + (source.subrange(start, end) + source.subrange(end, source.len() as int))
            =~= source.subrange(pos, source.len() as int));
    }
}

/// Restoring a placeholdered text that the formatter left alone gives back
/// the source whenever no placeholder starts inside the source text between
/// the placeholders put in and each region holds the source text it covers:
/// each placeholder brings back its own region's original, also where
/// placeholders repeat.
pub proof fn lemma_restore_undoes_placeholders(source: Seq<u8>, regions: Seq<MdxRegion>)
    requires
        regions_fit(source.len() as int, regions),
        placeholders_nonempty(regions),
        originals_from_source(source, regions),
        no_placeholder_in_gaps_from(source, regions, 0, 0),
    ensures
        restore_spec(placeholdered(source, regions), regions) == source,
{
    lemma_restore_placeholdered_from(source, regions, 0, 0);
    assert(used_before(regions.len(), 0) =~= none_restored(regions.len()));
    assert(source.subrange(0, source.len() as int) =~= source);
}

/// Two region lists with the same placeholders and the same originals, place
/// by place.
pub open spec fn same_restoring(r1: Seq<MdxRegion>, r2: Seq<MdxRegion>) -> bool {
    &&& r1.len() == r2.len()
    &&& forall|i: int|
        0 <= i < r1.len() ==> placeholder_bytes(#[trigger] r1[i]) == placeholder_bytes(r2[i])
            && original_bytes(r1[i]) == original_bytes(r2[i])
}

proof fn lemma_first_match_same(
    r1: Seq<MdxRegion>,
    r2: Seq<MdxRegion>,
    t: Seq<u8>,
    used: Seq<bool>,
    k: int,
)
    requires
        same_restoring(r1, r2),
    ensures
        first_match_from(r1, t, k) == first_match_from(r2, t, k),
        first_unused_match_from(r1, t, used, k) == first_unused_match_from(r2, t, used, k),
    decreases r1.len() - k,
{
    if 0 <= k < r1.len() {
        assert(placeholder_bytes(r1[k]) == placeholder_bytes(r2[k]));
        lemma_first_match_same(r1, r2, t, used, k + 1);
    }
}

/// Restoring depends on the regions only through their placeholders and
/// originals.
pub proof fn lemma_restore_same(
    t: Seq<u8>,
    r1: Seq<MdxRegion>,
    r2: Seq<MdxRegion>,
    used: Seq<bool>,
)
    requires
        same_restoring(r1, r2),
    ensures
        restore_from(t, r1, used) == restore_from(t, r2, used),
    decreases t.len(),
{
    if t.len() > 0 {
        lemma_first_match_same(r1, r2, t, used, 0);
        lemma_pick_region(r1, t, used);
        match pick_region(r1, t, used) {
            Some(j) => {
                assert(placeholder_bytes(r1[j]) == placeholder_bytes(r2[j]));
                assert(original_bytes(r1[j]) == original_bytes(r2[j]));
                lemma_restore_same(
                    t.subrange(placeholder_bytes(r1[j]).len() as int, t.len() as int),
                    r1,
                    r2,
                    used.update(j, true),
                );
            },
            None => {
                lemma_restore_same(t.subrange(1, t.len() as int), r1, r2, used);
            },
        }
    }
}

/// The placeholdered text up to the source text that precedes region `k`.
pub open spec fn placeholdered_prefix(source: Seq<u8>, regions: Seq<MdxRegion>, k: int) -> Seq<u8>
    decreases k,
{
    if k <= 0 {
        seq![]
    } else {
        placeholdered_prefix(source, regions, k - 1) + source.subrange(
            gap_start(regions, k - 1),
            regions[k - 1].start as int,
        ) + placeholder_bytes(regions[k - 1])
    }
}

/// Where the placeholder of region `k` starts in the placeholdered text.
pub open spec fn inserted_at(source: Seq<u8>, regions: Seq<MdxRegion>, k: int) -> int {
    placeholdered_prefix(source, regions, k).len() + regions[k].start - gap_start(regions, k)
}

/// Wherever the placeholder of a region starts in the placeholdered text, a
/// region with that same placeholder was put in there.
pub open spec fn placeholders_only_where_inserted(source: Seq<u8>, regions: Seq<MdxRegion>) -> bool {
    let t = placeholdered(source, regions);
    forall|p: int, j: int|
        0 <= p < t.len() && 0 <= j < regions.len() && #[trigger] placeholder_starts(
            regions[j],
            t.subrange(p, t.len() as int),
        ) ==> exists|k: int|
            0 <= k < regions.len() && inserted_at(source, regions, k) == p && placeholder_bytes(
                regions[k],
            ) == placeholder_bytes(regions[j])
}

proof fn lemma_placeholdered_split(source: Seq<u8>, regions: Seq<MdxRegion>, k: int)
    requires
        0 <= k <= regions.len(),
    ensures
        placeholdered(source, regions) == placeholdered_prefix(source, regions, k)
            + placeholdered_from(source, regions, gap_start(regions, k), k),
    decreases k,
{
    if k == 0 {
        assert(placeholdered_prefix(source, regions, 0) + placeholdered(source, regions)
            =~= placeholdered(source, regions));
    } else {
        lemma_placeholdered_split(source, regions, k - 1);
        assert(placeholdered_prefix(source, regions, k) + placeholdered_from(
            source,
            regions,
            gap_start(regions, k),
            k,
        ) =~= placeholdered_prefix(source, regions, k - 1) + placeholdered_from(
            source,
            regions,
            gap_start(regions, k - 1),
            k - 1,
        ));
    }
}

/// The prefixes grow with `k`, each by the source text before region `k - 1`
/// and its placeholder.
proof fn lemma_prefix_grows(source: Seq<u8>, regions: Seq<MdxRegion>, m: int, k: int)
    requires
        0 <= m <= k <= regions.len(),
        regions_fit(source.len() as int, regions),
    ensures
        placeholdered_prefix(source, regions, m).len() <= placeholdered_prefix(
            source,
            regions,
            k,
        ).len(),
    decreases k - m,
{
    if m < k {
        lemma_prefix_grows(source, regions, m, k - 1);
        if k - 1 > 0 {
            assert(regions[k - 2].end <= regions[k - 1].start);
        }
        assert(regions[k - 1].start <= regions[k - 1].end);
    }
}

/// Distinct regions have their placeholders put in at distinct places.
proof fn lemma_inserted_at_order(source: Seq<u8>, regions: Seq<MdxRegion>, m: int, k: int)
    requires
        0 <= m < regions.len(),
        0 <= k < regions.len(),
        regions_fit(source.len() as int, regions),
        placeholders_nonempty(regions),
    ensures
        m < k ==> inserted_at(source, regions, m) < placeholdered_prefix(source, regions, k).len(),
        m > k ==> inserted_at(source, regions, m) > inserted_at(source, regions, k),
        placeholdered_prefix(source, regions, k).len() <= inserted_at(source, regions, k),
{
    if k > 0 {
        assert(regions[k - 1].end <= regions[k].start);
    }
    assert(placeholder_bytes(regions[m]).len() > 0);
    assert(placeholder_bytes(regions[k]).len() > 0);
    if m > 0 {
        assert(regions[m - 1].end <= regions[m].start);
    }
    if m < k {
        lemma_prefix_grows(source, regions, m + 1, k);
        assert(regions[m].start <= regions[m].end);
    }
    if m > k {
        lemma_prefix_grows(source, regions, k + 1, m);
    }
}

proof fn lemma_gaps_where_inserted(source: Seq<u8>, regions: Seq<MdxRegion>, k: int)
    requires
        0 <= k <= regions.len(),
        regions_fit(source.len() as int, regions),
        placeholders_nonempty(regions),
        placeholders_only_where_inserted(source, regions),
    ensures
        no_placeholder_in_gaps_from(source, regions, gap_start(regions, k), k),
    decreases regions.len() - k,
{
    let n = regions.len() as int;
    let big = placeholdered(source, regions);
    let pre = placeholdered_prefix(source, regions, k);
    let gs = gap_start(regions, k);
    let t = placeholdered_from(source, regions, gs, k);
    lemma_placeholdered_split(source, regions, k);
    let l = pre.len() as int;
    assert forall|p: int| 0 <= p <= t.len() implies #[trigger] t.subrange(p, t.len() as int)
        == big.subrange(l + p, big.len() as int) by {
        assert(t.subrange(p, t.len() as int) =~= big.subrange(l + p, big.len() as int));
    }
    let gap_end = if k < n {
        regions[k].start as int
    } else {
        source.len() as int
    };
    assert forall|p: int| 0 <= p < gap_end - gs implies first_match_from(
        regions,
        #[trigger] t.subrange(p, t.len() as int),
        0,
    ) is None by {
        let tp = t.subrange(p, t.len() as int);
        lemma_first_match_from(regions, tp, 0);
        if first_match_from(regions, tp, 0) is Some {
            let j = first_match_from(regions, tp, 0)->0;
            assert(placeholder_starts(regions[j], big.subrange(l + p, big.len() as int)));
            let m = choose|m: int|
                0 <= m < regions.len() && inserted_at(source, regions, m) == l + p
                    && placeholder_bytes(regions[m]) == placeholder_bytes(regions[j]);
            if k < n {
                lemma_inserted_at_order(source, regions, m, k);
            } else {
                assert(m < k);
                lemma_prefix_grows(source, regions, m + 1, k);
                assert(regions[m].start <= regions[m].end);
                if m > 0 {
                    assert(regions[m - 1].end <= regions[m].start);
                }
                assert(placeholder_bytes(regions[m]).len() > 0);
            }
        }
    }
    if k < n {
        if k + 1 < n {
            assert(regions[k].end <= regions[k + 1].start);
        }
        lemma_gaps_where_inserted(source, regions, k + 1);
        assert(gap_start(regions, k + 1) == regions[k].end);
    }
}

/// Restoring a placeholdered text that the formatter left alone gives back
/// the source whenever placeholders occur in it only where they were put in
/// and each region holds the source text it covers.
pub proof fn lemma_restore_when_placeholders_only_where_inserted(
    source: Seq<u8>,
    regions: Seq<MdxRegion>,
)
    requires
        regions_fit(source.len() as int, regions),
        placeholders_nonempty(regions),
        originals_from_source(source, regions),
        placeholders_only_where_inserted(source, regions),
    ensures
        restore_spec(placeholdered(source, regions), regions) == source,
{
    lemma_gaps_where_inserted(source, regions, 0);
    lemma_restore_undoes_placeholders(source, regions);
}

} // verus!
