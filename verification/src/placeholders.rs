//! Choosing the placeholder that stands in for each MDX region.
use vstd::prelude::*;
use vstd::string::StringSliceAdditionalSpecFns;
use vstd::utf8::*;
use crate::regions::{original_bytes, MdxRegion};
use crate::spans::{spans_on_boundaries, spans_within, MdxSpan};
use crate::text::{contains_bytes, contains_exec, lemma_encode_len, occurs_at, str_slice};

verus! {

broadcast use encode_utf8_valid_utf8, encode_utf8_decode_utf8;

/// The settings that MDX formatting reads: the four ignore directives of the
/// markdown formatter, and the line width handed to the code formatter.
pub struct Configuration {
    pub line_width: u32,
    pub ignore_directive: String,
    pub ignore_start_directive: String,
    pub ignore_end_directive: String,
    pub ignore_file_directive: String,
}

/// The characters of `s`, in order.
pub fn chars_of(s: &str) -> (v: Vec<char>)
    ensures
        v@ == s@,
{
    broadcast use vstd::string::group_string_axioms;

    let mut v: Vec<char> = Vec::new();
    for c in it: s.chars()
        invariant
            v@ == it.seq().take(it.index() as int),
            it.seq() == s@,
    {
        v.push(c);
    }
    v
}

/// Rust's `char::is_whitespace`: the characters with the Unicode
/// `White_Space` property.
pub open spec fn is_white_space(c: char) -> bool {
    ||| c == ' '
    ||| '\t' <= c <= '\r'
    ||| c == '\u{85}'
    ||| c == '\u{a0}'
    ||| c == '\u{1680}'
    ||| '\u{2000}' <= c <= '\u{200a}'
    ||| c == '\u{2028}'
    ||| c == '\u{2029}'
    ||| c == '\u{202f}'
    ||| c == '\u{205f}'
    ||| c == '\u{3000}'
}

fn is_white_space_exec(c: char) -> (r: bool)
    ensures
        r == is_white_space(c),
{
    c == ' ' || ('\t' <= c && c <= '\r') || c == '\u{85}' || c == '\u{a0}' || c == '\u{1680}' || (
    '\u{2000}' <= c && c <= '\u{200a}') || c == '\u{2028}' || c == '\u{2029}' || c == '\u{202f}'
        || c == '\u{205f}' || c == '\u{3000}'
}

/// `s` without its leading white space.
pub open spec fn trim_start(s: Seq<char>) -> Seq<char>
    decreases s.len(),
{
    if s.len() > 0 && is_white_space(s[0]) {
        trim_start(s.drop_first())
    } else {
        s
    }
}

/// `s` without its trailing white space.
pub open spec fn trim_end(s: Seq<char>) -> Seq<char>
    decreases s.len(),
{
    if s.len() > 0 && is_white_space(s.last()) {
        trim_end(s.drop_last())
    } else {
        s
    }
}

/// `s` without leading and trailing white space (`str::trim`).
pub open spec fn trim(s: Seq<char>) -> Seq<char> {
    trim_end(trim_start(s))
}

/// The characters `/` and `*`, which open a block comment.
pub open spec fn comment_open() -> Seq<char> {
    seq!['/', '*']
}

/// The characters `*` and `/`, which close a block comment.
pub open spec fn comment_close() -> Seq<char> {
    seq!['*', '/']
}

/// If `text` is an expression `{ /* d */ }` holding nothing but a block
/// comment, the comment's text `d` without surrounding white space.
pub open spec fn commented_directive(text: Seq<char>) -> Option<Seq<char>> {
    if text.len() >= 2 && text[0] == '{' && text.last() == '}' {
        let inner = trim(text.subrange(1, text.len() - 1));
        if inner.len() >= 4 && inner.subrange(0, 2) == comment_open() && inner.subrange(
            inner.len() - 2,
            inner.len() as int,
        ) == comment_close() {
            Some(trim(inner.subrange(2, inner.len() - 2)))
        } else {
            None
        }
    } else {
        None
    }
}

/// `d` is one of the ignore directives of `config`.
pub open spec fn is_ignore_directive(config: Configuration, d: Seq<char>) -> bool {
    ||| d == config.ignore_directive@
    ||| d == config.ignore_start_directive@
    ||| d == config.ignore_end_directive@
    ||| d == config.ignore_file_directive@
}

/// The characters `<!-- `, which open an HTML comment and a space.
pub open spec fn html_comment_open() -> Seq<char> {
    seq!['<', '!', '-', '-', ' ']
}

/// A space and the characters `-->`, which close an HTML comment.
pub open spec fn html_comment_close() -> Seq<char> {
    seq![' ', '-', '-', '>']
}

/// The HTML comment `<!-- d -->`.
pub open spec fn html_comment(d: Seq<char>) -> Seq<char> {
    html_comment_open() + d + html_comment_close()
}

/// If `text` is a `{/* <directive> */}` expression whose directive is one of
/// the ignore directives of `config`, the equivalent `<!-- <directive> -->`
/// HTML comment.
pub open spec fn ignore_html_comment(text: Seq<char>, config: Configuration) -> Option<Seq<char>> {
    match commented_directive(text) {
        Some(d) => if is_ignore_directive(config, d) {
            Some(html_comment(d))
        } else {
            None
        },
        None => None,
    }
}

/// Narrows `[lo, hi)` of `v` past leading white space.
fn skip_leading_white_space(v: &Vec<char>, lo: usize, hi: usize) -> (r: usize)
    requires
        lo <= hi <= v@.len(),
    ensures
        lo <= r <= hi,
        v@.subrange(r as int, hi as int) == trim_start(v@.subrange(lo as int, hi as int)),
{
    let mut i = lo;
    while i < hi && is_white_space_exec(v[i])
        invariant
            lo <= i <= hi <= v@.len(),
            trim_start(v@.subrange(i as int, hi as int)) == trim_start(
                v@.subrange(lo as int, hi as int),
            ),
        decreases hi - i,
    {
        proof {
            assert(v@.subrange(i as int, hi as int).drop_first() =~= v@.subrange(
                i + 1,
                hi as int,
            ));
        }
        i = i + 1;
    }
    i
}

/// Narrows `[lo, hi)` of `v` before trailing white space.
pub(crate) fn skip_trailing_white_space(v: &Vec<char>, lo: usize, hi: usize) -> (r: usize)
    requires
        lo <= hi <= v@.len(),
    ensures
        lo <= r <= hi,
        v@.subrange(lo as int, r as int) == trim_end(v@.subrange(lo as int, hi as int)),
{
    let mut j = hi;
    while j > lo && is_white_space_exec(v[j - 1])
        invariant
            lo <= j <= hi <= v@.len(),
            trim_end(v@.subrange(lo as int, j as int)) == trim_end(
                v@.subrange(lo as int, hi as int),
            ),
        decreases j - lo,
    {
        proof {
            assert(v@.subrange(lo as int, j as int).drop_last() =~= v@.subrange(
                lo as int,
                j - 1,
            ));
        }
        j = j - 1;
    }
    j
}

/// Narrows `[lo, hi)` of `v` to its trimmed part.
fn trim_range(v: &Vec<char>, lo: usize, hi: usize) -> (r: (usize, usize))
    requires
        lo <= hi <= v@.len(),
    ensures
        lo <= r.0 <= r.1 <= hi,
        v@.subrange(r.0 as int, r.1 as int) == trim(v@.subrange(lo as int, hi as int)),
{
    let a = skip_leading_white_space(v, lo, hi);
    let b = skip_trailing_white_space(v, a, hi);
    (a, b)
}

/// Whether `v[lo..hi]` is the sequence `w`.
fn range_equals(v: &Vec<char>, lo: usize, hi: usize, w: &Vec<char>) -> (r: bool)
    requires
        lo <= hi <= v@.len(),
    ensures
        r == (v@.subrange(lo as int, hi as int) == w@),
{
    if hi - lo != w.len() {
        return false;
    }
    let mut k: usize = 0;
    while k < w.len()
        invariant
            hi - lo == w@.len(),
            lo <= hi <= v@.len(),
            k <= w@.len(),
            forall|m: int| 0 <= m < k ==> v@[lo + m] == w@[m],
        decreases w@.len() - k,
    {
        if v[lo + k] != w[k] {
            proof {
                assert(v@.subrange(lo as int, hi as int)[k as int] != w@[k as int]);
            }
            return false;
        }
        k = k + 1;
    }
    proof {
        assert(v@.subrange(lo as int, hi as int) =~= w@);
    }
    true
}

/// If the MDX text is a `{/* <directive> */}` expression, returns the
/// equivalent `<!-- <directive> -->` HTML comment.
pub fn as_ignore_html_comment(text: &str, config: &Configuration) -> (res: Option<String>)
    ensures
        res matches Some(s) ==> ignore_html_comment(text@, *config) == Some(s@),
        res is None ==> ignore_html_comment(text@, *config) is None,
{
    let v = chars_of(text);
    let n = v.len();
    if n < 2 || v[0] != '{' || v[n - 1] != '}' {
        return None;
    }
    let (a, b) = trim_range(&v, 1, n - 1);
    let ghost inner = v@.subrange(a as int, b as int);
    if b - a < 4 || v[a] != '/' || v[a + 1] != '*' || v[b - 2] != '*' || v[b - 1] != '/' {
        proof {
            if inner.len() >= 4 {
                if inner.subrange(0, 2) == comment_open() {
                    assert(inner.subrange(0, 2)[0] == inner[0]);
                    assert(inner.subrange(0, 2)[1] == inner[1]);
                }
                if inner.subrange(inner.len() - 2, inner.len() as int) == comment_close() {
                    assert(inner.subrange(inner.len() - 2, inner.len() as int)[0] == inner[inner.len() - 2]);
                    assert(inner.subrange(inner.len() - 2, inner.len() as int)[1] == inner[inner.len() - 1]);
                }
            }
        }
        return None;
    }
    proof {
        assert(inner.subrange(0, 2) =~= comment_open());
        assert(inner.subrange(inner.len() - 2, inner.len() as int) =~= comment_close());
    }
    let (c, d) = trim_range(&v, a + 2, b - 2);
    proof {
        assert(v@.subrange(a + 2, b - 2) =~= inner.subrange(2, inner.len() - 2));
        assert(commented_directive(text@) == Some(v@.subrange(c as int, d as int)));
    }
    let directives = [
        &config.ignore_directive,
        &config.ignore_start_directive,
        &config.ignore_end_directive,
        &config.ignore_file_directive,
    ];
    let mut k: usize = 0;
    while k < 4
        invariant
            k <= 4,
            directives@.len() == 4,
            directives@[0] == &config.ignore_directive,
            directives@[1] == &config.ignore_start_directive,
            directives@[2] == &config.ignore_end_directive,
            directives@[3] == &config.ignore_file_directive,
            c <= d <= v@.len(),
            commented_directive(text@) == Some(v@.subrange(c as int, d as int)),
            forall|m: int| 0 <= m < k ==> v@.subrange(c as int, d as int) != directives@[m]@,
        decreases 4 - k,
    {
        let dv = chars_of(directives[k].as_str());
        if range_equals(&v, c, d, &dv) {
            let mut html = "<!-- ".to_owned();
            html.append(directives[k].as_str());
            html.append(" -->");
            proof {
                reveal_strlit("<!-- ");
                reveal_strlit(" -->");
                assert(html@ =~= html_comment(v@.subrange(c as int, d as int)));
                assert(k == 0 || k == 1 || k == 2 || k == 3);
                assert(is_ignore_directive(*config, v@.subrange(c as int, d as int)));
            }
            return Some(html);
        }
        k = k + 1;
    }
    proof {
        assert(!is_ignore_directive(*config, v@.subrange(c as int, d as int)));
    }
    None
}

/// `d` has no white space at either end.
pub open spec fn trimmed(d: Seq<char>) -> bool {
    d.len() == 0 || (!is_white_space(d[0]) && !is_white_space(d.last()))
}

/// One space on each side of a trimmed text is trimmed away.
proof fn lemma_trim_spaced(d: Seq<char>)
    requires
        trimmed(d),
    ensures
        trim(seq![' '] + d + seq![' ']) == d,
{
    let s = seq![' '] + d + seq![' '];
    let e = d + seq![' '];
    assert(s.drop_first() =~= e);
    assert(trim_start(s) == trim_start(e));
    if d.len() == 0 {
        assert(e.drop_first() =~= Seq::<char>::empty());
        assert(trim_start(e) == trim_start(Seq::<char>::empty()));
        assert(trim_start(e) =~= d);
    } else {
        assert(e[0] == d[0]);
        assert(trim_start(e) == e);
        assert(e.drop_last() =~= d);
        assert(trim_end(e) == trim_end(d));
        assert(trim_end(d) == d);
    }
}

/// An expression `{/* d */}` whose comment is one of the ignore directives
/// that the configuration names, whatever they are, is shown to the markdown
/// formatter as the HTML comment `<!-- d -->`.
pub proof fn lemma_configured_directive_becomes_html_comment(config: Configuration, d: Seq<char>)
    requires
        d == config.ignore_directive@ || d == config.ignore_start_directive@ || d
            == config.ignore_end_directive@ || d == config.ignore_file_directive@,
        trimmed(d),
    ensures
        ignore_html_comment(seq!['{', '/', '*', ' '] + d + seq![' ', '*', '/', '}'], config)
            == Some(seq!['<', '!', '-', '-', ' '] + d + seq![' ', '-', '-', '>']),
{
    let text = seq!['{', '/', '*', ' '] + d + seq![' ', '*', '/', '}'];
    let n = text.len();
    assert(text[0] == '{');
    assert(text.last() == '}');
    let mid = text.subrange(1, n - 1);
    assert(mid =~= seq!['/', '*', ' '] + d + seq![' ', '*', '/']);
    assert(mid[0] == '/');
    assert(trim_start(mid) == mid);
    assert(mid.last() == '/');
    assert(trim_end(mid) == mid);
    let m = mid.len();
    assert(mid.subrange(0, 2) =~= comment_open());
    assert(mid.subrange(m - 2, m as int) =~= comment_close());
    assert(mid.subrange(2, m - 2) =~= seq![' '] + d + seq![' ']);
    lemma_trim_spaced(d);
    assert(commented_directive(text) == Some(d));
    assert(html_comment(d) =~= seq!['<', '!', '-', '-', ' '] + d + seq![' ', '-', '-', '>']);
}

/// Only the ignore directives that the configuration names become HTML
/// comments, each as `<!-- d -->` for its directive `d`.
pub proof fn lemma_html_comment_only_for_configured_directives(text: Seq<char>, config: Configuration)
    requires
        ignore_html_comment(text, config) is Some,
    ensures
        exists|d: Seq<char>|
            (d == config.ignore_directive@ || d == config.ignore_start_directive@ || d
                == config.ignore_end_directive@ || d == config.ignore_file_directive@)
                && #[trigger] ignore_html_comment(text, config) == Some(
                seq!['<', '!', '-', '-', ' '] + d + seq![' ', '-', '-', '>'],
            ),
{
    let d = commented_directive(text)->0;
    assert(html_comment(d) =~= seq!['<', '!', '-', '-', ' '] + d + seq![' ', '-', '-', '>']);
}

/// The characters every nonce starts with.
pub open spec fn nonce_stem() -> Seq<char> {
    seq!['_', '_', 'd', 'p', 'r', 'i', 'n', 't', '_', 'm', 'd', 'x', '_', 'a']
}

/// The `k`-th nonce tried: the stem followed by `k` more `a`s.
pub open spec fn nonce_candidate(k: nat) -> Seq<char> {
    nonce_stem() + Seq::new(k, |i: int| 'a')
}

/// The `k`-th nonce does not occur in `source`.
pub open spec fn nonce_free(source: Seq<u8>, k: nat) -> bool {
    !contains_bytes(source, encode_utf8(nonce_candidate(k)))
}

/// `nonce` is the first candidate that does not occur in `source`.
pub open spec fn is_first_free_nonce(source: Seq<u8>, nonce: Seq<char>) -> bool {
    exists|k: nat|
        {
            &&& nonce == #[trigger] nonce_candidate(k)
            &&& nonce_free(source, k)
            &&& forall|j: nat| j < k ==> !nonce_free(source, j)
        }
}

/// Finds a nonce string that does not appear anywhere in the source, so
/// placeholders built from it can never collide with user content.
pub fn find_nonce(source: &str) -> (nonce: String)
    ensures
        is_first_free_nonce(source.spec_bytes(), nonce@),
{
    let src = source.as_bytes();
    let mut nonce = "__dprint_mdx_a".to_owned();
    let ghost mut k: nat = 0;
    proof {
        reveal_strlit("__dprint_mdx_a");
        assert(nonce@ =~= nonce_candidate(0));
    }
    while contains_exec(src, nonce.as_str().as_bytes())
        invariant
            src@ == source.spec_bytes(),
            nonce@ == nonce_candidate(k),
            forall|j: nat| j < k ==> !nonce_free(src@, j),
        decreases src@.len() + 1 - k,
    {
        proof {
            let pat = encode_utf8(nonce@);
            let at = choose|at: int| occurs_at(src@, pat, at);
            lemma_encode_len(nonce@);
            assert(k <= src@.len());
        }
        nonce.append("a");
        proof {
            reveal_strlit("a");
            k = k + 1;
            assert(nonce@ =~= nonce_candidate(k));
        }
    }
    proof {
        assert(nonce@ == nonce_candidate(k));
    }
    nonce
}

/// The decimal digits, in order of value.
pub open spec fn digit_chars() -> Seq<char> {
    seq!['0', '1', '2', '3', '4', '5', '6', '7', '8', '9']
}

/// The decimal representation of `n`, without leading zeros.
pub open spec fn decimal(n: nat) -> Seq<char>
    decreases n,
{
    if n < 10 {
        seq![digit_chars()[n as int]]
    } else {
        decimal(n / 10).push(digit_chars()[(n % 10) as int])
    }
}

fn digit_str(d: usize) -> (r: &'static str)
    requires
        d < 10,
    ensures
        r@ == seq![digit_chars()[d as int]],
{
    proof {
        reveal_strlit("0");
        reveal_strlit("1");
        reveal_strlit("2");
        reveal_strlit("3");
        reveal_strlit("4");
        reveal_strlit("5");
        reveal_strlit("6");
        reveal_strlit("7");
        reveal_strlit("8");
        reveal_strlit("9");
    }
    match d {
        0 => "0",
        1 => "1",
        2 => "2",
        3 => "3",
        4 => "4",
        5 => "5",
        6 => "6",
        7 => "7",
        8 => "8",
        _ => "9",
    }
}

/// Appends the decimal representation of `n` to `out`.
fn push_decimal(out: &mut String, n: usize)
    ensures
        final(out)@ == old(out)@ + decimal(n as nat),
    decreases n,
{
    if n >= 10 {
        push_decimal(out, n / 10);
    }
    out.append(digit_str(n % 10));
    proof {
        assert(final(out)@ =~= old(out)@ + decimal(n as nat));
    }
}

/// The placeholder `<!-- nonce i -->` of the `i`-th region.
pub open spec fn numbered_placeholder(nonce: Seq<char>, i: nat) -> Seq<char> {
    html_comment(nonce + seq![' '] + decimal(i))
}

fn build_numbered_placeholder(nonce: &str, i: usize) -> (r: String)
    ensures
        r@ == numbered_placeholder(nonce@, i as nat),
{
    let mut r = "<!-- ".to_owned();
    r.append(nonce);
    r.append(" ");
    push_decimal(&mut r, i);
    r.append(" -->");
    proof {
        reveal_strlit("<!-- ");
        reveal_strlit(" ");
        reveal_strlit(" -->");
        assert(r@ =~= numbered_placeholder(nonce@, i as nat));
    }
    r
}

/// The placeholder of the `i`-th region, whose original text is `original`:
/// an ignore directive becomes its HTML comment, anything else the numbered
/// placeholder.
pub open spec fn placeholder_for(
    original: Seq<char>,
    nonce: Seq<char>,
    i: nat,
    config: Configuration,
) -> Seq<char> {
    match ignore_html_comment(original, config) {
        Some(h) => h,
        None => numbered_placeholder(nonce, i),
    }
}

/// The `i`-th region built for `span` of `source`.
pub open spec fn is_region_for(
    r: MdxRegion,
    source: Seq<u8>,
    span: MdxSpan,
    nonce: Seq<char>,
    i: nat,
    config: Configuration,
) -> bool {
    &&& r.start == span.start
    &&& r.end == span.end
    &&& original_bytes(r) == source.subrange(span.start as int, span.end as int)
    &&& r.placeholder@ == placeholder_for(r.original@, nonce, i, config)
}

/// Builds the list of regions, each with its unique placeholder and the
/// original text to restore.
///
/// Ignore directives (`{/* dprint-ignore */}` etc.) are translated to HTML
/// comments for the formatter, but the original MDX form is what gets
/// restored, so the output never contains invalid HTML comments.
pub fn build_regions(source: &str, spans: &[MdxSpan], nonce: &str, config: &Configuration) -> (res:
    Vec<MdxRegion>)
    requires
        spans_within(source.spec_bytes().len() as int, spans@),
        spans_on_boundaries(source.spec_bytes(), spans@),
    ensures
        res@.len() == spans@.len(),
        forall|i: int|
            0 <= i < spans@.len() ==> is_region_for(
                #[trigger] res@[i],
                source.spec_bytes(),
                spans@[i],
                nonce@,
                i as nat,
                *config,
            ),
{
    let mut regions: Vec<MdxRegion> = Vec::new();
    let mut i: usize = 0;
    while i < spans.len()
        invariant
            i <= spans@.len(),
            regions@.len() == i,
            spans_within(source.spec_bytes().len() as int, spans@),
            spans_on_boundaries(source.spec_bytes(), spans@),
            forall|k: int|
                0 <= k < i ==> is_region_for(
                    #[trigger] regions@[k],
                    source.spec_bytes(),
                    spans@[k],
                    nonce@,
                    k as nat,
                    *config,
                ),
        decreases spans@.len() - i,
    {
        let span = spans[i];
        let original = str_slice(source, span.start, span.end).to_owned();
        let placeholder = match as_ignore_html_comment(original.as_str(), config) {
            Some(html) => html,
            None => build_numbered_placeholder(nonce, i),
        };
        let region = MdxRegion { start: span.start, end: span.end, placeholder, original };
        regions.push(region);
        i = i + 1;
    }
    regions
}

/// `s` without its trailing white space (`str::trim_end`).
pub fn trim_end_string(s: &str) -> (r: String)
    ensures
        r@ == trim_end(s@),
{
    let v = chars_of(s);
    let n = skip_trailing_white_space(&v, 0, v.len());
    proof {
        assert(v@.subrange(0, v@.len() as int) =~= v@);
    }
    s.substring_char(0, n).to_owned()
}

/// Every character of `w` is white space.
pub open spec fn all_white_space(w: Seq<char>) -> bool {
    forall|i: int| 0 <= i < w.len() ==> is_white_space(#[trigger] w[i])
}

proof fn lemma_trim_start_skips(w: Seq<char>, x: Seq<char>)
    requires
        all_white_space(w),
    ensures
        trim_start(w + x) == trim_start(x),
    decreases w.len(),
{
    if w.len() > 0 {
        assert((w + x)[0] == w[0]);
        assert((w + x).drop_first() =~= w.drop_first() + x);
        lemma_trim_start_skips(w.drop_first(), x);
    } else {
        assert(w + x =~= x);
    }
}

proof fn lemma_trim_end_skips(x: Seq<char>, w: Seq<char>)
    requires
        all_white_space(w),
    ensures
        trim_end(x + w) == trim_end(x),
    decreases w.len(),
{
    if w.len() > 0 {
        assert((x + w).last() == w.last());
        assert((x + w).drop_last() =~= x + w.drop_last());
        lemma_trim_end_skips(x, w.drop_last());
    } else {
        assert(x + w =~= x);
    }
}

proof fn lemma_trim_lengths(x: Seq<char>)
    ensures
        trim_start(x).len() <= x.len(),
        trim_end(x).len() <= x.len(),
        x.len() > 0 && is_white_space(x[0]) ==> trim_start(x).len() < x.len(),
        x.len() > 0 && is_white_space(x.last()) ==> trim_end(x).len() < x.len(),
    decreases x.len(),
{
    if x.len() > 0 {
        lemma_trim_lengths(x.drop_first());
        lemma_trim_lengths(x.drop_last());
    }
}

/// A text that trimming leaves alone starts and ends with characters that are
/// not white space.
proof fn lemma_trimmed_ends(d: Seq<char>)
    requires
        trim(d) == d,
        d.len() > 0,
    ensures
        !is_white_space(d[0]),
        !is_white_space(d.last()),
{
    lemma_trim_lengths(d);
    lemma_trim_lengths(trim_start(d));
    if is_white_space(d[0]) {
        assert(trim(d).len() < d.len());
    }
    assert(trim_start(d) == d);
    if is_white_space(d.last()) {
        assert(trim(d).len() < d.len());
    }
}

/// White space around the block comment of an ignore-directive expression,
/// and around the directive inside it, does not matter.
pub proof fn lemma_ignore_comment_white_space(
    w1: Seq<char>,
    w2: Seq<char>,
    w3: Seq<char>,
    w4: Seq<char>,
    d: Seq<char>,
    config: Configuration,
)
    requires
        all_white_space(w1),
        all_white_space(w2),
        all_white_space(w3),
        all_white_space(w4),
        trim(d) == d,
    ensures
        ignore_html_comment(
            seq!['{'] + w1 + comment_open() + w2 + d + w3 + comment_close() + w4 + seq!['}'],
            config,
        ) == ignore_html_comment(
            seq!['{'] + comment_open() + d + comment_close() + seq!['}'],
            config,
        ),
        commented_directive(seq!['{'] + comment_open() + d + comment_close() + seq!['}'])
            == Some(d),
{
    let co = comment_open();
    let cc = comment_close();
    let t1 = seq!['{'] + w1 + co + w2 + d + w3 + cc + w4 + seq!['}'];
    let t2 = seq!['{'] + co + d + cc + seq!['}'];
    let core = co + w2 + d + w3 + cc;
    let inner1 = w1 + core + w4;
    let inner2 = co + d + cc;
    assert(t1.subrange(1, t1.len() - 1) =~= inner1);
    assert(t2.subrange(1, t2.len() - 1) =~= inner2);
    assert(t1[0] == '{' && t1.last() == '}');
    assert(t2[0] == '{' && t2.last() == '}');
    // The comment markers are not white space, so trimming stops at them.
    assert(core[0] == '/' && core.last() == '/');
    assert(inner2[0] == '/' && inner2.last() == '/');
    lemma_trim_start_skips(w1, core + w4);
    assert(w1 + (core + w4) =~= inner1);
    assert(trim_start(core + w4) == core + w4);
    lemma_trim_end_skips(core, w4);
    assert(trim_end(core) == core);
    assert(trim(inner1) == core);
    assert(trim_start(inner2) == inner2);
    assert(trim_end(inner2) == inner2);
    assert(trim(inner2) == inner2);
    let mid1 = w2 + d + w3;
    assert(core.subrange(0, 2) =~= co);
    assert(core.subrange(core.len() - 2, core.len() as int) =~= cc);
    assert(core.subrange(2, core.len() - 2) =~= mid1);
    assert(inner2.subrange(0, 2) =~= co);
    assert(inner2.subrange(inner2.len() - 2, inner2.len() as int) =~= cc);
    assert(inner2.subrange(2, inner2.len() - 2) =~= d);
    lemma_trim_start_skips(w2, d + w3);
    assert(w2 + (d + w3) =~= mid1);
    if d.len() == 0 {
        assert(d + w3 =~= w3);
        lemma_trim_start_skips(w3, Seq::<char>::empty());
        assert(w3 + Seq::<char>::empty() =~= w3);
        assert(trim(mid1) == d);
    } else {
        lemma_trimmed_ends(d);
        assert((d + w3)[0] == d[0]);
        assert(trim_start(d + w3) == d + w3);
        lemma_trim_end_skips(d, w3);
        assert(trim_start(d) == d);
        assert(trim_end(d) == d);
        assert(trim(mid1) == d);
    }
    assert(commented_directive(t1) == Some(d));
    assert(commented_directive(t2) == Some(d));
}

} // verus!
