//! A light check of whether a JavaScript fragment could be complete: its
//! braces are balanced outside string and template literals.
use vstd::prelude::*;

verus! {

/// The state of a left-to-right scan for braces.
pub struct BraceScan {
    /// Opening braces seen minus closing braces seen, outside literals.
    pub depth: int,
    pub in_single: bool,
    pub in_double: bool,
    pub in_template: bool,
    /// The previous character was a backslash inside a literal.
    pub escaped: bool,
}

/// The state before any character has been read.
pub open spec fn brace_scan_start() -> BraceScan {
    BraceScan { depth: 0, in_single: false, in_double: false, in_template: false, escaped: false }
}

/// The scan reads one character: an escaped character is skipped, a
/// backslash inside a literal escapes the next one, a quote or backtick opens
/// or closes its literal where no other literal is open, and a brace outside
/// all literals changes the depth.
pub open spec fn brace_step(st: BraceScan, ch: char) -> BraceScan {
    let in_literal = st.in_single || st.in_double || st.in_template;
    if st.escaped {
        BraceScan { escaped: false, ..st }
    } else if ch == '\\' && in_literal {
        BraceScan { escaped: true, ..st }
    } else if ch == '\'' && !st.in_double && !st.in_template {
        BraceScan { in_single: !st.in_single, ..st }
    } else if ch == '"' && !st.in_single && !st.in_template {
        BraceScan { in_double: !st.in_double, ..st }
    } else if ch == '`' && !st.in_single && !st.in_double {
        BraceScan { in_template: !st.in_template, ..st }
    } else if ch == '{' && !in_literal {
        BraceScan { depth: st.depth + 1, ..st }
    } else if ch == '}' && !in_literal {
        BraceScan { depth: st.depth - 1, ..st }
    } else {
        st
    }
}

/// The state after reading all of `s`.
pub open spec fn brace_scan(s: Seq<char>) -> BraceScan
    decreases s.len(),
{
    if s.len() == 0 {
        brace_scan_start()
    } else {
        brace_step(brace_scan(s.drop_last()), s.last())
    }
}

/// No more braces were opened than closed.
pub open spec fn spec_braces_balanced(s: Seq<char>) -> bool {
    brace_scan(s).depth <= 0
}

/// The depth stays within `i32` while `s` is read.
pub open spec fn depth_fits_i32(s: Seq<char>) -> bool {
    forall|k: int|
        0 <= k <= s.len() ==> i32::MIN <= #[trigger] brace_scan(s.take(k)).depth <= i32::MAX
}

/// Whether the braces in the value are balanced, respecting string literals
/// and template literals (but not regex: that would require a full parser).
pub fn braces_balanced(value: &str) -> (r: bool)
    requires
        depth_fits_i32(value@),
    ensures
        r == spec_braces_balanced(value@),
{
    broadcast use vstd::string::group_string_axioms;

    let mut depth: i32 = 0;
    let mut in_single = false;
    let mut in_double = false;
    let mut in_template = false;
    let mut escaped = false;
    proof {
        assert(value@.take(0) =~= Seq::<char>::empty());
    }
    for ch in it: value.chars()
        invariant
            it.seq() == value@,
            depth_fits_i32(value@),
            ({
                let st = brace_scan(value@.take(it.index() as int));
                &&& st.depth == depth as int
                &&& st.in_single == in_single
                &&& st.in_double == in_double
                &&& st.in_template == in_template
                &&& st.escaped == escaped
            }),
    {
        let ghost i = it.index() as int;
        proof {
            assert(value@.take(i + 1).drop_last() =~= value@.take(i));
            assert(value@.take(i + 1).last() == ch);
            assert(i32::MIN <= brace_scan(value@.take(i + 1)).depth <= i32::MAX);
        }
        if escaped {
            escaped = false;
        } else if ch == '\\' && (in_single || in_double || in_template) {
            escaped = true;
        } else if ch == '\'' && !in_double && !in_template {
            in_single = !in_single;
        } else if ch == '"' && !in_single && !in_template {
            in_double = !in_double;
        } else if ch == '`' && !in_single && !in_double {
            in_template = !in_template;
        } else if ch == '{' && !in_single && !in_double && !in_template {
            depth = depth + 1;
        } else if ch == '}' && !in_single && !in_double && !in_template {
            depth = depth - 1;
        }
    }
    proof {
        assert(value@.take(value@.len() as int) =~= value@);
    }
    depth <= 0
}

/// Appending a closing brace never makes a balanced value unbalanced.
pub proof fn lemma_closing_brace_keeps_balance(s: Seq<char>)
    requires
        spec_braces_balanced(s),
    ensures
        spec_braces_balanced(s.push('}')),
{
    assert(s.push('}').drop_last() =~= s);
}

/// The scan stands outside every literal, with no escape pending.
pub open spec fn outside_literals(st: BraceScan) -> bool {
    !st.in_single && !st.in_double && !st.in_template && !st.escaped
}

/// `q` is a quote that opens and closes a literal: `'`, `"` or a backtick.
pub open spec fn is_quote(q: char) -> bool {
    q == '\'' || q == '"' || q == '`'
}

/// Reading one more character is one more step of the scan.
proof fn lemma_brace_scan_push(a: Seq<char>, c: char)
    ensures
        brace_scan(a.push(c)) == brace_step(brace_scan(a), c),
{
    assert(a.push(c).drop_last() =~= a);
}

/// Scans that reached the same state go on alike.
proof fn lemma_brace_scan_same_state(a: Seq<char>, b: Seq<char>, u: Seq<char>)
    requires
        brace_scan(a) == brace_scan(b),
    ensures
        brace_scan(a + u) == brace_scan(b + u),
    decreases u.len(),
{
    if u.len() > 0 {
        lemma_brace_scan_same_state(a, b, u.drop_last());
        assert((a + u).drop_last() =~= a + u.drop_last());
        assert((b + u).drop_last() =~= b + u.drop_last());
    }
}

/// Inside a literal opened by `q`, characters other than `q` and backslash
/// leave the scan as it is.
proof fn lemma_literal_body(a: Seq<char>, q: char, w: Seq<char>)
    requires
        is_quote(q),
        !brace_scan(a).escaped,
        brace_scan(a).in_single == (q == '\''),
        brace_scan(a).in_double == (q == '"'),
        brace_scan(a).in_template == (q == '`'),
        forall|k: int| 0 <= k < w.len() ==> w[k] != q && w[k] != '\\',
    ensures
        brace_scan(a + w) == brace_scan(a),
    decreases w.len(),
{
    if w.len() == 0 {
        assert(a + w =~= a);
    } else {
        lemma_literal_body(a, q, w.drop_last());
        assert(a + w =~= (a + w.drop_last()).push(w.last()));
        lemma_brace_scan_push(a + w.drop_last(), w.last());
    }
}

/// A complete string or template literal read outside all literals counts
/// for nothing: a quote (`'`, `"` or a backtick), text holding neither that
/// quote nor a backslash (other quotes and braces included), and the same
/// quote again leave the scan, and so whether the braces are balanced, as if
/// the literal were not there.
pub proof fn lemma_literal_does_not_count(t: Seq<char>, q: char, w: Seq<char>, u: Seq<char>)
    requires
        is_quote(q),
        outside_literals(brace_scan(t)),
        forall|k: int| 0 <= k < w.len() ==> w[k] != q && w[k] != '\\',
    ensures
        brace_scan(t + seq![q] + w + seq![q] + u) == brace_scan(t + u),
        spec_braces_balanced(t + seq![q] + w + seq![q] + u) == spec_braces_balanced(t + u),
{
    let a = t.push(q);
    lemma_brace_scan_push(t, q);
    assert(t + seq![q] =~= a);
    lemma_literal_body(a, q, w);
    let b = a + w;
    lemma_brace_scan_push(b, q);
    assert(brace_scan(b.push(q)) == brace_scan(t));
    assert(t + seq![q] + w + seq![q] + u =~= b.push(q) + u);
    lemma_brace_scan_same_state(b.push(q), t, u);
}

/// Inside a literal, a backslash and the character after it leave the scan
/// as it is, whatever that character is (a quote or a brace included).
pub proof fn lemma_escape_in_literal(t: Seq<char>, c: char)
    requires
        !brace_scan(t).escaped,
        brace_scan(t).in_single || brace_scan(t).in_double || brace_scan(t).in_template,
    ensures
        brace_scan(t + seq!['\\', c]) == brace_scan(t),
{
    lemma_brace_scan_push(t, '\\');
    lemma_brace_scan_push(t.push('\\'), c);
    assert(t + seq!['\\', c] =~= t.push('\\').push(c));
}

/// Outside literals, an opening brace adds one to the depth and a closing
/// brace takes one away.
pub proof fn lemma_brace_outside_literals_counts(t: Seq<char>)
    requires
        outside_literals(brace_scan(t)),
    ensures
        brace_scan(t.push('{')).depth == brace_scan(t).depth + 1,
        brace_scan(t.push('}')).depth == brace_scan(t).depth - 1,
        outside_literals(brace_scan(t.push('{'))),
        outside_literals(brace_scan(t.push('}'))),
{
    lemma_brace_scan_push(t, '{');
    lemma_brace_scan_push(t, '}');
}

/// Whether the brace depth stays within `i32` while `value` is read, that is,
/// whether `braces_balanced` can be run on it.
pub fn brace_depth_fits(value: &str) -> (r: bool)
    ensures
        r == depth_fits_i32(value@),
{
    broadcast use vstd::string::group_string_axioms;

    let mut depth: i32 = 0;
    let mut in_single = false;
    let mut in_double = false;
    let mut in_template = false;
    let mut escaped = false;
    proof {
        assert(value@.take(0) =~= Seq::<char>::empty());
    }
    for ch in it: value.chars()
        invariant
            it.seq() == value@,
            forall|k: int|
                0 <= k <= it.index() ==> i32::MIN <= #[trigger] brace_scan(value@.take(k)).depth
                    <= i32::MAX,
            ({
                let st = brace_scan(value@.take(it.index() as int));
                &&& st.depth == depth as int
                &&& st.in_single == in_single
                &&& st.in_double == in_double
                &&& st.in_template == in_template
                &&& st.escaped == escaped
            }),
    {
        let ghost i = it.index() as int;
        proof {
            assert(value@.take(i + 1).drop_last() =~= value@.take(i));
            assert(value@.take(i + 1).last() == ch);
        }
        let in_literal = in_single || in_double || in_template;
        if escaped {
            escaped = false;
        } else if ch == '\\' && in_literal {
            escaped = true;
        } else if ch == '\'' && !in_double && !in_template {
            in_single = !in_single;
        } else if ch == '"' && !in_single && !in_template {
            in_double = !in_double;
        } else if ch == '`' && !in_single && !in_double {
            in_template = !in_template;
        } else if ch == '{' && !in_literal {
            if depth == i32::MAX {
                proof {
                    assert(!(brace_scan(value@.take(i + 1)).depth <= i32::MAX));
                }
                return false;
            }
            depth = depth + 1;
        } else if ch == '}' && !in_literal {
            if depth == i32::MIN {
                proof {
                    assert(!(i32::MIN <= brace_scan(value@.take(i + 1)).depth));
                }
                return false;
            }
            depth = depth - 1;
        }
        proof {
            assert forall|k: int| 0 <= k <= i + 1 implies i32::MIN <= #[trigger] brace_scan(
                value@.take(k),
            ).depth <= i32::MAX by {
                if k <= i {
                }
            }
        }
    }
    proof {
        assert(value@.take(value@.len() as int) =~= value@);
    }
    true
}

} // verus!
