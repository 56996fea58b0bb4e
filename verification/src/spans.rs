//! The byte spans of an MDX document that hold MDX-specific syntax: finding
//! them in the document tree, ordering them, and merging those that touch.
use vstd::prelude::*;
use vstd::utf8::is_char_boundary;

verus! {

/// A half-open byte range `[start, end)` of the source.
#[derive(Clone, Copy)]
pub struct MdxSpan {
    pub start: usize,
    pub end: usize,
}

/// The kinds of document-tree node that MDX formatting tells apart.
#[derive(Clone, Copy)]
pub enum NodeKind {
    /// An `import` or `export` block.
    MdxjsEsm,
    /// A `{expression}` on lines of its own.
    MdxFlowExpression,
    /// A JSX element on lines of its own.
    MdxJsxFlowElement,
    /// A `{expression}` inside text.
    MdxTextExpression,
    /// A JSX element inside text.
    MdxJsxTextElement,
    Paragraph,
    Heading,
    TableCell,
    /// Any other node.
    Other,
}

/// A node of the document tree: its kind, where it stands in the source, and
/// its children in document order (none for a leaf).
pub struct MdastNode {
    pub kind: NodeKind,
    pub position: Option<MdxSpan>,
    pub children: Vec<MdastNode>,
}

/// Block-level MDX: ESM, flow expressions, flow JSX elements.
pub open spec fn is_flow_mdx(kind: NodeKind) -> bool {
    kind is MdxjsEsm || kind is MdxFlowExpression || kind is MdxJsxFlowElement
}

/// Inline MDX: text expressions and text JSX elements.
pub open spec fn is_inline_mdx(kind: NodeKind) -> bool {
    kind is MdxTextExpression || kind is MdxJsxTextElement
}

/// Phrasing containers whose text the markdown formatter would reflow.
pub open spec fn is_phrasing_container(kind: NodeKind) -> bool {
    kind is Paragraph || kind is Heading || kind is TableCell
}

/// The node or one of its descendants is an inline MDX node.
pub open spec fn has_inline_mdx(node: MdastNode) -> bool
    decreases node, node.children@.len() + 1,
{
    is_inline_mdx(node.kind) || children_have_inline_mdx(node, node.children@.len() as int)
}

/// One of the first `n` children of `node`, or a descendant of one, is an
/// inline MDX node.
pub open spec fn children_have_inline_mdx(node: MdastNode, n: int) -> bool
    decreases node, n,
{
    if n <= 0 || n > node.children@.len() {
        false
    } else {
        children_have_inline_mdx(node, n - 1) || has_inline_mdx(node.children@[n - 1])
    }
}

/// The node is protected as a whole: block-level MDX, or a phrasing
/// container that holds inline MDX.
pub open spec fn is_protected(node: MdastNode) -> bool {
    is_flow_mdx(node.kind) || (is_phrasing_container(node.kind) && has_inline_mdx(node))
}

/// The spans of all MDX-specific nodes that need protection, in document
/// order: a protected node gives its own span (if it has a position) and
/// hides its subtree; any other node gives the spans of its children.
pub open spec fn mdx_spans(node: MdastNode) -> Seq<MdxSpan>
    decreases node, node.children@.len() + 1,
{
    if is_protected(node) {
        match node.position {
            Some(p) => seq![p],
            None => seq![],
        }
    } else {
        children_mdx_spans(node, node.children@.len() as int)
    }
}

/// The spans found in the first `n` children of `node`.
pub open spec fn children_mdx_spans(node: MdastNode, n: int) -> Seq<MdxSpan>
    decreases node, n,
{
    if n <= 0 || n > node.children@.len() {
        seq![]
    } else {
        children_mdx_spans(node, n - 1) + mdx_spans(node.children@[n - 1])
    }
}

proof fn lemma_children_have_inline_mdx_grows(node: MdastNode, n: int, m: int)
    requires
        0 <= n <= m <= node.children@.len(),
        children_have_inline_mdx(node, n),
    ensures
        children_have_inline_mdx(node, m),
    decreases m - n,
{
    if n < m {
        lemma_children_have_inline_mdx_grows(node, n, m - 1);
    }
}

fn is_flow_mdx_exec(kind: &NodeKind) -> (r: bool)
    ensures
        r == is_flow_mdx(*kind),
{
    match kind {
        NodeKind::MdxjsEsm | NodeKind::MdxFlowExpression | NodeKind::MdxJsxFlowElement => true,
        _ => false,
    }
}

fn is_inline_mdx_exec(kind: &NodeKind) -> (r: bool)
    ensures
        r == is_inline_mdx(*kind),
{
    match kind {
        NodeKind::MdxTextExpression | NodeKind::MdxJsxTextElement => true,
        _ => false,
    }
}

fn is_phrasing_container_exec(kind: &NodeKind) -> (r: bool)
    ensures
        r == is_phrasing_container(*kind),
{
    match kind {
        NodeKind::Paragraph | NodeKind::Heading | NodeKind::TableCell => true,
        _ => false,
    }
}

/// Whether a node or any of its descendants is an inline MDX node.
pub fn has_inline_mdx_deep(node: &MdastNode) -> (r: bool)
    ensures
        r == has_inline_mdx(*node),
    decreases node,
{
    if is_inline_mdx_exec(&node.kind) {
        return true;
    }
    let mut i: usize = 0;
    while i < node.children.len()
        invariant
            i <= node.children@.len(),
            !children_have_inline_mdx(*node, i as int),
        decreases node.children@.len() - i,
    {
        proof {
            assert(decreases_to!(*node => node.children@[i as int]));
        }
        if has_inline_mdx_deep(&node.children[i]) {
            proof {
                lemma_children_have_inline_mdx_grows(*node, i + 1, node.children@.len() as int);
            }
            return true;
        }
        i = i + 1;
    }
    false
}

/// Collects the byte spans of all MDX-specific nodes that need protection.
pub fn collect_mdx_spans(node: &MdastNode, spans: &mut Vec<MdxSpan>)
    ensures
        final(spans)@ == old(spans)@ + mdx_spans(*node),
    decreases node,
{
    let protected = is_flow_mdx_exec(&node.kind) || (is_phrasing_container_exec(&node.kind)
        && has_inline_mdx_deep(node));
    if protected {
        match node.position {
            Some(p) => {
                spans.push(p);
            },
            None => {},
        }
        proof {
            assert(final(spans)@ =~= old(spans)@ + mdx_spans(*node));
        }
        return;
    }
    let mut i: usize = 0;
    proof {
        assert(spans@ =~= old(spans)@ + children_mdx_spans(*node, 0));
    }
    while i < node.children.len()
        invariant
            i <= node.children@.len(),
            spans@ == old(spans)@ + children_mdx_spans(*node, i as int),
        decreases node.children@.len() - i,
    {
        proof {
            assert(decreases_to!(*node => node.children@[i as int]));
        }
        collect_mdx_spans(&node.children[i], spans);
        proof {
            assert(spans@ =~= old(spans)@ + children_mdx_spans(*node, i + 1));
        }
        i = i + 1;
    }
}

/// The spans of the import/export blocks among the protected nodes, in
/// document order.
pub open spec fn mdx_esm_spans(node: MdastNode) -> Seq<MdxSpan>
    decreases node, node.children@.len() + 1,
{
    if is_protected(node) {
        match node.position {
            Some(p) => if node.kind is MdxjsEsm {
                seq![p]
            } else {
                seq![]
            },
            None => seq![],
        }
    } else {
        children_mdx_esm_spans(node, node.children@.len() as int)
    }
}

/// The import/export spans found in the first `n` children of `node`.
pub open spec fn children_mdx_esm_spans(node: MdastNode, n: int) -> Seq<MdxSpan>
    decreases node, n,
{
    if n <= 0 || n > node.children@.len() {
        seq![]
    } else {
        children_mdx_esm_spans(node, n - 1) + mdx_esm_spans(node.children@[n - 1])
    }
}

/// Collects the byte spans of the import/export blocks among the nodes that
/// need protection.
pub fn collect_esm_spans(node: &MdastNode, spans: &mut Vec<MdxSpan>)
    ensures
        final(spans)@ == old(spans)@ + mdx_esm_spans(*node),
    decreases node,
{
    let protected = is_flow_mdx_exec(&node.kind) || (is_phrasing_container_exec(&node.kind)
        && has_inline_mdx_deep(node));
    if protected {
        match (&node.kind, node.position) {
            (NodeKind::MdxjsEsm, Some(p)) => {
                spans.push(p);
            },
            _ => {},
        }
        proof {
            assert(final(spans)@ =~= old(spans)@ + mdx_esm_spans(*node));
        }
        return;
    }
    let mut i: usize = 0;
    proof {
        assert(spans@ =~= old(spans)@ + children_mdx_esm_spans(*node, 0));
    }
    while i < node.children.len()
        invariant
            i <= node.children@.len(),
            spans@ == old(spans)@ + children_mdx_esm_spans(*node, i as int),
        decreases node.children@.len() - i,
    {
        proof {
            assert(decreases_to!(*node => node.children@[i as int]));
        }
        collect_esm_spans(&node.children[i], spans);
        proof {
            assert(spans@ =~= old(spans)@ + children_mdx_esm_spans(*node, i + 1));
        }
        i = i + 1;
    }
}

/// The node reached from `node` by following the child indices of `path`
/// (`node` itself for the empty path), if there is one.
pub open spec fn descendant(node: MdastNode, path: Seq<int>) -> Option<MdastNode>
    decreases path.len(),
{
    if path.len() == 0 {
        Some(node)
    } else if 0 <= path[0] < node.children@.len() {
        descendant(node.children@[path[0]], path.drop_first())
    } else {
        None
    }
}

/// The node reached by `path` is an inline MDX node.
pub open spec fn inline_mdx_at(node: MdastNode, path: Seq<int>) -> bool {
    descendant(node, path) matches Some(d) && is_inline_mdx(d.kind)
}

/// The node reached by `path` is an import/export block standing at `span`.
pub open spec fn esm_at(node: MdastNode, path: Seq<int>, span: MdxSpan) -> bool {
    descendant(node, path) matches Some(d) && d.kind is MdxjsEsm && d.position == Some(span)
}

/// Going down to child `i` first, then along `path`.
proof fn lemma_descendant_step(node: MdastNode, i: int, path: Seq<int>)
    requires
        0 <= i < node.children@.len(),
    ensures
        descendant(node, seq![i] + path) == descendant(node.children@[i], path),
{
    assert((seq![i] + path).drop_first() =~= path);
}

/// Whether a node holds inline MDX is whether some node below it, at any
/// depth, or the node itself, is inline MDX.
pub proof fn lemma_has_inline_mdx_iff_inline_descendant(node: MdastNode)
    ensures
        has_inline_mdx(node) <==> exists|path: Seq<int>| #[trigger] inline_mdx_at(node, path),
    decreases node, node.children@.len() + 1,
{
    lemma_children_inline_descendant(node, node.children@.len() as int);
    if exists|path: Seq<int>| #[trigger] inline_mdx_at(node, path) {
        let path = choose|path: Seq<int>| #[trigger] inline_mdx_at(node, path);
        if path.len() == 0 {
            assert(is_inline_mdx(node.kind));
        } else {
            let i = path[0];
            let c = node.children@[i];
            assert(decreases_to!(node => c));
            lemma_descendant_step(node, i, path.drop_first());
            assert(seq![i] + path.drop_first() =~= path);
            assert(inline_mdx_at(c, path.drop_first()));
            lemma_has_inline_mdx_iff_inline_descendant(c);
            assert(children_have_inline_mdx(node, i + 1));
            lemma_children_have_inline_mdx_grows(node, i + 1, node.children@.len() as int);
        }
    }
    if is_inline_mdx(node.kind) {
        assert(inline_mdx_at(node, seq![]));
    }
}

/// Inline MDX among the first `n` children is inline MDX below the node.
proof fn lemma_children_inline_descendant(node: MdastNode, n: int)
    ensures
        children_have_inline_mdx(node, n) ==> exists|path: Seq<int>| #[trigger] inline_mdx_at(node, path),
    decreases node, n,
{
    if 0 < n <= node.children@.len() {
        lemma_children_inline_descendant(node, n - 1);
        let c = node.children@[n - 1];
        if has_inline_mdx(c) {
            assert(decreases_to!(node => c));
            lemma_has_inline_mdx_iff_inline_descendant(c);
            let p = choose|path: Seq<int>| #[trigger] inline_mdx_at(c, path);
            lemma_descendant_step(node, n - 1, p);
            assert(inline_mdx_at(node, seq![n - 1] + p));
        }
    }
}

/// A paragraph, heading or table cell that holds inline MDX anywhere inside
/// it, at any depth, is protected as a whole: its own span is its only span,
/// and it holds no import/export span.
pub proof fn lemma_container_with_inline_mdx_protected_whole(node: MdastNode, path: Seq<int>)
    requires
        is_phrasing_container(node.kind),
        inline_mdx_at(node, path),
    ensures
        mdx_spans(node) == match node.position {
            Some(p) => seq![p],
            None => Seq::<MdxSpan>::empty(),
        },
        mdx_esm_spans(node) == Seq::<MdxSpan>::empty(),
{
    lemma_has_inline_mdx_iff_inline_descendant(node);
    assert(mdx_esm_spans(node) =~= Seq::<MdxSpan>::empty());
}

/// Which nodes are protected whole: exactly the block-level MDX nodes and the
/// paragraphs, headings and table cells with inline MDX at some depth.
pub proof fn lemma_protected_iff(node: MdastNode)
    ensures
        is_protected(node) <==> (is_flow_mdx(node.kind) || (is_phrasing_container(node.kind)
            && exists|path: Seq<int>| #[trigger] inline_mdx_at(node, path))),
{
    lemma_has_inline_mdx_iff_inline_descendant(node);
}

/// Every import/export span is the position of an import/export node of the
/// tree: no other kind of node gives one.
pub proof fn lemma_esm_spans_are_esm_nodes(node: MdastNode, span: MdxSpan)
    requires
        mdx_esm_spans(node).contains(span),
    ensures
        exists|path: Seq<int>| #[trigger] esm_at(node, path, span),
    decreases node, node.children@.len() + 1,
{
    if is_protected(node) {
        assert(esm_at(node, seq![], span));
    } else {
        lemma_children_esm_spans_are_esm_nodes(node, node.children@.len() as int, span);
    }
}

/// Import/export spans found in the first `n` children are positions of
/// import/export nodes below `node`.
proof fn lemma_children_esm_spans_are_esm_nodes(node: MdastNode, n: int, span: MdxSpan)
    requires
        children_mdx_esm_spans(node, n).contains(span),
    ensures
        exists|path: Seq<int>| #[trigger] esm_at(node, path, span),
    decreases node, n,
{
    if 0 < n <= node.children@.len() {
        let a = children_mdx_esm_spans(node, n - 1);
        let c = node.children@[n - 1];
        let b = mdx_esm_spans(c);
        let k = choose|k: int| 0 <= k < (a + b).len() && (a + b)[k] == span;
        if k < a.len() {
            assert(a[k] == span);
            lemma_children_esm_spans_are_esm_nodes(node, n - 1, span);
        } else {
            assert(b[k - a.len()] == span);
            assert(decreases_to!(node => c));
            lemma_esm_spans_are_esm_nodes(c, span);
            let p = choose|path: Seq<int>| #[trigger] esm_at(c, path, span);
            lemma_descendant_step(node, n - 1, p);
            assert(esm_at(node, seq![n - 1] + p, span));
        }
    }
}

/// Block-level MDX is protected whole: its own span is its only span, and
/// it is an import/export span exactly when the node is an import/export
/// block.
pub proof fn lemma_flow_mdx_protected_whole(node: MdastNode, p: MdxSpan)
    requires
        is_flow_mdx(node.kind),
        node.position == Some(p),
    ensures
        mdx_spans(node) == seq![p],
        node.kind is MdxjsEsm ==> mdx_esm_spans(node) == seq![p],
        !(node.kind is MdxjsEsm) ==> mdx_esm_spans(node) == Seq::<MdxSpan>::empty(),
{
}

/// Spans found in child `i` are among those found in the first `n` children.
proof fn lemma_children_spans_keep(node: MdastNode, n: int, i: int, s: MdxSpan)
    requires
        0 <= i < n <= node.children@.len(),
    ensures
        mdx_spans(node.children@[i]).contains(s) ==> children_mdx_spans(node, n).contains(s),
        mdx_esm_spans(node.children@[i]).contains(s) ==> children_mdx_esm_spans(node, n).contains(
            s,
        ),
    decreases n,
{
    let a = children_mdx_spans(node, n - 1);
    let b = mdx_spans(node.children@[n - 1]);
    let ea = children_mdx_esm_spans(node, n - 1);
    let eb = mdx_esm_spans(node.children@[n - 1]);
    if i < n - 1 {
        lemma_children_spans_keep(node, n - 1, i, s);
        if a.contains(s) {
            let k = choose|k: int| 0 <= k < a.len() && a[k] == s;
            assert((a + b)[k] == s);
        }
        if ea.contains(s) {
            let k = choose|k: int| 0 <= k < ea.len() && ea[k] == s;
            assert((ea + eb)[k] == s);
        }
    } else {
        if b.contains(s) {
            let k = choose|k: int| 0 <= k < b.len() && b[k] == s;
            assert((a + b)[a.len() + k] == s);
        }
        if eb.contains(s) {
            let k = choose|k: int| 0 <= k < eb.len() && eb[k] == s;
            assert((ea + eb)[ea.len() + k] == s);
        }
    }
}

/// A node that is not protected passes on every span found in each of its
/// children, import/export spans included.
pub proof fn lemma_unprotected_passes_on_child_spans(node: MdastNode, i: int, s: MdxSpan)
    requires
        !is_protected(node),
        0 <= i < node.children@.len(),
    ensures
        mdx_spans(node.children@[i]).contains(s) ==> mdx_spans(node).contains(s),
        mdx_esm_spans(node.children@[i]).contains(s) ==> mdx_esm_spans(node).contains(s),
{
    lemma_children_spans_keep(node, node.children@.len() as int, i, s);
}

/// Whether `span` is one of `spans`.
pub fn contains_span(spans: &[MdxSpan], span: MdxSpan) -> (r: bool)
    ensures
        r == spans@.contains(span),
{
    let mut i: usize = 0;
    while i < spans.len()
        invariant
            i <= spans@.len(),
            forall|k: int| 0 <= k < i ==> spans@[k] != span,
        decreases spans@.len() - i,
    {
        if spans[i].start == span.start && spans[i].end == span.end {
            proof {
                assert(spans@[i as int] == span);
            }
            return true;
        }
        i = i + 1;
    }
    false
}

/// `x` put into `sorted` after every span that starts no later than it (the
/// step of a stable insertion sort by start).
pub open spec fn insert_by_start(sorted: Seq<MdxSpan>, x: MdxSpan) -> Seq<MdxSpan>
    decreases sorted.len(),
{
    if sorted.len() == 0 || sorted.last().start <= x.start {
        sorted.push(x)
    } else {
        insert_by_start(sorted.drop_last(), x).push(sorted.last())
    }
}

/// The spans stably sorted by start.
pub open spec fn sort_by_start(s: Seq<MdxSpan>) -> Seq<MdxSpan>
    decreases s.len(),
{
    if s.len() == 0 {
        seq![]
    } else {
        insert_by_start(sort_by_start(s.drop_last()), s.last())
    }
}

/// Inserting at `pos`, past which every span starts later than `x` and before
/// which the last span starts no later, is `insert_by_start`.
proof fn lemma_insert_by_start_at(sorted: Seq<MdxSpan>, x: MdxSpan, pos: int)
    requires
        0 <= pos <= sorted.len(),
        forall|k: int| pos <= k < sorted.len() ==> #[trigger] sorted[k].start > x.start,
        pos > 0 ==> sorted[pos - 1].start <= x.start,
    ensures
        insert_by_start(sorted, x) == sorted.insert(pos, x),
    decreases sorted.len(),
{
    if pos == sorted.len() {
        assert(sorted.insert(pos, x) =~= sorted.push(x));
    } else {
        let init = sorted.drop_last();
        assert(sorted.last().start > x.start);
        assert forall|k: int| pos <= k < init.len() implies #[trigger] init[k].start > x.start by {
            assert(init[k] == sorted[k]);
        }
        if pos > 0 {
            assert(init[pos - 1] == sorted[pos - 1]);
        }
        lemma_insert_by_start_at(init, x, pos);
        assert(init.insert(pos, x).push(sorted.last()) =~= sorted.insert(pos, x));
    }
}

/// Sorts the spans by start, keeping spans with equal starts in their order.
pub fn sort_spans_by_start(spans: Vec<MdxSpan>) -> (sorted: Vec<MdxSpan>)
    ensures
        sorted@ == sort_by_start(spans@),
{
    let mut sorted: Vec<MdxSpan> = Vec::new();
    let mut i: usize = 0;
    while i < spans.len()
        invariant
            i <= spans@.len(),
            sorted@ == sort_by_start(spans@.take(i as int)),
        decreases spans@.len() - i,
    {
        let x = spans[i];
        let mut pos = sorted.len();
        while pos > 0 && sorted[pos - 1].start > x.start
            invariant
                pos <= sorted@.len(),
                forall|k: int| pos <= k < sorted@.len() ==> #[trigger] sorted@[k].start > x.start,
            decreases pos,
        {
            pos = pos - 1;
        }
        proof {
            lemma_insert_by_start_at(sorted@, x, pos as int);
            assert(spans@.take(i + 1).drop_last() =~= spans@.take(i as int));
        }
        sorted.insert(pos, x);
        i = i + 1;
    }
    proof {
        assert(spans@.take(spans@.len() as int) =~= spans@);
    }
    sorted
}

/// The larger of two offsets.
pub open spec fn max_offset(a: usize, b: usize) -> usize {
    if a >= b {
        a
    } else {
        b
    }
}

/// The spans with every span that starts no later than the end of the
/// (merged) span before it folded into that one.
pub open spec fn merge_spec(s: Seq<MdxSpan>) -> Seq<MdxSpan>
    decreases s.len(),
{
    if s.len() == 0 {
        seq![]
    } else {
        let m = merge_spec(s.drop_last());
        let x = s.last();
        if m.len() > 0 && x.start <= m.last().end {
            m.update(
                m.len() - 1,
                MdxSpan { start: m.last().start, end: max_offset(m.last().end, x.end) },
            )
        } else {
            m.push(x)
        }
    }
}

/// Merges overlapping or adjacent spans.
pub fn merge_spans(spans: Vec<MdxSpan>) -> (merged: Vec<MdxSpan>)
    ensures
        merged@ == merge_spec(spans@),
{
    let mut merged: Vec<MdxSpan> = Vec::new();
    let mut i: usize = 0;
    while i < spans.len()
        invariant
            i <= spans@.len(),
            merged@ == merge_spec(spans@.take(i as int)),
        decreases spans@.len() - i,
    {
        let span = spans[i];
        proof {
            assert(spans@.take(i + 1).drop_last() =~= spans@.take(i as int));
        }
        let n = merged.len();
        if n > 0 && span.start <= merged[n - 1].end {
            let last = merged[n - 1];
            let end = if last.end >= span.end {
                last.end
            } else {
                span.end
            };
            merged.set(n - 1, MdxSpan { start: last.start, end });
        } else {
            merged.push(span);
        }
        i = i + 1;
    }
    proof {
        assert(spans@.take(spans@.len() as int) =~= spans@);
    }
    merged
}

/// The spans are ordered by start.
pub open spec fn sorted_by_start(s: Seq<MdxSpan>) -> bool {
    forall|i: int, j: int| 0 <= i < j < s.len() ==> #[trigger] s[i].start <= #[trigger] s[j].start
}

/// Every span ends no earlier than it starts and no later than `len`.
pub open spec fn spans_within(len: int, s: Seq<MdxSpan>) -> bool {
    forall|k: int| 0 <= k < s.len() ==> #[trigger] s[k].start <= s[k].end <= len
}

/// Each span starts after the one before it has ended: no two overlap or
/// touch.
pub open spec fn spans_separated(s: Seq<MdxSpan>) -> bool {
    forall|k: int| 0 < k < s.len() ==> s[k - 1].end < #[trigger] s[k].start
}

/// Every span starts and ends on a character boundary of `source`.
pub open spec fn spans_on_boundaries(source: Seq<u8>, s: Seq<MdxSpan>) -> bool {
    forall|k: int|
        0 <= k < s.len() ==> is_char_boundary(source, #[trigger] s[k].start as int)
            && is_char_boundary(source, s[k].end as int)
}

/// Some span of `s` starts at `p`.
pub open spec fn starts_at(s: Seq<MdxSpan>, p: usize) -> bool {
    exists|i: int| 0 <= i < s.len() && #[trigger] s[i].start == p
}

/// Some span of `s` ends at `p`.
pub open spec fn ends_at(s: Seq<MdxSpan>, p: usize) -> bool {
    exists|i: int| 0 <= i < s.len() && #[trigger] s[i].end == p
}

/// Some span of `s` contains the span `x`.
pub open spec fn covered_by(s: Seq<MdxSpan>, x: MdxSpan) -> bool {
    exists|k: int| 0 <= k < s.len() && #[trigger] s[k].start <= x.start && x.end <= s[k].end
}

proof fn lemma_insert_by_start_props(t: Seq<MdxSpan>, x: MdxSpan)
    requires
        sorted_by_start(t),
    ensures
        sorted_by_start(insert_by_start(t, x)),
        insert_by_start(t, x).to_multiset() == t.to_multiset().insert(x),
        insert_by_start(t, x).len() == t.len() + 1,
    decreases t.len(),
{
    broadcast use vstd::seq_lib::group_to_multiset_ensures;

    if t.len() == 0 || t.last().start <= x.start {
    } else {
        let init = t.drop_last();
        lemma_insert_by_start_props(init, x);
        let r = insert_by_start(init, x);
        assert(t =~= init.push(t.last()));
        assert forall|i: int| 0 <= i < r.len() implies #[trigger] r[i].start <= t.last().start by {
            assert(r.to_multiset().count(r[i]) > 0);
            if r[i] != x {
                assert(init.to_multiset().count(r[i]) > 0);
                assert(init.contains(r[i]));
                let m = choose|m: int| 0 <= m < init.len() && init[m] == r[i];
                assert(t[m] == init[m]);
            }
        }
    }
}

/// A stable sort by start orders the spans by start and keeps every span,
/// as often as it occurs.
pub proof fn lemma_sort_by_start_sorted_permutation(s: Seq<MdxSpan>)
    ensures
        sorted_by_start(sort_by_start(s)),
        sort_by_start(s).to_multiset() == s.to_multiset(),
        sort_by_start(s).len() == s.len(),
    decreases s.len(),
{
    broadcast use vstd::seq_lib::group_to_multiset_ensures;

    if s.len() > 0 {
        lemma_sort_by_start_sorted_permutation(s.drop_last());
        lemma_insert_by_start_props(sort_by_start(s.drop_last()), s.last());
        assert(s =~= s.drop_last().push(s.last()));
    }
}

/// Every span of the sorted sequence is a span of the input.
pub proof fn lemma_sort_by_start_members(s: Seq<MdxSpan>, k: int)
    requires
        0 <= k < sort_by_start(s).len(),
    ensures
        s.contains(sort_by_start(s)[k]),
{
    broadcast use vstd::seq_lib::group_to_multiset_ensures;

    lemma_sort_by_start_sorted_permutation(s);
    assert(sort_by_start(s).to_multiset().count(sort_by_start(s)[k]) > 0);
}

/// The merged spans start where input spans start and end where input spans
/// end.
pub proof fn lemma_merge_spec_endpoints(s: Seq<MdxSpan>)
    ensures
        forall|k: int|
            0 <= k < merge_spec(s).len() ==> starts_at(s, #[trigger] merge_spec(s)[k].start)
                && ends_at(s, merge_spec(s)[k].end),
        s.len() > 0 ==> merge_spec(s).len() > 0,
        merge_spec(s).len() <= s.len(),
    decreases s.len(),
{
    if s.len() > 0 {
        let init = s.drop_last();
        let x = s.last();
        lemma_merge_spec_endpoints(init);
        let m = merge_spec(init);
        let r = merge_spec(s);
        assert forall|p: usize| starts_at(init, p) implies starts_at(s, p) by {
            let i = choose|i: int| 0 <= i < init.len() && #[trigger] init[i].start == p;
            assert(s[i].start == p);
        }
        assert forall|p: usize| ends_at(init, p) implies ends_at(s, p) by {
            let i = choose|i: int| 0 <= i < init.len() && #[trigger] init[i].end == p;
            assert(s[i].end == p);
        }
        assert(starts_at(s, x.start)) by {
            assert(s[s.len() - 1].start == x.start);
        }
        assert(ends_at(s, x.end)) by {
            assert(s[s.len() - 1].end == x.end);
        }
        assert forall|k: int| 0 <= k < r.len() implies starts_at(s, #[trigger] r[k].start)
            && ends_at(s, r[k].end) by {
            if k < m.len() {
                assert(starts_at(init, m[k].start));
                assert(ends_at(init, m[k].end));
            }
        }
    }
}

/// Merging spans that lie within a text gives spans that lie within it.
pub proof fn lemma_merge_spec_within(s: Seq<MdxSpan>, len: int)
    requires
        spans_within(len, s),
    ensures
        spans_within(len, merge_spec(s)),
    decreases s.len(),
{
    if s.len() > 0 {
        let init = s.drop_last();
        assert(spans_within(len, init)) by {
            assert forall|k: int| 0 <= k < init.len() implies #[trigger] init[k].start
                <= init[k].end <= len by {
                assert(init[k] == s[k]);
                assert(s[k].start <= s[k].end <= len);
            }
        }
        lemma_merge_spec_within(init, len);
        assert(s[s.len() - 1] == s.last());
    }
}

/// Merging spans ordered by start gives spans that are separated.
pub proof fn lemma_merge_spec_separated(s: Seq<MdxSpan>)
    ensures
        spans_separated(merge_spec(s)),
    decreases s.len(),
{
    if s.len() > 0 {
        let init = s.drop_last();
        lemma_merge_spec_separated(init);
        let m = merge_spec(init);
        let r = merge_spec(s);
        assert forall|k: int| 0 < k < r.len() implies r[k - 1].end < #[trigger] r[k].start by {
            if k < m.len() {
                assert(m[k - 1].end < m[k].start);
            }
        }
    }
}

/// Merged spans of spans ordered by start start no later than the last
/// input span.
proof fn lemma_merge_spec_last_start(s: Seq<MdxSpan>)
    requires
        sorted_by_start(s),
        s.len() > 0,
    ensures
        merge_spec(s).len() > 0,
        merge_spec(s).last().start <= s.last().start,
{
    lemma_merge_spec_endpoints(s);
    let m = merge_spec(s);
    assert(starts_at(s, m[m.len() - 1].start));
    let w = choose|i: int| 0 <= i < s.len() && #[trigger] s[i].start == m.last().start;
    if w < s.len() - 1 {
        assert(s[w].start <= s[s.len() - 1].start);
    }
}

/// Merging spans ordered by start covers every input span by a merged one.
#[verifier::spinoff_prover]
pub proof fn lemma_merge_spec_covers(s: Seq<MdxSpan>)
    requires
        sorted_by_start(s),
    ensures
        forall|i: int| 0 <= i < s.len() ==> covered_by(merge_spec(s), #[trigger] s[i]),
    decreases s.len(),
{
    if s.len() > 0 {
        let init = s.drop_last();
        let x = s.last();
        assert(sorted_by_start(init)) by {
            assert forall|i: int, j: int| 0 <= i < j < init.len() implies #[trigger] init[i].start
                <= #[trigger] init[j].start by {
                assert(init[i] == s[i] && init[j] == s[j]);
                assert(s[i].start <= s[j].start);
            }
        }
        lemma_merge_spec_covers(init);
        let m = merge_spec(init);
        let r = merge_spec(s);
        let merged_into_last = m.len() > 0 && x.start <= m.last().end;
        if merged_into_last {
            lemma_merge_spec_last_start(init);
            assert(init.last() == s[s.len() - 2]);
            assert(s[s.len() - 2].start <= s[s.len() - 1].start);
        }
        assert forall|i: int| 0 <= i < s.len() implies covered_by(r, #[trigger] s[i]) by {
            if i < s.len() - 1 {
                assert(init[i] == s[i]);
                assert(covered_by(m, init[i]));
                let k = choose|k: int|
                    0 <= k < m.len() && #[trigger] m[k].start <= init[i].start && init[i].end
                        <= m[k].end;
                assert(r[k].start <= s[i].start && s[i].end <= r[k].end);
            } else if merged_into_last {
                assert(r[m.len() - 1].start <= s[i].start && s[i].end <= r[m.len() - 1].end);
            } else {
                assert(r[m.len() as int] == x);
            }
        }
    }
}

/// Offset `p` lies inside some span of `s`.
pub open spec fn offset_covered(s: Seq<MdxSpan>, p: int) -> bool {
    exists|k: int| #![trigger s[k]] 0 <= k < s.len() && s[k].start <= p && p < s[k].end
}

/// Merging spans ordered by start covers exactly the offsets that the input
/// spans cover: no offset is lost and none is added.
#[verifier::spinoff_prover]
pub proof fn lemma_merge_spec_same_offsets(s: Seq<MdxSpan>, p: int)
    requires
        sorted_by_start(s),
    ensures
        offset_covered(merge_spec(s), p) <==> offset_covered(s, p),
    decreases s.len(),
{
    if s.len() > 0 {
        let init = s.drop_last();
        let x = s.last();
        assert(sorted_by_start(init)) by {
            assert forall|i: int, j: int| 0 <= i < j < init.len() implies #[trigger] init[i].start
                <= #[trigger] init[j].start by {
                assert(init[i] == s[i] && init[j] == s[j]);
                assert(s[i].start <= s[j].start);
            }
        }
        lemma_merge_spec_same_offsets(init, p);
        let m = merge_spec(init);
        let r = merge_spec(s);
        let in_x = x.start <= p && p < x.end;
        assert(offset_covered(s, p) <==> offset_covered(init, p) || in_x) by {
            if offset_covered(s, p) {
                let k = choose|k: int| #![trigger s[k]] 0 <= k < s.len() && s[k].start <= p && p < s[k].end;
                if k < s.len() - 1 {
                    assert(init[k] == s[k]);
                }
            }
            if offset_covered(init, p) {
                let k = choose|k: int| #![trigger init[k]] 0 <= k < init.len() && init[k].start <= p && p < init[k].end;
                assert(s[k] == init[k]);
            }
            if in_x {
                assert(s[s.len() - 1] == x);
            }
        }
        if m.len() > 0 && x.start <= m.last().end {
            lemma_merge_spec_last_start(init);
            assert(init.last() == s[s.len() - 2]);
            assert(s[s.len() - 2].start <= s[s.len() - 1].start);
            let n = m.len() - 1;
            assert(offset_covered(r, p) <==> offset_covered(m, p) || in_x) by {
                if offset_covered(r, p) {
                    let k = choose|k: int| #![trigger r[k]] 0 <= k < r.len() && r[k].start <= p && p < r[k].end;
                    if k < n {
                        assert(m[k] == r[k]);
                    } else if p < m[n].end {
                        assert(m[n].start <= p && p < m[n].end);
                    }
                }
                if offset_covered(m, p) {
                    let k = choose|k: int| #![trigger m[k]] 0 <= k < m.len() && m[k].start <= p && p < m[k].end;
                    if k < n {
                        assert(r[k] == m[k]);
                    } else {
                        assert(r[n].start <= p && p < r[n].end);
                    }
                }
                if in_x {
                    assert(r[n].start <= p && p < r[n].end);
                }
            }
        } else {
            assert(r == m.push(x));
            assert(offset_covered(r, p) <==> offset_covered(m, p) || in_x) by {
                if offset_covered(r, p) {
                    let k = choose|k: int| #![trigger r[k]] 0 <= k < r.len() && r[k].start <= p && p < r[k].end;
                    if k < m.len() {
                        assert(m[k] == r[k]);
                    }
                }
                if offset_covered(m, p) {
                    let k = choose|k: int| #![trigger m[k]] 0 <= k < m.len() && m[k].start <= p && p < m[k].end;
                    assert(r[k] == m[k]);
                }
                if in_x {
                    assert(r[m.len() as int] == x);
                }
            }
        }
    }
}

/// Merging spans that are already separated changes nothing.
pub proof fn lemma_merge_spec_of_separated(s: Seq<MdxSpan>)
    requires
        spans_separated(s),
    ensures
        merge_spec(s) == s,
    decreases s.len(),
{
    if s.len() > 0 {
        let init = s.drop_last();
        assert(spans_separated(init)) by {
            assert forall|k: int| 0 < k < init.len() implies init[k - 1].end < #[trigger] init[k].start by {
                assert(s[k - 1].end < s[k].start);
            }
        }
        lemma_merge_spec_of_separated(init);
        if init.len() > 0 {
            assert(s[s.len() - 2].end < s[s.len() - 1].start);
        }
        assert(init.push(s.last()) =~= s);
    }
}

/// Merging twice is merging once.
pub proof fn lemma_merge_spec_idempotent(s: Seq<MdxSpan>)
    ensures
        merge_spec(merge_spec(s)) == merge_spec(s),
{
    lemma_merge_spec_separated(s);
    lemma_merge_spec_of_separated(merge_spec(s));
}

} // verus!
