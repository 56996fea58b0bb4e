use mdx_format::braces::braces_balanced;
use mdx_format::braces::brace_depth_fits;
use mdx_format::mdx::{finish_mdx, format_esm_regions, format_mdx_text, plan_mdx, MdxPlan};
use mdx_format::placeholders::trim_end_string;
use mdx_format::placeholders::{as_ignore_html_comment, build_regions, find_nonce, Configuration};
use mdx_format::regions::{build_placeholdered_text, restore_regions, MdxRegion};
use mdx_format::spans::{
  collect_mdx_spans, has_inline_mdx_deep, merge_spans, sort_spans_by_start, MdastNode, MdxSpan, NodeKind,
};

fn config() -> Configuration {
  Configuration {
    line_width: 80,
    ignore_directive: "dprint-ignore".to_string(),
    ignore_start_directive: "dprint-ignore-start".to_string(),
    ignore_end_directive: "dprint-ignore-end".to_string(),
    ignore_file_directive: "dprint-ignore-file".to_string(),
  }
}

fn span(start: usize, end: usize) -> MdxSpan {
  MdxSpan { start, end }
}

fn spans_of(v: &[MdxSpan]) -> Vec<(usize, usize)> {
  v.iter().map(|s| (s.start, s.end)).collect()
}

fn leaf(kind: NodeKind, start: usize, end: usize) -> MdastNode {
  MdastNode { kind, position: Some(span(start, end)), children: Vec::new() }
}

fn node(kind: NodeKind, start: usize, end: usize, children: Vec<MdastNode>) -> MdastNode {
  MdastNode { kind, position: Some(span(start, end)), children }
}

/// The byte range of the first occurrence of `part` in `text`.
fn range_of(text: &str, part: &str) -> (usize, usize) {
  let start = text.find(part).unwrap();
  (start, start + part.len())
}

/// A root holding the given top-level nodes of `text`, each given by its kind
/// and its text.
fn root(text: &str, blocks: &[(NodeKind, &str)]) -> MdastNode {
  let children = blocks
    .iter()
    .map(|(kind, part)| {
      let (s, e) = range_of(text, part);
      leaf(*kind, s, e)
    })
    .collect();
  node(NodeKind::Other, 0, text.len(), children)
}

fn unchanged(_: &str) -> Result<Option<String>, String> {
  Ok(None)
}

fn no_code(_: &str, _: &str, _: u32) -> Result<Option<String>, String> {
  Ok(None)
}

// ==== format_mdx_text: scenarios of the original MDX support ====

#[test]
fn import_statement_is_left_unchanged() {
  let input = "import Foo from './foo'\n\n# Hello\n";
  let tree = || root(input, &[(NodeKind::MdxjsEsm, "import Foo from './foo'"), (NodeKind::Heading, "# Hello")]);
  let result = format_mdx_text(input, &config(), |_| Some(tree()), unchanged, no_code).unwrap();
  assert_eq!(result, None, "should be unchanged");
}

#[test]
fn export_default_is_left_unchanged() {
  let input = "export default function Layout({ children }) {\n  return <div>{children}</div>\n}\n\n# Hello\n";
  let esm = "export default function Layout({ children }) {\n  return <div>{children}</div>\n}";
  let tree = || root(input, &[(NodeKind::MdxjsEsm, esm), (NodeKind::Heading, "# Hello")]);
  let result = format_mdx_text(input, &config(), |_| Some(tree()), unchanged, no_code).unwrap();
  assert_eq!(result, None, "should be unchanged");
}

#[test]
fn markdown_around_imports_is_formatted() {
  let input = "import Foo from './foo'\n\n#  Hello  World\n";
  let tree = || root(input, &[(NodeKind::MdxjsEsm, "import Foo from './foo'"), (NodeKind::Heading, "#  Hello  World")]);
  let formatter = |text: &str| -> Result<Option<String>, String> {
    assert_eq!(text, "<!-- __dprint_mdx_a 0 -->\n\n#  Hello  World\n");
    Ok(Some("<!-- __dprint_mdx_a 0 -->\n\n# Hello World\n".to_string()))
  };
  let result = format_mdx_text(input, &config(), |_| Some(tree()), formatter, no_code).unwrap();
  assert_eq!(result, Some("import Foo from './foo'\n\n# Hello World\n".to_string()));
}

#[test]
fn markdown_around_jsx_is_formatted() {
  let input = "<Callout>\nHello\n</Callout>\n\n#  Title\n";
  let tree = || root(input, &[(NodeKind::MdxJsxFlowElement, "<Callout>\nHello\n</Callout>"), (NodeKind::Heading, "#  Title")]);
  let formatter = |text: &str| -> Result<Option<String>, String> {
    Ok(Some(text.replace("#  Title", "# Title")))
  };
  let result = format_mdx_text(input, &config(), |_| Some(tree()), formatter, no_code).unwrap();
  assert_eq!(result, Some("<Callout>\nHello\n</Callout>\n\n# Title\n".to_string()));
}

#[test]
fn expression_block_is_left_unchanged() {
  let input = "{\n  <div>\n    <p>Hello</p>\n  </div>\n}\n\n# Title\n";
  let tree = || root(input, &[(NodeKind::MdxFlowExpression, "{\n  <div>\n    <p>Hello</p>\n  </div>\n}"), (NodeKind::Heading, "# Title")]);
  let result = format_mdx_text(input, &config(), |_| Some(tree()), unchanged, no_code).unwrap();
  assert_eq!(result, None);
}

#[test]
fn ignore_comment_is_shown_to_the_formatter_as_html() {
  let input = "{/* dprint-ignore */}\n\n# Hello\n";
  let tree = || root(input, &[(NodeKind::MdxFlowExpression, "{/* dprint-ignore */}"), (NodeKind::Heading, "# Hello")]);
  let formatter = |text: &str| -> Result<Option<String>, String> {
    assert_eq!(text, "<!-- dprint-ignore -->\n\n# Hello\n");
    Ok(None)
  };
  let result = format_mdx_text(input, &config(), |_| Some(tree()), formatter, no_code).unwrap();
  assert_eq!(result, None);
}

#[test]
fn document_without_mdx_is_formatted_as_markdown() {
  let input = "#  Title\n\nSome  text.\n";
  let tree = || root(input, &[(NodeKind::Heading, "#  Title"), (NodeKind::Paragraph, "Some  text.")]);
  let formatter = |text: &str| -> Result<Option<String>, String> {
    assert_eq!(text, input);
    Ok(Some("# Title\n\nSome text.\n".to_string()))
  };
  let result = format_mdx_text(input, &config(), |_| Some(tree()), formatter, no_code).unwrap();
  assert_eq!(result, Some("# Title\n\nSome text.\n".to_string()));
}

#[test]
fn unparsable_document_is_left_unchanged() {
  let result = format_mdx_text("<Broken", &config(), |_| None, |_: &str| -> Result<Option<String>, String> {
    panic!("the formatter must not run")
  }, no_code);
  assert_eq!(result, Ok(None));
}

#[test]
fn formatter_error_is_passed_on() {
  let input = "import Foo from './foo'\n\n# Hello\n";
  let tree = || root(input, &[(NodeKind::MdxjsEsm, "import Foo from './foo'"), (NodeKind::Heading, "# Hello")]);
  let result = format_mdx_text(input, &config(), |_| Some(tree()), |_| Err("bad markdown".to_string()), no_code);
  assert_eq!(result, Err("bad markdown".to_string()));
}

#[test]
fn import_can_be_changed_by_the_formatter_output() {
  let input = "import Foo from './foo'\n\n# Title\n";
  let tree = || root(input, &[(NodeKind::MdxjsEsm, "import Foo from './foo'"), (NodeKind::Heading, "# Title")]);
  let formatter = |text: &str| -> Result<Option<String>, String> {
    Ok(Some(format!("{}\nmore\n", text)))
  };
  let result = format_mdx_text(input, &config(), |_| Some(tree()), formatter, no_code).unwrap();
  assert_eq!(result, Some("import Foo from './foo'\n\n# Title\n\nmore\n".to_string()));
}

#[test]
fn paragraph_with_inline_jsx_is_protected_whole() {
  let input = "Some <Badge /> text\n";
  let para = {
    let (s, e) = range_of(input, "Some <Badge /> text");
    let (bs, be) = range_of(input, "<Badge />");
    node(NodeKind::Paragraph, s, e, vec![leaf(NodeKind::Other, 0, 5), leaf(NodeKind::MdxJsxTextElement, bs, be)])
  };
  let tree = node(NodeKind::Other, 0, input.len(), vec![para]);
  let mut spans = Vec::new();
  collect_mdx_spans(&tree, &mut spans);
  assert_eq!(spans_of(&spans), vec![(0, 19)]);
}

// ==== span collection ====

#[test]
fn flow_mdx_hides_its_subtree() {
  let tree = node(
    NodeKind::Other,
    0,
    40,
    vec![
      node(NodeKind::MdxJsxFlowElement, 2, 20, vec![leaf(NodeKind::MdxJsxFlowElement, 5, 10)]),
      node(NodeKind::Other, 22, 40, vec![leaf(NodeKind::MdxFlowExpression, 25, 30)]),
      node(NodeKind::Heading, 30, 35, vec![leaf(NodeKind::Other, 31, 35)]),
    ],
  );
  let mut spans = Vec::new();
  collect_mdx_spans(&tree, &mut spans);
  assert_eq!(spans_of(&spans), vec![(2, 20), (25, 30)]);
}

#[test]
fn protected_node_without_position_gives_no_span() {
  let tree = node(
    NodeKind::Other,
    0,
    10,
    vec![MdastNode { kind: NodeKind::MdxjsEsm, position: None, children: vec![leaf(NodeKind::MdxjsEsm, 1, 2)] }],
  );
  let mut spans = Vec::new();
  collect_mdx_spans(&tree, &mut spans);
  assert!(spans.is_empty());
}

#[test]
fn inline_mdx_is_found_deep() {
  let deep = node(
    NodeKind::Paragraph,
    0,
    10,
    vec![node(NodeKind::Other, 0, 10, vec![leaf(NodeKind::MdxTextExpression, 3, 6)])],
  );
  assert!(has_inline_mdx_deep(&deep));
  let plain = node(NodeKind::Paragraph, 0, 10, vec![leaf(NodeKind::Other, 0, 10)]);
  assert!(!has_inline_mdx_deep(&plain));
}

// ==== sorting and merging ====

#[test]
fn spans_sort_stably_by_start() {
  let sorted = sort_spans_by_start(vec![span(5, 9), span(1, 2), span(5, 6), span(0, 1)]);
  assert_eq!(spans_of(&sorted), vec![(0, 1), (1, 2), (5, 9), (5, 6)]);
}

#[test]
fn overlapping_and_adjacent_spans_merge() {
  let merged = merge_spans(vec![span(0, 3), span(3, 5), span(4, 10), span(11, 12), span(12, 12)]);
  assert_eq!(spans_of(&merged), vec![(0, 10), (11, 12)]);
}

#[test]
fn contained_span_keeps_the_larger_end() {
  let merged = merge_spans(vec![span(0, 10), span(2, 4)]);
  assert_eq!(spans_of(&merged), vec![(0, 10)]);
}

#[test]
fn merged_spans_cover_the_same_offsets() {
  let input = vec![span(0, 3), span(2, 5), span(7, 9), span(9, 10), span(12, 12), span(13, 15), span(14, 14)];
  let merged = merge_spans(input.clone());
  assert_eq!(spans_of(&merged), vec![(0, 5), (7, 10), (12, 12), (13, 15)]);
  let covered = |v: &[MdxSpan], p: usize| v.iter().any(|s| s.start <= p && p < s.end);
  for p in 0..20 {
    assert_eq!(covered(&merged, p), covered(&input, p), "offset {}", p);
  }
}

#[test]
fn merging_nothing_gives_nothing() {
  assert!(merge_spans(Vec::new()).is_empty());
}

// ==== nonce ====

#[test]
fn nonce_is_the_stem_when_it_is_free() {
  assert_eq!(find_nonce("# Hello\n"), "__dprint_mdx_a");
}

#[test]
fn nonce_grows_past_what_the_source_holds() {
  assert_eq!(find_nonce("x __dprint_mdx_a and __dprint_mdx_aa"), "__dprint_mdx_aaa");
}

// ==== ignore directives ====

#[test]
fn ignore_directive_becomes_html_comment() {
  assert_eq!(as_ignore_html_comment("{/* dprint-ignore */}", &config()), Some("<!-- dprint-ignore -->".to_string()));
  assert_eq!(
    as_ignore_html_comment("{ /*  dprint-ignore-start\n */ }", &config()),
    Some("<!-- dprint-ignore-start -->".to_string())
  );
  assert_eq!(as_ignore_html_comment("{/*dprint-ignore-end*/}", &config()), Some("<!-- dprint-ignore-end -->".to_string()));
  assert_eq!(
    as_ignore_html_comment("{/*\u{3000}dprint-ignore-file\u{a0}*/}", &config()),
    Some("<!-- dprint-ignore-file -->".to_string())
  );
}

#[test]
fn other_expressions_are_not_ignore_directives() {
  assert_eq!(as_ignore_html_comment("{/* a comment */}", &config()), None);
  assert_eq!(as_ignore_html_comment("{/**/}", &config()), None);
  assert_eq!(as_ignore_html_comment("{/*/}", &config()), None);
  assert_eq!(as_ignore_html_comment("/* dprint-ignore */", &config()), None);
  assert_eq!(as_ignore_html_comment("{", &config()), None);
  assert_eq!(as_ignore_html_comment("{x /* dprint-ignore */}", &config()), None);
}

// ==== regions, placeholders and restoring ====

#[test]
fn regions_number_their_placeholders() {
  let source = "<A />\n\ntext {/* dprint-ignore */}\n\n<B />";
  let spans = [span(0, 5), span(12, 33), span(35, 40)];
  let regions = build_regions(source, &spans, "__dprint_mdx_a", &config());
  let placeholders: Vec<&str> = regions.iter().map(|r| r.placeholder.as_str()).collect();
  assert_eq!(placeholders, vec!["<!-- __dprint_mdx_a 0 -->", "<!-- dprint-ignore -->", "<!-- __dprint_mdx_a 2 -->"]);
  let originals: Vec<&str> = regions.iter().map(|r| r.original.as_str()).collect();
  assert_eq!(originals, vec!["<A />", "{/* dprint-ignore */}", "<B />"]);
  assert_eq!(
    build_placeholdered_text(source, &regions),
    "<!-- __dprint_mdx_a 0 -->\n\ntext <!-- dprint-ignore -->\n\n<!-- __dprint_mdx_a 2 -->"
  );
}

#[test]
fn two_digit_region_numbers() {
  let source = "abcdefghijklmnop";
  let spans: Vec<MdxSpan> = (0..12).map(|i| span(i, i + 1)).collect();
  let regions = build_regions(source, &spans, "N", &config());
  assert_eq!(regions[10].placeholder, "<!-- N 10 -->");
  assert_eq!(regions[11].original, "l");
}

fn region(placeholder: &str, original: &str) -> MdxRegion {
  MdxRegion { start: 0, end: 0, placeholder: placeholder.to_string(), original: original.to_string() }
}

#[test]
fn restoring_swaps_each_placeholder_back() {
  let regions = vec![region("<!-- N 0 -->", "<A />"), region("<!-- N 1 -->", "{x}")];
  assert_eq!(restore_regions("a <!-- N 1 --> b <!-- N 0 --> c <!-- N 1 -->", &regions), "a {x} b <A /> c {x}");
}

#[test]
fn restoring_takes_the_first_matching_region() {
  let regions = vec![region("<!--", "first"), region("<!-- N 0 -->", "second")];
  assert_eq!(restore_regions("x <!-- N 0 -->", &regions), "x first N 0 -->");
}

#[test]
fn restoring_keeps_multibyte_text() {
  let regions = vec![region("<!-- N 0 -->", "<Ü />")];
  assert_eq!(restore_regions("é<!-- N 0 -->ß€", &regions), "é<Ü />ß€");
}

#[test]
fn placeholdering_then_restoring_gives_back_the_source() {
  let source = "ä <X/> ö {y} ü";
  let spans = [span(3, 7), span(11, 14)];
  let nonce = find_nonce(source);
  let regions = build_regions(source, &spans, &nonce, &config());
  let text = build_placeholdered_text(source, &regions);
  assert_eq!(text, "ä <!-- __dprint_mdx_a 0 --> ö <!-- __dprint_mdx_a 1 --> ü");
  assert_eq!(restore_regions(&text, &regions), source);
}

// ==== plan and finish ====

#[test]
fn plan_merges_touching_spans_into_one_region() {
  let input = "<A /><B />\n\ntext\n";
  let tree = root(input, &[(NodeKind::MdxJsxFlowElement, "<B />"), (NodeKind::MdxJsxFlowElement, "<A />")]);
  match plan_mdx(input, &tree, &config()) {
    MdxPlan::Placeholders { text, regions, esm } => {
      assert_eq!(text, "<!-- __dprint_mdx_a 0 -->\n\ntext\n");
      assert_eq!(regions.len(), 1);
      assert_eq!(regions[0].original, "<A /><B />");
      assert_eq!(esm, vec![false]);
    }
    MdxPlan::Markdown => panic!("expected placeholders"),
  }
}

#[test]
fn plan_without_mdx_is_markdown() {
  let input = "# Title\n";
  let tree = root(input, &[(NodeKind::Heading, "# Title")]);
  assert!(matches!(plan_mdx(input, &tree, &config()), MdxPlan::Markdown));
}

#[test]
fn finish_reports_unchanged_text_as_none() {
  let regions = vec![region("<!-- N 0 -->", "<A />")];
  assert_eq!(finish_mdx("<A />\n", "<!-- N 0 -->\n", &regions, None), None);
  assert_eq!(
    finish_mdx("<A />\n", "<!-- N 0 -->\n", &regions, Some("<!-- N 0 -->\n\n".to_string())),
    Some("<A />\n\n".to_string())
  );
  assert_eq!(finish_mdx("<A />\n", "<!-- N 0 -->\n", &regions, Some("<!-- N 0 -->\n".to_string())), None);
}

// ==== brace balancing ====

#[test]
fn balanced_braces() {
  assert!(braces_balanced("export const meta = { title: 'Hello' }"));
  assert!(braces_balanced(""));
  assert!(braces_balanced("}"));
  assert!(braces_balanced("a }{ b"));
}

#[test]
fn unbalanced_braces() {
  assert!(!braces_balanced("export function f() {"));
  assert!(!braces_balanced("{{}"));
}

#[test]
fn braces_inside_literals_do_not_count() {
  assert!(braces_balanced("const s = '{'"));
  assert!(braces_balanced("const s = \"{{\""));
  assert!(braces_balanced("const s = `{`"));
  assert!(braces_balanced("const s = \"it's {\""));
  assert!(!braces_balanced("f({ s: '\\''"));
  assert!(braces_balanced("f({ s: '\\'' })"));
  assert!(braces_balanced("'\\\\' }"));
  assert!(braces_balanced("\\' {"));
}

#[test]
fn differently_spaced_ignore_directives_each_restore_their_own() {
  let input = "{/* dprint-ignore */}\n\n{/*dprint-ignore*/}\n";
  let tree = || root(input, &[(NodeKind::MdxFlowExpression, "{/* dprint-ignore */}"), (NodeKind::MdxFlowExpression, "{/*dprint-ignore*/}")]);
  let result = format_mdx_text(input, &config(), |_| Some(tree()), unchanged, no_code).unwrap();
  assert_eq!(result, None);
}

#[test]
fn repeated_placeholders_restore_regions_in_order() {
  let regions = vec![region("<!-- ig -->", "{/* ig */}"), region("<!-- ig -->", "{/*ig*/}")];
  assert_eq!(restore_regions("<!-- ig -->a<!-- ig -->", &regions), "{/* ig */}a{/*ig*/}");
}

#[test]
fn placeholder_repeated_by_the_formatter_falls_back_to_the_first_region() {
  let regions = vec![region("<!-- ig -->", "{/* ig */}"), region("<!-- ig -->", "{/*ig*/}")];
  assert_eq!(
    restore_regions("<!-- ig --><!-- ig --><!-- ig -->", &regions),
    "{/* ig */}{/*ig*/}{/* ig */}"
  );
}

#[test]
fn placeholders_avoid_text_that_looks_like_them() {
  let source = "<!-- __dprint_mdx_a 0 --> and <X />";
  let nonce = find_nonce(source);
  assert_eq!(nonce, "__dprint_mdx_aa");
  let (s, e) = range_of(source, "<X />");
  let regions = build_regions(source, &[span(s, e)], &nonce, &config());
  assert_eq!(regions[0].placeholder, "<!-- __dprint_mdx_aa 0 -->");
  assert!(!source.contains(&regions[0].placeholder));
  let text = build_placeholdered_text(source, &regions);
  assert_eq!(restore_regions(&text, &regions), source);
}

// ==== import/export blocks and the code formatter ====

fn code_adds_semicolon(tag: &str, text: &str, width: u32) -> Result<Option<String>, String> {
  assert_eq!(tag, "tsx");
  assert_eq!(width, 80);
  Ok(Some(format!("{};\n", text.trim())))
}

#[test]
fn import_block_is_formatted_by_the_code_formatter() {
  let input = "import Foo from './foo'\n\n<Note />\n";
  let tree = || root(input, &[(NodeKind::MdxjsEsm, "import Foo from './foo'"), (NodeKind::MdxJsxFlowElement, "<Note />")]);
  let result = format_mdx_text(input, &config(), |_| Some(tree()), unchanged, code_adds_semicolon).unwrap();
  assert_eq!(result, Some("import Foo from './foo';\n\n<Note />\n".to_string()));
}

#[test]
fn code_formatter_error_is_passed_on() {
  let input = "import Foo from './foo'\n\n# Hello\n";
  let tree = || root(input, &[(NodeKind::MdxjsEsm, "import Foo from './foo'"), (NodeKind::Heading, "# Hello")]);
  let result = format_mdx_text(input, &config(), |_| Some(tree()), unchanged, |_: &str, _: &str, _: u32| {
    Err("bad code".to_string())
  });
  assert_eq!(result, Err("bad code".to_string()));
}

#[test]
fn only_import_export_regions_reach_the_code_formatter() {
  let regions = vec![region("<!-- N 0 -->", "import A from 'a'"), region("<!-- N 1 -->", "<B />")];
  let seen = std::cell::RefCell::new(Vec::new());
  let out = format_esm_regions(regions, &[true, false], &|tag: &str, text: &str, _: u32| -> Result<Option<String>, String> {
    seen.borrow_mut().push((tag.to_string(), text.to_string()));
    Ok(Some(format!("{};  \n\n", text)))
  }, 80)
  .unwrap();
  assert_eq!(seen.borrow().clone(), vec![("tsx".to_string(), "import A from 'a'".to_string())]);
  assert_eq!(out[0].original, "import A from 'a';");
  assert_eq!(out[0].placeholder, "<!-- N 0 -->");
  assert_eq!(out[1].original, "<B />");
}

#[test]
fn code_formatter_that_changes_nothing_keeps_the_block() {
  let regions = vec![region("<!-- N 0 -->", "export const a = 1")];
  let out = format_esm_regions(regions, &[true], &no_code, 80).unwrap();
  assert_eq!(out[0].original, "export const a = 1");
}

#[test]
fn esm_merged_with_other_mdx_is_not_code_formatted() {
  let input = "import A from 'a'\n<B />\n";
  let tree = root(input, &[(NodeKind::MdxjsEsm, "import A from 'a'\n"), (NodeKind::MdxJsxFlowElement, "<B />")]);
  match plan_mdx(input, &tree, &config()) {
    MdxPlan::Placeholders { regions, esm, .. } => {
      assert_eq!(regions.len(), 1);
      assert_eq!(esm, vec![false]);
    }
    MdxPlan::Markdown => panic!("expected placeholders"),
  }
}

#[test]
fn trailing_white_space_is_trimmed() {
  assert_eq!(trim_end_string("a b \n\t\u{3000}"), "a b");
  assert_eq!(trim_end_string("  "), "");
  assert_eq!(trim_end_string(" x"), " x");
}

#[test]
fn restoring_empty_text_needs_no_placeholder() {
  let regions = vec![region("", "x")];
  assert_eq!(restore_regions("", &regions), "");
}

#[test]
fn brace_depth_fits_ordinary_values() {
  assert!(brace_depth_fits("{{{ }}} '{'"));
  assert!(brace_depth_fits(""));
}

#[test]
fn merging_twice_is_merging_once() {
  let once = merge_spans(vec![span(0, 3), span(2, 5), span(7, 8)]);
  let twice = merge_spans(once.clone());
  assert_eq!(spans_of(&once), spans_of(&twice));
}

#[test]
fn closing_brace_keeps_balance() {
  assert!(braces_balanced("{ a }"));
  assert!(braces_balanced("{ a }}"));
}

#[test]
fn white_space_around_ignore_comment_does_not_matter() {
  assert_eq!(
    as_ignore_html_comment("{ \t/*\n dprint-ignore \u{a0}*/  }", &config()),
    as_ignore_html_comment("{/*dprint-ignore*/}", &config())
  );
}
