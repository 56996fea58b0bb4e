//! MDX documents parsed by `markdown-rs`: import/export statements, JSX
//! components, and expression blocks are recognized and preserved.
//!
//! The markdown formatter of the original project is not part of this
//! library; these tests use a stand-in that does what that formatter does to
//! these inputs: it collapses runs of spaces (`#  Title` becomes `# Title`)
//! and leaves well-formatted markdown alone.

use markdown::mdast::Node;
use mdx_format::braces::braces_balanced;
use mdx_format::format_mdx_text;
use mdx_format::placeholders::Configuration;
use mdx_format::spans::{MdastNode, MdxSpan, NodeKind};

fn config() -> Configuration {
  Configuration {
    line_width: 80,
    ignore_directive: "dprint-ignore".to_string(),
    ignore_start_directive: "dprint-ignore-start".to_string(),
    ignore_end_directive: "dprint-ignore-end".to_string(),
    ignore_file_directive: "dprint-ignore-file".to_string(),
  }
}

fn convert(node: &Node) -> MdastNode {
  let kind = match node {
    Node::MdxjsEsm(_) => NodeKind::MdxjsEsm,
    Node::MdxFlowExpression(_) => NodeKind::MdxFlowExpression,
    Node::MdxJsxFlowElement(_) => NodeKind::MdxJsxFlowElement,
    Node::MdxTextExpression(_) => NodeKind::MdxTextExpression,
    Node::MdxJsxTextElement(_) => NodeKind::MdxJsxTextElement,
    Node::Paragraph(_) => NodeKind::Paragraph,
    Node::Heading(_) => NodeKind::Heading,
    Node::TableCell(_) => NodeKind::TableCell,
    _ => NodeKind::Other,
  };
  let position = node.position().map(|p| MdxSpan { start: p.start.offset, end: p.end.offset });
  let children = match node.children() {
    Some(children) => children.iter().map(convert).collect(),
    None => Vec::new(),
  };
  MdastNode { kind, position, children }
}

fn signal(value: &str, kind: &str) -> markdown::MdxSignal {
  if braces_balanced(value) {
    markdown::MdxSignal::Ok
  } else {
    markdown::MdxSignal::Eof(format!("Incomplete {}", kind), Box::new(kind.into()), Box::new(kind.into()))
  }
}

fn parse(source: &str) -> Option<MdastNode> {
  let opts = markdown::ParseOptions {
    constructs: markdown::Constructs { frontmatter: true, ..markdown::Constructs::mdx() },
    mdx_esm_parse: Some(Box::new(|value: &str| signal(value, "esm"))),
    mdx_expression_parse: Some(Box::new(|value: &str, _: &markdown::MdxExpressionKind| signal(value, "expression"))),
    ..markdown::ParseOptions::mdx()
  };
  markdown::to_mdast(source, &opts).ok().map(|node| convert(&node))
}

/// The stand-in markdown formatter: collapses runs of spaces.
fn format_markdown(text: &str) -> Result<Option<String>, String> {
  let mut out = String::new();
  let mut last_space = false;
  for c in text.chars() {
    if c == ' ' && last_space {
      continue;
    }
    last_space = c == ' ';
    out.push(c);
  }
  Ok(if out == text { None } else { Some(out) })
}

fn format_mdx(input: &str) -> Option<String> {
  format_mdx_text(input, &config(), parse, format_markdown, |_: &str, _: &str, _: u32| Ok(None)).unwrap()
}

fn format_mdx_with_callback(
  input: &str,
  cb: impl Fn(&str, &str, u32) -> Result<Option<String>, String>,
) -> Option<String> {
  format_mdx_text(input, &config(), parse, format_markdown, cb).unwrap()
}

// ==== import/export statements ====

#[test]
fn preserves_import_statement() {
  let input = "import Foo from './foo'\n\n# Hello\n";
  let result = format_mdx(input);
  assert_eq!(result, None, "should be unchanged");
}

#[test]
fn preserves_multiple_imports() {
  let input = "import Foo from './foo'\nimport Bar from './bar'\n\n# Hello\n";
  let result = format_mdx(input);
  assert_eq!(result, None, "should be unchanged");
}

#[test]
fn preserves_export_statement() {
  let input = "export const meta = { title: 'Hello' }\n\n# Hello\n";
  let result = format_mdx(input);
  assert_eq!(result, None, "should be unchanged");
}

#[test]
fn preserves_export_default() {
  let input = "export default function Layout({ children }) {\n  return <div>{children}</div>\n}\n\n# Hello\n";
  let result = format_mdx(input);
  assert_eq!(result, None, "should be unchanged");
}

#[test]
fn formats_markdown_around_imports() {
  let input = "import Foo from './foo'\n\n#  Hello  World\n";
  let result = format_mdx(input);
  assert_eq!(result, Some("import Foo from './foo'\n\n# Hello World\n".to_string()));
}

#[test]
fn preserves_import_at_top_of_file() {
  let input = "import { Tabs } from '@theme/Tabs'\n\nSome text.\n";
  let result = format_mdx(input);
  assert_eq!(result, None);
}

// ==== JSX components ====

#[test]
fn preserves_jsx_self_closing_component() {
  let input = "<MyComponent prop=\"value\" />\n\n# Title\n";
  let result = format_mdx(input);
  assert_eq!(result, None);
}

#[test]
fn preserves_jsx_block_component() {
  let input = "<Note>\nSome content inside the note.\n</Note>\n\n# Title\n";
  let result = format_mdx(input);
  assert_eq!(result, None);
}

#[test]
fn formats_markdown_around_jsx() {
  let input = "<Callout>\nHello\n</Callout>\n\n#  Title\n";
  let result = format_mdx(input);
  assert_eq!(result, Some("<Callout>\nHello\n</Callout>\n\n# Title\n".to_string()));
}

// ==== expression blocks ====

#[test]
fn preserves_expression_block() {
  let input = "{/* a comment */}\n\n# Hello\n";
  let result = format_mdx(input);
  assert_eq!(result, None);
}

#[test]
fn preserves_multiline_expression() {
  let input = "{\n  <div>\n    <p>Hello</p>\n  </div>\n}\n\n# Title\n";
  let result = format_mdx(input);
  assert_eq!(result, None);
}

// ==== mixed content ====

#[test]
fn formats_full_mdx_file() {
  let input = [
    "import Tabs from '@theme/Tabs'\n",
    "import TabItem from '@theme/TabItem'\n",
    "\n",
    "export const meta = { title: 'Example' }\n",
    "\n",
    "#  Getting Started\n",
    "\n",
    "Some  text  here.\n",
    "\n",
    "<Tabs>\n",
    "<TabItem value=\"js\" label=\"JavaScript\">\n",
    "\n",
    "```js\nconsole.log('hello')\n```\n",
    "\n",
    "</TabItem>\n",
    "</Tabs>\n",
  ]
  .concat();
  let result = format_mdx(&input).unwrap();
  // imports and exports are preserved; heading is formatted
  assert!(result.contains("import Tabs from '@theme/Tabs'"));
  assert!(result.contains("export const meta = { title: 'Example' }"));
  assert!(result.contains("# Getting Started"));
}

// ==== callback integration ====

#[test]
fn import_export_can_be_formatted_by_callback() {
  let input = "import Foo from './foo'\n\n# Title\n";
  let result = format_mdx_with_callback(input, |tag, text, _width| {
    if tag == "tsx" {
      // simulate a formatter that adds a semicolon
      Ok(Some(format!("{};\n", text.trim())))
    } else {
      Ok(None)
    }
  });
  assert_eq!(result, Some("import Foo from './foo';\n\n# Title\n".to_string()));
}

// ==== regular markdown still works ====

#[test]
fn mdx_mode_still_formats_regular_markdown() {
  let input = "#  Title\n\nSome  text.\n\n- item  1\n- item  2\n";
  let result = format_mdx(input);
  assert_eq!(result, Some("# Title\n\nSome text.\n\n- item 1\n- item 2\n".to_string()));
}

// ==== what the formatter is shown ====

#[test]
fn formatter_sees_placeholders_for_parsed_mdx() {
  let input = "import Foo from './foo'\n\n# Hello {name}\n\n<Note />\n";
  let seen = std::cell::RefCell::new(Vec::new());
  let result = format_mdx_text(
    input,
    &config(),
    parse,
    |text: &str| -> Result<Option<String>, String> {
      seen.borrow_mut().push(text.to_string());
      Ok(None)
    },
    |_: &str, _: &str, _: u32| Ok(None),
  );
  assert_eq!(result, Ok(None));
  assert_eq!(
    seen.borrow().clone(),
    vec!["<!-- __dprint_mdx_a 0 -->\n\n<!-- __dprint_mdx_a 1 -->\n\n<!-- __dprint_mdx_a 2 -->\n".to_string()]
  );
}

#[test]
fn invalid_mdx_is_left_unchanged() {
  let input = "<Open\n\n# Title\n";
  let result = format_mdx_text(
    input,
    &config(),
    parse,
    |_: &str| -> Result<Option<String>, String> { panic!("the formatter must not run") },
    |_: &str, _: &str, _: u32| -> Result<Option<String>, String> { panic!("the formatter must not run") },
  );
  assert_eq!(result, Ok(None));
}
