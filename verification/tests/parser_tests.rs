use weread::html::{build_tree, HtmlEvent, HtmlNode};
use weread::markdown::{element_to_markdown, process_list, push_element_markdown};
use weread::parser::WeixinParser;
use weread::text::{split_lines, white_space};

fn chars(s: &str) -> Vec<char> {
    s.chars().collect()
}

fn text(s: &str) -> HtmlNode {
    HtmlNode::Text(chars(s))
}

fn elem(name: &str, attrs: &[(&str, &str)], children: Vec<HtmlNode>) -> HtmlNode {
    HtmlNode::Element {
        name: chars(name),
        attrs: attrs.iter().map(|(k, v)| (chars(k), chars(v))).collect(),
        children,
    }
}

fn markdown_of(node: &HtmlNode) -> String {
    let mut out = Vec::new();
    push_element_markdown(node, &mut out);
    out.into_iter().collect()
}

const PAGE: &str = "<!DOCTYPE html><html><head>\
<meta property=\"og:title\" content=\"测试文章\">\
<meta property=\"article:published_time\" content=\"2024-01-01\">\
</head><body>\
<h1 id=\"activity-name\">  页面标题  </h1>\
<span id=\"js_author_name\"> 张三 </span>\
<div id=\"js_content\">\n\
<h2>第一节</h2>\n\
<p>普通  段落</p>\n\
<p><strong>小标题</strong></p>\n\
<p><img data-src=\"https://mmbiz.qpic.cn/a.png\" alt=\"图\"></p>\n\
<ul><li>甲</li><li>乙</li></ul>\n\
<blockquote>引用一</blockquote>\n\
<pre><code>let x = 1;</code></pre>\n\
<p><span class=\"math inline\">x^2</span></p>\n\
<hr>\n\
<p><a href=\"https://example.com\">链接</a></p>\n\
</div></body></html>";

#[test]
fn parse_full_page() {
    let parser = WeixinParser::new();
    let article = parser.parse(PAGE);
    assert_eq!(article.title, "页面标题");
    assert_eq!(article.author, "张三");
    assert_eq!(article.publish_time, "2024-01-01");
    assert_eq!(article.images, vec!["https://mmbiz.qpic.cn/a.png".to_string()]);
    assert_eq!(
        article.content_markdown,
        "# 页面标题\n\n## 第一节\n\n普通 段落\n\n### 小标题\n\n![图](https://mmbiz.qpic.cn/a.png)\n\n- 甲\n- 乙\n\n> 引用一\n\n```\nlet x = 1;\n```\n$x^2$\n\n---\n\n[链接](https://example.com)"
    );
    assert_eq!(
        article.content,
        "第一节\n\n普通 段落\n\n小标题\n\n甲\n乙\n\n引用一\n\nlet x = 1;\n\nx^2\n\n链接"
    );
}

#[test]
fn parse_title_from_selector_when_no_meta() {
    let page = "<html><body><h1 id=\"activity-name\">  页面标题  </h1>\
<em id=\"publish_time\">2023-05-06</em>\
<div class=\"rich_media_content\"><p>正文</p></div></body></html>";
    let article = WeixinParser::new().parse(page);
    assert_eq!(article.title, "页面标题");
    assert_eq!(article.publish_time, "2023-05-06");
    assert_eq!(article.content_markdown, "# 页面标题\n\n正文");
    assert_eq!(article.content, "正文");
}

#[test]
fn parse_empty_page_uses_fallbacks() {
    let article = WeixinParser::new().parse("<html><body></body></html>");
    assert_eq!(article.title, "未找到标题");
    assert_eq!(article.author, "未知作者");
    assert_eq!(article.publish_time, "未知时间");
    assert_eq!(article.content, "未找到正文内容");
    assert_eq!(article.content_markdown, "");
    assert!(article.images.is_empty());
}

#[test]
fn parse_title_from_first_markdown_heading() {
    let page = "<html><body><div id=\"js_content\"><p># 正文标题</p><p>内容</p></div></body></html>";
    let article = WeixinParser::new().parse(page);
    assert_eq!(article.title, "正文标题");
    assert_eq!(article.content_markdown, "# 正文标题\n\n# 正文标题\n\n内容");
}

#[test]
fn parse_skips_inline_data_images() {
    let page = "<html><body><img src=\"https://a/logo.png\"><div id=\"js_content\">\
<img data-src=\"data:image/png;base64,xx\" src=\"https://a/b.png\">\
<img src=\"https://a/c.jpg\"><p><img data-src=\"https://a/d.gif\"></p></div></body></html>";
    let article = WeixinParser::new().parse(page);
    assert_eq!(
        article.images,
        vec!["https://a/c.jpg".to_string(), "https://a/d.gif".to_string()]
    );
}

#[test]
fn parse_twitter_title_after_og_title() {
    let page = "<html><head><meta property=\"twitter:title\" content=\"推特标题\">\
<meta property=\"og:updated_time\" content=\"2022\"></head><body></body></html>";
    let article = WeixinParser::new().parse(page);
    assert_eq!(article.title, "推特标题");
    assert_eq!(article.publish_time, "2022");
    assert_eq!(article.content_markdown, "# 推特标题\n\n");
}

#[test]
fn clean_text_collapses_runs() {
    let parser = WeixinParser::new();
    let r: String = parser.clean_text(&chars("  a\n\n\n\nb  c \n\n\n ")).into_iter().collect();
    assert_eq!(r, "a\n\nb c");
    let r2: String = parser.clean_text(&chars("x\n\ny")).into_iter().collect();
    assert_eq!(r2, "x\n\ny");
}

#[test]
fn first_heading_skips_code_fences() {
    let parser = WeixinParser::new();
    let md = chars("text\n```\n# not this\n```\n#  \n# # found it \n# later");
    let h: Option<String> = parser.extract_first_heading(&md).map(|v| v.into_iter().collect());
    assert_eq!(h, Some("found it".to_string()));
    assert_eq!(parser.extract_first_heading(&chars("no heading")), None);
}

#[test]
fn table_with_direct_rows() {
    let table = elem(
        "table",
        &[],
        vec![
            elem("tr", &[], vec![elem("th", &[], vec![text("A")]), elem("th", &[], vec![text("B")])]),
            text("\n"),
            elem("tr", &[], vec![elem("td", &[], vec![text(" 1 ")])]),
        ],
    );
    assert_eq!(markdown_of(&table), "| A | B |\n|---|---|\n| 1 |  |\n\n");
    let empty = elem("table", &[], vec![elem("tbody", &[], vec![])]);
    assert_eq!(markdown_of(&empty), "");
}

#[test]
fn ordered_list_numbers_by_item_rank() {
    let list = elem(
        "ol",
        &[],
        vec![
            text("\n"),
            elem("li", &[], vec![text("a")]),
            text("\n"),
            elem("li", &[], vec![text("b")]),
            elem("li", &[], vec![]),
        ],
    );
    let mut out = Vec::new();
    process_list(&list, true, &mut out);
    assert_eq!(out.into_iter().collect::<String>(), "1. a\n2. b\n\n");
    let ul = elem("ul", &[], vec![elem("li", &[], vec![text(" x ")])]);
    assert_eq!(markdown_of(&ul), "- x\n\n");
}

#[test]
fn inline_and_block_tags() {
    assert_eq!(markdown_of(&elem("h1", &[], vec![text(" T ")])), "T\n\n");
    assert_eq!(markdown_of(&elem("h4", &[], vec![text("T")])), "#### T\n\n");
    assert_eq!(markdown_of(&elem("em", &[], vec![text("e")])), "*e*");
    assert_eq!(markdown_of(&elem("b", &[], vec![text("")])), "");
    assert_eq!(markdown_of(&elem("code", &[], vec![text("c")])), "`c`");
    assert_eq!(markdown_of(&elem("br", &[], vec![])), "\n");
    assert_eq!(markdown_of(&elem("a", &[], vec![text("t")])), "t");
    assert_eq!(markdown_of(&elem("span", &[("class", "plain")], vec![text(" s ")])), "s");
    assert_eq!(markdown_of(&elem("span", &[("class", "katex inline")], vec![text("y")])), "$y$");
    assert_eq!(
        markdown_of(&elem("span", &[("class", "math display")], vec![text("E=mc^2")])),
        "\n$$\nE=mc^2\n$$\n\n"
    );
    assert_eq!(markdown_of(&elem("img", &[("src", "data:xx")], vec![])), "");
    assert_eq!(markdown_of(&elem("img", &[("src", "u.png")], vec![])), "![](u.png)\n\n");
    assert_eq!(
        markdown_of(&elem("div", &[], vec![elem("strong", &[], vec![text("a")]), elem("strong", &[], vec![text("b")])])),
        "**a****b**\n\n"
    );
    assert_eq!(
        markdown_of(&elem("blockquote", &[], vec![text("one\r\ntwo")])),
        "> one\n> two\n\n"
    );
    assert_eq!(
        markdown_of(&elem("pre", &[], vec![elem("code", &[], vec![text(" x\n  y ")])])),
        "\n```\nx\n  y\n```\n"
    );
    assert_eq!(markdown_of(&elem("hr", &[], vec![])), "\n---\n\n");
    let wrapper = elem("section", &[], vec![text(" a "), HtmlNode::Other, elem("em", &[], vec![text("b")])]);
    assert_eq!(element_to_markdown(&wrapper).into_iter().collect::<String>(), "a*b*");
}

#[test]
fn build_tree_from_walk() {
    let events = vec![
        HtmlEvent::Open { name: chars("html"), attrs: vec![] },
        HtmlEvent::Text(chars("x")),
        HtmlEvent::Close,
        HtmlEvent::Open { name: chars("p"), attrs: vec![(chars("class"), chars("c"))] },
        HtmlEvent::Text(chars("y")),
        HtmlEvent::Close,
        HtmlEvent::Close,
        HtmlEvent::OpenOther,
        HtmlEvent::Close,
        HtmlEvent::Close,
    ];
    let tree = build_tree(&events);
    let md: String = element_to_markdown(&tree).into_iter().collect();
    assert_eq!(md, "xy\n\n");
    match tree {
        HtmlNode::Element { name, children, .. } => {
            assert_eq!(name, chars("html"));
            assert_eq!(children.len(), 3);
        }
        _ => panic!("expected an element"),
    }
}

#[test]
fn white_space_matches_std() {
    for c in (0u32..=0x10FFFF).filter_map(char::from_u32) {
        assert_eq!(white_space(c), c.is_whitespace(), "{:?}", c);
    }
}

#[test]
fn split_lines_matches_std() {
    for s in ["", "a", "a\n", "a\r\nb", "a\rb\n\nc", "\n", "x\r", "x\r\n"] {
        let ours: Vec<String> = split_lines(&chars(s)).into_iter().map(|l| l.into_iter().collect()).collect();
        let std: Vec<String> = s.lines().map(|l| l.to_string()).collect();
        assert_eq!(ours, std, "{:?}", s);
    }
}

#[test]
fn table_rows_inside_row_groups() {
    let table = elem(
        "table",
        &[],
        vec![
            elem("thead", &[], vec![elem("tr", &[], vec![elem("th", &[], vec![text("H1")]), elem("th", &[], vec![text("H2")])])]),
            elem("tbody", &[], vec![text("\n"), elem("tr", &[], vec![elem("td", &[], vec![text("a")])])]),
        ],
    );
    assert_eq!(markdown_of(&table), "| H1 | H2 |\n|---|---|\n| a |  |\n\n");
}

#[test]
fn parsed_table_is_kept() {
    let page = "<html><body><div id=\"js_content\"><table><tr><th>H</th></tr><tr><td>v</td></tr></table></div></body></html>";
    let article = WeixinParser::new().parse(page);
    assert!(article.content_markdown.contains("| H |\n|---|\n| v |"), "{}", article.content_markdown);
}

#[test]
fn parsed_ordered_list_numbers_items() {
    let page = "<html><body><div id=\"js_content\"><ol>\n<li>a</li>\n<li>b</li>\n</ol></div></body></html>";
    let article = WeixinParser::new().parse(page);
    assert!(article.content_markdown.contains("1. a\n2. b"), "{}", article.content_markdown);
}

#[test]
fn title_selectors_come_before_meta() {
    let page = "<html><head><meta property='og:title' content='B'></head><body><h1 id='activity-name'>A</h1></body></html>";
    assert_eq!(WeixinParser::new().parse(page).title, "A");
}

#[test]
fn longer_body_heading_replaces_title() {
    let page = "<html><head><meta property='og:title' content='B'></head><body><div id='js_content'><h1>Longer Title</h1></div></body></html>";
    let article = WeixinParser::new().parse(page);
    assert_eq!(article.title, "Longer Title");
    assert!(article.content_markdown.starts_with("# Longer Title\n\n"));
    let page2 = "<html><head><meta property='og:title' content='A long meta title'></head><body><div id='js_content'><h1>Short</h1></div></body></html>";
    assert_eq!(WeixinParser::new().parse(page2).title, "A long meta title");
}

#[test]
fn images_come_from_the_body_only() {
    let page = "<html><body><img src='logo.png'><div id='js_content'><img data-src='x.jpg'></div></body></html>";
    assert_eq!(WeixinParser::new().parse(page).images, vec!["x.jpg".to_string()]);
}

#[test]
fn cleaning_twice_changes_nothing() {
    let parser = WeixinParser::new();
    for t in ["  a\n\n\n\nb  c \n\n\n ", " x   y ", "\n\n\n", "p \n\n\n  q"] {
        let once = parser.clean_text(&chars(t));
        let twice = parser.clean_text(&once);
        assert_eq!(once, twice);
    }
}
