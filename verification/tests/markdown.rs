use pygmy::markdown::{escape_html, render_table, to_discord_markdown, to_telegram_html};

#[test]
fn bold_and_italic() {
    assert_eq!(to_telegram_html("**bold**"), "<b>bold</b>");
    assert_eq!(to_telegram_html("*italic*"), "<i>italic</i>");
}

#[test]
fn inline_code() {
    assert_eq!(to_telegram_html("`some code`"), "<code>some code</code>");
}

#[test]
fn code_block() {
    let input = "```\nfn main() {}\n```";
    let result = to_telegram_html(input);
    assert!(result.contains("<pre>"));
    assert!(result.contains("fn main() {}"));
    assert!(result.contains("</pre>"));
}

#[test]
fn link() {
    assert_eq!(
        to_telegram_html("[click](https://example.com)"),
        "<a href=\"https://example.com\">click</a>"
    );
}

#[test]
fn heading_becomes_bold() {
    assert_eq!(to_telegram_html("# Title"), "<b>Title</b>");
}

#[test]
fn unordered_list() {
    let input = "- one\n- two\n- three";
    let result = to_telegram_html(input);
    assert!(result.contains("• one"));
    assert!(result.contains("• two"));
    assert!(result.contains("• three"));
}

#[test]
fn ordered_list() {
    let input = "1. first\n2. second";
    let result = to_telegram_html(input);
    assert!(result.contains("1. first"));
    assert!(result.contains("2. second"));
}

#[test]
fn html_escaping() {
    assert_eq!(to_telegram_html("a < b & c > d"), "a &lt; b &amp; c &gt; d");
}

#[test]
fn strikethrough() {
    assert_eq!(to_telegram_html("~~deleted~~"), "<s>deleted</s>");
}

#[test]
fn blockquote() {
    let result = to_telegram_html("> quoted text");
    assert!(result.contains("<blockquote>"));
    assert!(result.contains("quoted text"));
}

#[test]
fn plain_text_passthrough() {
    assert_eq!(to_telegram_html("hello world"), "hello world");
}

#[test]
fn table_renders_as_pre_telegram() {
    let input = "\
| Metric | Before | After |
|--------|--------|-------|
| build  | 315s   | 173s  |
| deploy | 360s   | 302s  |";
    let result = to_telegram_html(input);
    assert!(result.contains("<pre>"));
    assert!(result.contains("</pre>"));
    assert!(result.contains("Metric"));
    assert!(result.contains("315s"));
    assert!(result.contains("---"));
    assert!(result.contains(" | "));
}

#[test]
fn table_renders_as_code_block_discord() {
    let input = "\
| Metric | Before | After |
|--------|--------|-------|
| build  | 315s   | 173s  |
| deploy | 360s   | 302s  |";
    let result = to_discord_markdown(input);
    assert!(result.contains("```"));
    assert!(result.contains("Metric"));
    assert!(result.contains("315s"));
    assert!(result.contains("---"));
    assert!(result.contains(" | "));
    assert!(!result.contains("<pre>"));
}

#[test]
fn discord_preserves_non_table_content() {
    let input = "Hello **world**\n\n| A | B |\n|---|---|\n| 1 | 2 |\n\nGoodbye";
    let result = to_discord_markdown(input);
    assert!(result.contains("Hello **world**"));
    assert!(result.contains("```"));
    assert!(result.contains("Goodbye"));
}

#[test]
fn discord_no_tables_passthrough() {
    let input = "Just **bold** and `code`";
    let result = to_discord_markdown(input);
    assert_eq!(result, input);
}

#[test]
fn telegram_table_exact_layout() {
    let input = "| A | Bee |\n|---|---|\n| 1 | 2 |";
    assert_eq!(
        to_telegram_html(input),
        "<pre>\nA | Bee\n--+----\n1 | 2  \n</pre>"
    );
}

#[test]
fn discord_table_exact_layout() {
    let input = "Hi\n\n| A | Bee |\n|---|---|\n| 1 | 2 |\n\nBye";
    assert_eq!(
        to_discord_markdown(input),
        "Hi\n\n```\nA | Bee\n--+----\n1 | 2  \n```\n\n\nBye"
    );
}

#[test]
fn nested_and_numbered_lists() {
    let input = "3. three\n4. four\n   - inner";
    assert_eq!(to_telegram_html(input), "3. three\n4. four  • inner");
}

#[test]
fn paragraphs_and_rule() {
    assert_eq!(to_telegram_html("one\n\n---\n\ntwo"), "one\n\n---\ntwo");
}

#[test]
fn escape_html_exact() {
    assert_eq!(escape_html("<a href=\"x\">&</a>"), "&lt;a href=\"x\"&gt;&amp;&lt;/a&gt;");
    assert_eq!(escape_html(""), "");
}

#[test]
fn render_table_pads_and_escapes() {
    let rows = vec![
        vec!["<x>".to_string(), "b".to_string()],
        vec!["c".to_string()],
    ];
    assert_eq!(
        render_table(&rows, "[", "]", true),
        "[&lt;x&gt; | b\n----+--\nc  \n]"
    );
    assert_eq!(render_table(&rows, "[", "]", false), "[<x> | b\n----+--\nc  \n]");
    assert_eq!(render_table(&[], "[", "]", true), "");
}

#[test]
fn telegram_html_has_no_trailing_whitespace() {
    for input in ["para one\n\npara two\n\n", "- a\n- b\n", "> quote\n\n", "# Head\n", "text   "] {
        let out = to_telegram_html(input);
        assert!(!out.ends_with(char::is_whitespace), "{out:?}");
    }
    assert_eq!(to_telegram_html("- a\n- b\n"), "• a\n• b");
}

#[test]
fn discord_keeps_text_before_first_table() {
    let input = "Intro *line*\n\n| A | B |\n|---|---|\n| 1 | 2 |\n\nOutro";
    let out = to_discord_markdown(input);
    assert!(out.starts_with("Intro *line*\n\n```\n"), "{out:?}");
    assert_eq!(out, "Intro *line*\n\n```\nA | B\n--+--\n1 | 2\n```\n\n\nOutro");
}

#[test]
fn telegram_html_uses_only_supported_tags() {
    let tags = [
        "<b>", "</b>", "<i>", "</i>", "<s>", "</s>", "<code>", "</code>", "<pre>", "</pre>",
        "<a href=\"", "</a>", "<blockquote>", "</blockquote>",
    ];
    let input = "# T\n\n<script>x</script> a<b **c** ~~d~~ `<e>` [l](http://x/?a<b)\n\n> q\n\n```\n<f>\n```\n\n| <g> | h |\n|---|---|\n| 1 | 2 |\n\n- i\n1. j";
    let out = to_telegram_html(input);
    for (i, _) in out.match_indices('<') {
        assert!(tags.iter().any(|t| out[i..].starts_with(t)), "{out:?} at {i}");
    }
}

#[test]
fn escaping_round_trip_and_length() {
    let s = "a & b < c > d && <<>>";
    let e = escape_html(s);
    assert_eq!(e.replace("&lt;", "<").replace("&gt;", ">").replace("&amp;", "&"), s);
    let n = |c: char| s.matches(c).count();
    assert_eq!(e.len(), s.len() + 4 * n('&') + 3 * n('<') + 3 * n('>'));
}

#[test]
fn discord_replaces_every_table() {
    let input = "a\n\n| x |\n|---|\n| 1 |\n\nb\n\n| yy | z |\n|---|---|\n| 2 | 3 |\n";
    assert_eq!(
        to_discord_markdown(input),
        "a\n\n```\nx\n-\n1\n```\n\n\nb\n\n```\nyy | z\n---+--\n2  | 3\n```\n\n"
    );
}

#[test]
fn table_layout_with_ragged_rows() {
    let rows = vec![
        vec!["h1".to_string(), "h2".to_string()],
        vec!["long".to_string()],
        vec!["x".to_string(), "yyy".to_string()],
    ];
    assert_eq!(
        render_table(&rows, "<", ">", false),
        "<h1   | h2 \n-----+----\nlong\nx    | yyy\n>"
    );
}
