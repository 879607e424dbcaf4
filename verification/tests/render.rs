use anaphor::render::{
    render_inline, render_markdownish, strip_heading, style, ANSI_BOLD, ANSI_CYAN, ANSI_DIM,
    ANSI_GREEN, ANSI_RESET, ANSI_YELLOW,
};

#[test]
fn renders_markdownish_without_color() {
    let rendered = render_markdownish(
        "### Setup\n- **Run**: Use `cargo run`\n\n[1] file README.md",
        false,
    );

    assert_eq!(
        rendered,
        "Setup\n  • Run: Use cargo run\n\n[1] file README.md"
    );
}

#[test]
fn renders_markdownish_with_color() {
    let rendered = render_markdownish("Summary:\n- **Run**: Use `cargo run`", true);

    assert!(rendered.contains(ANSI_BOLD));
    assert!(rendered.contains(ANSI_CYAN));
    assert!(rendered.contains(ANSI_YELLOW));
    assert!(rendered.contains(ANSI_GREEN));
    assert!(rendered.contains("Summary"));
    assert!(rendered.contains("Run"));
    assert!(rendered.contains("cargo run"));
}

#[test]
fn renders_exact_colored_layout() {
    let rendered = render_markdownish("Summary:\n- **Run**: `x`", true);
    assert_eq!(
        rendered,
        format!(
            "{b}{c}Summary{r}\n{y}  • {r}{b}Run{r}: {g}x{r}",
            b = ANSI_BOLD,
            c = ANSI_CYAN,
            r = ANSI_RESET,
            y = ANSI_YELLOW,
            g = ANSI_GREEN
        )
    );
    let dim = render_markdownish("[1] ref", true);
    assert_eq!(dim, format!("{}[1] ref{}", ANSI_DIM, ANSI_RESET));
}

#[test]
fn renders_code_blocks_and_gaps() {
    let rendered = render_markdownish("intro\n```\nlet x = 1;\n```\n# Title\ntext   \n", false);
    assert_eq!(rendered, "intro\nlet x = 1;\n\nTitle\ntext");
    let colored = render_markdownish("```\ncode\n```", true);
    assert_eq!(colored, format!("{}code{}", ANSI_GREEN, ANSI_RESET));
    let long_label = format!("{}:", "é".repeat(60));
    assert_eq!(render_markdownish(&long_label, false), long_label);
}

#[test]
fn inline_rendering_without_color_only_drops_markers() {
    assert_eq!(render_inline("a `b` **c** *d", false), "a b c *d");
    assert_eq!(render_inline("**`x`**", false), "x");
    assert_eq!(
        render_inline("**b**", true),
        format!("{}b{}", ANSI_BOLD, ANSI_RESET)
    );
}

#[test]
fn strips_headings() {
    assert_eq!(strip_heading("  ## Two  ").as_deref(), Some("Two"));
    assert_eq!(strip_heading("####### seven"), None);
    assert_eq!(strip_heading("#nospace"), None);
    assert_eq!(strip_heading("#"), None);
}

#[test]
fn styles_with_all_codes() {
    assert_eq!(style("t", &[ANSI_BOLD, ANSI_CYAN], false), "t");
    assert_eq!(
        style("t", &[ANSI_BOLD, ANSI_CYAN], true),
        format!("{}{}t{}", ANSI_BOLD, ANSI_CYAN, ANSI_RESET)
    );
}

#[test]
fn stripping_codes_from_colored_inline_gives_plain() {
    for text in ["a `b` **c** *d", "**`x`**", "plain", "`unclosed"] {
        let colored = render_inline(text, true);
        let stripped = colored
            .replace(ANSI_RESET, "")
            .replace(ANSI_BOLD, "")
            .replace(ANSI_GREEN, "");
        assert_eq!(stripped, render_inline(text, false));
    }
}
