use cliboard::unicode::{find_brace_group, latex_to_unicode};

#[test]
fn test_greek_letters() {
    assert_eq!(latex_to_unicode("\\alpha + \\beta"), "α + β");
    assert_eq!(latex_to_unicode("\\Omega"), "\u{03A9}");
    assert_eq!(latex_to_unicode("\\varepsilon"), "\u{03B5}");
}

#[test]
fn test_symbols() {
    assert_eq!(latex_to_unicode("\\infty"), "\u{221E}");
    assert_eq!(
        latex_to_unicode("\\nabla \\cdot E"),
        "\u{2207}\u{00B7}E"
    );
    assert_eq!(latex_to_unicode("a \\neq b"), "a\u{2260}b");
    assert_eq!(latex_to_unicode("x \\in S"), "x\u{2208}S");
}

#[test]
fn test_superscripts() {
    assert_eq!(latex_to_unicode("x^2"), "x\u{00B2}");
    assert_eq!(
        latex_to_unicode("e^{i\\pi}"),
        "e^(i\u{03C0})"
    );
    assert_eq!(latex_to_unicode("x^{10}"), "x\u{00B9}\u{2070}");
}

#[test]
fn test_subscripts() {
    assert_eq!(latex_to_unicode("x_0"), "x\u{2080}");
    assert_eq!(latex_to_unicode("a_{12}"), "a\u{2081}\u{2082}");
    assert_eq!(latex_to_unicode("x_n"), "x\u{2099}");
}

#[test]
fn test_fractions() {
    assert_eq!(latex_to_unicode("\\frac{a}{b}"), "a/b");
    assert_eq!(latex_to_unicode("\\frac{a+b}{c+d}"), "(a+b)/(c+d)");
    assert_eq!(
        latex_to_unicode("\\frac{\\hbar^2}{2m}"),
        "\u{210F}\u{00B2}/2m"
    );
}

#[test]
fn test_sqrt() {
    assert_eq!(latex_to_unicode("\\sqrt{x}"), "\u{221A}x");
    assert_eq!(latex_to_unicode("\\sqrt{x+y}"), "\u{221A}(x+y)");
}

#[test]
fn test_accents() {
    let result = latex_to_unicode("\\hat{x}");
    assert!(result.contains('x'));
    assert!(result.contains('\u{0302}'));

    let result = latex_to_unicode("\\vec{v}");
    assert!(result.contains('v'));
    assert!(result.contains('\u{20D7}'));
}

#[test]
fn test_text_commands() {
    assert_eq!(latex_to_unicode("\\text{hello}"), "hello");
    assert_eq!(latex_to_unicode("\\mathbf{F}"), "F");
}

#[test]
fn test_delimiters() {
    assert_eq!(latex_to_unicode("\\left( x \\right)"), "( x )");
    assert_eq!(
        latex_to_unicode("\\langle x \\rangle"),
        "\u{27E8}x\u{27E9}"
    );
}

#[test]
fn test_matrices() {
    let input = "\\begin{pmatrix} a & b \\\\ c & d \\end{pmatrix}";
    assert_eq!(latex_to_unicode(input), "(a b; c d)");
}

#[test]
fn test_arrows() {
    assert_eq!(latex_to_unicode("A \\to B"), "A\u{2192}B");
    assert_eq!(latex_to_unicode("A \\Rightarrow B"), "A\u{21D2}B");
    assert_eq!(latex_to_unicode("f: A \\mapsto B"), "f: A\u{21A6}B");
}

#[test]
fn test_complex_expression() {
    // E = mc^2
    assert_eq!(latex_to_unicode("E = mc^2"), "E = mc\u{00B2}");
    // Schrodinger
    let input = "i\\hbar \\frac{\\partial}{\\partial t} \\Psi = \\hat{H} \\Psi";
    let result = latex_to_unicode(input);
    assert!(result.contains("i\u{210F}"));
    assert!(result.contains("\u{2202}/\u{2202}"));
    assert!(result.contains("\u{03A8}"));
}

#[test]
fn test_spacing_stripped() {
    assert_eq!(latex_to_unicode("a \\quad b"), "a b");
    assert_eq!(latex_to_unicode("a \\, b"), "a b");
}

#[test]
fn test_integral() {
    assert_eq!(
        latex_to_unicode("\\int_0^\\infty"),
        "\u{222B}\u{2080}^(\u{221E})"
    );
}

#[test]
fn test_brace_group_helper() {
    assert_eq!(
        find_brace_group("{hello}", 0),
        Some(("hello".to_string(), 7))
    );
    assert_eq!(
        find_brace_group("{a{b}c}", 0),
        Some(("a{b}c".to_string(), 7))
    );
    assert_eq!(find_brace_group("no braces", 0), None);
}

#[test]
fn test_greek_upper() {
    assert_eq!(latex_to_unicode("\\Gamma"), "\u{0393}");
    assert_eq!(latex_to_unicode("\\Delta"), "\u{0394}");
    assert_eq!(latex_to_unicode("\\Psi"), "\u{03A8}");
}

#[test]
fn test_nested_fractions() {
    // \frac{\hbar^2}{2m} → ℏ²/2m
    let result = latex_to_unicode("\\frac{\\hbar^2}{2m}");
    assert_eq!(result, "\u{210F}\u{00B2}/2m");
}

#[test]
fn test_subscript_n_plus_1() {
    // x_{n+1} → x_(n+1) — since '+' has subscript char and n does too
    let result = latex_to_unicode("x_{n+1}");
    assert_eq!(result, "x\u{2099}\u{208A}\u{2081}");
}

#[test]
fn test_superscript_2n() {
    // x^{2n} → x²ⁿ (both 2 and n have superscript chars)
    let result = latex_to_unicode("x^{2n}");
    assert_eq!(result, "x\u{00B2}\u{207F}");
}

#[test]
fn test_combined_expression() {
    // \frac{\hbar^2}{2m}\nabla^2\psi → ℏ²/2m∇²ψ
    let result = latex_to_unicode("\\frac{\\hbar^2}{2m}\\nabla^2\\psi");
    assert!(result.contains("\u{210F}\u{00B2}"));
    assert!(result.contains("/2m"));
    assert!(result.contains("\u{2207}\u{00B2}"));
    assert!(result.contains("\u{03C8}"));
}

#[test]
fn test_hat_accent() {
    let result = latex_to_unicode("\\hat{x}");
    assert_eq!(result, "x\u{0302}");
}

#[test]
fn test_bar_accent() {
    let result = latex_to_unicode("\\bar{z}");
    assert_eq!(result, "z\u{0304}");
}

#[test]
fn test_tilde_accent() {
    let result = latex_to_unicode("\\tilde{x}");
    assert_eq!(result, "x\u{0303}");
}

#[test]
fn test_dot_accent() {
    let result = latex_to_unicode("\\dot{x}");
    assert_eq!(result, "x\u{0307}");
}

#[test]
fn test_delimiter_stripping() {
    // \left( and \right) should be stripped, leaving bare parens
    let result = latex_to_unicode("\\left( x + y \\right)");
    assert!(result.contains("("));
    assert!(result.contains(")"));
    assert!(result.contains("x"));
}

#[test]
fn test_bmatrix() {
    let input = "\\begin{bmatrix} 1 & 0 \\\\ 0 & 1 \\end{bmatrix}";
    assert_eq!(latex_to_unicode(input), "[1 0; 0 1]");
}

#[test]
fn test_vmatrix() {
    let input = "\\begin{vmatrix} a & b \\\\ c & d \\end{vmatrix}";
    assert_eq!(latex_to_unicode(input), "|a b; c d|");
}

#[test]
fn test_operators() {
    assert_eq!(latex_to_unicode("\\sum"), "\u{2211}");
    assert_eq!(latex_to_unicode("\\prod"), "\u{220F}");
    assert_eq!(latex_to_unicode("\\int"), "\u{222B}");
    assert_eq!(latex_to_unicode("\\oint"), "\u{222E}");
    assert_eq!(latex_to_unicode("\\lim"), "lim");
}

#[test]
fn test_operatorname() {
    assert_eq!(latex_to_unicode("\\operatorname{sin}"), "sin");
}

#[test]
fn test_empty_input() {
    assert_eq!(latex_to_unicode(""), "");
}

#[test]
fn test_plain_text() {
    assert_eq!(latex_to_unicode("abc"), "abc");
}

#[test]
fn test_coulomb_law() {
    // F = \frac{1}{4\pi\epsilon_0}\frac{q_1 q_2}{r^2}
    let input = "F = \\frac{1}{4\\pi\\epsilon_0}\\frac{q_1 q_2}{r^2}";
    let result = latex_to_unicode(input);
    assert!(result.contains("F ="));
    assert!(result.contains("\u{03C0}"));
    assert!(result.contains("\u{03B5}"));
    assert!(result.contains("r\u{00B2}"));
}

#[test]
fn test_maxwell_equation() {
    // \nabla \times \vec{E} = -\frac{\partial \vec{B}}{\partial t}
    let input = "\\nabla \\times \\vec{E} = -\\frac{\\partial \\vec{B}}{\\partial t}";
    let result = latex_to_unicode(input);
    assert!(result.contains("\u{2207}"));
    assert!(result.contains("\u{00D7}"));
    assert!(result.contains("\u{2202}"));
}

#[test]
fn test_big_delimiters_stripped() {
    let result = latex_to_unicode("\\Bigg( x \\Bigg)");
    assert!(result.contains("("));
    assert!(result.contains(")"));
    assert!(!result.contains("Bigg"));
}

#[test]
fn test_displaystyle_stripped() {
    let result = latex_to_unicode("\\displaystyle \\frac{a}{b}");
    assert_eq!(result, "a/b");
}

#[test]
fn terminal_forms_of_the_design_examples() {
    assert_eq!(latex_to_unicode("\\frac{e^2}{4\\pi\\epsilon_0 r}"), "e\u{00B2}/4\u{03C0}\u{03B5}\u{2080}r");
    assert_eq!(latex_to_unicode("V(r) = -\\frac{e^2}{4\\pi\\epsilon_0 r}"), "V(r) = -e\u{00B2}/4\u{03C0}\u{03B5}\u{2080}r");
    assert_eq!(latex_to_unicode("\\nabla^2 \\psi"), "\u{2207}\u{00B2}\u{03C8}");
    assert_eq!(latex_to_unicode("\\partial \\psi / \\partial t"), "\u{2202}\u{03C8}/\u{2202}t");
    assert_eq!(latex_to_unicode("\\frac{\\hbar^2}{2m}"), "\u{210F}\u{00B2}/2m");
    assert_eq!(latex_to_unicode("q_1 q_2"), "q\u{2081}q\u{2082}");
    assert_eq!(latex_to_unicode("a / b"), "a/b");
    assert_eq!(latex_to_unicode("\\int_0^{\\infty} e^{-x^2} dx"), "\u{222B}\u{2080}^\u{221E} e^{-x\u{00B2}} dx");
    assert_eq!(
        latex_to_unicode("\\begin{pmatrix} a & b \\\\ c & d \\end{pmatrix}"),
        "(a b; c d)"
    );
}

#[test]
fn braced_scripts_without_a_script_form() {
    assert_eq!(latex_to_unicode("x^{\\alpha}"), "x^\u{03B1}");
    assert_eq!(latex_to_unicode("x_{\\infty}"), "x_\u{221E}");
    assert_eq!(latex_to_unicode("e^{-x}"), "e^{-x}");
    assert_eq!(latex_to_unicode("e^{i\\pi}"), "e^(i\u{03C0})");
    assert_eq!(latex_to_unicode("x^\\alpha"), "x^(\u{03B1})");
    assert_eq!(latex_to_unicode("a_{i,j}"), "a_(i,j)");
    assert_eq!(latex_to_unicode("x^{\\alpha}y"), "x^\u{03B1}y");
    assert_eq!(latex_to_unicode("x^{\\alpha} y"), "x^\u{03B1} y");
}

#[test]
fn arrows_are_not_taken_for_delimiters() {
    assert_eq!(latex_to_unicode("A \\rightarrow B"), "A\u{2192}B");
    assert_eq!(latex_to_unicode("A \\leftarrow B"), "A\u{2190}B");
    assert_eq!(latex_to_unicode("A \\leftrightarrow B"), "A\u{2194}B");
    assert_eq!(latex_to_unicode("\\left( x \\right)"), "( x )");
    assert_eq!(latex_to_unicode("\\left[x\\right]"), "[x]");
}
