//! A board as one self-contained HTML file: pre-rendered math, inlined
//! style sheets, no scripts.
use vstd::prelude::*;
use crate::document::{Document, steps_in};
use crate::render::{
    blocks_html, equations_in, escaped, lemma_occurs_mid, occurs, push_escaped, render_blocks_html,
};
use crate::text::{chars_of, decimal, has_at, push_all, push_decimal, push_str, replace_all, replace_vec, string_of};

verus! {

/// Escapes text for HTML (`&`, `<`, `>`, `"`).
pub fn html_escape(s: &str) -> (r: String)
    ensures
        r@ == escaped(s@, false),
{
    let mut out: Vec<char> = Vec::new();
    push_escaped(&mut out, &chars_of(s), false);
    string_of(&out)
}

/// KaTeX's style sheet with its font URLs pointing to the CDN, so that an
/// exported file renders when online.
pub open spec fn cdn_fonts(css: Seq<char>) -> Seq<char> {
    replace_all(css, "url(fonts/"@, "url(https://cdn.jsdelivr.net/npm/katex@0.16.22/dist/fonts/"@)
}

/// `cdn_fonts(css)`.
pub fn rewrite_font_urls(css: &str) -> (r: String)
    ensures
        r@ == cdn_fonts(css@),
{
    let pat = chars_of("url(fonts/");
    let rep = chars_of("url(https://cdn.jsdelivr.net/npm/katex@0.16.22/dist/fonts/");
    proof {
        reveal_strlit("url(fonts/");
    }
    string_of(&replace_vec(&chars_of(css), &pat, &rep))
}

/// The exported page of a board with the given style sheets.
pub open spec fn export_page_text(
    title: Seq<char>,
    steps: nat,
    katex_css: Seq<char>,
    viewer_css: Seq<char>,
    blocks: Seq<char>,
) -> Seq<char> {
    let t = escaped(title, false);
    "<!DOCTYPE html>"@
        + "\n<html lang=\"en\">\n<head>\n    <meta charset=\"UTF-8\">\n    <meta name=\"viewport\" content=\"width=device-width, initial-scale=1.0\">\n    <title>"@
        + t + " \u{2014} cliboard</title>\n    <style>"@ + katex_css + "</style>\n    <style>"@
        + viewer_css
        + "</style>\n</head>\n<body>\n    <div id=\"board\">\n        <header id=\"board-header\">\n            "@
        + board_title(t) + "\n            <span id=\"step-count\">"@ + step_total(steps)
        + "</span>\n        </header>\n        <div id=\"board-content\">\n            "@ + blocks
        + "\n        </div>\n    </div>\n</body>\n</html>"@
}

/// The exported board's heading: the escaped title.
pub open spec fn board_title(escaped_title: Seq<char>) -> Seq<char> {
    "<h1 id=\"board-title\">"@ + escaped_title + "</h1>"@
}

/// The number of steps as the exported page shows it: `<n> steps`.
pub open spec fn step_total(steps: nat) -> Seq<char> {
    decimal(steps) + " steps"@
}

/// The self-contained HTML of a board: `katex_css` (KaTeX's style sheet,
/// its font URLs sent to the CDN) and `viewer_css` inlined, the blocks
/// pre-rendered, no script.
pub fn export_page(doc: &Document, katex_css: &str, viewer_css: &str) -> (r: String)
    requires
        equations_in(doc@.blocks) <= usize::MAX,
    ensures
        r@ == export_page_text(
            doc@.title,
            steps_in(doc@.blocks),
            cdn_fonts(katex_css@),
            viewer_css@,
            blocks_html(doc@.blocks, 0),
        ),
{
    let blocks = render_blocks_html(doc);
    let css = rewrite_font_urls(katex_css);
    let steps = doc.step_count();
    let mut t: Vec<char> = Vec::new();
    push_escaped(&mut t, &chars_of(doc.title.as_str()), false);
    let mut out: Vec<char> = Vec::new();
    push_str(&mut out, "<!DOCTYPE html>");
    push_str(
        &mut out,
        "\n<html lang=\"en\">\n<head>\n    <meta charset=\"UTF-8\">\n    <meta name=\"viewport\" content=\"width=device-width, initial-scale=1.0\">\n    <title>",
    );
    push_all(&mut out, &t);
    push_str(&mut out, " \u{2014} cliboard</title>\n    <style>");
    push_all(&mut out, &chars_of(css.as_str()));
    push_str(&mut out, "</style>\n    <style>");
    push_str(&mut out, viewer_css);
    push_str(
        &mut out,
        "</style>\n</head>\n<body>\n    <div id=\"board\">\n        <header id=\"board-header\">\n            ",
    );
    push_str(&mut out, "<h1 id=\"board-title\">");
    push_all(&mut out, &t);
    push_str(&mut out, "</h1>");
    push_str(&mut out, "\n            <span id=\"step-count\">");
    push_decimal(&mut out, steps);
    push_str(&mut out, " steps");
    push_str(
        &mut out,
        "</span>\n        </header>\n        <div id=\"board-content\">\n            ",
    );
    push_all(&mut out, &chars_of(blocks.as_str()));
    push_str(&mut out, "\n        </div>\n    </div>\n</body>\n</html>");
    assert(out@ =~= export_page_text(
        doc@.title,
        steps_in(doc@.blocks),
        cdn_fonts(katex_css@),
        viewer_css@,
        blocks_html(doc@.blocks, 0),
    ));
    string_of(&out)
}

/// The page's `<title>` element: the escaped title and the program's name.
pub open spec fn page_title(escaped_title: Seq<char>) -> Seq<char> {
    "<title>"@ + escaped_title + " \u{2014} cliboard</title>"@
}

/// An exported page's `<title>` element names the board by its escaped
/// title.
#[verifier::spinoff_prover]
#[verifier::rlimit(60)]
pub proof fn lemma_export_page_title(
    title: Seq<char>,
    steps: nat,
    katex_css: Seq<char>,
    viewer_css: Seq<char>,
    blocks: Seq<char>,
)
    ensures
        occurs(
            export_page_text(title, steps, katex_css, viewer_css, blocks),
            page_title(escaped(title, false)),
        ),
{
    let t = escaped(title, false);
    let p = export_page_text(title, steps, katex_css, viewer_css, blocks);
    let d = "<!DOCTYPE html>"@;
    let e1 = "\n<html lang=\"en\">\n<head>\n    <meta charset=\"UTF-8\">\n    <meta name=\"viewport\" content=\"width=device-width, initial-scale=1.0\">\n    <title>"@;
    let e2 = " \u{2014} cliboard</title>\n    <style>"@;
    let a = "\n<html lang=\"en\">\n<head>\n    <meta charset=\"UTF-8\">\n    <meta name=\"viewport\" content=\"width=device-width, initial-scale=1.0\">\n    "@;
    let ti = "<title>"@;
    let tc = " \u{2014} cliboard</title>"@;
    let b = "\n    <style>"@;
    reveal_strlit(
        "\n<html lang=\"en\">\n<head>\n    <meta charset=\"UTF-8\">\n    <meta name=\"viewport\" content=\"width=device-width, initial-scale=1.0\">\n    <title>",
    );
    reveal_strlit(
        "\n<html lang=\"en\">\n<head>\n    <meta charset=\"UTF-8\">\n    <meta name=\"viewport\" content=\"width=device-width, initial-scale=1.0\">\n    ",
    );
    reveal_strlit("<title>");
    reveal_strlit(" \u{2014} cliboard</title>\n    <style>");
    reveal_strlit(" \u{2014} cliboard</title>");
    reveal_strlit("\n    <style>");
    assert(e1 =~= a + ti);
    assert(e2 =~= tc + b);
    let rest = e3_on(katex_css, viewer_css, board_title(t), step_total(steps), blocks);
    assert(p =~= (d + a) + (ti + t + tc) + (b + rest));
    lemma_occurs_mid(d + a, ti + t + tc, b + rest);
}

/// The exported page after its first style sheet's opening tag.
spec fn e3_on(
    katex_css: Seq<char>,
    viewer_css: Seq<char>,
    h: Seq<char>,
    n: Seq<char>,
    blocks: Seq<char>,
) -> Seq<char> {
    katex_css + "</style>\n    <style>"@ + viewer_css
        + "</style>\n</head>\n<body>\n    <div id=\"board\">\n        <header id=\"board-header\">\n            "@
        + h + "\n            <span id=\"step-count\">"@ + n
        + "</span>\n        </header>\n        <div id=\"board-content\">\n            "@ + blocks
        + "\n        </div>\n    </div>\n</body>\n</html>"@
}

/// An exported page starts with the doctype and holds the escaped title as
/// heading, the number of steps, both style sheets and the blocks.
#[verifier::spinoff_prover]
pub proof fn lemma_export_page_parts(
    title: Seq<char>,
    steps: nat,
    katex_css: Seq<char>,
    viewer_css: Seq<char>,
    blocks: Seq<char>,
)
    ensures
        has_at(export_page_text(title, steps, katex_css, viewer_css, blocks), 0, "<!DOCTYPE html>"@),
        occurs(
            export_page_text(title, steps, katex_css, viewer_css, blocks),
            board_title(escaped(title, false)),
        ),
        occurs(export_page_text(title, steps, katex_css, viewer_css, blocks), step_total(steps)),
        occurs(export_page_text(title, steps, katex_css, viewer_css, blocks), katex_css),
        occurs(export_page_text(title, steps, katex_css, viewer_css, blocks), viewer_css),
        occurs(export_page_text(title, steps, katex_css, viewer_css, blocks), blocks),
{
    let t = escaped(title, false);
    let p = export_page_text(title, steps, katex_css, viewer_css, blocks);
    let d = "<!DOCTYPE html>"@;
    let e1 = "\n<html lang=\"en\">\n<head>\n    <meta charset=\"UTF-8\">\n    <meta name=\"viewport\" content=\"width=device-width, initial-scale=1.0\">\n    <title>"@;
    let e2 = " \u{2014} cliboard</title>\n    <style>"@;
    let e3 = "</style>\n    <style>"@;
    let e4 = "</style>\n</head>\n<body>\n    <div id=\"board\">\n        <header id=\"board-header\">\n            "@;
    let e5 = "\n            <span id=\"step-count\">"@;
    let e6 = "</span>\n        </header>\n        <div id=\"board-content\">\n            "@;
    let e7 = "\n        </div>\n    </div>\n</body>\n</html>"@;
    let h = board_title(t);
    let n = step_total(steps);
    assert(p =~= d + (e1 + t + e2 + katex_css + e3 + viewer_css + e4 + h + e5 + n + e6 + blocks + e7));
    assert(p.subrange(0, d.len() as int) =~= d);
    lemma_occurs_mid(d + e1 + t + e2, katex_css, e3 + viewer_css + e4 + h + e5 + n + e6 + blocks + e7);
    assert(p =~= (d + e1 + t + e2) + katex_css + (e3 + viewer_css + e4 + h + e5 + n + e6 + blocks + e7));
    lemma_occurs_mid(d + e1 + t + e2 + katex_css + e3, viewer_css, e4 + h + e5 + n + e6 + blocks + e7);
    assert(p =~= (d + e1 + t + e2 + katex_css + e3) + viewer_css + (e4 + h + e5 + n + e6 + blocks + e7));
    lemma_occurs_mid(d + e1 + t + e2 + katex_css + e3 + viewer_css + e4, h, e5 + n + e6 + blocks + e7);
    assert(p =~= (d + e1 + t + e2 + katex_css + e3 + viewer_css + e4) + h + (e5 + n + e6 + blocks + e7));
    lemma_occurs_mid(d + e1 + t + e2 + katex_css + e3 + viewer_css + e4 + h + e5, n, e6 + blocks + e7);
    assert(p =~= (d + e1 + t + e2 + katex_css + e3 + viewer_css + e4 + h + e5) + n + (e6 + blocks + e7));
    lemma_occurs_mid(d + e1 + t + e2 + katex_css + e3 + viewer_css + e4 + h + e5 + n + e6, blocks, e7);
    assert(p =~= (d + e1 + t + e2 + katex_css + e3 + viewer_css + e4 + h + e5 + n + e6) + blocks + e7);
}


// ---------------------------------------------------------------------------
// No script in an exported page
// ---------------------------------------------------------------------------

/// `<script`.
pub open spec fn script_tag() -> Seq<char> {
    seq!['<', 's', 'c', 'r', 'i', 'p', 't']
}

/// No `<script` in `s`.
pub open spec fn script_free(s: Seq<char>) -> bool {
    !occurs(s, script_tag())
}

/// No `<script` starts at or after `i` (checked position by position).
spec fn tag_free_from(s: Seq<char>, i: int) -> bool
    decreases s.len() - i,
{
    if i < 0 || i + 7 > s.len() {
        true
    } else {
        !(s[i] == '<' && s[i + 1] == 's' && s[i + 2] == 'c' && s[i + 3] == 'r' && s[i + 4] == 'i'
            && s[i + 5] == 'p' && s[i + 6] == 't') && tag_free_from(s, i + 1)
    }
}

proof fn lemma_tag_free_from(s: Seq<char>, i: int)
    requires
        0 <= i,
        tag_free_from(s, i),
    ensures
        forall|j: int| i <= j ==> !#[trigger] has_at(s, j, script_tag()),
    decreases s.len() - i,
{
    if i + 7 <= s.len() {
        lemma_tag_free_from(s, i + 1);
        if has_at(s, i, script_tag()) {
            let w = s.subrange(i, i + 7);
            assert(w[0] == s[i] && w[1] == s[i + 1] && w[2] == s[i + 2] && w[3] == s[i + 3]);
            assert(w[4] == s[i + 4] && w[5] == s[i + 5] && w[6] == s[i + 6]);
        }
    }
}

/// A character that can stand in `<script` before its last character.
spec fn tag_head(c: char) -> bool {
    c == '<' || c == 's' || c == 'c' || c == 'r' || c == 'i' || c == 'p'
}

/// A character that can stand in `<script` after its first character.
spec fn tag_tail(c: char) -> bool {
    c == 's' || c == 'c' || c == 'r' || c == 'i' || c == 'p' || c == 't'
}

proof fn lemma_free_concat(a: Seq<char>, b: Seq<char>)
    requires
        script_free(a),
        script_free(b),
        a.len() == 0 || b.len() == 0 || !tag_head(a.last()) || !tag_tail(b[0]),
    ensures
        script_free(a + b),
{
    let t = script_tag();
    let s = a + b;
    assert forall|i: int| !#[trigger] has_at(s, i, t) by {
        if has_at(s, i, t) {
            let w = s.subrange(i, i + 7);
            assert(w == t);
            if i + 7 <= a.len() {
                assert(a.subrange(i, i + 7) =~= w);
                assert(has_at(a, i, t));
            } else if i >= a.len() {
                assert(b.subrange(i - a.len(), i - a.len() + 7) =~= w);
                assert(has_at(b, i - a.len(), t));
            } else {
                let j = a.len() - 1 - i;
                assert(0 <= j < 6);
                assert(a.last() == s[a.len() - 1]);
                assert(s[a.len() - 1] == w[j]);
                assert(b[0] == s[a.len() as int]);
                assert(s[a.len() as int] == w[j + 1]);
                assert(tag_head(w[j]) && tag_tail(w[j + 1]));
            }
        }
    }
}

proof fn lemma_no_lt_free(s: Seq<char>)
    requires
        forall|k: int| 0 <= k < s.len() ==> #[trigger] s[k] != '<',
    ensures
        script_free(s),
{
    assert forall|i: int| !#[trigger] has_at(s, i, script_tag()) by {
        if has_at(s, i, script_tag()) {
            assert(s.subrange(i, i + 7)[0] == s[i]);
        }
    }
}

proof fn lemma_decimal_digits(n: nat)
    ensures
        forall|k: int| 0 <= k < decimal(n).len() ==> #[trigger] decimal(n)[k] != '<',
        decimal(n).len() > 0,
    decreases n,
{
    if n >= 10 {
        lemma_decimal_digits(n / 10);
        let d = decimal(n / 10);
        assert forall|k: int| 0 <= k < decimal(n).len() implies #[trigger] decimal(n)[k] != '<' by {
            if k < d.len() {
                assert(decimal(n)[k] == d[k]);
            }
        }
    }
}

#[verifier::spinoff_prover]
#[verifier::rlimit(80)]
proof fn lemma_head_free()
    ensures
        tag_free_from(
            "\n<html lang=\"en\">\n<head>\n    <meta charset=\"UTF-8\">\n    <meta name=\"viewport\" content=\"width=device-width, initial-scale=1.0\">\n    <title>"@,
            0,
        ),
{
    reveal_strlit(
        "\n<html lang=\"en\">\n<head>\n    <meta charset=\"UTF-8\">\n    <meta name=\"viewport\" content=\"width=device-width, initial-scale=1.0\">\n    <title>",
    );
    let e1 = "\n<html lang=\"en\">\n<head>\n    <meta charset=\"UTF-8\">\n    <meta name=\"viewport\" content=\"width=device-width, initial-scale=1.0\">\n    <title>"@;
    reveal_with_fuel(tag_free_from, 80);
    assert(tag_free_from(e1, 70));
    assert(tag_free_from(e1, 0));
}

/// The HTML of an exported page holds no `<script` where the style sheets
/// it inlines and the rendered blocks hold none: the page's own text and
/// the escaped title add none, not even across their joins.
#[verifier::spinoff_prover]
#[verifier::rlimit(80)]
pub proof fn lemma_export_page_script_free(
    title: Seq<char>,
    steps: nat,
    katex_css: Seq<char>,
    viewer_css: Seq<char>,
    blocks: Seq<char>,
)
    requires
        script_free(katex_css),
        script_free(viewer_css),
        script_free(blocks),
    ensures
        script_free(export_page_text(title, steps, katex_css, viewer_css, blocks)),
{
    reveal_strlit("<!DOCTYPE html>");
    reveal_strlit(
        "\n<html lang=\"en\">\n<head>\n    <meta charset=\"UTF-8\">\n    <meta name=\"viewport\" content=\"width=device-width, initial-scale=1.0\">\n    <title>",
    );
    reveal_strlit(" \u{2014} cliboard</title>\n    <style>");
    reveal_strlit("</style>\n    <style>");
    reveal_strlit(
        "</style>\n</head>\n<body>\n    <div id=\"board\">\n        <header id=\"board-header\">\n            ",
    );
    reveal_strlit("<h1 id=\"board-title\">");
    reveal_strlit("</h1>");
    reveal_strlit("\n            <span id=\"step-count\">");
    reveal_strlit(" steps");
    reveal_strlit("</span>\n        </header>\n        <div id=\"board-content\">\n            ");
    reveal_strlit("\n        </div>\n    </div>\n</body>\n</html>");
    reveal_with_fuel(tag_free_from, 160);
    let t = escaped(title, false);
    let d = "<!DOCTYPE html>"@;
    let e1 = "\n<html lang=\"en\">\n<head>\n    <meta charset=\"UTF-8\">\n    <meta name=\"viewport\" content=\"width=device-width, initial-scale=1.0\">\n    <title>"@;
    let e2 = " \u{2014} cliboard</title>\n    <style>"@;
    let e3 = "</style>\n    <style>"@;
    let e4 = "</style>\n</head>\n<body>\n    <div id=\"board\">\n        <header id=\"board-header\">\n            "@;
    let h0 = "<h1 id=\"board-title\">"@;
    let h1 = "</h1>"@;
    let e5 = "\n            <span id=\"step-count\">"@;
    let sp = " steps"@;
    let e6 = "</span>\n        </header>\n        <div id=\"board-content\">\n            "@;
    let e7 = "\n        </div>\n    </div>\n</body>\n</html>"@;
    assert(tag_free_from(d, 0));
    lemma_head_free();
    assert(tag_free_from(e2, 0));
    assert(tag_free_from(e3, 0));
    assert(tag_free_from(e4, 0));
    assert(tag_free_from(h0, 0));
    assert(tag_free_from(h1, 0));
    assert(tag_free_from(e5, 0));
    assert(tag_free_from(sp, 0));
    assert(tag_free_from(e6, 0));
    assert(tag_free_from(e7, 0));
    lemma_tag_free_from(d, 0);
    lemma_tag_free_from(e1, 0);
    lemma_tag_free_from(e2, 0);
    lemma_tag_free_from(e3, 0);
    lemma_tag_free_from(e4, 0);
    lemma_tag_free_from(h0, 0);
    lemma_tag_free_from(h1, 0);
    lemma_tag_free_from(e5, 0);
    lemma_tag_free_from(sp, 0);
    lemma_tag_free_from(e6, 0);
    lemma_tag_free_from(e7, 0);
    crate::render::lemma_escaped_is_inert(title, false);
    lemma_no_lt_free(t);
    lemma_decimal_digits(steps);
    lemma_no_lt_free(decimal(steps));
    // The heading and the step count.
    lemma_free_concat(h0, t);
    lemma_free_concat(h0 + t, h1);
    let h = board_title(t);
    assert(h == h0 + t + h1);
    lemma_free_concat(decimal(steps), sp);
    let n = step_total(steps);
    // The page, piece by piece.
    let p1 = d + e1;
    lemma_free_concat(d, e1);
    let p2 = p1 + t;
    lemma_free_concat(p1, t);
    let p3 = p2 + e2;
    lemma_free_concat(p2, e2);
    let p4 = p3 + katex_css;
    lemma_free_concat(p3, katex_css);
    let p5 = p4 + e3;
    lemma_free_concat(p4, e3);
    let p6 = p5 + viewer_css;
    lemma_free_concat(p5, viewer_css);
    let p7 = p6 + e4;
    lemma_free_concat(p6, e4);
    let p8 = p7 + h;
    lemma_free_concat(p7, h);
    let p9 = p8 + e5;
    lemma_free_concat(p8, e5);
    let p10 = p9 + n;
    lemma_free_concat(p9, n);
    let p11 = p10 + e6;
    lemma_free_concat(p10, e6);
    let p12 = p11 + blocks;
    lemma_free_concat(p11, blocks);
    let p13 = p12 + e7;
    lemma_free_concat(p12, e7);
    assert(export_page_text(title, steps, katex_css, viewer_css, blocks) == p13);
}

} // verus!
