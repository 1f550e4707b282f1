//! HTML for boards and chat replies. Display and inline math are typeset
//! by KaTeX; everything else is escaped text and fixed markup.
use vstd::prelude::*;
use crate::document::{block_views, Block, BlockView, Document, Theme, texts};
use crate::session::{ChatMessage, ChatRole};
use crate::text::{
    chars_of, copy_range, decimal, find_from, find_vec, has_at, is_whitespace, is_ws,
    join_seq, join_vec, lemma_find_from, push_all, push_decimal, push_str, string_of, trim, trim_range,
    lemma_join_len, lemma_total_len_first, total_len, trim_end, trim_start,
};

verus! {

// ---------------------------------------------------------------------------
// Escaping
// ---------------------------------------------------------------------------

/// The HTML escape of one character: `&`, `<`, `>` and `"` always, `'`
/// when `apos` holds.
pub open spec fn escape_char(c: char, apos: bool) -> Seq<char> {
    if c == '&' {
        "&amp;"@
    } else if c == '<' {
        "&lt;"@
    } else if c == '>' {
        "&gt;"@
    } else if c == '"' {
        "&quot;"@
    } else if apos && c == '\'' {
        "&#x27;"@
    } else {
        seq![c]
    }
}

/// `s` with each character escaped.
pub open spec fn escaped(s: Seq<char>, apos: bool) -> Seq<char>
    decreases s.len(),
{
    if s.len() == 0 {
        Seq::empty()
    } else {
        escaped(s.drop_last(), apos) + escape_char(s.last(), apos)
    }
}

/// Appends `escape_char(c, apos)`.
pub fn push_escaped_char(out: &mut Vec<char>, c: char, apos: bool)
    ensures
        final(out)@ == old(out)@ + escape_char(c, apos),
{
    if c == '&' {
        push_str(out, "&amp;");
    } else if c == '<' {
        push_str(out, "&lt;");
    } else if c == '>' {
        push_str(out, "&gt;");
    } else if c == '"' {
        push_str(out, "&quot;");
    } else if apos && c == '\'' {
        push_str(out, "&#x27;");
    } else {
        out.push(c);
        assert(final(out)@ =~= old(out)@ + seq![c]);
    }
}

/// Appends `escaped(s, apos)`.
pub fn push_escaped(out: &mut Vec<char>, s: &Vec<char>, apos: bool)
    ensures
        final(out)@ == old(out)@ + escaped(s@, apos),
{
    let mut k: usize = 0;
    while k < s.len()
        invariant
            k <= s.len(),
            out@ == old(out)@ + escaped(s@.take(k as int), apos),
        decreases s.len() - k,
    {
        let ghost before = out@;
        push_escaped_char(out, s[k], apos);
        assert(s@.take(k + 1).drop_last() =~= s@.take(k as int));
        k = k + 1;
    }
    assert(s@.take(s.len() as int) =~= s@);
}

/// `c` is a character that HTML gives meaning to: `<`, `>` or `"`, and `'`
/// when single quotes are escaped too.
pub open spec fn is_markup_char(c: char, apos: bool) -> bool {
    c == '<' || c == '>' || c == '"' || (apos && c == '\'')
}

/// Escaped text holds no `<`, `>` or `"` (nor `'` when single quotes are
/// escaped), so it cannot open a tag or end an attribute.
pub proof fn lemma_escaped_is_inert(s: Seq<char>, apos: bool)
    ensures
        forall|k: int| 0 <= k < escaped(s, apos).len() ==> !is_markup_char(#[trigger] escaped(s, apos)[k], apos),
    decreases s.len(),
{
    reveal_strlit("&amp;");
    reveal_strlit("&lt;");
    reveal_strlit("&gt;");
    reveal_strlit("&quot;");
    reveal_strlit("&#x27;");
    if s.len() > 0 {
        lemma_escaped_is_inert(s.drop_last(), apos);
        let a = escaped(s.drop_last(), apos);
        let b = escape_char(s.last(), apos);
        assert forall|k: int| 0 <= k < b.len() implies !is_markup_char(#[trigger] b[k], apos) by {}
        assert forall|k: int| 0 <= k < escaped(s, apos).len() implies !is_markup_char(#[trigger] escaped(s, apos)[k], apos) by {
            if k < a.len() {
                assert(escaped(s, apos)[k] == a[k]);
            } else {
                assert(escaped(s, apos)[k] == b[k - a.len()]);
            }
        }
    }
}

/// Escapes text for HTML content and attributes (`&`, `<`, `>`, `"`, `'`).
pub fn html_escape(s: &str) -> (r: String)
    ensures
        r@ == escaped(s@, true),
{
    let mut out: Vec<char> = Vec::new();
    push_escaped(&mut out, &chars_of(s), true);
    string_of(&out)
}

// ---------------------------------------------------------------------------
// KaTeX
// ---------------------------------------------------------------------------

/// What KaTeX answers for `latex`, in display or inline mode, with HTML
/// output only: the HTML, or the error message.
pub uninterp spec fn katex_html(latex: Seq<char>, display: bool) -> Result<Seq<char>, Seq<char>>;

/// The characters of a result's content.
pub open spec fn result_view(r: Result<String, String>) -> Result<Seq<char>, Seq<char>> {
    match r {
        Ok(h) => Ok(h@),
        Err(m) => Err(m@),
    }
}

/// `katex::render_with_opts` with `display_mode(display)` and
/// `OutputType::Html`; an error becomes its message. The answer is named
/// `katex_html`.
#[verifier::external_body]
fn katex_render(latex: &str, display: bool) -> (r: Result<String, String>)
    ensures
        result_view(r) == katex_html(latex@, display),
{
    let opts = katex::Opts::builder().display_mode(display).output_type(katex::OutputType::Html)
        .build().unwrap();
    katex::render_with_opts(latex, opts).map_err(|e| e.to_string())
}

/// Renders a display equation to HTML.
pub fn render_equation(latex: &str) -> (r: Result<String, String>)
    ensures
        result_view(r) == katex_html(latex@, true),
{
    katex_render(latex, true)
}

/// Renders inline math to HTML.
pub fn render_inline_math(latex: &str) -> (r: Result<String, String>)
    ensures
        result_view(r) == katex_html(latex@, false),
{
    katex_render(latex, false)
}

/// The page that shows one rendered equation, centred on a dark
/// background, with KaTeX's style sheet from the CDN.
pub open spec fn equation_page_text(html: Seq<char>) -> Seq<char> {
    "<!DOCTYPE html>\n<html><head>\n<meta charset=\"UTF-8\">\n<link rel=\"stylesheet\" href=\"https://cdn.jsdelivr.net/npm/katex@0.16.22/dist/katex.min.css\">\n<style>body { display:flex; justify-content:center; align-items:center; min-height:100vh; margin:0; background:#1a1a2e; color:#e0e0e0; }</style>\n</head><body>"@
        + html + "</body></html>"@
}

/// The page of one display equation, or KaTeX's error message.
pub fn render_equation_page(latex: &str) -> (r: Result<String, String>)
    ensures
        match (katex_html(latex@, true), r) {
            (Ok(h), Ok(p)) => p@ == equation_page_text(h),
            (Err(m), Err(e)) => e@ == m,
            _ => false,
        },
{
    match render_equation(latex) {
        Ok(h) => {
            let mut out: Vec<char> = Vec::new();
            push_str(
                &mut out,
                "<!DOCTYPE html>\n<html><head>\n<meta charset=\"UTF-8\">\n<link rel=\"stylesheet\" href=\"https://cdn.jsdelivr.net/npm/katex@0.16.22/dist/katex.min.css\">\n<style>body { display:flex; justify-content:center; align-items:center; min-height:100vh; margin:0; background:#1a1a2e; color:#e0e0e0; }</style>\n</head><body>",
            );
            push_str(&mut out, h.as_str());
            push_str(&mut out, "</body></html>");
            Ok(string_of(&out))
        },
        Err(m) => Err(m),
    }
}

// ---------------------------------------------------------------------------
// Inline math in text
// ---------------------------------------------------------------------------

/// The first `$` at or after `j` that is not part of a `$$`.
pub open spec fn closing_dollar(c: Seq<char>, j: int) -> Option<int>
    decreases c.len() - j,
{
    if j < 0 || j >= c.len() {
        None
    } else if j + 1 < c.len() && c[j] == '$' && c[j + 1] == '$' {
        closing_dollar(c, j + 2)
    } else if c[j] == '$' {
        Some(j)
    } else {
        closing_dollar(c, j + 1)
    }
}

/// Inline math typeset, or shown as code when KaTeX rejects it.
pub open spec fn inline_math_html(latex: Seq<char>) -> Seq<char> {
    match katex_html(latex, false) {
        Ok(h) => h,
        Err(_) => "<code class=\"error-inline\">"@ + seq!['$'] + escaped(latex, true) + seq!['$']
            + "</code>"@,
    }
}

/// `c[i..]` as HTML: each `$...$` typeset, `$$` and unmatched `$` kept,
/// other text escaped.
pub open spec fn inline_from(c: Seq<char>, i: int) -> Seq<char>
    decreases c.len() - i,
{
    if i < 0 || i >= c.len() {
        Seq::empty()
    } else if i + 1 < c.len() && c[i] == '$' && c[i + 1] == '$' {
        seq!['$', '$'] + inline_from(c, i + 2)
    } else if c[i] == '$' {
        match closing_dollar(c, i + 1) {
            Some(e) => if i + 1 < e < c.len() {
                inline_math_html(c.subrange(i + 1, e)) + inline_from(c, e + 1)
            } else {
                seq!['$'] + inline_from(c, i + 1)
            },
            None => seq!['$'] + inline_from(c, i + 1),
        }
    } else {
        escape_char(c[i], true) + inline_from(c, i + 1)
    }
}

/// Text with inline math as HTML.
pub open spec fn inline_html(text: Seq<char>) -> Seq<char> {
    inline_from(text, 0)
}

fn closing_dollar_exec(c: &Vec<char>, j: usize) -> (r: Option<usize>)
    ensures
        r matches Some(e) ==> closing_dollar(c@, j as int) == Some(e as int),
        r is None ==> closing_dollar(c@, j as int) is None,
{
    let mut k = j;
    while k < c.len()
        invariant
            j <= k,
            closing_dollar(c@, j as int) == closing_dollar(c@, k as int),
        decreases c.len() - k,
    {
        if k + 1 < c.len() && c[k] == '$' && c[k + 1] == '$' {
            k = k + 2;
        } else if c[k] == '$' {
            return Some(k);
        } else {
            k = k + 1;
        }
    }
    None
}

fn push_inline_math(out: &mut Vec<char>, latex: &Vec<char>)
    ensures
        final(out)@ == old(out)@ + inline_math_html(latex@),
{
    let s = string_of(latex);
    match render_inline_math(s.as_str()) {
        Ok(h) => {
            push_all(out, &chars_of(h.as_str()));
        },
        Err(_) => {
            let ghost before = out@;
            push_str(out, "<code class=\"error-inline\">");
            out.push('$');
            push_escaped(out, latex, true);
            out.push('$');
            push_str(out, "</code>");
            assert(out@ =~= before + inline_math_html(latex@));
        },
    }
}

/// Appends `inline_html(text)`.
pub fn push_inline(out: &mut Vec<char>, text: &Vec<char>)
    ensures
        final(out)@ == old(out)@ + inline_html(text@),
{
    let c = text;
    let mut i: usize = 0;
    assert(old(out)@ + inline_from(c@, 0) =~= old(out)@ + inline_html(c@));
    while i < c.len()
        invariant
            i <= c.len(),
            out@ + inline_from(c@, i as int) == old(out)@ + inline_html(c@),
        decreases c.len() - i,
    {
        let ghost before = out@;
        if i + 1 < c.len() && c[i] == '$' && c[i + 1] == '$' {
            out.push('$');
            out.push('$');
            i = i + 2;
            assert(before + (seq!['$', '$'] + inline_from(c@, i as int)) =~= out@ + inline_from(
                c@,
                i as int,
            ));
        } else if c[i] == '$' {
            let found = closing_dollar_exec(c, i + 1);
            let mut matched = false;
            if let Some(e) = found {
                if i + 1 < e && e < c.len() {
                    let latex = copy_range(c, i + 1, e);
                    push_inline_math(out, &latex);
                    i = e + 1;
                    matched = true;
                    assert(before + (inline_math_html(latex@) + inline_from(c@, i as int))
                        =~= out@ + inline_from(c@, i as int));
                }
            }
            if !matched {
                out.push('$');
                i = i + 1;
                assert(before + (seq!['$'] + inline_from(c@, i as int)) =~= out@ + inline_from(
                    c@,
                    i as int,
                ));
            }
        } else {
            push_escaped_char(out, c[i], true);
            i = i + 1;
            assert(before + (escape_char(c@[i - 1], true) + inline_from(c@, i as int)) =~= out@
                + inline_from(c@, i as int));
        }
    }
    assert(out@ + inline_from(c@, i as int) =~= out@);
}

/// Text with `$...$` inline math typeset and all other text escaped
/// (`process_inline_math`).
pub fn process_inline_math(text: &str) -> (r: String)
    ensures
        r@ == inline_html(text@),
{
    let mut out: Vec<char> = Vec::new();
    push_inline(&mut out, &chars_of(text));
    string_of(&out)
}

/// Chat text with inline math.
pub fn render_chat_text(text: &str) -> (r: String)
    ensures
        r@ == inline_html(text@),
{
    process_inline_math(text)
}

// ---------------------------------------------------------------------------
// Blocks
// ---------------------------------------------------------------------------

/// The card of display equation number `num`: the typeset equation, or
/// the source and KaTeX's message.
pub open spec fn equation_card(eq: Seq<char>, num: nat) -> Seq<char> {
    match katex_html(eq, true) {
        Ok(r) => "<div class=\"equation-card\"><div class=\"equation-content\">"@ + r
            + "</div><span class=\"equation-number\">("@ + decimal(num) + ")</span></div>"@,
        Err(m) => "<div class=\"equation-card error-card\"><code>"@ + escaped(eq, true)
            + "</code><div class=\"error-msg\">"@ + escaped(m, true) + "</div></div>"@,
    }
}

/// The cards of `eqs`, numbered from `base + 1` on.
pub open spec fn equation_cards(eqs: Seq<Seq<char>>, base: nat) -> Seq<char>
    decreases eqs.len(),
{
    if eqs.len() == 0 {
        Seq::empty()
    } else {
        equation_cards(eqs.drop_last(), base) + equation_card(
            eqs.last(),
            (base + eqs.len()) as nat,
        )
    }
}

/// The notes of a step, each with inline math.
pub open spec fn notes_html(notes: Seq<Seq<char>>) -> Seq<char>
    decreases notes.len(),
{
    if notes.len() == 0 {
        Seq::empty()
    } else {
        notes_html(notes.drop_last()) + "<div class=\"note\">"@ + inline_html(notes.last())
            + "</div>"@
    }
}

/// The attributes of a step's element.
pub open spec fn step_attrs(id: nat, title: Seq<char>, eqs: Seq<Seq<char>>, is_result: bool) -> Seq<
    char,
> {
    "<div class=\""@ + (if is_result {
        "step result"@
    } else {
        "step"@
    }) + "\" data-step-id=\""@ + decimal(id) + "\" data-step-title=\""@ + escaped(title, true)
        + "\" data-latex=\""@ + (if eqs.len() > 0 {
        escaped(eqs[0], true)
    } else {
        Seq::empty()
    }) + "\">"@
}

/// The header of a step: its number and its title with inline math.
pub open spec fn step_header(id: nat, title: Seq<char>) -> Seq<char> {
    "<div class=\"step-header\"><span class=\"step-number\">"@ + decimal(id)
        + ".</span><span class=\"step-title\">"@ + inline_html(title) + "</span></div>"@
}

/// The opening of a step: its attributes and its header.
pub open spec fn step_head(id: nat, title: Seq<char>, eqs: Seq<Seq<char>>, is_result: bool) -> Seq<
    char,
> {
    step_attrs(id, title, eqs, is_result) + step_header(id, title)
}

/// A step whose equations are numbered from `base + 1` on.
pub open spec fn step_html(
    id: nat,
    title: Seq<char>,
    eqs: Seq<Seq<char>>,
    notes: Seq<Seq<char>>,
    is_result: bool,
    base: nat,
) -> Seq<char> {
    step_head(id, title, eqs, is_result) + equation_cards(eqs, base) + notes_html(notes)
        + "</div>"@
}

/// A block whose equations are numbered from `base + 1` on.
pub open spec fn block_html(b: BlockView, base: nat) -> Seq<char> {
    match b {
        BlockView::Step { id, title, equations, notes, is_result } => step_html(
            id as nat,
            title,
            equations,
            notes,
            is_result,
            base,
        ),
        BlockView::Prose { content } => "<div class=\"prose\">"@ + inline_html(content)
            + "</div>"@,
        BlockView::Divider => "<hr class=\"divider\">"@,
    }
}

/// The number of display equations of a block.
pub open spec fn block_equations(b: BlockView) -> nat {
    match b {
        BlockView::Step { equations, .. } => equations.len(),
        _ => 0,
    }
}

/// The number of display equations of a list of blocks.
pub open spec fn equations_in(bs: Seq<BlockView>) -> nat
    decreases bs.len(),
{
    if bs.len() == 0 {
        0
    } else {
        equations_in(bs.drop_last()) + block_equations(bs.last())
    }
}

/// The blocks in order, equations numbered consecutively across the
/// board from `base + 1` on.
pub open spec fn blocks_html(bs: Seq<BlockView>, base: nat) -> Seq<char>
    decreases bs.len(),
{
    if bs.len() == 0 {
        Seq::empty()
    } else {
        blocks_html(bs.drop_last(), base) + block_html(
            bs.last(),
            base + equations_in(bs.drop_last()),
        )
    }
}

fn push_equation_card(out: &mut Vec<char>, eq: &String, num: usize)
    ensures
        final(out)@ == old(out)@ + equation_card(eq@, num as nat),
{
    let ghost before = out@;
    match render_equation(eq.as_str()) {
        Ok(r) => {
            push_str(out, "<div class=\"equation-card\"><div class=\"equation-content\">");
            push_all(out, &chars_of(r.as_str()));
            push_str(out, "</div><span class=\"equation-number\">(");
            push_decimal(out, num);
            push_str(out, ")</span></div>");
        },
        Err(m) => {
            push_str(out, "<div class=\"equation-card error-card\"><code>");
            push_escaped(out, &chars_of(eq.as_str()), true);
            push_str(out, "</code><div class=\"error-msg\">");
            push_escaped(out, &chars_of(m.as_str()), true);
            push_str(out, "</div></div>");
        },
    }
    assert(out@ =~= before + equation_card(eq@, num as nat));
}

fn push_step_attrs(out: &mut Vec<char>, id: usize, title: &Vec<char>, equations: &Vec<String>, is_result: bool)
    ensures
        final(out)@ == old(out)@ + step_attrs(id as nat, title@, texts(equations@), is_result),
{
    let ghost eqs = texts(equations@);
    push_str(out, "<div class=\"");
    if is_result {
        push_str(out, "step result");
    } else {
        push_str(out, "step");
    }
    push_str(out, "\" data-step-id=\"");
    push_decimal(out, id);
    push_str(out, "\" data-step-title=\"");
    push_escaped(out, title, true);
    push_str(out, "\" data-latex=\"");
    let ghost mid = out@;
    if equations.len() > 0 {
        push_escaped(out, &chars_of(equations[0].as_str()), true);
    }
    assert(out@ =~= mid + (if eqs.len() > 0 {
        escaped(eqs[0], true)
    } else {
        Seq::empty()
    }));
    push_str(out, "\">");
    assert(out@ =~= old(out)@ + step_attrs(id as nat, title@, eqs, is_result));
}

fn push_step_head(out: &mut Vec<char>, id: usize, title: &String, equations: &Vec<String>, is_result: bool)
    ensures
        final(out)@ == old(out)@ + step_head(id as nat, title@, texts(equations@), is_result),
{
    let tc = chars_of(title.as_str());
    push_step_attrs(out, id, &tc, equations, is_result);
    let ghost mid = out@;
    push_str(out, "<div class=\"step-header\"><span class=\"step-number\">");
    push_decimal(out, id);
    push_str(out, ".</span><span class=\"step-title\">");
    push_inline(out, &tc);
    push_str(out, "</span></div>");
    assert(out@ =~= mid + step_header(id as nat, title@));
    assert(out@ =~= old(out)@ + step_head(id as nat, title@, texts(equations@), is_result));
}

fn push_equation_cards(out: &mut Vec<char>, equations: &Vec<String>, eq_number: &mut usize)
    requires
        *old(eq_number) + equations@.len() <= usize::MAX,
    ensures
        final(out)@ == old(out)@ + equation_cards(texts(equations@), *old(eq_number) as nat),
        *final(eq_number) == *old(eq_number) + equations@.len(),
{
    let ghost eqs = texts(equations@);
    let ghost base = *eq_number as nat;
    let mut k: usize = 0;
    while k < equations.len()
        invariant
            k <= equations.len(),
            eqs == texts(equations@),
            base + equations@.len() <= usize::MAX,
            *eq_number == base + k,
            out@ == old(out)@ + equation_cards(eqs.take(k as int), base),
        decreases equations.len() - k,
    {
        let ghost before = out@;
        *eq_number = *eq_number + 1;
        push_equation_card(out, &equations[k], *eq_number);
        assert(eqs.take(k + 1).drop_last() =~= eqs.take(k as int));
        assert(out@ =~= old(out)@ + equation_cards(eqs.take(k + 1), base));
        k = k + 1;
    }
    assert(eqs.take(equations.len() as int) =~= eqs);
}

fn push_notes(out: &mut Vec<char>, notes: &Vec<String>)
    ensures
        final(out)@ == old(out)@ + notes_html(texts(notes@)),
{
    let ghost ns = texts(notes@);
    let mut j: usize = 0;
    while j < notes.len()
        invariant
            j <= notes.len(),
            ns == texts(notes@),
            out@ == old(out)@ + notes_html(ns.take(j as int)),
        decreases notes.len() - j,
    {
        push_str(out, "<div class=\"note\">");
        push_inline(out, &chars_of(notes[j].as_str()));
        push_str(out, "</div>");
        assert(ns.take(j + 1).drop_last() =~= ns.take(j as int));
        assert(out@ =~= old(out)@ + notes_html(ns.take(j + 1)));
        j = j + 1;
    }
    assert(ns.take(notes.len() as int) =~= ns);
}

fn push_step(
    out: &mut Vec<char>,
    id: usize,
    title: &String,
    equations: &Vec<String>,
    notes: &Vec<String>,
    is_result: bool,
    eq_number: &mut usize,
)
    requires
        *old(eq_number) + equations@.len() <= usize::MAX,
    ensures
        final(out)@ == old(out)@ + step_html(
            id as nat,
            title@,
            texts(equations@),
            texts(notes@),
            is_result,
            *old(eq_number) as nat,
        ),
        *final(eq_number) == *old(eq_number) + equations@.len(),
{
    let ghost base = *eq_number as nat;
    push_step_head(out, id, title, equations, is_result);
    push_equation_cards(out, equations, eq_number);
    push_notes(out, notes);
    push_str(out, "</div>");
    assert(out@ =~= old(out)@ + step_html(
        id as nat,
        title@,
        texts(equations@),
        texts(notes@),
        is_result,
        base,
    ));
}

/// A block as HTML, its equations numbered after `*eq_number`, which
/// advances past them (`render_block_numbered`).
pub fn render_block_numbered(block: &Block, eq_number: &mut usize) -> (r: String)
    requires
        *old(eq_number) + block_equations(block@) <= usize::MAX,
    ensures
        r@ == block_html(block@, *old(eq_number) as nat),
        *final(eq_number) == *old(eq_number) + block_equations(block@),
{
    let mut out: Vec<char> = Vec::new();
    match block {
        Block::Step { id, title, equations, notes, is_result } => {
            push_step(&mut out, *id, title, equations, notes, *is_result, eq_number);
        },
        Block::Prose { content } => {
            push_str(&mut out, "<div class=\"prose\">");
            push_inline(&mut out, &chars_of(content.as_str()));
            push_str(&mut out, "</div>");
        },
        Block::Divider => {
            push_str(&mut out, "<hr class=\"divider\">");
        },
    }
    assert(out@ =~= block_html(block@, *old(eq_number) as nat));
    string_of(&out)
}

/// A block as HTML, its equations numbered from 1 (`render_block`).
pub fn render_block(block: &Block) -> (r: String)
    requires
        block_equations(block@) <= usize::MAX,
    ensures
        r@ == block_html(block@, 0),
{
    let mut n: usize = 0;
    render_block_numbered(block, &mut n)
}

/// The blocks of a board as HTML, without the page around them.
pub fn render_blocks_html(doc: &Document) -> (r: String)
    requires
        equations_in(doc@.blocks) <= usize::MAX,
    ensures
        r@ == blocks_html(doc@.blocks, 0),
{
    let ghost bs = doc@.blocks;
    let mut out: Vec<char> = Vec::new();
    let mut eq_number: usize = 0;
    let mut k: usize = 0;
    while k < doc.blocks.len()
        invariant
            k <= doc.blocks.len(),
            bs == doc@.blocks,
            equations_in(bs) <= usize::MAX,
            eq_number == equations_in(bs.take(k as int)),
            out@ == blocks_html(bs.take(k as int), 0),
        decreases doc.blocks.len() - k,
    {
        assert(bs.take(k + 1).drop_last() =~= bs.take(k as int));
        assert(bs[k as int] == doc.blocks@[k as int]@);
        proof {
            lemma_equations_prefix(bs, k + 1);
        }
        let h = render_block_numbered(&doc.blocks[k], &mut eq_number);
        push_all(&mut out, &chars_of(h.as_str()));
        k = k + 1;
    }
    assert(bs.take(doc.blocks.len() as int) =~= bs);
    string_of(&out)
}

proof fn lemma_equations_prefix(bs: Seq<BlockView>, k: int)
    requires
        0 <= k <= bs.len(),
    ensures
        equations_in(bs.take(k)) <= equations_in(bs),
    decreases bs.len(),
{
    if k < bs.len() {
        lemma_equations_prefix(bs.drop_last(), k);
        assert(bs.drop_last().take(k) =~= bs.take(k));
    } else {
        assert(bs.take(k) =~= bs);
    }
}

/// The equations of two lists of blocks add up.
pub proof fn lemma_equations_append(bs: Seq<BlockView>, more: Seq<BlockView>)
    ensures
        equations_in(bs + more) == equations_in(bs) + equations_in(more),
    decreases more.len(),
{
    if more.len() == 0 {
        assert(bs + more =~= bs);
    } else {
        lemma_equations_append(bs, more.drop_last());
        assert((bs + more).drop_last() =~= bs + more.drop_last());
        assert((bs + more).last() == more.last());
    }
}

/// A board that grows by more blocks renders as before, followed by the
/// new blocks, whose equations are numbered on from the earlier ones.
pub proof fn lemma_blocks_html_append(bs: Seq<BlockView>, more: Seq<BlockView>, base: nat)
    ensures
        blocks_html(bs + more, base) == blocks_html(bs, base) + blocks_html(
            more,
            base + equations_in(bs),
        ),
    decreases more.len(),
{
    if more.len() == 0 {
        assert(bs + more =~= bs);
        assert(blocks_html(bs, base) + Seq::<char>::empty() =~= blocks_html(bs, base));
    } else {
        let pre = more.drop_last();
        lemma_blocks_html_append(bs, pre, base);
        lemma_equations_append(bs, pre);
        assert((bs + more).drop_last() =~= bs + pre);
        assert((bs + more).last() == more.last());
        let x = blocks_html(bs, base);
        let y = blocks_html(pre, base + equations_in(bs));
        let z = block_html(more.last(), base + equations_in(bs) + equations_in(pre));
        assert(x + y + z =~= x + (y + z));
    }
}

/// The whole viewer page of a board.
pub open spec fn full_page(title: Seq<char>, theme: Theme, blocks: Seq<char>) -> Seq<char> {
    let t = escaped(title, true);
    "<!DOCTYPE html>"@ + "\n<html lang=\"en\" "@ + theme_attribute(theme)
        + ">\n<head>\n    <meta charset=\"UTF-8\">\n    <meta name=\"viewport\" content=\"width=device-width, initial-scale=1.0\">\n    <title>"@
        + t + " \u{2014} cliboard</title>\n    <link rel=\"stylesheet\" href=\"/katex.min.css\">\n    <link rel=\"stylesheet\" href=\"/viewer.css\">\n</head>\n<body>\n    <div id=\"board\">\n        <header id=\"board-header\">\n            "@
        + title_heading(t) + "\n        </header>\n        <main id=\"board-content\">\n            "@
        + blocks + "\n        </main>\n    </div>\n    "@ + viewer_script()
        + "\n</body>\n</html>"@
}

/// The page's theme attribute: `data-theme="dark"` or `data-theme="light"`.
pub open spec fn theme_attribute(theme: Theme) -> Seq<char> {
    "data-theme=\""@ + (match theme {
        Theme::Dark => "dark"@,
        Theme::Light => "light"@,
    }) + "\""@
}

/// The board's heading: `<h1>` around the escaped title.
pub open spec fn title_heading(escaped_title: Seq<char>) -> Seq<char> {
    "<h1>"@ + escaped_title + "</h1>"@
}

/// The tag that loads the viewer's script.
pub open spec fn viewer_script() -> Seq<char> {
    "<script src=\"/viewer.js\"></script>"@
}

/// The viewer page of a board: the page shell around the rendered blocks.
pub fn render_full_page(doc: &Document) -> (r: String)
    requires
        equations_in(doc@.blocks) <= usize::MAX,
    ensures
        r@ == full_page(doc@.title, doc@.theme, blocks_html(doc@.blocks, 0)),
{
    let blocks = render_blocks_html(doc);
    let mut t: Vec<char> = Vec::new();
    push_escaped(&mut t, &chars_of(doc.title.as_str()), true);
    let mut out: Vec<char> = Vec::new();
    push_str(&mut out, "<!DOCTYPE html>");
    push_str(&mut out, "\n<html lang=\"en\" ");
    push_str(&mut out, "data-theme=\"");
    match doc.theme {
        Theme::Dark => push_str(&mut out, "dark"),
        Theme::Light => push_str(&mut out, "light"),
    }
    push_str(&mut out, "\"");
    assert(out@ =~= "<!DOCTYPE html>"@ + "\n<html lang=\"en\" "@ + theme_attribute(doc.theme));
    push_str(
        &mut out,
        ">\n<head>\n    <meta charset=\"UTF-8\">\n    <meta name=\"viewport\" content=\"width=device-width, initial-scale=1.0\">\n    <title>",
    );
    push_all(&mut out, &t);
    push_str(
        &mut out,
        " \u{2014} cliboard</title>\n    <link rel=\"stylesheet\" href=\"/katex.min.css\">\n    <link rel=\"stylesheet\" href=\"/viewer.css\">\n</head>\n<body>\n    <div id=\"board\">\n        <header id=\"board-header\">\n            ",
    );
    push_str(&mut out, "<h1>");
    push_all(&mut out, &t);
    push_str(&mut out, "</h1>");
    push_str(&mut out, "\n        </header>\n        <main id=\"board-content\">\n            ");
    push_all(&mut out, &chars_of(blocks.as_str()));
    push_str(&mut out, "\n        </main>\n    </div>\n    ");
    push_str(&mut out, "<script src=\"/viewer.js\"></script>");
    push_str(&mut out, "\n</body>\n</html>");
    assert(out@ =~= full_page(doc@.title, doc@.theme, blocks_html(doc@.blocks, 0))) by {
        assert(t@ == escaped(doc@.title, true));
    }
    string_of(&out)
}

/// `t` occurs in `s`.
pub open spec fn occurs(s: Seq<char>, t: Seq<char>) -> bool {
    exists|i: int| #[trigger] has_at(s, i, t)
}

/// The middle of a concatenation occurs in it.
pub proof fn lemma_occurs_mid(a: Seq<char>, b: Seq<char>, c: Seq<char>)
    ensures
        occurs(a + b + c, b),
{
    assert((a + b + c).subrange(a.len() as int, (a.len() + b.len()) as int) =~= b);
    assert(has_at(a + b + c, a.len() as int, b));
}

/// The viewer page's `<title>` element names the board by its escaped
/// title.
#[verifier::spinoff_prover]
#[verifier::rlimit(60)]
pub proof fn lemma_full_page_title(title: Seq<char>, theme: Theme, blocks: Seq<char>)
    ensures
        occurs(full_page(title, theme, blocks), crate::export::page_title(escaped(title, true))),
{
    let t = escaped(title, true);
    let p = full_page(title, theme, blocks);
    let d = "<!DOCTYPE html>"@;
    let l1 = "\n<html lang=\"en\" "@;
    let l2 = ">\n<head>\n    <meta charset=\"UTF-8\">\n    <meta name=\"viewport\" content=\"width=device-width, initial-scale=1.0\">\n    <title>"@;
    let l3 = " \u{2014} cliboard</title>\n    <link rel=\"stylesheet\" href=\"/katex.min.css\">\n    <link rel=\"stylesheet\" href=\"/viewer.css\">\n</head>\n<body>\n    <div id=\"board\">\n        <header id=\"board-header\">\n            "@;
    let l4 = "\n        </header>\n        <main id=\"board-content\">\n            "@;
    let l5 = "\n        </main>\n    </div>\n    "@;
    let l6 = "\n</body>\n</html>"@;
    let a2 = ">\n<head>\n    <meta charset=\"UTF-8\">\n    <meta name=\"viewport\" content=\"width=device-width, initial-scale=1.0\">\n    "@;
    let ti = "<title>"@;
    let tc = " \u{2014} cliboard</title>"@;
    let b3 = "\n    <link rel=\"stylesheet\" href=\"/katex.min.css\">\n    <link rel=\"stylesheet\" href=\"/viewer.css\">\n</head>\n<body>\n    <div id=\"board\">\n        <header id=\"board-header\">\n            "@;
    reveal_strlit(
        ">\n<head>\n    <meta charset=\"UTF-8\">\n    <meta name=\"viewport\" content=\"width=device-width, initial-scale=1.0\">\n    <title>",
    );
    reveal_strlit(
        ">\n<head>\n    <meta charset=\"UTF-8\">\n    <meta name=\"viewport\" content=\"width=device-width, initial-scale=1.0\">\n    ",
    );
    reveal_strlit("<title>");
    reveal_strlit(
        " \u{2014} cliboard</title>\n    <link rel=\"stylesheet\" href=\"/katex.min.css\">\n    <link rel=\"stylesheet\" href=\"/viewer.css\">\n</head>\n<body>\n    <div id=\"board\">\n        <header id=\"board-header\">\n            ",
    );
    reveal_strlit(" \u{2014} cliboard</title>");
    reveal_strlit(
        "\n    <link rel=\"stylesheet\" href=\"/katex.min.css\">\n    <link rel=\"stylesheet\" href=\"/viewer.css\">\n</head>\n<body>\n    <div id=\"board\">\n        <header id=\"board-header\">\n            ",
    );
    assert(l2 =~= a2 + ti);
    assert(l3 =~= tc + b3);
    let a = theme_attribute(theme);
    let h = title_heading(t);
    let v = viewer_script();
    assert(p =~= (d + l1 + a + a2) + (ti + t + tc) + (b3 + h + l4 + blocks + l5 + v + l6));
    lemma_occurs_mid(d + l1 + a + a2, ti + t + tc, b3 + h + l4 + blocks + l5 + v + l6);
}

/// The viewer page of any board starts with the doctype and holds the
/// theme attribute, the escaped title as heading, the rendered blocks and
/// the tag that loads the viewer's script.
pub proof fn lemma_full_page_parts(title: Seq<char>, theme: Theme, blocks: Seq<char>)
    ensures
        has_at(full_page(title, theme, blocks), 0, "<!DOCTYPE html>"@),
        occurs(full_page(title, theme, blocks), theme_attribute(theme)),
        occurs(full_page(title, theme, blocks), title_heading(escaped(title, true))),
        occurs(full_page(title, theme, blocks), blocks),
        occurs(full_page(title, theme, blocks), viewer_script()),
{
    let t = escaped(title, true);
    let p = full_page(title, theme, blocks);
    let d = "<!DOCTYPE html>"@;
    let l1 = "\n<html lang=\"en\" "@;
    let l2 = ">\n<head>\n    <meta charset=\"UTF-8\">\n    <meta name=\"viewport\" content=\"width=device-width, initial-scale=1.0\">\n    <title>"@;
    let l3 = " \u{2014} cliboard</title>\n    <link rel=\"stylesheet\" href=\"/katex.min.css\">\n    <link rel=\"stylesheet\" href=\"/viewer.css\">\n</head>\n<body>\n    <div id=\"board\">\n        <header id=\"board-header\">\n            "@;
    let l4 = "\n        </header>\n        <main id=\"board-content\">\n            "@;
    let l5 = "\n        </main>\n    </div>\n    "@;
    let l6 = "\n</body>\n</html>"@;
    let a = theme_attribute(theme);
    let h = title_heading(t);
    let v = viewer_script();
    let rest = l1 + a + l2 + t + l3 + h + l4 + blocks + l5 + v + l6;
    assert(p =~= d + rest);
    assert(p.subrange(0, d.len() as int) =~= d);
    lemma_occurs_mid(d + l1, a, l2 + t + l3 + h + l4 + blocks + l5 + v + l6);
    assert(p =~= (d + l1) + a + (l2 + t + l3 + h + l4 + blocks + l5 + v + l6));
    lemma_occurs_mid(d + l1 + a + l2 + t + l3, h, l4 + blocks + l5 + v + l6);
    assert(p =~= (d + l1 + a + l2 + t + l3) + h + (l4 + blocks + l5 + v + l6));
    lemma_occurs_mid(d + l1 + a + l2 + t + l3 + h + l4, blocks, l5 + v + l6);
    assert(p =~= (d + l1 + a + l2 + t + l3 + h + l4) + blocks + (l5 + v + l6));
    lemma_occurs_mid(d + l1 + a + l2 + t + l3 + h + l4 + blocks + l5, v, l6);
    assert(p =~= (d + l1 + a + l2 + t + l3 + h + l4 + blocks + l5) + v + l6);
}

// ---------------------------------------------------------------------------
// Chat replies
// ---------------------------------------------------------------------------

/// The end of the run of non-white-space characters at `j`.
pub open spec fn word_end(s: Seq<char>, j: int) -> int
    decreases s.len() - j,
{
    if 0 <= j < s.len() && !is_ws(s[j]) {
        word_end(s, j + 1)
    } else {
        j
    }
}

/// The white-space separated words of `s[i..]` (`split_whitespace`).
pub open spec fn words_from(s: Seq<char>, i: int) -> Seq<Seq<char>>
    decreases s.len() - i,
{
    if i < 0 || i >= s.len() {
        Seq::empty()
    } else if is_ws(s[i]) {
        words_from(s, i + 1)
    } else {
        let e = word_end(s, i);
        if i < e <= s.len() {
            seq![s.subrange(i, e)] + words_from(s, e)
        } else {
            Seq::empty()
        }
    }
}

/// LaTeX with its words joined by single spaces, for comparing equations.
pub open spec fn normalized(s: Seq<char>) -> Seq<char> {
    join_seq(words_from(s, 0), seq![' '])
}

/// `normalized(s)` (`normalize_latex`).
pub fn normalize_latex(s: &Vec<char>) -> (r: Vec<char>)
    ensures
        r@ == normalized(s@),
{
    let mut words: Vec<Vec<char>> = Vec::new();
    let mut i: usize = 0;
    assert(words@.map_values(|w: Vec<char>| w@) + words_from(s@, 0) =~= words_from(s@, 0));
    while i < s.len()
        invariant
            i <= s.len(),
            words@.map_values(|w: Vec<char>| w@) + words_from(s@, i as int) == words_from(s@, 0),
        decreases s.len() - i,
    {
        let ghost before = words@.map_values(|w: Vec<char>| w@);
        if is_whitespace(s[i]) {
            i = i + 1;
        } else {
            let mut e = i;
            while e < s.len() && !is_whitespace(s[e])
                invariant
                    i <= e <= s.len(),
                    word_end(s@, i as int) == word_end(s@, e as int),
                decreases s.len() - e,
            {
                e = e + 1;
            }
            let w = copy_range(s, i, e);
            words.push(w);
            assert(words@.map_values(|w: Vec<char>| w@) =~= before.push(w@));
            assert(before.push(w@) + words_from(s@, e as int) =~= before + (seq![w@] + words_from(
                s@,
                e as int,
            )));
            i = e;
        }
    }
    assert(words@.map_values(|w: Vec<char>| w@) + words_from(s@, i as int) =~= words@.map_values(
        |w: Vec<char>| w@,
    ));
    let mut space: Vec<char> = Vec::new();
    space.push(' ');
    assert(space@ =~= seq![' ']);
    join_vec(&words, &space)
}

/// The characters of each pair.
pub open spec fn pair_views(v: Seq<(String, String)>) -> Seq<(Seq<char>, Seq<char>)> {
    v.map_values(|p: (String, String)| (p.0@, p.1@))
}

/// The value of the first pair whose key is `key`.
pub open spec fn lookup(known: Seq<(Seq<char>, Seq<char>)>, key: Seq<char>) -> Option<Seq<char>>
    decreases known.len(),
{
    if known.len() == 0 {
        None
    } else if known[0].0 == key {
        Some(known[0].1)
    } else {
        lookup(known.drop_first(), key)
    }
}

fn lookup_exec(known: &Vec<(String, String)>, key: &String) -> (r: Option<String>)
    ensures
        r matches Some(v) ==> lookup(pair_views(known@), key@) == Some(v@),
        r is None ==> lookup(pair_views(known@), key@) is None,
{
    let ghost kv = pair_views(known@);
    let mut k: usize = 0;
    assert(kv.skip(0) =~= kv);
    while k < known.len()
        invariant
            k <= known.len(),
            kv == pair_views(known@),
            lookup(kv, key@) == lookup(kv.skip(k as int), key@),
        decreases known.len() - k,
    {
        assert(kv.skip(k as int).drop_first() =~= kv.skip(k + 1));
        assert(kv.skip(k as int)[0] == (known@[k as int].0@, known@[k as int].1@));
        if known[k].0 == *key {
            return Some(known[k].1.clone());
        }
        k = k + 1;
    }
    None
}

/// The number `step.sub` of an equation in a reply.
pub open spec fn eq_label(step: nat, sub: nat) -> Seq<char> {
    decimal(step) + seq!['.'] + decimal(sub)
}

/// Prose of a reply: trimmed, with inline math, as a paragraph unless empty.
pub open spec fn prose_html(p: Seq<char>) -> Seq<char> {
    let t = trim(p);
    if t.len() > 0 {
        "<p class=\"reply-prose\">"@ + inline_html(t) + "</p>"@
    } else {
        Seq::empty()
    }
}

/// A display equation of a reply with its number label.
pub open spec fn reply_equation_html(latex: Seq<char>, num: Seq<char>) -> Seq<char> {
    match katex_html(latex, true) {
        Ok(r) => "<div class=\"equation-card reply-equation\" data-latex=\""@ + escaped(latex, true)
            + "\" data-eq-num=\""@ + num + "\"><div class=\"equation-content\">"@ + r
            + "</div><span class=\"equation-number\">("@ + num + ")</span></div>"@,
        Err(m) => "<div class=\"equation-card reply-equation error-card\"><code>"@ + escaped(
            latex,
            true,
        ) + "</code><div class=\"error-msg\">"@ + escaped(m, true) + "</div></div>"@,
    }
}

/// `$$`.
pub open spec fn display_delim() -> Seq<char> {
    seq!['$', '$']
}

/// The body of a reply from `rest` on: prose paragraphs and display
/// equations; a known equation keeps its number, a new one gets the next
/// number after `next`. From a `$$` that is never closed on, the rest is
/// one paragraph of prose.
pub open spec fn reply_from(
    rest: Seq<char>,
    step: nat,
    known: Seq<(Seq<char>, Seq<char>)>,
    next: nat,
) -> Seq<char>
    decreases rest.len(),
{
    match find_from(rest, display_delim(), 0) {
        None => prose_html(rest),
        Some(start) => if 0 <= start && start + 2 <= rest.len() {
            let after = rest.skip(start + 2);
            match find_from(after, display_delim(), 0) {
                None => prose_html(rest),
                Some(end) => if 0 <= end && end + 2 <= after.len() {
                    let latex = trim(after.take(end));
                    let tail = after.skip(end + 2);
                    prose_html(rest.take(start)) + if latex.len() == 0 {
                        reply_from(tail, step, known, next)
                    } else {
                        match lookup(known, normalized(latex)) {
                            Some(num) => reply_equation_html(latex, num) + reply_from(
                                tail,
                                step,
                                known,
                                next,
                            ),
                            None => reply_equation_html(latex, eq_label(step, next + 1))
                                + reply_from(tail, step, known, next + 1),
                        }
                    }
                } else {
                    Seq::empty()
                },
            }
        } else {
            Seq::empty()
        },
    }
}

/// A whole reply.
pub open spec fn reply_html(
    text: Seq<char>,
    step: nat,
    known: Seq<(Seq<char>, Seq<char>)>,
    offset: nat,
) -> Seq<char> {
    "<div class=\"reply-content\">"@ + reply_from(text, step, known, offset) + "</div>"@
}

fn push_prose(out: &mut Vec<char>, s: &Vec<char>, lo: usize, hi: usize)
    requires
        lo <= hi <= s.len(),
    ensures
        final(out)@ == old(out)@ + prose_html(s@.subrange(lo as int, hi as int)),
{
    let (a, b) = trim_range(s, lo, hi);
    if b > a {
        push_str(out, "<p class=\"reply-prose\">");
        push_inline(out, &copy_range(s, a, b));
        push_str(out, "</p>");
        assert(final(out)@ =~= old(out)@ + prose_html(s@.subrange(lo as int, hi as int)));
    } else {
        assert(final(out)@ =~= old(out)@ + prose_html(s@.subrange(lo as int, hi as int)));
    }
}

fn push_reply_equation(out: &mut Vec<char>, latex: &Vec<char>, num: &Vec<char>)
    ensures
        final(out)@ == old(out)@ + reply_equation_html(latex@, num@),
{
    let src = string_of(latex);
    match render_equation(src.as_str()) {
        Ok(r) => {
            push_str(out, "<div class=\"equation-card reply-equation\" data-latex=\"");
            push_escaped(out, latex, true);
            push_str(out, "\" data-eq-num=\"");
            push_all(out, num);
            push_str(out, "\"><div class=\"equation-content\">");
            push_all(out, &chars_of(r.as_str()));
            push_str(out, "</div><span class=\"equation-number\">(");
            push_all(out, num);
            push_str(out, ")</span></div>");
        },
        Err(m) => {
            push_str(out, "<div class=\"equation-card reply-equation error-card\"><code>");
            push_escaped(out, latex, true);
            push_str(out, "</code><div class=\"error-msg\">");
            push_escaped(out, &chars_of(m.as_str()), true);
            push_str(out, "</div></div>");
        },
    }
    assert(final(out)@ =~= old(out)@ + reply_equation_html(latex@, num@));
}

fn label_exec(step: usize, sub: usize) -> (r: Vec<char>)
    ensures
        r@ == eq_label(step as nat, sub as nat),
{
    let mut r: Vec<char> = Vec::new();
    push_decimal(&mut r, step);
    r.push('.');
    push_decimal(&mut r, sub);
    assert(r@ =~= eq_label(step as nat, sub as nat));
    r
}

/// The equation of a reply with its number: a known equation keeps its
/// number, a new one takes the one after `next`.
pub open spec fn numbered_equation(
    latex: Seq<char>,
    step: nat,
    known: Seq<(Seq<char>, Seq<char>)>,
    next: nat,
) -> (Seq<char>, nat) {
    match lookup(known, normalized(latex)) {
        Some(num) => (reply_equation_html(latex, num), next),
        None => (reply_equation_html(latex, eq_label(step, next + 1)), next + 1),
    }
}

fn push_numbered_equation(
    out: &mut Vec<char>,
    latex: &Vec<char>,
    step_id: usize,
    known: &Vec<(String, String)>,
    next: usize,
) -> (n: usize)
    requires
        next < usize::MAX,
    ensures
        final(out)@ == old(out)@ + numbered_equation(latex@, step_id as nat, pair_views(known@), next as nat).0,
        n == numbered_equation(latex@, step_id as nat, pair_views(known@), next as nat).1,
{
    let norm = string_of(&normalize_latex(latex));
    match lookup_exec(known, &norm) {
        Some(num) => {
            push_reply_equation(out, latex, &chars_of(num.as_str()));
            next
        },
        None => {
            let label = label_exec(step_id, next + 1);
            push_reply_equation(out, latex, &label);
            next + 1
        },
    }
}

/// One segment of a reply from position `i`: prose up to a display
/// equation and the equation; `done` when no equation is left.
#[verifier::spinoff_prover]
#[verifier::rlimit(40)]
fn reply_segment(
    out: &mut Vec<char>,
    s: &Vec<char>,
    dd: &Vec<char>,
    i: usize,
    step_id: usize,
    known: &Vec<(String, String)>,
    next: usize,
) -> (r: (usize, usize, bool))
    requires
        i <= s.len(),
        dd@ == display_delim(),
        next + (s.len() - i) <= usize::MAX,
    ensures
        r.2 ==> final(out)@ == old(out)@ + reply_from(s@.skip(i as int), step_id as nat, pair_views(known@), next as nat),
        !r.2 ==> i < r.0 <= s.len() && r.1 + (s.len() - r.0) <= usize::MAX && old(out)@ + reply_from(
            s@.skip(i as int),
            step_id as nat,
            pair_views(known@),
            next as nat,
        ) == final(out)@ + reply_from(s@.skip(r.0 as int), step_id as nat, pair_views(known@), r.1 as nat),
{
    let ghost kv = pair_views(known@);
    let ghost rest = s@.skip(i as int);
    let found = find_vec(s, dd, i);
    proof {
        lemma_find_from(s@, dd@, i as int);
        crate::text::lemma_find_shift(s@, dd@, i as int);
    }
    match found {
        None => {
            push_prose(out, s, i, s.len());
            assert(s@.subrange(i as int, s.len() as int) =~= rest);
            (i, next, true)
        },
        Some(start) => {
            assert(s@.subrange(i as int, start as int) =~= rest.take(start - i));
            let ghost after = rest.skip(start - i + 2);
            assert(after =~= s@.skip(start + 2));
            let found2 = find_vec(s, dd, start + 2);
            proof {
                lemma_find_from(s@, dd@, start + 2);
                crate::text::lemma_find_shift(s@, dd@, start + 2);
            }
            match found2 {
                None => {
                    push_prose(out, s, i, s.len());
                    assert(s@.subrange(i as int, s.len() as int) =~= rest);
                    (i, next, true)
                },
                Some(end) => {
                    push_prose(out, s, i, start);
                    let (a, b) = trim_range(s, start + 2, end);
                    assert(s@.subrange(start + 2, end as int) =~= after.take(end - start - 2));
                    let tail_start = end + 2;
                    assert(after.skip(end - start - 2 + 2) =~= s@.skip(tail_start as int));
                    let mut n = next;
                    if b > a {
                        let latex = copy_range(s, a, b);
                        n = push_numbered_equation(out, &latex, step_id, known, next);
                    }
                    (tail_start, n, false)
                },
            }
        },
    }
}

/// A reply with its display equations numbered within the step: an
/// equation of `known` keeps its number, new ones count on from
/// `eq_offset` (`render_reply_content_ctx`). `known` pairs normalized LaTeX
/// with numbers; where a key appears twice the first pair counts, and the
/// context that `reply_equation_context` builds never repeats a key.
pub fn render_reply_content_ctx(
    text: &str,
    step_id: usize,
    known: &Vec<(String, String)>,
    eq_offset: usize,
) -> (r: String)
    requires
        eq_offset + text@.len() <= usize::MAX,
    ensures
        r@ == reply_html(text@, step_id as nat, pair_views(known@), eq_offset as nat),
{
    let s = chars_of(text);
    let ghost kv = pair_views(known@);
    let mut dd: Vec<char> = Vec::new();
    dd.push('$');
    dd.push('$');
    assert(dd@ =~= display_delim());
    let mut out: Vec<char> = Vec::new();
    push_str(&mut out, "<div class=\"reply-content\">");
    let ghost head = out@;
    let mut next = eq_offset;
    let mut i: usize = 0;
    assert(s@.skip(0) =~= s@);
    loop
        invariant_except_break
            out@ + reply_from(s@.skip(i as int), step_id as nat, kv, next as nat) == head
                + reply_from(s@, step_id as nat, kv, eq_offset as nat),
        invariant
            i <= s.len(),
            dd@ == display_delim(),
            kv == pair_views(known@),
            next + (s.len() - i) <= usize::MAX,
        ensures
            out@ == head + reply_from(s@, step_id as nat, kv, eq_offset as nat),
        decreases s.len() - i,
    {
        let (i2, n2, done) = reply_segment(&mut out, &s, &dd, i, step_id, known, next);
        if done {
            break;
        }
        i = i2;
        next = n2;
    }
    push_str(&mut out, "</div>");
    string_of(&out)
}

/// A reply numbered from `step.1` on (`render_reply_content`).
pub fn render_reply_content(text: &str, step_id: usize) -> (r: String)
    requires
        text@.len() <= usize::MAX,
    ensures
        r@ == reply_html(text@, step_id as nat, Seq::empty(), 0),
{
    let known: Vec<(String, String)> = Vec::new();
    assert(pair_views(known@) =~= Seq::<(Seq<char>, Seq<char>)>::empty());
    render_reply_content_ctx(text, step_id, &known, 0)
}

// ---------------------------------------------------------------------------
// Equation numbers of earlier replies
// ---------------------------------------------------------------------------

/// The equations of `rest` added to `known`: each new (normalized)
/// equation gets the number after the last one.
pub open spec fn context_from(
    rest: Seq<char>,
    step: nat,
    known: Seq<(Seq<char>, Seq<char>)>,
) -> Seq<(Seq<char>, Seq<char>)>
    decreases rest.len(),
{
    match find_from(rest, display_delim(), 0) {
        None => known,
        Some(start) => if 0 <= start && start + 2 <= rest.len() {
            let after = rest.skip(start + 2);
            match find_from(after, display_delim(), 0) {
                None => known,
                Some(end) => if 0 <= end && end + 2 <= after.len() {
                    let latex = trim(after.take(end));
                    let tail = after.skip(end + 2);
                    if latex.len() > 0 && lookup(known, normalized(latex)) is None {
                        context_from(
                            tail,
                            step,
                            known.push((normalized(latex), eq_label(step, (known.len() + 1) as nat))),
                        )
                    } else {
                        context_from(tail, step, known)
                    }
                } else {
                    known
                },
            }
        } else {
            known
        },
    }
}

/// The numbered equations of the assistant's replies about `step`, in the
/// order of their first appearance.
pub open spec fn context_of(ms: Seq<ChatMessage>, step: usize) -> Seq<(Seq<char>, Seq<char>)>
    decreases ms.len(),
{
    if ms.len() == 0 {
        Seq::empty()
    } else {
        let k = context_of(ms.drop_last(), step);
        let m = ms.last();
        if m.step_id == step && m.role == ChatRole::Assistant {
            context_from(m.text@, step as nat, k)
        } else {
            k
        }
    }
}

/// The total length of the texts of `ms`.
pub open spec fn text_total(ms: Seq<ChatMessage>) -> nat
    decreases ms.len(),
{
    if ms.len() == 0 {
        0
    } else {
        text_total(ms.drop_last()) + ms.last().text@.len()
    }
}

/// Equation `k` (from 0) is numbered `step.(k + 1)`, and no equation
/// appears twice.
pub open spec fn well_numbered(known: Seq<(Seq<char>, Seq<char>)>, step: nat) -> bool {
    &&& forall|k: int| 0 <= k < known.len() ==> (#[trigger] known[k]).1 == eq_label(step, (k + 1) as nat)
    &&& forall|j: int, k: int| 0 <= j < k < known.len() ==> (#[trigger] known[j]).0 != (#[trigger] known[k]).0
}

proof fn lemma_lookup_none(known: Seq<(Seq<char>, Seq<char>)>, key: Seq<char>)
    requires
        lookup(known, key) is None,
    ensures
        forall|k: int| 0 <= k < known.len() ==> (#[trigger] known[k]).0 != key,
    decreases known.len(),
{
    if known.len() > 0 {
        lemma_lookup_none(known.drop_first(), key);
        assert forall|k: int| 0 <= k < known.len() implies (#[trigger] known[k]).0 != key by {
            if k > 0 {
                assert(known[k] == known.drop_first()[k - 1]);
            }
        }
    }
}

/// Adding a new equation with the next number keeps the numbering well
/// formed.
pub proof fn lemma_push_numbered(known: Seq<(Seq<char>, Seq<char>)>, key: Seq<char>, step: nat)
    requires
        well_numbered(known, step),
        lookup(known, key) is None,
    ensures
        well_numbered(known.push((key, eq_label(step, (known.len() + 1) as nat))), step),
{
    let k2 = known.push((key, eq_label(step, (known.len() + 1) as nat)));
    lemma_lookup_none(known, key);
    assert forall|j: int, k: int| 0 <= j < k < k2.len() implies (#[trigger] k2[j]).0
        != (#[trigger] k2[k]).0 by {
        if k == known.len() {
            assert(k2[j] == known[j]);
        } else {
            assert(k2[j] == known[j] && k2[k] == known[k]);
        }
    }
    assert forall|k: int| 0 <= k < k2.len() implies (#[trigger] k2[k]).1 == eq_label(
        step,
        (k + 1) as nat,
    ) by {
        if k < known.len() {
            assert(k2[k] == known[k]);
        }
    }
}

/// Adding the equations of a text keeps the numbering well formed, and adds
/// fewer equations than the text has characters.
pub proof fn lemma_context_from(rest: Seq<char>, step: nat, known: Seq<(Seq<char>, Seq<char>)>)
    requires
        well_numbered(known, step),
    ensures
        well_numbered(context_from(rest, step, known), step),
        context_from(rest, step, known).len() <= known.len() + rest.len(),
        known.len() <= context_from(rest, step, known).len(),
    decreases rest.len(),
{
    lemma_find_from(rest, display_delim(), 0);
    if let Some(start) = find_from(rest, display_delim(), 0) {
        if 0 <= start && start + 2 <= rest.len() {
            let after = rest.skip(start + 2);
            lemma_find_from(after, display_delim(), 0);
            if let Some(end) = find_from(after, display_delim(), 0) {
                if 0 <= end && end + 2 <= after.len() {
                    let latex = trim(after.take(end));
                    let tail = after.skip(end + 2);
                    if latex.len() > 0 && lookup(known, normalized(latex)) is None {
                        let k2 = known.push((normalized(latex), eq_label(step, (known.len() + 1) as nat)));
                        lemma_push_numbered(known, normalized(latex), step);
                        lemma_context_from(tail, step, k2);
                    } else {
                        lemma_context_from(tail, step, known);
                    }
                }
            }
        }
    }
}

proof fn lemma_context_of(ms: Seq<ChatMessage>, step: usize)
    ensures
        well_numbered(context_of(ms, step), step as nat),
        context_of(ms, step).len() <= text_total(ms),
    decreases ms.len(),
{
    if ms.len() > 0 {
        lemma_context_of(ms.drop_last(), step);
        let m = ms.last();
        if m.step_id == step && m.role == ChatRole::Assistant {
            lemma_context_from(m.text@, step as nat, context_of(ms.drop_last(), step));
        }
    }
}

/// Adds the equations of `text` to `known`.
fn add_context(known: &mut Vec<(String, String)>, text: &Vec<char>, step_id: usize)
    requires
        old(known)@.len() + text@.len() <= usize::MAX,
        well_numbered(pair_views(old(known)@), step_id as nat),
    ensures
        pair_views(final(known)@) == context_from(text@, step_id as nat, pair_views(old(known)@)),
{
    let mut dd: Vec<char> = Vec::new();
    dd.push('$');
    dd.push('$');
    assert(dd@ =~= display_delim());
    let mut i: usize = 0;
    assert(text@.skip(0) =~= text@);
    loop
        invariant_except_break
            context_from(text@.skip(i as int), step_id as nat, pair_views(known@)) == context_from(
                text@,
                step_id as nat,
                pair_views(old(known)@),
            ),
            known@.len() + (text@.len() - i) <= usize::MAX,
            well_numbered(pair_views(known@), step_id as nat),
        invariant
            i <= text.len(),
            dd@ == display_delim(),
        ensures
            pair_views(known@) == context_from(text@, step_id as nat, pair_views(old(known)@)),
        decreases text.len() - i,
    {
        let ghost rest = text@.skip(i as int);
        let ghost kv = pair_views(known@);
        proof {
            lemma_find_from(text@, dd@, i as int);
            crate::text::lemma_find_shift(text@, dd@, i as int);
        }
        let start = match find_vec(text, &dd, i) {
            Some(start) => start,
            None => {
                break;
            },
        };
        let ghost after = rest.skip(start - i + 2);
        assert(after =~= text@.skip(start + 2));
        proof {
            lemma_find_from(text@, dd@, start + 2);
            crate::text::lemma_find_shift(text@, dd@, start + 2);
        }
        let end = match find_vec(text, &dd, start + 2) {
            Some(end) => end,
            None => {
                break;
            },
        };
        let (a, b) = trim_range(text, start + 2, end);
        assert(text@.subrange(start + 2, end as int) =~= after.take(end - start - 2));
        assert(after.skip(end - start - 2 + 2) =~= text@.skip(end + 2));
        if b > a {
            let norm = string_of(&normalize_latex(&copy_range(text, a, b)));
            if lookup_exec(known, &norm).is_none() {
                let label = string_of(&label_exec(step_id, known.len() + 1));
                let ghost before = known@;
                known.push((norm, label));
                assert(pair_views(known@) =~= pair_views(before).push((norm@, label@)));
                proof {
                    lemma_push_numbered(kv, norm@, step_id as nat);
                }
            }
        }
        i = end + 2;
    }
}

/// The numbers already given to the equations of the assistant's replies
/// about `step_id`, and how many there are (`reply_equation_context`).
pub fn reply_equation_context(messages: &Vec<ChatMessage>, step_id: usize) -> (r: (
    Vec<(String, String)>,
    usize,
))
    requires
        text_total(messages@) <= usize::MAX,
    ensures
        pair_views(r.0@) == context_of(messages@, step_id),
        r.1 == r.0@.len(),
        well_numbered(pair_views(r.0@), step_id as nat),
        keys_normal(pair_views(r.0@)),
{
    let mut known: Vec<(String, String)> = Vec::new();
    let mut k: usize = 0;
    assert(pair_views(known@) =~= Seq::<(Seq<char>, Seq<char>)>::empty());
    while k < messages.len()
        invariant
            k <= messages.len(),
            text_total(messages@) <= usize::MAX,
            pair_views(known@) == context_of(messages@.take(k as int), step_id),
            known@.len() <= text_total(messages@.take(k as int)),
        decreases messages.len() - k,
    {
        let ghost pre = messages@.take(k as int);
        assert(messages@.take(k + 1).drop_last() =~= pre);
        proof {
            lemma_context_of(pre, step_id);
            lemma_text_total_prefix(messages@, k + 1);
            lemma_context_from(messages@[k as int].text@, step_id as nat, context_of(pre, step_id));
        }
        if messages[k].step_id == step_id && messages[k].role == ChatRole::Assistant {
            add_context(&mut known, &chars_of(messages[k].text.as_str()), step_id);
        }
        k = k + 1;
    }
    assert(messages@.take(messages.len() as int) =~= messages@);
    proof {
        lemma_context_of(messages@, step_id);
        lemma_context_keys(messages@, step_id);
    }
    let n = known.len();
    (known, n)
}

proof fn lemma_text_total_prefix(ms: Seq<ChatMessage>, k: int)
    requires
        0 <= k <= ms.len(),
    ensures
        text_total(ms.take(k)) <= text_total(ms),
    decreases ms.len(),
{
    if k < ms.len() {
        lemma_text_total_prefix(ms.drop_last(), k);
        assert(ms.drop_last().take(k) =~= ms.take(k));
    } else {
        assert(ms.take(k) =~= ms);
    }
}

} // verus!

verus! {

// ---------------------------------------------------------------------------
// Laws of reply numbering
// ---------------------------------------------------------------------------

/// The assistant's replies about `step`, in order.
pub open spec fn replies_on(ms: Seq<ChatMessage>, step: usize) -> Seq<ChatMessage>
    decreases ms.len(),
{
    if ms.len() == 0 {
        Seq::empty()
    } else {
        let r = replies_on(ms.drop_last(), step);
        if ms.last().step_id == step && ms.last().role == ChatRole::Assistant {
            r.push(ms.last())
        } else {
            r
        }
    }
}

/// The equation numbers of a step depend on the assistant's replies about
/// that step alone: questions, and replies about other steps, change
/// nothing.
pub proof fn lemma_context_of_replies(ms: Seq<ChatMessage>, step: usize)
    ensures
        context_of(ms, step) == context_of(replies_on(ms, step), step),
    decreases ms.len(),
{
    if ms.len() > 0 {
        lemma_context_of_replies(ms.drop_last(), step);
        let r = replies_on(ms.drop_last(), step);
        if ms.last().step_id == step && ms.last().role == ChatRole::Assistant {
            assert(r.push(ms.last()).drop_last() =~= r);
            assert(r.push(ms.last()).last() == ms.last());
        }
    }
}

/// Two chats with the same replies about a step number that step's
/// equations alike.
pub proof fn lemma_context_same_replies(ms1: Seq<ChatMessage>, ms2: Seq<ChatMessage>, step: usize)
    requires
        replies_on(ms1, step) == replies_on(ms2, step),
    ensures
        context_of(ms1, step) == context_of(ms2, step),
{
    lemma_context_of_replies(ms1, step);
    lemma_context_of_replies(ms2, step);
}

} // verus!

verus! {

proof fn lemma_word_end(s: Seq<char>, j: int)
    requires
        0 <= j <= s.len(),
    ensures
        j <= word_end(s, j) <= s.len(),
        forall|k: int| j <= k < word_end(s, j) ==> !is_ws(#[trigger] s[k]),
        word_end(s, j) < s.len() ==> is_ws(s[word_end(s, j)]),
    decreases s.len() - j,
{
    if j < s.len() && !is_ws(s[j]) {
        lemma_word_end(s, j + 1);
    }
}

/// A word: not empty, no white space in it.
pub open spec fn is_word(w: Seq<char>) -> bool {
    w.len() > 0 && forall|k: int| 0 <= k < w.len() ==> !is_ws(#[trigger] w[k])
}

proof fn lemma_words_are_words(s: Seq<char>, i: int)
    ensures
        forall|k: int| 0 <= k < words_from(s, i).len() ==> is_word(#[trigger] words_from(s, i)[k]),
    decreases s.len() - i,
{
    if 0 <= i < s.len() {
        if is_ws(s[i]) {
            lemma_words_are_words(s, i + 1);
            assert(words_from(s, i) == words_from(s, i + 1));
        } else {
            let e = word_end(s, i);
            lemma_word_end(s, i);
            lemma_word_end(s, i + 1);
            assert(i < e <= s.len());
            assert(words_from(s, i) == seq![s.subrange(i, e)] + words_from(s, e));
            lemma_words_are_words(s, e);
            let w = s.subrange(i, e);
            let ws = seq![w] + words_from(s, e);
            assert forall|k: int| 0 <= k < ws.len() implies is_word(#[trigger] ws[k]) by {
                if k == 0 {
                    assert forall|m: int| 0 <= m < w.len() implies !is_ws(#[trigger] w[m]) by {
                        assert(w[m] == s[i + m]);
                    }
                } else {
                    assert(ws[k] == words_from(s, e)[k - 1]);
                }
            }
            assert forall|k: int| 0 <= k < words_from(s, i).len() implies is_word(
                #[trigger] words_from(s, i)[k],
            ) by {
                assert(words_from(s, i)[k] == ws[k]);
            }
        }
    }
}

proof fn lemma_word_end_split(a: Seq<char>, b: Seq<char>, i: int)
    requires
        0 <= i <= a.len(),
    ensures
        word_end(a + seq![' '] + b, i) == word_end(a, i),
    decreases a.len() - i,
{
    let s = a + seq![' '] + b;
    if i < a.len() {
        assert(s[i] == a[i]);
        lemma_word_end_split(a, b, i + 1);
    } else {
        assert(s[i] == ' ');
    }
}

proof fn lemma_words_shift(c: Seq<char>, b: Seq<char>, j: int)
    requires
        0 <= j <= b.len(),
    ensures
        words_from(c + b, c.len() + j) == words_from(b, j),
        word_end(c + b, c.len() + j) == c.len() + word_end(b, j),
    decreases b.len() - j,
{
    let s = c + b;
    if j < b.len() {
        assert(s[c.len() + j] == b[j]);
        lemma_words_shift(c, b, j + 1);
        if !is_ws(b[j]) {
            let e = word_end(b, j);
            lemma_word_end(b, j);
            lemma_words_shift(c, b, e);
            assert(s.subrange(c.len() + j, c.len() + e) =~= b.subrange(j, e));
        }
    }
}

proof fn lemma_words_split(a: Seq<char>, b: Seq<char>, i: int)
    requires
        0 <= i <= a.len(),
    ensures
        words_from(a + seq![' '] + b, i) == words_from(a, i) + words_from(b, 0),
    decreases a.len() - i,
{
    let s = a + seq![' '] + b;
    if i == a.len() {
        assert(s[i] == ' ');
        assert(s =~= (a + seq![' ']) + b);
        lemma_words_shift(a + seq![' '], b, 0);
        assert(words_from(a, i) =~= Seq::<Seq<char>>::empty());
        assert(Seq::<Seq<char>>::empty() + words_from(b, 0) =~= words_from(b, 0));
    } else {
        assert(s[i] == a[i]);
        if is_ws(a[i]) {
            lemma_words_split(a, b, i + 1);
        } else {
            let e = word_end(a, i);
            lemma_word_end(a, i);
            lemma_word_end_split(a, b, i);
            lemma_words_split(a, b, e);
            assert(s.subrange(i, e) =~= a.subrange(i, e));
            assert(seq![a.subrange(i, e)] + (words_from(a, e) + words_from(b, 0)) =~= (seq![
                a.subrange(i, e),
            ] + words_from(a, e)) + words_from(b, 0));
        }
    }
}

proof fn lemma_words_of_word(w: Seq<char>)
    requires
        is_word(w),
    ensures
        words_from(w, 0) == seq![w],
{
    lemma_word_end(w, 0);
    assert(word_end(w, 0) == w.len()) by {
        if word_end(w, 0) < w.len() {
            assert(is_ws(w[word_end(w, 0)]));
        }
    }
    assert(w.subrange(0, w.len() as int) =~= w);
    assert(words_from(w, w.len() as int) =~= Seq::<Seq<char>>::empty());
    assert(seq![w] + Seq::<Seq<char>>::empty() =~= seq![w]);
}

/// Words joined by single spaces split back into the same words.
proof fn lemma_words_of_join(ws: Seq<Seq<char>>)
    requires
        forall|k: int| 0 <= k < ws.len() ==> is_word(#[trigger] ws[k]),
    ensures
        words_from(join_seq(ws, seq![' ']), 0) == ws,
    decreases ws.len(),
{
    if ws.len() == 0 {
        assert(words_from(Seq::<char>::empty(), 0) =~= ws);
    } else if ws.len() == 1 {
        assert(is_word(ws[0]));
        lemma_words_of_word(ws[0]);
        assert(seq![ws[0]] =~= ws);
    } else {
        let pre = ws.drop_last();
        assert forall|k: int| 0 <= k < pre.len() implies is_word(#[trigger] pre[k]) by {
            assert(pre[k] == ws[k]);
        }
        lemma_words_of_join(pre);
        let a = join_seq(pre, seq![' ']);
        assert(is_word(ws.last()));
        lemma_words_split(a, ws.last(), 0);
        lemma_words_of_word(ws.last());
        assert(pre + seq![ws.last()] =~= ws);
    }
}

/// Normalizing twice is normalizing once.
pub proof fn lemma_normalized_idempotent(s: Seq<char>)
    ensures
        normalized(normalized(s)) == normalized(s),
{
    lemma_words_are_words(s, 0);
    lemma_words_of_join(words_from(s, 0));
}

proof fn lemma_trim_end_last(t: Seq<char>)
    ensures
        trim_end(t).len() > 0 ==> !is_ws(trim_end(t).last()),
    decreases t.len(),
{
    if t.len() > 0 && is_ws(t.last()) {
        lemma_trim_end_last(t.drop_last());
    }
}

proof fn lemma_words_nonempty(s: Seq<char>, i: int, k: int)
    requires
        0 <= i <= k < s.len(),
        !is_ws(s[k]),
    ensures
        words_from(s, i).len() > 0,
    decreases k - i,
{
    if is_ws(s[i]) {
        lemma_words_nonempty(s, i + 1, k);
    } else {
        lemma_word_end(s, i);
    }
}

/// The normal form of LaTeX that trims to something is not empty.
pub proof fn lemma_normalized_nonempty(s: Seq<char>)
    requires
        trim(s).len() > 0,
    ensures
        normalized(trim(s)).len() > 0,
{
    let t = trim(s);
    lemma_trim_end_last(trim_start(s));
    lemma_words_nonempty(t, 0, t.len() - 1);
    let ws = words_from(t, 0);
    lemma_words_are_words(t, 0);
    assert(is_word(ws[0]));
    lemma_join_len(ws, seq![' ']);
    lemma_total_len_first(ws);
}

} // verus!

verus! {

/// Every known equation is keyed by a non-empty LaTeX text in normal form.
pub open spec fn keys_normal(known: Seq<(Seq<char>, Seq<char>)>) -> bool {
    forall|k: int|
        0 <= k < known.len() ==> (#[trigger] known[k]).0.len() > 0 && normalized(known[k].0)
            == known[k].0
}

proof fn lemma_context_from_keys(rest: Seq<char>, step: nat, known: Seq<(Seq<char>, Seq<char>)>)
    requires
        keys_normal(known),
    ensures
        keys_normal(context_from(rest, step, known)),
    decreases rest.len(),
{
    lemma_find_from(rest, display_delim(), 0);
    if let Some(start) = find_from(rest, display_delim(), 0) {
        if 0 <= start && start + 2 <= rest.len() {
            let after = rest.skip(start + 2);
            lemma_find_from(after, display_delim(), 0);
            if let Some(end) = find_from(after, display_delim(), 0) {
                if 0 <= end && end + 2 <= after.len() {
                    let latex = trim(after.take(end));
                    let tail = after.skip(end + 2);
                    if latex.len() > 0 && lookup(known, normalized(latex)) is None {
                        let key = normalized(latex);
                        let k2 = known.push((key, eq_label(step, (known.len() + 1) as nat)));
                        lemma_normalized_nonempty(after.take(end));
                        lemma_normalized_idempotent(latex);
                        assert forall|k: int| 0 <= k < k2.len() implies (#[trigger] k2[k]).0.len() > 0
                            && normalized(k2[k].0) == k2[k].0 by {
                            if k < known.len() {
                                assert(k2[k] == known[k]);
                            }
                        }
                        lemma_context_from_keys(tail, step, k2);
                    } else {
                        lemma_context_from_keys(tail, step, known);
                    }
                }
            }
        }
    }
}

/// The equations a step's replies have numbered are keyed by non-empty
/// LaTeX in normal form: `normalize_latex` leaves each key as it is.
pub proof fn lemma_context_keys(ms: Seq<ChatMessage>, step: usize)
    ensures
        keys_normal(context_of(ms, step)),
    decreases ms.len(),
{
    if ms.len() > 0 {
        lemma_context_keys(ms.drop_last(), step);
        let m = ms.last();
        if m.step_id == step && m.role == ChatRole::Assistant {
            lemma_context_from_keys(m.text@, step as nat, context_of(ms.drop_last(), step));
        }
    }
}

} // verus!

verus! {

/// The equations of a reply from `rest` on as `reply_from` numbers them, in
/// order: each equation's normal form with the label the reply shows.
pub open spec fn reply_labels(
    rest: Seq<char>,
    step: nat,
    known: Seq<(Seq<char>, Seq<char>)>,
    next: nat,
) -> Seq<(Seq<char>, Seq<char>)>
    decreases rest.len(),
{
    match find_from(rest, display_delim(), 0) {
        None => Seq::empty(),
        Some(start) => if 0 <= start && start + 2 <= rest.len() {
            let after = rest.skip(start + 2);
            match find_from(after, display_delim(), 0) {
                None => Seq::empty(),
                Some(end) => if 0 <= end && end + 2 <= after.len() {
                    let latex = trim(after.take(end));
                    let tail = after.skip(end + 2);
                    if latex.len() == 0 {
                        reply_labels(tail, step, known, next)
                    } else {
                        match lookup(known, normalized(latex)) {
                            Some(num) => seq![(normalized(latex), num)] + reply_labels(
                                tail,
                                step,
                                known,
                                next,
                            ),
                            None => seq![(normalized(latex), eq_label(step, next + 1))]
                                + reply_labels(tail, step, known, next + 1),
                        }
                    }
                } else {
                    Seq::empty()
                },
            }
        } else {
            Seq::empty()
        },
    }
}

/// How many of `labels` are equations that `known` does not hold.
pub open spec fn new_count(labels: Seq<(Seq<char>, Seq<char>)>, known: Seq<(Seq<char>, Seq<char>)>) -> nat
    decreases labels.len(),
{
    if labels.len() == 0 {
        0
    } else {
        (if lookup(known, labels[0].0) is None {
            1nat
        } else {
            0nat
        }) + new_count(labels.drop_first(), known)
    }
}

/// No equation appears twice among `labels`.
pub open spec fn labels_distinct(labels: Seq<(Seq<char>, Seq<char>)>) -> bool {
    forall|i: int, j: int|
        0 <= i < j < labels.len() ==> (#[trigger] labels[i]).0 != (#[trigger] labels[j]).0
}

proof fn lemma_lookup_append(a: Seq<(Seq<char>, Seq<char>)>, b: Seq<(Seq<char>, Seq<char>)>, key: Seq<char>)
    ensures
        lookup(a + b, key) == (if lookup(a, key) is Some {
            lookup(a, key)
        } else {
            lookup(b, key)
        }),
    decreases a.len(),
{
    if a.len() == 0 {
        assert(a + b =~= b);
    } else {
        assert((a + b)[0] == a[0]);
        assert((a + b).drop_first() =~= a.drop_first() + b);
        lemma_lookup_append(a.drop_first(), b, key);
    }
}

proof fn lemma_context_extends(rest: Seq<char>, step: nat, cur: Seq<(Seq<char>, Seq<char>)>)
    ensures
        cur.len() <= context_from(rest, step, cur).len(),
        context_from(rest, step, cur).take(cur.len() as int) == cur,
    decreases rest.len(),
{
    lemma_find_from(rest, display_delim(), 0);
    if let Some(start) = find_from(rest, display_delim(), 0) {
        if 0 <= start && start + 2 <= rest.len() {
            let after = rest.skip(start + 2);
            lemma_find_from(after, display_delim(), 0);
            if let Some(end) = find_from(after, display_delim(), 0) {
                if 0 <= end && end + 2 <= after.len() {
                    let latex = trim(after.take(end));
                    let tail = after.skip(end + 2);
                    if latex.len() > 0 && lookup(cur, normalized(latex)) is None {
                        let c2 = cur.push((normalized(latex), eq_label(step, (cur.len() + 1) as nat)));
                        lemma_context_extends(tail, step, c2);
                        let k = context_from(tail, step, c2);
                        assert(k.take(cur.len() as int) =~= k.take(c2.len() as int).take(
                            cur.len() as int,
                        ));
                        assert(c2.take(cur.len() as int) =~= cur);
                    } else {
                        lemma_context_extends(tail, step, cur);
                    }
                } else {
                    assert(cur.take(cur.len() as int) =~= cur);
                }
            } else {
                assert(cur.take(cur.len() as int) =~= cur);
            }
        } else {
            assert(cur.take(cur.len() as int) =~= cur);
        }
    } else {
        assert(cur.take(cur.len() as int) =~= cur);
    }
}

proof fn lemma_lookup_prefix(k: Seq<(Seq<char>, Seq<char>)>, p: Seq<(Seq<char>, Seq<char>)>, key: Seq<char>)
    requires
        p.len() <= k.len(),
        k.take(p.len() as int) == p,
        lookup(p, key) is Some,
    ensures
        lookup(k, key) == lookup(p, key),
{
    assert(k =~= p + k.skip(p.len() as int));
    lemma_lookup_append(p, k.skip(p.len() as int), key);
}

proof fn lemma_labels_agree(
    rest: Seq<char>,
    step: nat,
    known: Seq<(Seq<char>, Seq<char>)>,
    cur: Seq<(Seq<char>, Seq<char>)>,
)
    requires
        known.len() <= cur.len(),
        cur.take(known.len() as int) == known,
        labels_distinct(reply_labels(rest, step, known, cur.len())),
        forall|i: int|
            0 <= i < reply_labels(rest, step, known, cur.len()).len() && lookup(
                known,
                (#[trigger] reply_labels(rest, step, known, cur.len())[i]).0,
            ) is None ==> lookup(cur, reply_labels(rest, step, known, cur.len())[i].0) is None,
    ensures
        forall|i: int|
            0 <= i < reply_labels(rest, step, known, cur.len()).len() ==> lookup(
                context_from(rest, step, cur),
                (#[trigger] reply_labels(rest, step, known, cur.len())[i]).0,
            ) == Some(reply_labels(rest, step, known, cur.len())[i].1),
        context_from(rest, step, cur).len() == cur.len() + new_count(
            reply_labels(rest, step, known, cur.len()),
            known,
        ),
    decreases rest.len(),
{
    let l = reply_labels(rest, step, known, cur.len());
    lemma_find_from(rest, display_delim(), 0);
    if let Some(start) = find_from(rest, display_delim(), 0) {
        if 0 <= start && start + 2 <= rest.len() {
            let after = rest.skip(start + 2);
            lemma_find_from(after, display_delim(), 0);
            if let Some(end) = find_from(after, display_delim(), 0) {
                if 0 <= end && end + 2 <= after.len() {
                    let latex = trim(after.take(end));
                    let tail = after.skip(end + 2);
                    let key = normalized(latex);
                    if latex.len() == 0 {
                        lemma_labels_agree(tail, step, known, cur);
                    } else if lookup(known, key) is Some {
                        let lt = reply_labels(tail, step, known, cur.len());
                        assert(l == seq![(key, lookup(known, key).unwrap())] + lt);
                        lemma_lookup_prefix(cur, known, key);
                        assert(lookup(cur, key) is Some);
                        assert forall|i: int| 0 <= i < lt.len() && lookup(known, (#[trigger] lt[i]).0)
                            is None implies lookup(cur, lt[i].0) is None by {
                            assert(lt[i] == l[i + 1]);
                        }
                        assert forall|i: int, j: int| 0 <= i < j < lt.len() implies (#[trigger] lt[i]).0
                            != (#[trigger] lt[j]).0 by {
                            assert(lt[i] == l[i + 1] && lt[j] == l[j + 1]);
                        }
                        lemma_labels_agree(tail, step, known, cur);
                        assert(l.drop_first() =~= lt);
                        let k = context_from(tail, step, cur);
                        lemma_context_extends(tail, step, cur);
                        assert(k.take(known.len() as int) =~= k.take(cur.len() as int).take(
                            known.len() as int,
                        ));
                        lemma_lookup_prefix(k, known, key);
                        assert forall|i: int| 0 <= i < l.len() implies lookup(k, (#[trigger] l[i]).0)
                            == Some(l[i].1) by {
                            if i > 0 {
                                assert(l[i] == lt[i - 1]);
                            }
                        }
                    } else {
                        let label = eq_label(step, (cur.len() + 1) as nat);
                        let c2 = cur.push((key, label));
                        let lt = reply_labels(tail, step, known, c2.len());
                        assert(l == seq![(key, label)] + lt);
                        assert(l[0].0 == key);
                        assert(lookup(cur, key) is None);
                        assert(c2.take(known.len() as int) =~= cur.take(known.len() as int));
                        assert forall|i: int| 0 <= i < lt.len() && lookup(known, (#[trigger] lt[i]).0)
                            is None implies lookup(c2, lt[i].0) is None by {
                            assert(lt[i] == l[i + 1]);
                            assert(l[0].0 != l[i + 1].0);
                            lemma_lookup_append(cur, seq![(key, label)], lt[i].0);
                            assert(cur + seq![(key, label)] =~= c2);
                            let one = seq![(key, label)];
                            assert(one[0].0 == key);
                            assert(key != lt[i].0);
                            assert(one.drop_first() =~= Seq::<(Seq<char>, Seq<char>)>::empty());
                            assert(lookup(Seq::<(Seq<char>, Seq<char>)>::empty(), lt[i].0) is None);
                            assert(lookup(one, lt[i].0) is None);
                        }
                        assert forall|i: int, j: int| 0 <= i < j < lt.len() implies (#[trigger] lt[i]).0
                            != (#[trigger] lt[j]).0 by {
                            assert(lt[i] == l[i + 1] && lt[j] == l[j + 1]);
                        }
                        lemma_labels_agree(tail, step, known, c2);
                        assert(l.drop_first() =~= lt);
                        let k = context_from(tail, step, c2);
                        assert(context_from(rest, step, cur) == k);
                        lemma_context_extends(tail, step, c2);
                        lemma_lookup_append(cur, seq![(key, label)], key);
                        assert(cur + seq![(key, label)] =~= c2);
                        assert(lookup(c2, key) == Some(label));
                        lemma_lookup_prefix(k, c2, key);
                        assert forall|i: int| 0 <= i < l.len() implies lookup(k, (#[trigger] l[i]).0)
                            == Some(l[i].1) by {
                            if i > 0 {
                                assert(l[i] == lt[i - 1]);
                            }
                        }
                    }
                }
            }
        }
    }
}

/// Once the assistant's reply about a step is stored, the step's equation
/// numbers give each equation of the reply the number the reply showed for
/// it, and count on by the reply's new equations, as long as no equation
/// appears twice in the reply.
pub proof fn lemma_reply_numbers_stored(ms: Seq<ChatMessage>, m: ChatMessage)
    requires
        m.role == ChatRole::Assistant,
        labels_distinct(
            reply_labels(
                m.text@,
                m.step_id as nat,
                context_of(ms, m.step_id),
                context_of(ms, m.step_id).len(),
            ),
        ),
    ensures
        forall|i: int|
            0 <= i < reply_labels(
                m.text@,
                m.step_id as nat,
                context_of(ms, m.step_id),
                context_of(ms, m.step_id).len(),
            ).len() ==> lookup(
                context_of(ms.push(m), m.step_id),
                (#[trigger] reply_labels(
                    m.text@,
                    m.step_id as nat,
                    context_of(ms, m.step_id),
                    context_of(ms, m.step_id).len(),
                )[i]).0,
            ) == Some(
                reply_labels(
                    m.text@,
                    m.step_id as nat,
                    context_of(ms, m.step_id),
                    context_of(ms, m.step_id).len(),
                )[i].1,
            ),
        context_of(ms.push(m), m.step_id).len() == context_of(ms, m.step_id).len() + new_count(
            reply_labels(
                m.text@,
                m.step_id as nat,
                context_of(ms, m.step_id),
                context_of(ms, m.step_id).len(),
            ),
            context_of(ms, m.step_id),
        ),
{
    let known = context_of(ms, m.step_id);
    assert(ms.push(m).drop_last() =~= ms);
    assert(known.take(known.len() as int) =~= known);
    lemma_labels_agree(m.text@, m.step_id as nat, known, known);
}

} // verus!

verus! {

// ---------------------------------------------------------------------------
// Laws of inline math
// ---------------------------------------------------------------------------

/// No `$` in `s`.
pub open spec fn dollar_free(s: Seq<char>) -> bool {
    forall|k: int| 0 <= k < s.len() ==> #[trigger] s[k] != '$'
}

proof fn lemma_escaped_append(a: Seq<char>, b: Seq<char>, apos: bool)
    ensures
        escaped(a + b, apos) == escaped(a, apos) + escaped(b, apos),
    decreases b.len(),
{
    if b.len() == 0 {
        assert(a + b =~= a);
        assert(escaped(a, apos) + Seq::<char>::empty() =~= escaped(a, apos));
    } else {
        lemma_escaped_append(a, b.drop_last(), apos);
        assert((a + b).drop_last() =~= a + b.drop_last());
        assert((a + b).last() == b.last());
        assert(escaped(a, apos) + escaped(b.drop_last(), apos) + escape_char(b.last(), apos)
            =~= escaped(a, apos) + (escaped(b.drop_last(), apos) + escape_char(b.last(), apos)));
    }
}

proof fn lemma_inline_text(c: Seq<char>, i: int, j: int)
    requires
        0 <= i <= j <= c.len(),
        forall|k: int| i <= k < j ==> #[trigger] c[k] != '$',
    ensures
        inline_from(c, i) == escaped(c.subrange(i, j), true) + inline_from(c, j),
    decreases j - i,
{
    if i == j {
        assert(c.subrange(i, j) =~= Seq::<char>::empty());
        assert(Seq::<char>::empty() + inline_from(c, j) =~= inline_from(c, j));
    } else {
        lemma_inline_text(c, i + 1, j);
        let rest = c.subrange(i + 1, j);
        assert(c.subrange(i, j) =~= seq![c[i]] + rest);
        lemma_escaped_append(seq![c[i]], rest, true);
        let one = seq![c[i]];
        assert(one.drop_last() =~= Seq::<char>::empty());
        assert(one.last() == c[i]);
        assert(escaped(Seq::<char>::empty(), true) == Seq::<char>::empty());
        assert(escaped(one, true) == escaped(one.drop_last(), true) + escape_char(one.last(), true));
        assert(escaped(one, true) =~= escape_char(c[i], true));
        assert(escape_char(c[i], true) + (escaped(rest, true) + inline_from(c, j)) =~= (
        escape_char(c[i], true) + escaped(rest, true)) + inline_from(c, j));
    }
}

proof fn lemma_closing_at(c: Seq<char>, j: int, e: int)
    requires
        0 <= j <= e < c.len(),
        forall|k: int| j <= k < e ==> #[trigger] c[k] != '$',
        c[e] == '$',
        !(e + 1 < c.len() && c[e + 1] == '$'),
    ensures
        closing_dollar(c, j) == Some(e),
    decreases e - j,
{
    if j < e {
        lemma_closing_at(c, j + 1, e);
    }
}

/// A formula between two `$` in text without other `$` is typeset in
/// place: the text around it is escaped, and both delimiters are consumed.
pub proof fn lemma_inline_formula(p: Seq<char>, m: Seq<char>, q: Seq<char>)
    requires
        dollar_free(p),
        dollar_free(m),
        dollar_free(q),
        m.len() > 0,
    ensures
        inline_html(p + seq!['$'] + m + seq!['$'] + q) == escaped(p, true) + inline_math_html(m)
            + escaped(q, true),
{
    let c = p + seq!['$'] + m + seq!['$'] + q;
    let i0 = p.len() as int;
    let e = (p.len() + 1 + m.len()) as int;
    assert forall|k: int| 0 <= k < i0 implies #[trigger] c[k] != '$' by {
        assert(c[k] == p[k]);
    }
    lemma_inline_text(c, 0, i0);
    assert(c.subrange(0, i0) =~= p);
    assert(c[i0] == '$');
    assert(c[i0 + 1] == m[0]);
    assert forall|k: int| i0 + 1 <= k < e implies #[trigger] c[k] != '$' by {
        assert(c[k] == m[k - i0 - 1]);
    }
    assert(c[e] == '$');
    if e + 1 < c.len() {
        assert(c[e + 1] == q[0]);
    }
    lemma_closing_at(c, i0 + 1, e);
    assert(c.subrange(i0 + 1, e) =~= m);
    assert forall|k: int| e + 1 <= k < c.len() implies #[trigger] c[k] != '$' by {
        assert(c[k] == q[k - e - 1]);
    }
    lemma_inline_text(c, e + 1, c.len() as int);
    assert(c.subrange(e + 1, c.len() as int) =~= q);
    assert(inline_from(c, c.len() as int) == Seq::<char>::empty());
    assert(inline_from(c, i0) == inline_math_html(m) + inline_from(c, e + 1));
    assert(escaped(q, true) + Seq::<char>::empty() =~= escaped(q, true));
    assert(escaped(p, true) + (inline_math_html(m) + escaped(q, true)) =~= escaped(p, true)
        + inline_math_html(m) + escaped(q, true));
}

/// Text without `$` is only escaped.
pub proof fn lemma_inline_plain(p: Seq<char>)
    requires
        dollar_free(p),
    ensures
        inline_html(p) == escaped(p, true),
{
    lemma_inline_text(p, 0, p.len() as int);
    assert(p.subrange(0, p.len() as int) =~= p);
    assert(escaped(p, true) + Seq::<char>::empty() =~= escaped(p, true));
}

proof fn lemma_no_closing(c: Seq<char>, j: int)
    requires
        0 <= j,
        forall|k: int| j <= k < c.len() ==> #[trigger] c[k] != '$',
    ensures
        closing_dollar(c, j) is None,
    decreases c.len() - j,
{
    if j < c.len() {
        lemma_no_closing(c, j + 1);
    }
}

/// A `$` that nothing closes stays in the text as it is, and the text on
/// both sides is escaped.
pub proof fn lemma_inline_unclosed(p: Seq<char>, q: Seq<char>)
    requires
        dollar_free(p),
        dollar_free(q),
    ensures
        inline_html(p + seq!['$'] + q) == escaped(p, true) + seq!['$'] + escaped(q, true),
{
    let c = p + seq!['$'] + q;
    let i0 = p.len() as int;
    assert forall|k: int| 0 <= k < i0 implies #[trigger] c[k] != '$' by {
        assert(c[k] == p[k]);
    }
    lemma_inline_text(c, 0, i0);
    assert(c.subrange(0, i0) =~= p);
    assert(c[i0] == '$');
    assert forall|k: int| i0 + 1 <= k < c.len() implies #[trigger] c[k] != '$' by {
        assert(c[k] == q[k - i0 - 1]);
    }
    if i0 + 1 < c.len() {
        assert(c[i0 + 1] == q[0]);
    }
    lemma_no_closing(c, i0 + 1);
    lemma_inline_text(c, i0 + 1, c.len() as int);
    assert(c.subrange(i0 + 1, c.len() as int) =~= q);
    assert(inline_from(c, c.len() as int) == Seq::<char>::empty());
    assert(inline_from(c, i0) == seq!['$'] + inline_from(c, i0 + 1));
    assert(escaped(q, true) + Seq::<char>::empty() =~= escaped(q, true));
    assert(escaped(p, true) + (seq!['$'] + escaped(q, true)) =~= escaped(p, true) + seq!['$']
        + escaped(q, true));
}

} // verus!
