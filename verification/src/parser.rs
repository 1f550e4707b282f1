//! The `.cb.md` format: YAML-style front matter, then markdown in which
//! `## ` headings start numbered steps, `$$...$$` are display equations,
//! block quotes are notes and rules are dividers.
//!
//! Markdown is tokenized by `pulldown-cmark`; the tokens are turned into
//! blocks by a state machine whose transitions are specified here.
use vstd::prelude::*;
use pulldown_cmark::{Event, Options, Tag, TagEnd};
use crate::document::{
    block_views, steps_in, Block, BlockView, Document, DocumentView, Theme, texts,
};
use crate::text::{
    chars_of, copy_range, has_at, is_whitespace, is_ws, lemma_trim_start_skip, lines_of, lines_vec,
    line_bounds, line_text_end, lit_at, lowercase, next_line, push_all, push_str, string_of,
    strip_char, strip_char_vec, to_lowercase, trim, trim_end, trim_range, trim_start, vec_at,
};

verus! {

// ---------------------------------------------------------------------------
// Front matter
// ---------------------------------------------------------------------------

/// `s` without a leading `\r\n` or `\n`, if it has one.
pub open spec fn after_newline(s: Seq<char>) -> Option<Seq<char>> {
    if has_at(s, 0, seq!['\r', '\n']) {
        Some(s.skip(2))
    } else if has_at(s, 0, seq!['\n']) {
        Some(s.skip(1))
    } else {
        None
    }
}

/// A trimmed line that closes front matter: `---` or `...`.
pub open spec fn is_fence(line: Seq<char>) -> bool {
    line == seq!['-', '-', '-'] || line == seq!['.', '.', '.']
}

/// The start of the first line, at or after `pos`, that closes front matter.
pub open spec fn fence_from(s: Seq<char>, pos: int) -> Option<int>
    decreases s.len() - pos,
{
    if pos < 0 || pos >= s.len() {
        None
    } else if is_fence(trim(s.subrange(pos, line_text_end(s, pos)))) {
        Some(pos)
    } else {
        let n = next_line(s, pos);
        if pos < n <= s.len() {
            fence_from(s, n)
        } else {
            None
        }
    }
}

/// The position of the line that closes front matter (`find_closing_fence`).
pub fn find_closing_fence(s: &Vec<char>) -> (r: Option<usize>)
    ensures
        r matches Some(p) ==> fence_from(s@, 0) == Some(p as int) && p < s.len(),
        r is None ==> fence_from(s@, 0) is None,
{
    let mut dash: Vec<char> = Vec::new();
    dash.push('-');
    dash.push('-');
    dash.push('-');
    let mut dots: Vec<char> = Vec::new();
    dots.push('.');
    dots.push('.');
    dots.push('.');
    let mut pos: usize = 0;
    while pos < s.len()
        invariant
            pos <= s.len(),
            dash@ == seq!['-', '-', '-'],
            dots@ == seq!['.', '.', '.'],
            fence_from(s@, 0) == fence_from(s@, pos as int),
        decreases s.len() - pos,
    {
        let (end, next) = line_bounds(s, pos);
        let (a, b) = trim_range(s, pos, end);
        let line = copy_range(s, a, b);
        if (line.len() == 3 && vec_at(&line, 0, &dash)) || (line.len() == 3 && vec_at(&line, 0, &dots)) {
            assert(line@.subrange(0, 3) =~= line@);
            return Some(pos);
        }
        proof {
            if line@ == dash@ {
                assert(line@.subrange(0, 3) =~= line@);
            }
            if line@ == dots@ {
                assert(line@.subrange(0, 3) =~= line@);
            }
        }
        pos = next;
    }
    None
}

/// Front matter and body of a board: when the text, after leading white
/// space, opens with a `---` line and a later line closes it, the lines in
/// between and the text after the closing line; otherwise no front matter
/// and the whole text.
pub open spec fn front_parts(content: Seq<char>) -> (Option<Seq<char>>, Seq<char>) {
    let t = trim_start(content);
    if !has_at(t, 0, seq!['-', '-', '-']) {
        (None, content)
    } else {
        match after_newline(t.skip(3)) {
            None => (None, content),
            Some(a) => match fence_from(a, 0) {
                None => (None, content),
                Some(p) => if 0 <= p && p + 3 <= a.len() {
                    let rest = a.skip(p + 3);
                    (
                        Some(a.take(p)),
                        match after_newline(rest) {
                            Some(r) => r,
                            None => rest,
                        },
                    )
                } else {
                    (None, content)
                },
            },
        }
    }
}

/// The position after a leading `\r\n` or `\n` at `i`, if there is one.
fn skip_newline(s: &Vec<char>, i: usize) -> (r: Option<usize>)
    requires
        i <= s.len(),
    ensures
        r matches Some(j) ==> j <= s.len() && after_newline(s@.skip(i as int)) == Some(
            s@.skip(j as int),
        ),
        r is None ==> after_newline(s@.skip(i as int)) is None,
{
    let ghost t = s@.skip(i as int);
    if i < s.len() && s.len() - i >= 2 && s[i] == '\r' && s[i + 1] == '\n' {
        assert(t.subrange(0, 2) =~= seq!['\r', '\n']);
        assert(t.skip(2) =~= s@.skip(i + 2));
        return Some(i + 2);
    }
    if i < s.len() && s[i] == '\n' {
        proof {
            if has_at(t, 0, seq!['\r', '\n']) {
                assert(t.subrange(0, 2)[0] == '\r');
            }
        }
        assert(t.subrange(0, 1) =~= seq!['\n']);
        assert(t.skip(1) =~= s@.skip(i + 1));
        return Some(i + 1);
    }
    proof {
        if has_at(t, 0, seq!['\r', '\n']) {
            assert(t.subrange(0, 2)[0] == '\r');
        }
        if has_at(t, 0, seq!['\n']) {
            assert(t.subrange(0, 1)[0] == '\n');
        }
    }
    None
}

/// Splits a board into optional front matter and body (`split_frontmatter`).
pub fn split_frontmatter(content: &str) -> (r: (Option<String>, String))
    ensures
        (match r.0 {
            Some(f) => Some(f@),
            None => None::<Seq<char>>,
        }) == front_parts(content@).0,
        r.1@ == front_parts(content@).1,
{
    let c = chars_of(content);
    let ghost cs = c@;
    let whole = string_of(&c);
    let mut s: usize = 0;
    assert(cs.skip(0) =~= cs);
    while s < c.len() && is_whitespace(c[s])
        invariant
            s <= c.len(),
            cs == c@,
            forall|j: int| 0 <= j < s ==> crate::text::is_ws(#[trigger] cs[j]),
        decreases c.len() - s,
    {
        s = s + 1;
    }
    proof {
        lemma_trim_start_skip(cs, s as int);
    }
    let ghost t = cs.skip(s as int);
    assert(trim_start(t) == t);
    let mut dash: Vec<char> = Vec::new();
    dash.push('-');
    dash.push('-');
    dash.push('-');
    assert(dash@ =~= seq!['-', '-', '-']);
    if !vec_at(&c, s, &dash) {
        proof {
            if has_at(t, 0, seq!['-', '-', '-']) {
                assert(t.subrange(0, 3) =~= cs.subrange(s as int, s + 3));
            }
        }
        return (None, whole);
    }
    assert(t.subrange(0, 3) =~= cs.subrange(s as int, s + 3));
    assert(t.skip(3) =~= cs.skip(s + 3));
    let a0 = match skip_newline(&c, s + 3) {
        Some(j) => j,
        None => {
            return (None, whole);
        },
    };
    let a = copy_range(&c, a0, c.len());
    assert(a@ =~= cs.skip(a0 as int));
    match find_closing_fence(&a) {
        None => (None, whole),
        Some(p) => {
            if p + 3 > a.len() {
                return (None, whole);
            }
            let fm = copy_range(&a, 0, p);
            assert(fm@ =~= a@.take(p as int));
            let rest_start = p + 3;
            let body_start = match skip_newline(&a, rest_start) {
                Some(j) => j,
                None => rest_start,
            };
            let body = copy_range(&a, body_start, a.len());
            assert(body@ =~= a@.skip(body_start as int));
            (Some(string_of(&fm)), string_of(&body))
        },
    }
}

/// A front matter value: trimmed, then stripped of double and single quotes.
pub open spec fn front_value(v: Seq<char>) -> Seq<char> {
    strip_char(strip_char(trim(v), '"'), '\'')
}

/// Title and theme after reading `lines`, starting from `title` and `theme`:
/// a `title:` line sets the title, a `theme:` line whose value is `light`
/// in any case selects the light theme.
pub open spec fn front_fields(lines: Seq<Seq<char>>, title: Seq<char>, theme: Theme) -> (
    Seq<char>,
    Theme,
)
    decreases lines.len(),
{
    if lines.len() == 0 {
        (title, theme)
    } else {
        let line = trim(lines[0]);
        if has_at(line, 0, "title:"@) {
            front_fields(lines.drop_first(), front_value(line.skip("title:"@.len() as int)), theme)
        } else if has_at(line, 0, "theme:"@) {
            let v = lowercase(front_value(line.skip("theme:"@.len() as int)));
            front_fields(
                lines.drop_first(),
                title,
                if v == "light"@ {
                    Theme::Light
                } else {
                    theme
                },
            )
        } else {
            front_fields(lines.drop_first(), title, theme)
        }
    }
}

/// The document that front matter describes, without blocks.
pub open spec fn front_document(fm: Seq<char>) -> DocumentView {
    let f = front_fields(lines_of(fm), "Untitled"@, Theme::Dark);
    DocumentView { title: f.0, theme: f.1, blocks: Seq::empty() }
}

/// Reads `title` and `theme` from front matter (`parse_frontmatter`).
pub fn parse_frontmatter(fm: &str) -> (d: Document)
    ensures
        d@ == front_document(fm@),
{
    let lines = lines_vec(&chars_of(fm));
    let ghost ls = lines@.map_values(|l: Vec<char>| l@);
    let mut title = chars_of("Untitled");
    let mut theme = Theme::default();
    let title_key = chars_of("title:");
    let theme_key = chars_of("theme:");
    let light = String::from_str("light");
    let mut k: usize = 0;
    assert(ls.skip(0) =~= ls);
    while k < lines.len()
        invariant
            k <= lines.len(),
            ls == lines@.map_values(|l: Vec<char>| l@),
            ls == lines_of(fm@),
            title_key@ == "title:"@,
            theme_key@ == "theme:"@,
            light@ == "light"@,
            front_fields(ls.skip(k as int), title@, theme) == front_fields(
                lines_of(fm@),
                "Untitled"@,
                Theme::Dark,
            ),
        decreases lines.len() - k,
    {
        assert(ls.skip(k as int).drop_first() =~= ls.skip(k + 1));
        assert(ls.skip(k as int)[0] == lines@[k as int]@);
        let (a, b) = trim_range(&lines[k], 0, lines[k].len());
        assert(lines@[k as int]@.subrange(0, lines@[k as int]@.len() as int) =~= lines@[k as int]@);
        let line = copy_range(&lines[k], a, b);
        if vec_at(&line, 0, &title_key) {
            let v = copy_range(&line, title_key.len(), line.len());
            assert(v@ =~= line@.skip(title_key@.len() as int));
            let (va, vb) = trim_range(&v, 0, v.len());
            assert(v@.subrange(0, v@.len() as int) =~= v@);
            let vt = copy_range(&v, va, vb);
            title = strip_char_vec(&strip_char_vec(&vt, '"'), '\'');
        } else if vec_at(&line, 0, &theme_key) {
            let v = copy_range(&line, theme_key.len(), line.len());
            assert(v@ =~= line@.skip(theme_key@.len() as int));
            let (va, vb) = trim_range(&v, 0, v.len());
            assert(v@.subrange(0, v@.len() as int) =~= v@);
            let vt = copy_range(&v, va, vb);
            let val = string_of(&strip_char_vec(&strip_char_vec(&vt, '"'), '\''));
            let lower = to_lowercase(val.as_str());
            if lower == light {
                theme = Theme::Light;
            }
        }
        k = k + 1;
    }
    assert(ls.skip(lines.len() as int) =~= Seq::<Seq<char>>::empty());
    let d = Document { title: string_of(&title), theme, blocks: Vec::new() };
    assert(d@.blocks =~= Seq::<BlockView>::empty());
    d
}

// ---------------------------------------------------------------------------
// Markdown events
// ---------------------------------------------------------------------------

/// The markdown events that the board format reads, as plain values.
#[derive(Debug, Clone)]
pub enum MdEvent {
    /// A heading opens; its level and its `{.class}` attributes.
    StartHeading { level: usize, classes: Vec<String> },
    /// A heading closes.
    EndHeading { level: usize },
    StartBlockQuote,
    EndBlockQuote,
    StartParagraph,
    EndParagraph,
    Text(String),
    Code(String),
    InlineMath(String),
    DisplayMath(String),
    SoftBreak,
    HardBreak,
    Rule,
    /// Any other event.
    Other,
}

/// A markdown event, with its texts as character sequences.
pub enum MdEventView {
    StartHeading { level: int, classes: Seq<Seq<char>> },
    EndHeading { level: int },
    StartBlockQuote,
    EndBlockQuote,
    StartParagraph,
    EndParagraph,
    Text(Seq<char>),
    Code(Seq<char>),
    InlineMath(Seq<char>),
    DisplayMath(Seq<char>),
    SoftBreak,
    HardBreak,
    Rule,
    Other,
}

impl View for MdEvent {
    type V = MdEventView;

    open spec fn view(&self) -> MdEventView {
        match self {
            MdEvent::StartHeading { level, classes } => MdEventView::StartHeading {
                level: *level as int,
                classes: texts(classes@),
            },
            MdEvent::EndHeading { level } => MdEventView::EndHeading { level: *level as int },
            MdEvent::StartBlockQuote => MdEventView::StartBlockQuote,
            MdEvent::EndBlockQuote => MdEventView::EndBlockQuote,
            MdEvent::StartParagraph => MdEventView::StartParagraph,
            MdEvent::EndParagraph => MdEventView::EndParagraph,
            MdEvent::Text(t) => MdEventView::Text(t@),
            MdEvent::Code(t) => MdEventView::Code(t@),
            MdEvent::InlineMath(t) => MdEventView::InlineMath(t@),
            MdEvent::DisplayMath(t) => MdEventView::DisplayMath(t@),
            MdEvent::SoftBreak => MdEventView::SoftBreak,
            MdEvent::HardBreak => MdEventView::HardBreak,
            MdEvent::Rule => MdEventView::Rule,
            MdEvent::Other => MdEventView::Other,
        }
    }
}

/// The views of a list of events.
pub open spec fn event_views(v: Seq<MdEvent>) -> Seq<MdEventView> {
    v.map_values(|e: MdEvent| e@)
}

/// The events that `pulldown-cmark` produces for `text` with math, heading
/// attributes and YAML-style metadata blocks enabled.
pub uninterp spec fn markdown_events(text: Seq<char>) -> Seq<MdEventView>;

#[verifier::external_type_specification]
#[verifier::external_body]
pub struct ExEvent<'a>(pulldown_cmark::Event<'a>);

#[verifier::external_type_specification]
#[verifier::external_body]
pub struct ExTag<'a>(pulldown_cmark::Tag<'a>);

#[verifier::external_type_specification]
#[verifier::external_body]
pub struct ExTagEnd(pulldown_cmark::TagEnd);

/// `pulldown_cmark::Parser::new_ext` over `text` with `ENABLE_MATH`,
/// `ENABLE_HEADING_ATTRIBUTES` and `ENABLE_YAML_STYLE_METADATA_BLOCKS`,
/// each event converted to an `MdEvent`; the list is named
/// `markdown_events`. pulldown-cmark's start and end events are balanced
/// (its documentation of `Event::Start`), and a heading holds inline
/// content only, so every closing level-2 heading closes an open one and
/// none is left open at the end.
#[verifier::external_body]
fn tokenize(text: &str) -> (r: Vec<MdEvent>)
    ensures
        event_views(r@) == markdown_events(text@),
        headings_balanced(event_views(r@)),
        !heading_open(event_views(r@)),
{
    let options = Options::ENABLE_MATH | Options::ENABLE_HEADING_ATTRIBUTES
        | Options::ENABLE_YAML_STYLE_METADATA_BLOCKS;
    pulldown_cmark::Parser::new_ext(text, options).map(event_of).collect()
}

/// Converts a `pulldown_cmark::Event`, variant for variant.
#[verifier::external_body]
fn event_of(e: Event) -> MdEvent {
    match e {
        Event::Start(t) => start_of(t),
        Event::End(t) => end_of(t),
        Event::Text(s) => MdEvent::Text(s.to_string()),
        Event::Code(s) => MdEvent::Code(s.to_string()),
        Event::InlineMath(s) => MdEvent::InlineMath(s.to_string()),
        Event::DisplayMath(s) => MdEvent::DisplayMath(s.to_string()),
        Event::SoftBreak => MdEvent::SoftBreak,
        Event::HardBreak => MdEvent::HardBreak,
        Event::Rule => MdEvent::Rule,
        _ => MdEvent::Other,
    }
}

/// Converts the `pulldown_cmark::Tag` of a start event.
#[verifier::external_body]
fn start_of(t: Tag) -> MdEvent {
    match t {
        Tag::Heading { level, classes, .. } => MdEvent::StartHeading {
            level: level as usize,
            classes: classes.iter().map(|c| c.to_string()).collect(),
        },
        Tag::BlockQuote(_) => MdEvent::StartBlockQuote,
        Tag::Paragraph => MdEvent::StartParagraph,
        _ => MdEvent::Other,
    }
}

/// Converts the `pulldown_cmark::TagEnd` of an end event.
#[verifier::external_body]
fn end_of(t: TagEnd) -> MdEvent {
    match t {
        TagEnd::Heading(level) => MdEvent::EndHeading { level: level as usize },
        TagEnd::BlockQuote(_) => MdEvent::EndBlockQuote,
        TagEnd::Paragraph => MdEvent::EndParagraph,
        _ => MdEvent::Other,
    }
}

// ---------------------------------------------------------------------------
// From events to blocks
// ---------------------------------------------------------------------------

/// Where the block builder stands.
#[derive(Debug, Clone, Copy, PartialEq, Eq, Structural)]
pub enum ParseState {
    TopLevel,
    InHeading,
    InStep,
}

/// The state of the block builder, as plain values.
pub struct BuildView {
    pub blocks: Seq<BlockView>,
    pub state: ParseState,
    pub step_count: int,
    pub text: Seq<char>,
    pub in_quote: bool,
    pub title: Seq<char>,
    pub equations: Seq<Seq<char>>,
    pub notes: Seq<Seq<char>>,
    pub is_result: bool,
}

/// The builder before any event, on top of `blocks`.
pub open spec fn initial_build(blocks: Seq<BlockView>) -> BuildView {
    BuildView {
        blocks,
        state: ParseState::TopLevel,
        step_count: 0,
        text: Seq::empty(),
        in_quote: false,
        title: Seq::empty(),
        equations: Seq::empty(),
        notes: Seq::empty(),
        is_result: false,
    }
}

/// A step under construction becomes a block (`flush_step`).
pub open spec fn flushed_step(b: BuildView) -> BuildView {
    if b.state == ParseState::InStep {
        BuildView {
            blocks: b.blocks.push(
                BlockView::Step {
                    id: b.step_count,
                    title: b.title,
                    equations: b.equations,
                    notes: b.notes,
                    is_result: b.is_result,
                },
            ),
            state: ParseState::TopLevel,
            title: Seq::empty(),
            equations: Seq::empty(),
            notes: Seq::empty(),
            is_result: false,
            ..b
        }
    } else {
        b
    }
}

/// Pending top-level text becomes a prose block (`flush_prose`).
pub open spec fn flushed_prose(b: BuildView) -> BuildView {
    if b.state == ParseState::TopLevel {
        BuildView {
            blocks: if trim(b.text).len() > 0 {
                b.blocks.push(BlockView::Prose { content: trim(b.text) })
            } else {
                b.blocks
            },
            text: Seq::empty(),
            ..b
        }
    } else {
        b
    }
}

/// A paragraph or note of text `t`: a note of the current step, or a prose
/// block outside steps.
pub open spec fn with_paragraph(b: BuildView, t: Seq<char>) -> BuildView {
    if t.len() > 0 {
        if b.state == ParseState::InStep {
            BuildView { notes: b.notes.push(t), ..b }
        } else {
            BuildView { blocks: b.blocks.push(BlockView::Prose { content: t }), ..b }
        }
    } else {
        b
    }
}

/// Some class of a heading is `result`.
pub open spec fn has_result_class(classes: Seq<Seq<char>>) -> bool {
    exists|k: int| 0 <= k < classes.len() && classes[k] == "result"@
}

/// The builder after one event.
pub open spec fn fed(b: BuildView, e: MdEventView) -> BuildView {
    match e {
        MdEventView::StartHeading { level, classes } => if level == 2 {
            let f = flushed_prose(flushed_step(b));
            BuildView {
                is_result: has_result_class(classes),
                state: ParseState::InHeading,
                text: Seq::empty(),
                ..f
            }
        } else {
            b
        },
        MdEventView::EndHeading { level } => if level == 2 {
            BuildView {
                title: trim(b.text),
                text: Seq::empty(),
                step_count: b.step_count + 1,
                state: ParseState::InStep,
                ..b
            }
        } else {
            b
        },
        MdEventView::DisplayMath(latex) => if b.state == ParseState::InStep {
            BuildView { equations: b.equations.push(latex), ..b }
        } else {
            b
        },
        MdEventView::InlineMath(latex) => BuildView {
            text: b.text + seq!['$'] + latex + seq!['$'],
            ..b
        },
        MdEventView::StartBlockQuote => BuildView { in_quote: true, text: Seq::empty(), ..b },
        MdEventView::EndBlockQuote => {
            let c = BuildView { in_quote: false, ..b };
            BuildView { text: Seq::empty(), ..with_paragraph(c, trim(b.text)) }
        },
        MdEventView::Rule => {
            let f = flushed_prose(flushed_step(b));
            BuildView { blocks: f.blocks.push(BlockView::Divider), ..f }
        },
        MdEventView::StartParagraph => if !b.in_quote {
            BuildView { text: Seq::empty(), ..b }
        } else {
            b
        },
        MdEventView::EndParagraph => if b.in_quote {
            BuildView { text: b.text.push('\n'), ..b }
        } else {
            BuildView { text: Seq::empty(), ..with_paragraph(b, trim(b.text)) }
        },
        MdEventView::Text(t) => BuildView { text: b.text + t, ..b },
        MdEventView::Code(t) => BuildView { text: b.text + seq!['`'] + t + seq!['`'], ..b },
        MdEventView::SoftBreak => BuildView { text: b.text.push(' '), ..b },
        MdEventView::HardBreak => BuildView { text: b.text.push('\n'), ..b },
        MdEventView::Other => b,
    }
}

/// The builder after a list of events.
pub open spec fn fed_all(b: BuildView, es: Seq<MdEventView>) -> BuildView
    decreases es.len(),
{
    if es.len() == 0 {
        b
    } else {
        fed(fed_all(b, es.drop_last()), es.last())
    }
}

/// The blocks after all events and the final flushes.
pub open spec fn built_blocks(blocks: Seq<BlockView>, es: Seq<MdEventView>) -> Seq<BlockView> {
    flushed_prose(flushed_step(fed_all(initial_build(blocks), es))).blocks
}

/// The block builder.
pub struct ParseBuilder {
    blocks: Vec<Block>,
    state: ParseState,
    step_count: usize,
    text: Vec<char>,
    in_quote: bool,
    title: Vec<char>,
    equations: Vec<String>,
    notes: Vec<String>,
    is_result: bool,
}

impl View for ParseBuilder {
    type V = BuildView;

    closed spec fn view(&self) -> BuildView {
        BuildView {
            blocks: block_views(self.blocks@),
            state: self.state,
            step_count: self.step_count as int,
            text: self.text@,
            in_quote: self.in_quote,
            title: self.title@,
            equations: texts(self.equations@),
            notes: texts(self.notes@),
            is_result: self.is_result,
        }
    }
}

impl ParseBuilder {
    /// `flushed_step`.
    pub fn flush_step(&mut self)
        ensures
            final(self)@ == flushed_step(old(self)@),
    {
        if self.state == ParseState::InStep {
            let ghost before = self@;
            let title = string_of(&self.title);
            let mut equations: Vec<String> = Vec::new();
            std::mem::swap(&mut equations, &mut self.equations);
            let mut notes: Vec<String> = Vec::new();
            std::mem::swap(&mut notes, &mut self.notes);
            let block = Block::Step {
                id: self.step_count,
                title,
                equations,
                notes,
                is_result: self.is_result,
            };
            self.blocks.push(block);
            self.title = Vec::new();
            self.is_result = false;
            self.state = ParseState::TopLevel;
            assert(self@.blocks =~= before.blocks.push(block@));
            assert(self@.equations =~= Seq::<Seq<char>>::empty());
            assert(self@.notes =~= Seq::<Seq<char>>::empty());
            assert(self@ =~= flushed_step(before));
        }
    }

    /// `flushed_prose`.
    pub fn flush_prose(&mut self)
        ensures
            final(self)@ == flushed_prose(old(self)@),
    {
        if self.state == ParseState::TopLevel {
            let ghost before = self@;
            let (a, b) = trim_range(&self.text, 0, self.text.len());
            assert(self.text@.subrange(0, self.text@.len() as int) =~= self.text@);
            if b > a {
                let content = string_of(&copy_range(&self.text, a, b));
                let block = Block::Prose { content };
                self.blocks.push(block);
                assert(self@.blocks =~= before.blocks.push(block@));
            }
            self.text = Vec::new();
            assert(self@ =~= flushed_prose(before));
        }
    }

    /// A paragraph or note of text `t` (`with_paragraph`).
    fn add_paragraph(&mut self, t: Vec<char>)
        ensures
            final(self)@ == with_paragraph(old(self)@, t@),
    {
        if t.len() > 0 {
            let ghost before = self@;
            let s = string_of(&t);
            if self.state == ParseState::InStep {
                self.notes.push(s);
                assert(self@.notes =~= before.notes.push(t@));
            } else {
                let block = Block::Prose { content: s };
                self.blocks.push(block);
                assert(self@.blocks =~= before.blocks.push(block@));
            }
            assert(self@ =~= with_paragraph(before, t@));
        }
    }

    fn trimmed_text(&self) -> (t: Vec<char>)
        ensures
            t@ == trim(self.text@),
    {
        let (a, b) = trim_range(&self.text, 0, self.text.len());
        assert(self.text@.subrange(0, self.text@.len() as int) =~= self.text@);
        copy_range(&self.text, a, b)
    }

    /// Applies one event (`fed`).
    pub fn feed(&mut self, e: MdEvent)
        requires
            old(self)@.step_count < usize::MAX,
        ensures
            final(self)@ == fed(old(self)@, e@),
    {
        let ghost before = self@;
        match e {
            MdEvent::StartHeading { level, classes } => {
                if level == 2 {
                    self.flush_step();
                    self.flush_prose();
                    let r = has_result(&classes);
                    self.is_result = r;
                    self.state = ParseState::InHeading;
                    self.text = Vec::new();
                    assert(self@.text =~= Seq::<char>::empty());
                }
            },
            MdEvent::EndHeading { level } => {
                if level == 2 {
                    self.title = self.trimmed_text();
                    self.text = Vec::new();
                    self.step_count = self.step_count + 1;
                    self.state = ParseState::InStep;
                    assert(self@.text =~= Seq::<char>::empty());
                }
            },
            MdEvent::DisplayMath(latex) => {
                if self.state == ParseState::InStep {
                    self.equations.push(latex);
                    assert(self@.equations =~= before.equations.push(latex@));
                }
            },
            MdEvent::InlineMath(latex) => {
                self.text.push('$');
                push_all(&mut self.text, &chars_of(latex.as_str()));
                self.text.push('$');
                assert(self@.text =~= before.text + seq!['$'] + latex@ + seq!['$']);
            },
            MdEvent::StartBlockQuote => {
                self.in_quote = true;
                self.text = Vec::new();
                assert(self@.text =~= Seq::<char>::empty());
            },
            MdEvent::EndBlockQuote => {
                self.in_quote = false;
                let t = self.trimmed_text();
                self.add_paragraph(t);
                self.text = Vec::new();
                assert(self@.text =~= Seq::<char>::empty());
            },
            MdEvent::Rule => {
                self.flush_step();
                self.flush_prose();
                let ghost f = self@;
                self.blocks.push(Block::Divider);
                assert(self@.blocks =~= f.blocks.push(BlockView::Divider));
            },
            MdEvent::StartParagraph => {
                if !self.in_quote {
                    self.text = Vec::new();
                    assert(self@.text =~= Seq::<char>::empty());
                }
            },
            MdEvent::EndParagraph => {
                if self.in_quote {
                    self.text.push('\n');
                } else {
                    let t = self.trimmed_text();
                    self.add_paragraph(t);
                    self.text = Vec::new();
                    assert(self@.text =~= Seq::<char>::empty());
                }
            },
            MdEvent::Text(t) => {
                push_all(&mut self.text, &chars_of(t.as_str()));
            },
            MdEvent::Code(t) => {
                self.text.push('`');
                push_all(&mut self.text, &chars_of(t.as_str()));
                self.text.push('`');
                assert(self@.text =~= before.text + seq!['`'] + t@ + seq!['`']);
            },
            MdEvent::SoftBreak => {
                self.text.push(' ');
            },
            MdEvent::HardBreak => {
                self.text.push('\n');
            },
            MdEvent::Other => {},
        }
    }
}

/// Whether some class is `result`.
fn has_result(classes: &Vec<String>) -> (b: bool)
    ensures
        b == has_result_class(texts(classes@)),
{
    let result = String::from_str("result");
    let mut k: usize = 0;
    while k < classes.len()
        invariant
            k <= classes.len(),
            result@ == "result"@,
            forall|j: int| 0 <= j < k ==> classes@[j]@ != "result"@,
        decreases classes.len() - k,
    {
        if classes[k] == result {
            assert(texts(classes@)[k as int] == "result"@);
            return true;
        }
        k = k + 1;
    }
    assert forall|j: int| 0 <= j < texts(classes@).len() implies texts(classes@)[j] != "result"@ by {
        assert(texts(classes@)[j] == classes@[j]@);
    }
    false
}

/// Builds the blocks of `events` after those of `doc`, keeping its title
/// and theme.
pub fn document_from_events(doc: Document, events: Vec<MdEvent>) -> (d: Document)
    ensures
        d@.title == doc@.title,
        d@.theme == doc@.theme,
        d@.blocks == built_blocks(doc@.blocks, event_views(events@)),
{
    let Document { title, theme, blocks } = doc;
    let mut b = ParseBuilder {
        blocks,
        state: ParseState::TopLevel,
        step_count: 0,
        text: Vec::new(),
        in_quote: false,
        title: Vec::new(),
        equations: Vec::new(),
        notes: Vec::new(),
        is_result: false,
    };
    let ghost es = event_views(events@);
    assert(b@.equations =~= Seq::<Seq<char>>::empty());
    assert(b@.notes =~= Seq::<Seq<char>>::empty());
    assert(b@ =~= initial_build(block_views(blocks@)));
    let n = events.len();
    for e in it: events
        invariant
            n == es.len(),
            es == event_views(it.seq()),
            b@.step_count <= it.index(),
            b@ == fed_all(initial_build(block_views(blocks@)), es.take(it.index() as int)),
    {
        let ghost k = it.index();
        assert(e@ == es[k as int]);
        assert(es.take(k + 1).drop_last() =~= es.take(k as int));
        b.feed(e);
    }
    assert(es.take(n as int) =~= es);
    b.flush_step();
    b.flush_prose();
    Document { title, theme, blocks: b.blocks }
}

/// The document that a board's text describes.
pub open spec fn parsed(content: Seq<char>) -> DocumentView {
    let parts = front_parts(content);
    let head = match parts.0 {
        Some(fm) => front_document(fm),
        None => DocumentView { title: "Untitled"@, theme: Theme::Dark, blocks: Seq::empty() },
    };
    DocumentView { blocks: built_blocks(head.blocks, markdown_events(parts.1)), ..head }
}

/// Parses a `.cb.md` board into a document. Its steps are numbered 1, 2,
/// 3, ... in order, one for each `##` heading that markdown finds.
pub fn parse(content: &str) -> (d: Document)
    ensures
        d@ == parsed(content@),
        ids_sequential(d@.blocks),
        steps_in(d@.blocks) == closed_headings(markdown_events(front_parts(content@).1)),
{
    let (fm, body) = split_frontmatter(content);
    let doc = match fm {
        Some(f) => parse_frontmatter(f.as_str()),
        None => Document::new("Untitled"),
    };
    let events = tokenize(body.as_str());
    proof {
        lemma_steps_numbered_in_order(event_views(events@));
    }
    document_from_events(doc, events)
}

// ---------------------------------------------------------------------------
// Step numbering
// ---------------------------------------------------------------------------

/// Step ids are at least 1 and increase strictly along the blocks.
pub open spec fn ids_increasing(bs: Seq<BlockView>) -> bool {
    &&& forall|i: int|
        0 <= i < bs.len() && (#[trigger] bs[i]) is Step ==> bs[i]->id >= 1
    &&& forall|i: int, j: int|
        0 <= i < j < bs.len() && (#[trigger] bs[i]) is Step && (#[trigger] bs[j]) is Step
            ==> bs[i]->id < bs[j]->id
}

/// What the builder keeps true about step ids.
pub open spec fn ids_ok(b: BuildView) -> bool {
    &&& ids_increasing(b.blocks)
    &&& b.step_count >= 0
    &&& forall|i: int|
        0 <= i < b.blocks.len() && (#[trigger] b.blocks[i]) is Step ==> b.blocks[i]->id
            <= b.step_count
    &&& b.state == ParseState::InStep ==> b.step_count >= 1 && forall|i: int|
        0 <= i < b.blocks.len() && (#[trigger] b.blocks[i]) is Step ==> b.blocks[i]->id
            < b.step_count
}

proof fn lemma_push_other(bs: Seq<BlockView>, x: BlockView)
    requires
        !(x is Step),
    ensures
        forall|i: int| 0 <= i < bs.len() ==> #[trigger] bs.push(x)[i] == bs[i],
        bs.push(x)[bs.len() as int] == x,
{
}

proof fn lemma_flushed_step_ids(b: BuildView)
    requires
        ids_ok(b),
    ensures
        ids_ok(flushed_step(b)),
        flushed_step(b).step_count == b.step_count,
{
    if b.state == ParseState::InStep {
        let f = flushed_step(b);
        let bs = b.blocks;
        assert forall|i: int| 0 <= i < f.blocks.len() && (#[trigger] f.blocks[i]) is Step implies f.blocks[i]->id
            >= 1 && f.blocks[i]->id <= f.step_count by {
            if i < bs.len() {
                assert(f.blocks[i] == bs[i]);
            }
        }
        assert forall|i: int, j: int|
            0 <= i < j < f.blocks.len() && (#[trigger] f.blocks[i]) is Step && (#[trigger] f.blocks[j]) is Step
                implies f.blocks[i]->id < f.blocks[j]->id by {
            assert(f.blocks[i] == bs[i]);
            if j < bs.len() {
                assert(f.blocks[j] == bs[j]);
            }
        }
    }
}

proof fn lemma_add_other_ids(b: BuildView, c: BuildView, x: BlockView)
    requires
        ids_ok(b),
        !(x is Step),
        c.blocks == b.blocks.push(x),
        c.step_count == b.step_count,
        c.state == b.state,
    ensures
        ids_ok(c),
{
    lemma_push_other(b.blocks, x);
    assert forall|i: int, j: int|
        0 <= i < j < c.blocks.len() && (#[trigger] c.blocks[i]) is Step && (#[trigger] c.blocks[j]) is Step
            implies c.blocks[i]->id < c.blocks[j]->id by {
        assert(c.blocks[i] == b.blocks[i]);
        assert(c.blocks[j] == b.blocks[j]);
    }
}

proof fn lemma_flushed_prose_ids(b: BuildView)
    requires
        ids_ok(b),
    ensures
        ids_ok(flushed_prose(b)),
        flushed_prose(b).step_count == b.step_count,
        flushed_prose(b).state == b.state,
{
    if b.state == ParseState::TopLevel && trim(b.text).len() > 0 {
        lemma_add_other_ids(b, flushed_prose(b), BlockView::Prose { content: trim(b.text) });
    }
}

proof fn lemma_paragraph_ids(b: BuildView, t: Seq<char>)
    requires
        ids_ok(b),
    ensures
        ids_ok(with_paragraph(b, t)),
        with_paragraph(b, t).step_count == b.step_count,
        with_paragraph(b, t).state == b.state,
        with_paragraph(b, t).blocks.len() >= b.blocks.len(),
{
    if t.len() > 0 && b.state != ParseState::InStep {
        lemma_add_other_ids(b, with_paragraph(b, t), BlockView::Prose { content: t });
    }
}

proof fn lemma_fed_ids(b: BuildView, e: MdEventView)
    requires
        ids_ok(b),
    ensures
        ids_ok(fed(b, e)),
        fed(b, e).step_count <= b.step_count + 1,
{
    lemma_flushed_step_ids(b);
    lemma_flushed_prose_ids(flushed_step(b));
    match e {
        MdEventView::StartHeading { level, classes } => {},
        MdEventView::EndHeading { level } => {},
        MdEventView::EndBlockQuote => {
            lemma_paragraph_ids(BuildView { in_quote: false, ..b }, trim(b.text));
        },
        MdEventView::Rule => {
            let f = flushed_prose(flushed_step(b));
            lemma_add_other_ids(f, BuildView { blocks: f.blocks.push(BlockView::Divider), ..f }, BlockView::Divider);
        },
        MdEventView::EndParagraph => {
            if !b.in_quote {
                lemma_paragraph_ids(b, trim(b.text));
            }
        },
        _ => {},
    }
}

proof fn lemma_fed_all_ids(b: BuildView, es: Seq<MdEventView>)
    requires
        ids_ok(b),
    ensures
        ids_ok(fed_all(b, es)),
    decreases es.len(),
{
    if es.len() > 0 {
        lemma_fed_all_ids(b, es.drop_last());
        lemma_fed_ids(fed_all(b, es.drop_last()), es.last());
    }
}

/// Whatever markdown gives, the steps of a parsed board have ids of at
/// least 1 that increase from each step to the next.
pub proof fn lemma_parse_ids_increasing(content: Seq<char>)
    ensures
        ids_increasing(parsed(content).blocks),
{
    let es = markdown_events(front_parts(content).1);
    let b0 = initial_build(Seq::empty());
    lemma_fed_all_ids(b0, es);
    let b = fed_all(b0, es);
    lemma_flushed_step_ids(b);
    lemma_flushed_prose_ids(flushed_step(b));
}

/// After `es`, the last level-2 heading event is an opening one.
pub open spec fn heading_open(es: Seq<MdEventView>) -> bool
    decreases es.len(),
{
    if es.len() == 0 {
        false
    } else {
        match es.last() {
            MdEventView::StartHeading { level, .. } => if level == 2 {
                true
            } else {
                heading_open(es.drop_last())
            },
            MdEventView::EndHeading { level } => if level == 2 {
                false
            } else {
                heading_open(es.drop_last())
            },
            _ => heading_open(es.drop_last()),
        }
    }
}

/// A closing level-2 heading event.
pub open spec fn is_h2_end(e: MdEventView) -> bool {
    e matches MdEventView::EndHeading { level } && level == 2
}

/// Every closing level-2 heading event closes an open one, as in
/// well-nested markdown.
pub open spec fn headings_balanced(es: Seq<MdEventView>) -> bool {
    forall|k: int|
        0 <= k < es.len() && is_h2_end(#[trigger] es[k]) ==> heading_open(es.take(k))
}

/// Step `i` of the blocks has id `1 + ` the number of steps before it.
pub open spec fn ids_sequential(bs: Seq<BlockView>) -> bool {
    forall|i: int|
        0 <= i < bs.len() && (#[trigger] bs[i]) is Step ==> bs[i]->id == steps_in(bs.take(i)) + 1
}

/// The number of closing level-2 heading events.
pub open spec fn closed_headings(es: Seq<MdEventView>) -> nat
    decreases es.len(),
{
    if es.len() == 0 {
        0
    } else {
        closed_headings(es.drop_last()) + (if is_h2_end(es.last()) {
            1nat
        } else {
            0nat
        })
    }
}

/// What the builder keeps true about step numbering on balanced headings.
pub open spec fn numbering_ok(b: BuildView) -> bool {
    &&& ids_sequential(b.blocks)
    &&& b.step_count == steps_in(b.blocks) + (if b.state == ParseState::InStep {
        1int
    } else {
        0int
    })
}

proof fn lemma_steps_push(bs: Seq<BlockView>, x: BlockView)
    ensures
        steps_in(bs.push(x)) == steps_in(bs) + (if x is Step {
            1nat
        } else {
            0nat
        }),
        forall|i: int| 0 <= i <= bs.len() ==> #[trigger] bs.push(x).take(i) == bs.take(i),
{
    assert(bs.push(x).drop_last() =~= bs);
    assert forall|i: int| 0 <= i <= bs.len() implies #[trigger] bs.push(x).take(i) == bs.take(i) by {
        assert(bs.push(x).take(i) =~= bs.take(i));
    }
}

proof fn lemma_push_numbered_block(b: BuildView, c: BuildView, x: BlockView)
    requires
        ids_sequential(b.blocks),
        c.blocks == b.blocks.push(x),
        x is Step ==> x->id == steps_in(b.blocks) + 1,
    ensures
        ids_sequential(c.blocks),
        steps_in(c.blocks) == steps_in(b.blocks) + (if x is Step {
            1nat
        } else {
            0nat
        }),
{
    lemma_steps_push(b.blocks, x);
    assert(b.blocks.take(b.blocks.len() as int) =~= b.blocks);
    assert forall|i: int| 0 <= i < c.blocks.len() && (#[trigger] c.blocks[i]) is Step implies c.blocks[i]->id
        == steps_in(c.blocks.take(i)) + 1 by {
        if i < b.blocks.len() {
            assert(c.blocks[i] == b.blocks[i]);
        }
    }
}

proof fn lemma_flush_numbering(b: BuildView)
    requires
        numbering_ok(b),
    ensures
        numbering_ok(flushed_prose(flushed_step(b))),
        flushed_prose(flushed_step(b)).state == (if b.state == ParseState::InStep {
            ParseState::TopLevel
        } else {
            b.state
        }),
        flushed_prose(flushed_step(b)).step_count == b.step_count,
{
    let f = flushed_step(b);
    if b.state == ParseState::InStep {
        lemma_push_numbered_block(
            b,
            f,
            BlockView::Step {
                id: b.step_count,
                title: b.title,
                equations: b.equations,
                notes: b.notes,
                is_result: b.is_result,
            },
        );
    }
    if f.state == ParseState::TopLevel && trim(f.text).len() > 0 {
        lemma_push_numbered_block(f, flushed_prose(f), BlockView::Prose { content: trim(f.text) });
    }
}

proof fn lemma_paragraph_numbering(b: BuildView, t: Seq<char>)
    requires
        numbering_ok(b),
    ensures
        numbering_ok(with_paragraph(b, t)),
        with_paragraph(b, t).state == b.state,
        with_paragraph(b, t).step_count == b.step_count,
{
    if t.len() > 0 && b.state != ParseState::InStep {
        lemma_push_numbered_block(b, with_paragraph(b, t), BlockView::Prose { content: t });
    }
}

proof fn lemma_fed_all_numbering(es: Seq<MdEventView>)
    requires
        headings_balanced(es),
    ensures
        numbering_ok(fed_all(initial_build(Seq::empty()), es)),
        (fed_all(initial_build(Seq::empty()), es).state == ParseState::InHeading) == heading_open(es),
        fed_all(initial_build(Seq::empty()), es).step_count == closed_headings(es),
    decreases es.len(),
{
    let b0 = initial_build(Seq::empty());
    if es.len() == 0 {
        assert(steps_in(Seq::<BlockView>::empty()) == 0);
    } else {
        let pre = es.drop_last();
        assert forall|k: int|
            0 <= k < pre.len() && is_h2_end(#[trigger] pre[k]) implies heading_open(pre.take(k)) by {
            assert(pre[k] == es[k]);
            assert(pre.take(k) =~= es.take(k));
        }
        lemma_fed_all_numbering(pre);
        let b = fed_all(b0, pre);
        let e = es.last();
        assert(es.take(es.len() - 1) =~= pre);
        lemma_flush_numbering(b);
        match e {
            MdEventView::StartHeading { level, classes } => {},
            MdEventView::EndHeading { level } => {
                if level == 2 {
                    assert(es[es.len() - 1] == e);
                    assert(heading_open(pre));
                }
            },
            MdEventView::EndBlockQuote => {
                lemma_paragraph_numbering(BuildView { in_quote: false, ..b }, trim(b.text));
            },
            MdEventView::Rule => {
                let f = flushed_prose(flushed_step(b));
                lemma_push_numbered_block(f, BuildView { blocks: f.blocks.push(BlockView::Divider), ..f }, BlockView::Divider);
            },
            MdEventView::EndParagraph => {
                if !b.in_quote {
                    lemma_paragraph_numbering(b, trim(b.text));
                }
            },
            _ => {},
        }
    }
}

/// On balanced headings, as markdown gives them, the blocks built from the
/// events number their steps 1, 2, 3, ... in order, one step for each
/// closed `##` heading (unless the events end inside a heading).
pub proof fn lemma_steps_numbered_in_order(es: Seq<MdEventView>)
    requires
        headings_balanced(es),
    ensures
        ids_sequential(built_blocks(Seq::empty(), es)),
        !heading_open(es) ==> steps_in(built_blocks(Seq::empty(), es)) == closed_headings(es),
{
    lemma_fed_all_numbering(es);
    lemma_flush_numbering(fed_all(initial_build(Seq::empty()), es));
}

} // verus!

verus! {

// ---------------------------------------------------------------------------
// Laws of paragraphs
// ---------------------------------------------------------------------------

/// A line of a paragraph: not empty, no white space at either end.
pub open spec fn paragraph_line(l: Seq<char>) -> bool {
    l.len() > 0 && !is_ws(l[0]) && !is_ws(l.last())
}

proof fn lemma_fed_all_push(b: BuildView, es: Seq<MdEventView>, e: MdEventView)
    ensures
        fed_all(b, es.push(e)) == fed(fed_all(b, es), e),
{
    assert(es.push(e).drop_last() =~= es);
    assert(es.push(e).last() == e);
}

/// The events of a two-line paragraph.
pub open spec fn two_line_paragraph(l1: Seq<char>, l2: Seq<char>) -> Seq<MdEventView> {
    seq![
        MdEventView::StartParagraph,
        MdEventView::Text(l1),
        MdEventView::SoftBreak,
        MdEventView::Text(l2),
        MdEventView::EndParagraph,
    ]
}

/// A paragraph whose two lines are `l1` and `l2` reads `l1`, one space,
/// `l2`: inside a step it becomes the step's next note, elsewhere the next
/// prose block; nothing else changes.
pub proof fn lemma_soft_break_is_a_space(b: BuildView, l1: Seq<char>, l2: Seq<char>)
    requires
        !b.in_quote,
        paragraph_line(l1),
        paragraph_line(l2),
    ensures
        ({
            let r = fed_all(b, two_line_paragraph(l1, l2));
            let joined = l1 + seq![' '] + l2;
            &&& b.state == ParseState::InStep ==> r.notes == b.notes.push(joined) && r.blocks
                == b.blocks
            &&& b.state != ParseState::InStep ==> r.blocks == b.blocks.push(
                BlockView::Prose { content: joined },
            ) && r.notes == b.notes
            &&& r.state == b.state && r.text == Seq::<char>::empty()
        }),
{
    let es = two_line_paragraph(l1, l2);
    let e0 = Seq::<MdEventView>::empty();
    assert(fed_all(b, e0) == b);
    lemma_fed_all_push(b, e0, MdEventView::StartParagraph);
    let s1 = e0.push(MdEventView::StartParagraph);
    lemma_fed_all_push(b, s1, MdEventView::Text(l1));
    let s2 = s1.push(MdEventView::Text(l1));
    lemma_fed_all_push(b, s2, MdEventView::SoftBreak);
    let s3 = s2.push(MdEventView::SoftBreak);
    lemma_fed_all_push(b, s3, MdEventView::Text(l2));
    let s4 = s3.push(MdEventView::Text(l2));
    lemma_fed_all_push(b, s4, MdEventView::EndParagraph);
    let s5 = s4.push(MdEventView::EndParagraph);
    assert(s5 =~= es);
    let joined = l1 + seq![' '] + l2;
    let b4 = fed_all(b, s4);
    assert(b4.text =~= joined);
    assert(joined[0] == l1[0]);
    assert(joined.last() == l2.last());
    assert(trim_start(joined) == joined);
    assert(trim_end(joined) == joined);
    assert(trim(joined) == joined);
}

/// A board whose markdown is one two-line paragraph holds one prose block:
/// its two lines joined by one space.
pub proof fn lemma_two_line_prose(l1: Seq<char>, l2: Seq<char>)
    requires
        paragraph_line(l1),
        paragraph_line(l2),
    ensures
        built_blocks(Seq::empty(), two_line_paragraph(l1, l2)) == seq![
            BlockView::Prose { content: l1 + seq![' '] + l2 },
        ],
{
    let b = initial_build(Seq::empty());
    lemma_soft_break_is_a_space(b, l1, l2);
    let r = fed_all(b, two_line_paragraph(l1, l2));
    assert(flushed_step(r) == r);
    assert(trim(r.text) =~= Seq::<char>::empty()) by {
        assert(r.text.len() == 0);
    }
    assert(Seq::<BlockView>::empty().push(BlockView::Prose { content: l1 + seq![' '] + l2 })
        =~= seq![BlockView::Prose { content: l1 + seq![' '] + l2 }]);
}

/// An event that adds to the text of the paragraph it stands in.
pub open spec fn is_inline_event(e: MdEventView) -> bool {
    e is Text || e is Code || e is InlineMath || e is SoftBreak || e is HardBreak
}

/// What an inline event adds to its paragraph: text as it is, code between
/// backticks, inline math between dollars, a soft break as one space and a
/// hard break as a newline.
pub open spec fn inline_piece(e: MdEventView) -> Seq<char> {
    match e {
        MdEventView::Text(t) => t,
        MdEventView::Code(t) => seq!['`'] + t + seq!['`'],
        MdEventView::InlineMath(l) => seq!['$'] + l + seq!['$'],
        MdEventView::SoftBreak => seq![' '],
        MdEventView::HardBreak => seq!['\n'],
        _ => Seq::empty(),
    }
}

/// The pieces of a run of inline events, in order.
pub open spec fn inline_text(es: Seq<MdEventView>) -> Seq<char>
    decreases es.len(),
{
    if es.len() == 0 {
        Seq::empty()
    } else {
        inline_text(es.drop_last()) + inline_piece(es.last())
    }
}

proof fn lemma_inline_run(b: BuildView, es: Seq<MdEventView>)
    requires
        forall|k: int| 0 <= k < es.len() ==> is_inline_event(#[trigger] es[k]),
    ensures
        fed_all(b, es) == (BuildView { text: b.text + inline_text(es), ..b }),
    decreases es.len(),
{
    if es.len() == 0 {
        assert(b.text + Seq::<char>::empty() =~= b.text);
    } else {
        let d = es.drop_last();
        assert forall|k: int| 0 <= k < d.len() implies is_inline_event(#[trigger] d[k]) by {
            assert(d[k] == es[k]);
        }
        lemma_inline_run(b, d);
        let e = es.last();
        assert(is_inline_event(es[es.len() - 1]));
        let t0 = b.text + inline_text(d);
        assert(fed(BuildView { text: t0, ..b }, e).text =~= t0 + inline_piece(e));
        assert(t0 + inline_piece(e) =~= b.text + inline_text(es));
    }
}

/// A paragraph outside a quote reads the pieces of its inline events in
/// order, trimmed at both ends: inside a step that text becomes the step's
/// next note, elsewhere the next prose block, and a blank paragraph adds
/// nothing. The collected text is empty again afterwards.
pub proof fn lemma_paragraph_text(b: BuildView, es: Seq<MdEventView>)
    requires
        !b.in_quote,
        forall|k: int| 0 <= k < es.len() ==> is_inline_event(#[trigger] es[k]),
    ensures
        ({
            let r = fed_all(
                b,
                seq![MdEventView::StartParagraph] + es + seq![MdEventView::EndParagraph],
            );
            let p = trim(inline_text(es));
            &&& p.len() == 0 ==> r.blocks == b.blocks && r.notes == b.notes
            &&& p.len() > 0 && b.state == ParseState::InStep ==> r.notes == b.notes.push(p)
                && r.blocks == b.blocks
            &&& p.len() > 0 && b.state != ParseState::InStep ==> r.blocks == b.blocks.push(
                BlockView::Prose { content: p },
            ) && r.notes == b.notes
            &&& r.state == b.state && r.text == Seq::<char>::empty() && !r.in_quote
        }),
{
    let start = seq![MdEventView::StartParagraph];
    let all = start + es + seq![MdEventView::EndParagraph];
    let b1 = fed(b, MdEventView::StartParagraph);
    assert(fed_all(b, start) == b1) by {
        assert(start.drop_last() =~= Seq::<MdEventView>::empty());
        assert(fed_all(b, Seq::<MdEventView>::empty()) == b);
    }
    assert(b1.text =~= Seq::<char>::empty());
    lemma_inline_run(b1, es);
    lemma_fed_all_concat(b, start, es);
    lemma_fed_all_push(b, start + es, MdEventView::EndParagraph);
    assert(start + es + seq![MdEventView::EndParagraph] =~= (start + es).push(
        MdEventView::EndParagraph,
    ));
    assert(Seq::<char>::empty() + inline_text(es) =~= inline_text(es));
}

proof fn lemma_fed_all_concat(b: BuildView, xs: Seq<MdEventView>, ys: Seq<MdEventView>)
    ensures
        fed_all(b, xs + ys) == fed_all(fed_all(b, xs), ys),
    decreases ys.len(),
{
    if ys.len() == 0 {
        assert(xs + ys =~= xs);
    } else {
        lemma_fed_all_concat(b, xs, ys.drop_last());
        assert((xs + ys).drop_last() =~= xs + ys.drop_last());
        assert((xs + ys).last() == ys.last());
    }
}

} // verus!
