//! The document model of a board: a title, a theme and a list of blocks.
use vstd::prelude::*;

verus! {

/// A board.
#[derive(Debug, Clone)]
pub struct Document {
    pub title: String,
    pub theme: Theme,
    pub blocks: Vec<Block>,
}

/// The colour theme of a board.
#[derive(Debug, Clone, Copy, PartialEq, Eq, Structural)]
pub enum Theme {
    Dark,
    Light,
}

impl Default for Theme {
    /// The default theme is dark.
    fn default() -> (t: Theme)
        ensures
            t == Theme::Dark,
    {
        Theme::Dark
    }
}

/// One block of a board.
#[derive(Debug, Clone)]
pub enum Block {
    /// A numbered step: a title, display equations and notes.
    Step { id: usize, title: String, equations: Vec<String>, notes: Vec<String>, is_result: bool },
    /// An unnumbered paragraph.
    Prose { content: String },
    /// A section divider.
    Divider,
}

/// A block, with its texts as character sequences.
pub enum BlockView {
    Step {
        id: int,
        title: Seq<char>,
        equations: Seq<Seq<char>>,
        notes: Seq<Seq<char>>,
        is_result: bool,
    },
    Prose { content: Seq<char> },
    Divider,
}

/// The characters of each string.
pub open spec fn texts(v: Seq<String>) -> Seq<Seq<char>> {
    v.map_values(|s: String| s@)
}

impl View for Block {
    type V = BlockView;

    open spec fn view(&self) -> BlockView {
        match self {
            Block::Step { id, title, equations, notes, is_result } => BlockView::Step {
                id: *id as int,
                title: title@,
                equations: texts(equations@),
                notes: texts(notes@),
                is_result: *is_result,
            },
            Block::Prose { content } => BlockView::Prose { content: content@ },
            Block::Divider => BlockView::Divider,
        }
    }
}

/// The views of a list of blocks.
pub open spec fn block_views(v: Seq<Block>) -> Seq<BlockView> {
    v.map_values(|b: Block| b@)
}

/// A document, with its texts as character sequences.
pub struct DocumentView {
    pub title: Seq<char>,
    pub theme: Theme,
    pub blocks: Seq<BlockView>,
}

impl View for Document {
    type V = DocumentView;

    open spec fn view(&self) -> DocumentView {
        DocumentView { title: self.title@, theme: self.theme, blocks: block_views(self.blocks@) }
    }
}

/// The number of steps among `blocks`.
pub open spec fn steps_in(blocks: Seq<BlockView>) -> nat
    decreases blocks.len(),
{
    if blocks.len() == 0 {
        0
    } else {
        steps_in(blocks.drop_last()) + if blocks.last() is Step {
            1nat
        } else {
            0nat
        }
    }
}

impl Document {
    /// An empty document with the given title and the default theme.
    pub fn new(title: &str) -> (d: Document)
        ensures
            d@.title == title@,
            d@.theme == Theme::Dark,
            d@.blocks == Seq::<BlockView>::empty(),
    {
        let d = Document { title: String::from_str(title), theme: Theme::default(), blocks: Vec::new() };
        assert(d@.blocks =~= Seq::<BlockView>::empty());
        d
    }

    /// The number of step blocks.
    pub fn step_count(&self) -> (n: usize)
        ensures
            n == steps_in(self@.blocks),
    {
        let mut n: usize = 0;
        let mut k: usize = 0;
        while k < self.blocks.len()
            invariant
                k <= self.blocks.len(),
                n <= k,
                n == steps_in(block_views(self.blocks@).take(k as int)),
            decreases self.blocks.len() - k,
        {
            let ghost views = block_views(self.blocks@);
            assert(views.take(k + 1).drop_last() =~= views.take(k as int));
            match &self.blocks[k] {
                Block::Step { .. } => {
                    n = n + 1;
                },
                _ => {},
            }
            k = k + 1;
        }
        assert(block_views(self.blocks@).take(self.blocks.len() as int) =~= block_views(
            self.blocks@,
        ));
        n
    }
}

/// What was last selected on the board.
#[derive(Debug, Clone)]
pub struct Selection {
    pub step_id: usize,
    pub title: String,
    pub latex: String,
    pub unicode: String,
    pub formatted: String,
    pub notes: Vec<String>,
    pub selected_at: String,
}

} // verus!
