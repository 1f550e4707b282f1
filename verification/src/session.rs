//! A session: the board file's directory, the chat between viewers and the
//! author, the slug of a title, and the header that a new board starts with.
use vstd::prelude::*;
use crate::document::{DocumentView, Theme};
use crate::parser::{
    after_newline, built_blocks, fence_from, front_document, front_fields, front_parts, front_value, is_fence,
    markdown_events, parsed,
};
use crate::text::{
    alphanumeric, char_is_alphanumeric, chars_of, has_at, join_seq, join_vec, lowercase, split_seq,
    is_ws, line_text_end, lines_from, lines_of, newline_from, next_line, push_all, split_vec,
    string_of, strip_char_end, strip_char_start, to_lowercase, trim, trim_end, trim_start,
    copy_range, trim_range,
};

verus! {

// ---------------------------------------------------------------------------
// Chat messages
// ---------------------------------------------------------------------------

/// One message of the chat attached to a step.
#[derive(Debug)]
pub struct ChatMessage {
    pub id: String,
    pub step_id: usize,
    pub role: ChatRole,
    pub text: String,
    pub rendered: String,
    pub timestamp: String,
    pub context: Option<ChatContext>,
}

/// What a viewer had selected when asking.
#[derive(Debug)]
pub struct ChatContext {
    pub selected: Option<String>,
    pub latex: Option<String>,
    pub step_title: Option<String>,
}

impl Default for ChatContext {
    /// No selection, no LaTeX and no step title.
    fn default() -> (c: ChatContext)
        ensures
            c.selected is None,
            c.latex is None,
            c.step_title is None,
    {
        ChatContext { selected: None, latex: None, step_title: None }
    }
}

/// Who wrote a message: a viewer asking, or the assistant answering.
#[derive(Debug, Clone, Copy, PartialEq, Eq, Structural)]
pub enum ChatRole {
    User,
    Assistant,
}

/// All messages of a session, oldest first.
#[derive(Debug)]
pub struct ChatStore {
    pub messages: Vec<ChatMessage>,
}

impl Default for ChatStore {
    /// No messages.
    fn default() -> (s: ChatStore)
        ensures
            s.messages@.len() == 0,
    {
        ChatStore { messages: Vec::new() }
    }
}

/// The role of the last message about `step`, if any.
pub open spec fn last_role(msgs: Seq<ChatMessage>, step: usize) -> Option<ChatRole>
    decreases msgs.len(),
{
    if msgs.len() == 0 {
        None
    } else if msgs.last().step_id == step {
        Some(msgs.last().role)
    } else {
        last_role(msgs.drop_last(), step)
    }
}

/// A step whose last message is a viewer's question, not yet answered.
pub open spec fn is_pending(msgs: Seq<ChatMessage>, step: usize) -> bool {
    last_role(msgs, step) == Some(ChatRole::User)
}

/// The messages of `ms`, in order, whose step is pending in `all`.
pub open spec fn pending_among(ms: Seq<ChatMessage>, all: Seq<ChatMessage>) -> Seq<ChatMessage>
    decreases ms.len(),
{
    if ms.len() == 0 {
        Seq::empty()
    } else if is_pending(all, ms.last().step_id) {
        pending_among(ms.drop_last(), all).push(ms.last())
    } else {
        pending_among(ms.drop_last(), all)
    }
}

/// The messages of `ms`, in order, about `step`.
pub open spec fn about_step(ms: Seq<ChatMessage>, step: usize) -> Seq<ChatMessage>
    decreases ms.len(),
{
    if ms.len() == 0 {
        Seq::empty()
    } else if ms.last().step_id == step {
        about_step(ms.drop_last(), step).push(ms.last())
    } else {
        about_step(ms.drop_last(), step)
    }
}

/// Whether the last message of `msgs` about `step` is from a viewer.
fn pending_step(msgs: &Vec<ChatMessage>, step: usize) -> (b: bool)
    ensures
        b == is_pending(msgs@, step),
{
    let mut k = msgs.len();
    assert(msgs@.take(k as int) =~= msgs@);
    while k > 0
        invariant
            k <= msgs.len(),
            last_role(msgs@, step) == last_role(msgs@.take(k as int), step),
        decreases k,
    {
        assert(msgs@.take(k as int).drop_last() =~= msgs@.take(k - 1));
        if msgs[k - 1].step_id == step {
            return msgs[k - 1].role == ChatRole::User;
        }
        k = k - 1;
    }
    false
}

// ---------------------------------------------------------------------------
// Sessions
// ---------------------------------------------------------------------------

/// A session: its directory and its board file, as path text.
pub struct Session {
    pub dir: String,
    pub board_path: String,
}

/// What std's `Path::join` gives for `name` joined to `dir`, as text: `name`
/// appended to `dir` as a path component, with the platform's separator.
pub uninterp spec fn joined_path(dir: Seq<char>, name: Seq<char>) -> Seq<char>;

/// std's `Path::join` on `dir` and `name`, the result taken back as text
/// (both are UTF-8, so nothing is lost); its answer is named `joined_path`.
#[verifier::external_body]
fn join_path(dir: &str, name: &str) -> (r: String)
    ensures
        r@ == joined_path(dir@, name@),
{
    std::path::Path::new(dir).join(name).to_string_lossy().into_owned()
}

impl Session {
    /// The file that holds the server's process id.
    pub fn pid_path(&self) -> (r: String)
        ensures
            r@ == joined_path(self.dir@, "server.pid"@),
    {
        join_path(self.dir.as_str(), "server.pid")
    }

    /// The file that holds the server's port.
    pub fn port_path(&self) -> (r: String)
        ensures
            r@ == joined_path(self.dir@, "server.port"@),
    {
        join_path(self.dir.as_str(), "server.port")
    }

    /// The file that holds the chat messages.
    pub fn messages_path(&self) -> (r: String)
        ensures
            r@ == joined_path(self.dir@, "messages.json"@),
    {
        join_path(self.dir.as_str(), "messages.json")
    }

    /// The messages of the steps whose last message is a viewer's question,
    /// in their order in `store`.
    pub fn pending_messages(&self, store: ChatStore) -> (r: Vec<ChatMessage>)
        ensures
            r@ == pending_among(store.messages@, store.messages@),
    {
        let all = store.messages;
        let ghost ms = all@;
        let mut flags: Vec<bool> = Vec::new();
        let mut k: usize = 0;
        while k < all.len()
            invariant
                k <= all.len(),
                ms == all@,
                flags@.len() == k,
                forall|j: int| 0 <= j < k ==> flags@[j] == is_pending(ms, #[trigger] ms[j].step_id),
            decreases all.len() - k,
        {
            let p = pending_step(&all, all[k].step_id);
            flags.push(p);
            k = k + 1;
        }
        let mut r: Vec<ChatMessage> = Vec::new();
        let mut i: usize = 0;
        for m in it: all
            invariant
                ms == it.seq(),
                i == it.index(),
                flags@.len() == ms.len(),
                forall|j: int| 0 <= j < ms.len() ==> flags@[j] == is_pending(ms, #[trigger] ms[j].step_id),
                r@ == pending_among(ms.take(it.index() as int), ms),
        {
            assert(ms.take(i + 1).drop_last() =~= ms.take(i as int));
            assert(m == ms[i as int]);
            assert(i < flags.len());
            if flags[i] {
                r.push(m);
            }
            i = i + 1;
        }
        assert(ms.take(ms.len() as int) =~= ms);
        r
    }

    /// The messages about `step_id`, in their order in `store`.
    pub fn messages_for_step(&self, store: ChatStore, step_id: usize) -> (r: Vec<ChatMessage>)
        ensures
            r@ == about_step(store.messages@, step_id),
    {
        let all = store.messages;
        let ghost ms = all@;
        let mut r: Vec<ChatMessage> = Vec::new();
        for m in it: all
            invariant
                ms == it.seq(),
                r@ == about_step(ms.take(it.index() as int), step_id),
        {
            let ghost i = it.index();
            assert(ms.take(i + 1).drop_last() =~= ms.take(i as int));
            assert(m == ms[i as int]);
            if m.step_id == step_id {
                r.push(m);
            }
        }
        assert(ms.take(ms.len() as int) =~= ms);
        r
    }
}

} // verus!

verus! {

// ---------------------------------------------------------------------------
// Slugs
// ---------------------------------------------------------------------------

/// Letters and digits stay, anything else becomes `-`.
pub open spec fn slug_char(c: char) -> char {
    if alphanumeric(c) {
        c
    } else {
        '-'
    }
}

/// The parts that are not empty, in order.
pub open spec fn nonempty_parts(parts: Seq<Seq<char>>) -> Seq<Seq<char>>
    decreases parts.len(),
{
    if parts.len() == 0 {
        Seq::empty()
    } else if parts.last().len() > 0 {
        nonempty_parts(parts.drop_last()).push(parts.last())
    } else {
        nonempty_parts(parts.drop_last())
    }
}

/// The slug of a title: lower case, every run of characters other than
/// letters and digits turned into one `-`, none at either end.
pub open spec fn slug_of(title: Seq<char>) -> Seq<char> {
    join_seq(
        nonempty_parts(split_seq(lowercase(title).map_values(|c: char| slug_char(c)), seq!['-'])),
        seq!['-'],
    )
}

/// The slug of a title, used in session directory names.
pub fn slugify(title: &str) -> (r: String)
    ensures
        r@ == slug_of(title@),
{
    let lower = to_lowercase(title);
    let lc = chars_of(lower.as_str());
    let mut mapped: Vec<char> = Vec::new();
    let mut k: usize = 0;
    while k < lc.len()
        invariant
            k <= lc.len(),
            mapped@ == lc@.take(k as int).map_values(|c: char| slug_char(c)),
        decreases lc.len() - k,
    {
        let c = lc[k];
        let m = if char_is_alphanumeric(c) {
            c
        } else {
            '-'
        };
        mapped.push(m);
        assert(lc@.take(k + 1).map_values(|c: char| slug_char(c)) =~= lc@.take(k as int).map_values(
            |c: char| slug_char(c),
        ).push(m));
        k = k + 1;
    }
    assert(lc@.take(lc.len() as int) =~= lc@);
    let mut dash: Vec<char> = Vec::new();
    dash.push('-');
    assert(dash@ =~= seq!['-']);
    let parts = split_vec(&mapped, &dash);
    let ghost pv = parts@.map_values(|p: Vec<char>| p@);
    let mut kept: Vec<Vec<char>> = Vec::new();
    let mut j: usize = 0;
    while j < parts.len()
        invariant
            j <= parts.len(),
            pv == parts@.map_values(|p: Vec<char>| p@),
            kept@.map_values(|p: Vec<char>| p@) == nonempty_parts(pv.take(j as int)),
        decreases parts.len() - j,
    {
        let ghost before = kept@.map_values(|p: Vec<char>| p@);
        assert(pv.take(j + 1).drop_last() =~= pv.take(j as int));
        if parts[j].len() > 0 {
            let p = crate::text::copy_range(&parts[j], 0, parts[j].len());
            assert(p@ =~= parts@[j as int]@);
            kept.push(p);
            assert(kept@.map_values(|p: Vec<char>| p@) =~= before.push(p@));
        }
        j = j + 1;
    }
    assert(pv.take(parts.len() as int) =~= pv);
    string_of(&join_vec(&kept, &dash))
}

} // verus!

verus! {

/// The pending messages of a step are all its messages when its last
/// message is a question, and none otherwise.
pub proof fn lemma_pending_of_step(ms: Seq<ChatMessage>, all: Seq<ChatMessage>, step: usize)
    ensures
        about_step(pending_among(ms, all), step) == (if is_pending(all, step) {
            about_step(ms, step)
        } else {
            Seq::empty()
        }),
    decreases ms.len(),
{
    if ms.len() > 0 {
        lemma_pending_of_step(ms.drop_last(), all, step);
        let p = pending_among(ms.drop_last(), all);
        if is_pending(all, ms.last().step_id) {
            assert(pending_among(ms, all).drop_last() =~= p);
        }
    }
}

/// Once the assistant answers on a step, none of that step's messages is
/// pending.
pub proof fn lemma_answer_clears_step(ms: Seq<ChatMessage>, reply: ChatMessage)
    requires
        reply.role == ChatRole::Assistant,
    ensures
        about_step(pending_among(ms.push(reply), ms.push(reply)), reply.step_id) == Seq::<
            ChatMessage,
        >::empty(),
{
    let all = ms.push(reply);
    assert(all.drop_last() =~= ms);
    lemma_pending_of_step(all, all, reply.step_id);
}

/// Once a viewer asks on a step, the whole thread of that step is pending,
/// in order, for context.
pub proof fn lemma_question_opens_step(ms: Seq<ChatMessage>, question: ChatMessage)
    requires
        question.role == ChatRole::User,
    ensures
        about_step(pending_among(ms.push(question), ms.push(question)), question.step_id)
            == about_step(ms.push(question), question.step_id),
{
    let all = ms.push(question);
    assert(all.drop_last() =~= ms);
    lemma_pending_of_step(all, all, question.step_id);
}

/// A question or answer on one step leaves the other steps' pending
/// messages as they were.
pub proof fn lemma_other_steps_unchanged(ms: Seq<ChatMessage>, m: ChatMessage, step: usize)
    requires
        step != m.step_id,
    ensures
        about_step(pending_among(ms.push(m), ms.push(m)), step) == about_step(
            pending_among(ms, ms),
            step,
        ),
{
    let all = ms.push(m);
    assert(all.drop_last() =~= ms);
    lemma_pending_of_step(all, all, step);
    lemma_pending_of_step(ms, ms, step);
}

} // verus!

verus! {

/// Every character is a letter or digit, and none is `-`.
pub open spec fn word_chars(p: Seq<char>) -> bool {
    forall|k: int| 0 <= k < p.len() ==> (#[trigger] p[k]) != '-' && alphanumeric(p[k])
}

/// Every character is `-` or a letter or digit.
pub open spec fn dash_or_word(s: Seq<char>) -> bool {
    forall|k: int| 0 <= k < s.len() ==> (#[trigger] s[k]) == '-' || alphanumeric(s[k])
}

proof fn lemma_split_words(s: Seq<char>)
    requires
        dash_or_word(s),
    ensures
        forall|i: int| 0 <= i < split_seq(s, seq!['-']).len() ==> word_chars(
            #[trigger] split_seq(s, seq!['-'])[i],
        ),
    decreases s.len(),
{
    let sep = seq!['-'];
    crate::text::lemma_find_from(s, sep, 0);
    match crate::text::find_from(s, sep, 0) {
        Some(k) => {
            if 0 <= k && k + 1 <= s.len() {
                let head = s.take(k);
                assert forall|j: int| 0 <= j < head.len() implies (#[trigger] head[j]) != '-'
                    && alphanumeric(head[j]) by {
                    assert(head[j] == s[j]);
                    assert(!has_at(s, j, sep));
                    if s[j] == '-' {
                        assert(s.subrange(j, j + 1) =~= sep);
                    }
                }
                let rest = s.skip(k + 1);
                assert forall|j: int| 0 <= j < rest.len() implies (#[trigger] rest[j]) == '-'
                    || alphanumeric(rest[j]) by {
                    assert(rest[j] == s[k + 1 + j]);
                }
                lemma_split_words(rest);
                let parts = split_seq(s, sep);
                assert forall|i: int| 0 <= i < parts.len() implies word_chars(#[trigger] parts[i]) by {
                    if i > 0 {
                        assert(parts[i] == split_seq(rest, sep)[i - 1]);
                    }
                }
            }
        },
        None => {
            assert forall|j: int| 0 <= j < s.len() implies (#[trigger] s[j]) != '-' && alphanumeric(
                s[j],
            ) by {
                assert(!has_at(s, j, sep));
                if s[j] == '-' {
                    assert(s.subrange(j, j + 1) =~= sep);
                }
            }
        },
    }
}

proof fn lemma_nonempty_words(parts: Seq<Seq<char>>)
    requires
        forall|i: int| 0 <= i < parts.len() ==> word_chars(#[trigger] parts[i]),
    ensures
        forall|i: int|
            0 <= i < nonempty_parts(parts).len() ==> word_chars(#[trigger] nonempty_parts(parts)[i])
                && nonempty_parts(parts)[i].len() > 0,
    decreases parts.len(),
{
    if parts.len() > 0 {
        let pre = parts.drop_last();
        assert forall|i: int| 0 <= i < pre.len() implies word_chars(#[trigger] pre[i]) by {
            assert(pre[i] == parts[i]);
        }
        lemma_nonempty_words(pre);
        let last = parts.last();
        assert(word_chars(last));
        let np = nonempty_parts(parts);
        let npre = nonempty_parts(pre);
        if last.len() > 0 {
            assert(np == npre.push(last));
            assert forall|i: int| 0 <= i < np.len() implies word_chars(#[trigger] np[i])
                && np[i].len() > 0 by {
                if i < npre.len() {
                    assert(np[i] == npre[i]);
                }
            }
        } else {
            assert(np == npre);
        }
    }
}

/// A slug-shaped text: `-` neither first nor last nor twice in a row, and
/// every other character a letter or digit.
pub open spec fn slug_shaped(r: Seq<char>) -> bool {
    &&& r.len() > 0 ==> r[0] != '-' && r.last() != '-'
    &&& forall|k: int| 0 <= k < r.len() - 1 ==> !((#[trigger] r[k]) == '-' && r[k + 1] == '-')
    &&& dash_or_word(r)
}

proof fn lemma_join_slug(parts: Seq<Seq<char>>)
    requires
        forall|i: int| 0 <= i < parts.len() ==> word_chars(#[trigger] parts[i]) && parts[i].len() > 0,
    ensures
        slug_shaped(join_seq(parts, seq!['-'])),
        parts.len() > 0 ==> join_seq(parts, seq!['-']).len() > 0,
    decreases parts.len(),
{
    let sep = seq!['-'];
    if parts.len() == 1 {
        let p = parts[0];
        assert(word_chars(p));
        assert(p[0] != '-' && p[p.len() - 1] != '-');
    } else if parts.len() > 1 {
        let pre = parts.drop_last();
        assert forall|i: int| 0 <= i < pre.len() implies word_chars(#[trigger] pre[i]) && pre[i].len()
            > 0 by {
            assert(pre[i] == parts[i]);
        }
        lemma_join_slug(pre);
        let a = join_seq(pre, sep);
        let l = parts.last();
        assert(word_chars(l) && l.len() > 0);
        let r = join_seq(parts, sep);
        assert(r == a + sep + l);
        assert forall|k: int| 0 <= k < r.len() implies (#[trigger] r[k]) == '-' || alphanumeric(r[k]) by {
            if k < a.len() {
                assert(r[k] == a[k]);
            } else if k > a.len() {
                assert(r[k] == l[k - a.len() - 1]);
            }
        }
        assert forall|k: int| 0 <= k < r.len() - 1 implies !((#[trigger] r[k]) == '-' && r[k + 1] == '-') by {
            if k < a.len() - 1 {
                assert(r[k] == a[k] && r[k + 1] == a[k + 1]);
            } else if k == a.len() - 1 {
                assert(r[k] == a.last());
            } else if k == a.len() {
                assert(r[k + 1] == l[0]);
            } else {
                assert(r[k] == l[k - a.len() - 1]);
            }
        }
        assert(r[0] == a[0]);
        assert(r.last() == l.last());
    }
}

/// A slug never starts or ends with `-`, never holds `--`, and holds only
/// `-`, letters and digits.
pub proof fn lemma_slug_shape(title: Seq<char>)
    ensures
        slug_shaped(slug_of(title)),
{
    let mapped = lowercase(title).map_values(|c: char| slug_char(c));
    assert forall|k: int| 0 <= k < mapped.len() implies (#[trigger] mapped[k]) == '-' || alphanumeric(
        mapped[k],
    ) by {}
    lemma_split_words(mapped);
    lemma_nonempty_words(split_seq(mapped, seq!['-']));
    lemma_join_slug(nonempty_parts(split_seq(mapped, seq!['-'])));
}

} // verus!

verus! {

// ---------------------------------------------------------------------------
// A new board
// ---------------------------------------------------------------------------

/// The text a new board starts with: front matter holding its title.
pub open spec fn header_text(title: Seq<char>) -> Seq<char> {
    seq!['-', '-', '-', '\n', 't', 'i', 't', 'l', 'e', ':', ' '] + title + seq![
        '\n',
        '-',
        '-',
        '-',
        '\n',
        '\n',
    ]
}

/// The text a new board starts with (what `Session::create` writes).
pub fn board_header(title: &str) -> (r: String)
    ensures
        r@ == header_text(title@),
{
    let mut out: Vec<char> = Vec::new();
    out.push('-');
    out.push('-');
    out.push('-');
    out.push('\n');
    out.push('t');
    out.push('i');
    out.push('t');
    out.push('l');
    out.push('e');
    out.push(':');
    out.push(' ');
    push_all(&mut out, &chars_of(title));
    out.push('\n');
    out.push('-');
    out.push('-');
    out.push('-');
    out.push('\n');
    out.push('\n');
    assert(out@ =~= header_text(title@));
    string_of(&out)
}

/// The name of a session's directory: the date, `-`, the title's slug.
pub fn session_dir_name(date: &str, title: &str) -> (r: String)
    ensures
        r@ == date@ + seq!['-'] + slug_of(title@),
{
    let mut out = chars_of(date);
    out.push('-');
    push_all(&mut out, &chars_of(slugify(title).as_str()));
    string_of(&out)
}

} // verus!

verus! {

/// A title that the front matter gives back as written: on one line, and
/// neither starting nor ending with white space or a quote.
pub open spec fn plain_title(t: Seq<char>) -> bool {
    &&& forall|k: int| 0 <= k < t.len() ==> #[trigger] t[k] != '\n'
    &&& t.len() > 0 ==> !is_ws(t[0]) && t[0] != '"' && t[0] != '\''
    &&& t.len() > 0 ==> !is_ws(t.last()) && t.last() != '"' && t.last() != '\''
}

proof fn lemma_newline_at(s: Seq<char>, pos: int, end: int)
    requires
        0 <= pos <= end < s.len(),
        s[end] == '\n',
        forall|k: int| pos <= k < end ==> #[trigger] s[k] != '\n',
    ensures
        newline_from(s, pos) == end,
    decreases end - pos,
{
    if pos < end {
        lemma_newline_at(s, pos + 1, end);
    }
}

/// The value of the title line is the title itself.
proof fn lemma_title_line(t: Seq<char>)
    requires
        plain_title(t),
    ensures
        ({
            let line = trim(title_line(t));
            &&& has_at(line, 0, "title:"@)
            &&& line.len() >= 6 && line[0] == 't'
            &&& front_value(line.skip("title:"@.len() as int)) == t
        }),
{
    reveal_strlit("title:");
    let l = title_line(t);
    assert(trim_start(l) == l);
    if t.len() > 0 {
        assert(l.last() == t.last());
        assert(trim_end(l) == l);
        assert(l.subrange(0, 6) =~= "title:"@);
        let v = l.skip(6);
        assert(v.drop_first() =~= t);
        assert(trim_start(v) == trim_start(t));
        assert(trim_start(t) == t);
        assert(trim_end(t) == t);
        assert(strip_char_start(t, '"') == t);
        assert(strip_char_end(t, '"') == t);
        assert(strip_char_start(t, '\'') == t);
        assert(strip_char_end(t, '\'') == t);
    } else {
        assert(l =~= seq!['t', 'i', 't', 'l', 'e', ':', ' ']);
        assert(l.drop_last() =~= seq!['t', 'i', 't', 'l', 'e', ':']);
        assert(trim_end(l.drop_last()) == l.drop_last());
        assert(trim_end(l) == l.drop_last());
        assert(l.drop_last().subrange(0, 6) =~= "title:"@);
        assert(l.drop_last().skip(6) =~= Seq::<char>::empty());
        assert(trim_start(Seq::<char>::empty()) =~= Seq::<char>::empty());
        assert(trim_end(Seq::<char>::empty()) =~= Seq::<char>::empty());
    }
}

/// The title line of a board header.
pub open spec fn title_line(t: Seq<char>) -> Seq<char> {
    seq!['t', 'i', 't', 'l', 'e', ':', ' '] + t
}

/// In the text after the opening `---` line, the closing line is the one
/// after the title line.
proof fn lemma_header_fence(t: Seq<char>, entries: Seq<char>)
    requires
        plain_title(t),
    ensures
        ({
            let l = title_line(t);
            let a = l + seq!['\n', '-', '-', '-', '\n', '\n'] + entries;
            fence_from(a, 0) == Some(l.len() + 1int)
        }),
{
    let l = title_line(t);
    let n = l.len() as int;
    let a = l + seq!['\n', '-', '-', '-', '\n', '\n'] + entries;
    assert forall|k: int| 0 <= k < n implies #[trigger] a[k] != '\n' by {
        assert(a[k] == l[k]);
        if k >= 7 {
            assert(l[k] == t[k - 7]);
        }
    }
    lemma_newline_at(a, 0, n);
    assert(a[n - 1] != '\r') by {
        if t.len() > 0 {
            assert(a[n - 1] == t.last());
        }
    }
    assert(line_text_end(a, 0) == n);
    assert(a.subrange(0, n) =~= l);
    lemma_title_line(t);
    assert(!is_fence(trim(l))) by {
        if trim(l) == seq!['-', '-', '-'] {
            assert(trim(l)[0] == '-');
        }
        if trim(l) == seq!['.', '.', '.'] {
            assert(trim(l)[0] == '.');
        }
    }
    assert(next_line(a, 0) == n + 1);
    lemma_newline_at(a, n + 1, n + 4);
    assert(line_text_end(a, n + 1) == n + 4);
    let fence = a.subrange(n + 1, n + 4);
    assert(fence =~= seq!['-', '-', '-']);
    assert(trim_start(fence) == fence);
    assert(trim_end(fence) == fence);
    assert(is_fence(trim(fence)));
    assert(fence_from(a, n + 1) == Some(n + 1));
}

/// A board header splits into the title line as front matter and, as
/// body, a line break and what follows the header.
proof fn lemma_header_parts(t: Seq<char>, entries: Seq<char>)
    requires
        plain_title(t),
    ensures
        front_parts(header_text(t) + entries) == (
            Some(title_line(t).push('\n')),
            seq!['\n'] + entries,
        ),
{
    let l = title_line(t);
    let n = l.len() as int;
    let a = l + seq!['\n', '-', '-', '-', '\n', '\n'] + entries;
    let content = header_text(t) + entries;
    assert(content =~= seq!['-', '-', '-', '\n'] + a);
    assert(trim_start(content) == content);
    assert(content.subrange(0, 3) =~= seq!['-', '-', '-']);
    let c3 = content.skip(3);
    assert(c3 =~= seq!['\n'] + a);
    assert(!has_at(c3, 0, seq!['\r', '\n'])) by {
        assert(c3.subrange(0, 2)[0] == '\n');
    }
    assert(c3.subrange(0, 1) =~= seq!['\n']);
    assert(c3.skip(1) =~= a);
    assert(after_newline(c3) == Some(a));
    lemma_header_fence(t, entries);
    let fm = a.take(n + 1);
    assert(fm =~= l.push('\n'));
    let rest = a.skip(n + 4);
    assert(rest =~= seq!['\n', '\n'] + entries);
    assert(!has_at(rest, 0, seq!['\r', '\n'])) by {
        assert(rest.subrange(0, 2)[0] == '\n');
    }
    assert(rest.subrange(0, 1) =~= seq!['\n']);
    assert(rest.skip(1) =~= seq!['\n'] + entries);
}

/// The front matter of a board header holds the title, in the dark theme.
proof fn lemma_header_front(t: Seq<char>)
    requires
        plain_title(t),
    ensures
        front_document(title_line(t).push('\n')).title == t,
        front_document(title_line(t).push('\n')).theme == Theme::Dark,
{
    reveal_strlit("title:");
    let l = title_line(t);
    let n = l.len() as int;
    let fm = l.push('\n');
    assert forall|k: int| 0 <= k < n implies #[trigger] fm[k] != '\n' by {
        assert(fm[k] == l[k]);
        if k >= 7 {
            assert(l[k] == t[k - 7]);
        }
    }
    lemma_newline_at(fm, 0, n);
    assert(fm[n - 1] != '\r') by {
        if t.len() > 0 {
            assert(fm[n - 1] == t.last());
        }
    }
    assert(line_text_end(fm, 0) == n);
    assert(next_line(fm, 0) == n + 1);
    assert(fm.subrange(0, n) =~= l);
    assert(lines_from(fm, n + 1) =~= Seq::<Seq<char>>::empty());
    let ls = seq![l];
    assert(lines_of(fm) =~= ls);
    lemma_title_line(t);
    assert(ls.drop_first() =~= Seq::<Seq<char>>::empty());
    assert(ls[0] == l);
    let v = front_value(trim(l).skip("title:"@.len() as int));
    assert(front_fields(ls.drop_first(), v, Theme::Dark) == (v, Theme::Dark));
    assert(front_fields(ls, "Untitled"@, Theme::Dark) == (t, Theme::Dark));
}

/// A board started with the header of a plain title, whatever entries are
/// appended after it, shows that title in the dark theme, and its blocks
/// are those of the entries' markdown.
pub proof fn lemma_board_title(t: Seq<char>, entries: Seq<char>)
    requires
        plain_title(t),
    ensures
        parsed(header_text(t) + entries) == (DocumentView {
            title: t,
            theme: Theme::Dark,
            blocks: built_blocks(Seq::empty(), markdown_events(seq!['\n'] + entries)),
        }),
{
    lemma_header_parts(t, entries);
    lemma_header_front(t);
}

} // verus!

verus! {

// ---------------------------------------------------------------------------
// Creating and finding sessions
// ---------------------------------------------------------------------------

/// The session that `new` starts under the sessions directory `base` on
/// `date`, and the text its board starts with (`Session::create`): the
/// directory `<date>-<slug>` in `base`, the board `board.cb.md` in it, the
/// header holding the title.
pub fn new_session(base: &str, date: &str, title: &str) -> (r: (Session, String))
    ensures
        r.0.dir@ == joined_path(base@, date@ + seq!['-'] + slug_of(title@)),
        r.0.board_path@ == joined_path(r.0.dir@, "board.cb.md"@),
        r.1@ == header_text(title@),
{
    let name = session_dir_name(date, title);
    let dir = join_path(base, name.as_str());
    let board_path = join_path(dir.as_str(), "board.cb.md");
    (Session { dir, board_path }, board_header(title))
}

/// The session that the text of the `current` file names
/// (`Session::find_current`): the trimmed text as its directory, with
/// `board.cb.md` in it as its board.
pub fn session_at(current: &str) -> (r: Session)
    ensures
        r.dir@ == trim(current@),
        r.board_path@ == joined_path(trim(current@), "board.cb.md"@),
{
    let t = chars_of(current);
    let (a, b) = trim_range(&t, 0, t.len());
    assert(t@.subrange(0, t@.len() as int) =~= t@);
    let dir = string_of(&copy_range(&t, a, b));
    let board_path = join_path(dir.as_str(), "board.cb.md");
    Session { dir, board_path }
}

} // verus!
