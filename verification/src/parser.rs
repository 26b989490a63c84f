//! The template parser: from template text to a node tree.
//!
//! The model works on the template as a character sequence. `spec_parse`
//! states what a template parses to; `parse` computes it.

use vstd::prelude::*;

use crate::ast::{lemma_nodes_view_push, node_view, nodes_view, Node, SourcePosition, SpecNode, SpecPos};
use crate::error::{
    spec_parse_error, to_parse_error, ParseError, ParseErrorKind, SpecParseError,
    SpecParseErrorKind,
};
use crate::text::{chars_of, is_white_space, str_eq, string_from_range, white_space};

verus! {

// ---------------------------------------------------------------------------
// The model
// ---------------------------------------------------------------------------
/// The opening delimiter a template starts with.
pub open spec fn default_open() -> Seq<char> {
    seq!['{', '{']
}

/// The closing delimiter a template starts with.
pub open spec fn default_close() -> Seq<char> {
    seq!['}', '}']
}

/// `pat` occurs in `s` at index `i`.
pub open spec fn matches_at(s: Seq<char>, i: int, pat: Seq<char>) -> bool {
    0 <= i && i + pat.len() <= s.len() && s.subrange(i, i + pat.len()) == pat
}

/// The first index at or after `from` where `pat` occurs in `s`.
pub open spec fn find_from(s: Seq<char>, from: int, pat: Seq<char>) -> Option<int>
    decreases s.len() - from,
{
    if from < 0 || from > s.len() {
        None
    } else if matches_at(s, from, pat) {
        Some(from)
    } else if from == s.len() {
        None
    } else {
        find_from(s, from + 1, pat)
    }
}

/// `s` without its leading white space.
pub open spec fn trim_start(s: Seq<char>) -> Seq<char>
    decreases s.len(),
{
    if s.len() > 0 && is_white_space(s[0]) {
        trim_start(s.drop_first())
    } else {
        s
    }
}

/// `s` without its trailing white space.
pub open spec fn trim_end(s: Seq<char>) -> Seq<char>
    decreases s.len(),
{
    if s.len() > 0 && is_white_space(s.last()) {
        trim_end(s.drop_last())
    } else {
        s
    }
}

/// `s` without leading and trailing white space.
pub open spec fn trim(s: Seq<char>) -> Seq<char> {
    trim_end(trim_start(s))
}

/// Splitting `s` at white space: the maximal runs of other characters,
/// given the run `cur` read so far and the runs `acc` already complete.
pub open spec fn words_from(s: Seq<char>, cur: Seq<char>, acc: Seq<Seq<char>>) -> Seq<Seq<char>>
    decreases s.len(),
{
    if s.len() == 0 {
        if cur.len() > 0 {
            acc.push(cur)
        } else {
            acc
        }
    } else if is_white_space(s[0]) {
        words_from(
            s.drop_first(),
            Seq::empty(),
            if cur.len() > 0 {
                acc.push(cur)
            } else {
                acc
            },
        )
    } else {
        words_from(s.drop_first(), cur.push(s[0]), acc)
    }
}

/// The maximal runs of non-white-space characters of `s`, in order.
pub open spec fn words(s: Seq<char>) -> Seq<Seq<char>> {
    words_from(s, Seq::empty(), Seq::empty())
}

/// The line and column just after the text `s`.
pub open spec fn position_of(s: Seq<char>) -> SpecPos
    decreases s.len(),
{
    if s.len() == 0 {
        SpecPos { line: 1, column: 1 }
    } else {
        let p = position_of(s.drop_last());
        if s.last() == '\n' {
            SpecPos { line: p.line + 1, column: 1 }
        } else {
            SpecPos { line: p.line, column: p.column + 1 }
        }
    }
}

/// Every character of `s` is a space or a tab.
pub open spec fn all_blank(s: Seq<char>) -> bool {
    forall|i: int| 0 <= i < s.len() ==> #[trigger] s[i] == ' ' || s[i] == '\t'
}

/// The index of the last `c` in `s`.
pub open spec fn last_index_of(s: Seq<char>, c: char) -> Option<int>
    decreases s.len(),
{
    if s.len() == 0 {
        None
    } else if s.last() == c {
        Some(s.len() - 1)
    } else {
        last_index_of(s.drop_last(), c)
    }
}

/// Where the blank run that ends `text_before` begins, when everything from
/// the last line break (or the start) up to the tag is blank.
pub open spec fn standalone_left(text_before: Seq<char>) -> Option<int> {
    let tail_start = match last_index_of(text_before, '\n') {
        Some(i) => i + 1,
        None => 0,
    };
    if all_blank(text_before.skip(tail_start)) {
        Some(tail_start)
    } else {
        None
    }
}

/// The rest of a line before its `\n` is blank, allowing the `\r` of a
/// `\r\n` line end.
pub open spec fn blank_to_line_end(s: Seq<char>) -> bool {
    all_blank(s) || (s.len() > 0 && s.last() == '\r' && all_blank(s.drop_last()))
}

/// How much of `after` a standalone tag consumes: the blanks up to and with
/// the next line break (`\n` or `\r\n`), or up to the end; `None` when
/// something else follows.
pub open spec fn standalone_right(after: Seq<char>) -> Option<int> {
    match find_from(after, 0, seq!['\n']) {
        Some(i) => if blank_to_line_end(after.take(i)) {
            Some(i + 1)
        } else {
            None
        },
        None => if all_blank(after) {
            Some(after.len() as int)
        } else {
            None
        },
    }
}

/// A tag's meaning.
pub enum SpecTag {
    Variable { name: Seq<char>, escape: bool },
    SectionStart { name: Seq<char> },
    Inverted { name: Seq<char> },
    SectionEnd { name: Seq<char> },
    Partial { name: Seq<char> },
    Comment,
    DelimChange { open: Seq<char>, close: Seq<char> },
}

/// Tags that sit on a line of their own are removed with that line.
pub open spec fn is_block_tag(t: SpecTag) -> bool {
    !(t is Variable)
}

/// The name a tag carries, if it is one that must not be empty.
pub open spec fn tag_has_empty_name(t: SpecTag) -> bool {
    match t {
        SpecTag::Variable { name, .. } => name.len() == 0,
        SpecTag::SectionStart { name } => name.len() == 0,
        SpecTag::Inverted { name } => name.len() == 0,
        SpecTag::SectionEnd { name } => name.len() == 0,
        SpecTag::Partial { name } => name.len() == 0,
        _ => false,
    }
}

/// The meaning of a tag's trimmed content `raw`.
pub open spec fn tag_content(raw: Seq<char>) -> Result<SpecTag, SpecParseErrorKind> {
    if raw.len() == 0 {
        Err(SpecParseErrorKind::EmptyTagName)
    } else {
        let first = raw[0];
        let rest = trim(raw.drop_first());
        let parsed = if first == '#' {
            Ok(SpecTag::SectionStart { name: rest })
        } else if first == '^' {
            Ok(SpecTag::Inverted { name: rest })
        } else if first == '/' {
            Ok(SpecTag::SectionEnd { name: rest })
        } else if first == '>' {
            Ok(SpecTag::Partial { name: rest })
        } else if first == '!' {
            Ok(SpecTag::Comment)
        } else if first == '&' {
            Ok(SpecTag::Variable { name: rest, escape: false })
        } else if first == '=' {
            if raw.len() < 2 || raw.last() != '=' {
                Err(SpecParseErrorKind::UnknownDelimiterSyntax)
            } else {
                let parts = words(trim(raw.subrange(1, raw.len() - 1)));
                if parts.len() != 2 {
                    Err(SpecParseErrorKind::UnknownDelimiterSyntax)
                } else {
                    Ok(SpecTag::DelimChange { open: parts[0], close: parts[1] })
                }
            }
        } else {
            Ok(SpecTag::Variable { name: trim(raw), escape: true })
        };
        match parsed {
            Ok(t) => if tag_has_empty_name(t) {
                Err(SpecParseErrorKind::EmptyTagName)
            } else {
                Ok(t)
            },
            Err(k) => Err(k),
        }
    }
}

/// The tag that starts at `tag_start` (where `open` occurs): the index just
/// after it and its meaning. A triple mustache `{{{name}}}` is recognised
/// only while the opening delimiter is `{{`.
pub open spec fn scan_tag(src: Seq<char>, tag_start: int, open: Seq<char>, close: Seq<char>) -> Result<
    (int, SpecTag),
    SpecParseErrorKind,
> {
    let after_open = tag_start + open.len();
    if open == default_open() && after_open < src.len() && src[after_open] == '{' {
        let content_start = after_open + 1;
        let search_close = seq!['}'] + close;
        match find_from(src, content_start, search_close) {
            None => Err(SpecParseErrorKind::UnexpectedEof),
            Some(close_pos) => {
                let name = trim(src.subrange(content_start, close_pos));
                if name.len() == 0 {
                    Err(SpecParseErrorKind::EmptyTagName)
                } else {
                    Ok(
                        (
                            close_pos + search_close.len(),
                            SpecTag::Variable { name, escape: false },
                        ),
                    )
                }
            },
        }
    } else {
        match find_from(src, after_open, close) {
            None => Err(SpecParseErrorKind::UnexpectedEof),
            Some(close_pos) => match tag_content(trim(src.subrange(after_open, close_pos))) {
                Ok(t) => Ok((close_pos + close.len(), t)),
                Err(k) => Err(k),
            },
        }
    }
}

/// A section opened but not yet closed: its name, whether it is inverted,
/// the nodes read before it, and its position.
pub struct SpecFrame {
    pub name: Seq<char>,
    pub inverted: bool,
    pub parent: Seq<SpecNode>,
    pub pos: SpecPos,
}

/// `current` with a text node for `text` when `text` is not empty.
pub open spec fn push_text(current: Seq<SpecNode>, text: Seq<char>) -> Seq<SpecNode> {
    if text.len() > 0 {
        current.push(SpecNode::Text(text))
    } else {
        current
    }
}

/// The end of the template: every section must have been closed.
pub open spec fn finish(stack: Seq<SpecFrame>, current: Seq<SpecNode>) -> Result<
    Seq<SpecNode>,
    SpecParseError,
> {
    if stack.len() == 0 {
        Ok(current)
    } else {
        Err(
            spec_parse_error(
                SpecParseErrorKind::UnbalancedSection { name: stack.last().name },
                stack.last().pos,
            ),
        )
    }
}

/// A line starts at `pos`: it is the template's start or follows a `\n`.
pub open spec fn line_starts_at(src: Seq<char>, pos: int) -> bool {
    pos == 0 || src[pos - 1] == '\n'
}

/// Where the blank run before the tag at `tag_start` begins, when the tag's
/// line holds only blanks before it. The text since the previous tag (which
/// ended at `pos`) is blank from its last line break; with no line break in
/// it, the line must also have started at `pos`, for otherwise the previous
/// tag stands on the same line.
pub open spec fn standalone_start(src: Seq<char>, pos: int, tag_start: int) -> Option<int> {
    match standalone_left(src.subrange(pos, tag_start)) {
        Some(l) => if l > 0 || line_starts_at(src, pos) {
            Some(pos + l)
        } else {
            None
        },
        None => None,
    }
}

/// Where the text before a tag ends and where the tag ends, once a
/// standalone block tag has taken its line's leading blanks and its line
/// break: `(emit_end, tag_end)`. The blanks `src[emit_end..tag_start]` are
/// the tag's indentation (empty when the tag is not standalone).
pub open spec fn tag_layout(src: Seq<char>, pos: int, tag_start: int, raw_end: int, tag: SpecTag) -> (
    int,
    int,
) {
    if is_block_tag(tag) {
        match (standalone_start(src, pos, tag_start), standalone_right(src.skip(raw_end))) {
            (Some(l), Some(r)) => (l, raw_end + r),
            _ => (tag_start, raw_end),
        }
    } else {
        (tag_start, raw_end)
    }
}

/// The effect of a tag on the open sections and the nodes read so far.
pub open spec fn apply_tag(
    tag: SpecTag,
    tag_pos: SpecPos,
    indent: Seq<char>,
    stack: Seq<SpecFrame>,
    cur: Seq<SpecNode>,
) -> Result<(Seq<SpecFrame>, Seq<SpecNode>), SpecParseError> {
    match tag {
        SpecTag::Variable { name, escape } => Ok(
            (stack, cur.push(SpecNode::Variable { name, escape, pos: tag_pos })),
        ),
        SpecTag::SectionStart { name } => Ok(
            (
                stack.push(SpecFrame { name, inverted: false, parent: cur, pos: tag_pos }),
                Seq::empty(),
            ),
        ),
        SpecTag::Inverted { name } => Ok(
            (
                stack.push(SpecFrame { name, inverted: true, parent: cur, pos: tag_pos }),
                Seq::empty(),
            ),
        ),
        SpecTag::SectionEnd { name } => if stack.len() == 0 || stack.last().name != name {
            Err(spec_parse_error(SpecParseErrorKind::UnbalancedSection { name }, tag_pos))
        } else {
            let frame = stack.last();
            Ok(
                (
                    stack.drop_last(),
                    frame.parent.push(
                        SpecNode::Section {
                            name: frame.name,
                            inverted: frame.inverted,
                            children: cur,
                            pos: frame.pos,
                        },
                    ),
                ),
            )
        },
        SpecTag::Partial { name } => Ok(
            (stack, cur.push(SpecNode::Partial { name, indent, pos: tag_pos })),
        ),
        SpecTag::Comment => Ok((stack, cur)),
        SpecTag::DelimChange { .. } => Ok((stack, cur)),
    }
}

/// The delimiters in force after a tag.
pub open spec fn delimiters_after(tag: SpecTag, open: Seq<char>, close: Seq<char>) -> (
    Seq<char>,
    Seq<char>,
) {
    match tag {
        SpecTag::DelimChange { open: new_open, close: new_close } => (new_open, new_close),
        _ => (open, close),
    }
}

/// Parsing `src` from index `pos`, with the delimiters `open` and `close`,
/// the open sections `stack` and the nodes `current` read so far at the
/// innermost level.
pub open spec fn parse_from(
    src: Seq<char>,
    pos: int,
    open: Seq<char>,
    close: Seq<char>,
    stack: Seq<SpecFrame>,
    current: Seq<SpecNode>,
) -> Result<Seq<SpecNode>, SpecParseError>
    decreases src.len() - pos,
    when 0 <= pos <= src.len() && open.len() > 0 && close.len() > 0
{
    match find_from(src, pos, open) {
        None => finish(stack, push_text(current, src.subrange(pos, src.len() as int))),
        Some(tag_start) => {
            let tag_pos = position_of(src.take(tag_start));
            match scan_tag(src, tag_start, open, close) {
                Err(kind) => Err(spec_parse_error(kind, tag_pos)),
                Ok((raw_end, tag)) => {
                    let (emit_end, tag_end) = tag_layout(src, pos, tag_start, raw_end, tag);
                    let cur = push_text(current, src.subrange(pos, emit_end));
                    let indent = src.subrange(emit_end, tag_start);
                    proof {
                        lemma_find_from(src, pos, open);
                        lemma_scan_tag_bounds(src, tag_start, open, close);
                        lemma_tag_layout_bounds(src, pos, tag_start, raw_end, tag);
                    }
                    match apply_tag(tag, tag_pos, indent, stack, cur) {
                        Err(e) => Err(e),
                        Ok((stack2, cur2)) => {
                            let (open2, close2) = delimiters_after(tag, open, close);
                            parse_from(src, tag_end, open2, close2, stack2, cur2)
                        },
                    }
                },
            }
        },
    }
}

/// What a template parses to.
pub open spec fn spec_parse(template: Seq<char>) -> Result<Seq<SpecNode>, SpecParseError> {
    parse_from(
        template,
        0,
        default_open(),
        default_close(),
        Seq::empty(),
        Seq::empty(),
    )
}

// ---------------------------------------------------------------------------
// Facts about the model
// ---------------------------------------------------------------------------
/// `find_from` finds the first occurrence at or after `from`.
pub proof fn lemma_find_from(s: Seq<char>, from: int, pat: Seq<char>)
    requires
        0 <= from <= s.len(),
    ensures
        match find_from(s, from, pat) {
            Some(i) => from <= i <= s.len() && matches_at(s, i, pat) && forall|j: int|
                from <= j < i ==> !#[trigger] matches_at(s, j, pat),
            None => forall|j: int| from <= j <= s.len() ==> !#[trigger] matches_at(s, j, pat),
        },
    decreases s.len() - from,
{
    if !matches_at(s, from, pat) && from < s.len() {
        lemma_find_from(s, from + 1, pat);
    }
}

/// A tag ends after it starts and within the template.
pub proof fn lemma_scan_tag_bounds(src: Seq<char>, tag_start: int, open: Seq<char>, close: Seq<char>)
    requires
        matches_at(src, tag_start, open),
        open.len() > 0,
        close.len() > 0,
    ensures
        scan_tag(src, tag_start, open, close) matches Ok((e, _)) ==> tag_start < e <= src.len(),
{
    let after_open = tag_start + open.len();
    if open == default_open() && after_open < src.len() && src[after_open] == '{' {
        lemma_find_from(src, after_open + 1, seq!['}'] + close);
    } else {
        lemma_find_from(src, after_open, close);
    }
}

/// A standalone tag consumes at most what follows it.
pub proof fn lemma_standalone_right_bounds(after: Seq<char>)
    ensures
        standalone_right(after) matches Some(r) ==> 0 <= r <= after.len(),
{
    lemma_find_from(after, 0, seq!['\n']);
}

/// The runs `words_from` produces are never empty, given that `acc`'s are not.
pub proof fn lemma_words_from_nonempty(s: Seq<char>, cur: Seq<char>, acc: Seq<Seq<char>>)
    requires
        forall|i: int| 0 <= i < acc.len() ==> #[trigger] acc[i].len() > 0,
    ensures
        forall|i: int|
            0 <= i < words_from(s, cur, acc).len() ==> #[trigger] words_from(s, cur, acc)[i].len()
                > 0,
    decreases s.len(),
{
    let acc2 = if cur.len() > 0 {
        acc.push(cur)
    } else {
        acc
    };
    assert forall|i: int| 0 <= i < acc2.len() implies #[trigger] acc2[i].len() > 0 by {
        if i < acc.len() {
            assert(acc2[i] == acc[i]);
        }
    }
    if s.len() == 0 {
        assert(words_from(s, cur, acc) == acc2);
    } else if is_white_space(s[0]) {
        lemma_words_from_nonempty(s.drop_first(), Seq::empty(), acc2);
        assert(words_from(s, cur, acc) == words_from(s.drop_first(), Seq::empty(), acc2));
    } else {
        lemma_words_from_nonempty(s.drop_first(), cur.push(s[0]), acc);
        assert(words_from(s, cur, acc) == words_from(s.drop_first(), cur.push(s[0]), acc));
    }
}

/// New delimiters are never empty.
pub proof fn lemma_tag_content_delims(raw: Seq<char>)
    ensures
        tag_content(raw) matches Ok(SpecTag::DelimChange { open, close }) ==> open.len() > 0
            && close.len() > 0,
{
    if raw.len() >= 2 {
        lemma_words_from_nonempty(trim(raw.subrange(1, raw.len() - 1)), Seq::empty(), Seq::empty());
    }
}

/// New delimiters set by a tag are never empty.
pub proof fn lemma_scan_tag_delims(src: Seq<char>, tag_start: int, open: Seq<char>, close: Seq<char>)
    ensures
        scan_tag(src, tag_start, open, close) matches Ok((_, SpecTag::DelimChange { open: o, close: c }))
            ==> o.len() > 0 && c.len() > 0,
{
    let after_open = tag_start + open.len();
    match find_from(src, after_open, close) {
        Some(close_pos) => lemma_tag_content_delims(trim(src.subrange(after_open, close_pos))),
        None => {},
    }
}

/// The layout of a tag stays between the text start and the template end.
pub proof fn lemma_tag_layout_bounds(src: Seq<char>, pos: int, tag_start: int, raw_end: int, tag: SpecTag)
    requires
        0 <= pos <= tag_start < raw_end <= src.len(),
    ensures
        pos <= tag_layout(src, pos, tag_start, raw_end, tag).0 <= tag_start,
        raw_end <= tag_layout(src, pos, tag_start, raw_end, tag).1 <= src.len(),
{
    let text_before = src.subrange(pos, tag_start);
    lemma_standalone_right_bounds(src.skip(raw_end));
    lemma_standalone_left_bounds(text_before);
}

/// The blank run before a standalone tag lies within the text before it.
pub proof fn lemma_standalone_left_bounds(text_before: Seq<char>)
    ensures
        standalone_left(text_before) matches Some(l) ==> 0 <= l <= text_before.len(),
{
    lemma_last_index_of(text_before, '\n');
}

/// `last_index_of` finds the last occurrence.
pub proof fn lemma_last_index_of(s: Seq<char>, c: char)
    ensures
        match last_index_of(s, c) {
            Some(i) => 0 <= i < s.len() && s[i] == c && forall|j: int|
                i < j < s.len() ==> #[trigger] s[j] != c,
            None => forall|j: int| 0 <= j < s.len() ==> #[trigger] s[j] != c,
        },
    decreases s.len(),
{
    if s.len() > 0 && s.last() != c {
        lemma_last_index_of(s.drop_last(), c);
        assert forall|j: int| 0 <= j < s.len() - 1 implies s.drop_last()[j] == s[j] by {}
    }
}

/// Every tag other than a variable (section start, inverted section start,
/// section end, partial, comment, delimiter change) is laid out alike: on a
/// line of its own it takes the line's leading blanks and its line break,
/// and otherwise nothing around it. In particular an inverted section tag
/// is laid out exactly as a section tag of the same name.
pub proof fn law_block_tags_are_laid_out_alike(
    src: Seq<char>,
    pos: int,
    tag_start: int,
    raw_end: int,
    t1: SpecTag,
    t2: SpecTag,
)
    requires
        !(t1 is Variable),
        !(t2 is Variable),
    ensures
        tag_layout(src, pos, tag_start, raw_end, t1) == tag_layout(src, pos, tag_start, raw_end, t2),
        tag_layout(src, pos, tag_start, raw_end, t1) == match (
            standalone_start(src, pos, tag_start),
            standalone_right(src.skip(raw_end)),
        ) {
            (Some(l), Some(r)) => (l, raw_end + r),
            _ => (tag_start, raw_end),
        },
{
}

/// A variable tag never takes anything around it, even alone on its line.
pub proof fn law_variable_tags_keep_their_line(
    src: Seq<char>,
    pos: int,
    tag_start: int,
    raw_end: int,
    name: Seq<char>,
    escape: bool,
)
    ensures
        tag_layout(src, pos, tag_start, raw_end, SpecTag::Variable { name, escape }) == (
            tag_start,
            raw_end,
        ),
{
}

/// A tag alone on a line that ends in a line break: the blanks before it
/// and everything after it up to and with the `\n` (a `\r\n` included)
/// are taken, for any tag other than a variable.
pub proof fn law_standalone_line_is_taken(
    before: Seq<char>,
    blanks: Seq<char>,
    tag: Seq<char>,
    trailing: Seq<char>,
    crlf: bool,
    rest: Seq<char>,
    t: SpecTag,
)
    requires
        !(t is Variable),
        tag.len() > 0,
        before.len() == 0 || before.last() == '\n',
        all_blank(blanks),
        all_blank(trailing),
    ensures
        ({
            let eol = if crlf {
                seq!['\r', '\n']
            } else {
                seq!['\n']
            };
            let src = before + blanks + tag + trailing + eol + rest;
            let tag_start = before.len() + blanks.len();
            let raw_end = tag_start + tag.len();
            tag_layout(src, before.len() as int, tag_start as int, raw_end as int, t) == (
                before.len() as int,
                (raw_end + trailing.len() + eol.len()) as int,
            )
        }),
{
    let eol = if crlf {
        seq!['\r', '\n']
    } else {
        seq!['\n']
    };
    let src = before + blanks + tag + trailing + eol + rest;
    let pos = before.len() as int;
    let tag_start = before.len() + blanks.len();
    let raw_end = tag_start + tag.len();
    assert(src.subrange(pos, tag_start as int) =~= blanks);
    if pos > 0 {
        assert(src[pos - 1] == before.last());
    }
    lemma_blank_line_start(src, pos, tag_start as int);
    assert(src.skip(raw_end as int) =~= trailing + eol + rest);
    lemma_blank_line_end(trailing, crlf, rest);
}

/// A blank run that starts a line makes a tag after it start its line.
proof fn lemma_blank_line_start(src: Seq<char>, pos: int, tag_start: int)
    requires
        0 <= pos <= tag_start <= src.len(),
        all_blank(src.subrange(pos, tag_start)),
        line_starts_at(src, pos),
    ensures
        standalone_start(src, pos, tag_start) == Some(pos),
{
    let text = src.subrange(pos, tag_start);
    lemma_last_index_of(text, '\n');
    assert(last_index_of(text, '\n') is None) by {
        if last_index_of(text, '\n') is Some {
            let i = last_index_of(text, '\n')->0;
            assert(text[i] == ' ' || text[i] == '\t');
        }
    }
    assert(text.skip(0) =~= text);
}

/// Blanks and a line end (`\n` or `\r\n`) after a tag are all taken.
proof fn lemma_blank_line_end(trailing: Seq<char>, crlf: bool, rest: Seq<char>)
    requires
        all_blank(trailing),
    ensures
        ({
            let eol = if crlf {
                seq!['\r', '\n']
            } else {
                seq!['\n']
            };
            standalone_right(trailing + eol + rest) == Some((trailing.len() + eol.len()) as int)
        }),
{
    let eol = if crlf {
        seq!['\r', '\n']
    } else {
        seq!['\n']
    };
    let after = trailing + eol + rest;
    let k = trailing.len() + eol.len() - 1;
    assert forall|j: int| 0 <= j < k implies #[trigger] after[j] != '\n' by {
        if j < trailing.len() {
            assert(after[j] == trailing[j]);
        } else {
            assert(after[j] == eol[j - trailing.len()]);
        }
    }
    lemma_first_line_break(after, k);
    let line = after.take(k);
    if crlf {
        assert(line.drop_last() =~= trailing);
        assert(line.last() == '\r');
    } else {
        assert(line =~= trailing);
    }
    assert(blank_to_line_end(line));
}

/// The first `\n` of `s` is at `k` when none comes before it.
proof fn lemma_first_line_break(s: Seq<char>, k: int)
    requires
        0 <= k < s.len(),
        s[k] == '\n',
        forall|j: int| 0 <= j < k ==> #[trigger] s[j] != '\n',
    ensures
        find_from(s, 0, seq!['\n']) == Some(k),
{
    assert(s.subrange(k, k + 1) =~= seq!['\n']);
    assert forall|j: int| 0 <= j < k implies !#[trigger] matches_at(s, j, seq!['\n']) by {
        if matches_at(s, j, seq!['\n']) {
            assert(s.subrange(j, j + 1)[0] == s[j]);
        }
    }
    assert(matches_at(s, k, seq!['\n']));
    lemma_find_from(s, 0, seq!['\n']);
    match find_from(s, 0, seq!['\n']) {
        Some(i) => {
            if i < k {
                assert(!matches_at(s, i, seq!['\n']));
            }
            if i > k {
                assert(!matches_at(s, k, seq!['\n']));
            }
        },
        None => {
            assert(!matches_at(s, k, seq!['\n']));
        },
    }
}

// ---------------------------------------------------------------------------
// Scanning helpers
// ---------------------------------------------------------------------------
/// An optional index as an integer.
pub open spec fn opt_int(o: Option<usize>) -> Option<int> {
    match o {
        Some(i) => Some(i as int),
        None => None,
    }
}

/// Whether `pat` occurs in `src` at `i`.
fn matches_here(src: &Vec<char>, i: usize, pat: &Vec<char>) -> (b: bool)
    requires
        i <= src.len(),
    ensures
        b == matches_at(src@, i as int, pat@),
{
    if pat.len() > src.len() - i {
        return false;
    }
    let mut k: usize = 0;
    while k < pat.len()
        invariant
            i + pat.len() <= src.len(),
            k <= pat.len(),
            src@.subrange(i as int, i + k) == pat@.take(k as int),
        decreases pat.len() - k,
    {
        if src[i + k] != pat[k] {
            assert(src@.subrange(i as int, i + pat.len())[k as int] != pat@[k as int]);
            return false;
        }
        k = k + 1;
        assert(src@.subrange(i as int, i + k) =~= pat@.take(k as int));
    }
    assert(pat@.take(pat.len() as int) =~= pat@);
    true
}

/// The first index at or after `from` where `pat` occurs in `src`.
fn find_at(src: &Vec<char>, from: usize, pat: &Vec<char>) -> (r: Option<usize>)
    requires
        from <= src.len(),
    ensures
        opt_int(r) == find_from(src@, from as int, pat@),
{
    let mut i = from;
    loop
        invariant
            from <= i <= src.len(),
            find_from(src@, from as int, pat@) == find_from(src@, i as int, pat@),
        decreases src.len() - i,
    {
        if matches_here(src, i, pat) {
            return Some(i);
        }
        if i == src.len() {
            return None;
        }
        i = i + 1;
    }
}

/// The bounds of `src[lo..hi]` without leading and trailing white space.
fn trim_range(src: &Vec<char>, lo: usize, hi: usize) -> (r: (usize, usize))
    requires
        lo <= hi <= src.len(),
    ensures
        lo <= r.0 <= r.1 <= hi,
        src@.subrange(r.0 as int, r.1 as int) == trim(src@.subrange(lo as int, hi as int)),
{
    let mut a = lo;
    while a < hi && white_space(src[a])
        invariant
            lo <= a <= hi <= src.len(),
            trim_start(src@.subrange(lo as int, hi as int)) == trim_start(
                src@.subrange(a as int, hi as int),
            ),
        decreases hi - a,
    {
        assert(src@.subrange(a as int, hi as int).drop_first() =~= src@.subrange(
            a + 1,
            hi as int,
        ));
        a = a + 1;
    }
    let mut b = hi;
    while b > a && white_space(src[b - 1])
        invariant
            lo <= a <= b <= hi <= src.len(),
            trim_end(src@.subrange(a as int, hi as int)) == trim_end(
                src@.subrange(a as int, b as int),
            ),
        decreases b - a,
    {
        assert(src@.subrange(a as int, b as int).drop_last() =~= src@.subrange(
            a as int,
            b - 1,
        ));
        b = b - 1;
    }
    (a, b)
}

/// Lines and columns never exceed one more than the text's length.
pub proof fn lemma_position_bounds(s: Seq<char>)
    ensures
        1 <= position_of(s).line <= s.len() + 1,
        1 <= position_of(s).column <= s.len() + 1,
    decreases s.len(),
{
    if s.len() > 0 {
        lemma_position_bounds(s.drop_last());
    }
}

/// The position of index `target`, counted on from the known position of
/// index `anchor`.
fn position_at(src: &Vec<char>, anchor: usize, line: usize, column: usize, target: usize) -> (p:
    SourcePosition)
    requires
        anchor <= target <= src.len(),
        target < usize::MAX,
        position_of(src@.take(anchor as int)) == (SpecPos { line: line as nat, column: column as nat }),
    ensures
        p.view() == position_of(src@.take(target as int)),
{
    let mut i = anchor;
    let mut l = line;
    let mut c = column;
    while i < target
        invariant
            anchor <= i <= target <= src.len(),
            target < usize::MAX,
            position_of(src@.take(i as int)) == (SpecPos { line: l as nat, column: c as nat }),
        decreases target - i,
    {
        proof {
            lemma_position_bounds(src@.take(i as int));
            assert(src@.take(i + 1).drop_last() =~= src@.take(i as int));
        }
        if src[i] == '\n' {
            l = l + 1;
            c = 1;
        } else {
            c = c + 1;
        }
        i = i + 1;
    }
    SourcePosition { line: l, column: c }
}

/// `standalone_left` of `src[lo..hi]`, as an absolute index.
fn standalone_left_at(src: &Vec<char>, lo: usize, hi: usize) -> (r: Option<usize>)
    requires
        lo <= hi <= src.len(),
    ensures
        match standalone_left(src@.subrange(lo as int, hi as int)) {
            Some(l) => r == Some((lo + l) as usize),
            None => r is None,
        },
{
    let ghost text = src@.subrange(lo as int, hi as int);
    assert(text.take(hi - lo) =~= text);
    let mut j = hi;
    while j > lo && src[j - 1] != '\n'
        invariant
            lo <= j <= hi <= src.len(),
            text == src@.subrange(lo as int, hi as int),
            last_index_of(text, '\n') == last_index_of(text.take(j - lo), '\n'),
        decreases j - lo,
    {
        assert(text.take(j - lo).drop_last() =~= text.take(j - 1 - lo));
        j = j - 1;
    }
    proof {
        if j > lo {
            assert(text.take(j - lo).last() == '\n');
        }
        assert(text.take(j - lo) =~= text.take(j - lo));
    }
    let ghost tail_start: int = match last_index_of(text, '\n') {
        Some(i) => i + 1,
        None => 0,
    };
    assert(tail_start == j - lo);
    let mut k = j;
    while k < hi
        invariant
            j <= k <= hi <= src.len(),
            lo <= j,
            tail_start == j - lo,
            tail_start == match last_index_of(text, '\n') {
                Some(i) => i + 1,
                None => 0,
            },
            text == src@.subrange(lo as int, hi as int),
            forall|m: int| j <= m < k ==> #[trigger] src@[m] == ' ' || src@[m] == '\t',
        decreases hi - k,
    {
        if src[k] != ' ' && src[k] != '\t' {
            assert(text.skip(j - lo)[k - j] == src@[k as int]);
            assert(!all_blank(text.skip(tail_start)));
            return None;
        }
        k = k + 1;
    }
    assert forall|m: int| 0 <= m < text.skip(j - lo).len() implies #[trigger] text.skip(j - lo)[m]
        == ' ' || text.skip(j - lo)[m] == '\t' by {
        assert(text.skip(j - lo)[m] == src@[j + m]);
    }
    Some(j)
}

/// `standalone_right` of `src[from..]`.
fn standalone_right_at(src: &Vec<char>, from: usize) -> (r: Option<usize>)
    requires
        from <= src.len(),
    ensures
        opt_int(r) == standalone_right(src@.skip(from as int)),
{
    let ghost after = src@.skip(from as int);
    let mut k = from;
    while k < src.len() && src[k] != '\n'
        invariant
            from <= k <= src.len(),
            forall|m: int| from <= m < k ==> #[trigger] src@[m] != '\n',
        decreases src.len() - k,
    {
        k = k + 1;
    }
    proof {
        assert forall|m: int| 0 <= m < k - from implies !#[trigger] matches_at(after, m, seq!['\n']) by {
            if matches_at(after, m, seq!['\n']) {
                assert(after.subrange(m, m + 1)[0] == after[m]);
                assert(after[m] == src@[from + m]);
            }
        }
        lemma_find_from(after, 0, seq!['\n']);
        if k < src.len() {
            assert(after.subrange(k - from, k - from + 1) =~= seq!['\n']);
            assert(matches_at(after, k - from, seq!['\n']));
        } else {
            assert(!matches_at(after, after.len() as int, seq!['\n']));
        }
    }
    let end = if k < src.len() && k > from && src[k - 1] == '\r' {
        k - 1
    } else {
        k
    };
    let mut m = from;
    while m < end
        invariant
            from <= m <= end <= k <= src.len(),
            end == k || (k < src.len() && end + 1 == k && src@[end as int] == '\r'),
            (k < src.len() && k > from && src@[k - 1] == '\r') ==> end + 1 == k,
            after == src@.skip(from as int),
            k < src.len() ==> find_from(after, 0, seq!['\n']) == Some(k - from),
            k == src.len() ==> find_from(after, 0, seq!['\n']) is None,
            forall|q: int| from <= q < m ==> #[trigger] src@[q] == ' ' || src@[q] == '\t',
        decreases end - m,
    {
        if src[m] != ' ' && src[m] != '\t' {
            proof {
                if k < src.len() {
                    let line = after.take(k - from);
                    assert(line[m - from] == src@[m as int]);
                    assert(!all_blank(line));
                    if line.len() > 0 && line.last() == '\r' {
                        assert(end + 1 == k);
                        assert(line.drop_last()[m - from] == src@[m as int]);
                    }
                } else {
                    assert(after[m - from] == src@[m as int]);
                }
            }
            assert(standalone_right(after) is None);
            return None;
        }
        m = m + 1;
    }
    proof {
        if k < src.len() {
            let line = after.take(k - from);
            if end == k {
                assert forall|q: int| 0 <= q < line.len() implies #[trigger] line[q] == ' '
                    || line[q] == '\t' by {
                    assert(line[q] == src@[from + q]);
                }
            } else {
                assert forall|q: int| 0 <= q < line.drop_last().len() implies #[trigger] line.drop_last()[q]
                    == ' ' || line.drop_last()[q] == '\t' by {
                    assert(line.drop_last()[q] == src@[from + q]);
                }
                assert(line.last() == src@[end as int]);
            }
            assert(blank_to_line_end(line));
        } else {
            assert forall|q: int| 0 <= q < after.len() implies #[trigger] after[q] == ' '
                || after[q] == '\t' by {
                assert(after[q] == src@[from + q]);
            }
        }
    }
    if k < src.len() {
        Some(k - from + 1)
    } else {
        Some(k - from)
    }
}

/// The characters of each index range.
pub open spec fn range_texts(src: Seq<char>, ranges: Seq<(usize, usize)>) -> Seq<Seq<char>> {
    ranges.map_values(|r: (usize, usize)| src.subrange(r.0 as int, r.1 as int))
}

/// The non-white-space runs of `src[lo..hi]`, as index ranges.
fn word_ranges(src: &Vec<char>, lo: usize, hi: usize) -> (r: Vec<(usize, usize)>)
    requires
        lo <= hi <= src.len(),
    ensures
        forall|k: int| #![trigger r@[k]] 0 <= k < r@.len() ==> r@[k].0 <= r@[k].1 <= src.len(),
        range_texts(src@, r@) == words(src@.subrange(lo as int, hi as int)),
{
    let mut acc: Vec<(usize, usize)> = Vec::new();
    let mut cur_start = lo;
    let mut i = lo;
    assert(src@.subrange(lo as int, lo as int) =~= Seq::<char>::empty());
    assert(range_texts(src@, acc@) =~= Seq::<Seq<char>>::empty());
    while i < hi
        invariant
            lo <= cur_start <= i <= hi <= src.len(),
            forall|k: int| #![trigger acc@[k]] 0 <= k < acc@.len() ==> acc@[k].0 <= acc@[k].1 <= src.len(),
            words(src@.subrange(lo as int, hi as int)) == words_from(
                src@.subrange(i as int, hi as int),
                src@.subrange(cur_start as int, i as int),
                range_texts(src@, acc@),
            ),
        decreases hi - i,
    {
        proof {
            assert(src@.subrange(i as int, hi as int).drop_first() =~= src@.subrange(
                i + 1,
                hi as int,
            ));
            assert(src@.subrange(cur_start as int, i as int).push(src@[i as int]) =~= src@.subrange(
                cur_start as int,
                i + 1,
            ));
        }
        if white_space(src[i]) {
            if cur_start < i {
                let ghost old_acc = acc@;
                acc.push((cur_start, i));
                assert(range_texts(src@, acc@) =~= range_texts(src@, old_acc).push(
                    src@.subrange(cur_start as int, i as int),
                ));
                assert(forall|k: int| 0 <= k < old_acc.len() ==> acc@[k] == old_acc[k]);
            }
            cur_start = i + 1;
            assert(src@.subrange(cur_start as int, i + 1) =~= Seq::<char>::empty());
        }
        i = i + 1;
    }
    assert(src@.subrange(hi as int, hi as int) =~= Seq::<char>::empty());
    if cur_start < hi {
        let ghost old_acc = acc@;
        acc.push((cur_start, hi));
        assert(range_texts(src@, acc@) =~= range_texts(src@, old_acc).push(
            src@.subrange(cur_start as int, hi as int),
        ));
        assert(forall|k: int| 0 <= k < old_acc.len() ==> acc@[k] == old_acc[k]);
    }
    acc
}

// ---------------------------------------------------------------------------
// Tags
// ---------------------------------------------------------------------------
/// A tag's meaning, as the scanner produces it.
enum ParsedTag {
    Variable { name: String, escape: bool },
    SectionStart { name: String },
    Inverted { name: String },
    SectionEnd { name: String },
    Partial { name: String },
    Comment,
    DelimChange { open: Vec<char>, close: Vec<char> },
}

impl ParsedTag {
    spec fn view(&self) -> SpecTag {
        match self {
            ParsedTag::Variable { name, escape } => SpecTag::Variable { name: name@, escape: *escape },
            ParsedTag::SectionStart { name } => SpecTag::SectionStart { name: name@ },
            ParsedTag::Inverted { name } => SpecTag::Inverted { name: name@ },
            ParsedTag::SectionEnd { name } => SpecTag::SectionEnd { name: name@ },
            ParsedTag::Partial { name } => SpecTag::Partial { name: name@ },
            ParsedTag::Comment => SpecTag::Comment,
            ParsedTag::DelimChange { open, close } => SpecTag::DelimChange {
                open: open@,
                close: close@,
            },
        }
    }
}

spec fn tag_result_view(r: Result<ParsedTag, ParseErrorKind>) -> Result<SpecTag, SpecParseErrorKind> {
    match r {
        Ok(t) => Ok(t.view()),
        Err(k) => Err(k.view()),
    }
}

spec fn scan_result_view(r: Result<(usize, ParsedTag), ParseErrorKind>) -> Result<
    (int, SpecTag),
    SpecParseErrorKind,
> {
    match r {
        Ok((e, t)) => Ok((e as int, t.view())),
        Err(k) => Err(k.view()),
    }
}

/// A copy of `src[lo..hi]`.
fn chars_range(src: &Vec<char>, lo: usize, hi: usize) -> (r: Vec<char>)
    requires
        lo <= hi <= src.len(),
    ensures
        r@ == src@.subrange(lo as int, hi as int),
{
    let mut r: Vec<char> = Vec::new();
    let mut i = lo;
    while i < hi
        invariant
            lo <= i <= hi <= src.len(),
            r@ == src@.subrange(lo as int, i as int),
        decreases hi - i,
    {
        r.push(src[i]);
        i = i + 1;
        assert(r@ =~= src@.subrange(lo as int, i as int));
    }
    r
}

/// The meaning of the trimmed tag content `src[lo..hi]`.
fn parse_tag_content(src: &Vec<char>, lo: usize, hi: usize) -> (r: Result<ParsedTag, ParseErrorKind>)
    requires
        lo <= hi <= src.len(),
    ensures
        tag_result_view(r) == tag_content(src@.subrange(lo as int, hi as int)),
{
    let ghost raw = src@.subrange(lo as int, hi as int);
    if lo == hi {
        return Err(ParseErrorKind::EmptyTagName);
    }
    let first = src[lo];
    assert(raw.drop_first() =~= src@.subrange(lo + 1, hi as int));
    let (a, b) = trim_range(src, lo + 1, hi);
    if first == '#' {
        if a == b {
            return Err(ParseErrorKind::EmptyTagName);
        }
        Ok(ParsedTag::SectionStart { name: string_from_range(src, a, b) })
    } else if first == '^' {
        if a == b {
            return Err(ParseErrorKind::EmptyTagName);
        }
        Ok(ParsedTag::Inverted { name: string_from_range(src, a, b) })
    } else if first == '/' {
        if a == b {
            return Err(ParseErrorKind::EmptyTagName);
        }
        Ok(ParsedTag::SectionEnd { name: string_from_range(src, a, b) })
    } else if first == '>' {
        if a == b {
            return Err(ParseErrorKind::EmptyTagName);
        }
        Ok(ParsedTag::Partial { name: string_from_range(src, a, b) })
    } else if first == '!' {
        Ok(ParsedTag::Comment)
    } else if first == '&' {
        if a == b {
            return Err(ParseErrorKind::EmptyTagName);
        }
        Ok(ParsedTag::Variable { name: string_from_range(src, a, b), escape: false })
    } else if first == '=' {
        if hi - lo < 2 || src[hi - 1] != '=' {
            return Err(ParseErrorKind::UnknownDelimiterSyntax);
        }
        assert(raw.subrange(1, raw.len() - 1) =~= src@.subrange(lo + 1, hi - 1));
        let (c, d) = trim_range(src, lo + 1, hi - 1);
        let parts = word_ranges(src, c, d);
        if parts.len() != 2 {
            return Err(ParseErrorKind::UnknownDelimiterSyntax);
        }
        let (o0, o1) = parts[0];
        let (c0, c1) = parts[1];
        assert(range_texts(src@, parts@)[0] == src@.subrange(o0 as int, o1 as int));
        assert(range_texts(src@, parts@)[1] == src@.subrange(c0 as int, c1 as int));
        Ok(ParsedTag::DelimChange { open: chars_range(src, o0, o1), close: chars_range(src, c0, c1) })
    } else {
        let (c, d) = trim_range(src, lo, hi);
        if c == d {
            return Err(ParseErrorKind::EmptyTagName);
        }
        Ok(ParsedTag::Variable { name: string_from_range(src, c, d), escape: true })
    }
}

/// The tag at `tag_start`: the index just after it and its meaning.
fn scan_tag_at(src: &Vec<char>, tag_start: usize, open: &Vec<char>, close: &Vec<char>) -> (r: Result<
    (usize, ParsedTag),
    ParseErrorKind,
>)
    requires
        matches_at(src@, tag_start as int, open@),
        open.len() > 0,
        close.len() > 0,
    ensures
        scan_result_view(r) == scan_tag(src@, tag_start as int, open@, close@),
{
    let after_open = tag_start + open.len();
    let is_default_open = open.len() == 2 && open[0] == '{' && open[1] == '{';
    assert(is_default_open == (open@ == default_open())) by {
        if open@ == default_open() {
            assert(open@[0] == '{' && open@[1] == '{');
        }
        if is_default_open {
            assert(open@ =~= default_open());
        }
    }
    if is_default_open && after_open < src.len() && src[after_open] == '{' {
        let content_start = after_open + 1;
        let mut search_close: Vec<char> = Vec::new();
        search_close.push('}');
        let mut i: usize = 0;
        while i < close.len()
            invariant
                i <= close.len(),
                search_close@ == seq!['}'] + close@.take(i as int),
            decreases close.len() - i,
        {
            search_close.push(close[i]);
            i = i + 1;
            assert(search_close@ =~= seq!['}'] + close@.take(i as int));
        }
        assert(close@.take(close.len() as int) =~= close@);
        proof {
            lemma_find_from(src@, content_start as int, search_close@);
        }
        match find_at(src, content_start, &search_close) {
            None => Err(ParseErrorKind::UnexpectedEof),
            Some(close_pos) => {
                let (a, b) = trim_range(src, content_start, close_pos);
                if a == b {
                    return Err(ParseErrorKind::EmptyTagName);
                }
                let name = string_from_range(src, a, b);
                Ok((close_pos + search_close.len(), ParsedTag::Variable { name, escape: false }))
            },
        }
    } else {
        proof {
            lemma_find_from(src@, after_open as int, close@);
        }
        match find_at(src, after_open, close) {
            None => Err(ParseErrorKind::UnexpectedEof),
            Some(close_pos) => {
                let (a, b) = trim_range(src, after_open, close_pos);
                match parse_tag_content(src, a, b) {
                    Ok(t) => Ok((close_pos + close.len(), t)),
                    Err(k) => Err(k),
                }
            },
        }
    }
}

// ---------------------------------------------------------------------------
// The parser
// ---------------------------------------------------------------------------
/// Where a tag's text ends and where the tag ends (see `tag_layout`).
fn tag_layout_at(src: &Vec<char>, pos: usize, tag_start: usize, raw_end: usize, tag: &ParsedTag) -> (r: (
    usize,
    usize,
))
    requires
        pos <= tag_start < raw_end <= src.len(),
    ensures
        (r.0 as int, r.1 as int) == tag_layout(src@, pos as int, tag_start as int, raw_end as int, tag.view()),
{
    let is_block = match tag {
        ParsedTag::Variable { .. } => false,
        _ => true,
    };
    if is_block {
        proof {
            lemma_standalone_left_bounds(src@.subrange(pos as int, tag_start as int));
        }
        let left = match standalone_left_at(src, pos, tag_start) {
            Some(l) => if l > pos || pos == 0 || src[pos - 1] == '\n' {
                Some(l)
            } else {
                None
            },
            None => None,
        };
        assert(opt_int(left) == standalone_start(src@, pos as int, tag_start as int));
        match left {
            Some(l) => match standalone_right_at(src, raw_end) {
                Some(r) => {
                    proof {
                        lemma_standalone_right_bounds(src@.skip(raw_end as int));
                        lemma_standalone_left_bounds(src@.subrange(pos as int, tag_start as int));
                    }
                    return (l, raw_end + r);
                },
                None => {},
            },
            None => {},
        }
    }
    (tag_start, raw_end)
}

/// A section opened but not yet closed.
struct Frame {
    name: String,
    inverted: bool,
    parent: Vec<Node>,
    pos: SourcePosition,
}

impl Frame {
    spec fn view(&self) -> SpecFrame {
        SpecFrame {
            name: self.name@,
            inverted: self.inverted,
            parent: nodes_view(self.parent@),
            pos: self.pos.view(),
        }
    }
}

spec fn frames_view(fs: Seq<Frame>) -> Seq<SpecFrame> {
    fs.map_values(|f: Frame| f.view())
}

/// The model of a parse result.
pub open spec fn parse_result_view(r: Result<Vec<Node>, ParseError>) -> Result<
    Seq<SpecNode>,
    SpecParseError,
> {
    match r {
        Ok(ns) => Ok(nodes_view(ns@)),
        Err(e) => Err(e.view()),
    }
}

/// Applies a tag to the open sections and the nodes read so far; hands back
/// the new delimiters of a set-delimiter tag.
fn apply_tag_exec(
    tag: ParsedTag,
    tag_pos: SourcePosition,
    indent: String,
    stack: &mut Vec<Frame>,
    current: &mut Vec<Node>,
) -> (r: Result<Option<(Vec<char>, Vec<char>)>, ParseError>)
    ensures
        match apply_tag(
            tag.view(),
            tag_pos.view(),
            indent@,
            frames_view(old(stack)@),
            nodes_view(old(current)@),
        ) {
            Err(e) => r matches Err(pe) && pe.view() == e,
            Ok((s2, c2)) => r matches Ok(d) && frames_view(final(stack)@) == s2 && nodes_view(
                final(current)@,
            ) == c2 && match d {
                Some((o, c)) => tag.view() == (SpecTag::DelimChange { open: o@, close: c@ }),
                None => !(tag.view() is DelimChange),
            },
        },
{
    let ghost old_frames = frames_view(stack@);
    let ghost old_nodes = nodes_view(current@);
    match tag {
        ParsedTag::Variable { name, escape } => {
            let node = Node::Variable { name, escape, pos: tag_pos };
            proof {
                lemma_nodes_view_push(current@, node);
            }
            current.push(node);
            Ok(None)
        },
        ParsedTag::SectionStart { name } => {
            let mut parent: Vec<Node> = Vec::new();
            std::mem::swap(&mut parent, current);
            let frame = Frame { name, inverted: false, parent, pos: tag_pos };
            stack.push(frame);
            assert(frames_view(stack@) =~= old_frames.push(frame.view()));
            assert(nodes_view(current@) =~= Seq::<SpecNode>::empty());
            Ok(None)
        },
        ParsedTag::Inverted { name } => {
            let mut parent: Vec<Node> = Vec::new();
            std::mem::swap(&mut parent, current);
            let frame = Frame { name, inverted: true, parent, pos: tag_pos };
            stack.push(frame);
            assert(frames_view(stack@) =~= old_frames.push(frame.view()));
            assert(nodes_view(current@) =~= Seq::<SpecNode>::empty());
            Ok(None)
        },
        ParsedTag::SectionEnd { name } => {
            let ghost old_stack = stack@;
            match stack.pop() {
                None => Err(to_parse_error(ParseErrorKind::UnbalancedSection { name }, tag_pos)),
                Some(frame) => {
                    assert(old_frames.last() == frame.view());
                    if !str_eq(frame.name.as_str(), name.as_str()) {
                        return Err(
                            to_parse_error(ParseErrorKind::UnbalancedSection { name }, tag_pos),
                        );
                    }
                    assert(frames_view(stack@) =~= old_frames.drop_last());
                    let mut children = frame.parent;
                    std::mem::swap(&mut children, current);
                    let node = Node::Section {
                        name: frame.name,
                        inverted: frame.inverted,
                        children,
                        pos: frame.pos,
                    };
                    proof {
                        lemma_nodes_view_push(current@, node);
                    }
                    current.push(node);
                    Ok(None)
                },
            }
        },
        ParsedTag::Partial { name } => {
            let node = Node::Partial { name, indent, pos: tag_pos };
            proof {
                lemma_nodes_view_push(current@, node);
            }
            current.push(node);
            Ok(None)
        },
        ParsedTag::Comment => Ok(None),
        ParsedTag::DelimChange { open, close } => Ok(Some((open, close))),
    }
}

/// The end of the template: the nodes read, or an error for the innermost
/// section left open.
fn finish_exec(mut stack: Vec<Frame>, current: Vec<Node>) -> (r: Result<Vec<Node>, ParseError>)
    ensures
        parse_result_view(r) == finish(frames_view(stack@), nodes_view(current@)),
{
    let ghost frames = frames_view(stack@);
    match stack.pop() {
        None => Ok(current),
        Some(frame) => {
            assert(frames.last() == frame.view());
            Err(to_parse_error(ParseErrorKind::UnbalancedSection { name: frame.name }, frame.pos))
        },
    }
}

/// Parses a template into its nodes.
pub fn parse(template: &str) -> (r: Result<Vec<Node>, ParseError>)
    ensures
        parse_result_view(r) == spec_parse(template@),
{
    let src = chars_of(template);
    let mut open: Vec<char> = Vec::new();
    open.push('{');
    open.push('{');
    let mut close: Vec<char> = Vec::new();
    close.push('}');
    close.push('}');
    assert(open@ =~= default_open());
    assert(close@ =~= default_close());
    let mut stack: Vec<Frame> = Vec::new();
    let mut current: Vec<Node> = Vec::new();
    let mut pos: usize = 0;
    let mut anchor: usize = 0;
    let mut line: usize = 1;
    let mut column: usize = 1;
    assert(frames_view(stack@) =~= Seq::<SpecFrame>::empty());
    assert(nodes_view(current@) =~= Seq::<SpecNode>::empty());
    assert(src@.take(0) =~= Seq::<char>::empty());
    loop
        invariant
            src@ == template@,
            pos <= src.len(),
            anchor <= pos,
            anchor == 0 || anchor < src.len(),
            position_of(src@.take(anchor as int)) == (SpecPos {
                line: line as nat,
                column: column as nat,
            }),
            open.len() > 0,
            close.len() > 0,
            parse_from(src@, pos as int, open@, close@, frames_view(stack@), nodes_view(current@))
                == spec_parse(template@),
        decreases src.len() - pos,
    {
        let ghost frames0 = frames_view(stack@);
        let ghost nodes0 = nodes_view(current@);
        proof {
            lemma_find_from(src@, pos as int, open@);
        }
        match find_at(&src, pos, &open) {
            None => {
                if pos < src.len() {
                    let node = Node::Text(string_from_range(&src, pos, src.len()));
                    proof {
                        lemma_nodes_view_push(current@, node);
                    }
                    current.push(node);
                }
                return finish_exec(stack, current);
            },
            Some(tag_start) => {
                let tag_pos = position_at(&src, anchor, line, column, tag_start);
                anchor = tag_start;
                line = tag_pos.line;
                column = tag_pos.column;
                proof {
                    lemma_scan_tag_bounds(src@, tag_start as int, open@, close@);
                    lemma_scan_tag_delims(src@, tag_start as int, open@, close@);
                }
                match scan_tag_at(&src, tag_start, &open, &close) {
                    Err(kind) => {
                        return Err(to_parse_error(kind, tag_pos));
                    },
                    Ok((raw_end, tag)) => {
                        let ghost tag_v = tag.view();
                        let (emit_end, tag_end) = tag_layout_at(&src, pos, tag_start, raw_end, &tag);
                        proof {
                            lemma_tag_layout_bounds(src@, pos as int, tag_start as int, raw_end as int, tag_v);
                        }
                        if emit_end > pos {
                            let node = Node::Text(string_from_range(&src, pos, emit_end));
                            proof {
                                lemma_nodes_view_push(current@, node);
                            }
                            current.push(node);
                        }
                        let indent = string_from_range(&src, emit_end, tag_start);
                        let applied = apply_tag_exec(tag, tag_pos, indent, &mut stack, &mut current);
                        match applied {
                            Err(e) => {
                                return Err(e);
                            },
                            Ok(delims) => {
                                match delims {
                                    Some((o, c)) => {
                                        open = o;
                                        close = c;
                                    },
                                    None => {},
                                }
                            },
                        }
                        pos = tag_end;
                    },
                }
            },
        }
    }
}

} // verus!
