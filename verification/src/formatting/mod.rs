//! The formatting of a token tree: the driver walks the tokens and tells the
//! layout engine what to do for each of them.
//!
//! A blank is a run of adjacent `Space` and `Newline` tokens. The blanks of
//! the input are never printed as they are:
//!
//! - a blank at the start or at the end of the input is dropped;
//! - a blank next to a punctuation symbol or to a group is handed to the
//!   policy of the symbol for the space before or after it;
//! - a blank between two other tokens becomes a single space, with a
//!   possible line break before it where the blank holds a line break.

pub mod engine;
pub mod laws;

use crate::chars::{fill, push_fill};
use crate::config;
use crate::config::BreakStyleEnum;
use crate::decondenser::Decondenser;
use crate::formatting::engine::{
    lemma_apply_all_concat, lemma_apply_all_empty, lemma_apply_all_single, Formatter,
    FormatterView, Op,
};
use crate::formatting::engine::printer::PrinterConfig;
use crate::parsing::l2;
use crate::parsing::l2::token_tree::{tree_views, Group, Quoted, TokenTree, TreeView};
use crate::parsing::quoted::l2::{token_views, TokenView as QuotedView};
use crate::space::Space;
use crate::visual_size::{MeasuredStr, Text, VisualSize};
use vstd::prelude::*;

verus! {

/// The number of blank tokens that follow one another from `from` on, before
/// `end`.
pub open spec fn blank_count(tokens: Seq<TreeView>, from: int, end: int) -> nat
    decreases end - from,
{
    if 0 <= from < end <= tokens.len() && tokens[from].is_blank() {
        1 + blank_count(tokens, from + 1, end)
    } else {
        0
    }
}

/// The number of blank tokens that follow one another up to `end`.
pub open spec fn trailing_blank_count(tokens: Seq<TreeView>, end: int) -> nat
    decreases end,
{
    if 0 < end <= tokens.len() && tokens[end - 1].is_blank() {
        1 + trailing_blank_count(tokens, end - 1)
    } else {
        0
    }
}

/// The characters that a blank token stands for.
pub open spec fn blank_chars(token: TreeView) -> Seq<char> {
    match token {
        TreeView::Space(text) => text,
        TreeView::Newline(count) => fill('\n', count as nat),
        _ => Seq::empty(),
    }
}

/// The characters of the `count` tokens from `from` on.
pub open spec fn blank_text(tokens: Seq<TreeView>, from: int, count: nat) -> Seq<char>
    decreases count,
{
    if count == 0 {
        Seq::empty()
    } else {
        blank_text(tokens, from, (count - 1) as nat) + blank_chars(tokens[from + count - 1])
    }
}

/// Whether one of the `count` tokens from `from` on is a `Newline`.
pub open spec fn blank_has_newline(tokens: Seq<TreeView>, from: int, count: nat) -> bool
    decreases count,
{
    count > 0 && (tokens[from + count - 1] is Newline || blank_has_newline(
        tokens,
        from,
        (count - 1) as nat,
    ))
}

/// The text with its visual size.
pub open spec fn measured<V: VisualSize>(config: &Decondenser<V>, text: Seq<char>) -> Text {
    Text { chars: text, size: config.visual_size.measure(text) }
}

/// The visual size of the blank of `count` tokens from `from` on; that of
/// the empty text where `count` is 0.
pub open spec fn blank_size<V: VisualSize>(
    config: &Decondenser<V>,
    tokens: Seq<TreeView>,
    from: int,
    count: nat,
) -> usize {
    config.visual_size.measure(blank_text(tokens, from, count))
}

/// The visual size of the blank that starts at `from`.
pub open spec fn blank_size_at<V: VisualSize>(
    config: &Decondenser<V>,
    tokens: Seq<TreeView>,
    from: int,
    end: int,
) -> usize {
    blank_size(config, tokens, from, blank_count(tokens, from, end))
}

/// The operations for the space before or after a punctuation symbol, where
/// `input` is the visual size of the blank that stands there in the input.
///
/// A fixed size is taken as it is; otherwise the size of the blank is
/// clamped to the bounds. A breakable space has a possible line break
/// before it.
pub open spec fn space_ops(input: usize, space: Space) -> Seq<Op> {
    let size = if space.size.0 == space.size.1 {
        space.size.0
    } else {
        space.size_for(input)
    };
    if space.breakable {
        seq![Op::SoftBreak, Op::Space(size)]
    } else {
        seq![Op::Space(size)]
    }
}

/// The operations for a punctuation symbol between two blanks of the visual
/// sizes `leading` and `trailing`.
pub open spec fn punct_ops<V: VisualSize>(
    config: &Decondenser<V>,
    leading: usize,
    punct: config::Punct,
    trailing: usize,
) -> Seq<Op> {
    space_ops(leading, punct.leading_space) + seq![Op::Raw(measured(config, punct.symbol@))]
        + space_ops(trailing, punct.trailing_space)
}

/// The operations for the pieces of quoted content: each piece is raw text.
pub open spec fn pieces_ops<V: VisualSize>(config: &Decondenser<V>, pieces: Seq<QuotedView>) -> Seq<
    Op,
>
    decreases pieces.len(),
{
    if pieces.len() == 0 {
        Seq::empty()
    } else {
        pieces_ops(config, pieces.drop_last()) + seq![
            Op::Raw(measured(config, pieces.last().source())),
        ]
    }
}

/// The operations for quoted content: the opening sequence, the pieces and,
/// where the content is closed, the closing sequence, all as raw text with
/// nothing in between.
pub open spec fn quoted_ops<V: VisualSize>(
    config: &Decondenser<V>,
    content: Seq<QuotedView>,
    closed: bool,
    quote: config::Quote,
) -> Seq<Op> {
    seq![Op::Raw(measured(config, quote.opening@))] + pieces_ops(config, content) + if closed {
        seq![Op::Raw(measured(config, quote.closing@))]
    } else {
        Seq::empty()
    }
}

/// The operations for a blank between two tokens that are neither
/// punctuation nor groups: a single space, after a possible line break
/// where the blank holds a line break.
pub open spec fn between_ops(blank: bool, newline: bool) -> Seq<Op> {
    if !blank {
        Seq::empty()
    } else if newline {
        seq![Op::SoftBreak, Op::Space(1)]
    } else {
        seq![Op::Space(1)]
    }
}

/// `end - from`, or 0 where `from` is behind `end`.
pub open spec fn left(from: int, end: int) -> int {
    if end > from {
        end - from
    } else {
        0
    }
}

/// Where the content of a group ends that is followed by a blank only.
pub open spec fn inner_end(content: Seq<TreeView>) -> int {
    content.len() - trailing_blank_count(content, content.len() as int)
}

/// The operations for the content of a group, without the blanks at its
/// start and at its end; none for another token.
pub open spec fn group_inner<V: VisualSize>(config: &Decondenser<V>, token: TreeView) -> Seq<Op> {
    match token {
        TreeView::Group { content, .. } => format_ops(
            config,
            content,
            blank_count(content, 0, inner_end(content)) as int,
            inner_end(content),
        ),
        _ => Seq::empty(),
    }
}

/// The number of tokens of the blank behind the token at `at` that the token
/// takes: a punctuation symbol and a closed group take the blank, other
/// tokens take nothing.
pub open spec fn taken_blank(tokens: Seq<TreeView>, at: int, end: int) -> nat {
    match tokens[at] {
        TreeView::Punct(_) => blank_count(tokens, at + 1, end),
        TreeView::Group { closed, .. } => if closed {
            blank_count(tokens, at + 1, end)
        } else {
            0
        },
        _ => 0,
    }
}

/// The operations for the tokens from `from` up to `end`.
///
/// A blank before `end` is dropped. A blank before another token goes with
/// that token.
#[verifier::opaque]
pub open spec fn format_ops<V: VisualSize>(
    config: &Decondenser<V>,
    tokens: Seq<TreeView>,
    from: int,
    end: int,
) -> Seq<Op>
    decreases tokens, left(from, end),
{
    if from < 0 || from >= end || end > tokens.len() {
        Seq::empty()
    } else {
        let blank = blank_count(tokens, from, end);
        let at = from + blank;
        if at >= end {
            Seq::empty()
        } else {
            let inner = match tokens[at] {
                TreeView::Group { content, .. } => format_ops(
                    config,
                    content,
                    blank_count(content, 0, inner_end(content)) as int,
                    inner_end(content),
                ),
                _ => Seq::empty(),
            };
            let taken = match tokens[at] {
                TreeView::Punct(_) => blank_count(tokens, at + 1, end),
                TreeView::Group { closed, .. } => if closed {
                    blank_count(tokens, at + 1, end)
                } else {
                    0
                },
                _ => 0,
            };
            node_ops(config, tokens, blank, at, end, inner) + format_ops(
                config,
                tokens,
                at + 1 + taken,
                end,
            )
        }
    }
}

/// The operations for the token at `at`, before which a blank of `blank`
/// tokens stands. `inner` are the operations for the content of a group.
///
/// A punctuation symbol takes the blanks before and after it. So does a
/// group, for its opening and closing symbols. Raw text and quoted content
/// leave a single space of the blank before them.
pub open spec fn node_ops<V: VisualSize>(
    config: &Decondenser<V>,
    tokens: Seq<TreeView>,
    blank: nat,
    at: int,
    end: int,
    inner: Seq<Op>,
) -> Seq<Op> {
    let leading = blank_size(config, tokens, at - blank, blank);
    let newline = blank_has_newline(tokens, at - blank, blank);
    let trailing = blank_size(config, tokens, at + 1, taken_blank(tokens, at, end));
    match tokens[at] {
        TreeView::Punct(punct) => punct_ops(config, leading, punct, trailing),
        TreeView::Group { content, closed, config: group } => group_content_ops(
            config,
            leading,
            content,
            closed,
            group,
            trailing,
            inner,
        ),
        TreeView::Raw(text) => between_ops(blank > 0, newline) + seq![
            Op::Raw(measured(config, text)),
        ],
        TreeView::Quoted { content, closed, config: quote } => between_ops(blank > 0, newline)
            + quoted_ops(config, content, closed, quote),
        _ => Seq::empty(),
    }
}

/// The operations for a group between two blanks of the visual sizes
/// `leading` and `trailing`.
///
/// The group begins; its opening symbol takes the blank at the start of the
/// content, and its closing symbol the blank at the end of the content; the
/// content between them is indented by one level; the group ends. A group
/// that is not closed has no closing symbol. A group whose content is blank
/// is its two symbols with nothing in between.
pub open spec fn group_ops<V: VisualSize>(
    config: &Decondenser<V>,
    leading: usize,
    token: TreeView,
    trailing: usize,
) -> Seq<Op> {
    match token {
        TreeView::Group { content, closed, config: group } => group_content_ops(
            config,
            leading,
            content,
            closed,
            group,
            trailing,
            group_inner(config, token),
        ),
        _ => Seq::empty(),
    }
}

/// The operations for the closing symbol of a group, if it has one.
pub open spec fn closing_ops<V: VisualSize>(
    config: &Decondenser<V>,
    content: Seq<TreeView>,
    closed: bool,
    group: config::Group,
    trailing: usize,
) -> Seq<Op> {
    if closed {
        punct_ops(
            config,
            blank_size(
                config,
                content,
                inner_end(content),
                trailing_blank_count(content, content.len() as int),
            ),
            group.closing,
            trailing,
        )
    } else {
        Seq::empty()
    }
}

/// The operations for what stands in a group whose content is not blank: the
/// opening symbol, which takes the blank at the start of the content; the
/// operations `inner` for the content, indented by one level; the closing
/// symbol, which takes the blank at the end of the content.
pub open spec fn group_body_ops<V: VisualSize>(
    config: &Decondenser<V>,
    leading: usize,
    content: Seq<TreeView>,
    closed: bool,
    group: config::Group,
    trailing: usize,
    inner: Seq<Op>,
) -> Seq<Op> {
    punct_ops(
        config,
        leading,
        group.opening,
        blank_size_at(config, content, 0, inner_end(content)),
    ) + seq![Op::Indent(1isize)] + inner + seq![Op::Indent(-1isize)] + closing_ops(
        config,
        content,
        closed,
        group,
        trailing,
    )
}

/// The operations for a group, where `inner` are the operations for its
/// content without the blanks at its start and at its end.
pub open spec fn group_content_ops<V: VisualSize>(
    config: &Decondenser<V>,
    leading: usize,
    content: Seq<TreeView>,
    closed: bool,
    group: config::Group,
    trailing: usize,
    inner: Seq<Op>,
) -> Seq<Op> {
    if inner_end(content) <= 0 {
        seq![Op::Begin(group.break_style.0)] + empty_group_ops(
            config,
            leading,
            closed,
            group,
            trailing,
        ) + seq![Op::End]
    } else {
        seq![Op::Begin(group.break_style.0)] + group_body_ops(
            config,
            leading,
            content,
            closed,
            group,
            trailing,
            inner,
        ) + seq![Op::End]
    }
}

/// The operations for the tokens of the whole input: one group around them
/// all, without the blank at the start and the blank at the end.
pub open spec fn input_ops<V: VisualSize>(config: &Decondenser<V>, tokens: Seq<TreeView>) -> Seq<
    Op,
> {
    seq![Op::Begin(BreakStyleEnum::Consistent)] + format_ops(
        config,
        tokens,
        blank_count(tokens, 0, tokens.len() as int) as int,
        tokens.len() as int,
    ) + seq![Op::End]
}

/// The text `input` laid out again.
pub open spec fn formatted<V: VisualSize>(config: &Decondenser<V>, input: Seq<char>) -> Seq<char> {
    FormatterView::new(
        config.max_line_size,
        config.spec_effective_no_break_size(),
        measured(config, config.indent@),
    ).apply_all(input_ops(config, l2::parsed(config.syntax(), input))).eoi()
}

/// The operations for the tokens from a position on are those for the first
/// token that is no blank, with the blank before it, and those for the
/// tokens behind what that token takes.
pub proof fn lemma_format_ops<V: VisualSize>(
    config: &Decondenser<V>,
    tokens: Seq<TreeView>,
    from: int,
    end: int,
)
    ensures
        format_ops(config, tokens, from, end) == ({
            let blank = blank_count(tokens, from, end);
            let at = from + blank;
            if from < 0 || from >= end || end > tokens.len() || at >= end {
                Seq::<Op>::empty()
            } else {
                node_ops(config, tokens, blank, at, end, group_inner(config, tokens[at]))
                    + format_ops(config, tokens, at + 1 + taken_blank(tokens, at, end), end)
            }
        }),
{
    reveal(format_ops);
}

impl<V: VisualSize> Decondenser<V> {
    /// Pretty-print any text based on brackets nesting.
    ///
    /// If the content is too big to fit into a single line of the configured
    /// size, it is broken into several lines. If the content is too small so
    /// that it does not fill the entire line, then several lines can be
    /// condensed into a single line.
    ///
    /// There is no guarantee that the output will not contain lines longer
    /// than the configured size: a single long string literal or a long
    /// sequence of non-whitespace characters is never broken up.
    pub fn decondense(&self, input: &str) -> (output: String)
        ensures
            output@ == formatted(self, input@),
    {
        self.decondense_impl(input)
    }

    /// Pretty-print any text based on brackets nesting: another name for
    /// [`Decondenser::decondense`].
    pub fn format(&self, input: &str) -> (output: String)
        ensures
            output@ == formatted(self, input@),
    {
        self.decondense_impl(input)
    }

    /// Splits the input into tokens, walks them and returns what the layout
    /// engine has printed.
    pub fn decondense_impl(&self, input: &str) -> (output: String)
        ensures
            output@ == formatted(self, input@),
    {
        let chars = crate::chars::chars_of(input);
        let tokens = l2::parse(self, chars.as_slice());
        let ctx = FormattingCtx::new(self);
        let mut fmt = Formatter::new(
            PrinterConfig {
                max_line_size: self.max_line_size,
                no_break_size: self.effective_no_break_size(),
                indent_str: ctx.measured_str(self.indent.as_str()),
            },
        );
        let ghost start = fmt@;
        let ghost views = tree_views(tokens@);
        ctx.begin(&mut fmt, BreakStyleEnum::Consistent);
        let first = ctx.take_blank(&tokens, 0, tokens.len());
        ctx.format(&mut fmt, &tokens, first.count, tokens.len());
        ctx.end(&mut fmt);
        proof {
            let begin = seq![Op::Begin(BreakStyleEnum::Consistent)];
            let inner = format_ops(self, views, first.count as int, views.len() as int);
            lemma_apply_all_concat(start, begin, inner);
            lemma_apply_all_concat(start, begin + inner, seq![Op::End]);
        }
        fmt.eoi()
    }
}

/// The driver at work: the configuration, and the visual size of no text.
pub struct FormattingCtx<'i, V: VisualSize> {
    config: &'i Decondenser<V>,
    /// The visual size of the empty text, which stands for a missing blank.
    no_blank: usize,
}

/// A blank of the input.
pub struct Blank {
    /// The number of its tokens.
    pub count: usize,
    /// The visual size of its text.
    pub size: usize,
    /// Whether it holds a line break.
    pub newline: bool,
}

impl<'i, V: VisualSize> FormattingCtx<'i, V> {
    /// The configuration.
    pub closed spec fn config(&self) -> &'i Decondenser<V> {
        self.config
    }

    /// Whether the driver knows the visual size of the empty text.
    pub closed spec fn wf(&self) -> bool {
        self.no_blank == self.config.visual_size.measure(Seq::empty())
    }

    /// A driver for the given configuration.
    pub fn new(config: &'i Decondenser<V>) -> (ctx: Self)
        ensures
            ctx.wf(),
            ctx.config() == config,
    {
        let empty = String::new();
        FormattingCtx { config, no_blank: config.visual_size.visual_size(empty.as_str()) }
    }

    /// The text with its visual size.
    pub fn measured_str(&self, text: &'i str) -> (measured_text: MeasuredStr<'i>)
        ensures
            measured_text@ == measured(self.config(), text@),
    {
        MeasuredStr::new(text, &self.config.visual_size)
    }

    /// Measures the blank that starts at `from`.
    pub fn take_blank(&self, tokens: &Vec<TokenTree<'i>>, from: usize, end: usize) -> (blank: Blank)
        requires
            self.wf(),
            from <= end <= tokens@.len(),
        ensures
            blank.count == blank_count(tree_views(tokens@), from as int, end as int),
            blank.size == blank_size(
                self.config(),
                tree_views(tokens@),
                from as int,
                blank.count as nat,
            ),
            blank.newline == blank_has_newline(tree_views(tokens@), from as int, blank.count as nat),
            from + blank.count <= end,
    {
        let ghost views = tree_views(tokens@);
        let mut text = String::new();
        let mut newline = false;
        let mut i: usize = from;
        while i < end && tokens[i].is_blank()
            invariant
                from <= i <= end <= tokens@.len(),
                views == tree_views(tokens@),
                blank_count(views, from as int, end as int) == (i - from) + blank_count(
                    views,
                    i as int,
                    end as int,
                ),
                text@ == blank_text(views, from as int, (i - from) as nat),
                newline == blank_has_newline(views, from as int, (i - from) as nat),
            decreases end - i,
        {
            match &tokens[i] {
                TokenTree::Space(space) => {
                    text.append(space.as_str());
                },
                TokenTree::Newline(count) => {
                    push_fill(&mut text, '\n', *count);
                    newline = true;
                },
                _ => {},
            }
            i += 1;
        }
        let count: usize = i - from;
        if count == 0 {
            Blank { count, size: self.no_blank, newline }
        } else {
            Blank { count, size: self.config.visual_size.visual_size(text.as_str()), newline }
        }
    }

    /// Counts the blank tokens at the end of `tokens`.
    pub fn trailing_blank(&self, tokens: &Vec<TokenTree<'i>>) -> (count: usize)
        ensures
            count == trailing_blank_count(tree_views(tokens@), tokens@.len() as int),
            count <= tokens@.len(),
    {
        let ghost views = tree_views(tokens@);
        let mut end: usize = tokens.len();
        while end > 0 && tokens[end - 1].is_blank()
            invariant
                end <= tokens@.len(),
                views == tree_views(tokens@),
                trailing_blank_count(views, tokens@.len() as int) == (tokens@.len() - end)
                    + trailing_blank_count(views, end as int),
            decreases end,
        {
            end -= 1;
        }
        tokens.len() - end
    }

    /// The space before or after a punctuation symbol, where `input` is the
    /// visual size of the blank that stands there in the input.
    pub fn space_near_punct(&self, fmt: &mut Formatter<'i>, input: usize, space: &Space)
        requires
            old(fmt).wf(),
        ensures
            final(fmt)@ == old(fmt)@.apply_all(space_ops(input, *space)),
            final(fmt).wf(),
    {
        let (min, max) = space.size;
        let size: usize = if min == max {
            // We have a fixed-size space. No need to measure it.
            min
        } else if input < min {
            min
        } else if input > max {
            max
        } else {
            input
        };
        self.space(fmt, space.breakable, size);
    }

    /// A group begins.
    fn begin(&self, fmt: &mut Formatter<'i>, break_style: BreakStyleEnum)
        requires
            old(fmt).wf(),
        ensures
            final(fmt)@ == old(fmt)@.apply_all(seq![Op::Begin(break_style)]),
            final(fmt).wf(),
    {
        proof {
            lemma_apply_all_single(fmt@, Op::Begin(break_style));
        }
        fmt.begin(break_style);
    }

    /// A group ends.
    fn end(&self, fmt: &mut Formatter<'i>)
        requires
            old(fmt).wf(),
        ensures
            final(fmt)@ == old(fmt)@.apply_all(seq![Op::End]),
            final(fmt).wf(),
    {
        proof {
            lemma_apply_all_single(fmt@, Op::End);
        }
        fmt.end();
    }

    /// The level of indentation changes.
    fn indent(&self, fmt: &mut Formatter<'i>, diff: isize)
        requires
            old(fmt).wf(),
        ensures
            final(fmt)@ == old(fmt)@.apply_all(seq![Op::Indent(diff)]),
            final(fmt).wf(),
    {
        proof {
            lemma_apply_all_single(fmt@, Op::Indent(diff));
        }
        fmt.indent(diff);
    }

    /// A space, after a possible line break where `breakable` holds.
    fn space(&self, fmt: &mut Formatter<'i>, breakable: bool, size: usize)
        requires
            old(fmt).wf(),
        ensures
            final(fmt)@ == old(fmt)@.apply_all(
                if breakable {
                    seq![Op::SoftBreak, Op::Space(size)]
                } else {
                    seq![Op::Space(size)]
                },
            ),
            final(fmt).wf(),
    {
        let ghost start = fmt@;
        if breakable {
            fmt.soft_break();
            fmt.space(size);
            proof {
                lemma_apply_all_single(start, Op::SoftBreak);
                lemma_apply_all_single(start.apply(Op::SoftBreak), Op::Space(size));
                lemma_apply_all_concat(start, seq![Op::SoftBreak], seq![Op::Space(size)]);
                assert(seq![Op::SoftBreak] + seq![Op::Space(size)] =~= seq![
                    Op::SoftBreak,
                    Op::Space(size),
                ]);
            }
        } else {
            fmt.space(size);
            proof {
                lemma_apply_all_single(start, Op::Space(size));
            }
        }
    }

    /// Raw text.
    fn raw(&self, fmt: &mut Formatter<'i>, text: &'i str)
        requires
            old(fmt).wf(),
        ensures
            final(fmt)@ == old(fmt)@.apply_all(seq![Op::Raw(measured(self.config(), text@))]),
            final(fmt).wf(),
    {
        proof {
            lemma_apply_all_single(fmt@, Op::Raw(measured(self.config(), text@)));
        }
        fmt.raw(self.measured_str(text));
    }

    /// A punctuation symbol between two blanks of the visual sizes `leading`
    /// and `trailing`.
    pub fn on_punct(
        &self,
        fmt: &mut Formatter<'i>,
        leading: usize,
        punct: &'i config::Punct,
        trailing: usize,
    )
        requires
            old(fmt).wf(),
        ensures
            final(fmt)@ == old(fmt)@.apply_all(punct_ops(self.config(), leading, *punct, trailing)),
            final(fmt).wf(),
    {
        let ghost start = fmt@;
        let ghost first = space_ops(leading, punct.leading_space);
        let ghost second = seq![Op::Raw(measured(self.config(), punct.symbol@))];
        let ghost third = space_ops(trailing, punct.trailing_space);
        self.space_near_punct(fmt, leading, &punct.leading_space);
        self.raw(fmt, punct.symbol.as_str());
        self.space_near_punct(fmt, trailing, &punct.trailing_space);
        proof {
            lemma_apply_all_concat(start, first, second);
            lemma_apply_all_concat(start, first + second, third);
        }
    }

    /// Quoted content: a run of raw text that is never broken.
    pub fn on_quoted(&self, fmt: &mut Formatter<'i>, quoted: &'i Quoted<'i>)
        requires
            old(fmt).wf(),
        ensures
            final(fmt)@ == old(fmt)@.apply_all(
                quoted_ops(
                    self.config(),
                    token_views(quoted.content@),
                    quoted.closed,
                    *quoted.config,
                ),
            ),
            final(fmt).wf(),
    {
        let ghost start = fmt@;
        let ghost pieces = token_views(quoted.content@);
        let ghost opening = seq![Op::Raw(measured(self.config(), quoted.config.opening@))];
        self.raw(fmt, quoted.config.opening.as_str());
        let mut i: usize = 0;
        assert(pieces.take(0) =~= Seq::<QuotedView>::empty());
        assert(opening + pieces_ops(self.config(), pieces.take(0)) =~= opening);
        while i < quoted.content.len()
            invariant
                i <= quoted.content@.len(),
                pieces == token_views(quoted.content@),
                opening == seq![Op::Raw(measured(self.config(), quoted.config.opening@))],
                fmt.wf(),
                fmt@ == start.apply_all(opening + pieces_ops(self.config(), pieces.take(i as int))),
            decreases quoted.content@.len() - i,
        {
            let ghost done = opening + pieces_ops(self.config(), pieces.take(i as int));
            let ghost piece = seq![Op::Raw(measured(self.config(), pieces[i as int].source()))];
            self.raw(fmt, quoted.content[i].source());
            proof {
                lemma_apply_all_concat(start, done, piece);
                assert(pieces.take(i + 1).drop_last() =~= pieces.take(i as int));
                assert(done + piece =~= opening + pieces_ops(self.config(), pieces.take(i + 1)));
            }
            i += 1;
        }
        proof {
            assert(pieces.take(i as int) =~= pieces);
        }
        let ghost done = opening + pieces_ops(self.config(), pieces);
        if quoted.closed {
            self.raw(fmt, quoted.config.closing.as_str());
            proof {
                lemma_apply_all_concat(
                    start,
                    done,
                    seq![Op::Raw(measured(self.config(), quoted.config.closing@))],
                );
            }
        } else {
            proof {
                lemma_apply_all_empty(fmt@);
                lemma_apply_all_concat(start, done, Seq::<Op>::empty());
            }
        }
    }

    /// A group between two blanks of the visual sizes `leading` and
    /// `trailing`.
    pub fn on_group(
        &self,
        fmt: &mut Formatter<'i>,
        leading: usize,
        group: &'i Group<'i>,
        trailing: usize,
    )
        requires
            self.wf(),
            old(fmt).wf(),
        ensures
            final(fmt)@ == old(fmt)@.apply_all(
                group_ops(self.config(), leading, TokenTree::Group(*group)@, trailing),
            ),
            final(fmt).wf(),
        decreases group.content@, 3int, 0int,
    {
        let ghost start = fmt@;
        let config = group.config;
        let ghost begin = seq![Op::Begin(config.break_style.0)];
        proof {
            crate::parsing::l2::token_tree::lemma_group_view(*group);
        }
        self.begin(fmt, config.break_style.0);
        let trailing_blank: usize = self.trailing_blank(&group.content);
        let inner_end: usize = group.content.len() - trailing_blank;
        if inner_end == 0 {
            // Trim blank-only groups to a single line always
            self.empty_group(fmt, leading, group, trailing);
            proof {
                let body = empty_group_ops(self.config(), leading, group.closed, *config, trailing);
                lemma_apply_all_concat(start, begin, body);
                lemma_apply_all_concat(start, begin + body, seq![Op::End]);
            }
        } else {
            self.group_body(fmt, leading, group, trailing, inner_end);
            proof {
                let body = group_body_ops(
                    self.config(),
                    leading,
                    tree_views(group.content@),
                    group.closed,
                    *config,
                    trailing,
                    group_inner(self.config(), TokenTree::Group(*group)@),
                );
                lemma_apply_all_concat(start, begin, body);
                lemma_apply_all_concat(start, begin + body, seq![Op::End]);
            }
        }
        self.end(fmt);
    }

    /// What stands in a group whose content is not blank: the opening symbol,
    /// the content, indented, and the closing symbol.
    fn group_body(
        &self,
        fmt: &mut Formatter<'i>,
        leading: usize,
        group: &'i Group<'i>,
        trailing: usize,
        inner_end: usize,
    )
        requires
            self.wf(),
            old(fmt).wf(),
            0 < inner_end,
            inner_end == crate::formatting::inner_end(tree_views(group.content@)),
        ensures
            final(fmt)@ == old(fmt)@.apply_all(
                group_body_ops(
                    self.config(),
                    leading,
                    tree_views(group.content@),
                    group.closed,
                    *group.config,
                    trailing,
                    group_inner(self.config(), TokenTree::Group(*group)@),
                ),
            ),
            final(fmt).wf(),
        decreases group.content@, 2int, 0int,
    {
        let ghost start = fmt@;
        let ghost content = tree_views(group.content@);
        let config = group.config;
        proof {
            crate::parsing::l2::token_tree::lemma_group_view(*group);
            lemma_trailing_blank(content, content.len() as int);
        }
        let first = self.take_blank(&group.content, 0, inner_end);
        let ghost opening = punct_ops(self.config(), leading, config.opening, first.size);
        let ghost inner = format_ops(self.config(), content, first.count as int, inner_end as int);
        let ghost closing = closing_ops(self.config(), content, group.closed, *config, trailing);
        self.on_punct(fmt, leading, &config.opening, first.size);
        self.indent(fmt, 1);
        self.format(fmt, &group.content, first.count, inner_end);
        self.indent(fmt, -1);
        proof {
            lemma_apply_all_concat(start, opening, seq![Op::Indent(1isize)]);
            lemma_apply_all_concat(start, opening + seq![Op::Indent(1isize)], inner);
            lemma_apply_all_concat(
                start,
                opening + seq![Op::Indent(1isize)] + inner,
                seq![Op::Indent(-1isize)],
            );
        }
        if group.closed {
            let last = self.take_blank(&group.content, inner_end, group.content.len());
            self.on_punct(fmt, last.size, &config.closing, trailing);
        } else {
            proof {
                lemma_apply_all_empty(fmt@);
            }
        }
        proof {
            lemma_apply_all_concat(
                start,
                opening + seq![Op::Indent(1isize)] + inner + seq![Op::Indent(-1isize)],
                closing,
            );
        }
    }

    /// A group whose content is blank: the opening and the closing symbol
    /// next to one another, without a space or a break between them.
    fn empty_group(
        &self,
        fmt: &mut Formatter<'i>,
        leading: usize,
        group: &'i Group<'i>,
        trailing: usize,
    )
        requires
            old(fmt).wf(),
        ensures
            final(fmt)@ == old(fmt)@.apply_all(
                empty_group_ops(self.config(), leading, group.closed, *group.config, trailing),
            ),
            final(fmt).wf(),
    {
        let ghost start = fmt@;
        let config = group.config;
        let ghost first = space_ops(leading, config.opening.leading_space);
        let ghost second = seq![Op::Raw(measured(self.config(), config.opening.symbol@))];
        self.space_near_punct(fmt, leading, &config.opening.leading_space);
        self.raw(fmt, config.opening.symbol.as_str());
        proof {
            lemma_apply_all_concat(start, first, second);
        }
        if group.closed {
            let ghost third = seq![Op::Raw(measured(self.config(), config.closing.symbol@))];
            let ghost fourth = space_ops(trailing, config.closing.trailing_space);
            self.raw(fmt, config.closing.symbol.as_str());
            self.space_near_punct(fmt, trailing, &config.closing.trailing_space);
            proof {
                lemma_apply_all_concat(start, first + second, third);
                lemma_apply_all_concat(start, first + second + third, fourth);
                assert(first + second + third + fourth =~= first + second + (third + fourth));
            }
        } else {
            proof {
                lemma_apply_all_empty(fmt@);
                lemma_apply_all_concat(start, first + second, Seq::<Op>::empty());
            }
        }
    }

    /// The tokens from `from` up to `end`.
    pub fn format(
        &self,
        fmt: &mut Formatter<'i>,
        tokens: &'i Vec<TokenTree<'i>>,
        from: usize,
        end: usize,
    )
        requires
            self.wf(),
            old(fmt).wf(),
            from <= end <= tokens@.len(),
        ensures
            final(fmt)@ == old(fmt)@.apply_all(
                format_ops(self.config(), tree_views(tokens@), from as int, end as int),
            ),
            final(fmt).wf(),
        decreases tokens@, 1int, end - from,
    {
        let ghost views = tree_views(tokens@);
        let ghost target = fmt@.apply_all(
            format_ops(self.config(), views, from as int, end as int),
        );
        let mut at: usize = from;
        while at < end
            invariant
                self.wf(),
                fmt.wf(),
                from <= at <= end <= tokens@.len(),
                views == tree_views(tokens@),
                target == old(fmt)@.apply_all(
                    format_ops(self.config(), views, from as int, end as int),
                ),
                fmt@.apply_all(format_ops(self.config(), views, at as int, end as int)) == target,
            decreases end - at,
        {
            proof {
                lemma_format_ops(self.config(), views, at as int, end as int);
            }
            let blank = self.take_blank(tokens, at, end);
            let node: usize = at + blank.count;
            if node >= end {
                // No need for trailing blanks
                proof {
                    lemma_apply_all_empty(fmt@);
                }
                return ;
            }
            let ghost before = fmt@;
            let next = self.on_node(fmt, tokens, &blank, node, end);
            proof {
                lemma_apply_all_concat(
                    before,
                    node_ops(
                        self.config(),
                        views,
                        blank.count as nat,
                        node as int,
                        end as int,
                        group_inner(self.config(), views[node as int]),
                    ),
                    format_ops(self.config(), views, next as int, end as int),
                );
            }
            at = next;
        }
        proof {
            lemma_format_ops(self.config(), views, at as int, end as int);
            lemma_apply_all_empty(fmt@);
        }
    }

    /// The token at `node`, before which `blank` stands. Returns the
    /// position behind the token and the blank that it has taken.
    fn on_node(
        &self,
        fmt: &mut Formatter<'i>,
        tokens: &'i Vec<TokenTree<'i>>,
        blank: &Blank,
        node: usize,
        end: usize,
    ) -> (next: usize)
        requires
            self.wf(),
            old(fmt).wf(),
            blank.count <= node < end <= tokens@.len(),
            blank.size == blank_size(
                self.config(),
                tree_views(tokens@),
                node - blank.count,
                blank.count as nat,
            ),
            blank.newline == blank_has_newline(
                tree_views(tokens@),
                node - blank.count,
                blank.count as nat,
            ),
        ensures
            next == node + 1 + taken_blank(tree_views(tokens@), node as int, end as int),
            next <= end,
            final(fmt).wf(),
            final(fmt)@ == old(fmt)@.apply_all(
                node_ops(
                    self.config(),
                    tree_views(tokens@),
                    blank.count as nat,
                    node as int,
                    end as int,
                    group_inner(self.config(), tree_views(tokens@)[node as int]),
                ),
            ),
        decreases tokens@, 0int, end - node,
    {
        let ghost views = tree_views(tokens@);
        let ghost start = fmt@;
        match &tokens[node] {
            TokenTree::Punct(punct) => {
                let trailing = self.take_blank(tokens, node + 1, end);
                self.on_punct(fmt, blank.size, punct, trailing.size);
                node + 1 + trailing.count
            },
            TokenTree::Group(group) => {
                let trailing = if group.closed {
                    self.take_blank(tokens, node + 1, end)
                } else {
                    Blank { count: 0, size: self.no_blank, newline: false }
                };
                proof {
                    crate::parsing::l2::token_tree::lemma_group_view(*group);
                }
                self.on_group(fmt, blank.size, group, trailing.size);
                node + 1 + trailing.count
            },
            TokenTree::Raw(text) => {
                self.between(fmt, blank);
                self.raw(fmt, text.as_str());
                proof {
                    lemma_apply_all_concat(
                        start,
                        between_ops(blank.count > 0, blank.newline),
                        seq![Op::Raw(measured(self.config(), text@))],
                    );
                }
                node + 1
            },
            TokenTree::Quoted(quoted) => {
                self.between(fmt, blank);
                self.on_quoted(fmt, quoted);
                proof {
                    lemma_apply_all_concat(
                        start,
                        between_ops(blank.count > 0, blank.newline),
                        quoted_ops(
                            self.config(),
                            token_views(quoted.content@),
                            quoted.closed,
                            *quoted.config,
                        ),
                    );
                }
                node + 1
            },
            _ => {
                proof {
                    lemma_apply_all_empty(fmt@);
                }
                node + 1
            },
        }
    }

    /// The blank between two tokens that are neither punctuation nor
    /// groups.
    fn between(&self, fmt: &mut Formatter<'i>, blank: &Blank)
        requires
            old(fmt).wf(),
        ensures
            final(fmt)@ == old(fmt)@.apply_all(between_ops(blank.count > 0, blank.newline)),
            final(fmt).wf(),
    {
        if blank.count == 0 {
            proof {
                lemma_apply_all_empty(fmt@);
            }
            return ;
        }
        self.space(fmt, blank.newline, 1);
    }
}

/// The operations for a group whose content is blank, between its `Begin`
/// and its `End`.
pub open spec fn empty_group_ops<V: VisualSize>(
    config: &Decondenser<V>,
    leading: usize,
    closed: bool,
    group: config::Group,
    trailing: usize,
) -> Seq<Op> {
    space_ops(leading, group.opening.leading_space) + seq![
        Op::Raw(measured(config, group.opening.symbol@)),
    ] + if closed {
        seq![Op::Raw(measured(config, group.closing.symbol@))] + space_ops(
            trailing,
            group.closing.trailing_space,
        )
    } else {
        Seq::empty()
    }
}

/// The blank tokens at the end of the tokens are a blank that starts where
/// the others end.
pub proof fn lemma_trailing_blank(tokens: Seq<TreeView>, end: int)
    requires
        0 <= end <= tokens.len(),
    ensures
        blank_count(tokens, end - trailing_blank_count(tokens, end), end) == trailing_blank_count(
            tokens,
            end,
        ),
        trailing_blank_count(tokens, end) <= end,
    decreases end,
{
    if 0 < end && tokens[end - 1].is_blank() {
        lemma_trailing_blank(tokens, end - 1);
        lemma_blank_count_extend(tokens, end - 1 - trailing_blank_count(tokens, end - 1), end - 1);
    }
}

/// A blank that reaches a blank token reaches behind it.
pub proof fn lemma_blank_count_extend(tokens: Seq<TreeView>, from: int, end: int)
    requires
        0 <= from <= end < tokens.len(),
        blank_count(tokens, from, end) == end - from,
        tokens[end].is_blank(),
    ensures
        blank_count(tokens, from, end + 1) == end + 1 - from,
    decreases end - from,
{
    if from < end {
        assert(tokens[from].is_blank());
        assert(blank_count(tokens, from + 1, end) == end - from - 1);
        lemma_blank_count_extend(tokens, from + 1, end);
        assert(blank_count(tokens, from, end + 1) == 1 + blank_count(tokens, from + 1, end + 1));
    } else {
        assert(blank_count(tokens, end + 1, end + 1) == 0);
        assert(blank_count(tokens, end, end + 1) == 1 + blank_count(tokens, end + 1, end + 1));
    }
}

} // verus!
