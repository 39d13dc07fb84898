//! The printing part of the engine: it takes measured tokens one by one and
//! writes the output, deciding for each group whether it stays on one line.

use crate::chars::{fill, push_fill, push_repeat, repeat};
use crate::config::BreakStyleEnum;
use crate::formatting::engine::token::Size;
use crate::visual_size::{MeasuredStr, Text};
use vstd::prelude::*;

verus! {

/// A group that has begun and not ended yet.
#[derive(Clone, Copy, Debug, PartialEq, Eq, Structural)]
pub enum GroupFit {
    /// The group fits on the current line: its soft breaks stay spaces.
    Inline(BreakStyleEnum),
    /// The group does not fit on a single line: it is broken into several
    /// lines, in the given style.
    Broken(BreakStyleEnum),
}

/// The blank that waits to be printed before the next raw text. Blanks are
/// never printed eagerly, so that no line ends with one.
#[derive(Clone, Copy, Debug, PartialEq, Eq, Structural)]
pub enum Blanks {
    /// This many spaces.
    Spaces(usize),
    /// This many line breaks, followed by the indent of the new line.
    Breaks(usize),
}

/// The constant part of a [`Printer`].
pub struct PrinterConfig<'a> {
    /// The size that a line should not exceed.
    pub max_line_size: usize,
    /// The size that every line is granted, however deep it is indented.
    pub no_break_size: usize,
    /// String used to make a single level of indentation.
    pub indent_str: MeasuredStr<'a>,
}

/// Writes the output.
pub struct Printer<'a> {
    /// Output string being built.
    output: String,
    /// Spare budget of size left on the current line.
    line_size_budget: usize,
    /// Level of indentation for the next line.
    indent_level: usize,
    /// Stack of groups-in-progress nested one inside another.
    groups_stack: Vec<GroupFit>,
    /// The blank to print before the next raw text.
    pending: Blanks,
    config: PrinterConfig<'a>,
}

/// The state of a [`Printer`].
pub struct PrinterView {
    /// What has been written.
    pub output: Seq<char>,
    /// Spare budget of size left on the current line.
    pub line_size_budget: usize,
    /// Level of indentation for the next line.
    pub indent_level: usize,
    /// The groups in progress, the innermost last.
    pub groups: Seq<GroupFit>,
    /// The blank to print before the next raw text.
    pub pending: Blanks,
    /// The size that a line should not exceed.
    pub max_line_size: usize,
    /// The size that every line is granted.
    pub no_break_size: usize,
    /// One level of indentation.
    pub indent: Text,
}

/// The greater of two sizes.
pub open spec fn max_size(a: usize, b: usize) -> usize {
    if a >= b {
        a
    } else {
        b
    }
}

/// `a - b`, or 0 where `b` is greater than `a`.
pub open spec fn minus(a: usize, b: usize) -> usize {
    if a >= b {
        (a - b) as usize
    } else {
        0
    }
}

/// `a + b`, or `usize::MAX` where the sum does not fit in `usize`.
pub open spec fn plus(a: usize, b: usize) -> usize {
    if a + b > usize::MAX {
        usize::MAX
    } else {
        (a + b) as usize
    }
}

/// `a * b`, or `usize::MAX` where the product does not fit in `usize`.
pub open spec fn times(a: usize, b: usize) -> usize {
    if a * b > usize::MAX {
        usize::MAX
    } else {
        (a * b) as usize
    }
}

/// `level + diff`, held within the range of `usize`.
pub open spec fn shifted(level: usize, diff: isize) -> usize {
    if level + diff < 0 {
        0
    } else if level + diff > usize::MAX {
        usize::MAX
    } else {
        (level + diff) as usize
    }
}

impl PrinterView {
    /// The state of a printer that has printed nothing.
    pub open spec fn new(max_line_size: usize, no_break_size: usize, indent: Text) -> PrinterView {
        PrinterView {
            output: Seq::empty(),
            line_size_budget: max_size(max_line_size, no_break_size),
            indent_level: 0,
            groups: Seq::empty(),
            pending: Blanks::Breaks(0),
            max_line_size,
            no_break_size,
            indent,
        }
    }

    /// The budget of a line that starts at the current level of indentation:
    /// what the indent leaves of `max_line_size`, and `no_break_size` at
    /// least.
    pub open spec fn fresh_budget(self) -> usize {
        max_size(
            minus(self.max_line_size, times(self.indent.size, self.indent_level)),
            self.no_break_size,
        )
    }

    /// A group begins. It stays on the line if the distance to the first
    /// break after it is within the budget.
    pub open spec fn begin(self, break_style: BreakStyleEnum, distance: Size) -> PrinterView {
        let fit = match distance {
            Size::Fixed(size) if size <= self.line_size_budget => GroupFit::Inline(break_style),
            _ => GroupFit::Broken(break_style),
        };
        PrinterView { groups: self.groups.push(fit), ..self }
    }

    /// The innermost group ends. Without a group in progress nothing changes.
    pub open spec fn end(self) -> PrinterView {
        if self.groups.len() == 0 {
            self
        } else {
            PrinterView { groups: self.groups.drop_last(), ..self }
        }
    }

    /// The level of indentation changes by `diff`.
    pub open spec fn indent(self, diff: isize) -> PrinterView {
        PrinterView { indent_level: shifted(self.indent_level, diff), ..self }
    }

    /// Whether the tokens up to the next break stay on the current line.
    pub open spec fn fits(self, distance: Size) -> bool {
        match distance {
            Size::Infinite => false,
            Size::Fixed(size) => if self.groups.len() == 0 {
                size <= self.line_size_budget
            } else {
                match self.groups.last() {
                    GroupFit::Inline(_) => true,
                    GroupFit::Broken(BreakStyleEnum::Compact) => size <= self.line_size_budget,
                    GroupFit::Broken(BreakStyleEnum::Consistent) => false,
                }
            },
        }
    }

    /// `count` line breaks are asked for: they replace pending spaces and
    /// merge with pending breaks, and the budget is that of a new line.
    /// Asking for no line break changes nothing.
    pub open spec fn hard_break(self, count: usize) -> PrinterView {
        if count == 0 {
            self
        } else {
            let breaks = match self.pending {
                Blanks::Breaks(pending) => max_size(pending, count),
                Blanks::Spaces(_) => count,
            };
            PrinterView {
                pending: Blanks::Breaks(breaks),
                line_size_budget: self.fresh_budget(),
                ..self
            }
        }
    }

    /// `size` spaces are asked for: they merge with pending spaces, and are
    /// dropped at the start of a line.
    pub open spec fn space(self, size: usize) -> PrinterView {
        match self.pending {
            Blanks::Spaces(pending) => PrinterView {
                pending: Blanks::Spaces(max_size(pending, size)),
                line_size_budget: minus(self.line_size_budget, minus(size, pending)),
                ..self
            },
            Blanks::Breaks(_) => self,
        }
    }

    /// A possible break: taken where the tokens up to the next one do not
    /// fit.
    pub open spec fn soft_break(self, distance: Size) -> PrinterView {
        if self.fits(distance) {
            self
        } else {
            self.hard_break(1)
        }
    }

    /// Whether line breaks wait to be printed. At the start none waits: the
    /// first text stands at the start of the output, whatever the level of
    /// indentation is.
    pub open spec fn breaks_wait(self) -> bool {
        self.pending matches Blanks::Breaks(count) && count > 0
    }

    /// The characters that the pending blank stands for: the spaces, or the
    /// line breaks followed by the indent of the new line. Without a line
    /// break no indent is written.
    pub open spec fn blank_text(self) -> Seq<char> {
        match self.pending {
            Blanks::Spaces(count) => fill(' ', count as nat),
            Blanks::Breaks(count) => if count == 0 {
                Seq::empty()
            } else {
                fill('\n', count as nat) + repeat(self.indent.chars, self.indent_level as nat)
            },
        }
    }

    /// Raw text: the pending blank is written, then the text. The budget is
    /// that of a new line where line breaks were written.
    pub open spec fn raw(self, text: Text) -> PrinterView {
        let budget = if self.breaks_wait() {
            self.fresh_budget()
        } else {
            self.line_size_budget
        };
        PrinterView {
            output: self.output + self.blank_text() + text.chars,
            pending: Blanks::Spaces(0),
            line_size_budget: minus(budget, text.size),
            ..self
        }
    }
}

impl<'a> View for Printer<'a> {
    type V = PrinterView;

    closed spec fn view(&self) -> PrinterView {
        PrinterView {
            output: self.output@,
            line_size_budget: self.line_size_budget,
            indent_level: self.indent_level,
            groups: self.groups_stack@,
            pending: self.pending,
            max_line_size: self.config.max_line_size,
            no_break_size: self.config.no_break_size,
            indent: self.config.indent_str@,
        }
    }
}

impl<'a> Printer<'a> {
    /// A printer that has printed nothing.
    pub fn new(config: PrinterConfig<'a>) -> (printer: Printer<'a>)
        ensures
            printer@ == PrinterView::new(
                config.max_line_size,
                config.no_break_size,
                config.indent_str@,
            ),
    {
        let budget: usize = if config.max_line_size >= config.no_break_size {
            config.max_line_size
        } else {
            config.no_break_size
        };
        Printer {
            output: String::new(),
            line_size_budget: budget,
            indent_level: 0,
            groups_stack: Vec::new(),
            pending: Blanks::Breaks(0),
            config,
        }
    }

    fn fresh_budget(&self) -> (budget: usize)
        ensures
            budget == self@.fresh_budget(),
    {
        let indent_size: usize = match self.config.indent_str.visual_size().checked_mul(
            self.indent_level,
        ) {
            Some(size) => size,
            None => usize::MAX,
        };
        let spare: usize = self.config.max_line_size.saturating_sub(indent_size);
        if spare >= self.config.no_break_size {
            spare
        } else {
            self.config.no_break_size
        }
    }

    /// A group begins.
    pub fn begin(&mut self, break_style: BreakStyleEnum, next_break_distance: Size)
        ensures
            final(self)@ == old(self)@.begin(break_style, next_break_distance),
    {
        let fit = match next_break_distance {
            Size::Fixed(size) => if size <= self.line_size_budget {
                GroupFit::Inline(break_style)
            } else {
                GroupFit::Broken(break_style)
            },
            Size::Infinite => GroupFit::Broken(break_style),
        };
        self.groups_stack.push(fit);
    }

    /// The innermost group ends.
    pub fn end(&mut self)
        ensures
            final(self)@ == old(self)@.end(),
    {
        self.groups_stack.pop();
    }

    /// The level of indentation changes by `diff`.
    pub fn indent(&mut self, diff: isize)
        ensures
            final(self)@ == old(self)@.indent(diff),
    {
        self.indent_level = match self.indent_level.checked_add_signed(diff) {
            Some(level) => level,
            None => if diff < 0 {
                0
            } else {
                usize::MAX
            },
        };
    }

    fn next_token_sequence_fits(&self, size: Size) -> (fits: bool)
        ensures
            fits == self@.fits(size),
    {
        match size {
            Size::Infinite => false,
            Size::Fixed(size) => {
                let depth: usize = self.groups_stack.len();
                if depth == 0 {
                    size <= self.line_size_budget
                } else {
                    match self.groups_stack[depth - 1] {
                        GroupFit::Inline(_) => true,
                        GroupFit::Broken(BreakStyleEnum::Compact) => size <= self.line_size_budget,
                        GroupFit::Broken(BreakStyleEnum::Consistent) => false,
                    }
                }
            },
        }
    }

    /// Asks for the given number of line breaks.
    pub fn hard_break(&mut self, count: usize)
        ensures
            final(self)@ == old(self)@.hard_break(count),
    {
        if count == 0 {
            return ;
        }
        let breaks: usize = match self.pending {
            Blanks::Breaks(pending) => if pending >= count {
                pending
            } else {
                count
            },
            Blanks::Spaces(_) => count,
        };
        self.pending = Blanks::Breaks(breaks);
        self.line_size_budget = self.fresh_budget();
    }

    /// Asks for the given number of spaces.
    pub fn space(&mut self, size: usize)
        ensures
            final(self)@ == old(self)@.space(size),
    {
        match self.pending {
            Blanks::Spaces(pending) => {
                if size > pending {
                    self.pending = Blanks::Spaces(size);
                    self.line_size_budget = self.line_size_budget.saturating_sub(size - pending);
                }
            },
            Blanks::Breaks(_) => {},
        }
    }

    /// A possible break, with the distance to the next one.
    pub fn soft_break(&mut self, next_break_distance: Size)
        ensures
            final(self)@ == old(self)@.soft_break(next_break_distance),
    {
        if !self.next_token_sequence_fits(next_break_distance) {
            self.hard_break(1);
        }
    }

    /// Prints the pending blank and the given text.
    pub fn raw(&mut self, text: MeasuredStr<'_>)
        ensures
            final(self)@ == old(self)@.raw(text@),
    {
        match self.pending {
            Blanks::Spaces(count) => {
                push_fill(&mut self.output, ' ', count);
            },
            Blanks::Breaks(count) => {
                if count > 0 {
                    push_fill(&mut self.output, '\n', count);
                    push_repeat(
                        &mut self.output,
                        self.config.indent_str.as_str(),
                        self.indent_level,
                    );
                    self.line_size_budget = self.fresh_budget();
                }
            },
        }
        self.pending = Blanks::Spaces(0);
        self.line_size_budget = self.line_size_budget.saturating_sub(text.visual_size());
        self.output.append(text.as_str());
        assert(self@.output =~= old(self)@.output + old(self)@.blank_text() + text@.chars);
    }

    /// Spare budget of size left on the current line.
    pub fn line_size_budget(&self) -> (budget: usize)
        ensures
            budget == self@.line_size_budget,
    {
        self.line_size_budget
    }

    /// The output. A pending blank is not printed.
    pub fn finish(self) -> (output: String)
        ensures
            output@ == self@.output,
    {
        self.output
    }
}

} // verus!
