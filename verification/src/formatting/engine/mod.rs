//! The layout engine: a pretty printer after Oppen's algorithm, as Mesa and
//! later `rustc` and `prettyplease` shaped it.
//!
//! The engine works in terms of groups, raw strings, spaces, breaks and
//! indent. The [`Formatter`] squashes adjacent blanks and trivial token
//! combinations; the [`NormalizedFormatter`] computes, in one forward pass
//! with bounded buffering, how far each possible break is from the next one;
//! the printer uses these distances to decide where lines are broken.

pub mod normal;
pub mod normalized;
pub mod printer;
pub mod sliding_deque;
pub mod token;
pub mod trace;

use crate::config::BreakStyleEnum;
use crate::formatting::engine::normalized::{NormalizedFormatter, NormalizedView};
use crate::formatting::engine::printer::{max_size, PrinterConfig};
use crate::visual_size::{MeasuredStr, Text};
use vstd::prelude::*;

verus! {

/// The blank that waits for the next raw text.
#[derive(Clone, Copy, Debug, PartialEq, Eq, Structural)]
pub enum Blank {
    /// This many spaces.
    Space(usize),
    /// This many line breaks.
    HardBreak(usize),
}

/// An operation on groups and breaks that waits for the next raw text.
#[derive(Clone, Copy, Debug, PartialEq, Eq, Structural)]
pub enum Control {
    /// A possible line break.
    SoftBreak,
    /// A group begins.
    Begin(BreakStyleEnum),
    /// A group ends.
    End,
}

/// An operation of the [`Formatter`].
pub enum Op {
    /// A group begins.
    Begin(BreakStyleEnum),
    /// The innermost group ends.
    End,
    /// The level of indentation changes.
    Indent(isize),
    /// A possible line break.
    SoftBreak,
    /// A run of spaces.
    Space(usize),
    /// Line breaks that are always taken.
    HardBreak(usize),
    /// Raw text.
    Raw(Text),
}

/// The state of a [`Formatter`].
pub struct FormatterView {
    /// The state of the measuring part.
    pub fmt: NormalizedView,
    /// The change of indentation that waits for the next raw text.
    pub indent: isize,
    /// The blank that waits for the next raw text.
    pub blank: Blank,
    /// The operations on groups and breaks that wait for the next raw text.
    pub control: Seq<Control>,
}

/// `a + b`, held within the range of `isize`.
pub open spec fn plus_signed(a: isize, b: isize) -> isize {
    if a + b > isize::MAX {
        isize::MAX
    } else if a + b < isize::MIN {
        isize::MIN
    } else {
        (a + b) as isize
    }
}

/// The measuring part after the given operations on groups and breaks.
pub open spec fn apply_controls(fmt: NormalizedView, controls: Seq<Control>) -> NormalizedView
    decreases controls.len(),
{
    if controls.len() == 0 {
        fmt
    } else {
        let before = apply_controls(fmt, controls.drop_last());
        match controls.last() {
            Control::SoftBreak => before.soft_break(),
            Control::Begin(break_style) => before.begin(break_style),
            Control::End => before.end(),
        }
    }
}

/// Whether the control is something else than a soft break.
pub open spec fn is_not_soft_break(control: Control) -> bool {
    !(control is SoftBreak)
}

impl FormatterView {
    /// The state before any operation.
    pub open spec fn new(max_line_size: usize, no_break_size: usize, indent: Text) -> Self {
        FormatterView {
            fmt: NormalizedView::new(max_line_size, no_break_size, indent),
            indent: 0,
            blank: Blank::Space(0),
            control: Seq::empty(),
        }
    }

    /// The invariant of the state.
    pub open spec fn wf(self) -> bool {
        self.fmt.wf()
    }

    /// A group begins: it waits for the next raw text.
    pub open spec fn begin(self, break_style: BreakStyleEnum) -> Self {
        FormatterView { control: self.control.push(Control::Begin(break_style)), ..self }
    }

    /// A group ends. A group that began and got no content is dropped.
    pub open spec fn end(self) -> Self {
        if self.control.len() > 0 && self.control.last() is Begin {
            FormatterView { control: self.control.drop_last(), ..self }
        } else {
            FormatterView { control: self.control.push(Control::End), ..self }
        }
    }

    /// The level of indentation changes by `diff`: the changes add up until
    /// the next raw text.
    pub open spec fn indent(self, diff: isize) -> Self {
        FormatterView { indent: plus_signed(self.indent, diff), ..self }
    }

    /// A possible line break. It is dropped after another one, and where a
    /// hard break waits already.
    pub open spec fn soft_break(self) -> Self {
        if self.control.len() > 0 && self.control.last() is SoftBreak {
            self
        } else if self.blank is HardBreak {
            self
        } else {
            FormatterView { control: self.control.push(Control::SoftBreak), ..self }
        }
    }

    /// A run of spaces. Adjacent runs are squashed into the longest of them;
    /// a hard break takes precedence.
    pub open spec fn space(self, size: usize) -> Self {
        match self.blank {
            Blank::Space(current) => FormatterView {
                blank: Blank::Space(max_size(current, size)),
                ..self
            },
            Blank::HardBreak(_) => self,
        }
    }

    /// Line breaks that are always taken. Adjacent hard breaks are squashed
    /// into the greatest of them; spaces and soft breaks next to a hard
    /// break are dropped.
    pub open spec fn hard_break(self, count: usize) -> Self {
        if count == 0 {
            self
        } else {
            match self.blank {
                Blank::HardBreak(current) => FormatterView {
                    blank: Blank::HardBreak(max_size(current, count)),
                    ..self
                },
                Blank::Space(_) => FormatterView {
                    blank: Blank::HardBreak(count),
                    control: self.control.filter(|control: Control| is_not_soft_break(control)),
                    ..self
                },
            }
        }
    }

    /// Hands what waits to the measuring part: the change of indentation,
    /// then the operations on groups and breaks, then the blank.
    pub open spec fn flush(self) -> Self {
        let indented = if self.indent != 0 {
            self.fmt.indent(self.indent)
        } else {
            self.fmt
        };
        let controlled = apply_controls(indented, self.control);
        let blanked = match self.blank {
            Blank::Space(size) => if size > 0 {
                controlled.space(size)
            } else {
                controlled
            },
            Blank::HardBreak(count) => if count > 0 {
                controlled.hard_break(count)
            } else {
                controlled
            },
        };
        FormatterView { fmt: blanked, indent: 0, blank: Blank::Space(0), control: Seq::empty() }
    }

    /// Raw text: what waits goes before it. Empty text is dropped.
    pub open spec fn raw(self, text: Text) -> Self {
        if text.chars.len() == 0 {
            self
        } else {
            let flushed = self.flush();
            FormatterView { fmt: flushed.fmt.raw(text), ..flushed }
        }
    }

    /// The output at the end of the input. A blank that waits is dropped;
    /// the operations on groups are not, so that the groups end.
    pub open spec fn eoi(self) -> Seq<char> {
        (FormatterView { blank: Blank::Space(0), ..self }).flush().fmt.eoi().printer.output
    }

    /// The state after the operation.
    pub open spec fn apply(self, op: Op) -> Self {
        match op {
            Op::Begin(break_style) => self.begin(break_style),
            Op::End => self.end(),
            Op::Indent(diff) => self.indent(diff),
            Op::SoftBreak => self.soft_break(),
            Op::Space(size) => self.space(size),
            Op::HardBreak(count) => self.hard_break(count),
            Op::Raw(text) => self.raw(text),
        }
    }

    /// The state after the operations, in their order.
    #[verifier::opaque]
    pub open spec fn apply_all(self, ops: Seq<Op>) -> Self
        decreases ops.len(),
    {
        if ops.len() == 0 {
            self
        } else {
            self.apply_all(ops.drop_last()).apply(ops.last())
        }
    }
}

/// Doing the operations `first` and then `second` is doing `first + second`.
pub proof fn lemma_apply_all_concat(state: FormatterView, first: Seq<Op>, second: Seq<Op>)
    ensures
        state.apply_all(first + second) == state.apply_all(first).apply_all(second),
    decreases second.len(),
{
    reveal(FormatterView::apply_all);
    if second.len() == 0 {
        assert(first + second =~= first);
    } else {
        lemma_apply_all_concat(state, first, second.drop_last());
        assert((first + second).drop_last() =~= first + second.drop_last());
        assert((first + second).last() == second.last());
    }
}

/// Doing one operation is doing the sequence that holds it alone.
pub proof fn lemma_apply_all_single(state: FormatterView, op: Op)
    ensures
        state.apply_all(seq![op]) == state.apply(op),
{
    reveal(FormatterView::apply_all);
    assert(seq![op].drop_last() =~= Seq::<Op>::empty());
    assert(state.apply_all(Seq::<Op>::empty()) == state);
}

/// Doing no operation changes nothing.
pub proof fn lemma_apply_all_empty(state: FormatterView)
    ensures
        state.apply_all(Seq::empty()) == state,
{
    reveal(FormatterView::apply_all);
}

/// A generic formatter that works in terms of groups, raw strings, spaces,
/// breaks, and indent. This struct is the top-level normalization layer
/// around the core [`NormalizedFormatter`]. It prevents leading and trailing
/// blanks, and squashes adjacent spaces and line breaks.
pub struct Formatter<'a> {
    /// The measuring part, which expects a normalized sequence of tokens.
    fmt: NormalizedFormatter<'a>,
    /// The normalized indentation of the current pending block of tokens.
    indent: isize,
    /// The normalized [`Blank`] of the current pending block of tokens.
    blank: Blank,
    /// The normalized [`Control`]s of the current pending block of tokens.
    control: Vec<Control>,
}

impl<'a> View for Formatter<'a> {
    type V = FormatterView;

    closed spec fn view(&self) -> FormatterView {
        FormatterView {
            fmt: self.fmt@,
            indent: self.indent,
            blank: self.blank,
            control: self.control@,
        }
    }
}

impl<'a> Formatter<'a> {
    /// The invariant of the formatter.
    pub open spec fn wf(&self) -> bool {
        self@.wf()
    }

    /// A formatter that has seen no operation.
    pub fn new(config: PrinterConfig<'a>) -> (formatter: Formatter<'a>)
        ensures
            formatter@ == FormatterView::new(
                config.max_line_size,
                config.no_break_size,
                config.indent_str@,
            ),
            formatter.wf(),
    {
        Formatter {
            fmt: NormalizedFormatter::new(config),
            indent: 0,
            blank: Blank::Space(0),
            control: Vec::new(),
        }
    }

    /// A group begins.
    pub fn begin(&mut self, break_style: BreakStyleEnum)
        requires
            old(self).wf(),
        ensures
            final(self)@ == old(self)@.begin(break_style),
            final(self).wf(),
    {
        self.control.push(Control::Begin(break_style));
    }

    /// The innermost group ends.
    pub fn end(&mut self)
        requires
            old(self).wf(),
        ensures
            final(self)@ == old(self)@.end(),
            final(self).wf(),
    {
        let waiting: usize = self.control.len();
        let begun = waiting > 0 && match self.control[waiting - 1] {
            Control::Begin(_) => true,
            _ => false,
        };
        if begun {
            self.control.pop();
        } else {
            self.control.push(Control::End);
        }
    }

    /// The level of indentation changes by `diff`.
    pub fn indent(&mut self, diff: isize)
        requires
            old(self).wf(),
        ensures
            final(self)@ == old(self)@.indent(diff),
            final(self).wf(),
    {
        self.indent = match self.indent.checked_add(diff) {
            Some(indent) => indent,
            None => if diff < 0 {
                isize::MIN
            } else {
                isize::MAX
            },
        };
    }

    /// A point where the line can be broken.
    pub fn soft_break(&mut self)
        requires
            old(self).wf(),
        ensures
            final(self)@ == old(self)@.soft_break(),
            final(self).wf(),
    {
        let waiting: usize = self.control.len();
        if waiting > 0 {
            if let Control::SoftBreak = self.control[waiting - 1] {
                // Avoid consecutive soft breaks
                return ;
            }
        }
        if let Blank::HardBreak(_) = self.blank {
            // If there's a hard break already, we don't need a soft break
            return ;
        }
        self.control.push(Control::SoftBreak);
    }

    /// A run of `size` spaces.
    pub fn space(&mut self, size: usize)
        requires
            old(self).wf(),
        ensures
            final(self)@ == old(self)@.space(size),
            final(self).wf(),
    {
        match self.blank {
            // Squash adjacent spaces
            Blank::Space(current) => {
                if size > current {
                    self.blank = Blank::Space(size);
                }
            },
            // Hard break takes precedence over space
            Blank::HardBreak(_) => {},
        }
    }

    /// `count` line breaks that are always taken.
    pub fn hard_break(&mut self, count: usize)
        requires
            old(self).wf(),
        ensures
            final(self)@ == old(self)@.hard_break(count),
            final(self).wf(),
    {
        if count == 0 {
            return ;
        }
        match self.blank {
            // Squash adjacent hard breaks
            Blank::HardBreak(current) => {
                if count > current {
                    self.blank = Blank::HardBreak(count);
                }
            },
            // Hard break takes precedence over space
            Blank::Space(_) => {
                // No soft breaks are needed adjacently to a hard break
                self.control = without_soft_breaks(&self.control);
                self.blank = Blank::HardBreak(count);
            },
        }
    }

    /// End of input: returns the output.
    pub fn eoi(self) -> (output: String)
        requires
            self.wf(),
        ensures
            output@ == self@.eoi(),
    {
        let mut formatter = self;
        // Strip trailing whitespace/newlines from the output
        formatter.blank = Blank::Space(0);
        formatter.flush_normalized_tokens();
        formatter.fmt.eoi()
    }

    /// Raw text.
    pub fn raw(&mut self, content: MeasuredStr<'a>)
        requires
            old(self).wf(),
        ensures
            final(self)@ == old(self)@.raw(content@),
            final(self).wf(),
    {
        if content.is_empty() {
            return ;
        }
        self.flush_normalized_tokens();
        self.fmt.raw(content);
    }

    fn flush_normalized_tokens(&mut self)
        requires
            old(self).wf(),
        ensures
            final(self)@ == old(self)@.flush(),
            final(self).wf(),
    {
        if self.indent != 0 {
            self.fmt.indent(self.indent);
            self.indent = 0;
        }
        let ghost indented = self.fmt@;
        let mut i: usize = 0;
        while i < self.control.len()
            invariant
                i <= self.control@.len(),
                self.control@ == old(self).control@,
                self.blank == old(self).blank,
                self.indent == 0,
                self.fmt.wf(),
                self.fmt@ == apply_controls(indented, self.control@.take(i as int)),
            decreases self.control@.len() - i,
        {
            proof {
                assert(self.control@.take(i + 1).drop_last() =~= self.control@.take(i as int));
            }
            match self.control[i] {
                Control::SoftBreak => self.fmt.soft_break(),
                Control::Begin(break_style) => self.fmt.begin(break_style),
                Control::End => self.fmt.end(),
            }
            i += 1;
        }
        proof {
            assert(self.control@.take(i as int) =~= self.control@);
        }
        self.control.clear();
        match self.blank {
            Blank::Space(size) => {
                if size > 0 {
                    self.fmt.space(size);
                }
            },
            Blank::HardBreak(count) => {
                if count > 0 {
                    self.fmt.hard_break(count);
                }
            },
        }
        self.blank = Blank::Space(0);
    }
}

/// The controls without the soft breaks, in their order.
fn without_soft_breaks(controls: &Vec<Control>) -> (kept: Vec<Control>)
    ensures
        kept@ == controls@.filter(|control: Control| is_not_soft_break(control)),
{
    let mut kept: Vec<Control> = Vec::new();
    let mut i: usize = 0;
    let ghost keep = |control: Control| is_not_soft_break(control);
    while i < controls.len()
        invariant
            i <= controls@.len(),
            keep == |control: Control| is_not_soft_break(control),
            kept@ == controls@.take(i as int).filter(keep),
        decreases controls@.len() - i,
    {
        proof {
            assert(controls@.take(i + 1).drop_last() =~= controls@.take(i as int));
            reveal(Seq::filter);
        }
        match controls[i] {
            Control::SoftBreak => {},
            other => {
                kept.push(other);
            },
        }
        i += 1;
    }
    proof {
        assert(controls@.take(i as int) =~= controls@);
    }
    kept
}

} // verus!
