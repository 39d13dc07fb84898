//! Texts without line breaks, the blanks that a printer writes, and the
//! operations that the layout engine gets for an input.

use crate::chars::{fill, repeat};
use crate::formatting::engine::printer::{Blanks, PrinterView};
use crate::decondenser::Decondenser;
use crate::formatting::engine::{FormatterView, Op};
use crate::formatting::{input_ops, measured};
use crate::parsing::l2;
use crate::visual_size::VisualSize;
use vstd::prelude::*;

verus! {

/// Whether the text holds no line break.
pub open spec fn one_line(text: Seq<char>) -> bool {
    forall|i: int| 0 <= i < text.len() ==> #[trigger] text[i] != '\n'
}

/// Whether no space of the text stands right before a line break in it.
pub open spec fn no_space_before_break(text: Seq<char>) -> bool {
    forall|i: int|
        0 <= i && i + 1 < text.len() && #[trigger] text[i] == ' ' ==> text[i + 1] != '\n'
}

/// Copies of a text without line breaks hold no line break.
pub proof fn lemma_repeat_one_line(text: Seq<char>, count: nat)
    requires
        one_line(text),
    ensures
        one_line(repeat(text, count)),
    decreases count,
{
    if count > 0 {
        lemma_repeat_one_line(text, (count - 1) as nat);
        let before = repeat(text, (count - 1) as nat);
        assert forall|i: int| 0 <= i < (before + text).len() implies #[trigger] (before
            + text)[i] != '\n' by {
            if i < before.len() {
                assert((before + text)[i] == before[i]);
            } else {
                assert((before + text)[i] == text[i - before.len()]);
            }
        }
    }
}

/// What a printer appends for a blank holds no space right before a line
/// break, where the indent holds no line break.
pub proof fn lemma_blank_text(printer: PrinterView)
    requires
        one_line(printer.indent.chars),
    ensures
        no_space_before_break(printer.blank_text()),
{
    match printer.pending {
        Blanks::Spaces(count) => {},
        Blanks::Breaks(count) => {
            let breaks = fill('\n', count as nat);
            let indent = repeat(printer.indent.chars, printer.indent_level as nat);
            lemma_repeat_one_line(printer.indent.chars, printer.indent_level as nat);
            let blank = breaks + indent;
            assert forall|i: int|
                0 <= i && i + 1 < blank.len() && #[trigger] blank[i] == ' ' implies blank[i + 1]
                != '\n' by {
                if i < breaks.len() {
                    assert(blank[i] == breaks[i]);
                } else {
                    assert(blank[i + 1] == indent[i + 1 - breaks.len()]);
                }
            }
        },
    }
}

/// The state of the formatter before the input.
pub open spec fn start<V: VisualSize>(config: &Decondenser<V>) -> FormatterView {
    FormatterView::new(
        config.max_line_size,
        config.spec_effective_no_break_size(),
        measured(config, config.indent@),
    )
}

/// The operations that the layout engine gets for `input`.
pub open spec fn operations<V: VisualSize>(config: &Decondenser<V>, input: Seq<char>) -> Seq<Op> {
    input_ops(config, l2::parsed(config.syntax(), input))
}

} // verus!
