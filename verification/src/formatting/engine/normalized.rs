//! The measuring part of the engine: it buffers tokens until the distance
//! from each possible break to the next one is known, or until the buffered
//! tokens overflow the line, and hands them to the printer.

use crate::config::BreakStyleEnum;
use crate::formatting::engine::printer::{plus, Printer, PrinterConfig, PrinterView};
use crate::formatting::engine::sliding_deque::{DequeView, SlidingDeque};
use crate::formatting::engine::token::{Measurement, Size, Token, TokenView};
use crate::visual_size::{MeasuredStr, Text};
use std::collections::VecDeque;
use vstd::prelude::*;

verus! {

/// The size that `items` take when printed on a single line.
pub open spec fn single_line_size(items: Seq<TokenView>) -> nat
    decreases items.len(),
{
    if items.len() == 0 {
        0
    } else {
        (single_line_size(items.drop_last()) + items.last().size()) as nat
    }
}

/// The state of a [`NormalizedFormatter`].
pub struct NormalizedView {
    /// The tokens that are not printed yet.
    pub deque: DequeView<TokenView>,
    /// The indices of the tokens that wait to be measured, the oldest first:
    /// every `Begin` and `SoftBreak` without a distance, and the `End`s that
    /// close groups not measured yet.
    pub unmeasured: Seq<usize>,
    /// The single-line size of the tokens that were printed.
    pub printed: usize,
    /// The single-line size of all tokens, printed or not.
    pub total: usize,
    /// The printer.
    pub printer: PrinterView,
}

impl NormalizedView {
    /// The state before any token.
    pub open spec fn new(max_line_size: usize, no_break_size: usize, indent: Text) -> Self {
        NormalizedView {
            deque: DequeView { items: Seq::empty(), basis: 0 },
            unmeasured: Seq::empty(),
            printed: 0,
            total: 0,
            printer: PrinterView::new(max_line_size, no_break_size, indent),
        }
    }

    /// The invariant of the state.
    pub open spec fn wf(self) -> bool {
        &&& self.deque.items.len() <= usize::MAX
        &&& self.printed <= self.total
        &&& self.total == usize::MAX || self.printed + single_line_size(self.deque.items)
            == self.total
        &&& forall|i: int|
            0 <= i < self.deque.items.len() ==> (#[trigger] self.deque.items[i]).within(self.total)
        &&& forall|k: int|
            0 <= k < self.unmeasured.len() ==> {
                &&& self.position(k) < self.deque.items.len()
                &&& self.deque.items[self.position(k) as int].is_waiting()
            }
        &&& forall|j: int, k: int|
            0 <= j < k < self.unmeasured.len() ==> self.position(j) < self.position(k)
    }

    /// How far behind the front the `k`-th waiting token stands.
    pub open spec fn position(self, k: int) -> usize {
        self.deque.position_of(self.unmeasured[k])
    }

    /// Whether the token at the front waits to be measured.
    pub open spec fn starts_with_unmeasured(self) -> bool {
        self.unmeasured.len() > 0 && self.unmeasured[0] == self.deque.basis
    }

    /// The state with `token` at the back.
    pub open spec fn push(self, token: TokenView) -> Self {
        NormalizedView { deque: self.deque.push_back(token), ..self }
    }

    /// The state with `token` at the back, waiting to be measured.
    pub open spec fn push_unmeasured(self, token: TokenView) -> Self {
        NormalizedView {
            deque: self.deque.push_back(token),
            unmeasured: self.unmeasured.push(self.deque.next_index()),
            ..self
        }
    }

    /// The state without its front token, which `printer` has taken.
    pub open spec fn printed_front(self, printer: PrinterView) -> Self {
        NormalizedView {
            deque: self.deque.pop_front(),
            printed: plus(self.printed, self.deque.items[0].size()),
            printer,
            ..self
        }
    }

    /// Hands the tokens at the front to the printer, up to the first one
    /// that still waits to be measured: a `Begin` or `SoftBreak` without a
    /// distance, or the `End` of a group that is not measured yet.
    pub open spec fn print_measured(self) -> Self
        decreases self.deque.items.len(),
    {
        if self.deque.items.len() == 0 {
            self
        } else {
            match self.deque.items[0] {
                TokenView::Raw(text) => self.printed_front(self.printer.raw(text)).print_measured(),
                TokenView::Space(size) => self.printed_front(
                    self.printer.space(size),
                ).print_measured(),
                TokenView::SoftBreak { next_break_distance } => match next_break_distance {
                    Measurement::Measured(distance) => self.printed_front(
                        self.printer.soft_break(distance),
                    ).print_measured(),
                    Measurement::Unmeasured { .. } => self,
                },
                TokenView::Begin { next_break_distance, break_style } => match next_break_distance {
                    Measurement::Measured(distance) => self.printed_front(
                        self.printer.begin(break_style, distance),
                    ).print_measured(),
                    Measurement::Unmeasured { .. } => self,
                },
                TokenView::Indent(diff) => self.printed_front(
                    self.printer.indent(diff),
                ).print_measured(),
                TokenView::End => if self.starts_with_unmeasured() {
                    self
                } else {
                    self.printed_front(self.printer.end()).print_measured()
                },
            }
        }
    }

    /// Whether the tokens that are not printed yet take more than what is
    /// left of the current line.
    pub open spec fn overflows(self) -> bool {
        self.total - self.printed > self.printer.line_size_budget
    }

    /// Gives up waiting for the distance of the front token: the distance
    /// becomes infinite, which forces the break, and the token leaves the
    /// waiting ones.
    pub open spec fn force_front(self) -> Self {
        let deque = if self.deque.items.len() > 0 && self.deque.items[0].is_unmeasured() {
            self.deque.set(
                self.deque.basis,
                self.deque.items[0].with_distance(Measurement::Measured(Size::Infinite)),
            )
        } else {
            self.deque
        };
        let unmeasured = if self.starts_with_unmeasured() {
            self.unmeasured.drop_first()
        } else {
            self.unmeasured
        };
        NormalizedView { deque, unmeasured, ..self }
    }

    /// Prints tokens while `always` holds or the tokens overflow the line,
    /// forcing the token at the front where it waits to be measured.
    pub open spec fn break_while(self, always: bool) -> Self
        decreases self.deque.items.len(),
    {
        if !(always || self.overflows()) || self.deque.items.len() == 0 {
            self
        } else {
            let next = self.force_front().print_measured();
            if next.deque.items.len() < self.deque.items.len() {
                next.break_while(always)
            } else {
                next
            }
        }
    }

    /// The state without the `k`-th waiting index.
    pub open spec fn forget(self, k: int) -> Self {
        NormalizedView { unmeasured: self.unmeasured.remove(k), ..self }
    }

    /// The state in which the token with the given index has its distance
    /// measured up to the present total.
    pub open spec fn measured(self, index: usize) -> Self {
        match self.deque.get(index) {
            Some(token) => match token.distance() {
                Some(distance) => NormalizedView {
                    deque: self.deque.set(
                        index,
                        token.with_distance(distance.measured_from(self.total)),
                    ),
                    ..self
                },
                None => self,
            },
            None => self,
        }
    }

    /// Goes through the waiting indices below `cursor` from the newest to
    /// the oldest, `depth` being the number of groups whose `End` was passed
    /// and whose `Begin` was not.
    ///
    /// An `End` is passed. A `SoftBreak` is measured, and ends the walk
    /// outside of any passed group. A `Begin` inside a passed group is
    /// measured. A `Begin` outside of any passed group ends the walk, unless
    /// it is the newest waiting token: then the group has just begun, and the
    /// walk goes on to the break before it.
    pub open spec fn measure_below(self, cursor: int, depth: nat) -> Self
        decreases cursor,
    {
        if cursor <= 0 || cursor > self.unmeasured.len() {
            self
        } else {
            let at = cursor - 1;
            let index = self.unmeasured[at];
            match self.deque.get(index) {
                None => self.forget(at).measure_below(at, depth),
                Some(TokenView::Begin { .. }) => if depth == 0 {
                    if at + 1 == self.unmeasured.len() {
                        self.measure_below(at, depth)
                    } else {
                        self
                    }
                } else {
                    self.forget(at).measured(index).measure_below(at, (depth - 1) as nat)
                },
                Some(TokenView::End) => self.forget(at).measure_below(at, depth + 1),
                Some(TokenView::SoftBreak { .. }) => if depth == 0 {
                    self.forget(at).measured(index)
                } else {
                    self.forget(at).measured(index).measure_below(at, depth)
                },
                Some(_) => self.measure_below(at, depth),
            }
        }
    }

    /// Measures what can be measured now that a break or the end of the input
    /// is known to follow.
    pub open spec fn measure(self) -> Self {
        self.measure_below(self.unmeasured.len() as int, 0)
    }

    /// A group begins.
    pub open spec fn begin(self, break_style: BreakStyleEnum) -> Self {
        self.push_unmeasured(
            TokenView::Begin {
                next_break_distance: Measurement::Unmeasured { preceding_tokens_size: self.total },
                break_style,
            },
        )
    }

    /// The level of indentation changes.
    pub open spec fn indent(self, diff: isize) -> Self {
        self.push(TokenView::Indent(diff))
    }

    /// The innermost group ends.
    pub open spec fn end(self) -> Self {
        self.push_unmeasured(TokenView::End)
    }

    /// A possible break.
    pub open spec fn soft_break(self) -> Self {
        let measured = self.measure();
        measured.push_unmeasured(
            TokenView::SoftBreak {
                next_break_distance: Measurement::Unmeasured {
                    preceding_tokens_size: measured.total,
                },
            },
        )
    }

    /// The state with `size` more in total.
    pub open spec fn grown(self, size: usize) -> Self {
        NormalizedView { total: plus(self.total, size), ..self }
    }

    /// A run of spaces.
    pub open spec fn space(self, size: usize) -> Self {
        self.push(TokenView::Space(size)).grown(size).break_while(false)
    }

    /// Raw text.
    pub open spec fn raw(self, text: Text) -> Self {
        self.push(TokenView::Raw(text)).grown(text.size).break_while(false)
    }

    /// A line break that is always taken: every token is printed first.
    pub open spec fn hard_break(self, count: usize) -> Self {
        let flushed = self.measure().break_while(true);
        NormalizedView { printer: flushed.printer.hard_break(count), ..flushed }
    }

    /// The end of the input: what can be measured is measured and printed,
    /// and the tokens that still wait are printed as if they did not fit.
    pub open spec fn eoi(self) -> Self {
        self.measure().print_measured().break_while(true)
    }
}

/// Adding a token at the back adds its size.
pub proof fn lemma_size_push(items: Seq<TokenView>, token: TokenView)
    ensures
        single_line_size(items.push(token)) == single_line_size(items) + token.size(),
{
    assert(items.push(token).drop_last() =~= items);
}

/// The size of the tokens is that of the first and that of the others.
pub proof fn lemma_size_drop_first(items: Seq<TokenView>)
    requires
        items.len() > 0,
    ensures
        single_line_size(items) == items[0].size() + single_line_size(items.drop_first()),
    decreases items.len(),
{
    if items.len() == 1 {
        assert(items.drop_first() =~= Seq::<TokenView>::empty());
        assert(items.drop_last() =~= Seq::<TokenView>::empty());
    } else {
        lemma_size_drop_first(items.drop_last());
        assert(items.drop_last().drop_first() =~= items.drop_first().drop_last());
    }
}

/// Putting a token of the same size in place of another keeps the size.
pub proof fn lemma_size_update(items: Seq<TokenView>, at: int, token: TokenView)
    requires
        0 <= at < items.len(),
        token.size() == items[at].size(),
    ensures
        single_line_size(items.update(at, token)) == single_line_size(items),
    decreases items.len(),
{
    if at == items.len() - 1 {
        assert(items.update(at, token).drop_last() =~= items.drop_last());
    } else {
        lemma_size_update(items.drop_last(), at, token);
        assert(items.update(at, token).drop_last() =~= items.drop_last().update(at, token));
    }
}

/// A token at the back keeps the invariant.
pub proof fn lemma_push_wf(state: NormalizedView, token: TokenView)
    requires
        state.wf(),
        state.deque.items.len() < usize::MAX,
        token.size() == 0,
        token.within(state.total),
    ensures
        state.push(token).wf(),
{
    let next = state.push(token);
    lemma_size_push(state.deque.items, token);
    assert forall|k: int| 0 <= k < next.unmeasured.len() implies {
        &&& next.position(k) < next.deque.items.len()
        &&& next.deque.items[next.position(k) as int].is_waiting()
    } by {
        assert(next.position(k) == state.position(k));
    }
    assert forall|j: int, k: int| 0 <= j < k < next.unmeasured.len() implies next.position(j)
        < next.position(k) by {
        assert(next.position(j) == state.position(j));
        assert(next.position(k) == state.position(k));
    }
}

/// A waiting token at the back, with its index among the waiting ones,
/// keeps the invariant.
pub proof fn lemma_push_unmeasured_wf(state: NormalizedView, token: TokenView)
    requires
        state.wf(),
        state.deque.items.len() < usize::MAX,
        token.size() == 0,
        token.is_waiting(),
        token.within(state.total),
    ensures
        state.push_unmeasured(token).wf(),
{
    let next = state.push_unmeasured(token);
    lemma_size_push(state.deque.items, token);
    assert(next.position(state.unmeasured.len() as int) == state.deque.items.len());
    assert forall|k: int| 0 <= k < next.unmeasured.len() implies {
        &&& next.position(k) < next.deque.items.len()
        &&& next.deque.items[next.position(k) as int].is_waiting()
    } by {
        if k < state.unmeasured.len() {
            assert(next.position(k) == state.position(k));
        }
    }
    assert forall|j: int, k: int| 0 <= j < k < next.unmeasured.len() implies next.position(j)
        < next.position(k) by {
        assert(next.position(j) == state.position(j));
        if k < state.unmeasured.len() {
            assert(next.position(k) == state.position(k));
        }
    }
}

/// A token with a size at the back, counted in the total, keeps the
/// invariant.
pub proof fn lemma_push_sized_wf(state: NormalizedView, token: TokenView)
    requires
        state.wf(),
        state.deque.items.len() < usize::MAX,
        token.distance() is None,
    ensures
        state.push(token).grown(token.size()).wf(),
{
    let next = state.push(token).grown(token.size());
    lemma_size_push(state.deque.items, token);
    assert forall|k: int| 0 <= k < next.unmeasured.len() implies {
        &&& next.position(k) < next.deque.items.len()
        &&& next.deque.items[next.position(k) as int].is_waiting()
    } by {
        assert(next.position(k) == state.position(k));
    }
    assert forall|j: int, k: int| 0 <= j < k < next.unmeasured.len() implies next.position(j)
        < next.position(k) by {
        assert(next.position(j) == state.position(j));
        assert(next.position(k) == state.position(k));
    }
    assert forall|i: int| 0 <= i < next.deque.items.len() implies (
    #[trigger] next.deque.items[i]).within(next.total) by {
        if i < state.deque.items.len() {
            assert(state.deque.items[i].within(state.total));
        }
    }
}

/// Whether the front token can be handed to the printer.
pub open spec fn front_is_ready(state: NormalizedView) -> bool {
    &&& state.deque.items.len() > 0
    &&& !state.deque.items[0].is_unmeasured()
    &&& state.deque.items[0] is End ==> !state.starts_with_unmeasured()
}

/// Handing the front token to the printer keeps the invariant.
pub proof fn lemma_printed_front_wf(state: NormalizedView, printer: PrinterView)
    requires
        state.wf(),
        front_is_ready(state),
    ensures
        state.printed_front(printer).wf(),
{
    let next = state.printed_front(printer);
    lemma_size_drop_first(state.deque.items);
    if state.unmeasured.len() > 0 {
        assert(state.position(0) < state.deque.items.len());
        assert(state.deque.items[state.position(0) as int].is_waiting());
        assert(state.position(0) != 0);
    }
    assert forall|k: int| 0 <= k < next.unmeasured.len() implies {
        &&& #[trigger] next.position(k) < next.deque.items.len()
        &&& next.deque.items[next.position(k) as int].is_waiting()
    } by {
        assert(state.position(0) <= state.position(k));
        assert(state.position(k) < state.deque.items.len());
        assert(next.position(k) == state.position(k) - 1);
        assert(state.deque.items[state.position(k) as int].is_waiting());
    }
    assert forall|j: int, k: int| 0 <= j < k < next.unmeasured.len() implies next.position(j)
        < next.position(k) by {
        assert(state.position(0) <= state.position(j));
        assert(state.position(j) < state.position(k));
        assert(next.position(j) == state.position(j) - 1);
        assert(next.position(k) == state.position(k) - 1);
    }
    assert forall|i: int| 0 <= i < next.deque.items.len() implies (
    #[trigger] next.deque.items[i]).within(next.total) by {
        assert(state.deque.items[i + 1].within(state.total));
    }
}

/// Giving up on the distance of the front token keeps the invariant.
pub proof fn lemma_force_front_wf(state: NormalizedView)
    requires
        state.wf(),
    ensures
        state.force_front().wf(),
        state.deque.items.len() > 0 ==> front_is_ready(state.force_front()),
        state.force_front().deque.items.len() == state.deque.items.len(),
{
    let next = state.force_front();
    if state.deque.items.len() > 0 && state.deque.items[0].is_unmeasured() {
        lemma_size_update(
            state.deque.items,
            0,
            state.deque.items[0].with_distance(Measurement::Measured(Size::Infinite)),
        );
    }
    let shift: int = if state.starts_with_unmeasured() {
        1
    } else {
        0
    };
    assert forall|k: int| 0 <= k < next.unmeasured.len() implies {
        &&& #[trigger] next.position(k) < next.deque.items.len()
        &&& next.deque.items[next.position(k) as int].is_waiting()
        &&& next.position(k) > 0
    } by {
        assert(next.position(k) == state.position(k + shift));
        assert(state.position(k + shift) < state.deque.items.len());
        assert(state.deque.items[state.position(k + shift) as int].is_waiting());
        if shift == 1 {
            assert(state.position(0) < state.position(k + 1));
        } else {
            if state.position(k) == 0 {
                assert(state.position(0) <= state.position(k));
                assert(state.position(0) == 0);
                assert(state.unmeasured[0] == state.deque.basis);
            }
        }
    }
    assert forall|j: int, k: int| 0 <= j < k < next.unmeasured.len() implies next.position(j)
        < next.position(k) by {
        assert(next.position(j) == state.position(j + shift));
        assert(next.position(k) == state.position(k + shift));
    }
    assert forall|i: int| 0 <= i < next.deque.items.len() implies (
    #[trigger] next.deque.items[i]).within(next.total) by {
        assert(state.deque.items[i].within(state.total));
    }
    if state.deque.items.len() > 0 {
        if next.starts_with_unmeasured() {
            assert(next.position(0) == 0);
        }
    }
}

/// Printing never adds tokens to the queue.
pub proof fn lemma_print_measured_len(state: NormalizedView)
    ensures
        state.print_measured().deque.items.len() <= state.deque.items.len(),
        front_is_ready(state) ==> state.print_measured().deque.items.len()
            < state.deque.items.len(),
    decreases state.deque.items.len(),
{
    if state.deque.items.len() > 0 {
        match state.deque.items[0] {
            TokenView::Raw(text) => lemma_print_measured_len(
                state.printed_front(state.printer.raw(text)),
            ),
            TokenView::Space(size) => lemma_print_measured_len(
                state.printed_front(state.printer.space(size)),
            ),
            TokenView::SoftBreak { next_break_distance } => match next_break_distance {
                Measurement::Measured(distance) => lemma_print_measured_len(
                    state.printed_front(state.printer.soft_break(distance)),
                ),
                Measurement::Unmeasured { .. } => {},
            },
            TokenView::Begin { next_break_distance, break_style } => match next_break_distance {
                Measurement::Measured(distance) => lemma_print_measured_len(
                    state.printed_front(state.printer.begin(break_style, distance)),
                ),
                Measurement::Unmeasured { .. } => {},
            },
            TokenView::Indent(diff) => lemma_print_measured_len(
                state.printed_front(state.printer.indent(diff)),
            ),
            TokenView::End => if !state.starts_with_unmeasured() {
                lemma_print_measured_len(state.printed_front(state.printer.end()))
            },
        }
    }
}

/// Taking the `at`-th index from the waiting ones, and measuring its token
/// where `measure` says so, keeps the invariant.
pub proof fn lemma_forget_wf(state: NormalizedView, at: int, measure: bool)
    requires
        state.wf(),
        0 <= at < state.unmeasured.len(),
    ensures
        state.forget(at).wf(),
        measure ==> state.forget(at).measured(state.unmeasured[at]).wf(),
{
    let next = state.forget(at);
    assert forall|k: int| 0 <= k < next.unmeasured.len() implies {
        &&& #[trigger] next.position(k) < next.deque.items.len()
        &&& next.deque.items[next.position(k) as int].is_waiting()
        &&& next.position(k) != state.position(at)
    } by {
        if k < at {
            assert(next.position(k) == state.position(k));
            assert(state.position(k) < state.position(at));
        } else {
            assert(next.position(k) == state.position(k + 1));
            assert(state.position(at) < state.position(k + 1));
        }
    }
    assert forall|j: int, k: int| 0 <= j < k < next.unmeasured.len() implies next.position(j)
        < next.position(k) by {
        let j0 = if j < at {
            j
        } else {
            j + 1
        };
        let k0 = if k < at {
            k
        } else {
            k + 1
        };
        assert(next.position(j) == state.position(j0));
        assert(next.position(k) == state.position(k0));
    }
    if measure {
        let index = state.unmeasured[at];
        let last = next.measured(index);
        assert(state.position(at) < state.deque.items.len());
        let token = state.deque.items[state.position(at) as int];
        assert(token.within(state.total));
        if token.distance() is Some {
            let changed = token.with_distance(token.distance()->0.measured_from(state.total));
            lemma_size_update(state.deque.items, state.position(at) as int, changed);
            assert forall|k: int| 0 <= k < last.unmeasured.len() implies {
                &&& #[trigger] last.position(k) < last.deque.items.len()
                &&& last.deque.items[last.position(k) as int].is_waiting()
            } by {
                assert(last.position(k) == next.position(k));
                assert(next.position(k) != state.position(at));
                assert(next.deque.items[next.position(k) as int].is_waiting());
            }
            assert forall|j: int, k: int| 0 <= j < k < last.unmeasured.len() implies last.position(
                j,
            ) < last.position(k) by {
                assert(last.position(j) == next.position(j));
                assert(last.position(k) == next.position(k));
            }
            assert forall|i: int| 0 <= i < last.deque.items.len() implies (
            #[trigger] last.deque.items[i]).within(last.total) by {
                assert(state.deque.items[i].within(state.total));
            }
        }
    }
}

/// The views of the given tokens.
pub open spec fn token_views<'a>(items: Seq<Token<'a>>) -> Seq<TokenView> {
    items.map_values(|token: Token<'a>| token@)
}

/// The tokens that are not printed yet, and which of them wait to be
/// measured.
pub struct Tokens<'a> {
    /// The tokens that are candidates for the next line.
    deque: SlidingDeque<Token<'a>>,
    /// The indices of the tokens that wait to be measured.
    unmeasured: VecDeque<usize>,
}

impl<'a> Tokens<'a> {
    /// The tokens.
    pub closed spec fn deque(&self) -> DequeView<TokenView> {
        DequeView { items: token_views(self.deque@.items), basis: self.deque@.basis }
    }

    /// The indices of the waiting tokens.
    pub closed spec fn unmeasured(&self) -> Seq<usize> {
        self.unmeasured@
    }

    /// No tokens.
    pub fn new() -> (tokens: Tokens<'a>)
        ensures
            tokens.deque() == (DequeView { items: Seq::<TokenView>::empty(), basis: 0usize }),
            tokens.unmeasured() == Seq::<usize>::empty(),
    {
        let tokens = Tokens { deque: SlidingDeque::new(), unmeasured: VecDeque::new() };
        assert(tokens.deque().items =~= Seq::<TokenView>::empty());
        tokens
    }

    /// Adds `token` at the back.
    pub fn push(&mut self, token: Token<'a>)
        ensures
            final(self).deque() == old(self).deque().push_back(token@),
            final(self).unmeasured() == old(self).unmeasured(),
            final(self).deque().items.len() <= usize::MAX,
    {
        self.deque.push_back(token);
        assert(self.deque().items =~= old(self).deque().items.push(token@));
    }

    /// Adds `token` at the back, and its index to the waiting ones.
    pub fn push_unmeasured(&mut self, token: Token<'a>)
        ensures
            final(self).deque() == old(self).deque().push_back(token@),
            final(self).unmeasured() == old(self).unmeasured().push(
                old(self).deque().next_index(),
            ),
            final(self).deque().items.len() <= usize::MAX,
    {
        let index: usize = self.deque.push_back(token);
        self.unmeasured.push_back(index);
        assert(self.deque().items =~= old(self).deque().items.push(token@));
    }

    /// Tells whether the token at the front waits to be measured.
    pub fn starts_with_unmeasured(&self) -> (waits: bool)
        ensures
            waits == (self.unmeasured().len() > 0 && self.unmeasured()[0] == self.deque().basis),
    {
        self.unmeasured.len() > 0 && self.unmeasured[0] == self.deque.basis()
    }

    /// The token at the front.
    pub fn front(&self) -> (front: Option<Token<'a>>)
        ensures
            self.deque().items.len() == 0 ==> front is None,
            self.deque().items.len() > 0 ==> front is Some && front->0@ == self.deque().items[0],
    {
        match self.deque.front() {
            Some(token) => Some(*token),
            None => None,
        }
    }

    /// The token with the given index.
    pub fn get(&self, index: usize) -> (token: Option<Token<'a>>)
        ensures
            self.deque().get(index) is None ==> token is None,
            self.deque().get(index) is Some ==> token is Some && Some(token->0@)
                == self.deque().get(index),
    {
        match self.deque.get(index) {
            Some(token) => Some(*token),
            None => None,
        }
    }

    /// Puts `token` in place of the token with the given index.
    pub fn replace(&mut self, index: usize, token: Token<'a>)
        ensures
            final(self).deque() == old(self).deque().set(index, token@),
            final(self).unmeasured() == old(self).unmeasured(),
    {
        match self.deque.get_mut(index) {
            Some(slot) => {
                *slot = token;
            },
            None => {},
        }
        assert(self.deque().items =~= old(self).deque().set(index, token@).items);
    }

    /// Removes the token at the front.
    pub fn pop_front(&mut self)
        ensures
            final(self).deque() == old(self).deque().pop_front(),
            final(self).unmeasured() == old(self).unmeasured(),
    {
        self.deque.pop_front();
        assert(self.deque().items =~= old(self).deque().pop_front().items);
    }
}

/// A primitive generic formatter that works in terms of a [`Token`] that has
/// groups, breaks, indent and raw text. It takes the tokens in time that is
/// linear to their number, and buffers no more of them than a line holds.
///
/// There are two component parts to the formatter: calculating the
/// single-line size of the tokens, which is done here, and printing the
/// measured tokens, using their size to decide where to place line breaks,
/// which the [`Printer`] does.
pub struct NormalizedFormatter<'a> {
    tokens: Tokens<'a>,
    /// Size of tokens that were already printed, calculated as if the tokens
    /// were printed on a single line.
    printed_single_line_size: usize,
    /// Size of all tokens, printed or not, calculated as if the tokens were
    /// printed on a single line.
    total_single_line_size: usize,
    printer: Printer<'a>,
}

impl<'a> View for NormalizedFormatter<'a> {
    type V = NormalizedView;

    closed spec fn view(&self) -> NormalizedView {
        NormalizedView {
            deque: self.tokens.deque(),
            unmeasured: self.tokens.unmeasured(),
            printed: self.printed_single_line_size,
            total: self.total_single_line_size,
            printer: self.printer@,
        }
    }
}

impl<'a> NormalizedFormatter<'a> {
    /// The invariant of the formatter.
    pub open spec fn wf(&self) -> bool {
        self@.wf()
    }

    /// A formatter that has seen no token.
    pub fn new(config: PrinterConfig<'a>) -> (formatter: NormalizedFormatter<'a>)
        ensures
            formatter@ == NormalizedView::new(
                config.max_line_size,
                config.no_break_size,
                config.indent_str@,
            ),
            formatter.wf(),
    {
        NormalizedFormatter {
            tokens: Tokens::new(),
            printed_single_line_size: 0,
            total_single_line_size: 0,
            printer: Printer::new(config),
        }
    }

    /// End of input: prints what is left and returns the output.
    pub fn eoi(self) -> (output: String)
        requires
            self.wf(),
        ensures
            output@ == self@.eoi().printer.output,
    {
        let mut formatter = self;
        formatter.measure_tokens();
        formatter.print_measured_tokens();
        formatter.break_while(true);
        formatter.printer.finish()
    }

    /// A group begins.
    pub fn begin(&mut self, break_style: BreakStyleEnum)
        requires
            old(self).wf(),
        ensures
            final(self)@ == old(self)@.begin(break_style),
            final(self).wf(),
    {
        let token = Token::Begin {
            next_break_distance: Measurement::Unmeasured {
                preceding_tokens_size: self.total_single_line_size,
            },
            break_style,
        };
        self.tokens.push_unmeasured(token);
        proof {
            lemma_push_unmeasured_wf(old(self)@, token@);
        }
    }

    /// The level of indentation changes by `diff`.
    pub fn indent(&mut self, diff: isize)
        requires
            old(self).wf(),
        ensures
            final(self)@ == old(self)@.indent(diff),
            final(self).wf(),
    {
        self.tokens.push(Token::Indent(diff));
        proof {
            lemma_push_wf(old(self)@, TokenView::Indent(diff));
        }
    }

    /// The innermost group ends.
    pub fn end(&mut self)
        requires
            old(self).wf(),
        ensures
            final(self)@ == old(self)@.end(),
            final(self).wf(),
    {
        self.tokens.push_unmeasured(Token::End);
        proof {
            lemma_push_unmeasured_wf(old(self)@, TokenView::End);
        }
    }

    /// A line break that is always taken.
    pub fn hard_break(&mut self, count: usize)
        requires
            old(self).wf(),
        ensures
            final(self)@ == old(self)@.hard_break(count),
            final(self).wf(),
    {
        self.measure_tokens();
        self.break_while(true);
        self.printer.hard_break(count);
        proof {
            lemma_printer_keeps_wf(old(self)@.measure().break_while(true), self@.printer);
        }
    }

    /// A point where the line can be broken.
    pub fn soft_break(&mut self)
        requires
            old(self).wf(),
        ensures
            final(self)@ == old(self)@.soft_break(),
            final(self).wf(),
    {
        self.measure_tokens();
        let ghost measured = self@;
        let token = Token::SoftBreak {
            next_break_distance: Measurement::Unmeasured {
                preceding_tokens_size: self.total_single_line_size,
            },
        };
        self.tokens.push_unmeasured(token);
        proof {
            lemma_push_unmeasured_wf(measured, token@);
        }
    }

    /// A run of `size` spaces.
    pub fn space(&mut self, size: usize)
        requires
            old(self).wf(),
        ensures
            final(self)@ == old(self)@.space(size),
            final(self).wf(),
    {
        self.tokens.push(Token::Space(size));
        self.total_single_line_size = self.total_single_line_size.saturating_add(size);
        proof {
            lemma_push_sized_wf(old(self)@, TokenView::Space(size));
        }
        self.break_while(false);
    }

    /// Raw text.
    pub fn raw(&mut self, content: MeasuredStr<'a>)
        requires
            old(self).wf(),
        ensures
            final(self)@ == old(self)@.raw(content@),
            final(self).wf(),
    {
        self.tokens.push(Token::Raw(content));
        self.total_single_line_size = self.total_single_line_size.saturating_add(
            content.visual_size(),
        );
        proof {
            lemma_push_sized_wf(old(self)@, TokenView::Raw(content@));
        }
        self.break_while(false);
    }

    /// Prints tokens while `always` holds or the tokens overflow the line,
    /// assigning an infinite distance to the token at the front where it
    /// waits to be measured, which forces the line break there.
    fn break_while(&mut self, always: bool)
        requires
            old(self).wf(),
        ensures
            final(self)@ == old(self)@.break_while(always),
            final(self).wf(),
    {
        loop
            invariant
                self.wf(),
                self@.break_while(always) == old(self)@.break_while(always),
            decreases self@.deque.items.len(),
        {
            let pending_size: usize = self.total_single_line_size
                - self.printed_single_line_size;
            if !(always || pending_size > self.printer.line_size_budget()) {
                return ;
            }
            let front = match self.tokens.front() {
                Some(token) => token,
                None => {
                    return ;
                },
            };
            let ghost before = self@;
            match front {
                Token::SoftBreak { next_break_distance: Measurement::Unmeasured { .. } } => {
                    self.tokens.replace(
                        self.tokens.deque.basis(),
                        Token::SoftBreak {
                            next_break_distance: Measurement::Measured(Size::Infinite),
                        },
                    );
                },
                Token::Begin {
                    next_break_distance: Measurement::Unmeasured { .. },
                    break_style,
                } => {
                    self.tokens.replace(
                        self.tokens.deque.basis(),
                        Token::Begin {
                            next_break_distance: Measurement::Measured(Size::Infinite),
                            break_style,
                        },
                    );
                },
                _ => {},
            }
            if self.tokens.starts_with_unmeasured() {
                self.tokens.unmeasured.pop_front();
            }
            proof {
                assert(self@.unmeasured =~= before.force_front().unmeasured);
                assert(self@ == before.force_front());
                lemma_force_front_wf(before);
                lemma_print_measured_len(before.force_front());
            }
            self.print_measured_tokens();
        }
    }

    /// Hands the tokens at the front to the printer, up to the first one
    /// that waits to be measured.
    fn print_measured_tokens(&mut self)
        requires
            old(self).wf(),
        ensures
            final(self)@ == old(self)@.print_measured(),
            final(self).wf(),
    {
        loop
            invariant
                self.wf(),
                self@.print_measured() == old(self)@.print_measured(),
            decreases self@.deque.items.len(),
        {
            let token = match self.tokens.front() {
                Some(token) => token,
                None => {
                    return ;
                },
            };
            let ghost before = self@;
            match token {
                Token::Raw(content) => {
                    self.printed_single_line_size = self.printed_single_line_size.saturating_add(
                        content.visual_size(),
                    );
                    self.printer.raw(content);
                },
                Token::Space(size) => {
                    self.printed_single_line_size = self.printed_single_line_size.saturating_add(
                        size,
                    );
                    self.printer.space(size);
                },
                Token::SoftBreak { next_break_distance } => {
                    match next_break_distance {
                        Measurement::Measured(distance) => {
                            self.printer.soft_break(distance);
                        },
                        Measurement::Unmeasured { .. } => {
                            return ;
                        },
                    }
                },
                Token::Begin { next_break_distance, break_style } => {
                    match next_break_distance {
                        Measurement::Measured(distance) => {
                            self.printer.begin(break_style, distance);
                        },
                        Measurement::Unmeasured { .. } => {
                            return ;
                        },
                    }
                },
                Token::Indent(diff) => {
                    self.printer.indent(diff);
                },
                Token::End => {
                    if self.tokens.starts_with_unmeasured() {
                        // This `End` is still staged for its group
                        // measurement, it cannot be printed yet.
                        return ;
                    }
                    self.printer.end();
                },
            }
            self.tokens.pop_front();
            proof {
                assert(self@ == before.printed_front(self@.printer));
                lemma_printed_front_wf(before, self@.printer);
            }
        }
    }

    /// Measures what can be measured now that a break or the end of the input
    /// is known to follow.
    fn measure_tokens(&mut self)
        requires
            old(self).wf(),
        ensures
            final(self)@ == old(self)@.measure(),
            final(self).wf(),
    {
        let mut depth: usize = 0;
        let mut cursor: usize = self.tokens.unmeasured.len();
        let ghost waiting = self.tokens.unmeasured@.len();
        while cursor > 0
            invariant
                self.wf(),
                cursor <= self@.unmeasured.len(),
                depth + self@.unmeasured.len() <= waiting <= usize::MAX,
                self@.measure_below(cursor as int, depth as nat) == old(self)@.measure(),
            decreases cursor,
        {
            cursor -= 1;
            let index: usize = self.tokens.unmeasured[cursor];
            let total: usize = self.total_single_line_size;
            let ghost before = self@;
            proof {
                assert(before.position(cursor as int) < before.deque.items.len());
                assert(before.deque.items[before.position(cursor as int) as int].within(
                    before.total,
                ));
            }
            match self.tokens.get(index) {
                None => {
                    self.tokens.unmeasured.remove(cursor);
                    proof {
                        lemma_forget_wf(before, cursor as int, false);
                    }
                },
                Some(Token::Begin { next_break_distance, break_style }) => {
                    if depth == 0 {
                        // The group has just begun: this is the first break
                        // in it, which ends the measurement of the break
                        // before the group, if there is one.
                        if cursor + 1 == self.tokens.unmeasured.len() {
                            continue ;
                        }
                        return ;
                    }
                    self.tokens.unmeasured.remove(cursor);
                    let mut distance = next_break_distance;
                    distance.measure_from(total);
                    self.tokens.replace(
                        index,
                        Token::Begin { next_break_distance: distance, break_style },
                    );
                    depth -= 1;
                    proof {
                        lemma_forget_wf(before, cursor as int, true);
                    }
                },
                Some(Token::End) => {
                    self.tokens.unmeasured.remove(cursor);
                    depth += 1;
                    proof {
                        lemma_forget_wf(before, cursor as int, false);
                    }
                },
                Some(Token::SoftBreak { next_break_distance }) => {
                    self.tokens.unmeasured.remove(cursor);
                    let mut distance = next_break_distance;
                    distance.measure_from(total);
                    self.tokens.replace(index, Token::SoftBreak { next_break_distance: distance });
                    proof {
                        lemma_forget_wf(before, cursor as int, true);
                    }
                    if depth == 0 {
                        return ;
                    }
                },
                Some(_) => {},
            }
        }
    }
}

/// The invariant does not depend on the printer.
pub proof fn lemma_printer_keeps_wf(state: NormalizedView, printer: PrinterView)
    requires
        state.wf(),
    ensures
        (NormalizedView { printer, ..state }).wf(),
{
    let next = NormalizedView { printer, ..state };
    assert forall|k: int| 0 <= k < next.unmeasured.len() implies {
        &&& #[trigger] next.position(k) < next.deque.items.len()
        &&& next.deque.items[next.position(k) as int].is_waiting()
    } by {
        assert(next.position(k) == state.position(k));
    }
    assert forall|j: int, k: int| 0 <= j < k < next.unmeasured.len() implies next.position(j)
        < next.position(k) by {
        assert(next.position(j) == state.position(j));
        assert(next.position(k) == state.position(k));
    }
}

} // verus!
