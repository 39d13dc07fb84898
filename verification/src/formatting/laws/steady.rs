//! The measuring part while all tokens fit on the line: nothing is printed
//! before the end of the input, every distance is measured exactly, and at
//! the end of a balanced sequence of operations no token waits any more.

use crate::formatting::engine::normalized::{lemma_size_push, single_line_size, NormalizedView};
use crate::formatting::engine::token::{Measurement, Size, TokenView};
use crate::formatting::engine::trace::{lemma_measured_shapes, token_shapes};
use vstd::prelude::*;

verus! {

/// What a token adds to the number of groups that have ended and not begun,
/// for a walk from the newest token to the oldest.
pub open spec fn mark(token: TokenView) -> int {
    match token {
        TokenView::End => 1,
        TokenView::Begin { .. } => -1,
        _ => 0,
    }
}

/// The sum of the values.
pub open spec fn sum(values: Seq<int>) -> int
    decreases values.len(),
{
    if values.len() == 0 {
        0
    } else {
        sum(values.drop_last()) + values.last()
    }
}

/// The sum of the values from `from` up to `to`.
pub open spec fn sum_between(values: Seq<int>, from: int, to: int) -> int {
    sum(values.subrange(from, to))
}

/// The sum up to a position and the value there make the sum up to the
/// next position.
pub proof fn lemma_sum_between_next(values: Seq<int>, from: int, to: int)
    requires
        0 <= from <= to < values.len(),
    ensures
        sum_between(values, from, to + 1) == sum_between(values, from, to) + values[to],
        sum_between(values, to, to) == 0,
{
    assert(values.subrange(from, to + 1).drop_last() =~= values.subrange(from, to));
}

/// The sum over no values is 0.
pub proof fn lemma_sum_between_none(values: Seq<int>, at: int)
    requires
        0 <= at <= values.len(),
    ensures
        sum_between(values, at, at) == 0,
{
}

/// The marks of the tokens.
pub open spec fn marks_of(items: Seq<TokenView>) -> Seq<int> {
    items.map_values(|token: TokenView| mark(token))
}

/// The number of groups among the tokens that have begun and not ended.
pub open spec fn open_groups(items: Seq<TokenView>) -> int {
    -sum(marks_of(items))
}

/// The marks of the tokens that wait to be measured, the oldest first.
pub open spec fn waiting_marks(state: NormalizedView) -> Seq<int> {
    Seq::new(
        state.unmeasured.len(),
        |k: int| mark(state.deque.items[state.unmeasured[k] as int]),
    )
}

/// Whether the distance of the `i`-th token is what the tokens say: where
/// the token waits, it holds the size of the tokens before it; where it is
/// measured, the distance is known and ends within `total`.
pub open spec fn placed(items: Seq<TokenView>, i: int, total: usize) -> bool {
    match items[i].distance() {
        Some(Measurement::Unmeasured { preceding_tokens_size }) => preceding_tokens_size
            == single_line_size(items.take(i)),
        Some(Measurement::Measured(Size::Fixed(distance))) => single_line_size(items.take(i))
            + distance <= total,
        Some(Measurement::Measured(Size::Infinite)) => false,
        None => true,
    }
}

/// Whether nothing was printed yet and all tokens fit in `limit`, with
/// every distance in its place.
pub open spec fn sound(state: NormalizedView, limit: usize) -> bool {
    let items = state.deque.items;
    let waiting = state.unmeasured;
    &&& state.deque.basis == 0
    &&& items.len() < usize::MAX
    &&& state.printed == 0
    &&& state.total == single_line_size(items)
    &&& state.total <= limit <= state.printer.line_size_budget
    &&& forall|i: int| 0 <= i < items.len() ==> #[trigger] placed(items, i, state.total)
    &&& forall|k: int|
        0 <= k < waiting.len() ==> #[trigger] waiting[k] < items.len()
            && items[waiting[k] as int].is_waiting()
    &&& forall|j: int, k: int|
        0 <= j < k < waiting.len() ==> #[trigger] waiting[j] < #[trigger] waiting[k]
    &&& forall|i: int|
        0 <= i < items.len() && (#[trigger] items[i]).is_unmeasured() ==> waiting.contains(
            i as usize,
        )
}

/// The size of the first tokens is not more than the size of all.
pub proof fn lemma_size_take(items: Seq<TokenView>, count: int)
    requires
        0 <= count <= items.len(),
    ensures
        single_line_size(items.take(count)) <= single_line_size(items),
    decreases items.len(),
{
    if count == items.len() {
        assert(items.take(count) =~= items);
    } else {
        lemma_size_take(items.drop_last(), count);
        assert(items.drop_last().take(count) =~= items.take(count));
    }
}

/// A token at the back adds its mark.
pub proof fn lemma_open_groups_push(items: Seq<TokenView>, token: TokenView)
    ensures
        open_groups(items.push(token)) == open_groups(items) - mark(token),
{
    assert(marks_of(items.push(token)).drop_last() =~= marks_of(items));
}

/// Another distance in a token changes no mark.
pub proof fn lemma_open_groups_update(items: Seq<TokenView>, at: int, distance: Measurement)
    requires
        0 <= at < items.len(),
    ensures
        open_groups(items.update(at, items[at].with_distance(distance))) == open_groups(items),
{
    assert(marks_of(items.update(at, items[at].with_distance(distance))) =~= marks_of(items));
}

/// Another distance in a token changes no size.
pub proof fn lemma_size_distance(items: Seq<TokenView>, at: int, distance: Measurement, count: int)
    requires
        0 <= at < items.len(),
        0 <= count <= items.len(),
    ensures
        single_line_size(items.update(at, items[at].with_distance(distance)).take(count))
            == single_line_size(items.take(count)),
    decreases count,
{
    let changed = items.update(at, items[at].with_distance(distance));
    if count > 0 {
        lemma_size_distance(items, at, distance, count - 1);
        assert(changed.take(count).drop_last() =~= changed.take(count - 1));
        assert(items.take(count).drop_last() =~= items.take(count - 1));
        assert(changed.take(count).last().size() == items.take(count).last().size());
    }
}

/// A token without a distance at the back, counted in the total, keeps the
/// state sound while the total stays within the limit.
pub proof fn lemma_sound_push(state: NormalizedView, limit: usize, token: TokenView)
    requires
        sound(state, limit),
        token.distance() is None,
        state.total + token.size() <= limit,
        state.deque.items.len() + 1 < usize::MAX,
    ensures
        sound(state.push(token).grown(token.size()), limit),
        waiting_marks(state.push(token).grown(token.size())) == waiting_marks(state),
{
    let next = state.push(token).grown(token.size());
    let items = state.deque.items;
    lemma_size_push(items, token);
    assert forall|i: int| 0 <= i < next.deque.items.len() implies #[trigger] placed(
        next.deque.items,
        i,
        next.total,
    ) by {
        if i < items.len() {
            assert(placed(items, i, state.total));
            assert(next.deque.items.take(i) =~= items.take(i));
        }
    }
    assert forall|i: int|
        0 <= i < next.deque.items.len() && (
        #[trigger] next.deque.items[i]).is_unmeasured() implies next.unmeasured.contains(
        i as usize,
    ) by {
        assert(items[i].is_unmeasured());
    }
    assert(waiting_marks(next) =~= waiting_marks(state));
}

/// A waiting token at the back, with the size of the tokens before it,
/// keeps the state sound.
pub proof fn lemma_sound_push_waiting(state: NormalizedView, limit: usize, token: TokenView)
    requires
        sound(state, limit),
        token is End || token.distance() == Some(
            Measurement::Unmeasured { preceding_tokens_size: state.total },
        ),
        state.deque.items.len() + 1 < usize::MAX,
    ensures
        sound(state.push_unmeasured(token), limit),
        waiting_marks(state.push_unmeasured(token)) == waiting_marks(state).push(mark(token)),
{
    let next = state.push_unmeasured(token);
    let items = state.deque.items;
    let count = state.unmeasured.len() as int;
    lemma_size_push(items, token);
    assert(state.deque.next_index() == items.len());
    assert(next.unmeasured[count] == items.len());
    assert forall|i: int| 0 <= i < next.deque.items.len() implies #[trigger] placed(
        next.deque.items,
        i,
        next.total,
    ) by {
        assert(next.deque.items.take(i) =~= items.take(i));
        if i < items.len() {
            assert(placed(items, i, state.total));
        }
    }
    assert forall|k: int| 0 <= k < next.unmeasured.len() implies #[trigger] next.unmeasured[k]
        < next.deque.items.len() && next.deque.items[next.unmeasured[k] as int].is_waiting() by {
        if k < count {
            assert(state.unmeasured[k] < items.len());
        }
    }
    assert forall|j: int, k: int| 0 <= j < k < next.unmeasured.len() implies #[trigger] next.unmeasured[j]
        < #[trigger] next.unmeasured[k] by {
        assert(state.unmeasured[j] < items.len());
        if k < count {
            assert(state.unmeasured[j] < state.unmeasured[k]);
        }
    }
    assert forall|i: int|
        0 <= i < next.deque.items.len() && (
        #[trigger] next.deque.items[i]).is_unmeasured() implies next.unmeasured.contains(
        i as usize,
    ) by {
        if i < items.len() {
            assert(items[i].is_unmeasured());
            let k = choose|k: int| 0 <= k < count && state.unmeasured[k] == i as usize;
            assert(next.unmeasured[k] == i as usize);
        } else {
            assert(next.unmeasured[count] == i as usize);
        }
    }
    assert(waiting_marks(next) =~= waiting_marks(state).push(mark(token))) by {
        assert forall|k: int| 0 <= k < count implies waiting_marks(next)[k] == waiting_marks(
            state,
        )[k] by {
            assert(state.unmeasured[k] < items.len());
        }
    }
}

/// One step of measuring: the `at`-th waiting token leaves the waiting
/// ones, measured unless it is an `End`. The state stays sound, and the
/// marks of the other waiting tokens stay.
pub proof fn lemma_sound_step(state: NormalizedView, limit: usize, at: int) -> (next:
    NormalizedView)
    requires
        sound(state, limit),
        0 <= at < state.unmeasured.len(),
    ensures
        next == if state.deque.items[state.unmeasured[at] as int] is End {
            state.forget(at)
        } else {
            state.forget(at).measured(state.unmeasured[at])
        },
        sound(next, limit),
        waiting_marks(next) == waiting_marks(state).remove(at),
        open_groups(next.deque.items) == open_groups(state.deque.items),
        next.deque.items.len() == state.deque.items.len(),
        next.total == state.total,
        next.printer == state.printer,
        token_shapes(next.deque.items) == token_shapes(state.deque.items),
{
    let items = state.deque.items;
    let index = state.unmeasured[at];
    let place = index as int;
    lemma_measured_shapes(state.forget(at), index);
    let token = items[place];
    assert(index < items.len() && token.is_waiting());
    let forgotten = state.forget(at);
    let next = if token is End {
        forgotten
    } else {
        forgotten.measured(index)
    };
    assert forall|k: int| 0 <= k < next.unmeasured.len() implies #[trigger] next.unmeasured[k]
        < items.len() && next.unmeasured[k] != index && items[next.unmeasured[k] as int].is_waiting() by {
        if k < at {
            assert(state.unmeasured[k] < state.unmeasured[at]);
            assert(state.unmeasured[k] < items.len());
        } else {
            assert(state.unmeasured[at] < state.unmeasured[k + 1]);
            assert(state.unmeasured[k + 1] < items.len());
        }
    }
    assert forall|j: int, k: int| 0 <= j < k < next.unmeasured.len() implies #[trigger] next.unmeasured[j]
        < #[trigger] next.unmeasured[k] by {
        let j0 = if j < at { j } else { j + 1 };
        let k0 = if k < at { k } else { k + 1 };
        assert(state.unmeasured[j0] < state.unmeasured[k0]);
    }
    if token is End {
        assert forall|i: int|
            0 <= i < items.len() && (#[trigger] items[i]).is_unmeasured() implies next.unmeasured.contains(
            i as usize,
        ) by {
            let k = choose|k: int| 0 <= k < state.unmeasured.len() && state.unmeasured[k] == i as usize;
            if k < at {
                assert(next.unmeasured[k] == i as usize);
            } else {
                assert(next.unmeasured[k - 1] == i as usize);
            }
        }
        assert(waiting_marks(next) =~= waiting_marks(state).remove(at));
    } else {
        let distance = token.distance()->0.measured_from(state.total);
        let changed = items.update(place, token.with_distance(distance));
        assert(next.deque.items == changed);
        assert(placed(items, place, state.total));
        lemma_size_take(items, place);
        lemma_size_distance(items, place, distance, items.len() as int);
        assert(items.take(items.len() as int) =~= items);
        assert(changed.take(items.len() as int) =~= changed);
        lemma_open_groups_update(items, place, distance);
        assert forall|i: int| 0 <= i < changed.len() implies #[trigger] placed(
            changed,
            i,
            next.total,
        ) by {
            lemma_size_distance(items, place, distance, i);
            assert(placed(items, i, state.total));
        }
        assert forall|k: int| 0 <= k < next.unmeasured.len() implies #[trigger] next.unmeasured[k]
            < changed.len() && changed[next.unmeasured[k] as int].is_waiting() by {
            assert(next.unmeasured[k] != index);
        }
        assert forall|i: int|
            0 <= i < changed.len() && (#[trigger] changed[i]).is_unmeasured() implies next.unmeasured.contains(
            i as usize,
        ) by {
            assert(i != place);
            assert(items[i].is_unmeasured());
            let k = choose|k: int| 0 <= k < state.unmeasured.len() && state.unmeasured[k] == i as usize;
            if k < at {
                assert(next.unmeasured[k] == i as usize);
            } else {
                assert(next.unmeasured[k - 1] == i as usize);
            }
        }
        assert(waiting_marks(next) =~= waiting_marks(state).remove(at)) by {
            assert forall|k: int| 0 <= k < next.unmeasured.len() implies waiting_marks(next)[k]
                == waiting_marks(state).remove(at)[k] by {
                assert(next.unmeasured[k] != index);
            }
        }
    }
    next
}

/// Whether the waiting tokens below `cursor` are in step with the groups,
/// on a walk from the newest to the oldest that has reached `cursor` with
/// `depth` groups ended and not begun, and has left the waiting tokens
/// behind `cursor` among the waiting ones: one token at most, a `Begin`.
///
/// At no waiting token have more groups begun than are open or have ended
/// behind it. And only before the oldest waiting token can a `SoftBreak`
/// stand outside of every group.
pub open spec fn in_step(state: NormalizedView, cursor: int, depth: int) -> bool {
    let items = state.deque.items;
    let waiting = state.unmeasured;
    let marks = waiting_marks(state);
    let kept = waiting.len() - cursor;
    let open = open_groups(items);
    &&& 0 <= cursor <= waiting.len()
    &&& 0 <= depth
    &&& kept <= 1
    &&& kept <= open
    &&& kept == 1 ==> marks[cursor] == -1
    &&& forall|k: int|
        0 <= k <= cursor ==> #[trigger] sum_between(marks, k, cursor) + depth + open >= kept
    &&& forall|k: int|
        2 <= k <= cursor && items[waiting[k - 1] as int] is SoftBreak ==> #[trigger] sum_between(
            marks,
            k,
            cursor,
        ) + depth + open != kept
}

/// Whether all tokens fit in `limit`, nothing was printed, and the waiting
/// tokens are in step with the groups.
pub open spec fn steady(state: NormalizedView, limit: usize) -> bool {
    sound(state, limit) && in_step(state, state.unmeasured.len() as int, 0)
}

/// A walk that is in step measures the waiting tokens and stays in step.
/// Where no group is open, no token waits after it.
pub proof fn lemma_measure_below(state: NormalizedView, limit: usize, cursor: int, depth: int)
    requires
        sound(state, limit),
        in_step(state, cursor, depth),
    ensures
        steady(state.measure_below(cursor, depth as nat), limit),
        open_groups(state.measure_below(cursor, depth as nat).deque.items) == open_groups(
            state.deque.items,
        ),
        open_groups(state.deque.items) == 0 ==> state.measure_below(
            cursor,
            depth as nat,
        ).unmeasured.len() == 0,
        state.measure_below(cursor, depth as nat).deque.items.len() == state.deque.items.len(),
        state.measure_below(cursor, depth as nat).total == state.total,
        state.measure_below(cursor, depth as nat).printer == state.printer,
        token_shapes(state.measure_below(cursor, depth as nat).deque.items) == token_shapes(
            state.deque.items,
        ),
    decreases cursor,
{
    let items = state.deque.items;
    let waiting = state.unmeasured;
    let marks = waiting_marks(state);
    let kept = waiting.len() - cursor;
    let open = open_groups(items);
    lemma_sum_between_none(marks, cursor);
    assert(sum_between(marks, cursor, cursor) + depth + open >= kept);
    if cursor <= 0 {
        lemma_in_step_rest(state, cursor, depth);
    } else {
        let at = cursor - 1;
        let index = waiting[at];
        let token = items[index as int];
        assert(index < items.len() && token.is_waiting());
        assert(state.deque.get(index) == Some(token));
        assert(marks[at] == mark(token));
        if token is Begin && depth == 0 {
            lemma_sum_between_next(marks, at, at);
            assert(sum_between(marks, at, cursor) + depth + open >= kept);
            if at + 1 == waiting.len() {
                assert forall|k: int| 0 <= k <= at implies #[trigger] sum_between(marks, k, at)
                    + depth + open >= 1 by {
                    lemma_sum_between_next(marks, k, at);
                    assert(sum_between(marks, k, cursor) + depth + open >= kept);
                }
                assert forall|k: int|
                    2 <= k <= at && items[waiting[k - 1] as int] is SoftBreak implies #[trigger] sum_between(
                    marks,
                    k,
                    at,
                ) + depth + open != 1 by {
                    lemma_sum_between_next(marks, k, at);
                    assert(sum_between(marks, k, cursor) + depth + open != kept);
                }
                lemma_measure_below(state, limit, at, depth);
            } else {
                lemma_in_step_rest(state, cursor, depth);
            }
        } else {
            let next = lemma_sound_step(state, limit, at);
            let others = waiting_marks(next);
            if token is SoftBreak && depth == 0 {
                assert forall|k: int| 0 <= k <= at implies #[trigger] sum_between(others, k, at)
                    + depth + open >= kept by {
                    lemma_sum_between_next(marks, k, at);
                    assert(others.subrange(k, at) =~= marks.subrange(k, at));
                    assert(sum_between(marks, k, cursor) + depth + open >= kept);
                }
                assert forall|k: int|
                    2 <= k <= at && next.deque.items[next.unmeasured[k - 1] as int] is SoftBreak implies #[trigger] sum_between(
                    others,
                    k,
                    at,
                ) + depth + open != kept by {
                    lemma_sum_between_next(marks, k, at);
                    assert(others.subrange(k, at) =~= marks.subrange(k, at));
                    assert(next.unmeasured[k - 1] == waiting[k - 1]);
                    assert(waiting[k - 1] < waiting[at]);
                    assert(sum_between(marks, k, cursor) + depth + open != kept);
                }
                if at >= 1 {
                    assert(sum_between(marks, cursor, cursor) + depth + open != kept);
                }
                lemma_in_step_rest(next, at, depth);
                assert(open == 0 ==> at == 0);
            } else {
                let deeper = depth + mark(token);
                assert forall|k: int| 0 <= k <= at implies #[trigger] sum_between(others, k, at)
                    + deeper + open >= kept by {
                    lemma_sum_between_next(marks, k, at);
                    assert(others.subrange(k, at) =~= marks.subrange(k, at));
                    assert(sum_between(marks, k, cursor) + depth + open >= kept);
                }
                assert forall|k: int|
                    2 <= k <= at && next.deque.items[next.unmeasured[k - 1] as int] is SoftBreak implies #[trigger] sum_between(
                    others,
                    k,
                    at,
                ) + deeper + open != kept by {
                    lemma_sum_between_next(marks, k, at);
                    assert(others.subrange(k, at) =~= marks.subrange(k, at));
                    assert(next.unmeasured[k - 1] == waiting[k - 1]);
                    assert(waiting[k - 1] < waiting[at]);
                    assert(sum_between(marks, k, cursor) + depth + open != kept);
                }
                lemma_measure_below(next, limit, at, deeper);
            }
        }
    }
}

/// Where a walk that is in step ends, the waiting tokens are in step for
/// the next walk. Where no group is open, no token waits.
pub proof fn lemma_in_step_rest(state: NormalizedView, cursor: int, depth: int)
    requires
        in_step(state, cursor, depth),
        cursor == 0 || depth == 0,
    ensures
        in_step(state, state.unmeasured.len() as int, 0),
        open_groups(state.deque.items) == 0 && cursor == 0 ==> state.unmeasured.len() == 0,
{
    let marks = waiting_marks(state);
    let count = state.unmeasured.len() as int;
    let open = open_groups(state.deque.items);
    assert forall|k: int| 0 <= k <= count implies #[trigger] sum_between(marks, k, count) + open
        >= 0 by {
        if k <= cursor {
            if cursor < count {
                lemma_sum_between_next(marks, k, cursor);
            }
            assert(sum_between(marks, k, cursor) + depth + open >= count - cursor);
            if cursor == 0 && depth > 0 {
                lemma_sum_between_none(marks, 0);
            }
        }
    }
    assert forall|k: int|
        2 <= k <= count && state.deque.items[state.unmeasured[k - 1] as int] is SoftBreak implies #[trigger] sum_between(
        marks,
        k,
        count,
    ) + open != 0 by {
        if k <= cursor {
            if cursor < count {
                lemma_sum_between_next(marks, k, cursor);
            }
            assert(sum_between(marks, k, cursor) + depth + open != count - cursor);
        }
    }
}

/// A waiting token at the back keeps the state steady: an `End` where a
/// group is open, and a `SoftBreak` where a group is open or no token
/// waits.
pub proof fn lemma_steady_push_waiting(state: NormalizedView, limit: usize, token: TokenView)
    requires
        steady(state, limit),
        token is End || token.distance() == Some(
            Measurement::Unmeasured { preceding_tokens_size: state.total },
        ),
        state.deque.items.len() + 1 < usize::MAX,
        token is End ==> open_groups(state.deque.items) >= 1,
        token is SoftBreak && open_groups(state.deque.items) == 0 ==> state.unmeasured.len() == 0,
    ensures
        steady(state.push_unmeasured(token), limit),
        open_groups(state.push_unmeasured(token).deque.items) == open_groups(state.deque.items)
            - mark(token),
{
    let next = state.push_unmeasured(token);
    let marks = waiting_marks(state);
    let others = waiting_marks(next);
    let count = state.unmeasured.len() as int;
    let open = open_groups(state.deque.items);
    lemma_sound_push_waiting(state, limit, token);
    lemma_open_groups_push(state.deque.items, token);
    lemma_sum_between_none(marks, count);
    assert(sum_between(marks, count, count) + 0 + open >= 0);
    assert forall|k: int| 0 <= k <= count + 1 implies #[trigger] sum_between(others, k, count + 1)
        + 0 + (open - mark(token)) >= 0 by {
        if k <= count {
            lemma_sum_between_next(others, k, count);
            assert(others.subrange(k, count) =~= marks.subrange(k, count));
            assert(sum_between(marks, k, count) + 0 + open >= 0);
        } else {
            lemma_sum_between_none(others, count + 1);
        }
    }
    assert forall|k: int|
        2 <= k <= count + 1 && next.deque.items[next.unmeasured[k - 1] as int] is SoftBreak implies #[trigger] sum_between(
        others,
        k,
        count + 1,
    ) + 0 + (open - mark(token)) != 0 by {
        if k <= count {
            lemma_sum_between_next(others, k, count);
            assert(others.subrange(k, count) =~= marks.subrange(k, count));
            assert(next.unmeasured[k - 1] == state.unmeasured[k - 1]);
            assert(state.unmeasured[k - 1] < state.deque.items.len());
            assert(sum_between(marks, k, count) + 0 + open != 0);
        } else {
            lemma_sum_between_none(others, count + 1);
            assert(next.unmeasured[count] == state.deque.items.len());
        }
    }
}

/// A token without a distance at the back, counted in the total, keeps the
/// state steady while the total stays within the limit.
pub proof fn lemma_steady_push(state: NormalizedView, limit: usize, token: TokenView)
    requires
        steady(state, limit),
        token.distance() is None,
        !(token is End),
        state.total + token.size() <= limit,
        state.deque.items.len() + 1 < usize::MAX,
    ensures
        steady(state.push(token).grown(token.size()), limit),
        open_groups(state.push(token).grown(token.size()).deque.items) == open_groups(
            state.deque.items,
        ),
{
    let next = state.push(token).grown(token.size());
    lemma_sound_push(state, limit, token);
    lemma_open_groups_push(state.deque.items, token);
    assert forall|k: int|
        2 <= k <= next.unmeasured.len() && next.deque.items[next.unmeasured[k - 1] as int] is SoftBreak implies #[trigger] sum_between(
        waiting_marks(next),
        k,
        next.unmeasured.len() as int,
    ) + 0 + open_groups(next.deque.items) != 0 by {
        assert(state.unmeasured[k - 1] < state.deque.items.len());
        assert(sum_between(waiting_marks(state), k, state.unmeasured.len() as int) + 0
            + open_groups(state.deque.items) != 0);
    }
}

} // verus!
