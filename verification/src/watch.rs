//! How the driver and the generator of random numbers are used during an attempt.

use crate::arc_consistency::{is_explained, ArcConsistencyFailure};
use crate::attempt::{
    is_attempt, is_option_left, leads_nowhere, picked, refutations, SearchNode,
};
use crate::backtracking_search::{
    are_exceeded, is_attempt_for, is_attempt_with, is_initial, is_last_attempt, is_limit_after,
    is_next, is_next_limit, is_search, is_stuck, is_timed_search, FillFailure, FillSuccess,
    SearchDriver, Slot, INTERRUPT_FREQUENCY, RANDOM_WORD_WEIGHTS,
};
use crate::grid_config::{Choice, GridConfig, SlotId};
use crate::random::{is_drawn, is_seeded};
use crate::search_model::{
    blamed_slot, domains, state_of, with_choice, with_elimination, GridState,
};
use rand::rngs::SmallRng;
use vstd::prelude::*;

verus! {

/// How many states an attempt has been in. A choice that is ruled out doesn't start a new one.
pub open spec fn states(trace: Seq<SearchNode>) -> nat
    decreases trace.len(),
{
    if trace.len() == 0 {
        0
    } else {
        states(trace.drop_last()) + (if trace.last().ruling_out is None {
            1nat
        } else {
            0nat
        })
    }
}

/// The driver is asked to weigh the slots in a state.
pub open spec fn weighs<D: SearchDriver>(
    driver: D,
    config: GridConfig,
    state: GridState,
) -> bool {
    exists|asked: &mut D, slots: Vec<Slot>| #[trigger]
        call_ensures(D::weigh_slots, (asked, &config, &slots), ()) && *asked == driver && state_of(
            slots@,
        ) == state
}

/// The driver's clock has not passed the deadline, and there is no signal to stop.
pub open spec fn lets_go_on<D: SearchDriver>(
    driver: D,
    deadline: Option<u64>,
    abort: bool,
) -> bool {
    &&& deadline matches Some(deadline) ==> exists|now: u64| #[trigger]
        call_ensures(D::now, (&driver,), now) && now <= deadline
    &&& abort ==> call_ensures(D::abort_requested, (&driver,), false)
}

/// In this state, before the slots were weighed, the driver was asked and let the attempt go on.
pub open spec fn is_look<D: SearchDriver>(
    config: GridConfig,
    deadline: Option<u64>,
    state: GridState,
) -> bool {
    exists|driver: D| #[trigger]
        weighs(driver, config, state) && lets_go_on(driver, deadline, config.abort)
}

/// The driver is to be asked in this state, by its number. (Numbers start over after the largest
/// one.)
pub open spec fn is_due(number: nat) -> bool {
    number <= usize::MAX && number % (INTERRUPT_FREQUENCY as nat) == 0
}

/// The driver was asked as often as it is due, and it always let the attempt go on.
#[verifier::opaque]
pub open spec fn is_watched<D: SearchDriver>(
    config: GridConfig,
    deadline: Option<u64>,
    trace: Seq<SearchNode>,
) -> bool {
    forall|i: int|
        0 <= i < trace.len() && (#[trigger] trace[i]).ruling_out is None && is_due(
            states(trace.take(i + 1)),
        ) ==> is_look::<D>(config, deadline, trace[i].state)
}

/// The state whose consequences a step has found to leave a slot without words.
pub open spec fn tried_state(before: SearchNode, after: SearchNode) -> GridState {
    match before.ruling_out {
        None => with_choice(before.state, picked(after)),
        Some(choice) => with_elimination(before.state, choice, blamed_slot(before.choices)),
    }
}

/// The driver was told why the consequences of a state leave a slot without words.
pub open spec fn is_told<D: SearchDriver>(config: GridConfig, state: GridState) -> bool {
    exists|asked: &mut D, failure: ArcConsistencyFailure| #[trigger]
        call_ensures(D::record_failure, (asked, &config, &failure), ()) && is_explained(
            config,
            domains(config, state),
            failure,
        )
}

/// The slot of a choice is the one that the driver's ranking and the generator lead to in this state.
/// The first choice of an attempt is led to by the generator for its seed.
pub open spec fn is_slot_drawn<D: SearchDriver>(
    state: GridState,
    slot_id: SlotId,
    seed: Option<u64>,
) -> bool {
    exists|driver: D, slots: Vec<Slot>, last: Option<SlotId>, rng: SmallRng, stays: bool|
        #![trigger is_next(&driver, &slots, last, rng, slot_id, stays)]
        {
            &&& is_next(&driver, &slots, last, rng, slot_id, stays)
            &&& state_of(slots@) == state
            &&& seed matches Some(seed) ==> last is None && is_seeded(rng, seed)
        }
}

/// The word of a choice is the one at the position of a draw among the options that are left for its
/// slot, or the last one if there are fewer.
pub open spec fn is_word_drawn(config: GridConfig, state: GridState, choice: Choice) -> bool {
    exists|rng: SmallRng, position: usize| #[trigger]
        is_drawn(rng, RANDOM_WORD_WEIGHTS@, position) && is_word_at(config, state, choice, position)
}

/// The word of a choice is the one at a position among the options that are left for its slot, or the
/// last one if there are fewer.
pub open spec fn is_word_at(
    config: GridConfig,
    state: GridState,
    choice: Choice,
    position: usize,
) -> bool {
    let s = choice.slot_id as int;
    exists|i: int, earlier: Seq<int>|
        #![trigger is_option_left(config, state, s, i), earlier.no_duplicates()]
        {
            &&& is_option_left(config, state, s, i)
            &&& config.options(s)[i] == choice.word_id
            &&& earlier.no_duplicates()
            &&& forall|k: int| #[trigger]
                earlier.contains(k) <==> 0 <= k < i && is_option_left(config, state, s, k)
            &&& earlier.len() == position || (earlier.len() < position && forall|k: int|
                i < k ==> !#[trigger] is_option_left(config, state, s, k))
        }
}

/// A step was led by the driver and the generator: a choice that is made was drawn, and of a failure
/// the driver was told.
pub open spec fn is_led_step<D: SearchDriver>(
    config: GridConfig,
    before: SearchNode,
    after: SearchNode,
    seed: Option<u64>,
) -> bool {
    &&& after.ruling_out is Some ==> is_told::<D>(config, tried_state(before, after))
    &&& before.ruling_out is None ==> {
        &&& is_slot_drawn::<D>(before.state, picked(after).slot_id, seed)
        &&& is_word_drawn(config, before.state, picked(after))
    }
}

/// The seed counts for the first step of an attempt.
pub open spec fn first_seed(seed: u64, i: int) -> Option<u64> {
    if i == 1 {
        Some(seed)
    } else {
        None
    }
}

/// All steps of an attempt were led by the driver and the generator for the seed.
#[verifier::opaque]
pub open spec fn is_led<D: SearchDriver>(
    config: GridConfig,
    seed: u64,
    trace: Seq<SearchNode>,
) -> bool {
    forall|i: int|
        0 < i < trace.len() ==> is_led_step::<D>(
            config,
            trace[i - 1],
            #[trigger] trace[i],
            first_seed(seed, i),
        )
}

/// No choice is left to be undone, and nothing is left if the last one is ruled out.
pub open spec fn is_dead_end(config: GridConfig, node: SearchNode) -> bool {
    &&& node.choices.len() == 0
    &&& node.ruling_out matches Some(choice) && leads_nowhere(
        config,
        with_elimination(node.state, choice, None),
    )
}

/// There is an attempt that was watched and led to a dead end.
pub open spec fn is_refuted_attempt<D: SearchDriver>(
    config: GridConfig,
    start: GridState,
    deadline: Option<u64>,
    seed: u64,
) -> bool {
    exists|trace: Seq<SearchNode>| #[trigger]
        is_attempt(config, start, trace) && is_watched::<D>(config, deadline, trace) && is_led::<D>(
            config,
            seed,
            trace,
        ) && is_dead_end(config, trace.last()) && is_told::<D>(
            config,
            with_elimination(trace.last().state, trace.last().ruling_out->Some_0, None),
        )
}

/// There is an attempt that was watched and could go on until its last state, in which the driver was
/// to be asked.
pub open spec fn is_cut_short<D: SearchDriver>(
    config: GridConfig,
    start: GridState,
    deadline: Option<u64>,
    seed: u64,
) -> bool {
    exists|trace: Seq<SearchNode>| #[trigger]
        is_attempt(config, start, trace) && is_watched::<D>(config, deadline, trace.drop_last())
            && is_led::<D>(config, seed, trace) && trace.last().ruling_out is None && (states(trace) <= usize::MAX ==> is_due(
            states(trace),
        ))
}

/// The search of a driver that is asked now has to end by the deadline.
pub open spec fn is_deadline<D: SearchDriver>(
    driver: D,
    timeout: Option<u64>,
    deadline: Option<u64>,
) -> bool {
    match timeout {
        Some(timeout) => exists|start: u64| #[trigger]
            call_ensures(D::now, (&driver,), start) && deadline == Some(
                if start + timeout <= u64::MAX {
                    (start + timeout) as u64
                } else {
                    u64::MAX
                },
            ),
        None => deadline is None,
    }
}

/// The time between a look at the clock of one driver and a look at that of the other. It is zero if the
/// clock was set back.
pub open spec fn is_elapsed<D: SearchDriver>(before: D, after: D, time: u64) -> bool {
    exists|start: u64, end: u64|
        #![trigger call_ensures(D::now, (&before,), start), call_ensures(D::now, (&after,), end)]
        {
            &&& call_ensures(D::now, (&before,), start)
            &&& call_ensures(D::now, (&after,), end)
            &&& time == if end >= start {
                end - start
            } else {
                0
            }
        }
}

/// If the clock of a driver tells a certain time and that of another one a later time, and no other
/// times, the time between them is the difference.
pub proof fn lemma_elapsed<D: SearchDriver>(before: D, after: D, start: u64, end: u64, time: u64)
    requires
        is_elapsed(before, after, time),
        forall|t: u64| #[trigger] call_ensures(D::now, (&before,), t) ==> t == start,
        forall|t: u64| #[trigger] call_ensures(D::now, (&after,), t) ==> t == end,
        start <= end,
    ensures
        start + time == end,
{
}

/// An attempt that has not been in a state yet needs no look.
pub proof fn lemma_watched_start<D: SearchDriver>(config: GridConfig, deadline: Option<u64>)
    ensures
        is_watched::<D>(config, deadline, Seq::empty()),
{
    reveal(is_watched);
}

/// One more node needs a look if it is a state in which one is due.
pub proof fn lemma_watched_step<D: SearchDriver>(
    config: GridConfig,
    deadline: Option<u64>,
    trace: Seq<SearchNode>,
    node: SearchNode,
)
    requires
        is_watched::<D>(config, deadline, trace),
        node.ruling_out is None && is_due(states(trace.push(node))) ==> is_look::<D>(
            config,
            deadline,
            node.state,
        ),
    ensures
        is_watched::<D>(config, deadline, trace.push(node)),
        states(trace.push(node)) == states(trace) + (if node.ruling_out is None {
            1nat
        } else {
            0nat
        }),
        trace.push(node).drop_last() == trace,
{
    reveal(is_watched);
    let longer = trace.push(node);
    assert(longer.drop_last() =~= trace);
    assert forall|i: int|
        0 <= i < longer.len() && (#[trigger] longer[i]).ruling_out is None && is_due(
            states(longer.take(i + 1)),
        ) implies is_look::<D>(config, deadline, longer[i].state) by {
        if i < trace.len() {
            assert(longer.take(i + 1) =~= trace.take(i + 1));
            assert(longer[i] == trace[i]);
        } else {
            assert(longer.take(i + 1) =~= longer);
        }
    }
}

/// An attempt without steps was not led anywhere.
pub proof fn lemma_led_start<D: SearchDriver>(config: GridConfig, seed: u64, trace: Seq<SearchNode>)
    requires
        trace.len() <= 1,
    ensures
        is_led::<D>(config, seed, trace),
{
    reveal(is_led);
}

/// One more step that is led.
pub proof fn lemma_led_step<D: SearchDriver>(
    config: GridConfig,
    seed: u64,
    trace: Seq<SearchNode>,
    node: SearchNode,
)
    requires
        trace.len() > 0,
        is_led::<D>(config, seed, trace),
        is_led_step::<D>(config, trace.last(), node, first_seed(seed, trace.len() as int)),
    ensures
        is_led::<D>(config, seed, trace.push(node)),
{
    reveal(is_led);
    let longer = trace.push(node);
    assert forall|i: int| 0 < i < longer.len() implies is_led_step::<D>(
        config,
        longer[i - 1],
        #[trigger] longer[i],
        first_seed(seed, i),
    ) by {
        if i < trace.len() {
            assert(longer[i] == trace[i]);
            assert(longer[i - 1] == trace[i - 1]);
        }
    }
}

/// Every number up to that of the last state is that of some state.
proof fn lemma_numbered(trace: Seq<SearchNode>, number: nat) -> (i: int)
    requires
        0 < number <= states(trace),
    ensures
        0 <= i < trace.len(),
        trace[i].ruling_out is None,
        states(trace.take(i + 1)) == number,
    decreases trace.len(),
{
    let front = trace.drop_last();
    if number <= states(front) {
        let i = lemma_numbered(front, number);
        assert(front.take(i + 1) =~= trace.take(i + 1));
        i
    } else {
        assert(trace.take(trace.len() as int) =~= trace);
        trace.len() - 1
    }
}

/// In the state of this number, before the slots were weighed, the driver was asked for the time, which
/// had not passed the end, and whether there was a signal to stop, which there was not.
pub open spec fn was_asked<D: SearchDriver>(
    config: GridConfig,
    end: Option<int>,
    trace: Seq<SearchNode>,
    number: nat,
) -> bool {
    exists|i: int, driver: D|
        #![trigger trace[i], weighs(driver, config, trace[i].state)]
        {
            &&& 0 <= i < trace.len()
            &&& trace[i].ruling_out is None
            &&& states(trace.take(i + 1)) == number
            &&& weighs(driver, config, trace[i].state)
            &&& end matches Some(end) ==> exists|now: u64| #[trigger]
                call_ensures(D::now, (&driver,), now) && now <= end
            &&& config.abort ==> call_ensures(D::abort_requested, (&driver,), false)
        }
}

/// The driver was asked in the tenth state, the twentieth, and so on.
pub open spec fn was_asked_every_tenth<D: SearchDriver>(
    config: GridConfig,
    end: Option<int>,
    trace: Seq<SearchNode>,
) -> bool {
    forall|k: nat|
        #![trigger was_asked::<D>(config, end, trace, 10 * k)]
        0 < k && 10 * k <= states(trace) && 10 * k <= usize::MAX ==> was_asked::<D>(
            config,
            end,
            trace,
            10 * k,
        )
}

/// The driver is asked in every tenth state of an attempt, one after the other, and each time it lets
/// the attempt go on. A single look is not enough for what comes after it.
pub proof fn lemma_every_tenth_state<D: SearchDriver>(
    config: GridConfig,
    deadline: Option<u64>,
    end: Option<int>,
    trace: Seq<SearchNode>,
)
    requires
        is_watched::<D>(config, deadline, trace),
        end matches Some(end) ==> deadline matches Some(deadline) && deadline <= end,
    ensures
        was_asked_every_tenth::<D>(config, end, trace),
{
    reveal(is_watched);
    assert forall|k: nat|
        #![trigger was_asked::<D>(config, end, trace, 10 * k)]
        0 < k && 10 * k <= states(trace) && 10 * k <= usize::MAX implies was_asked::<D>(
        config,
        end,
        trace,
        10 * k,
    ) by {
        let i = lemma_numbered(trace, 10 * k);
        assert(is_due(10 * k));
        assert(is_look::<D>(config, deadline, trace[i].state));
        let driver = choose|driver: D| #[trigger]
            weighs(driver, config, trace[i].state) && lets_go_on(driver, deadline, config.abort);
        assert(weighs(driver, config, trace[i].state));
    }
}

/// The time at which a search has to end: a timeout after a look at the clock of the driver that
/// started it.
pub open spec fn is_end<D: SearchDriver>(
    driver: D,
    timeout: Option<u64>,
    end: Option<int>,
) -> bool {
    match timeout {
        Some(timeout) => exists|start: u64| #[trigger]
            call_ensures(D::now, (&driver,), start) && end == Some(start + timeout),
        None => end is None,
    }
}

/// A deadline is never later than the time at which a search has to end.
proof fn lemma_end<D: SearchDriver>(
    driver: D,
    timeout: Option<u64>,
    deadline: Option<u64>,
) -> (end: Option<int>)
    requires
        is_deadline(driver, timeout, deadline),
    ensures
        is_end(driver, timeout, end),
        end matches Some(end) ==> deadline matches Some(deadline) && deadline <= end,
{
    match timeout {
        Some(timeout) => {
            let start = choose|start: u64| #[trigger]
                call_ensures(D::now, (&driver,), start) && deadline == Some(
                    if start + timeout <= u64::MAX {
                        (start + timeout) as u64
                    } else {
                        u64::MAX
                    },
                );
            assert(call_ensures(D::now, (&driver,), start));
            Some(start + timeout)
        },
        None => None,
    }
}

/// A search that finds a fill was within its time and not canceled in every tenth state of the
/// attempt that found it: at each of them the driver was asked anew, also at the last one before the
/// end.
pub proof fn lemma_success_in_time<D: SearchDriver>(
    config: GridConfig,
    driver: D,
    timeout: Option<u64>,
    max_retries: Option<u64>,
    success: FillSuccess,
)
    requires
        is_timed_search(config, driver, timeout, max_retries, Ok(success)),
    ensures
        exists|end: Option<int>, start: GridState, trace: Seq<SearchNode>|
            #![trigger is_end(driver, timeout, end), is_attempt(config, start, trace)]
            {
                &&& is_end(driver, timeout, end)
                &&& is_initial(config, start)
                &&& is_attempt(config, start, trace)
                &&& trace.last().ruling_out is None
                &&& states(trace) <= usize::MAX ==> states(trace) == success.statistics.states
                &&& was_asked_every_tenth::<D>(config, end, trace)
            },
{
    let deadline = choose|deadline: Option<u64>| #[trigger]
        is_deadline(driver, timeout, deadline) && is_search::<D>(
            config,
            deadline,
            max_retries,
            Ok(success),
        );
    let end = lemma_end(driver, timeout, deadline);
    let (start, limits) = choose|start: GridState, limits: Seq<usize>|
        #![trigger is_initial(config, start), are_exceeded::<D>(config, start, deadline, limits)]
        is_initial(config, start) && are_exceeded::<D>(config, start, deadline, limits)
            && is_last_attempt::<D>(config, start, deadline, max_retries, limits, Ok(success));
    let limit = choose|limit: usize|
        #![trigger is_limit_after::<D>(limits, limit)]
        is_limit_after::<D>(limits, limit) && is_attempt_for::<D>(
            config,
            start,
            deadline,
            limits.len() as u64,
            limit,
            success.statistics.states,
            success.statistics.backtracks,
            success.choices@,
        );
    let trace = choose|trace: Seq<SearchNode>| #[trigger]
        is_attempt(config, start, trace) && is_watched::<D>(config, deadline, trace) && (states(
            trace,
        ) <= usize::MAX ==> states(trace) == success.statistics.states)
            && trace.last().ruling_out is None;
    assert(is_attempt(config, start, trace) && is_watched::<D>(config, deadline, trace));
    lemma_every_tenth_state::<D>(config, deadline, end, trace);
}

/// The attempts of a search that came before its last one were within its time and not canceled in
/// every tenth state either. Their limits on backtracks grow. Each has a seed of its own, its number,
/// which the first slot is drawn by.
pub proof fn lemma_attempts_in_time<D: SearchDriver>(
    config: GridConfig,
    driver: D,
    timeout: Option<u64>,
    deadline: Option<u64>,
    start: GridState,
    limits: Seq<usize>,
    attempt: int,
)
    requires
        is_deadline(driver, timeout, deadline),
        are_exceeded::<D>(config, start, deadline, limits),
        0 <= attempt < limits.len(),
    ensures
        exists|end: Option<int>, trace: Seq<SearchNode>|
            #![trigger is_end(driver, timeout, end), is_attempt(config, start, trace)]
            {
                &&& is_end(driver, timeout, end)
                &&& is_attempt(config, start, trace)
                &&& refutations(trace) == limits[attempt] + 1
                &&& trace.len() > 1 ==> is_slot_drawn::<D>(
                    start,
                    picked(trace[1]).slot_id,
                    Some(attempt as u64),
                )
                &&& was_asked_every_tenth::<D>(config, end, trace.drop_last())
            },
        attempt == 0 ==> limits[attempt] == 500,
        limits[attempt] >= 500 + attempt,
        attempt > 0 ==> limits[attempt] > limits[attempt - 1],
    decreases attempt,
{
    let end = lemma_end(driver, timeout, deadline);
    assert(is_attempt_with::<D>(
        config,
        start,
        deadline,
        attempt as u64,
        (limits[attempt] + 1) as nat,
    ));
    let trace = choose|trace: Seq<SearchNode>| #[trigger]
        is_attempt(config, start, trace) && is_watched::<D>(config, deadline, trace.drop_last())
            && is_led::<D>(config, attempt as u64, trace) && refutations(trace) == limits[attempt]
            + 1;
    reveal(is_led);
    if trace.len() > 1 {
        assert(is_led_step::<D>(
            config,
            trace[0],
            trace[1],
            first_seed(attempt as u64, 1),
        ));
    }
    lemma_every_tenth_state::<D>(config, deadline, end, trace.drop_last());
    if attempt > 0 {
        lemma_attempts_in_time::<D>(
            config,
            driver,
            timeout,
            deadline,
            start,
            limits,
            attempt - 1,
        );
        assert(is_next_limit::<D>(limits[attempt - 1], limits[attempt]));
    }
}

/// A search that finds out that there is no fill was within its time and not canceled in every tenth
/// state of the attempt that showed it, unless it takes no attempt, or there are no more retries.
pub proof fn lemma_failure_in_time<D: SearchDriver>(
    config: GridConfig,
    driver: D,
    timeout: Option<u64>,
    result: Result<FillSuccess, FillFailure>,
)
    requires
        is_timed_search(config, driver, timeout, None, result),
        result == Err::<FillSuccess, FillFailure>(FillFailure::HardFailure),
    ensures
        is_stuck(config) || exists|end: Option<int>, start: GridState, trace: Seq<SearchNode>|
            #![trigger is_end(driver, timeout, end), is_attempt(config, start, trace)]
            {
                &&& is_end(driver, timeout, end)
                &&& is_initial(config, start)
                &&& is_attempt(config, start, trace)
                &&& is_dead_end(config, trace.last())
                &&& was_asked_every_tenth::<D>(config, end, trace)
            },
{
    let deadline = choose|deadline: Option<u64>| #[trigger]
        is_deadline(driver, timeout, deadline) && is_search::<D>(config, deadline, None, result);
    let end = lemma_end(driver, timeout, deadline);
    if !is_stuck(config) {
        let (start, limits) = choose|start: GridState, limits: Seq<usize>|
            #![trigger is_initial(config, start), are_exceeded::<D>(config, start, deadline, limits)]
            is_initial(config, start) && are_exceeded::<D>(config, start, deadline, limits)
                && is_last_attempt::<D>(config, start, deadline, None, limits, result);
        let trace = choose|trace: Seq<SearchNode>| #[trigger]
            is_attempt(config, start, trace) && is_watched::<D>(config, deadline, trace)
                && is_dead_end(config, trace.last());
        lemma_every_tenth_state::<D>(config, deadline, end, trace);
    }
}

/// A search is only cut short in a tenth state, and it went on until then because the driver let it
/// go on each time that it was asked.
pub proof fn lemma_cut_short_when_due<D: SearchDriver>(
    config: GridConfig,
    start: GridState,
    deadline: Option<u64>,
    seed: u64,
)
    requires
        is_cut_short::<D>(config, start, deadline, seed),
    ensures
        exists|trace: Seq<SearchNode>| #[trigger]
            is_attempt(config, start, trace) && (states(trace) <= usize::MAX ==> states(trace) % 10
                == 0) && was_asked_every_tenth::<D>(
                config,
                match deadline {
                    Some(deadline) => Some(deadline as int),
                    None => None,
                },
                trace.drop_last(),
            ),
{
    let trace = choose|trace: Seq<SearchNode>| #[trigger]
        is_attempt(config, start, trace) && is_watched::<D>(config, deadline, trace.drop_last())
            && trace.last().ruling_out is None && (states(trace) <= usize::MAX ==> is_due(
            states(trace),
        ));
    let end = match deadline {
        Some(deadline) => Some(deadline as int),
        None => None,
    };
    lemma_every_tenth_state::<D>(config, deadline, end, trace.drop_last());
    assert(is_attempt(config, start, trace));
}

} // verus!
