//! Adapter for filtering lexer and syntax error reports.

use vstd::prelude::*;

verus! {

/// Adapter for a parser error handler that filters messages so as not to
/// send a whole cascade of errors that are usually consequences of one typo.
///
/// Whenever an error is reported, the filter switches to a cooldown state and
/// discards further errors until [`FilteredErrorHandler::REPORT_COOLDOWN`]
/// consecutive tokens have been accepted without any errors.
pub struct FilteredErrorHandler<T: FnMut(E), E> {
    /// The error handler callback.
    error_handler: T,
    /// How many tokens need to be processed before another error can be reported.
    cooldown: u8,
    /// Marker for the error type.
    _marker: std::marker::PhantomData<E>,
    /// What the filter has been told so far, in order: `true` for an error,
    /// `false` for a processed token.
    events: Ghost<Seq<bool>>,
}

impl<T: FnMut(E), E> FilteredErrorHandler<T, E> {
    /// How many tokens must be successfully accepted
    /// before another error can be reported.
    pub const REPORT_COOLDOWN: u8 = 3;

    /// The number of tokens still to be processed before an error is forwarded again.
    pub closed spec fn cooldown(&self) -> u8 {
        self.cooldown
    }

    /// The wrapped error handler.
    pub closed spec fn handler(&self) -> T {
        self.error_handler
    }

    /// What the filter has been told so far, in order: `true` for an error
    /// ([`FilteredErrorHandler::handle_error`]), `false` for a processed
    /// token ([`FilteredErrorHandler::token_parsed`]).
    pub closed spec fn events(&self) -> Seq<bool> {
        self.events@
    }

    /// The cooldown is the one that the events seen so far leave behind, so
    /// that [`lemma_forwarded_after`] tells of every error which of them is
    /// forwarded.
    pub closed spec fn wf(&self) -> bool {
        self.cooldown == cooldown_after_events(self.events@)
    }

    /// Wraps an error handler in the adapter; the first error is forwarded.
    pub fn new(error_handler: T) -> (r: Self)
        ensures
            r.wf(),
            r.cooldown() == 0,
            r.handler() == error_handler,
            r.events() == Seq::<bool>::empty(),
    {
        FilteredErrorHandler {
            error_handler,
            cooldown: 0,
            _marker: std::marker::PhantomData,
            events: Ghost(Seq::empty()),
        }
    }

    /// Sends an error through the adapter: it is forwarded to the wrapped
    /// handler unless another error has been reported recently. Either way
    /// the cooldown restarts, one step longer than
    /// [`FilteredErrorHandler::REPORT_COOLDOWN`] because the token that
    /// caused the error is counted too.
    pub fn handle_error(&mut self, error: E)
        requires
            old(self).wf(),
            forall|e: E| call_requires(old(self).handler(), (e,)),
        ensures
            final(self).wf(),
            final(self).events() == old(self).events().push(true),
            final(self).cooldown() == 4,
            final(self).cooldown() == cooldown_step(old(self).cooldown(), true),
            old(self).cooldown() == 0 ==> call_ensures(old(self).handler(), (error,), ()),
            old(self).cooldown() != 0 ==> final(self).handler() == old(self).handler(),
    {
        broadcast use vstd::function::group_function_axioms;

        if self.cooldown == 0 {
            assert(call_requires(self.handler(), (error,)));
            (self.error_handler)(error);
        }
        self.cooldown = Self::REPORT_COOLDOWN + 1;
        proof {
            lemma_events_push(old(self).events(), true);
            self.events = Ghost(old(self).events().push(true));
        }
    }

    /// Notifies the adapter that a token has been processed,
    /// with or without an error; this counts towards the cooldown.
    pub fn token_parsed(&mut self)
        requires
            old(self).wf(),
        ensures
            final(self).wf(),
            final(self).events() == old(self).events().push(false),
            final(self).cooldown() == if old(self).cooldown() == 0 {
                0
            } else {
                (old(self).cooldown() - 1) as u8
            },
            final(self).cooldown() == cooldown_step(old(self).cooldown(), false),
            final(self).handler() == old(self).handler(),
    {
        self.cooldown = self.cooldown.saturating_sub(1);
        proof {
            lemma_events_push(old(self).events(), false);
            self.events = Ghost(old(self).events().push(false));
        }
    }
}

/// The cooldown after `n` calls of [`FilteredErrorHandler::token_parsed`] from cooldown `c`.
pub open spec fn cooldown_after(c: u8, n: nat) -> u8
    decreases n,
{
    if n == 0 {
        c
    } else if c == 0 {
        0
    } else {
        cooldown_after((c - 1) as u8, (n - 1) as nat)
    }
}

/// The cooldown after one more event: an error (forwarded or not) restarts
/// it one step longer than [`FilteredErrorHandler::REPORT_COOLDOWN`], an
/// accepted token counts it down to zero.
pub open spec fn cooldown_step(c: u8, is_error: bool) -> u8 {
    if is_error {
        4
    } else if c == 0 {
        0
    } else {
        (c - 1) as u8
    }
}

/// The cooldown of a fresh filter after a sequence of events, `true` for an
/// error and `false` for an accepted token; an error is forwarded exactly
/// when the cooldown before it is zero.
pub open spec fn cooldown_after_events(events: Seq<bool>) -> u8
    decreases events.len(),
{
    if events.len() == 0 {
        0
    } else {
        cooldown_step(cooldown_after_events(events.drop_last()), events.last())
    }
}

/// One more event steps the cooldown once.
proof fn lemma_events_push(events: Seq<bool>, is_error: bool)
    ensures
        cooldown_after_events(events.push(is_error)) == cooldown_step(cooldown_after_events(events), is_error),
{
    assert(events.push(is_error).drop_last() =~= events);
}

/// The cooldown after one more event, computed.
pub fn next_cooldown(c: u8, is_error: bool) -> (r: u8)
    ensures
        r == cooldown_step(c, is_error),
{
    if is_error {
        4
    } else if c == 0 {
        0
    } else {
        c - 1
    }
}

/// With no error among the events, the cooldown is zero.
proof fn lemma_cooldown_without_errors(events: Seq<bool>, j: int)
    requires
        0 <= j <= events.len(),
        forall|k: int| 0 <= k < j ==> !events[k],
    ensures
        cooldown_after_events(events.take(j)) == 0,
    decreases j,
{
    if j > 0 {
        assert(events.take(j).drop_last() =~= events.take(j - 1));
        lemma_cooldown_without_errors(events, j - 1);
    }
}

/// After the last error, at position `i`, each accepted token counts the
/// cooldown down from four.
proof fn lemma_cooldown_since_error(events: Seq<bool>, i: int, j: int)
    requires
        0 <= i < j <= events.len(),
        events[i],
        forall|k: int| i < k < j ==> !events[k],
    ensures
        cooldown_after_events(events.take(j)) == if j - i - 1 >= 4 {
            0
        } else {
            4 - (j - i - 1)
        },
    decreases j - i,
{
    assert(events.take(j).drop_last() =~= events.take(j - 1));
    assert(events.take(j).last() == events[j - 1]);
    if j > i + 1 {
        lemma_cooldown_since_error(events, i, j - 1);
    }
}

/// The position of the last error before `j`.
proof fn lemma_last_error(events: Seq<bool>, j: int) -> (i: int)
    requires
        0 <= j <= events.len(),
        exists|k: int| 0 <= k < j && events[k],
    ensures
        0 <= i < j,
        events[i],
        forall|k: int| i < k < j ==> !events[k],
    decreases j,
{
    if events[j - 1] {
        j - 1
    } else {
        lemma_last_error(events, j - 1)
    }
}

/// Over any sequence of errors and accepted tokens, the event at position
/// `j` finds the filter ready to forward exactly when no error came before
/// it, or at least four tokens were accepted since the last error before it.
pub proof fn lemma_forwarded_after(events: Seq<bool>, j: int)
    requires
        0 <= j <= events.len(),
    ensures
        cooldown_after_events(events.take(j)) == 0 <==> (forall|k: int| 0 <= k < j ==> !events[k]) || exists|i: int|
            0 <= i < j && events[i] && (forall|k: int| i < k < j ==> !events[k]) && j - i - 1 >= 4,
{
    if exists|k: int| 0 <= k < j && events[k] {
        let i = lemma_last_error(events, j);
        lemma_cooldown_since_error(events, i, j);
        if exists|i2: int| 0 <= i2 < j && events[i2] && (forall|k: int| i2 < k < j ==> !events[k]) && j - i2 - 1 >= 4 {
            let i2 = choose|i2: int|
                0 <= i2 < j && events[i2] && (forall|k: int| i2 < k < j ==> !events[k]) && j - i2 - 1 >= 4;
            if i2 < i {
                assert(!events[i]);
            } else if i2 > i {
                assert(!events[i2]);
            }
        }
    } else {
        lemma_cooldown_without_errors(events, j);
    }
}

/// Whatever calls a filter has seen, the next error is forwarded exactly when
/// no error came before, or at least four tokens were processed since the last
/// error (the one that caused it and three accepted ones).
pub proof fn lemma_filter_forwards<T: FnMut(E), E>(h: &FilteredErrorHandler<T, E>)
    requires
        h.wf(),
    ensures
        h.cooldown() == 0 <==> (forall|k: int| 0 <= k < h.events().len() ==> !h.events()[k]) || exists|i: int|
            0 <= i < h.events().len() && h.events()[i] && (forall|k: int| i < k < h.events().len() ==> !h.events()[k])
                && h.events().len() - i - 1 >= 4,
{
    let events = h.events();
    lemma_forwarded_after(events, events.len() as int);
    assert(events.take(events.len() as int) =~= events);
}

/// After an error has been handled, the next error is forwarded exactly when
/// at least four tokens (the one that caused the error and three accepted
/// ones) have been processed in between.
pub proof fn lemma_error_forwarded_again(n: nat)
    ensures
        cooldown_after(4, n) == 0 <==> n >= 4,
{
    reveal_with_fuel(cooldown_after, 5);
}

} // verus!
