//! The attempts at one completion: asking the model, collecting what it streams, and asking again
//! while nothing is left of the answer.
//!
//! A [`CompletionRun`] makes the decisions. Whoever drives it performs the action that it asks for
//! and hands back what came of it.

use vstd::prelude::*;

use crate::sanitize;
use crate::text;

verus! {

/// How long to wait before the first attempt, in milliseconds, so that typing on starts no request.
pub const DEBOUNCE_TIMEOUT_MS: u64 = 150;

/// What a run waits for.
#[derive(Clone, Copy, Debug, PartialEq, Eq, Structural)]
pub enum Phase {
    /// The wait before the first attempt.
    Debouncing,
    /// The answer to a request for a stream.
    Opening,
    /// The next piece of the stream.
    Reading,
    /// Nothing more.
    Done,
}

/// What a run asks for.
#[derive(Debug)]
pub enum Action {
    /// To wait for so many milliseconds.
    Wait(u64),
    /// To send the request.
    OpenStream,
    /// To read the next piece of the stream.
    ReadChunk,
    /// To end the run, with the completion if there is one.
    Finish(Option<String>),
}

/// What came of an action.
#[derive(Debug)]
pub enum Event {
    /// The wait is over.
    Waited,
    /// The model started to stream its answer.
    StreamOpened,
    /// The model did not start to stream.
    StreamRefused,
    /// The stream brought a piece of text.
    Chunk(String),
    /// The stream broke off.
    ChunkFailed,
    /// The stream came to its end.
    StreamEnded,
}

/// What an [`Action`] asks for.
pub enum ActionView {
    Wait(u64),
    OpenStream,
    ReadChunk,
    Finish(Option<Seq<char>>),
}

/// What an [`Event`] says.
pub enum EventView {
    Waited,
    StreamOpened,
    StreamRefused,
    Chunk(Seq<char>),
    ChunkFailed,
    StreamEnded,
}

impl View for Action {
    type V = ActionView;

    open spec fn view(&self) -> ActionView {
        match *self {
            Action::Wait(millis) => ActionView::Wait(millis),
            Action::OpenStream => ActionView::OpenStream,
            Action::ReadChunk => ActionView::ReadChunk,
            Action::Finish(Some(completion)) => ActionView::Finish(Some(completion@)),
            Action::Finish(None) => ActionView::Finish(None),
        }
    }
}

impl View for Event {
    type V = EventView;

    open spec fn view(&self) -> EventView {
        match *self {
            Event::Waited => EventView::Waited,
            Event::StreamOpened => EventView::StreamOpened,
            Event::StreamRefused => EventView::StreamRefused,
            Event::Chunk(piece) => EventView::Chunk(piece@),
            Event::ChunkFailed => EventView::ChunkFailed,
            Event::StreamEnded => EventView::StreamEnded,
        }
    }
}

/// The attempts at one completion.
#[derive(Debug)]
pub struct CompletionRun {
    prefix: String,
    suffix: String,
    before: String,
    attempts_left: u32,
    generated: String,
    phase: Phase,
}

/// What a [`CompletionRun`] holds.
#[verifier::ext_equal]
pub struct RunView {
    /// The text before the cursor.
    pub prefix: Seq<char>,
    /// The text behind the cursor.
    pub suffix: Seq<char>,
    /// The end of the text before the cursor that the completion must not repeat.
    pub before: Seq<char>,
    /// The attempts still to make, the current one among them.
    pub attempts_left: int,
    /// What the current attempt has brought.
    pub generated: Seq<char>,
    pub phase: Phase,
}

impl View for CompletionRun {
    type V = RunView;

    closed spec fn view(&self) -> RunView {
        RunView {
            prefix: self.prefix@,
            suffix: self.suffix@,
            before: self.before@,
            attempts_left: self.attempts_left as int,
            generated: self.generated@,
            phase: self.phase,
        }
    }
}

impl RunView {
    /// A run that is not done has an attempt left.
    pub open spec fn well_formed(self) -> bool {
        self.phase != Phase::Done ==> self.attempts_left > 0
    }

    /// What may come of the action that the run has asked for.
    pub open spec fn awaits(self, event: EventView) -> bool {
        match event {
            EventView::Waited => self.phase == Phase::Debouncing,
            EventView::StreamOpened | EventView::StreamRefused => self.phase == Phase::Opening,
            EventView::Chunk(_) | EventView::ChunkFailed | EventView::StreamEnded => self.phase
                == Phase::Reading,
        }
    }

    /// What is left of a text that the model generates in this run.
    pub open spec fn cleaned(self, generated: Seq<char>) -> Seq<char> {
        sanitize::sanitized(generated, self.prefix, self.suffix, self.before)
    }

    /// The run in another phase.
    pub open spec fn in_phase(self, phase: Phase) -> RunView {
        RunView { phase, ..self }
    }

    /// The run and its next action once an answer is complete: it is the completion if cleaning
    /// leaves more of it than white space, and otherwise the next attempt is due, if there is one.
    pub open spec fn concluded(self) -> (RunView, ActionView) {
        let completion = self.cleaned(self.generated);
        if !text::blank(completion) {
            (self.in_phase(Phase::Done), ActionView::Finish(Some(completion)))
        } else if self.attempts_left > 1 {
            (
                (RunView { attempts_left: self.attempts_left - 1, phase: Phase::Opening, ..self }),
                ActionView::OpenStream,
            )
        } else {
            (
                (RunView { attempts_left: 0, phase: Phase::Done, ..self }),
                ActionView::Finish(None),
            )
        }
    }

    /// The run and its next action after `event`. A piece of the stream is added to the others, a
    /// stream that breaks off counts as far as it got, and one that does not start ends the run.
    pub open spec fn after(self, event: EventView) -> (RunView, ActionView) {
        match event {
            EventView::Waited => (self.in_phase(Phase::Opening), ActionView::OpenStream),
            EventView::StreamOpened => (
                (RunView { generated: Seq::empty(), phase: Phase::Reading, ..self }),
                ActionView::ReadChunk,
            ),
            EventView::StreamRefused => (self.in_phase(Phase::Done), ActionView::Finish(None)),
            EventView::Chunk(piece) => (
                (RunView { generated: self.generated + piece, ..self }),
                ActionView::ReadChunk,
            ),
            EventView::ChunkFailed | EventView::StreamEnded => self.concluded(),
        }
    }
}

/// The first state of a run and its first action.
pub open spec fn started(
    prefix: Seq<char>,
    suffix: Seq<char>,
    before: Seq<char>,
    attempts: int,
    debounce: bool,
) -> (RunView, ActionView) {
    (
        (RunView {
            prefix,
            suffix,
            before,
            attempts_left: if attempts > 1 {
                attempts
            } else {
                1
            },
            generated: Seq::empty(),
            phase: if debounce {
                Phase::Debouncing
            } else {
                Phase::Opening
            },
        }),
        if debounce {
            ActionView::Wait(DEBOUNCE_TIMEOUT_MS)
        } else {
            ActionView::OpenStream
        },
    )
}

impl CompletionRun {
    /// Starts a run of at least one attempt at the text between `prefix` and `suffix`.
    pub fn start(
        prefix: String,
        suffix: String,
        before: String,
        attempts: u32,
        debounce: bool,
    ) -> (r: (CompletionRun, Action))
        ensures
            (r.0@, r.1@) == started(prefix@, suffix@, before@, attempts as int, debounce),
            r.0@.well_formed(),
    {
        let attempts_left = if attempts > 1 {
            attempts
        } else {
            1
        };
        let phase = if debounce {
            Phase::Debouncing
        } else {
            Phase::Opening
        };
        let action = if debounce {
            Action::Wait(DEBOUNCE_TIMEOUT_MS)
        } else {
            Action::OpenStream
        };
        (
            CompletionRun { prefix, suffix, before, attempts_left, generated: String::new(), phase },
            action,
        )
    }

    /// What the run waits for.
    pub fn phase(&self) -> (phase: Phase)
        ensures
            phase == self@.phase,
    {
        self.phase
    }

    /// Takes note of what came of the last action, and says what to do next.
    pub fn step(&mut self, event: Event) -> (action: Action)
        requires
            old(self)@.well_formed(),
            old(self)@.awaits(event@),
        ensures
            (final(self)@, action@) == old(self)@.after(event@),
            final(self)@.well_formed(),
            action@ matches ActionView::Finish(Some(completion)) ==> completion
                == sanitize::sanitized(
                old(self)@.generated,
                old(self)@.prefix,
                old(self)@.suffix,
                old(self)@.before,
            ),
    {
        match event {
            Event::Waited => {
                self.phase = Phase::Opening;
                Action::OpenStream
            },
            Event::StreamOpened => {
                self.generated = String::new();
                self.phase = Phase::Reading;
                Action::ReadChunk
            },
            Event::StreamRefused => {
                self.phase = Phase::Done;
                Action::Finish(None)
            },
            Event::Chunk(piece) => {
                self.generated.append(piece.as_str());
                Action::ReadChunk
            },
            Event::ChunkFailed => self.conclude(),
            Event::StreamEnded => self.conclude(),
        }
    }

    /// Decides on a complete answer.
    fn conclude(&mut self) -> (action: Action)
        requires
            old(self)@.well_formed(),
            old(self)@.phase == Phase::Reading,
        ensures
            (final(self)@, action@) == old(self)@.concluded(),
            final(self)@.well_formed(),
    {
        let completion = sanitize::sanitize(
            self.generated.clone(),
            self.prefix.as_str(),
            self.suffix.as_str(),
            self.before.as_str(),
        );
        if !text::is_blank(completion.as_str()) {
            self.phase = Phase::Done;
            Action::Finish(Some(completion))
        } else {
            self.attempts_left = self.attempts_left - 1;
            if self.attempts_left > 0 {
                self.phase = Phase::Opening;
                Action::OpenStream
            } else {
                self.phase = Phase::Done;
                Action::Finish(None)
            }
        }
    }
}

/// What a model does when it is asked: it refuses, or it streams pieces of text up to the end or
/// up to where the stream breaks off.
pub enum Reply {
    Refusal,
    Answer { pieces: Seq<Seq<char>>, broke_off: bool },
}

/// The run after the pieces of an answer, one after the other.
pub open spec fn after_pieces(run: RunView, pieces: Seq<Seq<char>>) -> RunView
    decreases pieces.len(),
{
    if pieces.len() == 0 {
        run
    } else {
        after_pieces(run, pieces.drop_last()).after(EventView::Chunk(pieces.last())).0
    }
}

/// The run and its next action after a reply, event by event.
pub open spec fn after_reply(run: RunView, reply: Reply) -> (RunView, ActionView) {
    match reply {
        Reply::Refusal => run.after(EventView::StreamRefused),
        Reply::Answer { pieces, broke_off } => after_pieces(
            run.after(EventView::StreamOpened).0,
            pieces,
        ).after(
            if broke_off {
                EventView::ChunkFailed
            } else {
                EventView::StreamEnded
            },
        ),
    }
}

/// The action with which a run ends that gets these replies, each when it asks, as far as it asks.
pub open spec fn after_replies(run: RunView, replies: Seq<Reply>) -> ActionView
    decreases replies.len(),
{
    if replies.len() == 0 {
        ActionView::OpenStream
    } else {
        let next = after_reply(run, replies[0]);
        if next.0.phase == Phase::Opening {
            after_replies(next.0, replies.drop_first())
        } else {
            next.1
        }
    }
}

/// The first answer of which cleaning leaves more than white space, cleaned, unless a refusal
/// comes before it.
pub open spec fn first_completion(run: RunView, replies: Seq<Reply>) -> Option<Seq<char>>
    decreases replies.len(),
{
    if replies.len() == 0 {
        None
    } else {
        match replies[0] {
            Reply::Refusal => None,
            Reply::Answer { pieces, .. } => {
                let completion = run.cleaned(pieces.flatten());
                if !text::blank(completion) {
                    Some(completion)
                } else {
                    first_completion(run, replies.drop_first())
                }
            },
        }
    }
}

proof fn lemma_after_pieces(run: RunView, pieces: Seq<Seq<char>>)
    ensures
        after_pieces(run, pieces) == (RunView {
            generated: run.generated + pieces.flatten(),
            ..run
        }),
    decreases pieces.len(),
{
    if pieces.len() == 0 {
        assert(run.generated + pieces.flatten() =~= run.generated);
    } else {
        let t = pieces.drop_last();
        lemma_after_pieces(run, t);
        pieces.lemma_flatten_and_flatten_alt_are_equivalent();
        t.lemma_flatten_and_flatten_alt_are_equivalent();
        assert(pieces.flatten() =~= t.flatten() + pieces.last());
        assert(run.generated + t.flatten() + pieces.last() =~= run.generated + pieces.flatten());
    }
}

/// A run asks no more often than it has attempts, and ends with the first answer among those of
/// which cleaning leaves more than white space; without one, or once the model refuses, it ends
/// with nothing.
pub proof fn lemma_run_ends_with_first_completion(run: RunView, replies: Seq<Reply>)
    requires
        run.phase == Phase::Opening,
        run.attempts_left > 0,
        replies.len() == run.attempts_left,
    ensures
        after_replies(run, replies) == ActionView::Finish(first_completion(run, replies)),
    decreases replies.len(),
{
    if let Reply::Answer { pieces, broke_off } = replies[0] {
        let opened = run.after(EventView::StreamOpened).0;
        lemma_after_pieces(opened, pieces);
        assert(Seq::<char>::empty() + pieces.flatten() =~= pieces.flatten());
        let read = after_pieces(opened, pieces);
        assert(read.generated == pieces.flatten());
        assert(read.cleaned(read.generated) == run.cleaned(pieces.flatten()));
        let next = after_reply(run, replies[0]);
        assert(next == read.concluded());
        let rest = replies.drop_first();
        if next.0.phase == Phase::Opening {
            lemma_run_ends_with_first_completion(next.0, rest);
            lemma_same_completion(run, next.0, rest);
        } else if text::blank(run.cleaned(pieces.flatten())) {
            assert(rest.len() == 0);
            assert(first_completion(run, rest) is None);
        }
    }
}

proof fn lemma_same_completion(a: RunView, b: RunView, replies: Seq<Reply>)
    requires
        a.prefix == b.prefix,
        a.suffix == b.suffix,
        a.before == b.before,
    ensures
        first_completion(a, replies) == first_completion(b, replies),
    decreases replies.len(),
{
    if replies.len() > 0 {
        lemma_same_completion(a, b, replies.drop_first());
    }
}

/// The wait only delays: once it is over, the run stands where it would have started without it.
pub proof fn lemma_wait_only_delays(
    prefix: Seq<char>,
    suffix: Seq<char>,
    before: Seq<char>,
    attempts: int,
)
    ensures
        started(prefix, suffix, before, attempts, true).0.after(EventView::Waited) == started(
            prefix,
            suffix,
            before,
            attempts,
            false,
        ),
{
}

/// A run never ends with a completion of nothing but white space.
pub proof fn lemma_completion_not_blank(run: RunView, event: EventView)
    ensures
        run.after(event).1 matches ActionView::Finish(Some(completion)) ==> !text::blank(completion),
{
}

/// Every step that makes no end of the run either reads on in the same attempt, or spends one
/// attempt, or is the first request after the wait.
pub proof fn lemma_attempts_spent(run: RunView, event: EventView)
    requires
        run.well_formed(),
        run.awaits(event),
    ensures
        run.after(event).0.well_formed(),
        run.after(event).1 == ActionView::OpenStream ==> run.phase == Phase::Debouncing
            || run.after(event).0.attempts_left == run.attempts_left - 1,
        run.after(event).0.phase == Phase::Done <==> run.after(event).1 is Finish,
{
}

/// The state in which a run that was just started asks for the first time: at once, or after a
/// wait of 150 milliseconds.
pub proof fn lemma_started_asks(
    prefix: Seq<char>,
    suffix: Seq<char>,
    before: Seq<char>,
    attempts: int,
    debounce: bool,
) -> (asking: RunView)
    ensures
        asking.phase == Phase::Opening,
        asking.prefix == prefix,
        asking.suffix == suffix,
        asking.before == before,
        asking.attempts_left == vstd::math::max(attempts, 1),
        ({
            let (first, action) = started(prefix, suffix, before, attempts, debounce);
            if debounce {
                &&& action == ActionView::Wait(150)
                &&& first.after(EventView::Waited) == (asking, ActionView::OpenStream)
            } else {
                &&& action == ActionView::OpenStream
                &&& first == asking
            }
        }),
{
    started(prefix, suffix, before, attempts, false).0
}

/// Where the replies up to `k` leave nothing but white space once cleaned, the reply of index `k`
/// decides: an answer of which cleaning leaves more is delivered as cleaning leaves it, all of it
/// and nothing else; a refusal, or the last attempt, ends the run with nothing; and otherwise the
/// run asks again.
pub proof fn lemma_reply_decides(run: RunView, replies: Seq<Reply>, k: int)
    requires
        run.phase == Phase::Opening,
        0 <= k < replies.len(),
        k < run.attempts_left,
        forall|i: int|
            0 <= i < k ==> (#[trigger] replies[i]) is Answer && text::blank(
                sanitize::sanitized(
                    replies[i]->pieces.flatten(),
                    run.prefix,
                    run.suffix,
                    run.before,
                ),
            ),
    ensures
        ({
            let left = sanitize::sanitized(
                replies[k]->pieces.flatten(),
                run.prefix,
                run.suffix,
                run.before,
            );
            &&& replies[k] is Refusal ==> after_replies(run, replies) == ActionView::Finish(None)
            &&& replies[k] is Answer && !text::blank(left) ==> after_replies(run, replies)
                == ActionView::Finish(Some(left))
            &&& replies[k] is Answer && text::blank(left) && k == run.attempts_left - 1
                ==> after_replies(run, replies) == ActionView::Finish(None)
            &&& replies[k] is Answer && text::blank(left) && k < run.attempts_left - 1 && k
                == replies.len() - 1 ==> after_replies(run, replies) == ActionView::OpenStream
        }),
    decreases k,
{
    if let Reply::Answer { pieces, broke_off } = replies[0] {
        let opened = run.after(EventView::StreamOpened).0;
        lemma_after_pieces(opened, pieces);
        assert(Seq::<char>::empty() + pieces.flatten() =~= pieces.flatten());
        let read = after_pieces(opened, pieces);
        let next = after_reply(run, replies[0]);
        assert(next == read.concluded());
        let rest = replies.drop_first();
        if k > 0 {
            assert(replies[0] is Answer);
            assert forall|i: int| 0 <= i < k - 1 implies (#[trigger] rest[i]) is Answer
                && text::blank(
                sanitize::sanitized(rest[i]->pieces.flatten(), run.prefix, run.suffix, run.before),
            ) by {
                assert(rest[i] == replies[i + 1]);
            }
            assert(rest[k - 1] == replies[k]);
            lemma_reply_decides(next.0, rest, k - 1);
        } else if next.0.phase == Phase::Opening && replies.len() == 1 {
            assert(after_replies(next.0, rest) == ActionView::OpenStream);
        }
    } else {
        assert(k == 0);
    }
}

/// A run that ends with a completion after the end of a stream, or after it broke off, ends with
/// what cleaning leaves of the text it has collected: not a character more or less.
pub proof fn lemma_completion_is_sanitized(run: RunView, event: EventView)
    ensures
        run.after(event).1 matches ActionView::Finish(Some(completion)) ==> completion
            == sanitize::sanitized(run.generated, run.prefix, run.suffix, run.before),
        (event is StreamEnded || event is ChunkFailed) && !text::blank(
            sanitize::sanitized(run.generated, run.prefix, run.suffix, run.before),
        ) ==> run.after(event).1 == ActionView::Finish(
            Some(sanitize::sanitized(run.generated, run.prefix, run.suffix, run.before)),
        ),
{
}

/// What a run is about stays the same throughout; pieces are collected in full and in order, and
/// each stream is collected afresh.
pub proof fn lemma_pieces_are_collected(run: RunView, event: EventView)
    ensures
        ({
            let next = run.after(event).0;
            &&& next.prefix == run.prefix && next.suffix == run.suffix && next.before == run.before
            &&& event matches EventView::Chunk(piece) ==> {
                &&& next.generated == run.generated + piece
                &&& next.attempts_left == run.attempts_left
                &&& next.phase == run.phase
                &&& run.after(event).1 == ActionView::ReadChunk
            }
            &&& event is StreamOpened ==> {
                &&& next.generated.len() == 0
                &&& next.attempts_left == run.attempts_left
                &&& run.after(event).1 == ActionView::ReadChunk
            }
            &&& event is StreamRefused ==> run.after(event).1 == ActionView::Finish(None)
        }),
{
}

/// A run takes whatever can come of what it has asked for: the end of the wait, either answer to a
/// request, and any piece or end of a stream.
pub proof fn lemma_what_can_come_is_awaited(run: RunView, event: EventView, piece: Seq<char>)
    requires
        run.well_formed(),
        run.awaits(event),
    ensures
        ({
            let (next, action) = run.after(event);
            &&& next.well_formed()
            &&& action is OpenStream ==> next.awaits(EventView::StreamOpened) && next.awaits(
                EventView::StreamRefused,
            )
            &&& action is ReadChunk ==> next.awaits(EventView::Chunk(piece)) && next.awaits(
                EventView::ChunkFailed,
            ) && next.awaits(EventView::StreamEnded)
            &&& action is Finish ==> next.phase == Phase::Done
            &&& !(action is Wait)
        }),
{
}

/// So does a run that was just started.
pub proof fn lemma_first_event_is_awaited(
    prefix: Seq<char>,
    suffix: Seq<char>,
    before: Seq<char>,
    attempts: int,
    debounce: bool,
)
    ensures
        ({
            let (first, action) = started(prefix, suffix, before, attempts, debounce);
            &&& first.well_formed()
            &&& debounce ==> first.awaits(EventView::Waited)
            &&& !debounce ==> first.awaits(EventView::StreamOpened) && first.awaits(
                EventView::StreamRefused,
            )
        }),
{
}

/// A run from its start, with a wait before it or without: where `k` answers leave nothing but
/// white space once cleaned, and the next, still within the attempts, leaves more, the run delivers
/// all the pieces of that answer, cleaned against the text it was started with, and nothing else.
pub proof fn lemma_run_delivers_whole_answer(
    prefix: Seq<char>,
    suffix: Seq<char>,
    before: Seq<char>,
    attempts: int,
    debounce: bool,
    replies: Seq<Reply>,
    k: int,
)
    requires
        0 <= k < replies.len(),
        k < vstd::math::max(attempts, 1),
        forall|i: int| 0 <= i <= k ==> (#[trigger] replies[i]) is Answer,
        forall|i: int|
            0 <= i < k ==> text::blank(
                sanitize::sanitized(
                    (#[trigger] replies[i])->pieces.flatten(),
                    prefix,
                    suffix,
                    before,
                ),
            ),
        !text::blank(
            sanitize::sanitized(replies[k]->pieces.flatten(), prefix, suffix, before),
        ),
    ensures
        ({
            let first = started(prefix, suffix, before, attempts, debounce).0;
            let asking = if debounce {
                first.after(EventView::Waited).0
            } else {
                first
            };
            after_replies(asking, replies) == ActionView::Finish(
                Some(sanitize::sanitized(replies[k]->pieces.flatten(), prefix, suffix, before)),
            )
        }),
{
    let asking = lemma_started_asks(prefix, suffix, before, attempts, debounce);
    lemma_reply_decides(asking, replies, k);
}

} // verus!
