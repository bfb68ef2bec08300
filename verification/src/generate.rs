//! The decode loop, in one place.
//!
//! The loop verifies a drafted continuation in the same step that forwards the
//! token before it. Running the model, sampling and telling the caller happen
//! outside; what is decided between them happens here: each event that comes back
//! leads to the next action.
//!
//! The structure is one invariant: the last token of the history has been
//! committed and handed to the caller but is not yet in the KV cache. Every round
//! forwards it, together with any draft riding behind it, and ends with the next
//! committed token in its place. With no draft the round is an ordinary
//! single-token decode, so speculation is not a second code path.

use vstd::prelude::*;
use crate::draft::Lookup;
use crate::grammar::{Guide, GuideV, count_set};

verus! {

/// What to generate and how.
#[derive(Clone, Copy)]
pub struct Plan {
    pub max_tokens: usize,
    pub seed: u64,
    /// Tokens to draft per step. 0 disables speculation entirely.
    pub lookahead: usize,
    pub lookup: Lookup,
    /// How many alternatives to report with each token.
    pub logprobs: usize,
}

impl Default for Plan {
    fn default() -> (p: Plan)
        ensures
            p.max_tokens == 128,
            p.seed == 0,
            p.lookahead == 0,
            p.lookup == (Lookup { max_ngram: 8, min_ngram: 2 }),
            p.logprobs == 0,
    {
        Plan { max_tokens: 128, seed: 0, lookahead: 0, lookup: Lookup { max_ngram: 8, min_ngram: 2 }, logprobs: 0 }
    }
}

/// Why generation ended.
#[derive(Clone, Copy, PartialEq, Eq, Debug, Structural)]
pub enum Stop {
    /// `max_tokens` reached.
    Length,
    /// The checkpoint's own end-of-sequence token.
    Eos,
    /// The caller's callback asked to stop.
    Caller,
    /// The context window ran out.
    Context,
    /// A constraint was satisfied: the document is complete.
    Complete,
    /// A constraint left no token that could legally follow.
    Stuck,
}

impl Default for Stop {
    fn default() -> (s: Stop)
        ensures
            s == Stop::Length,
    {
        Stop::Length
    }
}

impl Stop {
    /// The `finish_reason` an OpenAI client expects.
    pub fn reason(self) -> (r: &'static str)
        ensures
            r@ == (match self {
                Stop::Length | Stop::Context | Stop::Stuck => "length"@,
                Stop::Eos | Stop::Caller | Stop::Complete => "stop"@,
            }),
    {
        match self {
            Stop::Length | Stop::Context | Stop::Stuck => "length",
            Stop::Eos | Stop::Caller | Stop::Complete => "stop",
        }
    }
}

/// What came of it.
#[derive(Debug, Clone, Copy, PartialEq, Eq, Structural)]
pub struct Outcome {
    pub tokens: usize,
    /// Forward steps taken. Fewer steps than tokens means speculation paid.
    pub steps: usize,
    pub drafted: usize,
    pub accepted: usize,
    pub stop: Stop,
}

impl Default for Outcome {
    fn default() -> (o: Outcome)
        ensures
            o == (Outcome { tokens: 0, steps: 0, drafted: 0, accepted: 0, stop: Stop::Length }),
    {
        Outcome { tokens: 0, steps: 0, drafted: 0, accepted: 0, stop: Stop::Length }
    }
}

impl Outcome {
    /// The share of drafted tokens that were accepted, as a fraction: nothing of one where
    /// none were drafted.
    pub fn acceptance(&self) -> (r: (usize, usize))
        ensures
            r == (if self.drafted == 0 {
                (0usize, 1usize)
            } else {
                (self.accepted, self.drafted)
            }),
    {
        if self.drafted == 0 {
            (0, 1)
        } else {
            (self.accepted, self.drafted)
        }
    }

    /// Tokens per forward step, as a fraction: the part that turns into wall clock.
    pub fn tokens_per_step(&self) -> (r: (usize, usize))
        ensures
            r.0 == self.tokens,
            r.1 == (if self.steps == 0 {
                1
            } else {
                self.steps
            }),
    {
        if self.steps == 0 {
            (self.tokens, 1)
        } else {
            (self.tokens, self.steps)
        }
    }
}

/// What the loop waits for.
#[derive(Clone, Copy, PartialEq, Eq, Debug, Structural)]
pub enum Phase {
    /// Nothing yet: the loop has not begun.
    Ready,
    /// The first token, drawn from the prefill's own logits.
    First,
    /// The caller's word on a committed token.
    Said,
    /// The model's step over the pending token and the draft.
    Running,
    /// The sampler's verdict on a drafted token.
    Judged,
    /// The caller's word on an accepted draft.
    DraftSaid,
    /// The token after the accepted prefix.
    Next,
    /// Nothing more.
    Done,
}

/// What happened outside.
#[derive(Clone, Copy, PartialEq, Eq, Debug, Structural)]
pub enum Event {
    /// The loop begins.
    Begin,
    /// The sampler drew a token.
    Drawn(u32),
    /// The model ran.
    Ran,
    /// The sampler kept a drafted token.
    Kept,
    /// The sampler rejected a drafted token for another, which must be used:
    /// drawing again would bias the output.
    Replaced(u32),
    /// The caller heard a token, and wants more or not.
    Heard(bool),
}

/// What is to happen outside.
#[derive(Debug)]
pub enum Action {
    /// Draw from a row of the latest logits, under a mask where there is one.
    Draw { row: usize, mask: Option<Vec<bool>> },
    /// Judge a drafted token by a row of the latest logits.
    Judge { row: usize, guess: u32, mask: Option<Vec<bool>> },
    /// Run the model over some tokens.
    Run(Vec<u32>),
    /// Hand a committed token to the caller.
    Say(u32),
    Finish(Stop),
}

/// What an [`Action`] holds.
#[allow(inconsistent_fields)]
pub enum ActionV {
    Draw { row: nat, mask: Option<Seq<bool>> },
    Judge { row: nat, guess: u32, mask: Option<Seq<bool>> },
    Run(Seq<u32>),
    Say(u32),
    Finish(Stop),
}

pub open spec fn mask_view(m: Option<Vec<bool>>) -> Option<Seq<bool>> {
    match m {
        Some(v) => Some(v@),
        None => None,
    }
}

impl View for Action {
    type V = ActionV;

    open spec fn view(&self) -> ActionV {
        match *self {
            Action::Draw { row, mask } => ActionV::Draw { row: row as nat, mask: mask_view(mask) },
            Action::Judge { row, guess, mask } => ActionV::Judge { row: row as nat, guess, mask: mask_view(mask) },
            Action::Run(b) => ActionV::Run(b@),
            Action::Say(t) => ActionV::Say(t),
            Action::Finish(s) => ActionV::Finish(s),
        }
    }
}

/// The state of the loop.
pub struct Generator {
    plan: Plan,
    vocab: usize,
    ctx: usize,
    eos: Vec<u32>,
    history: Vec<u32>,
    pos: usize,
    base: usize,
    draft: Vec<u32>,
    taken: usize,
    out: Outcome,
    guide: Option<Guide>,
    phase: Phase,
}

/// What a [`Generator`] holds.
pub struct GeneratorV {
    pub plan: Plan,
    /// Size of the vocabulary.
    pub vocab: nat,
    /// Positions that the context window has.
    pub ctx: nat,
    pub eos: Seq<u32>,
    /// Everything committed.
    pub history: Seq<u32>,
    /// Positions that the cache holds.
    pub pos: nat,
    /// Positions that it held before the current round.
    pub base: nat,
    pub draft: Seq<u32>,
    /// Drafted tokens accepted in the current round.
    pub taken: nat,
    pub tokens: nat,
    pub steps: nat,
    pub drafted: nat,
    pub accepted: nat,
    pub stop: Stop,
    pub guide: Option<GuideV>,
    pub phase: Phase,
}

pub open spec fn least(a: nat, b: nat) -> nat {
    if a < b {
        a
    } else {
        b
    }
}

/// A constraint after a token: one that carries no document bytes leaves it as it is.
pub open spec fn heard(g: GuideV, t: u32) -> GuideV {
    GuideV {
        bytes: g.bytes,
        state: if g.speaks(t as int) {
            g.after(t as int)
        } else {
            g.state
        },
    }
}

impl GeneratorV {
    /// Whether an event is one that the loop waits for.
    pub open spec fn awaits(self, e: Event) -> bool {
        match self.phase {
            Phase::Ready => e is Begin,
            Phase::First => e is Drawn,
            Phase::Said => e is Heard,
            Phase::Running => e is Ran,
            Phase::Judged => e is Kept || e is Replaced,
            Phase::DraftSaid => e is Heard,
            Phase::Next => e is Drawn,
            Phase::Done => false,
        }
    }

    /// The tokens that the constraint allows.
    pub open spec fn allowed(self) -> Option<Seq<bool>> {
        match self.guide {
            None => None,
            Some(g) => Some(Seq::new(self.vocab, |id: int| g.allows(id))),
        }
    }

    /// Whether the constraint leaves no token at all.
    pub open spec fn stuck(self) -> bool {
        self.allowed() matches Some(m) && count_set(m, m.len()) == 0
    }

    pub open spec fn finished(self, stop: Stop) -> (GeneratorV, ActionV) {
        (GeneratorV { stop, phase: Phase::Done, ..self }, ActionV::Finish(stop))
    }

    /// The positions past the accepted prefix dropped.
    pub open spec fn cut(self) -> GeneratorV {
        GeneratorV { pos: self.base + 1 + self.taken, ..self }
    }

    /// A token is drawn next, unless the constraint allows none.
    pub open spec fn draw(self, row: nat, phase: Phase) -> (GeneratorV, ActionV) {
        if self.stuck() {
            self.finished(Stop::Stuck)
        } else {
            (GeneratorV { phase, ..self }, ActionV::Draw { row, mask: self.allowed() })
        }
    }

    /// A token commits: it joins the history and the caller hears it, unless it
    /// ends the sequence or the context has run out.
    pub open spec fn commit(self, t: u32) -> (GeneratorV, ActionV) {
        if self.eos.contains(t) {
            self.finished(Stop::Eos)
        } else if self.pos >= self.ctx {
            self.finished(Stop::Context)
        } else {
            (
                GeneratorV {
                    history: self.history.push(t),
                    tokens: self.tokens + 1,
                    phase: Phase::Said,
                    ..self
                },
                ActionV::Say(t),
            )
        }
    }

    /// The constraint advances over the token that was heard last.
    pub open spec fn followed(self) -> GeneratorV {
        match self.guide {
            None => self,
            Some(g) => GeneratorV { guide: Some(heard(g, self.history.last())), ..self },
        }
    }

    /// Whether the constraint is satisfied.
    pub open spec fn complete(self) -> bool {
        self.guide matches Some(g) && g.complete()
    }

    /// A round begins: the pending token is forwarded, with a draft that fits the
    /// window and what is left to generate.
    pub open spec fn round(self) -> (GeneratorV, ActionV) {
        if self.tokens >= self.plan.max_tokens {
            self.finished(Stop::Length)
        } else if self.pos >= self.ctx {
            self.finished(Stop::Context)
        } else {
            let room = (self.ctx - self.pos - 1) as nat;
            let want = least(
                least(self.plan.lookahead as nat, room),
                (self.plan.max_tokens - self.tokens) as nat,
            );
            let draft = if want == 0 {
                Seq::empty()
            } else {
                self.plan.lookup.proposed(self.history, want)
            };
            (
                GeneratorV { base: self.pos, draft, taken: 0, phase: Phase::Running, ..self },
                ActionV::Run(seq![self.history.last()] + draft),
            )
        }
    }

    /// The next drafted token is judged, or the token after all of them is drawn.
    pub open spec fn judge(self) -> (GeneratorV, ActionV) {
        if self.taken < self.draft.len() {
            if self.stuck() {
                self.cut().finished(Stop::Stuck)
            } else {
                (
                    GeneratorV { phase: Phase::Judged, ..self },
                    ActionV::Judge {
                        row: self.taken,
                        guess: self.draft[self.taken as int],
                        mask: self.allowed(),
                    },
                )
            }
        } else {
            self.cut().draw(self.taken, Phase::Next)
        }
    }

    /// An accepted draft joins the history, unless it ends the sequence: then it is
    /// dropped from the cache, for it commits to nothing.
    pub open spec fn keep(self) -> (GeneratorV, ActionV) {
        let t = self.draft[self.taken as int];
        let s = GeneratorV { accepted: self.accepted + 1, ..self };
        if s.eos.contains(t) {
            s.cut().finished(Stop::Eos)
        } else {
            (
                GeneratorV {
                    history: s.history.push(t),
                    tokens: s.tokens + 1,
                    taken: s.taken + 1,
                    phase: Phase::DraftSaid,
                    ..s
                },
                ActionV::Say(t),
            )
        }
    }

    /// Whether the latest token was committed outside a draft: it has not been forwarded
    /// yet.
    pub open spec fn pending(self) -> bool {
        self.tokens == 1 + self.steps + self.accepted
    }

    /// What follows an event.
    pub open spec fn advance(self, e: Event) -> (GeneratorV, ActionV) {
        match e {
            Event::Begin => if self.plan.max_tokens == 0 {
                self.finished(Stop::Length)
            } else {
                self.draw(0, Phase::First)
            },
            Event::Drawn(t) => self.commit(t),
            Event::Ran => {
                let n = self.draft.len();
                let total = self.drafted + n;
                (GeneratorV {
                    steps: self.steps + 1,
                    drafted: if total > usize::MAX {
                        usize::MAX as nat
                    } else {
                        total
                    },
                    pos: self.base + 1 + n,
                    ..self
                }).judge()
            },
            Event::Kept => self.keep(),
            Event::Replaced(t) => self.cut().commit(t),
            Event::Heard(more) => if self.phase is Said {
                if !more {
                    self.finished(Stop::Caller)
                } else if self.followed().complete() {
                    self.followed().finished(Stop::Complete)
                } else {
                    self.followed().round()
                }
            } else if !more {
                self.cut().finished(Stop::Caller)
            } else if self.followed().complete() {
                self.followed().cut().finished(Stop::Complete)
            } else if self.tokens >= self.plan.max_tokens {
                self.followed().cut().finished(Stop::Length)
            } else {
                self.followed().judge()
            },
        }
    }

    /// What holds of the loop between events.
    pub open spec fn valid(self) -> bool {
        &&& self.pos <= self.ctx
        &&& self.tokens <= self.plan.max_tokens
        &&& self.tokens <= self.history.len()
        &&& self.accepted <= self.drafted <= usize::MAX
        &&& self.taken <= self.draft.len()
        &&& self.plan.lookahead == 0 ==> self.draft.len() == 0 && self.drafted == 0
        &&& match self.phase {
            Phase::Ready | Phase::First => {
                &&& self.tokens == 0 && self.steps == 0 && self.accepted == 0 && self.drafted == 0
                &&& self.phase is First ==> self.plan.max_tokens > 0
            },
            Phase::Said => self.pending() && self.pos < self.ctx,
            Phase::Running => {
                &&& self.pending()
                &&& self.base == self.pos && self.pos < self.ctx && self.taken == 0
                &&& self.base + 1 + self.draft.len() <= self.ctx
                &&& self.tokens + self.draft.len() <= self.plan.max_tokens
                &&& self.tokens < self.plan.max_tokens
            },
            Phase::Judged => {
                &&& self.tokens == self.steps + self.accepted
                &&& self.taken < self.draft.len()
                &&& self.pos == self.base + 1 + self.draft.len()
                &&& self.tokens + self.draft.len() - self.taken <= self.plan.max_tokens
                &&& self.accepted + self.draft.len() - self.taken <= self.drafted || self.drafted == usize::MAX
            },
            Phase::DraftSaid => {
                &&& self.tokens == self.steps + self.accepted
                &&& self.taken >= 1 && self.tokens >= 1 && self.accepted >= 1
                &&& self.pos == self.base + 1 + self.draft.len()
                &&& self.tokens + self.draft.len() - self.taken <= self.plan.max_tokens
                &&& self.accepted + self.draft.len() - self.taken <= self.drafted || self.drafted == usize::MAX
            },
            Phase::Next => {
                &&& self.tokens == self.steps + self.accepted
                &&& self.tokens < self.plan.max_tokens
                &&& self.pos == self.base + 1 + self.taken
            },
            Phase::Done => match self.stop {
                Stop::Length | Stop::Caller | Stop::Complete => self.pending() || {
                    &&& self.tokens == self.steps + self.accepted
                    &&& self.accepted >= 1 || self.tokens == 0
                },
                Stop::Eos => self.tokens == self.steps + self.accepted || {
                    &&& self.tokens + 1 == self.steps + self.accepted
                    &&& self.accepted >= 1
                },
                Stop::Context | Stop::Stuck => self.tokens == self.steps + self.accepted,
            },
        }
    }
}

/// What holds between events holds again after each: no more tokens than asked
/// for, no more accepted than drafted, no position beyond the window, and every
/// token after the first paid for by a step or an accepted draft.
pub proof fn law_invariant(s: GeneratorV, e: Event)
    requires
        s.valid(),
        s.awaits(e),
    ensures
        s.advance(e).0.valid(),
{
    if s.tokens < s.plan.max_tokens {
        crate::draft::law_drafts_replay(
            s.plan.lookup,
            s.history,
            least(
                least(s.plan.lookahead as nat, (s.ctx - s.pos - 1) as nat),
                (s.plan.max_tokens - s.tokens) as nat,
            ),
        );
    }
}

/// The history grows by exactly the tokens that the caller hears: each event
/// commits at most one, it is handed to the caller at once, and nothing committed
/// is ever taken back.
pub proof fn law_history_is_what_was_said(s: GeneratorV, e: Event)
    requires
        s.valid(),
        s.awaits(e),
    ensures
        ({
            let (t, a) = s.advance(e);
            match a {
                ActionV::Say(token) => t.history == s.history.push(token) && t.tokens == s.tokens + 1,
                _ => t.history == s.history && t.tokens == s.tokens,
            }
        }),
{
}

/// How the cache stands to the history: it holds everything committed, but for a last
/// token that has not been forwarded. Such a token waits for the next round, which may
/// never come.
pub open spec fn aligned(s: GeneratorV) -> bool {
    match s.phase {
        Phase::Ready | Phase::First => s.pos == s.history.len(),
        Phase::Said => s.pos + 1 == s.history.len(),
        Phase::Running => s.base + 1 == s.history.len(),
        Phase::Judged | Phase::DraftSaid => s.base + 1 + s.taken == s.history.len(),
        Phase::Next => s.pos == s.history.len(),
        Phase::Done => match s.stop {
            // The end comes after a token that was just committed. Where a draft held
            // it, it was forwarded with the draft.
            Stop::Length | Stop::Caller | Stop::Complete => if s.pending() {
                s.pos + 1 == s.history.len()
            } else {
                s.pos == s.history.len()
            },
            // The end comes in place of a token.
            Stop::Eos | Stop::Context | Stop::Stuck => s.pos == s.history.len(),
        },
    }
}

/// The cache follows the committed history, whatever is drafted and rejected.
pub proof fn law_cache_follows_history(s: GeneratorV, e: Event)
    requires
        s.valid(),
        s.awaits(e),
        aligned(s),
    ensures
        aligned(s.advance(e).0),
{
}

/// Whether an event is what greedy decoding answers: `best` is the token that
/// the model ranks first after a history.
pub open spec fn greedy(s: GeneratorV, e: Event, best: spec_fn(Seq<u32>) -> u32) -> bool {
    match e {
        Event::Drawn(t) => t == best(s.history),
        Event::Kept => s.draft[s.taken as int] == best(s.history),
        Event::Replaced(t) => t == best(s.history),
        _ => true,
    }
}

/// Under greedy decoding the output does not depend on what is drafted: every
/// token that commits is the one the model ranks first after the history so far.
pub proof fn law_greedy_output_is_lookahead_free(s: GeneratorV, e: Event, best: spec_fn(Seq<u32>) -> u32)
    requires
        s.valid(),
        s.awaits(e),
        greedy(s, e, best),
    ensures
        ({
            let t = s.advance(e).0;
            t.history == s.history || t.history == s.history.push(best(s.history))
        }),
{
}

/// Where a sequence of events leads.
pub open spec fn after(s: GeneratorV, es: Seq<Event>) -> GeneratorV
    decreases es.len(),
{
    if es.len() == 0 {
        s
    } else {
        after(s, es.drop_last()).advance(es.last()).0
    }
}

/// Whether a sequence of events can come, each answered as greedy decoding does, by a
/// caller whose wish to go on is decided by what it has heard.
pub open spec fn runs(
    s: GeneratorV,
    es: Seq<Event>,
    best: spec_fn(Seq<u32>) -> u32,
    wants: spec_fn(Seq<u32>) -> bool,
) -> bool
    decreases es.len(),
{
    es.len() == 0 || {
        let t = after(s, es.drop_last());
        &&& runs(s, es.drop_last(), best, wants)
        &&& t.awaits(es.last())
        &&& greedy(t, es.last(), best)
        &&& es.last() matches Event::Heard(more) ==> more == wants(t.history)
    }
}

/// A history continued by `n` tokens, each the one ranked first.
pub open spec fn continued(h: Seq<u32>, best: spec_fn(Seq<u32>) -> u32, n: nat) -> Seq<u32>
    decreases n,
{
    if n == 0 {
        h
    } else {
        let rest = continued(h, best, (n - 1) as nat);
        rest.push(best(rest))
    }
}

/// A constraint after the first `n` of those tokens.
pub open spec fn led(g: GuideV, h: Seq<u32>, best: spec_fn(Seq<u32>) -> u32, n: nat) -> GuideV
    decreases n,
{
    if n == 0 {
        g
    } else {
        heard(led(g, h, best, (n - 1) as nat), best(continued(h, best, (n - 1) as nat)))
    }
}

/// A loop as it stands after `n` tokens have been said and followed.
pub open spec fn reached(s: GeneratorV, best: spec_fn(Seq<u32>) -> u32, n: nat) -> GeneratorV {
    GeneratorV {
        history: continued(s.history, best, n),
        guide: match s.guide {
            Some(g) => Some(led(g, s.history, best, n)),
            None => None,
        },
        ..s
    }
}

/// Why a run from `s` ends after `n` tokens, if it does: what the model ranks first, what
/// the caller wants and what the constraint allows decide, and nothing that is drafted.
pub open spec fn halt(
    s: GeneratorV,
    best: spec_fn(Seq<u32>) -> u32,
    wants: spec_fn(Seq<u32>) -> bool,
    n: nat,
) -> Option<Stop> {
    let t = reached(s, best, n);
    if n > 0 && !wants(t.history) {
        Some(Stop::Caller)
    } else if n > 0 && t.complete() {
        Some(Stop::Complete)
    } else if n >= s.plan.max_tokens {
        Some(Stop::Length)
    } else if t.stuck() {
        Some(Stop::Stuck)
    } else if s.eos.contains(best(t.history)) {
        Some(Stop::Eos)
    } else if t.history.len() >= s.ctx {
        Some(Stop::Context)
    } else {
        None
    }
}

/// What holds of a run from `s` that has come to `t`.
spec fn tracks(
    s: GeneratorV,
    t: GeneratorV,
    best: spec_fn(Seq<u32>) -> u32,
    wants: spec_fn(Seq<u32>) -> bool,
) -> bool {
    let n = t.tokens;
    let here = reached(s, best, n);
    &&& t.valid() && aligned(t)
    &&& t.plan == s.plan && t.ctx == s.ctx && t.eos == s.eos && t.vocab == s.vocab
    &&& t.history == here.history
    &&& forall|k: nat| k < n ==> #[trigger] halt(s, best, wants, k) is None
    &&& match t.phase {
        Phase::Ready => t.guide == here.guide && n == 0,
        Phase::First => t.guide == here.guide && n == 0 && !t.stuck(),
        Phase::Said | Phase::DraftSaid => n > 0 && t.guide == reached(s, best, (n - 1) as nat).guide,
        Phase::Running => t.guide == here.guide && n > 0 && wants(t.history) && !t.complete(),
        Phase::Judged | Phase::Next => {
            t.guide == here.guide && n > 0 && wants(t.history) && !t.complete() && !t.stuck()
        },
        Phase::Done => halt(s, best, wants, n) == Some(t.stop),
    }
}

proof fn lemma_tracks(
    s: GeneratorV,
    t: GeneratorV,
    e: Event,
    best: spec_fn(Seq<u32>) -> u32,
    wants: spec_fn(Seq<u32>) -> bool,
)
    requires
        tracks(s, t, best, wants),
        t.awaits(e),
        greedy(t, e, best),
        e matches Event::Heard(more) ==> more == wants(t.history),
    ensures
        tracks(s, t.advance(e).0, best, wants),
{
    law_invariant(t, e);
    law_cache_follows_history(t, e);
    let u = t.advance(e).0;
    let n = t.tokens;
    let here = reached(s, best, n);
    if e is Heard {
        assert(t.history.last() == best(continued(s.history, best, (n - 1) as nat)));
        assert(t.followed().guide == here.guide);
    }
    assert(t.guide == here.guide ==> t.complete() == here.complete() && t.stuck() == here.stuck());
    assert(t.followed().guide == here.guide ==> t.followed().complete() == here.complete() && t.followed().stuck()
        == here.stuck());
    if u.tokens == n + 1 {
        assert(halt(s, best, wants, n) is None);
        assert(continued(s.history, best, n + 1) == t.history.push(best(t.history)));
    }
}

proof fn lemma_run(
    s: GeneratorV,
    es: Seq<Event>,
    best: spec_fn(Seq<u32>) -> u32,
    wants: spec_fn(Seq<u32>) -> bool,
)
    requires
        s.valid(),
        s.phase is Ready,
        s.pos == s.history.len(),
        runs(s, es, best, wants),
    ensures
        tracks(s, after(s, es), best, wants),
    decreases es.len(),
{
    if es.len() > 0 {
        lemma_run(s, es.drop_last(), best, wants);
        lemma_tracks(s, after(s, es.drop_last()), es.last(), best, wants);
    }
}

proof fn lemma_continued(h: Seq<u32>, best: spec_fn(Seq<u32>) -> u32, k: nat, n: nat)
    requires
        k <= n,
    ensures
        continued(h, best, n).len() == h.len() + n,
        continued(h, best, k) == continued(h, best, n).take((h.len() + k) as int),
    decreases n,
{
    if n > 0 {
        lemma_continued(h, best, if k < n {
            k
        } else {
            (n - 1) as nat
        }, (n - 1) as nat);
        let a = continued(h, best, (n - 1) as nat);
        let b = continued(h, best, n);
        if k < n {
            assert(b.take((h.len() + k) as int) =~= a.take((h.len() + k) as int));
        } else {
            assert(b.take((h.len() + k) as int) =~= b);
        }
    } else {
        assert(h.take(h.len() as int) =~= h);
    }
}

/// Whether two loops begin alike: over the same history, within the same limits and under
/// the same constraint. What they draft may differ.
pub open spec fn alike(a: GeneratorV, b: GeneratorV) -> bool {
    &&& a.valid() && b.valid()
    &&& a.phase is Ready && b.phase is Ready
    &&& a.pos == a.history.len() && b.pos == b.history.len()
    &&& a.history == b.history
    &&& a.plan.max_tokens == b.plan.max_tokens
    &&& a.eos == b.eos
    &&& a.ctx == b.ctx
    &&& a.vocab == b.vocab
    &&& a.guide == b.guide
}

proof fn lemma_alike(
    a: GeneratorV,
    b: GeneratorV,
    best: spec_fn(Seq<u32>) -> u32,
    wants: spec_fn(Seq<u32>) -> bool,
    n: nat,
)
    requires
        alike(a, b),
    ensures
        halt(a, best, wants, n) == halt(b, best, wants, n),
{
    let x = reached(a, best, n);
    let y = reached(b, best, n);
    assert(x.guide == y.guide && x.history == y.history);
    assert(x.allowed() == y.allowed());
}

/// Drafting is invisible: two greedy runs that begin alike, whatever either drafts, never
/// disagree on a token, and where both have ended they have said the same, for the same
/// reason.
pub proof fn law_drafting_is_invisible(
    a: GeneratorV,
    b: GeneratorV,
    ea: Seq<Event>,
    eb: Seq<Event>,
    best: spec_fn(Seq<u32>) -> u32,
    wants: spec_fn(Seq<u32>) -> bool,
)
    requires
        alike(a, b),
        runs(a, ea, best, wants),
        runs(b, eb, best, wants),
    ensures
        ({
            let x = after(a, ea);
            let y = after(b, eb);
            &&& x.history.len() <= y.history.len() ==> x.history == y.history.take(x.history.len() as int)
            &&& x.phase is Done && y.phase is Done ==> x.history == y.history && x.tokens == y.tokens && x.stop == y.stop
        }),
{
    lemma_run(a, ea, best, wants);
    lemma_run(b, eb, best, wants);
    let h = a.history;
    let x = after(a, ea);
    let y = after(b, eb);
    lemma_continued(h, best, x.tokens, x.tokens);
    lemma_continued(h, best, y.tokens, y.tokens);
    if x.tokens <= y.tokens {
        lemma_continued(h, best, x.tokens, y.tokens);
    }
    if x.phase is Done && y.phase is Done {
        lemma_alike(a, b, best, wants, x.tokens);
        lemma_alike(a, b, best, wants, y.tokens);
        if x.tokens < y.tokens {
            assert(halt(b, best, wants, x.tokens) is None);
        } else if y.tokens < x.tokens {
            assert(halt(a, best, wants, y.tokens) is None);
        }
    }
}

/// Drafting never costs a step: of two greedy runs that begin alike and have ended, the
/// one that drafts has taken no more steps than the one that does not. That one has
/// drafted nothing; where it ended for its length, its first token was free and each
/// other took one step.
pub proof fn law_drafting_costs_no_steps(
    a: GeneratorV,
    b: GeneratorV,
    ea: Seq<Event>,
    eb: Seq<Event>,
    best: spec_fn(Seq<u32>) -> u32,
    wants: spec_fn(Seq<u32>) -> bool,
)
    requires
        alike(a, b),
        a.plan.lookahead == 0,
        runs(a, ea, best, wants),
        runs(b, eb, best, wants),
        after(a, ea).phase is Done,
        after(b, eb).phase is Done,
    ensures
        after(b, eb).steps <= after(a, ea).steps,
        after(a, ea).drafted == 0,
        after(a, ea).stop is Length && after(a, ea).tokens > 0 ==> after(a, ea).steps == after(a, ea).tokens - 1,
{
    law_drafting_is_invisible(a, b, ea, eb, best, wants);
    lemma_run(a, ea, best, wants);
    lemma_run(b, eb, best, wants);
}

/// With nothing drafted, each token after the first costs one forward step;
/// with drafts, never more.
pub proof fn law_steps(s: GeneratorV)
    requires
        s.valid(),
        s.phase is Said,
    ensures
        s.steps + 1 <= s.tokens,
        s.drafted == 0 ==> s.steps + 1 == s.tokens,
{
}

impl View for Generator {
    type V = GeneratorV;

    closed spec fn view(&self) -> GeneratorV {
        GeneratorV {
            plan: self.plan,
            vocab: self.vocab as nat,
            ctx: self.ctx as nat,
            eos: self.eos@,
            history: self.history@,
            pos: self.pos as nat,
            base: self.base as nat,
            draft: self.draft@,
            taken: self.taken as nat,
            tokens: self.out.tokens as nat,
            steps: self.out.steps as nat,
            drafted: self.out.drafted as nat,
            accepted: self.out.accepted as nat,
            stop: self.out.stop,
            guide: match self.guide {
                Some(g) => Some(g@),
                None => None,
            },
            phase: self.phase,
        }
    }
}

fn listed(v: &Vec<u32>, t: u32) -> (r: bool)
    ensures
        r == v@.contains(t),
{
    let mut i: usize = 0;
    while i < v.len()
        invariant
            i <= v@.len(),
            forall|k: int| 0 <= k < i ==> v@[k] != t,
        decreases v.len() - i,
    {
        if v[i] == t {
            return true;
        }
        i += 1;
    }
    false
}

impl Generator {
    /// The constraint, where there is one, is in order.
    pub closed spec fn guided(self) -> bool {
        self.guide matches Some(g) ==> g.valid()
    }

    /// A loop over a state that has already been prefilled: `history` is what
    /// has been committed, `pos` the positions that the cache holds.
    pub fn new(
        plan: Plan,
        vocab: usize,
        ctx: usize,
        eos: Vec<u32>,
        history: Vec<u32>,
        pos: usize,
        guide: Option<Guide>,
    ) -> (g: Generator)
        requires
            pos <= ctx,
            guide matches Some(x) ==> x.valid(),
        ensures
            g.guided(),
            g@.valid(),
            g@ == (GeneratorV {
                plan,
                vocab: vocab as nat,
                ctx: ctx as nat,
                eos: eos@,
                history: history@,
                pos: pos as nat,
                base: 0,
                draft: Seq::empty(),
                taken: 0,
                tokens: 0,
                steps: 0,
                drafted: 0,
                accepted: 0,
                stop: Stop::Length,
                guide: match guide {
                    Some(x) => Some(x@),
                    None => None,
                },
                phase: Phase::Ready,
            }),
    {
        let g = Generator {
            plan,
            vocab,
            ctx,
            eos,
            history,
            pos,
            base: 0,
            draft: Vec::new(),
            taken: 0,
            out: Outcome { tokens: 0, steps: 0, drafted: 0, accepted: 0, stop: Stop::Length },
            guide,
            phase: Phase::Ready,
        };
        assert(g@.draft =~= Seq::<u32>::empty());
        g
    }

    /// The counters so far.
    pub fn outcome(&self) -> (o: Outcome)
        ensures
            o.tokens == self@.tokens,
            o.steps == self@.steps,
            o.drafted == self@.drafted,
            o.accepted == self@.accepted,
            o.stop == self@.stop,
    {
        self.out
    }

    /// Everything committed.
    pub fn history(&self) -> (h: &Vec<u32>)
        ensures
            h@ == self@.history,
    {
        &self.history
    }

    /// How many positions the cache is to keep before the next action.
    pub fn cache(&self) -> (n: usize)
        ensures
            n == self@.pos,
    {
        self.pos
    }

    fn finish(&mut self, stop: Stop) -> (a: Action)
        requires
            old(self).guided(),
        ensures
            final(self).guided(),
            (final(self)@, a@) == old(self)@.finished(stop),
    {
        self.out.stop = stop;
        self.phase = Phase::Done;
        Action::Finish(stop)
    }

    /// The mask of allowed tokens; the flag says that there is none at all.
    fn mask(&self) -> (r: (Option<Vec<bool>>, bool))
        requires
            self.guided(),
        ensures
            mask_view(r.0) == self@.allowed(),
            r.1 == self@.stuck(),
    {
        match &self.guide {
            None => (None, false),
            Some(g) => {
                let (m, n) = g.mask(self.vocab);
                assert(self@.allowed() == Some(m@));
                (Some(m), n == 0)
            },
        }
    }

    fn draw(&mut self, row: usize, phase: Phase) -> (a: Action)
        requires
            old(self).guided(),
        ensures
            final(self).guided(),
            (final(self)@, a@) == old(self)@.draw(row as nat, phase),
    {
        let (mask, stuck) = self.mask();
        if stuck {
            return self.finish(Stop::Stuck);
        }
        self.phase = phase;
        Action::Draw { row, mask }
    }

    fn commit(&mut self, t: u32) -> (a: Action)
        requires
            old(self).guided(),
            old(self)@.tokens < old(self)@.plan.max_tokens,
        ensures
            final(self).guided(),
            (final(self)@, a@) == old(self)@.commit(t),
    {
        if listed(&self.eos, t) {
            return self.finish(Stop::Eos);
        }
        if self.pos >= self.ctx {
            return self.finish(Stop::Context);
        }
        self.history.push(t);
        self.out.tokens += 1;
        self.phase = Phase::Said;
        Action::Say(t)
    }

    fn follow(&mut self)
        requires
            old(self).guided(),
            old(self)@.history.len() > 0,
        ensures
            final(self).guided(),
            final(self)@ == old(self)@.followed(),
    {
        let t: u32 = self.history[self.history.len() - 1];
        let mut guide: Option<Guide> = None;
        std::mem::swap(&mut guide, &mut self.guide);
        match guide {
            None => {},
            Some(g) => {
                let mut g = g;
                let _ = g.accept(t);
                self.guide = Some(g);
            },
        }
    }

    fn satisfied(&self) -> (r: bool)
        requires
            self.guided(),
        ensures
            r == self@.complete(),
    {
        match &self.guide {
            None => false,
            Some(g) => g.complete(),
        }
    }

    fn round(&mut self) -> (a: Action)
        requires
            old(self).guided(),
            old(self)@.history.len() > 0,
        ensures
            final(self).guided(),
            (final(self)@, a@) == old(self)@.round(),
    {
        if self.out.tokens >= self.plan.max_tokens {
            return self.finish(Stop::Length);
        }
        // Never draft past the context window: the batch has to fit.
        if self.pos >= self.ctx {
            return self.finish(Stop::Context);
        }
        let room: usize = self.ctx - self.pos - 1;
        let rest: usize = self.plan.max_tokens - self.out.tokens;
        let mut want: usize = self.plan.lookahead;
        if room < want {
            want = room;
        }
        if rest < want {
            want = rest;
        }
        let draft: Vec<u32> = if want == 0 {
            Vec::new()
        } else {
            self.plan.lookup.propose(self.history.as_slice(), want)
        };
        let ghost dv = draft@;
        let mut batch: Vec<u32> = Vec::new();
        batch.push(self.history[self.history.len() - 1]);
        let mut i: usize = 0;
        while i < draft.len()
            invariant
                i <= draft@.len(),
                batch@ == seq![self.history@.last()] + draft@.subrange(0, i as int),
            decreases draft.len() - i,
        {
            batch.push(draft[i]);
            i += 1;
            assert(batch@ =~= seq![self.history@.last()] + draft@.subrange(0, i as int));
        }
        assert(draft@.subrange(0, draft@.len() as int) =~= draft@);
        proof {
            assert(want == 0 ==> draft@ =~= Seq::<u32>::empty());
        }
        self.base = self.pos;
        self.draft = draft;
        self.taken = 0;
        self.phase = Phase::Running;
        Action::Run(batch)
    }

    fn judge(&mut self) -> (a: Action)
        requires
            old(self).guided(),
            old(self)@.taken <= old(self)@.draft.len(),
            old(self)@.base + 1 + old(self)@.draft.len() <= usize::MAX,
        ensures
            final(self).guided(),
            (final(self)@, a@) == old(self)@.judge(),
    {
        if self.taken < self.draft.len() {
            // A constraint masks the row before verification, so a draft that
            // would break the grammar has probability zero and is rejected:
            // speculation needs no separate rule to stay within the shape.
            let (mask, stuck) = self.mask();
            if stuck {
                self.pos = self.base + 1 + self.taken;
                return self.finish(Stop::Stuck);
            }
            self.phase = Phase::Judged;
            Action::Judge { row: self.taken, guess: self.draft[self.taken], mask }
        } else {
            // Positions past the accepted prefix were speculative; drop them so
            // the cache holds exactly the committed sequence.
            self.pos = self.base + 1 + self.taken;
            self.draw(self.taken, Phase::Next)
        }
    }

    /// What to do after an event. Before doing it, the cache is cut to what
    /// [`Generator::cache`] says.
    pub fn advance(&mut self, e: Event) -> (a: Action)
        requires
            old(self).guided(),
            old(self)@.valid(),
            old(self)@.awaits(e),
        ensures
            final(self).guided(),
            final(self)@.valid(),
            (final(self)@, a@) == old(self)@.advance(e),
    {
        proof {
            law_invariant(self@, e);
        }
        match e {
            Event::Begin => {
                if self.plan.max_tokens == 0 {
                    return self.finish(Stop::Length);
                }
                self.draw(0, Phase::First)
            },
            Event::Drawn(t) => self.commit(t),
            Event::Ran => {
                let n: usize = self.draft.len();
                self.out.steps += 1;
                self.out.drafted = self.out.drafted.saturating_add(n);
                self.pos = self.base + 1 + n;
                self.judge()
            },
            Event::Kept => {
                let t: u32 = self.draft[self.taken];
                self.out.accepted += 1;
                if listed(&self.eos, t) {
                    self.pos = self.base + 1 + self.taken;
                    return self.finish(Stop::Eos);
                }
                self.taken += 1;
                self.history.push(t);
                self.out.tokens += 1;
                self.phase = Phase::DraftSaid;
                Action::Say(t)
            },
            Event::Replaced(t) => {
                self.pos = self.base + 1 + self.taken;
                self.commit(t)
            },
            Event::Heard(more) => {
                let drafted = self.phase == Phase::DraftSaid;
                if !more {
                    if drafted {
                        self.pos = self.base + 1 + self.taken;
                    }
                    return self.finish(Stop::Caller);
                }
                self.follow();
                if self.satisfied() {
                    if drafted {
                        self.pos = self.base + 1 + self.taken;
                    }
                    return self.finish(Stop::Complete);
                }
                if !drafted {
                    return self.round();
                }
                if self.out.tokens >= self.plan.max_tokens {
                    self.pos = self.base + 1 + self.taken;
                    return self.finish(Stop::Length);
                }
                self.judge()
            },
        }
    }
}

} // verus!
