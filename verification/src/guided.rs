//! What a constraint guarantees of a whole run: what has been said follows the automaton
//! token by token, whatever was drafted, so a run that ends because its document is
//! complete has said a document of the shape that was asked for.

use vstd::prelude::*;
use crate::automaton::{fed_all, law_split, started, Shape, MAX_DEPTH};
use crate::document::{is_padded, law_documents_conform};
use crate::generate::{after, Event, GeneratorV};
use crate::progress::{can_be_completed, can_fill, law_no_dead_end};

verus! {

/// The document bytes of some tokens, one after the other. A token that is not in the
/// vocabulary has none.
pub open spec fn document_of(bytes: Seq<Seq<u8>>, tokens: Seq<u32>) -> Seq<u8>
    decreases tokens.len(),
{
    if tokens.len() == 0 {
        Seq::empty()
    } else {
        let id = tokens.last() as int;
        document_of(bytes, tokens.drop_last()) + (if 0 <= id < bytes.len() {
            bytes[id]
        } else {
            Seq::empty()
        })
    }
}

/// Whether a sequence of events can come, one after the other.
pub open spec fn can_come(s: GeneratorV, es: Seq<Event>) -> bool
    decreases es.len(),
{
    es.len() == 0 || (can_come(s, es.drop_last()) && after(s, es.drop_last()).awaits(es.last()))
}

/// Whether a token that is chosen is one that the constraint allows.
pub open spec fn heeds(s: GeneratorV, e: Event) -> bool {
    match (s.guide, e) {
        (Some(g), Event::Drawn(t)) => g.allows(t as int),
        (Some(g), Event::Replaced(t)) => g.allows(t as int),
        (Some(g), Event::Kept) => g.allows(s.draft[s.taken as int] as int),
        _ => true,
    }
}

/// Whether every token that is chosen is one that the constraint allows.
pub open spec fn all_heed(s: GeneratorV, es: Seq<Event>) -> bool
    decreases es.len(),
{
    es.len() == 0 || (all_heed(s, es.drop_last()) && heeds(after(s, es.drop_last()), es.last()))
}

/// What the constraint has seen of what was said: all of it, but for a token that the
/// caller has not taken yet.
pub open spec fn seen(s: GeneratorV) -> Seq<u32> {
    if s.phase is Said || s.phase is DraftSaid || (s.phase is Done && s.stop is Caller) {
        s.history.drop_last()
    } else {
        s.history
    }
}

/// How the constraint stands to what was said since a run began with `n` tokens.
spec fn follows(s: GeneratorV, shape: Shape, bytes: Seq<Seq<u8>>, n: nat) -> bool {
    &&& s.guide matches Some(g) && g.bytes == bytes && g.state == fed_all(started(shape), document_of(bytes, seen(s).skip(n as int)))
    &&& n <= seen(s).len()
}

/// One token more.
proof fn lemma_one_more(bytes: Seq<Seq<u8>>, tokens: Seq<u32>, id: u32)
    ensures
        document_of(bytes, tokens.push(id)) == document_of(bytes, tokens) + (if id < bytes.len() {
            bytes[id as int]
        } else {
            Seq::empty()
        }),
{
    assert(tokens.push(id).drop_last() =~= tokens);
}

/// The constraint has followed what was heard.
proof fn lemma_followed(s: GeneratorV, shape: Shape, bytes: Seq<Seq<u8>>, n: nat)
    requires
        s.phase is Said || s.phase is DraftSaid,
        s.history.len() > 0,
        follows(s, shape, bytes, n),
    ensures
        s.followed().guide matches Some(g) && g.bytes == bytes && g.state == fed_all(
            started(shape),
            document_of(bytes, s.history.skip(n as int)),
        ),
{
    let id = s.history.last();
    let before = seen(s).skip(n as int);
    assert(s.history.skip(n as int) =~= before.push(id));
    lemma_one_more(bytes, before, id);
    let more = if id < bytes.len() {
        bytes[id as int]
    } else {
        Seq::empty()
    };
    law_split(started(shape), document_of(bytes, before), more);
    if more.len() == 0 {
        assert(document_of(bytes, before) + more =~= document_of(bytes, before));
    }
}

#[verifier::rlimit(40)]
#[verifier::spinoff_prover]
proof fn lemma_follows(s: GeneratorV, e: Event, shape: Shape, bytes: Seq<Seq<u8>>, n: nat)
    requires
        s.valid(),
        s.awaits(e),
        follows(s, shape, bytes, n),
    ensures
        follows(s.advance(e).0, shape, bytes, n),
{
    match e {
        Event::Heard(_) => {
            lemma_followed(s, shape, bytes, n);
        },
        Event::Drawn(x) => {
            assert(s.history.push(x).drop_last() =~= s.history);
        },
        Event::Replaced(x) => {
            assert(s.history.push(x).drop_last() =~= s.history);
        },
        Event::Kept => {
            assert(s.history.push(s.draft[s.taken as int]).drop_last() =~= s.history);
        },
        _ => {},
    }
}

proof fn lemma_run(s: GeneratorV, es: Seq<Event>, shape: Shape)
    requires
        s.valid(),
        s.phase is Ready,
        s.guide matches Some(g) && g.state == started(shape),
        can_come(s, es),
    ensures
        after(s, es).valid(),
        follows(after(s, es), shape, s.guide->0.bytes, s.history.len()),
    decreases es.len(),
{
    if es.len() == 0 {
        assert(s.history.skip(s.history.len() as int) =~= Seq::<u32>::empty());
    } else {
        lemma_run(s, es.drop_last(), shape);
        let m = after(s, es.drop_last());
        crate::generate::law_invariant(m, es.last());
        lemma_follows(m, es.last(), shape, s.guide->0.bytes, s.history.len());
    }
}

/// A constraint is obeyed to the letter: a run that ends because its document is complete
/// has said a document of the shape that was asked for, and nothing more, whatever was
/// drawn, drafted or rejected on the way.
pub proof fn law_completed_output_conforms(s: GeneratorV, es: Seq<Event>, shape: Shape)
    requires
        s.valid(),
        s.phase is Ready,
        s.guide matches Some(g) && g.state == started(shape),
        can_come(s, es),
        after(s, es).phase is Done,
        after(s, es).stop is Complete,
    ensures
        is_padded(shape, document_of(s.guide->0.bytes, after(s, es).history.skip(s.history.len() as int)), MAX_DEPTH - 1),
{
    lemma_run(s, es, shape);
    lemma_complete_means_so(s, es);
    law_documents_conform(shape, document_of(s.guide->0.bytes, after(s, es).history.skip(s.history.len() as int)));
}

/// A run that gives completeness as its reason is complete.
proof fn lemma_complete_means_so(s: GeneratorV, es: Seq<Event>)
    requires
        s.valid(),
        s.phase is Ready,
        can_come(s, es),
    ensures
        after(s, es).phase is Done && after(s, es).stop is Complete ==> after(s, es).complete(),
    decreases es.len(),
{
    if es.len() > 0 {
        lemma_complete_means_so(s, es.drop_last());
    }
}

/// The document ends the run: once it is complete, no token follows the one that completed
/// it.
pub proof fn law_completion_ends_the_run(s: GeneratorV)
    requires
        s.valid(),
        s.phase is Said || s.phase is DraftSaid,
        s.followed().complete(),
    ensures
        s.advance(Event::Heard(true)).0.phase is Done,
        s.advance(Event::Heard(true)).0.stop is Complete,
        s.advance(Event::Heard(true)).0.history == s.history,
{
}

/// Whether a token that was said but not yet seen by the constraint is one it allows.
spec fn pending_allowed(s: GeneratorV) -> bool {
    s.phase is Said || s.phase is DraftSaid ==> (s.guide matches Some(g) && g.allows(s.history.last() as int))
}

proof fn lemma_alive(s: GeneratorV, es: Seq<Event>, shape: Shape)
    requires
        s.valid(),
        s.phase is Ready,
        s.guide matches Some(g) && g.state == started(shape),
        can_come(s, es),
        all_heed(s, es),
    ensures
        after(s, es).guide matches Some(g) && g.state is Some,
        pending_allowed(after(s, es)),
    decreases es.len(),
{
    if es.len() > 0 {
        lemma_alive(s, es.drop_last(), shape);
        lemma_run(s, es.drop_last(), shape);
    }
}

/// Nothing invalid gets past a constraint, by drawing or by drafting: as long as every
/// token that is chosen is one that the mask let through, what has been said can still be
/// continued to a complete document.
pub proof fn law_output_can_be_completed(s: GeneratorV, es: Seq<Event>, shape: Shape)
    requires
        s.valid(),
        s.phase is Ready,
        s.guide matches Some(g) && g.state == started(shape),
        can_fill(shape, MAX_DEPTH - 1),
        can_come(s, es),
        all_heed(s, es),
    ensures
        can_be_completed(shape, document_of(s.guide->0.bytes, seen(after(s, es)).skip(s.history.len() as int))),
{
    lemma_run(s, es, shape);
    lemma_alive(s, es, shape);
    law_no_dead_end(shape, document_of(s.guide->0.bytes, seen(after(s, es)).skip(s.history.len() as int)));
}

} // verus!
