//! The source of random draws that generation consumes, and two sources
//! that implement it: a seeded generator and a replay of recorded draws.
use vstd::prelude::*;

verus! {

/// A request made of a source: the lower bound and the upper bound, which
/// is not itself reached.
pub type Request = (i32, i32);

/// A rule by which a source may answer: it gives the value for the last of
/// the requests made of the source so far.
pub type Rule = spec_fn(Seq<Request>) -> i32;

/// A source of bounded random integers.
///
/// Generation takes all its randomness from one such source, in one fixed
/// order, so what it builds is a function of the values that `range` hands
/// out. `asked` is the record of the ranges requested and `drawn` the record
/// of the values handed out for them; the contracts of generation say what
/// is added to each. A source that is a function of its seed says so through
/// `answers_by`, and generation from two such sources is then the same.
pub trait RandomSource {
    /// Every value that `range` has returned so far, oldest first.
    spec fn drawn(&self) -> Seq<i32>;

    /// Every range that `range` has been asked for so far, oldest first.
    spec fn asked(&self) -> Seq<Request>;

    /// Whether the source is bound to `rule`: each value it hands out from
    /// now on is what `rule` gives for the requests made of it up to then. A
    /// source that is a function of its seed is bound to one rule; a source
    /// of true chance is bound to none.
    spec fn answers_by(&self, rule: Rule) -> bool;

    /// An integer from `low` up to but not including `high`.
    fn range(&mut self, low: i32, high: i32) -> (value: i32)
        requires
            low < high,
        ensures
            low <= value < high,
            final(self).drawn() == old(self).drawn().push(value),
            final(self).asked() == old(self).asked().push((low, high)),
            forall|rule: Rule| #[trigger]
                old(self).answers_by(rule) ==> final(self).answers_by(rule) && value == rule(
                    final(self).asked(),
                ),
    ;
}

/// The values that `after` holds beyond the first `before.len()`: what was
/// drawn between the two records.
pub open spec fn drawn_since(before: Seq<i32>, after: Seq<i32>) -> Seq<i32> {
    after.skip(before.len() as int)
}

/// Each of `draws` is what `rule` gives for the requests up to it: those
/// in `before` and then as many of `requests`.
pub open spec fn answered_by(
    rule: Rule,
    before: Seq<Request>,
    requests: Seq<Request>,
    draws: Seq<i32>,
) -> bool {
    forall|i: int| 0 <= i < draws.len() ==> #[trigger] draws[i] == rule(before + requests.take(i + 1))
}

/// Sources bound to one rule that are asked the same give the same: where
/// two runs of requests agree in their first `count`, so do the values
/// that answer them.
pub proof fn lemma_same_answers(
    rule: Rule,
    before: Seq<Request>,
    requests: Seq<Request>,
    draws: Seq<i32>,
    others: Seq<Request>,
    again: Seq<i32>,
    count: int,
)
    requires
        answered_by(rule, before, requests, draws),
        answered_by(rule, before, others, again),
        count <= draws.len() <= requests.len(),
        count <= again.len() <= others.len(),
        forall|i: int| 0 <= i < count ==> requests[i] == others[i],
    ensures
        forall|i: int| 0 <= i < count ==> draws[i] == again[i],
{
    assert forall|i: int| 0 <= i < count implies draws[i] == again[i] by {
        assert(requests.take(i + 1) =~= others.take(i + 1));
    }
}

/// What a call did to its source: between `before` and `after` the source
/// was asked exactly `requests`, in this order, and handed out one value for
/// each; and a source bound to a rule stayed bound to it and answered by
/// it.
#[verifier::opaque]
pub open spec fn served<R: RandomSource>(before: R, after: R, requests: Seq<Request>) -> bool {
    let draws = drawn_since(before.drawn(), after.drawn());
    &&& after.drawn() == before.drawn() + draws
    &&& after.asked() == before.asked() + requests
    &&& draws.len() == requests.len()
    &&& forall|rule: Rule| #[trigger]
        before.answers_by(rule) ==> after.answers_by(rule) && answered_by(
            rule,
            before.asked(),
            requests,
            draws,
        )
}

/// What `served` says of the two records: the requests and the values
/// were appended, one value for each request.
pub proof fn lemma_served_records<R: RandomSource>(before: R, after: R, requests: Seq<Request>)
    requires
        served(before, after, requests),
    ensures
        after.asked() == before.asked() + requests,
        after.drawn() == before.drawn() + drawn_since(before.drawn(), after.drawn()),
        drawn_since(before.drawn(), after.drawn()).len() == requests.len(),
{
    reveal(served);
}

/// What `served` says of a source bound to `rule`: it stayed bound to it
/// and answered by it.
pub proof fn lemma_served_by_rule<R: RandomSource>(
    before: R,
    after: R,
    requests: Seq<Request>,
    rule: Rule,
)
    requires
        served(before, after, requests),
        before.answers_by(rule),
    ensures
        after.answers_by(rule),
        answered_by(rule, before.asked(), requests, drawn_since(before.drawn(), after.drawn())),
{
    reveal(served);
}

/// A source that was not called was asked nothing.
pub proof fn lemma_served_nothing<R: RandomSource>(source: R)
    ensures
        served(source, source, Seq::empty()),
{
    reveal(served);
    assert(source.drawn() =~= source.drawn() + drawn_since(source.drawn(), source.drawn()));
    assert(source.asked() =~= source.asked() + Seq::<Request>::empty());
}

/// One call of `range` serves the one request made.
pub proof fn lemma_served_one<R: RandomSource>(before: R, after: R, request: Request, value: i32)
    requires
        after.drawn() == before.drawn().push(value),
        after.asked() == before.asked().push(request),
        forall|rule: Rule| #[trigger]
            before.answers_by(rule) ==> after.answers_by(rule) && value == rule(after.asked()),
    ensures
        served(before, after, seq![request]),
        drawn_since(before.drawn(), after.drawn()) == seq![value],
{
    reveal(served);
    let draws = drawn_since(before.drawn(), after.drawn());
    assert(draws =~= seq![value]);
    assert(after.drawn() =~= before.drawn() + draws);
    assert(after.asked() =~= before.asked() + seq![request]);
    assert forall|rule: Rule| #[trigger] before.answers_by(rule) implies answered_by(
        rule,
        before.asked(),
        seq![request],
        draws,
    ) by {
        assert(before.asked() + seq![request].take(1) =~= after.asked());
    }
}

/// What two calls in a row served is what the first served and then what
/// the second served.
pub proof fn lemma_served_then<R: RandomSource>(
    before: R,
    between: R,
    after: R,
    first: Seq<Request>,
    second: Seq<Request>,
)
    requires
        served(before, between, first),
        served(between, after, second),
    ensures
        served(before, after, first + second),
        drawn_since(before.drawn(), after.drawn()) == drawn_since(
            before.drawn(),
            between.drawn(),
        ) + drawn_since(between.drawn(), after.drawn()),
{
    reveal(served);
    let head = drawn_since(before.drawn(), between.drawn());
    let tail = drawn_since(between.drawn(), after.drawn());
    let draws = drawn_since(before.drawn(), after.drawn());
    assert(draws =~= head + tail);
    assert(after.drawn() =~= before.drawn() + draws);
    assert(after.asked() =~= before.asked() + (first + second));
    assert forall|rule: Rule| #[trigger] before.answers_by(rule) implies answered_by(
        rule,
        before.asked(),
        first + second,
        draws,
    ) by {
        assert(between.answers_by(rule));
        assert forall|i: int| 0 <= i < draws.len() implies #[trigger] draws[i] == rule(
            before.asked() + (first + second).take(i + 1),
        ) by {
            if i < head.len() {
                assert((first + second).take(i + 1) =~= first.take(i + 1));
                assert(draws[i] == head[i]);
            } else {
                let j = i - head.len();
                assert(draws[i] == tail[j]);
                assert(before.asked() + (first + second).take(i + 1) =~= between.asked()
                    + second.take(j + 1));
            }
        }
    }
}

/// The modulus of the generator: the Mersenne prime 2^31 - 1.
pub const LEHMER_MODULUS: u64 = 2147483647;

/// The multiplier of the generator.
pub const LEHMER_MULTIPLIER: u64 = 48271;

/// The state that follows `state`.
pub open spec fn lehmer_step(state: int) -> int {
    ((state % (LEHMER_MODULUS as int)) * LEHMER_MULTIPLIER) % (LEHMER_MODULUS as int)
}

/// The state a generator seeded with `seed` starts in.
pub open spec fn lehmer_seed(seed: int) -> int {
    seed % (LEHMER_MODULUS - 1) + 1
}

/// The state that a generator started in `origin` is in after `steps`
/// draws.
pub open spec fn lehmer_state(origin: int, steps: nat) -> int
    decreases steps,
{
    if steps == 0 {
        origin
    } else {
        lehmer_step(lehmer_state(origin, (steps - 1) as nat))
    }
}

/// The rule of a generator started in `origin`: the state after as many
/// steps as requests were made, reduced into the range last asked for.
pub open spec fn lehmer_rule(origin: int) -> Rule {
    |requests: Seq<Request>|
        (requests.last().0 + lehmer_state(origin, requests.len()) % (requests.last().1
            - requests.last().0)) as i32
}

/// A multiplicative congruential generator. Equal seeds give equal draws.
pub struct SeededSource {
    state: u64,
    origin: Ghost<int>,
    log: Ghost<Seq<i32>>,
    requests: Ghost<Seq<Request>>,
}

impl SeededSource {
    /// The current state of the generator.
    pub closed spec fn state(&self) -> int {
        self.state as int
    }

    /// A generator started from `seed`, which has drawn nothing yet.
    pub fn new(seed: u64) -> (source: SeededSource)
        ensures
            source.state() == lehmer_seed(seed as int),
            source.drawn() == Seq::<i32>::empty(),
            source.asked() == Seq::<Request>::empty(),
            source.answers_by(lehmer_rule(lehmer_seed(seed as int))),
    {
        let state: u64 = seed % (LEHMER_MODULUS - 1) + 1;
        SeededSource {
            state,
            origin: Ghost(state as int),
            log: Ghost(Seq::empty()),
            requests: Ghost(Seq::empty()),
        }
    }
}

impl RandomSource for SeededSource {
    closed spec fn drawn(&self) -> Seq<i32> {
        self.log@
    }

    closed spec fn asked(&self) -> Seq<Request> {
        self.requests@
    }

    closed spec fn answers_by(&self, rule: Rule) -> bool {
        rule == lehmer_rule(self.origin@) && self.state == lehmer_state(
            self.origin@,
            self.requests@.len(),
        )
    }

    /// Steps the generator and reduces the new state into the range.
    fn range(&mut self, low: i32, high: i32) -> (value: i32)
        ensures
            final(self).state() == lehmer_step(old(self).state()),
            value == low + final(self).state() % (high - low),
    {
        let next: u64 = ((self.state % LEHMER_MODULUS) * LEHMER_MULTIPLIER) % LEHMER_MODULUS;
        let span: u64 = (high as i64 - low as i64) as u64;
        let offset: u64 = next % span;
        let value: i32 = (low as i64 + offset as i64) as i32;
        self.state = next;
        proof {
            self.log@ = self.log@.push(value);
            self.requests@ = self.requests@.push((low, high));
        }
        value
    }
}

/// What a replay with the values `remaining` still to hand out gives when
/// asked for a value from `low` up to `high`: the first of them where it
/// lies in that range, and `low` where it does not or none is left.
pub open spec fn replayed(remaining: Seq<i32>, low: i32, high: i32) -> i32 {
    if remaining.len() > 0 && low <= remaining[0] < high {
        remaining[0]
    } else {
        low
    }
}

/// What is left of the record `values` once `served` of them were handed
/// out.
pub open spec fn left_of(values: Seq<i32>, served: int) -> Seq<i32> {
    if served <= values.len() {
        values.skip(served)
    } else {
        Seq::empty()
    }
}

/// The rule of a replay of `values`: the value recorded for the request,
/// fitted to the range asked for.
pub open spec fn replay_rule(values: Seq<i32>) -> Rule {
    |requests: Seq<Request>|
        replayed(left_of(values, requests.len() - 1), requests.last().0, requests.last().1)
}

/// A source that hands out a recorded list of draws, one per call.
pub struct ReplaySource {
    values: Vec<i32>,
    next: usize,
    log: Ghost<Seq<i32>>,
    requests: Ghost<Seq<Request>>,
}

impl ReplaySource {
    /// The recorded values not yet handed out.
    pub closed spec fn remaining(&self) -> Seq<i32> {
        left_of(self.values@, self.next as int)
    }

    /// A source that will replay `values` from the first on.
    pub fn new(values: Vec<i32>) -> (source: ReplaySource)
        ensures
            source.remaining() == values@,
            source.drawn() == Seq::<i32>::empty(),
            source.asked() == Seq::<Request>::empty(),
            source.answers_by(replay_rule(values@)),
    {
        ReplaySource { values, next: 0, log: Ghost(Seq::empty()), requests: Ghost(Seq::empty()) }
    }
}

impl RandomSource for ReplaySource {
    closed spec fn drawn(&self) -> Seq<i32> {
        self.log@
    }

    closed spec fn asked(&self) -> Seq<Request> {
        self.requests@
    }

    closed spec fn answers_by(&self, rule: Rule) -> bool {
        rule == replay_rule(self.values@) && self.next == if self.requests@.len()
            <= self.values@.len() {
            self.requests@.len()
        } else {
            self.values@.len()
        }
    }

    /// Hands out the next recorded value, or `low` once the record has run
    /// out or where the recorded value does not fit the range.
    fn range(&mut self, low: i32, high: i32) -> (value: i32)
        ensures
            value == replayed(old(self).remaining(), low, high),
            final(self).remaining() == if old(self).remaining().len() > 0 {
                old(self).remaining().drop_first()
            } else {
                old(self).remaining()
            },
    {
        let mut value: i32 = low;
        if self.next < self.values.len() {
            let recorded: i32 = self.values[self.next];
            if low <= recorded && recorded < high {
                value = recorded;
            }
            self.next = self.next + 1;
        }
        proof {
            self.log@ = self.log@.push(value);
            self.requests@ = self.requests@.push((low, high));
        }
        value
    }
}

} // verus!
