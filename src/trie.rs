use vstd::prelude::*;

verus! {

/// The status of a trie walk after one input unit.
#[derive(Clone, Copy, Debug, PartialEq, Eq, Structural)]
pub enum TrieResult {
    /// The input diverged from every key; this status is sticky until the
    /// walk is restarted.
    NoMatch,
    /// The input matched so far, but no key ends here.
    NoValue,
    /// The input matched a key, and no further unit can extend the match.
    FinalValue,
    /// The input matched a key, and a longer key may still match.
    Intermediate,
}

/// A cursor over a serialized trie: a small state machine that consumes
/// one input unit per call.
///
/// The serialized trie is passed to every call, so that a cursor holds
/// nothing but a few integers and can be copied freely. A negative unit, or
/// one that does not fit the trie's unit width, matches nothing.
pub trait Trie: Sized {
    /// The state and status after restarting the walk from the root with `unit`.
    spec fn first_spec(&self, data: Seq<u8>, unit: int) -> (Self, TrieResult);

    /// The state and status after continuing the walk with `unit`.
    spec fn next_spec(&self, data: Seq<u8>, unit: int) -> (Self, TrieResult);

    /// The status of the walk so far, read without consuming a unit.
    spec fn current_spec(&self, data: Seq<u8>) -> TrieResult;

    /// The state that the cursor was constructed in.
    spec fn reset_spec(&self) -> Self;

    /// Whether the walk has failed.
    spec fn is_stopped(&self) -> bool;

    /// After either step the cursor reports, when peeked at, the status the
    /// step returned; it is stopped exactly when that status is `NoMatch`;
    /// and its constructed state is unchanged.
    proof fn lemma_steps_settle(&self, data: Seq<u8>, unit: int)
        requires
            data.len() <= usize::MAX,
        ensures
            self.first_spec(data, unit).0.current_spec(data) == self.first_spec(data, unit).1,
            self.first_spec(data, unit).1 == TrieResult::NoMatch <==> self.first_spec(
                data,
                unit,
            ).0.is_stopped(),
            self.first_spec(data, unit).0.reset_spec() == self.reset_spec(),
            self.next_spec(data, unit).0.current_spec(data) == self.next_spec(data, unit).1,
            self.next_spec(data, unit).1 == TrieResult::NoMatch <==> self.next_spec(
                data,
                unit,
            ).0.is_stopped(),
            self.next_spec(data, unit).0.reset_spec() == self.reset_spec(),
    ;

    /// A stopped cursor stays as it is and reports no match.
    proof fn lemma_stopped_stays(&self, data: Seq<u8>, unit: int)
        requires
            self.is_stopped(),
        ensures
            self.next_spec(data, unit) == (*self, TrieResult::NoMatch),
    ;

    /// A negative unit matches nothing, from any state.
    proof fn lemma_negative_unit(&self, data: Seq<u8>, unit: int)
        requires
            unit < 0,
        ensures
            self.first_spec(data, unit).1 == TrieResult::NoMatch,
            self.next_spec(data, unit).1 == TrieResult::NoMatch,
    ;

    /// Restarting depends on the constructed state alone.
    proof fn lemma_first_from_origin(&self, data: Seq<u8>, unit: int)
        ensures
            self.first_spec(data, unit) == self.reset_spec().first_spec(data, unit),
            self.reset_spec().reset_spec() == self.reset_spec(),
    ;

    /// Restarts the walk from the root and consumes `unit`.
    fn first(&mut self, trie_data: &[u8], unit: i32) -> (r: TrieResult)
        ensures
            (*final(self), r) == old(self).first_spec(trie_data@, unit as int),
    ;

    /// Continues the walk with `unit`.
    fn next(&mut self, trie_data: &[u8], unit: i32) -> (r: TrieResult)
        ensures
            (*final(self), r) == old(self).next_spec(trie_data@, unit as int),
    ;

    /// Peeks at the status of the walk so far.
    fn current(&self, trie_data: &[u8]) -> (r: TrieResult)
        ensures
            r == self.current_spec(trie_data@),
    ;

    /// Returns the cursor to the state it was constructed in.
    fn reset(&mut self)
        ensures
            *final(self) == old(self).reset_spec(),
    ;
}

/// The statuses of successive `next` calls with `units` from `s`.
pub open spec fn next_trace<T: Trie>(s: T, data: Seq<u8>, units: Seq<int>) -> Seq<TrieResult>
    decreases units.len(),
{
    if units.len() == 0 {
        Seq::empty()
    } else {
        let st = s.next_spec(data, units[0]);
        seq![st.1] + next_trace(st.0, data, units.drop_first())
    }
}

/// The cursor after successive `next` calls with `units` from `s`.
pub open spec fn after_nexts<T: Trie>(s: T, data: Seq<u8>, units: Seq<int>) -> T
    decreases units.len(),
{
    if units.len() == 0 {
        s
    } else {
        after_nexts(s.next_spec(data, units[0]).0, data, units.drop_first())
    }
}

/// The statuses of a walk from `s` that starts with `first` on the first
/// of `units` and goes on with `next`.
pub open spec fn walk_trace<T: Trie>(s: T, data: Seq<u8>, units: Seq<int>) -> Seq<TrieResult> {
    if units.len() == 0 {
        Seq::empty()
    } else {
        let st = s.first_spec(data, units[0]);
        seq![st.1] + next_trace(st.0, data, units.drop_first())
    }
}

/// The cursor after such a walk.
pub open spec fn after_walk<T: Trie>(s: T, data: Seq<u8>, units: Seq<int>) -> T {
    if units.len() == 0 {
        s
    } else {
        after_nexts(s.first_spec(data, units[0]).0, data, units.drop_first())
    }
}

/// Peeking after a step reports the status that the step returned.
pub proof fn lemma_peek_agrees_with_step<T: Trie>(s: T, data: Seq<u8>, unit: int)
    requires
        data.len() <= usize::MAX,
    ensures
        s.next_spec(data, unit).0.current_spec(data) == s.next_spec(data, unit).1,
        s.first_spec(data, unit).0.current_spec(data) == s.first_spec(data, unit).1,
{
    s.lemma_steps_settle(data, unit);
}

proof fn lemma_stopped_trace<T: Trie>(s: T, data: Seq<u8>, units: Seq<int>)
    requires
        s.is_stopped(),
    ensures
        next_trace(s, data, units).len() == units.len(),
        forall|i: int| 0 <= i < units.len() ==> next_trace(s, data, units)[i] == TrieResult::NoMatch,
    decreases units.len(),
{
    if units.len() > 0 {
        s.lemma_stopped_stays(data, units[0]);
        lemma_stopped_trace(s, data, units.drop_first());
    }
}

/// Once a step returns `NoMatch`, every later `next` returns `NoMatch`.
pub proof fn lemma_no_match_is_sticky<T: Trie>(s: T, data: Seq<u8>, unit: int, units: Seq<int>)
    requires
        data.len() <= usize::MAX,
    ensures
        s.next_spec(data, unit).1 == TrieResult::NoMatch ==> forall|i: int|
            0 <= i < units.len() ==> next_trace(s.next_spec(data, unit).0, data, units)[i]
                == TrieResult::NoMatch,
        s.first_spec(data, unit).1 == TrieResult::NoMatch ==> forall|i: int|
            0 <= i < units.len() ==> next_trace(s.first_spec(data, unit).0, data, units)[i]
                == TrieResult::NoMatch,
{
    s.lemma_steps_settle(data, unit);
    if s.next_spec(data, unit).1 == TrieResult::NoMatch {
        lemma_stopped_trace(s.next_spec(data, unit).0, data, units);
    }
    if s.first_spec(data, unit).1 == TrieResult::NoMatch {
        lemma_stopped_trace(s.first_spec(data, unit).0, data, units);
    }
}

proof fn lemma_nexts_keep_origin<T: Trie>(s: T, data: Seq<u8>, units: Seq<int>)
    requires
        data.len() <= usize::MAX,
    ensures
        after_nexts(s, data, units).reset_spec() == s.reset_spec(),
    decreases units.len(),
{
    if units.len() > 0 {
        s.lemma_steps_settle(data, units[0]);
        lemma_nexts_keep_origin(s.next_spec(data, units[0]).0, data, units.drop_first());
    }
}

/// Resetting after a walk and walking the same units again reproduces the
/// walk's statuses.
pub proof fn lemma_reset_replays_walk<T: Trie>(s: T, data: Seq<u8>, units: Seq<int>)
    requires
        data.len() <= usize::MAX,
    ensures
        walk_trace(after_walk(s, data, units).reset_spec(), data, units) == walk_trace(s, data, units),
{
    let t = after_walk(s, data, units).reset_spec();
    if units.len() > 0 {
        s.lemma_steps_settle(data, units[0]);
        lemma_nexts_keep_origin(s.first_spec(data, units[0]).0, data, units.drop_first());
        s.lemma_first_from_origin(data, units[0]);
        t.lemma_first_from_origin(data, units[0]);
        assert(t == s.reset_spec());
        assert(t.first_spec(data, units[0]) == s.first_spec(data, units[0]));
    }
}
} // verus!
