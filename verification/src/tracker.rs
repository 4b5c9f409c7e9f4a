//! Counting the objects that are alive.

use vstd::prelude::*;

verus! {

/// A counter of live objects.
#[derive(Debug)]
pub struct TrackerLocation {
    val: usize,
}

impl TrackerLocation {
    /// The count.
    pub closed spec fn view(&self) -> usize {
        self.val
    }

    /// A counter that starts at `val`.
    pub fn new(val: usize) -> (r: Self)
        ensures
            r@ == val,
    {
        TrackerLocation { val }
    }

    /// The count.
    pub fn get(&self) -> (r: usize)
        ensures
            r == self@,
    {
        self.val
    }
}

/// One counted object. It is counted from [`Tracker::of`] to [`Tracker::drop`].
#[derive(Debug)]
pub struct Tracker {
    counted: bool,
}

impl Tracker {
    /// Counts one more object.
    pub fn of(loc: &mut TrackerLocation) -> (r: Self)
        requires
            old(loc)@ < usize::MAX,
        ensures
            final(loc)@ == old(loc)@ + 1,
    {
        Self::gain(loc);
        Tracker { counted: true }
    }

    /// The count that the object is part of.
    pub fn get(&self, loc: &TrackerLocation) -> (r: usize)
        ensures
            r == loc@,
    {
        loc.get()
    }

    /// The object is gone: counts one less.
    pub fn drop(self, loc: &mut TrackerLocation)
        requires
            old(loc)@ > 0,
        ensures
            final(loc)@ == old(loc)@ - 1,
    {
        Self::lose(loc);
    }

    fn gain(loc: &mut TrackerLocation)
        requires
            old(loc)@ < usize::MAX,
        ensures
            final(loc)@ == old(loc)@ + 1,
    {
        loc.val = Self::one_more(loc.val);
    }

    fn lose(loc: &mut TrackerLocation)
        requires
            old(loc)@ > 0,
        ensures
            final(loc)@ == old(loc)@ - 1,
    {
        loc.val = Self::one_less(loc.val);
    }

    /// The word to exchange `seen` for when an object is gained.
    pub fn one_more(seen: usize) -> (r: usize)
        requires
            seen < usize::MAX,
        ensures
            r == seen + 1,
    {
        seen + 1
    }

    /// The word to exchange `seen` for when an object is lost.
    pub fn one_less(seen: usize) -> (r: usize)
        requires
            seen > 0,
        ensures
            r == seen - 1,
    {
        seen - 1
    }

    /// What follows an attempt to exchange the counter's word: none when it
    /// was done, or the word to start over from when another thread was faster.
    pub fn after_exchange(outcome: Result<usize, usize>) -> (r: Option<usize>)
        ensures
            r == starts_over(outcome),
    {
        match outcome {
            Ok(_) => None,
            Err(current) => Some(current),
        }
    }
}

/// One attempt of a thread to exchange the counter's word: the call that it is
/// part of, and the word that the thread has seen.
pub struct Attempt {
    pub call: int,
    pub seen: usize,
}

/// What is counted by calls from any number of threads: for each call whether it
/// counts one object more or one less, the attempts of all threads in the order
/// in which the machine takes them, and the counter's word before each attempt
/// and after the last.
pub struct History {
    pub gains: Seq<bool>,
    pub attempts: Seq<Attempt>,
    pub words: Seq<usize>,
}

impl History {
    /// The attempt succeeds: the word is still the one that was seen.
    pub open spec fn succeeds(self, i: int) -> bool {
        self.words[i] == self.attempts[i].seen
    }

    /// What the exchange reports to the thread.
    pub open spec fn outcome(self, i: int) -> Result<usize, usize> {
        if self.succeeds(i) { Ok(self.words[i]) } else { Err(self.words[i]) }
    }

    /// The machine takes the attempts one at a time. One that succeeds counts one
    /// object, within the limits of a word; any other leaves the word as it is.
    pub open spec fn wf(self) -> bool {
        &&& self.words.len() == self.attempts.len() + 1
        &&& forall|i: int| 0 <= i < self.attempts.len() ==> 0 <= (#[trigger] self.attempts[i]).call < self.gains.len()
        &&& forall|i: int, j: int|
            #![trigger self.attempts[i], self.words[j]]
            0 <= i < self.attempts.len() && j == i + 1 ==> self.words[j] == (if !self.succeeds(i) {
                self.words[i] as int
            } else if self.gains[self.attempts[i].call] {
                self.words[i] + 1
            } else {
                self.words[i] - 1
            })
    }

    /// The attempt ends its call: the thread does not start over.
    pub open spec fn ends(self, i: int) -> bool {
        starts_over(self.outcome(i)) is None
    }

    /// The call has returned: one of its attempts ended it.
    pub open spec fn returned(self, c: int) -> bool {
        exists|i: int| 0 <= i < self.attempts.len() && #[trigger] self.ends(i) && self.attempts[i].call == c
    }

    /// Every call has returned, and made no attempt after that.
    pub open spec fn all_returned(self) -> bool {
        &&& forall|c: int| 0 <= c < self.gains.len() ==> #[trigger] self.returned(c)
        &&& forall|i: int, j: int|
            #![trigger self.ends(i), self.attempts[j]]
            0 <= i < j < self.attempts.len() && self.ends(i) ==> self.attempts[i].call != self.attempts[j].call
    }

    /// The attempt `j` is the next one that its call makes after the attempt `i`.
    pub open spec fn next_of_call(self, i: int, j: int) -> bool {
        &&& 0 <= i < j < self.attempts.len()
        &&& self.attempts[i].call == self.attempts[j].call
        &&& forall|k: int| i < k < j ==> (#[trigger] self.attempts[k]).call != self.attempts[i].call
    }

    /// A thread does as it is told after each attempt: it makes another one only
    /// if it is to start over, and then with the word that it is to start over
    /// from.
    pub open spec fn obedient(self) -> bool {
        forall|i: int, j: int| #[trigger]
            self.next_of_call(i, j) ==> starts_over(self.outcome(i)) == Some(self.attempts[j].seen)
    }

    /// The calls that count one object more, or one less.
    pub open spec fn calls(self, gain: bool) -> Set<int> {
        Set::new(|c: int| 0 <= c < self.gains.len() && self.gains[c] == gain)
    }

    /// Those of the first `k` attempts that succeed in counting one object more,
    /// or one less.
    pub open spec fn done(self, gain: bool, k: int) -> Set<int> {
        Set::new(|i: int| 0 <= i < k && self.succeeds(i) && self.gains[self.attempts[i].call] == gain)
    }
}

/// A thread starts over, from the word that is there, exactly when its attempt
/// did not succeed.
pub open spec fn starts_over(outcome: Result<usize, usize>) -> Option<usize> {
    match outcome {
        Ok(_) => None,
        Err(current) => Some(current),
    }
}

/// The word is what the attempts that succeeded have made of it.
proof fn lemma_words(h: History, k: int)
    requires
        h.wf(),
        0 <= k <= h.attempts.len(),
    ensures
        h.done(true, k).finite(),
        h.done(false, k).finite(),
        h.words[k] == h.words[0] + h.done(true, k).len() - h.done(false, k).len(),
    decreases k,
{
    if k == 0 {
        assert(h.done(true, 0) =~= Set::empty());
        assert(h.done(false, 0) =~= Set::empty());
    } else {
        lemma_words(h, k - 1);
        let i = k - 1;
        let gain = h.gains[h.attempts[i].call];
        assert(h.words[k] == (if !h.succeeds(i) {
            h.words[i] as int
        } else if gain {
            h.words[i] + 1
        } else {
            h.words[i] - 1
        }));
        if h.succeeds(i) {
            assert(h.done(gain, k) =~= h.done(gain, i).insert(i));
            assert(h.done(!gain, k) =~= h.done(!gain, i));
        } else {
            assert(h.done(true, k) =~= h.done(true, i));
            assert(h.done(false, k) =~= h.done(false, i));
        }
    }
}

/// Each call that has returned succeeded once.
proof fn lemma_one_success_each(h: History, gain: bool)
    requires
        h.wf(),
        h.all_returned(),
    ensures
        h.done(gain, h.attempts.len() as int).len() == h.calls(gain).len(),
        h.calls(gain).finite(),
{
    let done = h.done(gain, h.attempts.len() as int);
    let call = |i: int| h.attempts[i].call;
    lemma_words(h, h.attempts.len() as int);
    assert forall|c: int| h.calls(gain).contains(c) implies exists|i: int| done.contains(i) && c == call(i) by {
        assert(h.returned(c));
        let i = choose|i: int| 0 <= i < h.attempts.len() && #[trigger] h.ends(i) && h.attempts[i].call == c;
        assert(h.succeeds(i));
        assert(done.contains(i) && c == call(i));
    }
    assert(done.map(call) =~= h.calls(gain)) by {
        assert forall|c: int| done.map(call).contains(c) implies h.calls(gain).contains(c) by {
            let i = choose|i: int| done.contains(i) && c == call(i);
            assert(h.succeeds(i));
            assert(0 <= h.attempts[i].call < h.gains.len());
        }
    }
    assert(vstd::relations::injective_on(call, done)) by {
        assert forall|i: int, j: int| done.contains(i) && done.contains(j) && #[trigger] call(i) == #[trigger] call(j)
            implies i == j by {
            assert(h.ends(i) && h.ends(j));
            assert(h.attempts[i].call == h.attempts[j].call);
        }
    }
    vstd::set_lib::lemma_map_size(done, h.calls(gain), call);
}

/// No update is lost, whatever the threads do: when all calls have returned, the
/// counter is what it was, and one more for each call that counts one more, and
/// one less for each that counts one less.
pub proof fn law_no_update_is_lost(h: History)
    requires
        h.wf(),
        h.all_returned(),
    ensures
        h.words.last() == h.words[0] + h.calls(true).len() - h.calls(false).len(),
{
    lemma_words(h, h.attempts.len() as int);
    lemma_one_success_each(h, true);
    lemma_one_success_each(h, false);
}

/// The word stays as it is while no attempt succeeds.
proof fn lemma_word_stays(h: History, i: int, j: int)
    requires
        h.wf(),
        0 <= i <= j <= h.attempts.len(),
        forall|k: int| i <= k < j ==> !#[trigger] h.succeeds(k),
    ensures
        h.words[j] == h.words[i],
    decreases j - i,
{
    if i < j {
        lemma_word_stays(h, i, j - 1);
        assert(!h.succeeds(j - 1));
        assert(h.attempts[j - 1].call < h.gains.len());
        assert(h.words[j] == h.words[j - 1]);
    }
}

/// A thread that makes another attempt has failed before, and now has seen the
/// word that was there when it failed. So the other attempt succeeds, and ends
/// the call, exactly if that word is there again.
pub proof fn law_failed_attempt_is_made_again(h: History, i: int, j: int)
    requires
        h.wf(),
        h.obedient(),
        h.next_of_call(i, j),
    ensures
        h.attempts[i].seen != h.words[i],
        h.attempts[j].seen == h.words[i],
        h.ends(j) <==> h.words[j] == h.words[i],
{
}

/// A thread that no one disturbs returns at its next attempt: if no attempt of
/// another thread has succeeded since it failed, its next attempt does.
pub proof fn law_undisturbed_call_returns(h: History, i: int, j: int)
    requires
        h.wf(),
        h.obedient(),
        h.next_of_call(i, j),
        forall|k: int| i < k < j ==> !#[trigger] h.succeeds(k),
    ensures
        h.succeeds(j),
        h.ends(j),
        h.returned(h.attempts[j].call),
{
    law_failed_attempt_is_made_again(h, i, j);
    assert(!h.succeeds(i));
    lemma_word_stays(h, i, j);
}

} // verus!
