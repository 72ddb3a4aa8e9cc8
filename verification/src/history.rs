//! What holds of the bitmaps over any course of observations and cycles.

use vstd::prelude::*;
use crate::bitmap::{
    cleared, lemma_observed_keeps, lemma_observed_valid, lemma_slot_of, observed, slot_of, valid,
    BitmapModel, MAP_SIZE,
};

verus! {

/// One thing that happens to the bitmaps.
pub enum Step {
    /// A key is observed, hit or not.
    Observe { key: Seq<u8>, hit: bool },
    /// A new cycle starts.
    ClearCycle,
}

/// The bitmaps after one step.
pub open spec fn stepped(m: BitmapModel, step: Step) -> BitmapModel {
    match step {
        Step::Observe { key, hit } => observed(m, key, hit),
        Step::ClearCycle => cleared(m),
    }
}

/// The bitmaps after a course of steps, taken in order.
pub open spec fn run(m: BitmapModel, steps: Seq<Step>) -> BitmapModel
    decreases steps.len(),
{
    if steps.len() == 0 {
        m
    } else {
        stepped(run(m, steps.drop_last()), steps.last())
    }
}

/// Every course of steps keeps the bitmaps valid, clears no bit of the total
/// and leaves every key in the slot that it has.
pub proof fn lemma_run_keeps(m: BitmapModel, steps: Seq<Step>)
    requires
        valid(m),
    ensures
        valid(run(m, steps)),
        forall|i: int| 0 <= i < MAP_SIZE && m.total[i] ==> run(m, steps).total[i],
        forall|key: Seq<u8>|
            slot_of(m.keys, key) is Some ==> #[trigger] slot_of(run(m, steps).keys, key) == slot_of(
                m.keys,
                key,
            ),
    decreases steps.len(),
{
    if steps.len() > 0 {
        let before = run(m, steps.drop_last());
        lemma_run_keeps(m, steps.drop_last());
        match steps.last() {
            Step::Observe { key, hit } => {
                lemma_observed_valid(before, key, hit);
                lemma_observed_keeps(before, key, hit);
            },
            Step::ClearCycle => {},
        }
    }
}

/// The slot that a key gets when it is first observed is the slot in which
/// every later observation of that key finds it, whatever happens in between.
pub proof fn lemma_slot_is_stable(
    m: BitmapModel,
    key: Seq<u8>,
    first_hit: bool,
    between: Seq<Step>,
    later_hit: bool,
)
    requires
        valid(m),
        slot_of(observed(m, key, first_hit).keys, key) is Some,
    ensures
        slot_of(observed(run(observed(m, key, first_hit), between), key, later_hit).keys, key)
            == slot_of(observed(m, key, first_hit).keys, key),
{
    let first = observed(m, key, first_hit);
    lemma_observed_valid(m, key, first_hit);
    lemma_run_keeps(first, between);
    let middle = run(first, between);
    lemma_observed_keeps(middle, key, later_hit);
}

/// A key that was once observed as hit keeps its bit in the total: observing
/// it as not hit in a later cycle, after any course of steps, leaves the bit
/// set.
pub proof fn lemma_total_outlives_cycle(m: BitmapModel, key: Seq<u8>, between: Seq<Step>)
    requires
        valid(m),
        slot_of(observed(m, key, true).keys, key) is Some,
    ensures
        ({
            let slot = slot_of(observed(m, key, true).keys, key)->Some_0;
            let last = observed(cleared(run(observed(m, key, true), between)), key, false);
            &&& 0 <= slot < MAP_SIZE
            &&& observed(m, key, true).total[slot]
            &&& last.total[slot]
            &&& !last.cycle[slot]
            &&& slot_of(last.keys, key) == Some(slot)
        }),
{
    let first = observed(m, key, true);
    lemma_observed_valid(m, key, true);
    let slot = slot_of(first.keys, key)->Some_0;
    assert(0 <= slot < first.keys.len());
    assert(first.total[slot]) by {
        if slot_of(m.keys, key) is Some {
            lemma_observed_keeps(m, key, true);
        } else {
            assert(m.keys.len() < MAP_SIZE);
            assert(first.keys[m.keys.len() as int] == key);
            lemma_slot_of(first.keys, key, m.keys.len() as int);
        }
    }
    let course = between.push(Step::ClearCycle);
    assert(course.drop_last() =~= between);
    lemma_run_keeps(first, course);
    let fresh = run(first, course);
    assert(fresh == cleared(run(first, between)));
    lemma_observed_keeps(fresh, key, false);
    lemma_observed_valid(fresh, key, false);
}

/// A key gets a slot when it is observed while a slot is free.
pub proof fn lemma_observed_has_slot(m: BitmapModel, key: Seq<u8>, hit: bool)
    requires
        valid(m),
        slot_of(m.keys, key) is Some || m.keys.len() < MAP_SIZE,
    ensures
        slot_of(observed(m, key, hit).keys, key) is Some,
        slot_of(m.keys, key) is None ==> slot_of(observed(m, key, hit).keys, key) == Some(
            m.keys.len() as int,
        ),
{
    lemma_observed_valid(m, key, hit);
    if slot_of(m.keys, key) is Some {
        lemma_observed_keeps(m, key, hit);
    } else {
        let after = observed(m, key, hit);
        assert(after.keys[m.keys.len() as int] == key);
        lemma_slot_of(after.keys, key, m.keys.len() as int);
    }
}

} // verus!
