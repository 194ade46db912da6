//! The weighted winner selection: a cumulative walk over the participant
//! list driven by a secure random ticket number, together with the proof
//! that every ticket number selects exactly one participant and that each
//! participant is selected by exactly `tickets` of the possible numbers.

use vstd::prelude::*;
use vstd::set_lib::{set_int_range, lemma_int_range};
use crate::lottery::{
    Participant, ParticipantModel, participants_view, sum_tickets, tickets_nonneg,
    lemma_sum_nonneg, lemma_sum_take_step, lemma_sum_split,
};

verus! {

/// The index selected by winning ticket number `r`: the first participant
/// whose cumulative ticket count reaches `r`.  Meaningful for
/// `1 <= r <= sum_tickets(ps)`; ties at a cumulative boundary go to the
/// earlier entrant by construction.
pub open spec fn spec_select(ps: Seq<ParticipantModel>, r: int) -> int
    decreases ps.len(),
{
    if ps.len() == 0 {
        0
    } else if r <= ps[0].tickets {
        0
    } else {
        1 + spec_select(ps.drop_first(), r - ps[0].tickets)
    }
}

/// For a ticket number within the total, the selected index is in bounds and
/// the number falls strictly inside the selected participant's cumulative
/// slot.
pub proof fn lemma_select_in_range(ps: Seq<ParticipantModel>, r: int)
    requires
        tickets_nonneg(ps),
        1 <= r <= sum_tickets(ps),
    ensures
        0 <= spec_select(ps, r) < ps.len(),
        sum_tickets(ps.take(spec_select(ps, r))) < r,
        r <= sum_tickets(ps.take(spec_select(ps, r))) + ps[spec_select(ps, r)].tickets,
    decreases ps.len(),
{
    if ps.len() == 0 {
        assert(sum_tickets(ps) == 0);
    } else if r <= ps[0].tickets {
        assert(ps.take(0) =~= Seq::<ParticipantModel>::empty());
    } else {
        let df = ps.drop_first();
        assert(forall|i: int| 0 <= i < df.len() ==> (#[trigger] df[i]).tickets >= 0);
        lemma_select_in_range(df, r - ps[0].tickets);
        let k = spec_select(df, r - ps[0].tickets);
        assert(ps.take(k + 1).drop_first() =~= df.take(k));
        assert(ps.take(k + 1)[0] == ps[0]);
        assert(sum_tickets(ps.take(k + 1)) == ps[0].tickets + sum_tickets(df.take(k)));
        assert(ps[k + 1] == df[k]);
    }
}

/// Conversely, a ticket number strictly inside participant `i`'s cumulative
/// slot selects exactly `i`.
pub proof fn lemma_select_unique(ps: Seq<ParticipantModel>, r: int, i: int)
    requires
        tickets_nonneg(ps),
        0 <= i < ps.len(),
        sum_tickets(ps.take(i)) < r,
        r <= sum_tickets(ps.take(i)) + ps[i].tickets,
    ensures
        spec_select(ps, r) == i,
    decreases ps.len(),
{
    if i == 0 {
        assert(ps.take(0) =~= Seq::<ParticipantModel>::empty());
    } else {
        let df = ps.drop_first();
        assert(forall|j: int| 0 <= j < df.len() ==> (#[trigger] df[j]).tickets >= 0);
        assert(ps.take(i).drop_first() =~= df.take(i - 1));
        assert(ps.take(i)[0] == ps[0]);
        assert(forall|j: int| 0 <= j < df.take(i - 1).len()
            ==> (#[trigger] df.take(i - 1)[j]).tickets >= 0);
        lemma_sum_nonneg(df.take(i - 1));
        assert(sum_tickets(ps.take(i)) == ps[0].tickets + sum_tickets(df.take(i - 1)));
        assert(r > ps[0].tickets);
        assert(ps[i] == df[i - 1]);
        lemma_select_unique(df, r - ps[0].tickets, i - 1);
    }
}

/// Fairness of the cumulative walk: out of the `sum_tickets(ps)` equally
/// likely ticket numbers, exactly `ps[i].tickets` of them select participant
/// `i` — each participant wins with probability `tickets / total` under a
/// uniform draw.
pub proof fn lemma_select_fair(ps: Seq<ParticipantModel>, i: int)
    requires
        tickets_nonneg(ps),
        0 <= i < ps.len(),
    ensures
        ({
            let winning = Set::new(
                |r: int| 1 <= r <= sum_tickets(ps) && spec_select(ps, r) == i,
            );
            winning.finite() && winning.len() == ps[i].tickets
        }),
{
    let winning = Set::new(|r: int| 1 <= r <= sum_tickets(ps) && spec_select(ps, r) == i);
    let lo = sum_tickets(ps.take(i));
    let hi = lo + ps[i].tickets;
    assert(forall|j: int| 0 <= j < ps.take(i).len()
        ==> (#[trigger] ps.take(i)[j]).tickets >= 0);
    lemma_sum_nonneg(ps.take(i));
    lemma_sum_take_step(ps, i);
    lemma_sum_split(ps, i + 1);
    assert(forall|j: int| 0 <= j < ps.skip(i + 1).len()
        ==> (#[trigger] ps.skip(i + 1)[j]).tickets >= 0);
    lemma_sum_nonneg(ps.skip(i + 1));
    assert(hi <= sum_tickets(ps));
    assert forall|r: int| winning.contains(r) implies set_int_range(lo + 1, hi + 1).contains(
        r,
    ) by {
        lemma_select_in_range(ps, r);
    }
    assert forall|r: int| set_int_range(lo + 1, hi + 1).contains(r) implies winning.contains(
        r,
    ) by {
        lemma_select_unique(ps, r, i);
    }
    assert(winning =~= set_int_range(lo + 1, hi + 1));
    lemma_int_range(lo + 1, hi + 1);
}

/// Relies on rand's `OsRng::next_u64` (via `rand_core`): a word drawn from
/// the operating system's secure random source.  Nothing is assumed of the
/// value; it may differ on every call.  The call aborts the process only if
/// the operating system's random source itself fails.
#[verifier::external_body]
fn os_random_u64() -> u64 {
    let mut rng = rand::rngs::OsRng;
    rand::RngCore::next_u64(&mut rng)
}

/// A uniformly distributed ticket number in `1 ..= total`, from the secure
/// random source.  Rejection sampling: raw words at or above the largest
/// multiple of `total` are discarded, so no residue is favoured by the
/// truncated final block.  Each draw is rejected with probability below one
/// half, so the bounded number of retries is immaterial in practice; the
/// result is within range either way.
pub fn draw_ticket_number(total: u64) -> (r: u64)
    requires
        total >= 1,
    ensures
        1 <= r <= total,
{
    let zone: u64 = u64::MAX - (u64::MAX % total);
    let mut x = os_random_u64();
    let mut attempts: u64 = 64;
    while x >= zone && attempts > 0
        invariant
            total >= 1,
        decreases attempts,
    {
        x = os_random_u64();
        attempts = attempts - 1;
    }
    x % total + 1
}

/// The total tickets held across the list, or `None` if the sum exceeds
/// `u64` (the sum is checked even though well-formed lotteries cannot
/// overflow it in practice).
pub fn total_tickets(ps: &Vec<Participant>) -> (result: Option<u64>)
    ensures
        match result {
            Option::Some(t) => t == sum_tickets(participants_view(ps@)),
            Option::None => sum_tickets(participants_view(ps@)) > u64::MAX,
        },
{
    let ghost model = participants_view(ps@);
    proof {
        assert(forall|j: int| 0 <= j < model.len() ==> (#[trigger] model[j]).tickets >= 0);
    }
    let mut acc: u64 = 0;
    let mut i: usize = 0;
    while i < ps.len()
        invariant
            0 <= i <= ps@.len(),
            model == participants_view(ps@),
            acc == sum_tickets(model.take(i as int)),
        decreases ps@.len() - i,
    {
        proof {
            assert(forall|j: int| 0 <= j < model.len() ==> (#[trigger] model[j]).tickets >= 0);
            lemma_sum_take_step(model, i as int);
            assert(forall|j: int| 0 <= j < model.skip(i as int + 1).len()
                ==> (#[trigger] model.skip(i as int + 1)[j]).tickets >= 0);
            lemma_sum_nonneg(model.skip(i as int + 1));
            lemma_sum_split(model, i as int + 1);
        }
        let t = ps[i].tickets_bought as u64;
        match acc.checked_add(t) {
            Option::Some(next) => {
                acc = next;
            },
            Option::None => {
                return Option::None;
            },
        }
        i = i + 1;
    }
    proof {
        assert(model.take(model.len() as int) =~= model);
    }
    Option::Some(acc)
}

/// The cumulative walk of the draw: returns the index of the first
/// participant whose running ticket total reaches `r`.
pub fn select_winner_index(ps: &Vec<Participant>, r: u64) -> (k: usize)
    requires
        1 <= r <= sum_tickets(participants_view(ps@)),
        sum_tickets(participants_view(ps@)) <= u64::MAX,
    ensures
        k < ps@.len(),
        k == spec_select(participants_view(ps@), r as int),
{
    let ghost model = participants_view(ps@);
    proof {
        assert(forall|j: int| 0 <= j < model.len() ==> (#[trigger] model[j]).tickets >= 0);
        lemma_select_in_range(model, r as int);
    }
    let mut cum: u64 = 0;
    let mut i: usize = 0;
    while i < ps.len()
        invariant
            0 <= i <= ps@.len(),
            model == participants_view(ps@),
            1 <= r <= sum_tickets(model) <= u64::MAX,
            cum == sum_tickets(model.take(i as int)),
            cum < r,
        decreases ps@.len() - i,
    {
        proof {
            assert(forall|j: int| 0 <= j < model.len() ==> (#[trigger] model[j]).tickets >= 0);
            lemma_sum_take_step(model, i as int);
            assert(forall|j: int| 0 <= j < model.skip(i as int + 1).len()
                ==> (#[trigger] model.skip(i as int + 1)[j]).tickets >= 0);
            lemma_sum_nonneg(model.skip(i as int + 1));
            lemma_sum_split(model, i as int + 1);
        }
        let t = ps[i].tickets_bought as u64;
        let next = cum + t;
        if r <= next {
            proof {
                lemma_select_unique(model, r as int, i as int);
            }
            return i;
        }
        cum = next;
        i = i + 1;
    }
    proof {
        assert(model.take(model.len() as int) =~= model);
        assert(false);
    }
    0
}

} // verus!
