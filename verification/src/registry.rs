//! The lottery registry: the single owner of all lottery state.  Every
//! operation reads or rewrites the store in one step, so a caller that
//! serializes access (the transport holds one exclusive lock around each
//! call) gets atomic operations with no lost updates.

use vstd::prelude::*;
use vstd::string::StringExecFns;
use crate::errors::LotteryError;
use crate::lottery::{
    Lottery, LotteryModel, opt_view, purchase_valid, spec_buy, spec_draw_ok, sum_tickets,
    wf, lemma_draw_preserves_wf,
};
use crate::selector::{draw_ticket_number, select_winner_index, total_tickets};

verus! {

/// No identifier appears twice in the store.
pub open spec fn ids_unique(s: Seq<LotteryModel>) -> bool {
    forall|i: int, j: int| 0 <= i < j < s.len() ==> s[i].id != s[j].id
}

/// Whether some stored lottery has the given identifier.
pub open spec fn has_id(s: Seq<LotteryModel>, id: Seq<char>) -> bool {
    exists|i: int| 0 <= i < s.len() && s[i].id == id
}

/// The index of the lottery with the given identifier (unambiguous whenever
/// the identifiers are unique).
pub open spec fn id_index(s: Seq<LotteryModel>, id: Seq<char>) -> int {
    choose|i: int| 0 <= i < s.len() && s[i].id == id
}

/// With unique identifiers, an index holding `id` is the index chosen by
/// `id_index`.
pub proof fn lemma_id_index_matches(s: Seq<LotteryModel>, id: Seq<char>, i: int)
    requires
        ids_unique(s),
        0 <= i < s.len(),
        s[i].id == id,
    ensures
        has_id(s, id),
        id_index(s, id) == i,
{
    assert(has_id(s, id));
    let k = id_index(s, id);
    assert(0 <= k < s.len() && s[k].id == id);
    if k < i {
        assert(s[k].id != s[i].id);
    }
    if i < k {
        assert(s[i].id != s[k].id);
    }
}

/// The in-memory registry.  Its view is the sequence of stored lottery
/// models in insertion order; `inv` says every stored lottery is well
/// formed and identifiers never collide.
pub struct LotteryRegistry {
    lotteries: Vec<Lottery>,
}

impl View for LotteryRegistry {
    type V = Seq<LotteryModel>;

    closed spec fn view(&self) -> Seq<LotteryModel> {
        self.lotteries@.map_values(|l: Lottery| l@)
    }
}

/// Relies on uuid's `Uuid::new_v4` and its `Display` form: a freshly drawn
/// version-4 UUID rendered as a string.  The value is random, so nothing is
/// assumed of it; the caller checks freshness against the store itself.
#[verifier::external_body]
fn generate_lottery_id() -> String {
    uuid::Uuid::new_v4().to_string()
}

/// Relies on chrono's `Utc::now` and `DateTime::to_rfc3339`: the current
/// time rendered as an RFC 3339 string.  The value depends on the clock, so
/// nothing is assumed of it.
#[verifier::external_body]
fn current_timestamp() -> String {
    chrono::Utc::now().to_rfc3339()
}

impl LotteryRegistry {
    /// Every stored lottery is well formed and identifiers are unique.
    pub open spec fn inv(&self) -> bool {
        ids_unique(self@) && forall|i: int| 0 <= i < self@.len() ==> wf(#[trigger] self@[i])
    }

    /// An empty registry.
    pub fn new() -> (result: LotteryRegistry)
        ensures
            result.inv(),
            result@ == Seq::<LotteryModel>::empty(),
    {
        let result = LotteryRegistry { lotteries: Vec::new() };
        proof {
            assert(result@ =~= Seq::<LotteryModel>::empty());
        }
        result
    }

    /// Finds the stored position of an identifier.
    fn find_index(&self, id: &String) -> (result: Option<usize>)
        ensures
            (match result {
                Option::Some(i) => i < self@.len() && self@[i as int].id == id@,
                Option::None => !has_id(self@, id@),
            }),
    {
        let mut i: usize = 0;
        while i < self.lotteries.len()
            invariant
                0 <= i <= self@.len(),
                self@.len() == self.lotteries@.len(),
                forall|j: int| 0 <= j < i ==> self@[j].id != id@,
            decreases self@.len() - i,
        {
            if self.lotteries[i].id == *id {
                return Option::Some(i);
            }
            i = i + 1;
        }
        Option::None
    }

    /// An identifier not yet stored: normally the generator's first draw;
    /// should the generator keep colliding, an identifier strictly longer
    /// than every stored one is built instead, which cannot collide.
    fn fresh_id(&self) -> (id: String)
        ensures
            !has_id(self@, id@),
    {
        let mut attempts: usize = 16;
        while attempts > 0
            decreases attempts,
        {
            let candidate = generate_lottery_id();
            if self.find_index(&candidate).is_none() {
                return candidate;
            }
            attempts = attempts - 1;
        }
        let mut acc = String::new();
        let mut i: usize = 0;
        while i < self.lotteries.len()
            invariant
                0 <= i <= self@.len(),
                self@.len() == self.lotteries@.len(),
                forall|j: int| 0 <= j < i ==> acc@.len() >= self@[j].id.len(),
            decreases self@.len() - i,
        {
            acc.append(self.lotteries[i].id.as_str());
            i = i + 1;
        }
        acc.append("x");
        proof {
            reveal_strlit("x");
            assert forall|j: int| 0 <= j < self@.len() implies self@[j].id != acc@ by {
                assert(acc@.len() > self@[j].id.len());
            }
            if has_id(self@, acc@) {
                let k = id_index(self@, acc@);
                assert(0 <= k < self@.len() && self@[k].id == acc@);
            }
        }
        acc
    }

    /// Opens a lottery under a fresh identifier: active, no participants,
    /// empty prize pool, the creation time recorded.  The new lottery is
    /// appended to the store and a copy of it is returned.
    pub fn create_lottery(
        &mut self,
        admin: String,
        ticket_price: u64,
        end_time: Option<String>,
    ) -> (result: Lottery)
        requires
            old(self).inv(),
        ensures
            final(self).inv(),
            final(self)@ == old(self)@.push(result@),
            !has_id(old(self)@, result@.id),
            wf(result@),
            result@.admin == admin@,
            result@.ticket_price == ticket_price as int,
            result@.participants.len() == 0,
            result@.is_active,
            result@.prize_pool == 0,
            result@.winner is None,
            result@.end_time == opt_view(end_time),
    {
        let id = self.fresh_id();
        let created_at = current_timestamp();
        let lottery = Lottery::open_new(id, admin, ticket_price, created_at, end_time);
        let result = lottery.snapshot();
        let ghost old_view = self@;
        self.lotteries.push(lottery);
        proof {
            assert(self@ =~= old_view.push(result@));
            assert forall|i: int, j: int| 0 <= i < j < self@.len() implies self@[i].id
                != self@[j].id by {
                if j == self@.len() - 1 {
                    if self@[i].id == result@.id {
                        assert(0 <= i < old_view.len() && old_view[i].id == result@.id);
                        assert(has_id(old_view, result@.id));
                    }
                }
            }
        }
        result
    }

    /// A copy of the stored lottery, or `NotFound`.
    pub fn get_lottery(&self, id: &String) -> (result: Result<Lottery, LotteryError>)
        requires
            self.inv(),
        ensures
            (match result {
                Result::Ok(l) => has_id(self@, id@) && l@ == self@[id_index(self@, id@)],
                Result::Err(e) => e == LotteryError::NotFound && !has_id(self@, id@),
            }),
    {
        match self.find_index(id) {
            Option::Some(i) => {
                proof {
                    lemma_id_index_matches(self@, id@, i as int);
                }
                Result::Ok(self.lotteries[i].snapshot())
            },
            Option::None => Result::Err(LotteryError::NotFound),
        }
    }

    /// A copy of every stored lottery, in insertion order.
    pub fn list_lotteries(&self) -> (result: Vec<Lottery>)
        requires
            self.inv(),
        ensures
            result@.map_values(|l: Lottery| l@) == self@,
    {
        let mut out: Vec<Lottery> = Vec::new();
        let mut i: usize = 0;
        while i < self.lotteries.len()
            invariant
                0 <= i <= self@.len(),
                self@.len() == self.lotteries@.len(),
                out@.len() == i,
                forall|j: int| 0 <= j < i ==> out@[j]@ == self@[j],
            decreases self@.len() - i,
        {
            out.push(self.lotteries[i].snapshot());
            i = i + 1;
        }
        proof {
            assert(out@.map_values(|l: Lottery| l@) =~= self@);
        }
        out
    }

    /// Buys tickets in the named lottery, exactly as `spec_buy` describes
    /// the transition: the request is validated before any lookup, the
    /// store is untouched on every error, and a successful purchase updates
    /// the one stored lottery and returns a copy of it.
    pub fn buy_tickets(&mut self, id: &String, wallet: &String, tickets: u32) -> (result:
        Result<Lottery, LotteryError>)
        requires
            old(self).inv(),
        ensures
            final(self).inv(),
            !purchase_valid(wallet@, tickets as int) ==> result == Result::<
                Lottery,
                LotteryError,
            >::Err(LotteryError::ValidationError) && final(self)@ == old(self)@,
            purchase_valid(wallet@, tickets as int) && !has_id(old(self)@, id@) ==> result
                == Result::<Lottery, LotteryError>::Err(LotteryError::NotFound)
                && final(self)@ == old(self)@,
            purchase_valid(wallet@, tickets as int) && has_id(old(self)@, id@) ==> ({
                let i = id_index(old(self)@, id@);
                match spec_buy(old(self)@[i], wallet@, tickets as int) {
                    Result::Ok(m2) => (result matches Result::Ok(l) && l@ == m2)
                        && final(self)@ == old(self)@.update(i, m2),
                    Result::Err(e) => result == Result::<Lottery, LotteryError>::Err(e)
                        && final(self)@ == old(self)@,
                }
            }),
    {
        if tickets < 1 || tickets > 10000 || wallet.as_str().is_empty() {
            return Result::Err(LotteryError::ValidationError);
        }
        let idx = match self.find_index(id) {
            Option::Some(i) => i,
            Option::None => {
                return Result::Err(LotteryError::NotFound);
            },
        };
        let ghost old_view = self@;
        proof {
            lemma_id_index_matches(old_view, id@, idx as int);
        }
        let entry = &mut self.lotteries[idx];
        let outcome = entry.buy(wallet, tickets);
        match outcome {
            Result::Ok(()) => {
                let snap = self.lotteries[idx].snapshot();
                proof {
                    let m2 = spec_buy(old_view[idx as int], wallet@, tickets as int)->Ok_0;
                    assert(self@ =~= old_view.update(idx as int, m2));
                    assert forall|x: int| 0 <= x < self@.len() implies (#[trigger] self@[x]).id
                        == old_view[x].id by {}
                }
                Result::Ok(snap)
            },
            Result::Err(e) => {
                proof {
                    assert(self@ =~= old_view);
                }
                Result::Err(e)
            },
        }
    }

    /// Draws the winner of the named lottery.  Authorization, liveness and
    /// participation are checked in order; on success the winner is the
    /// participant selected by a secure uniform ticket number, the lottery
    /// concludes, and a copy of its final state is returned.
    pub fn draw_winner(&mut self, id: &String, admin: &String) -> (result: Result<
        Lottery,
        LotteryError,
    >)
        requires
            old(self).inv(),
        ensures
            final(self).inv(),
            !has_id(old(self)@, id@) ==> result == Result::<Lottery, LotteryError>::Err(
                LotteryError::NotFound,
            ) && final(self)@ == old(self)@,
            has_id(old(self)@, id@) ==> ({
                let i = id_index(old(self)@, id@);
                let m = old(self)@[i];
                &&& m.admin != admin@ ==> result == Result::<Lottery, LotteryError>::Err(
                    LotteryError::Forbidden,
                ) && final(self)@ == old(self)@
                &&& m.admin == admin@ && !m.is_active ==> result == Result::<
                    Lottery,
                    LotteryError,
                >::Err(LotteryError::InactiveLottery) && final(self)@ == old(self)@
                &&& m.admin == admin@ && m.is_active && m.participants.len() == 0 ==> result
                    == Result::<Lottery, LotteryError>::Err(LotteryError::NoParticipants)
                    && final(self)@ == old(self)@
                &&& m.admin == admin@ && m.is_active && m.participants.len() > 0
                    && sum_tickets(m.participants) > u64::MAX ==> result == Result::<
                    Lottery,
                    LotteryError,
                >::Err(LotteryError::Overflow) && final(self)@ == old(self)@
                &&& m.admin == admin@ && m.is_active && m.participants.len() > 0
                    && sum_tickets(m.participants) == 0 ==> result == Result::<
                    Lottery,
                    LotteryError,
                >::Err(LotteryError::NoTicketsSold) && final(self)@ == old(self)@
                &&& m.admin == admin@ && m.is_active && m.participants.len() > 0 && 0
                    < sum_tickets(m.participants) <= u64::MAX ==> (exists|r: int|
                    1 <= r <= sum_tickets(m.participants) && (result matches Result::Ok(l)
                        && l@ == #[trigger] spec_draw_ok(m, r)) && final(self)@ == old(
                        self,
                    )@.update(i, spec_draw_ok(m, r)))
            }),
    {
        let idx = match self.find_index(id) {
            Option::Some(i) => i,
            Option::None => {
                return Result::Err(LotteryError::NotFound);
            },
        };
        let ghost old_view = self@;
        let ghost m = self@[idx as int];
        proof {
            lemma_id_index_matches(old_view, id@, idx as int);
        }
        let same_admin = self.lotteries[idx].admin == *admin;
        if !same_admin {
            return Result::Err(LotteryError::Forbidden);
        }
        if !self.lotteries[idx].is_active {
            return Result::Err(LotteryError::InactiveLottery);
        }
        if self.lotteries[idx].participants.len() == 0 {
            return Result::Err(LotteryError::NoParticipants);
        }
        let total = match total_tickets(&self.lotteries[idx].participants) {
            Option::Some(t) => t,
            Option::None => {
                return Result::Err(LotteryError::Overflow);
            },
        };
        if total == 0 {
            return Result::Err(LotteryError::NoTicketsSold);
        }
        let ticket_number = draw_ticket_number(total);
        let entry = &mut self.lotteries[idx];
        let k = select_winner_index(&entry.participants, ticket_number);
        entry.winner = Option::Some(entry.participants[k].wallet_address.clone());
        entry.is_active = false;
        let snap = self.lotteries[idx].snapshot();
        proof {
            lemma_draw_preserves_wf(m, ticket_number as int);
            assert(snap@ =~= spec_draw_ok(m, ticket_number as int));
            assert(self@ =~= old_view.update(idx as int, spec_draw_ok(
                m,
                ticket_number as int,
            )));
            assert forall|x: int| 0 <= x < self@.len() implies (#[trigger] self@[x]).id
                == old_view[x].id by {}
            assert(1 <= ticket_number as int <= sum_tickets(m.participants) && (Result::<
                Lottery,
                LotteryError,
            >::Ok(snap) matches Result::Ok(l) && l@ == spec_draw_ok(
                m,
                ticket_number as int,
            )) && self@ == old_view.update(idx as int, spec_draw_ok(
                m,
                ticket_number as int,
            )));
        }
        Result::Ok(snap)
    }
}

} // verus!
