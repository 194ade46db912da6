//! The lottery data model: participants, lotteries, their mathematical
//! views, the well-formedness invariant, and the purchase transition.

use vstd::prelude::*;
use crate::errors::LotteryError;

verus! {

/// A wallet address together with the tickets it has accumulated in one
/// lottery.  The wallet is unique within the lottery's participant list.
#[derive(Debug)]
pub struct Participant {
    pub wallet_address: String,
    pub tickets_bought: u32,
}

/// Mathematical view of a participant.
#[verifier::ext_equal]
pub ghost struct ParticipantModel {
    pub wallet: Seq<char>,
    pub tickets: int,
}

impl View for Participant {
    type V = ParticipantModel;

    open spec fn view(&self) -> ParticipantModel {
        ParticipantModel { wallet: self.wallet_address@, tickets: self.tickets_bought as int }
    }
}

impl Clone for Participant {
    fn clone(&self) -> (res: Self)
        ensures
            res@ == self@,
    {
        Participant {
            wallet_address: self.wallet_address.clone(),
            tickets_bought: self.tickets_bought,
        }
    }
}

/// One lottery: an immutable admin and ticket price, the accumulating
/// participant list and prize pool, and the draw outcome.
#[derive(Debug)]
pub struct Lottery {
    pub id: String,
    pub admin: String,
    pub ticket_price: u64,
    pub participants: Vec<Participant>,
    pub is_active: bool,
    pub prize_pool: u64,
    pub winner: Option<String>,
    pub created_at: String,
    pub end_time: Option<String>,
}

/// Mathematical view of a lottery.
#[verifier::ext_equal]
pub ghost struct LotteryModel {
    pub id: Seq<char>,
    pub admin: Seq<char>,
    pub ticket_price: int,
    pub participants: Seq<ParticipantModel>,
    pub is_active: bool,
    pub prize_pool: int,
    pub winner: Option<Seq<char>>,
    pub created_at: Seq<char>,
    pub end_time: Option<Seq<char>>,
}

/// The view of an optional string.
pub open spec fn opt_view(o: Option<String>) -> Option<Seq<char>> {
    match o {
        Option::Some(s) => Option::Some(s@),
        Option::None => Option::None,
    }
}

/// The view of a participant list.
pub open spec fn participants_view(ps: Seq<Participant>) -> Seq<ParticipantModel> {
    ps.map_values(|p: Participant| p@)
}

impl View for Lottery {
    type V = LotteryModel;

    open spec fn view(&self) -> LotteryModel {
        LotteryModel {
            id: self.id@,
            admin: self.admin@,
            ticket_price: self.ticket_price as int,
            participants: participants_view(self.participants@),
            is_active: self.is_active,
            prize_pool: self.prize_pool as int,
            winner: opt_view(self.winner),
            created_at: self.created_at@,
            end_time: opt_view(self.end_time),
        }
    }
}

/// Total tickets held across a participant list.
pub open spec fn sum_tickets(ps: Seq<ParticipantModel>) -> int
    decreases ps.len(),
{
    if ps.len() == 0 {
        0
    } else {
        ps[0].tickets + sum_tickets(ps.drop_first())
    }
}

/// No wallet address appears twice in the list.
pub open spec fn wallets_unique(ps: Seq<ParticipantModel>) -> bool {
    forall|i: int, j: int| 0 <= i < j < ps.len() ==> ps[i].wallet != ps[j].wallet
}

/// Whether some participant holds the given wallet address.
pub open spec fn has_wallet(ps: Seq<ParticipantModel>, w: Seq<char>) -> bool {
    exists|i: int| 0 <= i < ps.len() && ps[i].wallet == w
}

/// The index of the participant holding the given wallet address
/// (unambiguous whenever the wallets are unique).
pub open spec fn wallet_index(ps: Seq<ParticipantModel>, w: Seq<char>) -> int {
    choose|i: int| 0 <= i < ps.len() && ps[i].wallet == w
}

/// Tickets held by a wallet: zero when it has no entry.
pub open spec fn tickets_of(ps: Seq<ParticipantModel>, w: Seq<char>) -> int {
    if has_wallet(ps, w) {
        ps[wallet_index(ps, w)].tickets
    } else {
        0
    }
}

/// Well-formedness of a lottery: one entry per wallet, every entry holds at
/// least one ticket and fits its machine bound, the prize pool is exactly
/// ticket price times tickets sold, and the winner is recorded exactly when
/// the lottery has concluded.
pub open spec fn wf(m: LotteryModel) -> bool {
    &&& wallets_unique(m.participants)
    &&& forall|i: int|
        0 <= i < m.participants.len() ==> 1 <= (#[trigger] m.participants[i]).tickets
            <= u32::MAX
    &&& 0 <= m.ticket_price <= u64::MAX
    &&& 0 <= m.prize_pool <= u64::MAX
    &&& m.prize_pool == m.ticket_price * sum_tickets(m.participants)
    &&& (m.is_active <==> m.winner is None)
}

/// The largest ticket count a single purchase may request.
pub open spec fn max_tickets_per_purchase() -> int {
    10000
}

/// Whether a purchase request is well formed: at least one ticket, at most
/// the per-purchase bound, and a non-empty wallet address.
pub open spec fn purchase_valid(w: Seq<char>, count: int) -> bool {
    1 <= count <= max_tickets_per_purchase() && w.len() > 0
}

/// Whether applying a purchase would exceed a machine bound: the cost or the
/// new prize pool beyond `u64`, or the wallet's accumulated tickets beyond
/// `u32`.
pub open spec fn buy_overflows(m: LotteryModel, w: Seq<char>, count: int) -> bool {
    ||| m.ticket_price * count > u64::MAX
    ||| m.prize_pool + m.ticket_price * count > u64::MAX
    ||| tickets_of(m.participants, w) + count > u32::MAX
}

/// A successful purchase: the prize pool grows by price times count, and the
/// wallet's entry accumulates the count — in place when the wallet is already
/// listed, appended (preserving first-purchase order) when it is new.
pub open spec fn spec_buy_ok(m: LotteryModel, w: Seq<char>, count: int) -> LotteryModel {
    let cost = m.ticket_price * count;
    let ps = if has_wallet(m.participants, w) {
        let i = wallet_index(m.participants, w);
        m.participants.update(
            i,
            (ParticipantModel { wallet: w, tickets: m.participants[i].tickets + count }),
        )
    } else {
        m.participants.push((ParticipantModel { wallet: w, tickets: count }))
    };
    LotteryModel { participants: ps, prize_pool: m.prize_pool + cost, ..m }
}

/// The full purchase transition on one lottery: validation, the active
/// check, the overflow guard, then the successful mutation.
pub open spec fn spec_buy(m: LotteryModel, w: Seq<char>, count: int) -> Result<
    LotteryModel,
    LotteryError,
> {
    if !purchase_valid(w, count) {
        Result::Err(LotteryError::ValidationError)
    } else if !m.is_active {
        Result::Err(LotteryError::InactiveLottery)
    } else if buy_overflows(m, w, count) {
        Result::Err(LotteryError::Overflow)
    } else {
        Result::Ok(spec_buy_ok(m, w, count))
    }
}

/// A successful draw with winning ticket number `r`: the winner is the
/// wallet selected by the cumulative walk and the lottery concludes; the
/// participants and the prize pool are untouched.
pub open spec fn spec_draw_ok(m: LotteryModel, r: int) -> LotteryModel {
    LotteryModel {
        winner: Option::Some(
            m.participants[crate::selector::spec_select(m.participants, r)].wallet,
        ),
        is_active: false,
        ..m
    }
}

/// All ticket counts in the list are non-negative.
pub open spec fn tickets_nonneg(ps: Seq<ParticipantModel>) -> bool {
    forall|i: int| 0 <= i < ps.len() ==> (#[trigger] ps[i]).tickets >= 0
}

/// A sum of non-negative ticket counts is non-negative.
pub proof fn lemma_sum_nonneg(ps: Seq<ParticipantModel>)
    requires
        tickets_nonneg(ps),
    ensures
        sum_tickets(ps) >= 0,
    decreases ps.len(),
{
    if ps.len() > 0 {
        assert(forall|i: int| 0 <= i < ps.drop_first().len()
            ==> (#[trigger] ps.drop_first()[i]).tickets >= 0);
        lemma_sum_nonneg(ps.drop_first());
    }
}

/// Extending a prefix by one element adds that element's tickets.
pub proof fn lemma_sum_take_step(ps: Seq<ParticipantModel>, n: int)
    requires
        0 <= n < ps.len(),
    ensures
        sum_tickets(ps.take(n + 1)) == sum_tickets(ps.take(n)) + ps[n].tickets,
    decreases n,
{
    if n == 0 {
        assert(ps.take(0) =~= Seq::<ParticipantModel>::empty());
        assert(ps.take(1).drop_first() =~= Seq::<ParticipantModel>::empty());
    } else {
        let df = ps.drop_first();
        assert(ps.take(n + 1).drop_first() =~= df.take(n));
        assert(ps.take(n).drop_first() =~= df.take(n - 1));
        lemma_sum_take_step(df, n - 1);
    }
}

/// The total splits into the sum over a prefix and the sum over the rest.
pub proof fn lemma_sum_split(ps: Seq<ParticipantModel>, n: int)
    requires
        0 <= n <= ps.len(),
    ensures
        sum_tickets(ps) == sum_tickets(ps.take(n)) + sum_tickets(ps.skip(n)),
    decreases n,
{
    if n == 0 {
        assert(ps.take(0) =~= Seq::<ParticipantModel>::empty());
        assert(ps.skip(0) =~= ps);
    } else {
        lemma_sum_split(ps, n - 1);
        lemma_sum_take_step(ps, n - 1);
        assert(ps.skip(n - 1).drop_first() =~= ps.skip(n));
        assert(sum_tickets(ps.skip(n - 1)) == ps[n - 1].tickets + sum_tickets(ps.skip(n)));
    }
}

/// Updating one entry changes the total by the difference at that entry.
pub proof fn lemma_sum_update(ps: Seq<ParticipantModel>, j: int, p: ParticipantModel)
    requires
        0 <= j < ps.len(),
    ensures
        sum_tickets(ps.update(j, p)) == sum_tickets(ps) - ps[j].tickets + p.tickets,
    decreases j,
{
    if j == 0 {
        assert(ps.update(0, p)[0] == p);
        assert(ps.update(0, p).drop_first() =~= ps.drop_first());
    } else {
        assert(ps.update(j, p)[0] == ps[0]);
        assert(ps.update(j, p).drop_first() =~= ps.drop_first().update(j - 1, p));
        lemma_sum_update(ps.drop_first(), j - 1, p);
    }
}

/// Appending an entry adds its tickets to the total.
pub proof fn lemma_sum_push(ps: Seq<ParticipantModel>, p: ParticipantModel)
    ensures
        sum_tickets(ps.push(p)) == sum_tickets(ps) + p.tickets,
    decreases ps.len(),
{
    if ps.len() == 0 {
        assert(ps.push(p)[0] == p);
        assert(ps.push(p).drop_first() =~= Seq::<ParticipantModel>::empty());
        assert(sum_tickets(ps.push(p)) == p.tickets + sum_tickets(
            ps.push(p).drop_first(),
        ));
    } else {
        assert(ps.push(p)[0] == ps[0]);
        assert(ps.push(p).drop_first() =~= ps.drop_first().push(p));
        lemma_sum_push(ps.drop_first(), p);
        assert(sum_tickets(ps.push(p)) == ps[0].tickets + sum_tickets(
            ps.push(p).drop_first(),
        ));
    }
}

/// A successful purchase keeps the lottery well formed.
pub proof fn lemma_buy_preserves_wf(m: LotteryModel, w: Seq<char>, count: int)
    requires
        wf(m),
    ensures
        spec_buy(m, w, count) matches Result::Ok(m2) ==> wf(m2),
{
    if spec_buy(m, w, count) is Ok {
        let ps = m.participants;
        let cost = m.ticket_price * count;
        vstd::arithmetic::mul::lemma_mul_nonnegative(m.ticket_price, count);
        vstd::arithmetic::mul::lemma_mul_is_distributive_add(
            m.ticket_price,
            sum_tickets(ps),
            count,
        );
        if has_wallet(ps, w) {
            let i = wallet_index(ps, w);
            assert(0 <= i < ps.len() && ps[i].wallet == w);
            let p2 = ParticipantModel { wallet: w, tickets: ps[i].tickets + count };
            let ps2 = ps.update(i, p2);
            lemma_sum_update(ps, i, p2);
            assert(forall|x: int| 0 <= x < ps2.len()
                ==> (#[trigger] ps2[x]).wallet == ps[x].wallet);
            assert(wallets_unique(ps2));
            assert(tickets_of(ps, w) == ps[i].tickets);
        } else {
            let p2 = ParticipantModel { wallet: w, tickets: count };
            let ps2 = ps.push(p2);
            lemma_sum_push(ps, p2);
            assert(forall|x: int| 0 <= x < ps.len() ==> (#[trigger] ps[x]).wallet != w);
            assert(wallets_unique(ps2));
        }
    }
}

/// A successful purchase adds exactly `count` to the purchasing wallet's
/// tickets — it accumulates, never overwrites.
pub proof fn lemma_buy_tickets_of(m: LotteryModel, w: Seq<char>, count: int)
    requires
        wallets_unique(m.participants),
    ensures
        spec_buy(m, w, count) matches Result::Ok(m2) ==> tickets_of(m2.participants, w)
            == tickets_of(m.participants, w) + count,
{
    if spec_buy(m, w, count) is Ok {
        let ps = m.participants;
        if has_wallet(ps, w) {
            let i = wallet_index(ps, w);
            assert(0 <= i < ps.len() && ps[i].wallet == w);
            let p2 = ParticipantModel { wallet: w, tickets: ps[i].tickets + count };
            let ps2 = ps.update(i, p2);
            assert(has_wallet(ps2, w)) by {
                assert(ps2[i].wallet == w);
            }
            let k = wallet_index(ps2, w);
            assert(0 <= k < ps2.len() && ps2[k].wallet == w);
            assert(forall|x: int| 0 <= x < ps2.len()
                ==> (#[trigger] ps2[x]).wallet == ps[x].wallet);
            assert(k == i);
        } else {
            let p2 = ParticipantModel { wallet: w, tickets: count };
            let ps2 = ps.push(p2);
            let n = ps.len() as int;
            assert(has_wallet(ps2, w)) by {
                assert(ps2[n].wallet == w);
            }
            let k = wallet_index(ps2, w);
            assert(0 <= k < ps2.len() && ps2[k].wallet == w);
            assert(k == n) by {
                if k < n {
                    assert(ps[k].wallet == w);
                    assert(has_wallet(ps, w));
                }
            }
        }
    }
}

/// A concluded draw keeps the lottery well formed.
pub proof fn lemma_draw_preserves_wf(m: LotteryModel, r: int)
    requires
        wf(m),
        m.is_active,
    ensures
        wf(spec_draw_ok(m, r)),
{
}

/// Finds the entry holding the given wallet, scanning in stored order.
fn find_wallet_index(ps: &Vec<Participant>, w: &String) -> (result: Option<usize>)
    ensures
        (match result {
            Option::Some(j) => j < ps@.len() && participants_view(ps@)[j as int].wallet
                == w@,
            Option::None => !has_wallet(participants_view(ps@), w@),
        }),
{
    let mut i: usize = 0;
    while i < ps.len()
        invariant
            0 <= i <= ps@.len(),
            forall|x: int| 0 <= x < i ==> participants_view(ps@)[x].wallet != w@,
        decreases ps@.len() - i,
    {
        if ps[i].wallet_address == *w {
            return Option::Some(i);
        }
        i = i + 1;
    }
    Option::None
}

/// Copies an optional string; the view is preserved.
fn clone_opt(o: &Option<String>) -> (res: Option<String>)
    ensures
        opt_view(res) == opt_view(*o),
{
    match o {
        Option::Some(s) => Option::Some(s.clone()),
        Option::None => Option::None,
    }
}

impl Lottery {
    /// A fresh lottery: active, no participants, empty prize pool.
    pub fn open_new(
        id: String,
        admin: String,
        ticket_price: u64,
        created_at: String,
        end_time: Option<String>,
    ) -> (result: Lottery)
        ensures
            result@ == (LotteryModel {
                id: id@,
                admin: admin@,
                ticket_price: ticket_price as int,
                participants: Seq::<ParticipantModel>::empty(),
                is_active: true,
                prize_pool: 0,
                winner: Option::None,
                created_at: created_at@,
                end_time: opt_view(end_time),
            }),
            wf(result@),
    {
        let result = Lottery {
            id,
            admin,
            ticket_price,
            participants: Vec::new(),
            is_active: true,
            prize_pool: 0,
            winner: Option::None,
            created_at,
            end_time,
        };
        proof {
            assert(participants_view(result.participants@)
                =~= Seq::<ParticipantModel>::empty());
            assert(sum_tickets(result@.participants) == 0);
        }
        result
    }

    /// A field-for-field copy; the view is preserved.
    pub fn snapshot(&self) -> (res: Lottery)
        ensures
            res@ == self@,
    {
        let mut ps: Vec<Participant> = Vec::new();
        let mut i: usize = 0;
        while i < self.participants.len()
            invariant
                0 <= i <= self.participants@.len(),
                ps@.len() == i,
                forall|j: int| 0 <= j < i ==> ps@[j]@ == self.participants@[j]@,
            decreases self.participants@.len() - i,
        {
            ps.push(self.participants[i].clone());
            i = i + 1;
        }
        proof {
            assert(participants_view(ps@) =~= participants_view(self.participants@));
        }
        let res = Lottery {
            id: self.id.clone(),
            admin: self.admin.clone(),
            ticket_price: self.ticket_price,
            participants: ps,
            is_active: self.is_active,
            prize_pool: self.prize_pool,
            winner: clone_opt(&self.winner),
            created_at: self.created_at.clone(),
            end_time: clone_opt(&self.end_time),
        };
        proof {
            assert(res@ =~= self@);
        }
        res
    }

    /// Applies one ticket purchase, exactly as `spec_buy` describes it:
    /// validation, the active check and the overflow guards leave the
    /// lottery untouched; a successful purchase grows the pool and the
    /// wallet's entry.
    pub fn buy(&mut self, wallet: &String, tickets: u32) -> (result: Result<
        (),
        LotteryError,
    >)
        requires
            wf(old(self)@),
        ensures
            wf(final(self)@),
            (match spec_buy(old(self)@, wallet@, tickets as int) {
                Result::Ok(m2) => result is Ok && final(self)@ == m2,
                Result::Err(e) => result == Result::<(), LotteryError>::Err(e)
                    && final(self)@ == old(self)@,
            }),
    {
        if tickets < 1 || tickets > 10000 || wallet.as_str().is_empty() {
            return Result::Err(LotteryError::ValidationError);
        }
        if !self.is_active {
            return Result::Err(LotteryError::InactiveLottery);
        }
        let cost = match self.ticket_price.checked_mul(tickets as u64) {
            Option::Some(c) => c,
            Option::None => {
                return Result::Err(LotteryError::Overflow);
            },
        };
        let new_pool = match self.prize_pool.checked_add(cost) {
            Option::Some(p) => p,
            Option::None => {
                return Result::Err(LotteryError::Overflow);
            },
        };
        let ghost m = self@;
        match find_wallet_index(&self.participants, wallet) {
            Option::Some(j) => {
                proof {
                    assert(has_wallet(m.participants, wallet@)) by {
                        assert(m.participants[j as int].wallet == wallet@);
                    }
                    let k = wallet_index(m.participants, wallet@);
                    assert(0 <= k < m.participants.len()
                        && m.participants[k].wallet == wallet@);
                    assert(k == j);
                }
                let t = self.participants[j].tickets_bought;
                match t.checked_add(tickets) {
                    Option::Some(nt) => {
                        self.participants[j].tickets_bought = nt;
                        self.prize_pool = new_pool;
                        proof {
                            lemma_buy_preserves_wf(m, wallet@, tickets as int);
                            assert(self@.participants =~= spec_buy_ok(
                                m,
                                wallet@,
                                tickets as int,
                            ).participants);
                            assert(self@ =~= spec_buy_ok(m, wallet@, tickets as int));
                        }
                        Result::Ok(())
                    },
                    Option::None => {
                        proof {
                            assert(tickets_of(m.participants, wallet@) + tickets
                                > u32::MAX);
                        }
                        Result::Err(LotteryError::Overflow)
                    },
                }
            },
            Option::None => {
                proof {
                    assert(tickets_of(m.participants, wallet@) == 0);
                }
                self.participants.push(
                    Participant { wallet_address: wallet.clone(), tickets_bought: tickets },
                );
                self.prize_pool = new_pool;
                proof {
                    lemma_buy_preserves_wf(m, wallet@, tickets as int);
                    assert(self@.participants =~= spec_buy_ok(
                        m,
                        wallet@,
                        tickets as int,
                    ).participants);
                    assert(self@ =~= spec_buy_ok(m, wallet@, tickets as int));
                }
                Result::Ok(())
            },
        }
    }
}

} // verus!
