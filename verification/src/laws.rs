//! Laws of the lottery transitions, stated and proved over the models that
//! the executable contracts speak of.  The prize-pool equation and the
//! one-entry-per-wallet rule are part of `wf`, which every registry
//! operation preserves; the laws here relate several transitions.

use vstd::prelude::*;
use crate::errors::LotteryError;
use crate::lottery::{
    LotteryModel, ParticipantModel, has_wallet, lemma_buy_preserves_wf,
    lemma_buy_tickets_of, purchase_valid, spec_buy, spec_draw_ok, tickets_of, wf,
};

verus! {

/// Two purchases by the same wallet accumulate: after both succeed the
/// wallet holds its earlier tickets plus both counts — the second purchase
/// never overwrites the first.
pub proof fn lemma_buy_accumulates(m: LotteryModel, w: Seq<char>, a: int, b: int)
    requires
        wf(m),
        spec_buy(m, w, a) is Ok,
        spec_buy(spec_buy(m, w, a)->Ok_0, w, b) is Ok,
    ensures
        tickets_of(spec_buy(spec_buy(m, w, a)->Ok_0, w, b)->Ok_0.participants, w)
            == tickets_of(m.participants, w) + a + b,
{
    let m1 = spec_buy(m, w, a)->Ok_0;
    lemma_buy_preserves_wf(m, w, a);
    lemma_buy_tickets_of(m, w, a);
    lemma_buy_tickets_of(m1, w, b);
}

/// A concluded draw is irrevocable: the lottery is inactive, and every
/// later purchase attempt fails — with `InactiveLottery` whenever the
/// request itself is well formed, regardless of wallet or count.
pub proof fn lemma_draw_irrevocable(m: LotteryModel, r: int, w: Seq<char>, count: int)
    ensures
        !spec_draw_ok(m, r).is_active,
        spec_buy(spec_draw_ok(m, r), w, count) is Err,
        purchase_valid(w, count) ==> spec_buy(spec_draw_ok(m, r), w, count) == Result::<
            LotteryModel,
            LotteryError,
        >::Err(LotteryError::InactiveLottery),
{
}

/// The effect of a series of single-ticket purchases, one per wallet, in
/// order.
pub open spec fn spec_buy_each_one(m: LotteryModel, ws: Seq<Seq<char>>) -> Result<
    LotteryModel,
    LotteryError,
>
    decreases ws.len(),
{
    if ws.len() == 0 {
        Result::Ok(m)
    } else {
        match spec_buy(m, ws[0], 1) {
            Result::Ok(m2) => spec_buy_each_one(m2, ws.drop_first()),
            Result::Err(e) => Result::Err(e),
        }
    }
}

/// Serialized single-ticket purchases from distinct new wallets lose no
/// update: all of them succeed, the participant list grows by exactly one
/// entry per purchase, and the prize pool grows by exactly the ticket price
/// per purchase.
pub proof fn lemma_distinct_buys(m: LotteryModel, ws: Seq<Seq<char>>)
    requires
        wf(m),
        m.is_active,
        forall|i: int, j: int| 0 <= i < j < ws.len() ==> ws[i] != ws[j],
        forall|i: int| 0 <= i < ws.len() ==> (#[trigger] ws[i]).len() > 0,
        forall|i: int| 0 <= i < ws.len() ==> !has_wallet(m.participants, #[trigger] ws[i]),
        m.prize_pool + ws.len() * m.ticket_price <= u64::MAX,
    ensures
        spec_buy_each_one(m, ws) is Ok,
        spec_buy_each_one(m, ws)->Ok_0.participants.len() == m.participants.len()
            + ws.len(),
        spec_buy_each_one(m, ws)->Ok_0.prize_pool == m.prize_pool + ws.len()
            * m.ticket_price,
        wf(spec_buy_each_one(m, ws)->Ok_0),
    decreases ws.len(),
{
    vstd::arithmetic::mul::lemma_mul_nonnegative(ws.len() as int, m.ticket_price);
    if ws.len() == 0 {
        assert(ws.len() * m.ticket_price == 0);
    } else {
        let w = ws[0];
        let rest = ws.drop_first();
        vstd::arithmetic::mul::lemma_mul_is_distributive_add_other_way(
            m.ticket_price,
            1,
            rest.len() as int,
        );
        assert(ws.len() * m.ticket_price == m.ticket_price + rest.len() * m.ticket_price);
        vstd::arithmetic::mul::lemma_mul_nonnegative(rest.len() as int, m.ticket_price);
        assert(m.ticket_price * 1 == m.ticket_price);
        assert(!(spec_buy(m, w, 1) is Err));
        let m1 = spec_buy(m, w, 1)->Ok_0;
        lemma_buy_preserves_wf(m, w, 1);
        let p = ParticipantModel { wallet: w, tickets: 1 };
        assert(m1.participants == m.participants.push(p));
        assert forall|i: int| 0 <= i < rest.len() implies !has_wallet(
            m1.participants,
            #[trigger] rest[i],
        ) by {
            assert(rest[i] == ws[i + 1]);
            assert(ws[i + 1] != ws[0]);
            if has_wallet(m1.participants, rest[i]) {
                let k = crate::lottery::wallet_index(m1.participants, rest[i]);
                assert(0 <= k < m1.participants.len() && m1.participants[k].wallet
                    == rest[i]);
                if k < m.participants.len() {
                    assert(m.participants[k].wallet == rest[i]);
                    assert(has_wallet(m.participants, ws[i + 1]));
                }
            }
        }
        lemma_distinct_buys(m1, rest);
    }
}

} // verus!
