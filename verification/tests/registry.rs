use lottery_core::errors::LotteryError;
use lottery_core::registry::LotteryRegistry;

#[test]
fn create_starts_active_and_empty() {
    let mut reg = LotteryRegistry::new();
    let l = reg.create_lottery(String::from("alice"), 10, None);
    assert!(l.is_active);
    assert_eq!(l.admin, "alice");
    assert_eq!(l.ticket_price, 10);
    assert_eq!(l.prize_pool, 0);
    assert!(l.participants.is_empty());
    assert!(l.winner.is_none());
    assert!(l.end_time.is_none());
    assert!(!l.id.is_empty());
}

#[test]
fn create_keeps_end_time() {
    let mut reg = LotteryRegistry::new();
    let l = reg.create_lottery(
        String::from("alice"),
        10,
        Some(String::from("2031-01-01T00:00:00Z")),
    );
    assert_eq!(l.end_time.as_deref(), Some("2031-01-01T00:00:00Z"));
}

#[test]
fn create_generates_distinct_ids() {
    let mut reg = LotteryRegistry::new();
    let a = reg.create_lottery(String::from("alice"), 10, None);
    let b = reg.create_lottery(String::from("alice"), 10, None);
    assert_ne!(a.id, b.id);
}

#[test]
fn scenario_accumulating_purchases() {
    let mut reg = LotteryRegistry::new();
    let l = reg.create_lottery(String::from("alice"), 10, None);
    let after_first = reg
        .buy_tickets(&l.id, &String::from("bob"), 5)
        .expect("first purchase succeeds");
    assert_eq!(after_first.prize_pool, 50);
    assert_eq!(after_first.participants.len(), 1);
    assert_eq!(after_first.participants[0].wallet_address, "bob");
    assert_eq!(after_first.participants[0].tickets_bought, 5);

    let after_second = reg
        .buy_tickets(&l.id, &String::from("bob"), 3)
        .expect("second purchase succeeds");
    assert_eq!(after_second.prize_pool, 80);
    assert_eq!(after_second.participants.len(), 1);
    assert_eq!(after_second.participants[0].wallet_address, "bob");
    assert_eq!(after_second.participants[0].tickets_bought, 8);
}

#[test]
fn buy_preserves_first_purchase_order() {
    let mut reg = LotteryRegistry::new();
    let l = reg.create_lottery(String::from("alice"), 1, None);
    reg.buy_tickets(&l.id, &String::from("bob"), 1).unwrap();
    reg.buy_tickets(&l.id, &String::from("carol"), 2).unwrap();
    let latest = reg.buy_tickets(&l.id, &String::from("bob"), 1).unwrap();
    assert_eq!(latest.participants.len(), 2);
    assert_eq!(latest.participants[0].wallet_address, "bob");
    assert_eq!(latest.participants[0].tickets_bought, 2);
    assert_eq!(latest.participants[1].wallet_address, "carol");
    assert_eq!(latest.participants[1].tickets_bought, 2);
}

#[test]
fn buy_zero_tickets_is_rejected_without_state_change() {
    let mut reg = LotteryRegistry::new();
    let l = reg.create_lottery(String::from("alice"), 10, None);
    let r = reg.buy_tickets(&l.id, &String::from("bob"), 0);
    assert_eq!(r.unwrap_err(), LotteryError::ValidationError);
    let current = reg.get_lottery(&l.id).unwrap();
    assert_eq!(current.prize_pool, 0);
    assert!(current.participants.is_empty());
}

#[test]
fn buy_too_many_tickets_is_rejected_without_state_change() {
    let mut reg = LotteryRegistry::new();
    let l = reg.create_lottery(String::from("alice"), 10, None);
    let r = reg.buy_tickets(&l.id, &String::from("bob"), 10001);
    assert_eq!(r.unwrap_err(), LotteryError::ValidationError);
    let current = reg.get_lottery(&l.id).unwrap();
    assert_eq!(current.prize_pool, 0);
    assert!(current.participants.is_empty());
}

#[test]
fn buy_ten_thousand_tickets_is_accepted() {
    let mut reg = LotteryRegistry::new();
    let l = reg.create_lottery(String::from("alice"), 10, None);
    let after = reg.buy_tickets(&l.id, &String::from("bob"), 10000).unwrap();
    assert_eq!(after.prize_pool, 100000);
    assert_eq!(after.participants[0].tickets_bought, 10000);
}

#[test]
fn buy_with_empty_wallet_is_rejected() {
    let mut reg = LotteryRegistry::new();
    let l = reg.create_lottery(String::from("alice"), 10, None);
    let r = reg.buy_tickets(&l.id, &String::new(), 1);
    assert_eq!(r.unwrap_err(), LotteryError::ValidationError);
}

#[test]
fn buy_unknown_lottery_is_not_found() {
    let mut reg = LotteryRegistry::new();
    let r = reg.buy_tickets(&String::from("missing"), &String::from("bob"), 1);
    assert_eq!(r.unwrap_err(), LotteryError::NotFound);
}

#[test]
fn buy_cost_overflow_is_guarded() {
    let mut reg = LotteryRegistry::new();
    let l = reg.create_lottery(String::from("alice"), u64::MAX, None);
    let r = reg.buy_tickets(&l.id, &String::from("bob"), 2);
    assert_eq!(r.unwrap_err(), LotteryError::Overflow);
    let current = reg.get_lottery(&l.id).unwrap();
    assert_eq!(current.prize_pool, 0);
    assert!(current.participants.is_empty());
}

#[test]
fn buy_pool_overflow_is_guarded() {
    let mut reg = LotteryRegistry::new();
    let l = reg.create_lottery(String::from("alice"), u64::MAX, None);
    let first = reg.buy_tickets(&l.id, &String::from("bob"), 1).unwrap();
    assert_eq!(first.prize_pool, u64::MAX);
    let r = reg.buy_tickets(&l.id, &String::from("carol"), 1);
    assert_eq!(r.unwrap_err(), LotteryError::Overflow);
    let current = reg.get_lottery(&l.id).unwrap();
    assert_eq!(current.prize_pool, u64::MAX);
    assert_eq!(current.participants.len(), 1);
}

#[test]
fn get_unknown_lottery_is_not_found() {
    let reg = LotteryRegistry::new();
    let r = reg.get_lottery(&String::from("missing"));
    assert_eq!(r.unwrap_err(), LotteryError::NotFound);
}

#[test]
fn list_returns_every_lottery() {
    let mut reg = LotteryRegistry::new();
    assert!(reg.list_lotteries().is_empty());
    let a = reg.create_lottery(String::from("alice"), 1, None);
    let b = reg.create_lottery(String::from("ben"), 2, None);
    let c = reg.create_lottery(String::from("cora"), 3, None);
    let all = reg.list_lotteries();
    assert_eq!(all.len(), 3);
    assert_eq!(all[0].id, a.id);
    assert_eq!(all[1].id, b.id);
    assert_eq!(all[2].id, c.id);
}

#[test]
fn distinct_wallets_each_buying_one_are_all_recorded() {
    let mut reg = LotteryRegistry::new();
    let l = reg.create_lottery(String::from("alice"), 7, None);
    let m: u64 = 100;
    for k in 0..m {
        let wallet = format!("wallet-{k}");
        reg.buy_tickets(&l.id, &wallet, 1).unwrap();
    }
    let current = reg.get_lottery(&l.id).unwrap();
    assert_eq!(current.participants.len(), 100);
    assert_eq!(current.prize_pool, 100 * 7);
    for p in &current.participants {
        assert_eq!(p.tickets_bought, 1);
    }
}
