use lottery_core::errors::LotteryError;
use lottery_core::lottery::Participant;
use lottery_core::registry::LotteryRegistry;
use lottery_core::selector::{draw_ticket_number, select_winner_index, total_tickets};

#[test]
fn draw_by_non_admin_is_forbidden_and_changes_nothing() {
    let mut reg = LotteryRegistry::new();
    let l = reg.create_lottery(String::from("alice"), 10, None);
    reg.buy_tickets(&l.id, &String::from("bob"), 5).unwrap();
    let r = reg.draw_winner(&l.id, &String::from("mallory"));
    assert_eq!(r.unwrap_err(), LotteryError::Forbidden);
    let current = reg.get_lottery(&l.id).unwrap();
    assert!(current.is_active);
    assert!(current.winner.is_none());
}

#[test]
fn draw_without_participants_is_rejected_and_stays_active() {
    let mut reg = LotteryRegistry::new();
    let l = reg.create_lottery(String::from("alice"), 10, None);
    let r = reg.draw_winner(&l.id, &String::from("alice"));
    assert_eq!(r.unwrap_err(), LotteryError::NoParticipants);
    let current = reg.get_lottery(&l.id).unwrap();
    assert!(current.is_active);
    assert!(current.winner.is_none());
}

#[test]
fn draw_unknown_lottery_is_not_found() {
    let mut reg = LotteryRegistry::new();
    let r = reg.draw_winner(&String::from("missing"), &String::from("alice"));
    assert_eq!(r.unwrap_err(), LotteryError::NotFound);
}

#[test]
fn draw_with_single_participant_selects_that_wallet() {
    let mut reg = LotteryRegistry::new();
    let l = reg.create_lottery(String::from("alice"), 10, None);
    reg.buy_tickets(&l.id, &String::from("bob"), 5).unwrap();
    let concluded = reg.draw_winner(&l.id, &String::from("alice")).unwrap();
    assert!(!concluded.is_active);
    assert_eq!(concluded.winner.as_deref(), Some("bob"));
    assert_eq!(concluded.prize_pool, 50);
    assert_eq!(concluded.participants.len(), 1);
}

#[test]
fn draw_selects_one_of_the_participants() {
    let mut reg = LotteryRegistry::new();
    let l = reg.create_lottery(String::from("alice"), 2, None);
    reg.buy_tickets(&l.id, &String::from("bob"), 3).unwrap();
    reg.buy_tickets(&l.id, &String::from("carol"), 4).unwrap();
    let concluded = reg.draw_winner(&l.id, &String::from("alice")).unwrap();
    assert!(!concluded.is_active);
    let winner = concluded.winner.expect("a winner is set");
    assert!(winner == "bob" || winner == "carol");
    assert_eq!(concluded.prize_pool, 14);
}

#[test]
fn concluded_lottery_rejects_further_purchases_and_draws() {
    let mut reg = LotteryRegistry::new();
    let l = reg.create_lottery(String::from("alice"), 10, None);
    reg.buy_tickets(&l.id, &String::from("bob"), 5).unwrap();
    let concluded = reg.draw_winner(&l.id, &String::from("alice")).unwrap();
    assert!(!concluded.is_active);

    let buy_after = reg.buy_tickets(&l.id, &String::from("carol"), 1);
    assert_eq!(buy_after.unwrap_err(), LotteryError::InactiveLottery);
    let draw_again = reg.draw_winner(&l.id, &String::from("alice"));
    assert_eq!(draw_again.unwrap_err(), LotteryError::InactiveLottery);

    let current = reg.get_lottery(&l.id).unwrap();
    assert!(!current.is_active);
    assert_eq!(current.winner.as_deref(), Some("bob"));
    assert_eq!(current.prize_pool, 50);
    assert_eq!(current.participants.len(), 1);
}

#[test]
fn other_lotteries_are_untouched_by_a_draw() {
    let mut reg = LotteryRegistry::new();
    let a = reg.create_lottery(String::from("alice"), 10, None);
    let b = reg.create_lottery(String::from("ben"), 20, None);
    reg.buy_tickets(&a.id, &String::from("bob"), 1).unwrap();
    reg.buy_tickets(&b.id, &String::from("carol"), 2).unwrap();
    reg.draw_winner(&a.id, &String::from("alice")).unwrap();
    let other = reg.get_lottery(&b.id).unwrap();
    assert!(other.is_active);
    assert!(other.winner.is_none());
    assert_eq!(other.prize_pool, 40);
}

#[test]
fn total_tickets_sums_the_list() {
    let ps = vec![
        Participant { wallet_address: String::from("a"), tickets_bought: 2 },
        Participant { wallet_address: String::from("b"), tickets_bought: 3 },
    ];
    assert_eq!(total_tickets(&ps), Some(5));
    let empty: Vec<Participant> = Vec::new();
    assert_eq!(total_tickets(&empty), Some(0));
}

#[test]
fn cumulative_walk_breaks_ties_toward_earlier_entrants() {
    let ps = vec![
        Participant { wallet_address: String::from("a"), tickets_bought: 2 },
        Participant { wallet_address: String::from("b"), tickets_bought: 3 },
    ];
    assert_eq!(select_winner_index(&ps, 1), 0);
    assert_eq!(select_winner_index(&ps, 2), 0);
    assert_eq!(select_winner_index(&ps, 3), 1);
    assert_eq!(select_winner_index(&ps, 4), 1);
    assert_eq!(select_winner_index(&ps, 5), 1);
}

#[test]
fn ticket_numbers_stay_in_range() {
    for _ in 0..1000 {
        assert_eq!(draw_ticket_number(1), 1);
    }
    for _ in 0..1000 {
        let r = draw_ticket_number(5);
        assert!((1..=5).contains(&r));
    }
    for _ in 0..100 {
        let r = draw_ticket_number(u64::MAX);
        assert!(r >= 1);
    }
}

#[test]
fn empirical_win_rate_tracks_ticket_share() {
    // One participant holds 1 of 4 tickets, the other 3 of 4.  Over 40,000
    // uniform draws the second should win about 30,000 times; the allowed
    // band is far wider than six standard deviations of the binomial.
    let ps = vec![
        Participant { wallet_address: String::from("a"), tickets_bought: 1 },
        Participant { wallet_address: String::from("b"), tickets_bought: 3 },
    ];
    let rounds: u64 = 40000;
    let mut wins_b: u64 = 0;
    for _ in 0..rounds {
        let r = draw_ticket_number(4);
        if select_winner_index(&ps, r) == 1 {
            wins_b += 1;
        }
    }
    assert!(wins_b > 28000, "second participant won only {wins_b} of {rounds}");
    assert!(wins_b < 32000, "second participant won {wins_b} of {rounds}");
}
