use workpool::lottery::{check_owner, Lottery, LotteryError};

fn now() -> i64 {
    chrono::Utc::now().timestamp()
}

#[test]
fn test_new() {
    let lottery_name = "Test".to_string();
    let end_date = 1651256235;
    let mut contract = Lottery::new(lottery_name.clone(), end_date);
    assert_eq!(contract.get_lottery_name(), lottery_name);
    assert_eq!(contract.get_end_date(), end_date);
    assert_eq!(contract.get_num_participans(), 0);
    contract.enter("botellita.com".to_string()).unwrap();
    assert_eq!(contract.get_num_participans(), 1);
    contract.enter("botellon.near".to_string()).unwrap();
    assert_ne!(contract.get_num_participans(), 1);
    assert_ne!(contract.draw_winner(now()).unwrap(), "QUEONDA".to_string());
}

#[test]
fn entering_twice_is_refused() {
    let mut l = Lottery::new("L".to_string(), 10);
    assert_eq!(l.enter("a.near".to_string()), Ok(()));
    assert_eq!(l.enter("a.near".to_string()), Err(LotteryError::AlreadyEntered));
    assert_eq!(l.get_num_participans(), 1);
}

#[test]
fn participants_keep_entry_order() {
    let mut l = Lottery::new("L".to_string(), 10);
    for a in ["c", "a", "b"] {
        l.enter(a.to_string()).unwrap();
    }
    assert_eq!(l.get_participans(), vec!["c".to_string(), "a".to_string(), "b".to_string()]);
}

#[test]
fn winner_is_the_indexed_participant_after_the_end() {
    let mut l = Lottery::new("L".to_string(), 100);
    l.enter("x".to_string()).unwrap();
    l.enter("y".to_string()).unwrap();
    assert_eq!(l.get_winner(101, 1), Ok("y".to_string()));
    assert_eq!(l.get_winner(101, 0), Ok("x".to_string()));
    assert_eq!(l.get_winner(100, 0), Err(LotteryError::NotFinished));
    assert_eq!(l.get_winner(101, 2), Err(LotteryError::NoSuchParticipant));
}

#[test]
fn end_date_beyond_any_time_never_finishes() {
    let mut l = Lottery::new("L".to_string(), u64::MAX);
    l.enter("x".to_string()).unwrap();
    assert_eq!(l.get_winner(i64::MAX, 0), Err(LotteryError::NotFinished));
    assert_eq!(l.draw_winner(i64::MAX), Err(LotteryError::NotFinished));
}

#[test]
fn drawing_needs_participants_and_an_ended_lottery() {
    let mut l = Lottery::new("L".to_string(), 50);
    assert_eq!(l.draw_winner(51), Err(LotteryError::NoParticipants));
    l.enter("only".to_string()).unwrap();
    assert_eq!(l.draw_winner(50), Err(LotteryError::NotFinished));
    for _ in 0..20 {
        assert_eq!(l.draw_winner(51), Ok("only".to_string()));
    }
}

#[test]
fn drawn_winner_is_a_participant() {
    let mut l = Lottery::new("L".to_string(), 0);
    let names = ["p0", "p1", "p2", "p3", "p4"];
    for n in names {
        l.enter(n.to_string()).unwrap();
    }
    for _ in 0..50 {
        let w = l.draw_winner(1).unwrap();
        assert!(names.contains(&w.as_str()));
    }
}

#[test]
fn only_the_contract_account_is_owner() {
    assert_eq!(check_owner(&"alice".to_string(), &"alice".to_string()), Ok(()));
    assert_eq!(check_owner(&"alice".to_string(), &"bob".to_string()), Err(LotteryError::NotOwner));
}
