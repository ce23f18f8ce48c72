use mission_controller::mission::{
    MissionController, MissionError, UserId, AUTO_REWARD_POOL, AUTO_TARGET_LIQUIDITY, AUTO_WINDOW,
};
use mission_controller::price::{PriceData, ReflectorReader};

fn user(tag: u8) -> UserId {
    UserId { key: [tag; 56] }
}

fn controller_with_mission(now: u64) -> (MissionController, u64) {
    let admin = user(b'A');
    let mut c = MissionController::new(admin);
    let id = c.create_mission(&admin, 100, 50, 24, 7, now).unwrap();
    (c, id)
}

#[test]
fn open_enlist_contribute_completes_mission() {
    let (mut c, id) = controller_with_mission(1_000);
    assert_eq!(id, 1);
    let u1 = user(b'U');
    assert_eq!(c.enlist(u1, id, 10, 1_000), Ok(()));
    assert_eq!(c.add_contribution(&u1, id, 100), Ok(()));
    let m = c.get_mission(id).unwrap();
    assert!(!m.active);
    assert_eq!(m.current_progress, 100);
    assert_eq!(m.participants_count, 1);
    let s = c.get_user_stake(&u1, id).unwrap();
    assert_eq!(s.contribution, 100);
    assert_eq!(s.kale_staked, 10);
    assert_eq!(s.enlisted_at, 1_000);
}

#[test]
fn created_mission_reads_back_unchanged() {
    let (c, id) = controller_with_mission(1_000);
    let m = c.get_mission(id).unwrap();
    assert_eq!(m.id, 1);
    assert_eq!(m.target_liquidity, 100);
    assert_eq!(m.current_progress, 0);
    assert_eq!(m.reward_pool, 50);
    assert_eq!(m.deadline, 1_000 + 24 * 3600);
    assert!(m.active);
    assert_eq!(m.trigger_price, 7);
    assert_eq!(m.participants_count, 0);
}

#[test]
fn second_enlistment_is_refused() {
    let (mut c, id) = controller_with_mission(1_000);
    let u1 = user(b'U');
    assert_eq!(c.enlist(u1, id, 10, 1_000), Ok(()));
    assert_eq!(c.enlist(u1, id, 99, 1_001), Err(MissionError::AlreadyEnlisted));
    let s = c.get_user_stake(&u1, id).unwrap();
    assert_eq!(s.kale_staked, 10);
    assert_eq!(s.enlisted_at, 1_000);
    assert_eq!(c.get_mission(id).unwrap().participants_count, 1);
}

#[test]
fn enlistment_after_deadline_is_refused() {
    let (mut c, id) = controller_with_mission(1_000);
    let u1 = user(b'U');
    let late = 1_000 + 24 * 3600 + 1;
    assert_eq!(c.enlist(u1, id, 10, late), Err(MissionError::MissionExpired));
    assert_eq!(c.get_user_stake(&u1, id), Err(MissionError::NotFound));
    assert_eq!(c.get_mission(id).unwrap().participants_count, 0);
    assert_eq!(c.enlist(u1, id, 10, late - 1), Ok(()));
}

#[test]
fn participants_count_follows_stakes() {
    let (mut c, id) = controller_with_mission(0);
    let id2 = c.create_mission(&user(b'A'), 100, 50, 1, 7, 0).unwrap();
    assert_eq!(c.enlist(user(1), id, 1, 0), Ok(()));
    assert_eq!(c.enlist(user(2), id, 1, 0), Ok(()));
    assert_eq!(c.enlist(user(1), id2, 1, 0), Ok(()));
    assert_eq!(c.get_mission(id).unwrap().participants_count, 2);
    assert_eq!(c.get_mission(id2).unwrap().participants_count, 1);
}

#[test]
fn only_admin_creates_missions() {
    let admin = user(b'A');
    let mut c = MissionController::new(admin);
    assert_eq!(c.create_mission(&user(b'B'), 100, 50, 24, 7, 0), Err(MissionError::Unauthorized));
    assert_eq!(c.get_mission(1), Err(MissionError::NotFound));
    assert_eq!(c.create_mission(&admin, 100, 50, 24, 7, 0), Ok(1));
    assert_eq!(c.create_mission(&admin, 100, 50, 24, 7, 0), Ok(2));
}

#[test]
fn failed_creation_does_not_consume_an_id() {
    let admin = user(b'A');
    let mut c = MissionController::new(admin);
    assert_eq!(c.create_mission(&admin, 100, 50, 1, 7, 0), Ok(1));
    assert_eq!(c.create_mission(&admin, 100, 50, u64::MAX, 7, 10), Err(MissionError::Overflow));
    assert_eq!(c.create_mission(&admin, 100, 50, 1, 7, 0), Ok(2));
}

#[test]
fn unknown_mission_or_stake_is_not_found() {
    let (mut c, id) = controller_with_mission(0);
    assert_eq!(c.get_mission(0), Err(MissionError::NotFound));
    assert_eq!(c.get_mission(9), Err(MissionError::NotFound));
    assert_eq!(c.enlist(user(1), 9, 1, 0), Err(MissionError::NotFound));
    assert_eq!(c.add_contribution(&user(1), id, 5), Err(MissionError::NotFound));
    assert_eq!(c.get_mission(id).unwrap().current_progress, 0);
}

#[test]
fn completed_mission_refuses_further_work() {
    let (mut c, id) = controller_with_mission(0);
    assert_eq!(c.enlist(user(1), id, 1, 0), Ok(()));
    assert_eq!(c.add_contribution(&user(1), id, 60), Ok(()));
    assert!(c.get_mission(id).unwrap().active);
    assert_eq!(c.add_contribution(&user(1), id, 40), Ok(()));
    assert!(!c.get_mission(id).unwrap().active);
    assert_eq!(c.add_contribution(&user(1), id, 1), Err(MissionError::MissionInactive));
    assert_eq!(c.enlist(user(2), id, 1, 0), Err(MissionError::MissionInactive));
    assert_eq!(c.get_mission(id).unwrap().current_progress, 100);
    assert_eq!(c.get_user_stake(&user(1), id).unwrap().contribution, 100);
}

#[test]
fn deadline_gates_enlistment_only() {
    let (mut c, id) = controller_with_mission(0);
    assert_eq!(c.enlist(user(1), id, 1, 0), Ok(()));
    let late = 24 * 3600 + 1;
    assert_eq!(c.enlist(user(2), id, 1, late), Err(MissionError::MissionExpired));
    assert_eq!(c.add_contribution(&user(1), id, 30), Ok(()));
    assert_eq!(c.get_mission(id).unwrap().current_progress, 30);
}

#[test]
fn negative_contribution_is_refused() {
    let (mut c, id) = controller_with_mission(0);
    assert_eq!(c.enlist(user(1), id, 10, 0), Ok(()));
    assert_eq!(c.add_contribution(&user(1), id, -1), Err(MissionError::InvalidAmount));
    assert_eq!(c.get_mission(id).unwrap().current_progress, 0);
    assert_eq!(c.get_user_stake(&user(1), id).unwrap().contribution, 0);
}

#[test]
fn invalid_mission_amounts_are_refused() {
    let admin = user(b'A');
    let mut c = MissionController::new(admin);
    assert_eq!(c.create_mission(&admin, 0, 50, 24, 7, 0), Err(MissionError::InvalidAmount));
    assert_eq!(c.create_mission(&admin, 100, -1, 24, 7, 0), Err(MissionError::InvalidAmount));
    assert_eq!(c.create_mission(&admin, 100, 0, 24, 7, 0), Ok(1));
}

#[test]
fn contribution_overflow_is_refused() {
    let (mut c, id) = controller_with_mission(0);
    assert_eq!(c.enlist(user(1), id, 1, 0), Ok(()));
    assert_eq!(c.add_contribution(&user(1), id, 10), Ok(()));
    assert_eq!(c.add_contribution(&user(1), id, i128::MAX), Err(MissionError::Overflow));
    assert_eq!(c.get_mission(id).unwrap().current_progress, 10);
}

#[test]
fn price_drop_opens_mission_at_campaign_price() {
    let mut c = MissionController::new(user(b'A'));
    let mut reader = ReflectorReader::new();
    reader.get_price(Some(PriceData { price: 100_000, timestamp: 0 }), 0);
    let benchmark = Some(PriceData { price: 80_000, timestamp: 300 });
    let campaign = Some(PriceData { price: 120_000, timestamp: 300 });
    assert_eq!(c.check_and_create_mission(&mut reader, benchmark, campaign, 500), Ok(Some(1)));
    let m = c.get_mission(1).unwrap();
    assert_eq!(m.trigger_price, 120_000);
    assert_eq!(m.target_liquidity, AUTO_TARGET_LIQUIDITY);
    assert_eq!(m.reward_pool, AUTO_REWARD_POOL);
    assert_eq!(m.deadline, 500 + AUTO_WINDOW);
    assert!(m.active);
    assert_eq!(reader.last, campaign);
}

#[test]
fn small_drop_opens_nothing() {
    let mut c = MissionController::new(user(b'A'));
    let mut reader = ReflectorReader::new();
    reader.get_price(Some(PriceData { price: 100_000, timestamp: 0 }), 0);
    let benchmark = Some(PriceData { price: 90_000, timestamp: 300 });
    let campaign = Some(PriceData { price: 120_000, timestamp: 300 });
    assert_eq!(c.check_and_create_mission(&mut reader, benchmark, campaign, 500), Ok(None));
    assert_eq!(c.get_mission(1), Err(MissionError::NotFound));
    assert_eq!(reader.last, benchmark);
}

#[test]
fn missing_campaign_price_is_oracle_unavailable() {
    let mut c = MissionController::new(user(b'A'));
    let mut reader = ReflectorReader::new();
    let before = Some(PriceData { price: 100_000, timestamp: 0 });
    reader.get_price(before, 0);
    let benchmark = Some(PriceData { price: 50_000, timestamp: 300 });
    assert_eq!(
        c.check_and_create_mission(&mut reader, benchmark, None, 500),
        Err(MissionError::OracleUnavailable)
    );
    assert_eq!(reader.last, before);
    assert_eq!(reader.get_price_history(0, 600), vec![(0, 100_000)]);
    assert_eq!(c.get_mission(1), Err(MissionError::NotFound));
}

#[test]
fn restore_rebuilds_the_same_state() {
    let (mut c, id) = controller_with_mission(0);
    assert_eq!(c.enlist(user(1), id, 5, 0), Ok(()));
    let back = MissionController::restore(c.admin(), c.threshold(), c.missions(), c.stakes()).unwrap();
    assert_eq!(back.missions(), c.missions());
    assert_eq!(back.stakes(), c.stakes());
    assert_eq!(back.get_user_stake(&user(1), id).unwrap().kale_staked, 5);
}

#[test]
fn restore_refuses_inconsistent_parts() {
    let (mut c, id) = controller_with_mission(0);
    assert_eq!(c.enlist(user(1), id, 5, 0), Ok(()));
    let mut missions = c.missions();
    missions[0].participants_count = 2;
    assert!(MissionController::restore(c.admin(), 15, missions, c.stakes()).is_none());
    let mut stakes = c.stakes();
    stakes.push(stakes[0]);
    assert!(MissionController::restore(c.admin(), 15, c.missions(), stakes).is_none());
}

#[test]
fn auto_open_refuses_zero_price() {
    let mut c = MissionController::new(user(b'A'));
    let zero = PriceData { price: 0, timestamp: 1 };
    assert_eq!(c.open_auto_mission(&zero, 1), Err(MissionError::OracleUnavailable));
    let p = PriceData { price: 5, timestamp: 1 };
    assert_eq!(c.open_auto_mission(&p, 1), Ok(1));
}

#[test]
fn negative_amount_on_unknown_mission_or_stake_is_not_found() {
    let (mut c, id) = controller_with_mission(0);
    assert_eq!(c.add_contribution(&user(1), 9, -1), Err(MissionError::NotFound));
    assert_eq!(c.add_contribution(&user(1), id, -1), Err(MissionError::NotFound));
}

#[test]
fn negative_amount_on_completed_mission_is_inactive() {
    let (mut c, id) = controller_with_mission(0);
    assert_eq!(c.enlist(user(1), id, 1, 0), Ok(()));
    assert_eq!(c.add_contribution(&user(1), id, 100), Ok(()));
    assert_eq!(c.add_contribution(&user(1), id, -1), Err(MissionError::MissionInactive));
    let m = c.get_mission(id).unwrap();
    assert!(!m.active);
    assert_eq!(m.current_progress, 100);
}

#[test]
fn stake_reads_back_with_summed_contributions() {
    let (mut c, id) = controller_with_mission(0);
    assert_eq!(c.enlist(user(1), id, 10, 5), Ok(()));
    assert_eq!(c.add_contribution(&user(1), id, 20), Ok(()));
    assert_eq!(c.add_contribution(&user(1), id, 30), Ok(()));
    assert_eq!(c.add_contribution(&user(1), id, 0), Ok(()));
    let s = c.get_user_stake(&user(1), id).unwrap();
    assert_eq!(s.user, user(1));
    assert_eq!(s.mission_id, id);
    assert_eq!(s.kale_staked, 10);
    assert_eq!(s.contribution, 50);
    assert_eq!(s.enlisted_at, 5);
}
