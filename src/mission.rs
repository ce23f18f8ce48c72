//! Missions and stakes: the registry of missions with its id counter, the
//! ledger of per-user stakes, and the operations that keep them in step.

use crate::price::{drop_exceeds, drop_triggered, get_cross_price, sample_or_sentinel, PriceData, ReflectorReader};
use vstd::prelude::*;

verus! {

/// Percentage drop that opens a mission unless configured otherwise.
pub const DEFAULT_DROP_THRESHOLD: u32 = 15;

/// Funding target of an automatically opened mission.
pub const AUTO_TARGET_LIQUIDITY: i128 = 100_000_000_000;

/// Reward pool of an automatically opened mission.
pub const AUTO_REWARD_POOL: i128 = 50_000_000_000;

/// How long an automatically opened mission accepts enlistments.
pub const AUTO_WINDOW: u64 = 86400;

/// Ledger time units in one hour.
pub const SECONDS_PER_HOUR: u64 = 3600;

/// A user, by the 56 characters of its account key.
#[derive(Clone, Copy, Debug, PartialEq, Eq)]
pub struct UserId {
    pub key: [u8; 56],
}

impl UserId {
    /// Whether two ids name the same user.
    pub open spec fn same(self, other: UserId) -> bool {
        self.key@ == other.key@
    }

    /// Compares two ids byte by byte.
    pub fn same_as(&self, other: &UserId) -> (r: bool)
        ensures
            r == self.same(*other),
    {
        let mut i: usize = 0;
        while i < 56
            invariant
                i <= 56,
                self.key@.len() == 56,
                other.key@.len() == 56,
                forall|j: int| 0 <= j < i ==> self.key@[j] == other.key@[j],
            decreases 56 - i,
        {
            if self.key[i] != other.key[i] {
                return false;
            }
            i = i + 1;
        }
        assert(self.key@ =~= other.key@);
        true
    }
}

/// A time-boxed, target-funded campaign.
#[derive(Clone, Copy, Debug, PartialEq, Eq, Structural)]
pub struct Mission {
    pub id: u64,
    pub target_liquidity: i128,
    pub current_progress: i128,
    pub reward_pool: i128,
    pub deadline: u64,
    pub active: bool,
    pub trigger_price: i128,
    pub participants_count: u32,
}

/// One user's deposit and running contribution in one mission.
#[derive(Clone, Copy, Debug, PartialEq, Eq)]
pub struct UserStake {
    pub user: UserId,
    pub mission_id: u64,
    pub kale_staked: i128,
    pub contribution: i128,
    pub enlisted_at: u64,
}

/// Why an operation was refused. A refused operation changes nothing.
#[derive(Clone, Copy, Debug, PartialEq, Eq, Structural)]
pub enum MissionError {
    Unauthorized,
    NotFound,
    MissionInactive,
    MissionExpired,
    AlreadyEnlisted,
    OracleUnavailable,
    InvalidAmount,
    Overflow,
}

/// Whether `s` is the stake of `user` in mission `id`.
pub open spec fn stake_is(s: UserStake, user: UserId, id: u64) -> bool {
    s.user.same(user) && s.mission_id == id
}

/// How many stakes of `stakes` belong to mission `id`.
pub open spec fn stake_count(stakes: Seq<UserStake>, id: u64) -> nat
    decreases stakes.len(),
{
    if stakes.len() == 0 {
        0
    } else {
        stake_count(stakes.drop_last(), id) + if stakes.last().mission_id == id {
            1nat
        } else {
            0nat
        }
    }
}

/// A mission's amounts as they must always be: a positive target, and
/// progress and reward that are not negative.
pub open spec fn amounts_valid(m: Mission) -> bool {
    m.target_liquidity > 0 && m.current_progress >= 0 && m.reward_pool >= 0
}

/// A newly opened mission.
pub open spec fn fresh_mission(
    id: u64,
    target_liquidity: i128,
    reward_pool: i128,
    deadline: u64,
    trigger_price: i128,
) -> Mission {
    Mission {
        id,
        target_liquidity,
        current_progress: 0,
        reward_pool,
        deadline,
        active: true,
        trigger_price,
        participants_count: 0,
    }
}

/// A mission after `amount` more progress: it stays active only while the
/// progress is below the target.
pub open spec fn progressed(m: Mission, amount: int) -> Mission {
    let p = m.current_progress + amount;
    Mission { current_progress: p as i128, active: p < m.target_liquidity, ..m }
}

/// The registry of missions and the ledger of stakes.
pub struct MissionController {
    admin: UserId,
    threshold: u32,
    counter: u64,
    missions: Vec<Mission>,
    stakes: Vec<UserStake>,
}

impl MissionController {
    /// The administrator, the only caller that may open missions by hand.
    pub closed spec fn admin_spec(&self) -> UserId {
        self.admin
    }

    /// The percentage drop that opens a mission automatically.
    pub closed spec fn threshold_spec(&self) -> u32 {
        self.threshold
    }

    /// The last mission id handed out; zero before the first.
    pub closed spec fn counter_spec(&self) -> u64 {
        self.counter
    }

    /// The missions, the one with id `i + 1` at index `i`.
    pub closed spec fn mission_seq(&self) -> Seq<Mission> {
        self.missions@
    }

    /// The stakes, in order of enlistment.
    pub closed spec fn stake_seq(&self) -> Seq<UserStake> {
        self.stakes@
    }

    /// Whether `id` names a mission that was opened.
    pub open spec fn has_mission(&self, id: u64) -> bool {
        1 <= id <= self.counter_spec()
    }

    /// The mission with id `id`.
    pub open spec fn mission(&self, id: u64) -> Mission {
        self.mission_seq()[id - 1]
    }

    /// Whether `user` holds a stake in mission `id`.
    pub open spec fn has_stake(&self, user: UserId, id: u64) -> bool {
        exists|i: int| 0 <= i < self.stake_seq().len() && stake_is(#[trigger] self.stake_seq()[i], user, id)
    }

    /// The state invariant: missions `1..=counter` exist in order, each
    /// stake references one of them, no (user, mission) pair holds two
    /// stakes, and each mission counts exactly its stakes.
    pub open spec fn wf(&self) -> bool {
        &&& self.mission_seq().len() == self.counter_spec()
        &&& forall|i: int| 0 <= i < self.mission_seq().len() ==> (#[trigger] self.mission_seq()[i]).id == i + 1
        &&& forall|i: int| 0 <= i < self.stake_seq().len() ==> self.has_mission(
            (#[trigger] self.stake_seq()[i]).mission_id,
        )
        &&& forall|i: int, j: int|
            0 <= i < j < self.stake_seq().len() ==> !stake_is(
                #[trigger] self.stake_seq()[i],
                (#[trigger] self.stake_seq()[j]).user,
                self.stake_seq()[j].mission_id,
            )
        &&& forall|i: int| 0 <= i < self.mission_seq().len() ==> (#[trigger] self.mission_seq()[i]).participants_count
            == stake_count(self.stake_seq(), (i + 1) as u64)
        &&& forall|i: int| 0 <= i < self.mission_seq().len() ==> amounts_valid(#[trigger] self.mission_seq()[i])
        &&& forall|i: int| 0 <= i < self.stake_seq().len() ==> (#[trigger] self.stake_seq()[i]).contribution >= 0
    }

    /// Whether the state differs from `other` in nothing.
    pub open spec fn same_state(&self, other: &MissionController) -> bool {
        &&& self.admin_spec() == other.admin_spec()
        &&& self.threshold_spec() == other.threshold_spec()
        &&& self.counter_spec() == other.counter_spec()
        &&& self.mission_seq() == other.mission_seq()
        &&& self.stake_seq() == other.stake_seq()
    }

    /// A controller run by `admin`, with no missions and the default
    /// drop threshold.
    pub fn new(admin: UserId) -> (r: MissionController)
        ensures
            r.wf(),
            r.admin_spec() == admin,
            r.threshold_spec() == DEFAULT_DROP_THRESHOLD,
            r.counter_spec() == 0,
            r.mission_seq().len() == 0,
            r.stake_seq().len() == 0,
    {
        MissionController {
            admin,
            threshold: DEFAULT_DROP_THRESHOLD,
            counter: 0,
            missions: Vec::new(),
            stakes: Vec::new(),
        }
    }
}

/// Appending a stake adds one to the count of its own mission only.
proof fn lemma_count_push(s: Seq<UserStake>, x: UserStake, id: u64)
    ensures
        stake_count(s.push(x), id) == stake_count(s, id) + if x.mission_id == id {
            1nat
        } else {
            0nat
        },
{
    assert(s.push(x).drop_last() =~= s);
}

/// No stake of mission `id` means a count of zero.
proof fn lemma_count_absent(s: Seq<UserStake>, id: u64)
    requires
        forall|i: int| 0 <= i < s.len() ==> (#[trigger] s[i]).mission_id != id,
    ensures
        stake_count(s, id) == 0,
    decreases s.len(),
{
    if s.len() > 0 {
        lemma_count_absent(s.drop_last(), id);
    }
}

/// Counts depend on the mission ids of the stakes alone.
proof fn lemma_count_same_ids(s: Seq<UserStake>, t: Seq<UserStake>, id: u64)
    requires
        s.len() == t.len(),
        forall|i: int| 0 <= i < s.len() ==> (#[trigger] s[i]).mission_id == t[i].mission_id,
    ensures
        stake_count(s, id) == stake_count(t, id),
    decreases s.len(),
{
    if s.len() > 0 {
        lemma_count_same_ids(s.drop_last(), t.drop_last(), id);
    }
}

impl MissionController {
    /// The error that `create_mission` gives, if any.
    pub open spec fn create_error(
        &self,
        caller: UserId,
        target_liquidity: i128,
        reward_pool: i128,
        duration_hours: u64,
        now: u64,
    ) -> Option<MissionError> {
        if !caller.same(self.admin_spec()) {
            Some(MissionError::Unauthorized)
        } else if target_liquidity <= 0 || reward_pool < 0 {
            Some(MissionError::InvalidAmount)
        } else if self.counter_spec() == u64::MAX || now + duration_hours * 3600 > u64::MAX {
            Some(MissionError::Overflow)
        } else {
            None
        }
    }

    /// Allocates the next id and stores a fresh mission under it.
    fn open_mission(
        &mut self,
        target_liquidity: i128,
        reward_pool: i128,
        deadline: u64,
        trigger_price: i128,
    ) -> (r: u64)
        requires
            old(self).wf(),
            old(self).counter_spec() < u64::MAX,
            target_liquidity > 0,
            reward_pool >= 0,
        ensures
            final(self).wf(),
            r == old(self).counter_spec() + 1,
            final(self).counter_spec() == r,
            final(self).mission_seq() == old(self).mission_seq().push(
                fresh_mission(r, target_liquidity, reward_pool, deadline, trigger_price),
            ),
            final(self).stake_seq() == old(self).stake_seq(),
            final(self).admin_spec() == old(self).admin_spec(),
            final(self).threshold_spec() == old(self).threshold_spec(),
    {
        let id = self.counter + 1;
        let m = Mission {
            id,
            target_liquidity,
            current_progress: 0,
            reward_pool,
            deadline,
            active: true,
            trigger_price,
            participants_count: 0,
        };
        self.missions.push(m);
        self.counter = id;
        proof {
            assert forall|i: int| 0 <= i < self.stakes@.len() implies (#[trigger] self.stakes@[i]).mission_id
                != id by {
                assert(old(self).has_mission(old(self).stake_seq()[i].mission_id));
            }
            lemma_count_absent(self.stakes@, id);
            assert(self.stake_seq() == old(self).stake_seq());
            assert forall|i: int| 0 <= i < self.missions@.len() implies (#[trigger] self.missions@[i]).id
                == i + 1 by {
                if i < self.missions@.len() - 1 {
                    assert(self.missions@[i] == old(self).missions@[i]);
                }
            }
            assert forall|i: int| 0 <= i < self.stakes@.len() implies self.has_mission(
                (#[trigger] self.stakes@[i]).mission_id,
            ) by {
                assert(old(self).has_mission(old(self).stake_seq()[i].mission_id));
            }
            assert forall|i: int| 0 <= i < self.missions@.len() implies (#[trigger] self.missions@[i]).participants_count
                == stake_count(self.stakes@, (i + 1) as u64) by {
                if i < self.missions@.len() - 1 {
                    assert(self.missions@[i] == old(self).missions@[i]);
                }
            }
        }
        id
    }

    /// Opens a mission with the given parameters on behalf of the
    /// administrator. Its deadline is `duration_hours` after `now`.
    pub fn create_mission(
        &mut self,
        caller: &UserId,
        target_liquidity: i128,
        reward_pool: i128,
        duration_hours: u64,
        trigger_price: i128,
        now: u64,
    ) -> (r: Result<u64, MissionError>)
        requires
            old(self).wf(),
        ensures
            final(self).wf(),
            match old(self).create_error(*caller, target_liquidity, reward_pool, duration_hours, now) {
                Some(e) => r == Err::<u64, MissionError>(e) && final(self).same_state(old(self)),
                None => {
                    &&& r == Ok::<u64, MissionError>((old(self).counter_spec() + 1) as u64)
                    &&& !old(self).has_mission((old(self).counter_spec() + 1) as u64)
                    &&& forall|i: int|
                        0 <= i < old(self).mission_seq().len() ==> (#[trigger] old(self).mission_seq()[i]).id
                            < old(self).counter_spec() + 1
                    &&& final(self).counter_spec() == old(self).counter_spec() + 1
                    &&& final(self).mission_seq() == old(self).mission_seq().push(
                        fresh_mission(
                            (old(self).counter_spec() + 1) as u64,
                            target_liquidity,
                            reward_pool,
                            (now + duration_hours * 3600) as u64,
                            trigger_price,
                        ),
                    )
                    &&& final(self).stake_seq() == old(self).stake_seq()
                    &&& final(self).admin_spec() == old(self).admin_spec()
                    &&& final(self).threshold_spec() == old(self).threshold_spec()
                },
            },
    {
        if !caller.same_as(&self.admin) {
            return Err(MissionError::Unauthorized);
        }
        if target_liquidity <= 0 || reward_pool < 0 {
            return Err(MissionError::InvalidAmount);
        }
        if self.counter == u64::MAX {
            return Err(MissionError::Overflow);
        }
        let deadline = match duration_hours.checked_mul(SECONDS_PER_HOUR) {
            None => return Err(MissionError::Overflow),
            Some(span) => match now.checked_add(span) {
                None => return Err(MissionError::Overflow),
                Some(d) => d,
            },
        };
        Ok(self.open_mission(target_liquidity, reward_pool, deadline, trigger_price))
    }
}

impl MissionController {
    /// The index of the stake of `user` in mission `id`, when there is one.
    pub open spec fn stake_index(&self, user: UserId, id: u64) -> int {
        choose|i: int| 0 <= i < self.stake_seq().len() && stake_is(#[trigger] self.stake_seq()[i], user, id)
    }

    /// The stake of `user` in mission `id`, when there is one.
    pub open spec fn stake(&self, user: UserId, id: u64) -> UserStake {
        self.stake_seq()[self.stake_index(user, id)]
    }

    /// Finds the stake of `user` in mission `id`.
    fn find_stake(&self, user: &UserId, id: u64) -> (r: Option<usize>)
        requires
            self.wf(),
        ensures
            r.is_none() == !self.has_stake(*user, id),
            r.is_some() ==> r.unwrap() == self.stake_index(*user, id),
            r.is_some() ==> r.unwrap() < self.stake_seq().len(),
    {
        let mut i: usize = 0;
        while i < self.stakes.len()
            invariant
                self.wf(),
                i <= self.stakes@.len(),
                forall|j: int| 0 <= j < i ==> !stake_is(#[trigger] self.stakes@[j], *user, id),
            decreases self.stakes@.len() - i,
        {
            if self.stakes[i].mission_id == id && self.stakes[i].user.same_as(user) {
                proof {
                    assert(stake_is(self.stake_seq()[i as int], *user, id));
                    let k = self.stake_index(*user, id);
                    assert(0 <= k < self.stake_seq().len() && stake_is(self.stake_seq()[k], *user, id));
                    if k != i {
                        if k < i {
                            assert(!stake_is(self.stake_seq()[k], *user, id));
                        } else {
                            assert(!stake_is(
                                self.stake_seq()[i as int],
                                self.stake_seq()[k].user,
                                self.stake_seq()[k].mission_id,
                            ));
                        }
                    }
                }
                return Some(i);
            }
            i = i + 1;
        }
        None
    }

    /// The mission with id `mission_id`.
    pub fn get_mission(&self, mission_id: u64) -> (r: Result<Mission, MissionError>)
        requires
            self.wf(),
        ensures
            match r {
                Ok(m) => self.has_mission(mission_id) && m == self.mission(mission_id),
                Err(e) => !self.has_mission(mission_id) && e == MissionError::NotFound,
            },
    {
        if mission_id == 0 || mission_id > self.counter {
            return Err(MissionError::NotFound);
        }
        let n = self.missions.len();
        assert(mission_id - 1 < n);
        Ok(self.missions[(mission_id - 1) as usize])
    }

    /// The stake of `user` in mission `mission_id`.
    pub fn get_user_stake(&self, user: &UserId, mission_id: u64) -> (r: Result<UserStake, MissionError>)
        requires
            self.wf(),
        ensures
            match r {
                Ok(s) => self.has_stake(*user, mission_id) && s == self.stake(*user, mission_id),
                Err(e) => !self.has_stake(*user, mission_id) && e == MissionError::NotFound,
            },
    {
        match self.find_stake(user, mission_id) {
            Some(i) => Ok(self.stakes[i]),
            None => Err(MissionError::NotFound),
        }
    }

    /// The error that `enlist` gives, if any.
    pub open spec fn enlist_error(&self, user: UserId, mission_id: u64, now: u64) -> Option<MissionError> {
        if !self.has_mission(mission_id) {
            Some(MissionError::NotFound)
        } else if !self.mission(mission_id).active {
            Some(MissionError::MissionInactive)
        } else if now > self.mission(mission_id).deadline {
            Some(MissionError::MissionExpired)
        } else if self.has_stake(user, mission_id) {
            Some(MissionError::AlreadyEnlisted)
        } else if self.mission(mission_id).participants_count == u32::MAX {
            Some(MissionError::Overflow)
        } else {
            None
        }
    }

    /// Records the stake of `user` in an active, unexpired mission it has not
    /// joined yet, and counts the new participant.
    pub fn enlist(&mut self, user: UserId, mission_id: u64, kale_amount: i128, now: u64) -> (r: Result<(), MissionError>)
        requires
            old(self).wf(),
        ensures
            final(self).wf(),
            match old(self).enlist_error(user, mission_id, now) {
                Some(e) => r == Err::<(), MissionError>(e) && final(self).same_state(old(self)),
                None => {
                    let m = old(self).mission(mission_id);
                    &&& r is Ok
                    &&& final(self).stake_seq() == old(self).stake_seq().push(
                        UserStake { user, mission_id, kale_staked: kale_amount, contribution: 0, enlisted_at: now },
                    )
                    &&& final(self).mission_seq() == old(self).mission_seq().update(
                        mission_id - 1,
                        Mission { participants_count: (m.participants_count + 1) as u32, ..m },
                    )
                    &&& final(self).counter_spec() == old(self).counter_spec()
                    &&& final(self).admin_spec() == old(self).admin_spec()
                    &&& final(self).threshold_spec() == old(self).threshold_spec()
                },
            },
    {
        if mission_id == 0 || mission_id > self.counter {
            return Err(MissionError::NotFound);
        }
        let n = self.missions.len();
        assert(mission_id - 1 < n);
        let idx = (mission_id - 1) as usize;
        let mut m = self.missions[idx];
        assert(m == old(self).mission(mission_id));
        if !m.active {
            return Err(MissionError::MissionInactive);
        }
        if now > m.deadline {
            return Err(MissionError::MissionExpired);
        }
        if self.find_stake(&user, mission_id).is_some() {
            return Err(MissionError::AlreadyEnlisted);
        }
        if m.participants_count == u32::MAX {
            return Err(MissionError::Overflow);
        }
        let stake = UserStake { user, mission_id, kale_staked: kale_amount, contribution: 0, enlisted_at: now };
        m.participants_count = m.participants_count + 1;
        let ghost old_stakes = self.stakes@;
        let ghost old_missions = self.missions@;
        self.stakes.push(stake);
        self.missions.set(idx, m);
        proof {
            assert forall|k: int| 0 <= k < self.missions@.len() implies (#[trigger] self.missions@[k]).participants_count
                == stake_count(self.stakes@, (k + 1) as u64) by {
                lemma_count_push(old_stakes, stake, (k + 1) as u64);
                if k != idx {
                    assert(self.missions@[k] == old_missions[k]);
                }
            }
            assert forall|i: int, j: int| 0 <= i < j < self.stakes@.len() implies !stake_is(
                #[trigger] self.stakes@[i],
                (#[trigger] self.stakes@[j]).user,
                self.stakes@[j].mission_id,
            ) by {
                if j == old_stakes.len() {
                    assert(!stake_is(old_stakes[i], user, mission_id));
                } else {
                    assert(self.stakes@[i] == old_stakes[i] && self.stakes@[j] == old_stakes[j]);
                }
            }
            assert forall|i: int| 0 <= i < self.missions@.len() implies (#[trigger] self.missions@[i]).id == i + 1 by {
                assert(old_missions[i].id == i + 1);
            }
            assert forall|i: int| 0 <= i < self.stakes@.len() implies self.has_mission(
                (#[trigger] self.stakes@[i]).mission_id,
            ) by {
                if i < old_stakes.len() {
                    assert(old(self).has_mission(old_stakes[i].mission_id));
                }
            }
        }
        Ok(())
    }
}

impl MissionController {
    /// The error that `add_contribution` gives, if any.
    pub open spec fn contribution_error(&self, user: UserId, mission_id: u64, amount: i128) -> Option<MissionError> {
        if !self.has_mission(mission_id) || !self.has_stake(user, mission_id) {
            Some(MissionError::NotFound)
        } else if !self.mission(mission_id).active {
            Some(MissionError::MissionInactive)
        } else if amount < 0 {
            Some(MissionError::InvalidAmount)
        } else if self.mission(mission_id).current_progress + amount < i128::MIN
            || self.mission(mission_id).current_progress + amount > i128::MAX
            || self.stake(user, mission_id).contribution + amount < i128::MIN
            || self.stake(user, mission_id).contribution + amount > i128::MAX {
            Some(MissionError::Overflow)
        } else {
            None
        }
    }

    /// Adds `amount` to an active mission's progress and to the user's
    /// running contribution. Reaching the target completes the mission.
    pub fn add_contribution(&mut self, user: &UserId, mission_id: u64, amount: i128) -> (r: Result<(), MissionError>)
        requires
            old(self).wf(),
        ensures
            final(self).wf(),
            match old(self).contribution_error(*user, mission_id, amount) {
                Some(e) => r == Err::<(), MissionError>(e) && final(self).same_state(old(self)),
                None => {
                    let s = old(self).stake(*user, mission_id);
                    &&& r is Ok
                    &&& final(self).mission_seq() == old(self).mission_seq().update(
                        mission_id - 1,
                        progressed(old(self).mission(mission_id), amount as int),
                    )
                    &&& final(self).stake_seq() == old(self).stake_seq().update(
                        old(self).stake_index(*user, mission_id),
                        UserStake { contribution: (s.contribution + amount) as i128, ..s },
                    )
                    &&& final(self).counter_spec() == old(self).counter_spec()
                    &&& final(self).admin_spec() == old(self).admin_spec()
                    &&& final(self).threshold_spec() == old(self).threshold_spec()
                },
            },
    {
        if mission_id == 0 || mission_id > self.counter {
            return Err(MissionError::NotFound);
        }
        let n = self.missions.len();
        assert(mission_id - 1 < n);
        let idx = (mission_id - 1) as usize;
        let mut m = self.missions[idx];
        let si = match self.find_stake(user, mission_id) {
            None => return Err(MissionError::NotFound),
            Some(i) => i,
        };
        let mut stake = self.stakes[si];
        if !m.active {
            return Err(MissionError::MissionInactive);
        }
        if amount < 0 {
            return Err(MissionError::InvalidAmount);
        }
        let progress = match m.current_progress.checked_add(amount) {
            None => return Err(MissionError::Overflow),
            Some(p) => p,
        };
        let contribution = match stake.contribution.checked_add(amount) {
            None => return Err(MissionError::Overflow),
            Some(c) => c,
        };
        m.current_progress = progress;
        if progress >= m.target_liquidity {
            m.active = false;
        }
        stake.contribution = contribution;
        let ghost old_stakes = self.stakes@;
        let ghost old_missions = self.missions@;
        self.missions.set(idx, m);
        self.stakes.set(si, stake);
        proof {
            assert forall|k: int| 0 <= k < self.missions@.len() implies (#[trigger] self.missions@[k]).participants_count
                == stake_count(self.stakes@, (k + 1) as u64) by {
                lemma_count_same_ids(self.stakes@, old_stakes, (k + 1) as u64);
                assert(old_missions[k].participants_count == stake_count(old_stakes, (k + 1) as u64));
            }
            assert forall|i: int, j: int| 0 <= i < j < self.stakes@.len() implies !stake_is(
                #[trigger] self.stakes@[i],
                (#[trigger] self.stakes@[j]).user,
                self.stakes@[j].mission_id,
            ) by {
                assert(!stake_is(old_stakes[i], old_stakes[j].user, old_stakes[j].mission_id));
            }
            assert forall|i: int| 0 <= i < self.missions@.len() implies (#[trigger] self.missions@[i]).id == i + 1 by {
                assert(old_missions[i].id == i + 1);
            }
            assert forall|i: int| 0 <= i < self.stakes@.len() implies self.has_mission(
                (#[trigger] self.stakes@[i]).mission_id,
            ) by {
                assert(old(self).has_mission(old_stakes[i].mission_id));
            }
        }
        Ok(())
    }

    /// Takes in the feed's answers for the benchmark and the campaign asset
    /// and, when the benchmark fell by at least the configured threshold,
    /// opens a mission at the campaign price with the fixed target, reward
    /// and window. All or nothing: a refusal leaves both states untouched.
    pub fn check_and_create_mission(
        &mut self,
        reader: &mut ReflectorReader,
        benchmark: Option<PriceData>,
        campaign: Option<PriceData>,
        now: u64,
    ) -> (r: Result<Option<u64>, MissionError>)
        requires
            old(self).wf(),
        ensures
            final(self).wf(),
            !drop_triggered(old(reader).last, sample_or_sentinel(benchmark, now), old(self).threshold_spec() as int)
                ==> {
                &&& r == Ok::<Option<u64>, MissionError>(None)
                &&& final(self).same_state(old(self))
                &&& (final(reader).last, final(reader).history@) == old(reader).observed(benchmark)
            },
            drop_triggered(old(reader).last, sample_or_sentinel(benchmark, now), old(self).threshold_spec() as int)
                ==> match campaign {
                Some(c) if c.price != 0 && old(self).counter_spec() < u64::MAX && now + AUTO_WINDOW
                    <= u64::MAX => {
                    let id = (old(self).counter_spec() + 1) as u64;
                    let b = benchmark.unwrap();
                    &&& r == Ok::<Option<u64>, MissionError>(Some(id))
                    &&& !old(self).has_mission(id)
                    &&& forall|i: int| 0 <= i < old(self).mission_seq().len() ==> (#[trigger] old(self).mission_seq()[i]).id < id
                    &&& final(self).counter_spec() == id
                    &&& final(self).mission_seq() == old(self).mission_seq().push(
                        fresh_mission(id, AUTO_TARGET_LIQUIDITY, AUTO_REWARD_POOL, (now + AUTO_WINDOW) as u64, c.price),
                    )
                    &&& final(self).stake_seq() == old(self).stake_seq()
                    &&& final(self).admin_spec() == old(self).admin_spec()
                    &&& final(self).threshold_spec() == old(self).threshold_spec()
                    &&& final(reader).last == Some(c)
                    &&& final(reader).history@ == old(reader).history@.insert(b.timestamp, b.price).insert(
                        c.timestamp,
                        c.price,
                    )
                },
                _ => {
                    &&& r == Err::<Option<u64>, MissionError>(
                        if campaign.is_none() || campaign.unwrap().price == 0 {
                            MissionError::OracleUnavailable
                        } else {
                            MissionError::Overflow
                        },
                    )
                    &&& final(self).same_state(old(self))
                    &&& final(reader).last == old(reader).last
                    &&& final(reader).history@ == old(reader).history@
                },
            },
    {
        let previous = reader.last;
        let current = get_cross_price(benchmark, now);
        if !drop_exceeds(previous, current, self.threshold) {
            reader.get_price(benchmark, now);
            return Ok(None);
        }
        let c = match campaign {
            None => return Err(MissionError::OracleUnavailable),
            Some(c) => c,
        };
        if c.price == 0 {
            return Err(MissionError::OracleUnavailable);
        }
        if self.counter == u64::MAX || now.checked_add(AUTO_WINDOW).is_none() {
            return Err(MissionError::Overflow);
        }
        reader.get_price(benchmark, now);
        reader.get_price(campaign, now);
        match self.open_auto_mission(&c, now) {
            Ok(id) => Ok(Some(id)),
            Err(e) => Err(e),
        }
    }

    /// The error that `open_auto_mission` gives, if any.
    pub open spec fn auto_open_error(&self, campaign: PriceData, now: u64) -> Option<MissionError> {
        if campaign.price == 0 {
            Some(MissionError::OracleUnavailable)
        } else if self.counter_spec() == u64::MAX || now + AUTO_WINDOW > u64::MAX {
            Some(MissionError::Overflow)
        } else {
            None
        }
    }

    /// Opens a mission with the fixed target, reward and window at the
    /// campaign asset's price, once a drop has been detected. A zero price
    /// is "no data" and opens nothing.
    pub fn open_auto_mission(&mut self, campaign: &PriceData, now: u64) -> (r: Result<u64, MissionError>)
        requires
            old(self).wf(),
        ensures
            final(self).wf(),
            match old(self).auto_open_error(*campaign, now) {
                Some(e) => r == Err::<u64, MissionError>(e) && final(self).same_state(old(self)),
                None => {
                    let id = (old(self).counter_spec() + 1) as u64;
                    &&& r == Ok::<u64, MissionError>(id)
                    &&& !old(self).has_mission(id)
                    &&& forall|i: int| 0 <= i < old(self).mission_seq().len() ==> (#[trigger] old(self).mission_seq()[i]).id < id
                    &&& final(self).counter_spec() == id
                    &&& final(self).mission_seq() == old(self).mission_seq().push(
                        fresh_mission(
                            id,
                            AUTO_TARGET_LIQUIDITY,
                            AUTO_REWARD_POOL,
                            (now + AUTO_WINDOW) as u64,
                            campaign.price,
                        ),
                    )
                    &&& final(self).stake_seq() == old(self).stake_seq()
                    &&& final(self).admin_spec() == old(self).admin_spec()
                    &&& final(self).threshold_spec() == old(self).threshold_spec()
                },
            },
    {
        if campaign.price == 0 {
            return Err(MissionError::OracleUnavailable);
        }
        if self.counter == u64::MAX {
            return Err(MissionError::Overflow);
        }
        let deadline = match now.checked_add(AUTO_WINDOW) {
            None => return Err(MissionError::Overflow),
            Some(d) => d,
        };
        Ok(self.open_mission(AUTO_TARGET_LIQUIDITY, AUTO_REWARD_POOL, deadline, campaign.price))
    }
}

/// Whether missions and stakes taken apart from a controller fit together:
/// the controller invariant, with the counter at the last mission.
pub open spec fn parts_wf(missions: Seq<Mission>, stakes: Seq<UserStake>) -> bool {
    &&& forall|i: int| 0 <= i < missions.len() ==> (#[trigger] missions[i]).id == i + 1
    &&& forall|i: int| 0 <= i < stakes.len() ==> 1 <= (#[trigger] stakes[i]).mission_id <= missions.len()
    &&& forall|i: int, j: int|
        0 <= i < j < stakes.len() ==> !stake_is(#[trigger] stakes[i], (#[trigger] stakes[j]).user, stakes[j].mission_id)
    &&& forall|i: int| 0 <= i < missions.len() ==> (#[trigger] missions[i]).participants_count == stake_count(
        stakes,
        (i + 1) as u64,
    )
    &&& forall|i: int| 0 <= i < missions.len() ==> amounts_valid(#[trigger] missions[i])
    &&& forall|i: int| 0 <= i < stakes.len() ==> (#[trigger] stakes[i]).contribution >= 0
}

/// A copy of `v`, element by element.
fn copy_all<T: Copy>(v: &Vec<T>) -> (r: Vec<T>)
    ensures
        r@ == v@,
{
    let mut r: Vec<T> = Vec::new();
    let mut i: usize = 0;
    while i < v.len()
        invariant
            i <= v@.len(),
            r@ == v@.subrange(0, i as int),
        decreases v@.len() - i,
    {
        r.push(v[i]);
        i = i + 1;
        assert(r@ =~= v@.subrange(0, i as int));
    }
    assert(r@ =~= v@);
    r
}

/// Whether each mission carries the id one past its index.
fn ids_in_order(missions: &Vec<Mission>) -> (r: bool)
    ensures
        r == forall|i: int| 0 <= i < missions@.len() ==> (#[trigger] missions@[i]).id == i + 1,
{
    let mut i: usize = 0;
    while i < missions.len()
        invariant
            i <= missions@.len(),
            forall|k: int| 0 <= k < i ==> (#[trigger] missions@[k]).id == k + 1,
        decreases missions@.len() - i,
    {
        if missions[i].id as u128 != i as u128 + 1 {
            return false;
        }
        i = i + 1;
    }
    true
}

/// Whether every stake references a mission id in `1..=n`.
fn stakes_in_range(stakes: &Vec<UserStake>, n: u64) -> (r: bool)
    ensures
        r == forall|i: int| 0 <= i < stakes@.len() ==> 1 <= (#[trigger] stakes@[i]).mission_id <= n,
{
    let mut i: usize = 0;
    while i < stakes.len()
        invariant
            i <= stakes@.len(),
            forall|k: int| 0 <= k < i ==> 1 <= (#[trigger] stakes@[k]).mission_id <= n,
        decreases stakes@.len() - i,
    {
        if stakes[i].mission_id == 0 || stakes[i].mission_id > n {
            return false;
        }
        i = i + 1;
    }
    true
}

/// Whether no (user, mission) pair holds two stakes.
fn stakes_unique(stakes: &Vec<UserStake>) -> (r: bool)
    ensures
        r == forall|i: int, j: int|
            0 <= i < j < stakes@.len() ==> !stake_is(
                #[trigger] stakes@[i],
                (#[trigger] stakes@[j]).user,
                stakes@[j].mission_id,
            ),
{
    let mut j: usize = 0;
    while j < stakes.len()
        invariant
            j <= stakes@.len(),
            forall|a: int, b: int|
                0 <= a < b < j ==> !stake_is(#[trigger] stakes@[a], (#[trigger] stakes@[b]).user, stakes@[b].mission_id),
        decreases stakes@.len() - j,
    {
        let mut i: usize = 0;
        while i < j
            invariant
                i <= j < stakes@.len(),
                forall|a: int, b: int|
                    0 <= a < b < j ==> !stake_is(#[trigger] stakes@[a], (#[trigger] stakes@[b]).user, stakes@[b].mission_id),
                forall|a: int| 0 <= a < i ==> !stake_is(#[trigger] stakes@[a], stakes@[j as int].user, stakes@[j as int].mission_id),
            decreases j - i,
        {
            if stakes[i].mission_id == stakes[j].mission_id && stakes[i].user.same_as(&stakes[j].user) {
                assert(stake_is(stakes@[i as int], stakes@[j as int].user, stakes@[j as int].mission_id));
                return false;
            }
            i = i + 1;
        }
        j = j + 1;
    }
    true
}

/// How many of `stakes` belong to mission `id`.
fn count_stakes(stakes: &Vec<UserStake>, id: u64) -> (r: usize)
    ensures
        r == stake_count(stakes@, id),
{
    let mut r: usize = 0;
    let mut j: usize = 0;
    while j < stakes.len()
        invariant
            j <= stakes@.len(),
            r <= j,
            r == stake_count(stakes@.subrange(0, j as int), id),
        decreases stakes@.len() - j,
    {
        assert(stakes@.subrange(0, j + 1).drop_last() =~= stakes@.subrange(0, j as int));
        if stakes[j].mission_id == id {
            r = r + 1;
        }
        j = j + 1;
    }
    assert(stakes@.subrange(0, j as int) =~= stakes@);
    r
}

/// Whether every mission's amounts are valid and no running contribution
/// is negative.
fn amounts_in_range(missions: &Vec<Mission>, stakes: &Vec<UserStake>) -> (r: bool)
    ensures
        r == ((forall|i: int| 0 <= i < missions@.len() ==> amounts_valid(#[trigger] missions@[i])) && (forall|i: int|
            0 <= i < stakes@.len() ==> (#[trigger] stakes@[i]).contribution >= 0)),
{
    let mut i: usize = 0;
    while i < missions.len()
        invariant
            i <= missions@.len(),
            forall|k: int| 0 <= k < i ==> amounts_valid(#[trigger] missions@[k]),
        decreases missions@.len() - i,
    {
        let m = missions[i];
        if m.target_liquidity <= 0 || m.current_progress < 0 || m.reward_pool < 0 {
            return false;
        }
        i = i + 1;
    }
    let mut j: usize = 0;
    while j < stakes.len()
        invariant
            j <= stakes@.len(),
            forall|k: int| 0 <= k < missions@.len() ==> amounts_valid(#[trigger] missions@[k]),
            forall|k: int| 0 <= k < j ==> (#[trigger] stakes@[k]).contribution >= 0,
        decreases stakes@.len() - j,
    {
        if stakes[j].contribution < 0 {
            return false;
        }
        j = j + 1;
    }
    true
}

/// Whether each mission counts exactly the stakes that reference it.
fn counts_match(missions: &Vec<Mission>, stakes: &Vec<UserStake>) -> (r: bool)
    ensures
        r == forall|i: int| 0 <= i < missions@.len() ==> (#[trigger] missions@[i]).participants_count
            == stake_count(stakes@, (i + 1) as u64),
{
    let mut i: usize = 0;
    while i < missions.len()
        invariant
            i <= missions@.len(),
            forall|k: int| 0 <= k < i ==> (#[trigger] missions@[k]).participants_count == stake_count(
                stakes@,
                (k + 1) as u64,
            ),
        decreases missions@.len() - i,
    {
        let id = (i as u64).wrapping_add(1);
        let n = count_stakes(stakes, id);
        if missions[i].participants_count as usize != n {
            return false;
        }
        i = i + 1;
    }
    true
}

impl MissionController {
    /// The missions, the one with id `i + 1` at index `i`.
    pub fn missions(&self) -> (r: Vec<Mission>)
        ensures
            r@ == self.mission_seq(),
    {
        copy_all(&self.missions)
    }

    /// The stakes, in order of enlistment.
    pub fn stakes(&self) -> (r: Vec<UserStake>)
        ensures
            r@ == self.stake_seq(),
    {
        copy_all(&self.stakes)
    }

    /// The administrator.
    pub fn admin(&self) -> (r: UserId)
        ensures
            r == self.admin_spec(),
    {
        self.admin
    }

    /// The drop threshold, in percent.
    pub fn threshold(&self) -> (r: u32)
        ensures
            r == self.threshold_spec(),
    {
        self.threshold
    }

    /// Rebuilds a controller from parts that `missions` and `stakes` handed
    /// out; parts that do not fit together are refused.
    pub fn restore(admin: UserId, threshold: u32, missions: Vec<Mission>, stakes: Vec<UserStake>) -> (r: Option<
        MissionController,
    >)
        ensures
            r.is_some() == (missions@.len() <= u64::MAX && parts_wf(missions@, stakes@)),
            r.is_some() ==> {
                let c = r.unwrap();
                &&& c.wf()
                &&& c.admin_spec() == admin
                &&& c.threshold_spec() == threshold
                &&& c.counter_spec() == missions@.len()
                &&& c.mission_seq() == missions@
                &&& c.stake_seq() == stakes@
            },
    {
        let n = missions.len();
        if n as u128 > u64::MAX as u128 {
            return None;
        }
        let counter = n as u64;
        if !ids_in_order(&missions) || !stakes_in_range(&stakes, counter) || !stakes_unique(&stakes)
            || !counts_match(&missions, &stakes) || !amounts_in_range(&missions, &stakes) {
            return None;
        }
        Some(MissionController { admin, threshold, counter, missions, stakes })
    }
}

/// The parts of a well-formed controller always fit together, so taking it
/// apart with `missions` and `stakes` and rebuilding it with `restore`
/// succeeds and gives back the same missions, stakes and counter.
pub proof fn lemma_parts_round_trip(c: &MissionController)
    requires
        c.wf(),
    ensures
        c.mission_seq().len() <= u64::MAX,
        parts_wf(c.mission_seq(), c.stake_seq()),
        c.counter_spec() == c.mission_seq().len(),
{
    assert forall|i: int| 0 <= i < c.stake_seq().len() implies 1 <= (#[trigger] c.stake_seq()[i]).mission_id
        <= c.mission_seq().len() by {
        assert(c.has_mission(c.stake_seq()[i].mission_id));
    }
}

/// A pair (user, mission) holds at most one stake, and a user who already
/// holds one cannot enlist again: the attempt is refused, as a duplicate
/// whenever the mission is still open to enlistment.
pub proof fn lemma_single_stake_per_pair(c: &MissionController, user: UserId, mission_id: u64, now: u64)
    requires
        c.wf(),
        c.has_stake(user, mission_id),
    ensures
        c.enlist_error(user, mission_id, now).is_some(),
        c.mission(mission_id).active && now <= c.mission(mission_id).deadline ==> c.enlist_error(
            user,
            mission_id,
            now,
        ) == Some(MissionError::AlreadyEnlisted),
        forall|i: int, j: int|
            0 <= i < j < c.stake_seq().len() ==> !stake_is(
                #[trigger] c.stake_seq()[i],
                (#[trigger] c.stake_seq()[j]).user,
                c.stake_seq()[j].mission_id,
            ),
{
    let i = choose|i: int| 0 <= i < c.stake_seq().len() && stake_is(#[trigger] c.stake_seq()[i], user, mission_id);
    assert(c.has_mission(c.stake_seq()[i].mission_id));
}

/// Contributions never lower a mission's progress nor a user's running
/// contribution: a negative amount is always refused. A contribution that is taken
/// leaves the mission active exactly when its progress is still below the
/// target, so completion happens at the first contribution that reaches it;
/// a completed mission refuses every further contribution and so stays
/// completed.
pub proof fn lemma_progress_monotone(c: &MissionController, user: UserId, mission_id: u64, amount: i128)
    requires
        c.wf(),
    ensures
        amount < 0 ==> c.contribution_error(user, mission_id, amount).is_some(),
        c.contribution_error(user, mission_id, amount).is_none() ==> {
            let m = c.mission(mission_id);
            let n = progressed(m, amount as int);
            let s = c.stake(user, mission_id);
            &&& m.active
            &&& n.current_progress >= m.current_progress
            &&& s.contribution + amount >= s.contribution
            &&& n.active == (n.current_progress < m.target_liquidity)
        },
        c.has_mission(mission_id) && !c.mission(mission_id).active ==> c.contribution_error(
            user,
            mission_id,
            amount,
        ).is_some(),
{
}

/// Each mission counts exactly the stakes that reference it.
pub proof fn lemma_participants_match_stakes(c: &MissionController, mission_id: u64)
    requires
        c.wf(),
        c.has_mission(mission_id),
    ensures
        c.mission(mission_id).participants_count == stake_count(c.stake_seq(), mission_id),
{
    assert(c.mission_seq()[mission_id - 1].participants_count == stake_count(c.stake_seq(), mission_id));
}

/// Mission ids rise strictly with their position and none exceeds the
/// counter, so the next id handed out, one past the counter, is new.
pub proof fn lemma_ids_strictly_increasing(c: &MissionController)
    requires
        c.wf(),
    ensures
        forall|i: int, j: int|
            0 <= i < j < c.mission_seq().len() ==> (#[trigger] c.mission_seq()[i]).id < (#[trigger] c.mission_seq()[j]).id,
        forall|i: int| 0 <= i < c.mission_seq().len() ==> (#[trigger] c.mission_seq()[i]).id <= c.counter_spec(),
{
}

/// A mission stored under the next id reads back with the same fields.
pub proof fn lemma_mission_round_trip(before: &MissionController, after: &MissionController, m: Mission)
    requires
        before.wf(),
        after.counter_spec() == before.counter_spec() + 1,
        after.mission_seq() == before.mission_seq().push(m),
    ensures
        after.has_mission(after.counter_spec()),
        after.mission(after.counter_spec()) == m,
{
}

/// A stake appended to the ledger reads back with the same fields.
pub proof fn lemma_stake_round_trip(after: &MissionController, before: Seq<UserStake>, s: UserStake)
    requires
        after.wf(),
        after.stake_seq() == before.push(s),
    ensures
        after.has_stake(s.user, s.mission_id),
        after.stake(s.user, s.mission_id) == s,
{
    let last = before.len() as int;
    assert(stake_is(after.stake_seq()[last], s.user, s.mission_id));
    let k = after.stake_index(s.user, s.mission_id);
    if k != last {
        assert(!stake_is(after.stake_seq()[k], after.stake_seq()[last].user, after.stake_seq()[last].mission_id));
    }
}

/// A stake reads back after a contribution with its running total raised by
/// the amount and every other field unchanged; chained over a series of
/// contributions, the total is their sum.
pub proof fn lemma_contribution_read_back(
    before: &MissionController,
    after: &MissionController,
    user: UserId,
    mission_id: u64,
    amount: i128,
)
    requires
        before.wf(),
        after.wf(),
        before.has_stake(user, mission_id),
        after.stake_seq() == before.stake_seq().update(
            before.stake_index(user, mission_id),
            UserStake {
                contribution: (before.stake(user, mission_id).contribution + amount) as i128,
                ..before.stake(user, mission_id)
            },
        ),
    ensures
        after.has_stake(user, mission_id),
        after.stake(user, mission_id) == (UserStake {
            contribution: (before.stake(user, mission_id).contribution + amount) as i128,
            ..before.stake(user, mission_id)
        }),
{
    let k = before.stake_index(user, mission_id);
    assert(stake_is(before.stake_seq()[k], user, mission_id));
    assert(stake_is(after.stake_seq()[k], user, mission_id));
    let j = after.stake_index(user, mission_id);
    if j != k {
        if j < k {
            assert(!stake_is(after.stake_seq()[j], after.stake_seq()[k].user, after.stake_seq()[k].mission_id));
        } else {
            assert(!stake_is(after.stake_seq()[k], after.stake_seq()[j].user, after.stake_seq()[j].mission_id));
        }
    }
}

} // verus!
