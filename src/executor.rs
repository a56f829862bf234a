use vstd::prelude::*;
use rand::Rng;
use crate::coefficient::{amount_formula, coefficient_of, scaled_amount, Coefficient};
use crate::storage::{
    bumped, counters_full, faults_view, history_view, punishments_view, users_view, insert_new, keys, fault_key, punishment_key, user_key,
    value_key, Storage, StorageModel,
};
use crate::order::{is_name_order, name_order, texts};
use crate::storage::values_set;
use crate::types::{
    Add, HistoryEntry, HistoryModel, KarmaError, List, Mode, Punish, Punishment, Setting, Timestamp,
    UserModel,
};

verus! {

/// Relies on rand::Rng::gen_range on the thread-local generator: a value
/// drawn from `lo..hi`, which must not be empty.
#[verifier::external_body]
fn random_below(lo: u64, hi: u64) -> (r: u64)
    requires
        lo < hi,
    ensures
        lo <= r < hi,
{
    rand::thread_rng().gen_range(lo..hi)
}

/// Relies on chrono::Local::now: the current time, its sub-second part
/// (past a billion only within a leap second) and the local offset, which
/// chrono keeps within a day.
#[verifier::external_body]
fn now() -> (r: Timestamp)
    ensures
        r.nanos < 2_000_000_000,
        -86_400 < r.offset_secs < 86_400,
{
    let t = chrono::Local::now();
    Timestamp {
        secs: t.timestamp(),
        nanos: t.timestamp_subsec_nanos(),
        offset_secs: t.offset().local_minus_utc(),
    }
}

/// The text of the setting `name` in `values`, if set.
pub open spec fn setting(values: Seq<(Seq<char>, Seq<char>)>, name: Seq<char>) -> Option<Seq<char>> {
    if exists|j: int| 0 <= j < values.len() && (#[trigger] values[j]).0 == name {
        let j = choose|j: int| 0 <= j < values.len() && (#[trigger] values[j]).0 == name;
        Some(values[j].1)
    } else {
        None
    }
}

pub open spec fn unit_coefficient() -> Coefficient {
    Coefficient { negative: false, digits: 1, scale: 0 }
}

/// The coefficient in effect: the `coefficient` setting where it is set
/// and reads as one, else one.
pub open spec fn coefficient_setting(values: Seq<(Seq<char>, Seq<char>)>) -> Coefficient {
    match setting(values, "coefficient"@) {
        Some(t) => match coefficient_of(t) {
            Some(c) => c,
            None => unit_coefficient(),
        },
        None => unit_coefficient(),
    }
}

/// `e` is a punishment that may be handed to `user` for `fault` in state
/// `m`: one of the known punishments, scaled by the severity, the
/// coefficient in effect and the user's fault count in the current period
/// once this fault is counted.
pub open spec fn is_punishment_for(
    m: StorageModel,
    user: Seq<char>,
    fault: Seq<char>,
    severity: u16,
    e: HistoryModel,
) -> bool {
    &&& e.username == user
    &&& e.fault == fault
    &&& exists|i: int, j: int|
        0 <= i < m.punishments.len() && 0 <= j < m.users.len() && m.users[j].name == user
            && e.punishment.name == (#[trigger] m.punishments[i]).name && e.punishment.amount
            == amount_formula(
            m.punishments[i].amount,
            severity,
            coefficient_setting(m.values),
            bumped(#[trigger] m.users[j]).faults_current,
        )
}

/// The state once `user` was punished for `fault` with `e`.
pub open spec fn after_punishment(
    m: StorageModel,
    user: Seq<char>,
    fault: Seq<char>,
    e: HistoryModel,
) -> StorageModel {
    StorageModel {
        users: m.users.map_values(
            |u: UserModel|
                if u.name == user {
                    bumped(u)
                } else {
                    u
                },
        ),
        faults: insert_new(m.faults, fault, fault_key()),
        history: m.history.push(e),
        ..m
    }
}

pub uninterp spec fn lower_of(s: Seq<char>) -> Seq<char>;

/// Relies on str::to_lowercase: the lower-case form of a text depends on its
/// characters alone.
#[verifier::external_body]
fn lowercase(s: &str) -> (r: String)
    ensures
        r@ == lower_of(s@),
{
    s.to_lowercase()
}

/// Whether an entry of the user whose lowered name is `name_lower` is
/// listed for the request `who`, lowered to `who_lower`: every entry is
/// listed for `all` in any case, else those whose lowered name is `who`.
pub open spec fn is_shown(who_lower: Seq<char>, who: Seq<char>, name_lower: Seq<char>) -> bool {
    who_lower == "all"@ || name_lower == who
}

/// Positions of the entries of `h` listed for the request `who`, in order.
pub open spec fn shown_positions(h: Seq<HistoryModel>, who: Seq<char>) -> Seq<usize>
    decreases h.len(),
{
    if h.len() == 0 {
        Seq::empty()
    } else {
        let rest = shown_positions(h.drop_last(), who);
        if is_shown(lower_of(who), who, lower_of(h.last().username)) {
            rest.push((h.len() - 1) as usize)
        } else {
            rest
        }
    }
}

/// `r` holds the positions of the items that listing `l` shows in state
/// `m`: every user, punishment or fault ordered by name, or the history
/// entries listed for a request, oldest first.
pub open spec fn is_listing(m: StorageModel, l: List, r: Seq<usize>) -> bool {
    match l {
        List::Faults => is_name_order(keys(m.faults, fault_key()), r),
        List::Punishments => is_name_order(keys(m.punishments, punishment_key()), r),
        List::Users => is_name_order(keys(m.users, user_key()), r),
        List::History(who) => r == shown_positions(m.history, who@),
    }
}

/// Whether an entry is listed, given the request `who`, its lowered form
/// and the lowered name of the entry's user.
pub fn entry_shown(who_lower: &str, who: &str, name_lower: &str) -> (r: bool)
    ensures
        r == is_shown(who_lower@, who@, name_lower@),
{
    let all = "all".to_owned();
    let lowered = who_lower.to_owned();
    lowered == all || name_lower.to_owned() == who.to_owned()
}

/// What became of a request to punish `user` for `fault`, from state `m`
/// to state `m2`: the failures and when each comes, and on success an
/// entry as [`is_punishment_for`] describes, counted and logged.
pub open spec fn punish_outcome(
    m: StorageModel,
    m2: StorageModel,
    user: Seq<char>,
    fault: Seq<char>,
    severity: u16,
    r: Result<HistoryModel, KarmaError>,
) -> bool {
    &&& r == Err::<HistoryModel, KarmaError>(KarmaError::UserNotFound) <==> !keys(
        m.users,
        user_key(),
    ).contains(user)
    &&& r == Err::<HistoryModel, KarmaError>(KarmaError::FaultCountOverflow) <==> counters_full(
        m.users,
        user,
    )
    &&& r == Err::<HistoryModel, KarmaError>(KarmaError::NoPunishments) <==> keys(
        m.users,
        user_key(),
    ).contains(user) && !counters_full(m.users, user) && m.punishments.len() == 0
    &&& r is Err ==> m2 == m
    &&& r matches Ok(e) ==> is_punishment_for(m, user, fault, severity, e) && m2 == after_punishment(
        m,
        user,
        fault,
        e,
    )
}

/// What a command reports back.
#[derive(Debug)]
pub enum Outcome {
    /// A fault was offered: whether it was new.
    FaultAdded(bool),
    /// A punishment was offered.
    PunishmentAdded,
    /// A user was offered.
    UserAdded,
    /// Positions of the items to show, in the collection listed.
    Listed(Vec<usize>),
    /// A setting was changed.
    Configured,
    /// A punishment was handed out.
    Punished(HistoryEntry),
}

/// The state once `a` was offered to `m`: an item whose key is already
/// known is ignored.
pub open spec fn added(m: StorageModel, a: Add) -> StorageModel {
    match a {
        Add::Fault(f) => StorageModel { faults: insert_new(m.faults, f@, fault_key()), ..m },
        Add::Punishment(p) => StorageModel {
            punishments: insert_new(m.punishments, p@, punishment_key()),
            ..m
        },
        Add::User(u) => StorageModel { users: insert_new(m.users, u@, user_key()), ..m },
    }
}

/// What offering `a` to `m` reports.
pub open spec fn add_outcome(m: StorageModel, a: Add) -> Outcome {
    match a {
        Add::Fault(f) => Outcome::FaultAdded(!keys(m.faults, fault_key()).contains(f@)),
        Add::Punishment(_) => Outcome::PunishmentAdded,
        Add::User(_) => Outcome::UserAdded,
    }
}

pub open spec fn punished_view(r: Result<Outcome, KarmaError>) -> Result<HistoryModel, KarmaError> {
    match r {
        Ok(Outcome::Punished(e)) => Ok(e@),
        Ok(_) => Err(KarmaError::UserNotFound),
        Err(x) => Err(x),
    }
}

/// Delay in milliseconds before frame `i` of a spin of `rotations` frames:
/// from 20 rising evenly towards 500, rounded down.
pub open spec fn spin_delay(i: nat, rotations: nat) -> nat
    recommends
        rotations > 0,
{
    (20 * rotations + 480 * i) / rotations
}

/// Delay in milliseconds before frame `i` of a spin of `rotations` frames.
pub fn spin_delay_ms(i: u32, rotations: u32) -> (r: u64)
    requires
        i < rotations,
    ensures
        r == spin_delay(i as nat, rotations as nat),
{
    (20 * rotations as u64 + 480 * i as u64) / rotations as u64
}

/// How many frames a spin shows: at least 10, fewer than 100.
pub fn spin_rotations() -> (r: u32)
    ensures
        10 <= r < 100,
{
    random_below(10, 100) as u32
}

fn copy_entry(e: &HistoryEntry) -> (r: HistoryEntry)
    ensures
        r@ == e@,
{
    HistoryEntry {
        datetime: e.datetime,
        username: e.username.clone(),
        fault: e.fault.clone(),
        punishment: Punishment { name: e.punishment.name.clone(), amount: e.punishment.amount },
    }
}

/// Carries out commands on a state held in memory.
pub struct Executor {
    storage: Storage,
}

impl Executor {
    pub closed spec fn model(&self) -> StorageModel {
        self.storage@
    }

    pub fn new(storage: Storage) -> (r: Self)
        ensures
            r.model() == storage@,
    {
        Executor { storage }
    }

    /// The state as it stands.
    pub fn storage(&self) -> (r: &Storage)
        ensures
            r@ == self.model(),
    {
        &self.storage
    }

    /// Counts a fault for `p.user`, registers `p.fault`, picks one of the
    /// known punishments at random, scales its amount and logs the result.
    pub fn process_punish(&mut self, p: Punish) -> (r: Result<HistoryEntry, KarmaError>)
        requires
            old(self).model().wf(),
        ensures
            final(self).model().wf(),
            punish_outcome(
                old(self).model(),
                final(self).model(),
                p.user@,
                p.fault@,
                p.severity,
                match r {
                    Ok(e) => Ok(e@),
                    Err(x) => Err(x),
                },
            ),
    {
        let ghost m = self.storage@;
        let current: u32;
        let ghost mut ui: int = 0;
        match self.storage.get_user_by_name(p.user.as_str()) {
            None => {
                proof {
                    if counters_full(m.users, p.user@) {
                        let j = choose|j: int|
                            0 <= j < m.users.len() && (#[trigger] m.users[j]).name == p.user@ && (
                            m.users[j].faults_current == u32::MAX || m.users[j].faults_overall
                                == u32::MAX);
                        assert(keys(m.users, user_key())[j] == p.user@);
                    }
                }
                return Err(KarmaError::UserNotFound);
            },
            Some(u) => {
                let ghost i = choose|i: int| 0 <= i < m.users.len() && m.users[i] == u@;
                proof {
                    assert forall|j: int|
                        0 <= j < m.users.len() && (#[trigger] m.users[j]).name == p.user@ implies j
                        == i by {
                        assert(keys(m.users, user_key())[j] == keys(m.users, user_key())[i]);
                    }
                }
                if u.faults_current == u32::MAX || u.faults_overall == u32::MAX {
                    return Err(KarmaError::FaultCountOverflow);
                }
                current = u.faults_current + 1;
                proof {
                    assert(current == bumped(m.users[i]).faults_current);
                    ui = i;
                }
            },
        }
        let n = self.storage.punishments().len();
        if n == 0 {
            return Err(KarmaError::NoPunishments);
        }
        let coefficient = self.coefficient();
        let k = random_below(0, n as u64) as usize;
        let chosen = &self.storage.punishments()[k];
        let amount = scaled_amount(chosen.amount, p.severity, coefficient, current);
        let entry = HistoryEntry {
            datetime: now(),
            username: p.user.clone(),
            fault: p.fault.clone(),
            punishment: Punishment { name: chosen.name.clone(), amount },
        };
        proof {
            assert(m.punishments[k as int] == chosen@);
            assert(is_punishment_for(m, p.user@, p.fault@, p.severity, entry@)) by {
                assert(m.users[ui].name == p.user@);
                assert(entry@.punishment.name == m.punishments[k as int].name);
            }
        }
        let incremented = self.storage.increment_faults(p.user.as_str());
        proof {
            assert(keys(m.users, user_key())[ui] == p.user@);
            if counters_full(m.users, p.user@) {
                let j = choose|j: int|
                    0 <= j < m.users.len() && (#[trigger] m.users[j]).name == p.user@ && (
                    m.users[j].faults_current == u32::MAX || m.users[j].faults_overall
                        == u32::MAX);
                assert(j == ui);
            }
            assert(incremented is Ok);
        }
        self.storage.add_fault(p.fault);
        self.storage.log(copy_entry(&entry));
        Ok(entry)
    }

    /// The coefficient in effect.
    fn coefficient(&self) -> (c: Coefficient)
        requires
            self.model().wf(),
        ensures
            c == coefficient_setting(self.model().values),
            c.wf(),
    {
        let ghost vs = self.storage@.values;
        match self.storage.value("coefficient") {
            Some(t) => {
                proof {
                    let i = choose|i: int| 0 <= i < vs.len() && vs[i] == ("coefficient"@, t@);
                    assert(vs[i].0 == "coefficient"@);
                    let j = choose|j: int| 0 <= j < vs.len() && (#[trigger] vs[j]).0 == "coefficient"@;
                    assert(keys(vs, value_key())[j] == keys(vs, value_key())[i]);
                    assert(setting(vs, "coefficient"@) == Some(t@));
                }
                match Coefficient::parse(t.as_str()) {
                    Some(c) => c,
                    None => Coefficient::one(),
                }
            },
            None => {
                proof {
                    if exists|j: int| 0 <= j < vs.len() && (#[trigger] vs[j]).0 == "coefficient"@ {
                        let j = choose|j: int| 0 <= j < vs.len() && (#[trigger] vs[j]).0 == "coefficient"@;
                        assert(keys(vs, value_key())[j] == "coefficient"@);
                    }
                }
                Coefficient::one()
            },
        }
    }
}

impl Executor {
    /// Registers a fault, a punishment or a user.
    pub fn process_add(&mut self, add: Add) -> (r: Outcome)
        requires
            old(self).model().wf(),
        ensures
            final(self).model().wf(),
            r == add_outcome(old(self).model(), add),
            final(self).model() == added(old(self).model(), add),
    {
        match add {
            Add::Fault(f) => Outcome::FaultAdded(self.storage.add_fault(f)),
            Add::Punishment(p) => {
                self.storage.add_punishment(p);
                Outcome::PunishmentAdded
            },
            Add::User(u) => {
                self.storage.add_user(u);
                Outcome::UserAdded
            },
        }
    }

    /// Positions of the history entries listed for `who`.
    pub fn history_positions(&self, who: &str) -> (r: Vec<usize>)
        ensures
            r@ == shown_positions(self.model().history, who@),
    {
        let h = self.storage.history();
        let who_lower = lowercase(who);
        let mut r: Vec<usize> = Vec::new();
        let mut i: usize = 0;
        while i < h.len()
            invariant
                i <= h.len(),
                history_view(h@) == self.model().history,
                who_lower@ == lower_of(who@),
                r@ == shown_positions(self.model().history.take(i as int), who@),
            decreases h.len() - i,
        {
            let name_lower = lowercase(h[i].username.as_str());
            proof {
                let hm = self.model().history;
                assert(hm.take(i + 1).drop_last() =~= hm.take(i as int));
                assert(hm.take(i + 1).last() == h@[i as int]@);
            }
            if entry_shown(who_lower.as_str(), who, name_lower.as_str()) {
                r.push(i);
            }
            i = i + 1;
        }
        proof {
            assert(self.model().history.take(i as int) =~= self.model().history);
        }
        r
    }

    /// Positions of the items a listing shows.
    pub fn process_list(&self, l: List) -> (r: Vec<usize>)
        requires
            self.model().wf(),
        ensures
            is_listing(self.model(), l, r@),
    {
        let ghost m = self.model();
        let mut names: Vec<String> = Vec::new();
        match &l {
            List::Faults => {
                let fs = self.storage.faults();
                let mut i: usize = 0;
                while i < fs.len()
                    invariant
                        i <= fs.len(),
                        faults_view(fs@) == m.faults,
                        texts(names@) == keys(m.faults, fault_key()).take(i as int),
                        names@.len() == i,
                    decreases fs.len() - i,
                {
                    let c = fs[i].clone();
                    let ghost prev = names@;
                    names.push(c);
                    proof {
                        assert(c@ == keys(m.faults, fault_key())[i as int]);
                        assert forall|j: int| 0 <= j < i + 1 implies #[trigger] texts(names@)[j]
                            == keys(m.faults, fault_key()).take(i + 1)[j] by {
                            if j < i {
                                assert(names@[j] == prev[j]);
                                assert(texts(prev)[j] == keys(m.faults, fault_key()).take(i as int)[j]);
                            }
                        }
                    }
                    proof {
                        assert(texts(names@) =~= keys(m.faults, fault_key()).take(i + 1));
                    }
                    i = i + 1;
                }
                proof {
                    assert(keys(m.faults, fault_key()).take(i as int) =~= keys(m.faults, fault_key()));
                }
            },
            List::Punishments => {
                let ps = self.storage.punishments();
                let mut i: usize = 0;
                while i < ps.len()
                    invariant
                        i <= ps.len(),
                        punishments_view(ps@) == m.punishments,
                        texts(names@) == keys(m.punishments, punishment_key()).take(i as int),
                        names@.len() == i,
                    decreases ps.len() - i,
                {
                    let c = ps[i].name.clone();
                    let ghost prev = names@;
                    names.push(c);
                    proof {
                        assert(c@ == keys(m.punishments, punishment_key())[i as int]);
                        assert forall|j: int| 0 <= j < i + 1 implies #[trigger] texts(names@)[j]
                            == keys(m.punishments, punishment_key()).take(i + 1)[j] by {
                            if j < i {
                                assert(names@[j] == prev[j]);
                                assert(texts(prev)[j] == keys(m.punishments, punishment_key()).take(i as int)[j]);
                            }
                        }
                    }
                    proof {
                        assert(texts(names@) =~= keys(m.punishments, punishment_key()).take(i + 1));
                    }
                    i = i + 1;
                }
                proof {
                    assert(keys(m.punishments, punishment_key()).take(i as int) =~= keys(m.punishments, punishment_key()));
                }
            },
            List::Users => {
                let us = self.storage.users();
                let mut i: usize = 0;
                while i < us.len()
                    invariant
                        i <= us.len(),
                        users_view(us@) == m.users,
                        texts(names@) == keys(m.users, user_key()).take(i as int),
                        names@.len() == i,
                    decreases us.len() - i,
                {
                    let c = us[i].name.clone();
                    let ghost prev = names@;
                    names.push(c);
                    proof {
                        assert(c@ == keys(m.users, user_key())[i as int]);
                        assert forall|j: int| 0 <= j < i + 1 implies #[trigger] texts(names@)[j]
                            == keys(m.users, user_key()).take(i + 1)[j] by {
                            if j < i {
                                assert(names@[j] == prev[j]);
                                assert(texts(prev)[j] == keys(m.users, user_key()).take(i as int)[j]);
                            }
                        }
                    }
                    proof {
                        assert(texts(names@) =~= keys(m.users, user_key()).take(i + 1));
                    }
                    i = i + 1;
                }
                proof {
                    assert(keys(m.users, user_key()).take(i as int) =~= keys(m.users, user_key()));
                }
            },
            List::History(who) => {
                return self.history_positions(who.as_str());
            },
        }
        name_order(&names)
    }

    /// Changes a setting.
    pub fn process_set(&mut self, set: Setting)
        requires
            old(self).model().wf(),
        ensures
            final(self).model().wf(),
            match set {
                Setting::Coefficient(t) => final(self).model() == (StorageModel {
                    values: values_set(old(self).model().values, "coefficient"@, t@),
                    ..old(self).model()
                }),
            },
    {
        match set {
            Setting::Coefficient(t) => self.storage.set_value("coefficient".to_owned(), t),
        }
    }

    /// Carries out one command on the state.
    pub fn execute(&mut self, mode: Mode) -> (r: Result<Outcome, KarmaError>)
        requires
            old(self).model().wf(),
        ensures
            final(self).model().wf(),
            match mode {
                Mode::Add(a) => r == Ok::<Outcome, KarmaError>(add_outcome(old(self).model(), a))
                    && final(self).model() == added(old(self).model(), a),
                Mode::List(l) => r matches Ok(Outcome::Listed(v)) && is_listing(
                    old(self).model(),
                    l,
                    v@,
                ) && final(self).model() == old(self).model(),
                Mode::Configure(Setting::Coefficient(t)) => r == Ok::<Outcome, KarmaError>(
                    Outcome::Configured,
                ) && final(self).model() == (StorageModel {
                    values: values_set(old(self).model().values, "coefficient"@, t@),
                    ..old(self).model()
                }),
                Mode::Punish(p) => (r is Err || r matches Ok(Outcome::Punished(_))) && punish_outcome(
                    old(self).model(),
                    final(self).model(),
                    p.user@,
                    p.fault@,
                    p.severity,
                    punished_view(r),
                ),
            },
    {
        match mode {
            Mode::Add(a) => Ok(self.process_add(a)),
            Mode::List(l) => Ok(Outcome::Listed(self.process_list(l))),
            Mode::Configure(set) => {
                self.process_set(set);
                Ok(Outcome::Configured)
            },
            Mode::Punish(p) => match self.process_punish(p) {
                Ok(e) => Ok(Outcome::Punished(e)),
                Err(x) => Err(x),
            },
        }
    }

    /// Which punishment a frame of the spin shows: one of the known ones,
    /// at random.
    pub fn spin_frame(&self) -> (r: usize)
        requires
            self.model().punishments.len() > 0,
        ensures
            r < self.model().punishments.len(),
    {
        random_below(0, self.storage.punishments().len() as u64) as usize
    }
}

} // verus!
