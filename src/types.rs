use vstd::prelude::*;

verus! {

pub type Fault = String;

pub type Username = String;

/// A named consequence together with its magnitude.
#[derive(Debug, Clone)]
pub struct Punishment {
    pub name: String,
    pub amount: u64,
}

/// Mathematical value of a [`Punishment`].
pub struct PunishmentModel {
    pub name: Seq<char>,
    pub amount: u64,
}

impl View for Punishment {
    type V = PunishmentModel;

    open spec fn view(&self) -> PunishmentModel {
        PunishmentModel { name: self.name@, amount: self.amount }
    }
}

/// A person whose faults are counted, overall and in the current period.
#[derive(Debug, Clone)]
pub struct User {
    pub name: Username,
    pub faults_overall: u32,
    pub faults_current: u32,
}

/// Mathematical value of a [`User`].
pub struct UserModel {
    pub name: Seq<char>,
    pub faults_overall: u32,
    pub faults_current: u32,
}

impl View for User {
    type V = UserModel;

    open spec fn view(&self) -> UserModel {
        UserModel {
            name: self.name@,
            faults_overall: self.faults_overall,
            faults_current: self.faults_current,
        }
    }
}

impl User {
    /// A user with no faults yet.
    pub fn new(name: String) -> (r: Self)
        ensures
            r@ == (UserModel { name: name@, faults_overall: 0, faults_current: 0 }),
    {
        User { name: name, faults_overall: 0, faults_current: 0 }
    }

    /// Counts one more fault, both overall and in the current period.
    pub fn increment_faults(&mut self)
        requires
            old(self).faults_current < u32::MAX,
            old(self).faults_overall < u32::MAX,
        ensures
            final(self)@ == (UserModel {
                name: old(self)@.name,
                faults_overall: (old(self).faults_overall + 1) as u32,
                faults_current: (old(self).faults_current + 1) as u32,
            }),
    {
        self.faults_current = self.faults_current + 1;
        self.faults_overall = self.faults_overall + 1;
    }
}

/// A moment in time: seconds since the Unix epoch, the sub-second part, and
/// the local offset from UTC in effect then.
#[derive(Debug, Clone, Copy, PartialEq, Eq)]
pub struct Timestamp {
    pub secs: i64,
    pub nanos: u32,
    pub offset_secs: i32,
}

/// One punishment handed out: who, for what, with which scaled amount.
#[derive(Debug, Clone)]
pub struct HistoryEntry {
    pub datetime: Timestamp,
    pub username: String,
    pub fault: String,
    pub punishment: Punishment,
}

/// Mathematical value of a [`HistoryEntry`].
pub struct HistoryModel {
    pub datetime: Timestamp,
    pub username: Seq<char>,
    pub fault: Seq<char>,
    pub punishment: PunishmentModel,
}

impl View for HistoryEntry {
    type V = HistoryModel;

    open spec fn view(&self) -> HistoryModel {
        HistoryModel {
            datetime: self.datetime,
            username: self.username@,
            fault: self.fault@,
            punishment: self.punishment@,
        }
    }
}

/// Why a punishment could not be handed out.
#[derive(Debug, Clone, Copy, PartialEq, Eq)]
pub enum KarmaError {
    /// No user of that name is registered.
    UserNotFound,
    /// The user's fault counters are already at their largest value.
    FaultCountOverflow,
    /// No punishment is registered to choose from.
    NoPunishments,
}

/// A command given to the executor.
#[derive(Debug)]
pub enum Mode {
    Add(Add),
    List(List),
    Configure(Setting),
    Punish(Punish),
}

/// What to register.
#[derive(Debug)]
pub enum Add {
    Fault(Fault),
    Punishment(Punishment),
    User(User),
}

/// What to show.
#[derive(Debug)]
pub enum List {
    Faults,
    Punishments,
    Users,
    /// The history of one user, or of everyone for `all` in any case.
    History(Username),
}

/// What to configure.
#[derive(Debug)]
pub enum Setting {
    /// The coefficient's decimal text, such as `"1.5"`.
    Coefficient(String),
}

/// Punish `user` for `fault` with the given severity.
#[derive(Debug)]
pub struct Punish {
    pub user: String,
    pub fault: String,
    pub severity: u16,
}

} // verus!
