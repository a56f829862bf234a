use vstd::prelude::*;
use crate::types::{
    Fault, HistoryEntry, HistoryModel, KarmaError, Punishment, PunishmentModel, User, UserModel,
};

verus! {

/// Mathematical value of a [`Storage`]: every collection in the order in
/// which its items were added.
pub struct StorageModel {
    pub users: Seq<UserModel>,
    pub faults: Seq<Seq<char>>,
    pub punishments: Seq<PunishmentModel>,
    pub values: Seq<(Seq<char>, Seq<char>)>,
    pub history: Seq<HistoryModel>,
}

pub open spec fn user_key() -> spec_fn(UserModel) -> Seq<char> {
    |u: UserModel| u.name
}

pub open spec fn fault_key() -> spec_fn(Seq<char>) -> Seq<char> {
    |f: Seq<char>| f
}

pub open spec fn punishment_key() -> spec_fn(PunishmentModel) -> Seq<char> {
    |p: PunishmentModel| p.name
}

pub open spec fn value_key() -> spec_fn((Seq<char>, Seq<char>)) -> Seq<char> {
    |kv: (Seq<char>, Seq<char>)| kv.0
}

/// The keys of `s`, in order.
pub open spec fn keys<A>(s: Seq<A>, key: spec_fn(A) -> Seq<char>) -> Seq<Seq<char>> {
    s.map_values(key)
}

/// `s` with every item whose key was seen earlier left out.
pub open spec fn keep_first<A>(s: Seq<A>, key: spec_fn(A) -> Seq<char>) -> Seq<A>
    decreases s.len(),
{
    if s.len() == 0 {
        s
    } else {
        let d = keep_first(s.drop_last(), key);
        if keys(d, key).contains(key(s.last())) {
            d
        } else {
            d.push(s.last())
        }
    }
}

/// `s` once `item` was offered to it: appended when its key is new,
/// ignored otherwise.
pub open spec fn insert_new<A>(s: Seq<A>, item: A, key: spec_fn(A) -> Seq<char>) -> Seq<A> {
    if keys(s, key).contains(key(item)) {
        s
    } else {
        s.push(item)
    }
}

/// A user with one more fault, overall and in the current period.
pub open spec fn bumped(u: UserModel) -> UserModel {
    UserModel {
        name: u.name,
        faults_overall: (u.faults_overall + 1) as u32,
        faults_current: (u.faults_current + 1) as u32,
    }
}

/// Whether the user named `name` in `users` can count no further fault.
pub open spec fn counters_full(users: Seq<UserModel>, name: Seq<char>) -> bool {
    exists|j: int|
        0 <= j < users.len() && (#[trigger] users[j]).name == name && (users[j].faults_current
            == u32::MAX || users[j].faults_overall == u32::MAX)
}

/// The settings in `values` once `name` is set to `value`.
pub open spec fn values_set(
    values: Seq<(Seq<char>, Seq<char>)>,
    name: Seq<char>,
    value: Seq<char>,
) -> Seq<(Seq<char>, Seq<char>)> {
    if keys(values, value_key()).contains(name) {
        values.map_values(
            |kv: (Seq<char>, Seq<char>)|
                if kv.0 == name {
                    (name, value)
                } else {
                    kv
                },
        )
    } else {
        values.push((name, value))
    }
}

/// The state rebuilt from its parts, keeping the first item of each key.
pub open spec fn restored(
    users: Seq<UserModel>,
    faults: Seq<Seq<char>>,
    punishments: Seq<PunishmentModel>,
    values: Seq<(Seq<char>, Seq<char>)>,
    history: Seq<HistoryModel>,
) -> StorageModel {
    StorageModel {
        users: keep_first(users, user_key()),
        faults: keep_first(faults, fault_key()),
        punishments: keep_first(punishments, punishment_key()),
        values: keep_first(values, value_key()),
        history,
    }
}

/// `new` keeps all of `old`'s history as its beginning.
pub open spec fn history_extends(old: StorageModel, new: StorageModel) -> bool {
    old.history.len() <= new.history.len() && new.history.subrange(0, old.history.len() as int)
        == old.history
}

impl StorageModel {
    pub open spec fn wf(self) -> bool {
        &&& keys(self.users, user_key()).no_duplicates()
        &&& keys(self.faults, fault_key()).no_duplicates()
        &&& keys(self.punishments, punishment_key()).no_duplicates()
        &&& keys(self.values, value_key()).no_duplicates()
    }
}

/// Keeping the first of each key changes nothing where keys are unique.
pub proof fn lemma_keep_first_unique<A>(s: Seq<A>, key: spec_fn(A) -> Seq<char>)
    requires
        keys(s, key).no_duplicates(),
    ensures
        keep_first(s, key) == s,
    decreases s.len(),
{
    if s.len() > 0 {
        let d = s.drop_last();
        assert(keys(d, key) =~= keys(s, key).drop_last());
        lemma_keep_first_unique(d, key);
        let n = (s.len() - 1) as int;
        if keys(d, key).contains(key(s.last())) {
            let j = choose|j: int| 0 <= j < keys(d, key).len() && keys(d, key)[j] == key(s.last());
            assert(keys(s, key)[j] == keys(s, key)[n]);
        }
        assert(d.push(s.last()) =~= s);
    }
}

/// Keys stay unique when an item is offered as `insert_new` does.
proof fn lemma_insert_new_unique<A>(s: Seq<A>, item: A, key: spec_fn(A) -> Seq<char>)
    requires
        keys(s, key).no_duplicates(),
    ensures
        keys(insert_new(s, item, key), key).no_duplicates(),
{
    if !keys(s, key).contains(key(item)) {
        assert(keys(s.push(item), key) =~= keys(s, key).push(key(item)));
    }
}

/// What `keep_first` yields is built by offering each item in turn.
proof fn lemma_keep_first_step<A>(s: Seq<A>, i: int, key: spec_fn(A) -> Seq<char>)
    requires
        0 <= i < s.len(),
    ensures
        keep_first(s.take(i + 1), key) == insert_new(keep_first(s.take(i), key), s[i], key),
{
    assert(s.take(i + 1).drop_last() =~= s.take(i));
}

/// The whole state in memory: users, faults, punishments and settings, each
/// unique by name and kept in the order added, and the history of
/// punishments handed out. It is saved and loaded as one document.
pub struct Storage {
    users: Vec<User>,
    faults: Vec<Fault>,
    punishments: Vec<Punishment>,
    values: Vec<(String, String)>,
    history: Vec<HistoryEntry>,
}

pub open spec fn users_view(v: Seq<User>) -> Seq<UserModel> {
    v.map_values(|u: User| u@)
}

pub open spec fn faults_view(v: Seq<Fault>) -> Seq<Seq<char>> {
    v.map_values(|f: Fault| f@)
}

pub open spec fn punishments_view(v: Seq<Punishment>) -> Seq<PunishmentModel> {
    v.map_values(|p: Punishment| p@)
}

pub open spec fn values_view(v: Seq<(String, String)>) -> Seq<(Seq<char>, Seq<char>)> {
    v.map_values(|kv: (String, String)| (kv.0@, kv.1@))
}

pub open spec fn history_view(v: Seq<HistoryEntry>) -> Seq<HistoryModel> {
    v.map_values(|e: HistoryEntry| e@)
}

impl View for Storage {
    type V = StorageModel;

    closed spec fn view(&self) -> StorageModel {
        StorageModel {
            users: users_view(self.users@),
            faults: faults_view(self.faults@),
            punishments: punishments_view(self.punishments@),
            values: values_view(self.values@),
            history: history_view(self.history@),
        }
    }
}

impl Storage {
    /// An empty state.
    pub fn new() -> (r: Storage)
        ensures
            r@ == (StorageModel {
                users: Seq::empty(),
                faults: Seq::empty(),
                punishments: Seq::empty(),
                values: Seq::empty(),
                history: Seq::empty(),
            }),
            r@.wf(),
    {
        let r = Storage {
            users: Vec::new(),
            faults: Vec::new(),
            punishments: Vec::new(),
            values: Vec::new(),
            history: Vec::new(),
        };
        proof {
            assert(r@.users =~= Seq::empty());
            assert(r@.faults =~= Seq::empty());
            assert(r@.punishments =~= Seq::empty());
            assert(r@.values =~= Seq::empty());
            assert(r@.history =~= Seq::empty());
        }
        r
    }
}

impl Storage {
    /// Position of the user named `name`, if any.
    fn find_user(&self, name: &String) -> (r: Option<usize>)
        ensures
            match r {
                Some(i) => i < self@.users.len() && self@.users[i as int].name == name@,
                None => !keys(self@.users, user_key()).contains(name@),
            },
    {
        let mut i: usize = 0;
        while i < self.users.len()
            invariant
                i <= self.users.len(),
                forall|j: int| 0 <= j < i ==> self@.users[j].name != name@,
            decreases self.users.len() - i,
        {
            if self.users[i].name == *name {
                return Some(i);
            }
            i = i + 1;
        }
        proof {
            if keys(self@.users, user_key()).contains(name@) {
                let j = choose|j: int|
                    0 <= j < keys(self@.users, user_key()).len() && keys(self@.users, user_key())[j]
                        == name@;
                assert(self@.users[j].name == name@);
            }
        }
        None
    }

    /// Position of the fault `name`, if known.
    fn find_fault(&self, name: &String) -> (r: Option<usize>)
        ensures
            match r {
                Some(i) => i < self@.faults.len() && self@.faults[i as int] == name@,
                None => !keys(self@.faults, fault_key()).contains(name@),
            },
    {
        let mut i: usize = 0;
        while i < self.faults.len()
            invariant
                i <= self.faults.len(),
                forall|j: int| 0 <= j < i ==> self@.faults[j] != name@,
            decreases self.faults.len() - i,
        {
            if self.faults[i] == *name {
                return Some(i);
            }
            i = i + 1;
        }
        proof {
            if keys(self@.faults, fault_key()).contains(name@) {
                let j = choose|j: int|
                    0 <= j < keys(self@.faults, fault_key()).len() && keys(
                        self@.faults,
                        fault_key(),
                    )[j] == name@;
                assert(self@.faults[j] == name@);
            }
        }
        None
    }

    /// Position of the punishment named `name`, if known.
    fn find_punishment(&self, name: &String) -> (r: Option<usize>)
        ensures
            match r {
                Some(i) => i < self@.punishments.len() && self@.punishments[i as int].name == name@,
                None => !keys(self@.punishments, punishment_key()).contains(name@),
            },
    {
        let mut i: usize = 0;
        while i < self.punishments.len()
            invariant
                i <= self.punishments.len(),
                forall|j: int| 0 <= j < i ==> self@.punishments[j].name != name@,
            decreases self.punishments.len() - i,
        {
            if self.punishments[i].name == *name {
                return Some(i);
            }
            i = i + 1;
        }
        proof {
            if keys(self@.punishments, punishment_key()).contains(name@) {
                let j = choose|j: int|
                    0 <= j < keys(self@.punishments, punishment_key()).len() && keys(
                        self@.punishments,
                        punishment_key(),
                    )[j] == name@;
                assert(self@.punishments[j].name == name@);
            }
        }
        None
    }

    /// Position of the setting `name`, if set.
    fn find_value(&self, name: &String) -> (r: Option<usize>)
        ensures
            match r {
                Some(i) => i < self@.values.len() && self@.values[i as int].0 == name@,
                None => !keys(self@.values, value_key()).contains(name@),
            },
    {
        let mut i: usize = 0;
        while i < self.values.len()
            invariant
                i <= self.values.len(),
                forall|j: int| 0 <= j < i ==> self@.values[j].0 != name@,
            decreases self.values.len() - i,
        {
            if self.values[i].0 == *name {
                return Some(i);
            }
            i = i + 1;
        }
        proof {
            if keys(self@.values, value_key()).contains(name@) {
                let j = choose|j: int|
                    0 <= j < keys(self@.values, value_key()).len() && keys(
                        self@.values,
                        value_key(),
                    )[j] == name@;
                assert(self@.values[j].0 == name@);
            }
        }
        None
    }

    /// The registered users, in the order they were added.
    pub fn users(&self) -> (r: &Vec<User>)
        ensures
            users_view(r@) == self@.users,
    {
        &self.users
    }

    /// The user named `name`, if registered.
    pub fn get_user_by_name(&self, name: &str) -> (r: Option<&User>)
        ensures
            r is Some <==> keys(self@.users, user_key()).contains(name@),
            r matches Some(u) ==> self@.users.contains(u@) && u@.name == name@,
    {
        let key = name.to_owned();
        match self.find_user(&key) {
            Some(i) => {
                proof {
                    assert(keys(self@.users, user_key())[i as int] == name@);
                }
                Some(&self.users[i])
            },
            None => None,
        }
    }

    /// Registers `u` unless a user of the same name is already known.
    pub fn add_user(&mut self, u: User)
        requires
            old(self)@.wf(),
        ensures
            final(self)@.wf(),
            final(self)@ == (StorageModel {
                users: insert_new(old(self)@.users, u@, user_key()),
                ..old(self)@
            }),
    {
        proof {
            lemma_insert_new_unique(self@.users, u@, user_key());
        }
        match self.find_user(&u.name) {
            Some(i) => {
                proof {
                    assert(keys(self@.users, user_key())[i as int] == u@.name);
                }
            },
            None => {
                self.users.push(u);
                proof {
                    assert(self@.users =~= insert_new(old(self)@.users, u@, user_key()));
                }
            },
        }
    }

    /// Counts one more fault for the user named `name`.
    pub fn increment_faults(&mut self, name: &str) -> (r: Result<(), KarmaError>)
        requires
            old(self)@.wf(),
        ensures
            final(self)@.wf(),
            r == Err::<(), KarmaError>(KarmaError::UserNotFound) <==> !keys(
                old(self)@.users,
                user_key(),
            ).contains(name@),
            r == Err::<(), KarmaError>(KarmaError::FaultCountOverflow) <==> counters_full(
                old(self)@.users,
                name@,
            ),
            r is Ok ==> final(self)@ == (StorageModel {
                users: old(self)@.users.map_values(
                    |u: UserModel|
                        if u.name == name@ {
                            bumped(u)
                        } else {
                            u
                        },
                ),
                ..old(self)@
            }),
            r is Err ==> final(self)@ == old(self)@,
            r is Err ==> r == Err::<(), KarmaError>(KarmaError::UserNotFound) || r == Err::<
                (),
                KarmaError,
            >(KarmaError::FaultCountOverflow),
    {
        let key = name.to_owned();
        match self.find_user(&key) {
            None => {
                proof {
                    if counters_full(self@.users, name@) {
                        let j = choose|j: int|
                            0 <= j < self@.users.len() && (#[trigger] self@.users[j]).name
                                == name@ && (self@.users[j].faults_current == u32::MAX
                                || self@.users[j].faults_overall == u32::MAX);
                        assert(keys(self@.users, user_key())[j] == name@);
                    }
                }
                Err(KarmaError::UserNotFound)
            },
            Some(i) => {
                proof {
                    assert(keys(self@.users, user_key())[i as int] == name@);
                    assert forall|j: int|
                        0 <= j < self@.users.len() && (#[trigger] self@.users[j]).name
                            == name@ implies j == i by {
                        assert(keys(self@.users, user_key())[j] == keys(
                            self@.users,
                            user_key(),
                        )[i as int]);
                    }
                }
                if self.users[i].faults_current == u32::MAX || self.users[i].faults_overall
                    == u32::MAX {
                    return Err(KarmaError::FaultCountOverflow);
                }
                self.users[i].increment_faults();
                proof {
                    assert(self@.users =~= old(self)@.users.map_values(
                        |u: UserModel|
                            if u.name == name@ {
                                bumped(u)
                            } else {
                                u
                            },
                    ));
                    assert(keys(self@.users, user_key()) =~= keys(old(self)@.users, user_key()));
                }
                Ok(())
            },
        }
    }

    /// The known faults, in the order they were added.
    pub fn faults(&self) -> (r: &Vec<Fault>)
        ensures
            faults_view(r@) == self@.faults,
    {
        &self.faults
    }

    /// Registers the fault `f` unless it is already known; tells whether it
    /// was new.
    pub fn add_fault(&mut self, f: Fault) -> (added: bool)
        requires
            old(self)@.wf(),
        ensures
            final(self)@.wf(),
            added == !keys(old(self)@.faults, fault_key()).contains(f@),
            final(self)@ == (StorageModel {
                faults: insert_new(old(self)@.faults, f@, fault_key()),
                ..old(self)@
            }),
    {
        proof {
            lemma_insert_new_unique(self@.faults, f@, fault_key());
        }
        match self.find_fault(&f) {
            Some(i) => {
                proof {
                    assert(keys(self@.faults, fault_key())[i as int] == f@);
                }
                false
            },
            None => {
                self.faults.push(f);
                proof {
                    assert(self@.faults =~= insert_new(old(self)@.faults, f@, fault_key()));
                }
                true
            },
        }
    }

    /// The known punishments, in the order they were added.
    pub fn punishments(&self) -> (r: &Vec<Punishment>)
        ensures
            punishments_view(r@) == self@.punishments,
    {
        &self.punishments
    }

    /// Registers `p` unless a punishment of the same name is already known.
    pub fn add_punishment(&mut self, p: Punishment)
        requires
            old(self)@.wf(),
        ensures
            final(self)@.wf(),
            final(self)@ == (StorageModel {
                punishments: insert_new(old(self)@.punishments, p@, punishment_key()),
                ..old(self)@
            }),
    {
        proof {
            lemma_insert_new_unique(self@.punishments, p@, punishment_key());
        }
        match self.find_punishment(&p.name) {
            Some(i) => {
                proof {
                    assert(keys(self@.punishments, punishment_key())[i as int] == p@.name);
                }
            },
            None => {
                self.punishments.push(p);
                proof {
                    assert(self@.punishments =~= insert_new(
                        old(self)@.punishments,
                        p@,
                        punishment_key(),
                    ));
                }
            },
        }
    }

    /// The settings, in the order they were first set.
    pub fn values(&self) -> (r: &Vec<(String, String)>)
        ensures
            values_view(r@) == self@.values,
    {
        &self.values
    }

    /// The setting `name`, if set.
    pub fn value(&self, name: &str) -> (r: Option<&String>)
        requires
            self@.wf(),
        ensures
            r is Some <==> keys(self@.values, value_key()).contains(name@),
            r matches Some(v) ==> self@.values.contains((name@, v@)),
    {
        let key = name.to_owned();
        match self.find_value(&key) {
            Some(i) => {
                proof {
                    assert(keys(self@.values, value_key())[i as int] == name@);
                    assert(self@.values[i as int] == (name@, self.values[i as int].1@));
                }
                Some(&self.values[i].1)
            },
            None => None,
        }
    }

    /// Sets `name` to `value`, replacing an earlier value.
    pub fn set_value(&mut self, name: String, value: String)
        requires
            old(self)@.wf(),
        ensures
            final(self)@.wf(),
            final(self)@ == (StorageModel {
                values: values_set(old(self)@.values, name@, value@),
                ..old(self)@
            }),
    {
        match self.find_value(&name) {
            Some(i) => {
                proof {
                    assert(keys(self@.values, value_key())[i as int] == name@);
                    assert forall|j: int|
                        0 <= j < self@.values.len() && (#[trigger] self@.values[j]).0
                            == name@ implies j == i by {
                        assert(keys(self@.values, value_key())[j] == keys(
                            self@.values,
                            value_key(),
                        )[i as int]);
                    }
                }
                self.values.set(i, (name, value));
                proof {
                    assert(self@.values =~= values_set(old(self)@.values, name@, value@));
                    assert(keys(self@.values, value_key()) =~= keys(
                        old(self)@.values,
                        value_key(),
                    ));
                }
            },
            None => {
                self.values.push((name, value));
                proof {
                    assert(self@.values =~= values_set(old(self)@.values, name@, value@));
                    assert(keys(self@.values, value_key()) =~= keys(
                        old(self)@.values,
                        value_key(),
                    ).push(name@));
                }
            },
        }
    }

    /// Every punishment handed out, oldest first.
    pub fn history(&self) -> (r: &Vec<HistoryEntry>)
        ensures
            history_view(r@) == self@.history,
    {
        &self.history
    }

    /// Appends `entry` to the history.
    pub fn log(&mut self, entry: HistoryEntry)
        requires
            old(self)@.wf(),
        ensures
            final(self)@.wf(),
            final(self)@ == (StorageModel {
                history: old(self)@.history.push(entry@),
                ..old(self)@
            }),
            history_extends(old(self)@, final(self)@),
    {
        self.history.push(entry);
        proof {
            assert(self@.history =~= old(self)@.history.push(entry@));
            assert(self@.history.subrange(0, old(self)@.history.len() as int)
                =~= old(self)@.history);
        }
    }
}

impl Storage {
    /// Rebuilds a state from its collections, as read back from a saved
    /// document. Of several items sharing a key only the first is kept.
    pub fn from_parts(
        users: Vec<User>,
        faults: Vec<Fault>,
        punishments: Vec<Punishment>,
        values: Vec<(String, String)>,
        history: Vec<HistoryEntry>,
    ) -> (r: Storage)
        ensures
            r@.wf(),
            r@ == restored(
                users_view(users@),
                faults_view(faults@),
                punishments_view(punishments@),
                values_view(values@),
                history_view(history@),
            ),
    {
        let mut s = Storage::new();
        let ghost u0 = users_view(users@);
        let ghost f0 = faults_view(faults@);
        let ghost p0 = punishments_view(punishments@);
        let ghost v0 = values_view(values@);
        let mut users = users;
        let mut faults = faults;
        let mut punishments = punishments;
        let mut values = values;

        let ghost mut k: int = 0;
        while users.len() > 0
            invariant
                s@.wf(),
                0 <= k <= u0.len(),
                users_view(users@) == u0.skip(k),
                s@.users == keep_first(u0.take(k), user_key()),
                s@.faults.len() == 0,
                s@.punishments.len() == 0,
                s@.values.len() == 0,
                s@.history.len() == 0,
            decreases users.len(),
        {
            let ghost before = users@;
            let u = users.remove(0);
            proof {
                assert(users_view(before).len() == before.len());
                assert(users_view(before)[0] == u0.skip(k)[0]);
                assert(u@ == users_view(before)[0]);
                assert(u@ == u0[k]);
                lemma_keep_first_step(u0, k, user_key());
                assert forall|j: int| 0 <= j < users@.len() implies users_view(users@)[j] == u0.skip(
                    k + 1,
                )[j] by {
                    assert(users@[j] == before[j + 1]);
                    assert(users_view(before)[j + 1] == u0.skip(k)[j + 1]);
                }
                assert(users_view(users@) =~= u0.skip(k + 1));
                k = k + 1;
            }
            s.add_user(u);
        }
        proof {
            assert(u0.take(k) =~= u0);
        }

        let ghost mut k: int = 0;
        while faults.len() > 0
            invariant
                s@.wf(),
                0 <= k <= f0.len(),
                faults_view(faults@) == f0.skip(k),
                s@.users == keep_first(u0, user_key()),
                s@.faults == keep_first(f0.take(k), fault_key()),
                s@.punishments.len() == 0,
                s@.values.len() == 0,
                s@.history.len() == 0,
            decreases faults.len(),
        {
            let ghost before = faults@;
            let f = faults.remove(0);
            proof {
                assert(faults_view(before).len() == before.len());
                assert(faults_view(before)[0] == f0.skip(k)[0]);
                assert(f@ == faults_view(before)[0]);
                assert(f@ == f0[k]);
                lemma_keep_first_step(f0, k, fault_key());
                assert forall|j: int| 0 <= j < faults@.len() implies faults_view(faults@)[j] == f0.skip(
                    k + 1,
                )[j] by {
                    assert(faults@[j] == before[j + 1]);
                    assert(faults_view(before)[j + 1] == f0.skip(k)[j + 1]);
                }
                assert(faults_view(faults@) =~= f0.skip(k + 1));
                k = k + 1;
            }
            s.add_fault(f);
        }
        proof {
            assert(f0.take(k) =~= f0);
        }

        let ghost mut k: int = 0;
        while punishments.len() > 0
            invariant
                s@.wf(),
                0 <= k <= p0.len(),
                punishments_view(punishments@) == p0.skip(k),
                s@.users == keep_first(u0, user_key()),
                s@.faults == keep_first(f0, fault_key()),
                s@.punishments == keep_first(p0.take(k), punishment_key()),
                s@.values.len() == 0,
                s@.history.len() == 0,
            decreases punishments.len(),
        {
            let ghost before = punishments@;
            let p = punishments.remove(0);
            proof {
                assert(punishments_view(before).len() == before.len());
                assert(punishments_view(before)[0] == p0.skip(k)[0]);
                assert(p@ == punishments_view(before)[0]);
                assert(p@ == p0[k]);
                lemma_keep_first_step(p0, k, punishment_key());
                assert forall|j: int| 0 <= j < punishments@.len() implies punishments_view(punishments@)[j] == p0.skip(
                    k + 1,
                )[j] by {
                    assert(punishments@[j] == before[j + 1]);
                    assert(punishments_view(before)[j + 1] == p0.skip(k)[j + 1]);
                }
                assert(punishments_view(punishments@) =~= p0.skip(k + 1));
                k = k + 1;
            }
            s.add_punishment(p);
        }
        proof {
            assert(p0.take(k) =~= p0);
        }

        let ghost mut k: int = 0;
        while values.len() > 0
            invariant
                s@.wf(),
                0 <= k <= v0.len(),
                values_view(values@) == v0.skip(k),
                s@.users == keep_first(u0, user_key()),
                s@.faults == keep_first(f0, fault_key()),
                s@.punishments == keep_first(p0, punishment_key()),
                s@.values == keep_first(v0.take(k), value_key()),
                s@.history.len() == 0,
            decreases values.len(),
        {
            let ghost before = values@;
            let kv = values.remove(0);
            proof {
                assert(values_view(before).len() == before.len());
                assert(values_view(before)[0] == v0.skip(k)[0]);
                assert((kv.0@, kv.1@) == values_view(before)[0]);
                assert((kv.0@, kv.1@) == v0[k]);
                lemma_keep_first_step(v0, k, value_key());
                assert forall|j: int| 0 <= j < values@.len() implies values_view(values@)[j] == v0.skip(
                    k + 1,
                )[j] by {
                    assert(values@[j] == before[j + 1]);
                    assert(values_view(before)[j + 1] == v0.skip(k)[j + 1]);
                }
                assert(values_view(values@) =~= v0.skip(k + 1));
                lemma_insert_new_unique(s@.values, (kv.0@, kv.1@), value_key());
            }
            if s.find_value(&kv.0).is_none() {
                s.values.push(kv);
            } else {
                proof {
                    let i = choose|i: int| 0 <= i < s@.values.len() && s@.values[i].0 == kv.0@;
                    assert(keys(s@.values, value_key())[i] == kv.0@);
                }
            }
            proof {
                assert(s@.values =~= insert_new(keep_first(v0.take(k), value_key()), (kv.0@, kv.1@), value_key()));
                k = k + 1;
            }
        }
        proof {
            assert(v0.take(k) =~= v0);
        }
        s.history = history;
        s
    }
}

/// Saving a state and loading it back yields the same state: every set
/// and the whole history come back unchanged and in the same order.
pub proof fn lemma_save_load_round_trip(m: StorageModel)
    requires
        m.wf(),
    ensures
        restored(m.users, m.faults, m.punishments, m.values, m.history) == m,
{
    lemma_keep_first_unique(m.users, user_key());
    lemma_keep_first_unique(m.faults, fault_key());
    lemma_keep_first_unique(m.punishments, punishment_key());
    lemma_keep_first_unique(m.values, value_key());
}

/// History only grows at its end: where each step keeps the history of the
/// state before it as its beginning, so does any run of steps.
pub proof fn lemma_history_append_only(a: StorageModel, b: StorageModel, c: StorageModel)
    requires
        history_extends(a, b),
        history_extends(b, c),
    ensures
        history_extends(a, c),
{
    assert(c.history.subrange(0, a.history.len() as int) =~= c.history.subrange(
        0,
        b.history.len() as int,
    ).subrange(0, a.history.len() as int));
}

} // verus!
