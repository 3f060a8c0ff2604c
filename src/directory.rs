//! The account directory: the mapping between account names and user ids.
use vstd::prelude::*;

verus! {

/// One local account.
#[derive(Debug, Clone)]
pub struct Account {
    pub uid: u32,
    pub name: String,
}

/// Each name stands at most once (several names may share a user id).
pub open spec fn directory_wf(d: Seq<(u32, Seq<char>)>) -> bool {
    forall|i: int, j: int| 0 <= i < j < d.len() ==> d[i].1 != d[j].1
}

/// The account at `j` is the last one with its user id.
pub open spec fn last_of_uid(d: Seq<(u32, Seq<char>)>, j: int) -> bool {
    0 <= j < d.len() && forall|k: int| j < k < d.len() ==> d[k].0 != d[j].0
}

/// The directory holds the name `n`.
pub open spec fn has_name(d: Seq<(u32, Seq<char>)>, n: Seq<char>) -> bool {
    exists|i: int| 0 <= i < d.len() && d[i].1 == n
}

/// The directory holds the user id `u`.
pub open spec fn has_uid(d: Seq<(u32, Seq<char>)>, u: u32) -> bool {
    exists|i: int| 0 <= i < d.len() && d[i].0 == u
}

/// The user id of the account named `n`, if there is one.
pub open spec fn uid_of_name(d: Seq<(u32, Seq<char>)>, n: Seq<char>) -> Option<u32> {
    if has_name(d, n) {
        Some(d[choose|i: int| 0 <= i < d.len() && d[i].1 == n].0)
    } else {
        None
    }
}

/// The name of the last account with user id `u`, if there is one.
pub open spec fn name_of_uid(d: Seq<(u32, Seq<char>)>, u: u32) -> Option<Seq<char>> {
    if has_uid(d, u) {
        Some(d[choose|i: int| last_of_uid(d, i) && d[i].0 == u].1)
    } else {
        None
    }
}

/// The position of the account named `n`.
pub open spec fn name_index(d: Seq<(u32, Seq<char>)>, n: Seq<char>) -> int {
    choose|i: int| 0 <= i < d.len() && d[i].1 == n
}

/// The accounts of the system, each name once.
#[derive(Debug, Clone)]
pub struct AccountDirectory {
    accounts: Vec<Account>,
}

impl View for AccountDirectory {
    type V = Seq<(u32, Seq<char>)>;

    closed spec fn view(&self) -> Seq<(u32, Seq<char>)> {
        self.accounts@.map_values(|a: Account| (a.uid, a.name@))
    }
}

impl AccountDirectory {
    /// Well-formedness: no name twice.
    pub open spec fn wf(&self) -> bool {
        directory_wf(self@)
    }

    /// An empty directory.
    pub fn new() -> (r: AccountDirectory)
        ensures
            r@ == Seq::<(u32, Seq<char>)>::empty(),
            r.wf(),
    {
        let r = AccountDirectory { accounts: Vec::new() };
        assert(r@ =~= Seq::<(u32, Seq<char>)>::empty());
        r
    }

    /// Number of accounts.
    pub fn len(&self) -> (r: usize)
        ensures
            r == self@.len(),
    {
        self.accounts.len()
    }

    /// The account at position `i`.
    pub fn get(&self, i: usize) -> (r: &Account)
        requires
            i < self@.len(),
        ensures
            (r.uid, r.name@) == self@[i as int],
    {
        &self.accounts[i]
    }

    /// Adds an account; an account of the same name takes the new user id
    /// instead. Returns whether the name was new.
    pub fn insert(&mut self, uid: u32, name: String) -> (added: bool)
        requires
            old(self).wf(),
        ensures
            final(self).wf(),
            added == !has_name(old(self)@, name@),
            added ==> final(self)@ == old(self)@.push((uid, name@)),
            !added ==> final(self)@ == old(self)@.update(
                name_index(old(self)@, name@),
                (uid, name@),
            ),
    {
        let ghost d = self@;
        let n = self.accounts.len();
        let mut i: usize = 0;
        while i < n
            invariant
                i <= n,
                n == d.len(),
                d == self@,
                d == old(self)@,
                n == self.accounts@.len(),
                directory_wf(d),
                forall|j: int| 0 <= j < i ==> d[j].1 != name@,
            decreases n - i,
        {
            if self.accounts[i].name == name {
                assert(d[i as int].1 == name@);
                assert(has_name(d, name@));
                assert(name_index(d, name@) == i);
                self.accounts.set(i, Account { uid, name });
                assert(self@ =~= d.update(i as int, (uid, d[i as int].1)));
                return false;
            }
            i = i + 1;
        }
        self.accounts.push(Account { uid, name });
        assert(self@ =~= d.push((uid, name@)));
        true
    }

    /// The user id of the account named `name`.
    pub fn lookup_name(&self, name: &String) -> (r: Option<u32>)
        requires
            self.wf(),
        ensures
            r == uid_of_name(self@, name@),
    {
        let n = self.accounts.len();
        let mut i: usize = 0;
        while i < n
            invariant
                i <= n,
                n == self@.len(),
                self.wf(),
                forall|j: int| 0 <= j < i ==> self@[j].1 != name@,
            decreases n - i,
        {
            if self.accounts[i].name == *name {
                assert(self@[i as int].1 == name@);
                return Some(self.accounts[i].uid);
            }
            i = i + 1;
        }
        None
    }

    /// The name of the last account with user id `uid`.
    pub fn lookup_uid(&self, uid: u32) -> (r: Option<String>)
        requires
            self.wf(),
        ensures
            r.is_some() == has_uid(self@, uid),
            r matches Some(s) ==> name_of_uid(self@, uid) == Some(s@),
    {
        let n = self.accounts.len();
        let mut i: usize = n;
        while i > 0
            invariant
                i <= n,
                n == self@.len(),
                forall|j: int| i <= j < n ==> self@[j].0 != uid,
            decreases i,
        {
            if self.accounts[i - 1].uid == uid {
                let ghost k = i - 1;
                assert(last_of_uid(self@, k) && self@[k].0 == uid);
                assert(has_uid(self@, uid));
                proof {
                    let c = choose|c: int| last_of_uid(self@, c) && self@[c].0 == uid;
                    assert(c == k) by {
                        if c < k {
                            assert(self@[k].0 == self@[c].0);
                        } else if c > k {
                            assert(self@[c].0 == self@[k].0);
                        }
                    }
                }
                return Some(self.accounts[i - 1].name.clone());
            }
            i = i - 1;
        }
        None
    }
}

} // verus!
