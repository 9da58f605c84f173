use vstd::prelude::*;

verus! {

/// Why an account operation did not go through.
#[derive(Clone, Copy, Debug, PartialEq, Eq, Structural)]
pub enum AccountError {
    /// No user, or no record, matches the request.
    NotFound,
    /// The request is malformed: a bad subscription keyword or a negative amount.
    InvalidInput,
    /// A debit asked for more credits than remain.
    InsufficientCredits,
    /// A value left the range that storage can hold.
    StorageError,
}

/// One user's credit balance and API key.
pub struct CreditAccount {
    pub user_id: i32,
    pub remaining_requests: i64,
    pub api_key: Option<String>,
}

/// Position of the row for `uid` (the last such row), or -1.
pub open spec fn account_index(s: Seq<CreditAccount>, uid: i32) -> int
    decreases s.len(),
{
    if s.len() == 0 {
        -1
    } else if s.last().user_id == uid {
        s.len() - 1
    } else {
        account_index(s.drop_last(), uid)
    }
}

/// The remaining credits of `uid`: 0 when it has no row.
pub open spec fn balance(s: Seq<CreditAccount>, uid: i32) -> int {
    let i = account_index(s, uid);
    if i >= 0 {
        s[i].remaining_requests as int
    } else {
        0
    }
}

/// The rows after setting the balance of `uid` to `v`; a user without a row gets one,
/// unless `v` is 0.
pub open spec fn set_balance(s: Seq<CreditAccount>, uid: i32, v: i64) -> Seq<CreditAccount> {
    let i = account_index(s, uid);
    if i >= 0 {
        s.update(i, CreditAccount { remaining_requests: v, ..s[i] })
    } else if v == 0 {
        s
    } else {
        s.push(CreditAccount { user_id: uid, remaining_requests: v, api_key: None })
    }
}

/// The new balance after a debit of `amount` from `b`, or `None` when it is refused.
pub open spec fn debit_outcome(b: int, amount: int) -> Option<int> {
    if 0 <= amount <= b {
        Some(b - amount)
    } else {
        None
    }
}

/// The position that `account_index` gives is a row of `uid`, or -1.
pub proof fn lemma_account_index(s: Seq<CreditAccount>, uid: i32)
    ensures
        -1 <= account_index(s, uid) < s.len(),
        account_index(s, uid) >= 0 ==> s[account_index(s, uid)].user_id == uid,
    decreases s.len(),
{
    if s.len() > 0 {
        lemma_account_index(s.drop_last(), uid);
    }
}

/// Rows that keep their owners keep every user's position.
pub proof fn lemma_account_index_same_owners(s: Seq<CreditAccount>, t: Seq<CreditAccount>, u: i32)
    requires
        s.len() == t.len(),
        forall|j: int| 0 <= j < s.len() ==> (#[trigger] s[j]).user_id == t[j].user_id,
    ensures
        account_index(s, u) == account_index(t, u),
    decreases s.len(),
{
    if s.len() > 0 {
        assert(s[s.len() - 1].user_id == t[t.len() - 1].user_id);
        assert forall|j: int| 0 <= j < s.drop_last().len() implies (#[trigger] s.drop_last()[
            j]).user_id == t.drop_last()[j].user_id by {
            assert(s.drop_last()[j] == s[j] && t.drop_last()[j] == t[j]);
        }
        lemma_account_index_same_owners(s.drop_last(), t.drop_last(), u);
    }
}

/// Setting one user's balance gives that user the new balance and leaves every other
/// user's balance as it was.
pub proof fn lemma_set_balance(s: Seq<CreditAccount>, uid: i32, v: i64, u: i32)
    ensures
        balance(set_balance(s, uid, v), u) == if u == uid {
            v as int
        } else {
            balance(s, u)
        },
{
    lemma_account_index(s, uid);
    let i = account_index(s, uid);
    let t = set_balance(s, uid, v);
    if i >= 0 {
        assert forall|j: int| 0 <= j < s.len() implies (#[trigger] s[j]).user_id == t[j].user_id by {}
        lemma_account_index_same_owners(s, t, u);
        lemma_account_index(s, u);
        let j = account_index(s, u);
        if u == uid {
            assert(j == i);
            assert(t[i].remaining_requests == v);
            assert(balance(t, u) == v);
        } else if j >= 0 {
            assert(j != i);
            assert(t[j] == s[j]);
            assert(balance(t, u) == balance(s, u));
        } else {
            assert(balance(t, u) == balance(s, u));
        }
    } else if v != 0 {
        assert(t.drop_last() =~= s);
        if u != uid {
            assert(account_index(t, u) == account_index(s, u));
            lemma_account_index(s, u);
            if account_index(s, u) >= 0 {
                assert(t[account_index(s, u)] == s[account_index(s, u)]);
            }
        } else {
            assert(account_index(t, u) == s.len());
        }
    } else {
        assert(t == s);
    }
}

/// Credit balances, one row per user.
pub struct CreditLedger {
    pub accounts: Vec<CreditAccount>,
}

impl CreditLedger {
    /// A ledger with no rows.
    pub fn new() -> (r: CreditLedger)
        ensures
            r.accounts@.len() == 0,
    {
        CreditLedger { accounts: Vec::new() }
    }

    /// Position of the row for `uid`, searching from the end.
    pub fn find(&self, uid: i32) -> (r: Option<usize>)
        ensures
            match r {
                Some(i) => i as int == account_index(self.accounts@, uid) && i < self.accounts@.len(),
                None => account_index(self.accounts@, uid) == -1,
            },
    {
        proof {
            lemma_account_index(self.accounts@, uid);
        }
        let mut i: usize = self.accounts.len();
        assert(self.accounts@.take(i as int) =~= self.accounts@);
        while i > 0
            invariant
                i <= self.accounts@.len(),
                account_index(self.accounts@, uid) == account_index(
                    self.accounts@.take(i as int),
                    uid,
                ),
            decreases i,
        {
            assert(self.accounts@.take(i as int).drop_last() =~= self.accounts@.take(i - 1));
            if self.accounts[i - 1].user_id == uid {
                return Some(i - 1);
            }
            i = i - 1;
        }
        None
    }

    /// The credits that `uid` has left; 0 when it has no row.
    pub fn remaining(&self, uid: i32) -> (r: i64)
        ensures
            r == balance(self.accounts@, uid),
    {
        match self.find(uid) {
            Some(i) => self.accounts[i].remaining_requests,
            None => 0,
        }
    }

    /// The balance that `uid`'s row holds, or `None` when it has no row.
    pub fn row_balance(&self, uid: i32) -> (r: Option<i64>)
        ensures
            match r {
                Some(v) => account_index(self.accounts@, uid) >= 0 && v == balance(
                    self.accounts@,
                    uid,
                ),
                None => account_index(self.accounts@, uid) == -1,
            },
    {
        match self.find(uid) {
            Some(i) => Some(self.accounts[i].remaining_requests),
            None => None,
        }
    }

    /// The API key on `uid`'s row, if it has a row with a key.
    pub fn api_key(&self, uid: i32) -> (r: Option<String>)
        ensures
            match r {
                Some(k) => account_index(self.accounts@, uid) >= 0 && self.accounts@[account_index(
                    self.accounts@,
                    uid,
                )].api_key == Some(k),
                None => account_index(self.accounts@, uid) == -1 || self.accounts@[account_index(
                    self.accounts@,
                    uid,
                )].api_key is None,
            },
    {
        match self.find(uid) {
            Some(i) => match &self.accounts[i].api_key {
                Some(k) => Some(k.clone()),
                None => None,
            },
            None => None,
        }
    }

    fn store_balance(&mut self, uid: i32, v: i64)
        ensures
            final(self).accounts@ == set_balance(old(self).accounts@, uid, v),
    {
        match self.find(uid) {
            Some(i) => {
                let ghost s = self.accounts@;
                self.accounts[i].remaining_requests = v;
                assert(self.accounts@ =~= set_balance(s, uid, v));
            },
            None => {
                if v != 0 {
                    self.accounts.push(CreditAccount { user_id: uid, remaining_requests: v, api_key: None });
                }
            },
        }
    }

    /// Takes `amount` credits from `uid`, giving the new balance.
    /// Refused, with nothing changed, when `amount` is negative or more than the balance.
    pub fn debit(&mut self, uid: i32, amount: i64) -> (r: Result<i64, AccountError>)
        ensures
            match r {
                Ok(v) => debit_outcome(balance(old(self).accounts@, uid), amount as int) == Some(
                    v as int,
                ) && final(self).accounts@ == set_balance(old(self).accounts@, uid, v),
                Err(e) => debit_outcome(balance(old(self).accounts@, uid), amount as int) is None
                    && final(self).accounts@ == old(self).accounts@ && e == (if amount < 0 {
                    AccountError::InvalidInput
                } else {
                    AccountError::InsufficientCredits
                }),
            },
    {
        if amount < 0 {
            return Err(AccountError::InvalidInput);
        }
        let b = self.remaining(uid);
        if amount > b {
            return Err(AccountError::InsufficientCredits);
        }
        let v = b - amount;
        self.store_balance(uid, v);
        Ok(v)
    }

    /// Adds `amount` credits to `uid`, giving the new balance.
    /// Refused, with nothing changed, when `amount` is negative or the balance would overflow.
    pub fn credit(&mut self, uid: i32, amount: i64) -> (r: Result<i64, AccountError>)
        ensures
            match r {
                Ok(v) => amount >= 0 && v == balance(old(self).accounts@, uid) + amount
                    && final(self).accounts@ == set_balance(old(self).accounts@, uid, v),
                Err(e) => final(self).accounts@ == old(self).accounts@ && (if amount < 0 {
                    e == AccountError::InvalidInput
                } else {
                    e == AccountError::StorageError && balance(old(self).accounts@, uid) + amount
                        > i64::MAX
                }),
            },
    {
        if amount < 0 {
            return Err(AccountError::InvalidInput);
        }
        let b = self.remaining(uid);
        if b > i64::MAX - amount {
            return Err(AccountError::StorageError);
        }
        let v = b + amount;
        self.store_balance(uid, v);
        Ok(v)
    }

    /// Gives `amount` credits back to `uid`; the same change as `credit`.
    pub fn refund(&mut self, uid: i32, amount: i64) -> (r: Result<i64, AccountError>)
        ensures
            match r {
                Ok(v) => amount >= 0 && v == balance(old(self).accounts@, uid) + amount
                    && final(self).accounts@ == set_balance(old(self).accounts@, uid, v),
                Err(e) => final(self).accounts@ == old(self).accounts@ && (if amount < 0 {
                    e == AccountError::InvalidInput
                } else {
                    e == AccountError::StorageError && balance(old(self).accounts@, uid) + amount
                        > i64::MAX
                }),
            },
    {
        self.credit(uid, amount)
    }
}

/// The balance after a run of debits from `b`, each applied only when `debit_outcome` allows.
pub open spec fn run_debits(b: int, amounts: Seq<int>) -> int
    decreases amounts.len(),
{
    if amounts.len() == 0 {
        b
    } else {
        let p = run_debits(b, amounts.drop_last());
        match debit_outcome(p, amounts.last()) {
            Some(v) => v,
            None => p,
        }
    }
}

/// The sum of the debits of a run that succeeded.
pub open spec fn succeeded_total(b: int, amounts: Seq<int>) -> int
    decreases amounts.len(),
{
    if amounts.len() == 0 {
        0
    } else {
        let p = run_debits(b, amounts.drop_last());
        succeeded_total(b, amounts.drop_last()) + match debit_outcome(p, amounts.last()) {
            Some(_) => amounts.last(),
            None => 0,
        }
    }
}

/// After any run of debits, the balance is the starting balance less the debits that
/// succeeded, and it never falls below zero.
pub proof fn lemma_debit_run(b: int, amounts: Seq<int>)
    requires
        b >= 0,
    ensures
        run_debits(b, amounts) == b - succeeded_total(b, amounts),
        run_debits(b, amounts) >= 0,
    decreases amounts.len(),
{
    if amounts.len() > 0 {
        lemma_debit_run(b, amounts.drop_last());
    }
}

/// The rows after a run of `debit` calls on `uid`, each as `debit`'s contract gives it:
/// a refused debit leaves the rows alone.
pub open spec fn rows_after_debits(s: Seq<CreditAccount>, uid: i32, amounts: Seq<i64>) -> Seq<
    CreditAccount,
>
    decreases amounts.len(),
{
    if amounts.len() == 0 {
        s
    } else {
        let p = rows_after_debits(s, uid, amounts.drop_last());
        match debit_outcome(balance(p, uid), amounts.last() as int) {
            Some(v) => set_balance(p, uid, v as i64),
            None => p,
        }
    }
}

/// A run of `debit` calls on one user leaves the balance that `run_debits` gives: the
/// starting balance less the debits that succeeded, never below zero.
pub proof fn lemma_debit_calls(s: Seq<CreditAccount>, uid: i32, amounts: Seq<i64>)
    requires
        balance(s, uid) >= 0,
    ensures
        balance(rows_after_debits(s, uid, amounts), uid) == run_debits(
            balance(s, uid),
            amounts.map_values(|a: i64| a as int),
        ),
        balance(rows_after_debits(s, uid, amounts), uid) == balance(s, uid) - succeeded_total(
            balance(s, uid),
            amounts.map_values(|a: i64| a as int),
        ),
        balance(rows_after_debits(s, uid, amounts), uid) >= 0,
    decreases amounts.len(),
{
    let ints = amounts.map_values(|a: i64| a as int);
    lemma_debit_run(balance(s, uid), ints);
    if amounts.len() > 0 {
        let q = amounts.drop_last();
        lemma_debit_calls(s, uid, q);
        assert(ints.drop_last() =~= q.map_values(|a: i64| a as int));
        let p = rows_after_debits(s, uid, q);
        lemma_account_index(p, uid);
        match debit_outcome(balance(p, uid), amounts.last() as int) {
            Some(v) => {
                assert(balance(p, uid) <= i64::MAX);
                lemma_set_balance(p, uid, v as i64, uid);
            },
            None => {},
        }
    }
}

} // verus!
