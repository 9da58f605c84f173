use vstd::prelude::*;
use vstd::string::*;

use crate::ledger::{account_index, balance, AccountError, CreditAccount, CreditLedger};
use crate::money::Usdc;
use crate::subscriptions::{
    apply_subscription, doc_wf, lemma_payload_preserves_wf, payload_result, payload_valid, DocView,
    KeyList, SubscriptionDocument, SubscriptionPayload,
};
use crate::usage::{
    amounts_wf, latest, summarize_usage, total_spec, Transaction, UsageResponse,
};

verus! {

/// The abstract value of a user: id, public key and subscription document.
pub type UserView = (int, Seq<char>, DocView);

/// A user of the service, identified by a public key.
pub struct User {
    pub id: i32,
    pub pubkey: String,
    pub subscriptions: SubscriptionDocument,
}

impl View for User {
    type V = UserView;

    open spec fn view(&self) -> UserView {
        (self.id as int, self.pubkey@, self.subscriptions@)
    }
}

/// A user together with the API key on its credit row.
pub struct UserWithApiKey {
    pub id: i32,
    pub pubkey: String,
    pub subscriptions: SubscriptionDocument,
    pub api_key: Option<String>,
}

/// A request to register a public key.
pub struct CreateUser {
    pub pubkey: String,
}

/// One recorded purchase of a package.
#[derive(Clone, Copy, Debug, PartialEq, Eq, Structural)]
pub struct TransactionRecord {
    pub id: i32,
    pub user_id: i32,
    pub package_id: i32,
    /// Creation time, in microseconds since the Unix epoch.
    pub created_at: i64,
}

/// A purchasable bundle of credits and its price.
#[derive(Clone, Copy, Debug, PartialEq, Eq, Structural)]
pub struct Package {
    pub id: i32,
    pub price_usdc: Usdc,
}

/// The abstract values of a sequence of users.
pub open spec fn users_view(s: Seq<User>) -> Seq<UserView> {
    s.map_values(|u: User| u@)
}

/// Position of the user with public key `pk` (the last such user), or -1.
pub open spec fn user_index(v: Seq<UserView>, pk: Seq<char>) -> int
    decreases v.len(),
{
    if v.len() == 0 {
        -1
    } else if v.last().1 == pk {
        v.len() - 1
    } else {
        user_index(v.drop_last(), pk)
    }
}

/// The directory after registering `pk`: unchanged when `pk` is known, else one new user
/// with the next id and an empty document.
pub open spec fn directory_after_create(v: Seq<UserView>, pk: Seq<char>) -> Seq<UserView> {
    if user_index(v, pk) >= 0 {
        v
    } else {
        v.push((v.len() + 1 as int, pk, Seq::empty()))
    }
}

/// The id that registering `pk` reports.
pub open spec fn id_after_create(v: Seq<UserView>, pk: Seq<char>) -> int {
    if user_index(v, pk) >= 0 {
        v[user_index(v, pk)].0
    } else {
        v.len() + 1 as int
    }
}

/// Each user's id is its position plus one, public keys are distinct, and every
/// subscription document is well formed.
pub open spec fn directory_wf(v: Seq<UserView>) -> bool {
    &&& forall|i: int| 0 <= i < v.len() ==> (#[trigger] v[i]).0 == i + 1
    &&& forall|i: int, j: int| 0 <= i < j < v.len() ==> v[i].1 != v[j].1
    &&& forall|i: int| 0 <= i < v.len() ==> doc_wf((#[trigger] v[i]).2)
}

/// How many users have public key `pk`.
pub open spec fn pubkey_count(v: Seq<UserView>, pk: Seq<char>) -> nat
    decreases v.len(),
{
    if v.len() == 0 {
        0
    } else {
        pubkey_count(v.drop_last(), pk) + if v.last().1 == pk {
            1nat
        } else {
            0nat
        }
    }
}

/// Position of package `id` (the last such package), or -1.
pub open spec fn package_index(p: Seq<Package>, id: i32) -> int
    decreases p.len(),
{
    if p.len() == 0 {
        -1
    } else if p.last().id == id {
        p.len() - 1
    } else {
        package_index(p.drop_last(), id)
    }
}

/// The transactions of `uid` that name a known package, with that package's price, in
/// the order recorded.
pub open spec fn priced_history(rows: Seq<TransactionRecord>, packages: Seq<Package>, uid: i32) -> Seq<
    Transaction,
>
    decreases rows.len(),
{
    if rows.len() == 0 {
        Seq::empty()
    } else {
        let p = priced_history(rows.drop_last(), packages, uid);
        let r = rows.last();
        let j = package_index(packages, r.package_id);
        if r.user_id == uid && j >= 0 {
            p.push(
                Transaction {
                    id: r.id,
                    package_id: r.package_id,
                    amount_usdc: packages[j].price_usdc,
                    created_at: r.created_at,
                },
            )
        } else {
            p
        }
    }
}

/// The position that `user_index` gives holds key `pk`; it is -1 exactly when no user
/// holds `pk`.
pub proof fn lemma_user_index(v: Seq<UserView>, pk: Seq<char>)
    ensures
        -1 <= user_index(v, pk) < v.len(),
        user_index(v, pk) >= 0 ==> v[user_index(v, pk)].1 == pk,
        user_index(v, pk) == -1 <==> pubkey_count(v, pk) == 0,
        user_index(v, pk) == -1 ==> forall|j: int| 0 <= j < v.len() ==> (#[trigger] v[j]).1 != pk,
    decreases v.len(),
{
    if v.len() > 0 {
        lemma_user_index(v.drop_last(), pk);
        if user_index(v, pk) == -1 {
            assert forall|j: int| 0 <= j < v.len() implies (#[trigger] v[j]).1 != pk by {
                if j < v.len() - 1 {
                    assert(v[j] == v.drop_last()[j]);
                }
            }
        }
    }
}

/// The position that `package_index` gives is within the catalog, or -1.
pub proof fn lemma_package_index(p: Seq<Package>, id: i32)
    ensures
        -1 <= package_index(p, id) < p.len(),
    decreases p.len(),
{
    if p.len() > 0 {
        lemma_package_index(p.drop_last(), id);
    }
}

/// Registering a public key keeps the directory well formed, and a new user's id belongs
/// to no user that was there before.
pub proof fn lemma_create_keeps_directory_wf(v: Seq<UserView>, pk: Seq<char>)
    requires
        directory_wf(v),
    ensures
        directory_wf(directory_after_create(v, pk)),
        user_index(v, pk) == -1 ==> forall|j: int|
            0 <= j < v.len() ==> (#[trigger] v[j]).0 != id_after_create(v, pk),
{
    lemma_user_index(v, pk);
    if user_index(v, pk) == -1 {
        let w = directory_after_create(v, pk);
        assert(doc_wf(Seq::<(Seq<char>, KeyList)>::empty()));
        assert forall|i: int| 0 <= i < w.len() implies (#[trigger] w[i]).0 == i + 1 by {
            if i < v.len() {
                assert(w[i] == v[i]);
            }
        }
        assert forall|i: int, j: int| 0 <= i < j < w.len() implies w[i].1 != w[j].1 by {
            assert(w[i] == v[i]);
            if j < v.len() {
                assert(w[j] == v[j]);
            }
        }
        assert forall|i: int| 0 <= i < w.len() implies doc_wf((#[trigger] w[i]).2) by {
            if i < v.len() {
                assert(w[i] == v[i]);
            }
        }
        assert forall|j: int| 0 <= j < v.len() implies (#[trigger] v[j]).0 != id_after_create(
            v,
            pk,
        ) by {
            assert(v[j].0 == j + 1);
        }
    }
}

/// Registering a public key twice gives the same id both times, changes nothing the second
/// time, and leaves a new key with exactly one user.
pub proof fn lemma_create_idempotent(v: Seq<UserView>, pk: Seq<char>)
    ensures
        directory_after_create(directory_after_create(v, pk), pk) == directory_after_create(v, pk),
        id_after_create(directory_after_create(v, pk), pk) == id_after_create(v, pk),
        pubkey_count(v, pk) == 0 ==> pubkey_count(directory_after_create(v, pk), pk) == 1,
{
    lemma_user_index(v, pk);
    let w = directory_after_create(v, pk);
    if user_index(v, pk) < 0 {
        assert(w.drop_last() =~= v);
        assert(user_index(w, pk) == v.len());
    }
}

/// A user without a credit row has a balance of 0, and a user without purchases has no
/// latest purchase and a total spend of exactly 0.
pub proof fn lemma_absence_defaults(rows: Seq<CreditAccount>, tx: Seq<TransactionRecord>, packages: Seq<Package>, uid: i32)
    ensures
        account_index(rows, uid) == -1 ==> balance(rows, uid) == 0,
        priced_history(tx, packages, uid).len() == 0 ==> latest(priced_history(tx, packages, uid)) is None,
        priced_history(tx, packages, uid).len() == 0 ==> total_spec(priced_history(tx, packages, uid)) == Some(
            Usdc { mantissa: 0, scale: 0 },
        ),
{
}

/// The whole account state: users, credit rows, purchases and the package catalog.
pub struct Accounts {
    pub users: Vec<User>,
    pub ledger: CreditLedger,
    pub transactions: Vec<TransactionRecord>,
    pub packages: Vec<Package>,
}

impl Accounts {
    /// Every package price is a valid decimal, the directory is well formed, and each
    /// transaction's id is its position plus one.
    pub open spec fn wf(&self) -> bool {
        &&& forall|j: int|
            0 <= j < self.packages@.len() ==> (#[trigger] self.packages@[j]).price_usdc.wf()
        &&& directory_wf(users_view(self.users@))
        &&& forall|j: int|
            0 <= j < self.transactions@.len() ==> (#[trigger] self.transactions@[j]).id == j + 1
    }

    /// An empty account state.
    pub fn new() -> (r: Accounts)
        ensures
            r.wf(),
            r.users@.len() == 0,
            r.ledger.accounts@.len() == 0,
            r.transactions@.len() == 0,
            r.packages@.len() == 0,
    {
        let r = Accounts {
            users: Vec::new(),
            ledger: CreditLedger::new(),
            transactions: Vec::new(),
            packages: Vec::new(),
        };
        assert(users_view(r.users@) =~= Seq::<UserView>::empty());
        r
    }

    /// Adds a package to the catalog.
    pub fn add_package(&mut self, id: i32, price_usdc: Usdc)
        requires
            old(self).wf(),
            price_usdc.wf(),
        ensures
            final(self).wf(),
            final(self).packages@ == old(self).packages@.push(Package { id, price_usdc }),
            final(self).users@ == old(self).users@,
            final(self).ledger == old(self).ledger,
            final(self).transactions@ == old(self).transactions@,
    {
        self.packages.push(Package { id, price_usdc });
        assert forall|j: int| 0 <= j < self.packages@.len() implies (#[trigger] self.packages@[
            j]).price_usdc.wf() by {
            if j < self.packages@.len() - 1 {
                assert(self.packages@[j] == old(self).packages@[j]);
            }
        }
    }

    /// Records a purchase of `package_id` by `user_id`, with the next transaction id.
    /// Fails with `StorageError` when the ids are used up.
    pub fn record_transaction(&mut self, user_id: i32, package_id: i32, created_at: i64) -> (r:
        Result<TransactionRecord, AccountError>)
        requires
            old(self).wf(),
        ensures
            final(self).wf(),
            final(self).users@ == old(self).users@,
            final(self).ledger == old(self).ledger,
            final(self).packages@ == old(self).packages@,
            match r {
                Ok(t) => old(self).transactions@.len() < i32::MAX && t == (TransactionRecord {
                    id: (old(self).transactions@.len() + 1) as i32,
                    user_id,
                    package_id,
                    created_at,
                }) && final(self).transactions@ == old(self).transactions@.push(t) && (forall|j: int|
                    0 <= j < old(self).transactions@.len() ==> (#[trigger] old(
                        self,
                    ).transactions@[j]).id != t.id),
                Err(e) => e == AccountError::StorageError && old(self).transactions@.len()
                    >= i32::MAX && final(self).transactions@ == old(self).transactions@,
            },
    {
        let n = self.transactions.len();
        if n >= 2147483647 {
            return Err(AccountError::StorageError);
        }
        let t = TransactionRecord { id: (n + 1) as i32, user_id, package_id, created_at };
        self.transactions.push(t);
        assert forall|j: int| 0 <= j < self.transactions@.len() implies (#[trigger] self.transactions@[
            j]).id == j + 1 by {
            if j < n {
                assert(self.transactions@[j] == old(self).transactions@[j]);
            }
        }
        Ok(t)
    }

    /// Position of the user with public key `pubkey`, searching from the end.
    pub fn find_user(&self, pubkey: &String) -> (r: Option<usize>)
        ensures
            match r {
                Some(i) => i as int == user_index(users_view(self.users@), pubkey@) && i
                    < self.users@.len(),
                None => user_index(users_view(self.users@), pubkey@) == -1,
            },
    {
        let ghost v = users_view(self.users@);
        proof {
            lemma_user_index(v, pubkey@);
        }
        let mut i: usize = self.users.len();
        assert(v.take(i as int) =~= v);
        while i > 0
            invariant
                i <= self.users@.len() == v.len(),
                v == users_view(self.users@),
                user_index(v, pubkey@) == user_index(v.take(i as int), pubkey@),
            decreases i,
        {
            assert(v.take(i as int).drop_last() =~= v.take(i - 1));
            if self.users[i - 1].pubkey == *pubkey {
                return Some(i - 1);
            }
            i = i - 1;
        }
        None
    }

    fn find_package(&self, id: i32) -> (r: Option<usize>)
        ensures
            match r {
                Some(j) => j as int == package_index(self.packages@, id) && j
                    < self.packages@.len(),
                None => package_index(self.packages@, id) == -1,
            },
    {
        proof {
            lemma_package_index(self.packages@, id);
        }
        let mut i: usize = self.packages.len();
        assert(self.packages@.take(i as int) =~= self.packages@);
        while i > 0
            invariant
                i <= self.packages@.len(),
                package_index(self.packages@, id) == package_index(
                    self.packages@.take(i as int),
                    id,
                ),
            decreases i,
        {
            assert(self.packages@.take(i as int).drop_last() =~= self.packages@.take(i - 1));
            if self.packages[i - 1].id == id {
                return Some(i - 1);
            }
            i = i - 1;
        }
        None
    }

    /// The purchases of `uid`, each with the price of its package.
    pub fn history_of(&self, uid: i32) -> (r: Vec<Transaction>)
        requires
            self.wf(),
        ensures
            r@ == priced_history(self.transactions@, self.packages@, uid),
            amounts_wf(r@),
    {
        let mut r: Vec<Transaction> = Vec::new();
        let mut i: usize = 0;
        while i < self.transactions.len()
            invariant
                self.wf(),
                i <= self.transactions@.len(),
                r@ == priced_history(self.transactions@.take(i as int), self.packages@, uid),
                amounts_wf(r@),
            decreases self.transactions@.len() - i,
        {
            assert(self.transactions@.take(i + 1).drop_last() =~= self.transactions@.take(
                i as int,
            ));
            let row = self.transactions[i];
            if row.user_id == uid {
                match self.find_package(row.package_id) {
                    Some(j) => {
                        let ghost before = r@;
                        r.push(
                            Transaction {
                                id: row.id,
                                package_id: row.package_id,
                                amount_usdc: self.packages[j].price_usdc,
                                created_at: row.created_at,
                            },
                        );
                        assert(self.packages@[j as int].price_usdc.wf());
                        assert forall|k: int| 0 <= k < r@.len() implies (#[trigger] r@[
                            k]).amount_usdc.wf() by {
                            if k < before.len() {
                                assert(r@[k] == before[k]);
                            }
                        }
                    },
                    None => {},
                }
            }
            i = i + 1;
        }
        assert(self.transactions@.take(self.transactions@.len() as int) =~= self.transactions@);
        r
    }
}

/// A copy of a user.
pub fn copy_user(u: &User) -> (r: User)
    ensures
        r@ == u@,
{
    User { id: u.id, pubkey: u.pubkey.clone(), subscriptions: u.subscriptions.duplicate() }
}

/// Registers `payload.pubkey`. A known key gives its existing user (`false`: nothing
/// created); a new key gives a new user with the next id and an empty document (`true`).
/// Fails with `StorageError`, changing nothing, when the ids are used up.
pub fn create_user(accounts: &mut Accounts, payload: &CreateUser) -> (r: Result<
    (bool, User),
    AccountError,
>)
    requires
        old(accounts).wf(),
    ensures
        final(accounts).wf(),
        final(accounts).ledger == old(accounts).ledger,
        final(accounts).transactions@ == old(accounts).transactions@,
        final(accounts).packages@ == old(accounts).packages@,
        match r {
            Ok((created, u)) => {
                &&& created ==> forall|j: int|
                    0 <= j < old(accounts).users@.len() ==> (#[trigger] old(accounts).users@[j]).id
                        != u.id
                &&& created == (user_index(users_view(old(accounts).users@), payload.pubkey@)
                    == -1)
                &&& users_view(final(accounts).users@) == directory_after_create(
                    users_view(old(accounts).users@),
                    payload.pubkey@,
                )
                &&& u@.0 == id_after_create(users_view(old(accounts).users@), payload.pubkey@)
                &&& u@ == users_view(final(accounts).users@)[user_index(
                    users_view(final(accounts).users@),
                    payload.pubkey@,
                )]
            },
            Err(e) => {
                &&& e == AccountError::StorageError
                &&& user_index(users_view(old(accounts).users@), payload.pubkey@) == -1
                &&& old(accounts).users@.len() >= i32::MAX
                &&& final(accounts).users@ == old(accounts).users@
            },
        },
{
    let ghost v = users_view(accounts.users@);
    proof {
        lemma_user_index(v, payload.pubkey@);
        lemma_create_keeps_directory_wf(v, payload.pubkey@);
    }
    match accounts.find_user(&payload.pubkey) {
        Some(i) => {
            let u = copy_user(&accounts.users[i]);
            assert(users_view(accounts.users@)[i as int] == accounts.users@[i as int]@);
            Ok((false, u))
        },
        None => {
            let n = accounts.users.len();
            if n >= 2147483647 {
                return Err(AccountError::StorageError);
            }
            let u = User {
                id: (n + 1) as i32,
                pubkey: payload.pubkey.clone(),
                subscriptions: SubscriptionDocument::new(),
            };
            let r = copy_user(&u);
            accounts.users.push(u);
            proof {
                let w = users_view(accounts.users@);
                assert(w =~= v.push(r@));
                assert(w.drop_last() =~= v);
                assert(user_index(w, payload.pubkey@) == n);
                assert forall|j: int| 0 <= j < old(accounts).users@.len() implies (#[trigger] old(
                    accounts,
                ).users@[j]).id != r.id by {
                    assert(v[j].0 == old(accounts).users@[j].id);
                }
            }
            Ok((true, r))
        },
    }
}

/// A copy of every user.
pub fn get_users(accounts: &Accounts) -> (r: Vec<User>)
    ensures
        users_view(r@) == users_view(accounts.users@),
{
    let mut r: Vec<User> = Vec::new();
    let mut i: usize = 0;
    while i < accounts.users.len()
        invariant
            i <= accounts.users@.len(),
            users_view(r@) == users_view(accounts.users@).take(i as int),
        decreases accounts.users@.len() - i,
    {
        let ghost before = users_view(r@);
        let u = copy_user(&accounts.users[i]);
        r.push(u);
        assert(users_view(r@) =~= before.push(accounts.users@[i as int]@));
        assert(users_view(accounts.users@).take(i + 1) =~= users_view(accounts.users@).take(
            i as int,
        ).push(accounts.users@[i as int]@));
        i = i + 1;
    }
    assert(users_view(accounts.users@).take(accounts.users@.len() as int) =~= users_view(
        accounts.users@,
    ));
    r
}

/// The user with public key `pubkey`, with the API key on its credit row.
/// Fails with `NotFound` exactly when no user has that key.
pub fn get_user_by_pubkey(accounts: &Accounts, pubkey: &String) -> (r: Result<
    UserWithApiKey,
    AccountError,
>)
    ensures
        r is Err <==> user_index(users_view(accounts.users@), pubkey@) == -1,
        r matches Err(e) ==> e == AccountError::NotFound,
        r matches Ok(u) ==> {
            let i = user_index(users_view(accounts.users@), pubkey@);
            let ai = account_index(accounts.ledger.accounts@, u.id);
            &&& (u.id as int, u.pubkey@, u.subscriptions@) == accounts.users@[i]@
            &&& u.api_key == if ai >= 0 {
                accounts.ledger.accounts@[ai].api_key
            } else {
                None
            }
        },
{
    match accounts.find_user(pubkey) {
        None => Err(AccountError::NotFound),
        Some(i) => {
            let u = copy_user(&accounts.users[i]);
            let api_key = accounts.ledger.api_key(u.id);
            Ok(UserWithApiKey { id: u.id, pubkey: u.pubkey, subscriptions: u.subscriptions, api_key })
        },
    }
}

/// The confirmation text for an updated user.
pub open spec fn updated_message(pk: Seq<char>) -> Seq<char> {
    "Subscriptions updated for user: "@ + pk
}

/// Applies a subscription instruction to the document of the user with key `pubkey`,
/// replacing the document whole, and returns a confirmation naming that key.
/// Fails with `NotFound` when no user has the key, and with `InvalidInput` when the keyword
/// starts with neither `subscribe` nor `unsubscribe`; either way nothing changes.
pub fn manage_subscription(
    accounts: &mut Accounts,
    pubkey: &String,
    payload: &SubscriptionPayload,
) -> (r: Result<String, AccountError>)
    requires
        old(accounts).wf(),
    ensures
        final(accounts).wf(),
        final(accounts).ledger == old(accounts).ledger,
        final(accounts).transactions@ == old(accounts).transactions@,
        final(accounts).packages@ == old(accounts).packages@,
        ({
            let v = users_view(old(accounts).users@);
            let i = user_index(v, pubkey@);
            match r {
                Ok(msg) => {
                    &&& i >= 0
                    &&& payload_valid(payload)
                    &&& msg@ == updated_message(pubkey@)
                    &&& users_view(final(accounts).users@) == v.update(
                        i,
                        (v[i].0, v[i].1, payload_result(v[i].2, payload)),
                    )
                },
                Err(e) => {
                    &&& final(accounts).users@ == old(accounts).users@
                    &&& e == if i == -1 {
                        AccountError::NotFound
                    } else {
                        AccountError::InvalidInput
                    }
                    &&& (i >= 0 ==> !payload_valid(payload))
                },
            }
        }),
{
    let ghost v = users_view(accounts.users@);
    proof {
        lemma_user_index(v, pubkey@);
    }
    match accounts.find_user(pubkey) {
        None => Err(AccountError::NotFound),
        Some(i) => {
            let mut doc = accounts.users[i].subscriptions.duplicate();
            if !apply_subscription(&mut doc, payload) {
                return Err(AccountError::InvalidInput);
            }
            let ghost d = doc@;
            accounts.users[i].subscriptions = doc;
            assert(users_view(accounts.users@) =~= v.update(i as int, (v[i as int].0, v[i as int].1, d)));
            proof {
                let w = users_view(accounts.users@);
                assert(v[i as int].2 == old(accounts).users@[i as int].subscriptions@);
                lemma_payload_preserves_wf(v[i as int].2, payload);
                assert forall|p: int| 0 <= p < w.len() implies (#[trigger] w[p]).0 == p + 1 by {
                    assert(w[p].0 == v[p].0);
                }
                assert forall|p: int, q: int| 0 <= p < q < w.len() implies w[p].1 != w[q].1 by {
                    assert(w[p].1 == v[p].1 && w[q].1 == v[q].1);
                }
                assert forall|p: int| 0 <= p < w.len() implies doc_wf((#[trigger] w[p]).2) by {
                    if p != i {
                        assert(w[p] == v[p]);
                    }
                }
            }
            let prefix = "Subscriptions updated for user: ";
            let msg = String::from_str(prefix).concat(pubkey.as_str());
            Ok(msg)
        },
    }
}

/// The usage summary of the user with key `pubkey`: its remaining credits (0 without a
/// credit row), its latest purchase, and the exact total of the prices of its purchases.
/// Fails with `NotFound` exactly when no user has the key, and with `StorageError` when
/// the total leaves the decimal range.
pub fn get_usage(accounts: &Accounts, pubkey: &String) -> (r: Result<UsageResponse, AccountError>)
    requires
        accounts.wf(),
    ensures
        ({
            let v = users_view(accounts.users@);
            let i = user_index(v, pubkey@);
            let uid = accounts.users@[i].id;
            let h = priced_history(accounts.transactions@, accounts.packages@, uid);
            match r {
                Ok(u) => {
                    &&& i >= 0
                    &&& u.remaining_credits == balance(accounts.ledger.accounts@, uid)
                    &&& u.last_transaction == latest(h)
                    &&& Some(u.total_spent_usdc) == total_spec(h)
                },
                Err(e) => if i == -1 {
                    e == AccountError::NotFound
                } else {
                    e == AccountError::StorageError && total_spec(h) is None
                },
            }
        }),
{
    match accounts.find_user(pubkey) {
        None => Err(AccountError::NotFound),
        Some(i) => {
            let uid = accounts.users[i].id;
            let row = accounts.ledger.row_balance(uid);
            let history = accounts.history_of(uid);
            match summarize_usage(row, &history) {
                Some(u) => Ok(u),
                None => Err(AccountError::StorageError),
            }
        },
    }
}

} // verus!
