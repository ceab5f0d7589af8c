//! The account store: accounts under unique names, each with its password
//! encrypted under the store's key, listed in the order of their names.

use crate::account::{valid_parts, Account, AccountView};
use crate::cipher::{seal_opens, NONCE_LEN};
use crate::key_order::{
    compare_keys, key_lt, lemma_key_lt_asymmetric, lemma_key_lt_transitive, KeyOrder,
};
use crate::password::{
    decrypt_outcome, encrypt_outcome, encrypted_from, lemma_decrypt_restores_plaintext,
    PasswordCryptoError, PasswordView,
};
use vstd::pervasive::unreached;
use vstd::prelude::*;
use vstd::utf8::encode_utf8;

verus! {

/// What a listing shows in place of a password that it does not reveal.
pub const PASSWORD_MASK: &'static str = "********";

/// Why the store refused an operation.
#[derive(Debug)]
pub enum AccountStoreError {
    /// No account is kept under this name.
    AccountDoesNotExist(String),
    /// An account is kept under this name already.
    AccountAlreadyExists(String),
    /// A password could not be encrypted or decrypted.
    Crypto(PasswordCryptoError),
}

/// What an `AccountStoreError` holds.
pub enum StoreErrorView {
    AccountDoesNotExist(Seq<char>),
    AccountAlreadyExists(Seq<char>),
    Crypto(PasswordCryptoError),
}

impl View for AccountStoreError {
    type V = StoreErrorView;

    open spec fn view(&self) -> StoreErrorView {
        match self {
            AccountStoreError::AccountDoesNotExist(name) => StoreErrorView::AccountDoesNotExist(
                name@,
            ),
            AccountStoreError::AccountAlreadyExists(name) => StoreErrorView::AccountAlreadyExists(
                name@,
            ),
            AccountStoreError::Crypto(e) => StoreErrorView::Crypto(*e),
        }
    }
}

/// How an operation of the store ended.
pub open spec fn outcome_view(r: Result<(), AccountStoreError>) -> Result<(), StoreErrorView> {
    match r {
        Ok(()) => Ok(()),
        Err(e) => Err(e@),
    }
}

/// One account as a listing shows it: the password is the mask or the
/// secret itself, never the encrypted value.
#[derive(Debug)]
pub struct AccountListing {
    pub app_name: String,
    pub username: Option<String>,
    pub email: String,
    pub password: String,
    pub created_at: i64,
}

/// What an `AccountListing` holds.
pub struct ListingView {
    pub app_name: Seq<char>,
    pub username: Option<Seq<char>>,
    pub email: Seq<char>,
    pub password: Seq<char>,
    pub created_at: i64,
}

impl View for AccountListing {
    type V = ListingView;

    open spec fn view(&self) -> ListingView {
        ListingView {
            app_name: self.app_name@,
            username: crate::account::username_view(self.username),
            email: self.email@,
            password: self.password@,
            created_at: self.created_at,
        }
    }
}

/// What the store holds: the account kept under each name.
pub type StoreMap = Map<Seq<char>, AccountView>;

/// True when `account` is fit to be kept in a store that encrypts under
/// `key`: its parts are valid, and its password is encrypted and decrypts
/// under `key`.
pub open spec fn fit_to_keep(account: AccountView, key: Seq<u8>) -> bool {
    &&& valid_parts(account.app_name, account.email)
    &&& account.password.is_encrypted
    &&& decrypt_outcome(account.password, key) is Ok
}

/// True of every store that encrypts under `key`: it holds finitely many
/// accounts, each under its own name and fit to be kept.
pub open spec fn valid_store(store: StoreMap, key: Seq<u8>) -> bool {
    &&& store.dom().finite()
    &&& forall|name: Seq<char>| #[trigger]
        store.contains_key(name) ==> store[name].app_name == name && fit_to_keep(
            store[name],
            key,
        )
}

/// `account` as the store keeps it, with `password` in place of its own.
pub open spec fn kept(account: AccountView, password: PasswordView) -> AccountView {
    AccountView { password, ..account }
}

/// What `push` makes of `store` and `account` where it draws `nonce`: how it
/// ends, and the store that it leaves.
pub open spec fn push_outcome(
    store: StoreMap,
    account: AccountView,
    key: Seq<u8>,
    nonce: Seq<u8>,
) -> (Result<(), StoreErrorView>, StoreMap) {
    if store.contains_key(account.app_name) {
        (Err(StoreErrorView::AccountAlreadyExists(account.app_name)), store)
    } else {
        match encrypt_outcome(account.password, key, nonce) {
            Err(e) => (Err(StoreErrorView::Crypto(e)), store),
            Ok(password) => (Ok(()), store.insert(account.app_name, kept(account, password))),
        }
    }
}

/// What `delete_account` makes of `store` and `app_name`.
pub open spec fn delete_outcome(store: StoreMap, app_name: Seq<char>) -> (
    Result<(), StoreErrorView>,
    StoreMap,
) {
    if store.contains_key(app_name) {
        (Ok(()), store.remove(app_name))
    } else {
        (Err(StoreErrorView::AccountDoesNotExist(app_name)), store)
    }
}

/// What `modify_account` makes of `store` where it draws `nonce`: the old
/// account leaves first, and stays away where the new one is refused.
pub open spec fn modify_outcome(
    store: StoreMap,
    app_name: Seq<char>,
    account: AccountView,
    key: Seq<u8>,
    nonce: Seq<u8>,
) -> (Result<(), StoreErrorView>, StoreMap) {
    if store.contains_key(app_name) {
        push_outcome(store.remove(app_name), account, key, nonce)
    } else {
        (Err(StoreErrorView::AccountDoesNotExist(app_name)), store)
    }
}

/// True when an operation that encrypts `account` with `nonce` ended with
/// `outcome`: the nonce has its length, and where the operation succeeded
/// the cipher has sealed the password so that it opens again.
pub open spec fn sealed_with(
    account: AccountView,
    key: Seq<u8>,
    nonce: Seq<u8>,
    outcome: Result<(), StoreErrorView>,
) -> bool {
    &&& nonce.len() == NONCE_LEN
    &&& outcome is Ok ==> seal_opens(key, nonce, encode_utf8(account.password.value))
}

/// The password that a listing shows for a kept `password`: the mask, or,
/// where it reveals, the plaintext that decryption under `key` gives.
pub open spec fn shown_password(password: PasswordView, key: Seq<u8>, reveal: bool) -> Seq<char> {
    if reveal {
        decrypt_outcome(password, key)->Ok_0.value
    } else {
        PASSWORD_MASK@
    }
}

/// `account` as a listing shows it with `password`.
pub open spec fn listed(account: AccountView, password: Seq<char>) -> ListingView {
    ListingView {
        app_name: account.app_name,
        username: account.username,
        email: account.email,
        password,
        created_at: account.created_at,
    }
}

/// True when `list` is the listing of `store`: every account once, in the
/// order of the names, each shown with its password masked or revealed.
pub open spec fn is_listing(
    store: StoreMap,
    key: Seq<u8>,
    reveal: bool,
    list: Seq<AccountListing>,
) -> bool {
    &&& list.len() == store.len()
    &&& forall|i: int, j: int|
        0 <= i < j < list.len() ==> key_lt(
            (#[trigger] list[i])@.app_name,
            (#[trigger] list[j])@.app_name,
        )
    &&& forall|i: int|
        0 <= i < list.len() ==> {
            let name = (#[trigger] list[i])@.app_name;
            &&& store.contains_key(name)
            &&& list[i]@ == listed(store[name], shown_password(store[name].password, key, reveal))
        }
    &&& forall|name: Seq<char>|
        store.contains_key(name) ==> exists|i: int|
            0 <= i < list.len() && (#[trigger] list[i])@.app_name == name
}

/// A second account under a name that the store holds is refused: after an
/// account was kept, keeping another of the same name ends in
/// `AccountAlreadyExists` with that name, and the store, one account larger
/// than before the first, stays as the first left it.
pub proof fn lemma_second_push_refused(
    store: StoreMap,
    first: AccountView,
    second: AccountView,
    key: Seq<u8>,
    first_nonce: Seq<u8>,
    second_nonce: Seq<u8>,
)
    requires
        valid_store(store, key),
        first.app_name == second.app_name,
        push_outcome(store, first, key, first_nonce).0 is Ok,
    ensures
        ({
            let held = push_outcome(store, first, key, first_nonce).1;
            &&& push_outcome(held, second, key, second_nonce) == (
                Err::<(), StoreErrorView>(StoreErrorView::AccountAlreadyExists(second.app_name)),
                held,
            )
            &&& held.len() == store.len() + 1
        }),
{
}

/// Deleting under a name that the store does not hold is refused with
/// `AccountDoesNotExist`, and the store, and so its count, is unchanged.
pub proof fn lemma_delete_absent(store: StoreMap, app_name: Seq<char>)
    requires
        !store.contains_key(app_name),
    ensures
        delete_outcome(store, app_name) == (
            Err::<(), StoreErrorView>(StoreErrorView::AccountDoesNotExist(app_name)),
            store,
        ),
{
}

/// Deleting an account that was just kept gives back the store as it was
/// before, one account smaller.
pub proof fn lemma_delete_undoes_push(
    store: StoreMap,
    account: AccountView,
    key: Seq<u8>,
    nonce: Seq<u8>,
)
    requires
        valid_store(store, key),
        push_outcome(store, account, key, nonce).0 is Ok,
    ensures
        ({
            let held = push_outcome(store, account, key, nonce).1;
            &&& delete_outcome(held, account.app_name) == (Ok::<(), StoreErrorView>(()), store)
            &&& store.len() == held.len() - 1
        }),
{
    let held = push_outcome(store, account, key, nonce).1;
    assert(held.remove(account.app_name) =~= store);
}

/// What the store keeps of an account decrypts, under the store's key, to
/// the password that the account came with.
pub proof fn lemma_kept_password_decrypts(
    store: StoreMap,
    account: AccountView,
    key: Seq<u8>,
    nonce: Seq<u8>,
)
    requires
        push_outcome(store, account, key, nonce).0 is Ok,
        sealed_with(account, key, nonce, push_outcome(store, account, key, nonce).0),
    ensures
        ({
            let held = push_outcome(store, account, key, nonce).1;
            &&& held.contains_key(account.app_name)
            &&& held[account.app_name].password.is_encrypted
            &&& decrypt_outcome(held[account.app_name].password, key) == Ok::<
                PasswordView,
                PasswordCryptoError,
            >(account.password)
        }),
{
    let held = push_outcome(store, account, key, nonce).1;
    let stored = held[account.app_name].password;
    assert(encrypted_from(account.password, key, nonce, stored));
    lemma_decrypt_restores_plaintext(account.password, key, nonce, stored);
}

/// Keeping an account leaves a valid store: one account larger where it
/// succeeded, unchanged where it did not.
pub proof fn lemma_push_keeps_store_valid(
    store: StoreMap,
    account: AccountView,
    key: Seq<u8>,
    nonce: Seq<u8>,
)
    requires
        valid_store(store, key),
        valid_parts(account.app_name, account.email),
        sealed_with(account, key, nonce, push_outcome(store, account, key, nonce).0),
    ensures
        ({
            let (outcome, after) = push_outcome(store, account, key, nonce);
            &&& valid_store(after, key)
            &&& outcome is Ok ==> after.len() == store.len() + 1
            &&& outcome is Err ==> after == store
        }),
{
    let (outcome, after) = push_outcome(store, account, key, nonce);
    if outcome is Ok {
        lemma_kept_password_decrypts(store, account, key, nonce);
    }
}

/// Deleting leaves a valid store: one account smaller where it succeeded,
/// unchanged where it did not.
pub proof fn lemma_delete_keeps_store_valid(store: StoreMap, app_name: Seq<char>, key: Seq<u8>)
    requires
        valid_store(store, key),
    ensures
        ({
            let (outcome, after) = delete_outcome(store, app_name);
            &&& valid_store(after, key)
            &&& outcome is Ok ==> after.len() == store.len() - 1
            &&& outcome is Err ==> after == store
        }),
{
}

/// Replacing an account leaves a valid store: as large as before where it
/// succeeded, and, where the new account was refused after the old one was
/// found, one account smaller.
pub proof fn lemma_modify_keeps_store_valid(
    store: StoreMap,
    app_name: Seq<char>,
    account: AccountView,
    key: Seq<u8>,
    nonce: Seq<u8>,
)
    requires
        valid_store(store, key),
        valid_parts(account.app_name, account.email),
        sealed_with(account, key, nonce, modify_outcome(store, app_name, account, key, nonce).0),
    ensures
        ({
            let (outcome, after) = modify_outcome(store, app_name, account, key, nonce);
            &&& valid_store(after, key)
            &&& outcome is Ok ==> after.len() == store.len()
            &&& !store.contains_key(app_name) ==> after == store
            &&& outcome is Err && store.contains_key(app_name) ==> after == store.remove(app_name)
        }),
{
    if store.contains_key(app_name) {
        lemma_delete_keeps_store_valid(store, app_name, key);
        lemma_push_keeps_store_valid(store.remove(app_name), account, key, nonce);
    }
}

/// The name under which the `i`-th of `accounts` is kept.
spec fn key_at(accounts: Seq<Account>, i: int) -> Seq<char> {
    accounts[i]@.app_name
}

/// True when the names of `accounts` ascend.
spec fn ascending(accounts: Seq<Account>) -> bool {
    forall|i: int, j: int|
        0 <= i < j < accounts.len() ==> key_lt(
            #[trigger] key_at(accounts, i),
            #[trigger] key_at(accounts, j),
        )
}

/// True when one of `accounts` is kept under `name`.
spec fn holds(accounts: Seq<Account>, name: Seq<char>) -> bool {
    exists|i: int| 0 <= i < accounts.len() && #[trigger] key_at(accounts, i) == name
}

/// Where in `accounts` the account of `name` stands.
spec fn position(accounts: Seq<Account>, name: Seq<char>) -> int {
    choose|i: int| 0 <= i < accounts.len() && #[trigger] key_at(accounts, i) == name
}

/// The accounts by their names.
spec fn as_map(accounts: Seq<Account>) -> StoreMap {
    Map::new(|name: Seq<char>| holds(accounts, name), |name: Seq<char>| accounts[position(accounts, name)]@)
}

/// True when each of `accounts` is fit to be kept under `key`.
spec fn all_kept(accounts: Seq<Account>, key: Seq<u8>) -> bool {
    forall|i: int| 0 <= i < accounts.len() ==> fit_to_keep((#[trigger] accounts[i])@, key)
}

/// Among ascending names each stands at one place only.
proof fn lemma_position(accounts: Seq<Account>, i: int)
    requires
        ascending(accounts),
        0 <= i < accounts.len(),
    ensures
        holds(accounts, key_at(accounts, i)),
        position(accounts, key_at(accounts, i)) == i,
{
    let name = key_at(accounts, i);
    let p = position(accounts, name);
    if p < i {
        lemma_key_lt_asymmetric(key_at(accounts, p), key_at(accounts, i));
    } else if i < p {
        lemma_key_lt_asymmetric(key_at(accounts, i), key_at(accounts, p));
    }
}

/// Putting an account where its name belongs keeps the names ascending and
/// adds the account to the map.
proof fn lemma_insert(accounts: Seq<Account>, at: int, account: Account)
    requires
        ascending(accounts),
        0 <= at <= accounts.len(),
        forall|j: int| 0 <= j < at ==> key_lt(#[trigger] key_at(accounts, j), account@.app_name),
        forall|j: int|
            at <= j < accounts.len() ==> key_lt(account@.app_name, #[trigger] key_at(accounts, j)),
    ensures
        ascending(accounts.insert(at, account)),
        !holds(accounts, account@.app_name),
        as_map(accounts.insert(at, account)) == as_map(accounts).insert(
            account@.app_name,
            account@,
        ),
{
    let after = accounts.insert(at, account);
    let name = account@.app_name;
    assert forall|i: int, j: int| 0 <= i < j < after.len() implies key_lt(
        #[trigger] key_at(after, i),
        #[trigger] key_at(after, j),
    ) by {
        let x = if i < at {
            i
        } else {
            i - 1
        };
        let y = if j < at {
            j
        } else {
            j - 1
        };
        if i == at {
            assert(key_at(after, j) == key_at(accounts, y));
        } else if j == at {
            assert(key_at(after, i) == key_at(accounts, x));
        } else {
            assert(key_at(after, i) == key_at(accounts, x));
            assert(key_at(after, j) == key_at(accounts, y));
        }
    }
    if holds(accounts, name) {
        let p = position(accounts, name);
        if p < at {
            lemma_key_lt_asymmetric(key_at(accounts, p), name);
        } else {
            lemma_key_lt_asymmetric(name, key_at(accounts, p));
        }
    }
    let left = as_map(after);
    let right = as_map(accounts).insert(name, account@);
    assert forall|k: Seq<char>| left.contains_key(k) <==> right.contains_key(k) by {
        if holds(after, k) {
            let p = position(after, k);
            if p < at {
                assert(key_at(accounts, p) == k);
            } else if p > at {
                assert(key_at(accounts, p - 1) == k);
            }
        }
        if holds(accounts, k) {
            let p = position(accounts, k);
            if p < at {
                assert(key_at(after, p) == k);
            } else {
                assert(key_at(after, p + 1) == k);
            }
        }
        if k == name {
            assert(key_at(after, at) == k);
        }
    }
    assert forall|k: Seq<char>| left.contains_key(k) implies left[k] == right[k] by {
        let p = position(after, k);
        lemma_position(after, p);
        if p < at {
            lemma_position(accounts, p);
        } else if p > at {
            lemma_position(accounts, p - 1);
        }
    }
    assert(left =~= right);
}

/// Taking an account out keeps the names ascending and removes its name
/// from the map.
proof fn lemma_remove(accounts: Seq<Account>, at: int)
    requires
        ascending(accounts),
        0 <= at < accounts.len(),
    ensures
        ascending(accounts.remove(at)),
        as_map(accounts.remove(at)) == as_map(accounts).remove(key_at(accounts, at)),
{
    let after = accounts.remove(at);
    let name = key_at(accounts, at);
    assert forall|i: int, j: int| 0 <= i < j < after.len() implies key_lt(
        #[trigger] key_at(after, i),
        #[trigger] key_at(after, j),
    ) by {
        let x = if i < at {
            i
        } else {
            i + 1
        };
        let y = if j < at {
            j
        } else {
            j + 1
        };
        assert(key_at(after, i) == key_at(accounts, x));
        assert(key_at(after, j) == key_at(accounts, y));
    }
    let left = as_map(after);
    let right = as_map(accounts).remove(name);
    assert forall|k: Seq<char>| left.contains_key(k) <==> right.contains_key(k) by {
        if holds(after, k) {
            let p = position(after, k);
            let x = if p < at {
                p
            } else {
                p + 1
            };
            assert(key_at(accounts, x) == k);
            lemma_position(accounts, x);
            lemma_position(accounts, at);
        }
        if holds(accounts, k) && k != name {
            let p = position(accounts, k);
            if p < at {
                assert(key_at(after, p) == k);
            } else {
                assert(key_at(after, p - 1) == k);
            }
        }
    }
    assert forall|k: Seq<char>| left.contains_key(k) implies left[k] == right[k] by {
        let p = position(after, k);
        lemma_position(after, p);
        let x = if p < at {
            p
        } else {
            p + 1
        };
        lemma_position(accounts, x);
    }
    assert(left =~= right);
}

/// Ascending names make a finite map with one entry for each account.
proof fn lemma_count(accounts: Seq<Account>)
    requires
        ascending(accounts),
    ensures
        as_map(accounts).dom().finite(),
        as_map(accounts).len() == accounts.len(),
    decreases accounts.len(),
{
    if accounts.len() == 0 {
        assert(as_map(accounts) =~= Map::<Seq<char>, AccountView>::empty());
    } else {
        let at = accounts.len() - 1;
        let rest = accounts.drop_last();
        let last = accounts[at];
        assert forall|i: int, j: int| 0 <= i < j < rest.len() implies key_lt(
            #[trigger] key_at(rest, i),
            #[trigger] key_at(rest, j),
        ) by {
            assert(key_at(rest, i) == key_at(accounts, i));
            assert(key_at(rest, j) == key_at(accounts, j));
        }
        assert forall|j: int| 0 <= j < at implies key_lt(
            #[trigger] key_at(rest, j),
            last@.app_name,
        ) by {
            assert(key_at(rest, j) == key_at(accounts, j));
            assert(key_at(accounts, at) == last@.app_name);
        }
        lemma_count(rest);
        lemma_insert(rest, at, last);
        assert(rest.insert(at, last) =~= accounts);
        assert(!as_map(rest).dom().contains(last@.app_name));
    }
}

/// The map of accounts that are fit to be kept is a valid store.
proof fn lemma_valid(accounts: Seq<Account>, key: Seq<u8>)
    requires
        ascending(accounts),
        all_kept(accounts, key),
    ensures
        valid_store(as_map(accounts), key),
{
    lemma_count(accounts);
    let store = as_map(accounts);
    assert forall|name: Seq<char>| #[trigger] store.contains_key(name) implies store[name].app_name
        == name && fit_to_keep(store[name], key) by {
        let p = position(accounts, name);
        assert(key_at(accounts, p) == name);
    }
}

/// A store of accounts under a key.
pub struct AccountStore {
    accounts: Vec<Account>,
    key: [u8; 32],
}

impl View for AccountStore {
    type V = StoreMap;

    closed spec fn view(&self) -> StoreMap {
        as_map(self.accounts@)
    }
}

impl AccountStore {
    #[verifier::type_invariant]
    spec fn well_formed(&self) -> bool {
        ascending(self.accounts@) && all_kept(self.accounts@, self.key@)
    }

    /// The key under which the store encrypts its passwords.
    pub closed spec fn key(&self) -> Seq<u8> {
        self.key@
    }

    /// An empty store that encrypts under `key`.
    pub fn new(key: [u8; 32]) -> (store: Self)
        ensures
            store@ == Map::<Seq<char>, AccountView>::empty(),
            store.key() == key@,
            valid_store(store@, store.key()),
    {
        let store = AccountStore { accounts: Vec::new(), key };
        proof {
            lemma_valid(store.accounts@, store.key@);
            assert(store@ =~= Map::<Seq<char>, AccountView>::empty());
        }
        store
    }

    /// The number of accounts in the store.
    pub fn count(&self) -> (n: usize)
        ensures
            n == self@.len(),
            valid_store(self@, self.key()),
    {
        proof {
            use_type_invariant(self);
            lemma_valid(self.accounts@, self.key@);
            lemma_count(self.accounts@);
        }
        self.accounts.len()
    }

    /// Where the account of `app_name` stands, or would stand, and whether
    /// it is there.
    fn locate(&self, app_name: &str) -> (r: (usize, bool))
        ensures
            r.0 <= self.accounts@.len(),
            forall|j: int| 0 <= j < r.0 ==> key_lt(#[trigger] key_at(self.accounts@, j), app_name@),
            r.1 ==> r.0 < self.accounts@.len() && key_at(self.accounts@, r.0 as int) == app_name@,
            !r.1 ==> forall|j: int|
                r.0 <= j < self.accounts@.len() ==> key_lt(
                    app_name@,
                    #[trigger] key_at(self.accounts@, j),
                ),
            r.1 == self@.contains_key(app_name@),
    {
        proof {
            use_type_invariant(self);
        }
        let mut i: usize = 0;
        let mut found = false;
        while i < self.accounts.len()
            invariant_except_break
                !found,
            invariant
                i <= self.accounts@.len(),
                ascending(self.accounts@),
                forall|j: int| 0 <= j < i ==> key_lt(#[trigger] key_at(self.accounts@, j), app_name@),
            ensures
                i <= self.accounts@.len(),
                forall|j: int| 0 <= j < i ==> key_lt(#[trigger] key_at(self.accounts@, j), app_name@),
                found ==> i < self.accounts@.len() && key_at(self.accounts@, i as int) == app_name@,
                !found ==> forall|j: int|
                    i <= j < self.accounts@.len() ==> key_lt(
                        app_name@,
                        #[trigger] key_at(self.accounts@, j),
                    ),
            decreases self.accounts@.len() - i,
        {
            match compare_keys(self.accounts[i].key(), app_name) {
                KeyOrder::Before => {
                    i += 1;
                },
                KeyOrder::Same => {
                    found = true;
                    break ;
                },
                KeyOrder::After => {
                    proof {
                        assert forall|j: int| i <= j < self.accounts@.len() implies key_lt(
                            app_name@,
                            #[trigger] key_at(self.accounts@, j),
                        ) by {
                            if i < j {
                                lemma_key_lt_transitive(
                                    app_name@,
                                    key_at(self.accounts@, i as int),
                                    key_at(self.accounts@, j),
                                );
                            }
                        }
                    }
                    break ;
                },
            }
        }
        proof {
            if self@.contains_key(app_name@) && !found {
                let p = position(self.accounts@, app_name@);
                if p < i {
                    lemma_key_lt_asymmetric(key_at(self.accounts@, p), app_name@);
                } else {
                    lemma_key_lt_asymmetric(app_name@, key_at(self.accounts@, p));
                }
            }
        }
        (i, found)
    }

    /// A copy of the account kept under `app_name`, with its password
    /// encrypted as the store holds it.
    pub fn get_account(&self, app_name: &str) -> (r: Option<Account>)
        ensures
            match r {
                Some(account) => self@.contains_key(app_name@) && account@ == self@[app_name@],
                None => !self@.contains_key(app_name@),
            },
            valid_store(self@, self.key()),
    {
        proof {
            use_type_invariant(self);
            lemma_valid(self.accounts@, self.key@);
        }
        let (at, found) = self.locate(app_name);
        if found {
            proof {
                lemma_position(self.accounts@, at as int);
            }
            Some(self.accounts[at].clone())
        } else {
            None
        }
    }

    /// Encrypts the password of `account` under the store's key and keeps
    /// the account. A name that the store holds already is refused, and so
    /// is a password that cannot be encrypted; the store is then unchanged.
    pub fn push(&mut self, account: Account) -> (r: Result<(), AccountStoreError>)
        ensures
            final(self).key() == old(self).key(),
            valid_store(final(self)@, final(self).key()),
            exists|nonce: Seq<u8>|
                {
                    &&& #[trigger] push_outcome(old(self)@, account@, old(self).key(), nonce) == (
                        outcome_view(r),
                        final(self)@,
                    )
                    &&& sealed_with(account@, old(self).key(), nonce, outcome_view(r))
                },
    {
        proof {
            use_type_invariant(&*self);
            use_type_invariant(&account);
            lemma_valid(self.accounts@, self.key@);
        }
        let ghost any_nonce = Seq::new(NONCE_LEN as nat, |i: int| 0u8);
        let (at, found) = self.locate(account.key());
        if found {
            let r = Err(AccountStoreError::AccountAlreadyExists(account.name()));
            proof {
                assert(push_outcome(old(self)@, account@, old(self).key(), any_nonce) == (
                    outcome_view(r),
                    self@,
                ));
            }
            return r;
        }
        let ghost before = account@;
        match account.with_encrypted_password(&self.key) {
            Err(e) => {
                let r = Err(AccountStoreError::Crypto(e));
                proof {
                    assert(push_outcome(old(self)@, before, old(self).key(), any_nonce) == (
                        outcome_view(r),
                        self@,
                    ));
                }
                r
            },
            Ok(stored) => {
                let ghost nonce = choose|nonce: Seq<u8>| #[trigger]
                    encrypted_from(before.password, self.key@, nonce, stored@.password);
                proof {
                    lemma_decrypt_restores_plaintext(
                        before.password,
                        self.key@,
                        nonce,
                        stored@.password,
                    );
                    lemma_insert(self.accounts@, at as int, stored);
                }
                let mut accounts = Vec::new();
                core::mem::swap(&mut accounts, &mut self.accounts);
                accounts.insert(at, stored);
                proof {
                    lemma_valid(accounts@, self.key@);
                }
                self.accounts = accounts;
                proof {
                    assert(stored@ == kept(before, stored@.password));
                    assert(push_outcome(old(self)@, before, old(self).key(), nonce) == (
                        outcome_view(Ok::<(), AccountStoreError>(())),
                        self@,
                    ));
                }
                Ok(())
            },
        }
    }

    /// Removes the account kept under `app_name`. A name that the store does
    /// not hold is refused, and the store is then unchanged.
    pub fn delete_account(&mut self, app_name: String) -> (r: Result<(), AccountStoreError>)
        ensures
            final(self).key() == old(self).key(),
            valid_store(final(self)@, final(self).key()),
            delete_outcome(old(self)@, app_name@) == (outcome_view(r), final(self)@),
    {
        proof {
            use_type_invariant(&*self);
            lemma_valid(self.accounts@, self.key@);
        }
        let (at, found) = self.locate(app_name.as_str());
        if !found {
            return Err(AccountStoreError::AccountDoesNotExist(app_name));
        }
        proof {
            lemma_remove(self.accounts@, at as int);
        }
        let mut accounts = Vec::new();
        core::mem::swap(&mut accounts, &mut self.accounts);
        accounts.remove(at);
        proof {
            lemma_valid(accounts@, self.key@);
        }
        self.accounts = accounts;
        Ok(())
    }

    /// Replaces the account kept under `app_name` by `new_account`, which
    /// may have another name: the old account is removed, then the new one
    /// is kept as `push` does. Where `push` refuses the new account the old
    /// one is gone all the same.
    pub fn modify_account(&mut self, app_name: String, new_account: Account) -> (r: Result<
        (),
        AccountStoreError,
    >)
        ensures
            final(self).key() == old(self).key(),
            valid_store(final(self)@, final(self).key()),
            exists|nonce: Seq<u8>|
                {
                    &&& #[trigger] modify_outcome(
                        old(self)@,
                        app_name@,
                        new_account@,
                        old(self).key(),
                        nonce,
                    ) == (outcome_view(r), final(self)@)
                    &&& sealed_with(new_account@, old(self).key(), nonce, outcome_view(r))
                },
    {
        proof {
            use_type_invariant(&*self);
            lemma_valid(self.accounts@, self.key@);
        }
        let ghost any_nonce = Seq::new(NONCE_LEN as nat, |i: int| 0u8);
        let ghost name = app_name@;
        match self.delete_account(app_name) {
            Err(e) => {
                let r = Err(e);
                proof {
                    assert(modify_outcome(
                        old(self)@,
                        name,
                        new_account@,
                        old(self).key(),
                        any_nonce,
                    ) == (outcome_view(r), self@));
                }
                r
            },
            Ok(()) => {
                let ghost without = self@;
                let r = self.push(new_account);
                proof {
                    let nonce = choose|nonce: Seq<u8>|
                        {
                            &&& #[trigger] push_outcome(without, new_account@, old(self).key(), nonce)
                                == (outcome_view(r), self@)
                            &&& sealed_with(new_account@, old(self).key(), nonce, outcome_view(r))
                        };
                    assert(modify_outcome(old(self)@, name, new_account@, old(self).key(), nonce)
                        == (outcome_view(r), self@));
                }
                r
            },
        }
    }

    /// The accounts in the order of their names. Without `show_password`
    /// every password is shown as `PASSWORD_MASK` and nothing is decrypted.
    /// With it, each password is decrypted in a copy and shown in plaintext;
    /// what the store keeps decrypts under its key, so this cannot fail. The
    /// store is unchanged either way.
    pub fn list_accounts(&self, show_password: bool) -> (list: Vec<AccountListing>)
        ensures
            valid_store(self@, self.key()),
            is_listing(self@, self.key(), show_password, list@),
    {
        proof {
            use_type_invariant(self);
            lemma_valid(self.accounts@, self.key@);
        }
        let mut list: Vec<AccountListing> = Vec::new();
        let mut i: usize = 0;
        while i < self.accounts.len()
            invariant
                i <= self.accounts@.len(),
                list@.len() == i,
                all_kept(self.accounts@, self.key@),
                forall|j: int|
                    0 <= j < i ==> (#[trigger] list@[j])@ == listed(
                        self.accounts@[j]@,
                        shown_password(self.accounts@[j]@.password, self.key@, show_password),
                    ),
            decreases self.accounts@.len() - i,
        {
            let account = &self.accounts[i];
            let password = if show_password {
                let mut copy = account.password().clone();
                match copy.decrypt(&self.key) {
                    Ok(()) => copy.get_password(),
                    Err(_) => unreached(),
                }
            } else {
                PASSWORD_MASK.to_owned()
            };
            list.push(
                AccountListing {
                    app_name: account.name(),
                    username: account.username(),
                    email: account.email(),
                    password,
                    created_at: account.created_at(),
                },
            );
            i += 1;
        }
        proof {
            lemma_count(self.accounts@);
            assert forall|a: int, b: int| 0 <= a < b < list@.len() implies key_lt(
                (#[trigger] list@[a])@.app_name,
                (#[trigger] list@[b])@.app_name,
            ) by {
                assert(key_lt(key_at(self.accounts@, a), key_at(self.accounts@, b)));
            }
            assert forall|a: int| 0 <= a < list@.len() implies {
                let name = (#[trigger] list@[a])@.app_name;
                &&& self@.contains_key(name)
                &&& list@[a]@ == listed(
                    self@[name],
                    shown_password(self@[name].password, self.key(), show_password),
                )
            } by {
                lemma_position(self.accounts@, a);
                assert(key_at(self.accounts@, a) == list@[a]@.app_name);
            }
            assert forall|name: Seq<char>| self@.contains_key(name) implies exists|a: int|
                0 <= a < list@.len() && (#[trigger] list@[a])@.app_name == name by {
                let p = position(self.accounts@, name);
                assert(key_at(self.accounts@, p) == name);
                assert(list@[p]@.app_name == name);
            }
        }
        list
    }
}

} // verus!
