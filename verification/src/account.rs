//! Accounts: the record that the store keeps for one application, and the
//! rules that a record has to meet.

use crate::password::{
    check_policy, encrypt_refusal, encrypted_from, generation_error, plaintext, Password,
    PasswordCreationError, PasswordCryptoError, PasswordView, GENERATED_LEN,
};
use regex::Regex;
use vstd::prelude::*;
use vstd::std_specs::cmp::PartialEqSpecImpl;

pub use crate::store::{AccountListing, AccountStore, AccountStoreError};

verus! {

/// The shape that an e-mail address has to have, as a pattern of the `regex`
/// crate: a local part of word characters, `.`, `+` and `-`, an `@`, a domain
/// of word characters, a `.`, and at least two word characters.
pub const EMAIL_PATTERN: &'static str = r"^[\w.+-]+@\w+\.\w{2,}$";

/// Why the parts of an account were refused.
#[derive(Debug)]
pub enum AccountValidationError {
    /// The e-mail address does not have the required shape.
    InvalidEmail,
    /// The password breaks the policy.
    InvalidPassword(PasswordCreationError),
    /// The application name is empty.
    NoAppName,
    /// An account for this application exists already.
    AccountAlreadyExists(String),
}

/// One change to an account, for a caller that builds the record which is to
/// replace it.
pub enum ModifyAccount {
    /// A new application name.
    ModAppName(String),
    /// A new user name, or none.
    ModUserName(Option<String>),
    /// A new e-mail address.
    ModEmail(String),
    /// A new password.
    ModPassword(Password),
}

/// The credentials kept for one application.
#[derive(Debug)]
pub struct Account {
    app_name: String,
    username: Option<String>,
    email: String,
    password: Password,
    created_at: i64,
}

/// What an `Account` holds.
pub struct AccountView {
    /// The application's name, by which the store finds the account.
    pub app_name: Seq<char>,
    /// The user name, where the application has one.
    pub username: Option<Seq<char>>,
    /// The e-mail address.
    pub email: Seq<char>,
    /// The password and its state.
    pub password: PasswordView,
    /// When the account was made, in milliseconds since the Unix epoch.
    pub created_at: i64,
}

/// What the `regex` crate finds for `text` under `pattern`: `None` where the
/// pattern does not compile, otherwise whether `text` has a match.
pub uninterp spec fn regex_match(pattern: Seq<char>, text: Seq<char>) -> Option<bool>;

/// True when `email` has the shape of `EMAIL_PATTERN`.
pub open spec fn is_valid_email(email: Seq<char>) -> bool {
    regex_match(EMAIL_PATTERN@, email) == Some(true)
}

/// The user name that an optional string stands for.
pub open spec fn username_view(username: Option<String>) -> Option<Seq<char>> {
    match username {
        Some(name) => Some(name@),
        None => None,
    }
}

/// The user name that a typed-in text stands for: none where it is empty.
pub open spec fn username_of_input(text: Seq<char>) -> Option<Seq<char>> {
    if text.len() == 0 {
        None
    } else {
        Some(text)
    }
}

/// True when the parts of an account meet the rules: a name, and an e-mail
/// address of the required shape.
pub open spec fn valid_parts(app_name: Seq<char>, email: Seq<char>) -> bool {
    app_name.len() > 0 && is_valid_email(email)
}

/// `Regex::new` on `pattern` and, where that compiles, `Regex::is_match` on
/// `text`. Both depend on their arguments alone.
#[verifier::external_body]
fn regex_is_match(pattern: &str, text: &str) -> (r: Option<bool>)
    ensures
        r == regex_match(pattern@, text@),
{
    match Regex::new(pattern) {
        Ok(compiled) => Some(compiled.is_match(text)),
        Err(_) => None,
    }
}

/// `chrono::Local::now`, read with `DateTime::timestamp_millis`: the time of
/// the call in milliseconds since the Unix epoch. Nothing is claimed of it.
#[verifier::external_body]
fn now_millis() -> i64 {
    chrono::Local::now().timestamp_millis()
}

/// Tells whether `email` has the required shape.
pub fn validate_email(email: &str) -> (ok: bool)
    ensures
        ok == is_valid_email(email@),
{
    match regex_is_match(EMAIL_PATTERN, email) {
        Some(found) => found,
        None => false,
    }
}

impl View for Account {
    type V = AccountView;

    closed spec fn view(&self) -> AccountView {
        AccountView {
            app_name: self.app_name@,
            username: username_view(self.username),
            email: self.email@,
            password: self.password@,
            created_at: self.created_at,
        }
    }
}

impl Account {
    #[verifier::type_invariant]
    pub(crate) open spec fn well_formed(&self) -> bool {
        valid_parts(self@.app_name, self@.email)
    }

    /// Makes an account, stamped with the time of the call. The name must
    /// not be empty and the e-mail address must have the required shape; the
    /// password is taken as it is.
    pub fn new(app_name: String, username: Option<String>, email: String, password: Password) -> (r:
        Result<Account, AccountValidationError>)
        ensures
            match r {
                Ok(account) => valid_parts(app_name@, email@) && account@ == (AccountView {
                    app_name: app_name@,
                    username: username_view(username),
                    email: email@,
                    password: password@,
                    created_at: account@.created_at,
                }),
                Err(AccountValidationError::NoAppName) => app_name@.len() == 0,
                Err(AccountValidationError::InvalidEmail) => app_name@.len() > 0
                    && !is_valid_email(email@),
                Err(_) => false,
            },
    {
        Account::new_at(app_name, username, email, password, now_millis())
    }

    /// Makes an account stamped with `created_at`, under the rules of `new`.
    pub fn new_at(
        app_name: String,
        username: Option<String>,
        email: String,
        password: Password,
        created_at: i64,
    ) -> (r: Result<Account, AccountValidationError>)
        ensures
            match r {
                Ok(account) => valid_parts(app_name@, email@) && account@ == (AccountView {
                    app_name: app_name@,
                    username: username_view(username),
                    email: email@,
                    password: password@,
                    created_at,
                }),
                Err(AccountValidationError::NoAppName) => app_name@.len() == 0,
                Err(AccountValidationError::InvalidEmail) => app_name@.len() > 0
                    && !is_valid_email(email@),
                Err(_) => false,
            },
    {
        if app_name.as_str().is_empty() {
            Err(AccountValidationError::NoAppName)
        } else if !validate_email(email.as_str()) {
            Err(AccountValidationError::InvalidEmail)
        } else {
            Ok(Account { app_name, username, email, password, created_at })
        }
    }

    /// Makes an account of what a user typed in: the name, the user name
    /// (empty for none), the e-mail address, and the raw password with the
    /// request to generate one in its place. The name is checked first, then
    /// the e-mail address, then the password.
    pub fn from_input(app_name: String, username: String, email: String, password: (String, bool)) -> (r:
        Result<Account, AccountValidationError>)
        ensures
            match r {
                Ok(account) => valid_parts(app_name@, email@) && input_password(
                    password.0@,
                    password.1,
                ) == Ok::<PasswordView, PasswordCreationError>(account@.password) && account@
                    == (AccountView {
                    app_name: app_name@,
                    username: username_of_input(username@),
                    email: email@,
                    password: account@.password,
                    created_at: account@.created_at,
                }),
                Err(AccountValidationError::NoAppName) => app_name@.len() == 0,
                Err(AccountValidationError::InvalidEmail) => app_name@.len() > 0
                    && !is_valid_email(email@),
                Err(AccountValidationError::InvalidPassword(e)) => valid_parts(app_name@, email@)
                    && input_password(password.0@, password.1) == Err::<
                    PasswordView,
                    PasswordCreationError,
                >(e),
                Err(AccountValidationError::AccountAlreadyExists(_)) => false,
            },
    {
        if app_name.as_str().is_empty() {
            return Err(AccountValidationError::NoAppName);
        }
        if !validate_email(email.as_str()) {
            return Err(AccountValidationError::InvalidEmail);
        }
        let password = match Password::new(password.0, password.1) {
            Ok(password) => password,
            Err(e) => {
                return Err(AccountValidationError::InvalidPassword(e));
            },
        };
        let username = if username.as_str().is_empty() {
            None
        } else {
            Some(username)
        };
        Ok(Account { app_name, username, email, password, created_at: now_millis() })
    }

    /// The application's name, as the key by which the store orders and
    /// finds the account.
    pub(crate) fn key(&self) -> (name: &str)
        ensures
            name@ == self@.app_name,
    {
        self.app_name.as_str()
    }

    /// The account with its password encrypted under `key`, as
    /// `Password::encrypt` does it, or the error with which that refuses the
    /// password.
    pub(crate) fn with_encrypted_password(self, key: &[u8; 32]) -> (r: Result<
        Account,
        PasswordCryptoError,
    >)
        ensures
            match encrypt_refusal(self@.password) {
                Some(e) => r == Err::<Account, PasswordCryptoError>(e),
                None => r matches Ok(account) && account@ == (AccountView {
                    password: account@.password,
                    ..self@
                }) && exists|nonce: Seq<u8>| #[trigger]
                    encrypted_from(self@.password, key@, nonce, account@.password),
            },
    {
        proof {
            use_type_invariant(&self);
        }
        let Account { app_name, username, email, mut password, created_at } = self;
        match password.encrypt(key) {
            Err(e) => Err(e),
            Ok(()) => Ok(Account { app_name, username, email, password, created_at }),
        }
    }

    /// A copy of the application's name, which is never empty.
    pub fn name(&self) -> (name: String)
        ensures
            name@ == self@.app_name,
            name@.len() > 0,
    {
        proof {
            use_type_invariant(self);
        }
        self.app_name.clone()
    }

    /// A copy of the user name, where there is one.
    pub fn username(&self) -> (username: Option<String>)
        ensures
            username_view(username) == self@.username,
    {
        match &self.username {
            Some(name) => Some(name.clone()),
            None => None,
        }
    }

    /// A copy of the e-mail address, which has the required shape.
    pub fn email(&self) -> (email: String)
        ensures
            email@ == self@.email,
            is_valid_email(email@),
    {
        proof {
            use_type_invariant(self);
        }
        self.email.clone()
    }

    /// The password, in the state in which the account holds it.
    pub fn password(&self) -> (password: &Password)
        ensures
            password@ == self@.password,
    {
        &self.password
    }

    /// When the account was made, in milliseconds since the Unix epoch.
    pub fn created_at(&self) -> (millis: i64)
        ensures
            millis == self@.created_at,
    {
        self.created_at
    }
}

/// The password that `from_input` makes of a raw password and the request to
/// generate one, or the error with which it refuses them.
pub open spec fn input_password(raw: Seq<char>, generate: bool) -> Result<
    PasswordView,
    PasswordCreationError,
> {
    match check_policy(raw) {
        Err(e) => Err(e),
        Ok(()) => if generate {
            Err(generation_error(GENERATED_LEN as nat))
        } else {
            Ok(plaintext(raw))
        },
    }
}

impl Clone for Account {
    fn clone(&self) -> (copy: Self)
        ensures
            copy@ == self@,
    {
        proof {
            use_type_invariant(self);
        }
        let username = match &self.username {
            Some(name) => Some(name.clone()),
            None => None,
        };
        Account {
            app_name: self.app_name.clone(),
            username,
            email: self.email.clone(),
            password: self.password.clone(),
            created_at: self.created_at,
        }
    }
}

impl PartialEq for Account {
    /// Two accounts are equal when name, e-mail address and password are;
    /// the user name and the time of making do not count.
    fn eq(&self, other: &Self) -> (r: bool) {
        self.app_name == other.app_name && self.email == other.email && self.password
            == other.password
    }
}

impl PartialEqSpecImpl for Account {
    open spec fn obeys_eq_spec() -> bool {
        true
    }

    open spec fn eq_spec(&self, other: &Self) -> bool {
        &&& self@.app_name == other@.app_name
        &&& self@.email == other@.email
        &&& self@.password == other@.password
    }
}

} // verus!
