//! NEAR account identifiers.

use vstd::prelude::*;
use vstd::string::StringSliceAdditionalSpecFns;

use near_account_id::AccountType as OutsideAccountType;
use near_account_id::ParseErrorKind as OutsideErrorKind;

use crate::map::KeyEq;

verus! {

/// `-`, `_` and `.` separate the parts of an account id.
pub open spec fn is_separator(c: char) -> bool {
    c == '-' || c == '_' || c == '.'
}

/// The characters an account id may hold.
pub open spec fn is_account_char(c: char) -> bool {
    ('a' <= c && c <= 'z') || ('0' <= c && c <= '9') || is_separator(c)
}

/// Lower-case hexadecimal digits.
pub open spec fn is_lower_hex(c: char) -> bool {
    ('a' <= c && c <= 'f') || ('0' <= c && c <= '9')
}

/// A well-formed NEAR account id: 2 to 64 characters out of `a-z`, `0-9`,
/// `-`, `_`, `.`, where a separator neither starts nor ends the id nor
/// follows another separator.
pub open spec fn is_valid_account_id(s: Seq<char>) -> bool {
    &&& 2 <= s.len() <= 64
    &&& forall|i: int| 0 <= i < s.len() ==> is_account_char(#[trigger] s[i])
    &&& !is_separator(s[0])
    &&& !is_separator(s[s.len() - 1])
    &&& forall|i: int| 0 <= i < s.len() - 1 ==> !(is_separator(#[trigger] s[i]) && is_separator(s[i + 1]))
}

/// Every character of `s` from position `from` on is a lower-case hex digit.
pub open spec fn all_lower_hex(s: Seq<char>, from: int) -> bool {
    forall|i: int| from <= i < s.len() ==> is_lower_hex(#[trigger] s[i])
}

/// Crockford's base-32 alphabet in lower case, without `i`, `l`, `o`, `u`.
pub open spec fn is_crockford(c: char) -> bool {
    ('0' <= c && c <= '9') || ('a' <= c && c <= 'z' && c != 'i' && c != 'l' && c != 'o' && c != 'u')
}

/// The kinds of NEAR accounts.
#[derive(PartialEq, Eq, Structural, Clone, Copy, Debug)]
pub enum AccountType {
    /// Any valid account that is not implicit.
    NamedAccount,
    /// 64 lower-case hex characters.
    NearImplicitAccount,
    /// `0x` followed by 40 lower-case hex characters.
    EthImplicitAccount,
    /// `0s` followed by 40 lower-case hex characters.
    NearDeterministicAccount,
    /// `0u` followed by 52 Crockford base-32 characters, the last being `0` or `g`.
    UniversalAccount,
}

pub open spec fn spec_account_type(s: Seq<char>) -> AccountType {
    if s.len() == 42 && s[0] == '0' && s[1] == 'x' && all_lower_hex(s, 2) {
        AccountType::EthImplicitAccount
    } else if s.len() == 64 && all_lower_hex(s, 0) {
        AccountType::NearImplicitAccount
    } else if s.len() == 42 && s[0] == '0' && s[1] == 's' && all_lower_hex(s, 2) {
        AccountType::NearDeterministicAccount
    } else if s.len() == 54 && s[0] == '0' && s[1] == 'u' && (forall|i: int|
        2 <= i < 54 ==> is_crockford(#[trigger] s[i])) && (s[53] == '0' || s[53] == 'g') {
        AccountType::UniversalAccount
    } else {
        AccountType::NamedAccount
    }
}

/// Why a string is not an account id.
#[derive(PartialEq, Eq, Structural, Clone, Copy, Debug)]
pub enum ParseAccountError {
    TooLong,
    TooShort,
    RedundantSeparator,
    InvalidChar,
}

/// Checks `s` with `near_account_id::AccountId::validate`.
///
/// Trusted: the outside function accepts exactly the well-formed ids, and
/// rejects an id of fewer than 2 bytes as too short and one of more than 64
/// bytes as too long. Which of the two other kinds it reports for an id of
/// allowed length is left unsaid.
#[verifier::external_body]
fn validate_account_id(s: &str) -> (r: Result<(), ParseAccountError>)
    ensures
        (r is Ok) <==> is_valid_account_id(s@),
        (r matches Err(e) && e == ParseAccountError::TooShort) <==> s.spec_bytes().len() < 2,
        (r matches Err(e) && e == ParseAccountError::TooLong) <==> s.spec_bytes().len() > 64,
{
    match near_account_id::AccountId::validate(s) {
        Ok(()) => Ok(()),
        Err(e) => Err(match e.kind() {
            OutsideErrorKind::TooLong => ParseAccountError::TooLong,
            OutsideErrorKind::TooShort => ParseAccountError::TooShort,
            OutsideErrorKind::RedundantSeparator => ParseAccountError::RedundantSeparator,
            _ => ParseAccountError::InvalidChar,
        }),
    }
}

/// Classifies a valid id with `near_account_id::AccountIdRef::get_account_type`.
///
/// Trusted: the outside function tests, in this order, for `0x` and 40 hex
/// digits, 64 hex digits, `0s` and 40 hex digits, `0u` and 52 base-32 digits
/// ending in `0` or `g`, and calls everything else a named account.
#[verifier::external_body]
fn account_type_of(s: &str) -> (t: AccountType)
    requires
        is_valid_account_id(s@),
    ensures
        t == spec_account_type(s@),
{
    match near_account_id::AccountIdRef::new_or_panic(s).get_account_type() {
        OutsideAccountType::NamedAccount => AccountType::NamedAccount,
        OutsideAccountType::NearImplicitAccount => AccountType::NearImplicitAccount,
        OutsideAccountType::EthImplicitAccount => AccountType::EthImplicitAccount,
        OutsideAccountType::NearDeterministicAccount => AccountType::NearDeterministicAccount,
        OutsideAccountType::UniversalAccount => AccountType::UniversalAccount,
    }
}

/// A valid NEAR account id.
#[derive(Debug)]
pub struct AccountId {
    id: String,
}

impl View for AccountId {
    type V = Seq<char>;

    closed spec fn view(&self) -> Seq<char> {
        self.id@
    }
}

impl Clone for AccountId {
    fn clone(&self) -> (r: Self)
        ensures
            r@ == self@,
    {
        AccountId { id: self.id.clone() }
    }
}

impl KeyEq for AccountId {
    fn key_eq(&self, other: &Self) -> (r: bool) {
        self.id == other.id
    }
}

impl AccountId {
    /// Parses and validates an account id.
    pub fn parse(s: &str) -> (r: Result<AccountId, ParseAccountError>)
        ensures
            (r is Ok) <==> is_valid_account_id(s@),
            r matches Ok(a) ==> a@ == s@ && a.valid(),
            (r matches Err(e) && e == ParseAccountError::TooShort) <==> s.spec_bytes().len() < 2,
            (r matches Err(e) && e == ParseAccountError::TooLong) <==> s.spec_bytes().len() > 64,
    {
        match validate_account_id(s) {
            Ok(()) => Ok(AccountId { id: s.to_owned() }),
            Err(e) => Err(e),
        }
    }

    /// Wraps a string already known to be a valid account id.
    pub(crate) fn from_valid(id: String) -> (a: AccountId)
        requires
            is_valid_account_id(id@),
        ensures
            a@ == id@,
            a.valid(),
    {
        AccountId { id }
    }

    /// Whether two ids are the same.
    pub fn key_eq_id(&self, other: &AccountId) -> (r: bool)
        ensures
            r == (self@ == other@),
    {
        self.id == other.id
    }

    pub fn as_str(&self) -> (s: &str)
        ensures
            s@ == self@,
    {
        self.id.as_str()
    }

    pub open spec fn valid(&self) -> bool {
        is_valid_account_id(self@)
    }

    pub proof fn lemma_valid(&self)
        requires
            self.valid(),
        ensures
            is_valid_account_id(self@),
    {
    }

    pub fn get_account_type(&self) -> (t: AccountType)
        requires
            self.valid(),
        ensures
            t == spec_account_type(self@),
    {
        account_type_of(self.id.as_str())
    }
}

} // verus!
