//! Token identifiers and their string form `<standard>:<contract>[:<token_id>]`.

use vstd::prelude::*;
use vstd::string::StrSliceExecFns;
use vstd::string::StringExecFns;

use crate::account_id::{is_account_char, is_valid_account_id, AccountId, ParseAccountError};
use crate::map::KeyEq;

verus! {

/// The token standards that the contract holds.
#[derive(PartialEq, Eq, Structural, Clone, Copy, Debug)]
pub enum TokenStandard {
    Nep141,
    Nep171,
    Nep245,
}

/// The name of a standard in the string form of a token id.
pub open spec fn spec_standard_name(s: TokenStandard) -> Seq<char> {
    match s {
        TokenStandard::Nep141 => seq!['n', 'e', 'p', '1', '4', '1'],
        TokenStandard::Nep171 => seq!['n', 'e', 'p', '1', '7', '1'],
        TokenStandard::Nep245 => seq!['n', 'e', 'p', '2', '4', '5'],
    }
}

/// A token held by the contract: a NEP-141 fungible token, a NEP-171
/// non-fungible token or a NEP-245 multi-token, each with the account id of
/// the contract that issues it.
#[derive(Debug)]
pub enum TokenId {
    Nep141(AccountId),
    Nep171(AccountId, String),
    Nep245(AccountId, String),
}

/// A token id as a value: its standard, its contract and, but for NEP-141,
/// the token's id within the contract (empty for NEP-141).
pub type TokenIdView = (TokenStandard, Seq<char>, Seq<char>);

impl View for TokenId {
    type V = TokenIdView;

    open spec fn view(&self) -> TokenIdView {
        match self {
            TokenId::Nep141(c) => (TokenStandard::Nep141, c@, Seq::<char>::empty()),
            TokenId::Nep171(c, t) => (TokenStandard::Nep171, c@, t@),
            TokenId::Nep245(c, t) => (TokenStandard::Nep245, c@, t@),
        }
    }
}

/// A token id value as it can occur: a valid contract id, and no token part
/// for NEP-141.
pub open spec fn is_valid_token_id(v: TokenIdView) -> bool {
    &&& is_valid_account_id(v.1)
    &&& v.0 == TokenStandard::Nep141 ==> v.2 == Seq::<char>::empty()
}

/// The string form of a token id.
pub open spec fn spec_token_id_string(v: TokenIdView) -> Seq<char> {
    if v.0 == TokenStandard::Nep141 {
        spec_standard_name(v.0) + seq![':'] + v.1
    } else {
        spec_standard_name(v.0) + seq![':'] + v.1 + seq![':'] + v.2
    }
}

/// The first position at or after `i` where `s` holds `c`, or -1.
pub open spec fn find_from(s: Seq<char>, c: char, i: int) -> int
    decreases s.len() - i,
{
    if i < 0 || i >= s.len() {
        -1
    } else if s[i] == c {
        i
    } else {
        find_from(s, c, i + 1)
    }
}

/// The standard whose name is `name`, if any.
pub open spec fn spec_standard_of(name: Seq<char>) -> Option<TokenStandard> {
    if name == spec_standard_name(TokenStandard::Nep141) {
        Some(TokenStandard::Nep141)
    } else if name == spec_standard_name(TokenStandard::Nep171) {
        Some(TokenStandard::Nep171)
    } else if name == spec_standard_name(TokenStandard::Nep245) {
        Some(TokenStandard::Nep245)
    } else {
        None
    }
}

/// The contract part of `s` and, but for NEP-141, the token part, when `s`
/// has the shape `<standard>:<rest>` with a known standard (and a second `:`
/// in the rest for NEP-171 and NEP-245).
pub open spec fn spec_token_id_parts(s: Seq<char>) -> Option<TokenIdView> {
    let i = find_from(s, ':', 0);
    if i < 0 {
        None
    } else {
        let data = s.subrange(i + 1, s.len() as int);
        match spec_standard_of(s.subrange(0, i)) {
            None => None,
            Some(std) => if std == TokenStandard::Nep141 {
                Some((std, data, Seq::<char>::empty()))
            } else {
                let j = find_from(data, ':', 0);
                if j < 0 {
                    None
                } else {
                    Some((std, data.subrange(0, j), data.subrange(j + 1, data.len() as int)))
                }
            },
        }
    }
}

/// The token id that `s` denotes, if it denotes one.
pub open spec fn spec_parse_token_id(s: Seq<char>) -> Option<TokenIdView> {
    match spec_token_id_parts(s) {
        Some(v) => if is_valid_account_id(v.1) {
            Some(v)
        } else {
            None
        },
        None => None,
    }
}

/// Why a string is not a token id.
#[derive(PartialEq, Eq, Structural, Clone, Copy, Debug)]
pub enum ParseTokenIdError {
    /// The contract part is not an account id.
    AccountId(ParseAccountError),
    /// No known standard, or a missing `:`.
    VariantNotFound,
}

proof fn lemma_find_from_skip(s: Seq<char>, c: char, i: int, k: int)
    requires
        0 <= i <= k <= s.len(),
        forall|j: int| i <= j < k ==> s[j] != c,
    ensures
        find_from(s, c, i) == find_from(s, c, k),
    decreases k - i,
{
    if i < k {
        lemma_find_from_skip(s, c, i + 1, k);
    }
}

proof fn lemma_find_from_concat(a: Seq<char>, b: Seq<char>, c: char)
    requires
        forall|j: int| 0 <= j < a.len() ==> a[j] != c,
        b.len() > 0,
        b[0] == c,
    ensures
        find_from(a + b, c, 0) == a.len(),
{
    let s = a + b;
    assert forall|j: int| 0 <= j < a.len() implies s[j] != c by {
        assert(s[j] == a[j]);
    }
    lemma_find_from_skip(s, c, 0, a.len() as int);
    assert(s[a.len() as int] == b[0]);
}

proof fn lemma_no_colon_in_account(s: Seq<char>)
    requires
        is_valid_account_id(s),
    ensures
        forall|j: int| 0 <= j < s.len() ==> s[j] != ':',
{
    assert forall|j: int| 0 <= j < s.len() implies s[j] != ':' by {
        assert(is_account_char(s[j]));
    }
}

/// Parsing the string form of a valid token id gives the token id back.
pub proof fn lemma_parse_token_id_string(v: TokenIdView)
    requires
        is_valid_token_id(v),
    ensures
        spec_parse_token_id(spec_token_id_string(v)) == Some(v),
{
    let name = spec_standard_name(v.0);
    let s = spec_token_id_string(v);
    lemma_no_colon_in_account(v.1);
    let rest = if v.0 == TokenStandard::Nep141 {
        seq![':'] + v.1
    } else {
        seq![':'] + v.1 + seq![':'] + v.2
    };
    assert(s =~= name + rest);
    lemma_find_from_concat(name, rest, ':');
    assert(s.subrange(0, 6) =~= name);
    let data = s.subrange(7, s.len() as int);
    if v.0 == TokenStandard::Nep141 {
        assert(data =~= v.1);
    } else {
        let tail = seq![':'] + v.2;
        assert(data =~= v.1 + tail);
        lemma_find_from_concat(v.1, tail, ':');
        assert(data.subrange(0, v.1.len() as int) =~= v.1);
        assert(data.subrange(v.1.len() as int + 1, data.len() as int) =~= v.2);
    }
}

/// A string that parses to a token id is that token id's string form.
pub proof fn lemma_token_id_string_of_parse(s: Seq<char>)
    requires
        spec_parse_token_id(s) is Some,
    ensures
        spec_token_id_string(spec_parse_token_id(s)->0) == s,
        is_valid_token_id(spec_parse_token_id(s)->0),
{
    let v = spec_parse_token_id(s)->0;
    let i = find_from(s, ':', 0);
    lemma_find_from_in_range(s, ':', 0);
    let data = s.subrange(i + 1, s.len() as int);
    assert(s =~= s.subrange(0, i) + seq![':'] + data);
    if v.0 != TokenStandard::Nep141 {
        let j = find_from(data, ':', 0);
        lemma_find_from_in_range(data, ':', 0);
        assert(data =~= data.subrange(0, j) + seq![':'] + data.subrange(j + 1, data.len() as int));
    }
    assert(spec_token_id_string(v) =~= s);
}

proof fn lemma_find_from_in_range(s: Seq<char>, c: char, i: int)
    ensures
        find_from(s, c, i) == -1 || (i <= find_from(s, c, i) < s.len() && s[find_from(s, c, i)] == c),
    decreases s.len() - i,
{
    if i >= 0 && i < s.len() && s[i] != c {
        lemma_find_from_in_range(s, c, i + 1);
    }
}

/// The position of the first `c` in `s`.
fn find_char(s: &str, c: char) -> (r: Option<usize>)
    ensures
        match r {
            Some(i) => i == find_from(s@, c, 0) && i < s@.len(),
            None => find_from(s@, c, 0) == -1,
        },
{
    let n = s.unicode_len();
    let mut i: usize = 0;
    while i < n
        invariant
            n == s@.len(),
            i <= n,
            find_from(s@, c, 0) == find_from(s@, c, i as int),
        decreases n - i,
    {
        if s.get_char(i) == c {
            return Some(i);
        }
        i = i + 1;
    }
    None
}

fn standard_name(std: TokenStandard) -> (s: &'static str)
    ensures
        s@ == spec_standard_name(std),
{
    match std {
        TokenStandard::Nep141 => {
            proof {
                reveal_strlit("nep141");
            }
            "nep141"
        },
        TokenStandard::Nep171 => {
            proof {
                reveal_strlit("nep171");
            }
            "nep171"
        },
        TokenStandard::Nep245 => {
            proof {
                reveal_strlit("nep245");
            }
            "nep245"
        },
    }
}

fn standard_of(name: &str) -> (r: Option<TokenStandard>)
    ensures
        r == spec_standard_of(name@),
{
    let name = name.to_owned();
    if name == standard_name(TokenStandard::Nep141).to_owned() {
        Some(TokenStandard::Nep141)
    } else if name == standard_name(TokenStandard::Nep171).to_owned() {
        Some(TokenStandard::Nep171)
    } else if name == standard_name(TokenStandard::Nep245).to_owned() {
        Some(TokenStandard::Nep245)
    } else {
        None
    }
}

impl Clone for TokenId {
    fn clone(&self) -> (r: Self)
        ensures
            r@ == self@,
    {
        match self {
            TokenId::Nep141(c) => TokenId::Nep141(c.clone()),
            TokenId::Nep171(c, t) => TokenId::Nep171(c.clone(), t.clone()),
            TokenId::Nep245(c, t) => TokenId::Nep245(c.clone(), t.clone()),
        }
    }
}

fn string_eq(x: &String, y: &String) -> (r: bool)
    ensures
        r == (x@ == y@),
{
    *x == *y
}

impl KeyEq for TokenId {
    fn key_eq(&self, other: &Self) -> (r: bool) {
        match (self, other) {
            (TokenId::Nep141(a), TokenId::Nep141(b)) => a.key_eq(b),
            (TokenId::Nep171(a, x), TokenId::Nep171(b, y)) => a.key_eq(b) && string_eq(x, y),
            (TokenId::Nep245(a, x), TokenId::Nep245(b, y)) => a.key_eq(b) && string_eq(x, y),
            _ => false,
        }
    }
}

impl TokenId {
    pub fn standard(&self) -> (s: TokenStandard)
        ensures
            s == self@.0,
    {
        match self {
            TokenId::Nep141(_) => TokenStandard::Nep141,
            TokenId::Nep171(..) => TokenStandard::Nep171,
            TokenId::Nep245(..) => TokenStandard::Nep245,
        }
    }

    /// The contract that issues the token.
    pub fn contract_id(&self) -> (c: &AccountId)
        ensures
            c@ == self@.1,
    {
        match self {
            TokenId::Nep141(c) => c,
            TokenId::Nep171(c, _) => c,
            TokenId::Nep245(c, _) => c,
        }
    }

    /// The contract ids of all variants are valid account ids.
    pub open spec fn valid(&self) -> bool {
        match self {
            TokenId::Nep141(c) => c.valid(),
            TokenId::Nep171(c, _) => c.valid(),
            TokenId::Nep245(c, _) => c.valid(),
        }
    }

    pub proof fn lemma_valid(&self)
        requires
            self.valid(),
        ensures
            is_valid_token_id(self@),
    {
        match self {
            TokenId::Nep141(c) => c.lemma_valid(),
            TokenId::Nep171(c, _) => c.lemma_valid(),
            TokenId::Nep245(c, _) => c.lemma_valid(),
        }
    }

    /// The string form, such as `nep171:nft.near:token-1`.
    pub fn to_string(&self) -> (s: String)
        ensures
            s@ == spec_token_id_string(self@),
    {
        let mut s = standard_name(self.standard()).to_owned();
        proof {
            reveal_strlit(":");
        }
        s.append(":");
        s.append(self.contract_id().as_str());
        match self {
            TokenId::Nep141(_) => {},
            TokenId::Nep171(_, t) => {
                s.append(":");
                s.append(t.as_str());
            },
            TokenId::Nep245(_, t) => {
                s.append(":");
                s.append(t.as_str());
            },
        }
        proof {
            assert(s@ =~= spec_token_id_string(self@));
        }
        s
    }

    /// Parses the string form of a token id.
    pub fn parse(s: &str) -> (r: Result<TokenId, ParseTokenIdError>)
        ensures
            (r is Ok) <==> spec_parse_token_id(s@) is Some,
            r matches Ok(t) ==> t@ == spec_parse_token_id(s@)->0 && t.valid(),
            (r matches Err(e) && e == ParseTokenIdError::VariantNotFound) <==> spec_token_id_parts(s@) is None,
    {
        let n = s.unicode_len();
        let i = match find_char(s, ':') {
            Some(i) => i,
            None => return Err(ParseTokenIdError::VariantNotFound),
        };
        let typ = s.substring_char(0, i);
        let data = s.substring_char(i + 1, n);
        let std = match standard_of(typ) {
            Some(std) => std,
            None => return Err(ParseTokenIdError::VariantNotFound),
        };
        match std {
            TokenStandard::Nep141 => match AccountId::parse(data) {
                Ok(c) => Ok(TokenId::Nep141(c)),
                Err(e) => Err(ParseTokenIdError::AccountId(e)),
            },
            _ => {
                let m = data.unicode_len();
                let j = match find_char(data, ':') {
                    Some(j) => j,
                    None => return Err(ParseTokenIdError::VariantNotFound),
                };
                let contract = data.substring_char(0, j);
                let token = data.substring_char(j + 1, m).to_owned();
                match AccountId::parse(contract) {
                    Ok(c) => if std == TokenStandard::Nep171 {
                        Ok(TokenId::Nep171(c, token))
                    } else {
                        Ok(TokenId::Nep245(c, token))
                    },
                    Err(e) => Err(ParseTokenIdError::AccountId(e)),
                }
            },
        }
    }
}

} // verus!
