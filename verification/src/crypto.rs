//! Public keys of accounts and the implicit account ids derived from them.

use vstd::prelude::*;
use vstd::string::StringExecFns;

use crate::account_id::{is_account_char, is_lower_hex, AccountId, spec_account_type, all_lower_hex, AccountType};
use crate::map::KeyEq;

verus! {

/// The curve of a public key.
#[derive(PartialEq, Eq, Structural, Clone, Copy, Debug)]
pub enum Curve {
    Ed25519,
    Secp256k1,
}

/// A public key that may sign for an account.
#[derive(Debug)]
pub enum PublicKey {
    /// 32 bytes.
    Ed25519(Vec<u8>),
    /// 64 bytes, uncompressed without prefix.
    Secp256k1(Vec<u8>),
}

pub type PublicKeyView = (Curve, Seq<u8>);

impl View for PublicKey {
    type V = PublicKeyView;

    open spec fn view(&self) -> PublicKeyView {
        match self {
            PublicKey::Ed25519(k) => (Curve::Ed25519, k@),
            PublicKey::Secp256k1(k) => (Curve::Secp256k1, k@),
        }
    }
}

/// A key of the right length for its curve.
pub open spec fn is_valid_public_key(k: PublicKeyView) -> bool {
    match k.0 {
        Curve::Ed25519 => k.1.len() == 32,
        Curve::Secp256k1 => k.1.len() == 64,
    }
}

/// The lower-case hex digit for `v < 16`.
pub open spec fn spec_hex_char(v: int) -> char {
    if v < 10 {
        ('0' as int + v) as char
    } else {
        ('a' as int + v - 10) as char
    }
}

/// The lower-case hex encoding of `b`, two digits per byte.
pub open spec fn spec_hex(b: Seq<u8>) -> Seq<char> {
    Seq::new(2 * b.len(), |i: int| if i % 2 == 0 {
        spec_hex_char(b[i / 2] as int / 16)
    } else {
        spec_hex_char(b[i / 2] as int % 16)
    })
}

/// The value of a hex digit, upper or lower case.
pub open spec fn spec_hex_value(c: char) -> int {
    if '0' <= c && c <= '9' {
        c as int - '0' as int
    } else if 'a' <= c && c <= 'f' {
        c as int - 'a' as int + 10
    } else {
        c as int - 'A' as int + 10
    }
}

pub open spec fn is_hex_digit(c: char) -> bool {
    ('0' <= c && c <= '9') || ('a' <= c && c <= 'f') || ('A' <= c && c <= 'F')
}

/// The bytes that the hex digits `s` encode.
pub open spec fn spec_unhex(s: Seq<char>) -> Seq<u8> {
    Seq::new(s.len() / 2, |i: int| (spec_hex_value(s[2 * i]) * 16 + spec_hex_value(s[2 * i + 1])) as u8)
}

/// The Keccak-256 hash of `data`.
pub uninterp spec fn spec_keccak256(data: Seq<u8>) -> Seq<u8>;

/// Hashes with `near_sdk::env::keccak256_array`.
///
/// Trusted: the result is the 32-byte Keccak-256 hash of `data`, named
/// `spec_keccak256`.
#[verifier::external_body]
fn keccak256(data: &[u8]) -> (h: Vec<u8>)
    ensures
        h@ == spec_keccak256(data@),
        h@.len() == 32,
{
    near_sdk::env::keccak256_array(data).to_vec()
}

/// The implicit account id that a key controls: the hex of an Ed25519 key,
/// or `0x` and the hex of the last 20 bytes of the Keccak-256 hash of a
/// Secp256k1 key.
pub open spec fn spec_implicit_account_id(k: PublicKeyView) -> Seq<char> {
    match k.0 {
        Curve::Ed25519 => spec_hex(k.1),
        Curve::Secp256k1 => seq!['0', 'x'] + spec_hex(spec_keccak256(k.1).subrange(12, 32)),
    }
}

/// The Ed25519 key that an implicit NEAR account id stands for, if it is one.
pub open spec fn spec_from_implicit_account_id(id: Seq<char>) -> Option<PublicKeyView> {
    if id.len() == 64 && forall|i: int| 0 <= i < 64 ==> is_hex_digit(#[trigger] id[i]) {
        Some((Curve::Ed25519, spec_unhex(id)))
    } else {
        None
    }
}

fn hex_digit(v: u8) -> (s: &'static str)
    requires
        v < 16,
    ensures
        s@ == seq![spec_hex_char(v as int)],
{
    match v {
        0 => {
            proof {
                reveal_strlit("0");
            }
            "0"
        },
        1 => {
            proof {
                reveal_strlit("1");
            }
            "1"
        },
        2 => {
            proof {
                reveal_strlit("2");
            }
            "2"
        },
        3 => {
            proof {
                reveal_strlit("3");
            }
            "3"
        },
        4 => {
            proof {
                reveal_strlit("4");
            }
            "4"
        },
        5 => {
            proof {
                reveal_strlit("5");
            }
            "5"
        },
        6 => {
            proof {
                reveal_strlit("6");
            }
            "6"
        },
        7 => {
            proof {
                reveal_strlit("7");
            }
            "7"
        },
        8 => {
            proof {
                reveal_strlit("8");
            }
            "8"
        },
        9 => {
            proof {
                reveal_strlit("9");
            }
            "9"
        },
        10 => {
            proof {
                reveal_strlit("a");
            }
            "a"
        },
        11 => {
            proof {
                reveal_strlit("b");
            }
            "b"
        },
        12 => {
            proof {
                reveal_strlit("c");
            }
            "c"
        },
        13 => {
            proof {
                reveal_strlit("d");
            }
            "d"
        },
        14 => {
            proof {
                reveal_strlit("e");
            }
            "e"
        },
        15 => {
            proof {
                reveal_strlit("f");
            }
            "f"
        },
        _ => {
            proof {
                reveal_strlit("f");
            }
            "f"
        },
    }
}

fn hex_encode(b: &[u8]) -> (s: String)
    ensures
        s@ == spec_hex(b@),
{
    proof {
        reveal_strlit("");
    }
    let mut s = "".to_owned();
    let mut i: usize = 0;
    while i < b.len()
        invariant
            i <= b@.len(),
            s@ =~= spec_hex(b@.subrange(0, i as int)),
        decreases b@.len() - i,
    {
        let hi = b[i] / 16;
        let lo = b[i] % 16;
        s.append(hex_digit(hi));
        s.append(hex_digit(lo));
        proof {
            let next = spec_hex(b@.subrange(0, i + 1));
            assert forall|j: int| 0 <= j < next.len() implies #[trigger] next[j] == s@[j] by {
                if j < 2 * i {
                    assert(b@.subrange(0, i + 1)[j / 2] == b@.subrange(0, i as int)[j / 2]);
                }
            }
            assert(next =~= s@);
        }
        i = i + 1;
    }
    assert(b@.subrange(0, b@.len() as int) =~= b@);
    s
}

pub proof fn lemma_hex_chars(b: Seq<u8>)
    ensures
        forall|i: int| 0 <= i < spec_hex(b).len() ==> is_lower_hex(#[trigger] spec_hex(b)[i]),
        forall|i: int| 0 <= i < spec_hex(b).len() ==> is_account_char(#[trigger] spec_hex(b)[i]),
        spec_hex(b).len() == 2 * b.len(),
{
    assert forall|i: int| 0 <= i < spec_hex(b).len() implies is_lower_hex(#[trigger] spec_hex(b)[i])
        && is_account_char(spec_hex(b)[i]) by {
        let v = if i % 2 == 0 { b[i / 2] as int / 16 } else { b[i / 2] as int % 16 };
        assert(0 <= v < 16);
    }
}

/// Decoding the hex of `b` gives `b` back.
pub proof fn lemma_unhex_hex(b: Seq<u8>)
    ensures
        spec_unhex(spec_hex(b)) == b,
        forall|i: int| 0 <= i < spec_hex(b).len() ==> is_hex_digit(#[trigger] spec_hex(b)[i]),
{
    let h = spec_hex(b);
    assert forall|i: int| 0 <= i < h.len() implies is_hex_digit(#[trigger] h[i]) by {
        let v = if i % 2 == 0 { b[i / 2] as int / 16 } else { b[i / 2] as int % 16 };
        assert(0 <= v < 16);
    }
    assert forall|i: int| 0 <= i < b.len() implies #[trigger] spec_unhex(h)[i] == b[i] by {
        let x = b[i] as int;
        assert(h[2 * i] == spec_hex_char(x / 16));
        assert(h[2 * i + 1] == spec_hex_char(x % 16));
        assert(spec_hex_value(spec_hex_char(x / 16)) == x / 16);
        assert(spec_hex_value(spec_hex_char(x % 16)) == x % 16);
    }
    assert(spec_unhex(h) =~= b);
}

/// Encoding the bytes that 64 lower-case hex digits stand for gives the digits back.
pub proof fn lemma_hex_unhex(s: Seq<char>)
    requires
        s.len() % 2 == 0,
        all_lower_hex(s, 0),
    ensures
        spec_hex(spec_unhex(s)) == s,
{
    let b = spec_unhex(s);
    assert forall|i: int| 0 <= i < s.len() implies #[trigger] spec_hex(b)[i] == s[i] by {
        let k = i / 2;
        let hi = spec_hex_value(s[2 * k]);
        let lo = spec_hex_value(s[2 * k + 1]);
        assert(is_lower_hex(s[2 * k]));
        assert(is_lower_hex(s[2 * k + 1]));
        assert(0 <= hi < 16 && 0 <= lo < 16);
        assert(b[k] as int == hi * 16 + lo);
        assert((hi * 16 + lo) / 16 == hi) by (nonlinear_arith)
            requires 0 <= hi < 16 && 0 <= lo < 16;
        assert((hi * 16 + lo) % 16 == lo) by (nonlinear_arith)
            requires 0 <= hi < 16 && 0 <= lo < 16;
    }
    assert(spec_hex(b) =~= s);
}

fn hex_value(c: char) -> (v: u8)
    requires
        is_hex_digit(c),
    ensures
        v as int == spec_hex_value(c),
        v < 16,
{
    if '0' <= c && c <= '9' {
        (c as u32 - '0' as u32) as u8
    } else if 'a' <= c && c <= 'f' {
        (c as u32 - 'a' as u32 + 10) as u8
    } else {
        (c as u32 - 'A' as u32 + 10) as u8
    }
}

fn is_hex_char(c: char) -> (b: bool)
    ensures
        b == is_hex_digit(c),
{
    ('0' <= c && c <= '9') || ('a' <= c && c <= 'f') || ('A' <= c && c <= 'F')
}

impl Clone for PublicKey {
    fn clone(&self) -> (r: Self)
        ensures
            r@ == self@,
    {
        match self {
            PublicKey::Ed25519(k) => PublicKey::Ed25519(k.clone()),
            PublicKey::Secp256k1(k) => PublicKey::Secp256k1(k.clone()),
        }
    }
}

fn bytes_eq(a: &Vec<u8>, b: &Vec<u8>) -> (r: bool)
    ensures
        r == (a@ == b@),
{
    if a.len() != b.len() {
        return false;
    }
    let mut i: usize = 0;
    while i < a.len()
        invariant
            a@.len() == b@.len(),
            i <= a@.len(),
            forall|j: int| 0 <= j < i ==> a@[j] == b@[j],
        decreases a@.len() - i,
    {
        if a[i] != b[i] {
            return false;
        }
        i = i + 1;
    }
    assert(a@ =~= b@);
    true
}

impl KeyEq for PublicKey {
    fn key_eq(&self, other: &Self) -> (r: bool) {
        match (self, other) {
            (PublicKey::Ed25519(a), PublicKey::Ed25519(b)) => bytes_eq(a, b),
            (PublicKey::Secp256k1(a), PublicKey::Secp256k1(b)) => bytes_eq(a, b),
            _ => false,
        }
    }
}

impl PublicKey {
    pub open spec fn valid(&self) -> bool {
        is_valid_public_key(self@)
    }

    /// Whether the key has the length of its curve.
    pub fn is_valid(&self) -> (b: bool)
        ensures
            b == self.valid(),
    {
        match self {
            PublicKey::Ed25519(k) => k.len() == 32,
            PublicKey::Secp256k1(k) => k.len() == 64,
        }
    }

    pub fn curve(&self) -> (c: Curve)
        ensures
            c == self@.0,
    {
        match self {
            PublicKey::Ed25519(_) => Curve::Ed25519,
            PublicKey::Secp256k1(_) => Curve::Secp256k1,
        }
    }

    /// The implicit account that this key controls.
    pub fn to_implicit_account_id(&self) -> (a: AccountId)
        requires
            self.valid(),
        ensures
            a@ == spec_implicit_account_id(self@),
            a.valid(),
    {
        match self {
            PublicKey::Ed25519(k) => {
                let s = hex_encode(k.as_slice());
                proof {
                    lemma_hex_chars(k@);
                    assert(!crate::account_id::is_separator(s@[0]));
                    assert(!crate::account_id::is_separator(s@[s@.len() - 1]));
                }
                AccountId::from_valid(s)
            },
            PublicKey::Secp256k1(k) => {
                let h = keccak256(k.as_slice());
                let mut tail: Vec<u8> = Vec::new();
                let mut i: usize = 12;
                while i < 32
                    invariant
                        12 <= i <= 32,
                        h@.len() == 32,
                        tail@ =~= h@.subrange(12, i as int),
                    decreases 32 - i,
                {
                    tail.push(h[i]);
                    i = i + 1;
                }
                proof {
                    reveal_strlit("0x");
                }
                let mut s = "0x".to_owned();
                let x = hex_encode(tail.as_slice());
                s.append(x.as_str());
                proof {
                    lemma_hex_chars(tail@);
                    assert(s@ =~= seq!['0', 'x'] + x@);
                    assert forall|j: int| 0 <= j < s@.len() implies is_account_char(#[trigger] s@[j]) by {
                        if j >= 2 {
                            assert(s@[j] == x@[j - 2]);
                        }
                    }
                    assert(s@[s@.len() - 1] == x@[x@.len() - 1]);
                }
                AccountId::from_valid(s)
            },
        }
    }

    /// The Ed25519 key behind an implicit NEAR account id, if it is one.
    pub fn from_implicit_account_id(account_id: &AccountId) -> (r: Option<PublicKey>)
        ensures
            match r {
                Some(k) => spec_from_implicit_account_id(account_id@) == Some(k@) && k.valid(),
                None => spec_from_implicit_account_id(account_id@) is None,
            },
    {
        let s = account_id.as_str();
        let n = s.unicode_len();
        if n != 64 {
            return None;
        }
        let mut bytes: Vec<u8> = Vec::new();
        let mut i: usize = 0;
        while i < 32
            invariant
                n == 64,
                s@ == account_id@,
                s@.len() == 64,
                i <= 32,
                forall|j: int| 0 <= j < 2 * i ==> is_hex_digit(#[trigger] s@[j]),
                bytes@ =~= spec_unhex(s@.subrange(0, 2 * i as int)),
            decreases 32 - i,
        {
            let c1 = s.get_char(2 * i);
            let c2 = s.get_char(2 * i + 1);
            if !is_hex_char(c1) || !is_hex_char(c2) {
                proof {
                    if !is_hex_digit(c1) {
                        assert(!is_hex_digit(s@[2 * i as int]));
                    } else {
                        assert(!is_hex_digit(s@[2 * i + 1]));
                    }
                }
                return None;
            }
            let v = hex_value(c1) * 16 + hex_value(c2);
            bytes.push(v);
            proof {
                assert forall|j: int| 0 <= j < 2 * (i + 1) implies is_hex_digit(#[trigger] s@[j]) by {
                    if j == 2 * i {
                    } else if j == 2 * i + 1 {
                    }
                }
                let next = spec_unhex(s@.subrange(0, 2 * (i + 1)));
                assert forall|j: int| 0 <= j < next.len() implies #[trigger] next[j] == bytes@[j] by {
                    if j < i {
                        assert(s@.subrange(0, 2 * (i + 1))[2 * j] == s@.subrange(0, 2 * i as int)[2 * j]);
                        assert(s@.subrange(0, 2 * (i + 1))[2 * j + 1] == s@.subrange(0, 2 * i as int)[2 * j + 1]);
                    }
                }
                assert(next =~= bytes@);
            }
            i = i + 1;
        }
        assert(s@.subrange(0, 64) =~= s@);
        Some(PublicKey::Ed25519(bytes))
    }
}

/// An Ed25519 key is the key behind its own implicit account id.
pub proof fn lemma_implicit_account_id_roundtrip(k: PublicKeyView)
    requires
        k.0 == Curve::Ed25519,
        is_valid_public_key(k),
    ensures
        spec_from_implicit_account_id(spec_implicit_account_id(k)) == Some(k),
        spec_account_type(spec_implicit_account_id(k)) == AccountType::NearImplicitAccount,
{
    lemma_unhex_hex(k.1);
    lemma_hex_chars(k.1);
    let id = spec_implicit_account_id(k);
    assert(all_lower_hex(id, 0));
    assert(!(id[0] == '0' && id[1] == 'x' && id.len() == 42));
}

/// An implicit NEAR account id is the implicit account id of the key behind it.
pub proof fn lemma_implicit_key_roundtrip(id: Seq<char>)
    requires
        spec_account_type(id) == AccountType::NearImplicitAccount,
    ensures
        spec_from_implicit_account_id(id) is Some,
        spec_implicit_account_id(spec_from_implicit_account_id(id)->0) == id,
{
    assert forall|i: int| 0 <= i < 64 implies is_hex_digit(#[trigger] id[i]) by {
        assert(is_lower_hex(id[i]));
    }
    lemma_hex_unhex(id);
}

} // verus!
