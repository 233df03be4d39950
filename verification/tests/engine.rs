use defuse::calls::{
    ft_withdraw_calls, mt_withdraw_calls, nft_withdraw_calls, transfer_call_calls, transfer_may_follow, CallMethod, CallTarget,
};
use defuse::gas::{FT_TRANSFER_GAS, NEAR_WITHDRAW_GAS, RESOLVE_WITHDRAW_GAS, STORAGE_DEPOSIT_GAS};
use defuse::withdraw::{ft_withdraw_used, transferred_of};
use defuse::account_id::AccountId;
use defuse::contract::{receiver_refunds_of, Contract};
use defuse::crypto::PublicKey;
use defuse::deposit::{AfterDeposit, DepositMessage, ParseDepositMessageError};
use defuse::errors::DefuseError;
use defuse::fees::{FeesConfig, Pips};
use defuse::intents::{
    Intent, IntentOutcome, MtBatchTransfer, MtBatchTransferCall, SignedIntent, SimulateInspector, SimulationOutput,
    StateOutput, TokenDiff,
};
use defuse::multi_token::Token;
use defuse::nonces::Nonces;
use defuse::runtime::{AccountDiff, Differ, RuntimeState, SignedDiff};
use defuse::token_id::TokenId;
use defuse::withdraw::{FtWithdraw, MtWithdraw, NativeWithdraw, NftWithdraw};

fn acc(s: &str) -> AccountId {
    AccountId::parse(s).unwrap()
}

fn contract() -> Contract {
    let fees = FeesConfig { fee: Pips::from_pips(1_000).unwrap(), fee_collector: acc("fees.near") };
    Contract::new(acc("wrap.near"), fees)
}

fn ft(s: &str) -> TokenId {
    TokenId::Nep141(acc(s))
}

fn key(b: u8) -> PublicKey {
    PublicKey::Ed25519(vec![b; 32])
}

const TGAS: u64 = 1_000_000_000_000;

#[test]
fn implicit_account_of_ed25519_key() {
    let id = key(0xab).to_implicit_account_id();
    assert_eq!(id.as_str(), "ab".repeat(32));
    let back = PublicKey::from_implicit_account_id(&id).unwrap();
    assert_eq!(back.to_implicit_account_id().as_str(), id.as_str());
    assert!(PublicKey::from_implicit_account_id(&acc("alice.near")).is_none());
}

#[test]
fn implicit_account_of_secp256k1_key() {
    // the public key of the secret key 1: the curve's generator
    let x = "79be667ef9dcbbac55a06295ce870b07029bfcdb2dce28d959f2815b16f81798";
    let y = "483ada7726a3c4655da4fbfc0e1108a8fd17b448a68554199c47d08ffb10d4b8";
    let hex = format!("{}{}", x, y);
    let bytes: Vec<u8> = (0..64).map(|i| u8::from_str_radix(&hex[2 * i..2 * i + 2], 16).unwrap()).collect();
    let id = PublicKey::Secp256k1(bytes).to_implicit_account_id();
    assert_eq!(id.as_str(), "0x7e5f4552091a69125d5dfcb7b8c2659029395bdf");
}

#[test]
fn nonces_are_used_once() {
    let mut n = Nonces::new();
    let a = [7u8; 32];
    let mut b = [7u8; 32];
    b[31] = 8;
    assert!(!n.is_used(&a));
    assert_eq!(n.commit(&a), Ok(()));
    assert!(n.is_used(&a));
    assert!(!n.is_used(&b));
    assert_eq!(n.commit(&a), Err(DefuseError::NonceUsed));
    assert_eq!(n.commit(&b), Ok(()));
}

#[test]
fn keys_of_named_and_implicit_accounts() {
    let mut c = contract();
    let alice = acc("alice.near");
    let k = key(1);
    assert!(!c.has_public_key(&alice, &k));
    c.add_public_key(alice.clone(), key(1)).unwrap();
    assert!(c.has_public_key(&alice, &k));
    assert_eq!(c.add_public_key(alice.clone(), key(1)).unwrap_err(), DefuseError::PublicKeyExists);
    assert_eq!(c.public_keys_of(&alice).len(), 1);
    c.remove_public_key(alice.clone(), &k).unwrap();
    assert!(!c.has_public_key(&alice, &k));
    assert_eq!(c.remove_public_key(alice.clone(), &k).unwrap_err(), DefuseError::PublicKeyNotExist);

    let k2 = key(2);
    let implicit = k2.to_implicit_account_id();
    assert!(c.has_public_key(&implicit, &k2));
    assert_eq!(c.public_keys_of(&implicit).len(), 1);
    c.remove_public_key(implicit.clone(), &k2).unwrap();
    assert!(!c.has_public_key(&implicit, &k2));
    assert!(c.public_keys_of(&implicit).is_empty());
    c.add_public_key(implicit.clone(), key(2)).unwrap();
    assert!(c.has_public_key(&implicit, &k2));
}

#[test]
fn contract_nonces() {
    let mut c = contract();
    let alice = acc("alice.near");
    let n = [1u8; 32];
    assert!(!c.is_nonce_used(&alice, &n));
    c.commit_nonce(alice.clone(), &n).unwrap();
    assert!(c.is_nonce_used(&alice, &n));
    assert_eq!(c.commit_nonce(alice.clone(), &n).unwrap_err(), DefuseError::NonceUsed);
    let m = [2u8; 32];
    // a used nonce fails the whole call: nothing is marked
    assert_eq!(c.invalidate_nonces(alice.clone(), vec![m, n]).unwrap_err(), DefuseError::NonceUsed);
    assert!(!c.is_nonce_used(&alice, &m));
    // so does a nonce given twice
    assert_eq!(c.invalidate_nonces(alice.clone(), vec![m, m]).unwrap_err(), DefuseError::NonceUsed);
    assert!(!c.is_nonce_used(&alice, &m));
    // and a nameless caller gets no account from a failed call
    let bob = acc("bob.near");
    assert_eq!(c.invalidate_nonces(bob.clone(), vec![m, m]).unwrap_err(), DefuseError::NonceUsed);
    assert!(c.account(&bob).is_none());
    let k = [3u8; 32];
    c.invalidate_nonces(alice.clone(), vec![m, k]).unwrap();
    assert!(c.is_nonce_used(&alice, &m) && c.is_nonce_used(&alice, &k));
}

#[test]
fn withdraw_call_plans() {
    let wnear = acc("wrap.near");
    let owner = acc("alice.near");
    let w = FtWithdraw { token: acc("usdc.near"), receiver_id: acc("bob.near"), amount: 7, memo: Some("m".to_string()), storage_deposit: None };
    let c = ft_withdraw_calls(&wnear, &owner, &w);
    assert!(c.unwrap.is_none());
    assert_eq!(c.transfer.len(), 1);
    assert!(matches!(&c.transfer[0].target, CallTarget::Account(a) if a.as_str() == "usdc.near"));
    assert!(matches!(&c.transfer[0].method,
        CallMethod::FtTransfer { receiver_id, amount: 7, memo: Some(m) } if receiver_id.as_str() == "bob.near" && m == "m"));
    assert_eq!((c.transfer[0].deposit, c.transfer[0].gas), (1, Some(FT_TRANSFER_GAS)));
    assert!(matches!(&c.resolve.target, CallTarget::Current));
    assert!(matches!(&c.resolve.method,
        CallMethod::FtResolveWithdraw { token, sender_id, amount: 7 } if token.as_str() == "usdc.near" && sender_id.as_str() == "alice.near"));
    assert_eq!((c.resolve.deposit, c.resolve.gas), (0, Some(RESOLVE_WITHDRAW_GAS)));

    let n = NftWithdraw { token: acc("nft.near"), receiver_id: acc("bob.near"), token_id: "t1".to_string(), memo: None, storage_deposit: Some(9) };
    let c = nft_withdraw_calls(&wnear, &owner, &n);
    let (unwrap, _) = c.unwrap.as_ref().unwrap();
    assert!(matches!(&unwrap.target, CallTarget::Account(a) if a.as_str() == "wrap.near"));
    assert!(matches!(unwrap.method, CallMethod::NearWithdraw { amount: 9 }));
    assert_eq!((unwrap.deposit, unwrap.gas), (1, Some(NEAR_WITHDRAW_GAS)));
    assert_eq!(c.transfer.len(), 2);
    assert!(matches!(&c.transfer[0].method, CallMethod::StorageDeposit { account_id } if account_id.as_str() == "bob.near"));
    assert_eq!((c.transfer[0].deposit, c.transfer[0].gas), (9, Some(STORAGE_DEPOSIT_GAS)));
    assert!(matches!(&c.transfer[1].method, CallMethod::NftTransfer { token_id, memo: None, .. } if token_id == "t1"));
    assert!(matches!(&c.resolve.method, CallMethod::NftResolveWithdraw { token_id, .. } if token_id == "t1"));

    let m = MtWithdraw {
        token: acc("mt.near"),
        receiver_id: acc("bob.near"),
        token_ids: vec!["a".to_string(), "b".to_string()],
        amounts: vec![1, 2],
        memo: None,
        storage_deposit: None,
    };
    let c = mt_withdraw_calls(&wnear, &owner, &m);
    assert_eq!(c.transfer[0].gas, Some(16_000_000_000_000));
    assert!(matches!(&c.transfer[0].method, CallMethod::MtBatchTransfer { amounts, .. } if amounts == &vec![1, 2]));
    assert_eq!(c.resolve.gas, Some(6_000_000_000_000));

    assert!(transfer_may_follow(None, false));
    assert!(!transfer_may_follow(Some(1), false));
    assert!(transfer_may_follow(Some(1), true));
}

#[test]
fn transfer_call_plan_calls() {
    let mut c = contract();
    let alice = acc("alice.near");
    c.deposit(alice.clone(), vec![(ft("usdc.near"), 10)], None).unwrap();
    let ids = vec!["nep141:usdc.near".to_string()];
    let (_, plan) = c.internal_mt_batch_transfer_call(alice.clone(), acc("bob.near"), ids.clone(), vec![4], None).unwrap();
    let (on_transfer, resolve) = transfer_call_calls(&alice, &acc("bob.near"), &ids, &vec![4], "hi".to_string(), &plan);
    assert!(matches!(&on_transfer.target, CallTarget::Account(a) if a.as_str() == "bob.near"));
    assert!(matches!(&on_transfer.method, CallMethod::MtOnTransfer { sender_id, previous_owner_ids, msg, .. }
        if sender_id.as_str() == "alice.near" && previous_owner_ids.len() == 1 && msg == "hi"));
    assert_eq!(on_transfer.gas, None);
    assert!(matches!(&resolve.method, CallMethod::MtResolveTransfer { receiver_id, amounts, .. }
        if receiver_id.as_str() == "bob.near" && amounts == &vec![4]));
    assert_eq!(resolve.gas, Some(6_000_000_000_000));
}

#[test]
fn ft_withdraw_used_amounts() {
    assert_eq!(ft_withdraw_used(10, false, None), 0);
    assert_eq!(ft_withdraw_used(10, false, Some(vec![])), 10);
    assert_eq!(ft_withdraw_used(10, false, Some(b"\"3\"".to_vec())), 0);
    assert_eq!(ft_withdraw_used(10, true, Some(b"\"3\"".to_vec())), 3);
    assert_eq!(ft_withdraw_used(10, true, Some(b"\"30\"".to_vec())), 10);
    assert_eq!(ft_withdraw_used(10, true, Some(b"oops".to_vec())), 0);
    let mut c = contract();
    let alice = acc("alice.near");
    let (used, ev) = c.ft_resolve_withdraw_call(acc("usdc.near"), alice.clone(), 10, true, Some(b"\"4\"".to_vec()));
    assert_eq!(used, 4);
    assert_eq!(ev.unwrap().amounts, vec![6]);
    assert_eq!(c.balance_of(&alice, &ft("usdc.near")), 6);
}

#[test]
fn relayer_keys_and_fees() {
    let mut c = contract();
    let k = key(3);
    assert!(!c.has_relayer_key(&k));
    c.do_add_relayer_key(key(3));
    assert!(c.has_relayer_key(&k));
    c.delete_relayer_key(&k);
    assert!(!c.has_relayer_key(&k));
    c.set_fee(Pips::from_pips(5).unwrap());
    assert_eq!(c.fee().as_pips(), 5);
    c.set_fee_collector(acc("other.near"));
    assert_eq!(c.fee_collector().as_str(), "other.near");
}

#[test]
fn ft_withdraw_with_storage_deposit() {
    let mut c = contract();
    let alice = acc("alice.near");
    c.deposit(alice.clone(), vec![(ft("usdc.near"), 100), (ft("wrap.near"), 10)], None).unwrap();
    let w = FtWithdraw {
        token: acc("usdc.near"),
        receiver_id: acc("bob.near"),
        amount: 40,
        memo: None,
        storage_deposit: Some(3),
    };
    let plan = c.ft_withdraw(&alice, &w).unwrap();
    assert_eq!(plan.near_withdraw, Some(3));
    assert_eq!(plan.transfer_gas, Some(28 * TGAS));
    assert_eq!(plan.resolve_gas, Some(5 * TGAS));
    assert_eq!(c.balance_of(&alice, &ft("usdc.near")), 60);
    assert_eq!(c.balance_of(&alice, &ft("wrap.near")), 7);
    assert_eq!(c.total_supply(&ft("wrap.near")), 7);
    let burns = c.flush_burns();
    assert_eq!(burns[0].token_ids, vec!["nep141:usdc.near".to_string(), "nep141:wrap.near".to_string()]);
    assert_eq!(burns[0].memo, Some("withdraw".to_string()));
}

#[test]
fn nft_and_mt_withdraw() {
    let mut c = contract();
    let alice = acc("alice.near");
    let nft = TokenId::Nep171(acc("nft.near"), "t1".to_string());
    let mt = TokenId::Nep245(acc("mt.near"), "g".to_string());
    c.deposit(alice.clone(), vec![(nft.clone(), 1), (mt.clone(), 9)], None).unwrap();
    let w = NftWithdraw {
        token: acc("nft.near"),
        receiver_id: acc("bob.near"),
        token_id: "t1".to_string(),
        memo: None,
        storage_deposit: None,
    };
    let plan = c.nft_withdraw(&alice, &w).unwrap();
    assert_eq!(plan.near_withdraw, None);
    assert_eq!(c.balance_of(&alice, &nft), 0);
    assert_eq!(c.nft_withdraw(&alice, &w).unwrap_err(), DefuseError::BalanceOverflow);
    let m = MtWithdraw {
        token: acc("mt.near"),
        receiver_id: acc("bob.near"),
        token_ids: vec!["g".to_string()],
        amounts: vec![4],
        memo: None,
        storage_deposit: None,
    };
    let plan = c.mt_withdraw(&alice, &m).unwrap();
    assert_eq!(plan.resolve_gas, Some(5 * TGAS + TGAS / 2));
    assert_eq!(plan.transfer_gas, Some(TGAS + TGAS / 2 + 10 * TGAS + 15 * TGAS + TGAS / 2));
    assert_eq!(c.balance_of(&alice, &mt), 5);
}

#[test]
fn native_withdraw_and_unwrap() {
    let mut c = contract();
    let alice = acc("alice.near");
    c.deposit(alice.clone(), vec![(ft("wrap.near"), 10)], None).unwrap();
    let plan = c.native_withdraw(&alice, &NativeWithdraw { receiver_id: acc("bob.near"), amount: 4 }).unwrap();
    assert_eq!(plan.near_withdraw, Some(4));
    assert_eq!(plan.transfer_gas, Some(4 * TGAS));
    assert_eq!(plan.resolve_gas, None);
    let plan = c.unwrap_wnear(&alice, 6, None).unwrap();
    assert_eq!(plan.transfer_gas, None);
    assert_eq!(c.balance_of(&alice, &ft("wrap.near")), 0);
    assert_eq!(c.unwrap_wnear(&alice, 1, None).unwrap_err(), DefuseError::BalanceOverflow);
}

#[test]
fn failed_withdrawals_are_refunded() {
    let mut c = contract();
    let alice = acc("alice.near");
    assert!(c.ft_resolve_withdraw(acc("usdc.near"), alice.clone(), 5, true).unwrap().is_none());
    assert_eq!(c.balance_of(&alice, &ft("usdc.near")), 0);
    let ev = c.ft_resolve_withdraw(acc("usdc.near"), alice.clone(), 5, false).unwrap().unwrap();
    assert_eq!(ev.memo, Some("refund".to_string()));
    assert_eq!(c.balance_of(&alice, &ft("usdc.near")), 5);
    c.nft_resolve_withdraw(acc("nft.near"), alice.clone(), "t".to_string(), false).unwrap();
    assert_eq!(c.balance_of(&alice, &TokenId::Nep171(acc("nft.near"), "t".to_string())), 1);
    c.mt_resolve_withdraw(acc("mt.near"), alice.clone(), vec!["a".to_string(), "b".to_string()], vec![2, 3], false)
        .unwrap();
    assert_eq!(c.balance_of(&alice, &TokenId::Nep245(acc("mt.near"), "b".to_string())), 3);
    assert_eq!(
        c.ft_resolve_withdraw(acc("usdc.near"), alice.clone(), 0, false).unwrap_err(),
        DefuseError::InvalidIntent
    );
}

#[test]
fn deposit_messages() {
    let m = DepositMessage::from_account_str("bob.near").unwrap();
    assert_eq!(m.receiver_id.as_str(), "bob.near");
    assert_eq!(m.plain_form(), Some("bob.near"));
    assert!(matches!(DepositMessage::from_account_str("Bob").unwrap_err(), ParseDepositMessageError::Account(_)));
    let m = m.with_execute_intents(vec!["{}".to_string()]);
    assert_eq!(m.plain_form(), None);
    assert!(matches!(m.with_refund_if_fails().after_deposit(), AfterDeposit::ExecuteIntents(v) if v.len() == 1));
    let d = DepositMessage::new(acc("bob.near")).with_execute_intents(vec!["{}".to_string()]);
    assert!(matches!(d.after_deposit(), AfterDeposit::ScheduleIntents(_)));
    assert!(matches!(DepositMessage::new(acc("bob.near")).after_deposit(), AfterDeposit::Nothing));
}

#[test]
fn deposits_from_token_contracts() {
    let mut c = contract();
    let (ev, after) = c.ft_on_transfer(acc("usdc.near"), acc("alice.near"), 10, None).unwrap();
    assert_eq!(ev.owner_id.as_str(), "alice.near");
    assert_eq!(ev.memo, Some("deposit".to_string()));
    assert!(matches!(after, AfterDeposit::Nothing));
    let msg = DepositMessage::new(acc("bob.near"));
    c.ft_on_transfer(acc("usdc.near"), acc("alice.near"), 5, Some(msg)).unwrap();
    assert_eq!(c.balance_of(&acc("bob.near"), &ft("usdc.near")), 5);
    c.nft_on_transfer(acc("nft.near"), acc("alice.near"), "t".to_string(), None).unwrap();
    assert_eq!(c.balance_of(&acc("alice.near"), &TokenId::Nep171(acc("nft.near"), "t".to_string())), 1);
    c.nft_on_transfer(acc("nft.near"), acc("alice.near"), "t".to_string(), None).unwrap();
    assert_eq!(c.balance_of(&acc("alice.near"), &TokenId::Nep171(acc("nft.near"), "t".to_string())), 2);
    let (_, _, refunds) = c
        .mt_on_transfer(acc("mt.near"), acc("alice.near"), vec!["a".to_string(), "b".to_string()], vec![1, 2], None)
        .unwrap();
    assert_eq!(refunds, vec![0, 0]);
}

#[test]
fn multi_token_views() {
    let mut c = contract();
    let alice = acc("alice.near");
    c.deposit(alice.clone(), vec![(ft("usdc.near"), 10)], None).unwrap();
    assert_eq!(c.mt_balance_of(&alice, "nep141:usdc.near"), 10);
    assert_eq!(c.mt_balance_of(&alice, "garbage"), 0);
    let ids = vec!["nep141:usdc.near".to_string(), "nep141:dai.near".to_string(), "x".to_string()];
    assert_eq!(c.mt_batch_balance_of(&alice, &ids), vec![10, 0, 0]);
    assert_eq!(c.mt_supply("nep141:usdc.near"), Some(10));
    assert_eq!(c.mt_batch_supply(&ids), vec![Some(10), Some(0), None]);
    let tokens: Vec<Option<Token>> = c.mt_token(ids);
    assert_eq!(tokens[0].as_ref().unwrap().token_id, "nep141:usdc.near");
    assert!(tokens[1].is_none());
    assert!(tokens[2].is_none());
}

#[test]
fn transfer_call_plan() {
    let mut c = contract();
    let alice = acc("alice.near");
    c.deposit(alice.clone(), vec![(ft("usdc.near"), 10)], None).unwrap();
    let (ev, plan) = c
        .internal_mt_batch_transfer_call(alice.clone(), acc("bob.near"), vec!["nep141:usdc.near".to_string()], vec![3], None)
        .unwrap();
    assert_eq!(ev.amounts, vec![3]);
    assert_eq!(plan.previous_owner_ids.len(), 1);
    assert_eq!(plan.previous_owner_ids[0].as_str(), "alice.near");
    assert_eq!(plan.resolve_gas, 6 * TGAS);
    assert_eq!(plan.on_transfer_gas, None);
}

fn signed(k: &PublicKey, signer: &AccountId, nonce: u8, intents: Vec<Intent>) -> SignedIntent {
    SignedIntent {
        public_key: Some(k.clone()),
        hash: [nonce ^ 0x5a; 32],
        recipient: acc("intents.near"),
        nonce: [nonce; 32],
        signer_id: signer.clone(),
        deadline: 1_000 + nonce as u64,
        deadline_expired: false,
        intents,
    }
}

#[test]
fn signed_intents_are_checked_in_order() {
    let mut c = contract();
    let mut rt = RuntimeState::new();
    let here = acc("intents.near");
    let k = key(9);
    let signer = k.to_implicit_account_id();
    let mut s = signed(&k, &signer, 1, vec![]);
    s.public_key = None;
    assert_eq!(c.execute_signed_intent(&mut rt, &here, s).unwrap_err(), DefuseError::InvalidSignature);
    let mut s = signed(&k, &signer, 1, vec![]);
    s.recipient = acc("other.near");
    assert_eq!(c.execute_signed_intent(&mut rt, &here, s).unwrap_err(), DefuseError::WrongRecipient);
    let mut s = signed(&k, &signer, 1, vec![]);
    s.deadline_expired = true;
    assert_eq!(c.execute_signed_intent(&mut rt, &here, s).unwrap_err(), DefuseError::DeadlineExpired);
    let s = signed(&key(8), &signer, 1, vec![]);
    assert_eq!(c.execute_signed_intent(&mut rt, &here, s).unwrap_err(), DefuseError::PublicKeyNotExist);
    assert!(c.execute_signed_intent(&mut rt, &here, signed(&k, &signer, 1, vec![])).is_ok());
    // the same request again is refused
    assert_eq!(
        c.execute_signed_intent(&mut rt, &here, signed(&k, &signer, 1, vec![])).unwrap_err(),
        DefuseError::NonceUsed
    );
}

#[test]
fn key_intents() {
    let mut c = contract();
    let mut rt = RuntimeState::new();
    let here = acc("intents.near");
    let k = key(9);
    let signer = k.to_implicit_account_id();
    let out = c
        .execute_signed_intent(&mut rt, &here, signed(&k, &signer, 1, vec![Intent::AddPublicKey(key(4))]))
        .unwrap();
    assert!(matches!(out.1[0], IntentOutcome::Done));
    assert_eq!(out.0.account_id.as_str(), signer.as_str());
    assert_eq!(out.0.hash, [1 ^ 0x5a; 32]);
    assert!(c.has_public_key(&signer, &key(4)));
    // the new key signs too
    assert!(c.execute_signed_intent(&mut rt, &here, signed(&key(4), &signer, 2, vec![])).is_ok());
    assert_eq!(
        c.execute_signed_intent(&mut rt, &here, signed(&k, &signer, 3, vec![Intent::InvalidateNonces(vec![[2u8; 32]])]))
            .unwrap_err(),
        DefuseError::NonceUsed
    );
}

#[test]
fn transfer_intent_deposits_at_the_end() {
    let mut c = contract();
    let mut rt = RuntimeState::new();
    let here = acc("intents.near");
    let k = key(9);
    let signer = k.to_implicit_account_id();
    let bob = acc("bob.near");
    c.deposit(signer.clone(), vec![(ft("usdc.near"), 10)], None).unwrap();
    let t = MtBatchTransfer { receiver_id: bob.clone(), token_ids: vec![ft("usdc.near")], amounts: vec![4], memo: None };
    let out = c.execute_signed_intent(&mut rt, &here, signed(&k, &signer, 1, vec![Intent::MtBatchTransfer(t)])).unwrap();
    assert!(matches!(&out.1[0], IntentOutcome::Transfer(ev) if ev.amounts == vec![4]));
    assert_eq!(c.balance_of(&signer, &ft("usdc.near")), 6);
    assert_eq!(c.balance_of(&bob, &ft("usdc.near")), 0);
    rt.finalize(&mut c).unwrap();
    assert_eq!(c.balance_of(&bob, &ft("usdc.near")), 4);
    assert_eq!(c.total_supply(&ft("usdc.near")), 10);
}

#[test]
fn matched_token_diffs_settle_with_fees() {
    let mut c = contract();
    let mut rt = RuntimeState::new();
    let here = acc("intents.near");
    let ka = key(1);
    let kb = key(2);
    let a = ka.to_implicit_account_id();
    let b = kb.to_implicit_account_id();
    let usdc = ft("usdc.near");
    let dai = ft("dai.near");
    c.deposit(a.clone(), vec![(usdc.clone(), 1_000_000)], None).unwrap();
    c.deposit(b.clone(), vec![(dai.clone(), 1_000_000)], None).unwrap();
    // a gives 1 000 000 usdc for 999 000 dai; b the other way round; the
    // fee of 0.1% on each side goes to the collector
    let da = TokenDiff { diff: vec![(usdc.clone(), -1_000_000), (dai.clone(), 998_000)] };
    let db = TokenDiff { diff: vec![(dai.clone(), -1_000_000), (usdc.clone(), 998_000)] };
    c.execute_signed_intent(&mut rt, &here, signed(&ka, &a, 1, vec![Intent::TokenDiff(da)])).unwrap();
    let out = c.execute_signed_intent(&mut rt, &here, signed(&kb, &b, 1, vec![Intent::TokenDiff(db)])).unwrap();
    match &out.1[0] {
        IntentOutcome::TokenDiff(evs) => {
            assert_eq!(evs.len(), 2);
            assert_eq!(evs[0].memo, Some("token_diff".to_string()));
        },
        _ => panic!("no token diff"),
    }
    assert_eq!(rt.finalize(&mut c), Err(DefuseError::InvariantViolated));
}

#[test]
fn balanced_token_diffs_finalize() {
    let mut c = contract();
    c.set_fee(Pips::zero());
    let mut rt = RuntimeState::new();
    let here = acc("intents.near");
    let ka = key(1);
    let kb = key(2);
    let a = ka.to_implicit_account_id();
    let b = kb.to_implicit_account_id();
    let usdc = ft("usdc.near");
    let dai = ft("dai.near");
    c.deposit(a.clone(), vec![(usdc.clone(), 100)], None).unwrap();
    c.deposit(b.clone(), vec![(dai.clone(), 90)], None).unwrap();
    let da = TokenDiff { diff: vec![(usdc.clone(), -100), (dai.clone(), 90)] };
    let db = TokenDiff { diff: vec![(dai.clone(), -90), (usdc.clone(), 100)] };
    c.execute_signed_intent(&mut rt, &here, signed(&ka, &a, 1, vec![Intent::TokenDiff(da)])).unwrap();
    c.execute_signed_intent(&mut rt, &here, signed(&kb, &b, 1, vec![Intent::TokenDiff(db)])).unwrap();
    assert_eq!(rt.finalize(&mut c), Ok(()));
    assert_eq!(c.balance_of(&a, &dai), 90);
    assert_eq!(c.balance_of(&b, &usdc), 100);
    assert_eq!(c.total_supply(&usdc), 100);
}

#[test]
fn token_diff_overdraft_fails() {
    let mut c = contract();
    let mut rt = RuntimeState::new();
    let here = acc("intents.near");
    let ka = key(1);
    let a = ka.to_implicit_account_id();
    let d = TokenDiff { diff: vec![(ft("usdc.near"), -1)] };
    assert_eq!(
        c.execute_signed_intent(&mut rt, &here, signed(&ka, &a, 1, vec![Intent::TokenDiff(d)])).unwrap_err(),
        DefuseError::BalanceOverflow
    );
}

#[test]
fn differ_checks_that_diffs_cancel() {
    let mut c = contract();
    let a = acc("a.near");
    let b = acc("b.near");
    c.deposit(a.clone(), vec![(ft("usdc.near"), 10)], None).unwrap();
    let mut d = Differ::new();
    assert_eq!(
        d.commit_account_diff(&mut c, &a, AccountDiff { deadline_expired: true, tokens: vec![] }),
        Err(DefuseError::DeadlineExpired)
    );
    d.commit_account_diff(&mut c, &a, AccountDiff { deadline_expired: false, tokens: vec![(ft("usdc.near"), -4)] })
        .unwrap();
    d.commit_account_diff(&mut c, &b, AccountDiff { deadline_expired: false, tokens: vec![(ft("usdc.near"), 4)] })
        .unwrap();
    assert_eq!(c.balance_of(&b, &ft("usdc.near")), 4);
    assert_eq!(d.ensure_invariant(), Ok(()));
    let mut d2 = Differ::new();
    d2.commit_account_diff(&mut c, &b, AccountDiff { deadline_expired: false, tokens: vec![(ft("usdc.near"), -1)] })
        .unwrap();
    assert_eq!(d2.ensure_invariant(), Err(DefuseError::InvariantViolated));
}

#[test]
fn single_token_transfer() {
    let mut c = contract();
    let alice = acc("alice.near");
    c.deposit(alice.clone(), vec![(ft("usdc.near"), 10)], None).unwrap();
    let ev = c.mt_transfer(&alice, acc("bob.near"), "nep141:usdc.near".to_string(), 4, Some("m".to_string())).unwrap();
    assert_eq!(ev.memo, Some("m".to_string()));
    assert_eq!(c.balance_of(&acc("bob.near"), &ft("usdc.near")), 4);
    assert_eq!(
        c.mt_transfer(&alice, alice.clone(), "nep141:usdc.near".to_string(), 1, None).unwrap_err(),
        DefuseError::InvalidIntent
    );
    let ev = c
        .mt_batch_transfer(&alice, acc("bob.near"), vec!["nep141:usdc.near".to_string()], vec![6], None)
        .unwrap();
    assert_eq!(ev.amounts, vec![6]);
    assert_eq!(c.balance_of(&alice, &ft("usdc.near")), 0);
}

#[test]
fn simulation_reports() {
    let mut s = SimulateInspector::new();
    assert_eq!(s.min_deadline, u64::MAX);
    s.on_deadline(50);
    s.on_deadline(70);
    assert_eq!(s.min_deadline, 50);
    s.on_intent_executed(acc("alice.near"), [3; 32]);
    assert_eq!(s.intents_executed.len(), 1);
    let ok = SimulationOutput {
        intents_executed: s.intents_executed,
        min_deadline: s.min_deadline,
        unmatched_deltas: None,
        state: StateOutput { fee: Pips::zero() },
    };
    assert!(ok.into_result().is_ok());
    let bad = SimulationOutput {
        intents_executed: vec![],
        min_deadline: 0,
        unmatched_deltas: Some(vec![(ft("usdc.near"), -2)]),
        state: StateOutput { fee: Pips::zero() },
    };
    assert_eq!(bad.into_result().unwrap_err()[0].1, -2);
}

#[test]
fn transfer_call_intent() {
    let mut c = contract();
    let mut rt = RuntimeState::new();
    let here = acc("intents.near");
    let k = key(9);
    let signer = k.to_implicit_account_id();
    c.deposit(signer.clone(), vec![(ft("usdc.near"), 10)], None).unwrap();
    let t = MtBatchTransfer { receiver_id: acc("bob.near"), token_ids: vec![ft("usdc.near")], amounts: vec![4], memo: None };
    let call = MtBatchTransferCall { transfer: t, msg: "hi".to_string() };
    let out = c
        .execute_signed_intent(&mut rt, &here, signed(&k, &signer, 1, vec![Intent::MtBatchTransferCall(call)]))
        .unwrap();
    match &out.1[0] {
        IntentOutcome::TransferCall(ev, plan, msg) => {
            assert_eq!(ev.amounts, vec![4]);
            assert_eq!(msg, "hi");
            assert_eq!(plan.on_transfer_gas, Some(15 * TGAS));
            assert_eq!(plan.resolve_gas, 6 * TGAS);
        },
        _ => panic!("no transfer call"),
    }
}

#[test]
fn withdraw_intent_plan() {
    let mut c = contract();
    let mut rt = RuntimeState::new();
    let here = acc("intents.near");
    let k = key(9);
    let signer = k.to_implicit_account_id();
    c.deposit(signer.clone(), vec![(ft("usdc.near"), 10)], None).unwrap();
    let w = FtWithdraw { token: acc("usdc.near"), receiver_id: acc("bob.near"), amount: 10, memo: None, storage_deposit: None };
    let out = c.execute_signed_intent(&mut rt, &here, signed(&k, &signer, 1, vec![Intent::FtWithdraw(w)])).unwrap();
    assert!(matches!(&out.1[0], IntentOutcome::Withdraw(p) if p.near_withdraw.is_none()));
    assert_eq!(c.total_supply(&ft("usdc.near")), 0);
    assert_eq!(rt.finalize(&mut c), Ok(()));
}

#[test]
fn refunded_withdrawal_restores_balance_and_supply() {
    let mut c = contract();
    let alice = acc("alice.near");
    c.deposit(alice.clone(), vec![(ft("usdc.near"), 10)], None).unwrap();
    let w = FtWithdraw { token: acc("usdc.near"), receiver_id: acc("bob.near"), amount: 4, memo: None, storage_deposit: None };
    c.ft_withdraw(&alice, &w).unwrap();
    assert_eq!(c.balance_of(&alice, &ft("usdc.near")), 6);
    assert_eq!(c.total_supply(&ft("usdc.near")), 6);
    c.ft_resolve_withdraw(acc("usdc.near"), alice.clone(), 4, false).unwrap();
    assert_eq!(c.balance_of(&alice, &ft("usdc.near")), 10);
    assert_eq!(c.total_supply(&ft("usdc.near")), 10);
}

fn signed_diff(k: &PublicKey, nonce: u8, tokens: Vec<(TokenId, i128)>) -> SignedDiff {
    SignedDiff {
        public_key: Some(k.clone()),
        recipient: acc("intents.near"),
        nonce: [nonce; 32],
        diff: AccountDiff { deadline_expired: false, tokens },
    }
}

#[test]
fn signed_diffs_must_cancel_out() {
    let mut c = contract();
    let here = acc("intents.near");
    let ka = key(1);
    let kb = key(2);
    let a = ka.to_implicit_account_id();
    let b = kb.to_implicit_account_id();
    c.deposit(a.clone(), vec![(ft("usdc.near"), 10)], None).unwrap();
    let ok = vec![
        (a.clone(), vec![signed_diff(&ka, 1, vec![(ft("usdc.near"), -3)])]),
        (b.clone(), vec![signed_diff(&kb, 1, vec![(ft("usdc.near"), 3)])]),
    ];
    assert_eq!(c.apply_signed_diffs(&here, ok), Ok(()));
    assert_eq!(c.balance_of(&b, &ft("usdc.near")), 3);
    let lopsided = vec![(a.clone(), vec![signed_diff(&ka, 2, vec![(ft("usdc.near"), -1)])])];
    assert_eq!(c.apply_signed_diffs(&here, lopsided), Err(DefuseError::InvariantViolated));
    let replayed = vec![(a.clone(), vec![signed_diff(&ka, 1, vec![])])];
    assert_eq!(c.apply_signed_diffs(&here, replayed), Err(DefuseError::NonceUsed));
    let wrong_key = vec![(a.clone(), vec![signed_diff(&kb, 5, vec![])])];
    assert_eq!(c.apply_signed_diffs(&here, wrong_key), Err(DefuseError::InvalidSignature));
}

#[test]
fn ft_withdraw_resolves_by_used_amount() {
    let mut c = contract();
    let alice = acc("alice.near");
    // all of it was transferred
    let (used, ev) = c.ft_resolve_withdraw_used(acc("usdc.near"), alice.clone(), 10, 10);
    assert_eq!(used, 10);
    assert!(ev.unwrap().is_none());
    assert_eq!(c.balance_of(&alice, &ft("usdc.near")), 0);
    // the receiver kept 4 of 10: 6 come back
    let (used, ev) = c.ft_resolve_withdraw_used(acc("usdc.near"), alice.clone(), 10, 4);
    assert_eq!(used, 4);
    assert_eq!(ev.unwrap().unwrap().amounts, vec![6]);
    assert_eq!(c.balance_of(&alice, &ft("usdc.near")), 6);
    // a report above the amount counts as the amount
    let (used, _) = c.ft_resolve_withdraw_used(acc("usdc.near"), alice.clone(), 3, 7);
    assert_eq!(used, 3);
    assert_eq!(c.balance_of(&alice, &ft("usdc.near")), 6);
}

#[test]
fn empty_batch_finalizes() {
    let mut c = contract();
    assert_eq!(RuntimeState::new().finalize(&mut c), Ok(()));
}

#[test]
fn simulation_runs_a_batch_on_a_copy() {
    let k = key(9);
    let signer = k.to_implicit_account_id();
    let here = acc("intents.near");
    // an unmatched token diff leaves its supply change unmatched
    let mut c = contract();
    c.deposit(signer.clone(), vec![(ft("usdc.near"), 10)], None).unwrap();
    let d = TokenDiff { diff: vec![(ft("usdc.near"), -4)] };
    let out = c.simulate_intents(&here, vec![signed(&k, &signer, 7, vec![Intent::TokenDiff(d)])]).unwrap();
    assert_eq!(out.min_deadline, 1_007);
    assert_eq!(out.intents_executed.len(), 1);
    assert_eq!(out.intents_executed[0].account_id.as_str(), signer.as_str());
    assert_eq!(out.intents_executed[0].hash, [7 ^ 0x5a; 32]);
    let unmatched = out.unmatched_deltas.unwrap();
    assert_eq!(unmatched.len(), 1);
    // the signer's -4 plus the collector's fee of 1 (0.1% of 4, rounded up)
    assert_eq!(unmatched[0].1, -3);
    // a balanced batch reports nothing unmatched
    let mut c2 = contract();
    c2.deposit(signer.clone(), vec![(ft("usdc.near"), 10)], None).unwrap();
    let t = MtBatchTransfer { receiver_id: acc("bob.near"), token_ids: vec![ft("usdc.near")], amounts: vec![4], memo: None };
    let out2 = c2
        .simulate_intents(
            &here,
            vec![signed(&k, &signer, 1, vec![Intent::MtBatchTransfer(t)]), signed(&k, &signer, 2, vec![])],
        )
        .unwrap();
    assert!(out2.unmatched_deltas.is_none());
    assert_eq!(out2.min_deadline, 1_001);
    assert_eq!(out2.intents_executed.len(), 2);
    // a refused request fails the simulation
    let c3 = contract();
    let mut bad = signed(&k, &signer, 1, vec![]);
    bad.public_key = None;
    assert_eq!(c3.simulate_intents(&here, vec![bad]).unwrap_err(), DefuseError::InvalidSignature);
}

#[test]
fn answers_of_awaited_calls() {
    assert!(transferred_of(Some(vec![])));
    assert!(!transferred_of(Some(b"1".to_vec())));
    assert!(!transferred_of(None));
    assert_eq!(receiver_refunds_of(Some(b"[\"1\",\"20\"]".to_vec())), Some(vec![1, 20]));
    assert_eq!(receiver_refunds_of(Some(b"[1]".to_vec())), None);
    assert_eq!(receiver_refunds_of(Some(b"oops".to_vec())), None);
    assert_eq!(receiver_refunds_of(None), None);
}

#[test]
fn transfer_moves_per_token_sums() {
    let mut c = contract();
    let alice = acc("alice.near");
    let bob = acc("bob.near");
    c.deposit(alice.clone(), vec![(ft("usdc.near"), 10), (ft("dai.near"), 5)], None).unwrap();
    let ids = vec!["nep141:usdc.near".to_string(), "nep141:dai.near".to_string(), "nep141:usdc.near".to_string()];
    c.internal_mt_batch_transfer(&alice, bob.clone(), ids, vec![3, 5, 4], None).unwrap();
    assert_eq!(c.balance_of(&alice, &ft("usdc.near")), 3);
    assert_eq!(c.balance_of(&bob, &ft("usdc.near")), 7);
    assert_eq!(c.balance_of(&alice, &ft("dai.near")), 0);
    assert_eq!(c.balance_of(&bob, &ft("dai.near")), 5);
}
