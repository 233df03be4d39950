use defuse::account_id::{AccountId, AccountType, ParseAccountError};
use defuse::contract::Contract;
use defuse::errors::DefuseError;
use defuse::fees::{FeesConfig, Pips};
use defuse::gas::{
    do_mt_withdraw_gas, mt_batch_transfer_gas, mt_resolve_transfer_gas, mt_resolve_withdraw_gas,
};
use defuse::token_id::{ParseTokenIdError, TokenId};
use defuse::transfer_log::{TransferLogger, Transfers};

fn acc(s: &str) -> AccountId {
    AccountId::parse(s).unwrap()
}

fn contract() -> Contract {
    let fees = FeesConfig { fee: Pips::from_pips(1_000).unwrap(), fee_collector: acc("fees.near") };
    Contract::new(acc("wrap.near"), fees)
}

fn ft(s: &str) -> TokenId {
    TokenId::Nep141(acc(s))
}

#[test]
fn test_deltas() {
    let _l = TransferLogger::default();
}

#[test]
fn account_id_parsing() {
    assert!(AccountId::parse("alice.near").is_ok());
    assert_eq!(AccountId::parse("a").unwrap_err(), ParseAccountError::TooShort);
    assert_eq!(AccountId::parse(&"a".repeat(65)).unwrap_err(), ParseAccountError::TooLong);
    assert!(AccountId::parse("Alice.near").is_err());
    assert!(AccountId::parse("alice..near").is_err());
    assert!(AccountId::parse(".alice").is_err());
}

#[test]
fn account_types() {
    assert_eq!(acc("alice.near").get_account_type(), AccountType::NamedAccount);
    assert_eq!(acc(&"a".repeat(64)).get_account_type(), AccountType::NearImplicitAccount);
    let eth = format!("0x{}", "b".repeat(40));
    assert_eq!(acc(&eth).get_account_type(), AccountType::EthImplicitAccount);
}

#[test]
fn token_id_round_trip() {
    let ids = ["nep141:wrap.near", "nep171:nft.near:token-1", "nep245:mt.near:a:b"];
    for s in ids {
        let t = TokenId::parse(s).unwrap();
        assert_eq!(t.to_string(), s);
    }
    let t = TokenId::parse("nep245:mt.near:a:b").unwrap();
    match t {
        TokenId::Nep245(c, id) => {
            assert_eq!(c.as_str(), "mt.near");
            assert_eq!(id, "a:b");
        },
        _ => panic!("wrong standard"),
    }
}

#[test]
fn token_id_errors() {
    assert_eq!(TokenId::parse("nep999:wrap.near").unwrap_err(), ParseTokenIdError::VariantNotFound);
    assert_eq!(TokenId::parse("wrap.near").unwrap_err(), ParseTokenIdError::VariantNotFound);
    assert_eq!(TokenId::parse("nep171:nft.near").unwrap_err(), ParseTokenIdError::VariantNotFound);
    assert!(matches!(TokenId::parse("nep141:Bad").unwrap_err(), ParseTokenIdError::AccountId(_)));
}

#[test]
fn fees_round_up_and_down() {
    let p = Pips::from_pips(1_000).unwrap();
    assert_eq!(p.fee(1_000_000), 1_000);
    assert_eq!(p.fee_ceil(1_000_000), 1_000);
    assert_eq!(p.fee(1), 0);
    assert_eq!(p.fee_ceil(1), 1);
    assert_eq!(p.fee_ceil(0), 0);
    let all = Pips::from_pips(1_000_000).unwrap();
    assert_eq!(all.fee_ceil(u128::MAX), u128::MAX);
    assert!(Pips::from_pips(1_000_001).is_none());
}

#[test]
fn gas_budgets() {
    let t: u64 = 1_000_000_000_000;
    assert_eq!(mt_resolve_transfer_gas(2), 7 * t);
    assert_eq!(mt_batch_transfer_gas(2), 16 * t);
    assert_eq!(mt_resolve_withdraw_gas(4), 7 * t);
    assert_eq!(do_mt_withdraw_gas(2), t + t + 10 * t + 16 * t);
    assert_eq!(mt_batch_transfer_gas(u64::MAX), u64::MAX);
}

#[test]
fn deposit_and_withdraw_keep_supply() {
    let mut c = contract();
    let alice = acc("alice.near");
    let usdc = ft("usdc.near");
    let ev = c.deposit(alice.clone(), vec![(usdc.clone(), 100)], Some("deposit".to_string())).unwrap();
    assert_eq!(ev.owner_id.as_str(), "alice.near");
    assert_eq!(ev.token_ids, vec!["nep141:usdc.near".to_string()]);
    assert_eq!(ev.amounts, vec![100]);
    assert_eq!(c.balance_of(&alice, &usdc), 100);
    assert_eq!(c.total_supply(&usdc), 100);
    c.withdraw(&alice, vec![(usdc.clone(), 30)], None).unwrap();
    assert_eq!(c.balance_of(&alice, &usdc), 70);
    assert_eq!(c.total_supply(&usdc), 70);
    let burns = c.flush_burns();
    assert_eq!(burns.len(), 1);
    assert_eq!(burns[0].amounts, vec![30]);
    assert!(c.flush_burns().is_empty());
}

#[test]
fn deposit_errors() {
    let mut c = contract();
    let alice = acc("alice.near");
    let usdc = ft("usdc.near");
    assert_eq!(c.deposit(alice.clone(), vec![(usdc.clone(), 0)], None).unwrap_err(), DefuseError::InvalidIntent);
    c.deposit(alice.clone(), vec![(usdc.clone(), u128::MAX)], None).unwrap();
    assert_eq!(c.deposit(alice.clone(), vec![(usdc.clone(), 1)], None).unwrap_err(), DefuseError::BalanceOverflow);
    assert_eq!(c.balance_of(&alice, &usdc), u128::MAX);
}

#[test]
fn withdraw_errors() {
    let mut c = contract();
    let alice = acc("alice.near");
    let usdc = ft("usdc.near");
    assert_eq!(c.withdraw(&alice, vec![(usdc.clone(), 1)], None).unwrap_err(), DefuseError::AccountNotFound);
    c.deposit(alice.clone(), vec![(usdc.clone(), 5)], None).unwrap();
    assert_eq!(c.withdraw(&alice, vec![(usdc.clone(), 6)], None).unwrap_err(), DefuseError::BalanceOverflow);
    assert_eq!(c.withdraw(&alice, vec![(usdc.clone(), 0)], None).unwrap_err(), DefuseError::InvalidIntent);
    assert_eq!(c.balance_of(&alice, &usdc), 5);
}

#[test]
fn batch_transfer_moves_balances() {
    let mut c = contract();
    let alice = acc("alice.near");
    let bob = acc("bob.near");
    let usdc = ft("usdc.near");
    c.deposit(alice.clone(), vec![(usdc.clone(), 100)], None).unwrap();
    let ev = c
        .internal_mt_batch_transfer(&alice, bob.clone(), vec!["nep141:usdc.near".to_string()], vec![40], None)
        .unwrap();
    assert_eq!(ev.old_owner_id.as_str(), "alice.near");
    assert_eq!(ev.new_owner_id.as_str(), "bob.near");
    assert_eq!(c.balance_of(&alice, &usdc), 60);
    assert_eq!(c.balance_of(&bob, &usdc), 40);
    assert_eq!(c.total_supply(&usdc), 100);
}

#[test]
fn batch_transfer_errors() {
    let mut c = contract();
    let alice = acc("alice.near");
    let bob = acc("bob.near");
    c.deposit(alice.clone(), vec![(ft("usdc.near"), 10)], None).unwrap();
    let ids = vec!["nep141:usdc.near".to_string()];
    assert_eq!(
        c.internal_mt_batch_transfer(&alice, alice.clone(), ids.clone(), vec![1], None).unwrap_err(),
        DefuseError::InvalidIntent
    );
    assert_eq!(c.internal_mt_batch_transfer(&alice, bob.clone(), ids.clone(), vec![], None).unwrap_err(), DefuseError::InvalidIntent);
    assert_eq!(c.internal_mt_batch_transfer(&alice, bob.clone(), ids.clone(), vec![0], None).unwrap_err(), DefuseError::InvalidIntent);
    assert_eq!(c.internal_mt_batch_transfer(&alice, bob.clone(), ids.clone(), vec![11], None).unwrap_err(), DefuseError::BalanceOverflow);
    assert_eq!(c.internal_mt_batch_transfer(&bob, alice.clone(), ids.clone(), vec![1], None).unwrap_err(), DefuseError::AccountNotFound);
    assert_eq!(
        c.internal_mt_batch_transfer(&alice, bob.clone(), vec!["usdc".to_string()], vec![1], None).unwrap_err(),
        DefuseError::ParseTokenId(ParseTokenIdError::VariantNotFound)
    );
}

#[test]
fn resolve_transfer_refunds_what_receiver_asks() {
    let mut c = contract();
    let alice = acc("alice.near");
    let bob = acc("bob.near");
    let usdc = ft("usdc.near");
    c.deposit(alice.clone(), vec![(usdc.clone(), 100)], None).unwrap();
    let ids = vec!["nep141:usdc.near".to_string()];
    c.internal_mt_batch_transfer(&alice, bob.clone(), ids.clone(), vec![50], None).unwrap();
    let (used, ev) = c.mt_resolve_transfer(vec![alice.clone()], bob.clone(), ids.clone(), vec![50], Some(vec![20]));
    assert_eq!(used, vec![30]);
    assert_eq!(ev.amounts, vec![20]);
    assert_eq!(ev.memo, Some("refund".to_string()));
    assert_eq!(c.balance_of(&alice, &usdc), 70);
    assert_eq!(c.balance_of(&bob, &usdc), 30);
}

#[test]
fn resolve_transfer_caps_refund() {
    let mut c = contract();
    let alice = acc("alice.near");
    let bob = acc("bob.near");
    let usdc = ft("usdc.near");
    c.deposit(alice.clone(), vec![(usdc.clone(), 100)], None).unwrap();
    let ids = vec!["nep141:usdc.near".to_string()];
    c.internal_mt_batch_transfer(&alice, bob.clone(), ids.clone(), vec![50], None).unwrap();
    c.internal_mt_batch_transfer(&bob, acc("carol.near"), ids.clone(), vec![45], None).unwrap();
    // a failed call refunds all, but bob only holds 5 by now
    let (used, ev) = c.mt_resolve_transfer(vec![alice.clone()], bob.clone(), ids.clone(), vec![50], None);
    assert_eq!(used, vec![45]);
    assert_eq!(ev.amounts, vec![5]);
    assert_eq!(c.balance_of(&alice, &usdc), 55);
    // a reply of the wrong length counts as asking for everything
    let (used2, _) = c.mt_resolve_transfer(vec![alice.clone()], bob.clone(), ids, vec![10], Some(vec![1, 2]));
    assert_eq!(used2, vec![10]);
}

#[test]
fn finalize_matches_deltas_into_transfers() {
    let mut l = TransferLogger::new();
    let a = ft("a.near");
    assert_eq!(l.add_delta(acc("x.near"), a.clone(), 10), Some(0));
    assert_eq!(l.add_delta(acc("y.near"), a.clone(), -20), Some(0));
    assert_eq!(l.add_delta(acc("z.near"), a.clone(), 10), Some(0));
    let events = l.finalize().unwrap().emit();
    // the account whose balance fell pays those whose balance rose
    assert_eq!(events.len(), 2);
    assert_eq!(events[0].old_owner_id.as_str(), "y.near");
    assert_eq!(events[0].new_owner_id.as_str(), "x.near");
    assert_eq!(events[0].amounts, vec![10]);
    assert_eq!(events[1].old_owner_id.as_str(), "y.near");
    assert_eq!(events[1].new_owner_id.as_str(), "z.near");
    assert_eq!(events[1].amounts, vec![10]);
    assert_eq!(events[1].token_ids, vec!["nep141:a.near".to_string()]);
}

#[test]
fn finalize_rejects_partly_matched_withdrawal() {
    let mut l = TransferLogger::default();
    l.add_delta(acc("x.near"), ft("ft.near"), 10);
    l.add_delta(acc("y.near"), ft("ft.near"), -15);
    assert_eq!(l.finalize().unwrap_err(), DefuseError::InvariantViolated);
}

#[test]
fn finalize_of_nothing_is_empty() {
    let l = TransferLogger::default();
    assert!(l.finalize().unwrap().emit().is_empty());
}

#[test]
fn finalize_splits_across_tokens_and_accounts() {
    let mut l = TransferLogger::new();
    let a = ft("a.near");
    let b = ft("b.near");
    l.add_delta(acc("x.near"), a.clone(), -7);
    l.add_delta(acc("y.near"), a.clone(), 3);
    l.add_delta(acc("z.near"), a.clone(), 4);
    l.add_delta(acc("y.near"), b.clone(), -5);
    l.add_delta(acc("x.near"), b.clone(), 5);
    let events = l.finalize().unwrap().emit();
    assert_eq!(events.len(), 3);
    assert_eq!((events[0].old_owner_id.as_str(), events[0].new_owner_id.as_str()), ("x.near", "y.near"));
    assert_eq!(events[0].amounts, vec![3]);
    assert_eq!((events[1].old_owner_id.as_str(), events[1].new_owner_id.as_str()), ("x.near", "z.near"));
    assert_eq!(events[1].amounts, vec![4]);
    assert_eq!((events[2].old_owner_id.as_str(), events[2].new_owner_id.as_str()), ("y.near", "x.near"));
    assert_eq!(events[2].token_ids, vec!["nep141:b.near".to_string()]);
    assert_eq!(events[2].amounts, vec![5]);
}

#[test]
fn finalize_rejects_unmatched() {
    let mut l = TransferLogger::new();
    l.add_delta(acc("x.near"), ft("a.near"), 10);
    assert_eq!(l.finalize().unwrap_err(), DefuseError::InvariantViolated);
    let mut l2 = TransferLogger::new();
    l2.add_delta(acc("x.near"), ft("a.near"), 10);
    l2.add_delta(acc("y.near"), ft("a.near"), -9);
    assert_eq!(l2.finalize().unwrap_err(), DefuseError::InvariantViolated);
    let mut l3 = TransferLogger::new();
    l3.add_delta(acc("y.near"), ft("a.near"), -9);
    assert_eq!(l3.finalize().unwrap_err(), DefuseError::InvariantViolated);
}

#[test]
fn opposite_deltas_of_one_owner_cancel() {
    let mut l = TransferLogger::new();
    l.add_delta(acc("x.near"), ft("a.near"), 10);
    l.add_delta(acc("x.near"), ft("a.near"), -10);
    assert!(l.finalize().unwrap().emit().is_empty());
}

#[test]
fn transfers_accumulate() {
    let mut t = Transfers::default();
    assert_eq!(t.transfer(acc("x.near"), acc("y.near"), ft("a.near"), 5), Some(5));
    assert_eq!(t.transfer(acc("x.near"), acc("y.near"), ft("a.near"), 7), Some(12));
    assert_eq!(t.transfer(acc("x.near"), acc("y.near"), ft("a.near"), u128::MAX), None);
    let events = t.emit();
    assert_eq!(events.len(), 1);
    assert_eq!(events[0].amounts, vec![12]);
    assert_eq!(events[0].memo, None);
}

#[test]
fn resolve_transfer_moves_per_token_sum_back() {
    let mut c = contract();
    let alice = acc("alice.near");
    let bob = acc("bob.near");
    let usdc = ft("usdc.near");
    c.deposit(alice.clone(), vec![(usdc.clone(), 100)], None).unwrap();
    let ids = vec!["nep141:usdc.near".to_string(), "nep141:usdc.near".to_string()];
    c.internal_mt_batch_transfer(&alice, bob.clone(), ids.clone(), vec![50, 20], None).unwrap();
    let (used, _) =
        c.mt_resolve_transfer(vec![alice.clone(), alice.clone()], bob.clone(), ids, vec![50, 20], Some(vec![10, 5]));
    assert_eq!(used, vec![40, 15]);
    assert_eq!(c.balance_of(&alice, &usdc), 45);
    assert_eq!(c.balance_of(&bob, &usdc), 55);
    assert_eq!(c.total_supply(&usdc), 100);
}

#[test]
fn deposit_message_plain_form_reads_back() {
    let m = defuse::deposit::DepositMessage::new(acc("bob.near"));
    let s = m.plain_form().unwrap().to_string();
    assert_eq!(s, "bob.near");
    let m2 = defuse::deposit::DepositMessage::from_account_str(&s).unwrap();
    assert_eq!(m2.receiver_id.as_str(), "bob.near");
    assert!(m2.execute_intents.is_empty());
    assert!(!m2.refund_if_fails);
    let with_intents = m2.with_execute_intents(vec!["{}".to_string()]);
    assert!(with_intents.plain_form().is_none());
}
