//! Tokens arriving from other contracts: the message that says whom they
//! are for and what to do next, and the credit that follows.

use vstd::prelude::*;

use crate::account_id::{AccountId, ParseAccountError};
use crate::contract::{deposit_outcome, err_of, mint_event_matches, tokens_view, Contract};
use crate::errors::DefuseError;
use crate::events::{deposit_memo, MtMintEvent};
use crate::token_id::{TokenId, TokenStandard};
use crate::withdraw::{mt_tokens, nep141};

verus! {

/// Whom deposited tokens are for, and the signed intents to execute after
/// the deposit (each a payload in its JSON form).
#[derive(Debug)]
pub struct DepositMessage {
    pub receiver_id: AccountId,
    pub execute_intents: Vec<String>,
    /// Execute the intents within the deposit, so that the deposit is
    /// refunded where they fail.
    pub refund_if_fails: bool,
}

/// Why a message is no deposit message.
#[derive(PartialEq, Eq, Structural, Clone, Copy, Debug)]
pub enum ParseDepositMessageError {
    /// The plain form is no account id.
    Account(ParseAccountError),
    /// The JSON form does not parse.
    Json,
}

/// What follows a deposit.
#[derive(Debug)]
pub enum AfterDeposit {
    /// Nothing.
    Nothing,
    /// Execute these intents now; where they fail, the deposit fails too.
    ExecuteIntents(Vec<String>),
    /// Schedule these intents as a call of their own.
    ScheduleIntents(Vec<String>),
}

/// The memo of deposits, as a value.
pub open spec fn deposit_memo_view() -> Option<Seq<char>> {
    Some(seq!['d', 'e', 'p', 'o', 's', 'i', 't'])
}

/// The strings of `s`, as values.
pub open spec fn intents_view(s: Seq<String>) -> Seq<Seq<char>> {
    s.map_values(|x: String| x@)
}

/// What follows a deposit with the message `m`, as a value: nothing, or the
/// intents and whether they run within the deposit.
pub open spec fn spec_after_deposit(m: DepositMessage) -> Option<(Seq<Seq<char>>, bool)> {
    if m.execute_intents@.len() == 0 {
        None
    } else {
        Some((intents_view(m.execute_intents@), m.refund_if_fails))
    }
}

/// `a` as a value, in the form of `spec_after_deposit`.
pub open spec fn after_deposit_view(a: AfterDeposit) -> Option<(Seq<Seq<char>>, bool)> {
    match a {
        AfterDeposit::Nothing => None,
        AfterDeposit::ExecuteIntents(v) => Some((intents_view(v@), true)),
        AfterDeposit::ScheduleIntents(v) => Some((intents_view(v@), false)),
    }
}

/// The receiver of a deposit: the message's, or the sender where the
/// message is empty.
pub open spec fn deposit_receiver(sender: AccountId, msg: Option<DepositMessage>) -> AccountId {
    match msg {
        Some(m) => m.receiver_id,
        None => sender,
    }
}

impl DepositMessage {
    /// A deposit for `receiver_id` with nothing to follow.
    pub fn new(receiver_id: AccountId) -> (m: Self)
        ensures
            m.receiver_id@ == receiver_id@,
            m.execute_intents@.len() == 0,
            !m.refund_if_fails,
    {
        DepositMessage { receiver_id, execute_intents: Vec::new(), refund_if_fails: false }
    }

    /// The same message with `intents` appended to those to execute.
    pub fn with_execute_intents(self, intents: Vec<String>) -> (m: Self)
        ensures
            m.receiver_id@ == self.receiver_id@,
            intents_view(m.execute_intents@) == intents_view(self.execute_intents@) + intents_view(intents@),
            m.refund_if_fails == self.refund_if_fails,
    {
        let mut m = self;
        let mut intents = intents;
        let ghost before = m.execute_intents@;
        let ghost added = intents@;
        m.execute_intents.append(&mut intents);
        proof {
            assert(intents_view(m.execute_intents@) =~= intents_view(before) + intents_view(added));
        }
        m
    }

    /// The same message, with the intents executed within the deposit.
    pub fn with_refund_if_fails(self) -> (m: Self)
        ensures
            m.receiver_id@ == self.receiver_id@,
            m.execute_intents@ == self.execute_intents@,
            m.refund_if_fails,
    {
        let mut m = self;
        m.refund_if_fails = true;
        m
    }

    /// Parses the plain form of a message: an account id alone.
    pub fn from_account_str(s: &str) -> (r: Result<Self, ParseDepositMessageError>)
        ensures
            (r is Ok) <==> crate::account_id::is_valid_account_id(s@),
            r matches Ok(m) ==> m.receiver_id@ == s@ && m.receiver_id.valid() && m.execute_intents@.len() == 0
                && !m.refund_if_fails,
            r matches Err(e) ==> e is Account,
    {
        match AccountId::parse(s) {
            Ok(a) => Ok(DepositMessage::new(a)),
            Err(e) => Err(ParseDepositMessageError::Account(e)),
        }
    }

    /// The plain form of the message, where it has one: the receiver alone,
    /// when there are no intents to execute.
    pub fn plain_form(&self) -> (s: Option<&str>)
        ensures
            (s is Some) <==> self.execute_intents@.len() == 0,
            s matches Some(x) ==> x@ == self.receiver_id@,
    {
        if self.execute_intents.len() == 0 {
            Some(self.receiver_id.as_str())
        } else {
            None
        }
    }

    /// What follows the deposit.
    pub fn after_deposit(self) -> (a: AfterDeposit)
        ensures
            after_deposit_view(a) == spec_after_deposit(self),
    {
        if self.execute_intents.len() == 0 {
            AfterDeposit::Nothing
        } else if self.refund_if_fails {
            AfterDeposit::ExecuteIntents(self.execute_intents)
        } else {
            AfterDeposit::ScheduleIntents(self.execute_intents)
        }
    }
}

/// A message with nothing to execute reads back from its plain form: that
/// form is its receiver's id, which `from_account_str` accepts, giving a
/// message with the same receiver, no intents and no refund flag.
pub proof fn lemma_plain_form_reads_back(m: DepositMessage)
    requires
        m.receiver_id.valid(),
        m.execute_intents@.len() == 0,
        !m.refund_if_fails,
    ensures
        crate::account_id::is_valid_account_id(m.receiver_id@),
        spec_after_deposit(m) is None,
{
}

/// The receiver of a deposit, and what follows it.
fn split_message(sender_id: AccountId, msg: Option<DepositMessage>) -> (r: (AccountId, AfterDeposit))
    ensures
        r.0@ == deposit_receiver(sender_id, msg)@,
        after_deposit_view(r.1) == match msg {
            Some(m) => spec_after_deposit(m),
            None => None,
        },
{
    match msg {
        Some(m) => {
            let DepositMessage { receiver_id, execute_intents, refund_if_fails } = m;
            let rest = DepositMessage { receiver_id: receiver_id.clone(), execute_intents, refund_if_fails };
            (receiver_id, rest.after_deposit())
        },
        None => (sender_id, AfterDeposit::Nothing),
    }
}

impl Contract {
    /// Credits `amount` of the NEP-141 token `token` that `sender_id` sent,
    /// to the receiver that `msg` names (`None`: an empty message, for the
    /// sender). On success gives the mint event and what follows; nothing
    /// of the transfer is to be returned to the token contract.
    pub fn ft_on_transfer(&mut self, token: AccountId, sender_id: AccountId, amount: u128, msg: Option<DepositMessage>)
        -> (r: Result<(MtMintEvent, AfterDeposit), DefuseError>)
        requires
            old(self).wf(),
            amount > 0,
            deposit_receiver(sender_id, msg).valid(),
        ensures
            final(self).wf(),
            crate::replay::nonces_kept(old(self)@, final(self)@),
            deposit_outcome(old(self)@, deposit_receiver(sender_id, msg)@, seq![(nep141(token@), amount)],
                final(self)@, err_of(r)),
            r matches Ok(x) ==> after_deposit_view(x.1) == match msg {
                Some(m) => spec_after_deposit(m),
                None => None,
            },
            r matches Ok(x) ==> mint_event_matches(x.0, deposit_receiver(sender_id, msg)@, seq![(nep141(token@), amount)],
                deposit_memo_view()),
            old(self).supply_consistent() ==> final(self).supply_consistent(),
    {
        broadcast use crate::replay::group_nonces_kept;
        let (receiver_id, after) = split_message(sender_id, msg);
        let mut tokens: Vec<(TokenId, u128)> = Vec::new();
        tokens.push((TokenId::Nep141(token), amount));
        proof {
            assert(tokens_view(tokens@) =~= seq![(nep141(token@), amount)]);
        }
        let ev = self.deposit(receiver_id, tokens, Some(deposit_memo()))?;
        Ok((ev, after))
    }

    /// Credits the NEP-171 token `token_id` of `token` that `sender_id`
    /// sent, as `ft_on_transfer` does; the token is kept.
    pub fn nft_on_transfer(&mut self, token: AccountId, sender_id: AccountId, token_id: String, msg: Option<DepositMessage>)
        -> (r: Result<(MtMintEvent, AfterDeposit), DefuseError>)
        requires
            old(self).wf(),
            deposit_receiver(sender_id, msg).valid(),
        ensures
            final(self).wf(),
            crate::replay::nonces_kept(old(self)@, final(self)@),
            deposit_outcome(old(self)@, deposit_receiver(sender_id, msg)@,
                seq![((TokenStandard::Nep171, token@, token_id@), 1u128)], final(self)@, err_of(r)),
            r matches Ok(x) ==> after_deposit_view(x.1) == match msg {
                Some(m) => spec_after_deposit(m),
                None => None,
            },
            r matches Ok(x) ==> mint_event_matches(x.0, deposit_receiver(sender_id, msg)@,
                seq![((TokenStandard::Nep171, token@, token_id@), 1u128)], deposit_memo_view()),
            old(self).supply_consistent() ==> final(self).supply_consistent(),
    {
        broadcast use crate::replay::group_nonces_kept;
        let (receiver_id, after) = split_message(sender_id, msg);
        let mut tokens: Vec<(TokenId, u128)> = Vec::new();
        let ghost tid = token_id@;
        tokens.push((TokenId::Nep171(token, token_id), 1));
        proof {
            assert(tokens_view(tokens@) =~= seq![((TokenStandard::Nep171, token@, tid), 1u128)]);
        }
        let ev = self.deposit(receiver_id, tokens, Some(deposit_memo()))?;
        Ok((ev, after))
    }

    /// Credits the NEP-245 tokens `token_ids` of `token` that `sender_id`
    /// sent, as `ft_on_transfer` does. On success also gives the amounts to
    /// return to the token contract: none of any token.
    pub fn mt_on_transfer(
        &mut self,
        token: AccountId,
        sender_id: AccountId,
        token_ids: Vec<String>,
        amounts: Vec<u128>,
        msg: Option<DepositMessage>,
    ) -> (r: Result<(MtMintEvent, AfterDeposit, Vec<u128>), DefuseError>)
        requires
            old(self).wf(),
            token_ids@.len() == amounts@.len(),
            amounts@.len() > 0,
            deposit_receiver(sender_id, msg).valid(),
        ensures
            final(self).wf(),
            crate::replay::nonces_kept(old(self)@, final(self)@),
            deposit_outcome(old(self)@, deposit_receiver(sender_id, msg)@, mt_tokens(token@, token_ids@, amounts@),
                final(self)@, err_of(r)),
            r matches Ok(x) ==> after_deposit_view(x.1) == match msg {
                Some(m) => spec_after_deposit(m),
                None => None,
            } && x.2@ == Seq::new(amounts@.len(), |i: int| 0u128)
                && mint_event_matches(x.0, deposit_receiver(sender_id, msg)@, mt_tokens(token@, token_ids@, amounts@), deposit_memo_view()),
            old(self).supply_consistent() ==> final(self).supply_consistent(),
    {
        broadcast use crate::replay::group_nonces_kept;
        let (receiver_id, after) = split_message(sender_id, msg);
        let n = amounts.len();
        let mut tokens: Vec<(TokenId, u128)> = Vec::new();
        let mut refunds: Vec<u128> = Vec::new();
        let mut i: usize = 0;
        while i < n
            invariant
                n == token_ids@.len(),
                n == amounts@.len(),
                i <= n,
                tokens_view(tokens@) == mt_tokens(token@, token_ids@, amounts@).take(i as int),
                refunds@ == Seq::new(i as nat, |j: int| 0u128),
            decreases n - i,
        {
            let ghost before = tokens@;
            tokens.push((TokenId::Nep245(token.clone(), token_ids[i].clone()), amounts[i]));
            refunds.push(0);
            proof {
                assert(tokens_view(tokens@) =~= tokens_view(before).push(mt_tokens(token@, token_ids@, amounts@)[i as int]));
                assert(mt_tokens(token@, token_ids@, amounts@).take(i + 1)
                    =~= mt_tokens(token@, token_ids@, amounts@).take(i as int).push(mt_tokens(token@, token_ids@, amounts@)[i as int]));
                assert(refunds@ =~= Seq::new((i + 1) as nat, |j: int| 0u128));
            }
            i = i + 1;
        }
        proof {
            assert(mt_tokens(token@, token_ids@, amounts@).take(n as int) =~= mt_tokens(token@, token_ids@, amounts@));
        }
        let ev = self.deposit(receiver_id, tokens, Some(deposit_memo()))?;
        Ok((ev, after, refunds))
    }
}

} // verus!
