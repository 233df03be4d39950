# defuse

The accounting core of the Defuse intents contract on NEAR, written in
Verus: every operation on balances, keys, nonces and total supplies carries
a contract over a value model of the contract's state, and Verus proves the
code against it.

## Layout

- `src/` — the verified library.
  - `account_id`, `token_id`, `crypto`: NEAR account ids, the string form
    of token ids, public keys and the implicit accounts they control.
  - `map`, `amounts`, `nonces`: an insertion-ordered map, token balances
    without zero entries, and the bitmap of used nonces.
  - `account`, `accounts`: keys, nonces and balances of one account, and
    all accounts with their totals per token.
  - `contract`: the contract's state; deposits, withdrawals, transfers,
    the resolution of transfer calls, key and nonce management.
  - `withdraw`, `deposit`, `multi_token`, `gas`: the NEP-141/171/245 faces
    of the contract and the plans of the calls that follow them.
  - `calls`: those calls as values (target, method and arguments, deposit,
    gas), which the glue only turns into promises.
  - `intents`, `runtime`: executing signed intents in a batch, postponed
    deposits and the check that supply changes cancel out at its end.
  - `transfer_log`: matching token deltas into transfers.
  - `replay`: every operation keeps the nonces used before it.
- `tests/` — tests of the library on concrete values.
- `app/` — NEAR glue: parsing deposit messages and signed requests,
  checking signatures, reading promise results, logging events and building
  the promises that the library's plans name.

## Properties proved

Among others: the total supply of every token equals what the accounts hold
of it after every deposit, withdrawal and transfer; a batch of intents that
finalizes leaves it so again, and finalizing delivers every postponed
deposit exactly when every balance has room for it; a signed request that
ran is refused again, whatever operations ran after it (each keeps the
nonces used before); an added key
signs and a removed one does not; token ids and implicit account ids
round-trip through their string forms; withdrawing what a deposit credited
undoes it, and so does refunding what a withdrawal debited; resolving a
transfer call moves back, per token, exactly what it refunds; finalizing
the transfer logger succeeds exactly when every token's losses and gains
add up to the same, and then every account whose balance fell sends
exactly that amount and every account whose balance rose receives exactly
that amount; a logger is fixed by the net changes it records; invalidating
nonces marks all of them or, where one was used or repeats, none.
