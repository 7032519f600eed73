# tranche

Verified ledger logic for a senior/junior tranche pool of a tokenised
real-world asset (a Soroban contract on Stellar).

- `src/account.rs`: ledger addresses as plain values and their order.
- `src/ledger.rs`: holdings kept sorted by address; lookup, assignment and
  pro-rata rescaling, with their proofs.
- `src/payout.rs`: the per-holder payout plan of a yield distribution.
- `src/tranche.rs`: the contract ledger, the model of every operation, and
  the verified operations that return the transfers and events to perform.
- `src/laws.rs`: properties of the library as a whole (invariant
  preservation, conservation, loss absorption order, payout bounds,
  per-holder payouts and their monotonicity).
- `src/runs.rs`: calls in sequence: the administrator never changes after
  initialization, and the pause flag is the last accepted `set_paused`.
- `app/lib.rs`: the Soroban contract: storage, authorization, token
  transfers and events around the library.

## The holdings collection

On chain the holdings of each tranche live in a Soroban `Map<Address, i128>`.
Such a map is a handle to an object of the Soroban host: it exists only
inside a live host environment, its keys are host addresses, and reading
or writing it is a host call. The library therefore keeps each tranche's
holdings as plain values, a `Vec<Holding>` kept strictly sorted by
`AccountId`. That order is the host's order of addresses (account
addresses before contract addresses, then the 32-byte payload), so
iterating the holdings visits holders in the order in which the host map
yields them. `app/lib.rs` converts between the two when it loads and
stores the ledger.

Every operation returns, besides the next ledger, the token transfers and
the events to carry out; initialization publishes an `init` event so that
every accepted action leaves an event.
