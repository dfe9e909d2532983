# Quorum credit

The rules of a lending contract in which a borrower's loan is backed by the stakes of
those who vouch for them, verified with Verus.

- `src/` is the library. `rules.rs` says what each call answers and changes, over the
  views of the stored records; `contract.rs` holds the calls and proves them to do just
  that; `laws.rs` states what holds of the contract as a whole, and `history.rs` what
  holds over a run of calls. `money.rs` has the shares, totals and slashes, `ledger.rs`
  the stored entries, `env.rs` what a call sees of its host and asks of it, `types.rs`
  the records and `table.rs` the map under the stored entries.
- `tests/` runs the library.
- `app/` is the contract on Soroban: it reads and stores the entries, makes the host's
  checks and carries out what the library says is due. Vouching itself is part of the
  platform that a deployment brings along.

A call never acts by itself. It changes the ledger it is given and appends the
authorisations, transfers and events that are due to an outbox, in order.
