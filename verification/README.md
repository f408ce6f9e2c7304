# maze_mining

Reward accounting for a liquidity-mining contract, verified with Verus.

- `src/` is the verified library:
  - `digits`: natural numbers as big-endian base-256 digit sequences, with
    schoolbook addition, subtraction, multiplication and long division;
  - `u256`: 256-bit unsigned integers over those digits, with checked
    arithmetic, comparison, and the overflow checks made after wrapping
    host arithmetic; `decimal`: decimal text and parsing;
  - `utils`, `constants`: ray (10^27) fixed-point arithmetic, the sine
    series, the reserve ratio (`calculate_svrb`), the funding ratio
    (`calculate_forb`) and the per-pool mining shares (`calculate_share`);
  - `types`: pool inputs, parameters and results;
  - `address`, `context`, `db`, `persist`, `contract`: the contract's storage
    and entry points as steps on a `Contract` value, given the call's `Msg`;
  - `laws`: properties across operations.
- `app/` is the host layer: the exported entry points, the memory interface
  of the host, the host's context, log and database calls (the contract's
  storage is kept there as a snapshot between calls), and the RLP encodings.
- `tests/` runs the library on concrete values.
