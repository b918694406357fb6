# bridgman_core

Exact dimensional analysis and quantity-kind arithmetic, verified with Verus.

- A `Catalog` declares kinds, units and operation rows as data.
  `Registry::compile` checks it and hands out `Kind` and `Unit` handles;
  `Kind::combine` decides which kind an operation on two quantities gives,
  and `Kind::convert_exact` converts exact values between units of a kind.
- `Dimensions` are maps from dimension identifiers to rational exponents,
  with a canonical signature text that parses back to the same value.
- `ExactScalar` and `ExactValue` are rationals times powers of pi.
- `pi_groups_exact` and `count_pi_groups_exact` find an integer basis of the
  dimensionless products of named quantities (Buckingham Pi).
- `integer_dims` is dimension arithmetic over insertion-ordered maps with
  integer exponents.

## Layout

- `src/` is the verified library. Each public function states its result in
  `ensures` over spec models; the `law_*` proof functions state properties
  that span several functions (round trips of texts and conversions, that
  compiled references are terminal, that the pi groups span and are
  independent, the group count as the number of quantities less the rank).
- Calls into `num-bigint`, `num-rational` and `indexmap` go through small
  trusted wrappers in `bignum.rs` and `integer_dims.rs`, each with a doc
  comment saying what it claims of the outside function.
- `tests/` runs the library on concrete values.
- `app/` holds what is not verified: YAML and JSON reading, the quantity
  arithmetic on `f64` values, and copies of library types with serde derives.
