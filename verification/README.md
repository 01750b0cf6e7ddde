# decimus

Decimal floating-point arithmetic on the IEEE 754-2008 decimal128 format in
its binary integer decimal (BID) encoding, written in Verus: every function
carries a contract and Verus proves the code against it.

## What is proved

- `rounding.rs` states correct rounding once, as `round_bid`: the result of
  rounding an exact value `n / d * 10^e` in any of the five rounding modes,
  with its status flags. Addition, multiplication, fused multiply-add
  and division are proved to return exactly that rounding of their exact
  mathematical result (with the tininess rules stated in `fma.rs` and
  `internal.rs` where the operations differ).
- `model.rs` reads an encoding as sign, coefficient and exponent;
  `to_string.rs` and `from_string.rs` state the text formats byte by byte.
  Conversion from strings is proved to follow the reading procedure that
  `from_string_result` spells out: up to 34 significant digits are packed
  exactly (packing treats exponents out of range as
  `get_bid128_result` states), while for longer numbers the first 34 digits are rounded by the
  rule `long_carry` states before packing. That rule is not proved to
  agree with `round_bid`. `bid128_bytes_readable` and
  `bid128_string_readable` tell at run time whether a text lies in the
  reader's domain.
- `laws.rs`, `round_trip.rs` and `decimal_data.rs` prove properties of the operations as a
  whole: commutativity of addition and multiplication, identities for
  zero and one, `x - x` and `x / x`, symmetry of rounding under a change
  of sign, and that the string form of a value reads back as the same
  value, and that each scaled reciprocal of a power of ten is rounded up.

## Layout

| module | contents |
| --- | --- |
| `math`, `bignum` | powers of ten, digit counts, arbitrary-precision naturals |
| `types`, `consts`, `model` | the word types, encoding masks, the value model |
| `rounding`, `finish` | correct rounding as a specification, and its executable form |
| `add`, `fma`, `fma_parts`, `div`, `div_parts`, `internal` | the arithmetic operations |
| `round`, `decimal_data` | rounding of wide coefficients, constant tables |
| `from_int`, `noncomp`, `unpack` | conversions and classification |
| `hex_text` | the words of the integer types as hexadecimal text |
| `to_string`, `from_string`, `round_trip` | the text formats |
| `laws` | laws of the operations |

The tests under `tests/` run the compiled library on concrete values.
