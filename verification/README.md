# poly

Polynomials over prime fields, written and verified in Verus: arithmetic, Lagrange interpolation,
division, and number-theoretic transforms of radix two and three.

A polynomial is a list of coefficients in ascending degree order. Its view is the sequence of the
residues that the coefficients stand for, and every contract is stated over such sequences.

- `polynomial`, `operators`, `multiply`, `interpolation`, `division`, `two_adic` and `three_adic`
  hold the operations on `Polynomial`; `fft` and `digits` hold the transforms and what they need.
- `field` describes the prime fields that the operations are generic over, and `bluesky` is one,
  with the arithmetic of the `starkom-bluesky` crate. `certificate` proves that its order is prime
  and that its roots of unity have the orders that they should.
- `laws` and `domain_laws` state what holds of several operations together, such as that encoding
  and decoding undo each other.
- `modular`, `sums`, `algebra`, `products`, `roots`, `orders`, `transform`, `butterfly`,
  `convolution` and `domains` hold the mathematics that the proofs rest on.
