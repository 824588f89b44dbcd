# dab_rs

A DAB / T-DMB receiver whose decoding logic is verified with Verus.

- `src/` is the library: descrambling, the convolutional code with its Viterbi
  decoder and puncturing profiles, the T-DMB outer code, ETI frames, the fast
  information channel and the ensemble, the main service channel, and the integer
  side of OFDM synchronisation (carriers, frequency interleaving, frame places).
  Functions state in their contracts what they compute; proof functions named
  `law_..` state what holds across functions, such as that decoding undoes encoding.
- `app/` is the `dab` program: command line, files, and the floating-point signal
  processing in front of the library.
- `tests/` runs the library on concrete values.

The Reed-Solomon code comes from the `reed_solomon` crate; the contracts of the calls
into it are in `src/rs.rs`.
