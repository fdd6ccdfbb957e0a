# ragu

Polynomial arithmetic, commitments and proof construction over the Pasta cycle of
curves, written in Rust and verified with Verus.

- `src/` is the library. Every function states what it computes, and Verus proves it.
  - `modular`, `sums`, `poly`, `product`, `layout`: the mathematics that contracts speak of.
  - `field`, `fp`, `fq`, `curve`, `pallas`, `vesta`: fields and curves. The arithmetic is
    that of the `pasta_curves` crate, behind functions whose contracts are trusted.
  - `util`, `domain`, `msm`: dense polynomials, Fourier transforms, multiscalar
    multiplication.
  - `rank`, `sparse`: polynomials that store blocks of coefficients.
  - `accel`: multiplications that are offered to an accelerator.
  - `cycle`, `builder`, `pcd`, `quotients`, `fuse`: generators, and the construction of a
    proof from two others.
  - `laws`: what holds of several operations together.
- `tests/` runs the library on concrete values.
- `app/` is ordinary Rust around the library: settings from the environment, counters of
  the process, and the loop that runs a fusion.
