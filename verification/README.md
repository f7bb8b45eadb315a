# mlrust

A small machine learning toolkit: tensors with reverse-mode differentiation,
dense, convolutional and pooling layers, SGD, a training loop over MNIST, and
transformer building blocks.

The crate is split in two:

- `src/` is the verified library. It holds the integer and layout logic:
  shapes and their sizes, row-major arrays, the patch layout of convolution
  (`im2col`, and `col2im_targets` for its backward pass) with the law that
  folding by summing is the adjoint of unfolding, max pooling by ranked keys
  and the routing of its gradient to the kept cell,
  the depth-first order of the backward pass, IDX file decoding and batching,
  and the text of every error.
- `app/` is the command line program around it: floating point kernels,
  gradients, the optimiser, file and network I/O, serialisation and argument
  parsing.

Verus proves the contracts of the library's functions; its two calls into
outside crates (`byteorder` for big-endian integers, `flate2` for gzip) stand
behind trusted wrappers in `src/mnist.rs`. The tests under `tests/` run the
compiled library on concrete values.
