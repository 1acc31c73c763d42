# turboquant

Data-oblivious vector quantization, verified with Verus.

Vectors are normalized, rotated by a random orthogonal matrix, quantized coordinate by coordinate
with a Lloyd-Max codebook, and packed into `ceil(d × b / 8)` bytes. Distances from a query to
stored codes are estimated in rotated space.

- `src/` is the library. Every function has a contract that Verus proves. Numbers are held as bit
  patterns, and their arithmetic is handed in as functions: the contracts say which function is
  called on which numbers, and hold whatever it returns.
- `app/` joins the library to floating-point arithmetic, Arrow arrays, JSON, protobuf and files.
- `tests/` runs the library with floating-point and with whole-number arithmetic.

What holds of several functions together is stated in public proof functions whose names start
with `law_`, among them:

- Unpacking undoes packing, so that a code restores the nearest centroids.
- By a codebook, every value is restored as the nearest centroid, up to a millionth.
- The code of a vector whose norm is not tiny depends on its direction alone.
- The codebook follows from the dimension and the bit-width, and the rotation from the dimension
  and the seed, where the functions that are handed in give one result only.
- Lloyd's iteration gives ascending codebooks between -1 and 1, with each centroid in its own cell,
  with arithmetic that respects the order of numbers, as exact arithmetic does. Whatever was requested before, a request for a
  codebook is answered with one that was computed for its parameters.
- With exact arithmetic, the decomposition of a matrix gives an orthogonal factor and a triangular
  one whose product is the matrix, and the random matrix made from it is orthogonal.
- With exact arithmetic and an orthogonal matrix, rotating back undoes rotating, rotating undoes
  rotating back, and rotating keeps dot products.
- Appending keeps IDs and distances.
- A matrix that is written can be read, where reading gives back the tensors that were written.

In floating point, laws on exact arithmetic hold up to rounding only.
