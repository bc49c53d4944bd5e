# perlin-noise

A seeded Perlin noise field in any number of dimensions, with a renderer that
turns it into an image: greyscale, through a colour ramp, as three slices of a
3D field, as a lit height map, as a sphere carved out of four dimensions, or
as a coat of hair combed by the field.

## Layout

- `src/` is the library, verified with Verus. It holds everything the field
  decides in whole numbers:
  - `rng`: the SplitMix64 generator the gradients are drawn from, the fact
    that its stream depends on nothing but the seed, and that its first 2^64
    draws are all different;
  - `layout`: products, strides and row-major positions, with the proofs that
    the stride sum and the Horner form agree and that decoding a position
    gives its index back;
  - `lattice`: the lattice a `dims` list describes, where each gradient sits,
    the refined lattice of a table and the cell and step of each of its
    points;
  - `render`: the checks every rendering mode makes before it samples;
  - `image`: the pixel buffer, the palettes' colour stops and the height
    shapes;
  - `split`: how tables, pixels, rows and shader runs are cut into pieces,
    each cut a tiling;
  - `gpu`: the words the compute shader is told, the bytes they are
    uploaded as (four per word, in the machine's byte order), and how a run
    is dispatched.
- `app/` is ordinary Rust around the library: the gradients and the noise
  itself, which are floating point, the lighting, the hair simulation, the
  threads, the GPU run, PNG output and the Python module.
- `tests/` exercises the library.
