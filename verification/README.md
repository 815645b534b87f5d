# burn_autogaze

Sparse gaze decoding for video, with machine-checked contracts.

A gaze model looks at a clip and names, frame by frame, the cells of a few grids that matter. The
model itself is a neural network; what surrounds it is arithmetic, bookkeeping and rules, and that is
what this library holds. Every function says what it computes, and [Verus](https://github.com/verus-lang/verus)
checks that it does.

## Layout

| place | what it holds |
|---|---|
| `src/` | the verified library |
| `tests/` | its tests, run on the compiled library |
| `app/` | the network, its loading and the nodes around it, on [Burn](https://burn.dev) tensors |

### The library

| modules | subject |
|---|---|
| `rounding`, `format`, `ieee`, `root`, `text`, `arith` | numbers: binary floating point to the bit, decimal text, whole numbers |
| `config`, `layout`, `coverage`, `selection` | scales and their tokens, when enough is seen, which tokens are taken |
| `device`, `device_select` | the same decisions for steps that stay on a device until a chunk is read back |
| `positions`, `streaming`, `decode`, `generation` | the sequence of a clip, its rolling window, its frames, and the run over them |
| `agreement`, `device_agreement`, `run_agreement`, `pace`, `decoder_agreement`, `budget` | laws of whole runs |
| `cache`, `rope` | what attention keeps, hides and how fast positions turn |
| `trace`, `generated` | fixations, and how generated tokens become them |
| `readout`, `projection`, `decoded` | which tokens of image and video grids fixations select |
| `tiles`, `stitch`, `tiled`, `order` | frames that are run tile by tile |
| `clip`, `frames`, `packet`, `plan`, `options` | clips of pixels, frame queues, packets and pipeline settings |
| `pyramid`, `patch_diff`, `metrics`, `runtime` | image pyramids, changes between frames, running averages, admission of frames |
| `error` | what can be wrong with an input, and its message |

Numbers with a fraction are `Binary32` and `Binary64`: the bits of the machine's `f32` and `f64`.
Callers convert with `to_bits` and `from_bits`, and lose nothing.

### How a clip is generated

`GenerationRun` decides and the caller computes. `next_step` says what to do: put the embeddings of a
frame behind what waits to be read, run the decoder, read a chunk back, or end the frame. What came of
it is handed back with `begin_frame`, `put_scores`, `put_device_step`, `put_chunk` or `end_frame`, and
`finish` gives the tokens of the clip and the window that the next clip goes on with.
`app/decoder.rs` drives such a run with tensors.

Tokens are selected on the host, or on the device with a readback per chunk of steps or per frame.
Run by one decoder that depends on nothing but what it reads, all three generate the same:
`decoder_agreement` states when, and proves it over whole streams.

### What is trusted

Two items are believed without proof. `clip` resizes frames with the `image` crate, whose result is
given a name and nothing more is said of it. `frames` asks a vector for its capacity, of which only is
used that it is at least the length.

The exponentials of scores, the powers of the rotary base and all arithmetic on tensors are computed
in `app/`.
