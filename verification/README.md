# drmkit

A layered Linux DRM/KMS display library, verified with Verus: what a scene of
layers puts on which plane, when a buffer may go back to whoever produced it,
what reaches the kernel in an atomic request, and what a device is measured by.

The library only computes. Descriptors are numbers, buffers are bytes, and the
answers of the kernel, of a seat or of a plane allocator are arguments. What
makes those calls stands around it.

## Layout

`src/` is the library, every item of it verified.

| Modules | What they decide |
|---|---|
| `scene`, `draft`, `plan`, `finalize` | a frame's way from its sources to the kernel and back |
| `frame`, `release`, `report` | what a commit does to the buffers in flight, and what is said of it |
| `lower`, `planes`, `display`, `commit` | plane properties, and the requests that write them |
| `canvas`, `compose` | software composition of premultiplied pixels, and the layers that need it |
| `signaling` | the colorspace and HDR metadata a frame asks its connector for |
| `source`, `presenter`, `ring`, `pool`, `cache`, `external`, `dumb`, `cursor` | where a layer's buffers come from |
| `sync`, `time`, `errno`, `fourcc` | fences, timestamps and the numbers the rest speaks in |
| `session`, `seat` | devices held across VT switches |
| `json`, `probe` | a device's profile |
| `dump`, `rules`, `survey`, `corpus` | a corpus of device dumps held to rules |
| `scenario`, `skip` | scripts that drive a scene, and cases that asserted nothing |
| `order`, `text`, `path` | lists in order, counts by label, text, and paths |

Each contract says what a function returns or changes; what holds across several
functions is stated by the public proof functions named `law_*`. A few calls into
other crates and into the standard library are trusted: they carry
`external_body` or `assume_specification` and say what is believed of them.

`tests/` runs the compiled library. `app/` holds what reaches the system: card
nodes, buffers, fences that own their descriptor, sources that wait for them, a
libseat session, and the
programs that measure devices, check a corpus and run scripts.
