# click-captcha-matcher

A 250x80 click captcha as a JPEG goes in; four click points come out, in the order of the
prompt. The library is written in Verus: every function under `src/` carries a contract, and
every contract is proved.

| Module | What it does |
| --- | --- |
| `jpeg` | Baseline JPEG to 250x80 gray: markers, Huffman codes, IDCT, upsampling, color |
| `geometry` | Fixed-layout crops and click centers |
| `model` | `.ccm` weight files and the two-tower network |
| `kernel` | The one compute kernel behind every layer, and which version of it to use |
| `assign` | The best of the 360 assignments, and its margin |
| `scalar`, `ieee` | The numbers the network computes with; single precision on bit patterns |
| `cli` | Arguments and messages of the command line |

What a file decodes to is `jpeg::image::decoded`; what a model answers for an image is
`Solution::solves`. Both are written over sequences and integers alone.

`app/` is the command-line program and the C interface around the library: files, clocks,
threads, and the kernel in AVX2 and NEON instructions.
