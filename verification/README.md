# ink2tex

Handwritten mathematics to LaTeX, for a tablet with a pen and an E-Ink screen. The library is
written in Verus: what each function returns is stated in its contract and proved.

Ink is a list of strokes, a stroke a list of points. The library reads the digitizer's events into
ink, drops stray taps, finds out which way up the tablet was held, groups strokes into symbols,
classifies each symbol with a small quantized network, reads the two-dimensional structure of the
line, and writes it as LaTeX, as a drawing, or as pen movements.

## Layout

`src/` is the verified library.

| Modules | What they hold |
| --- | --- |
| `float` | Single-precision numbers as their bits: arithmetic with one rounding, comparison, conversion, printing, and lemmas on rounding and its errors |
| `elementary` | What is asked of the functions that the machine supplies (arctangent, exponential, sine, cosine) |
| `stroke`, `format`, `record` | Ink, its file format, and training samples |
| `evdev`, `transform`, `capture`, `watch` | From the digitizer's events to ink |
| `denoise`, `orient`, `segment`, `line`, `prior` | From ink to symbols in reading order, ranked over the vocabulary of an expression |
| `classify` | Features, bitmaps, the weights file, the integer kernels, the network |
| `structure`, `latex`, `glyphs`, `typeset` | From symbols to LaTeX, to a drawing and to strokes |
| `expression`, `present`, `http`, `serve` | The correction page, as a state machine |
| `beautify`, `inject`, `rehearse` | Replacing handwriting by typeset strokes |
| `wire` | What a browser sends and gets |
| `json`, `detexify`, `dataset`, `corpus`, `evaluate` | The training corpus and what is made of it |
| `stats`, `picture`, `report`, `synth`, `cli`, `error`, `text`, `sort`, `alphabet` | Tools |

The public proof functions whose names begin with `law_` state what holds of the library as a
whole.

`tests/` runs the library on concrete values. `app/` is the program around it: the digitizer, the
screen, the network, the files and the command lines.

## Numbers

A number is a bit pattern, and the operations on it are the ones of the standard for binary
floating-point arithmetic: the exact result, rounded once to the nearest number, ties to even. The
four functions that the standard leaves to the machine are passed in by the caller. A contract
that depends on one speaks of every function that agrees with what was passed in.

## What is trusted

`String::push`, `core::str::from_utf8`, `String::from_utf8_lossy` and `serde_json::from_str`. The
contracts stand above their wrappers in `text`, `http` and `json::value`.
