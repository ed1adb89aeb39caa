# MixRust

A timeline audio editor. Clips of audio lie on lanes; they can be dragged about, partly selected,
cut, put through effects (volume, speed, bass, distortion, reverb), played from the playhead, and
mixed down to a WAV file.

- `src/` is the editor without its window: a library whose functions carry contracts that Verus
  proves. It holds no trusted items.
- `tests/` runs the library with the machine's floating point.
- `app/` is the program: windows, painting, audio files and audio output.

## Numbers

Times, ratios and pixels are binary64 values, samples are binary32 values. The library holds both by
their bits (`num`), so comparing, clamping and the like are plain integer code, and every pattern of
bits is a value. What rounds is asked of an `Arith` that the program supplies (`app/float.rs`), and of
which nothing is assumed. A contract says which operations lead to a value by a `Formula`; `gives`
relates the formula to what the arithmetic returned. `outcomes` proves that this leaves nothing open:
where the arithmetic is a function, every operation has one outcome.

Laws that need more of the arithmetic name it: `orderly` (it keeps the order of values),
`one_is_neutral`, `doubles_cancel`, `differences_are_opposite`, `parts_are_less`, `tanh_is_bounded`,
`pcm_is_bounded`, and `correctly_rounded` (it rounds to the nearest value). The arithmetic of the
program is all of this; `tests/` tries it on samples of values.

## Modules

| module     | what it holds                                                     |
|------------|-------------------------------------------------------------------|
| `num`      | numbers by their bits                                             |
| `arith`    | the arithmetic, formulas                                          |
| `clip`     | a clip: samples, selection, zones, waveform                       |
| `effects`  | the effects                                                       |
| `edit`     | cutting a selection out, cutting off behind the playhead          |
| `timeline` | the state of the editor: clips, lanes, what lies where            |
| `mouse`    | what the mouse, the buttons and the clock do to the state         |
| `playback` | what is heard from the playhead on, the exported mix              |
| `scene`    | what is drawn, and where                                          |
| `welcome`  | the window that the program opens with                            |
| `exact`    | what values are worth, rounding to the nearest value              |
| `laws`     | what holds of several operations together                         |
| `outcomes` | that the outcome of every operation is determined                 |
