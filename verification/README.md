# chromatui

A spectrogram for the terminal. Every A is red, one full rainbow per octave.

`src/` is the library, verified with Verus. `app/` is the program around it: the
terminal, the audio device, the sound server's tool, the saved settings, and
what needs the machine's floating point.

| module | what it holds |
|---|---|
| `rounding`, `single`, `arith`, `convert`, `display`, `order`, `values`, `errors` | single-precision arithmetic on bit patterns, rounded as IEEE 754 asks, and how far it may lie from the exact values |
| `text`, `streams`, `joined` | text, and the sound server's listings of streams |
| `audio` | the ring of recent samples, switching the source, finding the route |
| `controls`, `calibration` | the settings and the sensitivity |
| `analysis`, `hues`, `octaves`, `smoothing` | notes, frequencies, bands, levels, and what the smoothing remembers |
| `pitch`, `combs`, `sine`, `partials`, `missing`, `found`, `detection`, `tracker` | the fundamental pitch, which spectra it is found in, what is reported of it, and its steady readout |
| `color`, `contrast`, `rainbow`, `red`, `shades`, `steps`, `table`, `notes` | from a level to a colour, and how the colours relate |
| `state`, `pass`, `stats` | the program's state, its keys, one frame step by step |
| `paint`, `view`, `render` | what is drawn |

A frame asks for powers, logarithms, cosines and a spectrum (`pass::Ask`) and
goes on with the answers; what lies between the questions is proved.
