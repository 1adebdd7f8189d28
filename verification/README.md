# eluna

A library that loads and drives Emote models, written and proved in Verus, with a
previewer and an extractor around it.

- `src/` is the library. A document is a tree of values (`value`, `psb`). From it come
  the textures and motions of a model (`schema`, `model`), its variables, timelines and
  controls (`catalog`, `timelines`, `controls`), and the sprites of a scene at a time
  (`frames`, `combinator`, `step`, `travel`, `assembly`). A player (`player`, `calls`,
  `ask`, `start`, `bodies`, `walk`, `replay`) changes the variables in time; `sdk` and `viewer`
  put the two together. `texture`, `vertices`, `draws`, `frame_plan` and `raster` say what
  is drawn, and in which order. `laws` holds what is proved of a player as a whole.
- Numbers are binary32 numbers on integers (`single`, `rounding`, `roots`), rounded as
  IEEE 754 asks, so that the contracts can speak of them; `decimal`, `show` and `general`
  read and write them. Sines, cosines and arc tangents
  are handed in.
- `tests/` runs the library, among other things against the numbers of the machine.
- `app/` holds what needs a window, a graphics card, a file or a sine. What reads the
  containers of documents is handed to it as a `DocumentReader`.
