# faceage

Ages on faces, for blurring the children in a video and nobody else. The
module takes the face boxes a detector put beside the picture and returns the
same boxes with an age on each, in years to one decimal.

A face is not scored afresh every frame. Boxes are followed from one frame to
the next by overlap, and the age a row carries is the mean of that face's last
thirty scores. `every` is how many frames apart one face is scored, and `hold`
keeps a face the detector lost for that many frames, at its last box. Both are
for video: on a slideshow of unrelated stills set `hold` to 0, and no face is
followed from one to the next.

## Layout

`src/` is the library, verified with Verus:

- `number`, `rounding`, `arithmetic` - binary64 numbers held as their bits, and
  the operations on them.
- `exact`, `sums` - where those lose nothing, and how little they lose
  elsewhere.
- `boxes`, `matching`, `face`, `tracker` - overlap, which box is which face,
  what a face remembers, and what a frame does to the faces.
- `laws`, `turns` - what holds of a face from frame to frame, and of the rows
  of frames in turn.
- `params`, `rows`, `stream`, `text` - what comes in and what goes out.
- `head`, `graph` - the CORAL head's logits, and the calls that fetch them.

`app/` is the component around it: the `wasi:nn` graph, the host's frames and
rows, JSON, the crops, and the logistic function. It builds against the wit of
the installed `ffrwd/wasm` package and against the
[ffrwd-frame](https://github.com/imbcmdth/ffrwd-frame) crate.

`tests/` runs the library, its arithmetic against the machine's.
