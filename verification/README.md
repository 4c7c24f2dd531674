# image_js

A raster editing core, verified with Verus: layers, masks, selections, brush
strokes, healing and content-aware fill, channels, type, and lossless save-back
of 8- and 16-bit documents.

## Layout

- `src/` is the library. Every function carries a contract that Verus proves.
- `tests/` runs it. `tests/device.rs` plays the part of the device, so that whole
  composites, fills and strokes come out as pixels.
- `app/` is the browser binding: the exported entry points, the device, the
  codecs and the floating-point arithmetic, around the library.

## How the pieces meet

A value that comes from floating point is a `Scalar`: the bits of a
single-precision number, compared and clamped exactly in the library. Arithmetic
on such values is a function that the caller passes in, and a contract says which
values it is applied to.

Work for the device is a plan or a state machine. `adjust` lists the stages of an
adjustment, `fill` the passes of a fill, and `fold` walks a layer stack: it names
the next step, takes the device's answer, and is proved to reach the end.

Documents keep their own invariants (`wf`), which constructors establish
and operations preserve. Laws that span operations are public proof functions in
the module they are about: an undone edit restores the document, a redone one
brings the edit back whatever was selected in between, a save-back plane holds
every sample, a lossless encode decodes to itself on a codec that reads back what
it wrote, a content-aware fill comes from outside of the hole.

Contours traced without tolerance wind once round each selected pixel and round
no other, and their signed areas add up to the number of selected pixels. Both
hold where every walk closes. That is so on any image with fewer than 4194304
steps between corners, as long as no two selected pixels touch at a corner alone;
a walk that comes back early to such a corner may not close.

## What is trusted

Type shaping comes from `harfrust`; `text` states what is believed of it. Besides
that, two functions of the standard library are given a contract: a method of
`String` in `strings`, and the native bytes of a 16-bit number in `pixels`.
