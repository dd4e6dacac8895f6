# wiggles

The core of the Wiggles lighting console, verified with Verus.

`src/` is the verified library:

- `network`: a generic dataflow network of nodes in generation-tagged slots, with inputs,
  listener bookkeeping and cycle prevention.  Swapping an input refuses any connection that
  would close a cycle; adding, popping and removing never create one; pushing an input keeps the
  network acyclic when its target does not already depend on the node (pushing itself does not
  check this).
- `ids`: the identifiers of the clock and wiggle networks.
- `input_count`, `simple_hash`: helpers for node input counts, vectors of optional slots, and a
  hasher keyed by little-endian integers.
- `blend_mode`: how a blender combines its inputs, and the names clients pick modes by.
- `event_loop`: the show's event loop (update in fixed steps, render, autosave, idle), with times
  in nanoseconds.
- `patch`, `patch_message`: the fixture patch (DMX universes, fixtures, addresses counted from
  1, rendering) and the request handler of the patch server, whose batches of new patches apply
  entirely or not at all.
- `show_library`: naming and picking saved show files.
- `reactor`, `clients`: the console server's messages, the responses the reactor sends for each
  command's outcome, when the reactor stops, and which clients receive each response.  A
  collection of messages is a `Vec`: the small-vector type of the `smallvec` crate cannot be
  described to the verifier for messages of any type.

Clocks, wiggles (the blender, the fanner, the waveforms), knobs, and turning fixture control
values into DMX levels all compute with floating point numbers or with the `wiggles_value` crate,
which is not available; they are not part of the library.  Turning control values into levels
lives in `app/`.

`app/` is the console server program around the library: file system work for the show library,
the reactor's run loop, the response router, the websocket server, and DMX output.
