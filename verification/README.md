# Overmatch

The verified core of a tank game's ballistics, with the tools around it.

`src/` is the library. Every function has a contract, and what the library promises as a whole
stands as `law_…` proof functions beside the code that it is about. Verus proves all of it, but
for two calls into other crates whose contracts it takes as given: compressing a dump
(`bitprobe::dump`) and decoding the icon's pixels (`branding`).

- `float`, `format`, `order`, `growth`, `rounding`, `rounding_double`, `folding`: IEEE singles and
  doubles held by their bits. Each operation is the exact result rounded once, so a computation
  gives the same bits on every machine; how results order and grow; how far a rounding can lie from
  the exact result; and how far a sum can that is rounded at every step.
- `vector`, `text`, `sorting`, `arithmetic`: what the rest is written with.
- `ballistics::walk`: a ray or a disc of rays through overlapping closed volumes. The cost is the
  integral of the highest factor at each point; steps, spall, presence and deposits are read off
  the same spans.
- `ballistics::collect`: the crossings of a ray with triangle meshes and convex solids, watertight
  over shared edges, and exact wherever single precision decides alone.
- `ballistics::resolve`: one round's contact, from the first corridor to what it does to the world.
- `ballistics::sanctioned`: the authority's keyframes for a shot, and how a client catches up.
- `ballistics::fuzz`: random rays at a bound target, every invariant held to them, and every cheap
  corridor to crew or ammunition reported.
- `ballistics::view`, `camera`, `branding`, `spike`, `asset_verify`: how a round is drawn, how the
  camera moves, the window icon, the networked rehearsal, and a command line.
- `bitprobe`: a scripted drive whose ticks are dumped word by word, to compare two machines.

How far a direction turns, and how fast a zoom glides, the library computes. Sines, cosines,
exponentials and the turned directions themselves are handed to it, and so is what a round of a mass
and a speed can defeat.

`app/` is the ordinary Rust around it: files, JSON and RON, text for people, angles, and a contact
driven through the world. `tests/` runs the library on concrete values.
