# gloom

A small OpenGL viewer in two scenes (three overlapping triangles; a
helicopter over a lunar terrain), split in two parts.

`src/` is a Verus-verified library holding the viewer's decisions:

- `layout`: byte sizes, strides and offsets of arrays handed to OpenGL;
- `vao`: which buffers make up a vertex array object, in which order, with
  which attribute locations, component counts, strides and byte sizes;
- `keys`: the set of held keys (press and release, no key twice);
- `controls`: which camera parameter each held key changes, and in which
  direction;
- `events`: how a window event changes the held keys and whether the event
  loop ends;
- `scene`: an acyclic scene graph, the order in which transformations are
  updated and the draw commands it yields.

`app/` is the program around it: window and event loop (glutin), OpenGL
calls (gl) and the floating point matrix work (nalgebra-glm). It also uses
the helper modules `shader`, `util`, `mesh` and `toolbox` of the viewer
template, which are not part of this repository.
