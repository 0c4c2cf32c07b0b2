# voxel

A voxel editing library in the MagicaVoxel model, verified with Verus, and an
MCP server around it.

`src/` is the verified library:

- `grid`, `model`, `palette`: the dense voxel volume and the 256-color palette.
- `brush`: box, sphere, line, circle, plane, flood fill, mirror and the
  mirrored brush, each with the exact set of voxels it paints.
- `scene`, `layer`, `material`: the scene graph of transforms, groups and
  shapes (with MagicaVoxel's packed rotations), world layers, and the
  per-index material dictionaries.
- `dict`, `writer`, `reader`, `vox`: the `.vox` format; `roundtrip` proves
  that reading what was written gives the scene back.
- `project`: the editable document with its undo and redo history, and the
  laws of checkpoint, undo and redo.
- `tools`, `params`, `export`, `mesh`, `glb`: the words the editing tools
  take, their arguments, the export scope and mesh names, the visible faces
  of a model, and the `.glb` container.

`app/` is the MCP server (stdio): argument handling, files, the JSON the
tools answer with, and everything in floating point (material numbers,
meshes, the glTF document). The graphical editor (its window, viewport,
camera, ray picking and GPU meshes) has no counterpart here: it is drawing
and input, with nothing for the library to decide.

`tests/` runs the library on concrete values.
