# anthroforge_core

The verified core of a modular character generator: it scales bodies, fits clothing to
them, merges meshes, combines textures, resolves skeletons, loads OBJ parts and builds
part packs.

`src/` is the library. Verus proves every function of it against its contract, but for a
few short ones that call rayon, serde_json or tobj. Each of those says above its contract
what it takes on trust.

- `single`, `rounding`: single-precision floating point as integer arithmetic, with
  exact rounding. `accuracy` and `vector_accuracy` say how far computed numbers and
  vectors are from the exact ones.
- `vector`, `vertex`, `text`, `parallel`: what the other modules share.
- `kd_tree`, `clothing_deformer`, `clearance`: nearest skin vertices, anchors, fitting
  with push-out, and how far fitted clothing is from the skin.
- `body_mutation`: non-uniform scaling of a skin.
- `mesh_merge`: one mesh from many.
- `texture_atlas`, `error`: the texture atlas, and the last error of a thread.
- `skeleton_resolver`, `json_numbers`: the master skeleton and what parts contribute to
  it.
- `obj_loader`, `obj_references`: meshes from OBJ data, and which references of a face can
  be followed.
- `pack_builder`: the layout of part packs.

`app/` is the pack builder program, and the C interface and file loaders of the engine.
`tests/` runs the library on concrete values.
