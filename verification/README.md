# bevox

Sparse voxel volumes, what is computed from them, and what moves them.

A volume is a tree whose nodes have 64 children each, with voxels at the leaves and
nothing stored where a region is empty or all of one material. The library proves
what its functions do: each has a contract over the voxels a tree holds, and the
laws that relate several functions stand beside them as proof functions whose names
begin with `law_`.

- `src/` the library.
  - `node`, `arena`, `tree`, `store`, `plan`, `neat`, `reuse`, `alone`: how a tree lies in its
    slots, and which of them an edit takes again or leaves alone.
  - `contree`, `dense`, `sparse`, `rewrite`, `growth`, `edit`, `laws`: building, reading
    and editing trees.
  - `distance_field`, `fullness`, `grid`: coarse grids over a world.
  - `march`, `normal`, `mask_table`, `gpu`: what a renderer needs.
  - `vox`, `material`, `scenes`, `tools`, `body`: importing, materials, scenes, the
    mouse, and bodies' identities, bounds and growth.
  - `physics`: classification of voxels, candidates for contact, detachment,
    splitting, fracture, merging, mass, joints and sleep.
- `tests/` runs the library.
- `app/` a program around it. Positions, rotations, rays and impulses are floating
  point and live there; the library takes what they decide as integers, tables or
  closures, and decides the rest.

The coordinates of rays are handed to `march` as keys: integers that order as the
distances do.
