# risenlab

Tools for the Risen 1 asset pipeline, as a Verus-verified library with a thin command line.

- `src/` — the verified library: the `.pak` archive reader, writer and merger (`pak`,
  `pakwrite`, `pakmerge`), the `._ximg` texture wrapper (`ximg`), DDS pixel conversion
  and the DDS container read and write (`dds`, `ddscontainer`), actor skeletons, skinned meshes and motion records (`xmac`, `xmesh_skin`, `xmot`),
  script bindings (`tple`), game discovery (`gamepath`), the texture round trip's manifest,
  library and planning (`batch`, `patchplan`), one texture's extraction to PNG and patching
  back (`texture`), the AI prompt and settings rules (`ai`), the
  desktop app's bookkeeping (`logic`) and the remote helpers (`remote`). The `*proof` modules
  hold the laws that tie operations together (a written archive reads back, a merged archive
  follows the patch, a spliced texture keeps its payload, byte-channel DDS formats are
  lossless, embedding texture paths is idempotent, the manifest round-trips).
- `tests/` — the test suite, run against the compiled library.
- `app/` — the `risenlab` command line: file and process I/O, PNG encoding (`image`), AI
  provider calls, and the floating-point keyframe scan.
