//! Meshes, actors and materials go through `mimicry-helper`, a separately built converter
//! run out of process. This module says what each conversion asks of it: the helper's
//! command word followed by the input and output paths. Running it stays with the caller.

use vstd::prelude::*;

verus! {

/// The helper's argument list for a conversion: the command word, the input path, the
/// output path.
pub open spec fn helper_args(command: Seq<char>, input: Seq<char>, output: Seq<char>) -> Seq<Seq<char>> {
    seq![command, input, output]
}

fn args_for(command: &str, input: &str, output: &str) -> (v: Vec<String>)
    ensures
        v@.map_values(|s: String| s@) == helper_args(command@, input@, output@),
{
    let v = vec![String::from_str(command), String::from_str(input), String::from_str(output)];
    assert(v@.map_values(|s: String| s@) =~= helper_args(command@, input@, output@));
    v
}

/// Exporting a `.xmsh` mesh to `.obj`: `mesh-to-obj <input> <output>`.
pub fn mesh_to_obj(input: &str, output: &str) -> (v: Vec<String>)
    ensures
        v@.map_values(|s: String| s@) == helper_args("mesh-to-obj"@, input@, output@),
{
    args_for("mesh-to-obj", input, output)
}

/// Exporting a `.xmac` actor (skeleton, bind-pose mesh, materials) to `.obj`:
/// `actor-to-obj <input> <output>`.
pub fn actor_to_obj(input: &str, output: &str) -> (v: Vec<String>)
    ensures
        v@.map_values(|s: String| s@) == helper_args("actor-to-obj"@, input@, output@),
{
    args_for("actor-to-obj", input, output)
}

/// Importing an `.obj` back into a `.xmsh` mesh: `obj-to-mesh <input> <output>`.
pub fn obj_to_mesh(input: &str, output: &str) -> (v: Vec<String>)
    ensures
        v@.map_values(|s: String| s@) == helper_args("obj-to-mesh"@, input@, output@),
{
    args_for("obj-to-mesh", input, output)
}

/// Dumping a `.xmat` material's shader elements and properties to text:
/// `material-dump <input> <output>`.
pub fn material_dump(input: &str, output: &str) -> (v: Vec<String>)
    ensures
        v@.map_values(|s: String| s@) == helper_args("material-dump"@, input@, output@),
{
    args_for("material-dump", input, output)
}

} // verus!
