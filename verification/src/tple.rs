//! Risen 1 `._tple` template files: a read-only scan for the interaction script hooks
//! (`CanInteractScript`, `PreInteractScript`, `InteractScript`, `PostInteractScript`) and
//! the function each one is bound to.
//!
//! The scan reads the file as a stream of `[u16 length][printable ASCII]` strings. A hook's
//! bound value, when it has one, is the string right after the hook's name; a string that is
//! a type descriptor (it holds `<`) or a known schema field or type name means the hook is
//! unbound.

use vstd::prelude::*;
use crate::le::{u16_at, read_u16_at};
use crate::text::{chars_of, string_push, str_equal};

verus! {

/// A token's bytes are printable ASCII (0x20 to 0x7e).
pub open spec fn printable(b: Seq<u8>) -> bool {
    forall|k: int| 0 <= k < b.len() ==> 0x20 <= #[trigger] b[k] < 0x7f
}

/// The characters of ASCII bytes.
pub open spec fn ascii_text(b: Seq<u8>) -> Seq<char> {
    b.map_values(|x: u8| x as char)
}

/// The tokens found scanning from `i`: at each position, a non-empty printable string with
/// its `u16` length prefix is taken whole; otherwise the scan moves on by one byte.
pub open spec fn tokens_from(d: Seq<u8>, i: int) -> Seq<Seq<char>>
    decreases d.len() - i,
{
    if i < 0 || i + 2 > d.len() {
        Seq::<Seq<char>>::empty()
    } else {
        let n = u16_at(d, i) as int;
        if n > 0 && i + 2 + n <= d.len() && printable(d.subrange(i + 2, i + 2 + n)) {
            seq![ascii_text(d.subrange(i + 2, i + 2 + n))] + tokens_from(d, i + 2 + n)
        } else {
            tokens_from(d, i + 1)
        }
    }
}

/// Every token of a file.
pub open spec fn tokens(d: Seq<u8>) -> Seq<Seq<char>> {
    tokens_from(d, 0)
}

/// Schema field names and bare type names that may follow a hook's name without being its
/// value.
pub open spec fn schema_names() -> Seq<Seq<char>> {
    seq![
        "Amount"@,
        "GoldValue"@,
        "MissionItem"@,
        "Permanent"@,
        "SortValue"@,
        "Category"@,
        "IconImage"@,
        "HoldOffset"@,
        "Dropped"@,
        "ItemWorld"@,
        "ItemInventory"@,
        "Spell"@,
        "RequiredSkills"@,
        "ModifySkills"@,
        "Modifier"@,
        "Skill"@,
        "UseType"@,
        "CanEquipScript"@,
        "EquipScript"@,
        "UnEquipScript"@,
        "EffectMaterial"@,
        "HoldType"@,
        "IsDangerousWeapon"@,
        "CombatHitRangeOffset"@,
        "EnterROIScript"@,
        "ExitROIScript"@,
        "TouchScript"@,
        "IntersectScript"@,
        "UntouchScript"@,
        "TriggerScript"@,
        "UntriggerScript"@,
        "DamageScript"@,
        "CanAttachSlotScript"@,
        "AttachedSlotScript"@,
        "DetachedSlotScript"@,
        "RoomChangedScript"@,
        "RoutineTask"@,
        "GroundBias"@,
        "FocusPriority"@,
        "FocusNameType"@,
        "FocusNameBone"@,
        "FocusViewOffset"@,
        "FocusWorldOffset"@,
        "FocusPriorityScript"@,
        "Slots"@,
        "InteractionCounter"@,
        "Owner"@,
        "Type"@,
        "CanInteractScript"@,
        "PreInteractScript"@,
        "InteractScript"@,
        "PostInteractScript"@,
        "CanInteract_Magic_Item"@,
        "PreInteract_Magic_Item"@,
        "CanQuickUse_Player"@,
        "QuickUse_Player"@,
        "NavTestResult"@,
        "StaticIlluminated"@,
        "ShadowCasterType"@,
        "CastDirLightShadows"@,
        "CastPntLightShadows"@,
        "CastStaticShadows"@,
        "CastDirLightShadowsOverwrite"@,
        "CastPntLightShadowsOverwrite"@,
        "CastStaticShadowsOverwrite"@,
        "MeshFileName"@,
        "MaterialSwitch"@,
        "SubMeshCulling"@,
        "Lightmaped"@,
        "EnableRadiosity"@,
        "MaxSubMeshTriangles"@,
        "UnitsPerLightmapTexel"@,
        "LevelOfDetailRange0"@,
        "LevelOfDetailRange1"@,
        "LevelOfDetailRange2"@,
        "EnableDecals"@,
        "HitByProjectile"@,
        "TotalMass"@,
        "MassSpaceInertia"@,
        "StartVelocity"@,
        "StartAngularVelocity"@,
        "StartForce"@,
        "StartTorque"@,
        "WakeUpCounter"@,
        "LinearDamping"@,
        "AngularDamping"@,
        "MaxAngularVelocity"@,
        "CenterOfMass"@,
        "CCDMotionTreshold"@,
        "BodyFlag"@,
        "PhysicsEnabled"@,
        "Group"@,
        "Range"@,
        "DisableCollision"@,
        "DisableResponse"@,
        "IgnoredByTraceRay"@,
        "IsUnique"@,
        "IsClimbable"@,
        "ShapeType"@,
        "Material"@,
        "ShapeAABBAdaptMode"@,
        "EnableCCD"@,
        "OverrideEntityAABB"@,
        "TriggersOnTouch"@,
        "TriggersOnUntouch"@,
        "TriggersOnIntersect"@,
        "SkinWidth"@,
        "IsLazyGenerated"@,
        "FileVersion"@,
        "eCScriptProxyScript"@,
        "gCScriptProxyAIFunction"@,
        "gCScriptProxyAIState"@,
        "eCEntityProxy"@,
        "eCTemplateEntityProxy"@,
        "eCGuiBitmapProxy2"@,
        "bCString"@,
        "bCVector"@,
        "bool"@,
        "int"@,
        "long"@,
        "short"@,
        "float"@
    ]
}

/// The four hooks reported.
pub open spec fn hook_names() -> Seq<Seq<char>> {
    seq!["CanInteractScript"@, "PreInteractScript"@, "InteractScript"@, "PostInteractScript"@]
}

/// A string that names a schema entry rather than a bound value.
pub open spec fn is_schema_token(s: Seq<char>) -> bool {
    s.contains('<') || schema_names().contains(s)
}

/// One hook found in a template, with the function it is bound to (`None` when unbound).
#[derive(Debug, Clone)]
pub struct ScriptBinding {
    pub property: String,
    pub bound_value: Option<String>,
}

/// A binding as values.
pub struct BindingSpec {
    pub property: Seq<char>,
    pub bound_value: Option<Seq<char>>,
}

/// The binding of the hook at token `k`: the next token, unless there is none or it is a
/// schema token.
pub open spec fn binding_at(toks: Seq<Seq<char>>, k: int) -> BindingSpec {
    BindingSpec {
        property: toks[k],
        bound_value: if k + 1 < toks.len() && !is_schema_token(toks[k + 1]) {
            Some(toks[k + 1])
        } else {
            None
        },
    }
}

/// The bindings of every hook token among the first `n` tokens, in order.
pub open spec fn bindings_upto(toks: Seq<Seq<char>>, n: int) -> Seq<BindingSpec>
    decreases n,
{
    if n <= 0 {
        Seq::<BindingSpec>::empty()
    } else if hook_names().contains(toks[n - 1]) {
        bindings_upto(toks, n - 1).push(binding_at(toks, n - 1))
    } else {
        bindings_upto(toks, n - 1)
    }
}

/// The bindings a template's bytes report.
pub open spec fn script_bindings(d: Seq<u8>) -> Seq<BindingSpec> {
    bindings_upto(tokens(d), tokens(d).len() as int)
}

/// A binding's values.
pub open spec fn binding_view(b: ScriptBinding) -> BindingSpec {
    BindingSpec {
        property: b.property@,
        bound_value: match b.bound_value {
            Some(s) => Some(s@),
            None => None,
        },
    }
}

fn in_list(list: &Vec<&str>, s: &str) -> (r: bool)
    ensures
        r == list@.map_values(|t: &str| t@).contains(s@),
{
    let ghost v = list@.map_values(|t: &str| t@);
    let mut i: usize = 0;
    while i < list.len()
        invariant
            i <= list@.len(),
            v == list@.map_values(|t: &str| t@),
            forall|k: int| 0 <= k < i ==> v[k] != s@,
        decreases list.len() - i,
    {
        if str_equal(list[i], s) {
            proof {
                assert(v[i as int] == s@);
            }
            return true;
        }
        i += 1;
    }
    false
}

fn schema_name_list() -> (v: Vec<&'static str>)
    ensures
        v@.map_values(|t: &str| t@) == schema_names(),
{
    let v = vec![
        "Amount",
        "GoldValue",
        "MissionItem",
        "Permanent",
        "SortValue",
        "Category",
        "IconImage",
        "HoldOffset",
        "Dropped",
        "ItemWorld",
        "ItemInventory",
        "Spell",
        "RequiredSkills",
        "ModifySkills",
        "Modifier",
        "Skill",
        "UseType",
        "CanEquipScript",
        "EquipScript",
        "UnEquipScript",
        "EffectMaterial",
        "HoldType",
        "IsDangerousWeapon",
        "CombatHitRangeOffset",
        "EnterROIScript",
        "ExitROIScript",
        "TouchScript",
        "IntersectScript",
        "UntouchScript",
        "TriggerScript",
        "UntriggerScript",
        "DamageScript",
        "CanAttachSlotScript",
        "AttachedSlotScript",
        "DetachedSlotScript",
        "RoomChangedScript",
        "RoutineTask",
        "GroundBias",
        "FocusPriority",
        "FocusNameType",
        "FocusNameBone",
        "FocusViewOffset",
        "FocusWorldOffset",
        "FocusPriorityScript",
        "Slots",
        "InteractionCounter",
        "Owner",
        "Type",
        "CanInteractScript",
        "PreInteractScript",
        "InteractScript",
        "PostInteractScript",
        "CanInteract_Magic_Item",
        "PreInteract_Magic_Item",
        "CanQuickUse_Player",
        "QuickUse_Player",
        "NavTestResult",
        "StaticIlluminated",
        "ShadowCasterType",
        "CastDirLightShadows",
        "CastPntLightShadows",
        "CastStaticShadows",
        "CastDirLightShadowsOverwrite",
        "CastPntLightShadowsOverwrite",
        "CastStaticShadowsOverwrite",
        "MeshFileName",
        "MaterialSwitch",
        "SubMeshCulling",
        "Lightmaped",
        "EnableRadiosity",
        "MaxSubMeshTriangles",
        "UnitsPerLightmapTexel",
        "LevelOfDetailRange0",
        "LevelOfDetailRange1",
        "LevelOfDetailRange2",
        "EnableDecals",
        "HitByProjectile",
        "TotalMass",
        "MassSpaceInertia",
        "StartVelocity",
        "StartAngularVelocity",
        "StartForce",
        "StartTorque",
        "WakeUpCounter",
        "LinearDamping",
        "AngularDamping",
        "MaxAngularVelocity",
        "CenterOfMass",
        "CCDMotionTreshold",
        "BodyFlag",
        "PhysicsEnabled",
        "Group",
        "Range",
        "DisableCollision",
        "DisableResponse",
        "IgnoredByTraceRay",
        "IsUnique",
        "IsClimbable",
        "ShapeType",
        "Material",
        "ShapeAABBAdaptMode",
        "EnableCCD",
        "OverrideEntityAABB",
        "TriggersOnTouch",
        "TriggersOnUntouch",
        "TriggersOnIntersect",
        "SkinWidth",
        "IsLazyGenerated",
        "FileVersion",
        "eCScriptProxyScript",
        "gCScriptProxyAIFunction",
        "gCScriptProxyAIState",
        "eCEntityProxy",
        "eCTemplateEntityProxy",
        "eCGuiBitmapProxy2",
        "bCString",
        "bCVector",
        "bool",
        "int",
        "long",
        "short",
        "float"
    ];
    assert(v@.map_values(|t: &str| t@) =~= schema_names());
    v
}

fn hook_name_list() -> (v: Vec<&'static str>)
    ensures
        v@.map_values(|t: &str| t@) == hook_names(),
{
    let v = vec!["CanInteractScript", "PreInteractScript", "InteractScript", "PostInteractScript"];
    assert(v@.map_values(|t: &str| t@) =~= hook_names());
    v
}

/// Whether `s` is one of the schema field or type names.
fn known_schema_field(s: &str) -> (b: bool)
    ensures
        b == schema_names().contains(s@),
{
    let names = schema_name_list();
    in_list(&names, s)
}

fn has_angle(s: &str) -> (b: bool)
    ensures
        b == s@.contains('<'),
{
    let cs = chars_of(s);
    let mut i: usize = 0;
    while i < cs.len()
        invariant
            cs@ == s@,
            i <= cs@.len(),
            forall|k: int| 0 <= k < i ==> cs@[k] != '<',
        decreases cs.len() - i,
    {
        if cs[i] == '<' {
            proof {
                assert(s@[i as int] == '<');
            }
            return true;
        }
        i += 1;
    }
    false
}

fn printable_at(data: &[u8], start: usize, end: usize) -> (b: bool)
    requires
        start <= end <= data@.len(),
    ensures
        b == printable(data@.subrange(start as int, end as int)),
{
    let mut i = start;
    while i < end
        invariant
            start <= i <= end <= data@.len(),
            forall|k: int| start <= k < i ==> 0x20 <= #[trigger] data@[k] < 0x7f,
        decreases end - i,
    {
        if data[i] < 0x20 || data[i] >= 0x7f {
            proof {
                assert(data@.subrange(start as int, end as int)[i - start] == data@[i as int]);
            }
            return false;
        }
        i += 1;
    }
    assert forall|k: int| 0 <= k < end - start implies 0x20 <= #[trigger] data@.subrange(start as int, end as int)[k] < 0x7f by {
        assert(data@.subrange(start as int, end as int)[k] == data@[start + k]);
    }
    true
}

fn ascii_string(data: &[u8], start: usize, end: usize) -> (s: String)
    requires
        start <= end <= data@.len(),
    ensures
        s@ == ascii_text(data@.subrange(start as int, end as int)),
{
    let mut s = String::new();
    let mut i = start;
    while i < end
        invariant
            start <= i <= end <= data@.len(),
            s@ == ascii_text(data@.subrange(start as int, i as int)),
        decreases end - i,
    {
        string_push(&mut s, data[i] as char);
        proof {
            assert(ascii_text(data@.subrange(start as int, i + 1)) =~= ascii_text(data@.subrange(start as int, i as int)).push(data@[i as int] as char));
        }
        i += 1;
    }
    s
}

/// Every token of `data` (see `tokens`).
fn read_tokens(data: &[u8]) -> (v: Vec<String>)
    ensures
        v@.map_values(|s: String| s@) == tokens(data@),
{
    let mut out: Vec<String> = Vec::new();
    let n = data.len();
    let mut i: usize = 0;
    while n >= 2 && i <= n - 2
        invariant
            n == data@.len(),
            i <= n,
            out@.map_values(|s: String| s@) + tokens_from(data@, i as int) == tokens(data@),
        decreases n - i,
    {
        let ghost before = out@.map_values(|s: String| s@);
        let len = read_u16_at(data, i).unwrap() as usize;
        if len > 0 && len <= n - i - 2 && printable_at(data, i + 2, i + 2 + len) {
            let s = ascii_string(data, i + 2, i + 2 + len);
            out.push(s);
            proof {
                assert(out@.map_values(|s: String| s@) =~= before.push(s@));
                assert(tokens_from(data@, i as int) == seq![s@] + tokens_from(data@, i + 2 + len));
                assert(before.push(s@) + tokens_from(data@, i + 2 + len) =~= before + (seq![s@] + tokens_from(data@, i + 2 + len)));
            }
            i = i + 2 + len;
        } else {
            i += 1;
        }
    }
    proof {
        assert(tokens_from(data@, i as int) =~= Seq::<Seq<char>>::empty());
        assert(out@.map_values(|s: String| s@) + Seq::<Seq<char>>::empty() =~= out@.map_values(|s: String| s@));
    }
    out
}

/// Every interaction hook found in a template, in file order, with its bound value (the next
/// string, unless there is none or it is a schema token).
pub fn scan_script_bindings(data: &[u8]) -> (v: Vec<ScriptBinding>)
    ensures
        v@.map_values(|b: ScriptBinding| binding_view(b)) == script_bindings(data@),
{
    let toks = read_tokens(data);
    let ghost tv = toks@.map_values(|s: String| s@);
    let hooks = hook_name_list();
    let mut out: Vec<ScriptBinding> = Vec::new();
    let mut k: usize = 0;
    while k < toks.len()
        invariant
            k <= toks@.len(),
            tv == toks@.map_values(|s: String| s@),
            tv == tokens(data@),
            hooks@.map_values(|t: &str| t@) == hook_names(),
            out@.map_values(|b: ScriptBinding| binding_view(b)) == bindings_upto(tv, k as int),
        decreases toks.len() - k,
    {
        let ghost before = out@.map_values(|b: ScriptBinding| binding_view(b));
        if in_list(&hooks, toks[k].as_str()) {
            let bound_value = if k + 1 < toks.len() {
                let next = toks[k + 1].as_str();
                if has_angle(next) || known_schema_field(next) {
                    None
                } else {
                    Some(toks[k + 1].clone())
                }
            } else {
                None
            };
            let b = ScriptBinding { property: toks[k].clone(), bound_value };
            out.push(b);
            proof {
                assert(binding_view(b) == binding_at(tv, k as int));
                assert(out@.map_values(|b: ScriptBinding| binding_view(b)) =~= before.push(binding_view(b)));
            }
        }
        k += 1;
    }
    out
}

} // verus!
