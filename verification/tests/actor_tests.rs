use risenlab::batch::{actor_skeleton, actor_skinned_mesh, read_actor_skinned_mesh, ActorError};
use risenlab::pak::PakArchive;
use risenlab::pakwrite::write_archive_from_dir;
use risenlab::xmac::{parse_skeleton, XmacError, SECTION_NODES};
use risenlab::xmesh_skin::{
    parse_skinned_mesh, read_skinned_mesh, SkinError, MESH_BASEVERTS, MESH_VERTICES, SECTION_MESH, SECTION_SKIN,
};
use risenlab::xmot::{find_length_prefixed_name, motion_record_starts, XmotError};

fn push_node(buf: &mut Vec<u8>, rotation: [f32; 4], position: [f32; 3], parent_index: u32, name: &str, big_endian: bool) {
    let push_f32 = |buf: &mut Vec<u8>, v: f32| buf.extend_from_slice(&if big_endian { v.to_be_bytes() } else { v.to_le_bytes() });
    let push_u32 = |buf: &mut Vec<u8>, v: u32| buf.extend_from_slice(&if big_endian { v.to_be_bytes() } else { v.to_le_bytes() });
    for v in rotation {
        push_f32(buf, v);
    }
    buf.extend_from_slice(&[0u8; 16]);
    for v in position {
        push_f32(buf, v);
    }
    buf.extend_from_slice(&[0u8; 32]);
    push_u32(buf, parent_index);
    buf.extend_from_slice(&[0u8; 76]);
    push_u32(buf, name.len() as u32);
    buf.extend_from_slice(name.as_bytes());
}

fn synthetic_xmac_endian(nodes: &[(&str, u32, [f32; 4], [f32; 3])], big_endian: bool) -> Vec<u8> {
    let push_u32 = |buf: &mut Vec<u8>, v: u32| buf.extend_from_slice(&if big_endian { v.to_be_bytes() } else { v.to_le_bytes() });
    let mut section_body = Vec::new();
    push_u32(&mut section_body, nodes.len() as u32);
    section_body.extend_from_slice(&[0u8; 4]);
    for (name, parent, rot, pos) in nodes {
        push_node(&mut section_body, *rot, *pos, *parent, name, big_endian);
    }
    let mut section = Vec::new();
    push_u32(&mut section, SECTION_NODES);
    push_u32(&mut section, section_body.len() as u32);
    push_u32(&mut section, 1);
    section.extend_from_slice(&section_body);

    let mut header = vec![0u8; 148];
    header[140..143].copy_from_slice(b"XAC");
    header[146] = if big_endian { 1 } else { 0 };
    let end_section_offset = 148 + section.len();
    header[136..140].copy_from_slice(&((end_section_offset - 140) as u32).to_le_bytes());
    let mut buf = header;
    buf.extend_from_slice(&section);
    buf
}

fn floats<const N: usize>(bits: [u32; N]) -> [f32; N] {
    bits.map(f32::from_bits)
}

#[test]
fn xmac_rejects_too_short_data() {
    assert!(parse_skeleton(b"too short").is_err());
    assert_eq!(parse_skeleton(b"too short").err(), Some(XmacError::TooShort(9)));
}

#[test]
fn rejects_missing_xac_magic() {
    let data = vec![0u8; 200];
    assert_eq!(parse_skeleton(&data).err(), Some(XmacError::MissingMagic));
}

#[test]
fn parses_a_real_shaped_bone_hierarchy_with_correct_parent_links() {
    let data = synthetic_xmac_endian(
        &[
            ("Bone_ROOT", u32::MAX, [0.0, 0.0, 0.0, 1.0], [0.0, 0.0, 0.0]),
            ("Bone_Spine1", 0, [0.1, 0.2, 0.3, 0.9], [0.0, 5.0, 0.0]),
            ("Bone_Spine2", 1, [0.0, 0.0, 0.0, 1.0], [0.0, 6.0, 0.0]),
        ],
        false,
    );
    let nodes = parse_skeleton(&data).unwrap();
    assert_eq!(nodes.len(), 3);
    assert_eq!(nodes[0].name, "Bone_ROOT");
    assert_eq!(nodes[0].parent_index, None);
    assert_eq!(nodes[1].name, "Bone_Spine1");
    assert_eq!(nodes[1].parent_index, Some(0));
    assert_eq!(floats(nodes[1].position_bits), [0.0, 5.0, 0.0]);
    assert_eq!(nodes[2].parent_index, Some(1));
    assert_eq!(floats(nodes[2].rotation_bits), [0.0, 0.0, 0.0, 1.0]);
}

#[test]
fn parses_a_real_shaped_big_endian_actor_correctly() {
    let data = synthetic_xmac_endian(
        &[
            ("Bone_ROOT", u32::MAX, [0.0, 0.0, 0.0, 1.0], [0.0, 0.0, 0.0]),
            ("Bone_Spine1", 0, [0.1, 0.2, 0.3, 0.9], [1.5, 5.0, -2.5]),
        ],
        true,
    );
    let nodes = parse_skeleton(&data).unwrap();
    assert_eq!(nodes.len(), 2);
    assert_eq!(nodes[0].parent_index, None);
    assert_eq!(nodes[1].parent_index, Some(0));
    assert_eq!(floats(nodes[1].position_bits), [1.5, 5.0, -2.5]);
    assert_eq!(floats(nodes[1].rotation_bits), [0.1, 0.2, 0.3, 0.9]);
}

#[test]
fn a_cut_short_node_reports_where_the_file_ended() {
    let mut data = synthetic_xmac_endian(&[("Bone_ROOT", u32::MAX, [0.0; 4], [0.0; 3])], false);
    data.truncate(data.len() - 3);
    let name_at = 148 + 12 + 8 + 160;
    assert_eq!(parse_skeleton(&data).err(), Some(XmacError::NamePastEnd(9, name_at as u64)));
    data.truncate(148 + 12 + 8 + 10);
    assert_eq!(parse_skeleton(&data).err(), Some(XmacError::EndOfFile((148 + 12 + 8 + 8) as u64)));
}

#[test]
fn other_sections_are_skipped_and_an_empty_table_has_no_bones() {
    let mut data = vec![0u8; 150];
    data[140..143].copy_from_slice(b"XAC");
    data[136..140].copy_from_slice(&8u32.to_le_bytes());
    assert!(parse_skeleton(&data).unwrap().is_empty());

    let nodes = synthetic_xmac_endian(&[("B", u32::MAX, [0.0; 4], [0.0; 3])], false);
    let mut other = Vec::new();
    other.extend_from_slice(&99u32.to_le_bytes());
    other.extend_from_slice(&4u32.to_le_bytes());
    other.extend_from_slice(&1u32.to_le_bytes());
    other.extend_from_slice(&[7u8; 4]);
    let mut buf = nodes[..148].to_vec();
    buf.extend_from_slice(&other);
    buf.extend_from_slice(&nodes[148..]);
    let end = (buf.len() - 140) as u32;
    buf[136..140].copy_from_slice(&end.to_le_bytes());
    let parsed = parse_skeleton(&buf).unwrap();
    assert_eq!(parsed.len(), 1);
    assert_eq!(parsed[0].name, "B");
}

fn push_section(buf: &mut Vec<u8>, id: u32, body: &[u8]) {
    buf.extend_from_slice(&id.to_le_bytes());
    buf.extend_from_slice(&(body.len() as u32).to_le_bytes());
    buf.extend_from_slice(&1u32.to_le_bytes());
    buf.extend_from_slice(body);
}

fn actor_with(sections: &[u8]) -> Vec<u8> {
    let mut header = vec![0u8; 148];
    header[140..143].copy_from_slice(b"XAC");
    let end_section_offset = 148 + sections.len();
    header[136..140].copy_from_slice(&((end_section_offset - 140) as u32).to_le_bytes());
    let mut buf = header;
    buf.extend_from_slice(sections);
    buf
}

fn synthetic_xmac_with_mesh_and_skin() -> Vec<u8> {
    let positions: [[f32; 3]; 3] = [[0.0, 0.0, 0.0], [1.0, 0.0, 0.0], [0.0, 1.0, 0.0]];
    let mut mesh_body = Vec::new();
    mesh_body.extend_from_slice(&0u32.to_le_bytes());
    mesh_body.extend_from_slice(&3u32.to_le_bytes());
    mesh_body.extend_from_slice(&3u32.to_le_bytes());
    mesh_body.extend_from_slice(&3u32.to_le_bytes());
    mesh_body.extend_from_slice(&[0u8; 4]);
    mesh_body.extend_from_slice(&1u32.to_le_bytes());
    mesh_body.extend_from_slice(&[0u8; 4]);
    mesh_body.extend_from_slice(&MESH_VERTICES.to_le_bytes());
    mesh_body.extend_from_slice(&12u32.to_le_bytes());
    mesh_body.extend_from_slice(&[0u8; 4]);
    for p in positions {
        for c in p {
            mesh_body.extend_from_slice(&c.to_le_bytes());
        }
    }
    mesh_body.extend_from_slice(&3u32.to_le_bytes());
    mesh_body.extend_from_slice(&3u32.to_le_bytes());
    mesh_body.extend_from_slice(&0u32.to_le_bytes());
    mesh_body.extend_from_slice(&0u32.to_le_bytes());
    for i in [0u32, 1, 2] {
        mesh_body.extend_from_slice(&i.to_le_bytes());
    }

    let mut skin_body = Vec::new();
    skin_body.extend_from_slice(&0u32.to_le_bytes());
    skin_body.extend_from_slice(&[0u8; 4]);
    skin_body.extend_from_slice(&3u32.to_le_bytes());
    skin_body.extend_from_slice(&[0u8; 4]);
    for (weight, bone) in [(1.0f32, 5u16), (0.5, 3), (0.5, 7)] {
        skin_body.extend_from_slice(&weight.to_le_bytes());
        skin_body.extend_from_slice(&bone.to_le_bytes());
        skin_body.extend_from_slice(&[0u8; 2]);
    }
    for count in [1u32, 2, 0] {
        skin_body.extend_from_slice(&[0u8; 4]);
        skin_body.extend_from_slice(&count.to_le_bytes());
    }
    let mut sections = Vec::new();
    push_section(&mut sections, SECTION_MESH, &mesh_body);
    push_section(&mut sections, SECTION_SKIN, &skin_body);
    actor_with(&sections)
}

fn synthetic_xmac_with_collapsed_verts() -> Vec<u8> {
    let raw_positions: [[f32; 3]; 4] = [[1.0, 0.0, 0.0], [1.0, 0.0, 0.0], [2.0, 0.0, 0.0], [2.0, 0.0, 0.0]];
    let base_verts: [u32; 4] = [0, 0, 1, 1];
    let mut mesh_body = Vec::new();
    mesh_body.extend_from_slice(&0u32.to_le_bytes());
    mesh_body.extend_from_slice(&2u32.to_le_bytes());
    mesh_body.extend_from_slice(&4u32.to_le_bytes());
    mesh_body.extend_from_slice(&0u32.to_le_bytes());
    mesh_body.extend_from_slice(&[0u8; 4]);
    mesh_body.extend_from_slice(&2u32.to_le_bytes());
    mesh_body.extend_from_slice(&[0u8; 4]);
    mesh_body.extend_from_slice(&MESH_VERTICES.to_le_bytes());
    mesh_body.extend_from_slice(&12u32.to_le_bytes());
    mesh_body.extend_from_slice(&[0u8; 4]);
    for p in raw_positions {
        for c in p {
            mesh_body.extend_from_slice(&c.to_le_bytes());
        }
    }
    mesh_body.extend_from_slice(&MESH_BASEVERTS.to_le_bytes());
    mesh_body.extend_from_slice(&4u32.to_le_bytes());
    mesh_body.extend_from_slice(&[0u8; 4]);
    for v in base_verts {
        mesh_body.extend_from_slice(&v.to_le_bytes());
    }
    let mut skin_body = Vec::new();
    skin_body.extend_from_slice(&0u32.to_le_bytes());
    skin_body.extend_from_slice(&[0u8; 4]);
    skin_body.extend_from_slice(&2u32.to_le_bytes());
    skin_body.extend_from_slice(&[0u8; 4]);
    for (weight, bone) in [(1.0f32, 9u16), (1.0, 11)] {
        skin_body.extend_from_slice(&weight.to_le_bytes());
        skin_body.extend_from_slice(&bone.to_le_bytes());
        skin_body.extend_from_slice(&[0u8; 2]);
    }
    for count in [1u32, 1] {
        skin_body.extend_from_slice(&[0u8; 4]);
        skin_body.extend_from_slice(&count.to_le_bytes());
    }
    let mut sections = Vec::new();
    push_section(&mut sections, SECTION_MESH, &mesh_body);
    push_section(&mut sections, SECTION_SKIN, &skin_body);
    actor_with(&sections)
}

fn weights_of(row: &[(u32, u32)]) -> Vec<(u32, f32)> {
    row.iter().map(|&(b, w)| (b, f32::from_bits(w))).collect()
}

fn position(p: (u32, u32, u32)) -> [f32; 3] {
    [f32::from_bits(p.0), f32::from_bits(p.1), f32::from_bits(p.2)]
}

#[test]
fn skin_weights_index_by_final_vertex_not_raw_vertex() {
    let data = synthetic_xmac_with_collapsed_verts();
    let mesh = parse_skinned_mesh(&data).unwrap();
    assert_eq!(mesh.positions.len(), 2);
    assert_eq!(mesh.skin_weights.len(), 2);
    assert_eq!(weights_of(&mesh.skin_weights[0]), vec![(9, 1.0)]);
    assert_eq!(weights_of(&mesh.skin_weights[1]), vec![(11, 1.0)]);
    assert_eq!(position(mesh.positions[1]), [2.0, 0.0, 0.0]);
}

#[test]
fn parses_real_shaped_mesh_and_skin_as_plain_passthrough() {
    let data = synthetic_xmac_with_mesh_and_skin();
    let mesh = parse_skinned_mesh(&data).unwrap();
    assert_eq!(mesh.positions.len(), 3);
    assert_eq!(position(mesh.positions[0]), [0.0, 0.0, 0.0]);
    assert_eq!(position(mesh.positions[1]), [1.0, 0.0, 0.0]);
    assert_eq!(position(mesh.positions[2]), [0.0, 1.0, 0.0]);
    assert_eq!(mesh.faces, vec![(0, 1, 2)]);
    assert_eq!(weights_of(&mesh.skin_weights[0]), vec![(5, 1.0)]);
    assert_eq!(weights_of(&mesh.skin_weights[1]), vec![(3, 0.5), (7, 0.5)]);
    assert_eq!(weights_of(&mesh.skin_weights[2]), Vec::new());
    assert_eq!(mesh.normals, vec![(0, 0, 0); 3]);
    assert_eq!(mesh.uvs, vec![(0, 0); 3]);
}

#[test]
fn xmesh_skin_rejects_too_short_data() {
    assert!(parse_skinned_mesh(b"too short").is_err());
    assert_eq!(read_skinned_mesh(b"too short").unwrap().err(), Some(SkinError::TooShort(9)));
}

#[test]
fn big_endian_actors_are_refused_for_meshes() {
    let mut data = synthetic_xmac_with_mesh_and_skin();
    data[146] = 1;
    assert_eq!(parse_skinned_mesh(&data).err(), Some(SkinError::BigEndian));
    let mut data = synthetic_xmac_with_mesh_and_skin();
    data[141] = b'Z';
    assert_eq!(parse_skinned_mesh(&data).err(), Some(SkinError::MissingMagic));
}

#[test]
fn a_face_index_outside_the_vertex_table_cannot_be_read() {
    let mut mesh_body = Vec::new();
    for v in [0u32, 1, 1, 3] {
        mesh_body.extend_from_slice(&v.to_le_bytes());
    }
    mesh_body.extend_from_slice(&[0u8; 4]);
    mesh_body.extend_from_slice(&0u32.to_le_bytes());
    mesh_body.extend_from_slice(&[0u8; 4]);
    for v in [3u32, 1, 0, 0, 0, 0, 5] {
        mesh_body.extend_from_slice(&v.to_le_bytes());
    }
    let mut sections = Vec::new();
    push_section(&mut sections, SECTION_MESH, &mesh_body);
    let data = actor_with(&sections);
    assert!(read_skinned_mesh(&data).is_none());
}

#[test]
fn a_materials_section_is_walked_to_its_real_end() {
    let mut mat = Vec::new();
    mat.extend_from_slice(&1u32.to_le_bytes());
    mat.extend_from_slice(&[0u8; 8]);
    mat.extend_from_slice(&[0u8; 95]);
    mat.push(1);
    mat.extend_from_slice(&3u32.to_le_bytes());
    mat.extend_from_slice(b"abc");
    mat.extend_from_slice(&[0u8; 28]);
    mat.extend_from_slice(&2u32.to_le_bytes());
    mat.extend_from_slice(b"xy");
    let mut sections = Vec::new();
    sections.extend_from_slice(&13u32.to_le_bytes());
    sections.extend_from_slice(&0u32.to_le_bytes());
    sections.extend_from_slice(&1u32.to_le_bytes());
    sections.extend_from_slice(&mat);
    let real = synthetic_xmac_with_mesh_and_skin();
    sections.extend_from_slice(&real[148..]);
    let data = actor_with(&sections);
    let mesh = parse_skinned_mesh(&data).unwrap();
    assert_eq!(mesh.faces, vec![(0, 1, 2)]);
    assert_eq!(weights_of(&mesh.skin_weights[1]), vec![(3, 0.5), (7, 0.5)]);
}

#[test]
fn rejects_data_with_no_xsm_magic() {
    assert_eq!(motion_record_starts(b"not a motion clip at all", &vec!["Bone_ROOT".to_string()]), Err(XmotError::NotMotion));
}

fn synthetic_xmot(bones: &[(&str, usize)]) -> Vec<u8> {
    let mut buf = Vec::new();
    buf.extend_from_slice(b"some preamble bytes before the motion payload starts");
    buf.extend_from_slice(b"XSM ");
    buf.extend_from_slice(&[1, 1, 0, 0]);
    for (name, body_len) in bones {
        buf.extend_from_slice(&(name.len() as u32).to_le_bytes());
        buf.extend_from_slice(name.as_bytes());
        buf.extend(std::iter::repeat(0x3fu8).take(*body_len + 132));
    }
    buf
}

#[test]
fn bone_records_are_found_by_their_length_prefixed_names_in_any_order() {
    let data = synthetic_xmot(&[("Bone_Head", 16), ("Bone_ROOT", 0)]);
    let starts = motion_record_starts(&data, &vec!["Bone_ROOT".to_string(), "Bone_Head".to_string(), "Bone_Never".to_string()])
        .unwrap();
    let head = 52 + 8 + 4 + 9;
    let root = head + 16 + 132 + 4 + 9;
    assert_eq!(starts, vec![Some(root), Some(head), None]);
}

#[test]
fn a_name_without_its_length_prefix_is_not_a_match() {
    let mut data = b"XSM \x01\x01\x00\x00".to_vec();
    data.extend_from_slice(b"Bone_ROOT");
    data.extend_from_slice(&9u32.to_le_bytes());
    data.extend_from_slice(b"Bone_ROOT");
    assert_eq!(find_length_prefixed_name(&data, "Bone_ROOT", 8), Some(17));
    assert_eq!(find_length_prefixed_name(&data, "", 0), None);
    assert_eq!(find_length_prefixed_name(&data, "Bone_ROOT", 100), None);
}

fn archive_holding(path: &str, data: Vec<u8>) -> PakArchive {
    PakArchive::from_bytes(write_archive_from_dir(&vec![(path.to_string(), data)])).unwrap()
}

#[test]
fn actors_are_read_from_archive_entries() {
    let data = synthetic_xmac_with_mesh_and_skin();
    let archive = archive_holding("Actors/Wolf._xmac", data.clone());
    let entry = archive.files()[0].path.clone();
    let mesh = actor_skinned_mesh(&archive, &entry).unwrap();
    assert_eq!(mesh.faces, parse_skinned_mesh(&data).unwrap().faces);
    assert!(matches!(read_actor_skinned_mesh(&archive, &entry), Some(Ok(_))));
    assert_eq!(actor_skeleton(&archive, &entry).unwrap().len(), parse_skeleton(&data).unwrap().len());
}

#[test]
fn actor_errors_name_what_failed() {
    let archive = archive_holding("Actors/Broken._xmac", b"too short".to_vec());
    let entry = archive.files()[0].path.clone();
    assert_eq!(actor_skeleton(&archive, "/Actors/Missing._xmac").err(), Some(ActorError::EntryNotFound));
    assert_eq!(actor_skeleton(&archive, &entry).err(), Some(ActorError::Skeleton(XmacError::TooShort(9))));
    assert!(matches!(read_actor_skinned_mesh(&archive, &entry), Some(Err(ActorError::Mesh(SkinError::TooShort(9))))));
    assert!(matches!(read_actor_skinned_mesh(&archive, "/nope"), Some(Err(ActorError::EntryNotFound))));
}

#[test]
fn a_section_header_cut_short_names_the_missing_field() {
    let data = actor_with(&[1, 0, 0, 0]);
    assert!(matches!(read_skinned_mesh(&data), Some(Err(SkinError::EndOfFile(152)))));
}
