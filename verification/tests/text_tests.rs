use risenlab::content::{actor_to_obj, material_dump, mesh_to_obj, obj_to_mesh};
use risenlab::le::{push_u32, push_u64, read_u16_at, read_u32_at, read_u64_at, set_u32_at, set_u64_at};
use risenlab::order::{sort_strings, text_less};
use risenlab::text::{ascii_lowercase, split_at_char, str_equal};

#[test]
fn strings_sort_by_code_point_with_prefixes_first() {
    let v = vec!["b".to_string(), "a".to_string(), "ab".to_string(), "B".to_string(), "a".to_string()];
    assert_eq!(sort_strings(v), vec!["B", "a", "a", "ab", "b"]);
    assert!(text_less("a", "ab"));
    assert!(!text_less("ab", "ab"));
    assert!(text_less("Z", "a"));
}

#[test]
fn splitting_keeps_empty_pieces() {
    assert_eq!(split_at_char("a&&b&", '&'), vec!["a", "", "b", ""]);
    assert_eq!(split_at_char("", '&'), vec![""]);
}

#[test]
fn ascii_lowercase_leaves_other_characters_alone() {
    assert_eq!(ascii_lowercase("AbC_\u{c9}"), "abc_\u{c9}");
    assert!(str_equal("x", "x"));
    assert!(!str_equal("x", "X"));
}

#[test]
fn helper_argument_lists_start_with_the_command_word() {
    assert_eq!(mesh_to_obj("in.xmsh", "out.obj"), vec!["mesh-to-obj", "in.xmsh", "out.obj"]);
    assert_eq!(actor_to_obj("a", "b"), vec!["actor-to-obj", "a", "b"]);
    assert_eq!(obj_to_mesh("a", "b"), vec!["obj-to-mesh", "a", "b"]);
    assert_eq!(material_dump("a", "b"), vec!["material-dump", "a", "b"]);
}

#[test]
fn little_endian_fields_round_trip() {
    let mut v = Vec::new();
    push_u32(&mut v, 0x0102_0304);
    push_u64(&mut v, 0x1122_3344_5566_7788);
    assert_eq!(v[0], 0x04);
    assert_eq!(read_u32_at(&v, 0), Some(0x0102_0304));
    assert_eq!(read_u16_at(&v, 0), Some(0x0304));
    assert_eq!(read_u64_at(&v, 4), Some(0x1122_3344_5566_7788));
    assert_eq!(read_u64_at(&v, 5), None);
    set_u32_at(&mut v, 0, 7);
    set_u64_at(&mut v, 4, 9);
    assert_eq!(read_u32_at(&v, 0), Some(7));
    assert_eq!(read_u64_at(&v, 4), Some(9));
    assert_eq!(v.len(), 12);
}
