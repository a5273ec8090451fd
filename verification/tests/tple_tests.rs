use risenlab::tple::scan_script_bindings;

fn token_stream(names: &[&str]) -> Vec<u8> {
    let mut data = Vec::new();
    for n in names {
        data.extend_from_slice(&(n.len() as u16).to_le_bytes());
        data.extend_from_slice(n.as_bytes());
    }
    data
}

#[test]
fn bound_hook_reports_its_real_value() {
    let data = token_stream(&[
        "InteractScript",
        "Interact_Player_TakeItem",
        "PostInteractScript",
        "InventoryUse_Player_ConsumeBread",
        "CanInteract_Magic_Item",
    ]);
    let found = scan_script_bindings(&data);
    assert_eq!(found.len(), 2);
    assert_eq!(found[0].property, "InteractScript");
    assert_eq!(found[0].bound_value.as_deref(), Some("Interact_Player_TakeItem"));
    assert_eq!(found[1].property, "PostInteractScript");
    assert_eq!(found[1].bound_value.as_deref(), Some("InventoryUse_Player_ConsumeBread"));
}

#[test]
fn unbound_hook_followed_by_schema_field_reports_none() {
    let data = token_stream(&[
        "CanInteractScript",
        "bTPropertyContainer<enum gEInteractionType>",
        "PreInteractScript",
    ]);
    let found = scan_script_bindings(&data);
    assert_eq!(found.len(), 2);
    assert_eq!(found[0].bound_value, None);
    assert_eq!(found[1].bound_value, None);
}

#[test]
fn flutes_real_suspicious_binding_is_reported_as_a_value_not_hidden() {
    let data = token_stream(&[
        "PostInteractScript",
        "PreInventoryUse_Player",
        "InventoryUse_Player",
        "CanInteract_Magic_Item",
    ]);
    let found = scan_script_bindings(&data);
    assert_eq!(found.len(), 1);
    assert_eq!(found[0].bound_value.as_deref(), Some("PreInventoryUse_Player"));
}

#[test]
fn unbound_hook_followed_by_its_own_bare_type_name_reports_none() {
    let data = token_stream(&["PreInteractScript", "gCScriptProxyAIFunction", "InteractScript"]);
    let found = scan_script_bindings(&data);
    assert_eq!(found.len(), 2);
    assert_eq!(found[0].property, "PreInteractScript");
    assert_eq!(found[0].bound_value, None);
}

#[test]
fn no_hooks_present_returns_empty() {
    let data = token_stream(&["Amount", "GoldValue"]);
    assert!(scan_script_bindings(&data).is_empty());
}

#[test]
fn tokens_are_found_between_unrelated_bytes() {
    let mut data = vec![0u8, 0xff, 3];
    data.extend(token_stream(&["InteractScript", "Interact_Door"]));
    data.extend_from_slice(&[9, 9, 9]);
    let found = scan_script_bindings(&data);
    assert_eq!(found.len(), 1);
    assert_eq!(found[0].bound_value.as_deref(), Some("Interact_Door"));
}

#[test]
fn empty_or_truncated_data_has_no_bindings() {
    assert!(scan_script_bindings(&[]).is_empty());
    let mut data = token_stream(&["InteractScript"]);
    data.truncate(data.len() - 1);
    assert!(scan_script_bindings(&data).is_empty());
}
