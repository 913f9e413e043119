use bindgen_runner::ast::BitfieldError;
use bindgen_runner::driver::{allowlist_pattern, reconcile, StructDecl};
use bindgen_runner::guards::preprocess_guards;
use bindgen_runner::platform::Platform;

fn decl(name: &str, fields: &[&str]) -> StructDecl {
    StructDecl {
        name: name.to_string(),
        fields: fields.iter().map(|f| f.to_string()).collect(),
    }
}

fn entry(name: &str, groups: &[&[(&str, u64)]]) -> (String, Vec<Vec<(String, u64)>>) {
    (
        name.to_string(),
        groups
            .iter()
            .map(|g| g.iter().map(|(n, w)| (n.to_string(), *w)).collect())
            .collect(),
    )
}

#[test]
fn reconcile_pairs_each_decl_with_its_entry() {
    let decls = vec![decl("A", &["__bitfield_storage_0"]), decl("B", &["x"])];
    let info = vec![
        entry("B", &[&[("b", 4)]]),
        entry("A", &[&[("a", 3)], &[("c", 5)]]),
    ];
    let pairs = reconcile(decls, info).unwrap();
    assert_eq!(pairs.len(), 2);
    assert_eq!(pairs[0].0.name, "A");
    assert_eq!(
        pairs[0].1,
        vec![vec![("a".to_string(), 3)], vec![("c".to_string(), 5)]]
    );
    assert_eq!(pairs[1].0.name, "B");
    assert_eq!(pairs[1].1, vec![vec![("b".to_string(), 4)]]);
}

#[test]
fn reconcile_missing_entry_is_fatal() {
    let decls = vec![decl("A", &[])];
    let info = vec![entry("B", &[&[("b", 4)]])];
    assert_eq!(reconcile(decls, info).unwrap_err(), BitfieldError::MissingInfo);
}

#[test]
fn reconcile_leftover_entry_is_fatal() {
    let decls = vec![decl("A", &[])];
    let info = vec![entry("A", &[&[("a", 1)]]), entry("B", &[&[("b", 4)]])];
    assert_eq!(reconcile(decls, info).unwrap_err(), BitfieldError::UnmatchedInfo);
}

#[test]
fn reconcile_empty_is_empty() {
    let pairs = reconcile(vec![], vec![]).unwrap();
    assert_eq!(pairs.len(), 0);
}

#[test]
fn allowlist_joins_names_with_pipes() {
    assert_eq!(allowlist_pattern(&vec![]), "");
    assert_eq!(allowlist_pattern(&vec![entry("A", &[])]), "A");
    assert_eq!(
        allowlist_pattern(&vec![
        entry("VkA", &[]),
        entry("VkB", &[]),
        entry("VkC", &[]),
    ]),
        "VkA|VkB|VkC"
    );
}

#[test]
fn guards_are_collected_from_marker_lines() {
    let pre = "\
# 1 \"vulkan.h\"\n\
/* VK_KHR_surface is a preprocessor guard */\n\
typedef unsigned int VkFlags;\n\
/* vulkan_core is a preprocessor guard, honest */\n\
VK_NO_MARKER_ON_THIS_LINE\n";
    let words = preprocess_guards(pre);
    assert_eq!(
        words,
        vec!["VK_KHR_surface".to_string(), "vulkan_core".to_string()]
    );
}

#[test]
fn guards_ignore_text_without_marker() {
    assert_eq!(preprocess_guards(""), Vec::<String>::new());
    assert_eq!(preprocess_guards("VK_A VK_B\nvulkan_x\n"), Vec::<String>::new());
}

#[test]
fn guards_strip_carriage_returns() {
    let pre = "VK_A is a preprocessor guard\r\nVK_B is a preprocessor guard";
    assert_eq!(
        preprocess_guards(pre),
        vec!["VK_A".to_string(), "VK_B".to_string()]
    );
}

#[test]
fn guards_take_every_matching_word_of_a_line() {
    let pre = "x VK_A vulkan_b is a preprocessor guard VK_C\n";
    assert_eq!(
        preprocess_guards(pre),
        vec!["VK_A".to_string(), "vulkan_b".to_string(), "VK_C".to_string()]
    );
}

#[test]
fn mod_name_replaces_dashes() {
    let p = Platform {
        triplet: "x86_64-unknown-linux-gnu",
        cfg: "all(target_arch = \"x86_64\", unix)",
    };
    assert_eq!(p.mod_name(), "x86_64_unknown_linux_gnu");
}

#[test]
fn typical_platforms_are_six() {
    let v = Platform::typical();
    assert_eq!(v.len(), 6);
    assert_eq!(v[0].triplet, "x86_64-unknown-linux-gnu");
    assert_eq!(Platform::win64().triplet, "x86_64-pc-windows-msvc");
    assert_eq!(v[5].mod_name(), "aarch64_linux_android");
}
