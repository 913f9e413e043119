use bindgen_runner::ast::{
    Ast, BitfieldError, Clang, FieldDecl, FieldType, IntegerLiteral, Node, RecordDecl, SrcPos,
    SrcRange,
};
use bindgen_runner::driver::{reconcile, StructDecl};
use bindgen_runner::grouping::find_bitfields;
use bindgen_runner::info::get_bitfield_info;

fn zero_range() -> SrcRange {
    SrcRange {
        begin: SrcPos { offset: 0, tok_len: 0 },
        end: SrcPos { offset: 0, tok_len: 0 },
    }
}

/// Appends a field node (and, for a bit-field with a width, its
/// width-expression wrapper and integer literal) and returns the field
/// node's index.
fn push_field(
    nodes: &mut Vec<Node>,
    name: Option<&str>,
    bitfield: Option<bool>,
    qual: &str,
    desugared: Option<&str>,
    width: Option<u64>,
) -> usize {
    let f = nodes.len();
    let inner = match width {
        Some(_) => vec![f + 1],
        None => vec![],
    };
    nodes.push(Node {
        kind: Clang::FieldDecl(FieldDecl {
            name: name.map(|s| s.to_string()),
            is_bitfield: bitfield,
            field_type: FieldType {
                qual_type: qual.to_string(),
                desugared_qual_type: desugared.map(|s| s.to_string()),
            },
            range: zero_range(),
        }),
        inner,
    });
    if let Some(w) = width {
        nodes.push(Node {
            kind: Clang::Other { kind: "ConstantExpr".to_string() },
            inner: vec![f + 2],
        });
        nodes.push(Node {
            kind: Clang::IntegerLiteral(IntegerLiteral { value: w, range: zero_range() }),
            inner: vec![],
        });
    }
    f
}

/// Builds a tree holding one named record whose fields are given as
/// (name, is_bitfield, width); bit-fields get `unsigned int` storage.
fn record_ast(rec_name: Option<&str>, fields: &[(Option<&str>, bool, u64)]) -> (Ast, usize, Vec<usize>) {
    let mut nodes: Vec<Node> = Vec::new();
    nodes.push(Node { kind: Clang::Other { kind: "TranslationUnitDecl".to_string() }, inner: vec![1] });
    nodes.push(Node {
        kind: Clang::RecordDecl(RecordDecl {
            name: rec_name.map(|s| s.to_string()),
            complete_definition: Some(true),
        }),
        inner: vec![],
    });
    let mut idxs = Vec::new();
    for (name, bf, w) in fields {
        let fi = if *bf {
            push_field(&mut nodes, *name, Some(true), "unsigned int", None, Some(*w))
        } else {
            push_field(&mut nodes, *name, None, "int", None, None)
        };
        idxs.push(fi);
    }
    nodes[1].inner = idxs.clone();
    let ast = Ast::from_nodes(nodes).expect("well-formed arena");
    (ast, 1, idxs)
}

#[test]
fn greedy_packing_scenario() {
    // widths 3, 30, 1, 0, 5: 3 fits; 30 overflows -> cut before it;
    // 1 fits after 30; 0 forces a cut and is itself excluded; 5 opens
    // the last group.
    let (ast, rec, f) = record_ast(
        Some("S"),
        &[
            (Some("a"), true, 3),
            (Some("b"), true, 30),
            (Some("c"), true, 1),
            (Some("d"), true, 0),
            (Some("e"), true, 5),
        ],
    );
    let table = find_bitfields(&ast).unwrap();
    assert_eq!(table, vec![(rec, vec![vec![f[0]], vec![f[1], f[2]], vec![f[4]]])]);
}

#[test]
fn non_bitfield_interleave() {
    let (ast, rec, f) = record_ast(
        Some("S"),
        &[(Some("x"), true, 4), (Some("y"), false, 0), (Some("z"), true, 4)],
    );
    let table = find_bitfields(&ast).unwrap();
    assert_eq!(table, vec![(rec, vec![vec![f[0]], vec![f[2]]])]);
}

#[test]
fn width_over_32_is_fatal() {
    let (ast, _, _) = record_ast(Some("S"), &[(Some("a"), true, 33)]);
    assert_eq!(find_bitfields(&ast), Err(BitfieldError::WidthTooLarge));
}

#[test]
fn width_exactly_32_fills_one_unit() {
    let (ast, rec, f) = record_ast(Some("S"), &[(Some("a"), true, 32), (Some("b"), true, 1)]);
    let table = find_bitfields(&ast).unwrap();
    assert_eq!(table, vec![(rec, vec![vec![f[0]], vec![f[1]]])]);
}

#[test]
fn zero_width_without_open_group_is_fatal() {
    let (ast, _, _) = record_ast(Some("S"), &[(Some("a"), true, 0)]);
    assert_eq!(find_bitfields(&ast), Err(BitfieldError::ZeroWidthWithoutGroup));
}

#[test]
fn zero_width_after_non_bitfield_is_fatal() {
    let (ast, _, _) = record_ast(
        Some("S"),
        &[(Some("a"), true, 1), (Some("y"), false, 0), (Some("b"), true, 0)],
    );
    assert_eq!(find_bitfields(&ast), Err(BitfieldError::ZeroWidthWithoutGroup));
}

#[test]
fn storage_type_must_be_unsigned_int() {
    let mut nodes: Vec<Node> = Vec::new();
    nodes.push(Node { kind: Clang::Other { kind: "TranslationUnitDecl".to_string() }, inner: vec![1] });
    nodes.push(Node {
        kind: Clang::RecordDecl(RecordDecl { name: Some("S".to_string()), complete_definition: Some(true) }),
        inner: vec![],
    });
    let f = push_field(&mut nodes, Some("a"), Some(true), "int", None, Some(1));
    nodes[1].inner = vec![f];
    let ast = Ast::from_nodes(nodes).unwrap();
    assert_eq!(find_bitfields(&ast), Err(BitfieldError::StorageTypeNotU32));
}

#[test]
fn desugared_storage_type_is_accepted() {
    let mut nodes: Vec<Node> = Vec::new();
    nodes.push(Node { kind: Clang::Other { kind: "TranslationUnitDecl".to_string() }, inner: vec![1] });
    nodes.push(Node {
        kind: Clang::RecordDecl(RecordDecl { name: Some("S".to_string()), complete_definition: Some(true) }),
        inner: vec![],
    });
    let f = push_field(&mut nodes, Some("a"), Some(true), "VkFlags", Some("unsigned int"), Some(2));
    nodes[1].inner = vec![f];
    let ast = Ast::from_nodes(nodes).unwrap();
    let table = find_bitfields(&ast).unwrap();
    assert_eq!(table, vec![(1, vec![vec![f]])]);
}

#[test]
fn bitfield_without_width_literal_is_fatal() {
    let mut nodes: Vec<Node> = Vec::new();
    nodes.push(Node { kind: Clang::Other { kind: "TranslationUnitDecl".to_string() }, inner: vec![1] });
    nodes.push(Node {
        kind: Clang::RecordDecl(RecordDecl { name: Some("S".to_string()), complete_definition: Some(true) }),
        inner: vec![],
    });
    let f = push_field(&mut nodes, Some("a"), Some(true), "unsigned int", None, None);
    nodes[1].inner = vec![f];
    let ast = Ast::from_nodes(nodes).unwrap();
    assert_eq!(find_bitfields(&ast), Err(BitfieldError::MissingWidth));
}

#[test]
fn record_without_bitfields_is_absent() {
    let (ast, _, _) = record_ast(Some("S"), &[(Some("y"), false, 0)]);
    assert_eq!(find_bitfields(&ast), Ok(vec![]));
}

#[test]
fn empty_tree_has_empty_table() {
    let ast = Ast::from_nodes(vec![]).unwrap();
    assert_eq!(find_bitfields(&ast), Ok(vec![]));
}

#[test]
fn nested_record_is_walked() {
    // outer record holds a bit-field and a nested record that holds
    // its own bit-field; both get entries.
    let mut nodes: Vec<Node> = Vec::new();
    nodes.push(Node { kind: Clang::Other { kind: "TranslationUnitDecl".to_string() }, inner: vec![1] });
    nodes.push(Node {
        kind: Clang::RecordDecl(RecordDecl { name: Some("Outer".to_string()), complete_definition: Some(true) }),
        inner: vec![],
    });
    let fo = push_field(&mut nodes, Some("a"), Some(true), "unsigned int", None, Some(1));
    let inner_rec = nodes.len();
    nodes.push(Node {
        kind: Clang::RecordDecl(RecordDecl { name: Some("Inner".to_string()), complete_definition: Some(true) }),
        inner: vec![],
    });
    let fi = push_field(&mut nodes, Some("b"), Some(true), "unsigned int", None, Some(2));
    nodes[1].inner = vec![fo, inner_rec];
    nodes[inner_rec].inner = vec![fi];
    let ast = Ast::from_nodes(nodes).unwrap();
    let table = find_bitfields(&ast).unwrap();
    assert_eq!(table, vec![(1, vec![vec![fo]]), (inner_rec, vec![vec![fi]])]);
}

#[test]
fn arena_with_backward_child_is_rejected() {
    let nodes = vec![Node { kind: Clang::Other { kind: "TranslationUnitDecl".to_string() }, inner: vec![0] }];
    assert!(Ast::from_nodes(nodes).is_none());
}

#[test]
fn arena_with_out_of_range_child_is_rejected() {
    let nodes = vec![Node { kind: Clang::Other { kind: "TranslationUnitDecl".to_string() }, inner: vec![7] }];
    assert!(Ast::from_nodes(nodes).is_none());
}

#[test]
fn info_records_names_and_widths_in_order() {
    let (ast, _, _) = record_ast(
        Some("S"),
        &[
            (Some("a"), true, 3),
            (Some("b"), true, 30),
            (Some("c"), true, 1),
            (Some("d"), true, 0),
            (Some("e"), true, 5),
        ],
    );
    let table = find_bitfields(&ast).unwrap();
    let info = get_bitfield_info(&ast, &table).unwrap();
    assert_eq!(
        info,
        vec![(
            "S".to_string(),
            vec![
                vec![("a".to_string(), 3)],
                vec![("b".to_string(), 30), ("c".to_string(), 1)],
                vec![("e".to_string(), 5)],
            ],
        )]
    );
}

#[test]
fn round_trip_recovers_recorded_groups() {
    let (ast, _, _) = record_ast(
        Some("S"),
        &[(Some("a"), true, 3), (Some("b"), true, 30), (Some("c"), true, 1)],
    );
    let table = find_bitfields(&ast).unwrap();
    let info = get_bitfield_info(&ast, &table).unwrap();
    // the regenerated declaration carries the record's name and its
    // placeholder fields; matching by name recovers the same names
    // and widths, in the same group order, as the extraction
    let decls = vec![StructDecl {
        name: "S".to_string(),
        fields: vec!["__bitfield_storage_0".to_string(), "__bitfield_storage_1".to_string()],
    }];
    let pairs = reconcile(decls, info.clone()).unwrap();
    assert_eq!(pairs.len(), 1);
    assert_eq!(pairs[0].0.name, "S");
    assert_eq!(pairs[0].1, info[0].1);
    assert_eq!(
        pairs[0].1,
        vec![
            vec![("a".to_string(), 3)],
            vec![("b".to_string(), 30), ("c".to_string(), 1)],
        ]
    );
}

#[test]
fn info_rejects_unnamed_record() {
    let (ast, _, _) = record_ast(None, &[(Some("a"), true, 3)]);
    let table = find_bitfields(&ast).unwrap();
    assert_eq!(get_bitfield_info(&ast, &table), Err(BitfieldError::UnnamedRecord));
}

#[test]
fn info_rejects_unnamed_member() {
    let (ast, _, _) = record_ast(Some("S"), &[(None, true, 3)]);
    let table = find_bitfields(&ast).unwrap();
    assert_eq!(get_bitfield_info(&ast, &table), Err(BitfieldError::UnnamedField));
}
