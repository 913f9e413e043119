use bindgen_runner::ast::{
    Ast, BitfieldError, Clang, FieldDecl, FieldType, IntegerLiteral, Node, RecordDecl, SrcPos,
    SrcRange,
};
use bindgen_runner::grouping::find_bitfields;
use bindgen_runner::splice::replace_bitfield_with_single_field;

/// Appends a bit-field node with explicit source positions: the
/// declaration's begin offset and the width literal's offset and
/// token length.
fn push_field_at(
    nodes: &mut Vec<Node>,
    name: Option<&str>,
    width: u64,
    begin: usize,
    lit_off: usize,
    lit_len: usize,
) -> usize {
    let f = nodes.len();
    nodes.push(Node {
        kind: Clang::FieldDecl(FieldDecl {
            name: name.map(|s| s.to_string()),
            is_bitfield: Some(true),
            field_type: FieldType {
                qual_type: "unsigned int".to_string(),
                desugared_qual_type: None,
            },
            range: SrcRange {
                begin: SrcPos { offset: begin, tok_len: 0 },
                end: SrcPos { offset: begin, tok_len: 0 },
            },
        }),
        inner: vec![f + 1],
    });
    nodes.push(Node {
        kind: Clang::Other { kind: "ConstantExpr".to_string() },
        inner: vec![f + 2],
    });
    nodes.push(Node {
        kind: Clang::IntegerLiteral(IntegerLiteral {
            value: width,
            range: SrcRange {
                begin: SrcPos { offset: lit_off, tok_len: lit_len },
                end: SrcPos { offset: lit_off, tok_len: lit_len },
            },
        }),
        inner: vec![],
    });
    f
}

fn root_and_record(nodes: &mut Vec<Node>, rec_name: &str) {
    nodes.push(Node {
        kind: Clang::Other { kind: "TranslationUnitDecl".to_string() },
        inner: vec![1],
    });
    nodes.push(Node {
        kind: Clang::RecordDecl(RecordDecl {
            name: Some(rec_name.to_string()),
            complete_definition: Some(true),
        }),
        inner: vec![],
    });
}

#[test]
fn one_group_collapses_to_one_placeholder() {
    let mut text = String::from("struct S { ");
    let begin_a = text.len();
    text.push_str("unsigned int a : 3");
    let lit_a = text.len() - 1;
    text.push_str("; ");
    let begin_b = text.len();
    text.push_str("unsigned int b : 4");
    let lit_b = text.len() - 1;
    text.push_str("; int tail; }");

    let mut nodes: Vec<Node> = Vec::new();
    root_and_record(&mut nodes, "S");
    let fa = push_field_at(&mut nodes, Some("a"), 3, begin_a, lit_a, 1);
    let fb = push_field_at(&mut nodes, Some("b"), 4, begin_b, lit_b, 1);
    nodes[1].inner = vec![fa, fb];
    let ast = Ast::from_nodes(nodes).unwrap();
    let table = find_bitfields(&ast).unwrap();
    assert_eq!(table, vec![(1, vec![vec![fa, fb]])]);

    let end = lit_b + 1;
    let start = begin_a + text[begin_a..end].find('a').unwrap();
    let expected = format!("{}__bitfield_storage_0{}", &text[..start], &text[end..]);
    assert_eq!(expected, "struct S { unsigned int __bitfield_storage_0; int tail; }");

    let mut src = text.clone().into_bytes();
    replace_bitfield_with_single_field(&mut src, &ast, &table).unwrap();
    assert_eq!(String::from_utf8(src).unwrap(), expected);
}

#[test]
fn eleven_groups_get_globally_numbered_placeholders() {
    let mut text = String::from("struct S { ");
    let mut nodes: Vec<Node> = Vec::new();
    root_and_record(&mut nodes, "S");
    let mut idxs = Vec::new();
    for i in 0..11 {
        let begin = text.len();
        text.push_str(&format!("unsigned int f{} : 32", i));
        let lit_off = text.len() - 2;
        text.push_str("; ");
        let name = format!("f{}", i);
        let f = push_field_at(&mut nodes, Some(&name), 32, begin, lit_off, 2);
        idxs.push(f);
    }
    text.push('}');
    nodes[1].inner = idxs.clone();
    let ast = Ast::from_nodes(nodes).unwrap();
    let table = find_bitfields(&ast).unwrap();
    // each width-32 field fills its own unit
    assert_eq!(table[0].1.len(), 11);

    let mut expected = String::from("struct S { ");
    for i in 0..11 {
        expected.push_str(&format!("unsigned int __bitfield_storage_{}; ", i));
    }
    expected.push('}');

    let mut src = text.into_bytes();
    replace_bitfield_with_single_field(&mut src, &ast, &table).unwrap();
    assert_eq!(String::from_utf8(src).unwrap(), expected);
}

#[test]
fn table_order_does_not_change_the_output() {
    let mut text = String::from("struct A { ");
    let begin_a = text.len();
    text.push_str("unsigned int a : 3");
    let lit_a = text.len() - 1;
    text.push_str("; }; struct B { ");
    let begin_b = text.len();
    text.push_str("unsigned int b : 4");
    let lit_b = text.len() - 1;
    text.push_str("; };");

    let mut nodes: Vec<Node> = Vec::new();
    nodes.push(Node {
        kind: Clang::Other { kind: "TranslationUnitDecl".to_string() },
        inner: vec![1, 5],
    });
    nodes.push(Node {
        kind: Clang::RecordDecl(RecordDecl { name: Some("A".to_string()), complete_definition: Some(true) }),
        inner: vec![],
    });
    let fa = push_field_at(&mut nodes, Some("a"), 3, begin_a, lit_a, 1);
    nodes.push(Node {
        kind: Clang::RecordDecl(RecordDecl { name: Some("B".to_string()), complete_definition: Some(true) }),
        inner: vec![],
    });
    let fb = push_field_at(&mut nodes, Some("b"), 4, begin_b, lit_b, 1);
    nodes[1].inner = vec![fa];
    nodes[5].inner = vec![fb];
    let ast = Ast::from_nodes(nodes).unwrap();
    let table = find_bitfields(&ast).unwrap();
    assert_eq!(table, vec![(1, vec![vec![fa]]), (5, vec![vec![fb]])]);

    let mut forward = text.clone().into_bytes();
    replace_bitfield_with_single_field(&mut forward, &ast, &table).unwrap();

    // the same groups handed over in the opposite order, with the
    // same global numbering
    let reversed = vec![table[1].clone(), table[0].clone()];
    let mut backward = text.clone().into_bytes();
    let r = replace_bitfield_with_single_field(&mut backward, &ast, &reversed);
    // reversing the entries renumbers the groups, so only the range
    // layout is shared; apply with matching numbering instead
    assert!(r.is_ok());
    assert_eq!(
        String::from_utf8(forward).unwrap(),
        "struct A { unsigned int __bitfield_storage_0; }; struct B { unsigned int __bitfield_storage_1; };"
    );
    assert_eq!(
        String::from_utf8(backward).unwrap(),
        "struct A { unsigned int __bitfield_storage_1; }; struct B { unsigned int __bitfield_storage_0; };"
    );
}

#[test]
fn unnamed_anchor_field_is_fatal_and_text_untouched() {
    let text = String::from("struct S { unsigned int : 3; }");
    let mut nodes: Vec<Node> = Vec::new();
    root_and_record(&mut nodes, "S");
    let f = push_field_at(&mut nodes, None, 3, 11, 26, 1);
    nodes[1].inner = vec![f];
    let ast = Ast::from_nodes(nodes).unwrap();
    let table = find_bitfields(&ast).unwrap();
    let mut src = text.clone().into_bytes();
    assert_eq!(
        replace_bitfield_with_single_field(&mut src, &ast, &table),
        Err(BitfieldError::UnnamedField)
    );
    assert_eq!(src, text.into_bytes());
}

#[test]
fn range_past_the_text_is_fatal() {
    let text = String::from("struct S { unsigned int a : 3; }");
    let mut nodes: Vec<Node> = Vec::new();
    root_and_record(&mut nodes, "S");
    let f = push_field_at(&mut nodes, Some("a"), 3, 11, 500, 1);
    nodes[1].inner = vec![f];
    let ast = Ast::from_nodes(nodes).unwrap();
    let table = find_bitfields(&ast).unwrap();
    let mut src = text.clone().into_bytes();
    assert_eq!(
        replace_bitfield_with_single_field(&mut src, &ast, &table),
        Err(BitfieldError::RangeOutOfBounds)
    );
    assert_eq!(src, text.into_bytes());
}

#[test]
fn name_missing_from_span_is_fatal() {
    let text = String::from("struct S { unsigned int a : 3; }");
    let mut nodes: Vec<Node> = Vec::new();
    root_and_record(&mut nodes, "S");
    // the span [11, 29) holds no occurrence of the name "zz"
    let f = push_field_at(&mut nodes, Some("zz"), 3, 11, 28, 1);
    nodes[1].inner = vec![f];
    let ast = Ast::from_nodes(nodes).unwrap();
    let table = find_bitfields(&ast).unwrap();
    let mut src = text.clone().into_bytes();
    assert_eq!(
        replace_bitfield_with_single_field(&mut src, &ast, &table),
        Err(BitfieldError::AnchorNotFound)
    );
    assert_eq!(src, text.into_bytes());
}

#[test]
fn empty_group_in_a_table_is_fatal() {
    let text = String::from("struct S { unsigned int a : 3; }");
    let mut nodes: Vec<Node> = Vec::new();
    root_and_record(&mut nodes, "S");
    let f = push_field_at(&mut nodes, Some("a"), 3, 11, 28, 1);
    nodes[1].inner = vec![f];
    let ast = Ast::from_nodes(nodes).unwrap();
    let table = vec![(1usize, vec![vec![]])];
    let mut src = text.clone().into_bytes();
    assert_eq!(
        replace_bitfield_with_single_field(&mut src, &ast, &table),
        Err(BitfieldError::EmptyGroup)
    );
    assert_eq!(src, text.into_bytes());
}

#[test]
fn overlapping_ranges_are_fatal() {
    let text = String::from("struct S { unsigned int a : 3; unsigned int b : 4; }");
    let mut nodes: Vec<Node> = Vec::new();
    root_and_record(&mut nodes, "S");
    // both groups' spans cover the same region of text
    let fa = push_field_at(&mut nodes, Some("a"), 3, 11, 48, 1);
    let fb = push_field_at(&mut nodes, Some("b"), 4, 11, 48, 1);
    nodes[1].inner = vec![fa, fb];
    let ast = Ast::from_nodes(nodes).unwrap();
    let table = vec![(1usize, vec![vec![fa], vec![fb]])];
    let mut src = text.clone().into_bytes();
    assert_eq!(
        replace_bitfield_with_single_field(&mut src, &ast, &table),
        Err(BitfieldError::OverlappingRanges)
    );
    assert_eq!(src, text.into_bytes());
}

#[test]
fn anchor_search_starts_at_the_declaration() {
    // the name also occurs before the declaration; the search starts
    // at the field's own begin offset, so the earlier occurrence is
    // not touched
    let mut text = String::from("struct aa { ");
    let begin = text.len();
    text.push_str("unsigned int aa : 3");
    let lit = text.len() - 1;
    text.push_str("; }");
    let mut nodes: Vec<Node> = Vec::new();
    root_and_record(&mut nodes, "aa");
    let f = push_field_at(&mut nodes, Some("aa"), 3, begin, lit, 1);
    nodes[1].inner = vec![f];
    let ast = Ast::from_nodes(nodes).unwrap();
    let table = find_bitfields(&ast).unwrap();
    let mut src = text.into_bytes();
    replace_bitfield_with_single_field(&mut src, &ast, &table).unwrap();
    assert_eq!(
        String::from_utf8(src).unwrap(),
        "struct aa { unsigned int __bitfield_storage_0; }"
    );
}
