use pdl_scope::scope::{
    decl_scope, Constraint, Decl, DeclKind, Diagnostic, Field, FieldDesc, File, PacketScope,
    Scope, SourceRange, BODY_ID, PAYLOAD_ID,
};

fn loc(n: usize) -> SourceRange {
    SourceRange { start: n, end: n + 1 }
}

fn field(id: Option<u64>, desc: FieldDesc, n: usize) -> Field {
    Field { id, desc, loc: loc(n) }
}

fn scalar(id: u64, n: usize) -> Field {
    field(Some(id), FieldDesc::Scalar, n)
}

fn group(id: u64, n: usize) -> Field {
    field(None, FieldDesc::Group { group_id: id, constraints: 0 }, n)
}

fn decl(id: u64, kind: DeclKind, parent_id: Option<u64>, fields: Vec<Field>, n: usize) -> Decl {
    Decl {
        id: Some(id),
        kind,
        parent_id,
        fields,
        constraints: vec![],
        group_constraints: vec![vec![]],
        loc: loc(n),
    }
}

fn scope_of(named: Vec<Field>, fields: Vec<Field>) -> PacketScope {
    PacketScope {
        named,
        fields,
        constraints: vec![],
        all_fields: vec![],
        all_constraints: vec![],
    }
}

fn diagnostics(decls: Vec<Decl>) -> Vec<Diagnostic> {
    match Scope::new(File { declarations: decls }) {
        Ok(_) => vec![],
        Err(d) => d.diagnostics,
    }
}

#[test]
fn payload_field_is_first_of_its_kind() {
    let sc = scope_of(
        vec![],
        vec![scalar(10, 1), field(None, FieldDesc::Body, 2), field(None, FieldDesc::Payload, 3)],
    );
    assert_eq!(sc.get_payload_field(), Some(field(None, FieldDesc::Body, 2)));
    assert_eq!(sc.get_packet_field(PAYLOAD_ID), Some(field(None, FieldDesc::Body, 2)));
    assert_eq!(sc.get_packet_field(BODY_ID), Some(field(None, FieldDesc::Body, 2)));
    assert_eq!(sc.get_packet_field(42), None);
}

#[test]
fn named_field_lookup() {
    let x = scalar(10, 1);
    let sc = scope_of(vec![x], vec![x]);
    assert_eq!(sc.get_packet_field(10), Some(x));
    assert_eq!(sc.get_packet_field(11), None);
}

#[test]
fn size_field_lookups() {
    let sz = field(None, FieldDesc::Size { field_id: 20 }, 1);
    let cnt = field(None, FieldDesc::Count { field_id: 21 }, 2);
    let psz = field(None, FieldDesc::Size { field_id: PAYLOAD_ID }, 3);
    let sc = scope_of(vec![], vec![sz, cnt, psz]);
    assert_eq!(sc.get_array_size_field(20), Some(sz));
    assert_eq!(sc.get_array_size_field(21), Some(cnt));
    assert_eq!(sc.get_array_size_field(22), None);
    assert_eq!(sc.get_payload_size_field(), Some(psz));
    let empty = scope_of(vec![], vec![]);
    assert_eq!(empty.get_payload_size_field(), None);
    assert_eq!(empty.get_payload_field(), None);
}

#[test]
fn decl_scope_keeps_last_of_equal_local_names() {
    let d = decl(
        5,
        DeclKind::Packet,
        None,
        vec![scalar(10, 1), field(None, FieldDesc::Other, 2), scalar(10, 3)],
        0,
    );
    let sc = decl_scope(&d).unwrap();
    assert_eq!(sc.named, vec![scalar(10, 3)]);
    assert_eq!(sc.get_packet_field(10), Some(scalar(10, 3)));
    assert!(sc.fields.is_empty());
    let e = decl(6, DeclKind::Enum, None, vec![], 0);
    assert!(decl_scope(&e).is_none());
}

#[test]
fn redeclared_identifier_reports_second_against_first() {
    let d = diagnostics(vec![
        decl(7, DeclKind::Packet, None, vec![], 1),
        decl(7, DeclKind::Packet, None, vec![], 2),
    ]);
    assert_eq!(
        d,
        vec![Diagnostic::Redeclared { id: 7, kind: DeclKind::Packet, loc: loc(2), prev: loc(1) }]
    );
}

#[test]
fn one_diagnostic_per_extra_occurrence() {
    let d = diagnostics(vec![
        decl(7, DeclKind::Packet, None, vec![], 1),
        decl(7, DeclKind::Struct, None, vec![], 2),
        decl(7, DeclKind::Group, None, vec![], 3),
    ]);
    assert_eq!(
        d,
        vec![
            Diagnostic::Redeclared { id: 7, kind: DeclKind::Struct, loc: loc(2), prev: loc(1) },
            Diagnostic::Redeclared { id: 7, kind: DeclKind::Group, loc: loc(3), prev: loc(1) },
        ]
    );
}

#[test]
fn group_is_flattened_in_place() {
    let x = scalar(10, 1);
    let y = scalar(11, 3);
    let file = File {
        declarations: vec![
            decl(100, DeclKind::Group, None, vec![x], 0),
            decl(101, DeclKind::Packet, None, vec![group(100, 2), y], 4),
        ],
    };
    let sc = Scope::new(file).ok().unwrap();
    let p = sc.scopes[1].as_ref().unwrap();
    assert_eq!(p.fields, vec![x, y]);
    assert_eq!(p.get_packet_field(10), Some(x));
    assert_eq!(sc.order, vec![0, 1]);
}

#[test]
fn nested_groups_flatten_in_order() {
    let h = scalar(12, 1);
    let g = scalar(11, 3);
    let a = scalar(10, 5);
    let file = File {
        declarations: vec![
            decl(200, DeclKind::Packet, None, vec![group(201, 4), a], 6),
            decl(201, DeclKind::Group, None, vec![group(202, 2), g], 0),
            decl(202, DeclKind::Group, None, vec![h], 0),
        ],
    };
    let sc = Scope::new(file).ok().unwrap();
    assert_eq!(sc.scopes[0].as_ref().unwrap().fields, vec![h, g, a]);
    assert_eq!(sc.scopes[1].as_ref().unwrap().fields, vec![h, g]);
    assert_eq!(sc.order, vec![2, 1, 0]);
}

#[test]
fn group_constraints_are_bound_at_inclusion() {
    let c = Constraint { id: 10, value: 3, loc: loc(9) };
    let mut p = decl(101, DeclKind::Packet, None, vec![group(100, 2)], 4);
    p.group_constraints = vec![vec![c]];
    let file = File { declarations: vec![decl(100, DeclKind::Group, None, vec![scalar(10, 1)], 0), p] };
    let sc = Scope::new(file).ok().unwrap();
    assert_eq!(sc.scopes[1].as_ref().unwrap().constraints, vec![c]);
}

#[test]
fn cyclic_parents_report_one_recursion() {
    let d = diagnostics(vec![
        decl(1, DeclKind::Packet, Some(2), vec![], 1),
        decl(2, DeclKind::Packet, Some(1), vec![], 2),
    ]);
    assert_eq!(d, vec![Diagnostic::Recursive { id: 1, kind: DeclKind::Packet, loc: loc(1) }]);
}

#[test]
fn self_including_group_is_reported() {
    let d = diagnostics(vec![decl(1, DeclKind::Group, None, vec![group(1, 2)], 1)]);
    assert_eq!(d, vec![Diagnostic::Recursive { id: 1, kind: DeclKind::Group, loc: loc(1) }]);
}

#[test]
fn shadowed_parent_field_is_one_warning() {
    let d = diagnostics(vec![
        decl(1, DeclKind::Packet, None, vec![scalar(10, 1)], 0),
        decl(2, DeclKind::Packet, Some(1), vec![scalar(10, 3)], 2),
    ]);
    assert_eq!(d, vec![Diagnostic::ShadowsParentField { id: 10, loc: loc(3), prev: loc(1) }]);
    assert!(d[0].is_warning());
}

#[test]
fn undeclared_and_invalid_group() {
    let d = diagnostics(vec![decl(1, DeclKind::Packet, None, vec![group(9, 2)], 1)]);
    assert_eq!(d, vec![Diagnostic::UndeclaredGroup { id: 9, loc: loc(2) }]);
    assert!(!d[0].is_warning());
    let d = diagnostics(vec![
        decl(1, DeclKind::Packet, None, vec![group(2, 2)], 1),
        decl(2, DeclKind::Struct, None, vec![], 3),
    ]);
    assert_eq!(d, vec![Diagnostic::InvalidGroup { id: 2, loc: loc(2) }]);
}

#[test]
fn group_field_collision_is_an_error() {
    let d = diagnostics(vec![
        decl(100, DeclKind::Group, None, vec![scalar(10, 1)], 0),
        decl(101, DeclKind::Packet, None, vec![scalar(10, 3), group(100, 4)], 2),
    ]);
    // The flattened fields then hold both fields, so the later one also
    // shadows the earlier when the scope is finalized.
    assert_eq!(
        d,
        vec![
            Diagnostic::GroupRedeclaresField { id: 10, loc: loc(4), prev: loc(3) },
            Diagnostic::ShadowsParentField { id: 10, loc: loc(1), prev: loc(3) },
        ]
    );
}

#[test]
fn parent_and_typedef_references() {
    let d = diagnostics(vec![decl(1, DeclKind::Packet, Some(9), vec![], 1)]);
    assert_eq!(d, vec![Diagnostic::UndeclaredParent { id: 9, kind: DeclKind::Packet, loc: loc(1) }]);
    let d = diagnostics(vec![
        decl(1, DeclKind::Packet, Some(2), vec![], 1),
        decl(2, DeclKind::Enum, None, vec![], 2),
    ]);
    assert_eq!(d, vec![Diagnostic::InvalidParent { id: 2, kind: DeclKind::Packet, loc: loc(1) }]);
    let d = diagnostics(vec![decl(
        1,
        DeclKind::Struct,
        None,
        vec![field(Some(10), FieldDesc::Typedef { type_id: 8 }, 2)],
        1,
    )]);
    assert_eq!(d, vec![Diagnostic::UndeclaredTypedef { id: 8, loc: loc(2) }]);
}

#[test]
fn inheritance_imports_parent_fields() {
    let file = File {
        declarations: vec![
            decl(1, DeclKind::Packet, None, vec![scalar(10, 1)], 0),
            decl(2, DeclKind::Packet, Some(1), vec![scalar(11, 3)], 2),
        ],
    };
    let sc = Scope::new(file).ok().unwrap();
    assert_eq!(sc.scopes[1].as_ref().unwrap().all_fields, vec![scalar(10, 1), scalar(11, 3)]);
}

#[test]
fn children_by_parent_and_group() {
    let file = File {
        declarations: vec![
            decl(1, DeclKind::Group, None, vec![scalar(10, 1)], 0),
            decl(2, DeclKind::Packet, None, vec![group(1, 2)], 3),
            decl(3, DeclKind::Packet, Some(2), vec![], 4),
        ],
    };
    let sc = Scope::new(file).ok().unwrap();
    assert_eq!(sc.typedef.len(), 3);
    assert_eq!(sc.iter_children(1), vec![1]);
    assert_eq!(sc.iter_children(2), vec![2]);
    assert!(sc.has_children(2));
    assert!(!sc.has_children(3));
}

#[test]
fn only_composite_declarations_get_a_scope() {
    let file = File {
        declarations: vec![
            decl(1, DeclKind::Enum, None, vec![], 0),
            decl(2, DeclKind::Struct, None, vec![field(Some(10), FieldDesc::Typedef { type_id: 1 }, 2)], 1),
        ],
    };
    let sc = Scope::new(file).ok().unwrap();
    assert!(sc.scopes[0].is_none());
    assert_eq!(sc.scopes[1].as_ref().unwrap().fields, vec![field(Some(10), FieldDesc::Typedef { type_id: 1 }, 2)]);
    assert_eq!(sc.order, vec![1]);
}
