use routetype::{
    FieldDecl, Piece, PieceKind, PieceSpec, QueryMap, QuerySpec, RouteTemplate, TemplateError,
    VariantFields,
};

fn decl(name: &str, kind: PieceKind) -> FieldDecl {
    FieldDecl {
        name: name.to_owned(),
        kind,
    }
}

fn literal(text: &str) -> PieceSpec {
    PieceSpec::Literal(text.to_owned())
}

#[test]
fn compile_unit_routes() {
    assert_eq!(
        RouteTemplate::compile("/", &VariantFields::Unit),
        Ok(RouteTemplate {
            path: vec![],
            query: vec![]
        })
    );
    assert_eq!(
        RouteTemplate::compile("", &VariantFields::Unit),
        Ok(RouteTemplate {
            path: vec![],
            query: vec![]
        })
    );
    assert_eq!(
        RouteTemplate::compile("css/style.css", &VariantFields::Unit),
        Ok(RouteTemplate {
            path: vec![literal("css"), literal("style.css")],
            query: vec![]
        })
    );
    assert_eq!(
        RouteTemplate::compile("/refresh?force=true&now", &VariantFields::Unit),
        Ok(RouteTemplate {
            path: vec![literal("refresh")],
            query: vec![
                QuerySpec {
                    key: "force".to_owned(),
                    value: Some(literal("true"))
                },
                QuerySpec {
                    key: "now".to_owned(),
                    value: None
                },
            ]
        })
    );
}

#[test]
fn compile_keeps_empty_segments_and_escapes_as_they_stand() {
    assert_eq!(
        RouteTemplate::compile("a//b%2F/", &VariantFields::Unit),
        Ok(RouteTemplate {
            path: vec![literal("a"), literal(""), literal("b%2F"), literal("")],
            query: vec![]
        })
    );
}

#[test]
fn compile_positional_fields_in_order() {
    let fields = VariantFields::Positional(vec![PieceKind::Text, PieceKind::Int, PieceKind::Bool]);
    assert_eq!(
        RouteTemplate::compile("/a/{}/b/{}?c={}", &fields),
        Ok(RouteTemplate {
            path: vec![
                literal("a"),
                PieceSpec::Field(PieceKind::Text),
                literal("b"),
                PieceSpec::Field(PieceKind::Int),
            ],
            query: vec![QuerySpec {
                key: "c".to_owned(),
                value: Some(PieceSpec::Field(PieceKind::Bool))
            }]
        })
    );
}

#[test]
fn compile_named_fields_by_name() {
    let fields = VariantFields::Named(vec![
        decl("id", PieceKind::Int),
        decl("name", PieceKind::Text),
    ]);
    assert_eq!(
        RouteTemplate::compile("/{name}?id={id}", &fields),
        Ok(RouteTemplate {
            path: vec![PieceSpec::Field(PieceKind::Text)],
            query: vec![QuerySpec {
                key: "id".to_owned(),
                value: Some(PieceSpec::Field(PieceKind::Int))
            }]
        })
    );
}

#[test]
fn compile_errors() {
    let unit = VariantFields::Unit;
    let tuple = VariantFields::Positional(vec![PieceKind::Text]);
    let record = VariantFields::Named(vec![decl("name", PieceKind::Text)]);
    assert_eq!(
        RouteTemplate::compile("/foo?", &unit),
        Err(TemplateError::EmptyQuery)
    );
    assert_eq!(
        RouteTemplate::compile("/{name", &record),
        Err(TemplateError::InvalidValue)
    );
    assert_eq!(
        RouteTemplate::compile("/{", &record),
        Err(TemplateError::InvalidValue)
    );
    assert_eq!(
        RouteTemplate::compile("/{}", &unit),
        Err(TemplateError::UnitInterpolation)
    );
    assert_eq!(
        RouteTemplate::compile("/{name}", &unit),
        Err(TemplateError::UnitInterpolation)
    );
    assert_eq!(
        RouteTemplate::compile("/{name}", &tuple),
        Err(TemplateError::NamedInTuple)
    );
    assert_eq!(
        RouteTemplate::compile("/{}", &record),
        Err(TemplateError::PositionalInNamed)
    );
    assert_eq!(
        RouteTemplate::compile("/{}/{}", &tuple),
        Err(TemplateError::TooManyPieces)
    );
    assert_eq!(
        RouteTemplate::compile("/{name}?again={name}", &record),
        Err(TemplateError::TooManyPieces)
    );
    assert_eq!(
        RouteTemplate::compile("/{other}", &record),
        Err(TemplateError::UnknownField)
    );
    assert_eq!(
        RouteTemplate::compile("/static", &tuple),
        Err(TemplateError::UnusedFields)
    );
    assert_eq!(
        RouteTemplate::compile("/static?a=b", &record),
        Err(TemplateError::UnusedFields)
    );
}

#[test]
fn first_error_in_the_route_string_decides() {
    let tuple = VariantFields::Positional(vec![PieceKind::Text]);
    assert_eq!(
        RouteTemplate::compile("/{x/{}/{}", &tuple),
        Err(TemplateError::InvalidValue)
    );
    assert_eq!(
        RouteTemplate::compile("/{}/{}?", &tuple),
        Err(TemplateError::TooManyPieces)
    );
    assert_eq!(
        RouteTemplate::compile("/x?a={b", &tuple),
        Err(TemplateError::InvalidValue)
    );
}

#[test]
fn match_request_gives_fields_in_template_order() {
    let fields = VariantFields::Named(vec![
        decl("id", PieceKind::Int),
        decl("name", PieceKind::Text),
        decl("on", PieceKind::Bool),
    ]);
    let template = RouteTemplate::compile("/users/{name}?on={on}&id={id}&x", &fields).unwrap();
    let query = Some(vec![
        ("id".to_owned(), Some("-7".to_owned())),
        ("x".to_owned(), None),
        ("on".to_owned(), Some("false".to_owned())),
        ("ignored".to_owned(), Some("1".to_owned())),
    ]);
    let map = QueryMap::from_query_iter(&query);
    let path = vec!["users".to_owned(), "bob".to_owned()];
    assert_eq!(
        template.match_request(&path, &map),
        Some(vec![
            Piece::Text("bob".to_owned()),
            Piece::Bool(false),
            Piece::Int(-7)
        ])
    );
    let values = vec![
        Piece::Text("bob".to_owned()),
        Piece::Bool(false),
        Piece::Int(-7),
    ];
    assert!(template.accepts(&values));
    assert_eq!(template.path_field_count(), 1);
    assert_eq!(
        template.render(&values),
        "/users/bob?on=false&id=-7&x"
    );
    let path = vec!["users".to_owned()];
    assert_eq!(template.match_request(&path, &map), None);
}

#[test]
fn accepts_wants_kinds_in_template_order() {
    let fields = VariantFields::Positional(vec![PieceKind::Int, PieceKind::Text]);
    let template = RouteTemplate::compile("/{}/{}", &fields).unwrap();
    assert!(template.accepts(&[Piece::Int(1), Piece::Text("a".to_owned())]));
    assert!(!template.accepts(&[Piece::Text("a".to_owned()), Piece::Int(1)]));
    assert!(!template.accepts(&[Piece::Int(1)]));
    assert!(!template.accepts(&[
        Piece::Int(1),
        Piece::Text("a".to_owned()),
        Piece::Bool(true)
    ]));
}
