use routetype::{
    FieldDecl, Piece, PieceKind, RouteError, RouteTable, RouteTemplate, RouteValue, VariantFields,
};

#[derive(Clone, PartialEq, Debug)]
enum MyRoute {
    Home,
    Style,
    Hello { name: String },
    Foo { bar: i32 },
    Goodbye(String),
    Readiness,
    Poll(bool),
    Refresh,
}

fn named(name: &str, kind: PieceKind) -> VariantFields {
    VariantFields::Named(vec![FieldDecl {
        name: name.to_owned(),
        kind,
    }])
}

fn table() -> RouteTable {
    let declarations = vec![
        ("/", VariantFields::Unit),
        ("style.css", VariantFields::Unit),
        ("hello/{name}", named("name", PieceKind::Text)),
        ("foo?bar={bar}", named("bar", PieceKind::Int)),
        ("/goodbye/{}", VariantFields::Positional(vec![PieceKind::Text])),
        ("/?readiness", VariantFields::Unit),
        ("/?poll={}", VariantFields::Positional(vec![PieceKind::Bool])),
        ("/refresh?force=true", VariantFields::Unit),
    ];
    RouteTable::new(
        declarations
            .into_iter()
            .map(|(route, fields)| RouteTemplate::compile(route, &fields).unwrap())
            .collect(),
    )
}

fn to_value(route: &MyRoute) -> RouteValue {
    let (variant, fields) = match route {
        MyRoute::Home => (0, vec![]),
        MyRoute::Style => (1, vec![]),
        MyRoute::Hello { name } => (2, vec![Piece::Text(name.clone())]),
        MyRoute::Foo { bar } => (3, vec![Piece::Int(*bar)]),
        MyRoute::Goodbye(name) => (4, vec![Piece::Text(name.clone())]),
        MyRoute::Readiness => (5, vec![]),
        MyRoute::Poll(on) => (6, vec![Piece::Bool(*on)]),
        MyRoute::Refresh => (7, vec![]),
    };
    RouteValue { variant, fields }
}

fn from_value(value: RouteValue) -> MyRoute {
    let mut fields = value.fields.into_iter();
    match (value.variant, fields.next()) {
        (0, None) => MyRoute::Home,
        (1, None) => MyRoute::Style,
        (2, Some(Piece::Text(name))) => MyRoute::Hello { name },
        (3, Some(Piece::Int(bar))) => MyRoute::Foo { bar },
        (4, Some(Piece::Text(name))) => MyRoute::Goodbye(name),
        (5, None) => MyRoute::Readiness,
        (6, Some(Piece::Bool(on))) => MyRoute::Poll(on),
        (7, None) => MyRoute::Refresh,
        _ => unreachable!(),
    }
}

fn parse_str(target: &str) -> Result<MyRoute, RouteError> {
    table().try_parse(target).map(from_value)
}

fn render(route: MyRoute) -> String {
    let table = table();
    let value = to_value(&route);
    assert!(table.has_route(&value));
    table.render(&value)
}

#[test]
fn render_home() {
    assert_eq!(render(MyRoute::Home), "/");
}

#[test]
fn render_style() {
    assert_eq!(render(MyRoute::Style), "/style.css");
}

#[test]
fn render_hello() {
    assert_eq!(
        render(MyRoute::Hello {
            name: "alice".to_owned()
        }),
        "/hello/alice"
    );
}

#[test]
fn parse_style() {
    assert_eq!(parse_str("/style.css?foo"), Ok(MyRoute::Style));
}

#[test]
fn parse_hello() {
    assert_eq!(
        parse_str("/hello/alice"),
        Ok(MyRoute::Hello {
            name: "alice".to_owned()
        })
    );
    assert_eq!(
        parse_str("/hello/alice/"),
        Err(RouteError::NormalizationFailed("/hello/alice".to_owned()))
    );
}

#[test]
fn foo() {
    assert_eq!(parse_str("foo?bar=42"), Ok(MyRoute::Foo { bar: 42 }));
    assert_eq!(parse_str("foo?bar=fortytwo"), Err(RouteError::NoMatch));
    assert_eq!("/foo?bar=42", render(MyRoute::Foo { bar: 42 }));

    match parse_str("foo?bar=42").unwrap() {
        MyRoute::Foo { bar } => assert_eq!(bar, 42),
        _ => panic!(),
    }
}

#[test]
fn parse_invalid() {
    assert_eq!(parse_str("/does/not/exist"), Err(RouteError::NoMatch));
}

#[test]
fn parse_normalize() {
    assert_eq!(
        parse_str("//foo/bar//baz///bin/"),
        Err(RouteError::NormalizationFailed(
            "/foo/bar/baz/bin".to_owned()
        ))
    );
    assert_eq!(
        render(MyRoute::Hello {
            name: "".to_owned()
        }),
        "/hello/-"
    );
}

#[test]
fn parse_empty_name() {
    assert_eq!(
        parse_str("/hello/-"),
        Ok(MyRoute::Hello {
            name: "".to_owned()
        })
    );
    assert_eq!(
        parse_str("/hello/--"),
        Ok(MyRoute::Hello {
            name: "-".to_owned()
        })
    );
}

#[test]
fn routes_read_back_as_written() {
    let routes = vec![
        MyRoute::Home,
        MyRoute::Style,
        MyRoute::Hello {
            name: "a/b c?d%".to_owned(),
        },
        MyRoute::Hello {
            name: "---".to_owned(),
        },
        MyRoute::Foo { bar: -2147483648 },
        MyRoute::Foo { bar: 2147483647 },
        MyRoute::Foo { bar: 0 },
        MyRoute::Goodbye("שלום".to_owned()),
        MyRoute::Refresh,
    ];
    for route in routes {
        let target = render(route.clone());
        assert_eq!(parse_str(&target), Ok(route));
    }
}

#[test]
fn first_declared_template_wins() {
    // `Home` is declared before `Readiness`, and matches whatever the query.
    assert_eq!(render(MyRoute::Readiness), "/?readiness");
    assert_eq!(parse_str("/?readiness"), Ok(MyRoute::Home));
    assert_eq!(render(MyRoute::Poll(true)), "/?poll=true");
    assert_eq!(parse_str("/?poll=true"), Ok(MyRoute::Home));
}

#[test]
fn routes_read_back_where_no_earlier_template_matches() {
    let poll = RouteTemplate::compile("/?poll={}", &VariantFields::Positional(vec![PieceKind::Bool]))
        .unwrap();
    let home = RouteTemplate::compile("/", &VariantFields::Unit).unwrap();
    let table = RouteTable::new(vec![poll, home]);
    for on in [true, false] {
        let route = RouteValue {
            variant: 0,
            fields: vec![Piece::Bool(on)],
        };
        assert_eq!(table.try_parse(&table.render(&route)), Ok(route));
    }
    assert_eq!(
        table.try_parse("/?poll=maybe"),
        Ok(RouteValue {
            variant: 1,
            fields: vec![]
        })
    );
}

#[test]
fn declaration_order_decides_between_overlapping_templates() {
    let number = RouteTemplate::compile("{}", &VariantFields::Positional(vec![PieceKind::Int]))
        .unwrap();
    let text = RouteTemplate::compile("{}", &VariantFields::Positional(vec![PieceKind::Text]))
        .unwrap();
    let number_first = RouteTable::new(vec![number.clone(), text.clone()]);
    let text_first = RouteTable::new(vec![text, number]);
    assert_eq!(
        number_first.try_parse("/42"),
        Ok(RouteValue {
            variant: 0,
            fields: vec![Piece::Int(42)]
        })
    );
    assert_eq!(
        text_first.try_parse("/42"),
        Ok(RouteValue {
            variant: 0,
            fields: vec![Piece::Text("42".to_owned())]
        })
    );
    // A field that does not convert fails its own template only.
    assert_eq!(
        number_first.try_parse("/fortytwo"),
        Ok(RouteValue {
            variant: 1,
            fields: vec![Piece::Text("fortytwo".to_owned())]
        })
    );
}

#[test]
fn query_requirements() {
    assert_eq!(parse_str("/refresh?force=true"), Ok(MyRoute::Refresh));
    assert_eq!(
        parse_str("/refresh?force=true&other=1"),
        Ok(MyRoute::Refresh)
    );
    assert_eq!(parse_str("/refresh?force=false"), Err(RouteError::NoMatch));
    assert_eq!(parse_str("/refresh?force"), Err(RouteError::NoMatch));
    assert_eq!(parse_str("/refresh"), Err(RouteError::NoMatch));
    // Two values for one key are a non-match, not an error.
    assert_eq!(
        parse_str("/refresh?force=true&force=true"),
        Err(RouteError::NoMatch)
    );
    assert_eq!(parse_str("/foo?bar=1&bar=2"), Err(RouteError::NoMatch));
    // An occurrence without a value does not count as a value.
    assert_eq!(parse_str("/foo?bar&bar=7"), Ok(MyRoute::Foo { bar: 7 }));
}

#[test]
fn path_length_is_exact() {
    assert_eq!(parse_str("/hello"), Err(RouteError::NoMatch));
    assert_eq!(parse_str("/hello/alice/bob"), Err(RouteError::NoMatch));
    assert_eq!(parse_str("/style.css/x"), Err(RouteError::NoMatch));
}

#[test]
fn has_route_checks_variant_and_fields() {
    let table = table();
    assert!(table.has_route(&RouteValue {
        variant: 3,
        fields: vec![Piece::Int(1)]
    }));
    assert!(!table.has_route(&RouteValue {
        variant: 3,
        fields: vec![Piece::Text("1".to_owned())]
    }));
    assert!(!table.has_route(&RouteValue {
        variant: 3,
        fields: vec![]
    }));
    assert!(!table.has_route(&RouteValue {
        variant: 0,
        fields: vec![Piece::Int(1)]
    }));
    assert!(!table.has_route(&RouteValue {
        variant: 8,
        fields: vec![]
    }));
}

#[test]
fn path_and_query_of_route() {
    let table = table();
    let hello = to_value(&MyRoute::Hello {
        name: "-".to_owned(),
    });
    assert_eq!(table.path(&hello), vec!["hello".to_owned(), "--".to_owned()]);
    assert_eq!(table.query(&hello), None);
    let poll = to_value(&MyRoute::Poll(true));
    assert_eq!(table.path(&poll), Vec::<String>::new());
    assert_eq!(
        table.query(&poll),
        Some(vec![("poll".to_owned(), Some("true".to_owned()))])
    );
    let readiness = to_value(&MyRoute::Readiness);
    assert_eq!(
        table.query(&readiness),
        Some(vec![("readiness".to_owned(), None)])
    );
}
