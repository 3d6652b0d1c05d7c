use xfce_config::config_syntax::{parse_config_of, Delimiter, SyntaxError, TokenTree};
use xfce_config::config_types::{
    config_type_decls, config_types, is_unique_types, ConfigTypesError, path_push, path_type_name_of, singular_of, trim_s_of,
    underscore_join, DescError, EnumFn, FieldDecl, FieldDesc, FieldType, TypeDecl, TypeDesc,
    VariantDecl,
};

fn field(name: &str, ty: TypeDesc) -> FieldDesc {
    FieldDesc { name: name.to_string(), ty }
}

fn lit(s: &str) -> TypeDesc {
    TypeDesc::LitStr(s.to_string())
}

fn path(names: &[&str]) -> Vec<String> {
    names.iter().map(|n| n.to_string()).collect()
}

#[test]
fn path_names() {
    let p = path(&["config", "panels", "items"]);
    assert_eq!(underscore_join(&p), "config_panels_items");
    assert_eq!(underscore_join(&path(&[])), "");
    assert_eq!(path_type_name_of(&p), "ConfigPanelsItems");
    assert_eq!(singular_of(&p), path(&["config", "panels", "item"]));
    assert_eq!(trim_s_of(&"class".to_string()), "cla");
    assert_eq!(trim_s_of(&"plugin".to_string()), "plugin");
    assert_eq!(path_push(&p, "x".to_string()).len(), 4);
}

#[test]
fn struct_with_array_and_lit_enum() {
    let config = TypeDesc::Struct(vec![
        field("panels", TypeDesc::Array(Box::new(TypeDesc::Struct(vec![field("size", TypeDesc::Uint)])))),
        field("mode", TypeDesc::Enum(vec![lit("horizontal"), lit("vertical")])),
        field("dark", TypeDesc::Bool),
    ]);
    let decls = config_type_decls(&config).ok().unwrap();
    assert_eq!(
        decls,
        vec![
            TypeDecl::Struct(
                "ConfigPanel".to_string(),
                vec![FieldDecl { name: "size".to_string(), ty: FieldType::U32 }],
            ),
            TypeDecl::Enum(
                "ConfigMode".to_string(),
                vec![
                    VariantDecl::Unit("Horizontal".to_string()),
                    VariantDecl::Unit("Vertical".to_string()),
                ],
            ),
            TypeDecl::Impl(
                "ConfigMode".to_string(),
                vec![
                    EnumFn::Name(vec![
                        ("Horizontal".to_string(), "horizontal".to_string()),
                        ("Vertical".to_string(), "vertical".to_string()),
                    ]),
                    EnumFn::Discrim(vec!["Horizontal".to_string(), "Vertical".to_string()]),
                ],
            ),
            TypeDecl::Struct(
                "Config".to_string(),
                vec![
                    FieldDecl { name: "panels".to_string(), ty: FieldType::Vec("ConfigPanel".to_string()) },
                    FieldDecl { name: "mode".to_string(), ty: FieldType::Named("ConfigMode".to_string()) },
                    FieldDecl { name: "dark".to_string(), ty: FieldType::Bool },
                ],
            ),
        ]
    );
}

#[test]
fn enum_of_structs() {
    let config = TypeDesc::Struct(vec![field(
        "plugin",
        TypeDesc::Enum(vec![
            TypeDesc::Struct(vec![field("type", lit("clock")), field("format", TypeDesc::Str)]),
            TypeDesc::Struct(vec![field("type", lit("separator"))]),
        ]),
    )]);
    let decls = config_type_decls(&config).ok().unwrap();
    assert_eq!(
        decls,
        vec![
            TypeDecl::Struct(
                "ConfigPluginClock".to_string(),
                vec![FieldDecl { name: "format".to_string(), ty: FieldType::String }],
            ),
            TypeDecl::Enum(
                "ConfigPlugin".to_string(),
                vec![
                    VariantDecl::Tuple("Clock".to_string(), FieldType::Named("ConfigPluginClock".to_string())),
                    VariantDecl::Unit("Separator".to_string()),
                ],
            ),
            TypeDecl::Impl(
                "ConfigPlugin".to_string(),
                vec![EnumFn::Field(
                    "type".to_string(),
                    vec![
                        ("Clock".to_string(), "clock".to_string()),
                        ("Separator".to_string(), "separator".to_string()),
                    ],
                )],
            ),
            TypeDecl::Struct(
                "Config".to_string(),
                vec![FieldDecl { name: "plugin".to_string(), ty: FieldType::Named("ConfigPlugin".to_string()) }],
            ),
        ]
    );
}

#[test]
fn enum_of_distinct_kinds() {
    let config = TypeDesc::Enum(vec![
        TypeDesc::Bool,
        TypeDesc::Int,
        TypeDesc::Struct(vec![field("name", TypeDesc::Str)]),
    ]);
    let decls = config_type_decls(&config).ok().unwrap();
    assert_eq!(
        decls,
        vec![
            TypeDecl::Struct(
                "ConfigStruct".to_string(),
                vec![FieldDecl { name: "name".to_string(), ty: FieldType::String }],
            ),
            TypeDecl::Enum(
                "Config".to_string(),
                vec![
                    VariantDecl::Tuple("Bool".to_string(), FieldType::Bool),
                    VariantDecl::Tuple("Int".to_string(), FieldType::I32),
                    VariantDecl::Tuple("Struct".to_string(), FieldType::Named("ConfigStruct".to_string())),
                ],
            ),
        ]
    );
}

#[test]
fn unique_kind_check() {
    assert!(is_unique_types(&vec![TypeDesc::Bool, TypeDesc::Str, TypeDesc::Color]));
    assert!(!is_unique_types(&vec![TypeDesc::Int, TypeDesc::Uint]));
    assert!(!is_unique_types(&vec![TypeDesc::Struct(vec![]), TypeDesc::Struct(vec![])]));
    assert!(is_unique_types(&vec![]));
}

#[test]
fn description_errors() {
    let c = TypeDesc::Struct(vec![field("x", lit("a"))]);
    assert_eq!(config_type_decls(&c), Err(DescError::LitStrField("a".to_string())));
    let c = TypeDesc::Enum(vec![lit("a"), TypeDesc::Bool]);
    assert_eq!(config_type_decls(&c), Err(DescError::BadEnum));
    let c = TypeDesc::Enum(vec![TypeDesc::Int, TypeDesc::Uint]);
    assert_eq!(config_type_decls(&c), Err(DescError::BadEnum));
    let c = TypeDesc::Enum(vec![TypeDesc::Struct(vec![])]);
    assert_eq!(config_type_decls(&c), Err(DescError::MissingDiscrimField));
    let c = TypeDesc::Enum(vec![
        TypeDesc::Struct(vec![field("type", lit("a"))]),
        TypeDesc::Struct(vec![field("kind", lit("b"))]),
    ]);
    assert_eq!(config_type_decls(&c), Err(DescError::DiscrimFieldName("kind".to_string())));
    let c = TypeDesc::Enum(vec![TypeDesc::Struct(vec![field("type", TypeDesc::Str)])]);
    assert_eq!(config_type_decls(&c), Err(DescError::DiscrimNotLitStr("type".to_string())));
}

fn id(s: &str) -> TokenTree {
    TokenTree::Ident(s.to_string())
}

fn p(c: char) -> TokenTree {
    TokenTree::Punct(c)
}

fn text(s: &str) -> TokenTree {
    TokenTree::Literal(s.to_string())
}

fn group(d: Delimiter, ts: Vec<TokenTree>) -> TokenTree {
    TokenTree::Group(d, ts)
}

#[test]
fn parse_description_tokens() {
    // panels: [{ size: uint }]; mode: (| "horizontal" | "vertical"); dark: bool;
    let tokens = vec![
        id("panels"),
        p(':'),
        group(Delimiter::Bracket, vec![group(Delimiter::Brace, vec![id("size"), p(':'), id("uint")])]),
        p(';'),
        id("mode"),
        p(':'),
        group(Delimiter::Parenthesis, vec![p('|'), text("\"horizontal\""), p('|'), text("\"vertical\"")]),
        p(';'),
        id("dark"),
        p(':'),
        id("bool"),
        p(';'),
    ];
    let expected = TypeDesc::Struct(vec![
        field("panels", TypeDesc::Array(Box::new(TypeDesc::Struct(vec![field("size", TypeDesc::Uint)])))),
        field("mode", TypeDesc::Enum(vec![lit("horizontal"), lit("vertical")])),
        field("dark", TypeDesc::Bool),
    ]);
    assert_eq!(parse_config_of(&tokens), Ok(expected));
    let decls = config_types(&tokens).ok().unwrap();
    assert_eq!(decls.len(), 4);
    assert_eq!(
        decls[3],
        TypeDecl::Struct(
            "Config".to_string(),
            vec![
                FieldDecl { name: "panels".to_string(), ty: FieldType::Vec("ConfigPanel".to_string()) },
                FieldDecl { name: "mode".to_string(), ty: FieldType::Named("ConfigMode".to_string()) },
                FieldDecl { name: "dark".to_string(), ty: FieldType::Bool },
            ],
        )
    );
}

#[test]
fn parse_literal_values_and_empty_input() {
    let tokens = vec![
        id("v"),
        p(':'),
        group(Delimiter::Parenthesis, vec![text("\"a\\tb\""), p('|'), text("r\"x y\"")]),
    ];
    assert_eq!(
        parse_config_of(&tokens),
        Ok(TypeDesc::Struct(vec![field("v", TypeDesc::Enum(vec![lit("a\tb"), lit("x y")]))]))
    );
    assert_eq!(parse_config_of(&vec![]), Ok(TypeDesc::Struct(vec![])));
    assert_eq!(config_types(&vec![]), Ok(vec![TypeDecl::Struct("Config".to_string(), vec![])]));
}

#[test]
fn syntax_errors() {
    // a keyword is no field name
    let tokens = vec![id("type"), p(':'), id("bool")];
    assert_eq!(parse_config_of(&tokens), Err(SyntaxError::ExpectedIdent));
    let tokens = vec![p(';')];
    assert_eq!(parse_config_of(&tokens), Err(SyntaxError::ExpectedIdent));
    let tokens = vec![id("a"), id("bool")];
    assert_eq!(parse_config_of(&tokens), Err(SyntaxError::ExpectedColon));
    let tokens = vec![id("a"), p(':')];
    assert_eq!(parse_config_of(&tokens), Err(SyntaxError::ExpectedType));
    let tokens = vec![id("a"), p(':'), id("float")];
    assert_eq!(parse_config_of(&tokens), Err(SyntaxError::ExpectedType));
    let tokens = vec![id("a"), p(':'), text("1")];
    assert_eq!(parse_config_of(&tokens), Err(SyntaxError::ExpectedType));
    let tokens = vec![id("a"), p(':'), id("bool"), p(','), id("b"), p(':'), id("int")];
    assert_eq!(parse_config_of(&tokens), Err(SyntaxError::ExpectedSemicolon));
    let tokens = vec![id("a"), p(':'), group(Delimiter::Bracket, vec![])];
    assert_eq!(parse_config_of(&tokens), Err(SyntaxError::ExpectedType));
    let tokens = vec![id("a"), p(':'), group(Delimiter::Parenthesis, vec![])];
    assert_eq!(parse_config_of(&tokens), Err(SyntaxError::ExpectedType));
    // tokens left in a group come out only when nothing else fails
    let tokens = vec![id("a"), p(':'), group(Delimiter::Bracket, vec![id("bool"), id("int")])];
    assert_eq!(parse_config_of(&tokens), Err(SyntaxError::UnexpectedToken));
    let tokens = vec![
        id("a"),
        p(':'),
        group(Delimiter::Parenthesis, vec![id("bool"), id("int")]),
        p(';'),
        id("b"),
        p(':'),
        id("nothing"),
    ];
    assert_eq!(parse_config_of(&tokens), Err(SyntaxError::ExpectedType));
    assert_eq!(
        config_types(&vec![id("a"), p(':'), text("\"x\"")]),
        Err(ConfigTypesError::Desc(DescError::LitStrField("x".to_string())))
    );
    assert_eq!(
        config_types(&vec![id("a"), p(':'), group(Delimiter::Bracket, vec![id("bool"), p(';')])]),
        Err(ConfigTypesError::Syntax(SyntaxError::UnexpectedToken))
    );
}

#[test]
fn invalid_generated_names() {
    let c = TypeDesc::Enum(vec![lit("ok"), lit("")]);
    assert_eq!(config_type_decls(&c), Err(DescError::InvalidName("".to_string())));
    let c = TypeDesc::Enum(vec![lit("1x"), lit("")]);
    assert_eq!(config_type_decls(&c), Err(DescError::InvalidName("1x".to_string())));
    let c = TypeDesc::Struct(vec![field("s", TypeDesc::Array(Box::new(TypeDesc::Bool)))]);
    assert_eq!(config_type_decls(&c), Err(DescError::InvalidName("".to_string())));
    let c = TypeDesc::Struct(vec![field("ss", TypeDesc::Array(Box::new(TypeDesc::Bool)))]);
    assert_eq!(config_type_decls(&c), Err(DescError::InvalidName("".to_string())));
    let c = TypeDesc::Enum(vec![TypeDesc::Struct(vec![field("type", lit("-"))])]);
    assert_eq!(config_type_decls(&c), Err(DescError::InvalidName("".to_string())));
    // a keyword is a name all the same
    let c = TypeDesc::Enum(vec![lit("self")]);
    let decls = config_type_decls(&c).ok().unwrap();
    assert_eq!(decls[0], TypeDecl::Enum("Config".to_string(), vec![VariantDecl::Unit("Self".to_string())]));
}
