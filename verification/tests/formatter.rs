use bitterasm::formatter::{format_source, parse_config, FormatConfig, NewlineStyle};

#[test]
fn formats_blocks_without_losing_comments() {
    let source = "macro x()\n {\n# keep me\n@emit 1   \n}\n\n\n";
    assert_eq!(
        format_source(source, &FormatConfig::default()).unwrap(),
        "macro x()\n{\n    # keep me\n    @emit 1\n}\n"
    );
}

#[test]
fn inserts_one_blank_line_between_top_level_block_declarations() {
    let source = "macro first() {\n@emit 1\n}\nmacro second() {\n@emit 2\n}\n";
    assert_eq!(
        format_source(source, &FormatConfig::default()).unwrap(),
        "macro first() {\n    @emit 1\n}\n\nmacro second() {\n    @emit 2\n}\n"
    );
}

#[test]
fn applies_config() {
    let config = FormatConfig { indent_width: 2, max_blank_lines: 0, ..Default::default() };
    assert_eq!(format_source("struct X\n{\nvalue: Int\n}\n", &config).unwrap(),
               "struct X\n{\n  value: Int\n}\n");
}

#[test]
fn parses_rustfmt_style_config() {
    let config = parse_config("indent_width = 2\nhard_tabs = true\nindent_facets = false\nfacets_on_new_line = false\npub_on_declaration = false\nreturn_type_on_declaration = false\nmax_width = 90\ncomment_width = 70\nnewline_style = \"Unix\"\n").unwrap();
    assert_eq!(config.indent_width, 2);
    assert!(config.hard_tabs);
    assert!(!config.indent_facets);
    assert!(!config.facets_on_new_line);
    assert!(!config.pub_on_declaration);
    assert!(!config.return_type_on_declaration);
    assert_eq!(config.max_width, 90);
    assert_eq!(config.comment_width, 70);
    assert_eq!(config.newline_style, NewlineStyle::Unix);
}

#[test]
fn indents_all_delimited_continuations() {
    let source = "const x = call(\nfirst,\nNested {\nvalue: [\n1,\n]\n}\n)\n";
    assert_eq!(
        format_source(source, &FormatConfig::default()).unwrap(),
        "const x = call(\n    first,\n    Nested {\n        value: [\n            1,\n        ]\n    }\n)\n"
    );
}

#[test]
fn wraps_comments_and_safe_code_lists_separately() {
    let config = FormatConfig { max_width: 26, comment_width: 20, ..Default::default() };
    let source = "# one two three four five six\nconst x = call(first, second, third, fourth)\n";
    assert_eq!(
        format_source(source, &config).unwrap(),
        "# one two three four\n# five six\nconst x = call(\n    first,\n    second,\n    third,\n    fourth\n)\n"
    );
}

#[test]
fn lays_out_a_long_emit_call_one_argument_per_line() {
    let config = FormatConfig { max_width: 70, ..Default::default() };
    let source = "    @emit IType(imm = Imm12(offset & 0xFFF), rs1 = rs1, funct3 = Funct3(0b010),\n        rd = rd,\n        opcode = Opcode(0b0000011))\n";
    assert_eq!(
        format_source(source, &config).unwrap(),
        "@emit IType(\n    imm = Imm12(offset & 0xFFF),\n    rs1 = rs1,\n    funct3 = Funct3(0b010),\n    rd = rd,\n    opcode = Opcode(0b0000011)\n)\n"
    );
}

#[test]
fn indents_facets_relative_to_their_declaration() {
    let source = "macro x()\n| invariant enabled\n| before {\n@emit 1\n}\n{\n@emit 2\n}\n";
    assert_eq!(
        format_source(source, &FormatConfig::default()).unwrap(),
        "macro x()\n    | invariant enabled\n    | before {\n        @emit 1\n    }\n{\n    @emit 2\n}\n"
    );
}

#[test]
fn facet_indentation_can_be_disabled() {
    let config = FormatConfig { indent_facets: false, ..Default::default() };
    assert_eq!(
        format_source("macro x()\n    | invariant enabled\n{}\n", &config).unwrap(),
        "macro x()\n| invariant enabled\n{}\n"
    );
}

#[test]
fn generic_argument_commas_are_not_wrapped_as_parameters() {
    let config = FormatConfig { max_width: 45, ..Default::default() };
    let source = "pub macro updated(arr: Array<T, ...>, index: int, value: T)\n";
    assert_eq!(
        format_source(source, &config).unwrap(),
        "pub macro updated(\n    arr: Array<T, ...>,\n    index: int,\n    value: T\n)\n"
    );
}

#[test]
fn indents_multiline_type_facets() {
    let source = "pub type uint8_t = bits<8>\n| invariant value >= 0\n";
    assert_eq!(
        format_source(source, &FormatConfig::default()).unwrap(),
        "pub type uint8_t = bits<8>\n    | invariant value >= 0\n"
    );
}

#[test]
fn moves_inline_type_facets_onto_new_lines() {
    let source = "pub type uint8_t = bits<8> | invariant value >= 0\n";
    assert_eq!(
        format_source(source, &FormatConfig::default()).unwrap(),
        "pub type uint8_t = bits<8>\n    | invariant value >= 0\n"
    );
}

#[test]
fn moving_facets_onto_new_lines_can_be_disabled() {
    let config = FormatConfig { facets_on_new_line: false, ..Default::default() };
    let source = "type Byte = bits<8> | invariant value >= 0\n";
    assert_eq!(format_source(source, &config).unwrap(), source);
}

#[test]
fn moves_pub_and_return_type_to_the_macro_declaration() {
    let source = "macro encode(value: int)\n    | syntax \"encode $value$\"\n    | pub\n    | -> bits<8>\n{\n}\n";
    assert_eq!(
        format_source(source, &FormatConfig::default()).unwrap(),
        "pub macro encode(value: int) -> bits<8>\n    | syntax \"encode $value$\"\n{\n}\n"
    );
}

#[test]
fn pub_and_return_type_signature_rules_are_independent() {
    let config = FormatConfig {
        pub_on_declaration: false,
        return_type_on_declaration: true,
        ..Default::default()
    };
    let source = "macro encode()\n| pub\n| -> int\n{\n}\n";
    assert_eq!(
        format_source(source, &config).unwrap(),
        "macro encode() -> int\n    | pub\n{\n}\n"
    );

    let config = FormatConfig {
        pub_on_declaration: true,
        return_type_on_declaration: false,
        ..Default::default()
    };
    assert_eq!(
        format_source(source, &config).unwrap(),
        "pub macro encode()\n    | -> int\n{\n}\n"
    );
}

#[test]
fn rejoins_short_multiline_generic_arguments() {
    let source = "    @return Range<start,\n        stop,\n        step>{\n    }\n";
    assert_eq!(
        format_source(source, &FormatConfig::default()).unwrap(),
        "@return Range<start, stop, step>{\n}\n"
    );
}

#[test]
fn collapsing_multiline_generics_can_be_disabled() {
    let config = FormatConfig {
        collapse_short_multiline_generics: false,
        ..Default::default()
    };
    let source = "type Pair = Tuple<\n    int,\n    int\n>\n";
    assert_eq!(
        format_source(source, &config).unwrap(),
        "type Pair = Tuple<\n    int,\n    int\n>\n"
    );
}

#[test]
fn does_not_wrap_meta_arguments_at_a_statement_level_comma() {
    let config = FormatConfig { max_width: 60, ..Default::default() };
    let source = "macro checked(precision: int) -> int {\n@assert precision >= 0 && precision <= 60, \"precision must be between zero and sixty\"\n@return precision\n}\n";
    let formatted = format_source(source, &config).unwrap();
    assert!(formatted.contains("@assert precision >= 0 && precision <= 60, \"precision"));
    bitterasm::lexer::lex(&formatted).expect("formatted output should still lex");
}

#[test]
fn formatted_inline_if_remains_parseable() {
    let source = "macro choose(x: int) -> int { @if x > 0 { @return 1 }\n@return 0 }\n";
    let formatted = format_source(source, &FormatConfig::default()).unwrap();
    bitterasm::lexer::lex(&formatted).expect("formatted inline blocks should still lex");
}

#[test]
fn formatted_text_ends_with_the_chosen_newline() {
    assert_eq!(format_source("nop", &FormatConfig::default()).unwrap(), "nop\n");
    assert_eq!(format_source("nop\r\nhalt", &FormatConfig::default()).unwrap(), "nop\r\nhalt\r\n");
    assert_eq!(format_source("", &FormatConfig::default()).unwrap(), "\n");
}
