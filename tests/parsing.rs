use asn1_oer::bounds::parse_bounds;
use asn1_oer::lexer;
use asn1_oer::oer::WireType;
use asn1_oer::schema::{unsigned_width, AsnAlias, AsnModule, AsnType, ParseError, ResolveError};

const GEO: &str = "Geometry DEFINITIONS AUTOMATIC TAGS ::= BEGIN
    Point ::= SEQUENCE {
        x INTEGER,
        y INTEGER
    }
    Line ::= SEQUENCE {
        p1 Point,
        p2 Point
    }
    Rectangle ::= SEQUENCE {
        width INTEGER (0..18446744073709551615),
        height INTEGER (0..18446744073709551615)
    }
    TinyRectangle ::= SEQUENCE {
        width INTEGER (0..255),
        height INTEGER (0..255)
    }
END
";

const POINT: &str = "PointModule DEFINITIONS ::= BEGIN
    Point ::= SEQUENCE {
        x INTEGER,
        y INTEGER
    }
END
";

#[test]
fn split_keep_separator() {
    let input = ",";
    assert_eq!(vec![","], lexer::split_keep_separator(input));

    let input = "test,";
    assert_eq!(vec!["test", ","], lexer::split_keep_separator(input));

    let input = "test,test2";
    assert_eq!(vec!["test", ",", "test2"], lexer::split_keep_separator(input));
}

#[test]
fn split_keep_separator_keeps_spaces_and_empty_runs() {
    assert_eq!(vec!["a b", ",", ",", " c"], lexer::split_keep_separator("a b,, c"));
    assert!(lexer::split_keep_separator("").is_empty());
}

#[test]
fn tokenizer() {
    let input = "my fake, input";
    assert_eq!(vec!["my", "fake", ",", "input"], lexer::tokenizer(input));
}

#[test]
fn tokenizer_splits_braces_and_bounds() {
    assert_eq!(
        vec!["A", "::=", "SEQUENCE", "{", "w", "INTEGER", "(0..255)", ",", "h", "INTEGER", "}"],
        lexer::tokenizer("A ::= SEQUENCE {\n\tw INTEGER (0..255),h INTEGER\r\n}")
    );
    assert!(lexer::tokenizer("  \n\t ").is_empty());
}

#[test]
fn bounds_text() {
    assert_eq!(Some((0, 255)), parse_bounds("(0..255)"));
    assert_eq!(Some((-5, 18446744073709551615)), parse_bounds("(-5..18446744073709551615)"));
    assert_eq!(None, parse_bounds("(0.255)"));
    assert_eq!(None, parse_bounds("0..255"));
    assert_eq!(None, parse_bounds("(0..)"));
    assert_eq!(None, parse_bounds("(a..5)"));
    assert_eq!(None, parse_bounds("(0..170141183460469231731687303715884105728)"));
}

#[test]
fn asn_parse() {
    let asn_module = AsnModule::parse(GEO).unwrap();

    assert_eq!("Geometry", asn_module.name);
    assert_eq!(4, asn_module.sequences.len());

    let point = asn_module.sequence("Point").unwrap();
    assert_eq!(2, point.fields.len());
    assert_eq!("x", point.fields[0].name);
    assert_eq!(AsnType::Integer, point.fields[0].field_type);
    assert_eq!("y", point.fields[1].name);
    assert_eq!(AsnType::Integer, point.fields[1].field_type);

    let line = asn_module.sequence("Line").unwrap();
    assert_eq!(2, line.fields.len());
    assert_eq!("p1", line.fields[0].name);
    assert_eq!(AsnType::Custom("Point"), line.fields[0].field_type);
    assert_eq!("p2", line.fields[1].name);
    assert_eq!(AsnType::Custom("Point"), line.fields[1].field_type);

    let rectangle = asn_module.sequence("Rectangle").unwrap();
    assert_eq!(2, rectangle.fields.len());
    assert_eq!("width", rectangle.fields[0].name);
    assert_eq!(
        AsnType::BoundedInteger {
            min: 0,
            max: 18_446_744_073_709_551_615
        },
        rectangle.fields[0].field_type
    );
    assert_eq!("height", rectangle.fields[1].name);
    assert_eq!(
        AsnType::BoundedInteger {
            min: 0,
            max: 18_446_744_073_709_551_615
        },
        rectangle.fields[1].field_type
    );

    let tiny_rectangle = asn_module.sequence("TinyRectangle").unwrap();
    assert_eq!(2, tiny_rectangle.fields.len());
    assert_eq!("width", tiny_rectangle.fields[0].name);
    assert_eq!(
        AsnType::BoundedInteger { min: 0, max: 255 },
        tiny_rectangle.fields[0].field_type
    );
    assert_eq!("height", tiny_rectangle.fields[1].name);
    assert_eq!(
        AsnType::BoundedInteger { min: 0, max: 255 },
        tiny_rectangle.fields[1].field_type
    );
}

#[test]
fn it_works() {
    let asn_module = AsnModule::parse(POINT).unwrap();

    assert_eq!("PointModule", asn_module.name);
    assert_eq!(1, asn_module.sequences.len());
    assert_eq!(2, asn_module.sequence("Point").unwrap().fields.len());
    assert_eq!("x", asn_module.sequence("Point").unwrap().fields[0].name);
    assert_eq!("y", asn_module.sequence("Point").unwrap().fields[1].name);
}

#[test]
fn resolve_point_and_line() {
    let module = AsnModule::parse(GEO).unwrap();
    let schema = module.resolve().unwrap();
    assert_eq!("Geometry", schema.name);
    let point = &schema.sequences[0];
    assert_eq!("Point", point.name);
    assert_eq!(2, point.fields.len());
    assert_eq!(WireType::UnboundedInteger, point.fields[0].wire_type);
    assert_eq!(WireType::UnboundedInteger, point.fields[1].wire_type);
    let line = &schema.sequences[1];
    assert_eq!("Line", line.name);
    assert_eq!(WireType::Composite(0), line.fields[0].wire_type);
    assert_eq!(WireType::Composite(0), line.fields[1].wire_type);
    assert_eq!(WireType::FixedUnsigned(8), schema.sequences[2].fields[0].wire_type);
    assert_eq!(WireType::FixedUnsigned(1), schema.sequences[3].fields[1].wire_type);
}

#[test]
fn resolve_forward_reference() {
    let text = "M ::= BEGIN B ::= SEQUENCE { a A } A ::= SEQUENCE { x INTEGER } END";
    let schema = AsnModule::parse(text).unwrap().resolve().unwrap();
    assert_eq!(WireType::Composite(1), schema.sequences[0].fields[0].wire_type);
}

#[test]
fn width_selection() {
    assert_eq!(Some(1), unsigned_width(255));
    assert_eq!(Some(2), unsigned_width(256));
    assert_eq!(Some(2), unsigned_width(65535));
    assert_eq!(Some(4), unsigned_width(65536));
    assert_eq!(Some(4), unsigned_width(4294967295));
    assert_eq!(Some(8), unsigned_width(4294967296));
    assert_eq!(Some(8), unsigned_width(18446744073709551615));
    assert_eq!(None, unsigned_width(18446744073709551616));
    assert_eq!(Some(1), unsigned_width(0));
}

#[test]
fn width_selection_through_resolution() {
    let text = "M ::= BEGIN S ::= SEQUENCE { a INTEGER (0..255), b INTEGER (0..256), c INTEGER (0..65535), d INTEGER (0..4294967295), e INTEGER (0..18446744073709551615) } END";
    let schema = AsnModule::parse(text).unwrap().resolve().unwrap();
    let widths: Vec<WireType> = schema.sequences[0].fields.iter().map(|f| f.wire_type).collect();
    assert_eq!(
        vec![
            WireType::FixedUnsigned(1),
            WireType::FixedUnsigned(2),
            WireType::FixedUnsigned(2),
            WireType::FixedUnsigned(4),
            WireType::FixedUnsigned(8)
        ],
        widths
    );
}

#[test]
fn resolve_errors() {
    let module = AsnModule::parse("M ::= BEGIN S ::= SEQUENCE { a Missing } END").unwrap();
    assert!(matches!(module.resolve(), Err(ResolveError::UnresolvedType("Missing"))));
    let module = AsnModule::parse("M ::= BEGIN S ::= SEQUENCE { a INTEGER (1..5) } END").unwrap();
    assert!(matches!(module.resolve(), Err(ResolveError::InvalidBounds(1, 5))));
    let module = AsnModule::parse("M ::= BEGIN S ::= SEQUENCE { a INTEGER (0..-1) } END").unwrap();
    assert!(matches!(module.resolve(), Err(ResolveError::InvalidBounds(0, -1))));
    let module =
        AsnModule::parse("M ::= BEGIN S ::= SEQUENCE { a INTEGER (0..18446744073709551616) } END").unwrap();
    assert!(matches!(module.resolve(), Err(ResolveError::UnsupportedWidth)));
}

#[test]
fn parse_errors() {
    assert_eq!(Some(ParseError::EmptyInput), AsnModule::parse(" \n ").err());
    assert_eq!(
        Some(ParseError::UnterminatedSequence),
        AsnModule::parse("M ::= BEGIN S ::= SEQUENCE { a INTEGER").err()
    );
    assert_eq!(
        Some(ParseError::MalformedBound),
        AsnModule::parse("M ::= BEGIN S ::= SEQUENCE { a INTEGER (0-5) } END").err()
    );
    assert_eq!(
        Some(ParseError::UnexpectedToken),
        AsnModule::parse("M ::= BEGIN S ::= SEQUENCE { a INTEGER INTEGER INTEGER } END").err()
    );
    assert_eq!(
        Some(ParseError::UnexpectedToken),
        AsnModule::parse("M ::= BEGIN S = SEQUENCE { a INTEGER } END").err()
    );
    assert_eq!(
        Some(ParseError::DuplicateName),
        AsnModule::parse("M ::= BEGIN S ::= SEQUENCE { a INTEGER } S ::= SEQUENCE { b INTEGER } END").err()
    );
}

#[test]
fn tokens_keep_every_character_but_whitespace() {
    let text = "A ::= SEQUENCE {\n  w INTEGER (0..255),\u{a0}h Other }";
    let joined: String = lexer::tokenizer(text).concat();
    let expected: String = text.chars().filter(|c| !c.is_whitespace()).collect();
    assert_eq!(expected, joined);
    assert_eq!("a,b, c", lexer::split_keep_separator("a,b, c").concat());
}

#[test]
fn type_aliases() {
    let text = "M DEFINITIONS ::= BEGIN
        Byte ::= INTEGER (0..255)
        Count ::= Byte
        Number ::= INTEGER
        S ::= SEQUENCE { a Byte, b Count, c Number }
    END";
    let module = AsnModule::parse(text).unwrap();
    assert_eq!(
        vec![
            AsnAlias { name: "Byte", alias_type: AsnType::BoundedInteger { min: 0, max: 255 } },
            AsnAlias { name: "Count", alias_type: AsnType::Custom("Byte") },
            AsnAlias { name: "Number", alias_type: AsnType::Integer },
        ],
        module.type_aliases
    );
    let schema = module.resolve().unwrap();
    let types: Vec<WireType> = schema.sequences[0].fields.iter().map(|f| f.wire_type).collect();
    assert_eq!(
        vec![WireType::FixedUnsigned(1), WireType::FixedUnsigned(1), WireType::UnboundedInteger],
        types
    );
}

#[test]
fn alias_cycle() {
    let text = "M ::= BEGIN A ::= B B ::= A S ::= SEQUENCE { x A } END";
    let module = AsnModule::parse(text).unwrap();
    assert_eq!(2, module.type_aliases.len());
    assert!(matches!(module.resolve(), Err(ResolveError::AliasCycle(_))));
    let text = "M ::= BEGIN A ::= A S ::= SEQUENCE { x A } END";
    assert!(matches!(AsnModule::parse(text).unwrap().resolve(), Err(ResolveError::AliasCycle(_))));
}

#[test]
fn duplicate_alias() {
    assert_eq!(
        Some(ParseError::DuplicateName),
        AsnModule::parse("M ::= BEGIN A ::= INTEGER A ::= INTEGER S ::= SEQUENCE { x A } END").err()
    );
}

#[test]
fn bounds_at_the_ends_of_i128() {
    assert_eq!(
        Some((i128::MIN, 0)),
        parse_bounds("(-170141183460469231731687303715884105728..0)")
    );
    assert_eq!(
        Some((0, i128::MIN)),
        parse_bounds("(0..-170141183460469231731687303715884105728)")
    );
    assert_eq!(
        Some((i128::MIN, i128::MAX)),
        parse_bounds("(-170141183460469231731687303715884105728..170141183460469231731687303715884105727)")
    );
    assert_eq!(None, parse_bounds("(-170141183460469231731687303715884105729..0)"));
    assert_eq!(Some((3, 255)), parse_bounds("(+3..255)"));
    assert_eq!(None, parse_bounds("(-..255)"));
    assert_eq!(None, parse_bounds("(+-3..255)"));
}

#[test]
fn first_failing_field_is_reported() {
    let text = "M ::= BEGIN S ::= SEQUENCE { a INTEGER, b INTEGER (2..9), c Missing } END";
    let module = AsnModule::parse(text).unwrap();
    assert!(matches!(module.resolve(), Err(ResolveError::InvalidBounds(2, 9))));
}
