//! The token-specification model, the grammar types, and source locations.

use turn::derive_input::{
    create_minimal_automaton, parse, AttributeModel, DeriveError, EnumModel, VariantModel,
    VariantRegex,
};
use turn::dfsa::scan_next;
use turn::grammar::{Rule, Symbol};
use turn::location::Location;

fn attr(name: &str, literal: Option<&str>) -> AttributeModel {
    AttributeModel {
        name: name.to_string(),
        is_name_value: true,
        literal: literal.map(|s| s.to_string()),
    }
}

fn unit_variant(name: &str, attrs: Vec<AttributeModel>) -> VariantModel {
    VariantModel {
        name: name.to_string(),
        is_unit: true,
        has_discriminant: false,
        attrs,
    }
}

fn model(variants: Vec<VariantModel>, attrs: Vec<AttributeModel>) -> EnumModel {
    EnumModel {
        name: "Token".to_string(),
        is_enum: true,
        attrs,
        variants,
    }
}

#[test]
fn model_accepts_plain_enum() {
    let input = model(
        vec![
            unit_variant("One", vec![attr("token", Some("one"))]),
            unit_variant("Two", vec![attr("regex", Some("a+"))]),
        ],
        vec![],
    );
    let te = parse(input).expect("a plain enum must parse");
    assert_eq!(te.name, "Token");
    assert_eq!(te.skip_regex, "<whitespace>*");
    assert_eq!(
        te.variants,
        vec![
            (
                "One".to_string(),
                vec![VariantRegex::Token("one".to_string())]
            ),
            (
                "Two".to_string(),
                vec![VariantRegex::Regex("a+".to_string())]
            ),
        ]
    );
}

#[test]
fn model_reads_skip() {
    let input = model(
        vec![unit_variant("One", vec![attr("token", Some("one"))])],
        vec![attr("skip", Some(" *"))],
    );
    let te = parse(input).unwrap();
    assert_eq!(te.skip_regex, " *");
}

#[test]
fn model_rejects_non_enum() {
    let mut input = model(vec![], vec![]);
    input.is_enum = false;
    assert_eq!(parse(input), Err(DeriveError::NotAnEnum));
}

#[test]
fn model_rejects_data_variant() {
    let mut variant = unit_variant("One", vec![attr("token", Some("one"))]);
    variant.is_unit = false;
    assert_eq!(
        parse(model(vec![variant], vec![])),
        Err(DeriveError::NonUnitVariant)
    );
}

#[test]
fn model_rejects_discriminant() {
    let mut variant = unit_variant("One", vec![attr("token", Some("one"))]);
    variant.has_discriminant = true;
    assert_eq!(
        parse(model(vec![variant], vec![])),
        Err(DeriveError::ExplicitDiscriminant)
    );
}

#[test]
fn model_rejects_rule_at_enum_scope() {
    assert_eq!(
        parse(model(vec![], vec![attr("token", Some("one"))])),
        Err(DeriveError::TokenAtEnumLevel)
    );
    assert_eq!(
        parse(model(vec![], vec![attr("regex", Some("a+"))])),
        Err(DeriveError::RegexAtEnumLevel)
    );
}

#[test]
fn model_rejects_multiple_skip() {
    assert_eq!(
        parse(model(
            vec![],
            vec![attr("skip", Some(" ")), attr("skip", Some(" "))]
        )),
        Err(DeriveError::MultipleSkip)
    );
}

#[test]
fn model_rejects_ruleless_variant() {
    assert_eq!(
        parse(model(vec![unit_variant("One", vec![])], vec![])),
        Err(DeriveError::MissingRegex)
    );
}

#[test]
fn model_compiles_to_automaton() {
    let input = model(
        vec![
            unit_variant("One", vec![attr("token", Some("one"))]),
            unit_variant("Number", vec![attr("regex", Some("<0-9>+"))]),
        ],
        vec![],
    );
    let te = parse(input).unwrap();
    let dfa = create_minimal_automaton(&te).expect("the rules must compile");
    let input: Vec<char> = "one".chars().collect();
    assert_eq!(scan_next(&dfa, &input, 0), Some((0, 3)));
    let input: Vec<char> = "451".chars().collect();
    assert_eq!(scan_next(&dfa, &input, 0), Some((1, 3)));
}

#[test]
fn rule_precedence_defaults_to_last_terminal() {
    let rule: Rule<u32, &str> = Rule::new(
        "expr",
        vec![
            Symbol::Nonterminal("expr"),
            Symbol::Terminal(1),
            Symbol::Nonterminal("term"),
        ],
    );
    let explicit = Rule::with_precedence(
        "expr",
        vec![
            Symbol::Nonterminal("expr"),
            Symbol::Terminal(1),
            Symbol::Nonterminal("term"),
        ],
        9,
    );
    assert_ne!(rule, explicit);
    assert_eq!(
        explicit,
        Rule::with_precedence(
            "expr",
            vec![
                Symbol::Nonterminal("expr"),
                Symbol::Terminal(1),
                Symbol::Nonterminal("term"),
            ],
            9,
        )
    );
    assert_eq!(
        rule,
        Rule::with_precedence(
            "expr",
            vec![
                Symbol::Nonterminal("expr"),
                Symbol::Terminal(1),
                Symbol::Nonterminal("term"),
            ],
            1,
        )
    );
}

#[test]
fn locations_advance() {
    let loc = Location::new();
    assert_eq!(loc.row, 1);
    assert_eq!(loc.col, 1);
    assert_eq!(loc.filename, None);

    let mut locf = Location::from_file("stdin");
    assert_eq!(locf.filename, Some("stdin"));
    locf.advance('a');
    assert_eq!(locf.row, 1);
    assert_eq!(locf.col, 2);
    locf.advance('\n');
    assert_eq!(locf.row, 2);
    assert_eq!(locf.col, 1);
}
