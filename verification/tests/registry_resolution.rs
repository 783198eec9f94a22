//! Dependency extraction and category resolution against the registry.

use turn::builtin::builtin_categories;
use turn::convert::{convert_categories, hir_to_mir, ResolutionError};
use turn::hir::{SetMember, HIR};
use turn::matchers::CharacterCategory;
use turn::mir;

#[test]
fn hir_dependencies() {
    let hir = HIR::Concatenation(vec![
        HIR::AnyChar,
        HIR::SubRegex("dependency1"),
        HIR::Repetition {
            min: 0,
            max: None,
            regex: Box::new(HIR::Alternation(vec![
                HIR::CharSet(vec![SetMember::Category("0-9"), SetMember::Character('a')]),
                HIR::NegatedSet(vec![
                    SetMember::Category("0-9"),
                    SetMember::Category("dependency2"),
                ]),
            ])),
        },
    ]);

    let mut deps = hir.dependencies();
    deps.sort_unstable();
    assert_eq!(deps, vec!["0-9", "dependency1", "dependency2"]);
}

/// A category graph with a cycle must fail with the stuck names.
#[test]
fn cyclic_dependencies_fail() {
    let categories = vec![
        ("A", vec![SetMember::Category("B")]),
        ("B", vec![SetMember::Category("A")]),
    ];
    match convert_categories(categories, builtin_categories()) {
        Err(ResolutionError::CyclicOrMissingDependency(mut stuck)) => {
            stuck.sort_unstable();
            assert_eq!(stuck, vec!["A", "B"]);
        }
        _ => panic!("a cycle must be reported"),
    }
}

/// A missing dependency blocks its dependents the same way.
#[test]
fn missing_dependency_fails() {
    let categories = vec![("A", vec![SetMember::Category("nowhere")])];
    match convert_categories(categories, builtin_categories()) {
        Err(ResolutionError::CyclicOrMissingDependency(stuck)) => {
            assert_eq!(stuck, vec!["A"]);
        }
        _ => panic!("a missing name must be reported"),
    }
}

/// A valid diamond dependency resolves the same whatever the entry order.
#[test]
fn diamond_resolves_deterministically() {
    let expected_c = vec![
        mir::SetMember::Category(CharacterCategory::Utf8Numeric),
        mir::SetMember::Character('a'),
        mir::SetMember::Category(CharacterCategory::Utf8Numeric),
        mir::SetMember::Character('b'),
    ];
    for order in 0..2 {
        let a = ("A", vec![SetMember::Category("digit"), SetMember::Character('a')]);
        let b = ("B", vec![SetMember::Category("digit"), SetMember::Character('b')]);
        let c = ("C", vec![SetMember::Category("A"), SetMember::Category("B")]);
        let categories = if order == 0 {
            vec![a, b, c]
        } else {
            vec![c, b, a]
        };
        let registry = convert_categories(categories, builtin_categories()).expect("must resolve");
        assert_eq!(
            registry.lookup_category("A").unwrap(),
            &vec![
                mir::SetMember::Category(CharacterCategory::Utf8Numeric),
                mir::SetMember::Character('a'),
            ]
        );
        assert_eq!(registry.lookup_category("C").unwrap(), &expected_c);
        assert_eq!(registry.lookup_category("digit"), None);
        assert_eq!(
            registry.lookup_builtin("digit"),
            Some(CharacterCategory::Utf8Numeric)
        );
    }
}

#[test]
fn builtin_table() {
    let table = builtin_categories();
    assert_eq!(table.len(), 14);
    assert_eq!(table[0], ("lower", CharacterCategory::Utf8Lowercase));
    assert_eq!(table[4], ("digit", CharacterCategory::Utf8Numeric));
    assert_eq!(table[13], (" ", CharacterCategory::ASCIIWhitespace));
}

/// Resolving a tree inlines builtin tags and splices user categories.
#[test]
fn resolve_tree() {
    let categories = vec![("hex", vec![SetMember::Category("0x")])];
    let registry = convert_categories(categories, builtin_categories()).unwrap();
    let hir = HIR::Concatenation(vec![
        HIR::SubRegex("digit"),
        HIR::CharSet(vec![SetMember::Category("hex"), SetMember::Character('_')]),
    ]);
    let mir = hir_to_mir(&hir, &registry).unwrap();
    assert_eq!(
        mir,
        mir::MIR::Concatenation(vec![
            mir::MIR::Category(CharacterCategory::Utf8Numeric),
            mir::MIR::CharSet(vec![
                mir::SetMember::Category(CharacterCategory::ASCIIHexDigit),
                mir::SetMember::Character('_'),
            ]),
        ])
    );
}

/// An unresolved reference names the offender.
#[test]
fn resolve_unknown_name() {
    let registry = convert_categories(vec![], builtin_categories()).unwrap();
    let hir = HIR::SubRegex("nope");
    assert_eq!(
        hir_to_mir(&hir, &registry),
        Err(ResolutionError::UnknownCategory("nope"))
    );
}
