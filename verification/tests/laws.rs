use crabmap::helpers::compact;
use crabmap::model::NodeKind;
use crabmap::query::levenshtein;

fn c(s: &str) -> Vec<char> {
    s.chars().collect()
}

#[test]
fn edit_distance_is_symmetric_and_bounded_by_lengths() {
    let pairs = [("kitten", "sitting"), ("", "abc"), ("flaw", "lawn"), ("same", "same")];
    for (a, b) in pairs {
        let d = levenshtein(&c(a), &c(b));
        assert_eq!(d, levenshtein(&c(b), &c(a)));
        let (la, lb) = (a.chars().count(), b.chars().count());
        assert!(la.abs_diff(lb) <= d && d <= la.max(lb));
        assert_eq!(d == 0, a == b);
    }
    assert_eq!(levenshtein(&c("flaw"), &c("lawn")), 2);
}

#[test]
fn compacting_twice_changes_nothing() {
    let once = compact("pub fn  f (\n\tx : u8 )".to_string());
    assert_eq!(once, "pub fn f ( x : u8 )");
    assert_eq!(compact(once.clone()), once);
    assert!(!once.contains("  "));
}

#[test]
fn node_kind_names_are_distinct_snake_case() {
    let kinds = [
        NodeKind::Project, NodeKind::Crate, NodeKind::File, NodeKind::Module, NodeKind::Function,
        NodeKind::Method, NodeKind::Constructor, NodeKind::Variable, NodeKind::Field,
        NodeKind::Property, NodeKind::Struct, NodeKind::Enum, NodeKind::EnumMember, NodeKind::Trait,
        NodeKind::Impl, NodeKind::TypeAlias, NodeKind::TypeParameter, NodeKind::Const,
        NodeKind::Static, NodeKind::Macro, NodeKind::Unknown,
    ];
    for (i, a) in kinds.iter().enumerate() {
        for b in kinds.iter().skip(i + 1) {
            assert_ne!(a.as_str(), b.as_str());
        }
    }
    assert_eq!(NodeKind::EnumMember.as_str(), "enum_member");
    assert_eq!(NodeKind::TypeAlias.as_str(), "type_alias");
    assert_eq!(NodeKind::TypeParameter.as_str(), "type_parameter");
    assert_eq!(NodeKind::Function.as_str(), "function");
}
