use bscc::cost::{parse_project_type, ProjectType};

#[test]
fn project_type_from_str_accepts_variants() {
    assert_eq!("organic".parse::<ProjectType>().unwrap(), ProjectType::Organic);
    assert_eq!(
        "semi_detached".parse::<ProjectType>().unwrap(),
        ProjectType::SemiDetached
    );
    assert_eq!(
        "semi-detached".parse::<ProjectType>().unwrap(),
        ProjectType::SemiDetached
    );
    assert_eq!(
        "EMBEDDED".parse::<ProjectType>().unwrap(),
        ProjectType::Embedded
    );
    assert!("nonsense".parse::<ProjectType>().is_err());
}

#[test]
fn project_type_parse_trims_and_names_the_input() {
    assert_eq!(parse_project_type("  SemiDetached\t").unwrap(), ProjectType::SemiDetached);
    let err = parse_project_type(" Foo ").unwrap_err();
    assert_eq!(
        err,
        "unknown project type \"foo\"; expected organic, semi_detached, or embedded"
    );
}

#[test]
fn project_type_names() {
    assert_eq!(ProjectType::Organic.as_str(), "organic");
    assert_eq!(ProjectType::SemiDetached.as_str(), "semi_detached");
    assert_eq!(ProjectType::Embedded.as_str(), "embedded");
}
