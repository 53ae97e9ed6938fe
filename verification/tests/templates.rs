//! Path templates.
use byssus::name::{Name, MAX_NAME_LEN};
use byssus::state::is_clean_relative;
use byssus::template::{InterpolateError, Template, TemplateError, MAX_PATH_LEN};

fn name(s: &str) -> Name {
    Name::new(s).unwrap()
}

#[test]
fn simple_templates() {
    let t = Template::parse("{name}/workspace").unwrap();
    assert_eq!(
        t.interpolate(&name("libcurl")).unwrap(),
        "libcurl/workspace"
    );
    assert_eq!(t.as_str(), "{name}/workspace");

    let t = Template::parse("{name}").unwrap();
    assert_eq!(t.interpolate(&name("x")).unwrap(), "x");
}

#[test]
fn multiple_and_embedded_placeholders() {
    let t = Template::parse("pre-{name}-post/{name}/{name}{name}").unwrap();
    assert_eq!(
        t.components(&name("ab")).unwrap(),
        vec!["pre-ab-post", "ab", "abab"]
    );
}

#[test]
fn literals_may_contain_dots_and_unicode() {
    let t = Template::parse("..hidden/{name}/.git/é").unwrap();
    assert_eq!(t.interpolate(&name("n")).unwrap(), "..hidden/n/.git/é");
}

#[test]
fn rejects_structural_errors() {
    assert_eq!(Template::parse(""), Err(TemplateError::Empty));
    assert_eq!(Template::parse("/{name}"), Err(TemplateError::Absolute));
    assert_eq!(
        Template::parse("{name}/"),
        Err(TemplateError::TrailingSlash)
    );
    assert_eq!(
        Template::parse("a//{name}"),
        Err(TemplateError::EmptyComponent)
    );
    assert_eq!(
        Template::parse("../{name}"),
        Err(TemplateError::DotComponent("..".into()))
    );
    assert_eq!(
        Template::parse("{name}/."),
        Err(TemplateError::DotComponent(".".into()))
    );
    assert_eq!(Template::parse("a\0/{name}"), Err(TemplateError::Nul));
    assert_eq!(
        Template::parse("workspace"),
        Err(TemplateError::MissingName)
    );
}

#[test]
fn rejects_invalid_braces() {
    let cases = [
        ("{foo}/{name}", "{foo}", 0),
        ("{name}/{NAME}", "{NAME}", 7),
        ("a{/{name}", "{", 1),
        ("{name}}", "}", 6),
        ("x/}{name}", "}", 2),
        ("{name/x", "{", 0),
        ("{{name}}", "{{name}", 0),
    ];
    for (input, found, offset) in cases {
        assert_eq!(
            Template::parse(input),
            Err(TemplateError::InvalidBrace {
                found: found.into(),
                offset
            }),
            "{input}"
        );
    }
}

#[test]
fn literal_component_length() {
    let long = "a".repeat(MAX_NAME_LEN + 1);
    assert_eq!(
        Template::parse(&format!("{long}/{{name}}")),
        Err(TemplateError::ComponentTooLong(MAX_NAME_LEN + 1))
    );
    let ok = "a".repeat(MAX_NAME_LEN);
    assert!(Template::parse(&format!("{ok}/{{name}}")).is_ok());
}

#[test]
fn interpolated_component_length() {
    let t = Template::parse("prefix-{name}").unwrap();
    let n = name(&"a".repeat(MAX_NAME_LEN));
    assert_eq!(
        t.components(&n),
        Err(InterpolateError::ComponentTooLong(MAX_NAME_LEN + 7))
    );
}

#[test]
fn interpolated_path_length() {
    // 16 components of a 255-byte name plus 15 separators = 4095: allowed.
    let raw = vec!["{name}"; 16].join("/");
    let t = Template::parse(&raw).unwrap();
    let n = name(&"a".repeat(MAX_NAME_LEN));
    assert_eq!(t.interpolate(&n).unwrap().len(), MAX_PATH_LEN);

    let raw = format!("{raw}/x{{name}}");
    let t = Template::parse(&raw).unwrap();
    let n = name(&"a".repeat(MAX_NAME_LEN - 1));
    assert!(matches!(
        t.components(&n),
        Err(InterpolateError::PathTooLong(_))
    ));
}

#[test]
fn level_placeholders_only_in_sets() {
    assert_eq!(
        Template::parse("{group}/{name}"),
        Err(TemplateError::GroupNotAllowed)
    );
    assert_eq!(
        Template::parse("{subgroup}/{name}"),
        Err(TemplateError::GroupNotAllowed)
    );
    let t = Template::parse_for_set("{group}/groups/{subgroup}/view/{name}").unwrap();
    assert_eq!(t.depth(), 2);
    assert!(t.has_level(0) && t.has_level(1));
    let one = Template::parse_for_set("{group}/projects/{name}").unwrap();
    assert_eq!(one.depth(), 1);
    assert!(!one.has_level(1));
    assert_eq!(Template::parse_for_set("{name}").unwrap().depth(), 0);
    assert_eq!(
        Template::parse_for_set("{group}/x"),
        Err(TemplateError::MissingName)
    );
    assert!(matches!(
        Template::parse_for_set("{groups}/{name}"),
        Err(TemplateError::InvalidBrace { .. })
    ));
}

#[test]
fn bind_levels_substitutes_and_keeps_name() {
    let t = Template::parse_for_set("{group}/groups/{subgroup}/view-{group}/{name}").unwrap();
    let bound = t.bind_levels(&[name("acme"), name("research")]).unwrap();
    assert_eq!(bound.depth(), 0);
    assert_eq!(bound.as_str(), "acme/groups/research/view-acme/{name}");
    assert_eq!(
        bound.interpolate(&name("webapp")).unwrap(),
        "acme/groups/research/view-acme/webapp"
    );
    assert_eq!(
        bound,
        Template::parse("acme/groups/research/view-acme/{name}").unwrap()
    );
}

#[test]
fn bind_levels_enforces_component_length() {
    let t = Template::parse_for_set("x{group}/{name}").unwrap();
    let long = name(&"a".repeat(MAX_NAME_LEN));
    assert_eq!(
        t.bind_levels(&[long]),
        Err(InterpolateError::ComponentTooLong(MAX_NAME_LEN + 1))
    );
}

#[test]
fn valid_names_never_introduce_traversal() {
    let t = Template::parse("{name}/{name}.d/x{name}").unwrap();
    for s in ["a", "a.b", "a..b", "-", "_", "a-", "x.."] {
        for c in t.components(&name(s)).unwrap() {
            assert!(c != "." && c != ".." && !c.contains('/') && !c.is_empty());
        }
    }
}

#[test]
fn interpolated_paths_are_clean() {
    for raw in ["{name}", "{name}/workspace", "{name}/{name}.d/x{name}"] {
        let t = Template::parse(raw).unwrap();
        for s in ["a", "a.b", "a..b", "-", "x.."] {
            let path = t.interpolate(&name(s)).unwrap();
            assert!(is_clean_relative(&path), "{path}");
        }
    }
}

#[test]
fn texts_without_levels_parse_alike() {
    for raw in [
        "{name}", "a/{name}.d", "", "/x", "x/", "a//{name}", "{name}/..", "{groups}/{name}", "x", "{", "a}",
    ] {
        let set = Template::parse_for_set(raw);
        assert_eq!(set, Template::parse(raw), "{raw}");
        if let Ok(t) = set {
            assert_eq!(t.depth(), 0);
        }
    }
}

#[test]
fn level_names_replace_their_placeholders() {
    let levels = [name("acme"), name("research")];
    for raw in ["{name}", "{group}{subgroup}/{name}-{group}", "x{subgroup}.{name}/{group}"] {
        let bound = Template::parse_for_set(raw).unwrap().bind_levels(&levels).unwrap();
        let text = raw.replace("{group}", "acme").replace("{subgroup}", "research");
        assert_eq!(bound.as_str(), text);
        assert_eq!(bound, Template::parse(&text).unwrap());
        assert_eq!(bound.depth(), 0);
    }
}
