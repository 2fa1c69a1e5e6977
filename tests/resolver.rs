use dropin::properties_resolver::{is_declared, resolve, PropertiesResolver};
use dropin::recipe::{Binding, Component, ComponentChild, Extern, Getter, Index, Property};
use dropin::resolution::{resolve_tables, ResolveError};

fn s(text: &str) -> String {
    text.to_string()
}

fn getter(ident: &str, indexes: &[u64]) -> Getter {
    Getter::new(s(ident), indexes.iter().map(|i| Index::Quantity(*i)).collect())
}

fn bind(key: &str, getters: Vec<Getter>) -> Property {
    Property { key: s(key), getters }
}

fn instance(id: &str, properties: Vec<Property>) -> ComponentChild {
    ComponentChild::Extern(Extern { id: s(id), properties })
}

fn component(id: &str, variables: &[&str], children: Vec<ComponentChild>) -> Component {
    Component {
        id: s(id),
        variables: variables.iter().map(|v| s(v)).collect(),
        children,
    }
}

fn row(instance: &str, property: &str, owner: &str, g: Getter) -> Binding {
    Binding { instance: s(instance), property: s(property), owner: s(owner), getter: g }
}

/// A declares `items`; its child B binds `value` to `items[2]`; B's child C binds `label`
/// to `value[0]`.
fn nested_list() -> Vec<Component> {
    vec![
        component("a", &["items"], vec![instance("b", vec![bind("value", vec![getter("items", &[2])])])]),
        component("b", &[], vec![instance("c", vec![bind("label", vec![getter("value", &[0])])])]),
        component("c", &["text"], vec![]),
    ]
}

#[test]
fn index_composition_through_one_redirection() {
    let state = resolve(&nested_list()).unwrap();
    let c = state.properties_of(&s("c"));
    assert_eq!(c, vec![row("c", "label", "a", getter("items", &[2, 0]))]);
    let b = state.properties_of(&s("b"));
    assert_eq!(b, vec![row("b", "value", "a", getter("items", &[2]))]);
}

#[test]
fn index_composition_through_two_redirections() {
    let mut components = nested_list();
    components[2] = component("c", &["text"], vec![instance("d", vec![bind("caption", vec![getter("label", &[5])])])]);
    let state = resolve(&components).unwrap();
    assert_eq!(
        state.properties_of(&s("d")),
        vec![row("d", "caption", "a", getter("items", &[2, 0, 5]))]
    );
    let crossed = state.redirections_of(&s("d"));
    assert_eq!(
        crossed,
        vec![
            row("d", "caption", "c", getter("label", &[5])),
            row("d", "caption", "b", getter("value", &[0])),
        ]
    );
}

#[test]
fn redirections_are_kept_and_hops_recorded() {
    let state = resolve(&nested_list()).unwrap();
    assert_eq!(state.redirections_of(&s("c")), vec![row("c", "label", "b", getter("value", &[0]))]);
    assert_eq!(state.redirections_of(&s("b")), vec![]);
}

#[test]
fn cross_product_of_terminals_and_getters() {
    let components = vec![
        component(
            "a",
            &["x", "y"],
            vec![instance("b", vec![bind("value", vec![getter("x", &[]), getter("y", &[])])])],
        ),
        component(
            "b",
            &[],
            vec![instance("c", vec![bind("label", vec![getter("value", &[0]), getter("value", &[1])])])],
        ),
    ];
    let state = resolve(&components).unwrap();
    let c = state.properties_of(&s("c"));
    assert_eq!(c.len(), 4);
    assert_eq!(
        c,
        vec![
            row("c", "label", "a", getter("x", &[0])),
            row("c", "label", "a", getter("x", &[1])),
            row("c", "label", "a", getter("y", &[0])),
            row("c", "label", "a", getter("y", &[1])),
        ]
    );
}

#[test]
fn two_instances_redirecting_to_each_other_fail_with_cycle() {
    let components = vec![
        component("b", &[], vec![instance("a", vec![bind("p", vec![getter("q", &[])])])]),
        component("a", &[], vec![instance("b", vec![bind("q", vec![getter("p", &[])])])]),
    ];
    let err = resolve(&components).unwrap_err();
    assert_eq!(err, ResolveError::Cycle { owner: s("b"), ident: s("q") });
}

#[test]
fn self_redirection_fails_with_cycle() {
    let components = vec![component("a", &[], vec![instance("a", vec![bind("p", vec![getter("p", &[])])])])];
    let err = resolve(&components).unwrap_err();
    assert_eq!(err, ResolveError::Cycle { owner: s("a"), ident: s("p") });
}

#[test]
fn unknown_identifier_is_unresolved() {
    let components = vec![component("a", &["x"], vec![instance("b", vec![bind("v", vec![getter("missing", &[])])])])];
    let err = resolve(&components).unwrap_err();
    assert_eq!(err, ResolveError::UnresolvedReference { owner: s("a"), ident: s("missing") });
}

#[test]
fn every_bound_property_is_in_the_direct_table() {
    let mut components = nested_list();
    components[1].children.push(instance("e", vec![bind("first", vec![getter("value", &[])]), bind("empty", vec![])]));
    let state = resolve(&components).unwrap();
    for (inst, prop) in [("b", "value"), ("c", "label"), ("e", "first")] {
        let rows = state.properties_of(&s(inst));
        assert!(rows.iter().any(|r| r.property == prop), "{inst}.{prop} missing");
    }
    assert!(state.properties_of(&s("e")).iter().all(|r| r.property != "empty"));
}

#[test]
fn resolving_twice_gives_the_same_tables() {
    let components = nested_list();
    let first = resolve(&components).unwrap();
    let second = resolve(&components).unwrap();
    for id in ["a", "b", "c"] {
        assert_eq!(first.properties_of(&s(id)), second.properties_of(&s(id)));
        assert_eq!(first.redirections_of(&s(id)), second.redirections_of(&s(id)));
    }
}

#[test]
fn is_variable_only_for_declared_identifiers() {
    let state = resolve(&nested_list()).unwrap();
    assert!(state.is_variable(&s("a"), &s("items")));
    assert!(state.is_variable(&s("c"), &s("text")));
    assert!(!state.is_variable(&s("b"), &s("value")));
    assert!(!state.is_variable(&s("a"), &s("value")));
    assert!(!state.is_variable(&s("c"), &s("items")));
    assert!(!state.is_variable(&s("unknown"), &s("items")));
}

#[test]
fn empty_model_resolves_to_empty_tables() {
    let state = resolve(&vec![]).unwrap();
    assert_eq!(state.properties_of(&s("a")), vec![]);
    assert!(!state.is_variable(&s("a"), &s("x")));
}

#[test]
fn text_and_input_children_bind_nothing() {
    let components = vec![component(
        "a",
        &["x"],
        vec![ComponentChild::Text(vec![getter("x", &[])]), ComponentChild::Input(getter("x", &[]))],
    )];
    let state = resolve(&components).unwrap();
    assert_eq!(state.properties_of(&s("a")), vec![]);
}

#[test]
fn resolver_visits_components_one_by_one() {
    let mut resolver = PropertiesResolver::new();
    for c in nested_list().iter() {
        resolver.visit_component(c);
    }
    let state = resolver.build().unwrap();
    assert_eq!(state.properties_of(&s("c")), vec![row("c", "label", "a", getter("items", &[2, 0]))]);
}

#[test]
fn tables_resolve_directly() {
    let direct = vec![row("b", "value", "a", getter("items", &[1]))];
    let redirect = vec![row("c", "label", "b", getter("value", &[3]))];
    let (properties, redirections) = resolve_tables(&direct, &redirect).unwrap();
    assert_eq!(
        properties,
        vec![row("b", "value", "a", getter("items", &[1])), row("c", "label", "a", getter("items", &[1, 3]))]
    );
    assert_eq!(redirections, redirect);
}

#[test]
fn declared_lookup() {
    let vars = vec![s("x"), s("y")];
    assert!(is_declared(&vars, &s("y")));
    assert!(!is_declared(&vars, &s("z")));
}

#[test]
fn getter_suffix_appends_steps() {
    let g = Getter::new(s("v"), vec![Index::Quantity(1), Index::Text(s("k"))]);
    let r = g.with_suffix(&vec![Index::Quantity(7)]);
    assert_eq!(r, Getter::new(s("v"), vec![Index::Quantity(1), Index::Text(s("k")), Index::Quantity(7)]));
    assert_eq!(g.duplicate(), g);
}

#[test]
fn same_source_reached_twice_is_published_once() {
    let components = vec![
        component(
            "a",
            &["x"],
            vec![instance("c", vec![bind("l", vec![getter("x", &[])])]), instance("b", vec![bind("v", vec![getter("x", &[])])])],
        ),
        component("b", &[], vec![instance("c", vec![bind("l", vec![getter("v", &[])])])]),
    ];
    let state = resolve(&components).unwrap();
    assert_eq!(state.properties_of(&s("c")), vec![row("c", "l", "a", getter("x", &[]))]);
    assert_eq!(state.properties_of(&s("b")), vec![row("b", "v", "a", getter("x", &[]))]);
}

#[test]
fn getters_of_different_properties_are_paired_with_every_terminal() {
    let components = vec![
        component(
            "a",
            &["x", "y"],
            vec![instance("b", vec![bind("u", vec![getter("x", &[])]), bind("w", vec![getter("y", &[])])])],
        ),
        component(
            "b",
            &[],
            vec![instance("c", vec![bind("label", vec![getter("u", &[1]), getter("w", &[2])])])],
        ),
    ];
    let state = resolve(&components).unwrap();
    assert_eq!(
        state.properties_of(&s("c")),
        vec![
            row("c", "label", "a", getter("x", &[1])),
            row("c", "label", "a", getter("x", &[2])),
            row("c", "label", "a", getter("y", &[1])),
            row("c", "label", "a", getter("y", &[2])),
        ]
    );
}

#[test]
fn duplicate_getters_in_one_expression_give_one_row() {
    let components = vec![component("a", &["x"], vec![instance("b", vec![bind("v", vec![getter("x", &[]), getter("x", &[])])])])];
    let state = resolve(&components).unwrap();
    assert_eq!(state.properties_of(&s("b")), vec![row("b", "v", "a", getter("x", &[]))]);
}
