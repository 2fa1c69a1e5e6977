use vstd::prelude::*;
use crate::lemmas::lemma_resolution_keeps_classification;
use crate::resolution::{resolve_tables, resolved, ResolveError, ResolveErrorView};
use crate::recipe::{
    child_rows, collected, component_rows, declares, getter_rows, property_rows, push_row, rows,
    Binding, BindingView, Component, ComponentChild, Getter, Property,
};

verus! {

/// Whether `ident` is one of `variables`.
pub fn is_declared(variables: &Vec<String>, ident: &String) -> (r: bool)
    ensures
        r == declares(variables@, ident@),
{
    let mut i: usize = 0;
    while i < variables.len()
        invariant
            i <= variables.len(),
            forall|k: int| 0 <= k < i ==> #[trigger] variables@[k]@ != ident@,
        decreases variables.len() - i,
    {
        if variables[i] == *ident {
            return true;
        }
        i = i + 1;
    }
    false
}

fn copy_strings(v: &Vec<String>) -> (r: Vec<String>)
    ensures
        r@ == v@,
{
    let mut r: Vec<String> = Vec::new();
    let mut i: usize = 0;
    while i < v.len()
        invariant
            i <= v.len(),
            r@ == v@.take(i as int),
        decreases v.len() - i,
    {
        r.push(v[i].clone());
        i = i + 1;
        assert(r@ =~= v@.take(i as int));
    }
    assert(v@.take(v@.len() as int) =~= v@);
    r
}

/// Classifies one getter bound to `instance`'s `property` inside `owner`: direct when it
/// reads a variable that `owner` declares, a redirection otherwise.
fn visit_getter(
    instance: &String,
    property: &String,
    owner: &String,
    variables: &Vec<String>,
    getter: &Getter,
    direct: &mut Vec<Binding>,
    redirect: &mut Vec<Binding>,
)
    ensures
        ({
            let row = BindingView {
                instance: instance@,
                property: property@,
                owner: owner@,
                getter: getter@,
            };
            if declares(variables@, getter.ident@) {
                rows(final(direct)@) == rows(old(direct)@).push(row) && final(redirect)@
                    == old(redirect)@
            } else {
                rows(final(redirect)@) == rows(old(redirect)@).push(row) && final(direct)@
                    == old(direct)@
            }
        }),
{
    let row = Binding {
        instance: instance.clone(),
        property: property.clone(),
        owner: owner.clone(),
        getter: getter.duplicate(),
    };
    if is_declared(variables, &getter.ident) {
        push_row(direct, row);
    } else {
        push_row(redirect, row);
    }
}

fn visit_getters(
    instance: &String,
    property: &String,
    owner: &String,
    variables: &Vec<String>,
    gs: &Vec<Getter>,
    direct: &mut Vec<Binding>,
    redirect: &mut Vec<Binding>,
)
    ensures
        rows(final(direct)@) == rows(old(direct)@) + getter_rows(
            instance@,
            property@,
            owner@,
            variables@,
            gs@,
            true,
        ),
        rows(final(redirect)@) == rows(old(redirect)@) + getter_rows(
            instance@,
            property@,
            owner@,
            variables@,
            gs@,
            false,
        ),
{
    let mut i: usize = 0;
    while i < gs.len()
        invariant
            i <= gs.len(),
            rows(direct@) == rows(old(direct)@) + getter_rows(
                instance@,
                property@,
                owner@,
                variables@,
                gs@.take(i as int),
                true,
            ),
            rows(redirect@) == rows(old(redirect)@) + getter_rows(
                instance@,
                property@,
                owner@,
                variables@,
                gs@.take(i as int),
                false,
            ),
        decreases gs.len() - i,
    {
        visit_getter(instance, property, owner, variables, &gs[i], direct, redirect);
        assert(gs@.take(i as int + 1).drop_last() =~= gs@.take(i as int));
        assert(gs@.take(i as int + 1).last() == gs@[i as int]);
        assert(rows(direct@) =~= rows(old(direct)@) + getter_rows(
            instance@,
            property@,
            owner@,
            variables@,
            gs@.take(i as int + 1),
            true,
        ));
        assert(rows(redirect@) =~= rows(old(redirect)@) + getter_rows(
            instance@,
            property@,
            owner@,
            variables@,
            gs@.take(i as int + 1),
            false,
        ));
        i = i + 1;
    }
    assert(gs@.take(gs@.len() as int) =~= gs@);
}

fn visit_properties(
    instance: &String,
    owner: &String,
    variables: &Vec<String>,
    ps: &Vec<Property>,
    direct: &mut Vec<Binding>,
    redirect: &mut Vec<Binding>,
)
    ensures
        rows(final(direct)@) == rows(old(direct)@) + property_rows(
            instance@,
            owner@,
            variables@,
            ps@,
            true,
        ),
        rows(final(redirect)@) == rows(old(redirect)@) + property_rows(
            instance@,
            owner@,
            variables@,
            ps@,
            false,
        ),
{
    let mut i: usize = 0;
    while i < ps.len()
        invariant
            i <= ps.len(),
            rows(direct@) == rows(old(direct)@) + property_rows(
                instance@,
                owner@,
                variables@,
                ps@.take(i as int),
                true,
            ),
            rows(redirect@) == rows(old(redirect)@) + property_rows(
                instance@,
                owner@,
                variables@,
                ps@.take(i as int),
                false,
            ),
        decreases ps.len() - i,
    {
        let p = &ps[i];
        visit_getters(instance, &p.key, owner, variables, &p.getters, direct, redirect);
        assert(ps@.take(i as int + 1).drop_last() =~= ps@.take(i as int));
        assert(ps@.take(i as int + 1).last() == ps@[i as int]);
        assert(rows(direct@) =~= rows(old(direct)@) + property_rows(
            instance@,
            owner@,
            variables@,
            ps@.take(i as int + 1),
            true,
        ));
        assert(rows(redirect@) =~= rows(old(redirect)@) + property_rows(
            instance@,
            owner@,
            variables@,
            ps@.take(i as int + 1),
            false,
        ));
        i = i + 1;
    }
    assert(ps@.take(ps@.len() as int) =~= ps@);
}

fn visit_children(
    owner: &String,
    variables: &Vec<String>,
    children: &Vec<ComponentChild>,
    direct: &mut Vec<Binding>,
    redirect: &mut Vec<Binding>,
)
    ensures
        rows(final(direct)@) == rows(old(direct)@) + child_rows(owner@, variables@, children@, true),
        rows(final(redirect)@) == rows(old(redirect)@) + child_rows(
            owner@,
            variables@,
            children@,
            false,
        ),
{
    let mut i: usize = 0;
    while i < children.len()
        invariant
            i <= children.len(),
            rows(direct@) == rows(old(direct)@) + child_rows(
                owner@,
                variables@,
                children@.take(i as int),
                true,
            ),
            rows(redirect@) == rows(old(redirect)@) + child_rows(
                owner@,
                variables@,
                children@.take(i as int),
                false,
            ),
        decreases children.len() - i,
    {
        assert(children@.take(i as int + 1).drop_last() =~= children@.take(i as int));
        assert(children@.take(i as int + 1).last() == children@[i as int]);
        match &children[i] {
            ComponentChild::Extern(x) => {
                visit_properties(&x.id, owner, variables, &x.properties, direct, redirect);
                assert(rows(direct@) =~= rows(old(direct)@) + child_rows(
                    owner@,
                    variables@,
                    children@.take(i as int + 1),
                    true,
                ));
                assert(rows(redirect@) =~= rows(old(redirect)@) + child_rows(
                    owner@,
                    variables@,
                    children@.take(i as int + 1),
                    false,
                ));
            },
            _ => {},
        }
        i = i + 1;
    }
    assert(children@.take(children@.len() as int) =~= children@);
}

/// Whether `rows` all have the owner `owner` and read names that `variables` declares
/// (`direct`) or does not declare (`!direct`).
pub open spec fn rows_classified(
    rows: Seq<BindingView>,
    owner: Seq<char>,
    variables: Seq<String>,
    direct: bool,
) -> bool {
    forall|k: int|
        #![trigger rows[k]]
        0 <= k < rows.len() ==> rows[k].owner == owner && declares(
            variables,
            rows[k].getter.ident,
        ) == direct
}

proof fn lemma_classified_concat(
    a: Seq<BindingView>,
    b: Seq<BindingView>,
    owner: Seq<char>,
    variables: Seq<String>,
    direct: bool,
)
    requires
        rows_classified(a, owner, variables, direct),
        rows_classified(b, owner, variables, direct),
    ensures
        rows_classified(a + b, owner, variables, direct),
{
    assert forall|k: int| 0 <= k < (a + b).len() implies #[trigger] (a + b)[k].owner == owner
        && declares(variables, (a + b)[k].getter.ident) == direct by {
        if k < a.len() {
            assert((a + b)[k] == a[k]);
        } else {
            assert((a + b)[k] == b[k - a.len()]);
        }
    }
}

proof fn lemma_getter_rows_classified(
    instance: Seq<char>,
    property: Seq<char>,
    owner: Seq<char>,
    variables: Seq<String>,
    gs: Seq<Getter>,
    direct: bool,
)
    ensures
        rows_classified(getter_rows(instance, property, owner, variables, gs, direct), owner, variables, direct),
    decreases gs.len(),
{
    if gs.len() > 0 {
        lemma_getter_rows_classified(instance, property, owner, variables, gs.drop_last(), direct);
        let prev = getter_rows(instance, property, owner, variables, gs.drop_last(), direct);
        let r = getter_rows(instance, property, owner, variables, gs, direct);
        assert forall|k: int| 0 <= k < r.len() implies #[trigger] r[k].owner == owner && declares(
            variables,
            r[k].getter.ident,
        ) == direct by {
            if k < prev.len() {
                assert(r[k] == prev[k]);
            }
        }
    }
}

proof fn lemma_property_rows_classified(
    instance: Seq<char>,
    owner: Seq<char>,
    variables: Seq<String>,
    ps: Seq<Property>,
    direct: bool,
)
    ensures
        rows_classified(property_rows(instance, owner, variables, ps, direct), owner, variables, direct),
    decreases ps.len(),
{
    if ps.len() > 0 {
        lemma_property_rows_classified(instance, owner, variables, ps.drop_last(), direct);
        lemma_getter_rows_classified(instance, ps.last().key@, owner, variables, ps.last().getters@, direct);
        lemma_classified_concat(
            property_rows(instance, owner, variables, ps.drop_last(), direct),
            getter_rows(instance, ps.last().key@, owner, variables, ps.last().getters@, direct),
            owner,
            variables,
            direct,
        );
    }
}

proof fn lemma_child_rows_classified(
    owner: Seq<char>,
    variables: Seq<String>,
    children: Seq<ComponentChild>,
    direct: bool,
)
    ensures
        rows_classified(child_rows(owner, variables, children, direct), owner, variables, direct),
    decreases children.len(),
{
    if children.len() > 0 {
        lemma_child_rows_classified(owner, variables, children.drop_last(), direct);
        match children.last() {
            ComponentChild::Extern(x) => {
                lemma_property_rows_classified(x.id@, owner, variables, x.properties@, direct);
                lemma_classified_concat(
                    child_rows(owner, variables, children.drop_last(), direct),
                    property_rows(x.id@, owner, variables, x.properties@, direct),
                    owner,
                    variables,
                    direct,
                );
            },
            _ => {},
        }
    }
}

/// Whether some record of `declared` for `owner` declares `ident` (`direct`), or does not
/// (`!direct`).
pub open spec fn recorded(
    declared: Seq<(Seq<char>, Seq<String>)>,
    owner: Seq<char>,
    ident: Seq<char>,
    direct: bool,
) -> bool {
    exists|j: int|
        0 <= j < declared.len() && #[trigger] declared[j].0 == owner && declares(declared[j].1, ident)
            == direct
}

/// Whether every direct row reads a variable that its owner declares, and every redirection
/// row reads a name that its owner does not declare, as the records of `declared` say.
pub open spec fn classified(
    declared: Seq<(Seq<char>, Seq<String>)>,
    direct: Seq<BindingView>,
    redirect: Seq<BindingView>,
) -> bool {
    (forall|k: int|
        0 <= k < direct.len() ==> recorded(declared, #[trigger] direct[k].owner, direct[k].getter.ident, true))
        && (forall|k: int|
        0 <= k < redirect.len() ==> recorded(
            declared,
            #[trigger] redirect[k].owner,
            redirect[k].getter.ident,
            false,
        ))
}

/// The variables that the table `table` records for `component`: the entry added last wins;
/// none for a component it does not hold.
pub open spec fn variables_in(table: Seq<(Seq<char>, Seq<String>)>, component: Seq<char>) -> Seq<
    String,
>
    decreases table.len(),
{
    if table.len() == 0 {
        Seq::empty()
    } else if table.last().0 == component {
        table.last().1
    } else {
        variables_in(table.drop_last(), component)
    }
}

/// The rows of `table` whose instance is `instance`, in order.
pub open spec fn of_instance(table: Seq<BindingView>, instance: Seq<char>) -> Seq<BindingView>
    decreases table.len(),
{
    if table.len() == 0 {
        Seq::empty()
    } else {
        let prev = of_instance(table.drop_last(), instance);
        if table.last().instance == instance {
            prev.push(table.last())
        } else {
            prev
        }
    }
}

/// The values of a table of declared variables.
pub open spec fn declared_view(v: Seq<(String, Vec<String>)>) -> Seq<(Seq<char>, Seq<String>)> {
    v.map_values(|e: (String, Vec<String>)| (e.0@, e.1@))
}

/// The declared variables of each component of `cs`, in order.
pub open spec fn declared_by(cs: Seq<Component>) -> Seq<(Seq<char>, Seq<String>)> {
    cs.map_values(|c: Component| (c.id@, c.variables@))
}

fn rows_of_instance(table: &Vec<Binding>, instance: &String) -> (r: Vec<Binding>)
    ensures
        rows(r@) == of_instance(rows(table@), instance@),
{
    let mut r: Vec<Binding> = Vec::new();
    let mut i: usize = 0;
    while i < table.len()
        invariant
            i <= table.len(),
            rows(r@) == of_instance(rows(table@).take(i as int), instance@),
        decreases table.len() - i,
    {
        let b = &table[i];
        assert(rows(table@).take(i as int + 1).drop_last() =~= rows(table@).take(i as int));
        assert(rows(table@).take(i as int + 1).last() == b@);
        if b.instance == *instance {
            push_row(&mut r, b.duplicate());
        }
        i = i + 1;
    }
    assert(rows(table@).take(table@.len() as int) =~= rows(table@));
    r
}

/// The resolved tables of a set of components, ready for code generation.
#[derive(Debug)]
pub struct PropertiesResolverState {
    component_variables: Vec<(String, Vec<String>)>,
    properties: Vec<Binding>,
    redirections: Vec<Binding>,
}

impl PropertiesResolverState {
    /// The declared variables of each component, in the order the components came.
    pub closed spec fn declared(&self) -> Seq<(Seq<char>, Seq<String>)> {
        declared_view(self.component_variables@)
    }

    /// The direct table: every property of every embedded instance with its sources.
    pub closed spec fn properties(&self) -> Seq<BindingView> {
        rows(self.properties@)
    }

    /// The redirection table, with every hop crossed during resolution.
    pub closed spec fn redirections(&self) -> Seq<BindingView> {
        rows(self.redirections@)
    }

    /// Whether `ident` is a variable declared by `component`.
    pub fn is_variable(&self, component: &String, ident: &String) -> (r: bool)
        ensures
            r == declares(variables_in(self.declared(), component@), ident@),
    {
        let mut i: usize = self.component_variables.len();
        assert(self.declared().take(i as int) =~= self.declared());
        while i > 0
            invariant
                i <= self.component_variables.len(),
                variables_in(self.declared(), component@) == variables_in(
                    self.declared().take(i as int),
                    component@,
                ),
            decreases i,
        {
            let entry = &self.component_variables[i - 1];
            assert(self.declared().take(i as int).drop_last() =~= self.declared().take(
                i as int - 1,
            ));
            assert(self.declared().take(i as int).last() == (entry.0@, entry.1@));
            if entry.0 == *component {
                return is_declared(&entry.1, ident);
            }
            i = i - 1;
        }
        false
    }

    /// The direct rows of the embedded instance `instance`.
    pub fn properties_of(&self, instance: &String) -> (r: Vec<Binding>)
        ensures
            rows(r@) == of_instance(self.properties(), instance@),
    {
        rows_of_instance(&self.properties, instance)
    }

    /// The redirection rows of the embedded instance `instance`.
    pub fn redirections_of(&self, instance: &String) -> (r: Vec<Binding>)
        ensures
            rows(r@) == of_instance(self.redirections(), instance@),
    {
        rows_of_instance(&self.redirections, instance)
    }
}

/// Collects the bindings of components one by one, then resolves them.
pub struct PropertiesResolver {
    component_variables: Vec<(String, Vec<String>)>,
    properties: Vec<Binding>,
    redirections: Vec<Binding>,
}

impl PropertiesResolver {
    /// The declared variables of each component visited, in order.
    pub closed spec fn declared(&self) -> Seq<(Seq<char>, Seq<String>)> {
        declared_view(self.component_variables@)
    }

    /// The direct rows collected so far.
    pub closed spec fn properties(&self) -> Seq<BindingView> {
        rows(self.properties@)
    }

    /// The redirection rows collected so far.
    pub closed spec fn redirections(&self) -> Seq<BindingView> {
        rows(self.redirections@)
    }

    /// Whether the rows collected are classified by the variables recorded.
    pub open spec fn wf(&self) -> bool {
        classified(self.declared(), self.properties(), self.redirections())
    }

    pub fn new() -> (r: Self)
        ensures
            r.wf(),
            r.declared() == Seq::<(Seq<char>, Seq<String>)>::empty(),
            r.properties() == Seq::<BindingView>::empty(),
            r.redirections() == Seq::<BindingView>::empty(),
    {
        let r = PropertiesResolver {
            component_variables: Vec::new(),
            properties: Vec::new(),
            redirections: Vec::new(),
        };
        assert(r.declared() =~= Seq::<(Seq<char>, Seq<String>)>::empty());
        assert(r.properties() =~= Seq::<BindingView>::empty());
        assert(r.redirections() =~= Seq::<BindingView>::empty());
        r
    }

    /// Records the variables of `component` and classifies every binding of its embedded
    /// instances.
    pub fn visit_component(&mut self, component: &Component)
        ensures
            old(self).wf() ==> final(self).wf(),
            final(self).declared() == old(self).declared().push(
                (component.id@, component.variables@),
            ),
            final(self).properties() == old(self).properties() + component_rows(*component, true),
            final(self).redirections() == old(self).redirections() + component_rows(
                *component,
                false,
            ),
    {
        let ghost before = self.component_variables@;
        self.component_variables.push((component.id.clone(), copy_strings(&component.variables)));
        assert(declared_view(self.component_variables@) =~= declared_view(before).push(
            (component.id@, component.variables@),
        ));
        visit_children(
            &component.id,
            &component.variables,
            &component.children,
            &mut self.properties,
            &mut self.redirections,
        );
        proof {
            let c = *component;
            let declared = self.declared();
            let last = declared.len() - 1;
            assert(declared[last] == (c.id@, c.variables@));
            lemma_child_rows_classified(c.id@, c.variables@, c.children@, true);
            lemma_child_rows_classified(c.id@, c.variables@, c.children@, false);
            if old(self).wf() {
                let before_d = old(self).properties();
                let before_r = old(self).redirections();
                let added_d = component_rows(c, true);
                let added_r = component_rows(c, false);
                assert forall|k: int| 0 <= k < self.properties().len() implies recorded(
                    declared,
                    #[trigger] self.properties()[k].owner,
                    self.properties()[k].getter.ident,
                    true,
                ) by {
                    if k < before_d.len() {
                        assert(self.properties()[k] == before_d[k]);
                        let j = choose|j: int|
                            0 <= j < old(self).declared().len() && #[trigger] old(self).declared()[j].0
                                == before_d[k].owner && declares(
                                old(self).declared()[j].1,
                                before_d[k].getter.ident,
                            ) == true;
                        assert(declared[j] == old(self).declared()[j]);
                    } else {
                        assert(self.properties()[k] == added_d[k - before_d.len()]);
                        assert(declared[last].0 == self.properties()[k].owner);
                    }
                }
                assert forall|k: int| 0 <= k < self.redirections().len() implies recorded(
                    declared,
                    #[trigger] self.redirections()[k].owner,
                    self.redirections()[k].getter.ident,
                    false,
                ) by {
                    if k < before_r.len() {
                        assert(self.redirections()[k] == before_r[k]);
                        let j = choose|j: int|
                            0 <= j < old(self).declared().len() && #[trigger] old(self).declared()[j].0
                                == before_r[k].owner && declares(
                                old(self).declared()[j].1,
                                before_r[k].getter.ident,
                            ) == false;
                        assert(declared[j] == old(self).declared()[j]);
                    } else {
                        assert(self.redirections()[k] == added_r[k - before_r.len()]);
                        assert(declared[last].0 == self.redirections()[k].owner);
                    }
                }
            }
        }
    }

    /// Resolves every redirection collected: fails on the first that reaches an unknown
    /// identifier or comes back on itself.
    pub fn build(self) -> (r: Result<PropertiesResolverState, ResolveError>)
        ensures
            match r {
                Ok(s) => s.declared() == self.declared() && resolved(
                    self.properties(),
                    self.redirections(),
                ) == Ok::<(Seq<BindingView>, Seq<BindingView>), ResolveErrorView>(
                    (s.properties(), s.redirections()),
                ) && s.properties().no_duplicates() && s.redirections().no_duplicates() && (
                self.wf() ==> classified(s.declared(), s.properties(), s.redirections())),
                Err(e) => resolved(self.properties(), self.redirections()) == Err::<
                    (Seq<BindingView>, Seq<BindingView>),
                    ResolveErrorView,
                >(e@),
            },
    {
        proof {
            if self.wf() {
                lemma_resolution_keeps_classification(
                    self.declared(),
                    self.properties(),
                    self.redirections(),
                );
            }
        }
        match resolve_tables(&self.properties, &self.redirections) {
            Ok((properties, redirections)) => Ok(
                PropertiesResolverState {
                    component_variables: self.component_variables,
                    properties,
                    redirections,
                },
            ),
            Err(e) => Err(e),
        }
    }
}

/// What resolving the components `cs` gives: the variables each declares, and the tables of
/// `resolved` over the rows they bind, each without duplicates and classified by those
/// variables; or the error `resolved` meets first.
pub open spec fn outcome_of(cs: Seq<Component>, r: Result<PropertiesResolverState, ResolveError>) -> bool {
    match r {
        Ok(s) => s.declared() == declared_by(cs) && resolved(collected(cs, true), collected(cs, false))
            == Ok::<(Seq<BindingView>, Seq<BindingView>), ResolveErrorView>(
            (s.properties(), s.redirections()),
        ) && s.properties().no_duplicates() && s.redirections().no_duplicates() && classified(
            s.declared(),
            s.properties(),
            s.redirections(),
        ),
        Err(e) => resolved(collected(cs, true), collected(cs, false)) == Err::<
            (Seq<BindingView>, Seq<BindingView>),
            ResolveErrorView,
        >(e@),
    }
}

/// Collects the bindings of `components`, in order, and resolves them.
pub fn resolve(components: &Vec<Component>) -> (r: Result<PropertiesResolverState, ResolveError>)
    ensures
        outcome_of(components@, r),
{
    let mut resolver = PropertiesResolver::new();
    let mut i: usize = 0;
    assert(components@.take(0) =~= Seq::<Component>::empty());
    assert(declared_by(components@.take(0)) =~= Seq::<(Seq<char>, Seq<String>)>::empty());
    while i < components.len()
        invariant
            i <= components.len(),
            resolver.wf(),
            resolver.declared() == declared_by(components@.take(i as int)),
            resolver.properties() == collected(components@.take(i as int), true),
            resolver.redirections() == collected(components@.take(i as int), false),
        decreases components.len() - i,
    {
        resolver.visit_component(&components[i]);
        assert(components@.take(i as int + 1).drop_last() =~= components@.take(i as int));
        assert(components@.take(i as int + 1).last() == components@[i as int]);
        assert(declared_by(components@.take(i as int + 1)) =~= declared_by(
            components@.take(i as int),
        ).push((components@[i as int].id@, components@[i as int].variables@)));
        i = i + 1;
    }
    assert(components@.take(components@.len() as int) =~= components@);
    resolver.build()
}

} // verus!
