use vstd::prelude::*;
use vstd::set_lib::{lemma_int_range, lemma_len_subset, lemma_map_size, set_int_range};
use crate::properties_resolver::{classified, outcome_of, recorded, PropertiesResolverState};
use crate::recipe::{
    child_rows, collected, component_rows, declares, getter_rows, property_rows, BindingView,
    Component, ComponentChild, Getter, Property,
};
use crate::resolution::{
    emitted, extended, keyed, paired, rekeyed, siblings, union_rows, resolve_hops, resolve_node, resolve_rows, resolved, ResolveError,
    ResolveErrorView, SourceView, lemma_union_no_duplicates,
};

verus! {

proof fn lemma_contains_concat(a: Seq<BindingView>, b: Seq<BindingView>, x: BindingView)
    ensures
        a.contains(x) ==> (a + b).contains(x),
        b.contains(x) ==> (a + b).contains(x),
{
    if a.contains(x) {
        let i = choose|i: int| 0 <= i < a.len() && a[i] == x;
        assert((a + b)[i] == x);
    }
    if b.contains(x) {
        let i = choose|i: int| 0 <= i < b.len() && b[i] == x;
        assert((a + b)[a.len() + i] == x);
    }
}

proof fn lemma_getter_row(
    instance: Seq<char>,
    property: Seq<char>,
    owner: Seq<char>,
    variables: Seq<String>,
    gs: Seq<Getter>,
    j: int,
)
    requires
        0 <= j < gs.len(),
    ensures
        getter_rows(instance, property, owner, variables, gs, declares(variables, gs[j].ident@)).contains(
            BindingView { instance, property, owner, getter: gs[j]@ },
        ),
    decreases gs.len(),
{
    let direct = declares(variables, gs[j].ident@);
    let row = BindingView { instance, property, owner, getter: gs[j]@ };
    let prev = getter_rows(instance, property, owner, variables, gs.drop_last(), direct);
    if j == gs.len() - 1 {
        assert(prev.push(row)[prev.len() as int] == row);
    } else {
        assert(gs.drop_last()[j] == gs[j]);
        lemma_getter_row(instance, property, owner, variables, gs.drop_last(), j);
        let k = choose|k: int| 0 <= k < prev.len() && prev[k] == row;
        let last_row = BindingView { instance, property, owner, getter: gs.last()@ };
        assert(prev.push(last_row)[k] == row);
    }
}

proof fn lemma_property_row(
    instance: Seq<char>,
    owner: Seq<char>,
    variables: Seq<String>,
    ps: Seq<Property>,
    k: int,
    j: int,
)
    requires
        0 <= k < ps.len(),
        0 <= j < ps[k].getters@.len(),
    ensures
        property_rows(instance, owner, variables, ps, declares(variables, ps[k].getters@[j].ident@)).contains(
            BindingView { instance, property: ps[k].key@, owner, getter: ps[k].getters@[j]@ },
        ),
    decreases ps.len(),
{
    let direct = declares(variables, ps[k].getters@[j].ident@);
    let row = BindingView { instance, property: ps[k].key@, owner, getter: ps[k].getters@[j]@ };
    let prev = property_rows(instance, owner, variables, ps.drop_last(), direct);
    let last = getter_rows(instance, ps.last().key@, owner, variables, ps.last().getters@, direct);
    if k == ps.len() - 1 {
        lemma_getter_row(instance, ps[k].key@, owner, variables, ps[k].getters@, j);
        lemma_contains_concat(prev, last, row);
    } else {
        assert(ps.drop_last()[k] == ps[k]);
        lemma_property_row(instance, owner, variables, ps.drop_last(), k, j);
        lemma_contains_concat(prev, last, row);
    }
}

proof fn lemma_child_row(
    owner: Seq<char>,
    variables: Seq<String>,
    children: Seq<ComponentChild>,
    i: int,
    k: int,
    j: int,
)
    requires
        0 <= i < children.len(),
        children[i] is Extern,
        0 <= k < children[i]->Extern_0.properties@.len(),
        0 <= j < children[i]->Extern_0.properties@[k].getters@.len(),
    ensures
        ({
            let x = children[i]->Extern_0;
            let p = x.properties@[k];
            child_rows(owner, variables, children, declares(variables, p.getters@[j].ident@)).contains(
                BindingView { instance: x.id@, property: p.key@, owner, getter: p.getters@[j]@ },
            )
        }),
    decreases children.len(),
{
    let x = children[i]->Extern_0;
    let p = x.properties@[k];
    let direct = declares(variables, p.getters@[j].ident@);
    let row = BindingView { instance: x.id@, property: p.key@, owner, getter: p.getters@[j]@ };
    let prev = child_rows(owner, variables, children.drop_last(), direct);
    if i == children.len() - 1 {
        lemma_property_row(x.id@, owner, variables, x.properties@, k, j);
        lemma_contains_concat(
            prev,
            property_rows(x.id@, owner, variables, x.properties@, direct),
            row,
        );
    } else {
        assert(children.drop_last()[i] == children[i]);
        lemma_child_row(owner, variables, children.drop_last(), i, k, j);
        match children.last() {
            ComponentChild::Extern(y) => {
                lemma_contains_concat(
                    prev,
                    property_rows(y.id@, owner, variables, y.properties@, direct),
                    row,
                );
            },
            _ => {},
        }
    }
}

proof fn lemma_collected_row(cs: Seq<Component>, c: int, i: int, k: int, j: int)
    requires
        0 <= c < cs.len(),
        0 <= i < cs[c].children@.len(),
        cs[c].children@[i] is Extern,
        0 <= k < cs[c].children@[i]->Extern_0.properties@.len(),
        0 <= j < cs[c].children@[i]->Extern_0.properties@[k].getters@.len(),
    ensures
        ({
            let x = cs[c].children@[i]->Extern_0;
            let p = x.properties@[k];
            collected(cs, declares(cs[c].variables@, p.getters@[j].ident@)).contains(
                BindingView {
                    instance: x.id@,
                    property: p.key@,
                    owner: cs[c].id@,
                    getter: p.getters@[j]@,
                },
            )
        }),
    decreases cs.len(),
{
    let x = cs[c].children@[i]->Extern_0;
    let p = x.properties@[k];
    let direct = declares(cs[c].variables@, p.getters@[j].ident@);
    let row = BindingView { instance: x.id@, property: p.key@, owner: cs[c].id@, getter: p.getters@[j]@ };
    let prev = collected(cs.drop_last(), direct);
    if c == cs.len() - 1 {
        lemma_child_row(cs[c].id@, cs[c].variables@, cs[c].children@, i, k, j);
        lemma_contains_concat(prev, component_rows(cs.last(), direct), row);
    } else {
        assert(cs.drop_last()[c] == cs[c]);
        lemma_collected_row(cs.drop_last(), c, i, k, j);
        lemma_contains_concat(prev, component_rows(cs.last(), direct), row);
    }
}

proof fn lemma_node_finds_some(
    direct: Seq<BindingView>,
    redirect: Seq<BindingView>,
    owner: Seq<char>,
    ident: Seq<char>,
    path: Seq<(Seq<char>, Seq<char>)>,
    fuel: nat,
)
    ensures
        match resolve_node(direct, redirect, owner, ident, path, fuel) {
            Ok((ts, _)) => ts.len() > 0,
            Err(_) => true,
        },
    decreases fuel, 0nat,
{
    let hits = keyed(direct, owner, ident);
    let hops = keyed(redirect, owner, ident);
    if hits.len() == 0 && !path.contains((owner, ident)) && hops.len() > 0 && fuel > 0 {
        lemma_hops_find_some(direct, redirect, hops, path.push((owner, ident)), (fuel - 1) as nat);
    }
}

proof fn lemma_hops_find_some(
    direct: Seq<BindingView>,
    redirect: Seq<BindingView>,
    hops: Seq<BindingView>,
    path: Seq<(Seq<char>, Seq<char>)>,
    fuel: nat,
)
    ensures
        match resolve_hops(direct, redirect, hops, path, fuel) {
            Ok((ts, _)) => hops.len() > 0 ==> ts.len() > 0,
            Err(_) => true,
        },
    decreases fuel, hops.len(),
{
    if hops.len() > 0 {
        let h = hops.last();
        lemma_node_finds_some(direct, redirect, h.owner, h.getter.ident, path, fuel);
    }
}

proof fn lemma_union_contains(table: Seq<BindingView>, more: Seq<BindingView>, x: BindingView)
    ensures
        union_rows(table, more).contains(x) == (table.contains(x) || more.contains(x)),
    decreases more.len(),
{
    if more.len() > 0 {
        let prev = union_rows(table, more.drop_last());
        lemma_union_contains(table, more.drop_last(), x);
        if more.drop_last().contains(x) {
            let i = choose|i: int| 0 <= i < more.drop_last().len() && more.drop_last()[i] == x;
            assert(more[i] == x);
        }
        if more.contains(x) && !more.drop_last().contains(x) {
            let i = choose|i: int| 0 <= i < more.len() && more[i] == x;
            if i < more.len() - 1 {
                assert(more.drop_last()[i] == x);
            }
            assert(more.last() == x);
        }
        if !prev.contains(more.last()) {
            let q = prev.push(more.last());
            assert(q[prev.len() as int] == more.last());
            if prev.contains(x) {
                let i = choose|i: int| 0 <= i < prev.len() && prev[i] == x;
                assert(q[i] == x);
            }
            if q.contains(x) && x != more.last() {
                let i = choose|i: int| 0 <= i < q.len() && q[i] == x;
                assert(prev[i] == x);
            }
        }
        if more.drop_last().contains(x) || more.last() == x {
            let i = if more.last() == x {
                more.len() - 1
            } else {
                choose|i: int| 0 <= i < more.drop_last().len() && more.drop_last()[i] == x
            };
            assert(more[i] == x);
        }
    }
}

/// The published tables are sets: neither holds a row twice, and each holds exactly the
/// rows it had before resolution together with those resolution adds.
pub proof fn lemma_published_tables_are_sets(direct: Seq<BindingView>, redirect: Seq<BindingView>, x: BindingView)
    ensures
        match (resolve_rows(direct, redirect, redirect, redirect.len()), resolved(direct, redirect)) {
            (Ok((found, crossed)), Ok((properties, redirections))) => properties.no_duplicates()
                && redirections.no_duplicates() && properties.contains(x) == (direct.contains(x)
                || found.contains(x)) && redirections.contains(x) == (redirect.contains(x)
                || crossed.contains(x)),
            _ => true,
        },
{
    match resolve_rows(direct, redirect, redirect, redirect.len()) {
        Err(_) => {},
        Ok((found, crossed)) => {
            let none = Seq::<BindingView>::empty();
            lemma_union_no_duplicates(none, direct + found);
            lemma_union_no_duplicates(none, redirect + crossed);
            lemma_union_contains(none, direct + found, x);
            lemma_union_contains(none, redirect + crossed, x);
            lemma_concat_contains(direct, found, x);
            lemma_concat_contains(redirect, crossed, x);
        },
    }
}

proof fn lemma_concat_contains(a: Seq<BindingView>, b: Seq<BindingView>, x: BindingView)
    ensures
        (a + b).contains(x) == (a.contains(x) || b.contains(x)),
{
    lemma_contains_concat(a, b, x);
    if (a + b).contains(x) {
        let i = choose|i: int| 0 <= i < (a + b).len() && (a + b)[i] == x;
        if i < a.len() {
            assert(a[i] == x);
        } else {
            assert(b[i - a.len()] == x);
        }
    }
}

proof fn lemma_emitted_contains(
    e: BindingView,
    ts: Seq<SourceView>,
    group: Seq<BindingView>,
    m: int,
    n: int,
)
    requires
        0 <= m < ts.len(),
        0 <= n < group.len(),
    ensures
        emitted(e, ts, group).contains(paired(e, ts[m], group)[n]),
    decreases ts.len(),
{
    let prev = emitted(e, ts.drop_last(), group);
    let last = paired(e, ts.last(), group);
    let x = paired(e, ts[m], group)[n];
    if m == ts.len() - 1 {
        assert(last[n] == x);
        assert((prev + last)[prev.len() + n] == x);
    } else {
        assert(ts.drop_last()[m] == ts[m]);
        lemma_emitted_contains(e, ts.drop_last(), group, m, n);
        lemma_contains_concat(prev, last, x);
    }
}

proof fn lemma_siblings_contains(table: Seq<BindingView>, e: BindingView)
    requires
        table.contains(e),
    ensures
        siblings(table, e).contains(e),
    decreases table.len(),
{
    let prev = siblings(table.drop_last(), e);
    if table.last() == e {
        assert(prev.push(e)[prev.len() as int] == e);
    } else {
        let i = choose|i: int| 0 <= i < table.len() && table[i] == e;
        assert(table.drop_last()[i] == e);
        lemma_siblings_contains(table.drop_last(), e);
        if table.last().instance == e.instance && table.last().property == e.property
            && table.last().owner == e.owner {
            let j = choose|j: int| 0 <= j < prev.len() && prev[j] == e;
            assert(prev.push(table.last())[j] == e);
        }
    }
}

proof fn lemma_rows_emit(
    direct: Seq<BindingView>,
    redirect: Seq<BindingView>,
    pending: Seq<BindingView>,
    fuel: nat,
    k: int,
    x: BindingView,
)
    requires
        0 <= k < pending.len(),
    ensures
        match (
            resolve_rows(direct, redirect, pending, fuel),
            resolve_node(
                direct,
                redirect,
                pending[k].owner,
                pending[k].getter.ident,
                Seq::empty(),
                fuel,
            ),
        ) {
            (Ok((found, _)), Ok((ts, _))) => emitted(
                pending[k],
                ts,
                siblings(redirect, pending[k]),
            ).contains(x) ==> found.contains(x),
            _ => true,
        },
    decreases pending.len(),
{
    let prev = pending.drop_last();
    let e = pending.last();
    match resolve_rows(direct, redirect, prev, fuel) {
        Err(_) => {},
        Ok((found0, _)) => {
            match resolve_node(direct, redirect, e.owner, e.getter.ident, Seq::empty(), fuel) {
                Err(_) => {},
                Ok((ts_e, _)) => {
                    let mine = emitted(e, ts_e, siblings(redirect, e));
                    lemma_contains_concat(found0, mine, x);
                    if k < pending.len() - 1 {
                        assert(prev[k] == pending[k]);
                        lemma_rows_emit(direct, redirect, prev, fuel, k, x);
                    }
                },
            }
        },
    }
}

/// Every combination is kept: for each getter bound at a redirection's instance and
/// property by its owner, and each terminal source that the chain of one of them reaches,
/// the resolved direct table holds that source's getter followed by the bound getter's own
/// index steps. A binding with two getters whose chain ends in two direct getters so gives
/// all four.
pub proof fn lemma_every_combination_resolved(
    direct: Seq<BindingView>,
    redirect: Seq<BindingView>,
    k: int,
    m: int,
    n: int,
)
    requires
        0 <= k < redirect.len(),
    ensures
        match (
            resolved(direct, redirect),
            resolve_node(
                direct,
                redirect,
                redirect[k].owner,
                redirect[k].getter.ident,
                Seq::empty(),
                redirect.len(),
            ),
        ) {
            (Ok((properties, _)), Ok((ts, _))) => 0 <= m < ts.len() && 0 <= n < siblings(
                redirect,
                redirect[k],
            ).len() ==> properties.contains(
                paired(redirect[k], ts[m], siblings(redirect, redirect[k]))[n],
            ),
            _ => true,
        },
{
    match resolve_node(
        direct,
        redirect,
        redirect[k].owner,
        redirect[k].getter.ident,
        Seq::empty(),
        redirect.len(),
    ) {
        Err(_) => {},
        Ok((ts, _)) => {
            let group = siblings(redirect, redirect[k]);
            if 0 <= m < ts.len() && 0 <= n < group.len() {
                let x = paired(redirect[k], ts[m], group)[n];
                lemma_emitted_contains(redirect[k], ts, group, m, n);
                lemma_rows_emit(direct, redirect, redirect, redirect.len(), k, x);
                lemma_published_tables_are_sets(direct, redirect, x);
            }
        },
    }
}

/// Whether `table` holds a row for `instance`'s `property`.
pub open spec fn has_binding(table: Seq<BindingView>, instance: Seq<char>, property: Seq<char>) -> bool {
    exists|m: int|
        0 <= m < table.len() && #[trigger] table[m].instance == instance && table[m].property
            == property
}

/// Completeness: once resolution succeeds, every property bound with at least one getter
/// on an embedded instance has a row in the direct table, whatever chain of redirections
/// stood behind it.
pub proof fn lemma_every_bound_property_resolved(cs: Seq<Component>, c: int, i: int, k: int)
    requires
        0 <= c < cs.len(),
        0 <= i < cs[c].children@.len(),
        cs[c].children@[i] is Extern,
        0 <= k < cs[c].children@[i]->Extern_0.properties@.len(),
        cs[c].children@[i]->Extern_0.properties@[k].getters@.len() > 0,
    ensures
        ({
            let x = cs[c].children@[i]->Extern_0;
            match resolved(collected(cs, true), collected(cs, false)) {
                Ok((properties, _)) => has_binding(properties, x.id@, x.properties@[k].key@),
                Err(_) => true,
            }
        }),
{
    let x = cs[c].children@[i]->Extern_0;
    let p = x.properties@[k];
    let g = p.getters@[0];
    let row = BindingView { instance: x.id@, property: p.key@, owner: cs[c].id@, getter: g@ };
    let d = collected(cs, true);
    let rd = collected(cs, false);
    lemma_collected_row(cs, c, i, k, 0);
    match resolve_rows(d, rd, rd, rd.len()) {
        Err(_) => {},
        Ok((found, crossed)) => {
            let properties = union_rows(Seq::empty(), d + found);
            if declares(cs[c].variables@, g.ident@) {
                lemma_published_tables_are_sets(d, rd, row);
                let q = choose|q: int| 0 <= q < properties.len() && properties[q] == row;
                assert(properties[q].instance == x.id@ && properties[q].property == p.key@);
            } else {
                let q = choose|q: int| 0 <= q < rd.len() && rd[q] == row;
                lemma_node_finds_some(d, rd, rd[q].owner, rd[q].getter.ident, Seq::empty(), rd.len());
                assert(rd.contains(rd[q]));
                lemma_siblings_contains(rd, rd[q]);
                lemma_every_combination_resolved(d, rd, q, 0, 0);
                match resolve_node(d, rd, rd[q].owner, rd[q].getter.ident, Seq::empty(), rd.len()) {
                    Err(_) => {
                        lemma_rows_error(d, rd, rd, rd.len(), q);
                    },
                    Ok((ts, _)) => {
                        let y = paired(rd[q], ts[0], siblings(rd, rd[q]))[0];
                        assert(properties.contains(y));
                        let m = choose|m: int| 0 <= m < properties.len() && properties[m] == y;
                        assert(properties[m].instance == x.id@ && properties[m].property == p.key@);
                    },
                }
            }
            assert(has_binding(properties, x.id@, p.key@));
        },
    }
}

proof fn lemma_rows_error(
    direct: Seq<BindingView>,
    redirect: Seq<BindingView>,
    pending: Seq<BindingView>,
    fuel: nat,
    k: int,
)
    requires
        0 <= k < pending.len(),
        resolve_node(direct, redirect, pending[k].owner, pending[k].getter.ident, Seq::empty(), fuel) is Err,
    ensures
        resolve_rows(direct, redirect, pending, fuel) is Err,
    decreases pending.len(),
{
    if k < pending.len() - 1 {
        assert(pending.drop_last()[k] == pending[k]);
        lemma_rows_error(direct, redirect, pending.drop_last(), fuel, k);
    }
}

/// A cycle is fatal: two redirection rows that each read the other's property, with no
/// direct row behind either, make resolution fail with a cycle instead of looping.
pub proof fn lemma_two_cycle_fails(direct: Seq<BindingView>, a: BindingView, b: BindingView)
    requires
        a.owner == b.instance,
        a.getter.ident == b.property,
        b.owner == a.instance,
        b.getter.ident == a.property,
        a.instance != b.instance || a.property != b.property,
        keyed(direct, a.instance, a.property).len() == 0,
        keyed(direct, b.instance, b.property).len() == 0,
    ensures
        resolved(direct, seq![a, b]) == Err::<(Seq<BindingView>, Seq<BindingView>), ResolveErrorView>(
            ResolveErrorView::Cycle { owner: b.instance, ident: b.property },
        ),
{
    let redirect = seq![a, b];
    let na = (a.instance, a.property);
    let nb = (b.instance, b.property);
    assert(redirect.drop_last() =~= seq![a]);
    assert(seq![a].drop_last() =~= Seq::<BindingView>::empty());
    assert(keyed(redirect, b.instance, b.property) =~= seq![b]) by {
        assert(keyed(seq![a], b.instance, b.property) =~= Seq::<BindingView>::empty()) by {
            assert(keyed(Seq::<BindingView>::empty(), b.instance, b.property) =~= Seq::<BindingView>::empty());
        }
    }
    assert(keyed(redirect, a.instance, a.property) =~= seq![a]) by {
        assert(keyed(seq![a], a.instance, a.property) =~= seq![a]) by {
            assert(keyed(Seq::<BindingView>::empty(), a.instance, a.property) =~= Seq::<BindingView>::empty());
        }
    }
    let no_nodes = Seq::<(Seq<char>, Seq<char>)>::empty();
    let via_b = no_nodes.push(nb);
    let via_b_a = via_b.push(na);
    assert(via_b_a[0] == nb);
    assert(!via_b.contains(na)) by {
        assert(via_b[0] == nb);
    }
    let cycle = Err::<(Seq<SourceView>, Seq<BindingView>), ResolveErrorView>(
        ResolveErrorView::Cycle { owner: b.instance, ident: b.property },
    );
    assert(resolve_node(direct, redirect, b.instance, b.property, via_b_a, 0) == cycle);
    let none = Ok::<(Seq<SourceView>, Seq<BindingView>), ResolveErrorView>(
        (Seq::empty(), Seq::empty()),
    );
    assert(seq![a].drop_last() =~= Seq::<BindingView>::empty());
    assert(seq![a].last() == a);
    assert(resolve_hops(direct, redirect, Seq::empty(), via_b_a, 0) == none);
    assert(resolve_hops(direct, redirect, seq![a], via_b_a, 0) == cycle);
    assert(resolve_node(direct, redirect, a.instance, a.property, via_b, 1) == cycle);
    assert(seq![b].drop_last() =~= Seq::<BindingView>::empty());
    assert(seq![b].last() == b);
    assert(resolve_hops(direct, redirect, Seq::empty(), via_b, 1) == none);
    assert(resolve_hops(direct, redirect, seq![b], via_b, 1) == cycle);
    assert(resolve_node(direct, redirect, b.instance, b.property, no_nodes, 2) == cycle);
    let failed = Err::<(Seq<BindingView>, Seq<BindingView>), ResolveErrorView>(
        ResolveErrorView::Cycle { owner: b.instance, ident: b.property },
    );
    let nothing = Ok::<(Seq<BindingView>, Seq<BindingView>), ResolveErrorView>(
        (Seq::empty(), Seq::empty()),
    );
    assert(resolve_rows(direct, redirect, Seq::empty(), 2) == nothing);
    assert(resolve_rows(direct, redirect, seq![a], 2) == failed);
    assert(redirect.last() == b);
    assert(resolve_rows(direct, redirect, redirect, 2) == failed);
}

/// Resolution is repeatable: resolving the same components twice gives the same direct and
/// redirection tables and the same variables, or the same error.
pub proof fn lemma_resolution_repeatable(
    cs: Seq<Component>,
    first: Result<PropertiesResolverState, ResolveError>,
    second: Result<PropertiesResolverState, ResolveError>,
)
    requires
        outcome_of(cs, first),
        outcome_of(cs, second),
    ensures
        match (first, second) {
            (Ok(a), Ok(b)) => a.properties() == b.properties() && a.redirections()
                == b.redirections() && a.declared() == b.declared(),
            (Err(x), Err(y)) => x@ == y@,
            _ => false,
        },
{
}

proof fn lemma_keyed_has_row(table: Seq<BindingView>, instance: Seq<char>, property: Seq<char>)
    requires
        keyed(table, instance, property).len() > 0,
    ensures
        exists|q: int|
            0 <= q < table.len() && #[trigger] table[q].instance == instance && table[q].property
                == property,
    decreases table.len(),
{
    let last = table.last();
    if last.instance == instance && last.property == property {
        assert(table[table.len() - 1].instance == instance);
    } else {
        lemma_keyed_has_row(table.drop_last(), instance, property);
        let q = choose|q: int|
            0 <= q < table.drop_last().len() && #[trigger] table.drop_last()[q].instance == instance
                && table.drop_last()[q].property == property;
        assert(table[q].instance == instance);
    }
}

/// Whether every node of `path` is distinct and keys some row of `redirect`.
pub open spec fn sound_path(redirect: Seq<BindingView>, path: Seq<(Seq<char>, Seq<char>)>) -> bool {
    path.no_duplicates() && forall|j: int|
        0 <= j < path.len() ==> #[trigger] keyed(redirect, path[j].0, path[j].1).len() > 0
}

/// Distinct nodes that each key a row of `redirect` are no more than its rows.
proof fn lemma_sound_path_bounded(redirect: Seq<BindingView>, path: Seq<(Seq<char>, Seq<char>)>)
    requires
        sound_path(redirect, path),
    ensures
        path.len() <= redirect.len(),
{
    let row_of = |n: (Seq<char>, Seq<char>)|
        choose|q: int|
            0 <= q < redirect.len() && #[trigger] redirect[q].instance == n.0 && redirect[q].property
                == n.1;
    let nodes = path.to_set();
    assert forall|n: (Seq<char>, Seq<char>)| nodes.contains(n) implies {
        let q = row_of(n);
        0 <= q < redirect.len() && redirect[q].instance == n.0 && redirect[q].property == n.1
    } by {
        let j = choose|j: int| 0 <= j < path.len() && path[j] == n;
        assert(keyed(redirect, path[j].0, path[j].1).len() > 0);
        lemma_keyed_has_row(redirect, n.0, n.1);
    }
    assert(vstd::relations::injective_on(row_of, nodes)) by {
        assert forall|a: (Seq<char>, Seq<char>), b: (Seq<char>, Seq<char>)|
            nodes.contains(a) && nodes.contains(b) && #[trigger] row_of(a) == #[trigger] row_of(b) implies a
            == b by {
        }
    }
    path.unique_seq_to_set();
    lemma_map_size(nodes, nodes.map(row_of), row_of);
    lemma_int_range(0, redirect.len() as int);
    assert(nodes.map(row_of).subset_of(set_int_range(0, redirect.len() as int)));
    lemma_len_subset(nodes.map(row_of), set_int_range(0, redirect.len() as int));
}

proof fn lemma_node_fuel(
    direct: Seq<BindingView>,
    redirect: Seq<BindingView>,
    owner: Seq<char>,
    ident: Seq<char>,
    path: Seq<(Seq<char>, Seq<char>)>,
    f1: nat,
    f2: nat,
)
    requires
        sound_path(redirect, path),
        path.len() + f1 >= redirect.len(),
        path.len() + f2 >= redirect.len(),
    ensures
        resolve_node(direct, redirect, owner, ident, path, f1) == resolve_node(
            direct,
            redirect,
            owner,
            ident,
            path,
            f2,
        ),
    decreases f1, 0nat,
{
    let hits = keyed(direct, owner, ident);
    let hops = keyed(redirect, owner, ident);
    if hits.len() == 0 && !path.contains((owner, ident)) && hops.len() > 0 {
        let longer = path.push((owner, ident));
        assert forall|j: int| 0 <= j < longer.len() implies #[trigger] keyed(
            redirect,
            longer[j].0,
            longer[j].1,
        ).len() > 0 by {
            if j < path.len() {
                assert(longer[j] == path[j]);
            }
        }
        assert(longer.no_duplicates()) by {
            assert forall|i: int, j: int| 0 <= i < longer.len() && 0 <= j < longer.len() && i != j implies longer[i]
                != longer[j] by {
                if i < path.len() && j < path.len() {
                    assert(longer[i] == path[i] && longer[j] == path[j]);
                } else if i < path.len() {
                    assert(longer[i] == path[i]);
                } else if j < path.len() {
                    assert(longer[j] == path[j]);
                }
            }
        }
        lemma_sound_path_bounded(redirect, longer);
        lemma_hops_fuel(direct, redirect, hops, longer, (f1 - 1) as nat, (f2 - 1) as nat);
    }
}

proof fn lemma_hops_fuel(
    direct: Seq<BindingView>,
    redirect: Seq<BindingView>,
    hops: Seq<BindingView>,
    path: Seq<(Seq<char>, Seq<char>)>,
    f1: nat,
    f2: nat,
)
    requires
        sound_path(redirect, path),
        path.len() + f1 >= redirect.len(),
        path.len() + f2 >= redirect.len(),
    ensures
        resolve_hops(direct, redirect, hops, path, f1) == resolve_hops(
            direct,
            redirect,
            hops,
            path,
            f2,
        ),
    decreases f1, hops.len(),
{
    if hops.len() > 0 {
        let h = hops.last();
        lemma_hops_fuel(direct, redirect, hops.drop_last(), path, f1, f2);
        lemma_node_fuel(direct, redirect, h.owner, h.getter.ident, path, f1, f2);
    }
}

/// Chains are followed to their end: resolving with any fuel beyond one node per
/// redirection row gives the same result, so the bound never cuts a chain short and a
/// cycle error only comes from a node met again on its own chain.
pub proof fn lemma_fuel_never_runs_out(
    direct: Seq<BindingView>,
    redirect: Seq<BindingView>,
    pending: Seq<BindingView>,
    fuel: nat,
)
    requires
        fuel >= redirect.len(),
    ensures
        resolve_rows(direct, redirect, pending, fuel) == resolve_rows(
            direct,
            redirect,
            pending,
            redirect.len(),
        ),
    decreases pending.len(),
{
    if pending.len() > 0 {
        let e = pending.last();
        lemma_fuel_never_runs_out(direct, redirect, pending.drop_last(), fuel);
        let empty = Seq::<(Seq<char>, Seq<char>)>::empty();
        assert(sound_path(redirect, empty));
        lemma_node_fuel(direct, redirect, e.owner, e.getter.ident, empty, fuel, redirect.len());
    }
}

/// Whether some row of `table` has the owner `owner` and a getter on `ident`.
pub open spec fn read_in(table: Seq<BindingView>, owner: Seq<char>, ident: Seq<char>) -> bool {
    exists|q: int| 0 <= q < table.len() && #[trigger] table[q].owner == owner && table[q].getter.ident == ident
}

proof fn lemma_keyed_within(table: Seq<BindingView>, instance: Seq<char>, property: Seq<char>)
    ensures
        forall|m: int|
            0 <= m < keyed(table, instance, property).len() ==> table.contains(
                #[trigger] keyed(table, instance, property)[m],
            ),
    decreases table.len(),
{
    if table.len() > 0 {
        lemma_keyed_within(table.drop_last(), instance, property);
        let prev = keyed(table.drop_last(), instance, property);
        let ks = keyed(table, instance, property);
        assert forall|m: int| 0 <= m < ks.len() implies table.contains(#[trigger] ks[m]) by {
            if m < prev.len() {
                assert(ks[m] == prev[m]);
                let i = choose|i: int| 0 <= i < table.drop_last().len() && table.drop_last()[i] == prev[m];
                assert(table[i] == prev[m]);
            } else {
                assert(table[table.len() - 1] == ks[m]);
            }
        }
    }
}

proof fn lemma_node_origins(
    direct: Seq<BindingView>,
    redirect: Seq<BindingView>,
    owner: Seq<char>,
    ident: Seq<char>,
    path: Seq<(Seq<char>, Seq<char>)>,
    fuel: nat,
)
    ensures
        match resolve_node(direct, redirect, owner, ident, path, fuel) {
            Ok((ts, hs)) => (forall|m: int| 0 <= m < ts.len() ==> read_in(direct, #[trigger] ts[m].0, ts[m].1.ident))
                && (forall|m: int| 0 <= m < hs.len() ==> redirect.contains(#[trigger] hs[m])),
            Err(_) => true,
        },
    decreases fuel, 0nat,
{
    let hits = keyed(direct, owner, ident);
    let hops = keyed(redirect, owner, ident);
    if hits.len() > 0 {
        lemma_keyed_within(direct, owner, ident);
        let ts = hits.map_values(|b: BindingView| (b.owner, b.getter));
        assert forall|m: int| 0 <= m < ts.len() implies read_in(direct, #[trigger] ts[m].0, ts[m].1.ident) by {
            assert(direct.contains(hits[m]));
            let q = choose|q: int| 0 <= q < direct.len() && direct[q] == hits[m];
            assert(direct[q].owner == ts[m].0);
        }
    } else if !path.contains((owner, ident)) && hops.len() > 0 && fuel > 0 {
        lemma_keyed_within(redirect, owner, ident);
        lemma_hops_origins(direct, redirect, hops, path.push((owner, ident)), (fuel - 1) as nat);
    }
}

proof fn lemma_hops_origins(
    direct: Seq<BindingView>,
    redirect: Seq<BindingView>,
    hops: Seq<BindingView>,
    path: Seq<(Seq<char>, Seq<char>)>,
    fuel: nat,
)
    requires
        forall|m: int| 0 <= m < hops.len() ==> redirect.contains(#[trigger] hops[m]),
    ensures
        match resolve_hops(direct, redirect, hops, path, fuel) {
            Ok((ts, hs)) => (forall|m: int| 0 <= m < ts.len() ==> read_in(direct, #[trigger] ts[m].0, ts[m].1.ident))
                && (forall|m: int| 0 <= m < hs.len() ==> redirect.contains(#[trigger] hs[m])),
            Err(_) => true,
        },
    decreases fuel, hops.len(),
{
    if hops.len() > 0 {
        let h = hops.last();
        assert(redirect.contains(hops[hops.len() - 1]));
        assert forall|m: int| 0 <= m < hops.drop_last().len() implies redirect.contains(#[trigger] hops.drop_last()[m]) by {
            assert(hops.drop_last()[m] == hops[m]);
        }
        lemma_hops_origins(direct, redirect, hops.drop_last(), path, fuel);
        lemma_node_origins(direct, redirect, h.owner, h.getter.ident, path, fuel);
        match resolve_hops(direct, redirect, hops.drop_last(), path, fuel) {
            Err(_) => {},
            Ok((ts0, hs0)) => {
                match resolve_node(direct, redirect, h.owner, h.getter.ident, path, fuel) {
                    Err(_) => {},
                    Ok((more, crossed)) => {
                        let ex = extended(more, h.getter.indexes);
                        let ts = ts0 + ex;
                        let hs = hs0.push(h) + crossed;
                        assert forall|m: int| 0 <= m < ts.len() implies read_in(direct, #[trigger] ts[m].0, ts[m].1.ident) by {
                            if m < ts0.len() {
                                assert(ts[m] == ts0[m]);
                            } else {
                                assert(ts[m] == ex[m - ts0.len()]);
                                assert(ex[m - ts0.len()].0 == more[m - ts0.len()].0);
                            }
                        }
                        assert forall|m: int| 0 <= m < hs.len() implies redirect.contains(#[trigger] hs[m]) by {
                            if m < hs0.len() {
                                assert(hs[m] == hs0[m]);
                            } else if m == hs0.len() {
                                assert(hs[m] == h);
                            } else {
                                assert(hs[m] == crossed[m - hs0.len() - 1]);
                            }
                        }
                    },
                }
            },
        }
    }
}

proof fn lemma_rows_origins(
    direct: Seq<BindingView>,
    redirect: Seq<BindingView>,
    pending: Seq<BindingView>,
    fuel: nat,
)
    ensures
        match resolve_rows(direct, redirect, pending, fuel) {
            Ok((found, crossed)) => (forall|m: int|
                0 <= m < found.len() ==> read_in(direct, #[trigger] found[m].owner, found[m].getter.ident))
                && (forall|m: int|
                0 <= m < crossed.len() ==> read_in(redirect, #[trigger] crossed[m].owner, crossed[m].getter.ident)),
            Err(_) => true,
        },
    decreases pending.len(),
{
    if pending.len() > 0 {
        let e = pending.last();
        lemma_rows_origins(direct, redirect, pending.drop_last(), fuel);
        lemma_node_origins(direct, redirect, e.owner, e.getter.ident, Seq::empty(), fuel);
        match resolve_rows(direct, redirect, pending.drop_last(), fuel) {
            Err(_) => {},
            Ok((found0, crossed0)) => {
                match resolve_node(direct, redirect, e.owner, e.getter.ident, Seq::empty(), fuel) {
                    Err(_) => {},
                    Ok((ts, hs)) => {
                        let group = siblings(redirect, e);
                        let em = emitted(e, ts, group);
                        let rk = rekeyed(e, hs);
                        lemma_emitted_origins(e, ts, group, direct);
                        let found = found0 + em;
                        let crossed = crossed0 + rk;
                        assert forall|m: int| 0 <= m < found.len() implies read_in(direct, #[trigger] found[m].owner, found[m].getter.ident) by {
                            if m < found0.len() {
                                assert(found[m] == found0[m]);
                            } else {
                                assert(found[m] == em[m - found0.len()]);
                            }
                        }
                        assert forall|m: int| 0 <= m < crossed.len() implies read_in(redirect, #[trigger] crossed[m].owner, crossed[m].getter.ident) by {
                            if m < crossed0.len() {
                                assert(crossed[m] == crossed0[m]);
                            } else {
                                let n = m - crossed0.len();
                                assert(crossed[m] == rk[n]);
                                assert(redirect.contains(hs[n]));
                                let q = choose|q: int| 0 <= q < redirect.len() && redirect[q] == hs[n];
                                assert(redirect[q].owner == crossed[m].owner);
                            }
                        }
                    },
                }
            },
        }
    }
}

proof fn lemma_emitted_origins(
    e: BindingView,
    ts: Seq<SourceView>,
    group: Seq<BindingView>,
    direct: Seq<BindingView>,
)
    requires
        forall|m: int| 0 <= m < ts.len() ==> read_in(direct, #[trigger] ts[m].0, ts[m].1.ident),
    ensures
        forall|m: int|
            0 <= m < emitted(e, ts, group).len() ==> read_in(
                direct,
                #[trigger] emitted(e, ts, group)[m].owner,
                emitted(e, ts, group)[m].getter.ident,
            ),
    decreases ts.len(),
{
    if ts.len() > 0 {
        assert forall|m: int| 0 <= m < ts.drop_last().len() implies read_in(direct, #[trigger] ts.drop_last()[m].0, ts.drop_last()[m].1.ident) by {
            assert(ts.drop_last()[m] == ts[m]);
        }
        lemma_emitted_origins(e, ts.drop_last(), group, direct);
        let prev = emitted(e, ts.drop_last(), group);
        let last = paired(e, ts.last(), group);
        let em = emitted(e, ts, group);
        assert(read_in(direct, ts[ts.len() - 1].0, ts[ts.len() - 1].1.ident));
        assert forall|m: int| 0 <= m < em.len() implies read_in(direct, #[trigger] em[m].owner, em[m].getter.ident) by {
            if m < prev.len() {
                assert(em[m] == prev[m]);
            } else {
                assert(em[m] == last[m - prev.len()]);
            }
        }
    }
}

/// Resolution keeps the tables classified: when every direct row reads a variable its owner
/// declares and every redirection row a name its owner does not, the published tables are
/// so too. Every direct getter so reads a declared variable of its source.
pub proof fn lemma_resolution_keeps_classification(
    declared: Seq<(Seq<char>, Seq<String>)>,
    direct: Seq<BindingView>,
    redirect: Seq<BindingView>,
)
    requires
        classified(declared, direct, redirect),
    ensures
        match resolved(direct, redirect) {
            Ok((properties, redirections)) => classified(declared, properties, redirections),
            Err(_) => true,
        },
{
    lemma_rows_origins(direct, redirect, redirect, redirect.len());
    match resolve_rows(direct, redirect, redirect, redirect.len()) {
        Err(_) => {},
        Ok((found, crossed)) => {
            let properties = union_rows(Seq::empty(), direct + found);
            let redirections = union_rows(Seq::empty(), redirect + crossed);
            assert forall|k: int| 0 <= k < properties.len() implies recorded(
                declared,
                #[trigger] properties[k].owner,
                properties[k].getter.ident,
                true,
            ) by {
                let x = properties[k];
                assert(properties.contains(x));
                lemma_published_tables_are_sets(direct, redirect, x);
                let q = if direct.contains(x) {
                    choose|q: int| 0 <= q < direct.len() && direct[q] == x
                } else {
                    let i = choose|i: int| 0 <= i < found.len() && found[i] == x;
                    assert(read_in(direct, found[i].owner, found[i].getter.ident));
                    choose|q: int| 0 <= q < direct.len() && #[trigger] direct[q].owner == x.owner && direct[q].getter.ident == x.getter.ident
                };
                assert(recorded(declared, direct[q].owner, direct[q].getter.ident, true));
            }
            assert forall|k: int| 0 <= k < redirections.len() implies recorded(
                declared,
                #[trigger] redirections[k].owner,
                redirections[k].getter.ident,
                false,
            ) by {
                let x = redirections[k];
                assert(redirections.contains(x));
                lemma_published_tables_are_sets(direct, redirect, x);
                let q = if redirect.contains(x) {
                    choose|q: int| 0 <= q < redirect.len() && redirect[q] == x
                } else {
                    let i = choose|i: int| 0 <= i < crossed.len() && crossed[i] == x;
                    assert(read_in(redirect, crossed[i].owner, crossed[i].getter.ident));
                    choose|q: int| 0 <= q < redirect.len() && #[trigger] redirect[q].owner == x.owner && redirect[q].getter.ident == x.getter.ident
                };
                assert(recorded(declared, redirect[q].owner, redirect[q].getter.ident, false));
            }
        },
    }
}

/// Whether `rank` orders the redirections: each redirection row reads a node that has a
/// direct row, or that has redirection rows of its own and a lower rank than the node the
/// row is keyed by. Such a rank exists exactly when no chain of redirections comes back on
/// itself and every name a chain reaches is bound.
pub open spec fn ranked(
    direct: Seq<BindingView>,
    redirect: Seq<BindingView>,
    rank: spec_fn((Seq<char>, Seq<char>)) -> nat,
) -> bool {
    forall|k: int|
        #![trigger redirect[k]]
        0 <= k < redirect.len() ==> {
            let target = (redirect[k].owner, redirect[k].getter.ident);
            keyed(direct, target.0, target.1).len() > 0 || (keyed(redirect, target.0, target.1).len()
                > 0 && rank(target) < rank((redirect[k].instance, redirect[k].property)))
        }
}

proof fn lemma_keyed_keys(table: Seq<BindingView>, instance: Seq<char>, property: Seq<char>)
    ensures
        forall|m: int|
            0 <= m < keyed(table, instance, property).len() ==> (#[trigger] keyed(table, instance, property)[m]).instance
                == instance && keyed(table, instance, property)[m].property == property,
    decreases table.len(),
{
    if table.len() > 0 {
        lemma_keyed_keys(table.drop_last(), instance, property);
        let prev = keyed(table.drop_last(), instance, property);
        let ks = keyed(table, instance, property);
        assert forall|m: int| 0 <= m < ks.len() implies (#[trigger] ks[m]).instance == instance
            && ks[m].property == property by {
            if m < prev.len() {
                assert(ks[m] == prev[m]);
            }
        }
    }
}

proof fn lemma_ranked_node_resolves(
    direct: Seq<BindingView>,
    redirect: Seq<BindingView>,
    rank: spec_fn((Seq<char>, Seq<char>)) -> nat,
    owner: Seq<char>,
    ident: Seq<char>,
    path: Seq<(Seq<char>, Seq<char>)>,
    fuel: nat,
)
    requires
        ranked(direct, redirect, rank),
        sound_path(redirect, path),
        path.len() + fuel >= redirect.len(),
        keyed(direct, owner, ident).len() > 0 || (keyed(redirect, owner, ident).len() > 0 && forall|j: int|
            0 <= j < path.len() ==> rank(#[trigger] path[j]) > rank((owner, ident))),
    ensures
        resolve_node(direct, redirect, owner, ident, path, fuel) is Ok,
    decreases rank((owner, ident)), keyed(redirect, owner, ident).len() + 1,
{
    let hits = keyed(direct, owner, ident);
    let hops = keyed(redirect, owner, ident);
    if hits.len() == 0 {
        let node = (owner, ident);
        assert(!path.contains(node)) by {
            if path.contains(node) {
                let j = choose|j: int| 0 <= j < path.len() && path[j] == node;
                assert(rank(path[j]) > rank(node));
            }
        }
        let longer = path.push(node);
        assert forall|j: int| 0 <= j < longer.len() implies #[trigger] keyed(
            redirect,
            longer[j].0,
            longer[j].1,
        ).len() > 0 by {
            if j < path.len() {
                assert(longer[j] == path[j]);
            }
        }
        assert(longer.no_duplicates()) by {
            assert forall|i: int, j: int| 0 <= i < longer.len() && 0 <= j < longer.len() && i != j implies longer[i]
                != longer[j] by {
                if i < path.len() && j < path.len() {
                    assert(longer[i] == path[i] && longer[j] == path[j]);
                } else if i < path.len() {
                    assert(longer[i] == path[i]);
                } else if j < path.len() {
                    assert(longer[j] == path[j]);
                }
            }
        }
        lemma_sound_path_bounded(redirect, longer);
        lemma_keyed_within(redirect, owner, ident);
        lemma_keyed_keys(redirect, owner, ident);
        assert forall|m: int| 0 <= m < hops.len() implies {
            let target = (#[trigger] hops[m].owner, hops[m].getter.ident);
            keyed(direct, target.0, target.1).len() > 0 || (keyed(redirect, target.0, target.1).len()
                > 0 && rank(target) < rank(node))
        } by {
            assert(redirect.contains(hops[m]));
            let q = choose|q: int| 0 <= q < redirect.len() && redirect[q] == hops[m];
            assert(redirect[q] == hops[m]);
        }
        assert forall|j: int| 0 <= j < longer.len() implies rank(#[trigger] longer[j]) >= rank(node) by {
            if j < path.len() {
                assert(longer[j] == path[j]);
            }
        }
        lemma_ranked_hops_resolve(direct, redirect, rank, rank(node), hops, longer, (fuel - 1) as nat);
    }
}

proof fn lemma_ranked_hops_resolve(
    direct: Seq<BindingView>,
    redirect: Seq<BindingView>,
    rank: spec_fn((Seq<char>, Seq<char>)) -> nat,
    level: nat,
    hops: Seq<BindingView>,
    path: Seq<(Seq<char>, Seq<char>)>,
    fuel: nat,
)
    requires
        ranked(direct, redirect, rank),
        sound_path(redirect, path),
        path.len() + fuel >= redirect.len(),
        forall|j: int| 0 <= j < path.len() ==> rank(#[trigger] path[j]) >= level,
        forall|m: int|
            0 <= m < hops.len() ==> {
                let target = (#[trigger] hops[m].owner, hops[m].getter.ident);
                keyed(direct, target.0, target.1).len() > 0 || (keyed(redirect, target.0, target.1).len()
                    > 0 && rank(target) < level)
            },
    ensures
        resolve_hops(direct, redirect, hops, path, fuel) is Ok,
    decreases level, hops.len(),
{
    if hops.len() > 0 {
        let h = hops.last();
        assert(hops[hops.len() - 1] == h);
        assert forall|m: int| 0 <= m < hops.drop_last().len() implies {
            let target = (#[trigger] hops.drop_last()[m].owner, hops.drop_last()[m].getter.ident);
            keyed(direct, target.0, target.1).len() > 0 || (keyed(redirect, target.0, target.1).len()
                > 0 && rank(target) < level)
        } by {
            assert(hops.drop_last()[m] == hops[m]);
        }
        lemma_ranked_hops_resolve(direct, redirect, rank, level, hops.drop_last(), path, fuel);
        if keyed(direct, h.owner, h.getter.ident).len() == 0 {
            lemma_ranked_node_resolves(direct, redirect, rank, h.owner, h.getter.ident, path, fuel);
        }
    }
}

proof fn lemma_ranked_rows_resolve(
    direct: Seq<BindingView>,
    redirect: Seq<BindingView>,
    rank: spec_fn((Seq<char>, Seq<char>)) -> nat,
    pending: Seq<BindingView>,
)
    requires
        ranked(direct, redirect, rank),
        forall|m: int| 0 <= m < pending.len() ==> redirect.contains(#[trigger] pending[m]),
    ensures
        resolve_rows(direct, redirect, pending, redirect.len()) is Ok,
    decreases pending.len(),
{
    if pending.len() > 0 {
        let e = pending.last();
        assert(redirect.contains(pending[pending.len() - 1]));
        assert forall|m: int| 0 <= m < pending.drop_last().len() implies redirect.contains(#[trigger] pending.drop_last()[m]) by {
            assert(pending.drop_last()[m] == pending[m]);
        }
        lemma_ranked_rows_resolve(direct, redirect, rank, pending.drop_last());
        let q = choose|q: int| 0 <= q < redirect.len() && redirect[q] == e;
        assert(redirect[q] == e);
        let empty = Seq::<(Seq<char>, Seq<char>)>::empty();
        assert(sound_path(redirect, empty));
        lemma_ranked_node_resolves(direct, redirect, rank, e.owner, e.getter.ident, empty, redirect.len());
    }
}

/// A model without cycles whose chains all end resolves: where a rank orders the
/// redirections, resolution succeeds.
pub proof fn lemma_ranked_model_resolves(
    direct: Seq<BindingView>,
    redirect: Seq<BindingView>,
    rank: spec_fn((Seq<char>, Seq<char>)) -> nat,
)
    requires
        ranked(direct, redirect, rank),
    ensures
        resolved(direct, redirect) is Ok,
{
    assert forall|m: int| 0 <= m < redirect.len() implies redirect.contains(#[trigger] redirect[m]) by {
    }
    lemma_ranked_rows_resolve(direct, redirect, rank, redirect);
}

/// Completeness for a model without cycles whose chains all end: resolution succeeds, and
/// every property bound with at least one getter on an embedded instance has a row in the
/// direct table.
pub proof fn lemma_ranked_model_is_complete(
    cs: Seq<Component>,
    rank: spec_fn((Seq<char>, Seq<char>)) -> nat,
    c: int,
    i: int,
    k: int,
)
    requires
        ranked(collected(cs, true), collected(cs, false), rank),
        0 <= c < cs.len(),
        0 <= i < cs[c].children@.len(),
        cs[c].children@[i] is Extern,
        0 <= k < cs[c].children@[i]->Extern_0.properties@.len(),
        cs[c].children@[i]->Extern_0.properties@[k].getters@.len() > 0,
    ensures
        ({
            let x = cs[c].children@[i]->Extern_0;
            match resolved(collected(cs, true), collected(cs, false)) {
                Ok((properties, _)) => has_binding(properties, x.id@, x.properties@[k].key@),
                Err(_) => false,
            }
        }),
{
    lemma_ranked_model_resolves(collected(cs, true), collected(cs, false), rank);
    lemma_every_bound_property_resolved(cs, c, i, k);
}

/// The full cross product for a model without cycles whose chains all end: resolution
/// succeeds, the chain of each redirection row reaches its terminal sources, and each of
/// them paired with each getter bound beside that row is in the direct table.
pub proof fn lemma_ranked_model_keeps_every_combination(
    direct: Seq<BindingView>,
    redirect: Seq<BindingView>,
    rank: spec_fn((Seq<char>, Seq<char>)) -> nat,
    k: int,
    m: int,
    n: int,
)
    requires
        ranked(direct, redirect, rank),
        0 <= k < redirect.len(),
    ensures
        match (
            resolved(direct, redirect),
            resolve_node(
                direct,
                redirect,
                redirect[k].owner,
                redirect[k].getter.ident,
                Seq::empty(),
                redirect.len(),
            ),
        ) {
            (Ok((properties, _)), Ok((ts, _))) => 0 <= m < ts.len() && 0 <= n < siblings(
                redirect,
                redirect[k],
            ).len() ==> properties.contains(
                paired(redirect[k], ts[m], siblings(redirect, redirect[k]))[n],
            ),
            _ => false,
        },
{
    lemma_ranked_model_resolves(direct, redirect, rank);
    let empty = Seq::<(Seq<char>, Seq<char>)>::empty();
    assert(sound_path(redirect, empty));
    assert(redirect[k] == redirect[k]);
    lemma_ranked_node_resolves(
        direct,
        redirect,
        rank,
        redirect[k].owner,
        redirect[k].getter.ident,
        empty,
        redirect.len(),
    );
    lemma_every_combination_resolved(direct, redirect, k, m, n);
}

} // verus!
