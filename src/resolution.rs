use vstd::prelude::*;
use crate::recipe::{
    index_views, push_row, rows, Binding, BindingView, Getter, GetterView, Index, IndexView,
};

verus! {

/// Why a set of components cannot be resolved.
#[derive(Debug, PartialEq, Eq)]
pub enum ResolveError {
    /// `ident`, read inside `owner`, is neither a variable nor a bound property of `owner`.
    UnresolvedReference { owner: String, ident: String },
    /// The chain of redirections through `ident` of `owner` comes back to it.
    Cycle { owner: String, ident: String },
}

/// The mathematical value of a `ResolveError`.
pub enum ResolveErrorView {
    UnresolvedReference { owner: Seq<char>, ident: Seq<char> },
    Cycle { owner: Seq<char>, ident: Seq<char> },
}

impl View for ResolveError {
    type V = ResolveErrorView;

    open spec fn view(&self) -> ResolveErrorView {
        match self {
            ResolveError::UnresolvedReference { owner, ident } => ResolveErrorView::UnresolvedReference {
                owner: owner@,
                ident: ident@,
            },
            ResolveError::Cycle { owner, ident } => ResolveErrorView::Cycle {
                owner: owner@,
                ident: ident@,
            },
        }
    }
}

/// The rows of `table` keyed by `instance` and `property`, in order.
pub open spec fn keyed(table: Seq<BindingView>, instance: Seq<char>, property: Seq<char>) -> Seq<
    BindingView,
>
    decreases table.len(),
{
    if table.len() == 0 {
        Seq::empty()
    } else {
        let prev = keyed(table.drop_last(), instance, property);
        if table.last().instance == instance && table.last().property == property {
            prev.push(table.last())
        } else {
            prev
        }
    }
}

/// A terminal source: the component that declares the variable, and the getter on it.
pub type SourceView = (Seq<char>, GetterView);

/// The values of a vector of terminal sources.
pub open spec fn sources(v: Seq<(String, Getter)>) -> Seq<SourceView> {
    v.map_values(|s: (String, Getter)| (s.0@, s.1@))
}

/// The values of a path of nodes (owner, identifier).
pub open spec fn nodes(v: Seq<(String, String)>) -> Seq<(Seq<char>, Seq<char>)> {
    v.map_values(|n: (String, String)| (n.0@, n.1@))
}

/// `ts` with `suffix` appended to the index steps of each getter.
pub open spec fn extended(ts: Seq<SourceView>, suffix: Seq<IndexView>) -> Seq<SourceView> {
    ts.map_values(
        |t: SourceView| (t.0, GetterView { ident: t.1.ident, indexes: t.1.indexes + suffix }),
    )
}

/// The terminal sources reached from a node, and the redirection rows crossed on the way.
pub type Resolution = Result<(Seq<SourceView>, Seq<BindingView>), ResolveErrorView>;

/// Resolves the node (`owner`, `ident`): the direct rows keyed by it if there are any; else
/// every redirection row keyed by it, followed in order. `path` holds the nodes being
/// expanded; `fuel` bounds how many more may be.
pub open spec fn resolve_node(
    direct: Seq<BindingView>,
    redirect: Seq<BindingView>,
    owner: Seq<char>,
    ident: Seq<char>,
    path: Seq<(Seq<char>, Seq<char>)>,
    fuel: nat,
) -> Resolution
    decreases fuel, 0nat,
{
    let hits = keyed(direct, owner, ident);
    let hops = keyed(redirect, owner, ident);
    if hits.len() > 0 {
        Ok((hits.map_values(|b: BindingView| (b.owner, b.getter)), Seq::empty()))
    } else if path.contains((owner, ident)) {
        Err(ResolveErrorView::Cycle { owner, ident })
    } else if hops.len() == 0 {
        Err(ResolveErrorView::UnresolvedReference { owner, ident })
    } else if fuel == 0 {
        Err(ResolveErrorView::Cycle { owner, ident })
    } else {
        resolve_hops(direct, redirect, hops, path.push((owner, ident)), (fuel - 1) as nat)
    }
}

/// Follows the redirection rows `hops` in order: each hop's own index steps go after those
/// of what it reaches, and the hop itself is recorded before the hops crossed beyond it.
pub open spec fn resolve_hops(
    direct: Seq<BindingView>,
    redirect: Seq<BindingView>,
    hops: Seq<BindingView>,
    path: Seq<(Seq<char>, Seq<char>)>,
    fuel: nat,
) -> Resolution
    decreases fuel, hops.len(),
{
    if hops.len() == 0 {
        Ok((Seq::empty(), Seq::empty()))
    } else {
        match resolve_hops(direct, redirect, hops.drop_last(), path, fuel) {
            Err(e) => Err(e),
            Ok((ts, hs)) => {
                let h = hops.last();
                match resolve_node(direct, redirect, h.owner, h.getter.ident, path, fuel) {
                    Err(e) => Err(e),
                    Ok((more, crossed)) => Ok(
                        (ts + extended(more, h.getter.indexes), hs.push(h) + crossed),
                    ),
                }
            },
        }
    }
}

proof fn lemma_hops_error_stays(
    direct: Seq<BindingView>,
    redirect: Seq<BindingView>,
    hops: Seq<BindingView>,
    path: Seq<(Seq<char>, Seq<char>)>,
    fuel: nat,
    i: int,
)
    requires
        0 <= i <= hops.len(),
        resolve_hops(direct, redirect, hops.take(i), path, fuel) is Err,
    ensures
        resolve_hops(direct, redirect, hops, path, fuel) == resolve_hops(
            direct,
            redirect,
            hops.take(i),
            path,
            fuel,
        ),
    decreases hops.len() - i,
{
    if i < hops.len() {
        assert(hops.take(i + 1).drop_last() =~= hops.take(i));
        lemma_hops_error_stays(direct, redirect, hops, path, fuel, i + 1);
    } else {
        assert(hops.take(i) =~= hops);
    }
}

/// The rows of `table` keyed by `instance` and `property`.
fn matching(table: &Vec<Binding>, instance: &String, property: &String) -> (r: Vec<Binding>)
    ensures
        rows(r@) == keyed(rows(table@), instance@, property@),
{
    let mut r: Vec<Binding> = Vec::new();
    let mut i: usize = 0;
    while i < table.len()
        invariant
            i <= table.len(),
            rows(r@) == keyed(rows(table@).take(i as int), instance@, property@),
        decreases table.len() - i,
    {
        let b = &table[i];
        assert(rows(table@).take(i as int + 1).drop_last() =~= rows(table@).take(i as int));
        assert(rows(table@).take(i as int + 1).last() == b@);
        if b.instance == *instance && b.property == *property {
            r.push(b.duplicate());
            assert(rows(r@) =~= keyed(rows(table@).take(i as int + 1), instance@, property@));
        }
        i = i + 1;
    }
    assert(rows(table@).take(table@.len() as int) =~= rows(table@));
    r
}

fn on_path(path: &Vec<(String, String)>, owner: &String, ident: &String) -> (r: bool)
    ensures
        r == nodes(path@).contains((owner@, ident@)),
{
    let mut i: usize = 0;
    while i < path.len()
        invariant
            i <= path.len(),
            forall|k: int| 0 <= k < i ==> #[trigger] nodes(path@)[k] != (owner@, ident@),
        decreases path.len() - i,
    {
        if path[i].0 == *owner && path[i].1 == *ident {
            assert(nodes(path@)[i as int] == (owner@, ident@));
            return true;
        }
        i = i + 1;
    }
    false
}

fn append_extended(ts: &mut Vec<(String, Getter)>, more: &Vec<(String, Getter)>, suffix: &Vec<Index>)
    ensures
        sources(final(ts)@) == sources(old(ts)@) + extended(sources(more@), index_views(suffix@)),
{
    let mut i: usize = 0;
    while i < more.len()
        invariant
            i <= more.len(),
            sources(ts@) == sources(old(ts)@) + extended(sources(more@), index_views(suffix@)).take(i as int),
        decreases more.len() - i,
    {
        let t = &more[i];
        let ghost prev = ts@;
        ts.push((t.0.clone(), t.1.with_suffix(suffix)));
        assert(sources(ts@) =~= sources(prev).push(extended(sources(more@), index_views(suffix@))[i as int]));
        assert(extended(sources(more@), index_views(suffix@)).take(i as int + 1) =~= extended(
            sources(more@),
            index_views(suffix@),
        ).take(i as int).push(extended(sources(more@), index_views(suffix@))[i as int]));
        i = i + 1;
        assert(sources(ts@) =~= sources(old(ts)@) + extended(sources(more@), index_views(suffix@)).take(
            i as int,
        ));
    }
    assert(extended(sources(more@), index_views(suffix@)).take(more@.len() as int) =~= extended(
        sources(more@),
        index_views(suffix@),
    ));
}

fn append_rows(table: &mut Vec<Binding>, more: &Vec<Binding>)
    ensures
        rows(final(table)@) == rows(old(table)@) + rows(more@),
{
    let mut i: usize = 0;
    while i < more.len()
        invariant
            i <= more.len(),
            rows(table@) == rows(old(table)@) + rows(more@).take(i as int),
        decreases more.len() - i,
    {
        let ghost prev = table@;
        let row = more[i].duplicate();
        table.push(row);
        assert(rows(table@) =~= rows(prev).push(more@[i as int]@));
        assert(rows(more@).take(i as int + 1) =~= rows(more@).take(i as int).push(more@[i as int]@));
        i = i + 1;
        assert(rows(table@) =~= rows(old(table)@) + rows(more@).take(i as int));
    }
    assert(rows(more@).take(more@.len() as int) =~= rows(more@));
}

/// Resolves the node (`owner`, `ident`) as `resolve_node` says.
fn resolve_node_exec(
    direct: &Vec<Binding>,
    redirect: &Vec<Binding>,
    owner: &String,
    ident: &String,
    path: &mut Vec<(String, String)>,
    fuel: usize,
) -> (r: Result<(Vec<(String, Getter)>, Vec<Binding>), ResolveError>)
    ensures
        final(path)@ == old(path)@,
        match r {
            Ok((ts, hs)) => resolve_node(
                rows(direct@),
                rows(redirect@),
                owner@,
                ident@,
                nodes(old(path)@),
                fuel as nat,
            ) == Resolution::Ok((sources(ts@), rows(hs@))),
            Err(e) => resolve_node(
                rows(direct@),
                rows(redirect@),
                owner@,
                ident@,
                nodes(old(path)@),
                fuel as nat,
            ) == Resolution::Err(e@),
        },
    decreases fuel,
{
    let ghost d = rows(direct@);
    let ghost rd = rows(redirect@);
    let hits = matching(direct, owner, ident);
    if hits.len() > 0 {
        let mut ts: Vec<(String, Getter)> = Vec::new();
        let mut i: usize = 0;
        while i < hits.len()
            invariant
                i <= hits.len(),
                rows(hits@) == keyed(rows(direct@), owner@, ident@),
                path@ == old(path)@,
                sources(ts@) == rows(hits@).take(i as int).map_values(
                    |b: BindingView| (b.owner, b.getter),
                ),
            decreases hits.len() - i,
        {
            let ghost prev = ts@;
            let ghost step = |b: BindingView| (b.owner, b.getter);
            ts.push((hits[i].owner.clone(), hits[i].getter.duplicate()));
            assert(sources(ts@) =~= sources(prev).push(step(rows(hits@)[i as int])));
            assert(rows(hits@).take(i as int + 1).map_values(step) =~= rows(hits@).take(
                i as int,
            ).map_values(step).push(step(rows(hits@)[i as int])));
            i = i + 1;
            assert(sources(ts@) =~= rows(hits@).take(i as int).map_values(
                |b: BindingView| (b.owner, b.getter),
            ));
        }
        assert(rows(hits@).take(hits@.len() as int) =~= rows(hits@));
        let none: Vec<Binding> = Vec::new();
        assert(rows(none@) =~= Seq::<BindingView>::empty());
        return Ok((ts, none));
    }
    if on_path(path, owner, ident) {
        return Err(ResolveError::Cycle { owner: owner.clone(), ident: ident.clone() });
    }
    let hops = matching(redirect, owner, ident);
    if hops.len() == 0 {
        return Err(ResolveError::UnresolvedReference { owner: owner.clone(), ident: ident.clone() });
    }
    if fuel == 0 {
        return Err(ResolveError::Cycle { owner: owner.clone(), ident: ident.clone() });
    }
    let ghost before = path@;
    path.push((owner.clone(), ident.clone()));
    assert(nodes(path@) =~= nodes(before).push((owner@, ident@)));
    assert(path@.drop_last() =~= before);
    let ghost inner = nodes(path@);
    let ghost hs_all = rows(hops@);
    let mut ts: Vec<(String, Getter)> = Vec::new();
    let mut hs: Vec<Binding> = Vec::new();
    assert(hs_all.take(0) =~= Seq::<BindingView>::empty());
    assert(sources(ts@) =~= Seq::<SourceView>::empty());
    assert(rows(hs@) =~= Seq::<BindingView>::empty());
    let mut i: usize = 0;
    while i < hops.len()
        invariant
            i <= hops.len(),
            before == old(path)@,
            hs_all == keyed(rd, owner@, ident@),
            keyed(d, owner@, ident@).len() == 0,
            !nodes(before).contains((owner@, ident@)),
            inner == nodes(before).push((owner@, ident@)),
            d == rows(direct@),
            rd == rows(redirect@),
            path@.len() == before.len() + 1,
            path@.drop_last() == before,
            nodes(path@) == inner,
            hs_all == rows(hops@),
            0 < fuel,
            resolve_hops(d, rd, hs_all.take(i as int), inner, (fuel - 1) as nat) == Resolution::Ok(
                (sources(ts@), rows(hs@)),
            ),
        decreases hops.len() - i,
    {
        let h = &hops[i];
        assert(hs_all.take(i as int + 1).drop_last() =~= hs_all.take(i as int));
        assert(hs_all.take(i as int + 1).last() == h@);
        let sub = resolve_node_exec(direct, redirect, &h.owner, &h.getter.ident, path, fuel - 1);
        match sub {
            Err(e) => {
                assert(path@.drop_last() == before);
                assert(resolve_node(d, rd, h@.owner, h@.getter.ident, inner, (fuel - 1) as nat) is Err);
                assert(resolve_hops(d, rd, hs_all.take(i as int + 1), inner, (fuel - 1) as nat) is Err);
                proof {
                    lemma_hops_error_stays(d, rd, hs_all, inner, (fuel - 1) as nat, i as int + 1);
                }
                path.pop();
                assert(path@ =~= before);
                return Err(e);
            },
            Ok((more, crossed)) => {
                append_extended(&mut ts, &more, &h.getter.indexes);
                push_row(&mut hs, h.duplicate());
                append_rows(&mut hs, &crossed);
            },
        }
        i = i + 1;
    }
    path.pop();
    assert(path@ =~= before);
    assert(hs_all.take(hops@.len() as int) =~= hs_all);
    Ok((ts, hs))
}

/// The redirection rows of `table` bound at `e`'s instance and property by `e`'s owner: the
/// getters of one bound expression, in order.
pub open spec fn siblings(table: Seq<BindingView>, e: BindingView) -> Seq<BindingView>
    decreases table.len(),
{
    if table.len() == 0 {
        Seq::empty()
    } else {
        let prev = siblings(table.drop_last(), e);
        let b = table.last();
        if b.instance == e.instance && b.property == e.property && b.owner == e.owner {
            prev.push(b)
        } else {
            prev
        }
    }
}

/// The direct rows that pair the terminal source `t` with each getter of `group`: the
/// source's getter keeps its own index steps, then those of the bound getter.
pub open spec fn paired(e: BindingView, t: SourceView, group: Seq<BindingView>) -> Seq<BindingView> {
    group.map_values(
        |r: BindingView|
            BindingView {
                instance: e.instance,
                property: e.property,
                owner: t.0,
                getter: GetterView { ident: t.1.ident, indexes: t.1.indexes + r.getter.indexes },
            },
    )
}

/// The full cross product of the terminal sources `ts` and the bound getters `group`,
/// terminal by terminal.
pub open spec fn emitted(e: BindingView, ts: Seq<SourceView>, group: Seq<BindingView>) -> Seq<
    BindingView,
>
    decreases ts.len(),
{
    if ts.len() == 0 {
        Seq::empty()
    } else {
        emitted(e, ts.drop_last(), group) + paired(e, ts.last(), group)
    }
}

/// `table` with the rows of `more` added in order, each only where `table` does not hold it
/// yet: a set union that keeps the order of first appearance.
pub open spec fn union_rows(table: Seq<BindingView>, more: Seq<BindingView>) -> Seq<BindingView>
    decreases more.len(),
{
    if more.len() == 0 {
        table
    } else {
        let prev = union_rows(table, more.drop_last());
        if prev.contains(more.last()) {
            prev
        } else {
            prev.push(more.last())
        }
    }
}

/// The redirection rows `hs`, crossed while resolving `e`, recorded under `e`'s key.
pub open spec fn rekeyed(e: BindingView, hs: Seq<BindingView>) -> Seq<BindingView> {
    hs.map_values(
        |h: BindingView|
            BindingView {
                instance: e.instance,
                property: e.property,
                owner: h.owner,
                getter: h.getter,
            },
    )
}

/// The direct rows found for the redirection rows `pending`, and the rows crossed, in order.
pub open spec fn resolve_rows(
    direct: Seq<BindingView>,
    redirect: Seq<BindingView>,
    pending: Seq<BindingView>,
    fuel: nat,
) -> Result<(Seq<BindingView>, Seq<BindingView>), ResolveErrorView>
    decreases pending.len(),
{
    if pending.len() == 0 {
        Ok((Seq::empty(), Seq::empty()))
    } else {
        match resolve_rows(direct, redirect, pending.drop_last(), fuel) {
            Err(e) => Err(e),
            Ok((found, crossed)) => {
                let e = pending.last();
                match resolve_node(direct, redirect, e.owner, e.getter.ident, Seq::empty(), fuel) {
                    Err(x) => Err(x),
                    Ok((ts, hs)) => Ok(
                        (found + emitted(e, ts, siblings(redirect, e)), crossed + rekeyed(e, hs)),
                    ),
                }
            },
        }
    }
}

/// The published tables: the direct table with every redirection resolved, and the
/// redirection table with every hop crossed, each merged as a set in order of first
/// appearance. The fuel, one node per redirection row, lets every chain that visits no node
/// twice reach its end.
pub open spec fn resolved(direct: Seq<BindingView>, redirect: Seq<BindingView>) -> Result<
    (Seq<BindingView>, Seq<BindingView>),
    ResolveErrorView,
> {
    match resolve_rows(direct, redirect, redirect, redirect.len()) {
        Err(e) => Err(e),
        Ok((found, crossed)) => Ok(
            (
                union_rows(Seq::empty(), direct + found),
                union_rows(Seq::empty(), redirect + crossed),
            ),
        ),
    }
}

proof fn lemma_rows_error_stays(
    direct: Seq<BindingView>,
    redirect: Seq<BindingView>,
    pending: Seq<BindingView>,
    fuel: nat,
    i: int,
)
    requires
        0 <= i <= pending.len(),
        resolve_rows(direct, redirect, pending.take(i), fuel) is Err,
    ensures
        resolve_rows(direct, redirect, pending, fuel) == resolve_rows(
            direct,
            redirect,
            pending.take(i),
            fuel,
        ),
    decreases pending.len() - i,
{
    if i < pending.len() {
        assert(pending.take(i + 1).drop_last() =~= pending.take(i));
        lemma_rows_error_stays(direct, redirect, pending, fuel, i + 1);
    } else {
        assert(pending.take(i) =~= pending);
    }
}

/// Merging rows into a table without duplicates keeps it without duplicates.
pub proof fn lemma_union_no_duplicates(table: Seq<BindingView>, more: Seq<BindingView>)
    requires
        table.no_duplicates(),
    ensures
        union_rows(table, more).no_duplicates(),
    decreases more.len(),
{
    if more.len() > 0 {
        let prev = union_rows(table, more.drop_last());
        lemma_union_no_duplicates(table, more.drop_last());
        if !prev.contains(more.last()) {
            let q = prev.push(more.last());
            assert forall|i: int, j: int| 0 <= i < q.len() && 0 <= j < q.len() && i != j implies q[i]
                != q[j] by {
                if i < prev.len() && j < prev.len() {
                    assert(q[i] == prev[i] && q[j] == prev[j]);
                } else if i < prev.len() {
                    assert(q[i] == prev[i]);
                } else if j < prev.len() {
                    assert(q[j] == prev[j]);
                }
            }
        }
    }
}

/// The redirection rows of `table` that share `e`'s instance, property and owner.
fn siblings_of(table: &Vec<Binding>, e: &Binding) -> (r: Vec<Binding>)
    ensures
        rows(r@) == siblings(rows(table@), e@),
{
    let mut r: Vec<Binding> = Vec::new();
    let mut i: usize = 0;
    while i < table.len()
        invariant
            i <= table.len(),
            rows(r@) == siblings(rows(table@).take(i as int), e@),
        decreases table.len() - i,
    {
        let b = &table[i];
        assert(rows(table@).take(i as int + 1).drop_last() =~= rows(table@).take(i as int));
        assert(rows(table@).take(i as int + 1).last() == b@);
        if b.instance == e.instance && b.property == e.property && b.owner == e.owner {
            push_row(&mut r, b.duplicate());
        }
        i = i + 1;
    }
    assert(rows(table@).take(table@.len() as int) =~= rows(table@));
    r
}

fn append_paired(table: &mut Vec<Binding>, e: &Binding, t: &(String, Getter), group: &Vec<Binding>)
    ensures
        rows(final(table)@) == rows(old(table)@) + paired(e@, (t.0@, t.1@), rows(group@)),
{
    let ghost all = paired(e@, (t.0@, t.1@), rows(group@));
    let mut j: usize = 0;
    while j < group.len()
        invariant
            j <= group.len(),
            all == paired(e@, (t.0@, t.1@), rows(group@)),
            rows(table@) == rows(old(table)@) + all.take(j as int),
        decreases group.len() - j,
    {
        let ghost prev = table@;
        let row = Binding {
            instance: e.instance.clone(),
            property: e.property.clone(),
            owner: t.0.clone(),
            getter: t.1.with_suffix(&group[j].getter.indexes),
        };
        table.push(row);
        assert(rows(table@) =~= rows(prev).push(all[j as int]));
        assert(all.take(j as int + 1) =~= all.take(j as int).push(all[j as int]));
        j = j + 1;
    }
    assert(all.take(group@.len() as int) =~= all);
}

fn append_emitted(table: &mut Vec<Binding>, e: &Binding, ts: &Vec<(String, Getter)>, group: &Vec<Binding>)
    ensures
        rows(final(table)@) == rows(old(table)@) + emitted(e@, sources(ts@), rows(group@)),
{
    let ghost g = rows(group@);
    let mut i: usize = 0;
    assert(sources(ts@).take(0) =~= Seq::<SourceView>::empty());
    assert(rows(table@) =~= rows(old(table)@) + Seq::<BindingView>::empty());
    while i < ts.len()
        invariant
            i <= ts.len(),
            g == rows(group@),
            rows(table@) == rows(old(table)@) + emitted(e@, sources(ts@).take(i as int), g),
        decreases ts.len() - i,
    {
        let ghost before = rows(table@);
        append_paired(table, e, &ts[i], group);
        assert(sources(ts@).take(i as int + 1).drop_last() =~= sources(ts@).take(i as int));
        assert(sources(ts@).take(i as int + 1).last() == (ts@[i as int].0@, ts@[i as int].1@));
        i = i + 1;
        assert(rows(table@) =~= rows(old(table)@) + emitted(e@, sources(ts@).take(i as int), g));
    }
    assert(sources(ts@).take(ts@.len() as int) =~= sources(ts@));
}

/// Adds `row` to `table` unless a row of the same value is there already.
fn add_row(table: &mut Vec<Binding>, row: Binding)
    ensures
        rows(final(table)@) == if rows(old(table)@).contains(row@) {
            rows(old(table)@)
        } else {
            rows(old(table)@).push(row@)
        },
{
    let mut i: usize = 0;
    while i < table.len()
        invariant
            i <= table.len(),
            forall|k: int| 0 <= k < i ==> #[trigger] rows(table@)[k] != row@,
        decreases table.len() - i,
    {
        let b = &table[i];
        if b.instance == row.instance && b.property == row.property && b.owner == row.owner
            && b.getter.same(&row.getter) {
            assert(rows(table@)[i as int] == row@);
            return;
        }
        i = i + 1;
    }
    push_row(table, row);
}

/// Merges the rows of `more` into `table` as a set, in order.
fn add_rows(table: &mut Vec<Binding>, more: &Vec<Binding>)
    ensures
        rows(final(table)@) == union_rows(rows(old(table)@), rows(more@)),
{
    let mut i: usize = 0;
    assert(rows(more@).take(0) =~= Seq::<BindingView>::empty());
    while i < more.len()
        invariant
            i <= more.len(),
            rows(table@) == union_rows(rows(old(table)@), rows(more@).take(i as int)),
        decreases more.len() - i,
    {
        assert(rows(more@).take(i as int + 1).drop_last() =~= rows(more@).take(i as int));
        assert(rows(more@).take(i as int + 1).last() == more@[i as int]@);
        add_row(table, more[i].duplicate());
        i = i + 1;
    }
    assert(rows(more@).take(more@.len() as int) =~= rows(more@));
}

fn append_rekeyed(table: &mut Vec<Binding>, e: &Binding, hs: &Vec<Binding>)
    ensures
        rows(final(table)@) == rows(old(table)@) + rekeyed(e@, rows(hs@)),
{
    let ghost all = rekeyed(e@, rows(hs@));
    let mut i: usize = 0;
    while i < hs.len()
        invariant
            i <= hs.len(),
            all == rekeyed(e@, rows(hs@)),
            rows(table@) == rows(old(table)@) + all.take(i as int),
        decreases hs.len() - i,
    {
        let ghost prev = table@;
        let h = &hs[i];
        let row = Binding {
            instance: e.instance.clone(),
            property: e.property.clone(),
            owner: h.owner.clone(),
            getter: h.getter.duplicate(),
        };
        table.push(row);
        assert(rows(table@) =~= rows(prev).push(all[i as int]));
        assert(all.take(i as int + 1) =~= all.take(i as int).push(all[i as int]));
        i = i + 1;
    }
    assert(all.take(hs@.len() as int) =~= all);
}

/// Resolves every redirection row of `redirect` against `direct`: the direct table grows by
/// the flattened sources of each, and the redirection table by the hops crossed.
pub fn resolve_tables(direct: &Vec<Binding>, redirect: &Vec<Binding>) -> (r: Result<
    (Vec<Binding>, Vec<Binding>),
    ResolveError,
>)
    ensures
        match r {
            Ok((properties, redirections)) => resolved(rows(direct@), rows(redirect@)) == Ok::<
                (Seq<BindingView>, Seq<BindingView>),
                ResolveErrorView,
            >((rows(properties@), rows(redirections@))) && rows(properties@).no_duplicates()
                && rows(redirections@).no_duplicates(),
            Err(e) => resolved(rows(direct@), rows(redirect@)) == Err::<
                (Seq<BindingView>, Seq<BindingView>),
                ResolveErrorView,
            >(e@),
        },
{
    let ghost d = rows(direct@);
    let ghost rd = rows(redirect@);
    let mut found: Vec<Binding> = Vec::new();
    let mut crossed: Vec<Binding> = Vec::new();
    let mut path: Vec<(String, String)> = Vec::new();
    let fuel = redirect.len();
    assert(rd.take(0) =~= Seq::<BindingView>::empty());
    assert(rows(found@) =~= Seq::<BindingView>::empty());
    assert(rows(crossed@) =~= Seq::<BindingView>::empty());
    let mut i: usize = 0;
    while i < redirect.len()
        invariant
            i <= redirect.len(),
            d == rows(direct@),
            rd == rows(redirect@),
            fuel == redirect.len(),
            path@.len() == 0,
            resolve_rows(d, rd, rd.take(i as int), fuel as nat) == Ok::<
                (Seq<BindingView>, Seq<BindingView>),
                ResolveErrorView,
            >((rows(found@), rows(crossed@))),
        decreases redirect.len() - i,
    {
        let e = &redirect[i];
        assert(rd.take(i as int + 1).drop_last() =~= rd.take(i as int));
        assert(rd.take(i as int + 1).last() == e@);
        assert(nodes(path@) =~= Seq::<(Seq<char>, Seq<char>)>::empty());
        let sub = resolve_node_exec(direct, redirect, &e.owner, &e.getter.ident, &mut path, fuel);
        match sub {
            Err(x) => {
                assert(resolve_rows(d, rd, rd.take(i as int + 1), fuel as nat) is Err);
                proof {
                    lemma_rows_error_stays(d, rd, rd, fuel as nat, i as int + 1);
                }
                return Err(x);
            },
            Ok((ts, hs)) => {
                let group = siblings_of(redirect, e);
                append_emitted(&mut found, e, &ts, &group);
                append_rekeyed(&mut crossed, e, &hs);
            },
        }
        i = i + 1;
    }
    assert(rd.take(redirect@.len() as int) =~= rd);
    let mut all_properties: Vec<Binding> = Vec::new();
    append_rows(&mut all_properties, direct);
    append_rows(&mut all_properties, &found);
    let mut all_redirections: Vec<Binding> = Vec::new();
    append_rows(&mut all_redirections, redirect);
    append_rows(&mut all_redirections, &crossed);
    assert(rows(all_properties@) =~= d + rows(found@));
    assert(rows(all_redirections@) =~= rd + rows(crossed@));
    let mut properties: Vec<Binding> = Vec::new();
    assert(rows(properties@) =~= Seq::<BindingView>::empty());
    add_rows(&mut properties, &all_properties);
    let mut redirections: Vec<Binding> = Vec::new();
    assert(rows(redirections@) =~= Seq::<BindingView>::empty());
    add_rows(&mut redirections, &all_redirections);
    proof {
        lemma_union_no_duplicates(Seq::empty(), rows(all_properties@));
        lemma_union_no_duplicates(Seq::empty(), rows(all_redirections@));
    }
    Ok((properties, redirections))
}

} // verus!
