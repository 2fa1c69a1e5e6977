use vstd::prelude::*;

verus! {

/// One structural index step of a getter: a position in a quantity, or a key of a text.
#[derive(Debug, PartialEq, Eq)]
pub enum Index {
    Quantity(u64),
    Text(String),
}

/// The mathematical value of an `Index`.
pub enum IndexView {
    Quantity(u64),
    Text(Seq<char>),
}

impl View for Index {
    type V = IndexView;

    open spec fn view(&self) -> IndexView {
        match self {
            Index::Quantity(n) => IndexView::Quantity(*n),
            Index::Text(s) => IndexView::Text(s@),
        }
    }
}

/// The values of a sequence of index steps.
pub open spec fn index_views(s: Seq<Index>) -> Seq<IndexView> {
    s.map_values(|i: Index| i@)
}

impl Index {
    pub fn duplicate(&self) -> (r: Index)
        ensures
            r@ == self@,
    {
        match self {
            Index::Quantity(n) => Index::Quantity(*n),
            Index::Text(s) => Index::Text(s.clone()),
        }
    }

    /// Whether two index steps have the same value.
    pub fn same(&self, other: &Index) -> (r: bool)
        ensures
            r == (self@ == other@),
    {
        match (self, other) {
            (Index::Quantity(a), Index::Quantity(b)) => *a == *b,
            (Index::Text(a), Index::Text(b)) => *a == *b,
            _ => false,
        }
    }
}

/// The mathematical value of a `Getter`.
pub struct GetterView {
    pub ident: Seq<char>,
    pub indexes: Seq<IndexView>,
}

/// An access path: an identifier read through index steps, outermost first.
#[derive(Debug, PartialEq, Eq)]
pub struct Getter {
    pub ident: String,
    pub indexes: Vec<Index>,
}

impl View for Getter {
    type V = GetterView;

    open spec fn view(&self) -> GetterView {
        GetterView { ident: self.ident@, indexes: index_views(self.indexes@) }
    }
}

impl Getter {
    pub fn new(ident: String, indexes: Vec<Index>) -> (r: Getter)
        ensures
            r.ident == ident,
            r.indexes == indexes,
    {
        Getter { ident, indexes }
    }

    /// The same getter with `suffix` appended to its index steps.
    pub fn with_suffix(&self, suffix: &Vec<Index>) -> (r: Getter)
        ensures
            r@ == (GetterView {
                ident: self.ident@,
                indexes: index_views(self.indexes@) + index_views(suffix@),
            }),
    {
        let mut indexes: Vec<Index> = Vec::new();
        let mut i: usize = 0;
        while i < self.indexes.len()
            invariant
                i <= self.indexes.len(),
                index_views(indexes@) == index_views(self.indexes@).take(i as int),
            decreases self.indexes.len() - i,
        {
            let ghost prev = indexes@;
            indexes.push(self.indexes[i].duplicate());
            assert(index_views(indexes@) =~= index_views(prev).push(self.indexes@[i as int]@));
            assert(index_views(self.indexes@).take(i as int + 1) =~= index_views(self.indexes@).take(
                i as int,
            ).push(self.indexes@[i as int]@));
            i = i + 1;
        }
        let mut j: usize = 0;
        while j < suffix.len()
            invariant
                j <= suffix.len(),
                index_views(indexes@) == index_views(self.indexes@) + index_views(suffix@).take(
                    j as int,
                ),
            decreases suffix.len() - j,
        {
            let ghost prev = indexes@;
            indexes.push(suffix[j].duplicate());
            assert(index_views(indexes@) =~= index_views(prev).push(suffix@[j as int]@));
            assert(index_views(suffix@).take(j as int + 1) =~= index_views(suffix@).take(
                j as int,
            ).push(suffix@[j as int]@));
            j = j + 1;
            assert(index_views(indexes@) =~= index_views(self.indexes@) + index_views(suffix@).take(
                j as int,
            ));
        }
        assert(index_views(self.indexes@).take(self.indexes@.len() as int) =~= index_views(
            self.indexes@,
        ));
        assert(index_views(suffix@).take(suffix@.len() as int) =~= index_views(suffix@));
        Getter { ident: self.ident.clone(), indexes }
    }

    pub fn duplicate(&self) -> (r: Getter)
        ensures
            r@ == self@,
    {
        let none: Vec<Index> = Vec::new();
        let r = self.with_suffix(&none);
        assert(index_views(none@) =~= Seq::<IndexView>::empty());
        assert(index_views(self.indexes@) + Seq::<IndexView>::empty() =~= index_views(
            self.indexes@,
        ));
        r
    }

    /// Whether two getters have the same value.
    pub fn same(&self, other: &Getter) -> (r: bool)
        ensures
            r == (self@ == other@),
    {
        if !(self.ident == other.ident) {
            return false;
        }
        if self.indexes.len() != other.indexes.len() {
            assert(index_views(self.indexes@).len() != index_views(other.indexes@).len());
            return false;
        }
        let mut i: usize = 0;
        while i < self.indexes.len()
            invariant
                i <= self.indexes.len(),
                self.indexes.len() == other.indexes.len(),
                forall|k: int| 0 <= k < i ==> self.indexes@[k]@ == other.indexes@[k]@,
            decreases self.indexes.len() - i,
        {
            if !self.indexes[i].same(&other.indexes[i]) {
                assert(index_views(self.indexes@)[i as int] != index_views(other.indexes@)[i as int]);
                return false;
            }
            i = i + 1;
        }
        assert(index_views(self.indexes@) =~= index_views(other.indexes@));
        true
    }
}

/// A property binding of an embedded instance: the key, and the getters its expression reads.
pub struct Property {
    pub key: String,
    pub getters: Vec<Getter>,
}

/// An embedded instance of another component, configured by property bindings.
pub struct Extern {
    pub id: String,
    pub properties: Vec<Property>,
}

/// A node of a component's child tree.
pub enum ComponentChild {
    /// Static or rich content, with the getters it reads.
    Text(Vec<Getter>),
    /// An input bound to one variable through its change getter.
    Input(Getter),
    Extern(Extern),
}

/// A component: its id, its declared variables, and its ordered children.
pub struct Component {
    pub id: String,
    pub variables: Vec<String>,
    pub children: Vec<ComponentChild>,
}

/// Whether `ident` is one of `variables`.
pub open spec fn declares(variables: Seq<String>, ident: Seq<char>) -> bool {
    exists|i: int| 0 <= i < variables.len() && #[trigger] variables[i]@ == ident
}

/// The mathematical value of a table row: `instance`'s `property` is read by `owner` through `getter`.
pub struct BindingView {
    pub instance: Seq<char>,
    pub property: Seq<char>,
    pub owner: Seq<char>,
    pub getter: GetterView,
}

/// A row of a binding table. In the direct table `owner` declares the variable that
/// `getter` reads; in the redirection table `getter` reads a property of the instance `owner`.
#[derive(Debug, PartialEq, Eq)]
pub struct Binding {
    pub instance: String,
    pub property: String,
    pub owner: String,
    pub getter: Getter,
}

impl View for Binding {
    type V = BindingView;

    open spec fn view(&self) -> BindingView {
        BindingView {
            instance: self.instance@,
            property: self.property@,
            owner: self.owner@,
            getter: self.getter@,
        }
    }
}

impl Binding {
    pub fn duplicate(&self) -> (r: Binding)
        ensures
            r@ == self@,
    {
        Binding {
            instance: self.instance.clone(),
            property: self.property.clone(),
            owner: self.owner.clone(),
            getter: self.getter.duplicate(),
        }
    }
}

/// The values of a vector of rows.
pub open spec fn rows(v: Seq<Binding>) -> Seq<BindingView> {
    v.map_values(|b: Binding| b@)
}

/// Appends one row to a table.
pub fn push_row(table: &mut Vec<Binding>, row: Binding)
    ensures
        rows(final(table)@) == rows(old(table)@).push(row@),
{
    table.push(row);
    assert(rows(table@) =~= rows(old(table)@).push(row@));
}

/// The rows that the getters `gs` of `instance`'s `property`, bound inside `owner`, give to
/// the direct table (`direct`) or to the redirection table (`!direct`).
pub open spec fn getter_rows(
    instance: Seq<char>,
    property: Seq<char>,
    owner: Seq<char>,
    variables: Seq<String>,
    gs: Seq<Getter>,
    direct: bool,
) -> Seq<BindingView>
    decreases gs.len(),
{
    if gs.len() == 0 {
        Seq::empty()
    } else {
        let prev = getter_rows(instance, property, owner, variables, gs.drop_last(), direct);
        if declares(variables, gs.last().ident@) == direct {
            prev.push(BindingView { instance, property, owner, getter: gs.last()@ })
        } else {
            prev
        }
    }
}

/// The rows that the bindings `ps` of the instance `instance`, inside `owner`, give.
pub open spec fn property_rows(
    instance: Seq<char>,
    owner: Seq<char>,
    variables: Seq<String>,
    ps: Seq<Property>,
    direct: bool,
) -> Seq<BindingView>
    decreases ps.len(),
{
    if ps.len() == 0 {
        Seq::empty()
    } else {
        property_rows(instance, owner, variables, ps.drop_last(), direct) + getter_rows(
            instance,
            ps.last().key@,
            owner,
            variables,
            ps.last().getters@,
            direct,
        )
    }
}

/// The rows that the embedded instances among `children` give.
pub open spec fn child_rows(
    owner: Seq<char>,
    variables: Seq<String>,
    children: Seq<ComponentChild>,
    direct: bool,
) -> Seq<BindingView>
    decreases children.len(),
{
    if children.len() == 0 {
        Seq::empty()
    } else {
        let prev = child_rows(owner, variables, children.drop_last(), direct);
        match children.last() {
            ComponentChild::Extern(x) => prev + property_rows(
                x.id@,
                owner,
                variables,
                x.properties@,
                direct,
            ),
            _ => prev,
        }
    }
}

/// The rows that one component gives.
pub open spec fn component_rows(c: Component, direct: bool) -> Seq<BindingView> {
    child_rows(c.id@, c.variables@, c.children@, direct)
}

/// The rows that the components `cs` give, in order.
pub open spec fn collected(cs: Seq<Component>, direct: bool) -> Seq<BindingView>
    decreases cs.len(),
{
    if cs.len() == 0 {
        Seq::empty()
    } else {
        collected(cs.drop_last(), direct) + component_rows(cs.last(), direct)
    }
}

} // verus!
