use std::sync::Arc;
use vstd::prelude::*;

verus! {

/// A value type of the data layer: something a `Format` can be laid over.
pub trait Type {
}

/// The entry that `entries` holds for `key`: the one added last wins.
pub open spec fn entry_of<F>(entries: Seq<(String, F)>, key: Seq<char>) -> Option<F>
    decreases entries.len(),
{
    if entries.len() == 0 {
        None
    } else if entries.last().0@ == key {
        Some(entries.last().1)
    } else {
        entry_of(entries.drop_last(), key)
    }
}

/// A user-defined type: an identifier and named templates.
pub struct CustomType {
    id: String,
    templates: Vec<(String, Format<dyn Type>)>,
}

impl CustomType {
    pub closed spec fn id(&self) -> Seq<char> {
        self.id@
    }

    /// The template stored under `key`, if any.
    pub closed spec fn template(&self, key: Seq<char>) -> Option<Format<dyn Type>> {
        entry_of(self.templates@, key)
    }

    pub fn new(id: String) -> (r: Self)
        ensures
            r.id() == id@,
            forall|k: Seq<char>| #[trigger] r.template(k) == None::<Format<dyn Type>>,
    {
        CustomType { id, templates: Vec::new() }
    }

    /// Stores `format` under `key`, replacing what was there.
    pub fn add_template(&mut self, key: String, format: Format<dyn Type>)
        ensures
            final(self).id() == old(self).id(),
            final(self).template(key@) == Some(format),
            forall|k: Seq<char>| k != key@ ==> #[trigger] final(self).template(k) == old(self).template(k),
    {
        let ghost before = self.templates@;
        self.templates.push((key, format));
        assert(self.templates@.drop_last() =~= before);
    }

    /// Whether a template is stored under `key`.
    pub fn has_template(&self, key: &String) -> (r: bool)
        ensures
            r == (self.template(key@) is Some),
    {
        holds_key(&self.templates, key)
    }
}

/// Whether `entries` holds an entry for `key`.
fn holds_key<F>(entries: &Vec<(String, F)>, key: &String) -> (r: bool)
    ensures
        r == (entry_of(entries@, key@) is Some),
{
    let mut i: usize = entries.len();
    assert(entries@.take(i as int) =~= entries@);
    while i > 0
        invariant
            i <= entries.len(),
            entry_of(entries@, key@) == entry_of(entries@.take(i as int), key@),
        decreases i,
    {
        assert(entries@.take(i as int).drop_last() =~= entries@.take(i as int - 1));
        if entries[i - 1].0 == *key {
            return true;
        }
        i = i - 1;
    }
    false
}

impl Type for CustomType {
}

/// How a value of some type is laid out: the type, and the formats of its parts by key.
pub struct Format<T: ?Sized + Type> {
    type_: Arc<T>,
    format: Vec<(String, Format<T>)>,
}

impl<T: ?Sized + Type> Format<T> {
    /// The format of the part under `key`, if any.
    pub closed spec fn part(&self, key: Seq<char>) -> Option<Format<T>> {
        entry_of(self.format@, key)
    }

    /// The type this format lays out.
    pub closed spec fn type_of(&self) -> Arc<T> {
        self.type_
    }

    /// Whether no part has a format yet.
    pub closed spec fn is_bare(&self) -> bool {
        self.format@.len() == 0
    }

    /// Whether the part under `key` has a format.
    pub fn has_part(&self, key: &String) -> (r: bool)
        ensures
            r == (self.part(key@) is Some),
    {
        holds_key(&self.format, key)
    }

    pub fn new(type_: Arc<T>) -> (r: Self)
        ensures
            r.type_of() == type_,
            r.is_bare(),
            forall|k: Seq<char>| #[trigger] r.part(k) == None::<Format<T>>,
    {
        Format { type_, format: Vec::new() }
    }

    /// Gives the whole value its format, kept under the empty key.
    pub fn set_format(&mut self, format: Format<T>)
        requires
            old(self).is_bare(),
        ensures
            final(self).type_of() == old(self).type_of(),
            !final(self).is_bare(),
            final(self).part(Seq::empty()) == Some(format),
            forall|k: Seq<char>| k != Seq::<char>::empty() ==> #[trigger] final(self).part(k) == None::<Format<T>>,
    {
        self.format.push((String::new(), format));
        assert(self.format@.drop_last() =~= Seq::<(String, Format<T>)>::empty());
        assert forall|k: Seq<char>| k != Seq::<char>::empty() implies #[trigger] self.part(k) == None::<Format<T>> by {
            assert(entry_of(self.format@.drop_last(), k) == None::<Format<T>>);
        }
    }

    /// Gives the part under `key` its format; no part under `key` may have one yet.
    pub fn add_format(&mut self, key: String, format: Format<T>)
        requires
            old(self).part(key@) == None::<Format<T>>,
        ensures
            final(self).type_of() == old(self).type_of(),
            !final(self).is_bare(),
            final(self).part(key@) == Some(format),
            forall|k: Seq<char>| k != key@ ==> #[trigger] final(self).part(k) == old(self).part(k),
    {
        let ghost before = self.format@;
        self.format.push((key, format));
        assert(self.format@.drop_last() =~= before);
    }
}

} // verus!
