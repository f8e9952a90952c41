//! The short forms of device identifiers, for listing.

use crate::ui::idshortcuts::id_models;
use crate::ui::idshortcuts::shortcuts_of;
use crate::ui::idshortcuts::IdShortcuts;
use crate::ui::idshortcuts::ShortcutModel;
use vstd::prelude::*;

verus! {

/// The short forms of a set of identifiers, without the way back from a
/// short form to its identifier.
pub struct IdMapper {
    inner: IdShortcuts,
}

impl IdMapper {
    /// The shortcuts behind the mapper.
    pub closed spec fn entries(&self) -> Seq<ShortcutModel> {
        self.inner.entries()
    }

    /// Works out the short forms of the identifiers `ids`.
    pub fn from(ids: Vec<&str>) -> (mapper: IdMapper)
        ensures
            mapper.entries() == shortcuts_of(id_models(ids@)),
    {
        IdMapper { inner: IdShortcuts::from(ids) }
    }

    /// All short forms.
    pub fn keys(&self) -> (keys: Vec<&str>)
        ensures
            keys@.len() == self.entries().len(),
            forall|i: int| 0 <= i < keys@.len() ==> keys@[i]@ == self.entries()[i].short,
    {
        self.inner.keys()
    }
}

} // verus!
