//! The storage devices of a system, to be found by their identifiers or by
//! the short forms of these.

use crate::storage::DeviceRef;
use crate::ui::idshortcuts::first_named;
use crate::ui::idshortcuts::id_models;
use crate::ui::idshortcuts::shortcuts_of;
use crate::ui::idshortcuts::IdShortcuts;
use crate::ui::idshortcuts::ShortcutModel;
use vstd::prelude::*;
use vstd::string::StringExecFns;

verus! {

/// The first `count` of the devices, each followed by its parts.
pub open spec fn walk(devices: Seq<DeviceRef>, count: int) -> Seq<DeviceRef>
    decreases count,
{
    if count <= 0 {
        Seq::empty()
    } else {
        walk(devices, count - 1) + seq![devices[count - 1]] + devices[count - 1].children@
    }
}

/// The identifiers of a list of devices.
pub open spec fn ids_of(devices: Seq<DeviceRef>) -> Seq<Seq<char>> {
    Seq::new(devices.len(), |i: int| devices[i].id@)
}

/// The identifier that `key` names among the shortcuts: that of the first
/// shortcut it names, and itself where it names none.
pub open spec fn canonical(shortcuts: Seq<ShortcutModel>, key: Seq<char>) -> Seq<char> {
    if exists|i: int| first_named(shortcuts, key, i) {
        shortcuts[choose|i: int| first_named(shortcuts, key, i)].id
    } else {
        key
    }
}

/// Whether entry `i` is the first device of a list that goes by `id`.
pub open spec fn first_with_id(devices: Seq<DeviceRef>, id: Seq<char>, i: int) -> bool {
    &&& 0 <= i < devices.len()
    &&& devices[i].id@ == id
    &&& forall|j: int| 0 <= j < i ==> devices[j].id@ != id
}

/// The devices of a system with the short forms of their identifiers.
pub struct StorageRepo {
    raw: Vec<DeviceRef>,
    refs: IdShortcuts,
}

impl StorageRepo {
    /// The devices of the repository.
    pub closed spec fn listed(&self) -> Seq<DeviceRef> {
        self.raw@
    }

    /// The shortcuts of the repository.
    pub closed spec fn shortcuts(&self) -> Seq<ShortcutModel> {
        self.refs.entries()
    }

    /// A repository of the devices `source`. Short forms are worked out for
    /// the identifiers of the devices and of their parts.
    pub fn from(source: Vec<DeviceRef>) -> (repo: StorageRepo)
        ensures
            repo.listed() == source@,
            repo.shortcuts() == shortcuts_of(
                ids_of(walk(source@, source@.len() as int)),
            ),
    {
        let mut flat: Vec<&str> = Vec::new();
        let mut i: usize = 0;
        while i < source.len()
            invariant
                i <= source@.len(),
                id_models(flat@) == ids_of(walk(source@, i as int)),
            decreases source@.len() - i,
        {
            let ghost before = flat@;
            flat.push(source[i].id.as_str());
            let ghost with_device = flat@;
            let mut j: usize = 0;
            while j < source[i].children.len()
                invariant
                    i < source@.len(),
                    j <= source@[i as int].children@.len(),
                    id_models(flat@) == id_models(with_device) + ids_of(
                        source@[i as int].children@.subrange(0, j as int),
                    ),
                decreases source@[i as int].children@.len() - j,
            {
                let ghost so_far = flat@;
                flat.push(source[i].children[j].id.as_str());
                proof {
                    let parts = source@[i as int].children@;
                    assert(id_models(flat@) =~= id_models(so_far).push(parts[j as int].id@));
                    assert(ids_of(parts.subrange(0, j as int + 1)) =~= ids_of(
                        parts.subrange(0, j as int),
                    ).push(parts[j as int].id@));
                    assert(id_models(flat@) =~= id_models(with_device) + ids_of(
                        parts.subrange(0, j as int + 1),
                    ));
                }
                j = j + 1;
            }
            proof {
                let parts = source@[i as int].children@;
                assert(parts.subrange(0, parts.len() as int) =~= parts);
                assert(id_models(with_device) =~= id_models(before).push(source@[i as int].id@));
                assert(ids_of(walk(source@, i as int + 1)) =~= ids_of(walk(source@, i as int)).push(
                    source@[i as int].id@,
                ) + ids_of(parts));
            }
            i = i + 1;
        }
        let refs = IdShortcuts::from(flat);
        StorageRepo { raw: source, refs }
    }

    /// The devices, as they were given.
    pub fn devices(&self) -> (devices: &[DeviceRef])
        ensures
            devices@ == self.listed(),
    {
        self.raw.as_slice()
    }

    /// The short form of the identifier `id`.
    pub fn get_short_id(&self, id: &str) -> (short: Option<&String>)
        ensures
            match short {
                Some(text) => exists|i: int|
                    #[trigger] crate::ui::idshortcuts::first_for(self.shortcuts(), id@, i)
                        && self.shortcuts()[i].short == text@,
                None => forall|i: int|
                    0 <= i < self.shortcuts().len() ==> self.shortcuts()[i].id != id@,
            },
    {
        let short = self.refs.get_short(id);
        proof {
            if let Some(text) = short {
                let i = choose|i: int|
                    #[trigger] crate::ui::idshortcuts::first_for(self.refs.entries(), id@, i)
                        && self.refs.entries()[i].short == text@;
                assert(crate::ui::idshortcuts::first_for(self.shortcuts(), id@, i));
            }
        }
        short
    }

    /// The device that `id` names, be it by its identifier or by the short
    /// form of it: the first device or part of a device, in listing order,
    /// that goes by the identifier that `id` stands for.
    pub fn find_by_id(&self, id: &str) -> (found: Option<&DeviceRef>)
        ensures
            ({
                let wanted = canonical(self.shortcuts(), id@);
                let all = walk(self.listed(), self.listed().len() as int);
                match found {
                    Some(device) => exists|i: int|
                        #[trigger] first_with_id(all, wanted, i) && all[i] == *device,
                    None => forall|i: int| 0 <= i < all.len() ==> all[i].id@ != wanted,
                }
            }),
    {
        let canonical_id = match self.refs.get(id) {
            Some(known) => known.clone(),
            None => String::from_str(id),
        };
        let ghost wanted = canonical(self.shortcuts(), id@);
        proof {
            if exists|i: int| first_named(self.shortcuts(), id@, i) {
                let chosen = choose|i: int| first_named(self.shortcuts(), id@, i);
                assert forall|k: int| first_named(self.shortcuts(), id@, k) implies k
                    == chosen by {
                    if k < chosen {
                    } else if k > chosen {
                    }
                }
            }
            assert(canonical_id@ == wanted);
        }
        let mut i: usize = 0;
        while i < self.raw.len()
            invariant
                i <= self.raw@.len(),
                canonical_id@ == wanted,
                wanted == canonical(self.shortcuts(), id@),
                forall|k: int|
                    0 <= k < walk(self.raw@, i as int).len() ==> walk(self.raw@, i as int)[k].id@
                        != wanted,
            decreases self.raw@.len() - i,
        {
            let r = &self.raw[i];
            let ghost head = walk(self.raw@, i as int);
            if r.id == canonical_id {
                proof {
                    let all = walk(self.raw@, self.raw@.len() as int);
                    let part = walk(self.raw@, i as int + 1);
                    lemma_walk_prefix(self.raw@, i as int + 1, self.raw@.len() as int);
                    let at = head.len() as int;
                    assert(part[at] == *r);
                    assert(all[at] == part[at]);
                    assert forall|k: int| 0 <= k < at implies all[k].id@ != wanted by {
                        assert(all[k] == part[k]);
                        assert(part[k] == head[k]);
                    }
                    assert(first_with_id(all, wanted, at));
                    assert(wanted == canonical(self.shortcuts(), id@));
                }
                return Some(r);
            }
            let mut j: usize = 0;
            while j < r.children.len()
                invariant
                    i < self.raw@.len(),
                    *r == self.raw@[i as int],
                    j <= r.children@.len(),
                    canonical_id@ == wanted,
                    head == walk(self.raw@, i as int),
                    wanted == canonical(self.shortcuts(), id@),
                    r.id@ != wanted,
                    forall|k: int| 0 <= k < head.len() ==> head[k].id@ != wanted,
                    forall|k: int| 0 <= k < j ==> r.children@[k].id@ != wanted,
                decreases r.children@.len() - j,
            {
                let c = &r.children[j];
                if c.id == canonical_id {
                    proof {
                        let all = walk(self.raw@, self.raw@.len() as int);
                        let part = walk(self.raw@, i as int + 1);
                        lemma_walk_prefix(self.raw@, i as int + 1, self.raw@.len() as int);
                        let at = head.len() as int + 1 + j as int;
                        assert(part[at] == *c);
                        assert(all[at] == part[at]);
                        assert forall|k: int| 0 <= k < at implies all[k].id@ != wanted by {
                            assert(all[k] == part[k]);
                            if k < head.len() {
                                assert(part[k] == head[k]);
                            } else if k == head.len() {
                                assert(part[k] == *r);
                            } else {
                                assert(part[k] == r.children@[k - head.len() - 1]);
                            }
                        }
                        assert(first_with_id(all, wanted, at));
                    }
                    return Some(c);
                }
                j = j + 1;
            }
            proof {
                let part = walk(self.raw@, i as int + 1);
                assert forall|k: int| 0 <= k < part.len() implies part[k].id@ != wanted by {
                    if k < head.len() {
                        assert(part[k] == head[k]);
                    } else if k == head.len() {
                        assert(part[k] == *r);
                    } else {
                        assert(part[k] == r.children@[k - head.len() - 1]);
                    }
                }
            }
            i = i + 1;
        }
        None
    }
}

/// The walk of fewer devices is where the walk of more devices starts.
pub proof fn lemma_walk_prefix(devices: Seq<DeviceRef>, fewer: int, more: int)
    requires
        0 <= fewer <= more,
    ensures
        walk(devices, fewer).len() <= walk(devices, more).len(),
        forall|k: int|
            0 <= k < walk(devices, fewer).len() ==> walk(devices, more)[k] == walk(
                devices,
                fewer,
            )[k],
    decreases more - fewer,
{
    if fewer < more {
        lemma_walk_prefix(devices, fewer, more - 1);
    }
}

} // verus!
