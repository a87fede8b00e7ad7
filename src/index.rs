//! The index builder: one pass over an ordered catalog fills the six lookup
//! tables of a driver database, assigning surrogate ids in input order.

use vstd::prelude::*;
use std::collections::HashMap;
use crate::hardware::{lemma_pack_injective, pack, pack_spec, HardwareId, HardwareKind, PciId, UsbId};
use crate::catalog::{DriverOption, HardwareList, HardwareListInner, HardwareSetup};

verus! {

broadcast use vstd::std_specs::hash::group_hash_axioms;

/// Number of driver options held by the setups at positions below `i`.
pub open spec fn options_before(c: Seq<HardwareSetup>, i: int) -> int
    decreases i,
{
    if i <= 0 {
        0
    } else {
        options_before(c, i - 1) + c[i - 1].driver_options@.len()
    }
}

/// Total number of driver options in the catalog.
pub open spec fn total_options(c: Seq<HardwareSetup>) -> int {
    options_before(c, c.len() as int)
}

/// Surrogate id of the setup at position `i`: ids count from 1 in input order.
pub open spec fn setup_id(i: int) -> u64 {
    (i + 1) as u64
}

/// Surrogate id of option `k` of the setup at position `i`: options are
/// numbered from 1 across the whole catalog, in input order.
pub open spec fn option_id(c: Seq<HardwareSetup>, i: int, k: int) -> u64 {
    (options_before(c, i) + k + 1) as u64
}

/// The option ids of the setup at position `i`, in order.
pub open spec fn option_ids_of(c: Seq<HardwareSetup>, i: int) -> Seq<u64> {
    Seq::new(c[i].driver_options@.len(), |k: int| option_id(c, i, k))
}

/// Ids of the setups of kind `k` among the first `n`, in order.
pub open spec fn setups_of_kind(c: Seq<HardwareSetup>, k: HardwareKind, n: int) -> Seq<u64>
    decreases n,
{
    if n <= 0 {
        Seq::empty()
    } else if c[n - 1].hardware_kind == k {
        setups_of_kind(c, k, n - 1).push(setup_id(n - 1))
    } else {
        setups_of_kind(c, k, n - 1)
    }
}

/// Ids of the options of the setups of kind `k` among the first `n`, in order.
pub open spec fn options_of_kind(c: Seq<HardwareSetup>, k: HardwareKind, n: int) -> Seq<u64>
    decreases n,
{
    if n <= 0 {
        Seq::empty()
    } else if c[n - 1].hardware_kind == k {
        options_of_kind(c, k, n - 1) + option_ids_of(c, n - 1)
    } else {
        options_of_kind(c, k, n - 1)
    }
}

/// Whether the table maps `key` to a list holding `id`.
pub open spec fn table_has(m: Map<u32, Vec<u64>>, key: u32, id: u64) -> bool {
    m.contains_key(key) && m[key]@.contains(id)
}

/// No key of the table maps to an empty list.
pub open spec fn no_empty_entries(m: Map<u32, Vec<u64>>) -> bool {
    forall|key: u32| #[trigger] m.contains_key(key) ==> m[key]@.len() > 0
}

/// Whether `key` is the key of one of the devices of a group.
pub open spec fn group_has_key(vendor: u16, devices: Seq<u16>, key: u32) -> bool {
    exists|d: u16| devices.contains(d) && key == #[trigger] pack_spec(vendor, d)
}

/// Adds `id` under the key of every device of one group.
fn add_group(table: &mut HashMap<u32, Vec<u64>>, vendor: u16, devices: &Vec<u16>, id: u64)
    requires
        no_empty_entries(old(table)@),
    ensures
        no_empty_entries(final(table)@),
        forall|key: u32, x: u64|
            #[trigger] table_has(final(table)@, key, x) <==> (table_has(old(table)@, key, x) || (x
                == id && group_has_key(vendor, devices@, key))),
{
    let mut i: usize = 0;
    while i < devices.len()
        invariant
            i <= devices.len(),
            no_empty_entries(table@),
            forall|key: u32, x: u64|
                #[trigger] table_has(table@, key, x) <==> (table_has(old(table)@, key, x) || (x
                    == id && group_has_key(vendor, devices@.take(i as int), key))),
        decreases devices.len() - i,
    {
        let key = pack(vendor, devices[i]);
        let ghost before = table@;
        let entry = table.remove(&key);
        let mut ids: Vec<u64> = match entry {
            Some(v) => v,
            None => Vec::new(),
        };
        let ghost prev = ids@;
        if ids.len() == 0 || ids[ids.len() - 1] != id {
            ids.push(id);
        }
        assert(ids@[ids@.len() - 1] == id);
        assert(ids@.contains(id));
        assert(forall|x: u64| ids@.contains(x) <==> (prev.contains(x) || x == id)) by {
            assert forall|x: u64| ids@.contains(x) implies (prev.contains(x) || x == id) by {
                if ids@.len() > prev.len() {
                    let j = choose|j: int| 0 <= j < ids@.len() && ids@[j] == x;
                    if j < prev.len() {
                        assert(prev[j] == x);
                    }
                }
            }
            assert forall|x: u64| (prev.contains(x) || x == id) implies ids@.contains(x) by {
                if prev.contains(x) {
                    let j = choose|j: int| 0 <= j < prev.len() && prev[j] == x;
                    assert(ids@[j] == x);
                }
            }
        }
        table.insert(key, ids);
        proof {
            let d = devices@[i as int];
            assert(devices@.take(i as int + 1) == devices@.take(i as int).push(d));
            assert forall|k: u32, x: u64|
                #[trigger] table_has(table@, k, x) <==> (table_has(old(table)@, k, x) || (x == id
                    && group_has_key(vendor, devices@.take(i as int + 1), k))) by {
                if k == key {
                    assert(devices@.take(i as int + 1)[i as int] == d);
                    assert(devices@.take(i as int + 1).contains(d));
                    assert(group_has_key(vendor, devices@.take(i as int + 1), k));
                    assert(table@[k] == ids);
                    assert(table_has(table@, k, x) == ids@.contains(x));
                    assert(prev.contains(x) == table_has(before, k, x));
                } else {
                    assert(table@.contains_key(k) == before.contains_key(k));
                    if table@.contains_key(k) {
                        assert(table@[k] == before[k]);
                    }
                    assert(table_has(table@, k, x) == table_has(before, k, x));
                    if group_has_key(vendor, devices@.take(i as int + 1), k) {
                        let e = choose|e: u16|
                            devices@.take(i as int + 1).contains(e) && k == #[trigger] pack_spec(
                                vendor,
                                e,
                            );
                        if e == d {
                            assert(false);
                        }
                        let j = choose|j: int| 0 <= j < i + 1 && #[trigger] devices@.take(i as int + 1)[j] == e;
                        if j == i {
                            assert(false);
                        }
                        assert(devices@.take(i as int)[j] == e);
                        assert(devices@.take(i as int).contains(e));
                    }
                    if group_has_key(vendor, devices@.take(i as int), k) {
                        let e = choose|e: u16|
                            devices@.take(i as int).contains(e) && k == #[trigger] pack_spec(
                                vendor,
                                e,
                            );
                        let j = choose|j: int| 0 <= j < i && #[trigger] devices@.take(i as int)[j] == e;
                        assert(devices@.take(i as int + 1)[j] == e);
                        assert(devices@.take(i as int + 1).contains(e));
                    }
                }
            }
        }
        i = i + 1;
    }
    assert(devices@.take(devices@.len() as int) == devices@);
}

/// Whether a PCI key is named by one group of an `Each` matcher.
pub open spec fn inner_has_pci_key(g: HardwareListInner, key: u32) -> bool {
    match g {
        HardwareListInner::Pci(l) => group_has_key(l.vendor, l.devices@, key),
        HardwareListInner::Usb(_) => false,
    }
}

/// Whether a USB key is named by one group of an `Each` matcher.
pub open spec fn inner_has_usb_key(g: HardwareListInner, key: u32) -> bool {
    match g {
        HardwareListInner::Usb(l) => group_has_key(l.vendor, l.devices@, key),
        HardwareListInner::Pci(_) => false,
    }
}

/// Whether the matcher names the PCI identifier with this key.
pub open spec fn matcher_has_pci_key(m: HardwareList, key: u32) -> bool {
    match m {
        HardwareList::Each(v) => exists|j: int| 0 <= j < v@.len() && #[trigger] inner_has_pci_key(v@[j], key),
        HardwareList::Pci(l) => group_has_key(l.vendor, l.devices@, key),
        HardwareList::Usb(_) => false,
    }
}

/// Whether the matcher names the USB identifier with this key.
pub open spec fn matcher_has_usb_key(m: HardwareList, key: u32) -> bool {
    match m {
        HardwareList::Each(v) => exists|j: int| 0 <= j < v@.len() && #[trigger] inner_has_usb_key(v@[j], key),
        HardwareList::Usb(l) => group_has_key(l.vendor, l.devices@, key),
        HardwareList::Pci(_) => false,
    }
}

/// A matcher names a PCI key exactly when it mentions that identifier.
pub proof fn lemma_pci_key_mentions(m: HardwareList, p: PciId)
    ensures
        matcher_has_pci_key(m, pack_spec(p.vendor, p.device)) <==> m.mentions(HardwareId::Pci(p)),
{
    let key = pack_spec(p.vendor, p.device);
    assert forall|vendor: u16, devices: Seq<u16>|
        group_has_key(vendor, devices, key) <==> (vendor == p.vendor && devices.contains(p.device)) by {
        if group_has_key(vendor, devices, key) {
            let d = choose|d: u16| devices.contains(d) && key == #[trigger] pack_spec(vendor, d);
            lemma_pack_injective(vendor, d, p.vendor, p.device);
        }
        if vendor == p.vendor && devices.contains(p.device) {
            assert(key == pack_spec(vendor, p.device));
        }
    }
    match m {
        HardwareList::Each(v) => {
            if matcher_has_pci_key(m, key) {
                let j = choose|j: int| 0 <= j < v@.len() && #[trigger] inner_has_pci_key(v@[j], key);
                assert(v@[j].mentions(HardwareId::Pci(p)));
            }
            if m.mentions(HardwareId::Pci(p)) {
                let j = choose|j: int| 0 <= j < v@.len() && #[trigger] v@[j].mentions(HardwareId::Pci(p));
                assert(inner_has_pci_key(v@[j], key));
            }
        },
        _ => {},
    }
}

/// A matcher names a USB key exactly when it mentions that identifier.
pub proof fn lemma_usb_key_mentions(m: HardwareList, u: UsbId)
    ensures
        matcher_has_usb_key(m, pack_spec(u.vendor, u.device)) <==> m.mentions(HardwareId::Usb(u)),
{
    let key = pack_spec(u.vendor, u.device);
    assert forall|vendor: u16, devices: Seq<u16>|
        group_has_key(vendor, devices, key) <==> (vendor == u.vendor && devices.contains(u.device)) by {
        if group_has_key(vendor, devices, key) {
            let d = choose|d: u16| devices.contains(d) && key == #[trigger] pack_spec(vendor, d);
            lemma_pack_injective(vendor, d, u.vendor, u.device);
        }
        if vendor == u.vendor && devices.contains(u.device) {
            assert(key == pack_spec(vendor, u.device));
        }
    }
    match m {
        HardwareList::Each(v) => {
            if matcher_has_usb_key(m, key) {
                let j = choose|j: int| 0 <= j < v@.len() && #[trigger] inner_has_usb_key(v@[j], key);
                assert(v@[j].mentions(HardwareId::Usb(u)));
            }
            if m.mentions(HardwareId::Usb(u)) {
                let j = choose|j: int| 0 <= j < v@.len() && #[trigger] v@[j].mentions(HardwareId::Usb(u));
                assert(inner_has_usb_key(v@[j], key));
            }
        },
        _ => {},
    }
}

/// Adds `id` under every PCI and USB key that the matcher names.
fn add_matcher(
    pci: &mut HashMap<u32, Vec<u64>>,
    usb: &mut HashMap<u32, Vec<u64>>,
    m: &HardwareList,
    id: u64,
)
    requires
        no_empty_entries(old(pci)@),
        no_empty_entries(old(usb)@),
    ensures
        no_empty_entries(final(pci)@),
        no_empty_entries(final(usb)@),
        forall|key: u32, x: u64|
            #[trigger] table_has(final(pci)@, key, x) <==> (table_has(old(pci)@, key, x) || (x
                == id && matcher_has_pci_key(*m, key))),
        forall|key: u32, x: u64|
            #[trigger] table_has(final(usb)@, key, x) <==> (table_has(old(usb)@, key, x) || (x
                == id && matcher_has_usb_key(*m, key))),
{
    match m {
        HardwareList::Pci(l) => add_group(pci, l.vendor, &l.devices, id),
        HardwareList::Usb(l) => add_group(usb, l.vendor, &l.devices, id),
        HardwareList::Each(v) => {
            let mut j: usize = 0;
            while j < v.len()
                invariant
                    *m == HardwareList::Each(*v),
                    j <= v.len(),
                    no_empty_entries(pci@),
                    no_empty_entries(usb@),
                    forall|key: u32, x: u64|
                        #[trigger] table_has(pci@, key, x) <==> (table_has(old(pci)@, key, x) || (x
                            == id && exists|t: int| 0 <= t < j && #[trigger] inner_has_pci_key(v@[t], key))),
                    forall|key: u32, x: u64|
                        #[trigger] table_has(usb@, key, x) <==> (table_has(old(usb)@, key, x) || (x
                            == id && exists|t: int| 0 <= t < j && #[trigger] inner_has_usb_key(v@[t], key))),
                decreases v.len() - j,
            {
                let ghost pci_before = pci@;
                let ghost usb_before = usb@;
                match &v[j] {
                    HardwareListInner::Pci(l) => add_group(pci, l.vendor, &l.devices, id),
                    HardwareListInner::Usb(l) => add_group(usb, l.vendor, &l.devices, id),
                }
                proof {
                    let g = v@[j as int];
                    assert forall|key: u32, x: u64|
                        #[trigger] table_has(pci@, key, x) <==> (table_has(old(pci)@, key, x) || (x
                            == id && exists|t: int| 0 <= t < j + 1 && #[trigger] inner_has_pci_key(v@[t], key))) by {
                        let prev_ex = exists|t: int| 0 <= t < j && #[trigger] inner_has_pci_key(v@[t], key);
                        let new_ex = exists|t: int| 0 <= t < j + 1 && #[trigger] inner_has_pci_key(v@[t], key);
                        if new_ex {
                            let t = choose|t: int| 0 <= t < j + 1 && #[trigger] inner_has_pci_key(v@[t], key);
                            if t < j {
                                assert(prev_ex);
                            } else {
                                assert(inner_has_pci_key(g, key));
                            }
                        }
                        if prev_ex {
                            let t = choose|t: int| 0 <= t < j && #[trigger] inner_has_pci_key(v@[t], key);
                            assert(0 <= t < j + 1 && inner_has_pci_key(v@[t], key));
                        }
                        if inner_has_pci_key(g, key) {
                            assert(0 <= j < j + 1 && inner_has_pci_key(v@[j as int], key));
                        }
                        assert(new_ex <==> (prev_ex || inner_has_pci_key(g, key)));
                        assert(table_has(pci@, key, x) <==> (table_has(pci_before, key, x) || (x == id
                            && inner_has_pci_key(g, key))));
                    }
                    assert forall|key: u32, x: u64|
                        #[trigger] table_has(usb@, key, x) <==> (table_has(old(usb)@, key, x) || (x
                            == id && exists|t: int| 0 <= t < j + 1 && #[trigger] inner_has_usb_key(v@[t], key))) by {
                        let prev_ex = exists|t: int| 0 <= t < j && #[trigger] inner_has_usb_key(v@[t], key);
                        let new_ex = exists|t: int| 0 <= t < j + 1 && #[trigger] inner_has_usb_key(v@[t], key);
                        if new_ex {
                            let t = choose|t: int| 0 <= t < j + 1 && #[trigger] inner_has_usb_key(v@[t], key);
                            if t < j {
                                assert(prev_ex);
                            } else {
                                assert(inner_has_usb_key(g, key));
                            }
                        }
                        if prev_ex {
                            let t = choose|t: int| 0 <= t < j && #[trigger] inner_has_usb_key(v@[t], key);
                            assert(0 <= t < j + 1 && inner_has_usb_key(v@[t], key));
                        }
                        if inner_has_usb_key(g, key) {
                            assert(0 <= j < j + 1 && inner_has_usb_key(v@[j as int], key));
                        }
                        assert(new_ex <==> (prev_ex || inner_has_usb_key(g, key)));
                        assert(table_has(usb@, key, x) <==> (table_has(usb_before, key, x) || (x == id
                            && inner_has_usb_key(g, key))));
                    }
                }
                j = j + 1;
            }
        },
    }
}

/// Lists of ids keyed by hardware kind.
#[derive(Clone, Debug)]
pub struct KindIds {
    pub graphics: Vec<u64>,
    pub ethernet: Vec<u64>,
    pub wireless: Vec<u64>,
    pub audio: Vec<u64>,
}

impl KindIds {
    /// The ids listed under kind `k`.
    pub open spec fn at(&self, k: HardwareKind) -> Seq<u64> {
        match k {
            HardwareKind::Graphics => self.graphics@,
            HardwareKind::Ethernet => self.ethernet@,
            HardwareKind::Wireless => self.wireless@,
            HardwareKind::Audio => self.audio@,
        }
    }

    /// A table with no id under any kind.
    pub fn new() -> (r: Self)
        ensures
            forall|k: HardwareKind| #[trigger] r.at(k) == Seq::<u64>::empty(),
    {
        KindIds { graphics: Vec::new(), ethernet: Vec::new(), wireless: Vec::new(), audio: Vec::new() }
    }

    /// The ids listed under `kind`.
    pub fn ids(&self, kind: HardwareKind) -> (r: &Vec<u64>)
        ensures
            r@ == self.at(kind),
    {
        match kind {
            HardwareKind::Graphics => &self.graphics,
            HardwareKind::Ethernet => &self.ethernet,
            HardwareKind::Wireless => &self.wireless,
            HardwareKind::Audio => &self.audio,
        }
    }

    /// Appends `id` under `kind`.
    pub fn push(&mut self, kind: HardwareKind, id: u64)
        ensures
            forall|k: HardwareKind|
                #[trigger] final(self).at(k) == if k == kind {
                    old(self).at(k).push(id)
                } else {
                    old(self).at(k)
                },
    {
        match kind {
            HardwareKind::Graphics => self.graphics.push(id),
            HardwareKind::Ethernet => self.ethernet.push(id),
            HardwareKind::Wireless => self.wireless.push(id),
            HardwareKind::Audio => self.audio.push(id),
        }
    }
}

/// Whether `slot` locates option number `t` (counting from 0) of the catalog:
/// the setup position and the position of the option within that setup.
pub open spec fn locates(c: Seq<HardwareSetup>, t: int, slot: (usize, usize)) -> bool {
    &&& 0 <= slot.0 < c.len()
    &&& 0 <= slot.1 < c[slot.0 as int].driver_options@.len()
    &&& options_before(c, slot.0 as int) + slot.1 == t
}

/// Whether the PCI table indexes exactly the setups of `c` whose matcher
/// names each key, with no key left without a setup.
pub open spec fn pci_table_of(m: Map<u32, Vec<u64>>, c: Seq<HardwareSetup>) -> bool {
    &&& no_empty_entries(m)
    &&& forall|key: u32, x: u64|
        #[trigger] table_has(m, key, x) <==> (1 <= x <= c.len() && matcher_has_pci_key(
            c[x - 1].hardware_list,
            key,
        ))
}

/// Whether the USB table indexes exactly the setups of `c` whose matcher
/// names each key.
pub open spec fn usb_table_of(m: Map<u32, Vec<u64>>, c: Seq<HardwareSetup>) -> bool {
    &&& no_empty_entries(m)
    &&& forall|key: u32, x: u64|
        #[trigger] table_has(m, key, x) <==> (1 <= x <= c.len() && matcher_has_usb_key(
            c[x - 1].hardware_list,
            key,
        ))
}

/// The driver database: six lookup tables over one catalog.
///
/// Setup ids count from 1 in catalog order, and option ids count from 1
/// across all setups in catalog order. The setup with id `s` is held at
/// position `s - 1` of `setup_id_to_setup`; the option with id `o` is located
/// by entry `o - 1` of `option_id_to_option` (setup position, option position).
pub struct DriverIndex {
    pub kind_to_setup_ids: KindIds,
    pub pci_id_to_setup_ids: HashMap<u32, Vec<u64>>,
    pub usb_id_to_setup_ids: HashMap<u32, Vec<u64>>,
    pub setup_id_to_setup: Vec<HardwareSetup>,
    pub kind_to_option_ids: KindIds,
    pub setup_id_to_option_ids: Vec<Vec<u64>>,
    pub option_id_to_option: Vec<(usize, usize)>,
}

impl DriverIndex {
    /// The catalog whose records the database holds, in id order.
    pub open spec fn catalog(&self) -> Seq<HardwareSetup> {
        self.setup_id_to_setup@
    }

    /// Whether every table holds exactly what one generation run over
    /// `catalog()` writes.
    pub open spec fn wf(&self) -> bool {
        let c = self.catalog();
        &&& forall|k: HardwareKind| #[trigger] self.kind_to_setup_ids.at(k) == setups_of_kind(c, k, c.len() as int)
        &&& forall|k: HardwareKind| #[trigger] self.kind_to_option_ids.at(k) == options_of_kind(c, k, c.len() as int)
        &&& pci_table_of(self.pci_id_to_setup_ids@, c)
        &&& usb_table_of(self.usb_id_to_setup_ids@, c)
        &&& self.setup_id_to_option_ids@.len() == c.len()
        &&& forall|i: int| 0 <= i < c.len() ==> (#[trigger] self.setup_id_to_option_ids@[i])@ == option_ids_of(c, i)
        &&& self.option_id_to_option@.len() == total_options(c)
        &&& forall|t: int| 0 <= t < total_options(c) ==> locates(c, t, #[trigger] self.option_id_to_option@[t])
        &&& total_options(c) < usize::MAX
        &&& c.len() <= usize::MAX
    }
}

impl DriverIndex {
    /// The option record that the id `id` stands for.
    pub open spec fn option_at(&self, id: u64) -> DriverOption {
        let slot = self.option_id_to_option@[id - 1];
        self.catalog()[slot.0 as int].driver_options@[slot.1 as int]
    }

    /// Whether `id` is the id of an option of the database.
    pub open spec fn has_option(&self, id: u64) -> bool {
        1 <= id <= total_options(self.catalog())
    }

    /// Looks an option record up by its id.
    pub fn option(&self, option_id: u64) -> (r: Option<&DriverOption>)
        requires
            self.wf(),
        ensures
            r is Some <==> self.has_option(option_id),
            r matches Some(o) ==> *o == self.option_at(option_id),
    {
        let n = self.option_id_to_option.len();
        if option_id == 0 || option_id > n as u64 {
            return None;
        }
        let slot = self.option_id_to_option[(option_id - 1) as usize];
        assert(locates(self.catalog(), option_id - 1, slot));
        Some(&self.setup_id_to_setup[slot.0].driver_options[slot.1])
    }

    /// Looks a setup record up by its id.
    pub fn setup(&self, setup_id: u64) -> (r: Option<&HardwareSetup>)
        ensures
            r is Some <==> 1 <= setup_id <= self.catalog().len(),
            r matches Some(s) ==> *s == self.catalog()[setup_id - 1],
    {
        let n = self.setup_id_to_setup.len();
        if setup_id == 0 || setup_id > n as u64 {
            return None;
        }
        Some(&self.setup_id_to_setup[(setup_id - 1) as usize])
    }
}

/// Counting options is monotone in the number of setups counted.
pub proof fn lemma_options_before_mono(c: Seq<HardwareSetup>, i: int, j: int)
    requires
        0 <= i <= j <= c.len(),
    ensures
        options_before(c, i) <= options_before(c, j),
    decreases j - i,
{
    if i < j {
        lemma_options_before_mono(c, i, j - 1);
    }
}

/// Option counts are never negative.
pub proof fn lemma_options_before_nonneg(c: Seq<HardwareSetup>, i: int)
    ensures
        options_before(c, i) >= 0,
    decreases i,
{
    if i > 0 {
        lemma_options_before_nonneg(c, i - 1);
    }
}

/// The surrogate ids of one generation run are pairwise distinct and follow
/// input order: a later setup has a larger id, an option later in the catalog
/// has a larger id, and there is one option id for each option.
pub proof fn lemma_ids_distinct(index: DriverIndex, i1: int, k1: int, i2: int, k2: int)
    requires
        index.wf(),
        0 <= i1 < index.catalog().len(),
        0 <= i2 < index.catalog().len(),
    ensures
        i1 != i2 ==> setup_id(i1) != setup_id(i2),
        i1 < i2 ==> setup_id(i1) < setup_id(i2),
        index.option_id_to_option@.len() == total_options(index.catalog()),
        (0 <= k1 < index.catalog()[i1].driver_options@.len() && 0 <= k2
            < index.catalog()[i2].driver_options@.len() && (i1 < i2 || (i1 == i2 && k1 < k2)))
            ==> option_id(index.catalog(), i1, k1) < option_id(index.catalog(), i2, k2),
        (0 <= k1 < index.catalog()[i1].driver_options@.len() && 0 <= k2
            < index.catalog()[i2].driver_options@.len() && (i1 != i2 || k1 != k2)) ==> option_id(
            index.catalog(),
            i1,
            k1,
        ) != option_id(index.catalog(), i2, k2),
{
    let c = index.catalog();
    if 0 <= k1 < c[i1].driver_options@.len() && 0 <= k2 < c[i2].driver_options@.len() && (i1 != i2
        || k1 != k2) {
        lemma_option_positions_distinct(c, i1, k1, i2, k2);
        lemma_options_before_mono(c, i1 + 1, c.len() as int);
        lemma_options_before_mono(c, i2 + 1, c.len() as int);
        lemma_options_before_nonneg(c, i1);
        lemma_options_before_nonneg(c, i2);
    }
}

/// Distinct option positions have distinct running numbers.
pub proof fn lemma_option_positions_distinct(c: Seq<HardwareSetup>, i1: int, k1: int, i2: int, k2: int)
    requires
        0 <= i1 < c.len(),
        0 <= i2 < c.len(),
        0 <= k1 < c[i1].driver_options@.len(),
        0 <= k2 < c[i2].driver_options@.len(),
        i1 != i2 || k1 != k2,
    ensures
        options_before(c, i1) + k1 != options_before(c, i2) + k2,
        (i1 < i2 || (i1 == i2 && k1 < k2)) ==> options_before(c, i1) + k1 < options_before(c, i2) + k2,
{
    if i1 < i2 {
        lemma_options_before_mono(c, i1 + 1, i2);
    } else if i2 < i1 {
        lemma_options_before_mono(c, i2 + 1, i1);
    }
}

/// Generation is reproducible: two databases generated from the same catalog
/// in the same order hold the same ids in every table.
pub proof fn lemma_generation_reproducible(a: DriverIndex, b: DriverIndex)
    requires
        a.wf(),
        b.wf(),
        a.catalog() == b.catalog(),
    ensures
        forall|k: HardwareKind| #[trigger] a.kind_to_setup_ids.at(k) == b.kind_to_setup_ids.at(k),
        forall|k: HardwareKind| #[trigger] a.kind_to_option_ids.at(k) == b.kind_to_option_ids.at(k),
        forall|key: u32, x: u64|
            #[trigger] table_has(a.pci_id_to_setup_ids@, key, x) == table_has(b.pci_id_to_setup_ids@, key, x),
        forall|key: u32, x: u64|
            #[trigger] table_has(a.usb_id_to_setup_ids@, key, x) == table_has(b.usb_id_to_setup_ids@, key, x),
        a.setup_id_to_option_ids@.len() == b.setup_id_to_option_ids@.len(),
        forall|i: int|
            0 <= i < a.setup_id_to_option_ids@.len() ==> (#[trigger] a.setup_id_to_option_ids@[i])@
                == b.setup_id_to_option_ids@[i]@,
        a.option_id_to_option@ == b.option_id_to_option@,
{
    let c = a.catalog();
    assert forall|t: int| 0 <= t < a.option_id_to_option@.len() implies a.option_id_to_option@[t]
        == b.option_id_to_option@[t] by {
        let sa = a.option_id_to_option@[t];
        let sb = b.option_id_to_option@[t];
        assert(locates(c, t, sa));
        assert(locates(c, t, sb));
        if sa != sb {
            lemma_option_positions_distinct(c, sa.0 as int, sa.1 as int, sb.0 as int, sb.1 as int);
        }
    }
    assert(a.option_id_to_option@ =~= b.option_id_to_option@);
}

/// Builds the driver database for a catalog, assigning setup ids and option
/// ids in input order.
pub fn generate_database_inner(hardware_setups: Vec<HardwareSetup>) -> (r: DriverIndex)
    requires
        total_options(hardware_setups@) < usize::MAX,
    ensures
        r.wf(),
        r.catalog() == hardware_setups@,
{
    let ghost c = hardware_setups@;
    let mut kind_to_setup_ids = KindIds::new();
    let mut kind_to_option_ids = KindIds::new();
    let mut pci: HashMap<u32, Vec<u64>> = HashMap::new();
    let mut usb: HashMap<u32, Vec<u64>> = HashMap::new();
    let mut setup_id_to_option_ids: Vec<Vec<u64>> = Vec::new();
    let mut option_id_to_option: Vec<(usize, usize)> = Vec::new();
    let mut i: usize = 0;
    while i < hardware_setups.len()
        invariant
            c == hardware_setups@,
            0 <= i <= c.len(),
            total_options(c) < usize::MAX,
            forall|k: HardwareKind| #[trigger] kind_to_setup_ids.at(k) == setups_of_kind(c, k, i as int),
            forall|k: HardwareKind| #[trigger] kind_to_option_ids.at(k) == options_of_kind(c, k, i as int),
            no_empty_entries(pci@),
            no_empty_entries(usb@),
            forall|key: u32, x: u64|
                #[trigger] table_has(pci@, key, x) <==> (1 <= x <= i && matcher_has_pci_key(
                    c[x - 1].hardware_list,
                    key,
                )),
            forall|key: u32, x: u64|
                #[trigger] table_has(usb@, key, x) <==> (1 <= x <= i && matcher_has_usb_key(
                    c[x - 1].hardware_list,
                    key,
                )),
            setup_id_to_option_ids@.len() == i,
            forall|s: int| 0 <= s < i ==> (#[trigger] setup_id_to_option_ids@[s])@ == option_ids_of(c, s),
            option_id_to_option@.len() == options_before(c, i as int),
            forall|t: int| 0 <= t < options_before(c, i as int) ==> locates(c, t, #[trigger] option_id_to_option@[t]),
        decreases c.len() - i,
    {
        let setup = &hardware_setups[i];
        let kind = setup.hardware_kind;
        let sid = (i + 1) as u64;
        kind_to_setup_ids.push(kind, sid);
        let ghost pci_before = pci@;
        let ghost usb_before = usb@;
        add_matcher(&mut pci, &mut usb, &setup.hardware_list, sid);
        proof {
            assert forall|key: u32, x: u64|
                #[trigger] table_has(pci@, key, x) <==> (1 <= x <= i + 1 && matcher_has_pci_key(
                    c[x - 1].hardware_list,
                    key,
                )) by {
                assert(table_has(pci_before, key, x) <==> (1 <= x <= i && matcher_has_pci_key(
                    c[x - 1].hardware_list,
                    key,
                )));
            }
            assert forall|key: u32, x: u64|
                #[trigger] table_has(usb@, key, x) <==> (1 <= x <= i + 1 && matcher_has_usb_key(
                    c[x - 1].hardware_list,
                    key,
                )) by {
                assert(table_has(usb_before, key, x) <==> (1 <= x <= i && matcher_has_usb_key(
                    c[x - 1].hardware_list,
                    key,
                )));
            }
            lemma_options_before_mono(c, i as int + 1, c.len() as int);
        }
        let mut option_ids: Vec<u64> = Vec::new();
        let n = setup.driver_options.len();
        let mut k: usize = 0;
        while k < n
            invariant
                c == hardware_setups@,
                0 <= i < c.len(),
                *setup == c[i as int],
                kind == c[i as int].hardware_kind,
                n == c[i as int].driver_options@.len(),
                0 <= k <= n,
                options_before(c, i as int + 1) <= total_options(c),
                total_options(c) < usize::MAX,
                option_ids@ == option_ids_of(c, i as int).take(k as int),
                forall|kk: HardwareKind|
                    #[trigger] kind_to_option_ids.at(kk) == if kk == kind {
                        options_of_kind(c, kk, i as int) + option_ids_of(c, i as int).take(k as int)
                    } else {
                        options_of_kind(c, kk, i as int)
                    },
                option_id_to_option@.len() == options_before(c, i as int) + k,
                forall|t: int| 0 <= t < options_before(c, i as int) + k ==> locates(c, t, #[trigger] option_id_to_option@[t]),
            decreases n - k,
        {
            let oid = (option_id_to_option.len() + 1) as u64;
            assert(oid == option_id(c, i as int, k as int));
            option_ids.push(oid);
            kind_to_option_ids.push(kind, oid);
            option_id_to_option.push((i, k));
            proof {
                assert(option_ids_of(c, i as int).take(k as int + 1) == option_ids_of(c, i as int).take(k as int).push(oid));
                assert forall|kk: HardwareKind|
                    #[trigger] kind_to_option_ids.at(kk) == if kk == kind {
                        options_of_kind(c, kk, i as int) + option_ids_of(c, i as int).take(k as int + 1)
                    } else {
                        options_of_kind(c, kk, i as int)
                    } by {
                    if kk == kind {
                        assert(options_of_kind(c, kk, i as int) + option_ids_of(c, i as int).take(k as int + 1)
                            == (options_of_kind(c, kk, i as int) + option_ids_of(c, i as int).take(k as int)).push(oid));
                    }
                }
                assert(locates(c, options_before(c, i as int) + k, option_id_to_option@[options_before(c, i as int) + k]));
            }
            k = k + 1;
        }
        proof {
            assert(option_ids_of(c, i as int).take(n as int) == option_ids_of(c, i as int));
            assert forall|kk: HardwareKind| #[trigger] kind_to_option_ids.at(kk) == options_of_kind(c, kk, i as int + 1) by {
            }
        }
        setup_id_to_option_ids.push(option_ids);
        i = i + 1;
    }
    DriverIndex {
        kind_to_setup_ids,
        pci_id_to_setup_ids: pci,
        usb_id_to_setup_ids: usb,
        setup_id_to_setup: hardware_setups,
        kind_to_option_ids,
        setup_id_to_option_ids,
        option_id_to_option,
    }
}

} // verus!
