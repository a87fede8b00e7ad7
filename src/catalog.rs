//! Catalog records: hardware setups, their identifier matchers and their
//! candidate driver options, with the matching and tag-filter rules.

use vstd::prelude::*;
use std::collections::HashMap;
use crate::hardware::{HardwareId, HardwareKind, PciId, UsbId};

verus! {

/// The character sequences of a sequence of strings.
pub open spec fn views(v: Seq<String>) -> Seq<Seq<char>> {
    v.map_values(|s: String| s@)
}

/// Language of an install script.
#[derive(Clone, Copy, Debug, PartialEq, Eq, Structural, PartialOrd, Ord, Hash)]
pub enum ScriptKind {
    Python,
    JavaScript,
    Shell,
}

impl Default for ScriptKind {
    fn default() -> (r: Self)
        ensures
            r == ScriptKind::Shell,
    {
        ScriptKind::Shell
    }
}

/// A script run before or after installing a driver option.
#[derive(Clone, Debug)]
pub struct Script {
    pub path: String,
    pub language: ScriptKind,
}

/// One group of PCI identifiers: a vendor and the device codes that qualify.
#[derive(Clone, Debug)]
pub struct PciIdList {
    pub vendor: u16,
    /// Read as a set: matching only asks whether a code occurs, so a repeated
    /// code changes no result.
    pub devices: Vec<u16>,
}

/// One group of USB identifiers: a vendor and the device codes that qualify.
#[derive(Clone, Debug)]
pub struct UsbIdList {
    pub vendor: u16,
    /// Read as a set, as for `PciIdList`.
    pub devices: Vec<u16>,
}

/// Whether `id` is among the present identifiers.
pub open spec fn is_present(present: Seq<HardwareId>, id: HardwareId) -> bool {
    present.contains(id)
}

/// Whether `id` occurs in `present`.
pub fn contains_id(present: &Vec<HardwareId>, id: HardwareId) -> (r: bool)
    ensures
        r == is_present(present@, id),
{
    let mut i: usize = 0;
    while i < present.len()
        invariant
            i <= present.len(),
            forall|j: int| 0 <= j < i ==> present@[j] != id,
        decreases present.len() - i,
    {
        if present[i] == id {
            return true;
        }
        i = i + 1;
    }
    false
}

impl PciIdList {
    /// Whether the group names this identifier.
    pub open spec fn mentions(&self, id: HardwareId) -> bool {
        match id {
            HardwareId::Pci(p) => p.vendor == self.vendor && self.devices@.contains(p.device),
            HardwareId::Usb(_) => false,
        }
    }

    /// Whether some device of the group is present.
    pub open spec fn matches(&self, present: Seq<HardwareId>) -> bool {
        exists|d: u16|
            self.devices@.contains(d) && #[trigger] is_present(
                present,
                HardwareId::Pci(PciId { vendor: self.vendor, device: d }),
            )
    }

    /// Whether any device of the group is among `hardware_ids`.
    pub fn matches_with_hardware_ids(&self, hardware_ids: &Vec<HardwareId>) -> (r: bool)
        ensures
            r == self.matches(hardware_ids@),
    {
        let mut i: usize = 0;
        while i < self.devices.len()
            invariant
                i <= self.devices.len(),
                forall|j: int|
                    0 <= j < i ==> !is_present(
                        hardware_ids@,
                        HardwareId::Pci(PciId { vendor: self.vendor, device: self.devices@[j] }),
                    ),
            decreases self.devices.len() - i,
        {
            let id = HardwareId::Pci(PciId { vendor: self.vendor, device: self.devices[i] });
            if contains_id(hardware_ids, id) {
                return true;
            }
            i = i + 1;
        }
        false
    }
}

impl UsbIdList {
    /// Whether the group names this identifier.
    pub open spec fn mentions(&self, id: HardwareId) -> bool {
        match id {
            HardwareId::Usb(u) => u.vendor == self.vendor && self.devices@.contains(u.device),
            HardwareId::Pci(_) => false,
        }
    }

    /// Whether some device of the group is present.
    pub open spec fn matches(&self, present: Seq<HardwareId>) -> bool {
        exists|d: u16|
            self.devices@.contains(d) && #[trigger] is_present(
                present,
                HardwareId::Usb(UsbId { vendor: self.vendor, device: d }),
            )
    }

    /// Whether any device of the group is among `hardware_ids`.
    pub fn matches_with_hardware_ids(&self, hardware_ids: &Vec<HardwareId>) -> (r: bool)
        ensures
            r == self.matches(hardware_ids@),
    {
        let mut i: usize = 0;
        while i < self.devices.len()
            invariant
                i <= self.devices.len(),
                forall|j: int|
                    0 <= j < i ==> !is_present(
                        hardware_ids@,
                        HardwareId::Usb(UsbId { vendor: self.vendor, device: self.devices@[j] }),
                    ),
            decreases self.devices.len() - i,
        {
            let id = HardwareId::Usb(UsbId { vendor: self.vendor, device: self.devices[i] });
            if contains_id(hardware_ids, id) {
                return true;
            }
            i = i + 1;
        }
        false
    }
}

/// One side of an `Each` matcher: a PCI or a USB group.
#[derive(Clone, Debug)]
pub enum HardwareListInner {
    Pci(PciIdList),
    Usb(UsbIdList),
}

impl HardwareListInner {
    pub open spec fn mentions(&self, id: HardwareId) -> bool {
        match self {
            HardwareListInner::Pci(l) => l.mentions(id),
            HardwareListInner::Usb(l) => l.mentions(id),
        }
    }

    pub open spec fn matches(&self, present: Seq<HardwareId>) -> bool {
        match self {
            HardwareListInner::Pci(l) => l.matches(present),
            HardwareListInner::Usb(l) => l.matches(present),
        }
    }

    /// Whether some device of this group is among `hardware_ids`.
    pub fn matches_with_hardware_ids(&self, hardware_ids: &Vec<HardwareId>) -> (r: bool)
        ensures
            r == self.matches(hardware_ids@),
    {
        match self {
            HardwareListInner::Pci(l) => l.matches_with_hardware_ids(hardware_ids),
            HardwareListInner::Usb(l) => l.matches_with_hardware_ids(hardware_ids),
        }
    }
}

/// Whether every group of `v` has a present device.
pub open spec fn all_groups_match(v: Seq<HardwareListInner>, present: Seq<HardwareId>) -> bool {
    forall|i: int| 0 <= i < v.len() ==> #[trigger] v[i].matches(present)
}

/// Whether some group of `v` names `id`.
pub open spec fn some_group_mentions(v: Seq<HardwareListInner>, id: HardwareId) -> bool {
    exists|i: int| 0 <= i < v.len() && #[trigger] v[i].mentions(id)
}

/// The identifier matcher of a hardware setup.
///
/// `Pci` and `Usb` match when any listed device is present; `Each` matches
/// when every inner group independently has a present device.
#[derive(Clone, Debug)]
pub enum HardwareList {
    /// Read as a set: every group must match, so a repeated group changes no
    /// result.
    Each(Vec<HardwareListInner>),
    Pci(PciIdList),
    Usb(UsbIdList),
}

impl HardwareList {
    /// Whether the matcher names this identifier anywhere.
    pub open spec fn mentions(&self, id: HardwareId) -> bool {
        match self {
            HardwareList::Each(v) => some_group_mentions(v@, id),
            HardwareList::Pci(l) => l.mentions(id),
            HardwareList::Usb(l) => l.mentions(id),
        }
    }

    /// Whether the matcher accepts the set of present identifiers.
    pub open spec fn matches(&self, present: Seq<HardwareId>) -> bool {
        match self {
            HardwareList::Each(v) => all_groups_match(v@, present),
            HardwareList::Pci(l) => l.matches(present),
            HardwareList::Usb(l) => l.matches(present),
        }
    }

    /// The matcher that demands nothing: an `Each` with no inner group.
    pub open spec fn is_unconditional(&self) -> bool {
        match self {
            HardwareList::Each(v) => v.len() == 0,
            _ => false,
        }
    }

    /// Whether the matcher demands no identifier at all.
    pub fn demands_nothing(&self) -> (r: bool)
        ensures
            r == self.is_unconditional(),
    {
        match self {
            HardwareList::Each(v) => v.len() == 0,
            _ => false,
        }
    }

    /// Whether the identifiers in `hardware_ids` satisfy the matcher.
    pub fn matches_with_hardware_ids(&self, hardware_ids: &Vec<HardwareId>) -> (r: bool)
        ensures
            r == self.matches(hardware_ids@),
    {
        match self {
            HardwareList::Each(v) => {
                let mut i: usize = 0;
                while i < v.len()
                    invariant
                        *self == HardwareList::Each(*v),
                        i <= v.len(),
                        forall|j: int| 0 <= j < i ==> #[trigger] v@[j].matches(hardware_ids@),
                    decreases v.len() - i,
                {
                    if !v[i].matches_with_hardware_ids(hardware_ids) {
                        assert(!v@[i as int].matches(hardware_ids@));
                        return false;
                    }
                    i = i + 1;
                }
                true
            },
            HardwareList::Pci(l) => l.matches_with_hardware_ids(hardware_ids),
            HardwareList::Usb(l) => l.matches_with_hardware_ids(hardware_ids),
        }
    }

    /// A matcher that accepts some set of identifiers names one of them,
    /// unless it demands nothing at all.
    pub proof fn lemma_match_implicates(&self, present: Seq<HardwareId>)
        requires
            self.matches(present),
            !self.is_unconditional(),
        ensures
            exists|id: HardwareId| #[trigger] is_present(present, id) && self.mentions(id),
    {
        match self {
            HardwareList::Each(v) => {
                assert(v@[0].matches(present));
                match v@[0] {
                    HardwareListInner::Pci(l) => {
                        let d = choose|d: u16|
                            l.devices@.contains(d) && #[trigger] is_present(
                                present,
                                HardwareId::Pci(PciId { vendor: l.vendor, device: d }),
                            );
                        let id = HardwareId::Pci(PciId { vendor: l.vendor, device: d });
                        assert(v@[0].mentions(id));
                        assert(is_present(present, id) && self.mentions(id));
                    },
                    HardwareListInner::Usb(l) => {
                        let d = choose|d: u16|
                            l.devices@.contains(d) && #[trigger] is_present(
                                present,
                                HardwareId::Usb(UsbId { vendor: l.vendor, device: d }),
                            );
                        let id = HardwareId::Usb(UsbId { vendor: l.vendor, device: d });
                        assert(v@[0].mentions(id));
                        assert(is_present(present, id) && self.mentions(id));
                    },
                }
            },
            HardwareList::Pci(l) => {
                let d = choose|d: u16|
                    l.devices@.contains(d) && #[trigger] is_present(
                        present,
                        HardwareId::Pci(PciId { vendor: l.vendor, device: d }),
                    );
                let id = HardwareId::Pci(PciId { vendor: l.vendor, device: d });
                assert(is_present(present, id) && self.mentions(id));
            },
            HardwareList::Usb(l) => {
                let d = choose|d: u16|
                    l.devices@.contains(d) && #[trigger] is_present(
                        present,
                        HardwareId::Usb(UsbId { vendor: l.vendor, device: d }),
                    );
                let id = HardwareId::Usb(UsbId { vendor: l.vendor, device: d });
                assert(is_present(present, id) && self.mentions(id));
            },
        }
    }

    /// With no identifier present, exactly the unconditional matcher accepts.
    pub proof fn lemma_matches_nothing_present(&self)
        ensures
            self.matches(Seq::empty()) <==> self.is_unconditional(),
    {
        if self.matches(Seq::empty()) && !self.is_unconditional() {
            self.lemma_match_implicates(Seq::empty());
        }
    }
}

/// One candidate driver for a hardware setup.
#[derive(Clone, Debug)]
pub struct DriverOption {
    /// Lower values take precedence.
    pub order_of_priority: u32,
    pub name: String,
    pub description: String,
    /// Read as a set: the tag filter only asks whether a tag occurs, so a
    /// repeated tag changes no result.
    pub tags: Vec<String>,
    pub pre_install: Option<Script>,
    pub packages: Vec<String>,
    pub post_install: Option<Script>,
}

impl DriverOption {
    /// Whether the option carries the tag `t`.
    pub open spec fn has_tag(&self, t: Seq<char>) -> bool {
        views(self.tags@).contains(t)
    }

    /// Whether every tag of the filter is among the option's tags.
    pub open spec fn passes(&self, filter: Seq<Seq<char>>) -> bool {
        forall|i: int| 0 <= i < filter.len() ==> #[trigger] self.has_tag(filter[i])
    }

    /// Whether the option carries `tag`.
    pub fn has_tag_exec(&self, tag: &String) -> (r: bool)
        ensures
            r == self.has_tag(tag@),
    {
        let mut i: usize = 0;
        while i < self.tags.len()
            invariant
                i <= self.tags.len(),
                forall|j: int| 0 <= j < i ==> self.tags@[j]@ != tag@,
            decreases self.tags.len() - i,
        {
            if self.tags[i] == *tag {
                assert(views(self.tags@)[i as int] == tag@);
                return true;
            }
            i = i + 1;
        }
        assert(!views(self.tags@).contains(tag@)) by {
            if views(self.tags@).contains(tag@) {
                let j = choose|j: int| 0 <= j < views(self.tags@).len() && views(self.tags@)[j] == tag@;
                assert(self.tags@[j]@ == tag@);
            }
        }
        false
    }

    /// Whether the option's tags are a superset of `filter_tags`.
    pub fn has_all_tags(&self, filter_tags: &Vec<String>) -> (r: bool)
        ensures
            r == self.passes(views(filter_tags@)),
    {
        let mut i: usize = 0;
        while i < filter_tags.len()
            invariant
                i <= filter_tags.len(),
                forall|j: int| 0 <= j < i ==> #[trigger] self.has_tag(views(filter_tags@)[j]),
            decreases filter_tags.len() - i,
        {
            if !self.has_tag_exec(&filter_tags[i]) {
                assert(!self.has_tag(views(filter_tags@)[i as int]));
                return false;
            }
            i = i + 1;
        }
        true
    }
}

/// One catalog entry: a category, an identifier matcher and its candidate
/// driver options.
#[derive(Clone, Debug)]
pub struct HardwareSetup {
    pub name: String,
    pub description: String,
    pub hardware_kind: HardwareKind,
    pub hardware_list: HardwareList,
    /// In catalog order, which fixes the option ids. Each entry is its own
    /// option with its own id, so two equal records would be reported as two
    /// options; a catalog read from its file holds each record once, as the
    /// file format keeps the options of a setup in a set.
    pub driver_options: Vec<DriverOption>,
}

/// Whether the setup passes the kind filter and its matcher accepts `present`.
pub open spec fn setup_applies(
    s: HardwareSetup,
    present: Seq<HardwareId>,
    kind: Option<HardwareKind>,
) -> bool {
    (kind matches Some(k) ==> s.hardware_kind == k) && s.hardware_list.matches(present)
}

/// Positions, in order, among the first `n` options of `s` of those that
/// carry every tag of `filter`.
pub open spec fn kept_positions(s: HardwareSetup, filter: Seq<Seq<char>>, n: int) -> Seq<usize>
    decreases n,
{
    if n <= 0 {
        Seq::empty()
    } else {
        let prev = kept_positions(s, filter, n - 1);
        if s.driver_options@[n - 1].passes(filter) {
            prev.push((n - 1) as usize)
        } else {
            prev
        }
    }
}

impl HardwareSetup {
    /// The options of this setup that apply: `None` when the kind filter
    /// excludes the setup or its matcher rejects `hardware_ids`, else the
    /// positions of the options whose tags cover `tags`.
    pub fn matching_driver_options(
        &self,
        hardware_ids: &Vec<HardwareId>,
        optional_hardware: &Option<HardwareKind>,
        tags: &Vec<String>,
    ) -> (r: Option<Vec<usize>>)
        ensures
            match r {
                None => !setup_applies(*self, hardware_ids@, *optional_hardware),
                Some(v) => setup_applies(*self, hardware_ids@, *optional_hardware) && v@
                    == kept_positions(*self, views(tags@), self.driver_options@.len() as int),
            },
    {
        if let Some(hardware_kind) = optional_hardware {
            if self.hardware_kind != *hardware_kind {
                return None;
            }
        }
        if !self.hardware_list.matches_with_hardware_ids(hardware_ids) {
            return None;
        }
        let mut kept: Vec<usize> = Vec::new();
        let mut i: usize = 0;
        while i < self.driver_options.len()
            invariant
                i <= self.driver_options.len(),
                kept@ == kept_positions(*self, views(tags@), i as int),
            decreases self.driver_options.len() - i,
        {
            if self.driver_options[i].has_all_tags(tags) {
                kept.push(i);
            }
            i = i + 1;
        }
        Some(kept)
    }
}

/// The file format of a configuration that a driver option writes.
#[derive(Clone, Copy, Debug, PartialEq, Eq, Structural)]
pub enum ConfigFormat {
    Ini,
    Json,
    Yaml,
    Toml,
    Xml,
}

impl Default for ConfigFormat {
    fn default() -> (r: Self)
        ensures
            r == ConfigFormat::Ini,
    {
        ConfigFormat::Ini
    }
}

/// A configuration that a driver option writes: its format, its file and its
/// entries.
#[derive(Clone, Debug)]
pub struct ConfigRecord {
    pub format: ConfigFormat,
    pub path: Option<String>,
    pub entries: HashMap<String, String>,
}

} // verus!
