//! The decisions behind the list and install actions: which driver packages a
//! query selects, which of them are installed, and what an install changes.

use vstd::prelude::*;
use crate::hardware::{HardwareId, HardwareKind};
use crate::catalog::{views, DriverOption};
use crate::preference::{lemma_option_precedes_order, option_precedes, path_order_is_weak, precedes};
use crate::index::{option_ids_of, options_of_kind, DriverIndex};
use crate::resolver::{entries_of, lemma_kept_positions_bound, resolve_spec, resolved, ResolvedOption};
use crate::catalog::kept_positions;
use crate::error::Error;

verus! {

/// A package installed on the system, with its version.
#[derive(Clone, Debug, Default)]
pub struct InstalledPackage {
    pub name: String,
    pub version: String,
}

/// The driver packages of one hardware kind.
#[derive(Clone, Debug)]
pub struct KindPackages {
    pub hardware_kind: HardwareKind,
    pub packages: Vec<String>,
}

/// The installed driver packages of one hardware kind.
#[derive(Clone, Debug)]
pub struct KindInstalledPackages {
    pub hardware_kind: HardwareKind,
    pub packages: Vec<InstalledPackage>,
}

/// The kinds a query covers: the one asked for, or all four in order.
pub open spec fn selected_kinds(optional_hardware: Option<HardwareKind>) -> Seq<HardwareKind> {
    match optional_hardware {
        Some(k) => seq![k],
        None => seq![
            HardwareKind::Graphics,
            HardwareKind::Ethernet,
            HardwareKind::Wireless,
            HardwareKind::Audio,
        ],
    }
}

/// The kinds a query covers.
pub fn kinds_of(optional_hardware: Option<HardwareKind>) -> (r: Vec<HardwareKind>)
    ensures
        r@ == selected_kinds(optional_hardware),
{
    match optional_hardware {
        Some(k) => vec![k],
        None => vec![
            HardwareKind::Graphics,
            HardwareKind::Ethernet,
            HardwareKind::Wireless,
            HardwareKind::Audio,
        ],
    }
}

/// The packages, in order, of the options among the first `n` of `ids`
/// whose tags cover `tags`.
pub open spec fn packages_of(index: DriverIndex, ids: Seq<u64>, tags: Seq<Seq<char>>, n: int) -> Seq<Seq<char>>
    decreases n,
{
    if n <= 0 {
        Seq::empty()
    } else {
        let prev = packages_of(index, ids, tags, n - 1);
        let o = index.option_at(ids[n - 1]);
        if o.passes(tags) {
            prev + views(o.packages@)
        } else {
            prev
        }
    }
}

/// The packages of every option of kind `k` whose tags cover `tags`, in
/// option id order.
pub open spec fn kind_packages(index: DriverIndex, k: HardwareKind, tags: Seq<Seq<char>>) -> Seq<Seq<char>> {
    packages_of(index, index.kind_to_option_ids.at(k), tags, index.kind_to_option_ids.at(k).len() as int)
}

/// Every option id listed under a kind is the id of an option.
proof fn lemma_options_of_kind_valid(index: DriverIndex, k: HardwareKind, n: int)
    requires
        index.wf(),
        0 <= n <= index.catalog().len(),
    ensures
        forall|j: int|
            0 <= j < options_of_kind(index.catalog(), k, n).len() ==> #[trigger] index.has_option(
                options_of_kind(index.catalog(), k, n)[j],
            ),
    decreases n,
{
    let c = index.catalog();
    if n > 0 {
        lemma_options_of_kind_valid(index, k, n - 1);
        crate::index::lemma_options_before_mono(c, n, c.len() as int);
        crate::index::lemma_options_before_nonneg(c, n - 1);
        let prev = options_of_kind(c, k, n - 1);
        if c[n - 1].hardware_kind == k {
            let add = option_ids_of(c, n - 1);
            assert forall|j: int| 0 <= j < options_of_kind(c, k, n).len() implies #[trigger] index.has_option(
                options_of_kind(c, k, n)[j],
            ) by {
                if j >= prev.len() {
                    assert(options_of_kind(c, k, n)[j] == add[j - prev.len()]);
                }
            }
        }
    }
}

/// Appends copies of `src` to `dst`.
fn append_copies(dst: &mut Vec<String>, src: &Vec<String>)
    ensures
        views(final(dst)@) == views(old(dst)@) + views(src@),
{
    let mut j: usize = 0;
    while j < src.len()
        invariant
            j <= src@.len(),
            views(dst@) == views(old(dst)@) + views(src@).take(j as int),
        decreases src.len() - j,
    {
        let ghost prev = dst@;
        let item = src[j].clone();
        dst.push(item);
        proof {
            assert(views(dst@) =~= views(prev).push(item@));
            assert(views(src@).take(j as int + 1) =~= views(src@).take(j as int).push(src@[j as int]@));
            assert(views(dst@) =~= views(old(dst)@) + views(src@).take(j as int + 1));
        }
        j = j + 1;
    }
    assert(views(src@).take(src@.len() as int) == views(src@));
}

impl DriverIndex {
    /// The packages of the options of kind `kind` whose tags cover
    /// `filter_tags`, in option id order.
    pub fn kind_driver_packages(&self, kind: HardwareKind, filter_tags: &Vec<String>) -> (r: Vec<String>)
        requires
            self.wf(),
        ensures
            views(r@) == kind_packages(*self, kind, views(filter_tags@)),
    {
        let ids = self.kind_to_option_ids.ids(kind);
        proof {
            lemma_options_of_kind_valid(*self, kind, self.catalog().len() as int);
        }
        let mut packages: Vec<String> = Vec::new();
        let mut j: usize = 0;
        while j < ids.len()
            invariant
                self.wf(),
                ids@ == self.kind_to_option_ids.at(kind),
                ids@ == options_of_kind(self.catalog(), kind, self.catalog().len() as int),
                forall|q: int| 0 <= q < ids@.len() ==> #[trigger] self.has_option(ids@[q]),
                j <= ids@.len(),
                views(packages@) == packages_of(*self, ids@, views(filter_tags@), j as int),
            decreases ids.len() - j,
        {
            assert(self.has_option(ids@[j as int]));
            let o = self.option(ids[j]).unwrap();
            if o.has_all_tags(filter_tags) {
                append_copies(&mut packages, &o.packages);
            }
            j = j + 1;
        }
        packages
    }

    /// The packages of the options whose tags cover `filter_tags`, grouped by
    /// kind, for the kind asked for or for all four kinds in order.
    pub fn all_driver_packages(
        &self,
        optional_hardware: Option<HardwareKind>,
        filter_tags: &Vec<String>,
    ) -> (r: Vec<KindPackages>)
        requires
            self.wf(),
        ensures
            r@.len() == selected_kinds(optional_hardware).len(),
            forall|j: int|
                0 <= j < r@.len() ==> (#[trigger] r@[j]).hardware_kind == selected_kinds(optional_hardware)[j]
                    && views(r@[j].packages@) == kind_packages(*self, r@[j].hardware_kind, views(filter_tags@)),
    {
        let kinds = kinds_of(optional_hardware);
        let mut out: Vec<KindPackages> = Vec::new();
        let mut j: usize = 0;
        while j < kinds.len()
            invariant
                self.wf(),
                kinds@ == selected_kinds(optional_hardware),
                j <= kinds@.len(),
                out@.len() == j,
                forall|q: int|
                    0 <= q < j ==> (#[trigger] out@[q]).hardware_kind == kinds@[q] && views(out@[q].packages@)
                        == kind_packages(*self, out@[q].hardware_kind, views(filter_tags@)),
            decreases kinds.len() - j,
        {
            let kind = kinds[j];
            let packages = self.kind_driver_packages(kind, filter_tags);
            out.push(KindPackages { hardware_kind: kind, packages });
            j = j + 1;
        }
        out
    }
}

/// Whether `name` is one of `names`.
pub fn contains_name(names: &Vec<String>, name: &String) -> (r: bool)
    ensures
        r == views(names@).contains(name@),
{
    let mut j: usize = 0;
    while j < names.len()
        invariant
            j <= names@.len(),
            forall|q: int| 0 <= q < j ==> names@[q]@ != name@,
        decreases names.len() - j,
    {
        if names[j] == *name {
            assert(views(names@)[j as int] == name@);
            return true;
        }
        j = j + 1;
    }
    assert(!views(names@).contains(name@)) by {
        if views(names@).contains(name@) {
            let q = choose|q: int| 0 <= q < views(names@).len() && views(names@)[q] == name@;
            assert(names@[q]@ == name@);
        }
    }
    false
}

/// The packages among the first `n` of `installed` whose name is one of `names`.
pub open spec fn installed_among(
    installed: Seq<InstalledPackage>,
    names: Seq<Seq<char>>,
    n: int,
) -> Seq<InstalledPackage>
    decreases n,
{
    if n <= 0 {
        Seq::empty()
    } else if names.contains(installed[n - 1].name@) {
        installed_among(installed, names, n - 1).push(installed[n - 1])
    } else {
        installed_among(installed, names, n - 1)
    }
}

/// The packages of `installed` whose name is one of `names`, in order.
pub fn installed_subset(installed: &Vec<InstalledPackage>, names: &Vec<String>) -> (r: Vec<InstalledPackage>)
    ensures
        r@ == installed_among(installed@, views(names@), installed@.len() as int),
{
    let mut out: Vec<InstalledPackage> = Vec::new();
    let mut j: usize = 0;
    while j < installed.len()
        invariant
            j <= installed@.len(),
            out@ == installed_among(installed@, views(names@), j as int),
        decreases installed.len() - j,
    {
        let p = &installed[j];
        if contains_name(names, &p.name) {
            out.push(InstalledPackage { name: p.name.clone(), version: p.version.clone() });
        }
        j = j + 1;
    }
    out
}

/// The installed driver packages, grouped by kind.
#[derive(Clone, Debug)]
pub struct ListActionOutput {
    pub inner: Vec<KindInstalledPackages>,
}

impl ListActionOutput {
    /// An empty listing.
    pub fn new() -> (r: Self)
        ensures
            r.inner@.len() == 0,
    {
        ListActionOutput { inner: Vec::new() }
    }
}

/// Lists the installed driver packages: for each kind the query covers, the
/// packages of `installed`, in order, that some option of that kind whose
/// tags cover `tags` names.
pub fn list_inner(
    index: &DriverIndex,
    optional_hardware: &Option<HardwareKind>,
    tags: &Vec<String>,
    installed: &Vec<InstalledPackage>,
) -> (r: ListActionOutput)
    requires
        index.wf(),
    ensures
        r.inner@.len() == selected_kinds(*optional_hardware).len(),
        forall|j: int|
            0 <= j < r.inner@.len() ==> (#[trigger] r.inner@[j]).hardware_kind == selected_kinds(
                *optional_hardware,
            )[j] && r.inner@[j].packages@ == installed_among(
                installed@,
                kind_packages(*index, r.inner@[j].hardware_kind, views(tags@)),
                installed@.len() as int,
            ),
{
    let groups = index.all_driver_packages(*optional_hardware, tags);
    let mut out = ListActionOutput::new();
    let mut j: usize = 0;
    while j < groups.len()
        invariant
            index.wf(),
            groups@.len() == selected_kinds(*optional_hardware).len(),
            forall|q: int|
                0 <= q < groups@.len() ==> (#[trigger] groups@[q]).hardware_kind == selected_kinds(*optional_hardware)[q]
                    && views(groups@[q].packages@) == kind_packages(*index, groups@[q].hardware_kind, views(tags@)),
            j <= groups@.len(),
            out.inner@.len() == j,
            forall|q: int|
                0 <= q < j ==> (#[trigger] out.inner@[q]).hardware_kind == selected_kinds(*optional_hardware)[q]
                    && out.inner@[q].packages@ == installed_among(
                    installed@,
                    kind_packages(*index, out.inner@[q].hardware_kind, views(tags@)),
                    installed@.len() as int,
                ),
        decreases groups.len() - j,
    {
        let group = &groups[j];
        let packages = installed_subset(installed, &group.packages);
        out.inner.push(KindInstalledPackages { hardware_kind: group.hardware_kind, packages });
        j = j + 1;
    }
    out
}

/// Every entry of a resolution names an option of the database.
pub proof fn lemma_resolved_options_exist(
    index: DriverIndex,
    present: Seq<HardwareId>,
    kind: Option<HardwareKind>,
    tags: Seq<Seq<char>>,
    indexed: bool,
    n: int,
)
    requires
        index.wf(),
        0 <= n <= index.catalog().len(),
    ensures
        forall|j: int|
            0 <= j < resolved(index.catalog(), present, kind, tags, indexed, n).len() ==> index.has_option(
                (#[trigger] resolved(index.catalog(), present, kind, tags, indexed, n)[j]).option_id,
            ),
    decreases n,
{
    let c = index.catalog();
    if n > 0 {
        lemma_resolved_options_exist(index, present, kind, tags, indexed, n - 1);
        let i = n - 1;
        let len = c[i].driver_options@.len() as int;
        crate::index::lemma_options_before_mono(c, n, c.len() as int);
        crate::index::lemma_options_before_nonneg(c, i);
        lemma_kept_positions_bound(c[i], tags, len);
        let prev = resolved(c, present, kind, tags, indexed, n - 1);
        let es = entries_of(c, i, tags);
        assert forall|q: int| 0 <= q < es.len() implies index.has_option(#[trigger] es[q].option_id) by {
            let kp = kept_positions(c[i], tags, len);
            assert(kp[q] < len);
        }
        assert forall|j: int|
            0 <= j < resolved(c, present, kind, tags, indexed, n).len() implies index.has_option(
                (#[trigger] resolved(c, present, kind, tags, indexed, n)[j]).option_id,
            ) by {
            if j >= prev.len() {
                assert(resolved(c, present, kind, tags, indexed, n)[j] == es[j - prev.len()]);
            }
        }
    }
}

/// Position of the chosen entry among the first `n`: scanning in order, a
/// later entry replaces the chosen one only when its option precedes the
/// chosen option (see `option_precedes`).
pub open spec fn preferred(index: DriverIndex, r: Seq<ResolvedOption>, n: int) -> int
    decreases n,
{
    if n <= 1 {
        0
    } else {
        let b = preferred(index, r, n - 1);
        if option_precedes(index.option_at(r[n - 1].option_id), index.option_at(r[b].option_id)) {
            n - 1
        } else {
            b
        }
    }
}

/// The chosen entry is least: no entry among the first `n` has an option that
/// precedes the chosen entry's option, provided paths are weakly ordered
/// (which std's `Path` order, a total order, is).
pub proof fn lemma_preferred_is_least(index: DriverIndex, r: Seq<ResolvedOption>, n: int)
    requires
        path_order_is_weak(),
        1 <= n,
    ensures
        0 <= preferred(index, r, n) < n,
        forall|q: int|
            0 <= q < n ==> !option_precedes(
                #[trigger] index.option_at(r[q].option_id),
                index.option_at(r[preferred(index, r, n)].option_id),
            ),
    decreases n,
{
    if n == 1 {
        lemma_option_precedes_order(index.option_at(r[0].option_id), index.option_at(r[0].option_id), index.option_at(r[0].option_id));
    } else {
        lemma_preferred_is_least(index, r, n - 1);
        let b = preferred(index, r, n - 1);
        let ob = index.option_at(r[b].option_id);
        let last = index.option_at(r[n - 1].option_id);
        lemma_option_precedes_order(last, last, last);
        if option_precedes(last, ob) {
            assert forall|q: int| 0 <= q < n implies !option_precedes(
                #[trigger] index.option_at(r[q].option_id),
                last,
            ) by {
                if q < n - 1 {
                    lemma_option_precedes_order(index.option_at(r[q].option_id), last, ob);
                }
            }
        }
    }
}

/// Names of the first `n` packages of `installed` that `keep` does not hold.
pub open spec fn removals(installed: Seq<InstalledPackage>, keep: Seq<Seq<char>>, n: int) -> Seq<Seq<char>>
    decreases n,
{
    if n <= 0 {
        Seq::empty()
    } else if keep.contains(installed[n - 1].name@) {
        removals(installed, keep, n - 1)
    } else {
        removals(installed, keep, n - 1).push(installed[n - 1].name@)
    }
}

/// What an install changes: the packages to install and those to remove.
#[derive(Clone, Debug)]
pub struct InstallActionOutput {
    pub packages_to_install: Vec<String>,
    pub packages_to_remove: Vec<String>,
}

/// Plans the install of the drivers for one kind of hardware.
///
/// Among the options that apply to `present` for `hardware` and whose tags
/// cover `tags`, the least one in the order of `option_precedes` is chosen
/// (priority, then name, description, tags as a sorted set, pre-install
/// script, packages and post-install script); among options equal in that
/// order, the first in id order.
/// Its packages are installed; the installed driver packages of that kind that
/// it does not name are removed. With no applicable option there is nothing
/// to install.
pub fn install_inner(
    index: &DriverIndex,
    present: &Vec<HardwareId>,
    hardware: HardwareKind,
    tags: &Vec<String>,
    installed: &Vec<InstalledPackage>,
) -> (r: Result<InstallActionOutput, Error>)
    requires
        index.wf(),
    ensures
        ({
            let found = resolve_spec(index.catalog(), present@, Some(hardware), views(tags@));
            &&& r is Err <==> found.len() == 0
            &&& r matches Err(e) ==> e is NothingToInstall
            &&& r matches Ok(out) ==> {
                let chosen = index.option_at(found[preferred(*index, found, found.len() as int)].option_id);
                let kind_installed = installed_among(
                    installed@,
                    kind_packages(*index, hardware, Seq::empty()),
                    installed@.len() as int,
                );
                &&& path_order_is_weak() ==> forall|q: int|
                    0 <= q < found.len() ==> !option_precedes(
                        #[trigger] index.option_at(found[q].option_id),
                        chosen,
                    )
                &&& views(out.packages_to_install@) == views(chosen.packages@)
                &&& views(out.packages_to_remove@) == removals(
                    kind_installed,
                    views(chosen.packages@),
                    kind_installed.len() as int,
                )
            }
        }),
{
    let ghost c = index.catalog();
    let found = index.resolve(present, Some(hardware), tags);
    if found.len() == 0 {
        return Err(Error::NothingToInstall);
    }
    proof {
        lemma_resolved_options_exist(*index, present@, Some(hardware), views(tags@), false, c.len() as int);
    }
    let mut best: usize = 0;
    assert(index.has_option(found@[0].option_id));
    let mut best_option: &DriverOption = index.option(found[0].option_id).unwrap();
    let mut j: usize = 1;
    while j < found.len()
        invariant
            index.wf(),
            found@ == resolve_spec(c, present@, Some(hardware), views(tags@)),
            c == index.catalog(),
            forall|q: int| 0 <= q < found@.len() ==> index.has_option((#[trigger] found@[q]).option_id),
            1 <= j <= found@.len(),
            best == preferred(*index, found@, j as int),
            0 <= best < j,
            *best_option == index.option_at(found@[best as int].option_id),
        decreases found.len() - j,
    {
        assert(index.has_option(found@[j as int].option_id));
        let candidate = index.option(found[j].option_id).unwrap();
        if precedes(candidate, best_option) {
            best = j;
            best_option = candidate;
        }
        j = j + 1;
    }
    assert(index.has_option(found@[best as int].option_id));
    let chosen = index.option(found[best].option_id).unwrap();
    proof {
        if path_order_is_weak() {
            lemma_preferred_is_least(*index, found@, found@.len() as int);
        }
    }
    let mut packages_to_install: Vec<String> = Vec::new();
    append_copies(&mut packages_to_install, &chosen.packages);
    assert(views(packages_to_install@) =~= views(chosen.packages@));
    let no_tags: Vec<String> = Vec::new();
    assert(views(no_tags@) =~= Seq::<Seq<char>>::empty());
    let names = index.kind_driver_packages(hardware, &no_tags);
    let kind_installed = installed_subset(installed, &names);
    let mut packages_to_remove: Vec<String> = Vec::new();
    let mut q: usize = 0;
    while q < kind_installed.len()
        invariant
            q <= kind_installed@.len(),
            views(packages_to_remove@) == removals(kind_installed@, views(packages_to_install@), q as int),
        decreases kind_installed.len() - q,
    {
        let name = &kind_installed[q].name;
        if !contains_name(&packages_to_install, name) {
            let ghost prev = packages_to_remove@;
            let copy = name.clone();
            packages_to_remove.push(copy);
            assert(views(packages_to_remove@) =~= views(prev).push(copy@));
        }
        q = q + 1;
    }
    Ok(InstallActionOutput { packages_to_install, packages_to_remove })
}

/// The report of a database generation.
#[derive(Clone, Debug, Default)]
pub struct GenerateDatabaseActionOutput {
    pub success_message: String,
}

impl GenerateDatabaseActionOutput {
    /// The report of a successful generation.
    pub fn new() -> (r: Self)
        ensures
            r.success_message@ == "Database generated successfully..."@,
    {
        proof {
            reveal_strlit("Database generated successfully...");
        }
        GenerateDatabaseActionOutput { success_message: "Database generated successfully...".to_owned() }
    }
}

} // verus!
