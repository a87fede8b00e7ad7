//! The resolver: which driver options apply to the identifiers present on a
//! machine, by a scan of every setup or through the identifier tables.

use vstd::prelude::*;
use crate::hardware::{pack, HardwareId, HardwareKind};
use crate::catalog::{
    kept_positions, setup_applies, views, is_present, HardwareSetup,
};
use crate::index::{
    lemma_pci_key_mentions, lemma_usb_key_mentions, option_id, setup_id, table_has, DriverIndex,
};

verus! {

broadcast use vstd::std_specs::hash::group_hash_axioms;

/// One applicable driver option: the kind of its setup, the setup's id and
/// the option's id.
#[derive(Clone, Copy, Debug, PartialEq, Eq, Structural)]
pub struct ResolvedOption {
    pub hardware_kind: HardwareKind,
    pub setup_id: u64,
    pub option_id: u64,
}

/// The result entry for option `k` of the setup at position `i`.
pub open spec fn entry(c: Seq<HardwareSetup>, i: int, k: int) -> ResolvedOption {
    ResolvedOption {
        hardware_kind: c[i].hardware_kind,
        setup_id: setup_id(i),
        option_id: option_id(c, i, k),
    }
}

/// The entries of the options of the setup at position `i` that carry every
/// tag of `tags`, in option order.
pub open spec fn entries_of(c: Seq<HardwareSetup>, i: int, tags: Seq<Seq<char>>) -> Seq<ResolvedOption> {
    kept_positions(c[i], tags, c[i].driver_options@.len() as int).map_values(
        |k: usize| entry(c, i, k as int),
    )
}

/// Whether the setup's matcher names one of the present identifiers.
pub open spec fn implicated(s: HardwareSetup, present: Seq<HardwareId>) -> bool {
    exists|id: HardwareId| #[trigger] is_present(present, id) && s.hardware_list.mentions(id)
}

/// Whether the index-assisted path considers the setup: the identifier tables
/// reach it from `present`, or its matcher demands no identifier (such a setup
/// is under no identifier key).
pub open spec fn candidate(s: HardwareSetup, present: Seq<HardwareId>) -> bool {
    implicated(s, present) || s.hardware_list.is_unconditional()
}

/// The entries contributed by the first `n` setups. With `indexed`, only the
/// candidates of the index-assisted path are considered.
pub open spec fn resolved(
    c: Seq<HardwareSetup>,
    present: Seq<HardwareId>,
    kind: Option<HardwareKind>,
    tags: Seq<Seq<char>>,
    indexed: bool,
    n: int,
) -> Seq<ResolvedOption>
    decreases n,
{
    if n <= 0 {
        Seq::empty()
    } else {
        let prev = resolved(c, present, kind, tags, indexed, n - 1);
        if setup_applies(c[n - 1], present, kind) && (indexed ==> candidate(c[n - 1], present)) {
            prev + entries_of(c, n - 1, tags)
        } else {
            prev
        }
    }
}

/// The resolution of a query: for every setup, in id order, that passes the
/// kind filter and whose matcher accepts `present`, the options whose tags
/// cover `tags`.
pub open spec fn resolve_spec(
    c: Seq<HardwareSetup>,
    present: Seq<HardwareId>,
    kind: Option<HardwareKind>,
    tags: Seq<Seq<char>>,
) -> Seq<ResolvedOption> {
    resolved(c, present, kind, tags, false, c.len() as int)
}

/// What the index-assisted path returns: the same, restricted to its
/// candidates.
pub open spec fn resolve_indexed_spec(
    c: Seq<HardwareSetup>,
    present: Seq<HardwareId>,
    kind: Option<HardwareKind>,
    tags: Seq<Seq<char>>,
) -> Seq<ResolvedOption> {
    resolved(c, present, kind, tags, true, c.len() as int)
}

/// Every kept position is below the number of options examined.
pub proof fn lemma_kept_positions_bound(s: HardwareSetup, tags: Seq<Seq<char>>, n: int)
    requires
        n <= usize::MAX,
    ensures
        forall|j: int|
            0 <= j < kept_positions(s, tags, n).len() ==> (#[trigger] kept_positions(s, tags, n)[j]) < n,
    decreases n,
{
    if n > 0 {
        lemma_kept_positions_bound(s, tags, n - 1);
        let prev = kept_positions(s, tags, n - 1);
        assert forall|j: int| 0 <= j < kept_positions(s, tags, n).len() implies (
        #[trigger] kept_positions(s, tags, n)[j]) < n by {
            if j < prev.len() {
                assert(prev[j] < n - 1);
                assert(kept_positions(s, tags, n)[j] == prev[j]);
            }
        }
    }
}

/// Sets every flag at position `x - 1` for `x` in `list`.
fn mark_all(marks: &mut Vec<bool>, list: &Vec<u64>)
    requires
        old(marks)@.len() <= usize::MAX,
        forall|q: int| 0 <= q < list@.len() ==> 1 <= #[trigger] list@[q] <= old(marks)@.len(),
    ensures
        final(marks)@.len() == old(marks)@.len(),
        forall|s: int|
            0 <= s < old(marks)@.len() ==> (#[trigger] final(marks)@[s] <==> (old(marks)@[s]
                || list@.contains((s + 1) as u64))),
{
    let mut q: usize = 0;
    while q < list.len()
        invariant
            q <= list@.len(),
            marks@.len() == old(marks)@.len(),
            old(marks)@.len() <= usize::MAX,
            forall|r: int| 0 <= r < list@.len() ==> 1 <= #[trigger] list@[r] <= old(marks)@.len(),
            forall|s: int|
                0 <= s < old(marks)@.len() ==> (#[trigger] marks@[s] <==> (old(marks)@[s]
                    || list@.take(q as int).contains((s + 1) as u64))),
        decreases list.len() - q,
    {
        let x = list[q];
        marks.set((x - 1) as usize, true);
        proof {
            assert forall|s: int| 0 <= s < old(marks)@.len() implies (#[trigger] marks@[s] <==> (old(
                marks,
            )@[s] || list@.take(q as int + 1).contains((s + 1) as u64))) by {
                assert(list@.take(q as int + 1) == list@.take(q as int).push(x));
                if list@.take(q as int).contains((s + 1) as u64) {
                    let w = choose|w: int| 0 <= w < q && #[trigger] list@.take(q as int)[w] == (s + 1) as u64;
                    assert(list@.take(q as int + 1)[w] == (s + 1) as u64);
                }
                if list@.take(q as int + 1).contains((s + 1) as u64) {
                    let w = choose|w: int| 0 <= w < q + 1 && #[trigger] list@.take(q as int + 1)[w] == (s + 1) as u64;
                    if w < q {
                        assert(list@.take(q as int)[w] == (s + 1) as u64);
                    }
                }
                if s == x - 1 {
                    assert(list@.take(q as int + 1)[q as int] == x);
                }
            }
        }
        q = q + 1;
    }
    assert(list@.take(list@.len() as int) == list@);
}

impl DriverIndex {
    /// Appends the entries of the setup at position `i` when it applies.
    fn emit_setup(
        &self,
        i: usize,
        present: &Vec<HardwareId>,
        optional_hardware: &Option<HardwareKind>,
        tags: &Vec<String>,
        out: &mut Vec<ResolvedOption>,
    )
        requires
            self.wf(),
            i < self.catalog().len(),
        ensures
            final(out)@ == old(out)@ + if setup_applies(self.catalog()[i as int], present@, *optional_hardware) {
                entries_of(self.catalog(), i as int, views(tags@))
            } else {
                Seq::empty()
            },
    {
        let ghost c = self.catalog();
        let setup = &self.setup_id_to_setup[i];
        let count = self.setup_id_to_setup.len();
        let option_count = setup.driver_options.len();
        assert(i < count && option_count == c[i as int].driver_options@.len());
        let kept = setup.matching_driver_options(present, optional_hardware, tags);
        match kept {
            None => {
                assert(old(out)@ + Seq::<ResolvedOption>::empty() == old(out)@);
            },
            Some(positions) => {
                let ghost base = out@;
                let ghost es = entries_of(c, i as int, views(tags@));
                proof {
                    lemma_kept_positions_bound(c[i as int], views(tags@), c[i as int].driver_options@.len() as int);
                }
                let ids = &self.setup_id_to_option_ids[i];
                let sid = (i + 1) as u64;
                let mut j: usize = 0;
                while j < positions.len()
                    invariant
                        self.wf(),
                        c == self.catalog(),
                        i < c.len(),
                        *setup == c[i as int],
                        *ids == self.setup_id_to_option_ids@[i as int],
                        sid == setup_id(i as int),
                        positions@ == kept_positions(c[i as int], views(tags@), c[i as int].driver_options@.len() as int),
                        es == entries_of(c, i as int, views(tags@)),
                        j <= positions.len(),
                        out@ == base + es.take(j as int),
                        forall|q: int| 0 <= q < positions@.len() ==> (#[trigger] positions@[q]) < c[i as int].driver_options@.len(),
                    decreases positions.len() - j,
                {
                    let k = positions[j];
                    assert(ids@ == crate::index::option_ids_of(c, i as int));
                    let oid = ids[k];
                    out.push(ResolvedOption { hardware_kind: setup.hardware_kind, setup_id: sid, option_id: oid });
                    assert(es.take(j as int + 1) == es.take(j as int).push(es[j as int]));
                    j = j + 1;
                }
                assert(es.take(positions.len() as int) == es);
            },
        }
    }

    /// Resolves a query by scanning every setup of the database: the options,
    /// in id order, of the setups that pass the kind filter and whose matcher
    /// accepts `present`, restricted to those whose tags cover `tags`.
    pub fn resolve(
        &self,
        present: &Vec<HardwareId>,
        optional_hardware: Option<HardwareKind>,
        tags: &Vec<String>,
    ) -> (r: Vec<ResolvedOption>)
        requires
            self.wf(),
        ensures
            r@ == resolve_spec(self.catalog(), present@, optional_hardware, views(tags@)),
    {
        let ghost c = self.catalog();
        let mut out: Vec<ResolvedOption> = Vec::new();
        let mut i: usize = 0;
        while i < self.setup_id_to_setup.len()
            invariant
                self.wf(),
                c == self.catalog(),
                i <= c.len(),
                out@ == resolved(c, present@, optional_hardware, views(tags@), false, i as int),
            decreases c.len() - i,
        {
            self.emit_setup(i, present, &optional_hardware, tags, &mut out);
            proof {
                let s = c[i as int];
                if !setup_applies(s, present@, optional_hardware) {
                    assert(out@ =~= resolved(c, present@, optional_hardware, views(tags@), false, i as int));
                }
            }
            i = i + 1;
        }
        out
    }

    /// Flags, for every setup position, whether the identifier tables reach
    /// that setup from one of the present identifiers.
    fn implicated_setups(&self, present: &Vec<HardwareId>) -> (r: Vec<bool>)
        requires
            self.wf(),
        ensures
            r@.len() == self.catalog().len(),
            forall|s: int| 0 <= s < r@.len() ==> (#[trigger] r@[s] <==> implicated(self.catalog()[s], present@)),
    {
        let ghost c = self.catalog();
        let n = self.setup_id_to_setup.len();
        let mut marks: Vec<bool> = Vec::new();
        while marks.len() < n
            invariant
                marks@.len() <= n,
                n == c.len(),
                forall|s: int| 0 <= s < marks@.len() ==> !(#[trigger] marks@[s]),
            decreases n - marks@.len(),
        {
            marks.push(false);
        }
        let mut j: usize = 0;
        while j < present.len()
            invariant
                self.wf(),
                c == self.catalog(),
                n == c.len(),
                j <= present@.len(),
                marks@.len() == n,
                forall|s: int|
                    0 <= s < n ==> (#[trigger] marks@[s] <==> exists|t: int|
                        0 <= t < j && c[s].hardware_list.mentions(#[trigger] present@[t])),
            decreases present.len() - j,
        {
            let id = present[j];
            let ghost before = marks@;
            let (key, table) = match id {
                HardwareId::Pci(p) => (pack(p.vendor, p.device), &self.pci_id_to_setup_ids),
                HardwareId::Usb(u) => (pack(u.vendor, u.device), &self.usb_id_to_setup_ids),
            };
            let hit = table.get(&key);
            proof {
                match id {
                    HardwareId::Pci(p) => {
                        assert forall|s: int| 0 <= s < n implies (#[trigger] c[s].hardware_list.mentions(id) <==> table_has(table@, key, (s + 1) as u64)) by {
                            lemma_pci_key_mentions(c[s].hardware_list, p);
                        }
                    },
                    HardwareId::Usb(u) => {
                        assert forall|s: int| 0 <= s < n implies (#[trigger] c[s].hardware_list.mentions(id) <==> table_has(table@, key, (s + 1) as u64)) by {
                            lemma_usb_key_mentions(c[s].hardware_list, u);
                        }
                    },
                }
            }
            match hit {
                Some(list) => {
                    proof {
                        assert forall|q: int| 0 <= q < list@.len() implies 1 <= #[trigger] list@[q] <= marks@.len() by {
                            assert(table_has(table@, key, list@[q]));
                        }
                    }
                    mark_all(&mut marks, list);
                    proof {
                        assert forall|s: int| 0 <= s < n implies (#[trigger] marks@[s] <==> (before[s] || c[s].hardware_list.mentions(id))) by {
                            assert(table_has(table@, key, (s + 1) as u64) <==> list@.contains((s + 1) as u64));
                        }
                    }
                },
                None => {
                    assert forall|s: int| 0 <= s < n implies !(#[trigger] c[s].hardware_list.mentions(id)) by {
                        assert(!table_has(table@, key, (s + 1) as u64));
                    }
                },
            }
            proof {
                assert forall|s: int| 0 <= s < n implies (#[trigger] marks@[s] <==> exists|t: int|
                    0 <= t < j + 1 && c[s].hardware_list.mentions(#[trigger] present@[t])) by {
                    if exists|t: int| 0 <= t < j + 1 && c[s].hardware_list.mentions(#[trigger] present@[t]) {
                        let t = choose|t: int| 0 <= t < j + 1 && c[s].hardware_list.mentions(#[trigger] present@[t]);
                        if t < j {
                            assert(before[s]);
                        }
                    }
                    if before[s] {
                        let t = choose|t: int| 0 <= t < j && c[s].hardware_list.mentions(#[trigger] present@[t]);
                        assert(0 <= t < j + 1 && c[s].hardware_list.mentions(present@[t]));
                    }
                    if c[s].hardware_list.mentions(id) {
                        assert(c[s].hardware_list.mentions(present@[j as int]));
                    }
                }
            }
            j = j + 1;
        }
        proof {
            assert forall|s: int| 0 <= s < n implies (#[trigger] marks@[s] <==> implicated(c[s], present@)) by {
                if marks@[s] {
                    let t = choose|t: int| 0 <= t < j && c[s].hardware_list.mentions(#[trigger] present@[t]);
                    assert(is_present(present@, present@[t]));
                }
                if implicated(c[s], present@) {
                    let id = choose|id: HardwareId| #[trigger] is_present(present@, id) && c[s].hardware_list.mentions(id);
                    let t = choose|t: int| 0 <= t < present@.len() && present@[t] == id;
                    assert(c[s].hardware_list.mentions(present@[t]));
                }
            }
        }
        marks
    }

    /// Resolves a query through the identifier tables: the setups named under
    /// the keys of the present identifiers are collected first, and only
    /// those, with the setups whose matcher demands nothing, are matched.
    pub fn resolve_indexed(
        &self,
        present: &Vec<HardwareId>,
        optional_hardware: Option<HardwareKind>,
        tags: &Vec<String>,
    ) -> (r: Vec<ResolvedOption>)
        requires
            self.wf(),
        ensures
            r@ == resolve_indexed_spec(self.catalog(), present@, optional_hardware, views(tags@)),
    {
        let ghost c = self.catalog();
        let marks = self.implicated_setups(present);
        let mut out: Vec<ResolvedOption> = Vec::new();
        let mut i: usize = 0;
        while i < self.setup_id_to_setup.len()
            invariant
                self.wf(),
                c == self.catalog(),
                i <= c.len(),
                marks@.len() == c.len(),
                forall|s: int| 0 <= s < marks@.len() ==> (#[trigger] marks@[s] <==> implicated(c[s], present@)),
                out@ == resolved(c, present@, optional_hardware, views(tags@), true, i as int),
            decreases c.len() - i,
        {
            if marks[i] || self.setup_id_to_setup[i].hardware_list.demands_nothing() {
                self.emit_setup(i, present, &optional_hardware, tags, &mut out);
                proof {
                    if !setup_applies(c[i as int], present@, optional_hardware) {
                        assert(out@ =~= resolved(c, present@, optional_hardware, views(tags@), true, i as int));
                    }
                }
            }
            i = i + 1;
        }
        out
    }
}

/// The entries of every option of the setup at position `i`, in order.
pub open spec fn all_entries_of(c: Seq<HardwareSetup>, i: int) -> Seq<ResolvedOption> {
    Seq::new(c[i].driver_options@.len(), |k: int| entry(c, i, k))
}

/// The entries of every option of the setups among the first `n` whose
/// matcher demands no identifier.
pub open spec fn unconditional_entries(c: Seq<HardwareSetup>, n: int) -> Seq<ResolvedOption>
    decreases n,
{
    if n <= 0 {
        Seq::empty()
    } else if c[n - 1].hardware_list.is_unconditional() {
        unconditional_entries(c, n - 1) + all_entries_of(c, n - 1)
    } else {
        unconditional_entries(c, n - 1)
    }
}

/// With no tag filter every option is kept.
proof fn lemma_kept_positions_unfiltered(s: HardwareSetup, n: int)
    requires
        0 <= n <= usize::MAX,
    ensures
        kept_positions(s, Seq::empty(), n) == Seq::new(n as nat, |k: int| k as usize),
    decreases n,
{
    if n > 0 {
        lemma_kept_positions_unfiltered(s, n - 1);
        assert(s.driver_options@[n - 1].passes(Seq::empty()));
        assert(Seq::new((n - 1) as nat, |k: int| k as usize).push((n - 1) as usize) =~= Seq::new(
            n as nat,
            |k: int| k as usize,
        ));
    } else {
        assert(Seq::new(n as nat, |k: int| k as usize) =~= Seq::<usize>::empty());
    }
}

proof fn lemma_empty_query_prefix(c: Seq<HardwareSetup>, n: int)
    requires
        0 <= n <= c.len(),
        forall|i: int| 0 <= i < c.len() ==> #[trigger] c[i].driver_options@.len() <= usize::MAX,
    ensures
        resolved(c, Seq::empty(), None, Seq::empty(), false, n) == unconditional_entries(c, n),
    decreases n,
{
    if n > 0 {
        lemma_empty_query_prefix(c, n - 1);
        let i = n - 1;
        c[i].hardware_list.lemma_matches_nothing_present();
        let len = c[i].driver_options@.len() as int;
        lemma_kept_positions_unfiltered(c[i], len);
        assert(entries_of(c, i, Seq::empty()) =~= all_entries_of(c, i));
    }
}

/// Every entry of `unconditional_entries(c, n)` comes from one of the first
/// `n` setups, and that setup's matcher accepts the empty set.
proof fn lemma_unconditional_entries_origin(c: Seq<HardwareSetup>, n: int)
    requires
        0 <= n <= c.len(),
        c.len() <= usize::MAX,
    ensures
        forall|j: int|
            0 <= j < unconditional_entries(c, n).len() ==> {
                let e = #[trigger] unconditional_entries(c, n)[j];
                &&& 1 <= e.setup_id <= n
                &&& c[e.setup_id - 1].hardware_list.matches(Seq::empty())
            },
    decreases n,
{
    if n > 0 {
        lemma_unconditional_entries_origin(c, n - 1);
        c[n - 1].hardware_list.lemma_matches_nothing_present();
        let prev = unconditional_entries(c, n - 1);
        assert forall|j: int| 0 <= j < unconditional_entries(c, n).len() implies {
            let e = #[trigger] unconditional_entries(c, n)[j];
            &&& 1 <= e.setup_id <= n
            &&& c[e.setup_id - 1].hardware_list.matches(Seq::empty())
        } by {
            if j >= prev.len() {
                let e = unconditional_entries(c, n)[j];
                assert(e == all_entries_of(c, n - 1)[j - prev.len()]);
                assert(e.setup_id == setup_id(n - 1));
            } else {
                assert(unconditional_entries(c, n)[j] == prev[j]);
            }
        }
    }
}

/// A query with nothing present, no kind filter and no tag filter returns
/// exactly every option of the setups whose matcher demands no identifier,
/// and nothing from a setup whose matcher needs a present device: every entry
/// comes from a setup whose matcher accepts the empty set.
pub proof fn lemma_empty_query(index: DriverIndex)
    requires
        index.wf(),
    ensures
        resolve_spec(index.catalog(), Seq::empty(), None, Seq::empty()) == unconditional_entries(
            index.catalog(),
            index.catalog().len() as int,
        ),
        forall|j: int|
            0 <= j < resolve_spec(index.catalog(), Seq::empty(), None, Seq::empty()).len() ==> {
                let e = #[trigger] resolve_spec(index.catalog(), Seq::empty(), None, Seq::empty())[j];
                &&& 1 <= e.setup_id <= index.catalog().len()
                &&& index.catalog()[e.setup_id - 1].hardware_list.matches(Seq::empty())
            },
{
    let c = index.catalog();
    assert forall|i: int| 0 <= i < c.len() implies #[trigger] c[i].driver_options@.len() <= usize::MAX by {
        assert(index.setup_id_to_option_ids@[i]@ == crate::index::option_ids_of(c, i));
        crate::index::lemma_options_before_mono(c, i + 1, c.len() as int);
        crate::index::lemma_options_before_nonneg(c, i);
    }
    lemma_empty_query_prefix(c, c.len() as int);
    lemma_unconditional_entries_origin(c, c.len() as int);
}

proof fn lemma_paths_agree_prefix(
    c: Seq<HardwareSetup>,
    present: Seq<HardwareId>,
    kind: Option<HardwareKind>,
    tags: Seq<Seq<char>>,
    n: int,
)
    requires
        0 <= n <= c.len(),
    ensures
        resolved(c, present, kind, tags, true, n) == resolved(c, present, kind, tags, false, n),
    decreases n,
{
    if n > 0 {
        lemma_paths_agree_prefix(c, present, kind, tags, n - 1);
        let s = c[n - 1];
        if setup_applies(s, present, kind) && !s.hardware_list.is_unconditional() {
            s.hardware_list.lemma_match_implicates(present);
        }
    }
}

/// The index-assisted path and the full scan return the same result for
/// every query on every database.
pub proof fn lemma_lookup_paths_agree(
    index: DriverIndex,
    present: Seq<HardwareId>,
    kind: Option<HardwareKind>,
    tags: Seq<Seq<char>>,
)
    requires
        index.wf(),
    ensures
        resolve_indexed_spec(index.catalog(), present, kind, tags) == resolve_spec(
            index.catalog(),
            present,
            kind,
            tags,
        ),
{
    lemma_paths_agree_prefix(index.catalog(), present, kind, tags, index.catalog().len() as int);
}

} // verus!
