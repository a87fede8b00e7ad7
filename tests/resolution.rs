use archlinux_driver_manager::catalog::{
    DriverOption, HardwareList, HardwareListInner, HardwareSetup, PciIdList, UsbIdList,
};
use archlinux_driver_manager::hardware::{HardwareId, HardwareKind, PciId, UsbId};
use archlinux_driver_manager::index::{generate_database_inner, DriverIndex};
use archlinux_driver_manager::resolver::ResolvedOption;

fn option(name: &str, priority: u32, tags: &[&str], packages: &[&str]) -> DriverOption {
    DriverOption {
        order_of_priority: priority,
        name: name.to_string(),
        description: String::new(),
        tags: tags.iter().map(|t| t.to_string()).collect(),
        pre_install: None,
        packages: packages.iter().map(|p| p.to_string()).collect(),
        post_install: None,
    }
}

fn setup(kind: HardwareKind, list: HardwareList, options: Vec<DriverOption>) -> HardwareSetup {
    HardwareSetup {
        name: String::from("setup"),
        description: String::new(),
        hardware_kind: kind,
        hardware_list: list,
        driver_options: options,
    }
}

fn pci(vendor: u16, device: u16) -> HardwareId {
    HardwareId::Pci(PciId { vendor, device })
}

fn usb(vendor: u16, device: u16) -> HardwareId {
    HardwareId::Usb(UsbId { vendor, device })
}

fn strings(items: &[&str]) -> Vec<String> {
    items.iter().map(|s| s.to_string()).collect()
}

fn hybrid() -> HardwareList {
    HardwareList::Each(vec![
        HardwareListInner::Pci(PciIdList { vendor: 0x10de, devices: vec![0x1381, 0x1392] }),
        HardwareListInner::Usb(UsbIdList { vendor: 0x8086, devices: vec![0x1234] }),
    ])
}

fn option_ids(r: &[ResolvedOption]) -> Vec<u64> {
    r.iter().map(|e| e.option_id).collect()
}

fn nvidia_database() -> DriverIndex {
    generate_database_inner(vec![setup(
        HardwareKind::Graphics,
        HardwareList::Pci(PciIdList { vendor: 0x10de, devices: vec![0x1381] }),
        vec![option("nvidia", 0, &["proprietary"], &["nvidia"])],
    )])
}

#[test]
fn each_matcher_needs_every_group() {
    let list = hybrid();
    assert!(!list.matches_with_hardware_ids(&vec![pci(0x10de, 0x1381)]));
    assert!(list.matches_with_hardware_ids(&vec![pci(0x10de, 0x1381), usb(0x8086, 0x1234)]));
    assert!(list.matches_with_hardware_ids(&vec![pci(0x10de, 0x1392), usb(0x8086, 0x1234)]));
    assert!(!list.matches_with_hardware_ids(&vec![usb(0x8086, 0x1234)]));
    assert!(!list.matches_with_hardware_ids(&vec![pci(0x8086, 0x1234), usb(0x10de, 0x1381)]));
}

#[test]
fn each_matcher_through_the_database() {
    let db = generate_database_inner(vec![setup(
        HardwareKind::Graphics,
        hybrid(),
        vec![option("hybrid", 0, &[], &["nvidia", "mesa"])],
    )]);
    let alone = db.resolve_indexed(&vec![pci(0x10de, 0x1381)], None, &vec![]);
    assert!(alone.is_empty());
    let both = db.resolve_indexed(&vec![pci(0x10de, 0x1381), usb(0x8086, 0x1234)], None, &vec![]);
    assert_eq!(option_ids(&both), vec![1]);
}

#[test]
fn tag_filter_is_a_superset_test() {
    let o = option("o", 0, &["proprietary", "stable"], &["nvidia"]);
    assert!(o.has_all_tags(&strings(&["proprietary"])));
    assert!(o.has_all_tags(&strings(&[])));
    assert!(o.has_all_tags(&strings(&["stable", "proprietary"])));
    assert!(!o.has_all_tags(&strings(&["beta"])));
    assert!(!o.has_all_tags(&strings(&["proprietary", "beta"])));
}

#[test]
fn end_to_end_graphics_query() {
    let db = nvidia_database();
    let found = db.resolve(&vec![pci(0x10de, 0x1381)], Some(HardwareKind::Graphics), &vec![]);
    assert_eq!(
        found,
        vec![ResolvedOption { hardware_kind: HardwareKind::Graphics, setup_id: 1, option_id: 1 }]
    );
    let record = db.option(found[0].option_id).unwrap();
    assert_eq!(record.packages, strings(&["nvidia"]));
    assert_eq!(record.tags, strings(&["proprietary"]));
    let indexed = db.resolve_indexed(&vec![pci(0x10de, 0x1381)], Some(HardwareKind::Graphics), &vec![]);
    assert_eq!(indexed, found);
    let none = db.resolve(&vec![pci(0x10de, 0x9999)], Some(HardwareKind::Graphics), &vec![]);
    assert!(none.is_empty());
    let none_indexed = db.resolve_indexed(&vec![pci(0x10de, 0x9999)], Some(HardwareKind::Graphics), &vec![]);
    assert!(none_indexed.is_empty());
}

#[test]
fn kind_filter_excludes_other_kinds() {
    let db = nvidia_database();
    let found = db.resolve(&vec![pci(0x10de, 0x1381)], Some(HardwareKind::Audio), &vec![]);
    assert!(found.is_empty());
    let tagged = db.resolve(&vec![pci(0x10de, 0x1381)], None, &strings(&["beta"]));
    assert!(tagged.is_empty());
}

#[test]
fn empty_query_returns_unconditional_setups_only() {
    let db = generate_database_inner(vec![
        setup(
            HardwareKind::Graphics,
            HardwareList::Pci(PciIdList { vendor: 0x10de, devices: vec![0x1381] }),
            vec![option("nvidia", 0, &[], &["nvidia"])],
        ),
        setup(
            HardwareKind::Audio,
            HardwareList::Each(vec![]),
            vec![option("sof", 1, &["firmware"], &["sof-firmware"]), option("alsa", 2, &[], &["alsa"])],
        ),
        setup(HardwareKind::Ethernet, hybrid(), vec![option("r8168", 0, &[], &["r8168"])]),
    ]);
    let found = db.resolve(&vec![], None, &vec![]);
    assert_eq!(
        found,
        vec![
            ResolvedOption { hardware_kind: HardwareKind::Audio, setup_id: 2, option_id: 2 },
            ResolvedOption { hardware_kind: HardwareKind::Audio, setup_id: 2, option_id: 3 },
        ]
    );
    // the unconditional setup is reached by no identifier key, yet the
    // index-assisted path still considers it
    assert_eq!(db.resolve_indexed(&vec![], None, &vec![]), found);
    let with_device = vec![pci(0x10de, 0x1381)];
    assert_eq!(db.resolve_indexed(&with_device, None, &vec![]), db.resolve(&with_device, None, &vec![]));
    assert_eq!(option_ids(&db.resolve_indexed(&with_device, None, &vec![])), vec![1, 2, 3]);
}

#[test]
fn full_scan_and_index_agree() {
    let db = generate_database_inner(vec![
        setup(
            HardwareKind::Graphics,
            HardwareList::Pci(PciIdList { vendor: 0x10de, devices: vec![0x1381, 0x1392] }),
            vec![option("nvidia", 0, &["proprietary"], &["nvidia"]), option("nouveau", 1, &["free"], &["xf86-video-nouveau"])],
        ),
        setup(HardwareKind::Graphics, hybrid(), vec![option("prime", 0, &["proprietary"], &["nvidia-prime"])]),
        setup(
            HardwareKind::Wireless,
            HardwareList::Usb(UsbIdList { vendor: 0x0bda, devices: vec![0x8179] }),
            vec![option("rtl", 0, &[], &["rtl8188eu"])],
        ),
    ]);
    let queries: Vec<Vec<HardwareId>> = vec![
        vec![],
        vec![pci(0x10de, 0x1392)],
        vec![pci(0x10de, 0x1381), usb(0x8086, 0x1234)],
        vec![usb(0x0bda, 0x8179), pci(0x1234, 0x5678)],
        vec![usb(0x10de, 0x1381)],
    ];
    for present in &queries {
        for kind in [None, Some(HardwareKind::Graphics), Some(HardwareKind::Wireless)] {
            for tags in [strings(&[]), strings(&["proprietary"])] {
                assert_eq!(db.resolve(present, kind, &tags), db.resolve_indexed(present, kind, &tags));
            }
        }
    }
    let both = db.resolve(&vec![pci(0x10de, 0x1381), usb(0x8086, 0x1234)], None, &strings(&["proprietary"]));
    assert_eq!(option_ids(&both), vec![1, 3]);
}

#[test]
fn ids_are_distinct_and_reproducible() {
    let catalog = || {
        vec![
            setup(
                HardwareKind::Graphics,
                HardwareList::Pci(PciIdList { vendor: 0x10de, devices: vec![0x1381] }),
                vec![option("a", 0, &[], &["a"]), option("b", 1, &[], &["b"])],
            ),
            setup(HardwareKind::Audio, HardwareList::Each(vec![]), vec![]),
            setup(
                HardwareKind::Graphics,
                HardwareList::Pci(PciIdList { vendor: 0x10de, devices: vec![0x1381, 0x1392] }),
                vec![option("c", 0, &[], &["c"])],
            ),
        ]
    };
    let first = generate_database_inner(catalog());
    let second = generate_database_inner(catalog());
    assert_eq!(first.setup_id_to_option_ids, vec![vec![1, 2], vec![], vec![3]]);
    assert_eq!(first.setup_id_to_option_ids, second.setup_id_to_option_ids);
    assert_eq!(first.option_id_to_option, vec![(0, 0), (0, 1), (2, 0)]);
    assert_eq!(first.option_id_to_option, second.option_id_to_option);
    assert_eq!(first.kind_to_setup_ids.graphics, vec![1, 3]);
    assert_eq!(first.kind_to_setup_ids.audio, vec![2]);
    assert_eq!(first.kind_to_option_ids.graphics, vec![1, 2, 3]);
    assert!(first.kind_to_option_ids.audio.is_empty());
    let key = PciId { vendor: 0x10de, device: 0x1381 }.packed();
    assert_eq!(first.pci_id_to_setup_ids.get(&key), Some(&vec![1, 3]));
    assert_eq!(second.pci_id_to_setup_ids.get(&key), Some(&vec![1, 3]));
    let key2 = PciId { vendor: 0x10de, device: 0x1392 }.packed();
    assert_eq!(first.pci_id_to_setup_ids.get(&key2), Some(&vec![3]));
    assert!(first.usb_id_to_setup_ids.is_empty());
}

#[test]
fn records_are_found_by_id() {
    let db = nvidia_database();
    assert!(db.option(0).is_none());
    assert!(db.option(2).is_none());
    assert_eq!(db.option(1).unwrap().name, "nvidia");
    assert_eq!(db.setup(1).unwrap().hardware_kind, HardwareKind::Graphics);
    assert!(db.setup(2).is_none());
}

#[test]
fn empty_catalog_resolves_to_nothing() {
    let db = generate_database_inner(vec![]);
    assert!(db.resolve(&vec![pci(1, 2)], None, &vec![]).is_empty());
    assert!(db.resolve_indexed(&vec![pci(1, 2)], None, &vec![]).is_empty());
    assert!(db.setup_id_to_setup.is_empty());
    assert!(db.option_id_to_option.is_empty());
    assert!(db.pci_id_to_setup_ids.is_empty());
}

#[test]
fn largest_identifiers_are_indexed() {
    let db = generate_database_inner(vec![setup(
        HardwareKind::Wireless,
        HardwareList::Usb(UsbIdList { vendor: 0xffff, devices: vec![0xffff, 0] }),
        vec![option("w", u32::MAX, &[], &["w"])],
    )]);
    let key = PciId::new(0xffff, 0xffff).packed();
    assert_eq!(key, u32::MAX);
    assert_eq!(db.usb_id_to_setup_ids.get(&key), Some(&vec![1]));
    assert_eq!(db.usb_id_to_setup_ids.get(&0xffff0000), Some(&vec![1]));
    assert!(db.pci_id_to_setup_ids.get(&key).is_none());
    assert_eq!(option_ids(&db.resolve_indexed(&vec![usb(0xffff, 0)], None, &vec![])), vec![1]);
    assert!(db.resolve_indexed(&vec![pci(0xffff, 0xffff)], None, &vec![]).is_empty());
}

#[test]
fn duplicate_devices_index_a_setup_once() {
    let db = generate_database_inner(vec![setup(
        HardwareKind::Graphics,
        HardwareList::Each(vec![
            HardwareListInner::Pci(PciIdList { vendor: 0x10de, devices: vec![0x1381, 0x1381] }),
            HardwareListInner::Pci(PciIdList { vendor: 0x10de, devices: vec![0x1381] }),
        ]),
        vec![option("n", 0, &[], &["n"])],
    )]);
    let key = PciId::new(0x10de, 0x1381).packed();
    assert_eq!(db.pci_id_to_setup_ids.get(&key), Some(&vec![1]));
}
