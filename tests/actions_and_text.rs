use archlinux_driver_manager::actions::{
    install_inner, list_inner, GenerateDatabaseActionOutput, InstalledPackage, ListActionOutput,
};
use archlinux_driver_manager::catalog::{DriverOption, HardwareList, HardwareSetup, PciIdList, ScriptKind, ConfigFormat};
use archlinux_driver_manager::commandline::{output_kind_of, CommandlineFlags, CommandlineOutputKind, GlobalArguments};
use archlinux_driver_manager::error::Error;
use archlinux_driver_manager::hardware::{hex_u16, key_bytes, key_from_bytes, HardwareId, HardwareKind, ParsePciIdError, PciId};
use archlinux_driver_manager::index::generate_database_inner;
use archlinux_driver_manager::tags::{convert_tag, convert_tags};

fn option(name: &str, priority: u32, tags: &[&str], packages: &[&str]) -> DriverOption {
    DriverOption {
        order_of_priority: priority,
        name: name.to_string(),
        description: String::new(),
        tags: tags.iter().map(|t| t.to_string()).collect(),
        pre_install: None,
        packages: packages.iter().map(|p| p.to_string()).collect(),
        post_install: None,
    }
}

fn installed(name: &str, version: &str) -> InstalledPackage {
    InstalledPackage { name: name.to_string(), version: version.to_string() }
}

fn graphics_catalog() -> Vec<HardwareSetup> {
    vec![
        HardwareSetup {
            name: String::from("nvidia"),
            description: String::new(),
            hardware_kind: HardwareKind::Graphics,
            hardware_list: HardwareList::Pci(PciIdList { vendor: 0x10de, devices: vec![0x1381] }),
            driver_options: vec![
                option("nouveau", 5, &["free"], &["xf86-video-nouveau", "mesa"]),
                option("nvidia", 1, &["proprietary"], &["nvidia", "nvidia-utils"]),
                option("nvidia-lts", 1, &["proprietary"], &["nvidia-lts"]),
            ],
        },
        HardwareSetup {
            name: String::from("realtek"),
            description: String::new(),
            hardware_kind: HardwareKind::Ethernet,
            hardware_list: HardwareList::Pci(PciIdList { vendor: 0x10ec, devices: vec![0x8168] }),
            driver_options: vec![option("r8168", 0, &[], &["r8168"])],
        },
    ]
}

fn gpu() -> HardwareId {
    HardwareId::Pci(PciId { vendor: 0x10de, device: 0x1381 })
}

#[test]
fn install_chooses_least_priority_first() {
    let db = generate_database_inner(graphics_catalog());
    let have = vec![installed("mesa", "1"), installed("nvidia", "2"), installed("vim", "9")];
    let plan = install_inner(&db, &vec![gpu()], HardwareKind::Graphics, &vec![], &have).unwrap();
    assert_eq!(plan.packages_to_install, vec!["nvidia".to_string(), "nvidia-utils".to_string()]);
    assert_eq!(plan.packages_to_remove, vec!["mesa".to_string()]);
}

#[test]
fn install_respects_tags() {
    let db = generate_database_inner(graphics_catalog());
    let plan = install_inner(&db, &vec![gpu()], HardwareKind::Graphics, &vec!["free".to_string()], &vec![]).unwrap();
    assert_eq!(plan.packages_to_install, vec!["xf86-video-nouveau".to_string(), "mesa".to_string()]);
    assert!(plan.packages_to_remove.is_empty());
}

#[test]
fn install_without_match_has_nothing_to_do() {
    let db = generate_database_inner(graphics_catalog());
    let r = install_inner(&db, &vec![], HardwareKind::Graphics, &vec![], &vec![]);
    assert!(matches!(r, Err(Error::NothingToInstall)));
    let r = install_inner(&db, &vec![gpu()], HardwareKind::Audio, &vec![], &vec![]);
    assert!(matches!(r, Err(Error::NothingToInstall)));
}

#[test]
fn list_groups_installed_packages_by_kind() {
    let db = generate_database_inner(graphics_catalog());
    let have = vec![installed("r8168", "8"), installed("mesa", "1"), installed("nvidia", "2"), installed("vim", "9")];
    let all = list_inner(&db, &None, &vec![], &have);
    assert_eq!(all.inner.len(), 4);
    assert_eq!(all.inner[0].hardware_kind, HardwareKind::Graphics);
    let names: Vec<&str> = all.inner[0].packages.iter().map(|p| p.name.as_str()).collect();
    assert_eq!(names, vec!["mesa", "nvidia"]);
    assert_eq!(all.inner[1].hardware_kind, HardwareKind::Ethernet);
    assert_eq!(all.inner[1].packages[0].version, "8");
    assert!(all.inner[2].packages.is_empty());
    let tagged = list_inner(&db, &Some(HardwareKind::Graphics), &vec!["proprietary".to_string()], &have);
    assert_eq!(tagged.inner.len(), 1);
    let names: Vec<&str> = tagged.inner[0].packages.iter().map(|p| p.name.as_str()).collect();
    assert_eq!(names, vec!["nvidia"]);
    assert!(ListActionOutput::new().inner.is_empty());
}

#[test]
fn driver_packages_follow_option_order() {
    let db = generate_database_inner(graphics_catalog());
    let groups = db.all_driver_packages(Some(HardwareKind::Graphics), &vec!["proprietary".to_string()]);
    assert_eq!(groups.len(), 1);
    assert_eq!(groups[0].packages, vec!["nvidia", "nvidia-utils", "nvidia-lts"]);
}

#[test]
fn kind_names_and_aliases() {
    assert_eq!(HardwareKind::all_to_strings(), vec!["graphics", "ethernet", "wireless", "sound"]);
    assert_eq!(HardwareKind::Audio.name(), "audio");
    assert_eq!(HardwareKind::from_str("GPU").unwrap(), HardwareKind::Graphics);
    assert_eq!(HardwareKind::from_str("WiFi").unwrap(), HardwareKind::Wireless);
    assert_eq!(HardwareKind::from_str("Sound").unwrap(), HardwareKind::Audio);
    assert_eq!(HardwareKind::from_str("lan").unwrap(), HardwareKind::Ethernet);
    match HardwareKind::from_str("Printer") {
        Err(Error::EnumValue { value, enum_name, allowed_values }) => {
            assert_eq!(value, "Printer");
            assert_eq!(enum_name, "HardwareKind");
            assert_eq!(allowed_values.len(), 25);
            assert_eq!(allowed_values[24], "AUDIO");
            assert_eq!(allowed_values[0], "graphics");
        }
        _ => panic!("expected an enumeration error"),
    }
}

#[test]
fn pci_ids_parse_from_hex_pairs() {
    let p = PciId::parse("10de:1381").unwrap();
    assert_eq!(p, PciId { vendor: 0x10de, device: 0x1381 });
    assert_eq!(PciId::parse("10DE:+ffff").unwrap(), PciId::new(0x10de, 0xffff));
    assert!(matches!(PciId::parse("10de1381"), Err(ParsePciIdError::MissingColon)));
    assert!(matches!(PciId::parse("xyz:1381"), Err(ParsePciIdError::InvalidVendorId(_))));
    assert!(matches!(PciId::parse(":1381"), Err(ParsePciIdError::InvalidVendorId(_))));
    assert!(matches!(PciId::parse("10de:10000"), Err(ParsePciIdError::InvalidDeviceId(_))));
    assert!(matches!(PciId::parse("10de:13:81"), Err(ParsePciIdError::InvalidDeviceId(_))));
    let r = PciId::range("0000:0000", "10de:ffff").unwrap();
    assert_eq!(r.start, PciId::new(0, 0));
    assert_eq!(r.end, PciId::new(0x10de, 0xffff));
    let ri = PciId::range_inclusive("8086:0001", "8086:00ff").unwrap();
    assert_eq!(*ri.start(), PciId::new(0x8086, 1));
    assert_eq!(*ri.end(), PciId::new(0x8086, 0xff));
    assert!(PciId::range("8086", "8086:00ff").is_err());
}

#[test]
fn keys_are_packed_and_stored_big_endian() {
    let key = PciId::new(0x10de, 0x1381).packed();
    assert_eq!(key, 0x10de1381);
    assert_eq!(key_bytes(key), vec![0x10, 0xde, 0x13, 0x81]);
    assert_eq!(key_from_bytes(&[0x10, 0xde, 0x13, 0x81]), Some(0x10de1381));
    assert_eq!(key_from_bytes(&[1, 2, 3]), None);
}

#[test]
fn tags_are_normalised() {
    assert_eq!(convert_tag("  open-source_driver \t"), "open source driver");
    assert_eq!(convert_tag("stable"), "stable");
    assert_eq!(convert_tag(""), "");
    assert_eq!(
        convert_tags(&vec!["a-b".to_string(), " c_d ".to_string()]),
        vec!["a b".to_string(), "c d".to_string()]
    );
}

#[test]
fn output_flags_pick_a_format() {
    assert_eq!(output_kind_of(false, false, false), CommandlineOutputKind::Regular);
    assert_eq!(output_kind_of(true, true, true), CommandlineOutputKind::Json);
    assert_eq!(output_kind_of(false, true, true), CommandlineOutputKind::Plain);
    assert_eq!(output_kind_of(false, false, true), CommandlineOutputKind::Debug);
    let flags = GlobalArguments { json_flag: false, plain_flag: true, debug_flag: false };
    assert_eq!(flags.output_kind(), CommandlineOutputKind::Plain);
    assert_eq!(flags.selected_output(), CommandlineOutputKind::Plain);
}

#[test]
fn defaults_and_reports() {
    assert_eq!(GenerateDatabaseActionOutput::new().success_message, "Database generated successfully...");
    assert_eq!(ScriptKind::default(), ScriptKind::Shell);
    assert_eq!(ConfigFormat::default(), ConfigFormat::Ini);
}

#[test]
fn hex_numbers_fit_sixteen_bits() {
    assert_eq!(hex_u16("10de"), Some(0x10de));
    assert_eq!(hex_u16("FFFF"), Some(0xffff));
    assert_eq!(hex_u16("+1"), Some(1));
    assert_eq!(hex_u16("10000"), None);
    assert_eq!(hex_u16(""), None);
    assert_eq!(hex_u16("+"), None);
    assert_eq!(hex_u16("-1"), None);
    assert_eq!(hex_u16("0x10"), None);
}

#[test]
fn install_breaks_priority_ties_by_name() {
    let db = generate_database_inner(vec![HardwareSetup {
        name: String::from("tie"),
        description: String::new(),
        hardware_kind: HardwareKind::Graphics,
        hardware_list: HardwareList::Pci(PciIdList { vendor: 0x10de, devices: vec![0x1381] }),
        driver_options: vec![
            option("zeta", 2, &[], &["zeta"]),
            option("beta", 2, &[], &["beta"]),
            option("alpha", 3, &[], &["alpha"]),
            option("beta", 2, &[], &["beta-again"]),
        ],
    }]);
    let plan = install_inner(&db, &vec![gpu()], HardwareKind::Graphics, &vec![], &vec![]).unwrap();
    assert_eq!(plan.packages_to_install, vec!["beta".to_string()]);
}

#[test]
fn ranges_report_the_first_failing_end() {
    assert!(matches!(PciId::range("10de", "zz:1"), Err(ParsePciIdError::MissingColon)));
    assert!(matches!(PciId::range("10de:1", "zz:1"), Err(ParsePciIdError::InvalidVendorId(_))));
    assert!(matches!(PciId::range_inclusive("10de:1", "10de:zz"), Err(ParsePciIdError::InvalidDeviceId(_))));
    assert!(matches!(PciId::range_inclusive("q:1", "10de"), Err(ParsePciIdError::InvalidVendorId(_))));
}

#[test]
fn install_breaks_full_ties_by_tags_then_packages() {
    let db = generate_database_inner(vec![HardwareSetup {
        name: String::from("tie"),
        description: String::new(),
        hardware_kind: HardwareKind::Graphics,
        hardware_list: HardwareList::Pci(PciIdList { vendor: 0x10de, devices: vec![0x1381] }),
        driver_options: vec![
            option("same", 1, &["stable", "proprietary"], &["first"]),
            option("same", 1, &["proprietary", "beta"], &["second"]),
            option("same", 1, &["proprietary"], &["third-b"]),
            option("same", 1, &["proprietary", "proprietary"], &["third-a"]),
        ],
    }]);
    // sorted tag sets: {proprietary, stable}, {beta, proprietary}, {proprietary}, {proprietary};
    // {beta, proprietary} is least; the first and last two compare after it
    let plan = install_inner(&db, &vec![gpu()], HardwareKind::Graphics, &vec![], &vec![]).unwrap();
    assert_eq!(plan.packages_to_install, vec!["second".to_string()]);
    let plan = install_inner(&db, &vec![gpu()], HardwareKind::Graphics, &vec!["stable".to_string()], &vec![]).unwrap();
    assert_eq!(plan.packages_to_install, vec!["first".to_string()]);
}

#[test]
fn equal_tags_fall_through_to_packages() {
    let db = generate_database_inner(vec![HardwareSetup {
        name: String::from("tie"),
        description: String::new(),
        hardware_kind: HardwareKind::Graphics,
        hardware_list: HardwareList::Pci(PciIdList { vendor: 0x10de, devices: vec![0x1381] }),
        driver_options: vec![
            option("same", 1, &["proprietary"], &["third-b"]),
            option("same", 1, &["proprietary", "proprietary"], &["third-a"]),
        ],
    }]);
    let plan = install_inner(&db, &vec![gpu()], HardwareKind::Graphics, &vec![], &vec![]).unwrap();
    assert_eq!(plan.packages_to_install, vec!["third-a".to_string()]);
}
