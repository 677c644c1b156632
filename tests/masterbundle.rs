use torture_importer::masterbundle::{
    Manifest, MasterBundle, MasterBundleData, DISALLOWED_PATHS, MASTERBUNDLE_FILE,
};

fn manifest(entries: &[&str]) -> Manifest {
    Manifest {
        assets: entries.iter().map(|e| e.to_string()).collect(),
    }
}

fn data(name: &str, prefix: &str) -> MasterBundleData {
    MasterBundleData {
        name: name.to_string(),
        asset_prefix: prefix.to_string(),
    }
}

#[test]
fn scenario_denylisted_first_segment_is_dropped() {
    let d = MasterBundle::parse_masterbundle_data(
        "Asset_Bundle_Name MyBundle\nAsset_Prefix assets/MyBundle/\n",
    );
    assert_eq!(d.name, "MyBundle");
    assert_eq!(d.asset_prefix, "assets/MyBundle/");
    let m = manifest(&[
        "assets/MyBundle/Objects/foo.dat",
        "assets/MyBundle/Items/sword.dat",
        "assets/MyBundle/Items/sword.png",
    ]);
    let bundle = MasterBundle::new(d, &m);
    assert_eq!(bundle.name, "MyBundle");
    assert_eq!(bundle.assets, vec!["Items/sword.dat", "Items/sword.png"]);
    assert_eq!(bundle.get_paths(), vec!["Items"]);
}

#[test]
fn scenario_prefix_mismatch_is_dropped() {
    let m = manifest(&["other/MyBundle/Items/x.dat"]);
    let assets = MasterBundle::parse_assets(&m, "assets/MyBundle/");
    assert!(assets.is_empty());
    let bundle = MasterBundle::new(data("MyBundle", "assets/MyBundle/"), &m);
    assert!(bundle.get_paths().is_empty());
}

#[test]
fn scenario_shared_parent_appears_once() {
    let m = manifest(&["assets/MyBundle/Items/sword.dat", "assets/MyBundle/Items/shield.dat"]);
    let bundle = MasterBundle::new(data("MyBundle", "assets/MyBundle/"), &m);
    assert_eq!(bundle.get_paths(), vec!["Items"]);
}

#[test]
fn descriptor_missing_fields_are_empty() {
    let d = MasterBundle::parse_masterbundle_data("Something else\n\n   \nGarbage\n");
    assert_eq!(d.name, "");
    assert_eq!(d.asset_prefix, "");
    let d = MasterBundle::parse_masterbundle_data("");
    assert_eq!(d.name, "");
    assert_eq!(d.asset_prefix, "");
}

#[test]
fn descriptor_last_occurrence_wins() {
    let d = MasterBundle::parse_masterbundle_data(
        "Asset_Bundle_Name First\nAsset_Bundle_Name Second\nAsset_Prefix a/\nAsset_Prefix b/",
    );
    assert_eq!(d.name, "Second");
    assert_eq!(d.asset_prefix, "b/");
}

#[test]
fn descriptor_field_without_value_is_empty() {
    let d = MasterBundle::parse_masterbundle_data("Asset_Bundle_Name Kept\nAsset_Bundle_Name\n");
    assert_eq!(d.name, "");
}

#[test]
fn descriptor_tolerates_tabs_and_crlf() {
    let d = MasterBundle::parse_masterbundle_data(
        "GUID 123\r\n\tAsset_Bundle_Name\tTabbed  extra\r\nAsset_Prefix   x/y\r\n",
    );
    assert_eq!(d.name, "Tabbed");
    assert_eq!(d.asset_prefix, "x/y");
}

#[test]
fn descriptor_field_names_are_exact() {
    let d = MasterBundle::parse_masterbundle_data("asset_bundle_name lower\nAsset_Bundle_NameX y\n");
    assert_eq!(d.name, "");
}

#[test]
fn every_denylisted_segment_is_dropped() {
    assert_eq!(
        DISALLOWED_PATHS,
        ["Objects", "Effects", "Terrain", "Assets", "Grass", "Trees", "PBSNPCS", "Logs"]
    );
    for n in DISALLOWED_PATHS {
        let entry = format!("p/{}/thing/x.dat", n);
        let m = manifest(&[entry.as_str()]);
        assert!(MasterBundle::parse_assets(&m, "p").is_empty(), "{}", n);
    }
}

#[test]
fn denylist_is_case_sensitive_and_first_segment_only() {
    let m = manifest(&["p/objects/a.dat", "p/Items/Objects/b.dat", "p/ObjectsX/c.dat"]);
    let assets = MasterBundle::parse_assets(&m, "p/");
    assert_eq!(assets, vec!["objects/a.dat", "Items/Objects/b.dat", "ObjectsX/c.dat"]);
}

#[test]
fn prefix_matches_whole_segments_only() {
    let m = manifest(&["assets/MyBundleX/Items/a.dat", "assets/MyBundle/Items/b.dat"]);
    let assets = MasterBundle::parse_assets(&m, "assets/MyBundle");
    assert_eq!(assets, vec!["Items/b.dat"]);
}

#[test]
fn empty_prefix_keeps_every_entry() {
    let m = manifest(&["Items/a.dat", "top.dat"]);
    let assets = MasterBundle::parse_assets(&m, "");
    assert_eq!(assets, vec!["Items/a.dat", "top.dat"]);
}

#[test]
fn entry_equal_to_prefix_survives_without_directory() {
    let m = manifest(&["assets/MyBundle/"]);
    let bundle = MasterBundle::new(data("MyBundle", "assets/MyBundle"), &m);
    assert_eq!(bundle.assets, vec![""]);
    assert!(bundle.get_paths().is_empty());
}

#[test]
fn repeated_separators_are_ignored() {
    let m = manifest(&["assets//MyBundle/Items//a.dat"]);
    let assets = MasterBundle::parse_assets(&m, "assets/MyBundle/");
    assert_eq!(assets, vec!["Items/a.dat"]);
}

#[test]
fn top_level_files_and_current_directory_give_no_directory() {
    let bundle = MasterBundle {
        name: "B".to_string(),
        assets: vec!["top.dat".to_string(), "./x.dat".to_string(), "".to_string()],
    };
    assert!(bundle.get_paths().is_empty());
}

#[test]
fn directories_are_sorted_and_unique() {
    let bundle = MasterBundle {
        name: "B".to_string(),
        assets: vec![
            "b/x.dat".to_string(),
            "a/c/y.dat".to_string(),
            "a/z.dat".to_string(),
            "b/w.dat".to_string(),
            "a-b/v.dat".to_string(),
            "a/c/u.dat".to_string(),
        ],
    };
    assert_eq!(bundle.get_paths(), vec!["a", "a-b", "a/c", "b"]);
}

#[test]
fn resolving_twice_gives_the_same_directories() {
    let m = manifest(&[
        "assets/B/Zeta/a.dat",
        "assets/B/Alpha/b.dat",
        "assets/B/Alpha/Deep/c.dat",
        "assets/B/Trees/d.dat",
    ]);
    let first = MasterBundle::new(data("B", "assets/B/"), &m).get_paths();
    let second = MasterBundle::new(data("B", "assets/B/"), &m).get_paths();
    assert_eq!(first, second);
    assert_eq!(first, vec!["Alpha", "Alpha/Deep", "Zeta"]);
}

#[test]
fn manifest_is_named_after_the_bundle() {
    assert_eq!(MasterBundle::manifest_file_name("MyBundle"), "MyBundle.manifest");
    assert_eq!(MASTERBUNDLE_FILE, "MasterBundle.dat");
}

#[test]
fn non_ascii_paths_are_kept_intact() {
    let m = manifest(&["pré/Ünïcode/日本/a.dat"]);
    let bundle = MasterBundle::new(data("B", "pré"), &m);
    assert_eq!(bundle.assets, vec!["Ünïcode/日本/a.dat"]);
    assert_eq!(bundle.get_paths(), vec!["Ünïcode/日本"]);
}

#[test]
fn descriptor_splits_on_unicode_whitespace() {
    let d = MasterBundle::parse_masterbundle_data(
        "Asset_Bundle_Name\u{a0}X\nAsset_Prefix\u{3000}a/b\u{2003}tail\n",
    );
    assert_eq!(d.name, "X");
    assert_eq!(d.asset_prefix, "a/b");
}

#[test]
fn absolute_entry_needs_absolute_prefix() {
    let m = manifest(&["/a/b"]);
    assert!(MasterBundle::parse_assets(&m, "a").is_empty());
    assert_eq!(MasterBundle::parse_assets(&m, "/a"), vec!["b"]);
    assert_eq!(MasterBundle::parse_assets(&m, ""), vec!["/a/b"]);
}

#[test]
fn interior_current_directory_segments_are_ignored() {
    let m = manifest(&["assets/./B/Items/x.dat", "assets/B/./Objects/x.dat"]);
    assert_eq!(MasterBundle::parse_assets(&m, "assets/B"), vec!["Items/x.dat"]);
}

#[test]
fn leading_current_directory_must_match() {
    let m = manifest(&["./assets/B/Items/x.dat", "assets/B/Items/y.dat"]);
    assert_eq!(MasterBundle::parse_assets(&m, "./assets/B"), vec!["Items/x.dat"]);
    assert_eq!(MasterBundle::parse_assets(&m, "assets/B"), vec!["Items/y.dat"]);
}

#[test]
fn parent_is_the_path_without_its_last_component() {
    let bundle = MasterBundle {
        name: "B".to_string(),
        assets: vec![
            "a/b/".to_string(),
            "a//x".to_string(),
            "a/./y".to_string(),
            "c/d/./".to_string(),
            "/top".to_string(),
            "/".to_string(),
        ],
    };
    assert_eq!(bundle.get_paths(), vec!["/", "a", "c"]);
}
