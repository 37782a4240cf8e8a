use theme_cleaner::cleanup::{mode_of_flags, plan_cleanup, CleanupMode};
use theme_cleaner::liquid::parse_liquid_file;
use theme_cleaner::refs::{aggregate, derive_identifier, reconcile, Unused};
use theme_cleaner::template::{TemplateJson, TemplateSection};
use theme_cleaner::text::{base_name, has_extension};

#[test]
fn identifier_derivation_round_trip() {
    assert_eq!(derive_identifier("foo.liquid"), "foo");
    assert_eq!(derive_identifier("foo"), "foo");
    assert_eq!(derive_identifier("hero-banner.liquid"), "hero-banner");
}

#[test]
fn base_name_takes_the_final_path_component() {
    assert_eq!(base_name("theme/snippets/foo.liquid"), "foo.liquid");
    assert_eq!(base_name("foo.liquid"), "foo.liquid");
    assert!(!base_name("a/b/c").contains('/'));
}

#[test]
fn extension_filter_skips_files_without_extension() {
    assert!(has_extension("foo.liquid", "liquid"));
    assert!(has_extension("a.b.json", "json"));
    assert!(!has_extension("foo", "liquid"));
    assert!(!has_extension("foo.json", "liquid"));
    assert!(!has_extension(".liquid", "liquid"));
}

#[test]
fn orphan_fragment_reported_unused() {
    // fragments folder: header, footer, orphan; header renders footer; a
    // layout renders header.
    let header = parse_liquid_file("header.liquid", "{% render 'footer' %}");
    let footer = parse_liquid_file("footer.liquid", "");
    let orphan = parse_liquid_file("orphan.liquid", "");
    let layout = parse_liquid_file("theme.liquid", "{% render 'header' %}");
    let files = vec![layout, header, footer, orphan];
    let used = aggregate(&files, &vec![]);
    let inventory = vec![
        "header.liquid".to_string(),
        "footer.liquid".to_string(),
        "orphan.liquid".to_string(),
    ];
    let unused = reconcile(&inventory, &vec![], &used);
    assert_eq!(unused.fragments.len(), 1);
    assert!(unused.fragments.contains(&"orphan".to_string()));
    assert!(unused.sections.is_empty());
}

#[test]
fn fragment_referenced_only_by_unused_fragment_still_counts_used() {
    // b renders a, but nothing renders b: single-hop rule keeps a used.
    let a = parse_liquid_file("a.liquid", "");
    let b = parse_liquid_file("b.liquid", "{% render 'a' %}");
    let files = vec![a, b];
    let used = aggregate(&files, &vec![]);
    let inventory = vec!["a.liquid".to_string(), "b.liquid".to_string()];
    let unused = reconcile(&inventory, &vec![], &used);
    assert_eq!(unused.fragments.len(), 1);
    assert!(unused.fragments.contains(&"b".to_string()));
    assert!(!unused.fragments.contains(&"a".to_string()));
}

#[test]
fn section_declared_by_explicit_type_is_used() {
    // sections folder: hero, ghost; one page-template declares
    // {"sections": {"main": {"type": "hero"}}, "order": ["main"]}.
    let manifest = TemplateJson {
        sections: vec![(
            "main".to_string(),
            TemplateSection { _type: Some("hero".to_string()) },
        )],
        order: Some(vec!["main".to_string()]),
    };
    let used = aggregate(&vec![], &vec![manifest]);
    let sections_on_disk = vec!["hero.liquid".to_string(), "ghost.liquid".to_string()];
    let unused = reconcile(&vec![], &sections_on_disk, &used);
    assert_eq!(unused.sections.len(), 1);
    assert!(unused.sections.contains(&"ghost".to_string()));
}

#[test]
fn section_declared_by_key_alone_is_used() {
    let manifest = TemplateJson {
        sections: vec![("hero".to_string(), TemplateSection { _type: None })],
        order: None,
    };
    let used = aggregate(&vec![], &vec![manifest]);
    let sections_on_disk = vec!["hero.liquid".to_string()];
    let unused = reconcile(&vec![], &sections_on_disk, &used);
    assert!(unused.sections.is_empty());
}

#[test]
fn section_directive_marks_section_used() {
    let layout = parse_liquid_file("theme.liquid", "{% section 'announcement' %}");
    let used = aggregate(&vec![layout], &vec![]);
    let sections_on_disk = vec!["announcement.liquid".to_string()];
    let unused = reconcile(&vec![], &sections_on_disk, &used);
    assert!(unused.sections.is_empty());
}

#[test]
fn asset_references_are_not_reconciled() {
    // An include reference names an asset, not a fragment: it must not mark
    // a fragment of the same name used.
    let layout = parse_liquid_file("theme.liquid", "{% include 'logo' %}");
    let used = aggregate(&vec![layout], &vec![]);
    let fragments_on_disk = vec!["logo.liquid".to_string()];
    let unused = reconcile(&fragments_on_disk, &vec![], &used);
    assert_eq!(unused.fragments, vec!["logo".to_string()]);
}

#[test]
fn mode_selection_from_flags() {
    assert_eq!(mode_of_flags(false, false, false), CleanupMode::Report);
    assert_eq!(mode_of_flags(true, false, false), CleanupMode::DeleteBoth);
    assert_eq!(mode_of_flags(false, true, false), CleanupMode::DeleteFragments);
    assert_eq!(mode_of_flags(false, false, true), CleanupMode::DeleteSections);
    assert_eq!(mode_of_flags(false, true, true), CleanupMode::DeleteBoth);
}

#[test]
fn report_mode_plans_no_deletions() {
    let unused = Unused {
        fragments: vec!["orphan".to_string()],
        sections: vec!["ghost".to_string()],
    };
    let plan = plan_cleanup(&unused, CleanupMode::Report);
    assert!(plan.fragment_deletions.is_empty());
    assert!(plan.section_deletions.is_empty());
}

#[test]
fn delete_modes_with_empty_unused_lists_plan_zero_deletions() {
    let unused = Unused { fragments: vec![], sections: vec![] };
    let plan = plan_cleanup(&unused, CleanupMode::DeleteBoth);
    assert!(plan.fragment_deletions.is_empty());
    assert!(plan.section_deletions.is_empty());
}

#[test]
fn delete_plans_name_each_category_folder() {
    let unused = Unused {
        fragments: vec!["orphan".to_string()],
        sections: vec!["ghost".to_string()],
    };
    let both = plan_cleanup(&unused, CleanupMode::DeleteBoth);
    assert_eq!(both.fragment_deletions, vec!["snippets/orphan.liquid".to_string()]);
    assert_eq!(both.section_deletions, vec!["sections/ghost.liquid".to_string()]);
    let fragments_only = plan_cleanup(&unused, CleanupMode::DeleteFragments);
    assert_eq!(
        fragments_only.fragment_deletions,
        vec!["snippets/orphan.liquid".to_string()]
    );
    assert!(fragments_only.section_deletions.is_empty());
    let sections_only = plan_cleanup(&unused, CleanupMode::DeleteSections);
    assert!(sections_only.fragment_deletions.is_empty());
    assert_eq!(
        sections_only.section_deletions,
        vec!["sections/ghost.liquid".to_string()]
    );
}

#[test]
fn duplicate_references_do_not_disturb_reconciliation() {
    let one = parse_liquid_file("x.liquid", "{% render 'a' %}{% render 'a' %}");
    let two = parse_liquid_file("y.liquid", "{% render 'a' %}");
    let files = vec![one, two];
    let used = aggregate(&files, &vec![]);
    let inventory = vec!["a.liquid".to_string()];
    let unused = reconcile(&inventory, &vec![], &used);
    assert!(unused.fragments.is_empty());
}
