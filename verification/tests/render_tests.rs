use barowiki::model::{Error, Localization};
use barowiki::node::Element;
use barowiki::parse::parse_items;
use barowiki::render::{deconstruct_table, fabricate_table, linkify_item, price_csv, price_csv_rows};

fn elem(tag: &str, attrs: &[(&str, &str)], children: Vec<Element>) -> Element {
    Element {
        tag: tag.to_string(),
        attrs: attrs.iter().map(|(k, v)| (k.to_string(), v.to_string())).collect(),
        text: None,
        children,
    }
}

fn item_doc(items: Vec<Element>) -> Element {
    elem("root", &[], vec![elem("Items", &[], items)])
}

fn price(children: Vec<Element>) -> Element {
    elem("Price", &[("baseprice", "10")], children)
}

fn loc_price(location: &str, multiplier: Option<&str>) -> Element {
    match multiplier {
        Some(m) => elem("Price", &[("locationtype", location), ("multiplier", m)], vec![]),
        None => elem("Price", &[("locationtype", location)], vec![]),
    }
}

fn catalog(items: Vec<Element>) -> Vec<barowiki::model::Item> {
    let loc = Localization::new();
    parse_items(&vec![("items.xml".to_string(), item_doc(items))], &loc).unwrap()
}

#[test]
fn price_table_has_sorted_location_columns() {
    let items = catalog(vec![
        elem(
            "item",
            &[("identifier", "wrench"), ("name", "Wrench")],
            vec![price(vec![loc_price("outpost", Some("1.0")), loc_price("city", Some("0.9"))])],
        ),
        elem(
            "item",
            &[("identifier", "pipe"), ("name", "Pipe")],
            vec![price(vec![loc_price("city", Some("1.1"))])],
        ),
    ]);
    let rows = price_csv_rows(&items);
    assert_eq!(rows.len(), 3);
    let header: Vec<&str> = rows[0].iter().map(|s| s.as_str()).collect();
    assert_eq!(header, vec!["name", "city", "outpost"]);
    for row in &rows {
        assert_eq!(row.len(), 3);
    }
    let wrench: Vec<&str> = rows[1].iter().map(|s| s.as_str()).collect();
    assert_eq!(wrench, vec!["wrench", "0.9", "1.0"]);
    let pipe: Vec<&str> = rows[2].iter().map(|s| s.as_str()).collect();
    assert_eq!(pipe, vec!["pipe", "1.1", "1.0"]);
}

#[test]
fn price_csv_encodes_rows_as_lines() {
    let items = catalog(vec![elem(
        "item",
        &[("identifier", "wrench"), ("name", "Wrench")],
        vec![price(vec![loc_price("city", Some("0.9"))])],
    )]);
    let bytes = price_csv(&items);
    let text = String::from_utf8(bytes).unwrap();
    assert_eq!(text, "name,city\nwrench,0.9\n");
}

#[test]
fn linkify_renders_hyperlinks_with_counts() {
    let items = catalog(vec![elem(
        "item",
        &[("identifier", "wrench"), ("name", "Wrench")],
        vec![price(vec![])],
    )]);
    assert_eq!(
        linkify_item(&items, "wrench", 1, Some(30)).unwrap().as_str(),
        "{{Hyperlink|Wrench|30px}}"
    );
    assert_eq!(
        linkify_item(&items, "wrench", 3, None).unwrap().as_str(),
        "{{Hyperlink|Wrench}} (x3)"
    );
    assert_eq!(linkify_item(&items, "ghost", 1, None).unwrap_err(), Error::UnknownItem);
}

fn wrench_and_pipe() -> Vec<barowiki::model::Item> {
    catalog(vec![
        elem(
            "item",
            &[("identifier", "wrench"), ("name", "Wrench")],
            vec![price(vec![loc_price("outpost", Some("1.0")), loc_price("city", None)])],
        ),
        elem(
            "item",
            &[("identifier", "pipe"), ("name", "Pipe")],
            vec![
                price(vec![loc_price("city", Some("1.1"))]),
                elem(
                    "Fabricate",
                    &[("suitablefabricators", "fabricator")],
                    vec![
                        elem("RequiredItem", &[("identifier", "wrench")], vec![]),
                        elem("RequiredItem", &[("identifier", "wrench")], vec![]),
                    ],
                ),
                elem(
                    "Deconstruct",
                    &[("time", "10")],
                    vec![
                        elem("Item", &[("identifier", "wrench")], vec![]),
                        elem("Item", &[("identifier", "wrench")], vec![]),
                    ],
                ),
            ],
        ),
    ])
}

#[test]
fn fabrication_table_collapses_matching_deconstruction_to_a_dash() {
    let items = wrench_and_pipe();
    let table = fabricate_table(&items, "fabricator").unwrap();
    let expected = "{| class=\"wikitable sortable\" style=\"width: 50%; font-size: 90%;\"\n! style=\"width: 15%\" | Item\n! style=\"width: 30%\" | Materials to Craft \n! style=\"width: 10%\" | Time (seconds)\n! style=\"width: 15%\" | Skill \n! style=\"width: 30%\" | <abbr title=\"If different from the crafting recipe\">Deconstructs to</abbr>\n|-\n| align=\"center\" | [[File:Pipe.png| |50px|link=Pipe]] <br> [[Pipe]]\n| align=\"left-index\" | {{Hyperlink|Wrench|30px}} (x2) \n| align=\"center\" | 0\n| align=\"center\" | None\n| align=\"left-index\" | -\n|-\n|}\n";
    assert_eq!(table.as_str(), expected);
}

#[test]
fn fabrication_table_lists_differing_deconstruction_materials() {
    let items = catalog(vec![
        elem(
            "item",
            &[("identifier", "steel"), ("name", "Steel")],
            vec![price(vec![])],
        ),
        elem(
            "item",
            &[("identifier", "pipe"), ("name", "Pipe")],
            vec![
                price(vec![]),
                elem(
                    "Fabricate",
                    &[("suitablefabricators", "fabricator")],
                    vec![
                        elem("RequiredItem", &[("identifier", "steel")], vec![]),
                        elem("RequiredItem", &[("identifier", "steel")], vec![]),
                    ],
                ),
                elem(
                    "Deconstruct",
                    &[("time", "10")],
                    vec![elem("Item", &[("identifier", "steel")], vec![])],
                ),
            ],
        ),
    ]);
    let table = fabricate_table(&items, "fabricator").unwrap();
    assert!(table.contains("| align=\"left-index\" | {{Hyperlink|Steel|30px}}\n"));
    assert!(!table.contains("| align=\"left-index\" | -\n"));
}

fn wiring_catalog(or_time: &str) -> Vec<barowiki::model::Item> {
    catalog(vec![
        elem(
            "item",
            &[("identifier", "steel"), ("name", "Steel")],
            vec![price(vec![])],
        ),
        elem(
            "item",
            &[("identifier", "wire"), ("name", "Wire"), ("Tags", "wire")],
            vec![price(vec![])],
        ),
        elem(
            "item",
            &[("identifier", "andcomponent"), ("name", "AND Component"), ("Tags", "logic")],
            vec![
                price(vec![]),
                elem(
                    "Fabricate",
                    &[("suitablefabricators", "fabricator"), ("requiredtime", "5")],
                    vec![
                        elem("RequiredItem", &[("identifier", "steel")], vec![]),
                        elem("RequiredItem", &[("tag", "wire")], vec![]),
                    ],
                ),
            ],
        ),
        elem(
            "item",
            &[("identifier", "orcomponent"), ("name", "OR Component"), ("Tags", "logic")],
            vec![
                price(vec![]),
                elem(
                    "Fabricate",
                    &[("suitablefabricators", "fabricator"), ("requiredtime", or_time)],
                    vec![
                        elem("RequiredItem", &[("tag", "wire")], vec![]),
                        elem("RequiredItem", &[("identifier", "steel")], vec![]),
                    ],
                ),
            ],
        ),
    ])
}

#[test]
fn matching_group_members_collapse_into_one_row() {
    let items = wiring_catalog("5");
    let table = fabricate_table(&items, "fabricator").unwrap();
    let heading = "[[File:Wiring Components.png| |90px|link=Wiring Components]] <br> [[Wiring Components]]";
    assert_eq!(table.matches(heading).count(), 1);
    assert!(!table.contains("AND Component]]"));
    assert!(!table.contains("OR Component]]"));
}

#[test]
fn a_divergent_group_member_is_a_consistency_failure() {
    let items = wiring_catalog("6");
    assert_eq!(fabricate_table(&items, "fabricator").unwrap_err(), Error::InconsistentGroup);
}

#[test]
fn group_members_of_another_station_render_nothing() {
    let items = wiring_catalog("5");
    let table = fabricate_table(&items, "medicalfabricator").unwrap();
    assert!(!table.contains("Wiring Components"));
}

#[test]
fn unknown_material_tags_are_fatal() {
    let items = catalog(vec![elem(
        "item",
        &[("identifier", "mix"), ("name", "Mix")],
        vec![
            price(vec![]),
            elem(
                "Fabricate",
                &[("suitablefabricators", "fabricator")],
                vec![elem("RequiredItem", &[("tag", "chem")], vec![])],
            ),
        ],
    )]);
    assert_eq!(fabricate_table(&items, "fabricator").unwrap_err(), Error::UnknownTag);
}

#[test]
fn unknown_skills_are_fatal() {
    let items = catalog(vec![elem(
        "item",
        &[("identifier", "mix"), ("name", "Mix")],
        vec![
            price(vec![]),
            elem(
                "Fabricate",
                &[("suitablefabricators", "fabricator")],
                vec![elem("RequiredSkill", &[("identifier", "cooking"), ("level", "1")], vec![])],
            ),
        ],
    )]);
    assert_eq!(fabricate_table(&items, "fabricator").unwrap_err(), Error::UnknownSkill);
}

#[test]
fn unnamed_rows_are_fatal() {
    let items = catalog(vec![elem(
        "item",
        &[("identifier", "mystery")],
        vec![
            price(vec![]),
            elem("Fabricate", &[("suitablefabricators", "fabricator")], vec![]),
        ],
    )]);
    assert_eq!(fabricate_table(&items, "fabricator").unwrap_err(), Error::UnnamedItem);
}

#[test]
fn missing_material_items_are_fatal() {
    let items = catalog(vec![elem(
        "item",
        &[("identifier", "pipe"), ("name", "Pipe")],
        vec![
            price(vec![]),
            elem(
                "Fabricate",
                &[("suitablefabricators", "fabricator")],
                vec![elem("RequiredItem", &[("identifier", "ghost")], vec![])],
            ),
        ],
    )]);
    assert_eq!(fabricate_table(&items, "fabricator").unwrap_err(), Error::UnknownItem);
}

#[test]
fn deconstruction_table_lists_deconstruct_only_items() {
    let items = catalog(vec![
        elem(
            "item",
            &[("identifier", "shell"), ("name", "Shell")],
            vec![price(vec![])],
        ),
        elem(
            "item",
            &[("identifier", "egg"), ("name", "Egg")],
            vec![
                price(vec![]),
                elem(
                    "Deconstruct",
                    &[("time", "3")],
                    vec![elem("Item", &[("identifier", "shell")], vec![])],
                ),
            ],
        ),
        elem(
            "item",
            &[("identifier", "wire"), ("name", "Wire")],
            vec![
                price(vec![]),
                elem(
                    "Deconstruct",
                    &[("time", "3")],
                    vec![elem("Item", &[("identifier", "shell")], vec![])],
                ),
            ],
        ),
    ]);
    let table = deconstruct_table(&items).unwrap();
    let expected = "{| class=\"wikitable sortable\" style=\"width: 30%; font-size: 90%;\"\n! style=\"width: 40%\" | Item\n! style=\"width: 20%\" | Time (seconds)\n! style=\"width: 60%\" | Deconstructs to\n|-\n| align=\"center\" | [[File:Egg.png| |50px|link=Egg]] <br> [[Egg]]\n| align=\"center\" | 3\n| align=\"left-index\" | {{Hyperlink|Shell|30px}}\n|-\n|}\n";
    assert_eq!(table.as_str(), expected);
}

#[test]
fn deconstruction_table_uses_the_image_name_overrides() {
    let items = catalog(vec![
        elem(
            "item",
            &[("identifier", "shell"), ("name", "Shell")],
            vec![price(vec![])],
        ),
        elem(
            "item",
            &[("identifier", "peanutegg"), ("name", "Peanut Egg")],
            vec![
                price(vec![]),
                elem(
                    "Deconstruct",
                    &[("time", "3")],
                    vec![elem("Item", &[("identifier", "shell")], vec![])],
                ),
            ],
        ),
    ]);
    let table = deconstruct_table(&items).unwrap();
    assert!(table.contains("[[File:Strange Eggs.png| |50px|link=Peanut Egg]] <br> [[Peanut Egg]]"));
}

#[test]
fn end_to_end_scenario_renders_tables_and_prices() {
    let items = wrench_and_pipe();
    let table = fabricate_table(&items, "fabricator").unwrap();
    assert!(table.contains("| align=\"left-index\" | -\n"));
    assert_eq!(table.matches("|-\n").count(), 2);
    let rows = price_csv_rows(&items);
    assert_eq!(rows.len(), 3);
    let header: Vec<&str> = rows[0].iter().map(|s| s.as_str()).collect();
    assert_eq!(header, vec!["name", "city", "outpost"]);
    for row in &rows {
        assert_eq!(row.len(), 3);
    }
}

#[test]
fn each_station_gets_its_own_table() {
    let items = catalog(vec![
        elem(
            "item",
            &[("identifier", "bandage"), ("name", "Bandage")],
            vec![price(vec![])],
        ),
        elem(
            "item",
            &[("identifier", "salve"), ("name", "Salve")],
            vec![
                price(vec![]),
                elem(
                    "Fabricate",
                    &[("suitablefabricators", "medicalfabricator")],
                    vec![elem("RequiredItem", &[("identifier", "bandage")], vec![])],
                ),
            ],
        ),
    ]);
    let medical = fabricate_table(&items, "medicalfabricator").unwrap();
    assert!(medical.contains("[[Salve]]"));
    let plain = fabricate_table(&items, "fabricator").unwrap();
    assert!(!plain.contains("[[Salve]]"));
}
