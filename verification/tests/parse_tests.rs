use barowiki::model::{Error, Localization, RequiredItem};
use barowiki::node::Element;
use barowiki::parse::{
    dedup_things, parse_bool, parse_db, parse_deconstruct, parse_fabricate, parse_items,
    parse_level_resource, parse_localization, parse_prices, parse_version,
};

fn elem(tag: &str, attrs: &[(&str, &str)], children: Vec<Element>) -> Element {
    Element {
        tag: tag.to_string(),
        attrs: attrs.iter().map(|(k, v)| (k.to_string(), v.to_string())).collect(),
        text: None,
        children,
    }
}

fn text_elem(tag: &str, text: &str) -> Element {
    Element { tag: tag.to_string(), attrs: vec![], text: Some(text.to_string()), children: vec![] }
}

fn loc_with(entries: &[(&str, &str)]) -> Localization {
    let mut loc = Localization::new();
    for (k, v) in entries {
        loc.put(k.to_string(), v.to_string());
    }
    loc
}

#[test]
fn bool_attributes_are_strict() {
    assert_eq!(parse_bool("true"), Some(true));
    assert_eq!(parse_bool("false"), Some(false));
    assert_eq!(parse_bool("True"), None);
    assert_eq!(parse_bool(""), None);
}

#[test]
fn dedup_counts_in_first_occurrence_order() {
    let input = vec!["a".to_string(), "b".to_string(), "a".to_string(), "a".to_string()];
    let out = dedup_things(&input);
    let got: Vec<(&str, i32)> = out.iter().map(|(s, c)| (s.as_str(), *c)).collect();
    assert_eq!(got, vec![("a", 3), ("b", 1)]);
}

#[test]
fn dedup_keeps_distinct_materials_apart() {
    let input = vec![
        RequiredItem::Tag("wire".to_string()),
        RequiredItem::Id("wire".to_string()),
        RequiredItem::Tag("wire".to_string()),
    ];
    let out = dedup_things(&input);
    assert_eq!(out.len(), 2);
    assert!(matches!(&out[0].0, RequiredItem::Tag(t) if t == "wire"));
    assert_eq!(out[0].1, 2);
    assert!(matches!(&out[1].0, RequiredItem::Id(i) if i == "wire"));
    assert_eq!(out[1].1, 1);
}

#[test]
fn version_token_is_extracted_from_the_manifest() {
    let text = "junk {\"Barotrauma/1.2.3.4\": {}} more";
    assert_eq!(parse_version(text).unwrap().as_str(), "1.2.3.4");
    assert_eq!(parse_version("no version here"), Err(Error::MissingVersion));
    assert_eq!(parse_version("\"Barotrauma/\" empty capture"), Err(Error::MissingVersion));
}

#[test]
fn localization_reads_text_children_of_infotexts() {
    let root = elem(
        "root",
        &[],
        vec![elem(
            "infotexts",
            &[],
            vec![
                text_elem("entityname.wrench", "Wrench"),
                text_elem("entitydescription.wrench", "A tool."),
                elem("empty", &[], vec![]),
                text_elem("entityname.wrench", "Wrench again"),
            ],
        )],
    );
    let loc = parse_localization(&root).unwrap();
    assert_eq!(loc.item_name_opt("wrench").unwrap().as_str(), "Wrench again");
    assert_eq!(loc.item_description("wrench").unwrap().as_str(), "A tool.");
    assert_eq!(loc.item_name_opt("pipe"), None);
    assert_eq!(loc.item_description("pipe"), Err(Error::MissingDescription));
    let bad = elem("root", &[], vec![]);
    assert_eq!(parse_localization(&bad).unwrap_err(), Error::MissingInfotexts);
}

#[test]
fn sold_inference_treats_min_stock_as_sold() {
    let e = elem(
        "Price",
        &[("baseprice", "100")],
        vec![elem("Price", &[("locationtype", "city"), ("minavailable", "3")], vec![])],
    );
    let p = parse_prices(&e).unwrap();
    let entry = p.get("city").unwrap();
    assert!(entry.sold);
}

#[test]
fn sold_inference_spreads_sold_everywhere() {
    let e = elem(
        "Price",
        &[("baseprice", "100"), ("soldeverywhere", "true")],
        vec![
            elem("Price", &[("locationtype", "city")], vec![]),
            elem("Price", &[("locationtype", "mine")], vec![]),
        ],
    );
    let p = parse_prices(&e).unwrap();
    assert!(p.get("city").unwrap().sold);
    assert!(p.get("mine").unwrap().sold);
    assert_eq!(p.sold_everywhere, Some(true));
    let (mult, sold) = p.resolve("outpost");
    assert_eq!((mult.neg, mult.mant, mult.scale), (false, 1, 0));
    assert!(sold);
}

#[test]
fn unrecorded_locations_resolve_to_the_default() {
    let e = elem(
        "Price",
        &[("baseprice", "100")],
        vec![elem("Price", &[("locationtype", "city")], vec![])],
    );
    let p = parse_prices(&e).unwrap();
    let (mult, sold) = p.resolve("outpost");
    assert_eq!((mult.neg, mult.mant, mult.scale), (false, 1, 0));
    assert!(!sold);
}

#[test]
fn sold_inference_defaults_to_sold() {
    let e = elem(
        "Price",
        &[("baseprice", "5")],
        vec![elem("Price", &[("locationtype", "outpost")], vec![])],
    );
    let p = parse_prices(&e).unwrap();
    assert!(p.get("outpost").unwrap().sold);
}

#[test]
fn sold_conflicts_are_fatal() {
    let e = elem(
        "Price",
        &[("baseprice", "5")],
        vec![elem(
            "Price",
            &[("locationtype", "city"), ("minavailable", "1"), ("sold", "false")],
            vec![],
        )],
    );
    assert_eq!(parse_prices(&e).unwrap_err(), Error::SoldConflict);
}

#[test]
fn price_multipliers_default_to_one() {
    let e = elem(
        "Price",
        &[("baseprice", "5")],
        vec![
            elem("Price", &[("locationtype", "city"), ("multiplier", "0.9")], vec![]),
            elem("Price", &[("locationtype", "mine")], vec![]),
        ],
    );
    let p = parse_prices(&e).unwrap();
    let city = p.get("city").unwrap();
    assert_eq!((city.multiplier.neg, city.multiplier.mant, city.multiplier.scale), (false, 9, 1));
    let mine = p.get("mine").unwrap();
    assert_eq!((mine.multiplier.neg, mine.multiplier.mant, mine.multiplier.scale), (false, 1, 0));
    let missing = elem("Price", &[], vec![]);
    assert_eq!(parse_prices(&missing).unwrap_err(), Error::MissingBasePrice);
    let bad = elem("Price", &[("baseprice", "ten")], vec![]);
    assert_eq!(parse_prices(&bad).unwrap_err(), Error::InvalidInt);
    let noloc = elem("Price", &[("baseprice", "5")], vec![elem("Price", &[], vec![])]);
    assert_eq!(parse_prices(&noloc).unwrap_err(), Error::MissingLocationType);
}

#[test]
fn fabricate_collects_and_dedups_materials() {
    let e = elem(
        "Fabricate",
        &[("suitablefabricators", "fabricator"), ("requiredtime", "20"), ("amount", "2")],
        vec![
            elem("RequiredItem", &[("identifier", "steel")], vec![]),
            elem("Item", &[("tag", "wire")], vec![]),
            elem("RequiredItem", &[("identifier", "steel")], vec![]),
            elem("RequiredSkill", &[("identifier", "mechanical"), ("level", "30")], vec![]),
        ],
    );
    let f = parse_fabricate(&e).unwrap();
    assert_eq!(f.time, 20);
    assert_eq!(f.out_amount, 2);
    assert_eq!(f.fabricator.as_str(), "fabricator");
    assert_eq!(f.mats.len(), 2);
    assert!(matches!(&f.mats[0].0, RequiredItem::Id(i) if i == "steel"));
    assert_eq!(f.mats[0].1, 2);
    assert!(matches!(&f.mats[1].0, RequiredItem::Tag(t) if t == "wire"));
    assert_eq!(f.mats[1].1, 1);
    assert_eq!(f.skills.len(), 1);
    assert_eq!(f.skills[0].0.as_str(), "mechanical");
    assert_eq!(f.skills[0].1, 30);
}

#[test]
fn fabricate_defaults_and_failures() {
    let e = elem("Fabricate", &[("suitablefabricators", "fabricator")], vec![]);
    let f = parse_fabricate(&e).unwrap();
    assert_eq!((f.time, f.out_amount), (0, 1));
    let nofab = elem("Fabricate", &[], vec![]);
    assert_eq!(parse_fabricate(&nofab).unwrap_err(), Error::MissingFabricator);
    let badmat = elem(
        "Fabricate",
        &[("suitablefabricators", "fabricator")],
        vec![elem("RequiredItem", &[], vec![])],
    );
    assert_eq!(parse_fabricate(&badmat).unwrap_err(), Error::MaterialWithoutKey);
    let bothkeys = elem(
        "Fabricate",
        &[("suitablefabricators", "fabricator")],
        vec![elem("RequiredItem", &[("identifier", "steel"), ("tag", "wire")], vec![])],
    );
    assert_eq!(parse_fabricate(&bothkeys).unwrap_err(), Error::AmbiguousMaterialKey);
    let badskill = elem(
        "Fabricate",
        &[("suitablefabricators", "fabricator")],
        vec![elem("RequiredSkill", &[("identifier", "helm")], vec![])],
    );
    assert_eq!(parse_fabricate(&badskill).unwrap_err(), Error::MissingSkillLevel);
    let noid = elem(
        "Fabricate",
        &[("suitablefabricators", "fabricator")],
        vec![elem("RequiredSkill", &[("level", "10")], vec![])],
    );
    assert_eq!(parse_fabricate(&noid).unwrap_err(), Error::MissingSkillIdentifier);
}

#[test]
fn deconstruct_sorts_materials_by_identifier() {
    let e = elem(
        "Deconstruct",
        &[("time", "10")],
        vec![
            elem("Item", &[("identifier", "zinc")], vec![]),
            elem("Item", &[("identifier", "aluminium")], vec![]),
            elem("Item", &[("identifier", "zinc")], vec![]),
        ],
    );
    let d = parse_deconstruct(&e).unwrap();
    assert_eq!(d.time, 10);
    let got: Vec<(&str, i32)> = d.mats.iter().map(|(s, c)| (s.as_str(), *c)).collect();
    assert_eq!(got, vec![("aluminium", 1), ("zinc", 2)]);
    let notime = elem("Deconstruct", &[], vec![]);
    assert_eq!(parse_deconstruct(&notime).unwrap_err(), Error::MissingDeconstructTime);
    let tagmat = elem(
        "Deconstruct",
        &[("time", "1")],
        vec![elem("Item", &[("tag", "wire")], vec![])],
    );
    assert_eq!(parse_deconstruct(&tagmat).unwrap_err(), Error::MaterialWithoutKey);
}

#[test]
fn level_resource_reads_default_and_overrides() {
    let e = elem(
        "LevelResource",
        &[],
        vec![
            elem("Commonness", &[("commonness", "0.5")], vec![]),
            elem("Commonness", &[("commonness", "0.8"), ("leveltype", "ridgebasic")], vec![]),
        ],
    );
    let lr = parse_level_resource(&e).unwrap();
    assert_eq!(
        (lr.commonness_default.neg, lr.commonness_default.mant, lr.commonness_default.scale),
        (false, 5, 1)
    );
    assert_eq!(lr.commonness.len(), 1);
    assert_eq!(lr.commonness[0].0.as_str(), "ridgebasic");
    let dupdefault = elem(
        "LevelResource",
        &[],
        vec![
            elem("Commonness", &[("commonness", "0.5")], vec![]),
            elem("Commonness", &[("commonness", "0.6")], vec![]),
        ],
    );
    assert_eq!(parse_level_resource(&dupdefault).unwrap_err(), Error::DuplicateDefaultCommonness);
    let nodefault = elem("LevelResource", &[], vec![]);
    assert_eq!(parse_level_resource(&nodefault).unwrap_err(), Error::MissingDefaultCommonness);
    let badvalue = elem(
        "LevelResource",
        &[],
        vec![elem("Commonness", &[("commonness", "lots")], vec![])],
    );
    assert_eq!(parse_level_resource(&badvalue).unwrap_err(), Error::InvalidDecimal);
    let missing = elem("LevelResource", &[], vec![elem("Commonness", &[], vec![])]);
    assert_eq!(parse_level_resource(&missing).unwrap_err(), Error::MissingCommonness);
}

fn item_doc(items: Vec<Element>) -> Element {
    elem("root", &[], vec![elem("Items", &[], items)])
}

fn priced_item(attrs: &[(&str, &str)], mut extra_children: Vec<Element>) -> Element {
    let mut children = vec![elem("Price", &[("baseprice", "10")], vec![])];
    children.append(&mut extra_children);
    elem("item", attrs, children)
}

#[test]
fn name_resolution_prefers_the_explicit_attribute() {
    let loc = loc_with(&[("entityname.wrench", "Localized Wrench")]);
    let docs = vec![(
        "tools.xml".to_string(),
        item_doc(vec![priced_item(&[("identifier", "wrench"), ("name", "Plain Wrench")], vec![])]),
    )];
    let items = parse_items(&docs, &loc).unwrap();
    assert_eq!(items[0].name.as_deref(), Some("Plain Wrench"));
}

#[test]
fn name_resolution_falls_back_to_localization() {
    let loc = loc_with(&[
        ("entityname.wrench2", "Heavy Wrench"),
        ("entityname.pipe", "Pipe"),
    ]);
    let docs = vec![(
        "tools.xml".to_string(),
        item_doc(vec![
            priced_item(
                &[("identifier", "wrench"), ("name", ""), ("nameidentifier", "wrench2")],
                vec![],
            ),
            priced_item(&[("identifier", "pipe")], vec![]),
            priced_item(&[("identifier", "unknown")], vec![]),
        ]),
    )];
    let items = parse_items(&docs, &loc).unwrap();
    assert_eq!(items[0].name.as_deref(), Some("Heavy Wrench"));
    assert_eq!(items[1].name.as_deref(), Some("Pipe"));
    assert_eq!(items[2].name, None);
}

#[test]
fn items_without_a_price_are_not_cataloged() {
    let loc = loc_with(&[]);
    let docs = vec![(
        "tools.xml".to_string(),
        item_doc(vec![
            elem("item", &[("identifier", "debugitem")], vec![]),
            priced_item(&[("identifier", "wrench")], vec![]),
        ]),
    )];
    let items = parse_items(&docs, &loc).unwrap();
    assert_eq!(items.len(), 1);
    assert_eq!(items[0].id.as_str(), "wrench");
}

#[test]
fn the_manifest_document_is_excluded_by_name() {
    let loc = loc_with(&[]);
    let docs = vec![
        (
            "uniqueitems.xml".to_string(),
            item_doc(vec![priced_item(&[("identifier", "special")], vec![])]),
        ),
        (
            "tools.xml".to_string(),
            item_doc(vec![priced_item(&[("identifier", "wrench")], vec![])]),
        ),
    ];
    let items = parse_items(&docs, &loc).unwrap();
    assert_eq!(items.len(), 1);
    assert_eq!(items[0].id.as_str(), "wrench");
}

#[test]
fn a_priced_item_without_identifier_is_fatal() {
    let loc = loc_with(&[]);
    let docs = vec![("tools.xml".to_string(), item_doc(vec![priced_item(&[], vec![])]))];
    assert_eq!(parse_items(&docs, &loc).unwrap_err(), Error::MissingIdentifier);
}

#[test]
fn items_record_tags_icons_and_recipes() {
    let loc = loc_with(&[]);
    let docs = vec![(
        "tools.xml".to_string(),
        item_doc(vec![priced_item(
            &[("identifier", "detector"), ("name", "Detector"), ("Tags", "smallitem,sensor")],
            vec![
                elem("InventoryIcon", &[], vec![]),
                elem(
                    "Fabricate",
                    &[("suitablefabricators", "fabricator")],
                    vec![elem("RequiredItem", &[("identifier", "steel")], vec![])],
                ),
                elem(
                    "Deconstruct",
                    &[("time", "5")],
                    vec![elem("Item", &[("identifier", "steel")], vec![])],
                ),
            ],
        )]),
    )];
    let items = parse_items(&docs, &loc).unwrap();
    let item = &items[0];
    let tags: Vec<&str> = item.tags.iter().map(|t| t.as_str()).collect();
    assert_eq!(tags, vec!["smallitem", "sensor"]);
    assert!(item.has_inventory_icon);
    assert!(!item.has_sprite);
    assert!(item.fabricate.is_some());
    assert!(item.deconstruct.is_some());
    assert!(item.level_resource.is_none());
}

#[test]
fn parse_db_bundles_version_catalog_and_localization() {
    let version_text = "x \"Barotrauma/9.9\" y";
    let loc_root = elem(
        "root",
        &[],
        vec![elem("infotexts", &[], vec![text_elem("entityname.pipe", "Pipe")])],
    );
    let docs = vec![(
        "tools.xml".to_string(),
        item_doc(vec![priced_item(&[("identifier", "pipe")], vec![])]),
    )];
    let db = parse_db(version_text, &loc_root, &docs).unwrap();
    assert_eq!(db.version.as_str(), "9.9");
    assert_eq!(db.items.len(), 1);
    assert_eq!(db.items[0].name.as_deref(), Some("Pipe"));
    assert_eq!(
        parse_db("no token", &loc_root, &docs).unwrap_err(),
        Error::MissingVersion
    );
}

#[test]
fn malformed_boolean_attributes_are_fatal() {
    let e = elem(
        "Price",
        &[("baseprice", "5"), ("soldeverywhere", "yes")],
        vec![],
    );
    assert_eq!(parse_prices(&e).unwrap_err(), Error::InvalidBool);
}
