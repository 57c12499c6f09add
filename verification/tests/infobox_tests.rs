use barowiki::infobox::{format_mineral, infoboxes_text};
use barowiki::model::Error;
use barowiki::node::Element;
use barowiki::parse::parse_db;

fn elem(tag: &str, attrs: &[(&str, &str)], children: Vec<Element>) -> Element {
    Element {
        tag: tag.to_string(),
        attrs: attrs.iter().map(|(k, v)| (k.to_string(), v.to_string())).collect(),
        text: None,
        children,
    }
}

fn text_elem(tag: &str, text: &str) -> Element {
    Element { tag: tag.to_string(), attrs: vec![], text: Some(text.to_string()), children: vec![] }
}

fn five_locations(extra_city: &[(&str, &str)]) -> Vec<Element> {
    let mut city_attrs: Vec<(String, String)> = vec![("locationtype".to_string(), "city".to_string())];
    for (k, v) in extra_city {
        city_attrs.push((k.to_string(), v.to_string()));
    }
    vec![
        elem("Price", &[("locationtype", "outpost"), ("multiplier", "0.9")], vec![]),
        Element {
            tag: "Price".to_string(),
            attrs: city_attrs,
            text: None,
            children: vec![],
        },
        elem("Price", &[("locationtype", "research")], vec![]),
        elem("Price", &[("locationtype", "military")], vec![]),
        elem("Price", &[("locationtype", "mine")], vec![]),
    ]
}

fn silver_db(city_extra: &[(&str, &str)], level_children: Vec<Element>) -> barowiki::model::Db {
    let version_text = "\"Barotrauma/1.0.0.0\"";
    let loc_root = elem(
        "root",
        &[],
        vec![elem(
            "infotexts",
            &[],
            vec![text_elem("entitydescription.silver", "A shiny metal.")],
        )],
    );
    let docs = vec![(
        "minerals.xml".to_string(),
        elem(
            "root",
            &[],
            vec![elem(
                "Items",
                &[],
                vec![elem(
                    "item",
                    &[("identifier", "silver"), ("name", "Silver"), ("Tags", "ore,smallitem")],
                    {
                        let mut children = vec![elem(
                            "Price",
                            &[("baseprice", "120")],
                            five_locations(city_extra),
                        )];
                        children.push(elem("LevelResource", &[], level_children));
                        children
                    },
                )],
            )],
        ),
    )];
    parse_db(version_text, &loc_root, &docs).unwrap()
}

#[test]
fn the_infobox_reports_identity_prices_and_commonness() {
    let db = silver_db(
        &[("sold", "false")],
        vec![
            elem("Commonness", &[("commonness", "0.5")], vec![]),
            elem("Commonness", &[("commonness", "0.8"), ("leveltype", "ridgebasic")], vec![]),
            elem("Commonness", &[("commonness", "0.25"), ("leveltype", "plateaubasic")], vec![]),
            elem("Commonness", &[("commonness", "1"), ("leveltype", "greatseabasic")], vec![]),
            elem("Commonness", &[("commonness", "0.5"), ("leveltype", "wastesbasic")], vec![]),
        ],
    );
    let text = infoboxes_text(&db).unwrap();
    let expected = "\n\n ===  Silver  ===  \n\n{{Main|Minerals}}\n\n{{Version|1.0.0.0}}\n{{Items infobox\n| identifier = silver\n| name = Silver\n| image = Silver.png\n| caption = ''A shiny metal.''\n| image2 = Silver_Mineral.png\n| caption2 = Sprite in the environment\n| icon = Silver.png\n| sprite = Silver_Mineral.png\n| baseprice = 120\n| outpostmultiplier = 0.9\n| citymultiplier = 1.0\n| cityunbuyable = true\n| researchmultiplier = 1.0\n| militarymultiplier = 1.0\n| minemultiplier = 1.0\n| noreq = Yes\n}}\n{{Gatherable Materials\n| name = Silver\n| kind = mineral\n| comonness_coldcaverns = 50\n| comonness_europanridge = 80\n| comonness_theaphoticplateau = 25\n| comonness_thegreatsea = 100\n| comonness_hydrothermalwastes = 50\n}}";
    assert_eq!(text.as_str(), expected);
}

#[test]
fn an_item_sold_nowhere_is_globally_unbuyable() {
    let mut db = silver_db(
        &[],
        vec![elem("Commonness", &[("commonness", "0.5")], vec![])],
    );
    for entry in &mut db.items[0].prices.locations {
        entry.sold = false;
    }
    let text = infoboxes_text(&db).unwrap();
    assert!(text.contains("\n| unbuyable = true"));
    assert!(!text.contains("cityunbuyable"));
    assert!(text.contains("\n| comonness = 0.5"));
}

#[test]
fn items_without_the_ore_tag_render_no_infobox() {
    let mut db = silver_db(
        &[],
        vec![elem("Commonness", &[("commonness", "0.5")], vec![])],
    );
    db.items[0].tags = vec!["smallitem".to_string()];
    let text = infoboxes_text(&db).unwrap();
    assert_eq!(text.as_str(), "");
}

#[test]
fn an_unrecorded_report_location_defaults_to_one_and_not_sold() {
    let mut db = silver_db(
        &[],
        vec![elem("Commonness", &[("commonness", "0.5")], vec![])],
    );
    db.items[0].prices.locations.retain(|e| e.location != "mine");
    let text = infoboxes_text(&db).unwrap();
    assert!(text.contains("\n| minemultiplier = 1.0"));
    assert!(text.contains("\n| mineunbuyable = true"));
    assert!(!text.contains("\n| unbuyable = true"));
}

#[test]
fn a_sold_everywhere_item_is_sold_at_unrecorded_locations() {
    let mut db = silver_db(
        &[],
        vec![elem("Commonness", &[("commonness", "0.5")], vec![])],
    );
    db.items[0].prices.locations.retain(|e| e.location != "mine");
    db.items[0].prices.sold_everywhere = Some(true);
    for entry in &mut db.items[0].prices.locations {
        entry.sold = true;
    }
    let text = infoboxes_text(&db).unwrap();
    assert!(text.contains("\n| minemultiplier = 1.0"));
    assert!(!text.contains("unbuyable"));
}

#[test]
fn a_missing_override_level_is_fatal() {
    let db = silver_db(
        &[],
        vec![
            elem("Commonness", &[("commonness", "0.5")], vec![]),
            elem("Commonness", &[("commonness", "0.8"), ("leveltype", "ridgebasic")], vec![]),
        ],
    );
    assert_eq!(infoboxes_text(&db).unwrap_err(), Error::MissingCommonness);
}

#[test]
fn format_mineral_reports_the_default_when_no_overrides_exist() {
    let db = silver_db(
        &[],
        vec![elem("Commonness", &[("commonness", "0.5")], vec![])],
    );
    let block = format_mineral(&db.items[0]).unwrap();
    assert_eq!(
        block.as_str(),
        "{{Gatherable Materials\n| name = Silver\n| kind = mineral\n| comonness = 0.5\n}}"
    );
}

#[test]
fn an_ore_item_made_elsewhere_than_the_fabricator_is_fatal() {
    let mut db = silver_db(
        &[],
        vec![elem("Commonness", &[("commonness", "0.5")], vec![])],
    );
    db.items[0].fabricate = Some(barowiki::model::Fabricate {
        out_amount: 1,
        skills: vec![],
        time: 0,
        mats: vec![],
        fabricator: "medicalfabricator".to_string(),
    });
    assert_eq!(infoboxes_text(&db).unwrap_err(), Error::UnexpectedFabricator);
}

#[test]
fn an_ore_recipe_reports_only_the_first_skill() {
    let mut db = silver_db(
        &[],
        vec![elem("Commonness", &[("commonness", "0.5")], vec![])],
    );
    db.items[0].fabricate = Some(barowiki::model::Fabricate {
        out_amount: 1,
        skills: vec![("mechanical".to_string(), 10), ("electrical".to_string(), 20)],
        time: 0,
        mats: vec![],
        fabricator: "fabricator".to_string(),
    });
    let text = infoboxes_text(&db).unwrap();
    assert!(text.contains("\n| fabricatorskill = mechanical"));
    assert!(text.contains("\n| fabricatorskilllevel = 10"));
    assert!(!text.contains("electrical"));
}

#[test]
fn an_ore_recipe_lists_fabrication_fields() {
    let mut db = silver_db(
        &[],
        vec![elem("Commonness", &[("commonness", "0.5")], vec![])],
    );
    db.items[0].fabricate = Some(barowiki::model::Fabricate {
        out_amount: 2,
        skills: vec![("mechanical".to_string(), 10)],
        time: 7,
        mats: vec![(barowiki::model::RequiredItem::Id("silver".to_string()), 3)],
        fabricator: "fabricator".to_string(),
    });
    db.items[0].deconstruct = Some(barowiki::model::Deconstruct {
        time: 4,
        mats: vec![("silver".to_string(), 1)],
    });
    let text = infoboxes_text(&db).unwrap();
    assert!(text.contains("\n| fabricator = Yes"));
    assert!(text.contains("\n| fabricatedamount = 2"));
    assert!(text.contains("\n| fabricatortime = 7"));
    assert!(text.contains("\n| fabricatorskill = mechanical"));
    assert!(text.contains("\n| fabricatorskilllevel = 10"));
    assert!(text.contains("\n| fabricatormaterials = {{Hyperlink|Silver}} (x3)"));
    assert!(text.contains("\n| deconstructor = Yes"));
    assert!(text.contains("\n| deconstructortime = 4"));
    assert!(text.contains("\n| deconstructormaterials = {{Hyperlink|Silver}}"));
}

#[test]
fn an_ore_item_without_level_resource_has_no_mineral_block() {
    let mut db = silver_db(
        &[],
        vec![elem("Commonness", &[("commonness", "0.5")], vec![])],
    );
    db.items[0].level_resource = None;
    assert_eq!(infoboxes_text(&db).unwrap_err(), Error::MissingLevelResource);
}

#[test]
fn format_mineral_rejects_unrecognized_categories() {
    let mut db = silver_db(
        &[],
        vec![elem("Commonness", &[("commonness", "0.5")], vec![])],
    );
    db.items[0].tags = vec!["smallitem".to_string()];
    assert_eq!(format_mineral(&db.items[0]).unwrap_err(), Error::UnknownCategory);
}

#[test]
fn an_overflowing_commonness_percentage_is_fatal() {
    let db = silver_db(
        &[],
        vec![
            elem("Commonness", &[("commonness", "0.5")], vec![]),
            elem(
                "Commonness",
                &[("commonness", "18446744073709551615"), ("leveltype", "ridgebasic")],
                vec![],
            ),
            elem("Commonness", &[("commonness", "0.5"), ("leveltype", "plateaubasic")], vec![]),
            elem("Commonness", &[("commonness", "0.5"), ("leveltype", "greatseabasic")], vec![]),
            elem("Commonness", &[("commonness", "0.5"), ("leveltype", "wastesbasic")], vec![]),
        ],
    );
    assert_eq!(infoboxes_text(&db).unwrap_err(), Error::CommonnessOverflow);
}
