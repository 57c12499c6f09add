//! The infobox renderer: one key-value block per recognized item,
//! currently covering the ore category, with an appended gatherable-
//! materials sub-block.

use vstd::prelude::*;

use crate::decimal::{format_decimal, spec_format_decimal, spec_times100_round, times100_round, Decimal};
use crate::model::{Db, Error, Item, SpecDb, SpecItem, SpecLevelResource};
use crate::text::{str_eq, u64_to_string};

verus! {

/// The level-type keys and the biome names their commonness rows are
/// published under.
pub open spec fn spec_levels() -> Seq<(Seq<char>, Seq<char>)> {
    seq![
        ("coldcaverns"@, "coldcaverns"@),
        ("ridgebasic"@, "europanridge"@),
        ("plateaubasic"@, "theaphoticplateau"@),
        ("greatseabasic"@, "thegreatsea"@),
        ("wastesbasic"@, "hydrothermalwastes"@),
    ]
}

/// The level table as runtime data.
fn levels() -> (r: Vec<(String, String)>)
    ensures
        r.deep_view() == spec_levels(),
{
    let mut r: Vec<(String, String)> = Vec::new();
    r.push((String::from_str("coldcaverns"), String::from_str("coldcaverns")));
    r.push((String::from_str("ridgebasic"), String::from_str("europanridge")));
    r.push((String::from_str("plateaubasic"), String::from_str("theaphoticplateau")));
    r.push((String::from_str("greatseabasic"), String::from_str("thegreatsea")));
    r.push((String::from_str("wastesbasic"), String::from_str("hydrothermalwastes")));
    proof {
        assert(r.deep_view() =~= spec_levels());
    }
    r
}

/// A commonness value published as a percentage: one hundred times
/// the value, rounded, as decimal text.
pub open spec fn spec_commonness_percent(c: Decimal) -> Result<Seq<char>, Error> {
    match spec_times100_round(c) {
        None => Err(Error::CommonnessOverflow),
        Some((neg, mag)) => Ok(
            (if neg {
                "-"@
            } else {
                Seq::<char>::empty()
            }) + crate::text::spec_u64_str(mag as int),
        ),
    }
}

/// Renders a commonness value as a percentage.
fn commonness_percent(c: &Decimal) -> (r: Result<String, Error>)
    requires
        c.wf(),
    ensures
        crate::model::rview(r) == spec_commonness_percent(*c),
{
    match times100_round(c) {
        None => Err(Error::CommonnessOverflow),
        Some((neg, mag)) => {
            let mut s = if neg {
                String::from_str("-")
            } else {
                String::new()
            };
            s.append(u64_to_string(mag).as_str());
            Ok(s)
        },
    }
}

/// A recorded commonness override of a well-formed level resource is
/// canonical.
proof fn lemma_commonness_lookup_wf(lr: SpecLevelResource, level: Seq<char>)
    requires
        lr.wf(),
    ensures
        match lr.lookup(level) {
            Some(c) => c.wf(),
            None => true,
        },
{
    lemma_commonness_lookup_wf_rec(lr.commonness, level);
}

proof fn lemma_commonness_lookup_wf_rec(s: Seq<(Seq<char>, Decimal)>, level: Seq<char>)
    requires
        forall|i: int| 0 <= i < s.len() ==> (#[trigger] s[i]).1.wf(),
    ensures
        match crate::model::spec_commonness_lookup(s, level) {
            Some(c) => c.wf(),
            None => true,
        },
    decreases s.len(),
{
    if s.len() > 0 && s[0].0 != level {
        assert(forall|i: int| 0 <= i < s.drop_first().len() ==> (#[trigger] s.drop_first()[i])
            == s[i + 1]);
        lemma_commonness_lookup_wf_rec(s.drop_first(), level);
    }
}

/// The per-biome commonness rows, from level index `i` on: levels
/// other than the cold caverns must carry an explicit override, the
/// cold caverns fall back to the default.
pub open spec fn spec_biome_fields(lr: SpecLevelResource, i: int) -> Result<
    Seq<(Seq<char>, Seq<char>)>,
    Error,
>
    decreases (if i < spec_levels().len() {
        spec_levels().len() - i
    } else {
        0
    }),
{
    if i < 0 || i >= spec_levels().len() {
        Ok(Seq::empty())
    } else {
        let (level, biome) = spec_levels()[i];
        let com = if level != "coldcaverns"@ {
            match lr.lookup(level) {
                None => Err(Error::MissingCommonness),
                Some(c) => Ok(c),
            }
        } else {
            match lr.lookup(level) {
                None => Ok(lr.commonness_default),
                Some(c) => Ok(c),
            }
        };
        match com {
            Err(e) => Err(e),
            Ok(c) => match spec_commonness_percent(c) {
                Err(e) => Err(e),
                Ok(v) => match spec_biome_fields(lr, i + 1) {
                    Err(e) => Err(e),
                    Ok(rest) => Ok(seq![("comonness_"@ + biome, v)] + rest),
                },
            },
        }
    }
}

/// The gatherable-materials fields of an ore item: its name, its
/// kind, and either the single default commonness or the per-biome
/// percentages.
pub open spec fn spec_mineral_fields(item: SpecItem) -> Result<Seq<(Seq<char>, Seq<char>)>, Error> {
    match item.name {
        None => Err(Error::UnnamedItem),
        Some(nm) => if !item.tags.contains("ore"@) {
            Err(Error::UnknownCategory)
        } else {
            match item.level_resource {
                None => Err(Error::MissingLevelResource),
                Some(lr) => {
                    let base = seq![("name"@, nm), ("kind"@, "mineral"@)];
                    if lr.commonness.len() == 0 {
                        Ok(base.push(("comonness"@, spec_format_decimal(lr.commonness_default))))
                    } else {
                        match spec_biome_fields(lr, 0) {
                            Err(e) => Err(e),
                            Ok(rest) => Ok(base + rest),
                        }
                    }
                },
            }
        },
    }
}

/// The gatherable-materials block of an ore item.
pub open spec fn spec_mineral_block(item: SpecItem) -> Result<Seq<char>, Error> {
    match spec_mineral_fields(item) {
        Err(e) => Err(e),
        Ok(fields) => Ok(
            "{{Gatherable Materials\n"@ + crate::text::spec_join(
                fields.map_values(|f: (Seq<char>, Seq<char>)| "| "@ + f.0 + " = "@ + f.1),
                "\n"@,
            ) + "\n}}"@,
        ),
    }
}

/// Renders the gatherable-materials block of an ore item.
pub fn format_mineral(item: &Item) -> (r: Result<String, Error>)
    requires
        item@.wf(),
    ensures
        crate::model::rview(r) == spec_mineral_block(item@),
{
    let nm = match &item.name {
        None => {
            return Err(Error::UnnamedItem);
        },
        Some(n) => n,
    };
    if !item.has_tag("ore") {
        return Err(Error::UnknownCategory);
    }
    let lr = match &item.level_resource {
        None => {
            return Err(Error::MissingLevelResource);
        },
        Some(x) => x,
    };
    proof {
        assert(item@.level_resource == Some(lr@));
        assert(lr@.wf());
    }
    let mut fields: Vec<(String, String)> = Vec::new();
    fields.push((String::from_str("name"), nm.clone()));
    fields.push((String::from_str("kind"), String::from_str("mineral")));
    let ghost base = seq![("name"@, nm@), ("kind"@, "mineral"@)];
    proof {
        assert(fields.deep_view() =~= base);
    }
    if lr.commonness.len() == 0 {
        fields.push((String::from_str("comonness"), format_decimal(&lr.commonness_default)));
        proof {
            assert(fields.deep_view() =~= base.push(
                ("comonness"@, spec_format_decimal(lr@.commonness_default)),
            ));
        }
    } else {
        let lv = levels();
        let mut i: usize = 0;
        while i < lv.len()
            invariant
                i <= lv@.len(),
                lv.deep_view() == spec_levels(),
                lv@.len() == spec_levels().len(),
                item@.level_resource == Some(lr@),
                item@.name == Some(nm@),
                item@.tags.contains("ore"@),
                lr@.commonness.len() != 0,
                lr@.wf(),
                base == seq![("name"@, nm@), ("kind"@, "mineral"@)],
                spec_biome_fields(lr@, i as int) matches Ok(rest) ==> spec_biome_fields(lr@, 0)
                    is Ok && fields.deep_view() + rest == base + spec_biome_fields(lr@, 0)->Ok_0,
                spec_biome_fields(lr@, i as int) is Err ==> spec_biome_fields(lr@, 0)
                    == spec_biome_fields(lr@, i as int),
            decreases lv@.len() - i,
        {
            proof {
                assert(lv.deep_view()[i as int] == spec_levels()[i as int]);
                assert(lv.deep_view()[i as int] == (lv@[i as int].0@, lv@[i as int].1@));
            }
            let level = &lv[i].0;
            let biome = &lv[i].1;
            let com = if !str_eq(level.as_str(), "coldcaverns") {
                match lr.get(level.as_str()) {
                    None => {
                        proof {
                            assert(spec_biome_fields(lr@, i as int) == Err::<
                                Seq<(Seq<char>, Seq<char>)>,
                                Error,
                            >(Error::MissingCommonness));
                        }
                        return Err(Error::MissingCommonness);
                    },
                    Some(c) => c,
                }
            } else {
                match lr.get(level.as_str()) {
                    None => lr.commonness_default,
                    Some(c) => c,
                }
            };
            proof {
                lemma_commonness_lookup_wf(lr@, level@);
                assert(com.wf());
            }
            let v = match commonness_percent(&com) {
                Err(e) => {
                    proof {
                        assert(spec_biome_fields(lr@, i as int) == Err::<
                            Seq<(Seq<char>, Seq<char>)>,
                            Error,
                        >(e));
                    }
                    return Err(e);
                },
                Ok(x) => x,
            };
            let mut key = String::from_str("comonness_");
            key.append(biome.as_str());
            let ghost f0 = fields.deep_view();
            fields.push((key, v));
            proof {
                let kv = ("comonness_"@ + biome@, spec_commonness_percent(com)->Ok_0);
                assert(fields.deep_view() =~= f0.push(kv));
                if spec_biome_fields(lr@, i as int + 1) is Ok {
                    let rest = spec_biome_fields(lr@, i as int + 1)->Ok_0;
                    assert(spec_biome_fields(lr@, i as int) == Ok::<
                        Seq<(Seq<char>, Seq<char>)>,
                        Error,
                    >(seq![kv] + rest));
                    assert(f0 + (seq![kv] + rest) =~= fields.deep_view() + rest);
                } else {
                    assert(spec_biome_fields(lr@, i as int) == spec_biome_fields(
                        lr@,
                        i as int + 1,
                    ));
                }
            }
            i = i + 1;
        }
        proof {
            assert(spec_biome_fields(lr@, lv@.len() as int) == Ok::<
                Seq<(Seq<char>, Seq<char>)>,
                Error,
            >(Seq::empty()));
            assert(fields.deep_view() + Seq::<(Seq<char>, Seq<char>)>::empty()
                =~= fields.deep_view());
        }
    }
    let mut lines: Vec<String> = Vec::new();
    let ghost fv = fields.deep_view();
    let mut k: usize = 0;
    proof {
        assert(lines.deep_view() =~= fv.subrange(0, 0).map_values(
            |f: (Seq<char>, Seq<char>)| "| "@ + f.0 + " = "@ + f.1,
        ));
    }
    while k < fields.len()
        invariant
            k <= fields@.len(),
            fv == fields.deep_view(),
            fv.len() == fields@.len(),
            lines.deep_view() == fv.subrange(0, k as int).map_values(
                |f: (Seq<char>, Seq<char>)| "| "@ + f.0 + " = "@ + f.1,
            ),
        decreases fields@.len() - k,
    {
        proof {
            assert(fv[k as int] == (fields@[k as int].0@, fields@[k as int].1@));
        }
        let mut line = String::from_str("| ");
        line.append(fields[k].0.as_str());
        line.append(" = ");
        line.append(fields[k].1.as_str());
        let ghost l0 = lines.deep_view();
        lines.push(line);
        proof {
            assert(lines.deep_view() =~= l0.push("| "@ + fv[k as int].0 + " = "@ + fv[k as int].1));
            assert(lines.deep_view() =~= fv.subrange(0, k as int + 1).map_values(
                |f: (Seq<char>, Seq<char>)| "| "@ + f.0 + " = "@ + f.1,
            ));
        }
        k = k + 1;
    }
    proof {
        assert(fv.subrange(0, fv.len() as int) =~= fv);
    }
    let joined = crate::text::join_strings(&lines, "\n");
    let mut out = String::from_str("{{Gatherable Materials\n");
    out.append(joined.as_str());
    out.append("\n}}");
    proof {
        assert(out@ =~= spec_mineral_block(item@)->Ok_0);
    }
    Ok(out)
}

} // verus!

verus! {

/// The identity and image fields of an ore infobox.
pub open spec fn spec_base_fields(
    item: SpecItem,
    nm: Seq<char>,
    loc: Seq<(Seq<char>, Seq<char>)>,
) -> Result<Seq<(Seq<char>, Seq<char>)>, Error> {
    match crate::model::spec_loc_lookup(loc, "entitydescription."@ + item.id) {
        None => Err(Error::MissingDescription),
        Some(desc) => Ok(
            seq![
                ("identifier"@, item.id),
                ("name"@, nm),
                ("image"@, nm + ".png"@),
                ("caption"@, "''"@ + desc + "''"@),
                ("image2"@, nm + "_Mineral.png"@),
                ("caption2"@, "Sprite in the environment"@),
                ("icon"@, nm + ".png"@),
                ("sprite"@, nm + "_Mineral.png"@),
            ],
        ),
    }
}

/// Renders the identity and image fields of an ore infobox.
fn base_fields(item: &Item, nm: &String, loc: &crate::model::Localization) -> (r: Result<
    Vec<(String, String)>,
    Error,
>)
    ensures
        match r {
            Ok(fs) => spec_base_fields(item@, nm@, loc@) == Ok::<
                Seq<(Seq<char>, Seq<char>)>,
                Error,
            >(fs.deep_view()),
            Err(e) => spec_base_fields(item@, nm@, loc@) == Err::<
                Seq<(Seq<char>, Seq<char>)>,
                Error,
            >(e),
        },
{
    let desc = match loc.item_description(item.id.as_str()) {
        Err(e) => {
            return Err(e);
        },
        Ok(d) => d,
    };
    let mut image = nm.clone();
    image.append(".png");
    let mut caption = String::from_str("''");
    caption.append(desc.as_str());
    caption.append("''");
    let mut image2 = nm.clone();
    image2.append("_Mineral.png");
    let mut fs: Vec<(String, String)> = Vec::new();
    fs.push((String::from_str("identifier"), item.id.clone()));
    fs.push((String::from_str("name"), nm.clone()));
    fs.push((String::from_str("image"), image.clone()));
    fs.push((String::from_str("caption"), caption));
    fs.push((String::from_str("image2"), image2.clone()));
    fs.push((String::from_str("caption2"), String::from_str("Sprite in the environment")));
    fs.push((String::from_str("icon"), image));
    fs.push((String::from_str("sprite"), image2));
    proof {
        assert(fs.deep_view() =~= spec_base_fields(item@, nm@, loc@)->Ok_0);
    }
    Ok(fs)
}

/// The location types an infobox always reports.
pub open spec fn spec_infobox_locs() -> Seq<Seq<char>> {
    seq!["outpost"@, "city"@, "research"@, "military"@, "mine"@]
}

/// The location table as runtime data.
fn infobox_locs() -> (r: Vec<String>)
    ensures
        r.deep_view() == spec_infobox_locs(),
{
    let mut r: Vec<String> = Vec::new();
    r.push(String::from_str("outpost"));
    r.push(String::from_str("city"));
    r.push(String::from_str("research"));
    r.push(String::from_str("military"));
    r.push(String::from_str("mine"));
    proof {
        assert(r.deep_view() =~= spec_infobox_locs());
    }
    r
}

/// The per-location multiplier fields, from location index `i` on:
/// a reported location resolves to its recorded multiplier and sold
/// state, or to the multiplier of one and the sold-everywhere verdict
/// when the item's own records lack it; a location is flagged
/// unbuyable when the item is sold somewhere but not there.
pub open spec fn spec_loc_fields(
    prices: crate::model::SpecPrices,
    sold_anywhere: bool,
    i: int,
) -> Seq<(Seq<char>, Seq<char>)>
    decreases (if i < spec_infobox_locs().len() {
        spec_infobox_locs().len() - i
    } else {
        0
    }),
{
    if i < 0 || i >= spec_infobox_locs().len() {
        Seq::empty()
    } else {
        let loc = spec_infobox_locs()[i];
        let resolved = prices.resolved(loc);
        let own = seq![(loc + "multiplier"@, spec_format_decimal(resolved.0))] + (if sold_anywhere
            && !resolved.1 {
            seq![(loc + "unbuyable"@, "true"@)]
        } else {
            Seq::empty()
        });
        own + spec_loc_fields(prices, sold_anywhere, i + 1)
    }
}

/// The price fields of an infobox: the base price, a global unbuyable
/// flag when no location sells the item, and the per-location fields.
pub open spec fn spec_price_fields(prices: crate::model::SpecPrices) -> Seq<
    (Seq<char>, Seq<char>),
> {
    let sa = prices.sold_somewhere();
    let base = seq![("baseprice"@, crate::text::spec_i64_str(prices.base_price as int))] + (if !sa {
        seq![("unbuyable"@, "true"@)]
    } else {
        Seq::empty()
    });
    base + spec_loc_fields(prices, sa, 0)
}

/// Renders the price fields of an infobox.
fn price_fields(prices: &crate::model::Prices) -> (r: Vec<(String, String)>)
    requires
        prices@.wf(),
    ensures
        r.deep_view() == spec_price_fields(prices@),
{
    let sa = prices.sold_anywhere();
    let mut fs: Vec<(String, String)> = Vec::new();
    fs.push((String::from_str("baseprice"), crate::text::i32_to_string(prices.base_price)));
    if !sa {
        fs.push((String::from_str("unbuyable"), String::from_str("true")));
    }
    let ghost base = seq![("baseprice"@, crate::text::spec_i64_str(prices@.base_price as int))] + (
    if !sa {
        seq![("unbuyable"@, "true"@)]
    } else {
        Seq::<(Seq<char>, Seq<char>)>::empty()
    });
    proof {
        assert(fs.deep_view() =~= base);
    }
    let locs = infobox_locs();
    let mut i: usize = 0;
    while i < locs.len()
        invariant
            i <= locs@.len(),
            locs.deep_view() == spec_infobox_locs(),
            locs@.len() == spec_infobox_locs().len(),
            prices@.wf(),
            sa == prices@.sold_somewhere(),
            base == seq![
                ("baseprice"@, crate::text::spec_i64_str(prices@.base_price as int)),
            ] + (if !sa {
                seq![("unbuyable"@, "true"@)]
            } else {
                Seq::<(Seq<char>, Seq<char>)>::empty()
            }),
            fs.deep_view() + spec_loc_fields(prices@, sa, i as int) == base + spec_loc_fields(
                prices@,
                sa,
                0,
            ),
        decreases locs@.len() - i,
    {
        proof {
            assert(locs.deep_view()[i as int] == spec_infobox_locs()[i as int]);
            assert(locs.deep_view()[i as int] == locs@[i as int]@);
        }
        let loc = &locs[i];
        let (multiplier, sold) = prices.resolve(loc.as_str());
        proof {
            assert(multiplier.wf()) by {
                crate::render::lemma_entry_lookup_wf(prices@.locations, loc@);
            }
        }
        let ghost f0 = fs.deep_view();
        let mut key = loc.clone();
        key.append("multiplier");
        fs.push((key, format_decimal(&multiplier)));
        if sa && !sold {
            let mut key2 = loc.clone();
            key2.append("unbuyable");
            fs.push((key2, String::from_str("true")));
        }
        proof {
            let own = seq![(loc@ + "multiplier"@, spec_format_decimal(multiplier))] + (if sa
                && !sold {
                seq![(loc@ + "unbuyable"@, "true"@)]
            } else {
                Seq::<(Seq<char>, Seq<char>)>::empty()
            });
            assert(fs.deep_view() =~= f0 + own);
            assert(spec_loc_fields(prices@, sa, i as int) == own + spec_loc_fields(
                prices@,
                sa,
                i as int + 1,
            ));
            assert(f0 + (own + spec_loc_fields(prices@, sa, i as int + 1)) =~= (f0 + own)
                + spec_loc_fields(prices@, sa, i as int + 1));
        }
        i = i + 1;
    }
    proof {
        assert(spec_loc_fields(prices@, sa, locs@.len() as int)
            =~= Seq::<(Seq<char>, Seq<char>)>::empty());
        assert(fs.deep_view() + Seq::<(Seq<char>, Seq<char>)>::empty() =~= fs.deep_view());
        assert(fs.deep_view() =~= spec_price_fields(prices@));
    }
    fs
}

/// The fabrication fields of an infobox: presence, amount, time, the
/// first skill only (further skills are dropped, a known limitation),
/// the plain fabricator station only, and the linked material list.
pub open spec fn spec_fab_fields(
    fab: Option<crate::model::SpecFabricate>,
    items: Seq<SpecItem>,
) -> Result<Seq<(Seq<char>, Seq<char>)>, Error> {
    match fab {
        None => Ok(Seq::empty()),
        Some(f) => if f.fabricator != "fabricator"@ {
            Err(Error::UnexpectedFabricator)
        } else {
            match crate::render::spec_fab_mat_names(f.mats, items, None) {
                Err(e) => Err(e),
                Ok(names) => {
                    let skill_fields = if f.skills.len() >= 1 {
                        seq![
                            ("fabricatorskill"@, f.skills[0].0),
                            (
                                "fabricatorskilllevel"@,
                                crate::text::spec_i64_str(f.skills[0].1 as int),
                            ),
                        ]
                    } else {
                        Seq::<(Seq<char>, Seq<char>)>::empty()
                    };
                    Ok(
                        seq![
                            ("fabricator"@, "Yes"@),
                            ("fabricatedamount"@, crate::text::spec_i64_str(f.out_amount as int)),
                            ("fabricatortime"@, crate::text::spec_i64_str(f.time as int)),
                        ] + skill_fields + seq![
                            ("fabricatormaterials"@, crate::text::spec_join(names, "\n"@)),
                        ],
                    )
                },
            }
        },
    }
}

/// Renders the fabrication fields of an infobox.
fn fab_fields(fab: &Option<crate::model::Fabricate>, items: &Vec<Item>) -> (r: Result<
    Vec<(String, String)>,
    Error,
>)
    ensures
        match r {
            Ok(fs) => spec_fab_fields(fab.deep_view(), items.deep_view()) == Ok::<
                Seq<(Seq<char>, Seq<char>)>,
                Error,
            >(fs.deep_view()),
            Err(e) => spec_fab_fields(fab.deep_view(), items.deep_view()) == Err::<
                Seq<(Seq<char>, Seq<char>)>,
                Error,
            >(e),
        },
{
    let mut fs: Vec<(String, String)> = Vec::new();
    let f = match fab {
        None => {
            proof {
                assert(fs.deep_view() =~= Seq::<(Seq<char>, Seq<char>)>::empty());
            }
            return Ok(fs);
        },
        Some(f) => f,
    };
    if !str_eq(f.fabricator.as_str(), "fabricator") {
        return Err(Error::UnexpectedFabricator);
    }
    let names = match crate::render::fab_mat_names(&f.mats, items, None) {
        Err(e) => {
            return Err(e);
        },
        Ok(ns) => ns,
    };
    fs.push((String::from_str("fabricator"), String::from_str("Yes")));
    fs.push((String::from_str("fabricatedamount"), crate::text::i32_to_string(f.out_amount)));
    fs.push((String::from_str("fabricatortime"), crate::text::i32_to_string(f.time)));
    if f.skills.len() >= 1 {
        proof {
            assert(f.skills.deep_view()[0] == (f.skills@[0].0@, f.skills@[0].1));
        }
        fs.push((String::from_str("fabricatorskill"), f.skills[0].0.clone()));
        fs.push(
            (String::from_str("fabricatorskilllevel"), crate::text::i32_to_string(f.skills[0].1)),
        );
    }
    fs.push((String::from_str("fabricatormaterials"), crate::text::join_strings(&names, "\n")));
    proof {
        assert(fs.deep_view() =~= spec_fab_fields(fab.deep_view(), items.deep_view())->Ok_0);
    }
    Ok(fs)
}

/// The deconstruction fields of an infobox.
pub open spec fn spec_decon_fields(
    dec: Option<crate::model::SpecDeconstruct>,
    items: Seq<SpecItem>,
) -> Result<Seq<(Seq<char>, Seq<char>)>, Error> {
    match dec {
        None => Ok(Seq::empty()),
        Some(d) => match crate::render::spec_decon_names(d.mats, items, None) {
            Err(e) => Err(e),
            Ok(names) => Ok(
                seq![
                    ("deconstructor"@, "Yes"@),
                    ("deconstructortime"@, crate::text::spec_i64_str(d.time as int)),
                    ("deconstructormaterials"@, crate::text::spec_join(names, "\n"@)),
                ],
            ),
        },
    }
}

/// Renders the deconstruction fields of an infobox.
fn decon_fields(dec: &Option<crate::model::Deconstruct>, items: &Vec<Item>) -> (r: Result<
    Vec<(String, String)>,
    Error,
>)
    ensures
        match r {
            Ok(fs) => spec_decon_fields(dec.deep_view(), items.deep_view()) == Ok::<
                Seq<(Seq<char>, Seq<char>)>,
                Error,
            >(fs.deep_view()),
            Err(e) => spec_decon_fields(dec.deep_view(), items.deep_view()) == Err::<
                Seq<(Seq<char>, Seq<char>)>,
                Error,
            >(e),
        },
{
    let mut fs: Vec<(String, String)> = Vec::new();
    let d = match dec {
        None => {
            proof {
                assert(fs.deep_view() =~= Seq::<(Seq<char>, Seq<char>)>::empty());
            }
            return Ok(fs);
        },
        Some(d) => d,
    };
    let names = match crate::render::decon_names(&d.mats, items, None) {
        Err(e) => {
            return Err(e);
        },
        Ok(ns) => ns,
    };
    fs.push((String::from_str("deconstructor"), String::from_str("Yes")));
    fs.push((String::from_str("deconstructortime"), crate::text::i32_to_string(d.time)));
    fs.push((String::from_str("deconstructormaterials"), crate::text::join_strings(&names, "\n")));
    proof {
        assert(fs.deep_view() =~= spec_decon_fields(dec.deep_view(), items.deep_view())->Ok_0);
    }
    Ok(fs)
}

/// The infobox body lines: one `| key = value` line per field, each
/// on its own line.
pub open spec fn spec_kv_concat(fields: Seq<(Seq<char>, Seq<char>)>) -> Seq<char>
    decreases fields.len(),
{
    if fields.len() == 0 {
        Seq::empty()
    } else {
        spec_kv_concat(fields.drop_last()) + "\n| "@ + fields.last().0 + " = "@ + fields.last().1
    }
}

/// The whole infobox of one item: nothing unless the item carries a
/// recognized category tag; for an ore item, the version banner, the
/// key-value block, and the gatherable-materials sub-block.
pub open spec fn spec_infobox(item: SpecItem, db: SpecDb) -> Result<Option<Seq<char>>, Error> {
    match item.name {
        None => Err(Error::UnnamedItem),
        Some(nm) => if !item.tags.contains("ore"@) {
            Ok(None)
        } else {
            match spec_base_fields(item, nm, db.localization) {
                Err(e) => Err(e),
                Ok(bf) => {
                    let pf = spec_price_fields(item.prices);
                    match spec_fab_fields(item.fabricate, db.items) {
                        Err(e) => Err(e),
                        Ok(ff) => match spec_decon_fields(item.deconstruct, db.items) {
                            Err(e) => Err(e),
                            Ok(df) => {
                                let fields = bf + pf + seq![("noreq"@, "Yes"@)] + ff + df;
                                match spec_mineral_block(item) {
                                    Err(e) => Err(e),
                                    Ok(mb) => Ok(
                                        Some(
                                            "{{Main|Minerals}}\n\n"@ + "{{Version|"@ + db.version
                                                + "}}\n"@ + "{{Items infobox"@ + spec_kv_concat(
                                                fields,
                                            ) + "\n}}"@ + "\n"@ + mb,
                                        ),
                                    ),
                                }
                            },
                        },
                    }
                },
            }
        },
    }
}

/// Renders the infobox of one item, or nothing when the item is
/// outside the recognized categories.
pub fn format_infobox(item: &Item, db: &Db) -> (r: Result<Option<String>, Error>)
    requires
        item@.wf(),
    ensures
        match r {
            Ok(None) => spec_infobox(item@, db@) == Ok::<Option<Seq<char>>, Error>(None),
            Ok(Some(ib)) => spec_infobox(item@, db@) == Ok::<Option<Seq<char>>, Error>(Some(ib@)),
            Err(e) => spec_infobox(item@, db@) == Err::<Option<Seq<char>>, Error>(e),
        },
{
    let nm = match &item.name {
        None => {
            return Err(Error::UnnamedItem);
        },
        Some(n) => n,
    };
    if !item.has_tag("ore") {
        return Ok(None);
    }
    let bf = match base_fields(item, nm, &db.localization) {
        Err(e) => {
            return Err(e);
        },
        Ok(x) => x,
    };
    let pf = price_fields(&item.prices);
    let ff = match fab_fields(&item.fabricate, &db.items) {
        Err(e) => {
            return Err(e);
        },
        Ok(x) => x,
    };
    let df = match decon_fields(&item.deconstruct, &db.items) {
        Err(e) => {
            return Err(e);
        },
        Ok(x) => x,
    };
    let mut fields = bf;
    let ghost bfv = fields.deep_view();
    let mut pf = pf;
    let mut ff = ff;
    let mut df = df;
    fields.append(&mut pf);
    fields.push((String::from_str("noreq"), String::from_str("Yes")));
    fields.append(&mut ff);
    fields.append(&mut df);
    let ghost fieldsv = spec_base_fields(item@, nm@, db@.localization)->Ok_0 + spec_price_fields(
        item@.prices,
    ) + seq![("noreq"@, "Yes"@)] + spec_fab_fields(item@.fabricate, db@.items)->Ok_0
        + spec_decon_fields(item@.deconstruct, db@.items)->Ok_0;
    proof {
        assert(fields.deep_view() =~= fieldsv);
    }
    let mb = match format_mineral(item) {
        Err(e) => {
            return Err(e);
        },
        Ok(x) => x,
    };
    let mut body = String::new();
    let ghost fv = fields.deep_view();
    let mut k: usize = 0;
    proof {
        assert(fv.subrange(0, 0) =~= Seq::<(Seq<char>, Seq<char>)>::empty());
        assert(body@ =~= spec_kv_concat(fv.subrange(0, 0)));
    }
    while k < fields.len()
        invariant
            k <= fields@.len(),
            fv == fields.deep_view(),
            fv.len() == fields@.len(),
            body@ == spec_kv_concat(fv.subrange(0, k as int)),
        decreases fields@.len() - k,
    {
        proof {
            assert(fv.subrange(0, k as int + 1).drop_last() =~= fv.subrange(0, k as int));
            assert(fv.subrange(0, k as int + 1).last() == fv[k as int]);
            assert(fv[k as int] == (fields@[k as int].0@, fields@[k as int].1@));
        }
        body.append("\n| ");
        body.append(fields[k].0.as_str());
        body.append(" = ");
        body.append(fields[k].1.as_str());
        k = k + 1;
    }
    proof {
        assert(fv.subrange(0, fv.len() as int) =~= fv);
    }
    let mut out = String::from_str("{{Main|Minerals}}\n\n");
    out.append("{{Version|");
    out.append(db.version.as_str());
    out.append("}}\n");
    out.append("{{Items infobox");
    out.append(body.as_str());
    out.append("\n}}");
    out.append("\n");
    out.append(mb.as_str());
    proof {
        assert(out@ =~= spec_infobox(item@, db@)->Ok_0->0);
    }
    Ok(Some(out))
}

/// The infobox document, from catalog index `i` on: a heading and a
/// block for every named item of a recognized category, in catalog
/// order.
pub open spec fn spec_infoboxes_from(db: SpecDb, i: int) -> Result<Seq<char>, Error>
    decreases (if i < db.items.len() {
        db.items.len() - i
    } else {
        0
    }),
{
    if i < 0 || i >= db.items.len() {
        Ok(Seq::empty())
    } else {
        match db.items[i].name {
            None => spec_infoboxes_from(db, i + 1),
            Some(nm) => match spec_infobox(db.items[i], db) {
                Err(e) => Err(e),
                Ok(None) => spec_infoboxes_from(db, i + 1),
                Ok(Some(ib)) => match spec_infoboxes_from(db, i + 1) {
                    Err(e) => Err(e),
                    Ok(rest) => Ok("\n\n ===  "@ + nm + "  ===  \n\n"@ + ib + rest),
                },
            },
        }
    }
}

/// Renders the whole infobox document.
#[verifier::rlimit(50)]
pub fn infoboxes_text(db: &Db) -> (r: Result<String, Error>)
    requires
        crate::model::spec_items_wf(db@.items),
    ensures
        crate::model::rview(r) == spec_infoboxes_from(db@, 0),
{
    let mut out = String::new();
    let mut i: usize = 0;
    while i < db.items.len()
        invariant
            i <= db.items@.len(),
            db@.items.len() == db.items@.len(),
            crate::model::spec_items_wf(db@.items),
            spec_infoboxes_from(db@, i as int) matches Ok(rest) ==> spec_infoboxes_from(db@, 0)
                == Ok::<Seq<char>, Error>(out@ + rest),
            spec_infoboxes_from(db@, i as int) is Err ==> spec_infoboxes_from(db@, 0)
                == spec_infoboxes_from(db@, i as int),
        decreases db.items@.len() - i,
    {
        let item = &db.items[i];
        proof {
            assert(db@.items[i as int] == db.items@[i as int]@);
            assert(db@.items[i as int].wf());
        }
        match &item.name {
            None => {
                proof {
                    assert(spec_infoboxes_from(db@, i as int) == spec_infoboxes_from(
                        db@,
                        i as int + 1,
                    ));
                }
            },
            Some(nm) => {
                match format_infobox(item, db) {
                    Err(e) => {
                        proof {
                            assert(spec_infoboxes_from(db@, i as int) == Err::<Seq<char>, Error>(
                                e,
                            ));
                        }
                        return Err(e);
                    },
                    Ok(None) => {
                        proof {
                            assert(spec_infoboxes_from(db@, i as int) == spec_infoboxes_from(
                                db@,
                                i as int + 1,
                            ));
                        }
                    },
                    Ok(Some(ib)) => {
                        let ghost o0 = out@;
                        out.append("\n\n ===  ");
                        out.append(nm.as_str());
                        out.append("  ===  \n\n");
                        out.append(ib.as_str());
                        proof {
                            let own = "\n\n ===  "@ + nm@ + "  ===  \n\n"@ + ib@;
                            assert(out@ =~= o0 + own);
                            if spec_infoboxes_from(db@, i as int + 1) is Ok {
                                let rest = spec_infoboxes_from(db@, i as int + 1)->Ok_0;
                                assert(spec_infoboxes_from(db@, i as int) == Ok::<
                                    Seq<char>,
                                    Error,
                                >(own + rest));
                                assert(o0 + (own + rest) =~= out@ + rest);
                            } else {
                                assert(spec_infoboxes_from(db@, i as int) == spec_infoboxes_from(
                                    db@,
                                    i as int + 1,
                                ));
                            }
                        }
                    },
                }
            },
        }
        i = i + 1;
    }
    proof {
        assert(spec_infoboxes_from(db@, db.items@.len() as int) == Ok::<Seq<char>, Error>(
            Seq::<char>::empty(),
        ));
        assert(out@ + Seq::<char>::empty() =~= out@);
    }
    Ok(out)
}

} // verus!
