//! The grouped-rendering engine: the price table, the wiki-markup
//! fabrication and deconstruction tables, and the infobox blocks.

use vstd::prelude::*;

use crate::decimal::{format_decimal, spec_format_decimal};
use crate::model::{Error, Item, SpecItem, SpecPriceEntry};
use crate::text::{lex_le, str_eq, str_le};

verus! {

/// The byte encoding of one row of comma-separated fields, as the
/// CSV writer produces it: quoting where needed and a trailing
/// newline. A function of the fields alone.
pub uninterp spec fn csv_line_of(fields: Seq<Seq<char>>) -> Seq<u8>;

/// Relies on csv::Writer (default configuration, in-memory buffer):
/// `write_record` encodes exactly one record with its terminator, and
/// the encoding depends on the fields alone. Writing to a byte buffer
/// cannot fail, so the unwraps cannot panic.
#[verifier::external_body]
fn csv_line(fields: &Vec<String>) -> (r: Vec<u8>)
    ensures
        r@ == csv_line_of(fields.deep_view()),
{
    let mut writer = csv::Writer::from_writer(Vec::new());
    writer.write_record(fields).unwrap();
    writer.into_inner().unwrap()
}

/// The sorted location-key set with `x` added: already-present keys
/// are kept once.
pub open spec fn spec_insert_loc(s: Seq<Seq<char>>, x: Seq<char>) -> Seq<Seq<char>>
    decreases s.len(),
{
    if s.len() == 0 {
        seq![x]
    } else if s[0] == x {
        s
    } else if lex_le(s[0], x) {
        seq![s[0]] + spec_insert_loc(s.drop_first(), x)
    } else {
        seq![x] + s
    }
}

/// Every location key of every item, folded into a sorted set,
/// catalog order first, each item's entries in document order.
pub open spec fn spec_collect_locations(items: Seq<SpecItem>) -> Seq<Seq<char>>
    decreases items.len(),
{
    if items.len() == 0 {
        Seq::empty()
    } else {
        spec_insert_locs_of(spec_collect_locations(items.drop_last()), items.last().prices.locations)
    }
}

/// One item's location keys folded into the set.
pub open spec fn spec_insert_locs_of(s: Seq<Seq<char>>, entries: Seq<SpecPriceEntry>) -> Seq<
    Seq<char>,
>
    decreases entries.len(),
{
    if entries.len() == 0 {
        s
    } else {
        spec_insert_loc(spec_insert_locs_of(s, entries.drop_last()), entries.last().location)
    }
}

/// Strictly sorted in lexicographic order.
pub open spec fn spec_locs_sorted(s: Seq<Seq<char>>) -> bool {
    forall|i: int, j: int| 0 <= i < j < s.len() ==> lex_le(#[trigger] s[i], #[trigger] s[j]) && s[i]
        != s[j]
}

/// Inserts a location key into the sorted key set.
fn insert_loc(sorted: &mut Vec<String>, x: String)
    ensures
        final(sorted).deep_view() == spec_insert_loc(old(sorted).deep_view(), x@),
{
    let ghost dv0 = sorted.deep_view();
    let n = sorted.len();
    let mut pos: usize = 0;
    proof {
        assert(dv0.subrange(0, n as int) =~= dv0);
        assert(dv0.subrange(0, 0) + spec_insert_loc(dv0.subrange(0, n as int), x@)
            =~= spec_insert_loc(dv0, x@));
    }
    while pos < n && str_le(sorted[pos].as_str(), x.as_str()) && !str_eq(
        sorted[pos].as_str(),
        x.as_str(),
    )
        invariant
            pos <= n,
            n == sorted@.len(),
            sorted == old(sorted),
            dv0 == sorted.deep_view(),
            forall|j: int| 0 <= j < pos ==> (#[trigger] dv0[j]) != x@ && lex_le(dv0[j], x@),
            spec_insert_loc(dv0, x@) == dv0.subrange(0, pos as int) + spec_insert_loc(
                dv0.subrange(pos as int, n as int),
                x@,
            ),
        decreases n - pos,
    {
        let ghost suffix = dv0.subrange(pos as int, n as int);
        proof {
            assert(suffix[0] == dv0[pos as int]);
            assert(suffix.drop_first() =~= dv0.subrange(pos as int + 1, n as int));
            assert(spec_insert_loc(suffix, x@) == seq![suffix[0]] + spec_insert_loc(
                suffix.drop_first(),
                x@,
            ));
            assert(dv0.subrange(0, pos as int) + (seq![suffix[0]] + spec_insert_loc(
                suffix.drop_first(),
                x@,
            )) =~= dv0.subrange(0, pos as int + 1) + spec_insert_loc(
                dv0.subrange(pos as int + 1, n as int),
                x@,
            ));
        }
        pos = pos + 1;
    }
    let ghost suffix = dv0.subrange(pos as int, n as int);
    if pos < n {
        proof {
            assert(suffix[0] == dv0[pos as int]);
        }
        if str_eq(sorted[pos].as_str(), x.as_str()) {
            proof {
                assert(spec_insert_loc(suffix, x@) == suffix);
                assert(dv0.subrange(0, pos as int) + suffix =~= dv0);
            }
            return ;
        }
        proof {
            assert(!lex_le(dv0[pos as int], x@));
            assert(spec_insert_loc(suffix, x@) == seq![x@] + suffix);
        }
        sorted.insert(pos, x);
        proof {
            assert(sorted.deep_view() =~= dv0.subrange(0, pos as int) + (seq![x@] + suffix));
        }
    } else {
        proof {
            assert(suffix =~= Seq::<Seq<char>>::empty());
            assert(spec_insert_loc(suffix, x@) == seq![x@]);
        }
        sorted.insert(pos, x);
        proof {
            assert(sorted.deep_view() =~= dv0.subrange(0, pos as int) + seq![x@]);
        }
    }
}

/// The sorted set of every location-type key any item's prices
/// mention.
pub fn collect_locations(items: &Vec<Item>) -> (r: Vec<String>)
    ensures
        r.deep_view() == spec_collect_locations(items.deep_view()),
{
    let ghost dv = items.deep_view();
    let mut sorted: Vec<String> = Vec::new();
    let mut i: usize = 0;
    proof {
        assert(dv.subrange(0, 0) =~= Seq::<SpecItem>::empty());
        assert(sorted.deep_view() =~= Seq::<Seq<char>>::empty());
    }
    while i < items.len()
        invariant
            i <= items@.len(),
            dv == items.deep_view(),
            dv.len() == items@.len(),
            sorted.deep_view() == spec_collect_locations(dv.subrange(0, i as int)),
        decreases items@.len() - i,
    {
        let entries = &items[i].prices.locations;
        let ghost es = entries.deep_view();
        let ghost sorted0 = sorted.deep_view();
        proof {
            assert(dv.subrange(0, i as int + 1).drop_last() =~= dv.subrange(0, i as int));
            assert(dv.subrange(0, i as int + 1).last() == dv[i as int]);
            assert(dv[i as int] == items@[i as int]@);
            assert(dv[i as int].prices.locations == es);
            assert(es.subrange(0, 0) =~= Seq::<SpecPriceEntry>::empty());
            assert(spec_insert_locs_of(sorted0, es.subrange(0, 0)) == sorted0);
        }
        let mut k: usize = 0;
        while k < entries.len()
            invariant
                k <= entries@.len(),
                es == entries.deep_view(),
                es.len() == entries@.len(),
                sorted.deep_view() == spec_insert_locs_of(sorted0, es.subrange(0, k as int)),
            decreases entries@.len() - k,
        {
            proof {
                assert(es.subrange(0, k as int + 1).drop_last() =~= es.subrange(0, k as int));
                assert(es.subrange(0, k as int + 1).last() == es[k as int]);
                assert(es[k as int] == entries@[k as int]@);
            }
            insert_loc(&mut sorted, entries[k].location.clone());
            k = k + 1;
        }
        proof {
            assert(es.subrange(0, es.len() as int) =~= es);
        }
        i = i + 1;
    }
    proof {
        assert(dv.subrange(0, dv.len() as int) =~= dv);
    }
    sorted
}

/// One row of the price table: the item identifier, then the
/// multiplier for each location in column order, the canonical `1.0`
/// standing for locations the item does not record.
pub open spec fn spec_price_row(item: SpecItem, locations: Seq<Seq<char>>) -> Seq<Seq<char>>
    decreases locations.len(),
{
    if locations.len() == 0 {
        seq![item.id]
    } else {
        spec_price_row(item, locations.drop_last()).push(
            match crate::model::spec_entry_lookup(item.prices.locations, locations.last()) {
                Some(e) => spec_format_decimal(e.multiplier),
                None => "1.0"@,
            },
        )
    }
}

/// The full price table: a header naming every location column after
/// `name`, then one row per item in catalog order.
pub open spec fn spec_price_rows(items: Seq<SpecItem>) -> Seq<Seq<Seq<char>>> {
    let locations = spec_collect_locations(items);
    seq![seq!["name"@] + locations] + items.map_values(|it: SpecItem| spec_price_row(it, locations))
}

/// Renders the price table rows: the header names every location key
/// any item records, sorted and without duplicates, after the leading
/// name column; one row per item follows in catalog order; and every
/// row has exactly one cell more than there are location columns.
pub fn price_csv_rows(items: &Vec<Item>) -> (r: Vec<Vec<String>>)
    requires
        crate::model::spec_items_wf(items.deep_view()),
    ensures
        r.deep_view() == spec_price_rows(items.deep_view()),
        r.deep_view().len() == 1 + items.deep_view().len(),
        r.deep_view()[0] == seq!["name"@] + spec_collect_locations(items.deep_view()),
        forall|k: int| 0 <= k < r.deep_view().len() ==> (#[trigger] r.deep_view()[k]).len() == 1
            + spec_collect_locations(items.deep_view()).len(),
        spec_locs_sorted(spec_collect_locations(items.deep_view())),
{
    proof {
        lemma_price_table_shape(items.deep_view());
    }
    let ghost dv = items.deep_view();
    let locations = collect_locations(items);
    let ghost ls = locations.deep_view();
    let mut rows: Vec<Vec<String>> = Vec::new();
    let mut header: Vec<String> = Vec::new();
    header.push(String::from_str("name"));
    proof {
        assert(header.deep_view() =~= seq!["name"@]);
    }
    let mut k: usize = 0;
    proof {
        assert(header.deep_view() =~= seq!["name"@] + ls.subrange(0, 0));
    }
    while k < locations.len()
        invariant
            k <= locations@.len(),
            ls == locations.deep_view(),
            ls.len() == locations@.len(),
            header.deep_view() == seq!["name"@] + ls.subrange(0, k as int),
        decreases locations@.len() - k,
    {
        let ghost h0 = header.deep_view();
        header.push(locations[k].clone());
        proof {
            assert(header.deep_view() =~= h0.push(ls[k as int]));
            assert(h0.push(ls[k as int]) =~= seq!["name"@] + ls.subrange(0, k as int + 1));
        }
        k = k + 1;
    }
    proof {
        assert(ls.subrange(0, ls.len() as int) =~= ls);
    }
    rows.push(header);
    proof {
        assert(rows.deep_view() =~= seq![seq!["name"@] + ls]);
    }
    let mut i: usize = 0;
    while i < items.len()
        invariant
            i <= items@.len(),
            dv == items.deep_view(),
            dv.len() == items@.len(),
            crate::model::spec_items_wf(dv),
            ls == locations.deep_view(),
            ls == spec_collect_locations(dv),
            rows.deep_view() == seq![seq!["name"@] + ls] + dv.subrange(0, i as int).map_values(
                |it: SpecItem| spec_price_row(it, ls),
            ),
        decreases items@.len() - i,
    {
        let item = &items[i];
        proof {
            assert(dv[i as int] == items@[i as int]@);
            assert(dv[i as int].wf());
        }
        let mut row: Vec<String> = Vec::new();
        row.push(item.id.clone());
        let mut k: usize = 0;
        proof {
            assert(ls.subrange(0, 0) =~= Seq::<Seq<char>>::empty());
            assert(row.deep_view() =~= spec_price_row(dv[i as int], ls.subrange(0, 0)));
        }
        while k < locations.len()
            invariant
                k <= locations@.len(),
                ls == locations.deep_view(),
                ls.len() == locations@.len(),
                dv == items.deep_view(),
                i < dv.len(),
                dv[i as int].wf(),
                item == &items[i as int],
                row.deep_view() == spec_price_row(dv[i as int], ls.subrange(0, k as int)),
            decreases locations@.len() - k,
        {
            proof {
                assert(ls.subrange(0, k as int + 1).drop_last() =~= ls.subrange(0, k as int));
                assert(ls.subrange(0, k as int + 1).last() == ls[k as int]);
            }
            let ghost r0 = row.deep_view();
            let cell = match item.prices.get(locations[k].as_str()) {
                Some(e) => {
                    proof {
                        assert(crate::model::spec_entry_lookup(
                            dv[i as int].prices.locations,
                            ls[k as int],
                        ) == Some(e@));
                        assert(e@.multiplier.wf()) by {
                            lemma_entry_lookup_wf(dv[i as int].prices.locations, ls[k as int]);
                        }
                    }
                    format_decimal(&e.multiplier)
                },
                None => String::from_str("1.0"),
            };
            row.push(cell);
            proof {
                assert(row.deep_view() =~= r0.push(row.deep_view().last()));
            }
            k = k + 1;
        }
        proof {
            assert(ls.subrange(0, ls.len() as int) =~= ls);
        }
        let ghost rows0 = rows.deep_view();
        rows.push(row);
        proof {
            assert(rows.deep_view() =~= rows0.push(spec_price_row(dv[i as int], ls)));
            assert(dv.subrange(0, i as int + 1).map_values(|it: SpecItem| spec_price_row(it, ls))
                =~= dv.subrange(0, i as int).map_values(|it: SpecItem| spec_price_row(it, ls)).push(
                spec_price_row(dv[i as int], ls),
            ));
            assert(rows.deep_view() =~= seq![seq!["name"@] + ls] + dv.subrange(
                0,
                i as int + 1,
            ).map_values(|it: SpecItem| spec_price_row(it, ls)));
        }
        i = i + 1;
    }
    proof {
        assert(dv.subrange(0, dv.len() as int) =~= dv);
        assert(rows.deep_view() =~= spec_price_rows(dv));
    }
    rows
}

/// A recorded price entry of a well-formed price block is canonical.
pub proof fn lemma_entry_lookup_wf(s: Seq<SpecPriceEntry>, location: Seq<char>)
    requires
        forall|i: int| 0 <= i < s.len() ==> (#[trigger] s[i]).multiplier.wf(),
    ensures
        match crate::model::spec_entry_lookup(s, location) {
            Some(e) => e.multiplier.wf(),
            None => true,
        },
    decreases s.len(),
{
    if s.len() > 0 && s[0].location != location {
        assert(forall|i: int| 0 <= i < s.drop_first().len() ==> (#[trigger] s.drop_first()[i])
            == s[i + 1]);
        lemma_entry_lookup_wf(s.drop_first(), location);
    }
}

/// The byte encoding of the price table: each row encoded as one CSV
/// line, in order.
pub open spec fn spec_price_csv(items: Seq<SpecItem>) -> Seq<u8> {
    spec_csv_encode(spec_price_rows(items))
}

/// The byte encoding of a row list.
pub open spec fn spec_csv_encode(rows: Seq<Seq<Seq<char>>>) -> Seq<u8>
    decreases rows.len(),
{
    if rows.len() == 0 {
        Seq::empty()
    } else {
        spec_csv_encode(rows.drop_last()) + csv_line_of(rows.last())
    }
}

/// Renders the price table as CSV bytes.
pub fn price_csv(items: &Vec<Item>) -> (r: Vec<u8>)
    requires
        crate::model::spec_items_wf(items.deep_view()),
    ensures
        r@ == spec_price_csv(items.deep_view()),
{
    let rows = price_csv_rows(items);
    let ghost rs = rows.deep_view();
    let mut out: Vec<u8> = Vec::new();
    let mut i: usize = 0;
    proof {
        assert(rs.subrange(0, 0) =~= Seq::<Seq<Seq<char>>>::empty());
        assert(out@ =~= spec_csv_encode(rs.subrange(0, 0)));
    }
    while i < rows.len()
        invariant
            i <= rows@.len(),
            rs == rows.deep_view(),
            rs.len() == rows@.len(),
            out@ == spec_csv_encode(rs.subrange(0, i as int)),
        decreases rows@.len() - i,
    {
        proof {
            assert(rs.subrange(0, i as int + 1).drop_last() =~= rs.subrange(0, i as int));
            assert(rs.subrange(0, i as int + 1).last() == rs[i as int]);
            assert(rs[i as int] == rows@[i as int].deep_view());
        }
        let mut line = csv_line(&rows[i]);
        let ghost out0 = out@;
        out.append(&mut line);
        proof {
            assert(out@ =~= out0 + csv_line_of(rs[i as int]));
        }
        i = i + 1;
    }
    proof {
        assert(rs.subrange(0, rs.len() as int) =~= rs);
    }
    out
}

} // verus!

verus! {

/// First catalog item with the given identifier.
pub open spec fn spec_item_by_id(items: Seq<SpecItem>, id: Seq<char>) -> Option<SpecItem>
    decreases items.len(),
{
    if items.len() == 0 {
        None
    } else if items[0].id == id {
        Some(items[0])
    } else {
        spec_item_by_id(items.drop_first(), id)
    }
}

/// Finds a catalog item by identifier.
pub fn item_by_id<'a>(items: &'a Vec<Item>, id: &str) -> (r: Option<&'a Item>)
    ensures
        r.deep_view() == spec_item_by_id(items.deep_view(), id@),
{
    let r = item_by_id_from(items, 0, id);
    proof {
        assert(items.deep_view().subrange(0, items@.len() as int) =~= items.deep_view());
    }
    r
}

fn item_by_id_from<'a>(items: &'a Vec<Item>, i: usize, id: &str) -> (r: Option<&'a Item>)
    requires
        i <= items@.len(),
    ensures
        r.deep_view() == spec_item_by_id(
            items.deep_view().subrange(i as int, items@.len() as int),
            id@,
        ),
    decreases items@.len() - i,
{
    let ghost suffix = items.deep_view().subrange(i as int, items@.len() as int);
    if i == items.len() {
        None
    } else {
        proof {
            assert(suffix[0] == items.deep_view()[i as int]);
            assert(suffix.drop_first() =~= items.deep_view().subrange(
                i as int + 1,
                items@.len() as int,
            ));
        }
        if str_eq(items[i].id.as_str(), id) {
            Some(&items[i])
        } else {
            item_by_id_from(items, i + 1, id)
        }
    }
}

/// The wiki hyperlink markup for a cataloged item: its display name,
/// an optional pixel size, and a count suffix when more than one is
/// required.
pub open spec fn spec_linkify(
    items: Seq<SpecItem>,
    id: Seq<char>,
    cnt: i32,
    size: Option<i32>,
) -> Result<Seq<char>, Error> {
    match spec_item_by_id(items, id) {
        None => Err(Error::UnknownItem),
        Some(it) => match it.name {
            None => Err(Error::UnnamedItem),
            Some(name) => {
                let base = match size {
                    Some(sz) => "{{Hyperlink|"@ + name + "|"@ + crate::text::spec_i64_str(sz as int)
                        + "px}}"@,
                    None => "{{Hyperlink|"@ + name + "}}"@,
                };
                if cnt > 1 {
                    Ok(base + " (x"@ + crate::text::spec_i64_str(cnt as int) + ")"@)
                } else {
                    Ok(base)
                }
            },
        },
    }
}

/// Renders the hyperlink markup for an item reference.
pub fn linkify_item(items: &Vec<Item>, id: &str, cnt: i32, size: Option<i32>) -> (r: Result<
    String,
    Error,
>)
    ensures
        crate::model::rview(r) == spec_linkify(items.deep_view(), id@, cnt, size),
{
    let item = match item_by_id(items, id) {
        None => {
            return Err(Error::UnknownItem);
        },
        Some(it) => it,
    };
    let name = match &item.name {
        None => {
            return Err(Error::UnnamedItem);
        },
        Some(n) => n,
    };
    let mut line = String::from_str("{{Hyperlink|");
    line.append(name.as_str());
    match size {
        Some(sz) => {
            line.append("|");
            line.append(crate::text::i32_to_string(sz).as_str());
            line.append("px}}");
        },
        None => {
            line.append("}}");
        },
    }
    if cnt > 1 {
        line.append(" (x");
        line.append(crate::text::i32_to_string(cnt).as_str());
        line.append(")");
    }
    Ok(line)
}

/// The display heading of a recognized skill identifier.
pub open spec fn spec_skill_name(id: Seq<char>) -> Option<Seq<char>> {
    if id == "electrical"@ {
        Some("Electrical"@)
    } else if id == "helm"@ {
        Some("Helm"@)
    } else if id == "mechanical"@ {
        Some("Mechanical"@)
    } else if id == "medical"@ {
        Some("Medical"@)
    } else if id == "weapons"@ {
        Some("Weapons"@)
    } else {
        None
    }
}

/// Exec counterpart of [`spec_skill_name`].
pub fn skill_name(id: &str) -> (r: Option<&'static str>)
    ensures
        r.deep_view() == spec_skill_name(id@),
{
    if str_eq(id, "electrical") {
        Some("Electrical")
    } else if str_eq(id, "helm") {
        Some("Helm")
    } else if str_eq(id, "mechanical") {
        Some("Mechanical")
    } else if str_eq(id, "medical") {
        Some("Medical")
    } else if str_eq(id, "weapons") {
        Some("Weapons")
    } else {
        None
    }
}

/// One rendered line per required skill: the skill heading and the
/// level.
pub open spec fn spec_skill_lines(skills: Seq<(Seq<char>, i32)>) -> Result<Seq<Seq<char>>, Error>
    decreases skills.len(),
{
    if skills.len() == 0 {
        Ok(Seq::empty())
    } else {
        match spec_skill_lines(skills.drop_last()) {
            Err(e) => Err(e),
            Ok(prev) => match spec_skill_name(skills.last().0) {
                None => Err(Error::UnknownSkill),
                Some(n) => Ok(
                    prev.push(n + " "@ + crate::text::spec_i64_str(skills.last().1 as int)),
                ),
            },
        }
    }
}

/// The skill column: the joined skill lines, or `None` when there are
/// none.
pub open spec fn spec_skills_cell(skills: Seq<(Seq<char>, i32)>) -> Result<Seq<char>, Error> {
    match spec_skill_lines(skills) {
        Err(e) => Err(e),
        Ok(lines) => {
            let joined = crate::text::spec_join(lines, " <br> "@);
            if joined.len() == 0 {
                Ok("None"@)
            } else {
                Ok(joined)
            }
        },
    }
}

/// Renders the skill column of a fabrication row.
pub fn skills_cell(skills: &Vec<(String, i32)>) -> (r: Result<String, Error>)
    ensures
        crate::model::rview(r) == spec_skills_cell(skills.deep_view()),
{
    let ghost sv = skills.deep_view();
    let mut lines: Vec<String> = Vec::new();
    let mut i: usize = 0;
    proof {
        assert(sv.subrange(0, 0) =~= Seq::<(Seq<char>, i32)>::empty());
        assert(lines.deep_view() =~= Seq::<Seq<char>>::empty());
    }
    while i < skills.len()
        invariant
            i <= skills@.len(),
            sv == skills.deep_view(),
            sv.len() == skills@.len(),
            spec_skill_lines(sv.subrange(0, i as int)) == Ok::<Seq<Seq<char>>, Error>(
                lines.deep_view(),
            ),
        decreases skills@.len() - i,
    {
        proof {
            assert(sv.subrange(0, i as int + 1).drop_last() =~= sv.subrange(0, i as int));
            assert(sv.subrange(0, i as int + 1).last() == sv[i as int]);
            assert(sv[i as int] == (skills@[i as int].0@, skills@[i as int].1));
        }
        match skill_name(skills[i].0.as_str()) {
            None => {
                proof {
                    lemma_skill_lines_err(sv, i as int + 1);
                }
                return Err(Error::UnknownSkill);
            },
            Some(n) => {
                let mut line = String::from_str(n);
                line.append(" ");
                line.append(crate::text::i32_to_string(skills[i].1).as_str());
                let ghost l0 = lines.deep_view();
                lines.push(line);
                proof {
                    assert(lines.deep_view() =~= l0.push(
                        spec_skill_name(sv[i as int].0)->0 + " "@ + crate::text::spec_i64_str(
                            sv[i as int].1 as int,
                        ),
                    ));
                }
            },
        }
        i = i + 1;
    }
    proof {
        assert(sv.subrange(0, sv.len() as int) =~= sv);
    }
    let joined = crate::text::join_strings(&lines, " <br> ");
    if joined.as_str().unicode_len() == 0 {
        Ok(String::from_str("None"))
    } else {
        Ok(joined)
    }
}

/// A failure on a prefix of the skills decides the whole reading.
proof fn lemma_skill_lines_err(skills: Seq<(Seq<char>, i32)>, n: int)
    requires
        0 <= n <= skills.len(),
        spec_skill_lines(skills.subrange(0, n)) is Err,
    ensures
        spec_skill_lines(skills) == spec_skill_lines(skills.subrange(0, n)),
    decreases skills.len() - n,
{
    if n == skills.len() {
        assert(skills.subrange(0, n) =~= skills);
    } else {
        assert(skills.subrange(0, n + 1).drop_last() =~= skills.subrange(0, n));
        lemma_skill_lines_err(skills, n + 1);
    }
}

/// Whether the item's wiki inventory image carries an `_icon` suffix:
/// the explicit exception set is currently empty.
pub open spec fn spec_is_iconic(item: SpecItem) -> bool {
    false
}

/// Exec counterpart of [`spec_is_iconic`].
pub fn is_iconic_item(item: &Item) -> (r: bool)
    ensures
        r == spec_is_iconic(item@),
{
    false
}

/// The image-and-link heading of a fabrication row: the group display
/// heading when one is given, else markup derived from the item's own
/// display name.
pub open spec fn spec_fab_display(item: SpecItem, name_override: Option<Seq<char>>) -> Result<
    Seq<char>,
    Error,
> {
    match name_override {
        Some(no) => Ok(no),
        None => match item.name {
            None => Err(Error::UnnamedItem),
            Some(nm) => {
                let pic = if spec_is_iconic(item) {
                    nm + "_icon"@
                } else {
                    nm
                };
                Ok("[[File:"@ + pic + ".png| |50px|link="@ + nm + "]] <br> [["@ + nm + "]]"@)
            },
        },
    }
}

/// Renders the heading of a fabrication row.
pub fn fab_display(item: &Item, name_override: Option<&String>) -> (r: Result<String, Error>)
    ensures
        crate::model::rview(r) == spec_fab_display(item@, name_override.deep_view()),
{
    match name_override {
        Some(no) => Ok(no.clone()),
        None => match &item.name {
            None => Err(Error::UnnamedItem),
            Some(nm) => {
                let pic = if is_iconic_item(item) {
                    let mut p = nm.clone();
                    p.append("_icon");
                    p
                } else {
                    nm.clone()
                };
                let mut line = String::from_str("[[File:");
                line.append(pic.as_str());
                line.append(".png| |50px|link=");
                line.append(nm.as_str());
                line.append("]] <br> [[");
                line.append(nm.as_str());
                line.append("]]");
                Ok(line)
            },
        },
    }
}

/// The order in which rows are presented: unnamed items first, then
/// lexicographically by display name.
pub open spec fn spec_name_le(a: Option<Seq<char>>, b: Option<Seq<char>>) -> bool {
    match (a, b) {
        (None, _) => true,
        (Some(_), None) => false,
        (Some(x), Some(y)) => lex_le(x, y),
    }
}

/// Exec counterpart of [`spec_name_le`].
pub fn name_le(a: &Option<String>, b: &Option<String>) -> (r: bool)
    ensures
        r == spec_name_le(a.deep_view(), b.deep_view()),
{
    match (a, b) {
        (None, _) => true,
        (Some(_), None) => false,
        (Some(x), Some(y)) => str_le(x.as_str(), y.as_str()),
    }
}

/// Stable insertion into a name-sorted item list.
pub open spec fn spec_insert_item(s: Seq<SpecItem>, it: SpecItem) -> Seq<SpecItem>
    decreases s.len(),
{
    if s.len() == 0 {
        seq![it]
    } else if spec_name_le(s[0].name, it.name) {
        seq![s[0]] + spec_insert_item(s.drop_first(), it)
    } else {
        seq![it] + s
    }
}

/// Insertion sort of the catalog by display name, stable on equal
/// names so that catalog order breaks ties.
pub open spec fn spec_sort_items(s: Seq<SpecItem>) -> Seq<SpecItem>
    decreases s.len(),
{
    if s.len() == 0 {
        Seq::empty()
    } else {
        spec_insert_item(spec_sort_items(s.drop_last()), s.last())
    }
}

/// Inserting before the first strictly larger name realizes
/// [`spec_insert_item`].
proof fn lemma_insert_item_at(s: Seq<SpecItem>, it: SpecItem, p: int)
    requires
        0 <= p <= s.len(),
        forall|j: int| 0 <= j < p ==> spec_name_le((#[trigger] s[j]).name, it.name),
        p < s.len() ==> !spec_name_le(s[p].name, it.name),
    ensures
        spec_insert_item(s, it) == s.subrange(0, p) + seq![it] + s.subrange(p, s.len() as int),
    decreases s.len(),
{
    if p == 0 {
        if s.len() == 0 {
            assert(spec_insert_item(s, it) =~= s.subrange(0, 0) + seq![it] + s.subrange(
                0,
                s.len() as int,
            ));
        } else {
            assert(spec_insert_item(s, it) =~= s.subrange(0, 0) + seq![it] + s.subrange(
                0,
                s.len() as int,
            ));
        }
    } else {
        assert(spec_name_le(s[0].name, it.name));
        assert(forall|j: int| 0 <= j < p - 1 ==> #[trigger] s.drop_first()[j] == s[j + 1]);
        lemma_insert_item_at(s.drop_first(), it, p - 1);
        assert(s.drop_first().subrange(0, p - 1) =~= s.subrange(1, p));
        assert(s.drop_first().subrange(p - 1, s.drop_first().len() as int) =~= s.subrange(
            p,
            s.len() as int,
        ));
        assert(seq![s[0]] + (s.subrange(1, p) + seq![it] + s.subrange(p, s.len() as int))
            =~= s.subrange(0, p) + seq![it] + s.subrange(p, s.len() as int));
    }
}

/// Inserts an item into a name-sorted list.
fn insert_item(sorted: &mut Vec<Item>, it: Item)
    ensures
        final(sorted).deep_view() == spec_insert_item(old(sorted).deep_view(), it@),
{
    let ghost dv0 = sorted.deep_view();
    let ghost iv = it@;
    let n = sorted.len();
    let mut pos: usize = 0;
    while pos < n && name_le(&sorted[pos].name, &it.name)
        invariant
            pos <= n,
            n == sorted@.len(),
            sorted == old(sorted),
            dv0 == sorted.deep_view(),
            iv == it@,
            forall|j: int| 0 <= j < pos ==> spec_name_le((#[trigger] dv0[j]).name, iv.name),
        decreases n - pos,
    {
        proof {
            assert(dv0[pos as int].name == sorted@[pos as int]@.name);
        }
        pos = pos + 1;
    }
    proof {
        lemma_insert_item_at(dv0, iv, pos as int);
    }
    sorted.insert(pos, it);
    proof {
        assert(sorted.deep_view() =~= dv0.subrange(0, pos as int) + seq![iv] + dv0.subrange(
            pos as int,
            n as int,
        ));
    }
}

/// Sorts the catalog by display name, keeping catalog order among
/// equal names.
pub fn sort_items(items: &Vec<Item>) -> (r: Vec<Item>)
    ensures
        r.deep_view() == spec_sort_items(items.deep_view()),
{
    let ghost dv = items.deep_view();
    let mut out: Vec<Item> = Vec::new();
    let mut i: usize = 0;
    proof {
        assert(dv.subrange(0, 0) =~= Seq::<SpecItem>::empty());
        assert(out.deep_view() =~= Seq::<SpecItem>::empty());
    }
    while i < items.len()
        invariant
            i <= items@.len(),
            dv == items.deep_view(),
            dv.len() == items@.len(),
            out.deep_view() == spec_sort_items(dv.subrange(0, i as int)),
        decreases items@.len() - i,
    {
        let x = items[i].duplicate();
        proof {
            assert(x@ == dv[i as int]);
            assert(dv.subrange(0, i as int + 1).drop_last() =~= dv.subrange(0, i as int));
            assert(dv.subrange(0, i as int + 1).last() == dv[i as int]);
        }
        insert_item(&mut out, x);
        i = i + 1;
    }
    proof {
        assert(dv.subrange(0, dv.len() as int) =~= dv);
    }
    out
}

} // verus!

verus! {

/// The display order of a recipe's materials: concrete identifiers
/// before tags, each lexicographic, counts breaking ties.
pub open spec fn spec_mat_le(
    a: (crate::model::SpecRequiredItem, i32),
    b: (crate::model::SpecRequiredItem, i32),
) -> bool {
    if a.0 == b.0 {
        a.1 <= b.1
    } else {
        crate::model::spec_req_le(a.0, b.0)
    }
}

/// Exec counterpart of [`spec_mat_le`].
pub fn mat_le(
    a: &(crate::model::RequiredItem, i32),
    b: &(crate::model::RequiredItem, i32),
) -> (r: bool)
    ensures
        r == spec_mat_le(a.deep_view(), b.deep_view()),
{
    if a.0.same_as(&b.0) {
        a.1 <= b.1
    } else {
        a.0.le(&b.0)
    }
}

/// Stable insertion into a sorted material list.
pub open spec fn spec_insert_mat(
    s: Seq<(crate::model::SpecRequiredItem, i32)>,
    x: (crate::model::SpecRequiredItem, i32),
) -> Seq<(crate::model::SpecRequiredItem, i32)>
    decreases s.len(),
{
    if s.len() == 0 {
        seq![x]
    } else if spec_mat_le(s[0], x) {
        seq![s[0]] + spec_insert_mat(s.drop_first(), x)
    } else {
        seq![x] + s
    }
}

/// Insertion sort of a recipe's material list.
pub open spec fn spec_sort_mats(s: Seq<(crate::model::SpecRequiredItem, i32)>) -> Seq<
    (crate::model::SpecRequiredItem, i32),
>
    decreases s.len(),
{
    if s.len() == 0 {
        Seq::empty()
    } else {
        spec_insert_mat(spec_sort_mats(s.drop_last()), s.last())
    }
}

/// Inserting before the first strictly larger material realizes
/// [`spec_insert_mat`].
proof fn lemma_insert_mat_pos(
    s: Seq<(crate::model::SpecRequiredItem, i32)>,
    x: (crate::model::SpecRequiredItem, i32),
    p: int,
)
    requires
        0 <= p <= s.len(),
        forall|j: int| 0 <= j < p ==> spec_mat_le(#[trigger] s[j], x),
        p < s.len() ==> !spec_mat_le(s[p], x),
    ensures
        spec_insert_mat(s, x) == s.subrange(0, p) + seq![x] + s.subrange(p, s.len() as int),
    decreases s.len(),
{
    if p == 0 {
        assert(spec_insert_mat(s, x) =~= s.subrange(0, 0) + seq![x] + s.subrange(
            0,
            s.len() as int,
        ));
    } else {
        assert(spec_mat_le(s[0], x));
        assert(forall|j: int| 0 <= j < p - 1 ==> #[trigger] s.drop_first()[j] == s[j + 1]);
        lemma_insert_mat_pos(s.drop_first(), x, p - 1);
        assert(s.drop_first().subrange(0, p - 1) =~= s.subrange(1, p));
        assert(s.drop_first().subrange(p - 1, s.drop_first().len() as int) =~= s.subrange(
            p,
            s.len() as int,
        ));
        assert(seq![s[0]] + (s.subrange(1, p) + seq![x] + s.subrange(p, s.len() as int))
            =~= s.subrange(0, p) + seq![x] + s.subrange(p, s.len() as int));
    }
}

/// Inserts a material into a sorted material list.
fn insert_mat(sorted: &mut Vec<(crate::model::RequiredItem, i32)>, x: (crate::model::RequiredItem, i32))
    ensures
        final(sorted).deep_view() == spec_insert_mat(old(sorted).deep_view(), x.deep_view()),
{
    let ghost dv0 = sorted.deep_view();
    let ghost xv = x.deep_view();
    let n = sorted.len();
    let mut pos: usize = 0;
    while pos < n && mat_le(&sorted[pos], &x)
        invariant
            pos <= n,
            n == sorted@.len(),
            sorted == old(sorted),
            dv0 == sorted.deep_view(),
            xv == x.deep_view(),
            forall|j: int| 0 <= j < pos ==> spec_mat_le(#[trigger] dv0[j], xv),
        decreases n - pos,
    {
        pos = pos + 1;
    }
    proof {
        lemma_insert_mat_pos(dv0, xv, pos as int);
    }
    sorted.insert(pos, x);
    proof {
        assert(sorted.deep_view() =~= dv0.subrange(0, pos as int) + seq![xv] + dv0.subrange(
            pos as int,
            n as int,
        ));
    }
}

/// Sorts a recipe's material list into display order.
pub fn sort_mats(mats: &Vec<(crate::model::RequiredItem, i32)>) -> (r: Vec<
    (crate::model::RequiredItem, i32),
>)
    ensures
        r.deep_view() == spec_sort_mats(mats.deep_view()),
{
    let ghost dv = mats.deep_view();
    let mut out: Vec<(crate::model::RequiredItem, i32)> = Vec::new();
    let mut i: usize = 0;
    proof {
        assert(dv.subrange(0, 0) =~= Seq::<(crate::model::SpecRequiredItem, i32)>::empty());
        assert(out.deep_view() =~= Seq::<(crate::model::SpecRequiredItem, i32)>::empty());
    }
    while i < mats.len()
        invariant
            i <= mats@.len(),
            dv == mats.deep_view(),
            dv.len() == mats@.len(),
            out.deep_view() == spec_sort_mats(dv.subrange(0, i as int)),
        decreases mats@.len() - i,
    {
        let x = (mats[i].0.duplicate(), mats[i].1);
        proof {
            assert(x.deep_view() == dv[i as int]);
            assert(dv.subrange(0, i as int + 1).drop_last() =~= dv.subrange(0, i as int));
            assert(dv.subrange(0, i as int + 1).last() == dv[i as int]);
        }
        insert_mat(&mut out, x);
        i = i + 1;
    }
    proof {
        assert(dv.subrange(0, dv.len() as int) =~= dv);
    }
    out
}

/// The collapsed display groups: member tags, excepted item
/// identifiers, and the shared display heading.
pub open spec fn spec_groups() -> Seq<(Seq<Seq<char>>, Seq<Seq<char>>, Seq<char>)> {
    seq![
        (
            seq!["logic"@, "signal"@],
            seq!["fpgacircuit"@],
            "[[File:Wiring Components.png| |90px|link=Wiring Components]] <br> [[Wiring Components]]"@,
        ),
        (
            seq!["sensor"@],
            Seq::<Seq<char>>::empty(),
            "[[File:Detectors.png| |90px|link=Detectors]] <br> [[Detectors]]"@,
        ),
        (seq!["wire"@], Seq::<Seq<char>>::empty(), "[[File:Wire.png| |50px|link=Wire]] <br> [[Wire]]"@),
    ]
}

/// The collapsed display groups as runtime data.
pub fn groups() -> (r: Vec<(Vec<String>, Vec<String>, String)>)
    ensures
        r.deep_view() == spec_groups(),
{
    let mut g0_tags: Vec<String> = Vec::new();
    g0_tags.push(String::from_str("logic"));
    g0_tags.push(String::from_str("signal"));
    let mut g0_exc: Vec<String> = Vec::new();
    g0_exc.push(String::from_str("fpgacircuit"));
    let mut g1_tags: Vec<String> = Vec::new();
    g1_tags.push(String::from_str("sensor"));
    let g1_exc: Vec<String> = Vec::new();
    let mut g2_tags: Vec<String> = Vec::new();
    g2_tags.push(String::from_str("wire"));
    let g2_exc: Vec<String> = Vec::new();
    let mut r: Vec<(Vec<String>, Vec<String>, String)> = Vec::new();
    r.push(
        (
            g0_tags,
            g0_exc,
            String::from_str(
                "[[File:Wiring Components.png| |90px|link=Wiring Components]] <br> [[Wiring Components]]",
            ),
        ),
    );
    r.push(
        (g1_tags, g1_exc, String::from_str("[[File:Detectors.png| |90px|link=Detectors]] <br> [[Detectors]]")),
    );
    r.push((g2_tags, g2_exc, String::from_str("[[File:Wire.png| |50px|link=Wire]] <br> [[Wire]]")));
    proof {
        assert(r.deep_view() =~= spec_groups()) by {
            assert(r.deep_view().len() == 3);
            assert(r.deep_view()[0].0 =~= seq!["logic"@, "signal"@]);
            assert(r.deep_view()[0].1 =~= seq!["fpgacircuit"@]);
            assert(r.deep_view()[1].0 =~= seq!["sensor"@]);
            assert(r.deep_view()[1].1 =~= Seq::<Seq<char>>::empty());
            assert(r.deep_view()[2].0 =~= seq!["wire"@]);
            assert(r.deep_view()[2].1 =~= Seq::<Seq<char>>::empty());
        }
    }
    r
}

/// The identifiers the fabrication table never shows.
pub open spec fn spec_fab_blacklist() -> Seq<Seq<char>> {
    seq!["lightcomponent90"@]
}

/// Whether a string list holds the given string.
pub fn contains_str(v: &Vec<String>, x: &str) -> (r: bool)
    ensures
        r == v.deep_view().contains(x@),
{
    let mut i: usize = 0;
    while i < v.len()
        invariant
            i <= v@.len(),
            forall|j: int| 0 <= j < i ==> (#[trigger] v.deep_view()[j]) != x@,
        decreases v@.len() - i,
    {
        if str_eq(v[i].as_str(), x) {
            proof {
                assert(v.deep_view()[i as int] == x@);
            }
            return true;
        }
        i = i + 1;
    }
    proof {
        if v.deep_view().contains(x@) {
            let j = choose|j: int| 0 <= j < v.deep_view().len() && v.deep_view()[j] == x@;
            assert(v.deep_view()[j] != x@);
        }
    }
    false
}

/// Whether some collapsed group claims the tag for an item that is
/// not excepted from it.
pub open spec fn spec_tag_in_groups(
    tag: Seq<char>,
    id: Seq<char>,
    groups: Seq<(Seq<Seq<char>>, Seq<Seq<char>>, Seq<char>)>,
) -> bool {
    exists|gi: int|
        0 <= gi < groups.len() && (#[trigger] groups[gi]).0.contains(tag) && !groups[gi].1.contains(
            id,
        )
}

/// Exec counterpart of [`spec_tag_in_groups`].
fn tag_in_groups(tag: &String, id: &String, gs: &Vec<(Vec<String>, Vec<String>, String)>) -> (r:
    bool)
    ensures
        r == spec_tag_in_groups(tag@, id@, gs.deep_view()),
{
    let mut gi: usize = 0;
    while gi < gs.len()
        invariant
            gi <= gs@.len(),
            forall|j: int| 0 <= j < gi ==> !((#[trigger] gs.deep_view()[j]).0.contains(tag@)
                && !gs.deep_view()[j].1.contains(id@)),
        decreases gs@.len() - gi,
    {
        proof {
            assert(gs.deep_view()[gi as int] == (
                gs@[gi as int].0.deep_view(),
                gs@[gi as int].1.deep_view(),
                gs@[gi as int].2@,
            ));
        }
        if contains_str(&gs[gi].0, tag.as_str()) && !contains_str(&gs[gi].1, id.as_str()) {
            return true;
        }
        gi = gi + 1;
    }
    proof {
        if spec_tag_in_groups(tag@, id@, gs.deep_view()) {
            let j = choose|j: int|
                0 <= j < gs.deep_view().len() && (#[trigger] gs.deep_view()[j]).0.contains(tag@)
                    && !gs.deep_view()[j].1.contains(id@);
            assert(!(gs.deep_view()[j].0.contains(tag@) && !gs.deep_view()[j].1.contains(id@)));
        }
    }
    false
}

/// Whether the item belongs to some collapsed display group and so is
/// left out of the per-item rows.
pub open spec fn spec_in_collapsed_group(
    item: SpecItem,
    groups: Seq<(Seq<Seq<char>>, Seq<Seq<char>>, Seq<char>)>,
) -> bool {
    exists|ti: int|
        0 <= ti < item.tags.len() && spec_tag_in_groups(#[trigger] item.tags[ti], item.id, groups)
}

/// Exec counterpart of [`spec_in_collapsed_group`].
fn in_collapsed_group(item: &Item, gs: &Vec<(Vec<String>, Vec<String>, String)>) -> (r: bool)
    ensures
        r == spec_in_collapsed_group(item@, gs.deep_view()),
{
    let mut ti: usize = 0;
    while ti < item.tags.len()
        invariant
            ti <= item.tags@.len(),
            forall|j: int| 0 <= j < ti ==> !spec_tag_in_groups(
                #[trigger] item.tags.deep_view()[j],
                item.id@,
                gs.deep_view(),
            ),
        decreases item.tags@.len() - ti,
    {
        proof {
            assert(item.tags.deep_view()[ti as int] == item.tags@[ti as int]@);
            assert(item@.tags[ti as int] == item.tags.deep_view()[ti as int]);
        }
        if tag_in_groups(&item.tags[ti], &item.id, gs) {
            return true;
        }
        ti = ti + 1;
    }
    proof {
        if spec_in_collapsed_group(item@, gs.deep_view()) {
            let j = choose|j: int|
                0 <= j < item@.tags.len() && spec_tag_in_groups(
                    #[trigger] item@.tags[j],
                    item@.id,
                    gs.deep_view(),
                );
            assert(!spec_tag_in_groups(item.tags.deep_view()[j], item.id@, gs.deep_view()));
        }
    }
    false
}

/// Whether any of the item's tags stands in the member-tag set.
pub open spec fn spec_any_tag_in(tags: Seq<Seq<char>>, set: Seq<Seq<char>>) -> bool {
    exists|ti: int| 0 <= ti < tags.len() && set.contains(#[trigger] tags[ti])
}

/// Exec counterpart of [`spec_any_tag_in`].
fn any_tag_in(tags: &Vec<String>, set: &Vec<String>) -> (r: bool)
    ensures
        r == spec_any_tag_in(tags.deep_view(), set.deep_view()),
{
    let mut ti: usize = 0;
    while ti < tags.len()
        invariant
            ti <= tags@.len(),
            forall|j: int| 0 <= j < ti ==> !set.deep_view().contains(
                #[trigger] tags.deep_view()[j],
            ),
        decreases tags@.len() - ti,
    {
        if contains_str(set, tags[ti].as_str()) {
            proof {
                assert(set.deep_view().contains(tags.deep_view()[ti as int]));
            }
            return true;
        }
        ti = ti + 1;
    }
    proof {
        if spec_any_tag_in(tags.deep_view(), set.deep_view()) {
            let j = choose|j: int|
                0 <= j < tags.deep_view().len() && set.deep_view().contains(
                    #[trigger] tags.deep_view()[j],
                );
            assert(!set.deep_view().contains(tags.deep_view()[j]));
        }
    }
    false
}

} // verus!

verus! {

/// One rendered material reference per fabrication material: a
/// concrete identifier is linked directly; the `wire` tag resolves
/// through the item whose identifier is `wire`; any other tag is an
/// open question and fails.
pub open spec fn spec_fab_mat_names(
    mats: Seq<(crate::model::SpecRequiredItem, i32)>,
    items: Seq<SpecItem>,
    size: Option<i32>,
) -> Result<Seq<Seq<char>>, Error>
    decreases mats.len(),
{
    if mats.len() == 0 {
        Ok(Seq::empty())
    } else {
        match spec_fab_mat_names(mats.drop_last(), items, size) {
            Err(e) => Err(e),
            Ok(prev) => {
                let m = mats.last();
                let linked = match m.0 {
                    crate::model::SpecRequiredItem::Id(id) => spec_linkify(items, id, m.1, size),
                    crate::model::SpecRequiredItem::Tag(t) => if t == "wire"@ {
                        spec_linkify(items, "wire"@, m.1, size)
                    } else {
                        Err(Error::UnknownTag)
                    },
                };
                match linked {
                    Err(e) => Err(e),
                    Ok(line) => Ok(prev.push(line)),
                }
            },
        }
    }
}

/// A failure on a prefix of the materials decides the whole list.
proof fn lemma_fab_mat_names_err(
    mats: Seq<(crate::model::SpecRequiredItem, i32)>,
    n: int,
    items: Seq<SpecItem>,
    size: Option<i32>,
)
    requires
        0 <= n <= mats.len(),
        spec_fab_mat_names(mats.subrange(0, n), items, size) is Err,
    ensures
        spec_fab_mat_names(mats, items, size) == spec_fab_mat_names(
            mats.subrange(0, n),
            items,
            size,
        ),
    decreases mats.len() - n,
{
    if n == mats.len() {
        assert(mats.subrange(0, n) =~= mats);
    } else {
        assert(mats.subrange(0, n + 1).drop_last() =~= mats.subrange(0, n));
        lemma_fab_mat_names_err(mats, n + 1, items, size);
    }
}

/// Renders the material references of a fabrication recipe.
pub(crate) fn fab_mat_names(
    mats: &Vec<(crate::model::RequiredItem, i32)>,
    items: &Vec<Item>,
    size: Option<i32>,
) -> (r: Result<Vec<String>, Error>)
    ensures
        match r {
            Ok(names) => spec_fab_mat_names(mats.deep_view(), items.deep_view(), size) == Ok::<
                Seq<Seq<char>>,
                Error,
            >(names.deep_view()),
            Err(e) => spec_fab_mat_names(mats.deep_view(), items.deep_view(), size) == Err::<
                Seq<Seq<char>>,
                Error,
            >(e),
        },
{
    let ghost mv = mats.deep_view();
    let mut names: Vec<String> = Vec::new();
    let mut i: usize = 0;
    proof {
        assert(mv.subrange(0, 0) =~= Seq::<(crate::model::SpecRequiredItem, i32)>::empty());
        assert(names.deep_view() =~= Seq::<Seq<char>>::empty());
    }
    while i < mats.len()
        invariant
            i <= mats@.len(),
            mv == mats.deep_view(),
            mv.len() == mats@.len(),
            spec_fab_mat_names(mv.subrange(0, i as int), items.deep_view(), size) == Ok::<
                Seq<Seq<char>>,
                Error,
            >(names.deep_view()),
        decreases mats@.len() - i,
    {
        proof {
            assert(mv.subrange(0, i as int + 1).drop_last() =~= mv.subrange(0, i as int));
            assert(mv.subrange(0, i as int + 1).last() == mv[i as int]);
            assert(mv[i as int] == (mats@[i as int].0@, mats@[i as int].1));
        }
        let linked = match &mats[i].0 {
            crate::model::RequiredItem::Id(id) => linkify_item(items, id.as_str(), mats[i].1, size),
            crate::model::RequiredItem::Tag(t) => {
                if str_eq(t.as_str(), "wire") {
                    linkify_item(items, "wire", mats[i].1, size)
                } else {
                    Err(Error::UnknownTag)
                }
            },
        };
        match linked {
            Err(e) => {
                proof {
                    lemma_fab_mat_names_err(mv, i as int + 1, items.deep_view(), size);
                }
                return Err(e);
            },
            Ok(line) => {
                let ghost n0 = names.deep_view();
                names.push(line);
                proof {
                    assert(names.deep_view() =~= n0.push(names@.last()@));
                }
            },
        }
        i = i + 1;
    }
    proof {
        assert(mv.subrange(0, mv.len() as int) =~= mv);
    }
    Ok(names)
}

/// The fabrication materials read as (identifier, count) rows for the
/// deconstruction comparison, tag materials standing in as an
/// unresolved placeholder.
pub open spec fn spec_fab_ids(mats: Seq<(crate::model::SpecRequiredItem, i32)>) -> Seq<
    (Seq<char>, i32),
> {
    mats.map_values(
        |m: (crate::model::SpecRequiredItem, i32)|
            match m.0 {
                crate::model::SpecRequiredItem::Id(id) => (id, m.1),
                crate::model::SpecRequiredItem::Tag(_) => ("not_found"@, 99i32),
            },
    )
}

/// Exec counterpart of [`spec_fab_ids`].
fn fab_ids(mats: &Vec<(crate::model::RequiredItem, i32)>) -> (r: Vec<(String, i32)>)
    ensures
        r.deep_view() == spec_fab_ids(mats.deep_view()),
{
    let ghost mv = mats.deep_view();
    let mut out: Vec<(String, i32)> = Vec::new();
    let mut i: usize = 0;
    while i < mats.len()
        invariant
            i <= mats@.len(),
            mv == mats.deep_view(),
            mv.len() == mats@.len(),
            out.deep_view() =~= spec_fab_ids(mv).subrange(0, i as int),
        decreases mats@.len() - i,
    {
        proof {
            assert(mv[i as int] == (mats@[i as int].0@, mats@[i as int].1));
        }
        let ghost o0 = out.deep_view();
        match &mats[i].0 {
            crate::model::RequiredItem::Id(id) => {
                out.push((id.clone(), mats[i].1));
            },
            crate::model::RequiredItem::Tag(_) => {
                out.push((String::from_str("not_found"), 99));
            },
        }
        proof {
            assert(out.deep_view() =~= o0.push(spec_fab_ids(mv)[i as int]));
            assert(out.deep_view() =~= spec_fab_ids(mv).subrange(0, i as int + 1));
        }
        i = i + 1;
    }
    proof {
        assert(spec_fab_ids(mv).subrange(0, mv.len() as int) =~= spec_fab_ids(mv));
    }
    out
}

/// One rendered material reference per deconstruction material.
pub open spec fn spec_decon_names(
    mats: Seq<(Seq<char>, i32)>,
    items: Seq<SpecItem>,
    size: Option<i32>,
) -> Result<Seq<Seq<char>>, Error>
    decreases mats.len(),
{
    if mats.len() == 0 {
        Ok(Seq::empty())
    } else {
        match spec_decon_names(mats.drop_last(), items, size) {
            Err(e) => Err(e),
            Ok(prev) => match spec_linkify(items, mats.last().0, mats.last().1, size) {
                Err(e) => Err(e),
                Ok(line) => Ok(prev.push(line)),
            },
        }
    }
}

/// A failure on a prefix of the materials decides the whole list.
proof fn lemma_decon_names_err(
    mats: Seq<(Seq<char>, i32)>,
    n: int,
    items: Seq<SpecItem>,
    size: Option<i32>,
)
    requires
        0 <= n <= mats.len(),
        spec_decon_names(mats.subrange(0, n), items, size) is Err,
    ensures
        spec_decon_names(mats, items, size) == spec_decon_names(mats.subrange(0, n), items, size),
    decreases mats.len() - n,
{
    if n == mats.len() {
        assert(mats.subrange(0, n) =~= mats);
    } else {
        assert(mats.subrange(0, n + 1).drop_last() =~= mats.subrange(0, n));
        lemma_decon_names_err(mats, n + 1, items, size);
    }
}

/// Renders the material references of a deconstruction recipe.
pub(crate) fn decon_names(mats: &Vec<(String, i32)>, items: &Vec<Item>, size: Option<i32>) -> (r:
    Result<Vec<String>, Error>)
    ensures
        match r {
            Ok(names) => spec_decon_names(mats.deep_view(), items.deep_view(), size) == Ok::<
                Seq<Seq<char>>,
                Error,
            >(names.deep_view()),
            Err(e) => spec_decon_names(mats.deep_view(), items.deep_view(), size) == Err::<
                Seq<Seq<char>>,
                Error,
            >(e),
        },
{
    let ghost mv = mats.deep_view();
    let mut names: Vec<String> = Vec::new();
    let mut i: usize = 0;
    proof {
        assert(mv.subrange(0, 0) =~= Seq::<(Seq<char>, i32)>::empty());
        assert(names.deep_view() =~= Seq::<Seq<char>>::empty());
    }
    while i < mats.len()
        invariant
            i <= mats@.len(),
            mv == mats.deep_view(),
            mv.len() == mats@.len(),
            spec_decon_names(mv.subrange(0, i as int), items.deep_view(), size) == Ok::<
                Seq<Seq<char>>,
                Error,
            >(names.deep_view()),
        decreases mats@.len() - i,
    {
        proof {
            assert(mv.subrange(0, i as int + 1).drop_last() =~= mv.subrange(0, i as int));
            assert(mv.subrange(0, i as int + 1).last() == mv[i as int]);
            assert(mv[i as int] == (mats@[i as int].0@, mats@[i as int].1));
        }
        match linkify_item(items, mats[i].0.as_str(), mats[i].1, size) {
            Err(e) => {
                proof {
                    lemma_decon_names_err(mv, i as int + 1, items.deep_view(), size);
                }
                return Err(e);
            },
            Ok(line) => {
                let ghost n0 = names.deep_view();
                names.push(line);
                proof {
                    assert(names.deep_view() =~= n0.push(names@.last()@));
                }
            },
        }
        i = i + 1;
    }
    proof {
        assert(mv.subrange(0, mv.len() as int) =~= mv);
    }
    Ok(names)
}

/// The deconstruction column of a fabrication row: `-` when the
/// deconstruction materials are, as a multiset of identifier and
/// count, exactly the fabrication materials; the rendered list
/// otherwise; a note when the item cannot be deconstructed.
pub open spec fn spec_decon_cell(
    item: SpecItem,
    fab: crate::model::SpecFabricate,
    items: Seq<SpecItem>,
) -> Result<Seq<char>, Error> {
    match item.deconstruct {
        None => Ok("Not deconstructable"@),
        Some(d) => if crate::parse::spec_sort_mat_ids(spec_fab_ids(fab.mats))
            == crate::parse::spec_sort_mat_ids(d.mats) {
            Ok("-"@)
        } else {
            match spec_decon_names(d.mats, items, Some(30)) {
                Err(e) => Err(e),
                Ok(names) => Ok(crate::text::spec_join(names, " <br> "@)),
            }
        },
    }
}

/// Whether two sorted material lists hold the same rows.
fn mat_lists_equal(a: &Vec<(String, i32)>, b: &Vec<(String, i32)>) -> (r: bool)
    ensures
        r == (a.deep_view() == b.deep_view()),
{
    if a.len() != b.len() {
        proof {
            assert(a.deep_view().len() == a@.len());
            assert(b.deep_view().len() == b@.len());
        }
        return false;
    }
    let mut i: usize = 0;
    while i < a.len()
        invariant
            i <= a@.len(),
            a@.len() == b@.len(),
            forall|j: int| 0 <= j < i ==> (#[trigger] a.deep_view()[j]) == b.deep_view()[j],
        decreases a@.len() - i,
    {
        proof {
            assert(a.deep_view()[i as int] == (a@[i as int].0@, a@[i as int].1));
            assert(b.deep_view()[i as int] == (b@[i as int].0@, b@[i as int].1));
        }
        if !str_eq(a[i].0.as_str(), b[i].0.as_str()) || a[i].1 != b[i].1 {
            return false;
        }
        i = i + 1;
    }
    proof {
        assert(a.deep_view() =~= b.deep_view());
    }
    true
}

/// Renders the deconstruction column of a fabrication row.
fn decon_cell(item: &Item, fab: &crate::model::Fabricate, items: &Vec<Item>) -> (r: Result<
    String,
    Error,
>)
    ensures
        crate::model::rview(r) == spec_decon_cell(item@, fab@, items.deep_view()),
{
    match &item.deconstruct {
        None => Ok(String::from_str("Not deconstructable")),
        Some(d) => {
            let fab_sorted = crate::parse::sort_mat_ids(fab_ids(&fab.mats));
            let d_sorted = crate::parse::sort_mat_ids(crate::model::duplicate_string_counts(
                &d.mats,
            ));
            if mat_lists_equal(&fab_sorted, &d_sorted) {
                Ok(String::from_str("-"))
            } else {
                match decon_names(&d.mats, items, Some(30)) {
                    Err(e) => Err(e),
                    Ok(names) => Ok(crate::text::join_strings(&names, " <br> ")),
                }
            }
        },
    }
}

} // verus!

verus! {

/// One fabrication-table row: heading with optional output count,
/// material list, time, skills, and the deconstruction column.
pub open spec fn spec_fab_row(
    item: SpecItem,
    fab: crate::model::SpecFabricate,
    items: Seq<SpecItem>,
    name_override: Option<Seq<char>>,
) -> Result<Seq<char>, Error> {
    match spec_fab_mat_names(fab.mats, items, Some(30)) {
        Err(e) => Err(e),
        Ok(names) => {
            let fab_line = crate::text::spec_join(names, " <br> "@);
            match spec_decon_cell(item, fab, items) {
                Err(e) => Err(e),
                Ok(dc) => match spec_skills_cell(fab.skills) {
                    Err(e) => Err(e),
                    Ok(sk) => match spec_fab_display(item, name_override) {
                        Err(e) => Err(e),
                        Ok(dn) => {
                            let amount = if fab.out_amount > 1 {
                                " (x"@ + crate::text::spec_i64_str(fab.out_amount as int) + ")"@
                            } else {
                                Seq::<char>::empty()
                            };
                            Ok(
                                "|-\n| align=\"center\" | "@ + dn + amount
                                    + "\n| align=\"left-index\" | "@ + fab_line
                                    + " \n| align=\"center\" | "@ + crate::text::spec_i64_str(
                                    fab.time as int,
                                ) + "\n| align=\"center\" | "@ + sk
                                    + "\n| align=\"left-index\" | "@ + dc + "\n"@,
                            )
                        },
                    },
                },
            }
        },
    }
}

/// Renders one fabrication-table row.
fn fab_row(
    item: &Item,
    fab: &crate::model::Fabricate,
    items: &Vec<Item>,
    name_override: Option<&String>,
) -> (r: Result<String, Error>)
    ensures
        crate::model::rview(r) == spec_fab_row(item@, fab@, items.deep_view(), name_override.deep_view()),
{
    let names = match fab_mat_names(&fab.mats, items, Some(30)) {
        Err(e) => {
            return Err(e);
        },
        Ok(ns) => ns,
    };
    let fab_line = crate::text::join_strings(&names, " <br> ");
    let dc = match decon_cell(item, fab, items) {
        Err(e) => {
            return Err(e);
        },
        Ok(x) => x,
    };
    let sk = match skills_cell(&fab.skills) {
        Err(e) => {
            return Err(e);
        },
        Ok(x) => x,
    };
    let dn = match fab_display(item, name_override) {
        Err(e) => {
            return Err(e);
        },
        Ok(x) => x,
    };
    let mut line = String::from_str("|-\n| align=\"center\" | ");
    line.append(dn.as_str());
    if fab.out_amount > 1 {
        line.append(" (x");
        line.append(crate::text::i32_to_string(fab.out_amount).as_str());
        line.append(")");
    }
    line.append("\n| align=\"left-index\" | ");
    line.append(fab_line.as_str());
    line.append(" \n| align=\"center\" | ");
    line.append(crate::text::i32_to_string(fab.time).as_str());
    line.append("\n| align=\"center\" | ");
    line.append(sk.as_str());
    line.append("\n| align=\"left-index\" | ");
    line.append(dc.as_str());
    line.append("\n");
    proof {
        assert(line@ =~= spec_fab_row(
            item@,
            fab@,
            items.deep_view(),
            name_override.deep_view(),
        )->Ok_0);
    }
    Ok(line)
}

/// Whether an item gets its own fabrication row: not blacklisted, a
/// recipe present, not claimed by a collapsed group, and made at the
/// requested station.
pub open spec fn spec_row_selected(item: SpecItem, fab_type: Seq<char>) -> bool {
    &&& !spec_fab_blacklist().contains(item.id)
    &&& item.fabricate is Some
    &&& !spec_in_collapsed_group(item, spec_groups())
    &&& item.fabricate->0.fabricator == fab_type
}

/// Exec counterpart of [`spec_row_selected`].
fn row_selected(item: &Item, fab_type: &str, gs: &Vec<(Vec<String>, Vec<String>, String)>) -> (r:
    bool)
    requires
        gs.deep_view() == spec_groups(),
    ensures
        r == spec_row_selected(item@, fab_type@),
{
    if str_eq(item.id.as_str(), "lightcomponent90") {
        proof {
            assert(spec_fab_blacklist()[0] == "lightcomponent90"@);
            assert(spec_fab_blacklist().contains(item@.id));
        }
        return false;
    }
    proof {
        assert(!spec_fab_blacklist().contains(item@.id)) by {
            if spec_fab_blacklist().contains(item@.id) {
                let j = choose|j: int|
                    0 <= j < spec_fab_blacklist().len() && spec_fab_blacklist()[j] == item@.id;
                assert(spec_fab_blacklist()[j] == "lightcomponent90"@);
            }
        }
    }
    let fab = match &item.fabricate {
        None => {
            return false;
        },
        Some(f) => f,
    };
    if in_collapsed_group(item, gs) {
        return false;
    }
    str_eq(fab.fabricator.as_str(), fab_type)
}

/// The per-item rows of the fabrication table, from index `i` of the
/// name-sorted catalog on.
pub open spec fn spec_fab_rows_from(
    sorted: Seq<SpecItem>,
    i: int,
    fab_type: Seq<char>,
) -> Result<Seq<char>, Error>
    decreases (if i < sorted.len() {
        sorted.len() - i
    } else {
        0
    }),
{
    if i < 0 || i >= sorted.len() {
        Ok(Seq::empty())
    } else if spec_row_selected(sorted[i], fab_type) {
        match spec_fab_row(sorted[i], sorted[i].fabricate->0, sorted, None) {
            Err(e) => Err(e),
            Ok(line) => match spec_fab_rows_from(sorted, i + 1, fab_type) {
                Err(e) => Err(e),
                Ok(rest) => Ok(line + rest),
            },
        }
    } else {
        spec_fab_rows_from(sorted, i + 1, fab_type)
    }
}

/// A fabrication recipe with its material list brought into display
/// order: the working copy the group-consistency check renders.
pub open spec fn spec_sorted_fab(fab: crate::model::SpecFabricate) -> crate::model::SpecFabricate {
    crate::model::SpecFabricate {
        out_amount: fab.out_amount,
        skills: fab.skills,
        time: fab.time,
        mats: spec_sort_mats(fab.mats),
        fabricator: fab.fabricator,
    }
}

/// Builds the sorted working copy of a recipe.
fn sorted_fab(fab: &crate::model::Fabricate) -> (r: crate::model::Fabricate)
    ensures
        r@ == spec_sorted_fab(fab@),
{
    let r = crate::model::Fabricate {
        out_amount: fab.out_amount,
        skills: crate::model::duplicate_string_counts(&fab.skills),
        time: fab.time,
        mats: sort_mats(&fab.mats),
        fabricator: fab.fabricator.clone(),
    };
    proof {
        assert(r@ =~= spec_sorted_fab(fab@));
    }
    r
}

/// Whether an item is rendered into a collapsed group's row: not
/// excepted, a recipe at the requested station, and a member tag.
pub open spec fn spec_group_qualifies(
    item: SpecItem,
    fab_type: Seq<char>,
    g: (Seq<Seq<char>>, Seq<Seq<char>>, Seq<char>),
) -> bool {
    &&& !g.1.contains(item.id)
    &&& item.fabricate is Some
    &&& item.fabricate->0.fabricator == fab_type
    &&& spec_any_tag_in(item.tags, g.0)
}

/// Exec counterpart of [`spec_group_qualifies`].
fn group_qualifies(item: &Item, fab_type: &str, g: &(Vec<String>, Vec<String>, String)) -> (r:
    bool)
    ensures
        r == spec_group_qualifies(item@, fab_type@, g.deep_view()),
{
    proof {
        assert(g.deep_view() == (g.0.deep_view(), g.1.deep_view(), g.2@));
    }
    if contains_str(&g.1, item.id.as_str()) {
        return false;
    }
    let fab = match &item.fabricate {
        None => {
            return false;
        },
        Some(f) => f,
    };
    if !str_eq(fab.fabricator.as_str(), fab_type) {
        return false;
    }
    any_tag_in(&item.tags, &g.0)
}

/// The scan that renders one collapsed group: every qualifying item's
/// row (rendered from the sorted working copy under the group's
/// heading) must equal the first one; the result is that canonical
/// row, or nothing when no item qualifies.
pub open spec fn spec_group_scan(
    sorted: Seq<SpecItem>,
    i: int,
    fab_type: Seq<char>,
    g: (Seq<Seq<char>>, Seq<Seq<char>>, Seq<char>),
    canonical: Option<Seq<char>>,
) -> Result<Option<Seq<char>>, Error>
    decreases (if i < sorted.len() {
        sorted.len() - i
    } else {
        0
    }),
{
    if i < 0 || i >= sorted.len() {
        Ok(canonical)
    } else if spec_group_qualifies(sorted[i], fab_type, g) {
        match spec_fab_row(sorted[i], spec_sorted_fab(sorted[i].fabricate->0), sorted, Some(g.2)) {
            Err(e) => Err(e),
            Ok(line) => match canonical {
                None => spec_group_scan(sorted, i + 1, fab_type, g, Some(line)),
                Some(cl) => if line == cl {
                    spec_group_scan(sorted, i + 1, fab_type, g, canonical)
                } else {
                    Err(Error::InconsistentGroup)
                },
            },
        }
    } else {
        spec_group_scan(sorted, i + 1, fab_type, g, canonical)
    }
}

/// Renders one collapsed group's row, checking that every member
/// renders identically.
fn group_row(
    sorted: &Vec<Item>,
    fab_type: &str,
    g: &(Vec<String>, Vec<String>, String),
) -> (r: Result<Option<String>, Error>)
    ensures
        match r {
            Ok(Some(line)) => spec_group_scan(
                sorted.deep_view(),
                0,
                fab_type@,
                g.deep_view(),
                None,
            ) == Ok::<Option<Seq<char>>, Error>(Some(line@)),
            Ok(None) => spec_group_scan(sorted.deep_view(), 0, fab_type@, g.deep_view(), None)
                == Ok::<Option<Seq<char>>, Error>(None),
            Err(e) => spec_group_scan(sorted.deep_view(), 0, fab_type@, g.deep_view(), None)
                == Err::<Option<Seq<char>>, Error>(e),
        },
{
    let ghost sv = sorted.deep_view();
    let ghost gv = g.deep_view();
    let mut canonical: Option<String> = None;
    let mut i: usize = 0;
    while i < sorted.len()
        invariant
            i <= sorted@.len(),
            sv == sorted.deep_view(),
            sv.len() == sorted@.len(),
            gv == g.deep_view(),
            spec_group_scan(sv, 0, fab_type@, gv, None) == spec_group_scan(
                sv,
                i as int,
                fab_type@,
                gv,
                canonical.deep_view(),
            ),
        decreases sorted@.len() - i,
    {
        let item = &sorted[i];
        proof {
            assert(sv[i as int] == sorted@[i as int]@);
        }
        if group_qualifies(item, fab_type, g) {
            let fab = match &item.fabricate {
                None => {
                    proof {
                        assert(false);
                    }
                    return Err(Error::UnknownItem);
                },
                Some(f) => f,
            };
            let sorted_copy = sorted_fab(fab);
            match fab_row(item, &sorted_copy, sorted, Some(&g.2)) {
                Err(e) => {
                    return Err(e);
                },
                Ok(line) => {
                    match &canonical {
                        None => {
                            canonical = Some(line);
                        },
                        Some(cl) => {
                            if !str_eq(line.as_str(), cl.as_str()) {
                                return Err(Error::InconsistentGroup);
                            }
                            proof {
                                assert(line@ == cl@);
                            }
                        },
                    }
                },
            }
        }
        i = i + 1;
    }
    match canonical {
        None => Ok(None),
        Some(cl) => Ok(Some(cl)),
    }
}

/// The group rows of the fabrication table, from group index `gi` on.
pub open spec fn spec_group_rows_from(
    sorted: Seq<SpecItem>,
    gi: int,
    fab_type: Seq<char>,
) -> Result<Seq<char>, Error>
    decreases (if gi < spec_groups().len() {
        spec_groups().len() - gi
    } else {
        0
    }),
{
    if gi < 0 || gi >= spec_groups().len() {
        Ok(Seq::empty())
    } else {
        match spec_group_scan(sorted, 0, fab_type, spec_groups()[gi], None) {
            Err(e) => Err(e),
            Ok(None) => spec_group_rows_from(sorted, gi + 1, fab_type),
            Ok(Some(cl)) => match spec_group_rows_from(sorted, gi + 1, fab_type) {
                Err(e) => Err(e),
                Ok(rest) => Ok(cl + rest),
            },
        }
    }
}

/// The fabrication-table heading.
pub open spec fn spec_fab_header() -> Seq<char> {
    "{| class=\"wikitable sortable\" style=\"width: 50%; font-size: 90%;\"\n! style=\"width: 15%\" | Item\n! style=\"width: 30%\" | Materials to Craft \n! style=\"width: 10%\" | Time (seconds)\n! style=\"width: 15%\" | Skill \n! style=\"width: 30%\" | <abbr title=\"If different from the crafting recipe\">Deconstructs to</abbr>\n"@
}

/// The table footer shared by both wikitable renderers.
pub open spec fn spec_table_footer() -> Seq<char> {
    "|-\n|}\n"@
}

/// The whole fabrication table for one fabricator station: heading,
/// one row per qualifying item in display-name order, one collapsed
/// row per display group, and the footer.
pub open spec fn spec_fabricate_table(items: Seq<SpecItem>, fab_type: Seq<char>) -> Result<
    Seq<char>,
    Error,
> {
    let sorted = spec_sort_items(items);
    match spec_fab_rows_from(sorted, 0, fab_type) {
        Err(e) => Err(e),
        Ok(rows) => match spec_group_rows_from(sorted, 0, fab_type) {
            Err(e) => Err(e),
            Ok(grows) => Ok(spec_fab_header() + rows + grows + spec_table_footer()),
        },
    }
}

/// Renders the fabrication table for one fabricator station.
pub fn fabricate_table(items: &Vec<Item>, fab_type: &str) -> (r: Result<String, Error>)
    ensures
        crate::model::rview(r) == spec_fabricate_table(items.deep_view(), fab_type@),
{
    let sorted = sort_items(items);
    let ghost sv = sorted.deep_view();
    let gs = groups();
    let mut body = String::new();
    let mut i: usize = 0;
    while i < sorted.len()
        invariant
            i <= sorted@.len(),
            sv == sorted.deep_view(),
            sv == spec_sort_items(items.deep_view()),
            sv.len() == sorted@.len(),
            gs.deep_view() == spec_groups(),
            spec_fab_rows_from(sv, i as int, fab_type@) matches Ok(rest) ==> spec_fab_rows_from(
                sv,
                0,
                fab_type@,
            ) == Ok::<Seq<char>, Error>(body@ + rest),
            spec_fab_rows_from(sv, i as int, fab_type@) is Err ==> spec_fab_rows_from(
                sv,
                0,
                fab_type@,
            ) == spec_fab_rows_from(sv, i as int, fab_type@),
        decreases sorted@.len() - i,
    {
        let item = &sorted[i];
        proof {
            assert(sv[i as int] == sorted@[i as int]@);
        }
        if row_selected(item, fab_type, &gs) {
            let fab = match &item.fabricate {
                None => {
                    proof {
                        assert(false);
                    }
                    return Err(Error::UnknownItem);
                },
                Some(f) => f,
            };
            proof {
                assert(sv[i as int].fabricate == Some(fab@));
            }
            match fab_row(item, fab, &sorted, None) {
                Err(e) => {
                    proof {
                        assert(spec_fab_row(sv[i as int], sv[i as int].fabricate->0, sv, None)
                            == Err::<Seq<char>, Error>(e));
                        assert(spec_fab_rows_from(sv, i as int, fab_type@) == Err::<
                            Seq<char>,
                            Error,
                        >(e));
                    }
                    return Err(e);
                },
                Ok(line) => {
                    let ghost b0 = body@;
                    body.append(line.as_str());
                    proof {
                        assert(spec_fab_row(sv[i as int], sv[i as int].fabricate->0, sv, None)
                            == Ok::<Seq<char>, Error>(line@));
                        if spec_fab_rows_from(sv, i as int + 1, fab_type@) is Ok {
                            let rest = spec_fab_rows_from(sv, i as int + 1, fab_type@)->Ok_0;
                            assert(spec_fab_rows_from(sv, i as int, fab_type@) == Ok::<
                                Seq<char>,
                                Error,
                            >(line@ + rest));
                            assert(b0 + (line@ + rest) =~= body@ + rest);
                        } else {
                            assert(spec_fab_rows_from(sv, i as int, fab_type@)
                                == spec_fab_rows_from(sv, i as int + 1, fab_type@));
                        }
                    }
                },
            }
        } else {
            proof {
                assert(spec_fab_rows_from(sv, i as int, fab_type@) == spec_fab_rows_from(
                    sv,
                    i as int + 1,
                    fab_type@,
                ));
            }
        }
        i = i + 1;
    }
    proof {
        assert(spec_fab_rows_from(sv, sv.len() as int, fab_type@) == Ok::<Seq<char>, Error>(
            Seq::<char>::empty(),
        ));
        assert(body@ + Seq::<char>::empty() =~= body@);
    }
    let mut grows = String::new();
    let mut gi: usize = 0;
    while gi < gs.len()
        invariant
            gi <= gs@.len(),
            sv == sorted.deep_view(),
            sv == spec_sort_items(items.deep_view()),
            gs.deep_view() == spec_groups(),
            gs@.len() == spec_groups().len(),
            spec_fab_rows_from(sv, 0, fab_type@) == Ok::<Seq<char>, Error>(body@),
            spec_group_rows_from(sv, gi as int, fab_type@) matches Ok(rest)
                ==> spec_group_rows_from(sv, 0, fab_type@) == Ok::<Seq<char>, Error>(
                grows@ + rest,
            ),
            spec_group_rows_from(sv, gi as int, fab_type@) is Err ==> spec_group_rows_from(
                sv,
                0,
                fab_type@,
            ) == spec_group_rows_from(sv, gi as int, fab_type@),
        decreases gs@.len() - gi,
    {
        proof {
            assert(gs.deep_view()[gi as int] == spec_groups()[gi as int]);
        }
        match group_row(&sorted, fab_type, &gs[gi]) {
            Err(e) => {
                proof {
                    assert(spec_group_rows_from(sv, gi as int, fab_type@) == Err::<
                        Seq<char>,
                        Error,
                    >(e));
                }
                return Err(e);
            },
            Ok(None) => {
                proof {
                    assert(spec_group_rows_from(sv, gi as int, fab_type@) == spec_group_rows_from(
                        sv,
                        gi as int + 1,
                        fab_type@,
                    ));
                }
            },
            Ok(Some(cl)) => {
                let ghost g0 = grows@;
                grows.append(cl.as_str());
                proof {
                    if spec_group_rows_from(sv, gi as int + 1, fab_type@) is Ok {
                        let rest = spec_group_rows_from(sv, gi as int + 1, fab_type@)->Ok_0;
                        assert(spec_group_rows_from(sv, gi as int, fab_type@) == Ok::<
                            Seq<char>,
                            Error,
                        >(cl@ + rest));
                        assert(g0 + (cl@ + rest) =~= grows@ + rest);
                    } else {
                        assert(spec_group_rows_from(sv, gi as int, fab_type@)
                            == spec_group_rows_from(sv, gi as int + 1, fab_type@));
                    }
                }
            },
        }
        gi = gi + 1;
    }
    proof {
        assert(spec_group_rows_from(sv, gs@.len() as int, fab_type@) == Ok::<Seq<char>, Error>(
            Seq::<char>::empty(),
        ));
        assert(grows@ + Seq::<char>::empty() =~= grows@);
    }
    let mut out = String::from_str(
        "{| class=\"wikitable sortable\" style=\"width: 50%; font-size: 90%;\"\n! style=\"width: 15%\" | Item\n! style=\"width: 30%\" | Materials to Craft \n! style=\"width: 10%\" | Time (seconds)\n! style=\"width: 15%\" | Skill \n! style=\"width: 30%\" | <abbr title=\"If different from the crafting recipe\">Deconstructs to</abbr>\n",
    );
    out.append(body.as_str());
    out.append(grows.as_str());
    out.append("|-\n|}\n");
    proof {
        assert(out@ =~= spec_fabricate_table(items.deep_view(), fab_type@)->Ok_0);
    }
    Ok(out)
}

} // verus!

verus! {

/// The identifiers the deconstruction table never shows.
pub open spec fn spec_decon_blacklist() -> Seq<Seq<char>> {
    seq!["wire"@, "psilotoadegg"@, "balloonegg"@, "orangeboyegg"@]
}

/// The image-and-link heading of a deconstruction row, with the
/// explicit per-item image-name overrides whose wiki assets break the
/// naming convention.
pub open spec fn spec_decon_display(item: SpecItem, name_override: Option<Seq<char>>) -> Result<
    Seq<char>,
    Error,
> {
    match name_override {
        Some(no) => Ok(no),
        None => match item.name {
            None => Err(Error::UnnamedItem),
            Some(nm) => {
                let pic = if spec_is_iconic(item) {
                    nm + "_icon"@
                } else if item.id == "smallmudraptoregg"@ {
                    "Mudraptor_Egg_Small"@
                } else if item.id == "peanutegg"@ {
                    "Strange Eggs"@
                } else {
                    nm
                };
                Ok("[[File:"@ + pic + ".png| |50px|link="@ + nm + "]] <br> [["@ + nm + "]]"@)
            },
        },
    }
}

/// Renders the heading of a deconstruction row.
fn decon_display(item: &Item, name_override: Option<&String>) -> (r: Result<String, Error>)
    ensures
        crate::model::rview(r) == spec_decon_display(item@, name_override.deep_view()),
{
    match name_override {
        Some(no) => Ok(no.clone()),
        None => match &item.name {
            None => Err(Error::UnnamedItem),
            Some(nm) => {
                let pic = if is_iconic_item(item) {
                    let mut p = nm.clone();
                    p.append("_icon");
                    p
                } else if str_eq(item.id.as_str(), "smallmudraptoregg") {
                    String::from_str("Mudraptor_Egg_Small")
                } else if str_eq(item.id.as_str(), "peanutegg") {
                    String::from_str("Strange Eggs")
                } else {
                    nm.clone()
                };
                let mut line = String::from_str("[[File:");
                line.append(pic.as_str());
                line.append(".png| |50px|link=");
                line.append(nm.as_str());
                line.append("]] <br> [[");
                line.append(nm.as_str());
                line.append("]]");
                Ok(line)
            },
        },
    }
}

/// One deconstruction-table row: heading, time, and the rendered
/// material list.
pub open spec fn spec_decon_row(
    item: SpecItem,
    d: crate::model::SpecDeconstruct,
    items: Seq<SpecItem>,
    name_override: Option<Seq<char>>,
) -> Result<Seq<char>, Error> {
    match spec_decon_names(d.mats, items, Some(30)) {
        Err(e) => Err(e),
        Ok(names) => {
            let decon_line = crate::text::spec_join(names, " <br> "@);
            match spec_decon_display(item, name_override) {
                Err(e) => Err(e),
                Ok(dn) => Ok(
                    "|-\n| align=\"center\" | "@ + dn + "\n| align=\"center\" | "@
                        + crate::text::spec_i64_str(d.time as int) + "\n| align=\"left-index\" | "@
                        + decon_line + "\n"@,
                ),
            }
        },
    }
}

/// Renders one deconstruction-table row.
fn decon_row(
    item: &Item,
    d: &crate::model::Deconstruct,
    items: &Vec<Item>,
    name_override: Option<&String>,
) -> (r: Result<String, Error>)
    ensures
        crate::model::rview(r) == spec_decon_row(
            item@,
            d@,
            items.deep_view(),
            name_override.deep_view(),
        ),
{
    let names = match decon_names(&d.mats, items, Some(30)) {
        Err(e) => {
            return Err(e);
        },
        Ok(ns) => ns,
    };
    let decon_line = crate::text::join_strings(&names, " <br> ");
    let dn = match decon_display(item, name_override) {
        Err(e) => {
            return Err(e);
        },
        Ok(x) => x,
    };
    let mut line = String::from_str("|-\n| align=\"center\" | ");
    line.append(dn.as_str());
    line.append("\n| align=\"center\" | ");
    line.append(crate::text::i32_to_string(d.time).as_str());
    line.append("\n| align=\"left-index\" | ");
    line.append(decon_line.as_str());
    line.append("\n");
    proof {
        assert(line@ =~= spec_decon_row(
            item@,
            d@,
            items.deep_view(),
            name_override.deep_view(),
        )->Ok_0);
    }
    Ok(line)
}

/// Whether an item gets a deconstruction row: not blacklisted, a
/// deconstruction recipe with at least one material, and no
/// fabrication recipe.
pub open spec fn spec_decon_selected(item: SpecItem) -> bool {
    &&& !spec_decon_blacklist().contains(item.id)
    &&& item.deconstruct is Some
    &&& item.fabricate is None
    &&& item.deconstruct->0.mats.len() > 0
}

/// Exec counterpart of [`spec_decon_selected`].
fn decon_selected(item: &Item) -> (r: bool)
    ensures
        r == spec_decon_selected(item@),
{
    let blacklisted = str_eq(item.id.as_str(), "wire") || str_eq(item.id.as_str(), "psilotoadegg")
        || str_eq(item.id.as_str(), "balloonegg") || str_eq(item.id.as_str(), "orangeboyegg");
    proof {
        assert(spec_decon_blacklist()[0] == "wire"@);
        assert(spec_decon_blacklist()[1] == "psilotoadegg"@);
        assert(spec_decon_blacklist()[2] == "balloonegg"@);
        assert(spec_decon_blacklist()[3] == "orangeboyegg"@);
        if !blacklisted && spec_decon_blacklist().contains(item@.id) {
            let j = choose|j: int|
                0 <= j < spec_decon_blacklist().len() && spec_decon_blacklist()[j] == item@.id;
            assert(0 <= j < 4);
        }
    }
    if blacklisted {
        return false;
    }
    match &item.deconstruct {
        None => false,
        Some(d) => {
            if item.fabricate.is_some() {
                false
            } else {
                d.mats.len() > 0
            }
        },
    }
}

/// The deconstruction rows from index `i` of the name-sorted catalog
/// on.
pub open spec fn spec_decon_rows_from(sorted: Seq<SpecItem>, i: int) -> Result<Seq<char>, Error>
    decreases (if i < sorted.len() {
        sorted.len() - i
    } else {
        0
    }),
{
    if i < 0 || i >= sorted.len() {
        Ok(Seq::empty())
    } else if spec_decon_selected(sorted[i]) {
        match spec_decon_row(sorted[i], sorted[i].deconstruct->0, sorted, None) {
            Err(e) => Err(e),
            Ok(line) => match spec_decon_rows_from(sorted, i + 1) {
                Err(e) => Err(e),
                Ok(rest) => Ok(line + rest),
            },
        }
    } else {
        spec_decon_rows_from(sorted, i + 1)
    }
}

/// The deconstruction-table heading.
pub open spec fn spec_decon_header() -> Seq<char> {
    "{| class=\"wikitable sortable\" style=\"width: 30%; font-size: 90%;\"\n! style=\"width: 40%\" | Item\n! style=\"width: 20%\" | Time (seconds)\n! style=\"width: 60%\" | Deconstructs to\n"@
}

/// The whole deconstruction table: heading, one row per item that can
/// only be deconstructed, in display-name order, and the footer.
pub open spec fn spec_deconstruct_table(items: Seq<SpecItem>) -> Result<Seq<char>, Error> {
    let sorted = spec_sort_items(items);
    match spec_decon_rows_from(sorted, 0) {
        Err(e) => Err(e),
        Ok(rows) => Ok(spec_decon_header() + rows + spec_table_footer()),
    }
}

/// Renders the deconstruction table.
pub fn deconstruct_table(items: &Vec<Item>) -> (r: Result<String, Error>)
    ensures
        crate::model::rview(r) == spec_deconstruct_table(items.deep_view()),
{
    let sorted = sort_items(items);
    let ghost sv = sorted.deep_view();
    let mut body = String::new();
    let mut i: usize = 0;
    while i < sorted.len()
        invariant
            i <= sorted@.len(),
            sv == sorted.deep_view(),
            sv == spec_sort_items(items.deep_view()),
            sv.len() == sorted@.len(),
            spec_decon_rows_from(sv, i as int) matches Ok(rest) ==> spec_decon_rows_from(sv, 0)
                == Ok::<Seq<char>, Error>(body@ + rest),
            spec_decon_rows_from(sv, i as int) is Err ==> spec_decon_rows_from(sv, 0)
                == spec_decon_rows_from(sv, i as int),
        decreases sorted@.len() - i,
    {
        let item = &sorted[i];
        proof {
            assert(sv[i as int] == sorted@[i as int]@);
        }
        if decon_selected(item) {
            let d = match &item.deconstruct {
                None => {
                    proof {
                        assert(false);
                    }
                    return Err(Error::UnknownItem);
                },
                Some(x) => x,
            };
            proof {
                assert(sv[i as int].deconstruct == Some(d@));
            }
            match decon_row(item, d, &sorted, None) {
                Err(e) => {
                    proof {
                        assert(spec_decon_row(sv[i as int], sv[i as int].deconstruct->0, sv, None)
                            == Err::<Seq<char>, Error>(e));
                        assert(spec_decon_rows_from(sv, i as int) == Err::<Seq<char>, Error>(e));
                    }
                    return Err(e);
                },
                Ok(line) => {
                    let ghost b0 = body@;
                    body.append(line.as_str());
                    proof {
                        assert(spec_decon_row(sv[i as int], sv[i as int].deconstruct->0, sv, None)
                            == Ok::<Seq<char>, Error>(line@));
                        if spec_decon_rows_from(sv, i as int + 1) is Ok {
                            let rest = spec_decon_rows_from(sv, i as int + 1)->Ok_0;
                            assert(spec_decon_rows_from(sv, i as int) == Ok::<Seq<char>, Error>(
                                line@ + rest,
                            ));
                            assert(b0 + (line@ + rest) =~= body@ + rest);
                        } else {
                            assert(spec_decon_rows_from(sv, i as int) == spec_decon_rows_from(
                                sv,
                                i as int + 1,
                            ));
                        }
                    }
                },
            }
        } else {
            proof {
                assert(spec_decon_rows_from(sv, i as int) == spec_decon_rows_from(
                    sv,
                    i as int + 1,
                ));
            }
        }
        i = i + 1;
    }
    proof {
        assert(spec_decon_rows_from(sv, sv.len() as int) == Ok::<Seq<char>, Error>(
            Seq::<char>::empty(),
        ));
        assert(body@ + Seq::<char>::empty() =~= body@);
    }
    let mut out = String::from_str(
        "{| class=\"wikitable sortable\" style=\"width: 30%; font-size: 90%;\"\n! style=\"width: 40%\" | Item\n! style=\"width: 20%\" | Time (seconds)\n! style=\"width: 60%\" | Deconstructs to\n",
    );
    out.append(body.as_str());
    out.append("|-\n|}\n");
    proof {
        assert(out@ =~= spec_deconstruct_table(items.deep_view())->Ok_0);
    }
    Ok(out)
}

} // verus!



verus! {

/// Whether some item records a price entry for location `y`.
pub open spec fn spec_has_location(items: Seq<SpecItem>, y: Seq<char>) -> bool {
    exists|i: int, k: int|
        0 <= i < items.len() && 0 <= k < items[i].prices.locations.len()
            && (#[trigger] items[i].prices.locations[k]).location == y
}

/// A price row holds one cell per location column after the name.
proof fn lemma_price_row_len(item: SpecItem, locations: Seq<Seq<char>>)
    ensures
        spec_price_row(item, locations).len() == 1 + locations.len(),
    decreases locations.len(),
{
    if locations.len() > 0 {
        lemma_price_row_len(item, locations.drop_last());
    }
}

/// Inserting keeps the key set sorted and adds exactly the new key.
proof fn lemma_insert_loc_props(s: Seq<Seq<char>>, x: Seq<char>)
    requires
        spec_locs_sorted(s),
    ensures
        spec_locs_sorted(spec_insert_loc(s, x)),
        forall|y: Seq<char>| #![trigger spec_insert_loc(s, x).contains(y)]
            spec_insert_loc(s, x).contains(y) <==> s.contains(y) || y == x,
    decreases s.len(),
{
    let r = spec_insert_loc(s, x);
    if s.len() == 0 {
        assert forall|y: Seq<char>| r.contains(y) implies s.contains(y) || y == x by {
            let j = choose|j: int| 0 <= j < r.len() && r[j] == y;
            assert(r[0] == x);
        }
        assert(r.contains(x)) by {
            assert(r[0] == x);
        }
    } else if s[0] == x {
        assert(r == s);
        assert(s.contains(x)) by {
            assert(s[0] == x);
        }
    } else if lex_le(s[0], x) {
        let rest = s.drop_first();
        assert(spec_locs_sorted(rest)) by {
            assert(forall|i: int| 0 <= i < rest.len() ==> #[trigger] rest[i] == s[i + 1]);
        }
        lemma_insert_loc_props(rest, x);
        let ir = spec_insert_loc(rest, x);
        assert(r == seq![s[0]] + ir);
        assert(spec_locs_sorted(r)) by {
            assert forall|i: int, j: int| 0 <= i < j < r.len() implies lex_le(
                #[trigger] r[i],
                #[trigger] r[j],
            ) && r[i] != r[j] by {
                if i == 0 {
                    assert(r[j] == ir[j - 1]);
                    assert(ir.contains(ir[j - 1]));
                    if rest.contains(ir[j - 1]) {
                        let k = choose|k: int| 0 <= k < rest.len() && rest[k] == ir[j - 1];
                        assert(s[k + 1] == ir[j - 1]);
                        assert(lex_le(s[0], s[k + 1]) && s[0] != s[k + 1]);
                    } else {
                        assert(ir[j - 1] == x);
                    }
                } else {
                    assert(r[i] == ir[i - 1] && r[j] == ir[j - 1]);
                }
            }
        }
        assert forall|y: Seq<char>| r.contains(y) implies s.contains(y) || y == x by {
            let j = choose|j: int| 0 <= j < r.len() && r[j] == y;
            if j == 0 {
                assert(s[0] == y);
            } else {
                assert(ir[j - 1] == y);
                assert(ir.contains(y));
                if rest.contains(y) {
                    let k = choose|k: int| 0 <= k < rest.len() && rest[k] == y;
                    assert(s[k + 1] == y);
                }
            }
        }
        assert forall|y: Seq<char>| s.contains(y) || y == x implies r.contains(y) by {
            if s.contains(y) {
                let k = choose|k: int| 0 <= k < s.len() && s[k] == y;
                if k == 0 {
                    assert(r[0] == y);
                } else {
                    assert(rest[k - 1] == y);
                    assert(rest.contains(y));
                    assert(ir.contains(y));
                    let m = choose|m: int| 0 <= m < ir.len() && ir[m] == y;
                    assert(r[m + 1] == y);
                }
            } else {
                assert(spec_insert_loc(rest, x).contains(x));
                assert(ir.contains(x));
                let m = choose|m: int| 0 <= m < ir.len() && ir[m] == x;
                assert(r[m + 1] == x);
            }
        }
    } else {
        assert(r == seq![x] + s);
        crate::text::lemma_lex_le_total(s[0], x);
        crate::text::lemma_lex_le_refl(s[0]);
        assert(lex_le(x, s[0]));
        assert(x != s[0]);
        assert(spec_locs_sorted(r)) by {
            assert forall|i: int, j: int| 0 <= i < j < r.len() implies lex_le(
                #[trigger] r[i],
                #[trigger] r[j],
            ) && r[i] != r[j] by {
                if i == 0 {
                    assert(r[j] == s[j - 1]);
                    if j == 1 {
                    } else {
                        assert(lex_le(s[0], s[j - 1]) && s[0] != s[j - 1]);
                        crate::text::lemma_lex_le_trans(x, s[0], s[j - 1]);
                        if x == s[j - 1] {
                            assert(lex_le(s[0], x));
                        }
                    }
                } else {
                    assert(r[i] == s[i - 1] && r[j] == s[j - 1]);
                }
            }
        }
        assert forall|y: Seq<char>| r.contains(y) implies s.contains(y) || y == x by {
            let j = choose|j: int| 0 <= j < r.len() && r[j] == y;
            if j > 0 {
                assert(s[j - 1] == y);
            }
        }
        assert forall|y: Seq<char>| s.contains(y) || y == x implies r.contains(y) by {
            if s.contains(y) {
                let k = choose|k: int| 0 <= k < s.len() && s[k] == y;
                assert(r[k + 1] == y);
            } else {
                assert(r[0] == x);
            }
        }
    }
}

/// Folding one item's entries keeps the key set sorted and adds
/// exactly that item's location keys.
proof fn lemma_insert_locs_of_props(s: Seq<Seq<char>>, entries: Seq<SpecPriceEntry>)
    requires
        spec_locs_sorted(s),
    ensures
        spec_locs_sorted(spec_insert_locs_of(s, entries)),
        forall|y: Seq<char>| #![trigger spec_insert_locs_of(s, entries).contains(y)]
            spec_insert_locs_of(s, entries).contains(y) <==> s.contains(y) || (exists|k: int|
            0 <= k < entries.len() && (#[trigger] entries[k]).location == y),
    decreases entries.len(),
{
    if entries.len() == 0 {
        assert forall|y: Seq<char>|
            s.contains(y) || (exists|k: int|
                0 <= k < entries.len() && (#[trigger] entries[k]).location == y) implies
            spec_insert_locs_of(s, entries).contains(y) by {}
    } else {
        lemma_insert_locs_of_props(s, entries.drop_last());
        let inner = spec_insert_locs_of(s, entries.drop_last());
        lemma_insert_loc_props(inner, entries.last().location);
        assert forall|y: Seq<char>|
            spec_insert_locs_of(s, entries).contains(y) implies s.contains(y) || (exists|k: int|
            0 <= k < entries.len() && (#[trigger] entries[k]).location == y) by {
            if !s.contains(y) {
                if inner.contains(y) {
                    let k = choose|k: int|
                        0 <= k < entries.drop_last().len()
                            && (#[trigger] entries.drop_last()[k]).location == y;
                    assert(entries[k].location == y);
                } else {
                    assert(y == entries.last().location);
                    assert(entries[entries.len() - 1].location == y);
                }
            }
        }
        assert forall|y: Seq<char>|
            s.contains(y) || (exists|k: int|
                0 <= k < entries.len() && (#[trigger] entries[k]).location == y) implies
            spec_insert_locs_of(s, entries).contains(y) by {
            if s.contains(y) {
                assert(inner.contains(y));
            } else {
                let k = choose|k: int|
                    0 <= k < entries.len() && (#[trigger] entries[k]).location == y;
                if k < entries.len() - 1 {
                    assert(entries.drop_last()[k].location == y);
                    assert(inner.contains(y));
                } else {
                    assert(entries.last().location == y);
                }
            }
        }
    }
}

/// The collected location keys are sorted, unique, and exactly the
/// union of every item's location keys.
proof fn lemma_collect_locations_props(items: Seq<SpecItem>)
    ensures
        spec_locs_sorted(spec_collect_locations(items)),
        forall|y: Seq<char>| spec_collect_locations(items).contains(y) <==> spec_has_location(
            items,
            y,
        ),
    decreases items.len(),
{
    if items.len() == 0 {
        assert forall|y: Seq<char>| spec_has_location(items, y) implies spec_collect_locations(
            items,
        ).contains(y) by {}
    } else {
        lemma_collect_locations_props(items.drop_last());
        let inner = spec_collect_locations(items.drop_last());
        lemma_insert_locs_of_props(inner, items.last().prices.locations);
        assert forall|y: Seq<char>|
            spec_collect_locations(items).contains(y) implies spec_has_location(items, y) by {
            if inner.contains(y) {
                assert(spec_has_location(items.drop_last(), y));
                let (i, k) = choose|i: int, k: int|
                    0 <= i < items.drop_last().len()
                        && 0 <= k < items.drop_last()[i].prices.locations.len()
                        && (#[trigger] items.drop_last()[i].prices.locations[k]).location == y;
                assert(items[i].prices.locations[k].location == y);
            } else {
                let k = choose|k: int|
                    0 <= k < items.last().prices.locations.len() && (#[trigger] items.last(
                    ).prices.locations[k]).location == y;
                assert(items[items.len() - 1].prices.locations[k].location == y);
            }
        }
        assert forall|y: Seq<char>|
            spec_has_location(items, y) implies spec_collect_locations(items).contains(y) by {
            let (i, k) = choose|i: int, k: int|
                0 <= i < items.len() && 0 <= k < items[i].prices.locations.len() && (
                #[trigger] items[i].prices.locations[k]).location == y;
            if i < items.len() - 1 {
                assert(items.drop_last()[i].prices.locations[k].location == y);
                assert(spec_has_location(items.drop_last(), y));
                assert(inner.contains(y));
                assert(spec_insert_locs_of(inner, items.last().prices.locations).contains(y));
            } else {
                assert(items.last().prices.locations[k].location == y);
                assert(exists|k2: int|
                    0 <= k2 < items.last().prices.locations.len()
                        && (#[trigger] items.last().prices.locations[k2]).location == y);
                assert(spec_insert_locs_of(inner, items.last().prices.locations).contains(y));
            }
        }
    }
}

/// The price-table law: the header names every location key that any
/// item records, each exactly once and in sorted order, after the
/// leading name column; the table has one row per item; and every row
/// has exactly one cell more than there are location columns.
pub proof fn lemma_price_table_shape(items: Seq<SpecItem>)
    ensures
        spec_price_rows(items).len() == 1 + items.len(),
        spec_price_rows(items)[0] == seq!["name"@] + spec_collect_locations(items),
        forall|r: int| 0 <= r < spec_price_rows(items).len() ==> (#[trigger] spec_price_rows(
            items,
        )[r]).len() == 1 + spec_collect_locations(items).len(),
        spec_locs_sorted(spec_collect_locations(items)),
        forall|y: Seq<char>| spec_collect_locations(items).contains(y) <==> spec_has_location(
            items,
            y,
        ),
{
    lemma_collect_locations_props(items);
    let locs = spec_collect_locations(items);
    assert forall|r: int| 0 <= r < spec_price_rows(items).len() implies (
    #[trigger] spec_price_rows(items)[r]).len() == 1 + locs.len() by {
        if r == 0 {
        } else {
            assert(spec_price_rows(items)[r] == spec_price_row(items[r - 1], locs));
            lemma_price_row_len(items[r - 1], locs);
        }
    }
}

} // verus!

verus! {

/// The material-row order is total.
proof fn lemma_mat_id_le_total(a: (Seq<char>, i32), b: (Seq<char>, i32))
    ensures
        crate::parse::spec_mat_id_le(a, b) || crate::parse::spec_mat_id_le(b, a),
{
    if a.0 != b.0 {
        crate::text::lemma_lex_le_total(a.0, b.0);
    }
}

/// The material-row order is antisymmetric.
proof fn lemma_mat_id_le_antisym(a: (Seq<char>, i32), b: (Seq<char>, i32))
    requires
        crate::parse::spec_mat_id_le(a, b),
        crate::parse::spec_mat_id_le(b, a),
    ensures
        a == b,
{
    if a.0 == b.0 {
        assert(a.1 == b.1);
    } else {
        crate::text::lemma_lex_le_antisym(a.0, b.0);
    }
}

/// Sorted by the material-row order.
pub open spec fn spec_mat_ids_sorted(s: Seq<(Seq<char>, i32)>) -> bool {
    forall|i: int, j: int| 0 <= i < j < s.len() ==> crate::parse::spec_mat_id_le(
        #[trigger] s[i],
        #[trigger] s[j],
    )
}

/// Inserting adds exactly one row to the multiset.
proof fn lemma_insert_mat_id_multiset(s: Seq<(Seq<char>, i32)>, x: (Seq<char>, i32))
    ensures
        crate::parse::spec_insert_mat_id(s, x).to_multiset() =~= s.to_multiset().insert(x),
        crate::parse::spec_insert_mat_id(s, x).len() == s.len() + 1,
    decreases s.len(),
{
    broadcast use vstd::seq_lib::group_to_multiset_ensures;
    broadcast use vstd::multiset::group_multiset_axioms;

    let r = crate::parse::spec_insert_mat_id(s, x);
    if s.len() == 0 {
        assert(r =~= Seq::<(Seq<char>, i32)>::empty().push(x));
        assert(Seq::<(Seq<char>, i32)>::empty().push(x).to_multiset()
            =~= Seq::<(Seq<char>, i32)>::empty().to_multiset().insert(x));
        assert(Seq::<(Seq<char>, i32)>::empty().to_multiset() =~= s.to_multiset());
    } else if crate::parse::spec_mat_id_le(s[0], x) {
        lemma_insert_mat_id_multiset(s.drop_first(), x);
        let ir = crate::parse::spec_insert_mat_id(s.drop_first(), x);
        assert(r =~= seq![s[0]] + ir);
        vstd::seq_lib::lemma_multiset_commutative(seq![s[0]], ir);
        vstd::seq_lib::lemma_multiset_commutative(seq![s[0]], s.drop_first());
        assert(s =~= seq![s[0]] + s.drop_first());
        assert(r.to_multiset() =~= s.to_multiset().insert(x));
    } else {
        assert(r =~= seq![x] + s);
        vstd::seq_lib::lemma_multiset_commutative(seq![x], s);
        assert(seq![x].to_multiset() =~= Seq::<(Seq<char>, i32)>::empty().to_multiset().insert(x));
        assert(r.to_multiset() =~= s.to_multiset().insert(x));
    }
}

/// Sorting does not change the multiset of rows.
proof fn lemma_sort_mat_ids_multiset(s: Seq<(Seq<char>, i32)>)
    ensures
        crate::parse::spec_sort_mat_ids(s).to_multiset() =~= s.to_multiset(),
        crate::parse::spec_sort_mat_ids(s).len() == s.len(),
    decreases s.len(),
{
    broadcast use vstd::seq_lib::group_to_multiset_ensures;
    broadcast use vstd::multiset::group_multiset_axioms;

    if s.len() > 0 {
        lemma_sort_mat_ids_multiset(s.drop_last());
        lemma_insert_mat_id_multiset(crate::parse::spec_sort_mat_ids(s.drop_last()), s.last());
        assert(s =~= s.drop_last().push(s.last()));
        assert(s.drop_last().push(s.last()).to_multiset() =~= s.drop_last().to_multiset().insert(
            s.last(),
        ));
    }
}

/// Inserting into a sorted row list keeps it sorted.
proof fn lemma_insert_mat_id_sorted(s: Seq<(Seq<char>, i32)>, x: (Seq<char>, i32))
    requires
        spec_mat_ids_sorted(s),
    ensures
        spec_mat_ids_sorted(crate::parse::spec_insert_mat_id(s, x)),
    decreases s.len(),
{
    broadcast use vstd::seq_lib::group_to_multiset_ensures;
    broadcast use vstd::multiset::group_multiset_axioms;

    let r = crate::parse::spec_insert_mat_id(s, x);
    if s.len() == 0 {
    } else if crate::parse::spec_mat_id_le(s[0], x) {
        let rest = s.drop_first();
        assert(spec_mat_ids_sorted(rest)) by {
            assert(forall|i: int| 0 <= i < rest.len() ==> #[trigger] rest[i] == s[i + 1]);
        }
        lemma_insert_mat_id_sorted(rest, x);
        lemma_insert_mat_id_multiset(rest, x);
        let ir = crate::parse::spec_insert_mat_id(rest, x);
        assert(r == seq![s[0]] + ir);
        assert forall|i: int, j: int| 0 <= i < j < r.len() implies crate::parse::spec_mat_id_le(
            #[trigger] r[i],
            #[trigger] r[j],
        ) by {
            if i == 0 {
                assert(r[j] == ir[j - 1]);
                assert(ir.contains(ir[j - 1]));
                assert(ir.to_multiset().contains(ir[j - 1]));
                if ir[j - 1] == x {
                    assert(crate::parse::spec_mat_id_le(s[0], x));
                } else {
                    assert(rest.to_multiset().contains(ir[j - 1]));
                    assert(rest.contains(ir[j - 1]));
                    let k = choose|k: int| 0 <= k < rest.len() && rest[k] == ir[j - 1];
                    assert(s[k + 1] == ir[j - 1]);
                    assert(crate::parse::spec_mat_id_le(s[0], s[k + 1]));
                }
            } else {
                assert(r[i] == ir[i - 1] && r[j] == ir[j - 1]);
            }
        }
    } else {
        lemma_mat_id_le_total(s[0], x);
        assert(crate::parse::spec_mat_id_le(x, s[0]));
        assert(r == seq![x] + s);
        assert forall|i: int, j: int| 0 <= i < j < r.len() implies crate::parse::spec_mat_id_le(
            #[trigger] r[i],
            #[trigger] r[j],
        ) by {
            if i == 0 {
                assert(r[j] == s[j - 1]);
                if j > 1 {
                    assert(crate::parse::spec_mat_id_le(s[0], s[j - 1]));
                    lemma_mat_id_le_trans(x, s[0], s[j - 1]);
                }
            } else {
                assert(r[i] == s[i - 1] && r[j] == s[j - 1]);
            }
        }
    }
}

/// The material-row order is transitive.
proof fn lemma_mat_id_le_trans(a: (Seq<char>, i32), b: (Seq<char>, i32), c: (Seq<char>, i32))
    requires
        crate::parse::spec_mat_id_le(a, b),
        crate::parse::spec_mat_id_le(b, c),
    ensures
        crate::parse::spec_mat_id_le(a, c),
{
    if a.0 == b.0 && b.0 == c.0 {
    } else if a.0 == b.0 {
    } else if b.0 == c.0 {
    } else {
        crate::text::lemma_lex_le_trans(a.0, b.0, c.0);
        if a.0 == c.0 {
            crate::text::lemma_lex_le_antisym(a.0, b.0);
        }
    }
}

/// The sort's output is sorted.
proof fn lemma_sort_mat_ids_sorted(s: Seq<(Seq<char>, i32)>)
    ensures
        spec_mat_ids_sorted(crate::parse::spec_sort_mat_ids(s)),
    decreases s.len(),
{
    if s.len() > 0 {
        lemma_sort_mat_ids_sorted(s.drop_last());
        lemma_insert_mat_id_sorted(crate::parse::spec_sort_mat_ids(s.drop_last()), s.last());
    }
}

/// Two sorted row lists with the same multiset are the same list.
proof fn lemma_sorted_mat_ids_unique(a: Seq<(Seq<char>, i32)>, b: Seq<(Seq<char>, i32)>)
    requires
        spec_mat_ids_sorted(a),
        spec_mat_ids_sorted(b),
        a.to_multiset() == b.to_multiset(),
    ensures
        a == b,
    decreases a.len(),
{
    broadcast use vstd::seq_lib::group_to_multiset_ensures;
    broadcast use vstd::multiset::group_multiset_axioms;

    if a.len() == 0 {
        assert(b.to_multiset().len() == 0);
        assert(a =~= b);
    } else {
        assert(b.len() == a.len()) by {
            assert(a.to_multiset().len() == a.len());
            assert(b.to_multiset().len() == b.len());
        }
        assert(a.contains(a[0]));
        assert(a.to_multiset().contains(a[0]));
        assert(b.to_multiset().contains(a[0]));
        assert(b.contains(a[0]));
        let jb = choose|j: int| 0 <= j < b.len() && b[j] == a[0];
        assert(b.contains(b[0]));
        assert(b.to_multiset().contains(b[0]));
        assert(a.to_multiset().contains(b[0]));
        assert(a.contains(b[0]));
        let ja = choose|j: int| 0 <= j < a.len() && a[j] == b[0];
        assert(crate::parse::spec_mat_id_le(a[0], a[ja]) || ja == 0) by {
            if ja > 0 {
                assert(crate::parse::spec_mat_id_le(a[0], a[ja]));
            }
        }
        assert(crate::parse::spec_mat_id_le(b[0], b[jb]) || jb == 0) by {
            if jb > 0 {
                assert(crate::parse::spec_mat_id_le(b[0], b[jb]));
            }
        }
        lemma_mat_id_le_total(a[0], b[0]);
        assert(a[0] == b[0]) by {
            if ja == 0 || jb == 0 {
            } else {
                lemma_mat_id_le_antisym(a[0], b[0]);
            }
        }
        let a1 = a.drop_first();
        let b1 = b.drop_first();
        assert(a.remove(0) =~= a1);
        assert(b.remove(0) =~= b1);
        assert(a1.to_multiset() =~= a.to_multiset().remove(a[0]));
        assert(b1.to_multiset() =~= b.to_multiset().remove(b[0]));
        assert(spec_mat_ids_sorted(a1)) by {
            assert(forall|i: int| 0 <= i < a1.len() ==> #[trigger] a1[i] == a[i + 1]);
        }
        assert(spec_mat_ids_sorted(b1)) by {
            assert(forall|i: int| 0 <= i < b1.len() ==> #[trigger] b1[i] == b[i + 1]);
        }
        lemma_sorted_mat_ids_unique(a1, b1);
        assert(a =~= seq![a[0]] + a1);
        assert(b =~= seq![b[0]] + b1);
    }
}

/// The deconstruction-shortcut law: the deconstruction column of a
/// fabrication row is the `-` shortcut exactly when the deconstruction
/// materials, as a multiset of identifier and count (a tag material
/// standing in as the unresolved placeholder), are the fabrication
/// materials; on any difference the column is the rendered material
/// list.
pub proof fn lemma_decon_shortcut(
    item: SpecItem,
    fab: crate::model::SpecFabricate,
    items: Seq<SpecItem>,
)
    requires
        item.deconstruct is Some,
    ensures
        (spec_fab_ids(fab.mats).to_multiset() == item.deconstruct->0.mats.to_multiset())
            <==> (crate::parse::spec_sort_mat_ids(spec_fab_ids(fab.mats))
            == crate::parse::spec_sort_mat_ids(item.deconstruct->0.mats)),
        (spec_fab_ids(fab.mats).to_multiset() == item.deconstruct->0.mats.to_multiset())
            ==> spec_decon_cell(item, fab, items) == Ok::<Seq<char>, Error>("-"@),
        (spec_fab_ids(fab.mats).to_multiset() != item.deconstruct->0.mats.to_multiset()) ==> (
        spec_decon_cell(item, fab, items) == (match spec_decon_names(
            item.deconstruct->0.mats,
            items,
            Some(30),
        ) {
            Ok(names) => Ok::<Seq<char>, Error>(crate::text::spec_join(names, " <br> "@)),
            Err(e) => Err::<Seq<char>, Error>(e),
        })),
{
    let f = spec_fab_ids(fab.mats);
    let d = item.deconstruct->0.mats;
    lemma_sort_mat_ids_multiset(f);
    lemma_sort_mat_ids_multiset(d);
    lemma_sort_mat_ids_sorted(f);
    lemma_sort_mat_ids_sorted(d);
    if f.to_multiset() == d.to_multiset() {
        lemma_sorted_mat_ids_unique(
            crate::parse::spec_sort_mat_ids(f),
            crate::parse::spec_sort_mat_ids(d),
        );
    }
    if crate::parse::spec_sort_mat_ids(f) == crate::parse::spec_sort_mat_ids(d) {
        assert(f.to_multiset() =~= d.to_multiset());
    }
}

} // verus!

verus! {

/// The row a group member contributes to its collapsed group: its own
/// recipe with the materials in display order, under the group's
/// heading.
pub open spec fn spec_group_member_row(
    sorted: Seq<SpecItem>,
    k: int,
    g: (Seq<Seq<char>>, Seq<Seq<char>>, Seq<char>),
) -> Result<Seq<char>, Error> {
    spec_fab_row(sorted[k], spec_sorted_fab(sorted[k].fabricate->0), sorted, Some(g.2))
}

/// When every qualifying member from `i` on renders the same row, the
/// scan accepts and returns that row.
proof fn lemma_group_scan_same(
    sorted: Seq<SpecItem>,
    i: int,
    fab_type: Seq<char>,
    g: (Seq<Seq<char>>, Seq<Seq<char>>, Seq<char>),
    line: Seq<char>,
)
    requires
        0 <= i,
        forall|k: int|
            i <= k < sorted.len() && spec_group_qualifies(#[trigger] sorted[k], fab_type, g)
                ==> spec_group_member_row(sorted, k, g) == Ok::<Seq<char>, Error>(line),
    ensures
        spec_group_scan(sorted, i, fab_type, g, Some(line)) == Ok::<Option<Seq<char>>, Error>(
            Some(line),
        ),
        spec_group_scan(sorted, i, fab_type, g, None) == (if exists|k: int|
            i <= k < sorted.len() && spec_group_qualifies(#[trigger] sorted[k], fab_type, g) {
            Ok::<Option<Seq<char>>, Error>(Some(line))
        } else {
            Ok::<Option<Seq<char>>, Error>(None)
        }),
    decreases (if i < sorted.len() {
        sorted.len() - i
    } else {
        0
    }),
{
    if i >= sorted.len() {
        if exists|k: int|
            i <= k < sorted.len() && spec_group_qualifies(#[trigger] sorted[k], fab_type, g) {
            let k = choose|k: int|
                i <= k < sorted.len() && spec_group_qualifies(#[trigger] sorted[k], fab_type, g);
            assert(false);
        }
    } else {
        lemma_group_scan_same(sorted, i + 1, fab_type, g, line);
        if spec_group_qualifies(sorted[i], fab_type, g) {
            assert(spec_group_member_row(sorted, i, g) == Ok::<Seq<char>, Error>(line));
            assert(exists|k: int|
                i <= k < sorted.len() && spec_group_qualifies(#[trigger] sorted[k], fab_type, g))
                by {
                assert(spec_group_qualifies(sorted[i], fab_type, g));
            }
        } else {
            assert((exists|k: int|
                i <= k < sorted.len() && spec_group_qualifies(#[trigger] sorted[k], fab_type, g))
                <==> (exists|k: int|
                i + 1 <= k < sorted.len() && spec_group_qualifies(
                    #[trigger] sorted[k],
                    fab_type,
                    g,
                ))) by {
                if exists|k: int|
                    i <= k < sorted.len() && spec_group_qualifies(
                        #[trigger] sorted[k],
                        fab_type,
                        g,
                    ) {
                    let k = choose|k: int|
                        i <= k < sorted.len() && spec_group_qualifies(
                            #[trigger] sorted[k],
                            fab_type,
                            g,
                        );
                    assert(k >= i + 1);
                }
            }
        }
    }
}

/// When some later qualifying member renders a different row than the
/// canonical one, the scan fails with the consistency error.
proof fn lemma_group_scan_diverges(
    sorted: Seq<SpecItem>,
    i: int,
    fab_type: Seq<char>,
    g: (Seq<Seq<char>>, Seq<Seq<char>>, Seq<char>),
    line: Seq<char>,
)
    requires
        0 <= i,
        forall|k: int|
            i <= k < sorted.len() && spec_group_qualifies(#[trigger] sorted[k], fab_type, g)
                ==> spec_group_member_row(sorted, k, g) is Ok,
        exists|k: int|
            i <= k < sorted.len() && spec_group_qualifies(#[trigger] sorted[k], fab_type, g)
                && spec_group_member_row(sorted, k, g) != Ok::<Seq<char>, Error>(line),
    ensures
        spec_group_scan(sorted, i, fab_type, g, Some(line)) == Err::<Option<Seq<char>>, Error>(
            Error::InconsistentGroup,
        ),
    decreases (if i < sorted.len() {
        sorted.len() - i
    } else {
        0
    }),
{
    let w = choose|k: int|
        i <= k < sorted.len() && spec_group_qualifies(#[trigger] sorted[k], fab_type, g)
            && spec_group_member_row(sorted, k, g) != Ok::<Seq<char>, Error>(line);
    if i >= sorted.len() {
        assert(false);
    } else if spec_group_qualifies(sorted[i], fab_type, g) {
        assert(spec_group_member_row(sorted, i, g) is Ok);
        let m = spec_group_member_row(sorted, i, g)->Ok_0;
        if m != line {
        } else {
            assert(w >= i + 1);
            lemma_group_scan_diverges(sorted, i + 1, fab_type, g, line);
        }
    } else {
        assert(w >= i + 1);
        lemma_group_scan_diverges(sorted, i + 1, fab_type, g, line);
    }
}

/// The grouped-row law, accepting side: when every qualifying member
/// of a collapsed group renders the same row and at least one
/// qualifies, the group renders exactly that one row.
pub proof fn lemma_group_consistency(
    sorted: Seq<SpecItem>,
    fab_type: Seq<char>,
    g: (Seq<Seq<char>>, Seq<Seq<char>>, Seq<char>),
    line: Seq<char>,
)
    requires
        forall|k: int|
            0 <= k < sorted.len() && spec_group_qualifies(#[trigger] sorted[k], fab_type, g)
                ==> spec_group_member_row(sorted, k, g) == Ok::<Seq<char>, Error>(line),
        exists|k: int|
            0 <= k < sorted.len() && spec_group_qualifies(#[trigger] sorted[k], fab_type, g),
    ensures
        spec_group_scan(sorted, 0, fab_type, g, None) == Ok::<Option<Seq<char>>, Error>(
            Some(line),
        ),
{
    lemma_group_scan_same(sorted, 0, fab_type, g, line);
}

/// The grouped-row law, rejecting side: when two qualifying members
/// render different rows (and every qualifying member renders), the
/// group scan fails with the consistency error.
pub proof fn lemma_group_divergence(
    sorted: Seq<SpecItem>,
    fab_type: Seq<char>,
    g: (Seq<Seq<char>>, Seq<Seq<char>>, Seq<char>),
    i: int,
    j: int,
)
    requires
        0 <= i < j < sorted.len(),
        spec_group_qualifies(sorted[i], fab_type, g),
        spec_group_qualifies(sorted[j], fab_type, g),
        forall|k: int|
            0 <= k < sorted.len() && spec_group_qualifies(#[trigger] sorted[k], fab_type, g)
                ==> spec_group_member_row(sorted, k, g) is Ok,
        spec_group_member_row(sorted, i, g) != spec_group_member_row(sorted, j, g),
    ensures
        spec_group_scan(sorted, 0, fab_type, g, None) == Err::<Option<Seq<char>>, Error>(
            Error::InconsistentGroup,
        ),
{
    lemma_group_scan_div_none(sorted, 0, fab_type, g, i, j);
}

/// The inductive heart of the rejecting side.
proof fn lemma_group_scan_div_none(
    sorted: Seq<SpecItem>,
    m: int,
    fab_type: Seq<char>,
    g: (Seq<Seq<char>>, Seq<Seq<char>>, Seq<char>),
    i: int,
    j: int,
)
    requires
        0 <= m <= i < j < sorted.len(),
        spec_group_qualifies(sorted[i], fab_type, g),
        spec_group_qualifies(sorted[j], fab_type, g),
        forall|k: int|
            m <= k < sorted.len() && spec_group_qualifies(#[trigger] sorted[k], fab_type, g)
                ==> spec_group_member_row(sorted, k, g) is Ok,
        spec_group_member_row(sorted, i, g) != spec_group_member_row(sorted, j, g),
    ensures
        spec_group_scan(sorted, m, fab_type, g, None) == Err::<Option<Seq<char>>, Error>(
            Error::InconsistentGroup,
        ),
    decreases sorted.len() - m,
{
    if spec_group_qualifies(sorted[m], fab_type, g) {
        assert(spec_group_member_row(sorted, m, g) is Ok);
        let line = spec_group_member_row(sorted, m, g)->Ok_0;
        assert(spec_group_scan(sorted, m, fab_type, g, None) == spec_group_scan(
            sorted,
            m + 1,
            fab_type,
            g,
            Some(line),
        ));
        if spec_group_member_row(sorted, i, g) != Ok::<Seq<char>, Error>(line) {
            assert(i != m);
            lemma_group_scan_diverges(sorted, m + 1, fab_type, g, line);
        } else {
            assert(spec_group_member_row(sorted, j, g) != Ok::<Seq<char>, Error>(line));
            assert(j > m);
            lemma_group_scan_diverges(sorted, m + 1, fab_type, g, line);
        }
    } else {
        assert(i != m && j != m);
        lemma_group_scan_div_none(sorted, m + 1, fab_type, g, i, j);
    }
}

} // verus!

verus! {

/// Sorted by display name, unnamed items first.
pub open spec fn spec_items_name_sorted(s: Seq<SpecItem>) -> bool {
    forall|i: int, j: int| 0 <= i < j < s.len() ==> spec_name_le(
        (#[trigger] s[i]).name,
        (#[trigger] s[j]).name,
    )
}

/// The name order is total.
proof fn lemma_name_le_total(a: Option<Seq<char>>, b: Option<Seq<char>>)
    ensures
        spec_name_le(a, b) || spec_name_le(b, a),
{
    if a is Some && b is Some {
        crate::text::lemma_lex_le_total(a->0, b->0);
    }
}

/// The name order is transitive.
proof fn lemma_name_le_trans(a: Option<Seq<char>>, b: Option<Seq<char>>, c: Option<Seq<char>>)
    requires
        spec_name_le(a, b),
        spec_name_le(b, c),
    ensures
        spec_name_le(a, c),
{
    if a is Some && b is Some && c is Some {
        crate::text::lemma_lex_le_trans(a->0, b->0, c->0);
    }
}

/// Inserting one item adds exactly it to the multiset.
proof fn lemma_insert_item_multiset(s: Seq<SpecItem>, it: SpecItem)
    ensures
        spec_insert_item(s, it).to_multiset() =~= s.to_multiset().insert(it),
        spec_insert_item(s, it).len() == s.len() + 1,
    decreases s.len(),
{
    broadcast use vstd::seq_lib::group_to_multiset_ensures;
    broadcast use vstd::multiset::group_multiset_axioms;

    let r = spec_insert_item(s, it);
    if s.len() == 0 {
        assert(r =~= Seq::<SpecItem>::empty().push(it));
        assert(Seq::<SpecItem>::empty().push(it).to_multiset()
            =~= Seq::<SpecItem>::empty().to_multiset().insert(it));
        assert(Seq::<SpecItem>::empty().to_multiset() =~= s.to_multiset());
    } else if spec_name_le(s[0].name, it.name) {
        lemma_insert_item_multiset(s.drop_first(), it);
        let ir = spec_insert_item(s.drop_first(), it);
        assert(r =~= seq![s[0]] + ir);
        vstd::seq_lib::lemma_multiset_commutative(seq![s[0]], ir);
        vstd::seq_lib::lemma_multiset_commutative(seq![s[0]], s.drop_first());
        assert(s =~= seq![s[0]] + s.drop_first());
        assert(r.to_multiset() =~= s.to_multiset().insert(it));
    } else {
        assert(r =~= seq![it] + s);
        vstd::seq_lib::lemma_multiset_commutative(seq![it], s);
        assert(seq![it].to_multiset() =~= Seq::<SpecItem>::empty().to_multiset().insert(it));
        assert(r.to_multiset() =~= s.to_multiset().insert(it));
    }
}

/// Inserting into a name-sorted list keeps it name sorted.
proof fn lemma_insert_item_sorted(s: Seq<SpecItem>, it: SpecItem)
    requires
        spec_items_name_sorted(s),
    ensures
        spec_items_name_sorted(spec_insert_item(s, it)),
    decreases s.len(),
{
    broadcast use vstd::seq_lib::group_to_multiset_ensures;
    broadcast use vstd::multiset::group_multiset_axioms;

    let r = spec_insert_item(s, it);
    if s.len() == 0 {
    } else if spec_name_le(s[0].name, it.name) {
        let rest = s.drop_first();
        assert(spec_items_name_sorted(rest)) by {
            assert(forall|i: int| 0 <= i < rest.len() ==> #[trigger] rest[i] == s[i + 1]);
        }
        lemma_insert_item_sorted(rest, it);
        lemma_insert_item_multiset(rest, it);
        let ir = spec_insert_item(rest, it);
        assert(r == seq![s[0]] + ir);
        assert forall|i: int, j: int| 0 <= i < j < r.len() implies spec_name_le(
            (#[trigger] r[i]).name,
            (#[trigger] r[j]).name,
        ) by {
            if i == 0 {
                assert(r[j] == ir[j - 1]);
                assert(ir.contains(ir[j - 1]));
                assert(ir.to_multiset().contains(ir[j - 1]));
                if ir[j - 1] == it {
                } else {
                    assert(rest.to_multiset().contains(ir[j - 1]));
                    assert(rest.contains(ir[j - 1]));
                    let k = choose|k: int| 0 <= k < rest.len() && rest[k] == ir[j - 1];
                    assert(s[k + 1] == ir[j - 1]);
                    assert(spec_name_le(s[0].name, s[k + 1].name));
                }
            } else {
                assert(r[i] == ir[i - 1] && r[j] == ir[j - 1]);
            }
        }
    } else {
        lemma_name_le_total(s[0].name, it.name);
        assert(r == seq![it] + s);
        assert forall|i: int, j: int| 0 <= i < j < r.len() implies spec_name_le(
            (#[trigger] r[i]).name,
            (#[trigger] r[j]).name,
        ) by {
            if i == 0 {
                assert(r[j] == s[j - 1]);
                if j > 1 {
                    assert(spec_name_le(s[0].name, s[j - 1].name));
                    lemma_name_le_trans(it.name, s[0].name, s[j - 1].name);
                }
            } else {
                assert(r[i] == s[i - 1] && r[j] == s[j - 1]);
            }
        }
    }
}

/// The catalog-ordering law: the sorted catalog the table renderers
/// present holds exactly the cataloged items, ordered by display name
/// with unnamed items first.
pub proof fn lemma_sort_items_ordering(items: Seq<SpecItem>)
    ensures
        spec_items_name_sorted(spec_sort_items(items)),
        spec_sort_items(items).to_multiset() =~= items.to_multiset(),
        spec_sort_items(items).len() == items.len(),
    decreases items.len(),
{
    broadcast use vstd::seq_lib::group_to_multiset_ensures;
    broadcast use vstd::multiset::group_multiset_axioms;

    if items.len() > 0 {
        lemma_sort_items_ordering(items.drop_last());
        lemma_insert_item_sorted(spec_sort_items(items.drop_last()), items.last());
        lemma_insert_item_multiset(spec_sort_items(items.drop_last()), items.last());
        assert(items =~= items.drop_last().push(items.last()));
        assert(items.drop_last().push(items.last()).to_multiset()
            =~= items.drop_last().to_multiset().insert(items.last()));
    }
}

} // verus!
