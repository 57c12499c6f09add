//! The canonical item catalog: the typed records the normalization
//! pipeline produces and every renderer consumes.

use vstd::prelude::*;

use crate::decimal::Decimal;
use crate::text::{lex_le, str_eq};

verus! {

/// Everything that can go wrong while normalizing the source tree or
/// rendering the catalog. Malformed input and consistency violations
/// abort the run; there is no partial recovery.
#[derive(Clone, Copy, Debug, PartialEq, Eq, Structural)]
pub enum Error {
    /// The localization document has no `infotexts` element.
    MissingInfotexts,
    /// The version manifest holds no version token.
    MissingVersion,
    /// An item element has no `identifier` attribute.
    MissingIdentifier,
    /// A price element has no `baseprice` attribute.
    MissingBasePrice,
    /// A price child has no `locationtype` attribute.
    MissingLocationType,
    /// A numeric attribute does not parse as an integer.
    InvalidInt,
    /// A numeric attribute does not parse as a decimal.
    InvalidDecimal,
    /// A boolean attribute is neither `true` nor `false`.
    InvalidBool,
    /// A location is declared sold and explicitly not sold at once.
    SoldConflict,
    /// A recipe material names neither an identifier nor a tag.
    MaterialWithoutKey,
    /// A recipe material names both an identifier and a tag where
    /// exactly one is allowed.
    AmbiguousMaterialKey,
    /// A required skill has no `identifier` attribute.
    MissingSkillIdentifier,
    /// A required skill has no `level` attribute.
    MissingSkillLevel,
    /// A fabricate element has no `suitablefabricators` attribute.
    MissingFabricator,
    /// A deconstruct element has no `time` attribute.
    MissingDeconstructTime,
    /// A commonness child has no `commonness` attribute.
    MissingCommonness,
    /// A level resource declares two default commonness values.
    DuplicateDefaultCommonness,
    /// A level resource declares no default commonness value.
    MissingDefaultCommonness,
    /// A recipe holds more materials than a count can carry.
    TooManyMaterials,
    /// A rendered material or row names an item the catalog lacks.
    UnknownItem,
    /// A rendered item has no display name.
    UnnamedItem,
    /// A material tag other than the known representative ones.
    UnknownTag,
    /// A skill identifier outside the recognized set.
    UnknownSkill,
    /// Two rows of a collapsed display group differ.
    InconsistentGroup,
    /// An infobox recipe is not made at the plain fabricator.
    UnexpectedFabricator,
    /// An infobox item has no localized description.
    MissingDescription,
    /// A commonness percentage does not fit the integer range.
    CommonnessOverflow,
    /// An ore infobox item has no level resource.
    MissingLevelResource,
    /// An infobox was asked of an item outside the recognized
    /// categories.
    UnknownCategory,
}

impl View for Error {
    type V = Error;

    open spec fn view(&self) -> Error {
        *self
    }
}

impl DeepView for Error {
    type V = Error;

    open spec fn deep_view(&self) -> Error {
        *self
    }
}

/// Maps a result onto the views of its contents.
pub open spec fn rview<T: View, E: View>(r: Result<T, E>) -> Result<T::V, E::V> {
    match r {
        Ok(t) => Ok(t.view()),
        Err(e) => Err(e.view()),
    }
}

/// One location type's price record: the multiplier and whether the
/// item is sold there, after the sold/unsold inference has run.
#[derive(Debug)]
pub struct PriceEntry {
    pub location: String,
    pub multiplier: Decimal,
    pub sold: bool,
}

pub struct SpecPriceEntry {
    pub location: Seq<char>,
    pub multiplier: Decimal,
    pub sold: bool,
}

impl View for PriceEntry {
    type V = SpecPriceEntry;

    open spec fn view(&self) -> SpecPriceEntry {
        SpecPriceEntry { location: self.location@, multiplier: self.multiplier, sold: self.sold }
    }
}

impl DeepView for PriceEntry {
    type V = SpecPriceEntry;

    open spec fn deep_view(&self) -> SpecPriceEntry {
        self.view()
    }
}

/// An item's price block: the base price, the sold-everywhere
/// declaration as written, and the per-location records in document
/// order, one entry per location type.
#[derive(Debug)]
pub struct Prices {
    pub base_price: i32,
    pub sold_everywhere: Option<bool>,
    pub locations: Vec<PriceEntry>,
}

pub struct SpecPrices {
    pub base_price: i32,
    pub sold_everywhere: Option<bool>,
    pub locations: Seq<SpecPriceEntry>,
}

impl View for Prices {
    type V = SpecPrices;

    open spec fn view(&self) -> SpecPrices {
        SpecPrices {
            base_price: self.base_price,
            sold_everywhere: self.sold_everywhere,
            locations: self.locations.deep_view(),
        }
    }
}

impl DeepView for Prices {
    type V = SpecPrices;

    open spec fn deep_view(&self) -> SpecPrices {
        self.view()
    }
}

impl SpecPrices {
    /// All stored multipliers are canonical decimals.
    pub open spec fn wf(self) -> bool {
        forall|i: int| 0 <= i < self.locations.len() ==> (#[trigger] self.locations[i]).multiplier.wf()
    }

    /// The price record for a location type, if one was declared.
    pub open spec fn lookup(self, location: Seq<char>) -> Option<SpecPriceEntry> {
        spec_entry_lookup(self.locations, location)
    }

    /// What a query for a location type resolves to: the recorded
    /// multiplier and sold state, or, for a location absent from the
    /// item's own records, the default multiplier of one and sold
    /// exactly when the item declares itself sold everywhere.
    pub open spec fn resolved(self, location: Seq<char>) -> (Decimal, bool) {
        match self.lookup(location) {
            Some(e) => (e.multiplier, e.sold),
            None => (
                Decimal { neg: false, mant: 1, scale: 0 },
                self.sold_everywhere == Some(true),
            ),
        }
    }

    /// Whether any location sells the item: some recorded location
    /// does, or the item declares itself sold everywhere.
    pub open spec fn sold_somewhere(self) -> bool {
        spec_sold_anywhere(self.locations) || self.sold_everywhere == Some(true)
    }
}

/// The unrecorded-location law: a location type absent from an item's
/// own records resolves to the default multiplier of one, and is sold
/// there exactly when the item declares itself sold everywhere.
pub proof fn lemma_unrecorded_location_resolution(p: SpecPrices, location: Seq<char>)
    requires
        p.lookup(location) is None,
    ensures
        p.resolved(location) == (
            Decimal { neg: false, mant: 1, scale: 0 },
            p.sold_everywhere == Some(true),
        ),
{
}

/// First price entry for `location`.
pub open spec fn spec_entry_lookup(
    s: Seq<SpecPriceEntry>,
    location: Seq<char>,
) -> Option<SpecPriceEntry>
    decreases s.len(),
{
    if s.len() == 0 {
        None
    } else if s[0].location == location {
        Some(s[0])
    } else {
        spec_entry_lookup(s.drop_first(), location)
    }
}

impl Prices {
    /// Finds the price record for a location type.
    pub fn get(&self, location: &str) -> (r: Option<&PriceEntry>)
        ensures
            r.deep_view() == self@.lookup(location@),
    {
        let r = self.get_from(0, location);
        proof {
            assert(self.locations.deep_view().subrange(0, self.locations@.len() as int)
                =~= self.locations.deep_view());
        }
        r
    }

    fn get_from(&self, i: usize, location: &str) -> (r: Option<&PriceEntry>)
        requires
            i <= self.locations@.len(),
        ensures
            r.deep_view() == spec_entry_lookup(
                self.locations.deep_view().subrange(i as int, self.locations@.len() as int),
                location@,
            ),
        decreases self.locations@.len() - i,
    {
        let ghost suffix = self.locations.deep_view().subrange(
            i as int,
            self.locations@.len() as int,
        );
        if i == self.locations.len() {
            None
        } else {
            proof {
                assert(suffix[0] == self.locations.deep_view()[i as int]);
                assert(suffix.drop_first() =~= self.locations.deep_view().subrange(
                    i as int + 1,
                    self.locations@.len() as int,
                ));
            }
            if str_eq(self.locations[i].location.as_str(), location) {
                Some(&self.locations[i])
            } else {
                self.get_from(i + 1, location)
            }
        }
    }

    /// Resolves a query for a location type, defaulting an unrecorded
    /// location to multiplier one and the sold-everywhere verdict.
    pub fn resolve(&self, location: &str) -> (r: (Decimal, bool))
        ensures
            r == self@.resolved(location@),
    {
        match self.get(location) {
            Some(e) => (e.multiplier, e.sold),
            None => (
                Decimal { neg: false, mant: 1, scale: 0 },
                self.sold_everywhere == Some(true),
            ),
        }
    }

    /// Whether any location sells the item.
    pub fn sold_anywhere(&self) -> (r: bool)
        ensures
            r == self@.sold_somewhere(),
    {
        if self.sold_everywhere == Some(true) {
            return true;
        }
        proof {
            assert(self.locations.deep_view().subrange(0, self.locations@.len() as int)
                =~= self.locations.deep_view());
        }
        let mut i: usize = 0;
        while i < self.locations.len()
            invariant
                i <= self.locations@.len(),
                forall|j: int| 0 <= j < i ==> !(#[trigger] self.locations.deep_view()[j]).sold,
                spec_sold_anywhere(self@.locations) == spec_sold_anywhere(
                    self.locations.deep_view().subrange(i as int, self.locations@.len() as int),
                ),
            decreases self.locations@.len() - i,
        {
            let ghost suffix = self.locations.deep_view().subrange(
                i as int,
                self.locations@.len() as int,
            );
            proof {
                assert(suffix[0] == self.locations.deep_view()[i as int]);
                assert(suffix.drop_first() =~= self.locations.deep_view().subrange(
                    i as int + 1,
                    self.locations@.len() as int,
                ));
            }
            if self.locations[i].sold {
                return true;
            }
            i = i + 1;
        }
        proof {
            assert(self.locations.deep_view().subrange(
                self.locations@.len() as int,
                self.locations@.len() as int,
            ) =~= Seq::<SpecPriceEntry>::empty());
        }
        false
    }

    /// A deep copy.
    pub fn duplicate(&self) -> (r: Prices)
        ensures
            r@ == self@,
    {
        let mut locations: Vec<PriceEntry> = Vec::new();
        let mut i: usize = 0;
        while i < self.locations.len()
            invariant
                i <= self.locations@.len(),
                locations.deep_view() =~= self.locations.deep_view().subrange(0, i as int),
            decreases self.locations@.len() - i,
        {
            let e = &self.locations[i];
            let ghost dv0 = locations.deep_view();
            locations.push(
                PriceEntry {
                    location: e.location.clone(),
                    multiplier: e.multiplier,
                    sold: e.sold,
                },
            );
            proof {
                assert(locations.deep_view() =~= dv0.push(self.locations.deep_view()[i as int]));
                assert(locations.deep_view() =~= self.locations.deep_view().subrange(
                    0,
                    i as int + 1,
                ));
            }
            i = i + 1;
        }
        proof {
            assert(self.locations.deep_view().subrange(0, self.locations@.len() as int)
                =~= self.locations.deep_view());
        }
        let r = Prices {
            base_price: self.base_price,
            sold_everywhere: self.sold_everywhere,
            locations,
        };
        proof {
            assert(r@ =~= self@);
        }
        r
    }
}

/// Whether any entry is marked sold.
pub open spec fn spec_sold_anywhere(s: Seq<SpecPriceEntry>) -> bool
    decreases s.len(),
{
    if s.len() == 0 {
        false
    } else if s[0].sold {
        true
    } else {
        spec_sold_anywhere(s.drop_first())
    }
}

/// A required fabrication material: a concrete item, or any item
/// carrying an abstract tag.
#[derive(Debug)]
pub enum RequiredItem {
    Id(String),
    Tag(String),
}

pub enum SpecRequiredItem {
    Id(Seq<char>),
    Tag(Seq<char>),
}

impl View for RequiredItem {
    type V = SpecRequiredItem;

    open spec fn view(&self) -> SpecRequiredItem {
        match self {
            RequiredItem::Id(s) => SpecRequiredItem::Id(s@),
            RequiredItem::Tag(s) => SpecRequiredItem::Tag(s@),
        }
    }
}

impl DeepView for RequiredItem {
    type V = SpecRequiredItem;

    open spec fn deep_view(&self) -> SpecRequiredItem {
        self.view()
    }
}

/// The order on required materials: concrete identifiers first, then
/// tags, each group ordered lexicographically.
pub open spec fn spec_req_le(a: SpecRequiredItem, b: SpecRequiredItem) -> bool {
    match (a, b) {
        (SpecRequiredItem::Id(x), SpecRequiredItem::Id(y)) => lex_le(x, y),
        (SpecRequiredItem::Id(_), SpecRequiredItem::Tag(_)) => true,
        (SpecRequiredItem::Tag(_), SpecRequiredItem::Id(_)) => false,
        (SpecRequiredItem::Tag(x), SpecRequiredItem::Tag(y)) => lex_le(x, y),
    }
}

impl RequiredItem {
    /// Whether the two materials are the same.
    pub fn same_as(&self, other: &RequiredItem) -> (r: bool)
        ensures
            r == (self@ == other@),
    {
        match (self, other) {
            (RequiredItem::Id(a), RequiredItem::Id(b)) => str_eq(a.as_str(), b.as_str()),
            (RequiredItem::Tag(a), RequiredItem::Tag(b)) => str_eq(a.as_str(), b.as_str()),
            _ => false,
        }
    }

    /// Compares two materials in display order.
    pub fn le(&self, other: &RequiredItem) -> (r: bool)
        ensures
            r == spec_req_le(self@, other@),
    {
        match (self, other) {
            (RequiredItem::Id(a), RequiredItem::Id(b)) => crate::text::str_le(
                a.as_str(),
                b.as_str(),
            ),
            (RequiredItem::Id(_), RequiredItem::Tag(_)) => true,
            (RequiredItem::Tag(_), RequiredItem::Id(_)) => false,
            (RequiredItem::Tag(a), RequiredItem::Tag(b)) => crate::text::str_le(
                a.as_str(),
                b.as_str(),
            ),
        }
    }

    /// A deep copy.
    pub fn duplicate(&self) -> (r: RequiredItem)
        ensures
            r@ == self@,
    {
        match self {
            RequiredItem::Id(s) => RequiredItem::Id(s.clone()),
            RequiredItem::Tag(s) => RequiredItem::Tag(s.clone()),
        }
    }
}

/// A fabrication recipe.
#[derive(Debug)]
pub struct Fabricate {
    pub out_amount: i32,
    pub skills: Vec<(String, i32)>,
    pub time: i32,
    pub mats: Vec<(RequiredItem, i32)>,
    pub fabricator: String,
}

pub struct SpecFabricate {
    pub out_amount: i32,
    pub skills: Seq<(Seq<char>, i32)>,
    pub time: i32,
    pub mats: Seq<(SpecRequiredItem, i32)>,
    pub fabricator: Seq<char>,
}

impl View for Fabricate {
    type V = SpecFabricate;

    open spec fn view(&self) -> SpecFabricate {
        SpecFabricate {
            out_amount: self.out_amount,
            skills: self.skills.deep_view(),
            time: self.time,
            mats: self.mats.deep_view(),
            fabricator: self.fabricator@,
        }
    }
}

impl DeepView for Fabricate {
    type V = SpecFabricate;

    open spec fn deep_view(&self) -> SpecFabricate {
        self.view()
    }
}

impl Fabricate {
    /// A deep copy.
    pub fn duplicate(&self) -> (r: Fabricate)
        ensures
            r@ == self@,
    {
        let r = Fabricate {
            out_amount: self.out_amount,
            skills: duplicate_string_counts(&self.skills),
            time: self.time,
            mats: duplicate_mats(&self.mats),
            fabricator: self.fabricator.clone(),
        };
        proof {
            assert(r@ =~= self@);
        }
        r
    }
}

/// A deep copy of a list of (name, count) pairs.
pub fn duplicate_string_counts(v: &Vec<(String, i32)>) -> (r: Vec<(String, i32)>)
    ensures
        r.deep_view() == v.deep_view(),
{
    let mut out: Vec<(String, i32)> = Vec::new();
    let mut i: usize = 0;
    while i < v.len()
        invariant
            i <= v@.len(),
            out.deep_view() =~= v.deep_view().subrange(0, i as int),
        decreases v@.len() - i,
    {
        let ghost dv0 = out.deep_view();
        out.push((v[i].0.clone(), v[i].1));
        proof {
            assert(out.deep_view() =~= dv0.push(v.deep_view()[i as int]));
            assert(out.deep_view() =~= v.deep_view().subrange(0, i as int + 1));
        }
        i = i + 1;
    }
    proof {
        assert(v.deep_view().subrange(0, v@.len() as int) =~= v.deep_view());
    }
    out
}

/// A deep copy of a material list.
pub fn duplicate_mats(v: &Vec<(RequiredItem, i32)>) -> (r: Vec<(RequiredItem, i32)>)
    ensures
        r.deep_view() == v.deep_view(),
{
    let mut out: Vec<(RequiredItem, i32)> = Vec::new();
    let mut i: usize = 0;
    while i < v.len()
        invariant
            i <= v@.len(),
            out.deep_view() =~= v.deep_view().subrange(0, i as int),
        decreases v@.len() - i,
    {
        let ghost dv0 = out.deep_view();
        out.push((v[i].0.duplicate(), v[i].1));
        proof {
            assert(out.deep_view() =~= dv0.push(v.deep_view()[i as int]));
            assert(out.deep_view() =~= v.deep_view().subrange(0, i as int + 1));
        }
        i = i + 1;
    }
    proof {
        assert(v.deep_view().subrange(0, v@.len() as int) =~= v.deep_view());
    }
    out
}

/// A deconstruction recipe.
#[derive(Debug)]
pub struct Deconstruct {
    pub time: i32,
    pub mats: Vec<(String, i32)>,
}

pub struct SpecDeconstruct {
    pub time: i32,
    pub mats: Seq<(Seq<char>, i32)>,
}

impl View for Deconstruct {
    type V = SpecDeconstruct;

    open spec fn view(&self) -> SpecDeconstruct {
        SpecDeconstruct { time: self.time, mats: self.mats.deep_view() }
    }
}

impl DeepView for Deconstruct {
    type V = SpecDeconstruct;

    open spec fn deep_view(&self) -> SpecDeconstruct {
        self.view()
    }
}

impl Deconstruct {
    /// A deep copy.
    pub fn duplicate(&self) -> (r: Deconstruct)
        ensures
            r@ == self@,
    {
        let r = Deconstruct { time: self.time, mats: duplicate_string_counts(&self.mats) };
        proof {
            assert(r@ =~= self@);
        }
        r
    }
}

/// Spawn commonness of an ore-like item: a default value and
/// per-level-type overrides.
#[derive(Debug)]
pub struct LevelResource {
    pub commonness_default: Decimal,
    pub commonness: Vec<(String, Decimal)>,
}

pub struct SpecLevelResource {
    pub commonness_default: Decimal,
    pub commonness: Seq<(Seq<char>, Decimal)>,
}

impl View for LevelResource {
    type V = SpecLevelResource;

    open spec fn view(&self) -> SpecLevelResource {
        SpecLevelResource {
            commonness_default: self.commonness_default,
            commonness: self.commonness.deep_view(),
        }
    }
}

impl DeepView for LevelResource {
    type V = SpecLevelResource;

    open spec fn deep_view(&self) -> SpecLevelResource {
        self.view()
    }
}

impl SpecLevelResource {
    /// All stored commonness values are canonical decimals.
    pub open spec fn wf(self) -> bool {
        &&& self.commonness_default.wf()
        &&& forall|i: int| 0 <= i < self.commonness.len() ==> (#[trigger] self.commonness[i]).1.wf()
    }

    /// The override for a level type, if any.
    pub open spec fn lookup(self, level: Seq<char>) -> Option<Decimal> {
        spec_commonness_lookup(self.commonness, level)
    }
}

/// First commonness override for `level`.
pub open spec fn spec_commonness_lookup(
    s: Seq<(Seq<char>, Decimal)>,
    level: Seq<char>,
) -> Option<Decimal>
    decreases s.len(),
{
    if s.len() == 0 {
        None
    } else if s[0].0 == level {
        Some(s[0].1)
    } else {
        spec_commonness_lookup(s.drop_first(), level)
    }
}

impl LevelResource {
    /// Finds the commonness override for a level type.
    pub fn get(&self, level: &str) -> (r: Option<Decimal>)
        ensures
            r == self@.lookup(level@),
    {
        let r = self.get_from(0, level);
        proof {
            assert(self.commonness.deep_view().subrange(0, self.commonness@.len() as int)
                =~= self.commonness.deep_view());
        }
        r
    }

    fn get_from(&self, i: usize, level: &str) -> (r: Option<Decimal>)
        requires
            i <= self.commonness@.len(),
        ensures
            r == spec_commonness_lookup(
                self.commonness.deep_view().subrange(i as int, self.commonness@.len() as int),
                level@,
            ),
        decreases self.commonness@.len() - i,
    {
        let ghost suffix = self.commonness.deep_view().subrange(
            i as int,
            self.commonness@.len() as int,
        );
        if i == self.commonness.len() {
            None
        } else {
            proof {
                assert(suffix[0] == self.commonness.deep_view()[i as int]);
                assert(suffix.drop_first() =~= self.commonness.deep_view().subrange(
                    i as int + 1,
                    self.commonness@.len() as int,
                ));
            }
            if str_eq(self.commonness[i].0.as_str(), level) {
                Some(self.commonness[i].1)
            } else {
                self.get_from(i + 1, level)
            }
        }
    }

    /// A deep copy.
    pub fn duplicate(&self) -> (r: LevelResource)
        ensures
            r@ == self@,
    {
        let mut commonness: Vec<(String, Decimal)> = Vec::new();
        let mut i: usize = 0;
        while i < self.commonness.len()
            invariant
                i <= self.commonness@.len(),
                commonness.deep_view() =~= self.commonness.deep_view().subrange(0, i as int),
            decreases self.commonness@.len() - i,
        {
            let ghost dv0 = commonness.deep_view();
            commonness.push((self.commonness[i].0.clone(), self.commonness[i].1));
            proof {
                assert(commonness.deep_view() =~= dv0.push(
                    self.commonness.deep_view()[i as int],
                ));
                assert(commonness.deep_view() =~= self.commonness.deep_view().subrange(
                    0,
                    i as int + 1,
                ));
            }
            i = i + 1;
        }
        proof {
            assert(self.commonness.deep_view().subrange(0, self.commonness@.len() as int)
                =~= self.commonness.deep_view());
        }
        let r = LevelResource { commonness_default: self.commonness_default, commonness };
        proof {
            assert(r@ =~= self@);
        }
        r
    }
}

/// One cataloged item.
#[derive(Debug)]
pub struct Item {
    pub id: String,
    pub name: Option<String>,
    pub tags: Vec<String>,
    pub prices: Prices,
    pub fabricate: Option<Fabricate>,
    pub deconstruct: Option<Deconstruct>,
    pub has_inventory_icon: bool,
    pub has_sprite: bool,
    pub level_resource: Option<LevelResource>,
}

pub struct SpecItem {
    pub id: Seq<char>,
    pub name: Option<Seq<char>>,
    pub tags: Seq<Seq<char>>,
    pub prices: SpecPrices,
    pub fabricate: Option<SpecFabricate>,
    pub deconstruct: Option<SpecDeconstruct>,
    pub has_inventory_icon: bool,
    pub has_sprite: bool,
    pub level_resource: Option<SpecLevelResource>,
}

impl View for Item {
    type V = SpecItem;

    open spec fn view(&self) -> SpecItem {
        SpecItem {
            id: self.id@,
            name: self.name.deep_view(),
            tags: self.tags.deep_view(),
            prices: self.prices@,
            fabricate: self.fabricate.deep_view(),
            deconstruct: self.deconstruct.deep_view(),
            has_inventory_icon: self.has_inventory_icon,
            has_sprite: self.has_sprite,
            level_resource: self.level_resource.deep_view(),
        }
    }
}

impl DeepView for Item {
    type V = SpecItem;

    open spec fn deep_view(&self) -> SpecItem {
        self.view()
    }
}

impl SpecItem {
    /// All decimals held by the item are canonical.
    pub open spec fn wf(self) -> bool {
        &&& self.prices.wf()
        &&& match self.level_resource {
            Some(lr) => lr.wf(),
            None => true,
        }
    }
}

/// All items of a catalog slice are well formed.
pub open spec fn spec_items_wf(items: Seq<SpecItem>) -> bool {
    forall|i: int| 0 <= i < items.len() ==> (#[trigger] items[i]).wf()
}

impl Item {
    /// Whether the item carries the given tag.
    pub fn has_tag(&self, tag: &str) -> (r: bool)
        ensures
            r == self@.tags.contains(tag@),
    {
        let mut i: usize = 0;
        while i < self.tags.len()
            invariant
                i <= self.tags@.len(),
                forall|j: int| 0 <= j < i ==> self.tags.deep_view()[j] != tag@,
            decreases self.tags@.len() - i,
        {
            if str_eq(self.tags[i].as_str(), tag) {
                proof {
                    assert(self.tags.deep_view()[i as int] == tag@);
                }
                return true;
            }
            i = i + 1;
        }
        proof {
            if self@.tags.contains(tag@) {
                let j = choose|j: int| 0 <= j < self.tags.deep_view().len()
                    && self.tags.deep_view()[j] == tag@;
                assert(self.tags.deep_view()[j] != tag@);
            }
        }
        false
    }

    /// A deep copy.
    pub fn duplicate(&self) -> (r: Item)
        ensures
            r@ == self@,
    {
        let name = match &self.name {
            Some(n) => Some(n.clone()),
            None => None,
        };
        let mut tags: Vec<String> = Vec::new();
        let mut i: usize = 0;
        while i < self.tags.len()
            invariant
                i <= self.tags@.len(),
                tags.deep_view() =~= self.tags.deep_view().subrange(0, i as int),
            decreases self.tags@.len() - i,
        {
            let ghost dv0 = tags.deep_view();
            tags.push(self.tags[i].clone());
            proof {
                assert(tags.deep_view() =~= dv0.push(self.tags.deep_view()[i as int]));
                assert(tags.deep_view() =~= self.tags.deep_view().subrange(0, i as int + 1));
            }
            i = i + 1;
        }
        proof {
            assert(self.tags.deep_view().subrange(0, self.tags@.len() as int)
                =~= self.tags.deep_view());
        }
        let fabricate = match &self.fabricate {
            Some(f) => Some(f.duplicate()),
            None => None,
        };
        let deconstruct = match &self.deconstruct {
            Some(d) => Some(d.duplicate()),
            None => None,
        };
        let level_resource = match &self.level_resource {
            Some(lr) => Some(lr.duplicate()),
            None => None,
        };
        let r = Item {
            id: self.id.clone(),
            name,
            tags,
            prices: self.prices.duplicate(),
            fabricate,
            deconstruct,
            has_inventory_icon: self.has_inventory_icon,
            has_sprite: self.has_sprite,
            level_resource,
        };
        proof {
            assert(r@ =~= self@);
        }
        r
    }
}

/// The localization table: a flat mapping from fully qualified text
/// key to display string, read-only after construction.
#[derive(Debug)]
pub struct Localization {
    pub entries: Vec<(String, String)>,
}

impl View for Localization {
    type V = Seq<(Seq<char>, Seq<char>)>;

    open spec fn view(&self) -> Seq<(Seq<char>, Seq<char>)> {
        self.entries.deep_view()
    }
}

impl DeepView for Localization {
    type V = Seq<(Seq<char>, Seq<char>)>;

    open spec fn deep_view(&self) -> Seq<(Seq<char>, Seq<char>)> {
        self.view()
    }
}

/// First value recorded under `key`.
pub open spec fn spec_loc_lookup(
    s: Seq<(Seq<char>, Seq<char>)>,
    key: Seq<char>,
) -> Option<Seq<char>>
    decreases s.len(),
{
    if s.len() == 0 {
        None
    } else if s[0].0 == key {
        Some(s[0].1)
    } else {
        spec_loc_lookup(s.drop_first(), key)
    }
}

/// The table with `key` now bound to `value`: an existing binding is
/// replaced in place, a new one appended.
pub open spec fn spec_loc_put(
    s: Seq<(Seq<char>, Seq<char>)>,
    key: Seq<char>,
    value: Seq<char>,
) -> Seq<(Seq<char>, Seq<char>)>
    decreases s.len(),
{
    if s.len() == 0 {
        seq![(key, value)]
    } else if s[0].0 == key {
        seq![(key, value)] + s.drop_first()
    } else {
        seq![s[0]] + spec_loc_put(s.drop_first(), key, value)
    }
}

impl Localization {
    /// An empty table.
    pub fn new() -> (r: Localization)
        ensures
            r@ == Seq::<(Seq<char>, Seq<char>)>::empty(),
    {
        let r = Localization { entries: Vec::new() };
        proof {
            assert(r@ =~= Seq::<(Seq<char>, Seq<char>)>::empty());
        }
        r
    }

    /// Binds `key` to `value`, replacing any earlier binding.
    pub fn put(&mut self, key: String, value: String)
        ensures
            final(self)@ == spec_loc_put(old(self)@, key@, value@),
    {
        let mut i: usize = 0;
        let n = self.entries.len();
        proof {
            assert(self.entries.deep_view().subrange(0, n as int) =~= self.entries.deep_view());
            assert(self.entries.deep_view().subrange(0, 0) + spec_loc_put(
                self.entries.deep_view().subrange(0, n as int),
                key@,
                value@,
            ) =~= spec_loc_put(self@, key@, value@));
        }
        while i < n
            invariant
                i <= n,
                n == self.entries@.len(),
                self.entries == old(self).entries,
                forall|j: int| 0 <= j < i ==> (#[trigger] self.entries.deep_view()[j]).0 != key@,
                spec_loc_put(self@, key@, value@) == self.entries.deep_view().subrange(0, i as int)
                    + spec_loc_put(
                    self.entries.deep_view().subrange(i as int, n as int),
                    key@,
                    value@,
                ),
            decreases n - i,
        {
            let ghost suffix = self.entries.deep_view().subrange(i as int, n as int);
            proof {
                assert(suffix[0] == self.entries.deep_view()[i as int]);
                assert(suffix.drop_first() =~= self.entries.deep_view().subrange(
                    i as int + 1,
                    n as int,
                ));
            }
            if str_eq(self.entries[i].0.as_str(), key.as_str()) {
                let ghost before = self.entries.deep_view();
                self.entries.set(i, (key, value));
                proof {
                    assert(self.entries.deep_view() =~= before.update(
                        i as int,
                        (key@, value@),
                    ));
                    assert(before.subrange(0, i as int) + (seq![(key@, value@)]
                        + before.subrange(i as int + 1, n as int)) =~= self.entries.deep_view());
                    assert(final(self)@ == spec_loc_put(old(self)@, key@, value@));
                }
                return ;
            }
            proof {
                assert(spec_loc_put(suffix, key@, value@) == seq![suffix[0]] + spec_loc_put(
                    suffix.drop_first(),
                    key@,
                    value@,
                ));
                assert(self.entries.deep_view().subrange(0, i as int) + seq![
                    self.entries.deep_view()[i as int],
                ] =~= self.entries.deep_view().subrange(0, i as int + 1));
                assert(self.entries.deep_view().subrange(0, i as int) + (seq![suffix[0]]
                    + spec_loc_put(suffix.drop_first(), key@, value@))
                    =~= self.entries.deep_view().subrange(0, i as int + 1) + spec_loc_put(
                    self.entries.deep_view().subrange(i as int + 1, n as int),
                    key@,
                    value@,
                ));
            }
            i = i + 1;
        }
        let ghost before = self.entries.deep_view();
        self.entries.push((key, value));
        proof {
            assert(before.subrange(i as int, n as int) =~= Seq::<(Seq<char>, Seq<char>)>::empty());
            assert(self.entries.deep_view() =~= before.push((key@, value@)));
            assert(before.subrange(0, i as int) =~= before);
            assert(before + seq![(key@, value@)] =~= before.push((key@, value@)));
        }
    }

    /// Looks up a fully qualified key.
    pub fn get(&self, key: &str) -> (r: Option<&String>)
        ensures
            r.deep_view() == spec_loc_lookup(self@, key@),
    {
        let r = self.get_from(0, key);
        proof {
            assert(self.entries.deep_view().subrange(0, self.entries@.len() as int)
                =~= self.entries.deep_view());
        }
        r
    }

    fn get_from(&self, i: usize, key: &str) -> (r: Option<&String>)
        requires
            i <= self.entries@.len(),
        ensures
            r.deep_view() == spec_loc_lookup(
                self.entries.deep_view().subrange(i as int, self.entries@.len() as int),
                key@,
            ),
        decreases self.entries@.len() - i,
    {
        let ghost suffix = self.entries.deep_view().subrange(i as int, self.entries@.len() as int);
        if i == self.entries.len() {
            None
        } else {
            proof {
                assert(suffix[0] == self.entries.deep_view()[i as int]);
                assert(suffix.drop_first() =~= self.entries.deep_view().subrange(
                    i as int + 1,
                    self.entries@.len() as int,
                ));
            }
            if str_eq(self.entries[i].0.as_str(), key) {
                Some(&self.entries[i].1)
            } else {
                self.get_from(i + 1, key)
            }
        }
    }

    /// The display name recorded for an item identifier, if any.
    pub fn item_name_opt(&self, id: &str) -> (r: Option<&String>)
        ensures
            r.deep_view() == spec_loc_lookup(self@, "entityname."@ + id@),
    {
        let mut key = String::from_str("entityname.");
        key.append(id);
        self.get(key.as_str())
    }

    /// The description recorded for an item identifier; an error when
    /// the table has none.
    pub fn item_description(&self, id: &str) -> (r: Result<&String, Error>)
        ensures
            match r {
                Ok(s) => spec_loc_lookup(self@, "entitydescription."@ + id@) == Some(s@),
                Err(e) => spec_loc_lookup(self@, "entitydescription."@ + id@) is None && e
                    == Error::MissingDescription,
            },
    {
        let mut key = String::from_str("entitydescription.");
        key.append(id);
        match self.get(key.as_str()) {
            Some(s) => Ok(s),
            None => Err(Error::MissingDescription),
        }
    }
}

/// The database aggregate every renderer consumes: the version token,
/// the ordered item catalog and the localization table.
#[derive(Debug)]
pub struct Db {
    pub version: String,
    pub items: Vec<Item>,
    pub localization: Localization,
}

pub struct SpecDb {
    pub version: Seq<char>,
    pub items: Seq<SpecItem>,
    pub localization: Seq<(Seq<char>, Seq<char>)>,
}

impl View for Db {
    type V = SpecDb;

    open spec fn view(&self) -> SpecDb {
        SpecDb {
            version: self.version@,
            items: self.items.deep_view(),
            localization: self.localization@,
        }
    }
}

impl DeepView for Db {
    type V = SpecDb;

    open spec fn deep_view(&self) -> SpecDb {
        self.view()
    }
}

} // verus!
