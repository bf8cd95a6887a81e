use crate::parse::{parse, parse_command, Command, CommandModel, Operation};
use crate::text::same_text;
use crate::tile::TileType;
use vstd::prelude::*;

verus! {

/// The settings a layout is built from.
#[derive(Clone, Copy, Debug, PartialEq, Eq, Structural)]
pub struct Config {
    pub inner: u32,
    pub outer: u32,
    pub ratio: u32,
    pub main: u32,
    pub tile: TileType,
    pub pad: bool,
    pub monocle: bool,
    pub smart_h: Option<u32>,
    pub smart_v: Option<u32>,
}

/// One field of a configuration with its value.
#[derive(Clone, Copy, Debug, PartialEq, Eq, Structural)]
pub enum ConfigValue {
    Inner(u32),
    Outer(u32),
    Ratio(u32),
    Main(u32),
    Tile(TileType),
    Pad(bool),
    Monocle(bool),
    SmartH(Option<u32>),
    SmartV(Option<u32>),
}

/// An override as the resolver sees it: the scope it applies to and the field it sets.
pub struct EntryModel {
    pub output: Option<Seq<char>>,
    pub tags: Option<u32>,
    pub value: ConfigValue,
}

/// One override: `None` in `output` or `tags` matches any value of that axis.
pub struct ConfigEntry {
    pub output: Option<String>,
    pub tags: Option<u32>,
    pub value: ConfigValue,
}

impl View for ConfigEntry {
    type V = EntryModel;

    open spec fn view(&self) -> EntryModel {
        EntryModel {
            output: match self.output {
                Some(s) => Some(s@),
                None => None,
            },
            tags: self.tags,
            value: self.value,
        }
    }
}

/// The configuration that holds where nothing was overridden.
pub open spec fn default_config() -> Config {
    Config {
        inner: 6,
        outer: 6,
        ratio: 55,
        main: 1,
        tile: TileType::Left,
        pad: false,
        monocle: false,
        smart_h: None,
        smart_v: None,
    }
}

/// `c` with the field that `v` names set to `v`'s value.
pub open spec fn set_field(c: Config, v: ConfigValue) -> Config {
    match v {
        ConfigValue::Inner(x) => Config { inner: x, ..c },
        ConfigValue::Outer(x) => Config { outer: x, ..c },
        ConfigValue::Ratio(x) => Config { ratio: x, ..c },
        ConfigValue::Main(x) => Config { main: x, ..c },
        ConfigValue::Tile(x) => Config { tile: x, ..c },
        ConfigValue::Pad(x) => Config { pad: x, ..c },
        ConfigValue::Monocle(x) => Config { monocle: x, ..c },
        ConfigValue::SmartH(x) => Config { smart_h: x, ..c },
        ConfigValue::SmartV(x) => Config { smart_v: x, ..c },
    }
}

/// Whether an override applies to a query for `tags` on `output`.
pub open spec fn in_scope(e: EntryModel, tags: Option<u32>, output: Option<Seq<char>>) -> bool {
    (e.output is None || e.output == output) && (e.tags is None || e.tags == tags)
}

/// The configuration for `tags` on `output`: the defaults, overwritten in order by every
/// override in scope, so that the last one for a field wins.
pub open spec fn resolve(es: Seq<EntryModel>, tags: Option<u32>, output: Option<Seq<char>>) -> Config
    decreases es.len(),
{
    if es.len() == 0 {
        default_config()
    } else {
        let c = resolve(es.drop_last(), tags, output);
        if in_scope(es.last(), tags, output) {
            set_field(c, es.last().value)
        } else {
            c
        }
    }
}

/// `es` without the entries equal to `e`.
pub open spec fn without(es: Seq<EntryModel>, e: EntryModel) -> Seq<EntryModel>
    decreases es.len(),
{
    if es.len() == 0 {
        es
    } else {
        let rest = without(es.drop_last(), e);
        if es.last() == e {
            rest
        } else {
            rest.push(es.last())
        }
    }
}

/// `es` with `e` appended, after its exact duplicates are taken out.
pub open spec fn added(es: Seq<EntryModel>, e: EntryModel) -> Seq<EntryModel> {
    without(es, e).push(e)
}

pub open spec fn opt_text(o: Option<&str>) -> Option<Seq<char>> {
    match o {
        Some(s) => Some(s@),
        None => None,
    }
}

pub open spec fn add_if(
    es: Seq<EntryModel>,
    differs: bool,
    tags: Option<u32>,
    output: Option<Seq<char>>,
    v: ConfigValue,
) -> Seq<EntryModel> {
    if differs {
        added(es, EntryModel { output, tags, value: v })
    } else {
        es
    }
}

/// The overrides after `desired` is applied for `tags` on `output`: one entry for each field
/// that differs from what `es` resolves to there, in field order.
pub open spec fn applied(
    es: Seq<EntryModel>,
    tags: Option<u32>,
    output: Option<Seq<char>>,
    desired: Config,
) -> Seq<EntryModel> {
    let cur = resolve(es, tags, output);
    let es1 = add_if(es, cur.inner != desired.inner, tags, output, ConfigValue::Inner(desired.inner));
    let es2 = add_if(es1, cur.outer != desired.outer, tags, output, ConfigValue::Outer(desired.outer));
    let es3 = add_if(es2, cur.ratio != desired.ratio, tags, output, ConfigValue::Ratio(desired.ratio));
    let es4 = add_if(es3, cur.main != desired.main, tags, output, ConfigValue::Main(desired.main));
    let es5 = add_if(es4, cur.tile != desired.tile, tags, output, ConfigValue::Tile(desired.tile));
    let es6 = add_if(es5, cur.pad != desired.pad, tags, output, ConfigValue::Pad(desired.pad));
    let es7 = add_if(
        es6,
        cur.monocle != desired.monocle,
        tags,
        output,
        ConfigValue::Monocle(desired.monocle),
    );
    let es8 = add_if(
        es7,
        cur.smart_h != desired.smart_h,
        tags,
        output,
        ConfigValue::SmartH(desired.smart_h),
    );
    add_if(es8, cur.smart_v != desired.smart_v, tags, output, ConfigValue::SmartV(desired.smart_v))
}

/// Taking out the duplicates of `e` changes nothing but the field that `e` sets.
proof fn lemma_resolve_without(
    es: Seq<EntryModel>,
    e: EntryModel,
    tags: Option<u32>,
    output: Option<Seq<char>>,
)
    ensures
        set_field(resolve(without(es, e), tags, output), e.value) == set_field(
            resolve(es, tags, output),
            e.value,
        ),
    decreases es.len(),
{
    if es.len() > 0 {
        lemma_resolve_without(es.drop_last(), e, tags, output);
        let rest = without(es.drop_last(), e);
        if es.last() != e {
            assert(without(es, e).drop_last() =~= rest);
        }
    }
}

/// Appending an override for the very scope queried sets its field and nothing else.
proof fn lemma_resolve_added(
    es: Seq<EntryModel>,
    e: EntryModel,
    tags: Option<u32>,
    output: Option<Seq<char>>,
)
    requires
        e.tags == tags,
        e.output == output,
    ensures
        resolve(added(es, e), tags, output) == set_field(resolve(es, tags, output), e.value),
{
    lemma_resolve_without(es, e, tags, output);
    assert(added(es, e).drop_last() =~= without(es, e));
}

/// Applying a configuration and then resolving the same scope gives that configuration back.
pub proof fn lemma_apply_then_build(
    es: Seq<EntryModel>,
    tags: Option<u32>,
    output: Option<Seq<char>>,
    desired: Config,
)
    ensures
        resolve(applied(es, tags, output, desired), tags, output) == desired,
{
    let cur = resolve(es, tags, output);
    let d = desired;
    let es1 = add_if(es, cur.inner != d.inner, tags, output, ConfigValue::Inner(d.inner));
    let es2 = add_if(es1, cur.outer != d.outer, tags, output, ConfigValue::Outer(d.outer));
    let es3 = add_if(es2, cur.ratio != d.ratio, tags, output, ConfigValue::Ratio(d.ratio));
    let es4 = add_if(es3, cur.main != d.main, tags, output, ConfigValue::Main(d.main));
    let es5 = add_if(es4, cur.tile != d.tile, tags, output, ConfigValue::Tile(d.tile));
    let es6 = add_if(es5, cur.pad != d.pad, tags, output, ConfigValue::Pad(d.pad));
    let es7 = add_if(es6, cur.monocle != d.monocle, tags, output, ConfigValue::Monocle(d.monocle));
    let es8 = add_if(es7, cur.smart_h != d.smart_h, tags, output, ConfigValue::SmartH(d.smart_h));
    let es9 = add_if(es8, cur.smart_v != d.smart_v, tags, output, ConfigValue::SmartV(d.smart_v));
    lemma_resolve_added(es, EntryModel { output, tags, value: ConfigValue::Inner(d.inner) }, tags, output);
    lemma_resolve_added(es1, EntryModel { output, tags, value: ConfigValue::Outer(d.outer) }, tags, output);
    lemma_resolve_added(es2, EntryModel { output, tags, value: ConfigValue::Ratio(d.ratio) }, tags, output);
    lemma_resolve_added(es3, EntryModel { output, tags, value: ConfigValue::Main(d.main) }, tags, output);
    lemma_resolve_added(es4, EntryModel { output, tags, value: ConfigValue::Tile(d.tile) }, tags, output);
    lemma_resolve_added(es5, EntryModel { output, tags, value: ConfigValue::Pad(d.pad) }, tags, output);
    lemma_resolve_added(
        es6,
        EntryModel { output, tags, value: ConfigValue::Monocle(d.monocle) },
        tags,
        output,
    );
    lemma_resolve_added(
        es7,
        EntryModel { output, tags, value: ConfigValue::SmartH(d.smart_h) },
        tags,
        output,
    );
    lemma_resolve_added(
        es8,
        EntryModel { output, tags, value: ConfigValue::SmartV(d.smart_v) },
        tags,
        output,
    );
    assert(applied(es, tags, output, desired) == es9);
}

/// Applying the configuration a scope already resolves to adds no override.
pub proof fn lemma_apply_resolved_keeps_overrides(
    es: Seq<EntryModel>,
    tags: Option<u32>,
    output: Option<Seq<char>>,
)
    ensures
        applied(es, tags, output, resolve(es, tags, output)) == es,
{
}

/// The overrides of every configuration query.
pub struct ConfigStorage {
    entries: Vec<ConfigEntry>,
}

impl View for ConfigStorage {
    type V = Seq<EntryModel>;

    closed spec fn view(&self) -> Seq<EntryModel> {
        self.entries@.map_values(|e: ConfigEntry| e@)
    }
}

/// The largest gap, in pixels.
pub const GAP_MAX: u32 = 1024;

/// The smallest and largest share of the width, in percent, that the primary region takes.
pub const RATIO_MIN: u32 = 10;

pub const RATIO_MAX: u32 = 90;

/// The smallest and largest number of primary windows.
pub const MAIN_MIN: u32 = 1;

pub const MAIN_MAX: u32 = 16;

/// `existing + value`, kept within `min..=max`.
pub open spec fn clamped_add(existing: int, value: int, min: int, max: int) -> int {
    clamped(existing + value, min, max)
}

/// `existing - value`, kept within `min..=max`.
pub open spec fn clamped_sub(existing: int, value: int, min: int, max: int) -> int {
    clamped(existing - value, min, max)
}

/// `value` brought into `min..=max`.
pub open spec fn clamped(value: int, min: int, max: int) -> int {
    if value < min {
        min
    } else if value > max {
        max
    } else {
        value
    }
}

/// The smart gap a change starts from: the one set, or else the sum of the two gaps.
pub open spec fn smart_base(smart: Option<u32>, c: Config) -> int {
    match smart {
        Some(v) => v as int,
        None => c.inner + c.outer,
    }
}

impl Config {
    pub fn new() -> (r: Config)
        ensures
            r == default_config(),
    {
        Config {
            inner: 6,
            outer: 6,
            ratio: 55,
            main: 1,
            tile: TileType::Left,
            pad: false,
            monocle: false,
            smart_h: None,
            smart_v: None,
        }
    }
}

impl Config {
    /// `raw` brought into `min..=max`.
    fn clamp_to(raw: i64, min: u32, max: u32) -> (r: u32)
        requires
            min <= max,
        ensures
            r == clamped(raw as int, min as int, max as int),
    {
        if raw < min as i64 {
            min
        } else if raw > max as i64 {
            max
        } else {
            raw as u32
        }
    }

    fn ranged_inc(existing: u64, value: u32, min: u32, max: u32) -> (r: u32)
        requires
            existing <= 2 * u32::MAX as u64,
            min <= max,
        ensures
            r == clamped_add(existing as int, value as int, min as int, max as int),
    {
        Config::clamp_to(existing as i64 + value as i64, min, max)
    }

    fn ranged_dec(existing: u64, value: u32, min: u32, max: u32) -> (r: u32)
        requires
            existing <= 2 * u32::MAX as u64,
            min <= max,
        ensures
            r == clamped_sub(existing as int, value as int, min as int, max as int),
    {
        Config::clamp_to(existing as i64 - value as i64, min, max)
    }

    fn ranged_set(value: u32, min: u32, max: u32) -> (r: u32)
        requires
            min <= max,
        ensures
            r == clamped(value as int, min as int, max as int),
    {
        Config::clamp_to(value as i64, min, max)
    }

    fn smart_start(smart: Option<u32>, inner: u32, outer: u32) -> (r: u64)
        ensures
            r == match smart {
                Some(v) => v as int,
                None => inner + outer,
            },
            r <= 2 * u32::MAX as u64,
    {
        match smart {
            Some(v) => v as u64,
            None => inner as u64 + outer as u64,
        }
    }

    pub fn inc_inner(&mut self, value: u32)
        ensures
            *final(self) == (Config {
                inner: clamped_add(old(self).inner as int, value as int, 0, GAP_MAX as int) as u32,
                ..*old(self)
            }),
    {
        self.inner = Config::ranged_inc(self.inner as u64, value, 0, GAP_MAX);
    }

    pub fn inc_outer(&mut self, value: u32)
        ensures
            *final(self) == (Config {
                outer: clamped_add(old(self).outer as int, value as int, 0, GAP_MAX as int) as u32,
                ..*old(self)
            }),
    {
        self.outer = Config::ranged_inc(self.outer as u64, value, 0, GAP_MAX);
    }

    pub fn inc_smart_h(&mut self, value: u32)
        ensures
            *final(self) == (Config {
                smart_h: Some(
                    clamped_add(smart_base(old(self).smart_h, *old(self)), value as int, 0, GAP_MAX as int)
                        as u32,
                ),
                ..*old(self)
            }),
    {
        let start = Config::smart_start(self.smart_h, self.inner, self.outer);
        self.smart_h = Some(Config::ranged_inc(start, value, 0, GAP_MAX));
    }

    pub fn inc_smart_v(&mut self, value: u32)
        ensures
            *final(self) == (Config {
                smart_v: Some(
                    clamped_add(smart_base(old(self).smart_v, *old(self)), value as int, 0, GAP_MAX as int)
                        as u32,
                ),
                ..*old(self)
            }),
    {
        let start = Config::smart_start(self.smart_v, self.inner, self.outer);
        self.smart_v = Some(Config::ranged_inc(start, value, 0, GAP_MAX));
    }

    pub fn inc_ratio(&mut self, value: u32)
        ensures
            *final(self) == (Config {
                ratio: clamped_add(old(self).ratio as int, value as int, RATIO_MIN as int, RATIO_MAX as int) as u32,
                ..*old(self)
            }),
    {
        self.ratio = Config::ranged_inc(self.ratio as u64, value, RATIO_MIN, RATIO_MAX);
    }

    pub fn inc_main(&mut self, value: u32)
        ensures
            *final(self) == (Config {
                main: clamped_add(old(self).main as int, value as int, MAIN_MIN as int, MAIN_MAX as int) as u32,
                ..*old(self)
            }),
    {
        self.main = Config::ranged_inc(self.main as u64, value, MAIN_MIN, MAIN_MAX);
    }

    pub fn dec_inner(&mut self, value: u32)
        ensures
            *final(self) == (Config {
                inner: clamped_sub(old(self).inner as int, value as int, 0, GAP_MAX as int) as u32,
                ..*old(self)
            }),
    {
        self.inner = Config::ranged_dec(self.inner as u64, value, 0, GAP_MAX);
    }

    pub fn dec_outer(&mut self, value: u32)
        ensures
            *final(self) == (Config {
                outer: clamped_sub(old(self).outer as int, value as int, 0, GAP_MAX as int) as u32,
                ..*old(self)
            }),
    {
        self.outer = Config::ranged_dec(self.outer as u64, value, 0, GAP_MAX);
    }

    pub fn dec_smart_h(&mut self, value: u32)
        ensures
            *final(self) == (Config {
                smart_h: Some(
                    clamped_sub(smart_base(old(self).smart_h, *old(self)), value as int, 0, GAP_MAX as int)
                        as u32,
                ),
                ..*old(self)
            }),
    {
        let start = Config::smart_start(self.smart_h, self.inner, self.outer);
        self.smart_h = Some(Config::ranged_dec(start, value, 0, GAP_MAX));
    }

    pub fn dec_smart_v(&mut self, value: u32)
        ensures
            *final(self) == (Config {
                smart_v: Some(
                    clamped_sub(smart_base(old(self).smart_v, *old(self)), value as int, 0, GAP_MAX as int)
                        as u32,
                ),
                ..*old(self)
            }),
    {
        let start = Config::smart_start(self.smart_v, self.inner, self.outer);
        self.smart_v = Some(Config::ranged_dec(start, value, 0, GAP_MAX));
    }

    pub fn dec_ratio(&mut self, value: u32)
        ensures
            *final(self) == (Config {
                ratio: clamped_sub(old(self).ratio as int, value as int, RATIO_MIN as int, RATIO_MAX as int) as u32,
                ..*old(self)
            }),
    {
        self.ratio = Config::ranged_dec(self.ratio as u64, value, RATIO_MIN, RATIO_MAX);
    }

    pub fn dec_main(&mut self, value: u32)
        ensures
            *final(self) == (Config {
                main: clamped_sub(old(self).main as int, value as int, MAIN_MIN as int, MAIN_MAX as int) as u32,
                ..*old(self)
            }),
    {
        self.main = Config::ranged_dec(self.main as u64, value, MAIN_MIN, MAIN_MAX);
    }

    pub fn set_inner(&mut self, value: u32)
        ensures
            *final(self) == (Config { inner: clamped(value as int, 0, GAP_MAX as int) as u32, ..*old(self) }),
    {
        self.inner = Config::ranged_set(value, 0, GAP_MAX);
    }

    pub fn set_outer(&mut self, value: u32)
        ensures
            *final(self) == (Config { outer: clamped(value as int, 0, GAP_MAX as int) as u32, ..*old(self) }),
    {
        self.outer = Config::ranged_set(value, 0, GAP_MAX);
    }

    pub fn set_smart_h(&mut self, value: u32)
        ensures
            *final(self) == (Config { smart_h: Some(clamped(value as int, 0, GAP_MAX as int) as u32), ..*old(self) }),
    {
        self.smart_h = Some(Config::ranged_set(value, 0, GAP_MAX));
    }

    pub fn set_smart_v(&mut self, value: u32)
        ensures
            *final(self) == (Config { smart_v: Some(clamped(value as int, 0, GAP_MAX as int) as u32), ..*old(self) }),
    {
        self.smart_v = Some(Config::ranged_set(value, 0, GAP_MAX));
    }

    pub fn set_ratio(&mut self, value: u32)
        ensures
            *final(self) == (Config { ratio: clamped(value as int, RATIO_MIN as int, RATIO_MAX as int) as u32, ..*old(self) }),
    {
        self.ratio = Config::ranged_set(value, RATIO_MIN, RATIO_MAX);
    }

    pub fn set_main(&mut self, value: u32)
        ensures
            *final(self) == (Config { main: clamped(value as int, MAIN_MIN as int, MAIN_MAX as int) as u32, ..*old(self) }),
    {
        self.main = Config::ranged_set(value, MAIN_MIN, MAIN_MAX);
    }
}

fn entry_eq(a: &ConfigEntry, b: &ConfigEntry) -> (r: bool)
    ensures
        r == (a@ == b@),
{
    let same_output = match (&a.output, &b.output) {
        (Some(x), Some(y)) => same_text(x.as_str(), y.as_str()),
        (None, None) => true,
        _ => false,
    };
    same_output && a.tags == b.tags && a.value == b.value
}

fn in_scope_exec(e: &ConfigEntry, tags: Option<u32>, output: Option<&str>) -> (r: bool)
    ensures
        r == in_scope(e@, tags, opt_text(output)),
{
    let output_matches = match (&e.output, output) {
        (None, _) => true,
        (Some(x), Some(o)) => same_text(x.as_str(), o),
        (Some(_), None) => false,
    };
    let tags_match = match e.tags {
        None => true,
        Some(t) => tags == Some(t),
    };
    output_matches && tags_match
}

fn set_config_field(c: &mut Config, v: ConfigValue)
    ensures
        *final(c) == set_field(*old(c), v),
{
    match v {
        ConfigValue::Inner(x) => c.inner = x,
        ConfigValue::Outer(x) => c.outer = x,
        ConfigValue::Ratio(x) => c.ratio = x,
        ConfigValue::Main(x) => c.main = x,
        ConfigValue::Tile(x) => c.tile = x,
        ConfigValue::Pad(x) => c.pad = x,
        ConfigValue::Monocle(x) => c.monocle = x,
        ConfigValue::SmartH(x) => c.smart_h = x,
        ConfigValue::SmartV(x) => c.smart_v = x,
    }
}

impl ConfigStorage {
    pub fn new() -> (r: ConfigStorage)
        ensures
            r@ == Seq::<EntryModel>::empty(),
    {
        ConfigStorage { entries: Vec::new() }
    }

    /// How many overrides are stored.
    pub fn len(&self) -> (r: usize)
        ensures
            r == self@.len(),
    {
        self.entries.len()
    }

    /// The configuration in effect for `tags` on `output`.
    pub fn build(&self, tags: Option<u32>, output: Option<&str>) -> (r: Config)
        ensures
            r == resolve(self@, tags, opt_text(output)),
    {
        let mut config = Config::new();
        let mut i: usize = 0;
        while i < self.entries.len()
            invariant
                i <= self.entries@.len(),
                config == resolve(self@.take(i as int), tags, opt_text(output)),
            decreases self.entries@.len() - i,
        {
            let e = &self.entries[i];
            assert(self@.take(i + 1).drop_last() =~= self@.take(i as int));
            if in_scope_exec(e, tags, output) {
                set_config_field(&mut config, e.value);
            }
            i = i + 1;
        }
        assert(self@.take(i as int) =~= self@);
        config
    }

    fn add(&mut self, entry: ConfigEntry)
        ensures
            final(self)@ == added(old(self)@, entry@),
    {
        let ghost old_view = self@;
        let mut kept: Vec<ConfigEntry> = Vec::new();
        let mut old_entries = Vec::new();
        std::mem::swap(&mut old_entries, &mut self.entries);
        let n = old_entries.len();
        let mut i: usize = 0;
        while i < n
            invariant
                n == old_entries@.len(),
                i <= n,
                old_entries@.map_values(|e: ConfigEntry| e@) == old_view,
                kept@.map_values(|e: ConfigEntry| e@) == without(old_view.take(i as int), entry@),
            decreases n - i,
        {
            assert(old_view.take(i + 1).drop_last() =~= old_view.take(i as int));
            assert(old_view.take(i + 1).last() == old_entries@[i as int]@);
            let e = &old_entries[i];
            if !entry_eq(e, &entry) {
                let copy = ConfigEntry { output: clone_output(&e.output), tags: e.tags, value: e.value };
                kept.push(copy);
                assert(kept@.map_values(|e: ConfigEntry| e@) =~= without(old_view.take(i as int), entry@).push(old_entries@[i as int]@));
            }
            i = i + 1;
        }
        assert(old_view.take(n as int) =~= old_view);
        kept.push(entry);
        self.entries = kept;
        assert(self@ =~= added(old_view, entry@));
    }
}

impl ConfigStorage {
    fn make_entry(tags: Option<u32>, output: Option<&str>, value: ConfigValue) -> (r: ConfigEntry)
        ensures
            r@ == (EntryModel { output: opt_text(output), tags, value }),
    {
        let output = match output {
            Some(o) => Some(o.to_owned()),
            None => None,
        };
        ConfigEntry { output, tags, value }
    }

    /// Records `config` as what `tags` on `output` should resolve to, with one new override for
    /// each field that differs from what it resolves to now.
    pub fn apply(&mut self, tags: Option<u32>, output: Option<&str>, config: &Config)
        ensures
            final(self)@ == applied(old(self)@, tags, opt_text(output), *config),
            resolve(final(self)@, tags, opt_text(output)) == *config,
    {
        proof {
            lemma_apply_then_build(self@, tags, opt_text(output), *config);
        }
        let existing = self.build(tags, output);
        if existing.inner != config.inner {
            self.add(ConfigStorage::make_entry(tags, output, ConfigValue::Inner(config.inner)));
        }
        if existing.outer != config.outer {
            self.add(ConfigStorage::make_entry(tags, output, ConfigValue::Outer(config.outer)));
        }
        if existing.ratio != config.ratio {
            self.add(ConfigStorage::make_entry(tags, output, ConfigValue::Ratio(config.ratio)));
        }
        if existing.main != config.main {
            self.add(ConfigStorage::make_entry(tags, output, ConfigValue::Main(config.main)));
        }
        if existing.tile != config.tile {
            self.add(ConfigStorage::make_entry(tags, output, ConfigValue::Tile(config.tile)));
        }
        if existing.pad != config.pad {
            self.add(ConfigStorage::make_entry(tags, output, ConfigValue::Pad(config.pad)));
        }
        if existing.monocle != config.monocle {
            self.add(ConfigStorage::make_entry(tags, output, ConfigValue::Monocle(config.monocle)));
        }
        if existing.smart_h != config.smart_h {
            self.add(ConfigStorage::make_entry(tags, output, ConfigValue::SmartH(config.smart_h)));
        }
        if existing.smart_v != config.smart_v {
            self.add(ConfigStorage::make_entry(tags, output, ConfigValue::SmartV(config.smart_v)));
        }
    }
}

fn clone_output(o: &Option<String>) -> (r: Option<String>)
    ensures
        match (r, *o) {
            (Some(a), Some(b)) => a@ == b@,
            (None, None) => true,
            _ => false,
        },
{
    match o {
        Some(s) => Some(s.clone()),
        None => None,
    }
}

/// The orientation on the same axis, on the other side.
pub open spec fn flipped(t: TileType) -> TileType {
    match t {
        TileType::Left => TileType::Right,
        TileType::Top => TileType::Bottom,
        TileType::Right => TileType::Left,
        TileType::Bottom => TileType::Top,
    }
}

/// Flipping toggles between the two sides of one axis: twice is no change, and it never moves
/// the primary region to the other axis.
pub proof fn lemma_flip_toggles(t: TileType)
    ensures
        flipped(flipped(t)) == t,
        (t == TileType::Left || t == TileType::Right) <==> (flipped(t) == TileType::Left || flipped(t)
            == TileType::Right),
        flipped(TileType::Left) == TileType::Right,
        flipped(TileType::Top) == TileType::Bottom,
{
}

/// A numeric field after `operation` with `value`, kept within `min..=max`.
pub open spec fn adjusted(operation: Operation, current: int, value: int, min: int, max: int) -> int {
    match operation {
        Operation::Add => clamped_add(current, value, min, max),
        Operation::Subtract => clamped_sub(current, value, min, max),
        Operation::Assign => clamped(value, min, max),
    }
}

/// Every numeric field of `c` lies within its range.
pub open spec fn in_ranges(c: Config) -> bool {
    &&& c.inner <= GAP_MAX
    &&& c.outer <= GAP_MAX
    &&& RATIO_MIN <= c.ratio <= RATIO_MAX
    &&& MAIN_MIN <= c.main <= MAIN_MAX
    &&& (c.smart_h matches Some(v) ==> v <= GAP_MAX)
    &&& (c.smart_v matches Some(v) ==> v <= GAP_MAX)
}

/// A command keeps every field of a configuration within its range.
pub proof fn lemma_command_keeps_ranges(c: Config, command: CommandModel)
    requires
        in_ranges(c),
    ensures
        command_effect(c, command) matches Some(d) ==> in_ranges(d),
{
}

/// What `command` does to `c`; `None` for a command that names nothing known.
pub open spec fn command_effect(c: Config, command: CommandModel) -> Option<Config> {
    match command {
        CommandModel::Single(a) => if a == "flip"@ {
            Some(Config { tile: flipped(c.tile), ..c })
        } else if a == "pad"@ {
            Some(Config { pad: !c.pad, ..c })
        } else if a == "monocle"@ {
            Some(Config { monocle: !c.monocle, ..c })
        } else {
            None
        },
        CommandModel::Textual { namespace, value } => if namespace == "main-location"@ {
            if value == "left"@ {
                Some(Config { tile: TileType::Left, ..c })
            } else if value == "top"@ {
                Some(Config { tile: TileType::Top, ..c })
            } else if value == "right"@ {
                Some(Config { tile: TileType::Right, ..c })
            } else if value == "bottom"@ {
                Some(Config { tile: TileType::Bottom, ..c })
            } else {
                None
            }
        } else if namespace == "pad"@ && (value == "on"@ || value == "off"@) {
            Some(Config { pad: value == "on"@, ..c })
        } else if namespace == "monocle"@ && (value == "on"@ || value == "off"@) {
            Some(Config { monocle: value == "on"@, ..c })
        } else if namespace == "smart-padding"@ && value == "off"@ {
            Some(Config { smart_h: None, smart_v: None, ..c })
        } else {
            None
        },
        CommandModel::Numeric { namespace, operation, value } => if namespace == "view-padding"@ {
            Some(Config { inner: adjusted(operation, c.inner as int, value as int, 0, GAP_MAX as int) as u32, ..c })
        } else if namespace == "outer-padding"@ {
            Some(Config { outer: adjusted(operation, c.outer as int, value as int, 0, GAP_MAX as int) as u32, ..c })
        } else if namespace == "smart-padding"@ {
            Some(
                Config {
                    smart_h: Some(adjusted(operation, smart_base(c.smart_h, c), value as int, 0, GAP_MAX as int) as u32),
                    smart_v: Some(adjusted(operation, smart_base(c.smart_v, c), value as int, 0, GAP_MAX as int) as u32),
                    ..c
                },
            )
        } else if namespace == "smart-padding-h"@ {
            Some(
                Config {
                    smart_h: Some(adjusted(operation, smart_base(c.smart_h, c), value as int, 0, GAP_MAX as int) as u32),
                    ..c
                },
            )
        } else if namespace == "smart-padding-v"@ {
            Some(
                Config {
                    smart_v: Some(adjusted(operation, smart_base(c.smart_v, c), value as int, 0, GAP_MAX as int) as u32),
                    ..c
                },
            )
        } else if namespace == "main-ratio"@ {
            Some(Config { ratio: adjusted(operation, c.ratio as int, value as int, RATIO_MIN as int, RATIO_MAX as int) as u32, ..c })
        } else if namespace == "main-count"@ {
            Some(Config { main: adjusted(operation, c.main as int, value as int, MAIN_MIN as int, MAIN_MAX as int) as u32, ..c })
        } else {
            None
        },
        CommandModel::Invalid => None,
    }
}

/// Carries out `command` on `config`; false, with `config` unchanged, for a command that
/// names nothing known.
pub fn execute(config: &mut Config, command: &Command) -> (r: bool)
    ensures
        match command_effect(*old(config), command@) {
            Some(c) => r && *final(config) == c,
            None => !r && *final(config) == *old(config),
        },
{
    match command {
        Command::Single(a) => {
            if same_text(a, "flip") {
                config.tile = match config.tile {
                    TileType::Left => TileType::Right,
                    TileType::Top => TileType::Bottom,
                    TileType::Right => TileType::Left,
                    TileType::Bottom => TileType::Top,
                };
            } else if same_text(a, "pad") {
                config.pad = !config.pad;
            } else if same_text(a, "monocle") {
                config.monocle = !config.monocle;
            } else {
                return false;
            }
            true
        },
        Command::Textual { namespace, value } => {
            let on = same_text(value, "on");
            let off = same_text(value, "off");
            if same_text(namespace, "main-location") {
                if same_text(value, "left") {
                    config.tile = TileType::Left;
                } else if same_text(value, "top") {
                    config.tile = TileType::Top;
                } else if same_text(value, "right") {
                    config.tile = TileType::Right;
                } else if same_text(value, "bottom") {
                    config.tile = TileType::Bottom;
                } else {
                    return false;
                }
            } else if same_text(namespace, "pad") && (on || off) {
                config.pad = on;
            } else if same_text(namespace, "monocle") && (on || off) {
                config.monocle = on;
            } else if same_text(namespace, "smart-padding") && off {
                config.smart_h = None;
                config.smart_v = None;
            } else {
                return false;
            }
            true
        },
        Command::Numeric { namespace, operation, value } => {
            let value = *value;
            if same_text(namespace, "view-padding") {
                match operation {
                    Operation::Add => config.inc_inner(value),
                    Operation::Subtract => config.dec_inner(value),
                    Operation::Assign => config.set_inner(value),
                }
            } else if same_text(namespace, "outer-padding") {
                match operation {
                    Operation::Add => config.inc_outer(value),
                    Operation::Subtract => config.dec_outer(value),
                    Operation::Assign => config.set_outer(value),
                }
            } else if same_text(namespace, "smart-padding") {
                match operation {
                    Operation::Add => {
                        config.inc_smart_h(value);
                        config.inc_smart_v(value);
                    },
                    Operation::Subtract => {
                        config.dec_smart_h(value);
                        config.dec_smart_v(value);
                    },
                    Operation::Assign => {
                        config.set_smart_h(value);
                        config.set_smart_v(value);
                    },
                }
            } else if same_text(namespace, "smart-padding-h") {
                match operation {
                    Operation::Add => config.inc_smart_h(value),
                    Operation::Subtract => config.dec_smart_h(value),
                    Operation::Assign => config.set_smart_h(value),
                }
            } else if same_text(namespace, "smart-padding-v") {
                match operation {
                    Operation::Add => config.inc_smart_v(value),
                    Operation::Subtract => config.dec_smart_v(value),
                    Operation::Assign => config.set_smart_v(value),
                }
            } else if same_text(namespace, "main-ratio") {
                match operation {
                    Operation::Add => config.inc_ratio(value),
                    Operation::Subtract => config.dec_ratio(value),
                    Operation::Assign => config.set_ratio(value),
                }
            } else if same_text(namespace, "main-count") {
                match operation {
                    Operation::Add => config.inc_main(value),
                    Operation::Subtract => config.dec_main(value),
                    Operation::Assign => config.set_main(value),
                }
            } else {
                return false;
            }
            true
        },
        Command::Invalid => false,
    }
}

impl ConfigStorage {
    /// Reads `cmd` and applies what it does to the configuration of `tags` on `output`;
    /// false, with nothing changed, for a command that names nothing known.
    pub fn apply_cmd(&mut self, tags: Option<u32>, output: Option<&str>, cmd: &str) -> (r: bool)
        ensures
            match command_effect(resolve(old(self)@, tags, opt_text(output)), parse(cmd@)) {
                Some(c) => r && final(self)@ == applied(old(self)@, tags, opt_text(output), c),
                None => !r && final(self)@ == old(self)@,
            },
    {
        let mut config = self.build(tags, output);
        let command = parse_command(cmd);
        let recognized = execute(&mut config, &command);
        proof {
            lemma_apply_resolved_keeps_overrides(self@, tags, opt_text(output));
        }
        self.apply(tags, output, &config);
        recognized
    }
}

} // verus!
