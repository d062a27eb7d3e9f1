//! Declarative catalogs: a structured (but unvalidated) configuration
//! tree, the alias table built from its goods, and the merchant entries
//! read from its locations.
//!
//! The tree mirrors what a configuration document carries; reading a
//! field that is missing or has the wrong shape is a structural error,
//! never a silent default.

use vstd::prelude::*;

use crate::error::CatalogIssue;
use crate::error::Error;
use crate::error::ErrorSpec;
use crate::text::str_eq;

verus! {

/// One node of a configuration document: a text scalar, a list, a
/// mapping with text keys, or any other shape (a number, a boolean, a
/// null), which the catalogs reject wherever they need text or lists.
#[derive(Debug)]
pub enum ConfigNode {
    Text(String),
    List(Vec<ConfigNode>),
    Mapping(Vec<(String, ConfigNode)>),
    Other,
}

/// The first value under `key` in a list of mapping pairs.
pub open spec fn spec_lookup_pairs(pairs: Seq<(String, ConfigNode)>, key: Seq<char>) -> Option<
    ConfigNode,
>
    decreases pairs.len(),
{
    if pairs.len() == 0 {
        None
    } else if pairs[0].0@ == key {
        Some(pairs[0].1)
    } else {
        spec_lookup_pairs(pairs.skip(1), key)
    }
}

/// The value under `key`: nothing when the node is no mapping or the
/// key is absent.
pub open spec fn spec_lookup(node: ConfigNode, key: Seq<char>) -> Option<ConfigNode> {
    match node {
        ConfigNode::Mapping(pairs) => spec_lookup_pairs(pairs@, key),
        _ => None,
    }
}

impl ConfigNode {
    /// Looks a key up in a mapping node.
    pub fn lookup<'a>(&'a self, key: &str) -> (r: Option<&'a ConfigNode>)
        ensures
            match r {
                Some(n) => spec_lookup(*self, key@) == Some(*n),
                None => spec_lookup(*self, key@) is None,
            },
    {
        match self {
            ConfigNode::Mapping(pairs) => {
                proof {
                    assert(*self == ConfigNode::Mapping(*pairs));
                    assert(spec_lookup(ConfigNode::Mapping(*pairs), key@) == spec_lookup_pairs(
                        pairs@,
                        key@,
                    ));
                    assert(spec_lookup(*self, key@) == spec_lookup_pairs(pairs@, key@));
                }
                let n = pairs.len();
                let mut i: usize = 0;
                proof {
                    assert(pairs@.skip(0) =~= pairs@);
                }
                while i < n
                    invariant
                        i <= n,
                        n == pairs@.len(),
                        spec_lookup(*self, key@) == spec_lookup_pairs(pairs@, key@),
                        spec_lookup_pairs(pairs@, key@) == spec_lookup_pairs(
                            pairs@.skip(i as int),
                            key@,
                        ),
                    decreases n - i,
                {
                    proof {
                        let cur = pairs@.skip(i as int);
                        assert(cur[0] == pairs@[i as int]);
                        assert(cur.skip(1) =~= pairs@.skip(i + 1));
                    }
                    if str_eq(pairs[i].0.as_str(), key) {
                        proof {
                            assert(spec_lookup_pairs(pairs@.skip(i as int), key@) == Some(
                                pairs@[i as int].1,
                            ));
                            assert(spec_lookup(*self, key@) == spec_lookup_pairs(pairs@, key@));
                        }
                        return Some(&pairs[i].1);
                    }
                    i = i + 1;
                }
                proof {
                    assert(pairs@.skip(n as int).len() == 0);
                }
                None
            },
            _ => None,
        }
    }
}

/// The map a list of alias entries stands for: later entries win.
pub open spec fn map_of(entries: Seq<(String, String)>) -> Map<Seq<char>, Seq<char>>
    decreases entries.len(),
{
    if entries.len() == 0 {
        Map::empty()
    } else {
        map_of(entries.drop_last()).insert(entries.last().0@, entries.last().1@)
    }
}

/// The canonical name of `name`: its table entry, or `name` itself when
/// the table has none.
pub open spec fn spec_normalize(m: Map<Seq<char>, Seq<char>>, name: Seq<char>) -> Seq<char> {
    if m.contains_key(name) {
        m[name]
    } else {
        name
    }
}

/// Inserts one good's alternate names, each mapped to the canonical
/// name; a non-text entry is a structural error.
pub open spec fn spec_alt_insert(
    m: Map<Seq<char>, Seq<char>>,
    alts: Seq<ConfigNode>,
    canon: Seq<char>,
) -> Result<Map<Seq<char>, Seq<char>>, CatalogIssue>
    decreases alts.len(),
{
    if alts.len() == 0 {
        Ok(m)
    } else {
        match alts[0] {
            ConfigNode::Text(a) => spec_alt_insert(m.insert(a@, canon), alts.skip(1), canon),
            _ => Err(CatalogIssue::AltNameNotString),
        }
    }
}

/// Inserts one good of the catalog: it must carry a text name; absent
/// alternate names contribute nothing, non-list ones are an error.
pub open spec fn spec_ware_insert(m: Map<Seq<char>, Seq<char>>, w: ConfigNode) -> Result<
    Map<Seq<char>, Seq<char>>,
    CatalogIssue,
> {
    match spec_lookup(w, "name"@) {
        Some(ConfigNode::Text(canon)) => match spec_lookup(w, "alt-names"@) {
            None => Ok(m),
            Some(ConfigNode::List(alts)) => spec_alt_insert(m, alts@, canon@),
            Some(_) => Err(CatalogIssue::AltNamesNotList),
        },
        _ => Err(CatalogIssue::GoodMissingName),
    }
}

/// Folds the goods of a catalog into an alias map, in declaration
/// order; the first structurally bad good aborts the build.
pub open spec fn spec_build_goods(wares: Seq<ConfigNode>, m: Map<Seq<char>, Seq<char>>) -> Result<
    Map<Seq<char>, Seq<char>>,
    CatalogIssue,
>
    decreases wares.len(),
{
    if wares.len() == 0 {
        Ok(m)
    } else {
        match spec_ware_insert(m, wares[0]) {
            Err(e) => Err(e),
            Ok(m2) => spec_build_goods(wares.skip(1), m2),
        }
    }
}

/// The alias table a catalog document stands for.
pub open spec fn spec_build_table(root: ConfigNode) -> Result<
    Map<Seq<char>, Seq<char>>,
    CatalogIssue,
> {
    match spec_lookup(root, "waren"@) {
        Some(ConfigNode::List(wares)) => spec_build_goods(wares@, Map::empty()),
        _ => Err(CatalogIssue::GoodsNotList),
    }
}

/// The alias table: alternate spelling to canonical spelling, built once
/// from a goods catalog, read-only afterwards. A missed lookup falls
/// back to the name itself.
#[derive(Debug, Clone)]
pub struct AltNamesMapping {
    /// Alias entries in insertion order; a later entry wins.
    pub entries: Vec<(String, String)>,
}

impl View for AltNamesMapping {
    type V = Map<Seq<char>, Seq<char>>;

    open spec fn view(&self) -> Map<Seq<char>, Seq<char>> {
        map_of(self.entries@)
    }
}

impl Default for AltNamesMapping {
    /// The empty table: every name is its own canonical name.
    fn default() -> (r: Self)
        ensures
            r@ == Map::<Seq<char>, Seq<char>>::empty(),
    {
        AltNamesMapping { entries: Vec::new() }
    }
}

impl AltNamesMapping {
    /// Builds the table from a goods catalog, as [`spec_build_table`]
    /// reads it: every alternate name maps to its good's canonical name,
    /// later goods win on duplicate alternate names.
    pub fn new(root: &ConfigNode) -> (r: Result<AltNamesMapping, Error>)
        ensures
            match (r, spec_build_table(*root)) {
                (Ok(t), Ok(m)) => t@ == m,
                (Err(e), Err(issue)) => e@ == ErrorSpec::CatalogFormat(issue),
                _ => false,
            },
    {
        let wares = match root.lookup("waren") {
            Some(node) => match node {
                ConfigNode::List(wares) => wares,
                _ => {
                    return Err(Error::CatalogFormat(CatalogIssue::GoodsNotList));
                },
            },
            None => {
                return Err(Error::CatalogFormat(CatalogIssue::GoodsNotList));
            },
        };
        proof {
            assert(spec_lookup(*root, "waren"@) == Some(ConfigNode::List(*wares)));
            assert(spec_build_table(*root) == spec_build_goods(wares@, Map::empty()));
        }
        let mut entries: Vec<(String, String)> = Vec::new();
        let n = wares.len();
        let mut i: usize = 0;
        proof {
            assert(wares@.skip(0) =~= wares@);
        }
        while i < n
            invariant
                i <= n,
                n == wares@.len(),
                spec_build_table(*root) == spec_build_goods(
                    wares@.skip(i as int),
                    map_of(entries@),
                ),
            decreases n - i,
        {
            proof {
                let cur = wares@.skip(i as int);
                assert(cur[0] == wares@[i as int]);
                assert(cur.skip(1) =~= wares@.skip(i + 1));
            }
            let ware = &wares[i];
            let canon = match ware.lookup("name") {
                Some(node) => match node {
                    ConfigNode::Text(canon) => canon,
                    _ => {
                        return Err(Error::CatalogFormat(CatalogIssue::GoodMissingName));
                    },
                },
                None => {
                    return Err(Error::CatalogFormat(CatalogIssue::GoodMissingName));
                },
            };
            proof {
                assert(spec_lookup(wares@[i as int], "name"@) == Some(ConfigNode::Text(*canon)));
            }
            match ware.lookup("alt-names") {
                None => {
                    proof {
                        assert(spec_ware_insert(map_of(entries@), wares@[i as int]) == Ok::<
                            Map<Seq<char>, Seq<char>>,
                            CatalogIssue,
                        >(map_of(entries@)));
                    }
                },
                Some(node) => match node {
                    ConfigNode::List(alts) => {
                        proof {
                            assert(spec_lookup(wares@[i as int], "alt-names"@) == Some(
                                ConfigNode::List(*alts),
                            ));
                            assert(spec_ware_insert(map_of(entries@), wares@[i as int])
                                == spec_alt_insert(map_of(entries@), alts@, canon@));
                        }
                        let an = alts.len();
                        let mut j: usize = 0;
                        proof {
                            assert(alts@.skip(0) =~= alts@);
                        }
                        while j < an
                            invariant
                                j <= an,
                                an == alts@.len(),
                                spec_build_table(*root) == match spec_alt_insert(
                                    map_of(entries@),
                                    alts@.skip(j as int),
                                    canon@,
                                ) {
                                    Ok(m2) => spec_build_goods(wares@.skip(i + 1), m2),
                                    Err(e) => Err(e),
                                },
                            decreases an - j,
                        {
                            proof {
                                let cur = alts@.skip(j as int);
                                assert(cur[0] == alts@[j as int]);
                                assert(cur.skip(1) =~= alts@.skip(j + 1));
                            }
                            match &alts[j] {
                                ConfigNode::Text(a) => {
                                    let ghost pre = entries@;
                                    entries.push((a.clone(), canon.clone()));
                                    proof {
                                        assert(entries@.drop_last() =~= pre);
                                        assert(map_of(entries@) == map_of(pre).insert(a@, canon@));
                                    }
                                },
                                _ => {
                                    return Err(Error::CatalogFormat(CatalogIssue::AltNameNotString),
                                    );
                                },
                            }
                            j = j + 1;
                        }
                        proof {
                            assert(alts@.skip(an as int).len() == 0);
                        }
                    },
                    _ => {
                        return Err(Error::CatalogFormat(CatalogIssue::AltNamesNotList));
                    },
                },
            }
            i = i + 1;
        }
        proof {
            assert(wares@.skip(n as int).len() == 0);
        }
        Ok(AltNamesMapping { entries })
    }

    /// The canonical name of `name`: the table entry if one exists, the
    /// name itself otherwise, exactly as [`spec_normalize`] says.
    pub fn normalize_name(&self, name: &str) -> (r: String)
        ensures
            r@ == spec_normalize(self@, name@),
    {
        let n = self.entries.len();
        let mut i = n;
        proof {
            assert(self.entries@.take(n as int) =~= self.entries@);
        }
        while i > 0
            invariant
                i <= n,
                n == self.entries@.len(),
                spec_normalize(self@, name@) == spec_normalize(
                    map_of(self.entries@.take(i as int)),
                    name@,
                ),
            decreases i,
        {
            proof {
                let cur = self.entries@.take(i as int);
                assert(cur.drop_last() =~= self.entries@.take(i - 1));
                assert(cur.last() == self.entries@[i - 1]);
            }
            if str_eq(self.entries[i - 1].0.as_str(), name) {
                return self.entries[i - 1].1.clone();
            }
            i = i - 1;
        }
        proof {
            assert(self.entries@.take(0).len() == 0);
        }
        name.to_owned()
    }
}

/// The mathematical value of a merchant entry.
pub struct MerchantSpec {
    /// The merchant's name.
    pub name: Seq<char>,
    /// The canonical names of the goods it carries, in declared order.
    pub goods: Seq<Seq<char>>,
}

/// One merchant of the catalog: a name and the goods it carries.
#[derive(Debug, Clone)]
pub struct MerchantConfig {
    /// The merchant's name.
    pub name: String,
    /// The canonical names of the goods it carries, in declared order.
    pub goods: Vec<String>,
}

/// The values of a list of good names.
pub open spec fn names_view(v: Seq<String>) -> Seq<Seq<char>> {
    v.map_values(|s: String| s@)
}

impl View for MerchantConfig {
    type V = MerchantSpec;

    open spec fn view(&self) -> MerchantSpec {
        MerchantSpec { name: self.name@, goods: names_view(self.goods@) }
    }
}

/// The values of a list of merchant entries.
pub open spec fn merchants_view(v: Seq<MerchantConfig>) -> Seq<MerchantSpec> {
    v.map_values(|m: MerchantConfig| m@)
}

/// The good names of a merchant's goods list; a non-text entry is a
/// structural error.
pub open spec fn spec_goods_names(gs: Seq<ConfigNode>) -> Result<Seq<Seq<char>>, CatalogIssue>
    decreases gs.len(),
{
    if gs.len() == 0 {
        Ok(Seq::empty())
    } else {
        match gs[0] {
            ConfigNode::Text(s) => match spec_goods_names(gs.skip(1)) {
                Ok(tail) => Ok(seq![s@] + tail),
                Err(e) => Err(e),
            },
            _ => Err(CatalogIssue::MerchantGoodNotString),
        }
    }
}

/// One merchant entry: it must carry a text name and a list of goods.
pub open spec fn spec_merchant_of(node: ConfigNode) -> Result<MerchantSpec, CatalogIssue> {
    match spec_lookup(node, "name"@) {
        Some(ConfigNode::Text(nm)) => match spec_lookup(node, "waren"@) {
            Some(ConfigNode::List(gs)) => match spec_goods_names(gs@) {
                Ok(names) => Ok(MerchantSpec { name: nm@, goods: names }),
                Err(e) => Err(e),
            },
            _ => Err(CatalogIssue::MerchantGoodsNotList),
        },
        _ => Err(CatalogIssue::MerchantMissingName),
    }
}

/// The merchant entries of a list, in declaration order; the first bad
/// entry aborts the reading.
pub open spec fn spec_merchant_list(ls: Seq<ConfigNode>) -> Result<Seq<MerchantSpec>, CatalogIssue>
    decreases ls.len(),
{
    if ls.len() == 0 {
        Ok(Seq::empty())
    } else {
        match spec_merchant_of(ls[0]) {
            Err(e) => Err(e),
            Ok(m) => match spec_merchant_list(ls.skip(1)) {
                Ok(tail) => Ok(seq![m] + tail),
                Err(e) => Err(e),
            },
        }
    }
}

/// The merchants a catalog document declares.
pub open spec fn spec_merchants(root: ConfigNode) -> Result<Seq<MerchantSpec>, CatalogIssue> {
    match spec_lookup(root, "locations"@) {
        Some(ConfigNode::List(ls)) => spec_merchant_list(ls@),
        _ => Err(CatalogIssue::MerchantsNotList),
    }
}

/// The configuration document: the catalogs are read out of this tree.
#[derive(Debug)]
pub struct Config {
    /// The document's root node.
    pub config: ConfigNode,
}

impl Config {
    /// Wraps a configuration document.
    pub fn new(config: ConfigNode) -> (r: Self)
        ensures
            r.config == config,
    {
        Self { config }
    }

    /// Builds the alias table of the document's goods catalog.
    pub fn make_alt_names_mapping(&self) -> (r: Result<AltNamesMapping, Error>)
        ensures
            match (r, spec_build_table(self.config)) {
                (Ok(t), Ok(m)) => t@ == m,
                (Err(e), Err(issue)) => e@ == ErrorSpec::CatalogFormat(issue),
                _ => false,
            },
    {
        AltNamesMapping::new(&self.config)
    }

    /// Reads the document's merchants, in declaration order, exactly as
    /// [`spec_merchants`] does.
    pub fn merchant_iter(&self) -> (r: Result<Vec<MerchantConfig>, Error>)
        ensures
            match (r, spec_merchants(self.config)) {
                (Ok(v), Ok(ms)) => merchants_view(v@) == ms,
                (Err(e), Err(issue)) => e@ == ErrorSpec::CatalogFormat(issue),
                _ => false,
            },
    {
        let ls = match self.config.lookup("locations") {
            Some(node) => match node {
                ConfigNode::List(ls) => ls,
                _ => {
                    return Err(Error::CatalogFormat(CatalogIssue::MerchantsNotList));
                },
            },
            None => {
                return Err(Error::CatalogFormat(CatalogIssue::MerchantsNotList));
            },
        };
        proof {
            assert(spec_lookup(self.config, "locations"@) == Some(ConfigNode::List(*ls)));
            assert(spec_merchants(self.config) == spec_merchant_list(ls@));
        }
        let mut out: Vec<MerchantConfig> = Vec::new();
        let n = ls.len();
        let mut i: usize = 0;
        proof {
            assert(ls@.skip(0) =~= ls@);
        }
        while i < n
            invariant
                i <= n,
                n == ls@.len(),
                spec_merchants(self.config) == match spec_merchant_list(ls@.skip(i as int)) {
                    Ok(tail) => Ok::<Seq<MerchantSpec>, CatalogIssue>(merchants_view(out@) + tail),
                    Err(e) => Err::<Seq<MerchantSpec>, CatalogIssue>(e),
                },
            decreases n - i,
        {
            proof {
                let cur = ls@.skip(i as int);
                assert(cur[0] == ls@[i as int]);
                assert(cur.skip(1) =~= ls@.skip(i + 1));
            }
            let ghost pre = out@;
            match MerchantConfig::from_node(&ls[i]) {
                Ok(m) => {
                    out.push(m);
                    proof {
                        assert(merchants_view(out@) =~= merchants_view(pre) + seq![m@]);
                        if spec_merchant_list(ls@.skip(i + 1)) is Ok {
                            let tail = spec_merchant_list(ls@.skip(i + 1))->Ok_0;
                            assert(merchants_view(pre) + (seq![m@] + tail) =~= merchants_view(out@)
                                + tail);
                        }
                    }
                },
                Err(e) => {
                    return Err(e);
                },
            }
            i = i + 1;
        }
        proof {
            assert(ls@.skip(n as int).len() == 0);
            assert(merchants_view(out@) + Seq::<MerchantSpec>::empty() =~= merchants_view(out@));
        }
        Ok(out)
    }
}

impl MerchantConfig {
    /// Reads one merchant entry, exactly as [`spec_merchant_of`] does:
    /// a text name, and a list of text good names, both required.
    pub fn from_node(node: &ConfigNode) -> (r: Result<MerchantConfig, Error>)
        ensures
            match (r, spec_merchant_of(*node)) {
                (Ok(m), Ok(ms)) => m@ == ms,
                (Err(e), Err(issue)) => e@ == ErrorSpec::CatalogFormat(issue),
                _ => false,
            },
    {
        let name = match node.lookup("name") {
            Some(n) => match n {
                ConfigNode::Text(nm) => nm.clone(),
                _ => {
                    return Err(Error::CatalogFormat(CatalogIssue::MerchantMissingName));
                },
            },
            None => {
                return Err(Error::CatalogFormat(CatalogIssue::MerchantMissingName));
            },
        };
        proof {
            assert(spec_lookup(*node, "name"@) matches Some(nm2) && nm2 is Text && nm2->Text_0@
                == name@);
        }
        let gs = match node.lookup("waren") {
            Some(n) => match n {
                ConfigNode::List(gs) => gs,
                _ => {
                    return Err(Error::CatalogFormat(CatalogIssue::MerchantGoodsNotList));
                },
            },
            None => {
                return Err(Error::CatalogFormat(CatalogIssue::MerchantGoodsNotList));
            },
        };
        proof {
            assert(spec_lookup(*node, "waren"@) == Some(ConfigNode::List(*gs)));
            assert(spec_merchant_of(*node) == match spec_goods_names(gs@) {
                Ok(names) => Ok::<MerchantSpec, CatalogIssue>(
                    MerchantSpec { name: name@, goods: names },
                ),
                Err(e) => Err::<MerchantSpec, CatalogIssue>(e),
            });
        }
        let mut goods: Vec<String> = Vec::new();
        let n = gs.len();
        let mut i: usize = 0;
        proof {
            assert(gs@.skip(0) =~= gs@);
        }
        while i < n
            invariant
                i <= n,
                n == gs@.len(),
                spec_merchant_of(*node) == match spec_goods_names(gs@) {
                    Ok(names) => Ok::<MerchantSpec, CatalogIssue>(
                        MerchantSpec { name: name@, goods: names },
                    ),
                    Err(e) => Err::<MerchantSpec, CatalogIssue>(e),
                },
                spec_goods_names(gs@) == match spec_goods_names(gs@.skip(i as int)) {
                    Ok(tail) => Ok::<Seq<Seq<char>>, CatalogIssue>(names_view(goods@) + tail),
                    Err(e) => Err::<Seq<Seq<char>>, CatalogIssue>(e),
                },
            decreases n - i,
        {
            proof {
                let cur = gs@.skip(i as int);
                assert(cur[0] == gs@[i as int]);
                assert(cur.skip(1) =~= gs@.skip(i + 1));
            }
            let ghost pre = goods@;
            match &gs[i] {
                ConfigNode::Text(s) => {
                    goods.push(s.clone());
                    proof {
                        assert(names_view(goods@) =~= names_view(pre) + seq![s@]);
                        if spec_goods_names(gs@.skip(i + 1)) is Ok {
                            let tail = spec_goods_names(gs@.skip(i + 1))->Ok_0;
                            assert(names_view(pre) + (seq![s@] + tail) =~= names_view(goods@)
                                + tail);
                        }
                    }
                },
                bad => {
                    proof {
                        assert(!(gs@[i as int] is Text));
                        assert(spec_goods_names(gs@.skip(i as int)) == Err::<
                            Seq<Seq<char>>,
                            CatalogIssue,
                        >(CatalogIssue::MerchantGoodNotString));
                        assert(spec_goods_names(gs@) == Err::<Seq<Seq<char>>, CatalogIssue>(
                            CatalogIssue::MerchantGoodNotString,
                        ));
                    }
                    return Err(Error::CatalogFormat(CatalogIssue::MerchantGoodNotString));
                },
            }
            i = i + 1;
        }
        proof {
            assert(gs@.skip(n as int).len() == 0);
            assert(names_view(goods@) + Seq::<Seq<char>>::empty() =~= names_view(goods@));
        }
        Ok(MerchantConfig { name, goods })
    }
}

} // verus!
