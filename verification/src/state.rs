//! The pipeline as a reusable state: a loaded configuration and the
//! last processed result, for callers that feed text in and read the
//! rendered list back.

use vstd::arithmetic::mul::lemma_mul_inequality;
use vstd::prelude::*;

use crate::aggregate::default_amount;
use crate::aggregate::items_view;
use crate::aggregate::spec_render_item;
use crate::aggregate::ShoppingListItem;
use crate::aggregate::group_total;
use crate::aggregate::spec_agg;
use crate::aggregate::spec_render_sorted;
use crate::aggregate::ItemSpec;
use crate::aggregate::SortedZettel;
use crate::amount::magnitude;
use crate::amount::Amount;
use crate::catalog::spec_build_table;
use crate::catalog::spec_merchants;
use crate::catalog::AltNamesMapping;
use crate::catalog::Config;
use crate::catalog::ConfigNode;
use crate::error::Error;
use crate::error::ErrorSpec;
use crate::line::spec_from_text;
use crate::line::LineSpec;
use crate::line::Zettel;
use crate::partition::spec_partition;
use crate::partition::spec_render_list;
use crate::partition::GroupSpec;
use crate::partition::ShoppingList;

verus! {

/// What the last processed input produced.
#[derive(Debug)]
pub enum ShoppingListResult {
    /// No input has been processed yet.
    Nothing,
    /// An aggregated list: no configuration was loaded.
    Sorted(SortedZettel),
    /// A merchant-partitioned list: a configuration was loaded.
    ShoppingList(ShoppingList),
}

/// The mathematical value of a result.
pub enum ResultSpec {
    Nothing,
    Sorted(Seq<ItemSpec>),
    Partitioned(Seq<GroupSpec>),
}

impl View for ShoppingListResult {
    type V = ResultSpec;

    open spec fn view(&self) -> ResultSpec {
        match self {
            ShoppingListResult::Nothing => ResultSpec::Nothing,
            ShoppingListResult::Sorted(s) => ResultSpec::Sorted(s@),
            ShoppingListResult::ShoppingList(sl) => ResultSpec::Partitioned(sl@),
        }
    }
}

impl Default for ShoppingListResult {
    /// Before any input: nothing.
    fn default() -> (r: Self)
        ensures
            r@ == ResultSpec::Nothing,
    {
        ShoppingListResult::Nothing
    }
}

/// The total magnitude of all entries, absent amounts counting one.
pub open spec fn total_mag(entries: Seq<LineSpec>) -> int
    decreases entries.len(),
{
    if entries.len() == 0 {
        0
    } else {
        total_mag(entries.drop_last()) + magnitude(default_amount(entries.last().amount))
    }
}

/// Every group's total is bounded by the total over all entries.
pub proof fn lemma_group_le_total(
    entries: Seq<LineSpec>,
    m: Map<Seq<char>, Seq<char>>,
    k: Seq<char>,
)
    ensures
        group_total(entries, m, k) <= total_mag(entries),
    decreases entries.len(),
{
    if entries.len() > 0 {
        lemma_group_le_total(entries.drop_last(), m, k);
    }
}

/// The total is bounded by the entry count times the largest magnitude.
proof fn lemma_total_mag_le(entries: Seq<LineSpec>)
    ensures
        0 <= total_mag(entries) <= entries.len() * usize::MAX,
    decreases entries.len(),
{
    if entries.len() > 0 {
        lemma_total_mag_le(entries.drop_last());
        assert((entries.len() - 1) * usize::MAX + usize::MAX == entries.len() * usize::MAX)
            by (nonlinear_arith);
    }
}

/// What processing one input against an optional configuration yields:
/// the alias table is built, the text is parsed and aggregated, and,
/// with a configuration loaded, partitioned across its merchants. A
/// total magnitude beyond the machine's integer range is refused.
pub open spec fn spec_process(config: Option<ConfigNode>, input: Seq<char>) -> Result<
    ResultSpec,
    ErrorSpec,
> {
    let table = match config {
        Some(root) => spec_build_table(root),
        None => Ok(Map::empty()),
    };
    match table {
        Err(issue) => Err(ErrorSpec::CatalogFormat(issue)),
        Ok(m) => match spec_from_text(input) {
            Err(e) => Err(e),
            Ok(entries) => {
                if total_mag(entries) > usize::MAX {
                    Err(ErrorSpec::Overflow)
                } else {
                    match spec_agg(entries, m) {
                        Err(k) => Err(ErrorSpec::UnitMismatch(k)),
                        Ok(items) => match config {
                            None => Ok(ResultSpec::Sorted(items)),
                            Some(root) => match spec_merchants(root) {
                                Err(issue) => Err(ErrorSpec::CatalogFormat(issue)),
                                Ok(ms) => Ok(ResultSpec::Partitioned(spec_partition(items, ms))),
                            },
                        },
                    }
                }
            },
        },
    }
}

/// The document of a loaded configuration.
pub open spec fn config_node_of(c: Option<Config>) -> Option<ConfigNode> {
    match c {
        Some(cfg) => Some(cfg.config),
        None => None,
    }
}

/// A loaded configuration and the last result.
#[derive(Debug)]
pub struct ShoppingListState {
    /// The configuration, if one was loaded.
    pub config: Option<Config>,
    /// The last processed result.
    pub result: ShoppingListResult,
}

impl Default for ShoppingListState {
    /// No configuration, no result.
    fn default() -> (r: Self)
        ensures
            r.config is None,
            r.result@ == ResultSpec::Nothing,
    {
        ShoppingListState { config: None, result: ShoppingListResult::Nothing }
    }
}

/// The magnitude of an amount, as a number.
fn amount_magnitude(a: &Amount) -> (r: usize)
    ensures
        r == magnitude(*a),
{
    match a {
        Amount::Count(n) => *n,
        Amount::Grams(n) => *n,
        Amount::Millis(n) => *n,
    }
}

impl ShoppingListState {
    /// A fresh state: no configuration, no result.
    pub fn new() -> (r: Self)
        ensures
            r.config is None,
            r.result@ == ResultSpec::Nothing,
    {
        Self { config: None, result: ShoppingListResult::Nothing }
    }

    /// Loads a configuration; the last result stays.
    pub fn load_config(&mut self, config: Config)
        ensures
            final(self).config == Some(config),
            final(self).result == old(self).result,
    {
        self.config = Some(config);
    }

    /// Runs the whole pipeline on one input text, exactly as
    /// [`spec_process`] says: on success the result replaces the last
    /// one, on any error the state stays unchanged and the error is
    /// returned.
    pub fn process_input(&mut self, input: &str) -> (r: Result<(), Error>)
        ensures
            match (r, spec_process(config_node_of(old(self).config), input@)) {
                (Ok(()), Ok(res)) => final(self).result@ == res && final(self).config == old(
                    self,
                ).config,
                (Err(e), Err(ev)) => e@ == ev && *final(self) == *old(self),
                _ => false,
            },
    {
        let table = match &self.config {
            Some(cfg) => match cfg.make_alt_names_mapping() {
                Ok(t) => t,
                Err(e) => {
                    return Err(e);
                },
            },
            None => AltNamesMapping::default(),
        };
        let ghost m = table@;
        let zettel = match Zettel::from_text(input) {
            Ok(z) => z,
            Err(e) => {
                return Err(e);
            },
        };
        let ghost entries = zettel@;
        // Guard the machine's integer range before any addition.
        let n = zettel.zettel.len();
        let mut acc: u128 = 0;
        let mut i: usize = 0;
        proof {
            assert(entries.take(0) =~= Seq::<LineSpec>::empty());
        }
        while i < n
            invariant
                i <= n,
                n == zettel.zettel@.len(),
                entries == zettel@,
                acc == total_mag(entries.take(i as int)),
            decreases n - i,
        {
            let mag = match &zettel.zettel[i].amount {
                Some(a) => amount_magnitude(a),
                None => 1,
            };
            proof {
                assert(entries[i as int] == zettel.zettel@[i as int]@);
                assert(entries.take(i + 1).drop_last() =~= entries.take(i as int));
                assert(entries.take(i + 1).last() == entries[i as int]);
                lemma_total_mag_le(entries.take(i + 1));
                lemma_mul_inequality(
                    entries.take(i + 1).len() as int,
                    usize::MAX as int,
                    usize::MAX as int,
                );
                assert((usize::MAX as int) * (usize::MAX as int) < u128::MAX as int);
            }
            acc = acc + mag as u128;
            i = i + 1;
        }
        proof {
            assert(entries.take(n as int) =~= entries);
        }
        if acc > usize::MAX as u128 {
            return Err(Error::Overflow);
        }
        proof {
            assert forall|k: Seq<char>| group_total(entries, m, k) <= usize::MAX by {
                lemma_group_le_total(entries, m, k);
            }
        }
        let sorted = match SortedZettel::from_zettel(zettel, &table) {
            Ok(s) => s,
            Err(e) => {
                return Err(e);
            },
        };
        let new_result = match &self.config {
            Some(cfg) => match ShoppingList::new(sorted, cfg) {
                Ok(sl) => ShoppingListResult::ShoppingList(sl),
                Err(e) => {
                    return Err(e);
                },
            },
            None => ShoppingListResult::Sorted(sorted),
        };
        self.result = new_result;
        Ok(())
    }

    /// The last result as plain text: the aggregated or partitioned
    /// rendering, or the word `Nothing` before any input.
    pub fn get_plaintext_result(&self) -> (r: String)
        ensures
            match self.result@ {
                ResultSpec::Nothing => r@ == "Nothing"@,
                ResultSpec::Sorted(items) => r@ == spec_render_sorted(items),
                ResultSpec::Partitioned(gs) => r@ == spec_render_list(gs),
            },
    {
        match &self.result {
            ShoppingListResult::Nothing => "Nothing".to_owned(),
            ShoppingListResult::Sorted(s) => s.render(),
            ShoppingListResult::ShoppingList(sl) => sl.render(),
        }
    }
}

/// The rendered texts of a list of items.
pub open spec fn spec_rendered_items(items: Seq<ItemSpec>) -> Seq<Seq<char>> {
    items.map_values(|it: ItemSpec| spec_render_item(it))
}

/// The values of a structured result: each group as its name and its
/// items' texts.
pub open spec fn pairs_view(v: Seq<(String, Vec<String>)>) -> Seq<(Seq<char>, Seq<Seq<char>>)> {
    v.map_values(|p: (String, Vec<String>)| (p.0@, crate::catalog::names_view(p.1@)))
}

/// The structured form of a result: one (name, item texts) pair per
/// group; a plain aggregated list is one group under a fixed heading.
pub open spec fn spec_list_result(res: ResultSpec) -> Seq<(Seq<char>, Seq<Seq<char>>)> {
    match res {
        ResultSpec::Nothing => Seq::empty(),
        ResultSpec::Sorted(items) => seq![("Einkaufszettel"@, spec_rendered_items(items))],
        ResultSpec::Partitioned(gs) => gs.map_values(
            |g: GroupSpec| (g.name, spec_rendered_items(g.items)),
        ),
    }
}

/// The texts of a group's items, in order.
fn render_items(items: &Vec<ShoppingListItem>) -> (r: Vec<String>)
    ensures
        crate::catalog::names_view(r@) == spec_rendered_items(items_view(items@)),
{
    let ghost itemsv = items_view(items@);
    let mut out: Vec<String> = Vec::new();
    let n = items.len();
    let mut i: usize = 0;
    proof {
        assert(crate::catalog::names_view(out@) =~= spec_rendered_items(itemsv.take(0)));
    }
    while i < n
        invariant
            i <= n,
            n == items@.len(),
            itemsv == items_view(items@),
            crate::catalog::names_view(out@) == spec_rendered_items(itemsv.take(i as int)),
        decreases n - i,
    {
        let line = items[i].render();
        let ghost pre = out@;
        out.push(line);
        proof {
            assert(crate::catalog::names_view(out@) =~= crate::catalog::names_view(pre).push(
                spec_render_item(itemsv[i as int]),
            ));
            assert(spec_rendered_items(itemsv.take(i + 1)) =~= spec_rendered_items(
                itemsv.take(i as int),
            ).push(spec_render_item(itemsv[i as int])));
        }
        i = i + 1;
    }
    proof {
        assert(itemsv.take(n as int) =~= itemsv);
    }
    out
}

impl ShoppingListState {
    /// The last result as structured data: each group's name with its
    /// items' rendered texts, for a caller that presents the list
    /// itself.
    pub fn get_list_result(&self) -> (r: Vec<(String, Vec<String>)>)
        ensures
            pairs_view(r@) == spec_list_result(self.result@),
    {
        match &self.result {
            ShoppingListResult::Nothing => {
                let out: Vec<(String, Vec<String>)> = Vec::new();
                proof {
                    assert(pairs_view(out@) =~= Seq::<(Seq<char>, Seq<Seq<char>>)>::empty());
                }
                out
            },
            ShoppingListResult::Sorted(s) => {
                let mut out: Vec<(String, Vec<String>)> = Vec::new();
                let heading: &str = "Einkaufszettel";
                out.push((heading.to_owned(), render_items(s.items())));
                proof {
                    assert(pairs_view(out@) =~= spec_list_result(self.result@));
                }
                out
            },
            ShoppingListResult::ShoppingList(sl) => {
                let groups = sl.get_list();
                let ghost gsv = crate::partition::groups_view(groups@);
                let mut out: Vec<(String, Vec<String>)> = Vec::new();
                let n = groups.len();
                let mut i: usize = 0;
                proof {
                    assert(pairs_view(out@) =~= gsv.take(0).map_values(
                        |g: GroupSpec| (g.name, spec_rendered_items(g.items)),
                    ));
                }
                while i < n
                    invariant
                        i <= n,
                        n == groups@.len(),
                        gsv == crate::partition::groups_view(groups@),
                        pairs_view(out@) == gsv.take(i as int).map_values(
                            |g: GroupSpec| (g.name, spec_rendered_items(g.items)),
                        ),
                    decreases n - i,
                {
                    let texts = render_items(groups[i].items());
                    let ghost tv = crate::catalog::names_view(texts@);
                    let ghost pre = out@;
                    out.push((groups[i].name.clone(), texts));
                    proof {
                        assert(tv == spec_rendered_items(gsv[i as int].items));
                        assert(pairs_view(out@) =~= pairs_view(pre).push(
                            (gsv[i as int].name, spec_rendered_items(gsv[i as int].items)),
                        ));
                        assert(gsv.take(i + 1).map_values(
                            |g: GroupSpec| (g.name, spec_rendered_items(g.items)),
                        ) =~= gsv.take(i as int).map_values(
                            |g: GroupSpec| (g.name, spec_rendered_items(g.items)),
                        ).push((gsv[i as int].name, spec_rendered_items(gsv[i as int].items))));
                    }
                    i = i + 1;
                }
                proof {
                    assert(gsv.take(n as int) =~= gsv);
                }
                out
            },
        }
    }
}

} // verus!
