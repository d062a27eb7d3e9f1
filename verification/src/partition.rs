//! The merchant partitioner: aggregated items are claimed by merchants
//! in catalog order — first merchant, first listed good — and whatever
//! no merchant lists falls into one fallback group.

use vstd::prelude::*;

use crate::aggregate::spec_render_sorted;
use crate::aggregate::items_view;
use crate::aggregate::ItemSpec;
use crate::aggregate::ShoppingListItem;
use crate::aggregate::SortedZettel;
use crate::catalog::merchants_view;
use crate::catalog::Config;
use crate::catalog::MerchantConfig;
use crate::catalog::MerchantSpec;
use crate::error::Error;
use crate::error::ErrorSpec;
use crate::text::str_eq;

verus! {

/// The mathematical value of one output group.
pub struct GroupSpec {
    /// The merchant's name, or the fallback label.
    pub name: Seq<char>,
    /// The group's items, in the merchant's declared goods order.
    pub items: Seq<ItemSpec>,
}

/// Some merchant of `ms` lists the good `name`.
pub open spec fn any_lists(ms: Seq<MerchantSpec>, name: Seq<char>) -> bool {
    exists|j: int| 0 <= j < ms.len() && #[trigger] ms[j].goods.contains(name)
}

/// The first item named `name`.
pub open spec fn find_item(items: Seq<ItemSpec>, name: Seq<char>) -> Option<ItemSpec>
    decreases items.len(),
{
    if items.len() == 0 {
        None
    } else if items[0].name == name {
        Some(items[0])
    } else {
        find_item(items.skip(1), name)
    }
}

/// The items one merchant claims: its declared goods in order, each
/// counted once, skipping goods an earlier merchant lists and goods no
/// aggregated item carries.
pub open spec fn picked(
    items: Seq<ItemSpec>,
    earlier: Seq<MerchantSpec>,
    goods: Seq<Seq<char>>,
) -> Seq<ItemSpec>
    decreases goods.len(),
{
    if goods.len() == 0 {
        Seq::empty()
    } else {
        let pre = picked(items, earlier, goods.drop_last());
        let g = goods.last();
        if !goods.drop_last().contains(g) && !any_lists(earlier, g) && find_item(items, g) is Some {
            pre.push(find_item(items, g)->Some_0)
        } else {
            pre
        }
    }
}

/// The non-empty merchant groups, in catalog declaration order.
pub open spec fn spec_groups(items: Seq<ItemSpec>, ms: Seq<MerchantSpec>) -> Seq<GroupSpec>
    decreases ms.len(),
{
    if ms.len() == 0 {
        Seq::empty()
    } else {
        let pre = spec_groups(items, ms.drop_last());
        let gi = picked(items, ms.drop_last(), ms.last().goods);
        if gi.len() > 0 {
            pre.push(GroupSpec { name: ms.last().name, items: gi })
        } else {
            pre
        }
    }
}

/// The items no merchant lists, in aggregated order.
pub open spec fn fallback_of(items: Seq<ItemSpec>, ms: Seq<MerchantSpec>) -> Seq<ItemSpec>
    decreases items.len(),
{
    if items.len() == 0 {
        Seq::empty()
    } else {
        let pre = fallback_of(items.drop_last(), ms);
        if !any_lists(ms, items.last().name) {
            pre.push(items.last())
        } else {
            pre
        }
    }
}

/// The label of the fallback group.
pub open spec fn fallback_label() -> Seq<char> {
    "elsewhere"@
}

/// The whole partition: the non-empty merchant groups in declaration
/// order, then the fallback group if it is non-empty.
pub open spec fn spec_partition(items: Seq<ItemSpec>, ms: Seq<MerchantSpec>) -> Seq<GroupSpec> {
    let fb = fallback_of(items, ms);
    spec_groups(items, ms) + if fb.len() > 0 {
        seq![GroupSpec { name: fallback_label(), items: fb }]
    } else {
        Seq::empty()
    }
}

/// One output group: a merchant's name (or the fallback label) and the
/// items it claims.
#[derive(Debug, Clone)]
pub struct MerchantList {
    /// The group's name.
    pub name: String,
    /// The group's items.
    pub items: Vec<ShoppingListItem>,
}

impl View for MerchantList {
    type V = GroupSpec;

    open spec fn view(&self) -> GroupSpec {
        GroupSpec { name: self.name@, items: items_view(self.items@) }
    }
}

impl MerchantList {
    /// The group's name.
    pub fn get_name(&self) -> (r: &str)
        ensures
            r@ == self@.name,
    {
        self.name.as_str()
    }

    /// The group's items.
    pub fn items(&self) -> (r: &Vec<ShoppingListItem>)
        ensures
            items_view(r@) == self@.items,
    {
        &self.items
    }
}

/// The values of a list of output groups.
pub open spec fn groups_view(v: Seq<MerchantList>) -> Seq<GroupSpec> {
    v.map_values(|g: MerchantList| g@)
}

/// The partitioned shopping list: merchant groups in declaration order,
/// the fallback group last.
#[derive(Debug, Clone)]
pub struct ShoppingList {
    /// The non-empty groups, in output order.
    pub list: Vec<MerchantList>,
}

impl View for ShoppingList {
    type V = Seq<GroupSpec>;

    open spec fn view(&self) -> Seq<GroupSpec> {
        groups_view(self.list@)
    }
}

/// Whether `g` occurs among the first `upto` good names.
fn prefix_contains(goods: &Vec<String>, upto: usize, g: &str) -> (b: bool)
    requires
        upto <= goods@.len(),
    ensures
        b == crate::catalog::names_view(goods@).take(upto as int).contains(g@),
{
    let ghost names = crate::catalog::names_view(goods@).take(upto as int);
    let mut i: usize = 0;
    while i < upto
        invariant
            i <= upto <= goods@.len(),
            names == crate::catalog::names_view(goods@).take(upto as int),
            forall|j: int| 0 <= j < i ==> names[j] != g@,
        decreases upto - i,
    {
        if str_eq(goods[i].as_str(), g) {
            proof {
                assert(names[i as int] == g@);
            }
            return true;
        }
        i = i + 1;
    }
    proof {
        if names.contains(g@) {
            let j = choose|j: int| 0 <= j < names.len() && names[j] == g@;
        }
    }
    false
}

/// Whether any of the first `upto` merchants lists the good `g`.
fn any_lists_exec(ms: &Vec<MerchantConfig>, upto: usize, g: &str) -> (b: bool)
    requires
        upto <= ms@.len(),
    ensures
        b == any_lists(merchants_view(ms@).take(upto as int), g@),
{
    let ghost msv = merchants_view(ms@).take(upto as int);
    let mut i: usize = 0;
    while i < upto
        invariant
            i <= upto <= ms@.len(),
            msv == merchants_view(ms@).take(upto as int),
            forall|j: int| 0 <= j < i ==> !#[trigger] msv[j].goods.contains(g@),
        decreases upto - i,
    {
        let glen = ms[i].goods.len();
        if prefix_contains(&ms[i].goods, glen, g) {
            proof {
                assert(crate::catalog::names_view(ms@[i as int].goods@).take(glen as int)
                    =~= msv[i as int].goods);
                assert(msv[i as int].goods.contains(g@));
            }
            return true;
        }
        proof {
            assert(crate::catalog::names_view(ms@[i as int].goods@).take(glen as int)
                =~= msv[i as int].goods);
        }
        i = i + 1;
    }
    proof {
        if any_lists(msv, g@) {
            let j = choose|j: int| 0 <= j < msv.len() && #[trigger] msv[j].goods.contains(g@);
        }
    }
    false
}

/// The index of the first item named `g`, if one exists.
fn find_item_exec(items: &Vec<ShoppingListItem>, g: &str) -> (r: Option<usize>)
    ensures
        match r {
            Some(ix) => ix < items@.len() && find_item(items_view(items@), g@) == Some(
                items_view(items@)[ix as int],
            ),
            None => find_item(items_view(items@), g@) is None,
        },
{
    let ghost itemsv = items_view(items@);
    let n = items.len();
    let mut i: usize = 0;
    proof {
        assert(itemsv.skip(0) =~= itemsv);
    }
    while i < n
        invariant
            i <= n,
            n == items@.len(),
            itemsv == items_view(items@),
            find_item(itemsv, g@) == find_item(itemsv.skip(i as int), g@),
        decreases n - i,
    {
        proof {
            let cur = itemsv.skip(i as int);
            assert(cur[0] == itemsv[i as int]);
            assert(cur.skip(1) =~= itemsv.skip(i + 1));
        }
        if str_eq(items[i].name.as_str(), g) {
            return Some(i);
        }
        i = i + 1;
    }
    proof {
        assert(itemsv.skip(n as int).len() == 0);
    }
    None
}

impl ShoppingList {
    /// Partitions the aggregated items across the catalog's merchants:
    /// merchants claim their declared goods in declaration order, a good
    /// goes to the first merchant that lists it, unclaimed items fall
    /// into the fallback group, empty groups are dropped — exactly as
    /// [`spec_partition`] says. A structurally bad merchant catalog
    /// fails with its issue.
    pub fn new(sorted: SortedZettel, config: &Config) -> (r: Result<ShoppingList, Error>)
        ensures
            match (r, crate::catalog::spec_merchants(config.config)) {
                (Ok(sl), Ok(ms)) => sl@ == spec_partition(sorted@, ms),
                (Err(e), Err(issue)) => e@ == ErrorSpec::CatalogFormat(issue),
                _ => false,
            },
    {
        let merchants = match config.merchant_iter() {
            Ok(v) => v,
            Err(e) => {
                return Err(e);
            },
        };
        let ghost msv = merchants_view(merchants@);
        let ghost itemsv = sorted@;
        let items = sorted.zettel;
        let mut list: Vec<MerchantList> = Vec::new();
        let mn = merchants.len();
        let mut j: usize = 0;
        proof {
            assert(msv.take(0) =~= Seq::<MerchantSpec>::empty());
            assert(groups_view(list@) =~= Seq::<GroupSpec>::empty());
        }
        while j < mn
            invariant
                j <= mn,
                mn == merchants@.len(),
                msv == merchants_view(merchants@),
                itemsv == items_view(items@),
                groups_view(list@) == spec_groups(itemsv, msv.take(j as int)),
            decreases mn - j,
        {
            let goods = &merchants[j].goods;
            let gn = goods.len();
            let ghost goodsv = msv[j as int].goods;
            proof {
                assert(goodsv =~= crate::catalog::names_view(goods@));
            }
            let mut gitems: Vec<ShoppingListItem> = Vec::new();
            let mut t: usize = 0;
            proof {
                assert(goodsv.take(0) =~= Seq::<Seq<char>>::empty());
                assert(items_view(gitems@) =~= Seq::<ItemSpec>::empty());
            }
            while t < gn
                invariant
                    t <= gn,
                    gn == goods@.len(),
                    goodsv == crate::catalog::names_view(goods@),
                    j < mn,
                    mn == merchants@.len(),
                    msv == merchants_view(merchants@),
                    goodsv == msv[j as int].goods,
                    itemsv == items_view(items@),
                    items_view(gitems@) == picked(itemsv, msv.take(j as int), goodsv.take(t as int)),
                decreases gn - t,
            {
                let g = goods[t].as_str();
                proof {
                    assert(goodsv.take(t + 1).drop_last() =~= goodsv.take(t as int));
                    assert(goodsv.take(t + 1).last() == goodsv[t as int]);
                    assert(goodsv[t as int] == g@);
                    assert(crate::catalog::names_view(goods@).take(t as int) =~= goodsv.take(
                        t as int,
                    ));
                }
                let dup = prefix_contains(goods, t, g);
                let claimed = any_lists_exec(&merchants, j, g);
                if !dup && !claimed {
                    match find_item_exec(&items, g) {
                        Some(ix) => {
                            let ghost pre = items_view(gitems@);
                            let found = ShoppingListItem {
                                amount: items[ix].amount,
                                name: items[ix].name.clone(),
                            };
                            gitems.push(found);
                            proof {
                                assert(found@ == itemsv[ix as int]);
                                assert(items_view(gitems@) =~= pre.push(itemsv[ix as int]));
                            }
                        },
                        None => {},
                    }
                }
                t = t + 1;
            }
            proof {
                assert(goodsv.take(gn as int) =~= goodsv);
                assert(msv.take(j + 1).drop_last() =~= msv.take(j as int));
                assert(msv.take(j + 1).last() == msv[j as int]);
            }
            let ghost pre_groups = groups_view(list@);
            if gitems.len() > 0 {
                let ml = MerchantList { name: merchants[j].name.clone(), items: gitems };
                list.push(ml);
                proof {
                    assert(ml@ == GroupSpec {
                        name: msv[j as int].name,
                        items: picked(itemsv, msv.take(j as int), goodsv),
                    });
                    assert(groups_view(list@) =~= pre_groups.push(ml@));
                }
            }
            j = j + 1;
        }
        proof {
            assert(msv.take(mn as int) =~= msv);
        }
        // The fallback group: items no merchant lists, in aggregated order.
        let mut fb: Vec<ShoppingListItem> = Vec::new();
        let itn = items.len();
        let mut i: usize = 0;
        proof {
            assert(itemsv.take(0) =~= Seq::<ItemSpec>::empty());
            assert(items_view(fb@) =~= Seq::<ItemSpec>::empty());
        }
        while i < itn
            invariant
                i <= itn,
                itn == items@.len(),
                itemsv == items_view(items@),
                mn == merchants@.len(),
                msv == merchants_view(merchants@),
                items_view(fb@) == fallback_of(itemsv.take(i as int), msv),
            decreases itn - i,
        {
            proof {
                assert(itemsv.take(i + 1).drop_last() =~= itemsv.take(i as int));
                assert(itemsv.take(i + 1).last() == itemsv[i as int]);
            }
            let mlen = merchants.len();
            proof {
                assert(msv.take(mlen as int) =~= msv);
            }
            if !any_lists_exec(&merchants, mlen, items[i].name.as_str()) {
                let ghost pre = items_view(fb@);
                let kept = ShoppingListItem {
                    amount: items[i].amount,
                    name: items[i].name.clone(),
                };
                fb.push(kept);
                proof {
                    assert(kept@ == itemsv[i as int]);
                    assert(items_view(fb@) =~= pre.push(itemsv[i as int]));
                }
            }
            i = i + 1;
        }
        proof {
            assert(itemsv.take(itn as int) =~= itemsv);
        }
        let ghost pre_groups = groups_view(list@);
        if fb.len() > 0 {
            let label: &str = "elsewhere";
            proof {
                reveal_strlit("elsewhere");
            }
            let ml = MerchantList { name: label.to_owned(), items: fb };
            list.push(ml);
            proof {
                assert(ml@ == GroupSpec {
                    name: fallback_label(),
                    items: fallback_of(itemsv, msv),
                });
                assert(groups_view(list@) =~= pre_groups.push(ml@));
                assert(groups_view(list@) =~= spec_partition(itemsv, msv));
            }
        } else {
            proof {
                assert(items_view(fb@).len() == 0);
                assert(groups_view(list@) + Seq::<GroupSpec>::empty() =~= groups_view(list@));
            }
        }
        Ok(ShoppingList { list })
    }

    /// The output groups, in order.
    pub fn get_list(&self) -> (r: &Vec<MerchantList>)
        ensures
            groups_view(r@) == self@,
    {
        &self.list
    }
}

/// The textual form of one group: the name, an underline of `=` signs
/// of the name's character count, then the items, one per line.
pub open spec fn spec_render_group(g: GroupSpec) -> Seq<char> {
    g.name + seq!['\n'] + Seq::new(g.name.len(), |i: int| '=') + seq!['\n'] + spec_render_sorted(
        g.items,
    )
}

/// The textual form of the whole list: the groups' texts, with one
/// blank line between consecutive groups — a group's text already ends
/// in a newline, so one more newline separates the blocks.
pub open spec fn spec_render_list(groups: Seq<GroupSpec>) -> Seq<char>
    decreases groups.len(),
{
    if groups.len() == 0 {
        Seq::empty()
    } else if groups.len() == 1 {
        spec_render_group(groups[0])
    } else {
        spec_render_list(groups.drop_last()) + seq!['\n'] + spec_render_group(groups.last())
    }
}

impl ShoppingList {
    /// Renders the partitioned list as [`spec_render_list`] writes it.
    pub fn render(&self) -> (r: String)
        ensures
            r@ == spec_render_list(self@),
    {
        let mut out = String::new();
        let n = self.list.len();
        let mut i: usize = 0;
        proof {
            assert(groups_view(self.list@).take(0) =~= Seq::<GroupSpec>::empty());
        }
        while i < n
            invariant
                i <= n,
                n == self.list@.len(),
                out@ == spec_render_list(groups_view(self.list@).take(i as int)),
            decreases n - i,
        {
            let ghost gl = groups_view(self.list@);
            if i > 0 {
                out.append("\n");
            }
            let group = &self.list[i];
            out.append(group.name.as_str());
            out.append("\n");
            let cn = group.name.unicode_len();
            let mut c: usize = 0;
            let ghost mid = out@;
            while c < cn
                invariant
                    c <= cn,
                    out@ == mid + Seq::new(c as nat, |k: int| '='),
                decreases cn - c,
            {
                out.append("=");
                proof {
                    reveal_strlit("=");
                    assert(mid + Seq::new((c + 1) as nat, |k: int| '=') =~= (mid + Seq::new(
                        c as nat,
                        |k: int| '=',
                    )).push('='));
                }
                c = c + 1;
            }
            out.append("\n");
            let ghost before_items = out@;
            let ghost giv = items_view(group.items@);
            let tn = group.items.len();
            let mut t: usize = 0;
            proof {
                assert(giv.take(0) =~= Seq::<ItemSpec>::empty());
                assert(before_items + spec_render_sorted(giv.take(0)) =~= before_items);
            }
            while t < tn
                invariant
                    t <= tn,
                    tn == group.items@.len(),
                    giv == items_view(group.items@),
                    out@ == before_items + spec_render_sorted(giv.take(t as int)),
                decreases tn - t,
            {
                let line = group.items[t].render();
                out.append(line.as_str());
                out.append("\n");
                proof {
                    reveal_strlit("\n");
                    assert(giv.take(t + 1).drop_last() =~= giv.take(t as int));
                    assert(giv.take(t + 1).last() == giv[t as int]);
                    assert(out@ =~= before_items + spec_render_sorted(giv.take(t + 1)));
                }
                t = t + 1;
            }
            proof {
                reveal_strlit("\n");
                assert(giv.take(tn as int) =~= giv);
                assert(gl[i as int] == group@);
                assert(gl.take(i + 1).drop_last() =~= gl.take(i as int));
                assert(gl.take(i + 1).last() == gl[i as int]);
                assert(out@ =~= spec_render_list(gl.take(i + 1)));
            }
            i = i + 1;
        }
        proof {
            assert(groups_view(self.list@).take(n as int) =~= groups_view(self.list@));
        }
        out
    }
}

/// What the first find returns: an item of the list carrying the
/// searched name, or nothing only when no item carries it.
proof fn lemma_find_item_props(items: Seq<ItemSpec>, n: Seq<char>)
    ensures
        match find_item(items, n) {
            Some(y) => items.contains(y) && y.name == n,
            None => forall|j: int| 0 <= j < items.len() ==> (#[trigger] items[j]).name != n,
        },
    decreases items.len(),
{
    if items.len() > 0 && items[0].name != n {
        let tail = items.skip(1);
        lemma_find_item_props(tail, n);
        match find_item(tail, n) {
            Some(y) => {
                let ix = choose|ix: int| 0 <= ix < tail.len() && tail[ix] == y;
                assert(items[ix + 1] == y);
            },
            None => {
                assert forall|j: int| 0 <= j < items.len() implies (#[trigger] items[j]).name
                    != n by {
                    if j > 0 {
                        assert(tail[j - 1] == items[j]);
                    }
                }
            },
        }
    }
}

/// On a strictly sorted list, the first find of an item's own name
/// returns that very item.
proof fn lemma_find_item_of(items: Seq<ItemSpec>, x: ItemSpec)
    requires
        crate::aggregate::sorted_strict(items),
        items.contains(x),
    ensures
        find_item(items, x.name) == Some(x),
    decreases items.len(),
{
    let jx = choose|jx: int| 0 <= jx < items.len() && items[jx] == x;
    if items[0] == x {
    } else if items[0].name == x.name {
        crate::aggregate::lemma_sorted_distinct(items, 0, jx);
    } else {
        let tail = items.skip(1);
        assert(tail[jx - 1] == x);
        assert forall|i1: int, i2: int| 0 <= i1 < i2 < tail.len() implies crate::text::lex_lt(
            (#[trigger] tail[i1]).name,
            (#[trigger] tail[i2]).name,
        ) by {
            assert(tail[i1] == items[i1 + 1]);
            assert(tail[i2] == items[i2 + 1]);
        }
        assert(crate::aggregate::sorted_strict(tail));
        lemma_find_item_of(tail, x);
    }
}

/// Everything a merchant claims comes from its goods list, claimed by
/// no earlier merchant.
proof fn lemma_picked_sound(
    items: Seq<ItemSpec>,
    earlier: Seq<MerchantSpec>,
    goods: Seq<Seq<char>>,
    x: ItemSpec,
)
    requires
        picked(items, earlier, goods).contains(x),
    ensures
        goods.contains(x.name),
        !any_lists(earlier, x.name),
        items.contains(x),
    decreases goods.len(),
{
    let pre = picked(items, earlier, goods.drop_last());
    let g = goods.last();
    if goods.len() > 0 && !goods.drop_last().contains(g) && !any_lists(earlier, g) && find_item(
        items,
        g,
    ) is Some {
        let y = find_item(items, g)->Some_0;
        let ix = choose|ix: int|
            0 <= ix < pre.push(y).len() && pre.push(y)[ix] == x;
        if ix < pre.len() {
            assert(pre.contains(x));
            lemma_picked_sound(items, earlier, goods.drop_last(), x);
            let gx = choose|gx: int|
                0 <= gx < goods.drop_last().len() && goods.drop_last()[gx] == x.name;
            assert(goods[gx] == x.name);
        } else {
            assert(x == y);
            lemma_find_item_props(items, g);
            assert(x.name == g);
            assert(goods[goods.len() - 1] == x.name);
        }
    } else {
        assert(goods.len() > 0);
        assert(pre.contains(x));
        lemma_picked_sound(items, earlier, goods.drop_last(), x);
        let gx = choose|gx: int|
            0 <= gx < goods.drop_last().len() && goods.drop_last()[gx] == x.name;
        assert(goods[gx] == x.name);
    }
}

/// A listed good that no earlier merchant lists and that the items
/// carry is claimed.
proof fn lemma_picked_complete(
    items: Seq<ItemSpec>,
    earlier: Seq<MerchantSpec>,
    goods: Seq<Seq<char>>,
    g: Seq<char>,
)
    requires
        goods.contains(g),
        !any_lists(earlier, g),
        find_item(items, g) is Some,
    ensures
        picked(items, earlier, goods).contains(find_item(items, g)->Some_0),
    decreases goods.len(),
{
    let y = find_item(items, g)->Some_0;
    let pre = picked(items, earlier, goods.drop_last());
    if goods.drop_last().contains(g) {
        lemma_picked_complete(items, earlier, goods.drop_last(), g);
        let ix = choose|ix: int| 0 <= ix < pre.len() && pre[ix] == y;
        if !goods.drop_last().contains(goods.last()) && !any_lists(earlier, goods.last())
            && find_item(items, goods.last()) is Some {
            assert(pre.push(find_item(items, goods.last())->Some_0)[ix] == y);
        }
    } else {
        let gx = choose|gx: int| 0 <= gx < goods.len() && goods[gx] == g;
        assert(gx == goods.len() - 1) by {
            if gx < goods.len() - 1 {
                assert(goods.drop_last()[gx] == g);
            }
        }
        assert(goods.last() == g);
        assert(pre.push(y)[pre.len() as int] == y);
    }
}

/// Where some merchant lists a good, a first one does.
proof fn lemma_least_claimer(ms: Seq<MerchantSpec>, n: Seq<char>)
    requires
        any_lists(ms, n),
    ensures
        exists|j: int|
            0 <= j < ms.len() && (#[trigger] ms[j].goods).contains(n) && !any_lists(
                ms.take(j),
                n,
            ),
    decreases ms.len(),
{
    let dl = ms.drop_last();
    if any_lists(dl, n) {
        lemma_least_claimer(dl, n);
        let j = choose|j: int|
            0 <= j < dl.len() && (#[trigger] dl[j].goods).contains(n) && !any_lists(dl.take(j), n);
        assert(ms.take(j) =~= dl.take(j));
        assert(ms[j].goods.contains(n) && !any_lists(ms.take(j), n));
    } else {
        let j0 = choose|j0: int| 0 <= j0 < ms.len() && #[trigger] ms[j0].goods.contains(n);
        assert(j0 == ms.len() - 1) by {
            if j0 < ms.len() - 1 {
                assert(dl[j0].goods.contains(n));
            }
        }
        assert(ms.take(ms.len() - 1) =~= dl);
        assert(ms[ms.len() - 1].goods.contains(n) && !any_lists(ms.take(ms.len() - 1), n));
    }
}

/// A claimed item's group stands in the output.
proof fn lemma_groups_have(items: Seq<ItemSpec>, ms: Seq<MerchantSpec>, x: ItemSpec, mj: int)
    requires
        0 <= mj < ms.len(),
        picked(items, ms.take(mj), ms[mj].goods).contains(x),
    ensures
        exists|gj: int|
            0 <= gj < spec_groups(items, ms).len() && (#[trigger] spec_groups(
                items,
                ms,
            )[gj]).items.contains(x),
    decreases ms.len(),
{
    let dl = ms.drop_last();
    let pre = spec_groups(items, dl);
    let gi = picked(items, dl, ms.last().goods);
    if mj == ms.len() - 1 {
        assert(ms.take(mj) =~= dl);
        assert(gi.contains(x));
        assert(gi.len() > 0);
        assert(spec_groups(items, ms)[pre.len() as int].items.contains(x));
    } else {
        assert(ms.take(mj) =~= dl.take(mj));
        assert(dl[mj] == ms[mj]);
        lemma_groups_have(items, dl, x, mj);
        let gj = choose|gj: int|
            0 <= gj < pre.len() && (#[trigger] pre[gj]).items.contains(x);
        if gi.len() > 0 {
            assert(spec_groups(items, ms)[gj] == pre[gj]);
        } else {
            assert(spec_groups(items, ms) == pre);
        }
    }
}

/// The merchant a given output group came from.
spec fn group_source(items: Seq<ItemSpec>, ms: Seq<MerchantSpec>, gj: int) -> int
    decreases ms.len(),
{
    if ms.len() == 0 {
        0
    } else if gj < spec_groups(items, ms.drop_last()).len() {
        group_source(items, ms.drop_last(), gj)
    } else {
        ms.len() - 1
    }
}

/// Each output group is its source merchant's claim, and the sources
/// come in declaration order.
proof fn lemma_group_source(items: Seq<ItemSpec>, ms: Seq<MerchantSpec>, gj: int)
    requires
        0 <= gj < spec_groups(items, ms).len(),
    ensures
        ({
            let mj = group_source(items, ms, gj);
            &&& 0 <= mj < ms.len()
            &&& spec_groups(items, ms)[gj].items == picked(items, ms.take(mj), ms[mj].goods)
        }),
    decreases ms.len(),
{
    let dl = ms.drop_last();
    let pre = spec_groups(items, dl);
    let gi = picked(items, dl, ms.last().goods);
    if gj < pre.len() {
        lemma_group_source(items, dl, gj);
        let mj = group_source(items, dl, gj);
        assert(ms.take(mj) =~= dl.take(mj));
        if gi.len() > 0 {
            assert(spec_groups(items, ms)[gj] == pre[gj]);
        }
    } else {
        assert(gi.len() > 0);
        assert(ms.take(ms.len() - 1) =~= dl);
        assert(spec_groups(items, ms)[gj] == GroupSpec { name: ms.last().name, items: gi });
    }
}

/// Later groups come from later merchants.
proof fn lemma_group_source_mono(items: Seq<ItemSpec>, ms: Seq<MerchantSpec>, g1: int, g2: int)
    requires
        0 <= g1 < g2 < spec_groups(items, ms).len(),
    ensures
        group_source(items, ms, g1) < group_source(items, ms, g2),
    decreases ms.len(),
{
    let dl = ms.drop_last();
    let pre = spec_groups(items, dl);
    if g2 < pre.len() {
        lemma_group_source_mono(items, dl, g1, g2);
    } else {
        assert(g2 == pre.len());
        lemma_group_source(items, dl, g1);
    }
}

/// Whatever falls back is listed by no merchant, and comes from the
/// items.
proof fn lemma_fallback_sound(items: Seq<ItemSpec>, ms: Seq<MerchantSpec>, x: ItemSpec)
    requires
        fallback_of(items, ms).contains(x),
    ensures
        !any_lists(ms, x.name),
        items.contains(x),
    decreases items.len(),
{
    let dl = items.drop_last();
    let pre = fallback_of(dl, ms);
    assert(items.len() > 0);
    if !any_lists(ms, items.last().name) {
        let ix = choose|ix: int|
            0 <= ix < pre.push(items.last()).len() && pre.push(items.last())[ix] == x;
        if ix < pre.len() {
            assert(pre.contains(x));
            lemma_fallback_sound(dl, ms, x);
            let jx = choose|jx: int| 0 <= jx < dl.len() && dl[jx] == x;
            assert(items[jx] == x);
        } else {
            assert(x == items.last());
        }
    } else {
        assert(pre.contains(x));
        lemma_fallback_sound(dl, ms, x);
        let jx = choose|jx: int| 0 <= jx < dl.len() && dl[jx] == x;
        assert(items[jx] == x);
    }
}

/// An item no merchant lists falls back.
proof fn lemma_fallback_complete(items: Seq<ItemSpec>, ms: Seq<MerchantSpec>, x: ItemSpec)
    requires
        items.contains(x),
        !any_lists(ms, x.name),
    ensures
        fallback_of(items, ms).contains(x),
    decreases items.len(),
{
    let dl = items.drop_last();
    let pre = fallback_of(dl, ms);
    let jx = choose|jx: int| 0 <= jx < items.len() && items[jx] == x;
    if jx == items.len() - 1 && !(exists|jx2: int| 0 <= jx2 < dl.len() && dl[jx2] == x) {
        assert(x == items.last());
        assert(pre.push(x)[pre.len() as int] == x);
    } else {
        assert(dl.contains(x)) by {
            if jx < items.len() - 1 {
                assert(dl[jx] == x);
            }
        }
        lemma_fallback_complete(dl, ms, x);
        let ix = choose|ix: int| 0 <= ix < pre.len() && pre[ix] == x;
        if !any_lists(ms, items.last().name) {
            assert(pre.push(items.last())[ix] == x);
        }
    }
}

/// Partitioning is exhaustive and non-overlapping: every aggregated
/// item stands in exactly one output group — a declared merchant's
/// group or the fallback group, never none, never two.
pub proof fn lemma_partition_exhaustive(
    items: Seq<ItemSpec>,
    ms: Seq<MerchantSpec>,
    x: ItemSpec,
)
    requires
        crate::aggregate::sorted_strict(items),
        items.contains(x),
    ensures
        exists|gj: int|
            0 <= gj < spec_partition(items, ms).len() && (#[trigger] spec_partition(
                items,
                ms,
            )[gj]).items.contains(x),
        forall|g1: int, g2: int|
            (0 <= g1 < spec_partition(items, ms).len() && 0 <= g2 < spec_partition(
                items,
                ms,
            ).len() && (#[trigger] spec_partition(items, ms)[g1]).items.contains(x)
                && (#[trigger] spec_partition(items, ms)[g2]).items.contains(x)) ==> g1 == g2,
{
    let p = spec_partition(items, ms);
    let groups = spec_groups(items, ms);
    let fb = fallback_of(items, ms);
    // Existence.
    if any_lists(ms, x.name) {
        lemma_least_claimer(ms, x.name);
        let mj = choose|mj: int|
            0 <= mj < ms.len() && (#[trigger] ms[mj].goods).contains(x.name) && !any_lists(
                ms.take(mj),
                x.name,
            );
        lemma_find_item_of(items, x);
        lemma_picked_complete(items, ms.take(mj), ms[mj].goods, x.name);
        lemma_groups_have(items, ms, x, mj);
        let gj = choose|gj: int|
            0 <= gj < groups.len() && (#[trigger] groups[gj]).items.contains(x);
        assert(p[gj] == groups[gj]);
        assert(p[gj].items.contains(x));
    } else {
        lemma_fallback_complete(items, ms, x);
        assert(fb.len() > 0);
        assert(p[groups.len() as int].items.contains(x));
    }
    // Uniqueness.
    assert forall|g1: int, g2: int|
        (0 <= g1 < p.len() && 0 <= g2 < p.len() && (#[trigger] p[g1]).items.contains(x)
            && (#[trigger] p[g2]).items.contains(x)) implies g1 == g2 by {
        if g1 != g2 {
            let lo = if g1 < g2 {
                g1
            } else {
                g2
            };
            let hi = if g1 < g2 {
                g2
            } else {
                g1
            };
            if hi < groups.len() {
                assert(p[lo] == groups[lo] && p[hi] == groups[hi]);
                lemma_group_source(items, ms, lo);
                lemma_group_source(items, ms, hi);
                lemma_group_source_mono(items, ms, lo, hi);
                let m1 = group_source(items, ms, lo);
                let m2 = group_source(items, ms, hi);
                lemma_picked_sound(items, ms.take(m1), ms[m1].goods, x);
                lemma_picked_sound(items, ms.take(m2), ms[m2].goods, x);
                assert(ms.take(m2)[m1] == ms[m1]);
                assert(any_lists(ms.take(m2), x.name));
            } else {
                // `hi` is the fallback group.
                assert(p[hi].items == fb);
                lemma_fallback_sound(items, ms, x);
                assert(lo < groups.len());
                assert(p[lo] == groups[lo]);
                lemma_group_source(items, ms, lo);
                let m1 = group_source(items, ms, lo);
                lemma_picked_sound(items, ms.take(m1), ms[m1].goods, x);
                assert(any_lists(ms, x.name)) by {
                    assert(ms[m1].goods.contains(x.name));
                }
            }
        }
    }
}

} // verus!
