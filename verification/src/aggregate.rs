//! The aggregator: raw lines are keyed by canonical name, same-named
//! amounts are summed in encounter order, and the result is sorted by
//! canonical name.

use vstd::prelude::*;

use crate::amount::amount_sum;
use crate::amount::magnitude;
use crate::amount::same_kind;
use crate::amount::spec_render_amount;
use crate::amount::Amount;
use crate::catalog::spec_normalize;
use crate::catalog::AltNamesMapping;
use crate::error::Error;
use crate::error::ErrorSpec;
use crate::line::LineSpec;
use crate::line::Zettel;
use crate::text::lemma_lex_asym;
use crate::text::lemma_lex_total;
use crate::text::lemma_lex_trans;
use crate::text::lex_lt;
use crate::text::str_eq;
use crate::text::str_lt;

verus! {

/// The mathematical value of an aggregated item.
pub struct ItemSpec {
    /// The canonical name.
    pub name: Seq<char>,
    /// The single summed amount of the group.
    pub amount: Amount,
}

/// One aggregated item: a canonical name and its single summed amount.
#[derive(Debug, Clone)]
pub struct ShoppingListItem {
    /// The single summed amount of the group.
    pub amount: Amount,
    /// The canonical name.
    pub name: String,
}

impl View for ShoppingListItem {
    type V = ItemSpec;

    open spec fn view(&self) -> ItemSpec {
        ItemSpec { name: self.name@, amount: self.amount }
    }
}

/// The values of a list of aggregated items.
pub open spec fn items_view(v: Seq<ShoppingListItem>) -> Seq<ItemSpec> {
    v.map_values(|it: ShoppingListItem| it@)
}

/// The amount an entry contributes: an absent amount counts one piece.
pub open spec fn default_amount(a: Option<Amount>) -> Amount {
    match a {
        Some(x) => x,
        None => Amount::Count(1),
    }
}

/// Strictly sorted by canonical name: names are unique and ascending.
pub open spec fn sorted_strict(l: Seq<ItemSpec>) -> bool {
    forall|i: int, j: int| 0 <= i < j < l.len() ==> lex_lt(l[i].name, l[j].name)
}

/// Some item of `l` carries the name `k`.
pub open spec fn has_name(l: Seq<ItemSpec>, k: Seq<char>) -> bool {
    exists|j: int| 0 <= j < l.len() && l[j].name == k
}

/// Inserts one contribution into a sorted item list: before the first
/// larger name, into an equal-named item by same-kind addition, which
/// fails with the offending canonical name on a kind mismatch.
pub open spec fn spec_insert(l: Seq<ItemSpec>, k: Seq<char>, a: Amount) -> Result<
    Seq<ItemSpec>,
    Seq<char>,
>
    decreases l.len(),
{
    if l.len() == 0 {
        Ok(seq![ItemSpec { name: k, amount: a }])
    } else if lex_lt(k, l[0].name) {
        Ok(seq![ItemSpec { name: k, amount: a }] + l)
    } else if k == l[0].name {
        if same_kind(a, l[0].amount) {
            Ok(seq![ItemSpec { name: k, amount: amount_sum(l[0].amount, a) }] + l.skip(1))
        } else {
            Err(k)
        }
    } else {
        match spec_insert(l.skip(1), k, a) {
            Ok(tail) => Ok(seq![l[0]] + tail),
            Err(e) => Err(e),
        }
    }
}

/// What aggregation returns: entries folded front to back into a sorted
/// list, an error carrying the canonical name of the first group whose
/// amounts mix kinds.
pub open spec fn spec_agg(entries: Seq<LineSpec>, m: Map<Seq<char>, Seq<char>>) -> Result<
    Seq<ItemSpec>,
    Seq<char>,
>
    decreases entries.len(),
{
    if entries.len() == 0 {
        Ok(Seq::empty())
    } else {
        match spec_agg(entries.drop_last(), m) {
            Err(e) => Err(e),
            Ok(l) => spec_insert(
                l,
                spec_normalize(m, entries.last().name),
                default_amount(entries.last().amount),
            ),
        }
    }
}

/// The total magnitude that entries of canonical name `key` contribute.
pub open spec fn group_total(
    entries: Seq<LineSpec>,
    m: Map<Seq<char>, Seq<char>>,
    key: Seq<char>,
) -> int
    decreases entries.len(),
{
    if entries.len() == 0 {
        0
    } else {
        group_total(entries.drop_last(), m, key) + if spec_normalize(m, entries.last().name)
            == key {
            magnitude(default_amount(entries.last().amount))
        } else {
            0
        }
    }
}

/// Group totals are never negative.
pub proof fn lemma_group_total_nonneg(
    entries: Seq<LineSpec>,
    m: Map<Seq<char>, Seq<char>>,
    key: Seq<char>,
)
    ensures
        0 <= group_total(entries, m, key),
    decreases entries.len(),
{
    if entries.len() > 0 {
        lemma_group_total_nonneg(entries.drop_last(), m, key);
    }
}

/// A prefix contributes no more than the whole entry list.
pub proof fn lemma_group_total_take_mono(
    entries: Seq<LineSpec>,
    m: Map<Seq<char>, Seq<char>>,
    key: Seq<char>,
    i: int,
)
    requires
        0 <= i <= entries.len(),
    ensures
        group_total(entries.take(i), m, key) <= group_total(entries, m, key),
    decreases entries.len(),
{
    if i == entries.len() {
        assert(entries.take(i) =~= entries);
    } else {
        assert(entries.take(i) =~= entries.drop_last().take(i));
        lemma_group_total_take_mono(entries.drop_last(), m, key, i);
    }
}

/// An aggregation error at any prefix is the error of the whole.
pub proof fn lemma_agg_err_propagates(
    entries: Seq<LineSpec>,
    m: Map<Seq<char>, Seq<char>>,
    j: int,
)
    requires
        0 <= j <= entries.len(),
        spec_agg(entries.take(j), m) is Err,
    ensures
        spec_agg(entries, m) == spec_agg(entries.take(j), m),
    decreases entries.len() - j,
{
    if j == entries.len() {
        assert(entries.take(j) =~= entries);
    } else {
        assert(entries.take(j + 1).drop_last() =~= entries.take(j));
        lemma_agg_err_propagates(entries, m, j + 1);
    }
}

/// Where the sorted scan stops decides what the insertion does: an
/// equal-named item at the stop is summed into (or reports the
/// mismatch), anything else means insertion right there.
pub proof fn lemma_insert_at(l: Seq<ItemSpec>, k: Seq<char>, a: Amount, j: int)
    requires
        0 <= j <= l.len(),
        forall|i: int| 0 <= i < j ==> lex_lt(#[trigger] l[i].name, k),
        j < l.len() ==> !lex_lt(l[j].name, k),
    ensures
        spec_insert(l, k, a) == (if j < l.len() && l[j].name == k {
            if same_kind(a, l[j].amount) {
                Ok::<Seq<ItemSpec>, Seq<char>>(
                    l.update(j, ItemSpec { name: k, amount: amount_sum(l[j].amount, a) }),
                )
            } else {
                Err::<Seq<ItemSpec>, Seq<char>>(k)
            }
        } else {
            Ok::<Seq<ItemSpec>, Seq<char>>(l.insert(j, ItemSpec { name: k, amount: a }))
        }),
    decreases l.len(),
{
    if l.len() == 0 {
        assert(l.insert(0, ItemSpec { name: k, amount: a }) =~= seq![
            ItemSpec { name: k, amount: a },
        ]);
    } else if j == 0 {
        lemma_lex_total(k, l[0].name);
        lemma_lex_asym(k, l[0].name);
        if l[0].name == k {
            assert(seq![ItemSpec { name: k, amount: amount_sum(l[0].amount, a) }] + l.skip(1)
                =~= l.update(0, ItemSpec { name: k, amount: amount_sum(l[0].amount, a) }));
        } else {
            assert(lex_lt(k, l[0].name));
            assert(seq![ItemSpec { name: k, amount: a }] + l =~= l.insert(
                0,
                ItemSpec { name: k, amount: a },
            ));
        }
    } else {
        assert(lex_lt(l[0].name, k));
        lemma_lex_asym(l[0].name, k);
        assert(l[0].name != k) by {
            if l[0].name == k {
                lemma_lex_asym(k, k);
            }
        }
        let tail = l.skip(1);
        assert(forall|i: int| 0 <= i < j - 1 ==> lex_lt(#[trigger] tail[i].name, k));
        lemma_insert_at(tail, k, a, j - 1);
        if j < l.len() && l[j].name == k {
            assert(tail[j - 1].name == k);
            if same_kind(a, l[j].amount) {
                assert(seq![l[0]] + tail.update(
                    j - 1,
                    ItemSpec { name: k, amount: amount_sum(l[j].amount, a) },
                ) =~= l.update(j, ItemSpec { name: k, amount: amount_sum(l[j].amount, a) }));
            }
        } else {
            assert(seq![l[0]] + tail.insert(j - 1, ItemSpec { name: k, amount: a }) =~= l.insert(
                j,
                ItemSpec { name: k, amount: a },
            ));
        }
    }
}

/// Inserting at the scan's stop keeps the list strictly sorted, and the
/// names present afterwards are the old names plus the inserted one.
pub proof fn lemma_insert_sorted(l: Seq<ItemSpec>, k: Seq<char>, a: Amount, j: int)
    requires
        sorted_strict(l),
        0 <= j <= l.len(),
        forall|i: int| 0 <= i < j ==> lex_lt(#[trigger] l[i].name, k),
        j < l.len() ==> !lex_lt(l[j].name, k),
        !(j < l.len() && l[j].name == k),
    ensures
        sorted_strict(l.insert(j, ItemSpec { name: k, amount: a })),
        forall|k2: Seq<char>|
            #[trigger] has_name(l.insert(j, ItemSpec { name: k, amount: a }), k2) == (has_name(
                l,
                k2,
            ) || k2 == k),
        !has_name(l, k),
{
    let l2 = l.insert(j, ItemSpec { name: k, amount: a });
    if j < l.len() {
        lemma_lex_total(k, l[j].name);
        lemma_lex_asym(k, l[j].name);
        assert(lex_lt(k, l[j].name));
    }
    assert forall|i1: int, i2: int| 0 <= i1 < i2 < l2.len() implies lex_lt(
        l2[i1].name,
        l2[i2].name,
    ) by {
        if i1 < j && i2 > j {
            assert(l2[i1] == l[i1]);
            assert(l2[i2] == l[i2 - 1]);
            assert(lex_lt(l[i1].name, l[i2 - 1].name));
        } else if i1 == j && i2 > j {
            assert(l2[i2] == l[i2 - 1]);
            if i2 - 1 > j {
                lemma_lex_trans(k, l[j].name, l[i2 - 1].name);
            }
        } else if i1 < j && i2 == j {
            assert(l2[i1] == l[i1]);
        } else if i2 < j {
            assert(l2[i1] == l[i1] && l2[i2] == l[i2]);
        } else if i1 > j {
            assert(l2[i1] == l[i1 - 1] && l2[i2] == l[i2 - 1]);
        }
    }
    assert(!has_name(l, k)) by {
        if has_name(l, k) {
            let j2 = choose|j2: int| 0 <= j2 < l.len() && l[j2].name == k;
            if j2 < j {
                lemma_lex_asym(l[j2].name, k);
            } else if j2 > j {
                lemma_lex_total(k, l[j].name);
                lemma_lex_asym(k, l[j].name);
                lemma_lex_asym(k, l[j2].name);
                lemma_lex_trans(k, l[j].name, l[j2].name);
            }
        }
    }
    assert forall|k2: Seq<char>| #[trigger] has_name(l2, k2) == (has_name(l, k2) || k2 == k) by {
        if has_name(l2, k2) {
            let j2 = choose|j2: int| 0 <= j2 < l2.len() && l2[j2].name == k2;
            if j2 != j {
                let old_j = if j2 < j {
                    j2
                } else {
                    j2 - 1
                };
                assert(l[old_j].name == k2);
            }
        }
        if has_name(l, k2) {
            let j2 = choose|j2: int| 0 <= j2 < l.len() && l[j2].name == k2;
            let new_j = if j2 < j {
                j2
            } else {
                j2 + 1
            };
            assert(l2[new_j].name == k2);
        }
        if k2 == k {
            assert(l2[j].name == k2);
        }
    }
}


/// Two items of a strictly sorted list never share a name.
pub proof fn lemma_sorted_distinct(l: Seq<ItemSpec>, i: int, j: int)
    requires
        sorted_strict(l),
        0 <= i < l.len(),
        0 <= j < l.len(),
        i != j,
    ensures
        l[i].name != l[j].name,
{
    if l[i].name == l[j].name {
        lemma_lex_asym(l[i].name, l[i].name);
    }
}

/// A list with the same names in the same places keeps the sort order
/// and the name set.
pub proof fn lemma_names_preserved(cur: Seq<ItemSpec>, l2: Seq<ItemSpec>)
    requires
        sorted_strict(cur),
        l2.len() == cur.len(),
        forall|j2: int| 0 <= j2 < l2.len() ==> #[trigger] l2[j2].name == cur[j2].name,
    ensures
        sorted_strict(l2),
        forall|k2: Seq<char>| #[trigger] has_name(l2, k2) == has_name(cur, k2),
{
    assert forall|k2: Seq<char>| #[trigger] has_name(l2, k2) == has_name(cur, k2) by {
        if has_name(l2, k2) {
            let j2 = choose|j2: int| 0 <= j2 < l2.len() && l2[j2].name == k2;
            assert(cur[j2].name == k2);
        }
        if has_name(cur, k2) {
            let j2 = choose|j2: int| 0 <= j2 < cur.len() && cur[j2].name == k2;
            assert(l2[j2].name == k2);
        }
    }
}

/// A sorted note: one item per canonical name, in ascending name order.
#[derive(Debug, Clone)]
pub struct SortedZettel {
    /// The aggregated items, sorted by canonical name.
    pub zettel: Vec<ShoppingListItem>,
}

impl View for SortedZettel {
    type V = Seq<ItemSpec>;

    open spec fn view(&self) -> Seq<ItemSpec> {
        items_view(self.zettel@)
    }
}

impl SortedZettel {
    /// Aggregates the parsed lines: every name is mapped to its
    /// canonical form, equal names are summed in encounter order, the
    /// result is sorted, exactly as [`spec_agg`] says. A kind mismatch
    /// within a group fails with that group's canonical name.
    #[verifier::rlimit(60)]
    pub fn from_zettel(value: Zettel, alt_names_mapping: &AltNamesMapping) -> (r: Result<
        SortedZettel,
        Error,
    >)
        requires
            forall|k: Seq<char>| group_total(value@, alt_names_mapping@, k) <= usize::MAX,
        ensures
            match (r, spec_agg(value@, alt_names_mapping@)) {
                (Ok(sz), Ok(l)) => sz@ == l && sorted_strict(l),
                (Err(e), Err(k)) => e@ == ErrorSpec::UnitMismatch(k),
                _ => false,
            },
    {
        let ghost lines = value@;
        let ghost m = alt_names_mapping@;
        let z = value.zettel;
        let mut items: Vec<ShoppingListItem> = Vec::new();
        let n = z.len();
        let mut i: usize = 0;
        proof {
            assert(lines.take(0) =~= Seq::<LineSpec>::empty());
            assert(items_view(items@) =~= Seq::<ItemSpec>::empty());
        }
        while i < n
            invariant
                i <= n,
                n == z@.len(),
                lines == crate::line::lines_view(z@),
                lines == value@,
                m == alt_names_mapping@,
                forall|k: Seq<char>| group_total(lines, m, k) <= usize::MAX,
                spec_agg(lines.take(i as int), m) == Ok::<Seq<ItemSpec>, Seq<char>>(
                    items_view(items@),
                ),
                sorted_strict(items_view(items@)),
                forall|j: int|
                    0 <= j < items@.len() ==> magnitude(#[trigger] items_view(items@)[j].amount)
                        == group_total(lines.take(i as int), m, items_view(items@)[j].name),
                forall|k: Seq<char>|
                    !has_name(items_view(items@), k) ==> #[trigger] group_total(
                        lines.take(i as int),
                        m,
                        k,
                    ) == 0,
            decreases n - i,
        {
            let ghost cur = items_view(items@);
            let entry_amount = match &z[i].amount {
                Some(x) => *x,
                None => Amount::Count(1),
            };
            let key = alt_names_mapping.normalize_name(z[i].name.as_str());
            let ghost k = key@;
            let ghost inc = magnitude(entry_amount);
            proof {
                assert(lines[i as int] == z@[i as int]@);
                assert(entry_amount == default_amount(lines[i as int].amount));
                assert(k == spec_normalize(m, lines[i as int].name));
                assert(lines.take(i + 1).drop_last() =~= lines.take(i as int));
                assert(lines.take(i + 1).last() == lines[i as int]);
                assert(group_total(lines.take(i + 1), m, k) == group_total(
                    lines.take(i as int),
                    m,
                    k,
                ) + inc);
                lemma_group_total_take_mono(lines, m, k, i + 1);
                lemma_group_total_nonneg(lines.take(i as int), m, k);
                assert(spec_agg(lines.take(i + 1), m) == spec_insert(cur, k, entry_amount));
            }
            let mut j: usize = 0;
            while j < items.len() && str_lt(items[j].name.as_str(), key.as_str())
                invariant
                    j <= items@.len(),
                    k == key@,
                    cur == items_view(items@),
                    forall|i2: int| 0 <= i2 < j ==> lex_lt(#[trigger] cur[i2].name, k),
                decreases items@.len() - j,
            {
                j = j + 1;
            }
            proof {
                lemma_insert_at(cur, k, entry_amount, j as int);
            }
            if j < items.len() && str_eq(items[j].name.as_str(), key.as_str()) {
                let old_amount = items[j].amount;
                proof {
                    assert(cur[j as int].name == k);
                    assert(magnitude(old_amount) == group_total(lines.take(i as int), m, k));
                }
                match old_amount.add(entry_amount) {
                    Ok(summed) => {
                        let mut it = items.remove(j);
                        it.amount = summed;
                        items.insert(j, it);
                        proof {
                            let ghost l2 = cur.update(
                                j as int,
                                ItemSpec { name: k, amount: amount_sum(old_amount, entry_amount) },
                            );
                            assert(items_view(items@) =~= l2);
                            assert(same_kind(entry_amount, old_amount));
                            assert(spec_agg(lines.take(i + 1), m) == Ok::<
                                Seq<ItemSpec>,
                                Seq<char>,
                            >(l2));
                            lemma_names_preserved(cur, l2);
                            assert(magnitude(amount_sum(old_amount, entry_amount)) == magnitude(
                                old_amount,
                            ) + inc);
                            assert forall|j2: int| 0 <= j2 < l2.len() implies magnitude(
                                #[trigger] l2[j2].amount,
                            ) == group_total(lines.take(i + 1), m, l2[j2].name) by {
                                if j2 != j {
                                    assert(l2[j2] == cur[j2]);
                                    lemma_sorted_distinct(cur, j2, j as int);
                                }
                            }
                            assert forall|k2: Seq<char>|
                                !has_name(l2, k2) implies #[trigger] group_total(
                                lines.take(i + 1),
                                m,
                                k2,
                            ) == 0 by {
                                assert(!has_name(cur, k2));
                                assert(k2 != k) by {
                                    assert(cur[j as int].name == k);
                                }
                                assert(group_total(lines.take(i as int), m, k2) == 0);
                            }
                        }
                    },
                    Err(_) => {
                        proof {
                            assert(!same_kind(entry_amount, old_amount));
                            assert(spec_agg(lines.take(i + 1), m) == Err::<
                                Seq<ItemSpec>,
                                Seq<char>,
                            >(k));
                            lemma_agg_err_propagates(lines, m, i + 1);
                        }
                        return Err(Error::UnitMismatch(key));
                    },
                }
            } else {
                proof {
                    if j < items@.len() {
                        assert(cur[j as int].name != k);
                    }
                    lemma_insert_sorted(cur, k, entry_amount, j as int);
                }
                items.insert(j, ShoppingListItem { amount: entry_amount, name: key });
                proof {
                    let ghost l2 = cur.insert(j as int, ItemSpec { name: k, amount: entry_amount });
                    assert(items_view(items@) =~= l2);
                    assert(spec_agg(lines.take(i + 1), m) == Ok::<Seq<ItemSpec>, Seq<char>>(l2));
                    assert(group_total(lines.take(i as int), m, k) == 0);
                    assert forall|j2: int| 0 <= j2 < l2.len() implies magnitude(
                        #[trigger] l2[j2].amount,
                    ) == group_total(lines.take(i + 1), m, l2[j2].name) by {
                        if j2 < j {
                            assert(l2[j2] == cur[j2]);
                            assert(cur[j2].name != k) by {
                                assert(has_name(cur, cur[j2].name));
                            }
                        } else if j2 > j {
                            assert(l2[j2] == cur[j2 - 1]);
                            assert(cur[j2 - 1].name != k) by {
                                assert(has_name(cur, cur[j2 - 1].name));
                            }
                        }
                    }
                    assert forall|k2: Seq<char>|
                        !has_name(l2, k2) implies #[trigger] group_total(
                        lines.take(i + 1),
                        m,
                        k2,
                    ) == 0 by {
                        assert(has_name(l2, k2) == (has_name(cur, k2) || k2 == k));
                        assert(!has_name(cur, k2) && k2 != k);
                        assert(group_total(lines.take(i as int), m, k2) == 0);
                    }
                }
            }
            i = i + 1;
        }
        proof {
            assert(lines.take(n as int) =~= lines);
        }
        Ok(SortedZettel { zettel: items })
    }
}

/// The amount of `a`'s kind whose magnitude is `v`.
pub open spec fn with_magnitude(a: Amount, v: int) -> Amount
    recommends
        0 <= v <= usize::MAX,
{
    match a {
        Amount::Count(_) => Amount::Count(v as usize),
        Amount::Grams(_) => Amount::Grams(v as usize),
        Amount::Millis(_) => Amount::Millis(v as usize),
    }
}

/// Entries of one canonical name and one kind aggregate to exactly one
/// item: that name, that kind, and the arithmetic sum of the
/// magnitudes, absent amounts counting one piece each.
pub proof fn lemma_aggregate_single_group(
    entries: Seq<LineSpec>,
    m: Map<Seq<char>, Seq<char>>,
    k: Seq<char>,
)
    requires
        entries.len() > 0,
        forall|j: int|
            0 <= j < entries.len() ==> spec_normalize(m, #[trigger] entries[j].name) == k,
        forall|j: int|
            0 <= j < entries.len() ==> same_kind(
                default_amount(#[trigger] entries[j].amount),
                default_amount(entries[0].amount),
            ),
        group_total(entries, m, k) <= usize::MAX,
    ensures
        spec_agg(entries, m) == Ok::<Seq<ItemSpec>, Seq<char>>(
            seq![
                ItemSpec {
                    name: k,
                    amount: with_magnitude(
                        default_amount(entries[0].amount),
                        group_total(entries, m, k),
                    ),
                },
            ],
        ),
    decreases entries.len(),
{
    let a0 = default_amount(entries[0].amount);
    let last = default_amount(entries.last().amount);
    lemma_group_total_nonneg(entries.drop_last(), m, k);
    assert(spec_normalize(m, entries.last().name) == k);
    assert(group_total(entries, m, k) == group_total(entries.drop_last(), m, k) + magnitude(last));
    if entries.len() == 1 {
        assert(entries.drop_last() =~= Seq::<LineSpec>::empty());
        assert(spec_agg(entries.drop_last(), m) == Ok::<Seq<ItemSpec>, Seq<char>>(Seq::empty()));
        assert(spec_insert(Seq::empty(), k, last) == Ok::<Seq<ItemSpec>, Seq<char>>(
            seq![ItemSpec { name: k, amount: last }],
        ));
        assert(with_magnitude(a0, group_total(entries, m, k)) == last);
    } else {
        let prefix = entries.drop_last();
        assert(forall|j: int|
            0 <= j < prefix.len() ==> spec_normalize(m, #[trigger] prefix[j].name) == k);
        assert(forall|j: int|
            0 <= j < prefix.len() ==> same_kind(
                default_amount(#[trigger] prefix[j].amount),
                default_amount(prefix[0].amount),
            ));
        lemma_aggregate_single_group(prefix, m, k);
        let total_pre = group_total(prefix, m, k);
        let acc = with_magnitude(a0, total_pre);
        lemma_lex_asym(k, k);
        assert(same_kind(last, a0));
        assert(same_kind(last, acc));
        assert(spec_insert(seq![ItemSpec { name: k, amount: acc }], k, last) == Ok::<
            Seq<ItemSpec>,
            Seq<char>,
        >(seq![ItemSpec { name: k, amount: amount_sum(acc, last) }] + seq![
            ItemSpec { name: k, amount: acc },
        ].skip(1)));
        assert(seq![ItemSpec { name: k, amount: amount_sum(acc, last) }] + seq![
            ItemSpec { name: k, amount: acc },
        ].skip(1) =~= seq![ItemSpec { name: k, amount: amount_sum(acc, last) }]);
        assert(amount_sum(acc, last) == with_magnitude(a0, group_total(entries, m, k)));
    }
}

/// The lines that read back an aggregated list: each item as one entry
/// with its amount present.
pub open spec fn items_as_lines(items: Seq<ItemSpec>) -> Seq<LineSpec> {
    items.map_values(|it: ItemSpec| LineSpec { amount: Some(it.amount), name: it.name })
}

/// Aggregation is idempotent: a list that is already aggregated — one
/// entry per name, sorted, every name its own canonical form — comes
/// back unchanged.
pub proof fn lemma_aggregate_idempotent(items: Seq<ItemSpec>, m: Map<Seq<char>, Seq<char>>)
    requires
        sorted_strict(items),
        forall|j: int|
            0 <= j < items.len() ==> spec_normalize(m, #[trigger] items[j].name) == items[j].name,
    ensures
        spec_agg(items_as_lines(items), m) == Ok::<Seq<ItemSpec>, Seq<char>>(items),
    decreases items.len(),
{
    let entries = items_as_lines(items);
    if items.len() == 0 {
        assert(entries =~= Seq::<LineSpec>::empty());
        assert(items =~= Seq::<ItemSpec>::empty());
    } else {
        let prefix = items.drop_last();
        assert(entries.drop_last() =~= items_as_lines(prefix));
        lemma_aggregate_idempotent(prefix, m);
        let k = items.last().name;
        let a = items.last().amount;
        assert(entries.last() == LineSpec { amount: Some(a), name: k });
        assert(spec_normalize(m, k) == k);
        assert(forall|i2: int| 0 <= i2 < prefix.len() ==> lex_lt(#[trigger] prefix[i2].name, k));
        lemma_insert_at(prefix, k, a, prefix.len() as int);
        assert(prefix.insert(prefix.len() as int, ItemSpec { name: k, amount: a }) =~= items);
        assert(spec_agg(entries.drop_last(), m) == Ok::<Seq<ItemSpec>, Seq<char>>(prefix));
        assert(spec_insert(prefix, k, a) == Ok::<Seq<ItemSpec>, Seq<char>>(items));
        assert(entries.len() > 0);
        assert(spec_agg(entries, m) == spec_insert(
            prefix,
            spec_normalize(m, entries.last().name),
            default_amount(entries.last().amount),
        ));
        assert(spec_normalize(m, entries.last().name) == k);
        assert(default_amount(entries.last().amount) == a);
    }
}

/// The textual form of one item: the amount, a space, and the name —
/// or the bare name when the amount is a single count.
pub open spec fn spec_render_item(iv: ItemSpec) -> Seq<char> {
    if iv.amount == Amount::Count(1) {
        iv.name
    } else {
        spec_render_amount(iv.amount) + seq![' '] + iv.name
    }
}

/// The textual form of an aggregated list: one line per item.
pub open spec fn spec_render_sorted(l: Seq<ItemSpec>) -> Seq<char>
    decreases l.len(),
{
    if l.len() == 0 {
        Seq::empty()
    } else {
        spec_render_sorted(l.drop_last()) + spec_render_item(l.last()) + seq!['\n']
    }
}

impl ShoppingListItem {
    /// Renders the item as [`spec_render_item`] writes it.
    pub fn render(&self) -> (r: String)
        ensures
            r@ == spec_render_item(self@),
    {
        if self.amount == Amount::Count(1) {
            self.name.clone()
        } else {
            let mut out = self.amount.render();
            out.append(" ");
            out.append(self.name.as_str());
            proof {
                reveal_strlit(" ");
                assert(out@ =~= spec_render_item(self@));
            }
            out
        }
    }
}

impl SortedZettel {
    /// Renders the aggregated list as [`spec_render_sorted`] writes it:
    /// one line per item, in sorted order.
    pub fn render(&self) -> (r: String)
        ensures
            r@ == spec_render_sorted(self@),
    {
        let mut out = String::new();
        let n = self.zettel.len();
        let mut i: usize = 0;
        proof {
            assert(items_view(self.zettel@).take(0) =~= Seq::<ItemSpec>::empty());
        }
        while i < n
            invariant
                i <= n,
                n == self.zettel@.len(),
                out@ == spec_render_sorted(items_view(self.zettel@).take(i as int)),
            decreases n - i,
        {
            let line = self.zettel[i].render();
            out.append(line.as_str());
            out.append("\n");
            proof {
                reveal_strlit("\n");
                let l = items_view(self.zettel@);
                assert(l.take(i + 1).drop_last() =~= l.take(i as int));
                assert(l.take(i + 1).last() == l[i as int]);
                assert(out@ =~= spec_render_sorted(l.take(i + 1)));
            }
            i = i + 1;
        }
        proof {
            assert(items_view(self.zettel@).take(n as int) =~= items_view(self.zettel@));
        }
        out
    }

    /// The aggregated items, sorted by canonical name.
    pub fn items(&self) -> (r: &Vec<ShoppingListItem>)
        ensures
            items_view(r@) == self@,
    {
        &self.zettel
    }
}

} // verus!
