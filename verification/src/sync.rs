//! Registry synchronizer.
//!
//! Given the flattened, order-preserving sequence of descriptor value
//! names drawn from every language's configuration subtree and the
//! existing substitution rows, the synchronizer recomputes the two
//! interdependent registry trees: it prunes every substitution row whose
//! target keyboard id no longer appears among the configured items, and
//! rebuilds the preload list wholesale — ordinal `i+1` maps to the item's
//! locale id when a surviving substitution row is keyed by it
//! (substitution wins), and to the item's keyboard id otherwise.
//!
//! The functions here are pure: they take a snapshot of the registry state
//! and return a plan (rows to delete, rows that survive, the new preload
//! values). Applying the plan — deleting the named substitution values,
//! clearing the old preload values and writing the new ones — is plain
//! registry I/O and stays outside the library.

use vstd::prelude::*;
use vstd::seq_lib::*;
use vstd::string::*;

use crate::codec::{is_item_str, item_of_str, InputListItem};
use crate::hexnum::{dec_str, dec_string, hex_str, hex_string};

verus! {

/// One row of the substitution table: value name (8-hex fallback/locale
/// id) and data (8-hex keyboard id). Both are kept as raw strings: the
/// registry may hold rows that are not well-formed hex, and those must
/// survive comparison (and pruning) byte for byte.
#[derive(Debug)]
pub struct Substitute {
    pub name: String,
    pub data: String,
}

impl Substitute {
    /// A copy with the same name and data.
    pub fn duplicate(&self) -> (r: Substitute)
        ensures
            r == *self,
    {
        Substitute { name: self.name.clone(), data: self.data.clone() }
    }
}

/// One value of the rebuilt preload list: ordinal name ("1", "2", ...)
/// and the id string the OS should look up.
#[derive(Debug)]
pub struct PreloadEntry {
    pub name: String,
    pub value: String,
}

/// The outcome of one synchronizer run over a state snapshot.
#[derive(Debug)]
pub struct RegenerationPlan {
    /// Substitution rows to delete: their target keyboard id matches no
    /// configured item.
    pub deleted: Vec<Substitute>,
    /// Substitution rows that survive the pruning, in their original order.
    pub retained: Vec<Substitute>,
    /// The preload list to write after clearing every existing value.
    pub preload: Vec<PreloadEntry>,
}

/// The items denoted by the raw value names, in order; names that are not
/// well-formed descriptors are ignored as unrelated registry noise.
pub open spec fn parsed_items(names: Seq<Seq<char>>) -> Seq<InputListItem>
    decreases names.len(),
{
    if names.len() == 0 {
        Seq::empty()
    } else {
        let rest = parsed_items(names.drop_last());
        if is_item_str(names.last()) {
            rest.push(item_of_str(names.last()))
        } else {
            rest
        }
    }
}

/// Some configured item's keyboard id, written as 8 lowercase hex digits,
/// equals the row's data.
pub open spec fn sub_matches_items(items: Seq<InputListItem>, data: Seq<char>) -> bool {
    exists|i: int|
        0 <= i < items.len() && hex_str((#[trigger] items[i]).tip_id as nat, 8) == data
}

/// The rows whose target keyboard id is still configured, in order.
pub open spec fn retained_subs(subs: Seq<Substitute>, items: Seq<InputListItem>) -> Seq<
    Substitute,
> {
    subs.filter(|s: Substitute| sub_matches_items(items, s.data@))
}

/// The rows to prune, in order.
pub open spec fn deleted_subs(subs: Seq<Substitute>, items: Seq<InputListItem>) -> Seq<
    Substitute,
> {
    subs.filter(|s: Substitute| !sub_matches_items(items, s.data@))
}

/// Some row is keyed by this locale id written as 8 lowercase hex digits.
pub open spec fn has_sub_for_lang(subs: Seq<Substitute>, lang_id: u16) -> bool {
    exists|j: int| 0 <= j < subs.len() && (#[trigger] subs[j]).name@ == hex_str(lang_id as nat, 8)
}

/// The value preload ordinal `i+1` receives for item `i`: the locale id
/// when a substitution row is keyed by it — an explicit locale substitute
/// always wins — and the keyboard id otherwise.
pub open spec fn preload_value(subs: Seq<Substitute>, it: InputListItem) -> Seq<char> {
    if has_sub_for_lang(subs, it.lang_id) {
        hex_str(it.lang_id as nat, 8)
    } else {
        hex_str(it.tip_id as nat, 8)
    }
}

/// The plan a snapshot regenerates to.
pub open spec fn plan_matches(
    plan: RegenerationPlan,
    names: Seq<Seq<char>>,
    subs: Seq<Substitute>,
) -> bool {
    let items = parsed_items(names);
    let retained = retained_subs(subs, items);
    &&& plan.retained@ == retained
    &&& plan.deleted@ == deleted_subs(subs, items)
    &&& plan.preload@.len() == items.len()
    &&& forall|i: int|
        0 <= i < items.len() ==> (#[trigger] plan.preload@[i]).name@ == dec_str((i + 1) as nat)
            && plan.preload@[i].value@ == preload_value(retained, items[i])
}

fn string_eq(a: &String, b: &String) -> (r: bool)
    ensures
        r == (a@ == b@),
{
    a.eq(b)
}

fn item_matches(items: &Vec<InputListItem>, data: &String) -> (r: bool)
    ensures
        r == sub_matches_items(items@, data@),
{
    let mut j: usize = 0;
    while j < items.len()
        invariant
            j <= items@.len(),
            forall|k: int|
                0 <= k < j ==> hex_str((#[trigger] items@[k]).tip_id as nat, 8) != data@,
        decreases items@.len() - j,
    {
        let t = hex_string(items[j].tip_id, 8);
        if string_eq(&t, data) {
            return true;
        }
        j = j + 1;
    }
    false
}

fn has_lang_sub(subs: &Vec<Substitute>, lang_id: u16) -> (r: bool)
    ensures
        r == has_sub_for_lang(subs@, lang_id),
{
    let key = hex_string(lang_id as u32, 8);
    let mut j: usize = 0;
    while j < subs.len()
        invariant
            j <= subs@.len(),
            key@ == hex_str(lang_id as nat, 8),
            forall|k: int| 0 <= k < j ==> (#[trigger] subs@[k]).name@ != hex_str(lang_id as nat, 8),
        decreases subs@.len() - j,
    {
        if string_eq(&subs[j].name, &key) {
            return true;
        }
        j = j + 1;
    }
    false
}

proof fn lemma_partition_step(subs: Seq<Substitute>, j: int, items: Seq<InputListItem>)
    requires
        0 <= j < subs.len(),
    ensures
        retained_subs(subs.take(j + 1), items) == if sub_matches_items(items, subs[j].data@) {
            retained_subs(subs.take(j), items).push(subs[j])
        } else {
            retained_subs(subs.take(j), items)
        },
        deleted_subs(subs.take(j + 1), items) == if sub_matches_items(items, subs[j].data@) {
            deleted_subs(subs.take(j), items)
        } else {
            deleted_subs(subs.take(j), items).push(subs[j])
        },
{
    reveal(Seq::filter);
    assert(subs.take(j + 1).drop_last() =~= subs.take(j));
    assert(subs.take(j + 1).last() == subs[j]);
}

/// Recomputes the substitution and preload trees from a snapshot: `names`
/// is the flattened sequence of raw value names under every language's
/// subtree, `subs` the existing substitution rows in enumeration order.
pub fn regenerate(names: &Vec<String>, subs: &Vec<Substitute>) -> (plan: RegenerationPlan)
    ensures
        plan_matches(plan, names.deep_view(), subs@),
{
    let ghost ns = names.deep_view();

    // Step 1: parse the configured items out of the raw value names.
    let mut items: Vec<InputListItem> = Vec::new();
    let mut i: usize = 0;
    while i < names.len()
        invariant
            i <= names@.len(),
            ns == names.deep_view(),
            ns.len() == names@.len(),
            forall|k: int| 0 <= k < ns.len() ==> #[trigger] ns[k] == names@[k]@,
            items@ == parsed_items(ns.take(i as int)),
        decreases names@.len() - i,
    {
        proof {
            assert(ns.take(i + 1).drop_last() =~= ns.take(i as int));
            assert(ns.take(i + 1).last() == ns[i as int]);
        }
        match crate::codec::InputListItem::parse(names[i].as_str()) {
            Ok(it) => {
                items.push(it);
            },
            Err(_) => {},
        }
        i = i + 1;
    }
    proof {
        assert(ns.take(ns.len() as int) =~= ns);
    }
    let ghost item_seq = parsed_items(ns);

    // Step 2: prune — partition the rows by whether their target keyboard
    // id is the id of some configured item.
    let mut retained: Vec<Substitute> = Vec::new();
    let mut deleted: Vec<Substitute> = Vec::new();
    let mut j: usize = 0;
    while j < subs.len()
        invariant
            j <= subs@.len(),
            items@ == item_seq,
            retained@ == retained_subs(subs@.take(j as int), item_seq),
            deleted@ == deleted_subs(subs@.take(j as int), item_seq),
        decreases subs@.len() - j,
    {
        proof {
            lemma_partition_step(subs@, j as int, item_seq);
        }
        if item_matches(&items, &subs[j].data) {
            retained.push(subs[j].duplicate());
        } else {
            deleted.push(subs[j].duplicate());
        }
        j = j + 1;
    }
    proof {
        assert(subs@.take(subs@.len() as int) =~= subs@);
    }

    // Step 3 and 4: the old preload values are cleared unconditionally
    // (the plan replaces the whole list, so ordinals never drift), then
    // ordinal i+1 is assigned the substitution key when one survives for
    // the item's locale id, and the keyboard id otherwise.
    let mut preload: Vec<PreloadEntry> = Vec::new();
    let mut k: usize = 0;
    while k < items.len()
        invariant
            k <= items@.len(),
            items@ == item_seq,
            retained@ == retained_subs(subs@, item_seq),
            preload@.len() == k,
            forall|m: int|
                0 <= m < k ==> (#[trigger] preload@[m]).name@ == dec_str((m + 1) as nat)
                    && preload@[m].value@ == preload_value(retained_subs(subs@, item_seq), item_seq[m]),
        decreases items@.len() - k,
    {
        let it = items[k];
        let value = if has_lang_sub(&retained, it.lang_id) {
            hex_string(it.lang_id as u32, 8)
        } else {
            hex_string(it.tip_id, 8)
        };
        let name = dec_string(k + 1);
        preload.push(PreloadEntry { name, value });
        k = k + 1;
    }

    RegenerationPlan { deleted, retained, preload }
}

/// Every language subtree's value names, concatenated in subtree
/// enumeration order with per-language order kept.
pub open spec fn flattened(per_lang: Seq<Seq<Seq<char>>>) -> Seq<Seq<char>>
    decreases per_lang.len(),
{
    if per_lang.len() == 0 {
        Seq::empty()
    } else {
        flattened(per_lang.drop_last()) + per_lang.last()
    }
}

/// Flattens each language's value names into the one ordered sequence the
/// synchronizer consumes.
pub fn flatten_inputs(per_lang: &Vec<Vec<String>>) -> (r: Vec<String>)
    ensures
        r.deep_view() == flattened(per_lang.deep_view()),
{
    let ghost pl = per_lang.deep_view();
    let mut out: Vec<String> = Vec::new();
    let mut i: usize = 0;
    while i < per_lang.len()
        invariant
            i <= per_lang@.len(),
            pl == per_lang.deep_view(),
            pl.len() == per_lang@.len(),
            forall|k: int| 0 <= k < pl.len() ==> #[trigger] pl[k] == per_lang@[k].deep_view(),
            out.deep_view() == flattened(pl.take(i as int)),
        decreases per_lang@.len() - i,
    {
        let inner = &per_lang[i];
        let mut j: usize = 0;
        while j < inner.len()
            invariant
                j <= inner@.len(),
                inner@ == per_lang@[i as int]@,
                i < pl.len() == per_lang@.len(),
                pl == per_lang.deep_view(),
                forall|k: int| 0 <= k < pl.len() ==> #[trigger] pl[k] == per_lang@[k].deep_view(),
                out.deep_view() == flattened(pl.take(i as int)) + pl[i as int].take(j as int),
            decreases inner@.len() - j,
        {
            let ghost before = out.deep_view();
            out.push(inner[j].clone());
            proof {
                assert(out.deep_view() =~= before.push(inner@[j as int]@));
                assert(pl[i as int].take(j + 1) =~= pl[i as int].take(j as int).push(
                    inner@[j as int]@,
                ));
                assert(out.deep_view() =~= flattened(pl.take(i as int)) + pl[i as int].take(j + 1));
            }
            j = j + 1;
        }
        proof {
            assert(pl.take(i + 1).drop_last() =~= pl.take(i as int));
            assert(pl.take(i + 1).last() == pl[i as int]);
            assert(pl[i as int].take(pl[i as int].len() as int) =~= pl[i as int]);
            assert(out.deep_view() =~= flattened(pl.take(i + 1)));
        }
        i = i + 1;
    }
    proof {
        assert(pl.take(pl.len() as int) =~= pl);
    }
    out
}

proof fn lemma_filter_all<A>(s: Seq<A>, pred: spec_fn(A) -> bool)
    requires
        forall|i: int| 0 <= i < s.len() ==> pred(#[trigger] s[i]),
    ensures
        s.filter(pred) == s,
    decreases s.len(),
{
    reveal(Seq::filter);
    if s.len() == 0 {
        assert(s.filter(pred) =~= s);
    } else {
        assert(forall|i: int|
            0 <= i < s.drop_last().len() ==> pred(#[trigger] s.drop_last()[i]));
        lemma_filter_all(s.drop_last(), pred);
        assert(s.filter(pred) =~= s);
    }
}

proof fn lemma_filter_none<A>(s: Seq<A>, pred: spec_fn(A) -> bool)
    requires
        forall|i: int| 0 <= i < s.len() ==> !pred(#[trigger] s[i]),
    ensures
        s.filter(pred) == Seq::<A>::empty(),
    decreases s.len(),
{
    reveal(Seq::filter);
    if s.len() == 0 {
        assert(s.filter(pred) =~= Seq::<A>::empty());
    } else {
        assert(forall|i: int|
            0 <= i < s.drop_last().len() ==> !pred(#[trigger] s.drop_last()[i]));
        lemma_filter_none(s.drop_last(), pred);
        assert(s.filter(pred) =~= Seq::<A>::empty());
    }
}

/// Every substitution row that survives the pruning names a target
/// keyboard id that appears among the currently configured items.
pub proof fn lemma_retained_subs_match(subs: Seq<Substitute>, items: Seq<InputListItem>)
    ensures
        forall|i: int|
            0 <= i < retained_subs(subs, items).len() ==> sub_matches_items(
                items,
                (#[trigger] retained_subs(subs, items)[i]).data@,
            ),
{
    assert forall|i: int| 0 <= i < retained_subs(subs, items).len() implies sub_matches_items(
        items,
        (#[trigger] retained_subs(subs, items)[i]).data@,
    ) by {
        subs.lemma_filter_pred(|s: Substitute| sub_matches_items(items, s.data@), i);
    }
}

/// Regeneration is idempotent: running the synchronizer again on the state
/// it produced — the same configured items, with the substitution table
/// now holding exactly the surviving rows — deletes nothing, retains every
/// row, and assigns every preload ordinal the same value as the first run.
pub proof fn lemma_regeneration_idempotent(names: Seq<Seq<char>>, subs: Seq<Substitute>)
    ensures
        retained_subs(retained_subs(subs, parsed_items(names)), parsed_items(names))
            == retained_subs(subs, parsed_items(names)),
        deleted_subs(retained_subs(subs, parsed_items(names)), parsed_items(names))
            == Seq::<Substitute>::empty(),
        forall|it: InputListItem|
            preload_value(
                retained_subs(retained_subs(subs, parsed_items(names)), parsed_items(names)),
                it,
            ) == #[trigger] preload_value(retained_subs(subs, parsed_items(names)), it),
{
    let items = parsed_items(names);
    let keep = |s: Substitute| sub_matches_items(items, s.data@);
    let retained = retained_subs(subs, items);
    assert(forall|i: int| 0 <= i < retained.len() ==> keep(#[trigger] retained[i])) by {
        broadcast use vstd::seq_lib::group_filter_ensures;

    }
    lemma_filter_all(retained, keep);
    lemma_filter_none(retained, |s: Substitute| !sub_matches_items(items, s.data@));
}

} // verus!
