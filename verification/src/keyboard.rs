//! Keyboard enable and cleanup workflows.
//!
//! `enable` takes a snapshot of the installed keyboard records, the
//! enabled languages and the per-language keyboard lists, and computes the
//! updated configuration: the language activated if it was not, and the
//! new descriptor appended to its list if it was not already present.
//! `install_sequence` orders the per-language reinstall calls: the first
//! language whose locale id resolved is installed with the reset mode —
//! a whole-system clear — and every later one with the additive mode.
//! `remove_invalid_kbids` applies the cleanup retention rule to the
//! enabled items. Performing the OS calls themselves stays outside the
//! library.

use vstd::prelude::*;
use vstd::string::*;

use crate::codec::{
    all_item_strs, dedup_first, distinct_items, item_str, items_of_strs, str_eq, Error,
    InputList, InputListItem,
};
use crate::config::{kbs_view, tag_eq, tag_in, tag_matches, LangKeyboards};
use crate::hexnum::{all_hex, hex_str, hex_val, lemma_hex_val_bound, parse_hex};

verus! {

/// One installed keyboard layout's registry record.
#[derive(Debug)]
pub struct KeyboardRecord {
    /// Product code GUID identifying the installable package.
    pub product_code: String,
    /// 8-hex-digit registry key id: the keyboard's tip id.
    pub regkey_id: String,
    /// Name of the keyboard DLL.
    pub layout_dll: String,
    /// Human-readable layout name.
    pub layout_name: String,
}

/// How one language's input list is handed to the OS install call.
#[derive(Clone, Copy, Debug, PartialEq, Eq, Structural)]
pub enum InstallMode {
    /// Clears all stale OS-side input state before installing; used for
    /// the first language only, because the clear is system-wide.
    Reset,
    /// Adds to the already installed state; used for every later language.
    Additive,
}

/// The OS-specific flag value a mode translates to at the call boundary.
pub open spec fn mode_flag(m: InstallMode) -> u32 {
    match m {
        InstallMode::Reset => 256,
        InstallMode::Additive => 0,
    }
}

impl InstallMode {
    /// The flag value for the OS install call.
    pub fn flag(&self) -> (r: u32)
        ensures
            r == mode_flag(*self),
    {
        match self {
            InstallMode::Reset => 256,
            InstallMode::Additive => 0,
        }
    }
}

/// Finds the first installed record whose product code equals `product_code`.
pub fn find_by_product_code(records: &Vec<KeyboardRecord>, product_code: &str) -> (r: Option<
    usize,
>)
    ensures
        match r {
            Some(i) => i < records@.len() && records@[i as int].product_code@ == product_code@
                && forall|k: int|
                0 <= k < i ==> (#[trigger] records@[k]).product_code@ != product_code@,
            None => forall|k: int|
                0 <= k < records@.len() ==> (#[trigger] records@[k]).product_code@
                    != product_code@,
        },
{
    let mut i: usize = 0;
    while i < records.len()
        invariant
            i <= records@.len(),
            forall|k: int| 0 <= k < i ==> (#[trigger] records@[k]).product_code@ != product_code@,
        decreases records@.len() - i,
    {
        if str_eq(records[i].product_code.as_str(), product_code) {
            return Some(i);
        }
        i = i + 1;
    }
    None
}

/// The snapshot after one method string is filed under a tag: the first
/// entry naming the language gets the string appended unless its list
/// already holds it; with no such entry, a new one is added at the end.
pub open spec fn with_method(
    kbs: Seq<(Seq<char>, Seq<Seq<char>>)>,
    tag: Seq<char>,
    m: Seq<char>,
) -> Seq<(Seq<char>, Seq<Seq<char>>)>
    decreases kbs.len(),
{
    if kbs.len() == 0 {
        seq![(tag, seq![m])]
    } else if tag_eq(kbs.first().0, tag) {
        seq![
            (
                kbs.first().0,
                if kbs.first().1.contains(m) {
                    kbs.first().1
                } else {
                    kbs.first().1.push(m)
                },
            ),
        ] + kbs.drop_first()
    } else {
        seq![kbs.first()] + with_method(kbs.drop_first(), tag, m)
    }
}

/// The updated configuration the enable workflow computes.
#[derive(Debug)]
pub struct EnablePlan {
    /// The enabled languages, with the requested tag activated.
    pub languages: Vec<String>,
    /// The per-language keyboard lists, with the new descriptor filed.
    pub keyboards: Vec<LangKeyboards>,
    /// The composed descriptor, in canonical lowercase form.
    pub descriptor: String,
}

fn methods_contain(methods: &Vec<String>, m: &String) -> (r: bool)
    ensures
        r == methods.deep_view().contains(m@),
{
    let mut i: usize = 0;
    while i < methods.len()
        invariant
            i <= methods@.len(),
            methods.deep_view().len() == methods@.len(),
            forall|k: int|
                0 <= k < methods@.len() ==> #[trigger] methods.deep_view()[k] == methods@[k]@,
            forall|k: int| 0 <= k < i ==> methods.deep_view()[k] != m@,
        decreases methods@.len() - i,
    {
        if str_eq(methods[i].as_str(), m.as_str()) {
            proof {
                assert(methods.deep_view()[i as int] == m@);
            }
            return true;
        }
        i = i + 1;
    }
    proof {
        if methods.deep_view().contains(m@) {
            let k = choose|k: int|
                0 <= k < methods.deep_view().len() && methods.deep_view()[k] == m@;
            assert(methods.deep_view()[k] == m@);
        }
    }
    false
}

proof fn lemma_kbs_view_index(kbs: Seq<LangKeyboards>)
    ensures
        kbs_view(kbs).len() == kbs.len(),
        forall|k: int| 0 <= k < kbs.len() ==> #[trigger] kbs_view(kbs)[k] == kbs[k].view_pair(),
{
}

proof fn lemma_with_method_found(
    kbs: Seq<(Seq<char>, Seq<Seq<char>>)>,
    tag: Seq<char>,
    m: Seq<char>,
    j: int,
)
    requires
        0 <= j < kbs.len(),
        tag_eq(kbs[j].0, tag),
        forall|k: int| 0 <= k < j ==> !tag_eq((#[trigger] kbs[k]).0, tag),
    ensures
        with_method(kbs, tag, m) == kbs.update(
            j,
            (
                kbs[j].0,
                if kbs[j].1.contains(m) {
                    kbs[j].1
                } else {
                    kbs[j].1.push(m)
                },
            ),
        ),
    decreases j,
{
    if j == 0 {
        assert(with_method(kbs, tag, m) =~= kbs.update(
            0,
            (
                kbs[0].0,
                if kbs[0].1.contains(m) {
                    kbs[0].1
                } else {
                    kbs[0].1.push(m)
                },
            ),
        ));
    } else {
        assert(!tag_eq(kbs.first().0, tag));
        assert(forall|k: int|
            0 <= k < j - 1 ==> !tag_eq((#[trigger] kbs.drop_first()[k]).0, tag));
        lemma_with_method_found(kbs.drop_first(), tag, m, j - 1);
        assert(with_method(kbs, tag, m) =~= kbs.update(
            j,
            (
                kbs[j].0,
                if kbs[j].1.contains(m) {
                    kbs[j].1
                } else {
                    kbs[j].1.push(m)
                },
            ),
        ));
    }
}

proof fn lemma_with_method_absent(kbs: Seq<(Seq<char>, Seq<Seq<char>>)>, tag: Seq<char>, m: Seq<char>)
    requires
        forall|k: int| 0 <= k < kbs.len() ==> !tag_eq((#[trigger] kbs[k]).0, tag),
    ensures
        with_method(kbs, tag, m) == kbs.push((tag, seq![m])),
    decreases kbs.len(),
{
    if kbs.len() == 0 {
        assert(with_method(kbs, tag, m) =~= kbs.push((tag, seq![m])));
    } else {
        assert(forall|k: int|
            0 <= k < kbs.drop_first().len() ==> !tag_eq((#[trigger] kbs.drop_first()[k]).0, tag));
        lemma_with_method_absent(kbs.drop_first(), tag, m);
        assert(with_method(kbs, tag, m) =~= kbs.push((tag, seq![m])));
    }
}

/// `ri` is the first index whose record's product code equals `code`.
pub open spec fn first_product_match(records: Seq<KeyboardRecord>, code: Seq<char>, ri: int) -> bool {
    &&& 0 <= ri < records.len()
    &&& records[ri].product_code@ == code
    &&& forall|k: int| 0 <= k < ri ==> (#[trigger] records[k]).product_code@ != code
}

/// Enables a keyboard for a language. Looks the product code up among the
/// installed records (`Error::NotFound` when no record matches), reads the
/// record's 8-hex keyboard id (`Error::FormatError` when malformed),
/// activates the language if it was inactive, composes the descriptor
/// `(lcid, keyboard id)` and appends it to that language's list if not
/// already present. `lcid` is the locale id an external resolver gave for
/// `tag`.
pub fn enable(
    tag: &str,
    product_code: &str,
    lcid: u16,
    records: &Vec<KeyboardRecord>,
    langs: &Vec<String>,
    keyboards: &Vec<LangKeyboards>,
) -> (r: Result<EnablePlan, Error>)
    ensures
        match r {
            Ok(plan) => exists|ri: int|
                #[trigger] first_product_match(records@, product_code@, ri) && {
                    let rid = records@[ri].regkey_id@;
                    let item = InputListItem { lang_id: lcid, tip_id: hex_val(rid) as u32 };
                    &&& rid.len() == 8 && all_hex(rid)
                    &&& plan.descriptor@ == item_str(item)
                    &&& plan.languages.deep_view() == if tag_in(langs.deep_view(), tag@) {
                        langs.deep_view()
                    } else {
                        langs.deep_view().push(tag@)
                    }
                    &&& kbs_view(plan.keyboards@) == with_method(
                        kbs_view(keyboards@),
                        tag@,
                        item_str(item),
                    )
                },
            Err(Error::NotFound) => forall|k: int|
                0 <= k < records@.len() ==> (#[trigger] records@[k]).product_code@
                    != product_code@,
            Err(Error::FormatError) => exists|ri: int|
                #[trigger] first_product_match(records@, product_code@, ri) && !(records@[
                    ri].regkey_id@.len() == 8 && all_hex(records@[ri].regkey_id@)),
            Err(_) => false,
        },
{
    let ri = match find_by_product_code(records, product_code) {
        Some(i) => i,
        None => {
            return Err(Error::NotFound);
        },
    };
    let record = &records[ri];

    proof {
        assert(first_product_match(records@, product_code@, ri as int));
    }

    // The record's registry key id must be the keyboard's 8-hex tip id.
    if record.regkey_id.as_str().unicode_len() != 8 {
        return Err(Error::FormatError);
    }
    let tip = match parse_hex(record.regkey_id.as_str(), 0, 8) {
        Some(v) => v,
        None => {
            proof {
                assert(records@[ri as int].regkey_id@.subrange(0, 8) =~= records@[
                    ri as int].regkey_id@);
            }
            return Err(Error::FormatError);
        },
    };
    proof {
        assert(records@[ri as int].regkey_id@.subrange(0, 8) =~= records@[ri as int].regkey_id@);
    }
    let item = InputListItem { lang_id: lcid, tip_id: tip };
    let descriptor = item.format();

    // Activate the language if it is not active yet.
    let mut languages = crate::config::clone_strings(langs);
    if !crate::config::tags_contain(langs, tag) {
        languages.push(tag.to_owned());
        proof {
            assert(languages.deep_view() =~= langs.deep_view().push(tag@));
        }
    }

    // File the descriptor under the first entry naming the language,
    // appending a new entry when none does.
    let ghost old_view = kbs_view(keyboards@);
    let mut updated: Vec<LangKeyboards> = Vec::new();
    let mut i: usize = 0;
    let mut found: bool = false;
    let ghost mut found_at: int = 0;
    while i < keyboards.len()
        invariant
            i <= keyboards@.len(),
            old_view == kbs_view(keyboards@),
            old_view.len() == keyboards@.len(),
            forall|k: int|
                0 <= k < keyboards@.len() ==> #[trigger] old_view[k] == keyboards@[k].view_pair(),
            updated@.len() == i,
            !found ==> forall|k: int| 0 <= k < i ==> !tag_eq((#[trigger] old_view[k]).0, tag@),
            !found ==> kbs_view(updated@) == old_view.take(i as int),
            found ==> {
                &&& 0 <= found_at < i
                &&& tag_eq(old_view[found_at].0, tag@)
                &&& forall|k: int| 0 <= k < found_at ==> !tag_eq((#[trigger] old_view[k]).0, tag@)
                &&& kbs_view(updated@) == old_view.take(i as int).update(
                    found_at,
                    (
                        old_view[found_at].0,
                        if old_view[found_at].1.contains(descriptor@) {
                            old_view[found_at].1
                        } else {
                            old_view[found_at].1.push(descriptor@)
                        },
                    ),
                )
            },
        decreases keyboards@.len() - i,
    {
        let entry = &keyboards[i];
        let ghost before_vec = updated@;
        if !found && tag_matches(entry.tag.as_str(), tag) {
            let mut copy = entry.duplicate();
            if !methods_contain(&copy.methods, &descriptor) {
                copy.methods.push(descriptor.clone());
                proof {
                    assert(copy.methods.deep_view() =~= old_view[i as int].1.push(descriptor@));
                }
            }
            updated.push(copy);
            found = true;
            proof {
                found_at = i as int;
                lemma_kbs_view_index(before_vec);
                lemma_kbs_view_index(updated@);
                assert(kbs_view(updated@) =~~= old_view.take(i + 1).update(
                    i as int,
                    (
                        old_view[i as int].0,
                        if old_view[i as int].1.contains(descriptor@) {
                            old_view[i as int].1
                        } else {
                            old_view[i as int].1.push(descriptor@)
                        },
                    ),
                ));
            }
        } else {
            updated.push(entry.duplicate());
            proof {
                lemma_kbs_view_index(before_vec);
                lemma_kbs_view_index(updated@);
                assert(old_view[i as int] == keyboards@[i as int].view_pair());
                assert(updated@[i as int].view_pair() == old_view[i as int]);
                if !found {
                    assert(kbs_view(updated@) =~~= old_view.take(i + 1));
                } else {
                    let fixed = (
                        old_view[found_at].0,
                        if old_view[found_at].1.contains(descriptor@) {
                            old_view[found_at].1
                        } else {
                            old_view[found_at].1.push(descriptor@)
                        },
                    );
                    let target = old_view.take(i + 1).update(found_at, fixed);
                    assert forall|k: int| 0 <= k < i + 1 implies kbs_view(updated@)[k]
                        == target[k] by {
                        if k < i {
                            assert(updated@[k] == before_vec[k]);
                            assert(kbs_view(before_vec)[k] == old_view.take(i as int).update(
                                found_at,
                                fixed,
                            )[k]);
                        }
                    }
                    assert(kbs_view(updated@) =~= target);
                }
            }
        }
        i = i + 1;
    }
    proof {
        assert(old_view.take(old_view.len() as int) =~= old_view);
    }
    if !found {
        let fresh = LangKeyboards {
            tag: tag.to_owned(),
            methods: {
                let mut m: Vec<String> = Vec::new();
                m.push(descriptor.clone());
                m
            },
        };
        let ghost before_push = updated@;
        updated.push(fresh);
        proof {
            lemma_kbs_view_index(before_push);
            lemma_kbs_view_index(updated@);
            lemma_with_method_absent(old_view, tag@, descriptor@);
            assert(fresh.methods.deep_view() =~= seq![descriptor@]);
            assert(kbs_view(updated@) =~~= old_view.push((tag@, seq![descriptor@])));
        }
    } else {
        proof {
            lemma_with_method_found(old_view, tag@, descriptor@, found_at);
        }
    }
    proof {
        lemma_hex_val_bound(records@[ri as int].regkey_id@);
        crate::codec::lemma_pow16_4_8();
        assert(first_product_match(records@, product_code@, ri as int));
        assert(hex_val(records@[ri as int].regkey_id@) == tip as nat);
    }
    Ok(EnablePlan { languages, keyboards: updated, descriptor })
}

/// One OS install call of the reinstall sequence.
#[derive(Debug)]
pub struct InstallStep {
    /// The language's deduplicated input list.
    pub list: InputList,
    /// Reset for the first resolvable language, additive for the rest.
    pub mode: InstallMode,
}

/// The mathematical content of a step sequence.
pub open spec fn steps_view(steps: Seq<InstallStep>) -> Seq<(Seq<InputListItem>, InstallMode)> {
    Seq::new(steps.len(), |i: int| (steps[i].list@, steps[i].mode))
}

/// The expected reinstall sequence: one step per language whose locale id
/// resolved, in order, holding its deduplicated parsed list; the first
/// such step resets, all later ones add.
pub open spec fn install_steps(
    kbs: Seq<(Seq<char>, Seq<Seq<char>>)>,
    resolvable: Seq<bool>,
) -> Seq<(Seq<InputListItem>, InstallMode)>
    decreases kbs.len(),
{
    if kbs.len() == 0 {
        Seq::empty()
    } else {
        let prev = install_steps(kbs.drop_last(), resolvable.drop_last());
        if resolvable.len() == kbs.len() && resolvable.last() {
            prev.push(
                (
                    dedup_first(items_of_strs(kbs.last().1)),
                    if prev.len() == 0 {
                        InstallMode::Reset
                    } else {
                        InstallMode::Additive
                    },
                ),
            )
        } else {
            prev
        }
    }
}

/// Orders the per-language reinstall calls after all active inputs were
/// removed. `resolvable[i]` says whether the external resolver found a
/// locale id for `keyboards[i]`'s tag; a language without one is skipped.
/// Fails with `Error::FormatError` when a skipped-for-no language's stored
/// descriptor is malformed.
pub fn install_sequence(keyboards: &Vec<LangKeyboards>, resolvable: &Vec<bool>) -> (r: Result<
    Vec<InstallStep>,
    Error,
>)
    requires
        resolvable@.len() == keyboards@.len(),
    ensures
        match r {
            Ok(steps) => steps_view(steps@) == install_steps(kbs_view(keyboards@), resolvable@)
                && forall|k: int|
                0 <= k < keyboards@.len() && resolvable@[k] ==> all_item_strs(
                    (#[trigger] kbs_view(keyboards@)[k]).1,
                ),
            Err(e) => e == Error::FormatError && exists|k: int|
                0 <= k < keyboards@.len() && resolvable@[k] && !all_item_strs(
                    (#[trigger] kbs_view(keyboards@)[k]).1,
                ),
        },
{
    let ghost kv = kbs_view(keyboards@);
    let mut steps: Vec<InstallStep> = Vec::new();
    let mut i: usize = 0;
    while i < keyboards.len()
        invariant
            i <= keyboards@.len(),
            resolvable@.len() == keyboards@.len(),
            kv == kbs_view(keyboards@),
            kv.len() == keyboards@.len(),
            forall|k: int|
                0 <= k < keyboards@.len() ==> #[trigger] kv[k] == keyboards@[k].view_pair(),
            steps_view(steps@) == install_steps(kv.take(i as int), resolvable@.take(i as int)),
            forall|k: int|
                0 <= k < i && resolvable@[k] ==> all_item_strs((#[trigger] kv[k]).1),
        decreases keyboards@.len() - i,
    {
        proof {
            assert(kv.take(i + 1).drop_last() =~= kv.take(i as int));
            assert(resolvable@.take(i + 1).drop_last() =~= resolvable@.take(i as int));
            assert(kv.take(i + 1).last() == kv[i as int]);
        }
        if resolvable[i] {
            let list = match InputList::try_from_strings(&keyboards[i].methods) {
                Ok(l) => l,
                Err(e) => {
                    return Err(e);
                },
            };
            let mode = if steps.len() == 0 {
                InstallMode::Reset
            } else {
                InstallMode::Additive
            };
            steps.push(InstallStep { list, mode });
            proof {
                assert(steps_view(steps@) =~= install_steps(
                    kv.take(i + 1),
                    resolvable@.take(i + 1),
                ));
            }
        }
        i = i + 1;
    }
    proof {
        assert(kv.take(kv.len() as int) =~= kv);
        assert(resolvable@.take(resolvable@.len() as int) =~= resolvable@);
    }
    Ok(steps)
}

/// The cleanup retention rule: an item is kept when its keyboard id's
/// lowercase hex form begins with the custom-keyboard prefix `a` — a
/// user-authored layout, retained unconditionally — or when it equals an
/// installed record's registry key id.
pub open spec fn retain_item(installed: Seq<Seq<char>>, it: InputListItem) -> bool {
    hex_str(it.tip_id as nat, 8)[0] == 'a' || installed.contains(hex_str(it.tip_id as nat, 8))
}

fn strings_contain(v: &Vec<String>, s: &String) -> (r: bool)
    ensures
        r == v.deep_view().contains(s@),
{
    let mut i: usize = 0;
    while i < v.len()
        invariant
            i <= v@.len(),
            v.deep_view().len() == v@.len(),
            forall|k: int| 0 <= k < v@.len() ==> #[trigger] v.deep_view()[k] == v@[k]@,
            forall|k: int| 0 <= k < i ==> v.deep_view()[k] != s@,
        decreases v@.len() - i,
    {
        if str_eq(v[i].as_str(), s.as_str()) {
            proof {
                assert(v.deep_view()[i as int] == s@);
            }
            return true;
        }
        i = i + 1;
    }
    proof {
        if v.deep_view().contains(s@) {
            let k = choose|k: int| 0 <= k < v.deep_view().len() && v.deep_view()[k] == s@;
            assert(v.deep_view()[k] == s@);
        }
    }
    false
}

/// Whether the retention rule keeps this item.
pub fn item_retained(installed: &Vec<String>, it: InputListItem) -> (r: bool)
    ensures
        r == retain_item(installed.deep_view(), it),
{
    let tip_hex = crate::hexnum::hex_string(it.tip_id, 8);
    proof {
        crate::hexnum::lemma_hex_str_wf(it.tip_id as nat, 8);
    }
    let is_custom = tip_hex.as_str().get_char(0) == 'a';
    is_custom || strings_contain(installed, &tip_hex)
}

proof fn lemma_retain_step(items: Seq<InputListItem>, j: int, installed: Seq<Seq<char>>)
    requires
        0 <= j < items.len(),
    ensures
        items.take(j + 1).filter(|it: InputListItem| retain_item(installed, it)) == if retain_item(
            installed,
            items[j],
        ) {
            items.take(j).filter(|it: InputListItem| retain_item(installed, it)).push(items[j])
        } else {
            items.take(j).filter(|it: InputListItem| retain_item(installed, it))
        },
{
    reveal(Seq::filter);
    assert(items.take(j + 1).drop_last() =~= items.take(j));
    assert(items.take(j + 1).last() == items[j]);
}

/// Filters the enabled items by the retention rule, keeping order. The
/// result is the list to reinstall after all active inputs are removed.
pub fn remove_invalid_kbids(installed: &Vec<String>, enabled: &InputList) -> (r: InputList)
    requires
        enabled.wf(),
    ensures
        r@ == enabled@.filter(|it: InputListItem| retain_item(installed.deep_view(), it)),
        r.wf(),
{
    let ghost inst = installed.deep_view();
    let items = enabled.items();
    let mut kept: Vec<InputListItem> = Vec::new();
    let mut j: usize = 0;
    while j < items.len()
        invariant
            j <= items@.len(),
            items@ == enabled@,
            inst == installed.deep_view(),
            kept@ == items@.take(j as int).filter(|it: InputListItem| retain_item(inst, it)),
        decreases items@.len() - j,
    {
        proof {
            lemma_retain_step(items@, j as int, inst);
        }
        let it = items[j];
        if item_retained(installed, it) {
            kept.push(it);
        }
        j = j + 1;
    }
    proof {
        assert(items@.take(items@.len() as int) =~= items@);
        lemma_filter_keeps_distinct(
            enabled@,
            |it: InputListItem| retain_item(installed.deep_view(), it),
        );
        crate::codec::lemma_dedup_first_noop(
            enabled@.filter(|it: InputListItem| retain_item(installed.deep_view(), it)),
        );
    }
    let r = InputList::from_items(&kept);
    r
}

proof fn lemma_filter_in_source<A>(s: Seq<A>, pred: spec_fn(A) -> bool, x: A)
    requires
        s.filter(pred).contains(x),
    ensures
        s.contains(x),
    decreases s.len(),
{
    reveal(Seq::filter);
    if s.len() > 0 {
        if s.filter(pred) == s.drop_last().filter(pred) {
            lemma_filter_in_source(s.drop_last(), pred, x);
            let i = choose|i: int| 0 <= i < s.drop_last().len() && s.drop_last()[i] == x;
            assert(s[i] == x);
        } else {
            let f = s.drop_last().filter(pred).push(s.last());
            let i = choose|i: int| 0 <= i < f.len() && f[i] == x;
            if i < f.len() - 1 {
                lemma_filter_in_source(s.drop_last(), pred, x);
                let k = choose|k: int| 0 <= k < s.drop_last().len() && s.drop_last()[k] == x;
                assert(s[k] == x);
            } else {
                assert(s[s.len() - 1] == x);
            }
        }
    }
}

proof fn lemma_filter_keeps_distinct(s: Seq<InputListItem>, pred: spec_fn(InputListItem) -> bool)
    requires
        distinct_items(s),
    ensures
        distinct_items(s.filter(pred)),
    decreases s.len(),
{
    reveal(Seq::filter);
    if s.len() > 0 {
        assert(distinct_items(s.drop_last())) by {
            assert(forall|i: int|
                0 <= i < s.len() - 1 ==> s.drop_last()[i] == #[trigger] s[i]);
        }
        lemma_filter_keeps_distinct(s.drop_last(), pred);
        if pred(s.last()) {
            let f = s.drop_last().filter(pred);
            assert(!f.contains(s.last())) by {
                if f.contains(s.last()) {
                    lemma_filter_in_source(s.drop_last(), pred, s.last());
                    let i = choose|i: int|
                        0 <= i < s.drop_last().len() && s.drop_last()[i] == s.last();
                    assert(s[i] == s[s.len() - 1]);
                }
            }
            assert(distinct_items(f.push(s.last()))) by {
                assert(forall|i: int| 0 <= i < f.len() ==> f.push(s.last())[i] == #[trigger] f[i]);
                assert forall|i: int| 0 <= i < f.len() implies f[i] != s.last() by {
                    if f[i] == s.last() {
                        assert(f.contains(s.last()));
                    }
                }
            }
        }
    }
}

} // verus!
