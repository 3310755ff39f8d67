//! Verified core of a per-user keyboard/input configuration tool.
//!
//! The library models the user's text-input configuration — enabled
//! languages, per-language keyboard descriptors, the registry substitution
//! table and the priority-ordered preload list — as plain data snapshots,
//! and computes every reconciliation step as a pure, verified function:
//! the descriptor codec (`codec`), the registry synchronizer (`sync`), and
//! the keyboard enable / cleanup workflows (`keyboard`, and the functions
//! here). Reading and writing the actual OS state — registry hives and
//! the language DLL calls — is left to a thin unverified shell that feeds
//! snapshots in and applies the returned plans.

pub mod codec;
pub mod config;
pub mod hexnum;
pub mod keyboard;
pub mod sync;

use vstd::prelude::*;
use vstd::string::*;

use crate::codec::{
    all_item_strs, dedup_first, is_item_str, item_of_str, items_of_strs, Error, InputList,
    InputListItem,
};
use crate::config::{
    clone_strings, kbs_view, split_string, split_tags, tag_in, tags_contain, LangKeyboards,
};
use crate::hexnum::{hex_str, hex_string};
use crate::keyboard::{item_retained, remove_invalid_kbids, retain_item};
use crate::sync::{flatten_inputs, flattened};

verus! {

/// The delimiter the OS wire format joins list replies with.
pub const WIRE_DELIMITER: char = ';';

/// Decodes the delimiter-joined reply of the OS language enumeration into
/// the list of enabled language tags.
pub fn enabled_languages(raw: &str) -> (r: Vec<String>)
    ensures
        r.deep_view() == split_tags(raw@, ';'),
{
    split_string(raw, WIRE_DELIMITER)
}

/// Pairs each enabled language with its configured keyboards, decoding the
/// delimiter-joined method reply the OS gave for that language.
pub fn enabled_keyboards(langs: &Vec<String>, raw_methods: &Vec<String>) -> (r: Vec<LangKeyboards>)
    requires
        langs@.len() == raw_methods@.len(),
    ensures
        r@.len() == langs@.len(),
        forall|i: int|
            0 <= i < r@.len() ==> (#[trigger] r@[i]).tag@ == langs@[i]@
                && r@[i].methods.deep_view() == split_tags(raw_methods@[i]@, ';'),
{
    let mut r: Vec<LangKeyboards> = Vec::new();
    let mut i: usize = 0;
    while i < langs.len()
        invariant
            i <= langs@.len(),
            langs@.len() == raw_methods@.len(),
            r@.len() == i,
            forall|k: int|
                0 <= k < i ==> (#[trigger] r@[k]).tag@ == langs@[k]@ && r@[k].methods.deep_view()
                    == split_tags(raw_methods@[k]@, ';'),
        decreases langs@.len() - i,
    {
        let methods = split_string(raw_methods[i].as_str(), WIRE_DELIMITER);
        r.push(LangKeyboards { tag: langs[i].clone(), methods });
        i = i + 1;
    }
    r
}

/// Activates a language: the list unchanged when some entry already names
/// the language (activation is idempotent), and the tag appended otherwise.
pub fn enable_language(langs: &Vec<String>, tag: &str) -> (r: Vec<String>)
    ensures
        r.deep_view() == if tag_in(langs.deep_view(), tag@) {
            langs.deep_view()
        } else {
            langs.deep_view().push(tag@)
        },
{
    let mut r = clone_strings(langs);
    if !tags_contain(langs, tag) {
        r.push(tag.to_owned());
        proof {
            assert(r.deep_view() =~= langs.deep_view().push(tag@));
        }
    }
    r
}

/// Formats the reply to a language query: `id` is the resolved locale
/// name, `names` the name block an external lookup returned for it (`None`
/// when the tag is unsupported), `lcid` the locale id if one resolved.
pub fn query_language(id: &str, names: Option<&str>, lcid: Option<u32>) -> (r: String)
    ensures
        match names {
            None => r@ == id@ + ": Unsupported tag.\n"@,
            Some(v) => match lcid {
                Some(l) => r@ == v@ + "LCID:          0x"@ + hex_str(l as nat, 8),
                None => r@ == v@ + "LCID:          undefined"@,
            },
        },
{
    match names {
        None => {
            let mut r = id.to_owned();
            r.append(": Unsupported tag.\n");
            r
        },
        Some(v) => {
            let mut r = v.to_owned();
            match lcid {
                Some(l) => {
                    r.append("LCID:          0x");
                    let h = hex_string(l, 8);
                    r.append(h.as_str());
                },
                None => {
                    r.append("LCID:          undefined");
                },
            }
            r
        },
    }
}

/// The method-list sequences of a snapshot, in order.
pub open spec fn methods_of(kbs: Seq<(Seq<char>, Seq<Seq<char>>)>) -> Seq<Seq<Seq<char>>> {
    Seq::new(kbs.len(), |i: int| kbs[i].1)
}

/// The tags whose method list is nonempty, in order: the languages a
/// disable-empty pass keeps.
pub open spec fn nonempty_tags(kbs: Seq<(Seq<char>, Seq<Seq<char>>)>) -> Seq<Seq<char>>
    decreases kbs.len(),
{
    if kbs.len() == 0 {
        Seq::empty()
    } else {
        nonempty_tags(kbs.drop_last()) + if kbs.last().1.len() > 0 {
            seq![kbs.last().0]
        } else {
            Seq::empty()
        }
    }
}

/// The languages that keep at least one keyboard configured: the rest are
/// disabled by the cleanup pass.
pub fn disable_empty_languages(keyboards: &Vec<LangKeyboards>) -> (r: Vec<String>)
    ensures
        r.deep_view() == nonempty_tags(kbs_view(keyboards@)),
{
    let ghost kv = kbs_view(keyboards@);
    let mut r: Vec<String> = Vec::new();
    let mut i: usize = 0;
    while i < keyboards.len()
        invariant
            i <= keyboards@.len(),
            kv == kbs_view(keyboards@),
            kv.len() == keyboards@.len(),
            forall|k: int|
                0 <= k < keyboards@.len() ==> #[trigger] kv[k] == keyboards@[k].view_pair(),
            r.deep_view() == nonempty_tags(kv.take(i as int)),
        decreases keyboards@.len() - i,
    {
        proof {
            assert(kv.take(i + 1).drop_last() =~= kv.take(i as int));
            assert(kv.take(i + 1).last() == kv[i as int]);
        }
        let ghost before = r.deep_view();
        if keyboards[i].methods.len() > 0 {
            r.push(keyboards[i].tag.clone());
            proof {
                assert(r.deep_view() =~= before.push(keyboards@[i as int].tag@));
                assert(r.deep_view() =~= nonempty_tags(kv.take(i + 1)));
            }
        } else {
            proof {
                assert(r.deep_view() =~= nonempty_tags(kv.take(i + 1)));
            }
        }
        i = i + 1;
    }
    proof {
        assert(kv.take(kv.len() as int) =~= kv);
    }
    r
}

/// Flattens every language's configured method strings and parses them
/// into the one deduplicated list of active inputs; fails with
/// `Error::FormatError` when any stored descriptor is malformed.
pub fn enabled_input_methods(per_lang: &Vec<Vec<String>>) -> (r: Result<InputList, Error>)
    ensures
        match r {
            Ok(l) => all_item_strs(flattened(per_lang.deep_view())) && l@ == dedup_first(
                items_of_strs(flattened(per_lang.deep_view())),
            ) && l.wf(),
            Err(e) => e == Error::FormatError && !all_item_strs(flattened(per_lang.deep_view())),
        },
{
    let flat = flatten_inputs(per_lang);
    InputList::try_from_strings(&flat)
}

/// Keeps the tags the external resolver recognised, in order: the valid
/// tags a set-languages call hands to the OS.
pub fn resolved_language_tags(resolved: &Vec<Option<String>>) -> (r: Vec<String>)
    ensures
        r.deep_view() == some_values(resolved.deep_view()),
{
    let ghost rv = resolved.deep_view();
    let mut r: Vec<String> = Vec::new();
    let mut i: usize = 0;
    while i < resolved.len()
        invariant
            i <= resolved@.len(),
            rv == resolved.deep_view(),
            rv.len() == resolved@.len(),
            forall|k: int| 0 <= k < rv.len() ==> #[trigger] rv[k] == resolved@[k].deep_view(),
            r.deep_view() == some_values(rv.take(i as int)),
        decreases resolved@.len() - i,
    {
        proof {
            assert(rv.take(i + 1).drop_last() =~= rv.take(i as int));
            assert(rv.take(i + 1).last() == rv[i as int]);
        }
        let ghost before = r.deep_view();
        match &resolved[i] {
            Some(t) => {
                r.push(t.clone());
                proof {
                    assert(r.deep_view() =~= before.push(t@));
                    assert(r.deep_view() =~= some_values(rv.take(i + 1)));
                }
            },
            None => {
                proof {
                    assert(r.deep_view() =~= some_values(rv.take(i + 1)));
                }
            },
        }
        i = i + 1;
    }
    proof {
        assert(rv.take(rv.len() as int) =~= rv);
    }
    r
}

/// The recognised values, in order.
pub open spec fn some_values(s: Seq<Option<Seq<char>>>) -> Seq<Seq<char>>
    decreases s.len(),
{
    if s.len() == 0 {
        Seq::empty()
    } else {
        some_values(s.drop_last()) + match s.last() {
            Some(v) => seq![v],
            None => Seq::empty(),
        }
    }
}

/// Some method of the list is a valid descriptor the retention rule keeps.
pub open spec fn lang_keeps_any(methods: Seq<Seq<char>>, installed: Seq<Seq<char>>) -> bool {
    exists|k: int|
        0 <= k < methods.len() && is_item_str(#[trigger] methods[k]) && retain_item(
            installed,
            item_of_str(methods[k]),
        )
}

/// The tags that keep at least one retained keyboard after cleanup.
pub open spec fn kept_tags(
    kbs: Seq<(Seq<char>, Seq<Seq<char>>)>,
    installed: Seq<Seq<char>>,
) -> Seq<Seq<char>>
    decreases kbs.len(),
{
    if kbs.len() == 0 {
        Seq::empty()
    } else {
        kept_tags(kbs.drop_last(), installed) + if lang_keeps_any(kbs.last().1, installed) {
            seq![kbs.last().0]
        } else {
            Seq::empty()
        }
    }
}

fn lang_any_retained(methods: &Vec<String>, installed: &Vec<String>) -> (r: bool)
    ensures
        r == lang_keeps_any(methods.deep_view(), installed.deep_view()),
{
    let mut j: usize = 0;
    while j < methods.len()
        invariant
            j <= methods@.len(),
            methods.deep_view().len() == methods@.len(),
            forall|k: int|
                0 <= k < methods@.len() ==> #[trigger] methods.deep_view()[k] == methods@[k]@,
            forall|k: int|
                0 <= k < j ==> !(is_item_str(#[trigger] methods.deep_view()[k]) && retain_item(
                    installed.deep_view(),
                    item_of_str(methods.deep_view()[k]),
                )),
        decreases methods@.len() - j,
    {
        match InputListItem::parse(methods[j].as_str()) {
            Ok(it) => {
                if item_retained(installed, it) {
                    proof {
                        assert(is_item_str(methods.deep_view()[j as int]) && retain_item(
                            installed.deep_view(),
                            item_of_str(methods.deep_view()[j as int]),
                        ));
                    }
                    return true;
                }
            },
            Err(_) => {},
        }
        j = j + 1;
    }
    false
}

/// The outcome of the cleanup pass over a state snapshot.
#[derive(Debug)]
pub struct CleanPlan {
    /// The deduplicated active inputs that pass the retention rule, to be
    /// reinstalled after all active inputs are removed.
    pub install_list: InputList,
    /// The languages that keep at least one retained keyboard; every other
    /// language is disabled.
    pub languages: Vec<String>,
}

/// The cleanup workflow over a snapshot: drops every active input that the
/// retention rule rejects, and every language left without a retained
/// keyboard. Fails with `Error::FormatError` when any stored descriptor is
/// malformed.
pub fn clean(installed: &Vec<String>, keyboards: &Vec<LangKeyboards>) -> (r: Result<
    CleanPlan,
    Error,
>)
    ensures
        match r {
            Ok(plan) => {
                let flat = flattened(methods_of(kbs_view(keyboards@)));
                &&& all_item_strs(flat)
                &&& plan.install_list@ == dedup_first(items_of_strs(flat)).filter(
                    |it: InputListItem| retain_item(installed.deep_view(), it),
                )
                &&& plan.install_list.wf()
                &&& plan.languages.deep_view() == kept_tags(
                    kbs_view(keyboards@),
                    installed.deep_view(),
                )
            },
            Err(e) => e == Error::FormatError && !all_item_strs(
                flattened(methods_of(kbs_view(keyboards@))),
            ),
        },
{
    let ghost kv = kbs_view(keyboards@);

    // Gather each language's stored method strings.
    let mut per: Vec<Vec<String>> = Vec::new();
    let mut i: usize = 0;
    while i < keyboards.len()
        invariant
            i <= keyboards@.len(),
            kv == kbs_view(keyboards@),
            kv.len() == keyboards@.len(),
            forall|k: int|
                0 <= k < keyboards@.len() ==> #[trigger] kv[k] == keyboards@[k].view_pair(),
            per@.len() == i,
            forall|k: int| 0 <= k < i ==> #[trigger] per@[k].deep_view() == kv[k].1,
        decreases keyboards@.len() - i,
    {
        per.push(clone_strings(&keyboards[i].methods));
        i = i + 1;
    }
    proof {
        assert(per.deep_view() =~= methods_of(kv));
    }

    // The full active input list, deduplicated, then filtered by retention.
    let enabled = match enabled_input_methods(&per) {
        Ok(l) => l,
        Err(e) => {
            return Err(e);
        },
    };
    let install_list = remove_invalid_kbids(installed, &enabled);

    // The languages that keep at least one retained keyboard.
    let mut languages: Vec<String> = Vec::new();
    let mut j: usize = 0;
    while j < keyboards.len()
        invariant
            j <= keyboards@.len(),
            kv == kbs_view(keyboards@),
            kv.len() == keyboards@.len(),
            forall|k: int|
                0 <= k < keyboards@.len() ==> #[trigger] kv[k] == keyboards@[k].view_pair(),
            languages.deep_view() == kept_tags(kv.take(j as int), installed.deep_view()),
        decreases keyboards@.len() - j,
    {
        proof {
            assert(kv.take(j + 1).drop_last() =~= kv.take(j as int));
            assert(kv.take(j + 1).last() == kv[j as int]);
        }
        let ghost before = languages.deep_view();
        if lang_any_retained(&keyboards[j].methods, installed) {
            languages.push(keyboards[j].tag.clone());
            proof {
                assert(languages.deep_view() =~= before.push(keyboards@[j as int].tag@));
                assert(languages.deep_view() =~= kept_tags(
                    kv.take(j + 1),
                    installed.deep_view(),
                ));
            }
        } else {
            proof {
                assert(languages.deep_view() =~= kept_tags(
                    kv.take(j + 1),
                    installed.deep_view(),
                ));
            }
        }
        j = j + 1;
    }
    proof {
        assert(kv.take(kv.len() as int) =~= kv);
    }
    Ok(CleanPlan { install_list, languages })
}

} // verus!
