//! Descriptor codec.
//!
//! One active keyboard assignment is a pair of a 4-hex-digit locale id and
//! an 8-hex-digit keyboard/input-processor id, written on the wire as
//! `llll:tttttttt`. An `InputList` is an ordered, duplicate-free sequence
//! of such items, joined with `;` for the OS install call.

use vstd::prelude::*;
use vstd::string::*;

use crate::hexnum::{
    all_hex, all_lower_hex, hex_str, hex_val, hex_string, is_hex_digit, is_lower_hex_digit,
    lemma_hex_str_of_val, lemma_hex_str_val, lemma_hex_str_wf, lemma_hex_val_bound, parse_hex,
    pow16,
};

verus! {

/// The ways an operation of this library fails.
#[derive(Clone, Copy, Debug, PartialEq, Eq, Structural)]
pub enum Error {
    /// A keyboard or language lookup found no match.
    NotFound,
    /// A descriptor string is malformed.
    FormatError,
    /// A foreign collaborator call returned an error code.
    OsCallFailure,
    /// A registry open, read or write failed.
    RegistryAccessError,
}

/// One active keyboard assignment for one language.
#[derive(Clone, Copy, Debug, PartialEq, Eq, Structural)]
pub struct InputListItem {
    /// Locale id, written as 4 hex digits.
    pub lang_id: u16,
    /// Keyboard layout / input processor id, written as 8 hex digits.
    pub tip_id: u32,
}

/// The string matches `^[0-9A-Fa-f]{4}:[0-9A-Fa-f]{8}$`.
pub open spec fn is_item_str(s: Seq<char>) -> bool {
    &&& s.len() == 13
    &&& s[4] == ':'
    &&& all_hex(s.subrange(0, 4))
    &&& all_hex(s.subrange(5, 13))
}

/// The item a valid descriptor string denotes.
pub open spec fn item_of_str(s: Seq<char>) -> InputListItem {
    InputListItem {
        lang_id: hex_val(s.subrange(0, 4)) as u16,
        tip_id: hex_val(s.subrange(5, 13)) as u32,
    }
}

/// The canonical serialization of an item: fixed-width, lowercase.
pub open spec fn item_str(it: InputListItem) -> Seq<char> {
    hex_str(it.lang_id as nat, 4) + seq![':'] + hex_str(it.tip_id as nat, 8)
}

pub proof fn lemma_pow16_4_8()
    ensures
        pow16(4) == 0x10000,
        pow16(8) == 0x1_0000_0000,
{
    assert(pow16(0) == 1);
    assert(pow16(1) == 16);
    assert(pow16(2) == 0x100);
    assert(pow16(3) == 0x1000);
    assert(pow16(4) == 0x10000);
    assert(pow16(5) == 0x100000);
    assert(pow16(6) == 0x1000000);
    assert(pow16(7) == 0x10000000);
    assert(pow16(8) == 0x1_0000_0000);
}

impl InputListItem {
    /// Parses a descriptor string; rejects wrong field width, a missing
    /// delimiter, and non-hex characters, each with `Error::FormatError`.
    pub fn parse(s: &str) -> (r: Result<InputListItem, Error>)
        ensures
            match r {
                Ok(it) => is_item_str(s@) && it == item_of_str(s@),
                Err(e) => !is_item_str(s@) && e == Error::FormatError,
            },
    {
        if s.unicode_len() != 13 {
            return Err(Error::FormatError);
        }
        if s.get_char(4) != ':' {
            return Err(Error::FormatError);
        }
        let lang = match parse_hex(s, 0, 4) {
            Some(v) => v,
            None => {
                return Err(Error::FormatError);
            },
        };
        let tip = match parse_hex(s, 5, 13) {
            Some(v) => v,
            None => {
                return Err(Error::FormatError);
            },
        };
        proof {
            lemma_hex_val_bound(s@.subrange(0, 4));
            lemma_pow16_4_8();
        }
        Ok(InputListItem { lang_id: lang as u16, tip_id: tip })
    }

    /// Serializes the item in its canonical lowercase fixed-width form.
    pub fn format(&self) -> (r: String)
        ensures
            r@ == item_str(*self),
    {
        let mut r = hex_string(self.lang_id as u32, 4);
        r.append(":");
        let tip = hex_string(self.tip_id, 8);
        r.append(tip.as_str());
        proof {
            reveal_strlit(":");
            assert(r@ =~= item_str(*self));
        }
        r
    }
}

/// Parsing a valid all-lowercase descriptor and serializing the item again
/// returns the original string. (An uppercase digit is re-serialized in
/// lowercase, so the law is stated of lowercase descriptors.)
pub proof fn lemma_parse_format_round_trip(s: Seq<char>)
    requires
        is_item_str(s),
        all_lower_hex(s.subrange(0, 4)),
        all_lower_hex(s.subrange(5, 13)),
    ensures
        item_str(item_of_str(s)) == s,
{
    let l = s.subrange(0, 4);
    let t = s.subrange(5, 13);
    lemma_hex_val_bound(l);
    lemma_hex_val_bound(t);
    lemma_pow16_4_8();
    lemma_hex_str_of_val(l);
    lemma_hex_str_of_val(t);
    assert(item_str(item_of_str(s)) =~= s);
}

/// Serializing any item and parsing the result returns the item, and the
/// serialized form is itself a valid descriptor.
pub proof fn lemma_format_parse_round_trip(it: InputListItem)
    ensures
        is_item_str(item_str(it)),
        item_of_str(item_str(it)) == it,
{
    let s = item_str(it);
    lemma_hex_str_wf(it.lang_id as nat, 4);
    lemma_hex_str_wf(it.tip_id as nat, 8);
    lemma_pow16_4_8();
    lemma_hex_str_val(it.lang_id as nat, 4);
    lemma_hex_str_val(it.tip_id as nat, 8);
    assert(s.subrange(0, 4) =~= hex_str(it.lang_id as nat, 4));
    assert(s.subrange(5, 13) =~= hex_str(it.tip_id as nat, 8));
    assert(forall|i: int|
        0 <= i < 4 ==> is_lower_hex_digit(#[trigger] s.subrange(0, 4)[i]) ==> is_hex_digit(
            s.subrange(0, 4)[i],
        ));
    assert(all_hex(s.subrange(0, 4)));
    assert(all_hex(s.subrange(5, 13)));
}

/// No two entries of the sequence are the same pair.
pub open spec fn distinct_items(s: Seq<InputListItem>) -> bool {
    forall|i: int, j: int| 0 <= i < j < s.len() ==> s[i] != s[j]
}

/// First-seen-order deduplication: keeps the earliest occurrence of each
/// item and drops every later duplicate.
pub open spec fn dedup_first(s: Seq<InputListItem>) -> Seq<InputListItem>
    decreases s.len(),
{
    if s.len() == 0 {
        Seq::empty()
    } else {
        let rest = dedup_first(s.drop_last());
        if rest.contains(s.last()) {
            rest
        } else {
            rest.push(s.last())
        }
    }
}

/// Deduplication yields a duplicate-free sequence holding exactly the
/// items of the input.
pub proof fn lemma_dedup_first_wf(s: Seq<InputListItem>)
    ensures
        distinct_items(dedup_first(s)),
        forall|x: InputListItem| dedup_first(s).contains(x) <==> s.contains(x),
    decreases s.len(),
{
    if s.len() > 0 {
        lemma_dedup_first_wf(s.drop_last());
        let rest = dedup_first(s.drop_last());
        assert forall|x: InputListItem| dedup_first(s).contains(x) <==> s.contains(x) by {
            if s.drop_last().contains(x) {
                let i = choose|i: int|
                    0 <= i < s.drop_last().len() && s.drop_last()[i] == x;
                assert(s[i] == x);
            }
            if s.contains(x) {
                let i = choose|i: int| 0 <= i < s.len() && s[i] == x;
                if i < s.len() - 1 {
                    assert(s.drop_last()[i] == x);
                } else {
                    assert(x == s.last());
                }
            }
            if rest.contains(s.last()) {
            } else {
                if rest.contains(x) {
                    let i = choose|i: int| 0 <= i < rest.len() && rest[i] == x;
                    assert(rest.push(s.last())[i] == x);
                }
                assert(rest.push(s.last())[rest.len() as int] == s.last());
                if rest.push(s.last()).contains(x) {
                    let i = choose|i: int|
                        0 <= i < rest.push(s.last()).len() && rest.push(s.last())[i] == x;
                    if i < rest.len() {
                        assert(rest[i] == x);
                    } else {
                        assert(x == s.last());
                    }
                }
            }
        }
    }
}

/// Deduplicating an already duplicate-free sequence changes nothing.
pub proof fn lemma_dedup_first_noop(s: Seq<InputListItem>)
    requires
        distinct_items(s),
    ensures
        dedup_first(s) == s,
    decreases s.len(),
{
    if s.len() == 0 {
        assert(dedup_first(s) =~= s);
    } else {
        assert(distinct_items(s.drop_last())) by {
            assert(forall|i: int|
                0 <= i < s.len() - 1 ==> s.drop_last()[i] == #[trigger] s[i]);
        }
        lemma_dedup_first_noop(s.drop_last());
        lemma_dedup_first_wf(s.drop_last());
        assert(!s.drop_last().contains(s.last())) by {
            if s.drop_last().contains(s.last()) {
                let i = choose|i: int|
                    0 <= i < s.drop_last().len() && s.drop_last()[i] == s.last();
                assert(s[i] == s[s.len() - 1]);
            }
        }
        assert(dedup_first(s) =~= s);
    }
}

/// An ordered, duplicate-free sequence of keyboard assignments.
#[derive(Debug)]
pub struct InputList {
    items: Vec<InputListItem>,
}

impl View for InputList {
    type V = Seq<InputListItem>;

    closed spec fn view(&self) -> Seq<InputListItem> {
        self.items@
    }
}

/// True of each sequence that is a valid descriptor string.
pub open spec fn all_item_strs(ss: Seq<Seq<char>>) -> bool {
    forall|i: int| 0 <= i < ss.len() ==> is_item_str(#[trigger] ss[i])
}

/// The items the descriptor strings denote, in order.
pub open spec fn items_of_strs(ss: Seq<Seq<char>>) -> Seq<InputListItem> {
    Seq::new(ss.len(), |i: int| item_of_str(ss[i]))
}

/// The wire form: descriptor serializations joined with `;`.
pub open spec fn wire_str(items: Seq<InputListItem>) -> Seq<char>
    decreases items.len(),
{
    if items.len() == 0 {
        Seq::empty()
    } else if items.len() == 1 {
        item_str(items[0])
    } else {
        wire_str(items.drop_last()) + seq![';'] + item_str(items.last())
    }
}

/// Character-for-character string equality.
pub fn str_eq(a: &str, b: &str) -> (r: bool)
    ensures
        r == (a@ == b@),
{
    let la = a.unicode_len();
    let lb = b.unicode_len();
    if la != lb {
        return false;
    }
    let mut i: usize = 0;
    while i < la
        invariant
            i <= la,
            la == a@.len() == b@.len(),
            forall|k: int| 0 <= k < i ==> a@[k] == b@[k],
        decreases la - i,
    {
        if a.get_char(i) != b.get_char(i) {
            return false;
        }
        i = i + 1;
    }
    proof {
        assert(a@ =~= b@);
    }
    true
}

fn vec_contains_item(v: &Vec<InputListItem>, it: InputListItem) -> (r: bool)
    ensures
        r == v@.contains(it),
{
    let mut j: usize = 0;
    while j < v.len()
        invariant
            j <= v.len(),
            forall|k: int| 0 <= k < j ==> v@[k] != it,
        decreases v.len() - j,
    {
        if v[j] == it {
            return true;
        }
        j = j + 1;
    }
    false
}

impl InputList {
    /// The list never holds two items with the same pair.
    pub open spec fn wf(&self) -> bool {
        distinct_items(self@)
    }

    /// Builds a list from items, dropping later duplicates while keeping
    /// first-seen order.
    pub fn from_items(items: &Vec<InputListItem>) -> (r: InputList)
        ensures
            r@ == dedup_first(items@),
            r.wf(),
    {
        let mut out: Vec<InputListItem> = Vec::new();
        let mut i: usize = 0;
        while i < items.len()
            invariant
                i <= items.len(),
                out@ == dedup_first(items@.take(i as int)),
            decreases items.len() - i,
        {
            let it = items[i];
            proof {
                assert(items@.take(i + 1).drop_last() =~= items@.take(i as int));
                assert(items@.take(i + 1).last() == it);
            }
            if !vec_contains_item(&out, it) {
                out.push(it);
            }
            i = i + 1;
        }
        proof {
            assert(items@.take(items@.len() as int) =~= items@);
            lemma_dedup_first_wf(items@);
        }
        InputList { items: out }
    }

    /// Parses each descriptor string and builds the deduplicated list;
    /// fails with `Error::FormatError` as soon as any string is malformed.
    pub fn try_from_strings(strs: &Vec<String>) -> (r: Result<InputList, Error>)
        ensures
            match r {
                Ok(l) => all_item_strs(strs.deep_view()) && l@ == dedup_first(
                    items_of_strs(strs.deep_view()),
                ) && l.wf(),
                Err(e) => !all_item_strs(strs.deep_view()) && e == Error::FormatError,
            },
    {
        let ghost ss = strs.deep_view();
        let mut parsed: Vec<InputListItem> = Vec::new();
        let mut i: usize = 0;
        while i < strs.len()
            invariant
                i <= strs.len(),
                ss == strs.deep_view(),
                ss.len() == strs@.len(),
                forall|k: int| 0 <= k < ss.len() ==> #[trigger] ss[k] == strs@[k]@,
                forall|k: int| 0 <= k < i ==> is_item_str(#[trigger] ss[k]),
                parsed@.len() == i,
                forall|k: int| 0 <= k < i ==> parsed@[k] == item_of_str(#[trigger] ss[k]),
            decreases strs.len() - i,
        {
            match InputListItem::parse(strs[i].as_str()) {
                Ok(it) => {
                    parsed.push(it);
                },
                Err(e) => {
                    proof {
                        assert(!all_item_strs(ss)) by {
                            assert(!is_item_str(ss[i as int]));
                        }
                    }
                    return Err(e);
                },
            }
            i = i + 1;
        }
        proof {
            assert(parsed@ =~= items_of_strs(ss));
        }
        Ok(InputList::from_items(&parsed))
    }

    /// The items, in order.
    pub fn items(&self) -> (r: &Vec<InputListItem>)
        ensures
            r@ == self@,
    {
        &self.items
    }

    /// Consumes the list and hands the items out.
    pub fn into_inner(self) -> (r: Vec<InputListItem>)
        ensures
            r@ == self@,
    {
        self.items
    }

    /// Serializes the whole list for the OS install call.
    pub fn to_wire_string(&self) -> (r: String)
        ensures
            r@ == wire_str(self@),
    {
        let mut r = String::new();
        let mut i: usize = 0;
        while i < self.items.len()
            invariant
                i <= self.items@.len(),
                r@ == wire_str(self.items@.take(i as int)),
            decreases self.items@.len() - i,
        {
            if i > 0 {
                r.append(";");
            }
            let s = self.items[i].format();
            r.append(s.as_str());
            proof {
                reveal_strlit(";");
                let cur = self.items@.take(i + 1);
                assert(cur.drop_last() =~= self.items@.take(i as int));
                assert(cur.last() == self.items@[i as int]);
                if i == 0 {
                    assert(cur[0] == self.items@[0]);
                    assert(r@ =~= wire_str(cur));
                } else {
                    assert(r@ =~= wire_str(cur));
                }
            }
            i = i + 1;
        }
        proof {
            assert(self.items@.take(self.items@.len() as int) =~= self.items@);
        }
        r
    }
}

} // verus!
