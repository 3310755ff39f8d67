//! Configuration snapshots.
//!
//! Language tags identify per-language configuration; two tags that differ
//! only in ASCII letter case name the same language. A `LangKeyboards`
//! pairs one tag with the raw descriptor strings configured for it. The
//! OS language enumeration call replies with one delimiter-joined string,
//! decoded here by `split_string`.

use vstd::prelude::*;
use vstd::string::*;

verus! {

/// An ASCII uppercase letter.
pub open spec fn is_ascii_upper(c: char) -> bool {
    'A' as int <= c as int && c as int <= 'Z' as int
}

/// The characters are equal up to ASCII letter case.
pub open spec fn char_eq_nocase(a: char, b: char) -> bool {
    ||| a == b
    ||| (is_ascii_upper(a) && b as int == a as int + 32)
    ||| (is_ascii_upper(b) && a as int == b as int + 32)
}

/// The tags name the same language: equal up to ASCII letter case.
pub open spec fn tag_eq(a: Seq<char>, b: Seq<char>) -> bool {
    a.len() == b.len() && forall|i: int| 0 <= i < a.len() ==> char_eq_nocase(a[i], b[i])
}

/// Some tag of the list names the same language.
pub open spec fn tag_in(tags: Seq<Seq<char>>, tag: Seq<char>) -> bool {
    exists|i: int| 0 <= i < tags.len() && tag_eq(#[trigger] tags[i], tag)
}

fn char_matches_nocase(a: char, b: char) -> (r: bool)
    ensures
        r == char_eq_nocase(a, b),
{
    let ua = a as u32;
    let ub = b as u32;
    ua == ub || (65 <= ua && ua <= 90 && ub == ua + 32) || (65 <= ub && ub <= 90 && ua == ub + 32)
}

/// Case-insensitive tag comparison.
pub fn tag_matches(a: &str, b: &str) -> (r: bool)
    ensures
        r == tag_eq(a@, b@),
{
    let la = a.unicode_len();
    let lb = b.unicode_len();
    if la != lb {
        return false;
    }
    let mut i: usize = 0;
    while i < la
        invariant
            i <= la,
            la == a@.len() == b@.len(),
            forall|k: int| 0 <= k < i ==> char_eq_nocase(a@[k], b@[k]),
        decreases la - i,
    {
        if !char_matches_nocase(a.get_char(i), b.get_char(i)) {
            return false;
        }
        i = i + 1;
    }
    true
}

/// Whether the list already names this language.
pub fn tags_contain(tags: &Vec<String>, tag: &str) -> (r: bool)
    ensures
        r == tag_in(tags.deep_view(), tag@),
{
    let mut i: usize = 0;
    while i < tags.len()
        invariant
            i <= tags@.len(),
            tags.deep_view().len() == tags@.len(),
            forall|k: int| 0 <= k < tags@.len() ==> #[trigger] tags.deep_view()[k] == tags@[k]@,
            forall|k: int| 0 <= k < i ==> !tag_eq(#[trigger] tags.deep_view()[k], tag@),
        decreases tags@.len() - i,
    {
        if tag_matches(tags[i].as_str(), tag) {
            proof {
                assert(tag_eq(tags.deep_view()[i as int], tag@));
            }
            return true;
        }
        i = i + 1;
    }
    false
}

/// A copy of each string, in order.
pub fn clone_strings(v: &Vec<String>) -> (r: Vec<String>)
    ensures
        r@ == v@,
{
    let mut r: Vec<String> = Vec::new();
    let mut i: usize = 0;
    while i < v.len()
        invariant
            i <= v@.len(),
            r@ == v@.take(i as int),
        decreases v@.len() - i,
    {
        r.push(v[i].clone());
        proof {
            assert(r@ =~= v@.take(i + 1));
        }
        i = i + 1;
    }
    proof {
        assert(v@.take(v@.len() as int) =~= v@);
    }
    r
}

/// One language's configured keyboards: the tag and the raw descriptor
/// strings under its configuration subtree, in insertion order.
#[derive(Debug)]
pub struct LangKeyboards {
    pub tag: String,
    pub methods: Vec<String>,
}

impl LangKeyboards {
    /// The mathematical content: the tag's characters and each method string.
    pub open spec fn view_pair(&self) -> (Seq<char>, Seq<Seq<char>>) {
        (self.tag@, self.methods.deep_view())
    }

    /// A copy with the same tag and methods.
    pub fn duplicate(&self) -> (r: LangKeyboards)
        ensures
            r.tag@ == self.tag@,
            r.methods@ == self.methods@,
            r.view_pair() == self.view_pair(),
    {
        LangKeyboards { tag: self.tag.clone(), methods: clone_strings(&self.methods) }
    }
}

/// The mathematical content of a whole snapshot, in order.
pub open spec fn kbs_view(kbs: Seq<LangKeyboards>) -> Seq<(Seq<char>, Seq<Seq<char>>)> {
    Seq::new(kbs.len(), |i: int| kbs[i].view_pair())
}

/// Splitting at every occurrence of the delimiter, empty segments kept;
/// a string with no delimiter is one segment.
pub open spec fn split_raw(s: Seq<char>, d: char) -> Seq<Seq<char>>
    decreases s.len(),
{
    if s.len() == 0 {
        seq![Seq::empty()]
    } else if s.last() == d {
        split_raw(s.drop_last(), d).push(Seq::empty())
    } else {
        let r = split_raw(s.drop_last(), d);
        r.update(r.len() - 1, r.last().push(s.last()))
    }
}

/// The nonempty segments, in order: the decoded list entries.
pub open spec fn split_tags(s: Seq<char>, d: char) -> Seq<Seq<char>> {
    split_raw(s, d).filter(|g: Seq<char>| g.len() > 0)
}

proof fn lemma_split_raw_wf(s: Seq<char>, d: char)
    ensures
        split_raw(s, d).len() >= 1,
    decreases s.len(),
{
    if s.len() > 0 {
        lemma_split_raw_wf(s.drop_last(), d);
    }
}

proof fn lemma_filter_snoc(segs: Seq<Seq<char>>, g: Seq<char>)
    ensures
        segs.push(g).filter(|x: Seq<char>| x.len() > 0) == if g.len() > 0 {
            segs.filter(|x: Seq<char>| x.len() > 0).push(g)
        } else {
            segs.filter(|x: Seq<char>| x.len() > 0)
        },
{
    reveal(Seq::filter);
    assert(segs.push(g).drop_last() =~= segs);
    assert(segs.push(g).last() == g);
}

/// Decodes a delimiter-joined reply: the nonempty segments of `s` between
/// occurrences of `d`, in order.
pub fn split_string(s: &str, d: char) -> (r: Vec<String>)
    ensures
        r.deep_view() == split_tags(s@, d),
{
    let len = s.unicode_len();
    let mut out: Vec<String> = Vec::new();
    let mut seg_start: usize = 0;
    let mut i: usize = 0;
    while i < len
        invariant
            0 <= seg_start <= i <= len,
            len == s@.len(),
            split_raw(s@.take(i as int), d).len() >= 1,
            split_raw(s@.take(i as int), d).last() == s@.subrange(seg_start as int, i as int),
            out.deep_view() == split_raw(s@.take(i as int), d).drop_last().filter(
                |g: Seq<char>| g.len() > 0,
            ),
        decreases len - i,
    {
        let ghost pre = split_raw(s@.take(i as int), d);
        proof {
            assert(s@.take(i + 1).drop_last() =~= s@.take(i as int));
            assert(s@.take(i + 1).last() == s@[i as int]);
            lemma_split_raw_wf(s@.take(i as int), d);
        }
        let c = s.get_char(i);
        if c == d {
            if i > seg_start {
                let seg = s.substring_char(seg_start, i).to_owned();
                out.push(seg);
                proof {
                    assert(out.deep_view() =~= pre.drop_last().filter(
                        |g: Seq<char>| g.len() > 0,
                    ).push(s@.subrange(seg_start as int, i as int)));
                }
            }
            proof {
                let cur = split_raw(s@.take(i + 1), d);
                assert(cur == pre.push(Seq::<char>::empty()));
                assert(cur.drop_last() =~= pre);
                assert(pre =~= pre.drop_last().push(pre.last()));
                lemma_filter_snoc(pre.drop_last(), pre.last());
                assert(out.deep_view() == pre.filter(|g: Seq<char>| g.len() > 0));
            }
            seg_start = i + 1;
            proof {
                assert(split_raw(s@.take(i + 1), d).last() =~= s@.subrange(
                    seg_start as int,
                    (i + 1) as int,
                ));
            }
        } else {
            proof {
                let cur = split_raw(s@.take(i + 1), d);
                assert(cur == pre.update(pre.len() - 1, pre.last().push(s@[i as int])));
                assert(cur.drop_last() =~= pre.drop_last());
                assert(cur.last() == pre.last().push(s@[i as int]));
                assert(pre.last().push(s@[i as int]) =~= s@.subrange(
                    seg_start as int,
                    (i + 1) as int,
                ));
            }
        }
        i = i + 1;
    }
    proof {
        assert(s@.take(len as int) =~= s@);
        lemma_split_raw_wf(s@, d);
    }
    if seg_start < len {
        let seg = s.substring_char(seg_start, len).to_owned();
        out.push(seg);
    }
    proof {
        let whole = split_raw(s@, d);
        assert(whole =~= whole.drop_last().push(whole.last()));
        lemma_filter_snoc(whole.drop_last(), whole.last());
        if seg_start < len {
            assert(out.deep_view() =~= split_tags(s@, d));
        } else {
            assert(whole.last().len() == 0);
            assert(out.deep_view() =~= split_tags(s@, d));
        }
    }
    out
}

} // verus!
