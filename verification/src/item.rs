//! The launchable entry: a display label, an opaque launch target, and the
//! normalized haystack string the matchers search.  The haystack is derived
//! once at construction, lower-cased with path separators and underscores
//! replaced by spaces.

use vstd::prelude::*;
use crate::strutil::{
    after_last, chars_to_string, lower_of, lowercase, str_chars, trim_back, trim_front, trim_of,
};

verus! {

/// One launchable entry.  Items are identified by `value`; `label` and
/// `haystack` are derived, not identifying.
#[derive(Debug)]
pub struct Item {
    /// Shown to the user in the list.
    pub label: String,
    /// The target that is opened on activation.
    pub value: String,
    /// The normalized string queries are matched against.
    pub haystack: String,
}

/// The mathematical value of an [`Item`].
pub ghost struct ItemV {
    pub label: Seq<char>,
    pub value: Seq<char>,
    pub haystack: Seq<char>,
}

impl View for Item {
    type V = ItemV;

    open spec fn view(&self) -> ItemV {
        ItemV { label: self.label@, value: self.value@, haystack: self.haystack@ }
    }
}

impl Clone for Item {
    fn clone(&self) -> (r: Self)
        ensures
            r == *self,
    {
        Item { label: self.label.clone(), value: self.value.clone(), haystack: self.haystack.clone() }
    }
}

/// The views of a sequence of items.
pub open spec fn views_of(s: Seq<Item>) -> Seq<ItemV> {
    s.map_values(|it: Item| it@)
}

/// An element-wise copy of `v`.
pub fn clone_items(v: &Vec<Item>) -> (r: Vec<Item>)
    ensures
        r@ == v@,
{
    let mut r: Vec<Item> = Vec::new();
    let mut i: usize = 0;
    while i < v.len()
        invariant
            i <= v.len(),
            r@ == v@.subrange(0, i as int),
        decreases v.len() - i,
    {
        r.push(v[i].clone());
        proof {
            assert(r@ =~= v@.subrange(0, i + 1 as int));
        }
        i = i + 1;
    }
    proof {
        assert(r@ =~= v@);
    }
    r
}

/// Path separators and underscores become spaces in the haystack.
pub open spec fn sep_to_space(c: char) -> char {
    if c == '/' || c == '_' {
        ' '
    } else {
        c
    }
}

/// The haystack derived from a searchable string: lower-cased, separators
/// replaced by spaces.
pub open spec fn normal_of(s: Seq<char>) -> Seq<char> {
    lower_of(s).map_values(|c: char| sep_to_space(c))
}

/// A well-formed haystack: no ASCII uppercase letter, no `/`, no `_`.
pub open spec fn clean_haystack(h: Seq<char>) -> bool {
    forall|i: int|
        0 <= i < h.len() ==> (#[trigger] h[i]) != '/' && h[i] != '_' && !(65 <= (h[i] as u32)
            <= 90)
}

/// Computes [`normal_of`] and establishes that the result is clean.
pub fn normalize(s: &str) -> (r: String)
    ensures
        r@ == normal_of(s@),
        clean_haystack(r@),
{
    let low = lowercase(s);
    let cs = str_chars(low.as_str());
    let mut out: Vec<char> = Vec::new();
    let mut i: usize = 0;
    while i < cs.len()
        invariant
            i <= cs.len(),
            cs@ == low@,
            low@ == lower_of(s@),
            forall|k: int| 0 <= k < low@.len() ==> !(65 <= #[trigger] (low@[k] as u32) <= 90),
            out@.len() == i,
            forall|k: int| 0 <= k < i ==> #[trigger] out@[k] == sep_to_space(cs@[k]),
        decreases cs.len() - i,
    {
        let c = cs[i];
        if c == '/' || c == '_' {
            out.push(' ');
        } else {
            out.push(c);
        }
        i = i + 1;
    }
    proof {
        assert(out@ =~= lower_of(s@).map_values(|c: char| sep_to_space(c)));
    }
    chars_to_string(&out)
}

/// Raised only when the raw input for an item is empty after trimming.
#[derive(Clone, Copy, PartialEq, Eq, Structural, Debug)]
pub struct ParseError;

/// `s` without trailing path separators.
pub open spec fn strip_slashes(s: Seq<char>) -> Seq<char>
    decreases s.len(),
{
    if s.len() > 0 && s[s.len() - 1] == '/' {
        strip_slashes(s.drop_last())
    } else {
        s
    }
}

/// The label derived from a raw value: the last non-empty path segment,
/// after trailing separators are stripped; the whole value when it holds no
/// separator.
pub open spec fn label_of(v: Seq<char>) -> Seq<char> {
    let t = strip_slashes(v);
    t.subrange(after_last(t, '/'), t.len() as int)
}

impl Item {
    /// Builds the item for a repository: the full name is both the label and
    /// the searchable string, the page address is the launch target.
    pub fn from_repo(full_name: String, html_url: String) -> (r: Item)
        ensures
            r@.label == full_name@,
            r@.value == html_url@,
            r@.haystack == normal_of(full_name@),
            clean_haystack(r@.haystack),
    {
        let haystack = normalize(full_name.as_str());
        Item { label: full_name, value: html_url, haystack }
    }

    /// Builds the item for a job: the job name is both the label and the
    /// searchable string, the job address is the launch target.
    pub fn from_job(name: String, url: String) -> (r: Item)
        ensures
            r@.label == name@,
            r@.value == url@,
            r@.haystack == normal_of(name@),
            clean_haystack(r@.haystack),
    {
        let haystack = normalize(name.as_str());
        Item { label: name, value: url, haystack }
    }

    /// Builds an item from a raw freeform line.  The trimmed line is the
    /// value and the searchable string; the label is its last non-empty path
    /// segment.  Fails exactly when the line is empty after trimming.
    #[verifier::loop_isolation(false)]
    pub fn from_line(raw: &str) -> (r: Result<Item, ParseError>)
        ensures
            trim_of(raw@).len() == 0 <==> r is Err,
            r matches Ok(it) ==> {
                &&& it@.value == trim_of(raw@)
                &&& it@.label == label_of(trim_of(raw@))
                &&& it@.haystack == normal_of(trim_of(raw@))
                &&& clean_haystack(it@.haystack)
            },
    {
        let cs = str_chars(raw);
        let t = trim_chars(&cs);
        if t.len() == 0 {
            return Err(ParseError);
        }
        let value = chars_to_string(&t);
        let haystack = normalize(value.as_str());

        // Strip trailing separators, then keep what follows the last one.
        let mut b: usize = t.len();
        proof {
            assert(t@.subrange(0, t@.len() as int) =~= t@);
        }
        while b > 0 && t[b - 1] == '/'
            invariant
                b <= t.len(),
                strip_slashes(t@) == strip_slashes(t@.subrange(0, b as int)),
            decreases b,
        {
            proof {
                assert(t@.subrange(0, b as int).drop_last() =~= t@.subrange(0, b - 1));
            }
            b = b - 1;
        }
        proof {
            assert(t@.subrange(0, t@.len() as int) =~= t@);
            assert(strip_slashes(t@) == t@.subrange(0, b as int));
        }
        let ghost t2 = t@.subrange(0, b as int);
        proof {
            assert(t2.subrange(0, b as int) =~= t2);
        }
        let mut k: usize = b;
        while k > 0 && t[k - 1] != '/'
            invariant
                k <= b,
                b <= t.len(),
                after_last(t2, '/') == after_last(t2.subrange(0, k as int), '/'),
            decreases k,
        {
            proof {
                assert(t2.subrange(0, k as int).drop_last() =~= t2.subrange(0, k - 1));
                assert(t2.subrange(0, k as int)[k - 1] == t@[k - 1]);
            }
            k = k - 1;
        }
        proof {
            if k > 0 {
                assert(t2.subrange(0, k as int)[k - 1] == t@[k - 1]);
            }
            assert(after_last(t2, '/') == k as int);
        }
        let mut lab: Vec<char> = Vec::new();
        let mut j: usize = k;
        while j < b
            invariant
                k <= j <= b,
                b <= t.len(),
                lab@ == t@.subrange(k as int, j as int),
            decreases b - j,
        {
            lab.push(t[j]);
            proof {
                assert(lab@ =~= t@.subrange(k as int, j + 1 as int));
            }
            j = j + 1;
        }
        proof {
            assert(t2.subrange(k as int, t2.len() as int) =~= t@.subrange(k as int, b as int));
        }
        let label = chars_to_string(&lab);
        Ok(Item { label, value, haystack })
    }
}

/// `v` without leading or trailing whitespace.
#[verifier::loop_isolation(false)]
pub fn trim_chars(v: &Vec<char>) -> (r: Vec<char>)
    ensures
        r@ == trim_of(v@),
{
    let mut a: usize = 0;
    proof {
        assert(v@.subrange(0, v@.len() as int) =~= v@);
    }
    while a < v.len() && (v[a] == ' ' || v[a] == '\t' || v[a] == '\n' || v[a] == '\r')
        invariant
            a <= v.len(),
            trim_front(v@) == trim_front(v@.subrange(a as int, v@.len() as int)),
        decreases v.len() - a,
    {
        proof {
            let suf = v@.subrange(a as int, v@.len() as int);
            assert(suf[0] == v@[a as int]);
            assert(suf.subrange(1, suf.len() as int) =~= v@.subrange(a + 1, v@.len() as int));
        }
        a = a + 1;
    }
    proof {
        assert(v@.subrange(0, v@.len() as int) =~= v@);
        assert(trim_front(v@) == v@.subrange(a as int, v@.len() as int));
    }
    let ghost tf = v@.subrange(a as int, v@.len() as int);
    let mut b: usize = v.len();
    while b > a && (v[b - 1] == ' ' || v[b - 1] == '\t' || v[b - 1] == '\n' || v[b - 1] == '\r')
        invariant
            a <= b <= v.len(),
            trim_back(tf) == trim_back(v@.subrange(a as int, b as int)),
        decreases b,
    {
        proof {
            let suf = v@.subrange(a as int, b as int);
            assert(suf[suf.len() - 1] == v@[b - 1]);
            assert(suf.drop_last() =~= v@.subrange(a as int, b - 1));
        }
        b = b - 1;
    }
    proof {
        assert(tf =~= v@.subrange(a as int, v@.len() as int));
        let suf = v@.subrange(a as int, b as int);
        if b > a {
            assert(suf[suf.len() - 1] == v@[b - 1]);
        }
        assert(trim_back(tf) == suf);
    }
    let mut r: Vec<char> = Vec::new();
    let mut i: usize = a;
    while i < b
        invariant
            a <= i <= b,
            b <= v.len(),
            r@ == v@.subrange(a as int, i as int),
        decreases b - i,
    {
        r.push(v[i]);
        proof {
            assert(r@ =~= v@.subrange(a as int, i + 1 as int));
        }
        i = i + 1;
    }
    r
}

} // verus!
