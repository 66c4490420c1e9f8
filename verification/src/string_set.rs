//! Sets of strings kept sorted and free of duplicates, in the order of
//! `str` (the order in which a `BTreeSet<String>` yields its items).

use vstd::prelude::*;
use crate::text::compare_text;
use crate::text::lemma_text_lt_irreflexive;
use crate::text::lemma_text_lt_transitive;
use crate::text::text_lt;
use crate::text::texts;
use crate::text::TextOrder;

verus! {

/// Every text is ordered before each text that follows it; in particular no
/// text occurs twice.
pub open spec fn strictly_sorted(s: Seq<Seq<char>>) -> bool {
    forall|i: int, j: int| 0 <= i < j < s.len() ==> text_lt(#[trigger] s[i], #[trigger] s[j])
}

/// One more item at the front of a suffix.
proof fn lemma_skip_one_more(all: Seq<Seq<char>>, k: int)
    requires
        0 <= k < all.len(),
    ensures
        forall|t: Seq<char>| #[trigger] all.skip(k).contains(t) <==> t == all[k] || all.skip(
            k + 1,
        ).contains(t),
{
    assert forall|t: Seq<char>| #[trigger] all.skip(k).contains(t) <==> t == all[k] || all.skip(
        k + 1,
    ).contains(t) by {
        let a = all.skip(k);
        let b = all.skip(k + 1);
        if a.contains(t) && t != all[k] {
            let i = choose|i: int| 0 <= i < a.len() && a[i] == t;
            assert(b[i - 1] == t);
        }
        if b.contains(t) {
            let i = choose|i: int| 0 <= i < b.len() && b[i] == t;
            assert(a[i + 1] == t);
        }
        if t == all[k] {
            assert(a[0] == t);
        }
    }
}

/// Binary search in strictly sorted strings: `(true, i)` when `text` is the
/// `i`-th string, `(false, i)` when every string before `i` is smaller and
/// every string from `i` on is larger.
pub fn find_sorted(items: &Vec<String>, text: &str) -> (out: (bool, usize))
    requires
        strictly_sorted(texts(items@)),
    ensures
        out.1 <= items@.len(),
        out.0 ==> out.1 < items@.len() && texts(items@)[out.1 as int] == text@,
        !out.0 ==> (forall|i: int|
            0 <= i < out.1 ==> text_lt(#[trigger] texts(items@)[i], text@)),
        !out.0 ==> (forall|i: int|
            out.1 <= i < items@.len() ==> text_lt(text@, #[trigger] texts(items@)[i])),
{
    let ghost s = texts(items@);
    let mut lo: usize = 0;
    let mut hi: usize = items.len();
    while lo < hi
        invariant
            lo <= hi <= s.len(),
            s == texts(items@),
            strictly_sorted(s),
            forall|i: int| 0 <= i < lo ==> text_lt(#[trigger] s[i], text@),
            forall|i: int| hi <= i < s.len() ==> text_lt(text@, #[trigger] s[i]),
        decreases hi - lo,
    {
        let mid = lo + (hi - lo) / 2;
        assert(s[mid as int] == items@[mid as int]@);
        match compare_text(items[mid].as_str(), text) {
            TextOrder::Equal => {
                return (true, mid);
            },
            TextOrder::Less => {
                assert forall|i: int| 0 <= i < mid + 1 implies text_lt(#[trigger] s[i], text@) by {
                    if i < mid {
                        lemma_text_lt_transitive(s[i], s[mid as int], text@);
                    }
                }
                lo = mid + 1;
            },
            TextOrder::Greater => {
                assert forall|i: int| mid <= i < s.len() implies text_lt(text@, #[trigger] s[i]) by {
                    if i > mid {
                        lemma_text_lt_transitive(text@, s[mid as int], s[i]);
                    }
                }
                hi = mid;
            },
        }
    }
    (false, lo)
}

/// A text that [`find_sorted`] did not find is none of the strings.
pub proof fn lemma_not_found(s: Seq<Seq<char>>, text: Seq<char>, at: int)
    requires
        0 <= at <= s.len(),
        forall|i: int| 0 <= i < at ==> text_lt(#[trigger] s[i], text),
        forall|i: int| at <= i < s.len() ==> text_lt(text, #[trigger] s[i]),
    ensures
        forall|i: int| 0 <= i < s.len() ==> #[trigger] s[i] != text,
        !s.contains(text),
{
    lemma_text_lt_irreflexive(text);
    assert forall|i: int| 0 <= i < s.len() implies #[trigger] s[i] != text by {
        if i < at {
            assert(text_lt(s[i], text));
        } else {
            assert(text_lt(text, s[i]));
        }
    }
}

/// The first text of a strictly sorted sequence occurs nowhere after it.
proof fn lemma_head_not_in_tail(a: Seq<Seq<char>>)
    requires
        strictly_sorted(a),
        a.len() > 0,
    ensures
        forall|t: Seq<char>| #[trigger] a.drop_first().contains(t) <==> a.contains(t) && t != a[0],
        strictly_sorted(a.drop_first()),
{
    let d = a.drop_first();
    lemma_text_lt_irreflexive(a[0]);
    assert forall|t: Seq<char>| #[trigger] d.contains(t) <==> a.contains(t) && t != a[0] by {
        if d.contains(t) {
            let k = choose|k: int| 0 <= k < d.len() && d[k] == t;
            assert(a[k + 1] == t);
            assert(text_lt(a[0], a[k + 1]));
        }
        if a.contains(t) && t != a[0] {
            let k = choose|k: int| 0 <= k < a.len() && a[k] == t;
            assert(d[k - 1] == t);
        }
    }
    assert forall|i: int, j: int| 0 <= i < j < d.len() implies text_lt(#[trigger] d[i], #[trigger] d[j]) by {
        assert(d[i] == a[i + 1] && d[j] == a[j + 1]);
    }
}

/// Two strictly sorted sequences with the same texts are the same
/// sequence: the order in which a set presents its strings depends only on
/// which strings it holds.
pub proof fn lemma_sorted_texts_are_unique(a: Seq<Seq<char>>, b: Seq<Seq<char>>)
    requires
        strictly_sorted(a),
        strictly_sorted(b),
        forall|t: Seq<char>| a.contains(t) <==> b.contains(t),
    ensures
        a == b,
    decreases a.len(),
{
    if a.len() == 0 {
        if b.len() > 0 {
            assert(b.contains(b[0]));
        }
        assert(a =~= b);
    } else {
        assert(a.contains(a[0]));
        assert(b.contains(a[0]));
        let k = choose|k: int| 0 <= k < b.len() && b[k] == a[0];
        assert(b.contains(b[0]));
        assert(a.contains(b[0]));
        let m = choose|m: int| 0 <= m < a.len() && a[m] == b[0];
        lemma_text_lt_irreflexive(a[0]);
        lemma_text_lt_irreflexive(b[0]);
        if k > 0 {
            assert(text_lt(b[0], b[k]));
            if m > 0 {
                assert(text_lt(a[0], a[m]));
                lemma_text_lt_transitive(a[0], b[0], a[0]);
            }
        }
        assert(a[0] == b[0]);
        lemma_head_not_in_tail(a);
        lemma_head_not_in_tail(b);
        lemma_sorted_texts_are_unique(a.drop_first(), b.drop_first());
        assert(a =~= b) by {
            assert forall|i: int| 0 <= i < a.len() implies a[i] == b[i] by {
                if i > 0 {
                    assert(a[i] == a.drop_first()[i - 1]);
                    assert(b[i] == b.drop_first()[i - 1]);
                }
            }
        }
    }
}

/// A set of strings, held in ascending order without duplicates.
#[derive(Debug)]
pub struct StringSet {
    items: Vec<String>,
}

impl View for StringSet {
    type V = Seq<Seq<char>>;

    /// The texts of the set, in ascending order.
    closed spec fn view(&self) -> Seq<Seq<char>> {
        texts(self.items@)
    }
}

impl StringSet {
    #[verifier::type_invariant]
    pub closed spec fn well_formed(self) -> bool {
        strictly_sorted(self@)
    }

    /// The empty set.
    pub fn new() -> (out: StringSet)
        ensures
            out@ == Seq::<Seq<char>>::empty(),
    {
        let out = StringSet { items: Vec::new() };
        assert(out@ =~= Seq::<Seq<char>>::empty());
        out
    }

    /// The number of strings in the set.
    pub fn len(&self) -> (out: usize)
        ensures
            out == self@.len(),
    {
        self.items.len()
    }

    /// Where `text` stands or would stand in the set (see [`find_sorted`]).
    fn position(&self, text: &str) -> (out: (bool, usize))
        ensures
            out.1 <= self@.len(),
            out.0 ==> out.1 < self@.len() && self@[out.1 as int] == text@,
            !out.0 ==> (forall|i: int| 0 <= i < out.1 ==> text_lt(#[trigger] self@[i], text@)),
            !out.0 ==> (forall|i: int|
                out.1 <= i < self@.len() ==> text_lt(text@, #[trigger] self@[i])),
    {
        proof {
            use_type_invariant(self);
        }
        find_sorted(&self.items, text)
    }

    /// Whether `text` is in the set.
    pub fn contains(&self, text: &str) -> (out: bool)
        ensures
            out == self@.contains(text@),
    {
        let (found, at) = self.position(text);
        proof {
            if !found {
                lemma_not_found(self@, text@, at as int);
            }
        }
        found
    }

    /// Adds `text`; the set is unchanged when it already holds it.
    pub fn insert(&mut self, text: String)
        ensures
            forall|t: Seq<char>| #[trigger] final(self)@.contains(t) <==> old(self)@.contains(t)
                || t == text@,
            old(self)@.contains(text@) ==> final(self)@ == old(self)@,
    {
        proof {
            use_type_invariant(&*self);
        }
        let (found, at) = self.position(text.as_str());
        if found {
            return;
        }
        let ghost before = self@;
        let ghost x = text@;
        let mut items: Vec<String> = Vec::new();
        std::mem::swap(&mut items, &mut self.items);
        assert(texts(items@) == before);
        items.insert(at, text);
        let ghost after = texts(items@);
        assert(after =~= before.insert(at as int, x));
        assert forall|i: int, j: int| 0 <= i < j < after.len() implies text_lt(
            #[trigger] after[i],
            #[trigger] after[j],
        ) by {
            if j < at {
            } else if j == at {
            } else if i < at {
                assert(after[j] == before[j - 1]);
                assert(text_lt(before[i], before[j - 1]));
            } else if i == at {
                assert(after[j] == before[j - 1]);
            } else {
                assert(text_lt(before[i - 1], before[j - 1]));
            }
        }
        assert forall|t: Seq<char>| after.contains(t) <==> before.contains(t) || t == x by {
            if after.contains(t) {
                let k = choose|k: int| 0 <= k < after.len() && after[k] == t;
                if k < at {
                    assert(before[k] == t);
                } else if k > at {
                    assert(before[k - 1] == t);
                }
            }
            if before.contains(t) {
                let k = choose|k: int| 0 <= k < before.len() && before[k] == t;
                if k < at {
                    assert(after[k] == t);
                } else {
                    assert(after[k + 1] == t);
                }
            }
            if t == x {
                assert(after[at as int] == t);
            }
        }
        proof {
            if before.contains(x) {
                let k = choose|k: int| 0 <= k < before.len() && before[k] == x;
                lemma_text_lt_irreflexive(x);
                if k < at {
                    assert(text_lt(before[k], x));
                } else {
                    assert(text_lt(x, before[k]));
                }
            }
        }
        self.items = items;
    }

    /// Adds every string of `other`.
    pub fn extend(&mut self, other: StringSet)
        ensures
            forall|t: Seq<char>| #[trigger] final(self)@.contains(t) <==> old(self)@.contains(t)
                || other@.contains(t),
    {
        let mut rest = other.into_vec();
        let ghost all = texts(rest@);
        while rest.len() > 0
            invariant
                texts(rest@) == all.take(texts(rest@).len() as int),
                texts(rest@).len() <= all.len(),
                all == other@,
                forall|t: Seq<char>| #[trigger] self@.contains(t) <==> old(self)@.contains(t)
                    || all.skip(texts(rest@).len() as int).contains(t),
            decreases rest.len(),
        {
            let ghost n = rest.len() as int;
            let ghost before = rest@;
            let item = rest.pop().unwrap();
            assert(before == rest@.push(item));
            assert(texts(before)[n - 1] == item@);
            assert(all[n - 1] == item@);
            assert(texts(rest@) =~= all.take(n - 1));
            self.insert(item);
            proof {
                lemma_skip_one_more(all, n - 1);
            }
        }
        assert(all.skip(0) =~= all);
    }

    /// A set holding the strings of `values`.
    pub fn from_vec(values: Vec<String>) -> (out: StringSet)
        ensures
            forall|t: Seq<char>| #[trigger] out@.contains(t) <==> texts(values@).contains(t),
    {
        let mut out = StringSet::new();
        let mut rest = values;
        let ghost all = texts(rest@);
        while rest.len() > 0
            invariant
                texts(rest@) == all.take(texts(rest@).len() as int),
                texts(rest@).len() <= all.len(),
                forall|t: Seq<char>| #[trigger] out@.contains(t) <==> all.skip(
                    texts(rest@).len() as int,
                ).contains(t),
            decreases rest.len(),
        {
            let ghost n = rest.len() as int;
            let ghost before = rest@;
            let item = rest.pop().unwrap();
            assert(before == rest@.push(item));
            assert(texts(before)[n - 1] == item@);
            assert(all[n - 1] == item@);
            assert(texts(rest@) =~= all.take(n - 1));
            out.insert(item);
            proof {
                lemma_skip_one_more(all, n - 1);
            }
        }
        assert(all.skip(0) =~= all);
        out
    }

    /// The strings of the set, in ascending order.
    pub fn into_vec(self) -> (out: Vec<String>)
        ensures
            texts(out@) == self@,
            strictly_sorted(texts(out@)),
    {
        proof {
            use_type_invariant(&self);
        }
        self.items
    }
}

} // verus!
