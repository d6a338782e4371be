//! String interning: each distinct text is stored once and named by its
//! position in the table.
use crate::fxmap::{text_get, text_insert, text_lookup, text_map_new, TextMap};
use vstd::prelude::*;

verus! {

/// No text occurs twice in the table.
pub open spec fn distinct_texts(t: Seq<Seq<char>>) -> bool {
    forall|i: int, j: int| 0 <= i < t.len() && 0 <= j < t.len() && i != j ==> t[i] != t[j]
}

/// The position of `s` in a table that holds it.
pub open spec fn position_of(t: Seq<Seq<char>>, s: Seq<char>) -> int {
    choose|i: int| 0 <= i < t.len() && t[i] == s
}

/// Interning `s` into table `t`: the table afterwards and the index handed
/// out. A text already present keeps its index; a new one is appended.
pub open spec fn intern_spec(t: Seq<Seq<char>>, s: Seq<char>) -> (Seq<Seq<char>>, int) {
    if t.contains(s) {
        (t, position_of(t, s))
    } else {
        (t.push(s), t.len() as int)
    }
}

/// The table that interning each text of `xs` in turn builds from empty:
/// the distinct texts in order of first occurrence.
pub open spec fn dedup_texts(xs: Seq<Seq<char>>) -> Seq<Seq<char>>
    decreases xs.len(),
{
    if xs.len() == 0 {
        Seq::empty()
    } else {
        intern_spec(dedup_texts(xs.drop_last()), xs.last()).0
    }
}

/// A string table under construction.
pub struct StringInterner {
    index: TextMap<u32>,
    strings: Vec<String>,
}

impl View for StringInterner {
    type V = Seq<Seq<char>>;

    closed spec fn view(&self) -> Seq<Seq<char>> {
        self.strings@.map_values(|s: String| s@)
    }
}

impl StringInterner {
    /// The index map and the table agree, and the table holds no text twice.
    pub closed spec fn wf(&self) -> bool {
        &&& self.strings.len() <= u32::MAX
        &&& distinct_texts(self@)
        &&& forall|key: String| #[trigger]
            self.index@.contains_key(key) ==> self.index@[key] < self.strings.len() && self@[self.index@[key] as int]
                == key@
        &&& forall|i: int|
            #![trigger self@[i]]
            0 <= i < self.strings.len() ==> exists|key: String| #[trigger]
                self.index@.contains_key(key) && key@ == self@[i] && self.index@[key] == i
    }

    /// An empty table.
    pub fn new() -> (r: StringInterner)
        ensures
            r@ == Seq::<Seq<char>>::empty(),
            r.wf(),
    {
        let r = StringInterner { index: text_map_new(), strings: Vec::new() };
        assert(r@ =~= Seq::<Seq<char>>::empty());
        r
    }

    /// The index of `s`: the one it already has, or the next free one, in
    /// which case `s` is appended to the table. The table must have room for
    /// one more 32-bit index.
    pub fn intern(&mut self, s: &str) -> (r: u32)
        requires
            old(self).wf(),
            old(self)@.len() < u32::MAX,
        ensures
            final(self).wf(),
            (final(self)@, r as int) == intern_spec(old(self)@, s@),
            distinct_texts(final(self)@),
    {
        match text_get(&self.index, s) {
            Some(i) => {
                let i = *i;
                proof {
                    let key = choose|key: String| #[trigger]
                        self.index@.contains_key(key) && key@ == s@;
                    assert(self.index@[key] == i);
                    assert(self@[i as int] == s@);
                    assert(self@.contains(s@));
                    let p = position_of(self@, s@);
                    assert(self@[p] == s@);
                }
                i
            },
            None => {
                let i = self.strings.len() as u32;
                proof {
                    assert(text_lookup(self.index@, s@) is None);
                    assert forall|j: int| 0 <= j < self@.len() implies self@[j] != s@ by {
                        let key = choose|key: String| #[trigger]
                            self.index@.contains_key(key) && key@ == self@[j] && self.index@[key]
                                == j;
                    }
                    assert(!self@.contains(s@));
                }
                let ghost old_strings = self@;
                let owned = s.to_owned();
                let key = s.to_owned();
                self.strings.push(owned);
                text_insert(&mut self.index, key, i);
                proof {
                    assert(self.index@ == old(self).index@.insert(key, i));
                    assert(self@ =~= old_strings.push(s@));
                    assert forall|k: String| #[trigger]
                        self.index@.contains_key(k) implies self.index@[k] < self.strings.len()
                        && self@[self.index@[k] as int] == k@ by {}
                    assert forall|j: int|
                        #![trigger self@[j]]
                        0 <= j < self.strings.len() implies exists|k: String| #[trigger]
                        self.index@.contains_key(k) && k@ == self@[j] && self.index@[k] == j by {
                        if j == i {
                            assert(self.index@.contains_key(key) && key@ == self@[j]);
                        } else {
                            let k = choose|k: String| #[trigger]
                                old(self).index@.contains_key(k) && k@ == old_strings[j]
                                    && old(self).index@[k] == j;
                            assert(old_strings[j] != s@);
                            assert(k != key);
                            assert(self.index@.contains_key(k));
                        }
                    }
                    assert(distinct_texts(self@)) by {
                        assert forall|a: int, b: int|
                            0 <= a < self@.len() && 0 <= b < self@.len() && a != b implies self@[a]
                            != self@[b] by {
                            if a < old_strings.len() && b < old_strings.len() {
                                assert(old_strings[a] != old_strings[b]);
                            } else if a < old_strings.len() {
                                assert(old_strings[a] != s@);
                            } else if b < old_strings.len() {
                                assert(old_strings[b] != s@);
                            }
                        }
                    }
                }
                i
            },
        }
    }

    /// The finished table.
    pub fn into_strings(self) -> (r: Vec<String>)
        requires
            self.wf(),
        ensures
            r@.map_values(|s: String| s@) == self@,
            distinct_texts(self@),
    {
        self.strings
    }
}

/// Idempotence: interning the same text a second time hands out the same
/// index and leaves the table as it was; the table never holds a text twice.
pub proof fn lemma_intern_idempotent(t: Seq<Seq<char>>, s: Seq<char>)
    requires
        distinct_texts(t),
    ensures
        ({
            let (t1, i1) = intern_spec(t, s);
            let (t2, i2) = intern_spec(t1, s);
            &&& distinct_texts(t1)
            &&& t2 == t1
            &&& i2 == i1
            &&& t1[i1] == s
        }),
{
    let (t1, i1) = intern_spec(t, s);
    if !t.contains(s) {
        assert(t1[t.len() as int] == s);
        assert(t1.contains(s));
    }
    let p = position_of(t1, s);
    assert(t1[p] == s);
    assert(t1[i1] == s);
}

/// Interning `n` distinct texts into an empty table yields exactly those
/// `n` entries, in order, with no duplicates.
pub proof fn lemma_intern_distinct(xs: Seq<Seq<char>>)
    requires
        distinct_texts(xs),
    ensures
        dedup_texts(xs) == xs,
        dedup_texts(xs).len() == xs.len(),
    decreases xs.len(),
{
    if xs.len() > 0 {
        let init = xs.drop_last();
        assert(distinct_texts(init));
        lemma_intern_distinct(init);
        assert(!init.contains(xs.last())) by {
            if init.contains(xs.last()) {
                let j = choose|j: int| 0 <= j < init.len() && init[j] == xs.last();
                assert(xs[j] == xs[xs.len() - 1]);
            }
        }
        assert(init.push(xs.last()) =~= xs);
    }
}

} // verus!
