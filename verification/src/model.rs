//! Data model for key-value pairs.

use vstd::prelude::*;

verus! {

/// A set of key-value pairs deserialized from the KIVI format.
///
/// The struct records the full insertion-ordered history of committed pairs,
/// duplicates included.  The key-to-value mapping is derived from it: a point
/// lookup returns the value of the most recently committed pair for a key
/// ("last write wins"), while the ordered accessors expose the history as it
/// was committed.
#[derive(Debug, Clone, PartialEq)]
pub struct KeyValuePairs {
    pub(crate) ordered_keys: Vec<String>,
    pub(crate) ordered_values: Vec<String>,
}

impl View for KeyValuePairs {
    type V = Seq<(Seq<char>, Seq<char>)>;

    closed spec fn view(&self) -> Seq<(Seq<char>, Seq<char>)> {
        Seq::new(
            self.ordered_keys@.len(),
            |i: int| (self.ordered_keys@[i]@, self.ordered_values@[i]@),
        )
    }
}

/// The value that a point lookup for `key` yields from the committed history
/// `pairs`: the value of the last pair whose key equals `key`, if any.
pub open spec fn lookup(pairs: Seq<(Seq<char>, Seq<char>)>, key: Seq<char>) -> Option<Seq<char>>
    decreases pairs.len(),
{
    if pairs.len() == 0 {
        None
    } else if pairs.last().0 == key {
        Some(pairs.last().1)
    } else {
        lookup(pairs.drop_last(), key)
    }
}

/// The distinct keys of the committed history, each at the position of its
/// first occurrence.
pub open spec fn first_keys(pairs: Seq<(Seq<char>, Seq<char>)>) -> Seq<Seq<char>>
    decreases pairs.len(),
{
    if pairs.len() == 0 {
        Seq::empty()
    } else if lookup(pairs.drop_last(), pairs.last().0) is Some {
        first_keys(pairs.drop_last())
    } else {
        first_keys(pairs.drop_last()).push(pairs.last().0)
    }
}

/// A lookup succeeds exactly for the keys that occur in the history.
pub proof fn lemma_lookup_some_iff(pairs: Seq<(Seq<char>, Seq<char>)>, key: Seq<char>)
    ensures
        lookup(pairs, key) is Some <==> exists|j: int| 0 <= j < pairs.len() && pairs[j].0 == key,
    decreases pairs.len(),
{
    if pairs.len() == 0 {
    } else if pairs.last().0 == key {
        assert(pairs[pairs.len() - 1].0 == key);
    } else {
        lemma_lookup_some_iff(pairs.drop_last(), key);
        let d = pairs.drop_last();
        assert(forall|j: int| 0 <= j < d.len() ==> #[trigger] d[j] == pairs[j]);
        if exists|j: int| 0 <= j < pairs.len() && pairs[j].0 == key {
            let j = choose|j: int| 0 <= j < pairs.len() && pairs[j].0 == key;
            assert(j < pairs.len() - 1 && d[j].0 == key);
        }
    }
}

/// Last write wins: when no later pair carries the same key, a lookup for the
/// key of the pair at position `j` yields exactly that pair's value.
pub proof fn lemma_lookup_last_occurrence(pairs: Seq<(Seq<char>, Seq<char>)>, j: int)
    requires
        0 <= j < pairs.len(),
        forall|t: int| j < t < pairs.len() ==> (#[trigger] pairs[t]).0 != pairs[j].0,
    ensures
        lookup(pairs, pairs[j].0) == Some(pairs[j].1),
    decreases pairs.len(),
{
    if j == pairs.len() - 1 {
        assert(pairs.last() == pairs[j]);
    } else {
        assert(pairs.last() == pairs[pairs.len() - 1]);
        assert(pairs.last().0 != pairs[j].0);
        let d = pairs.drop_last();
        assert(forall|t: int| 0 <= t < d.len() ==> #[trigger] d[t] == pairs[t]);
        lemma_lookup_last_occurrence(d, j);
    }
}

/// The mapping is never larger than the committed history: there are at most
/// as many distinct keys as committed pairs.
pub proof fn lemma_first_keys_bound(pairs: Seq<(Seq<char>, Seq<char>)>)
    ensures
        first_keys(pairs).len() <= pairs.len(),
    decreases pairs.len(),
{
    if pairs.len() > 0 {
        lemma_first_keys_bound(pairs.drop_last());
    }
}

/// Every entry of `first_keys` is the key of some committed pair.
pub proof fn lemma_first_keys_occur(pairs: Seq<(Seq<char>, Seq<char>)>)
    ensures
        forall|i: int|
            0 <= i < first_keys(pairs).len() ==> exists|j: int|
                0 <= j < pairs.len() && pairs[j].0 == #[trigger] first_keys(pairs)[i],
    decreases pairs.len(),
{
    if pairs.len() == 0 {
    } else {
        let d = pairs.drop_last();
        lemma_first_keys_occur(d);
        assert(forall|j: int| 0 <= j < d.len() ==> #[trigger] d[j] == pairs[j]);
        assert forall|i: int| 0 <= i < first_keys(pairs).len() implies exists|j: int|
            0 <= j < pairs.len() && pairs[j].0 == #[trigger] first_keys(pairs)[i] by {
            if i < first_keys(d).len() {
                assert(first_keys(pairs)[i] == first_keys(d)[i]);
                let j = choose|j: int| 0 <= j < d.len() && d[j].0 == first_keys(d)[i];
                assert(pairs[j].0 == first_keys(pairs)[i]);
            } else {
                assert(first_keys(pairs)[i] == pairs.last().0);
                assert(pairs[pairs.len() - 1].0 == first_keys(pairs)[i]);
            }
        }
    }
}

impl KeyValuePairs {
    /// Both ordered collections pair up: one value for every key.
    pub closed spec fn wf(&self) -> bool {
        self.ordered_keys@.len() == self.ordered_values@.len()
    }

    /// Creates an empty set of key-value pairs.
    pub(crate) fn new() -> (r: Self)
        ensures
            r.wf(),
            r@ =~= Seq::<(Seq<char>, Seq<char>)>::empty(),
    {
        Self { ordered_keys: Vec::new(), ordered_values: Vec::new() }
    }

    /// Appends one committed pair to the history.
    pub(crate) fn push_pair(&mut self, key: String, value: String)
        requires
            old(self).wf(),
        ensures
            final(self).wf(),
            final(self)@ =~= old(self)@.push((key@, value@)),
    {
        self.ordered_keys.push(key);
        self.ordered_values.push(value);
    }

    /// Returns `true` when the set of key-value pairs is empty.
    pub fn is_empty(&self) -> (r: bool)
        requires
            self.wf(),
        ensures
            r == (self@.len() == 0),
    {
        self.ordered_keys.len() == 0
    }

    /// Returns `true` when one of the first `upto` committed pairs has the
    /// key `k`.
    fn key_appears_before(&self, upto: usize, k: &String) -> (r: bool)
        requires
            self.wf(),
            upto <= self@.len(),
        ensures
            r == exists|j: int| 0 <= j < upto && #[trigger] self@[j].0 == k@,
    {
        let mut j: usize = 0;
        while j < upto
            invariant
                j <= upto,
                upto <= self@.len(),
                self.wf(),
                forall|t: int| 0 <= t < j ==> #[trigger] self@[t].0 != k@,
            decreases upto - j,
        {
            if self.ordered_keys[j] == *k {
                assert(self@[j as int].0 == k@);
                return true;
            }
            j = j + 1;
        }
        false
    }

    /// Returns the value associated with the specified key: the value of the
    /// most recently committed pair for that key ("last write wins").
    pub fn get(&self, key: &str) -> (r: Option<&String>)
        requires
            self.wf(),
        ensures
            match r {
                Some(v) => lookup(self@, key@) == Some(v@),
                None => lookup(self@, key@) is None,
            },
    {
        let key_owned: String = key.to_owned();
        let n = self.ordered_keys.len();
        proof {
            assert(self@.subrange(0, n as int) =~= self@);
        }
        let mut i: usize = n;
        while i > 0
            invariant
                i <= n,
                n == self@.len(),
                self.wf(),
                key_owned@ == key@,
                lookup(self@, key@) == lookup(self@.subrange(0, i as int), key@),
            decreases i,
        {
            let ghost p = self@.subrange(0, i as int);
            if self.ordered_keys[i - 1] == key_owned {
                proof {
                    assert(p.last() == self@[i - 1]);
                    assert(lookup(p, key@) == Some(self@[i - 1].1));
                }
                return Some(&self.ordered_values[i - 1]);
            }
            proof {
                assert(p.last() == self@[i - 1]);
                assert(p.drop_last() =~= self@.subrange(0, i - 1));
            }
            i = i - 1;
        }
        proof {
            assert(self@.subrange(0, 0).len() == 0);
        }
        None
    }

    /// Returns the number of keys in the mapping: distinct keys, however many
    /// pairs were committed for each.
    pub fn len(&self) -> (r: usize)
        requires
            self.wf(),
        ensures
            r == first_keys(self@).len(),
    {
        let n = self.ordered_keys.len();
        let mut count: usize = 0;
        let mut i: usize = 0;
        proof {
            assert(self@.subrange(0, 0) =~= Seq::<(Seq<char>, Seq<char>)>::empty());
        }
        while i < n
            invariant
                i <= n,
                n == self@.len(),
                self.wf(),
                count <= i,
                count == first_keys(self@.subrange(0, i as int)).len(),
            decreases n - i,
        {
            let ghost p = self@.subrange(0, i as int + 1);
            let appears = self.key_appears_before(i, &self.ordered_keys[i]);
            proof {
                assert(p.last() == self@[i as int]);
                assert(p.drop_last() =~= self@.subrange(0, i as int));
                lemma_lookup_some_iff(p.drop_last(), p.last().0);
                assert(p.last().0 == self.ordered_keys@[i as int]@);
                assert(forall|j: int|
                    0 <= j < i ==> #[trigger] p.drop_last()[j] == self@[j]);
                if appears {
                    let j = choose|j: int|
                        0 <= j < i && #[trigger] self@[j].0 == self.ordered_keys@[i as int]@;
                    assert(p.drop_last()[j].0 == p.last().0);
                    assert(lookup(p.drop_last(), p.last().0) is Some);
                } else {
                    assert(forall|j: int|
                        0 <= j < p.drop_last().len() ==> #[trigger] p.drop_last()[j].0
                            != p.last().0);
                    assert(lookup(p.drop_last(), p.last().0) is None);
                }
            }
            if !appears {
                count = count + 1;
            }
            i = i + 1;
        }
        proof {
            assert(self@.subrange(0, n as int) =~= self@);
        }
        count
    }

    /// Returns the keys of the mapping, each distinct key once, in the order
    /// of its first occurrence in the committed history.
    pub fn keys(&self) -> (r: Vec<String>)
        requires
            self.wf(),
        ensures
            r.deep_view() == first_keys(self@),
    {
        let n = self.ordered_keys.len();
        let mut r: Vec<String> = Vec::new();
        let mut i: usize = 0;
        proof {
            assert(self@.subrange(0, 0) =~= Seq::<(Seq<char>, Seq<char>)>::empty());
            assert(r.deep_view() =~= first_keys(self@.subrange(0, 0)));
        }
        while i < n
            invariant
                i <= n,
                n == self@.len(),
                self.wf(),
                r.deep_view() == first_keys(self@.subrange(0, i as int)),
            decreases n - i,
        {
            let ghost p = self@.subrange(0, i as int + 1);
            let ghost r0 = r.deep_view();
            let appears = self.key_appears_before(i, &self.ordered_keys[i]);
            proof {
                assert(p.last() == self@[i as int]);
                assert(p.drop_last() =~= self@.subrange(0, i as int));
                lemma_lookup_some_iff(p.drop_last(), p.last().0);
                assert(p.last().0 == self.ordered_keys@[i as int]@);
                assert(forall|j: int|
                    0 <= j < i ==> #[trigger] p.drop_last()[j] == self@[j]);
                if appears {
                    let j = choose|j: int|
                        0 <= j < i && #[trigger] self@[j].0 == self.ordered_keys@[i as int]@;
                    assert(p.drop_last()[j].0 == p.last().0);
                    assert(lookup(p.drop_last(), p.last().0) is Some);
                } else {
                    assert(forall|j: int|
                        0 <= j < p.drop_last().len() ==> #[trigger] p.drop_last()[j].0
                            != p.last().0);
                    assert(lookup(p.drop_last(), p.last().0) is None);
                }
            }
            if !appears {
                let k = self.ordered_keys[i].clone();
                r.push(k);
                proof {
                    assert(r.deep_view() =~= r0.push(self@[i as int].0));
                }
            }
            i = i + 1;
        }
        proof {
            assert(self@.subrange(0, n as int) =~= self@);
        }
        r
    }

    /// Returns the values of the mapping, one for each distinct key in the
    /// order that [`Self::keys`] uses: for every key, the value of its most
    /// recently committed pair.
    pub fn values(&self) -> (r: Vec<String>)
        requires
            self.wf(),
        ensures
            r.deep_view().len() == first_keys(self@).len(),
            forall|i: int|
                0 <= i < first_keys(self@).len() ==> lookup(self@, first_keys(self@)[i]) == Some(
                    #[trigger] r.deep_view()[i],
                ),
    {
        let ks = self.keys();
        let n = ks.len();
        let mut r: Vec<String> = Vec::new();
        let mut i: usize = 0;
        while i < n
            invariant
                i <= n,
                n == ks.deep_view().len(),
                ks.deep_view() == first_keys(self@),
                self.wf(),
                r.deep_view().len() == i,
                forall|t: int|
                    0 <= t < i ==> lookup(self@, first_keys(self@)[t]) == Some(
                        #[trigger] r.deep_view()[t],
                    ),
            decreases n - i,
        {
            let ghost r0 = r.deep_view();
            proof {
                lemma_first_keys_occur(self@);
                assert(ks.deep_view()[i as int] == first_keys(self@)[i as int]);
                lemma_lookup_some_iff(self@, first_keys(self@)[i as int]);
                assert(ks@[i as int]@ == first_keys(self@)[i as int]);
            }
            match self.get(ks[i].as_str()) {
                Some(v) => {
                    let vc = v.clone();
                    r.push(vc);
                    proof {
                        assert(r.deep_view() =~= r0.push(v@));
                    }
                },
                None => {
                    proof {
                        assert(false);
                    }
                },
            }
            i = i + 1;
        }
        r
    }

    /// Returns the keys of every committed pair, duplicates included, in the
    /// order of commitment.
    pub fn ordered_keys(&self) -> (r: &Vec<String>)
        requires
            self.wf(),
        ensures
            r@.len() == self@.len(),
            forall|i: int| 0 <= i < self@.len() ==> #[trigger] r@[i]@ == self@[i].0,
    {
        &self.ordered_keys
    }

    /// Returns the values of every committed pair, duplicates included, in
    /// the order of commitment.
    pub fn ordered_values(&self) -> (r: &Vec<String>)
        requires
            self.wf(),
        ensures
            r@.len() == self@.len(),
            forall|i: int| 0 <= i < self@.len() ==> #[trigger] r@[i]@ == self@[i].1,
    {
        &self.ordered_values
    }

    /// Returns every committed pair, duplicates included, in the order of
    /// commitment.
    pub fn ordered_key_value_pairs(&self) -> (r: Vec<(String, String)>)
        requires
            self.wf(),
        ensures
            r@.len() == self@.len(),
            forall|i: int|
                0 <= i < self@.len() ==> (#[trigger] r@[i]).0@ == self@[i].0 && r@[i].1@
                    == self@[i].1,
    {
        let n = self.ordered_keys.len();
        let mut r: Vec<(String, String)> = Vec::new();
        let mut i: usize = 0;
        while i < n
            invariant
                i <= n,
                n == self@.len(),
                self.wf(),
                r@.len() == i,
                forall|t: int|
                    0 <= t < i ==> (#[trigger] r@[t]).0@ == self@[t].0 && r@[t].1@ == self@[t].1,
            decreases n - i,
        {
            let k = self.ordered_keys[i].clone();
            let v = self.ordered_values[i].clone();
            r.push((k, v));
            i = i + 1;
        }
        r
    }
}

} // verus!
