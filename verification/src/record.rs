//! Canonical values and records (field name to value).

use vstd::prelude::*;

use crate::order::{lemma_utf8_leq_total, string_le, utf8_leq};
use crate::text::{copy_string, str_eq};

verus! {

/// A field value before canonicalization.
#[derive(Debug, PartialEq, Eq)]
pub enum CanonValue {
    Null,
    Bool(bool),
    String(String),
    /// Decimal encoded as `dec:<literal>` in tests or plain numeric string.
    Decimal(String),
    /// Timestamp encoded as `ts:<RFC3339>` in tests or plain RFC3339 string.
    Timestamp(String),
    Array(Vec<CanonValue>),
}

impl Clone for CanonValue {
    fn clone(&self) -> (r: Self)
        decreases self,
    {
        match self {
            CanonValue::Null => CanonValue::Null,
            CanonValue::Bool(b) => CanonValue::Bool(*b),
            CanonValue::String(s) => CanonValue::String(s.clone()),
            CanonValue::Decimal(s) => CanonValue::Decimal(s.clone()),
            CanonValue::Timestamp(s) => CanonValue::Timestamp(s.clone()),
            CanonValue::Array(items) => {
                assert(decreases_to!(self => items));
                let mut out: Vec<CanonValue> = Vec::new();
                let mut i: usize = 0;
                while i < items.len()
                    invariant
                        0 <= i <= items@.len(),
                        decreases_to!(self => items),
                    decreases items@.len() - i,
                {
                    assert(decreases_to!(items => items@));
                    assert(decreases_to!(items@ => items@[i as int]));
                    assert(decreases_to!(self => items@[i as int]));
                    out.push(items[i].clone());
                    i = i + 1;
                }
                CanonValue::Array(out)
            },
        }
    }
}

/// The value stored under `k`: the first entry with that name.
pub open spec fn lookup(entries: Seq<(String, CanonValue)>, k: Seq<char>) -> Option<CanonValue>
    decreases entries.len(),
{
    if entries.len() == 0 {
        None
    } else if entries[0].0@ == k {
        Some(entries[0].1)
    } else {
        lookup(entries.drop_first(), k)
    }
}

/// A record: values by field name.
#[derive(Debug, PartialEq, Eq)]
pub struct Record {
    entries: Vec<(String, CanonValue)>,
}

impl Record {
    /// The entries are kept sorted by name, each name once.
    #[verifier::type_invariant]
    spec fn wf(self) -> bool {
        keys_sorted(self.entries@)
    }
}

impl Clone for Record {
    fn clone(&self) -> (r: Self)
        ensures
            r@.dom() == self@.dom(),
    {
        proof {
            use_type_invariant(self);
        }
        let mut entries: Vec<(String, CanonValue)> = Vec::new();
        let mut i: usize = 0;
        while i < self.entries.len()
            invariant
                0 <= i <= self.entries@.len(),
                keys_sorted(self.entries@),
                entries@.len() == i,
                forall|t: int| 0 <= t < i ==> (#[trigger] entries@[t]).0@ == self.entries@[t].0@,
            decreases self.entries@.len() - i,
        {
            entries.push((copy_string(self.entries[i].0.as_str()), self.entries[i].1.clone()));
            i = i + 1;
        }
        proof {
            assert(keys_sorted(entries@)) by {
                assert forall|a: int, b: int| 0 <= a < b < entries@.len() implies utf8_leq()(
                    #[trigger] entries@[a].0@,
                    #[trigger] entries@[b].0@,
                ) && entries@[a].0@ != entries@[b].0@ by {
                    assert(self.entries@[a].0@ == entries@[a].0@);
                    assert(self.entries@[b].0@ == entries@[b].0@);
                }
            }
        }
        let r = Record { entries };
        proof {
            lemma_lookup_keys(self.entries@, r.entries@);
            assert(r@.dom() =~= self@.dom());
        }
        r
    }
}

proof fn lemma_lookup_keys(a: Seq<(String, CanonValue)>, b: Seq<(String, CanonValue)>)
    requires
        a.len() == b.len(),
        forall|t: int| 0 <= t < a.len() ==> (#[trigger] a[t]).0@ == b[t].0@,
    ensures
        forall|k: Seq<char>|
            #![trigger lookup(a, k)]
            #![trigger lookup(b, k)]
            lookup(a, k) is Some <==> lookup(b, k) is Some,
    decreases a.len(),
{
    if a.len() > 0 {
        assert forall|t: int| 0 <= t < a.drop_first().len() implies (
        #[trigger] a.drop_first()[t]).0@ == b.drop_first()[t].0@ by {
            assert(a[t + 1].0@ == b[t + 1].0@);
        }
        lemma_lookup_keys(a.drop_first(), b.drop_first());
        assert(a[0].0@ == b[0].0@);
        assert forall|k: Seq<char>| lookup(a, k) is Some <==> #[trigger] lookup(b, k) is Some by {
            assert(lookup(a.drop_first(), k) is Some <==> lookup(b.drop_first(), k) is Some);
        }
    }
}

impl View for Record {
    type V = Map<Seq<char>, CanonValue>;

    closed spec fn view(&self) -> Map<Seq<char>, CanonValue> {
        Map::new(
            |k: Seq<char>| lookup(self.entries@, k) is Some,
            |k: Seq<char>| lookup(self.entries@, k).unwrap(),
        )
    }
}

proof fn lemma_lookup_first(entries: Seq<(String, CanonValue)>, k: Seq<char>, i: int)
    requires
        0 <= i <= entries.len(),
        forall|j: int| 0 <= j < i ==> entries[j].0@ != k,
        i < entries.len() ==> entries[i].0@ == k,
    ensures
        lookup(entries, k) == (if i < entries.len() {
            Some(entries[i].1)
        } else {
            None::<CanonValue>
        }),
    decreases entries.len(),
{
    if entries.len() > 0 && i > 0 {
        lemma_lookup_first(entries.drop_first(), k, i - 1);
    }
}

proof fn lemma_lookup_update(
    entries: Seq<(String, CanonValue)>,
    i: int,
    e: (String, CanonValue),
    k: Seq<char>,
)
    requires
        0 <= i < entries.len(),
        entries[i].0@ == e.0@,
        forall|j: int| 0 <= j < i ==> entries[j].0@ != e.0@,
    ensures
        lookup(entries.update(i, e), k) == (if k == e.0@ {
            Some(e.1)
        } else {
            lookup(entries, k)
        }),
    decreases entries.len(),
{
    if i > 0 {
        assert(entries.update(i, e).drop_first() =~= entries.drop_first().update(i - 1, e));
        lemma_lookup_update(entries.drop_first(), i - 1, e, k);
    } else {
        assert(entries.update(i, e).drop_first() =~= entries.drop_first());
    }
}

proof fn lemma_lookup_insert(
    entries: Seq<(String, CanonValue)>,
    i: int,
    e: (String, CanonValue),
    k: Seq<char>,
)
    requires
        0 <= i <= entries.len(),
        lookup(entries, e.0@) is None,
    ensures
        lookup(entries.insert(i, e), k) == (if k == e.0@ {
            Some(e.1)
        } else {
            lookup(entries, k)
        }),
    decreases entries.len(),
{
    if i > 0 {
        assert(entries.insert(i, e).drop_first() =~= entries.drop_first().insert(i - 1, e));
        lemma_lookup_insert(entries.drop_first(), i - 1, e, k);
    } else {
        assert(entries.insert(i, e).drop_first() =~= entries);
    }
}

/// The entries hold each name once, in the order of their UTF-8 bytes (the
/// order of a `BTreeMap<String, _>`), so equal records hold equal entries.
pub open spec fn keys_sorted(e: Seq<(String, CanonValue)>) -> bool {
    forall|i: int, j: int|
        0 <= i < j < e.len() ==> utf8_leq()(#[trigger] e[i].0@, #[trigger] e[j].0@) && e[i].0@
            != e[j].0@
}

impl Record {
    /// An empty record.
    pub fn new() -> (r: Record)
        ensures
            r@ == Map::<Seq<char>, CanonValue>::empty(),
    {
        let r = Record { entries: Vec::new() };
        assert(r@ =~= Map::<Seq<char>, CanonValue>::empty());
        r
    }

    fn position(&self, k: &str) -> (r: usize)
        ensures
            r <= self.entries@.len(),
            forall|j: int| 0 <= j < r ==> self.entries@[j].0@ != k@,
            r < self.entries@.len() ==> self.entries@[r as int].0@ == k@,
    {
        let mut i: usize = 0;
        while i < self.entries.len() && !str_eq(self.entries[i].0.as_str(), k)
            invariant
                0 <= i <= self.entries@.len(),
                forall|j: int| 0 <= j < i ==> self.entries@[j].0@ != k@,
            decreases self.entries@.len() - i,
        {
            i = i + 1;
        }
        i
    }

    /// The value stored under a field name.
    pub fn get(&self, k: &str) -> (r: Option<&CanonValue>)
        ensures
            r is Some == self@.dom().contains(k@),
            r matches Some(v) ==> *v == self@[k@],
    {
        let i = self.position(k);
        proof {
            lemma_lookup_first(self.entries@, k@, i as int);
        }
        if i < self.entries.len() {
            Some(&self.entries[i].1)
        } else {
            None
        }
    }

    /// Stores a value under a field name, returning the value it replaces.
    pub fn insert(&mut self, k: String, v: CanonValue) -> (r: Option<CanonValue>)
        ensures
            final(self)@ == old(self)@.insert(k@, v),
            r == (if old(self)@.dom().contains(k@) {
                Some(old(self)@[k@])
            } else {
                None::<CanonValue>
            }),
    {
        proof {
            use_type_invariant(&*self);
        }
        let i = self.position(k.as_str());
        let mut entries: Vec<(String, CanonValue)> = Vec::new();
        std::mem::swap(&mut entries, &mut self.entries);
        let ghost old_entries = entries@;
        let ghost kv = k@;
        assert(old_entries == old(self).entries@);
        proof {
            lemma_lookup_first(old_entries, kv, i as int);
        }
        if i < entries.len() {
            let e = (k, v);
            let ghost ev = e;
            let old_entry = entries.remove(i);
            entries.insert(i, e);
            proof {
                assert(entries@ =~= old_entries.update(i as int, ev));
                assert forall|key: Seq<char>| #![auto]
                    lookup(entries@, key) == (if key == kv {
                        Some(ev.1)
                    } else {
                        lookup(old_entries, key)
                    }) by {
                    lemma_lookup_update(old_entries, i as int, ev, key);
                }
                assert(keys_sorted(entries@)) by {
                    assert forall|a: int, b: int| 0 <= a < b < entries@.len() implies utf8_leq()(
                        #[trigger] entries@[a].0@,
                        #[trigger] entries@[b].0@,
                    ) && entries@[a].0@ != entries@[b].0@ by {
                        assert(old_entries[a].0@ == entries@[a].0@);
                        assert(old_entries[b].0@ == entries@[b].0@);
                    }
                }
            }
            self.entries = entries;
            proof {
                assert(self@ =~= old(self)@.insert(kv, ev.1));
            }
            Some(old_entry.1)
        } else {
            let mut j: usize = 0;
            while j < entries.len() && !string_le(&k, &entries[j].0)
                invariant
                    0 <= j <= entries@.len(),
                    entries@ == old_entries,
                    kv == k@,
                    forall|t: int| 0 <= t < j ==> !utf8_leq()(kv, #[trigger] entries@[t].0@),
                decreases entries@.len() - j,
            {
                j = j + 1;
            }
            let e = (k, v);
            let ghost ev = e;
            entries.insert(j, e);
            proof {
                lemma_utf8_leq_total();
                assert(entries@ =~= old_entries.insert(j as int, ev));
                assert forall|key: Seq<char>| #![auto]
                    lookup(entries@, key) == (if key == kv {
                        Some(ev.1)
                    } else {
                        lookup(old_entries, key)
                    }) by {
                    lemma_lookup_insert(old_entries, j as int, ev, key);
                }
                assert(keys_sorted(entries@)) by {
                    assert forall|a: int, b: int| 0 <= a < b < entries@.len() implies utf8_leq()(
                        #[trigger] entries@[a].0@,
                        #[trigger] entries@[b].0@,
                    ) && entries@[a].0@ != entries@[b].0@ by {
                        let ka = entries@[a].0@;
                        let kb = entries@[b].0@;
                        if a < j && b < j {
                            assert(old_entries[a].0@ == ka && old_entries[b].0@ == kb);
                        } else if a < j && b == j {
                            assert(old_entries[a].0@ == ka);
                            assert(!utf8_leq()(kv, ka));
                            assert(ka != kv);
                        } else if a < j {
                            assert(old_entries[a].0@ == ka && old_entries[b - 1].0@ == kb);
                        } else if a == j {
                            assert(old_entries[b - 1].0@ == kb);
                            assert(kb != kv);
                            assert(utf8_leq()(kv, old_entries[j as int].0@));
                            if b - 1 > j {
                                assert(utf8_leq()(old_entries[j as int].0@, kb));
                            }
                        } else {
                            assert(old_entries[a - 1].0@ == ka && old_entries[b - 1].0@ == kb);
                        }
                    }
                }
            }
            self.entries = entries;
            proof {
                assert(self@ =~= old(self)@.insert(kv, ev.1));
            }
            None
        }
    }
}

} // verus!
