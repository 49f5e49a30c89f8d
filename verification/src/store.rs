//! The ordered multi-valued key-value store.
//!
//! `UrlEncodedData` owns the pairs decoded from one input string: a map from
//! each distinct key to its values in insertion order, and a ledger of the
//! order in which distinct keys first arrived during the parse. The ledger
//! only serves the original-order read views; mutation never reorders or
//! rewrites it, and a delete leaves it untouched.

use crate::codec::decode_pairs_str;
use crate::codec::decoded_pairs;
use crate::codec::PairView;
use crate::segment::spec_data_segment;
use crate::segment::spec_prefix;
use crate::segment::split_url_encoded_string;
use vstd::prelude::*;
use vstd::string::StrSliceExecFns;
use vstd::string::StringExecFns;

verus! {

/// View of one store entry: the key, and its values in insertion order.
pub type EntryView = (Seq<char>, Seq<Seq<char>>);

/// Index of the entry holding key `k`, or `-1` if no entry does.
pub open spec fn key_index(es: Seq<EntryView>, k: Seq<char>) -> int
    decreases es.len(),
{
    if es.len() == 0 {
        -1
    } else if es[0].0 == k {
        0
    } else {
        let r = key_index(es.drop_first(), k);
        if r == -1 {
            -1
        } else {
            r + 1
        }
    }
}

/// Whether some entry holds key `k`.
pub open spec fn has_key(es: Seq<EntryView>, k: Seq<char>) -> bool {
    key_index(es, k) >= 0
}

/// The keys of the entries, in entry order.
pub open spec fn entry_keys(es: Seq<EntryView>) -> Seq<Seq<char>> {
    es.map_values(|e: EntryView| e.0)
}

/// No two entries share a key.
pub open spec fn entries_wf(es: Seq<EntryView>) -> bool {
    forall|i: int, j: int| 0 <= i < j < es.len() ==> es[i].0 != es[j].0
}

/// `key_index` returns `-1` exactly when the key is absent, and otherwise
/// the least index of an entry holding it.
pub proof fn lemma_key_index(es: Seq<EntryView>, k: Seq<char>)
    ensures
        key_index(es, k) == -1 ==> forall|i: int| 0 <= i < es.len() ==> es[i].0 != k,
        key_index(es, k) != -1 ==> 0 <= key_index(es, k) < es.len() && es[key_index(es, k)].0 == k
            && (forall|i: int| 0 <= i < key_index(es, k) ==> es[i].0 != k),
    decreases es.len(),
{
    if es.len() == 0 {
    } else if es[0].0 == k {
    } else {
        let rest = es.drop_first();
        lemma_key_index(rest, k);
        let r = key_index(rest, k);
        if r == -1 {
            assert forall|i: int| 0 <= i < es.len() implies es[i].0 != k by {
                if i > 0 {
                    assert(rest[i - 1].0 != k);
                }
            }
        } else {
            assert(es[r + 1] == rest[r]);
            assert forall|i: int| 0 <= i < r + 1 implies es[i].0 != k by {
                if i > 0 {
                    assert(rest[i - 1].0 != k);
                }
            }
        }
    }
}

/// If entry `i` holds `k` and no earlier entry does, `key_index` returns `i`.
pub proof fn lemma_key_index_at(es: Seq<EntryView>, k: Seq<char>, i: int)
    requires
        0 <= i < es.len(),
        es[i].0 == k,
        forall|j: int| 0 <= j < i ==> es[j].0 != k,
    ensures
        key_index(es, k) == i,
    decreases i,
{
    if i == 0 {
    } else {
        let rest = es.drop_first();
        assert(rest[i - 1].0 == k);
        assert(forall|j: int| 0 <= j < i - 1 ==> rest[j] == es[j + 1]);
        lemma_key_index_at(rest, k, i - 1);
    }
}

/// One parsed pair folded into the entries: the value is appended to its
/// key's list, or a new one-value entry is created at the end.
pub open spec fn add_pair(es: Seq<EntryView>, p: PairView) -> Seq<EntryView> {
    let i = key_index(es, p.0);
    if i == -1 {
        es.push((p.0, seq![p.1]))
    } else {
        es.update(i, (es[i].0, es[i].1.push(p.1)))
    }
}

/// The entries a parsed pair sequence folds into, in order.
pub open spec fn fold_entries(ps: Seq<PairView>) -> Seq<EntryView>
    decreases ps.len(),
{
    if ps.len() == 0 {
        Seq::empty()
    } else {
        add_pair(fold_entries(ps.drop_last()), ps.last())
    }
}

/// One parsed pair's key folded into the arrival ledger.
pub open spec fn add_ledger_key(l: Seq<Seq<char>>, k: Seq<char>) -> Seq<Seq<char>> {
    if l.contains(k) {
        l
    } else {
        l.push(k)
    }
}

/// The arrival ledger a parsed pair sequence builds: each distinct key once,
/// in order of first occurrence.
pub open spec fn fold_ledger(ps: Seq<PairView>) -> Seq<Seq<char>>
    decreases ps.len(),
{
    if ps.len() == 0 {
        Seq::empty()
    } else {
        add_ledger_key(fold_ledger(ps.drop_last()), ps.last().0)
    }
}

/// The values carried by pairs whose key is `k`, in order of appearance.
pub open spec fn values_with_key(ps: Seq<PairView>, k: Seq<char>) -> Seq<Seq<char>>
    decreases ps.len(),
{
    if ps.len() == 0 {
        Seq::empty()
    } else {
        let rest = values_with_key(ps.drop_last(), k);
        if ps.last().0 == k {
            rest.push(ps.last().1)
        } else {
            rest
        }
    }
}

/// If no entry holds `k`, `key_index` reports it absent.
proof fn lemma_key_index_none(es: Seq<EntryView>, k: Seq<char>)
    requires
        forall|i: int| 0 <= i < es.len() ==> es[i].0 != k,
    ensures
        key_index(es, k) == -1,
{
    lemma_key_index(es, k);
}

/// Multiplicity preserved: folding parsed pairs into the store neither
/// merges, drops, nor reorders values. For every key, the entry built for
/// it holds exactly the values of that key's pairs, in order of appearance;
/// a key without pairs gets no entry.
pub proof fn lemma_multiplicity_preserved(ps: Seq<PairView>, k: Seq<char>)
    ensures
        has_key(fold_entries(ps), k) ==> fold_entries(ps)[key_index(fold_entries(ps), k)].1
            == values_with_key(ps, k),
        !has_key(fold_entries(ps), k) ==> values_with_key(ps, k) == Seq::<Seq<char>>::empty(),
    decreases ps.len(),
{
    if ps.len() == 0 {
    } else {
        let rest = ps.drop_last();
        let p = ps.last();
        let es0 = fold_entries(rest);
        let es = fold_entries(ps);
        let ki0 = key_index(es0, p.0);
        lemma_multiplicity_preserved(rest, k);
        lemma_key_index(es0, p.0);
        lemma_key_index(es0, k);
        if ki0 == -1 {
            assert(es == es0.push((p.0, seq![p.1])));
            if p.0 == k {
                lemma_key_index_at(es, k, es0.len() as int);
                assert(es[es0.len() as int].1 == seq![p.1]);
                assert(values_with_key(ps, k) == values_with_key(rest, k).push(p.1));
                assert(Seq::<Seq<char>>::empty().push(p.1) =~= seq![p.1]);
            } else {
                if key_index(es0, k) >= 0 {
                    let t = key_index(es0, k);
                    assert(es[t] == es0[t]);
                    lemma_key_index_at(es, k, t);
                } else {
                    assert forall|i: int| 0 <= i < es.len() implies es[i].0 != k by {
                        if i < es0.len() {
                            assert(es[i] == es0[i]);
                        }
                    }
                    lemma_key_index_none(es, k);
                }
            }
        } else {
            assert(es == es0.update(ki0, (es0[ki0].0, es0[ki0].1.push(p.1))));
            assert(es.len() == es0.len());
            assert(forall|i: int| 0 <= i < es0.len() ==> es[i].0 == es0[i].0);
            lemma_key_index_same_keys(es, es0, k);
            if p.0 == k {
                assert(key_index(es, k) == ki0);
                assert(es[ki0].1 == es0[ki0].1.push(p.1));
            } else {
                let t = key_index(es0, k);
                if t >= 0 {
                    lemma_key_index(es0, k);
                    assert(es0[t].0 == k);
                    assert(es0[ki0].0 == p.0);
                    assert(t != ki0);
                    assert(es[t] == es0[t]);
                }
            }
        }
    }
}

/// The form-urlencoded data of one input string: a prefix kept verbatim, the
/// data segment it was parsed from, the multi-valued entries, and the
/// arrival ledger of first-seen key order.
#[derive(Clone)]
pub struct UrlEncodedData {
    prefix: String,
    /// The still-encoded data segment the store was parsed from.
    pub original_data_str: String,
    entries: Vec<(String, Vec<String>)>,
    original_keys_in_order: Vec<String>,
}

impl UrlEncodedData {
    /// The prefix reattached by the serializers.
    pub closed spec fn prefix_view(&self) -> Seq<char> {
        self.prefix@
    }

    /// The still-encoded data segment the store was parsed from, as text.
    pub closed spec fn data_view(&self) -> Seq<char> {
        self.original_data_str@
    }

    /// The entries: each key with its values in insertion order.
    pub closed spec fn entries_view(&self) -> Seq<EntryView> {
        self.entries.deep_view()
    }

    /// The arrival ledger: distinct keys in order of first appearance
    /// during the original parse.
    pub closed spec fn ledger_view(&self) -> Seq<Seq<char>> {
        self.original_keys_in_order.deep_view()
    }

    /// Well-formedness: entry keys are unique, and so are ledger keys.
    pub open spec fn wf(&self) -> bool {
        &&& entries_wf(self.entries_view())
        &&& self.ledger_view().no_duplicates()
    }

    /// Parses an input string into a store: the input is split at its first
    /// `?`, the data segment is decoded, and the pairs are folded into
    /// entries and ledger in order. Total: any input yields a store.
    pub fn parse_from_data_str(s: &str) -> (r: Self)
        ensures
            r.wf(),
            r.prefix_view() == spec_prefix(s@),
            r.data_view() == spec_data_segment(s@),
            r.entries_view() == fold_entries(decoded_pairs(spec_data_segment(s@))),
            r.ledger_view() == fold_ledger(decoded_pairs(spec_data_segment(s@))),
    {
        let (prefix, data) = split_url_encoded_string(s);
        let pairs = decode_pairs_str(data);
        let ghost pv = pairs.deep_view();
        let mut entries: Vec<(String, Vec<String>)> = Vec::new();
        let mut ledger: Vec<String> = Vec::new();
        let mut i: usize = 0;
        proof {
            assert(entries.deep_view() =~= Seq::<EntryView>::empty());
            assert(ledger.deep_view() =~= Seq::<Seq<char>>::empty());
            assert(pv.take(0) =~= Seq::<PairView>::empty());
        }
        while i < pairs.len()
            invariant
                0 <= i <= pairs.len(),
                pv == pairs.deep_view(),
                pv.len() == pairs.len(),
                entries.deep_view() == fold_entries(pv.take(i as int)),
                ledger.deep_view() == fold_ledger(pv.take(i as int)),
                entries_wf(entries.deep_view()),
                ledger.deep_view().no_duplicates(),
            decreases pairs.len() - i,
        {
            let k = pairs[i].0.clone();
            let v = pairs[i].1.clone();
            let ghost es = entries.deep_view();
            let ghost lv = ledger.deep_view();
            let ghost p: PairView = (k@, v@);
            proof {
                assert(pv[i as int] == (pairs[i as int].0@, pairs[i as int].1@));
                assert(p == pv[i as int]);
                assert(pv.take(i + 1).drop_last() =~= pv.take(i as int));
                assert(pv.take(i + 1).last() == p);
                lemma_key_index(es, k@);
            }
            match find_entry(&entries, k.as_str()) {
                Some(j) => {
                    let ghost old_vals = es[j as int].1;
                    entries[j].1.push(v);
                    proof {
                        assert(entries.deep_view() =~~= es.update(
                            j as int,
                            (es[j as int].0, old_vals.push(p.1)),
                        )) by {
                            assert(forall|t: int|
                                0 <= t < entries@.len() ==> entries.deep_view()[t] == (
                                entries@[t].0@,
                                entries@[t].1.deep_view(),
                                ));
                        }
                        assert(es[j as int].0 == p.0);
                        assert(entries.deep_view() == add_pair(es, p));
                        assert(entries_wf(entries.deep_view()));
                    }
                },
                None => {
                    let mut vals: Vec<String> = Vec::new();
                    vals.push(v);
                    entries.push((k.clone(), vals));
                    proof {
                        assert(entries.deep_view() =~~= es.push((p.0, seq![p.1]))) by {
                            assert(forall|t: int|
                                0 <= t < entries@.len() ==> entries.deep_view()[t] == (
                                entries@[t].0@,
                                entries@[t].1.deep_view(),
                                ));
                        }
                        assert(entries.deep_view() == add_pair(es, p));
                        assert forall|a: int, b: int|
                            0 <= a < b < entries.deep_view().len() implies entries.deep_view()[a].0
                            != entries.deep_view()[b].0 by {
                            if b == es.len() as int {
                                assert(entries.deep_view()[a].0 == es[a].0);
                            }
                        }
                    }
                },
            }
            if !contains_string(&ledger, k.as_str()) {
                ledger.push(k);
                proof {
                    assert(ledger.deep_view() =~= lv.push(p.0));
                    assert(ledger.deep_view() == add_ledger_key(lv, p.0));
                    assert forall|a: int, b: int|
                        0 <= a < b < ledger.deep_view().len() implies ledger.deep_view()[a]
                        != ledger.deep_view()[b] by {
                        if b == lv.len() as int {
                            assert(ledger.deep_view()[a] == lv[a]);
                            assert(lv.contains(lv[a]));
                        }
                    }
                }
            } else {
                proof {
                    assert(ledger.deep_view() == add_ledger_key(lv, p.0));
                }
            }
            i = i + 1;
        }
        proof {
            assert(pv.take(pv.len() as int) =~= pv);
        }
        UrlEncodedData {
            prefix: prefix.to_owned(),
            original_data_str: data.to_owned(),
            entries,
            original_keys_in_order: ledger,
        }
    }
}

/// Total number of pairs: the sum of all value-list lengths.
pub open spec fn total_pairs(es: Seq<EntryView>) -> nat
    decreases es.len(),
{
    if es.len() == 0 {
        0
    } else {
        total_pairs(es.drop_last()) + es.last().1.len()
    }
}

/// The entries after `set`: the key's value list replaced wholesale, or a
/// new entry appended when the key is absent.
pub open spec fn set_key(es: Seq<EntryView>, k: Seq<char>, vs: Seq<Seq<char>>) -> Seq<EntryView> {
    let i = key_index(es, k);
    if i == -1 {
        es.push((k, vs))
    } else {
        es.update(i, (k, vs))
    }
}

impl UrlEncodedData {
    /// All values for `key` in insertion order; absent keys report `None`.
    pub fn get_multiple_values<'a, 'b>(&'a self, key: &'b str) -> (r: Option<&'a Vec<String>>)
        ensures
            match r {
                Some(vs) => has_key(self.entries_view(), key@) && vs.deep_view()
                    == self.entries_view()[key_index(self.entries_view(), key@)].1,
                None => !has_key(self.entries_view(), key@),
            },
    {
        match find_entry(&self.entries, key) {
            Some(j) => {
                proof {
                    assert(self.entries_view()[j as int].1 == self.entries@[j as int].1.deep_view());
                }
                Some(&self.entries[j].1)
            },
            None => None,
        }
    }

    /// All values for `key` as an owned list; absent keys report `None`.
    pub fn get<'a, 'b>(&'a self, key: &'b str) -> (r: Option<Vec<String>>)
        ensures
            match r {
                Some(vs) => has_key(self.entries_view(), key@) && vs.deep_view()
                    == self.entries_view()[key_index(self.entries_view(), key@)].1,
                None => !has_key(self.entries_view(), key@),
            },
    {
        broadcast use vstd::std_specs::vec::vec_clone_deep_view_proof;

        match self.get_multiple_values(key) {
            Some(vs) => Some(vs.clone()),
            None => None,
        }
    }

    /// The first value recorded for `key`: `None` when the key is absent or
    /// its value list is empty.
    pub fn get_first_occurrence_value<'a, 'b>(&'a self, key: &'b str) -> (r: Option<String>)
        ensures
            match r {
                Some(v) => has_key(self.entries_view(), key@) && self.entries_view()[key_index(
                    self.entries_view(),
                    key@,
                )].1.len() > 0 && v@ == self.entries_view()[key_index(self.entries_view(), key@)].1[0],
                None => !has_key(self.entries_view(), key@) || self.entries_view()[key_index(
                    self.entries_view(),
                    key@,
                )].1.len() == 0,
            },
    {
        match find_entry(&self.entries, key) {
            Some(j) => {
                let vals = &self.entries[j].1;
                proof {
                    assert(self.entries_view()[j as int].1 == self.entries@[j as int].1.deep_view());
                }
                if vals.len() > 0 {
                    Some(vals[0].clone())
                } else {
                    None
                }
            },
            None => None,
        }
    }

    /// The last value recorded for `key`: `None` when the key is absent or
    /// its value list is empty.
    pub fn get_last_occurrence_value<'a, 'b>(&'a self, key: &'b str) -> (r: Option<String>)
        ensures
            match r {
                Some(v) => has_key(self.entries_view(), key@) && self.entries_view()[key_index(
                    self.entries_view(),
                    key@,
                )].1.len() > 0 && v@ == self.entries_view()[key_index(self.entries_view(), key@)].1.last(),
                None => !has_key(self.entries_view(), key@) || self.entries_view()[key_index(
                    self.entries_view(),
                    key@,
                )].1.len() == 0,
            },
    {
        match find_entry(&self.entries, key) {
            Some(j) => {
                let vals = &self.entries[j].1;
                proof {
                    assert(self.entries_view()[j as int].1 == self.entries@[j as int].1.deep_view());
                }
                if vals.len() > 0 {
                    Some(vals[vals.len() - 1].clone())
                } else {
                    None
                }
            },
            None => None,
        }
    }

    /// Same as `get_first_occurrence_value`.
    pub fn get_first<'a, 'b>(&'a self, key: &'b str) -> (r: Option<String>)
        ensures
            match r {
                Some(v) => has_key(self.entries_view(), key@) && self.entries_view()[key_index(
                    self.entries_view(),
                    key@,
                )].1.len() > 0 && v@ == self.entries_view()[key_index(self.entries_view(), key@)].1[0],
                None => !has_key(self.entries_view(), key@) || self.entries_view()[key_index(
                    self.entries_view(),
                    key@,
                )].1.len() == 0,
            },
    {
        self.get_first_occurrence_value(key)
    }

    /// Same as `get_last_occurrence_value`.
    pub fn get_last<'a, 'b>(&'a self, key: &'b str) -> (r: Option<String>)
        ensures
            match r {
                Some(v) => has_key(self.entries_view(), key@) && self.entries_view()[key_index(
                    self.entries_view(),
                    key@,
                )].1.len() > 0 && v@ == self.entries_view()[key_index(self.entries_view(), key@)].1.last(),
                None => !has_key(self.entries_view(), key@) || self.entries_view()[key_index(
                    self.entries_view(),
                    key@,
                )].1.len() == 0,
            },
    {
        self.get_last_occurrence_value(key)
    }

    /// Total pair count: the sum of all value-list lengths, saturating at
    /// the machine word limit.
    pub fn len(&self) -> (r: usize)
        ensures
            total_pairs(self.entries_view()) <= usize::MAX ==> r == total_pairs(
                self.entries_view(),
            ),
            r as nat <= total_pairs(self.entries_view()),
    {
        let ghost es = self.entries_view();
        let n = self.entries.len();
        let mut acc: usize = 0;
        let mut i: usize = 0;
        proof {
            assert(es.take(0) =~= Seq::<EntryView>::empty());
        }
        while i < n
            invariant
                0 <= i <= n,
                n == self.entries@.len(),
                es == self.entries_view(),
                es.len() == n,
                total_pairs(es.take(i as int)) <= usize::MAX ==> acc == total_pairs(
                    es.take(i as int),
                ),
                acc as nat <= total_pairs(es.take(i as int)),
                total_pairs(es.take(i as int)) > usize::MAX ==> acc == usize::MAX,
            decreases n - i,
        {
            let l = self.entries[i].1.len();
            proof {
                assert(es[i as int].1 == self.entries@[i as int].1.deep_view());
                assert(es.take(i + 1).drop_last() =~= es.take(i as int));
                assert(es.take(i + 1).last() == es[i as int]);
            }
            acc = if acc <= usize::MAX - l {
                acc + l
            } else {
                usize::MAX
            };
            i = i + 1;
        }
        proof {
            assert(es.take(n as int) =~= es);
        }
        acc
    }

    /// Number of distinct keys.
    pub fn keys_length(&self) -> (r: usize)
        ensures
            r == self.entries_view().len(),
    {
        self.entries.len()
    }

    /// All keys, in the store's internal entry order.
    pub fn keys(&self) -> (r: Vec<String>)
        ensures
            r.deep_view() == entry_keys(self.entries_view()),
    {
        let ghost es = self.entries_view();
        let n = self.entries.len();
        let mut r: Vec<String> = Vec::new();
        let mut i: usize = 0;
        proof {
            assert(r.deep_view() =~= entry_keys(es).take(0));
        }
        while i < n
            invariant
                0 <= i <= n,
                n == self.entries@.len(),
                es == self.entries_view(),
                es.len() == n,
                r.deep_view() == entry_keys(es).take(i as int),
            decreases n - i,
        {
            let ghost old_r = r.deep_view();
            r.push(self.entries[i].0.clone());
            proof {
                assert(es[i as int].0 == self.entries@[i as int].0@);
                assert(r.deep_view() =~= old_r.push(es[i as int].0));
                assert(entry_keys(es).take(i + 1) =~= entry_keys(es).take(i as int).push(
                    es[i as int].0,
                ));
            }
            i = i + 1;
        }
        proof {
            assert(entry_keys(es).take(n as int) =~= entry_keys(es));
        }
        r
    }

    /// Replaces the whole value list of `key` with `values`, creating the
    /// entry if absent. The arrival ledger is not touched: a brand-new key
    /// is a left-over key in original-order views.
    pub fn set(self, key: &str, values: &Vec<String>) -> (r: Self)
        requires
            self.wf(),
        ensures
            r.wf(),
            r.prefix_view() == self.prefix_view(),
            r.data_view() == self.data_view(),
            r.ledger_view() == self.ledger_view(),
            r.entries_view() == set_key(self.entries_view(), key@, values.deep_view()),
    {
        broadcast use vstd::std_specs::vec::vec_clone_deep_view_proof;

        let ghost es = self.entries_view();
        let mut this = self;
        match find_entry(&this.entries, key) {
            Some(j) => {
                this.entries[j] = (key.to_owned(), values.clone());
                proof {
                    assert(this.entries_view() =~~= es.update(
                        j as int,
                        (key@, values.deep_view()),
                    )) by {
                        assert(forall|t: int|
                            0 <= t < this.entries@.len() ==> this.entries_view()[t] == (
                            this.entries@[t].0@,
                            this.entries@[t].1.deep_view(),
                            ));
                    }
                    lemma_key_index(es, key@);
                    assert(es[j as int].0 == key@);
                    assert(this.entries_view() == set_key(es, key@, values.deep_view()));
                    assert(entries_wf(this.entries_view()));
                }
            },
            None => {
                this.entries.push((key.to_owned(), values.clone()));
                proof {
                    lemma_key_index(es, key@);
                    assert(this.entries_view() =~~= es.push((key@, values.deep_view()))) by {
                        assert(forall|t: int|
                            0 <= t < this.entries@.len() ==> this.entries_view()[t] == (
                            this.entries@[t].0@,
                            this.entries@[t].1.deep_view(),
                            ));
                    }
                    assert forall|a: int, b: int|
                        0 <= a < b < this.entries_view().len() implies this.entries_view()[a].0
                        != this.entries_view()[b].0 by {
                        if b == es.len() as int {
                            assert(this.entries_view()[a].0 == es[a].0);
                        }
                    }
                }
            },
        }
        this
    }

    /// Replaces the value list of `key` with the one given value.
    pub fn set_one(self, key: &str, value: &str) -> (r: Self)
        requires
            self.wf(),
        ensures
            r.wf(),
            r.prefix_view() == self.prefix_view(),
            r.data_view() == self.data_view(),
            r.ledger_view() == self.ledger_view(),
            r.entries_view() == set_key(self.entries_view(), key@, seq![value@]),
    {
        let mut values: Vec<String> = Vec::new();
        values.push(value.to_owned());
        proof {
            assert(values.deep_view() =~= seq![value@]);
        }
        self.set(key, &values)
    }

    /// Appends `value` to `key`'s list, creating a one-value entry when the
    /// key is absent. The arrival ledger is not touched.
    pub fn push(self, key: &str, value: &str) -> (r: Self)
        requires
            self.wf(),
        ensures
            r.wf(),
            r.prefix_view() == self.prefix_view(),
            r.data_view() == self.data_view(),
            r.ledger_view() == self.ledger_view(),
            r.entries_view() == add_pair(self.entries_view(), (key@, value@)),
    {
        let ghost es = self.entries_view();
        let mut this = self;
        match find_entry(&this.entries, key) {
            Some(j) => {
                let ghost old_vals = es[j as int].1;
                this.entries[j].1.push(value.to_owned());
                proof {
                    assert(this.entries_view() =~~= es.update(
                        j as int,
                        (es[j as int].0, old_vals.push(value@)),
                    )) by {
                        assert(forall|t: int|
                            0 <= t < this.entries@.len() ==> this.entries_view()[t] == (
                            this.entries@[t].0@,
                            this.entries@[t].1.deep_view(),
                            ));
                    }
                    assert(this.entries_view() == add_pair(es, (key@, value@)));
                    assert(entries_wf(this.entries_view()));
                }
            },
            None => {
                let mut vals: Vec<String> = Vec::new();
                vals.push(value.to_owned());
                this.entries.push((key.to_owned(), vals));
                proof {
                    lemma_key_index(es, key@);
                    assert(this.entries_view() =~~= es.push((key@, seq![value@]))) by {
                        assert(forall|t: int|
                            0 <= t < this.entries@.len() ==> this.entries_view()[t] == (
                            this.entries@[t].0@,
                            this.entries@[t].1.deep_view(),
                            ));
                    }
                    assert(this.entries_view() == add_pair(es, (key@, value@)));
                    assert forall|a: int, b: int|
                        0 <= a < b < this.entries_view().len() implies this.entries_view()[a].0
                        != this.entries_view()[b].0 by {
                        if b == es.len() as int {
                            assert(this.entries_view()[a].0 == es[a].0);
                        }
                    }
                }
            },
        }
        this
    }

    /// Removes `key` and all its values; a no-op when the key is absent.
    /// Afterwards the key is not found, so lookups on it report not-found.
    /// The arrival ledger keeps the key's old position.
    pub fn delete(self, key: &str) -> (r: Self)
        requires
            self.wf(),
        ensures
            r.wf(),
            r.prefix_view() == self.prefix_view(),
            r.data_view() == self.data_view(),
            r.ledger_view() == self.ledger_view(),
            key_index(self.entries_view(), key@) == -1 ==> r.entries_view()
                == self.entries_view(),
            key_index(self.entries_view(), key@) >= 0 ==> r.entries_view()
                == self.entries_view().remove(key_index(self.entries_view(), key@)),
            !has_key(r.entries_view(), key@),
    {
        let ghost es = self.entries_view();
        let mut this = self;
        match find_entry(&this.entries, key) {
            Some(j) => {
                this.entries.remove(j);
                proof {
                    lemma_key_index(es, key@);
                    assert(this.entries_view() =~~= es.remove(j as int)) by {
                        assert(forall|t: int|
                            0 <= t < this.entries@.len() ==> this.entries_view()[t] == (
                            this.entries@[t].0@,
                            this.entries@[t].1.deep_view(),
                            ));
                    }
                    assert(es[j as int].0 == key@);
                    assert forall|t: int| 0 <= t < this.entries_view().len()
                        implies this.entries_view()[t].0 != key@ by {
                        if t < j {
                            assert(this.entries_view()[t] == es[t]);
                        } else {
                            assert(this.entries_view()[t] == es[t + 1]);
                        }
                    }
                    lemma_key_index(this.entries_view(), key@);
                    assert(entries_wf(this.entries_view()));
                }
            },
            None => {
                proof {
                    lemma_key_index(es, key@);
                }
            },
        }
        this
    }

    /// Removes every key and value. The prefix and the arrival ledger are
    /// untouched, so previously-seen keys that are re-added replay in their
    /// old original-order position.
    pub fn clear(self) -> (r: Self)
        ensures
            r.prefix_view() == self.prefix_view(),
            r.data_view() == self.data_view(),
            r.ledger_view() == self.ledger_view(),
            r.entries_view() == Seq::<EntryView>::empty(),
            self.wf() ==> r.wf(),
    {
        let mut this = self;
        this.entries.clear();
        proof {
            assert(this.entries_view() =~= Seq::<EntryView>::empty());
        }
        this
    }

    /// Ends a chain of mutations by handing back a shared borrow.
    pub fn mut_done<'a>(&'a mut self) -> (r: &'a Self)
        ensures
            *final(self) == *old(self),
            *r == *old(self),
    {
        self
    }
}

/// The pairs of one entry: its key with each of its values, in value order.
pub open spec fn pairs_of_entry(e: EntryView) -> Seq<PairView> {
    Seq::new(e.1.len(), |i: int| (e.0, e.1[i]))
}

/// All pairs of the store, flattened in entry order.
pub open spec fn flat_pairs(es: Seq<EntryView>) -> Seq<PairView>
    decreases es.len(),
{
    if es.len() == 0 {
        Seq::empty()
    } else {
        flat_pairs(es.drop_last()) + pairs_of_entry(es.last())
    }
}

/// The ledger keys that still have an entry, in ledger order.
pub open spec fn present_keys(l: Seq<Seq<char>>, es: Seq<EntryView>) -> Seq<Seq<char>>
    decreases l.len(),
{
    if l.len() == 0 {
        Seq::empty()
    } else {
        let rest = present_keys(l.drop_last(), es);
        if has_key(es, l.last()) {
            rest.push(l.last())
        } else {
            rest
        }
    }
}

/// The entry keys the ledger does not hold, in entry order.
pub open spec fn leftover_keys(es: Seq<EntryView>, l: Seq<Seq<char>>) -> Seq<Seq<char>>
    decreases es.len(),
{
    if es.len() == 0 {
        Seq::empty()
    } else {
        let rest = leftover_keys(es.drop_last(), l);
        if l.contains(es.last().0) {
            rest
        } else {
            rest.push(es.last().0)
        }
    }
}

/// Original-order keys: ledger keys still present, in arrival order, then
/// keys the ledger never saw, in entry order.
pub open spec fn original_order_keys(l: Seq<Seq<char>>, es: Seq<EntryView>) -> Seq<Seq<char>> {
    present_keys(l, es) + leftover_keys(es, l)
}

/// The pairs of the given keys' entries, flattened in the keys' order;
/// keys without an entry contribute nothing.
pub open spec fn pairs_for_keys(es: Seq<EntryView>, ks: Seq<Seq<char>>) -> Seq<PairView>
    decreases ks.len(),
{
    if ks.len() == 0 {
        Seq::empty()
    } else {
        let rest = pairs_for_keys(es, ks.drop_last());
        let ki = key_index(es, ks.last());
        if ki >= 0 {
            rest + pairs_of_entry(es[ki])
        } else {
            rest
        }
    }
}

/// The sorted-order keys: the entry keys, ascending lexicographically.
pub open spec fn sorted_keys(es: Seq<EntryView>) -> Seq<Seq<char>> {
    entry_keys(es).sort_by(crate::order::lex_leq())
}

/// Each key with its first value, for keys with at least one value, in
/// entry order.
pub open spec fn first_value_map(es: Seq<EntryView>) -> Seq<PairView>
    decreases es.len(),
{
    if es.len() == 0 {
        Seq::empty()
    } else {
        let rest = first_value_map(es.drop_last());
        if es.last().1.len() > 0 {
            rest.push((es.last().0, es.last().1[0]))
        } else {
            rest
        }
    }
}

/// Each key with its last value, for keys with at least one value, in
/// entry order.
pub open spec fn last_value_map(es: Seq<EntryView>) -> Seq<PairView>
    decreases es.len(),
{
    if es.len() == 0 {
        Seq::empty()
    } else {
        let rest = last_value_map(es.drop_last());
        if es.last().1.len() > 0 {
            rest.push((es.last().0, es.last().1.last()))
        } else {
            rest
        }
    }
}

/// `key_index` only reads the keys: entry sequences with the same keys
/// agree on it.
proof fn lemma_key_index_same_keys(a: Seq<EntryView>, b: Seq<EntryView>, k: Seq<char>)
    requires
        a.len() == b.len(),
        forall|i: int| 0 <= i < a.len() ==> a[i].0 == b[i].0,
    ensures
        key_index(a, k) == key_index(b, k),
    decreases a.len(),
{
    if a.len() > 0 {
        assert(a[0].0 == b[0].0);
        assert(forall|i: int|
            0 <= i < a.drop_first().len() ==> a.drop_first()[i].0 == a[i + 1].0 && b.drop_first()[
                i].0 == b[i + 1].0);
        lemma_key_index_same_keys(a.drop_first(), b.drop_first(), k);
    }
}

proof fn lemma_present_keys_same_keys(l: Seq<Seq<char>>, a: Seq<EntryView>, b: Seq<EntryView>)
    requires
        a.len() == b.len(),
        forall|i: int| 0 <= i < a.len() ==> a[i].0 == b[i].0,
    ensures
        present_keys(l, a) == present_keys(l, b),
    decreases l.len(),
{
    if l.len() > 0 {
        lemma_present_keys_same_keys(l.drop_last(), a, b);
        lemma_key_index_same_keys(a, b, l.last());
    }
}

proof fn lemma_leftover_keys_same_keys(a: Seq<EntryView>, b: Seq<EntryView>, l: Seq<Seq<char>>)
    requires
        a.len() == b.len(),
        forall|i: int| 0 <= i < a.len() ==> a[i].0 == b[i].0,
    ensures
        leftover_keys(a, l) == leftover_keys(b, l),
    decreases a.len(),
{
    if a.len() > 0 {
        assert(forall|i: int|
            0 <= i < a.drop_last().len() ==> a.drop_last()[i].0 == a[i].0 && b.drop_last()[i].0
                == b[i].0);
        lemma_leftover_keys_same_keys(a.drop_last(), b.drop_last(), l);
        assert(a.last().0 == b.last().0);
    }
}

/// Original-order replay after mutation: replacing the values of a key that
/// is already present changes no key's position, so the original-order key
/// view after `set` is the one from before.
pub proof fn lemma_set_keeps_original_order(
    es: Seq<EntryView>,
    l: Seq<Seq<char>>,
    k: Seq<char>,
    vs: Seq<Seq<char>>,
)
    requires
        has_key(es, k),
    ensures
        original_order_keys(l, set_key(es, k, vs)) == original_order_keys(l, es),
{
    let ki = key_index(es, k);
    lemma_key_index(es, k);
    let es2 = set_key(es, k, vs);
    assert(es2 == es.update(ki, (k, vs)));
    assert(es2.len() == es.len());
    assert(forall|i: int| 0 <= i < es.len() ==> es2[i].0 == es[i].0);
    lemma_present_keys_same_keys(l, es2, es);
    lemma_leftover_keys_same_keys(es2, es, l);
}

/// Appends one entry's pairs to `r`, key first.
fn push_entry_pairs(r: &mut Vec<(String, String)>, key: &String, vals: &Vec<String>)
    ensures
        final(r).deep_view() == old(r).deep_view() + pairs_of_entry((key@, vals.deep_view())),
{
    let ghost e: EntryView = (key@, vals.deep_view());
    let ghost base = r.deep_view();
    let n = vals.len();
    let mut j: usize = 0;
    proof {
        assert(base + pairs_of_entry(e).take(0) =~= base);
    }
    while j < n
        invariant
            0 <= j <= n,
            n == vals@.len(),
            e == (key@, vals.deep_view()),
            e.1.len() == n,
            r.deep_view() == base + pairs_of_entry(e).take(j as int),
        decreases n - j,
    {
        let ghost old_r = r.deep_view();
        r.push((key.clone(), vals[j].clone()));
        proof {
            assert(vals.deep_view()[j as int] == vals@[j as int]@);
            assert(r.deep_view() =~= old_r.push((e.0, e.1[j as int])));
            assert(pairs_of_entry(e).take(j + 1) =~= pairs_of_entry(e).take(j as int).push(
                (e.0, e.1[j as int]),
            ));
            assert(base + pairs_of_entry(e).take(j as int).push((e.0, e.1[j as int])) =~= (base
                + pairs_of_entry(e).take(j as int)).push((e.0, e.1[j as int])));
        }
        j = j + 1;
    }
    proof {
        assert(pairs_of_entry(e).take(n as int) =~= pairs_of_entry(e));
    }
}

impl UrlEncodedData {
    /// All pairs, in the store's internal entry order: each key's values
    /// are kept together and in insertion order.
    pub fn as_pairs(&self) -> (r: Vec<(String, String)>)
        ensures
            r.deep_view() == flat_pairs(self.entries_view()),
    {
        let ghost es = self.entries_view();
        let n = self.entries.len();
        let mut r: Vec<(String, String)> = Vec::new();
        let mut i: usize = 0;
        proof {
            assert(r.deep_view() =~= flat_pairs(es.take(0)));
        }
        while i < n
            invariant
                0 <= i <= n,
                n == self.entries@.len(),
                es == self.entries_view(),
                es.len() == n,
                r.deep_view() == flat_pairs(es.take(i as int)),
            decreases n - i,
        {
            proof {
                assert(es[i as int] == (self.entries@[i as int].0@, self.entries@[
                    i as int].1.deep_view()));
                assert(es.take(i + 1).drop_last() =~= es.take(i as int));
                assert(es.take(i + 1).last() == es[i as int]);
            }
            push_entry_pairs(&mut r, &self.entries[i].0, &self.entries[i].1);
            i = i + 1;
        }
        proof {
            assert(es.take(n as int) =~= es);
        }
        r
    }

    /// Same pairs as `as_pairs`, offered under the iteration name.
    pub fn iter(&self) -> (r: Vec<(String, String)>)
        ensures
            r.deep_view() == flat_pairs(self.entries_view()),
    {
        self.as_pairs()
    }

    /// Same pairs as `as_pairs`, as owned strings.
    pub fn as_string_pairs(&self) -> (r: Vec<(String, String)>)
        ensures
            r.deep_view() == flat_pairs(self.entries_view()),
    {
        self.as_pairs()
    }

    /// All pairs in original order: first the still-present keys in the
    /// order they first arrived during the parse, then keys the parse never
    /// saw in entry order; each key's values stay in insertion order.
    pub fn as_pairs_of_original_order(&self) -> (r: Vec<(String, String)>)
        ensures
            r.deep_view() == pairs_for_keys(
                self.entries_view(),
                original_order_keys(self.ledger_view(), self.entries_view()),
            ),
    {
        let ghost es = self.entries_view();
        let ghost lv = self.ledger_view();
        let mut r: Vec<(String, String)> = Vec::new();
        let nl = self.original_keys_in_order.len();
        let mut i: usize = 0;
        proof {
            assert(present_keys(lv.take(0), es) =~= Seq::<Seq<char>>::empty());
            assert(r.deep_view() =~= pairs_for_keys(es, present_keys(lv.take(0), es)));
        }
        while i < nl
            invariant
                0 <= i <= nl,
                nl == self.original_keys_in_order@.len(),
                es == self.entries_view(),
                lv == self.ledger_view(),
                lv.len() == nl,
                r.deep_view() == pairs_for_keys(es, present_keys(lv.take(i as int), es)),
            decreases nl - i,
        {
            let ghost k = lv[i as int];
            proof {
                assert(lv[i as int] == self.original_keys_in_order@[i as int]@);
                assert(lv.take(i + 1).drop_last() =~= lv.take(i as int));
                assert(lv.take(i + 1).last() == k);
            }
            match find_entry(&self.entries, self.original_keys_in_order[i].as_str()) {
                Some(j) => {
                    proof {
                        let ks = present_keys(lv.take(i as int), es);
                        assert(present_keys(lv.take(i + 1), es) == ks.push(k));
                        assert(ks.push(k).drop_last() =~= ks);
                        assert(es[j as int] == (self.entries@[j as int].0@, self.entries@[
                            j as int].1.deep_view()));
                    }
                    push_entry_pairs(&mut r, &self.entries[j].0, &self.entries[j].1);
                },
                None => {
                    proof {
                        assert(present_keys(lv.take(i + 1), es) == present_keys(
                            lv.take(i as int),
                            es,
                        ));
                    }
                },
            }
            i = i + 1;
        }
        proof {
            assert(lv.take(nl as int) =~= lv);
        }
        let ghost pk = present_keys(lv, es);
        let ne = self.entries.len();
        let mut t: usize = 0;
        proof {
            assert(leftover_keys(es.take(0), lv) =~= Seq::<Seq<char>>::empty());
            assert(pk + leftover_keys(es.take(0), lv) =~= pk);
        }
        while t < ne
            invariant
                0 <= t <= ne,
                ne == self.entries@.len(),
                es == self.entries_view(),
                lv == self.ledger_view(),
                pk == present_keys(lv, es),
                es.len() == ne,
                r.deep_view() == pairs_for_keys(es, pk + leftover_keys(es.take(t as int), lv)),
            decreases ne - t,
        {
            let ghost k = es[t as int].0;
            proof {
                assert(es[t as int] == (self.entries@[t as int].0@, self.entries@[
                    t as int].1.deep_view()));
                assert(es.take(t + 1).drop_last() =~= es.take(t as int));
                assert(es.take(t + 1).last() == es[t as int]);
            }
            if !contains_string(&self.original_keys_in_order, self.entries[t].0.as_str()) {
                let ghost ks = pk + leftover_keys(es.take(t as int), lv);
                match find_entry(&self.entries, self.entries[t].0.as_str()) {
                    Some(j) => {
                        proof {
                            assert(leftover_keys(es.take(t + 1), lv) == leftover_keys(
                                es.take(t as int),
                                lv,
                            ).push(k));
                            assert(pk + leftover_keys(es.take(t as int), lv).push(k) =~= ks.push(
                                k,
                            ));
                            assert(ks.push(k).drop_last() =~= ks);
                            assert(es[j as int] == (self.entries@[j as int].0@, self.entries@[
                                j as int].1.deep_view()));
                        }
                        push_entry_pairs(&mut r, &self.entries[j].0, &self.entries[j].1);
                    },
                    None => {
                        proof {
                            lemma_key_index(es, k);
                            assert(es[t as int].0 == k);
                            assert(false);
                        }
                    },
                }
            } else {
                proof {
                    assert(leftover_keys(es.take(t + 1), lv) == leftover_keys(
                        es.take(t as int),
                        lv,
                    ));
                }
            }
            t = t + 1;
        }
        proof {
            assert(es.take(ne as int) =~= es);
        }
        r
    }

    /// All pairs with keys in ascending lexicographic order; each key's
    /// values stay in insertion order.
    pub fn as_pairs_of_sorted_order(&self) -> (r: Vec<(String, String)>)
        ensures
            r.deep_view() == pairs_for_keys(self.entries_view(), sorted_keys(self.entries_view())),
    {
        let ghost es = self.entries_view();
        let keys = self.keys();
        let sorted = crate::order::sort_strings(&keys);
        let ghost sk = sorted.deep_view();
        proof {
            assert(sk == sorted_keys(es));
        }
        let mut r: Vec<(String, String)> = Vec::new();
        let ns = sorted.len();
        let mut i: usize = 0;
        proof {
            assert(sk.take(0) =~= Seq::<Seq<char>>::empty());
            assert(r.deep_view() =~= pairs_for_keys(es, sk.take(0)));
        }
        while i < ns
            invariant
                0 <= i <= ns,
                ns == sorted@.len(),
                es == self.entries_view(),
                sk == sorted.deep_view(),
                sk.len() == ns,
                r.deep_view() == pairs_for_keys(es, sk.take(i as int)),
            decreases ns - i,
        {
            let ghost k = sk[i as int];
            proof {
                assert(sk[i as int] == sorted@[i as int]@);
                assert(sk.take(i + 1).drop_last() =~= sk.take(i as int));
                assert(sk.take(i + 1).last() == k);
            }
            match find_entry(&self.entries, sorted[i].as_str()) {
                Some(j) => {
                    proof {
                        assert(es[j as int] == (self.entries@[j as int].0@, self.entries@[
                            j as int].1.deep_view()));
                    }
                    push_entry_pairs(&mut r, &self.entries[j].0, &self.entries[j].1);
                },
                None => {
                },
            }
            i = i + 1;
        }
        proof {
            assert(sk.take(ns as int) =~= sk);
        }
        r
    }

    /// The keys in original order: still-present ledger keys in arrival
    /// order, then keys the ledger never saw, in entry order.
    pub fn keys_of_original_order(&self) -> (r: Vec<String>)
        ensures
            r.deep_view() == original_order_keys(self.ledger_view(), self.entries_view()),
    {
        let ghost es = self.entries_view();
        let ghost lv = self.ledger_view();
        let mut r: Vec<String> = Vec::new();
        let nl = self.original_keys_in_order.len();
        let mut i: usize = 0;
        proof {
            assert(r.deep_view() =~= present_keys(lv.take(0), es));
        }
        while i < nl
            invariant
                0 <= i <= nl,
                nl == self.original_keys_in_order@.len(),
                es == self.entries_view(),
                lv == self.ledger_view(),
                lv.len() == nl,
                r.deep_view() == present_keys(lv.take(i as int), es),
            decreases nl - i,
        {
            let ghost k = lv[i as int];
            proof {
                assert(lv[i as int] == self.original_keys_in_order@[i as int]@);
                assert(lv.take(i + 1).drop_last() =~= lv.take(i as int));
                assert(lv.take(i + 1).last() == k);
            }
            match find_entry(&self.entries, self.original_keys_in_order[i].as_str()) {
                Some(_) => {
                    let ghost old_r = r.deep_view();
                    r.push(self.original_keys_in_order[i].clone());
                    proof {
                        assert(r.deep_view() =~= old_r.push(k));
                    }
                },
                None => {
                },
            }
            i = i + 1;
        }
        proof {
            assert(lv.take(nl as int) =~= lv);
        }
        let ghost pk = present_keys(lv, es);
        let ne = self.entries.len();
        let mut t: usize = 0;
        proof {
            assert(leftover_keys(es.take(0), lv) =~= Seq::<Seq<char>>::empty());
            assert(r.deep_view() + leftover_keys(es.take(0), lv) =~= r.deep_view());
        }
        while t < ne
            invariant
                0 <= t <= ne,
                ne == self.entries@.len(),
                es == self.entries_view(),
                lv == self.ledger_view(),
                pk == present_keys(lv, es),
                es.len() == ne,
                r.deep_view() == pk + leftover_keys(es.take(t as int), lv),
            decreases ne - t,
        {
            let ghost k = es[t as int].0;
            proof {
                assert(es[t as int] == (self.entries@[t as int].0@, self.entries@[
                    t as int].1.deep_view()));
                assert(es.take(t + 1).drop_last() =~= es.take(t as int));
                assert(es.take(t + 1).last() == es[t as int]);
            }
            if !contains_string(&self.original_keys_in_order, self.entries[t].0.as_str()) {
                let ghost old_r = r.deep_view();
                r.push(self.entries[t].0.clone());
                proof {
                    assert(r.deep_view() =~= old_r.push(k));
                    assert(old_r.push(k) =~= pk + leftover_keys(es.take(t as int), lv).push(k));
                }
            }
            t = t + 1;
        }
        proof {
            assert(es.take(ne as int) =~= es);
        }
        r
    }

    /// The keys in ascending lexicographic order: exactly the store's keys,
    /// sorted; the result depends only on the set of keys.
    pub fn keys_of_sorted_order(&self) -> (r: Vec<String>)
        ensures
            r.deep_view() == sorted_keys(self.entries_view()),
            vstd::relations::sorted_by(r.deep_view(), crate::order::lex_leq()),
            r.deep_view().to_multiset() == entry_keys(self.entries_view()).to_multiset(),
    {
        let keys = self.keys();
        crate::order::sort_strings(&keys)
    }

    /// The entries as one map view: each distinct key with all its values
    /// in insertion order.
    pub fn as_map_of_single_key_to_multiple_values(&self) -> (r: &Vec<(String, Vec<String>)>)
        ensures
            r.deep_view() == self.entries_view(),
    {
        &self.entries
    }

    /// Each key mapped to the first value recorded for it; keys with an
    /// empty value list are absent.
    pub fn as_map_of_single_key_to_first_occurrence_value(&self) -> (r: Vec<(String, String)>)
        ensures
            r.deep_view() == first_value_map(self.entries_view()),
    {
        let ghost es = self.entries_view();
        let n = self.entries.len();
        let mut r: Vec<(String, String)> = Vec::new();
        let mut i: usize = 0;
        proof {
            assert(r.deep_view() =~= first_value_map(es.take(0)));
        }
        while i < n
            invariant
                0 <= i <= n,
                n == self.entries@.len(),
                es == self.entries_view(),
                es.len() == n,
                r.deep_view() == first_value_map(es.take(i as int)),
            decreases n - i,
        {
            proof {
                assert(es[i as int] == (self.entries@[i as int].0@, self.entries@[
                    i as int].1.deep_view()));
                assert(es.take(i + 1).drop_last() =~= es.take(i as int));
                assert(es.take(i + 1).last() == es[i as int]);
            }
            if self.entries[i].1.len() > 0 {
                let ghost old_r = r.deep_view();
                r.push((self.entries[i].0.clone(), self.entries[i].1[0].clone()));
                proof {
                    assert(self.entries@[i as int].1.deep_view()[0] == self.entries@[
                        i as int].1@[0]@);
                    assert(r.deep_view() =~= old_r.push((es[i as int].0, es[i as int].1[0])));
                }
            }
            i = i + 1;
        }
        proof {
            assert(es.take(n as int) =~= es);
        }
        r
    }

    /// Each key mapped to the last value recorded for it; keys with an
    /// empty value list are absent.
    pub fn as_map_of_single_key_to_last_occurrence_value(&self) -> (r: Vec<(String, String)>)
        ensures
            r.deep_view() == last_value_map(self.entries_view()),
    {
        let ghost es = self.entries_view();
        let n = self.entries.len();
        let mut r: Vec<(String, String)> = Vec::new();
        let mut i: usize = 0;
        proof {
            assert(r.deep_view() =~= last_value_map(es.take(0)));
        }
        while i < n
            invariant
                0 <= i <= n,
                n == self.entries@.len(),
                es == self.entries_view(),
                es.len() == n,
                r.deep_view() == last_value_map(es.take(i as int)),
            decreases n - i,
        {
            proof {
                assert(es[i as int] == (self.entries@[i as int].0@, self.entries@[
                    i as int].1.deep_view()));
                assert(es.take(i + 1).drop_last() =~= es.take(i as int));
                assert(es.take(i + 1).last() == es[i as int]);
            }
            let m = self.entries[i].1.len();
            if m > 0 {
                let ghost old_r = r.deep_view();
                r.push((self.entries[i].0.clone(), self.entries[i].1[m - 1].clone()));
                proof {
                    assert(self.entries@[i as int].1.deep_view()[m - 1] == self.entries@[
                        i as int].1@[m - 1]@);
                    assert(r.deep_view() =~= old_r.push(
                        (es[i as int].0, es[i as int].1.last()),
                    ));
                }
            }
            i = i + 1;
        }
        proof {
            assert(es.take(n as int) =~= es);
        }
        r
    }

    /// Serializes pairs as the free function `stringify` does: exact, and
    /// decoding the result gives back exactly the input pairs.
    pub fn stringify(pairs: &Vec<(String, String)>) -> (r: String)
        ensures
            r@ == crate::codec::encoded_pairs(pairs.deep_view()),
            decoded_pairs(r@) == pairs.deep_view(),
            crate::codec::encoded_pairs(decoded_pairs(r@)) == r@,
    {
        crate::codec::stringify(pairs)
    }

    /// The prefix followed by the encoding of `as_pairs`.
    pub fn to_string(&self) -> (r: String)
        ensures
            r@ == self.prefix_view() + crate::codec::encoded_pairs(
                flat_pairs(self.entries_view()),
            ),
    {
        let pairs = self.as_pairs();
        let encoded = crate::codec::stringify(&pairs);
        let mut out = self.prefix.clone();
        out.append(encoded.as_str());
        out
    }

    /// The prefix followed by the encoding of `as_pairs_of_original_order`.
    pub fn to_string_of_original_order(&self) -> (r: String)
        ensures
            r@ == self.prefix_view() + crate::codec::encoded_pairs(
                pairs_for_keys(
                    self.entries_view(),
                    original_order_keys(self.ledger_view(), self.entries_view()),
                ),
            ),
    {
        let pairs = self.as_pairs_of_original_order();
        let encoded = crate::codec::stringify(&pairs);
        let mut out = self.prefix.clone();
        out.append(encoded.as_str());
        out
    }

    /// The prefix followed by the encoding of `as_pairs_of_sorted_order`.
    pub fn to_string_of_sorted_order(&self) -> (r: String)
        ensures
            r@ == self.prefix_view() + crate::codec::encoded_pairs(
                pairs_for_keys(self.entries_view(), sorted_keys(self.entries_view())),
            ),
    {
        let pairs = self.as_pairs_of_sorted_order();
        let encoded = crate::codec::stringify(&pairs);
        let mut out = self.prefix.clone();
        out.append(encoded.as_str());
        out
    }
}

/// Whether `a` and `b` are the same text.
pub(crate) fn str_eq(a: &str, b: &str) -> (r: bool)
    ensures
        r == (a@ == b@),
{
    let na = a.unicode_len();
    let nb = b.unicode_len();
    if na != nb {
        return false;
    }
    let mut i: usize = 0;
    while i < na
        invariant
            0 <= i <= na,
            na == a@.len(),
            na == b@.len(),
            forall|j: int| 0 <= j < i ==> a@[j] == b@[j],
        decreases na - i,
    {
        if a.get_char(i) != b.get_char(i) {
            return false;
        }
        i = i + 1;
    }
    proof {
        assert(a@ =~= b@);
    }
    true
}

/// Index of the entry holding `key`, as an executable search.
pub(crate) fn find_entry(entries: &Vec<(String, Vec<String>)>, key: &str) -> (r: Option<usize>)
    ensures
        r is None ==> key_index(entries.deep_view(), key@) == -1,
        r is Some ==> key_index(entries.deep_view(), key@) == r->0 as int && r->0
            < entries.len(),
{
    let ghost es = entries.deep_view();
    let n = entries.len();
    let mut i: usize = 0;
    while i < n
        invariant
            0 <= i <= n,
            n == entries@.len(),
            es == entries.deep_view(),
            es.len() == n,
            forall|j: int| 0 <= j < i ==> es[j].0 != key@,
        decreases n - i,
    {
        if str_eq(entries[i].0.as_str(), key) {
            proof {
                assert(es[i as int].0 == entries@[i as int].0@);
                lemma_key_index_at(es, key@, i as int);
            }
            return Some(i);
        }
        proof {
            assert(es[i as int].0 == entries@[i as int].0@);
        }
        i = i + 1;
    }
    proof {
        lemma_key_index(es, key@);
        if key_index(es, key@) != -1 {
            assert(es[key_index(es, key@)].0 == key@);
        }
    }
    None
}

/// Whether some string of `v` equals `key`.
pub(crate) fn contains_string(v: &Vec<String>, key: &str) -> (r: bool)
    ensures
        r == v.deep_view().contains(key@),
{
    let ghost vs = v.deep_view();
    let n = v.len();
    let mut i: usize = 0;
    while i < n
        invariant
            0 <= i <= n,
            n == v@.len(),
            vs == v.deep_view(),
            vs.len() == n,
            forall|j: int| 0 <= j < i ==> vs[j] != key@,
        decreases n - i,
    {
        if str_eq(v[i].as_str(), key) {
            proof {
                assert(vs[i as int] == key@);
            }
            return true;
        }
        proof {
            assert(vs[i as int] == v@[i as int]@);
        }
        i = i + 1;
    }
    proof {
        if vs.contains(key@) {
            let w = choose|w: int| 0 <= w < vs.len() && vs[w] == key@;
            assert(vs[w] != key@);
        }
    }
    false
}

} // verus!
