//! The store: a mapping from string keys to insertion-ordered sequences of
//! string values. Inserting an existing key appends a value; `replace_first`
//! rewrites only the first value of a key; `remove` deletes a key with all
//! its values.
//!
//! The mathematical model of a store is a sequence of `(key, values)` pairs
//! with pairwise-distinct keys, each holding at least one value. Every public
//! operation is specified by a function over that model.

use vstd::prelude::*;

use crate::text::str_eq;

verus! {

/// The error signalled when an operation targets an absent key.
#[derive(Clone, Copy, Debug, PartialEq, Eq, Structural)]
pub enum StoreError {
    NotFound,
}

/// The model of a store: one `(key, values)` pair per key, keys in the order
/// of their first insertion, values in insertion order.
pub type StoreModel = Seq<(Seq<char>, Seq<Seq<char>>)>;

/// True where the model holds key `k`.
pub open spec fn contains_key_model(m: StoreModel, k: Seq<char>) -> bool {
    exists|i: int| 0 <= i < m.len() && m[i].0 == k
}

/// The position of key `k` in the model (meaningful only where
/// `contains_key_model` holds; with distinct keys it is unique).
pub open spec fn key_index(m: StoreModel, k: Seq<char>) -> int {
    choose|i: int| 0 <= i < m.len() && m[i].0 == k
}

/// The sequence of values the model holds for key `k` (meaningful only where
/// `contains_key_model` holds).
pub open spec fn values_of(m: StoreModel, k: Seq<char>) -> Seq<Seq<char>> {
    m[key_index(m, k)].1
}

/// Well-formedness of a model: keys are pairwise distinct, and every key
/// holds at least one value.
pub open spec fn wf_model(m: StoreModel) -> bool {
    &&& forall|i: int, j: int| 0 <= i < j < m.len() ==> m[i].0 != m[j].0
    &&& forall|i: int| 0 <= i < m.len() ==> m[i].1.len() >= 1
}

/// The model after `insert(k, v)`: `v` is appended to `k`'s values, and a
/// fresh key starts a one-element sequence at the end.
pub open spec fn spec_insert(m: StoreModel, k: Seq<char>, v: Seq<char>) -> StoreModel {
    if contains_key_model(m, k) {
        let i = key_index(m, k);
        m.update(i, (k, m[i].1.push(v)))
    } else {
        m.push((k, seq![v]))
    }
}

/// The model after `replace_first(k, v)`: the first value of `k` becomes `v`,
/// every later value of `k` and every other key stay as they were; an absent
/// key leaves the model unchanged.
pub open spec fn spec_replace_first(m: StoreModel, k: Seq<char>, v: Seq<char>) -> StoreModel {
    if contains_key_model(m, k) {
        let i = key_index(m, k);
        m.update(i, (k, m[i].1.update(0, v)))
    } else {
        m
    }
}

/// The model after `remove(k)`: the key and all its values are gone; an
/// absent key leaves the model unchanged.
pub open spec fn spec_remove(m: StoreModel, k: Seq<char>) -> StoreModel {
    if contains_key_model(m, k) {
        m.remove(key_index(m, k))
    } else {
        m
    }
}

/// The `(key, value)` pairs of one model entry, one pair per value.
pub open spec fn entry_pairs(e: (Seq<char>, Seq<Seq<char>>)) -> Seq<(Seq<char>, Seq<char>)> {
    e.1.map_values(|v: Seq<char>| (e.0, v))
}

/// The model flattened to one `(key, value)` pair per value, keys in model
/// order, values in insertion order.
pub open spec fn all_pairs(m: StoreModel) -> Seq<(Seq<char>, Seq<char>)>
    decreases m.len(),
{
    if m.len() == 0 {
        Seq::empty()
    } else {
        all_pairs(m.drop_last()) + entry_pairs(m.last())
    }
}

/// In a well-formed model the position of a key is the only one that holds
/// it, so any index bearing `k` is `key_index`.
pub proof fn lemma_key_index_of(m: StoreModel, k: Seq<char>, i: int)
    requires
        wf_model(m),
        0 <= i < m.len(),
        m[i].0 == k,
    ensures
        contains_key_model(m, k),
        key_index(m, k) == i,
        values_of(m, k) == m[i].1,
{
    assert(contains_key_model(m, k));
    let j = key_index(m, k);
    assert(0 <= j < m.len() && m[j].0 == k);
    if i < j {
        assert(m[i].0 != m[j].0);
    } else if j < i {
        assert(m[j].0 != m[i].0);
    }
}

pub proof fn lemma_insert_preserves_wf(m: StoreModel, k: Seq<char>, v: Seq<char>)
    requires
        wf_model(m),
    ensures
        wf_model(spec_insert(m, k, v)),
{
    let m2 = spec_insert(m, k, v);
    if contains_key_model(m, k) {
        let i = key_index(m, k);
        assert(0 <= i < m.len() && m[i].0 == k);
        assert(forall|a: int| 0 <= a < m2.len() ==> #[trigger] m2[a].0 == m[a].0);
    } else {
        assert(forall|a: int| 0 <= a < m.len() ==> #[trigger] m[a].0 != k);
    }
}

pub proof fn lemma_replace_first_preserves_wf(m: StoreModel, k: Seq<char>, v: Seq<char>)
    requires
        wf_model(m),
    ensures
        wf_model(spec_replace_first(m, k, v)),
{
    let m2 = spec_replace_first(m, k, v);
    if contains_key_model(m, k) {
        let i = key_index(m, k);
        assert(0 <= i < m.len() && m[i].0 == k);
        assert(forall|a: int| 0 <= a < m2.len() ==> #[trigger] m2[a].0 == m[a].0);
    }
}

pub proof fn lemma_remove_preserves_wf(m: StoreModel, k: Seq<char>)
    requires
        wf_model(m),
    ensures
        wf_model(spec_remove(m, k)),
{
    let m2 = spec_remove(m, k);
    if contains_key_model(m, k) {
        let i = key_index(m, k);
        assert(0 <= i < m.len() && m[i].0 == k);
        assert(forall|a: int| 0 <= a < m2.len() ==> #[trigger] m2[a] == (if a < i {
            m[a]
        } else {
            m[a + 1]
        }));
    }
}

/// Law: `lookup` reflects exactly the values inserted for a key, in
/// insertion order. `insert(k, v)` appends `v` to `k`'s value sequence
/// (starting a fresh one-element sequence for an unseen key) and leaves the
/// presence and the values of every other key untouched.
pub proof fn lemma_insert_tracks_values(m: StoreModel, k: Seq<char>, v: Seq<char>)
    requires
        wf_model(m),
    ensures
        contains_key_model(spec_insert(m, k, v), k),
        values_of(spec_insert(m, k, v), k) == (if contains_key_model(m, k) {
            values_of(m, k)
        } else {
            Seq::<Seq<char>>::empty()
        }).push(v),
        forall|k2: Seq<char>|
            k2 != k ==> #[trigger] contains_key_model(spec_insert(m, k, v), k2)
                == contains_key_model(m, k2),
        forall|k2: Seq<char>|
            k2 != k && contains_key_model(m, k2) ==> #[trigger] values_of(spec_insert(m, k, v), k2)
                == values_of(m, k2),
{
    let m2 = spec_insert(m, k, v);
    lemma_insert_preserves_wf(m, k, v);
    if contains_key_model(m, k) {
        let i = key_index(m, k);
        assert(0 <= i < m.len() && m[i].0 == k);
        lemma_key_index_of(m2, k, i);
        assert(values_of(m2, k) == values_of(m, k).push(v)) by {
            lemma_key_index_of(m, k, i);
        }
    } else {
        let i = m.len() as int;
        lemma_key_index_of(m2, k, i);
        assert(values_of(m2, k) =~= Seq::<Seq<char>>::empty().push(v));
    }
    assert forall|k2: Seq<char>| k2 != k implies #[trigger] contains_key_model(m2, k2)
        == contains_key_model(m, k2) by {
        if contains_key_model(m, k2) {
            let a = key_index(m, k2);
            assert(0 <= a < m.len() && m[a].0 == k2);
            assert(m2[a].0 == k2);
        }
        if contains_key_model(m2, k2) {
            let a = key_index(m2, k2);
            assert(0 <= a < m2.len() && m2[a].0 == k2);
            assert(0 <= a < m.len() && m[a].0 == k2);
        }
    }
    assert forall|k2: Seq<char>| k2 != k && contains_key_model(m, k2) implies #[trigger] values_of(
        m2,
        k2,
    ) == values_of(m, k2) by {
        let a = key_index(m, k2);
        assert(0 <= a < m.len() && m[a].0 == k2);
        assert(m2[a] == m[a]);
        lemma_key_index_of(m, k2, a);
        lemma_key_index_of(m2, k2, a);
    }
}

/// Law: `remove(k)` deletes key `k` and all its values, and leaves the
/// presence and the values of every other key untouched; `lookup(k)` then
/// signals `NotFound`.
pub proof fn lemma_remove_clears_key(m: StoreModel, k: Seq<char>)
    requires
        wf_model(m),
    ensures
        !contains_key_model(spec_remove(m, k), k),
        forall|k2: Seq<char>|
            k2 != k ==> #[trigger] contains_key_model(spec_remove(m, k), k2)
                == contains_key_model(m, k2),
        forall|k2: Seq<char>|
            k2 != k && contains_key_model(m, k2) ==> #[trigger] values_of(spec_remove(m, k), k2)
                == values_of(m, k2),
{
    let m2 = spec_remove(m, k);
    lemma_remove_preserves_wf(m, k);
    if contains_key_model(m, k) {
        let i = key_index(m, k);
        assert(0 <= i < m.len() && m[i].0 == k);
        assert(forall|a: int| 0 <= a < m2.len() ==> #[trigger] m2[a] == (if a < i {
            m[a]
        } else {
            m[a + 1]
        }));
        assert(!contains_key_model(m2, k)) by {
            if contains_key_model(m2, k) {
                let a = key_index(m2, k);
                assert(0 <= a < m2.len() && m2[a].0 == k);
                if a < i {
                    assert(m[a].0 != m[i].0);
                } else {
                    assert(m[i].0 != m[a + 1].0);
                }
            }
        }
        assert forall|k2: Seq<char>| k2 != k implies #[trigger] contains_key_model(m2, k2)
            == contains_key_model(m, k2) by {
            if contains_key_model(m, k2) {
                let a = key_index(m, k2);
                assert(0 <= a < m.len() && m[a].0 == k2);
                if a < i {
                    assert(m2[a].0 == k2);
                } else {
                    assert(a != i);
                    assert(m2[a - 1].0 == k2);
                }
            }
            if contains_key_model(m2, k2) {
                let a = key_index(m2, k2);
                assert(0 <= a < m2.len() && m2[a].0 == k2);
            }
        }
        assert forall|k2: Seq<char>| k2 != k && contains_key_model(m, k2) implies #[trigger]
            values_of(m2, k2) == values_of(m, k2) by {
            let a = key_index(m, k2);
            assert(0 <= a < m.len() && m[a].0 == k2);
            lemma_key_index_of(m, k2, a);
            if a < i {
                assert(m2[a] == m[a]);
                lemma_key_index_of(m2, k2, a);
            } else {
                assert(a != i);
                assert(m2[a - 1] == m[a]);
                lemma_key_index_of(m2, k2, a - 1);
            }
        }
    }
}

/// Law: where key `k` is present, `replace_first(k, v)` rewrites exactly the
/// first of `k`'s values, keeps every later one, and leaves the presence and
/// the values of every other key untouched.
pub proof fn lemma_replace_first_effect(m: StoreModel, k: Seq<char>, v: Seq<char>)
    requires
        wf_model(m),
        contains_key_model(m, k),
    ensures
        contains_key_model(spec_replace_first(m, k, v), k),
        values_of(spec_replace_first(m, k, v), k) == values_of(m, k).update(0, v),
        forall|k2: Seq<char>|
            k2 != k ==> #[trigger] contains_key_model(spec_replace_first(m, k, v), k2)
                == contains_key_model(m, k2),
        forall|k2: Seq<char>|
            k2 != k && contains_key_model(m, k2) ==> #[trigger] values_of(
                spec_replace_first(m, k, v),
                k2,
            ) == values_of(m, k2),
{
    let m2 = spec_replace_first(m, k, v);
    lemma_replace_first_preserves_wf(m, k, v);
    let i = key_index(m, k);
    assert(0 <= i < m.len() && m[i].0 == k);
    lemma_key_index_of(m, k, i);
    lemma_key_index_of(m2, k, i);
    assert forall|k2: Seq<char>| k2 != k implies #[trigger] contains_key_model(m2, k2)
        == contains_key_model(m, k2) by {
        if contains_key_model(m, k2) {
            let a = key_index(m, k2);
            assert(0 <= a < m.len() && m[a].0 == k2);
            assert(m2[a].0 == k2);
        }
        if contains_key_model(m2, k2) {
            let a = key_index(m2, k2);
            assert(0 <= a < m2.len() && m2[a].0 == k2);
            assert(m[a].0 == k2);
        }
    }
    assert forall|k2: Seq<char>| k2 != k && contains_key_model(m, k2) implies #[trigger] values_of(
        m2,
        k2,
    ) == values_of(m, k2) by {
        let a = key_index(m, k2);
        assert(0 <= a < m.len() && m[a].0 == k2);
        assert(m2[a] == m[a]);
        lemma_key_index_of(m, k2, a);
        lemma_key_index_of(m2, k2, a);
    }
}

/// Law: operating on an absent key changes nothing: `remove(k)` and
/// `replace_first(k, v)` leave the model exactly as it was (the store then
/// signals `NotFound`).
pub proof fn lemma_absent_key_is_noop(m: StoreModel, k: Seq<char>, v: Seq<char>)
    requires
        !contains_key_model(m, k),
    ensures
        spec_remove(m, k) == m,
        spec_replace_first(m, k, v) == m,
{
}

/// Law (round trip): inserting a previously unseen key and looking it up
/// yields exactly the one inserted value.
pub proof fn lemma_insert_lookup_roundtrip(m: StoreModel, k: Seq<char>, v: Seq<char>)
    requires
        wf_model(m),
        !contains_key_model(m, k),
    ensures
        contains_key_model(spec_insert(m, k, v), k),
        values_of(spec_insert(m, k, v), k) == seq![v],
{
    lemma_insert_tracks_values(m, k, v);
    assert(Seq::<Seq<char>>::empty().push(v) =~= seq![v]);
}

/// Law (multiplicity): inserting the same fresh key twice yields both values
/// in insertion order, and `replace_first` then changes only the first of
/// them.
pub proof fn lemma_multiplicity(m: StoreModel, k: Seq<char>, v1: Seq<char>, v2: Seq<char>)
    requires
        wf_model(m),
        !contains_key_model(m, k),
    ensures
        values_of(spec_insert(spec_insert(m, k, v1), k, v2), k) == seq![v1, v2],
        forall|w: Seq<char>|
            #[trigger] values_of(spec_replace_first(spec_insert(spec_insert(m, k, v1), k, v2), k, w), k)
                == seq![w, v2],
{
    let m1 = spec_insert(m, k, v1);
    let m2 = spec_insert(m1, k, v2);
    lemma_insert_lookup_roundtrip(m, k, v1);
    lemma_insert_preserves_wf(m, k, v1);
    lemma_insert_tracks_values(m1, k, v2);
    assert(values_of(m2, k) =~= seq![v1, v2]);
    lemma_insert_preserves_wf(m1, k, v2);
    assert forall|w: Seq<char>| #[trigger] values_of(spec_replace_first(m2, k, w), k) == seq![
        w,
        v2,
    ] by {
        lemma_replace_first_effect(m2, k, w);
        assert(values_of(spec_replace_first(m2, k, w), k) =~= seq![w, v2]);
    }
}

/// One store operation, for stating laws over operation histories.
pub enum StoreOp {
    Insert { key: Seq<char>, value: Seq<char> },
    ReplaceFirst { key: Seq<char>, value: Seq<char> },
    Remove { key: Seq<char> },
}

/// The model after one operation.
pub open spec fn apply_op(m: StoreModel, op: StoreOp) -> StoreModel {
    match op {
        StoreOp::Insert { key, value } => spec_insert(m, key, value),
        StoreOp::ReplaceFirst { key, value } => spec_replace_first(m, key, value),
        StoreOp::Remove { key } => spec_remove(m, key),
    }
}

/// The model after the operations of `ops`, run in order.
pub open spec fn apply_ops(m: StoreModel, ops: Seq<StoreOp>) -> StoreModel
    decreases ops.len(),
{
    if ops.len() == 0 {
        m
    } else {
        apply_op(apply_ops(m, ops.drop_last()), ops.last())
    }
}

/// The values that the operations of `ops`, run in order, leave for key `k`
/// when no operation has touched `k` before them: `None` where the key ends
/// up absent. Inserts append in insertion order, `replace_first` rewrites
/// the first value of a present key, a removal clears the key.
pub open spec fn values_after(ops: Seq<StoreOp>, k: Seq<char>) -> Option<Seq<Seq<char>>>
    decreases ops.len(),
{
    if ops.len() == 0 {
        None
    } else {
        let prior = values_after(ops.drop_last(), k);
        match ops.last() {
            StoreOp::Insert { key, value } => if key == k {
                match prior {
                    None => Some(seq![value]),
                    Some(vs) => Some(vs.push(value)),
                }
            } else {
                prior
            },
            StoreOp::ReplaceFirst { key, value } => if key == k {
                match prior {
                    None => None,
                    Some(vs) => Some(vs.update(0, value)),
                }
            } else {
                prior
            },
            StoreOp::Remove { key } => if key == k {
                None
            } else {
                prior
            },
        }
    }
}

/// Law (history invariant): running any sequence of operations on an empty
/// store leaves a well-formed model in which every key is present exactly
/// where the history leaves it a value, and then holds exactly the values
/// the history leaves for it: the values inserted for the key, in insertion
/// order — the first one rewritten by `replace_first` — until the key's
/// removal. With `lookup`'s contract this says that `lookup(k)` returns
/// exactly the sequence of values inserted for `k`, in insertion order,
/// until `remove(k)` is called.
pub proof fn lemma_lookup_reflects_history(ops: Seq<StoreOp>, k: Seq<char>)
    ensures
        wf_model(apply_ops(Seq::empty(), ops)),
        match values_after(ops, k) {
            Some(vs) => contains_key_model(apply_ops(Seq::empty(), ops), k) && values_of(
                apply_ops(Seq::empty(), ops),
                k,
            ) == vs,
            None => !contains_key_model(apply_ops(Seq::empty(), ops), k),
        },
    decreases ops.len(),
{
    let e: StoreModel = Seq::empty();
    if ops.len() == 0 {
        assert(!contains_key_model(e, k));
    } else {
        let prefix = ops.drop_last();
        let m1 = apply_ops(e, prefix);
        lemma_lookup_reflects_history(prefix, k);
        match ops.last() {
            StoreOp::Insert { key, value } => {
                lemma_insert_preserves_wf(m1, key, value);
                lemma_insert_tracks_values(m1, key, value);
                if key == k && values_after(prefix, k) is None {
                    assert(Seq::<Seq<char>>::empty().push(value) =~= seq![value]);
                }
            },
            StoreOp::ReplaceFirst { key, value } => {
                lemma_replace_first_preserves_wf(m1, key, value);
                if contains_key_model(m1, key) {
                    lemma_replace_first_effect(m1, key, value);
                } else {
                    lemma_absent_key_is_noop(m1, key, value);
                }
            },
            StoreOp::Remove { key } => {
                lemma_remove_preserves_wf(m1, key);
                lemma_remove_clears_key(m1, key);
            },
        }
    }
}

struct Entry {
    key: String,
    values: Vec<String>,
}

spec fn entry_model(e: Entry) -> (Seq<char>, Seq<Seq<char>>) {
    (e.key@, e.values.deep_view())
}

spec fn entries_model(es: Seq<Entry>) -> StoreModel {
    es.map_values(|e: Entry| entry_model(e))
}

/// The in-memory store.
pub struct Store {
    entries: Vec<Entry>,
}

impl View for Store {
    type V = StoreModel;

    closed spec fn view(&self) -> StoreModel {
        entries_model(self.entries@)
    }
}

impl Store {
    #[verifier::type_invariant]
    spec fn wf(self) -> bool {
        wf_model(self@)
    }

    /// A fresh, empty store.
    pub fn new() -> (r: Store)
        ensures
            r@ == Seq::<(Seq<char>, Seq<Seq<char>>)>::empty(),
    {
        let s = Store { entries: Vec::new() };
        proof {
            assert(s@ =~= Seq::<(Seq<char>, Seq<Seq<char>>)>::empty());
        }
        s
    }

    fn find_index(&self, key: &str) -> (r: Option<usize>)
        ensures
            match r {
                Some(i) => i < self@.len() && self@[i as int].0 == key@,
                None => !contains_key_model(self@, key@),
            },
    {
        let n = self.entries.len();
        let mut i: usize = 0;
        while i < n
            invariant
                i <= n,
                n == self.entries@.len(),
                self@ == entries_model(self.entries@),
                forall|j: int| 0 <= j < i ==> #[trigger] self@[j].0 != key@,
            decreases n - i,
        {
            if str_eq(self.entries[i].key.as_str(), key) {
                return Some(i);
            }
            i += 1;
        }
        None
    }

    /// True where the store holds `key`.
    pub fn contains_key(&self, key: &str) -> (r: bool)
        ensures
            r == contains_key_model(self@, key@),
    {
        match self.find_index(key) {
            Some(i) => {
                proof {
                    assert(contains_key_model(self@, key@));
                }
                true
            },
            None => false,
        }
    }

    /// Appends `value` to the values of `key`, creating the key if absent.
    pub fn insert(&mut self, key: &str, value: &str)
        ensures
            final(self)@ == spec_insert(old(self)@, key@, value@),
    {
        proof {
            use_type_invariant(&*self);
        }
        let ghost m = self@;
        let ghost es = self.entries@;
        let idx_opt = self.find_index(key);
        let v = value.to_owned();
        let mut entries: Vec<Entry> = Vec::new();
        core::mem::swap(&mut entries, &mut self.entries);
        match idx_opt {
            Some(i) => {
                let mut e = entries.remove(i);
                let ghost orig = e;
                e.values.push(v);
                proof {
                    assert(e.values.deep_view() =~= orig.values.deep_view().push(value@));
                }
                entries.insert(i, e);
                proof {
                    lemma_key_index_of(m, key@, i as int);
                    lemma_insert_preserves_wf(m, key@, value@);
                    assert(entries@ =~= es.update(i as int, e));
                    assert(entries_model(entries@) =~= spec_insert(m, key@, value@));
                }
            },
            None => {
                let mut vs: Vec<String> = Vec::new();
                vs.push(v);
                let ent = Entry { key: key.to_owned(), values: vs };
                proof {
                    assert(entry_model(ent) == (key@, seq![value@])) by {
                        assert(ent.values.deep_view() =~= seq![value@]);
                    }
                }
                entries.push(ent);
                proof {
                    lemma_insert_preserves_wf(m, key@, value@);
                    assert(entries_model(entries@) =~= spec_insert(m, key@, value@));
                }
            },
        }
        self.entries = entries;
    }

    /// All values of `key` in insertion order, or `NotFound` where the key
    /// is absent.
    pub fn lookup(&self, key: &str) -> (r: Result<Vec<String>, StoreError>)
        ensures
            match r {
                Ok(vs) => contains_key_model(self@, key@) && vs.deep_view() == values_of(
                    self@,
                    key@,
                ),
                Err(e) => !contains_key_model(self@, key@) && e == StoreError::NotFound,
            },
    {
        proof {
            use_type_invariant(&*self);
        }
        match self.find_index(key) {
            None => Err(StoreError::NotFound),
            Some(i) => {
                let vals = &self.entries[i].values;
                let mut out: Vec<String> = Vec::new();
                let mut j: usize = 0;
                while j < vals.len()
                    invariant
                        j <= vals@.len(),
                        out@ == vals@.subrange(0, j as int),
                    decreases vals@.len() - j,
                {
                    out.push(vals[j].clone());
                    proof {
                        assert(out@ =~= vals@.subrange(0, j + 1 as int));
                    }
                    j += 1;
                }
                proof {
                    assert(out@ =~= vals@);
                    assert(out.deep_view() =~= vals.deep_view());
                    lemma_key_index_of(self@, key@, i as int);
                }
                Ok(out)
            },
        }
    }

    /// Replaces only the first value of `key` with `value`, leaving any
    /// later values unchanged; signals `NotFound` where the key is absent.
    pub fn replace_first(&mut self, key: &str, value: &str) -> (r: Result<(), StoreError>)
        ensures
            final(self)@ == spec_replace_first(old(self)@, key@, value@),
            r == (if contains_key_model(old(self)@, key@) {
                Ok::<(), StoreError>(())
            } else {
                Err::<(), StoreError>(StoreError::NotFound)
            }),
    {
        proof {
            use_type_invariant(&*self);
        }
        let ghost m = self@;
        let ghost es = self.entries@;
        match self.find_index(key) {
            None => Err(StoreError::NotFound),
            Some(i) => {
                let v = value.to_owned();
                let mut entries: Vec<Entry> = Vec::new();
                core::mem::swap(&mut entries, &mut self.entries);
                let mut e = entries.remove(i);
                let ghost orig = e;
                proof {
                    lemma_key_index_of(m, key@, i as int);
                    assert(orig.values@.len() >= 1);
                }
                let _old_first = e.values.remove(0);
                e.values.insert(0, v);
                proof {
                    assert(e.values@ =~= orig.values@.update(0, v));
                    assert(e.values.deep_view() =~= orig.values.deep_view().update(0, value@));
                }
                entries.insert(i, e);
                proof {
                    lemma_replace_first_preserves_wf(m, key@, value@);
                    assert(entries@ =~= es.update(i as int, e));
                    assert(entries_model(entries@) =~= spec_replace_first(m, key@, value@));
                }
                self.entries = entries;
                Ok(())
            },
        }
    }

    /// Deletes `key` and all its values; signals `NotFound` where the key is
    /// absent.
    pub fn remove(&mut self, key: &str) -> (r: Result<(), StoreError>)
        ensures
            final(self)@ == spec_remove(old(self)@, key@),
            r == (if contains_key_model(old(self)@, key@) {
                Ok::<(), StoreError>(())
            } else {
                Err::<(), StoreError>(StoreError::NotFound)
            }),
    {
        proof {
            use_type_invariant(&*self);
        }
        let ghost m = self@;
        let ghost es = self.entries@;
        match self.find_index(key) {
            None => Err(StoreError::NotFound),
            Some(i) => {
                let mut entries: Vec<Entry> = Vec::new();
                core::mem::swap(&mut entries, &mut self.entries);
                let _gone = entries.remove(i);
                proof {
                    lemma_key_index_of(m, key@, i as int);
                    lemma_remove_preserves_wf(m, key@);
                    assert(entries_model(entries@) =~= spec_remove(m, key@));
                }
                self.entries = entries;
                Ok(())
            },
        }
    }

    /// True where `key` is present with more than one value (the case in
    /// which an update touches only the first).
    pub fn has_multiple_values(&self, key: &str) -> (r: bool)
        ensures
            r == (contains_key_model(self@, key@) && values_of(self@, key@).len() > 1),
    {
        proof {
            use_type_invariant(&*self);
        }
        match self.find_index(key) {
            None => false,
            Some(i) => {
                proof {
                    lemma_key_index_of(self@, key@, i as int);
                }
                self.entries[i].values.len() > 1
            },
        }
    }

    /// The whole store flattened to one `(key, value)` pair per value, keys
    /// in the order of their first insertion, values in insertion order.
    pub fn all_entries(&self) -> (r: Vec<(String, String)>)
        ensures
            r.deep_view() == all_pairs(self@),
    {
        let mut out: Vec<(String, String)> = Vec::new();
        let n = self.entries.len();
        let mut i: usize = 0;
        proof {
            assert(out.deep_view() =~= all_pairs(self@.take(0)));
        }
        while i < n
            invariant
                i <= n,
                n == self.entries@.len(),
                self@ == entries_model(self.entries@),
                out.deep_view() == all_pairs(self@.take(i as int)),
            decreases n - i,
        {
            let e = &self.entries[i];
            let mut j: usize = 0;
            while j < e.values.len()
                invariant
                    i < n,
                    j <= e.values@.len(),
                    n == self.entries@.len(),
                    self@ == entries_model(self.entries@),
                    e == &self.entries@[i as int],
                    out.deep_view() == all_pairs(self@.take(i as int)) + entry_pairs(
                        self@[i as int],
                    ).take(j as int),
                decreases e.values@.len() - j,
            {
                let ghost before = out.deep_view();
                out.push((e.key.clone(), e.values[j].clone()));
                proof {
                    assert(out.deep_view() =~= before.push((e.key@, e.values.deep_view()[j as int])));
                    assert(entry_pairs(self@[i as int])[j as int] == (
                        e.key@,
                        e.values.deep_view()[j as int],
                    ));
                    assert(out.deep_view() =~= all_pairs(self@.take(i as int)) + entry_pairs(
                        self@[i as int],
                    ).take(j + 1 as int));
                }
                j += 1;
            }
            proof {
                assert(entry_pairs(self@[i as int]).take(e.values@.len() as int) =~= entry_pairs(
                    self@[i as int],
                ));
                assert(self@.take(i + 1 as int).drop_last() =~= self@.take(i as int));
                assert(self@.take(i + 1 as int).last() == self@[i as int]);
                assert(out.deep_view() =~= all_pairs(self@.take(i + 1 as int)));
            }
            i += 1;
        }
        proof {
            assert(self@.take(n as int) =~= self@);
        }
        out
    }
}

} // verus!
