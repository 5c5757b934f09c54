//! An insertion-ordered JSON value, and its mathematical model.

use vstd::prelude::*;

verus! {

/// A JSON value. Objects keep their keys in insertion order.
///
/// A number is held as its JSON text, so that no precision is lost.
#[derive(Debug, PartialEq)]
pub enum JsonValue {
    Null,
    Bool(bool),
    Number(String),
    String(String),
    Array(Vec<JsonValue>),
    Object(JsonMap),
}

/// A JSON object: an ordered list of entries.
#[derive(Debug, PartialEq)]
pub struct JsonMap {
    pub entries: Vec<(String, JsonValue)>,
}

/// The mathematical model of a JSON value.
pub enum Json {
    Null,
    Bool(bool),
    Number(Seq<char>),
    String(Seq<char>),
    Array(Seq<Json>),
    Object(Seq<(Seq<char>, Json)>),
}

/// The model of a value.
pub open spec fn json_of(v: JsonValue) -> Json
    decreases v,
{
    match v {
        JsonValue::Null => Json::Null,
        JsonValue::Bool(b) => Json::Bool(b),
        JsonValue::Number(n) => Json::Number(n@),
        JsonValue::String(s) => Json::String(s@),
        JsonValue::Array(a) => Json::Array(json_seq_of(a@)),
        JsonValue::Object(m) => Json::Object(entries_of(m.entries@)),
    }
}

/// The model of a sequence of values.
pub open spec fn json_seq_of(s: Seq<JsonValue>) -> Seq<Json>
    decreases s,
{
    if s.len() == 0 {
        Seq::empty()
    } else {
        json_seq_of(s.drop_last()).push(json_of(s[s.len() - 1]))
    }
}

/// The model of a sequence of object entries.
pub open spec fn entries_of(s: Seq<(String, JsonValue)>) -> Seq<(Seq<char>, Json)>
    decreases s,
{
    if s.len() == 0 {
        Seq::empty()
    } else {
        entries_of(s.drop_last()).push((s[s.len() - 1].0@, json_of(s[s.len() - 1].1)))
    }
}

impl View for JsonValue {
    type V = Json;

    open spec fn view(&self) -> Json {
        json_of(*self)
    }
}

impl View for JsonMap {
    type V = Seq<(Seq<char>, Json)>;

    open spec fn view(&self) -> Seq<(Seq<char>, Json)> {
        entries_of(self.entries@)
    }
}


/// `i` is the position of the first entry of `e` whose key is `k`.
pub open spec fn is_first_key<V>(e: Seq<(Seq<char>, V)>, k: Seq<char>, i: int) -> bool {
    &&& 0 <= i < e.len()
    &&& e[i].0 == k
    &&& forall|j: int| 0 <= j < i ==> e[j].0 != k
}

/// The position of the first entry of `e` whose key is `k`, or -1 when there is none.
pub open spec fn key_position<V>(e: Seq<(Seq<char>, V)>, k: Seq<char>) -> int {
    if exists|i: int| is_first_key(e, k, i) {
        choose|i: int| is_first_key(e, k, i)
    } else {
        -1
    }
}

/// Some entry of `e` has the key `k`.
pub open spec fn has_key<V>(e: Seq<(Seq<char>, V)>, k: Seq<char>) -> bool {
    exists|i: int| 0 <= i < e.len() && e[i].0 == k
}

/// The value stored under `k`.
pub open spec fn map_get<V>(e: Seq<(Seq<char>, V)>, k: Seq<char>) -> Option<V> {
    let p = key_position(e, k);
    if p >= 0 {
        Some(e[p].1)
    } else {
        None
    }
}

/// Stores `v` under `k`: an existing entry keeps its place, a new one goes last.
pub open spec fn map_insert<V>(e: Seq<(Seq<char>, V)>, k: Seq<char>, v: V) -> Seq<(Seq<char>, V)> {
    let p = key_position(e, k);
    if p >= 0 {
        e.update(p, (k, v))
    } else {
        e.push((k, v))
    }
}

/// Removes the entry under `k`; the others keep their order.
pub open spec fn map_remove<V>(e: Seq<(Seq<char>, V)>, k: Seq<char>) -> Seq<(Seq<char>, V)> {
    let p = key_position(e, k);
    if p >= 0 {
        e.remove(p)
    } else {
        e
    }
}

/// No two entries share a key.
pub open spec fn keys_distinct<V>(e: Seq<(Seq<char>, V)>) -> bool {
    forall|i: int, j: int| 0 <= i < e.len() && 0 <= j < e.len() && i != j ==> e[i].0 != e[j].0
}

/// The model of an optional borrowed value.
pub open spec fn opt_ref_json(o: Option<&JsonValue>) -> Option<Json> {
    match o {
        Some(v) => Some(v@),
        None => None,
    }
}

/// The model of an optional value.
pub open spec fn opt_json(o: Option<JsonValue>) -> Option<Json> {
    match o {
        Some(v) => Some(v@),
        None => None,
    }
}

/// A key occurs in `e` exactly when it has a first position.
pub proof fn lemma_key_position<V>(e: Seq<(Seq<char>, V)>, k: Seq<char>)
    ensures
        has_key(e, k) <==> key_position(e, k) >= 0,
        key_position(e, k) >= 0 ==> is_first_key(e, k, key_position(e, k)),
        key_position(e, k) < e.len(),
        key_position(e, k) >= -1,
{
    if has_key(e, k) {
        let i = choose|i: int| 0 <= i < e.len() && e[i].0 == k;
        lemma_first_key_exists(e, k, i);
    }
}

proof fn lemma_first_key_exists<V>(e: Seq<(Seq<char>, V)>, k: Seq<char>, i: int)
    requires
        0 <= i < e.len(),
        e[i].0 == k,
    ensures
        exists|f: int| is_first_key(e, k, f),
    decreases i,
{
    if exists|j: int| 0 <= j < i && e[j].0 == k {
        let j = choose|j: int| 0 <= j < i && e[j].0 == k;
        lemma_first_key_exists(e, k, j);
    } else {
        assert(is_first_key(e, k, i));
    }
}

/// The first position of a key is the only position satisfying `is_first_key`.
pub proof fn lemma_first_key_unique<V>(e: Seq<(Seq<char>, V)>, k: Seq<char>, i: int)
    requires
        is_first_key(e, k, i),
    ensures
        key_position(e, k) == i,
{
    let p = key_position(e, k);
    assert(is_first_key(e, k, p));
    if p < i {
        assert(e[p].0 != k);
    } else if p > i {
        assert(e[i].0 != k);
    }
}

/// No key gives position -1.
pub proof fn lemma_no_key<V>(e: Seq<(Seq<char>, V)>, k: Seq<char>)
    requires
        forall|j: int| 0 <= j < e.len() ==> e[j].0 != k,
    ensures
        key_position(e, k) == -1,
{
    lemma_key_position(e, k);
}

/// Storing under a key and reading that key back gives the stored value; every other
/// key reads as before.
pub proof fn lemma_get_after_insert<V>(e: Seq<(Seq<char>, V)>, k: Seq<char>, v: V, other: Seq<char>)
    ensures
        map_get(map_insert(e, k, v), k) == Some(v),
        other != k ==> map_get(map_insert(e, k, v), other) == map_get(e, other),
{
    let n = map_insert(e, k, v);
    lemma_key_position(e, k);
    lemma_key_position(e, other);
    let p = key_position(e, k);
    let q = key_position(e, other);
    if p >= 0 {
        assert(is_first_key(n, k, p));
        lemma_first_key_unique(n, k, p);
    } else {
        assert(is_first_key(n, k, e.len() as int));
        lemma_first_key_unique(n, k, e.len() as int);
    }
    if other != k {
        if q >= 0 {
            assert(is_first_key(n, other, q));
            lemma_first_key_unique(n, other, q);
        } else {
            assert forall|j: int| 0 <= j < n.len() implies n[j].0 != other by {
                if j < e.len() && j != p {
                    assert(e[j].0 != other);
                }
            }
            lemma_no_key(n, other);
        }
    }
}

/// Removing a key from entries with distinct keys leaves no entry under it; every other
/// key reads as before.
pub proof fn lemma_get_after_remove<V>(e: Seq<(Seq<char>, V)>, k: Seq<char>, other: Seq<char>)
    ensures
        keys_distinct(e) ==> map_get(map_remove(e, k), k) is None,
        other != k ==> map_get(map_remove(e, k), other) == map_get(e, other),
{
    let n = map_remove(e, k);
    lemma_key_position(e, k);
    lemma_key_position(e, other);
    let p = key_position(e, k);
    let q = key_position(e, other);
    if keys_distinct(e) {
        if p >= 0 {
            assert forall|j: int| 0 <= j < n.len() implies n[j].0 != k by {
                if j < p {
                    assert(e[j].0 != k);
                } else {
                    assert(e[j + 1].0 != e[p].0);
                }
            }
        }
        lemma_no_key(n, k);
    }
    if other != k && p >= 0 {
        if q >= 0 {
            if q < p {
                assert(is_first_key(n, other, q));
                lemma_first_key_unique(n, other, q);
            } else {
                assert(q != p);
                assert(is_first_key(n, other, q - 1)) by {
                    assert forall|j: int| 0 <= j < q - 1 implies n[j].0 != other by {
                        if j < p {
                            assert(e[j].0 != other);
                        } else {
                            assert(e[j + 1].0 != other);
                        }
                    }
                }
                lemma_first_key_unique(n, other, q - 1);
            }
        } else {
            assert forall|j: int| 0 <= j < n.len() implies n[j].0 != other by {
                if j < p {
                    assert(e[j].0 != other);
                } else {
                    assert(e[j + 1].0 != other);
                }
            }
            lemma_no_key(n, other);
        }
    }
}

/// Removing a key from entries with distinct keys drops exactly one entry when the key
/// is there (none otherwise), and the entries that stay are entries that were there, in
/// the same relative order.
pub proof fn lemma_remove_keeps_order<V>(e: Seq<(Seq<char>, V)>, k: Seq<char>)
    requires
        keys_distinct(e),
    ensures
        map_remove(e, k).len() == if has_key(e, k) { e.len() - 1 } else { e.len() as int },
        forall|i: int|
            0 <= i < map_remove(e, k).len() ==> #[trigger] map_remove(e, k)[i] == e[key_position(
                e,
                map_remove(e, k)[i].0,
            )] && map_remove(e, k)[i].0 != k,
        forall|i: int, j: int|
            0 <= i < j < map_remove(e, k).len() ==> key_position(e, (#[trigger] map_remove(e, k)[i]).0)
                < key_position(e, (#[trigger] map_remove(e, k)[j]).0),
{
    lemma_key_position(e, k);
    let p = key_position(e, k);
    let r = map_remove(e, k);
    assert forall|a: int| 0 <= a < e.len() implies key_position(e, #[trigger] e[a].0) == a by {
        assert(is_first_key(e, e[a].0, a));
        lemma_first_key_unique(e, e[a].0, a);
    }
    if p >= 0 {
        assert forall|i: int| 0 <= i < r.len() implies r[i] == e[if i < p { i } else { i + 1 }] by {}
        assert forall|i: int| 0 <= i < r.len() implies #[trigger] r[i] == e[key_position(e, r[i].0)]
            && r[i].0 != k by {
            let a = if i < p { i } else { i + 1 };
            assert(r[i] == e[a]);
            assert(key_position(e, e[a].0) == a);
            assert(e[a].0 != e[p].0);
        }
        assert forall|i: int, j: int| 0 <= i < j < r.len() implies key_position(e, (#[trigger] r[i]).0)
            < key_position(e, (#[trigger] r[j]).0) by {
            let a = if i < p { i } else { i + 1 };
            let b = if j < p { j } else { j + 1 };
            assert(r[i] == e[a] && r[j] == e[b]);
            assert(key_position(e, e[a].0) == a);
            assert(key_position(e, e[b].0) == b);
        }
    } else {
        assert forall|i: int| 0 <= i < r.len() implies #[trigger] r[i] == e[key_position(e, r[i].0)]
            && r[i].0 != k by {
            assert(key_position(e, e[i].0) == i);
            assert(e[i].0 != k);
        }
        assert forall|i: int, j: int| 0 <= i < j < r.len() implies key_position(e, (#[trigger] r[i]).0)
            < key_position(e, (#[trigger] r[j]).0) by {
            assert(key_position(e, e[i].0) == i);
            assert(key_position(e, e[j].0) == j);
        }
    }
}

/// Storing and removing keep the keys of entries distinct.
pub proof fn lemma_distinct_kept<V>(e: Seq<(Seq<char>, V)>, k: Seq<char>, v: V)
    requires
        keys_distinct(e),
    ensures
        keys_distinct(map_insert(e, k, v)),
        keys_distinct(map_remove(e, k)),
{
    lemma_key_position(e, k);
    let p = key_position(e, k);
    let n = map_insert(e, k, v);
    assert forall|i: int, j: int|
        0 <= i < n.len() && 0 <= j < n.len() && i != j implies n[i].0 != n[j].0 by {
        if p < 0 {
            if i == e.len() {
                assert(e[j].0 != k);
            } else if j == e.len() {
                assert(e[i].0 != k);
            }
        }
    }
    let r = map_remove(e, k);
    assert forall|i: int, j: int|
        0 <= i < r.len() && 0 <= j < r.len() && i != j implies r[i].0 != r[j].0 by {
        if p >= 0 {
            let ii = if i < p { i } else { i + 1 };
            let jj = if j < p { j } else { j + 1 };
            assert(r[i] == e[ii] && r[j] == e[jj]);
        }
    }
}

/// The model of a sequence of entries, element by element.
pub proof fn lemma_entries_of(s: Seq<(String, JsonValue)>)
    ensures
        entries_of(s).len() == s.len(),
        forall|i: int| #![trigger entries_of(s)[i]]
            0 <= i < s.len() ==> entries_of(s)[i] == (s[i].0@, json_of(s[i].1)),
    decreases s.len(),
{
    if s.len() > 0 {
        lemma_entries_of(s.drop_last());
    }
}

/// The model of a sequence of values, element by element.
pub proof fn lemma_json_seq_of(s: Seq<JsonValue>)
    ensures
        json_seq_of(s).len() == s.len(),
        forall|i: int| #![trigger json_seq_of(s)[i]]
            0 <= i < s.len() ==> json_seq_of(s)[i] == json_of(s[i]),
    decreases s.len(),
{
    if s.len() > 0 {
        lemma_json_seq_of(s.drop_last());
    }
}

/// Two sequences of entries with the same length and the same models entry by entry
/// have the same model.
pub proof fn lemma_entries_of_ext(s: Seq<(String, JsonValue)>, m: Seq<(Seq<char>, Json)>)
    requires
        s.len() == m.len(),
        forall|i: int| 0 <= i < s.len() ==> m[i] == (#[trigger] s[i].0@, json_of(s[i].1)),
    ensures
        entries_of(s) == m,
{
    lemma_entries_of(s);
    assert(entries_of(s) =~= m);
}

/// Two sequences of values with the same models element by element have the same model.
pub proof fn lemma_json_seq_of_ext(s: Seq<JsonValue>, m: Seq<Json>)
    requires
        s.len() == m.len(),
        forall|i: int| 0 <= i < s.len() ==> m[i] == json_of(#[trigger] s[i]),
    ensures
        json_seq_of(s) == m,
{
    lemma_json_seq_of(s);
    assert(json_seq_of(s) =~= m);
}

impl JsonMap {
    /// An empty object.
    pub fn new() -> (m: JsonMap)
        ensures
            m@ == Seq::<(Seq<char>, Json)>::empty(),
    {
        JsonMap { entries: Vec::new() }
    }

    /// The number of entries.
    pub fn len(&self) -> (n: usize)
        ensures
            n == self@.len(),
    {
        proof {
            lemma_entries_of(self.entries@);
        }
        self.entries.len()
    }

    /// The position of the entry under `key`, if any.
    pub fn position(&self, key: &String) -> (r: Option<usize>)
        ensures
            match r {
                Some(i) => i as int == key_position(self@, key@),
                None => key_position(self@, key@) == -1,
            },
    {
        proof {
            lemma_entries_of(self.entries@);
        }
        let n = self.entries.len();
        let mut i: usize = 0;
        while i < n
            invariant
                n == self.entries@.len(),
                self@.len() == n,
                i <= n,
                forall|j: int| 0 <= j < i ==> self@[j].0 != key@,
            decreases n - i,
        {
            proof {
                lemma_entries_of(self.entries@);
            }
            if self.entries[i].0 == *key {
                proof {
                    assert(is_first_key(self@, key@, i as int));
                    lemma_first_key_unique(self@, key@, i as int);
                }
                return Some(i);
            }
            i = i + 1;
        }
        proof {
            lemma_no_key(self@, key@);
        }
        None
    }

    /// The value under `key`, if any.
    pub fn get(&self, key: &String) -> (r: Option<&JsonValue>)
        ensures
            opt_ref_json(r) == map_get(self@, key@),
    {
        proof {
            lemma_entries_of(self.entries@);
        }
        match self.position(key) {
            Some(i) => Some(&self.entries[i].1),
            None => None,
        }
    }

    /// Whether some entry has the key `key`.
    pub fn contains_key(&self, key: &String) -> (b: bool)
        ensures
            b == has_key(self@, key@),
    {
        proof {
            lemma_key_position(self@, key@);
        }
        self.position(key).is_some()
    }

    /// Stores `value` under `key` and returns the value that was there. An existing
    /// entry keeps its place; a new one goes last.
    pub fn insert(&mut self, key: String, value: JsonValue) -> (previous: Option<JsonValue>)
        ensures
            final(self)@ == map_insert(old(self)@, key@, value@),
            opt_json(previous) == map_get(old(self)@, key@),
            keys_distinct(old(self)@) ==> keys_distinct(final(self)@),
    {
        proof {
            if keys_distinct(self@) {
                lemma_distinct_kept(self@, key@, value@);
            }
            lemma_entries_of(self.entries@);
            lemma_key_position(self@, key@);
        }
        match self.position(&key) {
            Some(i) => {
                let ghost kv = key@;
                let ghost vv = value@;
                let mut entry = (key, value);
                self.entries.set_and_swap(i, &mut entry);
                proof {
                    lemma_entries_of(self.entries@);
                    lemma_entries_of_ext(self.entries@, map_insert(old(self)@, kv, vv));
                }
                Some(entry.1)
            },
            None => {
                let ghost kv = key@;
                let ghost vv = value@;
                self.entries.push((key, value));
                proof {
                    lemma_entries_of(self.entries@);
                    lemma_entries_of_ext(self.entries@, map_insert(old(self)@, kv, vv));
                }
                None
            },
        }
    }

    /// Removes the entry under `key` and returns its value; the other entries keep their
    /// order.
    pub fn shift_remove(&mut self, key: &String) -> (removed: Option<JsonValue>)
        ensures
            final(self)@ == map_remove(old(self)@, key@),
            opt_json(removed) == map_get(old(self)@, key@),
            keys_distinct(old(self)@) ==> keys_distinct(final(self)@),
    {
        proof {
            if keys_distinct(self@) {
                lemma_distinct_kept(self@, key@, Json::Null);
            }
            lemma_entries_of(self.entries@);
            lemma_key_position(self@, key@);
        }
        match self.position(key) {
            Some(i) => {
                let entry = self.entries.remove(i);
                proof {
                    lemma_entries_of(self.entries@);
                    lemma_entries_of_ext(self.entries@, map_remove(old(self)@, key@));
                }
                Some(entry.1)
            },
            None => None,
        }
    }
}


impl JsonValue {
    /// A copy of this value with the same model.
    #[verifier::loop_isolation(false)]
    pub fn clone_value(&self) -> (r: JsonValue)
        ensures
            r@ == self@,
        decreases self,
    {
        match self {
            JsonValue::Null => JsonValue::Null,
            JsonValue::Bool(b) => JsonValue::Bool(*b),
            JsonValue::Number(n) => JsonValue::Number(n.clone()),
            JsonValue::String(s) => JsonValue::String(s.clone()),
            JsonValue::Array(a) => {
                let mut out: Vec<JsonValue> = Vec::new();
                let n = a.len();
                let mut i: usize = 0;
                while i < n
                    invariant
                        i <= n,
                        out@.len() == i,
                        forall|j: int| 0 <= j < i ==> json_of(#[trigger] out@[j]) == json_of(a@[j]),
                    decreases n - i,
                {
                    let c = a[i].clone_value();
                    out.push(c);
                    i = i + 1;
                }
                proof {
                    lemma_json_seq_of(a@);
                    lemma_json_seq_of_ext(out@, json_seq_of(a@));
                }
                JsonValue::Array(out)
            },
            JsonValue::Object(m) => JsonValue::Object(m.clone_map()),
        }
    }

    /// Whether this value is an object.
    pub fn is_object(&self) -> (b: bool)
        ensures
            b == (self@ is Object),
    {
        match self {
            JsonValue::Object(_) => true,
            _ => false,
        }
    }

    /// The object this value is, if it is one.
    pub fn as_object(&self) -> (r: Option<&JsonMap>)
        ensures
            match r {
                Some(m) => self@ == Json::Object(m@),
                None => !(self@ is Object),
            },
    {
        match self {
            JsonValue::Object(m) => Some(m),
            _ => None,
        }
    }

    /// The value under `key` when this value is an object that has that key.
    pub fn get(&self, key: &String) -> (r: Option<&JsonValue>)
        ensures
            opt_ref_json(r) == match self@ {
                Json::Object(e) => map_get(e, key@),
                _ => None,
            },
    {
        match self {
            JsonValue::Object(m) => m.get(key),
            _ => None,
        }
    }
}

impl JsonMap {
    /// A copy of this object with the same model.
    #[verifier::loop_isolation(false)]
    pub fn clone_map(&self) -> (r: JsonMap)
        ensures
            r@ == self@,
        decreases self,
    {
        let mut out: Vec<(String, JsonValue)> = Vec::new();
        let n = self.entries.len();
        let mut i: usize = 0;
        while i < n
            invariant
                i <= n,
                out@.len() == i,
                forall|j: int|
                    0 <= j < i ==> (#[trigger] out@[j]).0@ == self.entries@[j].0@ && json_of(
                        out@[j].1,
                    ) == json_of(self.entries@[j].1),
            decreases n - i,
        {
            let k = self.entries[i].0.clone();
            let v = self.entries[i].1.clone_value();
            out.push((k, v));
            i = i + 1;
        }
        proof {
            lemma_entries_of(self.entries@);
            lemma_entries_of_ext(out@, self@);
        }
        JsonMap { entries: out }
    }
}


impl Clone for JsonValue {
    fn clone(&self) -> (r: Self)
        ensures
            r@ == self@,
    {
        self.clone_value()
    }
}

impl Clone for JsonMap {
    fn clone(&self) -> (r: Self)
        ensures
            r@ == self@,
    {
        self.clone_map()
    }
}

} // verus!
