use vstd::prelude::*;
use crate::text::{
    chars_lt, chars_of, key_lt, lemma_key_lt_asymmetric, lemma_key_lt_irreflexive,
    lemma_key_lt_total, lemma_key_lt_transitive,
};

verus! {

/// A value in mathematical form. A number is held as the text that the
/// platform renders for its double; an object as its entries in ascending
/// key order, each key once.
pub enum Json {
    Text(Seq<char>),
    Number(Seq<char>),
    Boolean(bool),
    Object(Seq<(Seq<char>, Json)>),
    Null,
}

/// Keys strictly ascending, hence unique.
pub open spec fn keys_ascending(es: Seq<(Seq<char>, Json)>) -> bool {
    forall|i: int, j: int| 0 <= i < j < es.len() ==> key_lt(#[trigger] es[i].0, #[trigger] es[j].0)
}

/// Where key `k` belongs among `es`: the first entry whose key is not below
/// `k` (`es.len()` if there is none).
pub open spec fn slot(es: Seq<(Seq<char>, Json)>, k: Seq<char>) -> int
    decreases es.len(),
{
    if es.len() == 0 || !key_lt(es[0].0, k) {
        0
    } else {
        1 + slot(es.drop_first(), k)
    }
}

/// `es` with `k` bound to `v`: an entry with key `k` is replaced, else a new
/// one goes where the order puts it.
pub open spec fn put(es: Seq<(Seq<char>, Json)>, k: Seq<char>, v: Json) -> Seq<(Seq<char>, Json)> {
    let p = slot(es, k);
    if p < es.len() && es[p].0 == k {
        es.update(p, (k, v))
    } else {
        es.insert(p, (k, v))
    }
}

/// A parsed value: text, a number, a boolean, an object or null.
#[derive(Debug, PartialEq)]
pub enum JsonValue {
    String(String),
    /// A double, held as the text that the platform's default float
    /// formatting gives for it (`42`, `-0.5`, `0.001`, `inf`).
    Number(String),
    Boolean(bool),
    Object(JsonMap),
    Null,
}

/// The entries of an object, kept in ascending key order.
#[derive(Debug, PartialEq)]
pub struct JsonMap {
    entries: Vec<(String, JsonValue)>,
}

impl JsonValue {
    pub open spec fn view(&self) -> Json
        decreases self,
    {
        match self {
            JsonValue::String(s) => Json::Text(s@),
            JsonValue::Number(n) => Json::Number(n@),
            JsonValue::Boolean(b) => Json::Boolean(*b),
            JsonValue::Object(m) => Json::Object(m.view()),
            JsonValue::Null => Json::Null,
        }
    }
}

/// Mathematical form of a list of entries.
pub closed spec fn view_entries(es: Seq<(String, JsonValue)>) -> Seq<(Seq<char>, Json)>
    decreases es,
{
    if es.len() == 0 {
        Seq::empty()
    } else {
        view_entries(es.subrange(0, es.len() - 1)).push(
            (es[es.len() - 1].0@, es[es.len() - 1].1.view()),
        )
    }
}

proof fn lemma_view_entries(es: Seq<(String, JsonValue)>)
    ensures
        view_entries(es).len() == es.len(),
        forall|i: int|
            0 <= i < es.len() ==> #[trigger] view_entries(es)[i] == (es[i].0@, es[i].1.view()),
    decreases es.len(),
{
    if es.len() > 0 {
        lemma_view_entries(es.subrange(0, es.len() - 1));
    }
}

impl JsonMap {
    /// The entries, in ascending key order.
    pub closed spec fn view(&self) -> Seq<(Seq<char>, Json)>
        decreases self,
    {
        view_entries(self.entries@)
    }

    #[verifier::type_invariant]
    spec fn ascending(&self) -> bool {
        forall|i: int, j: int|
            0 <= i < j < self.entries@.len() ==> key_lt(
                #[trigger] self.entries@[i].0@,
                #[trigger] self.entries@[j].0@,
            )
    }

    /// An empty map.
    pub fn new() -> (r: JsonMap)
        ensures
            r@ == Seq::<(Seq<char>, Json)>::empty(),
            keys_ascending(r@),
    {
        let r = JsonMap { entries: Vec::new() };
        proof {
            lemma_view_entries(r.entries@);
            assert(r@ =~= Seq::<(Seq<char>, Json)>::empty());
        }
        r
    }

    /// Number of entries; they stand in ascending key order.
    pub fn len(&self) -> (r: usize)
        ensures
            r == self@.len(),
            keys_ascending(self@),
    {
        proof {
            use_type_invariant(self);
            lemma_view_entries(self.entries@);
        }
        self.entries.len()
    }

    /// The key of entry `i`, in ascending key order.
    pub fn key_at(&self, i: usize) -> (r: &String)
        requires
            i < self@.len(),
        ensures
            r@ == self@[i as int].0,
    {
        proof {
            lemma_view_entries(self.entries@);
        }
        &self.entries[i].0
    }

    /// The value of entry `i`, in ascending key order.
    pub fn value_at(&self, i: usize) -> (r: &JsonValue)
        requires
            i < self@.len(),
        ensures
            r@ == self@[i as int].1,
    {
        proof {
            lemma_view_entries(self.entries@);
        }
        &self.entries[i].1
    }

    /// Binds `key` to `value`; a value that `key` had before is replaced.
    pub fn insert(&mut self, key: String, value: JsonValue)
        ensures
            final(self)@ == put(old(self)@, key@, value@),
            keys_ascending(old(self)@),
            keys_ascending(final(self)@),
    {
        proof {
            use_type_invariant(&*self);
            lemma_view_entries(self.entries@);
        }
        let ghost before = self@;
        let mut es: Vec<(String, JsonValue)> = Vec::new();
        std::mem::swap(&mut es, &mut self.entries);
        let kc = chars_of(key.as_str());
        let n = es.len();
        let mut i: usize = 0;
        while i < n && chars_lt(&chars_of(es[i].0.as_str()), &kc)
            invariant
                n == es@.len(),
                i <= n,
                before == view_entries(es@),
                kc@ == key@,
                forall|j: int| 0 <= j < i ==> key_lt(#[trigger] es@[j].0@, key@),
            decreases n - i,
        {
            i += 1;
        }
        proof {
            lemma_view_entries(es@);
            lemma_slot(before, key@);
            let p = slot(before, key@);
            if i < n {
                assert(!key_lt(before[i as int].0, key@));
                if p < i {
                    assert(key_lt(before[p].0, key@));
                }
            }
            if i < p {
                assert(key_lt(before[i as int].0, key@));
            }
            assert(p == i);
        }
        let same = i < n && es[i].0 == key;
        let ghost kv = key@;
        let ghost vv = value@;
        if same {
            es.remove(i);
            es.insert(i, (key, value));
        } else {
            es.insert(i, (key, value));
        }
        proof {
            lemma_view_entries(es@);
            let after = view_entries(es@);
            if same {
                assert(after =~= before.update(i as int, (kv, vv)));
            } else {
                assert(after =~= before.insert(i as int, (kv, vv)));
            }
            assert(keys_ascending(before));
            assert forall|a: int, b: int| 0 <= a < b < es@.len() implies key_lt(
                #[trigger] es@[a].0@,
                #[trigger] es@[b].0@,
            ) by {
                lemma_insert_keeps_order(before, kv, vv, i as int, a, b);
            }
        }
        self.entries = es;
        proof {
            lemma_view_entries(self.entries@);
        }
    }
}

proof fn lemma_slot(es: Seq<(Seq<char>, Json)>, k: Seq<char>)
    ensures
        0 <= slot(es, k) <= es.len(),
        forall|j: int| 0 <= j < slot(es, k) ==> key_lt(#[trigger] es[j].0, k),
        slot(es, k) < es.len() ==> !key_lt(es[slot(es, k)].0, k),
    decreases es.len(),
{
    if es.len() > 0 && key_lt(es[0].0, k) {
        lemma_slot(es.drop_first(), k);
        assert forall|j: int| 0 <= j < slot(es, k) implies key_lt(#[trigger] es[j].0, k) by {
            if j > 0 {
                assert(es[j] == es.drop_first()[j - 1]);
            }
        }
    }
}

proof fn lemma_insert_keeps_order(
    before: Seq<(Seq<char>, Json)>,
    k: Seq<char>,
    v: Json,
    p: int,
    a: int,
    b: int,
)
    requires
        keys_ascending(before),
        p == slot(before, k),
        0 <= a < b < put(before, k, v).len(),
    ensures
        key_lt(put(before, k, v)[a].0, put(before, k, v)[b].0),
{
    lemma_slot(before, k);
    let after = put(before, k, v);
    if p < before.len() && before[p].0 == k {
        assert(after == before.update(p, (k, v)));
        assert(key_lt(before[a].0, before[b].0));
    } else {
        assert(after == before.insert(p, (k, v)));
        if p < before.len() {
            lemma_key_lt_total(before[p].0, k);
            assert(key_lt(k, before[p].0));
        }
        if b < p {
            assert(key_lt(before[a].0, before[b].0));
        } else if b == p {
            assert(key_lt(before[a].0, k));
        } else {
            let kb = before[b - 1].0;
            assert(after[b].0 == kb);
            assert(key_lt(k, kb)) by {
                if b - 1 > p {
                    assert(key_lt(before[p].0, kb));
                    lemma_key_lt_transitive(k, before[p].0, kb);
                }
            }
            if a < p {
                assert(key_lt(before[a].0, k));
                lemma_key_lt_transitive(before[a].0, k, kb);
            } else if a > p {
                assert(after[a].0 == before[a - 1].0);
                assert(key_lt(before[a - 1].0, kb));
            }
        }
    }
}

/// Whether `e` is one of the entries.
pub open spec fn has_entry(es: Seq<(Seq<char>, Json)>, e: (Seq<char>, Json)) -> bool {
    exists|i: int| 0 <= i < es.len() && es[i] == e
}

proof fn lemma_ascending_keys_differ(es: Seq<(Seq<char>, Json)>, i: int, j: int)
    requires
        keys_ascending(es),
        0 <= i < es.len(),
        0 <= j < es.len(),
        i != j,
    ensures
        es[i].0 != es[j].0,
{
    if i < j {
        assert(key_lt(es[i].0, es[j].0));
    } else {
        assert(key_lt(es[j].0, es[i].0));
    }
    lemma_key_lt_irreflexive(es[i].0);
}

/// Binding a key keeps the keys ascending; afterwards the entries are the
/// new one and those of other keys.
pub proof fn lemma_put_entries(es: Seq<(Seq<char>, Json)>, k: Seq<char>, v: Json)
    requires
        keys_ascending(es),
    ensures
        keys_ascending(put(es, k, v)),
        forall|e: (Seq<char>, Json)|
            #[trigger] has_entry(put(es, k, v), e) <==> (e == (k, v) || (e.0 != k && has_entry(
                es,
                e,
            ))),
{
    let p = slot(es, k);
    let after = put(es, k, v);
    lemma_slot(es, k);
    assert forall|a: int, b: int| 0 <= a < b < after.len() implies key_lt(
        #[trigger] after[a].0,
        #[trigger] after[b].0,
    ) by {
        lemma_insert_keeps_order(es, k, v, p, a, b);
    }
    if p < es.len() && es[p].0 == k {
        assert forall|e: (Seq<char>, Json)| #[trigger]
            has_entry(after, e) <==> (e == (k, v) || (e.0 != k && has_entry(es, e))) by {
            if has_entry(after, e) {
                let i = choose|i: int| 0 <= i < after.len() && after[i] == e;
                if i != p {
                    lemma_ascending_keys_differ(es, i, p);
                }
            }
            if e == (k, v) {
                assert(after[p] == e);
            } else if e.0 != k && has_entry(es, e) {
                let i = choose|i: int| 0 <= i < es.len() && es[i] == e;
                assert(after[i] == e);
            }
        }
    } else {
        assert forall|j: int| 0 <= j < es.len() implies #[trigger] es[j].0 != k by {
            if j < p {
                assert(key_lt(es[j].0, k));
                lemma_key_lt_irreflexive(k);
            } else if j > p {
                assert(key_lt(es[p].0, es[j].0));
                if es[j].0 == k {
                    assert(!key_lt(es[p].0, k));
                }
            }
        }
        assert forall|e: (Seq<char>, Json)| #[trigger]
            has_entry(after, e) <==> (e == (k, v) || (e.0 != k && has_entry(es, e))) by {
            if has_entry(after, e) {
                let i = choose|i: int| 0 <= i < after.len() && after[i] == e;
                if i < p {
                    assert(es[i] == e);
                } else if i > p {
                    assert(es[i - 1] == e);
                }
            }
            if e == (k, v) {
                assert(after[p] == e);
            } else if e.0 != k && has_entry(es, e) {
                let i = choose|i: int| 0 <= i < es.len() && es[i] == e;
                if i < p {
                    assert(after[i] == e);
                } else {
                    assert(after[i + 1] == e);
                }
            }
        }
    }
}

/// Two lists of entries in ascending key order that hold the same entries
/// are the same list.
pub proof fn lemma_ascending_entries_unique(a: Seq<(Seq<char>, Json)>, b: Seq<(Seq<char>, Json)>)
    requires
        keys_ascending(a),
        keys_ascending(b),
        forall|e: (Seq<char>, Json)| has_entry(a, e) <==> has_entry(b, e),
    ensures
        a == b,
    decreases a.len(),
{
    if a.len() == 0 {
        if b.len() > 0 {
            assert(has_entry(b, b[0]));
        }
        assert(a =~= b);
    } else {
        assert(has_entry(a, a[0]));
        assert(b.len() > 0);
        assert(has_entry(b, b[0]));
        let j = choose|j: int| 0 <= j < b.len() && b[j] == a[0];
        let i = choose|i: int| 0 <= i < a.len() && a[i] == b[0];
        if j > 0 {
            assert(key_lt(b[0].0, b[j].0));
            if i > 0 {
                assert(key_lt(a[0].0, a[i].0));
                lemma_key_lt_asymmetric(b[0].0, a[0].0);
            } else {
                lemma_key_lt_irreflexive(b[0].0);
            }
        }
        assert(a[0] == b[0]);
        let ta = a.drop_first();
        let tb = b.drop_first();
        assert forall|e: (Seq<char>, Json)| has_entry(ta, e) <==> has_entry(tb, e) by {
            if has_entry(ta, e) {
                let x = choose|x: int| 0 <= x < ta.len() && ta[x] == e;
                assert(a[x + 1] == e);
                assert(has_entry(a, e));
                let y = choose|y: int| 0 <= y < b.len() && b[y] == e;
                lemma_ascending_keys_differ(a, 0, x + 1);
                assert(y != 0);
                assert(tb[y - 1] == e);
            }
            if has_entry(tb, e) {
                let y = choose|y: int| 0 <= y < tb.len() && tb[y] == e;
                assert(b[y + 1] == e);
                assert(has_entry(b, e));
                let x = choose|x: int| 0 <= x < a.len() && a[x] == e;
                lemma_ascending_keys_differ(b, 0, y + 1);
                assert(x != 0);
                assert(ta[x - 1] == e);
            }
        }
        lemma_ascending_entries_unique(ta, tb);
        assert(a =~= seq![a[0]] + ta);
        assert(b =~= seq![b[0]] + tb);
    }
}

/// Binding two different keys gives the same entries in either order, so an
/// object's entries, and with them its text, do not depend on the order in
/// which its keys were bound.
pub proof fn lemma_put_commutes(
    es: Seq<(Seq<char>, Json)>,
    k1: Seq<char>,
    v1: Json,
    k2: Seq<char>,
    v2: Json,
)
    requires
        keys_ascending(es),
        k1 != k2,
    ensures
        put(put(es, k1, v1), k2, v2) == put(put(es, k2, v2), k1, v1),
{
    lemma_put_entries(es, k1, v1);
    lemma_put_entries(es, k2, v2);
    lemma_put_entries(put(es, k1, v1), k2, v2);
    lemma_put_entries(put(es, k2, v2), k1, v1);
    lemma_ascending_entries_unique(put(put(es, k1, v1), k2, v2), put(put(es, k2, v2), k1, v1));
}

} // verus!
