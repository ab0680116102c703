use vstd::prelude::*;
use crate::json::{
    decimal, encoding, entry_words, insert_index, item_words, json_hash, key_lt, key_order, keys_of, JsonView, Num,
};

verus! {

proof fn lemma_key_lt_asymmetric(a: Seq<char>, b: Seq<char>)
    requires
        key_lt(a, b),
    ensures
        !key_lt(b, a),
        a != b,
    decreases a.len(),
{
    if a.len() > 0 && b.len() > 0 && a[0] == b[0] {
        lemma_key_lt_asymmetric(a.drop_first(), b.drop_first());
    }
}

proof fn lemma_key_lt_transitive(a: Seq<char>, b: Seq<char>, c: Seq<char>)
    requires
        key_lt(a, b),
        key_lt(b, c),
    ensures
        key_lt(a, c),
    decreases a.len(),
{
    if a.len() > 0 && b.len() > 0 && c.len() > 0 && a[0] == b[0] && b[0] == c[0] {
        lemma_key_lt_transitive(a.drop_first(), b.drop_first(), c.drop_first());
    }
}

proof fn lemma_key_lt_total(a: Seq<char>, b: Seq<char>)
    requires
        a != b,
    ensures
        key_lt(a, b) || key_lt(b, a),
    decreases a.len(),
{
    if a.len() > 0 && b.len() > 0 && a[0] == b[0] {
        if a.drop_first() == b.drop_first() {
            assert(a =~= seq![a[0]] + a.drop_first());
            assert(b =~= seq![b[0]] + b.drop_first());
        } else {
            lemma_key_lt_total(a.drop_first(), b.drop_first());
        }
    } else if a.len() > 0 && b.len() > 0 {
    } else if a.len() == 0 && b.len() == 0 {
        assert(a =~= b);
    }
}

/// Indexes whose keys strictly ascend.
pub open spec fn index_keys_ascend(keys: Seq<Seq<char>>, s: Seq<int>) -> bool {
    forall|x: int, y: int| 0 <= x < y < s.len() ==> key_lt(keys[#[trigger] s[x]], keys[#[trigger] s[y]])
}

proof fn lemma_insert_index(keys: Seq<Seq<char>>, s: Seq<int>, k: int)
    ensures
        insert_index(keys, s, k).len() == s.len() + 1,
        forall|x: int|
            0 <= x < insert_index(keys, s, k).len() ==> #[trigger] insert_index(keys, s, k)[x] == k || s.contains(
                insert_index(keys, s, k)[x],
            ),
        insert_index(keys, s, k).contains(k),
        forall|x: int| 0 <= x < s.len() ==> insert_index(keys, s, k).contains(#[trigger] s[x]),
        index_keys_ascend(keys, s) && (forall|x: int| 0 <= x < s.len() ==> keys[#[trigger] s[x]] != keys[k])
            ==> index_keys_ascend(keys, insert_index(keys, s, k)),
    decreases s.len(),
{
    let r = insert_index(keys, s, k);
    if s.len() == 0 {
        assert(r[0] == k);
    } else if key_lt(keys[s[0]], keys[k]) {
        let t = s.drop_first();
        lemma_insert_index(keys, t, k);
        let rt = insert_index(keys, t, k);
        assert(r == seq![s[0]] + rt);
        assert forall|x: int| 0 <= x < r.len() implies #[trigger] r[x] == k || s.contains(r[x]) by {
            if x > 0 {
                assert(r[x] == rt[x - 1]);
                if rt[x - 1] != k {
                    let y = choose|y: int| 0 <= y < t.len() && t[y] == rt[x - 1];
                    assert(s[y + 1] == t[y]);
                }
            } else {
                assert(s[0] == r[0]);
            }
        }
        let yk = choose|y: int| 0 <= y < rt.len() && rt[y] == k;
        assert(r[yk + 1] == k);
        assert forall|x: int| 0 <= x < s.len() implies r.contains(#[trigger] s[x]) by {
            if x == 0 {
                assert(r[0] == s[0]);
            } else {
                assert(t[x - 1] == s[x]);
                assert(rt.contains(t[x - 1]));
                let y = choose|y: int| 0 <= y < rt.len() && rt[y] == t[x - 1];
                assert(r[y + 1] == s[x]);
            }
        }
        if index_keys_ascend(keys, s) && (forall|x: int| 0 <= x < s.len() ==> keys[#[trigger] s[x]] != keys[k]) {
            assert(index_keys_ascend(keys, t)) by {
                assert forall|x: int, y: int| 0 <= x < y < t.len() implies key_lt(keys[#[trigger] t[x]], keys[#[trigger] t[y]]) by {
                    assert(t[x] == s[x + 1] && t[y] == s[y + 1]);
                }
            }
            assert forall|x: int| 0 <= x < t.len() implies keys[#[trigger] t[x]] != keys[k] by {
                assert(t[x] == s[x + 1]);
            }
            assert forall|x: int, y: int| 0 <= x < y < r.len() implies key_lt(keys[#[trigger] r[x]], keys[#[trigger] r[y]]) by {
                if x > 0 {
                    assert(r[x] == rt[x - 1] && r[y] == rt[y - 1]);
                } else {
                    assert(r[y] == rt[y - 1]);
                    if rt[y - 1] != k {
                        let z = choose|z: int| 0 <= z < t.len() && t[z] == rt[y - 1];
                        assert(s[z + 1] == t[z]);
                        assert(key_lt(keys[s[0]], keys[s[z + 1]]));
                    }
                }
            }
        }
    } else {
        assert(r == seq![k] + s);
        assert forall|x: int| 0 <= x < r.len() implies #[trigger] r[x] == k || s.contains(r[x]) by {
            if x > 0 {
                assert(r[x] == s[x - 1]);
            }
        }
        assert(r[0] == k);
        assert forall|x: int| 0 <= x < s.len() implies r.contains(#[trigger] s[x]) by {
            assert(r[x + 1] == s[x]);
        }
        if index_keys_ascend(keys, s) && (forall|x: int| 0 <= x < s.len() ==> keys[#[trigger] s[x]] != keys[k]) {
            assert(keys[s[0]] != keys[k]);
            lemma_key_lt_total(keys[s[0]], keys[k]);
            assert forall|x: int, y: int| 0 <= x < y < r.len() implies key_lt(keys[#[trigger] r[x]], keys[#[trigger] r[y]]) by {
                if x > 0 {
                    assert(r[x] == s[x - 1] && r[y] == s[y - 1]);
                } else {
                    assert(r[y] == s[y - 1]);
                    if y > 1 {
                        assert(key_lt(keys[s[0]], keys[s[y - 1]]));
                        lemma_key_lt_transitive(keys[k], keys[s[0]], keys[s[y - 1]]);
                    }
                }
            }
        }
    }
}

/// Keys that differ pairwise.
pub open spec fn keys_distinct(keys: Seq<Seq<char>>) -> bool {
    forall|x: int, y: int| 0 <= x < y < keys.len() ==> #[trigger] keys[x] != #[trigger] keys[y]
}

proof fn lemma_key_order(keys: Seq<Seq<char>>, n: nat)
    requires
        n <= keys.len(),
    ensures
        key_order(keys, n).len() == n,
        forall|x: int| 0 <= x < n ==> #[trigger] key_order(keys, n)[x] < n && 0 <= key_order(keys, n)[x],
        forall|z: int| 0 <= z < n ==> #[trigger] key_order(keys, n).contains(z),
        keys_distinct(keys) ==> index_keys_ascend(keys, key_order(keys, n)),
    decreases n,
{
    if n > 0 {
        let s = key_order(keys, (n - 1) as nat);
        lemma_key_order(keys, (n - 1) as nat);
        lemma_insert_index(keys, s, n - 1);
        let r = key_order(keys, n);
        assert forall|x: int| 0 <= x < n implies #[trigger] r[x] < n && 0 <= r[x] by {
            if r[x] != n - 1 {
                let y = choose|y: int| 0 <= y < s.len() && s[y] == r[x];
            }
        }
        assert forall|z: int| 0 <= z < n implies #[trigger] r.contains(z) by {
            if z < n - 1 {
                assert(s.contains(z));
                let y = choose|y: int| 0 <= y < s.len() && s[y] == z;
                assert(r.contains(s[y]));
            }
        }
        if keys_distinct(keys) {
            assert forall|x: int| 0 <= x < s.len() implies keys[#[trigger] s[x]] != keys[n - 1] by {
                assert(s[x] < n - 1);
            }
        }
    }
}

/// Object entries whose keys strictly ascend.
pub open spec fn keys_ascend(o: Seq<(Seq<char>, JsonView)>) -> bool {
    forall|i: int, j: int| 0 <= i < j < o.len() ==> key_lt(#[trigger] o[i].0, #[trigger] o[j].0)
}

/// A document whose objects each name a key once, at every depth.
pub open spec fn valid(v: JsonView) -> bool
    decreases v,
{
    match v {
        JsonView::Array(a) => forall|i: int| 0 <= i < a.len() ==> valid(#[trigger] a[i]),
        JsonView::Object(o) => keys_distinct(keys_of(o)) && forall|i: int| 0 <= i < o.len() ==> valid(#[trigger] o[i].1),
        _ => true,
    }
}

/// Entry `j` of `p` has key `k`.
pub open spec fn key_at(p: Seq<(Seq<char>, JsonView)>, k: Seq<char>, j: int) -> bool {
    0 <= j < p.len() && p[j].0 == k
}

/// Some entry of `p` has key `k`.
pub open spec fn has_key(p: Seq<(Seq<char>, JsonView)>, k: Seq<char>) -> bool {
    exists|j: int| #[trigger] key_at(p, k, j)
}

/// Two documents that hold the same data: objects with the same keys and
/// equivalent values under each, in whatever order, and arrays with
/// equivalent items in the same order. Numbers are compared in their
/// canonical form, where values within a millionth of an integer are that
/// integer.
pub open spec fn equivalent(a: JsonView, b: JsonView) -> bool
    decreases a,
{
    match (a, b) {
        (JsonView::Array(x), JsonView::Array(y)) => x.len() == y.len() && forall|i: int|
            0 <= i < x.len() ==> equivalent(#[trigger] x[i], y[i]),
        (JsonView::Object(o), JsonView::Object(p)) => (forall|i: int|
            #![trigger o[i]]
            0 <= i < o.len() ==> exists|j: int| #[trigger] key_at(p, o[i].0, j) && equivalent(o[i].1, p[j].1))
            && (forall|j: int| 0 <= j < p.len() ==> #[trigger] has_key(o, p[j].0)),
        _ => a == b,
    }
}

proof fn lemma_ascending_keys_agree(o: Seq<(Seq<char>, JsonView)>, p: Seq<(Seq<char>, JsonView)>)
    requires
        keys_ascend(o),
        keys_ascend(p),
        forall|i: int| 0 <= i < o.len() ==> #[trigger] has_key(p, o[i].0),
        forall|j: int| 0 <= j < p.len() ==> #[trigger] has_key(o, p[j].0),
    ensures
        o.len() == p.len(),
        forall|i: int| 0 <= i < o.len() ==> #[trigger] o[i].0 == p[i].0,
    decreases o.len(),
{
    if o.len() == 0 {
        if p.len() > 0 {
            assert(has_key(o, p[0].0));
        }
    } else if p.len() == 0 {
        assert(has_key(p, o[0].0));
    } else {
        assert(has_key(p, o[0].0));
        assert(has_key(o, p[0].0));
        let j = choose|j: int| #[trigger] key_at(p, o[0].0, j);
        let i = choose|i: int| #[trigger] key_at(o, p[0].0, i);
        if j != 0 {
            assert(key_lt(p[0].0, p[j].0));
            lemma_key_lt_asymmetric(p[0].0, p[j].0);
            if i != 0 {
                assert(key_lt(o[0].0, o[i].0));
                lemma_key_lt_asymmetric(o[0].0, o[i].0);
            }
        }
        assert(o[0].0 == p[0].0);
        let o2 = o.drop_first();
        let p2 = p.drop_first();
        assert forall|a: int| 0 <= a < o2.len() implies #[trigger] has_key(p2, o2[a].0) by {
            assert(o2[a] == o[a + 1]);
            assert(has_key(p, o[a + 1].0));
            let b = choose|b: int| #[trigger] key_at(p, o[a + 1].0, b);
            assert(key_lt(o[0].0, o[a + 1].0));
            lemma_key_lt_asymmetric(o[0].0, o[a + 1].0);
            assert(b != 0);
            assert(key_at(p2, o2[a].0, b - 1));
        }
        assert forall|b: int| 0 <= b < p2.len() implies #[trigger] has_key(o2, p2[b].0) by {
            assert(p2[b] == p[b + 1]);
            assert(has_key(o, p[b + 1].0));
            let a = choose|a: int| #[trigger] key_at(o, p[b + 1].0, a);
            assert(key_lt(p[0].0, p[b + 1].0));
            lemma_key_lt_asymmetric(p[0].0, p[b + 1].0);
            assert(a != 0);
            assert(key_at(o2, p2[b].0, a - 1));
        }
        assert(keys_ascend(o2)) by {
            assert forall|x: int, y: int| 0 <= x < y < o2.len() implies key_lt(#[trigger] o2[x].0, #[trigger] o2[y].0) by {
                assert(o2[x] == o[x + 1] && o2[y] == o[y + 1]);
            }
        }
        assert(keys_ascend(p2)) by {
            assert forall|x: int, y: int| 0 <= x < y < p2.len() implies key_lt(#[trigger] p2[x].0, #[trigger] p2[y].0) by {
                assert(p2[x] == p[x + 1] && p2[y] == p[y + 1]);
            }
        }
        lemma_ascending_keys_agree(o2, p2);
        assert forall|i: int| 0 <= i < o.len() implies #[trigger] o[i].0 == p[i].0 by {
            if i > 0 {
                assert(o2[i - 1] == o[i]);
                assert(p2[i - 1] == p[i]);
            }
        }
    }
}

/// Documents that hold the same data are written out as the same words.
proof fn lemma_equivalent_same_encoding(a: JsonView, b: JsonView)
    requires
        valid(a),
        valid(b),
        equivalent(a, b),
    ensures
        encoding(a) == encoding(b),
    decreases a,
{
    match (a, b) {
        (JsonView::Array(x), JsonView::Array(y)) => {
            assert forall|i: int| 0 <= i < x.len() implies #[trigger] encoding(x[i]) == encoding(y[i]) by {
                lemma_equivalent_same_encoding(x[i], y[i]);
            }
            assert(x.len() == y.len());
            assert(item_words(x).len() == item_words(y).len());
            assert forall|i: int| 0 <= i < x.len() implies #[trigger] item_words(x)[i] == item_words(y)[i] by {
                assert(item_words(x)[i] == encoding(x[i]));
                assert(item_words(y)[i] == encoding(y[i]));
            }
            assert(item_words(x) =~= item_words(y));
        },
        (JsonView::Object(o), JsonView::Object(p)) => {
            let ko = keys_of(o);
            let kp = keys_of(p);
            lemma_key_order(ko, o.len());
            lemma_key_order(kp, p.len());
            let oo = key_order(ko, o.len());
            let op = key_order(kp, p.len());
            let so = Seq::new(o.len(), |i: int| o[oo[i]]);
            let sp = Seq::new(p.len(), |i: int| p[op[i]]);
            assert(keys_ascend(so)) by {
                assert forall|x: int, y: int| 0 <= x < y < so.len() implies key_lt(#[trigger] so[x].0, #[trigger] so[y].0) by {
                    assert(key_lt(ko[oo[x]], ko[oo[y]]));
                }
            }
            assert(keys_ascend(sp)) by {
                assert forall|x: int, y: int| 0 <= x < y < sp.len() implies key_lt(#[trigger] sp[x].0, #[trigger] sp[y].0) by {
                    assert(key_lt(kp[op[x]], kp[op[y]]));
                }
            }
            assert forall|i: int| 0 <= i < so.len() implies #[trigger] has_key(sp, so[i].0) by {
                let w = oo[i];
                assert(o[w] == so[i]);
                let j = choose|j: int| #[trigger] key_at(p, o[w].0, j) && equivalent(o[w].1, p[j].1);
                assert(op.contains(j));
                let m = choose|m: int| 0 <= m < op.len() && op[m] == j;
                assert(key_at(sp, so[i].0, m));
            }
            assert forall|m: int| 0 <= m < sp.len() implies #[trigger] has_key(so, sp[m].0) by {
                let j = op[m];
                assert(p[j] == sp[m]);
                assert(has_key(o, p[j].0));
                let w = choose|w: int| #[trigger] key_at(o, p[j].0, w);
                assert(oo.contains(w));
                let x = choose|x: int| 0 <= x < oo.len() && oo[x] == w;
                assert(key_at(so, sp[m].0, x));
            }
            lemma_ascending_keys_agree(so, sp);
            assert(oo.len() == o.len() && op.len() == p.len() && o.len() == p.len());
            assert forall|i: int| 0 <= i < o.len() implies #[trigger] entry_words(o)[i] == entry_words(p)[i] by {
                let w = oo[i];
                assert(so[i] == o[w] && sp[i] == p[op[i]]);
                let j = choose|j: int| #[trigger] key_at(p, o[w].0, j) && equivalent(o[w].1, p[j].1);
                if op[i] != j {
                    assert(kp[op[i]] == kp[j]);
                    if op[i] < j {
                        assert(kp[op[i]] != kp[j]);
                    } else {
                        assert(kp[j] != kp[op[i]]);
                    }
                }
                assert(decreases_to!(a => o));
                assert(decreases_to!(o => o[w]));
                assert(decreases_to!(o[w] => o[w].1));
                lemma_equivalent_same_encoding(o[w].1, p[j].1);
                assert(so[i].0 == sp[i].0);
            }
            assert(entry_words(o) =~= entry_words(p));
        },
        _ => {},
    }
}

/// Documents that hold the same data hash the same: the order in which an
/// object's keys were written does not matter, nor does a difference
/// between numbers below a millionth of an integer, which the canonical
/// form of numbers removes.
pub proof fn lemma_equivalent_hash_equal(a: JsonView, b: JsonView)
    requires
        valid(a),
        valid(b),
        equivalent(a, b),
    ensures
        json_hash(a) == json_hash(b),
{
    lemma_equivalent_same_encoding(a, b);
}

/// An integer hashes as the string of its decimal digits, so a numeric field
/// matches a text key with the same digits.
pub proof fn lemma_integer_hashes_as_text(i: i64)
    ensures
        json_hash(JsonView::Number(Num::Int(i))) == json_hash(JsonView::Str(decimal(i as int))),
{
}

} // verus!
