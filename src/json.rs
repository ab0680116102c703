use vstd::prelude::*;

verus! {

broadcast use vstd::std_specs::vec::axiom_vec_index_decreases;

/// A JSON number in canonical form: a value within one millionth of an
/// integer is that integer, any other value is counted in millionths.
#[derive(Clone, Copy, Debug, PartialEq, Eq, Structural)]
pub enum Num {
    Int(i64),
    Micro(i64),
}

/// A JSON document.
#[derive(Debug, PartialEq, Eq)]
pub enum Json {
    Null,
    Bool(bool),
    Number(Num),
    Str(String),
    Array(Vec<Json>),
    Object(Vec<(String, Json)>),
}

/// The mathematical value of a JSON document.
pub enum JsonView {
    Null,
    Bool(bool),
    Number(Num),
    Str(Seq<char>),
    Array(Seq<JsonView>),
    Object(Seq<(Seq<char>, JsonView)>),
}

/// The mathematical value of an exec JSON document.
pub open spec fn json_view(j: Json) -> JsonView
    decreases j,
{
    match j {
        Json::Null => JsonView::Null,
        Json::Bool(b) => JsonView::Bool(b),
        Json::Number(n) => JsonView::Number(n),
        Json::Str(s) => JsonView::Str(s@),
        Json::Array(a) => JsonView::Array(
            Seq::new(a.len() as nat, |i: int| if 0 <= i < a.len() { json_view(a[i]) } else { JsonView::Null }),
        ),
        Json::Object(o) => JsonView::Object(
            Seq::new(
                o.len() as nat,
                |i: int| if 0 <= i < o.len() { (o[i].0@, json_view(o[i].1)) } else { (Seq::empty(), JsonView::Null) },
            ),
        ),
    }
}

impl View for Json {
    type V = JsonView;

    open spec fn view(&self) -> JsonView {
        json_view(*self)
    }
}

impl Clone for Json {
    fn clone(&self) -> (r: Json)
        ensures
            r@ == self@,
        decreases self,
    {
        match self {
            Json::Null => Json::Null,
            Json::Bool(b) => Json::Bool(*b),
            Json::Number(n) => Json::Number(*n),
            Json::Str(s) => Json::Str(s.clone()),
            Json::Array(a) => {
                let mut out: Vec<Json> = Vec::new();
                let mut i: usize = 0;
                while i < a.len()
                    invariant
                        *self == Json::Array(*a),
                        i <= a.len(),
                        out.len() == i,
                        forall|k: int| 0 <= k < i ==> #[trigger] out@[k]@ == a@[k]@,
                    decreases a.len() - i,
                {
                    proof {
                        assert(decreases_to!(*self => self->Array_0));
                        assert(decreases_to!(self->Array_0 => self->Array_0[i as int]));
                    }
                    out.push(a[i].clone());
                    i = i + 1;
                }
                let r = Json::Array(out);
                assert(self@->Array_0.len() == a.len());
                assert(forall|k: int| 0 <= k < a.len() ==> self@->Array_0[k] == a@[k]@);
                assert(r@->Array_0.len() == out.len());
                assert(forall|k: int| 0 <= k < a.len() ==> r@->Array_0[k] == out@[k]@);
                assert(r@->Array_0 =~= self@->Array_0);
                r
            },
            Json::Object(o) => {
                let mut out: Vec<(String, Json)> = Vec::new();
                let mut i: usize = 0;
                while i < o.len()
                    invariant
                        *self == Json::Object(*o),
                        i <= o.len(),
                        out.len() == i,
                        forall|k: int|
                            0 <= k < i ==> #[trigger] out@[k].0@ == o@[k].0@ && out@[k].1@ == o@[k].1@,
                    decreases o.len() - i,
                {
                    let entry = &o[i];
                    proof {
                        assert(decreases_to!(*self => self->Object_0));
                        assert(decreases_to!(self->Object_0 => self->Object_0[i as int]));
                        assert(decreases_to!(self->Object_0[i as int] => self->Object_0[i as int].1));
                    }
                    out.push((entry.0.clone(), entry.1.clone()));
                    i = i + 1;
                }
                let r = Json::Object(out);
                assert(r@ == self@) by {
                    assert(r@->Object_0 =~= self@->Object_0);
                }
                r
            },
        }
    }
}

/// The decimal digits of a natural number.
pub open spec fn digits(n: nat) -> Seq<char>
    decreases n,
{
    let d = ((n % 10) as u32 + '0' as u32) as char;
    if n < 10 {
        seq![d]
    } else {
        digits(n / 10).push(d)
    }
}

/// The decimal text of an integer, with a leading `-` when it is negative.
pub open spec fn decimal(i: int) -> Seq<char> {
    if i < 0 {
        seq!['-'] + digits((-i) as nat)
    } else {
        digits(i as nat)
    }
}

/// The digit `d`, as text.
fn digit_text(d: u64) -> (r: &'static str)
    requires
        d < 10,
    ensures
        r@ == seq![(d as u32 + '0' as u32) as char],
{
    match d {
        0 => {
            proof {
                reveal_strlit("0");
            }
            "0"
        },
        1 => {
            proof {
                reveal_strlit("1");
            }
            "1"
        },
        2 => {
            proof {
                reveal_strlit("2");
            }
            "2"
        },
        3 => {
            proof {
                reveal_strlit("3");
            }
            "3"
        },
        4 => {
            proof {
                reveal_strlit("4");
            }
            "4"
        },
        5 => {
            proof {
                reveal_strlit("5");
            }
            "5"
        },
        6 => {
            proof {
                reveal_strlit("6");
            }
            "6"
        },
        7 => {
            proof {
                reveal_strlit("7");
            }
            "7"
        },
        8 => {
            proof {
                reveal_strlit("8");
            }
            "8"
        },
        _ => {
            proof {
                reveal_strlit("9");
            }
            "9"
        },
    }
}

/// The decimal digits of `n`.
fn digits_text(n: u64) -> (r: String)
    ensures
        r@ == digits(n as nat),
    decreases n,
{
    if n < 10 {
        digit_text(n).to_owned()
    } else {
        digits_text(n / 10).concat(digit_text(n % 10))
    }
}

/// The decimal text of an integer.
pub(crate) fn int_text(i: i64) -> (r: String)
    ensures
        r@ == decimal(i as int),
{
    if i < 0 {
        let magnitude: u64 = ((-(i + 1)) as u64) + 1;
        proof {
            reveal_strlit("-");
        }
        let r = "-".to_owned().concat(digits_text(magnitude).as_str());
        assert(r@ =~= decimal(i as int));
        r
    } else {
        digits_text(i as u64)
    }
}

/// The words of a text, one per character.
pub open spec fn text_words(s: Seq<char>) -> Seq<u64> {
    s.map_values(|c: char| c as u32 as u64)
}

/// A sign word and the magnitude of an integer.
pub open spec fn int_words(i: i64) -> Seq<u64> {
    if i < 0 {
        seq![1, (-(i as int)) as u64]
    } else {
        seq![0, i as u64]
    }
}

/// The words of each item of an array.
pub open spec fn item_words(a: Seq<JsonView>) -> Seq<Seq<u64>>
    decreases a, 0nat,
{
    Seq::new(a.len(), |i: int| if 0 <= i < a.len() { encoding(a[i]) } else { Seq::empty() })
}

/// Keys in ascending order: text compared character by character.
pub open spec fn key_lt(a: Seq<char>, b: Seq<char>) -> bool
    decreases a.len(),
{
    if a.len() == 0 {
        b.len() > 0
    } else if b.len() == 0 {
        false
    } else if a[0] != b[0] {
        a[0] < b[0]
    } else {
        key_lt(a.drop_first(), b.drop_first())
    }
}

/// The keys of an object's entries.
pub open spec fn keys_of(o: Seq<(Seq<char>, JsonView)>) -> Seq<Seq<char>> {
    o.map_values(|e: (Seq<char>, JsonView)| e.0)
}

/// `s` with index `k` placed before the first index whose key does not
/// come before the key of `k`.
pub open spec fn insert_index(keys: Seq<Seq<char>>, s: Seq<int>, k: int) -> Seq<int>
    decreases s.len(),
{
    if s.len() == 0 {
        seq![k]
    } else if key_lt(keys[s[0]], keys[k]) {
        seq![s[0]] + insert_index(keys, s.drop_first(), k)
    } else {
        seq![k] + s
    }
}

/// The indexes `0 .. n` ordered by their keys; equal keys keep their order.
pub open spec fn key_order(keys: Seq<Seq<char>>, n: nat) -> Seq<int>
    decreases n,
{
    if n == 0 {
        Seq::empty()
    } else {
        insert_index(keys, key_order(keys, (n - 1) as nat), n - 1)
    }
}

/// The words of each entry of an object, taken in the order of their keys:
/// key length, key, value.
pub open spec fn entry_words(o: Seq<(Seq<char>, JsonView)>) -> Seq<Seq<u64>>
    decreases o, 0nat,
{
    let ord = key_order(keys_of(o), o.len());
    Seq::new(
        o.len(),
        |i: int|
            if 0 <= i < ord.len() && 0 <= ord[i] < o.len() {
                seq![o[ord[i]].0.len() as u64] + text_words(o[ord[i]].0) + encoding(o[ord[i]].1)
            } else {
                Seq::empty()
            },
    )
}

/// A document written out as a sequence of words, each part tagged and
/// each text and list preceded by its length. An integer is written as the
/// string of its decimal digits, so that the two hash alike.
pub open spec fn encoding(v: JsonView) -> Seq<u64>
    decreases v, 1nat,
{
    match v {
        JsonView::Null => seq![0],
        JsonView::Bool(b) => seq![1, if b { 1 } else { 0 }],
        JsonView::Number(Num::Int(i)) => seq![4, decimal(i as int).len() as u64] + text_words(decimal(i as int)),
        JsonView::Number(Num::Micro(m)) => seq![3] + int_words(m),
        JsonView::Str(s) => seq![4, s.len() as u64] + text_words(s),
        JsonView::Array(a) => seq![5, a.len() as u64] + item_words(a).flatten_alt(),
        JsonView::Object(o) => seq![6, o.len() as u64] + entry_words(o).flatten_alt(),
    }
}

/// The hash that std's default hasher gives a sequence of words.
pub uninterp spec fn words_hash(w: Seq<u64>) -> u64;

/// The hash of a document: that of its words.
pub open spec fn json_hash(v: JsonView) -> u64 {
    words_hash(encoding(v))
}

/// Relies on `BuildHasher::hash_one` with std's `DefaultHasher`, whose keys are
/// fixed: the hash of a `Vec<u64>` depends on its words alone.
#[verifier::external_body]
fn hash_words(w: &Vec<u64>) -> (r: u64)
    ensures
        r == words_hash(w@),
{
    let b = std::hash::BuildHasherDefault::<std::collections::hash_map::DefaultHasher>::default();
    std::hash::BuildHasher::hash_one(&b, w)
}

fn push_int(i: i64, out: &mut Vec<u64>)
    ensures
        final(out)@ == old(out)@ + int_words(i),
{
    if i < 0 {
        out.push(1);
        out.push((-(i + 1)) as u64 + 1);
    } else {
        out.push(0);
        out.push(i as u64);
    }
    assert(final(out)@ =~= old(out)@ + int_words(i));
}

fn push_text(s: &String, out: &mut Vec<u64>)
    ensures
        final(out)@ == old(out)@ + seq![s@.len() as u64] + text_words(s@),
{
    let n = s.as_str().unicode_len();
    out.push(n as u64);
    let ghost start = out@;
    let mut k: usize = 0;
    while k < n
        invariant
            n == s@.len(),
            k <= n,
            out@ == start + text_words(s@).take(k as int),
        decreases n - k,
    {
        let c = s.as_str().get_char(k);
        out.push(c as u32 as u64);
        assert(text_words(s@).take(k + 1) =~= text_words(s@).take(k as int).push(c as u32 as u64));
        k = k + 1;
    }
    assert(text_words(s@).take(n as int) =~= text_words(s@));
    assert(final(out)@ =~= old(out)@ + seq![s@.len() as u64] + text_words(s@));
}

/// Appends the words of `j`.
pub(crate) fn encode_into(j: &Json, out: &mut Vec<u64>)
    ensures
        final(out)@ == old(out)@ + encoding(j@),
    decreases j,
{
    match j {
        Json::Null => {
            out.push(0);
            assert(final(out)@ =~= old(out)@ + encoding(j@));
        },
        Json::Bool(b) => {
            out.push(1);
            out.push(if *b { 1 } else { 0 });
            assert(final(out)@ =~= old(out)@ + encoding(j@));
        },
        Json::Number(Num::Int(i)) => {
            out.push(4);
            push_text(&int_text(*i), out);
            assert(final(out)@ =~= old(out)@ + encoding(j@));
        },
        Json::Number(Num::Micro(m)) => {
            out.push(3);
            push_int(*m, out);
            assert(final(out)@ =~= old(out)@ + encoding(j@));
        },
        Json::Str(s) => {
            out.push(4);
            push_text(s, out);
            assert(final(out)@ =~= old(out)@ + encoding(j@));
        },
        Json::Array(a) => {
            let ghost av = j@->Array_0;
            let ghost parts = item_words(av);
            out.push(5);
            out.push(a.len() as u64);
            let ghost start = out@;
            let mut i: usize = 0;
            assert(parts.take(0).flatten_alt() =~= Seq::<u64>::empty());
            while i < a.len()
                invariant
                    *j == Json::Array(*a),
                    av == j@->Array_0,
                    av.len() == a.len(),
                    parts == item_words(av),
                    i <= a.len(),
                    out@ == start + parts.take(i as int).flatten_alt(),
                decreases a.len() - i,
            {
                proof {
                    assert(decreases_to!(*j => j->Array_0));
                    assert(decreases_to!(j->Array_0 => j->Array_0[i as int]));
                    assert(av[i as int] == a@[i as int]@);
                    assert(parts.take(i + 1).drop_last() =~= parts.take(i as int));
                }
                encode_into(&a[i], out);
                assert(out@ =~= start + parts.take(i + 1).flatten_alt());
                i = i + 1;
            }
            assert(parts.take(i as int) =~= parts);
            assert(final(out)@ =~= old(out)@ + encoding(j@));
        },
        Json::Object(o) => {
            let ghost ov = j@->Object_0;
            let ghost parts = entry_words(ov);
            assert(ov =~= entries_view(o@));
            let order = entry_order(o);
            let ghost ord = key_order(keys_of(ov), ov.len());
            out.push(6);
            out.push(o.len() as u64);
            let ghost start = out@;
            let mut i: usize = 0;
            assert(parts.take(0).flatten_alt() =~= Seq::<u64>::empty());
            while i < o.len()
                invariant
                    *j == Json::Object(*o),
                    ov == j@->Object_0,
                    ov.len() == o.len(),
                    parts == entry_words(ov),
                    ord == key_order(keys_of(ov), ov.len()),
                    ints(order@) == ord,
                    order.len() == o.len(),
                    forall|x: int| 0 <= x < order.len() ==> #[trigger] order@[x] < o.len(),
                    i <= o.len(),
                    out@ == start + parts.take(i as int).flatten_alt(),
                decreases o.len() - i,
            {
                let at = order[i];
                proof {
                    assert(ord[i as int] == at as int);
                    assert(decreases_to!(*j => j->Object_0));
                    assert(decreases_to!(j->Object_0 => j->Object_0[at as int]));
                    assert(decreases_to!(j->Object_0[at as int] => j->Object_0[at as int].1));
                    assert(ov[at as int] == (o@[at as int].0@, o@[at as int].1@));
                    assert(parts.take(i + 1).drop_last() =~= parts.take(i as int));
                }
                let entry = &o[at];
                push_text(&entry.0, out);
                encode_into(&entry.1, out);
                assert(out@ =~= start + parts.take(i + 1).flatten_alt());
                i = i + 1;
            }
            assert(parts.take(i as int) =~= parts);
            assert(final(out)@ =~= old(out)@ + encoding(j@));
        },
    }
}

pub open spec fn ints(v: Seq<usize>) -> Seq<int> {
    v.map_values(|x: usize| x as int)
}

/// Whether key `a` comes before key `b`.
fn key_less(a: &String, b: &String) -> (r: bool)
    ensures
        r == key_lt(a@, b@),
{
    let la = a.as_str().unicode_len();
    let lb = b.as_str().unicode_len();
    let mut i: usize = 0;
    assert(a@.skip(0) =~= a@ && b@.skip(0) =~= b@);
    while i < la && i < lb
        invariant
            la == a@.len(),
            lb == b@.len(),
            i <= la,
            i <= lb,
            key_lt(a@, b@) == key_lt(a@.skip(i as int), b@.skip(i as int)),
        decreases la - i,
    {
        let ca = a.as_str().get_char(i);
        let cb = b.as_str().get_char(i);
        assert(a@.skip(i as int)[0] == ca && b@.skip(i as int)[0] == cb);
        if ca != cb {
            return ca < cb;
        }
        assert(a@.skip(i as int).drop_first() =~= a@.skip(i + 1));
        assert(b@.skip(i as int).drop_first() =~= b@.skip(i + 1));
        i = i + 1;
    }
    i == la && i < lb
}

proof fn lemma_insert_at(keys: Seq<Seq<char>>, s: Seq<int>, k: int, p: int)
    requires
        0 <= p <= s.len(),
        forall|q: int| 0 <= q < p ==> key_lt(keys[#[trigger] s[q]], keys[k]),
        p < s.len() ==> !key_lt(keys[s[p]], keys[k]),
    ensures
        insert_index(keys, s, k) == s.insert(p, k),
    decreases s.len(),
{
    if p > 0 {
        let t = s.drop_first();
        assert forall|q: int| 0 <= q < p - 1 implies key_lt(keys[#[trigger] t[q]], keys[k]) by {
            assert(t[q] == s[q + 1]);
        }
        lemma_insert_at(keys, t, k, p - 1);
        assert(seq![s[0]] + t.insert(p - 1, k) =~= s.insert(p, k));
    } else {
        assert(seq![k] + s =~= s.insert(0, k));
    }
}

/// The indexes of the entries of `o`, ordered by their keys.
fn entry_order(o: &Vec<(String, Json)>) -> (r: Vec<usize>)
    ensures
        ints(r@) == key_order(keys_of(entries_view(o@)), o.len() as nat),
        r.len() == o.len(),
        forall|x: int| 0 <= x < r.len() ==> #[trigger] r@[x] < o.len(),
{
    let ghost keys = keys_of(entries_view(o@));
    let mut sorted: Vec<usize> = Vec::new();
    let mut k: usize = 0;
    assert(ints(sorted@) =~= key_order(keys, 0));
    while k < o.len()
        invariant
            keys == keys_of(entries_view(o@)),
            keys.len() == o.len(),
            k <= o.len(),
            sorted.len() == k,
            ints(sorted@) == key_order(keys, k as nat),
            forall|x: int| 0 <= x < sorted.len() ==> #[trigger] sorted@[x] < k,
        decreases o.len() - k,
    {
        let mut p: usize = 0;
        while p < sorted.len() && key_less(&o[sorted[p]].0, &o[k].0)
            invariant
                keys == keys_of(entries_view(o@)),
                keys.len() == o.len(),
                k < o.len(),
                p <= sorted.len(),
                forall|x: int| 0 <= x < sorted.len() ==> #[trigger] sorted@[x] < k,
                forall|q: int| 0 <= q < p ==> key_lt(keys[#[trigger] ints(sorted@)[q]], keys[k as int]),
            decreases sorted.len() - p,
        {
            assert(keys[sorted@[p as int] as int] == o@[sorted@[p as int] as int].0@);
            assert(ints(sorted@)[p as int] == sorted@[p as int] as int);
            p = p + 1;
        }
        proof {
            if p < sorted.len() {
                assert(keys[sorted@[p as int] as int] == o@[sorted@[p as int] as int].0@);
                assert(ints(sorted@)[p as int] == sorted@[p as int] as int);
            }
            assert(keys[k as int] == o@[k as int].0@);
            lemma_insert_at(keys, ints(sorted@), k as int, p as int);
        }
        let ghost before = sorted@;
        sorted.insert(p, k);
        assert(ints(sorted@) =~= ints(before).insert(p as int, k as int));
        k = k + 1;
    }
    sorted
}

/// The hash of a document.
pub(crate) fn hash_of(j: &Json) -> (r: u64)
    ensures
        r == json_hash(j@),
{
    let mut w: Vec<u64> = Vec::new();
    encode_into(j, &mut w);
    assert(w@ =~= encoding(j@));
    hash_words(&w)
}

/// The first value stored under `key` in the entries of an object.
pub open spec fn entry_of(o: Seq<(Seq<char>, JsonView)>, key: Seq<char>) -> Option<JsonView>
    decreases o.len(),
{
    if o.len() == 0 {
        None
    } else if o[0].0 == key {
        Some(o[0].1)
    } else {
        entry_of(o.drop_first(), key)
    }
}

/// The value found by walking `path` through nested objects.
pub open spec fn access(v: JsonView, path: Seq<Seq<char>>) -> Option<JsonView>
    decreases path.len(),
{
    if path.len() == 0 {
        Some(v)
    } else {
        match v {
            JsonView::Object(o) => match entry_of(o, path[0]) {
                Some(w) => access(w, path.drop_first()),
                None => None,
            },
            _ => None,
        }
    }
}

/// The entries of an object, as the model sees them.
pub open spec fn entries_view(o: Seq<(String, Json)>) -> Seq<(Seq<char>, JsonView)> {
    o.map_values(|e: (String, Json)| (e.0@, e.1@))
}

/// The first value stored under `key` among `entries`.
pub fn lookup<'a>(entries: &'a Vec<(String, Json)>, key: &String) -> (r: Option<&'a Json>)
    ensures
        match entry_of(entries_view(entries@), key@) {
            Some(w) => r.is_some() && r.unwrap()@ == w,
            None => r.is_none(),
        },
{
    let ghost ov = entries_view(entries@);
    let mut i: usize = 0;
    assert(ov.subrange(0, ov.len() as int) =~= ov);
    while i < entries.len()
        invariant
            ov == entries_view(entries@),
            i <= entries.len(),
            entry_of(ov, key@) == entry_of(ov.subrange(i as int, ov.len() as int), key@),
        decreases entries.len() - i,
    {
        assert(ov.subrange(i as int, ov.len() as int).drop_first() =~= ov.subrange(i + 1, ov.len() as int));
        if entries[i].0 == *key {
            return Some(&entries[i].1);
        }
        i = i + 1;
    }
    None
}

impl Json {
    /// The value stored under `key`, if this is an object that has one.
    pub fn get_field(&self, key: &String) -> (r: Option<&Json>)
        ensures
            match self@ {
                JsonView::Object(o) => match entry_of(o, key@) {
                    Some(w) => r.is_some() && r.unwrap()@ == w,
                    None => r.is_none(),
                },
                _ => r.is_none(),
            },
    {
        match self {
            Json::Object(o) => {
                assert(self@->Object_0 =~= entries_view(o@));
                lookup(o, key)
            },
            _ => None,
        }
    }
}

} // verus!
