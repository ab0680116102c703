use vstd::prelude::*;
use crate::json::{decimal, digits, hash_of, int_text, json_hash, Json, JsonView, Num};

verus! {

/// `s` without the `0`s at its end.
pub open spec fn trim_zeros(s: Seq<char>) -> Seq<char>
    decreases s.len(),
{
    if s.len() > 0 && s.last() == '0' {
        trim_zeros(s.drop_last())
    } else {
        s
    }
}

/// The decimal text of `m` millionths: sign, integer part, `.`, and the
/// six fraction digits without the `0`s at their end.
pub open spec fn micro_text(m: i64) -> Seq<char> {
    let a = (if m < 0 {
        -(m as int)
    } else {
        m as int
    }) as nat;
    (if m < 0 {
        seq!['-']
    } else {
        Seq::empty()
    }) + digits(a / 1_000_000) + seq!['.'] + trim_zeros(digits(a % 1_000_000 + 1_000_000).drop_first())
}

/// The text of a value where one is meant: a string as it is, a number in
/// decimal.
pub open spec fn loose_text(v: JsonView) -> Option<Seq<char>> {
    match v {
        JsonView::Str(s) => Some(s),
        JsonView::Number(Num::Int(i)) => Some(decimal(i as int)),
        JsonView::Number(Num::Micro(m)) => Some(micro_text(m)),
        _ => None,
    }
}

proof fn lemma_digits_nonempty(n: nat)
    ensures
        digits(n).len() >= 1,
    decreases n,
{
    if n >= 10 {
        lemma_digits_nonempty(n / 10);
    }
}

/// The decimal text of `m` millionths.
fn micro_string(m: i64) -> (r: String)
    ensures
        r@ == micro_text(m),
{
    let a: u64 = if m < 0 {
        ((-(m + 1)) as u64) + 1
    } else {
        m as u64
    };
    let whole = int_text((a / 1_000_000) as i64);
    let padded = int_text((a % 1_000_000 + 1_000_000) as i64);
    let n = padded.as_str().unicode_len();
    proof {
        lemma_digits_nonempty((a % 1_000_000 + 1_000_000) as nat);
    }
    let fraction = padded.as_str().substring_char(1, n);
    let mut k = n - 1;
    assert(fraction@.take(k as int) =~= fraction@);
    while k > 0 && fraction.get_char(k - 1) == '0'
        invariant
            k <= fraction@.len(),
            trim_zeros(fraction@) == trim_zeros(fraction@.take(k as int)),
        decreases k,
    {
        assert(fraction@.take(k as int).drop_last() =~= fraction@.take(k - 1));
        k = k - 1;
    }
    let kept = fraction.substring_char(0, k);
    proof {
        reveal_strlit("-");
        reveal_strlit(".");
        reveal_strlit("");
        if k == 0 {
            assert(fraction@.take(0) =~= Seq::<char>::empty());
        }
        assert(kept@ == trim_zeros(fraction@));
    }
    let sign = if m < 0 {
        "-"
    } else {
        ""
    };
    let r = sign.to_owned().concat(whole.as_str()).concat(".").concat(kept);
    assert(r@ =~= micro_text(m));
    r
}

/// A JSON value together with its hash, which stands in for equality.
#[derive(Debug)]
pub struct Value {
    pub json: Json,
    pub hash: u64,
}

impl Value {
    /// The hash is the one of the document held.
    pub open spec fn wf(&self) -> bool {
        self.hash == json_hash(self.json@)
    }

    pub fn from_json(json: Json) -> (r: Value)
        ensures
            r.wf(),
            r.json@ == json@,
    {
        let hash = hash_of(&json);
        Value { json, hash }
    }

    pub fn from_number(n: Num) -> (r: Value)
        ensures
            r.wf(),
            r.json@ == JsonView::Number(n),
    {
        Value::from_json(Json::Number(n))
    }

    pub fn from_string(s: &str) -> (r: Value)
        ensures
            r.wf(),
            r.json@ == JsonView::Str(s@),
    {
        Value::from_json(Json::Str(s.to_owned()))
    }

    pub fn get_json(&self) -> (r: &Json)
        ensures
            r@ == self.json@,
    {
        &self.json
    }

    pub fn as_string(&self) -> (r: Option<&String>)
        ensures
            match self.json@ {
                JsonView::Str(s) => r.is_some() && r.unwrap()@ == s,
                _ => r.is_none(),
            },
    {
        match &self.json {
            Json::Str(s) => Some(s),
            _ => None,
        }
    }

    pub fn as_loose_string(&self) -> (r: Option<String>)
        ensures
            match loose_text(self.json@) {
                Some(t) => r.is_some() && r.unwrap()@ == t,
                None => r.is_none(),
            },
    {
        match &self.json {
            Json::Str(s) => Some(s.clone()),
            Json::Number(Num::Int(i)) => Some(int_text(*i)),
            Json::Number(Num::Micro(m)) => Some(micro_string(*m)),
            _ => None,
        }
    }
}

impl Clone for Value {
    fn clone(&self) -> (r: Value)
        ensures
            r.json@ == self.json@,
            r.hash == self.hash,
    {
        Value { json: self.json.clone(), hash: self.hash }
    }
}

} // verus!
