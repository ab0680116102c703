use vstd::prelude::*;
use crate::ast::{literal_value, ASTExpression, ASTPrimaryExpression, Expr};
use crate::frame::{all_wf, frames_view, lemma_frames_append, lemma_frames_push, Bindings, Frame};
use crate::json::{access, entries_view, entry_of, lookup, Json, JsonView};
use crate::unify::{is_match_n, unify, values_view};
use crate::value::{loose_text, Value};
use crate::generic_query::{args_view, builtin_of, Arg, Builtin, GenericQueries, QueryError, VarOrValue};
use crate::split_by::{split_by_frames, SplitBy};
use crate::parser::MyParser;
use crate::grammar::parse_text;

verus! {

/// The data a query reads: array-of-record resources by name, and
/// key-to-text translation tables by locale code.
pub struct Catalog {
    pub datasets: Vec<(String, Json)>,
    pub text_maps: Vec<(String, Json)>,
}

/// The frames that matching each candidate tuple in turn gives for frame `f`.
pub open spec fn match_one(f: Bindings, args: Seq<Expr>, cands: Seq<Seq<JsonView>>) -> Seq<Bindings>
    decreases cands.len(),
{
    if cands.len() == 0 {
        Seq::empty()
    } else {
        let before = match_one(f, args, cands.drop_last());
        match unify(f, args, cands.last()) {
            Some(g) => before.push(g),
            None => before,
        }
    }
}

/// For each frame in turn, the frames that matching each candidate gives.
pub open spec fn match_all(frames: Seq<Bindings>, args: Seq<Expr>, cands: Seq<Seq<JsonView>>) -> Seq<Bindings>
    decreases frames.len(),
{
    if frames.len() == 0 {
        Seq::empty()
    } else {
        match_all(frames.drop_last(), args, cands) + match_one(frames.last(), args, cands)
    }
}

/// The records of a resource: the items of an array, nothing otherwise.
pub open spec fn records(d: JsonView) -> Seq<JsonView> {
    match d {
        JsonView::Array(a) => a,
        _ => Seq::empty(),
    }
}

/// Each record alone.
pub open spec fn record_tuples(recs: Seq<JsonView>) -> Seq<Seq<JsonView>> {
    recs.map_values(|r: JsonView| seq![r])
}

/// Each record with the value at `path` in it; records that lack it are left out.
pub open spec fn accessed_tuples(recs: Seq<JsonView>, path: Seq<Seq<char>>) -> Seq<Seq<JsonView>>
    decreases recs.len(),
{
    if recs.len() == 0 {
        Seq::empty()
    } else {
        let before = accessed_tuples(recs.drop_last(), path);
        match access(recs.last(), path) {
            Some(x) => before.push(seq![recs.last(), x]),
            None => before,
        }
    }
}

/// The key and text of each entry whose text is a non-empty string, equal to
/// `want` where one is given.
pub open spec fn text_tuples(e: Seq<(Seq<char>, JsonView)>, want: Option<Seq<char>>) -> Seq<Seq<JsonView>>
    decreases e.len(),
{
    if e.len() == 0 {
        Seq::empty()
    } else {
        let before = text_tuples(e.drop_last(), want);
        let (k, v) = e.last();
        match v {
            JsonView::Str(t) => if t.len() > 0 && (want is None || want == Some(t)) {
                before.push(seq![JsonView::Str(k), JsonView::Str(t)])
            } else {
                before
            },
            _ => before,
        }
    }
}

/// The candidate pairs of a translation lookup with arguments `a0` (key) and
/// `a1` (text): a bound key is looked up, a bound text is searched for, and
/// with both free every entry is a candidate. Empty texts never match.
pub open spec fn translation_tuples(e: Seq<(Seq<char>, JsonView)>, a0: Expr, a1: Expr) -> Seq<Seq<JsonView>> {
    if !(a0 is Var) {
        match literal_value(a0) {
            Some(kv) => match loose_text(kv) {
                Some(k) => match entry_of(e, k) {
                    Some(JsonView::Str(t)) => if t.len() > 0 {
                        seq![seq![JsonView::Str(k), JsonView::Str(t)]]
                    } else {
                        Seq::empty()
                    },
                    _ => Seq::empty(),
                },
                None => Seq::empty(),
            },
            None => Seq::empty(),
        }
    } else if !(a1 is Var) {
        match literal_value(a1) {
            Some(tv) => match loose_text(tv) {
                Some(t) => text_tuples(e, Some(t)),
                None => Seq::empty(),
            },
            None => Seq::empty(),
        }
    } else {
        text_tuples(e, None)
    }
}

pub open spec fn tuples_view(c: Seq<Vec<Value>>) -> Seq<Seq<JsonView>> {
    c.map_values(|t: Vec<Value>| values_view(t@))
}

/// Candidate tuples of `n` well-formed values each.
pub open spec fn tuples_ok(c: Seq<Vec<Value>>, n: nat) -> bool {
    forall|i: int|
        0 <= i < c.len() ==> (#[trigger] c[i]).len() == n && forall|j: int|
            0 <= j < c[i].len() ==> (#[trigger] c[i]@[j]).wf()
}

proof fn lemma_tuples_push(c: Seq<Vec<Value>>, t: Vec<Value>)
    ensures
        tuples_view(c.push(t)) == tuples_view(c).push(values_view(t@)),
{
    assert(tuples_view(c.push(t)) =~= tuples_view(c).push(values_view(t@)));
}

/// Matches every candidate tuple in every frame, frame by frame.
pub fn match_tuples(input: &Vec<Frame>, ast: &ASTPrimaryExpression, cands: &Vec<Vec<Value>>) -> (r: Vec<Frame>)
    requires
        all_wf(input@),
        tuples_ok(cands@, ast.args.len() as nat),
    ensures
        all_wf(r@),
        frames_view(r@) == match_all(frames_view(input@), ast@.1, tuples_view(cands@)),
{
    let ghost fv = frames_view(input@);
    let ghost cv = tuples_view(cands@);
    let mut result: Vec<Frame> = Vec::new();
    let mut i: usize = 0;
    assert(frames_view(result@) =~= match_all(fv.take(0), ast@.1, cv));
    while i < input.len()
        invariant
            fv == frames_view(input@),
            cv == tuples_view(cands@),
            all_wf(input@),
            tuples_ok(cands@, ast.args.len() as nat),
            i <= input.len(),
            all_wf(result@),
            frames_view(result@) == match_all(fv.take(i as int), ast@.1, cv),
        decreases input.len() - i,
    {
        let frame = &input[i];
        let ghost start = frames_view(result@);
        let mut j: usize = 0;
        assert(cv.take(0) =~= Seq::<Seq<JsonView>>::empty());
        assert(start + match_one(frame@, ast@.1, cv.take(0)) =~= start);
        while j < cands.len()
            invariant
                fv == frames_view(input@),
                cv == tuples_view(cands@),
                frame.wf(),
                tuples_ok(cands@, ast.args.len() as nat),
                j <= cands.len(),
                all_wf(result@),
                frames_view(result@) == start + match_one(frame@, ast@.1, cv.take(j as int)),
            decreases cands.len() - j,
        {
            assert(cv.take(j + 1).drop_last() =~= cv.take(j as int));
            assert(cv.take(j + 1).last() == values_view(cands@[j as int]@));
            match is_match_n(frame, ast, &cands[j]) {
                Some(x) => {
                    proof {
                        lemma_frames_push(result@, x);
                    }
                    result.push(x);
                },
                None => {},
            }
            j = j + 1;
        }
        assert(cv.take(j as int) =~= cv);
        assert(fv.take(i + 1).drop_last() =~= fv.take(i as int));
        assert(fv.take(i + 1).last() == frame@);
        i = i + 1;
    }
    assert(fv.take(i as int) =~= fv);
    result
}

pub open spec fn strings_view(v: Seq<String>) -> Seq<Seq<char>> {
    v.map_values(|s: String| s@)
}

/// The value found by walking `accessor` through nested objects from `v`.
pub fn access_serde(v: &Json, accessor: &Vec<String>) -> (r: Option<Value>)
    ensures
        match access(v@, strings_view(accessor@)) {
            Some(x) => r.is_some() && r.unwrap().json@ == x && r.unwrap().wf(),
            None => r.is_none(),
        },
{
    let ghost path = strings_view(accessor@);
    let mut temp = v;
    let mut i: usize = 0;
    assert(path.skip(0) =~= path);
    while i < accessor.len()
        invariant
            path == strings_view(accessor@),
            i <= accessor.len(),
            access(v@, path) == access(temp@, path.skip(i as int)),
        decreases accessor.len() - i,
    {
        assert(path.skip(i as int).drop_first() =~= path.skip(i + 1));
        assert(path.skip(i as int)[0] == accessor@[i as int]@);
        match temp.get_field(&accessor[i]) {
            Some(t) => {
                temp = t;
            },
            None => {
                return None;
            },
        }
        i = i + 1;
    }
    assert(path.skip(i as int).len() == 0);
    Some(Value::from_json(temp.clone()))
}

/// Each record of a resource, alone.
fn record_candidates(d: &Json) -> (r: Vec<Vec<Value>>)
    ensures
        tuples_ok(r@, 1),
        tuples_view(r@) == record_tuples(records(d@)),
{
    let mut out: Vec<Vec<Value>> = Vec::new();
    match d {
        Json::Array(a) => {
            let ghost recs = records(d@);
            let mut i: usize = 0;
            while i < a.len()
                invariant
                    recs == records(d@),
                    recs.len() == a.len(),
                    forall|k: int| 0 <= k < a.len() ==> #[trigger] recs[k] == a@[k]@,
                    i <= a.len(),
                    tuples_ok(out@, 1),
                    tuples_view(out@) == record_tuples(recs.take(i as int)),
                decreases a.len() - i,
            {
                let mut t: Vec<Value> = Vec::new();
                t.push(Value::from_json(a[i].clone()));
                proof {
                    lemma_tuples_push(out@, t);
                    assert(values_view(t@) =~= seq![recs[i as int]]);
                    assert(record_tuples(recs.take(i + 1)) =~= record_tuples(recs.take(i as int)).push(
                        seq![recs[i as int]],
                    ));
                }
                out.push(t);
                i = i + 1;
            }
            assert(recs.take(i as int) =~= recs);
        },
        _ => {
            assert(tuples_view(out@) =~= record_tuples(records(d@)));
        },
    }
    out
}

/// Each record of a resource with the value at `accessor` in it.
fn accessed_candidates(d: &Json, accessor: &Vec<String>) -> (r: Vec<Vec<Value>>)
    ensures
        tuples_ok(r@, 2),
        tuples_view(r@) == accessed_tuples(records(d@), strings_view(accessor@)),
{
    let ghost path = strings_view(accessor@);
    let mut out: Vec<Vec<Value>> = Vec::new();
    match d {
        Json::Array(a) => {
            let ghost recs = records(d@);
            let mut i: usize = 0;
            assert(recs.take(0).len() == 0);
            while i < a.len()
                invariant
                    path == strings_view(accessor@),
                    recs == records(d@),
                    recs.len() == a.len(),
                    forall|k: int| 0 <= k < a.len() ==> #[trigger] recs[k] == a@[k]@,
                    i <= a.len(),
                    tuples_ok(out@, 2),
                    tuples_view(out@) == accessed_tuples(recs.take(i as int), path),
                decreases a.len() - i,
            {
                assert(recs.take(i + 1).drop_last() =~= recs.take(i as int));
                assert(recs.take(i + 1).last() == a@[i as int]@);
                match access_serde(&a[i], accessor) {
                    Some(x) => {
                        let mut t: Vec<Value> = Vec::new();
                        t.push(Value::from_json(a[i].clone()));
                        t.push(x);
                        proof {
                            lemma_tuples_push(out@, t);
                            assert(values_view(t@) =~= seq![recs[i as int], t@[1].json@]);
                        }
                        out.push(t);
                    },
                    None => {},
                }
                i = i + 1;
            }
            assert(recs.take(i as int) =~= recs);
        },
        _ => {
            assert(tuples_view(out@) =~= accessed_tuples(records(d@), path));
        },
    }
    out
}

/// The key and text of each entry of `e` whose text is a non-empty string,
/// equal to `want` where one is given.
fn text_candidates(e: &Vec<(String, Json)>, want: &Option<String>) -> (r: Vec<Vec<Value>>)
    ensures
        tuples_ok(r@, 2),
        tuples_view(r@) == text_tuples(
            entries_view(e@),
            match want {
                Some(w) => Some(w@),
                None => None,
            },
        ),
{
    let ghost ev = entries_view(e@);
    let ghost wv = match want {
        Some(w) => Some(w@),
        None => None::<Seq<char>>,
    };
    let mut out: Vec<Vec<Value>> = Vec::new();
    let mut i: usize = 0;
    assert(ev.take(0).len() == 0);
    while i < e.len()
        invariant
            ev == entries_view(e@),
            wv == match want {
                Some(w) => Some(w@),
                None => None::<Seq<char>>,
            },
            i <= e.len(),
            tuples_ok(out@, 2),
            tuples_view(out@) == text_tuples(ev.take(i as int), wv),
        decreases e.len() - i,
    {
        assert(ev.take(i + 1).drop_last() =~= ev.take(i as int));
        assert(ev.take(i + 1).last() == (e@[i as int].0@, e@[i as int].1@));
        let entry = &e[i];
        match &entry.1 {
            Json::Str(t) => {
                let wanted = match want {
                    Some(w) => *w == *t,
                    None => true,
                };
                if t.as_str().unicode_len() > 0 && wanted {
                    let mut tup: Vec<Value> = Vec::new();
                    tup.push(Value::from_string(entry.0.as_str()));
                    tup.push(Value::from_string(t.as_str()));
                    proof {
                        lemma_tuples_push(out@, tup);
                        assert(values_view(tup@) =~= seq![JsonView::Str(entry.0@), JsonView::Str(t@)]);
                    }
                    out.push(tup);
                }
            },
            _ => {},
        }
        i = i + 1;
    }
    assert(ev.take(i as int) =~= ev);
    out
}

/// The candidate pairs of a translation lookup with key argument `a0` and
/// text argument `a1` in table `e`.
fn translation_candidates(e: &Vec<(String, Json)>, a0: &ASTExpression, a1: &ASTExpression) -> (r: Vec<Vec<Value>>)
    ensures
        tuples_ok(r@, 2),
        tuples_view(r@) == translation_tuples(entries_view(e@), a0@, a1@),
{
    let mut out: Vec<Vec<Value>> = Vec::new();
    if !a0.is_var() {
        match a0.as_loose_string() {
            Some(key) => match lookup(e, &key) {
                Some(Json::Str(t)) => {
                    if t.as_str().unicode_len() > 0 {
                        let mut tup: Vec<Value> = Vec::new();
                        tup.push(Value::from_string(key.as_str()));
                        tup.push(Value::from_string(t.as_str()));
                        proof {
                            lemma_tuples_push(out@, tup);
                            assert(values_view(tup@) =~= seq![JsonView::Str(key@), JsonView::Str(t@)]);
                        }
                        out.push(tup);
                    }
                },
                _ => {},
            },
            None => {},
        }
        assert(tuples_view(out@) =~= translation_tuples(entries_view(e@), a0@, a1@));
        out
    } else if !a1.is_var() {
        match a1.as_loose_string() {
            Some(text) => text_candidates(e, &Some(text)),
            None => {
                assert(tuples_view(out@) =~= translation_tuples(entries_view(e@), a0@, a1@));
                out
            },
        }
    } else {
        text_candidates(e, &None)
    }
}

/// The locale codes that name translation tables.
pub open spec fn locale_codes() -> Seq<Seq<char>> {
    seq![
        "CHS"@, "CHT"@, "DE"@, "EN"@, "ES"@, "FR"@, "ID"@, "JP"@, "KR"@, "PT"@, "RU"@, "TH"@, "VI"@,
    ]
}

/// A built-in's view of a call argument: a variable is free, a literal bound.
pub open spec fn builtin_arg(e: Expr) -> Arg {
    match e {
        Expr::Var(n) => Arg::Free(n),
        _ => match literal_value(e) {
            Some(v) => Arg::Bound(v),
            None => Arg::Bound(JsonView::Null),
        },
    }
}

/// The mathematical value of a catalog: resources and tables by name.
pub struct CatalogView {
    pub datasets: Seq<(Seq<char>, JsonView)>,
    pub text_maps: Seq<(Seq<char>, JsonView)>,
}

impl View for Catalog {
    type V = CatalogView;

    open spec fn view(&self) -> CatalogView {
        CatalogView { datasets: entries_view(self.datasets@), text_maps: entries_view(self.text_maps@) }
    }
}

/// What a translation lookup gives.
pub open spec fn translation_result(cat: CatalogView, path: Seq<Seq<char>>, args: Seq<Expr>, frames: Seq<Bindings>) -> Seq<
    Bindings,
> {
    match entry_of(cat.text_maps, path[0]) {
        Some(JsonView::Object(e)) => if args.len() == 2 {
            match_all(frames, args, translation_tuples(e, args[0], args[1]))
        } else {
            Seq::empty()
        },
        _ => Seq::empty(),
    }
}

/// What a lookup of whole records gives.
pub open spec fn record_result(cat: CatalogView, path: Seq<Seq<char>>, args: Seq<Expr>, frames: Seq<Bindings>) -> Seq<
    Bindings,
> {
    match entry_of(cat.datasets, path[0]) {
        Some(d) => if args.len() == 1 {
            match_all(frames, args, record_tuples(records(d)))
        } else {
            Seq::empty()
        },
        None => Seq::empty(),
    }
}

/// What a lookup of records with a field path gives.
pub open spec fn field_result(cat: CatalogView, path: Seq<Seq<char>>, args: Seq<Expr>, frames: Seq<Bindings>) -> Seq<
    Bindings,
> {
    match entry_of(cat.datasets, path[0]) {
        Some(d) => if args.len() == 2 {
            match_all(frames, args, accessed_tuples(records(d), path.drop_first()))
        } else {
            Seq::empty()
        },
        None => Seq::empty(),
    }
}

/// What a built-in gives.
pub open spec fn builtin_result(reg: Seq<(Seq<char>, Builtin)>, path: Seq<Seq<char>>, args: Seq<Expr>, frames: Seq<Bindings>) -> Result<
    Seq<Bindings>,
    QueryError,
> {
    match builtin_of(reg, path[0]) {
        Some(Builtin::SplitBy) => split_by_frames(frames, args.map_values(|e: Expr| builtin_arg(e))),
        None => Ok(Seq::empty()),
    }
}

/// What a predicate call gives: a locale code reads its translation table
/// only; any other name gives what the record lookups and the built-ins
/// give, in that order.
pub open spec fn primary_result(
    cat: CatalogView,
    reg: Seq<(Seq<char>, Builtin)>,
    path: Seq<Seq<char>>,
    args: Seq<Expr>,
    frames: Seq<Bindings>,
) -> Result<Seq<Bindings>, QueryError> {
    if path.len() == 0 {
        Ok(Seq::empty())
    } else if locale_codes().contains(path[0]) {
        Ok(translation_result(cat, path, args, frames))
    } else {
        match builtin_result(reg, path, args, frames) {
            Ok(s) => Ok(record_result(cat, path, args, frames) + field_result(cat, path, args, frames) + s),
            Err(e) => Err(e),
        }
    }
}

/// The frames a query node gives for the input frames. A conjunction feeds
/// what its left side gives to its right side; a disjunction puts what its
/// right side gives after what its left side gives, each from the input.
pub open spec fn evaluate(cat: CatalogView, reg: Seq<(Seq<char>, Builtin)>, e: Expr, frames: Seq<Bindings>) -> Result<
    Seq<Bindings>,
    QueryError,
>
    decreases e,
{
    match e {
        Expr::And(l, r) => match evaluate(cat, reg, *l, frames) {
            Err(x) => Err(x),
            Ok(s) => if s.len() == 0 {
                Ok(Seq::empty())
            } else {
                evaluate(cat, reg, *r, s)
            },
        },
        Expr::Or(l, r) => match evaluate(cat, reg, *l, frames) {
            Err(x) => Err(x),
            Ok(a) => match evaluate(cat, reg, *r, frames) {
                Err(x) => Err(x),
                Ok(b) => Ok(a + b),
            },
        },
        Expr::Primary(path, args) => primary_result(cat, reg, path, args, frames),
        _ => Ok(Seq::empty()),
    }
}

/// The result of an evaluation, as frames.
pub open spec fn outcome_is(r: Result<Vec<Frame>, QueryError>, s: Result<Seq<Bindings>, QueryError>) -> bool {
    match s {
        Ok(v) => r is Ok && all_wf(r->Ok_0@) && frames_view(r->Ok_0@) == v,
        Err(e) => r == Err::<Vec<Frame>, QueryError>(e),
    }
}

/// Whether `name` is the code of a locale with a translation table.
pub fn is_locale(name: &String) -> (r: bool)
    ensures
        r == locale_codes().contains(name@),
{
    let codes: Vec<&str> = vec!["CHS", "CHT", "DE", "EN", "ES", "FR", "ID", "JP", "KR", "PT", "RU", "TH", "VI"];
    let ghost cv = codes@.map_values(|c: &str| c@);
    assert(cv =~= locale_codes());
    let mut i: usize = 0;
    while i < codes.len()
        invariant
            cv == codes@.map_values(|c: &str| c@),
            cv == locale_codes(),
            i <= codes.len(),
            forall|k: int| 0 <= k < i ==> cv[k] != name@,
        decreases codes.len() - i,
    {
        if codes[i].to_owned() == *name {
            assert(cv[i as int] == name@);
            return true;
        }
        i = i + 1;
    }
    false
}

/// A query interpreter over a catalog of data, with a table of built-ins.
pub struct QueryProgram {
    pub generic_query: GenericQueries,
    pub catalog: Catalog,
}

impl QueryProgram {
    /// Evaluates a node against the input frames.
    pub fn query_internal(&self, input: &Vec<Frame>, ast: &ASTExpression) -> (r: Result<Vec<Frame>, QueryError>)
        requires
            all_wf(input@),
        ensures
            outcome_is(r, evaluate(self.catalog@, self.generic_query.table(), ast@, frames_view(input@))),
        decreases ast,
    {
        match ast {
            ASTExpression::PrimaryExpression(p) => {
                assert(ast@ == Expr::Primary(p@.0, p@.1)) by {
                    assert(ast@->Primary_1 =~= p@.1);
                }
                if p.predicate.len() == 0 {
                    let out: Vec<Frame> = Vec::new();
                    assert(frames_view(out@) =~= Seq::<Bindings>::empty());
                    return Ok(out);
                }
                if is_locale(&p.predicate[0]) {
                    Ok(self.query_locale(input, p))
                } else {
                    self.query_simple(input, p)
                }
            },
            ASTExpression::AndExpression(a) => {
                match self.query_internal(input, &a.left) {
                    Err(e) => Err(e),
                    Ok(r1) => {
                        if r1.len() == 0 {
                            assert(frames_view(r1@) =~= Seq::<Bindings>::empty());
                            Ok(r1)
                        } else {
                            self.query_internal(&r1, &a.right)
                        }
                    },
                }
            },
            ASTExpression::OrExpression(a) => {
                match self.query_internal(input, &a.left) {
                    Err(e) => Err(e),
                    Ok(mut r1) => match self.query_internal(input, &a.right) {
                        Err(e) => Err(e),
                        Ok(mut r2) => {
                            proof {
                                lemma_frames_append(r1@, r2@);
                            }
                            r1.append(&mut r2);
                            Ok(r1)
                        },
                    },
                }
            },
            _ => {
                let out: Vec<Frame> = Vec::new();
                assert(frames_view(out@) =~= Seq::<Bindings>::empty());
                Ok(out)
            },
        }
    }

    /// Evaluates a parsed query, starting from one empty frame.
    pub fn query_ast(&self, ast: &ASTExpression) -> (r: Result<Vec<Frame>, QueryError>)
        ensures
            outcome_is(
                r,
                evaluate(self.catalog@, self.generic_query.table(), ast@, seq![Map::<Seq<char>, JsonView>::empty()]),
            ),
    {
        let mut input: Vec<Frame> = Vec::new();
        let f = Frame::new();
        input.push(f);
        assert(frames_view(input@) =~= seq![Map::<Seq<char>, JsonView>::empty()]);
        self.query_internal(&input, ast)
    }

    /// Parses and evaluates query text. Text that does not parse gives no
    /// frames.
    pub fn query(&self, q: &str) -> (r: Result<Vec<Frame>, QueryError>)
        ensures
            match parse_text(q@) {
                Some(e) => outcome_is(
                    r,
                    evaluate(self.catalog@, self.generic_query.table(), e, seq![Map::<Seq<char>, JsonView>::empty()]),
                ),
                None => outcome_is(r, Ok(Seq::empty())),
            },
    {
        match MyParser::parsestring_expression(q) {
            Some(ast) => self.query_ast(&ast),
            None => {
                let out: Vec<Frame> = Vec::new();
                assert(frames_view(out@) =~= Seq::<Bindings>::empty());
                Ok(out)
            },
        }
    }

    /// The translation lookup: table `predicate[0]`, arguments key and text.
    pub fn query_locale(&self, input: &Vec<Frame>, ast: &ASTPrimaryExpression) -> (r: Vec<Frame>)
        requires
            all_wf(input@),
            ast.predicate.len() > 0,
        ensures
            all_wf(r@),
            frames_view(r@) == translation_result(self.catalog@, ast@.0, ast@.1, frames_view(input@)),
    {
        match lookup(&self.catalog.text_maps, &ast.predicate[0]) {
            Some(Json::Object(e)) => {
                if ast.args.len() != 2 {
                    let out: Vec<Frame> = Vec::new();
                    assert(frames_view(out@) =~= Seq::<Bindings>::empty());
                    return out;
                }
                let cands = translation_candidates(e, &ast.args[0], &ast.args[1]);
                proof {
                    let m = entry_of(self.catalog@.text_maps, ast@.0[0]);
                    assert(m->0->Object_0 =~= entries_view(e@));
                }
                match_tuples(input, ast, &cands)
            },
            _ => {
                let out: Vec<Frame> = Vec::new();
                assert(frames_view(out@) =~= Seq::<Bindings>::empty());
                out
            },
        }
    }

    /// Binds the single argument to each record of resource `predicate[0]`.
    pub fn query_file_data_1(&self, input: &Vec<Frame>, ast: &ASTPrimaryExpression) -> (r: Vec<Frame>)
        requires
            all_wf(input@),
            ast.predicate.len() > 0,
        ensures
            all_wf(r@),
            frames_view(r@) == record_result(self.catalog@, ast@.0, ast@.1, frames_view(input@)),
    {
        match lookup(&self.catalog.datasets, &ast.predicate[0]) {
            Some(d) => {
                if ast.args.len() != 1 {
                    let out: Vec<Frame> = Vec::new();
                    assert(frames_view(out@) =~= Seq::<Bindings>::empty());
                    return out;
                }
                let cands = record_candidates(d);
                match_tuples(input, ast, &cands)
            },
            None => {
                let out: Vec<Frame> = Vec::new();
                assert(frames_view(out@) =~= Seq::<Bindings>::empty());
                out
            },
        }
    }

    /// Binds the first argument to each record of resource `predicate[0]`
    /// and the second to the value at the rest of the path in it.
    pub fn query_file_data_other(&self, input: &Vec<Frame>, ast: &ASTPrimaryExpression) -> (r: Vec<Frame>)
        requires
            all_wf(input@),
            ast.predicate.len() > 0,
        ensures
            all_wf(r@),
            frames_view(r@) == field_result(self.catalog@, ast@.0, ast@.1, frames_view(input@)),
    {
        match lookup(&self.catalog.datasets, &ast.predicate[0]) {
            Some(d) => {
                if ast.args.len() != 2 {
                    let out: Vec<Frame> = Vec::new();
                    assert(frames_view(out@) =~= Seq::<Bindings>::empty());
                    return out;
                }
                let mut accessor: Vec<String> = Vec::new();
                let mut i: usize = 1;
                while i < ast.predicate.len()
                    invariant
                        1 <= i <= ast.predicate.len(),
                        ast@.0.len() == ast.predicate.len(),
                        strings_view(accessor@) == ast@.0.subrange(1, i as int),
                    decreases ast.predicate.len() - i,
                {
                    let seg = ast.predicate[i].clone();
                    assert(ast@.0[i as int] == seg@);
                    let ghost before = accessor@;
                    accessor.push(seg);
                    assert(strings_view(accessor@) =~= strings_view(before).push(seg@));
                    assert(ast@.0.subrange(1, i + 1) =~= ast@.0.subrange(1, i as int).push(seg@));
                    i = i + 1;
                }
                assert(ast@.0.subrange(1, i as int) =~= ast@.0.drop_first());
                let cands = accessed_candidates(d, &accessor);
                match_tuples(input, ast, &cands)
            },
            None => {
                let out: Vec<Frame> = Vec::new();
                assert(frames_view(out@) =~= Seq::<Bindings>::empty());
                out
            },
        }
    }

    /// Runs the built-in registered under `predicate[0]`, if there is one.
    pub fn query_global_function(&self, input: &Vec<Frame>, ast: &ASTPrimaryExpression) -> (r: Result<Vec<Frame>, QueryError>)
        requires
            all_wf(input@),
            ast.predicate.len() > 0,
        ensures
            outcome_is(r, builtin_result(self.generic_query.table(), ast@.0, ast@.1, frames_view(input@))),
    {
        match self.generic_query.get(ast.predicate[0].as_str()) {
            Some(Builtin::SplitBy) => {
                let mut args: Vec<VarOrValue> = Vec::new();
                let mut i: usize = 0;
                while i < ast.args.len()
                    invariant
                        i <= ast.args.len(),
                        args.len() == i,
                        forall|k: int| 0 <= k < i ==> (#[trigger] args@[k]).wf() && args@[k]@ == builtin_arg(ast@.1[k]),
                    decreases ast.args.len() - i,
                {
                    let arg = &ast.args[i];
                    assert(ast@.1[i as int] == arg@);
                    match arg.get_var_name() {
                        Some(name) => args.push(VarOrValue::Var(name)),
                        None => match arg.try_to_value() {
                            Some(v) => args.push(VarOrValue::Value(v)),
                            None => args.push(VarOrValue::Value(Value::from_json(Json::Null))),
                        },
                    }
                    i = i + 1;
                }
                assert(args_view(args@) =~= ast@.1.map_values(|e: Expr| builtin_arg(e)));
                SplitBy.query(input, &args)
            },
            None => {
                let out: Vec<Frame> = Vec::new();
                assert(frames_view(out@) =~= Seq::<Bindings>::empty());
                Ok(out)
            },
        }
    }

    /// A call that names no locale: the record lookups, then the built-ins.
    pub fn query_simple(&self, input: &Vec<Frame>, ast: &ASTPrimaryExpression) -> (r: Result<Vec<Frame>, QueryError>)
        requires
            all_wf(input@),
            ast.predicate.len() > 0,
        ensures
            outcome_is(
                r,
                match builtin_result(self.generic_query.table(), ast@.0, ast@.1, frames_view(input@)) {
                    Ok(s) => Ok(
                        record_result(self.catalog@, ast@.0, ast@.1, frames_view(input@)) + field_result(
                            self.catalog@,
                            ast@.0,
                            ast@.1,
                            frames_view(input@),
                        ) + s,
                    ),
                    Err(e) => Err(e),
                },
            ),
    {
        let mut result = self.query_file_data_1(input, ast);
        let mut x = self.query_file_data_other(input, ast);
        proof {
            lemma_frames_append(result@, x@);
        }
        result.append(&mut x);
        match self.query_global_function(input, ast) {
            Ok(mut y) => {
                proof {
                    lemma_frames_append(result@, y@);
                }
                result.append(&mut y);
                Ok(result)
            },
            Err(e) => Err(e),
        }
    }
}


/// No input frame, no output frame.
pub proof fn lemma_evaluate_no_frames(cat: CatalogView, reg: Seq<(Seq<char>, Builtin)>, e: Expr)
    ensures
        evaluate(cat, reg, e, Seq::empty()) == Ok::<Seq<Bindings>, QueryError>(Seq::empty()),
    decreases e,
{
    let none = Seq::<Bindings>::empty();
    match e {
        Expr::And(l, r) => {
            lemma_evaluate_no_frames(cat, reg, *l);
        },
        Expr::Or(l, r) => {
            lemma_evaluate_no_frames(cat, reg, *l);
            lemma_evaluate_no_frames(cat, reg, *r);
            assert(none + none =~= none);
        },
        Expr::Primary(path, args) => {
            if path.len() > 0 {
                assert(match_all(none, args, seq![]) == none);
                let builtin_args = args.map_values(|x: Expr| builtin_arg(x));
                assert(split_by_frames(none, builtin_args) == Ok::<Seq<Bindings>, QueryError>(none));
                assert(record_result(cat, path, args, none) =~= none);
                assert(field_result(cat, path, args, none) =~= none);
                assert(translation_result(cat, path, args, none) =~= none);
                assert(none + none + none =~= none);
            }
        },
        _ => {},
    }
}

/// A conjunction evaluates its right side on what its left side gives.
pub proof fn lemma_and_composition(
    cat: CatalogView,
    reg: Seq<(Seq<char>, Builtin)>,
    l: Expr,
    r: Expr,
    frames: Seq<Bindings>,
)
    ensures
        evaluate(cat, reg, Expr::And(Box::new(l), Box::new(r)), frames) == match evaluate(cat, reg, l, frames) {
            Ok(s) => evaluate(cat, reg, r, s),
            Err(e) => Err(e),
        },
{
    lemma_evaluate_no_frames(cat, reg, r);
    match evaluate(cat, reg, l, frames) {
        Ok(s) => {
            if s.len() == 0 {
                assert(s =~= Seq::<Bindings>::empty());
            }
        },
        Err(_) => {},
    }
}

/// A disjunction gives what its left side gives, then what its right side
/// gives, both from the same input; it gives nothing only where both give
/// nothing.
pub proof fn lemma_or_composition(
    cat: CatalogView,
    reg: Seq<(Seq<char>, Builtin)>,
    l: Expr,
    r: Expr,
    frames: Seq<Bindings>,
)
    ensures
        match (evaluate(cat, reg, l, frames), evaluate(cat, reg, r, frames)) {
            (Ok(a), Ok(b)) => {
                &&& evaluate(cat, reg, Expr::Or(Box::new(l), Box::new(r)), frames) == Ok::<
                    Seq<Bindings>,
                    QueryError,
                >(a + b)
                &&& ((a + b).len() == 0 <==> (a.len() == 0 && b.len() == 0))
            },
            (Err(e), _) => evaluate(cat, reg, Expr::Or(Box::new(l), Box::new(r)), frames) == Err::<
                Seq<Bindings>,
                QueryError,
            >(e),
            (Ok(_), Err(e)) => evaluate(cat, reg, Expr::Or(Box::new(l), Box::new(r)), frames) == Err::<
                Seq<Bindings>,
                QueryError,
            >(e),
        },
{
}

} // verus!
