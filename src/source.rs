use vstd::prelude::*;
use crate::ast::{ASTExpression, Expr};
use crate::json::{entry_of, Json, JsonView};

verus! {

/// Where the records of resource `name` are kept.
pub fn dataset_path(name: &str) -> (r: String)
    ensures
        r@ == "ExcelBinOutput/"@ + name@ + ".json"@,
{
    "ExcelBinOutput/".to_owned().concat(name).concat(".json")
}

/// Where the translation table of `locale` is kept.
pub fn text_map_path(locale: &str) -> (r: String)
    ensures
        r@ == "TextMap/TextMap"@ + locale@ + ".json"@,
{
    "TextMap/TextMap".to_owned().concat(locale).concat(".json")
}

/// The names that the calls of a query start with, left to right.
pub open spec fn called_names(e: Expr) -> Seq<Seq<char>>
    decreases e,
{
    match e {
        Expr::Primary(path, _) => if path.len() > 0 {
            seq![path[0]]
        } else {
            Seq::empty()
        },
        Expr::And(l, r) => called_names(*l) + called_names(*r),
        Expr::Or(l, r) => called_names(*l) + called_names(*r),
        _ => Seq::empty(),
    }
}

/// Appends the names that the calls of `ast` start with: the resources and
/// tables that evaluating it may read.
pub fn called_resources(ast: &ASTExpression, out: &mut Vec<String>)
    ensures
        final(out)@.map_values(|s: String| s@) == old(out)@.map_values(|s: String| s@) + called_names(ast@),
    decreases ast,
{
    let ghost before = out@.map_values(|s: String| s@);
    match ast {
        ASTExpression::PrimaryExpression(p) => {
            assert(ast@ == Expr::Primary(p@.0, p@.1)) by {
                assert(ast@->Primary_1 =~= p@.1);
            }
            if p.predicate.len() > 0 {
                out.push(p.predicate[0].clone());
                assert(out@.map_values(|s: String| s@) =~= before + called_names(ast@));
            } else {
                assert(before + called_names(ast@) =~= before);
            }
        },
        ASTExpression::AndExpression(a) => {
            called_resources(&a.left, out);
            called_resources(&a.right, out);
            assert(out@.map_values(|s: String| s@) =~= before + called_names(ast@));
        },
        ASTExpression::OrExpression(a) => {
            called_resources(&a.left, out);
            called_resources(&a.right, out);
            assert(out@.map_values(|s: String| s@) =~= before + called_names(ast@));
        },
        _ => {
            assert(before + called_names(ast@) =~= before);
        },
    }
}

/// Whether every value of an object's entries is a string.
pub open spec fn all_texts(o: Seq<(Seq<char>, JsonView)>) -> bool {
    forall|i: int| 0 <= i < o.len() ==> (#[trigger] o[i]).1 is Str
}

/// An entry whose value is not the empty string.
pub open spec fn keeps_entry(e: (Seq<char>, JsonView)) -> bool {
    !(e.1 is Str && e.1->Str_0.len() == 0)
}

/// The entries whose text is not empty.
pub open spec fn non_empty_texts(o: Seq<(Seq<char>, JsonView)>) -> Seq<(Seq<char>, JsonView)> {
    o.filter(|e: (Seq<char>, JsonView)| keeps_entry(e))
}

/// A table read from the data: an object whose values are all strings loses
/// the entries whose string is empty; anything else is kept as it is.
pub fn prune_empty_texts(j: Json) -> (r: Json)
    ensures
        match j@ {
            JsonView::Object(o) => if all_texts(o) {
                r@ == JsonView::Object(non_empty_texts(o))
            } else {
                r@ == j@
            },
            _ => r@ == j@,
        },
{
    match j {
        Json::Object(o) => {
            let ghost ov = j@->Object_0;
            let mut kept: Vec<(String, Json)> = Vec::new();
            let mut i: usize = 0;
            let mut texts = true;
            assert(ov.take(0) =~= Seq::<(Seq<char>, JsonView)>::empty());
            assert(non_empty_texts(ov.take(0)) =~= Seq::<(Seq<char>, JsonView)>::empty());
            while i < o.len()
                invariant
                    ov.len() == o.len(),
                    forall|k: int| 0 <= k < o.len() ==> #[trigger] ov[k] == (o@[k].0@, o@[k].1@),
                    i <= o.len(),
                    texts == (forall|k: int| 0 <= k < i ==> (#[trigger] ov[k]).1 is Str),
                    texts ==> kept@.map_values(|e: (String, Json)| (e.0@, e.1@)) == non_empty_texts(ov.take(i as int)),
                decreases o.len() - i,
            {
                assert(ov.take(i + 1).drop_last() =~= ov.take(i as int));
                let entry = &o[i];
                assert(ov[i as int] == (entry.0@, entry.1@));
                match &entry.1 {
                    Json::Str(t) => {
                        if t.as_str().unicode_len() > 0 {
                            let ghost before = kept@;
                            kept.push((entry.0.clone(), entry.1.clone()));
                            assert(kept@.map_values(|e: (String, Json)| (e.0@, e.1@)) =~= before.map_values(
                                |e: (String, Json)| (e.0@, e.1@),
                            ).push(ov[i as int]));
                        }
                    },
                    _ => {
                        texts = false;
                    },
                }
                proof {
                    assert(texts == (forall|k: int| 0 <= k < i + 1 ==> (#[trigger] ov[k]).1 is Str)) by {
                        if texts {
                            assert forall|k: int| 0 <= k < i + 1 implies (#[trigger] ov[k]).1 is Str by {
                                if k < i {
                                    assert(ov[k].1 is Str);
                                }
                            }
                        }
                    }
                    if texts {
                        assert(ov.take(i + 1) =~= ov.take(i as int).push(ov[i as int]));
                        ov.take(i as int).lemma_filter_push(ov[i as int], |e: (Seq<char>, JsonView)| keeps_entry(e));
                    }
                }
                i = i + 1;
            }
            if texts {
                assert(ov.take(i as int) =~= ov);
                let r = Json::Object(kept);
                assert(r@->Object_0 =~= kept@.map_values(|e: (String, Json)| (e.0@, e.1@)));
                r
            } else {
                Json::Object(o)
            }
        },
        _ => j,
    }
}

/// Files served over HTTP under a URL prefix, kept without a trailing `/`.
pub struct HttpFileSystem {
    pub prefix: String,
}

impl HttpFileSystem {
    pub fn new(prefix: &str) -> (r: HttpFileSystem)
        ensures
            r.prefix@ == if prefix@.len() > 0 && prefix@.last() == '/' {
                prefix@.drop_last()
            } else {
                prefix@
            },
    {
        let n = prefix.unicode_len();
        if n > 0 && prefix.get_char(n - 1) == '/' {
            HttpFileSystem { prefix: prefix.substring_char(0, n - 1).to_owned() }
        } else {
            HttpFileSystem { prefix: prefix.to_owned() }
        }
    }

    /// The URL of the file at `path`.
    pub fn url_of(&self, path: &str) -> (r: String)
        ensures
            r@ == self.prefix@ + "/"@ + path@,
    {
        self.prefix.clone().concat("/").concat(path)
    }
}

/// Whether a fetched document is the server's notice that no file is
/// there: an object whose `message` is the text `not a file`.
pub fn is_missing_file_notice(j: &Json) -> (r: bool)
    ensures
        r == match j@ {
            JsonView::Object(o) => entry_of(o, "message"@) == Some(JsonView::Str("not a file"@)),
            _ => false,
        },
{
    match j.get_field(&"message".to_owned()) {
        Some(Json::Str(s)) => *s == "not a file".to_owned(),
        _ => false,
    }
}

} // verus!
