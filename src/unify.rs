use vstd::prelude::*;
use crate::ast::{literal_value, ASTPrimaryExpression, Expr};
use crate::frame::{Bindings, Frame};
use crate::json::{json_hash, JsonView};
use crate::value::Value;

verus! {

/// One position of a match: a variable agrees with its binding or is bound
/// to the candidate, a literal hashes as the candidate does.
pub open spec fn unify_step(g: Bindings, a: Expr, c: JsonView) -> Option<Bindings> {
    match a {
        Expr::Var(n) => if g.contains_key(n) {
            if json_hash(g[n]) == json_hash(c) {
                Some(g)
            } else {
                None
            }
        } else {
            Some(g.insert(n, c))
        },
        _ => match literal_value(a) {
            Some(l) => if json_hash(l) == json_hash(c) {
                Some(g)
            } else {
                None
            },
            None => None,
        },
    }
}

/// The match of the first `n` positions.
pub open spec fn unify_prefix(f: Bindings, args: Seq<Expr>, cands: Seq<JsonView>, n: nat) -> Option<
    Bindings,
>
    decreases n,
{
    if n == 0 {
        Some(f)
    } else {
        match unify_prefix(f, args, cands, (n - 1) as nat) {
            Some(g) => unify_step(g, args[n - 1], cands[n - 1]),
            None => None,
        }
    }
}

/// The frame that matching `args` against the candidate tuple `cands` gives,
/// or `None` where they do not match.
pub open spec fn unify(f: Bindings, args: Seq<Expr>, cands: Seq<JsonView>) -> Option<Bindings> {
    unify_prefix(f, args, cands, args.len())
}

pub open spec fn values_view(v: Seq<Value>) -> Seq<JsonView> {
    v.map_values(|x: Value| x.json@)
}

/// A match never binds a variable to two values: what the frame held stays,
/// and each variable position ends up bound to a value that hashes as its
/// candidate does, as each literal position does.
pub proof fn lemma_unify_sound(f: Bindings, args: Seq<Expr>, cands: Seq<JsonView>, n: nat)
    requires
        n <= args.len(),
        n <= cands.len(),
        unify_prefix(f, args, cands, n) is Some,
    ensures
        ({
            let r = unify_prefix(f, args, cands, n)->0;
            &&& forall|k: Seq<char>| #[trigger] f.contains_key(k) ==> r.contains_key(k) && r[k] == f[k]
            &&& forall|i: int|
                0 <= i < n ==> match #[trigger] args[i] {
                    Expr::Var(name) => r.contains_key(name) && json_hash(r[name]) == json_hash(cands[i]),
                    _ => literal_value(args[i]) is Some && json_hash(literal_value(args[i])->0)
                        == json_hash(cands[i]),
                }
        }),
    decreases n,
{
    if n > 0 {
        lemma_unify_sound(f, args, cands, (n - 1) as nat);
        let g = unify_prefix(f, args, cands, (n - 1) as nat)->0;
        let r = unify_prefix(f, args, cands, n)->0;
        assert forall|i: int| 0 <= i < n implies match #[trigger] args[i] {
            Expr::Var(name) => r.contains_key(name) && json_hash(r[name]) == json_hash(cands[i]),
            _ => literal_value(args[i]) is Some && json_hash(literal_value(args[i])->0) == json_hash(
                cands[i],
            ),
        } by {
            if i < n - 1 {
                match args[i] {
                    Expr::Var(name) => {
                        assert(g.contains_key(name));
                    },
                    _ => {},
                }
            }
        }
    }
}

proof fn lemma_unify_fails_on(f: Bindings, args: Seq<Expr>, cands: Seq<JsonView>, i: nat, n: nat)
    requires
        i <= n,
        unify_prefix(f, args, cands, i) is None,
    ensures
        unify_prefix(f, args, cands, n) is None,
    decreases n - i,
{
    if i < n {
        lemma_unify_fails_on(f, args, cands, i, (n - 1) as nat);
    }
}

/// Matches the arguments of `ast` against the candidate tuple `v` in frame `f1`.
pub fn is_match_n(f1: &Frame, ast: &ASTPrimaryExpression, v: &Vec<Value>) -> (r: Option<Frame>)
    requires
        f1.wf(),
        v.len() == ast.args.len(),
        forall|i: int| 0 <= i < v.len() ==> (#[trigger] v@[i]).wf(),
    ensures
        match unify(f1@, ast@.1, values_view(v@)) {
            Some(g) => r.is_some() && r.unwrap().wf() && r.unwrap()@ == g,
            None => r.is_none(),
        },
{
    let ghost args = ast@.1;
    let ghost cands = values_view(v@);
    let mut new_frame = f1.duplicate();
    let n = ast.args.len();
    let mut i: usize = 0;
    while i < n
        invariant
            n == ast.args.len(),
            n == v.len(),
            args == ast@.1,
            cands == values_view(v@),
            forall|k: int| 0 <= k < v.len() ==> (#[trigger] v@[k]).wf(),
            i <= n,
            new_frame.wf(),
            unify_prefix(f1@, args, cands, i as nat) == Some(new_frame@),
        decreases n - i,
    {
        let handle = &ast.args[i];
        assert(args[i as int] == handle@);
        assert(cands[i as int] == v@[i as int].json@);
        match handle.get_var_name() {
            Some(var_name) => {
                match new_frame.get(var_name.as_str()) {
                    Some(x) => {
                        if x.hash != v[i].hash {
                            proof {
                                lemma_unify_fails_on(f1@, args, cands, (i + 1) as nat, args.len());
                            }
                            return None;
                        }
                    },
                    None => {
                        new_frame.add(var_name.as_str(), v[i].clone());
                    },
                }
            },
            None => {
                match handle.try_to_value() {
                    Some(v2) => {
                        if v2.hash != v[i].hash {
                            proof {
                                lemma_unify_fails_on(f1@, args, cands, (i + 1) as nat, args.len());
                            }
                            return None;
                        }
                    },
                    None => {
                        proof {
                            lemma_unify_fails_on(f1@, args, cands, (i + 1) as nat, args.len());
                        }
                        return None;
                    },
                }
            },
        }
        i = i + 1;
    }
    Some(new_frame)
}

} // verus!
