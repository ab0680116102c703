use vstd::prelude::*;
use crate::frame::{all_wf, frames_view, lemma_frames_append, lemma_frames_push, Bindings, Frame};
use crate::generic_query::{args_view, resolve, Arg, QueryError, VarOrValue};
use crate::json::JsonView;
use crate::value::{loose_text, Value};

verus! {

/// The text a bound argument stands for.
pub open spec fn text_of(a: Arg) -> Option<Seq<char>> {
    match a {
        Arg::Bound(v) => loose_text(v),
        Arg::Free(_) => None,
    }
}

pub open spec fn name_of(a: Arg) -> Seq<char> {
    match a {
        Arg::Free(n) => n,
        Arg::Bound(_) => Seq::empty(),
    }
}

pub open spec fn bind_str(f: Bindings, n: Seq<char>, s: Seq<char>) -> Bindings {
    f.insert(n, JsonView::Str(s))
}

pub open spec fn is_prefix(p: Seq<char>, w: Seq<char>) -> bool {
    p.len() <= w.len() && w.subrange(0, p.len() as int) == p
}

pub open spec fn is_suffix(s: Seq<char>, w: Seq<char>) -> bool {
    s.len() <= w.len() && w.subrange(w.len() - s.len(), w.len() as int) == s
}

/// `f` with `n1` bound to `s1` and `n2` to `s2`; nothing where one variable
/// would have to hold two different texts.
pub open spec fn bind_two(f: Bindings, n1: Seq<char>, s1: Seq<char>, n2: Seq<char>, s2: Seq<char>) -> Option<
    Bindings,
> {
    if n1 == n2 && s1 != s2 {
        None
    } else {
        Some(bind_str(bind_str(f, n1, s1), n2, s2))
    }
}

/// `f` with three variables bound to three texts; nothing where one variable
/// would have to hold two different texts.
pub open spec fn bind_three(
    f: Bindings,
    n1: Seq<char>,
    s1: Seq<char>,
    n2: Seq<char>,
    s2: Seq<char>,
    n3: Seq<char>,
    s3: Seq<char>,
) -> Option<Bindings> {
    if (n1 == n2 && s1 != s2) || (n1 == n3 && s1 != s3) || (n2 == n3 && s2 != s3) {
        None
    } else {
        Some(bind_str(bind_str(bind_str(f, n1, s1), n2, s2), n3, s3))
    }
}

pub open spec fn push_some(s: Seq<Bindings>, o: Option<Bindings>) -> Seq<Bindings> {
    match o {
        Some(g) => s.push(g),
        None => s,
    }
}

/// The ways of cutting `r` in two at a point before `k`, the left part
/// bound to `n1`, the right to `n2`.
pub open spec fn splits_upto(f: Bindings, n1: Seq<char>, n2: Seq<char>, r: Seq<char>, k: nat) -> Seq<Bindings>
    decreases k,
{
    if k == 0 {
        Seq::empty()
    } else {
        let c = k - 1;
        push_some(
            splits_upto(f, n1, n2, r, (k - 1) as nat),
            bind_two(f, n1, r.subrange(0, c), n2, r.subrange(c, r.len() as int)),
        )
    }
}

/// Every way of cutting `r` in two.
pub open spec fn splits(f: Bindings, n1: Seq<char>, n2: Seq<char>, r: Seq<char>) -> Seq<Bindings> {
    splits_upto(f, n1, n2, r, (r.len() + 1) as nat)
}

/// The frames for the occurrences of `m` in `w` that start before `k`: the
/// text before bound to `n1`, the text after to `n2`.
pub open spec fn occurrences(f: Bindings, n1: Seq<char>, n2: Seq<char>, m: Seq<char>, w: Seq<char>, k: nat) -> Seq<
    Bindings,
>
    decreases k,
{
    if k == 0 {
        Seq::empty()
    } else {
        let i = k - 1;
        let before = occurrences(f, n1, n2, m, w, (k - 1) as nat);
        if i + m.len() <= w.len() && w.subrange(i, i + m.len()) == m {
            push_some(before, bind_two(f, n1, w.subrange(0, i), n2, w.subrange(i + m.len(), w.len() as int)))
        } else {
            before
        }
    }
}

/// The frames that cut `w` at `i` and then at each point from `i` to
/// before `j`.
pub open spec fn row_upto(
    f: Bindings,
    n1: Seq<char>,
    n2: Seq<char>,
    n3: Seq<char>,
    w: Seq<char>,
    i: int,
    j: int,
) -> Seq<Bindings>
    decreases j - i,
{
    if j <= i {
        Seq::empty()
    } else {
        push_some(
            row_upto(f, n1, n2, n3, w, i, j - 1),
            bind_three(
                f,
                n1,
                w.subrange(0, i),
                n2,
                w.subrange(i, j - 1),
                n3,
                w.subrange(j - 1, w.len() as int),
            ),
        )
    }
}

/// The frames for every pair of cuts `i <= j` of `w` with `i < k`.
pub open spec fn cuts(f: Bindings, n1: Seq<char>, n2: Seq<char>, n3: Seq<char>, w: Seq<char>, k: nat) -> Seq<
    Bindings,
>
    decreases k,
{
    if k == 0 {
        Seq::empty()
    } else {
        cuts(f, n1, n2, n3, w, (k - 1) as nat) + row_upto(f, n1, n2, n3, w, k - 1, (w.len() + 1) as int)
    }
}

/// What `whole == prefix + middle + suffix` gives for one frame, its four
/// arguments as the frame sees them and the whole bound.
pub open spec fn split_frame(f: Bindings, a: Seq<Arg>) -> Seq<Bindings> {
    let (fp, fm, fs) = (a[0] is Free, a[1] is Free, a[2] is Free);
    let (p, m, s, w) = (text_of(a[0]), text_of(a[1]), text_of(a[2]), text_of(a[3]));
    if w is None || (!fp && p is None) || (!fm && m is None) || (!fs && s is None) {
        Seq::empty()
    } else {
        let w = w->0;
        if !fp && !fm && !fs {
            if p->0 + m->0 + s->0 == w {
                seq![f]
            } else {
                Seq::empty()
            }
        } else if fp && !fm && !fs {
            let t = m->0 + s->0;
            if is_suffix(t, w) {
                seq![bind_str(f, name_of(a[0]), w.subrange(0, w.len() - t.len()))]
            } else {
                Seq::empty()
            }
        } else if !fp && fm && !fs {
            if p->0.len() + s->0.len() <= w.len() && is_prefix(p->0, w) && is_suffix(s->0, w) {
                seq![bind_str(f, name_of(a[1]), w.subrange(p->0.len() as int, w.len() - s->0.len()))]
            } else {
                Seq::empty()
            }
        } else if !fp && !fm && fs {
            let t = p->0 + m->0;
            if is_prefix(t, w) {
                seq![bind_str(f, name_of(a[2]), w.subrange(t.len() as int, w.len() as int))]
            } else {
                Seq::empty()
            }
        } else if fp && fm && !fs {
            if is_suffix(s->0, w) {
                splits(f, name_of(a[0]), name_of(a[1]), w.subrange(0, w.len() - s->0.len()))
            } else {
                Seq::empty()
            }
        } else if !fp && fm && fs {
            if is_prefix(p->0, w) {
                splits(f, name_of(a[1]), name_of(a[2]), w.subrange(p->0.len() as int, w.len() as int))
            } else {
                Seq::empty()
            }
        } else if fp && !fm && fs {
            occurrences(f, name_of(a[0]), name_of(a[2]), m->0, w, (w.len() + 1) as nat)
        } else {
            cuts(f, name_of(a[0]), name_of(a[1]), name_of(a[2]), w, (w.len() + 1) as nat)
        }
    }
}

fn same_text(a: &str, b: &str) -> (r: bool)
    ensures
        r == (a@ == b@),
{
    a.to_owned() == b.to_owned()
}

fn has_prefix(w: &str, p: &str) -> (r: bool)
    ensures
        r == is_prefix(p@, w@),
{
    let lw = w.unicode_len();
    let lp = p.unicode_len();
    if lp > lw {
        false
    } else {
        same_text(w.substring_char(0, lp), p)
    }
}

fn has_suffix(w: &str, s: &str) -> (r: bool)
    ensures
        r == is_suffix(s@, w@),
{
    let lw = w.unicode_len();
    let ls = s.unicode_len();
    if ls > lw {
        false
    } else {
        same_text(w.substring_char(lw - ls, lw), s)
    }
}

fn join(a: &str, b: &str) -> (r: String)
    ensures
        r@ == a@ + b@,
{
    a.to_owned().concat(b)
}

/// `frame` with `n` bound to the string `s`.
fn with_str(frame: &Frame, n: &str, s: &str) -> (r: Frame)
    requires
        frame.wf(),
    ensures
        r.wf(),
        r@ == bind_str(frame@, n@, s@),
{
    let mut r = frame.duplicate();
    r.add(n, Value::from_string(s));
    r
}

/// `frame` with `n1` bound to `s1` and `n2` to `s2`, unless one variable
/// would hold two different texts.
fn with_two(frame: &Frame, n1: &str, s1: &str, n2: &str, s2: &str) -> (r: Option<Frame>)
    requires
        frame.wf(),
    ensures
        match bind_two(frame@, n1@, s1@, n2@, s2@) {
            Some(g) => r is Some && r->0.wf() && r->0@ == g,
            None => r is None,
        },
{
    if same_text(n1, n2) && !same_text(s1, s2) {
        None
    } else {
        let f1 = with_str(frame, n1, s1);
        Some(with_str(&f1, n2, s2))
    }
}

/// `frame` with three variables bound to three texts, unless one variable
/// would hold two different texts.
fn with_three(frame: &Frame, n1: &str, s1: &str, n2: &str, s2: &str, n3: &str, s3: &str) -> (r: Option<Frame>)
    requires
        frame.wf(),
    ensures
        match bind_three(frame@, n1@, s1@, n2@, s2@, n3@, s3@) {
            Some(g) => r is Some && r->0.wf() && r->0@ == g,
            None => r is None,
        },
{
    if (same_text(n1, n2) && !same_text(s1, s2)) || (same_text(n1, n3) && !same_text(s1, s3)) || (same_text(
        n2,
        n3,
    ) && !same_text(s2, s3)) {
        None
    } else {
        let f1 = with_str(frame, n1, s1);
        let f2 = with_str(&f1, n2, s2);
        Some(with_str(&f2, n3, s3))
    }
}

/// Appends the frame, if there is one.
fn push_frame(out: &mut Vec<Frame>, f: Option<Frame>)
    requires
        all_wf(old(out)@),
        f is Some ==> f->0.wf(),
    ensures
        all_wf(final(out)@),
        frames_view(final(out)@) == push_some(
            frames_view(old(out)@),
            match f {
                Some(g) => Some(g@),
                None => None,
            },
        ),
{
    match f {
        Some(g) => {
            proof {
                lemma_frames_push(out@, g);
            }
            out.push(g);
        },
        None => {},
    }
}

fn push_splits(frame: &Frame, n1: &str, n2: &str, r: &str, out: &mut Vec<Frame>)
    requires
        frame.wf(),
        all_wf(old(out)@),
    ensures
        all_wf(final(out)@),
        frames_view(final(out)@) == frames_view(old(out)@) + splits(frame@, n1@, n2@, r@),
{
    let len = r.unicode_len();
    let mut k: usize = 0;
    assert(frames_view(old(out)@) + splits_upto(frame@, n1@, n2@, r@, 0) =~= frames_view(old(out)@));
    loop
        invariant_except_break
            frames_view(out@) == frames_view(old(out)@) + splits_upto(frame@, n1@, n2@, r@, k as nat),
        invariant
            frame.wf(),
            len == r@.len(),
            k <= len,
            all_wf(out@),
        ensures
            all_wf(out@),
            frames_view(out@) == frames_view(old(out)@) + splits_upto(frame@, n1@, n2@, r@, (len + 1) as nat),
        decreases len - k,
    {
        let left = r.substring_char(0, k);
        let right = r.substring_char(k, len);
        let f = with_two(frame, n1, left, n2, right);
        let ghost before = frames_view(out@);
        push_frame(out, f);
        assert(frames_view(old(out)@) + splits_upto(frame@, n1@, n2@, r@, (k + 1) as nat) =~= push_some(
            frames_view(old(out)@) + splits_upto(frame@, n1@, n2@, r@, k as nat),
            bind_two(frame@, n1@, left@, n2@, right@),
        ));
        if k == len {
            break;
        }
        k = k + 1;
    }
}

fn push_occurrences(frame: &Frame, n1: &str, n2: &str, m: &str, w: &str, out: &mut Vec<Frame>)
    requires
        frame.wf(),
        all_wf(old(out)@),
    ensures
        all_wf(final(out)@),
        frames_view(final(out)@) == frames_view(old(out)@) + occurrences(
            frame@,
            n1@,
            n2@,
            m@,
            w@,
            (w@.len() + 1) as nat,
        ),
{
    let len = w.unicode_len();
    let lm = m.unicode_len();
    let mut k: usize = 0;
    assert(frames_view(old(out)@) + occurrences(frame@, n1@, n2@, m@, w@, 0) =~= frames_view(old(out)@));
    loop
        invariant_except_break
            frames_view(out@) == frames_view(old(out)@) + occurrences(frame@, n1@, n2@, m@, w@, k as nat),
        invariant
            frame.wf(),
            len == w@.len(),
            lm == m@.len(),
            k <= len,
            all_wf(out@),
        ensures
            all_wf(out@),
            frames_view(out@) == frames_view(old(out)@) + occurrences(frame@, n1@, n2@, m@, w@, (len + 1) as nat),
        decreases len - k,
    {
        if lm <= len - k && same_text(w.substring_char(k, k + lm), m) {
            let left = w.substring_char(0, k);
            let right = w.substring_char(k + lm, len);
            let f = with_two(frame, n1, left, n2, right);
            push_frame(out, f);
            assert(frames_view(old(out)@) + occurrences(frame@, n1@, n2@, m@, w@, (k + 1) as nat) =~= push_some(
                frames_view(old(out)@) + occurrences(frame@, n1@, n2@, m@, w@, k as nat),
                bind_two(frame@, n1@, left@, n2@, right@),
            ));
        }
        if k == len {
            break;
        }
        k = k + 1;
    }
}

fn push_cuts(frame: &Frame, n1: &str, n2: &str, n3: &str, w: &str, out: &mut Vec<Frame>)
    requires
        frame.wf(),
        all_wf(old(out)@),
    ensures
        all_wf(final(out)@),
        frames_view(final(out)@) == frames_view(old(out)@) + cuts(
            frame@,
            n1@,
            n2@,
            n3@,
            w@,
            (w@.len() + 1) as nat,
        ),
{
    let len = w.unicode_len();
    let mut i: usize = 0;
    assert(frames_view(old(out)@) + cuts(frame@, n1@, n2@, n3@, w@, 0) =~= frames_view(old(out)@));
    loop
        invariant_except_break
            frames_view(out@) == frames_view(old(out)@) + cuts(frame@, n1@, n2@, n3@, w@, i as nat),
        invariant
            frame.wf(),
            len == w@.len(),
            i <= len,
            all_wf(out@),
        ensures
            all_wf(out@),
            frames_view(out@) == frames_view(old(out)@) + cuts(frame@, n1@, n2@, n3@, w@, (len + 1) as nat),
        decreases len - i,
    {
        let ghost start = frames_view(out@);
        let left = w.substring_char(0, i);
        let mut j: usize = i;
        assert(start + row_upto(frame@, n1@, n2@, n3@, w@, i as int, i as int) =~= start);
        loop
            invariant_except_break
                frames_view(out@) == start + row_upto(frame@, n1@, n2@, n3@, w@, i as int, j as int),
            invariant
                frame.wf(),
                left@ == w@.subrange(0, i as int),
                len == w@.len(),
                i <= j <= len,
                all_wf(out@),
            ensures
                all_wf(out@),
                frames_view(out@) == start + row_upto(frame@, n1@, n2@, n3@, w@, i as int, len + 1),
            decreases len - j,
        {
            let mid = w.substring_char(i, j);
            let right = w.substring_char(j, len);
            let f = with_three(frame, n1, left, n2, mid, n3, right);
            push_frame(out, f);
            assert(start + row_upto(frame@, n1@, n2@, n3@, w@, i as int, j + 1) =~= push_some(
                start + row_upto(frame@, n1@, n2@, n3@, w@, i as int, j as int),
                bind_three(frame@, n1@, left@, n2@, mid@, n3@, right@),
            ));
            if j == len {
                break;
            }
            j = j + 1;
        }
        assert(frames_view(old(out)@) + cuts(frame@, n1@, n2@, n3@, w@, (i + 1) as nat) =~= start + row_upto(
            frame@,
            n1@,
            n2@,
            n3@,
            w@,
            i as int,
            len + 1,
        ));
        if i == len {
            break;
        }
        i = i + 1;
    }
}

/// How many of the four arguments are free.
pub open spec fn free_count(a: Seq<Arg>) -> nat {
    (if a[0] is Free { 1nat } else { 0nat }) + (if a[1] is Free { 1nat } else { 0nat }) + (if a[2] is Free {
        1nat
    } else {
        0nat
    }) + (if a[3] is Free { 1nat } else { 0nat })
}

/// The four arguments as frame `f` sees them.
pub open spec fn resolve_all(a: Seq<Arg>, f: Bindings) -> Seq<Arg> {
    a.map_values(|x: Arg| resolve(x, f))
}

/// `whole == prefix + middle + suffix` over a list of frames: the frames each
/// gives, in order, or an error where one of them leaves the whole free.
pub open spec fn split_by_frames(frames: Seq<Bindings>, args: Seq<Arg>) -> Result<Seq<Bindings>, QueryError>
    decreases frames.len(),
{
    if args.len() != 4 || frames.len() == 0 {
        Ok(Seq::empty())
    } else {
        match split_by_frames(frames.drop_last(), args) {
            Err(e) => Err(e),
            Ok(before) => {
                let a = resolve_all(args, frames.last());
                if a[3] is Free {
                    Err(QueryError::UnboundedSolutionSpace)
                } else {
                    Ok(before + split_frame(frames.last(), a))
                }
            },
        }
    }
}

/// The four arguments, resolved in a frame, with the whole bound.
pub open spec fn ready(args: Seq<VarOrValue>) -> bool {
    &&& args.len() == 4
    &&& forall|i: int| 0 <= i < 4 ==> (#[trigger] args[i]).wf()
    &&& args[3]@ is Bound
}

fn text_at(args: &Vec<VarOrValue>, i: usize) -> (r: Option<String>)
    requires
        i < args.len(),
    ensures
        match text_of(args@[i as int]@) {
            Some(t) => r.is_some() && r.unwrap()@ == t,
            None => r.is_none(),
        },
{
    match args[i].as_value() {
        Some(v) => v.as_loose_string(),
        None => None,
    }
}

fn name_at(args: &Vec<VarOrValue>, i: usize) -> (r: &str)
    requires
        i < args.len(),
    ensures
        r@ == name_of(args@[i as int]@),
{
    match args[i].get_var_name() {
        Some(n) => n.as_str(),
        None => {
            proof {
                reveal_strlit("");
            }
            ""
        },
    }
}

/// The string decomposition built-in: `whole == prefix + middle + suffix`.
pub struct SplitBy;

impl SplitBy {
    /// No argument free: the frame stays where the parts make up the whole.
    pub fn query_var0(&self, frame: &Frame, args: &Vec<VarOrValue>) -> (r: Vec<Frame>)
        requires
            frame.wf(),
            ready(args@),
            free_count(args_view(args@)) == 0,
        ensures
            all_wf(r@),
            frames_view(r@) == split_frame(frame@, args_view(args@)),
    {
        let ghost a = args_view(args@);
        assert(forall|i: int| 0 <= i < 4 ==> a[i] == #[trigger] args@[i]@);
        let mut out: Vec<Frame> = Vec::new();
        let (p, m, s, w) = (text_at(args, 0), text_at(args, 1), text_at(args, 2), text_at(args, 3));
        if p.is_none() || m.is_none() || s.is_none() || w.is_none() {
            assert(frames_view(out@) =~= split_frame(frame@, a));
            return out;
        }
        let (p, m, s, w) = (p.unwrap(), m.unwrap(), s.unwrap(), w.unwrap());
        let all = join(join(p.as_str(), m.as_str()).as_str(), s.as_str());
        if all == w {
            let f = frame.duplicate();
            proof {
                lemma_frames_push(out@, f);
            }
            out.push(f);
        }
        assert(frames_view(out@) =~= split_frame(frame@, a));
        out
    }

    /// One argument free: it is solved for by stripping the others off the whole.
    pub fn query_var1(&self, frame: &Frame, args: &Vec<VarOrValue>) -> (r: Vec<Frame>)
        requires
            frame.wf(),
            ready(args@),
            free_count(args_view(args@)) == 1,
        ensures
            all_wf(r@),
            frames_view(r@) == split_frame(frame@, args_view(args@)),
    {
        let ghost a = args_view(args@);
        assert(forall|i: int| 0 <= i < 4 ==> a[i] == #[trigger] args@[i]@);
        let mut out: Vec<Frame> = Vec::new();
        let (p, m, s, w) = (text_at(args, 0), text_at(args, 1), text_at(args, 2), text_at(args, 3));
        if w.is_none() {
            assert(frames_view(out@) =~= split_frame(frame@, a));
            return out;
        }
        let w = w.unwrap();
        let lw = w.as_str().unicode_len();
        if args[0].is_var() {
            if m.is_none() || s.is_none() {
                assert(frames_view(out@) =~= split_frame(frame@, a));
                return out;
            }
            let t = join(m.unwrap().as_str(), s.unwrap().as_str());
            if has_suffix(w.as_str(), t.as_str()) {
                let lt = t.as_str().unicode_len();
                let f = with_str(frame, name_at(args, 0), w.as_str().substring_char(0, lw - lt));
                proof {
                    lemma_frames_push(out@, f);
                }
                out.push(f);
            }
        } else if args[1].is_var() {
            if p.is_none() || s.is_none() {
                assert(frames_view(out@) =~= split_frame(frame@, a));
                return out;
            }
            let (p, s) = (p.unwrap(), s.unwrap());
            let lp = p.as_str().unicode_len();
            let ls = s.as_str().unicode_len();
            if lp <= lw && ls <= lw - lp && has_prefix(w.as_str(), p.as_str()) && has_suffix(w.as_str(), s.as_str()) {
                let f = with_str(frame, name_at(args, 1), w.as_str().substring_char(lp, lw - ls));
                proof {
                    lemma_frames_push(out@, f);
                }
                out.push(f);
            }
        } else {
            if p.is_none() || m.is_none() {
                assert(frames_view(out@) =~= split_frame(frame@, a));
                return out;
            }
            let t = join(p.unwrap().as_str(), m.unwrap().as_str());
            if has_prefix(w.as_str(), t.as_str()) {
                let lt = t.as_str().unicode_len();
                let f = with_str(frame, name_at(args, 2), w.as_str().substring_char(lt, lw));
                proof {
                    lemma_frames_push(out@, f);
                }
                out.push(f);
            }
        }
        assert(frames_view(out@) =~= split_frame(frame@, a));
        out
    }

    /// Two arguments free: one frame per place where the rest of the whole
    /// can be cut between them.
    pub fn query_var2(&self, frame: &Frame, args: &Vec<VarOrValue>) -> (r: Vec<Frame>)
        requires
            frame.wf(),
            ready(args@),
            free_count(args_view(args@)) == 2,
        ensures
            all_wf(r@),
            frames_view(r@) == split_frame(frame@, args_view(args@)),
    {
        let ghost a = args_view(args@);
        assert(forall|i: int| 0 <= i < 4 ==> a[i] == #[trigger] args@[i]@);
        let mut out: Vec<Frame> = Vec::new();
        assert(frames_view(out@) =~= Seq::<Bindings>::empty());
        let (p, m, s, w) = (text_at(args, 0), text_at(args, 1), text_at(args, 2), text_at(args, 3));
        if w.is_none() {
            return out;
        }
        let w = w.unwrap();
        let lw = w.as_str().unicode_len();
        if args[0].is_var() && args[1].is_var() {
            if s.is_none() {
                return out;
            }
            let s = s.unwrap();
            if has_suffix(w.as_str(), s.as_str()) {
                let ls = s.as_str().unicode_len();
                let rest = w.as_str().substring_char(0, lw - ls);
                push_splits(frame, name_at(args, 0), name_at(args, 1), rest, &mut out);
            }
        } else if args[1].is_var() && args[2].is_var() {
            if p.is_none() {
                return out;
            }
            let p = p.unwrap();
            if has_prefix(w.as_str(), p.as_str()) {
                let lp = p.as_str().unicode_len();
                let rest = w.as_str().substring_char(lp, lw);
                push_splits(frame, name_at(args, 1), name_at(args, 2), rest, &mut out);
            }
        } else {
            if m.is_none() {
                return out;
            }
            let m = m.unwrap();
            push_occurrences(frame, name_at(args, 0), name_at(args, 2), m.as_str(), w.as_str(), &mut out);
        }
        out
    }

    /// Three arguments free: one frame for each pair of cuts of the whole.
    pub fn query_var3(&self, frame: &Frame, args: &Vec<VarOrValue>) -> (r: Vec<Frame>)
        requires
            frame.wf(),
            ready(args@),
            free_count(args_view(args@)) == 3,
        ensures
            all_wf(r@),
            frames_view(r@) == split_frame(frame@, args_view(args@)),
    {
        let ghost a = args_view(args@);
        assert(forall|i: int| 0 <= i < 4 ==> a[i] == #[trigger] args@[i]@);
        let mut out: Vec<Frame> = Vec::new();
        assert(frames_view(out@) =~= Seq::<Bindings>::empty());
        let w = text_at(args, 3);
        if w.is_none() {
            return out;
        }
        let w = w.unwrap();
        push_cuts(frame, name_at(args, 0), name_at(args, 1), name_at(args, 2), w.as_str(), &mut out);
        out
    }
}

proof fn lemma_split_error_stays(frames: Seq<Bindings>, args: Seq<Arg>, i: nat, n: nat)
    requires
        i <= n <= frames.len(),
        split_by_frames(frames.take(i as int), args) is Err,
    ensures
        split_by_frames(frames.take(n as int), args) is Err,
    decreases n - i,
{
    if i < n {
        lemma_split_error_stays(frames, args, i, (n - 1) as nat);
        assert(frames.take(n as int).drop_last() =~= frames.take(n - 1));
    }
}

impl SplitBy {
    /// The arguments as `frame` sees them.
    fn resolve_in(frame: &Frame, args: &Vec<VarOrValue>) -> (r: Vec<VarOrValue>)
        requires
            frame.wf(),
            forall|i: int| 0 <= i < args.len() ==> (#[trigger] args@[i]).wf(),
        ensures
            r.len() == args.len(),
            forall|i: int| 0 <= i < r.len() ==> (#[trigger] r@[i]).wf(),
            args_view(r@) == resolve_all(args_view(args@), frame@),
    {
        let mut r: Vec<VarOrValue> = Vec::new();
        let mut i: usize = 0;
        while i < args.len()
            invariant
                frame.wf(),
                forall|k: int| 0 <= k < args.len() ==> (#[trigger] args@[k]).wf(),
                i <= args.len(),
                r.len() == i,
                forall|k: int| 0 <= k < i ==> (#[trigger] r@[k]).wf() && r@[k]@ == resolve(args@[k]@, frame@),
            decreases args.len() - i,
        {
            r.push(args[i].match_in_frame(frame));
            i = i + 1;
        }
        assert(args_view(r@) =~= resolve_all(args_view(args@), frame@));
        r
    }

    /// Runs the decomposition for every input frame, in order.
    pub fn query(&self, input: &Vec<Frame>, args: &Vec<VarOrValue>) -> (r: Result<Vec<Frame>, QueryError>)
        requires
            all_wf(input@),
            forall|i: int| 0 <= i < args.len() ==> (#[trigger] args@[i]).wf(),
        ensures
            match split_by_frames(frames_view(input@), args_view(args@)) {
                Ok(s) => r is Ok && all_wf(r->Ok_0@) && frames_view(r->Ok_0@) == s,
                Err(e) => r == Err::<Vec<Frame>, QueryError>(e),
            },
    {
        let ghost fv = frames_view(input@);
        let ghost av = args_view(args@);
        let mut result: Vec<Frame> = Vec::new();
        if args.len() != 4 {
            assert(frames_view(result@) =~= Seq::<Bindings>::empty());
            return Ok(result);
        }
        assert(fv.take(0).len() == 0);
        assert(frames_view(result@) =~= Seq::<Bindings>::empty());
        let mut i: usize = 0;
        while i < input.len()
            invariant
                fv == frames_view(input@),
                av == args_view(args@),
                all_wf(input@),
                args.len() == 4,
                forall|k: int| 0 <= k < args.len() ==> (#[trigger] args@[k]).wf(),
                i <= input.len(),
                all_wf(result@),
                split_by_frames(fv.take(i as int), av) == Ok::<Seq<Bindings>, QueryError>(frames_view(result@)),
            decreases input.len() - i,
        {
            let frame = &input[i];
            let new_args = SplitBy::resolve_in(frame, args);
            let ghost a = args_view(new_args@);
            assert(fv.take(i + 1).drop_last() =~= fv.take(i as int));
            assert(fv.take(i + 1).last() == frame@);
            assert(forall|k: int| 0 <= k < 4 ==> a[k] == #[trigger] new_args@[k]@);
            if new_args[3].is_var() {
                proof {
                    lemma_split_error_stays(fv, av, (i + 1) as nat, fv.len());
                    assert(fv.take(fv.len() as int) =~= fv);
                }
                return Err(QueryError::UnboundedSolutionSpace);
            }
            let mut count: usize = 0;
            if new_args[0].is_var() {
                count = count + 1;
            }
            if new_args[1].is_var() {
                count = count + 1;
            }
            if new_args[2].is_var() {
                count = count + 1;
            }
            assert(count == free_count(a));
            let mut found = if count == 0 {
                self.query_var0(frame, &new_args)
            } else if count == 1 {
                self.query_var1(frame, &new_args)
            } else if count == 2 {
                self.query_var2(frame, &new_args)
            } else {
                self.query_var3(frame, &new_args)
            };
            proof {
                lemma_frames_append(result@, found@);
            }
            result.append(&mut found);
            i = i + 1;
        }
        assert(fv.take(i as int) =~= fv);
        Ok(result)
    }
}

} // verus!
