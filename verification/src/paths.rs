use vstd::prelude::*;
use vstd::string::StrSliceExecFns;
use vstd::string::StringExecFns;

use path_dedot::ParseDot;

verus! {

// Paths are plain strings with `/` separators. Canonical absolute form is
// produced by the outside path library behind one trusted wrapper; all other
// path work (joining, parents, relative display forms) is the library's own
// verified string logic.

/// What the outside path library returns for a path that starts at the
/// root: its text with `.` and `..` segments resolved. A function of the
/// path alone (the working directory plays no part for such paths).
pub uninterp spec fn dedot_of(s: Seq<char>) -> Seq<char>;

/// Relies on path_dedot's `parse_dot` for `Path`: a path whose first
/// component is the root never touches the working directory, resolves
/// purely from its own segments, and keeps its leading separator; on such
/// paths the call does not fail.
#[verifier::external_body]
pub fn dedot_absolute(s: &String) -> (r: String)
    requires
        s@.len() > 0,
        s@[0] == '/',
    ensures
        r@ == dedot_of(s@),
        r@.len() > 0,
        r@[0] == '/',
{
    let p = std::path::PathBuf::from(s.as_str());
    match p.parse_dot() {
        Ok(q) => match q.to_str() {
            Some(t) => t.to_string(),
            None => s.clone(),
        },
        Err(_) => s.clone(),
    }
}

/// True when the path starts at the root.
pub open spec fn spec_is_absolute(s: Seq<char>) -> bool {
    s.len() > 0 && s[0] == '/'
}

pub fn is_absolute(s: &String) -> (r: bool)
    ensures
        r == spec_is_absolute(s@),
{
    s.as_str().unicode_len() > 0 && s.as_str().get_char(0) == '/'
}

/// A base joined with a further path: an absolute right side replaces the
/// base; otherwise the two are glued with one separator.
pub open spec fn spec_join(base: Seq<char>, rel: Seq<char>) -> Seq<char> {
    if spec_is_absolute(rel) {
        rel
    } else if base.len() > 0 && base[base.len() - 1] == '/' {
        base + rel
    } else {
        base + seq!['/'] + rel
    }
}

pub fn join_paths(base: &String, rel: &String) -> (r: String)
    ensures
        r@ == spec_join(base@, rel@),
{
    if is_absolute(rel) {
        return rel.clone();
    }
    let bn = base.as_str().unicode_len();
    let mut r = String::new();
    r.append(base.as_str());
    if !(bn > 0 && base.as_str().get_char(bn - 1) == '/') {
        r.append("/");
        proof {
            reveal_strlit("/");
            assert(r@ =~= base@ + seq!['/']);
        }
    }
    r.append(rel.as_str());
    proof {
        if !(base@.len() > 0 && base@[base@.len() as int - 1] == '/') {
            assert(r@ =~= base@ + seq!['/'] + rel@);
        }
    }
    r
}

/// The index of the last separator in the path, if any.
pub open spec fn spec_last_slash(s: Seq<char>, upto: int) -> Option<int>
    decreases upto,
{
    if upto <= 0 || upto > s.len() {
        None
    } else if s[upto - 1] == '/' {
        Some(upto - 1)
    } else {
        spec_last_slash(s, upto - 1)
    }
}

/// The directory that holds the path: the text before its last separator
/// (the bare root when that separator leads), or nothing for a path with no
/// separator at all or for the root itself.
pub open spec fn spec_parent(s: Seq<char>) -> Option<Seq<char>> {
    match spec_last_slash(s, s.len() as int) {
        None => None,
        Some(k) => {
            if k == 0 {
                if s.len() == 1 {
                    None
                } else {
                    Some(seq!['/'])
                }
            } else {
                Some(s.take(k))
            }
        },
    }
}

proof fn lemma_last_slash_bounds(s: Seq<char>, upto: int)
    ensures
        spec_last_slash(s, upto) is Some ==> 0 <= spec_last_slash(s, upto)->Some_0 < upto,
    decreases upto,
{
    if 0 < upto <= s.len() && s[upto - 1] != '/' {
        lemma_last_slash_bounds(s, upto - 1);
    }
}

/// An absolute path's parent is itself absolute.
pub proof fn lemma_parent_absolute(s: Seq<char>)
    requires
        spec_is_absolute(s),
    ensures
        spec_parent(s) is Some ==> spec_is_absolute(spec_parent(s)->Some_0),
{
    lemma_last_slash_bounds(s, s.len() as int);
    match spec_last_slash(s, s.len() as int) {
        None => {},
        Some(k) => {
            if k > 0 {
                assert(s.take(k)[0] == s[0]);
            }
        },
    }
}

pub fn parent_of(s: &String) -> (r: Option<String>)
    ensures
        match r {
            Some(p) => spec_parent(s@) == Some(p@),
            None => spec_parent(s@) is None,
        },
{
    let n = s.as_str().unicode_len();
    let mut upto = n;
    let mut found: Option<usize> = None;
    loop
        invariant_except_break
            found is None,
        invariant
            n == s@.len(),
            0 <= upto <= n,
            spec_last_slash(s@, n as int) == spec_last_slash(s@, upto as int),
        ensures
            match found {
                Some(k) => spec_last_slash(s@, n as int) == Some(k as int),
                None => spec_last_slash(s@, n as int) is None,
            },
        decreases upto,
    {
        if upto == 0 {
            break ;
        }
        if s.as_str().get_char(upto - 1) == '/' {
            found = Some(upto - 1);
            break ;
        }
        upto = upto - 1;
    }
    match found {
        Some(k) => {
            if k == 0 {
                if n == 1 {
                    None
                } else {
                    let mut root = String::new();
                    root.append("/");
                    proof {
                        reveal_strlit("/");
                        assert(root@ =~= seq!['/']);
                    }
                    Some(root)
                }
            } else {
                proof {
                    lemma_last_slash_bounds(s@, n as int);
                }
                Some(s.as_str().substring_char(0, k).to_owned())
            }
        },
        None => None,
    }
}

/// The text with every carriage return removed, as line-ending
/// normalisation does before any scanning.
pub open spec fn spec_strip_cr(s: Seq<char>) -> Seq<char>
    decreases s.len(),
{
    if s.len() == 0 {
        Seq::empty()
    } else if s.last() == '\r' {
        spec_strip_cr(s.drop_last())
    } else {
        spec_strip_cr(s.drop_last()).push(s.last())
    }
}

pub fn strip_cr(s: &String) -> (r: String)
    ensures
        r@ == spec_strip_cr(s@),
{
    let n = s.as_str().unicode_len();
    let mut r = String::new();
    let mut i: usize = 0;
    while i < n
        invariant
            n == s@.len(),
            i <= n,
            r@ == spec_strip_cr(s@.take(i as int)),
        decreases n - i,
    {
        let ghost prev = s@.take(i as int);
        let c = s.get_char(i);
        if c != '\r' {
            r.append(s.as_str().substring_char(i, i + 1));
            proof {
                assert(s@.subrange(i as int, i + 1) =~= seq![s@[i as int]]);
            }
        }
        i = i + 1;
        proof {
            let cur = s@.take(i as int);
            assert(cur.drop_last() =~= prev);
            assert(cur.last() == c);
            if c != '\r' {
                assert(r@ =~= spec_strip_cr(prev).push(c));
            }
        }
    }
    proof {
        assert(s@.take(n as int) =~= s@);
    }
    r
}

/// The path split at its separators; an absolute path starts with an empty
/// segment.
pub open spec fn spec_split_slash(s: Seq<char>) -> Seq<Seq<char>>
    decreases s.len(),
{
    match spec_last_slash(s, s.len() as int) {
        None => seq![s],
        Some(k) => {
            if 0 <= k < s.len() {
                spec_split_slash(s.take(k)).push(s.skip(k + 1))
            } else {
                seq![s]
            }
        },
    }
}

/// Segments joined with single separators.
pub open spec fn spec_join_slash(segs: Seq<Seq<char>>) -> Seq<char>
    decreases segs.len(),
{
    if segs.len() == 0 {
        Seq::empty()
    } else if segs.len() == 1 {
        segs[0]
    } else {
        spec_join_slash(segs.drop_last()) + seq!['/'] + segs.last()
    }
}

/// How many leading segments the two paths share.
pub open spec fn spec_common_len(a: Seq<Seq<char>>, b: Seq<Seq<char>>, i: int) -> int
    decreases a.len() - i,
{
    if i < 0 || i >= a.len() || i >= b.len() {
        i
    } else if a[i] == b[i] {
        spec_common_len(a, b, i + 1)
    } else {
        i
    }
}

/// A parent-step segment, repeated.
pub open spec fn spec_dotdots(n: int) -> Seq<Seq<char>>
    decreases n,
{
    if n <= 0 {
        Seq::empty()
    } else {
        spec_dotdots(n - 1).push(seq!['.', '.'])
    }
}

/// The way from one absolute path to another, for display: a parent step
/// for each unshared segment of the starting point, then the target's
/// unshared segments.
pub open spec fn spec_relative(from: Seq<char>, to: Seq<char>) -> Seq<char> {
    let a = spec_split_slash(from);
    let b = spec_split_slash(to);
    let c = spec_common_len(a, b, 0);
    spec_join_slash(spec_dotdots(a.len() - c) + b.skip(c))
}

/// The character sequences of a list of strings.
pub open spec fn str_views(v: Seq<String>) -> Seq<Seq<char>> {
    v.map(|i: int, x: String| x@)
}

/// Splits a path at its separators; an absolute path starts with an empty
/// segment.
pub fn split_slash(s: &String) -> (r: Vec<String>)
    ensures
        str_views(r@) == spec_split_slash(s@),
    decreases s@.len(),
{
    let n = s.as_str().unicode_len();
    let mut upto = n;
    let mut found: Option<usize> = None;
    loop
        invariant_except_break
            found is None,
        invariant
            n == s@.len(),
            0 <= upto <= n,
            spec_last_slash(s@, n as int) == spec_last_slash(s@, upto as int),
        ensures
            match found {
                Some(k) => spec_last_slash(s@, n as int) == Some(k as int),
                None => spec_last_slash(s@, n as int) is None,
            },
        decreases upto,
    {
        if upto == 0 {
            break ;
        }
        if s.as_str().get_char(upto - 1) == '/' {
            found = Some(upto - 1);
            break ;
        }
        upto = upto - 1;
    }
    match found {
        Some(k) => {
            proof {
                lemma_last_slash_bounds(s@, n as int);
            }
            let prefix = s.as_str().substring_char(0, k).to_owned();
            let suffix = s.as_str().substring_char(k + 1, n).to_owned();
            let mut r = split_slash(&prefix);
            r.push(suffix);
            proof {
                assert(str_views(r@) =~= spec_split_slash(s@));
            }
            r
        },
        None => {
            let mut r: Vec<String> = Vec::new();
            r.push(s.clone());
            proof {
                assert(str_views(r@) =~= seq![s@]);
            }
            r
        },
    }
}

/// The way from one absolute path to another, as the warning and error
/// texts show paths: shared leading segments are dropped, a parent step
/// stands for each remaining segment of the starting point, and the
/// target's remaining segments follow.
pub fn get_relative_path(abs_from: String, abs_to: String) -> (r: String)
    ensures
        r@ == spec_relative(abs_from@, abs_to@),
{
    let a = split_slash(&abs_from);
    let b = split_slash(&abs_to);
    let ghost av = str_views(a@);
    let ghost bv = str_views(b@);
    let mut c: usize = 0;
    while c < a.len() && c < b.len() && a[c] == b[c]
        invariant
            av == str_views(a@),
            bv == str_views(b@),
            0 <= c <= av.len(),
            c <= bv.len(),
            spec_common_len(av, bv, 0) == spec_common_len(av, bv, c as int),
        decreases av.len() - c,
    {
        c = c + 1;
    }
    proof {
        assert(spec_common_len(av, bv, c as int) == c);
    }
    let mut segs: Vec<String> = Vec::new();
    let mut d: usize = 0;
    let updots = a.len() - c;
    while d < updots
        invariant
            d <= updots,
            str_views(segs@) == spec_dotdots(d as int),
        decreases updots - d,
    {
        let mut dots = String::new();
        dots.append("..");
        proof {
            reveal_strlit("..");
            assert(dots@ =~= seq!['.', '.']);
        }
        segs.push(dots);
        proof {
            assert(str_views(segs@) =~= spec_dotdots(d + 1));
        }
        d = d + 1;
    }
    let mut e = c;
    while e < b.len()
        invariant
            bv == str_views(b@),
            c <= e <= bv.len(),
            updots == a@.len() - c,
            str_views(segs@) == spec_dotdots(updots as int) + bv.skip(c as int).take(
                e - c as int,
            ),
        decreases bv.len() - e,
    {
        let ghost prev_views = str_views(segs@);
        segs.push(b[e].clone());
        e = e + 1;
        proof {
            assert(str_views(segs@) =~= prev_views.push(bv[e - 1]));
            assert(bv.skip(c as int).take(e - c as int) =~= bv.skip(c as int).take(
                e - 1 - c as int,
            ).push(bv[e - 1]));
            assert(str_views(segs@) =~= spec_dotdots(updots as int) + bv.skip(c as int).take(
                e - c as int,
            ));
        }
    }
    proof {
        assert(bv.skip(c as int).take(bv.len() - c as int) =~= bv.skip(c as int));
        assert(str_views(segs@) =~= spec_dotdots(av.len() - spec_common_len(av, bv, 0))
            + bv.skip(spec_common_len(av, bv, 0)));
    }
    let mut r = String::new();
    let mut i: usize = 0;
    let ghost target = str_views(segs@);
    while i < segs.len()
        invariant
            target == str_views(segs@),
            i <= target.len(),
            r@ == spec_join_slash(target.take(i as int)),
        decreases target.len() - i,
    {
        let ghost prev = target.take(i as int);
        if i > 0 {
            r.append("/");
            proof {
                reveal_strlit("/");
            }
        }
        r.append(segs[i].as_str());
        i = i + 1;
        proof {
            let cur = target.take(i as int);
            assert(cur.drop_last() =~= prev);
            assert(cur.last() == target[i - 1]);
            if i > 1 {
                assert(r@ =~= spec_join_slash(prev) + seq!['/'] + target[i - 1]);
            } else {
                assert(cur =~= seq![target[0]]);
                assert(r@ =~= target[0]);
            }
        }
    }
    proof {
        assert(target.take(target.len() as int) =~= target);
    }
    r
}

} // verus!
