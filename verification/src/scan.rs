use vstd::prelude::*;
use vstd::string::StrSliceExecFns;

verus! {

// The three comment forms and the expansion directive are scanned with the
// same discipline: walk left to right, and wherever the pattern matches,
// emit its span and continue right after it.

/// The position just past the `*` `/` that closes a block comment whose body
/// starts at `j`, unless a line break comes first (a block comment does not
/// span lines) or the text ends.
pub open spec fn spec_block_close(s: Seq<char>, j: int) -> Option<int>
    decreases s.len() - j,
{
    if j < 0 || j >= s.len() {
        None
    } else if j + 1 < s.len() && s[j] == '*' && s[j + 1] == '/' {
        Some(j + 2)
    } else if s[j] == '\n' {
        None
    } else {
        spec_block_close(s, j + 1)
    }
}

/// The end of a block comment starting at `i`: `/` `*`, then the nearest
/// closing pair on the same line.
pub open spec fn spec_block_at(s: Seq<char>, i: int) -> Option<int> {
    if 0 <= i && i + 1 < s.len() && s[i] == '/' && s[i + 1] == '*' {
        spec_block_close(s, i + 2)
    } else {
        None
    }
}

/// The position just past the line break at or after `j` (the break belongs
/// to the span), or the text's end.
pub open spec fn spec_line_break_end(s: Seq<char>, j: int) -> int
    decreases s.len() - j,
{
    if j < 0 || j >= s.len() {
        s.len() as int
    } else if s[j] == '\n' {
        j + 1
    } else {
        spec_line_break_end(s, j + 1)
    }
}

/// The end of a line comment starting at `i`: two slashes through the end of
/// the line, line break included.
pub open spec fn spec_line_at(s: Seq<char>, i: int) -> Option<int> {
    if 0 <= i && i + 1 < s.len() && s[i] == '/' && s[i + 1] == '/' {
        Some(spec_line_break_end(s, i + 2))
    } else {
        None
    }
}

/// The position just past the `#` at or after `j`, if any.
pub open spec fn spec_hash_end(s: Seq<char>, j: int) -> Option<int>
    decreases s.len() - j,
{
    if j < 0 || j >= s.len() {
        None
    } else if s[j] == '#' {
        Some(j + 1)
    } else {
        spec_hash_end(s, j + 1)
    }
}

/// The deletion-block opener: the literal characters `#`, `[`, `d`, `e`,
/// `l`, `]`.
pub open spec fn spec_del_opener_at(s: Seq<char>, i: int) -> bool {
    &&& 0 <= i
    &&& i + 6 <= s.len()
    &&& s[i] == '#'
    &&& s[i + 1] == '['
    &&& s[i + 2] == 'd'
    &&& s[i + 3] == 'e'
    &&& s[i + 4] == 'l'
    &&& s[i + 5] == ']'
}

/// The end of a deletion block starting at `i`: the opener through the next
/// `#`, that `#` included.
pub open spec fn spec_del_at(s: Seq<char>, i: int) -> Option<int> {
    if spec_del_opener_at(s, i) {
        spec_hash_end(s, i + 6)
    } else {
        None
    }
}

/// Block comment spans on a left-to-right scan from `i`.
pub open spec fn spec_block_scan(s: Seq<char>, i: int) -> Seq<(int, int)>
    decreases s.len() - i,
{
    if i < 0 || i >= s.len() {
        Seq::empty()
    } else {
        match spec_block_at(s, i) {
            Some(e) => {
                if i < e <= s.len() {
                    seq![(i, e)] + spec_block_scan(s, e)
                } else {
                    spec_block_scan(s, i + 1)
                }
            },
            None => spec_block_scan(s, i + 1),
        }
    }
}

/// Line comment spans on a left-to-right scan from `i`.
pub open spec fn spec_line_scan(s: Seq<char>, i: int) -> Seq<(int, int)>
    decreases s.len() - i,
{
    if i < 0 || i >= s.len() {
        Seq::empty()
    } else {
        match spec_line_at(s, i) {
            Some(e) => {
                if i < e <= s.len() {
                    seq![(i, e)] + spec_line_scan(s, e)
                } else {
                    spec_line_scan(s, i + 1)
                }
            },
            None => spec_line_scan(s, i + 1),
        }
    }
}

/// Deletion block spans on a left-to-right scan from `i`.
pub open spec fn spec_del_scan(s: Seq<char>, i: int) -> Seq<(int, int)>
    decreases s.len() - i,
{
    if i < 0 || i >= s.len() {
        Seq::empty()
    } else {
        match spec_del_at(s, i) {
            Some(e) => {
                if i < e <= s.len() {
                    seq![(i, e)] + spec_del_scan(s, e)
                } else {
                    spec_del_scan(s, i + 1)
                }
            },
            None => spec_del_scan(s, i + 1),
        }
    }
}

/// The spans of a usize pair list, as mathematical integers.
pub open spec fn spans_of(v: Seq<(usize, usize)>) -> Seq<(int, int)> {
    v.map(|k: int, p: (usize, usize)| (p.0 as int, p.1 as int))
}

/// A block comment's close, when found, lies past its body's start and
/// within the text.
pub proof fn lemma_block_close_bounds(s: Seq<char>, j: int)
    requires
        j >= 0,
    ensures
        spec_block_close(s, j) is Some ==> j < spec_block_close(s, j)->Some_0 <= s.len(),
    decreases s.len() - j,
{
    if 0 <= j < s.len() && !(j + 1 < s.len() && s[j] == '*' && s[j + 1] == '/') && s[j] != '\n' {
        lemma_block_close_bounds(s, j + 1);
    }
}

/// A line's end lies at or past `j` and within the text.
pub proof fn lemma_line_break_end_bounds(s: Seq<char>, j: int)
    requires
        0 <= j,
    ensures
        spec_line_break_end(s, j) <= s.len(),
        j <= s.len() ==> j <= spec_line_break_end(s, j),
    decreases s.len() - j,
{
    if j < s.len() && s[j] != '\n' {
        lemma_line_break_end_bounds(s, j + 1);
    }
}

/// A closing `#`, when found, lies past `j` and within the text.
pub proof fn lemma_hash_end_bounds(s: Seq<char>, j: int)
    requires
        j >= 0,
    ensures
        spec_hash_end(s, j) is Some ==> j < spec_hash_end(s, j)->Some_0 <= s.len(),
    decreases s.len() - j,
{
    if 0 <= j < s.len() && s[j] != '#' {
        lemma_hash_end_bounds(s, j + 1);
    }
}

/// Every span lies within the text, start strictly before end.
pub open spec fn pairs_ok(s: Seq<char>, ps: Seq<(int, int)>) -> bool {
    forall|k: int|
        #![trigger ps[k]]
        0 <= k < ps.len() ==> 0 <= ps[k].0 && ps[k].0 < ps[k].1 <= s.len()
}

proof fn lemma_pairs_cons(s: Seq<char>, q0: (int, int), qs: Seq<(int, int)>)
    requires
        pairs_ok(s, qs),
        0 <= q0.0 < q0.1 <= s.len(),
    ensures
        pairs_ok(s, seq![q0] + qs),
{
    let whole = seq![q0] + qs;
    assert forall|k: int|
        #![trigger whole[k]]
        0 <= k < whole.len() implies 0 <= whole[k].0 && whole[k].0 < whole[k].1 <= s.len() by {
        if k > 0 {
            assert(whole[k] == qs[k - 1]);
        } else {
            assert(whole[0] == q0);
        }
    }
}

/// Every block comment span is a well-formed range into the text.
pub proof fn lemma_block_scan_ok(s: Seq<char>, i: int)
    requires
        0 <= i,
    ensures
        pairs_ok(s, spec_block_scan(s, i)),
    decreases s.len() - i,
{
    if 0 <= i < s.len() {
        match spec_block_at(s, i) {
            Some(e) => {
                if i < e <= s.len() {
                    lemma_block_scan_ok(s, e);
                    lemma_pairs_cons(s, (i, e), spec_block_scan(s, e));
                } else {
                    lemma_block_scan_ok(s, i + 1);
                }
            },
            None => {
                lemma_block_scan_ok(s, i + 1);
            },
        }
    }
}

/// Every line comment span is a well-formed range into the text.
pub proof fn lemma_line_scan_ok(s: Seq<char>, i: int)
    requires
        0 <= i,
    ensures
        pairs_ok(s, spec_line_scan(s, i)),
    decreases s.len() - i,
{
    if 0 <= i < s.len() {
        match spec_line_at(s, i) {
            Some(e) => {
                if i < e <= s.len() {
                    lemma_line_scan_ok(s, e);
                    lemma_pairs_cons(s, (i, e), spec_line_scan(s, e));
                } else {
                    lemma_line_scan_ok(s, i + 1);
                }
            },
            None => {
                lemma_line_scan_ok(s, i + 1);
            },
        }
    }
}

/// Every deletion block span is a well-formed range into the text.
pub proof fn lemma_del_scan_ok(s: Seq<char>, i: int)
    requires
        0 <= i,
    ensures
        pairs_ok(s, spec_del_scan(s, i)),
    decreases s.len() - i,
{
    if 0 <= i < s.len() {
        match spec_del_at(s, i) {
            Some(e) => {
                if i < e <= s.len() {
                    lemma_del_scan_ok(s, e);
                    lemma_pairs_cons(s, (i, e), spec_del_scan(s, e));
                } else {
                    lemma_del_scan_ok(s, i + 1);
                }
            },
            None => {
                lemma_del_scan_ok(s, i + 1);
            },
        }
    }
}

/// Relates a matcher's outcome to what a hunt loop found.
pub open spec fn matched_after(found: Option<usize>, expected: Option<int>) -> bool {
    match found {
        Some(e) => expected == Some(e as int),
        None => expected is None,
    }
}

/// Finds every block comment, left to right.
pub fn find_block_spans(s: &str) -> (r: Vec<(usize, usize)>)
    ensures
        spans_of(r@) == spec_block_scan(s@, 0),
{
    let n = s.unicode_len();
    let mut r: Vec<(usize, usize)> = Vec::new();
    let mut i: usize = 0;
    while i < n
        invariant
            n == s@.len(),
            i <= n,
            spans_of(r@) + spec_block_scan(s@, i as int) == spec_block_scan(s@, 0),
        decreases n - i,
    {
        let ghost prev = r@;
        let mut matched: Option<usize> = None;
        if i + 1 < n && s.get_char(i) == '/' && s.get_char(i + 1) == '*' {
            let mut j = i + 2;
            loop
                invariant_except_break
                    matched is None,
                invariant
                    n == s@.len(),
                    i + 2 <= j <= n,
                    spec_block_close(s@, i + 2) == spec_block_close(s@, j as int),
                ensures
                    matched_after(matched, spec_block_close(s@, i + 2)),
                decreases n - j,
            {
                if j >= n {
                    break ;
                }
                if j + 1 < n && s.get_char(j) == '*' && s.get_char(j + 1) == '/' {
                    matched = Some(j + 2);
                    break ;
                }
                if s.get_char(j) == '\n' {
                    break ;
                }
                j = j + 1;
            }
            proof {
                lemma_block_close_bounds(s@, i + 2);
            }
        }
        match matched {
            Some(e) => {
                r.push((i, e));
                proof {
                    assert(spans_of(r@) =~= spans_of(prev).push((i as int, e as int)));
                    assert(spec_block_scan(s@, i as int) == seq![(i as int, e as int)]
                        + spec_block_scan(s@, e as int));
                    assert(spans_of(r@) + spec_block_scan(s@, e as int) =~= spec_block_scan(
                        s@,
                        0,
                    ));
                }
                i = e;
            },
            None => {
                proof {
                    assert(spec_block_scan(s@, i as int) == spec_block_scan(s@, i + 1));
                }
                i = i + 1;
            },
        }
    }
    proof {
        assert(spans_of(r@) + spec_block_scan(s@, i as int) =~= spans_of(r@));
        assert(spans_of(r@) =~= spec_block_scan(s@, 0));
    }
    r
}

/// Finds every line comment, left to right, line breaks included in the
/// spans.
pub fn find_line_spans(s: &str) -> (r: Vec<(usize, usize)>)
    ensures
        spans_of(r@) == spec_line_scan(s@, 0),
{
    let n = s.unicode_len();
    let mut r: Vec<(usize, usize)> = Vec::new();
    let mut i: usize = 0;
    while i < n
        invariant
            n == s@.len(),
            i <= n,
            spans_of(r@) + spec_line_scan(s@, i as int) == spec_line_scan(s@, 0),
        decreases n - i,
    {
        let ghost prev = r@;
        let mut matched: Option<usize> = None;
        if i + 1 < n && s.get_char(i) == '/' && s.get_char(i + 1) == '/' {
            let mut j = i + 2;
            loop
                invariant_except_break
                    matched is None,
                invariant
                    n == s@.len(),
                    i + 2 <= j <= n,
                    spec_line_break_end(s@, i + 2) == spec_line_break_end(s@, j as int),
                ensures
                    matched_after(matched, Some(spec_line_break_end(s@, i + 2))),
                decreases n - j,
            {
                if j >= n {
                    matched = Some(n);
                    break ;
                }
                if s.get_char(j) == '\n' {
                    matched = Some(j + 1);
                    break ;
                }
                j = j + 1;
            }
            proof {
                lemma_line_break_end_bounds(s@, i + 2);
            }
        }
        match matched {
            Some(e) => {
                r.push((i, e));
                proof {
                    assert(spans_of(r@) =~= spans_of(prev).push((i as int, e as int)));
                    assert(spec_line_scan(s@, i as int) == seq![(i as int, e as int)]
                        + spec_line_scan(s@, e as int));
                    assert(spans_of(r@) + spec_line_scan(s@, e as int) =~= spec_line_scan(s@, 0));
                }
                i = e;
            },
            None => {
                proof {
                    assert(spec_line_scan(s@, i as int) == spec_line_scan(s@, i + 1));
                }
                i = i + 1;
            },
        }
    }
    proof {
        assert(spans_of(r@) + spec_line_scan(s@, i as int) =~= spans_of(r@));
        assert(spans_of(r@) =~= spec_line_scan(s@, 0));
    }
    r
}

/// Finds every deletion block, left to right.
pub fn find_del_spans(s: &str) -> (r: Vec<(usize, usize)>)
    ensures
        spans_of(r@) == spec_del_scan(s@, 0),
{
    let n = s.unicode_len();
    let mut r: Vec<(usize, usize)> = Vec::new();
    let mut i: usize = 0;
    while i < n
        invariant
            n == s@.len(),
            i <= n,
            spans_of(r@) + spec_del_scan(s@, i as int) == spec_del_scan(s@, 0),
        decreases n - i,
    {
        let ghost prev = r@;
        let mut matched: Option<usize> = None;
        if n - i >= 6 && s.get_char(i) == '#' && s.get_char(i + 1) == '[' && s.get_char(i + 2)
            == 'd' && s.get_char(i + 3) == 'e' && s.get_char(i + 4) == 'l' && s.get_char(i + 5)
            == ']' {
            let mut j = i + 6;
            loop
                invariant_except_break
                    matched is None,
                invariant
                    n == s@.len(),
                    i + 6 <= j <= n,
                    spec_hash_end(s@, i + 6) == spec_hash_end(s@, j as int),
                ensures
                    matched_after(matched, spec_hash_end(s@, i + 6)),
                decreases n - j,
            {
                if j >= n {
                    break ;
                }
                if s.get_char(j) == '#' {
                    matched = Some(j + 1);
                    break ;
                }
                j = j + 1;
            }
            proof {
                lemma_hash_end_bounds(s@, i + 6);
            }
        }
        match matched {
            Some(e) => {
                r.push((i, e));
                proof {
                    assert(spans_of(r@) =~= spans_of(prev).push((i as int, e as int)));
                    assert(spec_del_scan(s@, i as int) == seq![(i as int, e as int)]
                        + spec_del_scan(s@, e as int));
                    assert(spans_of(r@) + spec_del_scan(s@, e as int) =~= spec_del_scan(s@, 0));
                }
                i = e;
            },
            None => {
                proof {
                    assert(spec_del_scan(s@, i as int) == spec_del_scan(s@, i + 1));
                }
                i = i + 1;
            },
        }
    }
    proof {
        assert(spans_of(r@) + spec_del_scan(s@, i as int) =~= spans_of(r@));
        assert(spans_of(r@) =~= spec_del_scan(s@, 0));
    }
    r
}

// ---------------------------------------------------------------------------
// The expansion directive: `#`, an optional `pragma`, an optional single
// space, the keyword, any number of spaces, one delimiter (space, `<` or
// `"`), then the file name up to a stopper, with one optional terminator
// (`>`, `"` or a line break) folded into the span.
// ---------------------------------------------------------------------------

/// The literal characters `p`, `r`, `a`, `g`, `m`, `a` at `j`.
pub open spec fn spec_pragma_at(s: Seq<char>, j: int) -> bool {
    &&& 0 <= j
    &&& j + 6 <= s.len()
    &&& s[j] == 'p'
    &&& s[j + 1] == 'r'
    &&& s[j + 2] == 'a'
    &&& s[j + 3] == 'g'
    &&& s[j + 4] == 'm'
    &&& s[j + 5] == 'a'
}

/// The directive keyword: the literal characters `i`, `n`, `c`, `l`, `u`,
/// `d`, `e` at `j`.
pub open spec fn spec_keyword_at(s: Seq<char>, j: int) -> bool {
    &&& 0 <= j
    &&& j + 7 <= s.len()
    &&& s[j] == 'i'
    &&& s[j + 1] == 'n'
    &&& s[j + 2] == 'c'
    &&& s[j + 3] == 'l'
    &&& s[j + 4] == 'u'
    &&& s[j + 5] == 'd'
    &&& s[j + 6] == 'e'
}

/// The first position at or after `j` that does not hold a space.
pub open spec fn spec_spaces_end(s: Seq<char>, j: int) -> int
    decreases s.len() - j,
{
    if j < 0 || j >= s.len() {
        s.len() as int
    } else if s[j] == ' ' {
        spec_spaces_end(s, j + 1)
    } else {
        j
    }
}

/// A character that ends a file name.
pub open spec fn spec_fname_stop(c: char) -> bool {
    c == '\n' || c == '\r' || c == '"' || c == '<' || c == '>'
}

/// A character the directive may close with, folded into its span.
pub open spec fn spec_term_char(c: char) -> bool {
    c == '>' || c == '"' || c == '\n' || c == '\r'
}

/// The first position at or after `j` that stops a file name, or the text's
/// end.
pub open spec fn spec_fname_end(s: Seq<char>, j: int) -> int
    decreases s.len() - j,
{
    if j < 0 || j >= s.len() {
        s.len() as int
    } else if spec_fname_stop(s[j]) {
        j
    } else {
        spec_fname_end(s, j + 1)
    }
}

/// A directive match at `i`: its end, and the file name's span within it.
pub open spec fn spec_directive_at(s: Seq<char>, i: int) -> Option<(int, int, int)> {
    if !(0 <= i && i < s.len() && s[i] == '#') {
        None
    } else {
        let j1 = if spec_pragma_at(s, i + 1) {
            i + 7
        } else {
            i + 1
        };
        let j2 = if j1 < s.len() && s[j1] == ' ' {
            j1 + 1
        } else {
            j1
        };
        if !spec_keyword_at(s, j2) {
            None
        } else {
            let j3 = j2 + 7;
            let sp = spec_spaces_end(s, j3);
            if sp < s.len() && (s[sp] == '<' || s[sp] == '"') {
                Some(spec_directive_tail(s, sp + 1))
            } else if sp > j3 {
                Some(spec_directive_tail(s, sp))
            } else {
                None
            }
        }
    }
}

/// The file name span and the directive's end, from the name's first
/// character on.
pub open spec fn spec_directive_tail(s: Seq<char>, fstart: int) -> (int, int, int) {
    let fend = spec_fname_end(s, fstart);
    let end = if fend < s.len() && spec_term_char(s[fend]) {
        fend + 1
    } else {
        fend
    };
    (end, fstart, fend)
}

/// Directive matches on a left-to-right scan from `i`: for each, its span
/// and the file name's span.
pub open spec fn spec_directive_scan(s: Seq<char>, i: int) -> Seq<(int, int, int, int)>
    decreases s.len() - i,
{
    if i < 0 || i >= s.len() {
        Seq::empty()
    } else {
        match spec_directive_at(s, i) {
            Some(t) => {
                if i < t.0 <= s.len() {
                    seq![(i, t.0, t.1, t.2)] + spec_directive_scan(s, t.0)
                } else {
                    spec_directive_scan(s, i + 1)
                }
            },
            None => spec_directive_scan(s, i + 1),
        }
    }
}

/// The quads of a usize list, as mathematical integers.
pub open spec fn quads_of(v: Seq<(usize, usize, usize, usize)>) -> Seq<(int, int, int, int)> {
    v.map(
        |k: int, p: (usize, usize, usize, usize)|
            (p.0 as int, p.1 as int, p.2 as int, p.3 as int),
    )
}

/// A space run ends at or past `j` and within the text.
pub proof fn lemma_spaces_end_bounds(s: Seq<char>, j: int)
    requires
        0 <= j,
    ensures
        spec_spaces_end(s, j) <= s.len(),
        j <= s.len() ==> j <= spec_spaces_end(s, j),
    decreases s.len() - j,
{
    if 0 <= j < s.len() && s[j] == ' ' {
        lemma_spaces_end_bounds(s, j + 1);
    }
}

/// A file name ends at or past `j` and within the text.
pub proof fn lemma_fname_end_bounds(s: Seq<char>, j: int)
    requires
        0 <= j,
    ensures
        spec_fname_end(s, j) <= s.len(),
        j <= s.len() ==> j <= spec_fname_end(s, j),
    decreases s.len() - j,
{
    if 0 <= j < s.len() && !spec_fname_stop(s[j]) {
        lemma_fname_end_bounds(s, j + 1);
    }
}

/// A directive match lies within the text and past its own start; the file
/// name sits inside the match.
pub proof fn lemma_directive_at_bounds(s: Seq<char>, i: int)
    requires
        0 <= i,
    ensures
        spec_directive_at(s, i) is Some ==> {
            let t = spec_directive_at(s, i)->Some_0;
            &&& i < t.0 <= s.len()
            &&& i < t.1 <= t.2 <= t.0
        },
{
    if spec_directive_at(s, i) is Some {
        let j1 = if spec_pragma_at(s, i + 1) {
            i + 7
        } else {
            i + 1
        };
        let j2 = if j1 < s.len() && s[j1] == ' ' {
            j1 + 1
        } else {
            j1
        };
        let j3 = j2 + 7;
        lemma_spaces_end_bounds(s, j3);
        let sp = spec_spaces_end(s, j3);
        if sp < s.len() && (s[sp] == '<' || s[sp] == '"') {
            lemma_fname_end_bounds(s, sp + 1);
        } else {
            lemma_fname_end_bounds(s, sp);
        }
    }
}

/// Well-placed directive matches from position `i` on: in bounds, ordered,
/// pairwise disjoint, with each file name inside its match.
pub open spec fn directive_quads_ok(s: Seq<char>, i: int, qs: Seq<(int, int, int, int)>) -> bool {
    &&& forall|k: int|
        #![trigger qs[k]]
        0 <= k < qs.len() ==> i <= qs[k].0 && qs[k].0 < qs[k].1 <= s.len() && qs[k].0 < qs[k].2
            && qs[k].2 <= qs[k].3 <= qs[k].1
    &&& forall|k1: int, k2: int| 0 <= k1 < k2 < qs.len() ==> qs[k1].1 <= qs[k2].0
}

proof fn lemma_quads_weaken(s: Seq<char>, i: int, i2: int, qs: Seq<(int, int, int, int)>)
    requires
        directive_quads_ok(s, i2, qs),
        i <= i2,
    ensures
        directive_quads_ok(s, i, qs),
{
}

proof fn lemma_quads_cons(
    s: Seq<char>,
    i: int,
    q0: (int, int, int, int),
    qs: Seq<(int, int, int, int)>,
)
    requires
        directive_quads_ok(s, q0.1, qs),
        i <= q0.0,
        q0.0 < q0.1 <= s.len(),
        q0.0 < q0.2 <= q0.3 <= q0.1,
    ensures
        directive_quads_ok(s, i, seq![q0] + qs),
{
    let whole = seq![q0] + qs;
    assert forall|k: int|
        #![trigger whole[k]]
        0 <= k < whole.len() implies i <= whole[k].0 && whole[k].0 < whole[k].1 <= s.len()
        && whole[k].0 < whole[k].2 && whole[k].2 <= whole[k].3 <= whole[k].1 by {
        if k > 0 {
            assert(whole[k] == qs[k - 1]);
        } else {
            assert(whole[0] == q0);
        }
    }
    assert forall|k1: int, k2: int|
        0 <= k1 < k2 < whole.len() implies whole[k1].1 <= whole[k2].0 by {
        assert(whole[k2] == qs[k2 - 1]);
        if k1 > 0 {
            assert(whole[k1] == qs[k1 - 1]);
        } else {
            assert(whole[0] == q0);
        }
    }
}

/// Directive matches are in bounds, ordered, and pairwise disjoint, with
/// each file name inside its match.
pub proof fn lemma_directive_scan_sorted(s: Seq<char>, i: int)
    requires
        0 <= i,
    ensures
        directive_quads_ok(s, i, spec_directive_scan(s, i)),
    decreases s.len() - i,
{
    if 0 <= i < s.len() {
        lemma_directive_at_bounds(s, i);
        if spec_directive_at(s, i) is Some {
            let t = spec_directive_at(s, i)->Some_0;
            if i < t.0 <= s.len() {
                lemma_directive_scan_sorted(s, t.0);
                lemma_quads_cons(
                    s,
                    i,
                    (i, t.0, t.1, t.2),
                    spec_directive_scan(s, t.0),
                );
                assert(spec_directive_scan(s, i) == seq![(i, t.0, t.1, t.2)]
                    + spec_directive_scan(s, t.0));
            } else {
                lemma_directive_scan_sorted(s, i + 1);
                lemma_quads_weaken(s, i, i + 1, spec_directive_scan(s, i + 1));
            }
        } else {
            lemma_directive_scan_sorted(s, i + 1);
            lemma_quads_weaken(s, i, i + 1, spec_directive_scan(s, i + 1));
        }
    } else {
        assert(spec_directive_scan(s, i) == Seq::<(int, int, int, int)>::empty());
    }
}

/// One directive match attempt at `i`, answering with (end, name start,
/// name end).
fn directive_at(s: &str, i: usize, n: usize) -> (r: Option<(usize, usize, usize)>)
    requires
        n == s@.len(),
        i < n,
    ensures
        match r {
            Some(t) => spec_directive_at(s@, i as int) == Some(
                (t.0 as int, t.1 as int, t.2 as int),
            ),
            None => spec_directive_at(s@, i as int) is None,
        },
{
    if s.get_char(i) != '#' {
        return None;
    }
    let mut j: usize = i + 1;
    if n - j >= 6 && s.get_char(j) == 'p' && s.get_char(j + 1) == 'r' && s.get_char(j + 2) == 'a'
        && s.get_char(j + 3) == 'g' && s.get_char(j + 4) == 'm' && s.get_char(j + 5) == 'a' {
        j = j + 6;
    }
    if j < n && s.get_char(j) == ' ' {
        j = j + 1;
    }
    if !(n - j >= 7 && s.get_char(j) == 'i' && s.get_char(j + 1) == 'n' && s.get_char(j + 2) == 'c'
        && s.get_char(j + 3) == 'l' && s.get_char(j + 4) == 'u' && s.get_char(j + 5) == 'd'
        && s.get_char(j + 6) == 'e') {
        return None;
    }
    let j3 = j + 7;
    let mut sp = j3;
    while sp < n && s.get_char(sp) == ' '
        invariant
            n == s@.len(),
            j3 <= sp <= n,
            spec_spaces_end(s@, j3 as int) == spec_spaces_end(s@, sp as int),
        decreases n - sp,
    {
        sp = sp + 1;
    }
    proof {
        assert(spec_spaces_end(s@, sp as int) == sp);
    }
    let fstart: usize;
    if sp < n && (s.get_char(sp) == '<' || s.get_char(sp) == '"') {
        fstart = sp + 1;
    } else if sp > j3 {
        fstart = sp;
    } else {
        return None;
    }
    let mut fend = fstart;
    while fend < n && !fname_stop(s.get_char(fend))
        invariant
            n == s@.len(),
            fstart <= fend <= n,
            spec_fname_end(s@, fstart as int) == spec_fname_end(s@, fend as int),
        decreases n - fend,
    {
        fend = fend + 1;
    }
    proof {
        assert(spec_fname_end(s@, fend as int) == fend);
    }
    let end: usize = if fend < n && term_char(s.get_char(fend)) {
        fend + 1
    } else {
        fend
    };
    Some((end, fstart, fend))
}

fn fname_stop(c: char) -> (r: bool)
    ensures
        r == spec_fname_stop(c),
{
    c == '\n' || c == '\r' || c == '"' || c == '<' || c == '>'
}

fn term_char(c: char) -> (r: bool)
    ensures
        r == spec_term_char(c),
{
    c == '>' || c == '"' || c == '\n' || c == '\r'
}

/// Finds every directive, left to right: each entry is the directive's
/// span followed by the file name's span.
pub fn find_directives(s: &str) -> (r: Vec<(usize, usize, usize, usize)>)
    ensures
        quads_of(r@) == spec_directive_scan(s@, 0),
{
    let n = s.unicode_len();
    let mut r: Vec<(usize, usize, usize, usize)> = Vec::new();
    let mut i: usize = 0;
    while i < n
        invariant
            n == s@.len(),
            i <= n,
            quads_of(r@) + spec_directive_scan(s@, i as int) == spec_directive_scan(s@, 0),
        decreases n - i,
    {
        let ghost prev = r@;
        let matched = directive_at(s, i, n);
        proof {
            lemma_directive_at_bounds(s@, i as int);
        }
        match matched {
            Some(t) => {
                let (e, fs, fe) = t;
                r.push((i, e, fs, fe));
                proof {
                    assert(quads_of(r@) =~= quads_of(prev).push(
                        (i as int, e as int, fs as int, fe as int),
                    ));
                    assert(spec_directive_scan(s@, i as int) == seq![
                        (i as int, e as int, fs as int, fe as int),
                    ] + spec_directive_scan(s@, e as int));
                    assert(quads_of(r@) + spec_directive_scan(s@, e as int)
                        =~= spec_directive_scan(s@, 0));
                }
                i = e;
            },
            None => {
                proof {
                    assert(spec_directive_scan(s@, i as int) == spec_directive_scan(s@, i + 1));
                }
                i = i + 1;
            },
        }
    }
    proof {
        assert(quads_of(r@) + spec_directive_scan(s@, i as int) =~= quads_of(r@));
        assert(quads_of(r@) =~= spec_directive_scan(s@, 0));
    }
    r
}

} // verus!
