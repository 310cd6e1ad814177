use vstd::prelude::*;
use vstd::string::StrSliceExecFns;
use vstd::string::StringExecFns;

use crate::marked_text::MarkedText;
use crate::id_based_vec::lemma_spec_items_all;
use crate::id_based_vec::spec_items;
use crate::paths::str_views;
use crate::parse_rules::ParseRules;
use crate::parse_rules::SameIncludes;

verus! {

/// A decimal digit as a character.
pub open spec fn spec_digit(d: int) -> char {
    if d == 0 {
        '0'
    } else if d == 1 {
        '1'
    } else if d == 2 {
        '2'
    } else if d == 3 {
        '3'
    } else if d == 4 {
        '4'
    } else if d == 5 {
        '5'
    } else if d == 6 {
        '6'
    } else if d == 7 {
        '7'
    } else if d == 8 {
        '8'
    } else {
        '9'
    }
}

/// The decimal rendering of a number.
pub open spec fn spec_decimal(n: int) -> Seq<char>
    decreases n,
{
    if n < 10 {
        seq![spec_digit(n)]
    } else {
        spec_decimal(n / 10).push(spec_digit(n % 10))
    }
}

fn digit_str(d: usize) -> (r: &'static str)
    requires
        d < 10,
    ensures
        r@ == seq![spec_digit(d as int)],
{
    proof {
        reveal_strlit("0");
        reveal_strlit("1");
        reveal_strlit("2");
        reveal_strlit("3");
        reveal_strlit("4");
        reveal_strlit("5");
        reveal_strlit("6");
        reveal_strlit("7");
        reveal_strlit("8");
        reveal_strlit("9");
    }
    match d {
        0 => "0",
        1 => "1",
        2 => "2",
        3 => "3",
        4 => "4",
        5 => "5",
        6 => "6",
        7 => "7",
        8 => "8",
        _ => "9",
    }
}

/// Renders a count in decimal, for warning and error texts.
pub fn decimal_string(n: usize) -> (r: String)
    ensures
        r@ == spec_decimal(n as int),
    decreases n,
{
    if n < 10 {
        let mut r = String::new();
        r.append(digit_str(n));
        proof {
            assert(r@ =~= seq![spec_digit(n as int)]);
        }
        r
    } else {
        let mut r = decimal_string(n / 10);
        r.append(digit_str(n % 10));
        proof {
            assert(r@ =~= spec_decimal(n as int / 10).push(spec_digit(n as int % 10)));
        }
        r
    }
}

/// Why a resolution request failed. Each variant carries the offending
/// path(s), shown relative to the resolver's main directory.
#[derive(Debug, Clone, PartialEq, Eq)]
pub enum ExpandError {
    PathParseError { path: String },
    FileNotFound { path: String },
    FileReadError { path: String },
    InfiniteRecursion { files: Vec<String> },
    UnableToGetFileParent { file: String },
    TextExpandingError { filepath: String },
    MultipleSameIncludes { main_file: String, included_file: String, times: usize },
}

impl ExpandError {
    /// The error's message text.
    pub open spec fn spec_message(&self) -> Seq<char> {
        match self {
            ExpandError::PathParseError { path } => "Unable to parse path: \""@ + path@ + "\""@,
            ExpandError::FileNotFound { path } => "File not found: \""@ + path@ + "\""@,
            ExpandError::FileReadError { path } => "Failed to read file \""@ + path@ + "\""@,
            ExpandError::InfiniteRecursion { files } => {
                if files@.len() == 0 {
                    "Infinite recursion error (no data)"@
                } else {
                    "Infinite recursion error:\n"@ + spec_chain(str_views(files@))
                        + files@[0]@
                }
            },
            ExpandError::UnableToGetFileParent { file } => "Unable to get file's parent: \""@
                + file@ + "\""@,
            ExpandError::TextExpandingError { filepath } => "Failed to expand text: \""@
                + filepath@ + "\""@,
            ExpandError::MultipleSameIncludes { main_file, included_file, times } => "File "@
                + included_file@ + " was added "@ + spec_decimal(*times as int)
                + " times in file "@ + main_file@,
        }
    }

    /// Renders the error for display.
    pub fn message(&self) -> (r: String)
        ensures
            r@ == self.spec_message(),
    {
        let mut r = String::new();
        match self {
            ExpandError::PathParseError { path } => {
                r.append("Unable to parse path: \"");
                r.append(path.as_str());
                r.append("\"");
            },
            ExpandError::FileNotFound { path } => {
                r.append("File not found: \"");
                r.append(path.as_str());
                r.append("\"");
            },
            ExpandError::FileReadError { path } => {
                r.append("Failed to read file \"");
                r.append(path.as_str());
                r.append("\"");
            },
            ExpandError::InfiniteRecursion { files } => {
                if files.len() == 0 {
                    r.append("Infinite recursion error (no data)");
                } else {
                    r.append("Infinite recursion error:\n");
                    let mut i: usize = 0;
                    let ghost fv = str_views(files@);
                    while i < files.len()
                        invariant
                            fv == str_views(files@),
                            i <= fv.len(),
                            r@ == "Infinite recursion error:\n"@ + spec_chain(
                                fv.take(i as int),
                            ),
                        decreases fv.len() - i,
                    {
                        let ghost prev = fv.take(i as int);
                        r.append(files[i].as_str());
                        r.append(" -> ");
                        i = i + 1;
                        proof {
                            let cur = fv.take(i as int);
                            assert(cur.drop_last() =~= prev);
                            assert(cur.last() == fv[i - 1]);
                            assert(r@ =~= "Infinite recursion error:\n"@ + spec_chain(cur));
                        }
                    }
                    proof {
                        assert(fv.take(fv.len() as int) =~= fv);
                    }
                    r.append(files[0].as_str());
                }
            },
            ExpandError::UnableToGetFileParent { file } => {
                r.append("Unable to get file's parent: \"");
                r.append(file.as_str());
                r.append("\"");
            },
            ExpandError::TextExpandingError { filepath } => {
                r.append("Failed to expand text: \"");
                r.append(filepath.as_str());
                r.append("\"");
            },
            ExpandError::MultipleSameIncludes { main_file, included_file, times } => {
                r.append("File ");
                r.append(included_file.as_str());
                r.append(" was added ");
                let t = decimal_string(*times);
                r.append(t.as_str());
                r.append(" times in file ");
                r.append(main_file.as_str());
            },
        }
        r
    }
}

/// A cycle chain rendered as arrows: each entry followed by an arrow.
pub open spec fn spec_chain(files: Seq<Seq<char>>) -> Seq<char>
    decreases files.len(),
{
    if files.len() == 0 {
        Seq::empty()
    } else {
        spec_chain(files.drop_last()) + files.last() + " -> "@
    }
}

/// A difficulty the resolver healed by itself but wants the caller to know
/// about.
#[derive(Debug, Clone, PartialEq, Eq)]
pub enum Warning {
    MultipleSameIncludes {
        main_file: String,
        included_file: String,
        times: usize,
        action_done: SameIncludes,
    },
}

impl Warning {
    /// An exact copy.
    pub fn duplicate(&self) -> (r: Warning)
        ensures
            r == *self,
    {
        match self {
            Warning::MultipleSameIncludes { main_file, included_file, times, action_done } => {
                Warning::MultipleSameIncludes {
                    main_file: main_file.clone(),
                    included_file: included_file.clone(),
                    times: *times,
                    action_done: *action_done,
                }
            },
        }
    }

    /// The warning's message text.
    pub open spec fn spec_message(&self) -> Seq<char> {
        match self {
            Warning::MultipleSameIncludes { main_file, included_file, times, action_done } => {
                "File "@ + included_file@ + " was added "@ + spec_decimal(*times as int)
                    + " times in file "@ + main_file@ + (if action_done
                    == SameIncludes::DeleteRepeats {
                    "; every copy but the first was deleted"@
                } else {
                    ""@
                })
            },
        }
    }

    /// Renders the warning for display.
    pub fn message(&self) -> (r: String)
        ensures
            r@ == self.spec_message(),
    {
        let mut r = String::new();
        match self {
            Warning::MultipleSameIncludes { main_file, included_file, times, action_done } => {
                r.append("File ");
                r.append(included_file.as_str());
                r.append(" was added ");
                let t = decimal_string(*times);
                r.append(t.as_str());
                r.append(" times in file ");
                r.append(main_file.as_str());
                if *action_done == SameIncludes::DeleteRepeats {
                    r.append("; every copy but the first was deleted");
                } else {
                    proof {
                        reveal_strlit("");
                        assert(r@ =~= r@ + ""@);
                    }
                }
            },
        }
        r
    }
}

/// The transient state of one top-level resolution request: the warnings
/// gathered so far, the stack of files being resolved (for cycle
/// detection), and the request's effective configuration.
#[derive(Debug)]
pub struct ParseLog {
    warnings: Vec<Warning>,
    files_hierarchy: Vec<String>,
    parse_rules: ParseRules,
}

impl ParseLog {
    pub closed spec fn spec_warnings(&self) -> Seq<Warning> {
        self.warnings@
    }

    /// The resolution stack, outermost file first.
    pub closed spec fn spec_stack(&self) -> Seq<String> {
        self.files_hierarchy@
    }

    pub closed spec fn spec_rules(&self) -> ParseRules {
        self.parse_rules
    }

    pub fn new() -> (r: ParseLog)
        ensures
            r.spec_warnings() == Seq::<Warning>::empty(),
            r.spec_stack() == Seq::<String>::empty(),
            r.spec_rules().spec_same_includes().spec_is_default(),
            r.spec_rules().spec_same_includes().spec_value() == SameIncludes::DeleteRepeats,
    {
        ParseLog { warnings: Vec::new(), files_hierarchy: Vec::new(), parse_rules: ParseRules::new() }
    }

    pub fn from_rules(parse_rules: ParseRules) -> (r: ParseLog)
        ensures
            r.spec_warnings() == Seq::<Warning>::empty(),
            r.spec_stack() == Seq::<String>::empty(),
            r.spec_rules() == parse_rules,
    {
        ParseLog { warnings: Vec::new(), files_hierarchy: Vec::new(), parse_rules }
    }

    /// Pushes a file onto the resolution stack.
    pub fn file(&mut self, file: String)
        ensures
            final(self).spec_stack() == old(self).spec_stack().push(file),
            final(self).spec_warnings() == old(self).spec_warnings(),
            final(self).spec_rules() == old(self).spec_rules(),
    {
        self.files_hierarchy.push(file);
    }

    /// Records one warning.
    pub fn warn(&mut self, warn: Warning)
        ensures
            final(self).spec_warnings() == old(self).spec_warnings().push(warn),
            final(self).spec_stack() == old(self).spec_stack(),
            final(self).spec_rules() == old(self).spec_rules(),
    {
        self.warnings.push(warn);
    }

    /// Records many warnings, in order.
    pub fn warns(&mut self, warns: Vec<Warning>)
        ensures
            final(self).spec_warnings() == old(self).spec_warnings() + warns@,
            final(self).spec_stack() == old(self).spec_stack(),
            final(self).spec_rules() == old(self).spec_rules(),
    {
        let mut i: usize = 0;
        while i < warns.len()
            invariant
                i <= warns@.len(),
                self.spec_warnings() == old(self).spec_warnings() + warns@.take(i as int),
                self.spec_stack() == old(self).spec_stack(),
                self.spec_rules() == old(self).spec_rules(),
            decreases warns@.len() - i,
        {
            let w = warns[i].duplicate();
            self.warn(w);
            i = i + 1;
            proof {
                assert(warns@.take(i as int).drop_last() =~= warns@.take(i - 1));
                assert(self.spec_warnings() =~= old(self).spec_warnings() + warns@.take(i as int));
            }
        }
        proof {
            assert(warns@.take(i as int) =~= warns@);
        }
    }

    /// A log for a nested resolution: the same stack and rules, but no
    /// warnings of its own (nested warnings are suppressed).
    pub fn no_warns(&self) -> (r: ParseLog)
        ensures
            r.spec_warnings() == Seq::<Warning>::empty(),
            r.spec_stack() == self.spec_stack(),
            r.spec_rules() == self.spec_rules(),
    {
        let mut stack: Vec<String> = Vec::new();
        let mut i: usize = 0;
        while i < self.files_hierarchy.len()
            invariant
                i <= self.spec_stack().len(),
                stack@ == self.spec_stack().take(i as int),
            decreases self.spec_stack().len() - i,
        {
            stack.push(self.files_hierarchy[i].clone());
            i = i + 1;
            proof {
                assert(stack@ =~= self.spec_stack().take(i as int));
            }
        }
        proof {
            assert(self.spec_stack().take(i as int) =~= self.spec_stack());
        }
        ParseLog { warnings: Vec::new(), files_hierarchy: stack, parse_rules: self.parse_rules }
    }

    /// The resolution stack, for inspection.
    pub fn stack(&self) -> (r: &Vec<String>)
        ensures
            r@ == self.spec_stack(),
    {
        &self.files_hierarchy
    }

    pub fn rules(&self) -> (r: &ParseRules)
        ensures
            *r == self.spec_rules(),
    {
        &self.parse_rules
    }

    pub fn rules_mut(&mut self) -> (r: &mut ParseRules)
        ensures
            *r == old(self).spec_rules(),
            final(self).spec_rules() == *final(r),
            final(self).spec_warnings() == old(self).spec_warnings(),
            final(self).spec_stack() == old(self).spec_stack(),
    {
        &mut self.parse_rules
    }
}

/// The raw texts the resolver may read, keyed by canonical absolute path.
/// The surrounding program fills it from the filesystem; resolution itself
/// never reads anything else.
#[derive(Debug)]
pub struct FileStore {
    files: Vec<(String, String)>,
}

/// The text of the first entry with the given key, if any.
pub open spec fn spec_store_find(files: Seq<(String, String)>, p: Seq<char>) -> Option<Seq<char>>
    decreases files.len(),
{
    if files.len() == 0 {
        None
    } else if files[0].0@ == p {
        Some(files[0].1@)
    } else {
        spec_store_find(files.drop_first(), p)
    }
}

impl FileStore {
    pub closed spec fn spec_files(&self) -> Seq<(String, String)> {
        self.files@
    }

    pub open spec fn spec_find(&self, p: Seq<char>) -> Option<Seq<char>> {
        spec_store_find(self.spec_files(), p)
    }

    /// Every stored text is small enough to manipulate (true of any real
    /// string), and no path is stored twice.
    pub open spec fn wf(&self) -> bool {
        &&& forall|k: int|
            #![trigger self.spec_files()[k]]
            0 <= k < self.spec_files().len() ==> self.spec_files()[k].1@.len() <= isize::MAX
        &&& forall|k1: int, k2: int|
            0 <= k1 < k2 < self.spec_files().len() ==> self.spec_files()[k1].0@
                != self.spec_files()[k2].0@
    }

    pub fn new() -> (r: FileStore)
        ensures
            r.spec_files() == Seq::<(String, String)>::empty(),
            r.wf(),
    {
        FileStore { files: Vec::new() }
    }

    /// Makes a text available under a path. A path already stored, or a
    /// text longer than the machine bound (no real string is), is refused.
    pub fn add_file(&mut self, path: String, text: String) -> (r: bool)
        ensures
            (text@.len() <= isize::MAX && spec_store_find(old(self).spec_files(), path@) is None)
                ==> r && final(self).spec_files() == old(self).spec_files().push((path, text)),
            (text@.len() > isize::MAX || spec_store_find(old(self).spec_files(), path@) is Some)
                ==> !r && final(self).spec_files() == old(self).spec_files(),
            old(self).wf() ==> final(self).wf(),
    {
        if text.as_str().unicode_len() > isize::MAX as usize {
            return false;
        }
        if self.lookup(&path).is_some() {
            return false;
        }
        let ghost prev = self.files@;
        self.files.push((path, text));
        proof {
            assert(self.spec_files() == prev.push((path, text)));
            lemma_store_find_none_all_diff(prev, path@);
            if old(self).wf() {
                assert forall|k: int|
                    #![trigger self.spec_files()[k]]
                    0 <= k < self.spec_files().len() implies self.spec_files()[k].1@.len()
                    <= isize::MAX by {
                    if k < prev.len() {
                        assert(self.spec_files()[k] == prev[k]);
                        assert(prev[k] == old(self).spec_files()[k]);
                    } else {
                        assert(self.spec_files()[k] == (path, text));
                    }
                }
                assert forall|k1: int, k2: int|
                    0 <= k1 < k2 < self.spec_files().len() implies self.spec_files()[k1].0@
                    != self.spec_files()[k2].0@ by {
                    assert(self.spec_files()[k1] == prev[k1]);
                    if k2 < prev.len() {
                        assert(self.spec_files()[k2] == prev[k2]);
                    } else {
                        assert(self.spec_files()[k2] == (path, text));
                    }
                }
            }
        }
        true
    }

    /// Looks a path up, returning the first stored text under it.
    pub fn lookup(&self, path: &String) -> (r: Option<&String>)
        ensures
            match r {
                Some(t) => self.spec_find(path@) == Some(t@),
                None => self.spec_find(path@) is None,
            },
    {
        let mut i: usize = 0;
        proof {
            assert(self.spec_files().skip(0) =~= self.spec_files());
        }
        while i < self.files.len()
            invariant
                i <= self.spec_files().len(),
                spec_store_find(self.spec_files(), path@) == spec_store_find(
                    self.spec_files().skip(i as int),
                    path@,
                ),
            decreases self.spec_files().len() - i,
        {
            if self.files[i].0 == *path {
                proof {
                    assert(self.spec_files().skip(i as int)[0] == self.spec_files()[i as int]);
                }
                return Some(&self.files[i].1);
            }
            i = i + 1;
            proof {
                assert(self.spec_files().skip(i - 1).drop_first() =~= self.spec_files().skip(
                    i as int,
                ));
                assert(self.spec_files().skip(i - 1)[0] == self.spec_files()[i - 1]);
            }
        }
        proof {
            assert(self.spec_files().skip(i as int) =~= Seq::<(String, String)>::empty());
        }
        None
    }

    /// How many texts are stored.
    pub fn len(&self) -> (r: usize)
        ensures
            r == self.spec_files().len(),
    {
        self.files.len()
    }
}

/// A fully expanded source file: the spliced text with its marks, and the
/// warnings gathered while resolving it.
#[derive(Debug)]
pub struct ShaderFile {
    pub(crate) content: MarkedText<String>,
    pub(crate) warnings: Vec<Warning>,
}

impl ShaderFile {
    pub closed spec fn spec_content(&self) -> MarkedText<String> {
        self.content
    }

    pub closed spec fn spec_warnings(&self) -> Seq<Warning> {
        self.warnings@
    }

    /// The file's fully expanded text.
    pub fn current_text(&self) -> (r: &String)
        ensures
            r@ == self.spec_content().spec_text(),
    {
        self.content.text()
    }

    /// The warnings recorded while the file was resolved.
    pub fn warnings(&self) -> (r: &Vec<Warning>)
        ensures
            r@ == self.spec_warnings(),
    {
        &self.warnings
    }

    /// A copy with the same text, the same marks in order, and the same
    /// warnings.
    pub fn duplicate(&self) -> (r: ShaderFile)
        ensures
            r.spec_content().spec_text() == self.spec_content().spec_text(),
            crate::id_based_vec::spec_items(r.spec_content().spec_marks())
                == crate::id_based_vec::spec_items(self.spec_content().spec_marks()),
            self.spec_content().wf() ==> r.spec_content().wf(),
            r.spec_warnings() == self.spec_warnings(),
    {
        let content = self.content.duplicate();
        let mut warnings: Vec<Warning> = Vec::new();
        let mut i: usize = 0;
        while i < self.warnings.len()
            invariant
                i <= self.spec_warnings().len(),
                warnings@ == self.spec_warnings().take(i as int),
            decreases self.spec_warnings().len() - i,
        {
            warnings.push(self.warnings[i].duplicate());
            i = i + 1;
            proof {
                assert(warnings@ =~= self.spec_warnings().take(i as int));
            }
        }
        proof {
            assert(self.spec_warnings().take(i as int) =~= self.spec_warnings());
        }
        ShaderFile { content, warnings }
    }
}

// ---------------------------------------------------------------------------
// Comment stripping: the three scans' spans become marks over an interval
// document, and every marked span's content is deleted in slot order, with
// cascading.
// ---------------------------------------------------------------------------

/// All comment spans of a text: block comments, then line comments, then
/// deletion blocks, each set in scan order.
pub open spec fn spec_comment_spans(s: Seq<char>) -> Seq<(int, int)> {
    crate::scan::spec_block_scan(s, 0) + crate::scan::spec_line_scan(s, 0)
        + crate::scan::spec_del_scan(s, 0)
}

/// Spans as a slot table: one entry per mark, present until deleted.
pub open spec fn spec_opt_spans(ps: Seq<(int, int)>) -> Seq<Option<(int, int)>> {
    ps.map(|i: int, p: (int, int)| Some(p))
}

/// One deletion step over a span table: the `k`-th span's text is removed,
/// spans nested inside it go away, and every other span is rebased around
/// the edit (an endpoint pushed left of the edit point stops there).
pub open spec fn spec_strip_one(
    text: Seq<char>,
    spans: Seq<Option<(int, int)>>,
    k: int,
) -> (Seq<char>, Seq<Option<(int, int)>>) {
    if 0 <= k < spans.len() && spans[k] is Some {
        let a = spans[k]->Some_0.0;
        let b = spans[k]->Some_0.1;
        (
            text.take(a) + text.skip(b),
            Seq::new(
                spans.len(),
                |l: int|
                    if l == k {
                        None
                    } else {
                        match spans[l] {
                            Some(p) => {
                                if p.0 >= a && p.0 <= b && p.1 >= a && p.1 <= b {
                                    None
                                } else {
                                    Some(
                                        (
                                            crate::marked_text::spec_shift_point(p.0, a, a - b),
                                            crate::marked_text::spec_shift_point(p.1, a, a - b),
                                        ),
                                    )
                                }
                            },
                            None => None,
                        }
                    },
            ),
        )
    } else {
        (text, spans)
    }
}

/// The state after the first `k` deletion steps.
pub open spec fn spec_strip_upto(
    text: Seq<char>,
    spans: Seq<Option<(int, int)>>,
    k: int,
) -> (Seq<char>, Seq<Option<(int, int)>>)
    decreases k,
{
    if k <= 0 {
        (text, spans)
    } else {
        let st = spec_strip_upto(text, spans, k - 1);
        spec_strip_one(st.0, st.1, k - 1)
    }
}

/// The text with every comment deleted: what stripping leaves of `s`.
pub open spec fn spec_preprocess(s: Seq<char>) -> Seq<char> {
    spec_strip_upto(
        s,
        spec_opt_spans(spec_comment_spans(s)),
        spec_comment_spans(s).len() as int,
    ).0
}

/// The recursive dependency resolver: a main directory for turning
/// requested paths absolute, a permanent cache of resolved files keyed by
/// canonical absolute path, and the context-wide default configuration.
#[derive(Debug)]
pub struct ShaderContext {
    main_dir: String,
    data: Vec<(String, ShaderFile)>,
    def_parse_rules: ParseRules,
}

/// The index of the first cache entry with the given key, if any.
pub open spec fn spec_cache_find(cache: Seq<(String, ShaderFile)>, p: Seq<char>) -> Option<int>
    decreases cache.len(),
{
    if cache.len() == 0 {
        None
    } else if cache[0].0@ == p {
        Some(0)
    } else {
        match spec_cache_find(cache.drop_first(), p) {
            Some(i) => Some(i + 1),
            None => None,
        }
    }
}

impl ShaderContext {
    pub closed spec fn spec_main_dir(&self) -> Seq<char> {
        self.main_dir@
    }

    pub closed spec fn spec_cache(&self) -> Seq<(String, ShaderFile)> {
        self.data@
    }

    pub closed spec fn spec_def_rules(&self) -> ParseRules {
        self.def_parse_rules
    }

    /// Every cached file is well formed, and no path is cached twice.
    pub open spec fn wf(&self) -> bool {
        &&& forall|k: int|
            #![trigger self.spec_cache()[k]]
            0 <= k < self.spec_cache().len() ==> self.spec_cache()[k].1.spec_content().wf()
        &&& forall|k1: int, k2: int|
            0 <= k1 < k2 < self.spec_cache().len() ==> self.spec_cache()[k1].0@
                != self.spec_cache()[k2].0@
    }

    pub open spec fn spec_cached(&self, p: Seq<char>) -> bool {
        spec_cache_find(self.spec_cache(), p) is Some
    }

    /// A resolver rooted at the given directory, with default rules and an
    /// empty cache.
    pub fn from_dir(dir: String) -> (r: ShaderContext)
        ensures
            r.spec_main_dir() == dir@,
            r.spec_cache() == Seq::<(String, ShaderFile)>::empty(),
            r.wf(),
    {
        ShaderContext { main_dir: dir, data: Vec::new(), def_parse_rules: ParseRules::new() }
    }

    /// The context-wide default rules.
    pub fn def_rules(&self) -> (r: &ParseRules)
        ensures
            *r == self.spec_def_rules(),
    {
        &self.def_parse_rules
    }

    /// Changes the context-wide default rules.
    pub fn def_rules_mut(&mut self) -> (r: &mut ParseRules)
        ensures
            *r == old(self).spec_def_rules(),
            final(self).spec_def_rules() == *final(r),
            final(self).spec_main_dir() == old(self).spec_main_dir(),
            final(self).spec_cache() == old(self).spec_cache(),
    {
        &mut self.def_parse_rules
    }

    /// The requested path in canonical absolute form: an absolute path is
    /// normalised as it stands; a relative one is taken from the main
    /// directory first. Nothing can be done when even that is not absolute.
    pub open spec fn spec_to_absolute(&self, path: Seq<char>) -> Option<Seq<char>> {
        if crate::paths::spec_is_absolute(path) {
            Some(crate::paths::dedot_of(path))
        } else if crate::paths::spec_is_absolute(
            crate::paths::spec_join(self.spec_main_dir(), path),
        ) {
            Some(crate::paths::dedot_of(crate::paths::spec_join(self.spec_main_dir(), path)))
        } else {
            None
        }
    }

    /// Turns a requested path absolute and canonical, when the main
    /// directory allows it.
    pub fn to_absolute(&self, path: &String) -> (r: Option<String>)
        ensures
            match r {
                Some(p) => self.spec_to_absolute(path@) == Some(p@) && p@.len() > 0 && p@[0]
                    == '/',
                None => self.spec_to_absolute(path@) is None,
            },
    {
        if crate::paths::is_absolute(path) {
            Some(crate::paths::dedot_absolute(path))
        } else {
            let joined = crate::paths::join_paths(&self.main_dir, path);
            if crate::paths::is_absolute(&joined) {
                Some(crate::paths::dedot_absolute(&joined))
            } else {
                None
            }
        }
    }

    /// Sets the main directory, normalising the given path against the old
    /// one first.
    pub fn set_main_dir(&mut self, dir: String) -> (r: bool)
        ensures
            old(self).spec_to_absolute(dir@) is Some ==> r && final(self).spec_main_dir() == old(
                self,
            ).spec_to_absolute(dir@)->Some_0,
            old(self).spec_to_absolute(dir@) is None ==> !r && final(self).spec_main_dir() == old(
                self,
            ).spec_main_dir(),
            final(self).spec_cache() == old(self).spec_cache(),
            final(self).spec_def_rules() == old(self).spec_def_rules(),
    {
        match self.to_absolute(&dir) {
            Some(p) => {
                self.main_dir = p;
                true
            },
            None => false,
        }
    }

    /// The display form of a path: relative to the main directory.
    pub fn rel_path(&self, path: &String) -> (r: String)
        ensures
            r@ == crate::paths::spec_relative(self.spec_main_dir(), path@),
    {
        crate::paths::get_relative_path(self.main_dir.clone(), path.clone())
    }

    /// Strips the three comment forms from a text: every match of the block
    /// form, the line form and the deletion-block form becomes a mark over
    /// an interval document, and each marked span's content is then deleted
    /// in mark order, cascading into nested marks.
    pub fn preprocess_text(&self, text: String) -> (r: String)
        requires
            text@.len() <= isize::MAX,
        ensures
            r@ == spec_preprocess(text@),
            r@.len() <= text@.len(),
    {
        let ghost t0 = text@;
        let mut spans: Vec<(usize, usize)> = crate::scan::find_block_spans(text.as_str());
        let mut more = crate::scan::find_line_spans(text.as_str());
        spans.append(&mut more);
        let mut dels = crate::scan::find_del_spans(text.as_str());
        spans.append(&mut dels);
        let ghost all = crate::scan::spans_of(spans@);
        proof {
            assert(all =~= spec_comment_spans(t0));
            crate::scan::lemma_block_scan_ok(t0, 0);
            crate::scan::lemma_line_scan_ok(t0, 0);
            crate::scan::lemma_del_scan_ok(t0, 0);
            assert forall|k: int| #![trigger all[k]] 0 <= k < all.len() implies 0 <= all[k].0
                && all[k].0 < all[k].1 <= t0.len() by {
                let nb = crate::scan::spec_block_scan(t0, 0).len();
                let nl = crate::scan::spec_line_scan(t0, 0).len();
                if k < nb {
                    assert(all[k] == crate::scan::spec_block_scan(t0, 0)[k]);
                } else if k < nb + nl {
                    assert(all[k] == crate::scan::spec_line_scan(t0, 0)[k - nb]);
                } else {
                    assert(all[k] == crate::scan::spec_del_scan(t0, 0)[k - nb - nl]);
                }
            }
        }
        let mut comments: MarkedText<()> = MarkedText::new(text);
        let mut k: usize = 0;
        while k < spans.len()
            invariant
                all == crate::scan::spans_of(spans@),
                forall|j: int| #![trigger all[j]] 0 <= j < all.len() ==> 0 <= all[j].0
                    && all[j].0 < all[j].1 <= t0.len(),
                k <= all.len(),
                comments.spec_text() == t0,
                comments.spec_marks().len() == k,
                forall|l: int|
                    #![trigger comments.spec_marks()[l]]
                    0 <= l < k ==> comments.spec_marks()[l] == (crate::id_based_vec::Slot {
                        iteration: 1usize,
                        item: Some(
                            crate::marked_text::Mark {
                                flag: (),
                                start: spans@[l].0,
                                end: spans@[l].1,
                            },
                        ),
                    }),
            decreases all.len() - k,
        {
            let ghost prev = comments.spec_marks();
            proof {
                assert(all[k as int] == (spans@[k as int].0 as int, spans@[k as int].1 as int));
                crate::id_based_vec::lemma_free_slot_all_occupied(prev, 0);
            }
            let p = spans[k];
            let res = comments.set_mark((), p.0, p.1);
            proof {
                assert(res is Ok);
                assert(comments.spec_marks() == crate::id_based_vec::spec_push(
                    prev,
                    (crate::marked_text::Mark { flag: (), start: p.0, end: p.1 }),
                ));
                assert(comments.spec_marks() == prev.push(
                    (crate::id_based_vec::Slot {
                        iteration: 1usize,
                        item: Some(
                            crate::marked_text::Mark { flag: (), start: p.0, end: p.1 },
                        ),
                    }),
                ));
            }
            k = k + 1;
        }
        let ghost spans0 = spec_opt_spans(all);
        proof {
            assert(spec_strip_upto(t0, spans0, 0) == (t0, spans0));
            assert forall|j: int|
                #![trigger comments.spec_marks()[j]]
                0 <= j < comments.spec_marks().len() && comments.spec_marks()[j].item
                    is Some implies {
                &&& comments.spec_marks()[j].item->Some_0.start
                    <= comments.spec_marks()[j].item->Some_0.end
                &&& comments.spec_marks()[j].item->Some_0.end <= comments.spec_text().len()
            } by {
                assert(all[j] == (spans@[j].0 as int, spans@[j].1 as int));
            }
        }
        let n_marks = comments.marks().slots_count();
        let mut l: usize = 0;
        while l < n_marks
            invariant
                n_marks == spans0.len(),
                l <= n_marks,
                comments.wf(),
                comments.spec_marks().len() == n_marks,
                spec_strip_upto(t0, spans0, l as int).1.len() == n_marks,
                spec_strip_upto(t0, spans0, l as int).0 == comments.spec_text(),
                comments.spec_text().len() <= t0.len(),
                t0.len() <= isize::MAX,
                forall|j: int|
                    #![trigger comments.spec_marks()[j]]
                    0 <= j < n_marks ==> (match spec_strip_upto(t0, spans0, l as int).1[j] {
                        Some(p) => comments.spec_marks()[j].item == Some(
                            crate::marked_text::Mark {
                                flag: (),
                                start: p.0 as usize,
                                end: p.1 as usize,
                            },
                        ) && 0 <= p.0 <= p.1 <= spec_strip_upto(t0, spans0, l as int).0.len(),
                        None => comments.spec_marks()[j].item is None,
                    }),
            decreases n_marks - l,
        {
            let ghost st = spec_strip_upto(t0, spans0, l as int);
            let id = match comments.marks().get_id_by_slot(l) {
                Some(id) => id,
                None => {
                    proof {
                        assert(false);
                    }
                    crate::id_based_vec::Identifier::new(0, 0)
                },
            };
            let ghost prev_marks = comments.spec_marks();
            let ghost prev_text = comments.spec_text();
            let _ = comments.delete_mark_and_content(id);
            proof {
                let stn = spec_strip_one(st.0, st.1, l as int);
                assert(spec_strip_upto(t0, spans0, l + 1) == stn);
                if st.1[l as int] is Some {
                    let p = st.1[l as int]->Some_0;
                    let m = crate::marked_text::Mark {
                        flag: (),
                        start: p.0 as usize,
                        end: p.1 as usize,
                    };
                    assert(prev_marks[l as int].item == Some(m));
                    assert(comments.spec_text() =~= stn.0);
                    assert forall|j: int|
                        #![trigger comments.spec_marks()[j]]
                        0 <= j < n_marks implies (match stn.1[j] {
                        Some(q) => comments.spec_marks()[j].item == Some(
                            crate::marked_text::Mark {
                                flag: (),
                                start: q.0 as usize,
                                end: q.1 as usize,
                            },
                        ) && 0 <= q.0 <= q.1 <= stn.0.len(),
                        None => comments.spec_marks()[j].item is None,
                    }) by {
                        assert(comments.spec_marks()[j] == crate::marked_text::spec_replace_base(
                            prev_marks,
                            id.vec_id as int,
                            m,
                            0,
                        ).update(
                            id.vec_id as int,
                            (crate::id_based_vec::Slot {
                                iteration: crate::id_based_vec::advance(id.iteration),
                                item: None,
                            }),
                        )[j]);
                        if j != l {
                            match st.1[j] {
                                Some(q) => {
                                    assert(prev_marks[j].item == Some(
                                        crate::marked_text::Mark {
                                            flag: (),
                                            start: q.0 as usize,
                                            end: q.1 as usize,
                                        },
                                    ));
                                },
                                None => {
                                    assert(prev_marks[j].item is None);
                                },
                            }
                        }
                    }
                } else {
                    assert(prev_marks[l as int].item is None);
                    assert(!(prev_marks[l as int].iteration == id.iteration
                        && prev_marks[l as int].item is Some));
                    assert(comments.spec_text() == stn.0);
                }
            }
            l = l + 1;
        }
        proof {
            assert(spec_preprocess(t0) == spec_strip_upto(t0, spans0, n_marks as int).0);
        }
        comments.text_move()
    }
}

/// Stripping carriage returns never lengthens a text.
pub proof fn lemma_strip_cr_len(s: Seq<char>)
    ensures
        crate::paths::spec_strip_cr(s).len() <= s.len(),
    decreases s.len(),
{
    if s.len() > 0 {
        lemma_strip_cr_len(s.drop_last());
    }
}

/// A found store entry means some entry carries that key.
pub proof fn lemma_store_find_exists(files: Seq<(String, String)>, p: Seq<char>)
    requires
        spec_store_find(files, p) is Some,
    ensures
        exists|k: int| 0 <= k < files.len() && files[k].0@ == p,
    decreases files.len(),
{
    if files.len() > 0 && files[0].0@ != p {
        lemma_store_find_exists(files.drop_first(), p);
        let k0 = choose|k: int|
            0 <= k < files.drop_first().len() && files.drop_first()[k].0@ == p;
        assert(files[k0 + 1].0@ == p);
    }
}

/// Pairwise distinct values that all occur among some keys are no more
/// numerous than the keys.
pub proof fn lemma_distinct_in_keys(vals: Seq<Seq<char>>, keys: Seq<Seq<char>>)
    requires
        forall|i: int, j: int| 0 <= i < j < vals.len() ==> vals[i] != vals[j],
        forall|i: int| #![trigger vals[i]] 0 <= i < vals.len() ==> keys.contains(vals[i]),
    ensures
        vals.len() <= keys.len(),
    decreases vals.len(),
{
    if vals.len() > 0 {
        let last = vals.last();
        assert(keys.contains(last));
        let k0 = choose|k: int| 0 <= k < keys.len() && keys[k] == last;
        let keys2 = keys.remove(k0);
        let vals2 = vals.drop_last();
        assert forall|i: int|
            #![trigger vals2[i]]
            0 <= i < vals2.len() implies keys2.contains(vals2[i]) by {
            assert(vals2[i] == vals[i]);
            assert(keys.contains(vals[i]));
            let kw = choose|k: int| 0 <= k < keys.len() && keys[k] == vals[i];
            if kw < k0 {
                assert(keys2[kw] == keys[kw]);
                assert(keys2.contains(keys2[kw]));
            } else {
                assert(kw != k0);
                assert(keys2[kw - 1] == keys[kw]);
                assert(keys2.contains(keys2[kw - 1]));
            }
        }
        assert(forall|i: int, j: int| 0 <= i < j < vals2.len() ==> vals2[i] != vals2[j]);
        lemma_distinct_in_keys(vals2, keys2);
    }
}

/// A fresh key appended to the cache is found at the end; other keys keep
/// their place.
pub proof fn lemma_cache_find_push(
    cache: Seq<(String, ShaderFile)>,
    entry: (String, ShaderFile),
    p: Seq<char>,
)
    ensures
        spec_cache_find(cache, p) is Some ==> spec_cache_find(cache.push(entry), p)
            == spec_cache_find(cache, p) && cache.push(entry)[spec_cache_find(cache, p)->Some_0]
            == cache[spec_cache_find(cache, p)->Some_0],
        spec_cache_find(cache, p) is None && entry.0@ == p ==> spec_cache_find(
            cache.push(entry),
            p,
        ) == Some(cache.len() as int),
        spec_cache_find(cache, p) is None && entry.0@ != p ==> spec_cache_find(
            cache.push(entry),
            p,
        ) is None,
    decreases cache.len(),
{
    if cache.len() > 0 {
        assert(cache.push(entry)[0] == cache[0]);
        if cache[0].0@ != p {
            lemma_cache_find_push(cache.drop_first(), entry, p);
            lemma_cache_find_bounds(cache.drop_first(), p);
            assert(cache.push(entry).drop_first() =~= cache.drop_first().push(entry));
            if spec_cache_find(cache.drop_first(), p) is Some {
                let j = spec_cache_find(cache.drop_first(), p)->Some_0;
                assert(cache.push(entry)[j + 1] == cache.drop_first().push(entry)[j]);
                assert(cache[j + 1] == cache.drop_first()[j]);
            }
            if spec_cache_find(cache, p) is None && entry.0@ != p {
                assert(spec_cache_find(cache.drop_first(), p) is None);
                assert(spec_cache_find(cache.drop_first().push(entry), p) is None);
                assert(spec_cache_find(cache.push(entry).drop_first(), p) is None);
                assert(spec_cache_find(cache.push(entry), p) is None);
            }
        } else {
            lemma_cache_find_bounds(cache, p);
        }
    } else {
        assert(cache.push(entry)[0] == entry);
        assert(cache.push(entry).drop_first() =~= Seq::<(String, ShaderFile)>::empty());
    }
}

/// A found cache index is in bounds and carries the key.
pub proof fn lemma_cache_find_bounds(cache: Seq<(String, ShaderFile)>, p: Seq<char>)
    ensures
        spec_cache_find(cache, p) is Some ==> {
            let i = spec_cache_find(cache, p)->Some_0;
            0 <= i < cache.len() && cache[i].0@ == p
        },
    decreases cache.len(),
{
    if cache.len() > 0 && cache[0].0@ != p {
        lemma_cache_find_bounds(cache.drop_first(), p);
    }
}

/// A path the store does not find is carried by no entry.
pub proof fn lemma_store_find_none_all_diff(files: Seq<(String, String)>, p: Seq<char>)
    requires
        spec_store_find(files, p) is None,
    ensures
        forall|k: int| #![trigger files[k]] 0 <= k < files.len() ==> files[k].0@ != p,
    decreases files.len(),
{
    if files.len() > 0 {
        lemma_store_find_none_all_diff(files.drop_first(), p);
        assert forall|k: int| #![trigger files[k]] 0 <= k < files.len() implies files[k].0@
            != p by {
            if k > 0 {
                assert(files.drop_first()[k - 1] == files[k]);
            }
        }
    }
}

/// A key the cache does not find is carried by no entry.
pub proof fn lemma_cache_find_none_all_diff(cache: Seq<(String, ShaderFile)>, p: Seq<char>)
    requires
        spec_cache_find(cache, p) is None,
    ensures
        forall|k: int| #![trigger cache[k]] 0 <= k < cache.len() ==> cache[k].0@ != p,
    decreases cache.len(),
{
    if cache.len() > 0 {
        lemma_cache_find_none_all_diff(cache.drop_first(), p);
        assert forall|k: int| #![trigger cache[k]] 0 <= k < cache.len() implies cache[k].0@
            != p by {
            if k > 0 {
                assert(cache.drop_first()[k - 1] == cache[k]);
            }
        }
    }
}

/// A found text in a well-formed store is within the machine bound.
pub proof fn lemma_store_find_wf(files: Seq<(String, String)>, p: Seq<char>)
    requires
        forall|k: int| #![trigger files[k]] 0 <= k < files.len() ==> files[k].1@.len()
            <= isize::MAX,
        spec_store_find(files, p) is Some,
    ensures
        spec_store_find(files, p)->Some_0.len() <= isize::MAX,
    decreases files.len(),
{
    if files.len() > 0 && files[0].0@ != p {
        assert forall|k: int| #![trigger files.drop_first()[k]] 0 <= k < files.drop_first().len()
            implies files.drop_first()[k].1@.len() <= isize::MAX by {
            assert(files.drop_first()[k] == files[k + 1]);
        }
        lemma_store_find_wf(files.drop_first(), p);
    }
}

/// Every resolution-stack entry is a stored file, and no file repeats.
pub open spec fn spec_stack_ok(stack: Seq<String>, files: Seq<(String, String)>) -> bool {
    &&& forall|i: int|
        #![trigger stack[i]]
        0 <= i < stack.len() ==> spec_store_find(files, stack[i]@) is Some
    &&& forall|i: int, j: int| 0 <= i < j < stack.len() ==> stack[i]@ != stack[j]@
}

pub open spec fn spec_in_stack(stack: Seq<String>, p: Seq<char>) -> bool {
    exists|i: int| 0 <= i < stack.len() && stack[i]@ == p
}

/// A well-formed stack cannot outgrow the store.
pub proof fn lemma_stack_le_store(stack: Seq<String>, files: Seq<(String, String)>)
    requires
        spec_stack_ok(stack, files),
    ensures
        stack.len() <= files.len(),
{
    let vals = str_views(stack);
    let keys = files.map(|i: int, f: (String, String)| f.0@);
    assert forall|i: int|
        #![trigger vals[i]]
        0 <= i < vals.len() implies keys.contains(vals[i]) by {
        assert(stack[i] == stack[i]);
        lemma_store_find_exists(files, stack[i]@);
        let k0 = choose|k: int| 0 <= k < files.len() && files[k].0@ == stack[i]@;
        assert(keys[k0] == vals[i]);
        assert(keys.contains(keys[k0]));
    }
    assert forall|i: int, j: int| 0 <= i < j < vals.len() implies vals[i] != vals[j] by {
        assert(stack[i]@ != stack[j]@);
    }
    lemma_distinct_in_keys(vals, keys);
}

/// The first stack position carrying the path, searching from `i` up to
/// `upto`.
pub open spec fn spec_hit(stack: Seq<String>, p: Seq<char>, i: int, upto: int) -> Option<int>
    decreases upto - i,
{
    if i < 0 || i >= upto || upto > stack.len() {
        None
    } else if stack[i]@ == p {
        Some(i)
    } else {
        spec_hit(stack, p, i + 1, upto)
    }
}

/// A found stack position carries the path.
pub proof fn lemma_hit_some(stack: Seq<String>, p: Seq<char>, i: int, upto: int)
    requires
        spec_hit(stack, p, i, upto) is Some,
    ensures
        ({
            let h = spec_hit(stack, p, i, upto)->Some_0;
            i <= h < upto && upto <= stack.len() && stack[h]@ == p
        }),
    decreases upto - i,
{
    if !(i < 0 || i >= upto || upto > stack.len()) && stack[i]@ != p {
        lemma_hit_some(stack, p, i + 1, upto);
    }
}

/// Two stacks that agree below `upto` agree on where a path first appears.
pub proof fn lemma_hit_prefix(a: Seq<String>, b: Seq<String>, p: Seq<char>, i: int, upto: int)
    requires
        upto <= a.len(),
        upto <= b.len(),
        forall|j: int| 0 <= j < upto ==> a[j] == b[j],
    ensures
        spec_hit(a, p, i, upto) == spec_hit(b, p, i, upto),
    decreases upto - i,
{
    if 0 <= i && i < upto {
        lemma_hit_prefix(a, b, p, i + 1, upto);
    }
}

/// A path absent from the prefix but sitting at the end is first found
/// there.
pub proof fn lemma_hit_last(stack: Seq<String>, p: Seq<char>, i: int)
    requires
        0 <= i,
        stack.len() > 0,
        stack.last()@ == p,
        forall|j: int| 0 <= j < stack.len() - 1 ==> stack[j]@ != p,
    ensures
        i < stack.len() ==> spec_hit(stack, p, i, stack.len() as int) == Some(
            stack.len() - 1,
        ),
    decreases stack.len() - i,
{
    if i < stack.len() - 1 {
        lemma_hit_last(stack, p, i + 1);
    }
}

/// The canonical target a directive names, resolved against the including
/// file's directory.
pub open spec fn spec_target(par: Seq<char>, text: Seq<char>, q: (int, int, int, int)) -> Seq<
    char,
> {
    crate::paths::dedot_of(crate::paths::spec_join(par, text.subrange(q.2, q.3)))
}

/// The text cached under a canonical path (empty when none is).
pub open spec fn spec_cached_text(cache: Seq<(String, ShaderFile)>, p: Seq<char>) -> Seq<char> {
    match spec_cache_find(cache, p) {
        Some(i) => cache[i].1.spec_content().spec_text(),
        None => Seq::empty(),
    }
}

/// Where the text before directive `k` ends.
pub open spec fn spec_prev_end(qs: Seq<(int, int, int, int)>, k: int) -> int {
    if k <= 0 {
        0
    } else {
        qs[k - 1].1
    }
}

/// The expanded text up to directive `k`: the segments between directives,
/// each directive's span replaced by its target's cached text.
pub open spec fn spec_expanded_prefix(
    text: Seq<char>,
    qs: Seq<(int, int, int, int)>,
    par: Seq<char>,
    cache: Seq<(String, ShaderFile)>,
    k: int,
) -> Seq<char>
    decreases k,
{
    if k <= 0 {
        Seq::empty()
    } else {
        spec_expanded_prefix(text, qs, par, cache, k - 1) + text.subrange(
            spec_prev_end(qs, k - 1),
            qs[k - 1].0,
        ) + spec_cached_text(cache, spec_target(par, text, qs[k - 1]))
    }
}

/// The fully expanded text when every target is served from the cache.
pub open spec fn spec_expanded(
    text: Seq<char>,
    qs: Seq<(int, int, int, int)>,
    par: Seq<char>,
    cache: Seq<(String, ShaderFile)>,
) -> Seq<char> {
    spec_expanded_prefix(text, qs, par, cache, qs.len() as int) + text.skip(
        spec_prev_end(qs, qs.len() as int),
    )
}

/// Each splice in turn stays within the machine bound, starting from a text
/// of the given length.
pub open spec fn spec_splices_fit(
    len: int,
    text: Seq<char>,
    qs: Seq<(int, int, int, int)>,
    par: Seq<char>,
    cache: Seq<(String, ShaderFile)>,
    k: int,
) -> bool
    decreases qs.len() - k,
{
    if k < 0 || k >= qs.len() {
        true
    } else {
        let rep = spec_cached_text(cache, spec_target(par, text, qs[k])).len();
        &&& len + rep <= isize::MAX
        &&& spec_splices_fit(len - (qs[k].1 - qs[k].0) + rep, text, qs, par, cache, k + 1)
    }
}

/// Every directive target is already cached.
pub open spec fn spec_targets_cached(
    cache: Seq<(String, ShaderFile)>,
    text: Seq<char>,
    qs: Seq<(int, int, int, int)>,
    par: Seq<char>,
) -> bool {
    forall|k: int|
        #![trigger qs[k]]
        0 <= k < qs.len() ==> spec_cache_find(cache, spec_target(par, text, qs[k])) is Some
}

/// One splice step of a resolution whose targets are all cached: the
/// document, in the state the invariants describe before directive `k0` is
/// spliced, moves to the state they describe after it.
#[verifier::rlimit(80)]
proof fn lemma_fast_splice_step(
    text0: Seq<char>,
    qs: Seq<(int, int, int, int)>,
    par: Seq<char>,
    cache0: Seq<(String, ShaderFile)>,
    k0: int,
    textb: Seq<char>,
    marksb: Seq<crate::id_based_vec::Slot<crate::marked_text::Mark<String>>>,
    texta: Seq<char>,
    marksa: Seq<crate::id_based_vec::Slot<crate::marked_text::Mark<String>>>,
    rep: Seq<char>,
    citems: Seq<crate::marked_text::Mark<String>>,
)
    requires
        0 <= k0 < qs.len(),
        crate::scan::directive_quads_ok(text0, 0, qs),
        textb == spec_expanded_prefix(text0, qs, par, cache0, k0) + text0.skip(
            spec_prev_end(qs, k0),
        ),
        marksb.len() >= qs.len(),
        forall|k: int|
            #![trigger marksb[k]]
            k0 <= k < qs.len() ==> {
                &&& marksb[k].iteration == 1
                &&& marksb[k].item is Some
                &&& marksb[k].item->Some_0.flag@ == spec_target(par, text0, qs[k])
                &&& crate::paths::spec_is_absolute(marksb[k].item->Some_0.flag@)
                &&& marksb[k].item->Some_0.start == qs[k].0 - spec_prev_end(qs, k0)
                    + spec_expanded_prefix(text0, qs, par, cache0, k0).len()
                &&& marksb[k].item->Some_0.end == qs[k].1 - spec_prev_end(qs, k0)
                    + spec_expanded_prefix(text0, qs, par, cache0, k0).len()
            },
        forall|j: int|
            #![trigger marksb[j]]
            0 <= j < marksb.len() && marksb[j].item is Some && !(k0 <= j < qs.len())
                ==> marksb[j].item->Some_0.end <= spec_expanded_prefix(
                text0,
                qs,
                par,
                cache0,
                k0,
            ).len(),
        rep == spec_cached_text(cache0, spec_target(par, text0, qs[k0])),
        textb.len() + rep.len() <= isize::MAX,
        forall|i: int|
            #![trigger citems[i]]
            0 <= i < citems.len() ==> citems[i].start <= citems[i].end && citems[i].end
                <= rep.len(),
        texta == textb.take(marksb[k0].item->Some_0.start as int) + rep + textb.skip(
            marksb[k0].item->Some_0.end as int,
        ),
        marksa == crate::id_based_vec::spec_push_all(
            crate::marked_text::spec_replace_base(
                marksb,
                k0,
                marksb[k0].item->Some_0,
                rep.len() as int,
            ),
            crate::marked_text::spec_offset_marks(
                citems,
                marksb[k0].item->Some_0.start as int,
            ),
        ),
    ensures
        texta == spec_expanded_prefix(text0, qs, par, cache0, k0 + 1) + text0.skip(
            spec_prev_end(qs, k0 + 1),
        ),
        marksa.len() >= qs.len(),
        forall|k: int|
            #![trigger marksa[k]]
            k0 + 1 <= k < qs.len() ==> {
                &&& marksa[k].iteration == 1
                &&& marksa[k].item is Some
                &&& marksa[k].item->Some_0.flag@ == spec_target(par, text0, qs[k])
                &&& crate::paths::spec_is_absolute(marksa[k].item->Some_0.flag@)
                &&& marksa[k].item->Some_0.start == qs[k].0 - spec_prev_end(qs, k0 + 1)
                    + spec_expanded_prefix(text0, qs, par, cache0, k0 + 1).len()
                &&& marksa[k].item->Some_0.end == qs[k].1 - spec_prev_end(qs, k0 + 1)
                    + spec_expanded_prefix(text0, qs, par, cache0, k0 + 1).len()
            },
        forall|j: int|
            #![trigger marksa[j]]
            0 <= j < marksa.len() && marksa[j].item is Some && !(k0 + 1 <= j < qs.len())
                ==> marksa[j].item->Some_0.end <= spec_expanded_prefix(
                text0,
                qs,
                par,
                cache0,
                k0 + 1,
            ).len(),
{
    let pe = spec_prev_end(qs, k0);
    let pre = spec_expanded_prefix(text0, qs, par, cache0, k0);
    let pre1 = spec_expanded_prefix(text0, qs, par, cache0, k0 + 1);
    let m = marksb[k0].item->Some_0;
    let base = crate::marked_text::spec_replace_base(marksb, k0, m, rep.len() as int);
    let offs = crate::marked_text::spec_offset_marks(citems, m.start as int);
    let delta = rep.len() - (m.end - m.start);
    assert(0 <= qs[k0].0 < qs[k0].1 <= text0.len());
    assert(pe <= qs[k0].0) by {
        if k0 > 0 {
            assert(qs[k0 - 1].1 <= qs[k0].0);
        }
    }
    assert(m.start == qs[k0].0 - pe + pre.len());
    assert(m.end == qs[k0].1 - pe + pre.len());
    assert(textb.len() == pre.len() + (text0.len() - pe));
    assert(m.start + rep.len() <= isize::MAX);
    assert(m.end <= textb.len());
    // the new prefix is the old one, the segment before the directive, and
    // the spliced text
    assert(pre1 == pre + text0.subrange(pe, qs[k0].0) + rep);
    assert(textb.take(m.start as int) =~= pre + text0.skip(pe).take(qs[k0].0 - pe));
    assert(text0.skip(pe).take(qs[k0].0 - pe) =~= text0.subrange(pe, qs[k0].0));
    assert(textb.skip(m.end as int) =~= text0.skip(pe).skip(qs[k0].1 - pe));
    assert(text0.skip(pe).skip(qs[k0].1 - pe) =~= text0.skip(qs[k0].1));
    assert(texta =~= pre1 + text0.skip(spec_prev_end(qs, k0 + 1)));
    assert(pre1.len() == m.start + rep.len());
    // marks: the base transform, then the framed pushes
    crate::id_based_vec::lemma_push_all_frame(base, offs);
    assert(marksa.len() >= qs.len());
    assert forall|k: int|
        #![trigger marksa[k]]
        k0 + 1 <= k < qs.len() implies {
        &&& marksa[k].iteration == 1
        &&& marksa[k].item is Some
        &&& marksa[k].item->Some_0.flag@ == spec_target(par, text0, qs[k])
        &&& crate::paths::spec_is_absolute(marksa[k].item->Some_0.flag@)
        &&& marksa[k].item->Some_0.start == qs[k].0 - spec_prev_end(qs, k0 + 1) + pre1.len()
        &&& marksa[k].item->Some_0.end == qs[k].1 - spec_prev_end(qs, k0 + 1) + pre1.len()
    } by {
        let e = marksb[k].item->Some_0;
        assert(qs[k0].1 <= qs[k].0 && qs[k].0 < qs[k].1);
        assert(!crate::marked_text::nested_in(e, m.start as int, m.end as int));
        assert(base[k].item == Some(
            crate::marked_text::spec_shift_mark(e, m.start as int, delta),
        ));
        assert(base[k].iteration == 1);
        assert(e.start + delta >= m.start && e.end + delta >= m.start);
        assert(marksa[k] == base[k]);
    }
    assert forall|j: int|
        #![trigger marksa[j]]
        0 <= j < marksa.len() && marksa[j].item is Some && !(k0 + 1 <= j < qs.len())
            implies marksa[j].item->Some_0.end <= pre1.len() by {
        if j < base.len() && marksa[j] == base[j] {
            if j == k0 {
                assert(base[j].item->Some_0.end == m.start + rep.len());
            } else if marksb[j].item is Some {
                let e = marksb[j].item->Some_0;
                if crate::marked_text::nested_in(e, m.start as int, m.end as int) {
                    assert(base[j].item is None);
                } else {
                    assert(!(k0 <= j < qs.len()));
                    assert(e.end <= pre.len());
                    assert(e.end <= m.start);
                    assert(base[j].item->Some_0.end == e.end);
                    assert(pre.len() <= pre1.len());
                }
            } else {
                assert(base[j].item is None);
            }
        } else {
            assert(offs.contains(marksa[j].item->Some_0));
            let i = choose|i: int| 0 <= i < offs.len() && offs[i] == marksa[j].item->Some_0;
            assert(offs[i].end == citems[i].end + m.start);
        }
    }
}

/// The display form of a cycle: each chain entry relative to the main
/// directory.
pub open spec fn spec_cycle(main: Seq<char>, chain: Seq<Seq<char>>) -> Seq<Seq<char>> {
    chain.map(|i: int, f: Seq<char>| crate::paths::spec_relative(main, f))
}

impl ShaderContext {
    /// The index of a cached path.
    fn cache_lookup(&self, path: &String) -> (r: Option<usize>)
        ensures
            match r {
                Some(i) => spec_cache_find(self.spec_cache(), path@) == Some(i as int),
                None => spec_cache_find(self.spec_cache(), path@) is None,
            },
    {
        let mut i: usize = 0;
        proof {
            assert(self.spec_cache().skip(0) =~= self.spec_cache());
        }
        while i < self.data.len()
            invariant
                i <= self.spec_cache().len(),
                (match spec_cache_find(self.spec_cache().skip(i as int), path@) {
                    Some(j) => spec_cache_find(self.spec_cache(), path@) == Some(j + i),
                    None => spec_cache_find(self.spec_cache(), path@) is None,
                }),
            decreases self.spec_cache().len() - i,
        {
            if self.data[i].0 == *path {
                proof {
                    assert(self.spec_cache().skip(i as int)[0] == self.spec_cache()[i as int]);
                }
                return Some(i);
            }
            i = i + 1;
            proof {
                assert(self.spec_cache().skip(i - 1).drop_first() =~= self.spec_cache().skip(
                    i as int,
                ));
                assert(self.spec_cache().skip(i - 1)[0] == self.spec_cache()[i - 1]);
            }
        }
        proof {
            assert(self.spec_cache().skip(i as int) =~= Seq::<(String, ShaderFile)>::empty());
        }
        None
    }

    /// Scans a stripped text for expansion directives and marks each
    /// directive's span with the target's canonical absolute path, resolved
    /// against the file's own directory.
    pub fn find_replaces(&self, text: String, filepath: &String) -> (r: Result<
        MarkedText<String>,
        ExpandError,
    >)
        requires
            crate::paths::spec_is_absolute(filepath@),
        ensures
            match r {
                Ok(doc) => {
                    let qs = crate::scan::spec_directive_scan(text@, 0);
                    let par = crate::paths::spec_parent(filepath@)->Some_0;
                    &&& crate::paths::spec_parent(filepath@) is Some
                    &&& doc.spec_text() == text@
                    &&& doc.wf()
                    &&& doc.spec_marks().len() == qs.len()
                    &&& forall|k: int|
                        #![trigger doc.spec_marks()[k]]
                        0 <= k < qs.len() ==> {
                            &&& doc.spec_marks()[k].iteration == 1
                            &&& doc.spec_marks()[k].item is Some
                            &&& doc.spec_marks()[k].item->Some_0.start == qs[k].0
                            &&& doc.spec_marks()[k].item->Some_0.end == qs[k].1
                            &&& doc.spec_marks()[k].item->Some_0.flag@ == crate::paths::dedot_of(
                                crate::paths::spec_join(par, text@.subrange(qs[k].2, qs[k].3)),
                            )
                            &&& crate::paths::spec_is_absolute(
                                doc.spec_marks()[k].item->Some_0.flag@,
                            )
                        }
                },
                Err(e) => crate::paths::spec_parent(filepath@) is None && (e matches
                ExpandError::UnableToGetFileParent { file } && file@
                    == crate::paths::spec_relative(self.spec_main_dir(), filepath@)),
            },
    {
        let parent = match crate::paths::parent_of(filepath) {
            Some(p) => p,
            None => {
                return Err(ExpandError::UnableToGetFileParent { file: self.rel_path(filepath) });
            },
        };
        proof {
            crate::paths::lemma_parent_absolute(filepath@);
        }
        let quads = crate::scan::find_directives(text.as_str());
        let ghost qs = crate::scan::spec_directive_scan(text@, 0);
        proof {
            crate::scan::lemma_directive_scan_sorted(text@, 0);
        }
        let mut doc: MarkedText<String> = MarkedText::new(text);
        let mut k: usize = 0;
        while k < quads.len()
            invariant
                doc.spec_text() == text@,
                qs == crate::scan::quads_of(quads@),
                qs == crate::scan::spec_directive_scan(doc.spec_text(), 0),
                crate::scan::directive_quads_ok(doc.spec_text(), 0, qs),
                crate::paths::spec_parent(filepath@) == Some(parent@),
                crate::paths::spec_is_absolute(parent@),
                k <= qs.len(),
                doc.spec_marks().len() == k,
                forall|l: int|
                    #![trigger doc.spec_marks()[l]]
                    0 <= l < k ==> {
                        &&& doc.spec_marks()[l].iteration == 1
                        &&& doc.spec_marks()[l].item is Some
                        &&& doc.spec_marks()[l].item->Some_0.start == qs[l].0
                        &&& doc.spec_marks()[l].item->Some_0.end == qs[l].1
                        &&& doc.spec_marks()[l].item->Some_0.flag@ == crate::paths::dedot_of(
                            crate::paths::spec_join(
                                parent@,
                                doc.spec_text().subrange(qs[l].2, qs[l].3),
                            ),
                        )
                        &&& crate::paths::spec_is_absolute(doc.spec_marks()[l].item->Some_0.flag@)
                    },
            decreases qs.len() - k,
        {
            let ghost prev = doc.spec_marks();
            proof {
                assert(qs[k as int] == (
                    quads@[k as int].0 as int,
                    quads@[k as int].1 as int,
                    quads@[k as int].2 as int,
                    quads@[k as int].3 as int,
                ));
                crate::id_based_vec::lemma_free_slot_all_occupied(prev, 0);
            }
            let q = quads[k];
            let fname = doc.text().as_str().substring_char(q.2, q.3).to_owned();
            let joined = crate::paths::join_paths(&parent, &fname);
            proof {
                assert(crate::paths::spec_is_absolute(joined@));
            }
            let target = crate::paths::dedot_absolute(&joined);
            let res = doc.set_mark(target, q.0, q.1);
            proof {
                assert(res is Ok);
                assert(doc.spec_marks() == prev.push(
                    (crate::id_based_vec::Slot {
                        iteration: 1usize,
                        item: Some(
                            crate::marked_text::Mark { flag: target, start: q.0, end: q.1 },
                        ),
                    }),
                ));
            }
            k = k + 1;
        }
        proof {
            assert forall|j: int|
                #![trigger doc.spec_marks()[j]]
                0 <= j < doc.spec_marks().len() && doc.spec_marks()[j].item is Some implies {
                &&& doc.spec_marks()[j].item->Some_0.start <= doc.spec_marks()[j].item->Some_0.end
                &&& doc.spec_marks()[j].item->Some_0.end <= doc.spec_text().len()
            } by {
                assert(qs[j] == qs[j]);
            }
        }
        Ok(doc)
    }

    /// Reports a cycle: when the target path already sits in the given
    /// prefix of the resolution stack, resolution fails with the chain from
    /// that point, the current file appended.
    fn check_recursion(
        &self,
        check_file: &String,
        prev_files: &Vec<String>,
        upto: usize,
        origin_file: &String,
    ) -> (r: Result<(), ExpandError>)
        requires
            upto <= prev_files@.len(),
        ensures
            match spec_hit(prev_files@, check_file@, 0, upto as int) {
                None => r is Ok,
                Some(i0) => (r matches Err(ExpandError::InfiniteRecursion { files })
                    && str_views(files@) == spec_cycle(
                    self.spec_main_dir(),
                    str_views(prev_files@).subrange(i0, upto as int).push(origin_file@),
                )),
            },
    {
        let mut i: usize = 0;
        while i < upto
            invariant
                upto <= prev_files@.len(),
                i <= upto,
                spec_hit(prev_files@, check_file@, 0, upto as int) == spec_hit(
                    prev_files@,
                    check_file@,
                    i as int,
                    upto as int,
                ),
            decreases upto - i,
        {
            if prev_files[i] == *check_file {
                let ghost chain = str_views(prev_files@).subrange(i as int, upto as int).push(
                    origin_file@,
                );
                let mut files: Vec<String> = Vec::new();
                let mut j = i;
                while j < upto
                    invariant
                        i <= j <= upto,
                        upto <= prev_files@.len(),
                        str_views(files@) == spec_cycle(
                            self.spec_main_dir(),
                            str_views(prev_files@).subrange(i as int, j as int),
                        ),
                    decreases upto - j,
                {
                    let ghost prevf = files@;
                    files.push(self.rel_path(&prev_files[j]));
                    j = j + 1;
                    proof {
                        let main = self.spec_main_dir();
                        let sub = str_views(prev_files@).subrange(i as int, j as int);
                        let subp = str_views(prev_files@).subrange(i as int, j - 1);
                        assert(str_views(prevf).len() == prevf.len());
                        assert(prevf.len() == j - 1 - i);
                        assert forall|k: int| 0 <= k < sub.len() implies str_views(files@)[k]
                            == spec_cycle(main, sub)[k] by {
                            assert(str_views(files@)[k] == files@[k]@);
                            assert(spec_cycle(main, sub)[k] == crate::paths::spec_relative(
                                main,
                                sub[k],
                            ));
                            if k < sub.len() - 1 {
                                assert(files@[k] == prevf[k]);
                                assert(str_views(prevf)[k] == prevf[k]@);
                                assert(str_views(prevf)[k] == spec_cycle(main, subp)[k]);
                                assert(spec_cycle(main, subp)[k] == crate::paths::spec_relative(
                                    main,
                                    subp[k],
                                ));
                                assert(sub[k] == subp[k]);
                            } else {
                                assert(sub[k] == str_views(prev_files@)[j - 1]);
                                assert(str_views(prev_files@)[j - 1] == prev_files@[j - 1]@);
                                assert(files@[k]@ == crate::paths::spec_relative(
                                    main,
                                    prev_files@[j - 1]@,
                                ));
                            }
                        }
                        assert(str_views(files@).len() == sub.len());
                        assert(str_views(files@) =~= spec_cycle(main, sub));
                    }
                }
                let ghost prevf = files@;
                files.push(self.rel_path(origin_file));
                proof {
                    let main = self.spec_main_dir();
                    let subp = str_views(prev_files@).subrange(i as int, upto as int);
                    assert(str_views(prevf).len() == prevf.len());
                    assert(prevf.len() == upto - i);
                    assert forall|k: int| 0 <= k < chain.len() implies str_views(files@)[k]
                        == spec_cycle(main, chain)[k] by {
                        assert(str_views(files@)[k] == files@[k]@);
                        assert(spec_cycle(main, chain)[k] == crate::paths::spec_relative(
                            main,
                            chain[k],
                        ));
                        if k < chain.len() - 1 {
                            assert(files@[k] == prevf[k]);
                            assert(str_views(prevf)[k] == prevf[k]@);
                            assert(str_views(prevf)[k] == spec_cycle(main, subp)[k]);
                            assert(spec_cycle(main, subp)[k] == crate::paths::spec_relative(
                                main,
                                subp[k],
                            ));
                            assert(chain[k] == subp[k]);
                        } else {
                            assert(chain[k] == origin_file@);
                            assert(files@[k]@ == crate::paths::spec_relative(main, origin_file@));
                        }
                    }
                    assert(str_views(files@).len() == chain.len());
                    assert(str_views(files@) =~= spec_cycle(main, chain));
                }
                return Err(ExpandError::InfiniteRecursion { files });
            }
            i = i + 1;
        }
        Ok(())
    }
}

/// When the mark an identifier names is gone, every same-flag pair keeps a
/// later witness in the enumeration.
proof fn lemma_pair_step_skip(
    marks: Seq<crate::id_based_vec::Slot<crate::marked_text::Mark<String>>>,
    ids: Seq<crate::id_based_vec::Identifier>,
    idx: int,
)
    requires
        0 <= idx < ids.len(),
        ids[idx].vec_id < marks.len() ==> marks[ids[idx].vec_id as int].item is None,
        forall|j1: int, j2: int|
            #![trigger marks[j1], marks[j2]]
            0 <= j1 < marks.len() && 0 <= j2 < marks.len() && j1 != j2 && marks[j1].item is Some
                && marks[j2].item is Some && marks[j1].item->Some_0.flag@
                == marks[j2].item->Some_0.flag@ ==> exists|k: int|
                idx <= k < ids.len() && (ids[k].vec_id == j1 || ids[k].vec_id == j2),
    ensures
        forall|j1: int, j2: int|
            #![trigger marks[j1], marks[j2]]
            0 <= j1 < marks.len() && 0 <= j2 < marks.len() && j1 != j2 && marks[j1].item is Some
                && marks[j2].item is Some && marks[j1].item->Some_0.flag@
                == marks[j2].item->Some_0.flag@ ==> exists|k: int|
                idx + 1 <= k < ids.len() && (ids[k].vec_id == j1 || ids[k].vec_id == j2),
{
    assert forall|j1: int, j2: int|
        #![trigger marks[j1], marks[j2]]
        0 <= j1 < marks.len() && 0 <= j2 < marks.len() && j1 != j2 && marks[j1].item is Some
            && marks[j2].item is Some && marks[j1].item->Some_0.flag@
            == marks[j2].item->Some_0.flag@ implies exists|k: int|
        idx + 1 <= k < ids.len() && (ids[k].vec_id == j1 || ids[k].vec_id == j2) by {
        let k0 = choose|k: int|
            idx <= k < ids.len() && (ids[k].vec_id == j1 || ids[k].vec_id == j2);
        assert(k0 != idx);
    }
}

/// No stack prefix position holds the path when the search comes up empty.
pub proof fn lemma_hit_none(stack: Seq<String>, p: Seq<char>, i: int, upto: int)
    requires
        0 <= i,
        spec_hit(stack, p, i, upto) is None,
        upto <= stack.len(),
    ensures
        forall|j: int| i <= j < upto ==> stack[j]@ != p,
    decreases upto - i,
{
    if 0 <= i < upto {
        lemma_hit_none(stack, p, i + 1, upto);
    }
}

/// A key absent from a cache stays absent when only other keys are added.
pub proof fn lemma_cache_find_all_diff(c: Seq<(String, ShaderFile)>, p: Seq<char>)
    requires
        forall|k: int| #![trigger c[k]] 0 <= k < c.len() ==> c[k].0@ != p,
    ensures
        spec_cache_find(c, p) is None,
    decreases c.len(),
{
    if c.len() > 0 {
        assert(c.drop_first() =~= c.subrange(1, c.len() as int));
        assert forall|k: int| #![trigger c.drop_first()[k]] 0 <= k < c.drop_first().len()
            implies c.drop_first()[k].0@ != p by {
            assert(c.drop_first()[k] == c[k + 1]);
        }
        lemma_cache_find_all_diff(c.drop_first(), p);
    }
}

/// A key absent from a cache stays absent under an extension whose new
/// entries all carry other keys.
pub proof fn lemma_cache_find_extend_none(
    c1: Seq<(String, ShaderFile)>,
    c2: Seq<(String, ShaderFile)>,
    p: Seq<char>,
)
    requires
        c1.len() <= c2.len(),
        forall|k: int| #![trigger c2[k]] 0 <= k < c1.len() ==> c2[k] == c1[k],
        forall|k: int| #![trigger c2[k]] c1.len() <= k < c2.len() ==> c2[k].0@ != p,
        spec_cache_find(c1, p) is None,
    ensures
        spec_cache_find(c2, p) is None,
    decreases c1.len(),
{
    if c1.len() == 0 {
        lemma_cache_find_all_diff(c2, p);
    } else {
        assert(c2[0] == c1[0]);
        assert forall|k: int| #![trigger c2.drop_first()[k]] 0 <= k < c1.drop_first().len()
            implies c2.drop_first()[k] == c1.drop_first()[k] by {
            assert(c2.drop_first()[k] == c2[k + 1]);
            assert(c1.drop_first()[k] == c1[k + 1]);
        }
        assert forall|k: int| #![trigger c2.drop_first()[k]] c1.drop_first().len() <= k
            < c2.drop_first().len() implies c2.drop_first()[k].0@ != p by {
            assert(c2.drop_first()[k] == c2[k + 1]);
        }
        lemma_cache_find_extend_none(c1.drop_first(), c2.drop_first(), p);
    }
}

/// The position in a target group of the copy that survives: the first
/// member whose start is minimal (earliest in the document, earliest slot
/// on ties).
pub open spec fn spec_best_idx(
    marks: Seq<crate::id_based_vec::Slot<crate::marked_text::Mark<String>>>,
    ids: Seq<crate::id_based_vec::Identifier>,
    upto: int,
) -> int
    decreases upto,
{
    if upto <= 1 {
        0
    } else {
        let b = spec_best_idx(marks, ids, upto - 1);
        if marks[ids[upto - 1].vec_id as int].item->Some_0.start < marks[ids[b].vec_id
            as int].item->Some_0.start {
            upto - 1
        } else {
            b
        }
    }
}

/// One duplicate copy dropped: its span's text removed, every other mark
/// rebased, its own mark removed without cascading (an identifier no longer
/// owned drops nothing).
pub open spec fn spec_drop_copy(
    text: Seq<char>,
    marks: Seq<crate::id_based_vec::Slot<crate::marked_text::Mark<String>>>,
    id: crate::id_based_vec::Identifier,
) -> (Seq<char>, Seq<crate::id_based_vec::Slot<crate::marked_text::Mark<String>>>) {
    if crate::id_based_vec::spec_slots_owns(marks, id) {
        let m = marks[id.vec_id as int].item->Some_0;
        (
            text.take(m.start as int) + text.skip(m.end as int),
            crate::marked_text::spec_replace_base(marks, id.vec_id as int, m, 0).update(
                id.vec_id as int,
                crate::id_based_vec::Slot {
                    iteration: crate::id_based_vec::advance(id.iteration),
                    item: None,
                },
            ),
        )
    } else {
        (text, marks)
    }
}

/// The first `t` group members processed: each but the surviving one
/// dropped.
pub open spec fn spec_drop_copies_upto(
    text: Seq<char>,
    marks: Seq<crate::id_based_vec::Slot<crate::marked_text::Mark<String>>>,
    ids: Seq<crate::id_based_vec::Identifier>,
    best: int,
    t: int,
) -> (Seq<char>, Seq<crate::id_based_vec::Slot<crate::marked_text::Mark<String>>>)
    decreases t,
{
    if t <= 0 {
        (text, marks)
    } else {
        let st = spec_drop_copies_upto(text, marks, ids, best, t - 1);
        if t - 1 == best {
            st
        } else {
            spec_drop_copy(st.0, st.1, ids[t - 1])
        }
    }
}

/// One reconciliation step under `DeleteRepeats`: when the identifier still
/// names a mark and its target carries more than one mark, the group keeps
/// its earliest copy, loses the others, and one warning is recorded with
/// the target and the group size.
pub open spec fn spec_dedup_step(
    text: Seq<char>,
    marks: Seq<crate::id_based_vec::Slot<crate::marked_text::Mark<String>>>,
    id: crate::id_based_vec::Identifier,
    file: String,
    warns: Seq<Warning>,
) -> (Seq<char>, Seq<crate::id_based_vec::Slot<crate::marked_text::Mark<String>>>, Seq<Warning>) {
    if !crate::id_based_vec::spec_slots_owns(marks, id) {
        (text, marks, warns)
    } else {
        let fl = marks[id.vec_id as int].item->Some_0.flag;
        let group = crate::marked_text::spec_flag_ids(marks, fl@);
        if group.len() <= 1 {
            (text, marks, warns)
        } else {
            let b = spec_best_idx(marks, group, group.len() as int);
            let st = spec_drop_copies_upto(text, marks, group, b, group.len() as int);
            (
                st.0,
                st.1,
                warns.push(
                    Warning::MultipleSameIncludes {
                        main_file: file,
                        included_file: fl,
                        times: group.len() as usize,
                        action_done: SameIncludes::DeleteRepeats,
                    },
                ),
            )
        }
    }
}

/// The whole reconciliation under `DeleteRepeats`: the marks present at the
/// start are visited in slot order, each applying one step.
pub open spec fn spec_remove_repeats_upto(
    text0: Seq<char>,
    marks0: Seq<crate::id_based_vec::Slot<crate::marked_text::Mark<String>>>,
    ids: Seq<crate::id_based_vec::Identifier>,
    file: String,
    k: int,
) -> (Seq<char>, Seq<crate::id_based_vec::Slot<crate::marked_text::Mark<String>>>, Seq<Warning>)
    decreases k,
{
    if k <= 0 {
        (text0, marks0, Seq::empty())
    } else {
        let st = spec_remove_repeats_upto(text0, marks0, ids, file, k - 1);
        spec_dedup_step(st.0, st.1, ids[k - 1], file, st.2)
    }
}

/// What `DeleteRepeats` makes of a document: the text, the marks and the
/// recorded warnings after every duplicated target is collapsed to its
/// earliest copy.
pub open spec fn spec_remove_repeats(
    text: Seq<char>,
    marks: Seq<crate::id_based_vec::Slot<crate::marked_text::Mark<String>>>,
    file: String,
) -> (Seq<char>, Seq<crate::id_based_vec::Slot<crate::marked_text::Mark<String>>>, Seq<Warning>) {
    let ids = crate::id_based_vec::spec_current_ids(marks);
    spec_remove_repeats_upto(text, marks, ids, file, ids.len() as int)
}

/// No two marks of the document name the same target.
pub open spec fn spec_distinct_flags(marks: Seq<crate::id_based_vec::Slot<crate::marked_text::Mark<String>>>) -> bool {
    forall|j1: int, j2: int|
        #![trigger marks[j1], marks[j2]]
        0 <= j1 < j2 < marks.len() && marks[j1].item is Some && marks[j2].item is Some
            ==> marks[j1].item->Some_0.flag@ != marks[j2].item->Some_0.flag@
}

impl ShaderContext {
    /// Applies the active duplicate-target policy to a resolved document:
    /// under `DeleteRepeats`, every group of marks naming one target keeps
    /// only its earliest copy, the others' content is emptied and their
    /// marks removed, and one warning per group is recorded; under
    /// `IgnoreAll` and the reserved `ThrowAnError` nothing changes.
    pub fn remove_repeats(
        &self,
        file: &String,
        file_text: MarkedText<String>,
        log: &mut ParseLog,
    ) -> (r: MarkedText<String>)
        requires
            file_text.wf(),
            file_text.spec_text().len() <= isize::MAX,
        ensures
            r.wf(),
            final(log).spec_stack() == old(log).spec_stack(),
            final(log).spec_rules() == old(log).spec_rules(),
            old(log).spec_warnings().len() <= final(log).spec_warnings().len(),
            forall|k: int|
                #![trigger final(log).spec_warnings()[k]]
                0 <= k < old(log).spec_warnings().len() ==> final(log).spec_warnings()[k] == old(
                    log,
                ).spec_warnings()[k],
            forall|k: int|
                #![trigger final(log).spec_warnings()[k]]
                old(log).spec_warnings().len() <= k < final(log).spec_warnings().len() ==> (
                final(log).spec_warnings()[k] matches Warning::MultipleSameIncludes {
                    main_file,
                    action_done,
                    ..
                } && main_file@ == file@ && action_done == SameIncludes::DeleteRepeats),
            old(log).spec_rules().spec_same_includes().spec_value() != SameIncludes::DeleteRepeats
                ==> r.spec_text() == file_text.spec_text() && r.spec_marks()
                == file_text.spec_marks() && final(log).spec_warnings() == old(
                log,
            ).spec_warnings(),
            old(log).spec_rules().spec_same_includes().spec_value() == SameIncludes::DeleteRepeats
                ==> spec_distinct_flags(r.spec_marks()),
            old(log).spec_rules().spec_same_includes().spec_value() == SameIncludes::DeleteRepeats
                ==> ({
                let st = spec_remove_repeats(file_text.spec_text(), file_text.spec_marks(), *file);
                &&& r.spec_text() == st.0
                &&& r.spec_marks() == st.1
                &&& final(log).spec_warnings() == old(log).spec_warnings() + st.2
            }),
    {
        let rule = log.rules().same_includes().value();
        if rule == SameIncludes::IgnoreAll {
            return file_text;
        }
        let ghost orig_text = file_text.spec_text();
        let ghost orig_marks = file_text.spec_marks();
        let mut file_text = file_text;
        let current_marks = file_text.marks().current_elements();
        let ghost ids = current_marks@;
        let mut idx: usize = 0;
        while idx < current_marks.len()
            invariant
                file_text.wf(),
                file_text.spec_text().len() <= orig_text.len(),
                orig_text.len() <= isize::MAX,
                rule == old(log).spec_rules().spec_same_includes().spec_value(),
                rule != SameIncludes::IgnoreAll,
                ids == current_marks@,
                ids == crate::id_based_vec::spec_current_ids(orig_marks),
                rule == SameIncludes::DeleteRepeats ==> ({
                    let st = spec_remove_repeats_upto(orig_text, orig_marks, ids, *file, idx as int);
                    &&& file_text.spec_text() == st.0
                    &&& file_text.spec_marks() == st.1
                    &&& log.spec_warnings() == old(log).spec_warnings() + st.2
                }),
                file_text.spec_marks().len() == orig_marks.len(),
                forall|j: int|
                    #![trigger file_text.spec_marks()[j]]
                    0 <= j < orig_marks.len() && file_text.spec_marks()[j].item is Some ==> {
                        &&& orig_marks[j].item is Some
                        &&& file_text.spec_marks()[j].item->Some_0.flag@
                            == orig_marks[j].item->Some_0.flag@
                        &&& file_text.spec_marks()[j].iteration == orig_marks[j].iteration
                    },
                forall|k: int|
                    #![trigger ids[k]]
                    0 <= k < ids.len() ==> crate::id_based_vec::spec_slots_owns(orig_marks, ids[k])
                        && ids[k].vec_id < orig_marks.len(),
                forall|j: int|
                    0 <= j < orig_marks.len() && orig_marks[j].item is Some ==> exists|k: int|
                        0 <= k < ids.len() && ids[k].vec_id == j,
                idx <= ids.len(),
                rule == SameIncludes::DeleteRepeats ==> (forall|j1: int, j2: int|
                    #![trigger file_text.spec_marks()[j1], file_text.spec_marks()[j2]]
                    0 <= j1 < orig_marks.len() && 0 <= j2 < orig_marks.len() && j1 != j2
                        && file_text.spec_marks()[j1].item is Some
                        && file_text.spec_marks()[j2].item is Some
                        && file_text.spec_marks()[j1].item->Some_0.flag@
                        == file_text.spec_marks()[j2].item->Some_0.flag@ ==> exists|k: int|
                        idx <= k < ids.len() && (ids[k].vec_id == j1 || ids[k].vec_id == j2)),
                log.spec_stack() == old(log).spec_stack(),
                log.spec_rules() == old(log).spec_rules(),
                old(log).spec_warnings().len() <= log.spec_warnings().len(),
                forall|k: int|
                    #![trigger log.spec_warnings()[k]]
                    0 <= k < old(log).spec_warnings().len() ==> log.spec_warnings()[k] == old(
                        log,
                    ).spec_warnings()[k],
                forall|k: int|
                    #![trigger log.spec_warnings()[k]]
                    old(log).spec_warnings().len() <= k < log.spec_warnings().len() ==> (
                    log.spec_warnings()[k] matches Warning::MultipleSameIncludes {
                        main_file,
                        action_done,
                        ..
                    } && main_file@ == file@ && action_done == SameIncludes::DeleteRepeats),
                rule != SameIncludes::DeleteRepeats ==> file_text.spec_text() == orig_text
                    && file_text.spec_marks() == orig_marks && log.spec_warnings() == old(
                    log,
                ).spec_warnings(),
            decreases current_marks@.len() - idx,
        {
            let id = current_marks[idx];
            let ghost marks_h = file_text.spec_marks();
            let ghost text_h = file_text.spec_text();
            let ghost warns_h = log.spec_warnings();
            let flag_opt: Option<String> = match file_text.get_mark(id) {
                Some(m) => Some(m.flag().clone()),
                None => None,
            };
            match flag_opt {
                None => {
                    proof {
                        if rule == SameIncludes::DeleteRepeats {
                            lemma_pair_step_skip(file_text.spec_marks(), ids, idx as int);
                            assert(!crate::id_based_vec::spec_slots_owns(marks_h, id));
                            let st = spec_remove_repeats_upto(orig_text, orig_marks, ids, *file, idx as int);
                            assert(spec_remove_repeats_upto(orig_text, orig_marks, ids, *file, idx + 1)
                                == spec_dedup_step(st.0, st.1, ids[idx as int], *file, st.2));
                            assert(spec_dedup_step(st.0, st.1, ids[idx as int], *file, st.2) == st);
                        }
                    }
                },
                Some(flag) => {
                    let same = file_text.get_marks_by_flag(&flag);
                    if !(same.len() > 1 && rule == SameIncludes::DeleteRepeats) {
                        proof {
                            if rule == SameIncludes::DeleteRepeats {
                                let st = spec_remove_repeats_upto(
                                    orig_text,
                                    orig_marks,
                                    ids,
                                    *file,
                                    idx as int,
                                );
                                assert(crate::id_based_vec::spec_slots_owns(marks_h, id));
                                assert(flag == marks_h[id.vec_id as int].item->Some_0.flag);
                                assert(same@ == crate::marked_text::spec_flag_ids(
                                    marks_h,
                                    marks_h[id.vec_id as int].item->Some_0.flag@,
                                ));
                                assert(spec_remove_repeats_upto(
                                    orig_text,
                                    orig_marks,
                                    ids,
                                    *file,
                                    idx + 1,
                                ) == spec_dedup_step(st.0, st.1, ids[idx as int], *file, st.2));
                                assert(spec_dedup_step(st.0, st.1, ids[idx as int], *file, st.2)
                                    == st);
                                assert forall|j1: int, j2: int|
                                    #![trigger file_text.spec_marks()[j1], file_text.spec_marks()[j2]]
                                    0 <= j1 < orig_marks.len() && 0 <= j2 < orig_marks.len() && j1
                                        != j2 && file_text.spec_marks()[j1].item is Some
                                        && file_text.spec_marks()[j2].item is Some
                                        && file_text.spec_marks()[j1].item->Some_0.flag@
                                        == file_text.spec_marks()[j2].item->Some_0.flag@ implies
                                    exists|k: int|
                                        idx + 1 <= k < ids.len() && (ids[k].vec_id == j1
                                            || ids[k].vec_id == j2) by {
                                    let k0 = choose|k: int|
                                        idx <= k < ids.len() && (ids[k].vec_id == j1 || ids[k].vec_id
                                            == j2);
                                    if k0 == idx {
                                        let jx = ids[idx as int].vec_id as int;
                                        assert(file_text.spec_marks()[jx].item->Some_0.flag@
                                            == flag@);
                                        if file_text.spec_marks()[j1].item->Some_0.flag@ == flag@ {
                                            let ku1 = choose|u: int|
                                                0 <= u < same@.len() && same@[u].vec_id == j1;
                                            let ku2 = choose|u: int|
                                                0 <= u < same@.len() && same@[u].vec_id == j2;
                                            assert(same@[ku1].vec_id != same@[ku2].vec_id);
                                            assert(same@.len() > 1);
                                        }
                                    }
                                }
                            }
                        }
                    }
                    if same.len() > 1 && rule == SameIncludes::DeleteRepeats {
                        let mut best: usize = 0;
                        let mut t: usize = 1;
                        while t < same.len()
                            invariant
                                same@.len() > 0,
                                best < same@.len(),
                                1 <= t <= same@.len(),
                                best as int == spec_best_idx(
                                    file_text.spec_marks(),
                                    same@,
                                    t as int,
                                ),
                                forall|u: int|
                                    #![trigger same@[u]]
                                    0 <= u < same@.len() ==> file_text.spec_owns_mark(same@[u]),
                            decreases same@.len() - t,
                        {
                            let a = match file_text.get_mark(same[t]) {
                                Some(m) => m.start(),
                                None => {
                                    proof {
                                        assert(false);
                                    }
                                    0
                                },
                            };
                            let b = match file_text.get_mark(same[best]) {
                                Some(m) => m.start(),
                                None => {
                                    proof {
                                        assert(false);
                                    }
                                    0
                                },
                            };
                            if a < b {
                                best = t;
                            }
                            t = t + 1;
                        }
                        let warn = Warning::MultipleSameIncludes {
                            main_file: file.clone(),
                            included_file: flag.clone(),
                            times: same.len(),
                            action_done: SameIncludes::DeleteRepeats,
                        };
                        let ghost marks_a = file_text.spec_marks();
                        let ghost text_a = file_text.spec_text();
                        let mut t2: usize = 0;
                        while t2 < same.len()
                            invariant
                                file_text.wf(),
                                t2 <= same@.len(),
                                best < same@.len(),
                                text_a.len() <= isize::MAX,
                                file_text.spec_text().len() <= text_a.len(),
                                (file_text.spec_text(), file_text.spec_marks())
                                    == spec_drop_copies_upto(
                                    text_a,
                                    marks_a,
                                    same@,
                                    best as int,
                                    t2 as int,
                                ),
                                file_text.spec_marks().len() == marks_a.len(),
                                forall|u: int|
                                    #![trigger same@[u]]
                                    0 <= u < same@.len() ==> crate::id_based_vec::spec_slots_owns(
                                        marks_a,
                                        same@[u],
                                    ) && marks_a[same@[u].vec_id as int].item->Some_0.flag@
                                        == flag@,
                                forall|u1: int, u2: int|
                                    0 <= u1 < u2 < same@.len() ==> same@[u1].vec_id
                                        < same@[u2].vec_id,
                                forall|j: int|
                                    0 <= j < marks_a.len() && marks_a[j].item is Some
                                        && marks_a[j].item->Some_0.flag@ == flag@ ==> exists|u: int|
                                        0 <= u < same@.len() && same@[u].vec_id == j,
                                forall|j: int|
                                    #![trigger file_text.spec_marks()[j]]
                                    0 <= j < marks_a.len() && file_text.spec_marks()[j].item
                                        is Some ==> {
                                        &&& marks_a[j].item is Some
                                        &&& file_text.spec_marks()[j].item->Some_0.flag@
                                            == marks_a[j].item->Some_0.flag@
                                        &&& file_text.spec_marks()[j].iteration
                                            == marks_a[j].iteration
                                    },
                                forall|j: int|
                                    #![trigger file_text.spec_marks()[j]]
                                    0 <= j < marks_a.len() && file_text.spec_marks()[j].item
                                        is Some && file_text.spec_marks()[j].item->Some_0.flag@
                                        == flag@ ==> j == same@[best as int].vec_id || (exists|
                                        u: int,
                                    |
                                        t2 <= u < same@.len() && same@[u].vec_id == j),
                            decreases same@.len() - t2,
                        {
                            if t2 != best {
                                let ghost before0 = file_text.spec_marks();
                                let _ = file_text.delete_mark_content(same[t2]);
                                let ghost before = file_text.spec_marks();
                                file_text.remove_mark(same[t2], false);
                                proof {
                                    assert forall|j: int|
                                        #![trigger file_text.spec_marks()[j]]
                                        0 <= j < file_text.spec_marks().len()
                                            && file_text.spec_marks()[j].item is Some implies {
                                        &&& file_text.spec_marks()[j].item->Some_0.start
                                            <= file_text.spec_marks()[j].item->Some_0.end
                                        &&& file_text.spec_marks()[j].item->Some_0.end
                                            <= file_text.spec_text().len()
                                        &&& before0[j].item is Some
                                        &&& file_text.spec_marks()[j].item->Some_0.flag@
                                            == before0[j].item->Some_0.flag@
                                        &&& file_text.spec_marks()[j].iteration
                                            == before0[j].iteration
                                    } by {
                                        assert(before[j] == before[j]);
                                        assert(before0[j] == before0[j]);
                                    }
                                    let st = same@[t2 as int].vec_id as int;
                                    if before0[st].item is Some {
                                        assert(file_text.spec_marks()[st].item is None);
                                    } else {
                                        assert(file_text.spec_marks()[st].item is None);
                                    }
                                    assert((file_text.spec_text(), file_text.spec_marks())
                                        == spec_drop_copy(
                                        spec_drop_copies_upto(
                                            text_a,
                                            marks_a,
                                            same@,
                                            best as int,
                                            t2 as int,
                                        ).0,
                                        spec_drop_copies_upto(
                                            text_a,
                                            marks_a,
                                            same@,
                                            best as int,
                                            t2 as int,
                                        ).1,
                                        same@[t2 as int],
                                    ));
                                }
                            }
                            t2 = t2 + 1;
                            proof {
                                assert((file_text.spec_text(), file_text.spec_marks())
                                    == spec_drop_copies_upto(
                                    text_a,
                                    marks_a,
                                    same@,
                                    best as int,
                                    t2 as int,
                                ));
                            }
                        }
                        proof {
                            if rule == SameIncludes::DeleteRepeats {
                                assert forall|j1: int, j2: int|
                                    #![trigger file_text.spec_marks()[j1], file_text.spec_marks()[j2]]
                                    0 <= j1 < orig_marks.len() && 0 <= j2 < orig_marks.len() && j1
                                        != j2 && file_text.spec_marks()[j1].item is Some
                                        && file_text.spec_marks()[j2].item is Some
                                        && file_text.spec_marks()[j1].item->Some_0.flag@
                                        == file_text.spec_marks()[j2].item->Some_0.flag@ implies
                                    exists|k: int|
                                        idx + 1 <= k < ids.len() && (ids[k].vec_id == j1
                                            || ids[k].vec_id == j2) by {
                                    if file_text.spec_marks()[j1].item->Some_0.flag@ == flag@ {
                                        assert(j1 == same@[best as int].vec_id);
                                        assert(j2 == same@[best as int].vec_id);
                                    } else {
                                        assert(marks_h[j1].item is Some && marks_h[j2].item
                                            is Some);
                                        assert(marks_h[j1].item->Some_0.flag@
                                            == marks_h[j2].item->Some_0.flag@);
                                        let k0 = choose|k: int|
                                            idx <= k < ids.len() && (ids[k].vec_id == j1
                                                || ids[k].vec_id == j2);
                                        if k0 == idx {
                                            let jx = ids[idx as int].vec_id as int;
                                            assert(marks_h[jx].item->Some_0.flag@ == flag@);
                                        }
                                    }
                                }
                            }
                        }
                        log.warn(warn);
                        proof {
                            let st = spec_remove_repeats_upto(
                                orig_text,
                                orig_marks,
                                ids,
                                *file,
                                idx as int,
                            );
                            let fl = marks_h[id.vec_id as int].item->Some_0.flag;
                            assert(flag == fl);
                            assert(same@ == crate::marked_text::spec_flag_ids(marks_h, fl@));
                            assert(best as int == spec_best_idx(marks_h, same@, same@.len() as int));
                            assert(spec_remove_repeats_upto(
                                orig_text,
                                orig_marks,
                                ids,
                                *file,
                                idx + 1,
                            ) == spec_dedup_step(st.0, st.1, ids[idx as int], *file, st.2));
                            assert(warn == (Warning::MultipleSameIncludes {
                                main_file: *file,
                                included_file: fl,
                                times: same@.len() as usize,
                                action_done: SameIncludes::DeleteRepeats,
                            }));
                            assert(log.spec_warnings() =~= old(log).spec_warnings()
                                + spec_dedup_step(st.0, st.1, ids[idx as int], *file, st.2).2);
                        }
                    }
                },
            }
            idx = idx + 1;
        }
        proof {
            if rule == SameIncludes::DeleteRepeats {
                assert(ids.len() == current_marks@.len());
                assert(spec_remove_repeats(orig_text, orig_marks, *file)
                    == spec_remove_repeats_upto(orig_text, orig_marks, ids, *file, ids.len() as int));
            }
        }
        file_text
    }

    /// Loads and fully expands one file that is not yet cached: reads its
    /// text from the store, strips line endings and comments, discovers its
    /// directives, resolves each target recursively (refusing cycles),
    /// splices the results in, reconciles duplicate targets, and caches the
    /// outcome.
    #[verifier::rlimit(100)]
    fn _load_file(&mut self, path: &String, log: ParseLog, store: &FileStore) -> (r: Result<
        ShaderFile,
        ExpandError,
    >)
        requires
            old(self).wf(),
            store.wf(),
            crate::paths::spec_is_absolute(path@),
            spec_stack_ok(log.spec_stack(), store.spec_files()),
            forall|i: int|
                #![trigger log.spec_stack()[i]]
                0 <= i < log.spec_stack().len() ==> spec_cache_find(
                    old(self).spec_cache(),
                    log.spec_stack()[i]@,
                ) is None,
            !spec_in_stack(log.spec_stack(), path@),
            !old(self).spec_cached(path@),
        ensures
            final(self).wf(),
            final(self).spec_main_dir() == old(self).spec_main_dir(),
            final(self).spec_def_rules() == old(self).spec_def_rules(),
            old(self).spec_cache().len() <= final(self).spec_cache().len(),
            forall|k: int|
                #![trigger final(self).spec_cache()[k]]
                0 <= k < old(self).spec_cache().len() ==> final(self).spec_cache()[k] == old(
                    self,
                ).spec_cache()[k],
            forall|k: int|
                #![trigger final(self).spec_cache()[k]]
                old(self).spec_cache().len() <= k < final(self).spec_cache().len()
                    ==> !spec_in_stack(log.spec_stack(), final(self).spec_cache()[k].0@),
            r is Ok ==> r->Ok_0.spec_content().wf() && final(self).spec_cached(path@),
            r is Ok ==> ({
                let i = spec_cache_find(final(self).spec_cache(), path@)->Some_0;
                &&& final(self).spec_cache()[i].1.spec_content().spec_text()
                    == r->Ok_0.spec_content().spec_text()
                &&& final(self).spec_cache()[i].1.spec_warnings() == r->Ok_0.spec_warnings()
            }),
            r is Err ==> !final(self).spec_cached(path@),
            (r is Ok && log.spec_rules().spec_same_includes().spec_value()
                != SameIncludes::DeleteRepeats) ==> r->Ok_0.spec_warnings()
                == log.spec_warnings(),
            store.spec_find(path@) is None ==> (r matches Err(ExpandError::FileNotFound {
                path: p,
            }) && p@ == crate::paths::spec_relative(old(self).spec_main_dir(), path@)),
            (store.spec_find(path@) is Some && crate::paths::spec_parent(path@) is Some
                && crate::scan::spec_directive_scan(
                spec_preprocess(crate::paths::spec_strip_cr(store.spec_find(path@)->Some_0)),
                0,
            ).len() == 0) ==> r is Ok && r->Ok_0.spec_content().spec_text() == spec_preprocess(
                crate::paths::spec_strip_cr(store.spec_find(path@)->Some_0),
            ) && r->Ok_0.spec_warnings() == log.spec_warnings(),
            ({
                let text0 = spec_preprocess(
                    crate::paths::spec_strip_cr(store.spec_find(path@)->Some_0),
                );
                let qs = crate::scan::spec_directive_scan(text0, 0);
                let par = crate::paths::spec_parent(path@)->Some_0;
                (store.spec_find(path@) is Some && crate::paths::spec_parent(path@) is Some
                    && log.spec_rules().spec_same_includes().spec_value()
                    != SameIncludes::DeleteRepeats && spec_targets_cached(
                    old(self).spec_cache(),
                    text0,
                    qs,
                    par,
                ) && spec_splices_fit(
                    text0.len() as int,
                    text0,
                    qs,
                    par,
                    old(self).spec_cache(),
                    0,
                )) ==> r is Ok && r->Ok_0.spec_content().spec_text() == spec_expanded(
                    text0,
                    qs,
                    par,
                    old(self).spec_cache(),
                )
            }),
            ({
                let text0 = spec_preprocess(
                    crate::paths::spec_strip_cr(store.spec_find(path@)->Some_0),
                );
                let qs = crate::scan::spec_directive_scan(text0, 0);
                let par = crate::paths::spec_parent(path@)->Some_0;
                let q0 = spec_target(par, text0, qs[0]);
                let hit = spec_hit(log.spec_stack(), q0, 0, log.spec_stack().len() as int);
                (store.spec_find(path@) is Some && crate::paths::spec_parent(path@) is Some
                    && qs.len() > 0 && hit is Some) ==> (r matches Err(
                    ExpandError::InfiniteRecursion { files },
                ) && str_views(files@) == spec_cycle(
                    old(self).spec_main_dir(),
                    str_views(log.spec_stack()).subrange(
                        hit->Some_0,
                        log.spec_stack().len() as int,
                    ).push(path@),
                ))
            }),
            ({
                let text0 = spec_preprocess(
                    crate::paths::spec_strip_cr(store.spec_find(path@)->Some_0),
                );
                let qs = crate::scan::spec_directive_scan(text0, 0);
                let par = crate::paths::spec_parent(path@)->Some_0;
                let q0 = spec_target(par, text0, qs[0]);
                (store.spec_find(path@) is Some && crate::paths::spec_parent(path@) is Some
                    && qs.len() > 0 && q0 == path@) ==> (r matches Err(
                    ExpandError::InfiniteRecursion { files },
                ) && str_views(files@) == spec_cycle(
                    old(self).spec_main_dir(),
                    seq![path@, path@],
                ))
            }),
            ({
                let text0 = spec_preprocess(
                    crate::paths::spec_strip_cr(store.spec_find(path@)->Some_0),
                );
                let qs = crate::scan::spec_directive_scan(text0, 0);
                let par = crate::paths::spec_parent(path@)->Some_0;
                let q0 = spec_target(par, text0, qs[0]);
                let text1 = spec_preprocess(crate::paths::spec_strip_cr(store.spec_find(q0)->Some_0));
                let qs1 = crate::scan::spec_directive_scan(text1, 0);
                let par1 = crate::paths::spec_parent(q0)->Some_0;
                (store.spec_find(path@) is Some && crate::paths::spec_parent(path@) is Some
                    && qs.len() > 0 && !spec_in_stack(log.spec_stack(), q0) && q0 != path@
                    && spec_cache_find(old(self).spec_cache(), q0) is None && store.spec_find(q0)
                    is Some && crate::paths::spec_parent(q0) is Some && qs1.len() > 0
                    && spec_target(par1, text1, qs1[0]) == path@) ==> (r matches Err(
                    ExpandError::InfiniteRecursion { files },
                ) && str_views(files@) == spec_cycle(
                    old(self).spec_main_dir(),
                    seq![path@, q0],
                ))
            }),
        decreases store.spec_files().len() - log.spec_stack().len(), 0int,
    {
        proof {
            lemma_stack_le_store(log.spec_stack(), store.spec_files());
        }
        let raw = match store.lookup(path) {
            Some(t) => t,
            None => {
                return Err(ExpandError::FileNotFound { path: self.rel_path(path) });
            },
        };
        let text = crate::paths::strip_cr(raw);
        proof {
            lemma_strip_cr_len(raw@);
            lemma_store_find_wf(store.spec_files(), path@);
        }
        let stripped = self.preprocess_text(text);
        let ghost stack_before = log.spec_stack();
        let mut logx = log;
        let mut file_text = match self.find_replaces(stripped, path) {
            Ok(d) => d,
            Err(e) => {
                return Err(e);
            },
        };
        logx.file(path.clone());
        let ghost stack_now = logx.spec_stack();
        proof {
            assert forall|i: int|
                #![trigger stack_now[i]]
                0 <= i < stack_now.len() implies spec_store_find(
                store.spec_files(),
                stack_now[i]@,
            ) is Some by {
                if i < stack_now.len() - 1 {
                    assert(stack_now[i] == stack_before[i]);
                }
            }
            assert forall|i: int, j: int|
                0 <= i < j < stack_now.len() implies stack_now[i]@ != stack_now[j]@ by {
                if j == stack_now.len() - 1 {
                    assert(stack_now[i] == stack_before[i]);
                    assert(!spec_in_stack(stack_before, path@));
                } else {
                    assert(stack_now[i] == stack_before[i]);
                    assert(stack_now[j] == stack_before[j]);
                }
            }
        }
        let ghost qs_len = crate::scan::spec_directive_scan(stripped@, 0).len();
        let ghost cache0 = old(self).spec_cache();
        let ghost text0 = spec_preprocess(
            crate::paths::spec_strip_cr(store.spec_find(path@)->Some_0),
        );
        let ghost qs = crate::scan::spec_directive_scan(text0, 0);
        let ghost par = crate::paths::spec_parent(path@)->Some_0;
        let ghost fast = log.spec_rules().spec_same_includes().spec_value()
            != SameIncludes::DeleteRepeats && spec_targets_cached(cache0, text0, qs, par)
            && spec_splices_fit(text0.len() as int, text0, qs, par, cache0, 0);
        let ghost q0 = spec_target(par, text0, qs[0]);
        let ghost hit0 = spec_hit(log.spec_stack(), q0, 0, log.spec_stack().len() as int);
        let ghost text1 = spec_preprocess(crate::paths::spec_strip_cr(store.spec_find(q0)->Some_0));
        let ghost qs1 = crate::scan::spec_directive_scan(text1, 0);
        let ghost par1 = crate::paths::spec_parent(q0)->Some_0;
        let ghost cyc_hit = qs.len() > 0 && hit0 is Some;
        let ghost cyc_self = qs.len() > 0 && q0 == path@;
        let ghost cyc_two = qs.len() > 0 && !spec_in_stack(log.spec_stack(), q0) && q0 != path@
            && spec_cache_find(cache0, q0) is None && store.spec_find(q0) is Some
            && crate::paths::spec_parent(q0) is Some && qs1.len() > 0 && spec_target(
            par1,
            text1,
            qs1[0],
        ) == path@;
        let no_marks = file_text.marks().empty();
        if no_marks {
            proof {
                if qs_len > 0 {
                    assert(file_text.spec_marks()[0].item is Some);
                }
                assert(qs.len() == 0);
                assert(spec_expanded_prefix(text0, qs, par, cache0, 0) =~= Seq::<char>::empty());
                assert(spec_expanded(text0, qs, par, cache0) =~= text0);
            }
            let entry = ShaderFile { content: file_text, warnings: logx.warnings };
            let out = entry.duplicate();
            let ghost prevc = self.spec_cache();
            self.data.push((path.clone(), entry));
            proof {
                assert(self.spec_cache() == prevc.push(self.spec_cache().last()));
                assert(self.spec_cache()[prevc.len() as int].0@ == path@);
                lemma_cache_find_push(prevc, self.spec_cache().last(), path@);
                lemma_cache_find_none_all_diff(prevc, path@);
                assert forall|k1: int, k2: int|
                    0 <= k1 < k2 < self.spec_cache().len() implies self.spec_cache()[k1].0@
                    != self.spec_cache()[k2].0@ by {
                    assert(self.spec_cache()[k1] == prevc[k1]);
                    if k2 < prevc.len() {
                        assert(self.spec_cache()[k2] == prevc[k2]);
                    } else {
                        assert(self.spec_cache()[k2].0@ == path@);
                    }
                }
                assert forall|k: int|
                    #![trigger self.spec_cache()[k]]
                    0 <= k < self.spec_cache().len() implies self.spec_cache()[
                k].1.spec_content().wf() by {
                    if k < prevc.len() {
                        assert(self.spec_cache()[k] == prevc[k]);
                    }
                }
                assert forall|k: int|
                    #![trigger self.spec_cache()[k]]
                    old(self).spec_cache().len() <= k < self.spec_cache().len()
                        implies !spec_in_stack(stack_before, self.spec_cache()[k].0@) by {
                    assert(k == prevc.len());
                    assert(self.spec_cache()[k].0@ == path@);
                }
            }
            return Ok(out);
        }
        proof {
            if qs_len == 0 {
                assert(file_text.spec_marks().len() == 0);
            }
            assert(qs_len > 0);
        }
        proof {
            assert(text0 == stripped@);
            crate::scan::lemma_directive_scan_sorted(text0, 0);
            assert forall|j: int|
                #![trigger file_text.spec_marks()[j]]
                0 <= j < file_text.spec_marks().len() implies file_text.spec_marks()[j].item
                is Some by {
                assert(qs[j] == qs[j]);
            }
            if fast {
                assert(spec_expanded_prefix(text0, qs, par, cache0, 0) =~= Seq::<char>::empty());
                assert(file_text.spec_text() =~= spec_expanded_prefix(text0, qs, par, cache0, 0)
                    + text0.skip(spec_prev_end(qs, 0)));
            }
        }
        let ids = file_text.marks().current_elements();
        proof {
            crate::id_based_vec::lemma_current_ids_full(file_text.spec_marks());
        }
        let mut idx: usize = 0;
        while idx < ids.len()
            invariant
                self.wf(),
                store.wf(),
                file_text.wf(),
                file_text.spec_text().len() <= isize::MAX,
                self.spec_main_dir() == old(self).spec_main_dir(),
                self.spec_def_rules() == old(self).spec_def_rules(),
                old(self).spec_cache().len() <= self.spec_cache().len(),
                forall|k: int|
                    #![trigger self.spec_cache()[k]]
                    0 <= k < old(self).spec_cache().len() ==> self.spec_cache()[k] == old(
                        self,
                    ).spec_cache()[k],
                forall|k: int|
                    #![trigger self.spec_cache()[k]]
                    old(self).spec_cache().len() <= k < self.spec_cache().len()
                        ==> !spec_in_stack(stack_before, self.spec_cache()[k].0@)
                        && self.spec_cache()[k].0@ != path@,
                !self.spec_cached(path@),
                store.spec_find(path@) is Some,
                crate::scan::spec_directive_scan(
                    spec_preprocess(crate::paths::spec_strip_cr(store.spec_find(path@)->Some_0)),
                    0,
                ).len() > 0,
                cache0 == old(self).spec_cache(),
                text0 == spec_preprocess(
                    crate::paths::spec_strip_cr(store.spec_find(path@)->Some_0),
                ),
                qs == crate::scan::spec_directive_scan(text0, 0),
                par == crate::paths::spec_parent(path@)->Some_0,
                crate::paths::spec_parent(path@) is Some,
                crate::scan::directive_quads_ok(text0, 0, qs),
                ids@.len() == qs.len(),
                forall|k: int|
                    #![trigger ids@[k]]
                    0 <= k < qs.len() ==> ids@[k] == (crate::id_based_vec::Identifier {
                        iteration: 1usize,
                        vec_id: k as usize,
                    }),
                forall|i: int|
                    #![trigger stack_now[i]]
                    0 <= i < stack_now.len() ==> spec_cache_find(
                        self.spec_cache(),
                        stack_now[i]@,
                    ) is None,
                q0 == spec_target(par, text0, qs[0]),
                hit0 == spec_hit(log.spec_stack(), q0, 0, log.spec_stack().len() as int),
                text1 == spec_preprocess(
                    crate::paths::spec_strip_cr(store.spec_find(q0)->Some_0),
                ),
                qs1 == crate::scan::spec_directive_scan(text1, 0),
                par1 == crate::paths::spec_parent(q0)->Some_0,
                cyc_hit == (qs.len() > 0 && hit0 is Some),
                cyc_self == (qs.len() > 0 && q0 == path@),
                cyc_two == (qs.len() > 0 && !spec_in_stack(log.spec_stack(), q0) && q0 != path@
                    && spec_cache_find(cache0, q0) is None && store.spec_find(q0) is Some
                    && crate::paths::spec_parent(q0) is Some && qs1.len() > 0 && spec_target(
                    par1,
                    text1,
                    qs1[0],
                ) == path@),
                !spec_in_stack(log.spec_stack(), path@),
                stack_before == log.spec_stack(),
                idx == 0 ==> self.spec_cache() == cache0,
                idx == 0 ==> file_text.spec_marks().len() >= qs.len(),
                idx == 0 ==> (forall|k: int|
                    #![trigger file_text.spec_marks()[k]]
                    0 <= k < qs.len() ==> {
                        &&& file_text.spec_marks()[k].iteration == 1
                        &&& file_text.spec_marks()[k].item is Some
                        &&& file_text.spec_marks()[k].item->Some_0.flag@ == spec_target(
                            par,
                            text0,
                            qs[k],
                        )
                        &&& crate::paths::spec_is_absolute(
                            file_text.spec_marks()[k].item->Some_0.flag@,
                        )
                    }),
                idx >= 1 ==> !cyc_hit && !cyc_self && !cyc_two,
                fast == (log.spec_rules().spec_same_includes().spec_value()
                    != SameIncludes::DeleteRepeats && spec_targets_cached(
                    cache0,
                    text0,
                    qs,
                    par,
                ) && spec_splices_fit(text0.len() as int, text0, qs, par, cache0, 0)),
                fast ==> self.spec_cache() == cache0,
                fast ==> file_text.spec_text() == spec_expanded_prefix(
                    text0,
                    qs,
                    par,
                    cache0,
                    idx as int,
                ) + text0.skip(spec_prev_end(qs, idx as int)),
                fast ==> spec_splices_fit(
                    file_text.spec_text().len() as int,
                    text0,
                    qs,
                    par,
                    cache0,
                    idx as int,
                ),
                fast ==> file_text.spec_marks().len() >= qs.len(),
                fast ==> (forall|k: int|
                    #![trigger file_text.spec_marks()[k]]
                    idx <= k < qs.len() ==> {
                        &&& file_text.spec_marks()[k].iteration == 1
                        &&& file_text.spec_marks()[k].item is Some
                        &&& file_text.spec_marks()[k].item->Some_0.flag@ == spec_target(
                            par,
                            text0,
                            qs[k],
                        )
                        &&& crate::paths::spec_is_absolute(
                            file_text.spec_marks()[k].item->Some_0.flag@,
                        )
                        &&& file_text.spec_marks()[k].item->Some_0.start == qs[k].0
                            - spec_prev_end(qs, idx as int) + spec_expanded_prefix(
                            text0,
                            qs,
                            par,
                            cache0,
                            idx as int,
                        ).len()
                        &&& file_text.spec_marks()[k].item->Some_0.end == qs[k].1 - spec_prev_end(
                            qs,
                            idx as int,
                        ) + spec_expanded_prefix(text0, qs, par, cache0, idx as int).len()
                    }),
                fast ==> (forall|j: int|
                    #![trigger file_text.spec_marks()[j]]
                    0 <= j < file_text.spec_marks().len() && file_text.spec_marks()[j].item
                        is Some && !(idx <= j < qs.len())
                        ==> file_text.spec_marks()[j].item->Some_0.end <= spec_expanded_prefix(
                        text0,
                        qs,
                        par,
                        cache0,
                        idx as int,
                    ).len()),
                idx <= ids@.len(),
                stack_before == log.spec_stack(),
                logx.spec_warnings() == log.spec_warnings(),
                logx.spec_rules() == log.spec_rules(),
                logx.spec_stack() == stack_now,
                spec_stack_ok(stack_now, store.spec_files()),
                stack_now.len() == stack_before.len() + 1,
                stack_now.last()@ == path@,
                forall|i: int|
                    #![trigger stack_now[i]]
                    0 <= i < stack_before.len() ==> stack_now[i] == stack_before[i],
                crate::paths::spec_is_absolute(path@),
            decreases ids@.len() - idx,
        {
            let id = ids[idx];
            let flag: String = match file_text.get_mark(id) {
                Some(m) => m.flag().clone(),
                None => {
                    proof {
                        if fast {
                            assert(file_text.spec_owns_mark(id));
                        }
                        if idx == 0 {
                            assert(file_text.spec_owns_mark(id));
                        }
                        assert(forall|k: int|
                            #![trigger self.spec_cache()[k]]
                            old(self).spec_cache().len() <= k < self.spec_cache().len()
                                ==> !spec_in_stack(log.spec_stack(), self.spec_cache()[k].0@));
                    }
                    return Err(ExpandError::TextExpandingError { filepath: self.rel_path(path) });
                },
            };
            proof {
                if fast {
                    assert(flag == file_text.spec_marks()[idx as int].item->Some_0.flag);
                    assert(flag@ == spec_target(par, text0, qs[idx as int]));
                    assert(spec_targets_cached(cache0, text0, qs, par));
                    assert(qs[idx as int] == qs[idx as int]);
                    assert(spec_cache_find(cache0, spec_target(par, text0, qs[idx as int]))
                        is Some);
                    assert(spec_cache_find(cache0, flag@) is Some);
                }
                if idx == 0 {
                    assert(flag == file_text.spec_marks()[0].item->Some_0.flag);
                    assert(flag@ == q0);
                    assert(crate::paths::spec_is_absolute(flag@));
                }
            }
            if !crate::paths::is_absolute(&flag) {
                proof {
                    if fast {
                        assert(false);
                    }
                    if idx == 0 {
                        assert(false);
                    }
                    assert(forall|k: int|
                        #![trigger self.spec_cache()[k]]
                        old(self).spec_cache().len() <= k < self.spec_cache().len()
                            ==> !spec_in_stack(log.spec_stack(), self.spec_cache()[k].0@));
                }
                return Err(ExpandError::PathParseError { path: self.rel_path(&flag) });
            }
            let stack_len = logx.stack().len();
            match self.check_recursion(&flag, logx.stack(), stack_len - 1, path) {
                Ok(()) => {},
                Err(e) => {
                    proof {
                        if fast {
                            lemma_hit_some(stack_now, flag@, 0, stack_now.len() - 1);
                            let h = spec_hit(stack_now, flag@, 0, stack_now.len() - 1)->Some_0;
                            assert(spec_cache_find(self.spec_cache(), stack_now[h]@) is None);
                            assert(false);
                        }
                        if idx == 0 {
                            lemma_hit_prefix(
                                stack_now,
                                log.spec_stack(),
                                flag@,
                                0,
                                stack_now.len() - 1,
                            );
                            assert(spec_hit(stack_now, flag@, 0, stack_now.len() - 1) == hit0);
                            lemma_hit_some(stack_now, flag@, 0, stack_now.len() - 1);
                            assert(cyc_hit);
                            assert(str_views(e->InfiniteRecursion_files@) =~= spec_cycle(
                                old(self).spec_main_dir(),
                                str_views(log.spec_stack()).subrange(
                                    hit0->Some_0,
                                    log.spec_stack().len() as int,
                                ).push(path@),
                            ));
                        }
                        assert(forall|k: int|
                            #![trigger self.spec_cache()[k]]
                            old(self).spec_cache().len() <= k < self.spec_cache().len()
                                ==> !spec_in_stack(log.spec_stack(), self.spec_cache()[k].0@));
                    }
                    return Err(e);
                },
            }
            proof {
                if idx == 0 {
                    lemma_hit_prefix(stack_now, log.spec_stack(), flag@, 0, stack_now.len() - 1);
                    assert(!cyc_hit);
                }
            }
            if flag == *path {
                let mut files: Vec<String> = Vec::new();
                files.push(self.rel_path(path));
                files.push(self.rel_path(path));
                proof {
                    if fast {
                        assert(flag@ == path@);
                        assert(false);
                    }
                    if idx == 0 {
                        assert(cyc_self);
                        assert(str_views(files@) =~= spec_cycle(
                            old(self).spec_main_dir(),
                            seq![path@, path@],
                        ));
                    }
                    assert(forall|k: int|
                        #![trigger self.spec_cache()[k]]
                        old(self).spec_cache().len() <= k < self.spec_cache().len()
                            ==> !spec_in_stack(log.spec_stack(), self.spec_cache()[k].0@));
                }
                return Err(ExpandError::InfiniteRecursion { files });
            }
            proof {
                if idx == 0 {
                    assert(!cyc_self);
                }
            }
            proof {
                lemma_hit_none(stack_now, flag@, 0, stack_now.len() - 1);
                assert forall|i: int| 0 <= i < stack_now.len() implies stack_now[i]@ != flag@ by {
                    if i == stack_now.len() - 1 {
                        assert(stack_now[i]@ == path@);
                    }
                }
                lemma_stack_le_store(stack_now, store.spec_files());
            }
            let sub = logx.no_warns();
            let ghost cache_mid = self.spec_cache();
            let child = match self._get_file_processed(&flag, sub, store) {
                Ok(c) => c,
                Err(e) => {
                    proof {
                        if fast {
                            assert(spec_cache_find(cache_mid, flag@) is Some);
                            assert(false);
                        }
                        if idx == 0 && cyc_two {
                            lemma_hit_last(stack_now, path@, 0);
                            assert(spec_hit(stack_now, path@, 0, stack_now.len() as int)
                                == Some(stack_now.len() - 1));
                            assert(str_views(stack_now).subrange(
                                stack_now.len() - 1,
                                stack_now.len() as int,
                            ).push(flag@) =~= seq![path@, flag@]);
                            assert(str_views(e->InfiniteRecursion_files@) =~= spec_cycle(
                                old(self).spec_main_dir(),
                                seq![path@, q0],
                            ));
                        }
                        assert forall|k: int|
                            #![trigger self.spec_cache()[k]]
                            cache_mid.len() <= k < self.spec_cache().len()
                                implies self.spec_cache()[k].0@ != path@ by {
                            assert(spec_in_stack(stack_now, path@));
                            assert(!spec_in_stack(stack_now, self.spec_cache()[k].0@));
                        }
                        lemma_cache_find_extend_none(cache_mid, self.spec_cache(), path@);
                        assert forall|k: int|
                            #![trigger self.spec_cache()[k]]
                            old(self).spec_cache().len() <= k < self.spec_cache().len()
                                implies !spec_in_stack(
                            log.spec_stack(),
                            self.spec_cache()[k].0@,
                        ) by {
                            if k < cache_mid.len() {
                                assert(self.spec_cache()[k] == cache_mid[k]);
                            } else {
                                assert(!spec_in_stack(stack_now, self.spec_cache()[k].0@));
                                if spec_in_stack(stack_before, self.spec_cache()[k].0@) {
                                    let w = choose|i: int|
                                        0 <= i < stack_before.len() && stack_before[i]@
                                            == self.spec_cache()[k].0@;
                                    assert(stack_now[w]@ == self.spec_cache()[k].0@);
                                }
                            }
                        }
                    }
                    return Err(e);
                },
            };
            proof {
                assert forall|k: int|
                    #![trigger self.spec_cache()[k]]
                    old(self).spec_cache().len() <= k < self.spec_cache().len()
                        implies !spec_in_stack(stack_before, self.spec_cache()[k].0@)
                    && self.spec_cache()[k].0@ != path@ by {
                    if k < cache_mid.len() {
                        assert(self.spec_cache()[k] == cache_mid[k]);
                    } else {
                        assert(!spec_in_stack(stack_now, self.spec_cache()[k].0@));
                        assert(stack_now[stack_now.len() - 1]@ == path@);
                        if spec_in_stack(stack_before, self.spec_cache()[k].0@) {
                            let w = choose|i: int|
                                0 <= i < stack_before.len() && stack_before[i]@
                                    == self.spec_cache()[k].0@;
                            assert(stack_now[w]@ == self.spec_cache()[k].0@);
                        }
                    }
                }
                assert forall|k: int|
                    #![trigger self.spec_cache()[k]]
                    cache_mid.len() <= k < self.spec_cache().len() implies self.spec_cache()[k].0@
                    != path@ by {
                    assert(spec_in_stack(stack_now, path@));
                    assert(!spec_in_stack(stack_now, self.spec_cache()[k].0@));
                }
                lemma_cache_find_extend_none(cache_mid, self.spec_cache(), path@);
                assert forall|i: int|
                    #![trigger stack_now[i]]
                    0 <= i < stack_now.len() implies spec_cache_find(
                    self.spec_cache(),
                    stack_now[i]@,
                ) is None by {
                    assert forall|k: int|
                        #![trigger self.spec_cache()[k]]
                        cache_mid.len() <= k < self.spec_cache().len()
                            implies self.spec_cache()[k].0@ != stack_now[i]@ by {
                        assert(!spec_in_stack(stack_now, self.spec_cache()[k].0@));
                    }
                    lemma_cache_find_extend_none(cache_mid, self.spec_cache(), stack_now[i]@);
                }
                if fast {
                    assert(spec_cache_find(cache_mid, flag@) is Some);
                    assert(self.spec_cache() == cache_mid);
                    assert(child.spec_content().spec_text() == spec_cached_text(cache0, flag@));
                }
                if idx == 0 && cyc_two {
                    lemma_hit_last(stack_now, path@, 0);
                    assert(false);
                }
            }
            let ghost marksb = file_text.spec_marks();
            let ghost textb = file_text.spec_text();
            let ok = file_text.replace_mark_content(id, child.content);
            if !ok {
                proof {
                    if fast {
                        assert(textb.len() + child.spec_content().spec_text().len()
                            <= isize::MAX);
                        assert(false);
                    }
                    assert(forall|k: int|
                        #![trigger self.spec_cache()[k]]
                        old(self).spec_cache().len() <= k < self.spec_cache().len()
                            ==> !spec_in_stack(log.spec_stack(), self.spec_cache()[k].0@));
                }
                return Err(ExpandError::TextExpandingError { filepath: self.rel_path(path) });
            }
            proof {
                if idx == 0 {
                    assert(!cyc_two);
                }
            }
            idx = idx + 1;
            proof {
                if fast {
                    lemma_spec_items_all(
                        child.spec_content().spec_marks(),
                        |mm: crate::marked_text::Mark<String>|
                            mm.start <= mm.end && mm.end
                                <= child.spec_content().spec_text().len(),
                    );
                    assert(textb.len() + child.spec_content().spec_text().len() <= isize::MAX);
                    lemma_fast_splice_step(
                        text0,
                        qs,
                        par,
                        cache0,
                        idx - 1,
                        textb,
                        marksb,
                        file_text.spec_text(),
                        file_text.spec_marks(),
                        child.spec_content().spec_text(),
                        spec_items(child.spec_content().spec_marks()),
                    );
                }
            }
        }
        proof {
            if fast {
                assert(file_text.spec_text() =~= spec_expanded(text0, qs, par, cache0));
            }
        }
        let file_text = self.remove_repeats(path, file_text, &mut logx);
        let entry = ShaderFile { content: file_text, warnings: logx.warnings };
        let out = entry.duplicate();
        let ghost prevc = self.spec_cache();
        self.data.push((path.clone(), entry));
        proof {
            assert(self.spec_cache() == prevc.push(self.spec_cache().last()));
            assert(self.spec_cache()[prevc.len() as int].0@ == path@);
            lemma_cache_find_push(prevc, self.spec_cache().last(), path@);
            lemma_cache_find_none_all_diff(prevc, path@);
            assert forall|k1: int, k2: int|
                0 <= k1 < k2 < self.spec_cache().len() implies self.spec_cache()[k1].0@
                != self.spec_cache()[k2].0@ by {
                assert(self.spec_cache()[k1] == prevc[k1]);
                if k2 < prevc.len() {
                    assert(self.spec_cache()[k2] == prevc[k2]);
                } else {
                    assert(self.spec_cache()[k2].0@ == path@);
                }
            }
            assert forall|k: int|
                #![trigger self.spec_cache()[k]]
                0 <= k < self.spec_cache().len() implies self.spec_cache()[
            k].1.spec_content().wf() by {
                if k < prevc.len() {
                    assert(self.spec_cache()[k] == prevc[k]);
                }
            }
            assert forall|k: int|
                #![trigger self.spec_cache()[k]]
                old(self).spec_cache().len() <= k < self.spec_cache().len()
                    implies !spec_in_stack(stack_before, self.spec_cache()[k].0@) by {
                if k < prevc.len() {
                    assert(self.spec_cache()[k] == prevc[k]);
                } else {
                    assert(self.spec_cache()[k].0@ == path@);
                }
            }
        }
        Ok(out)
    }

    /// Answers a resolution request for a canonical absolute path: a cached
    /// file is returned as it stands (no rework, no further reads); an
    /// unknown one is loaded, expanded and cached first.
    fn _get_file_processed(&mut self, path: &String, log: ParseLog, store: &FileStore) -> (r:
        Result<ShaderFile, ExpandError>)
        requires
            old(self).wf(),
            store.wf(),
            crate::paths::spec_is_absolute(path@),
            spec_stack_ok(log.spec_stack(), store.spec_files()),
            forall|i: int|
                #![trigger log.spec_stack()[i]]
                0 <= i < log.spec_stack().len() ==> spec_cache_find(
                    old(self).spec_cache(),
                    log.spec_stack()[i]@,
                ) is None,
            !spec_in_stack(log.spec_stack(), path@),
        ensures
            final(self).wf(),
            final(self).spec_main_dir() == old(self).spec_main_dir(),
            final(self).spec_def_rules() == old(self).spec_def_rules(),
            old(self).spec_cache().len() <= final(self).spec_cache().len(),
            forall|k: int|
                #![trigger final(self).spec_cache()[k]]
                0 <= k < old(self).spec_cache().len() ==> final(self).spec_cache()[k] == old(
                    self,
                ).spec_cache()[k],
            forall|k: int|
                #![trigger final(self).spec_cache()[k]]
                old(self).spec_cache().len() <= k < final(self).spec_cache().len()
                    ==> !spec_in_stack(log.spec_stack(), final(self).spec_cache()[k].0@),
            old(self).spec_cached(path@) ==> ({
                let i = spec_cache_find(old(self).spec_cache(), path@)->Some_0;
                &&& final(self).spec_cache() == old(self).spec_cache()
                &&& r is Ok
                &&& r->Ok_0.spec_content().spec_text() == old(self).spec_cache()[
                i].1.spec_content().spec_text()
                &&& r->Ok_0.spec_warnings() == old(self).spec_cache()[i].1.spec_warnings()
            }),
            r is Ok ==> r->Ok_0.spec_content().wf() && final(self).spec_cached(path@),
            r is Ok ==> ({
                let i = spec_cache_find(final(self).spec_cache(), path@)->Some_0;
                &&& final(self).spec_cache()[i].1.spec_content().spec_text()
                    == r->Ok_0.spec_content().spec_text()
                &&& final(self).spec_cache()[i].1.spec_warnings() == r->Ok_0.spec_warnings()
            }),
            r is Err ==> !final(self).spec_cached(path@),
            (!old(self).spec_cached(path@) && r is Ok
                && log.spec_rules().spec_same_includes().spec_value()
                != SameIncludes::DeleteRepeats) ==> r->Ok_0.spec_warnings()
                == log.spec_warnings(),
            !old(self).spec_cached(path@) && store.spec_find(path@) is None ==> (r matches Err(
                ExpandError::FileNotFound { path: p },
            ) && p@ == crate::paths::spec_relative(old(self).spec_main_dir(), path@)),
            (!old(self).spec_cached(path@) && store.spec_find(path@) is Some
                && crate::paths::spec_parent(path@) is Some && crate::scan::spec_directive_scan(
                spec_preprocess(crate::paths::spec_strip_cr(store.spec_find(path@)->Some_0)),
                0,
            ).len() == 0) ==> r is Ok && r->Ok_0.spec_content().spec_text() == spec_preprocess(
                crate::paths::spec_strip_cr(store.spec_find(path@)->Some_0),
            ) && r->Ok_0.spec_warnings() == log.spec_warnings(),
            ({
                let text0 = spec_preprocess(
                    crate::paths::spec_strip_cr(store.spec_find(path@)->Some_0),
                );
                let qs = crate::scan::spec_directive_scan(text0, 0);
                let par = crate::paths::spec_parent(path@)->Some_0;
                (!old(self).spec_cached(path@) && store.spec_find(path@) is Some
                    && crate::paths::spec_parent(path@) is Some
                    && log.spec_rules().spec_same_includes().spec_value()
                    != SameIncludes::DeleteRepeats && spec_targets_cached(
                    old(self).spec_cache(),
                    text0,
                    qs,
                    par,
                ) && spec_splices_fit(
                    text0.len() as int,
                    text0,
                    qs,
                    par,
                    old(self).spec_cache(),
                    0,
                )) ==> r is Ok && r->Ok_0.spec_content().spec_text() == spec_expanded(
                    text0,
                    qs,
                    par,
                    old(self).spec_cache(),
                )
            }),
            ({
                let text0 = spec_preprocess(
                    crate::paths::spec_strip_cr(store.spec_find(path@)->Some_0),
                );
                let qs = crate::scan::spec_directive_scan(text0, 0);
                let par = crate::paths::spec_parent(path@)->Some_0;
                let q0 = spec_target(par, text0, qs[0]);
                let hit = spec_hit(log.spec_stack(), q0, 0, log.spec_stack().len() as int);
                (!old(self).spec_cached(path@) && store.spec_find(path@) is Some
                    && crate::paths::spec_parent(path@) is Some && qs.len() > 0 && hit is Some)
                    ==> (r matches Err(ExpandError::InfiniteRecursion { files }) && str_views(
                    files@,
                ) == spec_cycle(
                    old(self).spec_main_dir(),
                    str_views(log.spec_stack()).subrange(
                        hit->Some_0,
                        log.spec_stack().len() as int,
                    ).push(path@),
                ))
            }),
            ({
                let text0 = spec_preprocess(
                    crate::paths::spec_strip_cr(store.spec_find(path@)->Some_0),
                );
                let qs = crate::scan::spec_directive_scan(text0, 0);
                let par = crate::paths::spec_parent(path@)->Some_0;
                let q0 = spec_target(par, text0, qs[0]);
                (!old(self).spec_cached(path@) && store.spec_find(path@) is Some
                    && crate::paths::spec_parent(path@) is Some && qs.len() > 0 && q0 == path@)
                    ==> (r matches Err(ExpandError::InfiniteRecursion { files }) && str_views(
                    files@,
                ) == spec_cycle(old(self).spec_main_dir(), seq![path@, path@]))
            }),
            ({
                let text0 = spec_preprocess(
                    crate::paths::spec_strip_cr(store.spec_find(path@)->Some_0),
                );
                let qs = crate::scan::spec_directive_scan(text0, 0);
                let par = crate::paths::spec_parent(path@)->Some_0;
                let q0 = spec_target(par, text0, qs[0]);
                let text1 = spec_preprocess(
                    crate::paths::spec_strip_cr(store.spec_find(q0)->Some_0),
                );
                let qs1 = crate::scan::spec_directive_scan(text1, 0);
                let par1 = crate::paths::spec_parent(q0)->Some_0;
                (!old(self).spec_cached(path@) && store.spec_find(path@) is Some
                    && crate::paths::spec_parent(path@) is Some && qs.len() > 0
                    && !spec_in_stack(log.spec_stack(), q0) && q0 != path@ && spec_cache_find(
                    old(self).spec_cache(),
                    q0,
                ) is None && store.spec_find(q0) is Some && crate::paths::spec_parent(q0) is Some
                    && qs1.len() > 0 && spec_target(par1, text1, qs1[0]) == path@) ==> (r matches
                Err(ExpandError::InfiniteRecursion { files }) && str_views(files@) == spec_cycle(
                    old(self).spec_main_dir(),
                    seq![path@, q0],
                ))
            }),
        decreases store.spec_files().len() - log.spec_stack().len(), 1int,
    {
        match self.cache_lookup(path) {
            Some(i) => {
                proof {
                    lemma_cache_find_bounds(self.spec_cache(), path@);
                }
                Ok(self.data[i].1.duplicate())
            },
            None => self._load_file(path, log, store),
        }
    }

    /// Resolves a requested path to its fully expanded text: the path is
    /// made canonical and absolute, answered from the cache when already
    /// known, and otherwise read, expanded and cached.
    pub fn get_file_processed(&mut self, path: &String, store: &FileStore) -> (r: Result<
        ShaderFile,
        ExpandError,
    >)
        requires
            old(self).wf(),
            store.wf(),
        ensures
            final(self).wf(),
            final(self).spec_main_dir() == old(self).spec_main_dir(),
            final(self).spec_def_rules() == old(self).spec_def_rules(),
            old(self).spec_cache().len() <= final(self).spec_cache().len(),
            forall|k: int|
                #![trigger final(self).spec_cache()[k]]
                0 <= k < old(self).spec_cache().len() ==> final(self).spec_cache()[k] == old(
                    self,
                ).spec_cache()[k],
            old(self).spec_to_absolute(path@) is None ==> (r matches Err(
                ExpandError::PathParseError { path: p },
            ) && p@ == crate::paths::spec_relative(old(self).spec_main_dir(), path@))
                && final(self).spec_cache() == old(self).spec_cache(),
            old(self).spec_to_absolute(path@) is Some ==> ({
                let np = old(self).spec_to_absolute(path@)->Some_0;
                &&& (old(self).spec_cached(np) ==> ({
                    let i = spec_cache_find(old(self).spec_cache(), np)->Some_0;
                    &&& final(self).spec_cache() == old(self).spec_cache()
                    &&& r is Ok
                    &&& r->Ok_0.spec_content().spec_text() == old(self).spec_cache()[
                    i].1.spec_content().spec_text()
                    &&& r->Ok_0.spec_warnings() == old(self).spec_cache()[i].1.spec_warnings()
                }))
                &&& (!old(self).spec_cached(np) && store.spec_find(np) is None ==> (r matches Err(
                    ExpandError::FileNotFound { path: p },
                ) && p@ == crate::paths::spec_relative(old(self).spec_main_dir(), np)))
                &&& ((!old(self).spec_cached(np) && store.spec_find(np) is Some
                    && crate::paths::spec_parent(np) is Some && crate::scan::spec_directive_scan(
                    spec_preprocess(crate::paths::spec_strip_cr(store.spec_find(np)->Some_0)),
                    0,
                ).len() == 0) ==> r is Ok && r->Ok_0.spec_content().spec_text()
                    == spec_preprocess(crate::paths::spec_strip_cr(store.spec_find(np)->Some_0))
                    && r->Ok_0.spec_warnings() == Seq::<Warning>::empty())
                &&& (r is Ok ==> final(self).spec_cached(np))
                &&& (r is Ok ==> ({
                    let i = spec_cache_find(final(self).spec_cache(), np)->Some_0;
                    &&& final(self).spec_cache()[i].1.spec_content().spec_text()
                        == r->Ok_0.spec_content().spec_text()
                    &&& final(self).spec_cache()[i].1.spec_warnings() == r->Ok_0.spec_warnings()
                }))
                &&& (r is Err ==> !final(self).spec_cached(np))
                &&& ((!old(self).spec_cached(np) && r is Ok
                    && old(self).spec_def_rules().spec_same_includes().spec_value()
                    != SameIncludes::DeleteRepeats) ==> r->Ok_0.spec_warnings() == Seq::<
                    Warning,
                >::empty())
                &&& ({
                    let text0 = spec_preprocess(
                        crate::paths::spec_strip_cr(store.spec_find(np)->Some_0),
                    );
                    let qs = crate::scan::spec_directive_scan(text0, 0);
                    let par = crate::paths::spec_parent(np)->Some_0;
                    (!old(self).spec_cached(np) && store.spec_find(np) is Some
                        && crate::paths::spec_parent(np) is Some
                        && old(self).spec_def_rules().spec_same_includes().spec_value()
                        != SameIncludes::DeleteRepeats && spec_targets_cached(
                        old(self).spec_cache(),
                        text0,
                        qs,
                        par,
                    ) && spec_splices_fit(
                        text0.len() as int,
                        text0,
                        qs,
                        par,
                        old(self).spec_cache(),
                        0,
                    )) ==> r is Ok && r->Ok_0.spec_content().spec_text() == spec_expanded(
                        text0,
                        qs,
                        par,
                        old(self).spec_cache(),
                    )
                })
                &&& ({
                    let text0 = spec_preprocess(
                        crate::paths::spec_strip_cr(store.spec_find(np)->Some_0),
                    );
                    let qs = crate::scan::spec_directive_scan(text0, 0);
                    let par = crate::paths::spec_parent(np)->Some_0;
                    let q0 = spec_target(par, text0, qs[0]);
                    (!old(self).spec_cached(np) && store.spec_find(np) is Some
                        && crate::paths::spec_parent(np) is Some && qs.len() > 0 && q0 == np)
                        ==> (r matches Err(ExpandError::InfiniteRecursion { files })
                        && str_views(files@) == spec_cycle(
                        old(self).spec_main_dir(),
                        seq![np, np],
                    ))
                })
                &&& ({
                    let text0 = spec_preprocess(
                        crate::paths::spec_strip_cr(store.spec_find(np)->Some_0),
                    );
                    let qs = crate::scan::spec_directive_scan(text0, 0);
                    let par = crate::paths::spec_parent(np)->Some_0;
                    let q0 = spec_target(par, text0, qs[0]);
                    let text1 = spec_preprocess(
                        crate::paths::spec_strip_cr(store.spec_find(q0)->Some_0),
                    );
                    let qs1 = crate::scan::spec_directive_scan(text1, 0);
                    let par1 = crate::paths::spec_parent(q0)->Some_0;
                    (!old(self).spec_cached(np) && store.spec_find(np) is Some
                        && crate::paths::spec_parent(np) is Some && qs.len() > 0 && q0 != np
                        && spec_cache_find(old(self).spec_cache(), q0) is None
                        && store.spec_find(q0) is Some && crate::paths::spec_parent(q0) is Some
                        && qs1.len() > 0 && spec_target(par1, text1, qs1[0]) == np) ==> (r
                    matches Err(ExpandError::InfiniteRecursion { files }) && str_views(files@)
                        == spec_cycle(old(self).spec_main_dir(), seq![np, q0]))
                })
            }),
    {
        let np = match self.to_absolute(path) {
            Some(p) => p,
            None => {
                return Err(ExpandError::PathParseError { path: self.rel_path(path) });
            },
        };
        let rules = *self.def_rules();
        let log = ParseLog::from_rules(rules);
        self._get_file_processed(&np, log, store)
    }
}


} // verus!
