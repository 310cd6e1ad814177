use vstd::prelude::*;
use vstd::string::StrSliceExecFns;
use vstd::string::StringExecFns;

verus! {

/// The file kinds the loader distinguishes, judged by extension.
#[derive(Clone, Copy, Debug, PartialEq, Eq, Structural)]
pub enum FileFormat {
    Folder,
    Png,
    Frag,
    Vert,
    Other,
    Error,
}

/// A letter folded to lower case (ASCII letters only: extensions are
/// ASCII).
pub open spec fn spec_lower_char(c: char) -> char {
    if 'A' <= c <= 'Z' {
        ((c as u8) + 32) as char
    } else {
        c
    }
}

pub open spec fn spec_lower(s: Seq<char>) -> Seq<char> {
    s.map(|i: int, c: char| spec_lower_char(c))
}

/// The format an extension names, compared without regard to letter case.
pub open spec fn spec_format_of(s: Seq<char>) -> FileFormat {
    if spec_lower(s) == ""@ {
        FileFormat::Folder
    } else if spec_lower(s) == "png"@ {
        FileFormat::Png
    } else if spec_lower(s) == "frag"@ {
        FileFormat::Frag
    } else if spec_lower(s) == "vert"@ {
        FileFormat::Vert
    } else {
        FileFormat::Other
    }
}

/// The length of the path once trailing separators are dropped.
pub open spec fn spec_trim_slashes(s: Seq<char>, n: int) -> int
    decreases n,
{
    if n <= 0 || n > s.len() {
        if n > s.len() {
            n
        } else {
            0
        }
    } else if s[n - 1] == '/' {
        spec_trim_slashes(s, n - 1)
    } else {
        n
    }
}

/// The position just after the last occurrence of `c` within the first
/// `upto` characters, if any.
pub open spec fn spec_last_char(s: Seq<char>, c: char, upto: int) -> Option<int>
    decreases upto,
{
    if upto <= 0 || upto > s.len() {
        None
    } else if s[upto - 1] == c {
        Some(upto - 1)
    } else {
        spec_last_char(s, c, upto - 1)
    }
}

/// The position of the first occurrence of `c` at or after `i`, or the
/// text's end.
pub open spec fn spec_first_char(s: Seq<char>, c: char, i: int) -> int
    decreases s.len() - i,
{
    if i < 0 || i >= s.len() {
        s.len() as int
    } else if s[i] == c {
        i
    } else {
        spec_first_char(s, c, i + 1)
    }
}

impl FileFormat {
    /// The format a (possibly mixed-case) extension names.
    pub fn from_string(s: String) -> (r: FileFormat)
        ensures
            r == spec_format_of(s@),
    {
        let n = s.as_str().unicode_len();
        let mut lower = String::new();
        let mut i: usize = 0;
        while i < n
            invariant
                n == s@.len(),
                i <= n,
                lower@ == spec_lower(s@).take(i as int),
            decreases n - i,
        {
            let c = s.as_str().get_char(i);
            if 'A' <= c && c <= 'Z' {
                lower.append(lower_letter(c));
            } else {
                lower.append(s.as_str().substring_char(i, i + 1));
                proof {
                    assert(s@.subrange(i as int, i + 1) =~= seq![s@[i as int]]);
                }
            }
            i = i + 1;
            proof {
                assert(lower@ =~= spec_lower(s@).take(i as int));
            }
        }
        proof {
            assert(spec_lower(s@).take(n as int) =~= spec_lower(s@));
            reveal_strlit("");
        }
        if lower.as_str().unicode_len() == 0 {
            proof {
                assert(lower@ =~= ""@);
            }
            FileFormat::Folder
        } else if lower == "png".to_owned() {
            FileFormat::Png
        } else if lower == "frag".to_owned() {
            FileFormat::Frag
        } else if lower == "vert".to_owned() {
            FileFormat::Vert
        } else {
            FileFormat::Other
        }
    }

    /// The format of the path's file name, the last segment before any
    /// trailing separators: a name without a dot is a folder; a path with no
    /// name (the bare root, or nothing at all) cannot be judged; otherwise
    /// the text after the last dot decides.
    pub fn from_path_buf(path: &String) -> (r: FileFormat)
        ensures
            ({
                let trimmed = path@.take(spec_trim_slashes(path@, path@.len() as int));
                let name = match crate::paths::spec_last_slash(trimmed, trimmed.len() as int) {
                    Some(k) => trimmed.skip(k + 1),
                    None => trimmed,
                };
                if name.len() == 0 {
                    r == FileFormat::Error
                } else {
                    match spec_last_char(name, '.', name.len() as int) {
                        None => r == FileFormat::Folder,
                        Some(d) => r == spec_format_of(name.skip(d + 1)),
                    }
                }
            }),
    {
        let full = path.as_str().unicode_len();
        let mut n = full;
        while n > 0 && path.as_str().get_char(n - 1) == '/'
            invariant
                full == path@.len(),
                n <= full,
                spec_trim_slashes(path@, full as int) == spec_trim_slashes(path@, n as int),
            decreases n,
        {
            n = n - 1;
        }
        proof {
            assert(spec_trim_slashes(path@, n as int) == n);
        }
        let ghost trimmed = path@.take(n as int);
        let mut upto = n;
        let mut cut: usize = 0;
        loop
            invariant
                trimmed == path@.take(n as int),
                n <= path@.len(),
                0 <= upto <= n,
                crate::paths::spec_last_slash(trimmed, n as int) == crate::paths::spec_last_slash(
                    trimmed,
                    upto as int,
                ),
            ensures
                ({
                    let name = match crate::paths::spec_last_slash(trimmed, trimmed.len() as int) {
                        Some(k) => trimmed.skip(k + 1),
                        None => trimmed,
                    };
                    cut <= n && trimmed.skip(cut as int) == name
                }),
            decreases upto,
        {
            if upto == 0 {
                cut = 0;
                proof {
                    assert(trimmed.skip(0) =~= trimmed);
                }
                break ;
            }
            if path.as_str().get_char(upto - 1) == '/' {
                cut = upto;
                break ;
            }
            proof {
                assert(trimmed[upto - 1] == path@[upto - 1]);
            }
            upto = upto - 1;
        }
        let name = path.as_str().substring_char(cut, n).to_owned();
        proof {
            assert(name@ =~= trimmed.skip(cut as int));
        }
        let m = name.as_str().unicode_len();
        if m == 0 {
            return FileFormat::Error;
        }
        let mut dot_upto = m;
        let mut dot: Option<usize> = None;
        loop
            invariant_except_break
                dot is None,
            invariant
                m == name@.len(),
                0 <= dot_upto <= m,
                spec_last_char(name@, '.', m as int) == spec_last_char(
                    name@,
                    '.',
                    dot_upto as int,
                ),
            ensures
                match dot {
                    Some(d) => spec_last_char(name@, '.', m as int) == Some(d as int),
                    None => spec_last_char(name@, '.', m as int) is None,
                },
            decreases dot_upto,
        {
            if dot_upto == 0 {
                break ;
            }
            if name.as_str().get_char(dot_upto - 1) == '.' {
                dot = Some(dot_upto - 1);
                break ;
            }
            dot_upto = dot_upto - 1;
        }
        match dot {
            None => FileFormat::Folder,
            Some(d) => {
                proof {
                    lemma_last_char_bounds(name@, '.', m as int);
                }
                FileFormat::from_string(name.as_str().substring_char(d + 1, m).to_owned())
            },
        }
    }

    pub fn is_shader(&self) -> (r: bool)
        ensures
            r == (*self == FileFormat::Frag || *self == FileFormat::Vert),
    {
        match self {
            FileFormat::Frag => true,
            FileFormat::Vert => true,
            _ => false,
        }
    }

    pub fn is_image(&self) -> (r: bool)
        ensures
            r == (*self == FileFormat::Png),
    {
        match self {
            FileFormat::Png => true,
            _ => false,
        }
    }
}

proof fn lemma_last_char_bounds(s: Seq<char>, c: char, upto: int)
    ensures
        spec_last_char(s, c, upto) is Some ==> 0 <= spec_last_char(s, c, upto)->Some_0 < upto,
    decreases upto,
{
    if 0 < upto <= s.len() && s[upto - 1] != c {
        lemma_last_char_bounds(s, c, upto - 1);
    }
}

fn lower_letter(c: char) -> (r: &'static str)
    requires
        'A' <= c <= 'Z',
    ensures
        r@ == seq![spec_lower_char(c)],
{
    proof {
        reveal_strlit("a");
        reveal_strlit("b");
        reveal_strlit("c");
        reveal_strlit("d");
        reveal_strlit("e");
        reveal_strlit("f");
        reveal_strlit("g");
        reveal_strlit("h");
        reveal_strlit("i");
        reveal_strlit("j");
        reveal_strlit("k");
        reveal_strlit("l");
        reveal_strlit("m");
        reveal_strlit("n");
        reveal_strlit("o");
        reveal_strlit("p");
        reveal_strlit("q");
        reveal_strlit("r");
        reveal_strlit("s");
        reveal_strlit("t");
        reveal_strlit("u");
        reveal_strlit("v");
        reveal_strlit("w");
        reveal_strlit("x");
        reveal_strlit("y");
        reveal_strlit("z");
    }
    match c {
        'A' => "a",
        'B' => "b",
        'C' => "c",
        'D' => "d",
        'E' => "e",
        'F' => "f",
        'G' => "g",
        'H' => "h",
        'I' => "i",
        'J' => "j",
        'K' => "k",
        'L' => "l",
        'M' => "m",
        'N' => "n",
        'O' => "o",
        'P' => "p",
        'Q' => "q",
        'R' => "r",
        'S' => "s",
        'T' => "t",
        'U' => "u",
        'V' => "v",
        'W' => "w",
        'X' => "x",
        'Y' => "y",
        _ => "z",
    }
}

/// The stem of a resource name: the text before the first backslash, with
/// its last dot-suffix cut off (kept whole when it has no dot).
pub fn get_first_word(path: String) -> (r: String)
    ensures
        ({
            let w = path@.take(spec_first_char(path@, '\u{5c}', 0));
            match spec_last_char(w, '.', w.len() as int) {
                None => r@ == w,
                Some(d) => r@ == w.take(d),
            }
        }),
{
    let n = path.as_str().unicode_len();
    let mut i: usize = 0;
    while i < n && path.as_str().get_char(i) != '\u{5c}'
        invariant
            n == path@.len(),
            0 <= i <= n,
            spec_first_char(path@, '\u{5c}', 0) == spec_first_char(path@, '\u{5c}', i as int),
        decreases n - i,
    {
        i = i + 1;
    }
    proof {
        assert(spec_first_char(path@, '\u{5c}', i as int) == i);
    }
    let word = path.as_str().substring_char(0, i).to_owned();
    let m = word.as_str().unicode_len();
    let mut dot_upto = m;
    let mut dot: Option<usize> = None;
    loop
        invariant_except_break
            dot is None,
        invariant
            m == word@.len(),
            0 <= dot_upto <= m,
            spec_last_char(word@, '.', m as int) == spec_last_char(word@, '.', dot_upto as int),
        ensures
            match dot {
                Some(d) => spec_last_char(word@, '.', m as int) == Some(d as int),
                None => spec_last_char(word@, '.', m as int) is None,
            },
        decreases dot_upto,
    {
        if dot_upto == 0 {
            break ;
        }
        if word.as_str().get_char(dot_upto - 1) == '.' {
            dot = Some(dot_upto - 1);
            break ;
        }
        dot_upto = dot_upto - 1;
    }
    match dot {
        None => word,
        Some(d) => {
            proof {
                lemma_last_char_bounds(word@, '.', m as int);
            }
            word.as_str().substring_char(0, d).to_owned()
        },
    }
}

} // verus!
