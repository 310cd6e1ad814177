use glsl_expand::expand::ExpandError;
use glsl_expand::expand::FileStore;
use glsl_expand::expand::ShaderContext;
use glsl_expand::expand::Warning;
use glsl_expand::parse_rules::SameIncludes;

/// A directive line naming a target, written `#` + keyword + quoted name.
fn directive(name: &str) -> String {
    let mut s = String::from("#inc");
    s.push_str("lude \"");
    s.push_str(name);
    s.push('"');
    s
}

fn store_with(entries: &[(&str, &str)]) -> FileStore {
    let mut store = FileStore::new();
    for (p, t) in entries {
        assert!(store.add_file(p.to_string(), t.to_string()));
    }
    store
}

#[test]
fn plain_file_resolves_to_stripped_text() {
    let mut ctx = ShaderContext::from_dir("/shaders".to_string());
    let store = store_with(&[("/shaders/a.vert", "A/*c*/B//d\nC")]);
    let f = ctx.get_file_processed(&"/shaders/a.vert".to_string(), &store).unwrap();
    assert_eq!(f.current_text(), "ABC");
    assert!(f.warnings().is_empty());
}

#[test]
fn block_comments_stay_on_one_line() {
    let mut ctx = ShaderContext::from_dir("/shaders".to_string());
    let store = store_with(&[("/shaders/a.vert", "A/*c\nd*/B")]);
    let f = ctx.get_file_processed(&"/shaders/a.vert".to_string(), &store).unwrap();
    // no closing pair on the opening line: nothing is removed
    assert_eq!(f.current_text(), "A/*c\nd*/B");
}

#[test]
fn line_comment_takes_its_line_break() {
    let mut ctx = ShaderContext::from_dir("/shaders".to_string());
    let store = store_with(&[("/shaders/a.vert", "x//note\ny")]);
    let f = ctx.get_file_processed(&"/shaders/a.vert".to_string(), &store).unwrap();
    assert_eq!(f.current_text(), "xy");
}

#[test]
fn deletion_block_runs_to_next_hash() {
    let mut ctx = ShaderContext::from_dir("/shaders".to_string());
    let store = store_with(&[("/shaders/a.vert", "#[del] junk # keep")]);
    let f = ctx.get_file_processed(&"/shaders/a.vert".to_string(), &store).unwrap();
    assert_eq!(f.current_text(), " keep");
}

#[test]
fn carriage_returns_are_stripped() {
    let mut ctx = ShaderContext::from_dir("/shaders".to_string());
    let store = store_with(&[("/shaders/a.vert", "a\r\nb\r")]);
    let f = ctx.get_file_processed(&"/shaders/a.vert".to_string(), &store).unwrap();
    assert_eq!(f.current_text(), "a\nb");
}

#[test]
fn one_level_expansion_splices_child_text() {
    let mut ctx = ShaderContext::from_dir("/shaders".to_string());
    let mut main = directive("x.h");
    main.push_str("\nvoid main() {}\n");
    let store = store_with(&[("/shaders/m.vert", &main), ("/shaders/x.h", "X")]);
    let f = ctx.get_file_processed(&"/shaders/m.vert".to_string(), &store).unwrap();
    assert_eq!(f.current_text(), "X\nvoid main() {}\n");
}

#[test]
fn cached_result_is_returned_without_further_reads() {
    let mut ctx = ShaderContext::from_dir("/shaders".to_string());
    let store = store_with(&[("/shaders/a.vert", "body")]);
    let first = ctx.get_file_processed(&"/shaders/a.vert".to_string(), &store).unwrap();
    // the second request is answered from the cache: even an empty store will do
    let empty = FileStore::new();
    let second = ctx.get_file_processed(&"/shaders/a.vert".to_string(), &empty).unwrap();
    assert_eq!(first.current_text(), second.current_text());
    assert_eq!(second.current_text(), "body");
}

#[test]
fn cycle_is_refused_with_the_chain() {
    let mut ctx = ShaderContext::from_dir("/shaders".to_string());
    let a = directive("b.h");
    let b = directive("a.h");
    let store = store_with(&[("/shaders/a.h", &a), ("/shaders/b.h", &b)]);
    let err = ctx.get_file_processed(&"/shaders/a.h".to_string(), &store).unwrap_err();
    match err {
        ExpandError::InfiniteRecursion { files } => {
            assert_eq!(files, vec!["a.h".to_string(), "b.h".to_string()]);
        },
        other => panic!("unexpected error: {:?}", other),
    }
}

#[test]
fn self_reference_is_refused() {
    let mut ctx = ShaderContext::from_dir("/shaders".to_string());
    let a = directive("a.h");
    let store = store_with(&[("/shaders/a.h", &a)]);
    let err = ctx.get_file_processed(&"/shaders/a.h".to_string(), &store).unwrap_err();
    match err {
        ExpandError::InfiniteRecursion { files } => {
            assert_eq!(files, vec!["a.h".to_string(), "a.h".to_string()]);
        },
        other => panic!("unexpected error: {:?}", other),
    }
}

#[test]
fn delete_repeats_keeps_one_copy_and_warns() {
    let mut ctx = ShaderContext::from_dir("/shaders".to_string());
    let mut main = directive("x.h");
    main.push('\n');
    main.push_str(&directive("x.h"));
    main.push('\n');
    let store = store_with(&[("/shaders/m.vert", &main), ("/shaders/x.h", "X")]);
    let f = ctx.get_file_processed(&"/shaders/m.vert".to_string(), &store).unwrap();
    assert_eq!(f.current_text(), "X\n\n");
    assert_eq!(f.warnings().len(), 1);
    match &f.warnings()[0] {
        Warning::MultipleSameIncludes { main_file, included_file, times, action_done } => {
            assert_eq!(main_file, "/shaders/m.vert");
            assert_eq!(included_file, "/shaders/x.h");
            assert_eq!(*times, 2);
            assert_eq!(*action_done, SameIncludes::DeleteRepeats);
        },
    }
}

#[test]
fn ignore_all_keeps_both_copies_and_stays_silent() {
    let mut ctx = ShaderContext::from_dir("/shaders".to_string());
    ctx.def_rules_mut().set_same_includes(SameIncludes::IgnoreAll);
    let mut main = directive("x.h");
    main.push('\n');
    main.push_str(&directive("x.h"));
    main.push('\n');
    let store = store_with(&[("/shaders/m.vert", &main), ("/shaders/x.h", "X")]);
    let f = ctx.get_file_processed(&"/shaders/m.vert".to_string(), &store).unwrap();
    assert_eq!(f.current_text(), "X\nX\n");
    assert_eq!(f.warnings().len(), 0);
}

#[test]
fn missing_file_is_reported_relative_to_the_main_directory() {
    let mut ctx = ShaderContext::from_dir("/shaders".to_string());
    let store = FileStore::new();
    let err = ctx.get_file_processed(&"/shaders/lost.vert".to_string(), &store).unwrap_err();
    assert_eq!(err, ExpandError::FileNotFound { path: "lost.vert".to_string() });
}

#[test]
fn relative_request_is_taken_from_the_main_directory() {
    let mut ctx = ShaderContext::from_dir("/shaders".to_string());
    let store = store_with(&[("/shaders/a.vert", "ok")]);
    let f = ctx.get_file_processed(&"a.vert".to_string(), &store).unwrap();
    assert_eq!(f.current_text(), "ok");
}

#[test]
fn unresolvable_path_is_a_parse_error() {
    let mut ctx = ShaderContext::from_dir("rel".to_string());
    let store = FileStore::new();
    let err = ctx.get_file_processed(&"a.vert".to_string(), &store).unwrap_err();
    assert!(matches!(err, ExpandError::PathParseError { .. }));
}

#[test]
fn dotted_targets_are_canonicalised() {
    let mut ctx = ShaderContext::from_dir("/shaders".to_string());
    let main = directive("sub/../x.h");
    let store = store_with(&[("/shaders/m.vert", &main), ("/shaders/x.h", "X")]);
    let f = ctx.get_file_processed(&"/shaders/m.vert".to_string(), &store).unwrap();
    assert_eq!(f.current_text(), "X");
}

#[test]
fn angle_bracket_targets_work_too() {
    let mut ctx = ShaderContext::from_dir("/shaders".to_string());
    let mut main = String::from("#pragma inc");
    main.push_str("lude <x.h>");
    let store = store_with(&[("/shaders/m.vert", &main), ("/shaders/x.h", "X")]);
    let f = ctx.get_file_processed(&"/shaders/m.vert".to_string(), &store).unwrap();
    assert_eq!(f.current_text(), "X");
}

#[test]
fn nested_expansion_goes_deep() {
    let mut ctx = ShaderContext::from_dir("/shaders".to_string());
    let a = directive("b.h");
    let b = directive("c.h");
    let store = store_with(&[
        ("/shaders/a.h", &a),
        ("/shaders/b.h", &b),
        ("/shaders/c.h", "deep"),
    ]);
    let f = ctx.get_file_processed(&"/shaders/a.h".to_string(), &store).unwrap();
    assert_eq!(f.current_text(), "deep");
}

#[test]
fn error_messages_name_the_path() {
    let e = ExpandError::FileNotFound { path: "a.vert".to_string() };
    assert_eq!(e.message(), "File not found: \"a.vert\"");
    let cyc = ExpandError::InfiniteRecursion {
        files: vec!["a.h".to_string(), "b.h".to_string()],
    };
    assert_eq!(cyc.message(), "Infinite recursion error:\na.h -> b.h -> a.h");
}

#[test]
fn warning_messages_carry_the_count() {
    let w = Warning::MultipleSameIncludes {
        main_file: "m.vert".to_string(),
        included_file: "x.h".to_string(),
        times: 12,
        action_done: SameIncludes::DeleteRepeats,
    };
    assert_eq!(
        w.message(),
        "File x.h was added 12 times in file m.vert; every copy but the first was deleted"
    );
}

#[test]
fn decimal_rendering_is_exact() {
    assert_eq!(glsl_expand::expand::decimal_string(0), "0");
    assert_eq!(glsl_expand::expand::decimal_string(7), "7");
    assert_eq!(glsl_expand::expand::decimal_string(345), "345");
}

#[test]
fn store_lookup_finds_the_first_entry() {
    let mut store = FileStore::new();
    assert!(store.add_file("/a".to_string(), "t".to_string()));
    assert_eq!(store.lookup(&"/a".to_string()), Some(&"t".to_string()));
    assert_eq!(store.lookup(&"/b".to_string()), None);
    assert_eq!(store.len(), 1);
}
